//! One direction of the adjacency data: a set of `(key, peer, kind)` rows kept
//! in a vector in strictly ascending order, so that the rows of one key are
//! contiguous and are listed by peer.

use crate::text::{
    compare_text, lemma_text_lt_asymmetric, lemma_text_lt_transitive, text_lt, Rank, Text,
};
use vstd::prelude::*;
use vstd::slice::slice_subrange;

verus! {

/// The mathematical value of a row: key, peer and kind.
pub type Triple = (Text, Text, Text);

/// Strict lexicographic order on rows: by key, then peer, then kind.
pub open spec fn triple_lt(a: Triple, b: Triple) -> bool {
    ||| text_lt(a.0, b.0)
    ||| a.0 == b.0 && text_lt(a.1, b.1)
    ||| a.0 == b.0 && a.1 == b.1 && text_lt(a.2, b.2)
}

/// Every row of the sequence precedes every later one.
pub open spec fn rows_ascending(rows: Seq<Triple>) -> bool {
    forall|i: int, j: int|
        0 <= i < j < rows.len() ==> triple_lt(#[trigger] rows[i], #[trigger] rows[j])
}

/// The row order is transitive.
pub proof fn lemma_triple_lt_transitive(a: Triple, b: Triple, c: Triple)
    requires
        triple_lt(a, b),
        triple_lt(b, c),
    ensures
        triple_lt(a, c),
{
    if text_lt(a.0, b.0) && text_lt(b.0, c.0) {
        lemma_text_lt_transitive(a.0, b.0, c.0);
    }
    if a.0 == b.0 && b.0 == c.0 {
        if text_lt(a.1, b.1) && text_lt(b.1, c.1) {
            lemma_text_lt_transitive(a.1, b.1, c.1);
        }
        if a.1 == b.1 && b.1 == c.1 {
            lemma_text_lt_transitive(a.2, b.2, c.2);
        }
    }
}

/// Of two rows in order, the second does not precede the first.
pub proof fn lemma_triple_lt_asymmetric(a: Triple, b: Triple)
    requires
        triple_lt(a, b),
    ensures
        !triple_lt(b, a),
        a != b,
{
    if text_lt(a.0, b.0) {
        lemma_text_lt_asymmetric(a.0, b.0);
    } else if text_lt(a.1, b.1) {
        lemma_text_lt_asymmetric(a.1, b.1);
    } else {
        lemma_text_lt_asymmetric(a.2, b.2);
    }
}

/// An ascending sequence of rows holds no row twice.
pub proof fn lemma_rows_ascending_no_duplicates(rows: Seq<Triple>)
    requires
        rows_ascending(rows),
    ensures
        rows.no_duplicates(),
{
    assert forall|i: int, j: int|
        0 <= i < rows.len() && 0 <= j < rows.len() && i != j implies rows[i] != rows[j] by {
        if i < j {
            lemma_triple_lt_asymmetric(rows[i], rows[j]);
        } else {
            lemma_triple_lt_asymmetric(rows[j], rows[i]);
        }
    }
}

/// One stored row. In the forward direction the key is the source of a link
/// and the peer its target; in the reverse direction it is the other way round.
pub struct Entry {
    key: String,
    peer: String,
    kind: String,
}

impl View for Entry {
    type V = Triple;

    closed spec fn view(&self) -> Triple {
        (self.key@, self.peer@, self.kind@)
    }
}

impl Entry {
    /// The entity under which the row is filed.
    pub fn key(&self) -> (r: &str)
        ensures
            r@ == self@.0,
    {
        self.key.as_str()
    }

    /// The entity at the other end of the link.
    pub fn peer(&self) -> (r: &str)
        ensures
            r@ == self@.1,
    {
        self.peer.as_str()
    }

    /// The link's type tag.
    pub fn kind(&self) -> (r: &str)
        ensures
            r@ == self@.2,
    {
        self.kind.as_str()
    }

    /// Where this row stands relative to the row `(key, peer, kind)`.
    fn rank_against(&self, key: &str, peer: &str, kind: &str) -> (r: Rank)
        ensures
            r is Before <==> triple_lt(self@, (key@, peer@, kind@)),
            r is Same <==> self@ == (key@, peer@, kind@),
            r is After <==> triple_lt((key@, peer@, kind@), self@),
    {
        let ghost probe: Triple = (key@, peer@, kind@);
        proof {
            if triple_lt(self@, probe) {
                lemma_triple_lt_asymmetric(self@, probe);
            }
            if triple_lt(probe, self@) {
                lemma_triple_lt_asymmetric(probe, self@);
            }
        }
        match compare_text(self.key.as_str(), key) {
            Rank::Before => Rank::Before,
            Rank::After => Rank::After,
            Rank::Same => match compare_text(self.peer.as_str(), peer) {
                Rank::Before => Rank::Before,
                Rank::After => Rank::After,
                Rank::Same => compare_text(self.kind.as_str(), kind),
            },
        }
    }
}

/// The values of a run of stored rows.
pub open spec fn rows_of(entries: Seq<Entry>) -> Seq<Triple> {
    Seq::new(entries.len(), |i: int| entries[i]@)
}

/// A set of rows, held in ascending order.
pub struct LinkTable {
    entries: Vec<Entry>,
}

impl View for LinkTable {
    type V = Set<Triple>;

    /// The set of rows that the table holds.
    open spec fn view(&self) -> Set<Triple> {
        self.rows().to_set()
    }
}

impl LinkTable {
    /// The rows in the order in which they are stored.
    pub closed spec fn rows(&self) -> Seq<Triple> {
        rows_of(self.entries@)
    }

    /// The rows are strictly ascending, so none is stored twice.
    pub open spec fn wf(&self) -> bool {
        rows_ascending(self.rows())
    }

    /// A table without rows.
    pub fn new() -> (t: Self)
        ensures
            t.wf(),
            t@ == Set::<Triple>::empty(),
    {
        let t = LinkTable { entries: Vec::new() };
        assert(t@ =~= Set::<Triple>::empty());
        t
    }

    /// The first position whose row does not precede `(key, peer, kind)`.
    fn lower_bound(&self, key: &str, peer: &str, kind: &str) -> (idx: usize)
        requires
            self.wf(),
        ensures
            idx <= self.rows().len(),
            forall|i: int|
                0 <= i < idx ==> triple_lt(#[trigger] self.rows()[i], (key@, peer@, kind@)),
            forall|i: int|
                idx <= i < self.rows().len() ==> !triple_lt(
                    #[trigger] self.rows()[i],
                    (key@, peer@, kind@),
                ),
    {
        let ghost probe: Triple = (key@, peer@, kind@);
        let mut lo: usize = 0;
        let mut hi: usize = self.entries.len();
        while lo < hi
            invariant
                self.wf(),
                probe == (key@, peer@, kind@),
                lo <= hi <= self.rows().len(),
                forall|i: int| 0 <= i < lo ==> triple_lt(#[trigger] self.rows()[i], probe),
                forall|i: int|
                    hi <= i < self.rows().len() ==> !triple_lt(#[trigger] self.rows()[i], probe),
            decreases hi - lo,
        {
            let mid: usize = lo + (hi - lo) / 2;
            let ghost pivot = self.rows()[mid as int];
            match self.entries[mid].rank_against(key, peer, kind) {
                Rank::Before => {
                    proof {
                        assert forall|i: int| 0 <= i < mid + 1 implies triple_lt(
                            #[trigger] self.rows()[i],
                            probe,
                        ) by {
                            if i < mid {
                                lemma_triple_lt_transitive(self.rows()[i], pivot, probe);
                            }
                        }
                    }
                    lo = mid + 1;
                },
                _ => {
                    proof {
                        assert forall|i: int| mid <= i < self.rows().len() implies !triple_lt(
                            #[trigger] self.rows()[i],
                            probe,
                        ) by {
                            if mid < i && triple_lt(self.rows()[i], probe) {
                                lemma_triple_lt_transitive(pivot, self.rows()[i], probe);
                            }
                        }
                    }
                    hi = mid;
                },
            }
        }
        lo
    }

    /// Whether a row filed under `k` lies left of the boundary that
    /// `key_bound` looks for: before `key`, or, if `past` is set, at `key` too.
    spec fn left_of(k: Text, key: Text, past: bool) -> bool {
        text_lt(k, key) || (past && k == key)
    }

    /// The first position whose key is not left of the boundary. The keys are
    /// in ascending order, so all rows from there on are right of it.
    fn key_bound(&self, key: &str, past: bool) -> (idx: usize)
        requires
            self.wf(),
        ensures
            idx <= self.rows().len(),
            forall|i: int|
                0 <= i < idx ==> Self::left_of((#[trigger] self.rows()[i]).0, key@, past),
            forall|i: int|
                idx <= i < self.rows().len() ==> !Self::left_of(
                    (#[trigger] self.rows()[i]).0,
                    key@,
                    past,
                ),
    {
        let mut lo: usize = 0;
        let mut hi: usize = self.entries.len();
        while lo < hi
            invariant
                self.wf(),
                lo <= hi <= self.rows().len(),
                forall|i: int|
                    0 <= i < lo ==> Self::left_of((#[trigger] self.rows()[i]).0, key@, past),
                forall|i: int|
                    hi <= i < self.rows().len() ==> !Self::left_of(
                        (#[trigger] self.rows()[i]).0,
                        key@,
                        past,
                    ),
            decreases hi - lo,
        {
            let mid: usize = lo + (hi - lo) / 2;
            let ghost pivot = self.rows()[mid as int].0;
            let left = match compare_text(self.entries[mid].key.as_str(), key) {
                Rank::Before => true,
                Rank::Same => past,
                Rank::After => false,
            };
            proof {
                if text_lt(pivot, key@) {
                    lemma_text_lt_asymmetric(pivot, key@);
                }
                assert(left == Self::left_of(pivot, key@, past));
            }
            if left {
                proof {
                    assert forall|i: int| 0 <= i < mid + 1 implies Self::left_of(
                        (#[trigger] self.rows()[i]).0,
                        key@,
                        past,
                    ) by {
                        if i < mid {
                            assert(triple_lt(self.rows()[i], self.rows()[mid as int]));
                            if text_lt(self.rows()[i].0, pivot) && text_lt(pivot, key@) {
                                lemma_text_lt_transitive(self.rows()[i].0, pivot, key@);
                            }
                        }
                    }
                }
                lo = mid + 1;
            } else {
                proof {
                    assert forall|i: int| mid <= i < self.rows().len() implies !Self::left_of(
                        (#[trigger] self.rows()[i]).0,
                        key@,
                        past,
                    ) by {
                        if mid < i {
                            assert(triple_lt(self.rows()[mid as int], self.rows()[i]));
                            if text_lt(pivot, self.rows()[i].0) && text_lt(self.rows()[i].0, key@) {
                                lemma_text_lt_transitive(pivot, self.rows()[i].0, key@);
                            }
                        }
                    }
                }
                hi = mid;
            }
        }
        lo
    }

    /// The rows filed under `key`, in ascending order of peer and kind; none
    /// if the table has no such row.
    pub fn entries_of(&self, key: &str) -> (run: &[Entry])
        requires
            self.wf(),
        ensures
            rows_ascending(rows_of(run@)),
            rows_of(run@).to_set() == self@.filter(|t: Triple| t.0 == key@),
    {
        let lo: usize = self.key_bound(key, false);
        let hi: usize = self.key_bound(key, true);
        let ghost rows = self.rows();
        proof {
            if hi < lo {
                assert(Self::left_of(rows[hi as int].0, key@, false));
                assert(!Self::left_of(rows[hi as int].0, key@, true));
            }
        }
        let run = slice_subrange(self.entries.as_slice(), lo, hi);
        proof {
            let got = rows_of(run@);
            assert(got =~= rows.subrange(lo as int, hi as int));
            assert forall|t: Triple| got.contains(t) <==> (self@.contains(t) && t.0 == key@) by {
                if got.contains(t) {
                    let i = choose|i: int| 0 <= i < got.len() && got[i] == t;
                    assert(rows[lo + i] == t);
                    assert(!Self::left_of(rows[lo + i].0, key@, false));
                    assert(Self::left_of(rows[lo + i].0, key@, true));
                }
                if self@.contains(t) && t.0 == key@ {
                    let i = choose|i: int| 0 <= i < rows.len() && rows[i] == t;
                    if i < lo {
                        assert(Self::left_of(rows[i].0, key@, false));
                        lemma_text_lt_asymmetric(t.0, key@);
                    }
                    if i >= hi {
                        assert(!Self::left_of(rows[i].0, key@, true));
                    }
                    assert(got[i - lo] == t);
                }
            }
            assert(got.to_set() =~= self@.filter(|t: Triple| t.0 == key@));
        }
        run
    }

    /// Adds the row `(key, peer, kind)` unless the table holds it already, and
    /// tells whether it was new.
    pub fn insert(&mut self, key: &str, peer: &str, kind: &str) -> (fresh: bool)
        requires
            old(self).wf(),
        ensures
            final(self).wf(),
            final(self)@ == old(self)@.insert((key@, peer@, kind@)),
            fresh == !old(self)@.contains((key@, peer@, kind@)),
            !fresh ==> *final(self) == *old(self),
    {
        let ghost probe: Triple = (key@, peer@, kind@);
        let ghost before = self.rows();
        let idx: usize = self.lower_bound(key, peer, kind);
        if idx < self.entries.len() {
            match self.entries[idx].rank_against(key, peer, kind) {
                Rank::Same => {
                    proof {
                        assert(before[idx as int] == probe);
                        assert(self@ =~= self@.insert(probe));
                    }
                    return false;
                },
                _ => {},
            }
        }
        proof {
            assert forall|i: int| idx <= i < before.len() implies triple_lt(
                probe,
                #[trigger] before[i],
            ) by {
                if idx < i {
                    lemma_triple_lt_transitive(probe, before[idx as int], before[i]);
                }
            }
            assert forall|i: int| 0 <= i < before.len() implies #[trigger] before[i] != probe by {
                if i < idx {
                    lemma_triple_lt_asymmetric(before[i], probe);
                } else {
                    lemma_triple_lt_asymmetric(probe, before[i]);
                }
            }
        }
        let entry = Entry { key: key.to_owned(), peer: peer.to_owned(), kind: kind.to_owned() };
        self.entries.insert(idx, entry);
        proof {
            let after = self.rows();
            assert(after =~= before.insert(idx as int, probe));
            assert forall|i: int, j: int| 0 <= i < j < after.len() implies triple_lt(
                #[trigger] after[i],
                #[trigger] after[j],
            ) by {
                let a = if i < idx { i } else { i - 1 };
                let b = if j < idx { j } else { j - 1 };
                if i != idx && j != idx {
                    assert(triple_lt(before[a], before[b]));
                }
            }
            assert(after[idx as int] == probe);
            assert forall|t: Triple| after.contains(t) <==> before.contains(t) || t == probe by {
                if before.contains(t) {
                    let i = choose|i: int| 0 <= i < before.len() && before[i] == t;
                    let k = if i < idx { i } else { i + 1 };
                    assert(after[k] == t);
                }
                if after.contains(t) && t != probe {
                    let k = choose|k: int| 0 <= k < after.len() && after[k] == t;
                    let i = if k < idx { k } else { k - 1 };
                    assert(before[i] == t);
                }
            }
            assert(self@ =~= old(self)@.insert(probe));
        }
        true
    }
}

} // verus!
