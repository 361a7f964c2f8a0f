//! Ascending lists of names: the form in which the queries give their
//! answers, and a set of names built on it.

use crate::text::{
    compare_text, lemma_text_lt_asymmetric, lemma_text_lt_transitive, text_lt, Rank, Text,
};
use vstd::prelude::*;

verus! {

/// Every text of the sequence precedes every later one.
pub open spec fn ascending(s: Seq<Text>) -> bool {
    forall|i: int, j: int| 0 <= i < j < s.len() ==> text_lt(#[trigger] s[i], #[trigger] s[j])
}

/// `s` lists the members of `set`, each once, in ascending order.
pub open spec fn lists(s: Seq<Text>, set: Set<Text>) -> bool {
    &&& ascending(s)
    &&& forall|y: Text| s.contains(y) <==> set.contains(y)
}

/// An ascending sequence holds no text twice.
pub proof fn lemma_ascending_no_duplicates(s: Seq<Text>)
    requires
        ascending(s),
    ensures
        s.no_duplicates(),
{
    assert forall|i: int, j: int| 0 <= i < s.len() && 0 <= j < s.len() && i != j implies s[i]
        != s[j] by {
        if i < j {
            lemma_text_lt_asymmetric(s[i], s[j]);
        } else {
            lemma_text_lt_asymmetric(s[j], s[i]);
        }
    }
}

/// In an ascending sequence a text stands at one position only, and texts
/// stand in the order of their positions.
proof fn lemma_ascending_positions(s: Seq<Text>, i: int, j: int)
    requires
        ascending(s),
        0 <= i < s.len(),
        0 <= j < s.len(),
    ensures
        s[i] == s[j] ==> i == j,
        text_lt(s[i], s[j]) ==> i < j,
{
    if i < j {
        lemma_text_lt_asymmetric(s[i], s[j]);
    } else if j < i {
        lemma_text_lt_asymmetric(s[j], s[i]);
    }
}

/// Two ascending lists with the same members agree on their first `n`
/// positions.
proof fn lemma_listings_agree(a: Seq<Text>, b: Seq<Text>, n: int)
    requires
        ascending(a),
        ascending(b),
        forall|y: Text| a.contains(y) <==> b.contains(y),
        0 <= n <= a.len(),
    ensures
        n <= b.len(),
        forall|i: int| 0 <= i < n ==> a[i] == b[i],
    decreases n,
{
    if n > 0 {
        let m = n - 1;
        lemma_listings_agree(a, b, m);
        // a[m] stands somewhere in b, at m or later.
        assert(a.contains(a[m]));
        let j = choose|j: int| 0 <= j < b.len() && b[j] == a[m];
        if j < m {
            lemma_ascending_positions(a, j, m);
        }
        if j > m {
            // Then b[m] precedes a[m], and stands in a at m or later.
            assert(b.contains(b[m]));
            let k = choose|k: int| 0 <= k < a.len() && a[k] == b[m];
            if k < m {
                lemma_ascending_positions(b, k, m);
            }
            lemma_ascending_positions(a, k, m);
        }
    }
}

/// A set has at most one ascending listing, so a result that is said to list
/// a set is determined by that set.
pub proof fn lemma_listing_unique(a: Seq<Text>, b: Seq<Text>, set: Set<Text>)
    requires
        lists(a, set),
        lists(b, set),
    ensures
        a == b,
{
    lemma_listings_agree(a, b, a.len() as int);
    lemma_listings_agree(b, a, b.len() as int);
    assert(a =~= b);
}

/// A finite set of names, held as an ascending vector.
pub struct NameSet {
    names: Vec<String>,
}

impl View for NameSet {
    type V = Set<Text>;

    /// The set of names held.
    open spec fn view(&self) -> Set<Text> {
        self.listing().to_set()
    }
}

impl NameSet {
    /// The names in the order in which they are stored.
    pub closed spec fn listing(&self) -> Seq<Text> {
        self.names.deep_view()
    }

    /// The names are strictly ascending, so none is held twice.
    pub open spec fn wf(&self) -> bool {
        ascending(self.listing())
    }

    /// The empty set.
    pub fn new() -> (set: Self)
        ensures
            set.wf(),
            set@ == Set::<Text>::empty(),
    {
        let set = NameSet { names: Vec::new() };
        assert(set@ =~= Set::<Text>::empty());
        set
    }

    /// The first position whose name does not precede `name`.
    fn lower_bound(&self, name: &str) -> (idx: usize)
        requires
            self.wf(),
        ensures
            idx <= self.listing().len(),
            forall|i: int| 0 <= i < idx ==> text_lt(#[trigger] self.listing()[i], name@),
            forall|i: int|
                idx <= i < self.listing().len() ==> !text_lt(#[trigger] self.listing()[i], name@),
    {
        let mut lo: usize = 0;
        let mut hi: usize = self.names.len();
        while lo < hi
            invariant
                self.wf(),
                lo <= hi <= self.listing().len(),
                forall|i: int| 0 <= i < lo ==> text_lt(#[trigger] self.listing()[i], name@),
                forall|i: int|
                    hi <= i < self.listing().len() ==> !text_lt(#[trigger] self.listing()[i], name@),
            decreases hi - lo,
        {
            let mid: usize = lo + (hi - lo) / 2;
            let ghost pivot = self.listing()[mid as int];
            match compare_text(self.names[mid].as_str(), name) {
                Rank::Before => {
                    proof {
                        assert forall|i: int| 0 <= i < mid + 1 implies text_lt(
                            #[trigger] self.listing()[i],
                            name@,
                        ) by {
                            if i < mid {
                                lemma_text_lt_transitive(self.listing()[i], pivot, name@);
                            }
                        }
                    }
                    lo = mid + 1;
                },
                _ => {
                    proof {
                        assert forall|i: int| mid <= i < self.listing().len() implies !text_lt(
                            #[trigger] self.listing()[i],
                            name@,
                        ) by {
                            if mid < i && text_lt(self.listing()[i], name@) {
                                lemma_text_lt_transitive(pivot, self.listing()[i], name@);
                            }
                        }
                    }
                    hi = mid;
                },
            }
        }
        lo
    }

    /// The position of `name` if the set holds it, and else the position at
    /// which it would have to be put.
    fn locate(&self, name: &str) -> (at: (usize, bool))
        requires
            self.wf(),
        ensures
            at.0 <= self.listing().len(),
            at.1 == self@.contains(name@),
            at.1 ==> at.0 < self.listing().len() && self.listing()[at.0 as int] == name@,
            forall|i: int| 0 <= i < at.0 ==> text_lt(#[trigger] self.listing()[i], name@),
            !at.1 ==> forall|i: int|
                at.0 <= i < self.listing().len() ==> text_lt(name@, #[trigger] self.listing()[i]),
    {
        let idx: usize = self.lower_bound(name);
        let ghost held = self.listing();
        if idx < self.names.len() {
            match compare_text(self.names[idx].as_str(), name) {
                Rank::Same => {
                    assert(held[idx as int] == name@);
                    return (idx, true);
                },
                _ => {},
            }
        }
        proof {
            assert forall|i: int| idx <= i < held.len() implies text_lt(
                name@,
                #[trigger] held[i],
            ) by {
                if idx < i {
                    lemma_text_lt_transitive(name@, held[idx as int], held[i]);
                }
            }
            assert forall|i: int| 0 <= i < held.len() implies #[trigger] held[i] != name@ by {
                if i < idx {
                    lemma_text_lt_asymmetric(held[i], name@);
                } else {
                    lemma_text_lt_asymmetric(name@, held[i]);
                }
            }
        }
        (idx, false)
    }

    /// Adds `name` unless the set holds it already, and tells whether it was
    /// new.
    pub fn insert(&mut self, name: &str) -> (fresh: bool)
        requires
            old(self).wf(),
        ensures
            final(self).wf(),
            final(self)@ == old(self)@.insert(name@),
            fresh == !old(self)@.contains(name@),
    {
        let ghost before = self.listing();
        let (idx, found): (usize, bool) = self.locate(name);
        if found {
            assert(self@ =~= self@.insert(name@));
            return false;
        }
        self.names.insert(idx, name.to_owned());
        proof {
            let after = self.listing();
            assert(after =~= before.insert(idx as int, name@));
            assert forall|i: int, j: int| 0 <= i < j < after.len() implies text_lt(
                #[trigger] after[i],
                #[trigger] after[j],
            ) by {
                let a = if i < idx { i } else { i - 1 };
                let b = if j < idx { j } else { j - 1 };
                if i != idx && j != idx {
                    assert(text_lt(before[a], before[b]));
                }
            }
            assert(after[idx as int] == name@);
            assert forall|y: Text| after.contains(y) <==> before.contains(y) || y == name@ by {
                if before.contains(y) {
                    let i = choose|i: int| 0 <= i < before.len() && before[i] == y;
                    let k = if i < idx { i } else { i + 1 };
                    assert(after[k] == y);
                }
                if after.contains(y) && y != name@ {
                    let k = choose|k: int| 0 <= k < after.len() && after[k] == y;
                    let i = if k < idx { k } else { k - 1 };
                    assert(before[i] == y);
                }
            }
            assert(self@ =~= old(self)@.insert(name@));
        }
        true
    }

    /// Takes `name` out of the set if it is there.
    pub fn remove(&mut self, name: &str)
        requires
            old(self).wf(),
        ensures
            final(self).wf(),
            final(self)@ == old(self)@.remove(name@),
    {
        let ghost before = self.listing();
        let (idx, found): (usize, bool) = self.locate(name);
        if !found {
            assert(self@ =~= self@.remove(name@));
            return;
        }
        self.names.remove(idx);
        proof {
            let after = self.listing();
            assert(after =~= before.remove(idx as int));
            assert forall|i: int, j: int| 0 <= i < j < after.len() implies text_lt(
                #[trigger] after[i],
                #[trigger] after[j],
            ) by {
                let a = if i < idx { i } else { i + 1 };
                let b = if j < idx { j } else { j + 1 };
                assert(text_lt(before[a], before[b]));
            }
            assert forall|y: Text| after.contains(y) <==> before.contains(y) && y != name@ by {
                if before.contains(y) && y != name@ {
                    let i = choose|i: int| 0 <= i < before.len() && before[i] == y;
                    let k = if i < idx { i } else { i - 1 };
                    assert(after[k] == y);
                }
                if after.contains(y) {
                    let k = choose|k: int| 0 <= k < after.len() && after[k] == y;
                    let i = if k < idx { k } else { k + 1 };
                    assert(before[i] == y);
                    lemma_ascending_positions(before, i, idx as int);
                }
            }
            assert(self@ =~= old(self)@.remove(name@));
        }
    }

    /// The names of the set in ascending order.
    pub fn into_sorted(self) -> (names: Vec<String>)
        requires
            self.wf(),
        ensures
            lists(names.deep_view(), self@),
    {
        self.names
    }
}

} // verus!
