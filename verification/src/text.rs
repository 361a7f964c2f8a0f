//! The order in which identifiers are listed: the lexicographic order of
//! their UTF-8 bytes, which is also the order of `str` in the standard
//! library.

use vstd::prelude::*;
use vstd::utf8::*;

verus! {

/// The mathematical value of a string: its sequence of characters.
pub type Text = Seq<char>;

/// `a` and `b` agree on their first `i` bytes, and at position `i` either `a`
/// has ended while `b` goes on, or `a` holds the smaller byte.
pub open spec fn precedes_at(a: Seq<u8>, b: Seq<u8>, i: int) -> bool {
    &&& 0 <= i <= a.len()
    &&& i < b.len()
    &&& forall|j: int| 0 <= j < i ==> a[j] == b[j]
    &&& (i < a.len() ==> a[i] < b[i])
}

/// Strict lexicographic order on byte sequences.
pub open spec fn bytes_lt(a: Seq<u8>, b: Seq<u8>) -> bool {
    exists|i: int| precedes_at(a, b, i)
}

/// Strict order on texts: the lexicographic order of their UTF-8 encodings.
pub open spec fn text_lt(a: Text, b: Text) -> bool {
    bytes_lt(encode_utf8(a), encode_utf8(b))
}

/// The byte order is transitive.
pub proof fn lemma_bytes_lt_transitive(a: Seq<u8>, b: Seq<u8>, c: Seq<u8>)
    requires
        bytes_lt(a, b),
        bytes_lt(b, c),
    ensures
        bytes_lt(a, c),
{
    let i = choose|i: int| precedes_at(a, b, i);
    let j = choose|j: int| precedes_at(b, c, j);
    let m = if i < j { i } else { j };
    assert(precedes_at(a, c, m));
}

/// Two different byte sequences are ordered one way or the other.
pub proof fn lemma_bytes_lt_total(a: Seq<u8>, b: Seq<u8>)
    requires
        a != b,
    ensures
        bytes_lt(a, b) || bytes_lt(b, a),
{
    lemma_bytes_split(a, b, 0);
}

/// Induction behind `lemma_bytes_lt_total`: walks along the common prefix.
proof fn lemma_bytes_split(a: Seq<u8>, b: Seq<u8>, i: int)
    requires
        a != b,
        0 <= i <= a.len(),
        i <= b.len(),
        forall|j: int| 0 <= j < i ==> a[j] == b[j],
    ensures
        bytes_lt(a, b) || bytes_lt(b, a),
    decreases a.len() - i,
{
    if i == a.len() {
        if i == b.len() {
            assert(a =~= b);
        } else {
            assert(precedes_at(a, b, i));
        }
    } else if i == b.len() {
        assert(precedes_at(b, a, i));
    } else if a[i] < b[i] {
        assert(precedes_at(a, b, i));
    } else if b[i] < a[i] {
        assert(precedes_at(b, a, i));
    } else {
        lemma_bytes_split(a, b, i + 1);
    }
}

/// Texts with the same UTF-8 encoding are the same text.
pub proof fn lemma_encoding_injective(a: Text, b: Text)
    requires
        encode_utf8(a) == encode_utf8(b),
    ensures
        a == b,
{
    encode_utf8_decode_utf8(a);
    encode_utf8_decode_utf8(b);
}

/// No text precedes itself.
pub proof fn lemma_text_lt_irreflexive(a: Text)
    ensures
        !text_lt(a, a),
{
}

/// The text order is transitive.
pub proof fn lemma_text_lt_transitive(a: Text, b: Text, c: Text)
    requires
        text_lt(a, b),
        text_lt(b, c),
    ensures
        text_lt(a, c),
{
    lemma_bytes_lt_transitive(encode_utf8(a), encode_utf8(b), encode_utf8(c));
}

/// Of two texts in order, the second does not precede the first.
pub proof fn lemma_text_lt_asymmetric(a: Text, b: Text)
    requires
        text_lt(a, b),
    ensures
        !text_lt(b, a),
        a != b,
{
    if text_lt(b, a) {
        lemma_text_lt_transitive(a, b, a);
    }
}

/// Two different texts are ordered one way or the other.
pub proof fn lemma_text_lt_total(a: Text, b: Text)
    requires
        a != b,
    ensures
        text_lt(a, b) || text_lt(b, a),
{
    if encode_utf8(a) == encode_utf8(b) {
        lemma_encoding_injective(a, b);
    }
    lemma_bytes_lt_total(encode_utf8(a), encode_utf8(b));
}

/// How one text stands to another in the order.
#[derive(Clone, Copy, Debug)]
pub enum Rank {
    Before,
    Same,
    After,
}

/// Compares two strings byte by byte.
pub fn compare_text(a: &str, b: &str) -> (r: Rank)
    ensures
        r is Before <==> text_lt(a@, b@),
        r is Same <==> a@ == b@,
        r is After <==> text_lt(b@, a@),
{
    let x = a.as_bytes();
    let y = b.as_bytes();
    let n: usize = x.len();
    let m: usize = y.len();
    let mut i: usize = 0;
    while i < n && i < m
        invariant
            x@ == encode_utf8(a@),
            y@ == encode_utf8(b@),
            n == x@.len(),
            m == y@.len(),
            i <= n,
            i <= m,
            forall|j: int| 0 <= j < i ==> x@[j] == y@[j],
        decreases n - i,
    {
        let p: u8 = x[i];
        let q: u8 = y[i];
        if p < q {
            proof {
                assert(precedes_at(x@, y@, i as int));
                lemma_text_lt_asymmetric(a@, b@);
            }
            return Rank::Before;
        }
        if q < p {
            proof {
                assert(precedes_at(y@, x@, i as int));
                lemma_text_lt_asymmetric(b@, a@);
            }
            return Rank::After;
        }
        i += 1;
    }
    if n < m {
        proof {
            assert(precedes_at(x@, y@, i as int));
            lemma_text_lt_asymmetric(a@, b@);
        }
        Rank::Before
    } else if m < n {
        proof {
            assert(precedes_at(y@, x@, i as int));
            lemma_text_lt_asymmetric(b@, a@);
        }
        Rank::After
    } else {
        proof {
            assert(x@ =~= y@);
            lemma_encoding_injective(a@, b@);
        }
        Rank::Same
    }
}

} // verus!
