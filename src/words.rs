//! The order on words: lexicographic on their UTF-8 bytes, as `str` orders.
use vstd::prelude::*;
use vstd::utf8::*;

verus! {

/// `a` and `b` agree on their first `k` bytes.
pub open spec fn agree_upto(a: Seq<u8>, b: Seq<u8>, k: int) -> bool {
    &&& 0 <= k <= a.len()
    &&& k <= b.len()
    &&& forall|i: int| 0 <= i < k ==> a[i] == b[i]
}

/// `k` is the first place where `a` and `b` part, and there `a` is the smaller:
/// either `a` ends there and `b` goes on, or `a` has the smaller byte there.
pub open spec fn parts_below(a: Seq<u8>, b: Seq<u8>, k: int) -> bool {
    &&& agree_upto(a, b, k)
    &&& k < b.len()
    &&& (k == a.len() || a[k] < b[k])
}

/// Lexicographic order on byte strings.
pub open spec fn bytes_lt(a: Seq<u8>, b: Seq<u8>) -> bool {
    exists|k: int| parts_below(a, b, k)
}

/// Order on words: lexicographic on their UTF-8 encodings.
pub open spec fn word_lt(a: Seq<char>, b: Seq<char>) -> bool {
    bytes_lt(encode_utf8(a), encode_utf8(b))
}

/// The byte order is asymmetric, and so irreflexive.
pub proof fn lemma_bytes_lt_irreflexive(a: Seq<u8>, b: Seq<u8>)
    requires
        bytes_lt(a, b),
    ensures
        !bytes_lt(b, a),
        a != b,
{
    let k1 = choose|k: int| parts_below(a, b, k);
    if bytes_lt(b, a) {
        let k2 = choose|k: int| parts_below(b, a, k);
        if k1 < k2 {
            assert(a[k1] == b[k1]);
        } else if k2 < k1 {
            assert(a[k2] == b[k2]);
        }
    }
    if a == b {
        assert(a[k1] == b[k1]);
    }
}

/// The byte order is transitive.
pub proof fn lemma_bytes_lt_transitive(a: Seq<u8>, b: Seq<u8>, c: Seq<u8>)
    requires
        bytes_lt(a, b),
        bytes_lt(b, c),
    ensures
        bytes_lt(a, c),
{
    let k1 = choose|k: int| parts_below(a, b, k);
    let k2 = choose|k: int| parts_below(b, c, k);
    if k1 < k2 {
        assert(parts_below(a, c, k1));
    } else if k2 < k1 {
        assert(parts_below(a, c, k2));
    } else {
        assert(parts_below(a, c, k1));
    }
}

/// The word order is asymmetric, and so irreflexive.
pub proof fn lemma_word_lt_irreflexive(a: Seq<char>, b: Seq<char>)
    requires
        word_lt(a, b),
    ensures
        !word_lt(b, a),
        a != b,
{
    lemma_bytes_lt_irreflexive(encode_utf8(a), encode_utf8(b));
}

/// The word order is transitive.
pub proof fn lemma_word_lt_transitive(a: Seq<char>, b: Seq<char>, c: Seq<char>)
    requires
        word_lt(a, b),
        word_lt(b, c),
    ensures
        word_lt(a, c),
{
    lemma_bytes_lt_transitive(encode_utf8(a), encode_utf8(b), encode_utf8(c));
}

/// Any two different byte strings are ordered one way or the other.
pub proof fn lemma_bytes_lt_total(a: Seq<u8>, b: Seq<u8>)
    ensures
        a == b || bytes_lt(a, b) || bytes_lt(b, a),
    decreases a.len(),
{
    if a.len() == 0 && b.len() == 0 {
        assert(a =~= b);
    } else if a.len() == 0 {
        assert(parts_below(a, b, 0));
    } else if b.len() == 0 {
        assert(parts_below(b, a, 0));
    } else if a[0] != b[0] {
        if a[0] < b[0] {
            assert(parts_below(a, b, 0));
        } else {
            assert(parts_below(b, a, 0));
        }
    } else {
        let x = a.drop_first();
        let y = b.drop_first();
        lemma_bytes_lt_total(x, y);
        if x == y {
            assert forall|i: int| 0 <= i < a.len() implies a[i] == b[i] by {
                if i > 0 {
                    assert(x[i - 1] == y[i - 1]);
                }
            }
            assert(a =~= b);
        } else if bytes_lt(x, y) {
            let k = choose|k: int| parts_below(x, y, k);
            assert forall|i: int| 0 <= i < k + 1 implies a[i] == b[i] by {
                if i > 0 {
                    assert(x[i - 1] == y[i - 1]);
                }
            }
            assert(parts_below(a, b, k + 1));
        } else {
            let k = choose|k: int| parts_below(y, x, k);
            assert forall|i: int| 0 <= i < k + 1 implies b[i] == a[i] by {
                if i > 0 {
                    assert(y[i - 1] == x[i - 1]);
                }
            }
            assert(parts_below(b, a, k + 1));
        }
    }
}

/// Any two different words are ordered one way or the other.
pub proof fn lemma_word_lt_total(a: Seq<char>, b: Seq<char>)
    ensures
        a == b || word_lt(a, b) || word_lt(b, a),
{
    lemma_bytes_lt_total(encode_utf8(a), encode_utf8(b));
    encode_utf8_decode_utf8(a);
    encode_utf8_decode_utf8(b);
}

/// How two words compare.
#[derive(Debug, Clone, Copy, PartialEq, Eq, Structural)]
pub enum WordOrder {
    Less,
    Equal,
    Greater,
}

/// Compares two words byte by byte.
pub fn compare_words(a: &str, b: &str) -> (r: WordOrder)
    ensures
        r == WordOrder::Less <==> word_lt(a@, b@),
        r == WordOrder::Greater <==> word_lt(b@, a@),
        r == WordOrder::Equal <==> a@ == b@,
{
    let x = a.as_bytes();
    let y = b.as_bytes();
    let ghost xs = encode_utf8(a@);
    let ghost ys = encode_utf8(b@);
    let mut i: usize = 0;
    while i < x.len() && i < y.len() && x[i] == y[i]
        invariant
            x@ == xs,
            y@ == ys,
            agree_upto(xs, ys, i as int),
        decreases x.len() - i,
    {
        i = i + 1;
    }
    proof {
        encode_utf8_decode_utf8(a@);
        encode_utf8_decode_utf8(b@);
    }
    if i < x.len() && i < y.len() {
        if x[i] < y[i] {
            assert(parts_below(xs, ys, i as int));
            proof { lemma_word_lt_irreflexive(a@, b@); }
            WordOrder::Less
        } else {
            assert(parts_below(ys, xs, i as int));
            proof { lemma_word_lt_irreflexive(b@, a@); }
            WordOrder::Greater
        }
    } else if i < y.len() {
        assert(parts_below(xs, ys, i as int));
        proof { lemma_word_lt_irreflexive(a@, b@); }
        WordOrder::Less
    } else if i < x.len() {
        assert(parts_below(ys, xs, i as int));
        proof { lemma_word_lt_irreflexive(b@, a@); }
        WordOrder::Greater
    } else {
        assert(xs =~= ys);
        assert(a@ == b@);
        proof {
            if word_lt(a@, b@) {
                lemma_word_lt_irreflexive(a@, b@);
            }
        }
        WordOrder::Equal
    }
}

} // verus!
