//! The order in which stores are visited: ascending by name, names compared
//! byte by byte in their UTF-8 encoding, a proper prefix before its
//! extensions.
use vstd::prelude::*;
use vstd::utf8::{encode_utf8, encode_utf8_decode_utf8};

verus! {

/// `a` comes strictly before `b`: they agree on their first `k` bytes, and
/// there `a` ends while `b` goes on, or `a` holds the smaller byte.
pub open spec fn bytes_lt(a: Seq<u8>, b: Seq<u8>) -> bool {
    exists|k: int| #[trigger] differ_at(a, b, k)
}

/// `k` is the place that decides `a` before `b`.
pub open spec fn differ_at(a: Seq<u8>, b: Seq<u8>, k: int) -> bool {
    &&& 0 <= k <= a.len()
    &&& k < b.len()
    &&& a.subrange(0, k) == b.subrange(0, k)
    &&& (k == a.len() || a[k] < b[k])
}

/// The name `a` comes strictly before the name `b`.
pub open spec fn name_lt(a: Seq<char>, b: Seq<char>) -> bool {
    bytes_lt(encode_utf8(a), encode_utf8(b))
}

/// The names stand in strictly ascending order; none occurs twice.
pub open spec fn ascending(names: Seq<Seq<char>>) -> bool {
    forall|i: int, j: int| 0 <= i < j < names.len() ==> name_lt(#[trigger] names[i], #[trigger] names[j])
}

/// How two names compare.
#[derive(Debug, Clone, Copy, PartialEq, Eq)]
pub enum NameOrder {
    Before,
    Same,
    After,
}

/// Nothing comes before itself.
pub proof fn lemma_bytes_lt_irreflexive(a: Seq<u8>)
    ensures
        !bytes_lt(a, a),
{
}

/// The order is transitive.
pub proof fn lemma_bytes_lt_transitive(a: Seq<u8>, b: Seq<u8>, c: Seq<u8>)
    requires
        bytes_lt(a, b),
        bytes_lt(b, c),
    ensures
        bytes_lt(a, c),
{
    let k1 = choose|k: int| differ_at(a, b, k);
    let k2 = choose|k: int| differ_at(b, c, k);
    let k = if k1 <= k2 { k1 } else { k2 };
    assert(a.subrange(0, k) =~= a.subrange(0, k1).subrange(0, k));
    assert(b.subrange(0, k) =~= b.subrange(0, k1).subrange(0, k));
    assert(b.subrange(0, k) =~= b.subrange(0, k2).subrange(0, k));
    assert(c.subrange(0, k) =~= c.subrange(0, k2).subrange(0, k));
    if k1 < k2 {
        assert(b.subrange(0, k2)[k1] == c.subrange(0, k2)[k1]);
    } else if k2 < k1 {
        assert(a.subrange(0, k1)[k2] == b.subrange(0, k1)[k2]);
    }
    assert(differ_at(a, c, k));
}

/// Two names that encode to the same bytes are the same name.
pub proof fn lemma_encoding_is_injective(a: Seq<char>, b: Seq<char>)
    requires
        encode_utf8(a) == encode_utf8(b),
    ensures
        a == b,
{
    encode_utf8_decode_utf8(a);
    encode_utf8_decode_utf8(b);
}

/// A name does not come before itself, and of two names at most one comes
/// before the other.
pub proof fn lemma_name_lt_asymmetric(a: Seq<char>, b: Seq<char>)
    requires
        name_lt(a, b),
    ensures
        a != b,
        !name_lt(b, a),
{
    if name_lt(b, a) {
        lemma_bytes_lt_transitive(encode_utf8(a), encode_utf8(b), encode_utf8(a));
    }
}

/// The order on names is transitive.
pub proof fn lemma_name_lt_transitive(a: Seq<char>, b: Seq<char>, c: Seq<char>)
    requires
        name_lt(a, b),
        name_lt(b, c),
    ensures
        name_lt(a, c),
{
    lemma_bytes_lt_transitive(encode_utf8(a), encode_utf8(b), encode_utf8(c));
}

/// Compares two names: exactly one of "before", "same" and "after" holds of
/// any two names, and this says which.
pub fn compare_names(a: &str, b: &str) -> (order: NameOrder)
    ensures
        order == NameOrder::Before <==> name_lt(a@, b@),
        order == NameOrder::Same <==> a@ == b@,
        order == NameOrder::After <==> name_lt(b@, a@),
{
    let x = a.as_bytes();
    let y = b.as_bytes();
    let mut i: usize = 0;
    while i < x.len() && i < y.len()
        invariant
            i <= x.len(),
            i <= y.len(),
            x@ == encode_utf8(a@),
            y@ == encode_utf8(b@),
            x@.subrange(0, i as int) == y@.subrange(0, i as int),
        decreases x.len() - i,
    {
        if x[i] < y[i] {
            proof {
                assert(differ_at(x@, y@, i as int));
                lemma_name_lt_asymmetric(a@, b@);
            }
            return NameOrder::Before;
        }
        if y[i] < x[i] {
            proof {
                assert(differ_at(y@, x@, i as int));
                lemma_name_lt_asymmetric(b@, a@);
            }
            return NameOrder::After;
        }
        proof {
            assert(x@.subrange(0, i + 1) =~= x@.subrange(0, i as int).push(x@[i as int]));
            assert(y@.subrange(0, i + 1) =~= y@.subrange(0, i as int).push(y@[i as int]));
        }
        i = i + 1;
    }
    if i < y.len() {
        proof {
            assert(differ_at(x@, y@, i as int));
            lemma_name_lt_asymmetric(a@, b@);
        }
        NameOrder::Before
    } else if i < x.len() {
        proof {
            assert(differ_at(y@, x@, i as int));
            lemma_name_lt_asymmetric(b@, a@);
        }
        NameOrder::After
    } else {
        proof {
            assert(x@ =~= x@.subrange(0, i as int));
            assert(y@ =~= y@.subrange(0, i as int));
            lemma_encoding_is_injective(a@, b@);
            lemma_bytes_lt_irreflexive(x@);
        }
        NameOrder::Same
    }
}

} // verus!
