//! The order of names: lexicographic on the bytes of their UTF-8 encoding,
//! with no case folding and no locale.

use vstd::prelude::*;
use vstd::string::*;
use vstd::utf8::*;

verus! {

/// `a` and `b` hold the same bytes at every position below `k`.
pub open spec fn agree_before(a: Seq<u8>, b: Seq<u8>, k: int) -> bool {
    forall|j: int| 0 <= j < k ==> a[j] == b[j]
}

/// `a` and `b` first differ at position `k`, where `a` holds the smaller byte.
pub open spec fn smaller_at(a: Seq<u8>, b: Seq<u8>, k: int) -> bool {
    &&& 0 <= k < a.len()
    &&& k < b.len()
    &&& agree_before(a, b, k)
    &&& a[k] < b[k]
}

/// Lexicographic order on byte strings: `a` is a prefix of `b`, or holds the
/// smaller byte where the two first differ.
pub open spec fn bytes_le(a: Seq<u8>, b: Seq<u8>) -> bool {
    ||| a.len() <= b.len() && agree_before(a, b, a.len() as int)
    ||| exists|k: int| smaller_at(a, b, k)
}

/// The order in which names are listed.
pub open spec fn name_le(a: Seq<char>, b: Seq<char>) -> bool {
    bytes_le(encode_utf8(a), encode_utf8(b))
}

/// The first position at or after `from` where `a` and `b` differ, or the
/// length of the shorter one.
spec fn first_difference(a: Seq<u8>, b: Seq<u8>, from: int) -> int
    decreases a.len() - from,
{
    if 0 <= from < a.len() && from < b.len() && a[from] == b[from] {
        first_difference(a, b, from + 1)
    } else {
        from
    }
}

proof fn lemma_first_difference(a: Seq<u8>, b: Seq<u8>, from: int)
    requires
        0 <= from <= a.len(),
        from <= b.len(),
        agree_before(a, b, from),
    ensures
        from <= first_difference(a, b, from) <= a.len(),
        first_difference(a, b, from) <= b.len(),
        agree_before(a, b, first_difference(a, b, from)),
        first_difference(a, b, from) < a.len() && first_difference(a, b, from) < b.len()
            ==> a[first_difference(a, b, from)] != b[first_difference(a, b, from)],
    decreases a.len() - from,
{
    if from < a.len() && from < b.len() && a[from] == b[from] {
        lemma_first_difference(a, b, from + 1);
    }
}

/// Every byte string is at or before itself.
pub proof fn lemma_bytes_le_reflexive(a: Seq<u8>)
    ensures
        bytes_le(a, a),
{
}

/// Of two byte strings, one is at or before the other.
pub proof fn lemma_bytes_le_total(a: Seq<u8>, b: Seq<u8>)
    ensures
        bytes_le(a, b) || bytes_le(b, a),
{
    lemma_first_difference(a, b, 0);
    let d = first_difference(a, b, 0);
    if d < a.len() && d < b.len() {
        if a[d] < b[d] {
            assert(smaller_at(a, b, d));
        } else {
            assert(smaller_at(b, a, d));
        }
    }
}

/// Two byte strings that are each at or before the other are the same.
pub proof fn lemma_bytes_le_antisymmetric(a: Seq<u8>, b: Seq<u8>)
    requires
        bytes_le(a, b),
        bytes_le(b, a),
    ensures
        a == b,
{
}

/// The order on byte strings is transitive.
pub proof fn lemma_bytes_le_transitive(a: Seq<u8>, b: Seq<u8>, c: Seq<u8>)
    requires
        bytes_le(a, b),
        bytes_le(b, c),
    ensures
        bytes_le(a, c),
{
    if exists|k: int| smaller_at(a, b, k) {
        let k = choose|k: int| smaller_at(a, b, k);
        if exists|j: int| smaller_at(b, c, j) {
            let j = choose|j: int| smaller_at(b, c, j);
            if j < k {
                assert(smaller_at(a, c, j));
            } else {
                assert(smaller_at(a, c, k));
            }
        }
    } else if exists|j: int| smaller_at(b, c, j) {
        let j = choose|j: int| smaller_at(b, c, j);
        if j < a.len() {
            assert(smaller_at(a, c, j));
        }
    }
}

/// Every name is at or before itself.
pub proof fn lemma_name_le_reflexive(a: Seq<char>)
    ensures
        name_le(a, a),
{
}

/// Of two names, one is at or before the other.
pub proof fn lemma_name_le_total(a: Seq<char>, b: Seq<char>)
    ensures
        name_le(a, b) || name_le(b, a),
{
    lemma_bytes_le_total(encode_utf8(a), encode_utf8(b));
}

/// The order on names is transitive.
pub proof fn lemma_name_le_transitive(a: Seq<char>, b: Seq<char>, c: Seq<char>)
    requires
        name_le(a, b),
        name_le(b, c),
    ensures
        name_le(a, c),
{
    lemma_bytes_le_transitive(encode_utf8(a), encode_utf8(b), encode_utf8(c));
}

/// Two names that are each at or before the other are the same name.
pub proof fn lemma_name_le_antisymmetric(a: Seq<char>, b: Seq<char>)
    requires
        name_le(a, b),
        name_le(b, a),
    ensures
        a == b,
{
    lemma_bytes_le_antisymmetric(encode_utf8(a), encode_utf8(b));
    encode_utf8_decode_utf8(a);
    encode_utf8_decode_utf8(b);
}

/// Decides whether `a` is listed at or before `b`.
pub fn names_in_order(a: &str, b: &str) -> (in_order: bool)
    ensures
        in_order == name_le(a@, b@),
{
    let x = a.as_bytes();
    let y = b.as_bytes();
    let mut i: usize = 0;
    while i < x.len() && i < y.len() && x[i] == y[i]
        invariant
            i <= x.len(),
            i <= y.len(),
            agree_before(x@, y@, i as int),
        decreases x.len() - i,
    {
        i += 1;
    }
    if i == x.len() {
        true
    } else if i == y.len() {
        false
    } else if x[i] < y[i] {
        assert(smaller_at(x@, y@, i as int));
        true
    } else {
        false
    }
}

} // verus!
