//! Laws of the comparisons and of the hash value.
use std::collections::hash_map::DefaultHasher;

use vstd::prelude::*;
use vstd::std_specs::hash::DefaultHasherAdditionalSpecFns;

use crate::compare::{comparison, hash_value, less, less_from};
use crate::object::{PyComparisonValue, PyObject, bytes_like};

verus! {

/// Where [`less_from`] decides: at the first position at which two byte strings differ.
proof fn lemma_less_from(a: Seq<u8>, b: Seq<u8>, i: int, k: int)
    requires
        0 <= i <= k,
        k <= a.len(),
        k <= b.len(),
        forall|j: int| i <= j < k ==> a[j] == b[j],
    ensures
        less_from(a, b, i) == less_from(a, b, k),
    decreases k - i,
{
    if i < k {
        lemma_less_from(a, b, i + 1, k);
    }
}

/// The first position from `i` on at which two byte strings differ, or at which one of them ends.
spec fn first_difference(a: Seq<u8>, b: Seq<u8>, i: int) -> int
    decreases b.len() - i,
{
    if i < a.len() && i < b.len() && a[i] == b[i] {
        first_difference(a, b, i + 1)
    } else {
        i
    }
}

proof fn lemma_first_difference(a: Seq<u8>, b: Seq<u8>, i: int)
    requires
        0 <= i <= a.len(),
        i <= b.len(),
    ensures
        ({
            let k = first_difference(a, b, i);
            &&& i <= k <= a.len()
            &&& k <= b.len()
            &&& forall|j: int| i <= j < k ==> a[j] == b[j]
            &&& k < a.len() && k < b.len() ==> a[k] != b[k]
        }),
    decreases b.len() - i,
{
    if i < a.len() && i < b.len() && a[i] == b[i] {
        lemma_first_difference(a, b, i + 1);
    }
}

/// Of two byte strings either they are equal, or exactly one is before the other.
pub proof fn law_order_is_total(a: Seq<u8>, b: Seq<u8>)
    ensures
        a == b ==> !less(a, b) && !less(b, a),
        a != b ==> less(a, b) != less(b, a),
{
    let k = first_difference(a, b, 0);
    lemma_first_difference(a, b, 0);
    lemma_less_from(a, b, 0, k);
    lemma_less_from(b, a, 0, k);
    if k == a.len() && k == b.len() {
        assert(a =~= b);
    }
}

/// The order of byte strings is transitive.
pub proof fn law_order_is_transitive(a: Seq<u8>, b: Seq<u8>, c: Seq<u8>)
    requires
        less(a, b),
        less(b, c),
    ensures
        less(a, c),
{
    let k = first_difference(a, b, 0);
    let m = first_difference(b, c, 0);
    let n = if k < m {
        k
    } else {
        m
    };
    lemma_first_difference(a, b, 0);
    lemma_first_difference(b, c, 0);
    lemma_less_from(a, b, 0, k);
    lemma_less_from(b, c, 0, m);
    assert(forall|j: int| 0 <= j < n ==> a[j] == b[j] && b[j] == c[j]);
    lemma_less_from(a, c, 0, n);
}

/// A byte string is before each longer one that starts with it.
pub proof fn law_prefix_is_before(a: Seq<u8>, b: Seq<u8>)
    requires
        b.len() > 0,
    ensures
        less(a, a + b),
{
    lemma_less_from(a, a + b, 0, a.len() as int);
}

/// Two byte strings are ordered by the numbers at the first position at which they differ.
pub proof fn law_first_difference_decides(a: Seq<u8>, b: Seq<u8>, k: int)
    requires
        0 <= k < a.len(),
        k < b.len(),
        forall|j: int| 0 <= j < k ==> a[j] == b[j],
        a[k] < b[k],
    ensures
        less(a, b),
        !less(b, a),
{
    lemma_less_from(a, b, 0, k);
    lemma_less_from(b, a, 0, k);
}

/// The comparison methods agree on every object. With one that holds no byte string none of them
/// is implemented. With any other `le` holds where `lt` or `eq` does, `ge` where `gt` or `eq`
/// does, and exactly one of `lt`, `eq` and `gt` holds.
pub proof fn law_comparisons_agree(s: Seq<u8>, other: PyObject)
    ensures
        match (
            comparison(other, |b: Seq<u8>| s == b),
            comparison(other, |b: Seq<u8>| less(s, b)),
            comparison(other, |b: Seq<u8>| less(b, s)),
            comparison(other, |b: Seq<u8>| !less(b, s)),
            comparison(other, |b: Seq<u8>| !less(s, b)),
        ) {
            (
                PyComparisonValue::Implemented(eq),
                PyComparisonValue::Implemented(lt),
                PyComparisonValue::Implemented(gt),
                PyComparisonValue::Implemented(le),
                PyComparisonValue::Implemented(ge),
            ) => {
                &&& le == (lt || eq)
                &&& ge == (gt || eq)
                &&& lt || eq || gt
                &&& !(lt && eq) && !(gt && eq) && !(lt && gt)
                &&& bytes_like(other) is Some
            },
            (
                PyComparisonValue::NotImplemented,
                PyComparisonValue::NotImplemented,
                PyComparisonValue::NotImplemented,
                PyComparisonValue::NotImplemented,
                PyComparisonValue::NotImplemented,
            ) => bytes_like(other) is None,
            _ => false,
        },
{
    if let Some(b) = bytes_like(other) {
        law_order_is_total(s, b);
    }
}

/// What a byte string is compared with is what a `bytes` or a `bytearray` holds; with any other
/// object no comparison is implemented.
pub proof fn law_compared_content(other: PyObject, result: spec_fn(Seq<u8>) -> bool)
    ensures
        other matches PyObject::Bytes(v) ==> comparison(other, result)
            == PyComparisonValue::Implemented(result(v@)),
        other matches PyObject::ByteArray(v) ==> comparison(other, result)
            == PyComparisonValue::Implemented(result(v@)),
        !(other is Bytes || other is ByteArray) ==> comparison(other, result)
            == PyComparisonValue::NotImplemented,
{
}

/// The hash value is made of eight bytes for the length and of all bytes, in this order.
pub proof fn law_hash_of_length_and_bytes(s: Seq<u8>)
    ensures
        hash_value(s) == DefaultHasher::spec_finish(
            seq![vstd::bytes::spec_u64_to_le_bytes(s.len() as u64), s],
        ) as i64,
{
}

/// Byte strings that compare equal have the same hash value.
pub proof fn law_equal_hash(s: Seq<u8>, t: Seq<u8>, other: PyObject)
    requires
        bytes_like(other) == Some(t),
        comparison(other, |b: Seq<u8>| s == b) == PyComparisonValue::Implemented(true),
    ensures
        hash_value(s) == hash_value(t),
{
}

} // verus!
