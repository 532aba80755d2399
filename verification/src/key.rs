//! Keys, as the thirty-two bytes they are.
//!
//! An account, an exchange and a conversation are each named by thirty-two
//! bytes. Nothing here reads more of a key than whether two are the same
//! and which comes first.

use vstd::prelude::*;

verus! {

broadcast use vstd::array::group_array_axioms;

/// An account's, an exchange's or a conversation's thirty-two bytes.
pub type Key = [u8; 32];

/// Whether two keys are the same.
pub fn same_key(a: &Key, b: &Key) -> (r: bool)
    ensures
        r == (*a == *b),
{
    let mut i: usize = 0;
    while i < 32
        invariant
            i <= 32,
            forall|j: int| 0 <= j < i ==> a[j] == b[j],
        decreases 32 - i,
    {
        if a[i] != b[i] {
            return false;
        }
        i = i + 1;
    }
    assert(*a =~= *b);
    true
}

/// Whether `k` is among `v`.
pub fn has_key(v: &Vec<Key>, k: &Key) -> (r: bool)
    ensures
        r == v@.contains(*k),
{
    let mut i: usize = 0;
    while i < v.len()
        invariant
            i <= v@.len(),
            forall|j: int| 0 <= j < i ==> v@[j] != *k,
        decreases v@.len() - i,
    {
        if same_key(&v[i], k) {
            return true;
        }
        i = i + 1;
    }
    false
}

/// Whether `a` comes before `b`, byte by byte, as `[u8; 32]` orders.
pub open spec fn key_before(a: Key, b: Key) -> bool {
    exists|i: int|
        0 <= i < 32 && a[i] < b[i] && forall|j: int| 0 <= j < i ==> a[j] == b[j]
}

/// Whether `a` comes before `b`.
pub fn key_less(a: &Key, b: &Key) -> (r: bool)
    ensures
        r == key_before(*a, *b),
{
    let mut i: usize = 0;
    while i < 32
        invariant
            i <= 32,
            forall|j: int| 0 <= j < i ==> a[j] == b[j],
        decreases 32 - i,
    {
        if a[i] != b[i] {
            if a[i] < b[i] {
                return true;
            } else {
                assert forall|k: int|
                    0 <= k < 32 && a[k] < b[k] implies !(forall|j: int|
                    0 <= j < k ==> a[j] == b[j]) by {
                    if k > i {
                        assert(!(a[i as int] == b[i as int]));
                    }
                }
                return false;
            }
        }
        i = i + 1;
    }
    false
}

/// The byte order on keys is strict and total: of two different keys,
/// exactly one comes first.
pub proof fn lemma_key_order(a: Key, b: Key)
    ensures
        !(key_before(a, b) && key_before(b, a)),
        !key_before(a, a),
        a != b ==> key_before(a, b) || key_before(b, a),
{
    if key_before(a, b) && key_before(b, a) {
        let i = choose|i: int|
            0 <= i < 32 && a[i] < b[i] && forall|j: int| 0 <= j < i ==> a[j] == b[j];
        let k = choose|k: int|
            0 <= k < 32 && b[k] < a[k] && forall|j: int| 0 <= j < k ==> b[j] == a[j];
        if i < k {
            assert(b[i] == a[i]);
        } else if k < i {
            assert(a[k] == b[k]);
        }
    }
    if a != b {
        if !(exists|i: int| 0 <= i < 32 && a[i] != b[i]) {
            assert(a =~= b);
        }
        let i = choose|i: int| 0 <= i < 32 && a[i] != b[i];
        lemma_first_difference(a, b, i);
    }
}

/// Where two different keys first differ.
proof fn lemma_first_difference(a: Key, b: Key, i: int)
    requires
        0 <= i < 32,
        a[i] != b[i],
    ensures
        key_before(a, b) || key_before(b, a),
    decreases i,
{
    if exists|j: int| 0 <= j < i && a[j] != b[j] {
        let j = choose|j: int| 0 <= j < i && a[j] != b[j];
        lemma_first_difference(a, b, j);
    } else {
        if a[i] < b[i] {
            assert(key_before(a, b));
        } else {
            assert(key_before(b, a));
        }
    }
}

} // verus!
