//! Where one byte string occurs in another.
use vstd::prelude::*;

verus! {

/// Whether `sub` stands in `s` at position `i`.
pub open spec fn occurs_at(s: Seq<u8>, sub: Seq<u8>, i: int) -> bool {
    &&& 0 <= i
    &&& i + sub.len() <= s.len()
    &&& s.subrange(i, i + sub.len()) == sub
}

/// Whether `sub` occurs in `s`.
pub open spec fn occurs(s: Seq<u8>, sub: Seq<u8>) -> bool {
    exists|i: int| occurs_at(s, sub, i)
}

/// The first position from `i` on at which `sub` stands in `s`.
pub open spec fn first_occurrence_from(s: Seq<u8>, sub: Seq<u8>, i: int) -> Option<int>
    decreases s.len() - i + 1,
{
    if i + sub.len() > s.len() {
        None
    } else if occurs_at(s, sub, i) {
        Some(i)
    } else {
        first_occurrence_from(s, sub, i + 1)
    }
}

/// The first position at which `sub` stands in `s`.
pub open spec fn first_occurrence(s: Seq<u8>, sub: Seq<u8>) -> Option<int> {
    first_occurrence_from(s, sub, 0)
}

/// The last position down from `i` at which `sub` stands in `s`.
pub open spec fn last_occurrence_from(s: Seq<u8>, sub: Seq<u8>, i: int) -> Option<int>
    decreases i + 1,
{
    if i < 0 {
        None
    } else if occurs_at(s, sub, i) {
        Some(i)
    } else {
        last_occurrence_from(s, sub, i - 1)
    }
}

/// The last position at which `sub` stands in `s`.
pub open spec fn last_occurrence(s: Seq<u8>, sub: Seq<u8>) -> Option<int> {
    last_occurrence_from(s, sub, s.len() - sub.len())
}

/// The number of positions at which `sub` stands in `s` between `lo` and `hi`. Occurrences that
/// overlap count each.
pub open spec fn occurrences(s: Seq<u8>, sub: Seq<u8>, lo: int, hi: int) -> nat
    decreases hi - lo,
{
    if lo >= hi || lo + sub.len() > hi {
        0
    } else {
        (if occurs_at(s, sub, lo) {
            1nat
        } else {
            0nat
        }) + occurrences(s, sub, lo + 1, hi)
    }
}

/// What [`first_occurrence_from`] finds.
pub proof fn lemma_first_occurrence_from(s: Seq<u8>, sub: Seq<u8>, i: int)
    requires
        0 <= i,
    ensures
        match first_occurrence_from(s, sub, i) {
            Some(j) => i <= j && occurs_at(s, sub, j) && (forall|k: int|
                i <= k < j ==> !occurs_at(s, sub, k)),
            None => forall|k: int| i <= k ==> !occurs_at(s, sub, k),
        },
    decreases s.len() - i + 1,
{
    if i + sub.len() <= s.len() && !occurs_at(s, sub, i) {
        lemma_first_occurrence_from(s, sub, i + 1);
    }
}

/// What [`last_occurrence_from`] finds.
pub proof fn lemma_last_occurrence_from(s: Seq<u8>, sub: Seq<u8>, i: int)
    ensures
        match last_occurrence_from(s, sub, i) {
            Some(j) => j <= i && occurs_at(s, sub, j) && (forall|k: int|
                j < k <= i ==> !occurs_at(s, sub, k)),
            None => forall|k: int| k <= i ==> !occurs_at(s, sub, k),
        },
    decreases i + 1,
{
    if i >= 0 && !occurs_at(s, sub, i) {
        lemma_last_occurrence_from(s, sub, i - 1);
    }
}

/// The first occurrence is the one that no other precedes.
pub proof fn lemma_first_occurrence(s: Seq<u8>, sub: Seq<u8>)
    ensures
        match first_occurrence(s, sub) {
            Some(j) => occurs_at(s, sub, j) && (forall|k: int| k < j ==> !occurs_at(s, sub, k)),
            None => forall|k: int| !occurs_at(s, sub, k),
        },
{
    lemma_first_occurrence_from(s, sub, 0);
}

/// The last occurrence is the one that no other follows.
pub proof fn lemma_last_occurrence(s: Seq<u8>, sub: Seq<u8>)
    ensures
        match last_occurrence(s, sub) {
            Some(j) => occurs_at(s, sub, j) && (forall|k: int| j < k ==> !occurs_at(s, sub, k)),
            None => forall|k: int| !occurs_at(s, sub, k),
        },
{
    lemma_last_occurrence_from(s, sub, s.len() - sub.len());
}

/// Whether two byte strings are the same.
pub fn bytes_equal(a: &[u8], b: &[u8]) -> (r: bool)
    ensures
        r == (a@ == b@),
{
    if a.len() != b.len() {
        return false;
    }
    let mut i: usize = 0;
    while i < a.len()
        invariant
            i <= a@.len() == b@.len(),
            forall|j: int| 0 <= j < i ==> a@[j] == b@[j],
        decreases a.len() - i,
    {
        if a[i] != b[i] {
            return false;
        }
        i = i + 1;
    }
    assert(a@ =~= b@);
    true
}

/// Whether `sub` stands in `s` at position `i`.
pub fn stands_at(s: &[u8], sub: &[u8], i: usize) -> (r: bool)
    requires
        i + sub@.len() <= s@.len(),
    ensures
        r == occurs_at(s@, sub@, i as int),
{
    let mut j: usize = 0;
    while j < sub.len()
        invariant
            j <= sub@.len(),
            i + sub@.len() <= s.len(),
            forall|k: int| 0 <= k < j ==> s@[i + k] == sub@[k],
        decreases sub.len() - j,
    {
        if s[i + j] != sub[j] {
            assert(s@.subrange(i as int, i + sub@.len())[j as int] != sub@[j as int]);
            return false;
        }
        j = j + 1;
    }
    assert(s@.subrange(i as int, i + sub@.len()) =~= sub@);
    true
}

/// The first position from `from` on at which `sub` stands in `s`.
pub fn find_from(s: &[u8], sub: &[u8], from: usize) -> (r: Option<usize>)
    requires
        from <= s@.len(),
    ensures
        match r {
            Some(i) => first_occurrence_from(s@, sub@, from as int) == Some(i as int),
            None => first_occurrence_from(s@, sub@, from as int) is None,
        },
{
    let mut i: usize = from;
    while sub.len() <= s.len() - i
        invariant
            from <= i <= s.len(),
            first_occurrence_from(s@, sub@, from as int) == first_occurrence_from(
                s@,
                sub@,
                i as int,
            ),
        decreases s.len() - i + 1,
    {
        if stands_at(s, sub, i) {
            return Some(i);
        }
        if i == s.len() {
            assert(first_occurrence_from(s@, sub@, i + 1) is None);
            return None;
        }
        i = i + 1;
    }
    None
}

/// The last position at which `sub` stands in `s` before `to`.
pub fn find_back_from(s: &[u8], sub: &[u8], to: usize) -> (r: Option<usize>)
    requires
        to <= s@.len(),
    ensures
        match r {
            Some(i) => last_occurrence_from(s@, sub@, to - sub@.len()) == Some(i as int),
            None => last_occurrence_from(s@, sub@, to - sub@.len()) is None,
        },
{
    if to < sub.len() {
        return None;
    }
    let mut i: usize = to - sub.len();
    loop
        invariant
            i + sub@.len() <= s.len(),
            last_occurrence_from(s@, sub@, to - sub@.len()) == last_occurrence_from(
                s@,
                sub@,
                i as int,
            ),
        decreases i,
    {
        if stands_at(s, sub, i) {
            return Some(i);
        }
        if i == 0 {
            assert(last_occurrence_from(s@, sub@, -1) is None);
            return None;
        }
        i = i - 1;
    }
}

/// Whether a byte is in a byte string.
pub fn has_byte(s: &[u8], b: u8) -> (r: bool)
    ensures
        r == s@.contains(b),
{
    let mut i: usize = 0;
    while i < s.len()
        invariant
            i <= s@.len(),
            forall|j: int| 0 <= j < i ==> s@[j] != b,
        decreases s.len() - i + 1,
    {
        if s[i] == b {
            return true;
        }
        i = i + 1;
    }
    false
}

} // verus!
