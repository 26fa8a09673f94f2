//! Byte-level helpers shared by the HTTP and file-format code.

use vstd::prelude::*;
use vstd::string::*;

verus! {

/// `needle` occurs in `haystack` starting at index `i`.
pub open spec fn occurs_at(haystack: Seq<u8>, needle: Seq<u8>, i: int) -> bool {
    &&& 0 <= i
    &&& i + needle.len() <= haystack.len()
    &&& haystack.subrange(i, i + needle.len()) == needle
}

/// The first index from `i` on at which `needle` occurs in `haystack`.
pub open spec fn first_occurrence_from(haystack: Seq<u8>, needle: Seq<u8>, i: int) -> Option<int>
    decreases haystack.len() - i,
{
    if i < 0 || i + needle.len() > haystack.len() {
        None
    } else if occurs_at(haystack, needle, i) {
        Some(i)
    } else if i >= haystack.len() {
        None
    } else {
        first_occurrence_from(haystack, needle, i + 1)
    }
}

/// The first index at which `needle` occurs in `haystack`, if any.
pub open spec fn first_occurrence(haystack: Seq<u8>, needle: Seq<u8>) -> Option<int> {
    first_occurrence_from(haystack, needle, 0)
}

/// What the first occurrence from `i` on is.
pub proof fn lemma_first_occurrence_from(haystack: Seq<u8>, needle: Seq<u8>, i: int)
    requires
        0 <= i,
    ensures
        first_occurrence_from(haystack, needle, i) matches Some(k) ==> i <= k && occurs_at(haystack, needle, k)
            && forall|j: int| i <= j < k ==> !occurs_at(haystack, needle, j),
        first_occurrence_from(haystack, needle, i) is None ==> forall|j: int| i <= j ==> !occurs_at(haystack, needle, j),
    decreases haystack.len() - i,
{
    if i + needle.len() <= haystack.len() && !occurs_at(haystack, needle, i) && i < haystack.len() {
        lemma_first_occurrence_from(haystack, needle, i + 1);
    }
}

/// What the first occurrence is.
pub proof fn lemma_first_occurrence(haystack: Seq<u8>, needle: Seq<u8>)
    ensures
        first_occurrence(haystack, needle) matches Some(k) ==> 0 <= k && occurs_at(haystack, needle, k)
            && forall|j: int| 0 <= j < k ==> !occurs_at(haystack, needle, j),
        first_occurrence(haystack, needle) is None ==> forall|j: int| !occurs_at(haystack, needle, j),
{
    lemma_first_occurrence_from(haystack, needle, 0);
}

/// An occurrence with none before it is the first one.
pub proof fn lemma_first_occurrence_is(haystack: Seq<u8>, needle: Seq<u8>, a: int, k: int)
    requires
        0 <= a <= k,
        occurs_at(haystack, needle, k),
        forall|j: int| a <= j < k ==> !occurs_at(haystack, needle, j),
    ensures
        first_occurrence_from(haystack, needle, a) == Some(k),
    decreases k - a,
{
    if a < k {
        lemma_first_occurrence_is(haystack, needle, a + 1, k);
    }
}

/// Without any occurrence there is no first one.
pub proof fn lemma_first_occurrence_none(haystack: Seq<u8>, needle: Seq<u8>, a: int)
    requires
        0 <= a,
        forall|j: int| a <= j ==> !occurs_at(haystack, needle, j),
    ensures
        first_occurrence_from(haystack, needle, a) is None,
    decreases haystack.len() - a,
{
    if a + needle.len() <= haystack.len() && a < haystack.len() {
        lemma_first_occurrence_none(haystack, needle, a + 1);
    }
}

fn matches_here(haystack: &[u8], needle: &[u8], i: usize) -> (r: bool)
    requires
        i + needle@.len() <= haystack@.len(),
    ensures
        r == occurs_at(haystack@, needle@, i as int),
{
    let n = needle.len();
    let hl = haystack.len();
    let mut k: usize = 0;
    while k < n
        invariant
            k <= n,
            hl == haystack@.len(),
            n == needle@.len(),
            i + n <= haystack@.len(),
            forall|m: int| 0 <= m < k ==> haystack@[i + m] == needle@[m],
        decreases n - k,
    {
        if haystack[i + k] != needle[k] {
            proof {
                assert(haystack@.subrange(i as int, i + n)[k as int] != needle@[k as int]);
            }
            return false;
        }
        k = k + 1;
    }
    proof {
        assert(haystack@.subrange(i as int, i + n) =~= needle@);
    }
    true
}

/// Finds the first position of `needle` in `haystack`.
/// The needle must not be empty.
pub fn memmem(haystack: &[u8], needle: &[u8]) -> (r: Option<usize>)
    requires
        needle@.len() > 0,
    ensures
        r matches Some(i) ==> first_occurrence(haystack@, needle@) == Some(i as int),
        r matches Some(i) ==> occurs_at(haystack@, needle@, i as int),
        r is None ==> first_occurrence(haystack@, needle@) is None,
{
    let hl = haystack.len();
    let nl = needle.len();
    if nl > hl {
        assert(forall|i: int| !occurs_at(haystack@, needle@, i));
        proof {
            lemma_first_occurrence_none(haystack@, needle@, 0);
        }
        return None;
    }
    let mut i: usize = 0;
    while i <= hl - nl
        invariant
            hl == haystack@.len(),
            nl == needle@.len(),
            0 < nl <= hl,
            i <= hl - nl + 1,
            forall|j: int| 0 <= j < i ==> !occurs_at(haystack@, needle@, j),
        decreases hl - nl + 1 - i,
    {
        if matches_here(haystack, needle, i) {
            proof {
                lemma_first_occurrence_is(haystack@, needle@, 0, i as int);
            }
            return Some(i);
        }
        i = i + 1;
    }
    assert forall|j: int| !occurs_at(haystack@, needle@, j) by {
        if 0 <= j < i {
        }
    }
    proof {
        lemma_first_occurrence_none(haystack@, needle@, 0);
    }
    None
}

/// Appends `b` to `out`.
pub fn push_bytes(out: &mut Vec<u8>, b: &[u8])
    ensures
        final(out)@ == old(out)@ + b@,
{
    let n = b.len();
    let mut i: usize = 0;
    while i < n
        invariant
            n == b@.len(),
            i <= n,
            out@ == old(out)@ + b@.take(i as int),
        decreases n - i,
    {
        out.push(b[i]);
        i = i + 1;
        assert(out@ =~= old(out)@ + b@.take(i as int));
    }
    assert(b@.take(n as int) =~= b@);
}

/// Appends the UTF-8 bytes of `s` to `out`.
pub fn push_str(out: &mut Vec<u8>, s: &str)
    ensures
        final(out)@ == old(out)@ + s.spec_bytes(),
{
    push_bytes(out, s.as_bytes());
}

/// Copies `b` into a new vector.
pub fn to_vec(b: &[u8]) -> (r: Vec<u8>)
    ensures
        r@ == b@,
{
    let mut r: Vec<u8> = Vec::new();
    push_bytes(&mut r, b);
    assert(r@ =~= b@);
    r
}

/// `c` with ASCII upper-case letters mapped to lower case.
pub open spec fn lower_byte(c: u8) -> u8 {
    if 65 <= c <= 90 { (c + 32) as u8 } else { c }
}

pub open spec fn ascii_lower(s: Seq<u8>) -> Seq<u8> {
    s.map_values(|c: u8| lower_byte(c))
}

/// Compares `s`, lower-cased in ASCII, with `lower`.
pub fn eq_ignore_case(s: &[u8], lower: &[u8]) -> (r: bool)
    ensures
        r == (ascii_lower(s@) == lower@),
{
    if s.len() != lower.len() {
        assert(ascii_lower(s@).len() != lower@.len());
        return false;
    }
    let n = s.len();
    let mut i: usize = 0;
    while i < n
        invariant
            n == s@.len(),
            n == lower@.len(),
            i <= n,
            forall|j: int| 0 <= j < i ==> lower_byte(s@[j]) == lower@[j],
        decreases n - i,
    {
        let c = s[i];
        let l = if 65 <= c && c <= 90 { c + 32 } else { c };
        if l != lower[i] {
            assert(ascii_lower(s@)[i as int] != lower@[i as int]);
            return false;
        }
        i = i + 1;
    }
    assert(ascii_lower(s@) =~= lower@);
    true
}

/// Compares two byte strings.
pub fn bytes_eq(a: &[u8], b: &[u8]) -> (r: bool)
    ensures
        r == (a@ == b@),
{
    if a.len() != b.len() {
        return false;
    }
    let n = a.len();
    let mut i: usize = 0;
    while i < n
        invariant
            n == a@.len(),
            n == b@.len(),
            i <= n,
            forall|j: int| 0 <= j < i ==> a@[j] == b@[j],
        decreases n - i,
    {
        if a[i] != b[i] {
            return false;
        }
        i = i + 1;
    }
    assert(a@ =~= b@);
    true
}

/// `s` holds no byte `c`.
pub open spec fn lacks(s: Seq<u8>, c: u8) -> bool {
    forall|i: int| 0 <= i < s.len() ==> #[trigger] s[i] != c
}

pub proof fn lemma_lacks_concat(a: Seq<u8>, b: Seq<u8>, c: u8)
    requires
        lacks(a, c),
        lacks(b, c),
    ensures
        lacks(a + b, c),
{
    assert forall|i: int| 0 <= i < (a + b).len() implies #[trigger] (a + b)[i] != c by {
        if i < a.len() {
            assert((a + b)[i] == a[i]);
        } else {
            assert((a + b)[i] == b[i - a.len()]);
        }
    }
}

} // verus!
