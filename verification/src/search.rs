//! Reverse searches inside one window: the last delimiter byte, by a few
//! needles or by a membership table, and the last occurrence of a pattern.

use vstd::prelude::*;

verus! {

/// `found` is the last position of `haystack` whose byte satisfies `hit`,
/// and is `None` exactly when no byte of `haystack` does.
pub open spec fn is_last_byte_position(
    haystack: Seq<u8>,
    hit: spec_fn(u8) -> bool,
    found: Option<usize>,
) -> bool {
    match found {
        Some(i) => {
            &&& i < haystack.len()
            &&& hit(haystack[i as int])
            &&& forall|j: int| i < j < haystack.len() ==> !hit(#[trigger] haystack[j])
        },
        None => forall|j: int| 0 <= j < haystack.len() ==> !hit(#[trigger] haystack[j]),
    }
}

/// `table` is the membership table of `delimiters`: one entry for each byte
/// value, set exactly for the delimiters.
pub open spec fn marks(table: Seq<bool>, delimiters: Seq<u8>) -> bool {
    &&& table.len() == 256
    &&& forall|b: u8| #[trigger] table[b as int] == delimiters.contains(b)
}

/// At most one result is the last position: whatever way two searches take,
/// if each returns the last position of a byte that `hit` accepts, they
/// return the same.
pub proof fn lemma_last_byte_position_unique(
    haystack: Seq<u8>,
    hit: spec_fn(u8) -> bool,
    first: Option<usize>,
    second: Option<usize>,
)
    requires
        is_last_byte_position(haystack, hit, first),
        is_last_byte_position(haystack, hit, second),
    ensures
        first == second,
{
}

/// The search by needles and the search by a table agree on every window,
/// given that the table marks the delimiters and nothing else.
pub proof fn lemma_table_agrees_with_needles(
    window: Seq<u8>,
    delimiters: Seq<u8>,
    table: Seq<bool>,
    by_needles: Option<usize>,
    by_table: Option<usize>,
)
    requires
        marks(table, delimiters),
        is_last_byte_position(window, |b: u8| delimiters.contains(b), by_needles),
        is_last_byte_position(window, |b: u8| table[b as int], by_table),
    ensures
        by_needles == by_table,
{
    assert(is_last_byte_position(window, |b: u8| delimiters.contains(b), by_table));
}

/// `needle` lies in `haystack` at index `i`, wholly inside it.
pub open spec fn occurs_at(haystack: Seq<u8>, needle: Seq<u8>, i: int) -> bool {
    &&& 0 <= i
    &&& i + needle.len() <= haystack.len()
    &&& haystack.subrange(i, i + needle.len()) == needle
}

/// `found` is the start of the last occurrence of `needle` in `haystack`,
/// and is `None` exactly when `needle` does not occur at all.
pub open spec fn is_last_occurrence(
    haystack: Seq<u8>,
    needle: Seq<u8>,
    found: Option<usize>,
) -> bool {
    match found {
        Some(i) => {
            &&& occurs_at(haystack, needle, i as int)
            &&& forall|j: int| i < j ==> !#[trigger] occurs_at(haystack, needle, j)
        },
        None => forall|j: int| !#[trigger] occurs_at(haystack, needle, j),
    }
}

/// `memchr::memrchr`: the index of the last byte of `haystack` equal to
/// `needle`, or `None` when no byte is.
pub assume_specification[ memchr::memrchr ](needle: u8, haystack: &[u8]) -> (found: Option<usize>)
    ensures
        is_last_byte_position(haystack@, |b: u8| b == needle, found),
;

/// `memchr::memrchr2`: the index of the last byte of `haystack` equal to
/// either needle, or `None` when no byte is.
pub assume_specification[ memchr::memrchr2 ](needle1: u8, needle2: u8, haystack: &[u8]) -> (found:
    Option<usize>)
    ensures
        is_last_byte_position(haystack@, |b: u8| b == needle1 || b == needle2, found),
;

/// `memchr::memrchr3`: the index of the last byte of `haystack` equal to one
/// of the three needles, or `None` when no byte is.
pub assume_specification[ memchr::memrchr3 ](
    needle1: u8,
    needle2: u8,
    needle3: u8,
    haystack: &[u8],
) -> (found: Option<usize>)
    ensures
        is_last_byte_position(
            haystack@,
            |b: u8| b == needle1 || b == needle2 || b == needle3,
            found,
        ),
;

/// `memchr::memmem::rfind`: the start of the last occurrence of a non-empty
/// `needle` in `haystack`, or `None` when it does not occur.
pub assume_specification[ memchr::memmem::rfind ](haystack: &[u8], needle: &[u8]) -> (found:
    Option<usize>)
    requires
        needle@.len() > 0,
    ensures
        is_last_occurrence(haystack@, needle@, found),
;

/// Finds the last delimiter in `window` with the search specialised for one,
/// two or three needles; with no delimiter at all nothing is ever found.
pub fn find_last_with_needles(delimiters: &[u8], window: &[u8]) -> (found: Option<usize>)
    requires
        delimiters@.len() <= 3,
    ensures
        is_last_byte_position(window@, |b: u8| delimiters@.contains(b), found),
{
    let n: usize = delimiters.len();
    if n == 1 {
        memchr::memrchr(delimiters[0], window)
    } else if n == 2 {
        memchr::memrchr2(delimiters[0], delimiters[1], window)
    } else if n == 3 {
        memchr::memrchr3(delimiters[0], delimiters[1], delimiters[2], window)
    } else {
        None
    }
}

/// Builds the 256-entry membership table of a delimiter set.
pub fn build_table(delimiters: &[u8]) -> (table: [bool; 256])
    ensures
        marks(table@, delimiters@),
{
    let mut table: [bool; 256] = [false; 256];
    let mut k: usize = 0;
    while k < delimiters.len()
        invariant
            k <= delimiters@.len(),
            forall|b: u8| #[trigger] table@[b as int] == delimiters@.take(k as int).contains(b),
        decreases delimiters@.len() - k,
    {
        let d: u8 = delimiters[k];
        table[d as usize] = true;
        proof {
            let shorter = delimiters@.take(k as int);
            let longer = delimiters@.take(k + 1);
            assert(longer == shorter.push(d));
            assert forall|b: u8| #[trigger] table@[b as int] == longer.contains(b) by {
                if b == d {
                    assert(longer[k as int] == d);
                } else if shorter.contains(b) {
                    let i = choose|i: int| 0 <= i < shorter.len() && shorter[i] == b;
                    assert(longer[i] == b);
                } else if longer.contains(b) {
                    let i = choose|i: int| 0 <= i < longer.len() && longer[i] == b;
                    assert(shorter[i] == b);
                }
            }
        }
        k += 1;
    }
    assert(delimiters@.take(k as int) == delimiters@);
    table
}

/// Scans `window` backwards and returns the first index whose byte the table
/// marks.
pub fn find_last_with_table(table: &[bool; 256], window: &[u8]) -> (found: Option<usize>)
    ensures
        is_last_byte_position(window@, |b: u8| table@[b as int], found),
{
    let mut k: usize = window.len();
    while k > 0
        invariant
            k <= window@.len(),
            forall|j: int| k <= j < window@.len() ==> !table@[#[trigger] window@[j] as int],
        decreases k,
    {
        k -= 1;
        if table[window[k] as usize] {
            return Some(k);
        }
    }
    None
}

/// Finds the last occurrence of `pattern` that lies wholly inside `window`.
pub fn find_last_pattern(window: &[u8], pattern: &[u8]) -> (found: Option<usize>)
    requires
        pattern@.len() > 0,
    ensures
        is_last_occurrence(window@, pattern@, found),
{
    memchr::memmem::rfind(window, pattern)
}

} // verus!
