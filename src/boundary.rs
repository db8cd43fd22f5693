//! Snapping byte offsets of UTF-8 text onto character boundaries.
use vstd::prelude::*;
use vstd::string::*;
use vstd::utf8::*;

verus! {

broadcast use {encode_utf8_valid_utf8, is_char_boundary_start_end_of_seq};

/// The first character boundary of `b` at or after `i`; `b.len()` when `i`
/// lies at or past the end.
pub open spec fn next_boundary(b: Seq<u8>, i: int) -> int
    decreases b.len() - i,
{
    if i >= b.len() {
        b.len() as int
    } else if is_char_boundary(b, i) {
        i
    } else {
        next_boundary(b, i + 1)
    }
}

/// `next_boundary` lands on a boundary, never before `i` (when `i` is within
/// the text), never past the end, and skips no boundary on the way.
pub proof fn lemma_next_boundary(b: Seq<u8>, i: int)
    requires
        valid_utf8(b),
        0 <= i,
    ensures
        is_char_boundary(b, next_boundary(b, i)),
        0 <= next_boundary(b, i) <= b.len(),
        i <= b.len() ==> i <= next_boundary(b, i),
        forall|j: int| i <= j < next_boundary(b, i) ==> !is_char_boundary(b, j),
    decreases b.len() - i,
{
    if i < b.len() && !is_char_boundary(b, i) {
        lemma_next_boundary(b, i + 1);
    }
}

/// Returns the nearest character boundary of `s` at or after byte `index`,
/// or `s.len()` when `index` is at or past the end.
pub fn find_char_boundary(s: &str, index: usize) -> (r: usize)
    ensures
        r == next_boundary(s.spec_bytes(), index as int),
        r <= s.spec_bytes().len(),
        is_char_boundary(s.spec_bytes(), r as int),
        index <= s.spec_bytes().len() ==> index <= r,
        forall|j: int| index <= j < r ==> !is_char_boundary(s.spec_bytes(), j),
{
    proof {
        lemma_next_boundary(s.spec_bytes(), index as int);
    }
    let len = s.as_bytes().len();
    if index >= len {
        return len;
    }
    let mut i: usize = index;
    while i < len && !s.is_char_boundary(i)
        invariant
            len == s.spec_bytes().len(),
            index <= i <= len,
            next_boundary(s.spec_bytes(), i as int) == next_boundary(s.spec_bytes(), index as int),
        decreases len - i,
    {
        i = i + 1;
    }
    i
}

} // verus!
