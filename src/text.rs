//! Whitespace trimming and boundary-safe slicing of UTF-8 text.
use vstd::prelude::*;
use vstd::string::*;
use vstd::utf8::*;

verus! {

broadcast use {
    encode_utf8_valid_utf8,
    encode_utf8_decode_utf8,
    is_char_boundary_start_end_of_seq,
    is_char_boundary_iff_not_is_continuation_byte,
};

/// A character with the Unicode `White_Space` property.
pub open spec fn is_white_space(c: char) -> bool {
    let u = c as u32;
    (0x9 <= u && u <= 0xd) || u == 0x20 || u == 0x85 || u == 0xa0 || u == 0x1680 || (0x2000 <= u
        && u <= 0x200a) || u == 0x2028 || u == 0x2029 || u == 0x202f || u == 0x205f || u == 0x3000
}

/// How many whitespace characters open `s`.
pub open spec fn leading_ws(s: Seq<char>) -> nat
    decreases s.len(),
{
    if s.len() > 0 && is_white_space(s[0]) {
        1 + leading_ws(s.subrange(1, s.len() as int))
    } else {
        0
    }
}

/// How many whitespace characters close `s`.
pub open spec fn trailing_ws(s: Seq<char>) -> nat
    decreases s.len(),
{
    if s.len() > 0 && is_white_space(s.last()) {
        1 + trailing_ws(s.subrange(0, s.len() - 1))
    } else {
        0
    }
}

/// `s` without its leading and trailing whitespace.
pub open spec fn trim_chars(s: Seq<char>) -> Seq<char> {
    let t = s.subrange(leading_ws(s) as int, s.len() as int);
    t.subrange(0, t.len() - trailing_ws(t))
}

/// Neither end of `s` is whitespace.
pub open spec fn is_trimmed(s: Seq<char>) -> bool {
    s.len() > 0 ==> !is_white_space(s[0]) && !is_white_space(s.last())
}

pub proof fn lemma_leading_ws(s: Seq<char>)
    ensures
        leading_ws(s) <= s.len(),
        forall|i: int| 0 <= i < leading_ws(s) ==> is_white_space(#[trigger] s[i]),
        leading_ws(s) < s.len() ==> !is_white_space(s[leading_ws(s) as int]),
    decreases s.len(),
{
    if s.len() > 0 && is_white_space(s[0]) {
        let r = s.subrange(1, s.len() as int);
        lemma_leading_ws(r);
        assert forall|i: int| 0 <= i < leading_ws(s) implies is_white_space(#[trigger] s[i]) by {
            if i > 0 {
                assert(s[i] == r[i - 1]);
            }
        }
    }
}

pub proof fn lemma_trailing_ws(s: Seq<char>)
    ensures
        trailing_ws(s) <= s.len(),
        forall|i: int| s.len() - trailing_ws(s) <= i < s.len() ==> is_white_space(#[trigger] s[i]),
        trailing_ws(s) < s.len() ==> !is_white_space(s[s.len() - trailing_ws(s) - 1]),
    decreases s.len(),
{
    if s.len() > 0 && is_white_space(s.last()) {
        let r = s.subrange(0, s.len() - 1);
        lemma_trailing_ws(r);
        assert forall|i: int| s.len() - trailing_ws(s) <= i < s.len() implies is_white_space(
            #[trigger] s[i],
        ) by {
            if i < s.len() - 1 {
                assert(s[i] == r[i]);
            }
        }
    }
}

/// Trimming keeps one contiguous run of `s` that neither starts nor ends with
/// whitespace, and drops only whitespace around it.
pub proof fn lemma_trim_chars(s: Seq<char>)
    ensures
        exists|a: int, c: int|
            0 <= a <= c <= s.len() && trim_chars(s) == s.subrange(a, c) && (forall|i: int|
                0 <= i < a ==> is_white_space(#[trigger] s[i])) && (forall|i: int|
                c <= i < s.len() ==> is_white_space(#[trigger] s[i])),
        is_trimmed(trim_chars(s)),
{
    lemma_leading_ws(s);
    let a = leading_ws(s) as int;
    let t = s.subrange(a, s.len() as int);
    lemma_trailing_ws(t);
    let c = a + t.len() - trailing_ws(t);
    assert(trim_chars(s) =~= s.subrange(a, c));
    assert forall|i: int| c <= i < s.len() implies is_white_space(#[trigger] s[i]) by {
        assert(s[i] == t[i - a]);
    }
    let r = trim_chars(s);
    if r.len() > 0 {
        assert(r[0] == t[0]);
        assert(r.last() == t[t.len() - trailing_ws(t) - 1]);
    }
}

/// The characters of `s` that are not whitespace, in order.
pub open spec fn visible(s: Seq<char>) -> Seq<char>
    decreases s.len(),
{
    if s.len() == 0 {
        seq![]
    } else {
        (if is_white_space(s[0]) {
            Seq::empty()
        } else {
            seq![s[0]]
        }) + visible(s.drop_first())
    }
}

pub proof fn lemma_visible_concat(a: Seq<char>, b: Seq<char>)
    ensures
        visible(a + b) == visible(a) + visible(b),
    decreases a.len(),
{
    if a.len() == 0 {
        assert(a + b =~= b);
    } else {
        lemma_visible_concat(a.drop_first(), b);
        assert((a + b).drop_first() =~= a.drop_first() + b);
        assert((a + b)[0] == a[0]);
    }
}

proof fn lemma_visible_of_white_space(a: Seq<char>)
    requires
        forall|i: int| 0 <= i < a.len() ==> is_white_space(#[trigger] a[i]),
    ensures
        visible(a) == Seq::<char>::empty(),
    decreases a.len(),
{
    if a.len() > 0 {
        assert forall|i: int| 0 <= i < a.drop_first().len() implies is_white_space(
            #[trigger] a.drop_first()[i],
        ) by {
            assert(a.drop_first()[i] == a[i + 1]);
        }
        lemma_visible_of_white_space(a.drop_first());
    }
}

/// Trimming drops only whitespace.
pub proof fn lemma_visible_trim(s: Seq<char>)
    ensures
        visible(trim_chars(s)) == visible(s),
{
    lemma_trim_chars(s);
    let (a, c) = choose|a: int, c: int|
        0 <= a <= c <= s.len() && trim_chars(s) == s.subrange(a, c) && (forall|i: int|
            0 <= i < a ==> is_white_space(#[trigger] s[i])) && (forall|i: int|
            c <= i < s.len() ==> is_white_space(#[trigger] s[i]));
    let front = s.subrange(0, a);
    let back = s.subrange(c, s.len() as int);
    assert(s =~= front + s.subrange(a, c) + back);
    assert forall|i: int| 0 <= i < front.len() implies is_white_space(#[trigger] front[i]) by {
        assert(front[i] == s[i]);
    }
    assert forall|i: int| 0 <= i < back.len() implies is_white_space(#[trigger] back[i]) by {
        assert(back[i] == s[c + i]);
    }
    lemma_visible_of_white_space(front);
    lemma_visible_of_white_space(back);
    lemma_visible_concat(front + s.subrange(a, c), back);
    lemma_visible_concat(front, s.subrange(a, c));
    assert(visible(front + s.subrange(a, c)) =~= visible(s.subrange(a, c)));
    assert(visible(s) =~= visible(s.subrange(a, c)));
}

/// Relies on `str::trim`: the returned slice is the input without its leading
/// and trailing characters that have the Unicode `White_Space` property.
#[verifier::external_body]
pub(crate) fn trim_white_space<'a>(s: &'a str) -> (r: &'a str)
    ensures
        r@ == trim_chars(s@),
{
    s.trim()
}

/// Within the part `[lo, hi)` of `b`, both ends being boundaries of `b`, a
/// boundary `k` of `b` stays a boundary at `k - lo`.
pub proof fn lemma_boundary_in_part(b: Seq<u8>, lo: int, hi: int, k: int)
    requires
        valid_utf8(b),
        0 <= lo <= k <= hi <= b.len(),
        is_char_boundary(b, lo),
        is_char_boundary(b, hi),
        is_char_boundary(b, k),
    ensures
        valid_utf8(b.subrange(lo, hi)),
        is_char_boundary(b.subrange(lo, hi), k - lo),
{
    let tail = b.subrange(lo, b.len() as int);
    valid_utf8_split(b, lo);
    let part = b.subrange(lo, hi);
    assert(part =~= tail.subrange(0, hi - lo));
    if hi < b.len() {
        assert(tail[hi - lo] == b[hi]);
        is_char_boundary_iff_not_is_continuation_byte(b, hi);
        is_char_boundary_iff_not_is_continuation_byte(tail, hi - lo);
    } else {
        is_char_boundary_start_end_of_seq(tail);
    }
    valid_utf8_split(tail, hi - lo);
    if lo < k && k < hi {
        assert(part[k - lo] == b[k]);
        is_char_boundary_iff_not_is_continuation_byte(b, k);
        is_char_boundary_iff_not_is_continuation_byte(part, k - lo);
    } else if k == hi {
        is_char_boundary_start_end_of_seq(part);
    }
}

/// Decoding splits over three consecutive parts cut at boundaries.
pub proof fn lemma_decode_parts(b: Seq<u8>, lo: int, hi: int)
    requires
        valid_utf8(b),
        0 <= lo <= hi <= b.len(),
        is_char_boundary(b, lo),
        is_char_boundary(b, hi),
    ensures
        decode_utf8(b) == decode_utf8(b.subrange(0, lo)) + decode_utf8(b.subrange(lo, hi))
            + decode_utf8(b.subrange(hi, b.len() as int)),
{
    decode_utf8_split(b, lo);
    let tail = b.subrange(lo, b.len() as int);
    lemma_boundary_in_part(b, lo, b.len() as int, hi);
    decode_utf8_split(tail, hi - lo);
    assert(tail.subrange(0, hi - lo) =~= b.subrange(lo, hi));
    assert(tail.subrange(hi - lo, tail.len() as int) =~= b.subrange(hi, b.len() as int));
}

/// The part of `s` between the byte offsets `start` and `end`, both on
/// character boundaries.
pub fn slice_between<'a>(s: &'a str, start: usize, end: usize) -> (r: &'a str)
    requires
        start <= end <= s.spec_bytes().len(),
        is_char_boundary(s.spec_bytes(), start as int),
        is_char_boundary(s.spec_bytes(), end as int),
    ensures
        r.spec_bytes() == s.spec_bytes().subrange(start as int, end as int),
        r@ == decode_utf8(s.spec_bytes().subrange(start as int, end as int)),
{
    let ghost b = s.spec_bytes();
    let (head, _) = s.split_at(end);
    proof {
        lemma_boundary_in_part(b, 0, end as int, start as int);
        assert(b.subrange(0, end as int) =~= head.spec_bytes());
    }
    let (_, mid) = head.split_at(start);
    proof {
        assert(mid.spec_bytes() =~= b.subrange(start as int, end as int));
    }
    mid
}

} // verus!
