//! Splitting page text into bounded, sentence-aware, overlapping chunks.
use vstd::prelude::*;
use vstd::string::*;
use vstd::utf8::*;

use crate::boundary::{find_char_boundary, lemma_next_boundary, next_boundary};
use crate::text::{
    is_trimmed, is_white_space, lemma_boundary_in_part, lemma_decode_parts, lemma_leading_ws,
    leading_ws, lemma_trim_chars, lemma_visible_concat, lemma_visible_trim, visible, slice_between, trim_chars, trim_white_space,
};

verus! {

broadcast use {encode_utf8_valid_utf8, encode_utf8_decode_utf8, is_char_boundary_start_end_of_seq};

/// How a page is cut into chunks.
#[derive(Clone, Copy)]
pub struct ChunkOptions {
    /// Byte length of the window that each chunk is searched in.
    pub max_chunk_size: usize,
    /// Bytes by which the next window starts before the previous chunk's end.
    pub overlap: usize,
    /// Whether to end a chunk on `.`, `!` or `?` found in the window's last fifth.
    pub preserve_sentence_boundaries: bool,
    /// Reserved; chunk content does not depend on it.
    pub include_metadata: bool,
}

impl Default for ChunkOptions {
    fn default() -> (r: Self)
        ensures
            r.max_chunk_size == 512,
            r.overlap == 50,
            r.preserve_sentence_boundaries,
            r.include_metadata,
    {
        ChunkOptions {
            max_chunk_size: 512,
            overlap: 50,
            preserve_sentence_boundaries: true,
            include_metadata: true,
        }
    }
}

/// One chunk of a page's text.
pub struct DocumentChunk {
    /// Position of the chunk in the output of one extraction.
    pub index: usize,
    /// The 1-based page the chunk was cut from.
    pub page_number: usize,
    /// The chunk's text, trimmed and never empty.
    pub text: String,
}

/// The ASCII bytes `.`, `!` and `?`.
pub open spec fn is_sentence_mark(c: u8) -> bool {
    c == 46 || c == 33 || c == 63
}

/// The last position in `[lo, hi)` whose byte is a sentence mark.
pub open spec fn last_mark(b: Seq<u8>, lo: int, hi: int) -> Option<int>
    decreases hi - lo,
{
    if hi <= lo {
        None
    } else if is_sentence_mark(b[hi - 1]) {
        Some(hi - 1)
    } else {
        last_mark(b, lo, hi - 1)
    }
}

/// Where the chunk that starts at the boundary `start` of `b` ends.
pub open spec fn chunk_end(b: Seq<u8>, start: int, o: ChunkOptions) -> int {
    let len = b.len() as int;
    let raw_end = if start + o.max_chunk_size < len {
        start + o.max_chunk_size
    } else {
        len
    };
    let end = next_boundary(b, raw_end);
    if o.preserve_sentence_boundaries && end < len {
        let reach = if o.max_chunk_size * 4 / 5 < end - start {
            o.max_chunk_size * 4 / 5
        } else {
            end - start
        };
        let search_start = next_boundary(b, start + reach);
        if search_start < end {
            match last_mark(b, search_start, end) {
                Some(i) => next_boundary(b, i + 1),
                None => end,
            }
        } else {
            end
        }
    } else {
        end
    }
}

/// The trimmed text of the bytes `[start, end)` of `b`.
pub open spec fn piece_text(b: Seq<u8>, start: int, end: int) -> Seq<char> {
    trim_chars(decode_utf8(b.subrange(start, end)))
}

/// The texts of the chunks that splitting emits when its window search
/// resumes at byte `byte_start` of `b`.
pub open spec fn texts_from(b: Seq<u8>, o: ChunkOptions, byte_start: int) -> Seq<Seq<char>>
    decreases b.len() - byte_start,
{
    if 0 <= byte_start < b.len() {
        let start = next_boundary(b, byte_start);
        if start >= b.len() {
            seq![]
        } else {
            let end = chunk_end(b, start, o);
            let t = piece_text(b, start, end);
            let head = if t.len() > 0 {
                seq![t]
            } else {
                Seq::empty()
            };
            let next = if end > o.overlap {
                end - o.overlap
            } else {
                0
            };
            if next <= byte_start || end >= b.len() {
                head
            } else {
                head + texts_from(b, o, next)
            }
        }
    } else {
        seq![]
    }
}

/// The texts of the chunks of one page, in order.
pub open spec fn page_chunk_texts(page: Seq<char>, o: ChunkOptions) -> Seq<Seq<char>> {
    texts_from(encode_utf8(page), o, 0)
}

/// The chunk `c` holds `text` from page `page` at output position `index`.
pub open spec fn chunk_is(c: DocumentChunk, index: int, page: int, text: Seq<char>) -> bool {
    c.index == index && c.page_number == page && c.text@ == text
}

proof fn lemma_last_mark(b: Seq<u8>, lo: int, hi: int)
    ensures
        last_mark(b, lo, hi) matches Some(i) ==> lo <= i < hi,
    decreases hi - lo,
{
    if hi > lo && !is_sentence_mark(b[hi - 1]) {
        lemma_last_mark(b, lo, hi - 1);
    }
}

/// A chunk that starts on a boundary ends on a later boundary within the text.
proof fn lemma_chunk_end(b: Seq<u8>, start: int, o: ChunkOptions)
    requires
        valid_utf8(b),
        0 <= start < b.len(),
    ensures
        start <= chunk_end(b, start, o) <= b.len(),
        is_char_boundary(b, chunk_end(b, start, o)),
{
    let len = b.len() as int;
    let raw_end = if start + o.max_chunk_size < len {
        start + o.max_chunk_size
    } else {
        len
    };
    lemma_next_boundary(b, raw_end);
    let end = next_boundary(b, raw_end);
    if o.preserve_sentence_boundaries && end < len {
        let reach = if o.max_chunk_size * 4 / 5 < end - start {
            o.max_chunk_size * 4 / 5
        } else {
            end - start
        };
        lemma_next_boundary(b, start + reach);
        let search_start = next_boundary(b, start + reach);
        if search_start < end {
            lemma_last_mark(b, search_start, end);
            if let Some(i) = last_mark(b, search_start, end) {
                lemma_next_boundary(b, i + 1);
            }
        }
    }
}

/// Every text that splitting from `byte_start` emits is non-empty, trimmed, and
/// one contiguous run of the characters that `b` encodes.
proof fn lemma_texts_from(b: Seq<u8>, o: ChunkOptions, byte_start: int)
    requires
        valid_utf8(b),
    ensures
        forall|k: int|
            0 <= k < texts_from(b, o, byte_start).len() ==> {
                let t = #[trigger] texts_from(b, o, byte_start)[k];
                &&& t.len() > 0
                &&& is_trimmed(t)
                &&& exists|x: int, y: int|
                    0 <= x <= y <= decode_utf8(b).len() && t == decode_utf8(b).subrange(x, y)
            },
    decreases b.len() - byte_start,
{
    if 0 <= byte_start < b.len() {
        let start = next_boundary(b, byte_start);
        lemma_next_boundary(b, byte_start);
        if start < b.len() {
            let end = chunk_end(b, start, o);
            lemma_chunk_end(b, start, o);
            let mid = decode_utf8(b.subrange(start, end));
            let t = piece_text(b, start, end);
            lemma_decode_parts(b, start, end);
            lemma_trim_chars(mid);
            let pre = decode_utf8(b.subrange(0, start));
            let whole = decode_utf8(b);
            let (a, c) = choose|a: int, c: int|
                0 <= a <= c <= mid.len() && trim_chars(mid) == mid.subrange(a, c) && (forall|
                    i: int,
                | 0 <= i < a ==> is_white_space(#[trigger] mid[i])) && (forall|i: int|
                    c <= i < mid.len() ==> is_white_space(#[trigger] mid[i]));
            assert(t =~= whole.subrange(pre.len() + a, pre.len() + c));
            assert(0 <= pre.len() + a <= pre.len() + c <= whole.len());
            let next = if end > o.overlap {
                end - o.overlap
            } else {
                0
            };
            let head = if t.len() > 0 {
                seq![t]
            } else {
                Seq::empty()
            };
            let all = texts_from(b, o, byte_start);
            if !(next <= byte_start || end >= b.len()) {
                lemma_texts_from(b, o, next);
                let rest = texts_from(b, o, next);
                assert(all == head + rest);
                assert forall|k: int| 0 <= k < all.len() implies #[trigger] all[k] == t || all[k]
                    == rest[k - head.len()] && 0 <= k - head.len() < rest.len() by {
                    if k >= head.len() {
                        assert(all[k] == rest[k - head.len()]);
                    }
                }
            }
        }
    }
}

/// Each chunk text of a page is non-empty, has no whitespace at either end,
/// and is one contiguous run of the page's characters.
pub proof fn lemma_chunks_are_trimmed_pieces(page: Seq<char>, o: ChunkOptions)
    ensures
        forall|k: int|
            0 <= k < page_chunk_texts(page, o).len() ==> {
                let t = #[trigger] page_chunk_texts(page, o)[k];
                &&& t.len() > 0
                &&& is_trimmed(t)
                &&& exists|x: int, y: int| 0 <= x <= y <= page.len() && t == page.subrange(x, y)
            },
{
    lemma_texts_from(encode_utf8(page), o, 0);
}

proof fn lemma_texts_from_count(b: Seq<u8>, o: ChunkOptions, byte_start: int)
    requires
        0 <= byte_start,
    ensures
        texts_from(b, o, byte_start).len() <= if byte_start < b.len() {
            b.len() - byte_start
        } else {
            0
        },
    decreases b.len() - byte_start,
{
    if 0 <= byte_start < b.len() {
        let start = next_boundary(b, byte_start);
        if start < b.len() {
            let end = chunk_end(b, start, o);
            let next = if end > o.overlap {
                end - o.overlap
            } else {
                0
            };
            if !(next <= byte_start || end >= b.len()) {
                lemma_texts_from_count(b, o, next);
            }
        }
    }
}

/// Splitting a page ends, whatever the options (a zero window and an overlap
/// past the window included), with at most one chunk per byte of the page:
/// each further window resumes strictly after the previous one.
pub proof fn lemma_chunk_count_bounded(page: Seq<char>, o: ChunkOptions)
    ensures
        page_chunk_texts(page, o).len() <= encode_utf8(page).len(),
{
    lemma_texts_from_count(encode_utf8(page), o, 0);
}

/// An empty page yields no chunks, whatever the options.
pub proof fn lemma_empty_page_has_no_chunks(page: Seq<char>, o: ChunkOptions)
    requires
        page.len() == 0,
    ensures
        page_chunk_texts(page, o).len() == 0,
{
    assert(encode_utf8(page).len() == 0);
}

/// The byte ranges `[start, end)` of `b` whose trimmed texts are the chunks
/// that splitting emits when its window search resumes at `byte_start`.
pub open spec fn windows_from(b: Seq<u8>, o: ChunkOptions, byte_start: int) -> Seq<(int, int)>
    decreases b.len() - byte_start,
{
    if 0 <= byte_start < b.len() {
        let start = next_boundary(b, byte_start);
        if start >= b.len() {
            seq![]
        } else {
            let end = chunk_end(b, start, o);
            let head = if piece_text(b, start, end).len() > 0 {
                seq![(start, end)]
            } else {
                Seq::empty()
            };
            let next = if end > o.overlap {
                end - o.overlap
            } else {
                0
            };
            if next <= byte_start || end >= b.len() {
                head
            } else {
                head + windows_from(b, o, next)
            }
        }
    } else {
        seq![]
    }
}

/// The byte ranges of a page that its chunks are cut from, in output order.
pub open spec fn page_chunk_windows(page: Seq<char>, o: ChunkOptions) -> Seq<(int, int)> {
    windows_from(encode_utf8(page), o, 0)
}

proof fn lemma_next_boundary_monotone(b: Seq<u8>, i: int, j: int)
    requires
        valid_utf8(b),
        0 <= i <= j,
    ensures
        next_boundary(b, i) <= next_boundary(b, j),
    decreases j - i,
{
    lemma_next_boundary(b, i);
    lemma_next_boundary(b, j);
    if i < j && i < b.len() && !is_char_boundary(b, i) {
        lemma_next_boundary_monotone(b, i + 1, j);
    }
}

proof fn lemma_windows_from(b: Seq<u8>, o: ChunkOptions, byte_start: int)
    requires
        valid_utf8(b),
        0 <= byte_start,
    ensures
        windows_from(b, o, byte_start).len() == texts_from(b, o, byte_start).len(),
        forall|k: int|
            0 <= k < windows_from(b, o, byte_start).len() ==> {
                let w = #[trigger] windows_from(b, o, byte_start)[k];
                &&& next_boundary(b, byte_start) <= w.0 < w.1 <= b.len()
                &&& is_char_boundary(b, w.0) && is_char_boundary(b, w.1)
                &&& texts_from(b, o, byte_start)[k] == piece_text(b, w.0, w.1)
            },
        forall|i: int, j: int|
            0 <= i <= j < windows_from(b, o, byte_start).len() ==> (#[trigger] windows_from(
                b,
                o,
                byte_start,
            )[i]).0 <= (#[trigger] windows_from(b, o, byte_start)[j]).0,
    decreases b.len() - byte_start,
{
    if 0 <= byte_start < b.len() {
        let start = next_boundary(b, byte_start);
        lemma_next_boundary(b, byte_start);
        if start < b.len() {
            let end = chunk_end(b, start, o);
            lemma_chunk_end(b, start, o);
            let t = piece_text(b, start, end);
            if start == end {
                assert(b.subrange(start, end) =~= Seq::<u8>::empty());
                assert(decode_utf8(b.subrange(start, end)) =~= Seq::<char>::empty());
                assert(t =~= Seq::<char>::empty());
            }
            let next = if end > o.overlap {
                end - o.overlap
            } else {
                0
            };
            let hw = if t.len() > 0 {
                seq![(start, end)]
            } else {
                Seq::empty()
            };
            let ht = if t.len() > 0 {
                seq![t]
            } else {
                Seq::empty()
            };
            if !(next <= byte_start || end >= b.len()) {
                lemma_windows_from(b, o, next);
                lemma_next_boundary_monotone(b, byte_start, next);
                let rw = windows_from(b, o, next);
                let rt = texts_from(b, o, next);
                let ws = windows_from(b, o, byte_start);
                let ts = texts_from(b, o, byte_start);
                assert(ws == hw + rw);
                assert(ts == ht + rt);
                assert forall|k: int| 0 <= k < ws.len() implies (k < hw.len() ==> #[trigger] ws[k]
                    == (start, end) && ts[k] == t) && (k >= hw.len() ==> ws[k] == rw[k - hw.len()]
                    && ts[k] == rt[k - hw.len()]) by {}
            }
        }
    }
}

/// Each chunk of a page is the trimmed text of a byte range of the page that
/// starts and ends on character boundaries, and these ranges start in page
/// order: a later chunk never starts before an earlier one.
pub proof fn lemma_chunks_follow_page_order(page: Seq<char>, o: ChunkOptions)
    ensures
        page_chunk_windows(page, o).len() == page_chunk_texts(page, o).len(),
        forall|k: int|
            0 <= k < page_chunk_windows(page, o).len() ==> {
                let w = #[trigger] page_chunk_windows(page, o)[k];
                &&& 0 <= w.0 < w.1 <= encode_utf8(page).len()
                &&& is_char_boundary(encode_utf8(page), w.0)
                &&& is_char_boundary(encode_utf8(page), w.1)
                &&& page_chunk_texts(page, o)[k] == trim_chars(
                    decode_utf8(encode_utf8(page).subrange(w.0, w.1)),
                )
            },
        forall|i: int, j: int|
            0 <= i <= j < page_chunk_windows(page, o).len() ==> (#[trigger] page_chunk_windows(
                page,
                o,
            )[i]).0 <= (#[trigger] page_chunk_windows(page, o)[j]).0,
{
    let b = encode_utf8(page);
    lemma_windows_from(b, o, 0);
}

/// The number of characters that the first `s` bytes of `b` encode.
pub open spec fn char_position(b: Seq<u8>, s: int) -> int {
    decode_utf8(b.subrange(0, s)).len() as int
}

/// Where in the characters of `b` the trimmed text of `[s, e)` begins.
pub open spec fn piece_position(b: Seq<u8>, s: int, e: int) -> int {
    char_position(b, s) + leading_ws(decode_utf8(b.subrange(s, e)))
}

proof fn lemma_char_position_monotone(b: Seq<u8>, s: int, t: int)
    requires
        valid_utf8(b),
        0 <= s <= t <= b.len(),
        is_char_boundary(b, s),
        is_char_boundary(b, t),
    ensures
        char_position(b, s) <= char_position(b, t),
{
    lemma_boundary_in_part(b, 0, t, s);
    let part = b.subrange(0, t);
    decode_utf8_split(part, s);
    assert(part.subrange(0, s) =~= b.subrange(0, s));
}

/// The trimmed text of `[s, e)` stands in the characters of `b` at
/// `piece_position`, preceded within the range only by whitespace.
proof fn lemma_piece_position(b: Seq<u8>, s: int, e: int)
    requires
        valid_utf8(b),
        0 <= s <= e <= b.len(),
        is_char_boundary(b, s),
        is_char_boundary(b, e),
    ensures
        ({
            let a = piece_position(b, s, e);
            let t = piece_text(b, s, e);
            &&& char_position(b, s) <= a
            &&& a + t.len() <= decode_utf8(b).len()
            &&& t == decode_utf8(b).subrange(a, a + t.len())
            &&& forall|x: int|
                char_position(b, s) <= x < a ==> is_white_space(#[trigger] decode_utf8(b)[x])
        }),
{
    lemma_decode_parts(b, s, e);
    lemma_boundary_in_part(b, s, e, s);
    let mid = decode_utf8(b.subrange(s, e));
    let pre = decode_utf8(b.subrange(0, s));
    let whole = decode_utf8(b);
    let c = char_position(b, s);
    assert(c == pre.len());
    lemma_leading_ws(mid);
    let l = leading_ws(mid) as int;
    let t = piece_text(b, s, e);
    let rest = mid.subrange(l, mid.len() as int);
    crate::text::lemma_trailing_ws(rest);
    assert(t == rest.subrange(0, rest.len() - crate::text::trailing_ws(rest)));
    assert forall|i: int| 0 <= i < t.len() implies t[i] == whole[c + l + i] by {
        assert(t[i] == rest[i]);
        assert(rest[i] == mid[l + i]);
        assert(whole[c + l + i] == (pre + mid)[c + l + i]);
    }
    assert(t =~= whole.subrange(c + l, c + l + t.len()));
    assert forall|x: int| c <= x < c + l implies is_white_space(#[trigger] whole[x]) by {
        assert(whole[x] == (pre + mid)[x]);
        assert(whole[x] == mid[x - c]);
    }
}

/// Where in the page each chunk text stands, in output order.
pub open spec fn page_chunk_offsets(page: Seq<char>, o: ChunkOptions) -> Seq<int> {
    let b = encode_utf8(page);
    let ws = page_chunk_windows(page, o);
    Seq::new(ws.len(), |k: int| piece_position(b, ws[k].0, ws[k].1))
}

/// Each chunk text of a page stands in the page at its offset, and these
/// offsets never decrease along the output: chunks come in page order.
pub proof fn lemma_chunk_texts_in_page_order(page: Seq<char>, o: ChunkOptions)
    ensures
        page_chunk_offsets(page, o).len() == page_chunk_texts(page, o).len(),
        forall|k: int|
            0 <= k < page_chunk_texts(page, o).len() ==> {
                let a = #[trigger] page_chunk_offsets(page, o)[k];
                let t = page_chunk_texts(page, o)[k];
                0 <= a && a + t.len() <= page.len() && page.subrange(a, a + t.len()) == t
            },
        forall|i: int, j: int|
            0 <= i <= j < page_chunk_texts(page, o).len() ==> #[trigger] page_chunk_offsets(
                page,
                o,
            )[i] <= #[trigger] page_chunk_offsets(page, o)[j],
{
    let b = encode_utf8(page);
    let texts = page_chunk_texts(page, o);
    let ws = page_chunk_windows(page, o);
    let offsets = page_chunk_offsets(page, o);
    lemma_windows_from(b, o, 0);
    lemma_texts_from(b, o, 0);
    assert(decode_utf8(b) == page);
    assert forall|k: int| 0 <= k < texts.len() implies {
        let a = #[trigger] offsets[k];
        0 <= a && a + texts[k].len() <= page.len() && page.subrange(a, a + texts[k].len())
            == texts[k]
    } by {
        lemma_piece_position(b, ws[k].0, ws[k].1);
    }
    assert forall|i: int, j: int| 0 <= i <= j < texts.len() implies #[trigger] offsets[i]
        <= #[trigger] offsets[j] by {
        lemma_piece_position(b, ws[i].0, ws[i].1);
        lemma_piece_position(b, ws[j].0, ws[j].1);
        lemma_char_position_monotone(b, ws[i].0, ws[j].0);
        let tj = texts[j];
        assert(is_trimmed(tj) && tj.len() > 0);
        assert(tj[0] == page[offsets[j]]);
        if offsets[j] < offsets[i] {
            assert(is_white_space(page[offsets[j]]));
        }
    }
}

/// The texts joined end to end.
pub open spec fn concat_all(ts: Seq<Seq<char>>) -> Seq<char>
    decreases ts.len(),
{
    if ts.len() == 0 {
        seq![]
    } else {
        ts[0] + concat_all(ts.drop_first())
    }
}

/// With a non-zero window a chunk ends strictly after its start.
proof fn lemma_chunk_end_advances(b: Seq<u8>, start: int, o: ChunkOptions)
    requires
        valid_utf8(b),
        0 <= start < b.len(),
        o.max_chunk_size > 0,
    ensures
        start < chunk_end(b, start, o),
{
    let len = b.len() as int;
    let raw_end = if start + o.max_chunk_size < len {
        start + o.max_chunk_size
    } else {
        len
    };
    lemma_next_boundary(b, raw_end);
    let end = next_boundary(b, raw_end);
    if o.preserve_sentence_boundaries && end < len {
        let reach = if o.max_chunk_size * 4 / 5 < end - start {
            o.max_chunk_size * 4 / 5
        } else {
            end - start
        };
        lemma_next_boundary(b, start + reach);
        let search_start = next_boundary(b, start + reach);
        if search_start < end {
            lemma_last_mark(b, search_start, end);
            if let Some(i) = last_mark(b, search_start, end) {
                lemma_next_boundary(b, i + 1);
            }
        }
    }
}

proof fn lemma_tiling_from(b: Seq<u8>, o: ChunkOptions, byte_start: int)
    requires
        valid_utf8(b),
        o.overlap == 0,
        o.max_chunk_size > 0,
        0 <= byte_start <= b.len(),
        is_char_boundary(b, byte_start),
    ensures
        visible(concat_all(texts_from(b, o, byte_start))) == visible(
            decode_utf8(b.subrange(byte_start, b.len() as int)),
        ),
    decreases b.len() - byte_start,
{
    let len = b.len() as int;
    if byte_start < len {
        let start = next_boundary(b, byte_start);
        assert(start == byte_start);
        let end = chunk_end(b, start, o);
        lemma_chunk_end(b, start, o);
        lemma_chunk_end_advances(b, start, o);
        let mid = decode_utf8(b.subrange(start, end));
        let t = piece_text(b, start, end);
        lemma_visible_trim(mid);
        let whole = b.subrange(start, len);
        crate::text::lemma_boundary_in_part(b, start, len, end);
        decode_utf8_split(whole, end - start);
        assert(whole.subrange(0, end - start) =~= b.subrange(start, end));
        assert(whole.subrange(end - start, whole.len() as int) =~= b.subrange(end, len));
        let tail = decode_utf8(b.subrange(end, len));
        lemma_visible_concat(mid, tail);
        let head = if t.len() > 0 {
            seq![t]
        } else {
            Seq::empty()
        };
        if t.len() > 0 {
            assert(visible(concat_all(head)) == visible(t)) by {
                assert(head.drop_first() =~= Seq::<Seq<char>>::empty());
                assert(concat_all(head.drop_first()) == Seq::<char>::empty());
                assert(head[0] == t);
                assert(concat_all(head) =~= t);
            }
        }
        if end >= len {
            assert(b.subrange(end, len) =~= Seq::<u8>::empty());
            assert(tail =~= Seq::<char>::empty());
            assert(mid + tail =~= mid);
        } else {
            lemma_tiling_from(b, o, end);
            let rest = texts_from(b, o, end);
            assert(texts_from(b, o, byte_start) == head + rest);
            if t.len() > 0 {
                assert((head + rest).drop_first() =~= rest);
                assert((head + rest)[0] == t);
                lemma_visible_concat(t, concat_all(rest));
            } else {
                assert(head + rest =~= rest);
            }
        }
    } else {
        assert(b.subrange(byte_start, len) =~= Seq::<u8>::empty());
        assert(decode_utf8(b.subrange(byte_start, len)) =~= Seq::<char>::empty());
    }
}

/// With no overlap and a non-zero window the chunks of a page, joined in
/// order, hold exactly the page's non-whitespace characters: the windows tile
/// the page, and trimming drops nothing else.
pub proof fn lemma_zero_overlap_tiles_page(page: Seq<char>, o: ChunkOptions)
    requires
        o.overlap == 0,
        o.max_chunk_size > 0,
    ensures
        visible(concat_all(page_chunk_texts(page, o))) == visible(page),
{
    let b = encode_utf8(page);
    lemma_tiling_from(b, o, 0);
    assert(b.subrange(0, b.len() as int) =~= b);
}

/// The last sentence mark among the bytes `[lo, hi)`.
fn last_sentence_mark(bytes: &[u8], lo: usize, hi: usize) -> (r: Option<usize>)
    requires
        lo <= hi <= bytes@.len(),
    ensures
        r is None <==> last_mark(bytes@, lo as int, hi as int) is None,
        r matches Some(i) ==> lo <= i < hi && last_mark(bytes@, lo as int, hi as int) == Some(
            i as int,
        ),
{
    let mut i: usize = hi;
    while i > lo
        invariant
            lo <= i <= hi <= bytes@.len(),
            last_mark(bytes@, lo as int, hi as int) == last_mark(bytes@, lo as int, i as int),
        decreases i - lo,
    {
        let c = bytes[i - 1];
        if c == 46u8 || c == 33u8 || c == 63u8 {
            return Some(i - 1);
        }
        i = i - 1;
    }
    None
}

proof fn lemma_four_fifths(m: usize)
    ensures
        m / 5 * 4 + m % 5 * 4 / 5 == m * 4 / 5,
{
    assert(m == 5 * (m / 5) + m % 5) by (nonlinear_arith);
    assert(m * 4 / 5 == 4 * (m / 5) + (m % 5) * 4 / 5) by (nonlinear_arith)
        requires
            m == 5 * (m / 5) + m % 5,
            0 <= m % 5 < 5,
    ;
}

/// The end of the chunk that starts at `start`.
fn find_chunk_end(page: &str, bytes: &[u8], start: usize, options: &ChunkOptions) -> (r: usize)
    requires
        bytes@ == page.spec_bytes(),
        start < bytes@.len(),
        is_char_boundary(bytes@, start as int),
    ensures
        r == chunk_end(bytes@, start as int, *options),
        start <= r <= bytes@.len(),
        is_char_boundary(bytes@, r as int),
{
    let len = bytes.len();
    let max = options.max_chunk_size;
    let raw_end = if max < len - start {
        start + max
    } else {
        len
    };
    let end = find_char_boundary(page, raw_end);
    if options.preserve_sentence_boundaries && end < len {
        let four_fifths = max / 5 * 4 + max % 5 * 4 / 5;
        proof {
            lemma_four_fifths(max);
        }
        let reach = if four_fifths < end - start {
            four_fifths
        } else {
            end - start
        };
        let search_start = find_char_boundary(page, start + reach);
        if search_start < end {
            match last_sentence_mark(bytes, search_start, end) {
                Some(i) => find_char_boundary(page, i + 1),
                None => end,
            }
        } else {
            end
        }
    } else {
        end
    }
}

/// Cuts `page` into chunks and appends them to `chunks`, each tagged with
/// `page_number` and numbered by its position in `chunks`.
pub fn split_page(
    page: &str,
    page_number: usize,
    options: &ChunkOptions,
    chunks: &mut Vec<DocumentChunk>,
)
    ensures
        final(chunks)@.len() == old(chunks)@.len() + page_chunk_texts(page@, *options).len(),
        forall|i: int| 0 <= i < old(chunks)@.len() ==> final(chunks)@[i] == old(chunks)@[i],
        forall|k: int|
            0 <= k < page_chunk_texts(page@, *options).len() ==> chunk_is(
                final(chunks)@[old(chunks)@.len() + k],
                old(chunks)@.len() + k,
                page_number as int,
                #[trigger] page_chunk_texts(page@, *options)[k],
            ),
{
    let bytes = page.as_bytes();
    let ghost b = bytes@;
    let ghost init = chunks@;
    let ghost mut done: Seq<Seq<char>> = seq![];
    let len = bytes.len();
    let mut byte_start: usize = 0;
    while byte_start < len
        invariant_except_break
            done + texts_from(b, *options, byte_start as int) == texts_from(b, *options, 0),
        invariant
            b == page.spec_bytes(),
            bytes@ == b,
            len == b.len(),
            byte_start <= len,
            chunks@.len() == init.len() + done.len(),
            forall|i: int| 0 <= i < init.len() ==> chunks@[i] == init[i],
            forall|k: int|
                0 <= k < done.len() ==> chunk_is(
                    #[trigger] chunks@[init.len() + k],
                    init.len() + k,
                    page_number as int,
                    done[k],
                ),
        ensures
            done == texts_from(b, *options, 0),
        decreases len - byte_start,
    {
        let start = find_char_boundary(page, byte_start);
        if start >= len {
            break;
        }
        let end = find_chunk_end(page, bytes, start, options);
        let piece = slice_between(page, start, end);
        let text = trim_white_space(piece);
        let ghost t = piece_text(b, start as int, end as int);
        if !text.is_empty() {
            let index = chunks.len();
            chunks.push(DocumentChunk { index, page_number, text: String::from_str(text) });
            proof {
                done = done.push(t);
            }
        }
        let next = if end > options.overlap {
            end - options.overlap
        } else {
            0
        };
        if next <= byte_start || end >= len {
            break;
        }
        byte_start = next;
    }
}

} // verus!

verus! {

/// The views of a list of page texts.
pub open spec fn page_views(pages: Seq<String>) -> Seq<Seq<char>> {
    pages.map_values(|s: String| s@)
}

/// The page number and text of each chunk of a document with the given pages,
/// in output order: pages in order, and each page's chunks in order.
pub open spec fn document_chunks(pages: Seq<Seq<char>>, o: ChunkOptions) -> Seq<(int, Seq<char>)>
    decreases pages.len(),
{
    if pages.len() == 0 {
        seq![]
    } else {
        let n = pages.len() - 1;
        document_chunks(pages.subrange(0, n), o) + page_chunk_texts(pages[n], o).map_values(
            |t: Seq<char>| (n + 1, t),
        )
    }
}

/// In whole-document chunking every page number lies in `[1, N]` for `N`
/// pages, and page numbers never decrease along the output.
pub proof fn lemma_document_page_numbers(pages: Seq<Seq<char>>, o: ChunkOptions)
    ensures
        forall|i: int|
            0 <= i < document_chunks(pages, o).len() ==> 1 <= (#[trigger] document_chunks(
                pages,
                o,
            )[i]).0 <= pages.len(),
        forall|i: int, j: int|
            0 <= i <= j < document_chunks(pages, o).len() ==> (#[trigger] document_chunks(
                pages,
                o,
            )[i]).0 <= (#[trigger] document_chunks(pages, o)[j]).0,
    decreases pages.len(),
{
    if pages.len() > 0 {
        let n = pages.len() - 1;
        let front = pages.subrange(0, n);
        lemma_document_page_numbers(front, o);
        let prev = document_chunks(front, o);
        let all = document_chunks(pages, o);
        assert forall|i: int| 0 <= i < all.len() implies (prev.len() <= i ==> (#[trigger] all[i]).0
            == n + 1) && (i < prev.len() ==> all[i] == prev[i]) by {
            if i >= prev.len() {
                assert(all[i] == page_chunk_texts(pages[n], o).map_values(
                    |t: Seq<char>| (n + 1, t),
                )[i - prev.len()]);
            }
        }
    }
}

/// The chunks `r` are, in order, the page numbers and texts of `expected`,
/// and chunk `i` has index `i`.
pub open spec fn chunks_match(r: Seq<DocumentChunk>, expected: Seq<(int, Seq<char>)>) -> bool {
    &&& r.len() == expected.len()
    &&& forall|i: int|
        0 <= i < r.len() ==> chunk_is(#[trigger] r[i], i, expected[i].0, expected[i].1)
}

/// The page number and text of each chunk of the single page `page`, which
/// has number `page_number`.
pub open spec fn single_page_chunks(page: Seq<char>, page_number: int, o: ChunkOptions) -> Seq<
    (int, Seq<char>),
> {
    page_chunk_texts(page, o).map_values(|t: Seq<char>| (page_number, t))
}

/// Chunks every page in order; chunk `i` of the result has index `i`, and
/// each chunk carries its 1-based page number.
pub fn chunk_pages(pages: &Vec<String>, options: &ChunkOptions) -> (r: Vec<DocumentChunk>)
    ensures
        chunks_match(r@, document_chunks(page_views(pages@), *options)),
{
    let ghost views = page_views(pages@);
    let mut chunks: Vec<DocumentChunk> = Vec::new();
    let mut p: usize = 0;
    while p < pages.len()
        invariant
            p <= pages@.len(),
            views == page_views(pages@),
            chunks@.len() == document_chunks(views.subrange(0, p as int), *options).len(),
            forall|i: int|
                0 <= i < chunks@.len() ==> chunk_is(
                    #[trigger] chunks@[i],
                    i,
                    document_chunks(views.subrange(0, p as int), *options)[i].0,
                    document_chunks(views.subrange(0, p as int), *options)[i].1,
                ),
        decreases pages@.len() - p,
    {
        let ghost before = chunks@;
        split_page(pages[p].as_str(), p + 1, options, &mut chunks);
        proof {
            let next = views.subrange(0, p + 1);
            assert(next.subrange(0, p as int) =~= views.subrange(0, p as int));
            assert(next[p as int] == pages@[p as int]@);
            let prev = document_chunks(views.subrange(0, p as int), *options);
            let added = page_chunk_texts(pages@[p as int]@, *options);
            let all = document_chunks(next, *options);
            assert forall|i: int| 0 <= i < chunks@.len() implies chunk_is(
                #[trigger] chunks@[i],
                i,
                all[i].0,
                all[i].1,
            ) by {
                if i >= prev.len() {
                    let k = i - prev.len();
                    assert(chunks@[before.len() + k] == chunks@[i]);
                    assert(all[i] == added.map_values(|t: Seq<char>| (p + 1, t))[k]);
                } else {
                    assert(chunks@[i] == before[i]);
                }
            }
        }
        p = p + 1;
    }
    proof {
        assert(views.subrange(0, p as int) =~= views);
    }
    chunks
}

} // verus!
