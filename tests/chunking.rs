use oxidize_pdf_ffi::boundary::find_char_boundary;
use oxidize_pdf_ffi::chunking::{chunk_pages, split_page, ChunkOptions, DocumentChunk};

fn opts(max: usize, overlap: usize, sentences: bool) -> ChunkOptions {
    ChunkOptions {
        max_chunk_size: max,
        overlap,
        preserve_sentence_boundaries: sentences,
        include_metadata: true,
    }
}

fn split(text: &str, options: &ChunkOptions) -> Vec<DocumentChunk> {
    let mut chunks = Vec::new();
    split_page(text, 1, options, &mut chunks);
    chunks
}

#[test]
fn boundary_on_ascii_is_identity() {
    assert_eq!(find_char_boundary("hello", 0), 0);
    assert_eq!(find_char_boundary("hello", 3), 3);
    assert_eq!(find_char_boundary("hello", 5), 5);
}

#[test]
fn boundary_past_end_is_length() {
    assert_eq!(find_char_boundary("hello", 9), 5);
    assert_eq!(find_char_boundary("", 0), 0);
}

#[test]
fn boundary_skips_inside_multibyte() {
    // 'é' takes bytes 1..3, '€' takes bytes 3..6
    let s = "hé€x";
    assert_eq!(find_char_boundary(s, 1), 1);
    assert_eq!(find_char_boundary(s, 2), 3);
    assert_eq!(find_char_boundary(s, 4), 6);
    assert_eq!(find_char_boundary(s, 5), 6);
    for i in 0..=s.len() {
        let b = find_char_boundary(s, i);
        assert!(b >= i);
        assert!(s.is_char_boundary(b));
    }
}

#[test]
fn sentence_period_ends_first_chunk() {
    let mut text = "a".repeat(600);
    text.replace_range(500..501, ".");
    let chunks = split(&text, &opts(512, 50, true));
    assert_eq!(chunks.len(), 2);
    assert_eq!(chunks[0].text.len(), 501);
    assert!(chunks[0].text.ends_with('.'));
    // the second window starts at 501 - 50 = 451
    assert_eq!(chunks[1].text, text[451..].to_string());
    assert_eq!(chunks[0].index, 0);
    assert_eq!(chunks[1].index, 1);
}

#[test]
fn without_sentence_search_window_is_full() {
    let mut text = "a".repeat(600);
    text.replace_range(500..501, ".");
    let chunks = split(&text, &opts(512, 50, false));
    assert_eq!(chunks.len(), 2);
    assert_eq!(chunks[0].text.len(), 512);
    assert_eq!(chunks[1].text, text[462..].to_string());
}

#[test]
fn empty_page_gives_no_chunks() {
    assert!(split("", &ChunkOptions::default()).is_empty());
}

#[test]
fn whitespace_page_gives_no_chunks() {
    assert!(split(" \n\t \u{3000} ", &ChunkOptions::default()).is_empty());
}

#[test]
fn short_page_is_one_trimmed_chunk() {
    let chunks = split("  Hello world. \n", &ChunkOptions::default());
    assert_eq!(chunks.len(), 1);
    assert_eq!(chunks[0].text, "Hello world.");
    assert_eq!(chunks[0].page_number, 1);
}

#[test]
fn unicode_whitespace_is_trimmed() {
    let chunks = split("\u{3000}\u{a0}text\u{2029}", &ChunkOptions::default());
    assert_eq!(chunks.len(), 1);
    assert_eq!(chunks[0].text, "text");
}

#[test]
fn overlap_at_least_window_still_ends() {
    let chunks = split("abcdefghij", &opts(3, 5, false));
    assert_eq!(chunks.len(), 1);
    assert_eq!(chunks[0].text, "abc");
}

#[test]
fn zero_window_ends_with_no_chunks() {
    assert!(split("abcdefghij", &opts(0, 0, true)).is_empty());
    assert!(split("abcdefghij", &opts(0, 7, false)).is_empty());
}

#[test]
fn multibyte_text_is_cut_on_boundaries() {
    let chunks = split("ééééé", &opts(3, 0, false));
    let texts: Vec<&str> = chunks.iter().map(|c| c.text.as_str()).collect();
    assert_eq!(texts, vec!["éé", "éé", "é"]);
}

#[test]
fn overlapping_windows_repeat_bytes() {
    let chunks = split("abcdefghij", &opts(4, 2, false));
    let texts: Vec<&str> = chunks.iter().map(|c| c.text.as_str()).collect();
    assert_eq!(texts, vec!["abcd", "cdef", "efgh", "ghij"]);
}

#[test]
fn sentence_mark_outside_last_fifth_is_ignored() {
    // window 0..10, search starts at 8: the '!' at 2 is not seen
    let chunks = split("ab!defghijklmno", &opts(10, 0, true));
    assert_eq!(chunks[0].text, "ab!defghij");
}

#[test]
fn question_mark_in_last_fifth_ends_chunk() {
    let chunks = split("abcdefgh?jklmno", &opts(10, 0, true));
    assert_eq!(chunks[0].text, "abcdefgh?");
    assert_eq!(chunks[1].text, "jklmno");
}

#[test]
fn every_chunk_is_a_trimmed_piece_of_the_page() {
    let page = "One. Two! Three? Four five six seven.  Eight nine ten. élan vital ünd mehr.";
    for max in 1..30 {
        for overlap in 0..12 {
            for sentences in [false, true] {
                let chunks = split(page, &opts(max, overlap, sentences));
                for (i, c) in chunks.iter().enumerate() {
                    assert_eq!(c.index, i);
                    assert!(!c.text.is_empty());
                    assert_eq!(c.text.trim(), c.text);
                    assert!(page.contains(c.text.as_str()));
                }
            }
        }
    }
}

#[test]
fn appending_continues_numbering() {
    let mut chunks = Vec::new();
    split_page("first page", 1, &ChunkOptions::default(), &mut chunks);
    split_page("second page", 2, &ChunkOptions::default(), &mut chunks);
    assert_eq!(chunks.len(), 2);
    assert_eq!(chunks[1].index, 1);
    assert_eq!(chunks[1].page_number, 2);
    assert_eq!(chunks[1].text, "second page");
}

#[test]
fn pages_are_numbered_and_indexed_globally() {
    let pages = vec![
        "abcdefghij".to_string(),
        "".to_string(),
        "klmnop".to_string(),
    ];
    let chunks = chunk_pages(&pages, &opts(4, 0, false));
    let got: Vec<(usize, usize, &str)> = chunks
        .iter()
        .map(|c| (c.index, c.page_number, c.text.as_str()))
        .collect();
    assert_eq!(
        got,
        vec![
            (0, 1, "abcd"),
            (1, 1, "efgh"),
            (2, 1, "ij"),
            (3, 3, "klmn"),
            (4, 3, "op"),
        ]
    );
    let mut last = 1;
    for c in &chunks {
        assert!(c.page_number >= last && c.page_number <= pages.len());
        last = c.page_number;
    }
}

#[test]
fn default_options() {
    let o = ChunkOptions::default();
    assert_eq!(o.max_chunk_size, 512);
    assert_eq!(o.overlap, 50);
    assert!(o.preserve_sentence_boundaries);
    assert!(o.include_metadata);
}

#[test]
fn chunking_is_deterministic() {
    let page = "Alpha beta. Gamma delta! Epsilon zeta? Eta theta iota kappa.";
    let a = split(page, &opts(16, 4, true));
    let b = split(page, &opts(16, 4, true));
    let ta: Vec<&String> = a.iter().map(|c| &c.text).collect();
    let tb: Vec<&String> = b.iter().map(|c| &c.text).collect();
    assert_eq!(ta, tb);
}

fn visible(s: &str) -> String {
    s.chars().filter(|c| !c.is_whitespace()).collect()
}

#[test]
fn zero_overlap_keeps_every_visible_character() {
    let page = "  One. Two!  Three? Four five\tsix seven.\n Eight nine ten. élan vital ünd mehr.  ";
    for max in 1..40 {
        for sentences in [false, true] {
            let chunks = split(page, &opts(max, 0, sentences));
            let joined: String = chunks.iter().map(|c| c.text.as_str()).collect();
            assert_eq!(visible(&joined), visible(page));
        }
    }
}

#[test]
fn chunks_are_bounded_and_in_page_order() {
    let page = "aa. bb! cc? dd ee ff. gg hh ii jj kk. ll mm é nn oo.";
    for max in 0..25 {
        for overlap in 0..30 {
            for sentences in [false, true] {
                let chunks = split(page, &opts(max, overlap, sentences));
                assert!(chunks.len() <= page.len());
                let mut from = 0;
                for c in &chunks {
                    let pos = page[from..].find(c.text.as_str()).map(|i| i + from);
                    assert!(pos.is_some());
                    from = pos.unwrap();
                }
            }
        }
    }
}
