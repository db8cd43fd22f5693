use oxidize_pdf_ffi::chunking::ChunkOptions;
use oxidize_pdf_ffi::document::{
    check_document, check_page_request, chunk_page_of, decimal_string, extract_chunks,
    extract_chunks_from_page, extract_text, extract_text_from_page, join_pages,
    options_or_defaults, page_count, page_text_of, pdf_failure, read_pages, PdfFailure,
};
use oxidize_pdf_ffi::status::ErrorCode;

fn pages(texts: &[&str]) -> Vec<String> {
    texts.iter().map(|t| t.to_string()).collect()
}

fn parse(pdf: &[u8]) -> Result<Vec<String>, PdfFailure> {
    let reader = match oxidize_pdf::parser::PdfReader::new(std::io::Cursor::new(pdf)) {
        Ok(reader) => reader,
        Err(e) => return Err(PdfFailure::Open(e.to_string())),
    };
    match oxidize_pdf::parser::PdfDocument::new(reader).extract_text() {
        Ok(pages) => Ok(pages.into_iter().map(|p| p.text).collect()),
        Err(e) => Err(PdfFailure::Extract(e.to_string())),
    }
}

fn open_failure() -> Result<Vec<String>, PdfFailure> {
    Err(PdfFailure::Open("bad header".to_string()))
}

#[test]
fn decimal_digits() {
    assert_eq!(decimal_string(0), "0");
    assert_eq!(decimal_string(7), "7");
    assert_eq!(decimal_string(10), "10");
    assert_eq!(decimal_string(12345), "12345");
    assert_eq!(decimal_string(usize::MAX), usize::MAX.to_string());
}

#[test]
fn join_uses_blank_line() {
    assert_eq!(join_pages(&pages(&["a", "b", "c"])), "a\n\nb\n\nc");
    assert_eq!(join_pages(&pages(&["only"])), "only");
    assert_eq!(join_pages(&pages(&[])), "");
}

#[test]
fn page_text_selects_one_based() {
    let p = pages(&["one", "two"]);
    assert_eq!(page_text_of(&p, 2).ok().unwrap(), "two");
}

#[test]
fn page_zero_is_refused() {
    let f = page_text_of(&pages(&["one"]), 0).err().unwrap();
    assert_eq!(f.code, ErrorCode::PdfParseError);
    assert_eq!(f.message, "Page number must be >= 1 (1-based indexing)");
}

#[test]
fn page_past_end_is_refused() {
    let f = page_text_of(&pages(&["one", "two"]), 12).err().unwrap();
    assert_eq!(f.code, ErrorCode::PdfParseError);
    assert_eq!(f.message, "Page number 12 is out of range (PDF has 2 pages)");
}

#[test]
fn chunk_page_refusals() {
    let p = pages(&["one", "two"]);
    let o = ChunkOptions::default();
    let zero = chunk_page_of(&p, 0, &o).err().unwrap();
    assert_eq!(zero.code, ErrorCode::PdfParseError);
    assert_eq!(zero.message, "Page number must be >= 1 (1-based indexing)");
    let past = chunk_page_of(&p, 3, &o).err().unwrap();
    assert_eq!(past.code, ErrorCode::PdfParseError);
    assert_eq!(past.message, "Page number 3 is out of range (PDF has 2 pages)");
}

#[test]
fn chunk_page_numbers_from_zero_with_its_page() {
    let p = pages(&["first", "abcdefgh"]);
    let o = ChunkOptions {
        max_chunk_size: 4,
        overlap: 0,
        preserve_sentence_boundaries: false,
        include_metadata: false,
    };
    let chunks = chunk_page_of(&p, 2, &o).ok().unwrap();
    assert_eq!(chunks.len(), 2);
    assert_eq!((chunks[0].index, chunks[0].page_number, chunks[0].text.as_str()), (0, 2, "abcd"));
    assert_eq!((chunks[1].index, chunks[1].page_number, chunks[1].text.as_str()), (1, 2, "efgh"));
}

#[test]
fn empty_document_is_refused() {
    let f = check_document(&[]).err().unwrap();
    assert_eq!(f.code, ErrorCode::PdfParseError);
    assert_eq!(f.message, "PDF data is empty (0 bytes)");
    assert!(check_document(b"x").is_ok());
    let g = check_page_request(&[], 0).err().unwrap();
    assert_eq!(g.message, "PDF data is empty (0 bytes)");
}

#[test]
fn page_zero_is_refused_before_parsing() {
    let f = check_page_request(b"not a pdf at all", 0).err().unwrap();
    assert_eq!(f.code, ErrorCode::PdfParseError);
    assert_eq!(f.message, "Page number must be >= 1 (1-based indexing)");
    assert!(check_page_request(b"x", 1).is_ok());
    let g = extract_text_from_page(open_failure(), 0).err().unwrap();
    assert_eq!(g.message, "Page number must be >= 1 (1-based indexing)");
    let h = extract_chunks_from_page(open_failure(), 0, None).err().unwrap();
    assert_eq!(h.message, "Page number must be >= 1 (1-based indexing)");
}

#[test]
fn collaborator_failures_get_context() {
    let open = pdf_failure(PdfFailure::Open("bad header".to_string()));
    assert_eq!(open.code, ErrorCode::PdfParseError);
    assert_eq!(open.message, "Failed to parse PDF: bad header");
    let ext = pdf_failure(PdfFailure::Extract("no pages".to_string()));
    assert_eq!(ext.message, "Failed to extract text from PDF: no pages");
}

#[test]
fn every_entry_passes_collaborator_failure_on() {
    let want = "Failed to parse PDF: bad header";
    assert_eq!(read_pages(open_failure()).err().unwrap().message, want);
    assert_eq!(extract_text(open_failure()).err().unwrap().message, want);
    assert_eq!(extract_text_from_page(open_failure(), 1).err().unwrap().message, want);
    assert_eq!(extract_chunks(open_failure(), None).err().unwrap().message, want);
    assert_eq!(extract_chunks_from_page(open_failure(), 1, None).err().unwrap().message, want);
    let f = page_count(Err(PdfFailure::Extract("no pages".to_string()))).err().unwrap();
    assert_eq!(f.code, ErrorCode::PdfParseError);
    assert_eq!(f.message, "Failed to extract text from PDF: no pages");
}

#[test]
fn results_from_page_texts() {
    let p = || Ok(pages(&["one two", "three"]));
    assert_eq!(page_count(p()).ok().unwrap(), 2);
    assert_eq!(read_pages(p()).ok().unwrap(), pages(&["one two", "three"]));
    assert_eq!(extract_text(p()).ok().unwrap(), "one two\n\nthree");
    assert_eq!(extract_text_from_page(p(), 2).ok().unwrap(), "three");
    let past = extract_text_from_page(p(), 3).err().unwrap();
    assert_eq!(past.message, "Page number 3 is out of range (PDF has 2 pages)");
    let chunks = extract_chunks(p(), None).ok().unwrap();
    let got: Vec<(usize, usize, &str)> =
        chunks.iter().map(|c| (c.index, c.page_number, c.text.as_str())).collect();
    assert_eq!(got, vec![(0, 1, "one two"), (1, 2, "three")]);
    let one = extract_chunks_from_page(p(), 2, None).ok().unwrap();
    assert_eq!((one[0].index, one[0].page_number, one[0].text.as_str()), (0, 2, "three"));
    let past_chunks = extract_chunks_from_page(p(), 5, None).err().unwrap();
    assert_eq!(past_chunks.message, "Page number 5 is out of range (PDF has 2 pages)");
}

#[test]
fn missing_options_mean_defaults() {
    let o = options_or_defaults(None);
    assert_eq!((o.max_chunk_size, o.overlap), (512, 50));
    let given = ChunkOptions {
        max_chunk_size: 3,
        overlap: 1,
        preserve_sentence_boundaries: false,
        include_metadata: false,
    };
    assert_eq!(options_or_defaults(Some(given)).max_chunk_size, 3);
}

#[test]
fn unparsable_document_is_a_parse_error() {
    let f = read_pages(parse(b"not a pdf at all")).err().unwrap();
    assert_eq!(f.code, ErrorCode::PdfParseError);
    assert!(f.message.starts_with("Failed to parse PDF: "));
    assert!(f.message.len() > "Failed to parse PDF: ".len());
}

fn two_page_pdf() -> Vec<u8> {
    let mut doc = oxidize_pdf::Document::new();
    for word in ["Hello first page", "Second page here"] {
        let mut page = oxidize_pdf::Page::a4();
        page.text()
            .set_font(oxidize_pdf::Font::Helvetica, 12.0)
            .at(50.0, 700.0)
            .write(word)
            .unwrap();
        doc.add_page(page);
    }
    doc.to_bytes().unwrap()
}

#[test]
fn real_document_round_trip() {
    let bytes = two_page_pdf();
    assert!(check_document(&bytes).is_ok());
    assert_eq!(page_count(parse(&bytes)).ok().unwrap(), 2);
    let chunks = extract_chunks(parse(&bytes), None).ok().unwrap();
    let mut last = 1;
    for (i, c) in chunks.iter().enumerate() {
        assert_eq!(c.index, i);
        assert!(c.page_number >= last && c.page_number <= 2);
        last = c.page_number;
    }
    let page_two = extract_chunks_from_page(parse(&bytes), 2, None).ok().unwrap();
    assert!(page_two.iter().all(|c| c.page_number == 2));
    let past = extract_text_from_page(parse(&bytes), 3).err().unwrap();
    assert_eq!(past.message, "Page number 3 is out of range (PDF has 2 pages)");
}
