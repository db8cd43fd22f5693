//! What each entry point computes: the checks made before a document is
//! read, and the results built from the page texts that the PDF collaborator
//! handed back, or from its failure.
use vstd::prelude::*;
use vstd::string::*;

use crate::chunking::{
    chunk_pages, chunks_match, document_chunks, page_views, single_page_chunks, split_page,
    ChunkOptions, DocumentChunk,
};
use crate::status::{failure_is, ErrorCode, Failure};

verus! {

/// Why the PDF collaborator produced no page texts.
pub enum PdfFailure {
    /// The document could not be opened; the collaborator's message.
    Open(String),
    /// The page texts could not be extracted; the collaborator's message.
    Extract(String),
}

/// The decimal digit `d` as a character.
pub open spec fn digit_char(d: nat) -> char {
    ((48 + d) as u8) as char
}

/// The decimal digits of `n`, most significant first.
pub open spec fn decimal(n: nat) -> Seq<char>
    decreases n,
{
    if n < 10 {
        seq![digit_char(n)]
    } else {
        decimal(n / 10).push(digit_char(n % 10))
    }
}

fn digit_string(d: usize) -> (r: String)
    requires
        d < 10,
    ensures
        r@ == seq![digit_char(d as nat)],
{
    let s = if d == 0 {
        "0"
    } else if d == 1 {
        "1"
    } else if d == 2 {
        "2"
    } else if d == 3 {
        "3"
    } else if d == 4 {
        "4"
    } else if d == 5 {
        "5"
    } else if d == 6 {
        "6"
    } else if d == 7 {
        "7"
    } else if d == 8 {
        "8"
    } else {
        "9"
    };
    proof {
        reveal_strlit("0");
        reveal_strlit("1");
        reveal_strlit("2");
        reveal_strlit("3");
        reveal_strlit("4");
        reveal_strlit("5");
        reveal_strlit("6");
        reveal_strlit("7");
        reveal_strlit("8");
        reveal_strlit("9");
        assert(s@ =~= seq![digit_char(d as nat)]);
    }
    String::from_str(s)
}

/// The decimal digits of `n`, without sign or padding.
pub fn decimal_string(n: usize) -> (r: String)
    ensures
        r@ == decimal(n as nat),
    decreases n,
{
    if n < 10 {
        digit_string(n)
    } else {
        let front = decimal_string(n / 10);
        let last = digit_string(n % 10);
        front.concat(last.as_str())
    }
}

/// The diagnostic for an empty document.
pub open spec fn empty_pdf_message() -> Seq<char> {
    "PDF data is empty (0 bytes)"@
}

/// The diagnostic for page number zero.
pub open spec fn page_zero_message() -> Seq<char> {
    "Page number must be >= 1 (1-based indexing)"@
}

/// The diagnostic for page `n` of a document with `count` pages.
pub open spec fn page_out_of_range_message(n: nat, count: nat) -> Seq<char> {
    "Page number "@ + decimal(n) + " is out of range (PDF has "@ + decimal(count) + " pages)"@
}

/// The diagnostic for a failure of the PDF collaborator.
pub open spec fn pdf_failure_message(f: PdfFailure) -> Seq<char> {
    match f {
        PdfFailure::Open(m) => "Failed to parse PDF: "@ + m@,
        PdfFailure::Extract(m) => "Failed to extract text from PDF: "@ + m@,
    }
}

/// The options given, or the defaults (512, 50, sentence-aware) when none are.
pub open spec fn options_or_default(options: Option<ChunkOptions>) -> ChunkOptions {
    match options {
        Some(o) => o,
        None => ChunkOptions {
            max_chunk_size: 512,
            overlap: 50,
            preserve_sentence_boundaries: true,
            include_metadata: true,
        },
    }
}

/// The page texts joined by a blank line.
pub open spec fn joined(pages: Seq<Seq<char>>) -> Seq<char>
    decreases pages.len(),
{
    if pages.len() == 0 {
        seq![]
    } else if pages.len() == 1 {
        pages[0]
    } else {
        joined(pages.subrange(0, pages.len() - 1)) + "\n\n"@ + pages.last()
    }
}

/// Wraps a failure of the PDF collaborator as a parse error with context.
pub fn pdf_failure(f: PdfFailure) -> (r: Failure)
    ensures
        failure_is(r, ErrorCode::PdfParseError, pdf_failure_message(f)),
{
    match f {
        PdfFailure::Open(m) => Failure {
            code: ErrorCode::PdfParseError,
            message: String::from_str("Failed to parse PDF: ").concat(m.as_str()),
        },
        PdfFailure::Extract(m) => Failure {
            code: ErrorCode::PdfParseError,
            message: String::from_str("Failed to extract text from PDF: ").concat(m.as_str()),
        },
    }
}

fn empty_pdf() -> (r: Failure)
    ensures
        failure_is(r, ErrorCode::PdfParseError, empty_pdf_message()),
{
    Failure { code: ErrorCode::PdfParseError, message: String::from_str("PDF data is empty (0 bytes)") }
}

fn page_zero() -> (r: Failure)
    ensures
        failure_is(r, ErrorCode::PdfParseError, page_zero_message()),
{
    Failure {
        code: ErrorCode::PdfParseError,
        message: String::from_str("Page number must be >= 1 (1-based indexing)"),
    }
}

fn page_out_of_range(n: usize, count: usize) -> (r: Failure)
    ensures
        failure_is(r, ErrorCode::PdfParseError, page_out_of_range_message(n as nat, count as nat)),
{
    let message = String::from_str("Page number ").concat(decimal_string(n).as_str()).concat(
        " is out of range (PDF has ",
    ).concat(decimal_string(count).as_str()).concat(" pages)");
    Failure { code: ErrorCode::PdfParseError, message }
}

/// Refuses an empty document before it is read.
pub fn check_document(pdf: &[u8]) -> (r: Result<(), Failure>)
    ensures
        pdf@.len() == 0 ==> (r matches Err(f) && failure_is(
            f,
            ErrorCode::PdfParseError,
            empty_pdf_message(),
        )),
        pdf@.len() > 0 ==> r is Ok,
{
    if pdf.len() == 0 {
        Err(empty_pdf())
    } else {
        Ok(())
    }
}

/// Refuses, before the document is read, an empty document and then page
/// number zero.
pub fn check_page_request(pdf: &[u8], page_number: usize) -> (r: Result<(), Failure>)
    ensures
        pdf@.len() == 0 ==> (r matches Err(f) && failure_is(
            f,
            ErrorCode::PdfParseError,
            empty_pdf_message(),
        )),
        pdf@.len() > 0 && page_number == 0 ==> (r matches Err(f) && failure_is(
            f,
            ErrorCode::PdfParseError,
            page_zero_message(),
        )),
        pdf@.len() > 0 && page_number > 0 ==> r is Ok,
{
    if pdf.len() == 0 {
        Err(empty_pdf())
    } else if page_number == 0 {
        Err(page_zero())
    } else {
        Ok(())
    }
}

/// The page texts that the collaborator handed back, or its failure with
/// context.
pub fn read_pages(parsed: Result<Vec<String>, PdfFailure>) -> (r: Result<Vec<String>, Failure>)
    ensures
        match parsed {
            Ok(pages) => r == Ok::<Vec<String>, Failure>(pages),
            Err(pf) => r matches Err(f) && failure_is(
                f,
                ErrorCode::PdfParseError,
                pdf_failure_message(pf),
            ),
        },
{
    match parsed {
        Ok(pages) => Ok(pages),
        Err(pf) => Err(pdf_failure(pf)),
    }
}

/// The text of the whole document: its pages joined by a blank line.
pub fn join_pages(pages: &Vec<String>) -> (r: String)
    ensures
        r@ == joined(page_views(pages@)),
{
    let ghost views = page_views(pages@);
    let mut text = String::new();
    let mut p: usize = 0;
    while p < pages.len()
        invariant
            p <= pages@.len(),
            views == page_views(pages@),
            text@ == joined(views.subrange(0, p as int)),
        decreases pages@.len() - p,
    {
        proof {
            let next = views.subrange(0, p + 1);
            assert(next.subrange(0, p as int) =~= views.subrange(0, p as int));
            assert(next.last() == pages@[p as int]@);
            if p == 0 {
                assert(next =~= seq![pages@[0]@]);
            }
        }
        if p > 0 {
            text.append("\n\n");
        }
        text.append(pages[p].as_str());
        p = p + 1;
    }
    proof {
        assert(views.subrange(0, p as int) =~= views);
    }
    text
}

/// The text of page `page_number` (1-based) among `pages`.
pub fn page_text_of(pages: &Vec<String>, page_number: usize) -> (r: Result<String, Failure>)
    ensures
        page_number == 0 ==> (r matches Err(f) && failure_is(
            f,
            ErrorCode::PdfParseError,
            page_zero_message(),
        )),
        page_number > pages@.len() ==> (r matches Err(f) && failure_is(
            f,
            ErrorCode::PdfParseError,
            page_out_of_range_message(page_number as nat, pages@.len()),
        )),
        1 <= page_number <= pages@.len() ==> (r matches Ok(t) && t@ == pages@[page_number
            - 1]@),
{
    if page_number == 0 {
        return Err(page_zero());
    }
    if page_number - 1 >= pages.len() {
        return Err(page_out_of_range(page_number, pages.len()));
    }
    Ok(pages[page_number - 1].clone())
}

/// The chunks of page `page_number` (1-based) among `pages`, numbered from 0.
pub fn chunk_page_of(pages: &Vec<String>, page_number: usize, options: &ChunkOptions) -> (r: Result<
    Vec<DocumentChunk>,
    Failure,
>)
    ensures
        page_number == 0 ==> (r matches Err(f) && failure_is(
            f,
            ErrorCode::PdfParseError,
            page_zero_message(),
        )),
        page_number > pages@.len() ==> (r matches Err(f) && failure_is(
            f,
            ErrorCode::PdfParseError,
            page_out_of_range_message(page_number as nat, pages@.len()),
        )),
        1 <= page_number <= pages@.len() ==> (r matches Ok(c) && chunks_match(
            c@,
            single_page_chunks(pages@[page_number - 1]@, page_number as int, *options),
        )),
{
    if page_number == 0 {
        return Err(page_zero());
    }
    if page_number - 1 >= pages.len() {
        return Err(page_out_of_range(page_number, pages.len()));
    }
    let mut chunks: Vec<DocumentChunk> = Vec::new();
    split_page(pages[page_number - 1].as_str(), page_number, options, &mut chunks);
    Ok(chunks)
}

/// Whole-document text from what the collaborator handed back.
pub fn extract_text(parsed: Result<Vec<String>, PdfFailure>) -> (r: Result<String, Failure>)
    ensures
        match parsed {
            Ok(pages) => r matches Ok(t) && t@ == joined(page_views(pages@)),
            Err(pf) => r matches Err(f) && failure_is(
                f,
                ErrorCode::PdfParseError,
                pdf_failure_message(pf),
            ),
        },
{
    let pages = read_pages(parsed)?;
    Ok(join_pages(&pages))
}

/// Text of page `page_number` (1-based) from what the collaborator handed
/// back; page zero is refused first, then a failure of the collaborator, then
/// a page past the end.
pub fn extract_text_from_page(parsed: Result<Vec<String>, PdfFailure>, page_number: usize) -> (r:
    Result<String, Failure>)
    ensures
        page_number == 0 ==> (r matches Err(f) && failure_is(
            f,
            ErrorCode::PdfParseError,
            page_zero_message(),
        )),
        page_number > 0 ==> match parsed {
            Ok(pages) => if page_number <= pages@.len() {
                r matches Ok(t) && t@ == pages@[page_number - 1]@
            } else {
                r matches Err(f) && failure_is(
                    f,
                    ErrorCode::PdfParseError,
                    page_out_of_range_message(page_number as nat, pages@.len()),
                )
            },
            Err(pf) => r matches Err(f) && failure_is(
                f,
                ErrorCode::PdfParseError,
                pdf_failure_message(pf),
            ),
        },
{
    if page_number == 0 {
        return Err(page_zero());
    }
    let pages = read_pages(parsed)?;
    page_text_of(&pages, page_number)
}

/// The options given, or the defaults when none are.
pub fn options_or_defaults(options: Option<ChunkOptions>) -> (r: ChunkOptions)
    ensures
        r == options_or_default(options),
{
    match options {
        Some(o) => o,
        None => ChunkOptions::default(),
    }
}

/// Chunks of the whole document from what the collaborator handed back,
/// with the given options or the defaults.
pub fn extract_chunks(parsed: Result<Vec<String>, PdfFailure>, options: Option<ChunkOptions>) -> (r:
    Result<Vec<DocumentChunk>, Failure>)
    ensures
        match parsed {
            Ok(pages) => r matches Ok(c) && chunks_match(
                c@,
                document_chunks(page_views(pages@), options_or_default(options)),
            ),
            Err(pf) => r matches Err(f) && failure_is(
                f,
                ErrorCode::PdfParseError,
                pdf_failure_message(pf),
            ),
        },
{
    let opts = options_or_defaults(options);
    let pages = read_pages(parsed)?;
    Ok(chunk_pages(&pages, &opts))
}

/// Chunks of page `page_number` (1-based) from what the collaborator handed
/// back, with the given options or the defaults; refusals come in the order
/// of `extract_text_from_page`.
pub fn extract_chunks_from_page(
    parsed: Result<Vec<String>, PdfFailure>,
    page_number: usize,
    options: Option<ChunkOptions>,
) -> (r: Result<Vec<DocumentChunk>, Failure>)
    ensures
        page_number == 0 ==> (r matches Err(f) && failure_is(
            f,
            ErrorCode::PdfParseError,
            page_zero_message(),
        )),
        page_number > 0 ==> match parsed {
            Ok(pages) => if page_number <= pages@.len() {
                r matches Ok(c) && chunks_match(
                    c@,
                    single_page_chunks(
                        pages@[page_number - 1]@,
                        page_number as int,
                        options_or_default(options),
                    ),
                )
            } else {
                r matches Err(f) && failure_is(
                    f,
                    ErrorCode::PdfParseError,
                    page_out_of_range_message(page_number as nat, pages@.len()),
                )
            },
            Err(pf) => r matches Err(f) && failure_is(
                f,
                ErrorCode::PdfParseError,
                pdf_failure_message(pf),
            ),
        },
{
    if page_number == 0 {
        return Err(page_zero());
    }
    let opts = options_or_defaults(options);
    let pages = read_pages(parsed)?;
    chunk_page_of(&pages, page_number, &opts)
}

/// Number of pages from what the collaborator handed back.
pub fn page_count(parsed: Result<Vec<String>, PdfFailure>) -> (r: Result<usize, Failure>)
    ensures
        match parsed {
            Ok(pages) => r == Ok::<usize, Failure>(pages@.len() as usize),
            Err(pf) => r matches Err(f) && failure_is(
                f,
                ErrorCode::PdfParseError,
                pdf_failure_message(pf),
            ),
        },
{
    let pages = read_pages(parsed)?;
    Ok(pages.len())
}

} // verus!
