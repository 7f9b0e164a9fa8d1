//! The whole way from a document to a result: what is done for each kind of document, and what the
//! result holds.

use crate::detector::{Confidence, PdfType, PdfTypeResult};
use crate::error::{message_of, reports, FailureKind, PdfError};
use crate::limits::{can_read_page, is_readable_page};
use crate::loading::{load_document, opened};
use crate::pdf::{
    check_pages, document_objects, document_trailer, extract_text, extracted_text, find_pages,
    has_countable_pages, known_pages, Entries, Objects,
};
use crate::text::{chars_of, string_of};
use crate::validation::{file_hint, is_pdf};
use vstd::prelude::*;

verus! {

// ---------------------------------------------------------------------------------------------
// Broken encodings
// ---------------------------------------------------------------------------------------------

/// How many dollar signs a text has.
pub open spec fn dollar_count(s: Seq<char>) -> nat
    decreases s.len(),
{
    if s.len() == 0 {
        0
    } else {
        dollar_count(s.drop_last()) + if s.last() == '$' {
            1nat
        } else {
            0nat
        }
    }
}

/// Whether a character is an ASCII letter.
pub open spec fn is_plain_letter(c: char) -> bool {
    'a' <= c <= 'z' || 'A' <= c <= 'Z'
}

/// How many of the dollar signs before position `n` stand between two letters.
pub open spec fn inner_dollars(s: Seq<char>, n: int) -> nat
    decreases n,
{
    if n <= 0 {
        0
    } else {
        let i = n - 1;
        inner_dollars(s, i) + if 0 < i < s.len() - 1 && s[i] == '$' && is_plain_letter(s[i - 1])
            && is_plain_letter(s[i + 1]) {
            1nat
        } else {
            0nat
        }
    }
}

/// Whether a text shows that a font's encoding is broken: it holds a replacement character; or it
/// has more than ten dollar signs, of which more than twenty or more than half stand between two
/// letters, where spaces should be.
pub open spec fn has_broken_encoding(s: Seq<char>) -> bool {
    let inner = inner_dollars(s, s.len() as int);
    s.contains('\u{FFFD}') || (dollar_count(s) > 10 && (inner > 20 || 2 * inner > dollar_count(s)))
}

/// Whether a text shows that a font's encoding is broken.
pub fn detect_encoding_issues(markdown: &str) -> (r: bool)
    ensures
        r == has_broken_encoding(markdown@),
{
    let s = chars_of(markdown);
    let n: usize = s.len();
    let mut total: usize = 0;
    let mut inner: usize = 0;
    let mut i: usize = 0;
    assert(s@.take(0) =~= seq![]);
    while i < n
        invariant
            i <= n == s@.len(),
            total <= i,
            inner <= i,
            total == dollar_count(s@.take(i as int)),
            inner == inner_dollars(s@, i as int),
            forall|k: int| 0 <= k < i ==> s@[k] != '\u{FFFD}',
            s@ == markdown@,
        decreases n - i,
    {
        let c: char = s[i];
        if c == '\u{FFFD}' {
            assert(s@.contains('\u{FFFD}'));
            return true;
        }
        assert(s@.take(i + 1).drop_last() =~= s@.take(i as int));
        if c == '$' {
            total = total + 1;
            if i > 0 && n - i > 1 {
                let before: char = s[i - 1];
                let after: char = s[i + 1];
                if (('a' <= before && before <= 'z') || ('A' <= before && before <= 'Z')) && ((
                'a' <= after && after <= 'z') || ('A' <= after && after <= 'Z')) {
                    inner = inner + 1;
                }
            }
        }
        i = i + 1;
    }
    assert(s@.take(i as int) =~= s@);
    total > 10 && (inner > 20 || 2 * inner as u128 > total as u128)
}

// ---------------------------------------------------------------------------------------------
// Layout
// ---------------------------------------------------------------------------------------------

/// What makes the layout of a document complex.
#[derive(Debug, Clone)]
pub struct LayoutComplexity {
    /// Whether there are tables or columns.
    pub is_complex: bool,
    /// The pages with tables.
    pub pages_with_tables: Vec<u32>,
    /// The pages with more than one column.
    pub pages_with_columns: Vec<u32>,
}

impl Default for LayoutComplexity {
    fn default() -> (r: Self)
        ensures
            !r.is_complex,
            r.pages_with_tables@ == Seq::<u32>::empty(),
            r.pages_with_columns@ == Seq::<u32>::empty(),
    {
        LayoutComplexity {
            is_complex: false,
            pages_with_tables: Vec::new(),
            pages_with_columns: Vec::new(),
        }
    }
}

/// Whether page numbers go up.
pub open spec fn go_up(pages: Seq<u32>) -> bool {
    forall|i: int, j: int| 0 <= i < j < pages.len() ==> pages[i] < pages[j]
}

/// How often a number occurs in a list.
pub open spec fn times(list: Seq<u32>, x: u32) -> nat
    decreases list.len(),
{
    if list.len() == 0 {
        0
    } else {
        times(list.drop_last(), x) + if list.last() == x {
            1nat
        } else {
            0nat
        }
    }
}

/// The numbers of a list in ascending order, each once.
pub fn distinct_pages(list: &Vec<u32>) -> (r: Vec<u32>)
    ensures
        go_up(r@),
        forall|x: u32| r@.contains(x) <==> list@.contains(x),
{
    let mut out: Vec<u32> = Vec::new();
    let mut i: usize = 0;
    while i < list.len()
        invariant
            i <= list@.len(),
            go_up(out@),
            forall|x: u32| #[trigger] out@.contains(x) <==> list@.take(i as int).contains(x),
        decreases list@.len() - i,
    {
        let x: u32 = list[i];
        let mut p: usize = out.len();
        while p > 0 && out[p - 1] > x
            invariant
                p <= out@.len(),
                forall|k: int| p <= k < out@.len() ==> x < #[trigger] out@[k],
            decreases p,
        {
            p = p - 1;
        }
        let ghost before = out@;
        let ghost head = list@.take(i as int);
        if !(p > 0 && out[p - 1] == x) {
            out.insert(p, x);
            proof {
                assert forall|a: int, b: int| 0 <= a < b < out@.len() implies out@[a] < out@[b] by {
                    if b < p {
                        assert(out@[a] == before[a] && out@[b] == before[b]);
                    } else if b == p {
                        assert(out@[a] == before[a]);
                        assert(before[a] <= before[p - 1]);
                    } else if a < p {
                        assert(out@[a] == before[a] && out@[b] == before[b - 1]);
                    } else if a == p {
                        assert(out@[b] == before[b - 1]);
                    } else {
                        assert(out@[a] == before[a - 1] && out@[b] == before[b - 1]);
                    }
                }
            }
        }
        proof {
            let next = list@.take(i + 1);
            assert(next =~= head.push(x));
            assert forall|y: u32| #[trigger] out@.contains(y) <==> next.contains(y) by {
                if next.contains(y) {
                    let k = next.index_of(y);
                    if k < i {
                        assert(head[k] == y);
                        assert(before.contains(y));
                        let j = before.index_of(y);
                        if before != out@ {
                            if j < p {
                                assert(out@[j] == y);
                            } else {
                                assert(out@[j + 1] == y);
                            }
                        }
                    } else {
                        assert(y == x);
                        if before == out@ {
                            assert(out@[p - 1] == x);
                        } else {
                            assert(out@[p as int] == x);
                        }
                    }
                }
                if out@.contains(y) {
                    let j = out@.index_of(y);
                    if before == out@ {
                        assert(head.contains(y));
                        assert(next[head.index_of(y)] == y);
                    } else if j == p {
                        assert(next[i as int] == y);
                    } else {
                        if j < p {
                            assert(before[j] == y);
                        } else {
                            assert(before[j - 1] == y);
                        }
                        assert(before.contains(y));
                        assert(head.contains(y));
                        assert(next[head.index_of(y)] == y);
                    }
                }
            }
        }
        i = i + 1;
    }
    assert(list@.take(i as int) =~= list@);
    out
}

/// How often a number occurs in a list.
fn count_times(list: &Vec<u32>, x: u32) -> (r: usize)
    ensures
        r == times(list@, x),
{
    let mut count: usize = 0;
    let mut i: usize = 0;
    assert(list@.take(0) =~= seq![]);
    while i < list.len()
        invariant
            i <= list@.len(),
            count <= i,
            count == times(list@.take(i as int), x),
        decreases list@.len() - i,
    {
        assert(list@.take(i + 1).drop_last() =~= list@.take(i as int));
        if list[i] == x {
            count = count + 1;
        }
        i = i + 1;
    }
    assert(list@.take(i as int) =~= list@);
    count
}

proof fn lemma_times(list: Seq<u32>, x: u32)
    ensures
        times(list, x) > 0 <==> list.contains(x),
    decreases list.len(),
{
    if list.len() > 0 {
        lemma_times(list.drop_last(), x);
        if list.drop_last().contains(x) {
            assert(list[list.drop_last().index_of(x)] == x);
        }
        if list.last() == x {
            assert(list[list.len() - 1] == x);
        }
        if list.contains(x) && list.last() != x {
            assert(list.drop_last()[list.index_of(x)] == x);
        }
    }
}

/// Whether a page may have more than one column, by the answer of `columns`.
pub open spec fn has_columns<F: Fn(u32) -> usize>(columns: F, page: u32) -> bool {
    exists|n: usize| n >= 2 && #[trigger] columns.ensures((page,), n)
}

/// Whether a page may have a single column, by the answer of `columns`.
pub open spec fn has_no_columns<F: Fn(u32) -> usize>(columns: F, page: u32) -> bool {
    exists|n: usize| n < 2 && #[trigger] columns.ensures((page,), n)
}

/// Whether a layout is that of a document with the given pages of texts and of rectangles, by the
/// answers of `columns`.
pub open spec fn is_layout_of<F: Fn(u32) -> usize>(
    r: LayoutComplexity,
    item_pages: Seq<u32>,
    rect_pages: Seq<u32>,
    columns: F,
) -> bool {
    &&& go_up(r.pages_with_tables@)
    &&& forall|p: u32| r.pages_with_tables@.contains(p) <==> #[trigger] times(rect_pages, p) > 6
    &&& go_up(r.pages_with_columns@)
    &&& forall|p: u32| #[trigger]
        r.pages_with_columns@.contains(p) ==> item_pages.contains(p) && has_columns(columns, p)
    &&& forall|p: u32| #[trigger]
        item_pages.contains(p) && !r.pages_with_columns@.contains(p) ==> has_no_columns(columns, p)
    &&& r.is_complex == (r.pages_with_tables@.len() > 0 || r.pages_with_columns@.len() > 0)
}

/// Says what makes the layout of a document complex. `rect_pages` holds the page of each rectangle
/// that may be the cell of a table, `item_pages` the page of each piece of text; `columns` answers
/// how many columns a page has. A page with more than six rectangles has a table.
pub fn compute_layout_complexity<F: Fn(u32) -> usize>(
    item_pages: &Vec<u32>,
    rect_pages: &Vec<u32>,
    columns: F,
) -> (r: LayoutComplexity)
    requires
        forall|p: u32| columns.requires((p,)),
    ensures
        is_layout_of(r, item_pages@, rect_pages@, columns),
        go_up(r.pages_with_tables@),
        forall|p: u32| r.pages_with_tables@.contains(p) <==> #[trigger] times(rect_pages@, p) > 6,
        go_up(r.pages_with_columns@),
        forall|p: u32| #[trigger]
            r.pages_with_columns@.contains(p) ==> item_pages@.contains(p) && has_columns(
                columns,
                p,
            ),
        forall|p: u32| #[trigger]
            item_pages@.contains(p) && !r.pages_with_columns@.contains(p) ==> has_no_columns(
                columns,
                p,
            ),
        r.is_complex == (r.pages_with_tables@.len() > 0 || r.pages_with_columns@.len() > 0),
{
    let rects = distinct_pages(rect_pages);
    let mut tables: Vec<u32> = Vec::new();
    let mut i: usize = 0;
    while i < rects.len()
        invariant
            i <= rects@.len(),
            go_up(rects@),
            go_up(tables@),
            forall|k: int| 0 <= k < tables@.len() ==> times(rect_pages@, #[trigger] tables@[k]) > 6,
            forall|k: int|
                0 <= k < tables@.len() ==> exists|j: int| 0 <= j < i && rects@[j] == #[trigger] tables@[k],
            forall|j: int|
                0 <= j < i && times(rect_pages@, #[trigger] rects@[j]) > 6 ==> tables@.contains(
                    rects@[j],
                ),
        decreases rects@.len() - i,
    {
        let page: u32 = rects[i];
        let ghost before = tables@;
        if count_times(rect_pages, page) > 6 {
            tables.push(page);
            proof {
                assert forall|a: int, b: int| 0 <= a < b < tables@.len() implies tables@[a]
                    < tables@[b] by {
                    if b == before.len() {
                        assert(tables@[a] == before[a]);
                        let j = choose|j: int| 0 <= j < i && rects@[j] == before[a];
                        assert(rects@[j] < rects@[i as int]);
                    }
                }
                assert(tables@[before.len() as int] == page);
                assert forall|j: int|
                    0 <= j < i + 1 && times(
                        rect_pages@,
                        #[trigger] rects@[j],
                    ) > 6 implies tables@.contains(rects@[j]) by {
                    if j < i {
                        assert(tables@[before.index_of(rects@[j])] == rects@[j]);
                    }
                }
                assert forall|k: int| 0 <= k < tables@.len() implies exists|j: int|
                    0 <= j < i + 1 && rects@[j] == #[trigger] tables@[k] by {
                    if k < before.len() {
                        let j = choose|j: int| 0 <= j < i && rects@[j] == before[k];
                        assert(rects@[j] == tables@[k]);
                    } else {
                        assert(rects@[i as int] == tables@[k]);
                    }
                }
            }
        }
        i = i + 1;
    }
    proof {
        assert forall|p: u32| tables@.contains(p) <==> #[trigger] times(rect_pages@, p) > 6 by {
            lemma_times(rect_pages@, p);
            if times(rect_pages@, p) > 6 {
                assert(rects@.contains(p));
                assert(rects@[rects@.index_of(p)] == p);
            }
            if tables@.contains(p) {
                assert(times(rect_pages@, tables@[tables@.index_of(p)]) > 6);
            }
        }
    }
    let pages = distinct_pages(item_pages);
    let mut split: Vec<u32> = Vec::new();
    let mut k: usize = 0;
    while k < pages.len()
        invariant
            k <= pages@.len(),
            go_up(pages@),
            go_up(split@),
            forall|p: u32| columns.requires((p,)),
            forall|a: int|
                0 <= a < split@.len() ==> exists|j: int| 0 <= j < k && pages@[j] == #[trigger] split@[a],
            forall|a: int| 0 <= a < split@.len() ==> has_columns(columns, #[trigger] split@[a]),
            forall|j: int|
                0 <= j < k && !split@.contains(#[trigger] pages@[j]) ==> has_no_columns(
                    columns,
                    pages@[j],
                ),
        decreases pages@.len() - k,
    {
        let page: u32 = pages[k];
        let ghost before = split@;
        let n: usize = columns(page);
        if n >= 2 {
            split.push(page);
            proof {
                assert forall|a: int, b: int| 0 <= a < b < split@.len() implies split@[a]
                    < split@[b] by {
                    if b == before.len() {
                        assert(split@[a] == before[a]);
                        let j = choose|j: int| 0 <= j < k && pages@[j] == before[a];
                        assert(pages@[j] < pages@[k as int]);
                    }
                }
                assert forall|a: int| 0 <= a < split@.len() implies exists|j: int|
                    0 <= j < k + 1 && pages@[j] == #[trigger] split@[a] by {
                    if a < before.len() {
                        let j = choose|j: int| 0 <= j < k && pages@[j] == before[a];
                        assert(pages@[j] == split@[a]);
                    } else {
                        assert(pages@[k as int] == split@[a]);
                    }
                }
                assert forall|a: int| 0 <= a < split@.len() implies has_columns(
                    columns,
                    #[trigger] split@[a],
                ) by {
                    if a < before.len() {
                        assert(split@[a] == before[a]);
                    } else {
                        assert(columns.ensures((split@[a],), n));
                    }
                }
                assert(split@[before.len() as int] == page);
                assert forall|j: int|
                    0 <= j < k + 1 && !split@.contains(#[trigger] pages@[j]) implies has_no_columns(
                    columns,
                    pages@[j],
                ) by {
                    if before.contains(pages@[j]) {
                        assert(split@[before.index_of(pages@[j])] == pages@[j]);
                    }
                }
            }
        } else {
            proof {
                assert forall|j: int|
                    0 <= j < k + 1 && !split@.contains(#[trigger] pages@[j]) implies has_no_columns(
                    columns,
                    pages@[j],
                ) by {
                    if j == k {
                        assert(columns.ensures((pages@[j],), n));
                    }
                }
            }
        }
        k = k + 1;
    }
    proof {
        assert forall|p: u32| #[trigger] split@.contains(p) implies item_pages@.contains(p)
            && has_columns(columns, p) by {
            let a = split@.index_of(p);
            let j = choose|j: int| 0 <= j < k && pages@[j] == split@[a];
            assert(pages@.contains(pages@[j]));
            assert(split@[a] == p);
        }
        assert forall|p: u32| #[trigger]
            item_pages@.contains(p) && !split@.contains(p) implies has_no_columns(columns, p) by {
            assert(pages@.contains(p));
            let j = pages@.index_of(p);
            assert(pages@[j] == p);
        }
    }
    LayoutComplexity {
        is_complex: tables.len() > 0 || split.len() > 0,
        pages_with_tables: tables,
        pages_with_columns: split,
    }
}

// ---------------------------------------------------------------------------------------------
// The result
// ---------------------------------------------------------------------------------------------

/// How far a document is processed.
#[derive(Debug, Clone, Copy, PartialEq, Eq, Structural)]
pub enum ProcessMode {
    /// Up to the Markdown.
    Full,
    /// Up to its layout, without Markdown.
    Analyze,
    /// Up to its kind only.
    DetectOnly,
}

/// Whether the text of a document is extracted.
#[derive(Debug, Clone, Copy, PartialEq, Eq, Structural)]
pub enum Extraction {
    /// It is not.
    Skip,
    /// It is, and where that fails the whole processing does.
    Required,
    /// It is, as far as possible.
    Optional,
}

/// Whether the text of a document is extracted, by its kind and by how far it is processed.
pub open spec fn extraction_of(pdf_type: PdfType, mode: ProcessMode) -> Extraction {
    if mode == ProcessMode::DetectOnly {
        Extraction::Skip
    } else {
        match pdf_type {
            PdfType::TextBased => Extraction::Required,
            PdfType::Scanned | PdfType::ImageBased => Extraction::Skip,
            PdfType::Mixed => Extraction::Optional,
        }
    }
}

/// Decides whether the text of a document is extracted.
pub fn plan_extraction(pdf_type: PdfType, mode: ProcessMode) -> (r: Extraction)
    ensures
        r == extraction_of(pdf_type, mode),
{
    match mode {
        ProcessMode::DetectOnly => Extraction::Skip,
        _ => match pdf_type {
            PdfType::TextBased => Extraction::Required,
            PdfType::Scanned => Extraction::Skip,
            PdfType::ImageBased => Extraction::Skip,
            PdfType::Mixed => Extraction::Optional,
        },
    }
}

/// Whether a document is processed up to its Markdown.
pub open spec fn is_full(mode: ProcessMode) -> bool {
    mode == ProcessMode::Full
}

/// Whether text that was extracted is written as Markdown.
pub fn writes_markdown(mode: ProcessMode) -> (r: bool)
    ensures
        r == is_full(mode),
{
    match mode {
        ProcessMode::Full => true,
        _ => false,
    }
}

/// What a document was found to be, and what was extracted from it.
#[derive(Debug)]
pub struct PdfProcessResult {
    /// What kind of document it is.
    pub pdf_type: PdfType,
    /// The text that was extracted, where the document is based on text.
    pub text: Option<String>,
    /// The Markdown, where it was written.
    pub markdown: Option<String>,
    /// How many pages the document has.
    pub page_count: u32,
    /// How long the processing took, in milliseconds.
    pub processing_time_ms: u64,
    /// The pages that need character recognition.
    pub pages_needing_ocr: Vec<u32>,
    /// The title, if the document has one.
    pub title: Option<String>,
    /// How sure the classification is.
    pub confidence: Confidence,
    /// What makes the layout complex.
    pub layout: LayoutComplexity,
    /// Whether the text shows that a font's encoding is broken.
    pub has_encoding_issues: bool,
}

/// What was extracted from a document.
#[derive(Debug)]
pub struct ExtractedText {
    /// Its text, without structure.
    pub text: String,
    /// What makes its layout complex.
    pub layout: LayoutComplexity,
    /// Its text as Markdown, where that was asked for.
    pub markdown: Option<String>,
}

/// The text of lines: each followed by a line break.
pub open spec fn lines_text(lines: Seq<String>) -> Seq<char>
    decreases lines.len(),
{
    if lines.len() == 0 {
        seq![]
    } else {
        (lines_text(lines.drop_last()) + lines.last()@).push('\n')
    }
}

/// Writes lines as plain text.
pub fn plain_text(lines: &Vec<String>) -> (r: String)
    ensures
        r@ == lines_text(lines@),
{
    let mut out: Vec<char> = Vec::new();
    let mut i: usize = 0;
    while i < lines.len()
        invariant
            i <= lines@.len(),
            out@ == lines_text(lines@.take(i as int)),
        decreases lines@.len() - i,
    {
        assert(lines@.take(i + 1).drop_last() =~= lines@.take(i as int));
        let mut line = chars_of(lines[i].as_str());
        out.append(&mut line);
        out.push('\n');
        i = i + 1;
    }
    assert(lines@.take(i as int) =~= lines@);
    string_of(out.as_slice())
}

/// Whether a result holds what was detected and what was extracted: the text where the document is
/// based on text, the layout, and the Markdown where it was written. Without an extraction there is
/// no text, and the layout is simple.
pub open spec fn is_result_of(
    r: PdfProcessResult,
    detection: PdfTypeResult,
    extracted: Option<ExtractedText>,
) -> bool {
    &&& r.pdf_type == detection.pdf_type
    &&& r.page_count == detection.page_count
    &&& r.pages_needing_ocr == detection.pages_needing_ocr
    &&& r.title == detection.title
    &&& r.confidence == detection.confidence
    &&& match extracted {
        Some(e) => {
            &&& r.text == if detection.pdf_type == PdfType::TextBased {
                Some(e.text)
            } else {
                None
            }
            &&& r.layout == e.layout
            &&& r.markdown == e.markdown
            &&& r.has_encoding_issues == (e.markdown matches Some(m) && has_broken_encoding(m@))
        },
        None => {
            &&& r.text is None
            &&& r.markdown is None
            &&& !r.has_encoding_issues
            &&& !r.layout.is_complex
            &&& r.layout.pages_with_tables@.len() == 0
            &&& r.layout.pages_with_columns@.len() == 0
        },
    }
}

/// Puts a result together from what was detected and what was extracted.
pub fn assemble_result(
    detection: PdfTypeResult,
    extracted: Option<ExtractedText>,
    processing_time_ms: u64,
) -> (r: PdfProcessResult)
    ensures
        is_result_of(r, detection, extracted),
        r.processing_time_ms == processing_time_ms,
{
    let (text, layout, markdown) = match extracted {
        Some(e) => (Some(e.text), e.layout, e.markdown),
        None => (None, LayoutComplexity::default(), None),
    };
    let has_encoding_issues: bool = match &markdown {
        Some(m) => detect_encoding_issues(m.as_str()),
        None => false,
    };
    PdfProcessResult {
        pdf_type: detection.pdf_type,
        text: match detection.pdf_type {
            PdfType::TextBased => text,
            _ => None,
        },
        markdown,
        page_count: detection.page_count,
        processing_time_ms,
        pages_needing_ocr: detection.pages_needing_ocr,
        title: detection.title,
        confidence: detection.confidence,
        layout,
        has_encoding_issues,
    }
}

/// Whether a result is that of processing a document whose kind was detected: without an extraction
/// where none is asked for, and else by the answer of `extract`.
pub open spec fn is_processed<E, F: Fn(bool) -> Result<ExtractedText, E>>(
    r: Result<PdfProcessResult, E>,
    detection: PdfTypeResult,
    mode: ProcessMode,
    extract: F,
) -> bool {
    match extraction_of(detection.pdf_type, mode) {
        Extraction::Skip => r matches Ok(p) && is_result_of(p, detection, None),
        Extraction::Required => match r {
            Ok(p) => exists|e: ExtractedText| #[trigger]
                extract.ensures((is_full(mode),), Ok(e)) && is_result_of(
                    p,
                    detection,
                    Some(e),
                ),
            Err(x) => extract.ensures((is_full(mode),), Err(x)),
        },
        Extraction::Optional => r matches Ok(p) && ((exists|e: ExtractedText| #[trigger]
            extract.ensures((is_full(mode),), Ok(e)) && is_result_of(
                p,
                detection,
                Some(e),
            )) || (exists|x: E| #[trigger]
            extract.ensures((is_full(mode),), Err(x)) && is_result_of(
                p,
                detection,
                None,
            ))),
    }
}

/// Processes a document whose kind was detected, as far as it is to be processed. `extract` extracts
/// the text, with Markdown where it is told so; `elapsed` says how long the processing took so far.
/// Where a document is based on text, a failure to extract it is reported; where it is mixed, the
/// result is that of the detection.
pub fn process_detected<E, F, G>(
    detection: PdfTypeResult,
    mode: ProcessMode,
    extract: F,
    elapsed: G,
) -> (r: Result<PdfProcessResult, E>) where
    F: Fn(bool) -> Result<ExtractedText, E>,
    G: Fn() -> u64,

    requires
        forall|b: bool| extract.requires((b,)),
        forall|b: bool, e: ExtractedText|
            #[trigger] extract.ensures((b,), Ok(e)) ==> (e.markdown is Some <==> b),
        elapsed.requires(()),
    ensures
        is_processed(r, detection, mode, extract),
        r matches Ok(p) ==> elapsed.ensures((), p.processing_time_ms),
        // A document based on text comes with its text, and in full with its Markdown.
        r matches Ok(p) ==> (p.text is Some <==> (p.pdf_type == PdfType::TextBased && mode
            != ProcessMode::DetectOnly)),
        r matches Ok(p) ==> (p.pdf_type == PdfType::TextBased ==> (p.markdown is Some <==> mode
            == ProcessMode::Full)),
{
    let full: bool = writes_markdown(mode);
    let extracted: Option<ExtractedText> = match plan_extraction(detection.pdf_type, mode) {
        Extraction::Skip => None,
        Extraction::Required => match extract(full) {
            Ok(e) => Some(e),
            Err(x) => {
                return Err(x);
            },
        },
        Extraction::Optional => match extract(full) {
            Ok(e) => Some(e),
            Err(_) => None,
        },
    };
    let time: u64 = elapsed();
    let r = assemble_result(detection, extracted, time);
    Ok(r)
}

// ---------------------------------------------------------------------------------------------
// Plain text of a document
// ---------------------------------------------------------------------------------------------

/// The numbers of the pages of a document.
pub open spec fn page_numbers(pages: Seq<(u32, (u32, u16))>) -> Seq<u32> {
    pages.map_values(|p: (u32, (u32, u16))| p.0)
}

/// The plain text of all pages of a document, or the reason why it cannot be extracted.
pub open spec fn document_text(objects: Objects, trailer: Entries) -> Result<
    Seq<char>,
    (FailureKind, Seq<char>),
> {
    let list = known_pages(objects, trailer);
    if !has_countable_pages(objects) {
        Err((FailureKind::Other, "malformed page tree"@))
    } else if forall|i: int| 0 <= i < list.len() ==> is_readable_page(objects, (#[trigger] list[i]).1) {
        extracted_text(objects, trailer, page_numbers(list))
    } else {
        Err((FailureKind::Other, "malformed page content"@))
    }
}

/// Whether a result is the plain text of a document, or the reason why it cannot be extracted.
pub open spec fn is_text_of(
    r: Result<String, PdfError>,
    objects: Objects,
    trailer: Entries,
) -> bool {
    match r {
        Ok(s) => document_text(objects, trailer) matches Ok(t) && t == s@,
        Err(e) => document_text(objects, trailer) matches Err(f) && (e matches PdfError::Parse(m)
            && (!(f.0 is Io) ==> m@ == f.1)),
    }
}

/// Extracts the plain text of all pages of a document.
pub fn extract_text_from_doc(doc: &lopdf::Document) -> (r: Result<String, PdfError>)
    ensures
        is_text_of(r, document_objects(*doc), document_trailer(*doc)),
{
    if !check_pages(doc) {
        return Err(PdfError::Parse("malformed page tree".to_string()));
    }
    let pages = find_pages(doc);
    let ghost objects = document_objects(*doc);
    let ghost all = page_numbers(pages@);
    let mut numbers: Vec<u32> = Vec::new();
    let mut i: usize = 0;
    while i < pages.len()
        invariant
            i <= pages@.len(),
            objects == document_objects(*doc),
            pages@ == known_pages(objects, document_trailer(*doc)),
            has_countable_pages(objects),
            all == page_numbers(pages@),
            numbers@ == all.take(i as int),
            forall|k: int| 0 <= k < i ==> is_readable_page(objects, (#[trigger] pages@[k]).1),
        decreases pages@.len() - i,
    {
        let (number, id) = pages[i];
        if !can_read_page(doc, id) {
            assert(!is_readable_page(objects, pages@[i as int].1));
            return Err(PdfError::Parse("malformed page content".to_string()));
        }
        numbers.push(number);
        i = i + 1;
        assert(numbers@ =~= all.take(i as int));
    }
    assert(numbers@ =~= all);
    match extract_text(doc, &numbers) {
        Ok(s) => Ok(s),
        Err(e) => Err(PdfError::Parse(message_of(&e))),
    }
}

/// Extracts the plain text of the document in the given bytes. Bytes that do not start like a PDF
/// are refused with what they seem to be; a document that cannot be loaded is reported.
pub fn extract_text_mem(buffer: &[u8]) -> (r: Result<String, PdfError>)
    ensures
        !is_pdf(buffer@) ==> (r matches Err(PdfError::NotAPdf(hint)) && hint@ == file_hint(buffer@)),
        is_pdf(buffer@) ==> match opened(buffer@) {
            Err(f) => r is Err && reports(r->Err_0, f.0, f.1),
            Ok(all) => exists|doc: (Objects, Entries)| #[trigger]
                all.contains(doc) && is_text_of(r, doc.0, doc.1),
        },
{
    let doc = match load_document(buffer) {
        Ok(d) => d,
        Err(e) => {
            return Err(e);
        },
    };
    let r = extract_text_from_doc(&doc);
    r
}

/// The pages to extract: all, or those with the given numbers.
pub open spec fn is_chosen(filter: Option<Seq<u32>>) -> spec_fn((u32, (u32, u16))) -> bool {
    |page: (u32, (u32, u16))|
        match filter {
            Some(numbers) => numbers.contains(page.0),
            None => true,
        }
}

/// Lists the pages of a document to extract: all, or those with the given numbers.
pub fn pages_to_extract(doc: &lopdf::Document, page_filter: Option<&Vec<u32>>) -> (r: Vec<
    (u32, (u32, u16)),
>)
    ensures
        r@ == known_pages(document_objects(*doc), document_trailer(*doc)).filter(
            is_chosen(
                match page_filter {
                    Some(numbers) => Some(numbers@),
                    None => None,
                },
            ),
        ),
{
    let pages = find_pages(doc);
    let ghost wanted = is_chosen(
        match page_filter {
            Some(numbers) => Some(numbers@),
            None => None,
        },
    );
    let mut out: Vec<(u32, (u32, u16))> = Vec::new();
    let mut i: usize = 0;
    assert(pages@.take(0).filter(wanted) =~= seq![]) by {
        reveal(Seq::filter);
    }
    while i < pages.len()
        invariant
            i <= pages@.len(),
            wanted == is_chosen(
                match page_filter {
                    Some(numbers) => Some(numbers@),
                    None => None,
                },
            ),
            out@ == pages@.take(i as int).filter(wanted),
        decreases pages@.len() - i,
    {
        assert(pages@.take(i + 1).drop_last() =~= pages@.take(i as int));
        reveal(Seq::filter);
        let page: (u32, (u32, u16)) = pages[i];
        let chosen: bool = match page_filter {
            Some(numbers) => contains_number(numbers, page.0),
            None => true,
        };
        if chosen {
            out.push(page);
        }
        i = i + 1;
    }
    assert(pages@.take(i as int) =~= pages@);
    out
}

/// Whether a list holds a number.
fn contains_number(list: &Vec<u32>, x: u32) -> (r: bool)
    ensures
        r == list@.contains(x),
{
    let mut i: usize = 0;
    while i < list.len()
        invariant
            i <= list@.len(),
            forall|k: int| 0 <= k < i ==> list@[k] != x,
        decreases list@.len() - i,
    {
        if list[i] == x {
            return true;
        }
        i = i + 1;
    }
    false
}

} // verus!
