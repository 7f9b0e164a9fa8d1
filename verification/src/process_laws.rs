//! What processing a document gives: laws on its result.

use crate::detector::{PdfType, PdfTypeResult};
use crate::process::{
    dollar_count, has_broken_encoding, inner_dollars, is_chosen, is_layout_of, is_processed,
    is_result_of, lines_text, times, ExtractedText, LayoutComplexity, PdfProcessResult, ProcessMode,
};
use vstd::prelude::*;

verus! {

/// What comes out of processing a document. What was detected is handed on in any case. Without an
/// extraction, in mode `DetectOnly` and for scanned documents, there is neither text nor Markdown.
/// Of a mixed document the result holds the Markdown and the layout of the extraction wherever that
/// succeeds, and processing it never fails. Of a text document the result holds the text, the
/// Markdown and the layout of the extraction, and processing it fails exactly with the extraction.
pub proof fn lemma_what_processing_gives<E, F: Fn(bool) -> Result<ExtractedText, E>>(
    r: Result<PdfProcessResult, E>,
    detection: PdfTypeResult,
    mode: ProcessMode,
    extract: F,
    full: bool,
)
    requires
        is_processed(r, detection, mode, extract),
        full == (mode == ProcessMode::Full),
    ensures
        r matches Ok(p) ==> p.pdf_type == detection.pdf_type && p.page_count
            == detection.page_count && p.pages_needing_ocr == detection.pages_needing_ocr && p.title
            == detection.title && p.confidence == detection.confidence,
        mode == ProcessMode::DetectOnly || detection.pdf_type == PdfType::Scanned
            || detection.pdf_type == PdfType::ImageBased ==> (r matches Ok(p) && p.text is None
            && p.markdown is None && !p.has_encoding_issues && !p.layout.is_complex),
        detection.pdf_type == PdfType::Mixed ==> r is Ok,
        mode != ProcessMode::DetectOnly && detection.pdf_type == PdfType::Mixed && (forall|x: E|
            !(#[trigger] extract.ensures((full,), Err(x)))) ==> (r matches Ok(p) && exists|
            e: ExtractedText,
        | #[trigger]
            extract.ensures((full,), Ok(e)) && p.markdown == e.markdown && p.layout == e.layout),
        mode != ProcessMode::DetectOnly && detection.pdf_type == PdfType::Mixed && (forall|
            e: ExtractedText,
        | !(#[trigger] extract.ensures((full,), Ok(e)))) ==> (r matches Ok(p) && p.markdown is None),
        mode != ProcessMode::DetectOnly && detection.pdf_type == PdfType::TextBased ==> match r {
            Ok(p) => exists|e: ExtractedText| #[trigger]
                extract.ensures((full,), Ok(e)) && p.text == Some(e.text) && p.markdown
                    == e.markdown && p.layout == e.layout,
            Err(x) => extract.ensures((full,), Err(x)),
        },
{
}

/// A result that has Markdown tells of a broken encoding exactly where the Markdown shows one.
pub proof fn lemma_broken_encodings_are_told(
    p: PdfProcessResult,
    detection: PdfTypeResult,
    extracted: Option<ExtractedText>,
)
    requires
        is_result_of(p, detection, extracted),
    ensures
        p.markdown matches Some(m) ==> p.has_encoding_issues == has_broken_encoding(m@),
        p.markdown is None ==> !p.has_encoding_issues,
        p.markdown matches Some(m) ==> (m@.contains('\u{FFFD}') ==> p.has_encoding_issues),
{
}

/// A text with a replacement character shows a broken encoding; one without, and with up to ten
/// dollar signs, shows none. More than ten dollar signs show one where they all stand between
/// letters, and none where none of them does.
pub proof fn lemma_what_a_broken_encoding_is(s: Seq<char>)
    ensures
        s.contains('\u{FFFD}') ==> has_broken_encoding(s),
        !s.contains('\u{FFFD}') && dollar_count(s) <= 10 ==> !has_broken_encoding(s),
        dollar_count(s) > 10 && (forall|i: int|
            0 <= i < s.len() && #[trigger] s[i] == '$' ==> stands_between_letters(s, i))
            ==> has_broken_encoding(s),
        !s.contains('\u{FFFD}') && (forall|i: int|
            0 <= i < s.len() && #[trigger] s[i] == '$' ==> !stands_between_letters(s, i))
            ==> !has_broken_encoding(s),
{
    if forall|i: int| 0 <= i < s.len() && #[trigger] s[i] == '$' ==> stands_between_letters(s, i) {
        lemma_all_inner(s, s.len() as int);
        assert(s.take(s.len() as int) =~= s);
    }
    if forall|i: int| 0 <= i < s.len() && #[trigger] s[i] == '$' ==> !stands_between_letters(s, i) {
        lemma_no_inner(s, s.len() as int);
    }
}

/// Whether a position stands between two ASCII letters.
pub open spec fn stands_between_letters(s: Seq<char>, i: int) -> bool {
    0 < i < s.len() - 1 && ('a' <= s[i - 1] <= 'z' || 'A' <= s[i - 1] <= 'Z') && ('a' <= s[i + 1]
        <= 'z' || 'A' <= s[i + 1] <= 'Z')
}

proof fn lemma_all_inner(s: Seq<char>, n: int)
    requires
        0 <= n <= s.len(),
        forall|i: int|
            0 <= i < s.len() && #[trigger] s[i] == '$' ==> stands_between_letters(s, i),
    ensures
        inner_dollars(s, n) == dollar_count(s.take(n)),
    decreases n,
{
    if n > 0 {
        lemma_all_inner(s, n - 1);
        assert(s.take(n).drop_last() =~= s.take(n - 1));
        assert(s.take(n).last() == s[n - 1]);
    }
}

proof fn lemma_no_inner(s: Seq<char>, n: int)
    requires
        0 <= n <= s.len(),
        forall|i: int|
            0 <= i < s.len() && #[trigger] s[i] == '$' ==> !stands_between_letters(s, i),
    ensures
        inner_dollars(s, n) == 0,
    decreases n,
{
    if n > 0 {
        lemma_no_inner(s, n - 1);
        assert(s[n - 1] == '$' ==> !stands_between_letters(s, n - 1));
    }
}

/// Dollar signs are counted one by one.
pub proof fn lemma_dollars_add_up(a: Seq<char>, b: Seq<char>)
    ensures
        dollar_count(a + b) == dollar_count(a) + dollar_count(b),
        dollar_count(seq!['$']) == 1,
        dollar_count(a) > 0 <==> a.contains('$'),
    decreases a.len() + b.len(),
{
    reveal_with_fuel(dollar_count, 2);
    if b.len() > 0 {
        lemma_dollars_add_up(a, b.drop_last());
        assert((a + b).drop_last() =~= a + b.drop_last());
    } else {
        assert(a + b =~= a);
        if a.len() > 0 {
            lemma_dollars_add_up(a.drop_last(), b);
            if a.drop_last().contains('$') {
                assert(a[a.drop_last().index_of('$')] == '$');
            }
            if a.last() == '$' {
                assert(a[a.len() - 1] == '$');
            }
            if a.contains('$') && a.last() != '$' {
                assert(a.drop_last()[a.index_of('$')] == '$');
            }
        }
    }
}

/// The text of a document is that of its lines, each with a line break behind it.
pub proof fn lemma_lines_of_plain_text(a: Seq<String>, b: Seq<String>, line: String)
    ensures
        lines_text(a + b) == lines_text(a) + lines_text(b),
        lines_text(seq![line]) == line@.push('\n'),
        lines_text(Seq::<String>::empty()) == Seq::<char>::empty(),
    decreases b.len(),
{
    reveal_with_fuel(lines_text, 2);
    assert(seq![line].drop_last() =~= seq![]);
    assert(Seq::<char>::empty() + line@ =~= line@);
    if b.len() > 0 {
        lemma_lines_of_plain_text(a, b.drop_last(), line);
        assert((a + b).drop_last() =~= a + b.drop_last());
        assert(lines_text(a + b) =~= lines_text(a) + lines_text(b));
    } else {
        assert(a + b =~= a);
        assert(lines_text(a) + lines_text(b) =~= lines_text(a));
    }
}

/// A page is extracted exactly where its number is asked for, or no numbers are.
pub proof fn lemma_pages_are_chosen(
    pages: Seq<(u32, (u32, u16))>,
    filter: Option<Seq<u32>>,
    k: int,
)
    requires
        0 <= k < pages.len(),
        forall|i: int, j: int|
            0 <= i < j < pages.len() ==> (#[trigger] pages[i]).0 < (#[trigger] pages[j]).0,
    ensures
        pages.filter(is_chosen(filter)).contains(pages[k]) <==> (match filter {
            Some(numbers) => numbers.contains(pages[k].0),
            None => true,
        }),
        filter is None ==> pages.filter(is_chosen(filter)) == pages,
{
    broadcast use vstd::seq_lib::group_filter_ensures;

    let wanted = is_chosen(filter);
    if wanted(pages[k]) {
        assert(pages.filter(wanted).contains(pages[k]));
    }
    if pages.filter(wanted).contains(pages[k]) {
        let i = pages.filter(wanted).index_of(pages[k]);
        assert(wanted(pages.filter(wanted)[i]));
    }
    if filter is None {
        lemma_all_chosen(pages, wanted);
    }
}

proof fn lemma_all_chosen(
    pages: Seq<(u32, (u32, u16))>,
    wanted: spec_fn((u32, (u32, u16))) -> bool,
)
    requires
        forall|p: (u32, (u32, u16))| #[trigger] wanted(p),
    ensures
        pages.filter(wanted) == pages,
    decreases pages.len(),
{
    reveal(Seq::filter);
    if pages.len() > 0 {
        lemma_all_chosen(pages.drop_last(), wanted);
        assert(wanted(pages.last()));
        assert(pages.drop_last().push(pages.last()) =~= pages);
    }
}

proof fn lemma_times_are_counted(list: Seq<u32>, x: u32)
    ensures
        times(list, x) == list.to_multiset().count(x),
    decreases list.len(),
{
    broadcast use vstd::seq_lib::group_to_multiset_ensures;

    if list.len() > 0 {
        lemma_times_are_counted(list.drop_last(), x);
        assert(list.drop_last().push(list.last()) =~= list);
    }
}

/// A page with seven rectangles or more has a table, one with fewer has none; a page with text has columns
/// where there are two or more. The layout is complex where a page has either.
pub proof fn lemma_what_complex_layouts_are<F: Fn(u32) -> usize>(
    r: LayoutComplexity,
    item_pages: Seq<u32>,
    rect_pages: Seq<u32>,
    columns: F,
    p: u32,
)
    requires
        is_layout_of(r, item_pages, rect_pages, columns),
    ensures
        rect_pages.to_multiset().count(p) >= 7 ==> r.pages_with_tables@.contains(p) && r.is_complex,
        rect_pages.to_multiset().count(p) < 7 ==> !r.pages_with_tables@.contains(p),
        item_pages.contains(p) && (forall|n: usize| #[trigger]
            columns.ensures((p,), n) ==> n >= 2) ==> r.pages_with_columns@.contains(p) && r.is_complex,
        (forall|n: usize| #[trigger] columns.ensures((p,), n) ==> n < 2)
            ==> !r.pages_with_columns@.contains(p),
        !item_pages.contains(p) ==> !r.pages_with_columns@.contains(p),
        forall|i: int, j: int|
            0 <= i < j < r.pages_with_tables@.len() ==> #[trigger] r.pages_with_tables@[i]
                < #[trigger] r.pages_with_tables@[j],
{
    lemma_times_are_counted(rect_pages, p);
    assert(times(rect_pages, p) > 6 <==> r.pages_with_tables@.contains(p));
}

} // verus!
