//! What a classification says of a document: laws on its kind and on the pages that need character
//! recognition.

use crate::detector::{
    all_pages, analyses, classification, contents_among, counts, describes, image_area,
    images_among, is_place_operator, ocr_pages, page_analysis, page_with_number, pages_among,
    scan_end, scanned_pages, selected_pages, text_operators, title_of, total_pages, utf16_units,
    DetectionConfig, PageAnalysis, PdfType, PdfTypeResult, ScanStrategy, Tally,
};
use crate::limits::stream_content;
use crate::pdf::{
    dictionary_under, entry, key, known_pages, page_content_ids, resolved_dictionary,
    resolved_stream, Entries, Objects, PdfValue,
};
use crate::text::{encoded_units, lemma_utf16_round_trip};
use crate::text_utils::unit_bytes;
use vstd::prelude::*;

verus! {

// ---------------------------------------------------------------------------------------------
// Pages
// ---------------------------------------------------------------------------------------------

/// Whether pages are numbered from 1 on.
pub open spec fn are_numbered(pages: Seq<(u32, (u32, u16))>) -> bool {
    pages.len() <= u32::MAX && forall|i: int|
        0 <= i < pages.len() ==> (#[trigger] pages[i]).0 == i + 1
}

/// What is on the page at a place.
pub open spec fn page_at(objects: Objects, trailer: Entries, k: int) -> PageAnalysis {
    page_analysis(objects, known_pages(objects, trailer)[k].1)
}

/// The pages that were looked at.
pub open spec fn looked_at(objects: Objects, trailer: Entries, config: DetectionConfig) -> Seq<
    PageAnalysis,
> {
    scanned_pages(objects, known_pages(objects, trailer), config)
}

proof fn lemma_numbered_page(pages: Seq<(u32, (u32, u16))>, k: int)
    requires
        are_numbered(pages),
        0 <= k < pages.len(),
    ensures
        page_with_number(pages, (k + 1) as u32) == Some(pages[k].1),
    decreases pages.len(),
{
    let last = pages.len() - 1;
    assert(pages[last].0 == last + 1);
    if k < last {
        let rest = pages.drop_last();
        assert forall|i: int| 0 <= i < rest.len() implies (#[trigger] rest[i]).0 == i + 1 by {
            assert(rest[i] == pages[i]);
        }
        lemma_numbered_page(rest, k);
    }
}

proof fn lemma_page_in_list(total: nat, wanted: spec_fn(u32) -> bool, number: u32)
    requires
        total <= u32::MAX,
    ensures
        all_pages(total).filter(wanted).contains(number) <==> 1 <= number <= total && wanted(number),
{
    broadcast use vstd::seq_lib::group_filter_ensures;

    let all = all_pages(total);
    if 1 <= number <= total && wanted(number) {
        assert(all[number - 1] == number);
        assert(all.filter(wanted).contains(all[number - 1]));
    }
    if all.filter(wanted).contains(number) {
        let i = all.filter(wanted).index_of(number);
        assert(wanted(all.filter(wanted)[i]));
        lemma_filtered(all, wanted, i);
        let j = all.index_of(number);
        assert(all[j] == number);
    }
}

proof fn lemma_filtered(list: Seq<u32>, wanted: spec_fn(u32) -> bool, i: int)
    requires
        0 <= i < list.filter(wanted).len(),
    ensures
        list.contains(list.filter(wanted)[i]),
    decreases list.len(),
{
    reveal(Seq::filter);
    if list.len() > 0 {
        let rest = list.drop_last();
        if i < rest.filter(wanted).len() {
            lemma_filtered(rest, wanted, i);
            let j = rest.index_of(rest.filter(wanted)[i]);
            assert(list[j] == list.filter(wanted)[i]);
        } else {
            assert(list[list.len() - 1] == list.filter(wanted)[i]);
        }
    }
}

proof fn lemma_filtered_ascends(list: Seq<u32>, wanted: spec_fn(u32) -> bool)
    requires
        forall|i: int, j: int| 0 <= i < j < list.len() ==> list[i] < list[j],
    ensures
        forall|i: int, j: int|
            0 <= i < j < list.filter(wanted).len() ==> list.filter(wanted)[i] < list.filter(
                wanted,
            )[j],
    decreases list.len(),
{
    reveal(Seq::filter);
    if list.len() > 0 {
        let rest = list.drop_last();
        lemma_filtered_ascends(rest, wanted);
        let before = rest.filter(wanted);
        let now = list.filter(wanted);
        assert forall|i: int, j: int| 0 <= i < j < now.len() implies now[i] < now[j] by {
            if j == before.len() {
                lemma_filtered(rest, wanted, i);
                let k = rest.index_of(before[i]);
                assert(list[k] < list[list.len() - 1]);
            }
        }
    }
}

// ---------------------------------------------------------------------------------------------
// Pages that need character recognition
// ---------------------------------------------------------------------------------------------

/// In a mixed document, exactly those pages need character recognition that have a background image,
/// however much text they show, and those that show images with too little text. A text document has
/// none of them; of any other document all pages need it. The list ascends.
pub proof fn lemma_pages_that_need_recognition(
    result: PdfTypeResult,
    objects: Objects,
    trailer: Entries,
    page_count: u32,
    config: DetectionConfig,
    k: int,
)
    requires
        describes(result, objects, trailer, page_count, config),
        are_numbered(known_pages(objects, trailer)),
        0 <= k < known_pages(objects, trailer).len(),
    ensures
        ({
            let page = page_at(objects, trailer, k);
            let needed = result.pages_needing_ocr@.contains((k + 1) as u32);
            match result.pdf_type {
                PdfType::TextBased => !needed,
                PdfType::Scanned | PdfType::ImageBased => needed,
                PdfType::Mixed => {
                    &&& page.has_template_image ==> needed
                    &&& page.has_images && page.text_operator_count < config.min_text_ops_per_page
                        ==> needed
                    &&& needed ==> page.has_template_image || (page.has_images
                        && page.text_operator_count < config.min_text_ops_per_page)
                },
            }
        }),
        forall|i: int, j: int|
            0 <= i < j < result.pages_needing_ocr@.len() ==> result.pages_needing_ocr@[i]
                < result.pages_needing_ocr@[j],
        forall|i: int|
            0 <= i < result.pages_needing_ocr@.len() ==> 1 <= #[trigger] result.pages_needing_ocr@[i]
                <= known_pages(objects, trailer).len(),
{
    let pages = known_pages(objects, trailer);
    let total = total_pages(pages) as nat;
    assert(total == pages.len());
    lemma_numbered_page(pages, k);
    let wanted = |number: u32|
        match page_with_number(pages, number) {
            Some(id) => crate::detector::needs_ocr(
                page_analysis(objects, id),
                config.min_text_ops_per_page,
            ),
            None => false,
        };
    assert(ocr_pages(objects, pages, total, config.min_text_ops_per_page) == all_pages(
        total,
    ).filter(wanted));
    lemma_page_in_list(total, wanted, (k + 1) as u32);
    lemma_filtered_ascends(all_pages(total), wanted);
    assert(all_pages(total)[k] == (k + 1) as u32);
    let list = result.pages_needing_ocr@;
    assert forall|i: int| 0 <= i < list.len() implies 1 <= #[trigger] list[i] <= pages.len() by {
        if result.pdf_type == PdfType::Mixed {
            assert(all_pages(total).filter(wanted).contains(list[i]));
            lemma_page_in_list(total, wanted, list[i]);
        }
    }
}

/// A document that is mixed because a page that was looked at has a background image names pages that
/// need character recognition.
pub proof fn lemma_mixed_documents_name_their_backgrounds(
    result: PdfTypeResult,
    objects: Objects,
    trailer: Entries,
    page_count: u32,
    config: DetectionConfig,
    k: int,
)
    requires
        describes(result, objects, trailer, page_count, config),
        are_numbered(known_pages(objects, trailer)),
        0 <= k < known_pages(objects, trailer).len(),
        page_at(objects, trailer, k).has_template_image,
        result.pdf_type == PdfType::Mixed,
    ensures
        result.pages_needing_ocr@.len() > 0,
{
    lemma_pages_that_need_recognition(result, objects, trailer, page_count, config, k);
    assert(result.pages_needing_ocr@.contains((k + 1) as u32));
}

// ---------------------------------------------------------------------------------------------
// Kinds of documents
// ---------------------------------------------------------------------------------------------

/// Whether some page shows so much text.
pub open spec fn any_text_page(pages: Seq<PageAnalysis>, min_ops: u32) -> bool {
    exists|i: int| 0 <= i < pages.len() && (#[trigger] pages[i]).text_operator_count >= min_ops
}

/// Whether all pages show so much text.
pub open spec fn all_text_pages(pages: Seq<PageAnalysis>, min_ops: u32) -> bool {
    forall|i: int| 0 <= i < pages.len() ==> (#[trigger] pages[i]).text_operator_count >= min_ops
}

/// Whether some page shows images.
pub open spec fn any_images(pages: Seq<PageAnalysis>) -> bool {
    exists|i: int| 0 <= i < pages.len() && (#[trigger] pages[i]).has_images
}

/// Whether some page has a background image.
pub open spec fn any_background(pages: Seq<PageAnalysis>) -> bool {
    exists|i: int| 0 <= i < pages.len() && (#[trigger] pages[i]).has_template_image
}

/// Whether some page shows any text.
pub open spec fn any_operator(pages: Seq<PageAnalysis>) -> bool {
    exists|i: int| 0 <= i < pages.len() && (#[trigger] pages[i]).text_operator_count > 0
}

proof fn lemma_count(pages: Seq<PageAnalysis>, wanted: spec_fn(PageAnalysis) -> bool)
    ensures
        pages.filter(wanted).len() <= pages.len(),
        pages.filter(wanted).len() > 0 <==> exists|i: int|
            0 <= i < pages.len() && wanted(#[trigger] pages[i]),
        pages.filter(wanted).len() == pages.len() <==> forall|i: int|
            0 <= i < pages.len() ==> wanted(#[trigger] pages[i]),
    decreases pages.len(),
{
    reveal(Seq::filter);
    if pages.len() > 0 {
        let rest = pages.drop_last();
        lemma_count(rest, wanted);
        let last = pages.len() - 1;
        if exists|i: int| 0 <= i < rest.len() && wanted(#[trigger] rest[i]) {
            let i = choose|i: int| 0 <= i < rest.len() && wanted(#[trigger] rest[i]);
            assert(wanted(pages[i]));
        }
        if exists|i: int| 0 <= i < pages.len() && wanted(#[trigger] pages[i]) {
            let i = choose|i: int| 0 <= i < pages.len() && wanted(#[trigger] pages[i]);
            if i < last {
                assert(wanted(rest[i]));
            }
        }
        if forall|i: int| 0 <= i < rest.len() ==> wanted(#[trigger] rest[i]) {
            if wanted(pages[last]) {
                assert forall|i: int| 0 <= i < pages.len() implies wanted(#[trigger] pages[i]) by {
                    if i < last {
                        assert(wanted(rest[i]));
                    }
                }
            }
        } else {
            let i = choose|i: int| 0 <= i < rest.len() && !wanted(#[trigger] rest[i]);
            assert(!wanted(pages[i]));
        }
    }
}

/// What kind of document it is follows from the pages that were looked at: text over a background
/// image makes it mixed; else enough text pages make it a text document; images without a text page
/// make it scanned, or based on images where there is some text; text pages beside images make it
/// mixed; and without images it is a text document if there is any text. Character recognition is
/// recommended for all but text documents. A text document whose pages are all text pages is sure.
pub proof fn lemma_kinds_of_documents(
    result: PdfTypeResult,
    objects: Objects,
    trailer: Entries,
    page_count: u32,
    config: DetectionConfig,
)
    requires
        describes(result, objects, trailer, page_count, config),
    ensures
        ({
            let pages = looked_at(objects, trailer, config);
            let min = config.min_text_ops_per_page;
            let threshold = config.text_page_ratio_threshold;
            let sure = result.confidence;
            let enough = pages.len() > 0 && result.pages_with_text * 1_000_000 >= threshold
                * result.pages_sampled;
            &&& result.page_count == page_count
            &&& result.pages_sampled == pages.len()
            &&& result.pages_with_text > 0 <==> any_text_page(pages, min)
            &&& result.pages_with_text == pages.len() <==> all_text_pages(pages, min)
            &&& any_text_page(pages, min) && any_background(pages) ==> {
                &&& result.pdf_type == PdfType::Mixed
                &&& sure.denominator <= 2 * sure.numerator
                &&& 10 * sure.numerator < 8 * sure.denominator
            }
            &&& !any_background(pages) && enough ==> {
                &&& result.pdf_type == PdfType::TextBased
                &&& sure.numerator == result.pages_with_text
                &&& sure.denominator == result.pages_sampled
            }
            &&& !any_background(pages) && pages.len() > 0 && all_text_pages(pages, min) && threshold
                <= 1_000_000 ==> {
                &&& result.pdf_type == PdfType::TextBased
                &&& sure.numerator == sure.denominator
            }
            &&& !any_text_page(pages, min) && any_images(pages) && threshold > 0 && !any_operator(
                pages,
            ) ==> {
                &&& result.pdf_type == PdfType::Scanned
                &&& 100 * sure.numerator == 95 * sure.denominator
            }
            &&& !any_text_page(pages, min) && any_images(pages) && threshold > 0 && any_operator(
                pages,
            ) ==> {
                &&& result.pdf_type == PdfType::ImageBased
                &&& 10 * sure.numerator == 8 * sure.denominator
            }
            &&& !any_background(pages) && any_text_page(pages, min) && any_images(pages) && !enough
                ==> {
                &&& result.pdf_type == PdfType::Mixed
                &&& 10 * sure.numerator == 7 * sure.denominator
            }
            &&& !any_background(pages) && !any_images(pages) && !any_operator(pages) && !enough
                && threshold > 0 ==> {
                &&& result.pdf_type == PdfType::Scanned
                &&& 10 * sure.numerator == 9 * sure.denominator
            }
            &&& !any_background(pages) && !any_images(pages) && any_operator(pages) ==> {
                &&& result.pdf_type == PdfType::TextBased
                &&& !enough ==> sure.denominator <= 2 * sure.numerator
            }
            &&& result.ocr_recommended <==> result.pdf_type != PdfType::TextBased
        }),
{
    let pages = looked_at(objects, trailer, config);
    let min = config.min_text_ops_per_page;
    let threshold = config.text_page_ratio_threshold;
    let tally = choose|tally: Tally|
        {
            &&& counts(
                tally,
                #[trigger] scanned_pages(objects, known_pages(objects, trailer), config),
                min,
            )
            &&& tally.wf()
            &&& result.pages_sampled == tally.sampled
            &&& result.pages_with_text == tally.with_text
            &&& (result.pdf_type, result.confidence, result.ocr_recommended) == #[trigger]
                classification(tally, threshold)
        };
    let is_text = |p: PageAnalysis| p.text_operator_count >= min;
    let is_image = |p: PageAnalysis| p.has_images;
    let is_template = |p: PageAnalysis| p.has_template_image;
    lemma_count(pages, is_text);
    lemma_count(pages, is_image);
    lemma_count(pages, is_template);
    assert(tally.with_text > 0 <==> any_text_page(pages, min)) by {
        if any_text_page(pages, min) {
            let i = choose|i: int|
                0 <= i < pages.len() && (#[trigger] pages[i]).text_operator_count >= min;
            assert(is_text(pages[i]));
        }
    }
    assert(tally.with_text == pages.len() <==> all_text_pages(pages, min)) by {
        if all_text_pages(pages, min) {
            assert forall|i: int| 0 <= i < pages.len() implies is_text(#[trigger] pages[i]) by {}
        }
        if tally.with_text == pages.len() {
            assert forall|i: int| 0 <= i < pages.len() implies (
            #[trigger] pages[i]).text_operator_count >= min by {
                assert(is_text(pages[i]));
            }
        }
    }
    assert(tally.with_images > 0 <==> any_images(pages)) by {
        if any_images(pages) {
            let i = choose|i: int| 0 <= i < pages.len() && (#[trigger] pages[i]).has_images;
            assert(is_image(pages[i]));
        }
    }
    assert(tally.with_template > 0 <==> any_background(pages)) by {
        if any_background(pages) {
            let i = choose|i: int| 0 <= i < pages.len() && (#[trigger] pages[i]).has_template_image;
            assert(is_template(pages[i]));
        }
    }
    let n = tally.sampled as int;
    let t = tally.with_text as int;
    assert(t * 1_000_000 >= threshold * n || t != n || threshold > 1_000_000) by (nonlinear_arith)
        requires
            0 <= t <= n,
            threshold >= 0,
    ;
    assert(n > 0 && threshold > 0 ==> threshold * n > 0) by (nonlinear_arith)
        requires
            n >= 0,
            threshold >= 0,
    ;
}

// ---------------------------------------------------------------------------------------------
// Which pages are looked at
// ---------------------------------------------------------------------------------------------

proof fn lemma_analyses(objects: Objects, pages: Seq<(u32, (u32, u16))>, numbers: Seq<u32>)
    requires
        are_numbered(pages),
        forall|i: int| 0 <= i < numbers.len() ==> 1 <= #[trigger] numbers[i] <= pages.len(),
    ensures
        analyses(objects, pages, numbers).len() == numbers.len(),
        forall|i: int|
            0 <= i < numbers.len() ==> #[trigger] analyses(objects, pages, numbers)[i]
                == page_analysis(objects, pages[numbers[i] - 1].1),
    decreases numbers.len(),
{
    if numbers.len() > 0 {
        let rest = numbers.drop_last();
        assert forall|i: int| 0 <= i < rest.len() implies 1 <= #[trigger] rest[i] <= pages.len() by {
            assert(rest[i] == numbers[i]);
        }
        lemma_analyses(objects, pages, rest);
        let last = numbers[numbers.len() - 1];
        lemma_numbered_page(pages, last - 1);
        assert forall|i: int| 0 <= i < numbers.len() implies #[trigger] analyses(
            objects,
            pages,
            numbers,
        )[i] == page_analysis(objects, pages[numbers[i] - 1].1) by {
            if i < rest.len() {
                assert(analyses(objects, pages, rest)[i] == page_analysis(
                    objects,
                    pages[rest[i] - 1].1,
                ));
            }
        }
    }
}

proof fn lemma_scan_stops(pages: Seq<PageAnalysis>, min_ops: u32, from: int)
    requires
        0 <= from <= pages.len(),
    ensures
        from <= scan_end(pages, min_ops, from) <= pages.len(),
        forall|i: int|
            from <= i < scan_end(pages, min_ops, from) - 1 ==> (
            #[trigger] pages[i]).text_operator_count >= min_ops,
        scan_end(pages, min_ops, from) < pages.len() ==> from < scan_end(pages, min_ops, from)
            && pages[scan_end(pages, min_ops, from) - 1].text_operator_count < min_ops,
    decreases pages.len() - from,
{
    if from < pages.len() && pages[from].text_operator_count >= min_ops {
        lemma_scan_stops(pages, min_ops, from + 1);
    }
}

/// The full strategy looks at every page in order. The one that exits early looks at the pages up to
/// the first that shows too little text. A list of pages, or a sample, is looked at in ascending
/// order: the pages of the document that are listed, or as many as asked for.
pub proof fn lemma_pages_that_are_looked_at(
    objects: Objects,
    trailer: Entries,
    config: DetectionConfig,
)
    requires
        are_numbered(known_pages(objects, trailer)),
    ensures
        ({
            let pages = known_pages(objects, trailer);
            let seen = looked_at(objects, trailer, config);
            let min = config.min_text_ops_per_page;
            match config.strategy {
                ScanStrategy::Full => {
                    &&& seen.len() == pages.len()
                    &&& forall|k: int|
                        0 <= k < pages.len() ==> #[trigger] seen[k] == page_at(objects, trailer, k)
                },
                ScanStrategy::EarlyExit => {
                    &&& seen.len() <= pages.len()
                    &&& forall|k: int|
                        0 <= k < seen.len() ==> #[trigger] seen[k] == page_at(objects, trailer, k)
                    &&& forall|k: int|
                        0 <= k < seen.len() - 1 ==> (#[trigger] seen[k]).text_operator_count >= min
                    &&& seen.len() < pages.len() ==> seen.len() > 0
                        && seen.last().text_operator_count < min
                },
                ScanStrategy::Sample(n) => seen.len() == if n <= pages.len() {
                    n as nat
                } else {
                    pages.len()
                },
                ScanStrategy::Pages(list) => forall|k: int|
                    0 <= k < pages.len() && list@.contains((k + 1) as u32) ==> seen.contains(
                        #[trigger] page_at(objects, trailer, k),
                    ),
            }
        }),
{
    let pages = known_pages(objects, trailer);
    let total = total_pages(pages);
    let numbers = selected_pages(config.strategy, total);
    let min = config.min_text_ops_per_page;
    assert(total == pages.len());
    match config.strategy {
        ScanStrategy::Full => {
            lemma_analyses(objects, pages, numbers);
        },
        ScanStrategy::EarlyExit => {
            lemma_analyses(objects, pages, numbers);
            lemma_scan_stops(analyses(objects, pages, numbers), min, 0);
        },
        ScanStrategy::Sample(n) => {
            let m = if n <= total {
                n
            } else {
                total
            };
            crate::detector::lemma_sample_is_spread(m, total);
            lemma_analyses(objects, pages, numbers);
        },
        ScanStrategy::Pages(list) => {
            let wanted = |p: u32| list@.contains(p);
            assert(numbers == all_pages(total as nat).filter(wanted));
            assert forall|i: int| 0 <= i < numbers.len() implies 1 <= #[trigger] numbers[i]
                <= pages.len() by {
                assert(numbers.contains(numbers[i]));
                lemma_page_in_list(total as nat, wanted, numbers[i]);
            }
            lemma_analyses(objects, pages, numbers);
            let seen = looked_at(objects, trailer, config);
            assert forall|k: int|
                0 <= k < pages.len() && list@.contains((k + 1) as u32) implies seen.contains(
                #[trigger] page_at(objects, trailer, k),
            ) by {
                lemma_page_in_list(total as nat, wanted, (k + 1) as u32);
                let i = numbers.index_of((k + 1) as u32);
                assert(seen[i] == page_at(objects, trailer, k));
            }
        },
    }
}

/// A list of pages is looked at without repetitions and in ascending order, and nothing else is.
pub proof fn lemma_listed_pages_are_selected(list: Seq<u32>, total: nat, number: u32)
    requires
        total <= u32::MAX,
    ensures
        pages_among(list, total).contains(number) <==> 1 <= number <= total && list.contains(number),
        forall|i: int, j: int|
            0 <= i < j < pages_among(list, total).len() ==> pages_among(list, total)[i]
                < pages_among(list, total)[j],
{
    let wanted = |p: u32| list.contains(p);
    lemma_page_in_list(total, wanted, number);
    lemma_filtered_ascends(all_pages(total), wanted);
}

// ---------------------------------------------------------------------------------------------
// What is on a page
// ---------------------------------------------------------------------------------------------

/// Whether an object is an image with the given width and height.
pub open spec fn is_image(objects: Objects, id: (u32, u16), width: i64, height: i64) -> bool {
    match resolved_stream(objects, id) {
        Some((entries, bytes)) => {
            &&& entry(entries, key("Subtype")) == Some(PdfValue::Name(key("Image")))
            &&& entry(entries, key("Width")) == Some(PdfValue::Integer(width))
            &&& entry(entries, key("Height")) == Some(PdfValue::Integer(height))
        },
        None => false,
    }
}

/// The dictionary in which a page names its images and forms.
pub open spec fn named_objects(objects: Objects, page: (u32, u16)) -> Option<Entries> {
    match resolved_dictionary(objects, page) {
        Some(dict) => match dictionary_under(objects, dict, key("Resources")) {
            Some(resources) => dictionary_under(objects, resources, key("XObject")),
            None => None,
        },
        None => None,
    }
}

proof fn lemma_images_among(objects: Objects, entries: Entries, n: int, k: int, area: u64)
    requires
        0 <= n <= entries.len(),
        0 <= k < n,
        entries[k].1 is Reference,
        image_area(objects, entries[k].1->Reference_0) == Some(area),
    ensures
        images_among(objects, entries, n).0,
        area >= 500_000 ==> images_among(objects, entries, n).2,
    decreases n,
{
    if k < n - 1 {
        lemma_images_among(objects, entries, n - 1, k, area);
    }
}

proof fn lemma_no_images_among(objects: Objects, entries: Entries, n: int)
    requires
        0 <= n <= entries.len(),
    ensures
        images_among(objects, entries, n).2 ==> exists|k: int|
            0 <= k < n && (#[trigger] entries[k]).1 is Reference && (image_area(
                objects,
                entries[k].1->Reference_0,
            ) matches Some(a) && a >= 500_000),
        images_among(objects, entries, n).0 ==> exists|k: int|
            0 <= k < n && (#[trigger] entries[k]).1 is Reference && image_area(
                objects,
                entries[k].1->Reference_0,
            ) is Some,
        images_among(objects, entries, n).2 ==> images_among(objects, entries, n).0,
    decreases n,
{
    if n > 0 {
        lemma_no_images_among(objects, entries, n - 1);
        let e = entries[n - 1];
        assert(e.1 is Reference ==> entries[n - 1].1 is Reference);
    }
}

/// A page that names an image shows images; where one of them has at least 500,000 pixels, it has a
/// background image, and only there.
pub proof fn lemma_images_of_a_page(
    objects: Objects,
    page: (u32, u16),
    k: int,
    width: i64,
    height: i64,
)
    requires
        named_objects(objects, page) is Some,
        0 <= k < named_objects(objects, page)->0.len(),
        named_objects(objects, page)->0[k].1 is Reference,
        is_image(objects, named_objects(objects, page)->0[k].1->Reference_0, width, height),
        0 <= width <= 0xFFFF_FFFF,
        0 <= height <= 0xFFFF_FFFF,
    ensures
        page_analysis(objects, page).has_images,
        width * height >= 500_000 ==> page_analysis(objects, page).has_template_image,
        named_objects(objects, page)->0.len() == 1 ==> page_analysis(
            objects,
            page,
        ).has_template_image == (width * height >= 500_000) && page_analysis(
            objects,
            page,
        ).total_image_area == width * height,
{
    let entries = named_objects(objects, page)->0;
    assert(0 <= width * height <= 0xFFFF_FFFF * 0xFFFF_FFFF) by (nonlinear_arith)
        requires
            0 <= width <= 0xFFFF_FFFF,
            0 <= height <= 0xFFFF_FFFF,
    ;
    let area = (width * height) as u64;
    assert(width as int % 0x1_0000_0000_0000_0000 == width);
    assert(height as int % 0x1_0000_0000_0000_0000 == height);
    assert((width * height) % 0x1_0000_0000_0000_0000 == width * height);
    assert(image_area(objects, entries[k].1->Reference_0) == Some(area));
    lemma_images_among(objects, entries, entries.len() as int, k, area);
    lemma_no_images_among(objects, entries, entries.len() as int);
    if entries.len() == 1 {
        reveal_with_fuel(images_among, 2);
    }
}

/// A page that names no image and places none shows no images and has no background.
pub proof fn lemma_pages_without_images(objects: Objects, page: (u32, u16))
    requires
        named_objects(objects, page) matches Some(entries) ==> forall|k: int|
            0 <= k < entries.len() ==> !((#[trigger] entries[k]).1 is Reference),
    ensures
        !page_analysis(objects, page).has_template_image,
        page_analysis(objects, page).total_image_area == 0 || named_objects(objects, page) is Some,
        ({
            let ids = page_content_ids(objects, page);
            page_analysis(objects, page).has_images <==> contents_among(
                objects,
                ids,
                ids.len() as int,
            ).1
        }),
{
    match named_objects(objects, page) {
        Some(entries) => {
            lemma_no_images_among(objects, entries, entries.len() as int);
        },
        None => {},
    }
}

/// The text operators of a page are those of all its content streams.
pub proof fn lemma_contents_of_a_page(objects: Objects, ids: Seq<(u32, u16)>, n: int)
    requires
        0 <= n < ids.len(),
    ensures
        ({
            let before = contents_among(objects, ids, n);
            let now = contents_among(objects, ids, n + 1);
            match resolved_stream(objects, ids[n]) {
                Some((entries, bytes)) => {
                    let content = stream_content(entries, bytes);
                    &&& now.0 == before.0 + text_operators(content, content.len() as int)
                    &&& now.1 == (before.1 || exists|i: int| is_place_operator(content, i))
                },
                None => now == before,
            }
        }),
        contents_among(objects, ids, 0) == (0nat, false),
{
}

/// What is on a page follows from its contents: the number of text operators, and whether an image is
/// placed.
pub proof fn lemma_text_of_a_page(objects: Objects, page: (u32, u16))
    ensures
        ({
            let ids = page_content_ids(objects, page);
            let all = contents_among(objects, ids, ids.len() as int);
            &&& all.0 <= u32::MAX ==> page_analysis(objects, page).text_operator_count == all.0
            &&& all.0 > u32::MAX ==> page_analysis(objects, page).text_operator_count == u32::MAX
            &&& all.1 ==> page_analysis(objects, page).has_images
        }),
{
}

/// One more `Tj`, `TJ`, apostrophe or quotation mark on a line of its own is one more text operator; a
/// `Do` on a line of its own places an image; any other single letter is neither.
pub proof fn lemma_operators_count(content: Seq<u8>, letter: u8)
    ensures
        ({
            let line = seq![0x0Au8];
            let count = text_operators(content, content.len() as int);
            let with = |op: Seq<u8>|
                text_operators(content + line + op, (content + line + op).len() as int);
            &&& with(seq![0x54u8, 0x6Au8]) == count + 1
            &&& with(seq![0x54u8, 0x4Au8]) == count + 1
            &&& with(seq![0x27u8]) == count + 1
            &&& with(seq![0x22u8]) == count + 1
            &&& with(seq![0x44u8, 0x6Fu8]) == count
            &&& letter != 0x27 && letter != 0x22 ==> with(seq![letter]) == count
            &&& exists|i: int| is_place_operator(content + line + seq![0x44u8, 0x6Fu8], i)
        }),
{
    reveal_with_fuel(text_operators, 3);
    let places = content + seq![0x0Au8] + seq![0x44u8, 0x6Fu8];
    crate::detector::lemma_contents_add_up(content, seq![0x54u8, 0x6Au8]);
    crate::detector::lemma_contents_add_up(content, seq![0x54u8, 0x4Au8]);
    crate::detector::lemma_contents_add_up(content, seq![0x27u8]);
    crate::detector::lemma_contents_add_up(content, seq![0x22u8]);
    crate::detector::lemma_contents_add_up(content, seq![0x44u8, 0x6Fu8]);
    crate::detector::lemma_contents_add_up(content, seq![letter]);
    assert(is_place_operator(places, content.len() as int + 1));
}

// ---------------------------------------------------------------------------------------------
// Titles
// ---------------------------------------------------------------------------------------------

/// The title is the text under `Title` in the dictionary that the trailer names under `Info`. A title
/// in UTF-16 behind its byte order mark decodes to the text.
pub proof fn lemma_titles_are_decoded(
    objects: Objects,
    trailer: Entries,
    id: (u32, u16),
    info: Entries,
    bytes: Seq<u8>,
    s: Seq<char>,
)
    requires
        entry(trailer, key("Info")) == Some(PdfValue::Reference(id)),
        resolved_dictionary(objects, id) == Some(info),
        entry(info, key("Title")) == Some(PdfValue::Text(bytes)),
        bytes == seq![0xFEu8, 0xFFu8] + unit_bytes(encoded_units(s)),
    ensures
        title_of(objects, trailer) == Some(s),
{
    let units = encoded_units(s);
    assert forall|k: int| 0 <= k < units.len() implies (bytes[2 + 2 * k] as int * 256 + bytes[2 + 2
        * k + 1] as int) as u16 == units[k] by {
        assert(bytes[2 + 2 * k] == unit_bytes(units)[2 * k]);
        assert(bytes[2 + 2 * k + 1] == unit_bytes(units)[2 * k + 1]);
        assert((2 * k) / 2 == k && (2 * k + 1) / 2 == k);
    }
    assert(utf16_units(bytes, 2) =~= units);
    lemma_utf16_round_trip(s);
}

/// How sure a kind is: of text over backgrounds a half, and three tenths more by the share of pages without
/// one; of images without text 95 in 100, and 80 where there is some text; of text beside images 70; of
/// neither text nor images 90; of text on less than half of the pages 50.
pub proof fn lemma_how_sure_kinds_are(tally: Tally, threshold: u32)
    requires
        tally.wf(),
        tally.sampled > 0,
    ensures
        ({
            let (kind, sure, recognition) = classification(tally, threshold);
            let reached = tally.with_text * 1_000_000 >= threshold * tally.sampled;
            let plain = tally.with_template == 0 && !reached;
            &&& tally.with_template > 0 && tally.with_text > 0 ==> kind == PdfType::Mixed
                && sure.numerator == 5 * tally.sampled + 3 * (tally.sampled - tally.with_template)
                && sure.denominator == 10 * tally.sampled
            &&& plain && tally.with_text == 0 && tally.with_images > 0 && !tally.any_text ==> kind
                == PdfType::Scanned && sure.numerator == 95 && sure.denominator == 100
            &&& plain && tally.with_text == 0 && tally.with_images > 0 && tally.any_text ==> kind
                == PdfType::ImageBased && sure.numerator == 80 && sure.denominator == 100
            &&& plain && tally.with_text > 0 && tally.with_images > 0 ==> kind == PdfType::Mixed
                && sure.numerator == 70 && sure.denominator == 100
            &&& plain && tally.with_images == 0 && !tally.any_text ==> kind == PdfType::Scanned
                && sure.numerator == 90 && sure.denominator == 100
            &&& plain && tally.with_images == 0 && tally.any_text && 2 * tally.with_text
                < tally.sampled ==> kind == PdfType::TextBased && sure.numerator == 50
                && sure.denominator == 100
            &&& recognition == (kind != PdfType::TextBased)
        }),
{
}

} // verus!
