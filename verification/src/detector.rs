//! Telling text documents from scanned ones by their content streams.

use crate::error::{reports, PdfError};
use crate::limits::{get_stream_content, stream_content};
use crate::loading::{ask_page_count, load_document, opened, told_pages};
use crate::pdf::{
    check_pages, dict_entries, dict_get, dictionary_entries, dictionary_under, document_objects,
    document_trailer, entry, find_pages, get_dict_under, get_dictionary, get_page_contents,
    get_stream, get_trailer, has_countable_pages, is_name, key, known_pages, listed_entries,
    object_value, page_content_ids, resolved_dictionary, resolved_stream, shape_of, stream_parts,
    Entries, Objects, PdfValue, Shape,
};
use crate::text::{lossy_text, text_from_utf16_lossy, text_from_utf8_lossy, utf16_text};
use crate::validation::{file_hint, is_ascii_space, is_pdf, is_space_byte, validate_pdf_bytes};
use std::collections::HashMap;
use vstd::prelude::*;
use vstd::std_specs::hash::*;

verus! {

broadcast use vstd::std_specs::hash::group_hash_axioms;

/// What kind of document a PDF is.
#[derive(Debug, Clone, Copy, PartialEq, Eq, Structural)]
pub enum PdfType {
    /// The text can be extracted.
    TextBased,
    /// The pages are images without text.
    Scanned,
    /// The pages are mostly images, with hardly any text.
    ImageBased,
    /// Some pages hold text, others images.
    Mixed,
}

/// Which pages are looked at.
#[derive(Debug, Clone)]
pub enum ScanStrategy {
    /// All pages, up to the first one without text.
    EarlyExit,
    /// All pages.
    Full,
    /// Up to so many pages, spread evenly over the document.
    Sample(u32),
    /// These pages, counted from 1.
    Pages(Vec<u32>),
}

/// How a document is classified.
#[derive(Debug, Clone)]
pub struct DetectionConfig {
    /// Which pages are looked at.
    pub strategy: ScanStrategy,
    /// How many text operators make a page a text page.
    pub min_text_ops_per_page: u32,
    /// Which share of text pages, in millionths, makes a text document.
    pub text_page_ratio_threshold: u32,
}

impl Default for DetectionConfig {
    fn default() -> (r: Self)
        ensures
            r.strategy is EarlyExit,
            r.min_text_ops_per_page == 3,
            r.text_page_ratio_threshold == 600_000,
    {
        DetectionConfig {
            strategy: ScanStrategy::EarlyExit,
            min_text_ops_per_page: 3,
            text_page_ratio_threshold: 600_000,
        }
    }
}

/// A score between 0 and 1 as a fraction.
#[derive(Debug, Clone, Copy, PartialEq, Eq, Structural)]
pub struct Confidence {
    pub numerator: u64,
    pub denominator: u64,
}

impl Confidence {
    /// The score lies between 0 and 1.
    pub open spec fn wf(self) -> bool {
        self.numerator <= self.denominator && self.denominator > 0
    }
}

/// What was found out about a document.
#[derive(Debug)]
pub struct PdfTypeResult {
    /// What kind of document it is.
    pub pdf_type: PdfType,
    /// How many pages it has.
    pub page_count: u32,
    /// How many pages were looked at.
    pub pages_sampled: u32,
    /// How many of them are text pages.
    pub pages_with_text: u32,
    /// How sure the classification is.
    pub confidence: Confidence,
    /// The title, if the document has one.
    pub title: Option<String>,
    /// Whether character recognition is recommended.
    pub ocr_recommended: bool,
    /// The pages, counted from 1, that need character recognition.
    pub pages_needing_ocr: Vec<u32>,
}

// ---------------------------------------------------------------------------------------------
// Pages to look at
// ---------------------------------------------------------------------------------------------

/// The page numbers from 1 to `total`.
pub open spec fn all_pages(total: nat) -> Seq<u32> {
    Seq::new(total, |i: int| (i + 1) as u32)
}

/// `n` page numbers spread evenly over `total` pages, from the first to the last.
pub open spec fn spread_pages(n: u32, total: u32) -> Seq<u32> {
    if n >= total {
        all_pages(total as nat)
    } else if n <= 1 {
        all_pages(n as nat)
    } else {
        Seq::new(n as nat, |i: int| (1 + i * (total - 1) / (n - 1)) as u32)
    }
}

/// The page numbers that a strategy selects of `total` pages, in ascending order.
pub open spec fn selected_pages(strategy: ScanStrategy, total: u32) -> Seq<u32> {
    match strategy {
        ScanStrategy::EarlyExit | ScanStrategy::Full => all_pages(total as nat),
        ScanStrategy::Sample(n) => spread_pages(
            if n <= total {
                n
            } else {
                total
            },
            total,
        ),
        ScanStrategy::Pages(pages) => pages_among(pages@, total as nat),
    }
}

/// Those of the numbers from 1 to `total` that a list holds.
pub open spec fn pages_among(pages: Seq<u32>, total: nat) -> Seq<u32> {
    all_pages(total).filter(|p: u32| pages.contains(p))
}

/// The numbers from 1 to `total`.
fn count_pages(total: u32) -> (r: Vec<u32>)
    ensures
        r@ == all_pages(total as nat),
{
    let mut out: Vec<u32> = Vec::new();
    let mut i: u32 = 0;
    while i < total
        invariant
            i <= total,
            out@ == all_pages(i as nat),
        decreases total - i,
    {
        i = i + 1;
        out.push(i);
        assert(out@ =~= all_pages(i as nat));
    }
    out
}

/// Spreads `n` page numbers evenly over `total` pages. The first and the last page are always
/// among them.
pub fn distribute_pages(n: u32, total: u32) -> (r: Vec<u32>)
    ensures
        r@ == spread_pages(n, total),
{
    if n >= total {
        return count_pages(total);
    }
    if n <= 1 {
        return count_pages(n);
    }
    let mut out: Vec<u32> = Vec::new();
    let mut i: u32 = 0;
    while i < n
        invariant
            2 <= n < total,
            i <= n,
            out@ == spread_pages(n, total).take(i as int),
        decreases n - i,
    {
        proof {
            lemma_spread(total, n, i as int);
        }
        assert(i * (total - 1) <= 0xFFFF_FFFF * 0xFFFF_FFFF) by (nonlinear_arith)
            requires
                0 <= i <= 0xFFFF_FFFF,
                0 <= total - 1 <= 0xFFFF_FFFF,
        ;
        out.push((1 + i as u64 * (total - 1) as u64 / (n - 1) as u64) as u32);
        i = i + 1;
        assert(out@ =~= spread_pages(n, total).take(i as int));
    }
    assert(out@ =~= spread_pages(n, total));
    out
}

proof fn lemma_spread(total: u32, n: u32, i: int)
    requires
        2 <= n < total,
        0 <= i < n,
    ensures
        0 <= i * (total - 1) / (n - 1) <= total - 1,
        i == 0 ==> i * (total - 1) / (n - 1) == 0,
        i == n - 1 ==> i * (total - 1) / (n - 1) == total - 1,
        i < n - 1 ==> i * (total - 1) / (n - 1) < (i + 1) * (total - 1) / (n - 1),
{
    let d = n - 1;
    let t = total - 1;
    assert(0 <= i * t <= d * t) by (nonlinear_arith)
        requires
            0 <= i <= d,
            t >= 0,
    ;
    assert(0 <= i * t / d <= t) by (nonlinear_arith)
        requires
            0 <= i * t <= d * t,
            d > 0,
    ;
    assert(d * t / d == t) by (nonlinear_arith)
        requires
            d > 0,
    ;
    assert((i + 1) * t / d >= i * t / d + 1) by (nonlinear_arith)
        requires
            d > 0,
            t >= d,
    ;
}

proof fn lemma_spread_ascends(total: u32, n: u32, i: int, j: int)
    requires
        2 <= n < total,
        0 <= i < j < n,
    ensures
        i * (total - 1) / (n - 1) < j * (total - 1) / (n - 1),
    decreases j - i,
{
    lemma_spread(total, n, j - 1);
    if i < j - 1 {
        lemma_spread_ascends(total, n, i, j - 1);
    }
}

/// The pages of a sample are in ascending order, each at most once, within the document, and as
/// many as asked for; the first and the last page are among them, and the others are spaced evenly
/// between them, to within a page.
pub proof fn lemma_sample_is_spread(n: u32, total: u32)
    ensures
        spread_pages(n, total).len() == if n <= total {
            n
        } else {
            total
        },
        forall|i: int, j: int|
            0 <= i < j < spread_pages(n, total).len() ==> spread_pages(n, total)[i] < spread_pages(
                n,
                total,
            )[j],
        forall|i: int|
            0 <= i < spread_pages(n, total).len() ==> 1 <= #[trigger] spread_pages(n, total)[i]
                <= total,
        n >= 1 && total >= 1 ==> spread_pages(n, total).first() == 1,
        n >= 2 && total >= 1 ==> spread_pages(n, total).last() == total,
        2 <= n <= total ==> forall|i: int|
            0 <= i < n ==> (n - 1) * (#[trigger] spread_pages(n, total)[i] - 1) <= i * (total - 1)
                < (n - 1) * spread_pages(n, total)[i],
{
    if 2 <= n < total {
        assert forall|i: int, j: int| 0 <= i < j < spread_pages(n, total).len() implies spread_pages(
            n,
            total,
        )[i] < spread_pages(n, total)[j] by {
            lemma_spread(total, n, i);
            lemma_spread(total, n, j);
            lemma_spread_ascends(total, n, i, j);
        }
        assert forall|i: int| 0 <= i < spread_pages(n, total).len() implies 1
            <= #[trigger] spread_pages(n, total)[i] <= total by {
            lemma_spread(total, n, i);
        }
        lemma_spread(total, n, 0);
        lemma_spread(total, n, n - 1);
        assert forall|i: int| 0 <= i < n implies (n - 1) * (#[trigger] spread_pages(n, total)[i] - 1)
            <= i * (total - 1) < (n - 1) * spread_pages(n, total)[i] by {
            lemma_spread(total, n, i);
            let d = n - 1;
            let x = i * (total - 1);
            assert(d * (x / d) <= x < d * (x / d + 1)) by (nonlinear_arith)
                requires
                    d > 0,
            ;
        }
    } else if n >= 2 && n == total {
        assert forall|i: int| 0 <= i < n implies (n - 1) * (#[trigger] spread_pages(n, total)[i] - 1)
            <= i * (total - 1) < (n - 1) * spread_pages(n, total)[i] by {
            let d = n - 1;
            assert(d * i <= i * d < d * (i + 1)) by (nonlinear_arith)
                requires
                    d > 0,
            ;
        }
    }
}

/// Those of the numbers from 1 to `total` that the list holds.
fn select_listed(pages: &Vec<u32>, total: u32) -> (r: Vec<u32>)
    ensures
        r@ == pages_among(pages@, total as nat),
        r@.len() <= total,
{
    let ghost listed = |p: u32| pages@.contains(p);
    let mut out: Vec<u32> = Vec::new();
    let mut i: u32 = 0;
    assert(all_pages(0).filter(listed) =~= seq![]) by {
        reveal(Seq::filter);
    }
    while i < total
        invariant
            i <= total,
            listed == (|p: u32| pages@.contains(p)),
            out@ == all_pages(i as nat).filter(listed),
            out@.len() <= i,
        decreases total - i,
    {
        let ghost before = all_pages(i as nat);
        i = i + 1;
        assert(all_pages(i as nat) =~= before.push(i));
        assert(all_pages(i as nat).drop_last() =~= before);
        reveal(Seq::filter);
        if list_contains(pages, i) {
            out.push(i);
        }
    }
    out
}

/// Whether a list holds a number.
fn list_contains(list: &Vec<u32>, x: u32) -> (r: bool)
    ensures
        r == list@.contains(x),
{
    let mut i: usize = 0;
    while i < list.len()
        invariant
            i <= list@.len(),
            forall|k: int| 0 <= k < i ==> list@[k] != x,
        decreases list@.len() - i,
    {
        if list[i] == x {
            return true;
        }
        i = i + 1;
    }
    false
}

/// The pages that a strategy selects of `total` pages.
pub fn select_pages(strategy: &ScanStrategy, total: u32) -> (r: Vec<u32>)
    ensures
        r@ == selected_pages(*strategy, total),
        r@.len() <= total,
{
    match strategy {
        ScanStrategy::EarlyExit => count_pages(total),
        ScanStrategy::Full => count_pages(total),
        ScanStrategy::Sample(n) => {
            let n: u32 = if *n <= total {
                *n
            } else {
                total
            };
            distribute_pages(n, total)
        },
        ScanStrategy::Pages(pages) => select_listed(pages, total),
    }
}

// ---------------------------------------------------------------------------------------------
// What is on a page
// ---------------------------------------------------------------------------------------------

/// Whether an operator that reaches up to `i` ends there: at white space or at the end.
pub open spec fn ends_at(content: Seq<u8>, i: int) -> bool {
    i >= content.len() || is_ascii_space(content[i])
}

/// Whether the text operator `Tj` or `TJ` stands at `i`.
pub open spec fn is_show_operator(content: Seq<u8>, i: int) -> bool {
    &&& 0 <= i && i + 1 < content.len()
    &&& content[i] == 0x54
    &&& content[i + 1] == 0x6A || content[i + 1] == 0x4A
    &&& ends_at(content, i + 2)
}

/// Whether one of the text operators `'` and `"` stands at `i`: at the start, behind a string, or
/// behind white space.
pub open spec fn is_quote_operator(content: Seq<u8>, i: int) -> bool {
    &&& 0 <= i < content.len()
    &&& content[i] == 0x27 || content[i] == 0x22
    &&& i == 0 || content[i - 1] == 0x29 || content[i - 1] == 0x3E || is_ascii_space(content[i - 1])
    &&& ends_at(content, i + 1)
}

/// How many text operators stand before `n`.
pub open spec fn text_operators(content: Seq<u8>, n: int) -> nat
    decreases n,
{
    if n <= 0 {
        0
    } else {
        text_operators(content, n - 1) + if is_show_operator(content, n - 1) || is_quote_operator(
            content,
            n - 1,
        ) {
            1nat
        } else {
            0nat
        }
    }
}

/// Whether the operator `Do`, which places an image, stands at `i`.
pub open spec fn is_place_operator(content: Seq<u8>, i: int) -> bool {
    &&& 0 <= i && i + 1 < content.len()
    &&& content[i] == 0x44
    &&& content[i + 1] == 0x6F
    &&& ends_at(content, i + 2)
}

/// A number, or the greatest 32-bit number where it is greater.
pub open spec fn capped(n: nat) -> u32 {
    if n <= u32::MAX {
        n as u32
    } else {
        u32::MAX
    }
}

/// Counts the text operators of a content stream, up to the greatest 32-bit number, and says
/// whether the stream places an image.
pub fn scan_content_for_text_operators(content: &[u8]) -> (r: (u32, bool))
    ensures
        r.0 == capped(text_operators(content@, content@.len() as int)),
        r.1 <==> exists|i: int| is_place_operator(content@, i),
{
    let n: usize = content.len();
    let mut text_ops: u32 = 0;
    let mut has_images: bool = false;
    let mut i: usize = 0;
    while i < n
        invariant
            i <= n == content@.len(),
            text_ops == capped(text_operators(content@, i as int)),
            has_images <==> exists|k: int| 0 <= k < i && is_place_operator(content@, k),
        decreases n - i,
    {
        let b: u8 = content[i];
        let left: usize = n - i;
        if b == 0x54 && left > 1 {
            let next: u8 = content[i + 1];
            if (next == 0x6A || next == 0x4A) && (left <= 2 || is_space_byte(content[i + 2])) {
                text_ops = text_ops.saturating_add(1);
            }
        }
        if b == 0x27 || b == 0x22 {
            let starts: bool = i == 0 || content[i - 1] == 0x29 || content[i - 1] == 0x3E
                || is_space_byte(content[i - 1]);
            if starts && (left <= 1 || is_space_byte(content[i + 1])) {
                text_ops = text_ops.saturating_add(1);
            }
        }
        if b == 0x44 && left > 1 && content[i + 1] == 0x6F && (left <= 2 || is_space_byte(
            content[i + 2],
        )) {
            assert(is_place_operator(content@, i as int));
            has_images = true;
        }
        i = i + 1;
    }
    (text_ops, has_images)
}

proof fn lemma_operators_before(a: Seq<u8>, b: Seq<u8>, n: int)
    requires
        0 <= n <= a.len(),
    ensures
        text_operators(a + seq![0x0Au8] + b, n) == text_operators(a, n),
    decreases n,
{
    if n > 0 {
        let all = a + seq![0x0Au8] + b;
        lemma_operators_before(a, b, n - 1);
        assert(is_show_operator(all, n - 1) == is_show_operator(a, n - 1));
        assert(is_quote_operator(all, n - 1) == is_quote_operator(a, n - 1));
    }
}

proof fn lemma_operators_behind(a: Seq<u8>, b: Seq<u8>, n: int)
    requires
        0 <= n <= b.len(),
    ensures
        text_operators(a + seq![0x0Au8] + b, a.len() + 1 + n) == text_operators(a, a.len() as int)
            + text_operators(b, n),
    decreases n,
{
    let all = a + seq![0x0Au8] + b;
    let m = a.len() as int;
    if n == 0 {
        lemma_operators_before(a, b, m);
        assert(all[m] == 0x0A);
    } else {
        lemma_operators_behind(a, b, n - 1);
        assert(all[m + n] == b[n - 1]);
        assert(n > 1 ==> all[m + n - 1] == b[n - 2]);
        assert(n == 1 ==> all[m + n - 1] == 0x0A);
        assert(is_show_operator(all, m + n) == is_show_operator(b, n - 1));
        assert(is_quote_operator(all, m + n) == is_quote_operator(b, n - 1));
    }
}

/// What two contents show adds up when they are joined by a line break.
pub proof fn lemma_contents_add_up(a: Seq<u8>, b: Seq<u8>)
    ensures
        ({
            let all = a + seq![0x0Au8] + b;
            &&& text_operators(all, all.len() as int) == text_operators(a, a.len() as int)
                + text_operators(b, b.len() as int)
            &&& (exists|i: int| is_place_operator(all, i)) <==> (exists|i: int|
                is_place_operator(a, i)) || (exists|i: int| is_place_operator(b, i))
        }),
{
    let all = a + seq![0x0Au8] + b;
    let m = a.len() as int;
    lemma_operators_behind(a, b, b.len() as int);
    if exists|i: int| is_place_operator(all, i) {
        let i = choose|i: int| is_place_operator(all, i);
        if i < m {
            assert(is_place_operator(a, i));
        } else {
            assert(is_place_operator(b, i - m - 1));
        }
    }
    if exists|i: int| is_place_operator(a, i) {
        let i = choose|i: int| is_place_operator(a, i);
        assert(is_place_operator(all, i));
    }
    if exists|i: int| is_place_operator(b, i) {
        let i = choose|i: int| is_place_operator(b, i);
        assert(is_place_operator(all, i + m + 1));
    }
}

/// What is on a page.
#[derive(Debug, Clone, Copy, PartialEq, Eq, Structural)]
pub struct PageAnalysis {
    /// How many text operators its content has.
    pub text_operator_count: u32,
    /// Whether it shows images.
    pub has_images: bool,
    /// Whether one of them is large enough to be the background of the page.
    pub has_template_image: bool,
    /// The area of its images in pixels, modulo 2 to the 64.
    pub total_image_area: u64,
}

/// The size in pixels from which on an image counts as the background of a page.
pub const TEMPLATE_IMAGE_THRESHOLD: u64 = 500_000;

/// An integer modulo 2 to the 64.
pub open spec fn wrapped(i: int) -> u64 {
    (i % 0x1_0000_0000_0000_0000) as u64
}

/// The integer under a key; 0 where there is none.
pub open spec fn integer_under(entries: Entries, name: Seq<u8>) -> i64 {
    match entry(entries, name) {
        Some(PdfValue::Integer(i)) => i,
        _ => 0,
    }
}

/// The area of the image that an object number stands for; `None` where it is no image.
pub open spec fn image_area(objects: Objects, id: (u32, u16)) -> Option<u64> {
    match resolved_stream(objects, id) {
        Some((entries, bytes)) => if entry(entries, key("Subtype")) == Some(
            PdfValue::Name(key("Image")),
        ) {
            Some(
                wrapped(
                    wrapped(integer_under(entries, key("Width")) as int) * wrapped(
                        integer_under(entries, key("Height")) as int,
                    ),
                ),
            )
        } else {
            None
        },
        None => None,
    }
}

/// What the first `n` entries of an XObject dictionary show: whether there are images, their area,
/// and whether one is a background.
pub open spec fn images_among(objects: Objects, entries: Entries, n: int) -> (bool, u64, bool)
    decreases n,
{
    if n <= 0 {
        (false, 0, false)
    } else {
        let before = images_among(objects, entries, n - 1);
        match entries[n - 1].1 {
            PdfValue::Reference(id) => match image_area(objects, id) {
                Some(area) => (
                    true,
                    wrapped(before.1 + area),
                    before.2 || area >= TEMPLATE_IMAGE_THRESHOLD,
                ),
                None => before,
            },
            _ => before,
        }
    }
}

/// What the images of a page are.
pub open spec fn page_images(objects: Objects, page: (u32, u16)) -> (bool, u64, bool) {
    match resolved_dictionary(objects, page) {
        Some(dict) => match dictionary_under(objects, dict, key("Resources")) {
            Some(resources) => match dictionary_under(objects, resources, key("XObject")) {
                Some(xobjects) => images_among(objects, xobjects, xobjects.len() as int),
                None => (false, 0, false),
            },
            None => (false, 0, false),
        },
        None => (false, 0, false),
    }
}

/// An integer modulo 2 to the 64.
fn wrap(i: i64) -> (r: u64)
    ensures
        r == wrapped(i as int),
{
    if i >= 0 {
        i as u64
    } else {
        u64::MAX - ((-(i + 1)) as u64)
    }
}

/// The integer under a key; 0 where there is none.
fn get_integer(dict: &lopdf::Dictionary, name: &str) -> (r: i64)
    ensures
        r == integer_under(dictionary_entries(*dict), key(name)),
{
    match dict_get(dict, name) {
        Some(object) => match shape_of(object) {
            Shape::Integer(i) => i,
            _ => 0,
        },
        None => 0,
    }
}

/// The area of an image.
fn get_image_area(doc: &lopdf::Document, id: (u32, u16)) -> (r: Option<u64>)
    ensures
        r == image_area(document_objects(*doc), id),
{
    let stream = match get_stream(doc, id) {
        Some(s) => s,
        None => {
            return None;
        },
    };
    let dict = stream_parts(stream).0;
    let is_image: bool = match dict_get(dict, "Subtype") {
        Some(object) => match shape_of(object) {
            Shape::Name(name) => is_name(name.as_slice(), "Image"),
            _ => false,
        },
        None => false,
    };
    if !is_image {
        return None;
    }
    let width: u64 = wrap(get_integer(dict, "Width"));
    let height: u64 = wrap(get_integer(dict, "Height"));
    Some(width.wrapping_mul(height))
}

/// Looks at the images of a page: whether there are any, their area, and whether one is large
/// enough to be the background.
pub fn analyze_page_images(doc: &lopdf::Document, page_id: (u32, u16)) -> (r: (bool, u64, bool))
    ensures
        r == page_images(document_objects(*doc), page_id),
{
    let mut has_images: bool = false;
    let mut total_area: u64 = 0;
    let mut has_template_image: bool = false;
    let xobjects = match get_dictionary(doc, page_id) {
        Some(dict) => match get_dict_under(doc, dict, "Resources") {
            Some(resources) => get_dict_under(doc, resources, "XObject"),
            None => None,
        },
        None => None,
    };
    match xobjects {
        Some(dict) => {
            let list = dict_entries(dict);
            let ghost entries = dictionary_entries(*dict);
            let ghost objects = document_objects(*doc);
            let mut i: usize = 0;
            while i < list.len()
                invariant
                    i <= list@.len(),
                    objects == document_objects(*doc),
                    listed_entries(list@) == entries,
                    (has_images, total_area, has_template_image) == images_among(
                        objects,
                        entries,
                        i as int,
                    ),
                decreases list@.len() - i,
            {
                let value = list[i].1;
                assert(entries[i as int].1 == object_value(*value));
                i = i + 1;
                let id: (u32, u16) = match shape_of(value) {
                    Shape::Reference(id) => id,
                    _ => {
                        continue;
                    },
                };
                match get_image_area(doc, id) {
                    Some(area) => {
                        has_images = true;
                        total_area = total_area.wrapping_add(area);
                        if area >= TEMPLATE_IMAGE_THRESHOLD {
                            has_template_image = true;
                        }
                    },
                    None => {},
                }
            }
            assert(entries.len() == list@.len());
        },
        None => {},
    }
    (has_images, total_area, has_template_image)
}

/// What the first `n` content streams of a page show: the text operators, and whether an image is
/// placed.
pub open spec fn contents_among(objects: Objects, ids: Seq<(u32, u16)>, n: int) -> (nat, bool)
    decreases n,
{
    if n <= 0 {
        (0, false)
    } else {
        let before = contents_among(objects, ids, n - 1);
        match resolved_stream(objects, ids[n - 1]) {
            Some((entries, bytes)) => {
                let content = stream_content(entries, bytes);
                (
                    before.0 + text_operators(content, content.len() as int),
                    before.1 || exists|i: int| is_place_operator(content, i),
                )
            },
            None => before,
        }
    }
}

/// What is on a page.
pub open spec fn page_analysis(objects: Objects, page: (u32, u16)) -> PageAnalysis {
    let ids = page_content_ids(objects, page);
    let contents = contents_among(objects, ids, ids.len() as int);
    let images = page_images(objects, page);
    PageAnalysis {
        text_operator_count: capped(contents.0),
        has_images: contents.1 || images.0,
        has_template_image: images.2,
        total_image_area: images.1,
    }
}

/// Looks at the content streams and images of a page.
pub fn analyze_page_content(doc: &lopdf::Document, page_id: (u32, u16)) -> (r: PageAnalysis)
    ensures
        r == page_analysis(document_objects(*doc), page_id),
{
    let ghost objects = document_objects(*doc);
    let mut text_ops: u32 = 0;
    let mut has_images: bool = false;
    let ids = get_page_contents(doc, page_id);
    let mut i: usize = 0;
    while i < ids.len()
        invariant
            i <= ids@.len(),
            objects == document_objects(*doc),
            text_ops == capped(contents_among(objects, ids@, i as int).0),
            has_images == contents_among(objects, ids@, i as int).1,
        decreases ids@.len() - i,
    {
        match get_stream(doc, ids[i]) {
            Some(stream) => {
                let content = get_stream_content(stream);
                let (ops, places) = scan_content_for_text_operators(content.as_slice());
                text_ops = text_ops.saturating_add(ops);
                has_images = has_images || places;
            },
            None => {},
        }
        i = i + 1;
    }
    let (found_images, total_image_area, has_template_image) = analyze_page_images(doc, page_id);
    PageAnalysis {
        text_operator_count: text_ops,
        has_images: has_images || found_images,
        has_template_image,
        total_image_area,
    }
}

// ---------------------------------------------------------------------------------------------
// Classification
// ---------------------------------------------------------------------------------------------

/// What the pages that were looked at add up to.
#[derive(Debug, Clone, Copy, PartialEq, Eq, Structural)]
pub struct Tally {
    /// How many pages were looked at.
    pub sampled: u32,
    /// How many of them are text pages.
    pub with_text: u32,
    /// How many of them show images.
    pub with_images: u32,
    /// How many of them have a background image.
    pub with_template: u32,
    /// Whether any of them has a text operator.
    pub any_text: bool,
}

impl Tally {
    /// No count is greater than the number of pages.
    pub open spec fn wf(self) -> bool {
        self.with_text <= self.sampled && self.with_images <= self.sampled && self.with_template
            <= self.sampled
    }
}

/// Whether a scan that may stop early stops behind this page: it is no text page.
pub open spec fn stops_scan(page: PageAnalysis, min_ops: u32) -> bool {
    page.text_operator_count < min_ops
}

/// The end of a scan, from `i` on, that stops behind the first page that is no text page.
pub open spec fn scan_end(pages: Seq<PageAnalysis>, min_ops: u32, i: int) -> int
    decreases pages.len() - i,
{
    if i < 0 || i >= pages.len() {
        pages.len() as int
    } else if stops_scan(pages[i], min_ops) {
        i + 1
    } else {
        scan_end(pages, min_ops, i + 1)
    }
}

/// The pages that are looked at: all of the selected ones, or those up to the early end.
pub open spec fn scanned(pages: Seq<PageAnalysis>, early_exit: bool, min_ops: u32) -> Seq<
    PageAnalysis,
> {
    if early_exit {
        pages.take(scan_end(pages, min_ops, 0))
    } else {
        pages
    }
}

/// Whether a tally counts the given pages.
pub open spec fn counts(tally: Tally, pages: Seq<PageAnalysis>, min_ops: u32) -> bool {
    &&& tally.sampled == pages.len()
    &&& tally.with_text == pages.filter(
        |p: PageAnalysis| p.text_operator_count >= min_ops,
    ).len()
    &&& tally.with_images == pages.filter(|p: PageAnalysis| p.has_images).len()
    &&& tally.with_template == pages.filter(|p: PageAnalysis| p.has_template_image).len()
    &&& tally.any_text <==> exists|i: int|
        0 <= i < pages.len() && (#[trigger] pages[i]).text_operator_count > 0
}

/// Whether the share of text pages reaches a threshold in millionths. Without any page the share
/// is 0.
pub open spec fn reaches(tally: Tally, threshold: u32) -> bool {
    if tally.sampled == 0 {
        threshold == 0
    } else {
        tally.with_text * 1_000_000 >= threshold * tally.sampled
    }
}

/// The share of text pages.
pub open spec fn text_share(tally: Tally) -> Confidence {
    if tally.sampled == 0 {
        Confidence { numerator: 0, denominator: 1 }
    } else {
        Confidence { numerator: tally.with_text as u64, denominator: tally.sampled as u64 }
    }
}

/// What kind of document a tally shows, how sure that is, and whether character recognition is
/// recommended.
///
/// Text over background images makes a mixed document, the less sure the more pages have one: the
/// score is 0.5, and 0.3 more by the share of pages without. Then enough text pages make a text
/// document. Images without text pages make a scanned document, or one based on images where
/// there is at least some text. Text pages beside images make a mixed document. What is left shows
/// no images and too few text pages: without any text it is taken as scanned, else as a text
/// document.
pub open spec fn classification(tally: Tally, threshold: u32) -> (PdfType, Confidence, bool) {
    if tally.with_template > 0 && tally.with_text > 0 {
        (
            PdfType::Mixed,
            Confidence {
                numerator: (8 * tally.sampled - 3 * tally.with_template) as u64,
                denominator: (10 * tally.sampled) as u64,
            },
            true,
        )
    } else if reaches(tally, threshold) {
        (PdfType::TextBased, text_share(tally), false)
    } else if tally.with_text == 0 && tally.with_images > 0 {
        if tally.any_text {
            (PdfType::ImageBased, Confidence { numerator: 80, denominator: 100 }, true)
        } else {
            (PdfType::Scanned, Confidence { numerator: 95, denominator: 100 }, true)
        }
    } else if tally.with_text > 0 && tally.with_images > 0 {
        (PdfType::Mixed, Confidence { numerator: 70, denominator: 100 }, true)
    } else if !tally.any_text {
        (PdfType::Scanned, Confidence { numerator: 90, denominator: 100 }, true)
    } else if tally.sampled > 0 && 2 * tally.with_text >= tally.sampled {
        (PdfType::TextBased, text_share(tally), false)
    } else {
        (PdfType::TextBased, Confidence { numerator: 50, denominator: 100 }, false)
    }
}

/// Every score lies between 0 and 1.
pub proof fn lemma_confidence_in_range(tally: Tally, threshold: u32)
    requires
        tally.wf(),
    ensures
        classification(tally, threshold).1.wf(),
{
}

/// Character recognition is recommended for all documents but text documents.
pub proof fn lemma_ocr_unless_text_based(tally: Tally, threshold: u32)
    ensures
        classification(tally, threshold).2 <==> classification(tally, threshold).0
            != PdfType::TextBased,
{
}

/// Classifies a document by its tally.
pub fn classify(tally: &Tally, threshold: u32) -> (r: (PdfType, Confidence, bool))
    requires
        tally.wf(),
    ensures
        r == classification(*tally, threshold),
        r.1.wf(),
{
    let sampled: u64 = tally.sampled as u64;
    let with_text: u64 = tally.with_text as u64;
    let share = if sampled == 0 {
        Confidence { numerator: 0, denominator: 1 }
    } else {
        Confidence { numerator: with_text, denominator: sampled }
    };
    let reached: bool = if sampled == 0 {
        threshold == 0
    } else {
        assert(threshold as u64 * sampled <= 0xFFFF_FFFF * 0xFFFF_FFFF) by (nonlinear_arith)
            requires
                threshold <= 0xFFFF_FFFF,
                sampled <= 0xFFFF_FFFF,
        ;
        with_text * 1_000_000 >= threshold as u64 * sampled
    };
    if tally.with_template > 0 && tally.with_text > 0 {
        (
            PdfType::Mixed,
            Confidence {
                numerator: 8 * sampled - 3 * tally.with_template as u64,
                denominator: 10 * sampled,
            },
            true,
        )
    } else if reached {
        (PdfType::TextBased, share, false)
    } else if tally.with_text == 0 && tally.with_images > 0 {
        if tally.any_text {
            (PdfType::ImageBased, Confidence { numerator: 80, denominator: 100 }, true)
        } else {
            (PdfType::Scanned, Confidence { numerator: 95, denominator: 100 }, true)
        }
    } else if tally.with_text > 0 && tally.with_images > 0 {
        (PdfType::Mixed, Confidence { numerator: 70, denominator: 100 }, true)
    } else if !tally.any_text {
        (PdfType::Scanned, Confidence { numerator: 90, denominator: 100 }, true)
    } else if sampled > 0 && 2 * with_text >= sampled {
        (PdfType::TextBased, share, false)
    } else {
        (PdfType::TextBased, Confidence { numerator: 50, denominator: 100 }, false)
    }
}

/// The title in a document's information dictionary.
pub open spec fn title_of(objects: Objects, trailer: Entries) -> Option<Seq<char>> {
    match entry(trailer, key("Info")) {
        Some(PdfValue::Reference(id)) => match resolved_dictionary(objects, id) {
            Some(info) => match entry(info, key("Title")) {
                Some(PdfValue::Text(bytes)) => Some(title_text(bytes)),
                _ => None,
            },
            None => None,
        },
        _ => None,
    }
}

/// The units of UTF-16 in a row of bytes from `i` on, the high byte first. An odd byte at the end
/// is none.
pub open spec fn utf16_units(bytes: Seq<u8>, i: int) -> Seq<u16> {
    Seq::new(
        ((bytes.len() - i) / 2) as nat,
        |k: int| (bytes[i + 2 * k] as int * 256 + bytes[i + 2 * k + 1] as int) as u16,
    )
}

/// The text of a title: UTF-16 behind its byte order mark, else UTF-8.
pub open spec fn title_text(bytes: Seq<u8>) -> Seq<char> {
    if bytes.len() >= 2 && bytes[0] == 0xFE && bytes[1] == 0xFF {
        utf16_text(utf16_units(bytes, 2))
    } else {
        lossy_text(bytes)
    }
}

/// Reads UTF-16 units from `start` on.
pub(crate) fn read_utf16_units(bytes: &[u8], start: usize) -> (r: Vec<u16>)
    requires
        start <= bytes@.len(),
    ensures
        r@ == utf16_units(bytes@, start as int),
{
    let n: usize = bytes.len();
    let mut out: Vec<u16> = Vec::new();
    let mut i: usize = start;
    while n - i >= 2
        invariant
            start <= i <= n == bytes@.len(),
            i == start + 2 * out@.len(),
            out@ == utf16_units(bytes@, start as int).take(out@.len() as int),
            out@.len() <= (n - start) / 2,
        decreases n - i,
    {
        out.push(bytes[i] as u16 * 256 + bytes[i + 1] as u16);
        i = i + 2;
        assert(out@ =~= utf16_units(bytes@, start as int).take(out@.len() as int));
    }
    assert(out@ =~= utf16_units(bytes@, start as int));
    out
}

/// Decodes a title.
pub fn decode_title(bytes: &[u8]) -> (r: String)
    ensures
        r@ == title_text(bytes@),
{
    if bytes.len() >= 2 && bytes[0] == 0xFE && bytes[1] == 0xFF {
        let units = read_utf16_units(bytes, 2);
        text_from_utf16_lossy(&units)
    } else {
        text_from_utf8_lossy(bytes)
    }
}

/// Whether an optional string is an optional text.
pub open spec fn is_text(s: Option<String>, text: Option<Seq<char>>) -> bool {
    match s {
        Some(s) => text == Some(s@),
        None => text is None,
    }
}

/// Reads the title of a document.
pub fn get_document_title(doc: &lopdf::Document) -> (r: Option<String>)
    ensures
        is_text(r, title_of(document_objects(*doc), document_trailer(*doc))),
{
    let id: (u32, u16) = match dict_get(get_trailer(doc), "Info") {
        Some(object) => match shape_of(object) {
            Shape::Reference(id) => id,
            _ => {
                return None;
            },
        },
        None => {
            return None;
        },
    };
    let info = match get_dictionary(doc, id) {
        Some(d) => d,
        None => {
            return None;
        },
    };
    match dict_get(info, "Title") {
        Some(object) => match shape_of(object) {
            Shape::Text(bytes) => Some(decode_title(bytes.as_slice())),
            _ => None,
        },
        None => None,
    }
}

// ---------------------------------------------------------------------------------------------
// The whole document
// ---------------------------------------------------------------------------------------------

/// The object that describes the page with the given number.
pub open spec fn page_with_number(pages: Seq<(u32, (u32, u16))>, number: u32) -> Option<(u32, u16)>
    decreases pages.len(),
{
    if pages.len() == 0 {
        None
    } else if pages.last().0 == number {
        Some(pages.last().1)
    } else {
        page_with_number(pages.drop_last(), number)
    }
}

/// Whether the numbers of the pages go up.
pub open spec fn is_ascending(pages: Seq<(u32, (u32, u16))>) -> bool {
    forall|i: int, j: int|
        0 <= i < j < pages.len() ==> (#[trigger] pages[i]).0 < (#[trigger] pages[j]).0
}

proof fn lemma_page_with_number(pages: Seq<(u32, (u32, u16))>, number: u32, k: int)
    requires
        is_ascending(pages),
        0 <= k < pages.len(),
        pages[k].0 == number,
    ensures
        page_with_number(pages, number) == Some(pages[k].1),
    decreases pages.len(),
{
    if k < pages.len() - 1 {
        assert(pages[k].0 < pages[pages.len() - 1].0);
        lemma_page_with_number(pages.drop_last(), number, k);
    }
}

/// Finds the object that describes the page with the given number.
fn find_page(pages: &Vec<(u32, (u32, u16))>, number: u32) -> (r: Option<(u32, u16)>)
    requires
        is_ascending(pages@),
    ensures
        r == page_with_number(pages@, number),
{
    let guess: usize = number as usize;
    if guess >= 1 && guess <= pages.len() && pages[guess - 1].0 == number {
        proof {
            lemma_page_with_number(pages@, number, guess - 1);
        }
        return Some(pages[guess - 1].1);
    }
    let mut n: usize = pages.len();
    assert(pages@.take(n as int) =~= pages@);
    while n > 0
        invariant
            n <= pages@.len(),
            page_with_number(pages@.take(n as int), number) == page_with_number(pages@, number),
        decreases n,
    {
        assert(pages@.take(n as int).drop_last() =~= pages@.take(n - 1));
        if pages[n - 1].0 == number {
            return Some(pages[n - 1].1);
        }
        n = n - 1;
    }
    None
}

/// What is on the pages with the given numbers, as far as there are such pages.
pub open spec fn analyses(
    objects: Objects,
    pages: Seq<(u32, (u32, u16))>,
    numbers: Seq<u32>,
) -> Seq<PageAnalysis>
    decreases numbers.len(),
{
    if numbers.len() == 0 {
        seq![]
    } else {
        let before = analyses(objects, pages, numbers.drop_last());
        match page_with_number(pages, numbers.last()) {
            Some(id) => before.push(page_analysis(objects, id)),
            None => before,
        }
    }
}

/// Whether a page of a mixed document needs character recognition: it has a background image, or
/// it shows images but too little text.
pub open spec fn needs_ocr(page: PageAnalysis, min_ops: u32) -> bool {
    page.has_template_image || (page.text_operator_count < min_ops && page.has_images)
}

/// Those of the numbers from 1 to `total` whose page needs character recognition.
pub open spec fn ocr_pages(
    objects: Objects,
    pages: Seq<(u32, (u32, u16))>,
    total: nat,
    min_ops: u32,
) -> Seq<u32> {
    all_pages(total).filter(
        |number: u32|
            match page_with_number(pages, number) {
                Some(id) => needs_ocr(page_analysis(objects, id), min_ops),
                None => false,
            },
    )
}

/// The number of pages that a page list gives, modulo 2 to the 32.
pub open spec fn total_pages(pages: Seq<(u32, (u32, u16))>) -> u32 {
    (pages.len() % 0x1_0000_0000) as u32
}

/// The pages that are looked at.
pub open spec fn scanned_pages(
    objects: Objects,
    pages: Seq<(u32, (u32, u16))>,
    config: DetectionConfig,
) -> Seq<PageAnalysis> {
    scanned(
        analyses(objects, pages, selected_pages(config.strategy, total_pages(pages))),
        config.strategy is EarlyExit,
        config.min_text_ops_per_page,
    )
}

/// Whether a result describes a document.
pub open spec fn describes(
    result: PdfTypeResult,
    objects: Objects,
    trailer: Entries,
    page_count: u32,
    config: DetectionConfig,
) -> bool {
    let pages = known_pages(objects, trailer);
    let min_ops = config.min_text_ops_per_page;
    &&& result.page_count == page_count
    &&& is_text(result.title, title_of(objects, trailer))
    &&& exists|tally: Tally|
        {
            &&& counts(tally, #[trigger] scanned_pages(objects, pages, config), min_ops)
            &&& tally.wf()
            &&& result.pages_sampled == tally.sampled
            &&& result.pages_with_text == tally.with_text
            &&& (result.pdf_type, result.confidence, result.ocr_recommended) == #[trigger]
                classification(tally, config.text_page_ratio_threshold)
        }
    &&& result.pages_needing_ocr@ == match result.pdf_type {
        PdfType::TextBased => seq![],
        PdfType::Scanned | PdfType::ImageBased => all_pages(total_pages(pages) as nat),
        PdfType::Mixed => ocr_pages(objects, pages, total_pages(pages) as nat, min_ops),
    }
}

/// Whether a cache holds the right analysis of each page that it holds.
spec fn is_cache(
    cache: Map<u32, PageAnalysis>,
    objects: Objects,
    pages: Seq<(u32, (u32, u16))>,
) -> bool {
    forall|number: u32| #[trigger]
        cache.dom().contains(number) ==> page_with_number(pages, number) is Some && cache[number]
            == page_analysis(objects, page_with_number(pages, number)->0)
}

proof fn lemma_counts_push(tally: Tally, pages: Seq<PageAnalysis>, page: PageAnalysis, min_ops: u32)
    requires
        counts(tally, pages, min_ops),
        tally.wf(),
        pages.len() < u32::MAX,
    ensures
        counts(
            (Tally {
                sampled: (tally.sampled + 1) as u32,
                with_text: (tally.with_text + if page.text_operator_count >= min_ops {
                    1int
                } else {
                    0int
                }) as u32,
                with_images: (tally.with_images + if page.has_images {
                    1int
                } else {
                    0int
                }) as u32,
                with_template: (tally.with_template + if page.has_template_image {
                    1int
                } else {
                    0int
                }) as u32,
                any_text: tally.any_text || page.text_operator_count > 0,
            }),
            pages.push(page),
            min_ops,
        ),
{
    let longer = pages.push(page);
    assert(longer.drop_last() =~= pages);
    reveal(Seq::filter);
    assert forall|i: int| 0 <= i < pages.len() implies longer[i] == #[trigger] pages[i] by {}
    if page.text_operator_count > 0 {
        assert(longer[pages.len() as int].text_operator_count > 0);
    }
}

proof fn lemma_scan_end(pages: Seq<PageAnalysis>, min_ops: u32, from: int, i: int)
    requires
        0 <= from <= i < pages.len(),
        forall|k: int| from <= k < i ==> !stops_scan(#[trigger] pages[k], min_ops),
        stops_scan(pages[i], min_ops),
    ensures
        scan_end(pages, min_ops, from) == i + 1,
    decreases i - from,
{
    if from < i {
        lemma_scan_end(pages, min_ops, from + 1, i);
    }
}

proof fn lemma_scan_end_none(pages: Seq<PageAnalysis>, min_ops: u32, from: int)
    requires
        0 <= from <= pages.len(),
        forall|k: int| from <= k < pages.len() ==> !stops_scan(#[trigger] pages[k], min_ops),
    ensures
        scan_end(pages, min_ops, from) == pages.len(),
    decreases pages.len() - from,
{
    if from < pages.len() {
        lemma_scan_end_none(pages, min_ops, from + 1);
    }
}

proof fn lemma_analyses_prefix(
    objects: Objects,
    pages: Seq<(u32, (u32, u16))>,
    numbers: Seq<u32>,
    n: int,
)
    requires
        0 <= n <= numbers.len(),
    ensures
        analyses(objects, pages, numbers.take(n)).len() <= n,
        analyses(objects, pages, numbers.take(n)).len() <= analyses(objects, pages, numbers).len(),
        analyses(objects, pages, numbers.take(n)) == analyses(objects, pages, numbers).take(
            analyses(objects, pages, numbers.take(n)).len() as int,
        ),
    decreases numbers.len(),
{
    let short = analyses(objects, pages, numbers.take(n));
    let all = analyses(objects, pages, numbers);
    if n < numbers.len() {
        lemma_analyses_prefix(objects, pages, numbers.drop_last(), n);
        assert(numbers.drop_last().take(n) =~= numbers.take(n));
        let before = analyses(objects, pages, numbers.drop_last());
        assert(all == before || all == before.push(all.last()));
        assert(short =~= all.take(short.len() as int));
    } else {
        assert(numbers.take(n) =~= numbers);
        assert(short =~= all.take(short.len() as int));
        if n > 0 {
            lemma_analyses_prefix(objects, pages, numbers.drop_last(), n - 1);
            assert(numbers.drop_last().take(n - 1) =~= numbers.drop_last());
        }
    }
}

/// Looks at the pages with the given numbers and adds up what is on them.
fn tally_pages(
    doc: &lopdf::Document,
    pages: &Vec<(u32, (u32, u16))>,
    numbers: &Vec<u32>,
    early_exit: bool,
    min_ops: u32,
    cache: &mut HashMap<u32, PageAnalysis>,
) -> (r: Tally)
    requires
        is_ascending(pages@),
        numbers@.len() <= u32::MAX,
        is_cache(old(cache)@, document_objects(*doc), pages@),
    ensures
        counts(
            r,
            scanned(analyses(document_objects(*doc), pages@, numbers@), early_exit, min_ops),
            min_ops,
        ),
        r.wf(),
        is_cache(final(cache)@, document_objects(*doc), pages@),
{
    let ghost objects = document_objects(*doc);
    let ghost all = analyses(objects, pages@, numbers@);
    let mut tally = Tally {
        sampled: 0,
        with_text: 0,
        with_images: 0,
        with_template: 0,
        any_text: false,
    };
    let mut i: usize = 0;
    assert(numbers@.take(0) =~= seq![]);
    assert(counts(tally, seq![], min_ops)) by {
        reveal(Seq::filter);
    }
    while i < numbers.len()
        invariant
            i <= numbers@.len() <= u32::MAX,
            objects == document_objects(*doc),
            all == analyses(objects, pages@, numbers@),
            is_ascending(pages@),
            is_cache(cache@, objects, pages@),
            tally.wf(),
            counts(tally, analyses(objects, pages@, numbers@.take(i as int)), min_ops),
            early_exit ==> forall|k: int|
                0 <= k < analyses(objects, pages@, numbers@.take(i as int)).len() ==> !stops_scan(
                    #[trigger] analyses(objects, pages@, numbers@.take(i as int))[k],
                    min_ops,
                ),
        decreases numbers@.len() - i,
    {
        let ghost done = analyses(objects, pages@, numbers@.take(i as int));
        let ghost next = analyses(objects, pages@, numbers@.take(i + 1));
        proof {
            assert(numbers@.take(i + 1).drop_last() =~= numbers@.take(i as int));
            lemma_analyses_prefix(objects, pages@, numbers@, i as int);
            lemma_analyses_prefix(objects, pages@, numbers@, i + 1);
        }
        let number: u32 = numbers[i];
        match find_page(pages, number) {
            Some(id) => {
                let page = analyze_page_content(doc, id);
                proof {
                    lemma_counts_push(tally, done, page, min_ops);
                    assert(next == done.push(page));
                }
                tally = Tally {
                    sampled: tally.sampled + 1,
                    with_text: tally.with_text + if page.text_operator_count >= min_ops {
                        1
                    } else {
                        0
                    },
                    with_images: tally.with_images + if page.has_images {
                        1
                    } else {
                        0
                    },
                    with_template: tally.with_template + if page.has_template_image {
                        1
                    } else {
                        0
                    },
                    any_text: tally.any_text || page.text_operator_count > 0,
                };
                cache.insert(number, page);
                if early_exit && page.text_operator_count < min_ops {
                    proof {
                        assert forall|k: int| 0 <= k < done.len() implies !stops_scan(
                            #[trigger] all[k],
                            min_ops,
                        ) by {
                            assert(all[k] == done[k]);
                        }
                        assert(all[done.len() as int] == next[done.len() as int]);
                        lemma_scan_end(all, min_ops, 0, done.len() as int);
                    }
                    return tally;
                }
            },
            None => {},
        }
        i = i + 1;
    }
    proof {
        assert(numbers@.take(i as int) =~= numbers@);
        if early_exit {
            lemma_scan_end_none(all, min_ops, 0);
            assert(all.take(all.len() as int) =~= all);
        }
    }
    tally
}

/// Finds the pages of a mixed document that need character recognition.
fn find_ocr_pages(
    doc: &lopdf::Document,
    pages: &Vec<(u32, (u32, u16))>,
    total: u32,
    min_ops: u32,
    cache: &HashMap<u32, PageAnalysis>,
) -> (r: Vec<u32>)
    requires
        is_ascending(pages@),
        is_cache(cache@, document_objects(*doc), pages@),
    ensures
        r@ == ocr_pages(document_objects(*doc), pages@, total as nat, min_ops),
{
    let ghost objects = document_objects(*doc);
    let ghost wanted = |number: u32|
        match page_with_number(pages@, number) {
            Some(id) => needs_ocr(page_analysis(objects, id), min_ops),
            None => false,
        };
    let mut out: Vec<u32> = Vec::new();
    let mut i: u32 = 0;
    assert(all_pages(0).filter(wanted) =~= seq![]) by {
        reveal(Seq::filter);
    }
    while i < total
        invariant
            i <= total,
            objects == document_objects(*doc),
            is_ascending(pages@),
            is_cache(cache@, objects, pages@),
            wanted == (|number: u32|
                match page_with_number(pages@, number) {
                    Some(id) => needs_ocr(page_analysis(objects, id), min_ops),
                    None => false,
                }),
            out@ == all_pages(i as nat).filter(wanted),
        decreases total - i,
    {
        let ghost before = all_pages(i as nat);
        i = i + 1;
        assert(all_pages(i as nat) =~= before.push(i));
        assert(all_pages(i as nat).drop_last() =~= before);
        reveal(Seq::filter);
        let analysis: Option<PageAnalysis> = match cache.get(&i) {
            Some(page) => Some(*page),
            None => match find_page(pages, i) {
                Some(id) => Some(analyze_page_content(doc, id)),
                None => None,
            },
        };
        match analysis {
            Some(page) => {
                if page.has_template_image || (page.text_operator_count < min_ops
                    && page.has_images) {
                    out.push(i);
                }
            },
            None => {},
        }
    }
    out
}

/// Whether a result is a right answer for a document. The structure is reported as broken where its
/// pages cannot be counted.
pub open spec fn is_answer(
    r: Result<PdfTypeResult, PdfError>,
    objects: Objects,
    trailer: Entries,
    page_count: u32,
    config: DetectionConfig,
) -> bool {
    match r {
        Ok(result) => has_countable_pages(objects) && describes(
            result,
            objects,
            trailer,
            page_count,
            config,
        ),
        Err(e) => !has_countable_pages(objects) && e is InvalidStructure,
    }
}

/// Classifies a loaded document. The number of pages is the one to report; the pages themselves
/// are those of the document.
pub fn detect_from_document(
    doc: &lopdf::Document,
    page_count: u32,
    config: &DetectionConfig,
) -> (r: Result<PdfTypeResult, PdfError>)
    ensures
        is_answer(r, document_objects(*doc), document_trailer(*doc), page_count, *config),
{
    if !check_pages(doc) {
        return Err(PdfError::InvalidStructure);
    }
    let pages = find_pages(doc);
    let total: u32 = (pages.len() as u64 % 0x1_0000_0000) as u32;
    let numbers = select_pages(&config.strategy, total);
    let early_exit: bool = matches!(config.strategy, ScanStrategy::EarlyExit);
    let mut cache: HashMap<u32, PageAnalysis> = HashMap::new();
    let tally = tally_pages(
        doc,
        &pages,
        &numbers,
        early_exit,
        config.min_text_ops_per_page,
        &mut cache,
    );
    let (pdf_type, confidence, ocr_recommended) = classify(
        &tally,
        config.text_page_ratio_threshold,
    );
    let pages_needing_ocr: Vec<u32> = match pdf_type {
        PdfType::TextBased => Vec::new(),
        PdfType::Scanned => count_pages(total),
        PdfType::ImageBased => count_pages(total),
        PdfType::Mixed => find_ocr_pages(
            doc,
            &pages,
            total,
            config.min_text_ops_per_page,
            &cache,
        ),
    };
    assert(counts(
        tally,
        scanned_pages(document_objects(*doc), pages@, *config),
        config.min_text_ops_per_page,
    ));
    assert(pdf_type == PdfType::TextBased ==> pages_needing_ocr@ =~= seq![]);
    Ok(
        PdfTypeResult {
            pdf_type,
            page_count,
            pages_sampled: tally.sampled,
            pages_with_text: tally.with_text,
            confidence,
            title: get_document_title(doc),
            ocr_recommended,
            pages_needing_ocr,
        },
    )
}

/// Classifies the document in the given bytes.
pub fn detect_pdf_type_mem(buffer: &[u8]) -> (r: Result<PdfTypeResult, PdfError>)
    ensures
        is_detection(
            r,
            buffer@,
            (DetectionConfig {
                strategy: ScanStrategy::EarlyExit,
                min_text_ops_per_page: 3,
                text_page_ratio_threshold: 600_000,
            }),
        ),
{
    detect_pdf_type_mem_with_config(buffer, DetectionConfig::default())
}

/// The number of pages to report of a file and the document in it: the one that the file tells, or
/// else how many there are.
pub open spec fn page_total(bytes: Seq<u8>, objects: Objects, trailer: Entries) -> u32 {
    match told_pages(bytes) {
        Some(Ok(n)) => n,
        _ => (known_pages(objects, trailer).len() % 0x1_0000_0000) as u32,
    }
}

/// Whether a result is a right answer for the given bytes. Bytes that do not start like a PDF are
/// refused with what they seem to be. A PDF is classified exactly where it can be asked for its number
/// of pages and loaded; the answer describes the document that was loaded.
pub open spec fn is_detection(
    r: Result<PdfTypeResult, PdfError>,
    bytes: Seq<u8>,
    config: DetectionConfig,
) -> bool {
    if !is_pdf(bytes) {
        r matches Err(PdfError::NotAPdf(hint)) && hint@ == file_hint(bytes)
    } else {
        match told_pages(bytes) {
            Some(Err(f)) => r is Err && reports(r->Err_0, f.0, f.1),
            _ => match opened(bytes) {
                Err(f) => r is Err && reports(r->Err_0, f.0, f.1),
                Ok(all) => exists|doc: (Objects, Entries)| #[trigger]
                    all.contains(doc) && is_answer(
                        r,
                        doc.0,
                        doc.1,
                        page_total(bytes, doc.0, doc.1),
                        config,
                    ),
            },
        }
    }
}

/// Classifies the document in the given bytes, in the given way.
pub fn detect_pdf_type_mem_with_config(buffer: &[u8], config: DetectionConfig) -> (r: Result<
    PdfTypeResult,
    PdfError,
>)
    ensures
        is_detection(r, buffer@, config),
{
    match validate_pdf_bytes(buffer) {
        Ok(_) => {},
        Err(e) => {
            return Err(e);
        },
    }
    let told: Option<u32> = match ask_page_count(buffer) {
        Ok(n) => n,
        Err(e) => {
            return Err(e);
        },
    };
    let doc = match load_document(buffer) {
        Ok(d) => d,
        Err(e) => {
            return Err(e);
        },
    };
    let page_count: u32 = match told {
        Some(n) => n,
        None => (find_pages(&doc).len() as u64 % 0x1_0000_0000) as u32,
    };
    let r = detect_from_document(&doc, page_count, &config);
    assert(opened(buffer@)->Ok_0.contains((document_objects(doc), document_trailer(doc))));
    r
}

} // verus!
