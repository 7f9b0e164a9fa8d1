//! From the bytes of a document to the steps by which the text of its pages is placed.

use crate::content::{
    after_operations, are_gaps, form_font_widths, form_steps, gap_contents, page_font_widths,
    page_setting, page_steps, step_contents, steps_of_form, Step, StepModel,
};
use crate::encodings::GlyphNames;
use crate::error::{reports, PdfError};
use crate::font_cmaps::{page_fonts, tables_of_pages, FontCMaps};
use crate::limits::{operations_of, page_content};
use crate::loading::{load_document, opened};
use crate::pdf::{
    check_pages, document_objects, document_trailer, has_countable_pages, known_pages,
    resolved_stream, Entries, Objects,
};
use crate::process::{is_chosen, pages_to_extract};
use crate::resources::{extract_page_links, form_fonts, link_contents, page_links, PageLink};
use crate::validation::{file_hint, is_pdf};
use crate::widths::{page_widths, width_contents, FontWidthInfo, Widths};
use vstd::prelude::*;

verus! {

/// What a page shows.
pub struct PageSteps {
    /// The number of the page.
    pub page: u32,
    /// The steps by which its text is placed.
    pub steps: Vec<Step>,
    /// For each step that shows a form, in order, the steps of the form; `None` where it cannot be
    /// read.
    pub forms: Vec<Option<Vec<Step>>>,
    /// The links of the page.
    pub links: Vec<PageLink>,
}

/// The numbers of the forms that steps show, in order.
pub open spec fn forms_shown(steps: Seq<StepModel>) -> Seq<(u32, u16)>
    decreases steps.len(),
{
    if steps.len() == 0 {
        seq![]
    } else {
        let before = forms_shown(steps.drop_last());
        match steps.last() {
            StepModel::Form(id) => before.push(id),
            _ => before,
        }
    }
}

/// Whether gaps may be those of fonts with the given widths, by the answer of `gaps`.
pub open spec fn are_gaps_of<G: Fn(&Vec<(Vec<char>, FontWidthInfo)>) -> Vec<(Vec<char>, (u32, u32))>>(
    gaps: G,
    widths: Seq<(Seq<char>, Widths)>,
    found: Seq<(Seq<char>, (u32, u32))>,
) -> bool {
    exists|w: Vec<(Vec<char>, FontWidthInfo)>, g: Vec<(Vec<char>, (u32, u32))>| #[trigger]
        gaps.ensures((&w,), g) && width_contents(w@) == widths && gap_contents(g@) == found
}

/// The widths of the fonts of a form.
pub open spec fn form_widths(objects: Objects, form: (u32, u16)) -> Seq<(Seq<char>, Widths)> {
    match resolved_stream(objects, form) {
        Some((entries, bytes)) => {
            let fonts = form_fonts(objects, entries);
            page_widths(objects, fonts, fonts.len() as int)
        },
        None => seq![],
    }
}

/// Whether steps are those of a form.
pub open spec fn are_form_steps<G: Fn(&Vec<(Vec<char>, FontWidthInfo)>) -> Vec<(Vec<char>, (u32, u32))>>(
    steps: Option<Vec<Step>>,
    objects: Objects,
    cmaps: FontCMaps,
    names: Seq<(Vec<char>, char)>,
    gaps: G,
    form: (u32, u16),
) -> bool {
    exists|found: Seq<(Seq<char>, (u32, u32))>| #[trigger]
        are_gaps_of(gaps, form_widths(objects, form), found) && match steps {
            Some(list) => steps_of_form(objects, form, cmaps, names, found) == Some(
                step_contents(list@),
            ),
            None => steps_of_form(objects, form, cmaps, names, found) is None,
        }
}

/// Whether steps are those of a page.
pub open spec fn are_page_steps<G: Fn(&Vec<(Vec<char>, FontWidthInfo)>) -> Vec<(Vec<char>, (u32, u32))>>(
    steps: Seq<StepModel>,
    objects: Objects,
    cmaps: FontCMaps,
    names: Seq<(Vec<char>, char)>,
    gaps: G,
    id: (u32, u16),
) -> bool {
    let fonts = page_fonts(objects, id);
    exists|found: Seq<(Seq<char>, (u32, u32))>| #[trigger]
        are_gaps_of(gaps, page_widths(objects, fonts, fonts.len() as int), found) && (operations_of(
            page_content(objects, id),
        ) matches Ok(operations) && steps == after_operations(
            page_setting(objects, id, cmaps, names, found),
            operations,
            operations.len() as int,
        ).1)
}

/// Whether a page shows what is written in the document.
pub open spec fn shows_page<G: Fn(&Vec<(Vec<char>, FontWidthInfo)>) -> Vec<(Vec<char>, (u32, u32))>>(
    shown: PageSteps,
    objects: Objects,
    cmaps: FontCMaps,
    names: Seq<(Vec<char>, char)>,
    gaps: G,
    page: (u32, (u32, u16)),
) -> bool {
    let forms = forms_shown(step_contents(shown.steps@));
    &&& shown.page == page.0
    &&& are_page_steps(step_contents(shown.steps@), objects, cmaps, names, gaps, page.1)
    &&& shown.forms@.len() == forms.len()
    &&& forall|k: int|
        0 <= k < forms.len() ==> are_form_steps(
            #[trigger] shown.forms@[k],
            objects,
            cmaps,
            names,
            gaps,
            forms[k],
        )
    &&& link_contents(shown.links@) == page_links(objects, page.1)
}

/// The pages of a document to extract.
pub open spec fn chosen_pages(
    objects: Objects,
    trailer: Entries,
    filter: Option<Seq<u32>>,
) -> Seq<(u32, (u32, u16))> {
    known_pages(objects, trailer).filter(is_chosen(filter))
}

/// Whether a result is what the pages of a document show, or the reason why the content of the first
/// page that cannot be read cannot. The structure is reported as broken where the pages cannot be
/// counted.
pub open spec fn are_steps_of<G: Fn(&Vec<(Vec<char>, FontWidthInfo)>) -> Vec<(Vec<char>, (u32, u32))>>(
    r: Result<Vec<PageSteps>, PdfError>,
    objects: Objects,
    trailer: Entries,
    filter: Option<Seq<u32>>,
    names: Seq<(Vec<char>, char)>,
    gaps: G,
) -> bool {
    let pages = chosen_pages(objects, trailer, filter);
    let all = known_pages(objects, trailer);
    match r {
        Ok(list) => has_countable_pages(objects) && list@.len() == pages.len() && exists|
            cmaps: FontCMaps,
        |
            #![trigger cmaps.contents()]
            {
                &&& cmaps.contents() == tables_of_pages(
                    objects,
                    objects.dom().len(),
                    all,
                    all.len() as int,
                )
                &&& forall|i: int|
                    0 <= i < list@.len() ==> shows_page(
                        #[trigger] list@[i],
                        objects,
                        cmaps,
                        names,
                        gaps,
                        pages[i],
                    )
            },
        Err(e) => if !has_countable_pages(objects) {
            e is InvalidStructure
        } else {
            exists|i: int|
                #![trigger pages[i]]
                {
                    &&& 0 <= i < pages.len()
                    &&& forall|k: int|
                        0 <= k < i ==> operations_of(
                            page_content(objects, (#[trigger] pages[k]).1),
                        ) is Ok
                    &&& (operations_of(page_content(objects, pages[i].1)) matches Err(reason) && (
                    e matches PdfError::Parse(m) && m@ == reason))
                }
        },
    }
}

/// The steps of the forms that steps show.
fn steps_of_forms<G: Fn(&Vec<(Vec<char>, FontWidthInfo)>) -> Vec<(Vec<char>, (u32, u32))>>(
    doc: &lopdf::Document,
    steps: &Vec<Step>,
    cmaps: &FontCMaps,
    glyphs: &GlyphNames,
    gaps: &G,
) -> (r: Vec<Option<Vec<Step>>>)
    requires
        cmaps.wf(),
        forall|w: &Vec<(Vec<char>, FontWidthInfo)>| gaps.requires((w,)),
        forall|w: &Vec<(Vec<char>, FontWidthInfo)>, g: Vec<(Vec<char>, (u32, u32))>| #[trigger]
            gaps.ensures((w,), g) ==> are_gaps(g@),
    ensures
        r@.len() == forms_shown(step_contents(steps@)).len(),
        forall|k: int|
            0 <= k < r@.len() ==> are_form_steps(
                #[trigger] r@[k],
                document_objects(*doc),
                *cmaps,
                glyphs.names@,
                *gaps,
                forms_shown(step_contents(steps@))[k],
            ),
{
    let ghost all = step_contents(steps@);
    let mut out: Vec<Option<Vec<Step>>> = Vec::new();
    let mut i: usize = 0;
    assert(all.take(0) =~= seq![]);
    while i < steps.len()
        invariant
            i <= steps@.len(),
            all == step_contents(steps@),
            cmaps.wf(),
            forall|w: &Vec<(Vec<char>, FontWidthInfo)>| gaps.requires((w,)),
            forall|w: &Vec<(Vec<char>, FontWidthInfo)>, g: Vec<(Vec<char>, (u32, u32))>| #[trigger]
                gaps.ensures((w,), g) ==> are_gaps(g@),
            out@.len() == forms_shown(all.take(i as int)).len(),
            forall|k: int|
                0 <= k < out@.len() ==> are_form_steps(
                    #[trigger] out@[k],
                    document_objects(*doc),
                    *cmaps,
                    glyphs.names@,
                    *gaps,
                    forms_shown(all.take(i as int))[k],
                ),
        decreases steps@.len() - i,
    {
        assert(all.take(i + 1).drop_last() =~= all.take(i as int));
        assert(all.take(i + 1).last() == steps@[i as int]@);
        match &steps[i] {
            Step::Form(id) => {
                let widths = form_font_widths(doc, *id);
                let found = gaps(&widths);
                let form = form_steps(doc, *id, cmaps, glyphs, &found);
                assert(are_gaps_of(
                    *gaps,
                    form_widths(document_objects(*doc), *id),
                    gap_contents(found@),
                ));
                out.push(form);
            },
            _ => {},
        }
        i = i + 1;
    }
    assert(all.take(i as int) =~= all);
    out
}

/// Says what the pages of a document show: all of them, or those with the given numbers. `gaps`
/// says which gaps in a row of text count as a space and as a gap between columns, by the widths of
/// the fonts; `glyphs` tells the characters of the names of glyphs.
pub fn extract_pages<G: Fn(&Vec<(Vec<char>, FontWidthInfo)>) -> Vec<(Vec<char>, (u32, u32))>>(
    doc: &lopdf::Document,
    page_filter: Option<&Vec<u32>>,
    glyphs: &GlyphNames,
    gaps: G,
) -> (r: Result<Vec<PageSteps>, PdfError>)
    requires
        forall|w: &Vec<(Vec<char>, FontWidthInfo)>| gaps.requires((w,)),
        forall|w: &Vec<(Vec<char>, FontWidthInfo)>, g: Vec<(Vec<char>, (u32, u32))>| #[trigger]
            gaps.ensures((w,), g) ==> are_gaps(g@),
    ensures
        are_steps_of(
            r,
            document_objects(*doc),
            document_trailer(*doc),
            match page_filter {
                Some(numbers) => Some(numbers@),
                None => None,
            },
            glyphs.names@,
            gaps,
        ),
{
    let ghost objects = document_objects(*doc);
    if !check_pages(doc) {
        return Err(PdfError::InvalidStructure);
    }
    let cmaps = FontCMaps::from_doc(doc);
    let pages = pages_to_extract(doc, page_filter);
    let mut out: Vec<PageSteps> = Vec::new();
    let mut i: usize = 0;
    while i < pages.len()
        invariant
            i <= pages@.len(),
            objects == document_objects(*doc),
            pages@ == chosen_pages(
                objects,
                document_trailer(*doc),
                match page_filter {
                    Some(numbers) => Some(numbers@),
                    None => None,
                },
            ),
            cmaps.wf(),
            forall|w: &Vec<(Vec<char>, FontWidthInfo)>| gaps.requires((w,)),
            forall|w: &Vec<(Vec<char>, FontWidthInfo)>, g: Vec<(Vec<char>, (u32, u32))>| #[trigger]
                gaps.ensures((w,), g) ==> are_gaps(g@),
            out@.len() == i,
            forall|k: int|
                0 <= k < i ==> shows_page(
                    #[trigger] out@[k],
                    objects,
                    cmaps,
                    glyphs.names@,
                    gaps,
                    pages@[k],
                ),
            forall|k: int|
                0 <= k < i ==> operations_of(page_content(objects, (#[trigger] pages@[k]).1)) is Ok,
        decreases pages@.len() - i,
    {
        let (page, id) = pages[i];
        let widths = page_font_widths(doc, id);
        let found = gaps(&widths);
        let steps = match page_steps(doc, id, &cmaps, glyphs, &found) {
            Ok(s) => s,
            Err(e) => {
                assert(pages@[i as int].1 == id);
                return Err(e);
            },
        };
        proof {
            let fonts = page_fonts(objects, id);
            assert(are_gaps_of(
                gaps,
                page_widths(objects, fonts, fonts.len() as int),
                gap_contents(found@),
            ));
        }
        let forms = steps_of_forms(doc, &steps, &cmaps, glyphs, &gaps);
        let links = extract_page_links(doc, id);
        out.push(PageSteps { page, steps, forms, links });
        i = i + 1;
    }
    assert(cmaps.contents() == cmaps.contents());
    Ok(out)
}

/// Says what the pages of the document in the given bytes show. Bytes that do not start like a PDF
/// are refused with what they seem to be; a document that cannot be loaded is reported.
pub fn extract_pages_mem<G: Fn(&Vec<(Vec<char>, FontWidthInfo)>) -> Vec<(Vec<char>, (u32, u32))>>(
    buffer: &[u8],
    page_filter: Option<&Vec<u32>>,
    glyphs: &GlyphNames,
    gaps: G,
) -> (r: Result<Vec<PageSteps>, PdfError>)
    requires
        forall|w: &Vec<(Vec<char>, FontWidthInfo)>| gaps.requires((w,)),
        forall|w: &Vec<(Vec<char>, FontWidthInfo)>, g: Vec<(Vec<char>, (u32, u32))>| #[trigger]
            gaps.ensures((w,), g) ==> are_gaps(g@),
    ensures
        !is_pdf(buffer@) ==> (r matches Err(PdfError::NotAPdf(hint)) && hint@ == file_hint(buffer@)),
        is_pdf(buffer@) ==> match opened(buffer@) {
            Err(f) => r is Err && reports(r->Err_0, f.0, f.1),
            Ok(all) => exists|doc: (Objects, Entries)| #[trigger]
                all.contains(doc) && are_steps_of(
                    r,
                    doc.0,
                    doc.1,
                    match page_filter {
                        Some(numbers) => Some(numbers@),
                        None => None,
                    },
                    glyphs.names@,
                    gaps,
                ),
        },
{
    let doc = match load_document(buffer) {
        Ok(d) => d,
        Err(e) => {
            return Err(e);
        },
    };
    let r = extract_pages(&doc, page_filter, glyphs, gaps);
    assert(opened(buffer@)->Ok_0.contains((document_objects(doc), document_trailer(doc))));
    r
}

} // verus!
