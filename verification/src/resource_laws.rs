//! What pages and forms hold: laws on links, images, fonts, their tables, and the letters of texts.

use crate::content::StepModel;
use crate::extract::forms_shown;
use crate::font_cmaps::{
    after_xobjects, entries_under, fonts_in, form_resources, page_fonts, table_at, tables_of_pages,
    with_font, with_fonts, with_page_forms, Search, Table,
};
use crate::numbers::Number;
use crate::pdf::{
    dictionary_at, dictionary_under, entry, key, known_resources, resolved_stream, Entries, Objects,
    PdfValue,
};
use crate::pieces::{is_shown_image, is_text_piece, DocPiece, PieceKind};
use crate::resources::{link_of, links_among, xobject_type, xobjects_among, LinkModel, XObjectType};
use crate::text::{has_text, lossy_text, stands_at};
use crate::text_utils::{
    are_rtl, is_bold_name, is_cid_name, is_italic_name, is_letter, rtl_balance, rtl_balance_of,
    without_ligatures,
};
use vstd::prelude::*;
use vstd::utf8::encode_utf8_decode_utf8;

verus! {

// ---------------------------------------------------------------------------------------------
// Links
// ---------------------------------------------------------------------------------------------

/// Whether an annotation is a link to an address, with its corners in order.
pub open spec fn is_link_to(
    objects: Objects,
    annotation: Entries,
    uri: Seq<u8>,
    rect: Seq<PdfValue>,
) -> bool {
    &&& entry(annotation, key("Subtype")) == Some(PdfValue::Name(key("Link"))) || entry(
        annotation,
        key("Subtype"),
    ) is None
    &&& entry(annotation, key("Rect")) == Some(PdfValue::Array(rect))
    &&& dictionary_under(objects, annotation, key("A")) is Some
    &&& entry(dictionary_under(objects, annotation, key("A"))->0, key("URI")) == Some(
        PdfValue::Text(uri),
    )
}

/// A link leads to its address, from the area between its corners. An annotation of another kind, one
/// without an address, and one whose area has fewer than four numbers is no link.
pub proof fn lemma_what_links_are(
    objects: Objects,
    annotation: Entries,
    uri: Seq<u8>,
    a: i64,
    b: i64,
    c: u32,
    d: u32,
)
    ensures
        is_link_to(
            objects,
            annotation,
            uri,
            seq![
                PdfValue::Integer(a),
                PdfValue::Integer(b),
                PdfValue::Real(c),
                PdfValue::Real(d),
            ],
        ) ==> link_of(objects, annotation) == Some(
            (LinkModel {
                url: lossy_text(uri),
                x1: Number::Integer(a),
                y1: Number::Integer(b),
                x2: Number::Real(c),
                y2: Number::Real(d),
            }),
        ),
        is_link_to(
            objects,
            annotation,
            uri,
            seq![PdfValue::Integer(a), PdfValue::Integer(b), PdfValue::Real(c)],
        ) ==> link_of(objects, annotation) is None,
        entry(annotation, key("Subtype")) == Some(PdfValue::Name(key("Widget"))) ==> link_of(
            objects,
            annotation,
        ) is None,
        dictionary_under(objects, annotation, key("A")) is None ==> link_of(objects, annotation) is None,
{
    reveal_strlit("Link");
    reveal_strlit("Widget");
    encode_utf8_decode_utf8("Link"@);
    encode_utf8_decode_utf8("Widget"@);
    assert("Link"@.len() != "Widget"@.len());
}

/// Every link of a page is found, wherever it stands among the annotations, and nothing else is: the
/// links of annotations are those of the first ones, and behind them those of the rest.
pub proof fn lemma_all_links_are_found(objects: Objects, list: Seq<PdfValue>, n: int, k: int)
    requires
        0 <= k < n <= list.len(),
        dictionary_at(objects, list[k]) is Some,
        link_of(objects, dictionary_at(objects, list[k])->0) is Some,
    ensures
        links_among(objects, list, n).contains(
            link_of(objects, dictionary_at(objects, list[k])->0)->0,
        ),
        links_among(objects, list, n).len() <= n,
    decreases n,
{
    lemma_link_count(objects, list, n);
    let link = link_of(objects, dictionary_at(objects, list[k])->0)->0;
    let after = links_among(objects, list, n);
    if k == n - 1 {
        assert(after[after.len() - 1] == link);
    } else {
        lemma_all_links_are_found(objects, list, n - 1, k);
        let before = links_among(objects, list, n - 1);
        let i = before.index_of(link);
        assert(after[i] == link);
    }
}

proof fn lemma_link_count(objects: Objects, list: Seq<PdfValue>, n: int)
    requires
        0 <= n,
    ensures
        links_among(objects, list, n).len() <= n,
    decreases n,
{
    if n > 0 {
        lemma_link_count(objects, list, n - 1);
    }
}

// ---------------------------------------------------------------------------------------------
// Images and forms
// ---------------------------------------------------------------------------------------------

/// An object is an image or a form by its kind, which its dictionary names.
pub proof fn lemma_what_xobjects_are(
    objects: Objects,
    id: (u32, u16),
    entries: Entries,
    bytes: Seq<u8>,
    kind: Seq<u8>,
)
    requires
        resolved_stream(objects, id) == Some((entries, bytes)),
        entry(entries, key("Subtype")) == Some(PdfValue::Name(kind)),
    ensures
        kind == key("Image") ==> xobject_type(objects, PdfValue::Reference(id)) == Some(
            XObjectType::Image,
        ),
        kind == key("Form") ==> xobject_type(objects, PdfValue::Reference(id)) == Some(
            XObjectType::Form(id),
        ),
        kind == key("PS") ==> xobject_type(objects, PdfValue::Reference(id)) is None,
{
    reveal_strlit("Image");
    reveal_strlit("Form");
    reveal_strlit("PS");
    encode_utf8_decode_utf8("Image"@);
    encode_utf8_decode_utf8("Form"@);
    encode_utf8_decode_utf8("PS"@);
    assert("Image"@.len() == 5 && "Form"@.len() == 4 && "PS"@.len() == 2);
}

/// Every image and every form of a dictionary is found, by its name.
pub proof fn lemma_all_xobjects_are_found(objects: Objects, entries: Entries, n: int, k: int)
    requires
        0 <= k < n <= entries.len(),
        xobject_type(objects, entries[k].1) is Some,
    ensures
        xobjects_among(objects, entries, n).contains(
            (lossy_text(entries[k].0), xobject_type(objects, entries[k].1)->0),
        ),
    decreases n,
{
    let found = (lossy_text(entries[k].0), xobject_type(objects, entries[k].1)->0);
    let after = xobjects_among(objects, entries, n);
    if k == n - 1 {
        assert(after[after.len() - 1] == found);
    } else {
        lemma_all_xobjects_are_found(objects, entries, n - 1, k);
        let before = xobjects_among(objects, entries, n - 1);
        let i = before.index_of(found);
        assert(after[i] == found);
    }
}

/// The forms that steps show are all of them, in order.
pub proof fn lemma_all_forms_are_shown(a: Seq<StepModel>, id: (u32, u16), b: Seq<StepModel>)
    ensures
        forms_shown(a + b) == forms_shown(a) + forms_shown(b),
        forms_shown(seq![StepModel::Form(id)]) == seq![id],
        forms_shown(seq![StepModel::Save]) == Seq::<(u32, u16)>::empty(),
    decreases b.len(),
{
    let one = seq![StepModel::Form(id)];
    let none = seq![StepModel::Save];
    reveal_with_fuel(forms_shown, 2);
    assert(one.drop_last() =~= Seq::<StepModel>::empty());
    assert(forms_shown(one) =~= seq![id]);
    assert(none.drop_last() =~= Seq::<StepModel>::empty());
    if b.len() > 0 {
        lemma_all_forms_are_shown(a, id, b.drop_last());
        assert((a + b).drop_last() =~= a + b.drop_last());
        assert((a + b).last() == b.last());
        assert(forms_shown(a + b) =~= forms_shown(a) + forms_shown(b));
    } else {
        assert(a + b =~= a);
        assert(forms_shown(a) + forms_shown(b) =~= forms_shown(a));
    }
}

// ---------------------------------------------------------------------------------------------
// Tables of fonts
// ---------------------------------------------------------------------------------------------

/// Whether a font refers to a stream with the given number that holds a table.
pub open spec fn refers_to_table(objects: Objects, font: Entries, number: u32) -> bool {
    entry(font, key("ToUnicode")) matches Some(PdfValue::Reference(id)) && id.0 == number && table_at(
        objects,
        id,
    ) is Some
}

/// Whether one of the fonts refers to a stream with the given number that holds a table.
pub open spec fn one_refers_to_table(
    objects: Objects,
    fonts: Seq<(Seq<u8>, Entries)>,
    number: u32,
) -> bool {
    exists|i: int| 0 <= i < fonts.len() && refers_to_table(objects, (#[trigger] fonts[i]).1, number)
}

proof fn lemma_fonts_add(
    objects: Objects,
    fonts: Seq<(Seq<u8>, Entries)>,
    tables: Map<u32, Table>,
    number: u32,
)
    ensures
        one_refers_to_table(objects, fonts, number) ==> with_fonts(
            objects,
            fonts,
            tables,
        ).dom().contains(number),
        tables.dom().contains(number) ==> with_fonts(objects, fonts, tables).dom().contains(number)
            && with_fonts(objects, fonts, tables)[number] == tables[number],
    decreases fonts.len(),
{
    if fonts.len() > 0 {
        let short = fonts.drop_last();
        lemma_fonts_add(objects, short, tables, number);
        if one_refers_to_table(objects, fonts, number) {
            let i = choose|i: int|
                0 <= i < fonts.len() && refers_to_table(objects, (#[trigger] fonts[i]).1, number);
            if i < short.len() {
                assert(short[i] == fonts[i]);
                assert(one_refers_to_table(objects, short, number));
            }
        }
    }
}

/// The table that a font refers to is the one that is kept for its number, where no other one was.
pub proof fn lemma_tables_are_those_of_their_fonts(
    objects: Objects,
    font: Entries,
    tables: Map<u32, Table>,
    id: (u32, u16),
)
    requires
        entry(font, key("ToUnicode")) == Some(PdfValue::Reference(id)),
        table_at(objects, id) is Some,
    ensures
        with_font(objects, font, tables).dom().contains(id.0),
        !tables.dom().contains(id.0) ==> with_font(objects, font, tables)[id.0] == table_at(
            objects,
            id,
        )->0,
        tables.dom().contains(id.0) ==> with_font(objects, font, tables) == tables,
{
}

proof fn lemma_search_goes_down(
    objects: Objects,
    depth: nat,
    entries: Entries,
    n: int,
    search: Search,
    id: (u32, u16),
)
    requires
        n > 0,
        depth > 0,
        entries[n - 1].1 == PdfValue::Reference(id),
        !after_xobjects(objects, depth, entries, n - 1, search).seen.contains(id),
        form_resources(objects, id) is Some,
    ensures
        ({
            let before = after_xobjects(objects, depth, entries, n - 1, search);
            let resources = form_resources(objects, id)->0;
            let inner = entries_under(objects, resources);
            after_xobjects(objects, depth, entries, n, search) == after_xobjects(
                objects,
                (depth - 1) as nat,
                inner,
                inner.len() as int,
                (Search {
                    tables: with_fonts(objects, fonts_in(objects, resources), before.tables),
                    seen: before.seen.push(id),
                }),
            )
        }),
{
    let before = after_xobjects(objects, depth, entries, n - 1, search);
    let resources = form_resources(objects, id)->0;
    let own = Search {
        tables: with_fonts(objects, fonts_in(objects, resources), before.tables),
        seen: before.seen.push(id),
    };
    assert(after_xobjects(objects, depth, entries, n, search)
        == crate::font_cmaps::after_resources(objects, (depth - 1) as nat, resources, own));
}

proof fn lemma_search_keeps(
    objects: Objects,
    depth: nat,
    entries: Entries,
    n: int,
    search: Search,
    number: u32,
)
    requires
        search.tables.dom().contains(number),
    ensures
        after_xobjects(objects, depth, entries, n, search).tables.dom().contains(number),
        after_xobjects(objects, depth, entries, n, search).tables[number] == search.tables[number],
    decreases depth, n,
{
    if n > 0 {
        lemma_search_keeps(objects, depth, entries, n - 1, search, number);
        let before = after_xobjects(objects, depth, entries, n - 1, search);
        match entries[n - 1].1 {
            PdfValue::Reference(id) => if !before.seen.contains(id) {
                match form_resources(objects, id) {
                    Some(resources) => {
                        let fonts = fonts_in(objects, resources);
                        lemma_fonts_add(objects, fonts, before.tables, number);
                        let own = Search {
                            tables: with_fonts(objects, fonts, before.tables),
                            seen: before.seen.push(id),
                        };
                        if depth > 0 {
                            let inner = entries_under(objects, resources);
                            lemma_search_goes_down(objects, depth, entries, n, search, id);
                            lemma_search_keeps(
                                objects,
                                (depth - 1) as nat,
                                inner,
                                inner.len() as int,
                                own,
                                number,
                            );
                        }
                    },
                    None => {},
                }
            },
            _ => {},
        }
    }
}

/// Whether a form has a font of its own that refers to a stream with the given number that holds a
/// table.
pub open spec fn form_refers_to_table(objects: Objects, form: (u32, u16), number: u32) -> bool {
    form_resources(objects, form) matches Some(resources) && one_refers_to_table(
        objects,
        fonts_in(objects, resources),
        number,
    )
}

proof fn lemma_search_finds(
    objects: Objects,
    depth: nat,
    entries: Entries,
    n: int,
    search: Search,
    form: (u32, u16),
    number: u32,
)
    requires
        form_refers_to_table(objects, form, number),
        !search.seen.contains(form),
    ensures
        after_xobjects(objects, depth, entries, n, search).seen.contains(form) ==> after_xobjects(
            objects,
            depth,
            entries,
            n,
            search,
        ).tables.dom().contains(number),
    decreases depth, n,
{
    if n > 0 {
        lemma_search_finds(objects, depth, entries, n - 1, search, form, number);
        let before = after_xobjects(objects, depth, entries, n - 1, search);
        if before.seen.contains(form) {
            lemma_search_keeps_step(objects, depth, entries, n, search, number);
        } else {
            match entries[n - 1].1 {
                PdfValue::Reference(id) => if !before.seen.contains(id) {
                    let seen = before.seen.push(id);
                    assert(forall|x: (u32, u16)|
                        seen.contains(x) ==> before.seen.contains(x) || x == id);
                    match form_resources(objects, id) {
                        Some(resources) => {
                            let fonts = fonts_in(objects, resources);
                            let own = Search {
                                tables: with_fonts(objects, fonts, before.tables),
                                seen,
                            };
                            lemma_fonts_add(objects, fonts, before.tables, number);
                            if depth > 0 {
                                let inner = entries_under(objects, resources);
                                lemma_search_goes_down(objects, depth, entries, n, search, id);
                                let less = (depth - 1) as nat;
                                let m = inner.len() as int;
                                if id == form {
                                    lemma_search_keeps(objects, less, inner, m, own, number);
                                } else {
                                    lemma_search_finds(objects, less, inner, m, own, form, number);
                                }
                            }
                        },
                        None => {},
                    }
                },
                _ => {},
            }
        }
    }
}

proof fn lemma_search_keeps_step(
    objects: Objects,
    depth: nat,
    entries: Entries,
    n: int,
    search: Search,
    number: u32,
)
    requires
        n > 0,
        after_xobjects(objects, depth, entries, n - 1, search).tables.dom().contains(number),
    ensures
        after_xobjects(objects, depth, entries, n, search).tables.dom().contains(number),
{
    let before = after_xobjects(objects, depth, entries, n - 1, search);
    match entries[n - 1].1 {
        PdfValue::Reference(id) => if !before.seen.contains(id) {
            match form_resources(objects, id) {
                Some(resources) => {
                    let fonts = fonts_in(objects, resources);
                    lemma_fonts_add(objects, fonts, before.tables, number);
                    let own = Search {
                        tables: with_fonts(objects, fonts, before.tables),
                        seen: before.seen.push(id),
                    };
                    if depth > 0 {
                        let inner = entries_under(objects, resources);
                        lemma_search_goes_down(objects, depth, entries, n, search, id);
                        let m = inner.len() as int;
                        lemma_search_keeps(objects, (depth - 1) as nat, inner, m, own, number);
                    }
                },
                None => {},
            }
        },
        _ => {},
    }
}

proof fn lemma_search_enters(
    objects: Objects,
    depth: nat,
    entries: Entries,
    n: int,
    search: Search,
    k: int,
    form: (u32, u16),
)
    requires
        0 <= k < n <= entries.len(),
        entries[k].1 == PdfValue::Reference(form),
    ensures
        after_xobjects(objects, depth, entries, n, search).seen.contains(form),
    decreases n,
{
    let before = after_xobjects(objects, depth, entries, n - 1, search);
    if k < n - 1 {
        lemma_search_enters(objects, depth, entries, n - 1, search, k, form);
    }
    lemma_seen_stays(objects, depth, entries, n, search, form, k == n - 1);
}

proof fn lemma_seen_stays(
    objects: Objects,
    depth: nat,
    entries: Entries,
    n: int,
    search: Search,
    form: (u32, u16),
    last: bool,
)
    requires
        n > 0,
        last ==> entries[n - 1].1 == PdfValue::Reference(form),
        !last ==> after_xobjects(objects, depth, entries, n - 1, search).seen.contains(form),
    ensures
        after_xobjects(objects, depth, entries, n, search).seen.contains(form),
{
    let before = after_xobjects(objects, depth, entries, n - 1, search);
    match entries[n - 1].1 {
        PdfValue::Reference(id) => if !before.seen.contains(id) {
            let seen = before.seen.push(id);
            assert(seen[seen.len() - 1] == id);
            if before.seen.contains(form) {
                let i = before.seen.index_of(form);
                assert(seen[i] == form);
            }
            assert(seen.contains(form));
            match form_resources(objects, id) {
                Some(resources) => if depth > 0 {
                    let own = Search {
                        tables: with_fonts(objects, fonts_in(objects, resources), before.tables),
                        seen,
                    };
                    let inner = entries_under(objects, resources);
                    lemma_search_goes_down(objects, depth, entries, n, search, id);
                    crate::font_cmaps::lemma_seen_grows(
                        objects,
                        (depth - 1) as nat,
                        inner,
                        inner.len() as int,
                        own,
                    );
                    assert(own.seen.contains(form));
                },
                None => {},
            }
        },
        _ => {},
    }
}

/// No form of a page is passed over: the tables of the fonts of every form that the resources of a page
/// name are known, whatever stands before it, and tables that are known stay as they are.
pub proof fn lemma_tables_of_forms_are_known(
    objects: Objects,
    depth: nat,
    entries: Entries,
    k: int,
    form: (u32, u16),
    number: u32,
    tables: Map<u32, Table>,
)
    requires
        0 <= k < entries.len(),
        entries[k].1 == PdfValue::Reference(form),
    ensures
        ({
            let after = after_xobjects(
                objects,
                depth,
                entries,
                entries.len() as int,
                (Search { tables, seen: seq![] }),
            ).tables;
            &&& form_refers_to_table(objects, form, number) ==> after.dom().contains(number)
            &&& tables.dom().contains(number) ==> after.dom().contains(number) && after[number]
                == tables[number]
        }),
{
    let start = Search { tables, seen: seq![] };
    let n = entries.len() as int;
    lemma_search_enters(objects, depth, entries, n, start, k, form);
    if form_refers_to_table(objects, form, number) {
        lemma_search_finds(objects, depth, entries, n, start, form, number);
    }
    if tables.dom().contains(number) {
        lemma_search_keeps(objects, depth, entries, n, start, number);
    }
}

proof fn lemma_page_keeps(
    objects: Objects,
    depth: nat,
    page: (u32, u16),
    tables: Map<u32, Table>,
    number: u32,
)
    requires
        tables.dom().contains(number),
    ensures
        with_page_forms(objects, depth, page, tables).dom().contains(number),
{
    match known_resources(objects, page) {
        Some((own, ids)) => {
            let start = Search { tables, seen: seq![] };
            let first = match own {
                Some(resources) => crate::font_cmaps::after_resources(
                    objects,
                    depth,
                    resources,
                    start,
                ),
                None => start,
            };
            match own {
                Some(resources) => {
                    let entries = entries_under(objects, resources);
                    lemma_search_keeps(
                        objects,
                        depth,
                        entries,
                        entries.len() as int,
                        start,
                        number,
                    );
                },
                None => {},
            }
            lemma_ids_keep(objects, depth, ids, ids.len() as int, first, number);
        },
        None => {},
    }
}

proof fn lemma_ids_keep(
    objects: Objects,
    depth: nat,
    ids: Seq<(u32, u16)>,
    n: int,
    search: Search,
    number: u32,
)
    requires
        search.tables.dom().contains(number),
    ensures
        crate::font_cmaps::after_resource_ids(
            objects,
            depth,
            ids,
            n,
            search,
        ).tables.dom().contains(number),
    decreases n,
{
    if n > 0 {
        lemma_ids_keep(objects, depth, ids, n - 1, search, number);
        let before = crate::font_cmaps::after_resource_ids(objects, depth, ids, n - 1, search);
        match crate::pdf::resolved_dictionary(objects, ids[n - 1]) {
            Some(resources) => {
                let entries = entries_under(objects, resources);
                lemma_search_keeps(objects, depth, entries, entries.len() as int, before, number);
            },
            None => {},
        }
    }
}

/// No page is passed over: the tables of the fonts of every page, and of the forms that its own
/// resources name, are known.
pub proof fn lemma_tables_of_pages_are_known(
    objects: Objects,
    depth: nat,
    pages: Seq<(u32, (u32, u16))>,
    n: int,
    p: int,
    number: u32,
)
    requires
        0 <= p < n <= pages.len(),
        one_refers_to_table(objects, page_fonts(objects, pages[p].1), number)
            || page_form_refers_to_table(objects, pages[p].1, number),
    ensures
        tables_of_pages(objects, depth, pages, n).dom().contains(number),
    decreases n,
{
    let page = pages[n - 1].1;
    let before = tables_of_pages(objects, depth, pages, n - 1);
    let fonts = page_fonts(objects, page);
    let own = with_fonts(objects, fonts, before);
    lemma_fonts_add(objects, fonts, before, number);
    if p < n - 1 {
        lemma_tables_of_pages_are_known(objects, depth, pages, n - 1, p, number);
    }
    if own.dom().contains(number) {
        lemma_page_keeps(objects, depth, page, own, number);
    } else {
        assert(page_form_refers_to_table(objects, page, number));
        let (resources, ids) = known_resources(objects, page)->0;
        let entries = entries_under(objects, resources->0);
        let k = choose|k: int|
            0 <= k < entries.len() && refers_to_form_with_table(
                objects,
                (#[trigger] entries[k]).1,
                number,
            );
        match entries[k].1 {
            PdfValue::Reference(form) => {
                lemma_tables_of_forms_are_known(
                    objects,
                    depth,
                    entries,
                    k,
                    form,
                    number,
                    own,
                );
                let start = Search { tables: own, seen: seq![] };
                let first = crate::font_cmaps::after_resources(
                    objects,
                    depth,
                    resources->0,
                    start,
                );
                lemma_ids_keep(objects, depth, ids, ids.len() as int, first, number);
            },
            _ => {},
        }
    }
}

/// Whether a value refers to a form with a font that refers to a table with the given number.
pub open spec fn refers_to_form_with_table(objects: Objects, value: PdfValue, number: u32) -> bool {
    value matches PdfValue::Reference(form) && form_refers_to_table(objects, form, number)
}

/// Whether the own resources of a page name a form with a font that refers to a table with the given
/// number.
pub open spec fn page_form_refers_to_table(
    objects: Objects,
    page: (u32, u16),
    number: u32,
) -> bool {
    known_resources(objects, page) matches Some((own, ids)) && (own matches Some(resources) && exists|
        k: int,
    |
        0 <= k < entries_under(objects, resources).len() && refers_to_form_with_table(
            objects,
            (#[trigger] entries_under(objects, resources)[k]).1,
            number,
        ))
}

// ---------------------------------------------------------------------------------------------
// Pieces and letters
// ---------------------------------------------------------------------------------------------

/// Texts and form fields are written as text; images are shown where that is asked for; links are
/// neither.
pub proof fn lemma_what_pieces_are(size: u32, id: usize, images: bool)
    ensures
        is_text_piece()((DocPiece { kind: PieceKind::Text, size, id })),
        is_text_piece()((DocPiece { kind: PieceKind::FormField, size, id })),
        !is_text_piece()((DocPiece { kind: PieceKind::Image, size, id })),
        !is_text_piece()((DocPiece { kind: PieceKind::Link, size, id })),
        is_shown_image(images)((DocPiece { kind: PieceKind::Image, size, id })) == images,
        !is_shown_image(images)((DocPiece { kind: PieceKind::Text, size, id })),
        !is_shown_image(images)((DocPiece { kind: PieceKind::Link, size, id })),
        !is_shown_image(images)((DocPiece { kind: PieceKind::FormField, size, id })),
{
}

/// Texts are written from right to left where Hebrew and Arabic characters outnumber the other letters,
/// over all of the texts.
pub proof fn lemma_what_is_written_leftwards(
    texts: Seq<Seq<char>>,
    text: Seq<char>,
    s: Seq<char>,
    c: char,
)
    ensures
        are_rtl(texts) <==> rtl_balance_of(texts, texts.len() as int) > 0,
        rtl_balance_of(texts.push(text), texts.len() as int + 1) == rtl_balance_of(
            texts,
            texts.len() as int,
        ) + rtl_balance(text),
        '\u{0590}' <= c <= '\u{08FF}' ==> rtl_balance(s.push(c)) == rtl_balance(s) + 1,
        '\u{FB1D}' <= c <= '\u{FDFF}' ==> rtl_balance(s.push(c)) == rtl_balance(s) + 1,
        '\u{FE70}' <= c <= '\u{FEFF}' ==> rtl_balance(s.push(c)) == rtl_balance(s) + 1,
        c < '\u{0590}' && is_letter(c) ==> rtl_balance(s.push(c)) == rtl_balance(s) - 1,
        c < '\u{0590}' && !is_letter(c) ==> rtl_balance(s.push(c)) == rtl_balance(s),
        rtl_balance(Seq::<char>::empty()) == 0,
{
    assert(s.push(c).drop_last() =~= s);
    lemma_same_balance(texts, texts.push(text), texts.len() as int);
}

proof fn lemma_same_balance(a: Seq<Seq<char>>, b: Seq<Seq<char>>, n: int)
    requires
        0 <= n <= a.len(),
        n <= b.len(),
        forall|k: int| 0 <= k < n ==> a[k] == b[k],
    ensures
        rtl_balance_of(a, n) == rtl_balance_of(b, n),
    decreases n,
{
    if n > 0 {
        lemma_same_balance(a, b, n - 1);
    }
}

proof fn lemma_stands(a: Seq<char>, word: Seq<char>, b: Seq<char>)
    ensures
        has_text(a + word + b, word),
{
    let s = a + word + b;
    assert(s.subrange(a.len() as int, a.len() as int + word.len()) =~= word);
    assert(stands_at(s, word, a.len() as int));
}

/// Fonts are bold or italic by the words in their names, wherever these stand.
pub proof fn lemma_names_of_emphasis(a: Seq<char>, b: Seq<char>)
    ensures
        is_bold_name(a + "bold"@ + b),
        is_bold_name(a + "-bd"@ + b),
        is_bold_name(a + "_bd"@ + b),
        is_bold_name(a + "black"@ + b),
        is_bold_name(a + "heavy"@ + b),
        is_bold_name(a + "demi"@ + b),
        is_bold_name(a + "semi"@ + b),
        is_bold_name(a + "medium"@ + b) || has_text(a + "medium"@ + b, "mediumitalic"@),
        is_italic_name(a + "italic"@ + b),
        is_italic_name(a + "obl"@ + b),
        is_italic_name(a + "-it"@ + b),
        is_italic_name(a + "_it"@ + b),
        is_italic_name(a + "slant"@ + b),
        is_italic_name(a + "inclined"@ + b),
        is_italic_name(a + "kursiv"@ + b),
        is_cid_name("C2_"@ + b),
        is_cid_name("C0_"@ + b),
{
    lemma_stands(a, "bold"@, b);
    lemma_stands(a, "-bd"@, b);
    lemma_stands(a, "_bd"@, b);
    lemma_stands(a, "black"@, b);
    lemma_stands(a, "heavy"@, b);
    lemma_stands(a, "demi"@, b);
    lemma_stands(a, "semi"@, b);
    lemma_stands(a, "medium"@, b);
    lemma_stands(a, "italic"@, b);
    lemma_stands(a, "obl"@, b);
    lemma_stands(a, "-it"@, b);
    lemma_stands(a, "_it"@, b);
    lemma_stands(a, "slant"@, b);
    lemma_stands(a, "inclined"@, b);
    lemma_stands(a, "kursiv"@, b);
    assert(("C2_"@ + b).subrange(0, "C2_"@.len() as int) =~= "C2_"@);
    assert(("C0_"@ + b).subrange(0, "C0_"@.len() as int) =~= "C0_"@);
}

/// A name of letters, none of which is the first of such a word nor a hyphen or underscore, is neither
/// that of a bold font nor of an italic one.
pub proof fn lemma_names_without_emphasis(s: Seq<char>)
    requires
        forall|k: int|
            0 <= k < s.len() ==> (#[trigger] s[k]) != 'b' && s[k] != '-' && s[k] != '_' && s[k] != 'h'
                && s[k] != 'd' && s[k] != 's' && s[k] != 'm' && s[k] != 'i' && s[k] != 'o' && s[k]
                != 'k',
    ensures
        !is_bold_name(s),
        !is_italic_name(s),
{
    reveal_strlit("bold");
    reveal_strlit("-bd");
    reveal_strlit("_bd");
    reveal_strlit("black");
    reveal_strlit("heavy");
    reveal_strlit("demi");
    reveal_strlit("semi");
    reveal_strlit("medium");
    reveal_strlit("italic");
    reveal_strlit("obl");
    reveal_strlit("-it");
    reveal_strlit("_it");
    reveal_strlit("slant");
    reveal_strlit("inclined");
    reveal_strlit("kursiv");
    lemma_lacks(s, "bold"@);
    lemma_lacks(s, "-bd"@);
    lemma_lacks(s, "_bd"@);
    lemma_lacks(s, "black"@);
    lemma_lacks(s, "heavy"@);
    lemma_lacks(s, "demi"@);
    lemma_lacks(s, "semi"@);
    lemma_lacks(s, "medium"@);
    lemma_lacks(s, "italic"@);
    lemma_lacks(s, "obl"@);
    lemma_lacks(s, "-it"@);
    lemma_lacks(s, "_it"@);
    lemma_lacks(s, "slant"@);
    lemma_lacks(s, "inclined"@);
    lemma_lacks(s, "kursiv"@);
}

proof fn lemma_lacks(s: Seq<char>, word: Seq<char>)
    requires
        word.len() > 0,
        forall|k: int| 0 <= k < s.len() ==> #[trigger] s[k] != word[0],
    ensures
        !has_text(s, word),
{
    if has_text(s, word) {
        let i = choose|i: int| stands_at(s, word, i);
        assert(s.subrange(i, i + word.len())[0] == word[0]);
        assert(s[i] == word[0]);
    }
}

/// A ligature is taken apart into its letters wherever it stands; control characters but for line breaks
/// and tabs vanish; other characters stay.
pub proof fn lemma_ligatures_are_taken_apart(s: Seq<char>, c: char)
    ensures
        without_ligatures(s.push('\u{FB00}')) == without_ligatures(s) + seq!['f', 'f'],
        without_ligatures(s.push('\u{FB01}')) == without_ligatures(s) + seq!['f', 'i'],
        without_ligatures(s.push('\u{FB02}')) == without_ligatures(s) + seq!['f', 'l'],
        without_ligatures(s.push('\u{FB03}')) == without_ligatures(s) + seq!['f', 'f', 'i'],
        without_ligatures(s.push('\u{FB04}')) == without_ligatures(s) + seq!['f', 'f', 'l'],
        c >= ' ' && !('\u{FB00}' <= c <= '\u{FB04}') ==> without_ligatures(s.push(c))
            == without_ligatures(s) + seq![c],
        c == '\n' || c == '\r' || c == '\t' ==> without_ligatures(s.push(c)) == without_ligatures(s)
            + seq![c],
        c < ' ' && c != '\n' && c != '\r' && c != '\t' ==> without_ligatures(s.push(c))
            == without_ligatures(s),
        without_ligatures(Seq::<char>::empty()) == Seq::<char>::empty(),
{
    assert(s.push(c).drop_last() =~= s);
    assert(s.push('\u{FB00}').drop_last() =~= s);
    assert(s.push('\u{FB01}').drop_last() =~= s);
    assert(s.push('\u{FB02}').drop_last() =~= s);
    assert(s.push('\u{FB03}').drop_last() =~= s);
    assert(s.push('\u{FB04}').drop_last() =~= s);
    assert(without_ligatures(s) + Seq::<char>::empty() =~= without_ligatures(s));
}

} // verus!
