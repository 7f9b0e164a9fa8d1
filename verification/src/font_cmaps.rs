//! The ToUnicode tables of a document, by the number of the stream that holds each.

use crate::limits::{undo_filters, undone};
use crate::pdf::{
    as_dictionary, dict_entries, dict_get, dictionary_at, dictionary_entries, dictionary_under,
    document_objects, document_trailer, entry, find_page_fonts, find_page_resources, find_pages,
    get_dict_under, get_dictionary, get_stream, is_name, key, known_fonts, known_pages,
    known_resources, listed_entries, listed_fonts, object_count, object_value, resolve_dict,
    resolved_dictionary, resolved_stream, same_bytes, shape_of, stream_parts, Entries, Objects,
    PdfValue, Shape,
};
use crate::text::lossy_text;
use crate::tounicode::{cmap_of, texts, ToUnicodeCMap};
use std::collections::HashMap;
use vstd::prelude::*;

verus! {

broadcast use vstd::std_specs::hash::group_hash_axioms;

/// The content of a ToUnicode table: the codes mapped one by one, the ranges, and the width of a
/// code.
pub type Table = (Map<u16, Seq<char>>, Seq<(u16, u16, u32)>, u8);

/// The table that the stream with the given number holds.
pub open spec fn table_at(objects: Objects, id: (u32, u16)) -> Option<Table> {
    match resolved_stream(objects, id) {
        Some((entries, bytes)) => match undone(entries, bytes) {
            Some(data) => cmap_of(lossy_text(data)),
            None => None,
        },
        None => None,
    }
}

/// The tables with that of one more font, unless a stream with that number has given one before.
pub open spec fn with_font(objects: Objects, font: Entries, tables: Map<u32, Table>) -> Map<
    u32,
    Table,
> {
    match entry(font, key("ToUnicode")) {
        Some(PdfValue::Reference(id)) => if tables.dom().contains(id.0) {
            tables
        } else {
            match table_at(objects, id) {
                Some(table) => tables.insert(id.0, table),
                None => tables,
            }
        },
        _ => tables,
    }
}

/// The tables with those of a row of fonts.
pub open spec fn with_fonts(
    objects: Objects,
    fonts: Seq<(Seq<u8>, Entries)>,
    tables: Map<u32, Table>,
) -> Map<u32, Table>
    decreases fonts.len(),
{
    if fonts.len() == 0 {
        tables
    } else {
        with_font(objects, fonts.last().1, with_fonts(objects, fonts.drop_last(), tables))
    }
}

/// Whether one row of bytes comes before another in the order of dictionaries.
pub open spec fn bytes_before(a: Seq<u8>, b: Seq<u8>) -> bool
    decreases a.len(),
{
    if b.len() == 0 {
        false
    } else if a.len() == 0 {
        true
    } else if a[0] == b[0] {
        bytes_before(a.skip(1), b.skip(1))
    } else {
        a[0] < b[0]
    }
}

/// A row of fonts in the order of their names with one more font; it takes the place of a font
/// with the same name.
pub open spec fn with_named(
    fonts: Seq<(Seq<u8>, Entries)>,
    name: Seq<u8>,
    font: Entries,
) -> Seq<(Seq<u8>, Entries)>
    decreases fonts.len(),
{
    if fonts.len() == 0 || bytes_before(fonts.last().0, name) {
        fonts.push((name, font))
    } else if fonts.last().0 == name {
        fonts.drop_last().push((name, font))
    } else {
        with_named(fonts.drop_last(), name, font).push(fonts.last())
    }
}

/// The fonts among the first `n` entries of a font dictionary, in the order of their names.
pub open spec fn named_fonts(objects: Objects, entries: Entries, n: int) -> Seq<
    (Seq<u8>, Entries),
>
    decreases n,
{
    if n <= 0 {
        seq![]
    } else {
        let before = named_fonts(objects, entries, n - 1);
        match dictionary_at(objects, entries[n - 1].1) {
            Some(font) => with_named(before, entries[n - 1].0, font),
            None => before,
        }
    }
}

/// The fonts in a resource dictionary.
pub open spec fn fonts_in(objects: Objects, resources: Entries) -> Seq<(Seq<u8>, Entries)> {
    match dictionary_under(objects, resources, key("Font")) {
        Some(fonts) => named_fonts(objects, fonts, fonts.len() as int),
        None => seq![],
    }
}

/// The resources that a form holds itself; `None` where the object is no form or has none.
pub open spec fn form_resources(objects: Objects, id: (u32, u16)) -> Option<Entries> {
    match resolved_stream(objects, id) {
        Some((entries, bytes)) => if entry(entries, key("Subtype")) == Some(
            PdfValue::Name(key("Form")),
        ) {
            match entry(entries, key("Resources")) {
                Some(v) => as_dictionary(v),
                None => None,
            }
        } else {
            None
        },
        None => None,
    }
}

/// The tables found so far, and the objects that have been looked into.
pub struct Search {
    pub tables: Map<u32, Table>,
    pub seen: Seq<(u32, u16)>,
}

/// The search after the first `n` entries of an XObject dictionary, with the forms in them and
/// the forms in those, down to the given depth.
pub open spec fn after_xobjects(
    objects: Objects,
    depth: nat,
    entries: Entries,
    n: int,
    search: Search,
) -> Search
    decreases depth, n,
{
    if n <= 0 {
        search
    } else {
        let before = after_xobjects(objects, depth, entries, n - 1, search);
        match entries[n - 1].1 {
            PdfValue::Reference(id) => if before.seen.contains(id) {
                before
            } else {
                let entered = Search { seen: before.seen.push(id), ..before };
                match form_resources(objects, id) {
                    Some(resources) => {
                        let with_own = Search {
                            tables: with_fonts(
                                objects,
                                fonts_in(objects, resources),
                                entered.tables,
                            ),
                            ..entered
                        };
                        if depth == 0 {
                            with_own
                        } else {
                            after_resources(objects, (depth - 1) as nat, resources, with_own)
                        }
                    },
                    None => entered,
                }
            },
            _ => before,
        }
    }
}

/// The search after the XObjects of a resource dictionary.
pub open spec fn after_resources(
    objects: Objects,
    depth: nat,
    resources: Entries,
    search: Search,
) -> Search
    decreases depth, entries_under(objects, resources).len() + 1,
{
    let entries = entries_under(objects, resources);
    after_xobjects(objects, depth, entries, entries.len() as int, search)
}

/// The XObject entries of a resource dictionary.
pub open spec fn entries_under(objects: Objects, resources: Entries) -> Entries {
    match dictionary_under(objects, resources, key("XObject")) {
        Some(entries) => entries,
        None => seq![],
    }
}

/// The search after the first `n` of the resource objects that a page refers to.
pub open spec fn after_resource_ids(
    objects: Objects,
    depth: nat,
    ids: Seq<(u32, u16)>,
    n: int,
    search: Search,
) -> Search
    decreases n,
{
    if n <= 0 {
        search
    } else {
        let before = after_resource_ids(objects, depth, ids, n - 1, search);
        match resolved_dictionary(objects, ids[n - 1]) {
            Some(resources) => after_resources(objects, depth, resources, before),
            None => before,
        }
    }
}

/// The tables with those of the forms that a page uses.
pub open spec fn with_page_forms(
    objects: Objects,
    depth: nat,
    page: (u32, u16),
    tables: Map<u32, Table>,
) -> Map<u32, Table> {
    match known_resources(objects, page) {
        Some((own, ids)) => {
            let start = Search { tables, seen: seq![] };
            let first = match own {
                Some(resources) => after_resources(objects, depth, resources, start),
                None => start,
            };
            after_resource_ids(objects, depth, ids, ids.len() as int, first).tables
        },
        None => tables,
    }
}

/// The fonts of a page; none where they cannot be found.
pub open spec fn page_fonts(objects: Objects, page: (u32, u16)) -> Seq<(Seq<u8>, Entries)> {
    match known_fonts(objects, page) {
        Some(fonts) => fonts,
        None => seq![],
    }
}

/// The tables of the first `n` pages.
pub open spec fn tables_of_pages(
    objects: Objects,
    depth: nat,
    pages: Seq<(u32, (u32, u16))>,
    n: int,
) -> Map<u32, Table>
    decreases n,
{
    if n <= 0 {
        Map::empty()
    } else {
        let page = pages[n - 1].1;
        let before = tables_of_pages(objects, depth, pages, n - 1);
        with_page_forms(
            objects,
            depth,
            page,
            with_fonts(objects, page_fonts(objects, page), before),
        )
    }
}

/// The objects that have not been looked into.
pub open spec fn unseen(objects: Objects, search: Search) -> Set<(u32, u16)> {
    objects.dom().difference(search.seen.to_set())
}

pub(crate) proof fn lemma_seen_grows(
    objects: Objects,
    depth: nat,
    entries: Entries,
    n: int,
    search: Search,
)
    ensures
        forall|id: (u32, u16)|
            #[trigger] search.seen.contains(id) ==> after_xobjects(
                objects,
                depth,
                entries,
                n,
                search,
            ).seen.contains(id),
    decreases depth, n,
{
    if n > 0 {
        lemma_seen_grows(objects, depth, entries, n - 1, search);
        let before = after_xobjects(objects, depth, entries, n - 1, search);
        match entries[n - 1].1 {
            PdfValue::Reference(id) => if !before.seen.contains(id) {
                let seen = before.seen.push(id);
                assert forall|x: (u32, u16)| before.seen.contains(x) implies seen.contains(x) by {
                    let k = before.seen.index_of(x);
                    assert(seen[k] == x);
                }
                match form_resources(objects, id) {
                    Some(resources) => if depth > 0 {
                        let with_own = Search {
                            tables: with_fonts(
                                objects,
                                fonts_in(objects, resources),
                                before.tables,
                            ),
                            seen,
                        };
                        let inner = entries_under(objects, resources);
                        lemma_seen_grows(
                            objects,
                            (depth - 1) as nat,
                            inner,
                            inner.len() as int,
                            with_own,
                        );
                        assert forall|x: (u32, u16)| before.seen.contains(x) implies after_xobjects(
                            objects,
                            (depth - 1) as nat,
                            inner,
                            inner.len() as int,
                            with_own,
                        ).seen.contains(x) by {
                            assert(with_own.seen.contains(x));
                        }
                        assert(after_xobjects(objects, depth, entries, n, search)
                            == after_resources(objects, (depth - 1) as nat, resources, with_own));
                    },
                    None => {},
                }
            },
            _ => {},
        }
    }
}

/// The search never runs out of depth: with as much depth as there are objects left to look into,
/// more depth changes nothing.
pub proof fn lemma_depth_is_enough(
    objects: Objects,
    depth: nat,
    entries: Entries,
    n: int,
    search: Search,
)
    requires
        objects.dom().finite(),
        unseen(objects, search).len() <= depth,
    ensures
        after_xobjects(objects, depth, entries, n, search) == after_xobjects(
            objects,
            depth + 1,
            entries,
            n,
            search,
        ),
    decreases depth, n,
{
    if n > 0 {
        lemma_depth_is_enough(objects, depth, entries, n - 1, search);
        let before = after_xobjects(objects, depth, entries, n - 1, search);
        lemma_seen_grows(objects, depth, entries, n - 1, search);
        assert(unseen(objects, before).subset_of(unseen(objects, search)));
        vstd::set_lib::lemma_len_subset(unseen(objects, before), unseen(objects, search));
        match entries[n - 1].1 {
            PdfValue::Reference(id) => if !before.seen.contains(id) {
                match form_resources(objects, id) {
                    Some(resources) => {
                        let with_own = Search {
                            tables: with_fonts(
                                objects,
                                fonts_in(objects, resources),
                                before.tables,
                            ),
                            seen: before.seen.push(id),
                        };
                        assert(with_own.seen[before.seen.len() as int] == id);
                        assert forall|x: (u32, u16)| before.seen.contains(x) implies
                            with_own.seen.contains(x) by {
                            let k = before.seen.index_of(x);
                            assert(with_own.seen[k] == x);
                        }
                        assert(unseen(objects, before).contains(id));
                        assert(unseen(objects, with_own).subset_of(
                            unseen(objects, before).remove(id),
                        ));
                        vstd::set_lib::lemma_len_subset(
                            unseen(objects, with_own),
                            unseen(objects, before).remove(id),
                        );
                        let inner = entries_under(objects, resources);
                        lemma_depth_is_enough(
                            objects,
                            (depth - 1) as nat,
                            inner,
                            inner.len() as int,
                            with_own,
                        );
                        assert(after_xobjects(objects, depth, entries, n, search)
                            == after_resources(objects, (depth - 1) as nat, resources, with_own));
                        assert(after_xobjects(objects, depth + 1, entries, n, search)
                            == after_resources(objects, depth, resources, with_own));
                    },
                    None => {},
                }
            },
            _ => {},
        }
    }
}

/// The ToUnicode tables of a document.
#[derive(Debug, Clone)]
pub struct FontCMaps {
    /// The tables by the number of the stream that holds each.
    pub by_obj_num: HashMap<u32, ToUnicodeCMap>,
}

/// Tables as they are held, as plain contents.
pub open spec fn table_contents(map: Map<u32, ToUnicodeCMap>) -> Map<u32, Table> {
    map.map_values(
        |cmap: ToUnicodeCMap| (texts(cmap.char_map@), cmap.ranges@, cmap.code_byte_length),
    )
}

/// Whether one row of bytes comes before another in the order of dictionaries.
fn is_before(a: &[u8], b: &[u8]) -> (r: bool)
    ensures
        r == bytes_before(a@, b@),
{
    let mut i: usize = 0;
    assert(a@.skip(0) =~= a@ && b@.skip(0) =~= b@);
    loop
        invariant
            i <= a@.len(),
            i <= b@.len(),
            bytes_before(a@.skip(i as int), b@.skip(i as int)) == bytes_before(a@, b@),
        decreases a@.len() - i,
    {
        if i >= b.len() {
            return false;
        }
        if i >= a.len() {
            return true;
        }
        if a[i] != b[i] {
            return a[i] < b[i];
        }
        assert(a@.skip(i as int).skip(1) =~= a@.skip(i + 1));
        assert(b@.skip(i as int).skip(1) =~= b@.skip(i + 1));
        i = i + 1;
    }
}

proof fn lemma_with_named_split(
    head: Seq<(Seq<u8>, Entries)>,
    tail: Seq<(Seq<u8>, Entries)>,
    name: Seq<u8>,
    font: Entries,
)
    requires
        forall|k: int|
            0 <= k < tail.len() ==> !bytes_before((#[trigger] tail[k]).0, name) && tail[k].0
                != name,
    ensures
        with_named(head + tail, name, font) == with_named(head, name, font) + tail,
    decreases tail.len(),
{
    if tail.len() == 0 {
        assert(head + tail =~= head);
        assert(with_named(head, name, font) + tail =~= with_named(head, name, font));
    } else {
        let all = head + tail;
        assert(all.last() == tail.last());
        assert(all.drop_last() =~= head + tail.drop_last());
        lemma_with_named_split(head, tail.drop_last(), name, font);
        assert(with_named(all, name, font) =~= with_named(head, name, font) + tail);
    }
}

/// Puts a font into a row of fonts that is in the order of their names.
pub(crate) fn insert_named<'a>(
    fonts: &mut Vec<(Vec<u8>, &'a lopdf::Dictionary)>,
    name: &Vec<u8>,
    font: &'a lopdf::Dictionary,
)
    ensures
        listed_fonts(final(fonts)@) == with_named(
            listed_fonts(old(fonts)@),
            name@,
            dictionary_entries(*font),
        ),
{
    let mut p: usize = fonts.len();
    let mut same: bool = false;
    while p > 0
        invariant_except_break
            !same,
        invariant
            p <= fonts@.len(),
            forall|k: int|
                p <= k < fonts@.len() ==> !bytes_before((#[trigger] fonts@[k]).0@, name@)
                    && fonts@[k].0@ != name@,
        ensures
            same ==> p > 0 && fonts@[p - 1].0@ == name@ && !bytes_before(fonts@[p - 1].0@, name@),
            !same ==> p == 0 || bytes_before(fonts@[p - 1].0@, name@),
        decreases p,
    {
        if is_before(fonts[p - 1].0.as_slice(), name.as_slice()) {
            break;
        }
        if same_bytes(fonts[p - 1].0.as_slice(), name.as_slice()) {
            same = true;
            break;
        }
        p = p - 1;
    }
    let ghost before = listed_fonts(fonts@);
    let ghost head = before.take(p as int);
    let ghost tail = before.skip(p as int);
    proof {
        assert(before =~= head + tail);
        assert forall|k: int| 0 <= k < tail.len() implies !bytes_before((#[trigger] tail[k]).0, name@)
            && tail[k].0 != name@ by {
            assert(tail[k].0 == fonts@[p + k].0@);
        }
        lemma_with_named_split(head, tail, name@, dictionary_entries(*font));
        if p > 0 {
            assert(head.last().0 == fonts@[p - 1].0@);
        }
    }
    let copy = name.clone();
    assert(copy@ =~= name@);
    if same {
        fonts.remove(p - 1);
        fonts.insert(p - 1, (copy, font));
        assert(listed_fonts(fonts@) =~= head.drop_last().push((name@, dictionary_entries(*font)))
            + tail);
    } else {
        fonts.insert(p, (copy, font));
        assert(listed_fonts(fonts@) =~= head.push((name@, dictionary_entries(*font))) + tail);
    }
}

/// The fonts in a resource dictionary, in the order of their names.
pub(crate) fn collect_fonts<'a>(
    doc: &'a lopdf::Document,
    resources: &'a lopdf::Dictionary,
) -> (r: Vec<(Vec<u8>, &'a lopdf::Dictionary)>)
    ensures
        listed_fonts(r@) == fonts_in(document_objects(*doc), dictionary_entries(*resources)),
{
    let mut fonts: Vec<(Vec<u8>, &'a lopdf::Dictionary)> = Vec::new();
    assert(listed_fonts(fonts@) =~= seq![]);
    match get_dict_under(doc, resources, "Font") {
        Some(dict) => {
            let list = dict_entries(dict);
            let ghost entries = dictionary_entries(*dict);
            let ghost objects = document_objects(*doc);
            let mut i: usize = 0;
            while i < list.len()
                invariant
                    i <= list@.len(),
                    objects == document_objects(*doc),
                    listed_entries(list@) == entries,
                    listed_fonts(fonts@) == named_fonts(objects, entries, i as int),
                decreases list@.len() - i,
            {
                let (name, value) = list[i];
                assert(entries[i as int] == (name@, object_value(*value)));
                match resolve_dict(doc, value) {
                    Some(font) => {
                        insert_named(&mut fonts, name, font);
                    },
                    None => {},
                }
                i = i + 1;
            }
            assert(entries.len() == list@.len());
        },
        None => {},
    }
    fonts
}

impl FontCMaps {
    /// The contents of the tables.
    pub open spec fn contents(self) -> Map<u32, Table> {
        table_contents(self.by_obj_num@)
    }

    /// Each table can be searched.
    pub open spec fn wf(self) -> bool {
        forall|k: u32| #[trigger]
            self.by_obj_num@.dom().contains(k) ==> self.by_obj_num@[k].wf()
    }

    /// Adds the tables of a row of fonts.
    fn collect_cmaps_from_fonts(
        &mut self,
        doc: &lopdf::Document,
        fonts: &Vec<(Vec<u8>, &lopdf::Dictionary)>,
    )
        requires
            old(self).wf(),
        ensures
            final(self).wf(),
            final(self).contents() == with_fonts(
                document_objects(*doc),
                listed_fonts(fonts@),
                old(self).contents(),
            ),
    {
        let ghost objects = document_objects(*doc);
        let ghost all = listed_fonts(fonts@);
        let ghost start = self.contents();
        let mut i: usize = 0;
        assert(all.take(0) =~= seq![]);
        while i < fonts.len()
            invariant
                i <= fonts@.len(),
                objects == document_objects(*doc),
                all == listed_fonts(fonts@),
                self.wf(),
                self.contents() == with_fonts(objects, all.take(i as int), start),
            decreases fonts@.len() - i,
        {
            let ghost before = self.contents();
            assert(all.take(i + 1).drop_last() =~= all.take(i as int));
            assert(all.take(i + 1).last() == all[i as int]);
            let font = fonts[i].1;
            self.collect_cmap(doc, font);
            i = i + 1;
        }
        assert(all.take(i as int) =~= all);
    }

    /// Adds the table of a font.
    fn collect_cmap(&mut self, doc: &lopdf::Document, font: &lopdf::Dictionary)
        requires
            old(self).wf(),
        ensures
            final(self).wf(),
            final(self).contents() == with_font(
                document_objects(*doc),
                dictionary_entries(*font),
                old(self).contents(),
            ),
    {
        let id: (u32, u16) = match dict_get(font, "ToUnicode") {
            Some(object) => match shape_of(object) {
                Shape::Reference(id) => id,
                _ => {
                    return ;
                },
            },
            None => {
                return ;
            },
        };
        if self.by_obj_num.contains_key(&id.0) {
            return ;
        }
        let stream = match get_stream(doc, id) {
            Some(s) => s,
            None => {
                return ;
            },
        };
        let data = match undo_filters(stream) {
            Some(d) => d,
            None => {
                return ;
            },
        };
        match ToUnicodeCMap::parse(data.as_slice()) {
            Some(cmap) => {
                let ghost before = self.contents();
                let ghost table = (texts(cmap.char_map@), cmap.ranges@, cmap.code_byte_length);
                self.by_obj_num.insert(id.0, cmap);
                assert(self.contents() =~= before.insert(id.0, table));
            },
            None => {},
        }
    }

    /// Adds the tables of the forms in a resource dictionary, down to the given depth.
    fn walk_xobject_fonts(
        &mut self,
        doc: &lopdf::Document,
        resources: &lopdf::Dictionary,
        depth: usize,
        visited: &mut Vec<(u32, u16)>,
    )
        requires
            old(self).wf(),
        ensures
            final(self).wf(),
            (Search { tables: final(self).contents(), seen: final(visited)@ }) == after_resources(
                document_objects(*doc),
                depth as nat,
                dictionary_entries(*resources),
                (Search { tables: old(self).contents(), seen: old(visited)@ }),
            ),
        decreases depth,
    {
        let ghost objects = document_objects(*doc);
        let ghost start = Search { tables: self.contents(), seen: visited@ };
        let xobjects = match get_dict_under(doc, resources, "XObject") {
            Some(d) => d,
            None => {
                return ;
            },
        };
        let list = dict_entries(xobjects);
        let ghost entries = dictionary_entries(*xobjects);
        let mut i: usize = 0;
        while i < list.len()
            invariant
                i <= list@.len(),
                objects == document_objects(*doc),
                listed_entries(list@) == entries,
                self.wf(),
                (Search { tables: self.contents(), seen: visited@ }) == after_xobjects(
                    objects,
                    depth as nat,
                    entries,
                    i as int,
                    start,
                ),
            decreases list@.len() - i,
        {
            let value = list[i].1;
            assert(entries[i as int].1 == object_value(*value));
            i = i + 1;
            let id: (u32, u16) = match shape_of(value) {
                Shape::Reference(id) => id,
                _ => {
                    continue;
                },
            };
            if contains_id(visited, id) {
                continue;
            }
            visited.push(id);
            let form = match form_dictionary(doc, id) {
                Some(d) => d,
                None => {
                    continue;
                },
            };
            let fonts = collect_fonts(doc, form);
            self.collect_cmaps_from_fonts(doc, &fonts);
            if depth > 0 {
                self.walk_xobject_fonts(doc, form, depth - 1, visited);
            }
        }
        assert(entries.len() == list@.len());
    }

    /// Adds the tables of the forms that a page uses.
    fn collect_cmaps_from_xobjects(
        &mut self,
        doc: &lopdf::Document,
        page: (u32, u16),
        depth: usize,
    )
        requires
            old(self).wf(),
        ensures
            final(self).wf(),
            final(self).contents() == with_page_forms(
                document_objects(*doc),
                depth as nat,
                page,
                old(self).contents(),
            ),
    {
        let ghost objects = document_objects(*doc);
        let (own, ids) = match find_page_resources(doc, page) {
            Some(r) => r,
            None => {
                return ;
            },
        };
        let mut visited: Vec<(u32, u16)> = Vec::new();
        assert(visited@ =~= seq![]);
        match own {
            Some(resources) => {
                self.walk_xobject_fonts(doc, resources, depth, &mut visited);
            },
            None => {},
        }
        let ghost first = Search { tables: self.contents(), seen: visited@ };
        let mut i: usize = 0;
        while i < ids.len()
            invariant
                i <= ids@.len(),
                objects == document_objects(*doc),
                self.wf(),
                (Search { tables: self.contents(), seen: visited@ }) == after_resource_ids(
                    objects,
                    depth as nat,
                    ids@,
                    i as int,
                    first,
                ),
            decreases ids@.len() - i,
        {
            match get_dictionary(doc, ids[i]) {
                Some(resources) => {
                    self.walk_xobject_fonts(doc, resources, depth, &mut visited);
                },
                None => {},
            }
            i = i + 1;
        }
    }

    /// Collects the ToUnicode tables of a document: on each page those of its fonts, then those
    /// of the fonts in the forms that it uses. A form inside a form is followed as far down as the
    /// document has objects.
    pub fn from_doc(doc: &lopdf::Document) -> (r: Self)
        ensures
            r.wf(),
            r.contents() == tables_of_pages(
                document_objects(*doc),
                document_objects(*doc).dom().len(),
                known_pages(document_objects(*doc), document_trailer(*doc)),
                known_pages(document_objects(*doc), document_trailer(*doc)).len() as int,
            ),
    {
        let ghost objects = document_objects(*doc);
        let depth: usize = object_count(doc);
        let pages = find_pages(doc);
        let mut maps = FontCMaps { by_obj_num: HashMap::new() };
        assert(maps.contents() =~= Map::empty());
        let mut i: usize = 0;
        while i < pages.len()
            invariant
                i <= pages@.len(),
                objects == document_objects(*doc),
                maps.wf(),
                maps.contents() == tables_of_pages(objects, depth as nat, pages@, i as int),
            decreases pages@.len() - i,
        {
            let page: (u32, u16) = pages[i].1;
            let fonts = match find_page_fonts(doc, page) {
                Some(f) => f,
                None => Vec::new(),
            };
            assert(listed_fonts(fonts@) =~= page_fonts(objects, page));
            maps.collect_cmaps_from_fonts(doc, &fonts);
            maps.collect_cmaps_from_xobjects(doc, page, depth);
            i = i + 1;
        }
        maps
    }

    /// The table that the stream with the given number holds.
    pub fn get_by_obj(&self, obj_num: u32) -> (r: Option<&ToUnicodeCMap>)
        ensures
            r == if self.by_obj_num@.dom().contains(obj_num) {
                Some(&self.by_obj_num@[obj_num])
            } else {
                None
            },
    {
        self.by_obj_num.get(&obj_num)
    }
}

/// Whether the row holds the object number.
fn contains_id(ids: &Vec<(u32, u16)>, id: (u32, u16)) -> (r: bool)
    ensures
        r == ids@.contains(id),
{
    let mut i: usize = 0;
    while i < ids.len()
        invariant
            i <= ids@.len(),
            forall|k: int| 0 <= k < i ==> ids@[k] != id,
        decreases ids@.len() - i,
    {
        if ids[i].0 == id.0 && ids[i].1 == id.1 {
            assert(ids@[i as int] == id);
            return true;
        }
        i = i + 1;
    }
    false
}

/// The resources that a form holds itself.
fn form_dictionary<'a>(doc: &'a lopdf::Document, id: (u32, u16)) -> (r: Option<
    &'a lopdf::Dictionary,
>)
    ensures
        r is None <==> form_resources(document_objects(*doc), id) is None,
        r is Some ==> form_resources(document_objects(*doc), id) == Some(
            dictionary_entries(*r->0),
        ),
{
    let stream = match get_stream(doc, id) {
        Some(s) => s,
        None => {
            return None;
        },
    };
    let dict = stream_parts(stream).0;
    let is_form: bool = match dict_get(dict, "Subtype") {
        Some(object) => match shape_of(object) {
            Shape::Name(name) => is_name(name.as_slice(), "Form"),
            _ => false,
        },
        None => false,
    };
    if !is_form {
        return None;
    }
    match dict_get(dict, "Resources") {
        Some(object) => match shape_of(object) {
            Shape::Dictionary(d) => Some(d),
            _ => None,
        },
        None => None,
    }
}

impl Default for FontCMaps {
    fn default() -> (r: Self)
        ensures
            r.by_obj_num@ == Map::<u32, ToUnicodeCMap>::empty(),
    {
        FontCMaps { by_obj_num: HashMap::new() }
    }
}

} // verus!
