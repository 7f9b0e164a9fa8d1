//! Markdown from the pieces of a document: images, links and text in one list.

use crate::convert::{
    are_tiers, block_contents, block_keys, block_slot, document_markdown, gather_blocks,
    heading_tiers, held_items, image_blocks, is_common_size, most_common_size, pages_of, size_count,
    style_of, table_blocks, to_markdown_from_lines, Block, DocLine, PageTable, Pages, Style,
};
use crate::layout::{lemma_filter_member, lemma_sorted_members, text_contents, Spot};
use crate::markdown::{is_free, rows_markdown, ItemType, MarkdownOptions};
use crate::ordering::{indices, sorted_by_keys};
use crate::tables::TableContent;
use vstd::prelude::*;

verus! {

/// What a piece of a document is.
#[derive(Debug, Clone, Copy, PartialEq, Eq, Structural)]
pub enum PieceKind {
    Text,
    Image,
    Link,
    FormField,
}

/// What a piece of a document is, by its type.
pub open spec fn kind_of(item: ItemType) -> PieceKind {
    match item {
        ItemType::Text => PieceKind::Text,
        ItemType::Image => PieceKind::Image,
        ItemType::Link(_) => PieceKind::Link,
        ItemType::FormField => PieceKind::FormField,
    }
}

/// What a piece of a document is, by its type.
pub fn piece_kind(item: &ItemType) -> (r: PieceKind)
    ensures
        r == kind_of(*item),
{
    match item {
        ItemType::Text => PieceKind::Text,
        ItemType::Image => PieceKind::Image,
        ItemType::Link(_) => PieceKind::Link,
        ItemType::FormField => PieceKind::FormField,
    }
}

/// A piece of a document: what it is, the size of its font in hundredths of a point, and its number,
/// under which its place and its text are found.
#[derive(Debug, Clone, Copy, PartialEq, Eq, Structural)]
pub struct DocPiece {
    pub kind: PieceKind,
    pub size: u32,
    pub id: usize,
}

/// A rectangle that a page draws: its page, its corner, its width and its height, the real numbers by
/// their bits.
#[derive(Debug, Clone, Copy, PartialEq, Eq, Structural)]
pub struct DocRect {
    pub page: u32,
    pub x: u32,
    pub y: u32,
    pub width: u32,
    pub height: u32,
}

/// Whether a piece is text.
pub open spec fn is_text_piece() -> spec_fn(DocPiece) -> bool {
    |p: DocPiece| p.kind == PieceKind::Text || p.kind == PieceKind::FormField
}

/// Whether a piece is an image to show.
pub open spec fn is_shown_image(images: bool) -> spec_fn(DocPiece) -> bool {
    |p: DocPiece| images && p.kind == PieceKind::Image
}

/// The numbers of pieces.
pub open spec fn piece_ids(pieces: Seq<DocPiece>) -> Seq<usize> {
    pieces.map_values(|p: DocPiece| p.id)
}

/// The font sizes of pieces.
pub open spec fn piece_sizes(pieces: Seq<DocPiece>) -> Seq<u32> {
    pieces.map_values(|p: DocPiece| p.size)
}

/// The pieces at the given places of a list.
pub open spec fn pieces_at(pieces: Seq<DocPiece>, at: Seq<usize>) -> Seq<DocPiece> {
    at.map_values(|k: usize| pieces[k as int])
}

/// Whether `text` is the Markdown of pieces of text and of images, by the answers of `tables` and
/// `lines`: with the tables that are found in the text and the rectangles, and the lines that the text outside of them
/// makes. Body text has the size that is given or else the most common one, and larger sizes are
/// those of headings.
pub open spec fn is_markdown_of<
    T: Fn(&Vec<DocPiece>, &Vec<DocRect>) -> Vec<PageTable>,
    L: Fn(&Vec<DocPiece>, u32, &Vec<u32>) -> Vec<DocLine>,
>(
    text: Seq<char>,
    texts: Seq<DocPiece>,
    images: Seq<DocPiece>,
    spots: Seq<Spot>,
    names: Seq<Seq<char>>,
    options: MarkdownOptions,
    rects: Seq<DocRect>,
    tables: T,
    lines: L,
) -> bool {
    exists|
        given: Vec<DocPiece>,
        drawn: Vec<DocRect>,
        found: Vec<PageTable>,
        rest: Vec<DocPiece>,
        base: u32,
        tiers: Vec<u32>,
        made: Vec<DocLine>,
        blocks: Vec<Block>,
    |
        {
            &&& given@ == texts
            &&& drawn@ == rects
            &&& #[trigger] tables.ensures((&given, &drawn), found)
            &&& match options.base_font_size {
                Some(size) => base == size,
                None => is_common_size(piece_sizes(texts), base),
            }
            &&& are_tiers(piece_sizes(texts), base, tiers@)
            &&& block_contents(blocks@) == image_blocks(spots, names, piece_ids(images))
                + table_blocks(found@)
            &&& rest@ == pieces_at(
                texts,
                indices(texts.len()).filter(is_free(held_items(found@, found@.len() as int))),
            )
            &&& #[trigger] lines.ensures((&rest, base, &tiers), made)
            &&& text == #[trigger] document_markdown(made@, blocks@, style_of(base, tiers@, options))
        }
}

/// Picks the pieces of text, or the images to show.
fn pick_pieces(pieces: &Vec<DocPiece>, images: bool, texts: bool) -> (r: Vec<DocPiece>)
    requires
        !(images && texts),
    ensures
        texts ==> r@ == pieces@.filter(is_text_piece()),
        !texts ==> r@ == pieces@.filter(is_shown_image(images)),
{
    let ghost wanted = if texts {
        is_text_piece()
    } else {
        is_shown_image(images)
    };
    let mut out: Vec<DocPiece> = Vec::new();
    let mut i: usize = 0;
    assert(pieces@.take(0).filter(wanted) =~= seq![]) by {
        reveal(Seq::filter);
    }
    while i < pieces.len()
        invariant
            i <= pieces@.len(),
            wanted == if texts {
                is_text_piece()
            } else {
                is_shown_image(images)
            },
            out@ == pieces@.take(i as int).filter(wanted),
        decreases pieces@.len() - i,
    {
        assert(pieces@.take(i + 1).drop_last() =~= pieces@.take(i as int));
        reveal(Seq::filter);
        let piece: DocPiece = pieces[i];
        let is_wanted: bool = match piece.kind {
            PieceKind::Text => texts,
            PieceKind::FormField => texts,
            PieceKind::Image => images && !texts,
            PieceKind::Link => false,
        };
        if is_wanted {
            out.push(piece);
        }
        i = i + 1;
    }
    assert(pieces@.take(i as int) =~= pieces@);
    out
}

/// What a filter leaves is among what it was given.
proof fn lemma_picked(pieces: Seq<DocPiece>, wanted: spec_fn(DocPiece) -> bool, i: int)
    requires
        0 <= i < pieces.filter(wanted).len(),
    ensures
        pieces.contains(pieces.filter(wanted)[i]),
    decreases pieces.len(),
{
    reveal(Seq::filter);
    if pieces.len() > 0 {
        let rest = pieces.drop_last();
        if i < rest.filter(wanted).len() {
            lemma_picked(rest, wanted, i);
            let j = choose|j: int| 0 <= j < rest.len() && rest[j] == rest.filter(wanted)[i];
            assert(pieces[j] == pieces.filter(wanted)[i]);
        } else {
            assert(pieces[pieces.len() - 1] == pieces.filter(wanted)[i]);
        }
    }
}

/// Writes the pieces of a document as Markdown, without rectangles.
pub fn to_markdown_from_pieces<
    T: Fn(&Vec<DocPiece>, &Vec<DocRect>) -> Vec<PageTable>,
    L: Fn(&Vec<DocPiece>, u32, &Vec<u32>) -> Vec<DocLine>,
>(
    pieces: &Vec<DocPiece>,
    spots: &Vec<Spot>,
    names: &Vec<String>,
    options: &MarkdownOptions,
    tables: T,
    lines: L,
) -> (r: String)
    requires
        spots@.len() == names@.len(),
        forall|i: int| 0 <= i < pieces@.len() ==> (#[trigger] pieces@[i]).id < spots@.len(),
        forall|p: &Vec<DocPiece>, rects: &Vec<DocRect>| tables.requires((p, rects)),
        forall|p: &Vec<DocPiece>, base: u32, tiers: &Vec<u32>| lines.requires((p, base, tiers)),
    ensures
        is_markdown_of(
            r@,
            pieces@.filter(is_text_piece()),
            pieces@.filter(is_shown_image(options.include_images)),
            spots@,
            text_contents(names@),
            *options,
            seq![],
            tables,
            lines,
        ),
{
    let none: Vec<DocRect> = Vec::new();
    assert(none@ =~= seq![]);
    to_markdown_from_pieces_with_rects(pieces, spots, names, options, &none, tables, lines)
}

/// Writes the pieces of a document as Markdown. `spots` and `names` hold the place and the text of
/// each piece under its number. `tables` finds the tables in pieces of text and rectangles; the numbers
/// of pieces in a table are their places in the list. `lines` puts pieces of text into lines, by the
/// size of body text and the sizes of headings.
pub fn to_markdown_from_pieces_with_rects<
    T: Fn(&Vec<DocPiece>, &Vec<DocRect>) -> Vec<PageTable>,
    L: Fn(&Vec<DocPiece>, u32, &Vec<u32>) -> Vec<DocLine>,
>(
    pieces: &Vec<DocPiece>,
    spots: &Vec<Spot>,
    names: &Vec<String>,
    options: &MarkdownOptions,
    rects: &Vec<DocRect>,
    tables: T,
    lines: L,
) -> (r: String)
    requires
        spots@.len() == names@.len(),
        forall|i: int| 0 <= i < pieces@.len() ==> (#[trigger] pieces@[i]).id < spots@.len(),
        forall|p: &Vec<DocPiece>, rects: &Vec<DocRect>| tables.requires((p, rects)),
        forall|p: &Vec<DocPiece>, base: u32, tiers: &Vec<u32>| lines.requires((p, base, tiers)),
    ensures
        is_markdown_of(
            r@,
            pieces@.filter(is_text_piece()),
            pieces@.filter(is_shown_image(options.include_images)),
            spots@,
            text_contents(names@),
            *options,
            rects@,
            tables,
            lines,
        ),
{
    let texts: Vec<DocPiece> = pick_pieces(pieces, false, true);
    let images: Vec<DocPiece> = pick_pieces(pieces, options.include_images, false);
    let mut ids: Vec<usize> = Vec::new();
    let mut i: usize = 0;
    while i < images.len()
        invariant
            i <= images@.len(),
            ids@ == piece_ids(images@).take(i as int),
            images@ == pieces@.filter(is_shown_image(options.include_images)),
            forall|k: int| 0 <= k < pieces@.len() ==> (#[trigger] pieces@[k]).id < spots@.len(),
            forall|k: int| 0 <= k < i ==> (#[trigger] ids@[k]) < spots@.len(),
        decreases images@.len() - i,
    {
        proof {
            lemma_picked(pieces@, is_shown_image(options.include_images), i as int);
        }
        ids.push(images[i].id);
        i = i + 1;
        assert(ids@ =~= piece_ids(images@).take(i as int));
    }
    assert(ids@ =~= piece_ids(images@));
    let mut sizes: Vec<u32> = Vec::new();
    let mut s: usize = 0;
    while s < texts.len()
        invariant
            s <= texts@.len(),
            sizes@ == piece_sizes(texts@).take(s as int),
        decreases texts@.len() - s,
    {
        sizes.push(texts[s].size);
        s = s + 1;
        assert(sizes@ =~= piece_sizes(texts@).take(s as int));
    }
    assert(sizes@ =~= piece_sizes(texts@));
    let base: u32 = match options.base_font_size {
        Some(size) => size,
        None => most_common_size(&sizes),
    };
    let tiers: Vec<u32> = heading_tiers(&sizes, base);
    let found: Vec<PageTable> = tables(&texts, rects);
    let (blocks, free) = gather_blocks(spots, names, &ids, &found, texts.len());
    let ghost left = indices(texts@.len()).filter(
        is_free(held_items(found@, found@.len() as int)),
    );
    let mut rest: Vec<DocPiece> = Vec::new();
    let mut k: usize = 0;
    while k < free.len()
        invariant
            k <= free@.len(),
            free@ == left,
            left == indices(texts@.len()).filter(
                is_free(held_items(found@, found@.len() as int)),
            ),
            rest@ == pieces_at(texts@, left).take(k as int),
        decreases free@.len() - k,
    {
        proof {
            lemma_filter_member(
                indices(texts@.len()),
                is_free(held_items(found@, found@.len() as int)),
                k as int,
            );
        }
        rest.push(texts[free[k]]);
        k = k + 1;
        assert(rest@ =~= pieces_at(texts@, left).take(k as int));
    }
    assert(rest@ =~= pieces_at(texts@, left));
    let made: Vec<DocLine> = lines(&rest, base, &tiers);
    let r = to_markdown_from_lines(&made, &blocks, base, &tiers, options);
    assert(tables.ensures((&texts, rects), found));
    assert(lines.ensures((&rest, base, &tiers), made));
    r
}

// ---------------------------------------------------------------------------------------------
// Laws
// ---------------------------------------------------------------------------------------------

/// Tables as they are held, as plain contents.
pub open spec fn table_models(tables: Seq<PageTable>) -> Seq<(u32, TableContent)> {
    tables.map_values(|t: PageTable| (t.page, t.table@))
}

/// Lines as they are held, as plain contents.
pub open spec fn line_models(lines: Seq<DocLine>) -> Seq<(Spot, u32, bool, Seq<char>)> {
    lines.map_values(|l: DocLine| (l.spot, l.size, l.is_mono, l.text@))
}

/// Whether the tables that are found depend on the pieces and the rectangles alone.
pub open spec fn tells_tables<T: Fn(&Vec<DocPiece>, &Vec<DocRect>) -> Vec<PageTable>>(
    tables: T,
    answer: spec_fn(Seq<DocPiece>, Seq<DocRect>) -> Seq<(u32, TableContent)>,
) -> bool {
    forall|p: &Vec<DocPiece>, rects: &Vec<DocRect>, found: Vec<PageTable>| #[trigger]
        tables.ensures((p, rects), found) ==> table_models(found@) == answer(p@, rects@)
}

/// Whether the lines that are made depend on the pieces and the sizes alone.
pub open spec fn tells_lines<L: Fn(&Vec<DocPiece>, u32, &Vec<u32>) -> Vec<DocLine>>(
    lines: L,
    answer: spec_fn(Seq<DocPiece>, u32, Seq<u32>) -> Seq<(Spot, u32, bool, Seq<char>)>,
) -> bool {
    forall|p: &Vec<DocPiece>, base: u32, tiers: &Vec<u32>, made: Vec<DocLine>| #[trigger]
        lines.ensures((p, base, tiers), made) ==> line_models(made@) == answer(p@, base, tiers@)
}

/// The same pieces and rectangles have the same Markdown, whether they are written with rectangles
/// of which there are none or without: where the tables and lines that are found depend on them alone,
/// all right answers are the same text.
pub proof fn lemma_markdown_is_determined<
    T: Fn(&Vec<DocPiece>, &Vec<DocRect>) -> Vec<PageTable>,
    L: Fn(&Vec<DocPiece>, u32, &Vec<u32>) -> Vec<DocLine>,
>(
    text: Seq<char>,
    other: Seq<char>,
    texts: Seq<DocPiece>,
    images: Seq<DocPiece>,
    spots: Seq<Spot>,
    names: Seq<Seq<char>>,
    options: MarkdownOptions,
    rects: Seq<DocRect>,
    tables: T,
    lines: L,
    found_in: spec_fn(Seq<DocPiece>, Seq<DocRect>) -> Seq<(u32, TableContent)>,
    made_of: spec_fn(Seq<DocPiece>, u32, Seq<u32>) -> Seq<(Spot, u32, bool, Seq<char>)>,
)
    requires
        tells_tables(tables, found_in),
        tells_lines(lines, made_of),
        is_markdown_of(text, texts, images, spots, names, options, rects, tables, lines),
        is_markdown_of(other, texts, images, spots, names, options, rects, tables, lines),
    ensures
        text == other,
{
    let (base1, tiers1, made1, blocks1) = lemma_parts(
        text,
        texts,
        images,
        spots,
        names,
        options,
        rects,
        tables,
        lines,
        found_in,
        made_of,
    );
    let (base2, tiers2, made2, blocks2) = lemma_parts(
        other,
        texts,
        images,
        spots,
        names,
        options,
        rects,
        tables,
        lines,
        found_in,
        made_of,
    );
    if options.base_font_size is None {
        lemma_one_common_size(piece_sizes(texts), base1, base2);
    }
    lemma_one_list_of_tiers(piece_sizes(texts), base1, tiers1, tiers2);
    lemma_markdown_by_contents(made1, made2, blocks1, blocks2, style_of(base1, tiers1, options));
}

/// The parts that a right answer is made of.
proof fn lemma_parts<
    T: Fn(&Vec<DocPiece>, &Vec<DocRect>) -> Vec<PageTable>,
    L: Fn(&Vec<DocPiece>, u32, &Vec<u32>) -> Vec<DocLine>,
>(
    text: Seq<char>,
    texts: Seq<DocPiece>,
    images: Seq<DocPiece>,
    spots: Seq<Spot>,
    names: Seq<Seq<char>>,
    options: MarkdownOptions,
    rects: Seq<DocRect>,
    tables: T,
    lines: L,
    found_in: spec_fn(Seq<DocPiece>, Seq<DocRect>) -> Seq<(u32, TableContent)>,
    made_of: spec_fn(Seq<DocPiece>, u32, Seq<u32>) -> Seq<(Spot, u32, bool, Seq<char>)>,
) -> (r: (u32, Seq<u32>, Seq<DocLine>, Seq<Block>))
    requires
        tells_tables(tables, found_in),
        tells_lines(lines, made_of),
        is_markdown_of(text, texts, images, spots, names, options, rects, tables, lines),
    ensures
        match options.base_font_size {
            Some(size) => r.0 == size,
            None => is_common_size(piece_sizes(texts), r.0),
        },
        are_tiers(piece_sizes(texts), r.0, r.1),
        block_contents(r.3) == image_blocks(spots, names, piece_ids(images)) + model_blocks(
            found_in(texts, rects),
        ),
        ({
            let found = found_in(texts, rects);
            let held = model_items(found, found.len() as int);
            line_models(r.2) == made_of(
                pieces_at(texts, indices(texts.len()).filter(is_free(held))),
                r.0,
                r.1,
            )
        }),
        text == document_markdown(r.2, r.3, style_of(r.0, r.1, options)),
        r.3.len() <= usize::MAX,
{
    let (given, drawn, found, rest, base, tiers, made, blocks) = choose|
        given: Vec<DocPiece>,
        drawn: Vec<DocRect>,
        found: Vec<PageTable>,
        rest: Vec<DocPiece>,
        base: u32,
        tiers: Vec<u32>,
        made: Vec<DocLine>,
        blocks: Vec<Block>,
    |
        {
            &&& given@ == texts
            &&& drawn@ == rects
            &&& #[trigger] tables.ensures((&given, &drawn), found)
            &&& match options.base_font_size {
                Some(size) => base == size,
                None => is_common_size(piece_sizes(texts), base),
            }
            &&& are_tiers(piece_sizes(texts), base, tiers@)
            &&& block_contents(blocks@) == image_blocks(spots, names, piece_ids(images))
                + table_blocks(found@)
            &&& rest@ == pieces_at(
                texts,
                indices(texts.len()).filter(is_free(held_items(found@, found@.len() as int))),
            )
            &&& #[trigger] lines.ensures((&rest, base, &tiers), made)
            &&& text == #[trigger] document_markdown(made@, blocks@, style_of(base, tiers@, options))
        };
    assert(table_models(found@) == found_in(texts, rects));
    assert(line_models(made@) == made_of(rest@, base, tiers@));
    assert(table_blocks(found@) =~= model_blocks(table_models(found@)));
    lemma_held_by_contents(found@, found@.len() as int);
    assert(blocks.len() == blocks@.len());
    (base, tiers@, made@, blocks@)
}

/// The blocks of tables, by their contents.
pub open spec fn model_blocks(tables: Seq<(u32, TableContent)>) -> Seq<(Spot, Seq<char>)> {
    tables.map_values(
        |t: (u32, TableContent)|
            (
                Spot {
                    page: t.0,
                    x: 0,
                    y: if t.1.rows.len() > 0 {
                        t.1.rows[0]
                    } else {
                        0
                    },
                },
                rows_markdown(t.1.cells, t.1.cells.len() as int),
            ),
    )
}

/// The pieces that the first `n` tables hold, by their contents.
pub open spec fn model_items(tables: Seq<(u32, TableContent)>, n: int) -> Seq<usize>
    decreases n,
{
    if n <= 0 {
        seq![]
    } else {
        model_items(tables, n - 1) + tables[n - 1].1.items
    }
}

proof fn lemma_held_by_contents(tables: Seq<PageTable>, n: int)
    requires
        n <= tables.len(),
    ensures
        held_items(tables, n) == model_items(table_models(tables), n),
    decreases n,
{
    if n > 0 {
        lemma_held_by_contents(tables, n - 1);
    }
}

/// There is one size that occurs most often.
proof fn lemma_one_common_size(sizes: Seq<u32>, a: u32, b: u32)
    requires
        is_common_size(sizes, a),
        is_common_size(sizes, b),
    ensures
        a == b,
{
    if sizes.len() > 0 {
        let i = choose|i: int|
            {
                &&& 0 <= i < sizes.len()
                &&& #[trigger] sizes[i] == a
                &&& forall|j: int|
                    0 <= j < sizes.len() ==> size_count(sizes, #[trigger] sizes[j]) <= size_count(
                        sizes,
                        a,
                    )
                &&& forall|j: int|
                    0 <= j < i ==> size_count(sizes, #[trigger] sizes[j]) < size_count(sizes, a)
            };
        let k = choose|i: int|
            {
                &&& 0 <= i < sizes.len()
                &&& #[trigger] sizes[i] == b
                &&& forall|j: int|
                    0 <= j < sizes.len() ==> size_count(sizes, #[trigger] sizes[j]) <= size_count(
                        sizes,
                        b,
                    )
                &&& forall|j: int|
                    0 <= j < i ==> size_count(sizes, #[trigger] sizes[j]) < size_count(sizes, b)
            };
        assert(size_count(sizes, sizes[i]) <= size_count(sizes, b));
        assert(size_count(sizes, sizes[k]) <= size_count(sizes, a));
    }
}

/// There is one list of the sizes of headings.
proof fn lemma_one_list_of_tiers(sizes: Seq<u32>, base: u32, a: Seq<u32>, b: Seq<u32>)
    requires
        are_tiers(sizes, base, a),
        are_tiers(sizes, base, b),
    ensures
        a == b,
{
    assert forall|s: u32| a.contains(s) <==> b.contains(s) by {}
    lemma_descending_lists(a, b);
}

/// Lists that go down and have the same elements are the same.
proof fn lemma_descending_lists(a: Seq<u32>, b: Seq<u32>)
    requires
        forall|i: int, j: int| 0 <= i < j < a.len() ==> #[trigger] a[i] > #[trigger] a[j],
        forall|i: int, j: int| 0 <= i < j < b.len() ==> #[trigger] b[i] > #[trigger] b[j],
        forall|s: u32| a.contains(s) <==> b.contains(s),
    ensures
        a == b,
    decreases a.len(),
{
    if a.len() == 0 {
        if b.len() > 0 {
            assert(b.contains(b[0]));
            assert(a.contains(b[0]));
        }
        assert(a =~= b);
    } else {
        assert(a.contains(a[0]));
        assert(b.contains(a[0]));
        assert(b.contains(b[0]));
        assert(a.contains(b[0]));
        let i = a.index_of(b[0]);
        let j = b.index_of(a[0]);
        assert(a[i] == b[0] && b[j] == a[0]);
        assert(a[0] == b[0]);
        let ta = a.drop_first();
        let tb = b.drop_first();
        assert forall|s: u32| ta.contains(s) <==> tb.contains(s) by {
            if ta.contains(s) {
                let k = ta.index_of(s);
                assert(a[k + 1] == s);
                assert(b.contains(s));
                let m = b.index_of(s);
                assert(m > 0);
                assert(tb[m - 1] == s);
            }
            if tb.contains(s) {
                let k = tb.index_of(s);
                assert(b[k + 1] == s);
                assert(a.contains(s));
                let m = a.index_of(s);
                assert(m > 0);
                assert(ta[m - 1] == s);
            }
        }
        lemma_descending_lists(ta, tb);
        assert(a =~= seq![a[0]] + ta);
        assert(b =~= seq![b[0]] + tb);
    }
}

/// The Markdown of lines and blocks depends on their contents.
proof fn lemma_markdown_by_contents(
    a: Seq<DocLine>,
    b: Seq<DocLine>,
    c: Seq<Block>,
    d: Seq<Block>,
    style: Style,
)
    requires
        line_models(a) == line_models(b),
        block_contents(c) == block_contents(d),
        c.len() <= usize::MAX,
    ensures
        document_markdown(a, c, style) == document_markdown(b, d, style),
{
    assert(a.len() == line_models(a).len() && b.len() == line_models(b).len());
    assert(c.len() == block_contents(c).len() && d.len() == block_contents(d).len());
    assert forall|k: int| 0 <= k < c.len() implies (#[trigger] c[k]).spot == d[k].spot
        && c[k].markdown@ == d[k].markdown@ by {
        assert(block_contents(c)[k] == block_contents(d)[k]);
    }
    assert(block_keys(c) =~= block_keys(d));
    let order = sorted_by_keys(indices(c.len()), block_keys(c));
    let n = a.len() as int;
    lemma_sorted_members(indices(c.len()), block_keys(c), c.len());
    lemma_pages_by_contents(a, b, c, d, order, style, n);
    lemma_blocks_by_contents(
        pages_of(a, c, order, style, n),
        a,
        b,
        c,
        d,
        order,
        order.len() as int,
        n,
        style.markers,
    );
}

proof fn lemma_slot_by_contents(a: Seq<DocLine>, b: Seq<DocLine>, spot: Spot, i: int)
    requires
        line_models(a) == line_models(b),
        0 <= i,
    ensures
        block_slot(a, spot, i) == block_slot(b, spot, i),
    decreases a.len() - i,
{
    assert(a.len() == line_models(a).len() && b.len() == line_models(b).len());
    if i < a.len() {
        assert(line_models(a)[i] == line_models(b)[i]);
        lemma_slot_by_contents(a, b, spot, i + 1);
    }
}

proof fn lemma_blocks_by_contents(
    pages: Pages,
    a: Seq<DocLine>,
    b: Seq<DocLine>,
    c: Seq<Block>,
    d: Seq<Block>,
    order: Seq<usize>,
    n: int,
    i: int,
    markers: bool,
)
    requires
        line_models(a) == line_models(b),
        block_contents(c) == block_contents(d),
        n <= order.len(),
        forall|k: int| 0 <= k < order.len() ==> (#[trigger] order[k]) < c.len(),
    ensures
        pages.with_blocks(a, c, order, n, i, markers) == pages.with_blocks(
            b,
            d,
            order,
            n,
            i,
            markers,
        ),
    decreases n,
{
    if n > 0 {
        lemma_blocks_by_contents(pages, a, b, c, d, order, n - 1, i, markers);
        let k = order[n - 1] as int;
        assert(c.len() == block_contents(c).len() && d.len() == block_contents(d).len());
        assert(block_contents(c)[k] == block_contents(d)[k]);
        lemma_slot_by_contents(a, b, c[k].spot, 0);
    }
}

proof fn lemma_pages_by_contents(
    a: Seq<DocLine>,
    b: Seq<DocLine>,
    c: Seq<Block>,
    d: Seq<Block>,
    order: Seq<usize>,
    style: Style,
    n: int,
)
    requires
        line_models(a) == line_models(b),
        block_contents(c) == block_contents(d),
        n <= a.len(),
        forall|k: int| 0 <= k < order.len() ==> (#[trigger] order[k]) < c.len(),
    ensures
        pages_of(a, c, order, style, n) == pages_of(b, d, order, style, n),
    decreases n,
{
    if n > 0 {
        lemma_pages_by_contents(a, b, c, d, order, style, n - 1);
        lemma_blocks_by_contents(
            pages_of(a, c, order, style, n - 1),
            a,
            b,
            c,
            d,
            order,
            order.len() as int,
            n - 1,
            style.markers,
        );
        assert(a.len() == line_models(a).len() && b.len() == line_models(b).len());
        assert(line_models(a)[n - 1] == line_models(b)[n - 1]);
    }
}

/// Images and links that are switched off change nothing: the pieces have the same Markdown as those
/// of them that are text have alone, where the tables and lines that are found depend on the pieces
/// alone.
pub proof fn lemma_hidden_pieces_change_nothing<
    T: Fn(&Vec<DocPiece>, &Vec<DocRect>) -> Vec<PageTable>,
    L: Fn(&Vec<DocPiece>, u32, &Vec<u32>) -> Vec<DocLine>,
>(
    text: Seq<char>,
    other: Seq<char>,
    pieces: Seq<DocPiece>,
    spots: Seq<Spot>,
    names: Seq<Seq<char>>,
    options: MarkdownOptions,
    rects: Seq<DocRect>,
    tables: T,
    lines: L,
    found_in: spec_fn(Seq<DocPiece>, Seq<DocRect>) -> Seq<(u32, TableContent)>,
    made_of: spec_fn(Seq<DocPiece>, u32, Seq<u32>) -> Seq<(Spot, u32, bool, Seq<char>)>,
)
    requires
        !options.include_images,
        !options.include_links,
        tells_tables(tables, found_in),
        tells_lines(lines, made_of),
        is_markdown_of(
            text,
            pieces.filter(is_text_piece()),
            pieces.filter(is_shown_image(options.include_images)),
            spots,
            names,
            options,
            rects,
            tables,
            lines,
        ),
        ({
            let kept = pieces.filter(is_text_piece());
            is_markdown_of(
                other,
                kept.filter(is_text_piece()),
                kept.filter(is_shown_image(options.include_images)),
                spots,
                names,
                options,
                rects,
                tables,
                lines,
            )
        }),
    ensures
        text == other,
{
    let kept = pieces.filter(is_text_piece());
    lemma_filter_twice(pieces, is_text_piece());
    lemma_none_picked(pieces, is_shown_image(false));
    lemma_none_picked(kept, is_shown_image(false));
    lemma_markdown_is_determined(
        text,
        other,
        kept,
        seq![],
        spots,
        names,
        options,
        rects,
        tables,
        lines,
        found_in,
        made_of,
    );
}

/// To filter twice is to filter once.
proof fn lemma_filter_twice(pieces: Seq<DocPiece>, wanted: spec_fn(DocPiece) -> bool)
    ensures
        pieces.filter(wanted).filter(wanted) == pieces.filter(wanted),
    decreases pieces.len(),
{
    reveal(Seq::filter);
    if pieces.len() > 0 {
        let rest = pieces.drop_last();
        lemma_filter_twice(rest, wanted);
        if wanted(pieces.last()) {
            let once = rest.filter(wanted);
            assert(once.push(pieces.last()).drop_last() =~= once);
        }
    }
}

/// A filter that admits nothing leaves nothing.
proof fn lemma_none_picked(pieces: Seq<DocPiece>, wanted: spec_fn(DocPiece) -> bool)
    requires
        forall|p: DocPiece| !(#[trigger] wanted(p)),
    ensures
        pieces.filter(wanted) == Seq::<DocPiece>::empty(),
    decreases pieces.len(),
{
    reveal(Seq::filter);
    if pieces.len() > 0 {
        lemma_none_picked(pieces.drop_last(), wanted);
    }
}

} // verus!
