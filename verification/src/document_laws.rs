//! How lines, blocks and pieces make a document: laws on where each stands.

use crate::classify::{is_item, item_markdown, looks_like_code};
use crate::convert::{
    block_keys, block_slot, document_markdown, held_items, image_blocks, pages_of, stands_before,
    table_blocks, Block, DocLine, PageTable, Pages, Style,
};
use crate::layout::Spot;
use crate::markdown::{drafted, image_text, lines_from, markdown_of, rows_markdown, Draft};
use crate::markdown_laws::line_markdown;
use crate::numbers::order_of;
use crate::ordering::{indices, sorted_by_keys, with_index};
use crate::tables::cell_contents;
use crate::text::{char_from, lemma_char_from, trimmed};
use vstd::prelude::*;

verus! {

// ---------------------------------------------------------------------------------------------
// Blocks among lines
// ---------------------------------------------------------------------------------------------

/// What is written for the first `n` lines of a page where code is not detected.
pub open spec fn lines_markdown(lines: Seq<DocLine>, style: Style, n: int) -> Seq<char>
    decreases n,
{
    if n <= 0 {
        seq![]
    } else {
        lines_markdown(lines, style, n - 1) + line_markdown(lines[n - 1], style)
    }
}

/// What is written for a block: a line break, its Markdown, and a line break behind it.
pub open spec fn own_markdown(block: Block) -> Seq<char> {
    seq!['\n'] + block.markdown@ + seq!['\n']
}

proof fn lemma_slot(lines: Seq<DocLine>, block: Spot, i: int, at: int)
    requires
        0 <= i <= at <= lines.len(),
        forall|k: int| 0 <= k < at ==> !stands_before(block, (#[trigger] lines[k]).spot),
        at < lines.len() ==> stands_before(block, lines[at].spot),
    ensures
        block_slot(lines, block, i) == at,
    decreases at - i,
{
    if i < at {
        lemma_slot(lines, block, i + 1, at);
    }
}

proof fn lemma_order_of_one(block: Block)
    ensures
        sorted_by_keys(indices(1), block_keys(seq![block])) == seq![0usize],
{
    reveal_with_fuel(sorted_by_keys, 2);
    assert(indices(1) =~= seq![0usize]);
    assert(indices(1).drop_last() =~= Seq::<usize>::empty());
    assert(sorted_by_keys(indices(1), block_keys(seq![block])) =~= seq![0usize]);
}

proof fn lemma_line_is_written(pages: Pages, line: DocLine, style: Style)
    requires
        !style.code,
        !pages.in_code,
        pages.page is None || pages.page == Some(line.spot.page),
    ensures
        pages.with(line, style).text == pages.text + line_markdown(line, style),
        !pages.with(line, style).in_code,
        pages.with(line, style).page == Some(line.spot.page),
{
    let t = trimmed(line.text@);
    let level = crate::classify::header_level(line.size, style.base, style.tiers);
    assert(pages.on_page(line.spot.page, style.markers).text == pages.text);
    if style.headers && level is Some {
        assert(crate::convert::hashes(level->0 as nat) =~= Seq::new(
            level->0 as nat,
            |i: int| '#',
        ));
    }
    assert(pages.with(line, style).text =~= pages.text + line_markdown(line, style));
}

proof fn lemma_block_is_written(pages: Pages, block: Block, markers: bool)
    requires
        !pages.in_code,
        pages.page is None || pages.page == Some(block.spot.page),
    ensures
        pages.with_block(block, markers).text == pages.text + own_markdown(block),
        !pages.with_block(block, markers).in_code,
        pages.with_block(block, markers).page == Some(block.spot.page),
{
    assert(pages.on_page(block.spot.page, markers).text == pages.text);
    assert(pages.with_block(block, markers).text =~= pages.text + own_markdown(block));
}

proof fn lemma_lines_around_a_block(
    lines: Seq<DocLine>,
    block: Block,
    style: Style,
    at: int,
    n: int,
)
    requires
        !style.code,
        0 <= n <= lines.len(),
        0 <= at <= lines.len(),
        block_slot(lines, block.spot, 0) == at,
        forall|k: int| 0 <= k < lines.len() ==> (#[trigger] lines[k]).spot.page == block.spot.page,
    ensures
        ({
            let r = pages_of(lines, seq![block], seq![0usize], style, n);
            &&& !r.in_code
            &&& n == 0 ==> r.page is None
            &&& r.page is None || r.page == Some(block.spot.page)
            &&& r.text == if n <= at {
                lines_markdown(lines, style, n)
            } else {
                lines_markdown(lines, style, at) + own_markdown(block) + lines_between(
                    lines,
                    style,
                    at,
                    n,
                )
            }
        }),
    decreases n,
{
    reveal_with_fuel(Pages::with_blocks, 2);
    if n > 0 {
        lemma_lines_around_a_block(lines, block, style, at, n - 1);
        let before = pages_of(lines, seq![block], seq![0usize], style, n - 1);
        let line = lines[n - 1];
        assert(line.spot.page == block.spot.page);
        let mid = before.with_blocks(lines, seq![block], seq![0usize], 1, n - 1, style.markers);
        if n - 1 == at {
            lemma_block_is_written(before, block, style.markers);
            assert(mid == before.with_block(block, style.markers));
        } else {
            assert(mid == before);
        }
        lemma_line_is_written(mid, line, style);
        let r = pages_of(lines, seq![block], seq![0usize], style, n);
        assert(r == mid.with(line, style));
        if n - 1 == at {
            reveal_with_fuel(lines_between, 2);
            assert(r.text =~= lines_markdown(lines, style, at) + own_markdown(block) + lines_between(
                lines,
                style,
                at,
                n,
            ));
        } else if n > at {
            assert(r.text =~= lines_markdown(lines, style, at) + own_markdown(block) + lines_between(
                lines,
                style,
                at,
                n,
            ));
        }
    }
}

/// What is written for the lines from `from` up to but without `n`.
pub open spec fn lines_between(lines: Seq<DocLine>, style: Style, from: int, n: int) -> Seq<char>
    decreases n - from,
{
    if n <= from {
        seq![]
    } else {
        lines_between(lines, style, from, n - 1) + line_markdown(lines[n - 1], style)
    }
}

/// A block stands right before the first line of its page that is not above it, and behind all lines
/// where there is none; what is written for the lines before and behind it is as without it.
pub proof fn lemma_blocks_stand_among_lines(
    lines: Seq<DocLine>,
    block: Block,
    style: Style,
    at: int,
)
    requires
        !style.code,
        0 <= at <= lines.len(),
        forall|k: int| 0 <= k < lines.len() ==> (#[trigger] lines[k]).spot.page == block.spot.page,
        forall|k: int|
            0 <= k < at ==> order_of((#[trigger] lines[k]).spot.y) > order_of(block.spot.y),
        at < lines.len() ==> order_of(lines[at].spot.y) <= order_of(block.spot.y),
    ensures
        document_markdown(lines, seq![block], style) == lines_markdown(lines, style, at)
            + own_markdown(block) + lines_between(lines, style, at, lines.len() as int),
{
    let n = lines.len() as int;
    lemma_order_of_one(block);
    assert forall|k: int| 0 <= k < at implies !stands_before(
        block.spot,
        (#[trigger] lines[k]).spot,
    ) by {
        assert(lines[k].spot.page == block.spot.page);
    }
    if at < n {
        assert(lines[at].spot.page == block.spot.page);
    }
    lemma_slot(lines, block.spot, 0, at);
    lemma_lines_around_a_block(lines, block, style, at, n);
    reveal_with_fuel(Pages::with_blocks, 2);
    let all = pages_of(lines, seq![block], seq![0usize], style, n);
    if at == n {
        lemma_block_is_written(all, block, style.markers);
        let none = Seq::<char>::empty();
        assert(lines_markdown(lines, style, at) + own_markdown(block) + none =~= lines_markdown(
            lines,
            style,
            at,
        ) + own_markdown(block));
    }
}

/// Blocks come from top to bottom, in whatever order they are given, and page by page.
pub proof fn lemma_blocks_come_in_order(a: Block, b: Block, style: Style)
    requires
        a.spot.page == b.spot.page,
        order_of(a.spot.y) > order_of(b.spot.y),
    ensures
        document_markdown(seq![], seq![a, b], style) == own_markdown(a) + own_markdown(b),
        document_markdown(seq![], seq![b, a], style) == own_markdown(a) + own_markdown(b),
{
    lemma_two_blocks(seq![a, b], 0, 1, style);
    lemma_two_blocks(seq![b, a], 1, 0, style);
}

proof fn lemma_two_blocks(blocks: Seq<Block>, first: int, second: int, style: Style)
    requires
        blocks.len() == 2,
        (first == 0 && second == 1) || (first == 1 && second == 0),
        blocks[first].spot.page == blocks[second].spot.page,
        order_of(blocks[first].spot.y) > order_of(blocks[second].spot.y),
    ensures
        document_markdown(seq![], blocks, style) == own_markdown(blocks[first]) + own_markdown(
            blocks[second],
        ),
{
    let none = Seq::<DocLine>::empty();
    let keys = block_keys(blocks);
    let order = sorted_by_keys(indices(2), keys);
    assert(indices(2) =~= seq![0usize, 1usize]);
    assert(indices(2).drop_last() =~= seq![0usize]);
    assert(seq![0usize].drop_last() =~= Seq::<usize>::empty());
    reveal_with_fuel(sorted_by_keys, 3);
    reveal_with_fuel(with_index, 3);
    assert(sorted_by_keys(seq![0usize], keys) =~= seq![0usize]);
    assert(order =~= seq![first as usize, second as usize]);
    reveal_with_fuel(Pages::with_blocks, 3);
    assert(block_slot(none, blocks[first].spot, 0) == 0);
    assert(block_slot(none, blocks[second].spot, 0) == 0);
    let start = Pages { text: seq![], in_code: false, page: None };
    lemma_block_is_written(start, blocks[first], style.markers);
    let one = start.with_block(blocks[first], style.markers);
    lemma_block_is_written(one, blocks[second], style.markers);
    assert(start.text + own_markdown(blocks[first]) =~= own_markdown(blocks[first]));
}

/// A table stands at the height of its first row, on its page, and is written with all its rows; an image
/// stands where its piece does. The pieces that tables hold are those of all tables.
pub proof fn lemma_where_blocks_stand(
    tables: Seq<PageTable>,
    k: int,
    spots: Seq<Spot>,
    texts: Seq<Seq<char>>,
    images: Seq<usize>,
    i: int,
    n: int,
    item: usize,
)
    requires
        0 <= k < tables.len(),
        0 <= i < images.len(),
        tables[k].table.rows@.len() > 0,
        0 <= k < n <= tables.len(),
    ensures
        table_blocks(tables).len() == tables.len(),
        table_blocks(tables)[k].0.page == tables[k].page,
        table_blocks(tables)[k].0.y == tables[k].table.rows@[0],
        table_blocks(tables)[k].1 == rows_markdown(
            cell_contents(tables[k].table.cells@),
            tables[k].table.cells@.len() as int,
        ),
        image_blocks(spots, texts, images).len() == images.len(),
        image_blocks(spots, texts, images)[i] == (
            spots[images[i] as int],
            image_text(texts[images[i] as int]),
        ),
        tables[k].table.item_indices@.contains(item) ==> held_items(tables, n).contains(item),
{
    if tables[k].table.item_indices@.contains(item) {
        lemma_held(tables, k, n, item);
    }
}

proof fn lemma_held(tables: Seq<PageTable>, k: int, n: int, item: usize)
    requires
        0 <= k < n <= tables.len(),
        tables[k].table.item_indices@.contains(item),
    ensures
        held_items(tables, n).contains(item),
    decreases n,
{
    let before = held_items(tables, n - 1);
    let own = tables[n - 1].table.item_indices@;
    let all = held_items(tables, n);
    if k == n - 1 {
        let j = own.index_of(item);
        assert(all[before.len() + j] == item);
    } else {
        lemma_held(tables, k, n - 1, item);
        let j = before.index_of(item);
        assert(all[j] == item);
    }
}

// ---------------------------------------------------------------------------------------------
// Plain text
// ---------------------------------------------------------------------------------------------

/// A text is cut at its line breaks: what stands before the first one is the first line, and what stands
/// behind it are the others.
pub proof fn lemma_texts_are_cut_into_lines(line: Seq<char>, rest: Seq<char>)
    requires
        forall|k: int| 0 <= k < line.len() ==> #[trigger] line[k] != '\n',
    ensures
        line.len() > 0 ==> lines_from(line, 0) == seq![line],
        lines_from(Seq::<char>::empty(), 0) == Seq::<Seq<char>>::empty(),
        lines_from(line.push('\n') + rest, 0) == seq![line] + lines_from(rest, 0),
{
    let s = line.push('\n') + rest;
    lemma_char_from(line, '\n', 0);
    lemma_char_from(s, '\n', 0);
    let e = char_from(line, '\n', 0);
    assert(e == line.len());
    assert(line.subrange(0, e) =~= line);
    let f = char_from(s, '\n', 0);
    assert(s[line.len() as int] == '\n');
    if f < line.len() {
        assert(s[f] == line[f]);
    }
    assert(f == line.len());
    assert(s.subrange(0, f) =~= line);
    assert(s =~= line.push('\n') + rest);
    lemma_lines_shift(line.push('\n'), rest, 0);
    assert(line.push('\n').len() == f + 1);
}

proof fn lemma_char_shift(front: Seq<char>, rest: Seq<char>, c: char, i: int)
    requires
        0 <= i <= rest.len(),
    ensures
        char_from(front + rest, c, front.len() + i) == front.len() + char_from(rest, c, i),
    decreases rest.len() - i,
{
    if i < rest.len() {
        assert((front + rest)[front.len() + i] == rest[i]);
        if rest[i] != c {
            lemma_char_shift(front, rest, c, i + 1);
        }
    }
}

proof fn lemma_lines_shift(front: Seq<char>, rest: Seq<char>, i: int)
    requires
        0 <= i <= rest.len(),
    ensures
        lines_from(front + rest, front.len() + i) == lines_from(rest, i),
    decreases rest.len() - i,
{
    let s = front + rest;
    let n = front.len() as int;
    lemma_char_shift(front, rest, '\n', i);
    lemma_char_from(rest, '\n', i);
    let e = char_from(rest, '\n', i);
    assert(s.subrange(n + i, n + e) =~= rest.subrange(i, e));
    if e < rest.len() {
        lemma_lines_shift(front, rest, e + 1);
    }
}

/// The Markdown of plain text grows line by line: a blank line stays blank, a list item is written as
/// Markdown where lists are detected, any other line is trimmed; each has a line break behind it.
pub proof fn lemma_plain_text_grows_by_lines(line: Seq<char>, rest: Seq<char>, lists: bool)
    requires
        forall|k: int| 0 <= k < line.len() ==> #[trigger] line[k] != '\n',
    ensures
        ({
            let t = trimmed(line);
            let own = if t.len() > 0 && lists && is_item(t) {
                item_markdown(t) + seq!['\n']
            } else {
                t + seq!['\n']
            };
            markdown_of(line.push('\n') + rest, lists, false) == own + markdown_of(
                rest,
                lists,
                false,
            )
        }),
        markdown_of(Seq::<char>::empty(), lists, false) == Seq::<char>::empty(),
{
    lemma_texts_are_cut_into_lines(line, rest);
    let start = Draft { text: seq![], in_code: false };
    let others = lines_from(rest, 0);
    let all = seq![line] + others;
    let one = start.with(line, lists, false);
    assert(all.skip(1) =~= others);
    assert(all[0] == line);
    lemma_drafts_add(others, one, lists);
    let t = trimmed(line);
    let own = if t.len() > 0 && lists && is_item(t) {
        item_markdown(t) + seq!['\n']
    } else {
        t + seq!['\n']
    };
    assert(one.text =~= own);
    assert(!one.in_code);
    lemma_drafts_add(others, start, lists);
    assert(drafted(all, start, lists, false) == drafted(others, one, lists, false));
    assert(markdown_of(rest, lists, false) == drafted(others, start, lists, false).text);
    assert(markdown_of(line.push('\n') + rest, lists, false) == drafted(all, start, lists, false).text);
}

proof fn lemma_drafts_add(lines: Seq<Seq<char>>, draft: Draft, lists: bool)
    requires
        !draft.in_code,
    ensures
        drafted(lines, draft, lists, false).text == draft.text + drafted(
            lines,
            Draft { text: seq![], in_code: false },
            lists,
            false,
        ).text,
        !drafted(lines, draft, lists, false).in_code,
    decreases lines.len(),
{
    let none = Draft { text: seq![], in_code: false };
    if lines.len() == 0 {
        assert(draft.text + none.text =~= draft.text);
    } else {
        let line = lines[0];
        let a = draft.with(line, lists, false);
        let b = none.with(line, lists, false);
        lemma_drafts_add(lines.skip(1), a, lists);
        lemma_drafts_add(lines.skip(1), b, lists);
        assert(a.text =~= draft.text + b.text);
        let rest = drafted(lines.skip(1), none, lists, false).text;
        assert(a.text + rest =~= draft.text + (b.text + rest));
    }
}

/// A line of plain text that looks like code stands between fences, where code is detected and the line
/// is no list item.
pub proof fn lemma_code_in_plain_text(line: Seq<char>, lists: bool)
    requires
        line.len() > 0,
        forall|k: int| 0 <= k < line.len() ==> #[trigger] line[k] != '\n',
        looks_like_code(trimmed(line)),
        trimmed(line).len() > 0,
        !(lists && is_item(trimmed(line))),
    ensures
        markdown_of(line, lists, true) == "```\n"@ + trimmed(line) + seq!['\n'] + "```\n"@,
        markdown_of(line, lists, false) == trimmed(line) + seq!['\n'],
{
    lemma_texts_are_cut_into_lines(line, seq![]);
    let start = Draft { text: seq![], in_code: false };
    let lines = seq![line];
    reveal_with_fuel(drafted, 2);
    assert(lines.skip(1) =~= Seq::<Seq<char>>::empty());
    assert(markdown_of(line, lists, true) =~= "```\n"@ + trimmed(line) + seq!['\n'] + "```\n"@);
    assert(markdown_of(line, lists, false) =~= trimmed(line) + seq!['\n']);
}

} // verus!
