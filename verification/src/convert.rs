//! Markdown from the lines of a document: headings by the size of their font, lists, code, and the
//! tables and images between the lines.

use crate::classify::{
    detect_header_level, format_list_item, header_level, is_code_like, is_item, is_list_item,
    item_markdown, looks_like_code,
};
use crate::layout::{text_contents, Spot};
use crate::markdown::{
    goes_on_from, image_markdown, image_text, is_free, is_line_text, lemma_goes_on, lemma_stands_on,
    push_text, rows_markdown, stands_in, table_to_markdown, unclaimed, MarkdownOptions,
};
use crate::numbers::{order_key, order_of};
use crate::ordering::{count_up, indices, lemma_sorted_by_keys, sort_by_keys, sorted_by_keys};
use crate::tables::{cell_contents, Table};
use crate::text::{chars_of, string_of, trim, trimmed};
use std::collections::HashMap;
use vstd::prelude::*;
use vstd::std_specs::hash::*;

verus! {

// ---------------------------------------------------------------------------------------------
// Font sizes
// ---------------------------------------------------------------------------------------------

/// How often a size occurs.
pub open spec fn size_count(sizes: Seq<u32>, size: u32) -> nat
    decreases sizes.len(),
{
    if sizes.len() == 0 {
        0
    } else {
        size_count(sizes.drop_last(), size) + if sizes.last() == size {
            1nat
        } else {
            0nat
        }
    }
}

/// The size that occurs most often; the first of them where there are several. Where there are no
/// sizes, 12 points.
pub open spec fn is_common_size(sizes: Seq<u32>, size: u32) -> bool {
    if sizes.len() == 0 {
        size == 1200
    } else {
        exists|i: int|
            {
                &&& 0 <= i < sizes.len()
                &&& #[trigger] sizes[i] == size
                &&& forall|j: int|
                    0 <= j < sizes.len() ==> size_count(sizes, #[trigger] sizes[j]) <= size_count(
                        sizes,
                        size,
                    )
                &&& forall|j: int|
                    0 <= j < i ==> size_count(sizes, #[trigger] sizes[j]) < size_count(sizes, size)
            }
    }
}

/// How often a size was counted.
spec fn tally(counts: Map<u32, usize>, size: u32) -> nat {
    if counts.contains_key(size) {
        counts[size] as nat
    } else {
        0
    }
}

/// Finds the size that occurs most often, in hundredths of a point.
pub fn most_common_size(sizes: &Vec<u32>) -> (r: u32)
    ensures
        is_common_size(sizes@, r),
{
    broadcast use group_hash_axioms;

    let n: usize = sizes.len();
    if n == 0 {
        return 1200;
    }
    let mut counts: HashMap<u32, usize> = HashMap::new();
    let mut i: usize = 0;
    assert(sizes@.take(0) =~= seq![]);
    while i < n
        invariant
            i <= n == sizes@.len(),
            forall|s: u32| #[trigger]
                size_count(sizes@.take(i as int), s) == tally(counts@, s),
            forall|s: u32| #[trigger] counts@.contains_key(s) ==> counts@[s] <= i,
            forall|j: int| 0 <= j < i ==> counts@.contains_key(#[trigger] sizes@[j]),
        decreases n - i,
    {
        let size: u32 = sizes[i];
        assert(sizes@.take(i + 1).drop_last() =~= sizes@.take(i as int));
        assert(sizes@.take(i + 1).last() == size);
        let before: usize = match counts.get(&size) {
            Some(c) => *c,
            None => 0,
        };
        let ghost held = counts@;
        counts.insert(size, before + 1);
        assert forall|s: u32| #[trigger]
            size_count(sizes@.take(i + 1), s) == tally(counts@, s) by {
            assert(size_count(sizes@.take(i as int), s) == tally(held, s));
        }
        i = i + 1;
    }
    assert(sizes@.take(i as int) =~= sizes@);
    assert(counts@.contains_key(sizes@[0]));
    let mut best: u32 = sizes[0];
    let mut most: usize = match counts.get(&best) {
        Some(c) => *c,
        None => 0,
    };
    let ghost mut place: int = 0;
    let mut k: usize = 1;
    while k < n
        invariant
            1 <= k <= n == sizes@.len(),
            forall|s: u32| #[trigger] size_count(sizes@, s) == tally(counts@, s),
            forall|j: int| 0 <= j < n ==> counts@.contains_key(#[trigger] sizes@[j]),
            0 <= place < k,
            sizes@[place] == best,
            most == size_count(sizes@, best),
            forall|j: int| 0 <= j < k ==> size_count(sizes@, #[trigger] sizes@[j]) <= most,
            forall|j: int| 0 <= j < place ==> size_count(sizes@, #[trigger] sizes@[j]) < most,
        decreases n - k,
    {
        let size: u32 = sizes[k];
        assert(counts@.contains_key(sizes@[k as int]));
        let count: usize = match counts.get(&size) {
            Some(c) => *c,
            None => 0,
        };
        if count > most {
            best = size;
            most = count;
            proof {
                place = k as int;
            }
        }
        k = k + 1;
    }
    assert(sizes@[place] == best);
    best
}

/// Whether tiers are the sizes of headings, the largest first: each size that is at least a fifth
/// larger than the body text, once.
pub open spec fn are_tiers(sizes: Seq<u32>, base: u32, tiers: Seq<u32>) -> bool {
    &&& forall|i: int, j: int| 0 <= i < j < tiers.len() ==> #[trigger] tiers[i] > #[trigger] tiers[j]
    &&& forall|s: u32| #[trigger]
        tiers.contains(s) <==> sizes.contains(s) && 5 * s >= 6 * base
}

/// Finds the sizes of headings, in hundredths of a point.
pub fn heading_tiers(sizes: &Vec<u32>, base: u32) -> (r: Vec<u32>)
    ensures
        are_tiers(sizes@, base, r@),
{
    let mut tiers: Vec<u32> = Vec::new();
    let mut i: usize = 0;
    while i < sizes.len()
        invariant
            i <= sizes@.len(),
            are_tiers(sizes@.take(i as int), base, tiers@),
        decreases sizes@.len() - i,
    {
        let size: u32 = sizes[i];
        let ghost before = tiers@;
        let ghost known = sizes@.take(i as int);
        let ghost now = sizes@.take(i + 1);
        assert(now =~= known.push(size));
        assert forall|s: u32| now.contains(s) <==> known.contains(s) || s == size by {
            if known.contains(s) {
                let j = choose|j: int| 0 <= j < known.len() && known[j] == s;
                assert(now[j] == s);
            }
            if s == size {
                assert(now[i as int] == s);
            }
        }
        if 5 * size as u64 >= 6 * base as u64 {
            let mut p: usize = 0;
            while p < tiers.len() && tiers[p] > size
                invariant
                    p <= tiers@.len(),
                    forall|j: int| 0 <= j < p ==> #[trigger] tiers@[j] > size,
                decreases tiers@.len() - p,
            {
                p = p + 1;
            }
            if p == tiers.len() || tiers[p] != size {
                tiers.insert(p, size);
                proof {
                    assert(tiers@ =~= before.insert(p as int, size));
                    assert forall|s: u32| #[trigger]
                        tiers@.contains(s) <==> before.contains(s) || s == size by {
                        if before.contains(s) {
                            let j = choose|j: int| 0 <= j < before.len() && before[j] == s;
                            if j < p {
                                assert(tiers@[j] == s);
                            } else {
                                assert(tiers@[j + 1] == s);
                            }
                        }
                        if s == size {
                            assert(tiers@[p as int] == s);
                        }
                        if tiers@.contains(s) && s != size {
                            let j = choose|j: int| 0 <= j < tiers@.len() && tiers@[j] == s;
                            if j < p {
                                assert(before[j] == s);
                            } else {
                                assert(before[j - 1] == s);
                            }
                        }
                    }
                }
            } else {
                assert(tiers@.contains(size));
            }
        }
        i = i + 1;
    }
    assert(sizes@.take(i as int) =~= sizes@);
    tiers
}

// ---------------------------------------------------------------------------------------------
// Lines and blocks
// ---------------------------------------------------------------------------------------------

/// A line of a document: where it stands, the size of its font in hundredths of a point, whether
/// the font is monospaced, and its text.
#[derive(Debug, Clone)]
pub struct DocLine {
    pub spot: Spot,
    pub size: u32,
    pub is_mono: bool,
    pub text: String,
}

/// A table or an image between the lines: where it stands, and its Markdown.
#[derive(Debug, Clone)]
pub struct Block {
    pub spot: Spot,
    pub markdown: String,
}

/// A table that was found on a page.
#[derive(Debug, Clone)]
pub struct PageTable {
    pub page: u32,
    pub table: Table,
}

impl PageTable {
    /// Where the table stands: at the height of its first row.
    pub open spec fn spot(self) -> Spot {
        Spot {
            page: self.page,
            x: 0,
            y: if self.table.rows@.len() > 0 {
                self.table.rows@[0]
            } else {
                0
            },
        }
    }
}

/// Blocks as they are held, as plain contents.
pub open spec fn block_contents(blocks: Seq<Block>) -> Seq<(Spot, Seq<char>)> {
    blocks.map_values(|b: Block| (b.spot, b.markdown@))
}

/// The blocks of the images of a document, given by their numbers among its pieces.
pub open spec fn image_blocks(spots: Seq<Spot>, texts: Seq<Seq<char>>, images: Seq<usize>) -> Seq<
    (Spot, Seq<char>),
> {
    images.map_values(|k: usize| (spots[k as int], image_text(texts[k as int])))
}

/// The blocks of the tables of a document.
pub open spec fn table_blocks(tables: Seq<PageTable>) -> Seq<(Spot, Seq<char>)> {
    tables.map_values(
        |t: PageTable|
            (
                t.spot(),
                rows_markdown(cell_contents(t.table.cells@), t.table.cells@.len() as int),
            ),
    )
}

/// The pieces that the first `n` tables hold, one table behind the other.
pub open spec fn held_items(tables: Seq<PageTable>, n: int) -> Seq<usize>
    decreases n,
{
    if n <= 0 {
        seq![]
    } else {
        held_items(tables, n - 1) + tables[n - 1].table.item_indices@
    }
}

/// Writes the images and tables of a document as Markdown. Returns the blocks, images first, and the
/// pieces of text that no table holds. `images` are the numbers of the images among the pieces with
/// the given spots and texts; the tables hold pieces of `n` pieces of text.
pub fn gather_blocks(
    spots: &Vec<Spot>,
    texts: &Vec<String>,
    images: &Vec<usize>,
    tables: &Vec<PageTable>,
    n: usize,
) -> (r: (Vec<Block>, Vec<usize>))
    requires
        spots@.len() == texts@.len(),
        forall|i: int| 0 <= i < images@.len() ==> (#[trigger] images@[i]) < spots@.len(),
    ensures
        block_contents(r.0@) == image_blocks(spots@, text_contents(texts@), images@) + table_blocks(
            tables@,
        ),
        r.1@ == indices(n as nat).filter(is_free(held_items(tables@, tables@.len() as int))),
{
    let ghost pictures = image_blocks(spots@, text_contents(texts@), images@);
    let mut blocks: Vec<Block> = Vec::new();
    let mut i: usize = 0;
    assert(block_contents(blocks@) =~= pictures.take(0));
    while i < images.len()
        invariant
            i <= images@.len(),
            spots@.len() == texts@.len(),
            forall|k: int| 0 <= k < images@.len() ==> (#[trigger] images@[k]) < spots@.len(),
            pictures == image_blocks(spots@, text_contents(texts@), images@),
            block_contents(blocks@) == pictures.take(i as int),
        decreases images@.len() - i,
    {
        let ghost before = block_contents(blocks@);
        let k: usize = images[i];
        let markdown = image_markdown(texts[k].as_str());
        let ghost added = (spots@[k as int], markdown@);
        blocks.push(Block { spot: spots[k], markdown });
        assert(block_contents(blocks@) =~= before.push(added));
        i = i + 1;
        assert(block_contents(blocks@) =~= pictures.take(i as int));
    }
    assert(pictures.take(i as int) =~= pictures);
    let ghost drawn = table_blocks(tables@);
    let mut held: Vec<usize> = Vec::new();
    let mut t: usize = 0;
    assert(block_contents(blocks@) =~= pictures + drawn.take(0));
    assert(held@ =~= seq![]);
    while t < tables.len()
        invariant
            t <= tables@.len(),
            drawn == table_blocks(tables@),
            block_contents(blocks@) == pictures + drawn.take(t as int),
            held@ == held_items(tables@, t as int),
        decreases tables@.len() - t,
    {
        let ghost before = block_contents(blocks@);
        let ghost listed = held@;
        let found = &tables[t];
        let y: u32 = if found.table.rows.len() > 0 {
            found.table.rows[0]
        } else {
            0
        };
        let spot = Spot { page: found.page, x: 0, y };
        let markdown = table_to_markdown(&found.table.cells);
        let ghost added = (spot, markdown@);
        blocks.push(Block { spot, markdown });
        held.extend_from_slice(found.table.item_indices.as_slice());
        assert(held@ =~= listed + found.table.item_indices@);
        assert(block_contents(blocks@) =~= before.push(added));
        assert(drawn[t as int] == added);
        t = t + 1;
        assert(block_contents(blocks@) =~= pictures + drawn.take(t as int));
    }
    assert(drawn.take(t as int) =~= drawn);
    (blocks, unclaimed(n, &held))
}

/// Whether a block stands before a line: on a page before, or on the same page not below it.
pub open spec fn stands_before(block: Spot, line: Spot) -> bool {
    block.page < line.page || (block.page == line.page && order_of(line.y) <= order_of(block.y))
}

/// The first line from `i` on that a block stands before; the number of lines where there is none.
pub open spec fn block_slot(lines: Seq<DocLine>, block: Spot, i: int) -> int
    decreases lines.len() - i,
{
    if i >= lines.len() || stands_before(block, lines[i].spot) {
        i
    } else {
        block_slot(lines, block, i + 1)
    }
}

/// The keys by which blocks are sorted: by page, and from top to bottom.
pub open spec fn block_keys(blocks: Seq<Block>) -> Seq<(i64, i64)> {
    blocks.map_values(|b: Block| (b.spot.page as i64, (-order_of(b.spot.y)) as i64))
}

/// How lines are written.
pub struct Style {
    pub base: u32,
    pub tiers: Seq<u32>,
    pub headers: bool,
    pub lists: bool,
    pub code: bool,
    pub markers: bool,
}

/// The Markdown so far, whether a code block is open, and the page that was last written.
pub struct Pages {
    pub text: Seq<char>,
    pub in_code: bool,
    pub page: Option<u32>,
}

/// The decimal digits of a number.
pub open spec fn decimal(n: nat) -> Seq<char>
    decreases n,
{
    if n < 10 {
        seq![(n + 48) as char]
    } else {
        decimal(n / 10).push((n % 10 + 48) as char)
    }
}

/// So many number signs.
pub open spec fn hashes(n: nat) -> Seq<char> {
    Seq::new(n, |i: int| '#')
}

impl Pages {
    /// The code block closed, if one is open.
    pub open spec fn closed(self) -> Pages {
        if self.in_code {
            Pages { text: self.text + "```\n"@, in_code: false, ..self }
        } else {
            self
        }
    }

    /// The code block opened, if none is open.
    pub open spec fn opened(self) -> Pages {
        if self.in_code {
            self
        } else {
            Pages { text: self.text + "```\n"@, in_code: true, ..self }
        }
    }

    /// One more line.
    pub open spec fn with_line(self, line: Seq<char>) -> Pages {
        Pages { text: (self.text + line).push('\n'), ..self }
    }

    /// On a page. Pages are separated by a blank line, and by a marker where it is asked for.
    pub open spec fn on_page(self, page: u32, markers: bool) -> Pages {
        let next = Pages { page: Some(page), ..self };
        if self.page is None || self.page == Some(page) {
            next
        } else if markers {
            next.closed().with_line(seq![]).with_line(
                "<!-- Page "@ + decimal(page as nat) + " -->"@,
            ).with_line(seq![])
        } else {
            next.closed().with_line(seq![])
        }
    }

    /// One more line of a document. A heading is marked by its level and ends a code block; so does
    /// a blank line. A list item is written as Markdown. A line of code, by its font or by what it
    /// says, goes into a code block; any other line ends it.
    pub open spec fn with(self, line: DocLine, style: Style) -> Pages {
        let here = self.on_page(line.spot.page, style.markers);
        let t = trimmed(line.text@);
        let level = header_level(line.size, style.base, style.tiers);
        if t.len() == 0 {
            here.closed().with_line(seq![])
        } else if style.headers && level is Some {
            here.closed().with_line(hashes(level->0 as nat).push(' ') + t)
        } else if style.lists && is_item(t) {
            here.with_line(item_markdown(t))
        } else if style.code && (line.is_mono || looks_like_code(t)) {
            here.opened().with_line(t)
        } else {
            here.closed().with_line(t)
        }
    }

    /// One more block, with a blank line before it.
    pub open spec fn with_block(self, block: Block, markers: bool) -> Pages {
        self.on_page(block.spot.page, markers).closed().with_line(seq![]).with_line(
            block.markdown@,
        )
    }

    /// The first `n` of the given blocks, those of them whose slot is `i`.
    pub open spec fn with_blocks(
        self,
        lines: Seq<DocLine>,
        blocks: Seq<Block>,
        order: Seq<usize>,
        n: int,
        i: int,
        markers: bool,
    ) -> Pages
        decreases n,
    {
        if n <= 0 {
            self
        } else {
            let before = self.with_blocks(lines, blocks, order, n - 1, i, markers);
            let block = blocks[order[n - 1] as int];
            if block_slot(lines, block.spot, 0) == i {
                before.with_block(block, markers)
            } else {
                before
            }
        }
    }
}

/// The Markdown of the first `n` lines of a document, with the blocks before each.
pub open spec fn pages_of(
    lines: Seq<DocLine>,
    blocks: Seq<Block>,
    order: Seq<usize>,
    style: Style,
    n: int,
) -> Pages
    decreases n,
{
    if n <= 0 {
        Pages { text: seq![], in_code: false, page: None }
    } else {
        pages_of(lines, blocks, order, style, n - 1).with_blocks(
            lines,
            blocks,
            order,
            order.len() as int,
            n - 1,
            style.markers,
        ).with(lines[n - 1], style)
    }
}

/// The Markdown of a document: its lines, with each block before the first line that it stands
/// before.
pub open spec fn document_markdown(lines: Seq<DocLine>, blocks: Seq<Block>, style: Style) -> Seq<
    char,
> {
    let order = sorted_by_keys(indices(blocks.len()), block_keys(blocks));
    let n = lines.len() as int;
    pages_of(lines, blocks, order, style, n).with_blocks(
        lines,
        blocks,
        order,
        order.len() as int,
        n,
        style.markers,
    ).closed().text
}

/// Appends the decimal digits of a number.
fn push_decimal(out: &mut Vec<char>, n: u32)
    ensures
        final(out)@ == old(out)@ + decimal(n as nat),
    decreases n,
{
    let ghost before = out@;
    if n >= 10 {
        push_decimal(out, n / 10);
    }
    let digit: u8 = (n % 10) as u8 + 48;
    assert(n < 10 ==> before + seq![(n + 48) as char] =~= before.push((n + 48) as char));
    assert(n >= 10 ==> (before + decimal((n / 10) as nat)).push(digit as char) =~= before + (
    decimal((n / 10) as nat).push(digit as char)));
    out.push(digit as char);
}

/// The Markdown that is being written.
struct Writer {
    out: Vec<char>,
    in_code: bool,
    page: Option<u32>,
}

impl Writer {
    spec fn state(self) -> Pages {
        Pages { text: self.out@, in_code: self.in_code, page: self.page }
    }

    fn close(&mut self)
        ensures
            final(self).state() == old(self).state().closed(),
    {
        if self.in_code {
            push_text(&mut self.out, "```\n");
            self.in_code = false;
        }
    }

    fn push_line(&mut self, line: &str)
        ensures
            final(self).state() == old(self).state().with_line(line@),
    {
        push_text(&mut self.out, line);
        self.out.push('\n');
    }

    fn turn_to(&mut self, page: u32, markers: bool)
        ensures
            final(self).state() == old(self).state().on_page(page, markers),
    {
        let same: bool = match self.page {
            None => true,
            Some(p) => p == page,
        };
        self.page = Some(page);
        if !same {
            self.close();
            let ghost start = self.state();
            self.push_line("");
            assert(""@ =~= seq![]) by {
                reveal_strlit("");
            }
            if markers {
                let ghost before = self.out@;
                push_text(&mut self.out, "<!-- Page ");
                push_decimal(&mut self.out, page);
                push_text(&mut self.out, " -->");
                self.out.push('\n');
                assert(self.out@ =~= (before + ("<!-- Page "@ + decimal(page as nat) + " -->"@)).push(
                    '\n',
                ));
                self.push_line("");
            }
        }
    }

    fn push_doc_line(
        &mut self,
        line: &DocLine,
        base: u32,
        tiers: &Vec<u32>,
        options: &MarkdownOptions,
    )
        ensures
            final(self).state() == old(self).state().with(
                *line,
                style_of(base, tiers@, *options),
            ),
    {
        self.turn_to(line.spot.page, options.include_page_numbers);
        let chars = chars_of(line.text.as_str());
        let t = trim(chars.as_slice());
        let text = string_of(t);
        if t.len() == 0 {
            self.close();
            self.push_line("");
            assert(""@ =~= seq![]) by {
                reveal_strlit("");
            }
            return ;
        }
        if options.detect_headers {
            match detect_header_level(line.size, base, tiers) {
                Some(level) => {
                    self.close();
                    let ghost before = self.out@;
                    let mut i: u8 = 0;
                    assert(before + hashes(0) =~= before);
                    while i < level
                        invariant
                            i <= level,
                            self.out@ == before + hashes(i as nat),
                            self.in_code == false,
                            self.page == Some(line.spot.page),
                        decreases level - i,
                    {
                        self.out.push('#');
                        i = i + 1;
                        assert(self.out@ =~= before + hashes(i as nat));
                    }
                    self.out.push(' ');
                    push_text(&mut self.out, text.as_str());
                    self.out.push('\n');
                    assert(self.out@ =~= (before + (hashes(level as nat).push(' ') + t@)).push(
                        '\n',
                    ));
                    return ;
                },
                None => {},
            }
        }
        if options.detect_lists && is_list_item(text.as_str()) {
            let formatted = format_list_item(text.as_str());
            self.push_line(formatted.as_str());
            return ;
        }
        if options.detect_code && (line.is_mono || is_code_like(text.as_str())) {
            if !self.in_code {
                push_text(&mut self.out, "```\n");
                self.in_code = true;
            }
        } else {
            self.close();
        }
        self.push_line(text.as_str());
    }

    fn push_blocks(
        &mut self,
        lines: &Vec<DocLine>,
        blocks: &Vec<Block>,
        order: &Vec<usize>,
        slots: &Vec<usize>,
        i: usize,
        markers: bool,
    )
        requires
            are_slots(lines@, blocks@, slots@),
            forall|k: int| 0 <= k < order@.len() ==> (#[trigger] order@[k]) < blocks@.len(),
        ensures
            final(self).state() == old(self).state().with_blocks(
                lines@,
                blocks@,
                order@,
                order@.len() as int,
                i as int,
                markers,
            ),
    {
        let ghost start = self.state();
        let mut k: usize = 0;
        while k < order.len()
            invariant
                k <= order@.len(),
                are_slots(lines@, blocks@, slots@),
                forall|j: int| 0 <= j < order@.len() ==> (#[trigger] order@[j]) < blocks@.len(),
                self.state() == start.with_blocks(
                    lines@,
                    blocks@,
                    order@,
                    k as int,
                    i as int,
                    markers,
                ),
            decreases order@.len() - k,
        {
            let b: usize = order[k];
            assert(slots@[b as int] == block_slot(lines@, blocks@[b as int].spot, 0));
            if slots[b] == i {
                self.turn_to(blocks[b].spot.page, markers);
                self.close();
                self.push_line("");
                assert(""@ =~= seq![]) by {
                    reveal_strlit("");
                }
                self.push_line(blocks[b].markdown.as_str());
            }
            k = k + 1;
        }
    }
}

/// Whether each slot is that of a block.
spec fn are_slots(lines: Seq<DocLine>, blocks: Seq<Block>, slots: Seq<usize>) -> bool {
    slots.len() == blocks.len() && forall|b: int|
        0 <= b < blocks.len() ==> #[trigger] slots[b] == block_slot(lines, blocks[b].spot, 0)
}

/// How lines are written with the given options.
pub open spec fn style_of(base: u32, tiers: Seq<u32>, options: MarkdownOptions) -> Style {
    Style {
        base,
        tiers,
        headers: options.detect_headers,
        lists: options.detect_lists,
        code: options.detect_code,
        markers: options.include_page_numbers,
    }
}

/// The first line that a block stands before.
fn find_slot(lines: &Vec<DocLine>, block: &Block) -> (r: usize)
    ensures
        r == block_slot(lines@, block.spot, 0),
{
    let y: i64 = order_key(block.spot.y);
    let mut i: usize = 0;
    while i < lines.len()
        invariant
            i <= lines@.len(),
            y == order_of(block.spot.y),
            block_slot(lines@, block.spot, i as int) == block_slot(lines@, block.spot, 0),
        decreases lines@.len() - i,
    {
        let spot: Spot = lines[i].spot;
        if block.spot.page < spot.page || (block.spot.page == spot.page && order_key(spot.y) <= y) {
            return i;
        }
        i = i + 1;
    }
    i
}

/// Writes the lines of a document as Markdown, with tables and images between them. `base` is the
/// size of body text and `tiers` are the sizes of headings, in hundredths of a point.
pub fn to_markdown_from_lines(
    lines: &Vec<DocLine>,
    blocks: &Vec<Block>,
    base: u32,
    tiers: &Vec<u32>,
    options: &MarkdownOptions,
) -> (r: String)
    ensures
        r@ == document_markdown(lines@, blocks@, style_of(base, tiers@, *options)),
{
    let ghost style = style_of(base, tiers@, *options);
    let mut keys: Vec<(i64, i64)> = Vec::new();
    let mut slots: Vec<usize> = Vec::new();
    let mut b: usize = 0;
    while b < blocks.len()
        invariant
            b <= blocks@.len(),
            keys@ == block_keys(blocks@).take(b as int),
            slots@.len() == b,
            forall|k: int|
                0 <= k < b ==> #[trigger] slots@[k] == block_slot(lines@, blocks@[k].spot, 0),
        decreases blocks@.len() - b,
    {
        let spot: Spot = blocks[b].spot;
        keys.push((spot.page as i64, -order_key(spot.y)));
        slots.push(find_slot(lines, &blocks[b]));
        b = b + 1;
        assert(keys@ =~= block_keys(blocks@).take(b as int));
    }
    assert(keys@ =~= block_keys(blocks@));
    let order = sort_by_keys(&count_up(blocks.len()), &keys);
    proof {
        lemma_sorted_by_keys(indices(blocks@.len()), keys@);
    }
    let mut writer = Writer { out: Vec::new(), in_code: false, page: None };
    let mut i: usize = 0;
    assert(writer.out@ =~= seq![]);
    while i < lines.len()
        invariant
            i <= lines@.len(),
            style == style_of(base, tiers@, *options),
            are_slots(lines@, blocks@, slots@),
            forall|k: int| 0 <= k < order@.len() ==> (#[trigger] order@[k]) < blocks@.len(),
            writer.state() == pages_of(lines@, blocks@, order@, style, i as int),
        decreases lines@.len() - i,
    {
        writer.push_blocks(lines, blocks, &order, &slots, i, options.include_page_numbers);
        writer.push_doc_line(&lines[i], base, tiers, options);
        i = i + 1;
    }
    writer.push_blocks(lines, blocks, &order, &slots, i, options.include_page_numbers);
    writer.close();
    string_of(writer.out.as_slice())
}

proof fn lemma_blocks_are_whole(
    pages: Pages,
    lines: Seq<DocLine>,
    blocks: Seq<Block>,
    order: Seq<usize>,
    n: int,
    i: int,
    markers: bool,
)
    requires
        is_line_text(pages.text),
    ensures
        is_line_text(pages.with_blocks(lines, blocks, order, n, i, markers).text),
    decreases n,
{
    reveal_strlit("```\n");
    if n > 0 {
        lemma_blocks_are_whole(pages, lines, blocks, order, n - 1, i, markers);
    }
}

proof fn lemma_pages_are_whole(
    lines: Seq<DocLine>,
    blocks: Seq<Block>,
    order: Seq<usize>,
    style: Style,
    n: int,
)
    ensures
        is_line_text(pages_of(lines, blocks, order, style, n).text),
    decreases n,
{
    if n > 0 {
        lemma_pages_are_whole(lines, blocks, order, style, n - 1);
        lemma_blocks_are_whole(
            pages_of(lines, blocks, order, style, n - 1),
            lines,
            blocks,
            order,
            order.len() as int,
            n - 1,
            style.markers,
        );
    }
}

/// The Markdown of a document is made of whole lines.
pub proof fn lemma_document_is_whole(lines: Seq<DocLine>, blocks: Seq<Block>, style: Style)
    ensures
        is_line_text(document_markdown(lines, blocks, style)),
{
    let order = sorted_by_keys(indices(blocks.len()), block_keys(blocks));
    let n = lines.len() as int;
    lemma_pages_are_whole(lines, blocks, order, style, n);
    lemma_blocks_are_whole(
        pages_of(lines, blocks, order, style, n),
        lines,
        blocks,
        order,
        order.len() as int,
        n,
        style.markers,
    );
    reveal_strlit("```\n");
}

/// A block has one place among the lines: the lines before it are on earlier pages or above it, and
/// the line behind it, if there is one, is not.
pub proof fn lemma_blocks_have_one_place(lines: Seq<DocLine>, block: Spot, i: int)
    requires
        0 <= i <= lines.len(),
        forall|k: int| 0 <= k < i ==> !stands_before(block, (#[trigger] lines[k]).spot),
    ensures
        i <= block_slot(lines, block, i) <= lines.len(),
        forall|k: int|
            0 <= k < block_slot(lines, block, i) ==> !stands_before(
                block,
                (#[trigger] lines[k]).spot,
            ),
        block_slot(lines, block, i) < lines.len() ==> stands_before(
            block,
            lines[block_slot(lines, block, i)].spot,
        ),
    decreases lines.len() - i,
{
    if i < lines.len() && !stands_before(block, lines[i].spot) {
        lemma_blocks_have_one_place(lines, block, i + 1);
    }
}

proof fn lemma_closed_goes_on(pages: Pages)
    ensures
        goes_on_from(pages.closed().text, pages.text),
        goes_on_from(pages.opened().text, pages.text),
{
    assert((pages.text + "```\n"@).take(pages.text.len() as int) =~= pages.text);
    assert(pages.text.take(pages.text.len() as int) =~= pages.text);
}

proof fn lemma_line_goes_on(pages: Pages, line: Seq<char>)
    ensures
        goes_on_from(pages.with_line(line).text, pages.text),
        stands_in(pages.with_line(line).text, line),
{
    let text = pages.with_line(line).text;
    let n = pages.text.len() as int;
    assert(text.take(n) =~= pages.text);
    assert(text.subrange(n, n + line.len()) =~= line);
}

proof fn lemma_page_goes_on(pages: Pages, page: u32, markers: bool)
    ensures
        goes_on_from(pages.on_page(page, markers).text, pages.text),
{
    let next = Pages { page: Some(page), ..pages };
    assert(pages.text.take(pages.text.len() as int) =~= pages.text);
    lemma_closed_goes_on(next);
    let first = next.closed().with_line(seq![]);
    lemma_line_goes_on(next.closed(), seq![]);
    lemma_goes_on(pages.text, next.closed().text, first.text);
    let marker = "<!-- Page "@ + decimal(page as nat) + " -->"@;
    lemma_line_goes_on(first, marker);
    lemma_goes_on(pages.text, first.text, first.with_line(marker).text);
    lemma_line_goes_on(first.with_line(marker), seq![]);
    lemma_goes_on(
        pages.text,
        first.with_line(marker).text,
        first.with_line(marker).with_line(seq![]).text,
    );
}

proof fn lemma_block_goes_on(pages: Pages, block: Block, markers: bool)
    ensures
        goes_on_from(pages.with_block(block, markers).text, pages.text),
        stands_in(pages.with_block(block, markers).text, block.markdown@),
{
    let here = pages.on_page(block.spot.page, markers);
    lemma_page_goes_on(pages, block.spot.page, markers);
    lemma_closed_goes_on(here);
    lemma_goes_on(pages.text, here.text, here.closed().text);
    let spaced = here.closed().with_line(seq![]);
    lemma_line_goes_on(here.closed(), seq![]);
    lemma_goes_on(pages.text, here.closed().text, spaced.text);
    lemma_line_goes_on(spaced, block.markdown@);
    lemma_goes_on(pages.text, spaced.text, spaced.with_line(block.markdown@).text);
}

proof fn lemma_blocks_go_on(
    pages: Pages,
    lines: Seq<DocLine>,
    blocks: Seq<Block>,
    order: Seq<usize>,
    n: int,
    i: int,
    markers: bool,
)
    ensures
        goes_on_from(pages.with_blocks(lines, blocks, order, n, i, markers).text, pages.text),
    decreases n,
{
    assert(pages.text.take(pages.text.len() as int) =~= pages.text);
    if n > 0 {
        let before = pages.with_blocks(lines, blocks, order, n - 1, i, markers);
        lemma_blocks_go_on(pages, lines, blocks, order, n - 1, i, markers);
        lemma_block_goes_on(before, blocks[order[n - 1] as int], markers);
        lemma_goes_on(
            pages.text,
            before.text,
            before.with_block(blocks[order[n - 1] as int], markers).text,
        );
    }
}

/// What is written for the text of a line: a list item as Markdown, any other text as it is.
pub open spec fn written(line: DocLine, style: Style) -> Seq<char> {
    let t = trimmed(line.text@);
    if !(style.headers && header_level(line.size, style.base, style.tiers) is Some) && style.lists
        && is_item(t) {
        item_markdown(t)
    } else {
        t
    }
}

proof fn lemma_with_goes_on(pages: Pages, line: DocLine, style: Style)
    ensures
        goes_on_from(pages.with(line, style).text, pages.text),
        trimmed(line.text@).len() > 0 ==> stands_in(
            pages.with(line, style).text,
            written(line, style),
        ),
{
    let here = pages.on_page(line.spot.page, style.markers);
    let t = trimmed(line.text@);
    let level = header_level(line.size, style.base, style.tiers);
    lemma_page_goes_on(pages, line.spot.page, style.markers);
    lemma_closed_goes_on(here);
    lemma_goes_on(pages.text, here.text, here.closed().text);
    lemma_goes_on(pages.text, here.text, here.opened().text);
    if t.len() == 0 {
        lemma_line_goes_on(here.closed(), seq![]);
        lemma_goes_on(pages.text, here.closed().text, pages.with(line, style).text);
    } else if style.headers && level is Some {
        let head = hashes(level->0 as nat).push(' ') + t;
        lemma_line_goes_on(here.closed(), head);
        lemma_goes_on(pages.text, here.closed().text, pages.with(line, style).text);
        let text = pages.with(line, style).text;
        let i = choose|i: int|
            0 <= i && i + head.len() <= text.len() && #[trigger] text.subrange(i, i + head.len())
                == head;
        let start = i + level->0 as int + 1;
        assert(head.subrange(level->0 as int + 1, head.len() as int) =~= t);
        assert(text.subrange(start, start + t.len()) =~= text.subrange(i, i + head.len()).subrange(
            level->0 as int + 1,
            head.len() as int,
        ));
    } else if style.lists && is_item(t) {
        lemma_line_goes_on(here, item_markdown(t));
        lemma_goes_on(pages.text, here.text, pages.with(line, style).text);
    } else if style.code && (line.is_mono || looks_like_code(t)) {
        lemma_line_goes_on(here.opened(), t);
        lemma_goes_on(pages.text, here.opened().text, pages.with(line, style).text);
    } else {
        lemma_line_goes_on(here.closed(), t);
        lemma_goes_on(pages.text, here.closed().text, pages.with(line, style).text);
    }
}

proof fn lemma_pages_hold(
    lines: Seq<DocLine>,
    blocks: Seq<Block>,
    order: Seq<usize>,
    style: Style,
    n: int,
    k: int,
)
    requires
        0 <= k < n <= lines.len(),
        trimmed(lines[k].text@).len() > 0,
    ensures
        stands_in(pages_of(lines, blocks, order, style, n).text, written(lines[k], style)),
    decreases n,
{
    let before = pages_of(lines, blocks, order, style, n - 1);
    let placed = before.with_blocks(
        lines,
        blocks,
        order,
        order.len() as int,
        n - 1,
        style.markers,
    );
    lemma_blocks_go_on(
        before,
        lines,
        blocks,
        order,
        order.len() as int,
        n - 1,
        style.markers,
    );
    lemma_with_goes_on(placed, lines[n - 1], style);
    if k < n - 1 {
        lemma_pages_hold(lines, blocks, order, style, n - 1, k);
        lemma_stands_on(before.text, placed.text, written(lines[k], style));
        lemma_stands_on(
            placed.text,
            placed.with(lines[n - 1], style).text,
            written(lines[k], style),
        );
    }
}

/// No line is lost: the text of every line that is not blank stands in the Markdown of the
/// document, a list item in its Markdown form.
pub proof fn lemma_every_line_is_written(
    lines: Seq<DocLine>,
    blocks: Seq<Block>,
    style: Style,
    k: int,
)
    requires
        0 <= k < lines.len(),
        trimmed(lines[k].text@).len() > 0,
    ensures
        stands_in(document_markdown(lines, blocks, style), written(lines[k], style)),
{
    let order = sorted_by_keys(indices(blocks.len()), block_keys(blocks));
    let n = lines.len() as int;
    let all = pages_of(lines, blocks, order, style, n);
    let last = all.with_blocks(lines, blocks, order, order.len() as int, n, style.markers);
    lemma_pages_hold(lines, blocks, order, style, n, k);
    lemma_blocks_go_on(all, lines, blocks, order, order.len() as int, n, style.markers);
    lemma_stands_on(all.text, last.text, written(lines[k], style));
    lemma_closed_goes_on(last);
    lemma_stands_on(last.text, last.closed().text, written(lines[k], style));
}

} // verus!
