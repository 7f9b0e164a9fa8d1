//! Markdown from text, and the steps by which the pieces of a document become Markdown.

use crate::classify::{
    format_list_item, is_code_like, is_item, is_list_item, item_markdown, looks_like_code,
};
use crate::ordering::{count_up, indices};
use crate::tables::{cell_contents, list_contents};
use crate::text::{
    begins_with, char_from, chars_of, find_char, lemma_char_from, starts_with, string_of, trim,
    trimmed,
};
use vstd::prelude::*;
use vstd::slice::slice_subrange;

verus! {

/// How text becomes Markdown.
#[derive(Debug, Clone)]
pub struct MarkdownOptions {
    /// Whether headings are told by their font size.
    pub detect_headers: bool,
    /// Whether list items are detected.
    pub detect_lists: bool,
    /// Whether code is detected.
    pub detect_code: bool,
    /// The font size of body text, in hundredths of a point, where it is given.
    pub base_font_size: Option<u32>,
    /// Whether the caller takes page numbers out of the text. No function of this crate acts on it.
    pub remove_page_numbers: bool,
    /// Whether the caller turns addresses into links. No function of this crate acts on it.
    pub format_urls: bool,
    /// Whether the caller joins words that are broken at the end of a line. No function of this crate
    /// acts on it.
    pub fix_hyphenation: bool,
    /// Whether bold text is marked.
    pub detect_bold: bool,
    /// Whether italic text is marked.
    pub detect_italic: bool,
    /// Whether images are shown.
    pub include_images: bool,
    /// Whether links are shown.
    pub include_links: bool,
    /// Whether the start of each page is marked.
    pub include_page_numbers: bool,
}

impl Default for MarkdownOptions {
    fn default() -> (r: Self)
        ensures
            r.detect_headers && r.detect_lists && r.detect_code && r.remove_page_numbers
                && r.format_urls && r.fix_hyphenation && r.detect_bold && r.detect_italic
                && r.include_images && r.include_links && !r.include_page_numbers,
            r.base_font_size is None,
    {
        MarkdownOptions {
            detect_headers: true,
            detect_lists: true,
            detect_code: true,
            base_font_size: None,
            remove_page_numbers: true,
            format_urls: true,
            fix_hyphenation: true,
            detect_bold: true,
            detect_italic: true,
            include_images: true,
            include_links: true,
            include_page_numbers: false,
        }
    }
}

// ---------------------------------------------------------------------------------------------
// Plain text
// ---------------------------------------------------------------------------------------------

/// The lines of a text from `i` on.
pub open spec fn lines_from(s: Seq<char>, i: int) -> Seq<Seq<char>>
    decreases s.len() - i,
    when 0 <= i <= s.len()
{
    proof {
        lemma_char_from(s, '\n', i);
    }
    let e = char_from(s, '\n', i);
    if i == s.len() {
        seq![]
    } else if e == s.len() {
        seq![s.subrange(i, e)]
    } else {
        seq![s.subrange(i, e)] + lines_from(s, e + 1)
    }
}

/// The Markdown of a text so far, and whether a code block is open.
pub struct Draft {
    pub text: Seq<char>,
    pub in_code: bool,
}

impl Draft {
    /// The code block closed, if one is open.
    pub open spec fn closed(self) -> Draft {
        if self.in_code {
            Draft { text: self.text + "```\n"@, in_code: false }
        } else {
            self
        }
    }

    /// The code block opened, if none is open.
    pub open spec fn opened(self) -> Draft {
        if self.in_code {
            self
        } else {
            Draft { text: self.text + "```\n"@, in_code: true }
        }
    }

    /// One more line.
    pub open spec fn with_line(self, line: Seq<char>) -> Draft {
        Draft { text: (self.text + line).push('\n'), ..self }
    }

    /// One more line of the text. A blank line ends a code block. A list item is written as
    /// Markdown; it does not end a code block. A line of code goes into a code block, any other
    /// line ends it.
    pub open spec fn with(self, line: Seq<char>, lists: bool, code: bool) -> Draft {
        let t = trimmed(line);
        if t.len() == 0 {
            self.closed().with_line(seq![])
        } else if lists && is_item(t) {
            self.with_line(item_markdown(t))
        } else if code && looks_like_code(t) {
            self.opened().with_line(t)
        } else {
            self.closed().with_line(t)
        }
    }
}

/// The Markdown of lines, from the `i`-th on, behind what there is already.
pub open spec fn drafted(lines: Seq<Seq<char>>, draft: Draft, lists: bool, code: bool) -> Draft
    decreases lines.len(),
{
    if lines.len() == 0 {
        draft
    } else {
        drafted(lines.skip(1), draft.with(lines[0], lists, code), lists, code)
    }
}

/// The Markdown of a text.
pub open spec fn markdown_of(s: Seq<char>, lists: bool, code: bool) -> Seq<char> {
    drafted(lines_from(s, 0), Draft { text: seq![], in_code: false }, lists, code).closed().text
}

/// Appends a text.
pub(crate) fn push_text(out: &mut Vec<char>, text: &str)
    ensures
        final(out)@ == old(out)@ + text@,
{
    let ghost before = out@;
    let mut chars = chars_of(text);
    out.append(&mut chars);
    assert(out@ =~= before + text@);
}

/// Appends one line of a text as Markdown, and says whether a code block is open then.
fn push_line(
    out: &mut Vec<char>,
    in_code: bool,
    line: &[char],
    lists: bool,
    code: bool,
) -> (r: bool)
    ensures
        (Draft { text: final(out)@, in_code: r }) == (Draft { text: old(out)@, in_code }).with(
            line@,
            lists,
            code,
        ),
{
    let t = trim(line);
    let text = string_of(t);
    let mut open: bool = in_code;
    if t.len() == 0 {
        if open {
            push_text(out, "```\n");
            open = false;
        }
        out.push('\n');
        assert((Draft { text: old(out)@, in_code }).closed().text + seq![] =~= (Draft {
            text: old(out)@,
            in_code,
        }).closed().text);
        return open;
    }
    if lists && is_list_item(text.as_str()) {
        let formatted = format_list_item(text.as_str());
        push_text(out, formatted.as_str());
        out.push('\n');
        return open;
    }
    if code && is_code_like(text.as_str()) {
        if !open {
            push_text(out, "```\n");
            open = true;
        }
    } else if open {
        push_text(out, "```\n");
        open = false;
    }
    push_text(out, text.as_str());
    out.push('\n');
    open
}

/// Writes a plain text as Markdown.
pub fn to_markdown(text: &str, options: MarkdownOptions) -> (r: String)
    ensures
        r@ == markdown_of(text@, options.detect_lists, options.detect_code),
{
    let lists: bool = options.detect_lists;
    let code: bool = options.detect_code;
    let chars = chars_of(text);
    let s = chars.as_slice();
    let n: usize = s.len();
    let mut out: Vec<char> = Vec::new();
    let mut in_code: bool = false;
    let mut i: usize = 0;
    let ghost start = Draft { text: seq![], in_code: false };
    assert(out@ =~= seq![]);
    while i < n
        invariant
            i <= n == s@.len(),
            s@ == text@,
            drafted(lines_from(s@, i as int), Draft { text: out@, in_code }, lists, code) == drafted(
                lines_from(s@, 0),
                start,
                lists,
                code,
            ),
        decreases n - i,
    {
        let e: usize = find_char(s, '\n', i);
        let line = slice_subrange(s, i, e);
        let ghost before = Draft { text: out@, in_code };
        let ghost rest = lines_from(s@, i as int);
        in_code = push_line(&mut out, in_code, line, lists, code);
        proof {
            assert(rest[0] == line@);
            if e == n {
                assert(rest.skip(1) =~= seq![]);
                assert(lines_from(s@, n as int) =~= seq![]);
            } else {
                assert(rest.skip(1) =~= lines_from(s@, e + 1));
            }
        }
        i = if e < n {
            e + 1
        } else {
            e
        };
    }
    assert(lines_from(s@, n as int) =~= seq![]);
    if in_code {
        push_text(&mut out, "```\n");
    }
    string_of(out.as_slice())
}

/// Whether a text is made of whole lines.
pub open spec fn is_line_text(s: Seq<char>) -> bool {
    s.len() == 0 || s.last() == '\n'
}

proof fn lemma_draft_lines(lines: Seq<Seq<char>>, draft: Draft, lists: bool, code: bool)
    requires
        is_line_text(draft.text),
    ensures
        is_line_text(drafted(lines, draft, lists, code).text),
    decreases lines.len(),
{
    if lines.len() > 0 {
        lemma_draft_lines(lines.skip(1), draft.with(lines[0], lists, code), lists, code);
    }
}

/// Markdown is made of whole lines, and no code block is left open.
pub proof fn lemma_markdown_is_whole(s: Seq<char>, lists: bool, code: bool)
    ensures
        is_line_text(markdown_of(s, lists, code)),
        !drafted(
            lines_from(s, 0),
            Draft { text: seq![], in_code: false },
            lists,
            code,
        ).closed().in_code,
{
    reveal_strlit("```\n");
    lemma_draft_lines(
        lines_from(s, 0),
        Draft { text: seq![], in_code: false },
        lists,
        code,
    );
}

/// Whether a text is another with something behind it.
pub open spec fn goes_on_from(text: Seq<char>, start: Seq<char>) -> bool {
    start.len() <= text.len() && text.take(start.len() as int) == start
}

/// Whether a text stands somewhere in another.
pub open spec fn stands_in(text: Seq<char>, part: Seq<char>) -> bool {
    exists|i: int|
        0 <= i && i + part.len() <= text.len() && #[trigger] text.subrange(i, i + part.len()) == part
}

/// A text that goes on from one that goes on from another goes on from that.
pub proof fn lemma_goes_on(a: Seq<char>, b: Seq<char>, c: Seq<char>)
    requires
        goes_on_from(b, a),
        goes_on_from(c, b),
    ensures
        goes_on_from(c, a),
{
    assert(c.take(a.len() as int) =~= b.take(a.len() as int));
}

/// What stands in a text stands in what goes on from it.
pub proof fn lemma_stands_on(text: Seq<char>, longer: Seq<char>, part: Seq<char>)
    requires
        stands_in(text, part),
        goes_on_from(longer, text),
    ensures
        stands_in(longer, part),
{
    let i = choose|i: int|
        0 <= i && i + part.len() <= text.len() && #[trigger] text.subrange(i, i + part.len())
            == part;
    assert(longer.subrange(i, i + part.len()) =~= longer.take(text.len() as int).subrange(
        i,
        i + part.len(),
    ));
}

/// What is written for a line of a text: a list item as Markdown, any other line as it is.
pub open spec fn written_line(line: Seq<char>, lists: bool) -> Seq<char> {
    let t = trimmed(line);
    if lists && is_item(t) {
        item_markdown(t)
    } else {
        t
    }
}

proof fn lemma_with_goes_on(draft: Draft, line: Seq<char>, lists: bool, code: bool)
    ensures
        goes_on_from(draft.with(line, lists, code).text, draft.text),
        trimmed(line).len() > 0 ==> stands_in(
            draft.with(line, lists, code).text,
            written_line(line, lists),
        ),
{
    let t = trimmed(line);
    let n = draft.text.len() as int;
    let body = if t.len() == 0 {
        seq![]
    } else {
        written_line(line, lists)
    };
    let before = if t.len() == 0 {
        draft.closed()
    } else if lists && is_item(t) {
        draft
    } else if code && looks_like_code(t) {
        draft.opened()
    } else {
        draft.closed()
    };
    let text = draft.with(line, lists, code).text;
    assert(text == (before.text + body).push('\n'));
    assert(before.text.take(n) =~= draft.text);
    assert(text.take(n) =~= draft.text);
    let m = before.text.len() as int;
    assert(text.subrange(m, m + body.len()) =~= body);
}

proof fn lemma_drafted_goes_on(lines: Seq<Seq<char>>, draft: Draft, lists: bool, code: bool)
    ensures
        goes_on_from(drafted(lines, draft, lists, code).text, draft.text),
    decreases lines.len(),
{
    assert(draft.text.take(draft.text.len() as int) =~= draft.text);
    if lines.len() > 0 {
        let next = draft.with(lines[0], lists, code);
        lemma_with_goes_on(draft, lines[0], lists, code);
        lemma_drafted_goes_on(lines.skip(1), next, lists, code);
        lemma_goes_on(draft.text, next.text, drafted(lines.skip(1), next, lists, code).text);
    }
}

proof fn lemma_drafted_holds(
    lines: Seq<Seq<char>>,
    draft: Draft,
    lists: bool,
    code: bool,
    k: int,
)
    requires
        0 <= k < lines.len(),
        trimmed(lines[k]).len() > 0,
    ensures
        stands_in(drafted(lines, draft, lists, code).text, written_line(lines[k], lists)),
    decreases lines.len(),
{
    let next = draft.with(lines[0], lists, code);
    if k == 0 {
        lemma_with_goes_on(draft, lines[0], lists, code);
        lemma_drafted_goes_on(lines.skip(1), next, lists, code);
        lemma_stands_on(
            next.text,
            drafted(lines.skip(1), next, lists, code).text,
            written_line(lines[0], lists),
        );
    } else {
        assert(lines.skip(1)[k - 1] == lines[k]);
        lemma_drafted_holds(lines.skip(1), next, lists, code, k - 1);
    }
}

/// No line is lost: every line of a text that is not blank stands in its Markdown, a list item in
/// its Markdown form.
pub proof fn lemma_every_text_line_is_written(s: Seq<char>, lists: bool, code: bool, k: int)
    requires
        0 <= k < lines_from(s, 0).len(),
        trimmed(lines_from(s, 0)[k]).len() > 0,
    ensures
        stands_in(markdown_of(s, lists, code), written_line(lines_from(s, 0)[k], lists)),
{
    let start = Draft { text: seq![], in_code: false };
    let all = drafted(lines_from(s, 0), start, lists, code);
    lemma_drafted_holds(lines_from(s, 0), start, lists, code, k);
    assert((all.text + "```\n"@).take(all.text.len() as int) =~= all.text);
    assert(all.text.take(all.text.len() as int) =~= all.text);
    lemma_stands_on(all.text, all.closed().text, written_line(lines_from(s, 0)[k], lists));
}

// ---------------------------------------------------------------------------------------------
// Pieces of a document
// ---------------------------------------------------------------------------------------------

/// What a piece of a document is.
#[derive(Debug, Clone, PartialEq, Eq)]
pub enum ItemType {
    /// Text.
    Text,
    /// A place where an image stands.
    Image,
    /// A link, with its address.
    Link(String),
    /// The value of a form field.
    FormField,
}

impl Default for ItemType {
    fn default() -> (r: Self)
        ensures
            r is Text,
    {
        ItemType::Text
    }
}

/// The name in the placeholder of an image, `[Image: name]`; another text is its own name.
pub open spec fn image_name(s: Seq<char>) -> Seq<char> {
    if begins_with(s, "[Image: "@) && s.len() > 8 && s.last() == ']' {
        s.subrange(8, s.len() - 1)
    } else {
        s
    }
}

/// An image as Markdown, given its placeholder.
pub open spec fn image_text(s: Seq<char>) -> Seq<char> {
    "![Image: "@ + image_name(s) + "](image)\n"@
}

/// Writes an image as Markdown.
pub fn image_markdown(text: &str) -> (r: String)
    ensures
        r@ == image_text(text@),
{
    proof {
        reveal_strlit("[Image: ");
    }
    let chars = chars_of(text);
    let s = chars.as_slice();
    let n: usize = s.len();
    let mut out: Vec<char> = chars_of("![Image: ");
    let ghost start = out@;
    if n > 8 && starts_with(s, "[Image: ") && s[n - 1] == ']' {
        out.extend_from_slice(slice_subrange(s, 8, n - 1));
    } else {
        out.extend_from_slice(s);
    }
    assert(out@ =~= start + image_name(text@));
    push_text(&mut out, "](image)\n");
    string_of(out.as_slice())
}

/// A row of cells as Markdown.
pub open spec fn row_markdown(cells: Seq<Seq<char>>) -> Seq<char>
    decreases cells.len(),
{
    if cells.len() == 0 {
        seq!['|']
    } else {
        row_markdown(cells.drop_last()) + (seq![' '] + trimmed(cells.last()) + seq![' ', '|'])
    }
}

/// The line between the head of a table and its body.
pub open spec fn rule_markdown(cols: nat) -> Seq<char>
    decreases cols,
{
    if cols == 0 {
        seq!['|']
    } else {
        rule_markdown((cols - 1) as nat) + " --- |"@
    }
}

/// The rows of a table as Markdown, the first `n` of them. A line behind the first row marks it as
/// the head.
pub open spec fn rows_markdown(cells: Seq<Seq<Seq<char>>>, n: int) -> Seq<char>
    decreases n,
{
    if n <= 0 {
        seq![]
    } else {
        let row = rows_markdown(cells, n - 1) + row_markdown(cells[n - 1]) + seq!['\n'];
        if n == 1 {
            row + rule_markdown(cells[0].len()) + seq!['\n']
        } else {
            row
        }
    }
}

/// Appends a row of cells as Markdown.
fn push_row(out: &mut Vec<char>, row: &Vec<String>)
    ensures
        final(out)@ == old(out)@ + row_markdown(row@.map_values(|c: String| c@)),
{
    let ghost all = row@.map_values(|c: String| c@);
    let ghost start = out@;
    out.push('|');
    let mut i: usize = 0;
    assert(all.take(0) =~= seq![]);
    assert(out@ =~= start + row_markdown(all.take(0)));
    while i < row.len()
        invariant
            i <= row@.len(),
            all == row@.map_values(|c: String| c@),
            out@ == start + row_markdown(all.take(i as int)),
        decreases row@.len() - i,
    {
        let ghost before = out@;
        let cell = chars_of(row[i].as_str());
        let t = trim(cell.as_slice());
        out.push(' ');
        out.extend_from_slice(t);
        out.push(' ');
        out.push('|');
        assert(out@ =~= before + (seq![' '] + t@ + seq![' ', '|']));
        assert(all.take(i + 1).drop_last() =~= all.take(i as int));
        assert(all.take(i + 1).last() == cell@);
        i = i + 1;
        assert(out@ =~= start + row_markdown(all.take(i as int)));
    }
    assert(all.take(i as int) =~= all);
}

/// Writes the cells of a table as Markdown. The first row is its head.
pub fn table_to_markdown(cells: &Vec<Vec<String>>) -> (r: String)
    ensures
        r@ == rows_markdown(cell_contents(cells@), cells@.len() as int),
{
    let ghost all = cell_contents(cells@);
    let mut out: Vec<char> = Vec::new();
    let mut i: usize = 0;
    assert(out@ =~= seq![]);
    while i < cells.len()
        invariant
            i <= cells@.len(),
            all == cell_contents(cells@),
            out@ == rows_markdown(all, i as int),
        decreases cells@.len() - i,
    {
        let ghost before = out@;
        assert(all[i as int] == cells@[i as int]@.map_values(|c: String| c@));
        push_row(&mut out, &cells[i]);
        out.push('\n');
        assert(out@ =~= before + row_markdown(all[i as int]) + seq!['\n']);
        if i == 0 {
            let ghost head = out@;
            let cols: usize = cells[0].len();
            out.push('|');
            let mut c: usize = 0;
            assert(out@ =~= head + rule_markdown(0));
            while c < cols
                invariant
                    c <= cols,
                    out@ == head + rule_markdown(c as nat),
                decreases cols - c,
            {
                push_text(&mut out, " --- |");
                c = c + 1;
                assert(out@ =~= head + rule_markdown(c as nat));
            }
            out.push('\n');
            assert(out@ =~= head + rule_markdown(all[0].len()) + seq!['\n']);
        }
        i = i + 1;
    }
    string_of(out.as_slice())
}

/// Whether a number is not in a list.
pub open spec fn is_free(claimed: Seq<usize>) -> spec_fn(usize) -> bool {
    |k: usize| !claimed.contains(k)
}

/// The numbers below `n` that no table has claimed.
pub fn unclaimed(n: usize, claimed: &Vec<usize>) -> (r: Vec<usize>)
    ensures
        r@ == indices(n as nat).filter(is_free(claimed@)),
{
    let ghost pred = is_free(claimed@);
    let mut out: Vec<usize> = Vec::new();
    let mut i: usize = 0;
    assert(indices(0).filter(pred) =~= seq![]) by {
        reveal(Seq::filter);
    }
    while i < n
        invariant
            i <= n,
            pred == is_free(claimed@),
            out@ == indices(i as nat).filter(pred),
        decreases n - i,
    {
        assert(indices((i + 1) as nat) =~= indices(i as nat).push(i));
        assert(indices((i + 1) as nat).drop_last() =~= indices(i as nat));
        reveal(Seq::filter);
        let mut found: bool = false;
        let mut k: usize = 0;
        while k < claimed.len()
            invariant
                k <= claimed@.len(),
                found <==> exists|j: int| 0 <= j < k && claimed@[j] == i,
            decreases claimed@.len() - k,
        {
            if claimed[k] == i {
                found = true;
            }
            k = k + 1;
        }
        if !found {
            out.push(i);
        }
        i = i + 1;
    }
    out
}

/// Whether a piece lies inside a hint at where a table is.
pub open spec fn is_inside(hint: Seq<bool>) -> spec_fn(usize) -> bool {
    |k: usize| hint[k as int]
}

/// Whether a piece lies inside none of the hints.
pub open spec fn is_outside(hints: Seq<Seq<bool>>) -> spec_fn(usize) -> bool {
    |k: usize| forall|h: int| 0 <= h < hints.len() ==> !(#[trigger] hints[h])[k as int]
}

/// The pieces of a page that are searched together for tables by the position of their text: where
/// rectangles gave tables, those that they have not claimed; where they gave hints only, those
/// inside each hint, and those outside all of them; else all.
pub open spec fn search_groups(n: nat, claimed: Seq<usize>, hints: Seq<Seq<bool>>) -> Seq<
    Seq<usize>,
> {
    if claimed.len() > 0 {
        seq![indices(n).filter(is_free(claimed))]
    } else if hints.len() > 0 {
        hints.map_values(|h: Seq<bool>| indices(n).filter(is_inside(h))).push(
            indices(n).filter(is_outside(hints)),
        )
    } else {
        seq![indices(n)]
    }
}

/// Hints as they are held, as plain contents.
pub open spec fn hint_contents(hints: Seq<Vec<bool>>) -> Seq<Seq<bool>> {
    hints.map_values(|h: Vec<bool>| h@)
}

/// The pieces inside a hint; where `h` is the number of hints, those outside all of them.
fn collect_inside(n: usize, hints: &Vec<Vec<bool>>, h: usize) -> (r: Vec<usize>)
    requires
        forall|k: int| 0 <= k < hints@.len() ==> (#[trigger] hints@[k])@.len() == n,
        h <= hints@.len(),
    ensures
        r@ == indices(n as nat).filter(
            if h < hints@.len() {
                is_inside(hints@[h as int]@)
            } else {
                is_outside(hint_contents(hints@))
            },
        ),
{
    let ghost all = hint_contents(hints@);
    let ghost wanted = if h < hints@.len() {
        is_inside(hints@[h as int]@)
    } else {
        is_outside(all)
    };
    let mut out: Vec<usize> = Vec::new();
    let mut i: usize = 0;
    assert(indices(0).filter(wanted) =~= seq![]) by {
        reveal(Seq::filter);
    }
    while i < n
        invariant
            i <= n,
            h <= hints@.len(),
            all == hint_contents(hints@),
            forall|k: int| 0 <= k < hints@.len() ==> (#[trigger] hints@[k])@.len() == n,
            wanted == if h < hints@.len() {
                is_inside(hints@[h as int]@)
            } else {
                is_outside(all)
            },
            out@ == indices(i as nat).filter(wanted),
        decreases n - i,
    {
        assert(indices((i + 1) as nat) =~= indices(i as nat).push(i));
        assert(indices((i + 1) as nat).drop_last() =~= indices(i as nat));
        reveal(Seq::filter);
        let takes: bool = if h < hints.len() {
            assert(hints@[h as int]@.len() == n);
            hints[h][i]
        } else {
            let mut outside: bool = true;
            let mut k: usize = 0;
            while k < hints.len()
                invariant
                    i < n,
                    k <= hints@.len(),
                    all == hint_contents(hints@),
                    forall|j: int| 0 <= j < hints@.len() ==> (#[trigger] hints@[j])@.len() == n,
                    outside <==> forall|j: int| 0 <= j < k ==> !(#[trigger] all[j])[i as int],
                decreases hints@.len() - k,
            {
                assert(hints@[k as int]@.len() == n);
                assert(all[k as int] == hints@[k as int]@);
                if hints[k][i] {
                    outside = false;
                }
                k = k + 1;
            }
            outside
        };
        if takes {
            out.push(i);
        }
        i = i + 1;
    }
    out
}

/// The pieces of a page that are searched together for tables. `n` is the number of pieces,
/// `claimed` are those that the tables of rectangles hold, and each hint says of each piece whether
/// it lies inside.
pub fn plan_searches(n: usize, claimed: &Vec<usize>, hints: &Vec<Vec<bool>>) -> (r: Vec<Vec<usize>>)
    requires
        forall|k: int| 0 <= k < hints@.len() ==> (#[trigger] hints@[k])@.len() == n,
    ensures
        list_contents(r@) == search_groups(n as nat, claimed@, hint_contents(hints@)),
{
    let ghost all = hint_contents(hints@);
    let mut groups: Vec<Vec<usize>> = Vec::new();
    if claimed.len() > 0 {
        let group = unclaimed(n, claimed);
        let ghost added = group@;
        groups.push(group);
        assert(list_contents(groups@) =~= seq![added]);
        return groups;
    }
    if hints.len() == 0 {
        let group = count_up(n);
        groups.push(group);
        assert(list_contents(groups@) =~= seq![indices(n as nat)]);
        return groups;
    }
    let ghost expected = search_groups(n as nat, claimed@, all);
    let mut h: usize = 0;
    assert(list_contents(groups@) =~= expected.take(0));
    while h <= hints.len()
        invariant
            h <= hints@.len() + 1,
            hints@.len() > 0,
            claimed@.len() == 0,
            all == hint_contents(hints@),
            expected == search_groups(n as nat, claimed@, all),
            forall|k: int| 0 <= k < hints@.len() ==> (#[trigger] hints@[k])@.len() == n,
            list_contents(groups@) == expected.take(h as int),
        decreases hints@.len() + 1 - h,
    {
        let ghost before = list_contents(groups@);
        let group = collect_inside(n, hints, h);
        let ghost added = group@;
        groups.push(group);
        assert(list_contents(groups@) =~= before.push(added));
        assert(expected[h as int] == added);
        if h == hints.len() {
            assert(list_contents(groups@) =~= expected);
            return groups;
        }
        h = h + 1;
        assert(list_contents(groups@) =~= expected.take(h as int));
    }
    groups
}

/// Whether so many pieces are enough to be searched for a table.
pub fn is_worth_searching(n: usize) -> (r: bool)
    ensures
        r == (n >= 6),
{
    n >= 6
}

/// Whether a page is not in a list.
pub open spec fn is_absent(pages: Seq<u32>) -> spec_fn(u32) -> bool {
    |p: u32| !pages.contains(p)
}

/// The pages with tables that hold nothing but tables. `tables` are the pages with tables, `texts`
/// those of the pieces that no table holds.
pub fn table_only_pages(tables: &Vec<u32>, texts: &Vec<u32>) -> (r: Vec<u32>)
    ensures
        r@ == tables@.filter(is_absent(texts@)),
{
    let ghost wanted = is_absent(texts@);
    let mut out: Vec<u32> = Vec::new();
    let mut i: usize = 0;
    assert(tables@.take(0).filter(wanted) =~= seq![]) by {
        reveal(Seq::filter);
    }
    while i < tables.len()
        invariant
            i <= tables@.len(),
            wanted == is_absent(texts@),
            out@ == tables@.take(i as int).filter(wanted),
        decreases tables@.len() - i,
    {
        assert(tables@.take(i + 1).drop_last() =~= tables@.take(i as int));
        reveal(Seq::filter);
        let mut found: bool = false;
        let mut k: usize = 0;
        while k < texts.len()
            invariant
                k <= texts@.len(),
                i < tables@.len(),
                found <==> exists|j: int| 0 <= j < k && texts@[j] == tables@[i as int],
            decreases texts@.len() - k,
        {
            if texts[k] == tables[i] {
                found = true;
            }
            k = k + 1;
        }
        if !found {
            out.push(tables[i]);
        }
        i = i + 1;
    }
    assert(tables@.take(i as int) =~= tables@);
    out
}

} // verus!
