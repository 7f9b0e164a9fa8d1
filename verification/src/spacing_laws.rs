//! What stands between pieces of text: laws on spaces, on emphasis and on page numbers.

use crate::layout::Spot;
use crate::numbers::{is_nan, order_of};
use crate::ordering::indices;
use crate::page_lines::{body_of, is_body};
use crate::spacing::{
    first_char, is_digit, join_of, last_char, line_text, marked_text, plain_text, with_piece,
    word_count, JoinRule, LinePiece, Marked,
};
use crate::text::{
    is_space, lemma_trimmed_of_clean, space_end, text_end, trimmed, trimmed_end, trimmed_start,
};
use crate::text_utils::{is_cid_name, is_cjk, is_letter, is_letter_or_number, is_lower, is_upper};
use vstd::prelude::*;

verus! {

// ---------------------------------------------------------------------------------------------
// Whether pieces are joined
// ---------------------------------------------------------------------------------------------

proof fn lemma_sides(a: Seq<char>, p: char, c: char, b: Seq<char>)
    requires
        !is_space(p),
        !is_space(c),
    ensures
        last_char(a.push(p)) == Some(p),
        first_char(seq![c] + b) == Some(c),
        a.push(p).last() == p,
        (seq![c] + b).first() == c,
{
    lemma_last(a.push(p));
    lemma_first(c, b);
}

proof fn lemma_first(c: char, b: Seq<char>)
    requires
        !is_space(c),
    ensures
        first_char(seq![c] + b) == Some(c),
{
    let t = seq![c] + b;
    assert(space_end(t, 0) == 0);
    assert(trimmed_start(t) =~= t);
}

proof fn lemma_last(s: Seq<char>)
    requires
        s.len() > 0,
        !is_space(s.last()),
    ensures
        last_char(s) == Some(s.last()),
{
    assert(text_end(s, s.len() as int) == s.len());
    assert(trimmed_end(s) =~= s);
}

proof fn lemma_sizes(a: Seq<char>, p: char, c: char, b: Seq<char>)
    requires
        !is_space(p),
        !is_space(c),
        a.len() > 0 ==> !is_space(a[0]),
        b.len() > 0 ==> !is_space(b.last()),
    ensures
        trimmed(a.push(p)) == a.push(p),
        trimmed(seq![c] + b) == seq![c] + b,
{
    lemma_trimmed_of_clean(a.push(p));
    lemma_trimmed_of_clean(seq![c] + b);
}

/// Where there is a space at either side of the gap between two pieces, they are apart.
pub proof fn lemma_spaces_are_respected(
    prev: Seq<char>,
    curr: Seq<char>,
    font: Seq<char>,
    width_known: bool,
)
    ensures
        join_of(prev.push(' '), curr, font, width_known) == JoinRule::Apart,
        join_of(prev, seq![' '] + curr, font, width_known) == JoinRule::Apart,
{
    assert((seq![' '] + curr).first() == ' ');
}

/// Punctuation that closes clings to what stands before it; behind a colon a word stands apart.
pub proof fn lemma_punctuation_clings(
    prev: Seq<char>,
    curr: Seq<char>,
    c: char,
    font: Seq<char>,
    width_known: bool,
)
    requires
        prev.len() > 0,
        prev.last() != ' ',
    ensures
        c == '.' || c == ',' || c == ';' || c == '!' || c == '?' || c == ')' || c == ']' || c == '}' || c
            == '\'' ==> join_of(prev, seq![c] + curr, font, width_known) == JoinRule::Together,
        prev.last() == ':' && is_letter_or_number(c) && !is_space(c) && c != '.' && c != ',' && c != ';'
            && c != '!' && c != '?' && c != ')' && c != ']' && c != '}' && c != '\'' ==> join_of(
            prev,
            seq![c] + curr,
            font,
            width_known,
        ) == JoinRule::Apart,
{
    assert(prev.drop_last().push(prev.last()) =~= prev);
    assert((seq![c] + curr).first() == c);
    if !is_space(c) {
        lemma_first(c, curr);
    }
    if prev.last() == ':' {
        lemma_last(prev);
    }
}

/// Whether a character is a plain part of a word: a letter that is no Chinese, Japanese or Korean
/// character, no digit, and no punctuation.
pub open spec fn is_wordly(c: char) -> bool {
    is_letter(c) && !is_cjk(c) && !is_space(c) && !is_digit(c) && !is_mark(c)
}

/// Whether a character is one of the marks that the rules for gaps name.
pub open spec fn is_mark(c: char) -> bool {
    c == '.' || c == ',' || c == ';' || c == '!' || c == '?' || c == ')' || c == ']' || c == '}' || c
        == '\'' || c == ':' || c == '%' || c == '+' || c == '-'
}

/// Pieces of known width are joined where the gap is narrow. Between words of two or more letters that
/// is less than eighteen hundredths of the font size where small letters meet, and fifteen elsewhere;
/// a tenth between two single letters; a fifth between a single letter and a word; three tenths within
/// a number.
pub proof fn lemma_gaps_of_known_width(
    a: Seq<char>,
    p: char,
    c: char,
    b: Seq<char>,
    d: char,
    e: char,
    font: Seq<char>,
)
    requires
        is_wordly(p),
        is_wordly(c),
        is_digit(d),
        is_digit(e),
        a.len() > 0 ==> !is_space(a[0]),
        b.len() > 0 ==> !is_space(b.last()),
        !is_cid_name(font),
    ensures
        a.len() > 0 && b.len() > 0 && is_lower(p) && is_lower(c) ==> join_of(
            a.push(p),
            seq![c] + b,
            font,
            true,
        ) == JoinRule::Within(18),
        a.len() > 0 && b.len() > 0 && !(is_lower(p) && is_lower(c)) ==> join_of(
            a.push(p),
            seq![c] + b,
            font,
            true,
        ) == JoinRule::Within(15),
        a.len() == 0 && b.len() == 0 ==> join_of(a.push(p), seq![c] + b, font, true)
            == JoinRule::Within(10),
        (a.len() == 0) != (b.len() == 0) ==> join_of(a.push(p), seq![c] + b, font, true)
            == JoinRule::Within(20),
        join_of(a.push(d), seq![e] + b, font, true) == JoinRule::Within(30),
        join_of(a.push('.'), seq![e] + b, font, true) == JoinRule::Within(30),
        join_of(a.push(','), seq![e] + b, font, true) == JoinRule::Within(30),
        join_of(a.push('-'), seq![e] + b, font, true) == JoinRule::Within(30),
        join_of(a.push('+'), seq![e] + b, font, true) == JoinRule::Within(30),
        join_of(a.push(d), seq!['%'] + b, font, true) == JoinRule::Within(30),
{
    assert(!is_space('.') && !is_space(',') && !is_space('-') && !is_space('+') && !is_space('%')
        && !is_space(d) && !is_space(e));
    assert(!is_cjk('.') && !is_cjk(',') && !is_cjk('-') && !is_cjk('+') && !is_cjk('%'));
    lemma_sides(a, p, c, b);
    lemma_sides(a, d, e, b);
    lemma_sides(a, '.', e, b);
    lemma_sides(a, ',', e, b);
    lemma_sides(a, '-', e, b);
    lemma_sides(a, '+', e, b);
    lemma_sides(a, d, '%', b);
    lemma_sizes(a, p, c, b);
    lemma_sizes(a, d, e, b);
    assert(a.push(p).len() == a.len() + 1);
    assert((seq![c] + b).len() == b.len() + 1);
}

/// Pieces of unknown width are joined by their letters: where their case is the same, up to eight
/// tenths of a character; a capital and a small letter up to three; a capital behind a small letter is
/// apart; what is no letter is joined up to five tenths, and characters of Chinese, Japanese and Korean
/// up to eight.
pub proof fn lemma_gaps_of_unknown_width(
    a: Seq<char>,
    p: char,
    c: char,
    b: Seq<char>,
    d: char,
    font: Seq<char>,
)
    requires
        is_wordly(p),
        is_wordly(c),
        is_digit(d),
        !is_letter(d),
    ensures
        is_lower(p) && is_lower(c) ==> join_of(a.push(p), seq![c] + b, font, false)
            == JoinRule::WithinCharacters(8),
        is_upper(p) && is_upper(c) ==> join_of(a.push(p), seq![c] + b, font, false)
            == JoinRule::WithinCharacters(8),
        is_lower(p) && !is_upper(p) && is_upper(c) && !is_lower(c) ==> join_of(
            a.push(p),
            seq![c] + b,
            font,
            false,
        ) == JoinRule::Apart,
        is_upper(p) && !is_lower(p) && is_lower(c) && !is_upper(c) ==> join_of(
            a.push(p),
            seq![c] + b,
            font,
            false,
        ) == JoinRule::WithinCharacters(3),
        join_of(a.push(d), seq![c] + b, font, false) == JoinRule::WithinCharacters(5),
        join_of(a.push(p), seq![d] + b, font, false) == JoinRule::WithinCharacters(5),
{
    assert(!is_space(d));
    lemma_sides(a, p, c, b);
    lemma_sides(a, d, c, b);
    lemma_sides(a, p, d, b);
}

/// Chinese, Japanese and Korean characters of unknown width are joined up to eight tenths of a
/// character, whatever stands at the other side.
pub proof fn lemma_gaps_of_ideographs(a: Seq<char>, p: char, c: char, b: Seq<char>, font: Seq<char>)
    requires
        !is_space(p),
        !is_space(c),
        !is_mark(p),
        !is_mark(c),
        is_cjk(p) || is_cjk(c),
    ensures
        join_of(a.push(p), seq![c] + b, font, false) == JoinRule::WithinCharacters(8),
{
    lemma_sides(a, p, c, b);
}

/// Words of a composite font that touch are apart: where the first piece has fewer than three words,
/// and neither side is Chinese, Japanese or Korean, the rule of a known width gets this exception.
pub proof fn lemma_words_of_composite_fonts(
    a: Seq<char>,
    p: char,
    c: char,
    b: Seq<char>,
    font: Seq<char>,
    plain: Seq<char>,
)
    requires
        is_wordly(p),
        is_wordly(c),
        is_cid_name(font),
        !is_cid_name(plain),
    ensures
        word_count(a.push(p)) < 3 ==> exists|n: u32| #[trigger]
            within(n) == join_of(a.push(p), seq![c] + b, plain, true) && join_of(
                a.push(p),
                seq![c] + b,
                font,
                true,
            ) == JoinRule::WithinUnlessTouching(n),
        word_count(a.push(p)) >= 3 ==> join_of(a.push(p), seq![c] + b, font, true) == join_of(
            a.push(p),
            seq![c] + b,
            plain,
            true,
        ),
{
    lemma_sides(a, p, c, b);
    let n = crate::spacing::known_width_limit(a.push(p), seq![c] + b);
    assert(within(n) == join_of(a.push(p), seq![c] + b, plain, true));
}

/// The rule of a limit in hundredths of the font size.
pub open spec fn within(n: u32) -> JoinRule {
    JoinRule::Within(n)
}

/// The words of a text are counted: each word adds one, however much white space is before it.
pub proof fn lemma_words_are_counted(s: Seq<char>, gap: char, word: Seq<char>)
    requires
        is_space(gap),
        word.len() > 0,
        forall|k: int| 0 <= k < word.len() ==> !is_space(#[trigger] word[k]),
    ensures
        word_count(Seq::<char>::empty()) == 0,
        word_count(s.push(gap)) == word_count(s),
        word_count(word) == 1,
        word_count(s.push(gap) + word) == word_count(s) + 1,
    decreases word.len(),
{
    assert(s.push(gap).drop_last() =~= s);
    let short = word.drop_last();
    assert((s.push(gap) + word).drop_last() =~= s.push(gap) + short);
    assert(word.last() == word[word.len() - 1]);
    if short.len() > 0 {
        assert forall|k: int| 0 <= k < short.len() implies !is_space(#[trigger] short[k]) by {
            assert(short[k] == word[k]);
        }
        lemma_words_are_counted(s, gap, short);
        assert(!is_space(word[word.len() - 2]));
        assert((s.push(gap) + word)[(s.push(gap) + word).len() - 2] == word[word.len() - 2]);
    } else {
        assert(s.push(gap) + short =~= s.push(gap));
        assert((s.push(gap) + word)[(s.push(gap) + word).len() - 2] == gap);
        assert(word_count(short) == 0);
    }
}

// ---------------------------------------------------------------------------------------------
// The text of a line
// ---------------------------------------------------------------------------------------------

/// A line without emphasis grows piece by piece: what a piece holds is put behind the line, with a
/// space before it but where the piece is tight, where a hyphen is at the end of the line or at the
/// start of the piece, and where there is a space already.
pub proof fn lemma_lines_grow_by_pieces(pieces: Seq<LinePiece>, piece: LinePiece)
    requires
        piece.text@.len() > 0,
    ensures
        line_text(seq![piece], false, false) == piece.text@,
        ({
            let line = line_text(pieces, false, false);
            let joined = piece.is_tight || piece.text@[0] == ' ' || piece.text@[0] == '-' || trimmed(
                piece.text@,
            ) == seq!['-'] || (line.len() > 0 && (line.last() == ' ' || line.last() == '-'));
            pieces.len() > 0 ==> line_text(pieces.push(piece), false, false) == if joined {
                line + piece.text@
            } else {
                line + seq![' '] + piece.text@
            }
        }),
{
    let one = seq![piece];
    reveal_with_fuel(plain_text, 3);
    assert(plain_text(one, 1) =~= piece.text@);
    let more = pieces.push(piece);
    lemma_same_pieces(pieces, more, pieces.len() as int);
    let line = line_text(pieces, false, false);
    assert(line.push(' ') =~= line + seq![' ']);
}

proof fn lemma_same_pieces(a: Seq<LinePiece>, b: Seq<LinePiece>, n: int)
    requires
        0 <= n <= a.len(),
        n <= b.len(),
        forall|k: int| 0 <= k < n ==> a[k] == b[k],
    ensures
        plain_text(a, n) == plain_text(b, n),
    decreases n,
{
    if n > 0 {
        lemma_same_pieces(a, b, n - 1);
    }
}

/// Whether the text of a piece is a word that needs no trimming, and no hyphen at either end.
pub open spec fn is_clean(piece: LinePiece) -> bool {
    piece.text@.len() > 0 && !is_space(piece.text@.first()) && !is_space(piece.text@.last())
        && piece.text@.first() != '-' && piece.text@.last() != '-'
}

/// The marks of a piece: two asterisks for bold, one for italic, three for both, none for neither.
pub open spec fn mark_of(bold: bool, italic: bool) -> Seq<char> {
    if bold && italic {
        seq!['*', '*', '*']
    } else if bold {
        seq!['*', '*']
    } else if italic {
        seq!['*']
    } else {
        seq![]
    }
}

/// Emphasis stands around a piece: bold between two asterisks, italic between one, as far as it is
/// asked for.
pub proof fn lemma_emphasis_stands_around_a_piece(
    piece: LinePiece,
    format_bold: bool,
    format_italic: bool,
)
    requires
        is_clean(piece),
        format_bold || format_italic,
    ensures
        ({
            let mark = mark_of(format_bold && piece.is_bold, format_italic && piece.is_italic);
            line_text(seq![piece], format_bold, format_italic) == mark + piece.text@ + mark
        }),
{
    lemma_trimmed_of_clean(piece.text@);
    reveal_with_fuel(marked_text, 2);
    let mark = mark_of(format_bold && piece.is_bold, format_italic && piece.is_italic);
    assert(line_text(seq![piece], format_bold, format_italic) =~= mark + piece.text@ + mark);
}

/// Pieces with the same emphasis share their marks; where only the first is emphasized, its marks are
/// closed before the space; where only the second is, they are opened behind it.
pub proof fn lemma_emphasis_of_two_pieces(a: LinePiece, b: LinePiece, bold: bool, italic: bool)
    requires
        is_clean(a),
        is_clean(b),
        !b.is_tight,
        bold || italic,
        a.is_bold == bold || b.is_bold == bold,
    ensures
        ({
            let mark = mark_of(bold, italic);
            let both = line_text(seq![a, b], true, true);
            let plain_a = !a.is_bold && !a.is_italic;
            let plain_b = !b.is_bold && !b.is_italic;
            let marked_a = a.is_bold == bold && a.is_italic == italic;
            let marked_b = b.is_bold == bold && b.is_italic == italic;
            &&& marked_a && marked_b ==> both == mark + a.text@ + seq![' '] + b.text@ + mark
            &&& marked_a && plain_b ==> both == mark + a.text@ + mark + seq![' '] + b.text@
            &&& plain_a && marked_b ==> both == a.text@ + seq![' '] + mark + b.text@ + mark
        }),
{
    lemma_trimmed_of_clean(a.text@);
    lemma_trimmed_of_clean(b.text@);
    reveal_with_fuel(marked_text, 3);
    let mark = mark_of(bold, italic);
    let both = line_text(seq![a, b], true, true);
    let plain_a = !a.is_bold && !a.is_italic;
    let plain_b = !b.is_bold && !b.is_italic;
    let marked_a = a.is_bold == bold && a.is_italic == italic;
    let marked_b = b.is_bold == bold && b.is_italic == italic;
    let start = Marked { text: seq![], bold: false, italic: false };
    let first = with_piece(start, a, true, true, true);
    assert(first.text =~= mark_of(a.is_bold, a.is_italic) + a.text@);
    assert(b.text@ != seq!['-']);
    if marked_a && marked_b {
        assert(both =~= mark + a.text@ + seq![' '] + b.text@ + mark);
    }
    if marked_a && plain_b {
        assert(both =~= mark + a.text@ + mark + seq![' '] + b.text@);
    }
    if plain_a && marked_b {
        assert(both =~= a.text@ + seq![' '] + mark + b.text@ + mark);
    }
}

// ---------------------------------------------------------------------------------------------
// Page numbers
// ---------------------------------------------------------------------------------------------

/// The bits of the heights 720 and 100.
pub open spec fn margin_heights() -> (u32, u32) {
    (0x4434_0000, 0x42C8_0000)
}

/// Numbers of up to four digits in the margin of a page are page numbers, and stand in no line; all
/// other pieces do, in their order. The margins are above the height 720 and below 100.
pub proof fn lemma_page_numbers_are_left_out(spots: Seq<Spot>, texts: Seq<Seq<char>>, k: usize)
    requires
        k < spots.len() <= usize::MAX,
        spots.len() == texts.len(),
        texts[k as int].len() > 0,
        !is_nan(spots[k as int].y),
    ensures
        ({
            let t = texts[k as int];
            let y = order_of(spots[k as int].y);
            let digits = forall|i: int| 0 <= i < t.len() ==> '0' <= #[trigger] t[i] <= '9';
            let margin = y > order_of(margin_heights().0) || y < order_of(margin_heights().1);
            &&& digits && t.len() <= 4 && margin ==> !body_of(spots, texts).contains(k)
            &&& digits && t.len() > 4 ==> body_of(spots, texts).contains(k)
            &&& !margin ==> body_of(spots, texts).contains(k)
            &&& 'A' <= t[0] <= 'z' ==> body_of(spots, texts).contains(k)
        }),
{
    broadcast use vstd::seq_lib::group_filter_ensures;

    let t = texts[k as int];
    let all = indices(spots.len());
    assert(all[k as int] == k);
    let wanted = is_body(spots, texts);
    if forall|i: int| 0 <= i < t.len() ==> '0' <= #[trigger] t[i] <= '9' {
        assert('0' <= t[0] <= '9');
        assert('0' <= t[t.len() - 1] <= '9');
        lemma_trimmed_of_clean(t);
    }
    if 'A' <= t[0] <= 'z' {
        assert(space_end(t, 0) == 0);
        assert(trimmed_start(t) =~= t);
        crate::text::lemma_text_end(t, t.len() as int);
        if trimmed(t).len() > 0 {
            assert(trimmed(t)[0] == t[0]);
            assert(!is_digit(trimmed(t)[0]));
        }
    }
    if wanted(k) {
        assert(all.filter(wanted).contains(all[k as int]));
    } else {
        if all.filter(wanted).contains(k) {
            let i = all.filter(wanted).index_of(k);
            assert(wanted(all.filter(wanted)[i]));
        }
    }
}

} // verus!
