//! What happens to lines before they are written: laws on white space, running headers, drop caps and
//! headings of several lines.

use crate::layout::lemma_filter_member;
use crate::ordering::indices;
use crate::preprocess::{
    after_caps, cap_target, head_of, headers_among, highest, is_counted, is_kept, is_occurrence,
    is_one_character, is_repeated, is_structural, lowest, may_continue, norm_of, normalized,
    occurrences, page_threshold, pages_at, repeated, CapLine, EdgeLine, HeadingLine,
};
use crate::text::{begins_with, is_space, space_end, stands_at, trimmed, trimmed_start};
use crate::text_utils::{is_lower, is_upper};
use vstd::prelude::*;

verus! {

// ---------------------------------------------------------------------------------------------
// White space
// ---------------------------------------------------------------------------------------------

/// White space between words is as good as one space, and white space around them as none: a text with
/// white space inside is normalized part by part.
pub proof fn lemma_gaps_become_spaces(a: Seq<char>, gap: Seq<char>, b: Seq<char>)
    requires
        gap.len() > 0,
        forall|k: int| 0 <= k < gap.len() ==> is_space(#[trigger] gap[k]),
    ensures
        normalized(a + gap + b) == if normalized(a).len() > 0 && normalized(b).len() > 0 {
            normalized(a) + seq![' '] + normalized(b)
        } else {
            normalized(a) + normalized(b)
        },
    decreases gap.len() + b.len(),
{
    let s = a + gap + b;
    if b.len() == 0 {
        assert(s =~= a + gap);
        lemma_gap_is_dropped(a, gap);
        assert(normalized(a) + normalized(b) =~= normalized(a));
    } else {
        lemma_gaps_become_spaces(a, gap, b.drop_last());
        assert(s.drop_last() =~= a + gap + b.drop_last());
        assert(s.last() == b.last());
        if b.len() == 1 {
            assert(s[s.len() - 2] == gap.last());
            assert(gap.last() == gap[gap.len() - 1]);
            assert(normalized(b.drop_last()) =~= seq![]);
            assert(normalized(a) + normalized(b.drop_last()) =~= normalized(a));
        } else {
            assert(s[s.len() - 2] == b[b.len() - 2]);
        }
        let before = normalized(s.drop_last());
        if !is_space(b.last()) {
            if b.len() == 1 {
                assert(before == normalized(a));
                assert(normalized(b) =~= seq![b.last()]);
            } else if !is_space(b[b.len() - 2]) {
                lemma_ends_with_a_word(b.drop_last());
            }
            assert(normalized(s) =~= if normalized(a).len() > 0 && normalized(b).len() > 0 {
                normalized(a) + seq![' '] + normalized(b)
            } else {
                normalized(a) + normalized(b)
            });
        }
    }
}

proof fn lemma_gap_is_dropped(a: Seq<char>, gap: Seq<char>)
    requires
        forall|k: int| 0 <= k < gap.len() ==> is_space(#[trigger] gap[k]),
    ensures
        normalized(a + gap) == normalized(a),
    decreases gap.len(),
{
    if gap.len() > 0 {
        let short = gap.drop_last();
        assert forall|k: int| 0 <= k < short.len() implies is_space(#[trigger] short[k]) by {
            assert(short[k] == gap[k]);
        }
        lemma_gap_is_dropped(a, short);
        assert((a + gap).drop_last() =~= a + short);
        assert((a + gap).last() == gap[gap.len() - 1]);
    } else {
        assert(a + gap =~= a);
    }
}

proof fn lemma_ends_with_a_word(s: Seq<char>)
    requires
        s.len() > 0,
        !is_space(s.last()),
    ensures
        normalized(s).len() > 0,
{
}

/// A word is normalized as it stands.
pub proof fn lemma_words_stay(word: Seq<char>)
    requires
        forall|k: int| 0 <= k < word.len() ==> !is_space(#[trigger] word[k]),
    ensures
        normalized(word) == word,
    decreases word.len(),
{
    if word.len() > 0 {
        let short = word.drop_last();
        assert forall|k: int| 0 <= k < short.len() implies !is_space(#[trigger] short[k]) by {
            assert(short[k] == word[k]);
        }
        lemma_words_stay(short);
        assert(!is_space(word[word.len() - 1]));
        if word.len() > 1 {
            assert(!is_space(word[word.len() - 2]));
        }
        assert(normalized(word) =~= word);
    }
}

// ---------------------------------------------------------------------------------------------
// Headings, list items and separators
// ---------------------------------------------------------------------------------------------

/// Lines that start with a number sign, with a bullet and a space, or with a number and a full stop or
/// bracket are structural, whatever white space is before them; lines that start with a letter are not.
pub proof fn lemma_what_is_structural(rest: Seq<char>, d: char, letter: char)
    requires
        '0' <= d <= '9',
        'a' <= letter <= 'z' || 'A' <= letter <= 'Z',
    ensures
        is_structural(seq!['#'] + rest),
        is_structural(seq!['-', ' '] + rest),
        is_structural(seq!['*', ' '] + rest),
        is_structural(seq!['\u{2022}', ' '] + rest),
        is_structural(seq![d, '.', ' '] + rest),
        is_structural(seq![d, ')', ' '] + rest),
        !is_structural(seq![letter] + rest),
        !is_structural(Seq::<char>::empty()),
{
    reveal_strlit("- ");
    reveal_strlit("* ");
    reveal_strlit("• ");
    reveal_strlit(". ");
    reveal_strlit(") ");
    lemma_starts('#', rest);
    lemma_starts('-', seq![' '] + rest);
    lemma_starts('*', seq![' '] + rest);
    lemma_starts('\u{2022}', seq![' '] + rest);
    lemma_starts(d, seq!['.', ' '] + rest);
    lemma_starts(d, seq![')', ' '] + rest);
    lemma_starts(letter, rest);
    let a = seq!['-', ' '] + rest;
    assert(a =~= seq!['-'] + (seq![' '] + rest));
    assert(a.subrange(0, 2) =~= "- "@);
    let b = seq!['*', ' '] + rest;
    assert(b =~= seq!['*'] + (seq![' '] + rest));
    assert(b.subrange(0, 2) =~= "* "@);
    let c = seq!['\u{2022}', ' '] + rest;
    assert(c =~= seq!['\u{2022}'] + (seq![' '] + rest));
    assert(c.subrange(0, 2) =~= "• "@);
    let e = seq![d, '.', ' '] + rest;
    assert(e =~= seq![d] + (seq!['.', ' '] + rest));
    assert(e.subrange(1, 3) =~= ". "@);
    assert(stands_at(e, ". "@, 1));
    let f = seq![d, ')', ' '] + rest;
    assert(f =~= seq![d] + (seq![')', ' '] + rest));
    assert(f.subrange(1, 3) =~= ") "@);
    assert(stands_at(f, ") "@, 1));
    let g = seq![letter] + rest;
    assert("- "@[0] == '-');
    assert("* "@[0] == '*');
    assert("• "@[0] == '•');
    if begins_with(g, "- "@) {
        assert(g.subrange(0, 2)[0] == letter);
    }
    if begins_with(g, "* "@) {
        assert(g.subrange(0, 2)[0] == letter);
    }
    if begins_with(g, "• "@) {
        assert(g.subrange(0, 2)[0] == letter);
    }
    assert(trimmed_start(Seq::<char>::empty()) =~= seq![]);
}

proof fn lemma_starts(c: char, rest: Seq<char>)
    requires
        !is_space(c),
    ensures
        trimmed_start(seq![c] + rest) == seq![c] + rest,
{
    let s = seq![c] + rest;
    assert(space_end(s, 0) == 0);
    assert(trimmed_start(s) =~= s);
}

/// A separator is one character over and over; a text with two different characters is none.
pub proof fn lemma_what_a_separator_is(c: char, n: nat, s: Seq<char>, i: int, j: int)
    requires
        n > 0,
        0 <= i < s.len(),
        0 <= j < s.len(),
        s[i] != s[j],
    ensures
        is_one_character(Seq::new(n, |k: int| c)),
        !is_one_character(s),
{
}

// ---------------------------------------------------------------------------------------------
// Running headers
// ---------------------------------------------------------------------------------------------

/// Whether a line is in the top or the bottom fifteen percent of the range of heights of its page.
pub open spec fn is_near_an_edge(lines: Seq<EdgeLine>, i: int) -> bool {
    let low = lowest(lines, lines[i].page);
    let high = highest(lines, lines[i].page);
    100 * (lines[i].y - low) <= 15 * (high - low) || 100 * (high - lines[i].y) <= 15 * (high - low)
}

proof fn lemma_pages_at(lines: Seq<EdgeLine>, at: Seq<usize>, k: int)
    requires
        0 <= k < at.len(),
    ensures
        pages_at(lines, at).contains(lines[at[k] as int].page),
        pages_at(lines, at).finite(),
    decreases at.len(),
{
    if at.len() == 1 {
        assert(pages_at(lines, at.drop_last()) =~= Set::empty());
    }
    if k < at.len() - 1 {
        assert(at.drop_last()[k] == at[k]);
        lemma_pages_at(lines, at.drop_last(), k);
    } else if at.len() > 1 {
        lemma_pages_at(lines, at.drop_last(), 0);
    }
}

proof fn lemma_header_of(groups: Seq<Seq<usize>>, answers: Seq<bool>, g: int) -> (h: int)
    requires
        0 <= g < groups.len(),
        answers[g],
    ensures
        0 <= h < headers_among(groups, answers).len(),
        headers_among(groups, answers)[h] == groups[g].first(),
    decreases groups.len(),
{
    if g == groups.len() - 1 {
        headers_among(groups, answers).len() - 1
    } else {
        assert(groups.drop_last()[g] == groups[g]);
        lemma_header_of(groups.drop_last(), answers, g)
    }
}

/// Running headers are stripped: a text of at least ten characters, not all the same, that starts with
/// a letter, and stands at the edge of at least three pages and of three pages in ten, is stripped from
/// all of these places, where it is at a steady height.
pub proof fn lemma_running_headers_are_stripped(
    lines: Seq<EdgeLine>,
    page_count: u32,
    answers: Seq<bool>,
    places: Seq<usize>,
    i: int,
)
    requires
        lines.len() <= usize::MAX,
        page_count >= 3,
        places.len() >= 3,
        10 * places.len() >= 3 * page_count,
        0 <= i < places.len(),
        forall|k: int|
            0 <= k < places.len() ==> (#[trigger] places[k]) < lines.len() && is_near_an_edge(
                lines,
                places[k] as int,
            ) && normalized(lines[places[k] as int].text@) == normalized(
                lines[places[0] as int].text@,
            ),
        forall|j: int, k: int|
            0 <= j < k < places.len() ==> lines[#[trigger] places[j] as int].page != lines[
            #[trigger] places[k] as int].page,
        ({
            let t = normalized(lines[places[0] as int].text@);
            t.len() >= 10 && ('a' <= t[0] <= 'z' || 'A' <= t[0] <= 'Z') && exists|j: int|
                0 <= j < t.len() && #[trigger] t[j] != t[0]
        }),
        forall|g: int| 0 <= g < repeated(lines, page_count).len() ==> #[trigger] answers[g],
    ensures
        !indices(lines.len()).filter(
            is_kept(lines, headers_among(repeated(lines, page_count), answers)),
        ).contains(places[i]),
{
    broadcast use vstd::seq_lib::group_filter_ensures;

    let all = indices(lines.len());
    let t = normalized(lines[places[0] as int].text@);
    let line = places[i];
    assert(places[0] < lines.len());
    assert(norm_of(lines[line as int]) == t);
    let rest = t.skip(1);
    assert(t =~= seq![t[0]] + rest);
    lemma_what_is_structural(rest, '0', t[0]);
    let at = occurrences(lines, line as int);
    let wanted = is_occurrence(lines, line as int);
    assert forall|k: int| 0 <= k < places.len() implies at.contains(#[trigger] places[k]) by {
        assert(norm_of(lines[places[k] as int]) == t);
        assert(is_counted(lines, places[k] as int));
        assert(wanted(places[k]));
        assert(all[places[k] as int] == places[k]);
        assert(all.filter(wanted).contains(all[places[k] as int]));
    }
    let pages = places.map_values(|k: usize| lines[k as int].page);
    assert(pages.no_duplicates()) by {
        assert forall|j: int, k: int|
            0 <= j < pages.len() && 0 <= k < pages.len() && j != k implies pages[j] != pages[k] by {
            if j < k {
                assert(lines[places[j] as int].page != lines[places[k] as int].page);
            } else {
                assert(lines[places[k] as int].page != lines[places[j] as int].page);
            }
        }
    }
    pages.unique_seq_to_set();
    let found = pages_at(lines, at);
    assert(pages.to_set().subset_of(found)) by {
        assert forall|p: u32| pages.to_set().contains(p) implies found.contains(p) by {
            let k = choose|k: int| 0 <= k < pages.len() && pages[k] == p;
            assert(at.contains(places[k]));
            lemma_pages_at(lines, at, at.index_of(places[k]));
        }
    }
    assert(at.contains(line));
    lemma_pages_at(lines, at, at.index_of(line));
    vstd::set_lib::lemma_len_subset(pages.to_set(), found);
    assert(found.len() >= places.len());
    assert(found.len() >= page_threshold(page_count));
    let first = at.first();
    assert(at.contains(first));
    assert(wanted(all.filter(wanted)[0]));
    assert(norm_of(lines[first as int]) == t);
    assert(is_occurrence(lines, first as int) =~= wanted) by {
        assert forall|k: usize| #[trigger] is_occurrence(lines, first as int)(k) == wanted(k) by {}
    }
    assert(occurrences(lines, first as int) == at);
    lemma_filter_member(all, wanted, 0);
    assert(first < lines.len()) by {
        let k = all.index_of(first);
        assert(all[k] == first);
    }
    let good = is_repeated(lines, page_count);
    assert(good(first));
    assert(all[first as int] == first);
    let firsts = all.filter(good);
    assert(firsts.contains(all[first as int]));
    let g = firsts.index_of(first);
    let groups = repeated(lines, page_count);
    assert(groups[g] == at);
    assert(answers[g]);
    let h = lemma_header_of(groups, answers, g);
    let headers = headers_among(groups, answers);
    assert(norm_of(lines[headers[h] as int]) == norm_of(lines[line as int]));
    let kept = is_kept(lines, headers);
    assert(!kept(line));
    if all.filter(kept).contains(line) {
        let k = all.filter(kept).index_of(line);
        assert(kept(all.filter(kept)[k]));
    }
}

/// Lines away from the edges of their page, and lines of documents with fewer than three pages, are
/// kept, whatever they say; so are texts of fewer than ten characters.
pub proof fn lemma_other_lines_are_kept(
    lines: Seq<EdgeLine>,
    page_count: u32,
    answers: Seq<bool>,
    i: usize,
)
    requires
        i < lines.len() <= usize::MAX,
        page_count < 3 || !is_near_an_edge(lines, i as int) || normalized(
            lines[i as int].text@,
        ).len() < 10,
    ensures
        indices(lines.len()).filter(
            is_kept(lines, headers_among(repeated(lines, page_count), answers)),
        ).contains(i),
{
    crate::preprocess::lemma_never_stripped(lines, page_count, answers, i);
}

/// A text on fewer than three pages, or on fewer than three pages in ten, is kept wherever it stands.
pub proof fn lemma_rare_texts_are_kept(
    lines: Seq<EdgeLine>,
    page_count: u32,
    answers: Seq<bool>,
    i: usize,
    pages: Set<u32>,
)
    requires
        i < lines.len() <= usize::MAX,
        pages.finite(),
        pages.len() < 3 || pages.len() < 3 * page_count / 10,
        forall|k: int|
            0 <= k < lines.len() && normalized((#[trigger] lines[k]).text@) == normalized(
                lines[i as int].text@,
            ) ==> pages.contains(lines[k].page),
    ensures
        indices(lines.len()).filter(
            is_kept(lines, headers_among(repeated(lines, page_count), answers)),
        ).contains(i),
{
    let at = occurrences(lines, i as int);
    lemma_pages_within(lines, i as int, at, pages);
    vstd::set_lib::lemma_len_subset(pages_at(lines, at), pages);
    assert(page_count * 30 / 100 == 3 * page_count / 10);
    crate::preprocess::lemma_never_stripped(lines, page_count, answers, i);
}

proof fn lemma_pages_within(lines: Seq<EdgeLine>, i: int, at: Seq<usize>, pages: Set<u32>)
    requires
        lines.len() <= usize::MAX,
        at == occurrences(lines, i),
        forall|k: int|
            0 <= k < lines.len() && normalized((#[trigger] lines[k]).text@) == normalized(
                lines[i].text@,
            ) ==> pages.contains(lines[k].page),
    ensures
        pages_at(lines, at).subset_of(pages),
{
    broadcast use vstd::seq_lib::group_filter_ensures;

    let all = indices(lines.len());
    let wanted = is_occurrence(lines, i);
    assert forall|k: int| 0 <= k < at.len() implies pages.contains(
        lines[#[trigger] at[k] as int].page,
    ) by {
        assert(wanted(all.filter(wanted)[k]));
        lemma_filter_member(all, wanted, k);
        let j = all.index_of(at[k]);
        assert(all[j] == at[k]);
        assert(norm_of(lines[at[k] as int]) == normalized(lines[at[k] as int].text@));
    }
    lemma_pages_of_places(lines, at, pages);
}

proof fn lemma_pages_of_places(lines: Seq<EdgeLine>, at: Seq<usize>, pages: Set<u32>)
    requires
        forall|k: int| 0 <= k < at.len() ==> pages.contains(lines[#[trigger] at[k] as int].page),
    ensures
        pages_at(lines, at).subset_of(pages),
    decreases at.len(),
{
    if at.len() > 0 {
        let short = at.drop_last();
        assert forall|k: int| 0 <= k < short.len() implies pages.contains(
            lines[#[trigger] short[k] as int].page,
        ) by {
            assert(short[k] == at[k]);
        }
        lemma_pages_of_places(lines, short, pages);
        assert(pages.contains(lines[at[at.len() - 1] as int].page));
    }
}

// ---------------------------------------------------------------------------------------------
// Drop caps
// ---------------------------------------------------------------------------------------------

/// A drop cap goes in front of the line that it was cut from: the first one before it on its page that
/// starts with a small letter, where the line before that does not. It is no line of its own, and without such a line the letter is in no
/// line.
pub proof fn lemma_drop_caps_find_their_line(a: CapLine, b: CapLine, cap: CapLine)
    requires
        cap.is_large,
        trimmed(cap.text@).len() == 1,
        is_upper(trimmed(cap.text@)[0]),
        !a.is_large,
        !b.is_large,
        trimmed(a.text@).len() > 0,
        trimmed(b.text@).len() > 0,
    ensures
        ({
            let c = trimmed(cap.text@)[0];
            let small_a = is_lower(trimmed(a.text@)[0]);
            let small_b = is_lower(trimmed(b.text@)[0]);
            let one = after_caps(seq![a, cap], 2);
            let two = after_caps(seq![a, b, cap], 3);
            &&& one.kept == seq![0usize]
            &&& small_a && a.page == cap.page ==> one.merges == seq![(0usize, c)]
            &&& !small_a || a.page != cap.page ==> one.merges == Seq::<(usize, char)>::empty()
            &&& two.kept == seq![0usize, 1usize]
            &&& small_a && a.page == cap.page ==> two.merges == seq![(0usize, c)]
            &&& !small_a && small_b && b.page == cap.page ==> two.merges == seq![(1usize, c)]
            &&& !small_a && !small_b ==> two.merges == Seq::<(usize, char)>::empty()
            &&& small_a && small_b && a.page != cap.page ==> two.merges == Seq::<
                (usize, char),
            >::empty()
        }),
{
    reveal_with_fuel(after_caps, 4);
    reveal_with_fuel(cap_target, 4);
    let one = seq![a, cap];
    let two = seq![a, b, cap];
    let first = after_caps(one, 1);
    assert(first.kept =~= seq![0usize]);
    assert(first.initials =~= seq![Some(trimmed(a.text@)[0])]);
    let second = after_caps(two, 1);
    assert(second.kept =~= seq![0usize]);
    assert(second.initials =~= seq![Some(trimmed(a.text@)[0])]);
    let third = after_caps(two, 2);
    assert(third.kept =~= seq![0usize, 1usize]);
    assert(third.initials =~= seq![Some(trimmed(a.text@)[0]), Some(trimmed(b.text@)[0])]);
    assert(first.merges =~= seq![]);
    assert(third.merges =~= seq![]);
    let c = trimmed(cap.text@)[0];
    assert(after_caps(one, 2).merges =~= if is_lower(trimmed(a.text@)[0]) && a.page == cap.page {
        seq![(0usize, c)]
    } else {
        seq![]
    });
}

/// A large capital letter alone is a drop cap, and taken out; a letter that is not large, a small
/// letter, and a longer text are lines of their own.
pub proof fn lemma_what_drop_caps_are(line: CapLine)
    requires
        trimmed(line.text@).len() > 0,
    ensures
        line.is_large && trimmed(line.text@).len() == 1 && is_upper(trimmed(line.text@)[0])
            ==> after_caps(seq![line], 1).kept == Seq::<usize>::empty(),
        !line.is_large || trimmed(line.text@).len() > 1 || !is_upper(trimmed(line.text@)[0])
            ==> after_caps(seq![line], 1).kept == seq![0usize],
{
    reveal_with_fuel(after_caps, 2);
    assert(after_caps(seq![line], 1).kept =~= if line.is_large && trimmed(line.text@).len() == 1
        && is_upper(trimmed(line.text@)[0]) {
        Seq::<usize>::empty()
    } else {
        seq![0usize]
    });
}

// ---------------------------------------------------------------------------------------------
// Headings of several lines
// ---------------------------------------------------------------------------------------------

/// Only headings of the same level on the same page may be parts of one heading; a line that is no
/// heading is part of none.
pub proof fn lemma_parts_of_a_heading(page: u32, other: u32, level: u8, deeper: u8)
    requires
        page != other,
        level != deeper,
    ensures
        may_continue(
            (HeadingLine { page, level: Some(level) }),
            (HeadingLine { page, level: Some(level) }),
        ),
        !may_continue(
            (HeadingLine { page, level: Some(level) }),
            (HeadingLine { page, level: Some(deeper) }),
        ),
        !may_continue(
            (HeadingLine { page, level: Some(level) }),
            (HeadingLine { page: other, level: Some(level) }),
        ),
        !may_continue(
            (HeadingLine { page, level: Some(level) }),
            (HeadingLine { page, level: None }),
        ),
        !may_continue((HeadingLine { page, level: None }), (HeadingLine { page, level: None })),
{
}

/// The head of a line is the last one before it that starts a heading, or the first of all.
pub proof fn lemma_head_of_a_line(starts: Seq<bool>, i: int)
    requires
        0 < i <= starts.len(),
    ensures
        0 <= head_of(starts, i) < i,
        head_of(starts, i) > 0 ==> starts[head_of(starts, i)],
        forall|k: int| head_of(starts, i) < k < i ==> !(#[trigger] starts[k]),
    decreases i,
{
    if i > 1 && !starts[i - 1] {
        lemma_head_of_a_line(starts, i - 1);
    }
}

} // verus!
