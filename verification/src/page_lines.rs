//! The lines of a document, page by page.

use crate::layout::{is_margin, is_page_number, is_short_number, joined_lists, text_contents, Spot};
use crate::ordering::indices;
use crate::process::{distinct_pages, go_up};
use crate::tables::list_contents;
use vstd::multiset::Multiset;
use vstd::prelude::*;

verus! {

/// Whether a piece of text is no page number.
pub open spec fn is_body(spots: Seq<Spot>, texts: Seq<Seq<char>>) -> spec_fn(usize) -> bool {
    |k: usize| !(is_short_number(texts[k as int]) && is_margin(spots[k as int].y))
}

/// The pieces of text that are no page numbers.
pub open spec fn body_of(spots: Seq<Spot>, texts: Seq<Seq<char>>) -> Seq<usize> {
    indices(spots.len()).filter(is_body(spots, texts))
}

/// Whether a piece is on a page.
pub open spec fn is_on(spots: Seq<Spot>, page: u32) -> spec_fn(usize) -> bool {
    |k: usize| spots[k as int].page == page
}

/// Those of the given pieces that are on a page.
pub open spec fn on_page(list: Seq<usize>, spots: Seq<Spot>, page: u32) -> Seq<usize> {
    list.filter(is_on(spots, page))
}

/// The pages of pieces.
pub open spec fn pages_of_list(list: Seq<usize>, spots: Seq<Spot>) -> Seq<u32> {
    list.map_values(|k: usize| spots[k as int].page)
}

/// Whether answers are those of `page_lines` for the pieces of each of the given pages.
pub open spec fn are_page_lines<F: Fn(&Vec<usize>) -> Vec<Vec<usize>>>(
    page_lines: F,
    body: Seq<usize>,
    spots: Seq<Spot>,
    pages: Seq<u32>,
    given: Seq<Vec<usize>>,
    answers: Seq<Vec<Vec<usize>>>,
) -> bool {
    &&& given.len() == pages.len()
    &&& answers.len() == pages.len()
    &&& forall|k: int|
        0 <= k < pages.len() ==> (#[trigger] given[k])@ == on_page(body, spots, pages[k])
            && page_lines.ensures((&given[k],), answers[k])
}

/// The lines of the first `n` pages, one page behind the other.
pub open spec fn joined_answers(answers: Seq<Vec<Vec<usize>>>, n: int) -> Seq<Seq<usize>>
    decreases n,
{
    if n <= 0 {
        seq![]
    } else {
        joined_answers(answers, n - 1) + list_contents(answers[n - 1]@)
    }
}

/// Whether pages are the pages of pieces, in ascending order.
pub open spec fn are_pages(pages: Seq<u32>, body: Seq<usize>, spots: Seq<Spot>) -> bool {
    go_up(pages) && forall|p: u32| #[trigger]
        pages.contains(p) <==> pages_of_list(body, spots).contains(p)
}

/// Whether the pages of lines ascend, and each line is on one page.
pub open spec fn do_ascend(lines: Seq<Seq<usize>>, spots: Seq<Spot>) -> bool {
    forall|i: int, j: int, a: int, b: int|
        0 <= i <= j < lines.len() && 0 <= a < lines[i].len() && 0 <= b < lines[j].len()
            ==> spots[#[trigger] lines[i][a] as int].page <= spots[
        #[trigger] lines[j][b] as int].page
}

/// Whether all pieces of lines are on a page.
spec fn are_on(lines: Seq<Seq<usize>>, spots: Seq<Spot>, page: u32) -> bool {
    forall|i: int, a: int|
        0 <= i < lines.len() && 0 <= a < lines[i].len() ==> spots[
        #[trigger] lines[i][a] as int].page == page
}

/// Whether all pieces of lines are on earlier pages.
spec fn are_before(lines: Seq<Seq<usize>>, spots: Seq<Spot>, page: u32) -> bool {
    forall|i: int, a: int|
        0 <= i < lines.len() && 0 <= a < lines[i].len() ==> spots[
        #[trigger] lines[i][a] as int].page < page
}

/// Whether `page_lines` puts each piece that it is given into one line.
pub open spec fn loses_nothing<F: Fn(&Vec<usize>) -> Vec<Vec<usize>>>(page_lines: F) -> bool {
    forall|given: &Vec<usize>, lines: Vec<Vec<usize>>| #[trigger]
        page_lines.ensures((given,), lines) ==> joined_lists(list_contents(lines@)).to_multiset()
            == given@.to_multiset()
}

/// Puts the pieces of a document into lines, page by page, without page numbers. `page_lines` puts
/// pieces of one page into lines, each into one.
pub fn group_pages<F: Fn(&Vec<usize>) -> Vec<Vec<usize>>>(
    spots: &Vec<Spot>,
    texts: &Vec<String>,
    page_lines: F,
) -> (r: Vec<Vec<usize>>)
    requires
        spots@.len() == texts@.len(),
        forall|given: &Vec<usize>| page_lines.requires((given,)),
        loses_nothing(page_lines),
    ensures
        ({
            let body = body_of(spots@, text_contents(texts@));
            &&& exists|pages: Seq<u32>, given: Seq<Vec<usize>>, answers: Seq<Vec<Vec<usize>>>|
                are_pages(pages, body, spots@) && #[trigger] are_page_lines(
                    page_lines,
                    body,
                    spots@,
                    pages,
                    given,
                    answers,
                ) && list_contents(r@) == joined_answers(answers, answers.len() as int)
            &&& joined_lists(list_contents(r@)).to_multiset() == body.to_multiset()
            &&& do_ascend(list_contents(r@), spots@)
        }),
{
    let n: usize = spots.len();
    let ghost names = text_contents(texts@);
    let ghost body = body_of(spots@, names);
    let mut list: Vec<usize> = Vec::new();
    let mut numbers: Vec<u32> = Vec::new();
    let mut i: usize = 0;
    assert(indices(0).filter(is_body(spots@, names)) =~= seq![]) by {
        reveal(Seq::filter);
    }
    while i < n
        invariant
            i <= n == spots@.len() == texts@.len(),
            names == text_contents(texts@),
            list@ == indices(i as nat).filter(is_body(spots@, names)),
            numbers@ == pages_of_list(list@, spots@),
            forall|k: int| 0 <= k < list@.len() ==> (#[trigger] list@[k]) < n,
        decreases n - i,
    {
        assert(indices((i + 1) as nat) =~= indices(i as nat).push(i));
        assert(indices((i + 1) as nat).drop_last() =~= indices(i as nat));
        reveal(Seq::filter);
        assert(names[i as int] == texts@[i as int]@);
        let ghost before = list@;
        if !is_page_number(texts[i].as_str(), spots[i].y) {
            list.push(i);
            numbers.push(spots[i].page);
            assert(pages_of_list(list@, spots@) =~= pages_of_list(before, spots@).push(
                spots@[i as int].page,
            ));
        }
        i = i + 1;
    }
    assert(list@ == body);
    let pages: Vec<u32> = distinct_pages(&numbers);
    let ghost mut given: Seq<Vec<usize>> = seq![];
    let ghost mut answers: Seq<Vec<Vec<usize>>> = seq![];
    let mut out: Vec<Vec<usize>> = Vec::new();
    let mut p: usize = 0;
    proof {
        assert(list_contents(out@) =~= seq![]);
        assert(joined_lists(seq![]).to_multiset() =~= Multiset::empty()) by {
            broadcast use vstd::seq_lib::group_to_multiset_ensures;

            assert(joined_lists(seq![]) =~= seq![]);
        }
    }
    while p < pages.len()
        invariant
            p <= pages@.len(),
            n == spots@.len(),
            list@ == body,
            forall|k: int| 0 <= k < list@.len() ==> (#[trigger] list@[k]) < n,
            go_up(pages@),
            forall|k: &Vec<usize>| page_lines.requires((k,)),
            loses_nothing(page_lines),
            given.len() == p,
            answers.len() == p,
            forall|k: int|
                0 <= k < p ==> (#[trigger] given[k])@ == on_page(body, spots@, pages@[k])
                    && page_lines.ensures((&given[k],), answers[k]),
            list_contents(out@) == joined_answers(answers, p as int),
            joined_lists(list_contents(out@)).to_multiset() == parts_of(
                body,
                spots@,
                pages@,
                p as int,
            ),
            do_ascend(list_contents(out@), spots@),
            p < pages@.len() ==> are_before(list_contents(out@), spots@, pages@[p as int]),
        decreases pages@.len() - p,
    {
        let page: u32 = pages[p];
        let chosen: Vec<usize> = pick_page(&list, spots, page);
        let mut lines: Vec<Vec<usize>> = page_lines(&chosen);
        let ghost before = out@;
        let ghost added = lines@;
        let ghost answer = lines;
        out.append(&mut lines);
        proof {
            given = given.push(chosen);
            let earlier = answers;
            answers = answers.push(answer);
            lemma_joined_answers(earlier, answers, p as int);
            assert(list_contents(out@) =~= list_contents(before) + list_contents(added));
            lemma_joined_lists_add(list_contents(before), list_contents(added));
            lemma_multiset_add(
                joined_lists(list_contents(before)),
                joined_lists(list_contents(added)),
            );
            assert forall|i: int, a: int|
                0 <= i < list_contents(added).len() && 0 <= a < list_contents(added)[i].len() implies
                spots@[#[trigger] list_contents(added)[i][a] as int].page == page by {
                lemma_member_of_list(list_contents(added), i, a);
                let x = list_contents(added)[i][a];
                lemma_same_members(joined_lists(list_contents(added)), chosen@, x);
                let k = chosen@.index_of(x);
                lemma_on_page(body, spots@, page, k);
            }
            assert(are_on(list_contents(added), spots@, page));
            lemma_ascend(list_contents(before), list_contents(added), spots@, page);
            if p + 1 < pages@.len() {
                let next = pages@[p + 1];
                assert(page < next);
                lemma_before(list_contents(before), list_contents(added), spots@, page, next);
            }
        }
        p = p + 1;
    }
    proof {
        assert(are_page_lines(page_lines, body, spots@, pages@, given, answers));
        assert(are_pages(pages@, body, spots@));
        assert forall|k: int| 0 <= k < body.len() implies pages@.contains(
            spots@[#[trigger] body[k] as int].page,
        ) by {
            assert(pages_of_list(body, spots@)[k] == spots@[body[k] as int].page);
            assert(numbers@.contains(spots@[body[k] as int].page));
        }
        lemma_parts_are_all(body, spots@, pages@);
    }
    out
}

/// Those of the given pieces that are on a page.
fn pick_page(list: &Vec<usize>, spots: &Vec<Spot>, page: u32) -> (r: Vec<usize>)
    requires
        forall|k: int| 0 <= k < list@.len() ==> (#[trigger] list@[k]) < spots@.len(),
    ensures
        r@ == on_page(list@, spots@, page),
{
    let ghost wanted = is_on(spots@, page);
    let mut out: Vec<usize> = Vec::new();
    let mut i: usize = 0;
    assert(list@.take(0).filter(wanted) =~= seq![]) by {
        reveal(Seq::filter);
    }
    while i < list.len()
        invariant
            i <= list@.len(),
            wanted == is_on(spots@, page),
            forall|k: int| 0 <= k < list@.len() ==> (#[trigger] list@[k]) < spots@.len(),
            out@ == list@.take(i as int).filter(wanted),
        decreases list@.len() - i,
    {
        assert(list@.take(i + 1).drop_last() =~= list@.take(i as int));
        reveal(Seq::filter);
        let k: usize = list[i];
        if spots[k].page == page {
            out.push(k);
        }
        i = i + 1;
    }
    assert(list@.take(i as int) =~= list@);
    out
}

// ---------------------------------------------------------------------------------------------
// Nothing is lost
// ---------------------------------------------------------------------------------------------

/// The pieces of the first `n` pages.
spec fn parts_of(list: Seq<usize>, spots: Seq<Spot>, pages: Seq<u32>, n: int) -> Multiset<usize>
    decreases n,
{
    if n <= 0 {
        Multiset::empty()
    } else {
        parts_of(list, spots, pages, n - 1).add(
            on_page(list, spots, pages[n - 1]).to_multiset(),
        )
    }
}

/// One more piece is one more on its page.
proof fn lemma_parts_push(
    list: Seq<usize>,
    x: usize,
    spots: Seq<Spot>,
    pages: Seq<u32>,
    n: int,
)
    requires
        go_up(pages),
        0 <= n <= pages.len(),
    ensures
        parts_of(list.push(x), spots, pages, n) == if pages.take(n).contains(
            spots[x as int].page,
        ) {
            parts_of(list, spots, pages, n).insert(x)
        } else {
            parts_of(list, spots, pages, n)
        },
    decreases n,
{
    broadcast use vstd::seq_lib::group_to_multiset_ensures;

    let page = spots[x as int].page;
    if n > 0 {
        lemma_parts_push(list, x, spots, pages, n - 1);
        let last = pages[n - 1];
        let more = list.push(x);
        reveal(Seq::filter);
        assert(more.drop_last() =~= list);
        let head = pages.take(n - 1);
        let now = pages.take(n);
        assert(now =~= head.push(last));
        if page == last {
            assert(now[n - 1] == page);
            assert(!head.contains(page)) by {
                if head.contains(page) {
                    let k = head.index_of(page);
                    assert(pages[k] < pages[n - 1]);
                }
            }
            let part = on_page(list, spots, last);
            assert(on_page(more, spots, last) =~= part.push(x));
            assert(parts_of(more, spots, pages, n) =~= parts_of(list, spots, pages, n).insert(x));
        } else {
            assert(on_page(more, spots, last) =~= on_page(list, spots, last));
            if head.contains(page) {
                assert(now[head.index_of(page)] == page);
                assert(parts_of(more, spots, pages, n) =~= parts_of(list, spots, pages, n).insert(
                    x,
                ));
            } else {
                assert(!now.contains(page)) by {
                    if now.contains(page) {
                        let k = now.index_of(page);
                        assert(head[k] == page);
                    }
                }
            }
        }
    } else {
        assert(!pages.take(n).contains(page));
    }
}

/// The pieces of all pages are all pieces.
proof fn lemma_parts_are_all(list: Seq<usize>, spots: Seq<Spot>, pages: Seq<u32>)
    requires
        go_up(pages),
        forall|k: int|
            0 <= k < list.len() ==> pages.contains(spots[#[trigger] list[k] as int].page),
    ensures
        parts_of(list, spots, pages, pages.len() as int) == list.to_multiset(),
    decreases list.len(),
{
    broadcast use vstd::seq_lib::group_to_multiset_ensures;

    if list.len() == 0 {
        lemma_no_parts(list, spots, pages, pages.len() as int);
        assert(list.to_multiset() =~= Multiset::empty());
    } else {
        let rest = list.drop_last();
        let x = list.last();
        assert(list == rest.push(x)) by {
            assert(list =~= rest.push(x));
        }
        assert forall|k: int| 0 <= k < rest.len() implies pages.contains(
            spots[#[trigger] rest[k] as int].page,
        ) by {
            assert(rest[k] == list[k]);
        }
        lemma_parts_are_all(rest, spots, pages);
        lemma_parts_push(rest, x, spots, pages, pages.len() as int);
        assert(pages.take(pages.len() as int) =~= pages);
        assert(pages.contains(spots[list[list.len() - 1] as int].page));
        assert(list.to_multiset() =~= rest.to_multiset().insert(x));
    }
}

proof fn lemma_no_parts(list: Seq<usize>, spots: Seq<Spot>, pages: Seq<u32>, n: int)
    requires
        list.len() == 0,
    ensures
        parts_of(list, spots, pages, n) == Multiset::<usize>::empty(),
    decreases n,
{
    broadcast use vstd::seq_lib::group_to_multiset_ensures;

    if n > 0 {
        lemma_no_parts(list, spots, pages, n - 1);
        reveal(Seq::filter);
        assert(on_page(list, spots, pages[n - 1]).to_multiset() =~= Multiset::empty());
        assert(parts_of(list, spots, pages, n) =~= Multiset::empty());
    }
}

proof fn lemma_joined_answers(a: Seq<Vec<Vec<usize>>>, b: Seq<Vec<Vec<usize>>>, n: int)
    requires
        n <= a.len(),
        n <= b.len(),
        forall|k: int| 0 <= k < n ==> a[k] == b[k],
    ensures
        joined_answers(a, n) == joined_answers(b, n),
    decreases n,
{
    if n > 0 {
        lemma_joined_answers(a, b, n - 1);
    }
}

proof fn lemma_joined_lists_add(a: Seq<Seq<usize>>, b: Seq<Seq<usize>>)
    ensures
        joined_lists(a + b) == joined_lists(a) + joined_lists(b),
    decreases b.len(),
{
    if b.len() == 0 {
        assert(a + b =~= a);
        assert(joined_lists(a) + joined_lists(b) =~= joined_lists(a));
    } else {
        lemma_joined_lists_add(a, b.drop_last());
        assert((a + b).drop_last() =~= a + b.drop_last());
        assert((a + b).last() == b.last());
        assert(joined_lists(a + b) =~= joined_lists(a) + joined_lists(b));
    }
}

proof fn lemma_multiset_add(a: Seq<usize>, b: Seq<usize>)
    ensures
        (a + b).to_multiset() == a.to_multiset().add(b.to_multiset()),
{
    vstd::seq_lib::lemma_multiset_commutative(a, b);
}

proof fn lemma_same_members(a: Seq<usize>, b: Seq<usize>, x: usize)
    requires
        a.to_multiset() == b.to_multiset(),
        a.contains(x),
    ensures
        b.contains(x),
{
    broadcast use vstd::seq_lib::group_to_multiset_ensures;

    assert(a.to_multiset().count(x) > 0);
    assert(b.to_multiset().count(x) > 0);
}

proof fn lemma_member_of_list(lists: Seq<Seq<usize>>, i: int, a: int)
    requires
        0 <= i < lists.len(),
        0 <= a < lists[i].len(),
    ensures
        joined_lists(lists).contains(lists[i][a]),
    decreases lists.len(),
{
    let rest = joined_lists(lists.drop_last());
    if i < lists.len() - 1 {
        lemma_member_of_list(lists.drop_last(), i, a);
        let k = rest.index_of(lists[i][a]);
        assert(joined_lists(lists)[k] == lists[i][a]);
    } else {
        assert(joined_lists(lists)[rest.len() + a] == lists[i][a]);
    }
}

proof fn lemma_on_page(list: Seq<usize>, spots: Seq<Spot>, page: u32, k: int)
    requires
        0 <= k < on_page(list, spots, page).len(),
    ensures
        spots[on_page(list, spots, page)[k] as int].page == page,
{
    broadcast use vstd::seq_lib::group_filter_ensures;

    assert(is_on(spots, page)(list.filter(is_on(spots, page))[k]));
}

proof fn lemma_ascend(a: Seq<Seq<usize>>, b: Seq<Seq<usize>>, spots: Seq<Spot>, page: u32)
    requires
        do_ascend(a, spots),
        are_before(a, spots, page),
        are_on(b, spots, page),
    ensures
        do_ascend(a + b, spots),
{
    let all = a + b;
    assert forall|i: int, j: int, x: int, y: int|
        0 <= i <= j < all.len() && 0 <= x < all[i].len() && 0 <= y < all[j].len() implies spots[
    #[trigger] all[i][x] as int].page <= spots[#[trigger] all[j][y] as int].page by {
        if i < a.len() {
            assert(all[i][x] == a[i][x]);
        } else {
            assert(all[i][x] == b[i - a.len()][x]);
        }
        if j < a.len() {
            assert(all[j][y] == a[j][y]);
        } else {
            assert(all[j][y] == b[j - a.len()][y]);
        }
    }
}

proof fn lemma_before(
    a: Seq<Seq<usize>>,
    b: Seq<Seq<usize>>,
    spots: Seq<Spot>,
    page: u32,
    next: u32,
)
    requires
        are_before(a, spots, page),
        are_on(b, spots, page),
        page < next,
    ensures
        are_before(a + b, spots, next),
{
    let all = a + b;
    assert forall|i: int, x: int| 0 <= i < all.len() && 0 <= x < all[i].len() implies spots[
    #[trigger] all[i][x] as int].page < next by {
        if i < a.len() {
            assert(all[i][x] == a[i][x]);
        } else {
            assert(all[i][x] == b[i - a.len()][x]);
        }
    }
}

} // verus!
