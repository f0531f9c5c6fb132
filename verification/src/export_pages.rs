//! Exports of whole boards, which come from a server in pages.
use vstd::prelude::*;
use vstd::string::StringExecFns;
use crate::relation_vocab;
use crate::text;

verus! {

/// How many items a page has at most.
pub const PAGE: usize = 400;

/// Where the next page starts: behind what has come, unless nothing came or all has.
pub open spec fn next_offset_spec(offset: int, count: int, total: int) -> Option<int> {
    if count == 0 || offset + count >= total {
        None
    } else {
        Some(offset + count)
    }
}

/// Where the next page starts, if there is one.
pub fn next_offset(offset: usize, count: usize, total: usize) -> (r: Option<usize>)
    requires
        offset + count <= usize::MAX,
    ensures
        r is Some == next_offset_spec(offset as int, count as int, total as int) is Some,
        r is Some ==> r->0 == next_offset_spec(offset as int, count as int, total as int)->0,
{
    if count == 0 || offset + count >= total {
        None
    } else {
        Some(offset + count)
    }
}

/// Every page but the last brings the export nearer to its end.
pub proof fn law_pages_make_progress(offset: int, count: int, total: int)
    requires
        count >= 0,
        next_offset_spec(offset, count, total) is Some,
    ensures
        offset < next_offset_spec(offset, count, total)->0 < total,
{
}

// ---- JSON ------------------------------------------------------------------------------------------

/// A JSON value of `serde_json`.
#[verifier::external_type_specification]
#[verifier::external_body]
pub struct ExJsonValue(serde_json::Value);

/// The elements of the array that a JSON text is; `None` where it is no JSON text, or is
/// not an array.
pub uninterp spec fn json_array(s: Seq<char>) -> Option<Seq<serde_json::Value>>;

/// The JSON text of an array, over several lines; `None` where it has none.
pub uninterp spec fn json_text(items: Seq<serde_json::Value>) -> Option<Seq<char>>;

/// What elements an array has, if it was read as one.
pub open spec fn array_view(items: Option<Vec<serde_json::Value>>) -> Option<
    Seq<serde_json::Value>,
> {
    match items {
        Some(items) => Some(items@),
        None => None,
    }
}

/// `serde_json::from_str`, and whether what was read is an array: the elements that a
/// text holds. Which those are stands behind the name.
#[verifier::external_body]
fn parse_array(s: &str) -> (r: Option<Vec<serde_json::Value>>)
    ensures
        array_view(r) == json_array(s@),
{
    match serde_json::from_str::<serde_json::Value>(s) {
        Ok(serde_json::Value::Array(items)) => Some(items),
        _ => None,
    }
}

/// `serde_json::to_string_pretty` of an array. Which text that is, if any, stands behind
/// the name.
#[verifier::external_body]
fn write_array(items: Vec<serde_json::Value>) -> (r: Option<String>)
    ensures
        relation_vocab::option_view(r) == json_text(items@),
{
    serde_json::to_string_pretty(&serde_json::Value::Array(items)).ok()
}

/// The text of an array, or that of an empty one where it could not be written.
pub open spec fn text_or_empty(written: Option<Seq<char>>) -> Seq<char> {
    match written {
        Some(s) => s,
        None => "[]"@,
    }
}

/// The text of an array, or that of an empty one where it could not be written.
pub fn or_empty_array(written: Option<String>) -> (r: String)
    ensures
        r@ == text_or_empty(relation_vocab::option_view(written)),
{
    match written {
        Some(s) => s,
        None => text::owned("[]"),
    }
}

/// The elements of the first `n` pages. A page that is no array has none.
pub open spec fn all_elements(pages: Seq<Option<Seq<serde_json::Value>>>, n: nat) -> Seq<
    serde_json::Value,
>
    decreases n,
{
    if n == 0 {
        Seq::empty()
    } else {
        let before = all_elements(pages, (n - 1) as nat);
        match pages[n - 1] {
            Some(items) => before + items,
            None => before,
        }
    }
}

/// What pages were read as.
pub open spec fn read_pages(pages: Seq<Seq<char>>) -> Seq<Option<Seq<serde_json::Value>>> {
    Seq::new(pages.len(), |i: int| json_array(pages[i]))
}

pub open spec fn array_views(pages: Seq<Option<Vec<serde_json::Value>>>) -> Seq<
    Option<Seq<serde_json::Value>>,
> {
    Seq::new(pages.len(), |i: int| array_view(pages[i]))
}

/// The elements of pages that were read, in one list.
pub fn concatenate(pages: Vec<Option<Vec<serde_json::Value>>>) -> (r: Vec<serde_json::Value>)
    ensures
        r@ == all_elements(array_views(pages@), pages@.len()),
{
    let ghost views = array_views(pages@);
    let ghost total = pages@.len();
    let mut rest: Vec<Option<Vec<serde_json::Value>>> = pages;
    let mut all: Vec<serde_json::Value> = Vec::new();
    while rest.len() > 0
        invariant
            rest@.len() <= total,
            views.len() == total,
            array_views(rest@) == views.take(rest@.len() as int),
            all_elements(views, total) == all_elements(views, rest@.len()) + all@,
        decreases rest@.len(),
    {
        let ghost n = rest@.len();
        let ghost before = all@;
        let last: Option<Vec<serde_json::Value>> = match rest.pop() {
            Some(page) => page,
            None => None,
        };
        assert(array_view(last) == views[n - 1]) by {
            assert(views.take(n as int)[n - 1] == views[n - 1]);
        }
        assert(array_views(rest@) =~= views.take(n - 1)) by {
            assert forall|i: int| 0 <= i < n - 1 implies array_views(rest@)[i] == #[trigger] views.take(
                n - 1,
            )[i] by {
                assert(views.take(n as int)[i] == views[i]);
            }
        }
        if let Some(items) = last {
            let mut joined: Vec<serde_json::Value> = items;
            joined.append(&mut all);
            all = joined;
            assert(all_elements(views, n) + before =~= all_elements(views, (n - 1) as nat) + all@);
        }
    }
    assert(all_elements(views, 0) + all@ =~= all@);
    all
}

// ---- markdown -----------------------------------------------------------------------------------------

/// A text with the lines of a list after it, from a position on.
pub open spec fn with_rows(s: Seq<char>, lines: Seq<Seq<char>>, from: nat, n: nat) -> Seq<char>
    decreases n,
{
    if n <= from {
        s
    } else {
        with_rows(s, lines, from, (n - 1) as nat) + "\n"@ + lines[n - 1]
    }
}

/// The first `n` pages in one table: the first as it is, of the others what comes after
/// the two lines of the header.
pub open spec fn one_table(pages: Seq<Seq<char>>, n: nat) -> Seq<char>
    decreases n,
{
    if n == 0 {
        Seq::empty()
    } else if n == 1 {
        pages[0]
    } else {
        let lines = text::lines_spec(pages[n - 1]);
        with_rows(one_table(pages, (n - 1) as nat), lines, 2, lines.len())
    }
}

fn join_tables(pages: &[String]) -> (r: String)
    ensures
        r@ == one_table(text::views(pages@), pages@.len()),
{
    let ghost all = text::views(pages@);
    let mut md: String = String::new();
    let mut i: usize = 0;
    assert(md@ =~= Seq::<char>::empty());
    while i < pages.len()
        invariant
            i <= pages@.len(),
            all == text::views(pages@),
            md@ == one_table(all, i as nat),
        decreases pages@.len() - i,
    {
        assert(all[i as int] == pages@[i as int]@);
        if i == 0 {
            md.append(pages[i].as_str());
            assert(md@ =~= all[0]);
        } else {
            let lines: Vec<String> = text::lines(pages[i].as_str());
            let ghost start = md@;
            let ghost rows = text::views(lines@);
            let mut j: usize = 2;
            if lines.len() < 2 {
                j = lines.len();
            }
            while j < lines.len()
                invariant
                    j <= lines@.len(),
                    j >= 2 || j == lines@.len(),
                    rows == text::views(lines@),
                    md@ == with_rows(start, rows, 2, j as nat),
                decreases lines@.len() - j,
            {
                assert(rows[j as int] == lines@[j as int]@);
                md.append("\n");
                md.append(lines[j].as_str());
                j = j + 1;
            }
        }
        i = i + 1;
    }
    md
}

/// Pages in one document: of JSON pages one array of all their elements, of others one
/// table.
pub fn reassemble_export_pages(format: &str, pages: &[String]) -> (r: String)
    ensures
        r@ == (if format@ == "json"@ {
            text_or_empty(
                json_text(all_elements(read_pages(text::views(pages@)), pages@.len())),
            )
        } else {
            one_table(text::views(pages@), pages@.len())
        }),
{
    if !text::same(format, "json") {
        return join_tables(pages);
    }
    let ghost all = text::views(pages@);
    let mut read: Vec<Option<Vec<serde_json::Value>>> = Vec::new();
    let mut i: usize = 0;
    while i < pages.len()
        invariant
            i <= pages@.len(),
            all == text::views(pages@),
            read@.len() == i,
            forall|k: int| 0 <= k < i ==> array_view(#[trigger] read@[k]) == json_array(all[k]),
        decreases pages@.len() - i,
    {
        assert(all[i as int] == pages@[i as int]@);
        read.push(parse_array(pages[i].as_str()));
        i = i + 1;
    }
    assert(array_views(read@) =~= read_pages(all));
    or_empty_array(write_array(concatenate(read)))
}

proof fn lemma_no_array(pages: Seq<Option<Seq<serde_json::Value>>>, n: nat, bad: int)
    requires
        n <= pages.len(),
        0 <= bad < pages.len(),
        pages[bad] is None,
    ensures
        all_elements(pages, n) == all_elements(
            pages.remove(bad),
            if bad < n {
                (n - 1) as nat
            } else {
                n
            },
        ),
    decreases n,
{
    if n > 0 {
        lemma_no_array(pages, (n - 1) as nat, bad);
        if bad < n - 1 {
            assert(pages.remove(bad)[n - 2] == pages[n - 1]);
        } else if bad > n - 1 {
            assert(pages.remove(bad)[n - 1] == pages[n - 1]);
        }
    }
}

/// A page that is no array takes nothing away from the export: it is as if the page had
/// not come.
pub proof fn law_bad_pages_do_no_harm(pages: Seq<Option<Seq<serde_json::Value>>>, bad: int)
    requires
        0 <= bad < pages.len(),
        pages[bad] is None,
    ensures
        all_elements(pages, pages.len()) == all_elements(
            pages.remove(bad),
            pages.remove(bad).len(),
        ),
{
    lemma_no_array(pages, pages.len(), bad);
}

/// An export goes on behind the page that came, until a page is empty or nothing is left.
pub proof fn law_pages_go_on_to_the_end(offset: int, count: int, total: int)
    requires
        count >= 0,
    ensures
        next_offset_spec(offset, count, total) == Some(offset + count) <==> count > 0 && offset
            + count < total,
        next_offset_spec(offset, count, total) is None <==> count == 0 || offset + count >= total,
{
}

/// A joined export has the elements of all pages that could be read, in their order, and no
/// others.
pub proof fn law_no_element_is_lost(
    pages: Seq<Option<Seq<serde_json::Value>>>,
    n: nat,
    p: int,
    i: int,
)
    requires
        0 <= p < n <= pages.len(),
        pages[p] is Some,
        0 <= i < pages[p]->0.len(),
    ensures
        0 <= all_elements(pages, p as nat).len() + i < all_elements(pages, n).len(),
        all_elements(pages, n)[all_elements(pages, p as nat).len() + i] == pages[p]->0[i],
    decreases n,
{
    if p < n - 1 {
        law_no_element_is_lost(pages, (n - 1) as nat, p, i);
    }
}

/// What two parts of an export give together is what the first gives and then what the
/// second gives.
pub proof fn law_pages_are_joined_in_order(
    a: Seq<Option<Seq<serde_json::Value>>>,
    b: Seq<Option<Seq<serde_json::Value>>>,
    n: nat,
)
    requires
        n <= b.len(),
    ensures
        all_elements(a + b, a.len() + n) == all_elements(a, a.len()) + all_elements(b, n),
    decreases n,
{
    if n > 0 {
        law_pages_are_joined_in_order(a, b, (n - 1) as nat);
        assert((a + b)[a.len() + n - 1] == b[n - 1]);
        assert((a.len() + n - 1) as nat == a.len() + (n - 1) as nat);
        if b[n - 1] is Some {
            let x = all_elements(a, a.len());
            let y = all_elements(b, (n - 1) as nat);
            assert(x + y + b[n - 1]->0 =~= x + (y + b[n - 1]->0));
        }
    } else {
        lemma_first_pages(a, b, a.len());
        assert(all_elements(a, a.len()) + all_elements(b, 0) =~= all_elements(a, a.len()));
    }
}

proof fn lemma_first_pages(
    a: Seq<Option<Seq<serde_json::Value>>>,
    b: Seq<Option<Seq<serde_json::Value>>>,
    n: nat,
)
    requires
        n <= a.len(),
    ensures
        all_elements(a + b, n) == all_elements(a, n),
    decreases n,
{
    if n > 0 {
        lemma_first_pages(a, b, (n - 1) as nat);
        assert((a + b)[n - 1] == a[n - 1]);
    }
}

proof fn lemma_rows_after(s: Seq<char>, lines: Seq<Seq<char>>, from: nat, n: nat)
    requires
        n <= lines.len(),
    ensures
        s.is_prefix_of(with_rows(s, lines, from, n)),
    decreases n,
{
    if n > from {
        lemma_rows_after(s, lines, from, (n - 1) as nat);
        let before = with_rows(s, lines, from, (n - 1) as nat);
        assert(before.is_prefix_of(before + "\n"@ + lines[n - 1]));
    }
}

proof fn lemma_row_shown(before: Seq<char>, row: Seq<char>)
    ensures
        text::contains_spec(before + row, row),
{
    assert((before + row).subrange(before.len() as int, (before.len() + row.len()) as int) =~= row);
    assert(text::occurs_at(before + row, row, before.len() as int));
}

proof fn lemma_row_stays(before: Seq<char>, more: Seq<char>, row: Seq<char>)
    requires
        text::contains_spec(before, row),
    ensures
        text::contains_spec(before + more, row),
{
    let none = Seq::<char>::empty();
    text::lemma_contains_in_part(none, before, more, row);
    assert(none + before + more =~= before + more);
}

proof fn lemma_rows(s: Seq<char>, lines: Seq<Seq<char>>, from: nat, n: nat, i: int)
    requires
        from <= i < n <= lines.len(),
    ensures
        text::contains_spec(with_rows(s, lines, from, n), "\n"@ + lines[i]),
    decreases n,
{
    let before = with_rows(s, lines, from, (n - 1) as nat);
    let row = "\n"@ + lines[n - 1];
    assert(with_rows(s, lines, from, n) =~= before + row);
    if i == n - 1 {
        lemma_row_shown(before, row);
    } else {
        lemma_rows(s, lines, from, (n - 1) as nat, i);
        lemma_row_stays(before, row, "\n"@ + lines[i]);
    }
}

/// A table that came in pages starts with the whole first page and has every row of the
/// further pages, each on a line of its own; their two lines of heading are left out.
pub proof fn law_no_row_is_lost(pages: Seq<Seq<char>>, n: nat, p: int, i: int)
    requires
        0 < p < n <= pages.len(),
        2 <= i < text::lines_spec(pages[p]).len(),
    ensures
        pages[0].is_prefix_of(one_table(pages, n)),
        text::contains_spec(one_table(pages, n), "\n"@ + text::lines_spec(pages[p])[i]),
    decreases n,
{
    let lines = text::lines_spec(pages[n - 1]);
    let before = one_table(pages, (n - 1) as nat);
    lemma_first_page(pages, n);
    if p < n - 1 {
        law_no_row_is_lost(pages, (n - 1) as nat, p, i);
        let all = one_table(pages, n);
        let rest = all.skip(before.len() as int);
        lemma_rows_after(before, lines, 2, lines.len());
        assert(before + rest =~= all);
        lemma_row_stays(before, rest, "\n"@ + text::lines_spec(pages[p])[i]);
    } else {
        lemma_rows(before, lines, 2, lines.len(), i);
    }
}

proof fn lemma_first_page(pages: Seq<Seq<char>>, n: nat)
    requires
        0 < n <= pages.len(),
    ensures
        pages[0].is_prefix_of(one_table(pages, n)),
    decreases n,
{
    if n > 1 {
        let lines = text::lines_spec(pages[n - 1]);
        lemma_first_page(pages, (n - 1) as nat);
        lemma_rows_after(one_table(pages, (n - 1) as nat), lines, 2, lines.len());
    }
}

} // verus!
