//! Setting up a board, and what reports of whole boards say.
use vstd::prelude::*;
use vstd::string::StringExecFns;
use crate::critical_path;
use crate::critical_path::ItemInfo;
use crate::flow;
use crate::flow::{Transition, TransitionView};
use crate::item_type;
use crate::item_type::ItemType;
use crate::relation_vocab;
use crate::request;
use crate::state_machine;
use crate::text;
use crate::validate;
use crate::validate::{ReportView, ValidationReport};
use crate::worklist;

verus! {

/// The types of a theme: those of the development board, those of the research board, or
/// all of them.
pub open spec fn theme_types(theme: Seq<char>) -> Seq<ItemType> {
    if theme == "software"@ {
        ItemType::DEV@
    } else if theme == "hdd"@ {
        ItemType::RESEARCH@
    } else {
        ItemType::DEV@ + ItemType::RESEARCH@
    }
}

/// The types of a theme.
pub fn types_of_theme(theme: &str) -> (r: Vec<ItemType>)
    ensures
        r@ == theme_types(theme@),
{
    let dev: [ItemType; 7] = ItemType::DEV;
    let research: [ItemType; 6] = ItemType::RESEARCH;
    let software: bool = text::same(theme, "software");
    let hdd: bool = text::same(theme, "hdd");
    let mut r: Vec<ItemType> = Vec::new();
    if !hdd || software {
        let mut i: usize = 0;
        while i < 7
            invariant
                i <= 7,
                dev == ItemType::DEV,
                r@ == dev@.take(i as int),
            decreases 7 - i,
        {
            r.push(dev[i]);
            assert(r@ =~= dev@.take(i + 1));
            i = i + 1;
        }
        assert(dev@.take(7) =~= dev@);
    }
    let ghost first = r@;
    if !software {
        let mut i: usize = 0;
        assert(r@ =~= first + research@.take(0));
        while i < 6
            invariant
                i <= 6,
                research == ItemType::RESEARCH,
                r@ == first + research@.take(i as int),
            decreases 6 - i,
        {
            r.push(research[i]);
            assert(r@ =~= first + research@.take(i + 1));
            i = i + 1;
        }
        assert(research@.take(6) =~= research@);
    }
    assert(r@ =~= theme_types(theme@));
    r
}

/// The file that the template of a type is kept in.
pub fn template_file(t: ItemType) -> (r: String)
    ensures
        r@ == "_TEMPLATE_"@ + text::upper_spec(item_type::name_of_type(t)) + ".md"@,
{
    let mut r: String = text::owned("_TEMPLATE_");
    let name: String = text::upper(t.as_str());
    r.append(name.as_str());
    r.append(".md");
    r
}

/// What is said of a board that was set up.
pub fn init_message(theme: &str, templates: usize) -> (r: String)
    ensures
        r@ == "Initialized arrow-kanban in .arrow-kanban/ (theme: "@ + theme@ + ", "@
            + text::decimal_spec(templates as nat) + " templates)"@,
{
    let mut r: String = text::owned("Initialized arrow-kanban in .arrow-kanban/ (theme: ");
    r.append(theme);
    r.append(", ");
    let n: String = text::decimal(templates);
    r.append(n.as_str());
    r.append(" templates)");
    r
}

// ---- agents -----------------------------------------------------------------------------------------

/// The agents that a worklist is for: those that are named, or else everyone who has an
/// item of the board.
pub fn worklist_agents(named: &str, items: &[ItemInfo]) -> (r: Vec<String>)
    ensures
        text::trim_spec(named@).len() > 0 ==> text::views(r@) == request::parts_spec(named@),
        text::trim_spec(named@).len() == 0 ==> worklist::is_roster(
            text::views(r@),
            critical_path::item_views(items@),
        ),
{
    let trimmed: String = text::trim(named);
    if trimmed.as_str().is_empty() {
        worklist::agents_from_items(items)
    } else {
        request::split_list(named)
    }
}

// ---- validation of boards -----------------------------------------------------------------------------

/// The board that is checked: all of them, or the one that is named, or else the
/// development board.
pub open spec fn validated_board(all: bool, board: Option<Seq<char>>) -> Option<Seq<char>> {
    if all {
        None
    } else {
        match board {
            Some(b) => Some(b),
            None => Some("development"@),
        }
    }
}

/// The board that is checked.
pub fn board_to_validate(all: bool, board: &Option<String>) -> (r: Option<String>)
    ensures
        relation_vocab::option_view(r) == validated_board(all, relation_vocab::option_view(*board)),
{
    if all {
        None
    } else {
        match board {
            Some(b) => Some(b.clone()),
            None => Some(text::owned("development")),
        }
    }
}

/// A text with the reports after it that have violations among the first `n`.
pub open spec fn with_reports(reports: Seq<ReportView>, fix: bool, n: nat) -> Seq<char>
    decreases n,
{
    if n == 0 {
        Seq::empty()
    } else {
        let before = with_reports(reports, fix, (n - 1) as nat);
        if reports[n - 1].violations.len() > 0 {
            before + text::join_spec(
                validate::report_lines(reports[n - 1], fix),
                "\n"@,
            ) + "\n\n"@
        } else {
            before
        }
    }
}

/// Whether any item has a violation.
pub open spec fn any_violation(reports: Seq<ReportView>) -> bool {
    exists|i: int| 0 <= i < reports.len() && (#[trigger] reports[i]).violations.len() > 0
}

/// The report on a board, and whether any item has a violation: the reports of the items
/// that have, and the summary.
pub fn board_report(reports: &Vec<ValidationReport>, fix: bool) -> (r: (String, bool))
    ensures
        ({
            let views = validate::report_views(reports@);
            &&& r.0@ == with_reports(views, fix, views.len()) + text::join_spec(
                validate::board_lines(views),
                "\n"@,
            ) + "\n"@
            &&& r.1 == any_violation(views)
        }),
{
    let ghost views = validate::report_views(reports@);
    let mut s: String = String::new();
    let mut any: bool = false;
    let mut i: usize = 0;
    assert(s@ =~= Seq::<char>::empty());
    while i < reports.len()
        invariant
            i <= reports@.len(),
            views == validate::report_views(reports@),
            s@ == with_reports(views, fix, i as nat),
            any == exists|k: int| 0 <= k < i && (#[trigger] views[k]).violations.len() > 0,
        decreases reports@.len() - i,
    {
        assert(views[i as int] == reports@[i as int]@);
        assert(views[i as int].violations.len() == reports@[i as int].violations@.len());
        if reports[i].violations.len() > 0 {
            let report: String = validate::format_report(&reports[i], fix);
            s.append(report.as_str());
            s.append("\n\n");
            any = true;
        }
        i = i + 1;
    }
    let summary: String = validate::format_board_summary(reports.as_slice());
    s.append(summary.as_str());
    s.append("\n");
    (s, any)
}

// ---- times -------------------------------------------------------------------------------------------------

/// From when on completed items are shown: from the last month, from the last week, or
/// from the beginning.
pub fn history_since(now_ms: i64, week: bool, month: bool) -> (r: i64)
    requires
        now_ms >= i64::MIN + 2_592_000_000,
    ensures
        r == (if month {
            now_ms - 30 * 24 * 60 * 60 * 1000
        } else if week {
            now_ms - 7 * 24 * 60 * 60 * 1000
        } else {
            0
        }),
{
    if month {
        now_ms - 2_592_000_000
    } else if week {
        now_ms - 604_800_000
    } else {
        0
    }
}

/// When an item changed last, among the first `n` changes, which are in the order of time.
pub open spec fn last_change(changes: Seq<TransitionView>, id: Seq<char>, n: nat) -> Option<i64>
    decreases n,
{
    if n == 0 {
        None
    } else if changes[n - 1].item_id == id {
        Some(changes[n - 1].ts_ms)
    } else {
        last_change(changes, id, (n - 1) as nat)
    }
}

/// Whether an item was closed at some time or later. One without any recorded change
/// counts as changed at the beginning of time.
pub open spec fn is_closed_since(
    id: Seq<char>,
    status: Seq<char>,
    changes: Seq<TransitionView>,
    start_ms: i64,
) -> bool {
    let at = match last_change(changes, id, changes.len()) {
        Some(ms) => ms,
        None => 0i64,
    };
    state_machine::is_terminal(status) && at >= start_ms
}

/// Whether a history from some time on shows an item.
pub fn closed_since(id: &str, status: &str, changes: &[Transition], start_ms: i64) -> (r: bool)
    ensures
        r == is_closed_since(id@, status@, flow::transition_views(changes@), start_ms),
{
    if !state_machine::is_terminal_state(status) {
        return false;
    }
    let ghost views = flow::transition_views(changes@);
    let mut i: usize = changes.len();
    while i > 0
        invariant
            i <= changes@.len(),
            views == flow::transition_views(changes@),
            state_machine::is_terminal(status@),
            last_change(views, id@, views.len()) == last_change(views, id@, i as nat),
        decreases i,
    {
        let change: &Transition = &changes[i - 1];
        assert(views[i - 1] == change@);
        if text::same(change.item_id.as_str(), id) {
            return change.ts_ms >= start_ms;
        }
        i = i - 1;
    }
    0 >= start_ms
}

/// The status that a history without limits shows: the last state of a board, or `done`
/// where it has none.
pub open spec fn done_status_spec(states: Seq<Seq<char>>) -> Seq<char> {
    if states.len() > 0 {
        states.last()
    } else {
        "done"@
    }
}

pub fn done_status(states: &Vec<String>) -> (r: String)
    ensures
        r@ == done_status_spec(text::views(states@)),
{
    if states.len() > 0 {
        states[states.len() - 1].clone()
    } else {
        text::owned("done")
    }
}

// ---- by the words and the changes --------------------------------------------------------------------------------

/// The theme `software` has the types of the development board, `hdd` those of research,
/// and any other theme has both.
pub proof fn law_themes_have_their_types(theme: Seq<char>, t: ItemType)
    ensures
        theme_types(theme).contains(t) <==> (theme == "software"@ ==> !item_type::is_research(t))
            && (theme == "hdd"@ ==> item_type::is_research(t)),
{
    item_type::law_boards_share_out_the_types(t);
    reveal_strlit("software");
    reveal_strlit("hdd");
    assert("software"@[0] == 's' && "hdd"@[0] == 'h');
    vstd::seq_lib::lemma_seq_concat_contains_all_elements(
        ItemType::DEV@,
        ItemType::RESEARCH@,
        t,
    );
}

/// Whether a change is the last that is told of an item.
pub open spec fn is_last_change(changes: Seq<TransitionView>, p: int, id: Seq<char>) -> bool {
    0 <= p < changes.len() && changes[p].item_id == id && forall|q: int|
        p < q < changes.len() ==> (#[trigger] changes[q]).item_id != id
}

proof fn lemma_last_change(changes: Seq<TransitionView>, id: Seq<char>, n: nat)
    requires
        n <= changes.len(),
        forall|q: int| n <= q < changes.len() ==> (#[trigger] changes[q]).item_id != id,
    ensures
        last_change(changes, id, n) matches Some(ms) ==> exists|p: int| #[trigger]
            is_last_change(changes, p, id) && changes[p].ts_ms == ms,
        last_change(changes, id, n) is None ==> forall|q: int|
            0 <= q < changes.len() ==> (#[trigger] changes[q]).item_id != id,
    decreases n,
{
    if n > 0 {
        if changes[n - 1].item_id == id {
            assert(is_last_change(changes, n - 1, id));
        } else {
            lemma_last_change(changes, id, (n - 1) as nat);
        }
    }
}

/// An item is in the history since a time if and only if its status closes it and its last
/// change is not before that time; an item of which no change is told counts as changed at
/// the beginning of time.
pub proof fn law_history_is_of_closed_items(
    id: Seq<char>,
    status: Seq<char>,
    changes: Seq<TransitionView>,
    start_ms: i64,
)
    ensures
        is_closed_since(id, status, changes, start_ms) <==> (status == "done"@ || status
            == "complete"@ || status == "abandoned"@ || status == "retired"@) && ((exists|p: int|
            #[trigger]
            is_last_change(changes, p, id) && changes[p].ts_ms >= start_ms) || ((forall|q: int|
            0 <= q < changes.len() ==> (#[trigger] changes[q]).item_id != id) && start_ms <= 0)),
{
    lemma_last_change(changes, id, changes.len());
    assert forall|p: int, q: int|
        #![trigger is_last_change(changes, p, id), is_last_change(changes, q, id)]
        is_last_change(changes, p, id) && is_last_change(changes, q, id) implies p == q by {
        if p < q {
            assert(changes[q].item_id != id);
        } else if q < p {
            assert(changes[p].item_id != id);
        }
    }
    if exists|p: int| #[trigger] is_last_change(changes, p, id) && changes[p].ts_ms >= start_ms {
        let p = choose|p: int| #[trigger]
            is_last_change(changes, p, id) && changes[p].ts_ms >= start_ms;
        assert(changes[p].item_id == id);
    }
}

/// The report on a board shows every item with a violation, and says whether there is one.
pub proof fn law_board_reports_show_every_violation(
    reports: Seq<ReportView>,
    fix: bool,
    n: nat,
    i: int,
)
    requires
        0 <= i < n <= reports.len(),
        reports[i].violations.len() > 0,
    ensures
        text::contains_spec(
            with_reports(reports, fix, n),
            text::join_spec(validate::report_lines(reports[i], fix), "\n"@),
        ),
        any_violation(reports),
    decreases n,
{
    let before = with_reports(reports, fix, (n - 1) as nat);
    let all = with_reports(reports, fix, n);
    let shown = text::join_spec(validate::report_lines(reports[i], fix), "\n"@);
    let none = Seq::<char>::empty();
    if i == n - 1 {
        assert(shown.subrange(0, shown.len() as int) =~= shown);
        assert(text::occurs_at(shown, shown, 0));
        text::lemma_contains_in_part(before, shown, "\n\n"@, shown);
    } else {
        law_board_reports_show_every_violation(reports, fix, (n - 1) as nat, i);
        let more = all.skip(before.len() as int);
        text::lemma_contains_in_part(none, before, more, shown);
        assert(none + before + more =~= all);
    }
}

/// All boards are checked where all are asked for, and else the one that is named, or that
/// of development.
pub proof fn law_one_board_or_all_are_checked(all: bool, board: Option<Seq<char>>)
    ensures
        validated_board(all, board) is None <==> all,
        !all && board is Some ==> validated_board(all, board) == board,
        !all && board is None ==> validated_board(all, board) == Some("development"@),
{
}

/// An item is done in the last of its states, and where there is none in `done`.
pub proof fn law_the_last_state_is_done(states: Seq<Seq<char>>, last: Seq<char>)
    ensures
        done_status_spec(states.push(last)) == last,
        done_status_spec(Seq::empty()) == "done"@,
{
}

} // verus!
