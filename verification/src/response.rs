//! What a server's reply to a command looks like to the user.
use vstd::prelude::*;
use vstd::string::StringExecFns;
use crate::relation_vocab;
use crate::text;

verus! {

// ---- replies ------------------------------------------------------------------------------------

/// A simple value in a reply.
#[derive(Debug)]
pub enum Scalar {
    Text(String),
    /// A whole number that is not negative.
    Whole(u64),
    /// A negative whole number.
    Negative(i64),
    Flag(bool),
    /// Anything else.
    Other,
}

/// A value in a reply.
#[derive(Debug)]
pub enum ReplyField {
    One(Scalar),
    /// A list. An element that has no fields of its own is `None`.
    Rows(Vec<Option<Vec<(String, Scalar)>>>),
}

/// The values of a reply under their names.
#[derive(Debug)]
pub struct Reply {
    pub fields: Vec<(String, ReplyField)>,
}

/// The value under a name.
pub open spec fn field(fields: Seq<(String, ReplyField)>, name: Seq<char>) -> Option<ReplyField>
    decreases fields.len(),
{
    if fields.len() == 0 {
        None
    } else if fields.last().0@ == name {
        Some(fields.last().1)
    } else {
        field(fields.drop_last(), name)
    }
}

/// The text under a name.
pub open spec fn text_at(reply: Reply, name: Seq<char>) -> Option<Seq<char>> {
    match field(reply.fields@, name) {
        Some(ReplyField::One(Scalar::Text(s))) => Some(s@),
        _ => None,
    }
}

/// The flag under a name.
pub open spec fn flag_at(reply: Reply, name: Seq<char>) -> Option<bool> {
    match field(reply.fields@, name) {
        Some(ReplyField::One(Scalar::Flag(b))) => Some(b),
        _ => None,
    }
}

/// The number under a name, where it is not negative.
pub open spec fn whole_at(reply: Reply, name: Seq<char>) -> Option<u64> {
    match field(reply.fields@, name) {
        Some(ReplyField::One(Scalar::Whole(n))) => Some(n),
        _ => None,
    }
}

/// The number under a name, where it fits a signed number of 64 bits.
pub open spec fn number_at(reply: Reply, name: Seq<char>) -> Option<i64> {
    match field(reply.fields@, name) {
        Some(ReplyField::One(Scalar::Whole(n))) => if n <= i64::MAX {
            Some(n as i64)
        } else {
            None
        },
        Some(ReplyField::One(Scalar::Negative(n))) => Some(n),
        _ => None,
    }
}

fn find_field<'a>(reply: &'a Reply, name: &str) -> (r: Option<&'a ReplyField>)
    ensures
        r is Some == field(reply.fields@, name@) is Some,
        r is Some ==> *r->0 == field(reply.fields@, name@)->0,
{
    let ghost all = reply.fields@;
    let mut i: usize = reply.fields.len();
    assert(all.take(i as int) =~= all);
    while i > 0
        invariant
            i <= reply.fields@.len(),
            all == reply.fields@,
            field(all, name@) == field(all.take(i as int), name@),
        decreases i,
    {
        assert(all.take(i as int).last() == all[i - 1]);
        assert(all.take(i as int).drop_last() =~= all.take(i - 1));
        if text::same(reply.fields[i - 1].0.as_str(), name) {
            return Some(&reply.fields[i - 1].1);
        }
        i = i - 1;
    }
    None
}

fn get_text(reply: &Reply, name: &str) -> (r: Option<String>)
    ensures
        relation_vocab::option_view(r) == text_at(*reply, name@),
{
    match find_field(reply, name) {
        Some(ReplyField::One(Scalar::Text(s))) => Some(s.clone()),
        _ => None,
    }
}

fn get_flag(reply: &Reply, name: &str) -> (r: Option<bool>)
    ensures
        r == flag_at(*reply, name@),
{
    match find_field(reply, name) {
        Some(ReplyField::One(Scalar::Flag(b))) => Some(*b),
        _ => None,
    }
}

fn get_whole(reply: &Reply, name: &str) -> (r: Option<u64>)
    ensures
        r == whole_at(*reply, name@),
{
    match find_field(reply, name) {
        Some(ReplyField::One(Scalar::Whole(n))) => Some(*n),
        _ => None,
    }
}

fn get_number(reply: &Reply, name: &str) -> (r: Option<i64>)
    ensures
        r == number_at(*reply, name@),
{
    match find_field(reply, name) {
        Some(ReplyField::One(Scalar::Whole(n))) => if *n <= i64::MAX as u64 {
            Some(*n as i64)
        } else {
            None
        },
        Some(ReplyField::One(Scalar::Negative(n))) => Some(*n),
        _ => None,
    }
}

// ---- rows ------------------------------------------------------------------------------------------

/// The value under a name in a row.
pub open spec fn cell(row: Seq<(String, Scalar)>, name: Seq<char>) -> Option<Scalar>
    decreases row.len(),
{
    if row.len() == 0 {
        None
    } else if row.last().0@ == name {
        Some(row.last().1)
    } else {
        cell(row.drop_last(), name)
    }
}

/// The text under a name in a row, or another where there is none.
pub open spec fn cell_text(row: Seq<(String, Scalar)>, name: Seq<char>, other: Seq<char>) -> Seq<
    char,
> {
    match cell(row, name) {
        Some(Scalar::Text(s)) => s@,
        _ => other,
    }
}

/// The number under a name in a row, or zero.
pub open spec fn cell_whole(row: Seq<(String, Scalar)>, name: Seq<char>) -> u64 {
    match cell(row, name) {
        Some(Scalar::Whole(n)) => n,
        _ => 0,
    }
}

fn find_cell<'a>(row: &'a Vec<(String, Scalar)>, name: &str) -> (r: Option<&'a Scalar>)
    ensures
        r is Some == cell(row@, name@) is Some,
        r is Some ==> *r->0 == cell(row@, name@)->0,
{
    let ghost all = row@;
    let mut i: usize = row.len();
    assert(all.take(i as int) =~= all);
    while i > 0
        invariant
            i <= row@.len(),
            all == row@,
            cell(all, name@) == cell(all.take(i as int), name@),
        decreases i,
    {
        assert(all.take(i as int).last() == all[i - 1]);
        assert(all.take(i as int).drop_last() =~= all.take(i - 1));
        if text::same(row[i - 1].0.as_str(), name) {
            return Some(&row[i - 1].1);
        }
        i = i - 1;
    }
    None
}

fn text_or(row: &Vec<(String, Scalar)>, name: &str, other: &str) -> (r: String)
    ensures
        r@ == cell_text(row@, name@, other@),
{
    match find_cell(row, name) {
        Some(Scalar::Text(s)) => s.clone(),
        _ => text::owned(other),
    }
}

fn whole_or_zero(row: &Vec<(String, Scalar)>, name: &str) -> (r: u64)
    ensures
        r == cell_whole(row@, name@),
{
    match find_cell(row, name) {
        Some(Scalar::Whole(n)) => *n,
        _ => 0,
    }
}

/// The lines of the branches among the first `n` elements of a list.
pub open spec fn branch_lines(
    s: Seq<char>,
    rows: Seq<Option<Vec<(String, Scalar)>>>,
    n: nat,
) -> Seq<char>
    decreases n,
{
    if n == 0 {
        s
    } else {
        let before = branch_lines(s, rows, (n - 1) as nat);
        match rows[n - 1] {
            Some(row) => before + "  "@ + cell_text(row@, "name"@, "?"@) + "  ("@
                + text::decimal_spec(cell_whole(row@, "size_bytes"@) as nat) + " bytes, pushed by "@
                + cell_text(row@, "agent"@, "?"@) + ")\n"@,
            None => before,
        }
    }
}

pub open spec fn branches_text(rows: Seq<Option<Vec<(String, Scalar)>>>) -> Seq<char> {
    if rows.len() == 0 {
        "No branches on server.\n"@
    } else {
        branch_lines("Branches on server:\n\n"@, rows, rows.len())
    }
}

fn format_branches(rows: &Vec<Option<Vec<(String, Scalar)>>>) -> (r: String)
    ensures
        r@ == branches_text(rows@),
{
    if rows.len() == 0 {
        return text::owned("No branches on server.\n");
    }
    let mut s: String = text::owned("Branches on server:\n\n");
    let ghost first = s@;
    let mut i: usize = 0;
    while i < rows.len()
        invariant
            i <= rows@.len(),
            s@ == branch_lines(first, rows@, i as nat),
        decreases rows@.len() - i,
    {
        if let Some(row) = &rows[i] {
            s.append("  ");
            let name: String = text_or(row, "name", "?");
            s.append(name.as_str());
            s.append("  (");
            let size: String = text::decimal_u64(whole_or_zero(row, "size_bytes"));
            s.append(size.as_str());
            s.append(" bytes, pushed by ");
            let agent: String = text_or(row, "agent", "?");
            s.append(agent.as_str());
            s.append(")\n");
        }
        i = i + 1;
    }
    s
}

pub open spec fn type_line(row: Option<Vec<(String, Scalar)>>) -> Seq<char> {
    let (name, description) = match row {
        Some(row) => (cell_text(row@, "type"@, "-"@), cell_text(row@, "description"@, ""@)),
        None => ("-"@, ""@),
    };
    "  "@ + text::pad_right_spec(name, 12) + " "@ + description + "\n"@
}

pub open spec fn type_lines(
    s: Seq<char>,
    rows: Seq<Option<Vec<(String, Scalar)>>>,
    n: nat,
) -> Seq<char>
    decreases n,
{
    if n == 0 {
        s
    } else {
        type_lines(s, rows, (n - 1) as nat) + type_line(rows[n - 1])
    }
}

pub open spec fn types_text(rows: Seq<Option<Vec<(String, Scalar)>>>) -> Seq<char> {
    type_lines("Available item types:\n\n"@, rows, rows.len()) + "\nUsage: nk templates <type>\n"@
}

fn format_types(rows: &Vec<Option<Vec<(String, Scalar)>>>) -> (r: String)
    ensures
        r@ == types_text(rows@),
{
    let mut s: String = text::owned("Available item types:\n\n");
    let ghost first = s@;
    let mut i: usize = 0;
    while i < rows.len()
        invariant
            i <= rows@.len(),
            s@ == type_lines(first, rows@, i as nat),
        decreases rows@.len() - i,
    {
        let ghost before = s@;
        let (name, description) = match &rows[i] {
            Some(row) => (text_or(row, "type", "-"), text_or(row, "description", "")),
            None => (text::owned("-"), text::owned("")),
        };
        let mut line: String = text::owned("  ");
        let padded: String = text::pad_right(name.as_str(), 12);
        line.append(padded.as_str());
        line.append(" ");
        line.append(description.as_str());
        line.append("\n");
        s.append(line.as_str());
        assert(s@ =~= before + type_line(rows@[i as int]));
        i = i + 1;
    }
    s.append("\nUsage: nk templates <type>\n");
    s
}

// ---- what is shown -----------------------------------------------------------------------------------

/// What is shown of a reply.
#[derive(Debug)]
pub enum Output {
    Text(String),
    /// The whole reply, as it came.
    Whole,
    /// The issues in the reply, as they came.
    Issues,
}

#[verifier::ext_equal]
pub enum OutputView {
    Text(Seq<char>),
    Whole,
    Issues,
}

impl View for Output {
    type V = OutputView;

    open spec fn view(&self) -> OutputView {
        match *self {
            Output::Text(s) => OutputView::Text(s@),
            Output::Whole => OutputView::Whole,
            Output::Issues => OutputView::Issues,
        }
    }
}

/// The name of the text that is shown as it is, for the commands that show one.
pub open spec fn plain_key(command: Seq<char>) -> Option<Seq<char>> {
    if command == "list"@ || command == "query"@ || command == "blocked"@ {
        Some("table"@)
    } else if command == "board"@ || command == "roadmap"@ || command == "critical-path"@ || command
        == "worklist"@ {
        Some("view"@)
    } else if command == "stats"@ {
        Some("stats"@)
    } else if command == "history"@ {
        Some("history"@)
    } else if command == "export"@ {
        Some("content"@)
    } else if command == "pr.view"@ || command == "pr.diff"@ || command == "pr.checks"@ || command
        == "git.log"@ || command == "git.blame"@ {
        Some("detail"@)
    } else if command == "hdd.validate"@ || command == "hdd.registry"@ || command
        == "hdd.run.status"@ {
        Some("output"@)
    } else {
        None
    }
}

/// What stands before a text that is shown on a line of its own, and the name of that
/// text, for the commands that show one.
pub open spec fn line_key(command: Seq<char>) -> Option<(Seq<char>, Seq<char>)> {
    if command == "next-id"@ {
        Some((""@, "next_id"@))
    } else if command == "pr.review"@ || command == "pr.revise"@ || command == "pr.resolve"@
        || command == "git.push"@ || command == "git.pull"@ || command == "git.clone"@ || command
        == "git.rebase"@ || command == "source.push"@ || command == "source.delete"@ {
        Some((""@, "message"@))
    } else if command == "delete"@ {
        Some(("Deleted "@, "id"@))
    } else if command == "pr.merge"@ {
        Some(("Merged "@, "id"@))
    } else if command == "pr.close"@ {
        Some(("Closed "@, "id"@))
    } else if command == "pr.comment"@ {
        Some(("Comment added to "@, "id"@))
    } else if command == "hdd.run"@ {
        Some(("Started "@, "run_id"@))
    } else {
        None
    }
}

/// Whether a command makes an item.
pub open spec fn makes_item(command: Seq<char>) -> bool {
    command == "create"@ || command == "hdd.paper"@ || command == "hdd.hypothesis"@ || command
        == "hdd.experiment"@ || command == "hdd.measure"@ || command == "hdd.idea"@ || command
        == "hdd.literature"@
}

/// A text that may be missing, or nothing.
pub open spec fn or_nothing(s: Option<Seq<char>>) -> Seq<char> {
    match s {
        Some(s) => s,
        None => Seq::empty(),
    }
}

pub open spec fn created_text(reply: Reply) -> Seq<char> {
    match (text_at(reply, "id"@), text_at(reply, "title"@)) {
        (Some(id), Some(title)) => "Created "@ + id + ": "@ + title + "\n"@,
        _ => Seq::empty(),
    }
}

pub open spec fn moved_text(reply: Reply) -> Seq<char> {
    match (text_at(reply, "id"@), text_at(reply, "from"@), text_at(reply, "to"@)) {
        (Some(id), Some(from), Some(to)) => "Moved "@ + id + " from "@ + from + " to "@ + to
            + "\n"@,
        _ => Seq::empty(),
    }
}

pub open spec fn ranked_text(reply: Reply) -> Seq<char> {
    match (text_at(reply, "id"@), number_at(reply, "rank"@)) {
        (Some(id), Some(rank)) => "Ranked "@ + id + " → "@ + text::decimal_int_spec(rank as int)
            + "\n"@,
        (Some(id), None) => "Cleared rank on "@ + id + "\n"@,
        _ => Seq::empty(),
    }
}

/// An item is shown in the one form that the reply carries.
pub open spec fn shown_text(reply: Reply) -> Seq<char> {
    match text_at(reply, "detail"@) {
        Some(detail) => detail,
        None => match text_at(reply, "markdown"@) {
            Some(markdown) => markdown,
            None => match text_at(reply, "json"@) {
                Some(json) => json + "\n"@,
                None => Seq::empty(),
            },
        },
    }
}

pub open spec fn proposal_text(reply: Reply) -> Seq<char> {
    match text_at(reply, "id"@) {
        Some(id) => {
            let first = "Created proposal "@ + id + ": "@ + or_nothing(text_at(reply, "title"@))
                + "\n"@;
            match text_at(reply, "source_branch"@) {
                Some(source) => first + "  "@ + source + " → "@ + (match text_at(
                    reply,
                    "target_branch"@,
                ) {
                    Some(target) => target,
                    None => "main"@,
                }) + "\n"@,
                None => first,
            }
        },
        None => Seq::empty(),
    }
}

pub open spec fn completed_text(reply: Reply) -> Seq<char> {
    match (text_at(reply, "experiment_id"@), whole_at(reply, "run"@)) {
        (Some(id), Some(run)) => "Completed "@ + id + " run #"@ + text::decimal_spec(run as nat)
            + "\n"@,
        _ => Seq::empty(),
    }
}

pub open spec fn valid_output(reply: Reply) -> OutputView {
    match flag_at(reply, "valid"@) {
        Some(valid) => if valid {
            OutputView::Text("Board is valid.\n"@)
        } else if field(reply.fields@, "issues"@) is Some {
            OutputView::Issues
        } else {
            OutputView::Text(Seq::empty())
        },
        None => OutputView::Text(Seq::empty()),
    }
}

pub open spec fn server_branches_text(reply: Reply) -> Seq<char> {
    match field(reply.fields@, "branches"@) {
        Some(ReplyField::Rows(rows)) => branches_text(rows@),
        _ => Seq::empty(),
    }
}

pub open spec fn templates_text(reply: Reply) -> Seq<char> {
    match text_at(reply, "template"@) {
        Some(template) => template,
        None => match field(reply.fields@, "types"@) {
            Some(ReplyField::Rows(rows)) => types_text(rows@),
            _ => Seq::empty(),
        },
    }
}

/// What is shown of the reply to a command. Replies to unknown commands are shown whole.
pub open spec fn output_spec(command: Seq<char>, reply: Reply) -> OutputView {
    if plain_key(command) is Some {
        OutputView::Text(or_nothing(text_at(reply, plain_key(command)->0)))
    } else if line_key(command) is Some {
        OutputView::Text(
            match text_at(reply, (line_key(command)->0).1) {
                Some(s) => (line_key(command)->0).0 + s + "\n"@,
                None => Seq::empty(),
            },
        )
    } else if makes_item(command) {
        OutputView::Text(created_text(reply))
    } else if command == "move"@ {
        OutputView::Text(moved_text(reply))
    } else if command == "rank"@ {
        OutputView::Text(ranked_text(reply))
    } else if command == "show"@ {
        OutputView::Text(shown_text(reply))
    } else if command == "validate"@ {
        valid_output(reply)
    } else if command == "pr.create"@ {
        OutputView::Text(proposal_text(reply))
    } else if command == "pr.list"@ {
        OutputView::Text(
            match text_at(reply, "table"@) {
                Some(table) => table,
                None => "No proposals.\n"@,
            },
        )
    } else if command == "source.branches"@ {
        OutputView::Text(server_branches_text(reply))
    } else if command == "templates"@ {
        OutputView::Text(templates_text(reply))
    } else if command == "hdd.run.complete"@ {
        OutputView::Text(completed_text(reply))
    } else {
        OutputView::Whole
    }
}

fn find_plain_key(c: &str) -> (r: Option<&'static str>)
    ensures
        relation_vocab::str_view(r) == plain_key(c@),
{
    if text::same(c, "list") || text::same(c, "query") || text::same(c, "blocked") {
        Some("table")
    } else if text::same(c, "board") || text::same(c, "roadmap") || text::same(c, "critical-path")
        || text::same(c, "worklist") {
        Some("view")
    } else if text::same(c, "stats") {
        Some("stats")
    } else if text::same(c, "history") {
        Some("history")
    } else if text::same(c, "export") {
        Some("content")
    } else if text::same(c, "pr.view") || text::same(c, "pr.diff") || text::same(c, "pr.checks")
        || text::same(c, "git.log") || text::same(c, "git.blame") {
        Some("detail")
    } else if text::same(c, "hdd.validate") || text::same(c, "hdd.registry") || text::same(
        c,
        "hdd.run.status",
    ) {
        Some("output")
    } else {
        None
    }
}

fn find_line_key(c: &str) -> (r: Option<(&'static str, &'static str)>)
    ensures
        r is Some == line_key(c@) is Some,
        r is Some ==> (r->0).0@ == (line_key(c@)->0).0 && (r->0).1@ == (line_key(c@)->0).1,
{
    if text::same(c, "next-id") {
        Some(("", "next_id"))
    } else if text::same(c, "pr.review") || text::same(c, "pr.revise") || text::same(
        c,
        "pr.resolve",
    ) || text::same(c, "git.push") || text::same(c, "git.pull") || text::same(c, "git.clone")
        || text::same(c, "git.rebase") || text::same(c, "source.push") || text::same(
        c,
        "source.delete",
    ) {
        Some(("", "message"))
    } else if text::same(c, "delete") {
        Some(("Deleted ", "id"))
    } else if text::same(c, "pr.merge") {
        Some(("Merged ", "id"))
    } else if text::same(c, "pr.close") {
        Some(("Closed ", "id"))
    } else if text::same(c, "pr.comment") {
        Some(("Comment added to ", "id"))
    } else if text::same(c, "hdd.run") {
        Some(("Started ", "run_id"))
    } else {
        None
    }
}

fn text_or_nothing(s: Option<String>) -> (r: String)
    ensures
        r@ == or_nothing(relation_vocab::option_view(s)),
{
    match s {
        Some(s) => s,
        None => String::new(),
    }
}

fn format_created(reply: &Reply) -> (r: String)
    ensures
        r@ == created_text(*reply),
{
    match (get_text(reply, "id"), get_text(reply, "title")) {
        (Some(id), Some(title)) => {
            let mut s: String = text::owned("Created ");
            s.append(id.as_str());
            s.append(": ");
            s.append(title.as_str());
            s.append("\n");
            s
        },
        _ => String::new(),
    }
}

fn format_moved(reply: &Reply) -> (r: String)
    ensures
        r@ == moved_text(*reply),
{
    match (get_text(reply, "id"), get_text(reply, "from"), get_text(reply, "to")) {
        (Some(id), Some(from), Some(to)) => {
            let mut s: String = text::owned("Moved ");
            s.append(id.as_str());
            s.append(" from ");
            s.append(from.as_str());
            s.append(" to ");
            s.append(to.as_str());
            s.append("\n");
            s
        },
        _ => String::new(),
    }
}

fn format_ranked(reply: &Reply) -> (r: String)
    ensures
        r@ == ranked_text(*reply),
{
    match (get_text(reply, "id"), get_number(reply, "rank")) {
        (Some(id), Some(rank)) => {
            let mut s: String = text::owned("Ranked ");
            s.append(id.as_str());
            s.append(" → ");
            let number: String = text::decimal_i64(rank);
            s.append(number.as_str());
            s.append("\n");
            s
        },
        (Some(id), None) => {
            let mut s: String = text::owned("Cleared rank on ");
            s.append(id.as_str());
            s.append("\n");
            s
        },
        _ => String::new(),
    }
}

fn format_shown(reply: &Reply) -> (r: String)
    ensures
        r@ == shown_text(*reply),
{
    match get_text(reply, "detail") {
        Some(detail) => detail,
        None => match get_text(reply, "markdown") {
            Some(markdown) => markdown,
            None => match get_text(reply, "json") {
                Some(json) => {
                    let mut s: String = json;
                    s.append("\n");
                    s
                },
                None => String::new(),
            },
        },
    }
}

fn format_proposal(reply: &Reply) -> (r: String)
    ensures
        r@ == proposal_text(*reply),
{
    match get_text(reply, "id") {
        Some(id) => {
            let mut s: String = text::owned("Created proposal ");
            s.append(id.as_str());
            s.append(": ");
            let title: String = text_or_nothing(get_text(reply, "title"));
            s.append(title.as_str());
            s.append("\n");
            if let Some(source) = get_text(reply, "source_branch") {
                s.append("  ");
                s.append(source.as_str());
                s.append(" → ");
                let target: String = match get_text(reply, "target_branch") {
                    Some(target) => target,
                    None => text::owned("main"),
                };
                s.append(target.as_str());
                s.append("\n");
            }
            s
        },
        None => String::new(),
    }
}

fn format_completed(reply: &Reply) -> (r: String)
    ensures
        r@ == completed_text(*reply),
{
    match (get_text(reply, "experiment_id"), get_whole(reply, "run")) {
        (Some(id), Some(run)) => {
            let mut s: String = text::owned("Completed ");
            s.append(id.as_str());
            s.append(" run #");
            let number: String = text::decimal_u64(run);
            s.append(number.as_str());
            s.append("\n");
            s
        },
        _ => String::new(),
    }
}

fn show_valid(reply: &Reply) -> (r: Output)
    ensures
        r@ == valid_output(*reply),
{
    match get_flag(reply, "valid") {
        Some(valid) => if valid {
            Output::Text(text::owned("Board is valid.\n"))
        } else if find_field(reply, "issues").is_some() {
            Output::Issues
        } else {
            Output::Text(String::new())
        },
        None => Output::Text(String::new()),
    }
}

fn format_server_branches(reply: &Reply) -> (r: String)
    ensures
        r@ == server_branches_text(*reply),
{
    match find_field(reply, "branches") {
        Some(ReplyField::Rows(rows)) => format_branches(rows),
        _ => String::new(),
    }
}

fn format_templates(reply: &Reply) -> (r: String)
    ensures
        r@ == templates_text(*reply),
{
    match get_text(reply, "template") {
        Some(template) => template,
        None => match find_field(reply, "types") {
            Some(ReplyField::Rows(rows)) => format_types(rows),
            _ => String::new(),
        },
    }
}

/// What is shown of the reply to a command.
pub fn client_response(command: &str, reply: &Reply) -> (r: Output)
    ensures
        r@ == output_spec(command@, *reply),
{
    let c: &str = command;
    if let Some(key) = find_plain_key(c) {
        return Output::Text(text_or_nothing(get_text(reply, key)));
    }
    if let Some((start, key)) = find_line_key(c) {
        return match get_text(reply, key) {
            Some(s) => {
                let mut line: String = text::owned(start);
                line.append(s.as_str());
                line.append("\n");
                Output::Text(line)
            },
            None => Output::Text(String::new()),
        };
    }
    if text::same(c, "create") || text::same(c, "hdd.paper") || text::same(c, "hdd.hypothesis")
        || text::same(c, "hdd.experiment") || text::same(c, "hdd.measure") || text::same(
        c,
        "hdd.idea",
    ) || text::same(c, "hdd.literature") {
        Output::Text(format_created(reply))
    } else if text::same(c, "move") {
        Output::Text(format_moved(reply))
    } else if text::same(c, "rank") {
        Output::Text(format_ranked(reply))
    } else if text::same(c, "show") {
        Output::Text(format_shown(reply))
    } else if text::same(c, "validate") {
        show_valid(reply)
    } else if text::same(c, "pr.create") {
        Output::Text(format_proposal(reply))
    } else if text::same(c, "pr.list") {
        match get_text(reply, "table") {
            Some(table) => Output::Text(table),
            None => Output::Text(text::owned("No proposals.\n")),
        }
    } else if text::same(c, "source.branches") {
        Output::Text(format_server_branches(reply))
    } else if text::same(c, "templates") {
        Output::Text(format_templates(reply))
    } else if text::same(c, "hdd.run.complete") {
        Output::Text(format_completed(reply))
    } else {
        Output::Whole
    }
}

// ---- what holds of what is shown -------------------------------------------------------------------------

/// An item is shown in every form that a server renders: whichever of the three the reply
/// carries, something of it is shown.
pub proof fn law_every_form_of_an_item_is_shown(reply: Reply, form: Seq<char>)
    requires
        form == "detail"@ || form == "markdown"@ || form == "json"@,
        text_at(reply, form) is Some,
        text_at(reply, form)->0.len() > 0,
        text_at(reply, "detail"@) is Some ==> form == "detail"@,
        text_at(reply, "markdown"@) is Some ==> form == "markdown"@,
    ensures
        shown_text(reply).len() > 0,
{
}

// ---- what a reply shows ----------------------------------------------------------------------------------------------

/// Whether a reply has a field with a text: the last field of the name is that text.
pub open spec fn says_text(reply: Reply, name: Seq<char>, s: Seq<char>) -> bool {
    exists|i: int|
        0 <= i < reply.fields@.len() && (#[trigger] reply.fields@[i]).0@ == name && (forall|k: int|
            i < k < reply.fields@.len() ==> (#[trigger] reply.fields@[k]).0@ != name) && (
        reply.fields@[i].1 matches ReplyField::One(Scalar::Text(t)) && t@ == s)
}

proof fn lemma_field(fields: Seq<(String, ReplyField)>, name: Seq<char>, i: int)
    requires
        0 <= i < fields.len(),
        fields[i].0@ == name,
        forall|k: int| i < k < fields.len() ==> (#[trigger] fields[k]).0@ != name,
    ensures
        field(fields, name) == Some(fields[i].1),
    decreases fields.len(),
{
    if i < fields.len() - 1 {
        let init = fields.drop_last();
        assert(fields[fields.len() - 1].0@ != name);
        assert forall|k: int| i < k < init.len() implies (#[trigger] init[k]).0@ != name by {
            assert(fields[k].0@ != name);
        }
        lemma_field(init, name, i);
    }
}

/// A field of a reply is the last with its name.
pub proof fn law_the_last_field_counts(reply: Reply, name: Seq<char>, s: Seq<char>)
    requires
        says_text(reply, name, s),
    ensures
        text_at(reply, name) == Some(s),
{
    let i = choose|i: int|
        0 <= i < reply.fields@.len() && (#[trigger] reply.fields@[i]).0@ == name && (forall|k: int|
            i < k < reply.fields@.len() ==> (#[trigger] reply.fields@[k]).0@ != name) && (
        reply.fields@[i].1 matches ReplyField::One(Scalar::Text(t)) && t@ == s);
    lemma_field(reply.fields@, name, i);
}

/// Whether the reply to a command is shown as the text in a field.
pub open spec fn is_shown_as(command: Seq<char>, name: Seq<char>) -> bool {
    ||| name == "table"@ && (command == "list"@ || command == "query"@ || command == "blocked"@)
    ||| name == "view"@ && (command == "board"@ || command == "roadmap"@ || command
        == "critical-path"@ || command == "worklist"@)
    ||| name == "stats"@ && command == "stats"@
    ||| name == "history"@ && command == "history"@
    ||| name == "content"@ && command == "export"@
    ||| name == "detail"@ && (command == "pr.view"@ || command == "pr.diff"@ || command
        == "pr.checks"@ || command == "git.log"@ || command == "git.blame"@)
    ||| name == "output"@ && (command == "hdd.validate"@ || command == "hdd.registry"@ || command
        == "hdd.run.status"@)
}

/// What came in the field of a reply that its command is about is shown as it is.
pub proof fn law_replies_are_shown_unchanged(
    command: Seq<char>,
    reply: Reply,
    name: Seq<char>,
    s: Seq<char>,
)
    requires
        is_shown_as(command, name),
        says_text(reply, name, s),
    ensures
        output_spec(command, reply) == OutputView::Text(s),
{
    law_the_last_field_counts(reply, name, s);
    lemma_plain_words();
}

proof fn lemma_plain_words()
    ensures
        forall|command: Seq<char>, name: Seq<char>| #[trigger]
            is_shown_as(command, name) ==> plain_key(command) == Some(name),
{
    reveal_strlit("list");
    reveal_strlit("query");
    reveal_strlit("blocked");
    reveal_strlit("board");
    reveal_strlit("roadmap");
    reveal_strlit("critical-path");
    reveal_strlit("worklist");
    reveal_strlit("stats");
    reveal_strlit("history");
    reveal_strlit("export");
    reveal_strlit("pr.view");
    reveal_strlit("pr.diff");
    reveal_strlit("pr.checks");
    reveal_strlit("git.log");
    reveal_strlit("git.blame");
    reveal_strlit("hdd.validate");
    reveal_strlit("hdd.registry");
    reveal_strlit("hdd.run.status");
    assert("list"@[0] == 'l' && "query"@[0] == 'q' && "blocked"@[0] == 'b' && "blocked"@[1] == 'l');
    assert("board"@[0] == 'b' && "board"@[1] == 'o' && "roadmap"@[0] == 'r');
    assert("critical-path"@[0] == 'c' && "worklist"@[0] == 'w' && "stats"@[0] == 's');
    assert("history"@[0] == 'h' && "history"@[1] == 'i' && "export"@[0] == 'e');
    assert("pr.view"@[0] == 'p' && "pr.diff"@[0] == 'p' && "pr.checks"@[0] == 'p');
    assert("git.log"@[0] == 'g' && "git.blame"@[0] == 'g');
    assert("hdd.validate"@[0] == 'h' && "hdd.validate"@[1] == 'd' && "hdd.registry"@[0] == 'h'
        && "hdd.registry"@[1] == 'd' && "hdd.run.status"@[0] == 'h' && "hdd.run.status"@[1]
        == 'd');
}

proof fn lemma_command_words()
    ensures
        plain_key("move"@) is None,
        plain_key("rank"@) is None,
        plain_key("show"@) is None,
        plain_key("create"@) is None,
        line_key("move"@) is None,
        line_key("rank"@) is None,
        line_key("show"@) is None,
        line_key("create"@) is None,
        !makes_item("move"@),
        !makes_item("rank"@),
        !makes_item("show"@),
        "rank"@ != "move"@,
        "show"@ != "move"@,
        "show"@ != "rank"@,
{
    reveal_strlit("move");
    reveal_strlit("rank");
    reveal_strlit("show");
    reveal_strlit("create");
    reveal_strlit("list");
    reveal_strlit("query");
    reveal_strlit("blocked");
    reveal_strlit("board");
    reveal_strlit("roadmap");
    reveal_strlit("critical-path");
    reveal_strlit("worklist");
    reveal_strlit("stats");
    reveal_strlit("history");
    reveal_strlit("export");
    reveal_strlit("pr.view");
    reveal_strlit("pr.diff");
    reveal_strlit("pr.checks");
    reveal_strlit("git.log");
    reveal_strlit("git.blame");
    reveal_strlit("hdd.validate");
    reveal_strlit("hdd.registry");
    reveal_strlit("hdd.run.status");
    reveal_strlit("next-id");
    reveal_strlit("pr.review");
    reveal_strlit("pr.revise");
    reveal_strlit("pr.resolve");
    reveal_strlit("git.push");
    reveal_strlit("git.pull");
    reveal_strlit("git.clone");
    reveal_strlit("git.rebase");
    reveal_strlit("source.push");
    reveal_strlit("source.delete");
    reveal_strlit("delete");
    reveal_strlit("pr.merge");
    reveal_strlit("pr.close");
    reveal_strlit("pr.comment");
    reveal_strlit("hdd.run");
    reveal_strlit("hdd.paper");
    reveal_strlit("hdd.hypothesis");
    reveal_strlit("hdd.experiment");
    reveal_strlit("hdd.measure");
    reveal_strlit("hdd.idea");
    reveal_strlit("hdd.literature");
    assert("move"@[0] == 'm' && "rank"@[0] == 'r' && "rank"@[1] == 'a' && "show"@[0] == 's'
        && "show"@[1] == 'h' && "create"@[0] == 'c' && "create"@[2] == 'e');
    assert("list"@[0] == 'l' && "query"@[0] == 'q' && "blocked"@[0] == 'b' && "board"@[0] == 'b');
    assert("roadmap"@[1] == 'o' && "critical-path"@[2] == 'i' && "worklist"@[0] == 'w');
    assert("roadmap"@[0] == 'r' && "critical-path"@[0] == 'c');
    assert("stats"@[1] == 't' && "history"@[0] == 'h' && "export"@[0] == 'e' && "stats"@[0] == 's');
    assert("pr.view"@[0] == 'p' && "pr.diff"@[0] == 'p' && "pr.checks"@[0] == 'p');
    assert("git.log"@[0] == 'g' && "git.blame"@[0] == 'g' && "hdd.validate"@[0] == 'h');
    assert("hdd.registry"@[0] == 'h' && "hdd.run.status"@[0] == 'h' && "next-id"@[0] == 'n');
    assert("pr.review"@[0] == 'p' && "pr.revise"@[0] == 'p' && "pr.resolve"@[0] == 'p');
    assert("git.push"@[0] == 'g' && "git.pull"@[0] == 'g' && "git.clone"@[0] == 'g');
    assert("git.rebase"@[0] == 'g' && "source.push"@[1] == 'o' && "source.delete"@[1] == 'o');
    assert("delete"@[0] == 'd' && "pr.merge"@[0] == 'p' && "pr.close"@[0] == 'p');
    assert("pr.comment"@[0] == 'p' && "hdd.run"@[0] == 'h' && "hdd.paper"@[0] == 'h');
    assert("hdd.hypothesis"@[0] == 'h' && "hdd.experiment"@[0] == 'h' && "hdd.measure"@[0] == 'h');
    assert("hdd.idea"@[0] == 'h' && "hdd.literature"@[0] == 'h');
}

/// Whether some text is shown that has another in it.
pub open spec fn shows(output: OutputView, s: Seq<char>) -> bool {
    output matches OutputView::Text(t) && text::contains_spec(t, s)
}

proof fn lemma_in_the_middle(a: Seq<char>, s: Seq<char>, b: Seq<char>)
    ensures
        text::contains_spec(a + s + b, s),
{
    assert(s.subrange(0, s.len() as int) =~= s);
    assert(text::occurs_at(s, s, 0));
    text::lemma_contains_in_part(a, s, b, s);
}

/// That an item was made, moved or ranked is shown with its id and all that the reply says
/// of it.
pub proof fn law_replies_name_what_was_done(
    reply: Reply,
    id: Seq<char>,
    a: Seq<char>,
    b: Seq<char>,
)
    requires
        says_text(reply, "id"@, id),
    ensures
        says_text(reply, "title"@, a) ==> shows(output_spec("create"@, reply), id) && shows(
            output_spec("create"@, reply),
            a,
        ),
        says_text(reply, "from"@, a) && says_text(reply, "to"@, b) ==> shows(
            output_spec("move"@, reply),
            id,
        ) && shows(output_spec("move"@, reply), a) && shows(output_spec("move"@, reply), b),
        shows(output_spec("rank"@, reply), id),
{
    lemma_command_words();
    law_the_last_field_counts(reply, "id"@, id);
    let nl = "\n"@;
    if says_text(reply, "title"@, a) {
        law_the_last_field_counts(reply, "title"@, a);
        let t = created_text(reply);
        lemma_in_the_middle("Created "@, id, ": "@ + a + nl);
        assert("Created "@ + id + (": "@ + a + nl) =~= t);
        lemma_in_the_middle("Created "@ + id + ": "@, a, nl);
    }
    if says_text(reply, "from"@, a) && says_text(reply, "to"@, b) {
        law_the_last_field_counts(reply, "from"@, a);
        law_the_last_field_counts(reply, "to"@, b);
        let t = moved_text(reply);
        lemma_in_the_middle("Moved "@, id, " from "@ + a + " to "@ + b + nl);
        assert("Moved "@ + id + (" from "@ + a + " to "@ + b + nl) =~= t);
        lemma_in_the_middle("Moved "@ + id + " from "@, a, " to "@ + b + nl);
        assert("Moved "@ + id + " from "@ + a + (" to "@ + b + nl) =~= t);
        lemma_in_the_middle("Moved "@ + id + " from "@ + a + " to "@, b, nl);
    }
    let t = ranked_text(reply);
    match number_at(reply, "rank"@) {
        Some(rank) => {
            let n = text::decimal_int_spec(rank as int);
            lemma_in_the_middle("Ranked "@, id, " → "@ + n + nl);
            assert("Ranked "@ + id + (" → "@ + n + nl) =~= t);
        },
        None => {
            lemma_in_the_middle("Cleared rank on "@, id, nl);
        },
    }
}

proof fn lemma_branch_lines(
    s: Seq<char>,
    rows: Seq<Option<Vec<(String, Scalar)>>>,
    n: nat,
    i: int,
)
    requires
        0 <= i < n <= rows.len(),
        rows[i] is Some,
    ensures
        text::contains_spec(branch_lines(s, rows, n), cell_text(rows[i]->0@, "name"@, "?"@)),
    decreases n,
{
    let before = branch_lines(s, rows, (n - 1) as nat);
    let all = branch_lines(s, rows, n);
    if i == n - 1 {
        let name = cell_text(rows[i]->0@, "name"@, "?"@);
        let rest = all.skip((before.len() + 2 + name.len()) as int);
        reveal_strlit("  ");
        lemma_in_the_middle(before + "  "@, name, rest);
        assert(before + "  "@ + name + rest =~= all);
    } else {
        lemma_branch_lines(s, rows, (n - 1) as nat, i);
        let none = Seq::<char>::empty();
        let rest = all.skip(before.len() as int);
        text::lemma_contains_in_part(
            none,
            before,
            rest,
            cell_text(rows[i]->0@, "name"@, "?"@),
        );
        assert(none + before + rest =~= all);
    }
}

/// The branches of a server are all shown by their names.
pub proof fn law_every_branch_is_shown(rows: Seq<Option<Vec<(String, Scalar)>>>, i: int)
    requires
        0 <= i < rows.len(),
        rows[i] is Some,
    ensures
        text::contains_spec(branches_text(rows), cell_text(rows[i]->0@, "name"@, "?"@)),
{
    lemma_branch_lines("Branches on server:\n\n"@, rows, rows.len(), i);
}

/// Whether the reply to a command is shown as some words and the text in a field.
pub open spec fn is_said_with(command: Seq<char>, head: Seq<char>, name: Seq<char>) -> bool {
    ||| head == ""@ && name == "next_id"@ && command == "next-id"@
    ||| head == ""@ && name == "message"@ && (command == "pr.review"@ || command == "pr.revise"@
        || command == "pr.resolve"@ || command == "git.push"@ || command == "git.pull"@ || command
        == "git.clone"@ || command == "git.rebase"@ || command == "source.push"@ || command
        == "source.delete"@)
    ||| head == "Deleted "@ && name == "id"@ && command == "delete"@
    ||| head == "Merged "@ && name == "id"@ && command == "pr.merge"@
    ||| head == "Closed "@ && name == "id"@ && command == "pr.close"@
    ||| head == "Comment added to "@ && name == "id"@ && command == "pr.comment"@
    ||| head == "Started "@ && name == "run_id"@ && command == "hdd.run"@
}

proof fn lemma_line_words()
    ensures
        forall|command: Seq<char>, head: Seq<char>, name: Seq<char>| #[trigger]
            is_said_with(command, head, name) ==> plain_key(command) is None && line_key(command)
                == Some((head, name)),
{
    reveal_strlit("list");
    reveal_strlit("query");
    reveal_strlit("blocked");
    reveal_strlit("board");
    reveal_strlit("roadmap");
    reveal_strlit("critical-path");
    reveal_strlit("worklist");
    reveal_strlit("stats");
    reveal_strlit("history");
    reveal_strlit("export");
    reveal_strlit("pr.view");
    reveal_strlit("pr.diff");
    reveal_strlit("pr.checks");
    reveal_strlit("git.log");
    reveal_strlit("git.blame");
    reveal_strlit("hdd.validate");
    reveal_strlit("hdd.registry");
    reveal_strlit("hdd.run.status");
    reveal_strlit("next-id");
    reveal_strlit("pr.review");
    reveal_strlit("pr.revise");
    reveal_strlit("pr.resolve");
    reveal_strlit("git.push");
    reveal_strlit("git.pull");
    reveal_strlit("git.clone");
    reveal_strlit("git.rebase");
    reveal_strlit("source.push");
    reveal_strlit("source.delete");
    reveal_strlit("delete");
    reveal_strlit("pr.merge");
    reveal_strlit("pr.close");
    reveal_strlit("pr.comment");
    reveal_strlit("hdd.run");
    assert("list"@[0] == 'l' && "query"@[0] == 'q' && "blocked"@[0] == 'b' && "board"@[0] == 'b');
    assert("roadmap"@[0] == 'r' && "critical-path"@[0] == 'c' && "worklist"@[0] == 'w');
    assert("stats"@[0] == 's' && "stats"@[1] == 't' && "history"@[0] == 'h' && "history"@[1]
        == 'i' && "export"@[0] == 'e');
    assert("pr.view"@[0] == 'p' && "pr.view"@[3] == 'v' && "pr.diff"@[0] == 'p' && "pr.diff"@[3]
        == 'd' && "pr.checks"@[0] == 'p' && "pr.checks"@[3] == 'c' && "pr.checks"@[4] == 'h');
    assert("git.log"@[0] == 'g' && "git.log"@[4] == 'l' && "git.blame"@[0] == 'g'
        && "git.blame"@[4] == 'b');
    assert("hdd.validate"@[0] == 'h' && "hdd.validate"@.len() == 12 && "hdd.registry"@[0] == 'h'
        && "hdd.registry"@.len() == 12 && "hdd.run.status"@[0] == 'h' && "hdd.run.status"@.len()
        == 14);
    assert("next-id"@[0] == 'n' && "pr.review"@[0] == 'p' && "pr.review"@[3] == 'r');
    assert("pr.revise"@[0] == 'p' && "pr.revise"@[3] == 'r' && "pr.resolve"@[0] == 'p'
        && "pr.resolve"@[3] == 'r');
    assert("git.push"@[0] == 'g' && "git.push"@[4] == 'p' && "git.pull"@[0] == 'g'
        && "git.pull"@[4] == 'p' && "git.clone"@[0] == 'g' && "git.clone"@[4] == 'c'
        && "git.rebase"@[0] == 'g' && "git.rebase"@[4] == 'r');
    assert("source.push"@[0] == 's' && "source.push"@[1] == 'o' && "source.delete"@[0] == 's'
        && "source.delete"@[1] == 'o' && "delete"@[0] == 'd');
    assert("pr.merge"@[0] == 'p' && "pr.merge"@[3] == 'm' && "pr.close"@[0] == 'p'
        && "pr.close"@[3] == 'c' && "pr.close"@[4] == 'l' && "pr.comment"@[0] == 'p'
        && "pr.comment"@[3] == 'c' && "pr.comment"@[4] == 'o');
    assert("hdd.run"@[0] == 'h' && "hdd.run"@[1] == 'd' && "hdd.run"@.len() == 7);
}

/// What came in the field of a reply that its command is about is shown on a line, behind
/// what was done.
pub proof fn law_replies_are_shown_on_a_line(
    command: Seq<char>,
    reply: Reply,
    head: Seq<char>,
    name: Seq<char>,
    s: Seq<char>,
)
    requires
        is_said_with(command, head, name),
        says_text(reply, name, s),
    ensures
        output_spec(command, reply) == OutputView::Text(head + s + "\n"@),
{
    lemma_line_words();
    law_the_last_field_counts(reply, name, s);
}

} // verus!
