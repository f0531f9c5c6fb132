//! Checks of items against the shape of their type, and of a board's marks of pending
//! ratification.
use vstd::prelude::*;
use vstd::string::StringExecFns;
use crate::columns;
use crate::columns::Table;
use crate::item_type;
use crate::item_type::ItemType;
use crate::items::{ASSIGNEE, BODY, ID, ITEM_TYPE, PRIORITY, RELATED, STATUS, TAGS};
use crate::relation_vocab;
use crate::text;
pub use crate::ratification::{
    check_ratification_consistency, format_ratification_findings, RatificationFinding,
    RatificationIssue,
};

verus! {

// ---- rows ---------------------------------------------------------------------------------

/// What the checks read of an item. A field is `None` where the table gives none.
#[derive(Debug)]
pub struct ItemRow {
    pub id: Option<String>,
    pub item_type: Option<String>,
    pub status: Option<String>,
    /// Present and not empty.
    pub priority: Option<String>,
    /// Present and not empty.
    pub assignee: Option<String>,
    /// Present and not empty.
    pub body: Option<String>,
    pub tags: Vec<String>,
    pub related: Vec<String>,
}

#[verifier::ext_equal]
pub struct RowView {
    pub id: Option<Seq<char>>,
    pub item_type: Option<Seq<char>>,
    pub status: Option<Seq<char>>,
    pub priority: Option<Seq<char>>,
    pub assignee: Option<Seq<char>>,
    pub body: Option<Seq<char>>,
    pub tags: Seq<Seq<char>>,
    pub related: Seq<Seq<char>>,
}

impl View for ItemRow {
    type V = RowView;

    open spec fn view(&self) -> RowView {
        RowView {
            id: relation_vocab::option_view(self.id),
            item_type: relation_vocab::option_view(self.item_type),
            status: relation_vocab::option_view(self.status),
            priority: relation_vocab::option_view(self.priority),
            assignee: relation_vocab::option_view(self.assignee),
            body: relation_vocab::option_view(self.body),
            tags: text::views(self.tags@),
            related: text::views(self.related@),
        }
    }
}

pub open spec fn row_views(rows: Seq<ItemRow>) -> Seq<RowView> {
    Seq::new(rows.len(), |i: int| rows[i]@)
}

/// A text that may be missing, or nothing.
pub open spec fn or_empty(s: Option<Seq<char>>) -> Seq<char> {
    match s {
        Some(s) => s,
        None => Seq::empty(),
    }
}

/// Whether a table has the columns that the checks read.
pub open spec fn is_row_table(table: Table) -> bool {
    columns::table_columns(table).len() > BODY
}

/// Whether a table has the columns that the checks read.
pub fn has_row_columns(table: &Table) -> (r: bool)
    ensures
        r == is_row_table(*table),
{
    columns::num_columns(table) > BODY
}

/// The text in the first row, whether or not it is null.
pub open spec fn first_text(table: Table, col: int) -> Option<Seq<char>> {
    if columns::has_text(table, col) && columns::table_rows(table) > 0 {
        Some(columns::text_cell(table, col, 0).value)
    } else {
        None
    }
}

/// The text in the first row, where it is neither null nor empty.
pub open spec fn present_text(table: Table, col: int) -> Option<Seq<char>> {
    if columns::has_text(table, col) && columns::table_rows(table) > 0 && columns::text_cell(
        table,
        col,
        0,
    ).valid && columns::text_cell(table, col, 0).value.len() > 0 {
        Some(columns::text_cell(table, col, 0).value)
    } else {
        None
    }
}

/// The texts among the first `n` of a list that are not null.
pub open spec fn valid_texts(cells: Seq<columns::Cell<Seq<char>>>, n: nat) -> Seq<Seq<char>>
    decreases n,
{
    if n == 0 {
        Seq::empty()
    } else {
        let before = valid_texts(cells, (n - 1) as nat);
        if cells[n - 1].valid {
            before.push(cells[n - 1].value)
        } else {
            before
        }
    }
}

/// The texts of the list in the first row.
pub open spec fn first_texts(table: Table, col: int) -> Seq<Seq<char>> {
    if columns::has_lists(table, col) && columns::table_rows(table) > 0 && columns::list_cell(
        table,
        col,
        0,
    ).valid && columns::list_cell(table, col, 0).value is Texts {
        let cells = columns::list_cell(table, col, 0).value->Texts_0;
        valid_texts(cells, cells.len())
    } else {
        Seq::empty()
    }
}

fn get_string(table: &Table, col: usize) -> (r: Option<String>)
    requires
        col < columns::table_columns(*table).len(),
    ensures
        relation_vocab::option_view(r) == first_text(*table, col as int),
{
    if columns::is_text(table, col) && columns::num_rows(table) > 0 {
        Some(columns::text_value(table, col, 0))
    } else {
        None
    }
}

fn get_nullable_string(table: &Table, col: usize) -> (r: Option<String>)
    requires
        col < columns::table_columns(*table).len(),
    ensures
        relation_vocab::option_view(r) == present_text(*table, col as int),
{
    if !columns::is_text(table, col) || columns::num_rows(table) == 0 || columns::text_is_null(
        table,
        col,
        0,
    ) {
        return None;
    }
    let s: String = columns::text_value(table, col, 0);
    if s.as_str().is_empty() {
        None
    } else {
        Some(s)
    }
}

fn get_string_list(table: &Table, col: usize) -> (r: Vec<String>)
    requires
        col < columns::table_columns(*table).len(),
    ensures
        text::views(r@) == first_texts(*table, col as int),
{
    let mut r: Vec<String> = Vec::new();
    assert(text::views(r@) =~= Seq::<Seq<char>>::empty());
    if !columns::is_lists(table, col) || columns::num_rows(table) == 0 || columns::list_is_null(
        table,
        col,
        0,
    ) || !columns::list_is_text(table, col, 0) {
        return r;
    }
    let ghost cells = columns::list_cell(*table, col as int, 0).value->Texts_0;
    let n: usize = columns::list_value_len(table, col, 0);
    let mut i: usize = 0;
    while i < n
        invariant
            i <= n,
            columns::has_lists(*table, col as int),
            columns::table_rows(*table) > 0,
            columns::list_cell(*table, col as int, 0).value is Texts,
            cells == columns::list_cell(*table, col as int, 0).value->Texts_0,
            n == cells.len(),
            text::views(r@) == valid_texts(cells, i as nat),
        decreases n - i,
    {
        if !columns::list_text_is_null(table, col, 0, i) {
            let ghost before = text::views(r@);
            r.push(columns::list_text_value(table, col, 0, i));
            assert(text::views(r@) =~= before.push(cells[i as int].value));
        }
        i = i + 1;
    }
    r
}

/// The item in the first row of a table.
pub open spec fn row_of(table: Table) -> RowView {
    RowView {
        id: first_text(table, ID as int),
        item_type: first_text(table, ITEM_TYPE as int),
        status: first_text(table, STATUS as int),
        priority: present_text(table, PRIORITY as int),
        assignee: present_text(table, ASSIGNEE as int),
        body: present_text(table, BODY as int),
        tags: first_texts(table, TAGS as int),
        related: first_texts(table, RELATED as int),
    }
}

/// Reads the item in the first row of a table.
pub fn read_row(table: &Table) -> (r: ItemRow)
    requires
        is_row_table(*table),
    ensures
        r@ == row_of(*table),
{
    ItemRow {
        id: get_string(table, ID),
        item_type: get_string(table, ITEM_TYPE),
        status: get_string(table, STATUS),
        priority: get_nullable_string(table, PRIORITY),
        assignee: get_nullable_string(table, ASSIGNEE),
        body: get_nullable_string(table, BODY),
        tags: get_string_list(table, TAGS),
        related: get_string_list(table, RELATED),
    }
}

fn copy_or_empty(s: &Option<String>) -> (r: String)
    ensures
        r@ == or_empty(relation_vocab::option_view(*s)),
{
    match s {
        Some(s) => s.clone(),
        None => String::new(),
    }
}

// ---- shapes --------------------------------------------------------------------------------

/// How bad a violation is.
#[derive(Debug, Clone, Copy, PartialEq, Eq, Structural)]
pub enum Severity {
    /// The item does not conform.
    Error,
    /// The item can be used, but a good practice was not followed.
    Warning,
}

/// Something that is wrong with a field of an item.
#[derive(Debug, Clone)]
pub struct Violation {
    pub field: String,
    pub message: String,
    pub severity: Severity,
}

#[verifier::ext_equal]
pub struct ViolationView {
    pub field: Seq<char>,
    pub message: Seq<char>,
    pub severity: Severity,
}

impl View for Violation {
    type V = ViolationView;

    open spec fn view(&self) -> ViolationView {
        ViolationView { field: self.field@, message: self.message@, severity: self.severity }
    }
}

pub open spec fn violation_views(list: Seq<Violation>) -> Seq<ViolationView> {
    Seq::new(list.len(), |i: int| list[i]@)
}

/// What is wrong with an item.
#[derive(Debug)]
pub struct ValidationReport {
    pub item_id: String,
    pub item_type: String,
    pub violations: Vec<Violation>,
}

#[verifier::ext_equal]
pub struct ReportView {
    pub item_id: Seq<char>,
    pub item_type: Seq<char>,
    pub violations: Seq<ViolationView>,
}

impl View for ValidationReport {
    type V = ReportView;

    open spec fn view(&self) -> ReportView {
        ReportView {
            item_id: self.item_id@,
            item_type: self.item_type@,
            violations: violation_views(self.violations@),
        }
    }
}

pub open spec fn report_views(list: Seq<ValidationReport>) -> Seq<ReportView> {
    Seq::new(list.len(), |i: int| list[i]@)
}

/// How many of the first `n` violations are of a severity.
pub open spec fn count_spec(list: Seq<ViolationView>, severity: Severity, n: nat) -> nat
    decreases n,
{
    if n == 0 {
        0
    } else {
        count_spec(list, severity, (n - 1) as nat) + if list[n - 1].severity == severity {
            1nat
        } else {
            0
        }
    }
}

/// How many violations are of a severity.
fn count(list: &Vec<Violation>, severity: Severity) -> (r: usize)
    ensures
        r == count_spec(violation_views(list@), severity, list@.len()),
        r <= list.len(),
{
    let ghost views = violation_views(list@);
    let mut r: usize = 0;
    let mut i: usize = 0;
    while i < list.len()
        invariant
            i <= list.len(),
            views == violation_views(list@),
            r <= i,
            r == count_spec(views, severity, i as nat),
        decreases list@.len() - i,
    {
        assert(views[i as int] == list@[i as int]@);
        if list[i].severity == severity {
            r = r + 1;
        }
        i = i + 1;
    }
    r
}

/// Whether an item conforms: whether none of its violations is an error.
pub open spec fn conforms(report: ReportView) -> bool {
    forall|i: int|
        0 <= i < report.violations.len() ==> (#[trigger] report.violations[i]).severity
            != Severity::Error
}

impl ValidationReport {
    /// Whether the item conforms.
    pub fn is_conformant(&self) -> (r: bool)
        ensures
            r == conforms(self@),
    {
        let mut i: usize = 0;
        while i < self.violations.len()
            invariant
                i <= self.violations@.len(),
                forall|k: int|
                    0 <= k < i ==> (#[trigger] self@.violations[k]).severity != Severity::Error,
            decreases self.violations@.len() - i,
        {
            if self.violations[i].severity == Severity::Error {
                assert(self@.violations[i as int].severity == Severity::Error);
                return false;
            }
            i = i + 1;
        }
        true
    }
}

/// A violation, or none.
pub open spec fn when_so(condition: bool, v: ViolationView) -> Seq<ViolationView> {
    if condition {
        seq![v]
    } else {
        Seq::empty()
    }
}

pub open spec fn body_violation(t: Option<ItemType>) -> ViolationView {
    ViolationView {
        field: "body"@,
        message: "body is empty — use: nk update <ID> --body-file /tmp/body.md"@,
        severity: if t == Some(ItemType::Hazard) || t == Some(ItemType::Signal) {
            Severity::Warning
        } else {
            Severity::Error
        },
    }
}

pub open spec fn priority_violation() -> ViolationView {
    ViolationView {
        field: "priority"@,
        message: "priority required: low|medium|high|critical"@,
        severity: Severity::Error,
    }
}

pub open spec fn assignee_violation() -> ViolationView {
    ViolationView {
        field: "assignee"@,
        message: "assignee required: M5|DGX|Mini|unassigned"@,
        severity: Severity::Warning,
    }
}

pub open spec fn unassigned_violation() -> ViolationView {
    ViolationView {
        field: "assignee"@,
        message: "item is in_progress but assignee is 'unassigned'"@,
        severity: Severity::Warning,
    }
}

/// The types whose items need a priority.
pub open spec fn needs_priority(t: Option<ItemType>) -> bool {
    t == Some(ItemType::Expedition) || t == Some(ItemType::Voyage) || t == Some(ItemType::Chore)
        || t == Some(ItemType::Feature)
}

/// The types whose items should have an assignee.
pub open spec fn wants_assignee(t: Option<ItemType>) -> bool {
    t == Some(ItemType::Expedition) || t == Some(ItemType::Voyage)
}

/// What is wrong with an item: an empty body, a missing priority or assignee where the
/// type asks for one, and work in progress that nobody is assigned to.
pub open spec fn violations_spec(row: RowView) -> Seq<ViolationView> {
    let t = item_type::type_named(or_empty(row.item_type));
    when_so(text::trim_spec(or_empty(row.body)).len() == 0, body_violation(t)) + when_so(
        needs_priority(t) && row.priority is None,
        priority_violation(),
    ) + when_so(wants_assignee(t) && row.assignee is None, assignee_violation()) + when_so(
        or_empty(row.status) == "in_progress"@ && row.assignee == Some("unassigned"@),
        unassigned_violation(),
    )
}

pub open spec fn report_spec(row: RowView) -> ReportView {
    ReportView {
        item_id: or_empty(row.id),
        item_type: or_empty(row.item_type),
        violations: violations_spec(row),
    }
}

fn violation(field: &str, message: &str, severity: Severity) -> (r: Violation)
    ensures
        r@ == (ViolationView { field: field@, message: message@, severity }),
{
    Violation { field: text::owned(field), message: text::owned(message), severity }
}

fn push_when(list: &mut Vec<Violation>, condition: bool, v: Violation)
    ensures
        violation_views(final(list)@) == violation_views(old(list)@) + when_so(condition, v@),
{
    let ghost before = violation_views(list@);
    let ghost shown = v@;
    if condition {
        list.push(v);
    }
    assert(violation_views(list@) =~= before + when_so(condition, shown));
}

/// Checks an item against the shape of its type.
pub fn validate_row(row: &ItemRow) -> (r: ValidationReport)
    ensures
        r@ == report_spec(row@),
{
    let item_type: String = copy_or_empty(&row.item_type);
    let t: Option<ItemType> = ItemType::from_str_loose(item_type.as_str());
    let mut violations: Vec<Violation> = Vec::new();
    assert(violation_views(violations@) =~= Seq::<ViolationView>::empty());
    let body: String = copy_or_empty(&row.body);
    let trimmed: String = text::trim(body.as_str());
    let severity: Severity = match t {
        Some(ItemType::Hazard) => Severity::Warning,
        Some(ItemType::Signal) => Severity::Warning,
        _ => Severity::Error,
    };
    push_when(
        &mut violations,
        trimmed.as_str().is_empty(),
        violation("body", "body is empty — use: nk update <ID> --body-file /tmp/body.md", severity),
    );
    let asks_priority: bool = match t {
        Some(ItemType::Expedition) => true,
        Some(ItemType::Voyage) => true,
        Some(ItemType::Chore) => true,
        Some(ItemType::Feature) => true,
        _ => false,
    };
    push_when(
        &mut violations,
        asks_priority && row.priority.is_none(),
        violation(
            "priority",
            "priority required: low|medium|high|critical",
            Severity::Error,
        ),
    );
    let asks_assignee: bool = match t {
        Some(ItemType::Expedition) => true,
        Some(ItemType::Voyage) => true,
        _ => false,
    };
    push_when(
        &mut violations,
        asks_assignee && row.assignee.is_none(),
        violation("assignee", "assignee required: M5|DGX|Mini|unassigned", Severity::Warning),
    );
    let status: String = copy_or_empty(&row.status);
    let unassigned: bool = match &row.assignee {
        Some(a) => text::same(a.as_str(), "unassigned"),
        None => false,
    };
    push_when(
        &mut violations,
        text::same(status.as_str(), "in_progress") && unassigned,
        violation(
            "assignee",
            "item is in_progress but assignee is 'unassigned'",
            Severity::Warning,
        ),
    );
    let report: ValidationReport = ValidationReport {
        item_id: copy_or_empty(&row.id),
        item_type,
        violations,
    };
    assert(report@.violations =~= violations_spec(row@));
    report
}

/// Checks the item in the first row of a table against the shape of its type.
pub fn validate_item(table: &Table) -> (r: ValidationReport)
    requires
        is_row_table(*table),
    ensures
        r@ == report_spec(row_of(*table)),
{
    let row: ItemRow = read_row(table);
    validate_row(&row)
}

/// Checks the items of a board, one table each.
pub fn validate_all(tables: &[Table]) -> (r: Vec<ValidationReport>)
    requires
        forall|i: int| 0 <= i < tables@.len() ==> is_row_table(#[trigger] tables@[i]),
    ensures
        r@.len() == tables@.len(),
        forall|i: int|
            0 <= i < tables@.len() ==> (#[trigger] r@[i])@ == report_spec(row_of(tables@[i])),
{
    let mut r: Vec<ValidationReport> = Vec::new();
    let mut i: usize = 0;
    while i < tables.len()
        invariant
            i <= tables@.len(),
            forall|i: int| 0 <= i < tables@.len() ==> is_row_table(#[trigger] tables@[i]),
            r@.len() == i,
            forall|k: int| 0 <= k < i ==> (#[trigger] r@[k])@ == report_spec(row_of(tables@[k])),
        decreases tables@.len() - i,
    {
        assert(is_row_table(tables@[i as int]));
        r.push(validate_item(&tables[i]));
        i = i + 1;
    }
    r
}

// ---- fixes ----------------------------------------------------------------------------------

/// The command that mends a field of an item.
pub open spec fn fix_spec(item_id: Seq<char>, field: Seq<char>) -> Seq<char> {
    if field == "assignee"@ {
        "nk update "@ + item_id + " --assign M5"@
    } else if field == "body"@ {
        "nk update "@ + item_id + " --body-file /tmp/body.md"@
    } else if field == "priority"@ {
        "nk update "@ + item_id + " --priority medium"@
    } else {
        "nk update "@ + item_id + " # fix "@ + field
    }
}

fn fix(item_id: &str, field: &str) -> (r: String)
    ensures
        r@ == fix_spec(item_id@, field@),
{
    let mut r: String = text::owned("nk update ");
    r.append(item_id);
    if text::same(field, "assignee") {
        r.append(" --assign M5");
    } else if text::same(field, "body") {
        r.append(" --body-file /tmp/body.md");
    } else if text::same(field, "priority") {
        r.append(" --priority medium");
    } else {
        r.append(" # fix ");
        r.append(field);
    }
    r
}

/// The commands that mend an item, one for each violation.
pub open spec fn fixes_spec(report: ReportView) -> Seq<Seq<char>> {
    Seq::new(
        report.violations.len(),
        |i: int| fix_spec(report.item_id, report.violations[i].field),
    )
}

/// The commands that mend an item, one for each violation.
pub fn suggest_fixes(report: &ValidationReport) -> (r: Vec<String>)
    ensures
        text::views(r@) == fixes_spec(report@),
{
    let mut r: Vec<String> = Vec::new();
    let mut i: usize = 0;
    while i < report.violations.len()
        invariant
            i <= report.violations@.len(),
            r@.len() == i,
            forall|k: int|
                0 <= k < i ==> (#[trigger] r@[k])@ == fix_spec(
                    report@.item_id,
                    report@.violations[k].field,
                ),
        decreases report.violations@.len() - i,
    {
        r.push(fix(report.item_id.as_str(), report.violations[i].field.as_str()));
        i = i + 1;
    }
    assert(text::views(r@) =~= fixes_spec(report@));
    r
}

// ---- reports in words -------------------------------------------------------------------------

pub open spec fn label_spec(severity: Severity) -> Seq<char> {
    match severity {
        Severity::Error => "  ERROR  "@,
        Severity::Warning => "  WARNING"@,
    }
}

pub fn label(severity: Severity) -> (r: &'static str)
    ensures
        r@ == label_spec(severity),
{
    match severity {
        Severity::Error => "  ERROR  ",
        Severity::Warning => "  WARNING",
    }
}

pub open spec fn violation_line(v: ViolationView) -> Seq<char> {
    label_spec(v.severity) + " "@ + v.field + ": "@ + v.message
}

pub open spec fn counts_spec(errors: nat, warnings: nat) -> Seq<char> {
    if errors == 0 {
        "WARNINGS ("@ + text::decimal_spec(warnings) + ")"@
    } else if warnings == 0 {
        "VIOLATIONS ("@ + text::decimal_spec(errors) + ")"@
    } else {
        "VIOLATIONS ("@ + text::decimal_spec(errors) + " errors, "@ + text::decimal_spec(warnings)
            + " warnings)"@
    }
}

/// The first line of a report.
pub open spec fn report_header(report: ReportView) -> Seq<char> {
    let n = report.violations.len();
    report.item_id + " "@ + report.item_type + " — "@ + (if n == 0 {
        "OK"@
    } else {
        counts_spec(
            count_spec(report.violations, Severity::Error, n),
            count_spec(report.violations, Severity::Warning, n),
        )
    })
}

/// The lines of a report: a header, a line for each violation, and the commands that
/// mend them where these are asked for.
pub open spec fn report_lines(report: ReportView, show_fixes: bool) -> Seq<Seq<char>> {
    let n = report.violations.len();
    let fixes = fixes_spec(report);
    seq![report_header(report)] + Seq::new(n, |i: int| violation_line(report.violations[i]))
        + if show_fixes && n > 0 {
        seq![""@, "Suggested fixes:"@] + Seq::new(n, |i: int| "  "@ + fixes[i])
    } else {
        Seq::empty()
    }
}

fn counts(errors: usize, warnings: usize) -> (r: String)
    ensures
        r@ == counts_spec(errors as nat, warnings as nat),
{
    let e: String = text::decimal(errors);
    let w: String = text::decimal(warnings);
    if errors == 0 {
        let mut r: String = text::owned("WARNINGS (");
        r.append(w.as_str());
        r.append(")");
        r
    } else {
        let mut r: String = text::owned("VIOLATIONS (");
        r.append(e.as_str());
        if warnings == 0 {
            r.append(")");
        } else {
            r.append(" errors, ");
            r.append(w.as_str());
            r.append(" warnings)");
        }
        r
    }
}

fn header(report: &ValidationReport) -> (r: String)
    ensures
        r@ == report_header(report@),
{
    let summary: String = if report.violations.len() == 0 {
        text::owned("OK")
    } else {
        counts(
            count(&report.violations, Severity::Error),
            count(&report.violations, Severity::Warning),
        )
    };
    let mut r: String = report.item_id.clone();
    r.append(" ");
    r.append(report.item_type.as_str());
    r.append(" — ");
    r.append(summary.as_str());
    r
}

/// A report in words.
pub fn format_report(report: &ValidationReport, show_fixes: bool) -> (r: String)
    ensures
        r@ == text::join_spec(report_lines(report@, show_fixes), "\n"@),
{
    let ghost view = report@;
    let ghost n = view.violations.len();
    let mut lines: Vec<String> = Vec::new();
    lines.push(header(report));
    let mut i: usize = 0;
    while i < report.violations.len()
        invariant
            i <= report.violations@.len(),
            view == report@,
            lines@.len() == i + 1,
            lines@[0]@ == report_header(view),
            forall|k: int|
                0 <= k < i ==> (#[trigger] lines@[k + 1])@ == violation_line(view.violations[k]),
        decreases report.violations@.len() - i,
    {
        let v: &Violation = &report.violations[i];
        assert(view.violations[i as int] == v@);
        let mut line: String = text::owned(label(v.severity));
        line.append(" ");
        line.append(v.field.as_str());
        line.append(": ");
        line.append(v.message.as_str());
        lines.push(line);
        i = i + 1;
    }
    let ghost so_far = seq![report_header(view)] + Seq::new(
        n,
        |i: int| violation_line(view.violations[i]),
    );
    assert forall|k: int| 0 <= k < so_far.len() implies #[trigger] text::views(lines@)[k]
        == so_far[k] by {
        if k > 0 {
            assert(lines@[(k - 1) + 1]@ == violation_line(view.violations[k - 1]));
        }
    }
    assert(text::views(lines@) =~= so_far);
    if show_fixes && report.violations.len() > 0 {
        let fixes: Vec<String> = suggest_fixes(report);
        let ghost all = fixes_spec(view);
        assert(text::views(fixes@) == all);
        lines.push(text::owned(""));
        lines.push(text::owned("Suggested fixes:"));
        let ghost head = so_far + seq![""@, "Suggested fixes:"@];
        assert(text::views(lines@) =~= head);
        let mut j: usize = 0;
        assert(text::views(lines@) =~= head + Seq::new(0, |i: int| "  "@ + all[i]));
        while j < fixes.len()
            invariant
                j <= fixes@.len(),
                text::views(fixes@) == all,
                text::views(lines@) == head + Seq::new(j as nat, |i: int| "  "@ + all[i]),
            decreases fixes@.len() - j,
        {
            let mut line: String = text::owned("  ");
            line.append(fixes[j].as_str());
            assert(all[j as int] == fixes@[j as int]@);
            let ghost before = text::views(lines@);
            let ghost shown = line@;
            lines.push(line);
            assert(text::views(lines@) =~= before.push(shown));
            assert(text::views(lines@) =~= head + Seq::new((j + 1) as nat, |i: int| "  "@ + all[i]));
            j = j + 1;
        }
    }
    assert(text::views(lines@) =~= report_lines(view, show_fixes));
    text::join(&lines, "\n")
}

/// How many of the first `n` reports are of conforming items.
pub open spec fn conforming(reports: Seq<ReportView>, n: nat) -> nat
    decreases n,
{
    if n == 0 {
        0
    } else {
        conforming(reports, (n - 1) as nat) + if conforms(reports[n - 1]) {
            1nat
        } else {
            0
        }
    }
}

pub open spec fn summary_line(report: ReportView) -> Seq<char> {
    let n = report.violations.len();
    "  "@ + report.item_id + " ("@ + report.item_type + ") — "@ + text::decimal_spec(
        count_spec(report.violations, Severity::Error, n),
    ) + " errors, "@ + text::decimal_spec(count_spec(report.violations, Severity::Warning, n))
        + " warnings"@
}

/// The lines for those of the first `n` reports whose items do not conform.
pub open spec fn summary_lines(reports: Seq<ReportView>, n: nat) -> Seq<Seq<char>>
    decreases n,
{
    if n == 0 {
        Seq::empty()
    } else {
        let before = summary_lines(reports, (n - 1) as nat);
        if conforms(reports[n - 1]) {
            before
        } else {
            before.push(summary_line(reports[n - 1]))
        }
    }
}

/// The lines of a board's summary.
pub open spec fn board_lines(reports: Seq<ReportView>) -> Seq<Seq<char>> {
    let good = conforming(reports, reports.len());
    seq![
        "Validation summary: "@ + text::decimal_spec(good) + " conformant, "@ + text::decimal_spec(
            (reports.len() - good) as nat,
        ) + " with violations"@,
    ] + if good == reports.len() {
        seq!["All items conform to their SHACL shapes."@]
    } else {
        seq![""@, "Items with violations:"@] + summary_lines(reports, reports.len())
    }
}

/// A board's summary in words: how many items conform, and which do not.
pub fn format_board_summary(reports: &[ValidationReport]) -> (r: String)
    ensures
        r@ == text::join_spec(board_lines(report_views(reports@)), "\n"@),
{
    let ghost views = report_views(reports@);
    let mut good: usize = 0;
    let mut listed: Vec<String> = Vec::new();
    let mut i: usize = 0;
    assert(text::views(listed@) =~= summary_lines(views, 0));
    while i < reports.len()
        invariant
            i <= reports.len(),
            views == report_views(reports@),
            good <= i,
            good == conforming(views, i as nat),
            text::views(listed@) == summary_lines(views, i as nat),
        decreases reports@.len() - i,
    {
        let report: &ValidationReport = &reports[i];
        assert(views[i as int] == report@);
        if report.is_conformant() {
            good = good + 1;
        } else {
            let mut line: String = text::owned("  ");
            line.append(report.item_id.as_str());
            line.append(" (");
            line.append(report.item_type.as_str());
            line.append(") — ");
            let errors: String = text::decimal(count(&report.violations, Severity::Error));
            line.append(errors.as_str());
            line.append(" errors, ");
            let warnings: String = text::decimal(count(&report.violations, Severity::Warning));
            line.append(warnings.as_str());
            line.append(" warnings");
            let ghost before = text::views(listed@);
            let ghost shown = line@;
            listed.push(line);
            assert(text::views(listed@) =~= before.push(shown));
        }
        i = i + 1;
    }
    let mut first: String = text::owned("Validation summary: ");
    let g: String = text::decimal(good);
    first.append(g.as_str());
    first.append(" conformant, ");
    let b: String = text::decimal(reports.len() - good);
    first.append(b.as_str());
    first.append(" with violations");
    let mut lines: Vec<String> = Vec::new();
    lines.push(first);
    if good == reports.len() {
        lines.push(text::owned("All items conform to their SHACL shapes."));
    } else {
        lines.push(text::owned(""));
        lines.push(text::owned("Items with violations:"));
        lines.append(&mut listed);
    }
    assert(text::views(lines@) =~= board_lines(views));
    text::join(&lines, "\n")
}

// ---- what holds of reports ---------------------------------------------------------------------

/// An item conforms exactly when none of its violations is counted as an error.
pub proof fn law_conforms_iff_no_errors(report: ReportView)
    ensures
        conforms(report) <==> count_spec(
            report.violations,
            Severity::Error,
            report.violations.len(),
        ) == 0,
{
    lemma_no_errors(report.violations, report.violations.len());
}

proof fn lemma_no_errors(list: Seq<ViolationView>, n: nat)
    requires
        n <= list.len(),
    ensures
        count_spec(list, Severity::Error, n) == 0 <==> (forall|i: int|
            0 <= i < n ==> (#[trigger] list[i]).severity != Severity::Error),
    decreases n,
{
    if n > 0 {
        lemma_no_errors(list, (n - 1) as nat);
    }
}

/// Every violation is an error or a warning, so the counts of a report add up to its
/// length.
pub proof fn law_counts_add_up(list: Seq<ViolationView>, n: nat)
    requires
        n <= list.len(),
    ensures
        count_spec(list, Severity::Error, n) + count_spec(list, Severity::Warning, n) == n,
    decreases n,
{
    if n > 0 {
        law_counts_add_up(list, (n - 1) as nat);
    }
}

/// Items whose body is missing or blank never go without a remark.
pub proof fn law_blank_bodies_are_reported(row: RowView)
    requires
        text::trim_spec(or_empty(row.body)).len() == 0,
    ensures
        report_spec(row).violations.len() > 0,
        report_spec(row).violations[0].field == "body"@,
{
}

/// An item with a body, a priority and an assignee conforms, whatever its type.
pub proof fn law_complete_items_conform(row: RowView)
    requires
        text::trim_spec(or_empty(row.body)).len() > 0,
        row.priority is Some,
        row.assignee is Some,
    ensures
        conforms(report_spec(row)),
{
}

// ---- what is reported, by the fields of the item -----------------------------------------------------------

/// Whether a report has a violation of a field.
pub open spec fn reports_on(report: ReportView, field: Seq<char>) -> bool {
    exists|i: int| 0 <= i < report.violations.len() && (#[trigger] report.violations[i]).field == field
}

/// Whether all violations of a field in a report are of one severity.
pub open spec fn reports_all_as(report: ReportView, field: Seq<char>, severity: Severity) -> bool {
    forall|i: int|
        0 <= i < report.violations.len() && (#[trigger] report.violations[i]).field == field
            ==> report.violations[i].severity == severity
}

proof fn lemma_field_names()
    ensures
        "body"@ != "priority"@,
        "body"@ != "assignee"@,
        "priority"@ != "assignee"@,
{
    reveal_strlit("body");
    reveal_strlit("priority");
    reveal_strlit("assignee");
    assert("body"@[0] == 'b' && "priority"@[0] == 'p' && "assignee"@[0] == 'a');
}

proof fn lemma_type_words()
    ensures
        "expedition"@ != "voyage"@,
        "expedition"@ != "campaign"@,
        "expedition"@ != "chore"@,
        "expedition"@ != "hazard"@,
        "expedition"@ != "signal"@,
        "expedition"@ != "feature"@,
        "voyage"@ != "campaign"@,
        "voyage"@ != "chore"@,
        "voyage"@ != "hazard"@,
        "voyage"@ != "signal"@,
        "voyage"@ != "feature"@,
        "campaign"@ != "chore"@,
        "campaign"@ != "hazard"@,
        "campaign"@ != "signal"@,
        "campaign"@ != "feature"@,
        "chore"@ != "hazard"@,
        "chore"@ != "signal"@,
        "chore"@ != "feature"@,
        "hazard"@ != "signal"@,
        "hazard"@ != "feature"@,
        "signal"@ != "feature"@,
{
    reveal_strlit("expedition");
    reveal_strlit("voyage");
    reveal_strlit("campaign");
    reveal_strlit("chore");
    reveal_strlit("hazard");
    reveal_strlit("signal");
    reveal_strlit("feature");
    assert("expedition"@[0] == 'e' && "voyage"@[0] == 'v' && "campaign"@[1] == 'a');
    assert("chore"@[0] == 'c' && "chore"@[1] == 'h' && "campaign"@[0] == 'c');
    assert("hazard"@[0] == 'h' && "signal"@[0] == 's' && "feature"@[0] == 'f');
}

/// An item is reported for an empty body, whatever its type, and a hazard or a signal is
/// only warned of for it; expeditions, voyages, chores and features without a priority
/// are reported, and expeditions and voyages without an assignee warned of, as are items
/// in progress that nobody is assigned to. Nothing else is reported.
pub proof fn law_reports_by_the_fields(row: RowView, report: ReportView)
    requires
        report == report_spec(row),
    ensures
        report.item_id == or_empty(row.id),
        report.item_type == or_empty(row.item_type),
        ({
            let t = text::lower_spec(or_empty(row.item_type));
            let lenient = t == "hazard"@ || t == "signal"@;
            let blank = text::trim_spec(or_empty(row.body)).len() == 0;
            let undecided = (t == "expedition"@ || t == "voyage"@ || t == "chore"@ || t
                == "feature"@) && row.priority is None;
            let nobodys = ((t == "expedition"@ || t == "voyage"@) && row.assignee is None) || (
            or_empty(row.status) == "in_progress"@ && row.assignee == Some("unassigned"@));
            &&& reports_on(report, "body"@) == blank
            &&& reports_all_as(
                report,
                "body"@,
                if lenient {
                    Severity::Warning
                } else {
                    Severity::Error
                },
            )
            &&& reports_on(report, "priority"@) == undecided
            &&& reports_all_as(report, "priority"@, Severity::Error)
            &&& reports_on(report, "assignee"@) == nobodys
            &&& reports_all_as(report, "assignee"@, Severity::Warning)
            &&& conforms(report) == !((blank && !lenient) || undecided)
        }),
        forall|i: int|
            0 <= i < report.violations.len() ==> (#[trigger] report.violations[i]).field == "body"@
                || report.violations[i].field == "priority"@ || report.violations[i].field
                == "assignee"@,
{
    lemma_field_names();
    lemma_type_words();
    let l = text::lower_spec(or_empty(row.item_type));
    let t = item_type::type_named(or_empty(row.item_type));
    assert((t == Some(ItemType::Hazard)) == (l == "hazard"@));
    assert((t == Some(ItemType::Signal)) == (l == "signal"@));
    assert((t == Some(ItemType::Expedition)) == (l == "expedition"@));
    assert((t == Some(ItemType::Voyage)) == (l == "voyage"@));
    assert((t == Some(ItemType::Chore)) == (l == "chore"@));
    assert((t == Some(ItemType::Feature)) == (l == "feature"@));
    let blank = text::trim_spec(or_empty(row.body)).len() == 0;
    let undecided = needs_priority(t) && row.priority is None;
    let absent = wants_assignee(t) && row.assignee is None;
    let idle = or_empty(row.status) == "in_progress"@ && row.assignee == Some("unassigned"@);
    let a = when_so(blank, body_violation(t));
    let b = when_so(undecided, priority_violation());
    let c = when_so(absent, assignee_violation());
    let d = when_so(idle, unassigned_violation());
    let all = report.violations;
    assert(all == a + b + c + d);
    if blank {
        assert(all[0] == body_violation(t));
    }
    if undecided {
        assert(all[a.len() as int] == priority_violation());
    }
    if absent {
        assert(all[(a.len() + b.len()) as int] == assignee_violation());
    }
    if idle {
        assert(all[(a.len() + b.len() + c.len()) as int] == unassigned_violation());
    }
    assert forall|i: int| 0 <= i < all.len() implies (#[trigger] all[i]) == body_violation(t)
        && blank || all[i] == priority_violation() && undecided || all[i] == assignee_violation()
        && absent || all[i] == unassigned_violation() && idle by {}
}

proof fn lemma_valid_texts(cells: Seq<columns::Cell<Seq<char>>>, n: nat, s: Seq<char>)
    requires
        n <= cells.len(),
    ensures
        valid_texts(cells, n).contains(s) == exists|k: int|
            0 <= k < n && (#[trigger] cells[k]).valid && cells[k].value == s,
    decreases n,
{
    if n > 0 {
        let before = valid_texts(cells, (n - 1) as nat);
        lemma_valid_texts(cells, (n - 1) as nat, s);
        vstd::seq_lib::lemma_seq_contains_after_push(before, cells[n - 1].value, s);
        if exists|k: int| 0 <= k < n - 1 && (#[trigger] cells[k]).valid && cells[k].value == s {
            let k = choose|k: int|
                0 <= k < n - 1 && (#[trigger] cells[k]).valid && cells[k].value == s;
            assert(0 <= k < n && cells[k].valid && cells[k].value == s);
        }
        assert(cells[n - 1].valid && cells[n - 1].value == s ==> 0 <= n - 1 < n);
    }
}

/// A row shows the first row of its table: a priority, an assignee and a body only where
/// the cell has one that is not empty, and of tags and relations each that is there.
pub proof fn law_rows_show_the_cells(table: Table, row: RowView, s: Seq<char>)
    requires
        row == row_of(table),
        columns::table_rows(table) > 0,
    ensures
        row.id == Some(s) <==> columns::has_text(table, ID as int) && columns::text_cell(
            table,
            ID as int,
            0,
        ).value == s,
        row.item_type == Some(s) <==> columns::has_text(table, ITEM_TYPE as int)
            && columns::text_cell(table, ITEM_TYPE as int, 0).value == s,
        row.status == Some(s) <==> columns::has_text(table, STATUS as int) && columns::text_cell(
            table,
            STATUS as int,
            0,
        ).value == s,
        row.priority == Some(s) <==> columns::has_text(table, PRIORITY as int) && s.len() > 0
            && columns::text_cell(table, PRIORITY as int, 0) == (columns::Cell {
            valid: true,
            value: s,
        }),
        row.assignee == Some(s) <==> columns::has_text(table, ASSIGNEE as int) && s.len() > 0
            && columns::text_cell(table, ASSIGNEE as int, 0) == (columns::Cell {
            valid: true,
            value: s,
        }),
        row.body == Some(s) <==> columns::has_text(table, BODY as int) && s.len() > 0
            && columns::text_cell(table, BODY as int, 0) == (columns::Cell { valid: true, value: s }),
        row.tags.contains(s) <==> has_in_list(table, TAGS as int, s),
        row.related.contains(s) <==> has_in_list(table, RELATED as int, s),
{
    lemma_first_texts(table, TAGS as int, s);
    lemma_first_texts(table, RELATED as int, s);
}

/// Whether the list of a column has a text in the first row.
pub open spec fn has_in_list(table: Table, col: int, s: Seq<char>) -> bool {
    &&& columns::has_lists(table, col)
    &&& columns::list_cell(table, col, 0).valid
    &&& columns::list_cell(table, col, 0).value matches columns::ListItems::Texts(cells)
        && exists|k: int| 0 <= k < cells.len() && (#[trigger] cells[k]).valid && cells[k].value == s
}

proof fn lemma_first_texts(table: Table, col: int, s: Seq<char>)
    requires
        columns::table_rows(table) > 0,
    ensures
        first_texts(table, col).contains(s) == has_in_list(table, col, s),
{
    if columns::list_cell(table, col, 0).value is Texts {
        let cells = columns::list_cell(table, col, 0).value->Texts_0;
        lemma_valid_texts(cells, cells.len(), s);
    }
}

/// The summary of a board counts the items without errors, and has a line for each other.
pub proof fn law_summaries_show_every_failure(reports: Seq<ReportView>, n: nat)
    requires
        n <= reports.len(),
    ensures
        conforming(reports, n) == reports.take(n as int).filter(|r: ReportView| conforms(r)).len(),
        summary_lines(reports, n).len() == n - conforming(reports, n),
        forall|i: int|
            0 <= i < n && (exists|k: int|
                0 <= k < reports[i].violations.len() && (
                #[trigger] reports[i].violations[k]).severity == Severity::Error)
                ==> summary_lines(reports, n).contains(summary_line(#[trigger] reports[i])),
    decreases n,
{
    reveal(Seq::filter);
    if n > 0 {
        let m = (n - 1) as nat;
        law_summaries_show_every_failure(reports, m);
        assert(reports.take(n as int).drop_last() =~= reports.take(m as int));
        assert(reports.take(n as int).last() == reports[n - 1]);
        let before = summary_lines(reports, m);
        assert forall|i: int|
            0 <= i < n && (exists|k: int|
                0 <= k < reports[i].violations.len() && (
                #[trigger] reports[i].violations[k]).severity
                    == Severity::Error) implies summary_lines(reports, n).contains(
            summary_line(#[trigger] reports[i]),
        ) by {
            vstd::seq_lib::lemma_seq_contains_after_push(
                before,
                summary_line(reports[n - 1]),
                summary_line(reports[i]),
            );
            if i < m {
                assert(before.contains(summary_line(reports[i])));
            } else {
                assert(!conforms(reports[i]));
            }
        }
    }
}

/// The summary of a board starts with the number of items without errors and of the
/// others, and then has the line of each of the others.
pub proof fn law_board_summaries_say_the_numbers(reports: Seq<ReportView>, i: int)
    ensures
        board_lines(reports)[0] == "Validation summary: "@ + text::decimal_spec(
            reports.filter(|r: ReportView| conforms(r)).len(),
        ) + " conformant, "@ + text::decimal_spec(
            (reports.len() - reports.filter(|r: ReportView| conforms(r)).len()) as nat,
        ) + " with violations"@,
        0 <= i < reports.len() && !conforms(reports[i]) ==> board_lines(reports).contains(
            summary_line(reports[i]),
        ),
{
    let n = reports.len();
    law_summaries_show_every_failure(reports, n);
    assert(reports.take(n as int) =~= reports);
    if 0 <= i < n && !conforms(reports[i]) {
        let k = choose|k: int|
            0 <= k < reports[i].violations.len() && (#[trigger] reports[i].violations[k]).severity
                == Severity::Error;
        assert(reports[i].violations[k].severity == Severity::Error);
        let lines = summary_lines(reports, n);
        assert(lines.contains(summary_line(reports[i])));
        assert(conforming(reports, n) < n) by {
            if conforming(reports, n) >= n {
                assert(lines.len() == 0);
            }
        }
        let first = seq![board_lines(reports)[0]];
        let title = seq![""@, "Items with violations:"@];
        vstd::seq_lib::lemma_seq_concat_contains_all_elements(
            title,
            lines,
            summary_line(reports[i]),
        );
        vstd::seq_lib::lemma_seq_concat_contains_all_elements(
            first,
            title + lines,
            summary_line(reports[i]),
        );
        assert(board_lines(reports) =~= first + (title + lines));
    }
}

/// A report has a line for each violation, with its field and message.
pub proof fn law_reports_show_every_violation(report: ReportView, show_fixes: bool, i: int)
    requires
        0 <= i < report.violations.len(),
    ensures
        report_lines(report, show_fixes).contains(violation_line(report.violations[i])),
        show_fixes ==> report_lines(report, show_fixes).contains(
            "  "@ + fix_spec(report.item_id, report.violations[i].field),
        ),
{
    let n = report.violations.len();
    let lines = report_lines(report, show_fixes);
    assert(lines[1 + i] == violation_line(report.violations[i]));
    if show_fixes {
        assert(fixes_spec(report)[i] == fix_spec(report.item_id, report.violations[i].field));
        assert(lines[1 + n + 2 + i] == "  "@ + fixes_spec(report)[i]);
    }
}

/// Every fix is a change of the item that was found wanting.
pub proof fn law_fixes_are_changes_of_the_item(item_id: Seq<char>, field: Seq<char>)
    ensures
        ("nk update "@ + item_id).is_prefix_of(fix_spec(item_id, field)),
        fix_spec(item_id, "body"@) == "nk update "@ + item_id + " --body-file /tmp/body.md"@,
        fix_spec(item_id, "priority"@) == "nk update "@ + item_id + " --priority medium"@,
        fix_spec(item_id, "assignee"@) == "nk update "@ + item_id + " --assign M5"@,
{
    lemma_field_names();
    assert(("nk update "@ + item_id).is_prefix_of(fix_spec(item_id, field)));
}

} // verus!
