//! Whether the bodies and the tags of a board's items agree on which of them are pending
//! ratification.
//!
//! An item is pending where it, or a voyage it belongs to, carries the tag. A body that
//! opens with a pending marker and no tag to go with it makes the item look ready for
//! work that is then refused.
use vstd::prelude::*;
use vstd::string::StringExecFns;
use crate::columns::Table;
use crate::relation_vocab;
use crate::state_machine;
use crate::text;
use crate::validate;
use crate::validate::{ItemRow, RowView, Severity};

verus! {

/// The tag of items and voyages that are pending ratification.
pub const PENDING_TAG: &'static str = "pending-ratification";

/// How a body and the tags disagree.
#[derive(Debug, Clone, Copy, PartialEq, Eq, Structural)]
pub enum RatificationIssue {
    /// The body says pending; neither the item nor a voyage of it has the tag.
    BodyPendingNoTag,
    /// The item has the tag; its body has no marker.
    TagNoBodyMarker,
    /// The item has the tag; a voyage of it is open and not pending.
    TagButParentVoyageRatified,
}

/// A disagreement.
#[derive(Debug, Clone)]
pub struct RatificationFinding {
    pub item_id: String,
    pub item_type: String,
    pub issue: RatificationIssue,
    pub severity: Severity,
    pub message: String,
}

#[verifier::ext_equal]
pub struct FindingView {
    pub item_id: Seq<char>,
    pub item_type: Seq<char>,
    pub issue: RatificationIssue,
    pub severity: Severity,
    pub message: Seq<char>,
}

impl View for RatificationFinding {
    type V = FindingView;

    open spec fn view(&self) -> FindingView {
        FindingView {
            item_id: self.item_id@,
            item_type: self.item_type@,
            issue: self.issue,
            severity: self.severity,
            message: self.message@,
        }
    }
}

pub open spec fn finding_views(list: Seq<RatificationFinding>) -> Seq<FindingView> {
    Seq::new(list.len(), |i: int| list[i]@)
}

// ---- markers in bodies ------------------------------------------------------------------------

/// Whether a character is markup or white space that may stand before a marker.
pub open spec fn is_mark(c: char) -> bool {
    text::is_space(c) || c == '*' || c == '#' || c == '>' || c == '-' || c == '`'
}

/// A text without the markup that it starts with.
pub open spec fn without_marks(s: Seq<char>) -> Seq<char>
    decreases s.len(),
{
    if s.len() > 0 && is_mark(s[0]) {
        without_marks(s.skip(1))
    } else {
        s
    }
}

proof fn lemma_without_marks(s: Seq<char>, i: int)
    requires
        0 <= i <= s.len(),
        forall|k: int| 0 <= k < i ==> is_mark(#[trigger] s[k]),
        i < s.len() ==> !is_mark(s[i]),
    ensures
        without_marks(s) == s.skip(i),
    decreases i,
{
    if i > 0 {
        let rest = s.skip(1);
        assert(is_mark(s[0]));
        assert forall|k: int| 0 <= k < i - 1 implies is_mark(#[trigger] rest[k]) by {
            assert(rest[k] == s[k + 1]);
        }
        lemma_without_marks(rest, i - 1);
        assert(rest.skip(i - 1) =~= s.skip(i));
    } else {
        assert(s.skip(0) =~= s);
    }
}

fn strip_marks(s: &str) -> (r: String)
    ensures
        r@ == without_marks(s@),
{
    let chars: Vec<char> = text::to_chars(s);
    let mut i: usize = 0;
    while i < chars.len() && (text::char_is_space(chars[i]) || chars[i] == '*' || chars[i] == '#'
        || chars[i] == '>' || chars[i] == '-' || chars[i] == '`')
        invariant
            i <= chars.len(),
            chars@ == s@,
            forall|k: int| 0 <= k < i ==> is_mark(#[trigger] s@[k]),
        decreases chars@.len() - i,
    {
        assert(is_mark(s@[i as int]));
        i = i + 1;
    }
    proof {
        lemma_without_marks(s@, i as int);
    }
    let r: String = text::from_chars(&chars, i, chars.len());
    assert(r@ =~= s@.skip(i as int));
    r
}

/// The first of the first `n` lines that is not blank, trimmed.
pub open spec fn first_line_spec(lines: Seq<Seq<char>>, n: nat) -> Option<Seq<char>>
    decreases n,
{
    if n == 0 {
        None
    } else {
        match first_line_spec(lines, (n - 1) as nat) {
            Some(line) => Some(line),
            None => if text::trim_spec(lines[n - 1]).len() > 0 {
                Some(text::trim_spec(lines[n - 1]))
            } else {
                None
            },
        }
    }
}

proof fn lemma_first_line_stays(lines: Seq<Seq<char>>, m: nat, n: nat)
    requires
        m <= n,
        first_line_spec(lines, m) is Some,
    ensures
        first_line_spec(lines, n) == first_line_spec(lines, m),
    decreases n - m,
{
    if m < n {
        lemma_first_line_stays(lines, m, (n - 1) as nat);
    }
}

fn first_line(body: &str) -> (r: Option<String>)
    ensures
        relation_vocab::option_view(r) == first_line_spec(
            text::lines_spec(body@),
            text::lines_spec(body@).len(),
        ),
{
    let lines: Vec<String> = text::lines(body);
    let ghost all = text::views(lines@);
    let mut i: usize = 0;
    while i < lines.len()
        invariant
            i <= lines@.len(),
            all == text::views(lines@),
            all == text::lines_spec(body@),
            first_line_spec(all, i as nat) is None,
        decreases lines@.len() - i,
    {
        assert(all[i as int] == lines@[i as int]@);
        let line: String = text::trim(lines[i].as_str());
        if !line.as_str().is_empty() {
            proof {
                lemma_first_line_stays(all, (i + 1) as nat, all.len());
            }
            return Some(line);
        }
        i = i + 1;
    }
    None
}

/// Whether a line in small letters starts as a marker does.
pub open spec fn starts_pending(head: Seq<char>) -> bool {
    ||| "pending captain ratification"@.is_prefix_of(head)
    ||| "pending ratification"@.is_prefix_of(head)
    ||| "awaiting captain ratification"@.is_prefix_of(head)
    ||| "awaiting ratification"@.is_prefix_of(head)
}

/// Whether a body says pending: whether its first line that is not blank starts, after
/// markup, with a marker. A marker anywhere else is prose.
pub open spec fn says_pending(body: Seq<char>) -> bool {
    match first_line_spec(text::lines_spec(body), text::lines_spec(body).len()) {
        Some(line) => starts_pending(text::lower_spec(without_marks(line))),
        None => false,
    }
}

/// Whether a body says that its item is pending ratification.
pub fn body_says_pending(body: &str) -> (r: bool)
    ensures
        r == says_pending(body@),
{
    match first_line(body) {
        Some(line) => {
            let stripped: String = strip_marks(line.as_str());
            let lowered: String = text::lower(stripped.as_str());
            let head: &str = lowered.as_str();
            text::starts_with(head, "pending captain ratification") || text::starts_with(
                head,
                "pending ratification",
            ) || text::starts_with(head, "awaiting captain ratification") || text::starts_with(
                head,
                "awaiting ratification",
            )
        },
        None => false,
    }
}

// ---- voyages ---------------------------------------------------------------------------------

pub open spec fn all_digits(s: Seq<char>) -> bool {
    forall|i: int| 0 <= i < s.len() ==> '0' <= #[trigger] s[i] <= '9'
}

fn is_number(s: &str) -> (r: bool)
    ensures
        r == all_digits(s@),
{
    let chars: Vec<char> = text::to_chars(s);
    let mut i: usize = 0;
    while i < chars.len()
        invariant
            i <= chars.len(),
            chars@ == s@,
            forall|k: int| 0 <= k < i ==> '0' <= #[trigger] s@[k] <= '9',
        decreases chars@.len() - i,
    {
        let c: char = chars[i];
        if c < '0' || '9' < c {
            assert(!('0' <= s@[i as int] <= '9'));
            return false;
        }
        i = i + 1;
    }
    true
}

/// The id of the voyage that a tag names, if it names one by its number.
pub open spec fn tag_voyage(tag: Seq<char>) -> Option<Seq<char>> {
    if "vy-"@.is_prefix_of(tag) || "VY-"@.is_prefix_of(tag) {
        let number = tag.skip(3);
        if number.len() > 0 && all_digits(number) {
            Some("VY-"@ + number)
        } else {
            None
        }
    } else {
        None
    }
}

/// The id of the voyage that a tag names, if it names one by its number.
pub fn voyage_id_from_tag(tag: &str) -> (r: Option<String>)
    ensures
        relation_vocab::option_view(r) == tag_voyage(tag@),
{
    proof {
        reveal_strlit("vy-");
        reveal_strlit("VY-");
    }
    let number: String = match text::strip_prefix(tag, "vy-") {
        Some(number) => number,
        None => match text::strip_prefix(tag, "VY-") {
            Some(number) => number,
            None => return None,
        },
    };
    if number.as_str().is_empty() || !is_number(number.as_str()) {
        return None;
    }
    let mut id: String = text::owned("VY-");
    id.append(number.as_str());
    Some(id)
}

/// The voyages among the first `n` related items.
pub open spec fn related_voyages(related: Seq<Seq<char>>, n: nat) -> Seq<Seq<char>>
    decreases n,
{
    if n == 0 {
        Seq::empty()
    } else {
        let before = related_voyages(related, (n - 1) as nat);
        if "VY-"@.is_prefix_of(related[n - 1]) {
            before.push(related[n - 1])
        } else {
            before
        }
    }
}

/// The voyages that the first `n` tags name.
pub open spec fn tagged_voyages(tags: Seq<Seq<char>>, n: nat) -> Seq<Seq<char>>
    decreases n,
{
    if n == 0 {
        Seq::empty()
    } else {
        let before = tagged_voyages(tags, (n - 1) as nat);
        match tag_voyage(tags[n - 1]) {
            Some(voyage) => before.push(voyage),
            None => before,
        }
    }
}

/// The voyages of an item: those it is related to, then those its tags name.
pub open spec fn voyages_of(row: RowView) -> Seq<Seq<char>> {
    related_voyages(row.related, row.related.len()) + tagged_voyages(row.tags, row.tags.len())
}

fn parent_voyages(row: &ItemRow) -> (r: Vec<String>)
    ensures
        text::views(r@) == voyages_of(row@),
{
    let ghost related = row@.related;
    let ghost tags = row@.tags;
    let mut r: Vec<String> = Vec::new();
    let mut i: usize = 0;
    assert(text::views(r@) =~= related_voyages(related, 0));
    while i < row.related.len()
        invariant
            i <= row.related@.len(),
            related == row@.related,
            text::views(r@) == related_voyages(related, i as nat),
        decreases row.related@.len() - i,
    {
        assert(related[i as int] == row.related@[i as int]@);
        if text::starts_with(row.related[i].as_str(), "VY-") {
            let ghost before = text::views(r@);
            r.push(row.related[i].clone());
            assert(text::views(r@) =~= before.push(related[i as int]));
        }
        i = i + 1;
    }
    let ghost first = text::views(r@);
    let mut j: usize = 0;
    assert(text::views(r@) =~= first + tagged_voyages(tags, 0));
    while j < row.tags.len()
        invariant
            j <= row.tags@.len(),
            tags == row@.tags,
            text::views(r@) == first + tagged_voyages(tags, j as nat),
        decreases row.tags@.len() - j,
    {
        assert(tags[j as int] == row.tags@[j as int]@);
        if let Some(voyage) = voyage_id_from_tag(row.tags[j].as_str()) {
            let ghost before = text::views(r@);
            let ghost shown = voyage@;
            r.push(voyage);
            assert(text::views(r@) =~= before.push(shown));
            assert(text::views(r@) =~= first + tagged_voyages(tags, (j + 1) as nat));
        }
        j = j + 1;
    }
    r
}

// ---- the board ---------------------------------------------------------------------------------

/// The last of the first `n` rows with an id.
pub open spec fn row_with_id(rows: Seq<RowView>, id: Seq<char>, n: nat) -> Option<RowView>
    decreases n,
{
    if n == 0 {
        None
    } else if rows[n - 1].id == Some(id) {
        Some(rows[n - 1])
    } else {
        row_with_id(rows, id, (n - 1) as nat)
    }
}

/// Whether an item of the board carries the tag.
pub open spec fn is_pending(rows: Seq<RowView>, id: Seq<char>) -> bool {
    match row_with_id(rows, id, rows.len()) {
        Some(row) => row.tags.contains(PENDING_TAG@),
        None => false,
    }
}

/// Whether an item is on the board, open, and does not carry the tag.
pub open spec fn is_ratified(rows: Seq<RowView>, id: Seq<char>) -> bool {
    match row_with_id(rows, id, rows.len()) {
        Some(row) => !row.tags.contains(PENDING_TAG@) && !state_machine::is_terminal(
            validate::or_empty(row.status),
        ),
        None => false,
    }
}

fn find_row(rows: &Vec<ItemRow>, id: &str) -> (r: Option<usize>)
    ensures
        r is Some == row_with_id(validate::row_views(rows@), id@, rows@.len()) is Some,
        r is Some ==> r->0 < rows@.len() && rows@[r->0 as int]@ == row_with_id(
            validate::row_views(rows@),
            id@,
            rows@.len(),
        )->0,
{
    let ghost views = validate::row_views(rows@);
    let mut i: usize = rows.len();
    while i > 0
        invariant
            i <= rows@.len(),
            views == validate::row_views(rows@),
            row_with_id(views, id@, views.len()) == row_with_id(views, id@, i as nat),
        decreases i,
    {
        assert(views[i - 1] == rows@[i - 1]@);
        if let Some(own) = &rows[i - 1].id {
            if text::same(own.as_str(), id) {
                return Some(i - 1);
            }
        }
        i = i - 1;
    }
    None
}

fn has_pending_tag(rows: &Vec<ItemRow>, id: &str) -> (r: bool)
    ensures
        r == is_pending(validate::row_views(rows@), id@),
{
    match find_row(rows, id) {
        Some(i) => text::contains_string(&rows[i].tags, PENDING_TAG),
        None => false,
    }
}

fn open_and_untagged(rows: &Vec<ItemRow>, id: &str) -> (r: bool)
    ensures
        r == is_ratified(validate::row_views(rows@), id@),
{
    match find_row(rows, id) {
        Some(i) => {
            let status: String = match &rows[i].status {
                Some(status) => status.clone(),
                None => String::new(),
            };
            !text::contains_string(&rows[i].tags, PENDING_TAG)
                && !state_machine::is_terminal_state(status.as_str())
        },
        None => false,
    }
}

/// Whether one of the voyages is pending.
pub open spec fn some_pending(rows: Seq<RowView>, voyages: Seq<Seq<char>>) -> bool {
    exists|i: int| 0 <= i < voyages.len() && is_pending(rows, #[trigger] voyages[i])
}

fn any_pending(rows: &Vec<ItemRow>, voyages: &Vec<String>) -> (r: bool)
    ensures
        r == some_pending(validate::row_views(rows@), text::views(voyages@)),
{
    let ghost views = validate::row_views(rows@);
    let ghost all = text::views(voyages@);
    let mut i: usize = 0;
    while i < voyages.len()
        invariant
            i <= voyages@.len(),
            views == validate::row_views(rows@),
            all == text::views(voyages@),
            forall|k: int| 0 <= k < i ==> !is_pending(views, #[trigger] all[k]),
        decreases voyages@.len() - i,
    {
        assert(all[i as int] == voyages@[i as int]@);
        if has_pending_tag(rows, voyages[i].as_str()) {
            return true;
        }
        i = i + 1;
    }
    false
}

/// The first of the first `n` voyages that is open and not pending.
pub open spec fn first_ratified(rows: Seq<RowView>, voyages: Seq<Seq<char>>, n: nat) -> Option<
    Seq<char>,
>
    decreases n,
{
    if n == 0 {
        None
    } else {
        match first_ratified(rows, voyages, (n - 1) as nat) {
            Some(voyage) => Some(voyage),
            None => if is_ratified(rows, voyages[n - 1]) {
                Some(voyages[n - 1])
            } else {
                None
            },
        }
    }
}

proof fn lemma_ratified_stays(rows: Seq<RowView>, voyages: Seq<Seq<char>>, m: nat, n: nat)
    requires
        m <= n,
        first_ratified(rows, voyages, m) is Some,
    ensures
        first_ratified(rows, voyages, n) == first_ratified(rows, voyages, m),
    decreases n - m,
{
    if m < n {
        lemma_ratified_stays(rows, voyages, m, (n - 1) as nat);
    }
}

fn find_ratified(rows: &Vec<ItemRow>, voyages: &Vec<String>) -> (r: Option<String>)
    ensures
        relation_vocab::option_view(r) == first_ratified(
            validate::row_views(rows@),
            text::views(voyages@),
            voyages@.len(),
        ),
{
    let ghost views = validate::row_views(rows@);
    let ghost all = text::views(voyages@);
    let mut i: usize = 0;
    while i < voyages.len()
        invariant
            i <= voyages@.len(),
            views == validate::row_views(rows@),
            all == text::views(voyages@),
            first_ratified(views, all, i as nat) is None,
        decreases voyages@.len() - i,
    {
        assert(all[i as int] == voyages@[i as int]@);
        if open_and_untagged(rows, voyages[i].as_str()) {
            proof {
                lemma_ratified_stays(views, all, (i + 1) as nat, all.len());
            }
            return Some(voyages[i].clone());
        }
        i = i + 1;
    }
    None
}

// ---- findings -----------------------------------------------------------------------------------

/// The disagreement of an item, if it has one. Closed items have none.
pub open spec fn issue_spec(rows: Seq<RowView>, row: RowView) -> Option<RatificationIssue> {
    let tagged = row.tags.contains(PENDING_TAG@);
    let says = says_pending(validate::or_empty(row.body));
    let voyages = voyages_of(row);
    if row.id is None || state_machine::is_terminal(validate::or_empty(row.status)) {
        None
    } else if says && !tagged && !some_pending(rows, voyages) {
        Some(RatificationIssue::BodyPendingNoTag)
    } else if tagged && !says {
        Some(RatificationIssue::TagNoBodyMarker)
    } else if tagged && !some_pending(rows, voyages) && first_ratified(
        rows,
        voyages,
        voyages.len(),
    ) is Some {
        Some(RatificationIssue::TagButParentVoyageRatified)
    } else {
        None
    }
}

/// A disagreement in words.
pub open spec fn issue_message(
    issue: RatificationIssue,
    item_id: Seq<char>,
    voyage: Seq<char>,
) -> Seq<char> {
    match issue {
        RatificationIssue::BodyPendingNoTag => "body says pending-ratification but neither "@
            + item_id
            + " nor its parent voyage carries the `pending-ratification` tag — Phase-4b will treat it as claimable then /workit bounces on the body line (the VY-6451 pollution class). Fix: ADD the tag if genuinely pending, or DROP the body line if ratified."@,
        RatificationIssue::TagNoBodyMarker => item_id
            + " is tagged `pending-ratification` but its body has no ratification marker — a possibly-stale tag (never stripped at sprint-start), or a body that lost its marker. Verify: strip the tag if ratified, or restore the body line."@,
        RatificationIssue::TagButParentVoyageRatified => item_id
            + " is still tagged `pending-ratification` but its parent voyage "@ + voyage
            + " is not pending — the tag was likely not stripped at the voyage's sprint-start (`nk ratify` normally does this). Strip it if ratified."@,
    }
}

pub open spec fn issue_severity(issue: RatificationIssue) -> Severity {
    match issue {
        RatificationIssue::BodyPendingNoTag => Severity::Error,
        _ => Severity::Warning,
    }
}

/// The finding on an item, if there is one.
pub open spec fn finding_spec(rows: Seq<RowView>, row: RowView) -> Option<FindingView> {
    let voyages = voyages_of(row);
    match issue_spec(rows, row) {
        None => None,
        Some(issue) => Some(
            FindingView {
                item_id: row.id->0,
                item_type: validate::or_empty(row.item_type),
                issue,
                severity: issue_severity(issue),
                message: issue_message(
                    issue,
                    row.id->0,
                    validate::or_empty(first_ratified(rows, voyages, voyages.len())),
                ),
            },
        ),
    }
}

/// The findings on the first `n` items.
pub open spec fn findings_spec(rows: Seq<RowView>, n: nat) -> Seq<FindingView>
    decreases n,
{
    if n == 0 {
        Seq::empty()
    } else {
        let before = findings_spec(rows, (n - 1) as nat);
        match finding_spec(rows, rows[n - 1]) {
            Some(finding) => before.push(finding),
            None => before,
        }
    }
}

fn describe(issue: RatificationIssue, item_id: &str, voyage: &str) -> (r: String)
    ensures
        r@ == issue_message(issue, item_id@, voyage@),
{
    match issue {
        RatificationIssue::BodyPendingNoTag => {
            let mut r: String = text::owned("body says pending-ratification but neither ");
            r.append(item_id);
            r.append(
                " nor its parent voyage carries the `pending-ratification` tag — Phase-4b will treat it as claimable then /workit bounces on the body line (the VY-6451 pollution class). Fix: ADD the tag if genuinely pending, or DROP the body line if ratified.",
            );
            r
        },
        RatificationIssue::TagNoBodyMarker => {
            let mut r: String = text::owned(item_id);
            r.append(
                " is tagged `pending-ratification` but its body has no ratification marker — a possibly-stale tag (never stripped at sprint-start), or a body that lost its marker. Verify: strip the tag if ratified, or restore the body line.",
            );
            r
        },
        RatificationIssue::TagButParentVoyageRatified => {
            let mut r: String = text::owned(item_id);
            r.append(" is still tagged `pending-ratification` but its parent voyage ");
            r.append(voyage);
            r.append(
                " is not pending — the tag was likely not stripped at the voyage's sprint-start (`nk ratify` normally does this). Strip it if ratified.",
            );
            r
        },
    }
}

fn find_issue(rows: &Vec<ItemRow>, row: &ItemRow) -> (r: Option<RatificationFinding>)
    ensures
        r is Some == finding_spec(validate::row_views(rows@), row@) is Some,
        r is Some ==> r->0@ == finding_spec(validate::row_views(rows@), row@)->0,
{
    let item_id: String = match &row.id {
        Some(id) => id.clone(),
        None => return None,
    };
    let status: String = match &row.status {
        Some(status) => status.clone(),
        None => String::new(),
    };
    if state_machine::is_terminal_state(status.as_str()) {
        return None;
    }
    let body: String = match &row.body {
        Some(body) => body.clone(),
        None => String::new(),
    };
    let tagged: bool = text::contains_string(&row.tags, PENDING_TAG);
    let says: bool = body_says_pending(body.as_str());
    let voyages: Vec<String> = parent_voyages(row);
    let inherits: bool = any_pending(rows, &voyages);
    let ratified: Option<String> = find_ratified(rows, &voyages);
    let issue: RatificationIssue = if says && !tagged && !inherits {
        RatificationIssue::BodyPendingNoTag
    } else if tagged && !says {
        RatificationIssue::TagNoBodyMarker
    } else if tagged && !inherits && ratified.is_some() {
        RatificationIssue::TagButParentVoyageRatified
    } else {
        return None;
    };
    let severity: Severity = match issue {
        RatificationIssue::BodyPendingNoTag => Severity::Error,
        _ => Severity::Warning,
    };
    let voyage: String = match ratified {
        Some(voyage) => voyage,
        None => String::new(),
    };
    let message: String = describe(issue, item_id.as_str(), voyage.as_str());
    let item_type: String = match &row.item_type {
        Some(t) => t.clone(),
        None => String::new(),
    };
    Some(RatificationFinding { item_id, item_type, issue, severity, message })
}

/// The disagreements on a board.
pub fn check_rows(rows: &Vec<ItemRow>) -> (r: Vec<RatificationFinding>)
    ensures
        finding_views(r@) == findings_spec(validate::row_views(rows@), rows@.len()),
{
    let ghost views = validate::row_views(rows@);
    let mut r: Vec<RatificationFinding> = Vec::new();
    let mut i: usize = 0;
    assert(finding_views(r@) =~= findings_spec(views, 0));
    while i < rows.len()
        invariant
            i <= rows@.len(),
            views == validate::row_views(rows@),
            finding_views(r@) == findings_spec(views, i as nat),
        decreases rows@.len() - i,
    {
        assert(views[i as int] == rows@[i as int]@);
        if let Some(finding) = find_issue(rows, &rows[i]) {
            let ghost before = finding_views(r@);
            let ghost shown = finding@;
            r.push(finding);
            assert(finding_views(r@) =~= before.push(shown));
        }
        i = i + 1;
    }
    r
}

pub open spec fn rows_of(tables: Seq<Table>) -> Seq<RowView> {
    Seq::new(tables.len(), |i: int| validate::row_of(tables[i]))
}

/// The disagreements on a board whose items stand in one table each.
pub fn check_ratification_consistency(tables: &[Table]) -> (r: Vec<RatificationFinding>)
    requires
        forall|i: int| 0 <= i < tables@.len() ==> validate::is_row_table(#[trigger] tables@[i]),
    ensures
        finding_views(r@) == findings_spec(rows_of(tables@), tables@.len()),
{
    let mut rows: Vec<ItemRow> = Vec::new();
    let mut i: usize = 0;
    while i < tables.len()
        invariant
            i <= tables@.len(),
            forall|i: int| 0 <= i < tables@.len() ==> validate::is_row_table(#[trigger] tables@[i]),
            rows@.len() == i,
            forall|k: int|
                0 <= k < i ==> (#[trigger] rows@[k])@ == validate::row_of(tables@[k]),
        decreases tables@.len() - i,
    {
        assert(validate::is_row_table(tables@[i as int]));
        rows.push(validate::read_row(&tables[i]));
        i = i + 1;
    }
    assert(validate::row_views(rows@) =~= rows_of(tables@));
    check_rows(&rows)
}

// ---- findings in words -----------------------------------------------------------------------------

/// How many of the first `n` findings are errors.
pub open spec fn errors_spec(list: Seq<FindingView>, n: nat) -> nat
    decreases n,
{
    if n == 0 {
        0
    } else {
        errors_spec(list, (n - 1) as nat) + if list[n - 1].severity == Severity::Error {
            1nat
        } else {
            0
        }
    }
}

pub open spec fn finding_line(f: FindingView) -> Seq<char> {
    validate::label_spec(f.severity) + " "@ + f.item_id + " — "@ + f.message
}

/// Findings in words: a header with their number, and a line for each.
pub open spec fn findings_text(list: Seq<FindingView>) -> Seq<char> {
    let errors = errors_spec(list, list.len());
    if list.len() == 0 {
        Seq::empty()
    } else {
        text::join_spec(
            seq![
                "Ratification body⇔tag consistency (CH-6502): "@ + text::decimal_spec(errors)
                    + " error(s), "@ + text::decimal_spec((list.len() - errors) as nat)
                    + " warning(s)"@,
            ] + Seq::new(list.len(), |i: int| finding_line(list[i])),
            "\n"@,
        )
    }
}

fn count_errors(list: &[RatificationFinding]) -> (r: usize)
    ensures
        r == errors_spec(finding_views(list@), list@.len()),
        r <= list@.len(),
{
    let ghost views = finding_views(list@);
    let mut r: usize = 0;
    let mut i: usize = 0;
    while i < list.len()
        invariant
            i <= list@.len(),
            views == finding_views(list@),
            r <= i,
            r == errors_spec(views, i as nat),
        decreases list@.len() - i,
    {
        assert(views[i as int] == list@[i as int]@);
        if list[i].severity == Severity::Error {
            r = r + 1;
        }
        i = i + 1;
    }
    r
}

/// Findings in words; nothing where there are none.
pub fn format_ratification_findings(findings: &[RatificationFinding]) -> (r: String)
    ensures
        r@ == findings_text(finding_views(findings@)),
{
    if findings.len() == 0 {
        return String::new();
    }
    let ghost views = finding_views(findings@);
    let errors: usize = count_errors(findings);
    let mut first: String = text::owned("Ratification body⇔tag consistency (CH-6502): ");
    let e: String = text::decimal(errors);
    first.append(e.as_str());
    first.append(" error(s), ");
    let w: String = text::decimal(findings.len() - errors);
    first.append(w.as_str());
    first.append(" warning(s)");
    let ghost head = first@;
    let mut lines: Vec<String> = Vec::new();
    lines.push(first);
    let mut i: usize = 0;
    assert(text::views(lines@) =~= seq![head] + Seq::new(0, |i: int| finding_line(views[i])));
    while i < findings.len()
        invariant
            i <= findings@.len(),
            views == finding_views(findings@),
            text::views(lines@) == seq![head] + Seq::new(
                i as nat,
                |i: int| finding_line(views[i]),
            ),
        decreases findings@.len() - i,
    {
        let f: &RatificationFinding = &findings[i];
        assert(views[i as int] == f@);
        let mut line: String = text::owned(validate::label(f.severity));
        line.append(" ");
        line.append(f.item_id.as_str());
        line.append(" — ");
        line.append(f.message.as_str());
        let ghost before = text::views(lines@);
        let ghost shown = line@;
        lines.push(line);
        assert(text::views(lines@) =~= before.push(shown));
        assert(text::views(lines@) =~= seq![head] + Seq::new(
            (i + 1) as nat,
            |i: int| finding_line(views[i]),
        ));
        i = i + 1;
    }
    text::join(&lines, "\n")
}

// ---- what holds of findings ------------------------------------------------------------------------

/// A closed item is never found at fault.
pub proof fn law_closed_items_are_consistent(rows: Seq<RowView>, row: RowView)
    requires
        state_machine::is_terminal(validate::or_empty(row.status)),
    ensures
        finding_spec(rows, row) is None,
{
}

/// An open item is an error exactly where its body says pending and neither it nor a
/// voyage of it carries the tag.
pub proof fn law_errors_are_untagged_pending_bodies(rows: Seq<RowView>, row: RowView)
    requires
        row.id is Some,
        !state_machine::is_terminal(validate::or_empty(row.status)),
    ensures
        (finding_spec(rows, row) is Some && finding_spec(rows, row)->0.severity
            == Severity::Error) <==> (says_pending(validate::or_empty(row.body))
            && !row.tags.contains(PENDING_TAG@) && !some_pending(rows, voyages_of(row))),
{
}

/// An item that neither carries the tag nor says pending is not found at fault.
pub proof fn law_plain_items_are_consistent(rows: Seq<RowView>, row: RowView)
    requires
        !row.tags.contains(PENDING_TAG@),
        !says_pending(validate::or_empty(row.body)),
    ensures
        finding_spec(rows, row) is None,
{
}

/// An item that says pending and carries the tag, with a pending voyage or none, is not
/// found at fault.
pub proof fn law_marked_and_tagged_is_consistent(rows: Seq<RowView>, row: RowView)
    requires
        row.tags.contains(PENDING_TAG@),
        says_pending(validate::or_empty(row.body)),
        voyages_of(row).len() == 0 || some_pending(rows, voyages_of(row)),
    ensures
        finding_spec(rows, row) is None,
{
}

/// Each finding is on an item of the board.
pub proof fn law_findings_are_on_items(rows: Seq<RowView>, n: nat, i: int)
    requires
        n <= rows.len(),
        0 <= i < findings_spec(rows, n).len(),
    ensures
        exists|k: int|
            0 <= k < n && finding_spec(rows, #[trigger] rows[k]) == Some(findings_spec(rows, n)[i]),
    decreases n,
{
    if n > 0 {
        let before = findings_spec(rows, (n - 1) as nat);
        if i < before.len() {
            law_findings_are_on_items(rows, (n - 1) as nat, i);
            let k = choose|k: int|
                0 <= k < n - 1 && finding_spec(rows, #[trigger] rows[k]) == Some(before[i]);
            assert(finding_spec(rows, rows[k]) == Some(findings_spec(rows, n)[i]));
        } else {
            assert(finding_spec(rows, rows[n - 1]) == Some(findings_spec(rows, n)[i]));
        }
    }
}

// ---- findings, by the rows themselves ------------------------------------------------------------------------

/// Whether the row at a place is the last with its id, so that it counts for the id.
pub open spec fn counts_as(rows: Seq<RowView>, i: int, id: Seq<char>) -> bool {
    0 <= i < rows.len() && rows[i].id == Some(id) && forall|j: int|
        i < j < rows.len() ==> (#[trigger] rows[j]).id != Some(id)
}

/// Whether a row has the tag that says that it is pending.
pub open spec fn is_tagged(row: RowView) -> bool {
    row.tags.contains("pending-ratification"@)
}

/// Whether an item is closed: its status is `done`, `complete`, `abandoned` or `retired`.
pub open spec fn is_over(row: RowView) -> bool {
    row.status == Some("done"@) || row.status == Some("complete"@) || row.status == Some(
        "abandoned"@,
    ) || row.status == Some("retired"@)
}

/// Whether a voyage is one of a row: the row lists it among its relations, with an id that
/// starts with `VY-`, or has its number in a tag, as `vy-` or `VY-` and digits.
pub open spec fn is_voyage_of(row: RowView, id: Seq<char>) -> bool {
    (row.related.contains(id) && "VY-"@.is_prefix_of(id)) || exists|number: Seq<char>|
        number.len() > 0 && (forall|k: int| 0 <= k < number.len() ==> '0' <= #[trigger] number[k]
            <= '9') && id == #[trigger] ("VY-"@ + number) && (row.tags.contains("vy-"@ + number)
            || row.tags.contains("VY-"@ + number))
}

proof fn lemma_row_with(rows: Seq<RowView>, id: Seq<char>, n: nat)
    requires
        n <= rows.len(),
    ensures
        row_with_id(rows, id, n) is Some ==> exists|i: int|
            0 <= i < n && (#[trigger] rows[i]).id == Some(id) && row_with_id(rows, id, n) == Some(
                rows[i],
            ) && forall|j: int| i < j < n ==> (#[trigger] rows[j]).id != Some(id),
        row_with_id(rows, id, n) is None ==> forall|j: int|
            0 <= j < n ==> (#[trigger] rows[j]).id != Some(id),
    decreases n,
{
    if n > 0 && rows[n - 1].id != Some(id) {
        lemma_row_with(rows, id, (n - 1) as nat);
        if row_with_id(rows, id, n) is Some {
            let i = choose|i: int|
                0 <= i < n - 1 && (#[trigger] rows[i]).id == Some(id) && row_with_id(
                    rows,
                    id,
                    (n - 1) as nat,
                ) == Some(rows[i]) && forall|j: int|
                    i < j < n - 1 ==> (#[trigger] rows[j]).id != Some(id);
            assert(0 <= i < n && rows[i].id == Some(id));
        }
    } else if n > 0 {
        assert(rows[n - 1].id == Some(id));
    }
}

proof fn lemma_counting(rows: Seq<RowView>, id: Seq<char>)
    ensures
        row_with_id(rows, id, rows.len()) is Some ==> exists|i: int| #[trigger]
            counts_as(rows, i, id) && row_with_id(rows, id, rows.len()) == Some(rows[i]),
        forall|i: int| #[trigger]
            counts_as(rows, i, id) ==> row_with_id(rows, id, rows.len()) == Some(rows[i]),
{
    lemma_row_with(rows, id, rows.len());
    if row_with_id(rows, id, rows.len()) is Some {
        let i = choose|i: int|
            0 <= i < rows.len() && (#[trigger] rows[i]).id == Some(id) && row_with_id(
                rows,
                id,
                rows.len(),
            ) == Some(rows[i]) && forall|j: int|
                i < j < rows.len() ==> (#[trigger] rows[j]).id != Some(id);
        assert(counts_as(rows, i, id));
        assert forall|k: int| #[trigger] counts_as(rows, k, id) implies k == i by {
            if k < i {
                assert(rows[i].id != Some(id));
            } else if i < k {
                assert(rows[k].id != Some(id));
            }
        }
    }
}

proof fn lemma_closed_words(row: RowView)
    ensures
        state_machine::is_terminal(validate::or_empty(row.status)) == is_over(row),
{
    reveal_strlit("done");
    reveal_strlit("complete");
    reveal_strlit("abandoned");
    reveal_strlit("retired");
    assert(Seq::<char>::empty().len() == 0);
}

proof fn lemma_related_voyages(related: Seq<Seq<char>>, n: nat, id: Seq<char>)
    requires
        n <= related.len(),
    ensures
        related_voyages(related, n).contains(id) == (related.take(n as int).contains(id)
            && "VY-"@.is_prefix_of(id)),
    decreases n,
{
    if n > 0 {
        let m = (n - 1) as nat;
        lemma_related_voyages(related, m, id);
        assert(related.take(n as int) =~= related.take(m as int).push(related[n - 1]));
        vstd::seq_lib::lemma_seq_contains_after_push(related.take(m as int), related[n - 1], id);
        vstd::seq_lib::lemma_seq_contains_after_push(
            related_voyages(related, m),
            related[n - 1],
            id,
        );
    } else {
        assert(related.take(0).len() == 0);
    }
}

proof fn lemma_tagged_voyages(tags: Seq<Seq<char>>, n: nat, id: Seq<char>)
    requires
        n <= tags.len(),
    ensures
        tagged_voyages(tags, n).contains(id) == exists|k: int|
            0 <= k < n && tag_voyage(#[trigger] tags[k]) == Some(id),
    decreases n,
{
    if n > 0 {
        let m = (n - 1) as nat;
        lemma_tagged_voyages(tags, m, id);
        if tag_voyage(tags[n - 1]) is Some {
            vstd::seq_lib::lemma_seq_contains_after_push(
                tagged_voyages(tags, m),
                tag_voyage(tags[n - 1])->0,
                id,
            );
        }
        if exists|k: int| 0 <= k < m && tag_voyage(#[trigger] tags[k]) == Some(id) {
            let k = choose|k: int| 0 <= k < m && tag_voyage(#[trigger] tags[k]) == Some(id);
            assert(0 <= k < n && tag_voyage(tags[k]) == Some(id));
        }
        assert(tag_voyage(tags[n - 1]) == Some(id) ==> 0 <= n - 1 < n);
    }
}

proof fn lemma_tag_voyage(prefix: Seq<char>, number: Seq<char>)
    requires
        prefix == "vy-"@ || prefix == "VY-"@,
        number.len() > 0,
        all_digits(number),
    ensures
        tag_voyage(prefix + number) == Some("VY-"@ + number),
{
    reveal_strlit("vy-");
    reveal_strlit("VY-");
    let tag = prefix + number;
    assert(prefix.is_prefix_of(tag));
    assert(tag.skip(3) =~= number);
}

/// The voyages of a row are those that it is related to and those in its tags.
pub proof fn law_voyages_of_an_item(row: RowView, id: Seq<char>)
    ensures
        voyages_of(row).contains(id) == is_voyage_of(row, id),
{
    reveal_strlit("vy-");
    reveal_strlit("VY-");
    let a = related_voyages(row.related, row.related.len());
    let b = tagged_voyages(row.tags, row.tags.len());
    vstd::seq_lib::lemma_seq_concat_contains_all_elements(a, b, id);
    lemma_related_voyages(row.related, row.related.len(), id);
    lemma_tagged_voyages(row.tags, row.tags.len(), id);
    assert(row.related.take(row.related.len() as int) =~= row.related);
    if exists|k: int| 0 <= k < row.tags.len() && tag_voyage(#[trigger] row.tags[k]) == Some(id) {
        let k = choose|k: int|
            0 <= k < row.tags.len() && tag_voyage(#[trigger] row.tags[k]) == Some(id);
        let tag = row.tags[k];
        let number = tag.skip(3);
        assert("vy-"@.is_prefix_of(tag) ==> tag =~= "vy-"@ + number);
        assert("VY-"@.is_prefix_of(tag) ==> tag =~= "VY-"@ + number);
        assert(row.tags.contains(tag));
        assert(id == "VY-"@ + number);
    }
    if exists|number: Seq<char>|
        number.len() > 0 && (forall|k: int| 0 <= k < number.len() ==> '0' <= #[trigger] number[k]
            <= '9') && id == #[trigger] ("VY-"@ + number) && (row.tags.contains("vy-"@ + number)
            || row.tags.contains("VY-"@ + number)) {
        let number = choose|number: Seq<char>|
            number.len() > 0 && (forall|k: int|
                0 <= k < number.len() ==> '0' <= #[trigger] number[k] <= '9') && id == #[trigger] (
            "VY-"@ + number) && (row.tags.contains("vy-"@ + number) || row.tags.contains(
                "VY-"@ + number,
            ));
        lemma_tag_voyage("vy-"@, number);
        lemma_tag_voyage("VY-"@, number);
        let tag = if row.tags.contains("vy-"@ + number) {
            "vy-"@ + number
        } else {
            "VY-"@ + number
        };
        let k = choose|k: int| 0 <= k < row.tags.len() && row.tags[k] == tag;
        assert(tag_voyage(row.tags[k]) == Some(id));
    }
}

/// Whether some voyage of a row is on the board and has the tag.
pub open spec fn has_pending_voyage(rows: Seq<RowView>, row: RowView) -> bool {
    exists|i: int, id: Seq<char>| #[trigger]
        counts_as(rows, i, id) && is_voyage_of(row, id) && is_tagged(rows[i])
}

/// Whether some voyage of a row is on the board, open, and without the tag.
pub open spec fn has_ratified_voyage(rows: Seq<RowView>, row: RowView) -> bool {
    exists|i: int, id: Seq<char>| #[trigger]
        counts_as(rows, i, id) && is_voyage_of(row, id) && !is_tagged(rows[i]) && !is_over(rows[i])
}

proof fn lemma_first_ratified(rows: Seq<RowView>, voyages: Seq<Seq<char>>, n: nat)
    requires
        n <= voyages.len(),
    ensures
        first_ratified(rows, voyages, n) is Some <==> exists|k: int|
            0 <= k < n && is_ratified(rows, #[trigger] voyages[k]),
        first_ratified(rows, voyages, n) matches Some(v) ==> voyages.contains(v) && is_ratified(
            rows,
            v,
        ),
    decreases n,
{
    if n > 0 {
        lemma_first_ratified(rows, voyages, (n - 1) as nat);
        if is_ratified(rows, voyages[n - 1]) {
            assert(voyages.contains(voyages[n - 1]));
        }
    }
}

proof fn lemma_pending_voyage(rows: Seq<RowView>, row: RowView)
    ensures
        some_pending(rows, voyages_of(row)) == has_pending_voyage(rows, row),
{
    let voyages = voyages_of(row);
    if some_pending(rows, voyages) {
        let k = choose|k: int| 0 <= k < voyages.len() && is_pending(rows, #[trigger] voyages[k]);
        let id = voyages[k];
        assert(voyages.contains(id));
        law_voyages_of_an_item(row, id);
        lemma_counting(rows, id);
        let i = choose|i: int| #[trigger]
            counts_as(rows, i, id) && row_with_id(rows, id, rows.len()) == Some(rows[i]);
        assert(counts_as(rows, i, id));
    }
    if has_pending_voyage(rows, row) {
        let (i, id) = choose|i: int, id: Seq<char>| #[trigger]
            counts_as(rows, i, id) && is_voyage_of(row, id) && is_tagged(rows[i]);
        law_voyages_of_an_item(row, id);
        lemma_counting(rows, id);
        let k = choose|k: int| 0 <= k < voyages.len() && voyages[k] == id;
        assert(is_pending(rows, voyages[k]));
    }
}

proof fn lemma_ratified_voyage(rows: Seq<RowView>, row: RowView)
    ensures
        (first_ratified(rows, voyages_of(row), voyages_of(row).len()) is Some)
            == has_ratified_voyage(rows, row),
{
    let voyages = voyages_of(row);
    lemma_first_ratified(rows, voyages, voyages.len());
    if exists|k: int| 0 <= k < voyages.len() && is_ratified(rows, #[trigger] voyages[k]) {
        let k = choose|k: int| 0 <= k < voyages.len() && is_ratified(rows, #[trigger] voyages[k]);
        let id = voyages[k];
        assert(voyages.contains(id));
        law_voyages_of_an_item(row, id);
        lemma_counting(rows, id);
        let i = choose|i: int| #[trigger]
            counts_as(rows, i, id) && row_with_id(rows, id, rows.len()) == Some(rows[i]);
        lemma_closed_words(rows[i]);
        assert(counts_as(rows, i, id));
    }
    if has_ratified_voyage(rows, row) {
        let (i, id) = choose|i: int, id: Seq<char>| #[trigger]
            counts_as(rows, i, id) && is_voyage_of(row, id) && !is_tagged(rows[i]) && !is_over(
                rows[i],
            );
        law_voyages_of_an_item(row, id);
        lemma_counting(rows, id);
        lemma_closed_words(rows[i]);
        let k = choose|k: int| 0 <= k < voyages.len() && voyages[k] == id;
        assert(is_ratified(rows, voyages[k]));
    }
}

/// What is found on a row: nothing where it has no id or is closed; else that its body
/// says that it is pending while neither it nor a voyage of it has the tag, which is an
/// error; or that it has the tag while its body says nothing; or that it has the tag while
/// none of its voyages has it and one of them is open; both are warnings.
pub proof fn law_findings_by_the_rows(rows: Seq<RowView>, row: RowView)
    ensures
        ({
            let found = finding_spec(rows, row);
            let says = says_pending(validate::or_empty(row.body));
            let asked = row.id is Some && !is_over(row);
            let pending = has_pending_voyage(rows, row);
            &&& found matches Some(f) ==> row.id == Some(f.item_id)
            &&& (found matches Some(f) && f.issue == RatificationIssue::BodyPendingNoTag && f.severity
                == Severity::Error) == (asked && says && !is_tagged(row) && !pending)
            &&& (found matches Some(f) && f.issue == RatificationIssue::TagNoBodyMarker && f.severity
                == Severity::Warning) == (asked && is_tagged(row) && !says)
            &&& (found matches Some(f) && f.issue == RatificationIssue::TagButParentVoyageRatified
                && f.severity == Severity::Warning) == (asked && is_tagged(row) && says && !pending
                && has_ratified_voyage(rows, row))
            &&& found is Some ==> found->0.severity == if is_tagged(row) {
                Severity::Warning
            } else {
                Severity::Error
            }
        }),
{
    lemma_closed_words(row);
    lemma_pending_voyage(rows, row);
    lemma_ratified_voyage(rows, row);
}

/// Every row on which something is found is in the list, with what is found on it.
pub proof fn law_no_finding_is_missed(rows: Seq<RowView>, n: nat, i: int)
    requires
        0 <= i < n <= rows.len(),
    ensures
        finding_spec(rows, rows[i]) matches Some(f) ==> findings_spec(rows, n).contains(f),
    decreases n,
{
    let before = findings_spec(rows, (n - 1) as nat);
    if i < n - 1 {
        law_no_finding_is_missed(rows, (n - 1) as nat, i);
    }
    if finding_spec(rows, rows[i]) is Some && finding_spec(rows, rows[n - 1]) is Some {
        vstd::seq_lib::lemma_seq_contains_after_push(
            before,
            finding_spec(rows, rows[n - 1])->0,
            finding_spec(rows, rows[i])->0,
        );
    }
}

/// There are four markers of a pending body.
pub proof fn law_markers_are_four(line: Seq<char>)
    ensures
        starts_pending(line) <==> exists|marker: Seq<char>|
            (marker == "pending captain ratification"@ || marker == "pending ratification"@
                || marker == "awaiting captain ratification"@ || marker
                == "awaiting ratification"@) && #[trigger] marker.is_prefix_of(line),
{
}

proof fn lemma_errors_counted(list: Seq<FindingView>, n: nat)
    requires
        n <= list.len(),
    ensures
        errors_spec(list, n) == list.take(n as int).filter(
            |f: FindingView| f.severity == Severity::Error,
        ).len(),
        errors_spec(list, n) <= n,
    decreases n,
{
    reveal(Seq::filter);
    if n > 0 {
        let m = (n - 1) as nat;
        lemma_errors_counted(list, m);
        assert(list.take(n as int).drop_last() =~= list.take(m as int));
        assert(list.take(n as int).last() == list[n - 1]);
    }
}

/// The findings are shown with the number of errors and of warnings, and a line for each;
/// of none nothing is shown.
pub proof fn law_findings_are_all_shown(list: Seq<FindingView>, i: int)
    ensures
        list.len() == 0 ==> findings_text(list).len() == 0,
        0 <= i < list.len() ==> text::contains_spec(findings_text(list), finding_line(list[i])),
        0 <= i < list.len() ==> text::contains_spec(
            findings_text(list),
            text::decimal_spec(
                list.filter(|f: FindingView| f.severity == Severity::Error).len(),
            ) + " error(s), "@ + text::decimal_spec(
                (list.len() - list.filter(|f: FindingView| f.severity == Severity::Error).len()) as nat,
            ) + " warning(s)"@,
        ),
{
    if 0 <= i < list.len() {
        let errors = errors_spec(list, list.len());
        lemma_errors_counted(list, list.len());
        assert(list.take(list.len() as int) =~= list);
        let start = "Ratification body⇔tag consistency (CH-6502): "@;
        let counts = text::decimal_spec(errors) + " error(s), "@ + text::decimal_spec(
            (list.len() - errors) as nat,
        ) + " warning(s)"@;
        let head = start + text::decimal_spec(errors) + " error(s), "@ + text::decimal_spec(
            (list.len() - errors) as nat,
        ) + " warning(s)"@;
        let lines = seq![head] + Seq::new(list.len(), |i: int| finding_line(list[i]));
        assert(lines[1 + i] == finding_line(list[i]));
        assert(lines[0] == head);
        text::law_joined_text_has_every_part(lines, "\n"@, 1 + i);
        text::law_joined_text_has_every_part(lines, "\n"@, 0);
        let none = Seq::<char>::empty();
        assert(counts.subrange(0, counts.len() as int) =~= counts);
        assert(text::occurs_at(counts, counts, 0));
        text::lemma_contains_in_part(start, counts, none, counts);
        lemma_head_regrouped(
            start,
            text::decimal_spec(errors),
            text::decimal_spec((list.len() - errors) as nat),
        );
        assert(start + counts + none =~= start + counts);
        lemma_shown_through(findings_text(list), head, counts);
    }
}

proof fn lemma_head_regrouped(start: Seq<char>, a: Seq<char>, b: Seq<char>)
    ensures
        start + a + " error(s), "@ + b + " warning(s)"@ == start + (a + " error(s), "@ + b
            + " warning(s)"@),
{
    assert(start + a + " error(s), "@ + b + " warning(s)"@ =~= start + (a + " error(s), "@ + b
        + " warning(s)"@));
}

proof fn lemma_shown_through(a: Seq<char>, b: Seq<char>, c: Seq<char>)
    requires
        text::contains_spec(a, b),
        text::contains_spec(b, c),
    ensures
        text::contains_spec(a, c),
{
    let i = choose|i: int| text::occurs_at(a, b, i);
    text::lemma_contains_in_part(a.take(i), b, a.skip(i + b.len()), c);
    assert(a.take(i) + b + a.skip(i + b.len()) =~= a);
}

/// The line that a body is judged by is the first that is not blank, trimmed.
pub proof fn law_the_first_line_counts(lines: Seq<Seq<char>>, n: nat)
    requires
        n <= lines.len(),
    ensures
        first_line_spec(lines, n) matches Some(line) ==> exists|i: int|
            0 <= i < n && text::trim_spec(#[trigger] lines[i]) == line && line.len() > 0
                && forall|k: int| 0 <= k < i ==> text::trim_spec(#[trigger] lines[k]).len() == 0,
        first_line_spec(lines, n) is None ==> forall|k: int|
            0 <= k < n ==> text::trim_spec(#[trigger] lines[k]).len() == 0,
    decreases n,
{
    if n > 0 {
        law_the_first_line_counts(lines, (n - 1) as nat);
        if first_line_spec(lines, (n - 1) as nat) is Some {
            let line = first_line_spec(lines, (n - 1) as nat)->0;
            let i = choose|i: int|
                0 <= i < n - 1 && text::trim_spec(#[trigger] lines[i]) == line && line.len() > 0
                    && forall|k: int|
                    0 <= k < i ==> text::trim_spec(#[trigger] lines[k]).len() == 0;
            assert(text::trim_spec(lines[i]) == line);
        } else if text::trim_spec(lines[n - 1]).len() > 0 {
            assert(text::trim_spec(lines[n - 1]) == first_line_spec(lines, n)->0);
        }
    }
}

/// The marks at the start of a line do not count: spaces, stars, hashes, quotation marks
/// of markdown, dashes and backticks.
pub proof fn law_leading_marks_do_not_count(marks: Seq<char>, s: Seq<char>)
    requires
        forall|k: int|
            0 <= k < marks.len() ==> text::is_space(#[trigger] marks[k]) || marks[k] == '*'
                || marks[k] == '#' || marks[k] == '>' || marks[k] == '-' || marks[k] == '`',
        s.len() > 0 ==> !(text::is_space(s[0]) || s[0] == '*' || s[0] == '#' || s[0] == '>' || s[0]
            == '-' || s[0] == '`'),
    ensures
        without_marks(marks + s) == s,
    decreases marks.len(),
{
    let all = marks + s;
    if marks.len() > 0 {
        assert(all[0] == marks[0]);
        assert(all.skip(1) =~= marks.skip(1) + s);
        assert forall|k: int| 0 <= k < marks.skip(1).len() implies text::is_space(
            #[trigger] marks.skip(1)[k],
        ) || marks.skip(1)[k] == '*' || marks.skip(1)[k] == '#' || marks.skip(1)[k] == '>'
            || marks.skip(1)[k] == '-' || marks.skip(1)[k] == '`' by {
            assert(marks.skip(1)[k] == marks[k + 1]);
        }
        law_leading_marks_do_not_count(marks.skip(1), s);
    } else {
        assert(all =~= s);
    }
}

/// A line of a body that starts with a marker, in whatever case and behind whatever marks,
/// says that it is pending, where only blank lines come before it.
pub proof fn law_pending_bodies_are_told_by_their_first_line(body: Seq<char>, i: int)
    requires
        0 <= i < text::lines_spec(body).len(),
        text::trim_spec(text::lines_spec(body)[i]).len() > 0,
        forall|k: int|
            0 <= k < i ==> text::trim_spec(#[trigger] text::lines_spec(body)[k]).len() == 0,
    ensures
        says_pending(body) == starts_pending(
            text::lower_spec(without_marks(text::trim_spec(text::lines_spec(body)[i]))),
        ),
{
    let lines = text::lines_spec(body);
    law_the_first_line_counts(lines, lines.len());
    assert(text::trim_spec(lines[i]).len() > 0);
    let line = first_line_spec(lines, lines.len())->0;
    let j = choose|j: int|
        0 <= j < lines.len() && text::trim_spec(#[trigger] lines[j]) == line && line.len() > 0
            && forall|k: int| 0 <= k < j ==> text::trim_spec(#[trigger] lines[k]).len() == 0;
    if j < i {
        assert(text::trim_spec(lines[j]).len() == 0);
    } else if i < j {
        assert(text::trim_spec(lines[i]).len() == 0);
    }
}

} // verus!
