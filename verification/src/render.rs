//! The text views of a board: roadmap, campaign, critical path and worklist.
use vstd::prelude::*;
use vstd::string::StringExecFns;
use crate::critical_path;
use crate::critical_path::CriticalPathResult;
use crate::critical_path::ItemInfo;
use crate::critical_path::ItemView;
use crate::keyed;
use crate::roadmap;
use crate::roadmap::GroupView;
use crate::roadmap::VoyageGroup;
use crate::sorting;
use crate::sorting::SortKey;
use crate::text;

verus! {

// ---- items ------------------------------------------------------------------------------

/// The icon and the word for the state of an item.
pub open spec fn status_display_spec(item: ItemView, blocked: Seq<Seq<char>>) -> (
    Seq<char>,
    Seq<char>,
) {
    if critical_path::is_done(item.status) {
        ("✓"@, "done"@)
    } else if item.status == "in_progress"@ {
        ("▶"@, "IN PROGRESS"@)
    } else if item.status == "review"@ {
        ("⊙"@, "REVIEW"@)
    } else if blocked.contains(item.id) {
        ("◇"@, "BLOCKED"@)
    } else {
        ("→"@, "READY"@)
    }
}

fn item_status_display(item: &ItemInfo, blocked: &Vec<String>) -> (r: (
    &'static str,
    &'static str,
))
    ensures
        (r.0@, r.1@) == status_display_spec(item@, text::views(blocked@)),
{
    let status: &str = item.status.as_str();
    if critical_path::status_is_done(status) {
        ("✓", "done")
    } else if text::same(status, "in_progress") {
        ("▶", "IN PROGRESS")
    } else if text::same(status, "review") {
        ("⊙", "REVIEW")
    } else if text::contains_string(blocked, item.id.as_str()) {
        ("◇", "BLOCKED")
    } else {
        ("→", "READY")
    }
}

/// The dependencies of an item, among the first `n`, that are unfinished items.
pub open spec fn unmet_deps(items: Seq<ItemView>, list: Seq<Seq<char>>, n: nat) -> Seq<Seq<char>>
    decreases n,
{
    if n == 0 {
        Seq::empty()
    } else {
        let before = unmet_deps(items, list, (n - 1) as nat);
        if is_open_item(items, list[n - 1]) {
            before.push(list[n - 1])
        } else {
            before
        }
    }
}

pub open spec fn is_open_item(items: Seq<ItemView>, id: Seq<char>) -> bool {
    match critical_path::item_of(items, id) {
        Some(item) => !critical_path::is_done(item.status),
        None => false,
    }
}

/// A mark and the unfinished dependencies of a blocked item; nothing for others.
pub open spec fn dep_note_spec(
    items: Seq<ItemView>,
    item: ItemView,
    id: Seq<char>,
    blocked: Seq<Seq<char>>,
    mark: Seq<char>,
) -> Seq<char> {
    if blocked.contains(id) {
        mark + text::join_spec(
            unmet_deps(items, item.depends_on, item.depends_on.len()),
            ", "@,
        )
    } else {
        Seq::empty()
    }
}

fn dep_note(items: &[ItemInfo], item: &ItemInfo, id: &str, blocked: &Vec<String>, mark: &str) -> (r:
    String)
    ensures
        r@ == dep_note_spec(
            critical_path::item_views(items@),
            item@,
            id@,
            text::views(blocked@),
            mark@,
        ),
{
    let ghost all = critical_path::item_views(items@);
    if !text::contains_string(blocked, id) {
        return String::new();
    }
    let mut unmet: Vec<String> = Vec::new();
    let mut i: usize = 0;
    assert(text::views(unmet@) =~= unmet_deps(all, item@.depends_on, 0));
    while i < item.depends_on.len()
        invariant
            i <= item.depends_on@.len(),
            all == critical_path::item_views(items@),
            text::views(unmet@) == unmet_deps(all, item@.depends_on, i as nat),
        decreases item.depends_on@.len() - i,
    {
        let dep: &String = &item.depends_on[i];
        let is_open: bool = match critical_path::find_item(items, dep.as_str()) {
            Some(k) => !critical_path::status_is_done(items[k].status.as_str()),
            None => false,
        };
        if is_open {
            let ghost before = text::views(unmet@);
            unmet.push(dep.clone());
            assert(text::views(unmet@) =~= before.push(item@.depends_on[i as int]));
        }
        i = i + 1;
    }
    let mut r: String = text::owned(mark);
    let list: String = text::join(&unmet, ", ");
    r.append(list.as_str());
    r
}

pub open spec fn assignee_note_spec(item: ItemView) -> Seq<char> {
    if item.assignee != "-"@ {
        "  "@ + item.assignee
    } else {
        Seq::empty()
    }
}

/// The line of an item in a roadmap.
pub open spec fn item_line_spec(
    items: Seq<ItemView>,
    item: ItemView,
    id: Seq<char>,
    blocked: Seq<Seq<char>>,
    with_deps: bool,
) -> Seq<char> {
    let shown = status_display_spec(item, blocked);
    "  "@ + shown.0 + " "@ + text::pad_right_spec(id, 14) + text::pad_right_spec(
        critical_path::truncate_spec(item.title, 44),
        46,
    ) + shown.1 + assignee_note_spec(item) + (if with_deps {
        dep_note_spec(items, item, id, blocked, " -> "@)
    } else {
        Seq::empty()
    })
}

fn item_line(
    items: &[ItemInfo],
    item: &ItemInfo,
    id: &str,
    blocked: &Vec<String>,
    with_deps: bool,
) -> (r: String)
    ensures
        r@ == item_line_spec(
            critical_path::item_views(items@),
            item@,
            id@,
            text::views(blocked@),
            with_deps,
        ),
{
    let (icon, word) = item_status_display(item, blocked);
    let title: String = critical_path::truncate(item.title.as_str(), 44);
    let mut r: String = text::owned("  ");
    r.append(icon);
    r.append(" ");
    let id_cell: String = text::pad_right(id, 14);
    r.append(id_cell.as_str());
    let title_cell: String = text::pad_right(title.as_str(), 46);
    r.append(title_cell.as_str());
    r.append(word);
    let mut assignee: String = String::new();
    if !text::same(item.assignee.as_str(), "-") {
        assignee = text::owned("  ");
        assignee.append(item.assignee.as_str());
    }
    assert(assignee@ == assignee_note_spec(item@));
    r.append(assignee.as_str());
    let deps: String = if with_deps {
        dep_note(items, item, id, blocked, " -> ")
    } else {
        String::new()
    };
    r.append(deps.as_str());
    r
}

// ---- the roadmap ----------------------------------------------------------------------------

pub open spec fn progress_spec(group: GroupView) -> Seq<char> {
    group.voyage_id + ": "@ + group.voyage_title + " ["@ + text::decimal_spec(group.done_count)
        + "/"@ + text::decimal_spec(group.total_count) + (if group.total_count > 0 {
        " done"@
    } else {
        ""@
    }) + "]"@
}

fn progress_line(group: &VoyageGroup) -> (r: String)
    ensures
        r@ == progress_spec(group@),
{
    let mut r: String = group.voyage_id.clone();
    r.append(": ");
    r.append(group.voyage_title.as_str());
    r.append(" [");
    let done: String = text::decimal(group.done_count);
    r.append(done.as_str());
    r.append("/");
    let total: String = text::decimal(group.total_count);
    r.append(total.as_str());
    r.append(if group.total_count > 0 { " done" } else { "" });
    r.append("]");
    r
}

/// The key that orders the items of a group: what can start first, then by
/// urgency.
pub open spec fn place_key(
    items: Seq<ItemView>,
    depth: Seq<(Seq<char>, u32)>,
    id: Seq<char>,
) -> (u32, u8, i32, i32) {
    let d: u32 = match keyed::lookup_spec(depth, id) {
        Some(d) => d,
        None => 0,
    };
    let key = critical_path::key_of(items, id);
    (d, key.0, key.1, key.2)
}

pub open spec fn place_keys(
    items: Seq<ItemView>,
    depth: Seq<(Seq<char>, u32)>,
    list: Seq<Seq<char>>,
) -> Seq<(u32, u8, i32, i32)> {
    Seq::new(list.len(), |i: int| place_key(items, depth, list[i]))
}

pub open spec fn placed(
    items: Seq<ItemView>,
    depth: Seq<(Seq<char>, u32)>,
    list: Seq<Seq<char>>,
) -> Seq<Seq<char>> {
    sorting::pick(
        list,
        sorting::stable_order::<(u32, u8, i32, i32)>(place_keys(items, depth, list)),
    )
}

impl SortKey for (u32, u8, i32, i32) {
    type Model = (u32, u8, i32, i32);

    open spec fn model(&self) -> (u32, u8, i32, i32) {
        *self
    }

    open spec fn precedes(a: (u32, u8, i32, i32), b: (u32, u8, i32, i32)) -> bool {
        a.0 < b.0 || (a.0 == b.0 && (a.1 < b.1 || (a.1 == b.1 && (a.2 < b.2 || (a.2 == b.2 && a.3
            <= b.3)))))
    }

    proof fn le_transitive(
        a: (u32, u8, i32, i32),
        b: (u32, u8, i32, i32),
        c: (u32, u8, i32, i32),
    ) {
    }

    proof fn le_total(a: (u32, u8, i32, i32), b: (u32, u8, i32, i32)) {
    }

    fn at_most(&self, other: &Self) -> (r: bool) {
        self.0 < other.0 || (self.0 == other.0 && (self.1 < other.1 || (self.1 == other.1 && (self.2
            < other.2 || (self.2 == other.2 && self.3 <= other.3)))))
    }
}

fn place(items: &[ItemInfo], depth: &Vec<(String, u32)>, list: &Vec<String>) -> (r: Vec<String>)
    ensures
        text::views(r@) == placed(
            critical_path::item_views(items@),
            keyed::pairs(depth@),
            text::views(list@),
        ),
{
    let ghost all = critical_path::item_views(items@);
    let mut keys: Vec<(u32, u8, i32, i32)> = Vec::new();
    let mut i: usize = 0;
    while i < list.len()
        invariant
            i <= list@.len(),
            all == critical_path::item_views(items@),
            keys@.len() == i,
            forall|k: int|
                0 <= k < i ==> #[trigger] keys@[k] == place_key(
                    all,
                    keyed::pairs(depth@),
                    list@[k]@,
                ),
        decreases list@.len() - i,
    {
        let d: u32 = match keyed::lookup(depth, list[i].as_str()) {
            Some(d) => *d,
            None => 0,
        };
        let key: (u8, i32, i32) = critical_path::key_of_id(items, list[i].as_str());
        keys.push((d, key.0, key.1, key.2));
        i = i + 1;
    }
    assert(sorting::models(keys@) =~= place_keys(
        all,
        keyed::pairs(depth@),
        text::views(list@),
    ));
    let order: Vec<usize> = sorting::sort_positions(&keys);
    sorting::pick_strings(list, &order)
}

/// The lines of the items that exist among the first `n` ids.
pub open spec fn item_lines_spec(
    items: Seq<ItemView>,
    list: Seq<Seq<char>>,
    blocked: Seq<Seq<char>>,
    with_deps: bool,
    n: nat,
) -> Seq<Seq<char>>
    decreases n,
{
    if n == 0 {
        Seq::empty()
    } else {
        let before = item_lines_spec(items, list, blocked, with_deps, (n - 1) as nat);
        match critical_path::item_of(items, list[n - 1]) {
            Some(item) => before.push(
                item_line_spec(items, item, list[n - 1], blocked, with_deps),
            ),
            None => before,
        }
    }
}

fn push_item_lines(
    items: &[ItemInfo],
    list: &Vec<String>,
    blocked: &Vec<String>,
    with_deps: bool,
    lines: &mut Vec<String>,
)
    ensures
        text::views(final(lines)@) == text::views(old(lines)@) + item_lines_spec(
            critical_path::item_views(items@),
            text::views(list@),
            text::views(blocked@),
            with_deps,
            list@.len(),
        ),
{
    let ghost all = critical_path::item_views(items@);
    let ghost start = text::views(lines@);
    let mut i: usize = 0;
    assert(text::views(lines@) =~= start + item_lines_spec(
        all,
        text::views(list@),
        text::views(blocked@),
        with_deps,
        0,
    ));
    while i < list.len()
        invariant
            i <= list@.len(),
            all == critical_path::item_views(items@),
            text::views(lines@) == start + item_lines_spec(
                all,
                text::views(list@),
                text::views(blocked@),
                with_deps,
                i as nat,
            ),
        decreases list@.len() - i,
    {
        match critical_path::find_item(items, list[i].as_str()) {
            Some(k) => {
                let ghost before = text::views(lines@);
                let line: String = item_line(
                    items,
                    &items[k],
                    list[i].as_str(),
                    blocked,
                    with_deps,
                );
                let ghost text_of_line = line@;
                lines.push(line);
                assert(text::views(lines@) =~= before.push(text_of_line));
                assert(text::views(lines@) =~= start + item_lines_spec(
                    all,
                    text::views(list@),
                    text::views(blocked@),
                    with_deps,
                    (i + 1) as nat,
                ));
            },
            None => {},
        }
        i = i + 1;
    }
}

/// The lines of the first `n` groups: the voyage, the items under it in the order
/// in which they can start, and an empty line.
pub open spec fn group_lines_spec(
    items: Seq<ItemView>,
    groups: Seq<GroupView>,
    depth: Seq<(Seq<char>, u32)>,
    blocked: Seq<Seq<char>>,
    n: nat,
) -> Seq<Seq<char>>
    decreases n,
{
    if n == 0 {
        Seq::empty()
    } else {
        let group = groups[n - 1];
        let list = placed(items, depth, group.items);
        (group_lines_spec(items, groups, depth, blocked, (n - 1) as nat).push(progress_spec(group))
            + item_lines_spec(items, list, blocked, true, list.len())).push(""@)
    }
}

/// The lines of the items under no voyage, where there are any.
pub open spec fn orphan_lines_spec(
    items: Seq<ItemView>,
    orphans: Seq<Seq<char>>,
    blocked: Seq<Seq<char>>,
) -> Seq<Seq<char>> {
    if orphans.len() == 0 {
        Seq::empty()
    } else {
        (seq!["Ungrouped:"@] + item_lines_spec(items, orphans, blocked, false, orphans.len())).push(
            ""@,
        )
    }
}

pub open spec fn roadmap_spec(
    items: Seq<ItemView>,
    groups: Seq<GroupView>,
    orphans: Seq<Seq<char>>,
    depth: Seq<(Seq<char>, u32)>,
    blocked: Seq<Seq<char>>,
) -> Seq<char> {
    text::join_spec(
        group_lines_spec(items, groups, depth, blocked, groups.len()) + orphan_lines_spec(
            items,
            orphans,
            blocked,
        ),
        "\n"@,
    )
}

/// The roadmap as text.
pub fn format_roadmap(
    items: &[ItemInfo],
    groups: &Vec<VoyageGroup>,
    orphans: &Vec<String>,
    cp: &CriticalPathResult,
) -> (r: String)
    ensures
        r@ == roadmap_spec(
            critical_path::item_views(items@),
            roadmap::group_views(groups@),
            text::views(orphans@),
            keyed::pairs(cp.depth@),
            text::views(cp.blocked@),
        ),
{
    let ghost all = critical_path::item_views(items@);
    let ghost views = roadmap::group_views(groups@);
    let ghost depth = keyed::pairs(cp.depth@);
    let ghost blocked = text::views(cp.blocked@);
    let mut lines: Vec<String> = Vec::new();
    let mut i: usize = 0;
    assert(text::views(lines@) =~= group_lines_spec(all, views, depth, blocked, 0));
    while i < groups.len()
        invariant
            i <= groups@.len(),
            all == critical_path::item_views(items@),
            views == roadmap::group_views(groups@),
            depth == keyed::pairs(cp.depth@),
            blocked == text::views(cp.blocked@),
            text::views(lines@) == group_lines_spec(all, views, depth, blocked, i as nat),
        decreases groups@.len() - i,
    {
        let group: &VoyageGroup = &groups[i];
        assert(views[i as int] == group@);
        let ghost before = text::views(lines@);
        lines.push(progress_line(group));
        assert(text::views(lines@) =~= before.push(progress_spec(group@)));
        let list: Vec<String> = place(items, &cp.depth, &group.items);
        push_item_lines(items, &list, &cp.blocked, true, &mut lines);
        let ghost filled = text::views(lines@);
        lines.push(text::owned(""));
        assert(text::views(lines@) =~= filled.push(""@));
        i = i + 1;
    }
    if orphans.len() > 0 {
        let ghost before = text::views(lines@);
        lines.push(text::owned("Ungrouped:"));
        assert(text::views(lines@) =~= before.push("Ungrouped:"@));
        push_item_lines(items, orphans, &cp.blocked, false, &mut lines);
        let ghost filled = text::views(lines@);
        lines.push(text::owned(""));
        assert(text::views(lines@) =~= filled.push(""@));
        assert(text::views(lines@) =~= before + orphan_lines_spec(
            all,
            text::views(orphans@),
            blocked,
        ));
    } else {
        assert(text::views(lines@) =~= text::views(lines@) + orphan_lines_spec(
            all,
            text::views(orphans@),
            blocked,
        ));
    }
    text::join(&lines, "\n")
}

// ---- campaigns --------------------------------------------------------------------------------

/// The groups of the member voyages, among the first `n` groups.
pub open spec fn member_groups(
    groups: Seq<GroupView>,
    members: Seq<Seq<char>>,
    n: nat,
) -> Seq<GroupView>
    decreases n,
{
    if n == 0 {
        Seq::empty()
    } else {
        let before = member_groups(groups, members, (n - 1) as nat);
        if members.contains(groups[n - 1].voyage_id) {
            before.push(groups[n - 1])
        } else {
            before
        }
    }
}

/// Whether an id is that of a voyage of these groups or of an item under it.
pub open spec fn in_groups(groups: Seq<GroupView>, id: Seq<char>) -> bool {
    exists|i: int|
        0 <= i < groups.len() && ((#[trigger] groups[i]).voyage_id == id
            || groups[i].items.contains(id))
}

/// The items that a campaign's roadmap is about.
pub open spec fn campaign_items(items: Seq<ItemView>, groups: Seq<GroupView>) -> Seq<ItemView> {
    items.filter(|x: ItemView| in_groups(groups, x.id))
}

pub open spec fn percent_spec(done: nat, total: nat) -> nat {
    if total == 0 {
        0
    } else {
        done * 100 / total
    }
}

/// The head of a campaign view.
pub open spec fn campaign_head_spec(
    items: Seq<ItemView>,
    members: Seq<Seq<char>>,
    id: Seq<char>,
) -> Seq<char> {
    let (count, done, total) = roadmap::aggregate_spec(items, members);
    let head = "Campaign "@ + id + " — "@ + text::decimal_spec(count)
        + " member voyage(s) [partOf]:\n"@;
    if count == 0 {
        head
            + "  (no members yet — a voyage joins with: arrow-kanban update VY-XXXX --relate partOf:"@
            + id + ")\n"@
    } else {
        head + "  Program: "@ + text::decimal_spec(done) + "/"@ + text::decimal_spec(total)
            + " expeditions done ("@ + text::decimal_spec(percent_spec(done, total)) + "%)\n\n"@
    }
}

/// Whether a text is the view of a campaign: its head and, where it has members,
/// the roadmap of their unfinished work.
pub open spec fn is_campaign_view(
    items: Seq<ItemView>,
    members: Seq<Seq<char>>,
    id: Seq<char>,
    shown: Seq<char>,
) -> bool {
    let head = campaign_head_spec(items, members, id);
    let all_groups = roadmap::groups_spec(items);
    let groups = member_groups(all_groups, members, all_groups.len());
    let shown_items = campaign_items(items, groups);
    let active = critical_path::active_items(shown_items);
    if roadmap::aggregate_spec(items, members).0 == 0 {
        shown == head
    } else if critical_path::resolvable(active) {
        exists|cp: CriticalPathResult| #[trigger]
            critical_path::is_analysis(active, cp) && shown == head + roadmap_spec(
                shown_items,
                groups,
                Seq::empty(),
                keyed::pairs(cp.depth@),
                text::views(cp.blocked@),
            )
    } else {
        shown == head + "  (cross-voyage critical path error: "@
            + critical_path::cycle_message_spec(active) + ")\n"@
    }
}

fn campaign_head(items: &[ItemInfo], members: &Vec<String>, id: &str) -> (r: (String, bool))
    ensures
        r.0@ == campaign_head_spec(
            critical_path::item_views(items@),
            text::views(members@),
            id@,
        ),
        r.1 == (roadmap::aggregate_spec(
            critical_path::item_views(items@),
            text::views(members@),
        ).0 > 0),
{
    let (count, done, total) = roadmap::campaign_aggregate(items, members);
    let mut r: String = text::owned("Campaign ");
    r.append(id);
    r.append(" — ");
    let n: String = text::decimal(count);
    r.append(n.as_str());
    r.append(" member voyage(s) [partOf]:\n");
    if count == 0 {
        r.append(
            "  (no members yet — a voyage joins with: arrow-kanban update VY-XXXX --relate partOf:",
        );
        r.append(id);
        r.append(")\n");
        return (r, false);
    }
    let percent: u64 = if total == 0 {
        0
    } else {
        let hundredfold: u128 = (done as u128) * 100;
        let share: u128 = hundredfold / (total as u128);
        assert(share <= 100) by (nonlinear_arith)
            requires
                share == hundredfold / (total as u128),
                hundredfold == done * 100,
                done <= total,
                total > 0,
        ;
        share as u64
    };
    r.append("  Program: ");
    let d: String = text::decimal(done);
    r.append(d.as_str());
    r.append("/");
    let t: String = text::decimal(total);
    r.append(t.as_str());
    r.append(" expeditions done (");
    let p: String = text::decimal_u64(percent);
    r.append(p.as_str());
    r.append("%)\n\n");
    (r, true)
}

fn find_member_groups(groups: Vec<VoyageGroup>, members: &Vec<String>) -> (r: Vec<VoyageGroup>)
    ensures
        roadmap::group_views(r@) == member_groups(
            roadmap::group_views(groups@),
            text::views(members@),
            groups@.len(),
        ),
{
    let ghost views = roadmap::group_views(groups@);
    let mut r: Vec<VoyageGroup> = Vec::new();
    let mut i: usize = 0;
    assert(roadmap::group_views(r@) =~= member_groups(views, text::views(members@), 0));
    while i < groups.len()
        invariant
            i <= groups@.len(),
            views == roadmap::group_views(groups@),
            roadmap::group_views(r@) == member_groups(views, text::views(members@), i as nat),
        decreases groups@.len() - i,
    {
        if text::contains_string(members, groups[i].voyage_id.as_str()) {
            let ghost before = roadmap::group_views(r@);
            r.push(roadmap::copy_group(&groups[i]));
            assert(roadmap::group_views(r@) =~= before.push(views[i as int]));
        }
        i = i + 1;
    }
    r
}

fn id_in_groups(groups: &Vec<VoyageGroup>, id: &str) -> (r: bool)
    ensures
        r == in_groups(roadmap::group_views(groups@), id@),
{
    let ghost views = roadmap::group_views(groups@);
    let mut i: usize = 0;
    while i < groups.len()
        invariant
            i <= groups@.len(),
            views == roadmap::group_views(groups@),
            forall|k: int|
                0 <= k < i ==> !((#[trigger] views[k]).voyage_id == id@ || views[k].items.contains(
                    id@,
                )),
        decreases groups@.len() - i,
    {
        if text::same(groups[i].voyage_id.as_str(), id) || text::contains_string(
            &groups[i].items,
            id,
        ) {
            assert(views[i as int] == groups@[i as int]@);
            return true;
        }
        i = i + 1;
    }
    false
}

fn find_campaign_items(items: &[ItemInfo], groups: &Vec<VoyageGroup>) -> (r: Vec<ItemInfo>)
    ensures
        critical_path::item_views(r@) == campaign_items(
            critical_path::item_views(items@),
            roadmap::group_views(groups@),
        ),
        r@.len() <= items@.len(),
{
    let ghost all = critical_path::item_views(items@);
    let ghost views = roadmap::group_views(groups@);
    let ghost pred = |x: ItemView| in_groups(views, x.id);
    let mut r: Vec<ItemInfo> = Vec::new();
    let mut i: usize = 0;
    assert(critical_path::item_views(r@) =~= all.take(0).filter(pred));
    while i < items.len()
        invariant
            i <= items@.len(),
            all == critical_path::item_views(items@),
            views == roadmap::group_views(groups@),
            pred == (|x: ItemView| in_groups(views, x.id)),
            r@.len() <= i,
            critical_path::item_views(r@) == all.take(i as int).filter(pred),
        decreases items@.len() - i,
    {
        proof {
            assert(all.take(i + 1) =~= all.take(i as int).push(all[i as int]));
            all.take(i as int).lemma_filter_push(all[i as int], pred);
        }
        if id_in_groups(groups, items[i].id.as_str()) {
            let ghost before = critical_path::item_views(r@);
            r.push(items[i].clone());
            assert(critical_path::item_views(r@) =~= before.push(all[i as int]));
        }
        i = i + 1;
    }
    assert(all.take(i as int) =~= all);
    r
}

/// The view of a campaign as text. `members` are the ids of its member voyages.
pub fn format_campaign_roadmap(camp_id: &str, members: &Vec<String>, items: &[ItemInfo]) -> (r:
    String)
    requires
        items@.len() <= u32::MAX,
    ensures
        is_campaign_view(
            critical_path::item_views(items@),
            text::views(members@),
            camp_id@,
            r@,
        ),
{
    let (head, has_members) = campaign_head(items, members, camp_id);
    let mut out: String = head;
    if !has_members {
        return out;
    }
    let (all_groups, _) = roadmap::group_by_voyage(items);
    let groups: Vec<VoyageGroup> = find_member_groups(all_groups, members);
    let shown_items: Vec<ItemInfo> = find_campaign_items(items, &groups);
    match critical_path::compute_critical_path(shown_items.as_slice()) {
        Ok(cp) => {
            let none: Vec<String> = Vec::new();
            assert(text::views(none@) =~= Seq::<Seq<char>>::empty());
            let body: String = format_roadmap(shown_items.as_slice(), &groups, &none, &cp);
            out.append(body.as_str());
        },
        Err(message) => {
            out.append("  (cross-voyage critical path error: ");
            out.append(message.as_str());
            out.append(")\n");
        },
    }
    out
}

// ---- the critical path ----------------------------------------------------------------------------

/// What the groups of a critical path hold.
pub open spec fn level_views(groups: Seq<(u32, Vec<String>)>) -> Seq<(u32, Seq<Seq<char>>)> {
    Seq::new(groups.len(), |i: int| (groups[i].0, text::views(groups[i].1@)))
}

/// How many ids the first `n` groups list.
pub open spec fn listed(groups: Seq<(u32, Seq<Seq<char>>)>, n: nat) -> nat
    decreases n,
{
    if n == 0 {
        0
    } else {
        listed(groups, (n - 1) as nat) + groups[n - 1].1.len()
    }
}

/// The greatest depth of the groups, which are listed by depth.
pub open spec fn last_level(groups: Seq<(u32, Seq<Seq<char>>)>) -> u32 {
    if groups.len() == 0 {
        0
    } else {
        groups.last().0
    }
}

pub open spec fn path_head_spec(groups: Seq<(u32, Seq<Seq<char>>)>) -> Seq<char> {
    "Critical Path ("@ + text::decimal_spec(listed(groups, groups.len())) + " items, "@
        + text::decimal_spec((last_level(groups) + 1) as nat) + " depth levels):"@
}

pub open spec fn level_head_spec(level: u32, size: nat) -> Seq<char> {
    "Depth "@ + text::decimal_spec(level as nat) + " ("@ + (if level == 0 {
        "start now"@
    } else {
        "after depth "@ + text::decimal_spec((level - 1) as nat)
    }) + (if size > 1 {
        " — "@ + text::decimal_spec(size) + " parallel"@
    } else {
        Seq::empty()
    }) + "):"@
}

/// The line of an item in a critical path.
pub open spec fn path_line_spec(
    items: Seq<ItemView>,
    item: ItemView,
    id: Seq<char>,
    blocked: Seq<Seq<char>>,
) -> Seq<char> {
    "  "@ + text::pad_right_spec(id, 14) + text::pad_right_spec(
        critical_path::truncate_spec(item.title, 44),
        46,
    ) + (if item.assignee != "-"@ {
        text::pad_right_spec(item.assignee, 8)
    } else {
        "Any     "@
    }) + dep_note_spec(items, item, id, blocked, "  <- "@)
}

pub open spec fn path_lines_spec(
    items: Seq<ItemView>,
    list: Seq<Seq<char>>,
    blocked: Seq<Seq<char>>,
    n: nat,
) -> Seq<Seq<char>>
    decreases n,
{
    if n == 0 {
        Seq::empty()
    } else {
        let before = path_lines_spec(items, list, blocked, (n - 1) as nat);
        match critical_path::item_of(items, list[n - 1]) {
            Some(item) => before.push(path_line_spec(items, item, list[n - 1], blocked)),
            None => before,
        }
    }
}

pub open spec fn level_lines_spec(
    items: Seq<ItemView>,
    groups: Seq<(u32, Seq<Seq<char>>)>,
    blocked: Seq<Seq<char>>,
    n: nat,
) -> Seq<Seq<char>>
    decreases n,
{
    if n == 0 {
        Seq::empty()
    } else {
        let (level, list) = groups[n - 1];
        (level_lines_spec(items, groups, blocked, (n - 1) as nat).push(
            level_head_spec(level, list.len()),
        ) + path_lines_spec(items, list, blocked, list.len())).push(""@)
    }
}

/// A count, the greatest first.
#[derive(Debug, Clone, Copy)]
pub struct Most(pub usize);

impl SortKey for Most {
    type Model = usize;

    open spec fn model(&self) -> usize {
        self.0
    }

    open spec fn precedes(a: usize, b: usize) -> bool {
        a >= b
    }

    proof fn le_transitive(a: usize, b: usize, c: usize) {
    }

    proof fn le_total(a: usize, b: usize) {
    }

    fn at_most(&self, other: &Self) -> (r: bool) {
        self.0 >= other.0
    }
}

pub open spec fn counts_of(list: Seq<(Seq<char>, usize)>) -> Seq<usize> {
    Seq::new(list.len(), |i: int| list[i].1)
}

/// The five items that most others wait for, among those that any wait for.
pub open spec fn bottlenecks(list: Seq<(Seq<char>, usize)>) -> Seq<(Seq<char>, usize)> {
    let sorted = sorting::pick(list, sorting::stable_order::<Most>(counts_of(list)));
    let top = if sorted.len() > 5 {
        sorted.take(5)
    } else {
        sorted
    };
    top.filter(|x: (Seq<char>, usize)| x.1 > 0)
}

pub open spec fn bottleneck_lines_spec(
    items: Seq<ItemView>,
    list: Seq<(Seq<char>, usize)>,
    n: nat,
) -> Seq<Seq<char>>
    decreases n,
{
    if n == 0 {
        Seq::empty()
    } else {
        let before = bottleneck_lines_spec(items, list, (n - 1) as nat);
        let (id, count) = list[n - 1];
        match critical_path::item_of(items, id) {
            Some(item) => before.push(
                "  "@ + text::pad_right_spec(id, 14) + text::pad_right_spec(
                    critical_path::truncate_spec(item.title, 40),
                    42,
                ) + " -> "@ + text::decimal_spec(count as nat) + " items depend"@,
            ),
            None => before,
        }
    }
}

pub open spec fn bottleneck_section(
    items: Seq<ItemView>,
    list: Seq<(Seq<char>, usize)>,
) -> Seq<Seq<char>> {
    let top = bottlenecks(list);
    if top.len() == 0 {
        Seq::empty()
    } else {
        (seq!["Bottlenecks (most downstream dependents):"@] + bottleneck_lines_spec(
            items,
            top,
            top.len(),
        )).push(""@)
    }
}

pub open spec fn critical_path_text(
    items: Seq<ItemView>,
    groups: Seq<(u32, Seq<Seq<char>>)>,
    blocked: Seq<Seq<char>>,
    downstream: Seq<(Seq<char>, usize)>,
) -> Seq<char> {
    text::join_spec(
        seq![path_head_spec(groups), ""@] + level_lines_spec(items, groups, blocked, groups.len())
            + bottleneck_section(items, downstream),
        "\n"@,
    )
}

fn level_head(level: u32, size: usize) -> (r: String)
    ensures
        r@ == level_head_spec(level, size as nat),
{
    let mut r: String = text::owned("Depth ");
    let l: String = text::decimal_u64(level as u64);
    r.append(l.as_str());
    r.append(" (");
    let mut label: String = text::owned("start now");
    if level > 0 {
        label = text::owned("after depth ");
        let before: String = text::decimal_u64((level - 1) as u64);
        label.append(before.as_str());
    }
    r.append(label.as_str());
    let mut parallel: String = String::new();
    if size > 1 {
        parallel = text::owned(" — ");
        let n: String = text::decimal(size);
        parallel.append(n.as_str());
        parallel.append(" parallel");
    }
    r.append(parallel.as_str());
    r.append("):");
    r
}

fn path_line(items: &[ItemInfo], item: &ItemInfo, id: &str, blocked: &Vec<String>) -> (r: String)
    ensures
        r@ == path_line_spec(
            critical_path::item_views(items@),
            item@,
            id@,
            text::views(blocked@),
        ),
{
    let mut r: String = text::owned("  ");
    let id_cell: String = text::pad_right(id, 14);
    r.append(id_cell.as_str());
    let title: String = critical_path::truncate(item.title.as_str(), 44);
    let title_cell: String = text::pad_right(title.as_str(), 46);
    r.append(title_cell.as_str());
    let mut assignee: String = text::owned("Any     ");
    if !text::same(item.assignee.as_str(), "-") {
        assignee = text::pad_right(item.assignee.as_str(), 8);
    }
    r.append(assignee.as_str());
    let note: String = dep_note(items, item, id, blocked, "  <- ");
    r.append(note.as_str());
    r
}

fn push_path_lines(
    items: &[ItemInfo],
    list: &Vec<String>,
    blocked: &Vec<String>,
    lines: &mut Vec<String>,
)
    ensures
        text::views(final(lines)@) == text::views(old(lines)@) + path_lines_spec(
            critical_path::item_views(items@),
            text::views(list@),
            text::views(blocked@),
            list@.len(),
        ),
{
    let ghost all = critical_path::item_views(items@);
    let ghost start = text::views(lines@);
    let ghost ids = text::views(list@);
    let ghost held = text::views(blocked@);
    let mut i: usize = 0;
    assert(text::views(lines@) =~= start + path_lines_spec(all, ids, held, 0));
    while i < list.len()
        invariant
            i <= list@.len(),
            all == critical_path::item_views(items@),
            ids == text::views(list@),
            held == text::views(blocked@),
            text::views(lines@) == start + path_lines_spec(all, ids, held, i as nat),
        decreases list@.len() - i,
    {
        match critical_path::find_item(items, list[i].as_str()) {
            Some(k) => {
                let ghost before = text::views(lines@);
                let line: String = path_line(items, &items[k], list[i].as_str(), blocked);
                let ghost shown = line@;
                lines.push(line);
                assert(text::views(lines@) =~= before.push(shown));
                assert(text::views(lines@) =~= start + path_lines_spec(
                    all,
                    ids,
                    held,
                    (i + 1) as nat,
                ));
            },
            None => {},
        }
        i = i + 1;
    }
}

fn find_bottlenecks(list: &Vec<(String, usize)>) -> (r: Vec<(String, usize)>)
    ensures
        keyed::pairs(r@) == bottlenecks(keyed::pairs(list@)),
{
    let ghost all = keyed::pairs(list@);
    let mut keys: Vec<Most> = Vec::new();
    let mut i: usize = 0;
    while i < list.len()
        invariant
            i <= list@.len(),
            keys@.len() == i,
            forall|k: int| 0 <= k < i ==> (#[trigger] keys@[k]).0 == list@[k].1,
        decreases list@.len() - i,
    {
        keys.push(Most(list[i].1));
        i = i + 1;
    }
    assert(sorting::models(keys@) =~= counts_of(all));
    let order: Vec<usize> = sorting::sort_positions(&keys);
    let ghost sorted = sorting::pick(all, order@);
    let ghost pred = |x: (Seq<char>, usize)| x.1 > 0;
    let top: usize = if order.len() > 5 {
        5
    } else {
        order.len()
    };
    let mut r: Vec<(String, usize)> = Vec::new();
    let mut j: usize = 0;
    assert(keyed::pairs(r@) =~= sorted.take(0).filter(pred));
    while j < top
        invariant
            j <= top <= order@.len(),
            all == keyed::pairs(list@),
            sorted == sorting::pick(all, order@),
            pred == (|x: (Seq<char>, usize)| x.1 > 0),
            forall|k: int| 0 <= k < order@.len() ==> (#[trigger] order@[k]) < list@.len(),
            keyed::pairs(r@) == sorted.take(j as int).filter(pred),
        decreases top - j,
    {
        assert(order@[j as int] < list@.len());
        proof {
            assert(sorted.take(j + 1) =~= sorted.take(j as int).push(sorted[j as int]));
            sorted.take(j as int).lemma_filter_push(sorted[j as int], pred);
        }
        let entry: &(String, usize) = &list[order[j]];
        if entry.1 > 0 {
            let ghost before = keyed::pairs(r@);
            r.push((entry.0.clone(), entry.1));
            assert(keyed::pairs(r@) =~= before.push(sorted[j as int]));
        }
        j = j + 1;
    }
    assert(sorted.len() <= 5 ==> sorted.take(top as int) =~= sorted);
    r
}

fn push_bottlenecks(items: &[ItemInfo], list: &Vec<(String, usize)>, lines: &mut Vec<String>)
    ensures
        text::views(final(lines)@) == text::views(old(lines)@) + bottleneck_section(
            critical_path::item_views(items@),
            keyed::pairs(list@),
        ),
{
    let ghost all = critical_path::item_views(items@);
    let ghost start = text::views(lines@);
    let top: Vec<(String, usize)> = find_bottlenecks(list);
    let ghost entries = keyed::pairs(top@);
    if top.len() == 0 {
        assert(text::views(lines@) =~= start + bottleneck_section(all, keyed::pairs(list@)));
        return;
    }
    lines.push(text::owned("Bottlenecks (most downstream dependents):"));
    let ghost head = start.push("Bottlenecks (most downstream dependents):"@);
    assert(text::views(lines@) =~= head + bottleneck_lines_spec(all, entries, 0));
    let mut i: usize = 0;
    while i < top.len()
        invariant
            i <= top@.len(),
            all == critical_path::item_views(items@),
            entries == keyed::pairs(top@),
            text::views(lines@) == head + bottleneck_lines_spec(all, entries, i as nat),
        decreases top@.len() - i,
    {
        match critical_path::find_item(items, top[i].0.as_str()) {
            Some(k) => {
                let ghost before = text::views(lines@);
                let title: String = critical_path::truncate(items[k].title.as_str(), 40);
                let mut line: String = text::owned("  ");
                let id_cell: String = text::pad_right(top[i].0.as_str(), 14);
                line.append(id_cell.as_str());
                let title_cell: String = text::pad_right(title.as_str(), 42);
                line.append(title_cell.as_str());
                line.append(" -> ");
                let count: String = text::decimal(top[i].1);
                line.append(count.as_str());
                line.append(" items depend");
                let ghost shown = line@;
                lines.push(line);
                assert(text::views(lines@) =~= before.push(shown));
                assert(text::views(lines@) =~= head + bottleneck_lines_spec(
                    all,
                    entries,
                    (i + 1) as nat,
                ));
            },
            None => {},
        }
        i = i + 1;
    }
    let ghost filled = text::views(lines@);
    lines.push(text::owned(""));
    assert(text::views(lines@) =~= filled.push(""@));
    assert(text::views(lines@) =~= start + bottleneck_section(all, keyed::pairs(list@)));
}

/// The critical path as text.
pub fn format_critical_path(items: &[ItemInfo], cp: &CriticalPathResult) -> (r: String)
    requires
        last_level(level_views(cp.depth_groups@)) < u32::MAX,
        listed(level_views(cp.depth_groups@), cp.depth_groups@.len()) <= usize::MAX,
    ensures
        r@ == critical_path_text(
            critical_path::item_views(items@),
            level_views(cp.depth_groups@),
            text::views(cp.blocked@),
            keyed::pairs(cp.downstream_count@),
        ),
{
    let ghost all = critical_path::item_views(items@);
    let ghost groups = level_views(cp.depth_groups@);
    let ghost held = text::views(cp.blocked@);
    let mut total: usize = 0;
    let mut i: usize = 0;
    while i < cp.depth_groups.len()
        invariant
            i <= cp.depth_groups@.len(),
            groups == level_views(cp.depth_groups@),
            listed(groups, groups.len()) <= usize::MAX,
            total == listed(groups, i as nat),
        decreases cp.depth_groups@.len() - i,
    {
        proof {
            lemma_listed_grows(groups, (i + 1) as nat, groups.len());
            assert(groups[i as int].1.len() == cp.depth_groups@[i as int].1@.len());
        }
        total = total + cp.depth_groups[i].1.len();
        i = i + 1;
    }
    let last: u32 = if cp.depth_groups.len() == 0 {
        0
    } else {
        cp.depth_groups[cp.depth_groups.len() - 1].0
    };
    let mut head: String = text::owned("Critical Path (");
    let n: String = text::decimal(total);
    head.append(n.as_str());
    head.append(" items, ");
    let levels: String = text::decimal_u64((last + 1) as u64);
    head.append(levels.as_str());
    head.append(" depth levels):");
    let mut lines: Vec<String> = Vec::new();
    lines.push(head);
    lines.push(text::owned(""));
    let ghost start = seq![path_head_spec(groups), ""@];
    assert(text::views(lines@) =~= start + level_lines_spec(all, groups, held, 0));
    let mut l: usize = 0;
    while l < cp.depth_groups.len()
        invariant
            l <= cp.depth_groups@.len(),
            all == critical_path::item_views(items@),
            groups == level_views(cp.depth_groups@),
            held == text::views(cp.blocked@),
            text::views(lines@) == start + level_lines_spec(all, groups, held, l as nat),
        decreases cp.depth_groups@.len() - l,
    {
        let group: &(u32, Vec<String>) = &cp.depth_groups[l];
        let ghost before = text::views(lines@);
        let ghost before_levels = level_lines_spec(all, groups, held, l as nat);
        assert(groups[l as int] == (group.0, text::views(group.1@)));
        lines.push(level_head(group.0, group.1.len()));
        assert(text::views(lines@) =~= before.push(level_head_spec(group.0, group.1@.len())));
        push_path_lines(items, &group.1, &cp.blocked, &mut lines);
        let ghost filled = text::views(lines@);
        lines.push(text::owned(""));
        assert(text::views(lines@) =~= filled.push(""@));
        assert(text::views(lines@) =~= start + level_lines_spec(
            all,
            groups,
            held,
            (l + 1) as nat,
        ));
        l = l + 1;
    }
    push_bottlenecks(items, &cp.downstream_count, &mut lines);
    text::join(&lines, "\n")
}

proof fn lemma_listed_grows(groups: Seq<(u32, Seq<Seq<char>>)>, m: nat, n: nat)
    requires
        m <= n <= groups.len(),
    ensures
        listed(groups, m) <= listed(groups, n),
    decreases n - m,
{
    if m < n {
        lemma_listed_grows(groups, m, (n - 1) as nat);
    }
}

// ---- what is shown, by the items --------------------------------------------------------------------------------

/// Whether a status says that work is finished.
pub open spec fn is_finished_word(s: Seq<char>) -> bool {
    s == "done"@ || s == "complete"@ || s == "retired"@
}

/// An item is shown as finished by the words for it, then as in progress or under review by
/// its status, and of the rest as blocked or ready.
pub proof fn law_items_are_shown_by_status(item: ItemView, blocked: Seq<Seq<char>>)
    ensures
        ({
            let label = status_display_spec(item, blocked).1;
            &&& label == "done"@ <==> is_finished_word(item.status)
            &&& label == "IN PROGRESS"@ <==> item.status == "in_progress"@
            &&& label == "REVIEW"@ <==> item.status == "review"@
            &&& label == "BLOCKED"@ <==> !is_finished_word(item.status) && item.status
                != "in_progress"@ && item.status != "review"@ && blocked.contains(item.id)
            &&& label == "READY"@ <==> !is_finished_word(item.status) && item.status
                != "in_progress"@ && item.status != "review"@ && !blocked.contains(item.id)
        }),
{
    reveal_strlit("done");
    reveal_strlit("IN PROGRESS");
    reveal_strlit("REVIEW");
    reveal_strlit("BLOCKED");
    reveal_strlit("READY");
    reveal_strlit("in_progress");
    reveal_strlit("review");
    reveal_strlit("complete");
    reveal_strlit("retired");
    assert("done"@[0] == 'd' && "IN PROGRESS"@[0] == 'I' && "REVIEW"@[2] == 'V');
    assert("BLOCKED"@[0] == 'B' && "READY"@[2] == 'A' && "REVIEW"@[0] == 'R');
    assert("in_progress"@[0] == 'i' && "review"@[0] == 'r' && "review"@[2] == 'v');
    assert("complete"@[0] == 'c' && "retired"@[2] == 't' && "retired"@[0] == 'r');
}

/// Whether the last item with an id is not finished.
pub open spec fn is_unfinished(items: Seq<ItemView>, id: Seq<char>) -> bool {
    exists|i: int|
        0 <= i < items.len() && (#[trigger] items[i]).id == id && !is_finished_word(items[i].status)
            && forall|k: int| i < k < items.len() ==> (#[trigger] items[k]).id != id
}

proof fn lemma_unfinished(items: Seq<ItemView>, id: Seq<char>)
    ensures
        is_open_item(items, id) == is_unfinished(items, id),
    decreases items.len(),
{
    if items.len() > 0 {
        let last = items.len() - 1;
        if items.last().id == id {
            assert(items[last].id == id);
            assert(is_unfinished(items, id) ==> !is_finished_word(items[last].status)) by {
                if is_unfinished(items, id) {
                    let i = choose|i: int|
                        0 <= i < items.len() && (#[trigger] items[i]).id == id && !is_finished_word(
                            items[i].status,
                        ) && forall|k: int| i < k < items.len() ==> (#[trigger] items[k]).id != id;
                    if i < last {
                        assert(items[last].id != id);
                    }
                }
            }
        } else {
            let init = items.drop_last();
            lemma_unfinished(init, id);
            if is_unfinished(init, id) {
                let i = choose|i: int|
                    0 <= i < init.len() && (#[trigger] init[i]).id == id && !is_finished_word(
                        init[i].status,
                    ) && forall|k: int| i < k < init.len() ==> (#[trigger] init[k]).id != id;
                assert forall|k: int| i < k < items.len() implies (#[trigger] items[k]).id
                    != id by {
                    if k < last {
                        assert(init[k].id != id);
                    }
                }
                assert(items[i].id == id);
            }
            if is_unfinished(items, id) {
                let i = choose|i: int|
                    0 <= i < items.len() && (#[trigger] items[i]).id == id && !is_finished_word(
                        items[i].status,
                    ) && forall|k: int| i < k < items.len() ==> (#[trigger] items[k]).id != id;
                assert forall|k: int| i < k < init.len() implies (#[trigger] init[k]).id != id by {
                    assert(items[k].id != id);
                }
                assert(init[i].id == id);
            }
        }
    }
}

/// What an item is shown to wait for are those of its dependencies that are not finished.
pub proof fn law_open_dependencies_are_named(
    items: Seq<ItemView>,
    list: Seq<Seq<char>>,
    n: nat,
    id: Seq<char>,
)
    requires
        n <= list.len(),
    ensures
        unmet_deps(items, list, n).contains(id) <==> list.take(n as int).contains(id)
            && is_unfinished(items, id),
    decreases n,
{
    if n > 0 {
        let m = (n - 1) as nat;
        law_open_dependencies_are_named(items, list, m, id);
        lemma_unfinished(items, list[n - 1]);
        assert(list.take(n as int) =~= list.take(m as int).push(list[n - 1]));
        vstd::seq_lib::lemma_seq_contains_after_push(list.take(m as int), list[n - 1], id);
        vstd::seq_lib::lemma_seq_contains_after_push(unmet_deps(items, list, m), list[n - 1], id);
    } else {
        assert(list.take(0).len() == 0);
    }
}

/// The items of a group are all shown, and none goes before one that is less deep.
pub proof fn law_groups_go_by_depth(
    items: Seq<ItemView>,
    depth: Seq<(Seq<char>, u32)>,
    list: Seq<Seq<char>>,
    i: int,
    j: int,
    id: Seq<char>,
)
    requires
        list.len() <= usize::MAX,
    ensures
        placed(items, depth, list).len() == list.len(),
        placed(items, depth, list).contains(id) == list.contains(id),
        0 <= i < j < list.len() ==> ({
            let a = keyed::lookup_spec(depth, placed(items, depth, list)[i]);
            let b = keyed::lookup_spec(depth, placed(items, depth, list)[j]);
            (a is Some && b is Some ==> a->0 <= b->0) && (b is None && a is Some ==> a->0 == 0)
        }),
{
    let keys = place_keys(items, depth, list);
    sorting::lemma_stable_order_exists::<(u32, u8, i32, i32)>(keys);
    let order = sorting::stable_order::<(u32, u8, i32, i32)>(keys);
    let shown = placed(items, depth, list);
    if shown.contains(id) {
        let k = choose|k: int| 0 <= k < shown.len() && shown[k] == id;
        assert(list[order[k] as int] == id);
    }
    if list.contains(id) {
        let k = choose|k: int| 0 <= k < list.len() && list[k] == id;
        assert(order.contains(k as usize));
        let p = choose|p: int| 0 <= p < order.len() && order[p] == k as usize;
        assert(shown[p] == id);
    }
    if 0 <= i < j < list.len() {
        assert(<(u32, u8, i32, i32) as SortKey>::precedes(
            keys[order[i] as int],
            keys[order[j] as int],
        ));
        assert(shown[i] == list[order[i] as int] && shown[j] == list[order[j] as int]);
    }
}

proof fn lemma_group_line(
    items: Seq<ItemView>,
    groups: Seq<GroupView>,
    depth: Seq<(Seq<char>, u32)>,
    blocked: Seq<Seq<char>>,
    n: nat,
    g: int,
    line: Seq<char>,
)
    requires
        0 <= g < n <= groups.len(),
        ({
            let list = placed(items, depth, groups[g].items);
            line == progress_spec(groups[g]) || item_lines_spec(
                items,
                list,
                blocked,
                true,
                list.len(),
            ).contains(line)
        }),
    ensures
        group_lines_spec(items, groups, depth, blocked, n).contains(line),
    decreases n,
{
    let m = (n - 1) as nat;
    let before = group_lines_spec(items, groups, depth, blocked, m);
    let list = placed(items, depth, groups[n - 1].items);
    let lines = item_lines_spec(items, list, blocked, true, list.len());
    let head = before.push(progress_spec(groups[n - 1]));
    vstd::seq_lib::lemma_seq_contains_after_push(before, progress_spec(groups[n - 1]), line);
    vstd::seq_lib::lemma_seq_concat_contains_all_elements(head, lines, line);
    vstd::seq_lib::lemma_seq_contains_after_push(head + lines, ""@, line);
    if g < m {
        lemma_group_line(items, groups, depth, blocked, m, g, line);
    }
}

proof fn lemma_item_line(
    items: Seq<ItemView>,
    list: Seq<Seq<char>>,
    blocked: Seq<Seq<char>>,
    with_deps: bool,
    n: nat,
    k: int,
)
    requires
        0 <= k < n <= list.len(),
        critical_path::item_of(items, list[k]) is Some,
    ensures
        item_lines_spec(items, list, blocked, with_deps, n).contains(
            item_line_spec(
                items,
                critical_path::item_of(items, list[k])->0,
                list[k],
                blocked,
                with_deps,
            ),
        ),
    decreases n,
{
    let m = (n - 1) as nat;
    let before = item_lines_spec(items, list, blocked, with_deps, m);
    let line = item_line_spec(
        items,
        critical_path::item_of(items, list[k])->0,
        list[k],
        blocked,
        with_deps,
    );
    if k < m {
        lemma_item_line(items, list, blocked, with_deps, m, k);
    }
    match critical_path::item_of(items, list[n - 1]) {
        Some(item) => {
            vstd::seq_lib::lemma_seq_contains_after_push(
                before,
                item_line_spec(items, item, list[n - 1], blocked, with_deps),
                line,
            );
        },
        None => {},
    }
}

/// A roadmap shows the head of every group and a line for each item of it that is on the
/// board, and a line for each item under no voyage.
pub proof fn law_roadmaps_show_every_item(
    items: Seq<ItemView>,
    groups: Seq<GroupView>,
    orphans: Seq<Seq<char>>,
    depth: Seq<(Seq<char>, u32)>,
    blocked: Seq<Seq<char>>,
    g: int,
    id: Seq<char>,
)
    requires
        forall|k: int| 0 <= k < groups.len() ==> (#[trigger] groups[k]).items.len() <= usize::MAX,
    ensures
        ({
            let shown = roadmap_spec(items, groups, orphans, depth, blocked);
            let item = critical_path::item_of(items, id);
            &&& 0 <= g < groups.len() ==> text::contains_spec(shown, progress_spec(groups[g]))
            &&& 0 <= g < groups.len() && groups[g].items.contains(id) && item is Some
                ==> text::contains_spec(shown, item_line_spec(items, item->0, id, blocked, true))
            &&& orphans.contains(id) && item is Some ==> text::contains_spec(
                shown,
                item_line_spec(items, item->0, id, blocked, false),
            )
        }),
{
    let a = group_lines_spec(items, groups, depth, blocked, groups.len());
    let b = orphan_lines_spec(items, orphans, blocked);
    let item = critical_path::item_of(items, id);
    if 0 <= g < groups.len() {
        let head = progress_spec(groups[g]);
        lemma_group_line(items, groups, depth, blocked, groups.len(), g, head);
        vstd::seq_lib::lemma_seq_concat_contains_all_elements(a, b, head);
        lemma_shown(a + b, head);
        if groups[g].items.contains(id) && item is Some {
            let list = placed(items, depth, groups[g].items);
            law_groups_go_by_depth(items, depth, groups[g].items, 0, 0, id);
            let k = choose|k: int| 0 <= k < list.len() && list[k] == id;
            let line = item_line_spec(items, item->0, id, blocked, true);
            lemma_item_line(items, list, blocked, true, list.len(), k);
            lemma_group_line(items, groups, depth, blocked, groups.len(), g, line);
            vstd::seq_lib::lemma_seq_concat_contains_all_elements(a, b, line);
            lemma_shown(a + b, line);
        }
    }
    if orphans.contains(id) && item is Some {
        let k = choose|k: int| 0 <= k < orphans.len() && orphans[k] == id;
        let line = item_line_spec(items, item->0, id, blocked, false);
        let lines = item_lines_spec(items, orphans, blocked, false, orphans.len());
        lemma_item_line(items, orphans, blocked, false, orphans.len(), k);
        vstd::seq_lib::lemma_seq_concat_contains_all_elements(seq!["Ungrouped:"@], lines, line);
        vstd::seq_lib::lemma_seq_contains_after_push(seq!["Ungrouped:"@] + lines, ""@, line);
        vstd::seq_lib::lemma_seq_concat_contains_all_elements(a, b, line);
        lemma_shown(a + b, line);
    }
}

proof fn lemma_shown(lines: Seq<Seq<char>>, line: Seq<char>)
    requires
        lines.contains(line),
    ensures
        text::contains_spec(text::join_spec(lines, "\n"@), line),
{
    let i = choose|i: int| 0 <= i < lines.len() && lines[i] == line;
    text::law_joined_text_has_every_part(lines, "\n"@, i);
}

/// The groups of a campaign are those of the voyages that are its members.
pub proof fn law_campaigns_show_their_members(
    groups: Seq<GroupView>,
    members: Seq<Seq<char>>,
    n: nat,
    group: GroupView,
)
    requires
        n <= groups.len(),
    ensures
        member_groups(groups, members, n).contains(group) <==> groups.take(n as int).contains(group)
            && members.contains(group.voyage_id),
    decreases n,
{
    if n > 0 {
        let m = (n - 1) as nat;
        law_campaigns_show_their_members(groups, members, m, group);
        assert(groups.take(n as int) =~= groups.take(m as int).push(groups[n - 1]));
        vstd::seq_lib::lemma_seq_contains_after_push(groups.take(m as int), groups[n - 1], group);
        vstd::seq_lib::lemma_seq_contains_after_push(
            member_groups(groups, members, m),
            groups[n - 1],
            group,
        );
    } else {
        assert(groups.take(0).len() == 0);
    }
}

/// The share that is done is in percent, rounded down.
pub proof fn law_shares_are_rounded_down(done: nat, total: nat)
    requires
        total > 0,
    ensures
        percent_spec(done, total) * total <= done * 100,
        done * 100 < percent_spec(done, total) * total + total,
        done == total ==> percent_spec(done, total) == 100,
        done <= total ==> percent_spec(done, total) <= 100,
{
    let q = done * 100 / total;
    vstd::arithmetic::div_mod::lemma_fundamental_div_mod((done * 100) as int, total as int);
    vstd::arithmetic::mul::lemma_mul_is_commutative(q as int, total as int);
    if done == total {
        vstd::arithmetic::div_mod::lemma_div_multiples_vanish(100, total as int);
    }
    if done <= total && q > 100 {
        assert(q * total >= 101 * total) by (nonlinear_arith)
            requires
                q > 100,
                total > 0,
        ;
    }
}

/// The bottlenecks are at most five, with the most that wait for them first; whatever is
/// not among them has none that wait for it, or no more than any of the five.
pub proof fn law_bottlenecks_are_the_worst_five(
    list: Seq<(Seq<char>, usize)>,
    x: (Seq<char>, usize),
    i: int,
    j: int,
)
    requires
        list.len() <= usize::MAX,
    ensures
        bottlenecks(list).len() <= 5,
        0 <= i < j < bottlenecks(list).len() ==> bottlenecks(list)[i].1 >= bottlenecks(list)[j].1,
        bottlenecks(list).contains(x) ==> list.contains(x) && x.1 > 0,
        list.contains(x) && x.1 > 0 && !bottlenecks(list).contains(x) ==> bottlenecks(list).len()
            == 5 && (0 <= i < 5 ==> bottlenecks(list)[i].1 >= x.1),
{
    let keys = counts_of(list);
    sorting::lemma_stable_order_exists::<Most>(keys);
    let order = sorting::stable_order::<Most>(keys);
    let sorted = sorting::pick(list, order);
    let top = if sorted.len() > 5 {
        sorted.take(5)
    } else {
        sorted
    };
    let f = |x: (Seq<char>, usize)| x.1 > 0;
    let shown = top.filter(f);
    assert forall|a: int, b: int| 0 <= a < b < sorted.len() implies (#[trigger] sorted[a]).1 >= (
    #[trigger] sorted[b]).1 by {
        assert(<Most as SortKey>::precedes(keys[order[a] as int], keys[order[b] as int]));
    }
    top.lemma_filter_len(f);
    lemma_filter_keeps_order(top);
    if shown.contains(x) {
        top.lemma_filter_contains_rev(f, x);
        let k = choose|k: int| 0 <= k < shown.len() && shown[k] == x;
        top.lemma_filter_pred(f, k);
        let p = choose|p: int| 0 <= p < top.len() && top[p] == x;
        assert(list[order[p] as int] == x);
    }
    if list.contains(x) && x.1 > 0 && !shown.contains(x) {
        let k = choose|k: int| 0 <= k < list.len() && list[k] == x;
        assert(order.contains(k as usize));
        let p = choose|p: int| 0 <= p < order.len() && order[p] == k as usize;
        assert(sorted[p] == x);
        if p < top.len() {
            top.lemma_filter_contains(f, p);
        }
        assert forall|q: int| 0 <= q < 5 implies (#[trigger] top[q]).1 >= x.1 by {
            assert(top[q] == sorted[q]);
        }
        lemma_filter_keeps_all(top);
    }
}

proof fn lemma_filter_keeps_all(list: Seq<(Seq<char>, usize)>)
    requires
        forall|q: int| 0 <= q < list.len() ==> (#[trigger] list[q]).1 > 0,
    ensures
        list.filter(|x: (Seq<char>, usize)| x.1 > 0) == list,
    decreases list.len(),
{
    reveal(Seq::filter);
    if list.len() > 0 {
        let init = list.drop_last();
        assert forall|q: int| 0 <= q < init.len() implies (#[trigger] init[q]).1 > 0 by {
            assert(list[q].1 > 0);
        }
        lemma_filter_keeps_all(init);
        assert(list[list.len() - 1].1 > 0);
        assert(init.push(list.last()) =~= list);
    } else {
        assert(list.filter(|x: (Seq<char>, usize)| x.1 > 0) =~= list);
    }
}

proof fn lemma_filter_keeps_order(list: Seq<(Seq<char>, usize)>)
    requires
        forall|a: int, b: int|
            0 <= a < b < list.len() ==> (#[trigger] list[a]).1 >= (#[trigger] list[b]).1,
    ensures
        ({
            let shown = list.filter(|x: (Seq<char>, usize)| x.1 > 0);
            forall|a: int, b: int|
                0 <= a < b < shown.len() ==> (#[trigger] shown[a]).1 >= (#[trigger] shown[b]).1
        }),
    decreases list.len(),
{
    reveal(Seq::filter);
    let f = |x: (Seq<char>, usize)| x.1 > 0;
    let shown = list.filter(f);
    if list.len() > 0 {
        let init = list.drop_last();
        assert forall|a: int, b: int| 0 <= a < b < init.len() implies (#[trigger] init[a]).1 >= (
        #[trigger] init[b]).1 by {
            assert(list[a].1 >= list[b].1);
        }
        lemma_filter_keeps_order(init);
        let before = init.filter(f);
        assert forall|a: int| 0 <= a < before.len() implies (#[trigger] before[a]).1
            >= list.last().1 by {
            init.lemma_filter_contains_rev(f, before[a]);
            let p = choose|p: int| 0 <= p < init.len() && init[p] == before[a];
            assert(list[p].1 >= list[list.len() - 1].1);
        }
    }
}

proof fn lemma_path_line(
    items: Seq<ItemView>,
    list: Seq<Seq<char>>,
    blocked: Seq<Seq<char>>,
    n: nat,
    k: int,
)
    requires
        0 <= k < n <= list.len(),
        critical_path::item_of(items, list[k]) is Some,
    ensures
        path_lines_spec(items, list, blocked, n).contains(
            path_line_spec(items, critical_path::item_of(items, list[k])->0, list[k], blocked),
        ),
    decreases n,
{
    let m = (n - 1) as nat;
    let before = path_lines_spec(items, list, blocked, m);
    let line = path_line_spec(items, critical_path::item_of(items, list[k])->0, list[k], blocked);
    if k < m {
        lemma_path_line(items, list, blocked, m, k);
    }
    match critical_path::item_of(items, list[n - 1]) {
        Some(item) => {
            vstd::seq_lib::lemma_seq_contains_after_push(
                before,
                path_line_spec(items, item, list[n - 1], blocked),
                line,
            );
        },
        None => {},
    }
}

proof fn lemma_level_line(
    items: Seq<ItemView>,
    groups: Seq<(u32, Seq<Seq<char>>)>,
    blocked: Seq<Seq<char>>,
    n: nat,
    g: int,
    line: Seq<char>,
)
    requires
        0 <= g < n <= groups.len(),
        line == level_head_spec(groups[g].0, groups[g].1.len()) || path_lines_spec(
            items,
            groups[g].1,
            blocked,
            groups[g].1.len(),
        ).contains(line),
    ensures
        level_lines_spec(items, groups, blocked, n).contains(line),
    decreases n,
{
    let m = (n - 1) as nat;
    let before = level_lines_spec(items, groups, blocked, m);
    let list = groups[n - 1].1;
    let title = level_head_spec(groups[n - 1].0, list.len());
    let lines = path_lines_spec(items, list, blocked, list.len());
    vstd::seq_lib::lemma_seq_contains_after_push(before, title, line);
    vstd::seq_lib::lemma_seq_concat_contains_all_elements(before.push(title), lines, line);
    vstd::seq_lib::lemma_seq_contains_after_push(before.push(title) + lines, ""@, line);
    if g < m {
        lemma_level_line(items, groups, blocked, m, g, line);
    }
}

/// The critical path shows the head of every level and a line for each item of it that is
/// on the board.
pub proof fn law_critical_paths_show_every_level(
    items: Seq<ItemView>,
    groups: Seq<(u32, Seq<Seq<char>>)>,
    blocked: Seq<Seq<char>>,
    downstream: Seq<(Seq<char>, usize)>,
    g: int,
    id: Seq<char>,
)
    requires
        0 <= g < groups.len(),
    ensures
        ({
            let shown = critical_path_text(items, groups, blocked, downstream);
            let item = critical_path::item_of(items, id);
            &&& text::contains_spec(shown, level_head_spec(groups[g].0, groups[g].1.len()))
            &&& groups[g].1.contains(id) && item is Some ==> text::contains_spec(
                shown,
                path_line_spec(items, item->0, id, blocked),
            )
        }),
{
    let a = seq![path_head_spec(groups), ""@];
    let b = level_lines_spec(items, groups, blocked, groups.len());
    let c = bottleneck_section(items, downstream);
    let title = level_head_spec(groups[g].0, groups[g].1.len());
    lemma_level_line(items, groups, blocked, groups.len(), g, title);
    vstd::seq_lib::lemma_seq_concat_contains_all_elements(a, b, title);
    vstd::seq_lib::lemma_seq_concat_contains_all_elements(a + b, c, title);
    lemma_shown(a + b + c, title);
    let item = critical_path::item_of(items, id);
    if groups[g].1.contains(id) && item is Some {
        let k = choose|k: int| 0 <= k < groups[g].1.len() && groups[g].1[k] == id;
        let line = path_line_spec(items, item->0, id, blocked);
        lemma_path_line(items, groups[g].1, blocked, groups[g].1.len(), k);
        lemma_level_line(items, groups, blocked, groups.len(), g, line);
        vstd::seq_lib::lemma_seq_concat_contains_all_elements(a, b, line);
        vstd::seq_lib::lemma_seq_concat_contains_all_elements(a + b, c, line);
        lemma_shown(a + b + c, line);
    }
}

proof fn lemma_bottleneck_line(
    items: Seq<ItemView>,
    list: Seq<(Seq<char>, usize)>,
    n: nat,
    k: int,
)
    requires
        0 <= k < n <= list.len(),
        critical_path::item_of(items, list[k].0) is Some,
    ensures
        exists|i: int|
            0 <= i < bottleneck_lines_spec(items, list, n).len() && text::contains_spec(
                #[trigger] bottleneck_lines_spec(items, list, n)[i],
                text::decimal_spec(list[k].1 as nat) + " items depend"@,
            ),
    decreases n,
{
    let m = (n - 1) as nat;
    let before = bottleneck_lines_spec(items, list, m);
    let all = bottleneck_lines_spec(items, list, n);
    let part = text::decimal_spec(list[k].1 as nat) + " items depend"@;
    if k < m {
        lemma_bottleneck_line(items, list, m, k);
        let i = choose|i: int|
            0 <= i < before.len() && text::contains_spec(#[trigger] before[i], part);
        assert(all[i] == before[i]);
    } else {
        let item = critical_path::item_of(items, list[k].0)->0;
        let head = "  "@ + text::pad_right_spec(list[k].0, 14) + text::pad_right_spec(
            critical_path::truncate_spec(item.title, 40),
            42,
        ) + " -> "@;
        let none = Seq::<char>::empty();
        assert(part.subrange(0, part.len() as int) =~= part);
        assert(text::occurs_at(part, part, 0));
        text::lemma_contains_in_part(head, part, none, part);
        lemma_grouped_text(head, text::decimal_spec(list[k].1 as nat), " items depend"@);
        assert(head + part + none =~= head + part);
        assert(text::contains_spec(all[all.len() - 1], part));
    }
}

proof fn lemma_grouped_text(a: Seq<char>, b: Seq<char>, c: Seq<char>)
    ensures
        a + b + c == a + (b + c),
{
    assert(a + b + c =~= a + (b + c));
}

/// The critical path shows how many wait for each bottleneck that is on the board.
pub proof fn law_bottlenecks_are_shown(
    items: Seq<ItemView>,
    groups: Seq<(u32, Seq<Seq<char>>)>,
    blocked: Seq<Seq<char>>,
    downstream: Seq<(Seq<char>, usize)>,
    k: int,
)
    requires
        0 <= k < bottlenecks(downstream).len(),
        critical_path::item_of(items, bottlenecks(downstream)[k].0) is Some,
    ensures
        text::contains_spec(
            critical_path_text(items, groups, blocked, downstream),
            text::decimal_spec(bottlenecks(downstream)[k].1 as nat) + " items depend"@,
        ),
{
    let top = bottlenecks(downstream);
    let part = text::decimal_spec(top[k].1 as nat) + " items depend"@;
    let rows = bottleneck_lines_spec(items, top, top.len());
    lemma_bottleneck_line(items, top, top.len(), k);
    let i = choose|i: int| 0 <= i < rows.len() && text::contains_spec(#[trigger] rows[i], part);
    let line = rows[i];
    let a = seq![path_head_spec(groups), ""@] + level_lines_spec(
        items,
        groups,
        blocked,
        groups.len(),
    );
    let title = seq!["Bottlenecks (most downstream dependents):"@];
    let c = bottleneck_section(items, downstream);
    assert(rows.contains(line));
    vstd::seq_lib::lemma_seq_concat_contains_all_elements(title, rows, line);
    vstd::seq_lib::lemma_seq_contains_after_push(title + rows, ""@, line);
    vstd::seq_lib::lemma_seq_concat_contains_all_elements(a, c, line);
    let lines = a + c;
    let p = choose|p: int| 0 <= p < lines.len() && lines[p] == line;
    text::law_joined_text_has_every_part(lines, "\n"@, p);
    let shown = critical_path_text(items, groups, blocked, downstream);
    let q = choose|q: int| text::occurs_at(shown, line, q);
    text::lemma_contains_in_part(shown.take(q), line, shown.skip(q + line.len()), part);
    assert(shown.take(q) + line + shown.skip(q + line.len()) =~= shown);
}

/// The items of a campaign are those that are a voyage of it or work under one.
pub proof fn law_campaigns_have_their_items(
    items: Seq<ItemView>,
    groups: Seq<GroupView>,
    x: ItemView,
)
    ensures
        campaign_items(items, groups).contains(x) <==> items.contains(x) && exists|i: int|
            0 <= i < groups.len() && ((#[trigger] groups[i]).voyage_id == x.id
                || groups[i].items.contains(x.id)),
{
    let f = |x: ItemView| in_groups(groups, x.id);
    let kept = items.filter(f);
    if kept.contains(x) {
        items.lemma_filter_contains_rev(f, x);
        let k = choose|k: int| 0 <= k < kept.len() && kept[k] == x;
        items.lemma_filter_pred(f, k);
    }
    if items.contains(x) && in_groups(groups, x.id) {
        let k = choose|k: int| 0 <= k < items.len() && items[k] == x;
        items.lemma_filter_contains(f, k);
    }
}

/// The head of a campaign says how many voyages it has and, where it has any, how many of
/// their expeditions are done and how many there are.
pub proof fn law_campaign_heads_say_the_numbers(
    items: Seq<ItemView>,
    members: Seq<Seq<char>>,
    id: Seq<char>,
)
    ensures
        ({
            let (count, done, total) = roadmap::aggregate_spec(items, members);
            let head = campaign_head_spec(items, members, id);
            &&& ("Campaign "@ + id + " — "@ + text::decimal_spec(count)
                + " member voyage(s) [partOf]:\n"@).is_prefix_of(head)
            &&& count > 0 ==> text::contains_spec(
                head,
                text::decimal_spec(done) + "/"@ + text::decimal_spec(total),
            )
        }),
{
    let (count, done, total) = roadmap::aggregate_spec(items, members);
    let first = "Campaign "@ + id + " — "@ + text::decimal_spec(count)
        + " member voyage(s) [partOf]:\n"@;
    let head = campaign_head_spec(items, members, id);
    assert(first.is_prefix_of(head));
    if count > 0 {
        let start = first + "  Program: "@;
        let part = text::decimal_spec(done) + "/"@ + text::decimal_spec(total);
        let end = " expeditions done ("@ + text::decimal_spec(percent_spec(done, total))
            + "%)\n\n"@;
        assert(part.subrange(0, part.len() as int) =~= part);
        assert(text::occurs_at(part, part, 0));
        text::lemma_contains_in_part(start, part, end, part);
        lemma_grouped_text(start, text::decimal_spec(done), "/"@);
        lemma_grouped_text(start, text::decimal_spec(done) + "/"@, text::decimal_spec(total));
        lemma_grouped_text(
            start + part,
            " expeditions done ("@,
            text::decimal_spec(percent_spec(done, total)),
        );
        lemma_grouped_text(
            start + part,
            " expeditions done ("@ + text::decimal_spec(percent_spec(done, total)),
            "%)\n\n"@,
        );
    }
}

/// A campaign is shown with its head, whatever follows.
pub proof fn law_campaigns_start_with_their_head(
    items: Seq<ItemView>,
    members: Seq<Seq<char>>,
    id: Seq<char>,
    shown: Seq<char>,
)
    requires
        is_campaign_view(items, members, id, shown),
    ensures
        campaign_head_spec(items, members, id).is_prefix_of(shown),
        roadmap::aggregate_spec(items, members).0 == 0 ==> shown == campaign_head_spec(
            items,
            members,
            id,
        ),
{
}

} // verus!
