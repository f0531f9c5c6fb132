//! Roadmaps: items grouped under their voyages, and the text views of a board.
use vstd::prelude::*;
use crate::critical_path;
use crate::critical_path::ItemInfo;
use crate::critical_path::ItemView;
use crate::relations;
use crate::relations::EdgeView;
use crate::relations::RelationsStore;
use crate::sorting;
use crate::sorting::SortKey;
use crate::text;

verus! {

/// A voyage with the items under it.
#[derive(Debug)]
pub struct VoyageGroup {
    pub voyage_id: String,
    pub voyage_title: String,
    pub voyage_status: String,
    pub items: Vec<String>,
    pub done_count: usize,
    pub total_count: usize,
}

#[verifier::ext_equal]
pub struct GroupView {
    pub voyage_id: Seq<char>,
    pub voyage_title: Seq<char>,
    pub voyage_status: Seq<char>,
    pub items: Seq<Seq<char>>,
    pub done_count: nat,
    pub total_count: nat,
}

impl View for VoyageGroup {
    type V = GroupView;

    open spec fn view(&self) -> GroupView {
        GroupView {
            voyage_id: self.voyage_id@,
            voyage_title: self.voyage_title@,
            voyage_status: self.voyage_status@,
            items: text::views(self.items@),
            done_count: self.done_count as nat,
            total_count: self.total_count as nat,
        }
    }
}

pub open spec fn group_views(groups: Seq<VoyageGroup>) -> Seq<GroupView> {
    Seq::new(groups.len(), |i: int| groups[i]@)
}

// ---- grouping -----------------------------------------------------------------------

pub open spec fn is_voyage(item: ItemView) -> bool {
    item.item_type == "voyage"@
}

/// Whether a voyage has this id.
pub open spec fn is_voyage_id(items: Seq<ItemView>, id: Seq<char>) -> bool {
    exists|i: int| 0 <= i < items.len() && (#[trigger] items[i]).id == id && is_voyage(items[i])
}

/// `id` once for every time that `related` names the voyage, among its first `n`
/// entries.
pub open spec fn named_times(
    related: Seq<Seq<char>>,
    voyage: Seq<char>,
    id: Seq<char>,
    n: nat,
) -> Seq<Seq<char>>
    decreases n,
{
    if n == 0 {
        Seq::empty()
    } else {
        let before = named_times(related, voyage, id, (n - 1) as nat);
        if related[n - 1] == voyage {
            before.push(id)
        } else {
            before
        }
    }
}

/// The ids of the items under a voyage, among the first `n` items: those that are
/// no voyages themselves and name it among their related items.
pub open spec fn children(items: Seq<ItemView>, voyage: Seq<char>, n: nat) -> Seq<Seq<char>>
    decreases n,
{
    if n == 0 {
        Seq::empty()
    } else {
        let before = children(items, voyage, (n - 1) as nat);
        let item = items[n - 1];
        if is_voyage(item) {
            before
        } else {
            before + named_times(item.related, voyage, item.id, item.related.len())
        }
    }
}

/// How many of the first `n` ids belong to finished items.
pub open spec fn done_among(items: Seq<ItemView>, list: Seq<Seq<char>>, n: nat) -> nat
    decreases n,
{
    if n == 0 {
        0
    } else {
        done_among(items, list, (n - 1) as nat) + if is_done_item(items, list[n - 1]) {
            1nat
        } else {
            0nat
        }
    }
}

pub open spec fn is_done_item(items: Seq<ItemView>, id: Seq<char>) -> bool {
    match critical_path::item_of(items, id) {
        Some(item) => critical_path::is_done(item.status),
        None => false,
    }
}

/// The group of a voyage.
pub open spec fn group_of(items: Seq<ItemView>, voyage: ItemView) -> GroupView {
    let under = children(items, voyage.id, items.len());
    GroupView {
        voyage_id: voyage.id,
        voyage_title: voyage.title,
        voyage_status: voyage.status,
        items: under,
        done_count: done_among(items, under, under.len()),
        total_count: under.len(),
    }
}

/// Whether a group needs no more attention: its voyage is done and so is
/// everything under it.
pub open spec fn is_closed(group: GroupView) -> bool {
    (group.voyage_status == "done"@ || group.voyage_status == "complete"@) && group.done_count
        == group.total_count
}

/// The groups of the voyages among the first `n` items that still need attention.
pub open spec fn open_groups(items: Seq<ItemView>, n: nat) -> Seq<GroupView>
    decreases n,
{
    if n == 0 {
        Seq::empty()
    } else {
        let before = open_groups(items, (n - 1) as nat);
        let item = items[n - 1];
        if is_voyage(item) && !is_closed(group_of(items, item)) {
            before.push(group_of(items, item))
        } else {
            before
        }
    }
}

/// The place of a status in the order of groups.
pub open spec fn status_order_spec(s: Seq<char>) -> i32 {
    if s == "in_progress"@ {
        0
    } else if s == "backlog"@ {
        1
    } else if s == "review"@ {
        2
    } else if critical_path::is_done(s) {
        3
    } else {
        4
    }
}

/// Work in progress first, then the backlog, then by id.
pub open spec fn group_key(group: GroupView) -> (i32, Seq<char>) {
    (status_order_spec(group.voyage_status), group.voyage_id)
}

pub open spec fn group_keys(groups: Seq<GroupView>) -> Seq<(i32, Seq<char>)> {
    Seq::new(groups.len(), |i: int| group_key(groups[i]))
}

/// The groups of a board in order.
pub open spec fn groups_spec(items: Seq<ItemView>) -> Seq<GroupView> {
    let groups = open_groups(items, items.len());
    sorting::pick(groups, sorting::stable_order::<(i32, String)>(group_keys(groups)))
}

/// Whether an item with this id is under a voyage.
pub open spec fn is_grouped(items: Seq<ItemView>, id: Seq<char>) -> bool {
    exists|i: int|
        0 <= i < items.len() && (#[trigger] items[i]).id == id && names_voyage(items, items[i])
}

/// Whether an item that is no voyage names a voyage among its related items.
pub open spec fn names_voyage(items: Seq<ItemView>, item: ItemView) -> bool {
    !is_voyage(item) && exists|k: int|
        0 <= k < item.related.len() && is_voyage_id(items, #[trigger] item.related[k])
}

/// The unfinished items that are under no voyage.
pub open spec fn orphans_spec(items: Seq<ItemView>) -> Seq<Seq<char>> {
    critical_path::ids(
        items.filter(
            |x: ItemView|
                !is_voyage(x) && !is_grouped(items, x.id) && !critical_path::is_done(x.status),
        ),
    )
}

impl SortKey for (i32, String) {
    type Model = (i32, Seq<char>);

    open spec fn model(&self) -> (i32, Seq<char>) {
        (self.0, self.1@)
    }

    open spec fn precedes(a: (i32, Seq<char>), b: (i32, Seq<char>)) -> bool {
        a.0 < b.0 || (a.0 == b.0 && String::precedes(a.1, b.1))
    }

    proof fn le_transitive(a: (i32, Seq<char>), b: (i32, Seq<char>), c: (i32, Seq<char>)) {
        if a.0 == b.0 && b.0 == c.0 {
            String::le_transitive(a.1, b.1, c.1);
        }
    }

    proof fn le_total(a: (i32, Seq<char>), b: (i32, Seq<char>)) {
        String::le_total(a.1, b.1);
    }

    fn at_most(&self, other: &Self) -> (r: bool) {
        self.0 < other.0 || (self.0 == other.0 && self.1.at_most(&other.1))
    }
}

fn status_sort_order(s: &str) -> (r: i32)
    ensures
        r == status_order_spec(s@),
{
    if text::same(s, "in_progress") {
        0
    } else if text::same(s, "backlog") {
        1
    } else if text::same(s, "review") {
        2
    } else if critical_path::status_is_done(s) {
        3
    } else {
        4
    }
}

fn item_is_voyage(item: &ItemInfo) -> (r: bool)
    ensures
        r == is_voyage(item@),
{
    text::same(item.item_type.as_str(), "voyage")
}

fn id_is_voyage(items: &[ItemInfo], id: &str) -> (r: bool)
    ensures
        r == is_voyage_id(critical_path::item_views(items@), id@),
{
    let ghost all = critical_path::item_views(items@);
    let mut i: usize = 0;
    while i < items.len()
        invariant
            i <= items@.len(),
            all == critical_path::item_views(items@),
            forall|k: int| 0 <= k < i ==> !((#[trigger] all[k]).id == id@ && is_voyage(all[k])),
        decreases items@.len() - i,
    {
        if text::same(items[i].id.as_str(), id) && item_is_voyage(&items[i]) {
            assert(all[i as int].id == id@);
            return true;
        }
        i = i + 1;
    }
    false
}

fn find_children(items: &[ItemInfo], voyage: &str) -> (r: Vec<String>)
    ensures
        text::views(r@) == children(critical_path::item_views(items@), voyage@, items@.len()),
{
    let ghost all = critical_path::item_views(items@);
    let mut r: Vec<String> = Vec::new();
    let mut i: usize = 0;
    assert(text::views(r@) =~= children(all, voyage@, 0));
    while i < items.len()
        invariant
            i <= items@.len(),
            all == critical_path::item_views(items@),
            text::views(r@) == children(all, voyage@, i as nat),
        decreases items@.len() - i,
    {
        let item: &ItemInfo = &items[i];
        let ghost before = text::views(r@);
        let ghost view = all[i as int];
        if !item_is_voyage(item) {
            let mut k: usize = 0;
            assert(text::views(r@) =~= before + named_times(view.related, voyage@, view.id, 0));
            while k < item.related.len()
                invariant
                    k <= item.related@.len(),
                    view == item@,
                    text::views(r@) == before + named_times(
                        view.related,
                        voyage@,
                        view.id,
                        k as nat,
                    ),
                decreases item.related@.len() - k,
            {
                if text::same(item.related[k].as_str(), voyage) {
                    let ghost so_far = text::views(r@);
                    r.push(item.id.clone());
                    assert(text::views(r@) =~= so_far.push(view.id));
                    assert(text::views(r@) =~= before + named_times(
                        view.related,
                        voyage@,
                        view.id,
                        (k + 1) as nat,
                    ));
                }
                k = k + 1;
            }
        }
        i = i + 1;
    }
    r
}

fn id_is_done_item(items: &[ItemInfo], id: &str) -> (r: bool)
    ensures
        r == is_done_item(critical_path::item_views(items@), id@),
{
    match critical_path::find_item(items, id) {
        Some(i) => critical_path::status_is_done(items[i].status.as_str()),
        None => false,
    }
}

fn count_done(items: &[ItemInfo], list: &Vec<String>) -> (r: usize)
    ensures
        r == done_among(critical_path::item_views(items@), text::views(list@), list@.len()),
        r <= list@.len(),
{
    let mut r: usize = 0;
    let mut i: usize = 0;
    while i < list.len()
        invariant
            i <= list@.len(),
            r <= i,
            r == done_among(critical_path::item_views(items@), text::views(list@), i as nat),
        decreases list@.len() - i,
    {
        if id_is_done_item(items, list[i].as_str()) {
            r = r + 1;
        }
        i = i + 1;
    }
    r
}

fn build_group(items: &[ItemInfo], voyage: &ItemInfo) -> (r: VoyageGroup)
    ensures
        r@ == group_of(critical_path::item_views(items@), voyage@),
{
    let under: Vec<String> = find_children(items, voyage.id.as_str());
    let done_count: usize = count_done(items, &under);
    let total_count: usize = under.len();
    VoyageGroup {
        voyage_id: voyage.id.clone(),
        voyage_title: voyage.title.clone(),
        voyage_status: voyage.status.clone(),
        items: under,
        done_count,
        total_count,
    }
}

/// A copy of a group.
pub fn copy_group(group: &VoyageGroup) -> (r: VoyageGroup)
    ensures
        r@ == group@,
{
    VoyageGroup {
        voyage_id: group.voyage_id.clone(),
        voyage_title: group.voyage_title.clone(),
        voyage_status: group.voyage_status.clone(),
        items: text::clone_strings(&group.items),
        done_count: group.done_count,
        total_count: group.total_count,
    }
}

fn find_open_groups(items: &[ItemInfo]) -> (r: Vec<VoyageGroup>)
    ensures
        group_views(r@) == open_groups(critical_path::item_views(items@), items@.len()),
{
    let ghost all = critical_path::item_views(items@);
    let mut r: Vec<VoyageGroup> = Vec::new();
    let mut i: usize = 0;
    assert(group_views(r@) =~= open_groups(all, 0));
    while i < items.len()
        invariant
            i <= items@.len(),
            all == critical_path::item_views(items@),
            group_views(r@) == open_groups(all, i as nat),
        decreases items@.len() - i,
    {
        if item_is_voyage(&items[i]) {
            let group: VoyageGroup = build_group(items, &items[i]);
            let over: bool = text::same(group.voyage_status.as_str(), "done") || text::same(
                group.voyage_status.as_str(),
                "complete",
            );
            if !(over && group.done_count == group.total_count) {
                let ghost before = group_views(r@);
                let ghost next = group@;
                r.push(group);
                assert(group_views(r@) =~= before.push(next));
            }
        }
        i = i + 1;
    }
    r
}

fn sort_groups(groups: Vec<VoyageGroup>) -> (r: Vec<VoyageGroup>)
    ensures
        group_views(r@) == sorting::pick(
            group_views(groups@),
            sorting::stable_order::<(i32, String)>(group_keys(group_views(groups@))),
        ),
{
    let mut keys: Vec<(i32, String)> = Vec::new();
    let mut i: usize = 0;
    while i < groups.len()
        invariant
            i <= groups@.len(),
            keys@.len() == i,
            forall|k: int|
                0 <= k < i ==> (#[trigger] keys@[k]).model() == group_key(group_views(groups@)[k]),
        decreases groups@.len() - i,
    {
        keys.push((status_sort_order(groups[i].voyage_status.as_str()), groups[i].voyage_id.clone()));
        i = i + 1;
    }
    assert(sorting::models(keys@) =~= group_keys(group_views(groups@)));
    let order: Vec<usize> = sorting::sort_positions(&keys);
    let mut r: Vec<VoyageGroup> = Vec::new();
    let mut j: usize = 0;
    while j < order.len()
        invariant
            j <= order@.len(),
            forall|k: int| 0 <= k < order@.len() ==> (#[trigger] order@[k]) < groups@.len(),
            r@.len() == j,
            forall|k: int| 0 <= k < j ==> (#[trigger] r@[k])@ == groups@[order@[k] as int]@,
        decreases order@.len() - j,
    {
        assert(order@[j as int] < groups@.len());
        r.push(copy_group(&groups[order[j]]));
        j = j + 1;
    }
    assert(group_views(r@) =~= sorting::pick(group_views(groups@), order@));
    r
}

fn item_names_voyage(items: &[ItemInfo], item: &ItemInfo) -> (r: bool)
    ensures
        r == names_voyage(critical_path::item_views(items@), item@),
{
    let ghost all = critical_path::item_views(items@);
    if item_is_voyage(item) {
        return false;
    }
    let mut k: usize = 0;
    while k < item.related.len()
        invariant
            k <= item.related@.len(),
            all == critical_path::item_views(items@),
            !is_voyage(item@),
            forall|j: int| 0 <= j < k ==> !is_voyage_id(all, #[trigger] item@.related[j]),
        decreases item.related@.len() - k,
    {
        if id_is_voyage(items, item.related[k].as_str()) {
            assert(is_voyage_id(all, item@.related[k as int]));
            return true;
        }
        k = k + 1;
    }
    false
}

fn id_is_grouped(items: &[ItemInfo], id: &str) -> (r: bool)
    ensures
        r == is_grouped(critical_path::item_views(items@), id@),
{
    let ghost all = critical_path::item_views(items@);
    let mut i: usize = 0;
    while i < items.len()
        invariant
            i <= items@.len(),
            all == critical_path::item_views(items@),
            forall|k: int|
                0 <= k < i ==> !((#[trigger] all[k]).id == id@ && names_voyage(all, all[k])),
        decreases items@.len() - i,
    {
        if text::same(items[i].id.as_str(), id) && item_names_voyage(items, &items[i]) {
            assert(all[i as int].id == id@);
            return true;
        }
        i = i + 1;
    }
    false
}

fn find_orphans(items: &[ItemInfo]) -> (r: Vec<String>)
    ensures
        text::views(r@) == orphans_spec(critical_path::item_views(items@)),
{
    let ghost all = critical_path::item_views(items@);
    let ghost pred = |x: ItemView|
        !is_voyage(x) && !is_grouped(all, x.id) && !critical_path::is_done(x.status);
    let mut r: Vec<String> = Vec::new();
    let mut i: usize = 0;
    assert(text::views(r@) =~= critical_path::ids(all.take(0).filter(pred)));
    while i < items.len()
        invariant
            i <= items@.len(),
            all == critical_path::item_views(items@),
            pred == (|x: ItemView|
                !is_voyage(x) && !is_grouped(all, x.id) && !critical_path::is_done(x.status)),
            text::views(r@) == critical_path::ids(all.take(i as int).filter(pred)),
        decreases items@.len() - i,
    {
        let item: &ItemInfo = &items[i];
        let ghost before = text::views(r@);
        proof {
            assert(all.take(i + 1) =~= all.take(i as int).push(all[i as int]));
            all.take(i as int).lemma_filter_push(all[i as int], pred);
        }
        if !item_is_voyage(item) && !id_is_grouped(items, item.id.as_str())
            && !critical_path::status_is_done(item.status.as_str()) {
            r.push(item.id.clone());
            assert(text::views(r@) =~= before.push(all[i as int].id));
            assert(critical_path::ids(all.take(i + 1).filter(pred)) =~= before.push(
                all[i as int].id,
            ));
        }
        i = i + 1;
    }
    assert(all.take(i as int) =~= all);
    r
}

/// Groups the items under their voyages, and lists those that are under none.
///
/// Voyages that are done, and have nothing unfinished under them, are left out.
pub fn group_by_voyage(items: &[ItemInfo]) -> (r: (Vec<VoyageGroup>, Vec<String>))
    ensures
        group_views(r.0@) == groups_spec(critical_path::item_views(items@)),
        text::views(r.1@) == orphans_spec(critical_path::item_views(items@)),
{
    let groups: Vec<VoyageGroup> = sort_groups(find_open_groups(items));
    (groups, find_orphans(items))
}

// ---- campaigns ------------------------------------------------------------------------

/// The ids of the member voyages that exist among the first `n` items, each once.
pub open spec fn existing_members(
    items: Seq<ItemView>,
    members: Seq<Seq<char>>,
    n: nat,
) -> Seq<Seq<char>>
    decreases n,
{
    if n == 0 {
        Seq::empty()
    } else {
        let before = existing_members(items, members, (n - 1) as nat);
        let item = items[n - 1];
        if is_voyage(item) && members.contains(item.id) && !before.contains(item.id) {
            before.push(item.id)
        } else {
            before
        }
    }
}

/// Whether an item is an expedition under one of these voyages.
pub open spec fn is_member_expedition(item: ItemView, voyages: Seq<Seq<char>>) -> bool {
    item.item_type == "expedition"@ && exists|k: int|
        0 <= k < item.related.len() && voyages.contains(#[trigger] item.related[k])
}

/// How many member voyages of a campaign exist, and how many of the expeditions
/// under them are done, of how many.
pub open spec fn aggregate_spec(items: Seq<ItemView>, members: Seq<Seq<char>>) -> (nat, nat, nat) {
    let voyages = existing_members(items, members, items.len());
    (
        voyages.len(),
        items.filter(
            |x: ItemView| is_member_expedition(x, voyages) && critical_path::is_done(x.status),
        ).len(),
        items.filter(|x: ItemView| is_member_expedition(x, voyages)).len(),
    )
}

fn find_members(items: &[ItemInfo], members: &Vec<String>) -> (r: Vec<String>)
    ensures
        text::views(r@) == existing_members(
            critical_path::item_views(items@),
            text::views(members@),
            items@.len(),
        ),
        r@.len() <= items@.len(),
{
    let ghost all = critical_path::item_views(items@);
    let mut r: Vec<String> = Vec::new();
    let mut i: usize = 0;
    assert(text::views(r@) =~= existing_members(all, text::views(members@), 0));
    while i < items.len()
        invariant
            i <= items@.len(),
            all == critical_path::item_views(items@),
            r@.len() <= i,
            text::views(r@) == existing_members(all, text::views(members@), i as nat),
        decreases items@.len() - i,
    {
        let item: &ItemInfo = &items[i];
        if item_is_voyage(item) && text::contains_string(members, item.id.as_str())
            && !text::contains_string(&r, item.id.as_str()) {
            let ghost before = text::views(r@);
            r.push(item.id.clone());
            assert(text::views(r@) =~= before.push(all[i as int].id));
        }
        i = i + 1;
    }
    r
}

fn item_is_member_expedition(item: &ItemInfo, voyages: &Vec<String>) -> (r: bool)
    ensures
        r == is_member_expedition(item@, text::views(voyages@)),
{
    if !text::same(item.item_type.as_str(), "expedition") {
        return false;
    }
    let mut k: usize = 0;
    while k < item.related.len()
        invariant
            k <= item.related@.len(),
            item@.item_type == "expedition"@,
            forall|j: int|
                0 <= j < k ==> !text::views(voyages@).contains(#[trigger] item@.related[j]),
        decreases item.related@.len() - k,
    {
        if text::contains_string(voyages, item.related[k].as_str()) {
            assert(text::views(voyages@).contains(item@.related[k as int]));
            return true;
        }
        k = k + 1;
    }
    false
}

/// The state of a campaign: its member voyages that exist, and the expeditions
/// under them that are done, of all under them.
///
/// Finished voyages count too: what a campaign has reached does not shrink when a
/// voyage ends.
pub fn campaign_aggregate(items: &[ItemInfo], members: &Vec<String>) -> (r: (usize, usize, usize))
    ensures
        (r.0 as nat, r.1 as nat, r.2 as nat) == aggregate_spec(
            critical_path::item_views(items@),
            text::views(members@),
        ),
        r.1 <= r.2 <= items@.len(),
{
    let ghost all = critical_path::item_views(items@);
    let voyages: Vec<String> = find_members(items, members);
    let ghost names = text::views(voyages@);
    let ghost in_total = |x: ItemView| is_member_expedition(x, names);
    let ghost in_done = |x: ItemView|
        is_member_expedition(x, names) && critical_path::is_done(x.status);
    let mut done: usize = 0;
    let mut total: usize = 0;
    let mut i: usize = 0;
    while i < items.len()
        invariant
            i <= items@.len(),
            all == critical_path::item_views(items@),
            names == text::views(voyages@),
            in_total == (|x: ItemView| is_member_expedition(x, names)),
            in_done == (|x: ItemView|
                is_member_expedition(x, names) && critical_path::is_done(x.status)),
            done <= total <= i,
            done == all.take(i as int).filter(in_done).len(),
            total == all.take(i as int).filter(in_total).len(),
        decreases items@.len() - i,
    {
        proof {
            assert(all.take(i + 1) =~= all.take(i as int).push(all[i as int]));
            all.take(i as int).lemma_filter_push(all[i as int], in_total);
            all.take(i as int).lemma_filter_push(all[i as int], in_done);
        }
        if item_is_member_expedition(&items[i], &voyages) {
            total = total + 1;
            if critical_path::status_is_done(items[i].status.as_str()) {
                done = done + 1;
            }
        }
        i = i + 1;
    }
    assert(all.take(i as int) =~= all);
    (voyages.len(), done, total)
}

// ---- typed memberships ----------------------------------------------------------------------

/// Whether the relations put the item with an id under a voyage: the item implements
/// it, or it spawned the item.
pub open spec fn is_typed_member(
    items: Seq<ItemView>,
    edges: Seq<EdgeView>,
    id: Seq<char>,
    voyage: Seq<char>,
) -> bool {
    is_voyage_id(items, voyage) && (relations::has_live_edge(edges, id, voyage, "implements"@) || (
    is_work_id(items, id) && relations::has_live_edge(edges, voyage, id, "spawns"@)))
}

/// Whether an item that is no voyage has this id.
pub open spec fn is_work_id(items: Seq<ItemView>, id: Seq<char>) -> bool {
    exists|i: int| 0 <= i < items.len() && (#[trigger] items[i]).id == id && !is_voyage(items[i])
}

/// Whether `after` is `before` with the item's typed memberships among its related
/// items: what was there stays in its place, and each voyage that was missing is
/// added once.
pub open spec fn is_folded(
    items: Seq<ItemView>,
    edges: Seq<EdgeView>,
    before: ItemView,
    after: ItemView,
) -> bool {
    &&& after == (ItemView { related: after.related, ..before })
    &&& before.related.is_prefix_of(after.related)
    &&& forall|v: Seq<char>| #[trigger]
        after.related.contains(v) == (before.related.contains(v) || is_typed_member(
            items,
            edges,
            before.id,
            v,
        ))
    &&& forall|i: int, j: int|
        0 <= i < j < after.related.len() && before.related.len() <= j ==> (
        #[trigger] after.related[i]) != (#[trigger] after.related[j])
}

fn id_is_work(items: &Vec<ItemInfo>, id: &str) -> (r: bool)
    ensures
        r == is_work_id(critical_path::item_views(items@), id@),
{
    let ghost all = critical_path::item_views(items@);
    let mut i: usize = 0;
    while i < items.len()
        invariant
            i <= items@.len(),
            all == critical_path::item_views(items@),
            forall|k: int| 0 <= k < i ==> !((#[trigger] all[k]).id == id@ && !is_voyage(all[k])),
        decreases items@.len() - i,
    {
        if text::same(items[i].id.as_str(), id) && !item_is_voyage(&items[i]) {
            assert(all[i as int].id == id@);
            return true;
        }
        i = i + 1;
    }
    false
}

/// The voyages that the relations put the item with an id under.
fn find_typed_voyages(items: &Vec<ItemInfo>, rel_store: &RelationsStore, id: &str) -> (r: Vec<
    String,
>)
    requires
        rel_store.well_formed(),
    ensures
        forall|v: Seq<char>| #[trigger]
            text::views(r@).contains(v) == is_typed_member(
                critical_path::item_views(items@),
                rel_store.edges(),
                id@,
                v,
            ),
{
    let ghost all = critical_path::item_views(items@);
    let ghost edges = rel_store.edges();
    let work: bool = id_is_work(items, id);
    let mut r: Vec<String> = Vec::new();
    let mut i: usize = 0;
    while i < items.len()
        invariant
            i <= items@.len(),
            all == critical_path::item_views(items@),
            edges == rel_store.edges(),
            rel_store.well_formed(),
            work == is_work_id(all, id@),
            forall|v: Seq<char>| #[trigger]
                text::views(r@).contains(v) == (is_voyage_id(all.take(i as int), v)
                    && is_typed_member(all, edges, id@, v)),
        decreases items@.len() - i,
    {
        let item: &ItemInfo = &items[i];
        let ghost view = all[i as int];
        let ghost before = text::views(r@);
        let ghost shorter = all.take(i as int);
        let ghost longer = all.take(i + 1);
        assert(longer =~= shorter.push(view));
        let mut hit: bool = false;
        if item_is_voyage(item) {
            assert(is_voyage_id(all, view.id));
            hit = rel_store.has_relation(id, item.id.as_str(), "implements") || (work
                && rel_store.has_relation(item.id.as_str(), id, "spawns"));
            assert(hit == is_typed_member(all, edges, id@, view.id));
        }
        if hit {
            r.push(item.id.clone());
            assert(text::views(r@) =~= before.push(view.id));
        }
        assert forall|v: Seq<char>| #[trigger] text::views(r@).contains(v) == (is_voyage_id(
            longer,
            v,
        ) && is_typed_member(all, edges, id@, v)) by {
            assert(before.contains(v) == (is_voyage_id(shorter, v) && is_typed_member(
                all,
                edges,
                id@,
                v,
            )));
            assert(is_voyage_id(longer, v) == (is_voyage_id(shorter, v) || (view.id == v
                && is_voyage(view)))) by {
                if is_voyage_id(shorter, v) {
                    let k = choose|k: int|
                        0 <= k < shorter.len() && (#[trigger] shorter[k]).id == v && is_voyage(
                            shorter[k],
                        );
                    assert(longer[k] == shorter[k]);
                }
                if view.id == v && is_voyage(view) {
                    assert(longer[i as int] == view);
                }
                if is_voyage_id(longer, v) {
                    let k = choose|k: int|
                        0 <= k < longer.len() && (#[trigger] longer[k]).id == v && is_voyage(
                            longer[k],
                        );
                    if k < i {
                        assert(shorter[k] == longer[k]);
                    }
                }
            }
            if hit {
                vstd::seq_lib::lemma_seq_contains_after_push(before, view.id, v);
            }
        }
        i = i + 1;
    }
    assert(all.take(i as int) =~= all);
    r
}

fn fold_item(item: &ItemInfo, voyages: &Vec<String>) -> (r: ItemInfo)
    ensures
        r@ == (ItemView { related: r@.related, ..item@ }),
        item@.related.is_prefix_of(r@.related),
        forall|v: Seq<char>| #[trigger]
            r@.related.contains(v) == (item@.related.contains(v) || text::views(
                voyages@,
            ).contains(v)),
        forall|i: int, j: int|
            0 <= i < j < r@.related.len() && item@.related.len() <= j ==> (
            #[trigger] r@.related[i]) != (#[trigger] r@.related[j]),
{
    let ghost start = item@.related;
    let ghost names = text::views(voyages@);
    let mut copy: ItemInfo = item.clone();
    let mut related: Vec<String> = text::clone_strings(&item.related);
    let mut i: usize = 0;
    assert(names.take(0).len() == 0);
    while i < voyages.len()
        invariant
            i <= voyages@.len(),
            names == text::views(voyages@),
            start.is_prefix_of(text::views(related@)),
            forall|v: Seq<char>| #[trigger]
                text::views(related@).contains(v) == (start.contains(v) || names.take(
                    i as int,
                ).contains(v)),
            forall|a: int, b: int|
                0 <= a < b < related@.len() && start.len() <= b ==> (#[trigger] text::views(
                    related@,
                )[a]) != (#[trigger] text::views(related@)[b]),
        decreases voyages@.len() - i,
    {
        let ghost before = text::views(related@);
        let ghost name = names[i as int];
        let present: bool = text::contains_string(&related, voyages[i].as_str());
        assert(names.take(i + 1) =~= names.take(i as int).push(name));
        if !present {
            related.push(voyages[i].clone());
            assert(text::views(related@) =~= before.push(name));
        }
        proof {
            let after = text::views(related@);
            assert forall|v: Seq<char>| #[trigger] after.contains(v) == (start.contains(v)
                || names.take(i + 1).contains(v)) by {
                assert(before.contains(v) == (start.contains(v) || names.take(i as int).contains(
                    v,
                )));
                vstd::seq_lib::lemma_seq_contains_after_push(names.take(i as int), name, v);
                vstd::seq_lib::lemma_seq_contains_after_push(before, name, v);
            }
            assert forall|a: int, b: int|
                0 <= a < b < after.len() && start.len() <= b implies (#[trigger] after[a]) != (
            #[trigger] after[b]) by {
                assert(before[a] == after[a]);
                if b < before.len() {
                    assert(before[b] == after[b]);
                } else {
                    assert(before.contains(before[a]));
                }
            }
        }
        i = i + 1;
    }
    assert(names.take(i as int) =~= names);
    copy.related = related;
    copy
}

/// Puts the voyages that the typed relations place an item under among the item's
/// related items, so that the views of a board see them. An item that names its
/// voyage already stays as it is.
pub fn fold_typed_voyage_memberships(items: &mut Vec<ItemInfo>, rel_store: &RelationsStore)
    requires
        rel_store.well_formed(),
    ensures
        final(items)@.len() == old(items)@.len(),
        forall|i: int|
            0 <= i < old(items)@.len() ==> is_folded(
                critical_path::item_views(old(items)@),
                rel_store.edges(),
                old(items)@[i]@,
                #[trigger] final(items)@[i]@,
            ),
{
    let ghost all = critical_path::item_views(items@);
    let ghost edges = rel_store.edges();
    let mut folded: Vec<ItemInfo> = Vec::new();
    let mut i: usize = 0;
    while i < items.len()
        invariant
            i <= items@.len(),
            all == critical_path::item_views(items@),
            edges == rel_store.edges(),
            rel_store.well_formed(),
            folded@.len() == i,
            forall|k: int|
                0 <= k < i ==> is_folded(all, edges, all[k], #[trigger] folded@[k]@),
        decreases items@.len() - i,
    {
        let voyages: Vec<String> = find_typed_voyages(items, rel_store, items[i].id.as_str());
        let next: ItemInfo = fold_item(&items[i], &voyages);
        assert(is_folded(all, edges, all[i as int], next@)) by {
            let before = all[i as int];
            let after = next@;
            assert forall|v: Seq<char>| #[trigger] after.related.contains(v) == (
            before.related.contains(v) || is_typed_member(all, edges, before.id, v)) by {
                assert(text::views(voyages@).contains(v) == is_typed_member(
                    all,
                    edges,
                    before.id,
                    v,
                ));
            }
        }
        folded.push(next);
        i = i + 1;
    }
    *items = folded;
}

/// Folding twice changes nothing more: the second time every voyage is there.
pub proof fn law_fold_is_idempotent(
    items: Seq<ItemView>,
    edges: Seq<EdgeView>,
    before: ItemView,
    once: ItemView,
    twice: ItemView,
)
    requires
        is_folded(items, edges, before, once),
        is_folded(items, edges, once, twice),
    ensures
        twice == once,
{
    assert(twice.related.len() == once.related.len()) by {
        if twice.related.len() > once.related.len() {
            let j = once.related.len() as int;
            let v = twice.related[j];
            assert(twice.related.contains(v));
            assert(once.related.contains(v));
            let i = choose|i: int| 0 <= i < once.related.len() && once.related[i] == v;
            assert(twice.related[i] == v);
        }
    }
    assert(twice.related =~= once.related);
}

/// An expedition that names its voyage already is not counted twice: folding adds
/// nothing that was there.
pub proof fn law_fold_adds_nothing_twice(
    items: Seq<ItemView>,
    edges: Seq<EdgeView>,
    before: ItemView,
    after: ItemView,
    j: int,
)
    requires
        is_folded(items, edges, before, after),
        before.related.len() <= j < after.related.len(),
    ensures
        !before.related.contains(after.related[j]),
{
    if before.related.contains(after.related[j]) {
        let i = choose|i: int|
            0 <= i < before.related.len() && before.related[i] == after.related[j];
        assert(after.related[i] == before.related[i]);
    }
}

} // verus!
