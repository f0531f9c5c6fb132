//! Critical path analysis: what can start now, what has to wait and how long
//! the longest chain of waiting is.
use vstd::prelude::*;
use vstd::string::StringExecFns;
use crate::graph;
use crate::sorting;
use crate::sorting::SortKey;
use crate::text;
pub use crate::items::extract_items;
pub use crate::render::{format_campaign_roadmap, format_critical_path, format_roadmap};
pub use crate::roadmap::{
    campaign_aggregate, fold_typed_voyage_memberships, group_by_voyage, VoyageGroup,
};
pub use crate::worklist::{
    agents_from_items, format_worklist, generate_worklist, item_requirements_from_batches,
    parse_agent_capabilities, required_capabilities_from_tags, CapabilityRouting, WorklistEntry,
    WorklistItem, CAPABILITY_TAG_SUFFIX,
};

verus! {

/// What the analyses read of a board item.
#[derive(Debug)]
pub struct ItemInfo {
    pub id: String,
    pub title: String,
    pub item_type: String,
    pub status: String,
    pub priority: String,
    pub assignee: String,
    pub related: Vec<String>,
    pub depends_on: Vec<String>,
    /// Manual rank: `Some(n)` pins the item at position n, lower first; `None`
    /// leaves its place to the priority.
    pub rank: Option<i32>,
}

#[verifier::ext_equal]
pub struct ItemView {
    pub id: Seq<char>,
    pub title: Seq<char>,
    pub item_type: Seq<char>,
    pub status: Seq<char>,
    pub priority: Seq<char>,
    pub assignee: Seq<char>,
    pub related: Seq<Seq<char>>,
    pub depends_on: Seq<Seq<char>>,
    pub rank: Option<i32>,
}

impl View for ItemInfo {
    type V = ItemView;

    open spec fn view(&self) -> ItemView {
        ItemView {
            id: self.id@,
            title: self.title@,
            item_type: self.item_type@,
            status: self.status@,
            priority: self.priority@,
            assignee: self.assignee@,
            related: text::views(self.related@),
            depends_on: text::views(self.depends_on@),
            rank: self.rank,
        }
    }
}

impl Clone for ItemInfo {
    fn clone(&self) -> (r: Self)
        ensures
            r@ == self@,
    {
        ItemInfo {
            id: self.id.clone(),
            title: self.title.clone(),
            item_type: self.item_type.clone(),
            status: self.status.clone(),
            priority: self.priority.clone(),
            assignee: self.assignee.clone(),
            related: text::clone_strings(&self.related),
            depends_on: text::clone_strings(&self.depends_on),
            rank: self.rank,
        }
    }
}

pub open spec fn item_views(items: Seq<ItemInfo>) -> Seq<ItemView> {
    Seq::new(items.len(), |i: int| items[i]@)
}

/// The result of a critical path analysis.
#[derive(Debug)]
pub struct CriticalPathResult {
    /// Item ids in an order in which they can be worked, what can start now first.
    pub ordered: Vec<String>,
    /// Depth of each item: the length of the longest chain of unfinished items
    /// it waits for.
    pub depth: Vec<(String, u32)>,
    /// The items of each depth, depth 0 first.
    pub depth_groups: Vec<(u32, Vec<String>)>,
    /// The longest chain of items waiting for each other.
    pub longest_path: Vec<String>,
    /// Items that wait for nothing.
    pub ready: Vec<String>,
    /// Items that wait for at least one unfinished item.
    pub blocked: Vec<String>,
    /// How many items wait for each item, directly or through others.
    pub downstream_count: Vec<(String, usize)>,
}

// ---- statuses and order -------------------------------------------------------------

/// The statuses of finished work.
pub open spec fn is_done(status: Seq<char>) -> bool {
    status == "done"@ || status == "complete"@ || status == "retired"@
}

pub fn status_is_done(status: &str) -> (r: bool)
    ensures
        r == is_done(status@),
{
    text::same(status, "done") || text::same(status, "complete") || text::same(status, "retired")
}

/// The rank of a priority word, whatever the case of its letters.
pub open spec fn priority_rank_spec(p: Seq<char>) -> i32 {
    let word = text::lower_spec(p);
    if word == "critical"@ {
        0
    } else if word == "high"@ {
        1
    } else if word == "medium"@ {
        2
    } else if word == "low"@ {
        3
    } else {
        99
    }
}

pub fn priority_rank(p: &str) -> (r: i32)
    ensures
        r == priority_rank_spec(p@),
{
    let word: String = text::lower(p);
    if text::same(word.as_str(), "critical") {
        0
    } else if text::same(word.as_str(), "high") {
        1
    } else if text::same(word.as_str(), "medium") {
        2
    } else if text::same(word.as_str(), "low") {
        3
    } else {
        99
    }
}

/// The key that puts the most urgent item first: items with a manual rank before
/// those without, lower ranks first, then by priority.
pub open spec fn sort_key_spec(item: ItemView) -> (u8, i32, i32) {
    match item.rank {
        Some(rank) => (0, rank, priority_rank_spec(item.priority)),
        None => (1, 0, priority_rank_spec(item.priority)),
    }
}

pub fn sort_key(item: &ItemInfo) -> (r: (u8, i32, i32))
    ensures
        r == sort_key_spec(item@),
{
    let priority: i32 = priority_rank(item.priority.as_str());
    match item.rank {
        Some(rank) => (0, rank, priority),
        None => (1, 0, priority),
    }
}

impl SortKey for (u8, i32, i32) {
    type Model = (u8, i32, i32);

    open spec fn model(&self) -> (u8, i32, i32) {
        *self
    }

    open spec fn precedes(a: (u8, i32, i32), b: (u8, i32, i32)) -> bool {
        a.0 < b.0 || (a.0 == b.0 && (a.1 < b.1 || (a.1 == b.1 && a.2 <= b.2)))
    }

    proof fn le_transitive(a: (u8, i32, i32), b: (u8, i32, i32), c: (u8, i32, i32)) {
    }

    proof fn le_total(a: (u8, i32, i32), b: (u8, i32, i32)) {
    }

    fn at_most(&self, other: &Self) -> (r: bool) {
        self.0 < other.0 || (self.0 == other.0 && (self.1 < other.1 || (self.1 == other.1 && self.2
            <= other.2)))
    }
}

// ---- lookups shared by the views of a board ------------------------------------------

/// The item with an id. Where several items have it, the last one counts.
pub open spec fn item_of(items: Seq<ItemView>, id: Seq<char>) -> Option<ItemView>
    decreases items.len(),
{
    if items.len() == 0 {
        None
    } else if items.last().id == id {
        Some(items.last())
    } else {
        item_of(items.drop_last(), id)
    }
}

pub proof fn lemma_item_of(items: Seq<ItemView>, id: Seq<char>, i: int)
    requires
        0 <= i <= items.len(),
        forall|k: int| i <= k < items.len() ==> (#[trigger] items[k]).id != id,
        i > 0 ==> items[i - 1].id == id,
    ensures
        item_of(items, id) == (if i > 0 {
            Some(items[i - 1])
        } else {
            None::<ItemView>
        }),
    decreases items.len(),
{
    if items.len() > 0 && i < items.len() {
        assert(items[items.len() - 1].id != id);
        lemma_item_of(items.drop_last(), id, i);
    }
}

pub fn find_item(items: &[ItemInfo], id: &str) -> (r: Option<usize>)
    ensures
        r is Some == item_of(item_views(items@), id@) is Some,
        r is Some ==> r->0 < items@.len() && items@[r->0 as int]@ == item_of(
            item_views(items@),
            id@,
        )->0,
{
    let mut i: usize = items.len();
    while i > 0
        invariant
            i <= items@.len(),
            forall|k: int| i <= k < items@.len() ==> (#[trigger] item_views(items@)[k]).id != id@,
        decreases i,
    {
        if text::same(items[i - 1].id.as_str(), id) {
            proof {
                lemma_item_of(item_views(items@), id@, i as int);
            }
            return Some(i - 1);
        }
        i = i - 1;
    }
    proof {
        lemma_item_of(item_views(items@), id@, 0);
    }
    None
}

/// The sort key of the item with an id; an id that no item has sorts last.
pub open spec fn key_of(items: Seq<ItemView>, id: Seq<char>) -> (u8, i32, i32) {
    match item_of(items, id) {
        Some(item) => sort_key_spec(item),
        None => (2, 0, 99),
    }
}

pub fn key_of_id(items: &[ItemInfo], id: &str) -> (r: (u8, i32, i32))
    ensures
        r == key_of(item_views(items@), id@),
{
    match find_item(items, id) {
        Some(i) => sort_key(&items[i]),
        None => (2, 0, 99),
    }
}

/// The text, or where it is longer than `max` its beginning and three dots.
pub open spec fn truncate_spec(s: Seq<char>, max: int) -> Seq<char> {
    if s.len() <= max {
        s
    } else {
        s.take(max - 3) + "..."@
    }
}

pub fn truncate(s: &str, max: usize) -> (r: String)
    requires
        s@.len() <= max || max >= 3,
    ensures
        r@ == truncate_spec(s@, max as int),
{
    let chars: Vec<char> = text::to_chars(s);
    if chars.len() <= max {
        text::owned(s)
    } else {
        let mut r: String = text::from_chars(&chars, 0, max - 3);
        assert(r@ =~= s@.take(max - 3));
        r.append("...");
        r
    }
}

// ---- the unfinished items --------------------------------------------------------------

/// Whether an item with this id is finished.
pub open spec fn done_id(items: Seq<ItemView>, id: Seq<char>) -> bool {
    exists|i: int| 0 <= i < items.len() && (#[trigger] items[i]).id == id && is_done(items[i].status)
}

fn id_is_done(items: &[ItemInfo], id: &str) -> (r: bool)
    ensures
        r == done_id(item_views(items@), id@),
{
    let mut i: usize = 0;
    while i < items.len()
        invariant
            i <= items@.len(),
            forall|k: int|
                0 <= k < i ==> !((#[trigger] item_views(items@)[k]).id == id@ && is_done(
                    item_views(items@)[k].status,
                )),
        decreases items@.len() - i,
    {
        if text::same(items[i].id.as_str(), id) && status_is_done(items[i].status.as_str()) {
            assert(item_views(items@)[i as int].id == id@);
            return true;
        }
        i = i + 1;
    }
    false
}

/// The unfinished items: those whose id no finished item has.
pub open spec fn active_items(items: Seq<ItemView>) -> Seq<ItemView> {
    items.filter(|x: ItemView| !done_id(items, x.id))
}

/// The positions of the unfinished items.
fn find_active(items: &[ItemInfo]) -> (act: Vec<usize>)
    ensures
        act@.len() <= items@.len(),
        forall|k: int| 0 <= k < act@.len() ==> (#[trigger] act@[k]) < items@.len(),
        sorting::pick(item_views(items@), act@) == active_items(item_views(items@)),
{
    let ghost all = item_views(items@);
    let ghost pred = |x: ItemView| !done_id(all, x.id);
    let mut act: Vec<usize> = Vec::new();
    let mut i: usize = 0;
    while i < items.len()
        invariant
            i <= items@.len(),
            all == item_views(items@),
            pred == (|x: ItemView| !done_id(all, x.id)),
            act@.len() <= i,
            forall|k: int| 0 <= k < act@.len() ==> (#[trigger] act@[k]) < items@.len(),
            sorting::pick(all, act@) == all.take(i as int).filter(pred),
        decreases items@.len() - i,
    {
        let ghost before = act@;
        assert(all.take(i + 1) =~= all.take(i as int).push(all[i as int]));
        proof {
            all.take(i as int).lemma_filter_push(all[i as int], pred);
        }
        if !id_is_done(items, items[i].id.as_str()) {
            act.push(i);
            assert(sorting::pick(all, act@) =~= sorting::pick(all, before).push(all[i as int]));
        }
        i = i + 1;
    }
    assert(all.take(i as int) =~= all);
    act
}

// ---- waiting -------------------------------------------------------------------------

pub open spec fn has_id(active: Seq<ItemView>, id: Seq<char>) -> bool {
    exists|c: int| 0 <= c < active.len() && (#[trigger] active[c]).id == id
}

/// Whether an unfinished item with the first id depends on an unfinished item
/// with the second.
pub open spec fn waits_on(active: Seq<ItemView>, id: Seq<char>, other: Seq<char>) -> bool {
    has_id(active, other) && exists|b: int|
        0 <= b < active.len() && (#[trigger] active[b]).id == id && active[b].depends_on.contains(
            other,
        )
}

/// Whether every chain of waiting that starts at `id` has at most `r` items.
pub open spec fn settled(active: Seq<ItemView>, id: Seq<char>, r: nat) -> bool
    decreases r,
{
    r > 0 && forall|other: Seq<char>| #[trigger]
        waits_on(active, id, other) ==> settled(active, other, (r - 1) as nat)
}

/// Whether no two unfinished items share an id.
pub open spec fn ids_distinct(active: Seq<ItemView>) -> bool {
    forall|i: int, j: int|
        0 <= i < j < active.len() ==> (#[trigger] active[i]).id != (#[trigger] active[j]).id
}

/// Whether the unfinished items can be put in an order: no two share an id and
/// none waits for ever.
pub open spec fn resolvable(active: Seq<ItemView>) -> bool {
    ids_distinct(active) && forall|i: int|
        0 <= i < active.len() ==> settled(active, (#[trigger] active[i]).id, active.len())
}

/// The positions below `n` of the items with an id.
spec fn ids_at(active: Seq<ItemView>, id: Seq<char>, n: nat) -> Seq<usize>
    decreases n,
{
    if n == 0 {
        Seq::empty()
    } else {
        let before = ids_at(active, id, (n - 1) as nat);
        if active[n - 1].id == id {
            before.push((n - 1) as usize)
        } else {
            before
        }
    }
}

/// The positions of the items named by the first `n` entries of a list.
spec fn deps_in(active: Seq<ItemView>, list: Seq<Seq<char>>, n: nat) -> Seq<usize>
    decreases n,
{
    if n == 0 {
        Seq::empty()
    } else {
        deps_in(active, list, (n - 1) as nat) + ids_at(active, list[n - 1], active.len())
    }
}

/// The positions that the items with an id, among the first `n`, wait for.
spec fn deps_merged(active: Seq<ItemView>, id: Seq<char>, n: nat) -> Seq<usize>
    decreases n,
{
    if n == 0 {
        Seq::empty()
    } else {
        let before = deps_merged(active, id, (n - 1) as nat);
        if active[n - 1].id == id {
            before + deps_in(active, active[n - 1].depends_on, active[n - 1].depends_on.len())
        } else {
            before
        }
    }
}

spec fn graph_of(active: Seq<ItemView>) -> Seq<Seq<usize>> {
    Seq::new(active.len(), |a: int| deps_merged(active, active[a].id, active.len()))
}

proof fn lemma_ids_at(active: Seq<ItemView>, id: Seq<char>, n: nat)
    requires
        n <= active.len() <= usize::MAX,
    ensures
        forall|c: usize|
            #[trigger] ids_at(active, id, n).contains(c) <==> c < n && active[c as int].id == id,
    decreases n,
{
    if n > 0 {
        lemma_ids_at(active, id, (n - 1) as nat);
        let before = ids_at(active, id, (n - 1) as nat);
        let last = (n - 1) as usize;
        assert forall|c: usize| #[trigger] ids_at(active, id, n).contains(c) <==> c < n
            && active[c as int].id == id by {
            broadcast use vstd::seq_lib::group_seq_properties;

            if active[n - 1].id == id {
                assert(before.push(last).contains(c) <==> before.contains(c) || c == last);
            }
            assert(before.contains(c) <==> c < n - 1 && active[c as int].id == id);
        }
    }
}

proof fn lemma_deps_in(active: Seq<ItemView>, list: Seq<Seq<char>>, n: nat)
    requires
        n <= list.len(),
        active.len() <= usize::MAX,
    ensures
        forall|c: usize|
            #[trigger] deps_in(active, list, n).contains(c) <==> c < active.len() && list.take(
                n as int,
            ).contains(active[c as int].id),
    decreases n,
{
    if n > 0 {
        lemma_deps_in(active, list, (n - 1) as nat);
        lemma_ids_at(active, list[n - 1], active.len());
        let before = deps_in(active, list, (n - 1) as nat);
        let here = ids_at(active, list[n - 1], active.len());
        assert forall|c: usize| #[trigger] deps_in(active, list, n).contains(c) <==> c
            < active.len() && list.take(n as int).contains(active[c as int].id) by {
            vstd::seq_lib::lemma_seq_concat_contains_all_elements(before, here, c);
            assert(before.contains(c) <==> c < active.len() && list.take(n - 1).contains(
                active[c as int].id,
            ));
            assert(here.contains(c) <==> c < active.len() && active[c as int].id == list[n - 1]);
            let id = active[c as int].id;
            assert(list.take(n as int) =~= list.take(n - 1).push(list[n - 1]));
            vstd::seq_lib::lemma_seq_contains_after_push(list.take(n - 1), list[n - 1], id);
        }
    } else {
        assert forall|c: usize| #[trigger] deps_in(active, list, n).contains(c) <==> c
            < active.len() && list.take(n as int).contains(active[c as int].id) by {
            assert(list.take(0).len() == 0);
        }
    }
}

/// Whether an item among the first `n` with id `id` depends on `other`.
spec fn waits_within(active: Seq<ItemView>, id: Seq<char>, other: Seq<char>, n: nat) -> bool {
    exists|b: int|
        0 <= b < n && (#[trigger] active[b]).id == id && active[b].depends_on.contains(other)
}

proof fn lemma_deps_merged(active: Seq<ItemView>, id: Seq<char>, n: nat)
    requires
        n <= active.len() <= usize::MAX,
    ensures
        forall|c: usize|
            #[trigger] deps_merged(active, id, n).contains(c) <==> c < active.len()
                && waits_within(active, id, active[c as int].id, n),
    decreases n,
{
    if n > 0 {
        lemma_deps_merged(active, id, (n - 1) as nat);
        let before = deps_merged(active, id, (n - 1) as nat);
        let list = active[n - 1].depends_on;
        let here = deps_in(active, list, list.len());
        lemma_deps_in(active, list, list.len());
        assert(list.take(list.len() as int) =~= list);
        assert forall|c: usize| #[trigger] deps_merged(active, id, n).contains(c) <==> c
            < active.len() && waits_within(active, id, active[c as int].id, n) by {
            vstd::seq_lib::lemma_seq_concat_contains_all_elements(before, here, c);
            assert(before.contains(c) <==> c < active.len() && waits_within(
                active,
                id,
                active[c as int].id,
                (n - 1) as nat,
            ));
            let other = active[c as int].id;
            if waits_within(active, id, other, n) {
                let b = choose|b: int|
                    0 <= b < n && (#[trigger] active[b]).id == id
                        && active[b].depends_on.contains(other);
                if b < n - 1 {
                    assert(waits_within(active, id, other, (n - 1) as nat));
                }
            }
            if waits_within(active, id, other, (n - 1) as nat) {
                let b = choose|b: int|
                    0 <= b < n - 1 && (#[trigger] active[b]).id == id
                        && active[b].depends_on.contains(other);
                assert(active[b].id == id);
            }
        }
    }
}

proof fn lemma_graph(active: Seq<ItemView>)
    requires
        active.len() <= usize::MAX,
    ensures
        graph::graph_ok(graph_of(active)),
        forall|a: int, c: int|
            0 <= a < active.len() && 0 <= c < active.len() ==> #[trigger] graph::waits_for(
                graph_of(active),
                a,
                c,
            ) == waits_on(active, active[a].id, active[c].id),
{
    let g = graph_of(active);
    assert forall|i: int, k: int| 0 <= i < g.len() && 0 <= k < g[i].len() implies (
    #[trigger] g[i][k]) < g.len() by {
        lemma_deps_merged(active, active[i].id, active.len());
        assert(deps_merged(active, active[i].id, active.len()).contains(g[i][k]));
    }
    assert forall|a: int, c: int|
        0 <= a < active.len() && 0 <= c < active.len() implies #[trigger] graph::waits_for(g, a, c)
        == waits_on(active, active[a].id, active[c].id) by {
        lemma_deps_merged(active, active[a].id, active.len());
        assert(has_id(active, active[c].id));
        let list = deps_merged(active, active[a].id, active.len());
        assert(list.contains(c as usize) <==> waits_within(
            active,
            active[a].id,
            active[c].id,
            active.len(),
        ));
        if graph::waits_for(g, a, c) {
            let k = choose|k: int| 0 <= k < g[a].len() && #[trigger] g[a][k] == c;
            assert(list[k] == c as usize);
        }
        if list.contains(c as usize) {
            let k = choose|k: int| 0 <= k < list.len() && list[k] == c as usize;
            assert(g[a][k] == c);
        }
    }
}

proof fn lemma_settled(active: Seq<ItemView>, a: int, r: nat)
    requires
        active.len() <= usize::MAX,
        0 <= a < active.len(),
    ensures
        graph::settles_by(graph_of(active), a, r) == settled(active, active[a].id, r),
    decreases r,
{
    let g = graph_of(active);
    lemma_graph(active);
    if r > 0 {
        if graph::settles_by(g, a, r) {
            assert forall|other: Seq<char>| #[trigger]
                waits_on(active, active[a].id, other) implies settled(
                active,
                other,
                (r - 1) as nat,
            ) by {
                let c = choose|c: int| 0 <= c < active.len() && (#[trigger] active[c]).id == other;
                assert(graph::waits_for(g, a, c));
                let k = choose|k: int| 0 <= k < g[a].len() && #[trigger] g[a][k] == c;
                assert(graph::settles_by(g, g[a][k] as int, (r - 1) as nat));
                lemma_settled(active, c, (r - 1) as nat);
            }
        }
        if settled(active, active[a].id, r) {
            assert forall|k: int| 0 <= k < g[a].len() implies graph::settles_by(
                g,
                (#[trigger] g[a][k]) as int,
                (r - 1) as nat,
            ) by {
                let c = g[a][k] as int;
                assert(g[a][k] < g.len());
                assert(graph::waits_for(g, a, c));
                assert(waits_on(active, active[a].id, active[c].id));
                lemma_settled(active, c, (r - 1) as nat);
            }
        }
    }
}

/// Adds the positions of the unfinished items with an id.
fn push_ids(items: &[ItemInfo], act: &Vec<usize>, id: &str, out: &mut Vec<usize>)
    requires
        forall|k: int| 0 <= k < act@.len() ==> (#[trigger] act@[k]) < items@.len(),
    ensures
        final(out)@ == old(out)@ + ids_at(
            sorting::pick(item_views(items@), act@),
            id@,
            act@.len(),
        ),
{
    let ghost active = sorting::pick(item_views(items@), act@);
    let ghost start = out@;
    let mut c: usize = 0;
    assert(out@ =~= start + ids_at(active, id@, 0));
    while c < act.len()
        invariant
            c <= act@.len(),
            forall|k: int| 0 <= k < act@.len() ==> (#[trigger] act@[k]) < items@.len(),
            active == sorting::pick(item_views(items@), act@),
            out@ == start + ids_at(active, id@, c as nat),
        decreases act@.len() - c,
    {
        assert(act@[c as int] < items@.len());
        assert(active[c as int].id == items@[act@[c as int] as int].id@);
        if text::same(items[act[c]].id.as_str(), id) {
            out.push(c);
            assert(out@ =~= start + ids_at(active, id@, (c + 1) as nat));
        }
        c = c + 1;
    }
}

/// Adds the positions of the unfinished items that a list names.
fn push_deps(items: &[ItemInfo], act: &Vec<usize>, list: &Vec<String>, out: &mut Vec<usize>)
    requires
        forall|k: int| 0 <= k < act@.len() ==> (#[trigger] act@[k]) < items@.len(),
    ensures
        final(out)@ == old(out)@ + deps_in(
            sorting::pick(item_views(items@), act@),
            text::views(list@),
            list@.len(),
        ),
{
    let ghost active = sorting::pick(item_views(items@), act@);
    let ghost start = out@;
    let mut q: usize = 0;
    assert(out@ =~= start + deps_in(active, text::views(list@), 0));
    while q < list.len()
        invariant
            q <= list@.len(),
            forall|k: int| 0 <= k < act@.len() ==> (#[trigger] act@[k]) < items@.len(),
            active == sorting::pick(item_views(items@), act@),
            out@ == start + deps_in(active, text::views(list@), q as nat),
        decreases list@.len() - q,
    {
        push_ids(items, act, list[q].as_str(), out);
        assert(out@ =~= start + deps_in(active, text::views(list@), (q + 1) as nat));
        q = q + 1;
    }
}

/// The graph of the unfinished items: for each what it waits for.
fn build_graph(items: &[ItemInfo], act: &Vec<usize>) -> (deps: Vec<Vec<usize>>)
    requires
        forall|k: int| 0 <= k < act@.len() ==> (#[trigger] act@[k]) < items@.len(),
    ensures
        graph::graph_view(deps@) == graph_of(sorting::pick(item_views(items@), act@)),
{
    let ghost active = sorting::pick(item_views(items@), act@);
    let mut deps: Vec<Vec<usize>> = Vec::new();
    let mut a: usize = 0;
    while a < act.len()
        invariant
            a <= act@.len(),
            forall|k: int| 0 <= k < act@.len() ==> (#[trigger] act@[k]) < items@.len(),
            active == sorting::pick(item_views(items@), act@),
            deps@.len() == a,
            forall|k: int|
                0 <= k < a ==> (#[trigger] deps@[k])@ == deps_merged(
                    active,
                    active[k].id,
                    active.len(),
                ),
        decreases act@.len() - a,
    {
        let mut out: Vec<usize> = Vec::new();
        let mut b: usize = 0;
        assert(act@[a as int] < items@.len());
        assert(active[a as int].id == items@[act@[a as int] as int].id@);
        while b < act.len()
            invariant
                a < act@.len(),
                b <= act@.len(),
                forall|k: int| 0 <= k < act@.len() ==> (#[trigger] act@[k]) < items@.len(),
                active == sorting::pick(item_views(items@), act@),
                active[a as int].id == items@[act@[a as int] as int].id@,
                out@ == deps_merged(active, active[a as int].id, b as nat),
            decreases act@.len() - b,
        {
            assert(act@[b as int] < items@.len());
            assert(active[b as int] == items@[act@[b as int] as int]@);
            if text::same(items[act[b]].id.as_str(), items[act[a]].id.as_str()) {
                push_deps(items, act, &items[act[b]].depends_on, &mut out);
            }
            b = b + 1;
        }
        deps.push(out);
        a = a + 1;
    }
    assert(graph::graph_view(deps@) =~= graph_of(active));
    deps
}

// ---- what the analysis finds -------------------------------------------------------------

pub open spec fn ids(active: Seq<ItemView>) -> Seq<Seq<char>> {
    Seq::new(active.len(), |i: int| active[i].id)
}

/// Depths: an item lies deeper than everything it waits for, and one deeper than
/// the deepest of it.
pub open spec fn depths_ok(active: Seq<ItemView>, depth: Seq<u32>) -> bool {
    &&& depth.len() == active.len()
    &&& forall|a: int, b: int|
        0 <= a < active.len() && 0 <= b < active.len() && #[trigger] waits_on(
            active,
            active[a].id,
            active[b].id,
        ) ==> depth[b] < depth[a]
    &&& forall|a: int| 0 <= a < active.len() ==> #[trigger] depth_reached(active, depth, a)
}

/// Whether an item lies at depth 0 or waits for one that lies one less deep.
pub open spec fn depth_reached(active: Seq<ItemView>, depth: Seq<u32>, a: int) -> bool {
    depth[a] > 0 ==> exists|b: int|
        0 <= b < active.len() && #[trigger] waits_on(active, active[a].id, active[b].id) && depth[b]
            + 1 == depth[a]
}

/// How many depths there are.
pub open spec fn depth_span(depth: Seq<u32>) -> nat
    decreases depth.len(),
{
    if depth.len() == 0 {
        0
    } else {
        let before = depth_span(depth.drop_last());
        if depth.last() >= before {
            (depth.last() + 1) as nat
        } else {
            before
        }
    }
}

/// The positions below `n` of the items at a depth.
pub open spec fn at_depth(depth: Seq<u32>, level: int, n: nat) -> Seq<usize>
    decreases n,
{
    if n == 0 {
        Seq::empty()
    } else {
        let before = at_depth(depth, level, (n - 1) as nat);
        if depth[n - 1] == level {
            before.push((n - 1) as usize)
        } else {
            before
        }
    }
}

/// The sort keys of the items at the given positions.
pub open spec fn keys_at(active: Seq<ItemView>, positions: Seq<usize>) -> Seq<(u8, i32, i32)> {
    Seq::new(positions.len(), |i: int| sort_key_spec(active[positions[i] as int]))
}

/// The ids of the items at the given positions, most urgent first and equally
/// urgent ones in the order of the positions.
pub open spec fn ranked(active: Seq<ItemView>, positions: Seq<usize>) -> Seq<Seq<char>> {
    sorting::pick(
        sorting::pick(ids(active), positions),
        sorting::stable_order::<(u8, i32, i32)>(keys_at(active, positions)),
    )
}

/// Whether the item at a position depends on an unfinished item.
pub open spec fn has_unmet(active: Seq<ItemView>, a: int) -> bool {
    exists|q: int|
        0 <= q < active[a].depends_on.len() && has_id(active, #[trigger] active[a].depends_on[q])
}

/// The positions below `n` of the items that do (or do not) depend on an
/// unfinished item.
pub open spec fn with_unmet(active: Seq<ItemView>, unmet: bool, n: nat) -> Seq<usize>
    decreases n,
{
    if n == 0 {
        Seq::empty()
    } else {
        let before = with_unmet(active, unmet, (n - 1) as nat);
        if has_unmet(active, n - 1) == unmet {
            before.push((n - 1) as usize)
        } else {
            before
        }
    }
}

/// A chain of ids in which each waits on the next.
pub open spec fn is_wait_chain(active: Seq<ItemView>, p: Seq<Seq<char>>) -> bool {
    p.len() >= 2 && forall|k: int| 0 <= k < p.len() - 1 ==> #[trigger] linked(active, p, k)
}

pub open spec fn linked(active: Seq<ItemView>, p: Seq<Seq<char>>, k: int) -> bool {
    waits_on(active, p[k], p[k + 1])
}

/// Whether an item waits on another, directly or through others.
pub open spec fn waits_through(active: Seq<ItemView>, id: Seq<char>, other: Seq<char>) -> bool {
    exists|p: Seq<Seq<char>>| #[trigger]
        is_wait_chain(active, p) && p[0] == id && p.last() == other
}

/// How many items wait on an id, directly or through others.
pub open spec fn downstream_spec(active: Seq<ItemView>, id: Seq<char>) -> nat {
    active.filter(|x: ItemView| waits_through(active, x.id, id)).len()
}

/// Whether the item at `b` is the last dependency of the item at `a` among its
/// deepest ones.
pub open spec fn last_deepest_dep(active: Seq<ItemView>, depth: Seq<u32>, a: int, b: int) -> bool {
    depth[b] + 1 == depth[a] && exists|q: int| #[trigger]
        nothing_deeper_after(active, depth, a, q) && active[a].depends_on[q] == active[b].id
}

pub open spec fn nothing_deeper_after(
    active: Seq<ItemView>,
    depth: Seq<u32>,
    a: int,
    q: int,
) -> bool {
    &&& 0 <= q < active[a].depends_on.len()
    &&& forall|r: int, c: int|
        q < r < active[a].depends_on.len() && 0 <= c < active.len() && #[trigger] active[c].id
            == #[trigger] active[a].depends_on[r] ==> depth[c] + 1 < depth[a]
}

/// Whether all that the item at `a` waits on is among the first `t` of an order.
pub open spec fn free_by(active: Seq<ItemView>, order: Seq<usize>, a: int, t: nat) -> bool {
    forall|b: int|
        0 <= b < active.len() && #[trigger] waits_on(active, active[a].id, active[b].id)
            ==> order.take(t as int).contains(b as usize)
}

/// Whether the item at `a` becomes free when the first `t` of an order have been taken up.
pub open spec fn freed_at(active: Seq<ItemView>, order: Seq<usize>, a: int, t: nat) -> bool {
    free_by(active, order, a, t) && (t > 0 ==> !free_by(active, order, a, (t - 1) as nat))
}

/// Whether all positions stand in an order in which the items become free, those that
/// become free at once in the order of the list. `freed` tells how many had been taken up
/// when each became free.
pub open spec fn taken_as_freed(active: Seq<ItemView>, order: Seq<usize>, freed: Seq<nat>) -> bool {
    &&& order.len() == active.len()
    &&& order.no_duplicates()
    &&& freed.len() == order.len()
    &&& forall|i: int|
        0 <= i < order.len() ==> (#[trigger] order[i]) < active.len() && freed[i] <= i && freed_at(
            active,
            order,
            order[i] as int,
            freed[i],
        )
    &&& forall|a: int, b: int|
        0 <= a < b < order.len() ==> #[trigger] graph::freed_first(order, freed, a, b)
}

/// Whether positions stand in the order in which the items can be taken up: first those
/// that wait on nothing, then each when the last that it waits on has been taken up.
pub open spec fn is_work_order(active: Seq<ItemView>, order: Seq<usize>) -> bool {
    exists|freed: Seq<nat>| #[trigger] taken_as_freed(active, order, freed)
}

/// Whether a position is the first in an order at the greatest depth.
pub open spec fn is_first_deepest(depth: Seq<u32>, order: Seq<usize>, at: usize) -> bool {
    exists|k: int|
        0 <= k < order.len() && #[trigger] order[k] == at && depth[at as int] + 1 == depth_span(depth)
            && forall|j: int|
            0 <= j < k ==> depth[(#[trigger] order[j]) as int] + 1 < depth_span(depth)
}

/// The critical path, by position: from depth 0 to the first item of an order at the
/// greatest depth, at every step the last of the deepest dependencies.
pub open spec fn is_critical_chain(
    active: Seq<ItemView>,
    depth: Seq<u32>,
    order: Seq<usize>,
    p: Seq<usize>,
) -> bool {
    &&& p.len() == depth_span(depth)
    &&& forall|k: int|
        0 <= k < p.len() ==> (#[trigger] p[k]) < active.len() && depth[p[k] as int] == k
    &&& is_first_deepest(depth, order, p.last())
    &&& forall|k: int|
        0 < k < p.len() ==> last_deepest_dep(
            active,
            depth,
            (#[trigger] p[k]) as int,
            p[k - 1] as int,
        )
}

/// The depths that a result lists.
pub open spec fn depth_values(r: CriticalPathResult) -> Seq<u32> {
    Seq::new(r.depth@.len(), |i: int| r.depth@[i].1)
}

/// Whether ids are those of the critical path; there is none where all items lie at one
/// depth.
pub open spec fn is_longest_path(
    active: Seq<ItemView>,
    depth: Seq<u32>,
    order: Seq<usize>,
    path: Seq<Seq<char>>,
) -> bool {
    if depth_span(depth) <= 1 {
        path.len() == 0
    } else {
        exists|p: Seq<usize>| #[trigger]
            is_critical_chain(active, depth, order, p) && path == sorting::pick(ids(active), p)
    }
}

/// Whether a result is the analysis of these unfinished items.
pub open spec fn is_analysis(active: Seq<ItemView>, r: CriticalPathResult) -> bool {
    let depth = depth_values(r);
    &&& depths_ok(active, depth)
    &&& forall|i: int| 0 <= i < active.len() ==> (#[trigger] r.depth@[i]).0@ == active[i].id
    &&& exists|order: Seq<usize>| #[trigger]
        is_work_order(active, order) && text::views(r.ordered@) == sorting::pick(
            ids(active),
            order,
        ) && is_longest_path(active, depth, order, text::views(r.longest_path@))
    &&& r.depth_groups@.len() == depth_span(depth)
    &&& forall|l: int|
        0 <= l < r.depth_groups@.len() ==> (#[trigger] r.depth_groups@[l]).0 == l && text::views(
            r.depth_groups@[l].1@,
        ) == ranked(active, at_depth(depth, l, active.len()))
    &&& text::views(r.ready@) == ranked(active, with_unmet(active, false, active.len()))
    &&& text::views(r.blocked@) == sorting::pick(
        ids(active),
        with_unmet(active, true, active.len()),
    )
    &&& r.downstream_count@.len() == active.len()
    &&& forall|i: int|
        0 <= i < active.len() ==> (#[trigger] r.downstream_count@[i]).0@ == active[i].id
            && r.downstream_count@[i].1 == downstream_spec(active, active[i].id)
}

/// How an item is named in a message: its id and its title.
pub open spec fn label_spec(item: ItemView) -> Seq<char> {
    item.id + " ("@ + item.title + ")"@
}

/// The message when the items cannot be ordered: it names those that wait for
/// ever.
pub open spec fn cycle_message_spec(active: Seq<ItemView>) -> Seq<char> {
    let stuck = active.filter(|x: ItemView| !settled(active, x.id, active.len()));
    "Dependency cycle detected among: "@ + text::join_spec(
        stuck.map_values(|x: ItemView| label_spec(x)),
        ", "@,
    )
}

// ---- pieces of the analysis ------------------------------------------------------------------

/// The id at a position among the unfinished items.
fn id_at(items: &[ItemInfo], act: &Vec<usize>, a: usize) -> (r: String)
    requires
        forall|k: int| 0 <= k < act@.len() ==> (#[trigger] act@[k]) < items@.len(),
        a < act@.len(),
    ensures
        r@ == sorting::pick(item_views(items@), act@)[a as int].id,
{
    assert(act@[a as int] < items@.len());
    items[act[a]].id.clone()
}

fn ids_at_positions(items: &[ItemInfo], act: &Vec<usize>, positions: &Vec<usize>) -> (r: Vec<
    String,
>)
    requires
        forall|k: int| 0 <= k < act@.len() ==> (#[trigger] act@[k]) < items@.len(),
        forall|k: int| 0 <= k < positions@.len() ==> (#[trigger] positions@[k]) < act@.len(),
    ensures
        text::views(r@) == sorting::pick(
            ids(sorting::pick(item_views(items@), act@)),
            positions@,
        ),
{
    let ghost active = sorting::pick(item_views(items@), act@);
    let mut r: Vec<String> = Vec::new();
    let mut i: usize = 0;
    while i < positions.len()
        invariant
            i <= positions@.len(),
            forall|k: int| 0 <= k < act@.len() ==> (#[trigger] act@[k]) < items@.len(),
            forall|k: int| 0 <= k < positions@.len() ==> (#[trigger] positions@[k]) < act@.len(),
            active == sorting::pick(item_views(items@), act@),
            r@.len() == i,
            forall|k: int| 0 <= k < i ==> (#[trigger] r@[k])@ == active[positions@[k] as int].id,
        decreases positions@.len() - i,
    {
        assert(positions@[i as int] < act@.len());
        r.push(id_at(items, act, positions[i]));
        i = i + 1;
    }
    assert(text::views(r@) =~= sorting::pick(ids(active), positions@));
    r
}

fn rank_positions(items: &[ItemInfo], act: &Vec<usize>, positions: &Vec<usize>) -> (r: Vec<String>)
    requires
        forall|k: int| 0 <= k < act@.len() ==> (#[trigger] act@[k]) < items@.len(),
        forall|k: int| 0 <= k < positions@.len() ==> (#[trigger] positions@[k]) < act@.len(),
    ensures
        text::views(r@) == ranked(sorting::pick(item_views(items@), act@), positions@),
{
    let ghost active = sorting::pick(item_views(items@), act@);
    let mut keys: Vec<(u8, i32, i32)> = Vec::new();
    let mut i: usize = 0;
    while i < positions.len()
        invariant
            i <= positions@.len(),
            forall|k: int| 0 <= k < act@.len() ==> (#[trigger] act@[k]) < items@.len(),
            forall|k: int| 0 <= k < positions@.len() ==> (#[trigger] positions@[k]) < act@.len(),
            active == sorting::pick(item_views(items@), act@),
            keys@.len() == i,
            forall|k: int|
                0 <= k < i ==> #[trigger] keys@[k] == sort_key_spec(active[positions@[k] as int]),
        decreases positions@.len() - i,
    {
        assert(positions@[i as int] < act@.len());
        assert(act@[positions@[i as int] as int] < items@.len());
        keys.push(sort_key(&items[act[positions[i]]]));
        i = i + 1;
    }
    assert(sorting::models(keys@) =~= keys_at(active, positions@));
    let order: Vec<usize> = sorting::sort_positions(&keys);
    let mut sorted: Vec<usize> = Vec::new();
    let mut j: usize = 0;
    while j < order.len()
        invariant
            j <= order@.len(),
            forall|k: int| 0 <= k < order@.len() ==> (#[trigger] order@[k]) < positions@.len(),
            forall|k: int| 0 <= k < positions@.len() ==> (#[trigger] positions@[k]) < act@.len(),
            sorted@.len() == j,
            forall|k: int|
                0 <= k < j ==> #[trigger] sorted@[k] == positions@[order@[k] as int] && sorted@[k]
                    < act@.len(),
        decreases order@.len() - j,
    {
        assert(order@[j as int] < positions@.len());
        assert(positions@[order@[j as int] as int] < act@.len());
        sorted.push(positions[order[j]]);
        j = j + 1;
    }
    let r: Vec<String> = ids_at_positions(items, act, &sorted);
    assert(text::views(r@) =~= ranked(active, positions@));
    r
}

fn ids_are_distinct(items: &[ItemInfo], act: &Vec<usize>) -> (r: bool)
    requires
        forall|k: int| 0 <= k < act@.len() ==> (#[trigger] act@[k]) < items@.len(),
    ensures
        r == ids_distinct(sorting::pick(item_views(items@), act@)),
{
    let ghost active = sorting::pick(item_views(items@), act@);
    let mut j: usize = 0;
    while j < act.len()
        invariant
            j <= act@.len(),
            forall|k: int| 0 <= k < act@.len() ==> (#[trigger] act@[k]) < items@.len(),
            active == sorting::pick(item_views(items@), act@),
            forall|a: int, b: int|
                0 <= a < b < j ==> (#[trigger] active[a]).id != (#[trigger] active[b]).id,
        decreases act@.len() - j,
    {
        let mut i: usize = 0;
        while i < j
            invariant
                i <= j < act@.len(),
                forall|k: int| 0 <= k < act@.len() ==> (#[trigger] act@[k]) < items@.len(),
                active == sorting::pick(item_views(items@), act@),
                forall|a: int| 0 <= a < i ==> (#[trigger] active[a]).id != active[j as int].id,
            decreases j - i,
        {
            assert(act@[i as int] < items@.len());
            assert(act@[j as int] < items@.len());
            if text::same(items[act[i]].id.as_str(), items[act[j]].id.as_str()) {
                assert(active[i as int].id == active[j as int].id);
                return false;
            }
            i = i + 1;
        }
        j = j + 1;
    }
    true
}

fn cycle_message(items: &[ItemInfo], act: &Vec<usize>, level: &Vec<usize>) -> (r: String)
    requires
        forall|k: int| 0 <= k < act@.len() ==> (#[trigger] act@[k]) < items@.len(),
        graph::levels_ok(graph_of(sorting::pick(item_views(items@), act@)), level@),
    ensures
        r@ == cycle_message_spec(sorting::pick(item_views(items@), act@)),
{
    let ghost active = sorting::pick(item_views(items@), act@);
    let ghost g = graph_of(active);
    let ghost pred = |x: ItemView| !settled(active, x.id, active.len());
    let ghost label = |x: ItemView| label_spec(x);
    let mut labels: Vec<String> = Vec::new();
    let mut a: usize = 0;
    assert(text::views(labels@) =~= active.take(0).filter(pred).map_values(label));
    while a < act.len()
        invariant
            a <= act@.len(),
            act@.len() == act.len(),
            forall|k: int| 0 <= k < act@.len() ==> (#[trigger] act@[k]) < items@.len(),
            active == sorting::pick(item_views(items@), act@),
            g == graph_of(active),
            graph::levels_ok(g, level@),
            pred == (|x: ItemView| !settled(active, x.id, active.len())),
            label == (|x: ItemView| label_spec(x)),
            text::views(labels@) == active.take(a as int).filter(pred).map_values(label),
        decreases act@.len() - a,
    {
        let ghost item = active[a as int];
        let ghost before = labels@;
        assert(act@[a as int] < items@.len());
        assert(item == items@[act@[a as int] as int]@);
        proof {
            assert(active.take(a + 1) =~= active.take(a as int).push(item));
            active.take(a as int).lemma_filter_push(item, pred);
            assert(graph::level_ok(g, a as int, level@[a as int]));
            lemma_settled(active, a as int, active.len());
            if level@[a as int] < act@.len() {
                graph::lemma_settles_monotone(
                    g,
                    a as int,
                    (level@[a as int] + 1) as nat,
                    active.len(),
                );
            }
            assert(pred(item) == (level@[a as int] == act@.len()));
        }
        if level[a] == act.len() {
            let item_ref: &ItemInfo = &items[act[a]];
            let mut l: String = item_ref.id.clone();
            l.append(" (");
            l.append(item_ref.title.as_str());
            l.append(")");
            labels.push(l);
            assert(text::views(labels@) =~= text::views(before).push(label_spec(item)));
            assert(active.take(a + 1).filter(pred).map_values(label) =~= active.take(
                a as int,
            ).filter(pred).map_values(label).push(label_spec(item)));
        }
        a = a + 1;
    }
    assert(active.take(a as int) =~= active);
    let mut r: String = text::owned("Dependency cycle detected among: ");
    let list: String = text::join(&labels, ", ");
    r.append(list.as_str());
    r
}

// ---- from positions to items ------------------------------------------------------------------

spec fn depths_of(level: Seq<usize>) -> Seq<u32> {
    Seq::new(level.len(), |i: int| level[i] as u32)
}

/// Whether every node of the items' graph has a level.
spec fn all_levels(active: Seq<ItemView>, level: Seq<usize>) -> bool {
    &&& active.len() <= u32::MAX
    &&& graph::levels_ok(graph_of(active), level)
    &&& forall|i: int| 0 <= i < active.len() ==> (#[trigger] level[i]) < active.len()
}

proof fn lemma_depths(active: Seq<ItemView>, level: Seq<usize>)
    requires
        all_levels(active, level),
    ensures
        depths_ok(active, depths_of(level)),
{
    let g = graph_of(active);
    let depth = depths_of(level);
    lemma_graph(active);
    assert forall|a: int, b: int|
        0 <= a < active.len() && 0 <= b < active.len() && #[trigger] waits_on(
            active,
            active[a].id,
            active[b].id,
        ) implies depth[b] < depth[a] by {
        assert(graph::waits_for(g, a, b));
        let k = choose|k: int| 0 <= k < g[a].len() && #[trigger] g[a][k] == b;
        assert(level[a] < active.len() && level[b] < active.len());
        graph::lemma_level_of_deps(g, level, a);
        assert(level[g[a][k] as int] < level[a]);
    }
    assert forall|a: int| 0 <= a < active.len() implies #[trigger] depth_reached(
        active,
        depth,
        a,
    ) by {
        assert(level[a] < active.len());
        graph::lemma_level_of_deps(g, level, a);
        if level[a] > 0 {
            let k = choose|k: int|
                0 <= k < g[a].len() && level[(#[trigger] g[a][k]) as int] + 1 == level[a];
            let b = g[a][k] as int;
            assert(g[a][k] < g.len());
            assert(graph::waits_for(g, a, b));
            assert(waits_on(active, active[a].id, active[b].id));
            assert(level[b] < active.len());
        }
    }
}

proof fn lemma_free(active: Seq<ItemView>, order: Seq<usize>, a: int, t: nat)
    requires
        active.len() <= usize::MAX,
        0 <= a < active.len(),
    ensures
        graph::free_by(graph_of(active), order, a, t) == free_by(active, order, a, t),
{
    let g = graph_of(active);
    lemma_graph(active);
    if graph::free_by(g, order, a, t) {
        assert forall|b: int|
            0 <= b < active.len() && #[trigger] waits_on(active, active[a].id, active[b].id) implies order.take(
            t as int,
        ).contains(b as usize) by {
            assert(graph::waits_for(g, a, b));
        }
    }
    if free_by(active, order, a, t) {
        assert forall|j: int| #[trigger] graph::waits_for(g, a, j) implies order.take(
            t as int,
        ).contains(j as usize) by {
            let k = choose|k: int| 0 <= k < g[a].len() && #[trigger] g[a][k] == j;
            assert(g[a][k] < g.len());
            assert(waits_on(active, active[a].id, active[j].id));
        }
    }
}

proof fn lemma_work_order(active: Seq<ItemView>, order: Seq<usize>, freed: Seq<nat>)
    requires
        active.len() <= usize::MAX,
        order.len() == active.len(),
        graph::in_release_order(graph_of(active), order, freed),
    ensures
        is_work_order(active, order),
{
    let g = graph_of(active);
    assert forall|i: int| 0 <= i < order.len() implies (#[trigger] order[i]) < active.len()
        && freed[i] <= i && freed_at(active, order, order[i] as int, freed[i]) by {
        assert(graph::freed_at(g, order, order[i] as int, freed[i]));
        lemma_free(active, order, order[i] as int, freed[i]);
        if freed[i] > 0 {
            lemma_free(active, order, order[i] as int, (freed[i] - 1) as nat);
        }
    }
    assert(taken_as_freed(active, order, freed));
}

proof fn lemma_through(active: Seq<ItemView>, a: int, c: int)
    requires
        active.len() <= usize::MAX,
        0 <= a < active.len(),
        0 <= c < active.len(),
    ensures
        graph::waits_through(graph_of(active), a, c) == waits_through(
            active,
            active[a].id,
            active[c].id,
        ),
{
    let g = graph_of(active);
    lemma_graph(active);
    if graph::waits_through(g, a, c) {
        let p = choose|p: Seq<int>|
            #[trigger] graph::is_chain(g, p) && p.len() >= 2 && p[0] == a && p.last() == c;
        let q = Seq::new(p.len(), |k: int| active[p[k]].id);
        assert forall|k: int| 0 <= k < q.len() - 1 implies #[trigger] linked(active, q, k) by {
            assert(graph::waits_for(g, p[k], p[k + 1]));
        }
        assert(is_wait_chain(active, q));
    }
    if waits_through(active, active[a].id, active[c].id) {
        let q = choose|q: Seq<Seq<char>>| #[trigger]
            is_wait_chain(active, q) && q[0] == active[a].id && q.last() == active[c].id;
        let n = q.len() as int;
        let p = Seq::new(
            q.len(),
            |k: int|
                if k == 0 {
                    a
                } else if k == n - 1 {
                    c
                } else {
                    choose|x: int| 0 <= x < active.len() && (#[trigger] active[x]).id == q[k]
                },
        );
        assert forall|k: int| 0 <= k < p.len() implies 0 <= #[trigger] p[k] < g.len()
            && active[p[k]].id == q[k] by {
            if 0 < k < n - 1 {
                assert(linked(active, q, k - 1));
                assert(has_id(active, q[k]));
            }
        }
        assert forall|k: int| 0 <= k < p.len() - 1 implies graph::waits_for(
            g,
            #[trigger] p[k],
            p[k + 1],
        ) by {
            assert(0 <= p[k + 1] < g.len());
            assert(linked(active, q, k));
        }
        assert(graph::is_chain(g, p));
    }
}

proof fn lemma_downstream(active: Seq<ItemView>, target: int, n: nat)
    requires
        active.len() <= usize::MAX,
        0 <= target < active.len(),
        n <= active.len(),
    ensures
        graph::waiting_count(graph_of(active), target, n) == active.take(n as int).filter(
            |x: ItemView| waits_through(active, x.id, active[target].id),
        ).len(),
    decreases n,
{
    let pred = |x: ItemView| waits_through(active, x.id, active[target].id);
    if n == 0 {
        assert(active.take(0).filter(pred).len() == 0);
    } else {
        lemma_downstream(active, target, (n - 1) as nat);
        lemma_through(active, n - 1, target);
        assert(active.take(n as int) =~= active.take(n - 1).push(active[n - 1]));
        active.take(n - 1).lemma_filter_push(active[n - 1], pred);
    }
}

/// Where the ids are distinct, the merged dependencies of an item are its own.
proof fn lemma_own_deps(active: Seq<ItemView>, a: int, n: nat)
    requires
        ids_distinct(active),
        0 <= a < active.len(),
        n <= active.len(),
    ensures
        deps_merged(active, active[a].id, n) == if n <= a {
            Seq::<usize>::empty()
        } else {
            deps_in(active, active[a].depends_on, active[a].depends_on.len())
        },
    decreases n,
{
    if n > 0 {
        lemma_own_deps(active, a, (n - 1) as nat);
        if n - 1 != a {
            if n - 1 < a {
                assert(active[n - 1].id != active[a].id);
            } else {
                assert(active[a].id != active[n - 1].id);
            }
        } else {
            assert(Seq::<usize>::empty() + deps_in(
                active,
                active[a].depends_on,
                active[a].depends_on.len(),
            ) =~= deps_in(active, active[a].depends_on, active[a].depends_on.len()));
        }
    }
}

/// The entry of a dependency list behind a position of its deps, with everything
/// after it less deep when everything after the position is.
proof fn lemma_last_entry(
    active: Seq<ItemView>,
    depth: Seq<u32>,
    list: Seq<Seq<char>>,
    n: nat,
    k: int,
    bound: int,
) -> (q: int)
    requires
        active.len() <= usize::MAX,
        n <= list.len(),
        0 <= k < deps_in(active, list, n).len(),
        forall|j: int|
            k < j < deps_in(active, list, n).len() ==> depth[(#[trigger] deps_in(
                active,
                list,
                n,
            )[j]) as int] < bound,
    ensures
        0 <= q < n,
        deps_in(active, list, n)[k] < active.len(),
        list[q] == active[deps_in(active, list, n)[k] as int].id,
        forall|r: int, c: int|
            q < r < n && 0 <= c < active.len() && #[trigger] active[c].id == #[trigger] list[r]
                ==> depth[c] < bound,
    decreases n,
{
    let before = deps_in(active, list, (n - 1) as nat);
    let here = ids_at(active, list[n - 1], active.len());
    let all = deps_in(active, list, n);
    lemma_ids_at(active, list[n - 1], active.len());
    if k >= before.len() {
        assert(all[k] == here[k - before.len()]);
        assert(here.contains(here[k - before.len()]));
        n - 1
    } else {
        assert forall|j: int| k < j < before.len() implies depth[(#[trigger] before[j]) as int]
            < bound by {
            assert(all[j] == before[j]);
        }
        let q = lemma_last_entry(active, depth, list, (n - 1) as nat, k, bound);
        assert(all[k] == before[k]);
        assert forall|r: int, c: int|
            q < r < n && 0 <= c < active.len() && #[trigger] active[c].id == #[trigger] list[r] implies depth[c]
            < bound by {
            if r == n - 1 {
                assert(here.contains(c as usize));
                let j = choose|j: int| 0 <= j < here.len() && here[j] == c as usize;
                assert(all[before.len() + j] == c as usize);
            }
        }
        q
    }
}

proof fn lemma_critical_chain(
    active: Seq<ItemView>,
    level: Seq<usize>,
    order: Seq<usize>,
    start: usize,
    p: Seq<usize>,
)
    requires
        all_levels(active, level),
        ids_distinct(active),
        start < active.len(),
        graph::is_deepest_chain(graph_of(active), level, start as int, p),
        level[start as int] + 1 == depth_span(depths_of(level)),
        is_first_deepest(depths_of(level), order, start),
    ensures
        is_critical_chain(active, depths_of(level), order, p),
{
    let g = graph_of(active);
    let depth = depths_of(level);
    lemma_graph(active);
    assert forall|k: int| 0 <= k < p.len() implies (#[trigger] p[k]) < active.len()
        && depth[p[k] as int] == k by {
        assert(level[p[k] as int] == k);
        assert(level[p[k] as int] < active.len());
    }
    assert forall|k: int| 0 < k < p.len() implies last_deepest_dep(
        active,
        depth,
        (#[trigger] p[k]) as int,
        p[k - 1] as int,
    ) by {
        let a = p[k] as int;
        let b = p[k - 1] as int;
        assert(graph::last_deepest(g, level, a, b));
        let at = choose|at: int| #[trigger]
            graph::last_deepest_at(g, level, a, at) && g[a][at] == b;
        let list = active[a].depends_on;
        lemma_own_deps(active, a, active.len());
        assert(g[a] == deps_in(active, list, list.len()));
        assert forall|j: int| at < j < deps_in(active, list, list.len()).len() implies depth[(
        #[trigger] deps_in(active, list, list.len())[j]) as int] < depth[a] - 1 by {
            assert(level[g[a][j] as int] + 1 < level[a]);
            assert(g[a][j] < g.len());
        }
        assert(g[a][at] < g.len());
        let q = lemma_last_entry(active, depth, list, list.len(), at, depth[a] - 1);
        assert(nothing_deeper_after(active, depth, a, q));
    }
}

// ---- the analysis ----------------------------------------------------------------------------

/// Whether the item at a position depends on an unfinished item.
fn item_has_unmet(items: &[ItemInfo], act: &Vec<usize>, a: usize) -> (r: bool)
    requires
        forall|k: int| 0 <= k < act@.len() ==> (#[trigger] act@[k]) < items@.len(),
        a < act@.len(),
    ensures
        r == has_unmet(sorting::pick(item_views(items@), act@), a as int),
{
    let ghost active = sorting::pick(item_views(items@), act@);
    assert(act@[a as int] < items@.len());
    let list: &Vec<String> = &items[act[a]].depends_on;
    assert(active[a as int].depends_on == text::views(list@));
    let mut q: usize = 0;
    while q < list.len()
        invariant
            q <= list@.len(),
            a < act@.len(),
            forall|k: int| 0 <= k < act@.len() ==> (#[trigger] act@[k]) < items@.len(),
            active == sorting::pick(item_views(items@), act@),
            active[a as int].depends_on == text::views(list@),
            forall|k: int|
                0 <= k < q ==> !has_id(active, #[trigger] active[a as int].depends_on[k]),
        decreases list@.len() - q,
    {
        let mut c: usize = 0;
        while c < act.len()
            invariant
                c <= act@.len(),
                q < list@.len(),
                a < act@.len(),
                forall|k: int| 0 <= k < act@.len() ==> (#[trigger] act@[k]) < items@.len(),
                active == sorting::pick(item_views(items@), act@),
                active[a as int].depends_on == text::views(list@),
                forall|k: int| 0 <= k < c ==> (#[trigger] active[k]).id != list@[q as int]@,
            decreases act@.len() - c,
        {
            assert(act@[c as int] < items@.len());
            if text::same(items[act[c]].id.as_str(), list[q].as_str()) {
                assert(active[c as int].id == active[a as int].depends_on[q as int]);
                return true;
            }
            c = c + 1;
        }
        q = q + 1;
    }
    false
}

/// The positions of the items that do (or do not) depend on an unfinished item.
fn find_unmet(items: &[ItemInfo], act: &Vec<usize>, unmet: bool) -> (r: Vec<usize>)
    requires
        forall|k: int| 0 <= k < act@.len() ==> (#[trigger] act@[k]) < items@.len(),
    ensures
        r@ == with_unmet(sorting::pick(item_views(items@), act@), unmet, act@.len()),
        forall|k: int| 0 <= k < r@.len() ==> (#[trigger] r@[k]) < act@.len(),
{
    let mut r: Vec<usize> = Vec::new();
    let mut a: usize = 0;
    while a < act.len()
        invariant
            a <= act@.len(),
            forall|k: int| 0 <= k < act@.len() ==> (#[trigger] act@[k]) < items@.len(),
            r@ == with_unmet(sorting::pick(item_views(items@), act@), unmet, a as nat),
            forall|k: int| 0 <= k < r@.len() ==> (#[trigger] r@[k]) < a,
        decreases act@.len() - a,
    {
        if item_has_unmet(items, act, a) == unmet {
            r.push(a);
        }
        a = a + 1;
    }
    r
}

/// The positions of the items at a depth.
fn find_at_depth(level: &Vec<usize>, l: usize) -> (r: Vec<usize>)
    requires
        forall|i: int| 0 <= i < level@.len() ==> (#[trigger] level@[i]) <= u32::MAX,
        l <= u32::MAX,
    ensures
        r@ == at_depth(depths_of(level@), l as int, level@.len()),
        forall|k: int| 0 <= k < r@.len() ==> (#[trigger] r@[k]) < level@.len(),
{
    let mut r: Vec<usize> = Vec::new();
    let mut a: usize = 0;
    while a < level.len()
        invariant
            a <= level@.len(),
            forall|i: int| 0 <= i < level@.len() ==> (#[trigger] level@[i]) <= u32::MAX,
            l <= u32::MAX,
            r@ == at_depth(depths_of(level@), l as int, a as nat),
            forall|k: int| 0 <= k < r@.len() ==> (#[trigger] r@[k]) < a,
        decreases level@.len() - a,
    {
        assert(level@[a as int] <= u32::MAX);
        if level[a] == l {
            r.push(a);
        }
        a = a + 1;
    }
    r
}

/// How many depths there are.
fn find_span(level: &Vec<usize>) -> (r: usize)
    requires
        forall|i: int| 0 <= i < level@.len() ==> (#[trigger] level@[i]) < u32::MAX,
    ensures
        r == depth_span(depths_of(level@)),
        r <= u32::MAX,
        level@.len() > 0 ==> exists|i: int|
            0 <= i < level@.len() && (#[trigger] level@[i]) + 1 == r,
        forall|i: int| 0 <= i < level@.len() ==> (#[trigger] level@[i]) + 1 <= r,
{
    let ghost depth = depths_of(level@);
    let mut span: usize = 0;
    let ghost mut deepest: int = 0;
    let mut i: usize = 0;
    assert(depth.take(0) =~= Seq::<u32>::empty());
    while i < level.len()
        invariant
            i <= level@.len(),
            depth == depths_of(level@),
            forall|i: int| 0 <= i < level@.len() ==> (#[trigger] level@[i]) < u32::MAX,
            span == depth_span(depth.take(i as int)),
            span <= u32::MAX,
            i > 0 ==> 0 <= deepest < i && level@[deepest] + 1 == span,
            i == 0 ==> span == 0,
            forall|k: int| 0 <= k < i ==> (#[trigger] level@[k]) + 1 <= span,
        decreases level@.len() - i,
    {
        assert(level@[i as int] < u32::MAX);
        assert(depth.take(i + 1).drop_last() =~= depth.take(i as int));
        assert(depth.take(i + 1).last() == depth[i as int]);
        if level[i] >= span {
            span = level[i] + 1;
            proof {
                deepest = i as int;
            }
        }
        i = i + 1;
    }
    assert(depth.take(i as int) =~= depth);
    span
}

/// The first position of an order at the greatest depth.
fn find_first_deepest(level: &Vec<usize>, order: &Vec<usize>, span: usize) -> (r: usize)
    requires
        forall|i: int| 0 <= i < level@.len() ==> (#[trigger] level@[i]) < u32::MAX,
        span == depth_span(depths_of(level@)),
        forall|k: int| 0 <= k < order@.len() ==> (#[trigger] order@[k]) < level@.len(),
        exists|i: int| 0 <= i < level@.len() && (#[trigger] level@[i]) + 1 == span,
        forall|i: int| 0 <= i < level@.len() ==> (#[trigger] level@[i]) + 1 <= span,
        forall|i: usize| i < level@.len() ==> #[trigger] order@.contains(i),
    ensures
        r < level@.len(),
        level@[r as int] + 1 == span,
        is_first_deepest(depths_of(level@), order@, r),
{
    let ghost depth = depths_of(level@);
    let ghost deepest = choose|i: int| 0 <= i < level@.len() && (#[trigger] level@[i]) + 1 == span;
    assert(deepest < level.len());
    assert(order@.contains(deepest as usize));
    let ghost place = choose|k: int| 0 <= k < order@.len() && order@[k] == deepest as usize;
    let mut k: usize = 0;
    while level[order[k]] + 1 != span
        invariant
            k <= place < order@.len(),
            order@[place] == deepest,
            0 <= deepest < level@.len(),
            level@[deepest] + 1 == span,
            depth == depths_of(level@),
            span == depth_span(depth),
            forall|i: int| 0 <= i < level@.len() ==> (#[trigger] level@[i]) < u32::MAX,
            forall|i: int| 0 <= i < level@.len() ==> (#[trigger] level@[i]) + 1 <= span,
            forall|k: int| 0 <= k < order@.len() ==> (#[trigger] order@[k]) < level@.len(),
            forall|j: int| 0 <= j < k ==> depth[(#[trigger] order@[j]) as int] + 1 < span,
        decreases place - k,
    {
        assert(level@[order@[k as int] as int] + 1 <= span);
        assert(k < order.len());
        k = k + 1;
    }
    assert(order@[k as int] == order[k as int]);
    order[k]
}

/// Analyses the unfinished items.
///
/// An item waits for the unfinished items it depends on. Where two unfinished
/// items share an id, or some wait for each other in a circle, there is no order
/// to work in, and the message names the items that wait for ever.
pub fn compute_critical_path(items: &[ItemInfo]) -> (r: Result<CriticalPathResult, String>)
    requires
        items@.len() <= u32::MAX,
    ensures
        r is Ok == resolvable(active_items(item_views(items@))),
        r is Ok ==> is_analysis(active_items(item_views(items@)), r->Ok_0),
        r is Err ==> r->Err_0@ == cycle_message_spec(active_items(item_views(items@))),
{
    let ghost active = active_items(item_views(items@));
    let act: Vec<usize> = find_active(items);
    let deps: Vec<Vec<usize>> = build_graph(items, &act);
    let ghost g = graph_of(active);
    proof {
        lemma_graph(active);
    }
    let (level, order) = graph::layer(&deps);
    let n: usize = act.len();
    assert(g.len() == n && level@.len() == n);
    let distinct: bool = ids_are_distinct(items, &act);
    if !distinct || order.len() < n {
        proof {
            if distinct {
                lemma_not_all_placed(active, level@, order@);
            }
        }
        return Err(cycle_message(items, &act, &level));
    }
    proof {
        graph::lemma_all_placed(order@, n as nat);
        assert forall|i: int| 0 <= i < n implies (#[trigger] level@[i]) < n by {
            assert(order@.contains(i as usize));
            let k = choose|k: int| 0 <= k < order@.len() && order@[k] == i as usize;
            assert(level@[order@[k] as int] < g.len());
        }
        assert(all_levels(active, level@));
        assert forall|i: int| 0 <= i < active.len() implies settled(
            active,
            (#[trigger] active[i]).id,
            active.len(),
        ) by {
            assert(level@[i] < n);
            assert(graph::level_ok(g, i, level@[i]));
            graph::lemma_settles_monotone(g, i, (level@[i] + 1) as nat, active.len());
            lemma_settled(active, i, active.len());
        }
        lemma_depths(active, level@);
    }
    let release: Vec<usize> = graph::release_order(&deps, &level);
    proof {
        let freed = choose|freed: Seq<nat>| #[trigger]
            graph::in_release_order(g, release@, freed);
        lemma_work_order(active, release@, freed);
        graph::lemma_all_placed(release@, n as nat);
    }
    let ordered: Vec<String> = ids_at_positions(items, &act, &release);
    let mut depth: Vec<(String, u32)> = Vec::new();
    let mut downstream_count: Vec<(String, usize)> = Vec::new();
    let mut i: usize = 0;
    while i < n
        invariant
            i <= n,
            n == act@.len(),
            n == deps@.len(),
            active == sorting::pick(item_views(items@), act@),
            forall|k: int| 0 <= k < act@.len() ==> (#[trigger] act@[k]) < items@.len(),
            g == graph_of(active),
            g == graph::graph_view(deps@),
            graph::graph_ok(g),
            graph::order_ok(g, level@, order@),
            all_levels(active, level@),
            depth@.len() == i,
            downstream_count@.len() == i,
            forall|k: int|
                0 <= k < i ==> (#[trigger] depth@[k]).0@ == active[k].id && depth@[k].1
                    == level@[k] as u32,
            forall|k: int|
                0 <= k < i ==> (#[trigger] downstream_count@[k]).0@ == active[k].id
                    && downstream_count@[k].1 == downstream_spec(active, active[k].id),
        decreases n - i,
    {
        assert(level@[i as int] < n);
        depth.push((id_at(items, &act, i), level[i] as u32));
        let count: usize = graph::count_waiting(&deps, &level, &order, i);
        proof {
            lemma_downstream(active, i as int, active.len());
            assert(active.take(active.len() as int) =~= active);
        }
        downstream_count.push((id_at(items, &act, i), count));
        i = i + 1;
    }
    assert forall|k: int| 0 <= k < n implies (#[trigger] level@[k]) < u32::MAX by {
        assert(level@[k] < n);
    }
    let span: usize = find_span(&level);
    let mut depth_groups: Vec<(u32, Vec<String>)> = Vec::new();
    let mut l: usize = 0;
    while l < span
        invariant
            l <= span <= u32::MAX,
            n == act@.len(),
            level@.len() == n,
            active == sorting::pick(item_views(items@), act@),
            forall|k: int| 0 <= k < act@.len() ==> (#[trigger] act@[k]) < items@.len(),
            forall|k: int| 0 <= k < n ==> (#[trigger] level@[k]) < u32::MAX,
            depth_groups@.len() == l,
            forall|k: int|
                0 <= k < l ==> (#[trigger] depth_groups@[k]).0 == k && text::views(
                    depth_groups@[k].1@,
                ) == ranked(active, at_depth(depths_of(level@), k, active.len())),
        decreases span - l,
    {
        let positions: Vec<usize> = find_at_depth(&level, l);
        depth_groups.push((l as u32, rank_positions(items, &act, &positions)));
        l = l + 1;
    }
    let longest_path: Vec<String> = if span <= 1 {
        Vec::new()
    } else {
        let first: usize = find_first_deepest(&level, &release, span);
        let chain: Vec<usize> = graph::deepest_chain(&deps, &level, first);
        proof {
            lemma_critical_chain(active, level@, release@, first, chain@);
        }
        ids_at_positions(items, &act, &chain)
    };
    let free: Vec<usize> = find_unmet(items, &act, false);
    let ready: Vec<String> = rank_positions(items, &act, &free);
    let held: Vec<usize> = find_unmet(items, &act, true);
    let blocked: Vec<String> = ids_at_positions(items, &act, &held);
    let r: CriticalPathResult = CriticalPathResult {
        ordered,
        depth,
        depth_groups,
        longest_path,
        ready,
        blocked,
        downstream_count,
    };
    assert(depth_values(r) =~= depths_of(level@));
    assert(is_longest_path(active, depths_of(level@), release@, text::views(r.longest_path@)));
    Ok(r)
}

proof fn lemma_not_all_placed(active: Seq<ItemView>, level: Seq<usize>, order: Seq<usize>)
    requires
        active.len() <= usize::MAX,
        graph::levels_ok(graph_of(active), level),
        graph::order_ok(graph_of(active), level, order),
        order.len() < active.len(),
    ensures
        !resolvable(active),
{
    let g = graph_of(active);
    if resolvable(active) {
        assert forall|i: int| 0 <= i < active.len() implies (#[trigger] level[i]) < active.len() by {
            lemma_settled(active, i, active.len());
            assert(settled(active, active[i].id, active.len()));
            assert(graph::level_ok(g, i, level[i]));
        }
        let ints = order.map_values(|x: usize| x as int);
        let all = vstd::set_lib::set_int_range(0, active.len() as int);
        vstd::set_lib::lemma_int_range(0, active.len() as int);
        assert(all.subset_of(ints.to_set())) by {
            assert forall|x: int| all.contains(x) implies ints.to_set().contains(x) by {
                assert(level[x] < active.len());
                assert(order.contains(x as usize));
                let k = choose|k: int| 0 <= k < order.len() && order[k] == x as usize;
                assert(ints[k] == x);
            }
        }
        ints.lemma_cardinality_of_set();
        vstd::set_lib::lemma_len_subset(all, ints.to_set());
    }
}

} // verus!
