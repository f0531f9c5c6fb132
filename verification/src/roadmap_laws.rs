//! What holds of roadmaps and worklists: no work is lost from sight, and none goes to
//! those who cannot take it.
use vstd::prelude::*;
use crate::critical_path;
use crate::critical_path::ItemView;
use crate::critical_path_laws;
use crate::keyed;
use crate::relations;
use crate::relations::EdgeView;
use crate::roadmap;
use crate::roadmap::GroupView;
use crate::sorting;
use crate::sorting::SortKey;
use crate::text;
use crate::worklist;
use crate::worklist::{AgentKey, CapabilityRouting, RowView};

verus! {

// ---- nothing is lost ----------------------------------------------------------------------------

proof fn lemma_named(
    related: Seq<Seq<char>>,
    voyage: Seq<char>,
    id: Seq<char>,
    k: int,
    n: nat,
)
    requires
        0 <= k < n <= related.len(),
        related[k] == voyage,
    ensures
        roadmap::named_times(related, voyage, id, n).contains(id),
    decreases n,
{
    let before = roadmap::named_times(related, voyage, id, (n - 1) as nat);
    let all = roadmap::named_times(related, voyage, id, n);
    if k == n - 1 {
        assert(all.last() == id);
    } else {
        lemma_named(related, voyage, id, k, (n - 1) as nat);
        let i = choose|i: int| 0 <= i < before.len() && before[i] == id;
        assert(all[i] == id);
    }
}

proof fn lemma_children(items: Seq<ItemView>, voyage: Seq<char>, i: int, k: int, n: nat)
    requires
        0 <= i < n <= items.len(),
        !roadmap::is_voyage(items[i]),
        0 <= k < items[i].related.len(),
        items[i].related[k] == voyage,
    ensures
        roadmap::children(items, voyage, n).contains(items[i].id),
    decreases n,
{
    let before = roadmap::children(items, voyage, (n - 1) as nat);
    let all = roadmap::children(items, voyage, n);
    let id = items[i].id;
    if i == n - 1 {
        let own = roadmap::named_times(items[i].related, voyage, id, items[i].related.len());
        lemma_named(items[i].related, voyage, id, k, items[i].related.len());
        let p = choose|p: int| 0 <= p < own.len() && own[p] == id;
        assert(all[before.len() + p] == id);
    } else {
        lemma_children(items, voyage, i, k, (n - 1) as nat);
        let p = choose|p: int| 0 <= p < before.len() && before[p] == id;
        assert(all[p] == id);
    }
}

proof fn lemma_not_all_done(items: Seq<ItemView>, list: Seq<Seq<char>>, p: int, n: nat)
    requires
        n <= list.len(),
        0 <= p < list.len(),
        !roadmap::is_done_item(items, list[p]),
    ensures
        roadmap::done_among(items, list, n) <= n,
        p < n ==> roadmap::done_among(items, list, n) < n,
    decreases n,
{
    if n > 0 {
        lemma_not_all_done(items, list, p, (n - 1) as nat);
    }
}

proof fn lemma_open_groups(items: Seq<ItemView>, w: int, n: nat)
    requires
        0 <= w < n <= items.len(),
        roadmap::is_voyage(items[w]),
        !roadmap::is_closed(roadmap::group_of(items, items[w])),
    ensures
        roadmap::open_groups(items, n).contains(roadmap::group_of(items, items[w])),
    decreases n,
{
    let before = roadmap::open_groups(items, (n - 1) as nat);
    let all = roadmap::open_groups(items, n);
    let group = roadmap::group_of(items, items[w]);
    if w == n - 1 {
        assert(all.last() == group);
    } else {
        lemma_open_groups(items, w, (n - 1) as nat);
        let p = choose|p: int| 0 <= p < before.len() && before[p] == group;
        assert(all[p] == group);
    }
}

proof fn lemma_groups_at_most(items: Seq<ItemView>, n: nat)
    ensures
        roadmap::open_groups(items, n).len() <= n,
    decreases n,
{
    if n > 0 {
        lemma_groups_at_most(items, (n - 1) as nat);
    }
}

/// Whether an item is shown under some voyage of a roadmap.
pub open spec fn is_shown_under(groups: Seq<GroupView>, id: Seq<char>) -> bool {
    exists|g: int| 0 <= g < groups.len() && (#[trigger] groups[g]).items.contains(id)
}

/// Every unfinished item that is no voyage is on the roadmap: under a voyage that is
/// shown, or among those that are under none.
pub proof fn law_no_open_work_is_lost(items: Seq<ItemView>, i: int)
    requires
        items.len() <= usize::MAX,
        critical_path::ids_distinct(items),
        0 <= i < items.len(),
        !roadmap::is_voyage(items[i]),
        !critical_path::is_done(items[i].status),
    ensures
        is_shown_under(roadmap::groups_spec(items), items[i].id) || roadmap::orphans_spec(
            items,
        ).contains(items[i].id),
{
    let item = items[i];
    if roadmap::is_grouped(items, item.id) {
        let j = choose|j: int|
            0 <= j < items.len() && (#[trigger] items[j]).id == item.id && roadmap::names_voyage(
                items,
                items[j],
            );
        assert(j == i);
        let k = choose|k: int|
            0 <= k < item.related.len() && roadmap::is_voyage_id(items, #[trigger] item.related[k]);
        let v = item.related[k];
        let w = choose|w: int|
            0 <= w < items.len() && (#[trigger] items[w]).id == v && roadmap::is_voyage(items[w]);
        let group = roadmap::group_of(items, items[w]);
        lemma_children(items, v, i, k, items.len());
        let p = choose|p: int| 0 <= p < group.items.len() && group.items[p] == item.id;
        critical_path::lemma_item_of(items, item.id, i + 1);
        lemma_not_all_done(items, group.items, p, group.items.len());
        lemma_open_groups(items, w, items.len());
        let open = roadmap::open_groups(items, items.len());
        let keys = roadmap::group_keys(open);
        lemma_groups_at_most(items, items.len());
        sorting::lemma_stable_order_exists::<(i32, String)>(keys);
        let order = sorting::stable_order::<(i32, String)>(keys);
        let q = choose|q: int| 0 <= q < open.len() && open[q] == group;
        assert(order.contains(q as usize));
        let g = choose|g: int| 0 <= g < order.len() && order[g] == q as usize;
        assert(roadmap::groups_spec(items)[g] == group);
        assert(roadmap::groups_spec(items)[g].items.contains(item.id));
    } else {
        let pred = |x: ItemView|
            !roadmap::is_voyage(x) && !roadmap::is_grouped(items, x.id) && !critical_path::is_done(
                x.status,
            );
        items.lemma_filter_contains(pred, i);
        let orphans = items.filter(pred);
        let p = choose|p: int| 0 <= p < orphans.len() && orphans[p] == item;
        assert(roadmap::orphans_spec(items)[p] == item.id);
    }
}

// ---- campaigns -----------------------------------------------------------------------------------

/// Whether items differ in the statuses of voyages at most.
pub open spec fn differ_in_voyage_status(a: Seq<ItemView>, b: Seq<ItemView>) -> bool {
    &&& a.len() == b.len()
    &&& forall|i: int|
        0 <= i < a.len() ==> (#[trigger] a[i]) == b[i] || (roadmap::is_voyage(a[i]) && b[i] == (
        ItemView { status: b[i].status, ..a[i] }))
}

proof fn lemma_same_members(a: Seq<ItemView>, b: Seq<ItemView>, members: Seq<Seq<char>>, n: nat)
    requires
        differ_in_voyage_status(a, b),
        n <= a.len(),
    ensures
        roadmap::existing_members(a, members, n) == roadmap::existing_members(b, members, n),
    decreases n,
{
    if n > 0 {
        lemma_same_members(a, b, members, (n - 1) as nat);
        assert(a[n - 1].id == b[n - 1].id);
    }
}

proof fn lemma_same_count(a: Seq<ItemView>, b: Seq<ItemView>, pred: spec_fn(ItemView) -> bool)
    requires
        a.len() == b.len(),
        forall|i: int| 0 <= i < a.len() ==> pred(#[trigger] a[i]) == pred(b[i]),
    ensures
        a.filter(pred).len() == b.filter(pred).len(),
    decreases a.len(),
{
    reveal(Seq::filter);
    if a.len() > 0 {
        let p = a.drop_last();
        let q = b.drop_last();
        assert forall|i: int| 0 <= i < p.len() implies pred(#[trigger] p[i]) == pred(q[i]) by {
            assert(p[i] == a[i]);
        }
        lemma_same_count(p, q, pred);
        assert(pred(a[a.len() - 1]) == pred(b[a.len() - 1]));
    }
}

/// What a campaign has reached does not change when the status of a voyage does: a member
/// that is finished counts as before.
pub proof fn law_finished_voyages_still_count(
    a: Seq<ItemView>,
    b: Seq<ItemView>,
    members: Seq<Seq<char>>,
)
    requires
        differ_in_voyage_status(a, b),
    ensures
        roadmap::aggregate_spec(a, members) == roadmap::aggregate_spec(b, members),
{
    lemma_same_members(a, b, members, a.len());
    let voyages = roadmap::existing_members(a, members, a.len());
    let done = |x: ItemView|
        roadmap::is_member_expedition(x, voyages) && critical_path::is_done(x.status);
    let all = |x: ItemView| roadmap::is_member_expedition(x, voyages);
    assert("voyage"@ != "expedition"@) by {
        reveal_strlit("voyage");
        reveal_strlit("expedition");
        assert("voyage"@.len() != "expedition"@.len());
    }
    lemma_same_count(a, b, done);
    lemma_same_count(a, b, all);
}

/// No more expeditions of a campaign are done than there are.
pub proof fn law_done_at_most_all(items: Seq<ItemView>, members: Seq<Seq<char>>)
    ensures
        roadmap::aggregate_spec(items, members).1 <= roadmap::aggregate_spec(items, members).2,
{
    let voyages = roadmap::existing_members(items, members, items.len());
    lemma_fewer(
        items,
        |x: ItemView| roadmap::is_member_expedition(x, voyages) && critical_path::is_done(x.status),
        |x: ItemView| roadmap::is_member_expedition(x, voyages),
    );
}

proof fn lemma_fewer(
    items: Seq<ItemView>,
    p: spec_fn(ItemView) -> bool,
    q: spec_fn(ItemView) -> bool,
)
    requires
        forall|x: ItemView| #[trigger] p(x) ==> q(x),
    ensures
        items.filter(p).len() <= items.filter(q).len(),
    decreases items.len(),
{
    reveal(Seq::filter);
    if items.len() > 0 {
        lemma_fewer(items.drop_last(), p, q);
        assert(p(items.last()) ==> q(items.last()));
    }
}

// ---- worklists -----------------------------------------------------------------------------------------

proof fn lemma_suitable(
    items: Seq<ItemView>,
    routing: CapabilityRouting,
    agent: Seq<char>,
    list: Seq<Seq<char>>,
    n: nat,
    i: int,
)
    requires
        n <= list.len(),
        0 <= i < worklist::suitable(items, routing, agent, list, n).len(),
    ensures
        worklist::suits(
            items,
            routing,
            agent,
            worklist::suitable(items, routing, agent, list, n)[i],
        ),
        worklist::suitable(items, routing, agent, list, n).len() <= n,
    decreases n,
{
    if n > 0 {
        let before = worklist::suitable(items, routing, agent, list, (n - 1) as nat);
        if i < before.len() {
            lemma_suitable(items, routing, agent, list, (n - 1) as nat, i);
        } else if before.len() > 0 {
            lemma_suitable(items, routing, agent, list, (n - 1) as nat, 0);
        }
    }
}

proof fn lemma_suitable_at_most(
    items: Seq<ItemView>,
    routing: CapabilityRouting,
    agent: Seq<char>,
    list: Seq<Seq<char>>,
    n: nat,
)
    ensures
        worklist::suitable(items, routing, agent, list, n).len() <= n,
    decreases n,
{
    if n > 0 {
        lemma_suitable_at_most(items, routing, agent, list, (n - 1) as nat);
    }
}

/// What an agent's worklist holds is what it is working on, or work of the backlog that
/// nobody else has and whose requirements the agent meets.
pub proof fn law_work_goes_to_those_who_can(
    items: Seq<ItemView>,
    routing: CapabilityRouting,
    downstream: Seq<(Seq<char>, usize)>,
    ready: Seq<Seq<char>>,
    blocked: Seq<Seq<char>>,
    agent: Seq<char>,
    limit: nat,
    i: int,
)
    requires
        ready.len() <= usize::MAX,
        0 <= i < worklist::agent_rows(
            items,
            routing,
            downstream,
            ready,
            blocked,
            agent,
            limit,
        ).len(),
    ensures
        ({
            let row = worklist::agent_rows(
                items,
                routing,
                downstream,
                ready,
                blocked,
                agent,
                limit,
            )[i];
            worklist::current_work(items, agent) == Some(row.id) || worklist::suits(
                items,
                routing,
                agent,
                row.id,
            )
        }),
{
    let current = match worklist::current_work(items, agent) {
        Some(id) => seq![worklist::row_of(items, id, false)],
        None => Seq::empty(),
    };
    let fit = worklist::suitable(items, routing, agent, ready, ready.len());
    let keys = worklist::agent_keys(items, downstream, agent, fit);
    lemma_suitable_at_most(items, routing, agent, ready, ready.len());
    sorting::lemma_stable_order_exists::<AgentKey>(keys);
    let order = sorting::stable_order::<AgentKey>(keys);
    let can_start = worklist::available(items, routing, downstream, ready, agent);
    let later = worklist::suitable(items, routing, agent, blocked, blocked.len());
    let first = Seq::new(
        can_start.len(),
        |i: int| worklist::row_of(items, can_start[i], blocked.contains(can_start[i])),
    );
    let second = Seq::new(later.len(), |i: int| worklist::row_of(items, later[i], true));
    let filled = worklist::fill(current, first, limit);
    if i < current.len() {
        assert(filled[i] == current[i]);
    } else if i < filled.len() {
        let k = i - current.len();
        assert(filled[i] == first[k]);
        assert(order[k] < fit.len());
        lemma_suitable(items, routing, agent, ready, ready.len(), order[k] as int);
    } else {
        let k = i - filled.len();
        lemma_suitable(items, routing, agent, blocked, blocked.len(), k);
    }
}

/// A worklist is no longer than it may be; what an agent is working on is always shown.
pub proof fn law_worklists_keep_their_length(
    items: Seq<ItemView>,
    routing: CapabilityRouting,
    downstream: Seq<(Seq<char>, usize)>,
    ready: Seq<Seq<char>>,
    blocked: Seq<Seq<char>>,
    agent: Seq<char>,
    limit: nat,
)
    ensures
        ({
            let rows = worklist::agent_rows(
                items,
                routing,
                downstream,
                ready,
                blocked,
                agent,
                limit,
            );
            &&& rows.len() <= limit || rows.len() == 1
            &&& worklist::current_work(items, agent) is Some ==> rows.len() > 0 && rows[0].id
                == worklist::current_work(items, agent)->0
        }),
{
}

// ---- worklists, by the items themselves ----------------------------------------------------------------

/// Whether the item at a position is the one that counts for its id: the last that has it.
pub open spec fn counts_for_id(items: Seq<ItemView>, i: int) -> bool {
    0 <= i < items.len() && forall|k: int|
        i < k < items.len() ==> (#[trigger] items[k]).id != items[i].id
}

proof fn lemma_counts(items: Seq<ItemView>, id: Seq<char>)
    ensures
        critical_path::item_of(items, id) matches Some(item) ==> exists|i: int| #[trigger]
            counts_for_id(items, i) && items[i] == item && items[i].id == id,
    decreases items.len(),
{
    if items.len() > 0 {
        if items.last().id == id {
            assert(counts_for_id(items, items.len() - 1));
        } else {
            let shorter = items.drop_last();
            lemma_counts(shorter, id);
            if critical_path::item_of(shorter, id) is Some {
                let item = critical_path::item_of(shorter, id)->0;
                let i = choose|i: int| #[trigger]
                    counts_for_id(shorter, i) && shorter[i] == item && shorter[i].id == id;
                assert forall|k: int| i < k < items.len() implies (#[trigger] items[k]).id
                    != items[i].id by {
                    if k < shorter.len() {
                        assert(shorter[k] == items[k]);
                    }
                }
                assert(counts_for_id(items, i));
            }
        }
    }
}

proof fn lemma_counted(items: Seq<ItemView>, i: int)
    requires
        counts_for_id(items, i),
    ensures
        critical_path::item_of(items, items[i].id) == Some(items[i]),
{
    critical_path::lemma_item_of(items, items[i].id, i + 1);
}

/// Whether an item is work of the backlog that an agent may be given: nobody has it or the
/// agent does, and the agent meets what it requires.
pub open spec fn may_be_given(item: ItemView, routing: CapabilityRouting, agent: Seq<char>) -> bool {
    &&& item.status == "backlog"@
    &&& item.assignee == "-"@ || item.assignee == agent
    &&& worklist::can_take(routing, item.id, agent)
}

/// Whether an item is what an agent is working on.
pub open spec fn is_worked_on(item: ItemView, agent: Seq<char>) -> bool {
    item.status == "in_progress"@ && item.assignee == agent && agent != "-"@
}

proof fn lemma_suits(items: Seq<ItemView>, routing: CapabilityRouting, agent: Seq<char>, id: Seq<char>)
    ensures
        worklist::suits(items, routing, agent, id) == exists|i: int| #[trigger]
            counts_for_id(items, i) && items[i].id == id && may_be_given(items[i], routing, agent),
{
    lemma_counts(items, id);
    if exists|i: int| #[trigger]
        counts_for_id(items, i) && items[i].id == id && may_be_given(items[i], routing, agent) {
        let i = choose|i: int| #[trigger]
            counts_for_id(items, i) && items[i].id == id && may_be_given(items[i], routing, agent);
        lemma_counted(items, i);
    }
}

proof fn lemma_suitable_is(
    items: Seq<ItemView>,
    routing: CapabilityRouting,
    agent: Seq<char>,
    list: Seq<Seq<char>>,
    n: nat,
    id: Seq<char>,
)
    requires
        n <= list.len(),
    ensures
        worklist::suitable(items, routing, agent, list, n).contains(id) == (list.take(
            n as int,
        ).contains(id) && worklist::suits(items, routing, agent, id)),
    decreases n,
{
    if n > 0 {
        let m = (n - 1) as nat;
        lemma_suitable_is(items, routing, agent, list, m, id);
        let before = worklist::suitable(items, routing, agent, list, m);
        assert(list.take(n as int) =~= list.take(m as int).push(list[n - 1]));
        vstd::seq_lib::lemma_seq_contains_after_push(list.take(m as int), list[n - 1], id);
        vstd::seq_lib::lemma_seq_contains_after_push(before, list[n - 1], id);
    } else {
        assert(list.take(0).len() == 0);
    }
}

proof fn lemma_current(items: Seq<ItemView>, agent: Seq<char>)
    ensures
        worklist::current_work(items, agent) matches Some(id) ==> exists|i: int|
            0 <= i < items.len() && (#[trigger] items[i]).id == id && is_worked_on(items[i], agent),
        worklist::current_work(items, agent) is None ==> forall|i: int|
            0 <= i < items.len() ==> !is_worked_on(#[trigger] items[i], agent),
    decreases items.len(),
{
    if items.len() > 0 {
        let last = items.len() - 1;
        let shorter = items.drop_last();
        lemma_current(shorter, agent);
        if is_worked_on(items[last], agent) {
            assert(items[last].id == items.last().id);
        } else if worklist::current_work(shorter, agent) is Some {
            let id = worklist::current_work(shorter, agent)->0;
            let i = choose|i: int|
                0 <= i < shorter.len() && (#[trigger] shorter[i]).id == id && is_worked_on(
                    shorter[i],
                    agent,
                );
            assert(items[i] == shorter[i]);
        } else {
            assert forall|i: int| 0 <= i < items.len() implies !is_worked_on(
                #[trigger] items[i],
                agent,
            ) by {
                if i < last {
                    assert(shorter[i] == items[i]);
                }
            }
        }
    }
}

proof fn lemma_available(
    items: Seq<ItemView>,
    routing: CapabilityRouting,
    downstream: Seq<(Seq<char>, usize)>,
    ready: Seq<Seq<char>>,
    agent: Seq<char>,
    id: Seq<char>,
)
    requires
        ready.len() <= usize::MAX,
    ensures
        worklist::available(items, routing, downstream, ready, agent).contains(id) == (
        ready.contains(id) && worklist::suits(items, routing, agent, id)),
{
    let fit = worklist::suitable(items, routing, agent, ready, ready.len());
    lemma_suitable_is(items, routing, agent, ready, ready.len(), id);
    assert(ready.take(ready.len() as int) =~= ready);
    lemma_suitable_at_most(items, routing, agent, ready, ready.len());
    let keys = worklist::agent_keys(items, downstream, agent, fit);
    sorting::lemma_stable_order_exists::<AgentKey>(keys);
    let order = sorting::stable_order::<AgentKey>(keys);
    let list = worklist::available(items, routing, downstream, ready, agent);
    if list.contains(id) {
        let k = choose|k: int| 0 <= k < list.len() && list[k] == id;
        assert(fit[order[k] as int] == id);
    }
    if fit.contains(id) {
        let k = choose|k: int| 0 <= k < fit.len() && fit[k] == id;
        assert(order.contains(k as usize));
        let m = choose|m: int| 0 <= m < order.len() && order[m] == k as usize;
        assert(list[m] == id);
    }
}

/// What an agent's worklist holds is what the agent is working on, in the first place, or
/// work of the backlog, ready or blocked, that nobody has or the agent itself. No item that
/// is another's is in it.
pub proof fn law_nobody_is_given_anothers_work(
    items: Seq<ItemView>,
    routing: CapabilityRouting,
    downstream: Seq<(Seq<char>, usize)>,
    ready: Seq<Seq<char>>,
    blocked: Seq<Seq<char>>,
    agent: Seq<char>,
    limit: nat,
    rows: Seq<RowView>,
    k: int,
)
    requires
        ready.len() <= usize::MAX,
        rows == worklist::agent_rows(items, routing, downstream, ready, blocked, agent, limit),
        0 <= k < rows.len(),
    ensures
        exists|i: int|
            0 <= i < items.len() && (#[trigger] items[i]).id == rows[k].id && (items[i].assignee
                == "-"@ || items[i].assignee == agent) && ((k == 0 && items[i].status
                == "in_progress"@ && items[i].assignee == agent && !rows[k].blocked) || (
            counts_for_id(items, i) && items[i].status == "backlog"@ && worklist::can_take(
                routing,
                items[i].id,
                agent,
            ) && (ready.contains(rows[k].id) || blocked.contains(rows[k].id)) && rows[k].blocked
                == blocked.contains(rows[k].id))),
        forall|i: int|
            #[trigger] counts_for_id(items, i) && items[i].id == rows[k].id ==> rows[k].title == (
            if items[i].title.len() <= 40 {
                items[i].title
            } else {
                items[i].title.take(37) + "..."@
            }),
{
    let current = match worklist::current_work(items, agent) {
        Some(id) => seq![worklist::row_of(items, id, false)],
        None => Seq::empty(),
    };
    lemma_current(items, agent);
    let can_start = worklist::available(items, routing, downstream, ready, agent);
    let later = worklist::suitable(items, routing, agent, blocked, blocked.len());
    let first = Seq::new(
        can_start.len(),
        |i: int| worklist::row_of(items, can_start[i], blocked.contains(can_start[i])),
    );
    let second = Seq::new(later.len(), |i: int| worklist::row_of(items, later[i], true));
    let filled = worklist::fill(current, first, limit);
    let id = rows[k].id;
    assert forall|i: int| #[trigger] counts_for_id(items, i) && items[i].id == id implies
        critical_path::item_of(items, id) == Some(items[i]) by {
        lemma_counted(items, i);
    }
    if k < current.len() {
        assert(rows[k] == current[k]);
    } else if k < filled.len() {
        let m = k - current.len();
        assert(rows[k] == first[m]);
        assert(can_start.contains(can_start[m]));
        lemma_available(items, routing, downstream, ready, agent, id);
        lemma_suits(items, routing, agent, id);
    } else {
        let m = k - filled.len();
        assert(rows[k] == second[m]);
        assert(later.contains(later[m]));
        lemma_suitable_is(items, routing, agent, blocked, blocked.len(), id);
        assert(blocked.take(blocked.len() as int) =~= blocked);
        lemma_suits(items, routing, agent, id);
    }
}

/// Where a worklist has room left, nothing is missing from it: it holds all ready and
/// blocked work of the backlog that the agent may be given. What an agent is working on
/// comes first, room or not.
pub proof fn law_worklists_with_room_miss_nothing(
    items: Seq<ItemView>,
    routing: CapabilityRouting,
    downstream: Seq<(Seq<char>, usize)>,
    ready: Seq<Seq<char>>,
    blocked: Seq<Seq<char>>,
    agent: Seq<char>,
    limit: nat,
    rows: Seq<RowView>,
    i: int,
)
    requires
        ready.len() <= usize::MAX,
        rows == worklist::agent_rows(items, routing, downstream, ready, blocked, agent, limit),
        0 <= i < items.len(),
    ensures
        items[i].status == "in_progress"@ && items[i].assignee == agent && agent != "-"@ ==> (
        exists|j: int|
            0 <= j < items.len() && (#[trigger] items[j]).id == rows[0].id && items[j].status
                == "in_progress"@ && items[j].assignee == agent) && rows.len() > 0
            && !rows[0].blocked,
        rows.len() < limit && counts_for_id(items, i) && items[i].status == "backlog"@ && (
        items[i].assignee == "-"@ || items[i].assignee == agent) && worklist::can_take(
            routing,
            items[i].id,
            agent,
        ) && (ready.contains(items[i].id) || blocked.contains(items[i].id)) ==> exists|k: int|
            0 <= k < rows.len() && (#[trigger] rows[k]).id == items[i].id,
{
    let current = match worklist::current_work(items, agent) {
        Some(id) => seq![worklist::row_of(items, id, false)],
        None => Seq::empty(),
    };
    lemma_current(items, agent);
    let can_start = worklist::available(items, routing, downstream, ready, agent);
    let later = worklist::suitable(items, routing, agent, blocked, blocked.len());
    let first = Seq::new(
        can_start.len(),
        |i: int| worklist::row_of(items, can_start[i], blocked.contains(can_start[i])),
    );
    let second = Seq::new(later.len(), |i: int| worklist::row_of(items, later[i], true));
    let filled = worklist::fill(current, first, limit);
    let id = items[i].id;
    if is_worked_on(items[i], agent) {
        assert(rows[0] == current[0]);
    }
    if rows.len() < limit && counts_for_id(items, i) && may_be_given(items[i], routing, agent) && (
    ready.contains(id) || blocked.contains(id)) {
        lemma_suits(items, routing, agent, id);
        if ready.contains(id) {
            lemma_available(items, routing, downstream, ready, agent, id);
            let m = choose|m: int| 0 <= m < can_start.len() && can_start[m] == id;
            assert(filled[current.len() + m] == first[m]);
            assert(rows[current.len() + m].id == id);
        } else {
            lemma_suitable_is(items, routing, agent, blocked, blocked.len(), id);
            assert(blocked.take(blocked.len() as int) =~= blocked);
            let m = choose|m: int| 0 <= m < later.len() && later[m] == id;
            assert(rows[filled.len() + m] == second[m]);
            assert(rows[filled.len() + m].id == id);
        }
    }
}

/// The room that there is is used: a worklist is as long as it may be, or misses nothing,
/// and blocked work stands after all that can be started.
pub proof fn law_blocked_work_comes_last(
    items: Seq<ItemView>,
    routing: CapabilityRouting,
    downstream: Seq<(Seq<char>, usize)>,
    ready: Seq<Seq<char>>,
    blocked: Seq<Seq<char>>,
    agent: Seq<char>,
    limit: nat,
    rows: Seq<RowView>,
    j: int,
    k: int,
)
    requires
        ready.len() <= usize::MAX,
        rows == worklist::agent_rows(items, routing, downstream, ready, blocked, agent, limit),
        forall|id: Seq<char>| !(#[trigger] ready.contains(id) && blocked.contains(id)),
        0 <= j < k < rows.len(),
        rows[j].blocked,
    ensures
        rows[k].blocked,
        blocked.contains(rows[k].id),
{
    let current = match worklist::current_work(items, agent) {
        Some(id) => seq![worklist::row_of(items, id, false)],
        None => Seq::empty(),
    };
    let can_start = worklist::available(items, routing, downstream, ready, agent);
    let later = worklist::suitable(items, routing, agent, blocked, blocked.len());
    let first = Seq::new(
        can_start.len(),
        |i: int| worklist::row_of(items, can_start[i], blocked.contains(can_start[i])),
    );
    let second = Seq::new(later.len(), |i: int| worklist::row_of(items, later[i], true));
    let filled = worklist::fill(current, first, limit);
    if j < filled.len() {
        if j < current.len() {
            assert(rows[j] == current[j]);
        } else {
            let m = j - current.len();
            assert(rows[j] == first[m]);
            assert(can_start.contains(can_start[m]));
            lemma_available(items, routing, downstream, ready, agent, can_start[m]);
        }
    }
    let m = k - filled.len();
    assert(rows[k] == second[m]);
    assert(later.contains(later[m]));
    lemma_suitable_is(items, routing, agent, blocked, blocked.len(), later[m]);
    assert(blocked.take(blocked.len() as int) =~= blocked);
}

/// Among the ready work of a worklist, the agent's own comes first, then the more urgent,
/// and of equally urgent work that which more waits for.
pub proof fn law_own_and_urgent_work_comes_first(
    items: Seq<ItemView>,
    routing: CapabilityRouting,
    downstream: Seq<(Seq<char>, usize)>,
    ready: Seq<Seq<char>>,
    agent: Seq<char>,
    p: int,
    q: int,
    i: int,
    j: int,
)
    requires
        ready.len() <= usize::MAX,
        ({
            let list = worklist::available(items, routing, downstream, ready, agent);
            &&& 0 <= p < list.len()
            &&& 0 <= q < list.len()
            &&& counts_for_id(items, i) && items[i].id == list[p]
            &&& counts_for_id(items, j) && items[j].id == list[q]
        }),
        ({
            ||| items[i].assignee == agent && items[j].assignee != agent
            ||| items[i].assignee == items[j].assignee && critical_path_laws::is_more_urgent(
                items[i],
                items[j],
            )
        }),
    ensures
        p < q,
{
    let fit = worklist::suitable(items, routing, agent, ready, ready.len());
    lemma_suitable_at_most(items, routing, agent, ready, ready.len());
    let keys = worklist::agent_keys(items, downstream, agent, fit);
    sorting::lemma_stable_order_exists::<AgentKey>(keys);
    let order = sorting::stable_order::<AgentKey>(keys);
    let list = worklist::available(items, routing, downstream, ready, agent);
    assert(list[p] == fit[order[p] as int] && list[q] == fit[order[q] as int]);
    lemma_counted(items, i);
    lemma_counted(items, j);
    if critical_path_laws::is_more_urgent(items[i], items[j]) {
        critical_path_laws::lemma_urgent_first(items[i], items[j]);
    }
    let a = keys[order[p] as int];
    let b = keys[order[q] as int];
    assert(!AgentKey::precedes(b, a));
    if q < p {
        assert(AgentKey::precedes(b, a));
    } else if p == q {
        AgentKey::le_total(a, a);
    }
}

/// Where two ready items are the same to an agent in assignee, rank and priority, that
/// comes first which more waits for.
pub proof fn law_bottlenecks_come_first(
    items: Seq<ItemView>,
    routing: CapabilityRouting,
    downstream: Seq<(Seq<char>, usize)>,
    ready: Seq<Seq<char>>,
    agent: Seq<char>,
    p: int,
    q: int,
    i: int,
    j: int,
    d: int,
    e: int,
)
    requires
        ready.len() <= usize::MAX,
        ({
            let list = worklist::available(items, routing, downstream, ready, agent);
            &&& 0 <= p < list.len()
            &&& 0 <= q < list.len()
            &&& counts_for_id(items, i) && items[i].id == list[p]
            &&& counts_for_id(items, j) && items[j].id == list[q]
        }),
        items[i].assignee == items[j].assignee,
        items[i].rank == items[j].rank,
        items[i].priority == items[j].priority,
        0 <= d < downstream.len(),
        0 <= e < downstream.len(),
        downstream[d].0 == items[i].id,
        downstream[e].0 == items[j].id,
        forall|k: int| d < k < downstream.len() ==> (#[trigger] downstream[k]).0 != items[i].id,
        forall|k: int| e < k < downstream.len() ==> (#[trigger] downstream[k]).0 != items[j].id,
        downstream[d].1 > downstream[e].1,
    ensures
        p < q,
{
    let fit = worklist::suitable(items, routing, agent, ready, ready.len());
    lemma_suitable_at_most(items, routing, agent, ready, ready.len());
    let keys = worklist::agent_keys(items, downstream, agent, fit);
    sorting::lemma_stable_order_exists::<AgentKey>(keys);
    let order = sorting::stable_order::<AgentKey>(keys);
    let list = worklist::available(items, routing, downstream, ready, agent);
    assert(list[p] == fit[order[p] as int] && list[q] == fit[order[q] as int]);
    lemma_counted(items, i);
    lemma_counted(items, j);
    keyed::lemma_lookup(downstream, items[i].id, d + 1);
    keyed::lemma_lookup(downstream, items[j].id, e + 1);
    let a = keys[order[p] as int];
    let b = keys[order[q] as int];
    assert(!AgentKey::precedes(b, a));
    if q < p {
        assert(AgentKey::precedes(b, a));
    }
}

/// The ready work stands in a worklist in that order, right after what the agent is
/// working on.
pub proof fn law_ready_work_keeps_its_order(
    items: Seq<ItemView>,
    routing: CapabilityRouting,
    downstream: Seq<(Seq<char>, usize)>,
    ready: Seq<Seq<char>>,
    blocked: Seq<Seq<char>>,
    agent: Seq<char>,
    limit: nat,
    rows: Seq<RowView>,
    m: int,
)
    requires
        rows == worklist::agent_rows(items, routing, downstream, ready, blocked, agent, limit),
        0 <= m < worklist::available(items, routing, downstream, ready, agent).len(),
    ensures
        ({
            let list = worklist::available(items, routing, downstream, ready, agent);
            let own: int = if exists|i: int|
                0 <= i < items.len() && (#[trigger] items[i]).status == "in_progress"@
                    && items[i].assignee == agent && agent != "-"@ {
                1
            } else {
                0
            };
            own + m < limit ==> own + m < rows.len() && rows[own + m].id == list[m]
        }),
{
    lemma_current(items, agent);
    let list = worklist::available(items, routing, downstream, ready, agent);
    let current = match worklist::current_work(items, agent) {
        Some(id) => seq![worklist::row_of(items, id, false)],
        None => Seq::empty(),
    };
    if current.len() == 1 {
        let id = worklist::current_work(items, agent)->0;
        let i = choose|i: int|
            0 <= i < items.len() && (#[trigger] items[i]).id == id && is_worked_on(items[i], agent);
        assert(items[i].status == "in_progress"@);
    }
    let first = Seq::new(
        list.len(),
        |i: int| worklist::row_of(items, list[i], blocked.contains(list[i])),
    );
    let filled = worklist::fill(current, first, limit);
    if current.len() + m < limit {
        assert(filled[current.len() + m] == first[m]);
        assert(rows[current.len() + m] == first[m]);
    }
}

/// Where agents declare capabilities, each key standing once, an agent can take an item
/// exactly where it declares all that the item requires.
pub proof fn law_agents_meet_what_items_require(
    routing: CapabilityRouting,
    id: Seq<char>,
    agent: Seq<char>,
)
    requires
        routing.agent_capabilities@.len() > 0,
        forall|i: int, j: int|
            0 <= i < j < routing.item_requirements@.len() ==> (
            #[trigger] routing.item_requirements@[i]).0@ != (
            #[trigger] routing.item_requirements@[j]).0@,
        forall|i: int, j: int|
            0 <= i < j < routing.agent_capabilities@.len() ==> (
            #[trigger] routing.agent_capabilities@[i]).0@ != (
            #[trigger] routing.agent_capabilities@[j]).0@,
    ensures
        worklist::can_take(routing, id, agent) == forall|e: int, c: int|
            0 <= e < routing.item_requirements@.len() && routing.item_requirements@[e].0@ == id && 0
                <= c < routing.item_requirements@[e].1@.len() ==> agent_declares(
                routing,
                agent,
                (#[trigger] routing.item_requirements@[e].1@[c])@,
            ),
{
    let needs = keyed::pairs(routing.item_requirements@);
    let has = keyed::pairs(routing.agent_capabilities@);
    if exists|e: int| 0 <= e < needs.len() && (#[trigger] needs[e]).0 == id {
        let e = choose|e: int| 0 <= e < needs.len() && (#[trigger] needs[e]).0 == id;
        assert forall|k: int| e < k < needs.len() implies (#[trigger] needs[k]).0 != id by {
            assert(routing.item_requirements@[e].0@ != routing.item_requirements@[k].0@);
        }
        keyed::lemma_lookup(needs, id, e + 1);
        let required = routing.item_requirements@[e].1@;
        assert forall|x: int|
            0 <= x < needs.len() && routing.item_requirements@[x].0@ == id implies x == e by {
            assert(needs[x].0 == id);
            if x < e {
                assert(routing.item_requirements@[x].0@ != routing.item_requirements@[e].0@);
            }
        }
        if exists|f: int| 0 <= f < has.len() && (#[trigger] has[f]).0 == agent {
            let f = choose|f: int| 0 <= f < has.len() && (#[trigger] has[f]).0 == agent;
            assert forall|k: int| f < k < has.len() implies (#[trigger] has[k]).0 != agent by {
                assert(routing.agent_capabilities@[f].0@ != routing.agent_capabilities@[k].0@);
            }
            keyed::lemma_lookup(has, agent, f + 1);
            let provided = text::views(routing.agent_capabilities@[f].1@);
            assert forall|x: int| 0 <= x < has.len() && routing.agent_capabilities@[x].0@ == agent implies x
                == f by {
                assert(has[x].0 == agent);
                if x < f {
                    assert(routing.agent_capabilities@[x].0@ != routing.agent_capabilities@[f].0@);
                }
            }
            assert forall|cap: Seq<char>| #[trigger] provided.contains(cap) == agent_declares(
                routing,
                agent,
                cap,
            ) by {
                if provided.contains(cap) {
                    assert(routing.agent_capabilities@[f].0@ == agent);
                }
            }
            let wanted = text::views(required);
            if worklist::all_provided(wanted, provided) {
                assert forall|e2: int, c: int|
                    0 <= e2 < routing.item_requirements@.len()
                        && routing.item_requirements@[e2].0@ == id && 0 <= c
                        < routing.item_requirements@[e2].1@.len() implies agent_declares(
                    routing,
                    agent,
                    (#[trigger] routing.item_requirements@[e2].1@[c])@,
                ) by {
                    assert(e2 == e);
                    assert(provided.contains(wanted[c]));
                }
            } else if required.len() > 0 {
                let c = choose|c: int|
                    0 <= c < wanted.len() && !provided.contains(#[trigger] wanted[c]);
                assert(!agent_declares(
                    routing,
                    agent,
                    routing.item_requirements@[e].1@[c]@,
                ));
            }
        } else {
            keyed::lemma_lookup(has, agent, 0);
            if required.len() > 0 {
                assert(!agent_declares(routing, agent, routing.item_requirements@[e].1@[0]@)) by {
                    if agent_declares(routing, agent, required[0]@) {
                        let f = choose|f: int|
                            0 <= f < routing.agent_capabilities@.len() && (
                            #[trigger] routing.agent_capabilities@[f]).0@ == agent && text::views(
                                routing.agent_capabilities@[f].1@,
                            ).contains(required[0]@);
                        assert(has[f].0 == agent);
                    }
                }
            }
        }
    } else {
        keyed::lemma_lookup(needs, id, 0);
        assert forall|e: int, c: int|
            0 <= e < routing.item_requirements@.len() && routing.item_requirements@[e].0@ == id && 0
                <= c < routing.item_requirements@[e].1@.len() implies agent_declares(
            routing,
            agent,
            (#[trigger] routing.item_requirements@[e].1@[c])@,
        ) by {
            assert(needs[e].0 == id);
        }
    }
}

/// Whether an agent declares a capability.
pub open spec fn agent_declares(routing: CapabilityRouting, agent: Seq<char>, cap: Seq<char>) -> bool {
    exists|f: int|
        0 <= f < routing.agent_capabilities@.len() && (
        #[trigger] routing.agent_capabilities@[f]).0@ == agent && text::views(
            routing.agent_capabilities@[f].1@,
        ).contains(cap)
}

// ---- roadmaps, by the items themselves ------------------------------------------------------------------

/// Whether an item is work under a voyage: it is no voyage, and it lists the voyage among
/// what it is related to.
pub open spec fn is_under(item: ItemView, voyage: Seq<char>) -> bool {
    item.item_type != "voyage"@ && item.related.contains(voyage)
}

proof fn lemma_named_is(
    related: Seq<Seq<char>>,
    voyage: Seq<char>,
    id: Seq<char>,
    n: nat,
    x: Seq<char>,
)
    requires
        n <= related.len(),
    ensures
        roadmap::named_times(related, voyage, id, n).contains(x) == (x == id && related.take(
            n as int,
        ).contains(voyage)),
    decreases n,
{
    if n > 0 {
        let m = (n - 1) as nat;
        lemma_named_is(related, voyage, id, m, x);
        let before = roadmap::named_times(related, voyage, id, m);
        assert(related.take(n as int) =~= related.take(m as int).push(related[n - 1]));
        vstd::seq_lib::lemma_seq_contains_after_push(related.take(m as int), related[n - 1], voyage);
        vstd::seq_lib::lemma_seq_contains_after_push(before, id, x);
    } else {
        assert(related.take(0).len() == 0);
    }
}

proof fn lemma_children_are(items: Seq<ItemView>, voyage: Seq<char>, n: nat, id: Seq<char>)
    requires
        n <= items.len(),
    ensures
        roadmap::children(items, voyage, n).contains(id) == exists|i: int|
            0 <= i < n && is_under(#[trigger] items[i], voyage) && items[i].id == id,
    decreases n,
{
    if n > 0 {
        let m = (n - 1) as nat;
        lemma_children_are(items, voyage, m, id);
        let item = items[n - 1];
        let before = roadmap::children(items, voyage, m);
        let here = roadmap::named_times(item.related, voyage, item.id, item.related.len());
        lemma_named_is(item.related, voyage, item.id, item.related.len(), id);
        assert(item.related.take(item.related.len() as int) =~= item.related);
        vstd::seq_lib::lemma_seq_concat_contains_all_elements(before, here, id);
        if exists|i: int| 0 <= i < m && is_under(#[trigger] items[i], voyage) && items[i].id == id {
            let i = choose|i: int|
                0 <= i < m && is_under(#[trigger] items[i], voyage) && items[i].id == id;
            assert(0 <= i < n && is_under(items[i], voyage) && items[i].id == id);
        }
        if is_under(item, voyage) && item.id == id {
            assert(is_under(items[n - 1], voyage));
        }
    }
}

/// Whether the item that counts for an id has the status `done`, `complete` or `retired`.
pub open spec fn is_finished_id(items: Seq<ItemView>, id: Seq<char>) -> bool {
    exists|i: int| #[trigger]
        counts_for_id(items, i) && items[i].id == id && (items[i].status == "done"@
            || items[i].status == "complete"@ || items[i].status == "retired"@)
}

proof fn lemma_finished_id(items: Seq<ItemView>, id: Seq<char>)
    ensures
        roadmap::is_done_item(items, id) == is_finished_id(items, id),
{
    lemma_counts(items, id);
    if is_finished_id(items, id) {
        let i = choose|i: int| #[trigger]
            counts_for_id(items, i) && items[i].id == id && (items[i].status == "done"@
                || items[i].status == "complete"@ || items[i].status == "retired"@);
        lemma_counted(items, i);
    }
}

proof fn lemma_done_counted(items: Seq<ItemView>, list: Seq<Seq<char>>, n: nat)
    requires
        n <= list.len(),
    ensures
        roadmap::done_among(items, list, n) == list.take(n as int).filter(
            |id: Seq<char>| is_finished_id(items, id),
        ).len(),
    decreases n,
{
    reveal(Seq::filter);
    if n > 0 {
        let m = (n - 1) as nat;
        lemma_done_counted(items, list, m);
        lemma_finished_id(items, list[n - 1]);
        assert(list.take(n as int).drop_last() =~= list.take(m as int));
        assert(list.take(n as int).last() == list[n - 1]);
    }
}

proof fn lemma_group_listed(items: Seq<ItemView>, n: nat, g: int)
    requires
        n <= items.len(),
        0 <= g < roadmap::open_groups(items, n).len(),
    ensures
        exists|i: int|
            0 <= i < n && (#[trigger] items[i]).item_type == "voyage"@ && roadmap::open_groups(
                items,
                n,
            )[g] == roadmap::group_of(items, items[i]) && !roadmap::is_closed(
                roadmap::group_of(items, items[i]),
            ),
    decreases n,
{
    if n > 0 {
        let m = (n - 1) as nat;
        let before = roadmap::open_groups(items, m);
        if g < before.len() {
            lemma_group_listed(items, m, g);
            let i = choose|i: int|
                0 <= i < m && (#[trigger] items[i]).item_type == "voyage"@ && before[g]
                    == roadmap::group_of(items, items[i]) && !roadmap::is_closed(
                    roadmap::group_of(items, items[i]),
                );
            assert(0 <= i < n && items[i].item_type == "voyage"@);
        } else {
            assert(items[n - 1].item_type == "voyage"@);
        }
    }
}

/// Whether a group shows a voyage with all work under it, by the items.
pub open spec fn is_group_of(items: Seq<ItemView>, group: GroupView, voyage: ItemView) -> bool {
    &&& group.voyage_id == voyage.id
    &&& group.voyage_title == voyage.title
    &&& group.voyage_status == voyage.status
    &&& forall|id: Seq<char>| #[trigger]
        group.items.contains(id) == exists|i: int|
            0 <= i < items.len() && is_under(#[trigger] items[i], voyage.id) && items[i].id == id
    &&& group.total_count == group.items.len()
    &&& group.done_count == group.items.filter(|id: Seq<char>| is_finished_id(items, id)).len()
}

/// Whether a group shows some voyage of the board.
pub open spec fn is_group_of_a_voyage(items: Seq<ItemView>, group: GroupView) -> bool {
    exists|i: int|
        0 <= i < items.len() && (#[trigger] items[i]).item_type == "voyage"@ && is_group_of(
            items,
            group,
            items[i],
        )
}

proof fn lemma_group(items: Seq<ItemView>, voyage: ItemView)
    ensures
        is_group_of(items, roadmap::group_of(items, voyage), voyage),
{
    let group = roadmap::group_of(items, voyage);
    assert forall|id: Seq<char>| #[trigger] group.items.contains(id) == exists|i: int|
        0 <= i < items.len() && is_under(#[trigger] items[i], voyage.id) && items[i].id == id by {
        lemma_children_are(items, voyage.id, items.len(), id);
    }
    lemma_done_counted(items, group.items, group.items.len());
    assert(group.items.take(group.items.len() as int) =~= group.items);
}

/// The groups of a roadmap are its voyages with the work under them; a voyage is left out
/// only where it is `done` or `complete` and so is all its work.
pub proof fn law_roadmap_shows_every_open_voyage(items: Seq<ItemView>, groups: Seq<GroupView>)
    requires
        items.len() <= usize::MAX,
        groups == roadmap::groups_spec(items),
    ensures
        forall|g: int|
            0 <= g < groups.len() ==> is_group_of_a_voyage(items, #[trigger] groups[g]),
        forall|g: int|
            0 <= g < groups.len() ==> !(((#[trigger] groups[g]).voyage_status == "done"@
                || groups[g].voyage_status == "complete"@) && groups[g].done_count
                == groups[g].total_count),
        forall|i: int|
            0 <= i < items.len() && (#[trigger] items[i]).item_type == "voyage"@ ==> (exists|
                g: int,
            |
                0 <= g < groups.len() && is_group_of(items, #[trigger] groups[g], items[i])) || ((
            items[i].status == "done"@ || items[i].status == "complete"@) && forall|j: int|
                0 <= j < items.len() && is_under(#[trigger] items[j], items[i].id)
                    ==> is_finished_id(items, items[j].id)),
{
    let open = roadmap::open_groups(items, items.len());
    let keys = roadmap::group_keys(open);
    lemma_groups_at_most(items, items.len());
    sorting::lemma_stable_order_exists::<(i32, String)>(keys);
    let order = sorting::stable_order::<(i32, String)>(keys);
    assert forall|g: int| 0 <= g < groups.len() implies is_group_of_a_voyage(
        items,
        #[trigger] groups[g],
    ) by {
        assert(groups[g] == open[order[g] as int]);
        lemma_group_listed(items, items.len(), order[g] as int);
        let i = choose|i: int|
            0 <= i < items.len() && (#[trigger] items[i]).item_type == "voyage"@
                && open[order[g] as int] == roadmap::group_of(items, items[i])
                && !roadmap::is_closed(roadmap::group_of(items, items[i]));
        lemma_group(items, items[i]);
        assert(is_group_of(items, groups[g], items[i]));
    }
    assert forall|g: int| 0 <= g < groups.len() implies !(((
    #[trigger] groups[g]).voyage_status == "done"@ || groups[g].voyage_status == "complete"@)
        && groups[g].done_count == groups[g].total_count) by {
        assert(groups[g] == open[order[g] as int]);
        lemma_group_listed(items, items.len(), order[g] as int);
    }
    assert forall|i: int| 0 <= i < items.len() && (#[trigger] items[i]).item_type == "voyage"@ implies (
    exists|g: int| 0 <= g < groups.len() && is_group_of(items, #[trigger] groups[g], items[i])) || ((
    items[i].status == "done"@ || items[i].status == "complete"@) && forall|j: int|
        0 <= j < items.len() && is_under(#[trigger] items[j], items[i].id) ==> is_finished_id(
            items,
            items[j].id,
        )) by {
        let group = roadmap::group_of(items, items[i]);
        lemma_group(items, items[i]);
        if roadmap::is_closed(group) {
            assert forall|j: int|
                0 <= j < items.len() && is_under(
                    #[trigger] items[j],
                    items[i].id,
                ) implies is_finished_id(items, items[j].id) by {
                assert(group.items.contains(items[j].id));
                let p = choose|p: int| 0 <= p < group.items.len() && group.items[p] == items[j].id;
                lemma_finished_id(items, items[j].id);
                if !roadmap::is_done_item(items, group.items[p]) {
                    lemma_not_all_done(items, group.items, p, group.items.len());
                }
            }
        } else {
            lemma_open_groups(items, i, items.len());
            let q = choose|q: int| 0 <= q < open.len() && open[q] == group;
            assert(order.contains(q as usize));
            let g = choose|g: int| 0 <= g < order.len() && order[g] == q as usize;
            assert(groups[g] == group);
            assert(is_group_of(items, groups[g], items[i]));
        }
    }
}

/// Whether a status puts a voyage before another: what is in progress, then the backlog,
/// then what is under review, then what is finished, then the rest.
pub open spec fn status_goes_before(a: Seq<char>, b: Seq<char>) -> bool {
    let finished = |s: Seq<char>| s == "done"@ || s == "complete"@ || s == "retired"@;
    ||| a == "in_progress"@ && b != "in_progress"@
    ||| a == "backlog"@ && b != "in_progress"@ && b != "backlog"@
    ||| a == "review"@ && b != "in_progress"@ && b != "backlog"@ && b != "review"@
    ||| finished(a) && b != "in_progress"@ && b != "backlog"@ && b != "review"@ && !finished(b)
}

/// The voyages of a roadmap stand in the order of their statuses, and those of one status
/// in that of their ids.
pub proof fn law_voyages_stand_in_order(
    items: Seq<ItemView>,
    groups: Seq<GroupView>,
    g: int,
    h: int,
)
    requires
        items.len() <= usize::MAX,
        groups == roadmap::groups_spec(items),
        0 <= g < groups.len(),
        0 <= h < groups.len(),
        status_goes_before(groups[g].voyage_status, groups[h].voyage_status) || (
        groups[g].voyage_status == groups[h].voyage_status && text::lex_less(
            groups[g].voyage_id,
            groups[h].voyage_id,
        )),
    ensures
        g < h,
{
    let open = roadmap::open_groups(items, items.len());
    let keys = roadmap::group_keys(open);
    lemma_groups_at_most(items, items.len());
    sorting::lemma_stable_order_exists::<(i32, String)>(keys);
    let order = sorting::stable_order::<(i32, String)>(keys);
    let a = keys[order[g] as int];
    let b = keys[order[h] as int];
    assert(groups[g] == open[order[g] as int] && groups[h] == open[order[h] as int]);
    lemma_status_words();
    let x = groups[g].voyage_id;
    let y = groups[h].voyage_id;
    if x != y && text::lex_less(x, y) && text::lex_less(y, x) {
        text::lemma_lex_transitive(x, y, x);
        text::lemma_lex_irreflexive(x);
    }
    text::lemma_lex_irreflexive(x);
    assert(!<(i32, String) as SortKey>::precedes(b, a));
    if h < g {
        assert(<(i32, String) as SortKey>::precedes(b, a));
    } else if h == g {
        <(i32, String) as SortKey>::le_total(a, a);
    }
}

proof fn lemma_status_words()
    ensures
        "in_progress"@ != "backlog"@,
        "in_progress"@ != "review"@,
        "in_progress"@ != "done"@,
        "in_progress"@ != "complete"@,
        "in_progress"@ != "retired"@,
        "backlog"@ != "review"@,
        "backlog"@ != "done"@,
        "backlog"@ != "complete"@,
        "backlog"@ != "retired"@,
        "review"@ != "done"@,
        "review"@ != "complete"@,
        "review"@ != "retired"@,
{
    reveal_strlit("in_progress");
    reveal_strlit("backlog");
    reveal_strlit("review");
    reveal_strlit("done");
    reveal_strlit("complete");
    reveal_strlit("retired");
    assert("in_progress"@[0] == 'i' && "backlog"@[0] == 'b' && "review"@[2] == 'v');
    assert("done"@[0] == 'd' && "complete"@[0] == 'c' && "retired"@[2] == 't');
    assert("review"@[0] == 'r' && "retired"@[0] == 'r');
}

/// The work under no voyage is what is neither a voyage nor finished, and whose id no item
/// has that lists a voyage of the board.
pub proof fn law_orphans_are_under_no_voyage(items: Seq<ItemView>, id: Seq<char>)
    ensures
        roadmap::orphans_spec(items).contains(id) == exists|i: int|
            0 <= i < items.len() && (#[trigger] items[i]).id == id && items[i].item_type
                != "voyage"@ && items[i].status != "done"@ && items[i].status != "complete"@
                && items[i].status != "retired"@ && !some_item_is_under_a_voyage(items, id),
{
    let pred = |x: ItemView|
        !roadmap::is_voyage(x) && !roadmap::is_grouped(items, x.id) && !critical_path::is_done(
            x.status,
        );
    let kept = items.filter(pred);
    let list = roadmap::orphans_spec(items);
    lemma_grouped_is(items, id);
    if list.contains(id) {
        let p = choose|p: int| 0 <= p < list.len() && list[p] == id;
        assert(kept.contains(kept[p]));
        items.lemma_filter_contains_rev(pred, kept[p]);
        items.lemma_filter_pred(pred, p);
        let i = choose|i: int| 0 <= i < items.len() && items[i] == kept[p];
        assert(items[i].id == id);
    }
    if exists|i: int|
        0 <= i < items.len() && (#[trigger] items[i]).id == id && items[i].item_type != "voyage"@
            && items[i].status != "done"@ && items[i].status != "complete"@ && items[i].status
            != "retired"@ && !some_item_is_under_a_voyage(items, id) {
        let i = choose|i: int|
            0 <= i < items.len() && (#[trigger] items[i]).id == id && items[i].item_type
                != "voyage"@ && items[i].status != "done"@ && items[i].status != "complete"@
                && items[i].status != "retired"@ && !some_item_is_under_a_voyage(items, id);
        items.lemma_filter_contains(pred, i);
        let p = choose|p: int| 0 <= p < kept.len() && kept[p] == items[i];
        assert(list[p] == id);
    }
}

/// Whether some item with an id is under some voyage of the board.
pub open spec fn some_item_is_under_a_voyage(items: Seq<ItemView>, id: Seq<char>) -> bool {
    exists|i: int, v: int|
        0 <= i < items.len() && 0 <= v < items.len() && items[v].item_type == "voyage"@
            && items[i].id == id && #[trigger] is_under(items[i], items[v].id)
}

proof fn lemma_grouped_is(items: Seq<ItemView>, id: Seq<char>)
    ensures
        roadmap::is_grouped(items, id) == some_item_is_under_a_voyage(items, id),
{
    if roadmap::is_grouped(items, id) {
        let i = choose|i: int|
            0 <= i < items.len() && (#[trigger] items[i]).id == id && roadmap::names_voyage(
                items,
                items[i],
            );
        let k = choose|k: int|
            0 <= k < items[i].related.len() && roadmap::is_voyage_id(
                items,
                #[trigger] items[i].related[k],
            );
        let v = choose|v: int|
            0 <= v < items.len() && (#[trigger] items[v]).id == items[i].related[k]
                && roadmap::is_voyage(items[v]);
        assert(is_under(items[i], items[v].id));
    }
    if some_item_is_under_a_voyage(items, id) {
        let (i, v) = choose|i: int, v: int|
            0 <= i < items.len() && 0 <= v < items.len() && items[v].item_type == "voyage"@
                && items[i].id == id && #[trigger] is_under(items[i], items[v].id);
        let k = choose|k: int|
            0 <= k < items[i].related.len() && items[i].related[k] == items[v].id;
        assert(roadmap::is_voyage_id(items, items[i].related[k]));
        assert(roadmap::names_voyage(items, items[i]));
    }
}

// ---- campaigns, by the items themselves ------------------------------------------------------------------

/// Whether an id is that of a voyage of the board among the members of a campaign.
pub open spec fn is_member_voyage(
    items: Seq<ItemView>,
    members: Seq<Seq<char>>,
    id: Seq<char>,
) -> bool {
    members.contains(id) && exists|i: int|
        0 <= i < items.len() && (#[trigger] items[i]).id == id && items[i].item_type == "voyage"@
}

proof fn lemma_existing_members(
    items: Seq<ItemView>,
    members: Seq<Seq<char>>,
    n: nat,
    id: Seq<char>,
)
    requires
        n <= items.len(),
    ensures
        roadmap::existing_members(items, members, n).no_duplicates(),
        roadmap::existing_members(items, members, n).contains(id) == (members.contains(id)
            && exists|i: int|
            0 <= i < n && (#[trigger] items[i]).id == id && items[i].item_type == "voyage"@),
    decreases n,
{
    if n > 0 {
        let m = (n - 1) as nat;
        lemma_existing_members(items, members, m, id);
        lemma_existing_members(items, members, m, items[n - 1].id);
        let before = roadmap::existing_members(items, members, m);
        vstd::seq_lib::lemma_seq_contains_after_push(before, items[n - 1].id, id);
        if exists|i: int| 0 <= i < m && (#[trigger] items[i]).id == id && items[i].item_type == "voyage"@ {
            let i = choose|i: int|
                0 <= i < m && (#[trigger] items[i]).id == id && items[i].item_type == "voyage"@;
            assert(0 <= i < n && items[i].id == id && items[i].item_type == "voyage"@);
        }
        if items[n - 1].id == id && items[n - 1].item_type == "voyage"@ {
            assert(0 <= n - 1 < n && items[n - 1].id == id);
        }
    }
}

/// Whether an item is an expedition under a member voyage of a campaign.
pub open spec fn is_campaign_work(
    items: Seq<ItemView>,
    members: Seq<Seq<char>>,
    x: ItemView,
) -> bool {
    x.item_type == "expedition"@ && exists|v: Seq<char>|
        x.related.contains(v) && #[trigger] is_member_voyage(items, members, v)
}

/// A campaign counts its member voyages, each once, the expeditions under them that are
/// `done`, `complete` or `retired`, and all expeditions under them.
pub proof fn law_campaigns_count_their_work(
    items: Seq<ItemView>,
    members: Seq<Seq<char>>,
    voyages: Seq<Seq<char>>,
)
    requires
        voyages.no_duplicates(),
        forall|id: Seq<char>| #[trigger]
            voyages.contains(id) == is_member_voyage(items, members, id),
    ensures
        roadmap::aggregate_spec(items, members).0 == voyages.len(),
        roadmap::aggregate_spec(items, members).1 == items.filter(
            |x: ItemView|
                is_campaign_work(items, members, x) && (x.status == "done"@ || x.status
                    == "complete"@ || x.status == "retired"@),
        ).len(),
        roadmap::aggregate_spec(items, members).2 == items.filter(
            |x: ItemView| is_campaign_work(items, members, x),
        ).len(),
{
    let found = roadmap::existing_members(items, members, items.len());
    assert forall|id: Seq<char>| #[trigger] found.contains(id) == is_member_voyage(
        items,
        members,
        id,
    ) by {
        lemma_existing_members(items, members, items.len(), id);
    }
    lemma_existing_members(items, members, items.len(), Seq::empty());
    assert forall|x: ItemView| #[trigger] roadmap::is_member_expedition(x, found)
        == is_campaign_work(items, members, x) by {
        if roadmap::is_member_expedition(x, found) {
            let k = choose|k: int|
                0 <= k < x.related.len() && found.contains(#[trigger] x.related[k]);
            assert(x.related.contains(x.related[k]) && is_member_voyage(
                items,
                members,
                x.related[k],
            ));
        }
        if is_campaign_work(items, members, x) {
            let v = choose|v: Seq<char>|
                x.related.contains(v) && #[trigger] is_member_voyage(items, members, v);
            let k = choose|k: int| 0 <= k < x.related.len() && x.related[k] == v;
            assert(found.contains(x.related[k]));
        }
    }
    let a = |x: ItemView| roadmap::is_member_expedition(x, found);
    let b = |x: ItemView| is_campaign_work(items, members, x);
    let c = |x: ItemView| roadmap::is_member_expedition(x, found) && critical_path::is_done(x.status);
    let d = |x: ItemView|
        is_campaign_work(items, members, x) && (x.status == "done"@ || x.status == "complete"@
            || x.status == "retired"@);
    assert forall|x: ItemView| #[trigger] a(x) == b(x) by {
        assert(roadmap::is_member_expedition(x, found) == is_campaign_work(items, members, x));
    }
    assert forall|x: ItemView| #[trigger] c(x) == d(x) by {
        assert(roadmap::is_member_expedition(x, found) == is_campaign_work(items, members, x));
    }
    lemma_same_filter(items, a, b);
    lemma_same_filter(items, c, d);
    lemma_same_length(found, voyages);
}

proof fn lemma_same_filter(
    items: Seq<ItemView>,
    p: spec_fn(ItemView) -> bool,
    q: spec_fn(ItemView) -> bool,
)
    requires
        forall|x: ItemView| #[trigger] p(x) == q(x),
    ensures
        items.filter(p).len() == items.filter(q).len(),
    decreases items.len(),
{
    reveal(Seq::filter);
    if items.len() > 0 {
        lemma_same_filter(items.drop_last(), p, q);
        assert(p(items.last()) == q(items.last()));
    }
}

proof fn lemma_same_length(a: Seq<Seq<char>>, b: Seq<Seq<char>>)
    requires
        a.no_duplicates(),
        b.no_duplicates(),
        forall|x: Seq<char>| #[trigger] a.contains(x) == b.contains(x),
    ensures
        a.len() == b.len(),
{
    a.unique_seq_to_set();
    b.unique_seq_to_set();
    assert(a.to_set() =~= b.to_set()) by {
        assert forall|x: Seq<char>| a.to_set().contains(x) == b.to_set().contains(x) by {
            assert(a.contains(x) == b.contains(x));
        }
    }
}

/// An item becomes related to a voyage of the board by a live edge that says that it
/// implements it, or that the voyage spawns it; what it was related to stays, and so does
/// all else.
pub proof fn law_typed_members_are_folded_in(
    items: Seq<ItemView>,
    edges: Seq<EdgeView>,
    before: ItemView,
    after: ItemView,
    v: Seq<char>,
)
    requires
        roadmap::is_folded(items, edges, before, after),
    ensures
        after.id == before.id,
        after.status == before.status,
        after.title == before.title,
        after.item_type == before.item_type,
        after.priority == before.priority,
        after.assignee == before.assignee,
        after.depends_on == before.depends_on,
        after.rank == before.rank,
        after.related.contains(v) == (before.related.contains(v) || ((exists|i: int|
            0 <= i < items.len() && (#[trigger] items[i]).id == v && items[i].item_type
                == "voyage"@) && ((exists|e: int|
            0 <= e < edges.len() && !(#[trigger] edges[e]).deleted && edges[e].source == before.id
                && edges[e].target == v && edges[e].predicate == "implements"@) || ((exists|i: int|
            0 <= i < items.len() && (#[trigger] items[i]).id == before.id && items[i].item_type
                != "voyage"@) && exists|e: int|
            0 <= e < edges.len() && !(#[trigger] edges[e]).deleted && edges[e].source == v
                && edges[e].target == before.id && edges[e].predicate == "spawns"@)))),
{
    lemma_live(edges, before.id, v, "implements"@);
    lemma_live(edges, v, before.id, "spawns"@);
    assert(roadmap::is_voyage_id(items, v) == exists|i: int|
        0 <= i < items.len() && (#[trigger] items[i]).id == v && items[i].item_type == "voyage"@);
    assert(roadmap::is_work_id(items, before.id) == exists|i: int|
        0 <= i < items.len() && (#[trigger] items[i]).id == before.id && items[i].item_type
            != "voyage"@);
    assert(after.related.contains(v) == (before.related.contains(v) || roadmap::is_typed_member(
        items,
        edges,
        before.id,
        v,
    )));
}

proof fn lemma_live(edges: Seq<EdgeView>, s: Seq<char>, t: Seq<char>, p: Seq<char>)
    ensures
        relations::has_live_edge(edges, s, t, p) == exists|e: int|
            0 <= e < edges.len() && !(#[trigger] edges[e]).deleted && edges[e].source == s
                && edges[e].target == t && edges[e].predicate == p,
{
}

} // verus!
