//! What holds of every critical path analysis.
use vstd::prelude::*;
use crate::critical_path;
use crate::critical_path::CriticalPathResult;
use crate::critical_path::ItemView;
use crate::graph;
use crate::render;
use crate::sorting;
use crate::sorting::SortKey;
use crate::state_machine;
use crate::text;

verus! {

proof fn lemma_settled_chain(active: Seq<ItemView>, p: Seq<Seq<char>>, r: nat, k: int)
    requires
        critical_path::is_wait_chain(active, p),
        critical_path::settled(active, p[0], r),
        0 <= k < p.len(),
    ensures
        k < r,
        critical_path::settled(active, p[k], (r - k) as nat),
    decreases k,
{
    if k > 0 {
        lemma_settled_chain(active, p, r, k - 1);
        assert(critical_path::linked(active, p, k - 1));
        assert(critical_path::settled(active, p[k], (r - k) as nat));
    }
}

/// An item that has its turn within some number of steps does not wait for
/// itself.
pub proof fn law_settled_means_no_cycle(active: Seq<ItemView>, id: Seq<char>, r: nat)
    requires
        critical_path::settled(active, id, r),
    ensures
        !critical_path::waits_through(active, id, id),
    decreases r,
{
    if critical_path::waits_through(active, id, id) {
        let p = choose|p: Seq<Seq<char>>| #[trigger]
            critical_path::is_wait_chain(active, p) && p[0] == id && p.last() == id;
        let k = p.len() - 1;
        lemma_settled_chain(active, p, r, k);
        law_settled_means_no_cycle(active, id, (r - k) as nat);
    }
}

spec fn step_waits(active: Seq<ItemView>, p: Seq<int>, k: int) -> bool {
    critical_path::waits_on(active, active[p[k]].id, active[p[k + 1]].id)
}

/// A walk of `steps` steps along items that wait.
spec fn waiting_walk(active: Seq<ItemView>, i: int, steps: nat) -> Seq<int>
    decreases steps,
{
    if steps == 0 {
        seq![i]
    } else {
        let next = choose|c: int|
            0 <= c < active.len() && #[trigger] critical_path::waits_on(
                active,
                active[i].id,
                active[c].id,
            ) && !critical_path::settled(active, active[c].id, (steps - 1) as nat);
        seq![i] + waiting_walk(active, next, (steps - 1) as nat)
    }
}

proof fn lemma_waiting_walk(active: Seq<ItemView>, i: int, steps: nat)
    requires
        0 <= i < active.len(),
        !critical_path::settled(active, active[i].id, steps),
    ensures
        ({
            let p = waiting_walk(active, i, steps);
            &&& p.len() == steps + 1
            &&& p[0] == i
            &&& forall|k: int| 0 <= k < p.len() ==> 0 <= #[trigger] p[k] < active.len()
            &&& forall|k: int| 0 <= k < p.len() - 1 ==> #[trigger] step_waits(active, p, k)
        }),
    decreases steps,
{
    if steps > 0 {
        let other = choose|other: Seq<char>| #[trigger]
            critical_path::waits_on(active, active[i].id, other) && !critical_path::settled(
                active,
                other,
                (steps - 1) as nat,
            );
        let c0 = choose|c: int| 0 <= c < active.len() && (#[trigger] active[c]).id == other;
        assert(critical_path::waits_on(active, active[i].id, active[c0].id));
        let next = choose|c: int|
            0 <= c < active.len() && #[trigger] critical_path::waits_on(
                active,
                active[i].id,
                active[c].id,
            ) && !critical_path::settled(active, active[c].id, (steps - 1) as nat);
        lemma_waiting_walk(active, next, (steps - 1) as nat);
        let q = waiting_walk(active, next, (steps - 1) as nat);
        let p = waiting_walk(active, i, steps);
        assert(p =~= seq![i] + q);
        assert forall|k: int| 0 <= k < p.len() - 1 implies #[trigger] step_waits(active, p, k) by {
            if k > 0 {
                assert(step_waits(active, q, k - 1));
            }
        }
        assert forall|k: int| 0 <= k < p.len() implies 0 <= #[trigger] p[k] < active.len() by {
            if k > 0 {
                assert(p[k] == q[k - 1]);
            }
        }
    }
}

/// Where the analysis says that an item waits for ever, some item does wait for
/// itself, directly or through others.
pub proof fn law_stuck_means_cycle(active: Seq<ItemView>, i: int)
    requires
        0 <= i < active.len(),
        !critical_path::settled(active, active[i].id, active.len()),
    ensures
        exists|id: Seq<char>| #[trigger] critical_path::waits_through(active, id, id),
{
    let p = waiting_walk(active, i, active.len());
    lemma_waiting_walk(active, i, active.len());
    let (a, b) = crate::graph::lemma_repeats(p, active.len());
    let q = Seq::new((b - a + 1) as nat, |k: int| active[p[a + k]].id);
    assert forall|k: int| 0 <= k < q.len() - 1 implies #[trigger] critical_path::linked(active, q, k) by {
        assert(step_waits(active, p, a + k));
    }
    assert(critical_path::is_wait_chain(active, q));
    assert(critical_path::waits_through(active, active[p[a]].id, active[p[a]].id));
}

/// Items with distinct ids can be ordered exactly when none of them waits for
/// itself, directly or through others.
pub proof fn law_resolvable_iff_acyclic(active: Seq<ItemView>)
    requires
        critical_path::ids_distinct(active),
    ensures
        critical_path::resolvable(active) == forall|id: Seq<char>|
            !#[trigger] critical_path::waits_through(active, id, id),
{
    if critical_path::resolvable(active) {
        assert forall|id: Seq<char>| !#[trigger] critical_path::waits_through(active, id, id) by {
            if critical_path::waits_through(active, id, id) {
                let p = choose|p: Seq<Seq<char>>| #[trigger]
                    critical_path::is_wait_chain(active, p) && p[0] == id && p.last() == id;
                assert(critical_path::linked(active, p, 0));
                let b = choose|b: int|
                    0 <= b < active.len() && (#[trigger] active[b]).id == id
                        && active[b].depends_on.contains(p[1]);
                assert(critical_path::settled(active, active[b].id, active.len()));
                law_settled_means_no_cycle(active, id, active.len());
            }
        }
    } else {
        let i = choose|i: int|
            0 <= i < active.len() && !critical_path::settled(
                active,
                (#[trigger] active[i]).id,
                active.len(),
            );
        law_stuck_means_cycle(active, i);
    }
}

/// No chain of waiting from an item is longer than the item is deep: a chain of
/// items from depth `d` down has at most `d + 1` of them.
pub proof fn law_depth_bounds_chains(active: Seq<ItemView>, depth: Seq<u32>, p: Seq<Seq<char>>, a: int)
    requires
        critical_path::ids_distinct(active),
        critical_path::depths_ok(active, depth),
        critical_path::is_wait_chain(active, p),
        0 <= a < active.len(),
        p[0] == active[a].id,
    ensures
        p.len() <= depth[a] + 1,
    decreases p.len(),
{
    assert(critical_path::linked(active, p, 0));
    let b = choose|c: int| 0 <= c < active.len() && (#[trigger] active[c]).id == p[1];
    assert(critical_path::waits_on(active, active[a].id, active[b].id));
    if p.len() > 2 {
        let q = p.drop_first();
        assert forall|k: int| 0 <= k < q.len() - 1 implies #[trigger] critical_path::linked(active, q, k) by {
            assert(critical_path::linked(active, p, k + 1));
        }
        law_depth_bounds_chains(active, depth, q, b);
    }
}

/// And one chain is that long: the depth of an item is the length of the longest
/// chain of waiting from it.
pub proof fn law_depth_is_reached(active: Seq<ItemView>, depth: Seq<u32>, a: int) -> (p: Seq<
    Seq<char>,
>)
    requires
        critical_path::depths_ok(active, depth),
        0 <= a < active.len(),
        depth[a] > 0,
    ensures
        critical_path::is_wait_chain(active, p),
        p[0] == active[a].id,
        p.len() == depth[a] + 1,
    decreases depth[a],
{
    assert(critical_path::depth_reached(active, depth, a));
    let b = choose|b: int|
        0 <= b < active.len() && #[trigger] critical_path::waits_on(
            active,
            active[a].id,
            active[b].id,
        ) && depth[b] + 1 == depth[a];
    if depth[b] == 0 {
        let p = seq![active[a].id, active[b].id];
        assert(critical_path::linked(active, p, 0));
        p
    } else {
        let q = law_depth_is_reached(active, depth, b);
        let p = seq![active[a].id] + q;
        assert forall|k: int| 0 <= k < p.len() - 1 implies #[trigger] critical_path::linked(active, p, k) by {
            if k > 0 {
                assert(critical_path::linked(active, q, k - 1));
            }
        }
        p
    }
}

/// Depths are determined by the items: two lists of depths that are right for
/// the same items are equal.
pub proof fn law_depths_unique(active: Seq<ItemView>, d: Seq<u32>, e: Seq<u32>)
    requires
        critical_path::ids_distinct(active),
        critical_path::depths_ok(active, d),
        critical_path::depths_ok(active, e),
    ensures
        d == e,
{
    assert forall|a: int| 0 <= a < active.len() implies d[a] == e[a] by {
        lemma_depth_at_most(active, d, e, a);
        lemma_depth_at_most(active, e, d, a);
    }
    assert(d =~= e);
}

proof fn lemma_depth_at_most(active: Seq<ItemView>, d: Seq<u32>, e: Seq<u32>, a: int)
    requires
        critical_path::ids_distinct(active),
        critical_path::depths_ok(active, d),
        critical_path::depths_ok(active, e),
        0 <= a < active.len(),
    ensures
        d[a] <= e[a],
{
    if d[a] > 0 {
        let p = law_depth_is_reached(active, d, a);
        law_depth_bounds_chains(active, e, p, a);
    }
}

/// Nothing in the working order waits for something that comes after it.
pub proof fn law_order_respects_waiting(active: Seq<ItemView>, r: CriticalPathResult, i: int, j: int)
    requires
        critical_path::is_analysis(active, r),
        active.len() <= usize::MAX,
        0 <= i <= j < r.ordered@.len(),
    ensures
        !critical_path::waits_on(active, r.ordered@[i]@, r.ordered@[j]@),
{
    let order = choose|order: Seq<usize>| #[trigger]
        critical_path::is_work_order(active, order) && text::views(r.ordered@) == sorting::pick(
            critical_path::ids(active),
            order,
        );
    let freed = choose|freed: Seq<nat>| #[trigger]
        critical_path::taken_as_freed(active, order, freed);
    assert(text::views(r.ordered@).len() == order.len());
    assert(order[i] < active.len() && order[j] < active.len());
    assert(text::views(r.ordered@)[i] == critical_path::ids(active)[order[i] as int]);
    assert(text::views(r.ordered@)[j] == critical_path::ids(active)[order[j] as int]);
    if critical_path::waits_on(active, r.ordered@[i]@, r.ordered@[j]@) {
        assert(critical_path::waits_on(
            active,
            active[order[i] as int].id,
            active[order[j] as int].id,
        ));
        let first = order.take(freed[i] as int);
        assert(first.contains(order[j]));
        let k = choose|k: int| 0 <= k < first.len() && first[k] == order[j];
        assert(order[k] == order[j]);
    }
}

proof fn lemma_free_alike(
    active: Seq<ItemView>,
    a: Seq<usize>,
    b: Seq<usize>,
    x: int,
    t: nat,
    n: nat,
)
    requires
        t <= n <= a.len(),
        n <= b.len(),
        a.take(n as int) == b.take(n as int),
    ensures
        critical_path::free_by(active, a, x, t) == critical_path::free_by(active, b, x, t),
{
    assert(a.take(t as int) =~= a.take(n as int).take(t as int));
    assert(b.take(t as int) =~= b.take(n as int).take(t as int));
}

/// What is free stays free.
proof fn lemma_free_stays(active: Seq<ItemView>, order: Seq<usize>, x: int, s: nat, t: nat)
    requires
        s <= t <= order.len(),
        critical_path::free_by(active, order, x, s),
    ensures
        critical_path::free_by(active, order, x, t),
{
    assert forall|b: int|
        0 <= b < active.len() && #[trigger] critical_path::waits_on(
            active,
            active[x].id,
            active[b].id,
        ) implies order.take(t as int).contains(b as usize) by {
        let less = order.take(s as int);
        assert(less.contains(b as usize));
        let k = choose|k: int| 0 <= k < less.len() && less[k] == b as usize;
        assert(order.take(t as int)[k] == b as usize);
    }
}

/// An item becomes free at one moment only.
proof fn lemma_freed_once(active: Seq<ItemView>, order: Seq<usize>, x: int, s: nat, t: nat)
    requires
        s <= order.len(),
        t <= order.len(),
        critical_path::freed_at(active, order, x, s),
        critical_path::freed_at(active, order, x, t),
    ensures
        s == t,
{
    if s < t {
        lemma_free_stays(active, order, x, s, (t - 1) as nat);
    }
    if t < s {
        lemma_free_stays(active, order, x, t, (s - 1) as nat);
    }
}

/// Where two orders begin alike, the next of one stands behind that beginning in the
/// other, and becomes free at the same moment.
proof fn lemma_same_moment(
    active: Seq<ItemView>,
    a: Seq<usize>,
    freed_a: Seq<nat>,
    b: Seq<usize>,
    freed_b: Seq<nat>,
    m: nat,
) -> (i: int)
    requires
        critical_path::taken_as_freed(active, a, freed_a),
        critical_path::taken_as_freed(active, b, freed_b),
        active.len() <= usize::MAX,
        m < active.len(),
        a.take(m as int) == b.take(m as int),
    ensures
        m <= i < b.len(),
        b[i] == a[m as int],
        freed_b[i] == freed_a[m as int],
{
    let x = a[m as int];
    assert(x < active.len());
    assert(b.contains(x)) by {
        assert forall|k: int| 0 <= k < b.len() implies (#[trigger] b[k]) < active.len() by {}
        graph::lemma_all_placed(b, active.len());
    }
    let i = choose|i: int| 0 <= i < b.len() && b[i] == x;
    if i < m {
        assert(a.take(m as int)[i] == a[i]);
        assert(b.take(m as int)[i] == b[i]);
        assert(a[i] != a[m as int]);
    }
    let s = freed_a[m as int];
    assert(critical_path::freed_at(active, a, a[m as int] as int, s) && s <= m);
    lemma_free_alike(active, a, b, x as int, s, m);
    if s > 0 {
        lemma_free_alike(active, a, b, x as int, (s - 1) as nat, m);
    }
    assert(critical_path::freed_at(active, b, b[i] as int, freed_b[i]) && freed_b[i] <= i);
    lemma_freed_once(active, b, x as int, s, freed_b[i]);
    i
}

proof fn lemma_one_order(
    active: Seq<ItemView>,
    a: Seq<usize>,
    freed_a: Seq<nat>,
    b: Seq<usize>,
    freed_b: Seq<nat>,
    n: nat,
)
    requires
        critical_path::taken_as_freed(active, a, freed_a),
        critical_path::taken_as_freed(active, b, freed_b),
        active.len() <= usize::MAX,
        n <= active.len(),
    ensures
        a.take(n as int) == b.take(n as int),
    decreases n,
{
    if n > 0 {
        let m = (n - 1) as nat;
        lemma_one_order(active, a, freed_a, b, freed_b, m);
        let i = lemma_same_moment(active, a, freed_a, b, freed_b, m);
        let j = lemma_same_moment(active, b, freed_b, a, freed_a, m);
        if i > m && j > m {
            assert(graph::freed_first(a, freed_a, m as int, j));
            assert(graph::freed_first(b, freed_b, m as int, i));
        }
        assert(a[m as int] == b[m as int]);
        assert(a.take(n as int) =~= a.take(m as int).push(a[m as int]));
        assert(b.take(n as int) =~= b.take(m as int).push(b[m as int]));
    }
}

/// There is only one order in which items can be taken up as they become free.
pub proof fn law_one_working_order(active: Seq<ItemView>, a: Seq<usize>, b: Seq<usize>)
    requires
        critical_path::is_work_order(active, a),
        critical_path::is_work_order(active, b),
        active.len() <= usize::MAX,
    ensures
        a == b,
{
    let freed_a = choose|freed: Seq<nat>| #[trigger] critical_path::taken_as_freed(active, a, freed);
    let freed_b = choose|freed: Seq<nat>| #[trigger] critical_path::taken_as_freed(active, b, freed);
    lemma_one_order(active, a, freed_a, b, freed_b, active.len());
    assert(a.take(active.len() as int) =~= a);
    assert(b.take(active.len() as int) =~= b);
}

/// An unfinished item is ready or blocked, and not both: it is ready exactly when
/// it lies at depth 0.
pub proof fn law_ready_or_blocked(active: Seq<ItemView>, depth: Seq<u32>, a: int)
    requires
        critical_path::ids_distinct(active),
        critical_path::depths_ok(active, depth),
        active.len() <= usize::MAX,
        0 <= a < active.len(),
    ensures
        critical_path::with_unmet(active, false, active.len()).contains(a as usize) == (depth[a]
            == 0),
        critical_path::with_unmet(active, true, active.len()).contains(a as usize) == (depth[a]
            > 0),
{
    lemma_with_unmet(active, false, active.len(), a);
    lemma_with_unmet(active, true, active.len(), a);
    if critical_path::has_unmet(active, a) {
        let q = choose|q: int|
            0 <= q < active[a].depends_on.len() && critical_path::has_id(
                active,
                #[trigger] active[a].depends_on[q],
            );
        let other = active[a].depends_on[q];
        let b = choose|c: int| 0 <= c < active.len() && (#[trigger] active[c]).id == other;
        assert(active[a].depends_on.contains(other));
        assert(critical_path::waits_on(active, active[a].id, active[b].id));
    }
    if depth[a] > 0 {
        assert(critical_path::depth_reached(active, depth, a));
        let b = choose|b: int|
            0 <= b < active.len() && #[trigger] critical_path::waits_on(
                active,
                active[a].id,
                active[b].id,
            ) && depth[b] + 1 == depth[a];
        let x = choose|x: int|
            0 <= x < active.len() && (#[trigger] active[x]).id == active[a].id
                && active[x].depends_on.contains(active[b].id);
        assert(x == a) by {
            if x < a {
                assert(active[x].id != active[a].id);
            } else if a < x {
                assert(active[a].id != active[x].id);
            }
        }
        let q = choose|q: int|
            0 <= q < active[a].depends_on.len() && active[a].depends_on[q] == active[b].id;
        assert(critical_path::has_id(active, active[a].depends_on[q]));
    }
}

proof fn lemma_with_unmet(active: Seq<ItemView>, unmet: bool, n: nat, a: int)
    requires
        n <= active.len() <= usize::MAX,
        0 <= a < active.len(),
    ensures
        critical_path::with_unmet(active, unmet, n).contains(a as usize) == (a < n
            && critical_path::has_unmet(active, a) == unmet),
    decreases n,
{
    if n > 0 {
        lemma_with_unmet(active, unmet, (n - 1) as nat, a);
        let before = critical_path::with_unmet(active, unmet, (n - 1) as nat);
        vstd::seq_lib::lemma_seq_contains_after_push(before, (n - 1) as usize, a as usize);
    }
}

// ---- the groups of a critical path -------------------------------------------------------

spec fn count_below(depth: Seq<u32>, level: int, n: nat) -> nat
    decreases n,
{
    if n == 0 {
        0
    } else {
        count_below(depth, level, (n - 1) as nat) + if depth[n - 1] < level {
            1nat
        } else {
            0nat
        }
    }
}

proof fn lemma_count_next(depth: Seq<u32>, level: int, n: nat)
    requires
        n <= depth.len(),
    ensures
        count_below(depth, level + 1, n) == count_below(depth, level, n) + critical_path::at_depth(
            depth,
            level,
            n,
        ).len(),
    decreases n,
{
    if n > 0 {
        lemma_count_next(depth, level, (n - 1) as nat);
    }
}

proof fn lemma_count_all(depth: Seq<u32>, level: int, n: nat)
    requires
        n <= depth.len(),
        forall|i: int| 0 <= i < n ==> (#[trigger] depth[i]) < level,
    ensures
        count_below(depth, level, n) == n,
    decreases n,
{
    if n > 0 {
        lemma_count_all(depth, level, (n - 1) as nat);
    }
}

proof fn lemma_count_none(depth: Seq<u32>, n: nat)
    requires
        n <= depth.len(),
    ensures
        count_below(depth, 0, n) == 0,
    decreases n,
{
    if n > 0 {
        lemma_count_none(depth, (n - 1) as nat);
    }
}

proof fn lemma_span_bounds(depth: Seq<u32>, i: int)
    requires
        0 <= i < depth.len(),
    ensures
        depth[i] < critical_path::depth_span(depth),
    decreases depth.len(),
{
    if i < depth.len() - 1 {
        lemma_span_bounds(depth.drop_last(), i);
    }
}

proof fn lemma_listed(active: Seq<ItemView>, r: CriticalPathResult, m: nat)
    requires
        critical_path::is_analysis(active, r),
        active.len() <= usize::MAX,
        m <= r.depth_groups@.len(),
    ensures
        render::listed(render::level_views(r.depth_groups@), m) == count_below(
            critical_path::depth_values(r),
            m as int,
            active.len(),
        ),
    decreases m,
{
    let depth = critical_path::depth_values(r);
    if m == 0 {
        lemma_count_none(depth, active.len());
    } else {
        lemma_listed(active, r, (m - 1) as nat);
        lemma_count_next(depth, m - 1, active.len());
        let positions = critical_path::at_depth(depth, m - 1, active.len());
        lemma_at_depth_len(depth, m - 1, active.len());
        sorting::lemma_stable_order_exists::<(u8, i32, i32)>(
            critical_path::keys_at(active, positions),
        );
        assert(r.depth_groups@[m - 1].0 == m - 1);
        assert(critical_path::ranked(active, positions).len() == positions.len());
    }
}

proof fn lemma_at_depth_len(depth: Seq<u32>, level: int, n: nat)
    ensures
        critical_path::at_depth(depth, level, n).len() <= n,
    decreases n,
{
    if n > 0 {
        lemma_at_depth_len(depth, level, (n - 1) as nat);
    }
}

/// The depth groups list every unfinished item once, and the last of them is the
/// deepest.
pub proof fn law_groups_list_every_item(active: Seq<ItemView>, r: CriticalPathResult)
    requires
        critical_path::is_analysis(active, r),
        active.len() <= u32::MAX,
        critical_path::ids_distinct(active),
    ensures
        render::listed(render::level_views(r.depth_groups@), r.depth_groups@.len())
            == active.len(),
        render::last_level(render::level_views(r.depth_groups@)) < u32::MAX,
{
    let depth = critical_path::depth_values(r);
    let span = critical_path::depth_span(depth);
    lemma_listed(active, r, r.depth_groups@.len());
    assert forall|i: int| 0 <= i < depth.len() implies (#[trigger] depth[i]) < span by {
        lemma_span_bounds(depth, i);
    }
    lemma_count_all(depth, span as int, active.len());
    if r.depth_groups@.len() > 0 {
        let last = r.depth_groups@.len() - 1;
        assert(r.depth_groups@[last].0 == last);
        lemma_span_attained(depth);
        let i = choose|i: int| 0 <= i < depth.len() && #[trigger] depth[i] + 1 == span;
        lemma_depth_below_count(active, depth, i);
    }
}

proof fn lemma_span_attained(depth: Seq<u32>)
    requires
        critical_path::depth_span(depth) > 0,
    ensures
        exists|i: int|
            0 <= i < depth.len() && #[trigger] depth[i] + 1 == critical_path::depth_span(depth),
    decreases depth.len(),
{
    let before = depth.drop_last();
    if depth.last() >= critical_path::depth_span(before) {
        assert(depth[depth.len() - 1] + 1 == critical_path::depth_span(depth));
    } else {
        lemma_span_attained(before);
        let i = choose|i: int|
            0 <= i < before.len() && #[trigger] before[i] + 1 == critical_path::depth_span(before);
        assert(depth[i] == before[i]);
    }
}

/// A chain of different items has no more members than there are items.
proof fn lemma_depth_below_count(active: Seq<ItemView>, depth: Seq<u32>, a: int)
    requires
        critical_path::ids_distinct(active),
        critical_path::depths_ok(active, depth),
        0 <= a < active.len(),
    ensures
        depth[a] < active.len(),
{
    let walk = descent(active, depth, a, depth[a] as nat);
    lemma_descent(active, depth, a, depth[a] as nat);
    if depth[a] >= active.len() {
        let (x, y) = crate::graph::lemma_repeats(walk, active.len());
        assert(depth[walk[x]] == depth[a] - x);
        assert(depth[walk[y]] == depth[a] - y);
    }
}

/// A walk from an item down to depth 0, one depth at a time.
spec fn descent(active: Seq<ItemView>, depth: Seq<u32>, a: int, steps: nat) -> Seq<int>
    decreases steps,
{
    if steps == 0 {
        seq![a]
    } else {
        let b = choose|b: int|
            0 <= b < active.len() && #[trigger] critical_path::waits_on(
                active,
                active[a].id,
                active[b].id,
            ) && depth[b] + 1 == depth[a];
        seq![a] + descent(active, depth, b, (steps - 1) as nat)
    }
}

proof fn lemma_descent(active: Seq<ItemView>, depth: Seq<u32>, a: int, steps: nat)
    requires
        critical_path::depths_ok(active, depth),
        0 <= a < active.len(),
        steps == depth[a],
    ensures
        ({
            let walk = descent(active, depth, a, steps);
            &&& walk.len() == steps + 1
            &&& forall|k: int|
                0 <= k < walk.len() ==> 0 <= #[trigger] walk[k] < active.len() && depth[walk[k]]
                    == depth[a] - k
        }),
    decreases steps,
{
    if steps > 0 {
        assert(critical_path::depth_reached(active, depth, a));
        let b = choose|b: int|
            0 <= b < active.len() && #[trigger] critical_path::waits_on(
                active,
                active[a].id,
                active[b].id,
            ) && depth[b] + 1 == depth[a];
        lemma_descent(active, depth, b, (steps - 1) as nat);
        let rest = descent(active, depth, b, (steps - 1) as nat);
        let walk = descent(active, depth, a, steps);
        assert(walk =~= seq![a] + rest);
        assert forall|k: int| 0 <= k < walk.len() implies 0 <= #[trigger] walk[k] < active.len()
            && depth[walk[k]] == depth[a] - k by {
            if k > 0 {
                assert(walk[k] == rest[k - 1]);
            }
        }
    }
}

// ---- what is worked on, in the words of the board --------------------------------------------

/// Whether an id is that of work still to be done: an item has it, and none with the
/// status `done`, `complete` or `retired` does.
pub open spec fn is_open_id(items: Seq<ItemView>, id: Seq<char>) -> bool {
    &&& exists|i: int| 0 <= i < items.len() && (#[trigger] items[i]).id == id
    &&& forall|i: int|
        0 <= i < items.len() && (#[trigger] items[i]).id == id ==> items[i].status != "done"@
            && items[i].status != "complete"@ && items[i].status != "retired"@
}

/// Whether the item at a position depends on an id that is still to be done.
pub open spec fn waits_for(items: Seq<ItemView>, i: int, id: Seq<char>) -> bool {
    is_open_id(items, id) && items[i].depends_on.contains(id)
}

/// Whether the item at a position depends on anything that is still to be done.
pub open spec fn has_to_wait(items: Seq<ItemView>, i: int) -> bool {
    exists|id: Seq<char>| #[trigger] waits_for(items, i, id)
}

/// Work is finished in the statuses `done`, `complete` and `retired` and in no other, all
/// of which are terminal.
pub proof fn law_finished_work_is_terminal(status: Seq<char>)
    ensures
        critical_path::is_done(status) == (status == "done"@ || status == "complete"@ || status
            == "retired"@),
        critical_path::is_done(status) ==> state_machine::is_terminal(status),
{
}

proof fn lemma_open(items: Seq<ItemView>, id: Seq<char>)
    ensures
        critical_path::has_id(critical_path::active_items(items), id) == is_open_id(items, id),
{
    let active = critical_path::active_items(items);
    let pred = |x: ItemView| !critical_path::done_id(items, x.id);
    if critical_path::has_id(active, id) {
        let c = choose|c: int| 0 <= c < active.len() && (#[trigger] active[c]).id == id;
        lemma_active(items, c);
    }
    if is_open_id(items, id) {
        let i = choose|i: int| 0 <= i < items.len() && (#[trigger] items[i]).id == id;
        lemma_kept(items, i);
    }
}

/// An item of the analysis is one of the board's, and open.
proof fn lemma_active(items: Seq<ItemView>, c: int)
    requires
        0 <= c < critical_path::active_items(items).len(),
    ensures
        is_open_id(items, critical_path::active_items(items)[c].id),
        exists|i: int|
            0 <= i < items.len() && #[trigger] items[i] == critical_path::active_items(items)[c],
{
    let active = critical_path::active_items(items);
    let pred = |x: ItemView| !critical_path::done_id(items, x.id);
    assert(active.contains(active[c]));
    items.lemma_filter_contains_rev(pred, active[c]);
    items.lemma_filter_pred(pred, c);
    let i = choose|i: int| 0 <= i < items.len() && items[i] == active[c];
    assert(items[i].id == active[c].id);
}

/// An open item of the board is one of the analysis.
proof fn lemma_kept(items: Seq<ItemView>, i: int)
    requires
        0 <= i < items.len(),
        is_open_id(items, items[i].id),
    ensures
        exists|c: int|
            0 <= c < critical_path::active_items(items).len()
                && #[trigger] critical_path::active_items(items)[c] == items[i],
        critical_path::has_id(critical_path::active_items(items), items[i].id),
{
    let active = critical_path::active_items(items);
    let pred = |x: ItemView| !critical_path::done_id(items, x.id);
    items.lemma_filter_contains(pred, i);
    let c = choose|c: int| 0 <= c < active.len() && active[c] == items[i];
    assert(active[c].id == items[i].id);
}

proof fn lemma_active_len(items: Seq<ItemView>)
    ensures
        critical_path::active_items(items).len() <= items.len(),
{
    items.lemma_filter_len(|x: ItemView| !critical_path::done_id(items, x.id));
}

/// Among unfinished items, one waits on another exactly where an item with its id lists the
/// other's, and both are open.
pub proof fn law_waiting_is_depending_on_open_work(
    items: Seq<ItemView>,
    id: Seq<char>,
    other: Seq<char>,
)
    ensures
        critical_path::waits_on(critical_path::active_items(items), id, other) == exists|i: int|
            0 <= i < items.len() && (#[trigger] items[i]).id == id && is_open_id(items, id)
                && waits_for(items, i, other),
{
    let active = critical_path::active_items(items);
    lemma_open(items, other);
    if critical_path::waits_on(active, id, other) {
        let b = choose|b: int|
            0 <= b < active.len() && (#[trigger] active[b]).id == id
                && active[b].depends_on.contains(other);
        lemma_active(items, b);
        let i = choose|i: int| 0 <= i < items.len() && #[trigger] items[i] == active[b];
        assert(items[i].id == id && waits_for(items, i, other));
    }
    if exists|i: int|
        0 <= i < items.len() && (#[trigger] items[i]).id == id && is_open_id(items, id)
            && waits_for(items, i, other) {
        let i = choose|i: int|
            0 <= i < items.len() && (#[trigger] items[i]).id == id && is_open_id(items, id)
                && waits_for(items, i, other);
        lemma_kept(items, i);
        let c = choose|c: int| 0 <= c < active.len() && #[trigger] active[c] == items[i];
        assert(active[c].id == id && active[c].depends_on.contains(other));
    }
}

/// Positions with (or without) open dependencies, by the words of the board.
proof fn lemma_unmet(items: Seq<ItemView>, c: int, i: int)
    requires
        0 <= c < critical_path::active_items(items).len(),
        0 <= i < items.len(),
        critical_path::active_items(items)[c] == items[i],
    ensures
        critical_path::has_unmet(critical_path::active_items(items), c) == has_to_wait(items, i),
{
    let active = critical_path::active_items(items);
    if critical_path::has_unmet(active, c) {
        let q = choose|q: int|
            0 <= q < active[c].depends_on.len() && critical_path::has_id(
                active,
                #[trigger] active[c].depends_on[q],
            );
        let other = active[c].depends_on[q];
        lemma_open(items, other);
        assert(waits_for(items, i, other));
    }
    if has_to_wait(items, i) {
        let other = choose|id: Seq<char>| #[trigger] waits_for(items, i, id);
        lemma_open(items, other);
        let q = choose|q: int|
            0 <= q < active[c].depends_on.len() && active[c].depends_on[q] == other;
        assert(critical_path::has_id(active, active[c].depends_on[q]));
    }
}

proof fn lemma_picked(active: Seq<ItemView>, positions: Seq<usize>, id: Seq<char>)
    requires
        forall|k: int| 0 <= k < positions.len() ==> (#[trigger] positions[k]) < active.len(),
    ensures
        sorting::pick(critical_path::ids(active), positions).contains(id) == exists|k: int|
            0 <= k < positions.len() && active[(#[trigger] positions[k]) as int].id == id,
{
    let list = sorting::pick(critical_path::ids(active), positions);
    if list.contains(id) {
        let k = choose|k: int| 0 <= k < list.len() && list[k] == id;
        assert(active[positions[k] as int].id == id);
    }
    if exists|k: int|
        0 <= k < positions.len() && active[(#[trigger] positions[k]) as int].id == id {
        let k = choose|k: int|
            0 <= k < positions.len() && active[(#[trigger] positions[k]) as int].id == id;
        assert(list[k] == id);
    }
}

proof fn lemma_ranked_contains(active: Seq<ItemView>, positions: Seq<usize>, id: Seq<char>)
    requires
        positions.len() <= usize::MAX,
        forall|k: int| 0 <= k < positions.len() ==> (#[trigger] positions[k]) < active.len(),
    ensures
        critical_path::ranked(active, positions).contains(id) == sorting::pick(
            critical_path::ids(active),
            positions,
        ).contains(id),
{
    let keys = critical_path::keys_at(active, positions);
    sorting::lemma_stable_order_exists::<(u8, i32, i32)>(keys);
    let order = sorting::stable_order::<(u8, i32, i32)>(keys);
    let list = sorting::pick(critical_path::ids(active), positions);
    let sorted = critical_path::ranked(active, positions);
    if sorted.contains(id) {
        let k = choose|k: int| 0 <= k < sorted.len() && sorted[k] == id;
        assert(list[order[k] as int] == id);
    }
    if list.contains(id) {
        let k = choose|k: int| 0 <= k < list.len() && list[k] == id;
        assert(order.contains(k as usize));
        let m = choose|m: int| 0 <= m < order.len() && order[m] == k as usize;
        assert(sorted[m] == id);
    }
}

proof fn lemma_unmet_positions(active: Seq<ItemView>, unmet: bool, n: nat)
    requires
        n <= active.len() <= usize::MAX,
    ensures
        critical_path::with_unmet(active, unmet, n).len() <= n,
        forall|k: int|
            0 <= k < critical_path::with_unmet(active, unmet, n).len() ==> (
            #[trigger] critical_path::with_unmet(active, unmet, n)[k]) < n,
    decreases n,
{
    if n > 0 {
        lemma_unmet_positions(active, unmet, (n - 1) as nat);
    }
}

proof fn lemma_unmet_listed(items: Seq<ItemView>, unmet: bool, id: Seq<char>)
    requires
        items.len() <= usize::MAX,
    ensures
        ({
            let active = critical_path::active_items(items);
            let positions = critical_path::with_unmet(active, unmet, active.len());
            sorting::pick(critical_path::ids(active), positions).contains(id) == exists|i: int|
                0 <= i < items.len() && (#[trigger] items[i]).id == id && is_open_id(items, id)
                    && has_to_wait(items, i) == unmet
        }),
{
    let active = critical_path::active_items(items);
    lemma_active_len(items);
    let positions = critical_path::with_unmet(active, unmet, active.len());
    lemma_unmet_positions(active, unmet, active.len());
    lemma_picked(active, positions, id);
    if exists|k: int| 0 <= k < positions.len() && active[(#[trigger] positions[k]) as int].id == id {
        let k = choose|k: int|
            0 <= k < positions.len() && active[(#[trigger] positions[k]) as int].id == id;
        let c = positions[k] as int;
        lemma_with_unmet(active, unmet, active.len(), c);
        assert(positions.contains(c as usize));
        lemma_active(items, c);
        let i = choose|i: int| 0 <= i < items.len() && #[trigger] items[i] == active[c];
        lemma_unmet(items, c, i);
        assert(items[i].id == id && has_to_wait(items, i) == unmet);
    }
    if exists|i: int|
        0 <= i < items.len() && (#[trigger] items[i]).id == id && is_open_id(items, id)
            && has_to_wait(items, i) == unmet {
        let i = choose|i: int|
            0 <= i < items.len() && (#[trigger] items[i]).id == id && is_open_id(items, id)
                && has_to_wait(items, i) == unmet;
        lemma_kept(items, i);
        let c = choose|c: int| 0 <= c < active.len() && #[trigger] active[c] == items[i];
        lemma_unmet(items, c, i);
        lemma_with_unmet(active, unmet, active.len(), c);
        let k = choose|k: int| 0 <= k < positions.len() && positions[k] == c as usize;
        assert(active[positions[k] as int].id == id);
    }
}

/// The order holds the open items, each once. Those that depend on open work are
/// blocked, the others ready.
pub proof fn law_open_items_are_ready_or_blocked(
    items: Seq<ItemView>,
    r: CriticalPathResult,
    id: Seq<char>,
)
    requires
        items.len() <= u32::MAX,
        critical_path::resolvable(critical_path::active_items(items)),
        critical_path::is_analysis(critical_path::active_items(items), r),
    ensures
        text::views(r.ordered@).contains(id) == is_open_id(items, id),
        text::views(r.ordered@).no_duplicates(),
        text::views(r.blocked@).contains(id) == exists|i: int|
            0 <= i < items.len() && (#[trigger] items[i]).id == id && is_open_id(items, id)
                && has_to_wait(items, i),
        text::views(r.ready@).contains(id) == exists|i: int|
            0 <= i < items.len() && (#[trigger] items[i]).id == id && is_open_id(items, id)
                && !has_to_wait(items, i),
        !(text::views(r.ready@).contains(id) && text::views(r.blocked@).contains(id)),
{
    let active = critical_path::active_items(items);
    lemma_active_len(items);
    let depth = critical_path::depth_values(r);
    let order = choose|order: Seq<usize>| #[trigger]
        critical_path::is_work_order(active, order) && text::views(r.ordered@) == sorting::pick(
            critical_path::ids(active),
            order,
        ) && critical_path::is_longest_path(active, depth, order, text::views(r.longest_path@));
    let freed = choose|freed: Seq<nat>| #[trigger]
        critical_path::taken_as_freed(active, order, freed);
    lemma_open(items, id);
    lemma_picked(active, order, id);
    graph::lemma_all_placed(order, active.len());
    if critical_path::has_id(active, id) {
        let c = choose|c: int| 0 <= c < active.len() && (#[trigger] active[c]).id == id;
        assert(order.contains(c as usize));
        let k = choose|k: int| 0 <= k < order.len() && order[k] == c as usize;
        assert(active[order[k] as int].id == id);
    }
    if text::views(r.ordered@).contains(id) {
        let k = choose|k: int|
            0 <= k < order.len() && active[(#[trigger] order[k]) as int].id == id;
        assert(active[order[k] as int].id == id);
    }
    let list = text::views(r.ordered@);
    assert forall|i: int, j: int| 0 <= i < list.len() && 0 <= j < list.len() && i != j implies list[i]
        != list[j] by {
        assert(order[i] != order[j]);
        assert(list[i] == active[order[i] as int].id);
        assert(list[j] == active[order[j] as int].id);
    }
    lemma_unmet_listed(items, true, id);
    lemma_unmet_listed(items, false, id);
    let free = critical_path::with_unmet(active, false, active.len());
    lemma_unmet_positions(active, false, active.len());
    lemma_ranked_contains(active, free, id);
    if text::views(r.ready@).contains(id) && text::views(r.blocked@).contains(id) {
        let i = choose|i: int|
            0 <= i < items.len() && (#[trigger] items[i]).id == id && is_open_id(items, id)
                && has_to_wait(items, i);
        let j = choose|j: int|
            0 <= j < items.len() && (#[trigger] items[j]).id == id && is_open_id(items, id)
                && !has_to_wait(items, j);
        lemma_one_open(items, i, j);
        let other = choose|other: Seq<char>| #[trigger] waits_for(items, i, other);
        assert(waits_for(items, j, other));
    }
}

/// Where the items can be ordered, no two open ones with one id differ.
proof fn lemma_one_open(items: Seq<ItemView>, i: int, j: int)
    requires
        critical_path::ids_distinct(critical_path::active_items(items)),
        0 <= i < items.len(),
        0 <= j < items.len(),
        items[i].id == items[j].id,
        is_open_id(items, items[i].id),
    ensures
        items[i] == items[j],
{
    let active = critical_path::active_items(items);
    lemma_kept(items, i);
    lemma_kept(items, j);
    let a = choose|c: int| 0 <= c < active.len() && #[trigger] active[c] == items[i];
    let b = choose|c: int| 0 <= c < active.len() && #[trigger] active[c] == items[j];
    if a < b {
        assert(active[a].id != active[b].id);
    } else if b < a {
        assert(active[b].id != active[a].id);
    }
}

/// What an item depends on, as far as it is open, stands before it in the order and lies
/// less deep; an item lies at depth 0 exactly where it has not to wait, and else one deeper
/// than something that it waits for. The listed depths are those of the open items.
pub proof fn law_dependencies_come_first(items: Seq<ItemView>, r: CriticalPathResult, i: int)
    requires
        items.len() <= u32::MAX,
        critical_path::resolvable(critical_path::active_items(items)),
        critical_path::is_analysis(critical_path::active_items(items), r),
        0 <= i < items.len(),
        is_open_id(items, items[i].id),
    ensures
        forall|p: int, q: int|
            0 <= p < r.ordered@.len() && 0 <= q < r.ordered@.len() && (
            #[trigger] r.ordered@[p])@ == items[i].id && waits_for(
                items,
                i,
                (#[trigger] r.ordered@[q])@,
            ) ==> q < p,
        exists|p: int| 0 <= p < r.depth@.len() && (#[trigger] r.depth@[p]).0@ == items[i].id,
        forall|p: int|
            0 <= p < r.depth@.len() && (#[trigger] r.depth@[p]).0@ == items[i].id ==> (
            r.depth@[p].1 > 0) == has_to_wait(items, i),
        forall|p: int, q: int|
            0 <= p < r.depth@.len() && 0 <= q < r.depth@.len() && (#[trigger] r.depth@[p]).0@
                == items[i].id && waits_for(items, i, (#[trigger] r.depth@[q]).0@)
                ==> r.depth@[q].1 < r.depth@[p].1,
        forall|p: int|
            0 <= p < r.depth@.len() && (#[trigger] r.depth@[p]).0@ == items[i].id && r.depth@[p].1
                > 0 ==> exists|q: int|
                0 <= q < r.depth@.len() && waits_for(items, i, (#[trigger] r.depth@[q]).0@)
                    && r.depth@[q].1 + 1 == r.depth@[p].1,
{
    let active = critical_path::active_items(items);
    let depth = critical_path::depth_values(r);
    lemma_active_len(items);
    lemma_kept(items, i);
    let a = choose|c: int| 0 <= c < active.len() && #[trigger] active[c] == items[i];
    assert(r.depth@.len() == active.len());
    assert(r.depth@[a].0@ == items[i].id);
    assert forall|p: int, q: int|
        0 <= p < r.ordered@.len() && 0 <= q < r.ordered@.len() && (#[trigger] r.ordered@[p])@
            == items[i].id && waits_for(items, i, (#[trigger] r.ordered@[q])@) implies q < p by {
        law_waiting_is_depending_on_open_work(items, r.ordered@[p]@, r.ordered@[q]@);
        if p <= q {
            law_order_respects_waiting(active, r, p, q);
        }
    }
    law_ready_or_blocked(active, depth, a);
    lemma_with_unmet(active, true, active.len(), a);
    lemma_unmet(items, a, i);
    assert forall|p: int|
        0 <= p < r.depth@.len() && (#[trigger] r.depth@[p]).0@ == items[i].id implies p == a by {
        if p < a {
            assert(active[p].id != active[a].id);
        } else if a < p {
            assert(active[a].id != active[p].id);
        }
    }
    assert forall|p: int, q: int|
        0 <= p < r.depth@.len() && 0 <= q < r.depth@.len() && (#[trigger] r.depth@[p]).0@
            == items[i].id && waits_for(items, i, (#[trigger] r.depth@[q]).0@) implies
        r.depth@[q].1 < r.depth@[p].1 by {
        assert(p == a);
        law_waiting_is_depending_on_open_work(items, active[a].id, active[q].id);
        assert(critical_path::waits_on(active, active[a].id, active[q].id));
        assert(depth[q] < depth[a]);
    }
    if depth[a] > 0 {
        assert(critical_path::depth_reached(active, depth, a));
        let b = choose|b: int|
            0 <= b < active.len() && #[trigger] critical_path::waits_on(
                active,
                active[a].id,
                active[b].id,
            ) && depth[b] + 1 == depth[a];
        law_waiting_is_depending_on_open_work(items, active[a].id, active[b].id);
        let j = choose|j: int|
            0 <= j < items.len() && (#[trigger] items[j]).id == active[a].id && is_open_id(
                items,
                active[a].id,
            ) && waits_for(items, j, active[b].id);
        lemma_one_open(items, i, j);
        assert(waits_for(items, i, r.depth@[b].0@));
    }
}

proof fn lemma_at_depth(depth: Seq<u32>, level: int, n: nat, a: int)
    requires
        n <= depth.len() <= usize::MAX,
        0 <= a < depth.len(),
    ensures
        critical_path::at_depth(depth, level, n).contains(a as usize) == (a < n && depth[a]
            == level),
        forall|k: int|
            0 <= k < critical_path::at_depth(depth, level, n).len() ==> (
            #[trigger] critical_path::at_depth(depth, level, n)[k]) < n,
    decreases n,
{
    if n > 0 {
        lemma_at_depth(depth, level, (n - 1) as nat, a);
        let before = critical_path::at_depth(depth, level, (n - 1) as nat);
        vstd::seq_lib::lemma_seq_contains_after_push(before, (n - 1) as usize, a as usize);
    }
}

/// The group of a depth lists the ids with that depth, and no others.
pub proof fn law_groups_are_the_depths(
    items: Seq<ItemView>,
    r: CriticalPathResult,
    l: int,
    id: Seq<char>,
)
    requires
        items.len() <= u32::MAX,
        critical_path::resolvable(critical_path::active_items(items)),
        critical_path::is_analysis(critical_path::active_items(items), r),
        0 <= l < r.depth_groups@.len(),
    ensures
        r.depth_groups@[l].0 == l,
        text::views(r.depth_groups@[l].1@).contains(id) == exists|p: int|
            0 <= p < r.depth@.len() && (#[trigger] r.depth@[p]).0@ == id && r.depth@[p].1 == l,
        forall|p: int| 0 <= p < r.depth@.len() ==> (#[trigger] r.depth@[p]).1 < r.depth_groups@.len(),
        exists|p: int| 0 <= p < r.depth@.len() && (#[trigger] r.depth@[p]).1 + 1 == r.depth_groups@.len(),
{
    let active = critical_path::active_items(items);
    let depth = critical_path::depth_values(r);
    lemma_active_len(items);
    let positions = critical_path::at_depth(depth, l, active.len());
    lemma_span_attained(depth);
    let top = choose|i: int| 0 <= i < depth.len() && #[trigger] depth[i] + 1 == critical_path::depth_span(depth);
    assert(r.depth@[top].1 + 1 == r.depth_groups@.len());
    assert forall|p: int| 0 <= p < r.depth@.len() implies (#[trigger] r.depth@[p]).1 < r.depth_groups@.len() by {
        lemma_span_bounds(depth, p);
        assert(depth[p] == r.depth@[p].1);
    }
    lemma_at_depth(depth, l, active.len(), top);
    lemma_at_depth_len(depth, l, active.len());
    lemma_picked(active, positions, id);
    lemma_ranked_contains(active, positions, id);
    if exists|k: int| 0 <= k < positions.len() && active[(#[trigger] positions[k]) as int].id == id {
        let k = choose|k: int|
            0 <= k < positions.len() && active[(#[trigger] positions[k]) as int].id == id;
        let c = positions[k] as int;
        lemma_at_depth(depth, l, active.len(), c);
        assert(positions.contains(c as usize));
        assert(r.depth@[c].0@ == id && r.depth@[c].1 == depth[c]);
    }
    if exists|p: int|
        0 <= p < r.depth@.len() && (#[trigger] r.depth@[p]).0@ == id && r.depth@[p].1 == l {
        let p = choose|p: int|
            0 <= p < r.depth@.len() && (#[trigger] r.depth@[p]).0@ == id && r.depth@[p].1 == l;
        assert(depth[p] == r.depth@[p].1);
        lemma_at_depth(depth, l, active.len(), p);
        let k = choose|k: int| 0 <= k < positions.len() && positions[k] == p as usize;
        assert(active[positions[k] as int].id == id);
    }
}

/// Where some item has to wait, the longest path has as many items as there are depths,
/// each of them open, and each lists the one before it as a dependency; where none has to,
/// there is no path.
pub proof fn law_longest_path_is_a_chain_of_dependencies(items: Seq<ItemView>, r: CriticalPathResult)
    requires
        items.len() <= u32::MAX,
        critical_path::resolvable(critical_path::active_items(items)),
        critical_path::is_analysis(critical_path::active_items(items), r),
    ensures
        r.longest_path@.len() == (if r.depth_groups@.len() > 1 {
            r.depth_groups@.len()
        } else {
            0
        }),
        forall|k: int|
            0 <= k < r.longest_path@.len() ==> is_open_id(
                items,
                (#[trigger] r.longest_path@[k])@,
            ),
        forall|k: int| 0 < k < r.longest_path@.len() ==> #[trigger] path_step(items, r, k),
{
    let active = critical_path::active_items(items);
    let depth = critical_path::depth_values(r);
    let path = text::views(r.longest_path@);
    let order = choose|order: Seq<usize>| #[trigger]
        critical_path::is_work_order(active, order) && text::views(r.ordered@) == sorting::pick(
            critical_path::ids(active),
            order,
        ) && critical_path::is_longest_path(active, depth, order, path);
    if critical_path::depth_span(depth) > 1 {
        let p = choose|p: Seq<usize>| #[trigger]
            critical_path::is_critical_chain(active, depth, order, p) && path == sorting::pick(
                critical_path::ids(active),
                p,
            );
        assert(path.len() == p.len());
        assert forall|k: int| 0 <= k < r.longest_path@.len() implies is_open_id(
            items,
            (#[trigger] r.longest_path@[k])@,
        ) by {
            assert(path[k] == active[p[k] as int].id);
            lemma_active(items, p[k] as int);
        }
        assert forall|k: int| 0 < k < r.longest_path@.len() implies #[trigger] path_step(items, r, k) by {
            let a = p[k] as int;
            let b = p[k - 1] as int;
            assert(critical_path::last_deepest_dep(active, depth, a, b));
            assert(path[k] == active[a].id && path[k - 1] == active[b].id);
            let q = choose|q: int| #[trigger]
                critical_path::nothing_deeper_after(active, depth, a, q)
                    && active[a].depends_on[q] == active[b].id;
            assert(active[a].depends_on.contains(active[b].id));
            lemma_active(items, a);
            let i = choose|i: int| 0 <= i < items.len() && #[trigger] items[i] == active[a];
            assert(items[i].id == r.longest_path@[k]@ && items[i].depends_on.contains(
                r.longest_path@[k - 1]@,
            ));
        }
    }
}

/// Whether an item at a step of the longest path lists the one before it.
pub open spec fn path_step(items: Seq<ItemView>, r: CriticalPathResult, k: int) -> bool {
    exists|i: int|
        0 <= i < items.len() && (#[trigger] items[i]).id == r.longest_path@[k]@
            && items[i].depends_on.contains(r.longest_path@[k - 1]@)
}

/// Whether the first item is to be taken up before the second: a pinned one before one
/// that is not, pinned ones by their rank, and then by the words of their priorities.
pub open spec fn is_more_urgent(a: ItemView, b: ItemView) -> bool {
    ||| a.rank is Some && b.rank is None
    ||| a.rank is Some && b.rank is Some && a.rank->0 < b.rank->0
    ||| a.rank == b.rank && {
        let x = text::lower_spec(a.priority);
        let y = text::lower_spec(b.priority);
        ||| x == "critical"@ && y != "critical"@
        ||| x == "high"@ && y != "critical"@ && y != "high"@
        ||| x == "medium"@ && y != "critical"@ && y != "high"@ && y != "medium"@
        ||| x == "low"@ && y != "critical"@ && y != "high"@ && y != "medium"@ && y != "low"@
    }
}

pub proof fn lemma_urgent_first(a: ItemView, b: ItemView)
    requires
        is_more_urgent(a, b),
    ensures
        !<(u8, i32, i32) as SortKey>::precedes(
            critical_path::sort_key_spec(b),
            critical_path::sort_key_spec(a),
        ),
{
    lemma_priority_words();
}

proof fn lemma_priority_words()
    ensures
        "critical"@ != "high"@,
        "critical"@ != "medium"@,
        "critical"@ != "low"@,
        "high"@ != "medium"@,
        "high"@ != "low"@,
        "medium"@ != "low"@,
{
    reveal_strlit("critical");
    reveal_strlit("high");
    reveal_strlit("medium");
    reveal_strlit("low");
    assert("critical"@.len() == 8 && "high"@.len() == 4 && "medium"@.len() == 6 && "low"@.len()
        == 3);
}

/// Urgent work comes first: no ready item stands after one that is less urgent.
pub proof fn law_urgent_work_comes_first(
    items: Seq<ItemView>,
    r: CriticalPathResult,
    i: int,
    j: int,
    p: int,
    q: int,
)
    requires
        items.len() <= u32::MAX,
        critical_path::resolvable(critical_path::active_items(items)),
        critical_path::is_analysis(critical_path::active_items(items), r),
        0 <= i < items.len(),
        0 <= j < items.len(),
        is_more_urgent(items[i], items[j]),
        0 <= p < r.ready@.len(),
        0 <= q < r.ready@.len(),
        r.ready@[p]@ == items[i].id,
        r.ready@[q]@ == items[j].id,
    ensures
        p < q,
{
    let active = critical_path::active_items(items);
    lemma_active_len(items);
    let free = critical_path::with_unmet(active, false, active.len());
    lemma_unmet_positions(active, false, active.len());
    let keys = critical_path::keys_at(active, free);
    sorting::lemma_stable_order_exists::<(u8, i32, i32)>(keys);
    let order = sorting::stable_order::<(u8, i32, i32)>(keys);
    let ready = text::views(r.ready@);
    assert(ready == critical_path::ranked(active, free));
    assert(ready.len() == r.ready@.len() && order.len() == free.len());
    assert(order[p] < free.len() && order[q] < free.len());
    let a = free[order[p] as int] as int;
    let b = free[order[q] as int] as int;
    assert(ready[p] == active[a].id && ready[q] == active[b].id);
    lemma_active(items, a);
    lemma_active(items, b);
    let x = choose|x: int| 0 <= x < items.len() && #[trigger] items[x] == active[a];
    let y = choose|y: int| 0 <= y < items.len() && #[trigger] items[y] == active[b];
    lemma_one_open(items, x, i);
    lemma_one_open(items, y, j);
    lemma_urgent_first(items[i], items[j]);
    if q < p {
        assert(<(u8, i32, i32) as SortKey>::precedes(
            keys[order[q] as int],
            keys[order[p] as int],
        ));
    } else if p == q {
        assert(a == b);
        <(u8, i32, i32) as SortKey>::le_total(keys[order[p] as int], keys[order[p] as int]);
    }
}

/// What more waits for an item than for what waits for it: each item that depends on open
/// work is counted there, with all that wait for it.
pub proof fn law_waiting_work_is_counted(
    items: Seq<ItemView>,
    r: CriticalPathResult,
    i: int,
    p: int,
    q: int,
)
    requires
        items.len() <= u32::MAX,
        critical_path::resolvable(critical_path::active_items(items)),
        critical_path::is_analysis(critical_path::active_items(items), r),
        0 <= i < items.len(),
        is_open_id(items, items[i].id),
        0 <= p < r.downstream_count@.len(),
        0 <= q < r.downstream_count@.len(),
        r.downstream_count@[p].0@ == items[i].id,
        waits_for(items, i, r.downstream_count@[q].0@),
    ensures
        r.downstream_count@[q].1 > r.downstream_count@[p].1,
{
    let active = critical_path::active_items(items);
    let id = active[p].id;
    let other = active[q].id;
    law_waiting_is_depending_on_open_work(items, id, other);
    assert(critical_path::waits_on(active, id, other));
    let few = |x: ItemView| critical_path::waits_through(active, x.id, id);
    let many = |x: ItemView| critical_path::waits_through(active, x.id, other);
    assert forall|x: ItemView| #[trigger] few(x) implies many(x) by {
        let c = choose|c: Seq<Seq<char>>| #[trigger]
            critical_path::is_wait_chain(active, c) && c[0] == x.id && c.last() == id;
        let d = c.push(other);
        assert forall|k: int| 0 <= k < d.len() - 1 implies #[trigger] critical_path::linked(active, d, k) by {
            if k < c.len() - 1 {
                assert(critical_path::linked(active, c, k));
            }
        }
        assert(critical_path::is_wait_chain(active, d));
    }
    let step = seq![id, other];
    assert(critical_path::linked(active, step, 0));
    assert(critical_path::is_wait_chain(active, step) && step[0] == id && step.last() == other);
    assert(many(active[p]));
    assert(!few(active[p])) by {
        assert(critical_path::settled(active, active[p].id, active.len()));
        law_settled_means_no_cycle(active, id, active.len());
    }
    lemma_strictly_fewer(active, few, many, p);
}

proof fn lemma_strictly_fewer(
    list: Seq<ItemView>,
    few: spec_fn(ItemView) -> bool,
    many: spec_fn(ItemView) -> bool,
    p: int,
)
    requires
        forall|x: ItemView| #[trigger] few(x) ==> many(x),
    ensures
        list.filter(few).len() <= list.filter(many).len(),
        0 <= p < list.len() && many(list[p]) && !few(list[p]) ==> list.filter(few).len()
            < list.filter(many).len(),
    decreases list.len(),
{
    reveal(Seq::filter);
    if list.len() > 0 {
        lemma_strictly_fewer(list.drop_last(), few, many, p);
        assert(few(list.last()) ==> many(list.last()));
    }
}

/// What nothing depends on, nothing waits for: the count is 0 exactly where no open item
/// lists the id.
pub proof fn law_nothing_waits_for_what_nothing_lists(
    items: Seq<ItemView>,
    r: CriticalPathResult,
    q: int,
)
    requires
        items.len() <= u32::MAX,
        critical_path::resolvable(critical_path::active_items(items)),
        critical_path::is_analysis(critical_path::active_items(items), r),
        0 <= q < r.downstream_count@.len(),
    ensures
        is_open_id(items, r.downstream_count@[q].0@),
        (r.downstream_count@[q].1 == 0) == forall|i: int|
            0 <= i < items.len() && is_open_id(items, (#[trigger] items[i]).id) ==> !waits_for(
                items,
                i,
                r.downstream_count@[q].0@,
            ),
{
    let active = critical_path::active_items(items);
    let other = active[q].id;
    lemma_active(items, q);
    let many = |x: ItemView| critical_path::waits_through(active, x.id, other);
    if exists|i: int|
        0 <= i < items.len() && is_open_id(items, (#[trigger] items[i]).id) && waits_for(
            items,
            i,
            other,
        ) {
        let i = choose|i: int|
            0 <= i < items.len() && is_open_id(items, (#[trigger] items[i]).id) && waits_for(
                items,
                i,
                other,
            );
        lemma_kept(items, i);
        let p = choose|c: int| 0 <= c < active.len() && #[trigger] active[c] == items[i];
        assert(r.downstream_count@[p].0@ == items[i].id);
        law_waiting_work_is_counted(items, r, i, p, q);
    } else {
        assert forall|x: ItemView| !#[trigger] many(x) by {
            if many(x) {
                let c = choose|c: Seq<Seq<char>>| #[trigger]
                    critical_path::is_wait_chain(active, c) && c[0] == x.id && c.last() == other;
                let k = c.len() - 2;
                assert(critical_path::linked(active, c, k));
                law_waiting_is_depending_on_open_work(items, c[k], c[k + 1]);
            }
        }
        let kept = active.filter(many);
        if kept.len() > 0 {
            active.lemma_filter_pred(many, 0);
        }
    }
}

/// The message on a cycle names every item that waits for itself, with its title.
pub proof fn law_cycle_messages_name_the_items(active: Seq<ItemView>, i: int)
    requires
        0 <= i < active.len(),
        critical_path::waits_through(active, active[i].id, active[i].id),
    ensures
        text::contains_spec(
            critical_path::cycle_message_spec(active),
            active[i].id + " ("@ + active[i].title + ")"@,
        ),
{
    let f = |x: ItemView| !critical_path::settled(active, x.id, active.len());
    let g = |x: ItemView| critical_path::label_spec(x);
    let stuck = active.filter(f);
    let labels = stuck.map_values(g);
    if critical_path::settled(active, active[i].id, active.len()) {
        law_settled_means_no_cycle(active, active[i].id, active.len());
    }
    assert(f(active[i]));
    active.lemma_filter_contains(f, i);
    let k = choose|k: int| 0 <= k < stuck.len() && stuck[k] == active[i];
    assert(labels[k] == critical_path::label_spec(active[i]));
    text::law_joined_text_has_every_part(labels, ", "@, k);
    let none = Seq::<char>::empty();
    let head = "Dependency cycle detected among: "@;
    let list = text::join_spec(labels, ", "@);
    text::lemma_contains_in_part(head, list, none, labels[k]);
    assert(head + list + none =~= head + list);
}

/// A title that is too long is shown up to its limit, with three dots at the end; any other
/// is shown whole.
pub proof fn law_long_titles_end_in_dots(s: Seq<char>, max: int)
    requires
        max >= 3,
    ensures
        s.len() <= max ==> critical_path::truncate_spec(s, max) == s,
        s.len() > max ==> critical_path::truncate_spec(s, max).len() == max
            && critical_path::truncate_spec(s, max).take(max - 3) == s.take(max - 3)
            && critical_path::truncate_spec(s, max).skip(max - 3) == seq!['.', '.', '.'],
{
    reveal_strlit("...");
    let t = critical_path::truncate_spec(s, max);
    if s.len() > max {
        assert(t.take(max - 3) =~= s.take(max - 3));
        assert(t.skip(max - 3) =~= seq!['.', '.', '.']);
    }
}

/// Within a group the more urgent item comes first.
pub proof fn law_urgent_work_comes_first_in_its_group(
    items: Seq<ItemView>,
    r: CriticalPathResult,
    l: int,
    i: int,
    j: int,
    p: int,
    q: int,
)
    requires
        items.len() <= u32::MAX,
        critical_path::resolvable(critical_path::active_items(items)),
        critical_path::is_analysis(critical_path::active_items(items), r),
        0 <= l < r.depth_groups@.len(),
        0 <= i < items.len(),
        0 <= j < items.len(),
        is_more_urgent(items[i], items[j]),
        0 <= p < r.depth_groups@[l].1@.len(),
        0 <= q < r.depth_groups@[l].1@.len(),
        r.depth_groups@[l].1@[p]@ == items[i].id,
        r.depth_groups@[l].1@[q]@ == items[j].id,
    ensures
        p < q,
{
    let active = critical_path::active_items(items);
    lemma_active_len(items);
    let depth = critical_path::depth_values(r);
    let free = critical_path::at_depth(depth, l, active.len());
    if active.len() > 0 {
        lemma_at_depth(depth, l, active.len(), 0);
    }
    lemma_at_depth_len(depth, l, active.len());
    let keys = critical_path::keys_at(active, free);
    sorting::lemma_stable_order_exists::<(u8, i32, i32)>(keys);
    let order = sorting::stable_order::<(u8, i32, i32)>(keys);
    let group = text::views(r.depth_groups@[l].1@);
    assert(group == critical_path::ranked(active, free));
    assert(group.len() == r.depth_groups@[l].1@.len() && order.len() == free.len());
    assert(order[p] < free.len() && order[q] < free.len());
    let a = free[order[p] as int] as int;
    let b = free[order[q] as int] as int;
    assert(group[p] == active[a].id && group[q] == active[b].id);
    lemma_active(items, a);
    lemma_active(items, b);
    let x = choose|x: int| 0 <= x < items.len() && #[trigger] items[x] == active[a];
    let y = choose|y: int| 0 <= y < items.len() && #[trigger] items[y] == active[b];
    lemma_one_open(items, x, i);
    lemma_one_open(items, y, j);
    lemma_urgent_first(items[i], items[j]);
    if q < p {
        assert(<(u8, i32, i32) as SortKey>::precedes(
            keys[order[q] as int],
            keys[order[p] as int],
        ));
    } else if p == q {
        assert(a == b);
        <(u8, i32, i32) as SortKey>::le_total(keys[order[p] as int], keys[order[p] as int]);
    }
}

proof fn lemma_filter_in_order(s: Seq<ItemView>, f: spec_fn(ItemView) -> bool, i: int, j: int)
    requires
        0 <= i < j < s.len(),
        f(s[i]),
        f(s[j]),
    ensures
        exists|a: int, b: int|
            0 <= a < b < s.filter(f).len() && #[trigger] s.filter(f)[a] == s[i]
                && #[trigger] s.filter(f)[b] == s[j],
    decreases s.len(),
{
    reveal(Seq::filter);
    let init = s.drop_last();
    let kept = s.filter(f);
    if j < s.len() - 1 {
        lemma_filter_in_order(init, f, i, j);
        let (a, b) = choose|a: int, b: int|
            0 <= a < b < init.filter(f).len() && #[trigger] init.filter(f)[a] == init[i]
                && #[trigger] init.filter(f)[b] == init[j];
        assert(kept[a] == s[i] && kept[b] == s[j]);
    } else {
        init.lemma_filter_contains(f, i);
        let a = choose|a: int| 0 <= a < init.filter(f).len() && init.filter(f)[a] == init[i];
        let b = init.filter(f).len() as int;
        assert(kept[a] == s[i] && kept[b] == s[j]);
    }
}

proof fn lemma_unmet_ascend(active: Seq<ItemView>, unmet: bool, n: nat)
    requires
        n <= active.len() <= usize::MAX,
    ensures
        forall|p: int, q: int|
            0 <= p < q < critical_path::with_unmet(active, unmet, n).len() ==> (
            #[trigger] critical_path::with_unmet(active, unmet, n)[p]) < (
            #[trigger] critical_path::with_unmet(active, unmet, n)[q]),
    decreases n,
{
    if n > 0 {
        lemma_unmet_ascend(active, unmet, (n - 1) as nat);
        lemma_unmet_positions(active, unmet, (n - 1) as nat);
    }
}

/// Blocked work is listed in the order of the board.
pub proof fn law_blocked_work_keeps_its_order(
    items: Seq<ItemView>,
    r: CriticalPathResult,
    i: int,
    j: int,
    p: int,
    q: int,
)
    requires
        items.len() <= u32::MAX,
        critical_path::resolvable(critical_path::active_items(items)),
        critical_path::is_analysis(critical_path::active_items(items), r),
        0 <= i < j < items.len(),
        0 <= p < r.blocked@.len(),
        0 <= q < r.blocked@.len(),
        r.blocked@[p]@ == items[i].id,
        r.blocked@[q]@ == items[j].id,
    ensures
        p < q,
{
    let active = critical_path::active_items(items);
    let pred = |x: ItemView| !critical_path::done_id(items, x.id);
    lemma_active_len(items);
    let held = critical_path::with_unmet(active, true, active.len());
    lemma_unmet_positions(active, true, active.len());
    lemma_unmet_ascend(active, true, active.len());
    let blocked = text::views(r.blocked@);
    assert(blocked == sorting::pick(critical_path::ids(active), held));
    assert(blocked.len() == r.blocked@.len() && blocked.len() == held.len());
    assert(held[p] < active.len() && held[q] < active.len());
    let c = held[p] as int;
    let d = held[q] as int;
    assert(blocked[p] == active[c].id && blocked[q] == active[d].id);
    items.lemma_filter_pred(pred, c);
    items.lemma_filter_pred(pred, d);
    assert(pred(items[i]) && pred(items[j]));
    lemma_filter_in_order(items, pred, i, j);
    let (a, b) = choose|a: int, b: int|
        0 <= a < b < items.filter(pred).len() && #[trigger] items.filter(pred)[a] == items[i]
            && #[trigger] items.filter(pred)[b] == items[j];
    assert(active[a].id == active[c].id && active[b].id == active[d].id);
    assert(a == c && b == d);
    if q < p {
        assert(held[q] < held[p]);
    }
}

} // verus!
