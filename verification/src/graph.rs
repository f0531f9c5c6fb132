//! Dependency graphs over numbered nodes: the order in which nodes can be
//! taken up, how deep each one lies, and who waits for whom.
//!
//! A graph lists for every node the nodes it waits for.
use vstd::prelude::*;
use vstd::set_lib::*;

verus! {

/// What a list of lists of nodes holds.
pub open spec fn graph_view(deps: Seq<Vec<usize>>) -> Seq<Seq<usize>> {
    Seq::new(deps.len(), |i: int| deps[i]@)
}

/// Whether every node that is waited for exists.
pub open spec fn graph_ok(g: Seq<Seq<usize>>) -> bool {
    forall|i: int, k: int|
        0 <= i < g.len() && 0 <= k < g[i].len() ==> (#[trigger] g[i][k]) < g.len()
}

/// Whether every chain of waiting that starts at node `i` has at most `r`
/// nodes.
pub open spec fn settles_by(g: Seq<Seq<usize>>, i: int, r: nat) -> bool
    decreases r,
{
    r > 0 && forall|k: int|
        0 <= k < g[i].len() ==> settles_by(g, (#[trigger] g[i][k]) as int, (r - 1) as nat)
}

/// A chain of waiting: every node of it waits for the next one.
pub open spec fn is_chain(g: Seq<Seq<usize>>, p: Seq<int>) -> bool {
    &&& p.len() > 0
    &&& forall|k: int| 0 <= k < p.len() ==> 0 <= #[trigger] p[k] < g.len()
    &&& forall|k: int| 0 <= k < p.len() - 1 ==> waits_for(g, #[trigger] p[k], p[k + 1])
}

/// Whether node `i` waits for node `j` itself.
pub open spec fn waits_for(g: Seq<Seq<usize>>, i: int, j: int) -> bool {
    exists|k: int| 0 <= k < g[i].len() && #[trigger] g[i][k] == j
}

/// Whether a chain of at least one step leads from node `i` to node `j`.
pub open spec fn waits_through(g: Seq<Seq<usize>>, i: int, j: int) -> bool {
    exists|p: Seq<int>| #[trigger] is_chain(g, p) && p.len() >= 2 && p[0] == i && p.last() == j
}

pub proof fn lemma_settles_monotone(g: Seq<Seq<usize>>, i: int, r: nat, s: nat)
    requires
        settles_by(g, i, r),
        r <= s,
    ensures
        settles_by(g, i, s),
    decreases r,
{
    assert forall|k: int| 0 <= k < g[i].len() implies settles_by(
        g,
        (#[trigger] g[i][k]) as int,
        (s - 1) as nat,
    ) by {
        assert(settles_by(g, g[i][k] as int, (r - 1) as nat));
        lemma_settles_monotone(g, g[i][k] as int, (r - 1) as nat, (s - 1) as nat);
    }
}

/// Where one more round settles no further node, no later round does.
proof fn lemma_settles_fixpoint(g: Seq<Seq<usize>>, i: int, r: nat, s: nat)
    requires
        graph_ok(g),
        0 <= i < g.len(),
        settles_by(g, i, s),
        forall|j: int| 0 <= j < g.len() && #[trigger] settles_by(g, j, r + 1) ==> settles_by(g, j, r),
    ensures
        settles_by(g, i, r),
    decreases s,
{
    if s <= r {
        lemma_settles_monotone(g, i, s, r);
    } else {
        assert forall|k: int| 0 <= k < g[i].len() implies settles_by(
            g,
            (#[trigger] g[i][k]) as int,
            r,
        ) by {
            assert(settles_by(g, g[i][k] as int, (s - 1) as nat));
            lemma_settles_fixpoint(g, g[i][k] as int, r, (s - 1) as nat);
        }
        assert(settles_by(g, i, r + 1));
    }
}

/// A list of different numbers below `n` that is `n` long holds all of them.
pub proof fn lemma_all_placed(order: Seq<usize>, n: nat)
    requires
        order.no_duplicates(),
        forall|k: int| 0 <= k < order.len() ==> (#[trigger] order[k]) < n,
        order.len() >= n,
    ensures
        order.len() == n,
        forall|i: usize| i < n ==> order.contains(i),
{
    let ints = order.map_values(|x: usize| x as int);
    assert(ints.no_duplicates());
    ints.unique_seq_to_set();
    let all = set_int_range(0, n as int);
    lemma_int_range(0, n as int);
    assert(ints.to_set().subset_of(all)) by {
        assert forall|x: int| ints.to_set().contains(x) implies all.contains(x) by {
            let k = choose|k: int| 0 <= k < ints.len() && ints[k] == x;
            assert(order[k] < n);
        }
    }
    lemma_len_subset(ints.to_set(), all);
    lemma_subset_equality(ints.to_set(), all);
    assert forall|i: usize| i < n implies order.contains(i) by {
        assert(all.contains(i as int));
        assert(ints.to_set().contains(i as int));
        let k = choose|k: int| 0 <= k < ints.len() && ints[k] == i as int;
        assert(order[k] == i);
    }
}

/// A list of more than `n` numbers below `n` repeats one of them.
pub proof fn lemma_repeats(p: Seq<int>, n: nat) -> (r: (int, int))
    requires
        forall|k: int| 0 <= k < p.len() ==> 0 <= (#[trigger] p[k]) < n,
        p.len() > n,
    ensures
        0 <= r.0 < r.1 < p.len(),
        p[r.0] == p[r.1],
{
    if p.no_duplicates() {
        p.unique_seq_to_set();
        let all = set_int_range(0, n as int);
        lemma_int_range(0, n as int);
        assert(p.to_set().subset_of(all)) by {
            assert forall|x: int| p.to_set().contains(x) implies all.contains(x) by {
                let k = choose|k: int| 0 <= k < p.len() && p[k] == x;
            }
        }
        lemma_len_subset(p.to_set(), all);
    }
    let (a, b) = choose|a: int, b: int|
        0 <= a < p.len() && 0 <= b < p.len() && a != b && p[a] == p[b];
    if a < b {
        (a, b)
    } else {
        (b, a)
    }
}

/// The levels of a graph. Level 0 holds the nodes that wait for nothing, and
/// every other level the nodes that wait for one of the level before and for
/// none of a later one. `n`, the number of nodes, stands for no level.
pub open spec fn levels_ok(g: Seq<Seq<usize>>, level: Seq<usize>) -> bool {
    &&& level.len() == g.len()
    &&& forall|i: int| 0 <= i < g.len() ==> level_ok(g, i, #[trigger] level[i])
}

pub open spec fn level_ok(g: Seq<Seq<usize>>, i: int, level: usize) -> bool {
    if level < g.len() {
        settles_by(g, i, (level + 1) as nat) && !settles_by(g, i, level as nat)
    } else {
        level == g.len() && forall|r: nat| !settles_by(g, i, r)
    }
}

/// The nodes that have a level, lowest level first and each level in the order
/// of the nodes' numbers.
pub open spec fn order_ok(g: Seq<Seq<usize>>, level: Seq<usize>, order: Seq<usize>) -> bool {
    &&& order.no_duplicates()
    &&& forall|k: int|
        0 <= k < order.len() ==> (#[trigger] order[k]) < g.len() && level[order[k] as int] < g.len()
    &&& forall|i: usize| i < g.len() && level[i as int] < g.len() ==> order.contains(i)
    &&& forall|a: int, b: int|
        0 <= a < b < order.len() ==> in_order(level, #[trigger] order[a], #[trigger] order[b])
}

/// Whether node `i` stands before node `j`: by level, and within one level by
/// number.
pub open spec fn in_order(level: Seq<usize>, i: usize, j: usize) -> bool {
    level[i as int] < level[j as int] || (level[i as int] == level[j as int] && i < j)
}

/// State of the layering between two rounds.
spec fn after_rounds(g: Seq<Seq<usize>>, level: Seq<usize>, order: Seq<usize>, round: nat) -> bool {
    &&& level.len() == g.len()
    &&& forall|i: int|
        0 <= i < g.len() ==> placed_ok(g, i, #[trigger] level[i], round)
    &&& order.no_duplicates()
    &&& forall|k: int|
        0 <= k < order.len() ==> (#[trigger] order[k]) < g.len() && level[order[k] as int] < g.len()
    &&& forall|i: usize| i < g.len() && level[i as int] < g.len() ==> order.contains(i)
    &&& forall|a: int, b: int|
        0 <= a < b < order.len() ==> in_order(level, #[trigger] order[a], #[trigger] order[b])
}

spec fn placed_ok(g: Seq<Seq<usize>>, i: int, level: usize, round: nat) -> bool {
    if level < g.len() {
        level < round && settles_by(g, i, (level + 1) as nat) && !settles_by(g, i, level as nat)
    } else {
        level == g.len() && !settles_by(g, i, round)
    }
}

/// State within a round: the nodes before `upto` have been looked at.
spec fn mid_round(
    g: Seq<Seq<usize>>,
    level: Seq<usize>,
    order: Seq<usize>,
    round: nat,
    upto: int,
) -> bool {
    &&& level.len() == g.len()
    &&& forall|i: int|
        0 <= i < g.len() ==> placed_ok(
            g,
            i,
            #[trigger] level[i],
            if i < upto {
                round + 1
            } else {
                round
            },
        )
    &&& order.no_duplicates()
    &&& forall|k: int|
        0 <= k < order.len() ==> (#[trigger] order[k]) < g.len() && level[order[k] as int] < g.len()
    &&& forall|i: usize| i < g.len() && level[i as int] < g.len() ==> order.contains(i)
    &&& forall|a: int, b: int|
        0 <= a < b < order.len() ==> in_order(level, #[trigger] order[a], #[trigger] order[b])
}

/// Whether all nodes that `node` waits for were placed before `round`.
fn deps_placed(deps: &Vec<Vec<usize>>, level: &Vec<usize>, node: usize, round: usize) -> (r: bool)
    requires
        graph_ok(graph_view(deps@)),
        node < deps@.len(),
        level@.len() == deps@.len(),
    ensures
        r == forall|k: int|
            0 <= k < graph_view(deps@)[node as int].len() ==> level@[(
            #[trigger] graph_view(deps@)[node as int][k]) as int] < round,
{
    let ghost g = graph_view(deps@);
    let mut k: usize = 0;
    while k < deps[node].len()
        invariant
            g == graph_view(deps@),
            graph_ok(g),
            node < deps@.len(),
            level@.len() == deps@.len(),
            k <= g[node as int].len(),
            forall|j: int| 0 <= j < k ==> level@[(#[trigger] g[node as int][j]) as int] < round,
        decreases g[node as int].len() - k,
    {
        let d: usize = deps[node][k];
        assert(d == g[node as int][k as int]);
        if level[d] >= round {
            return false;
        }
        k = k + 1;
    }
    true
}

/// The level of every node, and the nodes that have one, lowest level first.
pub fn layer(deps: &Vec<Vec<usize>>) -> (r: (Vec<usize>, Vec<usize>))
    requires
        graph_ok(graph_view(deps@)),
    ensures
        levels_ok(graph_view(deps@), r.0@),
        order_ok(graph_view(deps@), r.0@, r.1@),
{
    let ghost g = graph_view(deps@);
    let n: usize = deps.len();
    let mut level: Vec<usize> = Vec::new();
    let mut i: usize = 0;
    while i < n
        invariant
            i <= n,
            level@.len() == i,
            forall|k: int| 0 <= k < i ==> level@[k] == n,
        decreases n - i,
    {
        level.push(n);
        i = i + 1;
    }
    let mut order: Vec<usize> = Vec::new();
    let mut round: usize = 0;
    let mut moving: bool = true;
    while order.len() < n && moving
        invariant
            g == graph_view(deps@),
            graph_ok(g),
            n == deps@.len(),
            round <= order@.len(),
            after_rounds(g, level@, order@, round as nat),
            !moving ==> (forall|j: int|
                0 <= j < g.len() && #[trigger] settles_by(g, j, round as nat + 1) ==> settles_by(
                    g,
                    j,
                    round as nat,
                )),
        decreases n - order@.len(), (if moving { 1int } else { 0int }),
    {
        let ghost before = level@;
        let start: usize = order.len();
        assert(order@.take(start as int) =~= order@);
        let mut node: usize = 0;
        while node < n
            invariant
                g == graph_view(deps@),
                graph_ok(g),
                n == deps@.len(),
                node <= n,
                round < n,
                start <= order@.len(),
                after_rounds(g, before, order@.take(start as int), round as nat),
                mid_round(g, level@, order@, round as nat, node as int),
                forall|j: int|
                    0 <= j < n ==> #[trigger] level@[j] == before[j] || (before[j] == n && level@[j]
                        == round && j < node),
                order@.len() == start ==> level@ == before,
            decreases n - node,
        {
            if level[node] == n && deps_placed(deps, &level, node, round) {
                let ghost old_order = order@;
                let ghost old_level = level@;
                order.push(node);
                level.set(node, round);
                proof {
                    lemma_place(g, old_level, old_order, round as nat, node);
                    assert(order@.take(start as int) =~= old_order.take(start as int));
                }
            } else {
                proof {
                    lemma_pass(g, level@, order@, round as nat, node);
                }
            }
            node = node + 1;
        }
        if order.len() == start {
            moving = false;
            proof {
                assert forall|j: int| 0 <= j < g.len() && #[trigger] settles_by(
                    g,
                    j,
                    round as nat + 1,
                ) implies settles_by(g, j, round as nat) by {
                    assert(placed_ok(g, j, level@[j], round as nat + 1));
                    assert(placed_ok(g, j, before[j], round as nat));
                    assert(level@[j] == before[j]);
                    if before[j] < n {
                        lemma_settles_monotone(g, j, (before[j] + 1) as nat, round as nat);
                    }
                }
                assert(order@.take(start as int) =~= order@);
                assert(after_rounds(g, level@, order@, round as nat));
            }
        } else {
            round = round + 1;
            proof {
                if order@.len() >= n {
                    lemma_all_placed(order@, n as nat);
                }
            }
        }
    }
    proof {
        assert forall|i: int| 0 <= i < g.len() implies level_ok(g, i, #[trigger] level@[i]) by {
            assert(placed_ok(g, i, level@[i], round as nat));
            if level@[i] >= n {
                if order@.len() >= n {
                    lemma_all_placed(order@, n as nat);
                    assert(order@.contains(i as usize));
                } else {
                    assert forall|r: nat| !settles_by(g, i, r) by {
                        if settles_by(g, i, r) {
                            lemma_settles_fixpoint(g, i, round as nat, r);
                        }
                    }
                }
            }
        }
    }
    (level, order)
}

proof fn lemma_place(
    g: Seq<Seq<usize>>,
    level: Seq<usize>,
    order: Seq<usize>,
    round: nat,
    node: usize,
)
    requires
        graph_ok(g),
        node < g.len(),
        round < g.len(),
        g.len() <= usize::MAX,
        mid_round(g, level, order, round, node as int),
        level[node as int] == g.len(),
        forall|k: int|
            0 <= k < g[node as int].len() ==> level[(#[trigger] g[node as int][k]) as int] < round,
    ensures
        mid_round(g, level.update(node as int, round as usize), order.push(node), round, node + 1),
{
    let level2 = level.update(node as int, round as usize);
    let order2 = order.push(node);
    assert(placed_ok(g, node as int, level[node as int], round));
    assert forall|k: int| 0 <= k < g[node as int].len() implies settles_by(
        g,
        (#[trigger] g[node as int][k]) as int,
        round,
    ) by {
        let d = g[node as int][k] as int;
        assert(d < g.len());
        assert(level[d] < round);
        lemma_settles_monotone(g, d, (level[d] + 1) as nat, round);
    }
    assert(settles_by(g, node as int, round + 1));
    assert(!order.contains(node)) by {
        if order.contains(node) {
            let k = choose|k: int| 0 <= k < order.len() && order[k] == node;
            assert(level[order[k] as int] < g.len());
        }
    }
    assert forall|k: int| 0 <= k < order2.len() implies (#[trigger] order2[k]) < g.len()
        && level2[order2[k] as int] < g.len() by {
        if k < order.len() {
            assert(order[k] == order2[k]);
        }
    }
    assert forall|i: usize| i < g.len() && level2[i as int] < g.len() implies order2.contains(i) by {
        if i == node {
            assert(order2[order.len() as int] == node);
        } else {
            assert(order.contains(i));
            let k = choose|k: int| 0 <= k < order.len() && order[k] == i;
            assert(order2[k] == i);
        }
    }
    assert forall|a: int, b: int| 0 <= a < b < order2.len() implies in_order(
        level2,
        #[trigger] order2[a],
        #[trigger] order2[b],
    ) by {
        assert(order[a] == order2[a]);
        assert(order[a] != node);
        if b < order.len() {
            assert(order[b] == order2[b]);
            assert(order[b] != node);
            assert(in_order(level, order[a], order[b]));
        } else {
            let i = order[a] as int;
            assert(placed_ok(g, i, level[i], if i < node { round + 1 } else { round }));
        }
    }
    assert forall|i: int| 0 <= i < g.len() implies placed_ok(
        g,
        i,
        #[trigger] level2[i],
        if i < node + 1 {
            round + 1
        } else {
            round
        },
    ) by {
        if i != node {
            assert(placed_ok(g, i, level[i], if i < node { round + 1 } else { round }));
        }
    }
}

proof fn lemma_pass(
    g: Seq<Seq<usize>>,
    level: Seq<usize>,
    order: Seq<usize>,
    round: nat,
    node: usize,
)
    requires
        graph_ok(g),
        node < g.len(),
        mid_round(g, level, order, round, node as int),
        level[node as int] != g.len() || !(forall|k: int|
            0 <= k < g[node as int].len() ==> level[(#[trigger] g[node as int][k]) as int] < round),
    ensures
        mid_round(g, level, order, round, node + 1),
{
    assert(placed_ok(g, node as int, level[node as int], round));
    if level[node as int] == g.len() && settles_by(g, node as int, round + 1) {
        assert forall|k: int| 0 <= k < g[node as int].len() implies level[(
        #[trigger] g[node as int][k]) as int] < round by {
            let d = g[node as int][k] as int;
            assert(d < g.len());
            assert(settles_by(g, d, round));
            assert(placed_ok(g, d, level[d], if d < node { round + 1 } else { round }));
            if level[d] >= g.len() {
                if d < node {
                    lemma_settles_monotone(g, d, round, round + 1);
                }
            } else if level[d] >= round {
                lemma_settles_monotone(g, d, round, level[d] as nat);
            }
        }
    }
    assert forall|i: int| 0 <= i < g.len() implies placed_ok(
        g,
        i,
        #[trigger] level[i],
        if i < node + 1 {
            round + 1
        } else {
            round
        },
    ) by {
        assert(placed_ok(g, i, level[i], if i < node { round + 1 } else { round }));
    }
}

// ---- levels ----------------------------------------------------------------------

/// Every node lies deeper than the nodes it waits for, and one deeper than the
/// deepest of them.
pub proof fn lemma_level_of_deps(g: Seq<Seq<usize>>, level: Seq<usize>, i: int)
    requires
        graph_ok(g),
        levels_ok(g, level),
        0 <= i < g.len(),
        level[i] < g.len(),
    ensures
        forall|k: int|
            0 <= k < g[i].len() ==> level[(#[trigger] g[i][k]) as int] < level[i],
        level[i] > 0 ==> exists|k: int|
            0 <= k < g[i].len() && level[(#[trigger] g[i][k]) as int] + 1 == level[i],
        level[i] == 0 ==> g[i].len() == 0,
{
    let l = level[i];
    assert(level_ok(g, i, l));
    assert forall|k: int| 0 <= k < g[i].len() implies level[(#[trigger] g[i][k]) as int] < l by {
        let d = g[i][k] as int;
        assert(d < g.len());
        assert(settles_by(g, d, l as nat));
        assert(level_ok(g, d, level[d]));
        if level[d] >= l {
            lemma_settles_monotone(g, d, l as nat, level[d] as nat);
        }
    }
    if l > 0 {
        let k = choose|k: int|
            0 <= k < g[i].len() && !settles_by(g, (#[trigger] g[i][k]) as int, (l - 1) as nat);
        let d = g[i][k] as int;
        assert(level_ok(g, d, level[d]));
        if level[d] + 1 < l {
            lemma_settles_monotone(g, d, (level[d] + 1) as nat, (l - 1) as nat);
        }
    } else if g[i].len() > 0 {
        assert(settles_by(g, g[i][0] as int, 0));
    }
}

/// No chain that starts at a node is longer than the node is deep.
pub proof fn lemma_chain_bounded(g: Seq<Seq<usize>>, level: Seq<usize>, p: Seq<int>)
    requires
        graph_ok(g),
        levels_ok(g, level),
        is_chain(g, p),
        level[p[0]] < g.len(),
    ensures
        p.len() <= level[p[0]] + 1,
    decreases p.len(),
{
    if p.len() > 1 {
        let q = p.drop_first();
        assert(waits_for(g, p[0], p[0int + 1]));
        let k = choose|k: int| 0 <= k < g[p[0]].len() && #[trigger] g[p[0]][k] == p[1];
        lemma_level_of_deps(g, level, p[0]);
        assert(level[g[p[0]][k] as int] < level[p[0]]);
        assert(q[0] == p[1]);
        assert forall|j: int| 0 <= j < q.len() - 1 implies waits_for(g, #[trigger] q[j], q[j + 1]) by {
            assert(q[j] == p[j + 1]);
            assert(waits_for(g, p[j + 1], p[j + 1 + 1]));
        }
        assert forall|j: int| 0 <= j < q.len() implies 0 <= #[trigger] q[j] < g.len() by {
            assert(q[j] == p[j + 1]);
        }
        lemma_chain_bounded(g, level, q);
    }
}

/// A node with a level waits for itself through no chain.
pub proof fn law_levels_rule_out_cycles(g: Seq<Seq<usize>>, level: Seq<usize>, i: int)
    requires
        graph_ok(g),
        levels_ok(g, level),
        0 <= i < g.len(),
        level[i] < g.len(),
    ensures
        !waits_through(g, i, i),
{
    if waits_through(g, i, i) {
        let p = choose|p: Seq<int>|
            #[trigger] is_chain(g, p) && p.len() >= 2 && p[0] == i && p.last() == i;
        lemma_chain_descends(g, level, p);
    }
}

proof fn lemma_chain_descends(g: Seq<Seq<usize>>, level: Seq<usize>, p: Seq<int>)
    requires
        graph_ok(g),
        levels_ok(g, level),
        is_chain(g, p),
        level[p[0]] < g.len(),
    ensures
        p.len() >= 2 ==> level[p.last()] < level[p[0]],
        level[p.last()] < g.len(),
    decreases p.len(),
{
    if p.len() >= 2 {
        let q = p.drop_last();
        assert forall|j: int| 0 <= j < q.len() - 1 implies waits_for(g, #[trigger] q[j], q[j + 1]) by {
            assert(waits_for(g, p[j], p[j + 1]));
        }
        assert forall|j: int| 0 <= j < q.len() implies 0 <= #[trigger] q[j] < g.len() by {
            assert(q[j] == p[j]);
        }
        lemma_chain_descends(g, level, q);
        let last = p.len() - 2;
        assert(q.last() == p[last]);
        assert(waits_for(g, p[last], p[last + 1]));
        let k = choose|k: int| 0 <= k < g[p[last]].len() && #[trigger] g[p[last]][k] == p[last + 1];
        lemma_level_of_deps(g, level, p[last]);
        assert(level[g[p[last]][k] as int] < level[p[last]]);
    }
}

/// Where a node has no level, some node without one waits for itself.
pub proof fn law_no_level_means_a_cycle(g: Seq<Seq<usize>>, level: Seq<usize>, i: int) -> (c: int)
    requires
        graph_ok(g),
        levels_ok(g, level),
        0 <= i < g.len(),
        level[i] == g.len(),
    ensures
        0 <= c < g.len(),
        level[c] == g.len(),
        waits_through(g, c, c),
{
    let p = stuck_walk(g, level, i, g.len());
    lemma_stuck_walk(g, level, i, g.len());
    let (a, b) = lemma_repeats(p, g.len());
    let q = p.subrange(a, b + 1);
    assert forall|j: int| 0 <= j < q.len() - 1 implies waits_for(g, #[trigger] q[j], q[j + 1]) by {
        assert(waits_for(g, p[a + j], p[a + j + 1]));
    }
    assert forall|j: int| 0 <= j < q.len() implies 0 <= #[trigger] q[j] < g.len() by {
        assert(q[j] == p[a + j]);
    }
    assert(is_chain(g, q));
    assert(q[0] == p[a] && q.last() == p[b]);
    p[a]
}

/// A node without a level that a node without a level waits for.
spec fn stuck_next(g: Seq<Seq<usize>>, level: Seq<usize>, i: int) -> int {
    let k = choose|k: int|
        0 <= k < g[i].len() && level[(#[trigger] g[i][k]) as int] == g.len();
    g[i][k] as int
}

spec fn stuck_walk(g: Seq<Seq<usize>>, level: Seq<usize>, i: int, steps: nat) -> Seq<int>
    decreases steps,
{
    if steps == 0 {
        seq![i]
    } else {
        let p = stuck_walk(g, level, i, (steps - 1) as nat);
        p.push(stuck_next(g, level, p.last()))
    }
}

proof fn lemma_stuck_walk(g: Seq<Seq<usize>>, level: Seq<usize>, i: int, steps: nat)
    requires
        graph_ok(g),
        levels_ok(g, level),
        0 <= i < g.len(),
        level[i] == g.len(),
    ensures
        ({
            let p = stuck_walk(g, level, i, steps);
            &&& p.len() == steps + 1
            &&& is_chain(g, p)
            &&& forall|k: int| 0 <= k < p.len() ==> level[#[trigger] p[k]] == g.len()
        }),
    decreases steps,
{
    if steps > 0 {
        let p = stuck_walk(g, level, i, (steps - 1) as nat);
        lemma_stuck_walk(g, level, i, (steps - 1) as nat);
        let x = p.last();
        assert(p[p.len() - 1] == x);
        assert(level[x] == g.len());
        assert(exists|k: int|
            0 <= k < g[x].len() && level[(#[trigger] g[x][k]) as int] == g.len()) by {
            if forall|k: int|
                0 <= k < g[x].len() ==> level[(#[trigger] g[x][k]) as int] != g.len() {
                assert forall|k: int| 0 <= k < g[x].len() implies settles_by(
                    g,
                    (#[trigger] g[x][k]) as int,
                    g.len(),
                ) by {
                    let d = g[x][k] as int;
                    assert(d < g.len());
                    assert(level_ok(g, d, level[d]));
                    lemma_settles_monotone(g, d, (level[d] + 1) as nat, g.len());
                }
                assert(settles_by(g, x, g.len() + 1));
                assert(level_ok(g, x, level[x]));
            }
        }
        let y = stuck_next(g, level, x);
        let k = choose|k: int|
            0 <= k < g[x].len() && level[(#[trigger] g[x][k]) as int] == g.len();
        assert(g[x][k] == y);
        assert(waits_for(g, x, y));
        let q = p.push(y);
        assert forall|j: int| 0 <= j < q.len() - 1 implies waits_for(g, #[trigger] q[j], q[j + 1]) by {
            if j < p.len() - 1 {
                assert(waits_for(g, p[j], p[j + 1]));
            }
        }
    }
}

// ---- who waits for a node ----------------------------------------------------------

/// A node waits for `target` through a chain exactly when one of the nodes it
/// waits for is `target` or does.
pub proof fn lemma_waits_step(g: Seq<Seq<usize>>, i: int, target: int)
    requires
        graph_ok(g),
        0 <= i < g.len(),
        0 <= target < g.len(),
    ensures
        waits_through(g, i, target) == exists|k: int|
            0 <= k < g[i].len() && waits_or_is(g, (#[trigger] g[i][k]) as int, target),
{
    if waits_through(g, i, target) {
        let p = choose|p: Seq<int>|
            #[trigger] is_chain(g, p) && p.len() >= 2 && p[0] == i && p.last() == target;
        assert(waits_for(g, p[0], p[0int + 1]));
        let k = choose|k: int| 0 <= k < g[i].len() && #[trigger] g[i][k] == p[1];
        if p.len() > 2 {
            let q = p.drop_first();
            assert forall|j: int| 0 <= j < q.len() - 1 implies waits_for(
                g,
                #[trigger] q[j],
                q[j + 1],
            ) by {
                assert(waits_for(g, p[j + 1], p[j + 1 + 1]));
            }
            assert forall|j: int| 0 <= j < q.len() implies 0 <= #[trigger] q[j] < g.len() by {
                assert(q[j] == p[j + 1]);
            }
            assert(is_chain(g, q));
        }
        assert(waits_or_is(g, g[i][k] as int, target));
    }
    if exists|k: int| 0 <= k < g[i].len() && waits_or_is(g, (#[trigger] g[i][k]) as int, target) {
        let k = choose|k: int|
            0 <= k < g[i].len() && waits_or_is(g, (#[trigger] g[i][k]) as int, target);
        let d = g[i][k] as int;
        assert(waits_for(g, i, d));
        if d == target {
            let p = seq![i, d];
            assert(is_chain(g, p));
            assert(p.last() == target);
        } else {
            let q = choose|q: Seq<int>|
                #[trigger] is_chain(g, q) && q.len() >= 2 && q[0] == d && q.last() == target;
            let p = seq![i] + q;
            assert forall|j: int| 0 <= j < p.len() - 1 implies waits_for(
                g,
                #[trigger] p[j],
                p[j + 1],
            ) by {
                if j > 0 {
                    assert(waits_for(g, q[j - 1], q[j - 1 + 1]));
                }
            }
            assert forall|j: int| 0 <= j < p.len() implies 0 <= #[trigger] p[j] < g.len() by {
                if j > 0 {
                    assert(p[j] == q[j - 1]);
                }
            }
            assert(is_chain(g, p));
            assert(p.last() == target);
        }
    }
}

pub open spec fn waits_or_is(g: Seq<Seq<usize>>, i: int, target: int) -> bool {
    i == target || waits_through(g, i, target)
}

/// How many of the first `n` nodes wait for `target`, directly or through others.
pub open spec fn waiting_count(g: Seq<Seq<usize>>, target: int, n: nat) -> nat
    decreases n,
{
    if n == 0 {
        0
    } else {
        waiting_count(g, target, (n - 1) as nat) + if waits_through(g, n - 1, target) {
            1nat
        } else {
            0nat
        }
    }
}

/// How many nodes wait for `target`, directly or through others.
pub fn count_waiting(
    deps: &Vec<Vec<usize>>,
    levels: &Vec<usize>,
    order: &Vec<usize>,
    target: usize,
) -> (r: usize)
    requires
        graph_ok(graph_view(deps@)),
        levels_ok(graph_view(deps@), levels@),
        order_ok(graph_view(deps@), levels@, order@),
        forall|i: int| 0 <= i < deps@.len() ==> (#[trigger] levels@[i]) < deps@.len(),
        target < deps@.len(),
    ensures
        r == waiting_count(graph_view(deps@), target as int, deps@.len()),
        r <= deps@.len(),
{
    let ghost g = graph_view(deps@);
    let ghost level = levels@;
    let n: usize = deps.len();
    let mut waits: Vec<bool> = Vec::new();
    let mut i: usize = 0;
    while i < n
        invariant
            i <= n,
            waits@.len() == i,
        decreases n - i,
    {
        waits.push(false);
        i = i + 1;
    }
    let mut at: usize = 0;
    while at < order.len()
        invariant
            g == graph_view(deps@),
            graph_ok(g),
            levels_ok(g, level),
            order_ok(g, level, order@),
            forall|i: int| 0 <= i < n ==> (#[trigger] level[i]) < n,
            n == deps@.len(),
            target < n,
            waits@.len() == n,
            at <= order@.len(),
            forall|a: int|
                0 <= a < at ==> waits@[(#[trigger] order@[a]) as int] == waits_through(
                    g,
                    order@[a] as int,
                    target as int,
                ),
        decreases order@.len() - at,
    {
        let node: usize = order[at];
        let mut found: bool = false;
        let mut k: usize = 0;
        while k < deps[node].len()
            invariant
                g == graph_view(deps@),
                graph_ok(g),
                levels_ok(g, level),
                order_ok(g, level, order@),
                forall|i: int| 0 <= i < n ==> (#[trigger] level[i]) < n,
                n == deps@.len(),
                target < n,
                node < n,
                at < order@.len(),
                node == order@[at as int],
                waits@.len() == n,
                k <= g[node as int].len(),
                forall|a: int|
                    0 <= a < at ==> waits@[(#[trigger] order@[a]) as int] == waits_through(
                        g,
                        order@[a] as int,
                        target as int,
                    ),
                found == exists|j: int|
                    0 <= j < k && waits_or_is(
                        g,
                        (#[trigger] g[node as int][j]) as int,
                        target as int,
                    ),
            decreases g[node as int].len() - k,
        {
            let d: usize = deps[node][k];
            assert(d == g[node as int][k as int]);
            proof {
                lemma_level_of_deps(g, level, node as int);
                assert(level[g[node as int][k as int] as int] < level[node as int]);
                assert(order@.contains(d));
                let a = choose|a: int| 0 <= a < order@.len() && order@[a] == d;
                assert(a < at) by {
                    if a > at {
                        assert(in_order(level, order@[at as int], order@[a]));
                    }
                }
                assert(waits@[order@[a] as int] == waits_through(g, d as int, target as int));
            }
            let hit: bool = d == target || waits[d];
            assert(hit == waits_or_is(g, g[node as int][k as int] as int, target as int));
            found = found || hit;
            k = k + 1;
        }
        proof {
            lemma_waits_step(g, node as int, target as int);
        }
        let ghost old_waits = waits@;
        waits.set(node, found);
        assert forall|a: int| 0 <= a < at + 1 implies waits@[(#[trigger] order@[a]) as int]
            == waits_through(g, order@[a] as int, target as int) by {
            if a < at {
                assert(order@[a] != order@[at as int]);
                assert(old_waits[order@[a] as int] == waits_through(
                    g,
                    order@[a] as int,
                    target as int,
                ));
            }
        }
        at = at + 1;
    }
    let mut count: usize = 0;
    let mut j: usize = 0;
    while j < n
        invariant
            j <= n,
            n == deps@.len(),
            waits@.len() == n,
            count <= j,
            count == waiting_count(g, target as int, j as nat),
            order_ok(g, level, order@),
            n == g.len(),
            forall|i: int| 0 <= i < n ==> (#[trigger] level[i]) < n,
            forall|a: int|
                0 <= a < order@.len() ==> waits@[(#[trigger] order@[a]) as int] == waits_through(
                    g,
                    order@[a] as int,
                    target as int,
                ),
        decreases n - j,
    {
        proof {
            assert(level[j as int] < n);
            assert(order@.contains(j));
            let a = choose|a: int| 0 <= a < order@.len() && order@[a] == j;
            assert(waits@[order@[a] as int] == waits_through(g, j as int, target as int));
        }
        if waits[j] {
            count = count + 1;
        }
        j = j + 1;
    }
    count
}

// ---- the order of release -----------------------------------------------------------------

/// Whether all that node `x` waits for is among the first `t` of an order.
pub open spec fn free_by(g: Seq<Seq<usize>>, order: Seq<usize>, x: int, t: nat) -> bool {
    forall|j: int| #[trigger] waits_for(g, x, j) ==> order.take(t as int).contains(j as usize)
}

/// Whether node `x` becomes free when the first `t` of an order have been taken.
pub open spec fn freed_at(g: Seq<Seq<usize>>, order: Seq<usize>, x: int, t: nat) -> bool {
    free_by(g, order, x, t) && (t > 0 ==> !free_by(g, order, x, (t - 1) as nat))
}

/// Whether the node at one place of an order becomes free before that at another, or at
/// once with it and has the lower number.
pub open spec fn freed_first(order: Seq<usize>, freed: Seq<nat>, a: int, b: int) -> bool {
    freed[a] < freed[b] || (freed[a] == freed[b] && order[a] < order[b])
}

/// Whether nodes stand in an order in which they become free, those that become free at
/// once by number. `freed` tells how many had been taken when each became free.
pub open spec fn in_release_order(g: Seq<Seq<usize>>, order: Seq<usize>, freed: Seq<nat>) -> bool {
    &&& order.no_duplicates()
    &&& freed.len() == order.len()
    &&& forall|i: int|
        0 <= i < order.len() ==> (#[trigger] order[i]) < g.len() && freed[i] <= i && freed_at(
            g,
            order,
            order[i] as int,
            freed[i],
        )
    &&& forall|a: int, b: int|
        0 <= a < b < order.len() ==> #[trigger] freed_first(order, freed, a, b)
}

/// Whether every node that is free by `t` stands in an order.
spec fn takes_all_free(g: Seq<Seq<usize>>, order: Seq<usize>, t: nat) -> bool {
    forall|x: usize| x < g.len() && #[trigger] free_by(g, order, x as int, t) ==> order.contains(x)
}

proof fn lemma_free_push(g: Seq<Seq<usize>>, order: Seq<usize>, node: usize, x: int, t: nat)
    requires
        t <= order.len(),
    ensures
        free_by(g, order.push(node), x, t) == free_by(g, order, x, t),
{
    assert(order.push(node).take(t as int) =~= order.take(t as int));
}

proof fn lemma_release(
    g: Seq<Seq<usize>>,
    order: Seq<usize>,
    freed: Seq<nat>,
    t: nat,
    node: usize,
)
    requires
        in_release_order(g, order, freed),
        node < g.len(),
        !order.contains(node),
        t <= order.len(),
        free_by(g, order, node as int, t),
        t > 0 ==> takes_all_free(g, order, (t - 1) as nat),
        forall|i: int|
            #![trigger freed[i]]
            0 <= i < order.len() ==> freed[i] < t || (freed[i] == t && order[i] < node),
    ensures
        in_release_order(g, order.push(node), freed.push(t)),
        t > 0 ==> takes_all_free(g, order.push(node), (t - 1) as nat),
{
    let after = order.push(node);
    let moments = freed.push(t);
    assert forall|i: int, j: int|
        0 <= i < after.len() && 0 <= j < after.len() && i != j implies after[i] != after[j] by {
        if i < order.len() && j < order.len() {
            assert(order[i] != order[j]);
        } else if i < order.len() {
            assert(order.contains(order[i]));
        } else {
            assert(order.contains(order[j]));
        }
    }
    assert forall|i: int| 0 <= i < after.len() implies (#[trigger] after[i]) < g.len() && moments[i]
        <= i && freed_at(g, after, after[i] as int, moments[i]) by {
        let x = after[i] as int;
        if i < order.len() {
            assert(order[i] == after[i]);
            assert(freed[i] == moments[i]);
        }
        lemma_free_push(g, order, node, x, moments[i]);
        if moments[i] > 0 {
            lemma_free_push(g, order, node, x, (moments[i] - 1) as nat);
        }
    }
    assert forall|a: int, b: int| 0 <= a < b < after.len() implies #[trigger] freed_first(
        after,
        moments,
        a,
        b,
    ) by {
        assert(moments[a] == freed[a]);
        if b < order.len() {
            assert(freed_first(order, freed, a, b));
        }
    }
    if t > 0 {
        assert forall|x: usize|
            x < g.len() && #[trigger] free_by(g, after, x as int, (t - 1) as nat) implies after.contains(
            x,
        ) by {
            lemma_free_push(g, order, node, x as int, (t - 1) as nat);
            assert(order.contains(x));
            let k = choose|k: int| 0 <= k < order.len() && order[k] == x;
            assert(after[k] == x);
        }
    }
}

/// An order that takes all that is free takes every node that has a level.
proof fn lemma_all_released(g: Seq<Seq<usize>>, level: Seq<usize>, order: Seq<usize>, x: usize)
    requires
        graph_ok(g),
        levels_ok(g, level),
        forall|i: int| 0 <= i < g.len() ==> (#[trigger] level[i]) < g.len(),
        takes_all_free(g, order, order.len()),
        x < g.len(),
    ensures
        order.contains(x),
    decreases level[x as int],
{
    assert(level[x as int] < g.len());
    lemma_level_of_deps(g, level, x as int);
    assert(order.take(order.len() as int) =~= order);
    assert forall|j: int| #[trigger] waits_for(g, x as int, j) implies order.take(
        order.len() as int,
    ).contains(j as usize) by {
        let k = choose|k: int| 0 <= k < g[x as int].len() && #[trigger] g[x as int][k] == j;
        assert(level[g[x as int][k] as int] < level[x as int]);
        lemma_all_released(g, level, order, g[x as int][k]);
    }
    assert(free_by(g, order, x as int, order.len()));
}

/// Different numbers below `n` are no more than `n`.
proof fn lemma_no_more_than(order: Seq<usize>, n: nat)
    requires
        order.no_duplicates(),
        forall|k: int| 0 <= k < order.len() ==> (#[trigger] order[k]) < n,
    ensures
        order.len() <= n,
{
    if order.len() > n {
        let ints = order.map_values(|x: usize| x as int);
        let (i, j) = lemma_repeats(ints, n);
        assert(order[i] == order[j]);
    }
}

/// Whether all nodes that `node` waits for have been taken.
fn deps_taken(deps: &Vec<Vec<usize>>, taken: &Vec<bool>, node: usize) -> (r: bool)
    requires
        graph_ok(graph_view(deps@)),
        node < deps@.len(),
        taken@.len() == deps@.len(),
    ensures
        r == forall|j: int| #[trigger]
            waits_for(graph_view(deps@), node as int, j) ==> taken@[j],
{
    let ghost g = graph_view(deps@);
    let mut k: usize = 0;
    while k < deps[node].len()
        invariant
            g == graph_view(deps@),
            graph_ok(g),
            node < deps@.len(),
            taken@.len() == deps@.len(),
            k <= g[node as int].len(),
            forall|i: int| 0 <= i < k ==> taken@[(#[trigger] g[node as int][i]) as int],
        decreases g[node as int].len() - k,
    {
        let d: usize = deps[node][k];
        assert(d == g[node as int][k as int]);
        if !taken[d] {
            assert(waits_for(g, node as int, d as int));
            return false;
        }
        k = k + 1;
    }
    true
}

fn falses(n: usize) -> (r: Vec<bool>)
    ensures
        r@.len() == n,
        forall|i: int| 0 <= i < n ==> !(#[trigger] r@[i]),
{
    let mut r: Vec<bool> = Vec::new();
    let mut i: usize = 0;
    while i < n
        invariant
            i <= n,
            r@.len() == i,
            forall|k: int| 0 <= k < i ==> !(#[trigger] r@[k]),
        decreases n - i,
    {
        r.push(false);
        i = i + 1;
    }
    r
}

/// Whether flags tell which nodes are in a list.
spec fn marks(flags: Seq<bool>, list: Seq<usize>) -> bool {
    forall|x: usize| x < flags.len() ==> (#[trigger] flags[x as int]) == list.contains(x)
}

/// Adds the nodes that are free now, by number.
fn release(
    deps: &Vec<Vec<usize>>,
    taken: &Vec<bool>,
    order: &mut Vec<usize>,
    placed: &mut Vec<bool>,
    Ghost(freed): Ghost<Seq<nat>>,
    Ghost(t): Ghost<nat>,
) -> (after: Ghost<Seq<nat>>)
    requires
        graph_ok(graph_view(deps@)),
        in_release_order(graph_view(deps@), old(order)@, freed),
        t <= old(order)@.len(),
        taken@.len() == deps@.len(),
        marks(taken@, old(order)@.take(t as int)),
        old(placed)@.len() == deps@.len(),
        marks(old(placed)@, old(order)@),
        t > 0 ==> takes_all_free(graph_view(deps@), old(order)@, (t - 1) as nat),
        forall|i: int| 0 <= i < freed.len() ==> (#[trigger] freed[i]) < t,
    ensures
        in_release_order(graph_view(deps@), final(order)@, after@),
        old(order)@.len() <= final(order)@.len(),
        final(order)@.take(t as int) == old(order)@.take(t as int),
        final(placed)@.len() == deps@.len(),
        marks(final(placed)@, final(order)@),
        takes_all_free(graph_view(deps@), final(order)@, t),
        forall|i: int| 0 <= i < after@.len() ==> (#[trigger] after@[i]) <= t,
{
    let ghost g = graph_view(deps@);
    let ghost first = order@;
    let ghost mut moments = freed;
    let n: usize = deps.len();
    let mut x: usize = 0;
    while x < n
        invariant
            x <= n,
            n == deps@.len(),
            g == graph_view(deps@),
            graph_ok(g),
            in_release_order(g, order@, moments),
            t <= first.len() <= order@.len(),
            order@.take(t as int) == first.take(t as int),
            taken@.len() == n,
            marks(taken@, first.take(t as int)),
            placed@.len() == n,
            marks(placed@, order@),
            t > 0 ==> takes_all_free(g, order@, (t - 1) as nat),
            forall|i: int|
                #![trigger moments[i]]
                0 <= i < order@.len() ==> moments[i] < t || (moments[i] == t && order@[i] < x),
            forall|y: usize|
                y < x && #[trigger] free_by(g, order@, y as int, t) ==> order@.contains(y),
        decreases n - x,
    {
        let free: bool = deps_taken(deps, taken, x);
        proof {
            if free {
                assert forall|j: int| #[trigger] waits_for(g, x as int, j) implies order@.take(
                    t as int,
                ).contains(j as usize) by {
                    let k = choose|k: int|
                        0 <= k < g[x as int].len() && #[trigger] g[x as int][k] == j;
                    assert(g[x as int][k] < g.len());
                    assert(taken@[j]);
                    assert(taken@[(j as usize) as int]);
                }
            } else {
                let j = choose|j: int| #[trigger] waits_for(g, x as int, j) && !taken@[j];
                let k = choose|k: int|
                    0 <= k < g[x as int].len() && #[trigger] g[x as int][k] == j;
                assert(g[x as int][k] < g.len());
                assert(!taken@[(j as usize) as int]);
            }
            assert(free == free_by(g, order@, x as int, t));
            assert(placed@[x as int] == order@.contains(x));
        }
        if !placed[x] && free {
            let ghost before = order@;
            proof {
                lemma_release(g, order@, moments, t, x);
                moments = moments.push(t);
            }
            order.push(x);
            placed.set(x, true);
            proof {
                assert(order@.take(t as int) =~= before.take(t as int));
                assert(order@[before.len() as int] == x);
                assert forall|y: usize| y < placed@.len() implies (#[trigger] placed@[y as int])
                    == order@.contains(y) by {
                    vstd::seq_lib::lemma_seq_contains_after_push(before, x, y);
                }
                assert forall|y: usize|
                    y < x + 1 && #[trigger] free_by(g, order@, y as int, t) implies order@.contains(
                    y,
                ) by {
                    lemma_free_push(g, before, x, y as int, t);
                    vstd::seq_lib::lemma_seq_contains_after_push(before, x, y);
                }
                assert forall|i: int|
                    #![trigger moments[i]]
                    0 <= i < order@.len() implies moments[i] < t || (moments[i] == t && order@[i] < x
                    + 1) by {
                    if i < before.len() {
                        assert(order@[i] == before[i]);
                    }
                }
            }
        }
        x = x + 1;
    }
    Ghost(moments)
}

/// The nodes in the order in which they become free when they are taken one after the
/// other, in that same order.
pub fn release_order(deps: &Vec<Vec<usize>>, level: &Vec<usize>) -> (r: Vec<usize>)
    requires
        graph_ok(graph_view(deps@)),
        levels_ok(graph_view(deps@), level@),
        forall|i: int| 0 <= i < deps@.len() ==> (#[trigger] level@[i]) < deps@.len(),
    ensures
        r@.len() == deps@.len(),
        exists|freed: Seq<nat>| #[trigger] in_release_order(graph_view(deps@), r@, freed),
{
    let ghost g = graph_view(deps@);
    let n: usize = deps.len();
    let mut order: Vec<usize> = Vec::new();
    let mut taken: Vec<bool> = falses(n);
    let mut placed: Vec<bool> = falses(n);
    let ghost none = Seq::<nat>::empty();
    assert(in_release_order(g, order@, none));
    assert(order@.take(0) =~= order@);
    let mut freed: Ghost<Seq<nat>> = release(
        deps,
        &taken,
        &mut order,
        &mut placed,
        Ghost(none),
        Ghost(0),
    );
    let mut t: usize = 0;
    proof {
        lemma_no_more_than(order@, n as nat);
        assert(order@.take(0) =~= Seq::<usize>::empty());
    }
    while t < order.len()
        invariant
            g == graph_view(deps@),
            graph_ok(g),
            n == deps@.len(),
            in_release_order(g, order@, freed@),
            t <= order@.len() <= n,
            taken@.len() == n,
            marks(taken@, order@.take(t as int)),
            placed@.len() == n,
            marks(placed@, order@),
            takes_all_free(g, order@, t as nat),
            forall|i: int| 0 <= i < freed@.len() ==> (#[trigger] freed@[i]) <= t,
        decreases n - t,
    {
        let node: usize = order[t];
        let ghost before = taken@;
        assert(node < n);
        taken.set(node, true);
        proof {
            let shorter = order@.take(t as int);
            let longer = order@.take(t + 1);
            assert(longer =~= shorter.push(node));
            assert forall|x: usize| x < taken@.len() implies (#[trigger] taken@[x as int])
                == longer.contains(x) by {
                vstd::seq_lib::lemma_seq_contains_after_push(shorter, node, x);
                assert(before[x as int] == shorter.contains(x));
            }
        }
        t = t + 1;
        freed = release(deps, &taken, &mut order, &mut placed, freed, Ghost(t as nat));
        proof {
            lemma_no_more_than(order@, n as nat);
        }
    }
    proof {
        assert forall|x: usize| x < n implies order@.contains(x) by {
            lemma_all_released(g, level@, order@, x);
        }
        lemma_covers(order@, n as nat);
    }
    order
}

/// A list that holds all numbers below `n` has at least `n` entries.
proof fn lemma_covers(order: Seq<usize>, n: nat)
    requires
        n <= usize::MAX,
        forall|x: usize| x < n ==> #[trigger] order.contains(x),
    ensures
        order.len() >= n,
{
    let ints = order.map_values(|x: usize| x as int);
    let all = set_int_range(0, n as int);
    lemma_int_range(0, n as int);
    assert(all.subset_of(ints.to_set())) by {
        assert forall|x: int| all.contains(x) implies ints.to_set().contains(x) by {
            assert(order.contains(x as usize));
            let k = choose|k: int| 0 <= k < order.len() && order[k] == x as usize;
            assert(ints[k] == x);
        }
    }
    ints.lemma_cardinality_of_set();
    lemma_len_subset(all, ints.to_set());
}

// ---- the deepest chain -----------------------------------------------------------------

/// Whether `d` is what node `i` waits for last among the deepest nodes it waits
/// for.
pub open spec fn last_deepest(g: Seq<Seq<usize>>, level: Seq<usize>, i: int, d: int) -> bool {
    exists|k: int| #[trigger] last_deepest_at(g, level, i, k) && g[i][k] == d
}

pub open spec fn last_deepest_at(g: Seq<Seq<usize>>, level: Seq<usize>, i: int, k: int) -> bool {
    &&& 0 <= k < g[i].len()
    &&& level[g[i][k] as int] + 1 == level[i]
    &&& forall|j: int| k < j < g[i].len() ==> level[(#[trigger] g[i][j]) as int] + 1 < level[i]
}

/// The chain from a root to `start` that at every node goes to the last of the
/// deepest nodes waited for.
pub open spec fn is_deepest_chain(
    g: Seq<Seq<usize>>,
    level: Seq<usize>,
    start: int,
    p: Seq<usize>,
) -> bool {
    &&& p.len() == level[start] + 1
    &&& p.last() == start
    &&& forall|k: int| 0 <= k < p.len() ==> (#[trigger] p[k]) < g.len() && level[p[k] as int] == k
    &&& forall|k: int|
        0 < k < p.len() ==> last_deepest(g, level, (#[trigger] p[k]) as int, p[k - 1] as int)
}

fn pick_last_deepest(deps: &Vec<Vec<usize>>, level: &Vec<usize>, node: usize) -> (d: usize)
    requires
        graph_ok(graph_view(deps@)),
        levels_ok(graph_view(deps@), level@),
        node < deps@.len(),
        0 < level@[node as int] < deps@.len(),
    ensures
        last_deepest(graph_view(deps@), level@, node as int, d as int),
        d < deps@.len(),
        level@[d as int] + 1 == level@[node as int],
{
    let ghost g = graph_view(deps@);
    proof {
        lemma_level_of_deps(g, level@, node as int);
    }
    let want: usize = level[node] - 1;
    let mut k: usize = deps[node].len();
    assert(k == g[node as int].len());
    while level[deps[node][k - 1]] != want
        invariant
            g == graph_view(deps@),
            graph_ok(g),
            levels_ok(g, level@),
            node < deps@.len(),
            0 < level@[node as int] < deps@.len(),
            want + 1 == level@[node as int],
            0 < k <= g[node as int].len(),
            forall|j: int|
                0 <= j < g[node as int].len() ==> level@[(#[trigger] g[node as int][j]) as int]
                    < level@[node as int],
            forall|j: int|
                k <= j < g[node as int].len() ==> level@[(#[trigger] g[node as int][j]) as int] + 1
                    < level@[node as int],
            exists|j: int|
                0 <= j < k && level@[(#[trigger] g[node as int][j]) as int] + 1
                    == level@[node as int],
        decreases k,
    {
        assert(deps@[node as int]@[k - 1] == g[node as int][k - 1]);
        k = k - 1;
    }
    let d: usize = deps[node][k - 1];
    assert(d == g[node as int][k - 1]);
    assert(last_deepest_at(g, level@, node as int, k - 1));
    d
}

pub fn deepest_chain(deps: &Vec<Vec<usize>>, level: &Vec<usize>, start: usize) -> (p: Vec<usize>)
    requires
        graph_ok(graph_view(deps@)),
        levels_ok(graph_view(deps@), level@),
        start < deps@.len(),
        level@[start as int] < deps@.len(),
    ensures
        is_deepest_chain(graph_view(deps@), level@, start as int, p@),
{
    let ghost g = graph_view(deps@);
    let top: usize = level[start];
    let mut p: Vec<usize> = Vec::new();
    let mut i: usize = 0;
    while i <= top
        invariant
            i <= top + 1,
            top < deps.len(),
            p@.len() == i,
            forall|k: int| 0 <= k < i ==> p@[k] == start,
        decreases top + 1 - i,
    {
        p.push(start);
        i = i + 1;
    }
    let mut at: usize = top;
    while at > 0
        invariant
            g == graph_view(deps@),
            graph_ok(g),
            levels_ok(g, level@),
            start < deps@.len(),
            top == level@[start as int],
            top < deps@.len(),
            at <= top,
            p@.len() == top + 1,
            p@[top as int] == start,
            forall|k: int|
                at <= k <= top ==> (#[trigger] p@[k]) < g.len() && level@[p@[k] as int] == k,
            forall|k: int|
                at < k <= top ==> last_deepest(
                    g,
                    level@,
                    (#[trigger] p@[k]) as int,
                    p@[k - 1] as int,
                ),
        decreases at,
    {
        let d: usize = pick_last_deepest(deps, level, p[at]);
        let ghost before = p@;
        p.set(at - 1, d);
        assert forall|k: int| at - 1 < k <= top implies last_deepest(
            g,
            level@,
            (#[trigger] p@[k]) as int,
            p@[k - 1] as int,
        ) by {
            assert(p@[k] == before[k]);
            if k > at {
                assert(p@[k - 1] == before[k - 1]);
                assert(last_deepest(g, level@, before[k] as int, before[k - 1] as int));
            }
        }
        at = at - 1;
    }
    p
}

} // verus!
