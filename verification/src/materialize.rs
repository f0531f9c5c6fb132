//! Which items are written out with an item, and the record of what was written.
use vstd::prelude::*;
use vstd::string::StringExecFns;
use crate::critical_path::{ItemInfo, ItemView};
use crate::sorting;
use crate::text;
use crate::traversal;
use crate::traversal::TraversalNode;

verus! {

/// What the walk reads of an item.
#[derive(Debug)]
pub struct Node {
    pub id: String,
    pub item_type: String,
    pub related: Vec<String>,
    pub depends_on: Vec<String>,
}

#[verifier::ext_equal]
pub struct NodeView {
    pub id: Seq<char>,
    pub item_type: Seq<char>,
    pub related: Seq<Seq<char>>,
    pub depends_on: Seq<Seq<char>>,
}

impl View for Node {
    type V = NodeView;

    open spec fn view(&self) -> NodeView {
        NodeView {
            id: self.id@,
            item_type: self.item_type@,
            related: text::views(self.related@),
            depends_on: text::views(self.depends_on@),
        }
    }
}

pub open spec fn node_views(nodes: Seq<Node>) -> Seq<NodeView> {
    Seq::new(nodes.len(), |i: int| nodes[i]@)
}

/// What the walk reads of an item of the board.
pub open spec fn node_of(item: ItemView) -> NodeView {
    NodeView {
        id: item.id,
        item_type: item.item_type,
        related: item.related,
        depends_on: item.depends_on,
    }
}

/// What the walk reads of the items of the board.
pub fn nodes_of(items: &[ItemInfo]) -> (r: Vec<Node>)
    ensures
        node_views(r@) == Seq::new(items@.len(), |i: int| node_of(items@[i]@)),
{
    let mut r: Vec<Node> = Vec::new();
    let mut i: usize = 0;
    while i < items.len()
        invariant
            i <= items@.len(),
            r@.len() == i,
            forall|k: int| 0 <= k < i ==> (#[trigger] r@[k])@ == node_of(items@[k]@),
        decreases items@.len() - i,
    {
        let item: &ItemInfo = &items[i];
        r.push(
            Node {
                id: item.id.clone(),
                item_type: item.item_type.clone(),
                related: text::clone_strings(&item.related),
                depends_on: text::clone_strings(&item.depends_on),
            },
        );
        i = i + 1;
    }
    assert(node_views(r@) =~= Seq::new(items@.len(), |i: int| node_of(items@[i]@)));
    r
}

/// The kinds of items that are written out with an item.
#[derive(Debug, Clone, Copy, PartialEq, Eq, Structural)]
pub enum ScopeFilter {
    All,
    Work,
    Research,
}

pub open spec fn scope_spec(name: Seq<char>) -> ScopeFilter {
    if name == "work"@ {
        ScopeFilter::Work
    } else if name == "research"@ {
        ScopeFilter::Research
    } else {
        ScopeFilter::All
    }
}

/// The scope with a name; any other name is the scope of all items.
pub fn scope_named(name: &str) -> (r: ScopeFilter)
    ensures
        r == scope_spec(name@),
{
    if text::same(name, "work") {
        ScopeFilter::Work
    } else if text::same(name, "research") {
        ScopeFilter::Research
    } else {
        ScopeFilter::All
    }
}

pub open spec fn is_dev(t: Seq<char>) -> bool {
    t == "expedition"@ || t == "chore"@ || t == "voyage"@ || t == "hazard"@ || t == "signal"@ || t
        == "feature"@
}

pub open spec fn is_research(t: Seq<char>) -> bool {
    t == "paper"@ || t == "hypothesis"@ || t == "experiment"@ || t == "measure"@ || t
        == "literature"@ || t == "idea"@
}

pub open spec fn in_scope(scope: ScopeFilter, item_type: Seq<char>) -> bool {
    match scope {
        ScopeFilter::All => true,
        ScopeFilter::Work => is_dev(item_type),
        ScopeFilter::Research => is_research(item_type),
    }
}

/// Whether a type is of the development board.
pub fn is_dev_type(t: &str) -> (r: bool)
    ensures
        r == is_dev(t@),
{
    text::same(t, "expedition") || text::same(t, "chore") || text::same(t, "voyage") || text::same(
        t,
        "hazard",
    ) || text::same(t, "signal") || text::same(t, "feature")
}

/// Whether a type is of the research board.
pub fn is_research_type(t: &str) -> (r: bool)
    ensures
        r == is_research(t@),
{
    text::same(t, "paper") || text::same(t, "hypothesis") || text::same(t, "experiment")
        || text::same(t, "measure") || text::same(t, "literature") || text::same(t, "idea")
}

fn type_in_scope(scope: ScopeFilter, t: &str) -> (r: bool)
    ensures
        r == in_scope(scope, t@),
{
    match scope {
        ScopeFilter::All => true,
        ScopeFilter::Work => is_dev_type(t),
        ScopeFilter::Research => is_research_type(t),
    }
}

// ---- the walk -----------------------------------------------------------------------------------

/// The first item with an id.
pub open spec fn node_with(nodes: Seq<NodeView>, id: Seq<char>) -> Option<NodeView>
    decreases nodes.len(),
{
    if nodes.len() == 0 {
        None
    } else {
        match node_with(nodes.drop_last(), id) {
            Some(node) => Some(node),
            None => if nodes.last().id == id {
                Some(nodes.last())
            } else {
                None
            },
        }
    }
}

/// Whether the walk goes on from an item: the board has it, and it is of the scope.
pub open spec fn goes_on(nodes: Seq<NodeView>, scope: ScopeFilter, id: Seq<char>) -> bool {
    node_with(nodes, id) is Some && in_scope(scope, node_with(nodes, id)->0.item_type)
}

/// Whether one item names another, as related or as a dependency.
pub open spec fn names(nodes: Seq<NodeView>, from: Seq<char>, to: Seq<char>) -> bool {
    node_with(nodes, from) is Some && (node_with(nodes, from)->0.related.contains(to) || node_with(
        nodes,
        from,
    )->0.depends_on.contains(to))
}

/// Whether an id can be reached from the root in at most so many steps, each from an item
/// of the scope to one that it names.
pub open spec fn within(
    nodes: Seq<NodeView>,
    scope: ScopeFilter,
    root: Seq<char>,
    id: Seq<char>,
    far: nat,
) -> bool
    decreases far,
{
    id == root || (far > 0 && (within(nodes, scope, root, id, (far - 1) as nat) || exists|
        mid: Seq<char>,
    |
        within(nodes, scope, root, mid, (far - 1) as nat) && goes_on(nodes, scope, mid)
            && #[trigger] names(nodes, mid, id)))
}

/// Whether an id is not of an item outside the scope. An id that the board does not have
/// is kept, to be reported.
pub open spec fn may_be_written(nodes: Seq<NodeView>, scope: ScopeFilter, id: Seq<char>) -> bool {
    node_with(nodes, id) matches Some(node) ==> in_scope(scope, node.item_type)
}

/// Whether an id is of the web of an item: it is the item itself, or it can be reached
/// from it within the depth and is not outside the scope.
pub open spec fn in_web(
    nodes: Seq<NodeView>,
    scope: ScopeFilter,
    root: Seq<char>,
    depth: nat,
    id: Seq<char>,
) -> bool {
    id == root || (within(nodes, scope, root, id, depth) && may_be_written(nodes, scope, id))
}

/// Whether ids are those of the web of an item, sorted and each once.
pub open spec fn is_web(
    ids: Seq<Seq<char>>,
    nodes: Seq<NodeView>,
    scope: ScopeFilter,
    root: Seq<char>,
    depth: nat,
) -> bool {
    &&& sorting::is_strictly_sorted(ids)
    &&& forall|s: Seq<char>| #[trigger]
        ids.contains(s) == in_web(nodes, scope, root, depth, s)
}

proof fn lemma_node_with(nodes: Seq<NodeView>, id: Seq<char>, i: int)
    requires
        0 <= i <= nodes.len(),
        forall|k: int| 0 <= k < i ==> (#[trigger] nodes[k]).id != id,
        i < nodes.len() ==> nodes[i].id == id,
    ensures
        node_with(nodes, id) == (if i < nodes.len() {
            Some(nodes[i])
        } else {
            None::<NodeView>
        }),
    decreases nodes.len(),
{
    if nodes.len() > 0 {
        let shorter = nodes.drop_last();
        assert forall|k: int| 0 <= k < shorter.len() implies shorter[k] == #[trigger] nodes[k] by {}
        if i < nodes.len() - 1 {
            lemma_node_with(shorter, id, i);
        } else {
            lemma_node_with(shorter, id, nodes.len() - 1);
        }
    }
}

fn find_node(nodes: &Vec<Node>, id: &str) -> (r: Option<usize>)
    ensures
        r is Some == node_with(node_views(nodes@), id@) is Some,
        r is Some ==> r->0 < nodes@.len() && nodes@[r->0 as int]@ == node_with(
            node_views(nodes@),
            id@,
        )->0 && nodes@[r->0 as int]@.id == id@,
{
    let ghost views = node_views(nodes@);
    let mut i: usize = 0;
    while i < nodes.len()
        invariant
            i <= nodes@.len(),
            views == node_views(nodes@),
            forall|k: int| 0 <= k < i ==> (#[trigger] views[k]).id != id@,
        decreases nodes@.len() - i,
    {
        assert(views[i as int] == nodes@[i as int]@);
        if text::same(nodes[i].id.as_str(), id) {
            proof {
                lemma_node_with(views, id@, i as int);
            }
            return Some(i);
        }
        i = i + 1;
    }
    proof {
        lemma_node_with(views, id@, i as int);
    }
    None
}

/// Where the walk leads from an item.
spec fn steps_from(node: NodeView, scope: ScopeFilter) -> Seq<Seq<char>> {
    if in_scope(scope, node.item_type) {
        node.related + node.depends_on
    } else {
        Seq::empty()
    }
}

/// Where the walk leads from every item, the first item last.
spec fn lists_spec(nodes: Seq<NodeView>, scope: ScopeFilter) -> Seq<(Seq<char>, Seq<Seq<char>>)> {
    Seq::new(
        nodes.len(),
        |i: int|
            (nodes[nodes.len() - 1 - i].id, steps_from(nodes[nodes.len() - 1 - i], scope)),
    )
}

/// The first place of an id, or the number of items.
proof fn lemma_first_place(nodes: Seq<NodeView>, id: Seq<char>) -> (i: int)
    ensures
        0 <= i <= nodes.len(),
        forall|k: int| 0 <= k < i ==> (#[trigger] nodes[k]).id != id,
        i < nodes.len() ==> nodes[i].id == id,
    decreases nodes.len(),
{
    if nodes.len() == 0 {
        0
    } else {
        let shorter = nodes.drop_last();
        let i = lemma_first_place(shorter, id);
        assert forall|k: int| 0 <= k < i implies (#[trigger] nodes[k]).id != id by {
            assert(shorter[k] == nodes[k]);
        }
        if i < shorter.len() {
            assert(shorter[i] == nodes[i]);
            i
        } else if nodes.last().id == id {
            nodes.len() - 1
        } else {
            nodes.len() as int
        }
    }
}

proof fn lemma_hop(nodes: Seq<NodeView>, scope: ScopeFilter, from: Seq<char>, to: Seq<char>)
    ensures
        traversal::hop(lists_spec(nodes, scope), from, to) == (goes_on(nodes, scope, from)
            && names(nodes, from, to)),
{
    let lists = lists_spec(nodes, scope);
    let n = nodes.len();
    let i = lemma_first_place(nodes, from);
    lemma_node_with(nodes, from, i);
    assert forall|k: int| n - i <= k < n implies (#[trigger] lists[k]).0 != from by {
        assert(nodes[n - 1 - k].id != from);
    }
    traversal::lemma_node_position(lists, from, n - i);
    if i < n {
        let node = nodes[i];
        assert(traversal::neighbors(lists, from) == steps_from(node, scope));
        let both = node.related + node.depends_on;
        if both.contains(to) {
            let k = choose|k: int| 0 <= k < both.len() && both[k] == to;
            if k < node.related.len() {
                assert(node.related[k] == to);
            } else {
                assert(node.depends_on[k - node.related.len()] == to);
            }
        }
        if node.related.contains(to) {
            let k = choose|k: int| 0 <= k < node.related.len() && node.related[k] == to;
            assert(both[k] == to);
        }
        if node.depends_on.contains(to) {
            let k = choose|k: int| 0 <= k < node.depends_on.len() && node.depends_on[k] == to;
            assert(both[node.related.len() + k] == to);
        }
    }
}

proof fn lemma_within(
    nodes: Seq<NodeView>,
    scope: ScopeFilter,
    root: Seq<char>,
    id: Seq<char>,
    far: nat,
)
    ensures
        traversal::within(lists_spec(nodes, scope), root, id, far) == within(
            nodes,
            scope,
            root,
            id,
            far,
        ),
    decreases far,
{
    let lists = lists_spec(nodes, scope);
    if far > 0 {
        let near = (far - 1) as nat;
        lemma_within(nodes, scope, root, id, near);
        if exists|a: Seq<char>|
            traversal::within(lists, root, a, near) && #[trigger] traversal::hop(lists, a, id) {
            let a = choose|a: Seq<char>|
                traversal::within(lists, root, a, near) && #[trigger] traversal::hop(lists, a, id);
            lemma_within(nodes, scope, root, a, near);
            lemma_hop(nodes, scope, a, id);
            assert(names(nodes, a, id));
        }
        if exists|mid: Seq<char>|
            within(nodes, scope, root, mid, near) && goes_on(nodes, scope, mid)
                && #[trigger] names(nodes, mid, id) {
            let mid = choose|mid: Seq<char>|
                within(nodes, scope, root, mid, near) && goes_on(nodes, scope, mid)
                    && #[trigger] names(nodes, mid, id);
            lemma_within(nodes, scope, root, mid, near);
            lemma_hop(nodes, scope, mid, id);
            assert(traversal::hop(lists, mid, id));
        }
    }
}

/// Where the walk leads from every item.
fn build_lists(nodes: &Vec<Node>, scope: ScopeFilter) -> (r: Vec<(String, Vec<String>)>)
    ensures
        traversal::adjacency_views(r@) == lists_spec(node_views(nodes@), scope),
{
    let ghost all = node_views(nodes@);
    let ghost lists = lists_spec(all, scope);
    let mut r: Vec<(String, Vec<String>)> = Vec::new();
    let mut i: usize = nodes.len();
    while i > 0
        invariant
            i <= nodes@.len(),
            all == node_views(nodes@),
            lists == lists_spec(all, scope),
            r@.len() == nodes@.len() - i,
            forall|k: int|
                0 <= k < r@.len() ==> (#[trigger] r@[k]).0@ == lists[k].0 && text::views(r@[k].1@)
                    == lists[k].1,
        decreases i,
    {
        i = i - 1;
        let node: &Node = &nodes[i];
        assert(all[i as int] == node@);
        let mut list: Vec<String> = Vec::new();
        if type_in_scope(scope, node.item_type.as_str()) {
            list = text::clone_strings(&node.related);
            let mut more: Vec<String> = text::clone_strings(&node.depends_on);
            list.append(&mut more);
        }
        assert(text::views(list@) =~= steps_from(node@, scope));
        r.push((node.id.clone(), list));
    }
    assert(traversal::adjacency_views(r@) =~= lists);
    r
}

fn id_may_be_written(nodes: &Vec<Node>, scope: ScopeFilter, id: &str) -> (r: bool)
    ensures
        r == may_be_written(node_views(nodes@), scope, id@),
{
    match find_node(nodes, id) {
        Some(i) => type_in_scope(scope, nodes[i].item_type.as_str()),
        None => true,
    }
}

/// The ids of an item and of those around it: what it is related to and depends on, what
/// these are, and so on up to a depth, as far as they are of the scope.
pub fn collect_web(nodes: &Vec<Node>, scope: ScopeFilter, root: &str, depth: u32) -> (r: Vec<String>)
    ensures
        is_web(text::views(r@), node_views(nodes@), scope, root@, depth as nat),
{
    let ghost all = node_views(nodes@);
    let lists: Vec<(String, Vec<String>)> = build_lists(nodes, scope);
    let found: Vec<TraversalNode> = traversal::bfs_with_adjacency(root, &lists, depth as usize);
    let ghost near = traversal::node_views(found@);
    let mut kept: Vec<String> = Vec::new();
    kept.push(text::owned(root));
    proof {
        traversal::law_search_finds_what_is_near(lists_spec(all, scope), root@, depth as nat);
        assert(text::views(kept@)[0] == root@);
    }
    let mut i: usize = 0;
    while i < found.len()
        invariant
            i <= found@.len(),
            all == node_views(nodes@),
            near == traversal::node_views(found@),
            text::views(kept@).contains(root@),
            forall|k: int|
                0 <= k < near.len() ==> near[k].1 <= depth && traversal::within(
                    lists_spec(all, scope),
                    root@,
                    (#[trigger] near[k]).0,
                    near[k].1,
                ),
            forall|k: int|
                0 <= k < kept@.len() ==> in_web(
                    all,
                    scope,
                    root@,
                    depth as nat,
                    (#[trigger] kept@[k])@,
                ),
            forall|k: int|
                0 <= k < i && may_be_written(all, scope, (#[trigger] near[k]).0) ==> text::views(
                    kept@,
                ).contains(near[k].0),
        decreases found@.len() - i,
    {
        assert(near[i as int].0 == found@[i as int].id@);
        if id_may_be_written(nodes, scope, found[i].id.as_str()) {
            let ghost before = text::views(kept@);
            proof {
                let x = near[i as int];
                traversal::law_near_stays_near(
                    lists_spec(all, scope),
                    root@,
                    x.0,
                    x.1,
                    depth as nat,
                );
                lemma_within(all, scope, root@, x.0, depth as nat);
            }
            kept.push(found[i].id.clone());
            proof {
                let now = text::views(kept@);
                assert(now =~= before.push(near[i as int].0));
                assert forall|x: Seq<char>| before.contains(x) implies now.contains(x) by {
                    let k = choose|k: int| 0 <= k < before.len() && before[k] == x;
                    assert(now[k] == x);
                }
                assert(now[before.len() as int] == near[i as int].0);
            }
        }
        i = i + 1;
    }
    let r: Vec<String> = sorting::sort_and_dedup(&kept);
    proof {
        let ids = text::views(r@);
        assert forall|s: Seq<char>| #[trigger]
            ids.contains(s) == in_web(all, scope, root@, depth as nat, s) by {
            let views = text::views(kept@);
            if views.contains(s) {
                let k = choose|k: int| 0 <= k < views.len() && views[k] == s;
                assert(kept@[k]@ == s);
            }
            if in_web(all, scope, root@, depth as nat, s) && s != root@ {
                lemma_within(all, scope, root@, s, depth as nat);
                assert(traversal::finds(near, s));
                let k = choose|k: int| 0 <= k < near.len() && (#[trigger] near[k]).0 == s;
                assert(views.contains(near[k].0));
            }
        }
    }
    r
}

// ---- the record ------------------------------------------------------------------------------------

pub open spec fn with_lines(s: Seq<char>, lines: Seq<Seq<char>>, n: nat) -> Seq<char>
    decreases n,
{
    if n == 0 {
        s
    } else {
        with_lines(s, lines, (n - 1) as nat) + lines[n - 1] + "\n"@
    }
}

/// The record of what was written.
pub open spec fn manifest_spec(
    root: Seq<char>,
    scope: Seq<char>,
    depth: nat,
    out_dir: Seq<char>,
    written: Seq<Seq<char>>,
    errors: Seq<Seq<char>>,
) -> Seq<char> {
    let head = "Materialized "@ + text::decimal_spec(written.len()) + " items to "@ + out_dir
        + "\n\nRoot: "@ + root + "\nScope: "@ + scope + "\nDepth: "@ + text::decimal_spec(depth)
        + "\n\nFiles written:\n"@;
    let listed = with_lines(head, written, written.len());
    if errors.len() == 0 {
        listed
    } else {
        with_lines(listed + "\nErrors:\n"@, errors, errors.len())
    }
}

fn push_lines(s: String, lines: &Vec<String>) -> (r: String)
    ensures
        r@ == with_lines(s@, text::views(lines@), lines@.len()),
{
    let ghost first = s@;
    let ghost all = text::views(lines@);
    let mut r: String = s;
    let mut i: usize = 0;
    while i < lines.len()
        invariant
            i <= lines@.len(),
            all == text::views(lines@),
            r@ == with_lines(first, all, i as nat),
        decreases lines@.len() - i,
    {
        assert(all[i as int] == lines@[i as int]@);
        r.append(lines[i].as_str());
        r.append("\n");
        i = i + 1;
    }
    r
}

/// The record of what was written.
pub fn manifest(
    root: &str,
    scope: &str,
    depth: u32,
    out_dir: &str,
    written: &Vec<String>,
    errors: &Vec<String>,
) -> (r: String)
    ensures
        r@ == manifest_spec(
            root@,
            scope@,
            depth as nat,
            out_dir@,
            text::views(written@),
            text::views(errors@),
        ),
{
    let mut s: String = text::owned("Materialized ");
    let count: String = text::decimal(written.len());
    s.append(count.as_str());
    s.append(" items to ");
    s.append(out_dir);
    s.append("\n\nRoot: ");
    s.append(root);
    s.append("\nScope: ");
    s.append(scope);
    s.append("\nDepth: ");
    let far: String = text::decimal_u64(depth as u64);
    s.append(far.as_str());
    s.append("\n\nFiles written:\n");
    let mut listed: String = push_lines(s, written);
    if errors.len() == 0 {
        return listed;
    }
    listed.append("\nErrors:\n");
    push_lines(listed, errors)
}

/// The line for an item that was written.
pub fn written_line(id: &str, path: &str) -> (r: String)
    ensures
        r@ == "  "@ + id@ + " → "@ + path@,
{
    let mut r: String = text::owned("  ");
    r.append(id);
    r.append(" → ");
    r.append(path);
    r
}

/// The line for an item that the board does not have.
pub fn missing_line(id: &str) -> (r: String)
    ensures
        r@ == "  ERROR: "@ + id@ + " not found in Arrow store"@,
{
    let mut r: String = text::owned("  ERROR: ");
    r.append(id);
    r.append(" not found in Arrow store");
    r
}

/// The line for an item that could not be written.
pub fn failed_line(id: &str, error: &str) -> (r: String)
    ensures
        r@ == "  ERROR writing "@ + id@ + ": "@ + error@,
{
    let mut r: String = text::owned("  ERROR writing ");
    r.append(id);
    r.append(": ");
    r.append(error);
    r
}

// ---- what holds of the web ---------------------------------------------------------------------------

/// Whatever the scope and the depth, the web of an item holds the item itself.
pub proof fn law_web_has_the_root(
    ids: Seq<Seq<char>>,
    nodes: Seq<NodeView>,
    scope: ScopeFilter,
    root: Seq<char>,
    depth: nat,
)
    requires
        is_web(ids, nodes, scope, root, depth),
    ensures
        ids.contains(root),
{
    assert(in_web(nodes, scope, root, depth, root));
}

/// No item outside the scope is in the web of another.
pub proof fn law_web_stays_in_scope(
    ids: Seq<Seq<char>>,
    nodes: Seq<NodeView>,
    scope: ScopeFilter,
    root: Seq<char>,
    depth: nat,
    id: Seq<char>,
)
    requires
        is_web(ids, nodes, scope, root, depth),
        ids.contains(id),
        id != root,
        node_with(nodes, id) is Some,
    ensures
        in_scope(scope, node_with(nodes, id)->0.item_type),
{
    assert(in_web(nodes, scope, root, depth, id));
}

/// The web of all items holds what can be reached within the depth, all of it and nothing
/// else, by whichever way it is reached.
pub proof fn law_web_is_all_that_is_near(
    ids: Seq<Seq<char>>,
    nodes: Seq<NodeView>,
    root: Seq<char>,
    depth: nat,
    id: Seq<char>,
)
    requires
        is_web(ids, nodes, ScopeFilter::All, root, depth),
    ensures
        ids.contains(id) == within(nodes, ScopeFilter::All, root, id, depth),
{
    assert(ids.contains(id) == in_web(nodes, ScopeFilter::All, root, depth, id));
}

/// A greater depth takes nothing away.
pub proof fn law_web_grows(
    nodes: Seq<NodeView>,
    scope: ScopeFilter,
    root: Seq<char>,
    a: nat,
    b: nat,
    id: Seq<char>,
)
    requires
        a <= b,
        in_web(nodes, scope, root, a, id),
    ensures
        in_web(nodes, scope, root, b, id),
    decreases b - a,
{
    if a < b {
        assert(in_web(nodes, scope, root, a + 1, id));
        law_web_grows(nodes, scope, root, a + 1, b, id);
    }
}

// ---- webs, by the nodes themselves -------------------------------------------------------------------------

/// Whether a scope that is asked for by name takes items of a type in: `work` takes what
/// is built, `research` what is found out, and any other name everything.
pub open spec fn takes_in(name: Seq<char>, t: Seq<char>) -> bool {
    if name == "work"@ {
        t == "expedition"@ || t == "chore"@ || t == "voyage"@ || t == "hazard"@ || t == "signal"@
            || t == "feature"@
    } else if name == "research"@ {
        t == "paper"@ || t == "hypothesis"@ || t == "experiment"@ || t == "measure"@ || t
            == "literature"@ || t == "idea"@
    } else {
        true
    }
}

/// Whether the node at a place is the first with its id.
pub open spec fn is_first_with_id(nodes: Seq<NodeView>, i: int) -> bool {
    0 <= i < nodes.len() && forall|j: int| 0 <= j < i ==> (#[trigger] nodes[j]).id != nodes[i].id
}

proof fn lemma_first_node(nodes: Seq<NodeView>, id: Seq<char>)
    ensures
        node_with(nodes, id) is Some ==> exists|i: int| #[trigger]
            is_first_with_id(nodes, i) && nodes[i].id == id && node_with(nodes, id) == Some(
                nodes[i],
            ),
        node_with(nodes, id) is None ==> forall|i: int|
            0 <= i < nodes.len() ==> (#[trigger] nodes[i]).id != id,
    decreases nodes.len(),
{
    if nodes.len() > 0 {
        let init = nodes.drop_last();
        lemma_first_node(init, id);
        if node_with(init, id) is Some {
            let i = choose|i: int| #[trigger]
                is_first_with_id(init, i) && init[i].id == id && node_with(init, id) == Some(
                    init[i],
                );
            assert forall|j: int| 0 <= j < i implies (#[trigger] nodes[j]).id != nodes[i].id by {
                assert(init[j].id != init[i].id);
            }
            assert(is_first_with_id(nodes, i) && nodes[i].id == id);
        } else {
            assert forall|j: int| 0 <= j < nodes.len() - 1 implies (#[trigger] nodes[j]).id
                != id by {
                assert(init[j].id != id);
            }
            if nodes.last().id == id {
                assert(is_first_with_id(nodes, nodes.len() - 1));
            }
        }
    }
}

proof fn lemma_node_at(nodes: Seq<NodeView>, i: int)
    requires
        is_first_with_id(nodes, i),
    ensures
        node_with(nodes, nodes[i].id) == Some(nodes[i]),
{
    lemma_first_node(nodes, nodes[i].id);
    let k = choose|k: int| #[trigger]
        is_first_with_id(nodes, k) && nodes[k].id == nodes[i].id && node_with(nodes, nodes[i].id)
            == Some(nodes[k]);
    if k < i {
        assert(nodes[k].id != nodes[i].id);
    } else if i < k {
        assert(nodes[i].id != nodes[k].id);
    }
}

proof fn lemma_takes_in(name: Seq<char>, t: Seq<char>)
    ensures
        in_scope(scope_spec(name), t) == takes_in(name, t),
{
}

/// A web of depth zero is its root alone.
pub proof fn law_no_depth_is_the_root_alone(
    ids: Seq<Seq<char>>,
    nodes: Seq<NodeView>,
    scope: ScopeFilter,
    root: Seq<char>,
    id: Seq<char>,
)
    requires
        is_web(ids, nodes, scope, root, 0),
    ensures
        ids.contains(id) == (id == root),
{
}

/// Whether some node of a web that the scope takes in has an id among what it is related
/// to or depends on.
pub open spec fn is_named_in(
    ids: Seq<Seq<char>>,
    nodes: Seq<NodeView>,
    name: Seq<char>,
    id: Seq<char>,
) -> bool {
    exists|i: int| #[trigger]
        is_first_with_id(nodes, i) && ids.contains(nodes[i].id) && takes_in(
            name,
            nodes[i].item_type,
        ) && (nodes[i].related.contains(id) || nodes[i].depends_on.contains(id))
}

/// With one more step a web has, besides what it had, what its nodes of the scope are
/// related to or depend on, but for nodes that the scope does not take in.
pub proof fn law_each_step_adds_what_is_named(
    near: Seq<Seq<char>>,
    far: Seq<Seq<char>>,
    nodes: Seq<NodeView>,
    name: Seq<char>,
    root: Seq<char>,
    depth: nat,
    id: Seq<char>,
)
    requires
        is_web(near, nodes, scope_spec(name), root, depth),
        is_web(far, nodes, scope_spec(name), root, depth + 1),
    ensures
        far.contains(id) == (near.contains(id) || (is_named_in(near, nodes, name, id) && forall|
            i: int,
        | #[trigger]
            is_first_with_id(nodes, i) && nodes[i].id == id ==> takes_in(name, nodes[i].item_type))),
{
    let scope = scope_spec(name);
    lemma_first_node(nodes, id);
    assert(may_be_written(nodes, scope, id) == forall|i: int| #[trigger]
        is_first_with_id(nodes, i) && nodes[i].id == id ==> takes_in(name, nodes[i].item_type)) by {
        assert forall|i: int| #[trigger]
            is_first_with_id(nodes, i) && nodes[i].id == id implies node_with(nodes, id) == Some(
            nodes[i],
        ) by {
            lemma_node_at(nodes, i);
        }
    }
    if is_named_in(near, nodes, name, id) {
        let i = choose|i: int| #[trigger]
            is_first_with_id(nodes, i) && near.contains(nodes[i].id) && takes_in(
                name,
                nodes[i].item_type,
            ) && (nodes[i].related.contains(id) || nodes[i].depends_on.contains(id));
        lemma_node_at(nodes, i);
        assert(in_web(nodes, scope, root, depth, nodes[i].id));
        assert(within(nodes, scope, root, nodes[i].id, depth));
        assert(names(nodes, nodes[i].id, id) && goes_on(nodes, scope, nodes[i].id));
    }
    if within(nodes, scope, root, id, depth + 1) && !within(nodes, scope, root, id, depth) {
        let mid = choose|mid: Seq<char>|
            within(nodes, scope, root, mid, depth) && goes_on(nodes, scope, mid)
                && #[trigger] names(nodes, mid, id);
        lemma_first_node(nodes, mid);
        let i = choose|i: int| #[trigger]
            is_first_with_id(nodes, i) && nodes[i].id == mid && node_with(nodes, mid) == Some(
                nodes[i],
            );
        assert(in_web(nodes, scope, root, depth, mid));
        assert(near.contains(mid));
        assert(is_named_in(near, nodes, name, id));
    }
    assert(far.contains(id) == in_web(nodes, scope, root, depth + 1, id));
    assert(near.contains(id) == in_web(nodes, scope, root, depth, id));
}

/// The manifest counts the files that were written, and has the line of each file and of
/// each error in it.
pub proof fn law_manifests_list_every_line(
    root: Seq<char>,
    scope: Seq<char>,
    depth: nat,
    out_dir: Seq<char>,
    written: Seq<Seq<char>>,
    errors: Seq<Seq<char>>,
    i: int,
)
    ensures
        ("Materialized "@ + text::decimal_spec(written.len()) + " items to "@
            + out_dir).is_prefix_of(manifest_spec(root, scope, depth, out_dir, written, errors)),
        0 <= i < written.len() ==> text::contains_spec(
            manifest_spec(root, scope, depth, out_dir, written, errors),
            written[i],
        ),
        0 <= i < errors.len() ==> text::contains_spec(
            manifest_spec(root, scope, depth, out_dir, written, errors),
            errors[i],
        ),
{
    let start = "Materialized "@ + text::decimal_spec(written.len()) + " items to "@ + out_dir;
    let head = start + "\n\nRoot: "@ + root + "\nScope: "@ + scope + "\nDepth: "@
        + text::decimal_spec(depth) + "\n\nFiles written:\n"@;
    let whole = manifest_spec(root, scope, depth, out_dir, written, errors);
    let listed = with_lines(head, written, written.len());
    lemma_lines(head, written, written.len(), i);
    assert(start.is_prefix_of(head));
    if errors.len() > 0 {
        let more = listed + "\nErrors:\n"@;
        lemma_lines(more, errors, errors.len(), i);
        assert(listed.is_prefix_of(more));
        assert(listed.is_prefix_of(whole));
        if 0 <= i < written.len() {
            lemma_contains_in_prefix(listed, whole, written[i]);
        }
    }
}

proof fn lemma_contains_in_prefix(a: Seq<char>, b: Seq<char>, s: Seq<char>)
    requires
        a.is_prefix_of(b),
        text::contains_spec(a, s),
    ensures
        text::contains_spec(b, s),
{
    let k = choose|k: int| text::occurs_at(a, s, k);
    assert(b.subrange(k, k + s.len()) =~= a.subrange(k, k + s.len()));
    assert(text::occurs_at(b, s, k));
}

proof fn lemma_lines(s: Seq<char>, lines: Seq<Seq<char>>, n: nat, i: int)
    requires
        n <= lines.len(),
    ensures
        s.is_prefix_of(with_lines(s, lines, n)),
        0 <= i < n ==> text::contains_spec(with_lines(s, lines, n), lines[i]),
    decreases n,
{
    if n > 0 {
        let before = with_lines(s, lines, (n - 1) as nat);
        let all = with_lines(s, lines, n);
        lemma_lines(s, lines, (n - 1) as nat, i);
        assert(before.is_prefix_of(all));
        if i == n - 1 {
            let k = before.len() as int;
            assert(all.subrange(k, k + lines[i].len()) =~= lines[i]);
            assert(text::occurs_at(all, lines[i], k));
        } else if 0 <= i < n {
            lemma_contains_in_prefix(before, all, lines[i]);
        }
    }
}

} // verus!
