//! Worklists: what each agent should work on next, and which agents can take an
//! item at all.
use vstd::prelude::*;
use vstd::string::StringExecFns;
use crate::columns;
use crate::columns::Table;
use crate::critical_path;
use crate::critical_path::CriticalPathResult;
use crate::critical_path::ItemInfo;
use crate::critical_path::ItemView;
use crate::items;
use crate::items::{ID, TAGS};
use crate::keyed;
use crate::sorting;
use crate::sorting::SortKey;
use crate::text;

verus! {

/// A recommendation for one agent.
#[derive(Debug)]
pub struct WorklistEntry {
    pub agent: String,
    pub items: Vec<WorklistItem>,
}

#[derive(Debug)]
pub struct WorklistItem {
    pub id: String,
    pub title: String,
    pub blocked: bool,
}

#[verifier::ext_equal]
pub struct RowView {
    pub id: Seq<char>,
    pub title: Seq<char>,
    pub blocked: bool,
}

#[verifier::ext_equal]
pub struct EntryView {
    pub agent: Seq<char>,
    pub items: Seq<RowView>,
}

impl View for WorklistItem {
    type V = RowView;

    open spec fn view(&self) -> RowView {
        RowView { id: self.id@, title: self.title@, blocked: self.blocked }
    }
}

pub open spec fn row_views(rows: Seq<WorklistItem>) -> Seq<RowView> {
    Seq::new(rows.len(), |i: int| rows[i]@)
}

impl View for WorklistEntry {
    type V = EntryView;

    open spec fn view(&self) -> EntryView {
        EntryView { agent: self.agent@, items: row_views(self.items@) }
    }
}

pub open spec fn entry_views(entries: Seq<WorklistEntry>) -> Seq<EntryView> {
    Seq::new(entries.len(), |i: int| entries[i]@)
}

// ---- the agents of a board ----------------------------------------------------------------

/// Whether a name stands for nobody.
pub open spec fn is_nobody(name: Seq<char>) -> bool {
    name.len() == 0 || name == "unassigned"@
}

/// The agents named as assignees of the first `n` items, without the white space
/// around their names.
pub open spec fn named_agents(items: Seq<ItemView>, n: nat) -> Seq<Seq<char>>
    decreases n,
{
    if n == 0 {
        Seq::empty()
    } else {
        let before = named_agents(items, (n - 1) as nat);
        let name = text::trim_spec(items[n - 1].assignee);
        if is_nobody(name) {
            before
        } else {
            before.push(name)
        }
    }
}

/// Whether a list is of the agents that items are assigned to, sorted, each once.
pub open spec fn is_roster(agents: Seq<Seq<char>>, items: Seq<ItemView>) -> bool {
    &&& sorting::is_strictly_sorted(agents)
    &&& forall|s: Seq<char>| #[trigger]
        agents.contains(s) == named_agents(items, items.len()).contains(s)
}

/// The agents that a board's items are assigned to, sorted, each once.
pub fn agents_from_items(items: &[ItemInfo]) -> (r: Vec<String>)
    ensures
        is_roster(text::views(r@), critical_path::item_views(items@)),
{
    let ghost all = critical_path::item_views(items@);
    let mut named: Vec<String> = Vec::new();
    let mut i: usize = 0;
    assert(text::views(named@) =~= named_agents(all, 0));
    while i < items.len()
        invariant
            i <= items@.len(),
            all == critical_path::item_views(items@),
            text::views(named@) == named_agents(all, i as nat),
        decreases items@.len() - i,
    {
        let name: String = text::trim(items[i].assignee.as_str());
        if !name.as_str().is_empty() && !text::same(name.as_str(), "unassigned") {
            let ghost before = text::views(named@);
            let ghost shown = name@;
            named.push(name);
            assert(text::views(named@) =~= before.push(shown));
        }
        i = i + 1;
    }
    sorting::sort_and_dedup(&named)
}

// ---- capabilities --------------------------------------------------------------------------

/// What a tag ends with that names a capability an item requires: the tag
/// `gpu-required` names the capability `gpu`.
pub const CAPABILITY_TAG_SUFFIX: &'static str = "-required";

/// Which capabilities the items require and which the agents provide.
///
/// Without any provider there is no constraint: every item can go to every agent.
#[derive(Debug, Clone)]
pub struct CapabilityRouting {
    pub item_requirements: Vec<(String, Vec<String>)>,
    pub agent_capabilities: Vec<(String, Vec<String>)>,
}

impl Default for CapabilityRouting {
    fn default() -> (r: Self)
        ensures
            r.item_requirements@.len() == 0,
            r.agent_capabilities@.len() == 0,
    {
        CapabilityRouting { item_requirements: Vec::new(), agent_capabilities: Vec::new() }
    }
}

/// Whether every string of the first list is in the second.
pub open spec fn all_provided(required: Seq<Seq<char>>, provided: Seq<Seq<char>>) -> bool {
    forall|i: int| 0 <= i < required.len() ==> provided.contains(#[trigger] required[i])
}

/// Whether an agent provides every capability that an item requires.
pub open spec fn can_take(routing: CapabilityRouting, item_id: Seq<char>, agent: Seq<char>) -> bool {
    if routing.agent_capabilities@.len() == 0 {
        true
    } else {
        match keyed::lookup_spec(keyed::pairs(routing.item_requirements@), item_id) {
            None => true,
            Some(required) => required@.len() == 0 || match keyed::lookup_spec(
                keyed::pairs(routing.agent_capabilities@),
                agent,
            ) {
                Some(provided) => all_provided(text::views(required@), text::views(provided@)),
                None => false,
            },
        }
    }
}

fn provides_all(required: &Vec<String>, provided: &Vec<String>) -> (r: bool)
    ensures
        r == all_provided(text::views(required@), text::views(provided@)),
{
    let mut i: usize = 0;
    while i < required.len()
        invariant
            i <= required@.len(),
            forall|k: int|
                0 <= k < i ==> text::views(provided@).contains(
                    #[trigger] text::views(required@)[k],
                ),
        decreases required@.len() - i,
    {
        if !text::contains_string(provided, required[i].as_str()) {
            assert(!text::views(provided@).contains(text::views(required@)[i as int]));
            return false;
        }
        i = i + 1;
    }
    true
}

impl CapabilityRouting {
    /// Whether an agent may be given an item: it provides every capability that the
    /// item requires, or no agent's capabilities are declared at all.
    pub fn agent_can_take(&self, item_id: &str, agent: &str) -> (r: bool)
        ensures
            r == can_take(*self, item_id@, agent@),
    {
        if self.agent_capabilities.len() == 0 {
            return true;
        }
        match keyed::lookup(&self.item_requirements, item_id) {
            None => true,
            Some(required) => {
                if required.len() == 0 {
                    return true;
                }
                match keyed::lookup(&self.agent_capabilities, agent) {
                    Some(provided) => provides_all(required, provided),
                    None => false,
                }
            },
        }
    }
}

/// The capability that a tag names, if it names one.
pub open spec fn capability_of(tag: Seq<char>) -> Option<Seq<char>> {
    let t = text::trim_spec(tag);
    if CAPABILITY_TAG_SUFFIX@.is_suffix_of(t) && t.len() > CAPABILITY_TAG_SUFFIX@.len() {
        Some(t.take(t.len() - CAPABILITY_TAG_SUFFIX@.len()))
    } else {
        None
    }
}

pub open spec fn capabilities_spec(tags: Seq<Seq<char>>) -> Seq<Seq<char>> {
    tags.filter_map(|t: Seq<char>| capability_of(t))
}

/// The capabilities that an item's tags require.
pub fn required_capabilities_from_tags(tags: &[String]) -> (r: Vec<String>)
    ensures
        text::views(r@) == capabilities_spec(text::views(tags@)),
{
    let ghost all = text::views(tags@);
    let ghost f = |t: Seq<char>| capability_of(t);
    let mut r: Vec<String> = Vec::new();
    let mut i: usize = 0;
    assert(text::views(r@) =~= all.take(0).filter_map(f));
    while i < tags.len()
        invariant
            i <= tags@.len(),
            all == text::views(tags@),
            f == (|t: Seq<char>| capability_of(t)),
            text::views(r@) == all.take(i as int).filter_map(f),
        decreases tags@.len() - i,
    {
        proof {
            all.lemma_filter_map_take_succ(f, i as int);
        }
        let ghost before = text::views(r@);
        let t: String = text::trim(tags[i].as_str());
        if text::ends_with(t.as_str(), CAPABILITY_TAG_SUFFIX) {
            let chars: Vec<char> = text::to_chars(t.as_str());
            let suffix: Vec<char> = text::to_chars(CAPABILITY_TAG_SUFFIX);
            if chars.len() > suffix.len() {
                let name: String = text::from_chars(&chars, 0, chars.len() - suffix.len());
                assert(name@ =~= t@.take(t@.len() - suffix@.len()));
                r.push(name);
                assert(text::views(r@) =~= before.push(name@));
            }
        }
        i = i + 1;
    }
    assert(all.take(i as int) =~= all);
    r
}

// ---- requirements of items --------------------------------------------------------------------

/// Whether a table has the columns that requirements are read from.
pub open spec fn is_tagged_table(table: Table) -> bool {
    columns::has_text(table, ID as int) && columns::has_text_lists(table, TAGS as int)
}

/// Whether a table has the columns that requirements are read from.
pub fn has_tag_columns(table: &Table) -> (r: bool)
    ensures
        r == is_tagged_table(*table),
{
    items::has_text_at(table, ID) && columns::is_text_lists(table, TAGS)
}

/// The capabilities that the item in a row requires.
pub open spec fn row_requirements(table: Table, row: int) -> Seq<Seq<char>> {
    capabilities_spec(columns::list_texts(columns::list_cell(table, TAGS as int, row)))
}

/// The requirements of the items in the first `n` rows that have any.
pub open spec fn table_requirements(table: Table, n: nat) -> Seq<(Seq<char>, Seq<Seq<char>>)>
    decreases n,
{
    if n == 0 {
        Seq::empty()
    } else {
        let before = table_requirements(table, (n - 1) as nat);
        let needed = row_requirements(table, n - 1);
        if needed.len() > 0 {
            before.push((columns::text_cell(table, ID as int, n - 1).value, needed))
        } else {
            before
        }
    }
}

/// The requirements of the items of the first `n` tables.
pub open spec fn requirements_spec(tables: Seq<Table>, n: nat) -> Seq<(Seq<char>, Seq<Seq<char>>)>
    decreases n,
{
    if n == 0 {
        Seq::empty()
    } else {
        requirements_spec(tables, (n - 1) as nat) + table_requirements(
            tables[n - 1],
            columns::table_rows(tables[n - 1]),
        )
    }
}

pub open spec fn requirement_views(list: Seq<(String, Vec<String>)>) -> Seq<
    (Seq<char>, Seq<Seq<char>>),
> {
    Seq::new(list.len(), |i: int| (list[i].0@, text::views(list[i].1@)))
}

fn push_requirements(list: &mut Vec<(String, Vec<String>)>, table: &Table)
    requires
        is_tagged_table(*table),
    ensures
        requirement_views(final(list)@) == requirement_views(old(list)@) + table_requirements(
            *table,
            columns::table_rows(*table),
        ),
{
    let ghost before = requirement_views(list@);
    let n: usize = columns::num_rows(table);
    let mut row: usize = 0;
    assert(requirement_views(list@) =~= before + table_requirements(*table, 0));
    while row < n
        invariant
            row <= n,
            n == columns::table_rows(*table),
            is_tagged_table(*table),
            requirement_views(list@) == before + table_requirements(*table, row as nat),
        decreases n - row,
    {
        assert(columns::readable_list(columns::list_cell(*table, TAGS as int, row as int)));
        let tags: Vec<String> = columns::extract_list_values(table, TAGS, row);
        let needed: Vec<String> = required_capabilities_from_tags(tags.as_slice());
        assert(text::views(needed@) == row_requirements(*table, row as int));
        assert(needed@.len() == text::views(needed@).len());
        if needed.len() > 0 {
            let ghost so_far = requirement_views(list@);
            let id: String = columns::text_value(table, ID, row);
            let ghost shown = (id@, text::views(needed@));
            list.push((id, needed));
            assert(requirement_views(list@) =~= so_far.push(shown));
            assert(requirement_views(list@) =~= before + table_requirements(
                *table,
                (row + 1) as nat,
            ));
        }
        row = row + 1;
    }
}

/// What the items of a board require of agents, by their tags.
pub fn item_requirements_from_batches(tables: &[Table]) -> (r: Vec<(String, Vec<String>)>)
    requires
        forall|t: int| 0 <= t < tables@.len() ==> is_tagged_table(#[trigger] tables@[t]),
    ensures
        requirement_views(r@) == requirements_spec(tables@, tables@.len()),
{
    let mut list: Vec<(String, Vec<String>)> = Vec::new();
    let mut t: usize = 0;
    assert(requirement_views(list@) =~= requirements_spec(tables@, 0));
    while t < tables.len()
        invariant
            t <= tables@.len(),
            forall|t: int| 0 <= t < tables@.len() ==> is_tagged_table(#[trigger] tables@[t]),
            requirement_views(list@) == requirements_spec(tables@, t as nat),
        decreases tables@.len() - t,
    {
        assert(is_tagged_table(tables@[t as int]));
        push_requirements(&mut list, &tables[t]);
        t = t + 1;
    }
    list
}

// ---- declared capabilities ---------------------------------------------------------------------

/// What a list of agents with their capabilities holds.
pub open spec fn capability_views(list: Seq<(String, Vec<String>)>) -> Seq<
    (Seq<char>, Seq<Seq<char>>),
> {
    Seq::new(list.len(), |i: int| (list[i].0@, text::views(list[i].1@)))
}

/// The strings between the separators, without the white space around them and
/// without the empty ones.
pub open spec fn parts_spec(s: Seq<char>, sep: char) -> Seq<Seq<char>> {
    text::split_spec(s, sep).filter_map(|part: Seq<char>| nonempty_trim(part))
}

pub open spec fn nonempty_trim(part: Seq<char>) -> Option<Seq<char>> {
    let t = text::trim_spec(part);
    if t.len() == 0 {
        None
    } else {
        Some(t)
    }
}

/// The strings between the separators, without the white space around them and
/// without the empty ones.
pub fn parts(s: &str, sep: char) -> (r: Vec<String>)
    ensures
        text::views(r@) == parts_spec(s@, sep),
{
    let pieces: Vec<String> = text::split(s, sep);
    let ghost all = text::split_spec(s@, sep);
    let ghost f = |part: Seq<char>| nonempty_trim(part);
    let mut r: Vec<String> = Vec::new();
    let mut i: usize = 0;
    assert(text::views(r@) =~= all.take(0).filter_map(f));
    while i < pieces.len()
        invariant
            i <= pieces@.len(),
            all == text::views(pieces@),
            f == (|part: Seq<char>| nonempty_trim(part)),
            text::views(r@) == all.take(i as int).filter_map(f),
        decreases pieces@.len() - i,
    {
        proof {
            all.lemma_filter_map_take_succ(f, i as int);
        }
        let ghost before = text::views(r@);
        let t: String = text::trim(pieces[i].as_str());
        assert(all[i as int] == pieces@[i as int]@);
        if !t.as_str().is_empty() {
            let ghost shown = t@;
            r.push(t);
            assert(text::views(r@) =~= before.push(shown));
        }
        i = i + 1;
    }
    assert(all.take(i as int) =~= all);
    r
}

/// A list with those of the first `n` further strings that it does not hold yet.
pub open spec fn add_new(list: Seq<Seq<char>>, more: Seq<Seq<char>>, n: nat) -> Seq<Seq<char>>
    decreases n,
{
    if n == 0 {
        list
    } else {
        let before = add_new(list, more, (n - 1) as nat);
        if before.contains(more[n - 1]) {
            before
        } else {
            before.push(more[n - 1])
        }
    }
}

fn push_new(list: &mut Vec<String>, more: &Vec<String>)
    ensures
        text::views(final(list)@) == add_new(
            text::views(old(list)@),
            text::views(more@),
            more@.len(),
        ),
{
    let ghost start = text::views(list@);
    let mut i: usize = 0;
    while i < more.len()
        invariant
            i <= more@.len(),
            text::views(list@) == add_new(start, text::views(more@), i as nat),
        decreases more@.len() - i,
    {
        if !text::contains_string(list, more[i].as_str()) {
            let ghost before = text::views(list@);
            list.push(more[i].clone());
            assert(text::views(list@) =~= before.push(text::views(more@)[i as int]));
        }
        i = i + 1;
    }
}

/// Where an agent stands in a list of agents.
pub open spec fn agent_position(list: Seq<(Seq<char>, Seq<Seq<char>>)>, agent: Seq<char>) -> Option<
    int,
>
    decreases list.len(),
{
    if list.len() == 0 {
        None
    } else if list.last().0 == agent {
        Some(list.len() - 1)
    } else {
        agent_position(list.drop_last(), agent)
    }
}

/// The list with further capabilities of an agent.
pub open spec fn declare(
    list: Seq<(Seq<char>, Seq<Seq<char>>)>,
    agent: Seq<char>,
    caps: Seq<Seq<char>>,
) -> Seq<(Seq<char>, Seq<Seq<char>>)> {
    match agent_position(list, agent) {
        Some(i) => list.update(i, (agent, add_new(list[i].1, caps, caps.len()))),
        None => list.push((agent, add_new(Seq::empty(), caps, caps.len()))),
    }
}

/// What the first `n` entries of a declaration declare: `agent=cap,cap`, an entry
/// without `=` nothing.
pub open spec fn declared(entries: Seq<Seq<char>>, n: nat) -> Seq<(Seq<char>, Seq<Seq<char>>)>
    decreases n,
{
    if n == 0 {
        Seq::empty()
    } else {
        let before = declared(entries, (n - 1) as nat);
        match text::split_once_spec(entries[n - 1], '=') {
            Some((agent, caps)) => declare(before, text::trim_spec(agent), parts_spec(caps, ',')),
            None => before,
        }
    }
}

proof fn lemma_agent_position(list: Seq<(Seq<char>, Seq<Seq<char>>)>, agent: Seq<char>, i: int)
    requires
        0 <= i <= list.len(),
        forall|k: int| i <= k < list.len() ==> (#[trigger] list[k]).0 != agent,
        i > 0 ==> list[i - 1].0 == agent,
    ensures
        agent_position(list, agent) == (if i > 0 {
            Some(i - 1)
        } else {
            None::<int>
        }),
    decreases list.len(),
{
    if list.len() > 0 && i < list.len() {
        assert(list[list.len() - 1].0 != agent);
        lemma_agent_position(list.drop_last(), agent, i);
    }
}

fn add_declaration(list: &mut Vec<(String, Vec<String>)>, agent: String, caps: &Vec<String>)
    ensures
        capability_views(final(list)@) == declare(
            capability_views(old(list)@),
            agent@,
            text::views(caps@),
        ),
{
    let ghost start = capability_views(list@);
    let mut i: usize = list.len();
    while i > 0 && !text::same(list[i - 1].0.as_str(), agent.as_str())
        invariant
            i <= list@.len(),
            start == capability_views(list@),
            forall|k: int| i <= k < start.len() ==> (#[trigger] start[k]).0 != agent@,
        decreases i,
    {
        i = i - 1;
    }
    proof {
        lemma_agent_position(start, agent@, i as int);
    }
    if i > 0 {
        let mut held: Vec<String> = text::clone_strings(&list[i - 1].1);
        push_new(&mut held, caps);
        let ghost now = (agent@, text::views(held@));
        list.set(i - 1, (agent, held));
        assert(capability_views(list@) =~= start.update(i - 1, now));
    } else {
        let mut held: Vec<String> = Vec::new();
        assert(text::views(held@) =~= Seq::<Seq<char>>::empty());
        push_new(&mut held, caps);
        let ghost now = (agent@, text::views(held@));
        list.push((agent, held));
        assert(capability_views(list@) =~= start.push(now));
    }
}

/// Reads a declaration of capabilities: `agent=cap,cap;agent=cap`. The capabilities
/// of an agent that is declared more than once add up.
pub fn parse_agent_capabilities(spec: &str) -> (r: Vec<(String, Vec<String>)>)
    ensures
        capability_views(r@) == declared(parts_spec(spec@, ';'), parts_spec(spec@, ';').len()),
{
    let entries: Vec<String> = parts(spec, ';');
    let ghost all = text::views(entries@);
    let mut r: Vec<(String, Vec<String>)> = Vec::new();
    let mut i: usize = 0;
    assert(capability_views(r@) =~= declared(all, 0));
    while i < entries.len()
        invariant
            i <= entries@.len(),
            all == text::views(entries@),
            capability_views(r@) == declared(all, i as nat),
        decreases entries@.len() - i,
    {
        match text::split_once(entries[i].as_str(), '=') {
            Some((agent, caps)) => {
                let name: String = text::trim(agent.as_str());
                let list: Vec<String> = parts(caps.as_str(), ',');
                add_declaration(&mut r, name, &list);
            },
            None => {},
        }
        i = i + 1;
    }
    r
}

// ---- what holds of declarations ------------------------------------------------------------------

/// Whether a list declares a capability of an agent.
pub open spec fn declares(
    list: Seq<(Seq<char>, Seq<Seq<char>>)>,
    agent: Seq<char>,
    cap: Seq<char>,
) -> bool {
    exists|i: int|
        0 <= i < list.len() && (#[trigger] list[i]).0 == agent && list[i].1.contains(cap)
}

/// Whether an entry of a declaration names a capability for an agent.
pub open spec fn entry_declares(entry: Seq<char>, agent: Seq<char>, cap: Seq<char>) -> bool {
    match text::split_once_spec(entry, '=') {
        Some((name, caps)) => text::trim_spec(name) == agent && parts_spec(caps, ',').contains(cap),
        None => false,
    }
}

proof fn lemma_add_new(list: Seq<Seq<char>>, more: Seq<Seq<char>>, n: nat, s: Seq<char>)
    requires
        n <= more.len(),
    ensures
        add_new(list, more, n).contains(s) == (list.contains(s) || more.take(n as int).contains(s)),
    decreases n,
{
    if n == 0 {
        assert(more.take(0).len() == 0);
    } else {
        lemma_add_new(list, more, (n - 1) as nat, s);
        lemma_add_new(list, more, (n - 1) as nat, more[n - 1]);
        let before = add_new(list, more, (n - 1) as nat);
        assert(more.take(n as int) =~= more.take(n - 1).push(more[n - 1]));
        vstd::seq_lib::lemma_seq_contains_after_push(more.take(n - 1), more[n - 1], s);
        vstd::seq_lib::lemma_seq_contains_after_push(before, more[n - 1], s);
    }
}

proof fn lemma_position_is(list: Seq<(Seq<char>, Seq<Seq<char>>)>, agent: Seq<char>)
    ensures
        match agent_position(list, agent) {
            Some(i) => 0 <= i < list.len() && list[i].0 == agent,
            None => forall|i: int| 0 <= i < list.len() ==> (#[trigger] list[i]).0 != agent,
        },
    decreases list.len(),
{
    if list.len() > 0 && list.last().0 != agent {
        let shorter = list.drop_last();
        lemma_position_is(shorter, agent);
        assert forall|i: int| 0 <= i < shorter.len() implies shorter[i] == #[trigger] list[i] by {}
    }
}

/// Whether a list names no agent twice.
pub open spec fn agents_distinct(list: Seq<(Seq<char>, Seq<Seq<char>>)>) -> bool {
    forall|i: int, j: int|
        0 <= i < j < list.len() ==> (#[trigger] list[i]).0 != (#[trigger] list[j]).0
}

proof fn lemma_declare(
    list: Seq<(Seq<char>, Seq<Seq<char>>)>,
    name: Seq<char>,
    caps: Seq<Seq<char>>,
    agent: Seq<char>,
    cap: Seq<char>,
)
    requires
        agents_distinct(list),
    ensures
        agents_distinct(declare(list, name, caps)),
        declares(declare(list, name, caps), agent, cap) == (declares(list, agent, cap) || (name
            == agent && caps.contains(cap))),
{
    let after = declare(list, name, caps);
    lemma_position_is(list, name);
    assert(caps.take(caps.len() as int) =~= caps);
    match agent_position(list, name) {
        Some(p) => {
            lemma_add_new(list[p].1, caps, caps.len(), cap);
            assert forall|i: int| 0 <= i < list.len() && i != p implies (#[trigger] list[i]).0
                != name by {
                if i < p {
                    assert(list[i].0 != list[p].0);
                } else {
                    assert(list[p].0 != list[i].0);
                }
            }
            assert forall|i: int, j: int| 0 <= i < j < after.len() implies (#[trigger] after[i]).0
                != (#[trigger] after[j]).0 by {
                assert(list[i].0 != list[j].0);
            }
            if declares(list, agent, cap) {
                let i = choose|i: int|
                    0 <= i < list.len() && (#[trigger] list[i]).0 == agent && list[i].1.contains(cap);
                assert(after[i].0 == agent && after[i].1.contains(cap));
            }
            if name == agent && caps.contains(cap) {
                assert(after[p].0 == agent && after[p].1.contains(cap));
            }
            if declares(after, agent, cap) {
                let i = choose|i: int|
                    0 <= i < after.len() && (#[trigger] after[i]).0 == agent
                        && after[i].1.contains(cap);
                if i != p {
                    assert(list[i].0 == agent && list[i].1.contains(cap));
                } else if list[p].1.contains(cap) {
                    assert(list[p].0 == agent);
                }
            }
        },
        None => {
            lemma_add_new(Seq::empty(), caps, caps.len(), cap);
            let last = after.len() - 1;
            assert forall|i: int, j: int| 0 <= i < j < after.len() implies (#[trigger] after[i]).0
                != (#[trigger] after[j]).0 by {
                assert(list[i].0 != name);
                if j < last {
                    assert(list[i].0 != list[j].0);
                }
            }
            if declares(list, agent, cap) {
                let i = choose|i: int|
                    0 <= i < list.len() && (#[trigger] list[i]).0 == agent && list[i].1.contains(cap);
                assert(after[i].0 == agent && after[i].1.contains(cap));
            }
            if name == agent && caps.contains(cap) {
                assert(after[last].0 == agent && after[last].1.contains(cap));
            }
            if declares(after, agent, cap) {
                let i = choose|i: int|
                    0 <= i < after.len() && (#[trigger] after[i]).0 == agent
                        && after[i].1.contains(cap);
                if i < last {
                    assert(list[i].0 == agent && list[i].1.contains(cap));
                }
            }
        },
    }
}

proof fn lemma_declared(entries: Seq<Seq<char>>, n: nat, agent: Seq<char>, cap: Seq<char>)
    requires
        n <= entries.len(),
    ensures
        agents_distinct(declared(entries, n)),
        declares(declared(entries, n), agent, cap) == exists|k: int|
            0 <= k < n && entry_declares(#[trigger] entries[k], agent, cap),
    decreases n,
{
    if n > 0 {
        lemma_declared(entries, (n - 1) as nat, agent, cap);
        let before = declared(entries, (n - 1) as nat);
        let last = entries[n - 1];
        match text::split_once_spec(last, '=') {
            Some((name, caps)) => {
                lemma_declare(before, text::trim_spec(name), parts_spec(caps, ','), agent, cap);
            },
            None => {},
        }
        assert(declares(declared(entries, n), agent, cap) == (declares(before, agent, cap)
            || entry_declares(last, agent, cap)));
        if declares(before, agent, cap) {
            let k = choose|k: int|
                0 <= k < n - 1 && entry_declares(#[trigger] entries[k], agent, cap);
            assert(entry_declares(entries[k], agent, cap));
        }
        if exists|k: int| 0 <= k < n && entry_declares(#[trigger] entries[k], agent, cap) {
            let k = choose|k: int| 0 <= k < n && entry_declares(#[trigger] entries[k], agent, cap);
            if k < n - 1 {
                assert(entry_declares(entries[k], agent, cap));
            }
        }
    }
}

/// An agent has every capability that any entry declares for it, and no other; no
/// agent is listed twice.
pub proof fn law_declarations_add_up(spec: Seq<char>, agent: Seq<char>, cap: Seq<char>)
    ensures
        ({
            let entries = parts_spec(spec, ';');
            let list = declared(entries, entries.len());
            &&& agents_distinct(list)
            &&& declares(list, agent, cap) == exists|k: int|
                0 <= k < entries.len() && entry_declares(#[trigger] entries[k], agent, cap)
        }),
{
    let entries = parts_spec(spec, ';');
    lemma_declared(entries, entries.len(), agent, cap);
}

/// Where no agent's capabilities are declared, every agent can take every item.
pub proof fn law_no_policy_no_constraint(
    routing: CapabilityRouting,
    item_id: Seq<char>,
    agent: Seq<char>,
)
    requires
        routing.agent_capabilities@.len() == 0,
    ensures
        can_take(routing, item_id, agent),
{
}

// ---- worklists ---------------------------------------------------------------------------------

/// The id of the item that an agent is working on: the last item in progress that
/// is assigned to it.
pub open spec fn current_work(items: Seq<ItemView>, agent: Seq<char>) -> Option<Seq<char>>
    decreases items.len(),
{
    if items.len() == 0 {
        None
    } else if items.last().status == "in_progress"@ && items.last().assignee != "-"@
        && items.last().assignee == agent {
        Some(items.last().id)
    } else {
        current_work(items.drop_last(), agent)
    }
}

/// Whether an item of the backlog can go to an agent: it is assigned to nobody else
/// and the agent provides what it requires.
pub open spec fn suits(
    items: Seq<ItemView>,
    routing: CapabilityRouting,
    agent: Seq<char>,
    id: Seq<char>,
) -> bool {
    match critical_path::item_of(items, id) {
        Some(item) => item.status == "backlog"@ && (item.assignee == "-"@ || item.assignee == agent)
            && can_take(routing, item.id, agent),
        None => false,
    }
}

/// The ids, among the first `n`, of items that suit an agent.
pub open spec fn suitable(
    items: Seq<ItemView>,
    routing: CapabilityRouting,
    agent: Seq<char>,
    list: Seq<Seq<char>>,
    n: nat,
) -> Seq<Seq<char>>
    decreases n,
{
    if n == 0 {
        Seq::empty()
    } else {
        let before = suitable(items, routing, agent, list, (n - 1) as nat);
        if suits(items, routing, agent, list[n - 1]) {
            before.push(list[n - 1])
        } else {
            before
        }
    }
}

/// What is urgent for an agent: its own items first, then by urgency, then what
/// most others wait for.
#[derive(Debug, Clone, Copy)]
pub struct AgentKey {
    pub others: bool,
    pub key: (u8, i32, i32),
    pub downstream: usize,
}

impl SortKey for AgentKey {
    type Model = AgentKey;

    open spec fn model(&self) -> AgentKey {
        *self
    }

    open spec fn precedes(a: AgentKey, b: AgentKey) -> bool {
        if a.others != b.others {
            !a.others
        } else if a.key != b.key {
            <(u8, i32, i32)>::precedes(a.key, b.key)
        } else {
            a.downstream >= b.downstream
        }
    }

    proof fn le_transitive(a: AgentKey, b: AgentKey, c: AgentKey) {
    }

    proof fn le_total(a: AgentKey, b: AgentKey) {
    }

    fn at_most(&self, other: &Self) -> (r: bool) {
        if self.others != other.others {
            !self.others
        } else if !(self.key.0 == other.key.0 && self.key.1 == other.key.1 && self.key.2
            == other.key.2) {
            self.key.at_most(&other.key)
        } else {
            self.downstream >= other.downstream
        }
    }
}

pub open spec fn agent_key_of(
    items: Seq<ItemView>,
    downstream: Seq<(Seq<char>, usize)>,
    agent: Seq<char>,
    id: Seq<char>,
) -> AgentKey {
    AgentKey {
        others: match critical_path::item_of(items, id) {
            Some(item) => item.assignee != agent,
            None => true,
        },
        key: critical_path::key_of(items, id),
        downstream: match keyed::lookup_spec(downstream, id) {
            Some(n) => n,
            None => 0,
        },
    }
}

pub open spec fn agent_keys(
    items: Seq<ItemView>,
    downstream: Seq<(Seq<char>, usize)>,
    agent: Seq<char>,
    list: Seq<Seq<char>>,
) -> Seq<AgentKey> {
    Seq::new(list.len(), |i: int| agent_key_of(items, downstream, agent, list[i]))
}

/// The ready items that suit an agent, most urgent first.
pub open spec fn available(
    items: Seq<ItemView>,
    routing: CapabilityRouting,
    downstream: Seq<(Seq<char>, usize)>,
    ready: Seq<Seq<char>>,
    agent: Seq<char>,
) -> Seq<Seq<char>> {
    let list = suitable(items, routing, agent, ready, ready.len());
    sorting::pick(
        list,
        sorting::stable_order::<AgentKey>(agent_keys(items, downstream, agent, list)),
    )
}

/// The row of an item in a worklist.
pub open spec fn row_of(items: Seq<ItemView>, id: Seq<char>, blocked: bool) -> RowView {
    RowView {
        id,
        title: critical_path::truncate_spec(critical_path::item_of(items, id)->0.title, 40),
        blocked,
    }
}

/// As many of the first rows as there is room for up to `limit` rows in all.
pub open spec fn fill(rows: Seq<RowView>, more: Seq<RowView>, limit: nat) -> Seq<RowView> {
    if rows.len() >= limit {
        rows
    } else if rows.len() + more.len() <= limit {
        rows + more
    } else {
        rows + more.take(limit - rows.len())
    }
}

/// The worklist of one agent: what it is working on, then what it can start, then
/// what will become ready.
pub open spec fn agent_rows(
    items: Seq<ItemView>,
    routing: CapabilityRouting,
    downstream: Seq<(Seq<char>, usize)>,
    ready: Seq<Seq<char>>,
    blocked: Seq<Seq<char>>,
    agent: Seq<char>,
    limit: nat,
) -> Seq<RowView> {
    let current = match current_work(items, agent) {
        Some(id) => seq![row_of(items, id, false)],
        None => Seq::empty(),
    };
    let can_start = available(items, routing, downstream, ready, agent);
    let later = suitable(items, routing, agent, blocked, blocked.len());
    fill(
        fill(
            current,
            Seq::new(
                can_start.len(),
                |i: int| row_of(items, can_start[i], blocked.contains(can_start[i])),
            ),
            limit,
        ),
        Seq::new(later.len(), |i: int| row_of(items, later[i], true)),
        limit,
    )
}

proof fn lemma_current_work(items: Seq<ItemView>, agent: Seq<char>, i: int)
    requires
        0 <= i <= items.len(),
        forall|k: int|
            i <= k < items.len() ==> !((#[trigger] items[k]).status == "in_progress"@
                && items[k].assignee != "-"@ && items[k].assignee == agent),
        i > 0 ==> items[i - 1].status == "in_progress"@ && items[i - 1].assignee != "-"@
            && items[i - 1].assignee == agent,
    ensures
        current_work(items, agent) == (if i > 0 {
            Some(items[i - 1].id)
        } else {
            None::<Seq<char>>
        }),
        i > 0 ==> critical_path::item_of(items, items[i - 1].id) is Some,
    decreases items.len(),
{
    if i > 0 {
        lemma_item_exists(items, i - 1);
    }
    if items.len() > 0 && i < items.len() {
        assert(!(items[items.len() - 1].status == "in_progress"@ && items[items.len() - 1].assignee
            != "-"@ && items[items.len() - 1].assignee == agent));
        lemma_current_work(items.drop_last(), agent, i);
    }
}

proof fn lemma_item_exists(items: Seq<ItemView>, i: int)
    requires
        0 <= i < items.len(),
    ensures
        critical_path::item_of(items, items[i].id) is Some,
    decreases items.len(),
{
    if items.last().id != items[i].id {
        lemma_item_exists(items.drop_last(), i);
    }
}

fn find_current(items: &[ItemInfo], agent: &str) -> (r: Option<usize>)
    ensures
        r is Some == current_work(critical_path::item_views(items@), agent@) is Some,
        r is Some ==> r->0 < items@.len() && items@[r->0 as int].id@ == current_work(
            critical_path::item_views(items@),
            agent@,
        )->0,
{
    let ghost all = critical_path::item_views(items@);
    let mut i: usize = items.len();
    while i > 0
        invariant
            i <= items@.len(),
            all == critical_path::item_views(items@),
            forall|k: int|
                i <= k < items@.len() ==> !((#[trigger] all[k]).status == "in_progress"@
                    && all[k].assignee != "-"@ && all[k].assignee == agent@),
        decreases i,
    {
        let item: &ItemInfo = &items[i - 1];
        if text::same(item.status.as_str(), "in_progress") && !text::same(
            item.assignee.as_str(),
            "-",
        ) && text::same(item.assignee.as_str(), agent) {
            proof {
                lemma_current_work(all, agent@, i as int);
            }
            return Some(i - 1);
        }
        i = i - 1;
    }
    proof {
        lemma_current_work(all, agent@, 0);
    }
    None
}

fn id_suits(items: &[ItemInfo], routing: &CapabilityRouting, agent: &str, id: &str) -> (r: bool)
    ensures
        r == suits(critical_path::item_views(items@), *routing, agent@, id@),
{
    match critical_path::find_item(items, id) {
        Some(i) => {
            let item: &ItemInfo = &items[i];
            text::same(item.status.as_str(), "backlog") && (text::same(item.assignee.as_str(), "-")
                || text::same(item.assignee.as_str(), agent)) && routing.agent_can_take(
                item.id.as_str(),
                agent,
            )
        },
        None => false,
    }
}

fn find_suitable(
    items: &[ItemInfo],
    routing: &CapabilityRouting,
    agent: &str,
    list: &Vec<String>,
) -> (r: Vec<String>)
    ensures
        text::views(r@) == suitable(
            critical_path::item_views(items@),
            *routing,
            agent@,
            text::views(list@),
            list@.len(),
        ),
        forall|k: int|
            0 <= k < r@.len() ==> suits(
                critical_path::item_views(items@),
                *routing,
                agent@,
                #[trigger] r@[k]@,
            ),
{
    let ghost all = critical_path::item_views(items@);
    let mut r: Vec<String> = Vec::new();
    let mut i: usize = 0;
    assert(text::views(r@) =~= suitable(all, *routing, agent@, text::views(list@), 0));
    while i < list.len()
        invariant
            i <= list@.len(),
            all == critical_path::item_views(items@),
            text::views(r@) == suitable(all, *routing, agent@, text::views(list@), i as nat),
            forall|k: int|
                0 <= k < r@.len() ==> suits(all, *routing, agent@, #[trigger] r@[k]@),
        decreases list@.len() - i,
    {
        if id_suits(items, routing, agent, list[i].as_str()) {
            let ghost before = text::views(r@);
            r.push(list[i].clone());
            assert(text::views(r@) =~= before.push(text::views(list@)[i as int]));
        }
        i = i + 1;
    }
    r
}

fn find_available(
    items: &[ItemInfo],
    cp: &CriticalPathResult,
    routing: &CapabilityRouting,
    agent: &str,
) -> (r: Vec<String>)
    ensures
        text::views(r@) == available(
            critical_path::item_views(items@),
            *routing,
            keyed::pairs(cp.downstream_count@),
            text::views(cp.ready@),
            agent@,
        ),
        forall|k: int|
            0 <= k < r@.len() ==> suits(
                critical_path::item_views(items@),
                *routing,
                agent@,
                #[trigger] r@[k]@,
            ),
{
    let ghost all = critical_path::item_views(items@);
    let ghost downstream = keyed::pairs(cp.downstream_count@);
    let list: Vec<String> = find_suitable(items, routing, agent, &cp.ready);
    let mut keys: Vec<AgentKey> = Vec::new();
    let mut i: usize = 0;
    while i < list.len()
        invariant
            i <= list@.len(),
            all == critical_path::item_views(items@),
            downstream == keyed::pairs(cp.downstream_count@),
            keys@.len() == i,
            forall|k: int|
                0 <= k < i ==> #[trigger] keys@[k] == agent_key_of(
                    all,
                    downstream,
                    agent@,
                    list@[k]@,
                ),
        decreases list@.len() - i,
    {
        let id: &str = list[i].as_str();
        let others: bool = match critical_path::find_item(items, id) {
            Some(k) => !text::same(items[k].assignee.as_str(), agent),
            None => true,
        };
        let count: usize = match keyed::lookup(&cp.downstream_count, id) {
            Some(n) => *n,
            None => 0,
        };
        keys.push(
            AgentKey { others, key: critical_path::key_of_id(items, id), downstream: count },
        );
        i = i + 1;
    }
    assert(sorting::models(keys@) =~= agent_keys(all, downstream, agent@, text::views(list@)));
    let order: Vec<usize> = sorting::sort_positions(&keys);
    let r: Vec<String> = sorting::pick_strings(&list, &order);
    assert(text::views(r@).len() == order@.len());
    assert forall|k: int| 0 <= k < r@.len() implies suits(
        all,
        *routing,
        agent@,
        #[trigger] r@[k]@,
    ) by {
        assert(order@[k] < list@.len());
        assert(text::views(r@)[k] == text::views(list@)[order@[k] as int]);
        assert(suits(all, *routing, agent@, list@[order@[k] as int]@));
    }
    r
}

fn make_row(items: &[ItemInfo], id: &str, blocked: bool) -> (r: WorklistItem)
    requires
        critical_path::item_of(critical_path::item_views(items@), id@) is Some,
    ensures
        r@ == row_of(critical_path::item_views(items@), id@, blocked),
{
    let title: String = match critical_path::find_item(items, id) {
        Some(i) => critical_path::truncate(items[i].title.as_str(), 40),
        None => String::new(),
    };
    WorklistItem { id: text::owned(id), title, blocked }
}

/// Adds rows of the listed items while there is room.
fn push_rows(
    items: &[ItemInfo],
    list: &Vec<String>,
    held: &Vec<String>,
    all_blocked: bool,
    limit: usize,
    rows: &mut Vec<WorklistItem>,
)
    requires
        forall|k: int|
            0 <= k < list@.len() ==> critical_path::item_of(
                critical_path::item_views(items@),
                #[trigger] list@[k]@,
            ) is Some,
    ensures
        row_views(final(rows)@) == fill(
            row_views(old(rows)@),
            Seq::new(
                list@.len(),
                |i: int|
                    row_of(
                        critical_path::item_views(items@),
                        text::views(list@)[i],
                        all_blocked || text::views(held@).contains(text::views(list@)[i]),
                    ),
            ),
            limit as nat,
        ),
{
    let ghost all = critical_path::item_views(items@);
    let ghost start = row_views(rows@);
    let ghost more = Seq::new(
        list@.len(),
        |i: int|
            row_of(
                all,
                text::views(list@)[i],
                all_blocked || text::views(held@).contains(text::views(list@)[i]),
            ),
    );
    let mut i: usize = 0;
    while i < list.len() && rows.len() < limit
        invariant
            i <= list@.len(),
            all == critical_path::item_views(items@),
            forall|k: int|
                0 <= k < list@.len() ==> critical_path::item_of(
                    all,
                    #[trigger] list@[k]@,
                ) is Some,
            more == Seq::new(
                list@.len(),
                |i: int|
                    row_of(
                        all,
                        text::views(list@)[i],
                        all_blocked || text::views(held@).contains(text::views(list@)[i]),
                    ),
            ),
            rows@.len() == start.len() + i,
            row_views(rows@) == start + more.take(i as int),
            start.len() >= limit ==> i == 0,
            start.len() < limit ==> start.len() + i <= limit,
        decreases list@.len() - i,
    {
        assert(critical_path::item_of(all, list@[i as int]@) is Some);
        let blocked: bool = all_blocked || text::contains_string(held, list[i].as_str());
        let row: WorklistItem = make_row(items, list[i].as_str(), blocked);
        let ghost shown = row@;
        assert(shown == more[i as int]);
        let ghost before = row_views(rows@);
        rows.push(row);
        assert(row_views(rows@) =~= before.push(shown));
        assert(more.take(i + 1) =~= more.take(i as int).push(shown));
        assert(row_views(rows@) =~= start + more.take(i + 1));
        i = i + 1;
    }
    assert(row_views(rows@) =~= fill(start, more, limit as nat));
}

/// What each agent should work on: what it has begun, the ready items that suit it
/// and, while there is room, the blocked ones.
pub fn generate_worklist(
    items: &[ItemInfo],
    cp: &CriticalPathResult,
    agents: &[String],
    routing: &CapabilityRouting,
    depth_limit: usize,
) -> (r: Vec<WorklistEntry>)
    ensures
        r@.len() == agents@.len(),
        forall|i: int|
            0 <= i < agents@.len() ==> (#[trigger] r@[i])@ == (EntryView {
                agent: agents@[i]@,
                items: agent_rows(
                    critical_path::item_views(items@),
                    *routing,
                    keyed::pairs(cp.downstream_count@),
                    text::views(cp.ready@),
                    text::views(cp.blocked@),
                    agents@[i]@,
                    depth_limit as nat,
                ),
            }),
{
    let ghost all = critical_path::item_views(items@);
    let mut r: Vec<WorklistEntry> = Vec::new();
    let mut a: usize = 0;
    while a < agents.len()
        invariant
            a <= agents@.len(),
            all == critical_path::item_views(items@),
            r@.len() == a,
            forall|i: int|
                0 <= i < a ==> (#[trigger] r@[i])@ == (EntryView {
                    agent: agents@[i]@,
                    items: agent_rows(
                        all,
                        *routing,
                        keyed::pairs(cp.downstream_count@),
                        text::views(cp.ready@),
                        text::views(cp.blocked@),
                        agents@[i]@,
                        depth_limit as nat,
                    ),
                }),
        decreases agents@.len() - a,
    {
        let agent: &str = agents[a].as_str();
        let mut rows: Vec<WorklistItem> = Vec::new();
        match find_current(items, agent) {
            Some(i) => {
                proof {
                    lemma_item_exists(all, i as int);
                }
                let row: WorklistItem = make_row(items, items[i].id.as_str(), false);
                let ghost shown = row@;
                rows.push(row);
                assert(row_views(rows@) =~= seq![shown]);
            },
            None => {
                assert(row_views(rows@) =~= Seq::<RowView>::empty());
            },
        }
        let can_start: Vec<String> = find_available(items, cp, routing, agent);
        push_rows(items, &can_start, &cp.blocked, false, depth_limit, &mut rows);
        let later: Vec<String> = find_suitable(items, routing, agent, &cp.blocked);
        let ghost half = row_views(rows@);
        push_rows(items, &later, &cp.blocked, true, depth_limit, &mut rows);
        proof {
            let ready_rows = Seq::new(
                can_start@.len(),
                |i: int|
                    row_of(
                        all,
                        text::views(can_start@)[i],
                        text::views(cp.blocked@).contains(text::views(can_start@)[i]),
                    ),
            );
            assert(ready_rows =~= Seq::new(
                can_start@.len(),
                |i: int|
                    row_of(
                        all,
                        text::views(can_start@)[i],
                        false || text::views(cp.blocked@).contains(text::views(can_start@)[i]),
                    ),
            ));
            assert(Seq::new(
                later@.len(),
                |i: int| row_of(all, text::views(later@)[i], true),
            ) =~= Seq::new(
                later@.len(),
                |i: int|
                    row_of(
                        all,
                        text::views(later@)[i],
                        true || text::views(cp.blocked@).contains(text::views(later@)[i]),
                    ),
            ));
        }
        r.push(WorklistEntry { agent: agents[a].clone(), items: rows });
        a = a + 1;
    }
    r
}

// ---- the worklist as text -------------------------------------------------------------------------

/// The cells of a row between bars.
pub open spec fn table_row(cells: Seq<Seq<char>>) -> Seq<char> {
    "| "@ + text::join_spec(cells, " | "@) + " |"@
}

fn make_table_row(cells: &Vec<String>) -> (r: String)
    ensures
        r@ == table_row(text::views(cells@)),
{
    let mut r: String = text::owned("| ");
    let body: String = text::join(cells, " | ");
    r.append(body.as_str());
    r.append(" |");
    r
}

pub open spec fn cell_spec(entry: EntryView, row: int) -> Seq<char> {
    if row < entry.items.len() {
        let item = entry.items[row];
        let cell = item.id + " "@ + critical_path::truncate_spec(item.title, 10) + (
        if item.blocked {
            " ~"@
        } else {
            ""@
        });
        text::pad_right_spec(critical_path::truncate_spec(cell, 24), 24)
    } else {
        text::repeat_spec(' ', 24)
    }
}

fn make_cell(entry: &WorklistEntry, row: usize) -> (r: String)
    ensures
        r@ == cell_spec(entry@, row as int),
{
    if row < entry.items.len() {
        let item: &WorklistItem = &entry.items[row];
        let mut cell: String = item.id.clone();
        cell.append(" ");
        let title: String = critical_path::truncate(item.title.as_str(), 10);
        cell.append(title.as_str());
        cell.append(if item.blocked { " ~" } else { "" });
        let short: String = critical_path::truncate(cell.as_str(), 24);
        text::pad_right(short.as_str(), 24)
    } else {
        text::repeat(' ', 24)
    }
}

/// The greatest number of rows among the first `n` entries.
pub open spec fn height(entries: Seq<EntryView>, n: nat) -> nat
    decreases n,
{
    if n == 0 {
        0
    } else {
        let before = height(entries, (n - 1) as nat);
        if entries[n - 1].items.len() > before {
            entries[n - 1].items.len()
        } else {
            before
        }
    }
}

pub open spec fn row_cells(entries: Seq<EntryView>, row: int) -> Seq<Seq<char>> {
    Seq::new(entries.len(), |i: int| cell_spec(entries[i], row))
}

pub open spec fn worklist_rows(entries: Seq<EntryView>) -> Seq<Seq<char>> {
    Seq::new(height(entries, entries.len()), |row: int| table_row(row_cells(entries, row)))
}

pub open spec fn worklist_spec(entries: Seq<EntryView>) -> Seq<char> {
    let headers = Seq::new(
        entries.len(),
        |i: int| text::pad_right_spec(entries[i].agent, 24),
    );
    let dividers = Seq::new(entries.len(), |i: int| text::repeat_spec('-', 24));
    text::join_spec(
        (seq![table_row(headers), table_row(dividers)] + worklist_rows(entries)).push(""@).push(
            "~ = blocked, will become ready after current work completes"@,
        ),
        "\n"@,
    )
}

/// The worklists as a table, one column for each agent.
pub fn format_worklist(entries: &[WorklistEntry]) -> (r: String)
    ensures
        r@ == worklist_spec(entry_views(entries@)),
{
    let ghost all = entry_views(entries@);
    let mut headers: Vec<String> = Vec::new();
    let mut dividers: Vec<String> = Vec::new();
    let mut max_rows: usize = 0;
    let mut i: usize = 0;
    while i < entries.len()
        invariant
            i <= entries@.len(),
            all == entry_views(entries@),
            headers@.len() == i,
            dividers@.len() == i,
            forall|k: int|
                0 <= k < i ==> (#[trigger] headers@[k])@ == text::pad_right_spec(all[k].agent, 24),
            forall|k: int| 0 <= k < i ==> (#[trigger] dividers@[k])@ == text::repeat_spec('-', 24),
            max_rows == height(all, i as nat),
        decreases entries@.len() - i,
    {
        headers.push(text::pad_right(entries[i].agent.as_str(), 24));
        dividers.push(text::repeat('-', 24));
        assert(all[i as int].items.len() == entries@[i as int].items@.len());
        if entries[i].items.len() > max_rows {
            max_rows = entries[i].items.len();
        }
        i = i + 1;
    }
    let ghost head_views = Seq::new(
        all.len(),
        |i: int| text::pad_right_spec(all[i].agent, 24),
    );
    let ghost divider_views = Seq::new(all.len(), |i: int| text::repeat_spec('-', 24));
    assert(text::views(headers@) =~= head_views);
    assert(text::views(dividers@) =~= divider_views);
    let mut lines: Vec<String> = Vec::new();
    lines.push(make_table_row(&headers));
    lines.push(make_table_row(&dividers));
    let ghost top = seq![table_row(head_views), table_row(divider_views)];
    assert(text::views(lines@) =~= top + worklist_rows(all).take(0));
    let mut row: usize = 0;
    while row < max_rows
        invariant
            row <= max_rows,
            all == entry_views(entries@),
            max_rows == height(all, all.len()),
            text::views(lines@) == top + worklist_rows(all).take(row as int),
        decreases max_rows - row,
    {
        let mut cells: Vec<String> = Vec::new();
        let mut k: usize = 0;
        while k < entries.len()
            invariant
                k <= entries@.len(),
                all == entry_views(entries@),
                cells@.len() == k,
                forall|j: int|
                    0 <= j < k ==> (#[trigger] cells@[j])@ == cell_spec(all[j], row as int),
            decreases entries@.len() - k,
        {
            cells.push(make_cell(&entries[k], row));
            k = k + 1;
        }
        assert(text::views(cells@) =~= row_cells(all, row as int));
        let ghost before = text::views(lines@);
        lines.push(make_table_row(&cells));
        assert(text::views(lines@) =~= before.push(worklist_rows(all)[row as int]));
        assert(text::views(lines@) =~= top + worklist_rows(all).take(row + 1));
        row = row + 1;
    }
    assert(worklist_rows(all).take(row as int) =~= worklist_rows(all));
    let ghost table = text::views(lines@);
    lines.push(text::owned(""));
    assert(text::views(lines@) =~= table.push(""@));
    let ghost spaced = text::views(lines@);
    lines.push(text::owned("~ = blocked, will become ready after current work completes"));
    assert(text::views(lines@) =~= spaced.push(
        "~ = blocked, will become ready after current work completes"@,
    ));
    text::join(&lines, "\n")
}

// ---- agents and their work, by the items ---------------------------------------------------------------------------

/// The agents of a board are those that some item is assigned to, by their trimmed names,
/// but for items that nobody is named for or that say `unassigned`.
pub proof fn law_agents_are_named_by_items(items: Seq<ItemView>, n: nat, agent: Seq<char>)
    requires
        n <= items.len(),
    ensures
        named_agents(items, n).contains(agent) <==> agent.len() > 0 && agent != "unassigned"@
            && exists|i: int|
            0 <= i < n && text::trim_spec((#[trigger] items[i]).assignee) == agent,
    decreases n,
{
    if n > 0 {
        let m = (n - 1) as nat;
        law_agents_are_named_by_items(items, m, agent);
        vstd::seq_lib::lemma_seq_contains_after_push(
            named_agents(items, m),
            text::trim_spec(items[n - 1].assignee),
            agent,
        );
    }
}

/// A tag requires a capability if and only if it is, trimmed, the name of the capability
/// and `-required`.
pub proof fn law_tags_require_capabilities(tag: Seq<char>, cap: Seq<char>)
    ensures
        capability_of(tag) == Some(cap) <==> cap.len() > 0 && text::trim_spec(tag) == cap
            + "-required"@,
{
    let t = text::trim_spec(tag);
    let suffix = "-required"@;
    if t == cap + suffix {
        assert(suffix.is_suffix_of(t));
        assert(t.take(t.len() - suffix.len()) =~= cap);
    }
    if suffix.is_suffix_of(t) {
        assert(t.take(t.len() - suffix.len()) + suffix =~= t);
    }
}

proof fn lemma_filter_map_has<B>(list: Seq<Seq<char>>, f: spec_fn(Seq<char>) -> Option<B>, x: B)
    ensures
        list.filter_map(f).contains(x) <==> exists|i: int|
            0 <= i < list.len() && f(#[trigger] list[i]) == Some(x),
    decreases list.len(),
{
    if list.len() > 0 {
        let init = list.drop_last();
        lemma_filter_map_has(init, f, x);
        if f(list.last()) is Some {
            vstd::seq_lib::lemma_seq_concat_contains_all_elements(
                init.filter_map(f),
                seq![f(list.last())->0],
                x,
            );
            assert(seq![f(list.last())->0].contains(x) <==> f(list.last())->0 == x) by {
                assert(seq![f(list.last())->0][0] == f(list.last())->0);
            }
        }
        if exists|i: int| 0 <= i < init.len() && f(#[trigger] init[i]) == Some(x) {
            let i = choose|i: int| 0 <= i < init.len() && f(#[trigger] init[i]) == Some(x);
            assert(f(list[i]) == Some(x));
        }
        if exists|i: int| 0 <= i < list.len() && f(#[trigger] list[i]) == Some(x) {
            let i = choose|i: int| 0 <= i < list.len() && f(#[trigger] list[i]) == Some(x);
            if i < init.len() {
                assert(f(init[i]) == Some(x));
            }
        }
        assert(f(list.last()) == Some(x) ==> f(list[list.len() - 1]) == Some(x));
    }
}

/// The capabilities that tags require are those of each of them.
pub proof fn law_every_tag_counts(tags: Seq<Seq<char>>, cap: Seq<char>)
    ensures
        capabilities_spec(tags).contains(cap) <==> cap.len() > 0 && exists|i: int|
            0 <= i < tags.len() && text::trim_spec(#[trigger] tags[i]) == cap + "-required"@,
{
    let f = |t: Seq<char>| capability_of(t);
    lemma_filter_map_has(tags, f, cap);
    assert forall|i: int| 0 <= i < tags.len() implies (f(#[trigger] tags[i]) == Some(cap)) == (
    cap.len() > 0 && text::trim_spec(tags[i]) == cap + "-required"@) by {
        law_tags_require_capabilities(tags[i], cap);
    }
    if capabilities_spec(tags).contains(cap) {
        let i = choose|i: int| 0 <= i < tags.len() && f(#[trigger] tags[i]) == Some(cap);
        assert(text::trim_spec(tags[i]) == cap + "-required"@);
    }
    if cap.len() > 0 && exists|i: int|
        0 <= i < tags.len() && text::trim_spec(#[trigger] tags[i]) == cap + "-required"@ {
        let i = choose|i: int|
            0 <= i < tags.len() && text::trim_spec(#[trigger] tags[i]) == cap + "-required"@;
        assert(f(tags[i]) == Some(cap));
    }
}

/// The parts of a list are what stands between the separators, trimmed, but for parts with
/// nothing in them.
pub proof fn law_parts_are_what_is_there(s: Seq<char>, sep: char, part: Seq<char>)
    ensures
        parts_spec(s, sep).contains(part) <==> part.len() > 0 && exists|i: int|
            0 <= i < text::split_spec(s, sep).len() && text::trim_spec(
                #[trigger] text::split_spec(s, sep)[i],
            ) == part,
{
    let pieces = text::split_spec(s, sep);
    let f = |piece: Seq<char>| nonempty_trim(piece);
    lemma_filter_map_has(pieces, f, part);
    if parts_spec(s, sep).contains(part) {
        let i = choose|i: int| 0 <= i < pieces.len() && f(#[trigger] pieces[i]) == Some(part);
        assert(text::trim_spec(pieces[i]) == part);
    }
    if part.len() > 0 && exists|i: int|
        0 <= i < pieces.len() && text::trim_spec(#[trigger] pieces[i]) == part {
        let i = choose|i: int|
            0 <= i < pieces.len() && text::trim_spec(#[trigger] pieces[i]) == part;
        assert(f(pieces[i]) == Some(part));
    }
}

proof fn lemma_table_requirements(table: Table, n: nat, x: (Seq<char>, Seq<Seq<char>>))
    requires
        n <= columns::table_rows(table),
    ensures
        table_requirements(table, n).contains(x) <==> exists|row: int|
            0 <= row < n && #[trigger] is_requirement_at(table, row, x),
    decreases n,
{
    if n > 0 {
        let m = (n - 1) as nat;
        lemma_table_requirements(table, m, x);
        let here = (
            columns::text_cell(table, ID as int, n - 1).value,
            row_requirements(table, n - 1),
        );
        vstd::seq_lib::lemma_seq_contains_after_push(table_requirements(table, m), here, x);
        assert((here.1.len() > 0 && here == x) == is_requirement_at(table, n - 1, x));
        if exists|row: int| 0 <= row < m && #[trigger] is_requirement_at(table, row, x) {
            let row = choose|row: int| 0 <= row < m && #[trigger] is_requirement_at(table, row, x);
            assert(0 <= row < n && is_requirement_at(table, row, x));
        }
    }
}

/// Whether a requirement is that of the item in a row: what its tags require, where they
/// require something.
pub open spec fn is_requirement_at(table: Table, row: int, x: (Seq<char>, Seq<Seq<char>>)) -> bool {
    &&& 0 <= row < columns::table_rows(table)
    &&& x.0 == columns::text_cell(table, ID as int, row).value
    &&& x.1 == capabilities_spec(
        columns::list_texts(columns::list_cell(table, TAGS as int, row)),
    )
    &&& x.1.len() > 0
}

/// The requirements of items are those of all rows whose tags require something.
pub proof fn law_requirements_are_those_of_the_rows(
    tables: Seq<Table>,
    n: nat,
    x: (Seq<char>, Seq<Seq<char>>),
)
    requires
        n <= tables.len(),
    ensures
        requirements_spec(tables, n).contains(x) <==> exists|t: int, row: int|
            0 <= t < n && #[trigger] is_requirement_at(tables[t], row, x),
    decreases n,
{
    if n > 0 {
        let m = (n - 1) as nat;
        law_requirements_are_those_of_the_rows(tables, m, x);
        let table = tables[n - 1];
        let here = table_requirements(table, columns::table_rows(table));
        lemma_table_requirements(table, columns::table_rows(table), x);
        vstd::seq_lib::lemma_seq_concat_contains_all_elements(requirements_spec(tables, m), here, x);
        if here.contains(x) {
            let row = choose|row: int|
                0 <= row < columns::table_rows(table) && #[trigger] is_requirement_at(table, row, x);
            assert(is_requirement_at(tables[n - 1], row, x));
        }
        if exists|t: int, row: int| 0 <= t < m && #[trigger] is_requirement_at(tables[t], row, x) {
            let (t, row) = choose|t: int, row: int|
                0 <= t < m && #[trigger] is_requirement_at(tables[t], row, x);
            assert(0 <= t < n && is_requirement_at(tables[t], row, x));
        }
    }
}

proof fn lemma_height(entries: Seq<EntryView>, n: nat, i: int)
    requires
        0 <= i < n <= entries.len(),
    ensures
        entries[i].items.len() <= height(entries, n),
    decreases n,
{
    if i < n - 1 {
        lemma_height(entries, (n - 1) as nat, i);
    }
}

/// A worklist shows the name of every agent and every item that the agent is given.
pub proof fn law_worklists_show_every_item(entries: Seq<EntryView>, i: int, row: int)
    requires
        0 <= i < entries.len(),
    ensures
        text::contains_spec(worklist_spec(entries), text::pad_right_spec(entries[i].agent, 24)),
        0 <= row < entries[i].items.len() ==> text::contains_spec(
            worklist_spec(entries),
            cell_spec(entries[i], row),
        ),
{
    let headers = Seq::new(
        entries.len(),
        |i: int| text::pad_right_spec(entries[i].agent, 24),
    );
    let dividers = Seq::new(entries.len(), |i: int| text::repeat_spec('-', 24));
    let head = seq![table_row(headers), table_row(dividers)];
    let rows = worklist_rows(entries);
    let lines = (head + rows).push(""@).push(
        "~ = blocked, will become ready after current work completes"@,
    );
    assert(lines[0] == table_row(headers));
    lemma_cell_shown(headers, i);
    text::law_joined_text_has_every_part(lines, "\n"@, 0);
    lemma_contains_through(worklist_spec(entries), table_row(headers), headers[i]);
    if 0 <= row < entries[i].items.len() {
        lemma_height(entries, entries.len(), i);
        let cells = row_cells(entries, row);
        assert(rows[row] == table_row(cells));
        assert(lines[2 + row] == rows[row]);
        lemma_cell_shown(cells, i);
        text::law_joined_text_has_every_part(lines, "\n"@, 2 + row);
        lemma_contains_through(worklist_spec(entries), table_row(cells), cells[i]);
    }
}

proof fn lemma_cell_shown(cells: Seq<Seq<char>>, i: int)
    requires
        0 <= i < cells.len(),
    ensures
        text::contains_spec(table_row(cells), cells[i]),
{
    text::law_joined_text_has_every_part(cells, " | "@, i);
    text::lemma_contains_in_part("| "@, text::join_spec(cells, " | "@), " |"@, cells[i]);
}

proof fn lemma_contains_through(a: Seq<char>, b: Seq<char>, c: Seq<char>)
    requires
        text::contains_spec(a, b),
        text::contains_spec(b, c),
    ensures
        text::contains_spec(a, c),
{
    let i = choose|i: int| text::occurs_at(a, b, i);
    text::lemma_contains_in_part(a.take(i), b, a.skip(i + b.len()), c);
    assert(a.take(i) + b + a.skip(i + b.len()) =~= a);
}

/// A roster has each agent that some item is assigned to, once.
pub proof fn law_rosters_have_each_agent_once(
    agents: Seq<Seq<char>>,
    items: Seq<ItemView>,
    agent: Seq<char>,
    i: int,
    j: int,
)
    requires
        is_roster(agents, items),
    ensures
        agents.contains(agent) <==> agent.len() > 0 && agent != "unassigned"@ && exists|k: int|
            0 <= k < items.len() && text::trim_spec((#[trigger] items[k]).assignee) == agent,
        0 <= i < j < agents.len() ==> text::lex_less(agents[i], agents[j]),
{
    law_agents_are_named_by_items(items, items.len(), agent);
}

} // verus!
