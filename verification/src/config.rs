//! What a deployment says of its boards: their states, limits and exemptions.
use vstd::prelude::*;
use crate::keyed;
use crate::text;

verus! {

/// A board.
#[derive(Debug)]
pub struct BoardConfig {
    pub name: String,
    /// The theme that names the kinds of work.
    pub preset: String,
    pub path: String,
    pub scan_paths: Vec<String>,
    pub ignore: Vec<String>,
    /// The types that limits do not count for.
    pub wip_exempt_types: Vec<String>,
    /// How many items may be in each category of states at a time.
    pub wip_limits: Vec<(String, u32)>,
    /// The states, in the order that items go through them.
    pub states: Vec<String>,
    pub phases: Vec<String>,
    /// The states of the types that have a lifecycle of their own.
    pub type_states: Vec<(String, Vec<String>)>,
}

impl BoardConfig {
    /// The lifecycle of a type, if it has one of its own.
    pub open spec fn lifecycle(&self, item_type: Seq<char>) -> Option<Seq<Seq<char>>> {
        match keyed::lookup_spec(keyed::pairs(self.type_states@), item_type) {
            Some(states) => Some(text::views(states@)),
            None => None,
        }
    }

    /// The states that items of a type go through: those of its own lifecycle, or else
    /// those of the board.
    pub open spec fn states_of(&self, item_type: Option<Seq<char>>) -> Seq<Seq<char>> {
        match item_type {
            Some(t) => match self.lifecycle(t) {
                Some(states) => states,
                None => text::views(self.states@),
            },
            None => text::views(self.states@),
        }
    }

    /// The states that items of a type go through.
    pub fn states_for_type(&self, item_type: &str) -> (r: &Vec<String>)
        ensures
            text::views(r@) == self.states_of(Some(item_type@)),
    {
        match keyed::lookup(&self.type_states, item_type) {
            Some(states) => states,
            None => &self.states,
        }
    }

    /// Whether limits do not count for a type.
    pub fn is_wip_exempt(&self, item_type: &str) -> (r: bool)
        ensures
            r == text::views(self.wip_exempt_types@).contains(item_type@),
    {
        text::contains_string(&self.wip_exempt_types, item_type)
    }

    /// How many items may be in a category of states at a time.
    pub open spec fn limit(&self, category: Seq<char>) -> Option<u32> {
        keyed::lookup_spec(keyed::pairs(self.wip_limits@), category)
    }

    /// How many items may be in a category of states at a time, if there is a limit.
    pub fn wip_limit(&self, category: &str) -> (r: Option<u32>)
        ensures
            r == self.limit(category@),
    {
        match keyed::lookup(&self.wip_limits, category) {
            Some(limit) => Some(*limit),
            None => None,
        }
    }
}

/// Whether an entry of a list with keys is the last with its key, so that it counts.
pub open spec fn is_last_with_key<V>(list: Seq<(String, V)>, l: int, key: Seq<char>) -> bool {
    0 <= l < list.len() && list[l].0@ == key && forall|k: int|
        l < k < list.len() ==> (#[trigger] list[k]).0@ != key
}

proof fn lemma_last_with_key<V>(list: Seq<(String, V)>, key: Seq<char>, n: nat)
    requires
        n <= list.len(),
        forall|k: int| n <= k < list.len() ==> (#[trigger] list[k]).0@ != key,
    ensures
        (exists|l: int| is_last_with_key(list, l, key)) || forall|k: int|
            0 <= k < list.len() ==> (#[trigger] list[k]).0@ != key,
    decreases n,
{
    if n > 0 {
        if list[n - 1].0@ == key {
            assert(is_last_with_key(list, n - 1, key));
        } else {
            lemma_last_with_key(list, key, (n - 1) as nat);
        }
    }
}

/// A key stands for the value of its last entry, and for nothing where it has none.
pub proof fn law_the_last_entry_counts<V>(list: Seq<(String, V)>, key: Seq<char>)
    ensures
        forall|l: int| #[trigger]
            is_last_with_key(list, l, key) ==> keyed::lookup_spec(keyed::pairs(list), key) == Some(
                list[l].1,
            ),
        keyed::lookup_spec(keyed::pairs(list), key) matches Some(v) ==> exists|l: int| #[trigger]
            is_last_with_key(list, l, key) && list[l].1 == v,
{
    let all = keyed::pairs(list);
    assert forall|l: int| #[trigger] is_last_with_key(list, l, key) implies keyed::lookup_spec(
        all,
        key,
    ) == Some(list[l].1) by {
        assert forall|k: int| l < k < all.len() implies (#[trigger] all[k]).0 != key by {
            assert(list[k].0@ != key);
        }
        keyed::lemma_lookup(all, key, l + 1);
    }
    lemma_last_with_key(list, key, list.len());
    if forall|k: int| 0 <= k < list.len() ==> (#[trigger] list[k]).0@ != key {
        assert forall|k: int| 0 <= k < all.len() implies (#[trigger] all[k]).0 != key by {
            assert(list[k].0@ != key);
        }
        keyed::lemma_lookup(all, key, 0);
    } else {
        let l = choose|l: int| is_last_with_key(list, l, key);
        assert(is_last_with_key(list, l, key));
    }
}

/// The states of an item are those that its type has on the board, or else the board's.
pub proof fn law_states_are_the_types_or_the_boards(
    board: BoardConfig,
    item_type: Seq<char>,
    s: Seq<char>,
)
    ensures
        board.states_of(None) == text::views(board.states@),
        forall|l: int| #[trigger]
            is_last_with_key(board.type_states@, l, item_type) ==> board.states_of(Some(item_type))
                == text::views(board.type_states@[l].1@),
        (forall|k: int|
            0 <= k < board.type_states@.len() ==> (#[trigger] board.type_states@[k]).0@
                != item_type) ==> board.states_of(Some(item_type)) == text::views(board.states@),
{
    law_the_last_entry_counts(board.type_states@, item_type);
}

} // verus!
