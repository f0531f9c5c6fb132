//! Values kept under text keys, in the order they were put in.
use vstd::prelude::*;
use crate::text;

verus! {

/// What a list of keyed values holds.
pub open spec fn pairs<V>(list: Seq<(String, V)>) -> Seq<(Seq<char>, V)> {
    Seq::new(list.len(), |i: int| (list[i].0@, list[i].1))
}

/// The value under a key. Where a key was put in more than once, the last value
/// counts.
pub open spec fn lookup_spec<V>(list: Seq<(Seq<char>, V)>, key: Seq<char>) -> Option<V>
    decreases list.len(),
{
    if list.len() == 0 {
        None
    } else if list.last().0 == key {
        Some(list.last().1)
    } else {
        lookup_spec(list.drop_last(), key)
    }
}

/// The value at the last position that holds a key is the value under it.
pub proof fn lemma_lookup<V>(list: Seq<(Seq<char>, V)>, key: Seq<char>, i: int)
    requires
        0 <= i <= list.len(),
        forall|k: int| i <= k < list.len() ==> (#[trigger] list[k]).0 != key,
        i > 0 ==> list[i - 1].0 == key,
    ensures
        lookup_spec(list, key) == (if i > 0 {
            Some(list[i - 1].1)
        } else {
            None::<V>
        }),
    decreases list.len(),
{
    if list.len() > 0 && i < list.len() {
        assert(list[list.len() - 1].0 != key);
        lemma_lookup(list.drop_last(), key, i);
    }
}

pub fn lookup<'a, V>(list: &'a Vec<(String, V)>, key: &str) -> (r: Option<&'a V>)
    ensures
        r is Some == lookup_spec(pairs(list@), key@) is Some,
        r is Some ==> *r->0 == lookup_spec(pairs(list@), key@)->0,
{
    let mut i: usize = list.len();
    while i > 0
        invariant
            i <= list@.len(),
            forall|k: int| i <= k < list@.len() ==> (#[trigger] pairs(list@)[k]).0 != key@,
        decreases i,
    {
        if text::same(list[i - 1].0.as_str(), key) {
            proof {
                lemma_lookup(pairs(list@), key@, i as int);
            }
            return Some(&list[i - 1].1);
        }
        i = i - 1;
    }
    proof {
        lemma_lookup(pairs(list@), key@, 0);
    }
    None
}

} // verus!
