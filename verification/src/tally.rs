//! Counting how often each name occurs.
use vstd::prelude::*;
use crate::keyed;
use crate::sorting;
use crate::text;

verus! {

/// How often a name occurs among the first `n`.
pub open spec fn occurrences(names: Seq<Seq<char>>, name: Seq<char>, n: nat) -> nat
    decreases n,
{
    if n == 0 {
        0
    } else {
        occurrences(names, name, (n - 1) as nat) + if names[n - 1] == name {
            1nat
        } else {
            0
        }
    }
}

pub open spec fn keys<V>(list: Seq<(Seq<char>, V)>) -> Seq<Seq<char>> {
    Seq::new(list.len(), |i: int| list[i].0)
}

/// Whether a list counts names: it is sorted, holds each name once, and gives the
/// number of its occurrences.
pub open spec fn is_tally(list: Seq<(Seq<char>, usize)>, names: Seq<Seq<char>>) -> bool {
    &&& sorting::is_strictly_sorted(keys(list))
    &&& forall|s: Seq<char>| #[trigger] keys(list).contains(s) == names.contains(s)
    &&& forall|i: int|
        0 <= i < list.len() ==> (#[trigger] list[i]).1 == occurrences(
            names,
            list[i].0,
            names.len(),
        )
}

fn count(names: &Vec<String>, name: &str) -> (r: usize)
    ensures
        r == occurrences(text::views(names@), name@, names@.len()),
{
    let ghost all = text::views(names@);
    let mut r: usize = 0;
    let mut i: usize = 0;
    while i < names.len()
        invariant
            i <= names.len(),
            all == text::views(names@),
            r <= i,
            r == occurrences(all, name@, i as nat),
        decreases names@.len() - i,
    {
        assert(all[i as int] == names@[i as int]@);
        if text::same(names[i].as_str(), name) {
            r = r + 1;
        }
        i = i + 1;
    }
    r
}

/// Counts names.
pub fn tally(names: &Vec<String>) -> (r: Vec<(String, usize)>)
    ensures
        is_tally(keyed::pairs(r@), text::views(names@)),
{
    let ghost all = text::views(names@);
    let distinct: Vec<String> = sorting::sort_and_dedup(names);
    let ghost shown = text::views(distinct@);
    let mut r: Vec<(String, usize)> = Vec::new();
    let mut i: usize = 0;
    while i < distinct.len()
        invariant
            i <= distinct@.len(),
            all == text::views(names@),
            r@.len() == i,
            forall|k: int|
                0 <= k < i ==> (#[trigger] r@[k]).0@ == distinct@[k]@ && r@[k].1 == occurrences(
                    all,
                    distinct@[k]@,
                    all.len(),
                ),
        decreases distinct@.len() - i,
    {
        let n: usize = count(names, distinct[i].as_str());
        r.push((distinct[i].clone(), n));
        i = i + 1;
    }
    assert(keys(keyed::pairs(r@)) =~= shown);
    r
}

/// The sum of the first `n` counts.
pub open spec fn total(list: Seq<(Seq<char>, usize)>, n: nat) -> nat
    decreases n,
{
    if n == 0 {
        0
    } else {
        total(list, (n - 1) as nat) + list[n - 1].1 as nat
    }
}

/// The sum over the first `m` keys of their occurrences among the first `n` names.
spec fn counted(keys: Seq<Seq<char>>, names: Seq<Seq<char>>, m: nat, n: nat) -> nat
    decreases m,
{
    if m == 0 {
        0
    } else {
        counted(keys, names, (m - 1) as nat, n) + occurrences(names, keys[m - 1], n)
    }
}

proof fn lemma_counted_step(keys: Seq<Seq<char>>, names: Seq<Seq<char>>, m: nat, n: nat)
    requires
        0 < n <= names.len(),
        m <= keys.len(),
        sorting::is_strictly_sorted(keys),
    ensures
        counted(keys, names, m, n) == counted(keys, names, m, (n - 1) as nat) + if keys.take(
            m as int,
        ).contains(names[n - 1]) {
            1nat
        } else {
            0
        },
    decreases m,
{
    let name = names[n - 1];
    if m > 0 {
        let l = (m - 1) as nat;
        lemma_counted_step(keys, names, l, n);
        assert(keys.take(m as int) =~= keys.take(l as int).push(keys[m - 1]));
        vstd::seq_lib::lemma_seq_contains_after_push(keys.take(l as int), keys[m - 1], name);
        if keys[m - 1] == name && keys.take(l as int).contains(name) {
            let k = choose|k: int| 0 <= k < l && keys.take(l as int)[k] == name;
            assert(text::lex_less(keys[k], keys[m - 1]));
            text::lemma_lex_irreflexive(name);
        }
    }
}

proof fn lemma_counted(keys: Seq<Seq<char>>, names: Seq<Seq<char>>, n: nat)
    requires
        n <= names.len(),
        sorting::is_strictly_sorted(keys),
        forall|s: Seq<char>| #[trigger] keys.contains(s) == names.contains(s),
    ensures
        counted(keys, names, keys.len(), n) == n,
    decreases n,
{
    if n == 0 {
        lemma_counted_nothing(keys, names, keys.len());
    } else {
        lemma_counted(keys, names, (n - 1) as nat);
        lemma_counted_step(keys, names, keys.len(), n);
        assert(keys.take(keys.len() as int) =~= keys);
        assert(names.contains(names[n - 1]));
        assert(keys.contains(names[n - 1]));
    }
}

proof fn lemma_counted_nothing(keys: Seq<Seq<char>>, names: Seq<Seq<char>>, m: nat)
    ensures
        counted(keys, names, m, 0) == 0,
    decreases m,
{
    if m > 0 {
        lemma_counted_nothing(keys, names, (m - 1) as nat);
    }
}

proof fn lemma_total(list: Seq<(Seq<char>, usize)>, names: Seq<Seq<char>>, m: nat)
    requires
        m <= list.len(),
        is_tally(list, names),
    ensures
        total(list, m) == counted(keys(list), names, m, names.len()),
    decreases m,
{
    if m > 0 {
        lemma_total(list, names, (m - 1) as nat);
        assert(list[m - 1].1 == occurrences(names, list[m - 1].0, names.len()));
    }
}

/// The counts of a tally add up to the number of names: every name is counted, and none
/// twice.
pub proof fn law_tally_adds_up(list: Seq<(Seq<char>, usize)>, names: Seq<Seq<char>>)
    requires
        is_tally(list, names),
    ensures
        total(list, list.len()) == names.len(),
{
    lemma_total(list, names, list.len());
    lemma_counted(keys(list), names, names.len());
}

/// A name is counted as often as it stands in the list.
pub proof fn law_names_are_counted_one_by_one(names: Seq<Seq<char>>, name: Seq<char>, n: nat)
    requires
        n <= names.len(),
    ensures
        occurrences(names, name, n) == names.take(n as int).filter(
            |other: Seq<char>| other == name,
        ).len(),
    decreases n,
{
    reveal(Seq::filter);
    if n > 0 {
        let m = (n - 1) as nat;
        law_names_are_counted_one_by_one(names, name, m);
        assert(names.take(n as int).drop_last() =~= names.take(m as int));
        assert(names.take(n as int).last() == names[n - 1]);
    }
}

} // verus!
