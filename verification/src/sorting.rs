//! Stable sorting by a key.
use vstd::prelude::*;
use crate::text;

verus! {

/// What a sort can go by: values with a total preorder, given on what they hold.
pub trait SortKey: Sized {
    /// What a key holds.
    type Model;

    spec fn model(&self) -> Self::Model;

    /// Whether the first key may stand before the second.
    spec fn precedes(a: Self::Model, b: Self::Model) -> bool;

    proof fn le_transitive(a: Self::Model, b: Self::Model, c: Self::Model)
        requires
            Self::precedes(a, b),
            Self::precedes(b, c),
        ensures
            Self::precedes(a, c),
    ;

    proof fn le_total(a: Self::Model, b: Self::Model)
        ensures
            Self::precedes(a, b) || Self::precedes(b, a),
    ;

    fn at_most(&self, other: &Self) -> (r: bool)
        ensures
            r == Self::precedes(self.model(), other.model()),
    ;
}

/// What a list of keys holds.
pub open spec fn models<K: SortKey>(keys: Seq<K>) -> Seq<K::Model> {
    Seq::new(keys.len(), |i: int| keys[i].model())
}

/// Whether `order` lists the positions of `keys` from the smallest key to the
/// largest, equal keys in the order of their positions.
pub open spec fn is_stable_order<K: SortKey>(keys: Seq<K::Model>, order: Seq<usize>) -> bool {
    &&& order.len() == keys.len()
    &&& forall|i: int| 0 <= i < order.len() ==> (#[trigger] order[i]) < keys.len()
    &&& forall|k: usize| k < keys.len() ==> order.contains(k)
    &&& forall|i: int, j: int|
        0 <= i < j < order.len() ==> K::precedes(keys[(#[trigger] order[i]) as int], keys[(#[trigger] order[j]) as int]) && (K::precedes(keys[order[j] as int], keys[order[i] as int]) ==> order[i] < order[j])
}

/// The positions of `keys` in sorted order.
pub open spec fn stable_order<K: SortKey>(keys: Seq<K::Model>) -> Seq<usize> {
    choose|order: Seq<usize>| is_stable_order::<K>(keys, order)
}

/// The elements at the listed positions.
pub open spec fn pick<A>(s: Seq<A>, positions: Seq<usize>) -> Seq<A> {
    Seq::new(positions.len(), |i: int| s[positions[i] as int])
}

/// A sort by `keys` can come out in one way only.
pub proof fn lemma_stable_order_unique<K: SortKey>(keys: Seq<K::Model>, p: Seq<usize>, q: Seq<usize>)
    requires
        is_stable_order::<K>(keys, p),
        is_stable_order::<K>(keys, q),
    ensures
        p == q,
{
    assert forall|i: int| 0 <= i < p.len() implies p[i] == q[i] by {
        lemma_stable_order_agrees::<K>(keys, p, q, i);
    }
    assert(p =~= q);
}

proof fn lemma_stable_order_agrees<K: SortKey>(keys: Seq<K::Model>, p: Seq<usize>, q: Seq<usize>, i: int)
    requires
        is_stable_order::<K>(keys, p),
        is_stable_order::<K>(keys, q),
        0 <= i < p.len(),
    ensures
        p[i] == q[i],
    decreases i,
{
    assert forall|j: int| 0 <= j < i implies p[j] == q[j] by {
        lemma_stable_order_agrees::<K>(keys, p, q, j);
    }
    if p[i] != q[i] {
        let x = p[i];
        let y = q[i];
        assert(p.contains(y));
        assert(q.contains(x));
        let j = choose|j: int| 0 <= j < p.len() && p[j] == y;
        let k = choose|k: int| 0 <= k < q.len() && q[k] == x;
        lemma_stable_order_distinct::<K>(keys, p);
        lemma_stable_order_distinct::<K>(keys, q);
        assert(j > i);
        assert(k > i);
        assert(K::precedes(keys[p[i] as int], keys[p[j] as int]));
        assert(K::precedes(keys[q[i] as int], keys[q[k] as int]));
    }
}

/// A sorted list of positions names no position twice.
pub proof fn lemma_stable_order_distinct<K: SortKey>(keys: Seq<K::Model>, p: Seq<usize>)
    requires
        is_stable_order::<K>(keys, p),
    ensures
        p.no_duplicates(),
{
    assert forall|i: int, j: int| 0 <= i < p.len() && 0 <= j < p.len() && i != j implies p[i]
        != p[j] by {
        if p[i] == p[j] {
            K::le_total(keys[p[i] as int], keys[p[j] as int]);
            if i < j {
                assert(K::precedes(keys[p[i] as int], keys[p[j] as int]));
            } else {
                assert(K::precedes(keys[p[j] as int], keys[p[i] as int]));
            }
        }
    }
}

/// Every list of keys that can be held has a sorted order.
pub proof fn lemma_stable_order_exists<K: SortKey>(keys: Seq<K::Model>)
    requires
        keys.len() <= usize::MAX,
    ensures
        is_stable_order::<K>(keys, stable_order::<K>(keys)),
{
    let order = insertion_order::<K>(keys);
    lemma_insertion_order::<K>(keys);
    assert(is_stable_order::<K>(keys, order));
}

/// Where to put a further key: after the last key that may stand before it.
spec fn insertion_point<K: SortKey>(keys: Seq<K::Model>, order: Seq<usize>, x: K::Model, at: nat) -> nat
    decreases at,
{
    if at > 0 && !K::precedes(keys[order[at - 1] as int], x) {
        insertion_point::<K>(keys, order, x, (at - 1) as nat)
    } else {
        at
    }
}

spec fn insertion_order<K: SortKey>(keys: Seq<K::Model>) -> Seq<usize>
    decreases keys.len(),
{
    if keys.len() == 0 {
        Seq::empty()
    } else {
        let before = insertion_order::<K>(keys.drop_last());
        let at = insertion_point::<K>(keys.drop_last(), before, keys.last(), before.len());
        before.insert(at as int, (keys.len() - 1) as usize)
    }
}

proof fn lemma_insertion_point<K: SortKey>(keys: Seq<K::Model>, order: Seq<usize>, x: K::Model, at: nat)
    requires
        at <= order.len(),
        forall|j: int| at <= j < order.len() ==> !K::precedes(keys[(#[trigger] order[j]) as int], x),
    ensures
        ({
            let r = insertion_point::<K>(keys, order, x, at);
            &&& r <= order.len()
            &&& r > 0 ==> K::precedes(keys[order[r - 1] as int], x)
            &&& forall|j: int| r <= j < order.len() ==> !K::precedes(keys[(#[trigger] order[j]) as int], x)
        }),
    decreases at,
{
    if at > 0 && !K::precedes(keys[order[at - 1] as int], x) {
        lemma_insertion_point::<K>(keys, order, x, (at - 1) as nat);
    }
}

proof fn lemma_insertion_order<K: SortKey>(keys: Seq<K::Model>)
    requires
        keys.len() <= usize::MAX,
    ensures
        is_stable_order::<K>(keys, insertion_order::<K>(keys)),
    decreases keys.len(),
{
    if keys.len() > 0 {
        let shorter = keys.drop_last();
        lemma_insertion_order::<K>(shorter);
        let before = insertion_order::<K>(shorter);
        let at = insertion_point::<K>(shorter, before, keys.last(), before.len());
        lemma_insertion_point::<K>(shorter, before, keys.last(), before.len());
        let n = (keys.len() - 1) as usize;
        assert(shorter =~= keys.take(n as int));
        assert forall|j: int| at <= j < n implies !K::precedes(keys[before[j] as int], keys[n as int]) by {
            assert(shorter[before[j] as int] == keys[before[j] as int]);
        }
        lemma_insert::<K>(shorter, keys, before, insertion_order::<K>(keys), at as int, n);
    }
}

/// The positions of `keys` in sorted order.
pub fn sort_positions<K: SortKey>(keys: &Vec<K>) -> (order: Vec<usize>)
    ensures
        is_stable_order::<K>(models(keys@), order@),
        order@ == stable_order::<K>(models(keys@)),
{
    let ghost held = models(keys@);
    let mut order: Vec<usize> = Vec::new();
    let mut n: usize = 0;
    while n < keys.len()
        invariant
            n <= keys@.len(),
            held == models(keys@),
            is_stable_order::<K>(held.take(n as int), order@),
        decreases keys@.len() - n,
    {
        let ghost before = held.take(n as int);
        let ghost after = held.take(n + 1);
        let mut at: usize = order.len();
        while at > 0 && !keys[order[at - 1]].at_most(&keys[n])
            invariant
                at <= order@.len() == n < keys@.len(),
                held == models(keys@),
                before == held.take(n as int),
                is_stable_order::<K>(before, order@),
                forall|j: int|
                    at <= j < n ==> !K::precedes(held[order@[j] as int], held[n as int]),
            decreases at,
        {
            at = at - 1;
        }
        let ghost old_order = order@;
        order.insert(at, n);
        proof {
            assert(before =~= after.take(n as int));
            lemma_insert::<K>(before, after, old_order, order@, at as int, n);
        }
        n = n + 1;
    }
    assert(held.take(n as int) =~= held);
    proof {
        lemma_stable_order_unique::<K>(held, order@, stable_order::<K>(held));
    }
    order
}

proof fn lemma_insert<K: SortKey>(
    before: Seq<K::Model>,
    after: Seq<K::Model>,
    old_order: Seq<usize>,
    order: Seq<usize>,
    at: int,
    n: usize,
)
    requires
        after.len() == n + 1,
        before == after.take(n as int),
        is_stable_order::<K>(before, old_order),
        0 <= at <= old_order.len(),
        order == old_order.insert(at, n),
        at > 0 ==> K::precedes(after[old_order[at - 1] as int], after[n as int]),
        forall|j: int| at <= j < n ==> !K::precedes(after[old_order[j] as int], after[n as int]),
    ensures
        is_stable_order::<K>(after, order),
{
    let x = after[n as int];
    assert forall|i: int| 0 <= i < at implies #[trigger] K::precedes(after[old_order[i] as int], x) by {
        if i < at - 1 {
            assert(K::precedes(before[old_order[i] as int], before[old_order[at - 1] as int]));
            K::le_transitive(after[old_order[i] as int], after[old_order[at - 1] as int], x);
        }
    }
    assert forall|k: usize| k < after.len() implies order.contains(k) by {
        if k == n {
            assert(order[at] == n);
        } else {
            assert(old_order.contains(k));
            let i = choose|i: int| 0 <= i < old_order.len() && old_order[i] == k;
            if i < at {
                assert(order[i] == k);
            } else {
                assert(order[i + 1] == k);
            }
        }
    }
    assert forall|i: int, j: int| 0 <= i < j < order.len() implies K::precedes(after[(#[trigger] order[i]) as int], after[(#[trigger] order[j]) as int]) && (K::precedes(after[order[j] as int], after[order[i] as int]) ==> order[i] < order[j]) by {
        let oi = if i < at { i } else { i - 1 };
        let oj = if j < at { j } else { j - 1 };
        if i == at {
            assert(order[j] == old_order[oj]);
            K::le_total(x, after[old_order[oj] as int]);
        } else if j == at {
            assert(order[i] == old_order[i]);
        } else {
            assert(order[i] == old_order[oi]);
            assert(order[j] == old_order[oj]);
            assert(K::precedes(before[old_order[oi] as int], before[old_order[oj] as int]));
        }
    }
}

// ---- keys ----------------------------------------------------------------------

impl SortKey for String {
    type Model = Seq<char>;

    open spec fn model(&self) -> Seq<char> {
        self@
    }

    open spec fn precedes(a: Seq<char>, b: Seq<char>) -> bool {
        !text::lex_less(b, a)
    }

    proof fn le_transitive(a: Seq<char>, b: Seq<char>, c: Seq<char>) {
        if text::lex_less(c, a) {
            text::lemma_lex_total(a, b);
            if text::lex_less(a, b) {
                text::lemma_lex_transitive(c, a, b);
            }
        }
    }

    proof fn le_total(a: Seq<char>, b: Seq<char>) {
        if text::lex_less(a, b) && text::lex_less(b, a) {
            text::lemma_lex_transitive(a, b, a);
            text::lemma_lex_irreflexive(a);
        }
    }

    fn at_most(&self, other: &Self) -> (r: bool) {
        !text::comes_before(other.as_str(), self.as_str())
    }
}

// ---- lists of strings --------------------------------------------------------------

/// The strings at the listed positions.
pub fn pick_strings(list: &Vec<String>, order: &Vec<usize>) -> (r: Vec<String>)
    requires
        forall|k: int| 0 <= k < order@.len() ==> (#[trigger] order@[k]) < list@.len(),
    ensures
        text::views(r@) == pick(text::views(list@), order@),
{
    let mut r: Vec<String> = Vec::new();
    let mut j: usize = 0;
    while j < order.len()
        invariant
            j <= order@.len(),
            forall|k: int| 0 <= k < order@.len() ==> (#[trigger] order@[k]) < list@.len(),
            r@.len() == j,
            forall|k: int| 0 <= k < j ==> (#[trigger] r@[k])@ == list@[order@[k] as int]@,
        decreases order@.len() - j,
    {
        assert(order@[j as int] < list@.len());
        r.push(list[order[j]].clone());
        j = j + 1;
    }
    assert(text::views(r@) =~= pick(text::views(list@), order@));
    r
}

/// Whether a list is sorted and names nothing twice.
pub open spec fn is_strictly_sorted(list: Seq<Seq<char>>) -> bool {
    forall|i: int, j: int|
        0 <= i < j < list.len() ==> text::lex_less(#[trigger] list[i], #[trigger] list[j])
}

/// The strings of a list, sorted and each once.
pub fn sort_and_dedup(list: &Vec<String>) -> (r: Vec<String>)
    ensures
        is_strictly_sorted(text::views(r@)),
        forall|s: Seq<char>| #[trigger]
            text::views(r@).contains(s) == text::views(list@).contains(s),
{
    let ghost all = text::views(list@);
    let order: Vec<usize> = sort_positions(list);
    assert(models(list@) =~= all);
    let sorted: Vec<String> = pick_strings(list, &order);
    let ghost names = text::views(sorted@);
    assert forall|i: int, j: int| 0 <= i < j < names.len() implies !text::lex_less(
        #[trigger] names[j],
        #[trigger] names[i],
    ) by {
        assert(String::precedes(all[order@[i] as int], all[order@[j] as int]));
    }
    assert forall|s: Seq<char>| #[trigger] names.contains(s) == all.contains(s) by {
        if names.contains(s) {
            let i = choose|i: int| 0 <= i < names.len() && names[i] == s;
            assert(order@[i] < all.len());
            assert(all[order@[i] as int] == s);
        }
        if all.contains(s) {
            let k = choose|k: int| 0 <= k < all.len() && all[k] == s;
            assert(order@.contains(k as usize));
            let i = choose|i: int| 0 <= i < order@.len() && order@[i] == k as usize;
            assert(names[i] == s);
        }
    }
    let mut r: Vec<String> = Vec::new();
    let mut i: usize = 0;
    while i < sorted.len()
        invariant
            i <= sorted@.len(),
            names == text::views(sorted@),
            forall|i: int, j: int|
                0 <= i < j < names.len() ==> !text::lex_less(
                    #[trigger] names[j],
                    #[trigger] names[i],
                ),
            is_strictly_sorted(text::views(r@)),
            i > 0 ==> r@.len() > 0 && r@[r@.len() - 1]@ == names[i - 1],
            i == 0 ==> r@.len() == 0,
            forall|s: Seq<char>| #[trigger]
                text::views(r@).contains(s) == names.take(i as int).contains(s),
        decreases sorted@.len() - i,
    {
        let ghost before = text::views(r@);
        let ghost name = names[i as int];
        let repeated: bool = r.len() > 0 && text::same(
            r[r.len() - 1].as_str(),
            sorted[i].as_str(),
        );
        assert(names.take(i + 1) =~= names.take(i as int).push(name));
        if !repeated {
            r.push(sorted[i].clone());
            let ghost after = text::views(r@);
            assert(after =~= before.push(name));
            assert forall|a: int, b: int| 0 <= a < b < after.len() implies text::lex_less(
                #[trigger] after[a],
                #[trigger] after[b],
            ) by {
                if b < before.len() {
                    assert(before[a] == after[a] && before[b] == after[b]);
                } else {
                    assert(!text::lex_less(names[i as int], names[i - 1]));
                    text::lemma_lex_total(names[i - 1], names[i as int]);
                    if a < before.len() - 1 {
                        assert(text::lex_less(before[a], before[before.len() - 1]));
                        text::lemma_lex_transitive(after[a], names[i - 1], name);
                    }
                }
            }
        }
        assert forall|s: Seq<char>| #[trigger] text::views(r@).contains(s) == names.take(
            i + 1,
        ).contains(s) by {
            assert(before.contains(s) == names.take(i as int).contains(s));
            vstd::seq_lib::lemma_seq_contains_after_push(names.take(i as int), name, s);
            if repeated {
                if s == name {
                    assert(before[before.len() - 1] == name);
                }
            } else {
                vstd::seq_lib::lemma_seq_contains_after_push(before, name, s);
            }
        }
        i = i + 1;
    }
    assert(names.take(i as int) =~= names);
    r
}

} // verus!
