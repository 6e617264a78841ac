//! The stable ascending order of a series by date.
//!
//! A bar's sort key is the date that its label spells, or nothing where the
//! label spells none. Bars without a date come first; bars with equal keys
//! keep the order in which they were given.

use crate::date::DateKey;
use vstd::prelude::*;

verus! {

/// Whether key `a` sorts strictly before key `b`: no date before any date,
/// and dates in calendar order.
pub open spec fn key_before(a: Option<DateKey>, b: Option<DateKey>) -> bool {
    match (a, b) {
        (None, Some(_)) => true,
        (Some(x), Some(y)) => x.precedes(y),
        _ => false,
    }
}

/// Whether the item at position `i` has its place before the item at
/// position `j` in the sorted series: by key, and by position among equal
/// keys.
pub open spec fn comes_before(keys: Seq<Option<DateKey>>, i: int, j: int) -> bool {
    key_before(keys[i], keys[j]) || (keys[i] == keys[j] && i < j)
}

/// Whether `order` lists the positions `0..n` of `keys`, each once, so that
/// every listed position comes before all that follow it.
pub open spec fn orders_first(keys: Seq<Option<DateKey>>, n: int, order: Seq<usize>) -> bool {
    &&& order.len() == n
    &&& forall|a: int| 0 <= a < order.len() ==> 0 <= #[trigger] order[a] < n
    &&& forall|i: int| 0 <= i < n ==> #[trigger] order.contains(i as usize)
    &&& forall|a: int, b: int|
        0 <= a < b < order.len() ==> comes_before(keys, #[trigger] order[a] as int, #[trigger] order[b] as int)
}

/// Whether `order` is the stable ascending arrangement of all positions of
/// `keys`.
pub open spec fn is_stable_order(keys: Seq<Option<DateKey>>, order: Seq<usize>) -> bool {
    orders_first(keys, keys.len() as int, order)
}

/// The stable ascending arrangement of the positions of `keys`: the one
/// sequence that `is_stable_order` accepts.
pub open spec fn stable_order(keys: Seq<Option<DateKey>>) -> Seq<usize> {
    choose|order: Seq<usize>| is_stable_order(keys, order)
}

/// The items of `items` in the arrangement that `order` gives.
pub open spec fn arranged<T>(items: Seq<T>, order: Seq<usize>) -> Seq<T> {
    Seq::new(order.len(), |a: int| items[order[a] as int])
}

/// Whether `keys` are in ascending order already: no key sorts before an
/// earlier one.
pub open spec fn in_ascending_order(keys: Seq<Option<DateKey>>) -> bool {
    forall|i: int, j: int| 0 <= i < j < keys.len() ==> !key_before(keys[j], keys[i])
}

/// Of two keys one sorts before the other, or they are the same key.
pub proof fn lemma_keys_compare(a: Option<DateKey>, b: Option<DateKey>)
    ensures
        key_before(a, b) || a == b || key_before(b, a),
        !(key_before(a, b) && key_before(b, a)),
        !key_before(a, a),
{
}

/// Two stable ascending arrangements of the same keys agree up to position
/// `upto`.
proof fn lemma_orders_agree(
    keys: Seq<Option<DateKey>>,
    first: Seq<usize>,
    second: Seq<usize>,
    upto: int,
)
    requires
        is_stable_order(keys, first),
        is_stable_order(keys, second),
        0 <= upto <= keys.len(),
    ensures
        forall|a: int| 0 <= a < upto ==> first[a] == second[a],
    decreases upto,
{
    if upto > 0 {
        lemma_orders_agree(keys, first, second, upto - 1);
        let a = upto - 1;
        let x = first[a];
        let y = second[a];
        if x != y {
            // Each of the two items stands somewhere in the other arrangement,
            // and not before position `a`, where the two agree.
            assert(second.contains((x as int) as usize));
            let b = choose|b: int| 0 <= b < second.len() && second[b] == x;
            assert(first.contains((y as int) as usize));
            let c = choose|c: int| 0 <= c < first.len() && first[c] == y;
            if b < a {
                assert(first[b] == x);
                assert(comes_before(keys, first[b] as int, first[a] as int));
            }
            if c < a {
                assert(second[c] == y);
                assert(comes_before(keys, second[c] as int, second[a] as int));
            }
            assert(comes_before(keys, second[a] as int, second[b] as int));
            assert(comes_before(keys, first[a] as int, first[c] as int));
        }
    }
}

/// Only one arrangement of given keys is stable and ascending.
pub proof fn lemma_stable_order_unique(
    keys: Seq<Option<DateKey>>,
    first: Seq<usize>,
    second: Seq<usize>,
)
    requires
        is_stable_order(keys, first),
        is_stable_order(keys, second),
    ensures
        first == second,
{
    lemma_orders_agree(keys, first, second, keys.len() as int);
    assert(first =~= second);
}

/// A series that is in ascending order already is left as it is.
pub proof fn lemma_ascending_keys_stay(keys: Seq<Option<DateKey>>)
    requires
        in_ascending_order(keys),
        keys.len() <= usize::MAX,
    ensures
        stable_order(keys) == Seq::new(keys.len(), |i: int| i as usize),
{
    let identity = Seq::new(keys.len(), |i: int| i as usize);
    assert forall|i: int| 0 <= i < keys.len() implies #[trigger] identity.contains(i as usize) by {
        assert(identity[i] == i as usize);
    }
    assert forall|a: int, b: int| 0 <= a < b < identity.len() implies comes_before(
        keys,
        #[trigger] identity[a] as int,
        #[trigger] identity[b] as int,
    ) by {
        lemma_keys_compare(keys[a], keys[b]);
    }
    assert(is_stable_order(keys, identity));
    lemma_stable_order_unique(keys, identity, stable_order(keys));
}

/// Whether position `i` may be put at place `at` of an arrangement of the
/// positions before it: behind every item that does not sort after it, and
/// in front of all that do.
spec fn is_place_for(keys: Seq<Option<DateKey>>, before: Seq<usize>, i: int, at: int) -> bool {
    &&& 0 <= at <= before.len()
    &&& forall|b: int|
        at <= b < before.len() ==> key_before(keys[i], keys[#[trigger] before[b] as int])
    &&& at == 0 || !key_before(keys[i], keys[before[at - 1] as int])
}

/// The place for position `i` in an arrangement of the positions before it,
/// found from place `at` downwards.
spec fn place_for(keys: Seq<Option<DateKey>>, before: Seq<usize>, i: int, at: int) -> int
    decreases at,
{
    if at > 0 && key_before(keys[i], keys[before[at - 1] as int]) {
        place_for(keys, before, i, at - 1)
    } else {
        at
    }
}

/// An arrangement of the first `i` positions with position `i` put at its
/// place arranges the first `i + 1` positions.
proof fn lemma_insert_keeps_order(
    keys: Seq<Option<DateKey>>,
    before: Seq<usize>,
    i: int,
    at: int,
)
    requires
        0 <= i < keys.len(),
        i <= usize::MAX,
        orders_first(keys, i, before),
        is_place_for(keys, before, i, at),
    ensures
        orders_first(keys, i + 1, before.insert(at, i as usize)),
{
    let after = before.insert(at, i as usize);
    assert forall|j: int| 0 <= j < i + 1 implies #[trigger] after.contains(j as usize) by {
        if j == i {
            assert(after[at] == i);
        } else {
            assert(before.contains(j as usize));
            let a = choose|a: int| 0 <= a < before.len() && before[a] == j as usize;
            if a < at {
                assert(after[a] == j as usize);
            } else {
                assert(after[a + 1] == j as usize);
            }
        }
    }
    assert forall|a: int, b: int| 0 <= a < b < after.len() implies comes_before(
        keys,
        #[trigger] after[a] as int,
        #[trigger] after[b] as int,
    ) by {
        if b < at {
            assert(after[a] == before[a] && after[b] == before[b]);
        } else if b == at {
            assert(after[a] == before[a]);
            if a < at - 1 {
                assert(comes_before(keys, before[a] as int, before[at - 1] as int));
            }
        } else if a < at {
            assert(after[a] == before[a] && after[b] == before[b - 1]);
            if a < b - 1 {
                assert(comes_before(keys, before[a] as int, before[b - 1] as int));
            }
        } else if a == at {
            assert(after[b] == before[b - 1]);
        } else {
            assert(after[a] == before[a - 1] && after[b] == before[b - 1]);
            assert(comes_before(keys, before[a - 1] as int, before[b - 1] as int));
        }
    }
    assert forall|a: int| 0 <= a < after.len() implies 0 <= #[trigger] after[a] < i + 1 by {
        if a < at {
            assert(after[a] == before[a]);
        } else if a > at {
            assert(after[a] == before[a - 1]);
        }
    }
}

proof fn lemma_place_for(keys: Seq<Option<DateKey>>, before: Seq<usize>, i: int, at: int)
    requires
        0 <= at <= before.len(),
        forall|b: int|
            at <= b < before.len() ==> key_before(keys[i], keys[#[trigger] before[b] as int]),
    ensures
        is_place_for(keys, before, i, place_for(keys, before, i, at)),
    decreases at,
{
    if at > 0 && key_before(keys[i], keys[before[at - 1] as int]) {
        lemma_place_for(keys, before, i, at - 1);
    }
}

/// The first `n` positions of any keys have a stable ascending arrangement.
proof fn lemma_order_exists(keys: Seq<Option<DateKey>>, n: int)
    requires
        0 <= n <= keys.len() <= usize::MAX,
    ensures
        exists|order: Seq<usize>| orders_first(keys, n, order),
    decreases n,
{
    if n == 0 {
        assert(orders_first(keys, 0, Seq::<usize>::empty()));
    } else {
        let last = n - 1;
        lemma_order_exists(keys, last);
        let before = choose|order: Seq<usize>| orders_first(keys, last, order);
        let at = place_for(keys, before, last, before.len() as int);
        lemma_place_for(keys, before, last, before.len() as int);
        lemma_insert_keeps_order(keys, before, last, at);
        assert(orders_first(keys, n, before.insert(at, last as usize)));
    }
}

/// The stable ascending arrangement of keys is one: it lists every position
/// once, and every listed position comes before all that follow it.
pub proof fn lemma_stable_order_is_stable(keys: Seq<Option<DateKey>>)
    requires
        keys.len() <= usize::MAX,
    ensures
        is_stable_order(keys, stable_order(keys)),
{
    let n = keys.len() as int;
    lemma_order_exists(keys, n);
    let witness = choose|order: Seq<usize>| orders_first(keys, n, order);
    assert(is_stable_order(keys, witness));
}

/// Whether key `a` sorts strictly before key `b`.
pub fn key_is_before(a: &Option<DateKey>, b: &Option<DateKey>) -> (before: bool)
    ensures
        before == key_before(*a, *b),
{
    match (a, b) {
        (None, Some(_)) => true,
        (Some(x), Some(y)) => x.is_before(y),
        _ => false,
    }
}

/// Computes the stable ascending arrangement of the positions of `keys`.
pub fn sort_order(keys: &Vec<Option<DateKey>>) -> (order: Vec<usize>)
    ensures
        is_stable_order(keys@, order@),
        order@ == stable_order(keys@),
{
    let n = keys.len();
    let mut order: Vec<usize> = Vec::new();
    let mut i: usize = 0;
    while i < n
        invariant
            i <= n,
            n == keys.len(),
            orders_first(keys@, i as int, order@),
        decreases n - i,
    {
        let mut at: usize = order.len();
        while at > 0 && key_is_before(&keys[i], &keys[order[at - 1]])
            invariant
                at <= order.len(),
                i < n,
                n == keys.len(),
                orders_first(keys@, i as int, order@),
                forall|b: int|
                    at <= b < order.len() ==> key_before(keys@[i as int], keys@[#[trigger] order@[b] as int]),
            decreases at,
        {
            at -= 1;
        }
        proof {
            lemma_insert_keeps_order(keys@, order@, i as int, at as int);
        }
        order.insert(at, i);
        i += 1;
    }
    proof {
        assert(is_stable_order(keys@, order@));
        lemma_stable_order_unique(keys@, order@, stable_order(keys@));
    }
    order
}

} // verus!
