//! Stable ordering by integer keys.

use vstd::prelude::*;

verus! {

/// The keys of a vector as mathematical integers.
pub open spec fn as_ints(keys: Seq<i64>) -> Seq<int> {
    Seq::new(keys.len(), |j: int| keys[j] as int)
}

/// Whether the item at place `x` has to stand before the item at place `y`
/// when the items are put in the order of their keys: its key is smaller, or
/// the keys are equal and it stood before.
pub open spec fn comes_before(keys: Seq<int>, x: usize, y: usize) -> bool {
    keys[x as int] < keys[y as int] || (keys[x as int] == keys[y as int] && x < y)
}

/// Whether `order` lists the places `0` to `keys.len() - 1`, each once, in
/// the order of their keys, places with equal keys in ascending order.
pub open spec fn is_stable_order(keys: Seq<int>, order: Seq<usize>) -> bool {
    &&& order.len() == keys.len()
    &&& order.no_duplicates()
    &&& forall|p: int| 0 <= p < order.len() ==> (#[trigger] order[p]) < keys.len()
    &&& forall|x: int| 0 <= x < keys.len() ==> #[trigger] order.contains(x as usize)
    &&& forall|p: int, q: int|
        0 <= p < q < order.len() ==> comes_before(keys, #[trigger] order[p], #[trigger] order[q])
}

/// Where an item with key `key` goes into `order`, which is in the order of
/// its keys: behind the last item whose key is not greater.
pub open spec fn place_of(keys: Seq<int>, order: Seq<usize>, key: int) -> int
    decreases order.len(),
{
    if order.len() == 0 {
        0
    } else if keys[order.last() as int] <= key {
        order.len() as int
    } else {
        place_of(keys, order.drop_last(), key)
    }
}

/// The first `n` places in the order of their keys, places with equal keys in
/// ascending order: each place in turn goes behind the last place before it
/// whose key is not greater.
pub open spec fn stable_order(keys: Seq<int>, n: int) -> Seq<usize>
    decreases n,
{
    if n <= 0 {
        Seq::empty()
    } else {
        let before = stable_order(keys, n - 1);
        before.insert(place_of(keys, before, keys[n - 1]), (n - 1) as usize)
    }
}

/// The items of `items` in the order that `order` gives.
pub open spec fn arranged<A>(items: Seq<A>, order: Seq<usize>) -> Seq<A> {
    Seq::new(order.len(), |j: int| items[order[j] as int])
}

/// The places `0` to `keys.len() - 1` in the order of their keys. Places with
/// equal keys keep their order.
pub fn sort_order(keys: &Vec<i64>) -> (order: Vec<usize>)
    ensures
        order@ == stable_order(as_ints(keys@), keys@.len() as int),
        is_stable_order(as_ints(keys@), order@),
{
    let ghost ints = as_ints(keys@);
    let mut order: Vec<usize> = Vec::new();
    let mut i: usize = 0;
    while i < keys.len()
        invariant
            i <= keys@.len(),
            ints == as_ints(keys@),
            order@ == stable_order(ints, i as int),
            order@.len() == i,
            order@.no_duplicates(),
            forall|p: int| 0 <= p < order@.len() ==> (#[trigger] order@[p]) < i,
            forall|x: int| 0 <= x < i ==> #[trigger] order@.contains(x as usize),
            forall|p: int, q: int|
                0 <= p < q < order@.len() ==> comes_before(
                    ints,
                    #[trigger] order@[p],
                    #[trigger] order@[q],
                ),
        decreases keys@.len() - i,
    {
        let key = keys[i];
        let ghost before = order@;
        let mut p: usize = order.len();
        assert(before.take(p as int) =~= before);
        while p > 0 && keys[order[p - 1]] > key
            invariant
                p <= order@.len(),
                order@ == before,
                ints == as_ints(keys@),
                key == keys@[i as int],
                i < keys@.len(),
                forall|q: int| 0 <= q < order@.len() ==> (#[trigger] order@[q]) < i,
                place_of(ints, before.take(p as int), key as int) == place_of(
                    ints,
                    before,
                    key as int,
                ),
                forall|q: int| p <= q < order@.len() ==> ints[#[trigger] order@[q] as int] > key,
            decreases p,
        {
            proof {
                assert(before.take(p as int).drop_last() =~= before.take(p - 1));
            }
            p -= 1;
        }
        order.insert(p, i);
        proof {
            assert forall|x: int| 0 <= x < i + 1 implies #[trigger] order@.contains(
                x as usize,
            ) by {
                if x < i {
                    assert(before.contains(x as usize));
                    let q = choose|q: int| 0 <= q < before.len() && before[q] == x as usize;
                    if q < p {
                        assert(order@[q] == x as usize);
                    } else {
                        assert(order@[q + 1] == x as usize);
                    }
                } else {
                    assert(order@[p as int] == x as usize);
                }
            }
        }
        i += 1;
    }
    order
}

} // verus!
