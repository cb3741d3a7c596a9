//! The order in which queued users are offered to the matchmaker: by
//! ascending priority, users of equal priority in the order they stand in.

use vstd::prelude::*;

verus! {

/// Whether position `a` goes before position `b`: its key is lower, or the
/// keys are equal and it stands first.
pub open spec fn goes_before(keys: Seq<u64>, a: int, b: int) -> bool {
    keys[a] < keys[b] || (keys[a] == keys[b] && a < b)
}

/// Whether `order` lists positions below `n`, each before all that it goes
/// before.
pub open spec fn in_priority_order(keys: Seq<u64>, order: Seq<int>, n: int) -> bool {
    &&& forall|i: int| 0 <= i < order.len() ==> 0 <= #[trigger] order[i] < n
    &&& forall|i: int, j: int|
        0 <= i < j < order.len() ==> goes_before(keys, #[trigger] order[i], #[trigger] order[j])
}

/// Whether `order` is the priority order of `keys`: it lists every position
/// once, each before all that it goes before.
pub open spec fn is_priority_order(keys: Seq<u64>, order: Seq<int>) -> bool {
    &&& order.len() == keys.len()
    &&& in_priority_order(keys, order, keys.len() as int)
    &&& forall|x: int| 0 <= x < keys.len() ==> order.contains(x)
}

/// `order` with position `x` put behind every position whose key is not
/// higher than that of `x`.
pub open spec fn placed(keys: Seq<u64>, order: Seq<int>, x: int) -> Seq<int>
    decreases order.len(),
{
    if order.len() == 0 {
        seq![x]
    } else if keys[order.last()] <= keys[x] {
        order.push(x)
    } else {
        placed(keys, order.drop_last(), x).push(order.last())
    }
}

/// The first `n` positions of `keys` in priority order.
pub open spec fn priority_order(keys: Seq<u64>, n: nat) -> Seq<int>
    decreases n,
{
    if n == 0 {
        Seq::empty()
    } else {
        placed(keys, priority_order(keys, (n - 1) as nat), n - 1)
    }
}

/// A list of positions as the numbers they are.
pub open spec fn as_ints(v: Seq<usize>) -> Seq<int> {
    v.map_values(|p: usize| p as int)
}

/// Where `placed` puts `x`: behind the first `p` entries of `order`, with
/// the rest of `order` after it, if the entries from `p` on have a higher
/// key than `x` and the one before `p` has not.
pub proof fn placed_splits(keys: Seq<u64>, order: Seq<int>, x: int, p: int)
    requires
        0 <= p <= order.len(),
        p > 0 ==> keys[order[p - 1]] <= keys[x],
        forall|i: int| p <= i < order.len() ==> keys[#[trigger] order[i]] > keys[x],
    ensures
        placed(keys, order, x) == order.take(p).push(x) + order.skip(p),
    decreases order.len() - p,
{
    if order.len() == 0 {
        assert(order.take(p).push(x) + order.skip(p) =~= seq![x]);
    } else if p == order.len() {
        assert(order.take(p) =~= order);
        assert(order.push(x) + order.skip(p) =~= order.push(x));
    } else {
        let shorter = order.drop_last();
        assert(keys[order[order.len() - 1]] > keys[x]);
        assert forall|i: int| p <= i < shorter.len() implies keys[#[trigger] shorter[i]] > keys[x] by {
            assert(shorter[i] == order[i]);
        }
        placed_splits(keys, shorter, x, p);
        assert(shorter.take(p) =~= order.take(p));
        assert((shorter.take(p).push(x) + shorter.skip(p)).push(order.last()) =~= order.take(p).push(x)
            + order.skip(p));
    }
}

/// Putting a position that stands behind all of `order` into `order` keeps
/// the priority order, and adds that position and no other.
pub proof fn placed_keeps_order(keys: Seq<u64>, order: Seq<int>, x: int)
    requires
        0 <= x,
        in_priority_order(keys, order, x),
    ensures
        in_priority_order(keys, placed(keys, order, x), x + 1),
        placed(keys, order, x).len() == order.len() + 1,
        forall|y: int| #[trigger] placed(keys, order, x).contains(y) <==> (y == x || order.contains(y)),
    decreases order.len(),
{
    let out = placed(keys, order, x);
    if order.len() == 0 {
        assert(out[0] == x);
        assert forall|y: int| out.contains(y) <==> (y == x || order.contains(y)) by {
            if y == x {
                assert(out[0] == y);
            }
        }
    } else if keys[order.last()] <= keys[x] {
        let last = order.len() - 1;
        assert forall|i: int, j: int| 0 <= i < j < out.len() implies goes_before(
            keys,
            #[trigger] out[i],
            #[trigger] out[j],
        ) by {
            if j < order.len() {
                assert(out[i] == order[i] && out[j] == order[j]);
            } else {
                assert(out[i] == order[i]);
                if i < last {
                    assert(goes_before(keys, order[i], order[last]));
                }
            }
        }
        assert forall|y: int| out.contains(y) <==> (y == x || order.contains(y)) by {
            if y == x {
                assert(out[order.len() as int] == y);
            }
            if order.contains(y) {
                let k = choose|k: int| 0 <= k < order.len() && order[k] == y;
                assert(out[k] == y);
            }
            if out.contains(y) {
                let k = choose|k: int| 0 <= k < out.len() && out[k] == y;
                if k < order.len() {
                    assert(order[k] == y);
                }
            }
        }
    } else {
        let last = order.last();
        let rest = order.drop_last();
        assert forall|i: int| 0 <= i < rest.len() implies rest[i] == order[i] by {}
        placed_keeps_order(keys, rest, x);
        let inner = placed(keys, rest, x);
        assert(out == inner.push(last));
        assert forall|i: int, j: int| 0 <= i < j < out.len() implies goes_before(
            keys,
            #[trigger] out[i],
            #[trigger] out[j],
        ) by {
            if j < inner.len() {
                assert(out[i] == inner[i] && out[j] == inner[j]);
            } else {
                assert(out[j] == last);
                assert(out[i] == inner[i]);
                assert(inner.contains(inner[i]));
                if inner[i] != x {
                    assert(rest.contains(inner[i]));
                    let k = choose|k: int| 0 <= k < rest.len() && rest[k] == inner[i];
                    assert(order[k] == inner[i]);
                    assert(goes_before(keys, order[k], order[order.len() - 1]));
                } else {
                    assert(keys[order[order.len() - 1]] > keys[x]);
                }
            }
        }
        assert forall|y: int| out.contains(y) <==> (y == x || order.contains(y)) by {
            if y == x {
                assert(inner.contains(x));
                let k = choose|k: int| 0 <= k < inner.len() && inner[k] == x;
                assert(out[k] == inner[k]);
            }
            if order.contains(y) {
                let k = choose|k: int| 0 <= k < order.len() && order[k] == y;
                if k < rest.len() {
                    assert(rest[k] == y);
                    assert(rest.contains(y));
                    assert(inner.contains(y));
                    let m = choose|m: int| 0 <= m < inner.len() && inner[m] == y;
                    assert(out[m] == inner[m]);
                } else {
                    assert(out[inner.len() as int] == y);
                }
            }
            if out.contains(y) {
                let k = choose|k: int| 0 <= k < out.len() && out[k] == y;
                if k < inner.len() {
                    assert(inner[k] == y);
                    assert(inner.contains(y));
                    if y != x {
                        assert(rest.contains(y));
                        let m = choose|m: int| 0 <= m < rest.len() && rest[m] == y;
                        assert(order[m] == y);
                    }
                } else {
                    assert(order[order.len() - 1] == y);
                }
            }
        }
        assert forall|i: int| 0 <= i < out.len() implies 0 <= #[trigger] out[i] < x + 1 by {
            if i < inner.len() {
                assert(out[i] == inner[i]);
            } else {
                assert(out[i] == order[order.len() - 1]);
            }
        }
    }
}

/// The first `n` positions in priority order are what the name says: all of
/// them, once each, each before all that it goes before.
pub proof fn priority_order_is_sorted(keys: Seq<u64>, n: nat)
    ensures
        priority_order(keys, n).len() == n,
        in_priority_order(keys, priority_order(keys, n), n as int),
        forall|x: int| #[trigger] priority_order(keys, n).contains(x) <==> 0 <= x < n,
    decreases n,
{
    if n > 0 {
        let before = priority_order(keys, (n - 1) as nat);
        priority_order_is_sorted(keys, (n - 1) as nat);
        placed_keeps_order(keys, before, n - 1);
        assert(priority_order(keys, n) == placed(keys, before, n - 1));
        assert forall|x: int| priority_order(keys, n).contains(x) <==> 0 <= x < n by {
            assert(before.contains(x) <==> 0 <= x < n - 1);
        }
    } else {
        assert forall|x: int| priority_order(keys, n).contains(x) <==> 0 <= x < n by {
            if priority_order(keys, n).contains(x) {
                let k = choose|k: int| 0 <= k < priority_order(keys, n).len() && priority_order(keys, n)[k] == x;
            }
        }
    }
}

/// The priority order of `keys` is a priority order of `keys`.
pub proof fn priority_order_law(keys: Seq<u64>)
    ensures
        is_priority_order(keys, priority_order(keys, keys.len())),
{
    priority_order_is_sorted(keys, keys.len());
}

/// There is one priority order: a list of the first `n` positions, each
/// once and each before all that it goes before, is `priority_order`.
pub proof fn priority_order_is_unique(keys: Seq<u64>, order: Seq<int>, n: nat)
    requires
        order.len() == n,
        in_priority_order(keys, order, n as int),
        forall|x: int| 0 <= x < n ==> order.contains(x),
    ensures
        order == priority_order(keys, n),
    decreases n,
{
    if n == 0 {
        assert(order =~= priority_order(keys, 0));
    } else {
        let x = n - 1;
        assert(order.contains(x));
        let p = choose|p: int| 0 <= p < order.len() && order[p] == x;
        let rest = order.remove(p);
        assert forall|i: int| 0 <= i < rest.len() implies #[trigger] rest[i] == order[if i < p {
            i
        } else {
            i + 1
        }] by {}
        assert forall|i: int| 0 <= i < rest.len() implies 0 <= #[trigger] rest[i] < x by {
            let from = if i < p { i } else { i + 1 };
            if from < p {
                assert(goes_before(keys, order[from], order[p]));
            } else {
                assert(goes_before(keys, order[p], order[from]));
            }
        }
        assert forall|i: int, j: int| 0 <= i < j < rest.len() implies goes_before(
            keys,
            #[trigger] rest[i],
            #[trigger] rest[j],
        ) by {
            let a = if i < p { i } else { i + 1 };
            let b = if j < p { j } else { j + 1 };
            assert(goes_before(keys, order[a], order[b]));
        }
        assert forall|y: int| 0 <= y < x implies rest.contains(y) by {
            assert(order.contains(y));
            let k = choose|k: int| 0 <= k < order.len() && order[k] == y;
            let to = if k < p { k } else { k - 1 };
            assert(rest[to] == y);
        }
        priority_order_is_unique(keys, rest, x as nat);
        if p > 0 {
            assert(rest[p - 1] == order[p - 1]);
            assert(goes_before(keys, order[p - 1], order[p]));
        }
        assert forall|i: int| p <= i < rest.len() implies keys[#[trigger] rest[i]] > keys[x] by {
            assert(rest[i] == order[i + 1]);
            assert(goes_before(keys, order[p], order[i + 1]));
        }
        placed_splits(keys, rest, x, p);
        assert(rest.take(p).push(x) + rest.skip(p) =~= order);
    }
}

/// The positions of `keys` in priority order: ascending by key, positions
/// with equal keys in the order they stand in.
pub fn sort_by_priority(keys: &Vec<u64>) -> (order: Vec<usize>)
    ensures
        as_ints(order@) == priority_order(keys@, keys@.len()),
        is_priority_order(keys@, as_ints(order@)),
{
    let mut order: Vec<usize> = Vec::new();
    let mut n: usize = 0;
    assert(as_ints(order@) =~= priority_order(keys@, 0));
    while n < keys.len()
        invariant
            n <= keys.len(),
            order.len() == n,
            as_ints(order@) == priority_order(keys@, n as nat),
        decreases keys.len() - n,
    {
        proof {
            priority_order_is_sorted(keys@, n as nat);
        }
        let ghost before = as_ints(order@);
        assert forall|i: int| 0 <= i < order.len() implies #[trigger] order@[i] < n by {
            assert(before[i] == order@[i] as int);
        }
        let mut p: usize = order.len();
        while p > 0 && keys[order[p - 1]] > keys[n]
            invariant
                p <= order.len(),
                order.len() == n,
                n < keys.len(),
                before == as_ints(order@),
                in_priority_order(keys@, before, n as int),
                forall|i: int| 0 <= i < order.len() ==> #[trigger] order@[i] < n,
                forall|i: int| p <= i < order.len() ==> keys@[#[trigger] before[i]] > keys@[n as int],
            decreases p,
        {
            assert(before[p - 1] == order@[p - 1] as int);
            p = p - 1;
        }
        proof {
            if p > 0 {
                assert(before[p - 1] == order@[p - 1] as int);
            }
            placed_splits(keys@, before, n as int, p as int);
        }
        order.insert(p, n);
        proof {
            assert(as_ints(order@) =~= before.take(p as int).push(n as int) + before.skip(p as int));
        }
        n = n + 1;
    }
    proof {
        priority_order_law(keys@);
    }
    order
}

} // verus!
