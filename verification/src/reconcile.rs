//! Temporal reconciliation.
//!
//! The store lists keys in no particular order. What was fetched is put into
//! chronological order by the timestamp that each key carries: ascending, and
//! where two keys carry the same order value, in the order in which they
//! arrived. What is stored under a key plays no part in it.

use crate::key::{order_of, order_value};
use vstd::prelude::*;
use vstd::relations::{sorted_by, total_ordering};
use vstd::seq_lib::*;

verus! {

/// Something fetched from the store, with the key under which it was found.
#[derive(Debug, Clone, PartialEq, Eq)]
pub struct Keyed<T> {
    pub key: String,
    pub item: T,
}

/// The order on arrival positions: by order value, then by position.
pub open spec fn position_order(orders: Seq<u64>) -> spec_fn(int, int) -> bool {
    |a: int, b: int| orders[a] < orders[b] || (orders[a] == orders[b] && a <= b)
}

/// The positions `from`, `from + 1`, .., `to - 1`.
pub open spec fn position_range(from: int, to: int) -> Seq<int> {
    Seq::new((to - from) as nat, |i: int| from + i)
}

/// The arrival positions of `orders`, sorted by `position_order`.
pub open spec fn arrival_order(orders: Seq<u64>) -> Seq<int> {
    position_range(0, orders.len() as int).sort_by(position_order(orders))
}

/// The order value of each entry's key.
pub open spec fn orders_of<T>(entries: Seq<Keyed<T>>) -> Seq<u64> {
    entries.map_values(|e: Keyed<T>| order_of(e.key@))
}

/// The entries in chronological order.
pub open spec fn chronological<T>(entries: Seq<Keyed<T>>) -> Seq<Keyed<T>> {
    arrival_order(orders_of(entries)).map_values(|p: int| entries[p])
}

/// Machine-sized positions as plain integers.
pub open spec fn as_positions(v: Seq<usize>) -> Seq<int> {
    v.map_values(|p: usize| p as int)
}

/// `position_order` is a total order: of two different positions one comes
/// first.
pub proof fn lemma_position_order_total(orders: Seq<u64>)
    ensures
        total_ordering(position_order(orders)),
{
}

/// `arrival_order` lists every arrival position once, in `position_order`.
pub proof fn lemma_arrival_order(orders: Seq<u64>)
    ensures
        arrival_order(orders).len() == orders.len(),
        arrival_order(orders).to_multiset() == position_range(0, orders.len() as int).to_multiset(),
        sorted_by(arrival_order(orders), position_order(orders)),
        arrival_order(orders).no_duplicates(),
        forall|k: int|
            0 <= k < orders.len() ==> 0 <= #[trigger] arrival_order(orders)[k] < orders.len(),
        forall|p: int| 0 <= p < orders.len() ==> arrival_order(orders).contains(p),
{
    broadcast use group_to_multiset_ensures;

    let n = orders.len() as int;
    let arrived = position_range(0, n);
    let sorted = arrival_order(orders);
    lemma_position_order_total(orders);
    arrived.lemma_sort_by_ensures(position_order(orders));
    assert(sorted.len() == n) by {
        arrived.to_multiset_ensures();
        sorted.to_multiset_ensures();
    }
    assert forall|k: int| 0 <= k < n implies 0 <= #[trigger] sorted[k] < n by {
        assert(sorted.contains(sorted[k]));
    }
    assert forall|p: int| 0 <= p < n implies sorted.contains(p) by {
        assert(arrived[p] == p);
        assert(sorted.to_multiset().count(p) > 0);
    }
    arrived.lemma_multiset_has_no_duplicates();
    sorted.lemma_multiset_has_no_duplicates_conv();
}

fn position_leq(orders: &[u64], a: usize, b: usize) -> (leq: bool)
    requires
        a < orders.len(),
        b < orders.len(),
    ensures
        leq == position_order(orders@)(a as int, b as int),
{
    orders[a] < orders[b] || (orders[a] == orders[b] && a <= b)
}

/// Merges two runs of positions that are each in `position_order`.
fn merge_positions(orders: &[u64], left: &Vec<usize>, right: &Vec<usize>) -> (merged: Vec<
    usize,
>)
    requires
        forall|i: int| 0 <= i < left.len() ==> #[trigger] left[i] < orders.len(),
        forall|i: int| 0 <= i < right.len() ==> #[trigger] right[i] < orders.len(),
        sorted_by(as_positions(left@), position_order(orders@)),
        sorted_by(as_positions(right@), position_order(orders@)),
    ensures
        forall|i: int| 0 <= i < merged.len() ==> #[trigger] merged[i] < orders.len(),
        sorted_by(as_positions(merged@), position_order(orders@)),
        as_positions(merged@).to_multiset() == as_positions(left@).to_multiset().add(
            as_positions(right@).to_multiset(),
        ),
{
    broadcast use {group_to_multiset_ensures, vstd::multiset::group_multiset_axioms};

    let ghost leq = position_order(orders@);
    let mut merged: Vec<usize> = Vec::new();
    let mut i: usize = 0;
    let mut j: usize = 0;
    proof {
        lemma_position_order_total(orders@);
    }
    while i < left.len() || j < right.len()
        invariant
            i <= left.len(),
            j <= right.len(),
            leq == position_order(orders@),
            total_ordering(leq),
            forall|k: int| 0 <= k < left.len() ==> #[trigger] left[k] < orders.len(),
            forall|k: int| 0 <= k < right.len() ==> #[trigger] right[k] < orders.len(),
            forall|k: int| 0 <= k < merged.len() ==> #[trigger] merged[k] < orders.len(),
            sorted_by(as_positions(left@), leq),
            sorted_by(as_positions(right@), leq),
            sorted_by(as_positions(merged@), leq),
            forall|k: int|
                0 <= k < merged.len() && i < left.len() ==> leq(
                    #[trigger] as_positions(merged@)[k],
                    left[i as int] as int,
                ),
            forall|k: int|
                0 <= k < merged.len() && j < right.len() ==> leq(
                    #[trigger] as_positions(merged@)[k],
                    right[j as int] as int,
                ),
            as_positions(merged@).to_multiset() == as_positions(
                left@.take(i as int),
            ).to_multiset().add(as_positions(right@.take(j as int)).to_multiset()),
        decreases left.len() - i + right.len() - j,
    {
        let from_left = if i == left.len() {
            false
        } else if j == right.len() {
            true
        } else {
            position_leq(orders, left[i], right[j])
        };
        let ghost before = as_positions(merged@);
        if from_left {
            let p = left[i];
            merged.push(p);
            proof {
                assert(as_positions(merged@) =~= before.push(p as int));
                to_multiset_build(before, p as int);
                to_multiset_build(as_positions(left@.take(i as int)), p as int);
                assert(as_positions(left@.take(i + 1)) =~= as_positions(left@.take(i as int)).push(
                    p as int,
                ));
                assert(as_positions(left@)[i as int] == p);
                if i + 1 < left.len() {
                    assert(as_positions(left@)[i + 1] == left[i + 1]);
                    assert(leq(p as int, left[i + 1] as int));
                }
            }
            i += 1;
        } else {
            let p = right[j];
            merged.push(p);
            proof {
                assert(as_positions(merged@) =~= before.push(p as int));
                to_multiset_build(before, p as int);
                to_multiset_build(as_positions(right@.take(j as int)), p as int);
                assert(as_positions(right@.take(j + 1)) =~= as_positions(
                    right@.take(j as int),
                ).push(p as int));
                assert(as_positions(right@)[j as int] == p);
                if j + 1 < right.len() {
                    assert(as_positions(right@)[j + 1] == right[j + 1]);
                    assert(leq(p as int, right[j + 1] as int));
                }
            }
            j += 1;
        }
    }
    proof {
        assert(left@.take(i as int) =~= left@);
        assert(right@.take(j as int) =~= right@);
    }
    merged
}

/// The positions `from..to` in `position_order`, by merge sort.
fn sort_positions(orders: &[u64], from: usize, to: usize) -> (sorted: Vec<usize>)
    requires
        from <= to <= orders.len(),
    ensures
        forall|i: int| 0 <= i < sorted.len() ==> #[trigger] sorted[i] < orders.len(),
        sorted_by(as_positions(sorted@), position_order(orders@)),
        as_positions(sorted@).to_multiset() == position_range(
            from as int,
            to as int,
        ).to_multiset(),
    decreases to - from,
{
    if to - from <= 1 {
        let mut sorted: Vec<usize> = Vec::new();
        if from < to {
            sorted.push(from);
        }
        assert(as_positions(sorted@) =~= position_range(from as int, to as int));
        sorted
    } else {
        let mid = from + (to - from) / 2;
        let left = sort_positions(orders, from, mid);
        let right = sort_positions(orders, mid, to);
        proof {
            assert(position_range(from as int, to as int) =~= position_range(
                from as int,
                mid as int,
            ) + position_range(mid as int, to as int));
            lemma_multiset_commutative(
                position_range(from as int, mid as int),
                position_range(mid as int, to as int),
            );
        }
        merge_positions(orders, &left, &right)
    }
}

/// The arrival positions of `orders`, in the order in which reconciliation
/// visits them.
pub fn arrival_permutation(orders: &[u64]) -> (order: Vec<usize>)
    ensures
        as_positions(order@) == arrival_order(orders@),
        order.len() == orders.len(),
        forall|k: int| 0 <= k < order.len() ==> #[trigger] order[k] < orders.len(),
{
    let order = sort_positions(orders, 0, orders.len());
    proof {
        lemma_arrival_order(orders@);
        lemma_position_order_total(orders@);
        lemma_sorted_unique(
            as_positions(order@),
            arrival_order(orders@),
            position_order(orders@),
        );
    }
    order
}

fn to_slots<T>(entries: Vec<Keyed<T>>) -> (slots: Vec<Option<Keyed<T>>>)
    ensures
        slots.len() == entries.len(),
        forall|i: int| 0 <= i < entries.len() ==> #[trigger] slots[i] == Some(entries[i]),
{
    let mut slots: Vec<Option<Keyed<T>>> = Vec::new();
    for e in it: entries
        invariant
            it.seq() == entries@,
            slots.len() == it.index(),
            forall|i: int| 0 <= i < it.index() ==> #[trigger] slots[i] == Some(entries[i]),
    {
        slots.push(Some(e));
    }
    slots
}

fn key_orders<T>(entries: &Vec<Keyed<T>>) -> (orders: Vec<u64>)
    ensures
        orders@ == orders_of(entries@),
{
    let mut orders: Vec<u64> = Vec::new();
    let mut i: usize = 0;
    while i < entries.len()
        invariant
            i <= entries.len(),
            orders@ == orders_of(entries@).take(i as int),
        decreases entries.len() - i,
    {
        let order = order_value(entries[i].key.as_str());
        orders.push(order);
        i += 1;
    }
    orders
}

/// Puts what was fetched into chronological order.
///
/// The entries come out by ascending order value of their keys; entries whose
/// keys have the same order value keep the order in which they came in.
pub fn reconcile<T>(entries: Vec<Keyed<T>>) -> (ordered: Vec<Keyed<T>>)
    ensures
        ordered@ == chronological(entries@),
{
    let n = entries.len();
    let orders = key_orders(&entries);
    let order = arrival_permutation(orders.as_slice());
    let ghost arrived = entries@;
    let ghost target = chronological(arrived);
    proof {
        lemma_arrival_order(orders@);
    }
    // Each entry is moved out of its slot when its turn comes.
    let mut slots = to_slots(entries);
    let mut ordered: Vec<Keyed<T>> = Vec::new();
    let mut k: usize = 0;
    while k < n
        invariant
            k <= n,
            n == arrived.len(),
            slots.len() == n,
            order.len() == n,
            orders@ == orders_of(arrived),
            as_positions(order@) == arrival_order(orders@),
            arrival_order(orders@).no_duplicates(),
            target == chronological(arrived),
            forall|j: int| 0 <= j < n ==> #[trigger] order[j] < n,
            forall|j: int|
                k <= j < n ==> slots[#[trigger] order[j] as int] == Some(arrived[order[j] as int]),
            ordered@ == target.take(k as int),
        decreases n - k,
    {
        let p = order[k];
        let entry = slots[p].take().unwrap();
        ordered.push(entry);
        proof {
            assert forall|j: int| k + 1 <= j < n implies slots[#[trigger] order[j] as int] == Some(
                arrived[order[j] as int],
            ) by {
                assert(as_positions(order@)[j] != as_positions(order@)[k as int]);
            }
        }
        k += 1;
    }
    ordered
}

} // verus!
