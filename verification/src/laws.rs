//! What holds of every ingestion.

use crate::catalog::{
    holds_symbol, installed, lemma_installed, listing_map, listing_valid, record_total,
};
use crate::key::{order_of, timestamp_of};
use crate::reconcile::{
    arrival_order, chronological, lemma_arrival_order, orders_of, position_order, position_range,
    Keyed,
};
use crate::series::{failures_of, is_decoded, is_failed, records_of};
use vstd::prelude::*;
use vstd::seq_lib::*;

verus! {

/// Whether the keys of `entries` stand in ascending order of their order
/// values.
pub open spec fn in_key_order<T>(entries: Seq<Keyed<T>>) -> bool {
    forall|i: int, j: int|
        0 <= i < j < entries.len() ==> order_of((#[trigger] entries[i]).key@) <= order_of(
            (#[trigger] entries[j]).key@,
        )
}

/// The listing that a run ends with: `installs`, each a symbol and the
/// series assembled for it, installed one after the other into an empty
/// catalog.
pub open spec fn catalog_of<R>(installs: Seq<(Seq<char>, Seq<R>)>) -> Seq<(Seq<char>, Seq<R>)>
    decreases installs.len(),
{
    if installs.len() == 0 {
        Seq::empty()
    } else {
        installed(catalog_of(installs.drop_last()), installs.last().0, installs.last().1)
    }
}

/// Sequences with the same members, each as often, still have the same
/// members after each was mapped.
proof fn lemma_map_values_same_members<A, B>(x: Seq<A>, y: Seq<A>, f: spec_fn(A) -> B)
    requires
        x.to_multiset() == y.to_multiset(),
    ensures
        x.map_values(f).to_multiset() == y.map_values(f).to_multiset(),
    decreases x.len(),
{
    broadcast use {group_to_multiset_ensures, vstd::multiset::group_multiset_axioms};

    x.to_multiset_ensures();
    y.to_multiset_ensures();
    if x.len() > 0 {
        // Take the last of `x` out of both.
        let a = x.last();
        let front = x.drop_last();
        assert(x =~= front.push(a));
        to_multiset_build(front, a);
        assert(x.to_multiset().count(a) > 0);
        let j = choose|j: int| 0 <= j < y.len() && y[j] == a;
        let rest = y.remove(j);
        to_multiset_remove(y, j);
        assert(front.to_multiset() =~= x.to_multiset().remove(a));
        lemma_map_values_same_members(front, rest, f);
        assert(x.map_values(f) =~= front.map_values(f).push(f(a)));
        to_multiset_build(front.map_values(f), f(a));
        assert(y.map_values(f) =~= rest.map_values(f).insert(j, f(a)));
        to_multiset_insert(rest.map_values(f), j, f(a));
    }
}

/// Sequences with the same members, each as often, still have the same
/// members after each was filtered.
proof fn lemma_filter_same_members<A>(x: Seq<A>, y: Seq<A>, pred: spec_fn(A) -> bool)
    requires
        x.to_multiset() == y.to_multiset(),
    ensures
        x.filter(pred).to_multiset() == y.filter(pred).to_multiset(),
    decreases x.len(),
{
    broadcast use {group_to_multiset_ensures, vstd::multiset::group_multiset_axioms};

    x.to_multiset_ensures();
    y.to_multiset_ensures();
    if x.len() > 0 {
        // Take the last of `x` out of both.
        let a = x.last();
        let front = x.drop_last();
        assert(x =~= front.push(a));
        to_multiset_build(front, a);
        assert(x.to_multiset().count(a) > 0);
        let j = choose|j: int| 0 <= j < y.len() && y[j] == a;
        let rest = y.remove(j);
        to_multiset_remove(y, j);
        assert(front.to_multiset() =~= x.to_multiset().remove(a));
        lemma_filter_same_members(front, rest, pred);
        front.lemma_filter_push(a, pred);
        let head = y.take(j);
        let tail = y.skip(j + 1);
        assert(y =~= head.push(a) + tail);
        Seq::filter_distributes_over_add(head.push(a), tail, pred);
        Seq::filter_distributes_over_add(head, tail, pred);
        head.lemma_filter_push(a, pred);
        lemma_multiset_commutative(head.filter(pred), tail.filter(pred));
        lemma_multiset_commutative(head.push(a).filter(pred), tail.filter(pred));
        if pred(a) {
            to_multiset_build(front.filter(pred), a);
            to_multiset_build(head.filter(pred), a);
        }
    }
}

/// Filtering keeps the order of what it keeps.
proof fn lemma_filter_keeps_key_order<T>(entries: Seq<Keyed<T>>, pred: spec_fn(Keyed<T>) -> bool)
    requires
        in_key_order(entries),
    ensures
        in_key_order(entries.filter(pred)),
    decreases entries.len(),
{
    reveal(Seq::filter);
    if entries.len() > 0 {
        let front = entries.drop_last();
        let kept = entries.filter(pred);
        assert(in_key_order(front)) by {
            assert(forall|i: int| 0 <= i < front.len() ==> #[trigger] front[i] == entries[i]);
        }
        lemma_filter_keeps_key_order(front, pred);
        if pred(entries.last()) {
            // What is kept of the front stood before the last entry.
            assert forall|i: int, j: int| 0 <= i < j < kept.len() implies order_of(
                (#[trigger] kept[i]).key@,
            ) <= order_of((#[trigger] kept[j]).key@) by {
                if j == kept.len() - 1 {
                    front.lemma_filter_contains_rev(pred, kept[i]);
                    let k = choose|k: int| 0 <= k < front.len() && front[k] == kept[i];
                    assert(entries[k] == kept[i]);
                }
            }
        }
    }
}

/// What a predicate keeps and what it leaves make up the whole.
proof fn lemma_filter_partition<A>(s: Seq<A>, kept: spec_fn(A) -> bool, left: spec_fn(A) -> bool)
    requires
        forall|a: A| #[trigger] kept(a) <==> !left(a),
    ensures
        s.filter(kept).len() + s.filter(left).len() == s.len(),
    decreases s.len(),
{
    reveal(Seq::filter);
    if s.len() > 0 {
        lemma_filter_partition(s.drop_last(), kept, left);
    }
}

/// Reconciliation reorders and does nothing else: the entries come out in
/// ascending order of their keys' order values, each entry that came in
/// comes out, as often as it came in, and entries whose keys have the same
/// order value come out in the order in which they came in.
pub proof fn lemma_chronological<T>(entries: Seq<Keyed<T>>)
    ensures
        chronological(entries).len() == entries.len(),
        in_key_order(chronological(entries)),
        chronological(entries).to_multiset() == entries.to_multiset(),
        forall|k: int|
            0 <= k < entries.len() ==> {
                &&& 0 <= #[trigger] arrival_order(orders_of(entries))[k] < entries.len()
                &&& chronological(entries)[k] == entries[arrival_order(orders_of(entries))[k]]
            },
        forall|i: int, j: int|
            0 <= i < j < entries.len() && order_of(chronological(entries)[i].key@) == order_of(
                chronological(entries)[j].key@,
            ) ==> #[trigger] arrival_order(orders_of(entries))[i] < #[trigger] arrival_order(
                orders_of(entries),
            )[j],
{
    let orders = orders_of(entries);
    let order = arrival_order(orders);
    let ordered = chronological(entries);
    let pick = |p: int| entries[p];
    lemma_arrival_order(orders);
    assert forall|i: int, j: int| 0 <= i < j < ordered.len() implies order_of(
        (#[trigger] ordered[i]).key@,
    ) <= order_of((#[trigger] ordered[j]).key@) by {
        assert(position_order(orders)(order[i], order[j]));
    }
    assert forall|i: int, j: int|
        0 <= i < j < entries.len() && order_of(ordered[i].key@) == order_of(
            ordered[j].key@,
        ) implies #[trigger] order[i] < #[trigger] order[j] by {
        assert(position_order(orders)(order[i], order[j]));
    }
    let arrived = position_range(0, entries.len() as int);
    lemma_map_values_same_members(order, arrived, pick);
    assert(arrived.map_values(pick) =~= entries);
}

/// The series of a symbol is in chronological order: the keys under which
/// its records were found stand in ascending order of their order values.
pub proof fn lemma_series_in_key_order<R, E>(entries: Seq<Keyed<Result<R, E>>>)
    ensures
        in_key_order(chronological(entries).filter(is_decoded())),
        records_of(chronological(entries)).len() == chronological(entries).filter(
            is_decoded(),
        ).len(),
        forall|i: int|
            0 <= i < records_of(chronological(entries)).len() ==> #[trigger] records_of(
                chronological(entries),
            )[i] == chronological(entries).filter(is_decoded())[i].item->Ok_0,
{
    lemma_chronological(entries);
    lemma_filter_keeps_key_order(chronological(entries), is_decoded());
}

/// A payload that does not decode costs its own record and no other: the
/// series has as many records as there are entries less those that failed,
/// and it holds the record of each entry that decoded, as often as it was
/// decoded. Each failure is reported once.
pub proof fn lemma_failures_cost_only_themselves<R, E>(entries: Seq<Keyed<Result<R, E>>>)
    ensures
        records_of(chronological(entries)).len() == entries.len() - entries.filter(
            is_failed(),
        ).len(),
        failures_of(chronological(entries)).len() == entries.filter(is_failed()).len(),
        records_of(chronological(entries)).to_multiset() == records_of(entries).to_multiset(),
        failures_of(chronological(entries)).to_multiset() == failures_of(entries).to_multiset(),
{
    let ordered = chronological(entries);
    lemma_chronological(entries);
    lemma_filter_partition(ordered, is_decoded::<R, E>(), is_failed::<R, E>());
    lemma_filter_same_members(ordered, entries, is_decoded());
    lemma_filter_same_members(ordered, entries, is_failed());
    ordered.filter(is_failed()).to_multiset_ensures();
    entries.filter(is_failed()).to_multiset_ensures();
    lemma_map_values_same_members(
        ordered.filter(is_decoded()),
        entries.filter(is_decoded()),
        |e: Keyed<Result<R, E>>| e.item->Ok_0,
    );
    lemma_map_values_same_members(
        ordered.filter(is_failed()),
        entries.filter(is_failed()),
        |e: Keyed<Result<R, E>>| (Keyed { key: e.key, item: e.item->Err_0 }),
    );
}

/// The order of a series comes from the keys alone: two fetches with the
/// same keys in the same order of arrival are reordered alike, whatever was
/// stored under the keys.
pub proof fn lemma_order_ignores_payloads<A, B>(first: Seq<Keyed<A>>, second: Seq<Keyed<B>>)
    requires
        first.len() == second.len(),
        forall|i: int| 0 <= i < first.len() ==> (#[trigger] first[i]).key@ == second[i].key@,
    ensures
        arrival_order(orders_of(first)) == arrival_order(orders_of(second)),
        forall|k: int|
            0 <= k < first.len() ==> {
                let from = #[trigger] arrival_order(orders_of(first))[k];
                &&& 0 <= from < first.len()
                &&& chronological(first)[k] == first[from]
                &&& chronological(second)[k] == second[from]
            },
{
    assert(orders_of(first) =~= orders_of(second));
    lemma_chronological(first);
    lemma_chronological(second);
}

/// An entry whose key carries no readable timestamp has order value 0 and
/// comes out of reconciliation before every entry with a greater order
/// value; where its payload decoded, its record is in the series. The
/// position that is returned is one at which the entry comes out.
pub proof fn lemma_unreadable_timestamp_sorts_first<R, E>(
    entries: Seq<Keyed<Result<R, E>>>,
    i: int,
) -> (at: int)
    requires
        0 <= i < entries.len(),
        timestamp_of(entries[i].key@) is None,
    ensures
        order_of(entries[i].key@) == 0,
        0 <= at < entries.len(),
        chronological(entries)[at] == entries[i],
        forall|before: int|
            0 <= before < at ==> order_of((#[trigger] chronological(entries)[before]).key@) == 0,
        entries[i].item is Ok ==> records_of(chronological(entries)).contains(
            entries[i].item->Ok_0,
        ),
{
    let orders = orders_of(entries);
    let order = arrival_order(orders);
    let ordered = chronological(entries);
    lemma_arrival_order(orders);
    lemma_chronological(entries);
    assert(order.contains(i));
    let at = choose|at: int| 0 <= at < order.len() && order[at] == i;
    assert(ordered[at] == entries[i]);
    if entries[i].item is Ok {
        let kept = ordered.filter(is_decoded());
        ordered.lemma_filter_contains(is_decoded(), at);
        let m = choose|m: int| 0 <= m < kept.len() && kept[m] == ordered[at];
        assert(records_of(ordered)[m] == entries[i].item->Ok_0);
    }
    at
}

/// Whether one of `installs` is a series with a record for `symbol`.
pub open spec fn installs_records<R>(
    installs: Seq<(Seq<char>, Seq<R>)>,
    symbol: Seq<char>,
) -> bool {
    exists|i: int|
        0 <= i < installs.len() && (#[trigger] installs[i]).0 == symbol && installs[i].1.len() > 0
}

/// The listing that a run ends with is valid, and it holds a symbol exactly
/// where a series with a record was installed for the symbol: a symbol for
/// which nothing decoded is absent from it.
pub proof fn lemma_catalog_of<R>(installs: Seq<(Seq<char>, Seq<R>)>, symbol: Seq<char>)
    ensures
        listing_valid(catalog_of(installs)),
        holds_symbol(catalog_of(installs), symbol) <==> installs_records(installs, symbol),
        listing_map(catalog_of(installs)).contains_key(symbol) <==> installs_records(
            installs,
            symbol,
        ),
    decreases installs.len(),
{
    if installs.len() > 0 {
        let front = installs.drop_last();
        let last = installs.last();
        lemma_catalog_of(front, symbol);
        lemma_installed(catalog_of(front), last.0, last.1);
        // The last install adds its symbol where it has a record, and no
        // other.
        assert(listing_map(catalog_of(installs)).contains_key(symbol) <==> holds_symbol(
            catalog_of(installs),
            symbol,
        ));
        if installs_records(front, symbol) {
            let i = choose|i: int|
                0 <= i < front.len() && (#[trigger] front[i]).0 == symbol && front[i].1.len() > 0;
            assert(installs[i] == front[i]);
        }
        if installs_records(installs, symbol) {
            let i = choose|i: int|
                0 <= i < installs.len() && (#[trigger] installs[i]).0 == symbol
                    && installs[i].1.len() > 0;
            if i < front.len() {
                assert(front[i] == installs[i]);
            }
        }
        if last.0 == symbol && last.1.len() > 0 {
            assert(installs[installs.len() - 1] == last);
        }
    }
}

/// A run in which nothing decoded for any symbol ends with an empty
/// listing, and so without a record.
pub proof fn lemma_nothing_decoded_nothing_listed<R>(installs: Seq<(Seq<char>, Seq<R>)>)
    requires
        forall|i: int| 0 <= i < installs.len() ==> (#[trigger] installs[i]).1.len() == 0,
    ensures
        catalog_of(installs) == Seq::<(Seq<char>, Seq<R>)>::empty(),
        record_total(catalog_of(installs)) == 0,
    decreases installs.len(),
{
    if installs.len() > 0 {
        let front = installs.drop_last();
        assert(forall|i: int| 0 <= i < front.len() ==> #[trigger] front[i] == installs[i]);
        lemma_nothing_decoded_nothing_listed(front);
        assert(installs[installs.len() - 1].1.len() == 0);
    }
}

} // verus!
