//! Series assembly.
//!
//! A payload that does not decode costs its own record and nothing else: the
//! series of a symbol holds the records that did decode, in chronological
//! order, and every failure is handed back with its key.

use crate::reconcile::{chronological, reconcile, Keyed};
use vstd::prelude::*;

verus! {

/// Holds of an entry whose payload decoded.
pub open spec fn is_decoded<R, E>() -> spec_fn(Keyed<Result<R, E>>) -> bool {
    |e: Keyed<Result<R, E>>| e.item is Ok
}

/// Holds of an entry whose payload did not decode.
pub open spec fn is_failed<R, E>() -> spec_fn(Keyed<Result<R, E>>) -> bool {
    |e: Keyed<Result<R, E>>| e.item is Err
}

/// The records of the entries that decoded, in the entries' order.
pub open spec fn records_of<R, E>(entries: Seq<Keyed<Result<R, E>>>) -> Seq<R> {
    entries.filter(is_decoded()).map_values(|e: Keyed<Result<R, E>>| e.item->Ok_0)
}

/// The errors of the entries that did not decode, each with its key, in the
/// entries' order.
pub open spec fn failures_of<R, E>(entries: Seq<Keyed<Result<R, E>>>) -> Seq<Keyed<E>> {
    entries.filter(is_failed()).map_values(
        |e: Keyed<Result<R, E>>| (Keyed { key: e.key, item: e.item->Err_0 }),
    )
}

/// What the entries of one symbol come to.
#[derive(Debug, Clone, PartialEq, Eq)]
pub struct SymbolIngest<R, E> {
    /// The records that decoded, in chronological order.
    pub series: Vec<R>,
    /// The decode errors, each with the key whose payload gave it.
    pub failures: Vec<Keyed<E>>,
}

/// Parts the entries that decoded from those that did not, keeping the order
/// of each.
pub fn assemble<R, E>(entries: Vec<Keyed<Result<R, E>>>) -> (ingest: SymbolIngest<R, E>)
    ensures
        ingest.series@ == records_of(entries@),
        ingest.failures@ == failures_of(entries@),
{
    let mut series: Vec<R> = Vec::new();
    let mut failures: Vec<Keyed<E>> = Vec::new();
    assert(records_of(Seq::<Keyed<Result<R, E>>>::empty()) =~= Seq::empty()) by {
        reveal(Seq::filter);
    }
    assert(failures_of(Seq::<Keyed<Result<R, E>>>::empty()) =~= Seq::empty()) by {
        reveal(Seq::filter);
    }
    for entry in it: entries
        invariant
            it.seq() == entries@,
            series@ == records_of(entries@.take(it.index())),
            failures@ == failures_of(entries@.take(it.index())),
    {
        let ghost seen = entries@.take(it.index());
        proof {
            assert(entries@.take(it.index() + 1) =~= seen.push(entry));
            seen.lemma_filter_push(entry, is_decoded());
            seen.lemma_filter_push(entry, is_failed());
        }
        let Keyed { key, item } = entry;
        match item {
            Ok(record) => {
                series.push(record);
            },
            Err(error) => {
                failures.push(Keyed { key, item: error });
            },
        }
    }
    assert(entries@.take(entries@.len() as int) =~= entries@);
    SymbolIngest { series, failures }
}

/// Turns what was fetched for one symbol into its series.
///
/// The entries are put into chronological order by their keys; the records
/// that decoded make the series, and the failures are handed back in the same
/// order.
pub fn ingest_symbol<R, E>(entries: Vec<Keyed<Result<R, E>>>) -> (ingest: SymbolIngest<R, E>)
    ensures
        ingest.series@ == records_of(chronological(entries@)),
        ingest.failures@ == failures_of(chronological(entries@)),
{
    assemble(reconcile(entries))
}

} // verus!
