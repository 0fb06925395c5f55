//! The series catalog: each symbol that has records, with its series.
//!
//! A symbol without records is not in the catalog at all; the catalog never
//! holds an empty series.

use crate::reconcile::{chronological, Keyed};
use crate::series::{failures_of, ingest_symbol, records_of};
use vstd::prelude::*;

verus! {

/// Whether `listing` has an entry for `symbol`.
pub open spec fn holds_symbol<R>(listing: Seq<(Seq<char>, Seq<R>)>, symbol: Seq<char>) -> bool {
    exists|i: int| 0 <= i < listing.len() && (#[trigger] listing[i]).0 == symbol
}

/// The position of the entry that `listing` has for `symbol`.
pub open spec fn slot_of<R>(listing: Seq<(Seq<char>, Seq<R>)>, symbol: Seq<char>) -> int {
    choose|i: int| 0 <= i < listing.len() && (#[trigger] listing[i]).0 == symbol
}

/// A listing is valid when no symbol occurs twice in it and no series in it
/// is empty.
pub open spec fn listing_valid<R>(listing: Seq<(Seq<char>, Seq<R>)>) -> bool {
    &&& forall|i: int, j: int|
        0 <= i < j < listing.len() ==> (#[trigger] listing[i]).0 != (#[trigger] listing[j]).0
    &&& forall|i: int| 0 <= i < listing.len() ==> (#[trigger] listing[i]).1.len() > 0
}

/// The mapping from symbol to series that `listing` stands for.
pub open spec fn listing_map<R>(listing: Seq<(Seq<char>, Seq<R>)>) -> Map<Seq<char>, Seq<R>> {
    Map::new(
        |symbol: Seq<char>| holds_symbol(listing, symbol),
        |symbol: Seq<char>| listing[slot_of(listing, symbol)].1,
    )
}

/// The number of records in all the series of `listing` together.
pub open spec fn record_total<R>(listing: Seq<(Seq<char>, Seq<R>)>) -> nat
    decreases listing.len(),
{
    if listing.len() == 0 {
        0
    } else {
        record_total(listing.drop_last()) + listing.last().1.len()
    }
}

/// `listing` after `series` was installed under `symbol`: unchanged where
/// the series is empty; else the series stands under the symbol, in place of
/// the one that stood there, or at the end.
pub open spec fn installed<R>(
    listing: Seq<(Seq<char>, Seq<R>)>,
    symbol: Seq<char>,
    series: Seq<R>,
) -> Seq<(Seq<char>, Seq<R>)> {
    if series.len() == 0 {
        listing
    } else if holds_symbol(listing, symbol) {
        listing.update(slot_of(listing, symbol), (symbol, series))
    } else {
        listing.push((symbol, series))
    }
}

/// In a valid listing a symbol stands at one position only, and the mapping
/// has the series that stands there.
pub proof fn lemma_slot_unique<R>(listing: Seq<(Seq<char>, Seq<R>)>, i: int)
    requires
        listing_valid(listing),
        0 <= i < listing.len(),
    ensures
        holds_symbol(listing, listing[i].0),
        slot_of(listing, listing[i].0) == i,
        listing_map(listing).contains_key(listing[i].0),
        listing_map(listing)[listing[i].0] == listing[i].1,
{
}

/// Installing keeps a listing valid, and is an insertion into the mapping
/// exactly where the series has a record.
pub proof fn lemma_installed<R>(
    listing: Seq<(Seq<char>, Seq<R>)>,
    symbol: Seq<char>,
    series: Seq<R>,
)
    requires
        listing_valid(listing),
    ensures
        listing_valid(installed(listing, symbol, series)),
        listing_map(installed(listing, symbol, series)) == if series.len() > 0 {
            listing_map(listing).insert(symbol, series)
        } else {
            listing_map(listing)
        },
{
    let after = installed(listing, symbol, series);
    if series.len() > 0 {
        let target = listing_map(listing).insert(symbol, series);
        let place = if holds_symbol(listing, symbol) {
            slot_of(listing, symbol)
        } else {
            listing.len() as int
        };
        assert(after[place] == (symbol, series));
        assert forall|s: Seq<char>| holds_symbol(after, s) <==> target.contains_key(s) by {
            if holds_symbol(listing, s) {
                assert(after[slot_of(listing, s)].0 == s);
            }
        }
        assert forall|s: Seq<char>| holds_symbol(after, s) implies listing_map(after)[s]
            == target[s] by {
            let i = slot_of(after, s);
            lemma_slot_unique(after, i);
            if i != place {
                lemma_slot_unique(listing, i);
            }
        }
        assert(listing_map(after) =~= target);
    }
}

/// A valid listing has as many entries as its mapping has symbols.
pub proof fn lemma_listing_len<R>(listing: Seq<(Seq<char>, Seq<R>)>)
    requires
        listing_valid(listing),
    ensures
        listing_map(listing).dom().finite(),
        listing_map(listing).dom().len() == listing.len(),
{
    let symbols = listing.map_values(|e: (Seq<char>, Seq<R>)| e.0);
    assert(symbols.no_duplicates()) by {
        assert forall|i: int, j: int|
            0 <= i < symbols.len() && 0 <= j < symbols.len() && i != j implies symbols[i]
            != symbols[j] by {
            if i < j {
                assert(listing[i].0 != listing[j].0);
            } else {
                assert(listing[j].0 != listing[i].0);
            }
        }
    }
    symbols.unique_seq_to_set();
    vstd::seq_lib::seq_to_set_is_finite(symbols);
    assert(listing_map(listing).dom() =~= symbols.to_set()) by {
        assert forall|s: Seq<char>| holds_symbol(listing, s) <==> symbols.contains(s) by {
            if holds_symbol(listing, s) {
                assert(symbols[slot_of(listing, s)] == s);
            }
            if symbols.contains(s) {
                let i = choose|i: int| 0 <= i < symbols.len() && symbols[i] == s;
                assert(listing[i].0 == s);
            }
        }
    }
}

/// The records of a longer listing are no fewer.
pub proof fn lemma_record_total_monotonic<R>(listing: Seq<(Seq<char>, Seq<R>)>, n: int)
    requires
        0 <= n <= listing.len(),
    ensures
        record_total(listing.take(n)) <= record_total(listing),
    decreases listing.len(),
{
    if n == listing.len() {
        assert(listing.take(n) =~= listing);
    } else {
        lemma_record_total_monotonic(listing.drop_last(), n);
        assert(listing.drop_last().take(n) =~= listing.take(n));
    }
}

/// A valid listing is without records exactly when it is without symbols.
pub proof fn lemma_no_records_no_symbols<R>(listing: Seq<(Seq<char>, Seq<R>)>)
    requires
        listing_valid(listing),
    ensures
        record_total(listing) == 0 <==> listing.len() == 0,
        record_total(listing) == 0 <==> listing_map(listing).dom() =~= Set::empty(),
{
    if listing.len() > 0 {
        lemma_slot_unique(listing, 0);
    }
}

/// The catalog of a run: each symbol that has records, with its series.
pub struct SeriesCatalog<R> {
    entries: Vec<(String, Vec<R>)>,
}

impl<R> View for SeriesCatalog<R> {
    type V = Map<Seq<char>, Seq<R>>;

    /// The mapping from symbol to series.
    open spec fn view(&self) -> Map<Seq<char>, Seq<R>> {
        listing_map(self.listing())
    }
}

impl<R> SeriesCatalog<R> {
    /// The symbols with their series, in the order in which the symbols came
    /// into the catalog.
    pub closed spec fn listing(&self) -> Seq<(Seq<char>, Seq<R>)> {
        self.entries@.map_values(|e: (String, Vec<R>)| (e.0@, e.1@))
    }

    /// The catalog's invariant: its listing is valid.
    pub open spec fn wf(&self) -> bool {
        listing_valid(self.listing())
    }

    /// A catalog without symbols.
    pub fn new() -> (catalog: Self)
        ensures
            catalog.wf(),
            catalog.listing() == Seq::<(Seq<char>, Seq<R>)>::empty(),
            catalog@ == Map::<Seq<char>, Seq<R>>::empty(),
    {
        SeriesCatalog { entries: Vec::new() }
    }

    fn find(&self, symbol: &String) -> (slot: Option<usize>)
        requires
            self.wf(),
        ensures
            match slot {
                Some(i) => i < self.listing().len() && self.listing()[i as int].0 == symbol@
                    && holds_symbol(self.listing(), symbol@) && slot_of(self.listing(), symbol@)
                    == i,
                None => !holds_symbol(self.listing(), symbol@),
            },
    {
        let mut i: usize = 0;
        while i < self.entries.len()
            invariant
                i <= self.entries.len(),
                self.wf(),
                forall|k: int| 0 <= k < i ==> (#[trigger] self.listing()[k]).0 != symbol@,
            decreases self.entries.len() - i,
        {
            if self.entries[i].0.eq(symbol) {
                proof {
                    lemma_slot_unique(self.listing(), i as int);
                }
                return Some(i);
            }
            i += 1;
        }
        None
    }

    /// The number of symbols in the catalog.
    pub fn len(&self) -> (n: usize)
        ensures
            n == self.listing().len(),
    {
        self.entries.len()
    }

    /// The series of `symbol`, if the catalog has the symbol.
    pub fn get(&self, symbol: &str) -> (series: Option<&Vec<R>>)
        requires
            self.wf(),
        ensures
            match series {
                Some(found) => self@.contains_key(symbol@) && found@ == self@[symbol@],
                None => !self@.contains_key(symbol@),
            },
    {
        let wanted = symbol.to_owned();
        match self.find(&wanted) {
            Some(i) => {
                proof {
                    lemma_slot_unique(self.listing(), i as int);
                }
                Some(&self.entries[i].1)
            },
            None => None,
        }
    }

    /// Installs `series` under `symbol`, unless the series is empty: a symbol
    /// without records stays out of the catalog, and the catalog is then
    /// left as it was.
    pub fn install(&mut self, symbol: String, series: Vec<R>)
        requires
            old(self).wf(),
        ensures
            final(self).wf(),
            final(self).listing() == installed(old(self).listing(), symbol@, series@),
            final(self)@ == if series@.len() > 0 {
                old(self)@.insert(symbol@, series@)
            } else {
                old(self)@
            },
    {
        proof {
            lemma_installed(self.listing(), symbol@, series@);
        }
        if series.len() == 0 {
            return ;
        }
        let ghost before = self.listing();
        match self.find(&symbol) {
            Some(i) => {
                self.entries.set(i, (symbol, series));
                assert(self.listing() =~= before.update(i as int, (symbol@, series@)));
            },
            None => {
                self.entries.push((symbol, series));
                assert(self.listing() =~= before.push((symbol@, series@)));
            },
        }
    }

    /// Takes in what was fetched for `symbol`: the records that decoded are
    /// installed as the symbol's series, in chronological order, and the
    /// decode failures are handed back, each with its key.
    pub fn ingest<E>(&mut self, symbol: String, entries: Vec<Keyed<Result<R, E>>>) -> (failures:
        Vec<Keyed<E>>)
        requires
            old(self).wf(),
        ensures
            final(self).wf(),
            final(self).listing() == installed(
                old(self).listing(),
                symbol@,
                records_of(chronological(entries@)),
            ),
            final(self)@ == if records_of(chronological(entries@)).len() > 0 {
                old(self)@.insert(symbol@, records_of(chronological(entries@)))
            } else {
                old(self)@
            },
            failures@ == failures_of(chronological(entries@)),
    {
        let ingest = ingest_symbol(entries);
        self.install(symbol, ingest.series);
        ingest.failures
    }

    /// The number of records in the catalog, or `None` where it does not fit
    /// in `usize`.
    pub fn total_records(&self) -> (total: Option<usize>)
        ensures
            match total {
                Some(n) => n == record_total(self.listing()),
                None => record_total(self.listing()) > usize::MAX,
            },
    {
        let mut total: usize = 0;
        let mut i: usize = 0;
        while i < self.entries.len()
            invariant
                i <= self.entries.len(),
                total == record_total(self.listing().take(i as int)),
            decreases self.entries.len() - i,
        {
            let ghost next = self.listing().take(i + 1);
            assert(next.drop_last() =~= self.listing().take(i as int));
            match total.checked_add(self.entries[i].1.len()) {
                Some(sum) => {
                    total = sum;
                },
                None => {
                    proof {
                        lemma_record_total_monotonic(self.listing(), i + 1);
                    }
                    return None;
                },
            }
            i += 1;
        }
        assert(self.listing().take(i as int) =~= self.listing());
        Some(total)
    }

    /// Gives up the catalog as its symbols and series.
    pub fn into_entries(self) -> (entries: Vec<(String, Vec<R>)>)
        ensures
            entries@.map_values(|e: (String, Vec<R>)| (e.0@, e.1@)) == self.listing(),
    {
        self.entries
    }
}

} // verus!
