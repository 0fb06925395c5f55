//! Price records.
//!
//! A record is one observation of one instrument. The store holds the part
//! of it that was observed; the rest is filled in from that part when the
//! record is ingested, or left open for the model pipeline. The numbers of a
//! record are of a type that the caller chooses.

use vstd::prelude::*;

verus! {

/// A record as the store holds it.
#[derive(Debug, Clone, PartialEq)]
pub struct StoredRecord<N> {
    pub symbol: String,
    pub timestamp: u64,
    pub open: N,
    pub high: N,
    pub low: N,
    pub close: N,
    /// The traded volume, as a count.
    pub volume: i64,
}

/// Moving averages of the close.
#[derive(Debug, Clone, PartialEq)]
pub struct MovingAverages<N> {
    pub short: N,
    pub long: N,
}

/// The MACD line with its signal and their difference.
#[derive(Debug, Clone, PartialEq)]
pub struct Macd<N> {
    pub line: N,
    pub signal: N,
    pub histogram: N,
}

/// One observation of one instrument, as the model pipeline works on it.
#[derive(Debug, Clone, PartialEq)]
pub struct PriceRecord<N> {
    pub symbol: String,
    pub timestamp: i64,
    pub open: N,
    pub high: N,
    pub low: N,
    pub close: N,
    /// The traded volume, as a quantity.
    pub volume: N,
    /// The close after adjustments; the close itself where there are none.
    pub adjusted_close: N,
    /// Filled in by the model pipeline.
    pub moving_averages: Option<MovingAverages<N>>,
    /// Filled in by the model pipeline.
    pub rsi: Option<N>,
    /// Filled in by the model pipeline.
    pub macd: Option<Macd<N>>,
}

/// The signed timestamp with the same 64 bits as `timestamp`.
pub open spec fn signed_timestamp(timestamp: u64) -> i64 {
    timestamp as i64
}

/// A timestamp below 2^63 stays as it is; a greater one comes out negative,
/// less by 2^64.
pub proof fn lemma_signed_timestamp(timestamp: u64)
    ensures
        timestamp <= i64::MAX ==> signed_timestamp(timestamp) == timestamp,
        timestamp > i64::MAX ==> signed_timestamp(timestamp) == timestamp
            - 0x1_0000_0000_0000_0000,
{
    assert(timestamp <= 0x7fff_ffff_ffff_ffffu64 ==> timestamp as i64 == timestamp) by (bit_vector);
    assert(timestamp > 0x7fff_ffff_ffff_ffffu64 ==> timestamp as i64 == timestamp
        - 0x1_0000_0000_0000_0000) by (bit_vector);
}

/// The record that is ingested for `stored`, given its volume as the
/// quantity `volume`.
pub open spec fn ingested<N>(stored: StoredRecord<N>, volume: N) -> PriceRecord<N> {
    PriceRecord {
        symbol: stored.symbol,
        timestamp: signed_timestamp(stored.timestamp),
        open: stored.open,
        high: stored.high,
        low: stored.low,
        close: stored.close,
        volume,
        adjusted_close: stored.close,
        moving_averages: None,
        rsi: None,
        macd: None,
    }
}

impl<N: Copy> PriceRecord<N> {
    /// Makes the record that is ingested for `stored`.
    ///
    /// The prices are taken over, the close stands for the adjusted close,
    /// and what the model pipeline derives is left open. The volume is the
    /// quantity that `to_quantity` makes of the stored count.
    pub fn from_stored<F: FnOnce(i64) -> N>(stored: StoredRecord<N>, to_quantity: F) -> (record:
        Self)
        requires
            call_requires(to_quantity, (stored.volume,)),
        ensures
            call_ensures(to_quantity, (stored.volume,), record.volume),
            record == ingested(stored, record.volume),
    {
        let volume = to_quantity(stored.volume);
        PriceRecord {
            symbol: stored.symbol,
            timestamp: #[verifier::truncate] (stored.timestamp as i64),
            open: stored.open,
            high: stored.high,
            low: stored.low,
            close: stored.close,
            volume,
            adjusted_close: stored.close,
            moving_averages: None,
            rsi: None,
            macd: None,
        }
    }
}

} // verus!
