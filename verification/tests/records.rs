use equity_ingest::record::{PriceRecord, StoredRecord};

fn stored(timestamp: u64, close: f64, volume: i64) -> StoredRecord<f64> {
    StoredRecord {
        symbol: "AMD".to_string(),
        timestamp,
        open: 10.5,
        high: 12.25,
        low: 9.75,
        close,
        volume,
    }
}

#[test]
fn ingested_record_takes_over_what_was_stored() {
    let record = PriceRecord::from_stored(stored(1_700_000_000, 11.5, 1200), |count| count as f64);
    assert_eq!(record.symbol, "AMD");
    assert_eq!(record.timestamp, 1_700_000_000);
    assert_eq!(record.open, 10.5);
    assert_eq!(record.high, 12.25);
    assert_eq!(record.low, 9.75);
    assert_eq!(record.close, 11.5);
}

#[test]
fn adjusted_close_is_the_close() {
    let record = PriceRecord::from_stored(stored(1, 11.5, 0), |count| count as f64);
    assert_eq!(record.adjusted_close, 11.5);
    let record = PriceRecord::from_stored(stored(1, -0.25, 0), |count| count as f64);
    assert_eq!(record.adjusted_close, -0.25);
}

#[test]
fn derived_fields_are_left_open() {
    let record = PriceRecord::from_stored(stored(1, 11.5, 0), |count| count as f64);
    assert!(record.moving_averages.is_none());
    assert!(record.rsi.is_none());
    assert!(record.macd.is_none());
}

#[test]
fn volume_is_what_the_conversion_makes_of_the_count() {
    let record = PriceRecord::from_stored(stored(1, 11.5, 1200), |count| count as f64);
    assert_eq!(record.volume, 1200.0);
    let record = PriceRecord::from_stored(stored(1, 11.5, -3), |count| count as f64);
    assert_eq!(record.volume, -3.0);
    let record = PriceRecord::from_stored(stored(1, 11.5, 7), |count| (count * 2) as f64);
    assert_eq!(record.volume, 14.0);
}

#[test]
fn timestamp_keeps_its_bits() {
    let at = |timestamp: u64| {
        PriceRecord::from_stored(stored(timestamp, 1.0, 0), |count| count as f64).timestamp
    };
    assert_eq!(at(0), 0);
    assert_eq!(at(i64::MAX as u64), i64::MAX);
    assert_eq!(at(i64::MAX as u64 + 1), i64::MIN);
    assert_eq!(at(u64::MAX), -1);
}

#[test]
fn record_can_hold_whole_numbers() {
    let whole = StoredRecord {
        symbol: "GS".to_string(),
        timestamp: 5,
        open: 100u32,
        high: 120,
        low: 90,
        close: 110,
        volume: 40,
    };
    let record = PriceRecord::from_stored(whole, |count| count as u32);
    assert_eq!(
        record,
        PriceRecord {
            symbol: "GS".to_string(),
            timestamp: 5,
            open: 100,
            high: 120,
            low: 90,
            close: 110,
            volume: 40,
            adjusted_close: 110,
            moving_averages: None,
            rsi: None,
            macd: None,
        }
    );
}
