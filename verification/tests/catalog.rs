use equity_ingest::catalog::SeriesCatalog;
use equity_ingest::plan::{plan_for, plan_run, PipelineCall, EMPTY_CATALOG_STATUS, SUCCESS_STATUS};
use equity_ingest::reconcile::Keyed;

fn entry(key: &str, item: Result<u64, String>) -> Keyed<Result<u64, String>> {
    Keyed { key: key.to_string(), item }
}

#[test]
fn new_catalog_is_empty() {
    let catalog: SeriesCatalog<u64> = SeriesCatalog::new();
    assert_eq!(catalog.len(), 0);
    assert_eq!(catalog.total_records(), Some(0));
    assert!(catalog.get("AMD").is_none());
    assert!(catalog.into_entries().is_empty());
}

#[test]
fn installed_series_is_found_under_its_symbol() {
    let mut catalog: SeriesCatalog<u64> = SeriesCatalog::new();
    catalog.install("AMD".to_string(), vec![1, 2, 3]);
    catalog.install("GS".to_string(), vec![9]);
    assert_eq!(catalog.len(), 2);
    assert_eq!(catalog.get("AMD"), Some(&vec![1, 2, 3]));
    assert_eq!(catalog.get("GS"), Some(&vec![9]));
    assert!(catalog.get("WDC").is_none());
    assert!(catalog.get("amd").is_none());
    assert_eq!(catalog.total_records(), Some(4));
}

#[test]
fn empty_series_is_not_installed() {
    let mut catalog: SeriesCatalog<u64> = SeriesCatalog::new();
    catalog.install("AMD".to_string(), vec![1]);
    catalog.install("WDC".to_string(), Vec::new());
    assert_eq!(catalog.len(), 1);
    assert!(catalog.get("WDC").is_none());
    assert_eq!(catalog.total_records(), Some(1));
}

#[test]
fn empty_series_leaves_an_installed_one_alone() {
    let mut catalog: SeriesCatalog<u64> = SeriesCatalog::new();
    catalog.install("AMD".to_string(), vec![1, 2]);
    catalog.install("AMD".to_string(), Vec::new());
    assert_eq!(catalog.get("AMD"), Some(&vec![1, 2]));
    assert_eq!(catalog.len(), 1);
}

#[test]
fn later_series_takes_the_place_of_an_earlier_one() {
    let mut catalog: SeriesCatalog<u64> = SeriesCatalog::new();
    catalog.install("AMD".to_string(), vec![1, 2]);
    catalog.install("GS".to_string(), vec![3]);
    catalog.install("AMD".to_string(), vec![7, 8, 9]);
    assert_eq!(catalog.len(), 2);
    assert_eq!(catalog.get("AMD"), Some(&vec![7, 8, 9]));
    assert_eq!(catalog.total_records(), Some(4));
    assert_eq!(
        catalog.into_entries(),
        vec![("AMD".to_string(), vec![7, 8, 9]), ("GS".to_string(), vec![3])]
    );
}

#[test]
fn record_total_that_does_not_fit_is_none() {
    let mut catalog: SeriesCatalog<()> = SeriesCatalog::new();
    catalog.install("A".to_string(), vec![(); usize::MAX]);
    assert_eq!(catalog.total_records(), Some(usize::MAX));
    catalog.install("B".to_string(), vec![(); 1]);
    assert_eq!(catalog.total_records(), None);
}

#[test]
fn wdc_without_keys_is_absent() {
    let mut catalog: SeriesCatalog<u64> = SeriesCatalog::new();
    let failures = catalog.ingest("WDC".to_string(), Vec::<Keyed<Result<u64, String>>>::new());
    assert!(failures.is_empty());
    assert!(catalog.get("WDC").is_none());
    assert_eq!(catalog.len(), 0);
}

#[test]
fn symbol_whose_payloads_all_fail_is_absent() {
    let mut catalog: SeriesCatalog<u64> = SeriesCatalog::new();
    let failures = catalog.ingest(
        "STLD".to_string(),
        vec![
            entry("equity:STLD:2", Err("x".to_string())),
            entry("equity:STLD:1", Err("y".to_string())),
        ],
    );
    assert_eq!(failures.len(), 2);
    assert_eq!(failures[0].key, "equity:STLD:1");
    assert_eq!(failures[0].item, "y");
    assert!(catalog.get("STLD").is_none());
    assert_eq!(catalog.len(), 0);
    assert!(catalog.into_entries().iter().all(|(_, series)| !series.is_empty()));
}

#[test]
fn ingest_installs_the_series_in_timestamp_order() {
    let mut catalog: SeriesCatalog<u64> = SeriesCatalog::new();
    let failures = catalog.ingest(
        "AMD".to_string(),
        vec![
            entry("equity:AMD:300", Ok(300)),
            entry("equity:AMD:100", Ok(100)),
            entry("equity:AMD:250", Err("truncated".to_string())),
            entry("equity:AMD:200", Ok(200)),
        ],
    );
    assert_eq!(catalog.get("AMD"), Some(&vec![100, 200, 300]));
    assert_eq!(failures.len(), 1);
    assert_eq!(failures[0].key, "equity:AMD:250");
    assert_eq!(catalog.total_records(), Some(3));
}

#[test]
fn run_without_any_key_stops_before_the_pipeline() {
    let mut catalog: SeriesCatalog<u64> = SeriesCatalog::new();
    for symbol in ["MNQ", "NVDA", "AMD", "WDC", "SLV"] {
        let failures =
            catalog.ingest(symbol.to_string(), Vec::<Keyed<Result<u64, String>>>::new());
        assert!(failures.is_empty());
    }
    let total = catalog.total_records();
    assert_eq!(total, Some(0));
    assert_eq!(catalog.len(), 0);
    let plan = plan_run(total.unwrap());
    assert_ne!(plan.exit_status, 0);
    assert!(plan.calls.is_empty());
}

#[test]
fn run_without_records_ends_with_status_one() {
    let plan = plan_run(0);
    assert_eq!(plan.exit_status, 1);
    assert_eq!(plan.exit_status, EMPTY_CATALOG_STATUS);
    assert_eq!(plan.calls, Vec::<PipelineCall>::new());
}

#[test]
fn run_with_records_fits_then_asks_for_each_view() {
    for total in [1usize, 2, 240, usize::MAX] {
        let plan = plan_run(total);
        assert_eq!(plan.exit_status, 0);
        assert_eq!(plan.exit_status, SUCCESS_STATUS);
        assert_eq!(
            plan.calls,
            vec![
                PipelineCall::Train,
                PipelineCall::RankByMomentum,
                PipelineCall::RankByVolume,
                PipelineCall::RankByProbableAlpha,
                PipelineCall::CorrelationSummary,
            ]
        );
    }
}

#[test]
fn empty_catalog_is_planned_to_stop() {
    let mut catalog: SeriesCatalog<u64> = SeriesCatalog::new();
    catalog.install("WDC".to_string(), Vec::new());
    let plan = plan_for(&catalog);
    assert_eq!(plan.exit_status, 1);
    assert!(plan.calls.is_empty());
}

#[test]
fn catalog_with_a_record_is_planned_to_run() {
    let mut catalog: SeriesCatalog<u64> = SeriesCatalog::new();
    catalog.install("AMD".to_string(), vec![1]);
    let plan = plan_for(&catalog);
    assert_eq!(plan.exit_status, 0);
    assert_eq!(plan.calls.len(), 5);
    assert_eq!(plan.calls[0], PipelineCall::Train);
    assert_eq!(plan.calls[4], PipelineCall::CorrelationSummary);
}

#[test]
fn catalog_with_more_records_than_fit_is_planned_to_run() {
    let mut catalog: SeriesCatalog<()> = SeriesCatalog::new();
    catalog.install("A".to_string(), vec![(); usize::MAX]);
    catalog.install("B".to_string(), vec![(); usize::MAX]);
    assert_eq!(catalog.total_records(), None);
    let plan = plan_for(&catalog);
    assert_eq!(plan.exit_status, 0);
    assert_eq!(plan.calls.len(), 5);
}

#[test]
fn entries_are_listed_in_the_order_of_first_install() {
    let mut catalog: SeriesCatalog<u64> = SeriesCatalog::new();
    let installs = [("NET", vec![1]), ("AMD", vec![2]), ("GS", vec![]), ("NET", vec![3, 4])];
    for (symbol, series) in installs {
        catalog.install(symbol.to_string(), series);
    }
    assert_eq!(
        catalog.into_entries(),
        vec![("NET".to_string(), vec![3, 4]), ("AMD".to_string(), vec![2])]
    );
}
