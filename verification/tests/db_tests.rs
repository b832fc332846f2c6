use ticker_relay::db::{
    get_currency_tickers, get_latest_tickers, init_db, save_ticker_data, Store, StoreError,
    WindowPolicy,
};
use ticker_relay::decimal::Decimal;
use ticker_relay::models::{SymbolData, TickerData, VolumeData};

fn tick(time: i64, symbol: &str, close: &str, volume: &str) -> TickerData {
    TickerData {
        E: time,
        s: symbol.to_string(),
        c: close.to_string(),
        o: "1".to_string(),
        h: "2".to_string(),
        l: "0.5".to_string(),
        q: volume.to_string(),
    }
}

fn dec(text: &str) -> Decimal {
    Decimal::parse(text).unwrap()
}

fn symbols(data: &Vec<VolumeData>) -> Vec<String> {
    data.iter().map(|entry| entry.symbol.clone()).collect()
}

fn times(rows: &Vec<SymbolData>) -> Vec<i64> {
    rows.iter().map(|row| row.event_time).collect()
}

fn seven_symbols() -> Store {
    let mut store = init_db();
    let volumes = [("AAA", "10"), ("BBB", "70"), ("CCC", "30"), ("DDD", "60"), ("EEE", "20"),
        ("FFF", "50"), ("GGG", "40")];
    for (symbol, volume) in volumes {
        save_ticker_data(&mut store, &tick(1_000, symbol, "1", volume)).unwrap();
    }
    store
}

#[test]
fn init_db_gives_an_empty_table_with_the_standard_windows() {
    let store = init_db();
    assert_eq!(store.len(), 0);
    assert_eq!(store.capacity(), 2_147_483_647);
    let policy = store.policy();
    assert_eq!(policy.chunk_interval_ms, 600_000);
    assert_eq!(policy.retention_ms, 3_600_000);
    assert_eq!(policy.compression_ms, 600_000);
    assert_eq!(policy, WindowPolicy::standard());
}

#[test]
fn a_tick_written_twice_is_stored_once() {
    let mut store = init_db();
    let first = tick(1_000, "BTCUSDT", "10", "500");
    assert_eq!(save_ticker_data(&mut store, &first), Ok(()));
    assert_eq!(store.len(), 1);
    assert_eq!(save_ticker_data(&mut store, &first), Ok(()));
    assert_eq!(store.len(), 1);
    assert!(store.contains_key("BTCUSDT", 1_000));
    assert!(!store.contains_key("BTCUSDT", 1_001));
    assert!(!store.contains_key("ETHUSDT", 1_000));
}

#[test]
fn a_second_tick_of_the_same_key_changes_nothing() {
    let mut store = init_db();
    save_ticker_data(&mut store, &tick(1_000, "BTCUSDT", "10", "500")).unwrap();
    assert_eq!(save_ticker_data(&mut store, &tick(1_000, "BTCUSDT", "99", "1")), Ok(()));
    let rows = get_currency_tickers(&store, "BTCUSDT");
    assert_eq!(rows.len(), 1);
    assert_eq!(rows[0].close_price, dec("10"));
    assert_eq!(rows[0].quote_volume, dec("500"));
}

#[test]
fn ranks_two_symbols_by_volume() {
    let mut store = init_db();
    save_ticker_data(&mut store, &tick(1_000, "BTCUSDT", "1", "500")).unwrap();
    save_ticker_data(&mut store, &tick(1_000, "ETHUSDT", "2", "900")).unwrap();
    let page = get_latest_tickers(&store, 1, 10).unwrap();
    assert_eq!(page.total, 2);
    assert_eq!(page.page, 1);
    assert_eq!(page.per_page, 10);
    assert_eq!(symbols(&page.data), vec!["ETHUSDT", "BTCUSDT"]);
    assert_eq!(page.data[0].volume, dec("900"));
    assert_eq!(page.data[0].price, dec("2"));
    assert_eq!(page.data[1].volume.to_string(), "500");
    assert_eq!(page.data[1].price.to_string(), "1");
}

#[test]
fn a_malformed_field_is_stored_as_zero() {
    let mut store = init_db();
    let mut malformed = tick(5_000, "BTCUSDT", "10.5", "500");
    malformed.o = "abc".to_string();
    assert_eq!(save_ticker_data(&mut store, &malformed), Ok(()));
    let rows = get_currency_tickers(&store, "BTCUSDT");
    assert_eq!(rows.len(), 1);
    assert_eq!(rows[0].open_price, Decimal::zero());
    assert_eq!(rows[0].open_price.to_string(), "0");
    assert_eq!(rows[0].close_price, dec("10.5"));
    assert_eq!(rows[0].high_price, dec("2"));
    assert_eq!(rows[0].low_price, dec("0.5"));
    assert_eq!(rows[0].quote_volume, dec("500"));
    assert_eq!(rows[0].event_time, 5_000);
    assert_eq!(rows[0].symbol, "BTCUSDT");
}

#[test]
fn from_ticker_reads_every_field() {
    let ticker = TickerData {
        E: 42,
        s: "XRPUSDT".to_string(),
        c: "0.5210".to_string(),
        o: "0.5".to_string(),
        h: "".to_string(),
        l: "0.49".to_string(),
        q: "1e9".to_string(),
    };
    let row = SymbolData::from_ticker(&ticker);
    assert_eq!(row.event_time, 42);
    assert_eq!(row.symbol, "XRPUSDT");
    assert_eq!(row.close_price.to_string(), "0.521");
    assert_eq!(row.open_price.to_string(), "0.5");
    assert_eq!(row.high_price.to_string(), "0");
    assert_eq!(row.low_price.to_string(), "0.49");
    assert_eq!(row.quote_volume.to_string(), "0");
    let entry = VolumeData::from_row(&row);
    assert_eq!(entry.symbol, "XRPUSDT");
    assert_eq!(entry.price, row.close_price);
    assert_eq!(entry.volume, row.quote_volume);
}

#[test]
fn the_latest_row_of_a_symbol_is_the_one_ranked() {
    let mut store = init_db();
    save_ticker_data(&mut store, &tick(1_000, "BTCUSDT", "10", "5")).unwrap();
    save_ticker_data(&mut store, &tick(3_000, "BTCUSDT", "30", "1")).unwrap();
    save_ticker_data(&mut store, &tick(2_000, "BTCUSDT", "20", "9")).unwrap();
    save_ticker_data(&mut store, &tick(1_500, "ETHUSDT", "7", "3")).unwrap();
    let page = get_latest_tickers(&store, 1, 30).unwrap();
    assert_eq!(page.total, 2);
    assert_eq!(symbols(&page.data), vec!["ETHUSDT", "BTCUSDT"]);
    assert_eq!(page.data[1].price, dec("30"));
    assert_eq!(page.data[1].volume, dec("1"));
}

#[test]
fn equal_volumes_are_ranked_by_symbol() {
    let mut store = init_db();
    save_ticker_data(&mut store, &tick(1_000, "CCC", "1", "100.0")).unwrap();
    save_ticker_data(&mut store, &tick(1_000, "AAA", "1", "100")).unwrap();
    save_ticker_data(&mut store, &tick(1_000, "BBB", "1", "0100.00")).unwrap();
    save_ticker_data(&mut store, &tick(1_000, "ZZZ", "1", "100.01")).unwrap();
    let page = get_latest_tickers(&store, 1, 30).unwrap();
    assert_eq!(symbols(&page.data), vec!["ZZZ", "AAA", "BBB", "CCC"]);
}

#[test]
fn pages_read_one_after_the_other_are_the_whole_ranked_view() {
    let store = seven_symbols();
    let whole = get_latest_tickers(&store, 1, 100).unwrap();
    assert_eq!(symbols(&whole.data), vec!["BBB", "DDD", "FFF", "GGG", "CCC", "EEE", "AAA"]);
    for per_page in 1..=9 {
        let mut read: Vec<String> = Vec::new();
        let mut page = 1;
        loop {
            let response = get_latest_tickers(&store, page, per_page).unwrap();
            assert_eq!(response.total, 7);
            assert_eq!(response.page, page);
            assert_eq!(response.per_page, per_page);
            read.extend(symbols(&response.data));
            if (response.data.len() as i64) < per_page {
                break;
            }
            page += 1;
        }
        assert_eq!(read, symbols(&whole.data), "page size {}", per_page);
    }
}

#[test]
fn a_page_is_the_slice_from_page_minus_one_times_size() {
    let store = seven_symbols();
    let second = get_latest_tickers(&store, 2, 3).unwrap();
    assert_eq!(symbols(&second.data), vec!["GGG", "CCC", "EEE"]);
    let third = get_latest_tickers(&store, 3, 3).unwrap();
    assert_eq!(symbols(&third.data), vec!["AAA"]);
    assert_eq!(third.total, 7);
    let fourth = get_latest_tickers(&store, 2, 2).unwrap();
    assert_eq!(symbols(&fourth.data), vec!["FFF", "GGG"]);
}

#[test]
fn a_page_past_the_end_is_empty_with_the_right_total() {
    let store = seven_symbols();
    let past = get_latest_tickers(&store, 4, 3).unwrap();
    assert!(past.data.is_empty());
    assert_eq!(past.total, 7);
    assert_eq!(past.page, 4);
    let far = get_latest_tickers(&store, i64::MAX, i64::MAX).unwrap();
    assert!(far.data.is_empty());
    assert_eq!(far.total, 7);
    let none = get_latest_tickers(&init_db(), 1, 30).unwrap();
    assert!(none.data.is_empty());
    assert_eq!(none.total, 0);
}

#[test]
fn asked_twice_the_ranked_view_answers_the_same() {
    let store = seven_symbols();
    assert_eq!(get_latest_tickers(&store, 2, 3), get_latest_tickers(&store, 2, 3));
    assert_eq!(get_latest_tickers(&store, 0, 3), get_latest_tickers(&store, 0, 3));
    assert_eq!(get_currency_tickers(&store, "AAA"), get_currency_tickers(&store, "AAA"));
}

#[test]
fn a_page_before_the_first_entry_is_refused() {
    let store = seven_symbols();
    assert_eq!(get_latest_tickers(&store, 0, 10), Err(StoreError::NegativeOffset));
    assert_eq!(get_latest_tickers(&store, -3, 1), Err(StoreError::NegativeOffset));
    assert_eq!(get_latest_tickers(&store, 3, -1), Err(StoreError::NegativeOffset));
    assert_eq!(get_latest_tickers(&store, i64::MIN, 1), Err(StoreError::NegativeOffset));
}

#[test]
fn a_negative_page_size_is_refused() {
    let store = seven_symbols();
    assert_eq!(get_latest_tickers(&store, 1, -1), Err(StoreError::NegativeLimit));
    assert_eq!(get_latest_tickers(&store, 0, -5), Err(StoreError::NegativeLimit));
    assert_eq!(get_latest_tickers(&store, i64::MIN, i64::MIN), Err(StoreError::NegativeLimit));
}

#[test]
fn a_page_size_of_zero_gives_an_empty_page() {
    let store = seven_symbols();
    for page in [-5, 0, 1, 9] {
        let response = get_latest_tickers(&store, page, 0).unwrap();
        assert!(response.data.is_empty());
        assert_eq!(response.total, 7);
        assert_eq!(response.page, page);
        assert_eq!(response.per_page, 0);
    }
}

#[test]
fn the_view_of_a_symbol_holds_its_ten_newest_rows() {
    let mut store = init_db();
    let order = [7, 2, 11, 5, 1, 12, 9, 3, 10, 6, 4, 8];
    for time in order {
        let close = time.to_string();
        save_ticker_data(&mut store, &tick(time * 1_000, "BTCUSDT", &close, "1")).unwrap();
        save_ticker_data(&mut store, &tick(time * 1_000 + 1, "ETHUSDT", "1", "1")).unwrap();
    }
    let rows = get_currency_tickers(&store, "BTCUSDT");
    assert_eq!(rows.len(), 10);
    assert_eq!(
        times(&rows),
        vec![12_000, 11_000, 10_000, 9_000, 8_000, 7_000, 6_000, 5_000, 4_000, 3_000]
    );
    for row in &rows {
        assert_eq!(row.symbol, "BTCUSDT");
        assert_eq!(row.close_price, dec(&(row.event_time / 1_000).to_string()));
    }
    for pair in rows.windows(2) {
        assert!(pair[0].event_time > pair[1].event_time);
    }
}

#[test]
fn the_view_of_a_symbol_with_few_rows_holds_them_all() {
    let mut store = init_db();
    save_ticker_data(&mut store, &tick(-5, "BTCUSDT", "1", "1")).unwrap();
    save_ticker_data(&mut store, &tick(i64::MAX, "BTCUSDT", "2", "1")).unwrap();
    save_ticker_data(&mut store, &tick(i64::MIN, "BTCUSDT", "3", "1")).unwrap();
    assert_eq!(times(&get_currency_tickers(&store, "BTCUSDT")), vec![i64::MAX, -5, i64::MIN]);
}

#[test]
fn the_view_of_an_unknown_symbol_is_empty() {
    let store = seven_symbols();
    assert!(get_currency_tickers(&store, "DOGEUSDT").is_empty());
    assert!(get_currency_tickers(&store, "").is_empty());
    assert!(get_currency_tickers(&store, "AA").is_empty());
    assert!(get_currency_tickers(&init_db(), "AAA").is_empty());
}

#[test]
fn purge_drops_the_rows_past_the_retention_horizon() {
    let mut store = init_db();
    let now = 10_000_000;
    save_ticker_data(&mut store, &tick(now - 3_600_001, "OLD", "1", "1")).unwrap();
    save_ticker_data(&mut store, &tick(now - 3_600_000, "EDGE", "1", "2")).unwrap();
    save_ticker_data(&mut store, &tick(now - 7_200_000, "BTCUSDT", "1", "3")).unwrap();
    save_ticker_data(&mut store, &tick(now - 1, "BTCUSDT", "2", "4")).unwrap();
    save_ticker_data(&mut store, &tick(now + 5, "NEW", "1", "5")).unwrap();
    assert_eq!(store.purge_expired(now), 2);
    assert_eq!(store.len(), 3);
    assert!(!store.contains_key("OLD", now - 3_600_001));
    assert!(store.contains_key("EDGE", now - 3_600_000));
    assert!(!store.contains_key("BTCUSDT", now - 7_200_000));
    assert!(store.contains_key("BTCUSDT", now - 1));
    assert!(store.contains_key("NEW", now + 5));
    let page = get_latest_tickers(&store, 1, 30).unwrap();
    assert_eq!(symbols(&page.data), vec!["NEW", "BTCUSDT", "EDGE"]);
    assert_eq!(store.purge_expired(now), 0);
    assert_eq!(store.policy(), WindowPolicy::standard());
}

#[test]
fn purge_follows_the_windows_of_the_table() {
    let policy = WindowPolicy { chunk_interval_ms: 10, retention_ms: 100, compression_ms: 20 };
    let mut store = Store::new(policy);
    assert_eq!(store.policy(), policy);
    for time in [0, 50, 100, 150, 200] {
        save_ticker_data(&mut store, &tick(time, "BTCUSDT", "1", "1")).unwrap();
    }
    assert_eq!(store.purge_expired(200), 2);
    assert_eq!(times(&get_currency_tickers(&store, "BTCUSDT")), vec![200, 150, 100]);
    assert_eq!(store.purge_expired(i64::MAX), 3);
    assert_eq!(store.len(), 0);
}

#[test]
fn the_horizons_are_measured_in_age() {
    let policy = WindowPolicy::standard();
    assert!(!policy.is_expired(1_000, 1_000 + 3_600_000));
    assert!(policy.is_expired(1_000, 1_000 + 3_600_001));
    assert!(!policy.is_expired(1_000, 0));
    assert!(policy.is_expired(i64::MIN, i64::MAX));
    assert!(!policy.is_expired(i64::MAX, i64::MIN));
    assert!(!policy.is_compressible(1_000, 1_000 + 600_000));
    assert!(policy.is_compressible(1_000, 1_000 + 600_001));
}

#[test]
fn a_full_table_refuses_a_new_row() {
    let mut store = Store::with_capacity(WindowPolicy::standard(), 2);
    assert_eq!(store.capacity(), 2);
    assert_eq!(save_ticker_data(&mut store, &tick(1, "BTCUSDT", "1", "1")), Ok(()));
    assert_eq!(save_ticker_data(&mut store, &tick(2, "BTCUSDT", "1", "1")), Ok(()));
    assert_eq!(save_ticker_data(&mut store, &tick(3, "BTCUSDT", "1", "1")), Err(StoreError::Full));
    assert_eq!(save_ticker_data(&mut store, &tick(1, "ETHUSDT", "1", "1")), Err(StoreError::Full));
    assert_eq!(store.len(), 2);
    assert!(!store.contains_key("BTCUSDT", 3));
    assert_eq!(save_ticker_data(&mut store, &tick(2, "BTCUSDT", "9", "9")), Ok(()));
    assert_eq!(store.len(), 2);
    assert_eq!(store.purge_expired(3_600_002), 1);
    assert_eq!(store.capacity(), 2);
    assert_eq!(save_ticker_data(&mut store, &tick(3_600_002, "BTCUSDT", "1", "1")), Ok(()));
    assert_eq!(times(&get_currency_tickers(&store, "BTCUSDT")), vec![3_600_002, 2]);
}

#[test]
fn a_table_is_never_larger_than_a_table_can_be() {
    let store = Store::with_capacity(WindowPolicy::standard(), usize::MAX);
    assert_eq!(store.capacity(), 2_147_483_647.min(usize::MAX));
    let none = Store::with_capacity(WindowPolicy::standard(), 0);
    assert_eq!(none.capacity(), 0);
    let mut none = none;
    assert_eq!(save_ticker_data(&mut none, &tick(1, "BTCUSDT", "1", "1")), Err(StoreError::Full));
    assert_eq!(Store::new(WindowPolicy::standard()).capacity(), 2_147_483_647);
}
