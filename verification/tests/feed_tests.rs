use ticker_relay::db::{get_currency_tickers, init_db, Store, WindowPolicy};
use ticker_relay::feed::{
    endpoint_from, feed_endpoint, handle_binance_ws, save_batch, FeedAction, FeedError, FeedEvent,
};
use ticker_relay::models::TickerData;

fn tick(time: i64, symbol: &str, close: &str) -> TickerData {
    TickerData {
        E: time,
        s: symbol.to_string(),
        c: close.to_string(),
        o: "1".to_string(),
        h: "1".to_string(),
        l: "1".to_string(),
        q: "1".to_string(),
    }
}

#[test]
fn a_batch_is_written_tick_by_tick() {
    let mut store = init_db();
    let batch = vec![tick(1, "BTCUSDT", "10"), tick(1, "ETHUSDT", "20"), tick(1, "BTCUSDT", "30"),
        tick(2, "BTCUSDT", "bad")];
    let action = handle_binance_ws(&mut store, FeedEvent::Batch(batch));
    assert_eq!(action, FeedAction::Continue { failed: 0 });
    assert_eq!(store.len(), 3);
    let rows = get_currency_tickers(&store, "BTCUSDT");
    assert_eq!(rows.len(), 2);
    assert_eq!(rows[0].event_time, 2);
    assert_eq!(rows[0].close_price.to_string(), "0");
    assert_eq!(rows[1].event_time, 1);
    assert_eq!(rows[1].close_price.to_string(), "10");
}

#[test]
fn a_batch_written_again_changes_nothing() {
    let mut store = init_db();
    let batch = vec![tick(1, "BTCUSDT", "10"), tick(1, "ETHUSDT", "20")];
    assert_eq!(save_batch(&mut store, &batch), 0);
    assert_eq!(store.len(), 2);
    assert_eq!(save_batch(&mut store, &batch), 0);
    assert_eq!(store.len(), 2);
    assert_eq!(save_batch(&mut store, &Vec::new()), 0);
    assert_eq!(store.len(), 2);
}

#[test]
fn a_message_that_is_no_batch_is_dropped() {
    let mut store = init_db();
    handle_binance_ws(&mut store, FeedEvent::Batch(vec![tick(1, "BTCUSDT", "10")]));
    assert_eq!(handle_binance_ws(&mut store, FeedEvent::Undecodable), FeedAction::Continue { failed: 0 });
    assert_eq!(store.len(), 1);
}

#[test]
fn a_failure_of_the_connection_stops_the_consumer() {
    let mut store = init_db();
    handle_binance_ws(&mut store, FeedEvent::Batch(vec![tick(1, "BTCUSDT", "10")]));
    assert_eq!(handle_binance_ws(&mut store, FeedEvent::ReceiveError), FeedAction::Stop);
    assert_eq!(handle_binance_ws(&mut store, FeedEvent::Ended), FeedAction::Stop);
    assert_eq!(store.len(), 1);
}

#[test]
fn the_endpoint_is_the_serialized_url() {
    assert_eq!(
        feed_endpoint("wss://fstream.binance.com/ws/!miniTicker@arr"),
        Ok("wss://fstream.binance.com/ws/!miniTicker@arr".to_string())
    );
    assert_eq!(feed_endpoint("https://example.net"), Ok("https://example.net/".to_string()));
    assert_eq!(
        feed_endpoint("HTTP://EXAMPLE.com/a b"),
        Ok("http://example.com/a%20b".to_string())
    );
}

#[test]
fn an_address_that_is_no_absolute_url_is_refused() {
    assert_eq!(feed_endpoint("not a url"), Err(FeedError::InvalidUrl));
    assert_eq!(feed_endpoint(""), Err(FeedError::InvalidUrl));
    assert_eq!(feed_endpoint("/relative/path"), Err(FeedError::InvalidUrl));
    assert_eq!(feed_endpoint("//example.net/"), Err(FeedError::InvalidUrl));
}

#[test]
fn the_endpoint_follows_what_parsing_gave() {
    assert_eq!(endpoint_from(None), Err(FeedError::InvalidUrl));
    assert_eq!(endpoint_from(Some("ws://localhost/".to_string())), Ok("ws://localhost/".to_string()));
}

#[test]
fn a_refused_write_does_not_stop_the_batch() {
    let mut store = Store::with_capacity(WindowPolicy::standard(), 2);
    let batch = vec![tick(1, "AAA", "1"), tick(1, "BBB", "2"), tick(1, "CCC", "3"), tick(1, "AAA", "4"),
        tick(2, "AAA", "5")];
    assert_eq!(
        handle_binance_ws(&mut store, FeedEvent::Batch(batch)),
        FeedAction::Continue { failed: 2 }
    );
    assert_eq!(store.len(), 2);
    assert!(store.contains_key("AAA", 1));
    assert!(store.contains_key("BBB", 1));
    assert!(!store.contains_key("CCC", 1));
    assert_eq!(save_batch(&mut store, &vec![tick(9, "ZZZ", "1")]), 1);
}
