use ticker_relay::db::{get_currency_tickers, get_latest_tickers, init_db, save_ticker_data, Store};
use ticker_relay::models::{PaginationParams, TickerData};
use ticker_relay::session::{
    handle_all_currencies, handle_single_currency, AllCurrenciesSession, Payload, Session,
    SessionAction, SessionEvent, SessionState, SingleCurrencySession,
};

fn tick(time: i64, symbol: &str, volume: &str) -> TickerData {
    TickerData {
        E: time,
        s: symbol.to_string(),
        c: "1".to_string(),
        o: "1".to_string(),
        h: "1".to_string(),
        l: "1".to_string(),
        q: volume.to_string(),
    }
}

fn forty_symbols() -> Store {
    let mut store = init_db();
    for i in 0..40 {
        let symbol = format!("S{}{}", (b'A' + (i / 26) as u8) as char, (b'A' + (i % 26) as u8) as char);
        save_ticker_data(&mut store, &tick(1_000, &symbol, &(1_000 - i).to_string())).unwrap();
    }
    store
}

fn ask(page: Option<i64>, per_page: Option<i64>) -> SessionEvent {
    SessionEvent::Text(Some(PaginationParams { page, per_page }))
}

fn streaming(store: &Store) -> AllCurrenciesSession {
    let mut session = AllCurrenciesSession::new();
    handle_all_currencies(&mut session, SessionEvent::HandshakeCompleted, store);
    assert_eq!(session.state, SessionState::Streaming);
    session
}

#[test]
fn a_new_session_waits_for_its_handshake() {
    let session = AllCurrenciesSession::new();
    assert_eq!(session.state, SessionState::Connecting);
    assert_eq!(session.page, 1);
    assert_eq!(session.per_page, 30);
    assert_eq!(session.interval_secs, 60);
    let single = SingleCurrencySession::new("BTCUSDT".to_string());
    assert_eq!(single.state, SessionState::Connecting);
    assert_eq!(single.symbol, "BTCUSDT");
    assert_eq!(single.interval_secs, 10);
    assert_eq!(session.with_interval(5).interval_secs, 5);
    assert_eq!(session.with_interval(5).per_page, 30);
    let faster = single.with_interval(2);
    assert_eq!(faster.interval_secs, 2);
    assert_eq!(faster.symbol, "BTCUSDT");
    assert_eq!(faster.state, SessionState::Connecting);
}

#[test]
fn the_page_asked_for_stays_the_page_of_the_session() {
    let store = forty_symbols();
    let mut session = AllCurrenciesSession::new();
    let first = handle_all_currencies(&mut session, SessionEvent::HandshakeCompleted, &store);
    assert_eq!(session.state, SessionState::Streaming);
    assert_eq!(
        first,
        SessionAction::Push(Payload::Page(get_latest_tickers(&store, 1, 30).unwrap()))
    );
    let asked = handle_all_currencies(&mut session, ask(Some(2), None), &store);
    assert_eq!(session.page, 2);
    let second_page = get_latest_tickers(&store, 2, 30).unwrap();
    assert_eq!(second_page.data.len(), 10);
    assert_eq!(second_page.page, 2);
    assert_eq!(second_page.total, 40);
    assert_eq!(second_page.data[0].symbol, "SBE");
    assert_eq!(asked, SessionAction::Push(Payload::Page(second_page)));
    let ticked = handle_all_currencies(&mut session, SessionEvent::TimerTick, &store);
    assert_eq!(session.page, 2);
    assert_eq!(session.state, SessionState::Streaming);
    assert_eq!(
        ticked,
        SessionAction::Push(Payload::Page(get_latest_tickers(&store, 2, 30).unwrap()))
    );
}

#[test]
fn the_first_push_shows_the_first_thirty() {
    let store = forty_symbols();
    let mut session = AllCurrenciesSession::new();
    match handle_all_currencies(&mut session, SessionEvent::HandshakeCompleted, &store) {
        SessionAction::Push(Payload::Page(page)) => {
            assert_eq!(page.page, 1);
            assert_eq!(page.per_page, 30);
            assert_eq!(page.total, 40);
            assert_eq!(page.data.len(), 30);
            assert_eq!(page.data[0].symbol, "SAA");
            assert_eq!(page.data[29].symbol, "SBD");
        },
        other => panic!("{:?}", other),
    }
}

#[test]
fn a_tick_shows_what_was_written_since() {
    let mut store = init_db();
    let mut session = streaming(&store);
    save_ticker_data(&mut store, &tick(1_000, "BTCUSDT", "5")).unwrap();
    match handle_all_currencies(&mut session, SessionEvent::TimerTick, &store) {
        SessionAction::Push(Payload::Page(page)) => {
            assert_eq!(page.total, 1);
            assert_eq!(page.data[0].symbol, "BTCUSDT");
        },
        other => panic!("{:?}", other),
    }
}

#[test]
fn a_message_without_a_page_is_passed_over() {
    let store = forty_symbols();
    let mut session = streaming(&store);
    for event in [SessionEvent::Text(None), ask(None, None), ask(None, Some(5)), SessionEvent::OtherFrame,
        SessionEvent::HandshakeCompleted, SessionEvent::HandshakeFailed] {
        assert_eq!(handle_all_currencies(&mut session, event, &store), SessionAction::Idle);
        assert_eq!(session, streaming(&store));
    }
}

#[test]
fn the_page_size_asked_for_is_not_applied() {
    let store = forty_symbols();
    let mut session = streaming(&store);
    let action = handle_all_currencies(&mut session, ask(Some(1), Some(5)), &store);
    assert_eq!(session.per_page, 30);
    assert_eq!(action, SessionAction::Push(Payload::Page(get_latest_tickers(&store, 1, 30).unwrap())));
}

#[test]
fn a_page_that_the_table_refuses_closes_the_session() {
    let store = forty_symbols();
    let mut session = streaming(&store);
    assert_eq!(handle_all_currencies(&mut session, ask(Some(0), None), &store), SessionAction::Stop);
    assert_eq!(session.state, SessionState::Closed);
    assert_eq!(session.page, 0);
}

#[test]
fn a_page_past_the_end_is_pushed_empty() {
    let store = forty_symbols();
    let mut session = streaming(&store);
    match handle_all_currencies(&mut session, ask(Some(3), None), &store) {
        SessionAction::Push(Payload::Page(page)) => {
            assert!(page.data.is_empty());
            assert_eq!(page.total, 40);
            assert_eq!(page.page, 3);
        },
        other => panic!("{:?}", other),
    }
    assert_eq!(session.state, SessionState::Streaming);
}

#[test]
fn a_close_frame_or_a_failure_closes_the_session() {
    let store = forty_symbols();
    for event in [SessionEvent::CloseFrame, SessionEvent::ReceiveError, SessionEvent::PushFailed] {
        let mut session = streaming(&store);
        assert_eq!(handle_all_currencies(&mut session, event, &store), SessionAction::Stop);
        assert_eq!(session.state, SessionState::Closed);
        let mut single = SingleCurrencySession::new("SAA".to_string());
        handle_single_currency(&mut single, SessionEvent::HandshakeCompleted, &store);
        assert_eq!(handle_single_currency(&mut single, event, &store), SessionAction::Stop);
        assert_eq!(single.state, SessionState::Closed);
    }
}

#[test]
fn a_failed_handshake_closes_the_session() {
    let store = forty_symbols();
    let mut session = AllCurrenciesSession::new();
    assert_eq!(
        handle_all_currencies(&mut session, SessionEvent::HandshakeFailed, &store),
        SessionAction::Stop
    );
    assert_eq!(session.state, SessionState::Closed);
    let mut single = SingleCurrencySession::new("SAA".to_string());
    assert_eq!(
        handle_single_currency(&mut single, SessionEvent::HandshakeFailed, &store),
        SessionAction::Stop
    );
    assert_eq!(single.state, SessionState::Closed);
}

#[test]
fn a_closed_session_stays_closed() {
    let store = forty_symbols();
    let events = [SessionEvent::HandshakeCompleted, SessionEvent::HandshakeFailed, SessionEvent::Text(None),
        ask(Some(2), None), SessionEvent::CloseFrame, SessionEvent::OtherFrame, SessionEvent::ReceiveError,
        SessionEvent::TimerTick, SessionEvent::PushFailed];
    for event in events {
        let mut session = streaming(&store);
        handle_all_currencies(&mut session, SessionEvent::CloseFrame, &store);
        let closed = session;
        assert_eq!(handle_all_currencies(&mut session, event, &store), SessionAction::Stop);
        assert_eq!(session, closed);
        let mut single = SingleCurrencySession::new("SAA".to_string());
        handle_single_currency(&mut single, SessionEvent::HandshakeFailed, &store);
        assert_eq!(handle_single_currency(&mut single, event, &store), SessionAction::Stop);
        assert_eq!(single.state, SessionState::Closed);
        assert_eq!(single.symbol, "SAA");
    }
}

#[test]
fn before_the_handshake_nothing_is_pushed() {
    let store = forty_symbols();
    for event in [SessionEvent::TimerTick, ask(Some(2), None), SessionEvent::Text(None), SessionEvent::CloseFrame,
        SessionEvent::OtherFrame, SessionEvent::ReceiveError, SessionEvent::PushFailed] {
        let mut session = AllCurrenciesSession::new();
        assert_eq!(handle_all_currencies(&mut session, event, &store), SessionAction::Idle);
        assert_eq!(session, AllCurrenciesSession::new());
        let mut single = SingleCurrencySession::new("SAA".to_string());
        assert_eq!(handle_single_currency(&mut single, event, &store), SessionAction::Idle);
        assert_eq!(single, SingleCurrencySession::new("SAA".to_string()));
    }
}

#[test]
fn a_session_on_one_symbol_pushes_its_view() {
    let mut store = init_db();
    for time in 1..=12 {
        save_ticker_data(&mut store, &tick(time, "BTCUSDT", "1")).unwrap();
    }
    save_ticker_data(&mut store, &tick(1, "ETHUSDT", "1")).unwrap();
    let mut session = SingleCurrencySession::new("BTCUSDT".to_string());
    let first = handle_single_currency(&mut session, SessionEvent::HandshakeCompleted, &store);
    assert_eq!(session.state, SessionState::Streaming);
    assert_eq!(first, SessionAction::Push(Payload::Rows(get_currency_tickers(&store, "BTCUSDT"))));
    match first {
        SessionAction::Push(Payload::Rows(rows)) => {
            assert_eq!(rows.len(), 10);
            assert_eq!(rows[0].event_time, 12);
            assert_eq!(rows[9].event_time, 3);
        },
        other => panic!("{:?}", other),
    }
    save_ticker_data(&mut store, &tick(13, "BTCUSDT", "1")).unwrap();
    for event in [SessionEvent::TimerTick, ask(Some(7), None), ask(Some(0), Some(3)), ask(Some(-1), None)] {
        match handle_single_currency(&mut session, event, &store) {
            SessionAction::Push(Payload::Rows(rows)) => {
                assert_eq!(rows[0].event_time, 13);
                assert_eq!(rows.len(), 10);
            },
            other => panic!("{:?}", other),
        }
        assert_eq!(session.state, SessionState::Streaming);
        assert_eq!(session.symbol, "BTCUSDT");
    }
    assert_eq!(handle_single_currency(&mut session, SessionEvent::OtherFrame, &store), SessionAction::Idle);
}

#[test]
fn a_tick_is_answered_even_where_the_view_is_empty() {
    let mut store = init_db();
    save_ticker_data(&mut store, &tick(1, "BTCUSDT", "1")).unwrap();
    let mut session = SingleCurrencySession::new("BTCUSDT".to_string());
    handle_single_currency(&mut session, SessionEvent::HandshakeCompleted, &store);
    assert_eq!(store.purge_expired(i64::MAX), 1);
    assert_eq!(
        handle_single_currency(&mut session, SessionEvent::TimerTick, &store),
        SessionAction::Push(Payload::Rows(Vec::new()))
    );
    assert_eq!(session.state, SessionState::Streaming);
}

#[test]
fn a_session_of_either_kind_is_handled_alike() {
    let store = forty_symbols();
    let mut all = Session::AllCurrencies(AllCurrenciesSession::new());
    let pushed = all.handle(SessionEvent::HandshakeCompleted, &store);
    assert_eq!(pushed, SessionAction::Push(Payload::Page(get_latest_tickers(&store, 1, 30).unwrap())));
    assert_eq!(all.state(), SessionState::Streaming);
    assert_eq!(all.handle(ask(Some(2), None), &store),
        SessionAction::Push(Payload::Page(get_latest_tickers(&store, 2, 30).unwrap())));
    assert_eq!(all.handle(SessionEvent::CloseFrame, &store), SessionAction::Stop);
    assert_eq!(all.state(), SessionState::Closed);
    let mut single = Session::SingleCurrency(SingleCurrencySession::new("SAB".to_string()));
    assert_eq!(single.handle(SessionEvent::HandshakeCompleted, &store),
        SessionAction::Push(Payload::Rows(get_currency_tickers(&store, "SAB"))));
    assert_eq!(single.state(), SessionState::Streaming);
    assert_eq!(single.handle(SessionEvent::PushFailed, &store), SessionAction::Stop);
    assert_eq!(single.state(), SessionState::Closed);
}

#[test]
fn text_that_asks_for_no_page_is_dropped() {
    let mut store = init_db();
    save_ticker_data(&mut store, &tick(1, "BTCUSDT", "1")).unwrap();
    let mut session = SingleCurrencySession::new("BTCUSDT".to_string());
    handle_single_currency(&mut session, SessionEvent::HandshakeCompleted, &store);
    for event in [SessionEvent::Text(None), ask(None, None), ask(None, Some(5))] {
        assert_eq!(handle_single_currency(&mut session, event, &store), SessionAction::Idle);
        assert_eq!(session.state, SessionState::Streaming);
        assert_eq!(session.symbol, "BTCUSDT");
        assert_eq!(session.interval_secs, 10);
    }
    let mut all = streaming(&store);
    for event in [SessionEvent::Text(None), ask(None, None), ask(None, Some(5))] {
        assert_eq!(handle_all_currencies(&mut all, event, &store), SessionAction::Idle);
        assert_eq!(all, streaming(&store));
    }
    let mut either = Session::SingleCurrency(SingleCurrencySession::new("BTCUSDT".to_string()));
    either.handle(SessionEvent::HandshakeCompleted, &store);
    assert_eq!(either.handle(SessionEvent::Text(None), &store), SessionAction::Idle);
    assert_eq!(either.state(), SessionState::Streaming);
    assert_eq!(
        either.handle(ask(Some(2), None), &store),
        SessionAction::Push(Payload::Rows(get_currency_tickers(&store, "BTCUSDT")))
    );
}
