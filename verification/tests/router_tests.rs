use ticker_relay::db::{init_db, save_ticker_data, Store};
use ticker_relay::models::TickerData;
use ticker_relay::router::{find_path, rejection_text, route_connection, Rejection, Route};
use ticker_relay::session::{Session, SessionState};

fn store_with(symbol: &str) -> Store {
    let mut store = init_db();
    let ticker = TickerData {
        E: 1_000,
        s: symbol.to_string(),
        c: "1".to_string(),
        o: "1".to_string(),
        h: "1".to_string(),
        l: "1".to_string(),
        q: "1".to_string(),
    };
    save_ticker_data(&mut store, &ticker).unwrap();
    store
}

#[test]
fn the_root_path_goes_to_all_symbols() {
    let store = init_db();
    let request = b"GET / HTTP/1.1\r\nHost: localhost\r\nUpgrade: websocket\r\n\r\n";
    assert_eq!(route_connection(request, &store), Route::AllSymbols);
    assert_eq!(find_path(request), Some((4, 5)));
}

#[test]
fn a_symbol_with_rows_goes_to_its_view() {
    let store = store_with("BTCUSDT");
    let request = b"GET /currency/BTCUSDT HTTP/1.1\r\nHost: localhost\r\n\r\n";
    assert_eq!(route_connection(request, &store), Route::SingleSymbol("BTCUSDT".to_string()));
    assert_eq!(find_path(request), Some((4, 21)));
}

#[test]
fn a_symbol_without_rows_is_turned_away() {
    let store = store_with("BTCUSDT");
    let request = b"GET /currency/DOGEUSDT HTTP/1.1\r\nHost: localhost\r\n\r\n";
    let route = route_connection(request, &store);
    assert_eq!(route, Route::Rejected(Rejection::NoData("DOGEUSDT".to_string())));
    match &route {
        Route::Rejected(reason) => {
            assert_eq!(rejection_text(reason), "No data found for currency: DOGEUSDT")
        },
        other => panic!("{:?}", other),
    }
    assert_eq!(Session::for_route(route), None);
    let empty = init_db();
    assert_eq!(
        route_connection(request, &empty),
        Route::Rejected(Rejection::NoData("DOGEUSDT".to_string()))
    );
}

#[test]
fn a_prefix_of_a_stored_symbol_is_another_symbol() {
    let store = store_with("BTCUSDT");
    let request = b"GET /currency/BTC HTTP/1.1\r\n\r\n";
    assert_eq!(
        route_connection(request, &store),
        Route::Rejected(Rejection::NoData("BTC".to_string()))
    );
}

#[test]
fn a_currency_path_without_a_symbol_is_turned_away() {
    let store = store_with("BTCUSDT");
    for path in ["/currency/", "/currency/btcusdt", "/currency/BTC1", "/currency/BTC/USDT",
        "/currency/BTCUSDT/", "/currency/BTC-USDT", "/currency//", "/currency/Btcusdt"] {
        let request = format!("GET {} HTTP/1.1\r\n\r\n", path);
        assert_eq!(
            route_connection(request.as_bytes(), &store),
            Route::Rejected(Rejection::InvalidCurrencyPath),
            "{}",
            path
        );
    }
}

#[test]
fn any_other_path_is_turned_away() {
    let store = store_with("BTCUSDT");
    for path in ["/currency", "/other", "//", "/index.html", "/Currency/BTCUSDT", "currency/BTCUSDT",
        "/ws", "/currenc/BTCUSDT", "*"] {
        let request = format!("GET {} HTTP/1.1\r\n\r\n", path);
        assert_eq!(
            route_connection(request.as_bytes(), &store),
            Route::Rejected(Rejection::InvalidPath),
            "{}",
            path
        );
    }
}

#[test]
fn a_first_line_without_a_path_asks_for_the_root() {
    let store = init_db();
    assert_eq!(route_connection(b"", &store), Route::AllSymbols);
    assert_eq!(route_connection(b"GET", &store), Route::AllSymbols);
    assert_eq!(route_connection(b"   \r\n", &store), Route::AllSymbols);
    assert_eq!(route_connection(b"GET\r\n/other HTTP/1.1\r\n", &store), Route::AllSymbols);
    assert_eq!(find_path(b"GET"), None);
    assert_eq!(find_path(b""), None);
}

#[test]
fn the_path_is_the_second_word_of_the_first_line() {
    let store = store_with("ETHUSDT");
    let request = b"  GET \t /currency/ETHUSDT   HTTP/1.1\r\nX: /other\r\n";
    assert_eq!(route_connection(request, &store), Route::SingleSymbol("ETHUSDT".to_string()));
    assert_eq!(find_path(request), Some((8, 25)));
    let bare = b"GET /currency/ETHUSDT";
    assert_eq!(route_connection(bare, &store), Route::SingleSymbol("ETHUSDT".to_string()));
    let ended = b"GET /currency/ETHUSDT\n";
    assert_eq!(route_connection(ended, &store), Route::SingleSymbol("ETHUSDT".to_string()));
}

#[test]
fn a_route_opens_the_session_of_its_kind() {
    let all = Session::for_route(Route::AllSymbols).unwrap();
    assert_eq!(all.state(), SessionState::Connecting);
    assert_eq!(all.interval_secs(), 60);
    assert!(matches!(all, Session::AllCurrencies(_)));
    let single = Session::for_route(Route::SingleSymbol("BTCUSDT".to_string())).unwrap();
    assert_eq!(single.state(), SessionState::Connecting);
    assert_eq!(single.interval_secs(), 10);
    match single {
        Session::SingleCurrency(session) => assert_eq!(session.symbol, "BTCUSDT"),
        _ => panic!("a session on all symbols"),
    }
    assert_eq!(Session::for_route(Route::Rejected(Rejection::InvalidPath)), None);
    assert_eq!(Session::for_route(Route::Rejected(Rejection::InvalidCurrencyPath)), None);
    assert_eq!(Session::for_route(Route::Rejected(Rejection::NoData("XRP".to_string()))), None);
}

fn path_of(request: &[u8]) -> Vec<u8> {
    match find_path(request) {
        Some((start, end)) => request[start..end].to_vec(),
        None => b"/".to_vec(),
    }
}

#[test]
fn words_are_parted_as_text_is_split_at_white_space() {
    let requests = [
        "GET / HTTP/1.1\r\n",
        "GET\u{a0}/currency/BTCUSDT\u{2003}HTTP/1.1\r\n",
        "\u{3000}GET\u{85}\u{1680}/a\u{2028}b",
        "GET\u{200a}/x\u{200b}y z",
        "GET\u{205f}\u{202f}\u{2029}/p\u{2000}q",
        "GET /é\u{a0}x HTTP/1.1",
        "GET\t\x0b\x0c/v HTTP/1.1",
        "GET /a\x1cb c",
        "\u{a0}",
        "GET \u{a0}",
        "GET /tail\u{a0}",
        "GET /tail\u{e000}",
        "one\u{2001}two\u{2002}three",
        "GET /é",
        "日本 語 x",
        "GET /x\r\nnext /y",
        "GET\r/x",
    ];
    for request in requests {
        let expected = request
            .lines()
            .next()
            .and_then(|line| line.split_whitespace().nth(1))
            .unwrap_or("/");
        assert_eq!(path_of(request.as_bytes()), expected.as_bytes(), "{:?}", request);
    }
}

#[test]
fn white_space_of_more_than_one_byte_parts_the_words() {
    let store = store_with("BTCUSDT");
    let request = "GET\u{a0}/currency/BTCUSDT\u{2003}HTTP/1.1\r\n";
    assert_eq!(
        route_connection(request.as_bytes(), &store),
        Route::SingleSymbol("BTCUSDT".to_string())
    );
    assert_eq!(route_connection("GET\u{3000}/\u{85}HTTP/1.1".as_bytes(), &store), Route::AllSymbols);
}

#[test]
fn bytes_that_are_no_text_part_no_words() {
    let store = store_with("BTCUSDT");
    assert_eq!(
        route_connection(b"GET /currency/BTCUSDT\xE2\x80 HTTP/1.1", &store),
        Route::Rejected(Rejection::InvalidCurrencyPath)
    );
    assert_eq!(
        route_connection(b"GET\xC2 /currency/BTCUSDT HTTP/1.1", &store),
        Route::SingleSymbol("BTCUSDT".to_string())
    );
    assert_eq!(route_connection(b"GET /\xFF HTTP/1.1", &store), Route::Rejected(Rejection::InvalidPath));
    assert_eq!(
        route_connection(b"GET\xE2\x80\xC2\xA0/currency/BTCUSDT HTTP/1.1", &store),
        Route::SingleSymbol("BTCUSDT".to_string())
    );
}

#[test]
fn a_rejection_says_why() {
    assert_eq!(rejection_text(&Rejection::InvalidPath), "Invalid WebSocket path");
    assert_eq!(rejection_text(&Rejection::InvalidCurrencyPath), "Invalid currency path");
    assert_eq!(
        rejection_text(&Rejection::NoData("DOGEUSDT".to_string())),
        "No data found for currency: DOGEUSDT"
    );
    assert_eq!(rejection_text(&Rejection::NoData(String::new())), "No data found for currency: ");
}

#[test]
fn a_request_that_is_turned_away_is_told_why() {
    let store = store_with("BTCUSDT");
    let told = |request: &[u8]| match route_connection(request, &store) {
        Route::Rejected(reason) => rejection_text(&reason),
        other => panic!("{:?}", other),
    };
    assert_eq!(told(b"GET /foo HTTP/1.1\r\n\r\n"), "Invalid WebSocket path");
    assert_eq!(told(b"GET /currency/ HTTP/1.1\r\n\r\n"), "Invalid currency path");
    assert_eq!(
        told(b"GET /currency/DOGEUSDT HTTP/1.1\r\n\r\n"),
        "No data found for currency: DOGEUSDT"
    );
}
