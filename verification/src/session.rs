//! The life of one subscriber's connection, as a state machine: what to do
//! on each event, and in which state that leaves the session.

use crate::models::{
    symbol_rows, Page, PaginatedResponse, PaginationParams, SymbolData, SymbolRow,
};
use crate::ranking::ranking;
use crate::recent::recent_rows;
use crate::router::{opens_session, Destination, Route};
use crate::pagination::page_of;
use crate::db::{get_currency_tickers, get_latest_tickers, latest_tickers, page_fault, Store};
use vstd::prelude::*;

verus! {

/// The page that a session of all symbols starts on.
pub const FIRST_PAGE: i64 = 1;

/// The page size of a session of all symbols.
pub const ITEMS_PER_PAGE: i64 = 30;

/// The seconds between two timed pushes of a session of all symbols.
pub const ALL_CURRENCIES_INTERVAL_SECS: u64 = 60;

/// The seconds between two timed pushes of a session of one symbol.
pub const SINGLE_CURRENCY_INTERVAL_SECS: u64 = 10;

/// Where a session stands.
#[derive(Debug, Clone, Copy, PartialEq, Eq, Structural)]
pub enum SessionState {
    /// The handshake is not done.
    Connecting,
    /// The channel is open and pushes go out.
    Streaming,
    /// The session is over. Nothing follows.
    Closed,
}

/// What happened on a connection.
#[derive(Debug, Clone, Copy, PartialEq, Eq)]
pub enum SessionEvent {
    /// The handshake succeeded.
    HandshakeCompleted,
    /// The handshake failed.
    HandshakeFailed,
    /// The subscriber sent text: the request it decodes to, or `None` where
    /// it decodes to none.
    Text(Option<PaginationParams>),
    /// The subscriber sent a close frame.
    CloseFrame,
    /// The subscriber sent a frame that is neither text nor a close frame.
    OtherFrame,
    /// Receiving failed.
    ReceiveError,
    /// The timer fired.
    TimerTick,
    /// The last push could not be delivered.
    PushFailed,
}

/// What is pushed to a subscriber.
#[derive(Debug, PartialEq, Eq)]
pub enum Payload {
    /// A page of the ranked view.
    Page(PaginatedResponse),
    /// The view of one symbol.
    Rows(Vec<SymbolData>),
}

/// What the connection is to do next.
#[derive(Debug, PartialEq, Eq)]
pub enum SessionAction {
    /// Nothing: wait for the next event.
    Idle,
    /// Send this to the subscriber.
    Push(Payload),
    /// Close the connection and stop.
    Stop,
}

/// What a `SessionAction` holds.
pub enum Reply {
    Idle,
    PushPage(Page),
    PushRows(Seq<SymbolRow>),
    Stop,
}

impl View for SessionAction {
    type V = Reply;

    open spec fn view(&self) -> Reply {
        match self {
            SessionAction::Idle => Reply::Idle,
            SessionAction::Push(Payload::Page(page)) => Reply::PushPage(page@),
            SessionAction::Push(Payload::Rows(rows)) => Reply::PushRows(symbol_rows(rows@)),
            SessionAction::Stop => Reply::Stop,
        }
    }
}

/// A session on the view of all symbols: its state, the page it shows, the
/// page size it was opened with, and the seconds between its timed pushes.
#[derive(Debug, Clone, Copy, PartialEq, Eq, Structural)]
pub struct AllCurrenciesSession {
    pub state: SessionState,
    pub page: i64,
    pub per_page: i64,
    pub interval_secs: u64,
}

/// A session on the view of one symbol: its state, the symbol, and the
/// seconds between its timed pushes.
#[derive(Debug, PartialEq, Eq)]
pub struct SingleCurrencySession {
    pub state: SessionState,
    pub symbol: String,
    pub interval_secs: u64,
}

/// What a `SingleCurrencySession` holds.
pub struct SingleCurrency {
    pub state: SessionState,
    pub symbol: Seq<char>,
    pub interval_secs: u64,
}

impl View for SingleCurrencySession {
    type V = SingleCurrency;

    open spec fn view(&self) -> SingleCurrency {
        SingleCurrency {
            state: self.state,
            symbol: self.symbol@,
            interval_secs: self.interval_secs,
        }
    }
}

/// The page number that a message asks for, if it asks for one.
pub open spec fn requested_page(event: SessionEvent) -> Option<i64> {
    match event {
        SessionEvent::Text(Some(params)) => params.page,
        _ => None,
    }
}

/// The event ends a session that is streaming.
pub open spec fn ends_session(event: SessionEvent) -> bool {
    event == SessionEvent::CloseFrame || event == SessionEvent::ReceiveError || event
        == SessionEvent::PushFailed
}

/// A fresh push of the page that the session shows, which leaves it
/// streaming; where the table refuses the page, the session is closed.
pub open spec fn refreshed(session: AllCurrenciesSession, rows: Seq<SymbolRow>) -> (
    AllCurrenciesSession,
    Reply,
) {
    match latest_tickers(rows, session.page, session.per_page) {
        Ok(page) => (
            AllCurrenciesSession { state: SessionState::Streaming, ..session },
            Reply::PushPage(page),
        ),
        Err(_) => (AllCurrenciesSession { state: SessionState::Closed, ..session }, Reply::Stop),
    }
}

/// What a session on the view of all symbols does on an event, and what it
/// is afterwards.
///
/// While connecting it waits for the handshake: its success opens the
/// stream with a push of the page that the session shows, the first page of
/// a new session, and its failure closes the session.
/// While streaming, a message that asks for a page moves the session to that
/// page and pushes it at once; the timer pushes the page that the session
/// shows, whatever came before; a close frame, a failure to receive or a
/// push that was not delivered closes the session; any other message is
/// passed over. A closed session stays closed.
pub open spec fn all_currencies_step(
    session: AllCurrenciesSession,
    event: SessionEvent,
    rows: Seq<SymbolRow>,
) -> (AllCurrenciesSession, Reply) {
    match session.state {
        SessionState::Closed => (session, Reply::Stop),
        SessionState::Connecting => match event {
            SessionEvent::HandshakeCompleted => refreshed(session, rows),
            SessionEvent::HandshakeFailed => (
                AllCurrenciesSession { state: SessionState::Closed, ..session },
                Reply::Stop,
            ),
            _ => (session, Reply::Idle),
        },
        SessionState::Streaming => if ends_session(event) {
            (AllCurrenciesSession { state: SessionState::Closed, ..session }, Reply::Stop)
        } else if event == SessionEvent::TimerTick {
            refreshed(session, rows)
        } else {
            match requested_page(event) {
                Some(page) => refreshed(AllCurrenciesSession { page, ..session }, rows),
                None => (session, Reply::Idle),
            }
        },
    }
}

/// What a session on the view of one symbol does on an event, and what it
/// is afterwards.
///
/// While connecting it waits for the handshake: its success opens the
/// stream with a push of the symbol's view, its failure closes the session.
/// While streaming, a message that asks for a page and every tick of the
/// timer push the symbol's view afresh, whatever page was asked for: there
/// is nothing to page through. A close frame, a failure to receive or a push
/// that was not delivered closes the session; text that asks for no page and
/// any other frame is passed over. A closed session stays closed.
pub open spec fn single_currency_step(
    session: SingleCurrency,
    event: SessionEvent,
    rows: Seq<SymbolRow>,
) -> (SingleCurrency, Reply) {
    match session.state {
        SessionState::Closed => (session, Reply::Stop),
        SessionState::Connecting => match event {
            SessionEvent::HandshakeCompleted => (
                SingleCurrency { state: SessionState::Streaming, ..session },
                Reply::PushRows(recent_rows(rows, session.symbol)),
            ),
            SessionEvent::HandshakeFailed => (
                SingleCurrency { state: SessionState::Closed, ..session },
                Reply::Stop,
            ),
            _ => (session, Reply::Idle),
        },
        SessionState::Streaming => if ends_session(event) {
            (SingleCurrency { state: SessionState::Closed, ..session }, Reply::Stop)
        } else if event == SessionEvent::TimerTick || requested_page(event) is Some {
            (session, Reply::PushRows(recent_rows(rows, session.symbol)))
        } else {
            (session, Reply::Idle)
        },
    }
}

impl AllCurrenciesSession {
    /// A session that waits for its handshake, on the first page, with the
    /// usual page size and interval.
    pub open spec fn fresh() -> AllCurrenciesSession {
        AllCurrenciesSession {
            state: SessionState::Connecting,
            page: FIRST_PAGE,
            per_page: ITEMS_PER_PAGE,
            interval_secs: ALL_CURRENCIES_INTERVAL_SECS,
        }
    }

    /// A session that waits for its handshake, on the first page, with the
    /// usual page size and interval.
    pub fn new() -> (r: AllCurrenciesSession)
        ensures
            r == AllCurrenciesSession::fresh(),
    {
        AllCurrenciesSession {
            state: SessionState::Connecting,
            page: FIRST_PAGE,
            per_page: ITEMS_PER_PAGE,
            interval_secs: ALL_CURRENCIES_INTERVAL_SECS,
        }
    }

    /// The same session with another interval between its timed pushes.
    pub fn with_interval(self, interval_secs: u64) -> (r: AllCurrenciesSession)
        ensures
            r == (AllCurrenciesSession { interval_secs, ..self }),
    {
        AllCurrenciesSession { interval_secs, ..self }
    }

    fn refresh(&mut self, store: &Store) -> (action: SessionAction)
        ensures
            (*final(self), action@) == refreshed(*old(self), store@),
    {
        match get_latest_tickers(store, self.page, self.per_page) {
            Ok(page) => {
                self.state = SessionState::Streaming;
                SessionAction::Push(Payload::Page(page))
            },
            Err(_) => {
                self.state = SessionState::Closed;
                SessionAction::Stop
            },
        }
    }
}

impl SingleCurrencySession {
    /// A session on the symbol that waits for its handshake, with the usual
    /// interval.
    pub fn new(symbol: String) -> (r: SingleCurrencySession)
        ensures
            r@ == (SingleCurrency {
                state: SessionState::Connecting,
                symbol: symbol@,
                interval_secs: SINGLE_CURRENCY_INTERVAL_SECS,
            }),
    {
        SingleCurrencySession {
            state: SessionState::Connecting,
            symbol,
            interval_secs: SINGLE_CURRENCY_INTERVAL_SECS,
        }
    }

    /// The same session with another interval between its timed pushes.
    pub fn with_interval(self, interval_secs: u64) -> (r: SingleCurrencySession)
        ensures
            r@ == (SingleCurrency { interval_secs, ..self@ }),
    {
        SingleCurrencySession { state: self.state, symbol: self.symbol, interval_secs }
    }
}

/// Takes a session on the view of all symbols through one event: says what
/// the connection is to do, and leaves the session in its next state.
pub fn handle_all_currencies(
    session: &mut AllCurrenciesSession,
    event: SessionEvent,
    store: &Store,
) -> (action: SessionAction)
    ensures
        (*final(session), action@) == all_currencies_step(*old(session), event, store@),
{
    match session.state {
        SessionState::Closed => SessionAction::Stop,
        SessionState::Connecting => match event {
            SessionEvent::HandshakeCompleted => session.refresh(store),
            SessionEvent::HandshakeFailed => {
                session.state = SessionState::Closed;
                SessionAction::Stop
            },
            _ => SessionAction::Idle,
        },
        SessionState::Streaming => match event {
            SessionEvent::CloseFrame | SessionEvent::ReceiveError | SessionEvent::PushFailed => {
                session.state = SessionState::Closed;
                SessionAction::Stop
            },
            SessionEvent::TimerTick => session.refresh(store),
            SessionEvent::Text(Some(params)) => match params.page {
                Some(page) => {
                    session.page = page;
                    session.refresh(store)
                },
                None => SessionAction::Idle,
            },
            _ => SessionAction::Idle,
        },
    }
}

/// Takes a session on the view of one symbol through one event: says what
/// the connection is to do, and leaves the session in its next state.
pub fn handle_single_currency(
    session: &mut SingleCurrencySession,
    event: SessionEvent,
    store: &Store,
) -> (action: SessionAction)
    ensures
        (final(session)@, action@) == single_currency_step(old(session)@, event, store@),
{
    match session.state {
        SessionState::Closed => SessionAction::Stop,
        SessionState::Connecting => match event {
            SessionEvent::HandshakeCompleted => {
                session.state = SessionState::Streaming;
                SessionAction::Push(
                    Payload::Rows(get_currency_tickers(store, session.symbol.as_str())),
                )
            },
            SessionEvent::HandshakeFailed => {
                session.state = SessionState::Closed;
                SessionAction::Stop
            },
            _ => SessionAction::Idle,
        },
        SessionState::Streaming => match event {
            SessionEvent::CloseFrame | SessionEvent::ReceiveError | SessionEvent::PushFailed => {
                session.state = SessionState::Closed;
                SessionAction::Stop
            },
            SessionEvent::TimerTick => SessionAction::Push(
                Payload::Rows(get_currency_tickers(store, session.symbol.as_str())),
            ),
            SessionEvent::Text(Some(params)) => match params.page {
                Some(_) => SessionAction::Push(
                    Payload::Rows(get_currency_tickers(store, session.symbol.as_str())),
                ),
                None => SessionAction::Idle,
            },
            _ => SessionAction::Idle,
        },
    }
}

/// A session of either kind.
#[derive(Debug, PartialEq, Eq)]
pub enum Session {
    AllCurrencies(AllCurrenciesSession),
    SingleCurrency(SingleCurrencySession),
}

/// What a `Session` holds.
pub enum SessionView {
    AllCurrencies(AllCurrenciesSession),
    SingleCurrency(SingleCurrency),
}

impl View for Session {
    type V = SessionView;

    open spec fn view(&self) -> SessionView {
        match self {
            Session::AllCurrencies(session) => SessionView::AllCurrencies(*session),
            Session::SingleCurrency(session) => SessionView::SingleCurrency(session@),
        }
    }
}

/// What a session of either kind does on an event, and what it is
/// afterwards.
pub open spec fn session_step(session: SessionView, event: SessionEvent, rows: Seq<SymbolRow>) -> (
    SessionView,
    Reply,
) {
    match session {
        SessionView::AllCurrencies(inner) => (
            SessionView::AllCurrencies(all_currencies_step(inner, event, rows).0),
            all_currencies_step(inner, event, rows).1,
        ),
        SessionView::SingleCurrency(inner) => (
            SessionView::SingleCurrency(single_currency_step(inner, event, rows).0),
            single_currency_step(inner, event, rows).1,
        ),
    }
}

impl Session {
    /// The session for a connection that was routed: none where it was
    /// turned away.
    pub fn for_route(route: Route) -> (r: Option<Session>)
        ensures
            r is Some <==> opens_session(route@),
            match r {
                Some(Session::AllCurrencies(session)) => route@ == Destination::AllSymbols
                    && session == AllCurrenciesSession::fresh(),
                Some(Session::SingleCurrency(session)) => route@ == Destination::SingleSymbol(
                    session@.symbol,
                ) && session@.state == SessionState::Connecting && session@.interval_secs
                    == SINGLE_CURRENCY_INTERVAL_SECS,
                None => true,
            },
    {
        match route {
            Route::AllSymbols => Some(Session::AllCurrencies(AllCurrenciesSession::new())),
            Route::SingleSymbol(symbol) => Some(
                Session::SingleCurrency(SingleCurrencySession::new(symbol)),
            ),
            Route::Rejected(_) => None,
        }
    }

    /// Takes the session through one event: says what the connection is
    /// to do, and leaves the session in its next state.
    pub fn handle(&mut self, event: SessionEvent, store: &Store) -> (action: SessionAction)
        ensures
            (final(self)@, action@) == session_step(old(self)@, event, store@),
    {
        match self {
            Session::AllCurrencies(session) => handle_all_currencies(session, event, store),
            Session::SingleCurrency(session) => handle_single_currency(session, event, store),
        }
    }

    /// Where the session stands.
    pub fn state(&self) -> (r: SessionState)
        ensures
            r == match self {
                Session::AllCurrencies(session) => session.state,
                Session::SingleCurrency(session) => session.state,
            },
    {
        match self {
            Session::AllCurrencies(session) => session.state,
            Session::SingleCurrency(session) => session.state,
        }
    }

    /// The seconds between two timed pushes.
    pub fn interval_secs(&self) -> (r: u64)
        ensures
            r == match self {
                Session::AllCurrencies(session) => session.interval_secs,
                Session::SingleCurrency(session) => session.interval_secs,
            },
    {
        match self {
            Session::AllCurrencies(session) => session.interval_secs,
            Session::SingleCurrency(session) => session.interval_secs,
        }
    }
}

/// A closed session stays closed and asks for no further work.
pub proof fn lemma_closed_is_terminal(session: SessionView, event: SessionEvent, rows: Seq<SymbolRow>)
    requires
        match session {
            SessionView::AllCurrencies(inner) => inner.state == SessionState::Closed,
            SessionView::SingleCurrency(inner) => inner.state == SessionState::Closed,
        },
    ensures
        session_step(session, event, rows) == (session, Reply::Stop),
{
}

/// A tick of the timer is never passed over: a session that is streaming
/// answers it with a push, or closes.
pub proof fn lemma_tick_is_answered(session: SessionView, rows: Seq<SymbolRow>)
    requires
        match session {
            SessionView::AllCurrencies(inner) => inner.state == SessionState::Streaming,
            SessionView::SingleCurrency(inner) => inner.state == SessionState::Streaming,
        },
    ensures
        session_step(session, SessionEvent::TimerTick, rows).1 != Reply::Idle,
        session is SingleCurrency ==> session_step(session, SessionEvent::TimerTick, rows).1
            is PushRows,
        session matches SessionView::AllCurrencies(inner) && page_fault(
            inner.page as int,
            inner.per_page as int,
        ) is None ==> session_step(session, SessionEvent::TimerTick, rows).1 is PushPage,
{
}

/// The page that a subscriber asked for stays the page of the session: the
/// push that answers the request shows it, and so does the push of the next
/// tick of the timer.
pub proof fn lemma_cursor_persists(
    session: AllCurrenciesSession,
    params: PaginationParams,
    rows: Seq<SymbolRow>,
    later: Seq<SymbolRow>,
)
    requires
        session.state == SessionState::Streaming,
        params.page is Some,
        page_fault(params.page->0 as int, session.per_page as int) is None,
    ensures
        ({
            let page = params.page->0;
            let asked = all_currencies_step(session, SessionEvent::Text(Some(params)), rows);
            let ticked = all_currencies_step(asked.0, SessionEvent::TimerTick, later);
            &&& asked.0 == (AllCurrenciesSession { page, ..session })
            &&& asked.1 == Reply::PushPage(
                Page {
                    data: page_of(ranking(rows), page as int, session.per_page as int),
                    total: ranking(rows).len() as int,
                    page: page as int,
                    per_page: session.per_page as int,
                },
            )
            &&& ticked.0 == asked.0
            &&& ticked.1 == Reply::PushPage(
                Page {
                    data: page_of(ranking(later), page as int, session.per_page as int),
                    total: ranking(later).len() as int,
                    page: page as int,
                    per_page: session.per_page as int,
                },
            )
        }),
{
}

/// Text that asks for no page is dropped: a session that is streaming
/// sends nothing in answer to it and stays as it is.
pub proof fn lemma_text_without_page_is_dropped(
    session: SessionView,
    event: SessionEvent,
    rows: Seq<SymbolRow>,
)
    requires
        match session {
            SessionView::AllCurrencies(inner) => inner.state == SessionState::Streaming,
            SessionView::SingleCurrency(inner) => inner.state == SessionState::Streaming,
        },
        event is Text,
        requested_page(event) is None,
    ensures
        session_step(session, event, rows) == (session, Reply::Idle),
{
}

} // verus!
