//! Where a connection goes: read from the first line of its request.

use crate::db::{get_currency_tickers, Store};
use crate::models::SymbolRow;
use crate::recent::{is_recent, recent_rows, RECENT_LIMIT};
use crate::table::has_symbol;
use vstd::prelude::*;
use vstd::string::*;

verus! {

/// `String::push` of the standard library: afterwards the string is what
/// it was, with the character at its end.
pub assume_specification[ String::push ](text: &mut String, ch: char)
    ensures
        final(text)@ == old(text)@.push(ch),
;

/// How many bytes of white space stand at a place: one for a blank or a
/// control character from the tab to the carriage return, two or three for
/// one of the other white-space characters of Unicode in UTF-8, and none
/// where no white space stands.
pub open spec fn space_width(line: Seq<u8>, at: int) -> int {
    if !(0 <= at < line.len()) {
        0
    } else if line[at] == 32 || 9 <= line[at] <= 13 {
        1
    } else if at + 1 < line.len() && line[at] == 0xC2 && (line[at + 1] == 0x85 || line[at + 1]
        == 0xA0) {
        2
    } else if at + 2 < line.len() && wide_space(line[at], line[at + 1], line[at + 2]) {
        3
    } else {
        0
    }
}

/// Three bytes of UTF-8 that write a white-space character.
pub open spec fn wide_space(a: u8, b: u8, c: u8) -> bool {
    ||| a == 0xE1 && b == 0x9A && c == 0x80
    ||| a == 0xE2 && b == 0x80 && (0x80 <= c <= 0x8A || c == 0xA8 || c == 0xA9 || c == 0xAF)
    ||| a == 0xE2 && b == 0x81 && c == 0x9F
    ||| a == 0xE3 && b == 0x80 && c == 0x80
}

/// An upper-case letter.
pub open spec fn is_upper(b: u8) -> bool {
    65 <= b <= 90
}

/// Where the first line ends: at the first line feed, or at the end.
pub open spec fn line_end(request: Seq<u8>) -> int
    decreases request.len(),
{
    if request.len() == 0 || request[0] == 10 {
        0
    } else {
        1 + line_end(request.skip(1))
    }
}

/// The first place at or after `from` where no white space stands.
pub open spec fn skip_spaces(line: Seq<u8>, from: int) -> int
    decreases line.len() - from,
{
    if space_width(line, from) > 0 {
        skip_spaces(line, from + space_width(line, from))
    } else {
        from
    }
}

/// The first place at or after `from` where white space stands, or the
/// end.
pub open spec fn skip_word(line: Seq<u8>, from: int) -> int
    decreases line.len() - from,
{
    if 0 <= from < line.len() && space_width(line, from) == 0 {
        skip_word(line, from + 1)
    } else {
        from
    }
}

/// The path `/`.
pub open spec fn root_path() -> Seq<u8> {
    seq![47u8]
}

/// The path that a request asks for: the second word of its first line,
/// where words are what white space parts, and `/` where the line has no
/// second word.
pub open spec fn request_path(request: Seq<u8>) -> Seq<u8> {
    let line = request.take(line_end(request));
    let method = skip_spaces(line, 0);
    let gap = skip_word(line, method);
    let start = skip_spaces(line, gap);
    let end = skip_word(line, start);
    if start < end {
        line.subrange(start, end)
    } else {
        root_path()
    }
}

/// The bytes of `/currency/`.
pub open spec fn currency_prefix() -> Seq<u8> {
    seq![47u8, 99u8, 117u8, 114u8, 114u8, 101u8, 110u8, 99u8, 121u8, 47u8]
}

/// The text that ASCII bytes write.
pub open spec fn text_of(bytes: Seq<u8>) -> Seq<char> {
    Seq::new(bytes.len(), |i: int| bytes[i] as char)
}

/// Every byte is an upper-case letter.
pub open spec fn all_upper(bytes: Seq<u8>) -> bool {
    forall|i: int| 0 <= i < bytes.len() ==> is_upper(#[trigger] bytes[i])
}

/// What a path asks for.
pub enum PathKind {
    /// `/`: the view of all symbols.
    Root,
    /// `/currency/` and one or more upper-case letters: the view of that symbol.
    Currency(Seq<char>),
    /// `/currency/` and anything else.
    BadCurrency,
    /// Any other path.
    Other,
}

/// What a path asks for.
pub open spec fn path_kind(path: Seq<u8>) -> PathKind {
    if path == root_path() {
        PathKind::Root
    } else if path.len() >= 10 && path.take(10) == currency_prefix() {
        let symbol = path.skip(10);
        if symbol.len() > 0 && all_upper(symbol) {
            PathKind::Currency(text_of(symbol))
        } else {
            PathKind::BadCurrency
        }
    } else {
        PathKind::Other
    }
}

/// Why a connection is turned away before any handshake.
#[derive(Debug, Clone, PartialEq, Eq)]
pub enum Rejection {
    /// The path is neither `/` nor under `/currency/`.
    InvalidPath,
    /// The path is under `/currency/` and names no symbol.
    InvalidCurrencyPath,
    /// The table has no row of the symbol that was asked for.
    NoData(String),
}

/// What a `Rejection` holds.
pub enum Refusal {
    InvalidPath,
    InvalidCurrencyPath,
    NoData(Seq<char>),
}

impl View for Rejection {
    type V = Refusal;

    open spec fn view(&self) -> Refusal {
        match self {
            Rejection::InvalidPath => Refusal::InvalidPath,
            Rejection::InvalidCurrencyPath => Refusal::InvalidCurrencyPath,
            Rejection::NoData(symbol) => Refusal::NoData(symbol@),
        }
    }
}

/// What the one who connected is told: that the path is invalid, that the
/// currency path is invalid, or that no data was found for the symbol, which
/// is named.
pub open spec fn refusal_text(reason: Refusal) -> Seq<char> {
    match reason {
        Refusal::InvalidPath => "Invalid WebSocket path"@,
        Refusal::InvalidCurrencyPath => "Invalid currency path"@,
        Refusal::NoData(symbol) => "No data found for currency: "@ + symbol,
    }
}

/// What the one who connected is told about a rejection.
pub fn rejection_text(reason: &Rejection) -> (text: String)
    ensures
        text@ == refusal_text(reason@),
{
    match reason {
        Rejection::InvalidPath => String::from_str("Invalid WebSocket path"),
        Rejection::InvalidCurrencyPath => String::from_str("Invalid currency path"),
        Rejection::NoData(symbol) => {
            let mut text = String::from_str("No data found for currency: ");
            text.append(symbol.as_str());
            text
        },
    }
}

/// Where a connection goes.
#[derive(Debug, PartialEq, Eq)]
pub enum Route {
    /// To the view of all symbols.
    AllSymbols,
    /// To the view of one symbol.
    SingleSymbol(String),
    /// Nowhere: it is closed without a handshake.
    Rejected(Rejection),
}

/// What a `Route` holds.
pub enum Destination {
    AllSymbols,
    SingleSymbol(Seq<char>),
    Rejected(Refusal),
}

impl View for Route {
    type V = Destination;

    open spec fn view(&self) -> Destination {
        match self {
            Route::AllSymbols => Destination::AllSymbols,
            Route::SingleSymbol(symbol) => Destination::SingleSymbol(symbol@),
            Route::Rejected(reason) => Destination::Rejected(reason@),
        }
    }
}

/// Where a request goes, given the table: `/` to the view of all symbols,
/// `/currency/SYMBOL` to the view of that symbol where the table has rows
/// of it, and everything else nowhere, with the reason.
pub open spec fn routed(request: Seq<u8>, rows: Seq<SymbolRow>) -> Destination {
    match path_kind(request_path(request)) {
        PathKind::Root => Destination::AllSymbols,
        PathKind::Currency(symbol) => if has_symbol(rows, symbol) {
            Destination::SingleSymbol(symbol)
        } else {
            Destination::Rejected(Refusal::NoData(symbol))
        },
        PathKind::BadCurrency => Destination::Rejected(Refusal::InvalidCurrencyPath),
        PathKind::Other => Destination::Rejected(Refusal::InvalidPath),
    }
}

/// A connection that goes there gets a session: one that is turned away
/// gets none, and no channel is ever opened for it.
pub open spec fn opens_session(destination: Destination) -> bool {
    !(destination is Rejected)
}

/// The first line feed is a line feed, and none stands before it.
pub proof fn lemma_line_end(request: Seq<u8>)
    ensures
        0 <= line_end(request) <= request.len(),
        line_end(request) < request.len() ==> request[line_end(request)] == 10,
        forall|j: int| 0 <= j < line_end(request) ==> request[j] != 10,
    decreases request.len(),
{
    if request.len() == 0 || request[0] == 10 {
    } else {
        let rest = request.skip(1);
        lemma_line_end(rest);
        assert forall|j: int| 0 <= j < line_end(request) implies request[j] != 10 by {
            if j > 0 {
                assert(rest[j - 1] == request[j]);
            }
        }
        if line_end(request) < request.len() {
            assert(rest[line_end(rest)] == request[line_end(request)]);
        }
    }
}

fn wide_space_bytes(a: u8, b: u8, c: u8) -> (r: bool)
    ensures
        r == wide_space(a, b, c),
{
    (a == 0xE1 && b == 0x9A && c == 0x80) || (a == 0xE2 && b == 0x80 && ((0x80 <= c && c <= 0x8A)
        || c == 0xA8 || c == 0xA9 || c == 0xAF)) || (a == 0xE2 && b == 0x81 && c == 0x9F) || (a
        == 0xE3 && b == 0x80 && c == 0x80)
}

fn space_width_at(request: &[u8], at: usize, end: usize) -> (width: usize)
    requires
        at <= end <= request@.len(),
    ensures
        width == space_width(request@.take(end as int), at as int),
        at + width <= end,
{
    if at >= end {
        return 0;
    }
    let a = request[at];
    if a == 32 || (9 <= a && a <= 13) {
        1
    } else if end - at >= 2 && a == 0xC2 && (request[at + 1] == 0x85 || request[at + 1] == 0xA0) {
        2
    } else if end - at >= 3 && wide_space_bytes(a, request[at + 1], request[at + 2]) {
        3
    } else {
        0
    }
}

fn pass_spaces(request: &[u8], from: usize, end: usize) -> (at: usize)
    requires
        from <= end <= request@.len(),
    ensures
        from <= at <= end,
        at == skip_spaces(request@.take(end as int), from as int),
{
    let ghost line = request@.take(end as int);
    let mut at = from;
    let mut width = space_width_at(request, at, end);
    while width > 0
        invariant
            from <= at <= end,
            end <= request@.len(),
            line == request@.take(end as int),
            width == space_width(line, at as int),
            at + width <= end,
            skip_spaces(line, at as int) == skip_spaces(line, from as int),
        decreases end - at,
    {
        at += width;
        width = space_width_at(request, at, end);
    }
    at
}

fn pass_word(request: &[u8], from: usize, end: usize) -> (at: usize)
    requires
        from <= end <= request@.len(),
    ensures
        from <= at <= end,
        at == skip_word(request@.take(end as int), from as int),
{
    let ghost line = request@.take(end as int);
    let mut at = from;
    while at < end && space_width_at(request, at, end) == 0
        invariant
            from <= at <= end,
            end <= request@.len(),
            line == request@.take(end as int),
            skip_word(line, at as int) == skip_word(line, from as int),
        decreases end - at,
    {
        at += 1;
    }
    at
}

/// The path that a request asks for, as the place where it starts and the
/// place where it ends in the request; `None` where the first line has no
/// second word, and the path is `/`.
pub fn find_path(request: &[u8]) -> (r: Option<(usize, usize)>)
    ensures
        match r {
            Some((start, end)) => start < end <= request@.len() && request_path(request@)
                == request@.subrange(start as int, end as int),
            None => request_path(request@) == root_path(),
        },
{
    let mut end: usize = 0;
    while end < request.len() && request[end] != 10
        invariant
            end <= request.len(),
            forall|j: int| 0 <= j < end ==> request@[j] != 10,
        decreases request.len() - end,
    {
        end += 1;
    }
    proof {
        lemma_line_end(request@);
        assert(line_end(request@) == end);
    }
    let method = pass_spaces(request, 0, end);
    let gap = pass_word(request, method, end);
    let start = pass_spaces(request, gap, end);
    let stop = pass_word(request, start, end);
    if start < stop {
        assert(request@.take(end as int).subrange(start as int, stop as int) =~= request@.subrange(
            start as int,
            stop as int,
        ));
        Some((start, stop))
    } else {
        None
    }
}

/// Where a request goes. A request for the view of one symbol goes there
/// only where the table has rows of the symbol; otherwise the connection is
/// turned away before any handshake.
pub fn route_connection(request: &[u8], store: &Store) -> (route: Route)
    ensures
        route@ == routed(request@, store@),
{
    let found = find_path(request);
    let (start, end) = match found {
        Some(range) => range,
        None => {
            return Route::AllSymbols;
        },
    };
    let ghost path = request@.subrange(start as int, end as int);
    if end - start == 1 && request[start] == 47 {
        assert(path =~= root_path());
        return Route::AllSymbols;
    }
    assert(path != root_path()) by {
        if path == root_path() {
            assert(path.len() == 1);
            assert(path[0] == 47);
        }
    }
    let prefix: [u8; 10] = [47, 99, 117, 114, 114, 101, 110, 99, 121, 47];
    if end - start < 10 {
        return Route::Rejected(Rejection::InvalidPath);
    }
    let mut i: usize = 0;
    while i < 10
        invariant
            i <= 10,
            start + 10 <= end <= request@.len(),
            path == request@.subrange(start as int, end as int),
            prefix@ == currency_prefix(),
            request_path(request@) == path,
            path != root_path(),
            forall|j: int| 0 <= j < i ==> path[j] == currency_prefix()[j],
        decreases 10 - i,
    {
        if request[start + i] != prefix[i] {
            proof {
                assert(path.take(10)[i as int] == path[i as int]);
            }
            return Route::Rejected(Rejection::InvalidPath);
        }
        i += 1;
    }
    assert(path.take(10) =~= currency_prefix());
    let first = start + 10;
    let ghost symbol = path.skip(10);
    if first == end {
        return Route::Rejected(Rejection::InvalidCurrencyPath);
    }
    let mut name = String::new();
    let mut k: usize = first;
    assert(name@ =~= text_of(symbol.take(0)));
    while k < end
        invariant
            first <= k <= end,
            first == start + 10,
            end <= request@.len(),
            path == request@.subrange(start as int, end as int),
            symbol == path.skip(10),
            request_path(request@) == path,
            path != root_path(),
            path.take(10) == currency_prefix(),
            all_upper(symbol.take(k - first)),
            name@ == text_of(symbol.take(k - first)),
        decreases end - k,
    {
        let b = request[k];
        proof {
            assert(symbol[k - first] == b);
        }
        if !(65 <= b && b <= 90) {
            assert(!is_upper(symbol[k - first]));
            return Route::Rejected(Rejection::InvalidCurrencyPath);
        }
        name.push(b as char);
        proof {
            assert(symbol.take(k + 1 - first) =~= symbol.take(k - first).push(b));
            assert(name@ =~= text_of(symbol.take(k + 1 - first)));
        }
        k += 1;
    }
    assert(symbol.take(k - first) =~= symbol);
    let rows = get_currency_tickers(store, name.as_str());
    proof {
        lemma_recent_empty(store@, name@, recent_rows(store@, name@));
    }
    if rows.len() == 0 {
        Route::Rejected(Rejection::NoData(name))
    } else {
        Route::SingleSymbol(name)
    }
}

/// The view of a symbol is empty exactly where the table has no row of it.
pub proof fn lemma_recent_empty(rows: Seq<SymbolRow>, symbol: Seq<char>, recent: Seq<SymbolRow>)
    requires
        is_recent(rows, symbol, recent),
    ensures
        recent.len() == 0 <==> !has_symbol(rows, symbol),
{
    if has_symbol(rows, symbol) {
        let j = choose|j: int| 0 <= j < rows.len() && (#[trigger] rows[j]).symbol == symbol;
        assert(recent.contains(rows[j]) || recent.len() == RECENT_LIMIT);
    }
    if recent.len() > 0 {
        assert(rows.contains(recent[0]));
        let j = choose|j: int| 0 <= j < rows.len() && rows[j] == recent[0];
        assert(rows[j].symbol == symbol);
    }
}

/// A request for the view of a symbol that the table has no row of is
/// turned away: no session is opened for it, and the one who connected is
/// told that no data was found for the symbol.
pub proof fn lemma_missing_symbol_rejected(
    request: Seq<u8>,
    rows: Seq<SymbolRow>,
    symbol: Seq<char>,
)
    requires
        path_kind(request_path(request)) == PathKind::Currency(symbol),
        !has_symbol(rows, symbol),
    ensures
        routed(request, rows) == Destination::Rejected(Refusal::NoData(symbol)),
        !opens_session(routed(request, rows)),
        refusal_text(Refusal::NoData(symbol)) == "No data found for currency: "@ + symbol,
{
}

} // verus!
