//! The data that crosses the boundaries of the relay.

use crate::decimal::Decimal;
use crate::decimal_text::field_value;
use crate::decimal_value::DecimalValue;
use vstd::prelude::*;

verus! {

/// One record of the upstream feed, as it arrives: the event time in
/// milliseconds since the epoch, the symbol, and prices and volume as
/// decimal text.
#[allow(non_snake_case)]
#[derive(Debug, PartialEq, Eq)]
pub struct TickerData {
    /// Event time.
    pub E: i64,
    /// Symbol.
    pub s: String,
    /// Close price.
    pub c: String,
    /// Open price.
    pub o: String,
    /// High price.
    pub h: String,
    /// Low price.
    pub l: String,
    /// Total traded quote asset volume.
    pub q: String,
}

/// What a `TickerData` holds.
pub struct Tick {
    pub event_time: i64,
    pub symbol: Seq<char>,
    pub close: Seq<char>,
    pub open: Seq<char>,
    pub high: Seq<char>,
    pub low: Seq<char>,
    pub volume: Seq<char>,
}

impl View for TickerData {
    type V = Tick;

    open spec fn view(&self) -> Tick {
        Tick {
            event_time: self.E,
            symbol: self.s@,
            close: self.c@,
            open: self.o@,
            high: self.h@,
            low: self.l@,
            volume: self.q@,
        }
    }
}

/// A row of the table, and of the view of one symbol: the time of the tick,
/// the symbol, the four prices and the quote volume.
#[derive(Debug, PartialEq, Eq)]
pub struct SymbolData {
    pub event_time: i64,
    pub symbol: String,
    pub close_price: Decimal,
    pub open_price: Decimal,
    pub high_price: Decimal,
    pub low_price: Decimal,
    pub quote_volume: Decimal,
}

/// What a `SymbolData` holds.
pub struct SymbolRow {
    pub event_time: i64,
    pub symbol: Seq<char>,
    pub close_price: DecimalValue,
    pub open_price: DecimalValue,
    pub high_price: DecimalValue,
    pub low_price: DecimalValue,
    pub quote_volume: DecimalValue,
}

impl View for SymbolData {
    type V = SymbolRow;

    open spec fn view(&self) -> SymbolRow {
        SymbolRow {
            event_time: self.event_time,
            symbol: self.symbol@,
            close_price: self.close_price@,
            open_price: self.open_price@,
            high_price: self.high_price@,
            low_price: self.low_price@,
            quote_volume: self.quote_volume@,
        }
    }
}

impl Clone for SymbolData {
    fn clone(&self) -> (r: SymbolData)
        ensures
            r@ == self@,
    {
        SymbolData {
            event_time: self.event_time,
            symbol: self.symbol.clone(),
            close_price: self.close_price.clone(),
            open_price: self.open_price.clone(),
            high_price: self.high_price.clone(),
            low_price: self.low_price.clone(),
            quote_volume: self.quote_volume.clone(),
        }
    }
}

/// The row that a tick is stored as: each price and the volume read as a
/// decimal, zero where the text writes none.
pub open spec fn row_of(tick: Tick) -> SymbolRow {
    SymbolRow {
        event_time: tick.event_time,
        symbol: tick.symbol,
        close_price: field_value(tick.close),
        open_price: field_value(tick.open),
        high_price: field_value(tick.high),
        low_price: field_value(tick.low),
        quote_volume: field_value(tick.volume),
    }
}

impl SymbolData {
    /// Reads a tick into the row it is stored as. A price or volume that is
    /// not a number becomes zero; the tick is never refused.
    pub fn from_ticker(ticker: &TickerData) -> (r: SymbolData)
        ensures
            r@ == row_of(ticker@),
    {
        SymbolData {
            event_time: ticker.E,
            symbol: ticker.s.clone(),
            close_price: Decimal::parse_or_zero(ticker.c.as_str()),
            open_price: Decimal::parse_or_zero(ticker.o.as_str()),
            high_price: Decimal::parse_or_zero(ticker.h.as_str()),
            low_price: Decimal::parse_or_zero(ticker.l.as_str()),
            quote_volume: Decimal::parse_or_zero(ticker.q.as_str()),
        }
    }
}

/// The latest state of one symbol in the ranked view: its last price and
/// its quote volume.
#[derive(Debug, PartialEq, Eq)]
pub struct VolumeData {
    pub symbol: String,
    pub price: Decimal,
    pub volume: Decimal,
}

/// What a `VolumeData` holds.
pub struct VolumeRow {
    pub symbol: Seq<char>,
    pub price: DecimalValue,
    pub volume: DecimalValue,
}

impl View for VolumeData {
    type V = VolumeRow;

    open spec fn view(&self) -> VolumeRow {
        VolumeRow { symbol: self.symbol@, price: self.price@, volume: self.volume@ }
    }
}

/// The entry of the ranked view that a row gives: its symbol, its close
/// price and its volume.
pub open spec fn volume_row(row: SymbolRow) -> VolumeRow {
    VolumeRow { symbol: row.symbol, price: row.close_price, volume: row.quote_volume }
}

impl VolumeData {
    /// The entry of the ranked view for a row.
    pub fn from_row(row: &SymbolData) -> (r: VolumeData)
        ensures
            r@ == volume_row(row@),
    {
        VolumeData {
            symbol: row.symbol.clone(),
            price: row.close_price.clone(),
            volume: row.quote_volume.clone(),
        }
    }
}

/// One page of the ranked view, with the number of symbols in all.
#[derive(Debug, PartialEq, Eq)]
pub struct PaginatedResponse {
    pub data: Vec<VolumeData>,
    pub total: i64,
    pub page: i64,
    pub per_page: i64,
}

/// What a `PaginatedResponse` holds.
pub struct Page {
    pub data: Seq<VolumeRow>,
    pub total: int,
    pub page: int,
    pub per_page: int,
}

/// What each element of a sequence holds.
pub open spec fn volume_rows(data: Seq<VolumeData>) -> Seq<VolumeRow> {
    Seq::new(data.len(), |i: int| data[i]@)
}

/// What each element of a sequence holds.
pub open spec fn symbol_rows(data: Seq<SymbolData>) -> Seq<SymbolRow> {
    Seq::new(data.len(), |i: int| data[i]@)
}

impl View for PaginatedResponse {
    type V = Page;

    open spec fn view(&self) -> Page {
        Page {
            data: volume_rows(self.data@),
            total: self.total as int,
            page: self.page as int,
            per_page: self.per_page as int,
        }
    }
}

/// What a subscriber asks for: a page number, and a page size that is
/// accepted and not applied.
#[derive(Debug, Clone, Copy, PartialEq, Eq)]
pub struct PaginationParams {
    pub page: Option<i64>,
    pub per_page: Option<i64>,
}

} // verus!
