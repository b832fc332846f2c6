//! A relay for live market tickers: ticks from an upstream feed are kept in a
//! time-windowed table and served to subscribers page by page.

pub mod db;
pub mod decimal;
pub mod decimal_text;
pub mod decimal_value;
pub mod digits;
pub mod feed;
pub mod models;
pub mod pagination;
pub mod ranking;
pub mod recent;
pub mod router;
pub mod session;
pub mod symbol;
pub mod table;
