//! The table as a mathematical object: a sequence of rows in which no
//! symbol has two rows of one time.

use crate::models::{row_of, SymbolRow, Tick};
use vstd::prelude::*;

verus! {

/// How many rows a table can be made to hold at most.
pub const MAX_ROWS: usize = 2_147_483_647;

/// The two rows have the same symbol and the same time.
pub open spec fn same_key(a: SymbolRow, b: SymbolRow) -> bool {
    a.symbol == b.symbol && a.event_time == b.event_time
}

/// The table holds a row of this symbol and time.
pub open spec fn has_key(rows: Seq<SymbolRow>, symbol: Seq<char>, time: i64) -> bool {
    exists|i: int|
        0 <= i < rows.len() && (#[trigger] rows[i]).symbol == symbol && rows[i].event_time == time
}

/// No two rows have the same symbol and time.
pub open spec fn keys_unique(rows: Seq<SymbolRow>) -> bool {
    forall|i: int, j: int|
        0 <= i < j < rows.len() ==> !same_key(#[trigger] rows[i], #[trigger] rows[j])
}

/// How many rows have this symbol and time.
pub open spec fn key_count(rows: Seq<SymbolRow>, symbol: Seq<char>, time: i64) -> nat
    decreases rows.len(),
{
    if rows.len() == 0 {
        0
    } else {
        key_count(rows.drop_last(), symbol, time) + if rows.last().symbol == symbol
            && rows.last().event_time == time {
            1nat
        } else {
            0nat
        }
    }
}

/// The table after the insertion of a row: unchanged where it holds a row
/// of that symbol and time, else with the row at its end.
pub open spec fn inserted(rows: Seq<SymbolRow>, row: SymbolRow) -> Seq<SymbolRow> {
    if has_key(rows, row.symbol, row.event_time) {
        rows
    } else {
        rows.push(row)
    }
}

/// The table has the symbol.
pub open spec fn has_symbol(rows: Seq<SymbolRow>, symbol: Seq<char>) -> bool {
    exists|i: int| 0 <= i < rows.len() && (#[trigger] rows[i]).symbol == symbol
}

/// A table holds a key as often as it has rows of it: never, where it does
/// not hold it.
pub proof fn lemma_key_count_absent(rows: Seq<SymbolRow>, symbol: Seq<char>, time: i64)
    requires
        !has_key(rows, symbol, time),
    ensures
        key_count(rows, symbol, time) == 0,
    decreases rows.len(),
{
    if rows.len() > 0 {
        let before = rows.drop_last();
        assert(rows[rows.len() - 1] == rows.last());
        assert forall|i: int| 0 <= i < before.len() implies !((#[trigger] before[i]).symbol
            == symbol && before[i].event_time == time) by {
            assert(rows[i] == before[i]);
        }
        lemma_key_count_absent(before, symbol, time);
    }
}

/// In a table without double keys, a key that it holds it holds once.
pub proof fn lemma_key_count_present(rows: Seq<SymbolRow>, symbol: Seq<char>, time: i64)
    requires
        keys_unique(rows),
        has_key(rows, symbol, time),
    ensures
        key_count(rows, symbol, time) == 1,
    decreases rows.len(),
{
    let before = rows.drop_last();
    let w = choose|i: int|
        0 <= i < rows.len() && (#[trigger] rows[i]).symbol == symbol && rows[i].event_time == time;
    assert forall|i: int, j: int| 0 <= i < j < before.len() implies !same_key(
        #[trigger] before[i],
        #[trigger] before[j],
    ) by {
        assert(rows[i] == before[i] && rows[j] == before[j]);
    }
    if rows.last().symbol == symbol && rows.last().event_time == time {
        assert forall|i: int| 0 <= i < before.len() implies !((#[trigger] before[i]).symbol
            == symbol && before[i].event_time == time) by {
            assert(rows[i] == before[i]);
            assert(!same_key(rows[i], rows[rows.len() - 1]));
        }
        lemma_key_count_absent(before, symbol, time);
    } else {
        assert(before[w] == rows[w]);
        lemma_key_count_present(before, symbol, time);
    }
}

/// Insertion keeps the keys unique, and the table then holds the key.
pub proof fn lemma_inserted(rows: Seq<SymbolRow>, row: SymbolRow)
    requires
        keys_unique(rows),
    ensures
        keys_unique(inserted(rows, row)),
        has_key(inserted(rows, row), row.symbol, row.event_time),
        key_count(inserted(rows, row), row.symbol, row.event_time) == 1,
{
    let next = inserted(rows, row);
    if !has_key(rows, row.symbol, row.event_time) {
        assert(next[rows.len() as int] == row);
        assert forall|i: int, j: int| 0 <= i < j < next.len() implies !same_key(
            #[trigger] next[i],
            #[trigger] next[j],
        ) by {
            assert(next[i] == rows[i]);
            if j < rows.len() {
                assert(next[j] == rows[j]);
            }
        }
    }
    lemma_key_count_present(next, row.symbol, row.event_time);
}

/// The write of the tick is refused: its row is new and the table, which
/// holds `capacity` rows at most, is full.
pub open spec fn refused(rows: Seq<SymbolRow>, capacity: nat, tick: Tick) -> bool {
    !has_key(rows, tick.symbol, tick.event_time) && rows.len() >= capacity
}

/// The table after the write of a tick: unchanged where it holds a row of
/// the tick's symbol and time or is full, else with the tick's row at its
/// end.
pub open spec fn written(rows: Seq<SymbolRow>, capacity: nat, tick: Tick) -> Seq<SymbolRow> {
    if refused(rows, capacity, tick) {
        rows
    } else {
        inserted(rows, row_of(tick))
    }
}

/// A tick that was written is in the table once, whatever its prices were;
/// writing it again, or another tick of its symbol and time, is not refused
/// and changes nothing.
pub proof fn lemma_write_idempotent(rows: Seq<SymbolRow>, capacity: nat, tick: Tick, again: Tick)
    requires
        keys_unique(rows),
        !refused(rows, capacity, tick),
        again.symbol == tick.symbol,
        again.event_time == tick.event_time,
    ensures
        key_count(written(rows, capacity, tick), tick.symbol, tick.event_time) == 1,
        !refused(written(rows, capacity, tick), capacity, again),
        written(written(rows, capacity, tick), capacity, again) == written(rows, capacity, tick),
{
    lemma_inserted(rows, row_of(tick));
}

} // verus!
