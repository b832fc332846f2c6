//! The view of one symbol: its most recent rows, newest first.

use crate::models::{symbol_rows, SymbolData, SymbolRow};
use crate::ranking::{places_within, rows_at};
use crate::symbol::same_symbol;
use crate::table::{keys_unique, same_key};
use vstd::prelude::*;

verus! {

/// How many rows the view of one symbol holds at most.
pub const RECENT_LIMIT: usize = 10;

/// The first place whose row is older than `time`, or the length where
/// there is none.
pub open spec fn time_position(recent: Seq<SymbolRow>, time: i64) -> int
    decreases recent.len(),
{
    if recent.len() == 0 || recent[0].event_time < time {
        0
    } else {
        1 + time_position(recent.skip(1), time)
    }
}

/// At most the first `RECENT_LIMIT` rows.
pub open spec fn capped(recent: Seq<SymbolRow>) -> Seq<SymbolRow> {
    if recent.len() > RECENT_LIMIT {
        recent.take(RECENT_LIMIT as int)
    } else {
        recent
    }
}

/// The recent rows of a symbol after one more row of the table.
pub open spec fn with_recent(recent: Seq<SymbolRow>, row: SymbolRow, symbol: Seq<char>) -> Seq<
    SymbolRow,
> {
    if row.symbol == symbol {
        capped(recent.insert(time_position(recent, row.event_time), row))
    } else {
        recent
    }
}

/// The most recent rows of a symbol, newest first, `RECENT_LIMIT` at most.
pub open spec fn recent_rows(rows: Seq<SymbolRow>, symbol: Seq<char>) -> Seq<SymbolRow>
    decreases rows.len(),
{
    if rows.len() == 0 {
        Seq::empty()
    } else {
        with_recent(recent_rows(rows.drop_last(), symbol), rows.last(), symbol)
    }
}

/// Each row is newer than those that follow it.
pub open spec fn newest_first(recent: Seq<SymbolRow>) -> bool {
    forall|i: int, k: int|
        0 <= i < k < recent.len() ==> (#[trigger] recent[i]).event_time > (
        #[trigger] recent[k]).event_time
}

/// `recent` is the view of the symbol: rows of the table and of that
/// symbol, newest first, at most `RECENT_LIMIT`, and every row of the symbol
/// that is left out is older than all of them, which are then `RECENT_LIMIT`.
pub open spec fn is_recent(rows: Seq<SymbolRow>, symbol: Seq<char>, recent: Seq<SymbolRow>) -> bool {
    &&& recent.len() <= RECENT_LIMIT
    &&& forall|i: int|
        0 <= i < recent.len() ==> rows.contains(#[trigger] recent[i]) && recent[i].symbol == symbol
    &&& newest_first(recent)
    &&& forall|j: int|
        0 <= j < rows.len() && (#[trigger] rows[j]).symbol == symbol ==> recent.contains(rows[j])
            || (recent.len() == RECENT_LIMIT && rows[j].event_time < recent.last().event_time)
}

/// The row at the place found is older than `time`, and none ahead of it
/// is.
pub proof fn lemma_time_position(recent: Seq<SymbolRow>, time: i64)
    ensures
        0 <= time_position(recent, time) <= recent.len(),
        time_position(recent, time) < recent.len() ==> recent[time_position(
            recent,
            time,
        )].event_time < time,
        forall|j: int|
            0 <= j < time_position(recent, time) ==> (#[trigger] recent[j]).event_time >= time,
    decreases recent.len(),
{
    if recent.len() == 0 || recent[0].event_time < time {
    } else {
        let rest = recent.skip(1);
        lemma_time_position(rest, time);
        let p = time_position(recent, time);
        assert forall|j: int| 0 <= j < p implies (#[trigger] recent[j]).event_time >= time by {
            if j > 0 {
                assert(rest[j - 1] == recent[j]);
            }
        }
        if p < recent.len() {
            assert(rest[p - 1] == recent[p]);
        }
    }
}

/// One more row keeps the view of a symbol its view.
proof fn lemma_with_recent(
    rows: Seq<SymbolRow>,
    symbol: Seq<char>,
    recent: Seq<SymbolRow>,
    row: SymbolRow,
)
    requires
        keys_unique(rows.push(row)),
        is_recent(rows, symbol, recent),
    ensures
        is_recent(rows.push(row), symbol, with_recent(recent, row, symbol)),
{
    let more = rows.push(row);
    let next = with_recent(recent, row, symbol);
    assert(more[rows.len() as int] == row);
    assert forall|j: int| 0 <= j < rows.len() implies more[j] == rows[j] by {}
    assert forall|x: SymbolRow| rows.contains(x) implies more.contains(x) by {
        let w = choose|w: int| 0 <= w < rows.len() && rows[w] == x;
        assert(more[w] == x);
    }
    if row.symbol != symbol {
        assert forall|j: int|
            0 <= j < more.len() && (#[trigger] more[j]).symbol == symbol implies next.contains(
            more[j],
        ) || (next.len() == RECENT_LIMIT && more[j].event_time < next.last().event_time) by {
            assert(more[j] == rows[j]);
        }
    } else {
        let p = time_position(recent, row.event_time);
        lemma_time_position(recent, row.event_time);
        let put = recent.insert(p, row);
        assert forall|i: int| 0 <= i < recent.len() implies (#[trigger] recent[i]).event_time
            != row.event_time by {
            let w = choose|w: int| 0 <= w < rows.len() && rows[w] == recent[i];
            assert(!same_key(more[w], more[rows.len() as int]));
        }
        assert(newest_first(put)) by {
            assert forall|i: int, k: int| 0 <= i < k < put.len() implies (
            #[trigger] put[i]).event_time > (#[trigger] put[k]).event_time by {
                if k < p {
                    assert(put[i] == recent[i] && put[k] == recent[k]);
                } else if k == p {
                    assert(put[i] == recent[i]);
                } else if i < p {
                    assert(put[i] == recent[i] && put[k] == recent[k - 1]);
                } else if i == p {
                    assert(put[k] == recent[k - 1]);
                    if k - 1 > p {
                        assert(recent[p].event_time > recent[k - 1].event_time);
                    }
                } else {
                    assert(put[i] == recent[i - 1] && put[k] == recent[k - 1]);
                }
            }
        }
        assert forall|i: int| 0 <= i < put.len() implies more.contains(#[trigger] put[i])
            && put[i].symbol == symbol by {
            if i < p {
                assert(put[i] == recent[i]);
            } else if i > p {
                assert(put[i] == recent[i - 1]);
            } else {
                assert(more.contains(row));
            }
        }
        assert forall|i: int| 0 <= i < next.len() implies next[i] == put[i] by {}
        assert forall|j: int|
            0 <= j < more.len() && (#[trigger] more[j]).symbol == symbol implies next.contains(
            more[j],
        ) || (next.len() == RECENT_LIMIT && more[j].event_time < next.last().event_time) by {
            let x = more[j];
            // where the row stands in `put`, if it does
            let at: int = if j == rows.len() {
                p
            } else if recent.contains(x) {
                let i = choose|i: int| 0 <= i < recent.len() && recent[i] == x;
                if i < p {
                    i
                } else {
                    i + 1
                }
            } else {
                -1
            };
            if at >= 0 {
                assert(put[at] == x);
                if at < next.len() {
                    assert(next[at] == x);
                } else {
                    assert(put[next.len() - 1].event_time > put[at].event_time);
                }
            } else {
                assert(rows[j] == x);
                assert(recent.len() == RECENT_LIMIT && x.event_time < recent.last().event_time);
                assert(put[put.len() - 1] == recent[recent.len() - 1] || put[put.len() - 1]
                    == row);
                assert(put.len() == RECENT_LIMIT + 1);
                assert(next.last() == put[RECENT_LIMIT - 1]);
                if p == recent.len() {
                    assert(put[RECENT_LIMIT - 1] == recent[recent.len() - 1]);
                } else {
                    assert(put[RECENT_LIMIT as int] == recent[recent.len() - 1]);
                    assert(put[RECENT_LIMIT - 1].event_time > put[RECENT_LIMIT as int].event_time);
                }
            }
        }
    }
}

/// The recent rows of a symbol are its view.
pub proof fn lemma_recent_rows(rows: Seq<SymbolRow>, symbol: Seq<char>)
    requires
        keys_unique(rows),
    ensures
        is_recent(rows, symbol, recent_rows(rows, symbol)),
    decreases rows.len(),
{
    if rows.len() > 0 {
        let before = rows.drop_last();
        assert(before.push(rows.last()) =~= rows);
        assert forall|i: int, j: int| 0 <= i < j < before.len() implies !same_key(
            #[trigger] before[i],
            #[trigger] before[j],
        ) by {
            assert(rows[i] == before[i] && rows[j] == before[j]);
        }
        lemma_recent_rows(before, symbol);
        lemma_with_recent(before, symbol, recent_rows(before, symbol), rows.last());
    }
}

/// The places of the most recent rows of a symbol, newest first.
pub fn recent_places(rows: &Vec<SymbolData>, symbol: &str) -> (recent: Vec<usize>)
    ensures
        places_within(recent@, rows@.len()),
        rows_at(symbol_rows(rows@), recent@) == recent_rows(symbol_rows(rows@), symbol@),
{
    let ghost table = symbol_rows(rows@);
    let mut recent: Vec<usize> = Vec::new();
    let mut j: usize = 0;
    assert(rows_at(table, recent@) =~= recent_rows(table.take(0), symbol@));
    while j < rows.len()
        invariant
            j <= rows.len(),
            table == symbol_rows(rows@),
            places_within(recent@, rows@.len()),
            rows_at(table, recent@) == recent_rows(table.take(j as int), symbol@),
            recent@.len() <= RECENT_LIMIT,
        decreases rows.len() - j,
    {
        let ghost known = rows_at(table, recent@);
        let ghost row = table[j as int];
        proof {
            assert(table.take(j + 1).drop_last() =~= table.take(j as int));
            assert(table.take(j + 1).last() == row);
        }
        if same_symbol(rows[j].symbol.as_str(), symbol) {
            let time = rows[j].event_time;
            let mut p: usize = 0;
            while p < recent.len() && rows[recent[p]].event_time >= time
                invariant
                    p <= recent.len(),
                    table == symbol_rows(rows@),
                    places_within(recent@, rows@.len()),
                    known == rows_at(table, recent@),
                    forall|q: int| 0 <= q < p ==> (#[trigger] known[q]).event_time >= time,
                decreases recent.len() - p,
            {
                p += 1;
            }
            proof {
                lemma_time_position(known, time);
                if p < recent.len() {
                    assert(known[p as int].event_time < time);
                }
                assert(time_position(known, time) == p);
            }
            recent.insert(p, j);
            assert(rows_at(table, recent@) =~= known.insert(p as int, row));
            if recent.len() > RECENT_LIMIT {
                recent.truncate(RECENT_LIMIT);
                assert(rows_at(table, recent@) =~= known.insert(p as int, row).take(
                    RECENT_LIMIT as int,
                ));
            }
        }
        j += 1;
    }
    assert(table.take(j as int) =~= table);
    recent
}

/// As far as one view of a symbol reaches, another view of it agrees.
proof fn lemma_recent_prefix(
    rows: Seq<SymbolRow>,
    symbol: Seq<char>,
    a: Seq<SymbolRow>,
    b: Seq<SymbolRow>,
    n: int,
)
    requires
        keys_unique(rows),
        is_recent(rows, symbol, a),
        is_recent(rows, symbol, b),
        0 <= n <= a.len(),
    ensures
        n <= b.len(),
        a.take(n) == b.take(n),
    decreases n,
{
    if n == 0 {
        assert(a.take(0) =~= b.take(0));
    } else {
        let i = n - 1;
        lemma_recent_prefix(rows, symbol, a, b, i);
        assert forall|q: int| 0 <= q < i implies a[q] == b[q] by {
            assert(a.take(i)[q] == b.take(i)[q]);
        }
        let x = a[i];
        assert(rows.contains(x));
        let j = choose|j: int| 0 <= j < rows.len() && rows[j] == x;
        assert(rows[j].symbol == symbol);
        if b.contains(x) {
            let m = choose|m: int| 0 <= m < b.len() && b[m] == x;
            if m < i {
                assert(a[m].event_time > a[i].event_time);
            }
            let y = b[i];
            assert(rows.contains(y));
            let jy = choose|jy: int| 0 <= jy < rows.len() && rows[jy] == y;
            assert(rows[jy].symbol == symbol);
            if a.contains(y) {
                let t = choose|t: int| 0 <= t < a.len() && a[t] == y;
                if t < i {
                    assert(b[t].event_time > b[i].event_time);
                }
                if m > i && t > i {
                    assert(b[i].event_time > b[m].event_time);
                    assert(a[i].event_time > a[t].event_time);
                }
            } else {
                assert(a.len() == RECENT_LIMIT && y.event_time < a.last().event_time);
                if i < a.len() - 1 {
                    assert(a[i].event_time > a[a.len() - 1].event_time);
                }
                if m > i {
                    assert(b[i].event_time > b[m].event_time);
                }
            }
        } else {
            assert(b.len() == RECENT_LIMIT && x.event_time < b.last().event_time);
            let z = b[b.len() - 1];
            assert(rows.contains(z));
            let jz = choose|jz: int| 0 <= jz < rows.len() && rows[jz] == z;
            assert(rows[jz].symbol == symbol);
            if a.contains(z) {
                let t = choose|t: int| 0 <= t < a.len() && a[t] == z;
                if t > i {
                    assert(a[i].event_time > a[t].event_time);
                }
                if t < i {
                    assert(b[t].event_time > b[b.len() - 1].event_time);
                }
            } else {
                if i < a.len() - 1 {
                    assert(a[i].event_time > a[a.len() - 1].event_time);
                }
            }
            assert(false);
        }
        assert(a[i] == b[i]);
        assert(a.take(n) =~= a.take(i).push(a[i]));
        assert(b.take(n) =~= b.take(i).push(b[i]));
    }
}

/// A symbol has one view in a table without double keys: what is a view of
/// it is `recent_rows` of it.
pub proof fn lemma_recent_unique(rows: Seq<SymbolRow>, symbol: Seq<char>, recent: Seq<SymbolRow>)
    requires
        keys_unique(rows),
        is_recent(rows, symbol, recent),
    ensures
        recent == recent_rows(rows, symbol),
{
    let other = recent_rows(rows, symbol);
    lemma_recent_rows(rows, symbol);
    lemma_recent_prefix(rows, symbol, recent, other, recent.len() as int);
    lemma_recent_prefix(rows, symbol, other, recent, other.len() as int);
    assert(recent =~= recent.take(recent.len() as int));
    assert(other =~= other.take(other.len() as int));
}

} // verus!
