//! The ranked view: the latest row of every symbol, by quote volume.

use crate::decimal::Relation;
use crate::decimal_value::{lemma_lt_transitive, lemma_lt_trichotomy, lemma_same_then_lt};
use crate::models::{symbol_rows, volume_row, SymbolData, SymbolRow, VolumeRow};
use crate::symbol::{
    lemma_symbol_order, lemma_symbol_order_transitive, symbol_before, symbol_relation,
};
use crate::table::{has_symbol, keys_unique, same_key};
use vstd::prelude::*;

verus! {

/// `row` is in the table, and no row of its symbol is newer.
pub open spec fn is_latest(rows: Seq<SymbolRow>, row: SymbolRow) -> bool {
    &&& rows.contains(row)
    &&& forall|j: int|
        0 <= j < rows.len() && (#[trigger] rows[j]).symbol == row.symbol ==> rows[j].event_time
            <= row.event_time
}

/// The place of the first row of a symbol, or the length where there is
/// none.
pub open spec fn position_of(latest: Seq<SymbolRow>, symbol: Seq<char>) -> int
    decreases latest.len(),
{
    if latest.len() == 0 || latest[0].symbol == symbol {
        0
    } else {
        1 + position_of(latest.skip(1), symbol)
    }
}

/// The latest rows after one more row: it takes the place of an older row
/// of its symbol, stands back behind a row of its symbol that is as new, and
/// is added where its symbol is new.
pub open spec fn with_row(latest: Seq<SymbolRow>, row: SymbolRow) -> Seq<SymbolRow> {
    let p = position_of(latest, row.symbol);
    if p == latest.len() {
        latest.push(row)
    } else if latest[p].event_time < row.event_time {
        latest.update(p, row)
    } else {
        latest
    }
}

/// The latest row of every symbol, in the order in which the symbols first
/// appear.
pub open spec fn latest_rows(rows: Seq<SymbolRow>) -> Seq<SymbolRow>
    decreases rows.len(),
{
    if rows.len() == 0 {
        Seq::empty()
    } else {
        with_row(latest_rows(rows.drop_last()), rows.last())
    }
}

/// `latest` holds one row for each symbol of the table: its latest.
pub open spec fn is_latest_per_symbol(rows: Seq<SymbolRow>, latest: Seq<SymbolRow>) -> bool {
    &&& forall|i: int| 0 <= i < latest.len() ==> is_latest(rows, #[trigger] latest[i])
    &&& forall|j: int|
        0 <= j < rows.len() ==> position_of(latest, (#[trigger] rows[j]).symbol) < latest.len()
    &&& forall|i: int, k: int|
        0 <= i < k < latest.len() ==> (#[trigger] latest[i]).symbol != (#[trigger] latest[k]).symbol
}

/// The first row of a symbol is a row of that symbol, and none stands
/// before it.
pub proof fn lemma_position_of(latest: Seq<SymbolRow>, symbol: Seq<char>)
    ensures
        0 <= position_of(latest, symbol) <= latest.len(),
        position_of(latest, symbol) < latest.len() ==> latest[position_of(latest, symbol)].symbol
            == symbol,
        forall|j: int|
            0 <= j < position_of(latest, symbol) ==> (#[trigger] latest[j]).symbol != symbol,
    decreases latest.len(),
{
    if latest.len() == 0 || latest[0].symbol == symbol {
    } else {
        let rest = latest.skip(1);
        lemma_position_of(rest, symbol);
        let p = position_of(latest, symbol);
        assert forall|j: int| 0 <= j < p implies (#[trigger] latest[j]).symbol != symbol by {
            if j > 0 {
                assert(rest[j - 1] == latest[j]);
            }
        }
        if p < latest.len() {
            assert(rest[p - 1] == latest[p]);
        }
    }
}

/// One more row keeps the latest rows the latest rows.
proof fn lemma_with_row(rows: Seq<SymbolRow>, latest: Seq<SymbolRow>, row: SymbolRow)
    requires
        is_latest_per_symbol(rows, latest),
    ensures
        is_latest_per_symbol(rows.push(row), with_row(latest, row)),
{
    let more = rows.push(row);
    let next = with_row(latest, row);
    let p = position_of(latest, row.symbol);
    lemma_position_of(latest, row.symbol);
    assert(more.last() == row);
    assert forall|j: int| 0 <= j < rows.len() implies more[j] == rows[j] by {}
    assert forall|i: int| 0 <= i < next.len() implies is_latest(more, #[trigger] next[i]) by {
        let x = next[i];
        if i < latest.len() && x == latest[i] {
            assert(is_latest(rows, latest[i]));
            let w = choose|w: int| 0 <= w < rows.len() && rows[w] == x;
            assert(more[w] == x);
            assert forall|j: int|
                0 <= j < more.len() && (#[trigger] more[j]).symbol == x.symbol implies more[j].event_time
                <= x.event_time by {
                if j < rows.len() {
                    assert(rows[j].symbol == x.symbol);
                }
            }
        } else {
            assert(x == row);
            assert(more[rows.len() as int] == row);
            assert forall|j: int|
                0 <= j < more.len() && (#[trigger] more[j]).symbol == x.symbol implies more[j].event_time
                <= x.event_time by {
                if j < rows.len() {
                    assert(position_of(latest, rows[j].symbol) < latest.len());
                    assert(p < latest.len());
                    assert(is_latest(rows, latest[p]));
                }
            }
        }
    }
    assert forall|j: int| 0 <= j < more.len() implies position_of(
        next,
        (#[trigger] more[j]).symbol,
    ) < next.len() by {
        let s = more[j].symbol;
        lemma_position_of(next, s);
        lemma_position_of(latest, s);
        let q = if j < rows.len() {
            position_of(latest, rows[j].symbol)
        } else {
            p
        };
        if j < rows.len() {
            assert(rows[j].symbol == s);
        }
        assert(q < next.len());
        assert(next[q].symbol == s);
    }
    assert forall|i: int, k: int| 0 <= i < k < next.len() implies (#[trigger] next[i]).symbol != (
    #[trigger] next[k]).symbol by {
        if k < latest.len() {
            assert(latest[i].symbol != latest[k].symbol);
        }
    }
}

/// The latest rows are the latest row of every symbol.
pub proof fn lemma_latest_rows(rows: Seq<SymbolRow>)
    ensures
        is_latest_per_symbol(rows, latest_rows(rows)),
    decreases rows.len(),
{
    if rows.len() > 0 {
        lemma_latest_rows(rows.drop_last());
        lemma_with_row(rows.drop_last(), latest_rows(rows.drop_last()), rows.last());
        assert(rows.drop_last().push(rows.last()) =~= rows);
    } else {
        assert forall|j: int| 0 <= j < rows.len() implies position_of(
            latest_rows(rows),
            (#[trigger] rows[j]).symbol,
        ) < latest_rows(rows).len() by {}
    }
}

/// `a` stands before `b` in the ranked view: it has the larger volume, or
/// the same volume and the symbol that comes first.
pub open spec fn ranks_before(a: VolumeRow, b: VolumeRow) -> bool {
    ||| b.volume.lt(a.volume)
    ||| a.volume.same_number(b.volume) && symbol_before(a.symbol, b.symbol)
}

/// Every entry stands before those that follow it.
pub open spec fn in_rank_order(entries: Seq<VolumeRow>) -> bool {
    forall|i: int, k: int|
        0 <= i < k < entries.len() ==> ranks_before(#[trigger] entries[i], #[trigger] entries[k])
}

/// No symbol occurs twice.
pub open spec fn symbols_distinct(entries: Seq<VolumeRow>) -> bool {
    forall|i: int, k: int|
        0 <= i < k < entries.len() ==> (#[trigger] entries[i]).symbol != (
        #[trigger] entries[k]).symbol
}

/// The first place whose entry the new entry stands before, or the length
/// where there is none.
pub open spec fn rank_position(ranked: Seq<VolumeRow>, entry: VolumeRow) -> int
    decreases ranked.len(),
{
    if ranked.len() == 0 || ranks_before(entry, ranked[0]) {
        0
    } else {
        1 + rank_position(ranked.skip(1), entry)
    }
}

/// The entries with one more, put where it belongs.
pub open spec fn placed(ranked: Seq<VolumeRow>, entry: VolumeRow) -> Seq<VolumeRow> {
    ranked.insert(rank_position(ranked, entry), entry)
}

/// The entries in rank order.
pub open spec fn ranked(entries: Seq<VolumeRow>) -> Seq<VolumeRow>
    decreases entries.len(),
{
    if entries.len() == 0 {
        Seq::empty()
    } else {
        placed(ranked(entries.drop_last()), entries.last())
    }
}

/// The entry of each row.
pub open spec fn entries_of(latest: Seq<SymbolRow>) -> Seq<VolumeRow> {
    Seq::new(latest.len(), |i: int| volume_row(latest[i]))
}

/// The ranked view of a table: for every symbol the entry of its latest
/// row, the largest volume first, and among equal volumes the symbols in
/// their order.
pub open spec fn ranking(rows: Seq<SymbolRow>) -> Seq<VolumeRow> {
    ranked(entries_of(latest_rows(rows)))
}

/// `entry` is the entry of the latest row of some symbol of the table.
pub open spec fn is_latest_entry(rows: Seq<SymbolRow>, entry: VolumeRow) -> bool {
    exists|row: SymbolRow| #[trigger] is_latest(rows, row) && volume_row(row) == entry
}

/// The view has an entry for the symbol.
pub open spec fn has_entry(view: Seq<VolumeRow>, symbol: Seq<char>) -> bool {
    exists|i: int| 0 <= i < view.len() && (#[trigger] view[i]).symbol == symbol
}

/// `view` is a ranked view of the table: each entry is that of the latest
/// row of a symbol, every symbol of the table has an entry, and the entries
/// stand in rank order.
pub open spec fn is_ranking(rows: Seq<SymbolRow>, view: Seq<VolumeRow>) -> bool {
    &&& forall|i: int| 0 <= i < view.len() ==> is_latest_entry(rows, #[trigger] view[i])
    &&& forall|j: int| 0 <= j < rows.len() ==> has_entry(view, (#[trigger] rows[j]).symbol)
    &&& in_rank_order(view)
}

/// Rank order is a strict order, and it decides between any two entries of
/// different symbols.
pub proof fn lemma_rank_order(a: VolumeRow, b: VolumeRow)
    ensures
        !(ranks_before(a, b) && ranks_before(b, a)),
        !ranks_before(a, a),
        a.symbol != b.symbol ==> ranks_before(a, b) || ranks_before(b, a),
{
    lemma_lt_trichotomy(a.volume, b.volume);
    lemma_lt_trichotomy(a.volume, a.volume);
    lemma_symbol_order(a.symbol, b.symbol);
    lemma_symbol_order(a.symbol, a.symbol);
}

/// Rank order is transitive.
pub proof fn lemma_rank_order_transitive(a: VolumeRow, b: VolumeRow, c: VolumeRow)
    requires
        ranks_before(a, b),
        ranks_before(b, c),
    ensures
        ranks_before(a, c),
{
    lemma_lt_trichotomy(a.volume, b.volume);
    lemma_lt_trichotomy(b.volume, c.volume);
    lemma_lt_trichotomy(a.volume, c.volume);
    if b.volume.lt(a.volume) {
        // c <= b < a
        if c.volume.lt(b.volume) {
            lemma_lt_transitive(c.volume, b.volume, a.volume);
        } else {
            lemma_same_then_lt(c.volume, b.volume, a.volume);
        }
    } else if c.volume.lt(b.volume) {
        // c < b == a
        lemma_lt_transitive(c.volume, b.volume, a.volume);
    } else {
        // a == b == c in volume
        if c.volume.lt(a.volume) {
        } else if a.volume.lt(c.volume) {
            lemma_lt_transitive(a.volume, c.volume, b.volume);
        } else {
        }
        lemma_symbol_order_transitive(a.symbol, b.symbol, c.symbol);
    }
}

/// The new entry stands before the entry at its place, and before none
/// ahead of it.
pub proof fn lemma_rank_position(ranked: Seq<VolumeRow>, entry: VolumeRow)
    ensures
        0 <= rank_position(ranked, entry) <= ranked.len(),
        rank_position(ranked, entry) < ranked.len() ==> ranks_before(
            entry,
            ranked[rank_position(ranked, entry)],
        ),
        forall|j: int|
            0 <= j < rank_position(ranked, entry) ==> !ranks_before(entry, #[trigger] ranked[j]),
    decreases ranked.len(),
{
    if ranked.len() == 0 || ranks_before(entry, ranked[0]) {
    } else {
        let rest = ranked.skip(1);
        lemma_rank_position(rest, entry);
        let p = rank_position(ranked, entry);
        assert forall|j: int| 0 <= j < p implies !ranks_before(entry, #[trigger] ranked[j]) by {
            if j > 0 {
                assert(rest[j - 1] == ranked[j]);
            }
        }
        if p < ranked.len() {
            assert(rest[p - 1] == ranked[p]);
        }
    }
}

/// Putting an entry of a new symbol where it belongs keeps the rank order
/// and loses nothing.
pub proof fn lemma_placed(ranked: Seq<VolumeRow>, entry: VolumeRow)
    requires
        in_rank_order(ranked),
        forall|j: int| 0 <= j < ranked.len() ==> (#[trigger] ranked[j]).symbol != entry.symbol,
    ensures
        in_rank_order(placed(ranked, entry)),
        placed(ranked, entry).len() == ranked.len() + 1,
        forall|x: VolumeRow|
            placed(ranked, entry).contains(x) <==> ranked.contains(x) || x == entry,
{
    let p = rank_position(ranked, entry);
    let next = placed(ranked, entry);
    lemma_rank_position(ranked, entry);
    assert forall|i: int, k: int| 0 <= i < k < next.len() implies ranks_before(
        #[trigger] next[i],
        #[trigger] next[k],
    ) by {
        if k < p {
            assert(next[i] == ranked[i] && next[k] == ranked[k]);
        } else if k == p {
            assert(next[i] == ranked[i]);
            lemma_rank_order(ranked[i], entry);
        } else if i < p {
            assert(next[i] == ranked[i] && next[k] == ranked[k - 1]);
        } else if i == p {
            assert(next[k] == ranked[k - 1]);
            if k - 1 > p {
                assert(ranks_before(ranked[p], ranked[k - 1]));
                lemma_rank_order_transitive(entry, ranked[p], ranked[k - 1]);
            }
        } else {
            assert(next[i] == ranked[i - 1] && next[k] == ranked[k - 1]);
        }
    }
    assert forall|x: VolumeRow| next.contains(x) <==> ranked.contains(x) || x == entry by {
        if next.contains(x) {
            let i = choose|i: int| 0 <= i < next.len() && next[i] == x;
            if i < p {
                assert(ranked[i] == x);
            } else if i > p {
                assert(ranked[i - 1] == x);
            }
        }
        if ranked.contains(x) {
            let i = choose|i: int| 0 <= i < ranked.len() && ranked[i] == x;
            if i < p {
                assert(next[i] == x);
            } else {
                assert(next[i + 1] == x);
            }
        }
        if x == entry {
            assert(next[p] == x);
        }
    }
}

/// Ranking keeps every entry and puts them in rank order.
pub proof fn lemma_ranked(entries: Seq<VolumeRow>)
    requires
        symbols_distinct(entries),
    ensures
        in_rank_order(ranked(entries)),
        ranked(entries).len() == entries.len(),
        forall|x: VolumeRow| ranked(entries).contains(x) <==> entries.contains(x),
    decreases entries.len(),
{
    if entries.len() > 0 {
        let before = entries.drop_last();
        let entry = entries.last();
        lemma_ranked(before);
        let sorted = ranked(before);
        assert forall|j: int| 0 <= j < sorted.len() implies (#[trigger] sorted[j]).symbol
            != entry.symbol by {
            assert(sorted.contains(sorted[j]));
            assert(before.contains(sorted[j]));
            let k = choose|k: int| 0 <= k < before.len() && before[k] == sorted[j];
            assert(entries[k].symbol != entries[entries.len() - 1].symbol);
        }
        lemma_placed(sorted, entry);
        assert forall|x: VolumeRow| ranked(entries).contains(x) <==> entries.contains(x) by {
            if entries.contains(x) {
                let k = choose|k: int| 0 <= k < entries.len() && entries[k] == x;
                if k < before.len() {
                    assert(before[k] == x);
                }
            }
            if before.contains(x) {
                let k = choose|k: int| 0 <= k < before.len() && before[k] == x;
                assert(entries[k] == x);
            }
            if x == entry {
                assert(entries[entries.len() - 1] == x);
            }
        }
    }
}

/// The ranked view of a table is a ranked view of it.
pub proof fn lemma_ranking(rows: Seq<SymbolRow>)
    ensures
        is_ranking(rows, ranking(rows)),
        ranking(rows).len() == latest_rows(rows).len(),
{
    let latest = latest_rows(rows);
    let entries = entries_of(latest);
    let view = ranking(rows);
    lemma_latest_rows(rows);
    assert(symbols_distinct(entries)) by {
        assert forall|i: int, k: int| 0 <= i < k < entries.len() implies (
        #[trigger] entries[i]).symbol != (#[trigger] entries[k]).symbol by {
            assert(latest[i].symbol != latest[k].symbol);
        }
    }
    lemma_ranked(entries);
    assert forall|i: int| 0 <= i < view.len() implies is_latest_entry(
        rows,
        #[trigger] view[i],
    ) by {
        assert(view.contains(view[i]));
        assert(entries.contains(view[i]));
        let k = choose|k: int| 0 <= k < entries.len() && entries[k] == view[i];
        assert(is_latest(rows, latest[k]));
    }
    assert forall|j: int| 0 <= j < rows.len() implies has_entry(
        view,
        (#[trigger] rows[j]).symbol,
    ) by {
        let p = position_of(latest, rows[j].symbol);
        lemma_position_of(latest, rows[j].symbol);
        assert(entries[p] == volume_row(latest[p]));
        assert(entries.contains(entries[p]));
        assert(view.contains(entries[p]));
        let i = choose|i: int| 0 <= i < view.len() && view[i] == entries[p];
        assert(view[i].symbol == rows[j].symbol);
    }
}

/// The rows at the given places.
pub open spec fn rows_at(rows: Seq<SymbolRow>, places: Seq<usize>) -> Seq<SymbolRow> {
    Seq::new(places.len(), |i: int| rows[places[i] as int])
}

/// Every place is one of the table.
pub open spec fn places_within(places: Seq<usize>, len: nat) -> bool {
    forall|i: int| 0 <= i < places.len() ==> (#[trigger] places[i]) < len
}

/// Whether the entry of `a` stands before that of `b` in the ranked view.
pub fn stands_before(a: &SymbolData, b: &SymbolData) -> (r: bool)
    ensures
        r == ranks_before(volume_row(a@), volume_row(b@)),
{
    proof {
        lemma_lt_trichotomy(a@.quote_volume, b@.quote_volume);
    }
    match b.quote_volume.relation_to(&a.quote_volume) {
        Relation::Below => true,
        Relation::Above => false,
        Relation::Equal => {
            match symbol_relation(a.symbol.as_str(), b.symbol.as_str()) {
                Relation::Below => true,
                _ => false,
            }
        },
    }
}

/// The places of the latest row of every symbol, in the order in which the
/// symbols first appear.
pub fn latest_places(rows: &Vec<SymbolData>) -> (latest: Vec<usize>)
    ensures
        places_within(latest@, rows@.len()),
        rows_at(symbol_rows(rows@), latest@) == latest_rows(symbol_rows(rows@)),
{
    let ghost table = symbol_rows(rows@);
    let mut latest: Vec<usize> = Vec::new();
    let mut j: usize = 0;
    assert(rows_at(table, latest@) =~= latest_rows(table.take(0)));
    while j < rows.len()
        invariant
            j <= rows.len(),
            table == symbol_rows(rows@),
            places_within(latest@, rows@.len()),
            rows_at(table, latest@) == latest_rows(table.take(j as int)),
        decreases rows.len() - j,
    {
        let ghost known = rows_at(table, latest@);
        let ghost row = table[j as int];
        let mut p: usize = 0;
        while p < latest.len() && !crate::symbol::same_symbol(
            rows[latest[p]].symbol.as_str(),
            rows[j].symbol.as_str(),
        )
            invariant
                p <= latest.len(),
                j < rows.len(),
                table == symbol_rows(rows@),
                row == table[j as int],
                places_within(latest@, rows@.len()),
                known == rows_at(table, latest@),
                forall|q: int| 0 <= q < p ==> (#[trigger] known[q]).symbol != row.symbol,
            decreases latest.len() - p,
        {
            p += 1;
        }
        proof {
            lemma_position_of(known, row.symbol);
            if p < latest.len() {
                assert(known[p as int].symbol == row.symbol);
            }
            assert(position_of(known, row.symbol) == p);
            assert(table.take(j + 1).drop_last() =~= table.take(j as int));
            assert(table.take(j + 1).last() == row);
        }
        if p == latest.len() {
            latest.push(j);
            assert(rows_at(table, latest@) =~= known.push(row));
        } else if rows[latest[p]].event_time < rows[j].event_time {
            latest.set(p, j);
            assert(rows_at(table, latest@) =~= known.update(p as int, row));
        }
        j += 1;
    }
    assert(table.take(j as int) =~= table);
    latest
}

/// The places of the rows whose entries make the ranked view, in rank
/// order.
pub fn ranked_places(rows: &Vec<SymbolData>) -> (order: Vec<usize>)
    ensures
        places_within(order@, rows@.len()),
        entries_of(rows_at(symbol_rows(rows@), order@)) == ranking(symbol_rows(rows@)),
{
    let ghost table = symbol_rows(rows@);
    let latest = latest_places(rows);
    let ghost entries = entries_of(rows_at(table, latest@));
    let mut order: Vec<usize> = Vec::new();
    let mut t: usize = 0;
    assert(entries_of(rows_at(table, order@)) =~= ranked(entries.take(0)));
    while t < latest.len()
        invariant
            t <= latest.len(),
            table == symbol_rows(rows@),
            entries == entries_of(rows_at(table, latest@)),
            places_within(latest@, rows@.len()),
            places_within(order@, rows@.len()),
            entries_of(rows_at(table, order@)) == ranked(entries.take(t as int)),
        decreases latest.len() - t,
    {
        let ghost sorted = entries_of(rows_at(table, order@));
        let ghost entry = entries[t as int];
        let place = latest[t];
        let mut p: usize = 0;
        while p < order.len() && !stands_before(&rows[place], &rows[order[p]])
            invariant
                p <= order.len(),
                place < rows.len(),
                table == symbol_rows(rows@),
                entry == volume_row(table[place as int]),
                places_within(order@, rows@.len()),
                sorted == entries_of(rows_at(table, order@)),
                forall|q: int| 0 <= q < p ==> !ranks_before(entry, #[trigger] sorted[q]),
            decreases order.len() - p,
        {
            p += 1;
        }
        proof {
            lemma_rank_position(sorted, entry);
            if p < order.len() {
                assert(ranks_before(entry, sorted[p as int]));
            }
            assert(rank_position(sorted, entry) == p);
            assert(entries.take(t + 1).drop_last() =~= entries.take(t as int));
            assert(entries.take(t + 1).last() == entry);
        }
        order.insert(p, place);
        assert(entries_of(rows_at(table, order@)) =~= sorted.insert(p as int, entry));
        t += 1;
    }
    assert(entries.take(t as int) =~= entries);
    order
}

/// There are no more latest rows than rows.
pub proof fn lemma_latest_rows_len(rows: Seq<SymbolRow>)
    ensures
        latest_rows(rows).len() <= rows.len(),
    decreases rows.len(),
{
    if rows.len() > 0 {
        lemma_latest_rows_len(rows.drop_last());
        lemma_position_of(latest_rows(rows.drop_last()), rows.last().symbol);
    }
}

/// Two views in rank order that hold the same entries are the same view.
pub proof fn lemma_rank_order_unique(a: Seq<VolumeRow>, b: Seq<VolumeRow>)
    requires
        in_rank_order(a),
        in_rank_order(b),
        forall|i: int| 0 <= i < a.len() ==> b.contains(#[trigger] a[i]),
        forall|j: int| 0 <= j < b.len() ==> a.contains(#[trigger] b[j]),
    ensures
        a == b,
    decreases a.len(),
{
    if a.len() == 0 {
        if b.len() > 0 {
            assert(a.contains(b[0]));
        }
        assert(a =~= b);
    } else {
        let x = a.last();
        assert(a[a.len() - 1] == x);
        assert(b.contains(x));
        let m = choose|m: int| 0 <= m < b.len() && b[m] == x;
        let y = b.last();
        assert(b[b.len() - 1] == y);
        assert(a.contains(y));
        let t = choose|t: int| 0 <= t < a.len() && a[t] == y;
        lemma_rank_order(x, y);
        lemma_rank_order(x, x);
        if m < b.len() - 1 {
            assert(ranks_before(b[m], b[b.len() - 1]));
            if t < a.len() - 1 {
                assert(ranks_before(a[t], a[a.len() - 1]));
            }
            assert(false);
        }
        let a0 = a.drop_last();
        let b0 = b.drop_last();
        assert forall|i: int| 0 <= i < a0.len() implies b0.contains(#[trigger] a0[i]) by {
            assert(a0[i] == a[i]);
            assert(b.contains(a[i]));
            let w = choose|w: int| 0 <= w < b.len() && b[w] == a[i];
            if w == b.len() - 1 {
                assert(ranks_before(a[i], a[a.len() - 1]));
                assert(false);
            }
            assert(b0[w] == a0[i]);
        }
        assert forall|j: int| 0 <= j < b0.len() implies a0.contains(#[trigger] b0[j]) by {
            assert(b0[j] == b[j]);
            assert(a.contains(b[j]));
            let w = choose|w: int| 0 <= w < a.len() && a[w] == b[j];
            if w == a.len() - 1 {
                assert(ranks_before(b[j], b[b.len() - 1]));
                assert(false);
            }
            assert(a0[w] == b0[j]);
        }
        assert forall|i: int, k: int| 0 <= i < k < a0.len() implies ranks_before(
            #[trigger] a0[i],
            #[trigger] a0[k],
        ) by {
            assert(a0[i] == a[i] && a0[k] == a[k]);
        }
        assert forall|i: int, k: int| 0 <= i < k < b0.len() implies ranks_before(
            #[trigger] b0[i],
            #[trigger] b0[k],
        ) by {
            assert(b0[i] == b[i] && b0[k] == b[k]);
        }
        lemma_rank_order_unique(a0, b0);
        assert(a =~= a0.push(x));
        assert(b =~= b0.push(y));
    }
}

/// In a table without double keys, a symbol has one latest entry.
pub proof fn lemma_latest_entry_unique(rows: Seq<SymbolRow>, a: VolumeRow, b: VolumeRow)
    requires
        keys_unique(rows),
        is_latest_entry(rows, a),
        is_latest_entry(rows, b),
        a.symbol == b.symbol,
    ensures
        a == b,
{
    let ra = choose|row: SymbolRow| #[trigger] is_latest(rows, row) && volume_row(row) == a;
    let rb = choose|row: SymbolRow| #[trigger] is_latest(rows, row) && volume_row(row) == b;
    let i = choose|i: int| 0 <= i < rows.len() && rows[i] == ra;
    let j = choose|j: int| 0 <= j < rows.len() && rows[j] == rb;
    assert(rows[i].event_time <= rb.event_time);
    assert(rows[j].event_time <= ra.event_time);
    if i < j {
        assert(!same_key(rows[i], rows[j]));
    } else if j < i {
        assert(!same_key(rows[j], rows[i]));
    }
}

/// A table without double keys has one ranked view: what is a ranked view
/// of it is `ranking` of it.
pub proof fn lemma_ranking_unique(rows: Seq<SymbolRow>, view: Seq<VolumeRow>)
    requires
        keys_unique(rows),
        is_ranking(rows, view),
    ensures
        view == ranking(rows),
{
    let other = ranking(rows);
    lemma_ranking(rows);
    lemma_ranking_covers(rows, view, other);
    lemma_ranking_covers(rows, other, view);
    lemma_rank_order_unique(view, other);
}

/// Every entry of one ranked view of a table is an entry of any other.
proof fn lemma_ranking_covers(rows: Seq<SymbolRow>, a: Seq<VolumeRow>, b: Seq<VolumeRow>)
    requires
        keys_unique(rows),
        is_ranking(rows, a),
        is_ranking(rows, b),
    ensures
        forall|i: int| 0 <= i < a.len() ==> b.contains(#[trigger] a[i]),
{
    assert forall|i: int| 0 <= i < a.len() implies b.contains(#[trigger] a[i]) by {
        assert(is_latest_entry(rows, a[i]));
        let row = choose|row: SymbolRow| #[trigger] is_latest(rows, row) && volume_row(row) == a[i];
        let j = choose|j: int| 0 <= j < rows.len() && rows[j] == row;
        assert(has_entry(b, rows[j].symbol));
        let m = choose|m: int| 0 <= m < b.len() && (#[trigger] b[m]).symbol == rows[j].symbol;
        assert(is_latest_entry(rows, b[m]));
        lemma_latest_entry_unique(rows, a[i], b[m]);
    }
}

/// The symbols of a table.
pub open spec fn symbols_of(rows: Seq<SymbolRow>) -> Set<Seq<char>> {
    Set::new(|symbol: Seq<char>| has_symbol(rows, symbol))
}

/// The ranked view has as many entries as the table has symbols, however
/// many rows the table holds of each.
pub proof fn lemma_ranking_counts_symbols(rows: Seq<SymbolRow>)
    ensures
        symbols_of(rows).finite(),
        ranking(rows).len() == symbols_of(rows).len(),
{
    let latest = latest_rows(rows);
    let names = Seq::new(latest.len(), |i: int| latest[i].symbol);
    lemma_latest_rows(rows);
    lemma_ranking(rows);
    assert(names.no_duplicates()) by {
        assert forall|i: int, j: int|
            0 <= i < names.len() && 0 <= j < names.len() && i != j implies names[i] != names[j] by {
            if i < j {
                assert(latest[i].symbol != latest[j].symbol);
            } else {
                assert(latest[j].symbol != latest[i].symbol);
            }
        }
    }
    assert(names.to_set() =~= symbols_of(rows)) by {
        assert forall|symbol: Seq<char>| names.to_set().contains(symbol) <==> symbols_of(
            rows,
        ).contains(symbol) by {
            if names.contains(symbol) {
                let i = choose|i: int| 0 <= i < names.len() && names[i] == symbol;
                assert(is_latest(rows, latest[i]));
                let j = choose|j: int| 0 <= j < rows.len() && rows[j] == latest[i];
                assert(rows[j].symbol == symbol);
            }
            if has_symbol(rows, symbol) {
                let j = choose|j: int| 0 <= j < rows.len() && (#[trigger] rows[j]).symbol == symbol;
                let p = position_of(latest, rows[j].symbol);
                lemma_position_of(latest, rows[j].symbol);
                assert(names[p] == symbol);
            }
        }
    }
    names.unique_seq_to_set();
    vstd::seq_lib::seq_to_set_is_finite(names);
}

/// In a ranked view no symbol has two entries.
pub proof fn lemma_ranking_symbols_distinct(rows: Seq<SymbolRow>)
    ensures
        symbols_distinct(ranking(rows)),
{
    lemma_ranking(rows);
    let view = ranking(rows);
    let latest = latest_rows(rows);
    let entries = entries_of(latest);
    lemma_latest_rows(rows);
    assert(symbols_distinct(entries)) by {
        assert forall|i: int, k: int| 0 <= i < k < entries.len() implies (
        #[trigger] entries[i]).symbol != (#[trigger] entries[k]).symbol by {
            assert(latest[i].symbol != latest[k].symbol);
        }
    }
    lemma_ranked(entries);
    assert forall|i: int, k: int| 0 <= i < k < view.len() implies (#[trigger] view[i]).symbol != (
    #[trigger] view[k]).symbol by {
        assert(view.contains(view[i]));
        assert(view.contains(view[k]));
        assert(entries.contains(view[i]));
        assert(entries.contains(view[k]));
        let a = choose|a: int| 0 <= a < entries.len() && entries[a] == view[i];
        let b = choose|b: int| 0 <= b < entries.len() && entries[b] == view[k];
        if view[i].symbol == view[k].symbol {
            if a < b {
                assert(entries[a].symbol != entries[b].symbol);
            } else if b < a {
                assert(entries[b].symbol != entries[a].symbol);
            }
            assert(view[i] == view[k]);
            lemma_rank_order(view[i], view[k]);
            assert(ranks_before(view[i], view[k]));
        }
    }
}

} // verus!
