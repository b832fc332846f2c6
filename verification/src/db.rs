//! The time-windowed table of ticks and its two queries.

use crate::models::{
    row_of, symbol_rows, volume_rows, Page, PaginatedResponse, SymbolData, SymbolRow, TickerData,
    VolumeData,
};
use crate::pagination::{lesser, page_of, page_start};
use crate::ranking::{
    entries_of, is_ranking, lemma_latest_rows_len, lemma_ranking, places_within, ranked_places,
    ranking, rows_at,
};
use crate::recent::{is_recent, lemma_recent_rows, recent_places, recent_rows, RECENT_LIMIT};
use crate::symbol::same_symbol;
use crate::table::{
    has_key, keys_unique, lemma_inserted, refused, same_key, written, MAX_ROWS,
};
use vstd::prelude::*;

verus! {

/// Why the table refused a request.
#[derive(Debug, Clone, Copy, PartialEq, Eq, Structural)]
pub enum StoreError {
    /// The table is full.
    Full,
    /// The page asked for starts before the first entry.
    NegativeOffset,
    /// The page size is negative.
    NegativeLimit,
}

/// How the table windows its rows in time, in milliseconds: the width of
/// the chunks that it is partitioned in, the age beyond which a row is
/// dropped, and the age beyond which a row is compacted.
#[derive(Debug, Clone, Copy, PartialEq, Eq, Structural)]
pub struct WindowPolicy {
    pub chunk_interval_ms: i64,
    pub retention_ms: i64,
    pub compression_ms: i64,
}

impl WindowPolicy {
    /// Chunks of ten minutes, rows dropped after an hour and compacted after
    /// ten minutes.
    pub open spec fn spec_standard() -> WindowPolicy {
        WindowPolicy { chunk_interval_ms: 600_000, retention_ms: 3_600_000, compression_ms: 600_000 }
    }

    /// Chunks of ten minutes, rows dropped after an hour and compacted after
    /// ten minutes.
    #[verifier::when_used_as_spec(spec_standard)]
    pub fn standard() -> (r: WindowPolicy)
        ensures
            r == WindowPolicy::spec_standard(),
    {
        WindowPolicy { chunk_interval_ms: 600_000, retention_ms: 3_600_000, compression_ms: 600_000 }
    }

    /// A row of that time is past the retention horizon at `now`.
    pub open spec fn expired(self, created_at: i64, now: i64) -> bool {
        now - created_at > self.retention_ms
    }

    /// A row of that time is past the compression horizon at `now`.
    pub open spec fn compressible(self, created_at: i64, now: i64) -> bool {
        now - created_at > self.compression_ms
    }

    /// Whether a row of that time is past the retention horizon at `now`.
    pub fn is_expired(&self, created_at: i64, now: i64) -> (r: bool)
        ensures
            r == self.expired(created_at, now),
    {
        now as i128 - created_at as i128 > self.retention_ms as i128
    }

    /// Whether a row of that time is past the compression horizon at `now`.
    pub fn is_compressible(&self, created_at: i64, now: i64) -> (r: bool)
        ensures
            r == self.compressible(created_at, now),
    {
        now as i128 - created_at as i128 > self.compression_ms as i128
    }
}

/// The rows that are not past the retention horizon, in their order.
pub open spec fn retained(rows: Seq<SymbolRow>, policy: WindowPolicy, now: i64) -> Seq<SymbolRow>
    decreases rows.len(),
{
    if rows.len() == 0 {
        Seq::empty()
    } else if policy.expired(rows.last().event_time, now) {
        retained(rows.drop_last(), policy, now)
    } else {
        retained(rows.drop_last(), policy, now).push(rows.last())
    }
}

/// Why a page cannot be served: it starts before the first entry, or its
/// size is negative.
pub open spec fn page_fault(page: int, per_page: int) -> Option<StoreError> {
    if page_start(page, per_page) < 0 {
        Some(StoreError::NegativeOffset)
    } else if per_page < 0 {
        Some(StoreError::NegativeLimit)
    } else {
        None
    }
}

/// What a result of the ranked view holds.
pub open spec fn response_view(r: Result<PaginatedResponse, StoreError>) -> Result<Page, StoreError> {
    match r {
        Ok(response) => Ok(response@),
        Err(e) => Err(e),
    }
}

/// What the ranked view of a table answers to a request for a page: the
/// page, with the number of symbols, or why it cannot be served.
pub open spec fn latest_tickers(rows: Seq<SymbolRow>, page: i64, per_page: i64) -> Result<
    Page,
    StoreError,
> {
    match page_fault(page as int, per_page as int) {
        Some(e) => Err(e),
        None => Ok(
            Page {
                data: page_of(ranking(rows), page as int, per_page as int),
                total: ranking(rows).len() as int,
                page: page as int,
                per_page: per_page as int,
            },
        ),
    }
}

/// The product of two numbers of 64 bits fits in 128 bits.
proof fn lemma_product_bound(a: int, b: int)
    by (nonlinear_arith)
    requires
        -0x8000_0000_0000_0001 <= a <= 0x8000_0000_0000_0001,
        -0x8000_0000_0000_0000 <= b <= 0x8000_0000_0000_0000,
    ensures
        -0x4000_0000_0000_0000_8000_0000_0000_0000 <= a * b
            <= 0x4000_0000_0000_0000_8000_0000_0000_0000,
{
    let m: int = 0x8000_0000_0000_0001;
    let n: int = 0x8000_0000_0000_0000;
    assert((m - a) * (n - b) >= 0);
    assert((m + a) * (n + b) >= 0);
    assert((m - a) * (n + b) >= 0);
    assert((m + a) * (n - b) >= 0);
    assert(m * n == 0x4000_0000_0000_0000_8000_0000_0000_0000);
}

/// The table of ticks. No symbol has two rows of one time, and the table
/// holds no more rows than it was made for.
#[derive(Debug)]
pub struct Store {
    rows: Vec<SymbolData>,
    policy: WindowPolicy,
    capacity: usize,
}

impl View for Store {
    type V = Seq<SymbolRow>;

    closed spec fn view(&self) -> Seq<SymbolRow> {
        symbol_rows(self.rows@)
    }
}

/// What is kept are the rows that are not past the horizon, each of them,
/// and their keys stay unique.
pub proof fn lemma_retained(rows: Seq<SymbolRow>, policy: WindowPolicy, now: i64)
    requires
        keys_unique(rows),
    ensures
        keys_unique(retained(rows, policy, now)),
        retained(rows, policy, now).len() <= rows.len(),
        forall|x: SymbolRow|
            #[trigger] retained(rows, policy, now).contains(x) <==> rows.contains(x)
                && !policy.expired(x.event_time, now),
    decreases rows.len(),
{
    if rows.len() > 0 {
        let before = rows.drop_last();
        let last = rows.last();
        assert forall|i: int, j: int| 0 <= i < j < before.len() implies !same_key(
            #[trigger] before[i],
            #[trigger] before[j],
        ) by {
            assert(rows[i] == before[i] && rows[j] == before[j]);
        }
        lemma_retained(before, policy, now);
        let kept = retained(before, policy, now);
        let next = retained(rows, policy, now);
        assert forall|x: SymbolRow| #[trigger]
            next.contains(x) <==> rows.contains(x) && !policy.expired(x.event_time, now) by {
            if next.contains(x) {
                let i = choose|i: int| 0 <= i < next.len() && next[i] == x;
                if i < kept.len() {
                    assert(kept[i] == x);
                    assert(kept.contains(x));
                    assert(before.contains(x));
                    let w = choose|w: int| 0 <= w < before.len() && before[w] == x;
                    assert(rows[w] == x);
                } else {
                    assert(rows[rows.len() - 1] == x);
                }
            }
            if rows.contains(x) && !policy.expired(x.event_time, now) {
                let w = choose|w: int| 0 <= w < rows.len() && rows[w] == x;
                if w < before.len() {
                    assert(before[w] == x);
                    assert(before.contains(x));
                    assert(kept.contains(x));
                    let i = choose|i: int| 0 <= i < kept.len() && kept[i] == x;
                    assert(next[i] == x);
                } else {
                    assert(next[next.len() - 1] == x);
                }
            }
        }
        assert forall|i: int, j: int| 0 <= i < j < next.len() implies !same_key(
            #[trigger] next[i],
            #[trigger] next[j],
        ) by {
            if j < kept.len() {
                assert(next[i] == kept[i] && next[j] == kept[j]);
            } else {
                assert(next[i] == kept[i]);
                assert(kept.contains(kept[i]));
                assert(before.contains(kept[i]));
                let w = choose|w: int| 0 <= w < before.len() && before[w] == kept[i];
                assert(!same_key(rows[w], rows[rows.len() - 1]));
            }
        }
    }
}

impl Store {
    #[verifier::type_invariant]
    spec fn well_formed(self) -> bool {
        &&& keys_unique(symbol_rows(self.rows@))
        &&& self.rows@.len() <= self.capacity <= MAX_ROWS
    }

    /// How the table windows its rows.
    pub closed spec fn spec_policy(&self) -> WindowPolicy {
        self.policy
    }

    /// How the table windows its rows.
    #[verifier::when_used_as_spec(spec_policy)]
    pub fn policy(&self) -> (r: WindowPolicy)
        ensures
            r == self.spec_policy(),
    {
        self.policy
    }

    /// How many rows the table holds at most.
    pub closed spec fn spec_capacity(&self) -> usize {
        self.capacity
    }

    /// How many rows the table holds at most.
    #[verifier::when_used_as_spec(spec_capacity)]
    pub fn capacity(&self) -> (r: usize)
        ensures
            r == self.spec_capacity(),
            r <= MAX_ROWS,
    {
        proof {
            use_type_invariant(self);
        }
        self.capacity
    }

    /// An empty table with the given windows, which holds as many rows as a
    /// table can.
    pub fn new(policy: WindowPolicy) -> (r: Store)
        ensures
            r@ == Seq::<SymbolRow>::empty(),
            r.policy() == policy,
            r.capacity() == MAX_ROWS,
    {
        let r = Store { rows: Vec::new(), policy, capacity: MAX_ROWS };
        assert(r@ =~= Seq::<SymbolRow>::empty());
        r
    }

    /// An empty table with the given windows, which holds `capacity` rows
    /// at most, and never more than a table can.
    pub fn with_capacity(policy: WindowPolicy, capacity: usize) -> (r: Store)
        ensures
            r@ == Seq::<SymbolRow>::empty(),
            r.policy() == policy,
            r.capacity() == lesser(capacity as int, MAX_ROWS as int),
    {
        let capacity = if capacity <= MAX_ROWS {
            capacity
        } else {
            MAX_ROWS
        };
        let r = Store { rows: Vec::new(), policy, capacity };
        assert(r@ =~= Seq::<SymbolRow>::empty());
        r
    }

    /// How many rows the table holds.
    pub fn len(&self) -> (r: usize)
        ensures
            r == self@.len(),
            keys_unique(self@),
            r <= self.capacity(),
    {
        proof {
            use_type_invariant(self);
        }
        self.rows.len()
    }

    /// Whether the table holds a row of this symbol and time.
    pub fn contains_key(&self, symbol: &str, time: i64) -> (r: bool)
        ensures
            r == has_key(self@, symbol@, time),
    {
        let mut i: usize = 0;
        while i < self.rows.len()
            invariant
                i <= self.rows.len(),
                forall|k: int|
                    0 <= k < i ==> !((#[trigger] self@[k]).symbol == symbol@ && self@[k].event_time
                        == time),
            decreases self.rows.len() - i,
        {
            if self.rows[i].event_time == time && same_symbol(self.rows[i].symbol.as_str(), symbol) {
                assert(self@[i as int].symbol == symbol@);
                return true;
            }
            i += 1;
        }
        false
    }

    /// Drops the rows that are past the retention horizon at `now`, and
    /// says how many they were. The rows that stay keep their order.
    pub fn purge_expired(&mut self, now: i64) -> (dropped: usize)
        ensures
            final(self)@ == retained(old(self)@, old(self).policy(), now),
            final(self).policy() == old(self).policy(),
            final(self).capacity() == old(self).capacity(),
            dropped == old(self)@.len() - final(self)@.len(),
    {
        proof {
            use_type_invariant(&*self);
        }
        let ghost before = self@;
        let policy = self.policy;
        let mut pending: Vec<SymbolData> = Vec::new();
        core::mem::swap(&mut self.rows, &mut pending);
        let total = pending.len();
        proof {
            lemma_retained(before, policy, now);
            assert(symbol_rows(pending@) == before);
        }
        // newest first: the rows that stay, taken from the end
        let mut reversed: Vec<SymbolData> = Vec::new();
        assert(before.take(pending.len() as int) =~= before);
        assert(retained(before, policy, now) + symbol_rows(reversed@).reverse() =~= retained(
            before,
            policy,
            now,
        ));
        while pending.len() > 0
            invariant
                pending@.len() <= before.len(),
                symbol_rows(pending@) == before.take(pending@.len() as int),
                retained(before.take(pending@.len() as int), policy, now) + symbol_rows(
                    reversed@,
                ).reverse() == retained(before, policy, now),
            decreases pending.len(),
        {
            let ghost m = pending@.len() as int;
            let ghost tail = symbol_rows(reversed@).reverse();
            let row = pending.pop().unwrap();
            proof {
                assert(row@ == before.take(m)[m - 1]);
                assert(before.take(m).drop_last() =~= before.take(m - 1));
                assert(symbol_rows(pending@) =~= before.take(m - 1));
            }
            if !policy.is_expired(row.event_time, now) {
                reversed.push(row);
                assert(symbol_rows(reversed@).reverse() =~= seq![row@] + tail);
                assert(retained(before.take(m - 1), policy, now).push(row@) + tail =~= retained(
                    before.take(m - 1),
                    policy,
                    now,
                ) + (seq![row@] + tail));
            }
        }
        assert(retained(before.take(0), policy, now) =~= Seq::<SymbolRow>::empty());
        let mut kept: Vec<SymbolData> = Vec::new();
        assert(symbol_rows(kept@) + symbol_rows(reversed@).reverse() =~= retained(
            before,
            policy,
            now,
        ));
        while reversed.len() > 0
            invariant
                symbol_rows(kept@) + symbol_rows(reversed@).reverse() == retained(
                    before,
                    policy,
                    now,
                ),
            decreases reversed.len(),
        {
            let ghost head = symbol_rows(kept@);
            let ghost tail = symbol_rows(reversed@).reverse();
            let row = reversed.pop().unwrap();
            kept.push(row);
            proof {
                assert(tail =~= seq![row@] + symbol_rows(reversed@).reverse());
                assert(symbol_rows(kept@) =~= head.push(row@));
                assert(head.push(row@) + symbol_rows(reversed@).reverse() =~= head + (seq![row@]
                    + symbol_rows(reversed@).reverse()));
            }
        }
        proof {
            assert(symbol_rows(reversed@).reverse() =~= Seq::<SymbolRow>::empty());
            assert(symbol_rows(kept@) =~= retained(before, policy, now));
        }
        let dropped = total - kept.len();
        self.rows = kept;
        dropped
    }
}

/// Provisions the table: empty, as large as a table can be, with chunks of
/// ten minutes, rows dropped after an hour and compacted after ten minutes.
pub fn init_db() -> (store: Store)
    ensures
        store@ == Seq::<SymbolRow>::empty(),
        store.policy() == WindowPolicy::standard(),
        store.capacity() == MAX_ROWS,
{
    Store::new(WindowPolicy::standard())
}

/// Writes a tick to the table. Each price and the volume is read as a
/// decimal in plain notation (sign, digits, point), and one that is no
/// number in that notation is stored as zero. Where the table
/// holds a row of the tick's symbol and time already, nothing changes and
/// the write succeeds. A new row is refused only by a full table.
pub fn save_ticker_data(store: &mut Store, ticker: &TickerData) -> (r: Result<(), StoreError>)
    ensures
        final(store)@ == written(old(store)@, old(store).capacity() as nat, ticker@),
        final(store).policy() == old(store).policy(),
        final(store).capacity() == old(store).capacity(),
        match r {
            Ok(_) => !refused(old(store)@, old(store).capacity() as nat, ticker@),
            Err(e) => refused(old(store)@, old(store).capacity() as nat, ticker@) && e
                == StoreError::Full,
        },
        keys_unique(final(store)@),
{
    proof {
        use_type_invariant(&*store);
        lemma_inserted(store@, row_of(ticker@));
    }
    if store.contains_key(ticker.s.as_str(), ticker.E) {
        return Ok(());
    }
    if store.rows.len() >= store.capacity {
        return Err(StoreError::Full);
    }
    let row = SymbolData::from_ticker(ticker);
    let ghost before = store@;
    let mut rows: Vec<SymbolData> = Vec::new();
    core::mem::swap(&mut store.rows, &mut rows);
    rows.push(row);
    assert(symbol_rows(rows@) =~= before.push(row_of(ticker@)));
    store.rows = rows;
    Ok(())
}

/// The ranked view, one page of it: for every symbol the entry of its
/// latest row, the largest quote volume first, cut to the entries from
/// `(page - 1) * per_page` up to `page * per_page`. `total` counts the
/// symbols. A page past the end is empty. A page that starts before the
/// first entry, or a negative page size, is refused.
pub fn get_latest_tickers(store: &Store, page: i64, per_page: i64) -> (r: Result<
    PaginatedResponse,
    StoreError,
>)
    ensures
        response_view(r) == latest_tickers(store@, page, per_page),
        is_ranking(store@, ranking(store@)),
{
    proof {
        use_type_invariant(store);
        lemma_ranking(store@);
        lemma_latest_rows_len(store@);
    }
    let first = page as i128 - 1;
    proof {
        lemma_product_bound(first as int, per_page as int);
    }
    let start: i128 = first * (per_page as i128);
    if start < 0 {
        return Err(StoreError::NegativeOffset);
    }
    if per_page < 0 {
        return Err(StoreError::NegativeLimit);
    }
    let order = ranked_places(&store.rows);
    let ghost view = ranking(store@);
    let count = order.len();
    assert(count == view.len());
    let lo: usize = if start >= count as i128 {
        count
    } else {
        start as usize
    };
    let hi: usize = if start + per_page as i128 >= count as i128 {
        count
    } else {
        (start + per_page as i128) as usize
    };
    let mut data: Vec<VolumeData> = Vec::new();
    let mut k: usize = lo;
    assert(volume_rows(data@) =~= view.subrange(lo as int, k as int));
    while k < hi
        invariant
            lo <= k <= hi,
            hi <= order@.len(),
            places_within(order@, store.rows@.len()),
            view == entries_of(rows_at(symbol_rows(store.rows@), order@)),
            volume_rows(data@) == view.subrange(lo as int, k as int),
        decreases hi - k,
    {
        let entry = VolumeData::from_row(&store.rows[order[k]]);
        let ghost before = volume_rows(data@);
        data.push(entry);
        assert(volume_rows(data@) =~= before.push(view[k as int]));
        assert(view.subrange(lo as int, k + 1) =~= view.subrange(lo as int, k as int).push(
            view[k as int],
        ));
        k += 1;
    }
    Ok(PaginatedResponse { data, total: count as i64, page, per_page })
}

/// The view of one symbol: its most recent rows, newest first, ten at most.
/// A symbol without rows has an empty view.
pub fn get_currency_tickers(store: &Store, currency: &str) -> (r: Vec<SymbolData>)
    ensures
        symbol_rows(r@) == recent_rows(store@, currency@),
        is_recent(store@, currency@, symbol_rows(r@)),
        r@.len() <= RECENT_LIMIT,
{
    proof {
        use_type_invariant(store);
        lemma_recent_rows(store@, currency@);
    }
    let places = recent_places(&store.rows, currency);
    let ghost view = recent_rows(store@, currency@);
    let mut out: Vec<SymbolData> = Vec::new();
    let mut k: usize = 0;
    assert(symbol_rows(out@) =~= view.take(0));
    while k < places.len()
        invariant
            k <= places.len(),
            places_within(places@, store.rows@.len()),
            view == rows_at(symbol_rows(store.rows@), places@),
            symbol_rows(out@) == view.take(k as int),
        decreases places.len() - k,
    {
        let row = store.rows[places[k]].clone();
        let ghost before = symbol_rows(out@);
        out.push(row);
        assert(symbol_rows(out@) =~= before.push(view[k as int]));
        assert(view.take(k + 1) =~= view.take(k as int).push(view[k as int]));
        k += 1;
    }
    assert(view.take(k as int) =~= view);
    out
}

/// Asked twice of the same table, the ranked view answers the same.
pub proof fn lemma_latest_tickers_deterministic(
    rows: Seq<SymbolRow>,
    page: i64,
    per_page: i64,
    first: Result<PaginatedResponse, StoreError>,
    second: Result<PaginatedResponse, StoreError>,
)
    requires
        response_view(first) == latest_tickers(rows, page, per_page),
        response_view(second) == latest_tickers(rows, page, per_page),
    ensures
        response_view(first) == response_view(second),
{
}

} // verus!
