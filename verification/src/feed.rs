//! The upstream feed: where it is reached, and what its messages do to the
//! table.

use crate::models::{row_of, SymbolRow, Tick, TickerData};
use crate::db::{save_ticker_data, Store};
use crate::table::{has_key, keys_unique, refused, written};
use vstd::prelude::*;

verus! {

/// What parsing a text as an absolute URL gives: the URL in its serialized
/// form, or `None` where the text is no absolute URL.
pub uninterp spec fn parsed_url(text: Seq<char>) -> Option<Seq<char>>;

/// Why the feed cannot be reached.
#[derive(Debug, Clone, Copy, PartialEq, Eq, Structural)]
pub enum FeedError {
    /// The configured address is no absolute URL.
    InvalidUrl,
}

/// Parses a text with `url::Url::parse` and hands back the serialization
/// that `url::Url::as_str` gives, or `None` where parsing fails. The result
/// is a function of the text alone, which `parsed_url` names.
#[verifier::external_body]
fn parse_url(text: &str) -> (r: Option<String>)
    ensures
        r is Some <==> parsed_url(text@) is Some,
        r matches Some(url) ==> parsed_url(text@) == Some(url@),
{
    match url::Url::parse(text) {
        Ok(url) => Some(String::from(url.as_str())),
        Err(_) => None,
    }
}

/// The address to connect to, given what parsing the configured address
/// gave.
pub fn endpoint_from(parsed: Option<String>) -> (r: Result<String, FeedError>)
    ensures
        match parsed {
            Some(url) => r == Ok::<String, FeedError>(url),
            None => r == Err::<String, FeedError>(FeedError::InvalidUrl),
        },
{
    match parsed {
        Some(url) => Ok(url),
        None => Err(FeedError::InvalidUrl),
    }
}

/// The address of the feed to connect to: the configured address as an
/// absolute URL in serialized form.
pub fn feed_endpoint(configured: &str) -> (r: Result<String, FeedError>)
    ensures
        match r {
            Ok(url) => parsed_url(configured@) == Some(url@),
            Err(e) => e == FeedError::InvalidUrl && parsed_url(configured@) is None,
        },
{
    endpoint_from(parse_url(configured))
}

/// The table after the writes of a batch, one after the other.
pub open spec fn ingested(rows: Seq<SymbolRow>, capacity: nat, batch: Seq<Tick>) -> Seq<SymbolRow>
    decreases batch.len(),
{
    if batch.len() == 0 {
        rows
    } else {
        written(ingested(rows, capacity, batch.drop_last()), capacity, batch.last())
    }
}

/// How many writes of a batch are refused.
pub open spec fn refusals(rows: Seq<SymbolRow>, capacity: nat, batch: Seq<Tick>) -> nat
    decreases batch.len(),
{
    if batch.len() == 0 {
        0
    } else {
        refusals(rows, capacity, batch.drop_last()) + if refused(
            ingested(rows, capacity, batch.drop_last()),
            capacity,
            batch.last(),
        ) {
            1nat
        } else {
            0nat
        }
    }
}

/// What each tick of a batch holds.
pub open spec fn ticks_of(batch: Seq<TickerData>) -> Seq<Tick> {
    Seq::new(batch.len(), |i: int| batch[i]@)
}

/// Writes every tick of a batch to the table, one after the other, and
/// says how many writes were refused. A refused write does not stop the
/// batch.
pub fn save_batch(store: &mut Store, batch: &Vec<TickerData>) -> (failed: usize)
    ensures
        final(store)@ == ingested(old(store)@, old(store).capacity() as nat, ticks_of(batch@)),
        failed == refusals(old(store)@, old(store).capacity() as nat, ticks_of(batch@)),
        final(store).policy() == old(store).policy(),
        final(store).capacity() == old(store).capacity(),
{
    let ghost before = store@;
    let ghost capacity = store.capacity() as nat;
    let ghost ticks = ticks_of(batch@);
    let mut failed: usize = 0;
    let mut i: usize = 0;
    while i < batch.len()
        invariant
            i <= batch.len(),
            ticks == ticks_of(batch@),
            store@ == ingested(before, capacity, ticks.take(i as int)),
            failed == refusals(before, capacity, ticks.take(i as int)),
            failed <= i,
            store.policy() == old(store).policy(),
            store.capacity() == capacity,
            capacity == old(store).capacity(),
        decreases batch.len() - i,
    {
        proof {
            assert(ticks.take(i + 1).drop_last() =~= ticks.take(i as int));
            assert(ticks.take(i + 1).last() == batch@[i as int]@);
        }
        match save_ticker_data(store, &batch[i]) {
            Ok(_) => {},
            Err(_) => {
                failed += 1;
            },
        }
        i += 1;
    }
    assert(ticks.take(i as int) =~= ticks);
    failed
}

/// What the feed delivered.
#[derive(Debug, PartialEq, Eq)]
pub enum FeedEvent {
    /// A message that decodes to a batch of ticks.
    Batch(Vec<TickerData>),
    /// A message that decodes to no batch.
    Undecodable,
    /// Receiving failed.
    ReceiveError,
    /// The feed ended.
    Ended,
}

/// What the consumer of the feed is to do next.
#[derive(Debug, Clone, Copy, PartialEq, Eq, Structural)]
pub enum FeedAction {
    /// Wait for the next message. `failed` counts the writes of this
    /// message that the table refused.
    Continue { failed: usize },
    /// Give up this connection to the feed.
    Stop,
}

/// The table after an event of the feed: a batch is written, everything
/// else leaves the table as it is.
pub open spec fn fed(rows: Seq<SymbolRow>, capacity: nat, event: FeedEvent) -> Seq<SymbolRow> {
    match event {
        FeedEvent::Batch(batch) => ingested(rows, capacity, ticks_of(batch@)),
        _ => rows,
    }
}

/// What the consumer does after an event of the feed: it goes on after a
/// message, decoded or not, and stops where receiving failed or the feed
/// ended.
pub open spec fn feed_reply(rows: Seq<SymbolRow>, capacity: nat, event: FeedEvent) -> FeedAction {
    match event {
        FeedEvent::Batch(batch) => FeedAction::Continue {
            failed: refusals(rows, capacity, ticks_of(batch@)) as usize,
        },
        FeedEvent::Undecodable => FeedAction::Continue { failed: 0 },
        FeedEvent::ReceiveError => FeedAction::Stop,
        FeedEvent::Ended => FeedAction::Stop,
    }
}

/// Takes the table through one event of the feed. A batch is written tick
/// by tick, refused writes are counted and passed over; a message that
/// decodes to no batch is dropped; a failure to receive or the end of the
/// feed stops the consumer.
pub fn handle_binance_ws(store: &mut Store, event: FeedEvent) -> (action: FeedAction)
    ensures
        final(store)@ == fed(old(store)@, old(store).capacity() as nat, event),
        action == feed_reply(old(store)@, old(store).capacity() as nat, event),
        final(store).policy() == old(store).policy(),
        final(store).capacity() == old(store).capacity(),
{
    match event {
        FeedEvent::Batch(batch) => {
            let failed = save_batch(store, &batch);
            FeedAction::Continue { failed }
        },
        FeedEvent::Undecodable => FeedAction::Continue { failed: 0 },
        FeedEvent::ReceiveError => FeedAction::Stop,
        FeedEvent::Ended => FeedAction::Stop,
    }
}

/// Writing a batch keeps the keys of the table unique and the rows that
/// the table held where they were.
pub proof fn lemma_ingested(rows: Seq<SymbolRow>, capacity: nat, batch: Seq<Tick>)
    requires
        keys_unique(rows),
    ensures
        keys_unique(ingested(rows, capacity, batch)),
        rows.len() <= ingested(rows, capacity, batch).len(),
        forall|i: int| 0 <= i < rows.len() ==> ingested(rows, capacity, batch)[i] == rows[i],
    decreases batch.len(),
{
    if batch.len() > 0 {
        let before = ingested(rows, capacity, batch.drop_last());
        lemma_ingested(rows, capacity, batch.drop_last());
        crate::table::lemma_inserted(before, row_of(batch.last()));
        assert(ingested(rows, capacity, batch) == written(before, capacity, batch.last()));
    }
}

/// After a batch, each of its ticks is in the table, or the table is full.
proof fn lemma_batch_settled(rows: Seq<SymbolRow>, capacity: nat, batch: Seq<Tick>, k: int)
    requires
        0 <= k < batch.len(),
    ensures
        has_key(ingested(rows, capacity, batch), batch[k].symbol, batch[k].event_time) || ingested(
            rows,
            capacity,
            batch,
        ).len() >= capacity,
    decreases batch.len(),
{
    let before = ingested(rows, capacity, batch.drop_last());
    let after = ingested(rows, capacity, batch);
    let last = batch.last();
    assert(after == written(before, capacity, last));
    if k < batch.len() - 1 {
        lemma_batch_settled(rows, capacity, batch.drop_last(), k);
        assert(batch.drop_last()[k] == batch[k]);
        if has_key(before, batch[k].symbol, batch[k].event_time) {
            let i = choose|i: int|
                0 <= i < before.len() && (#[trigger] before[i]).symbol == batch[k].symbol
                    && before[i].event_time == batch[k].event_time;
            assert(after[i] == before[i]);
        }
    } else {
        if has_key(before, last.symbol, last.event_time) {
        } else if before.len() >= capacity {
        } else {
            assert(after[before.len() as int] == row_of(last));
        }
    }
}

/// A batch that is delivered a second time changes nothing: the table after
/// the replay is the table after the first delivery.
pub proof fn lemma_replay_changes_nothing(rows: Seq<SymbolRow>, capacity: nat, batch: Seq<Tick>)
    ensures
        ingested(ingested(rows, capacity, batch), capacity, batch) == ingested(
            rows,
            capacity,
            batch,
        ),
{
    lemma_replay_prefix(rows, capacity, batch, batch.len() as int);
    assert(batch.take(batch.len() as int) =~= batch);
}

proof fn lemma_replay_prefix(rows: Seq<SymbolRow>, capacity: nat, batch: Seq<Tick>, n: int)
    requires
        0 <= n <= batch.len(),
    ensures
        ingested(ingested(rows, capacity, batch), capacity, batch.take(n)) == ingested(
            rows,
            capacity,
            batch,
        ),
    decreases n,
{
    if n > 0 {
        lemma_replay_prefix(rows, capacity, batch, n - 1);
        lemma_batch_settled(rows, capacity, batch, n - 1);
        assert(batch.take(n).drop_last() =~= batch.take(n - 1));
        assert(batch.take(n).last() == batch[n - 1]);
    }
}

} // verus!
