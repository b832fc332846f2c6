//! Pages of a ranked view, and what they add up to.

use crate::models::{SymbolRow, VolumeRow};
use crate::ranking::{
    in_rank_order, is_ranking, lemma_ranking, lemma_ranking_symbols_distinct, ranking,
    symbols_distinct,
};
use vstd::prelude::*;

verus! {

/// Where a page starts in the ranked view, counted from zero.
pub open spec fn page_start(page: int, per_page: int) -> int {
    (page - 1) * per_page
}

/// The smaller of two numbers.
pub open spec fn lesser(a: int, b: int) -> int {
    if a <= b {
        a
    } else {
        b
    }
}

/// The entries of a page: those from `(page - 1) * per_page` up to
/// `page * per_page`, as far as the view has them.
pub open spec fn page_of(view: Seq<VolumeRow>, page: int, per_page: int) -> Seq<VolumeRow> {
    view.subrange(
        lesser(page_start(page, per_page), view.len() as int),
        lesser(page_start(page, per_page) + per_page, view.len() as int),
    )
}

/// The pages from the first to page `last`, one after the other.
pub open spec fn pages_through(view: Seq<VolumeRow>, per_page: int, last: int) -> Seq<VolumeRow>
    decreases last,
{
    if last <= 0 {
        Seq::empty()
    } else {
        pages_through(view, per_page, last - 1) + page_of(view, last, per_page)
    }
}

proof fn lemma_next_page_start(page: int, per_page: int)
    by (nonlinear_arith)
    requires
        per_page > 0,
        page >= 1,
    ensures
        page_start(page, per_page) + per_page == page_start(page + 1, per_page),
        page_start(page, per_page) >= 0,
        page_start(page, per_page) + per_page == page * per_page,
{
}

/// A page holds `per_page` entries at most, and as many where the view
/// reaches that far.
pub proof fn lemma_page_len(view: Seq<VolumeRow>, page: int, per_page: int)
    requires
        per_page > 0,
        page >= 1,
    ensures
        page_of(view, page, per_page).len() <= per_page,
        page * per_page <= view.len() <==> page_of(view, page, per_page).len() == per_page,
        page_start(page, per_page) >= view.len() ==> page_of(view, page, per_page).len() == 0,
{
    lemma_next_page_start(page, per_page);
}

/// The first pages, one after the other, are the start of the view: as
/// much of it as they have room for.
pub proof fn lemma_pages_through(view: Seq<VolumeRow>, per_page: int, last: int)
    requires
        per_page > 0,
        last >= 0,
    ensures
        pages_through(view, per_page, last) == view.take(
            lesser(last * per_page, view.len() as int),
        ),
    decreases last,
{
    if last == 0 {
        assert(0 * per_page == 0) by (nonlinear_arith);
        assert(pages_through(view, per_page, last) =~= view.take(0));
    } else {
        lemma_pages_through(view, per_page, last - 1);
        lemma_next_page_start(last, per_page);
        assert((last - 1) * per_page == page_start(last, per_page));
        assert(pages_through(view, per_page, last) =~= view.take(
            lesser(last * per_page, view.len() as int),
        ));
    }
}

/// Read page by page up to the first page that comes back short, the view
/// is read in full: every entry once, in its place. The pages before the
/// short one are full.
pub proof fn lemma_pages_until_short(view: Seq<VolumeRow>, per_page: int, last: int)
    requires
        per_page > 0,
        last >= 1,
        page_of(view, last, per_page).len() < per_page,
    ensures
        pages_through(view, per_page, last) == view,
{
    lemma_pages_through(view, per_page, last);
    lemma_page_len(view, last, per_page);
    assert(view.take(view.len() as int) =~= view);
}

/// Some page comes back short: the one after the last full page.
pub proof fn lemma_short_page_exists(view: Seq<VolumeRow>, per_page: int)
    requires
        per_page > 0,
    ensures
        page_of(view, (view.len() as int) / per_page + 1, per_page).len() < per_page,
        forall|page: int|
            1 <= page <= (view.len() as int) / per_page ==> (#[trigger] page_of(view, page, per_page)).len()
                == per_page,
{
    let full = (view.len() as int) / per_page;
    assert(full * per_page <= view.len() < (full + 1) * per_page && full >= 0)
        by (nonlinear_arith)
        requires
            full == (view.len() as int) / per_page,
            per_page > 0,
    ;
    lemma_page_len(view, full + 1, per_page);
    assert forall|page: int| 1 <= page <= full implies (#[trigger] page_of(
        view,
        page,
        per_page,
    )).len() == per_page by {
        lemma_page_len(view, page, per_page);
        assert(page * per_page <= full * per_page) by (nonlinear_arith)
            requires
                page <= full,
                per_page > 0,
        ;
    }
}

/// Read page by page up to the first page that comes back short, the
/// ranked view of a table is read in full: for every symbol of the table
/// the entry of its latest row, once, the largest volume first.
pub proof fn lemma_pagination_total(rows: Seq<SymbolRow>, per_page: int, last: int)
    requires
        per_page > 0,
        last >= 1,
        page_of(ranking(rows), last, per_page).len() < per_page,
    ensures
        pages_through(ranking(rows), per_page, last) == ranking(rows),
        is_ranking(rows, ranking(rows)),
        in_rank_order(ranking(rows)),
        symbols_distinct(ranking(rows)),
{
    lemma_pages_until_short(ranking(rows), per_page, last);
    lemma_ranking(rows);
    lemma_ranking_symbols_distinct(rows);
}

} // verus!
