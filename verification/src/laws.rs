//! The general laws of the repository, stated and proved once for every
//! state, filter and page.

use vstd::prelude::*;
use crate::database::{
    find_row, ids_unique, lemma_filter_all_true, lemma_find_row_at, lemma_find_row_index,
    list_items, matching, remove_id, row_before, row_matches, set_trash_spec, sorted_desc,
    with_trash,
};
use crate::date::Date;
use crate::expense::{Entity, Row};
use crate::filter::name_like;

verus! {

/// The listing order on entities: creation date descending, ties broken by
/// id descending.
pub open spec fn entity_order(a: Entity, b: Entity) -> bool {
    ||| b.created_at.before(a.created_at)
    ||| (a.created_at == b.created_at && a.id->Some_0 > b.id->Some_0)
}

/// Every element a filter keeps is an element of the source.
proof fn lemma_filter_in_source(rows: Seq<Row>, pred: spec_fn(Row) -> bool)
    ensures
        forall|i: int|
            0 <= i < rows.filter(pred).len() ==> rows.contains(#[trigger] rows.filter(pred)[i]),
    decreases rows.len(),
{
    reveal(Seq::filter);
    if rows.len() > 0 {
        let dl = rows.drop_last();
        lemma_filter_in_source(dl, pred);
        let f = rows.filter(pred);
        assert forall|i: int| 0 <= i < f.len() implies rows.contains(#[trigger] f[i]) by {
            if pred(rows.last()) && i == f.len() - 1 {
                assert(rows[rows.len() - 1] == f[i]);
            } else {
                assert(f[i] == dl.filter(pred)[i]);
                assert(dl.contains(f[i]));
                let j = choose|j: int| 0 <= j < dl.len() && dl[j] == f[i];
                assert(rows[j] == f[i]);
            }
        }
    }
}

/// Filtering rows in listing order leaves them in listing order.
proof fn lemma_filter_sorted(rows: Seq<Row>, pred: spec_fn(Row) -> bool)
    requires
        sorted_desc(rows),
    ensures
        sorted_desc(rows.filter(pred)),
    decreases rows.len(),
{
    reveal(Seq::filter);
    if rows.len() > 0 {
        let dl = rows.drop_last();
        assert(sorted_desc(dl)) by {
            assert forall|i: int, j: int| 0 <= i < j < dl.len() implies #[trigger] row_before(
                dl[i],
                dl[j],
            ) by {
                assert(dl[i] == rows[i]);
                assert(dl[j] == rows[j]);
            }
        }
        lemma_filter_sorted(dl, pred);
        lemma_filter_in_source(dl, pred);
        let f = rows.filter(pred);
        assert forall|i: int, j: int| 0 <= i < j < f.len() implies #[trigger] row_before(
            f[i],
            f[j],
        ) by {
            if pred(rows.last()) && j == f.len() - 1 {
                assert(f[i] == dl.filter(pred)[i]);
                assert(dl.contains(f[i]));
                let k = choose|k: int| 0 <= k < dl.len() && dl[k] == f[i];
                assert(rows[k] == f[i]);
                assert(row_before(rows[k], rows[rows.len() - 1]));
                assert(f[j] == rows[rows.len() - 1]);
            } else {
                assert(f[i] == dl.filter(pred)[i]);
                assert(f[j] == dl.filter(pred)[j]);
            }
        }
    }
}

/// Every entity a listing returns is on the side of the trash partition
/// the query asked for: with `trashed` false only active records, with
/// `trashed` true only trashed ones.
pub proof fn lemma_list_trash_partition(
    rows: Seq<Row>,
    q: Option<Seq<char>>,
    trashed: bool,
    page: int,
    limit: int,
    today: Date,
)
    requires
        1 <= page,
        1 <= limit,
    ensures
        forall|i: int|
            0 <= i < list_items(rows, q, trashed, page, limit, today).len() ==> {
                let e = #[trigger] list_items(rows, q, trashed, page, limit, today)[i];
                &&& e.trashed == trashed
                &&& (e.trashed_at is Some) == trashed
            },
{
    let m = matching(rows, q, trashed);
    let pred = |r: Row| row_matches(r, q, trashed);
    let items = list_items(rows, q, trashed, page, limit, today);
    vstd::arithmetic::mul::lemma_mul_nonnegative(page - 1, limit);
    assert forall|i: int| 0 <= i < items.len() implies {
        let e = #[trigger] items[i];
        e.trashed == trashed && ((e.trashed_at is Some) == trashed)
    } by {
        let off = (page - 1) * limit;
        let lo = if off < m.len() {
            off
        } else {
            m.len() as int
        };
        rows.lemma_filter_pred(pred, lo + i);
        assert(pred(m[lo + i]));
    }
}

/// A listing is ordered: creation date descending, ties broken by id
/// descending.
pub proof fn lemma_list_ordered(
    rows: Seq<Row>,
    q: Option<Seq<char>>,
    trashed: bool,
    page: int,
    limit: int,
    today: Date,
)
    requires
        sorted_desc(rows),
        1 <= page,
        1 <= limit,
    ensures
        forall|i: int, j: int|
            0 <= i < j < list_items(rows, q, trashed, page, limit, today).len()
                ==> entity_order(
                #[trigger] list_items(rows, q, trashed, page, limit, today)[i],
                #[trigger] list_items(rows, q, trashed, page, limit, today)[j],
            ),
{
    let m = matching(rows, q, trashed);
    let pred = |r: Row| row_matches(r, q, trashed);
    let items = list_items(rows, q, trashed, page, limit, today);
    lemma_filter_sorted(rows, pred);
    vstd::arithmetic::mul::lemma_mul_nonnegative(page - 1, limit);
    assert forall|i: int, j: int| 0 <= i < j < items.len() implies entity_order(
        #[trigger] items[i],
        #[trigger] items[j],
    ) by {
        let off = (page - 1) * limit;
        let lo = if off < m.len() {
            off
        } else {
            m.len() as int
        };
        assert(row_before(m[lo + i], m[lo + j]));
    }
}

/// Pagination: with `total` matching records, a page holds `limit`
/// entities while a full page remains, the remainder on the last page, and
/// nothing past the end; `total` itself never depends on the page or the
/// limit, since the matching set is computed before slicing.
pub proof fn lemma_pagination(
    rows: Seq<Row>,
    q: Option<Seq<char>>,
    trashed: bool,
    page: int,
    limit: int,
    today: Date,
)
    requires
        1 <= page,
        1 <= limit,
    ensures
        ({
            let total = matching(rows, q, trashed).len();
            let off = (page - 1) * limit;
            let count = list_items(rows, q, trashed, page, limit, today).len();
            &&& (off >= total ==> count == 0)
            &&& (off + limit <= total ==> count == limit)
            &&& (off < total < off + limit ==> count == total - off)
        }),
{
    vstd::arithmetic::mul::lemma_mul_nonnegative(page - 1, limit);
}

/// Trashing hides a record from the active listing and shows it in the
/// trashed listing; untrashing reverses both. `when` is the new trash
/// state: the record appears exactly in the listing of its side of the
/// partition (for the inclusion, its name has to match the query), and
/// never in the other.
pub proof fn lemma_trash_visibility(
    rows: Seq<Row>,
    q: Option<Seq<char>>,
    id: int,
    when: Option<Date>,
)
    requires
        ids_unique(rows),
    ensures
        ({
            let rows1 = set_trash_spec(rows, id, when);
            let hidden = matching(rows1, q, !(when is Some));
            forall|i: int| 0 <= i < hidden.len() ==> (#[trigger] hidden[i]).id != id
        }),
        ({
            let rows1 = set_trash_spec(rows, id, when);
            let shown = matching(rows1, q, when is Some);
            match find_row(rows, id) {
                Some(row) => (match q {
                    None => true,
                    Some(qs) => name_like(row.name@, qs),
                }) ==> exists|i: int|
                    0 <= i < shown.len() && (#[trigger] shown[i]).id == id,
                None => true,
            }
        }),
{
    let rows1 = set_trash_spec(rows, id, when);
    let th = !(when is Some);
    let ts = when is Some;
    let hidden_pred = |r: Row| row_matches(r, q, th);
    let shown_pred = |r: Row| row_matches(r, q, ts);
    let hidden = rows1.filter(hidden_pred);
    let shown = rows1.filter(shown_pred);
    lemma_filter_in_source(rows1, hidden_pred);
    assert forall|i: int| 0 <= i < hidden.len() implies (#[trigger] hidden[i]).id != id by {
        rows1.lemma_filter_pred(hidden_pred, i);
        assert(rows1.contains(hidden[i]));
        let j = choose|j: int| 0 <= j < rows1.len() && rows1[j] == hidden[i];
        if rows[j].id == id {
            assert(rows1[j] == with_trash(rows[j], when));
            assert((rows1[j].trashed_at is Some) == (when is Some));
        } else {
            assert(rows1[j] == rows[j]);
        }
    }
    lemma_find_row_index(rows, id);
    match find_row(rows, id) {
        Some(row) => {
            if match q {
                None => true,
                Some(qs) => name_like(row.name@, qs),
            } {
                let j = choose|j: int| 0 <= j < rows.len() && #[trigger] rows[j] == row;
                assert(rows1[j] == with_trash(row, when));
                assert(shown_pred(rows1[j]));
                rows1.lemma_filter_contains(shown_pred, j);
                assert(shown.contains(rows1[j]));
                let i = choose|i: int| 0 <= i < shown.len() && shown[i] == rows1[j];
                assert(shown[i].id == id);
                assert(exists|i: int|
                    0 <= i < matching(rows1, q, when is Some).len() && (#[trigger] matching(
                        rows1,
                        q,
                        when is Some,
                    )[i]).id == id);
            }
        },
        None => {},
    }
}

/// Trashing twice is trashing once with the later stamp: the record stays
/// trashed, and nothing else about the state depends on the first call.
pub proof fn lemma_trash_idempotent(rows: Seq<Row>, id: int, first: Date, second: Date)
    ensures
        set_trash_spec(set_trash_spec(rows, id, Some(first)), id, Some(second))
            == set_trash_spec(rows, id, Some(second)),
        forall|i: int|
            0 <= i < set_trash_spec(rows, id, Some(second)).len() && (#[trigger] set_trash_spec(
                rows,
                id,
                Some(second),
            )[i]).id == id ==> set_trash_spec(rows, id, Some(second))[i].trashed_at == Some(
                second,
            ),
{
    assert(set_trash_spec(set_trash_spec(rows, id, Some(first)), id, Some(second))
        =~= set_trash_spec(rows, id, Some(second)));
}

/// A permanently removed record is gone for good: when no row carries the
/// id, neither trashing nor untrashing nor another deletion changes the
/// state.
pub proof fn lemma_gone_is_terminal(rows: Seq<Row>, id: int, when: Option<Date>)
    requires
        ids_unique(rows),
        find_row(rows, id) is None,
    ensures
        set_trash_spec(rows, id, when) == rows,
        remove_id(rows, id) == rows,
{
    assert forall|i: int| 0 <= i < rows.len() implies (#[trigger] rows[i]).id != id by {
        if rows[i].id == id {
            lemma_find_row_at(rows, id, i);
        }
    }
    assert(set_trash_spec(rows, id, when) =~= rows);
    lemma_filter_all_true(rows, |r: Row| r.id != id);
}

/// Untrashing an already-active record leaves the whole state unchanged.
pub proof fn lemma_untrash_noop_on_active(rows: Seq<Row>, id: int)
    requires
        ids_unique(rows),
        match find_row(rows, id) {
            Some(row) => row.trashed_at is None,
            None => true,
        },
    ensures
        set_trash_spec(rows, id, None) == rows,
{
    assert forall|i: int| 0 <= i < rows.len() implies set_trash_spec(rows, id, None)[i]
        == rows[i] by {
        if rows[i].id == id {
            lemma_find_row_at(rows, id, i);
            assert(rows[i].trashed_at is None);
            assert(with_trash(rows[i], None) == rows[i]);
        }
    }
    assert(set_trash_spec(rows, id, None) =~= rows);
}

} // verus!
