//! The repository: an ordered store of purchase rows with filtered,
//! paginated listing, a reversible trash state, and permanent deletion.
//!
//! Rows are kept sorted by `created_at` descending, ties broken by `id`
//! descending, so a listing is a contiguous slice of the matching rows.
//! Identifiers are assigned by the store itself, in creation order.

use vstd::prelude::*;
use crate::date::Date;
use crate::error::Error;
use crate::expense::{Entity, Row};
use crate::filter::{all_match, name_like, pred_matches, Predicate, Where};
use crate::lex::{lemma_lex_connex, lemma_lex_trans, lex_lt, str_lt};

verus! {

/// The combined predicate of a list query: an optional case-insensitive
/// name match, and the mandatory trash-state match.
pub open spec fn row_matches(r: Row, q: Option<Seq<char>>, trashed: bool) -> bool {
    &&& match q {
        Some(qs) => name_like(r.name@, qs),
        None => true,
    }
    &&& (r.trashed_at is Some) == trashed
}

/// The text of an optional query string.
pub open spec fn query_view(q: Option<String>) -> Option<Seq<char>> {
    match q {
        Some(s) => Some(s@),
        None => None,
    }
}

/// Strict listing order: `a` comes before `b` when its creation date is
/// later, or the dates are equal and its id is larger.
pub open spec fn row_before(a: Row, b: Row) -> bool {
    ||| b.created_at.before(a.created_at)
    ||| (a.created_at == b.created_at && a.id > b.id)
}

/// The rows are in strict listing order.
pub open spec fn sorted_desc(rows: Seq<Row>) -> bool {
    forall|i: int, j: int|
        0 <= i < j < rows.len() ==> #[trigger] row_before(rows[i], rows[j])
}

/// No two rows share an id.
pub open spec fn ids_unique(rows: Seq<Row>) -> bool {
    forall|i: int, j: int|
        0 <= i < j < rows.len() ==> #[trigger] rows[i].id != #[trigger] rows[j].id
}

/// A stored row is valid: non-empty name and shop, a well-formed creation
/// date, and a positive id.
pub open spec fn row_wf(r: Row) -> bool {
    &&& r.name@.len() > 0
    &&& r.shop@.len() > 0
    &&& r.created_at.wf()
    &&& 1 <= r.id
}

/// The first row carrying `id`, scanning front to back.
pub open spec fn find_row(rows: Seq<Row>, id: int) -> Option<Row>
    decreases rows.len(),
{
    if rows.len() == 0 {
        None
    } else if rows[0].id == id {
        Some(rows[0])
    } else {
        find_row(rows.subrange(1, rows.len() as int), id)
    }
}

/// The rows without the one carrying `id` (all of them, were ids not
/// unique); the others keep their order.
pub open spec fn remove_id(rows: Seq<Row>, id: int) -> Seq<Row> {
    rows.filter(|r: Row| r.id != id)
}

/// `rows` with `row` inserted at its place in the listing order.
pub open spec fn insert_sorted_spec(rows: Seq<Row>, row: Row) -> Seq<Row>
    decreases rows.len(),
{
    if rows.len() == 0 {
        seq![row]
    } else if row_before(row, rows[0]) {
        seq![row] + rows
    } else {
        seq![rows[0]] + insert_sorted_spec(rows.subrange(1, rows.len() as int), row)
    }
}

/// The repository state: the stored rows in listing order, and the next id
/// the store will assign.
pub struct Database {
    pub rows: Vec<Row>,
    pub next_id: i32,
}

impl Database {
    /// Every stored row is valid with an id below `next_id`, ids are
    /// unique, and the rows sit in listing order.
    pub open spec fn wf(self) -> bool {
        &&& sorted_desc(self.rows@)
        &&& ids_unique(self.rows@)
        &&& forall|i: int|
            0 <= i < self.rows@.len() ==> row_wf(#[trigger] self.rows@[i]) && self.rows@[i].id
                < self.next_id
        &&& 1 <= self.next_id
    }

    /// An empty repository; the first created row gets id 1.
    pub fn new() -> (d: Database)
        ensures
            d.wf(),
            d.rows@ == Seq::<Row>::empty(),
            d.next_id == 1,
    {
        Database { rows: Vec::new(), next_id: 1 }
    }

    /// The position of the row carrying `id`, if any.
    fn find_index(&self, id: i32) -> (r: Option<usize>)
        ensures
            match r {
                Some(p) => p < self.rows@.len() && self.rows@[p as int].id == id,
                None => forall|i: int| 0 <= i < self.rows@.len() ==> self.rows@[i].id != id,
            },
    {
        let n = self.rows.len();
        let mut i: usize = 0;
        while i < n
            invariant
                0 <= i <= n,
                n == self.rows@.len(),
                forall|k: int| 0 <= k < i ==> self.rows@[k].id != id,
            decreases n - i,
        {
            if self.rows[i].id == id {
                return Some(i);
            }
            i = i + 1;
        }
        None
    }

    /// Look one record up by id; absence is an empty result, not a failure.
    /// The returned entity carries the derived fields recomputed against
    /// `today`.
    pub fn get(&self, id: i32, today: &Date) -> (r: Option<Entity>)
        requires
            self.wf(),
        ensures
            match find_row(self.rows@, id as int) {
                Some(row) => r == Some(row.entity_at(*today)),
                None => r is None,
            },
    {
        match self.find_index(id) {
            Some(p) => {
                proof {
                    lemma_find_row_at(self.rows@, id as int, p as int);
                }
                Some(self.rows[p].to_entity(today))
            },
            None => {
                proof {
                    lemma_find_row_absent(self.rows@, id as int);
                }
                None
            },
        }
    }
}

/// The row a valid entity is stored as, under the id the store assigns:
/// the base fields of the entity, with the trash state always cleared.
pub open spec fn new_row(entity: Entity, id: i32) -> Row {
    Row {
        id,
        created_at: entity.created_at,
        serial: entity.serial,
        name: entity.name,
        url: entity.url,
        shop: entity.shop,
        warranty: entity.warranty,
        price: entity.price,
        trashed_at: None,
    }
}

impl Database {
    /// First position whose row sorts after `row`, i.e. where `row` is to
    /// be inserted.
    fn insert_pos(&self, row: &Row) -> (p: usize)
        ensures
            p <= self.rows@.len(),
            forall|k: int| 0 <= k < p ==> !row_before(*row, #[trigger] self.rows@[k]),
            p < self.rows@.len() ==> row_before(*row, self.rows@[p as int]),
    {
        let n = self.rows.len();
        let mut p: usize = 0;
        while p < n
            invariant
                0 <= p <= n,
                n == self.rows@.len(),
                forall|k: int| 0 <= k < p ==> !row_before(*row, #[trigger] self.rows@[k]),
            decreases n - p,
        {
            if before_exec(row, &self.rows[p]) {
                return p;
            }
            p = p + 1;
        }
        n
    }

    /// Insert a row with a fresh id at its place in the listing order.
    fn insert_sorted(&mut self, row: Row)
        requires
            sorted_desc(old(self).rows@),
            ids_unique(old(self).rows@),
            forall|k: int|
                0 <= k < old(self).rows@.len() ==> (#[trigger] old(self).rows@[k]).id != row.id,
        ensures
            final(self).rows@ == insert_sorted_spec(old(self).rows@, row),
            final(self).next_id == old(self).next_id,
            sorted_desc(final(self).rows@),
            ids_unique(final(self).rows@),
            forall|i: int|
                0 <= i < final(self).rows@.len() ==> #[trigger] final(self).rows@[i] == row || old(
                    self,
                ).rows@.contains(final(self).rows@[i]),
    {
        let ghost rows0 = self.rows@;
        let p = self.insert_pos(&row);
        self.rows.insert(p, row);
        proof {
            lemma_insert_sorted_at(rows0, row, p as int);
            rows0.insert_ensures(p as int, row);
            let rows1 = self.rows@;
            assert forall|i: int, j: int| 0 <= i < j < rows1.len() implies #[trigger] row_before(
                rows1[i],
                rows1[j],
            ) by {
                if j < p {
                } else if i < p && j == p {
                    assert(rows1[i] == rows0[i]);
                    assert(!row_before(row, rows0[i]));
                    lemma_row_order_total(rows0[i], row);
                } else if i < p && j > p {
                    assert(rows1[j] == rows0[j - 1]);
                } else if i == p {
                    assert(rows1[j] == rows0[j - 1]);
                    assert(row_before(row, rows0[p as int]));
                    if j - 1 > p {
                        assert(row_before(rows0[p as int], rows0[j - 1]));
                        lemma_row_order_trans(row, rows0[p as int], rows0[j - 1]);
                    }
                } else {
                    assert(rows1[i] == rows0[i - 1]);
                    assert(rows1[j] == rows0[j - 1]);
                }
            }
            assert forall|i: int, j: int| 0 <= i < j < rows1.len() implies #[trigger] rows1[i].id
                != #[trigger] rows1[j].id by {
                if i != p && j != p {
                    let i0 = if i < p {
                        i
                    } else {
                        i - 1
                    };
                    let j0 = if j < p {
                        j
                    } else {
                        j - 1
                    };
                    assert(rows1[i] == rows0[i0]);
                    assert(rows1[j] == rows0[j0]);
                } else if i == p {
                    assert(rows1[j] == rows0[j - 1]);
                } else {
                    assert(rows1[i] == rows0[i]);
                }
            }
            assert forall|i: int| 0 <= i < rows1.len() implies #[trigger] rows1[i] == row
                || rows0.contains(rows1[i]) by {
                if i < p {
                    assert(rows1[i] == rows0[i]);
                } else if i > p {
                    assert(rows1[i] == rows0[i - 1]);
                }
            }
        }
    }

    /// Persist a new record. Fails with `Error::Validation` exactly when the
    /// name or shop is empty or the creation date is not a calendar date,
    /// and with `Error::Storage` when the id space is exhausted. On success
    /// the store assigns the next id, the trash state starts cleared
    /// whatever the caller supplied, and the returned entity carries the
    /// derived fields recomputed against `today`.
    pub fn create(&mut self, entity: Entity, today: &Date) -> (r: Result<Entity, Error>)
        requires
            old(self).wf(),
        ensures
            final(self).wf(),
            r is Ok <==> (entity.name@.len() > 0 && entity.shop@.len() > 0
                && entity.created_at.wf() && old(self).next_id < i32::MAX),
            r matches Ok(e) ==> {
                &&& final(self).rows@ == insert_sorted_spec(
                    old(self).rows@,
                    new_row(entity, old(self).next_id),
                )
                &&& final(self).next_id == old(self).next_id + 1
                &&& e == new_row(entity, old(self).next_id).entity_at(*today)
            },
            r is Err ==> *final(self) == *old(self),
            r matches Err(er) ==> if entity.name@.len() > 0 && entity.shop@.len() > 0
                && entity.created_at.wf() {
                er == Error::Storage
            } else {
                er == Error::Validation
            },
    {
        if entity.name.as_str().is_empty() || entity.shop.as_str().is_empty()
            || !entity.created_at.is_wf() {
            return Err(Error::Validation);
        }
        if self.next_id == i32::MAX {
            return Err(Error::Storage);
        }
        let id = self.next_id;
        let row = Row {
            id,
            created_at: entity.created_at,
            serial: entity.serial,
            name: entity.name,
            url: entity.url,
            shop: entity.shop,
            warranty: entity.warranty,
            price: entity.price,
            trashed_at: None,
        };
        let e = row.to_entity(today);
        self.insert_sorted(row);
        self.next_id = self.next_id + 1;
        Ok(e)
    }
}

/// A row with its trash state replaced and every other field kept.
pub open spec fn with_trash(r: Row, when: Option<Date>) -> Row {
    Row {
        id: r.id,
        created_at: r.created_at,
        serial: r.serial,
        name: r.name,
        url: r.url,
        shop: r.shop,
        warranty: r.warranty,
        price: r.price,
        trashed_at: when,
    }
}

/// The rows with the trash state of the row carrying `id` replaced by
/// `when`; every other row, and the order, unchanged.
pub open spec fn set_trash_spec(rows: Seq<Row>, id: int, when: Option<Date>) -> Seq<Row> {
    rows.map_values(
        |r: Row|
            if r.id == id {
                with_trash(r, when)
            } else {
                r
            },
    )
}

impl Database {
    /// Permanently remove one record. Returns the removed entity (read
    /// against `today`), or nothing when no row carries `id`. Afterwards
    /// the id resolves to nothing; the id is never reused for the remaining
    /// store, since `next_id` is unchanged.
    pub fn delete(&mut self, id: i32, today: &Date) -> (r: Option<Entity>)
        requires
            old(self).wf(),
        ensures
            final(self).wf(),
            final(self).rows@ == remove_id(old(self).rows@, id as int),
            final(self).next_id == old(self).next_id,
            match find_row(old(self).rows@, id as int) {
                Some(row) => r == Some(row.entity_at(*today)),
                None => r is None && *final(self) == *old(self),
            },
            find_row(final(self).rows@, id as int) is None,
    {
        let ghost rows0 = self.rows@;
        match self.find_index(id) {
            None => {
                proof {
                    lemma_find_row_absent(rows0, id as int);
                    lemma_filter_all_true(rows0, |r: Row| r.id != id as int);
                }
                None
            },
            Some(p) => {
                proof {
                    lemma_find_row_at(rows0, id as int, p as int);
                    lemma_remove_at_filter(rows0, p as int, id as int);
                    lemma_remove_keeps_order(rows0, p as int);
                    rows0.remove_ensures(p as int);
                }
                let row = self.rows.remove(p);
                let e = row.to_entity(today);
                proof {
                    let rows1 = self.rows@;
                    assert forall|i: int| 0 <= i < rows1.len() implies #[trigger] rows1[i].id
                        != id as int by {
                        if i < p {
                            assert(rows1[i] == rows0[i]);
                        } else {
                            assert(rows1[i] == rows0[i + 1]);
                        }
                    }
                    lemma_find_row_absent(rows1, id as int);
                    assert forall|i: int| 0 <= i < rows1.len() implies row_wf(
                        #[trigger] rows1[i],
                    ) && rows1[i].id < self.next_id by {
                        if i < p {
                            assert(rows1[i] == rows0[i]);
                        } else {
                            assert(rows1[i] == rows0[i + 1]);
                        }
                    }
                }
                Some(e)
            },
        }
    }

    /// Set or clear the trash state of the row carrying `id`; every other
    /// field, every other row, and the order are untouched.
    fn set_trash(&mut self, id: i32, when: Option<Date>, today: &Date) -> (r: Option<Entity>)
        requires
            old(self).wf(),
        ensures
            final(self).wf(),
            final(self).rows@ == set_trash_spec(old(self).rows@, id as int, when),
            final(self).next_id == old(self).next_id,
            match find_row(old(self).rows@, id as int) {
                Some(row) => r == Some(with_trash(row, when).entity_at(*today)),
                None => r is None && *final(self) == *old(self),
            },
    {
        let ghost rows0 = self.rows@;
        match self.find_index(id) {
            None => {
                proof {
                    lemma_find_row_absent(rows0, id as int);
                    assert(set_trash_spec(rows0, id as int, when) =~= rows0);
                }
                None
            },
            Some(p) => {
                proof {
                    lemma_find_row_at(rows0, id as int, p as int);
                    rows0.remove_ensures(p as int);
                }
                let mut row = self.rows.remove(p);
                row.trashed_at = when;
                let e = row.to_entity(today);
                let ghost row1 = row;
                self.rows.insert(p, row);
                proof {
                    rows0.remove(p as int).insert_ensures(p as int, row1);
                    let rows1 = self.rows@;
                    assert forall|i: int| 0 <= i < rows1.len() implies rows1[i] == (
                    if rows0[i].id == id as int {
                        with_trash(rows0[i], when)
                    } else {
                        rows0[i]
                    }) by {
                        if i < p {
                            assert(rows1[i] == rows0[i]);
                        } else if i > p {
                            assert(rows1[i] == rows0.remove(p as int)[i - 1]);
                            assert(rows1[i] == rows0[i]);
                        } else {
                            assert(rows1[i] == row1);
                        }
                    }
                    assert(rows1 =~= set_trash_spec(rows0, id as int, when));
                    assert forall|i: int, j: int| 0 <= i < j < rows1.len() implies
                        #[trigger] row_before(rows1[i], rows1[j]) by {
                        assert(row_before(rows0[i], rows0[j]));
                    }
                    assert forall|i: int, j: int| 0 <= i < j < rows1.len() implies
                        #[trigger] rows1[i].id != #[trigger] rows1[j].id by {
                        assert(rows0[i].id != rows0[j].id);
                    }
                    assert forall|i: int| 0 <= i < rows1.len() implies row_wf(
                        #[trigger] rows1[i],
                    ) && rows1[i].id < self.next_id by {
                        assert(row_wf(rows0[i]) && rows0[i].id < self.next_id);
                    }
                }
                Some(e)
            },
        }
    }

    /// Move one record to the trash, stamping it with `today`. Re-trashing
    /// an already-trashed record is accepted and refreshes the stamp; only
    /// the trash state of the record changes. Returns nothing when no row
    /// carries `id`.
    pub fn trash(&mut self, id: i32, today: &Date) -> (r: Option<Entity>)
        requires
            old(self).wf(),
        ensures
            final(self).wf(),
            final(self).rows@ == set_trash_spec(old(self).rows@, id as int, Some(*today)),
            final(self).next_id == old(self).next_id,
            match find_row(old(self).rows@, id as int) {
                Some(row) => r == Some(with_trash(row, Some(*today)).entity_at(*today)),
                None => r is None && *final(self) == *old(self),
            },
    {
        self.set_trash(id, Some(*today), today)
    }

    /// Restore one record from the trash. Untrashing an already-active
    /// record is a harmless no-op. Returns nothing when no row carries
    /// `id`.
    pub fn untrash(&mut self, id: i32, today: &Date) -> (r: Option<Entity>)
        requires
            old(self).wf(),
        ensures
            final(self).wf(),
            final(self).rows@ == set_trash_spec(old(self).rows@, id as int, None),
            final(self).next_id == old(self).next_id,
            match find_row(old(self).rows@, id as int) {
                Some(row) => r == Some(with_trash(row, None).entity_at(*today)),
                None => r is None && *final(self) == *old(self),
            },
    {
        self.set_trash(id, None, today)
    }

    /// Replace every mutable base field of the record carrying `id` with
    /// the entity's fields. The id itself and the trash state are never
    /// replaced: a stale form cannot untrash a record. Fails with
    /// `Error::Validation` exactly when the name or shop is empty or the
    /// creation date is not a calendar date; returns `Ok(None)` when the
    /// fields are valid but no row carries `id`.
    pub fn update(&mut self, id: i32, entity: Entity, today: &Date) -> (r: Result<
        Option<Entity>,
        Error,
    >)
        requires
            old(self).wf(),
        ensures
            final(self).wf(),
            final(self).next_id == old(self).next_id,
            r is Err <==> !(entity.name@.len() > 0 && entity.shop@.len() > 0
                && entity.created_at.wf()),
            r matches Err(er) ==> er == Error::Validation && *final(self) == *old(self),
            r matches Ok(opt) ==> match find_row(old(self).rows@, id as int) {
                Some(row) => {
                    &&& final(self).rows@ == insert_sorted_spec(
                        remove_id(old(self).rows@, id as int),
                        with_trash(new_row(entity, id), row.trashed_at),
                    )
                    &&& opt == Some(
                        with_trash(new_row(entity, id), row.trashed_at).entity_at(*today),
                    )
                },
                None => opt is None && *final(self) == *old(self),
            },
    {
        if entity.name.as_str().is_empty() || entity.shop.as_str().is_empty()
            || !entity.created_at.is_wf() {
            return Err(Error::Validation);
        }
        let ghost rows0 = self.rows@;
        match self.find_index(id) {
            None => {
                proof {
                    lemma_find_row_absent(rows0, id as int);
                }
                Ok(None)
            },
            Some(p) => {
                proof {
                    lemma_find_row_at(rows0, id as int, p as int);
                    lemma_remove_at_filter(rows0, p as int, id as int);
                    lemma_remove_keeps_order(rows0, p as int);
                    rows0.remove_ensures(p as int);
                }
                let old_row = self.rows.remove(p);
                let row = Row {
                    id,
                    created_at: entity.created_at,
                    serial: entity.serial,
                    name: entity.name,
                    url: entity.url,
                    shop: entity.shop,
                    warranty: entity.warranty,
                    price: entity.price,
                    trashed_at: old_row.trashed_at,
                };
                let e = row.to_entity(today);
                proof {
                    let rows1 = self.rows@;
                    assert forall|k: int| 0 <= k < rows1.len() implies (#[trigger] rows1[k]).id
                        != row.id by {
                        if k < p {
                            assert(rows1[k] == rows0[k]);
                        } else {
                            assert(rows1[k] == rows0[k + 1]);
                        }
                    }
                }
                self.insert_sorted(row);
                proof {
                    let rows1 = self.rows@;
                    assert forall|i: int| 0 <= i < rows1.len() implies row_wf(
                        #[trigger] rows1[i],
                    ) && rows1[i].id < self.next_id by {
                        if rows1[i] == row {
                            assert(row_wf(rows0[p as int]));
                        } else {
                            assert(rows0.remove(p as int).contains(rows1[i]));
                            let j = choose|j: int|
                                0 <= j < rows0.remove(p as int).len() && rows0.remove(
                                    p as int,
                                )[j] == rows1[i];
                            if j < p {
                                assert(rows0.remove(p as int)[j] == rows0[j]);
                            } else {
                                assert(rows0.remove(p as int)[j] == rows0[j + 1]);
                            }
                        }
                    }
                }
                Ok(Some(e))
            },
        }
    }
}

/// The rows a list query selects, in listing order.
pub open spec fn matching(rows: Seq<Row>, q: Option<Seq<char>>, trashed: bool) -> Seq<Row> {
    rows.filter(|r: Row| row_matches(r, q, trashed))
}

/// The entities of one result page: the matching rows from offset
/// `(page - 1) * limit`, at most `limit` of them, each read against
/// `today`. A page past the end is empty.
pub open spec fn list_items(
    rows: Seq<Row>,
    q: Option<Seq<char>>,
    trashed: bool,
    page: int,
    limit: int,
    today: Date,
) -> Seq<Entity> {
    let m = matching(rows, q, trashed);
    let off = (page - 1) * limit;
    let lo = if off < m.len() {
        off
    } else {
        m.len() as int
    };
    let hi = if off + limit < m.len() {
        off + limit
    } else {
        m.len() as int
    };
    m.subrange(lo, hi).map_values(|r: Row| r.entity_at(today))
}

/// One bounded slice of a filtered, ordered result set, with the total
/// count of matching records independent of the slice.
pub struct Page {
    pub items: Vec<Entity>,
    pub total: usize,
    pub page: usize,
    pub limit: usize,
}

impl Database {
    /// List one page of records. `q` is an optional case-insensitive text
    /// match on the name; `trashed` selects exclusively trashed or
    /// exclusively active records. Results are ordered by creation date
    /// descending, ties broken by id descending; pages are 1-based and
    /// `total` reflects the whole filtered set whatever the page.
    pub fn all(&self, q: Option<String>, page: usize, limit: usize, trashed: bool, today: &Date)
        -> (r: Page)
        requires
            self.wf(),
            1 <= page,
            1 <= limit,
        ensures
            r.total == matching(self.rows@, query_view(q), trashed).len(),
            r.items@ == list_items(
                self.rows@,
                query_view(q),
                trashed,
                page as int,
                limit as int,
                *today,
            ),
            r.page == page,
            r.limit == limit,
    {
        let ghost qv = query_view(q);
        let ghost pred = |r: Row| row_matches(r, qv, trashed);
        let mut w = Where::new();
        match &q {
            Some(s) => w.and(Predicate::NameLike(s.clone())),
            None => (),
        }
        w.and(Predicate::TrashedIs(trashed));
        let ghost ps = w.predicates@;

        let n = self.rows.len();
        let mut found: Vec<Row> = Vec::new();
        let mut i: usize = 0;
        while i < n
            invariant
                0 <= i <= n,
                n == self.rows@.len(),
                self.wf(),
                w.predicates@ == ps,
                qv == query_view(q),
                pred == (|r: Row| row_matches(r, qv, trashed)),
                ({
                    match q {
                        Some(s) => ps.len() == 2 && ps[1] == Predicate::TrashedIs(trashed) && (
                        ps[0] matches Predicate::NameLike(c) && c@ == s@),
                        None => ps.len() == 1 && ps[0] == Predicate::TrashedIs(trashed),
                    }
                }),
                found@ == self.rows@.subrange(0, i as int).filter(pred),
                forall|k: int| 0 <= k < found@.len() ==> row_wf(#[trigger] found@[k]),
            decreases n - i,
        {
            let hit = w.matches(&self.rows[i]);
            proof {
                lemma_where_equiv(ps, q, trashed, self.rows@[i as int]);
                lemma_filter_push(
                    self.rows@.subrange(0, i as int),
                    pred,
                    self.rows@[i as int],
                );
                assert(self.rows@.subrange(0, i + 1 as int) =~= self.rows@.subrange(
                    0,
                    i as int,
                ).push(self.rows@[i as int]));
            }
            if hit {
                found.push(self.rows[i].duplicate());
            }
            i = i + 1;
        }
        proof {
            assert(self.rows@.subrange(0, n as int) =~= self.rows@);
        }

        let total = found.len();
        let (lo, hi) = match (page - 1).checked_mul(limit) {
            Some(o) => {
                let lo = if o < total {
                    o
                } else {
                    total
                };
                let hi = if o < total && limit < total - o {
                    o + limit
                } else {
                    total
                };
                (lo, hi)
            },
            None => (total, total),
        };

        let ghost m = matching(self.rows@, qv, trashed);
        let ghost ent = |r: Row| r.entity_at(*today);
        let mut items: Vec<Entity> = Vec::new();
        let mut j: usize = lo;
        while j < hi
            invariant
                lo <= j <= hi <= total,
                total == found@.len(),
                ent == (|r: Row| r.entity_at(*today)),
                forall|k: int| 0 <= k < found@.len() ==> row_wf(#[trigger] found@[k]),
                items@ == found@.subrange(lo as int, j as int).map_values(ent),
            decreases hi - j,
        {
            items.push(found[j].to_entity(today));
            proof {
                assert(found@.subrange(lo as int, j + 1 as int) =~= found@.subrange(
                    lo as int,
                    j as int,
                ).push(found@[j as int]));
                assert(found@.subrange(lo as int, j + 1 as int).map_values(ent)
                    =~= found@.subrange(lo as int, j as int).map_values(ent).push(
                    ent(found@[j as int]),
                ));
            }
            j = j + 1;
        }
        proof {
            assert(items@ =~= list_items(
                self.rows@,
                query_view(q),
                trashed,
                page as int,
                limit as int,
                *today,
            ));
        }
        Page { items, total, page, limit }
    }
}

/// Some row of `rows` has `x` as its shop name.
pub open spec fn has_shop(rows: Seq<Row>, x: Seq<char>) -> bool {
    exists|j: int| 0 <= j < rows.len() && #[trigger] rows[j].shop@ == x
}

/// Some entry of `out` reads `x`.
pub open spec fn listed(out: Seq<String>, x: Seq<char>) -> bool {
    exists|i: int| 0 <= i < out.len() && #[trigger] out[i]@ == x
}

/// The entries are strictly ascending in lexicographic order (so also free
/// of duplicates).
pub open spec fn shops_sorted(out: Seq<String>) -> bool {
    forall|i: int, j: int|
        0 <= i < j < out.len() ==> lex_lt(#[trigger] out[i]@, #[trigger] out[j]@)
}

impl Database {
    /// Every shop name seen across every row, trashed or not, each once, in
    /// ascending lexicographic order.
    pub fn shops(&self) -> (r: Vec<String>)
        ensures
            shops_sorted(r@),
            forall|x: Seq<char>|
                #![trigger listed(r@, x)]
                #![trigger has_shop(self.rows@, x)]
                listed(r@, x) == has_shop(self.rows@, x),
    {
        let n = self.rows.len();
        let mut out: Vec<String> = Vec::new();
        let mut i: usize = 0;
        while i < n
            invariant
                0 <= i <= n,
                n == self.rows@.len(),
                shops_sorted(out@),
                forall|x: Seq<char>|
                    #![trigger listed(out@, x)]
                    #![trigger has_shop(self.rows@.subrange(0, i as int), x)]
                    listed(out@, x) == has_shop(self.rows@.subrange(0, i as int), x),
            decreases n - i,
        {
            let ghost out0 = out@;
            insert_shop(&mut out, self.rows[i].shop.clone());
            proof {
                let sub0 = self.rows@.subrange(0, i as int);
                let sub1 = self.rows@.subrange(0, i + 1 as int);
                let s = self.rows@[i as int].shop@;
                assert forall|x: Seq<char>| #![trigger listed(out@, x)]
                    #![trigger has_shop(sub1, x)]
                    listed(out@, x) == has_shop(sub1, x) by {
                    if listed(out@, x) {
                        if x == s {
                            assert(sub1[i as int].shop@ == x);
                        } else {
                            let j = choose|j: int| 0 <= j < sub0.len() && sub0[j].shop@ == x;
                            assert(sub1[j].shop@ == x);
                        }
                    }
                    if has_shop(sub1, x) {
                        let j = choose|j: int| 0 <= j < sub1.len() && sub1[j].shop@ == x;
                        if j < i {
                            assert(sub0[j].shop@ == x);
                            assert(listed(out0, x));
                        }
                    }
                }
            }
            i = i + 1;
        }
        proof {
            assert(self.rows@.subrange(0, n as int) =~= self.rows@);
        }
        out
    }
}

/// First position of the shop listing whose entry does not sort before `s`.
fn shop_pos(out: &Vec<String>, s: &String) -> (p: usize)
    ensures
        p <= out@.len(),
        forall|k: int| 0 <= k < p ==> lex_lt(#[trigger] out@[k]@, s@),
        p < out@.len() ==> !lex_lt(out@[p as int]@, s@),
{
    let n = out.len();
    let mut p: usize = 0;
    while p < n
        invariant
            0 <= p <= n,
            n == out@.len(),
            forall|k: int| 0 <= k < p ==> lex_lt(#[trigger] out@[k]@, s@),
        decreases n - p,
    {
        if !str_lt(out[p].as_str(), s.as_str()) {
            return p;
        }
        p = p + 1;
    }
    n
}

/// Insert a shop name into the sorted listing unless it is already there.
fn insert_shop(out: &mut Vec<String>, s: String)
    requires
        shops_sorted(old(out)@),
    ensures
        shops_sorted(final(out)@),
        forall|x: Seq<char>|
            #![trigger listed(final(out)@, x)]
            listed(final(out)@, x) == (listed(old(out)@, x) || x == s@),
{
    let ghost out0 = out@;
    let p = shop_pos(out, &s);
    if p < out.len() && out[p] == s {
        proof {
            assert(out@[p as int]@ == s@);
            assert forall|x: Seq<char>| #![trigger listed(out@, x)]
                listed(out@, x) == (listed(out0, x) || x == s@) by {
                if x == s@ {
                    assert(out@[p as int]@ == x);
                }
            }
        }
        return ;
    }
    proof {
        if p < out@.len() {
            lemma_lex_connex(out@[p as int]@, s@);
            assert(lex_lt(s@, out@[p as int]@) || out@[p as int]@ == s@);
            if out@[p as int]@ == s@ {
                // ruled out by the equality test above
                assert(out@[p as int]@ == s@ && !(out@[p as int]@ == s@));
            }
        }
    }
    out.insert(p, s);
    proof {
        out0.insert_ensures(p as int, s);
        let out1 = out@;
        assert forall|i: int, j: int| 0 <= i < j < out1.len() implies lex_lt(
            #[trigger] out1[i]@,
            #[trigger] out1[j]@,
        ) by {
            if j < p {
            } else if i < p && j == p {
                assert(out1[i] == out0[i]);
            } else if i < p && j > p {
                assert(out1[i] == out0[i]);
                assert(out1[j] == out0[j - 1]);
            } else if i == p {
                assert(out1[j] == out0[j - 1]);
                assert(!lex_lt(out0[p as int]@, s@));
                lemma_lex_connex(out0[p as int]@, s@);
                if j - 1 > p {
                    lemma_lex_trans(s@, out0[p as int]@, out0[j - 1]@);
                }
            } else {
                assert(out1[i] == out0[i - 1]);
                assert(out1[j] == out0[j - 1]);
            }
        }
        assert forall|x: Seq<char>| #![trigger listed(out1, x)]
            listed(out1, x) == (listed(out0, x) || x == s@) by {
            if listed(out1, x) {
                let i = choose|i: int| 0 <= i < out1.len() && out1[i]@ == x;
                if i < p {
                    assert(out0[i]@ == x);
                } else if i > p {
                    assert(out1[i] == out0[i - 1]);
                    assert(out0[i - 1]@ == x);
                }
            }
            if listed(out0, x) {
                let i = choose|i: int| 0 <= i < out0.len() && out0[i]@ == x;
                if i < p {
                    assert(out1[i]@ == x);
                } else {
                    assert(out1[i + 1] == out0[i]);
                    assert(out1[i + 1]@ == x);
                }
            }
            if x == s@ {
                assert(out1[p as int]@ == x);
            }
        }
    }
}

/// A conjunction built as the listing builds it means exactly the combined
/// query predicate.
proof fn lemma_where_equiv(ps: Seq<Predicate>, q: Option<String>, trashed: bool, r: Row)
    requires
        q matches Some(s) ==> ps.len() == 2 && ps[1] == Predicate::TrashedIs(trashed) && (
        ps[0] matches Predicate::NameLike(c) && c@ == s@),
        q is None ==> ps.len() == 1 && ps[0] == Predicate::TrashedIs(trashed),
    ensures
        all_match(ps, r) == row_matches(r, query_view(q), trashed),
{
    match q {
        Some(s) => {
            if all_match(ps, r) {
                assert(pred_matches(ps[0], r));
                assert(pred_matches(ps[1], r));
            }
            if row_matches(r, query_view(q), trashed) {
                assert forall|i: int| 0 <= i < ps.len() implies pred_matches(ps[i], r) by {
                    if i == 0 {
                        assert(pred_matches(ps[0], r));
                    } else {
                        assert(pred_matches(ps[1], r));
                    }
                }
            }
        },
        None => {
            if all_match(ps, r) {
                assert(pred_matches(ps[0], r));
            }
            if row_matches(r, query_view(q), trashed) {
                assert forall|i: int| 0 <= i < ps.len() implies pred_matches(ps[i], r) by {
                    assert(pred_matches(ps[0], r));
                }
            }
        },
    }
}

/// Filtering a sequence extended by one element keeps the element exactly
/// when the filter holds of it.
proof fn lemma_filter_push<A>(s: Seq<A>, pred: spec_fn(A) -> bool, x: A)
    ensures
        s.push(x).filter(pred) == if pred(x) {
            s.filter(pred).push(x)
        } else {
            s.filter(pred)
        },
{
    reveal(Seq::filter);
    assert(s.push(x).drop_last() =~= s);
    assert(s.push(x).last() == x);
}

/// A filter that holds of every element changes nothing.
pub(crate) proof fn lemma_filter_all_true(rows: Seq<Row>, pred: spec_fn(Row) -> bool)
    requires
        forall|i: int| 0 <= i < rows.len() ==> pred(#[trigger] rows[i]),
    ensures
        rows.filter(pred) == rows,
    decreases rows.len(),
{
    reveal(Seq::filter);
    if rows.len() > 0 {
        let dl = rows.drop_last();
        assert(forall|i: int| 0 <= i < dl.len() ==> pred(#[trigger] dl[i]));
        lemma_filter_all_true(dl, pred);
        assert(rows.filter(pred) =~= rows);
    }
}

/// With unique ids, dropping the id found at position `p` is removing that
/// position.
proof fn lemma_remove_at_filter(rows: Seq<Row>, p: int, id: int)
    requires
        ids_unique(rows),
        0 <= p < rows.len(),
        rows[p].id == id,
    ensures
        remove_id(rows, id) == rows.remove(p),
    decreases rows.len(),
{
    reveal(Seq::filter);
    let pred = |r: Row| r.id != id;
    let dl = rows.drop_last();
    if p == rows.len() - 1 {
        assert(forall|i: int| 0 <= i < dl.len() ==> pred(#[trigger] dl[i]));
        lemma_filter_all_true(dl, pred);
        assert(rows.filter(pred) =~= rows.remove(p));
    } else {
        assert(ids_unique(dl)) by {
            assert forall|i: int, j: int| 0 <= i < j < dl.len() implies #[trigger] dl[i].id
                != #[trigger] dl[j].id by {
                assert(dl[i] == rows[i]);
                assert(dl[j] == rows[j]);
            }
        }
        assert(dl[p] == rows[p]);
        lemma_remove_at_filter(dl, p, id);
        dl.remove_ensures(p);
        rows.remove_ensures(p);
        assert(pred(rows.last()));
        assert(rows.filter(pred) =~= rows.remove(p));
    }
}

/// Removing a position keeps the listing order, the uniqueness of ids, and
/// leaves only rows that were already there.
proof fn lemma_remove_keeps_order(rows: Seq<Row>, p: int)
    requires
        sorted_desc(rows),
        ids_unique(rows),
        0 <= p < rows.len(),
    ensures
        sorted_desc(rows.remove(p)),
        ids_unique(rows.remove(p)),
        forall|i: int|
            0 <= i < rows.remove(p).len() ==> rows.contains(#[trigger] rows.remove(p)[i]),
{
    rows.remove_ensures(p);
    let rem = rows.remove(p);
    assert forall|i: int, j: int| 0 <= i < j < rem.len() implies #[trigger] row_before(
        rem[i],
        rem[j],
    ) && #[trigger] rem[i].id != #[trigger] rem[j].id by {
        let i0 = if i < p {
            i
        } else {
            i + 1
        };
        let j0 = if j < p {
            j
        } else {
            j + 1
        };
        assert(rem[i] == rows[i0]);
        assert(rem[j] == rows[j0]);
    }
    assert forall|i: int| 0 <= i < rem.len() implies rows.contains(#[trigger] rem[i]) by {
        let i0 = if i < p {
            i
        } else {
            i + 1
        };
        assert(rem[i] == rows[i0]);
    }
}

/// Runtime evaluation of `row_before`.
fn before_exec(a: &Row, b: &Row) -> (r: bool)
    ensures
        r == row_before(*a, *b),
{
    b.created_at.is_before(&a.created_at) || (a.created_at == b.created_at && a.id > b.id)
}

/// The listing order is transitive.
proof fn lemma_row_order_trans(a: Row, b: Row, c: Row)
    requires
        row_before(a, b),
        row_before(b, c),
    ensures
        row_before(a, c),
{
}

/// Two rows with different ids are ordered one way or the other.
proof fn lemma_row_order_total(a: Row, b: Row)
    requires
        a.id != b.id,
    ensures
        row_before(a, b) || row_before(b, a),
{
}

/// Inserting at the first position whose row sorts after the new one is
/// what `insert_sorted_spec` computes.
proof fn lemma_insert_sorted_at(rows: Seq<Row>, row: Row, p: int)
    requires
        0 <= p <= rows.len(),
        forall|k: int| 0 <= k < p ==> !row_before(row, #[trigger] rows[k]),
        p < rows.len() ==> row_before(row, rows[p]),
    ensures
        insert_sorted_spec(rows, row) == rows.insert(p, row),
    decreases rows.len(),
{
    if rows.len() == 0 {
        assert(insert_sorted_spec(rows, row) =~= rows.insert(0, row));
    } else if p == 0 {
        assert(insert_sorted_spec(rows, row) =~= rows.insert(0, row));
    } else {
        let sub = rows.subrange(1, rows.len() as int);
        assert forall|k: int| 0 <= k < p - 1 implies !row_before(row, #[trigger] sub[k]) by {
            assert(sub[k] == rows[k + 1]);
        }
        if p - 1 < sub.len() {
            assert(sub[p - 1] == rows[p]);
        }
        lemma_insert_sorted_at(sub, row, p - 1);
        sub.insert_ensures(p - 1, row);
        rows.insert_ensures(p, row);
        assert(insert_sorted_spec(rows, row) =~= rows.insert(p, row));
    }
}

/// When ids are unique and position `p` carries `id`, the scan finds
/// exactly the row at `p`.
pub(crate) proof fn lemma_find_row_at(rows: Seq<Row>, id: int, p: int)
    requires
        ids_unique(rows),
        0 <= p < rows.len(),
        rows[p].id == id,
    ensures
        find_row(rows, id) == Some(rows[p]),
    decreases rows.len(),
{
    if p == 0 {
    } else {
        let sub = rows.subrange(1, rows.len() as int);
        assert(ids_unique(sub)) by {
            assert forall|i: int, j: int| 0 <= i < j < sub.len() implies #[trigger] sub[i].id
                != #[trigger] sub[j].id by {
                assert(sub[i] == rows[i + 1]);
                assert(sub[j] == rows[j + 1]);
            }
        }
        assert(sub[p - 1] == rows[p]);
        lemma_find_row_at(sub, id, p - 1);
    }
}

/// What the scan yields is a row of the sequence, carrying the id it was
/// asked for.
pub(crate) proof fn lemma_find_row_index(rows: Seq<Row>, id: int)
    ensures
        match find_row(rows, id) {
            Some(row) => row.id == id && exists|j: int|
                0 <= j < rows.len() && #[trigger] rows[j] == row,
            None => true,
        },
    decreases rows.len(),
{
    if rows.len() > 0 && rows[0].id != id {
        let sub = rows.subrange(1, rows.len() as int);
        lemma_find_row_index(sub, id);
        if find_row(rows, id) is Some {
            let row = find_row(rows, id)->Some_0;
            let j = choose|j: int| 0 <= j < sub.len() && sub[j] == row;
            assert(rows[j + 1] == row);
        }
    }
}

/// When no row carries `id`, the scan finds nothing.
pub(crate) proof fn lemma_find_row_absent(rows: Seq<Row>, id: int)
    requires
        forall|i: int| 0 <= i < rows.len() ==> #[trigger] rows[i].id != id,
    ensures
        find_row(rows, id) is None,
    decreases rows.len(),
{
    if rows.len() > 0 {
        let sub = rows.subrange(1, rows.len() as int);
        assert(forall|i: int| 0 <= i < sub.len() ==> #[trigger] sub[i].id != id) by {
            assert forall|i: int| 0 <= i < sub.len() implies #[trigger] sub[i].id != id by {
                assert(sub[i] == rows[i + 1]);
            }
        }
        lemma_find_row_absent(sub, id);
    }
}

} // verus!
