//! The two flows that correlate the repository with the media store.
//!
//! Saving a form persists the row first — the store must assign the id
//! before any media is written — and only then writes each supplied
//! artifact. Hard deletion removes the row first; only when a row was
//! actually removed is its media cleaned up. Trashing never touches media.

use vstd::prelude::*;
use crate::database::{find_row, insert_sorted_spec, remove_id, Database};
use crate::date::Date;
use crate::error::Error;
use crate::expense::{date_parse_of, Entity, FormData, Row};
use crate::media::{MediaKind, MediaStore};

verus! {

/// The date a form's `created_at` text parses to.
pub open spec fn parsed_date(s: Seq<char>) -> Date {
    let ymd = date_parse_of(s)->Some_0;
    Date { year: ymd.0 as i64, month: ymd.1 as u8, day: ymd.2 as u8 }
}

/// The row a form is stored as, under a given id and trash state.
pub open spec fn form_row(data: FormData, id: i32, trashed_at: Option<Date>) -> Row {
    Row {
        id,
        created_at: parsed_date(data.created_at@),
        serial: data.serial,
        name: data.name,
        url: data.url,
        shop: data.shop,
        warranty: data.warranty,
        price: data.price,
        trashed_at,
    }
}

/// One conditional media write: empty or absent bytes change nothing.
pub open spec fn write_step(
    m: Map<(int, MediaKind), Seq<u8>>,
    id: int,
    kind: MediaKind,
    bytes: Option<Vec<u8>>,
) -> Map<(int, MediaKind), Seq<u8>> {
    match bytes {
        Some(b) => if b@.len() > 0 {
            m.insert((id, kind), b@)
        } else {
            m
        },
        None => m,
    }
}

/// The media state after the three conditional writes of a saved form, in
/// order: photo, invoice, notice.
pub open spec fn saved_media(
    m: Map<(int, MediaKind), Seq<u8>>,
    id: int,
    data: FormData,
) -> Map<(int, MediaKind), Seq<u8>> {
    write_step(
        write_step(write_step(m, id, MediaKind::Photo, data.photo), id, MediaKind::Invoice, data.invoice),
        id,
        MediaKind::Notice,
        data.notice,
    )
}

/// Whether a form passes validation: the date text parses, and name and
/// shop are non-empty.
pub open spec fn form_valid(data: FormData) -> bool {
    &&& date_parse_of(data.created_at@) is Some
    &&& data.name@.len() > 0
    &&& data.shop@.len() > 0
}

/// Save a decoded form: update the record carrying `id` when `id` is
/// positive, create a new record otherwise, then write each supplied media
/// artifact under the persisted id. The row is persisted before any media;
/// on a validation failure, or when the record to update is gone, nothing
/// changes.
pub fn save(
    db: &mut Database,
    media: &mut MediaStore,
    id: i32,
    data: &FormData,
    today: &Date,
) -> (r: Result<Option<Entity>, Error>)
    requires
        old(db).wf(),
        old(media).wf(),
    ensures
        final(db).wf(),
        final(media).wf(),
        !form_valid(*data) ==> r == Err::<Option<Entity>, Error>(Error::Validation) && *final(db)
            == *old(db) && *final(media) == *old(media),
        form_valid(*data) && id > 0 ==> match find_row(old(db).rows@, id as int) {
            Some(row) => {
                let nr = form_row(*data, id, row.trashed_at);
                &&& final(db).rows@ == insert_sorted_spec(
                    remove_id(old(db).rows@, id as int),
                    nr,
                )
                &&& final(db).next_id == old(db).next_id
                &&& r == Ok::<Option<Entity>, Error>(Some(nr.entity_at(*today)))
                &&& final(media).contents() == saved_media(
                    old(media).contents(),
                    id as int,
                    *data,
                )
            },
            None => r == Ok::<Option<Entity>, Error>(None) && *final(db) == *old(db)
                && *final(media) == *old(media),
        },
        form_valid(*data) && id <= 0 ==> if old(db).next_id < i32::MAX {
            let nr = form_row(*data, old(db).next_id, None);
            &&& final(db).rows@ == insert_sorted_spec(old(db).rows@, nr)
            &&& final(db).next_id == old(db).next_id + 1
            &&& r == Ok::<Option<Entity>, Error>(Some(nr.entity_at(*today)))
            &&& final(media).contents() == saved_media(
                old(media).contents(),
                old(db).next_id as int,
                *data,
            )
        } else {
            r == Err::<Option<Entity>, Error>(Error::Storage) && *final(db) == *old(db)
                && *final(media) == *old(media)
        },
{
    let entity = match Entity::from(data) {
        Ok(e) => e,
        Err(e) => {
            return Err(e);
        },
    };
    proof {
        assert(entity.created_at == parsed_date(data.created_at@));
    }
    let saved = if id > 0 {
        match db.update(id, entity, today) {
            Ok(Some(e)) => e,
            Ok(None) => {
                return Ok(None);
            },
            Err(e) => {
                return Err(e);
            },
        }
    } else {
        match db.create(entity, today) {
            Ok(e) => e,
            Err(e) => {
                return Err(e);
            },
        }
    };
    // the store assigned an id before any media is written
    let rid = match saved.id {
        Some(rid) => rid,
        None => unreached(),
    };
    match &data.photo {
        Some(b) => media.write(rid, MediaKind::Photo, b.as_slice()),
        None => (),
    }
    match &data.invoice {
        Some(b) => media.write(rid, MediaKind::Invoice, b.as_slice()),
        None => (),
    }
    match &data.notice {
        Some(b) => media.write(rid, MediaKind::Notice, b.as_slice()),
        None => (),
    }
    Ok(Some(saved))
}

/// Permanently remove one record and, when a row was actually removed, all
/// of its media. Afterwards the id resolves to nothing, and — when the
/// record existed — no artifact of any kind remains under it. Media of
/// every other record is untouched.
pub fn hard_delete(db: &mut Database, media: &mut MediaStore, id: i32, today: &Date) -> (r:
    Option<Entity>)
    requires
        old(db).wf(),
        old(media).wf(),
    ensures
        final(db).wf(),
        final(media).wf(),
        final(db).rows@ == remove_id(old(db).rows@, id as int),
        find_row(final(db).rows@, id as int) is None,
        match find_row(old(db).rows@, id as int) {
            Some(row) => {
                &&& r == Some(row.entity_at(*today))
                &&& forall|kind: MediaKind|
                    !final(media).contents().contains_key((id as int, kind))
                &&& forall|k: (int, MediaKind)|
                    #![trigger final(media).contents().contains_key(k)]
                    final(media).contents().contains_key(k) == (old(
                        media,
                    ).contents().contains_key(k) && k.0 != id as int)
                &&& forall|k: (int, MediaKind)|
                    #![trigger final(media).contents()[k]]
                    final(media).contents().contains_key(k) ==> final(media).contents()[k]
                        == old(media).contents()[k]
            },
            None => r is None && *final(db) == *old(db) && *final(media) == *old(media),
        },
{
    match db.delete(id, today) {
        Some(e) => {
            media.delete_all(id);
            Some(e)
        },
        None => None,
    }
}

} // verus!
