//! The record type: stored rows, decoded form data, and the entity with its
//! derived fields.
//!
//! Derived fields (`warranty_at`, `warranty_active`, `trashed`) are never
//! stored; they are recomputed from the stored fields every time a row is
//! read back, so the two representations cannot drift apart.

use vstd::prelude::*;
use chrono::Datelike;
use crate::date::Date;
use crate::error::Error;

verus! {

/// A stored row: the base fields of one purchase record, as persisted.
/// `price` is a fixed-point amount in minor currency units.
pub struct Row {
    pub id: i32,
    pub created_at: Date,
    pub serial: Option<String>,
    pub name: String,
    pub url: Option<String>,
    pub shop: String,
    pub warranty: i32,
    pub price: i64,
    pub trashed_at: Option<Date>,
}

/// One purchase record as handed to callers: the base fields plus the
/// derived fields, always recomputed from the base fields.
#[derive(Debug, PartialEq)]
pub struct Entity {
    pub id: Option<i32>,
    pub created_at: Date,
    pub serial: Option<String>,
    pub name: String,
    pub url: Option<String>,
    pub shop: String,
    pub warranty: i32,
    pub price: i64,
    pub trashed_at: Option<Date>,
    /// `created_at` plus `warranty` years.
    pub warranty_at: Date,
    /// Whether the reference date still lies before `warranty_at`. In an
    /// entity decoded from a form this is a placeholder (`false`); it is
    /// recomputed whenever a stored row is read back.
    pub warranty_active: bool,
    /// Whether `trashed_at` is set.
    pub trashed: bool,
}

/// A decoded upload form: plain values only. The optional byte fields carry
/// the raw media uploads; an empty byte vector means "no replacement
/// supplied". `created_at` is a calendar-date string such as `2024-01-10`.
pub struct FormData {
    pub id: Option<i32>,
    pub created_at: String,
    pub serial: Option<String>,
    pub name: String,
    pub url: Option<String>,
    pub shop: String,
    pub warranty: i32,
    pub price: i64,
    pub photo: Option<Vec<u8>>,
    pub invoice: Option<Vec<u8>>,
    pub notice: Option<Vec<u8>>,
}

/// The year, month and day that parsing a calendar-date string yields, if
/// any; a pure function of the characters of the string.
pub uninterp spec fn date_parse_of(s: Seq<char>) -> Option<(int, int, int)>;

/// Relies on `chrono::NaiveDate::parse_from_str` with the `%F`
/// (year-month-day) format: its result depends on the characters of the
/// input alone, and any date it yields is a real proleptic-Gregorian
/// calendar date whose year chrono keeps within `MIN_YEAR ..= MAX_YEAR`.
#[verifier::external_body]
fn parse_date(s: &str) -> (r: Option<Date>)
    ensures
        match r {
            Some(d) => date_parse_of(s@) == Some(
                (d.year as int, d.month as int, d.day as int),
            ) && d.wf(),
            None => date_parse_of(s@) is None,
        },
{
    match chrono::NaiveDate::parse_from_str(s, "%F") {
        Ok(d) => Some(
            Date { year: d.year() as i64, month: d.month() as u8, day: d.day() as u8 },
        ),
        Err(_) => None,
    }
}

impl Row {
    /// The entity this row reads back as, with the derived fields computed
    /// against the reference date `today`.
    pub open spec fn entity_at(self, today: Date) -> Entity {
        let wat = self.created_at.plus_years(self.warranty as int);
        Entity {
            id: Some(self.id),
            created_at: self.created_at,
            serial: self.serial,
            name: self.name,
            url: self.url,
            shop: self.shop,
            warranty: self.warranty,
            price: self.price,
            trashed_at: self.trashed_at,
            warranty_at: wat,
            warranty_active: today.before(wat),
            trashed: self.trashed_at is Some,
        }
    }

    /// Read this row back as an entity, recomputing every derived field.
    pub fn to_entity(&self, today: &Date) -> (e: Entity)
        requires
            crate::date::YEAR_MIN <= self.created_at.year <= crate::date::YEAR_MAX,
        ensures
            e == self.entity_at(*today),
    {
        let wat = self.created_at.add_years(self.warranty);
        Entity {
            id: Some(self.id),
            created_at: self.created_at,
            serial: clone_opt_string(&self.serial),
            name: self.name.clone(),
            url: clone_opt_string(&self.url),
            shop: self.shop.clone(),
            warranty: self.warranty,
            price: self.price,
            trashed_at: self.trashed_at,
            warranty_at: wat,
            warranty_active: today.is_before(&wat),
            trashed: self.trashed_at.is_some(),
        }
    }

    /// An exact copy of this row.
    pub fn duplicate(&self) -> (r: Row)
        ensures
            r == *self,
    {
        Row {
            id: self.id,
            created_at: self.created_at,
            serial: clone_opt_string(&self.serial),
            name: self.name.clone(),
            url: clone_opt_string(&self.url),
            shop: self.shop.clone(),
            warranty: self.warranty,
            price: self.price,
            trashed_at: self.trashed_at,
        }
    }
}

/// An exact copy of an optional string.
fn clone_opt_string(s: &Option<String>) -> (r: Option<String>)
    ensures
        r == *s,
{
    match s {
        Some(v) => Some(v.clone()),
        None => None,
    }
}

impl Entity {
    /// Decode a form into an entity. Fails with `Error::Validation` exactly
    /// when `created_at` is not a calendar date. The trash state is never
    /// taken from a form: `trashed_at` is always cleared. `warranty_active`
    /// is a placeholder until the record is read back from the store.
    pub fn from(data: &FormData) -> (r: Result<Entity, Error>)
        ensures
            r is Ok <==> date_parse_of(data.created_at@) is Some,
            r matches Ok(e) ==> {
                &&& date_parse_of(data.created_at@) == Some(
                    (
                        e.created_at.year as int,
                        e.created_at.month as int,
                        e.created_at.day as int,
                    ),
                )
                &&& e.created_at.wf()
                &&& e.id == data.id
                &&& e.serial == data.serial
                &&& e.name == data.name
                &&& e.url == data.url
                &&& e.shop == data.shop
                &&& e.warranty == data.warranty
                &&& e.price == data.price
                &&& e.trashed_at is None
                &&& e.warranty_at == e.created_at.plus_years(data.warranty as int)
                &&& e.warranty_active == false
                &&& e.trashed == false
            },
            r matches Err(er) ==> er == Error::Validation,
    {
        let d = match parse_date(data.created_at.as_str()) {
            Some(d) => d,
            None => {
                return Err(Error::Validation);
            },
        };
        Ok(
            Entity {
                id: data.id,
                created_at: d,
                serial: clone_opt_string(&data.serial),
                name: data.name.clone(),
                url: clone_opt_string(&data.url),
                shop: data.shop.clone(),
                warranty: data.warranty,
                price: data.price,
                trashed_at: None,
                warranty_at: d.add_years(data.warranty),
                warranty_active: false,
                trashed: false,
            },
        )
    }
}

} // verus!
