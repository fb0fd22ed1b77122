//! A purchase-tracking library: records with derived warranty fields, a
//! filterable and pageable repository with a reversible trash state, and a
//! media store that correlates each record with up to three named artifacts.

pub mod database;
pub mod date;
pub mod error;
pub mod expense;
pub mod filter;
pub mod laws;
pub mod lex;
pub mod media;
pub mod service;

pub use database::{Database, Page};
pub use date::Date;
pub use error::Error;
pub use expense::{Entity, FormData, Row};
pub use filter::{Predicate, Where};
pub use media::{media_path, MediaKind, MediaStore};
pub use service::{hard_delete, save};
