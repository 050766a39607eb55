//! The decisions of a contact-listing endpoint, verified.
//!
//! A server fetches the rows of its contacts table and hands the outcome to
//! this library, which says what is to be logged and what is to be answered:
//! `200` with the rows as a JSON array, or `500` with an empty body. Nothing
//! in here performs I/O.

pub mod contact;
pub mod encoding;
pub mod endpoint;
pub mod json;
pub mod number;
pub mod unique;

pub use crate::contact::{to_json, Contact};
pub use crate::endpoint::{
    get_contacts, query_contacts, Level, LogEntry, MediaType, QueryFailed, QueryReport, Response,
};
pub use crate::number::Decimal;
