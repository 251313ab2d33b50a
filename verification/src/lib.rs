//! An ID reservation and conflict-resolution engine for a content-hosting
//! community: contributors claim numeric id ranges ahead of publication, and
//! the engine validates, grants, splits, compacts, and queries those
//! reservations against already-published content.
//!
//! The engine is pure: it works on in-memory snapshots of the reservation
//! store and of the published-content index, and every operation is verified.
//! The surrounding application performs the actual network and database
//! round trips and hands the engine plain values.

pub mod align;
pub mod compact;
pub mod decision;
pub mod finder;
pub mod grant;
pub mod idset;
pub mod mutate;
pub mod quota;
pub mod rowset;
pub mod runs;
pub mod store;
pub mod types;
pub mod validator;
