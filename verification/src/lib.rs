//! A personal session log: notes with soft delete, restore and purge, and
//! the rules by which a phone copy and the PC copy agree on them.
pub mod error;
pub mod text;
pub mod time;
pub mod model;
pub mod json;
pub mod order;
pub mod store;
pub mod sync;
pub mod laws;
pub mod docs;
