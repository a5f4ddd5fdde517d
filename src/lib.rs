//! Moving relational data between a SQL database and a document store,
//! guided by a declarative model of tables and columns.
//!
//! - `catalog`, `model`: columns, foreign keys, tables and models, with lookup by name.
//! - `resolver`: the two orders of tables along their foreign keys.
//! - `reconcile`: checking a declared model against the live one, and filling it.
//! - `query`: SQL text for extracting and inserting rows.
//! - `value`, `parse`, `cells`: typed cell values, their text, and conversion
//!   from the source driver's cells.
//! - `service`: the per-table work of the export and import flows.
//! - `names`: first-match lookup shared by the above.

pub mod catalog;
pub mod cells;
pub mod model;
pub mod names;
pub mod parse;
pub mod query;
pub mod reconcile;
pub mod resolver;
pub mod service;
pub mod value;
