//! A typed, sparse spreadsheet store whose cells hold either literals or
//! references ("lookups") to other cells, with cycle prevention on write and
//! chain resolution on read.

pub mod chain;
pub mod db;
pub mod engine;
pub mod laws;
pub mod lookup_syntax;
pub mod sheet;
pub mod table;

pub use db::{Db, SheetId, SheetIdError};
pub use engine::{Sheet, SheetError};
pub use sheet::{
    Cell, CellValue, LookupCellValue, Schema, SchemaColumn, SchemaColumnKind, SheetContent,
    SheetContentColumn,
};
pub use table::CellAddr;
