//! A cursor-consistent sink: ingests cursor-addressed batches of dynamically
//! shaped records into a persisted store and rolls the store back exactly on
//! chain reorganization, in an append-only row mode and a bitemporally
//! versioned entity mode.

pub mod adapter;
pub mod cursor;
pub mod entity;
pub mod error;
pub mod row;
pub mod sink;
pub mod value;

pub use cursor::{Context, Cursor, CursorAction, Finality};
pub use entity::{EntityHistory, EntityStore, EntityUpdate, UpdateOp, Version};
pub use error::{ErrorKind, SinkError, SinkOperation};
pub use row::{Condition, RowRecord, RowStore};
pub use sink::{Sink, SinkOptions};
pub use value::{Field, FieldV, Value, ValueV};
