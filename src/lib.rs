//! An in-memory faceted query engine over typed tables: indexed lookup of
//! rows by column values, live selections with aggregates, and the values
//! still reachable in any column of a set of tables given a selection.
pub mod text;
pub mod value;
pub mod table;
pub mod context;
pub mod model;
pub mod facet;
pub mod expression;
pub mod candidates;
pub mod catalog;
pub mod join;
pub mod csv;
pub mod laws;

pub use candidates::BetterSelection;
pub use context::DataContext;
pub use expression::{Expression, ExpressionTokenizer, ParseErrorKind, ParseExpressionError};
pub use facet::ModelContext;
pub use model::Model;
pub use table::{ArityError, Record, Selection, Table};
pub use value::DataType;
