//! A dependency-tracked spreadsheet engine: an in-memory cell store, the
//! analysis of expressions into cell dependencies, and the propagation of
//! changes to every cell that reads a changed one.

pub mod cell;
pub mod clock;
pub mod consistency;
pub mod expression;
pub mod laws;
pub mod model;
pub mod propagation;
pub mod reference;
pub mod session;
pub mod spreadsheet;

pub use cell::{BoundValue, CellExprEvalError, CellIdentifier, CellValue};
pub use spreadsheet::{CellInfo, Evaluation, Spreadsheet};
