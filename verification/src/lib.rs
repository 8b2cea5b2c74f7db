//! A reader for the fixed-column MPS linear-programming file format.
//!
//! The input is a sequence of text lines.  Comment text (from `*` to the end
//! of the line) and blank lines are dropped, the remaining lines must be
//! printable ASCII, and the cleaned lines are interpreted section by section
//! (NAME, ROWS, COLUMNS, RHS, BOUNDS) into a `Problem` value.

pub mod error;
pub mod fields;
pub mod model;
pub mod semantics;
pub mod numtext;
pub mod reader;
pub mod text;

pub use error::MpsError;
pub use error::Section;
pub use model::ColumnData;
pub use model::Objective;
pub use model::Problem;
pub use model::RowDef;
pub use model::RowType;
pub use reader::parse_fixed;
pub use reader::MpsReader;
