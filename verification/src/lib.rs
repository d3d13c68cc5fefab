//! Compact forms of what database clients print.
//!
//! Tables drawn with ASCII borders are stripped to tab-separated rows, and the
//! rest of what `mysql` prints is passed through or, where it is a timing
//! footer, left out. A text is modelled by the sequence of its characters, and
//! every function states its result as a function of that sequence.
//!
//! - [`ascii_table`] strips a table of any dialect.
//! - [`mysql_cmd`] filters the output of `mysql` and redacts its arguments.
//! - [`text`], [`bytes`] and [`patterns`] hold what both are built on.
//! - [`drawing`], [`table_reading`] and the modules whose names end in `laws`
//!   state what holds of all of them together.
pub mod ascii_table;
pub mod bytes;
pub mod cell_laws;
pub mod drawing;
pub mod listing_laws;
pub mod mysql_cmd;
pub mod mysql_laws;
pub mod pattern_laws;
pub mod patterns;
pub mod table_laws;
pub mod table_reading;
pub mod text;
pub mod text_laws;
pub mod truncate;
