//! A fuzzy launcher's core: the searchable state, the line filters and
//! rankings, the rules for desktop entries and files, the cancellation of
//! background work and the decisions of the user interface.

pub mod state;
pub mod worker;
pub mod ranking;
pub mod filter;
pub mod applications;
pub mod text;
pub mod files;
pub mod ui;
