//! Verified core of the Aurora talk-table, 2DA and palette editor.
pub mod bytes;
pub mod clipboard;
pub mod commands;
pub mod cliptext;
pub mod cliptext_laws;
pub mod diff;
pub mod editing;
pub mod itp;
pub mod model;
pub mod search;
pub mod numtext;
pub mod palette;
pub mod selection;
pub mod session;
pub mod state;
pub mod text;
pub mod tlk;
pub mod tlk_laws;
pub mod twoda;
pub mod twoda_laws;
pub mod twoda_text_laws;
