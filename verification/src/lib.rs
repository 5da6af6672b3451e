//! Guarding `.resx` resource files against mojibake and encoding damage.

pub mod cli;
pub mod encoding;
pub mod entities;
pub mod error;
pub mod laws;
pub mod markup;
pub mod mojibake;
pub mod reapply;
pub mod report;
pub mod resx;
pub mod text;
pub mod ui;
pub mod upsert;
