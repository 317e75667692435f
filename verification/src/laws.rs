//! What the operations of the library promise, stated over what goes in and what
//! comes out.

pub mod archive;
pub mod log;
pub mod merging;
pub mod notes;
pub mod ranking;
pub mod replies;
pub mod search;
pub mod semantic;
pub mod settings;
pub mod short_term;
pub mod text;
pub mod views;
pub mod working;
pub mod workspace;
