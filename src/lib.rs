//! Splits one HTML document into a sequence of page documents, each holding a
//! slice of a marked container's children, with navigation controls and page
//! metadata rewritten per page and restored afterwards.

pub mod errors;
pub mod text;
pub mod paths;
pub mod dom;
pub mod ledger;
pub mod page;
pub mod state;
