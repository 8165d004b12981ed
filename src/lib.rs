//! Rewrites the stored path inside the length-prefixed fields of a torrent
//! client's session-state records, keeping every length marker consistent
//! with the value it declares.
pub mod decimal;
pub mod field;
pub mod laws;
pub mod names;
pub mod rewrite;

pub use names::{has_suffix, is_session_file, is_status_file, plan_file, FilePlan};
pub use rewrite::{rewrite, RewriteError, RewriteResult};
