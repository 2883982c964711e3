//! Stored models.
pub mod swift_exit;
