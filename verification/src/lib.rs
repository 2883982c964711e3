//! Swift exits: a validator-backed fast withdrawal. A request is priced in
//! the matter token, signed by validators, encoded as bytes and committed.
pub mod encoding;
pub mod models;
pub mod natural;
pub mod swift_exits;
pub mod types;
