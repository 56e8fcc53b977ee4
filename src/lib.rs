//! Deterministic A/B bucket assignment for clients identified by a cookie,
//! together with the text decisions of the "enrich" content rewrite.
pub mod text;
pub mod cookie;
pub mod identity;
pub mod weights;
pub mod assign;
pub mod enrich;
