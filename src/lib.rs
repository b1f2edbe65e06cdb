//! Entity-component storage: numeric entities, one dense store of optional
//! values per component kind, and joins across two stores.
//!
//! A manager holds values of one type `C` (an application usually makes it an
//! enum over its component types) and tells component types apart by a `u64`
//! kind token: each store carries the token of the kind it holds, and every
//! operation names the kind it works on.
pub mod components;
pub mod store;
pub mod world_manager;
