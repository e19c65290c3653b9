//! A transactional key-value storage layer.
//!
//! The crate unifies interchangeable storage backends behind one
//! transactional contract: a [`ds::Datastore`] owns one configured backend
//! and opens [`tx::Transaction`] values, each of which works against its own
//! consistent snapshot, stages writes locally, and either commits them
//! atomically (with optimistic conflict detection) or cancels them.

pub mod backend;
pub mod ds;
pub mod endpoint;
pub mod err;
pub mod key;
pub mod laws;
pub mod sql;
pub mod store;
pub mod tx;

