//! Typed query/filter options for a container-management daemon's HTTP API:
//! filter encoding, an options accumulator that folds repeated filter terms
//! into one JSON-encoded parameter, URL query serialization, and the framing
//! layer of the daemon's event stream.
#![verifier::loop_isolation(false)]

pub mod accum;
pub mod filter;
pub mod opts;
pub mod params;
pub mod query;
pub mod secret;
pub mod stream;
