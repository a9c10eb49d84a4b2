//! An authenticated, graph-structured record store.
//!
//! Clients register and log in with a password-authenticated key exchange, trade the sealed
//! refresh token they receive for short-lived tokens bound to an action and a group, and use
//! those to write and query typed parent/child entities. Every write and read is checked
//! against group access rules kept beside the data, and every request and response is a
//! fixed-layout byte string.
//!
//! - [`octets`]: byte-string helpers: big-endian integers, copies, constant-time equality.
//! - [`codec`]: the request frames, each with its parse and its round trip.
//! - [`token`]: minting and verifying MAC-authenticated tokens.
//! - [`keyspace`], [`store`]: ordered keyspaces and the layouts of the store's entries.
//! - [`query`], [`wire`]: query results, the scan that fills them, and their wire encoding.
//! - [`server`]: the operations, each with the outcome that its contract states.
//! - [`dispatch`]: routing of a request by its leading action byte.
//! - [`laws`]: laws that relate several operations or several calls.
//! - [`registration`], [`login`]: the PAKE steps, server side and client side.
//! - [`client`]: the request frames that carry the client's PAKE steps.
//! - [`suite`]: the cipher suite and the outside cryptography, randomness and clock.
//! - [`page`]: the front end's index page.
pub mod client;
pub mod codec;
pub mod dispatch;
pub mod error;
pub mod keyspace;
pub mod laws;
pub mod login;
pub mod octets;
pub mod page;
pub mod query;
pub mod registration;
pub mod server;
pub mod store;
pub mod suite;
pub mod token;
pub mod wire;
