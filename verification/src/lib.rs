//! Client-side data layer of a payment-gated, content-addressed storage network.
//!
//! Payloads are split into bounded, self-keyed encrypted chunks described by a
//! data map; chunks are identified by the digest of their bytes, paid for with
//! the cheapest live quote and reassembled from their addresses alone.
//!
//! - [`address`]: content addresses and their text.
//! - [`cipher`], [`data_map`], [`codec`]: the encoding of a payload and its
//!   decoding; [`integrity`]: what decoding answers to a faulty store.
//! - [`quote`], [`tokens`]: which quote is taken and what a write costs.
//! - [`archive`], [`vault`], [`user_data`]: directory trees and per-user records.
//! - [`store`], [`network`], [`writer`], [`reader`], [`client`]: a network in
//!   memory and the operations of a session on it.
//! - [`retry`], [`fanout`], [`peers`]: the decisions of a session that reaches
//!   its network through requests.
//! - [`launchpad`]: the decisions of the terminal application.
//! - [`laws`]: what holds of the operations taken together.

pub mod address;
pub mod archive;
pub mod cipher;
pub mod client;
pub mod codec;
pub mod data_map;
pub mod error;
pub mod fanout;
pub mod integrity;
pub mod launchpad;
pub mod laws;
pub mod network;
pub mod peers;
pub mod quote;
pub mod reader;
pub mod retry;
pub mod store;
pub mod tokens;
pub mod user_data;
pub mod vault;
pub mod writer;
