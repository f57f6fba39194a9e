//! A verified core for a sharded, replicated microblogging service.
//!
//! The crate is layered like the running system.  [`storage`] holds the
//! single-node key-value store each back-end runs, specified pointwise
//! over its cells, lists, and clock.  [`bins`] multiplexes an unbounded
//! set of logically isolated bins onto a ring of such stores by escaped
//! key prefixes, with replicated writes and read failover.  [`keeper`]
//! holds the background pass that keeps the ring's clocks coarsely
//! synchronized, and the keeper's membership and lock-lease decisions.
//! [`front`] is the stateless translator from user operations to bin
//! calls: record formats with proved round trips, the follow-log fold,
//! and garbage collection of post logs.  [`ref_impl`] is the single-node
//! reference server the web front-end runs against.  [`colon`] carries
//! the escaping that keeps bins disjoint, [`num`] the decimal encoding
//! records use, and [`addr`] and [`config`] the address and ring
//! configuration helpers.  [`strutil`] holds the string primitives the
//! contracts speak in: prefixes, suffixes, and lexicographic order.

pub mod addr;
pub mod bins;
pub mod colon;
pub mod config;
pub mod err;
pub mod front;
pub mod keeper;
pub mod num;
pub mod ref_impl;
pub mod storage;
pub mod strutil;
pub mod trib;
