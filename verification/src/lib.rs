//! Hybrid retrieval for an image corpus: two ranked result sets, one from a
//! dense vector search and one from a lexical search, are brought onto a common
//! scale, blended under a tunable weight, filtered by content policy and cut to
//! the requested size.
//!
//! All scores are fixed-point numbers counted in millionths, so every formula
//! in this crate is exact integer arithmetic with a stated rounding.
//!
//! - [`scoring`] normalises the two signals and fuses them; [`ranking`] says
//!   what a ranking is and [`score_map`] holds a signal.
//! - [`filter`] decides which names a search may show; [`pattern`] is its
//!   gate to the `regex` crate.
//! - [`search`] puts a search together: what to ask of the backends, in which
//!   order, and what to answer from their replies.
//! - [`etag`] makes the cache key of a query.
//! - [`providers`] and [`turbopuffer`] hold what the backends send and what
//!   their failures mean; [`config`] holds the settings of the service.
//! - [`text`] holds the string routines that the others share.
//!
//! Nothing here touches the network: the caller makes the requests that
//! [`search::HybridSearch`] asks for and hands back the replies.

pub mod config;
pub mod etag;
pub mod filter;
pub mod pattern;
pub mod providers;
pub mod ranking;
pub mod score_map;
pub mod scoring;
pub mod search;
pub mod text;
pub mod turbopuffer;
