//! In-memory RIB storage and query engine for a BMP route collector.
//!
//! The crate reconstructs per-router routing state from decoded BGP updates:
//! route-distinguisher handling, per-table prefix storage with structured
//! queries, an attribute-interning cache, and the update-to-mutation
//! translation. Wire framing and socket handling live outside the crate.

pub mod assoc;
pub mod attrs;
pub mod bmp;
pub mod laws;
pub mod net;
pub mod query;
pub mod rd;
pub mod re_match;
pub mod store;
pub mod table;
pub mod translate;
pub mod text;
