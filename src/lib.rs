//! Public transport routes and areas out of OpenStreetMap extracts: tag
//! filtering, the three-pass resolution of relations, ways and nodes, and the
//! healing of way fragments into line-strings and rings.

pub mod parse_status;
pub mod geometry;
pub mod filter;
pub mod relation;
pub mod store;
pub mod resolver;
pub mod parser;
