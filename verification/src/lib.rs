//! A tag-relation graph engine.
//!
//! Each *domain* (one dataset) maps tag names to their related tags, ranked by
//! a co-occurrence count. The engine answers top-N neighbour queries and
//! cheapest-path queries inside one domain, and merges all domains into a
//! single cross-domain model of galaxies (domains), planets (tags) and
//! deduplicated undirected connections (edges).

pub mod data;
pub mod universe;
