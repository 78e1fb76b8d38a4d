//! Place-name search and reverse geocoding over GeoNames data.
//!
//! The library decodes the GeoNames tab-separated dumps, builds a searchable
//! index of populated places, answers prefix/fuzzy name queries and nearest
//! place queries, and frames index archives for storage.
pub mod text;
pub mod number;
pub mod records;
pub mod index;
pub mod builder;
pub mod rank;
pub mod engine;
pub mod storage;
pub mod metadata;
pub mod api;
