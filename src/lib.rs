//! Nearest-establishment search: filters rows of business registry sources by
//! activity code and registration status, scores each by postal-code distance
//! from a query, and keeps the nearest records.

pub mod query;
pub mod rank;
pub mod record;
pub mod scan;
pub mod text;
