//! In-memory model of a time-series data point: a measurement record with a
//! key, an optional timestamp, a mapping of typed fields and a mapping of
//! string tags, both kept in ascending lexicographic order of their names.

pub mod lex;
pub mod measurement;
pub mod ordmap;
