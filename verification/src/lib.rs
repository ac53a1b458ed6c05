//! A watch list for films and series: list files with unique, sorted lines,
//! name matching against a catalog, and the choice of something not yet seen.

pub mod dispatch;
pub mod entries;
pub mod matcher;
pub mod message;
pub mod recommender;
pub mod store;
pub mod text;
