//! A verified reading-list manager: named entries with a url, an optional
//! author, a creation time and a set of topics, kept in a relational store
//! with unique names and urls, many-to-many entry-topic links and cascading
//! deletes. The operations — add, edit, remove, query with filters and
//! sorting, import and export — are specified by transition functions over
//! the store model and proved against them; the laws the list obeys are
//! stated and proved in `laws`.

pub mod config;
pub mod db;
pub mod entry;
pub mod errors;
pub mod laws;
pub mod rlist;
pub mod store;
pub mod strutil;
pub mod utils;
