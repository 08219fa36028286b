//! Persistence-independent core of a personal knowledge base: a relational
//! note store with a tag index, a wikilink graph, a text search index, a
//! trash lifecycle and an SM-2 review scheduler.
pub mod cards;
pub mod doc;
pub mod graph;
mod ids;
pub mod links;
pub mod lists;
pub mod model;
pub mod notes;
pub mod order;
pub mod related;
pub mod review;
pub mod rows;
pub mod search;
pub mod store;
pub mod tags;
pub mod text;
pub mod tokens;
