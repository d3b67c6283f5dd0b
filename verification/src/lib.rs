//! A headless rich-text composer model. A document tree is built from
//! an external parser's callbacks through a verified construction
//! arena, serialized into a flat UTF-16 text that defines the
//! coordinate space of every selection, and edited by splicing that
//! text and rebuilding the tree.

pub mod builder;
pub mod composer_model;
pub mod location;
pub mod node;
pub mod parse;
pub mod serializer;
pub mod sink;
pub mod update;

pub use location::Location;
