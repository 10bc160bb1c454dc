//! Parsing of the Cypher System Reference Document text into structured records.

pub mod pattern;
pub mod text;
pub mod translit;
pub mod fields;
pub mod tables;
pub mod order;
pub mod ability;
pub mod flavor;
pub mod focus;
pub mod types;
pub mod cyphers;
pub mod artifact;
pub mod creature;
pub mod descriptor;
pub mod equipment;
