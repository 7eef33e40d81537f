//! The core rules of a source-code index, as verified functions over plain
//! in-memory rows.
#![allow(unused_imports)]

pub mod builds;
pub mod candidates;
pub mod checkouts;
pub mod chunks;
pub mod classes;
pub mod clones;
pub mod content;
pub mod coupling;
pub mod digest;
pub mod dispatch;
pub mod embedding;
pub mod files;
pub mod fillers;
pub mod filters;
pub mod findings;
pub mod fingerprint;
pub mod fixtures;
pub mod frequency;
pub mod graph;
pub mod groups;
pub mod hash;
pub mod history;
pub mod ids;
pub mod imports;
pub mod index;
pub mod isolation;
pub mod items;
pub mod kinship;
pub mod lcs;
pub mod lexer;
pub mod likeness;
pub mod lookup;
pub mod measures;
pub mod memory;
pub mod order;
pub mod paths;
pub mod refine;
pub mod repositories;
pub mod resolution;
pub mod schema;
pub mod scoped;
pub mod scripts;
pub mod search;
pub mod shapes;
pub mod soundness;
pub mod source;
pub mod syntax;
pub mod text;
pub mod together;
pub mod trace;
pub mod tree;
pub mod utf8;
pub mod wiring;
pub mod words;
