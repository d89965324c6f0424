//! Architecture documentation compiler: the intermediate representation of a
//! scanned directory tree, and the verified transformations over it.
use vstd::prelude::*;

pub mod annotation;
pub mod cargo_metadata;
pub mod cargo_modules;
pub mod commands;
pub mod ir;
pub mod ir_builder;
pub mod merge;
pub mod module_doc;
pub mod paths;
pub mod plantuml;
pub mod seq_facts;
pub mod text;
pub mod tree;
pub mod walker;

verus! {
} // verus!
