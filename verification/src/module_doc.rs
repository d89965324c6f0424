//! Module documentation units: what a language adapter extracts from one
//! annotated module, before it is laid onto the directory tree.
use vstd::prelude::*;
use std::collections::HashMap;

use crate::annotation::{HealthStatus, PatternStatus};
use crate::ir::C4Level;

verus! {

/// A runtime dependency between modules.
#[derive(Debug)]
pub struct Relationship {
    pub target: String,
    pub label: String,
    pub protocol: String,
}

pub struct DocRelationshipView {
    pub target: Seq<char>,
    pub label: Seq<char>,
    pub protocol: Seq<char>,
}

impl View for Relationship {
    type V = DocRelationshipView;

    open spec fn view(&self) -> DocRelationshipView {
        DocRelationshipView { target: self.target@, label: self.label@, protocol: self.protocol@ }
    }
}

pub open spec fn doc_rels_view(s: Seq<Relationship>) -> Seq<DocRelationshipView> {
    s.map_values(|r: Relationship| r@)
}

/// A file entry from the module's file table.
#[derive(Debug)]
pub struct FileEntry {
    pub name: String,
    pub pattern: String,
    pub pattern_status: PatternStatus,
    pub purpose: String,
    pub health: HealthStatus,
    pub extra: HashMap<String, String>,
}

pub struct FileEntryView {
    pub name: Seq<char>,
    pub pattern: Seq<char>,
    pub pattern_status: PatternStatus,
    pub purpose: Seq<char>,
    pub health: HealthStatus,
    pub extra: Map<String, String>,
}

impl View for FileEntry {
    type V = FileEntryView;

    open spec fn view(&self) -> FileEntryView {
        FileEntryView {
            name: self.name@,
            pattern: self.pattern@,
            pattern_status: self.pattern_status,
            purpose: self.purpose@,
            health: self.health,
            extra: self.extra@,
        }
    }
}

/// A code-level element (`@c4 code`): a curated struct/enum/trait/fn that is
/// architecturally load-bearing enough to appear in a diagram.
#[derive(Debug)]
pub struct CodeElement {
    pub name: String,
    /// `struct` | `enum` | `trait` | `fn`
    pub kind: String,
    pub description: String,
    pub relationships: Vec<Relationship>,
}

pub struct DocCodeElementView {
    pub name: Seq<char>,
    pub kind: Seq<char>,
    pub description: Seq<char>,
    pub relationships: Seq<DocRelationshipView>,
}

impl View for CodeElement {
    type V = DocCodeElementView;

    open spec fn view(&self) -> DocCodeElementView {
        DocCodeElementView {
            name: self.name@,
            kind: self.kind@,
            description: self.description@,
            relationships: doc_rels_view(self.relationships@),
        }
    }
}

/// A parsed module documentation unit: the contract between language
/// adapters and the core generator.
#[derive(Debug)]
pub struct ModuleDoc {
    pub mod_path: String,
    pub content: String,
    pub source_file: String,
    pub c4_level: C4Level,
    pub pattern: String,
    pub pattern_status: PatternStatus,
    pub description: String,
    pub parent_container: Option<String>,
    pub relationships: Vec<Relationship>,
    pub files: Vec<FileEntry>,
    pub code_elements: Vec<CodeElement>,
    /// Explicit architectural layer (`@c4 layer`).
    pub layer: Option<String>,
}

pub struct ModuleDocView {
    pub mod_path: Seq<char>,
    pub content: Seq<char>,
    pub source_file: Seq<char>,
    pub c4_level: C4Level,
    pub pattern: Seq<char>,
    pub pattern_status: PatternStatus,
    pub description: Seq<char>,
    pub parent_container: Option<Seq<char>>,
    pub relationships: Seq<DocRelationshipView>,
    pub files: Seq<FileEntryView>,
    pub code_elements: Seq<DocCodeElementView>,
    pub layer: Option<Seq<char>>,
}

impl View for ModuleDoc {
    type V = ModuleDocView;

    open spec fn view(&self) -> ModuleDocView {
        ModuleDocView {
            mod_path: self.mod_path@,
            content: self.content@,
            source_file: self.source_file@,
            c4_level: self.c4_level,
            pattern: self.pattern@,
            pattern_status: self.pattern_status,
            description: self.description@,
            parent_container: crate::ir::opt_view(self.parent_container),
            relationships: doc_rels_view(self.relationships@),
            files: self.files@.map_values(|f: FileEntry| f@),
            code_elements: self.code_elements@.map_values(|c: CodeElement| c@),
            layer: crate::ir::opt_view(self.layer),
        }
    }
}

pub open spec fn docs_view(s: Seq<ModuleDoc>) -> Seq<ModuleDocView> {
    s.map_values(|d: ModuleDoc| d@)
}

} // verus!
