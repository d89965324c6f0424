//! The architecture IR: a nested directory tree carrying structure, strategy
//! and health, and the queries over it.
use vstd::prelude::*;
use std::collections::HashMap;

use crate::annotation::{HealthStatus, PatternStatus};
use crate::text::{
    after_last, chars_after_last, chars_of, chars_trim, count_all, count_keys, count_keys_exec,
    key_views, str_eq, string_from_chars, trim,
};

verus! {

broadcast use vstd::string::group_string_axioms;

// ---------------------------------------------------------------------------
// C4 level
// ---------------------------------------------------------------------------

/// C4 architecture level for a module.
#[derive(Debug, Clone, Copy, PartialEq, Eq, Structural)]
pub enum C4Level {
    System,
    Container,
    Component,
    Unknown,
}

/// What std's `str::to_lowercase` returns for a string (full Unicode case
/// mapping).
pub uninterp spec fn lowercase_of(s: Seq<char>) -> Seq<char>;

pub open spec fn is_ascii_chars(s: Seq<char>) -> bool {
    forall|i: int| 0 <= i < s.len() ==> (s[i] as int) < 128
}

pub open spec fn ascii_lower_char(c: char) -> char {
    if 65 <= (c as int) <= 90 {
        ((c as int) + 32) as char
    } else {
        c
    }
}

/// Lower-cases a string with std's `str::to_lowercase`. For an ASCII string
/// std documents the result as the ASCII lower-casing of each character; for
/// other strings the result is only named, not stated.
#[verifier::external_body]
fn to_lowercase(s: &str) -> (r: String)
    ensures
        r@ == lowercase_of(s@),
        is_ascii_chars(s@) ==> r@ == s@.map_values(|c: char| ascii_lower_char(c)),
{
    s.to_lowercase()
}

impl C4Level {
    pub open spec fn label_spec(self) -> Seq<char> {
        match self {
            C4Level::System => "system"@,
            C4Level::Container => "container"@,
            C4Level::Component => "component"@,
            C4Level::Unknown => "unknown"@,
        }
    }

    /// The lower-case name of the level, as it is displayed.
    pub fn label(&self) -> (r: &'static str)
        ensures
            r@ == self.label_spec(),
    {
        match self {
            C4Level::System => "system",
            C4Level::Container => "container",
            C4Level::Component => "component",
            C4Level::Unknown => "unknown",
        }
    }

    pub open spec fn parse_spec(s: Seq<char>) -> C4Level {
        let l = lowercase_of(trim(s));
        if l == "container"@ {
            C4Level::Container
        } else if l == "component"@ {
            C4Level::Component
        } else {
            C4Level::Unknown
        }
    }

    /// `parse_spec` for text whose trimmed form is ASCII: lower-cased the
    /// ASCII way.
    pub open spec fn ascii_parse_spec(s: Seq<char>) -> C4Level {
        let l = trim(s).map_values(|c: char| ascii_lower_char(c));
        if l == "container"@ {
            C4Level::Container
        } else if l == "component"@ {
            C4Level::Component
        } else {
            C4Level::Unknown
        }
    }

    /// Parses a level name, ignoring surrounding whitespace and case. Only
    /// `container` and `component` are recognised; anything else is `Unknown`.
    pub fn parse(s: &str) -> (r: Self)
        ensures
            r == Self::parse_spec(s@),
            is_ascii_chars(trim(s@)) ==> r == Self::ascii_parse_spec(s@),
    {
        let trimmed = string_from_chars(chars_trim(&chars_of(s)).as_slice());
        let lower = to_lowercase(trimmed.as_str());
        if str_eq(lower.as_str(), "container") {
            C4Level::Container
        } else if str_eq(lower.as_str(), "component") {
            C4Level::Component
        } else {
            C4Level::Unknown
        }
    }
}

// ---------------------------------------------------------------------------
// Data types and their views
// ---------------------------------------------------------------------------

/// A runtime dependency between directories.
#[derive(Debug)]
pub struct Relationship {
    /// Target directory path (relative to scan_root, forward slashes).
    pub target: String,
    pub label: String,
    pub protocol: String,
}

pub struct RelationshipView {
    pub target: Seq<char>,
    pub label: Seq<char>,
    pub protocol: Seq<char>,
}

impl View for Relationship {
    type V = RelationshipView;

    open spec fn view(&self) -> RelationshipView {
        RelationshipView { target: self.target@, label: self.label@, protocol: self.protocol@ }
    }
}

pub open spec fn rels_view(s: Seq<Relationship>) -> Seq<RelationshipView> {
    s.map_values(|r: Relationship| r@)
}

pub open spec fn opt_view(o: Option<String>) -> Option<Seq<char>> {
    match o {
        Some(s) => Some(s@),
        None => None,
    }
}

/// A code-level element (`@c4 code`) attached to a directory.
#[derive(Debug)]
pub struct CodeElement {
    pub name: String,
    /// `struct` | `enum` | `trait` | `fn`
    pub kind: String,
    pub description: Option<String>,
    pub relationships: Vec<Relationship>,
}

pub struct CodeElementView {
    pub name: Seq<char>,
    pub kind: Seq<char>,
    pub description: Option<Seq<char>>,
    pub relationships: Seq<RelationshipView>,
}

impl View for CodeElement {
    type V = CodeElementView;

    open spec fn view(&self) -> CodeElementView {
        CodeElementView {
            name: self.name@,
            kind: self.kind@,
            description: opt_view(self.description),
            relationships: rels_view(self.relationships@),
        }
    }
}

pub open spec fn codes_view(s: Seq<CodeElement>) -> Seq<CodeElementView> {
    s.map_values(|c: CodeElement| c@)
}

/// A file node in the architecture tree.
#[derive(Debug)]
pub struct FileNode {
    /// Filename (basename only).
    pub name: String,
    pub pattern: Option<String>,
    pub pattern_status: Option<PatternStatus>,
    pub purpose: Option<String>,
    pub health: Option<HealthStatus>,
    /// Extension attributes (extra/custom columns from file tables).
    pub extra: HashMap<String, String>,
}

pub struct FileNodeView {
    pub name: Seq<char>,
    pub pattern: Option<Seq<char>>,
    pub pattern_status: Option<PatternStatus>,
    pub purpose: Option<Seq<char>>,
    pub health: Option<HealthStatus>,
    pub extra: Map<String, String>,
}

impl View for FileNode {
    type V = FileNodeView;

    open spec fn view(&self) -> FileNodeView {
        FileNodeView {
            name: self.name@,
            pattern: opt_view(self.pattern),
            pattern_status: self.pattern_status,
            purpose: opt_view(self.purpose),
            health: self.health,
            extra: self.extra@,
        }
    }
}

pub open spec fn files_view(s: Seq<FileNode>) -> Seq<FileNodeView> {
    s.map_values(|f: FileNode| f@)
}

/// A directory node in the architecture tree.
#[derive(Debug)]
pub struct DirNode {
    /// Directory basename (e.g., "api"). Root is ".".
    pub name: String,
    /// Path relative to scan_root, using `/` separators. Root is ".".
    pub path: String,
    pub c4_level: Option<C4Level>,
    pub description: Option<String>,
    pub pattern: Option<String>,
    pub pattern_status: Option<PatternStatus>,
    /// Raw doc comment content.
    pub content: Option<String>,
    /// Path to the annotation source file (relative to scan_root).
    pub source_file: Option<String>,
    /// Nearest annotated ancestor's path.
    pub parent: Option<String>,
    /// Explicit architectural layer (`@c4 layer`), used to group diagrams.
    pub layer: Option<String>,
    pub relationships: Vec<Relationship>,
    pub code_elements: Vec<CodeElement>,
    pub dirs: Vec<DirNode>,
    pub files: Vec<FileNode>,
}

pub struct DirNodeView {
    pub name: Seq<char>,
    pub path: Seq<char>,
    pub c4_level: Option<C4Level>,
    pub description: Option<Seq<char>>,
    pub pattern: Option<Seq<char>>,
    pub pattern_status: Option<PatternStatus>,
    pub content: Option<Seq<char>>,
    pub source_file: Option<Seq<char>>,
    pub parent: Option<Seq<char>>,
    pub layer: Option<Seq<char>>,
    pub relationships: Seq<RelationshipView>,
    pub code_elements: Seq<CodeElementView>,
    pub dirs: Seq<DirNodeView>,
    pub files: Seq<FileNodeView>,
}

impl DirNode {
    pub open spec fn dview(self) -> DirNodeView
        decreases self, 1nat,
    {
        DirNodeView {
            name: self.name@,
            path: self.path@,
            c4_level: self.c4_level,
            description: opt_view(self.description),
            pattern: opt_view(self.pattern),
            pattern_status: self.pattern_status,
            content: opt_view(self.content),
            source_file: opt_view(self.source_file),
            parent: opt_view(self.parent),
            layer: opt_view(self.layer),
            relationships: rels_view(self.relationships@),
            code_elements: codes_view(self.code_elements@),
            dirs: dirs_view(self.dirs@),
            files: files_view(self.files@),
        }
    }
}

pub open spec fn dirs_view(s: Seq<DirNode>) -> Seq<DirNodeView>
    decreases s, 0nat,
{
    if s.len() == 0 {
        seq![]
    } else {
        dirs_view(s.drop_last()).push(s.last().dview())
    }
}

impl View for DirNode {
    type V = DirNodeView;

    open spec fn view(&self) -> DirNodeView {
        self.dview()
    }
}

pub proof fn lemma_dirs_view(s: Seq<DirNode>)
    ensures
        dirs_view(s) == s.map_values(|d: DirNode| d@),
    decreases s.len(),
{
    if s.len() > 0 {
        lemma_dirs_view(s.drop_last());
        assert(s.map_values(|d: DirNode| d@) =~= s.drop_last().map_values(|d: DirNode| d@).push(
            s.last()@,
        ));
    } else {
        assert(s.map_values(|d: DirNode| d@) =~= Seq::<DirNodeView>::empty());
    }
}

/// The view of every node of a `Vec` of directories, element by element.
pub proof fn lemma_dirs_view_index(s: Seq<DirNode>)
    ensures
        dirs_view(s).len() == s.len(),
        forall|i: int| 0 <= i < s.len() ==> #[trigger] dirs_view(s)[i] == s[i]@,
{
    lemma_dirs_view(s);
}

/// Universal intermediate representation for an architecture scan.
#[derive(Debug)]
pub struct ArchitectureIR {
    /// Schema version. Must be "2.0".
    pub version: String,
    /// Absolute path that was scanned (used for link resolution).
    pub scan_root: String,
    /// Root directory node. Always `path = "."`.
    pub root: DirNode,
}

pub struct ArchitectureIRView {
    pub version: Seq<char>,
    pub scan_root: Seq<char>,
    pub root: DirNodeView,
}

impl View for ArchitectureIR {
    type V = ArchitectureIRView;

    open spec fn view(&self) -> ArchitectureIRView {
        ArchitectureIRView { version: self.version@, scan_root: self.scan_root@, root: self.root@ }
    }
}

// ---------------------------------------------------------------------------
// Tree traversal specifications
// ---------------------------------------------------------------------------

/// Every node of the tree rooted at `n`, depth-first, parents before children.
pub open spec fn preorder(n: DirNodeView) -> Seq<DirNodeView>
    decreases n, 1nat,
{
    seq![n] + preorder_list(n.dirs)
}

pub open spec fn preorder_list(s: Seq<DirNodeView>) -> Seq<DirNodeView>
    decreases s, 0nat,
{
    if s.len() == 0 {
        seq![]
    } else {
        preorder_list(s.drop_last()) + preorder(s.last())
    }
}

pub open spec fn is_annotated_view(d: DirNodeView) -> bool {
    d.c4_level is Some
}

/// The annotated nodes of the tree, depth-first.
pub open spec fn annotated_preorder(n: DirNodeView) -> Seq<DirNodeView> {
    preorder(n).filter(|d: DirNodeView| is_annotated_view(d))
}

/// The first node of `s` whose path is `path`.
pub open spec fn first_with_path(s: Seq<DirNodeView>, path: Seq<char>) -> Option<DirNodeView>
    decreases s.len(),
{
    if s.len() == 0 {
        None
    } else if s[0].path == path {
        Some(s[0])
    } else {
        first_with_path(s.drop_first(), path)
    }
}

pub open spec fn views_of_refs<'a>(s: Seq<&'a DirNode>) -> Seq<DirNodeView> {
    s.map_values(|d: &'a DirNode| d@)
}

pub open spec fn empty_view(name: Seq<char>, path: Seq<char>) -> DirNodeView {
    DirNodeView {
        name,
        path,
        c4_level: None,
        description: None,
        pattern: None,
        pattern_status: None,
        content: None,
        source_file: None,
        parent: None,
        layer: None,
        relationships: seq![],
        code_elements: seq![],
        dirs: seq![],
        files: seq![],
    }
}

/// Number of files in the tree rooted at `n`.
pub open spec fn total_files(n: DirNodeView) -> nat
    decreases n, 1nat,
{
    n.files.len() + total_files_list(n.dirs)
}

pub open spec fn total_files_list(s: Seq<DirNodeView>) -> nat
    decreases s, 0nat,
{
    if s.len() == 0 {
        0
    } else {
        total_files_list(s.drop_last()) + total_files(s.last())
    }
}

/// No files, and every child is an unannotated empty leaf.
pub open spec fn empty_leaf(n: DirNodeView) -> bool
    decreases n, 1nat,
{
    n.files.len() == 0 && empty_leaf_list(n.dirs)
}

pub open spec fn empty_leaf_list(s: Seq<DirNodeView>) -> bool
    decreases s, 0nat,
{
    s.len() == 0 || (empty_leaf_list(s.drop_last()) && s.last().c4_level is None && empty_leaf(
        s.last(),
    ))
}

pub open spec fn bare_file_view(f: FileNodeView) -> bool {
    f.health is None && f.purpose is None && f.pattern_status is None
}

// ---------------------------------------------------------------------------
// Traversal implementations
// ---------------------------------------------------------------------------

fn collect_annotated<'a>(node: &'a DirNode, out: &mut Vec<&'a DirNode>)
    ensures
        views_of_refs(final(out)@) =~= views_of_refs(old(out)@) + annotated_preorder(node@),
    decreases node,
{
    proof {
        lemma_dirs_view_index(node.dirs@);
        lemma_filter_preorder(node@);
    }
    if node.c4_level.is_some() {
        out.push(node);
    }
    let ghost start = views_of_refs(out@);
    let mut i: usize = 0;
    while i < node.dirs.len()
        invariant
            0 <= i <= node.dirs@.len(),
            dirs_view(node.dirs@).len() == node.dirs@.len(),
            forall|k: int| 0 <= k < node.dirs@.len() ==> #[trigger] dirs_view(node.dirs@)[k] == node.dirs@[k]@,
            views_of_refs(out@) =~= start + preorder_list(node@.dirs.take(i as int)).filter(
                |d: DirNodeView| is_annotated_view(d),
            ),
        decreases node.dirs@.len() - i,
    {
        collect_annotated(&node.dirs[i], out);
        proof {
            let t = node@.dirs.take(i + 1);
            assert(t.drop_last() =~= node@.dirs.take(i as int));
            Seq::filter_distributes_over_add(
                preorder_list(t.drop_last()),
                preorder(t.last()),
                |d: DirNodeView| is_annotated_view(d),
            );
        }
        i += 1;
    }
    proof {
        assert(node@.dirs.take(i as int) =~= node@.dirs);
    }
}

proof fn lemma_filter_preorder(n: DirNodeView)
    ensures
        annotated_preorder(n) =~= (if is_annotated_view(n) {
            seq![n]
        } else {
            seq![]
        }) + preorder_list(n.dirs).filter(|d: DirNodeView| is_annotated_view(d)),
{
    Seq::filter_distributes_over_add(
        seq![n],
        preorder_list(n.dirs),
        |d: DirNodeView| is_annotated_view(d),
    );
    reveal(Seq::filter);
    assert(seq![n].drop_last() =~= Seq::<DirNodeView>::empty());
    assert(Seq::<DirNodeView>::empty().filter(|d: DirNodeView| is_annotated_view(d)) =~= Seq::<DirNodeView>::empty());
}

fn collect_all<'a>(node: &'a DirNode, out: &mut Vec<&'a DirNode>)
    ensures
        views_of_refs(final(out)@) =~= views_of_refs(old(out)@) + preorder(node@),
    decreases node,
{
    proof {
        lemma_dirs_view_index(node.dirs@);
    }
    out.push(node);
    let ghost start = views_of_refs(out@);
    let mut i: usize = 0;
    while i < node.dirs.len()
        invariant
            0 <= i <= node.dirs@.len(),
            dirs_view(node.dirs@).len() == node.dirs@.len(),
            forall|k: int| 0 <= k < node.dirs@.len() ==> #[trigger] dirs_view(node.dirs@)[k] == node.dirs@[k]@,
            views_of_refs(out@) =~= start + preorder_list(node@.dirs.take(i as int)),
        decreases node.dirs@.len() - i,
    {
        collect_all(&node.dirs[i], out);
        proof {
            assert(node@.dirs.take(i + 1).drop_last() =~= node@.dirs.take(i as int));
        }
        i += 1;
    }
    proof {
        assert(node@.dirs.take(i as int) =~= node@.dirs);
    }
}


fn find_dir_recursive<'a>(node: &'a DirNode, path: &str) -> (r: Option<&'a DirNode>)
    ensures
        match r {
            Some(d) => first_with_path(preorder(node@), path@) == Some(d@),
            None => first_with_path(preorder(node@), path@) is None,
        },
    decreases node,
{
    proof {
        lemma_dirs_view_index(node.dirs@);
        lemma_first_with_path_append(seq![node@], preorder_list(node@.dirs), path@);
        assert(seq![node@].drop_first() =~= Seq::<DirNodeView>::empty());
    }
    if str_eq(node.path.as_str(), path) {
        return Some(node);
    }
    let mut i: usize = 0;
    while i < node.dirs.len()
        invariant
            0 <= i <= node.dirs@.len(),
            node@.path != path@,
            dirs_view(node.dirs@).len() == node.dirs@.len(),
            forall|k: int| 0 <= k < node.dirs@.len() ==> #[trigger] dirs_view(node.dirs@)[k] == node.dirs@[k]@,
            first_with_path(preorder_list(node@.dirs.take(i as int)), path@) is None,
            first_with_path(preorder(node@), path@) == first_with_path(preorder_list(node@.dirs), path@),
        decreases node.dirs@.len() - i,
    {
        let found = find_dir_recursive(&node.dirs[i], path);
        proof {
            let t = node@.dirs.take(i + 1);
            assert(t.drop_last() =~= node@.dirs.take(i as int));
            lemma_first_with_path_append(preorder_list(t.drop_last()), preorder(t.last()), path@);
            lemma_preorder_list_split(node@.dirs, i + 1);
            lemma_first_with_path_append(preorder_list(t), preorder_list(node@.dirs.skip(i + 1)), path@);
        }
        if found.is_some() {
            return found;
        }
        i += 1;
    }
    proof {
        assert(node@.dirs.take(i as int) =~= node@.dirs);
    }
    None
}

pub proof fn lemma_first_with_path_append(a: Seq<DirNodeView>, b: Seq<DirNodeView>, p: Seq<char>)
    ensures
        first_with_path(a + b, p) == (if first_with_path(a, p) is Some {
            first_with_path(a, p)
        } else {
            first_with_path(b, p)
        }),
    decreases a.len(),
{
    if a.len() > 0 {
        assert((a + b).drop_first() =~= a.drop_first() + b);
        lemma_first_with_path_append(a.drop_first(), b, p);
    } else {
        assert(a + b =~= b);
    }
}

/// A child list's preorder is the preorder of a prefix followed by that of the rest.
pub proof fn lemma_preorder_list_split(s: Seq<DirNodeView>, k: int)
    requires
        0 <= k <= s.len(),
    ensures
        preorder_list(s) =~= preorder_list(s.take(k)) + preorder_list(s.skip(k)),
    decreases s.len() - k,
{
    if k == s.len() {
        assert(s.take(k) =~= s);
        assert(s.skip(k) =~= Seq::<DirNodeView>::empty());
    } else {
        lemma_preorder_list_split(s, k + 1);
        let rest = s.skip(k);
        assert(rest.drop_last() =~= s.skip(k).take(s.len() - k - 1));
        lemma_preorder_list_prepend(s[k], s.skip(k + 1));
        assert(s.skip(k) =~= seq![s[k]] + s.skip(k + 1));
        assert(s.take(k + 1).drop_last() =~= s.take(k));
    }
}

pub proof fn lemma_preorder_list_prepend(x: DirNodeView, s: Seq<DirNodeView>)
    ensures
        preorder_list(seq![x] + s) =~= preorder(x) + preorder_list(s),
    decreases s.len(),
{
    let xs = seq![x] + s;
    if s.len() == 0 {
        assert(xs.drop_last() =~= Seq::<DirNodeView>::empty());
        assert(xs.last() == x);
        assert(preorder_list(xs) == preorder_list(xs.drop_last()) + preorder(x));
        assert(preorder_list(Seq::<DirNodeView>::empty()) == Seq::<DirNodeView>::empty());
    } else {
        lemma_preorder_list_prepend(x, s.drop_last());
        assert(xs.drop_last() =~= seq![x] + s.drop_last());
        assert(xs.last() == s.last());
    }
}

// ---------------------------------------------------------------------------
// Public queries
// ---------------------------------------------------------------------------

impl ArchitectureIR {
    /// An IR with version "2.0", the given scan root and an empty root node.
    pub fn new(scan_root: String) -> (r: Self)
        ensures
            r@ == (ArchitectureIRView {
                version: "2.0"@,
                scan_root: scan_root@,
                root: empty_view("."@, "."@),
            }),
    {
        ArchitectureIR { version: "2.0".to_string(), scan_root, root: DirNode::empty(".", ".") }
    }

    /// All annotated DirNodes (c4_level.is_some()), depth-first.
    pub fn annotated_dirs(&self) -> (r: Vec<&DirNode>)
        ensures
            views_of_refs(r@) == annotated_preorder(self.root@),
    {
        let mut result: Vec<&DirNode> = Vec::new();
        collect_annotated(&self.root, &mut result);
        result
    }

    /// All DirNodes, depth-first.
    pub fn all_dirs(&self) -> (r: Vec<&DirNode>)
        ensures
            views_of_refs(r@) == preorder(self.root@),
    {
        let mut result: Vec<&DirNode> = Vec::new();
        collect_all(&self.root, &mut result);
        result
    }

    /// Find the first DirNode (depth-first) whose path is `path`.
    pub fn find_dir(&self, path: &str) -> (r: Option<&DirNode>)
        ensures
            match r {
                Some(d) => first_with_path(preorder(self.root@), path@) == Some(d@),
                None => first_with_path(preorder(self.root@), path@) is None,
            },
    {
        find_dir_recursive(&self.root, path)
    }
}

impl Default for ArchitectureIR {
    fn default() -> (r: Self)
        ensures
            r@ == (ArchitectureIRView {
                version: "2.0"@,
                scan_root: Seq::<char>::empty(),
                root: empty_view("."@, "."@),
            }),
    {
        Self::new(String::new())
    }
}

impl DirNode {
    /// A node with the given name and path and nothing else.
    pub fn empty(name: &str, path: &str) -> (r: Self)
        ensures
            r@ == empty_view(name@, path@),
    {
        let r = DirNode {
            name: name.to_string(),
            path: path.to_string(),
            c4_level: None,
            description: None,
            pattern: None,
            pattern_status: None,
            content: None,
            source_file: None,
            parent: None,
            layer: None,
            relationships: Vec::new(),
            code_elements: Vec::new(),
            dirs: Vec::new(),
            files: Vec::new(),
        };
        proof {
            assert(rels_view(r.relationships@) =~= Seq::<RelationshipView>::empty());
            assert(codes_view(r.code_elements@) =~= Seq::<CodeElementView>::empty());
            assert(files_view(r.files@) =~= Seq::<FileNodeView>::empty());
        }
        r
    }

    pub fn is_annotated(&self) -> (r: bool)
        ensures
            r == (self@.c4_level is Some),
    {
        self.c4_level.is_some()
    }

    pub fn file_count(&self) -> (r: usize)
        ensures
            r == self@.files.len(),
    {
        self.files.len()
    }

    /// Files in this directory and all its descendants.
    pub fn total_file_count(&self) -> (r: usize)
        requires
            total_files(self@) <= usize::MAX,
        ensures
            r == total_files(self@),
        decreases self,
    {
        proof {
            lemma_dirs_view_index(self.dirs@);
        }
        let mut sum: usize = 0;
        let mut i: usize = 0;
        while i < self.dirs.len()
            invariant
                0 <= i <= self.dirs@.len(),
                total_files(self@) <= usize::MAX,
                dirs_view(self.dirs@).len() == self.dirs@.len(),
                forall|k: int| 0 <= k < self.dirs@.len() ==> #[trigger] dirs_view(self.dirs@)[k] == self.dirs@[k]@,
                sum == total_files_list(self@.dirs.take(i as int)),
            decreases self.dirs@.len() - i,
        {
            proof {
                let t = self@.dirs.take(i + 1);
                assert(t.drop_last() =~= self@.dirs.take(i as int));
                lemma_total_files_prefix(self@.dirs, i + 1);
            }
            let c = self.dirs[i].total_file_count();
            sum = sum + c;
            i += 1;
        }
        proof {
            assert(self@.dirs.take(i as int) =~= self@.dirs);
        }
        self.files.len() + sum
    }

    /// Zero files AND zero annotated children (recursively).
    pub fn is_empty_leaf(&self) -> (r: bool)
        ensures
            r == empty_leaf(self@),
        decreases self,
    {
        proof {
            lemma_dirs_view_index(self.dirs@);
        }
        if self.files.len() != 0 {
            return false;
        }
        let mut i: usize = 0;
        while i < self.dirs.len()
            invariant
                0 <= i <= self.dirs@.len(),
                dirs_view(self.dirs@).len() == self.dirs@.len(),
                forall|k: int| 0 <= k < self.dirs@.len() ==> #[trigger] dirs_view(self.dirs@)[k] == self.dirs@[k]@,
                forall|j: int| 0 <= j < i ==> self@.dirs[j].c4_level is None && empty_leaf(#[trigger] self@.dirs[j]),
            decreases self.dirs@.len() - i,
        {
            let d = &self.dirs[i];
            if d.c4_level.is_some() || !d.is_empty_leaf() {
                proof {
                    lemma_empty_leaf_list(self@.dirs);
                    assert(self@.dirs[i as int] == self.dirs@[i as int]@);
                }
                return false;
            }
            proof {
                assert(self@.dirs[i as int] == self.dirs@[i as int]@);
            }
            i += 1;
        }
        proof {
            lemma_empty_leaf_list(self@.dirs);
        }
        true
    }

    /// Has at least one file.
    pub fn is_populated(&self) -> (r: bool)
        ensures
            r == (self@.files.len() > 0),
    {
        self.files.len() != 0
    }

    /// Has files but all lack health/purpose/pattern_status (bare scaffold).
    pub fn is_scaffold(&self) -> (r: bool)
        ensures
            r == (self@.files.len() > 0 && forall|i: int|
                0 <= i < self@.files.len() ==> bare_file_view(#[trigger] self@.files[i])),
    {
        if self.files.len() == 0 {
            return false;
        }
        let mut i: usize = 0;
        while i < self.files.len()
            invariant
                0 <= i <= self.files@.len(),
                forall|k: int| 0 <= k < i ==> bare_file_view(#[trigger] self@.files[k]),
            decreases self.files@.len() - i,
        {
            let f = &self.files[i];
            if f.health.is_some() || f.purpose.is_some() || f.pattern_status.is_some() {
                assert(!bare_file_view(self@.files[i as int]));
                return false;
            }
            i += 1;
        }
        true
    }

    /// Annotated or described.
    pub fn is_described(&self) -> (r: bool)
        ensures
            r == (self@.c4_level is Some || self@.description is Some),
    {
        self.c4_level.is_some() || self.description.is_some()
    }
}

/// `empty_leaf_list` over a prefix holds exactly when every child in it is an
/// unannotated empty leaf.
pub proof fn lemma_empty_leaf_list(s: Seq<DirNodeView>)
    ensures
        empty_leaf_list(s) <==> forall|j: int| 0 <= j < s.len() ==> s[j].c4_level is None && empty_leaf(#[trigger] s[j]),
    decreases s.len(),
{
    if s.len() > 0 {
        lemma_empty_leaf_list(s.drop_last());
        if empty_leaf_list(s) {
            assert forall|j: int| 0 <= j < s.len() implies s[j].c4_level is None && empty_leaf(#[trigger] s[j]) by {
                if j < s.len() - 1 {
                    assert(s[j] == s.drop_last()[j]);
                }
            }
        }
        if forall|j: int| 0 <= j < s.len() ==> s[j].c4_level is None && empty_leaf(#[trigger] s[j]) {
            assert forall|j: int| 0 <= j < s.drop_last().len() implies s.drop_last()[j].c4_level is None && empty_leaf(#[trigger] s.drop_last()[j]) by {
                assert(s[j] == s.drop_last()[j]);
            }
        }
    }
}

pub proof fn lemma_total_files_prefix(s: Seq<DirNodeView>, k: int)
    requires
        0 <= k <= s.len(),
    ensures
        total_files_list(s.take(k)) <= total_files_list(s),
    decreases s.len() - k,
{
    if k < s.len() {
        lemma_total_files_prefix(s, k + 1);
        assert(s.take(k + 1).drop_last() =~= s.take(k));
    } else {
        assert(s.take(k) =~= s);
    }
}

impl FileNode {
    /// A file node carrying only its name.
    pub fn bare(name: &str) -> (r: Self)
        ensures
            r@ == (FileNodeView {
                name: name@,
                pattern: None,
                pattern_status: None,
                purpose: None,
                health: None,
                extra: Map::empty(),
            }),
    {
        FileNode {
            name: name.to_string(),
            pattern: None,
            pattern_status: None,
            purpose: None,
            health: None,
            extra: HashMap::new(),
        }
    }
}


// ---------------------------------------------------------------------------
// Extension counts
// ---------------------------------------------------------------------------

/// The extension of a file name as `extension_counts` reads it: the text
/// after the last '.', or the whole name when it has none.
pub open spec fn name_ext(name: Seq<char>) -> Seq<char> {
    after_last(name, '.')
}

/// File counts by extension, in extension order.
pub open spec fn ext_counts(files: Seq<FileNodeView>) -> Seq<(Seq<char>, nat)> {
    count_all(files.map_values(|f: FileNodeView| name_ext(f.name)))
}

/// The extension counts are a table sorted strictly by extension, holding
/// exactly the extensions of the files, each with its number of files.
pub proof fn lemma_extension_counts(files: Seq<FileNodeView>)
    ensures
        crate::text::strictly_sorted(count_keys(ext_counts(files))),
        forall|k: Seq<char>|
            count_keys(ext_counts(files)).contains(k) <==> files.map_values(|f: FileNodeView| name_ext(f.name)).contains(
                k,
            ),
        forall|i: int|
            0 <= i < ext_counts(files).len() ==> (#[trigger] ext_counts(files)[i]).1 == crate::text::occurrences(
                files.map_values(|f: FileNodeView| name_ext(f.name)),
                ext_counts(files)[i].0,
            ),
{
    crate::text::lemma_count_all(files.map_values(|f: FileNodeView| name_ext(f.name)));
}

impl DirNode {
    /// File counts by extension, sorted by extension: a vec of ("ext", count).
    pub fn extension_counts(&self) -> (r: Vec<(String, usize)>)
        ensures
            r@.len() == ext_counts(self@.files).len(),
            forall|k: int|
                0 <= k < r@.len() ==> (#[trigger] r@[k]).0@ == ext_counts(self@.files)[k].0 && r@[k].1
                    == ext_counts(self@.files)[k].1,
    {
        let mut exts: Vec<Vec<char>> = Vec::new();
        let mut i: usize = 0;
        while i < self.files.len()
            invariant
                0 <= i <= self.files@.len(),
                key_views(exts@) =~= self@.files.take(i as int).map_values(|f: FileNodeView| name_ext(f.name)),
            decreases self.files@.len() - i,
        {
            let name = chars_of(self.files[i].name.as_str());
            let ghost before = key_views(exts@);
            exts.push(chars_after_last(&name, '.'));
            proof {
                assert(self@.files[i as int] == self.files@[i as int]@);
                assert(key_views(exts@) =~= before.push(name_ext(self@.files[i as int].name)));
                assert(self@.files.take(i + 1) =~= self@.files.take(i as int).push(self@.files[i as int]));
            }
            i += 1;
        }
        proof {
            assert(self@.files.take(i as int) =~= self@.files);
        }
        let (keys, counts) = count_keys_exec(&exts);
        let mut r: Vec<(String, usize)> = Vec::new();
        let mut k: usize = 0;
        while k < keys.len()
            invariant
                0 <= k <= keys@.len(),
                keys@.len() == counts@.len(),
                keys@.len() == ext_counts(self@.files).len(),
                key_views(keys@) =~= count_keys(ext_counts(self@.files)),
                forall|j: int| 0 <= j < counts@.len() ==> #[trigger] counts@[j] == ext_counts(self@.files)[j].1,
                r@.len() == k,
                forall|j: int|
                    0 <= j < k ==> (#[trigger] r@[j]).0@ == ext_counts(self@.files)[j].0 && r@[j].1
                        == ext_counts(self@.files)[j].1,
            decreases keys@.len() - k,
        {
            assert(key_views(keys@)[k as int] == keys@[k as int]@);
            let s = string_from_chars(keys[k].as_slice());
            r.push((s, counts[k]));
            k += 1;
        }
        r
    }
}


/// Whether some node of the tree has path `path`.
pub fn find_dir_in(node: &DirNode, path: &str) -> (r: bool)
    ensures
        r == first_with_path(preorder(node@), path@) is Some,
{
    find_dir_recursive(node, path).is_some()
}

} // verus!
