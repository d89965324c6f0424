//! Module-level import graphs, as the `cargo modules` tool prints them, and
//! their comparison with the relationships that the documentation declares.
//!
//! Running the tool is left to the caller; this module parses what it prints
//! (DOT for dependencies, one path per line for orphans) and diffs the result
//! against the extracted module documentation.
use vstd::prelude::*;

use crate::module_doc::{ModuleDoc, ModuleDocView};
use crate::text::{
    chars_find, chars_index_of, chars_lines, chars_of, chars_slice, chars_split_str, chars_trim,
    find, find_from, index_of, join, join_strings, key_views, lemma_find_from, lemma_index_of, lines_of,
    owned, split_str, str_eq, string_from_chars, strs_contain, trim,
};
use crate::tree::{pairs_view, strs_view};

verus! {

broadcast use vstd::string::group_string_axioms;

// ---------------------------------------------------------------------------
// The graph
// ---------------------------------------------------------------------------

/// Import graph: module paths and the dependencies between them.
///
/// `nodes` is kept free of repeats by `add_node`; `edges` keeps the order in
/// which dependencies were found.
#[derive(Debug, Clone)]
pub struct ImportGraph {
    /// Module paths that exist in the crate.
    pub nodes: Vec<String>,
    /// Dependencies: (from_module, to_module).
    pub edges: Vec<(String, String)>,
}

pub struct ImportGraphView {
    pub nodes: Seq<Seq<char>>,
    pub edges: Seq<(Seq<char>, Seq<char>)>,
}

impl View for ImportGraph {
    type V = ImportGraphView;

    open spec fn view(&self) -> ImportGraphView {
        ImportGraphView { nodes: strs_view(self.nodes@), edges: pairs_view(self.edges@) }
    }
}

pub open spec fn empty_graph() -> ImportGraphView {
    ImportGraphView { nodes: seq![], edges: seq![] }
}

/// `s` with `x` appended unless it already occurs (set insertion).
pub open spec fn add_unique(s: Seq<Seq<char>>, x: Seq<char>) -> Seq<Seq<char>> {
    if s.contains(x) {
        s
    } else {
        s.push(x)
    }
}

/// The elements of `s`, each once, in order of first occurrence.
pub open spec fn unique(s: Seq<Seq<char>>) -> Seq<Seq<char>>
    decreases s.len(),
{
    if s.len() == 0 {
        seq![]
    } else {
        add_unique(unique(s.drop_last()), s.last())
    }
}

/// The targets of the edges leaving `m`, in edge order.
pub open spec fn deps_of(edges: Seq<(Seq<char>, Seq<char>)>, m: Seq<char>) -> Seq<Seq<char>>
    decreases edges.len(),
{
    if edges.len() == 0 {
        seq![]
    } else if edges.last().0 == m {
        deps_of(edges.drop_last(), m).push(edges.last().1)
    } else {
        deps_of(edges.drop_last(), m)
    }
}

impl Default for ImportGraph {
    fn default() -> (r: Self)
        ensures
            r@ == empty_graph(),
    {
        let r = ImportGraph { nodes: Vec::new(), edges: Vec::new() };
        assert(r@.nodes =~= Seq::<Seq<char>>::empty());
        assert(r@.edges =~= Seq::<(Seq<char>, Seq<char>)>::empty());
        r
    }
}

impl ImportGraph {
    /// Add a module path to the nodes, unless it is there already.
    pub fn add_node(&mut self, name: String)
        ensures
            final(self)@ == (ImportGraphView { nodes: add_unique(old(self)@.nodes, name@), ..old(self)@ }),
            old(self)@.nodes.no_duplicates() ==> final(self)@.nodes.no_duplicates(),
    {
        proof {
            lemma_add_unique(self@.nodes, name@);
        }
        if !strs_contain(&self.nodes, name.as_str()) {
            let ghost before = self.nodes@;
            self.nodes.push(name);
            assert(strs_view(self.nodes@) =~= strs_view(before).push(name@));
        }
    }

    /// Whether `name` is one of the nodes.
    pub fn has_node(&self, name: &str) -> (r: bool)
        ensures
            r == self@.nodes.contains(name@),
    {
        strs_contain(&self.nodes, name)
    }

    /// Check if a dependency exists from one module to another.
    pub fn has_dependency(&self, from: &str, to: &str) -> (r: bool)
        ensures
            r == self@.edges.contains((from@, to@)),
    {
        let ghost es = self@.edges;
        let mut i: usize = 0;
        while i < self.edges.len()
            invariant
                0 <= i <= self.edges@.len(),
                es == pairs_view(self.edges@),
                forall|j: int| 0 <= j < i ==> es[j] != (from@, to@),
            decreases self.edges@.len() - i,
        {
            let e = &self.edges[i];
            if str_eq(e.0.as_str(), from) && str_eq(e.1.as_str(), to) {
                assert(es[i as int] == (from@, to@));
                return true;
            }
            i += 1;
        }
        false
    }

    /// Get all dependencies of a module, in edge order.
    pub fn get_dependencies(&self, module: &str) -> (r: Vec<String>)
        ensures
            strs_view(r@) == deps_of(self@.edges, module@),
    {
        let ghost es = self@.edges;
        let mut out: Vec<String> = Vec::new();
        let mut i: usize = 0;
        while i < self.edges.len()
            invariant
                0 <= i <= self.edges@.len(),
                es == pairs_view(self.edges@),
                strs_view(out@) == deps_of(es.take(i as int), module@),
            decreases self.edges@.len() - i,
        {
            let ghost before = strs_view(out@);
            let e = &self.edges[i];
            if str_eq(e.0.as_str(), module) {
                out.push(e.1.clone());
                assert(strs_view(out@) =~= before.push(e.1@));
            }
            proof {
                let t = es.take(i + 1);
                assert(t.drop_last() =~= es.take(i as int));
                assert(t.last() == es[i as int]);
            }
            i += 1;
        }
        assert(es.take(i as int) =~= es);
        out
    }
}

// ---------------------------------------------------------------------------
// Parsing `cargo modules` output
// ---------------------------------------------------------------------------

/// `cargo modules` paths are `crate::a::b`; a module is named by the part
/// after the crate, joined with dots (`a.b`), and the crate root by its name.
pub open spec fn module_of(path: Seq<char>) -> Seq<char> {
    let parts = split_str(path, "::"@);
    if parts.len() <= 1 {
        parts[0]
    } else {
        join(parts.skip(1), "."@)
    }
}

pub open spec fn quote_error(s: Seq<char>) -> Seq<char> {
    "Failed to extract quoted string from: "@ + s
}

/// The text between the first two double quotes of `s`.
pub open spec fn quoted(s: Seq<char>) -> Result<Seq<char>, Seq<char>> {
    let start = index_of(s, '"');
    if start < s.len() {
        let rest = s.skip(start + 1);
        let end = index_of(rest, '"');
        if end < rest.len() {
            Ok(rest.take(end))
        } else {
            Err(quote_error(s))
        }
    } else {
        Err(quote_error(s))
    }
}

/// What one line of DOT output contributes: an edge `"from" -> "to"` (as
/// module names), nothing for a line without `->`, or the error of the first
/// side whose quotes are missing.
pub open spec fn dot_edge(line: Seq<char>) -> Result<Option<(Seq<char>, Seq<char>)>, Seq<char>> {
    let t = trim(line);
    match find(t, "->"@) {
        None => Ok(None),
        Some(a) => match quoted(trim(t.take(a))) {
            Err(e) => Err(e),
            Ok(f) => match quoted(trim(t.skip(a + 2))) {
                Err(e) => Err(e),
                Ok(g) => Ok(Some((module_of(f), module_of(g)))),
            },
        },
    }
}

pub open spec fn with_edge(g: ImportGraphView, from: Seq<char>, to: Seq<char>) -> ImportGraphView {
    ImportGraphView {
        nodes: add_unique(add_unique(g.nodes, from), to),
        edges: g.edges.push((from, to)),
    }
}

/// The graph of the given DOT lines, read in order; the first malformed edge
/// line fails the whole parse.
pub open spec fn parse_lines(lines: Seq<Seq<char>>) -> Result<ImportGraphView, Seq<char>>
    decreases lines.len(),
{
    if lines.len() == 0 {
        Ok(empty_graph())
    } else {
        match parse_lines(lines.drop_last()) {
            Err(e) => Err(e),
            Ok(g) => match dot_edge(lines.last()) {
                Err(e) => Err(e),
                Ok(None) => Ok(g),
                Ok(Some((f, t))) => Ok(with_edge(g, f, t)),
            },
        }
    }
}

/// Once a prefix of the lines fails, the whole parse fails the same way.
proof fn lemma_parse_lines_err(lines: Seq<Seq<char>>, k: int)
    requires
        0 <= k <= lines.len(),
        parse_lines(lines.take(k)) is Err,
    ensures
        parse_lines(lines) == parse_lines(lines.take(k)),
    decreases lines.len(),
{
    if k < lines.len() {
        assert(lines.drop_last().take(k) =~= lines.take(k));
        lemma_parse_lines_err(lines.drop_last(), k);
    } else {
        assert(lines.take(k) =~= lines);
    }
}

/// Convert a `cargo modules` path to dot notation:
/// `my_crate` stays, `my_crate::core` is `core`, `my_crate::core::types` is
/// `core.types`.
pub fn crate_path_to_module(path: &str) -> (r: String)
    ensures
        r@ == module_of(path@),
{
    let sep = chars_of("::");
    proof {
        reveal_strlit("::");
    }
    let parts = chars_split_str(&chars_of(path), &sep);
    proof {
        let s = split_str(path@, "::"@);
        assert(find(path@, "::"@) is None ==> s.len() == 1);
        assert(s.len() >= 1);
    }
    if parts.len() <= 1 {
        return string_from_chars(parts[0].as_slice());
    }
    let mut rest: Vec<Vec<char>> = Vec::new();
    let mut i: usize = 1;
    while i < parts.len()
        invariant
            1 <= i <= parts@.len(),
            key_views(rest@) =~= key_views(parts@).subrange(1, i as int),
        decreases parts@.len() - i,
    {
        let ghost before = key_views(rest@);
        rest.push(parts[i].clone());
        assert(key_views(rest@) =~= before.push(parts@[i as int]@));
        i += 1;
    }
    assert(key_views(parts@).skip(1) =~= key_views(parts@).subrange(1, i as int));
    join_strings(&rest, ".")
}

/// Extract the content between the first two double quotes.
pub fn extract_quoted(s: &str) -> (r: Result<String, String>)
    ensures
        match r {
            Ok(v) => quoted(s@) == Ok::<Seq<char>, Seq<char>>(v@),
            Err(e) => quoted(s@) == Err::<Seq<char>, Seq<char>>(e@),
        },
{
    let cs = chars_of(s);
    let start = chars_index_of(&cs, '"');
    proof {
        lemma_index_of(s@, '"');
    }
    if start < cs.len() {
        let rest = chars_slice(&cs, start + 1, cs.len());
        assert(rest@ =~= s@.skip(start + 1));
        let end = chars_index_of(&rest, '"');
        proof {
            lemma_index_of(rest@, '"');
        }
        if end < rest.len() {
            let v = chars_slice(&rest, 0, end);
            assert(v@ =~= rest@.take(end as int));
            return Ok(string_from_chars(v.as_slice()));
        }
    }
    let mut msg = owned("Failed to extract quoted string from: ");
    crate::text::push_str(&mut msg, s);
    Err(msg)
}

fn dot_edge_exec(line: &Vec<char>) -> (r: Result<Option<(String, String)>, String>)
    ensures
        match r {
            Ok(None) => dot_edge(line@) == Ok::<Option<(Seq<char>, Seq<char>)>, Seq<char>>(None),
            Ok(Some(e)) => dot_edge(line@) == Ok::<Option<(Seq<char>, Seq<char>)>, Seq<char>>(
                Some((e.0@, e.1@)),
            ),
            Err(e) => dot_edge(line@) == Err::<Option<(Seq<char>, Seq<char>)>, Seq<char>>(e@),
        },
{
    let t = chars_trim(line);
    let arrow = chars_of("->");
    match chars_find(&t, &arrow) {
        None => Ok(None),
        Some(a) => {
            proof {
                reveal_strlit("->");
                lemma_find_from(t@, arrow@, 0);
                assert(find_from(t@, arrow@, 0) == Some(a as int));
            }
            let from_part = chars_trim(&chars_slice(&t, 0, a));
            let tl = t.len();
            let to_part = chars_trim(&chars_slice(&t, a + 2, tl));
            let from_s = string_from_chars(from_part.as_slice());
            let to_s = string_from_chars(to_part.as_slice());
            assert(from_s@ == trim(t@.take(a as int))) by {
                assert(t@.subrange(0, a as int) =~= t@.take(a as int));
            }
            assert(to_s@ == trim(t@.skip(a + 2))) by {
                assert(t@.subrange(a + 2, tl as int) =~= t@.skip(a + 2));
            }
            match extract_quoted(from_s.as_str()) {
                Err(e) => Err(e),
                Ok(f) => match extract_quoted(to_s.as_str()) {
                    Err(e) => Err(e),
                    Ok(g) => Ok(Some((crate_path_to_module(f.as_str()), crate_path_to_module(g.as_str())))),
                },
            }
        },
    }
}

/// Parse the DOT output of `cargo modules dependencies`:
///
/// ```text
/// digraph {
///   "crate_name" -> "crate_name::module_a"
///   "crate_name::module_a" -> "crate_name::module_b"
/// }
/// ```
///
/// Each `"from" -> "to"` line adds both modules to the nodes and the edge to
/// the edges; other lines are skipped.
pub fn parse_dot_output(dot: &str) -> (r: Result<ImportGraph, String>)
    ensures
        match r {
            Ok(g) => parse_lines(lines_of(dot@)) == Ok::<ImportGraphView, Seq<char>>(g@),
            Err(e) => parse_lines(lines_of(dot@)) == Err::<ImportGraphView, Seq<char>>(e@),
        },
{
    let lines = chars_lines(&chars_of(dot));
    let ghost ls = lines_of(dot@);
    let mut graph = ImportGraph::default();
    let mut i: usize = 0;
    while i < lines.len()
        invariant
            0 <= i <= lines@.len(),
            ls == key_views(lines@),
            ls == lines_of(dot@),
            parse_lines(ls.take(i as int)) == Ok::<ImportGraphView, Seq<char>>(graph@),
        decreases lines@.len() - i,
    {
        proof {
            let t = ls.take(i + 1);
            assert(t.drop_last() =~= ls.take(i as int));
            assert(t.last() == lines@[i as int]@);
        }
        match dot_edge_exec(&lines[i]) {
            Err(e) => {
                proof {
                    lemma_parse_lines_err(ls, i + 1);
                }
                return Err(e);
            },
            Ok(None) => {},
            Ok(Some(e)) => {
                let ghost g0 = graph@;
                let (f, t) = e;
                graph.add_node(f.clone());
                graph.add_node(t.clone());
                let ghost before = graph.edges@;
                graph.edges.push((f, t));
                assert(pairs_view(graph.edges@) =~= pairs_view(before).push((e.0@, e.1@)));
                assert(graph@ =~= with_edge(g0, e.0@, e.1@));
            },
        }
        i += 1;
    }
    assert(ls.take(i as int) =~= ls);
    Ok(graph)
}

/// The module paths that `cargo modules orphans` prints, one per line:
/// blank lines are skipped, the others trimmed and read as module names.
pub open spec fn orphan_lines(lines: Seq<Seq<char>>) -> Seq<Seq<char>>
    decreases lines.len(),
{
    if lines.len() == 0 {
        seq![]
    } else if trim(lines.last()).len() == 0 {
        orphan_lines(lines.drop_last())
    } else {
        orphan_lines(lines.drop_last()).push(module_of(trim(lines.last())))
    }
}

/// Read the output of `cargo modules orphans` as module names.
pub fn parse_orphans(output: &str) -> (r: Vec<String>)
    ensures
        strs_view(r@) == orphan_lines(lines_of(output@)),
{
    let lines = chars_lines(&chars_of(output));
    let ghost ls = lines_of(output@);
    let mut out: Vec<String> = Vec::new();
    let mut i: usize = 0;
    while i < lines.len()
        invariant
            0 <= i <= lines@.len(),
            ls == key_views(lines@),
            ls == lines_of(output@),
            strs_view(out@) == orphan_lines(ls.take(i as int)),
        decreases lines@.len() - i,
    {
        proof {
            let t = ls.take(i + 1);
            assert(t.drop_last() =~= ls.take(i as int));
            assert(t.last() == lines@[i as int]@);
        }
        let t = chars_trim(&lines[i]);
        if t.len() > 0 {
            let ghost before = strs_view(out@);
            let m = crate_path_to_module(string_from_chars(t.as_slice()).as_str());
            out.push(m);
            assert(strs_view(out@) =~= before.push(m@));
        }
        i += 1;
    }
    assert(ls.take(i as int) =~= ls);
    out
}

// ---------------------------------------------------------------------------
// Comparing declared relationships with the graph
// ---------------------------------------------------------------------------

#[derive(Debug, Clone, Copy, PartialEq, Eq, Structural)]
pub enum WarningKind {
    /// Declared relationship but no actual import found.
    NoImport,
    /// Import exists but no relationship declared.
    Undeclared,
}

/// Warning about a relationship that doesn't match the import graph.
#[derive(Debug, Clone)]
pub struct RelationshipWarning {
    pub module: String,
    pub target: String,
    pub kind: WarningKind,
}

pub struct WarningView {
    pub module: Seq<char>,
    pub target: Seq<char>,
    pub kind: WarningKind,
}

impl View for RelationshipWarning {
    type V = WarningView;

    open spec fn view(&self) -> WarningView {
        WarningView { module: self.module@, target: self.target@, kind: self.kind }
    }
}

pub open spec fn warnings_view(s: Seq<RelationshipWarning>) -> Seq<WarningView> {
    s.map_values(|w: RelationshipWarning| w@)
}

/// The elements of `s` that `other` lacks, in order.
pub open spec fn missing(s: Seq<Seq<char>>, other: Seq<Seq<char>>) -> Seq<Seq<char>>
    decreases s.len(),
{
    if s.len() == 0 {
        seq![]
    } else if other.contains(s.last()) {
        missing(s.drop_last(), other)
    } else {
        missing(s.drop_last(), other).push(s.last())
    }
}

pub open spec fn warnings_as(m: Seq<char>, targets: Seq<Seq<char>>, kind: WarningKind) -> Seq<WarningView> {
    targets.map_values(|t: Seq<char>| WarningView { module: m, target: t, kind })
}

/// The drift of one module: a `NoImport` warning for each declared target
/// that is not a dependency, then an `Undeclared` warning for each
/// dependency that is not declared.
pub open spec fn drift(m: Seq<char>, declared: Seq<Seq<char>>, actual: Seq<Seq<char>>) -> Seq<WarningView> {
    warnings_as(m, missing(declared, actual), WarningKind::NoImport) + warnings_as(
        m,
        missing(actual, declared),
        WarningKind::Undeclared,
    )
}

pub open spec fn rel_targets(d: ModuleDocView) -> Seq<Seq<char>> {
    d.relationships.map_values(|r: crate::module_doc::DocRelationshipView| r.target)
}

/// The targets declared for module path `m`: those of the last document with
/// that path (a later document replaces an earlier one), none without one.
pub open spec fn declared_for(all: Seq<ModuleDocView>, m: Seq<char>) -> Seq<Seq<char>>
    decreases all.len(),
{
    if all.len() == 0 {
        seq![]
    } else if all.last().mod_path == m {
        rel_targets(all.last())
    } else {
        declared_for(all.drop_last(), m)
    }
}

/// The warnings of `validate_relationships`: for each document in order, the
/// drift between the distinct declared targets of its module path and its
/// distinct dependencies in the graph.
pub open spec fn validate_spec(docs: Seq<ModuleDocView>, all: Seq<ModuleDocView>, g: ImportGraphView) -> Seq<WarningView>
    decreases docs.len(),
{
    if docs.len() == 0 {
        seq![]
    } else {
        let m = docs.last().mod_path;
        validate_spec(docs.drop_last(), all, g) + drift(m, unique(declared_for(all, m)), unique(deps_of(g.edges, m)))
    }
}

/// The module paths of the nodes that no document describes, each once, in
/// order of first occurrence among the nodes.
pub open spec fn orphans_spec(nodes: Seq<Seq<char>>, docs: Seq<ModuleDocView>) -> Seq<Seq<char>> {
    unique(missing(nodes, docs.map_values(|d: ModuleDocView| d.mod_path)))
}

/// The strings of `v`, each once, in order of first occurrence.
pub fn unique_strs(v: &Vec<String>) -> (r: Vec<String>)
    ensures
        strs_view(r@) == unique(strs_view(v@)),
{
    let ghost vs = strs_view(v@);
    let mut out: Vec<String> = Vec::new();
    let mut i: usize = 0;
    while i < v.len()
        invariant
            0 <= i <= v@.len(),
            vs == strs_view(v@),
            strs_view(out@) == unique(vs.take(i as int)),
        decreases v@.len() - i,
    {
        proof {
            let t = vs.take(i + 1);
            assert(t.drop_last() =~= vs.take(i as int));
            assert(t.last() == v@[i as int]@);
        }
        if !strs_contain(&out, v[i].as_str()) {
            let ghost before = strs_view(out@);
            out.push(v[i].clone());
            assert(strs_view(out@) =~= before.push(v@[i as int]@));
        }
        i += 1;
    }
    assert(vs.take(i as int) =~= vs);
    out
}

/// The strings of `s` that `other` lacks, in order.
pub fn missing_strs(s: &Vec<String>, other: &Vec<String>) -> (r: Vec<String>)
    ensures
        strs_view(r@) == missing(strs_view(s@), strs_view(other@)),
{
    let ghost ss = strs_view(s@);
    let mut out: Vec<String> = Vec::new();
    let mut i: usize = 0;
    while i < s.len()
        invariant
            0 <= i <= s@.len(),
            ss == strs_view(s@),
            strs_view(out@) == missing(ss.take(i as int), strs_view(other@)),
        decreases s@.len() - i,
    {
        proof {
            let t = ss.take(i + 1);
            assert(t.drop_last() =~= ss.take(i as int));
            assert(t.last() == s@[i as int]@);
        }
        if !strs_contain(other, s[i].as_str()) {
            let ghost before = strs_view(out@);
            out.push(s[i].clone());
            assert(strs_view(out@) =~= before.push(s@[i as int]@));
        }
        i += 1;
    }
    assert(ss.take(i as int) =~= ss);
    out
}

fn push_warnings(out: &mut Vec<RelationshipWarning>, m: &String, targets: &Vec<String>, kind: WarningKind)
    ensures
        warnings_view(final(out)@) == warnings_view(old(out)@) + warnings_as(m@, strs_view(targets@), kind),
{
    let ghost start = warnings_view(out@);
    let mut i: usize = 0;
    while i < targets.len()
        invariant
            0 <= i <= targets@.len(),
            warnings_view(out@) =~= start + warnings_as(m@, strs_view(targets@).take(i as int), kind),
        decreases targets@.len() - i,
    {
        let ghost before = warnings_view(out@);
        out.push(RelationshipWarning { module: m.clone(), target: targets[i].clone(), kind });
        proof {
            assert(warnings_view(out@) =~= before.push(WarningView { module: m@, target: targets@[i as int]@, kind }));
            assert(strs_view(targets@).take(i + 1) =~= strs_view(targets@).take(i as int).push(targets@[i as int]@));
        }
        i += 1;
    }
    assert(strs_view(targets@).take(i as int) =~= strs_view(targets@));
}

/// Push the drift warnings of one module.
pub(crate) fn push_drift(out: &mut Vec<RelationshipWarning>, m: &String, declared: &Vec<String>, actual: &Vec<String>)
    ensures
        warnings_view(final(out)@) == warnings_view(old(out)@) + drift(m@, strs_view(declared@), strs_view(actual@)),
{
    let stale = missing_strs(declared, actual);
    let fresh = missing_strs(actual, declared);
    push_warnings(out, m, &stale, WarningKind::NoImport);
    push_warnings(out, m, &fresh, WarningKind::Undeclared);
    assert(warnings_view(out@) =~= warnings_view(old(out)@) + drift(m@, strs_view(declared@), strs_view(actual@)));
}

fn declared_for_exec(docs: &[ModuleDoc], m: &str) -> (r: Vec<String>)
    ensures
        strs_view(r@) == declared_for(crate::module_doc::docs_view(docs@), m@),
{
    let ghost all = crate::module_doc::docs_view(docs@);
    let mut k: usize = docs.len();
    assert(all.take(k as int) =~= all);
    while k > 0 && !str_eq(docs[k - 1].mod_path.as_str(), m)
        invariant
            0 <= k <= docs@.len(),
            all == crate::module_doc::docs_view(docs@),
            declared_for(all, m@) == declared_for(all.take(k as int), m@),
        decreases k,
    {
        proof {
            let t = all.take(k as int);
            assert(t.drop_last() =~= all.take(k - 1));
            assert(t.last() == docs@[k - 1]@);
        }
        k -= 1;
    }
    let mut out: Vec<String> = Vec::new();
    if k == 0 {
        assert(all.take(0) =~= Seq::<ModuleDocView>::empty());
        return out;
    }
    let d = &docs[k - 1];
    proof {
        let t = all.take(k as int);
        assert(t.last() == d@);
    }
    let mut i: usize = 0;
    while i < d.relationships.len()
        invariant
            0 <= i <= d.relationships@.len(),
            strs_view(out@) =~= rel_targets(d@).take(i as int),
        decreases d.relationships@.len() - i,
    {
        let ghost before = strs_view(out@);
        out.push(d.relationships[i].target.clone());
        assert(strs_view(out@) =~= before.push(d.relationships@[i as int].target@));
        i += 1;
    }
    out
}

/// Validate declared relationships against the actual import graph: for each
/// document, a `NoImport` warning for each declared target without an
/// import, then an `Undeclared` warning for each import without a declared
/// relationship.
pub fn validate_relationships(docs: &[ModuleDoc], graph: &ImportGraph) -> (r: Vec<RelationshipWarning>)
    ensures
        warnings_view(r@) == validate_spec(
            crate::module_doc::docs_view(docs@),
            crate::module_doc::docs_view(docs@),
            graph@,
        ),
{
    let ghost all = crate::module_doc::docs_view(docs@);
    let mut warnings: Vec<RelationshipWarning> = Vec::new();
    let mut i: usize = 0;
    while i < docs.len()
        invariant
            0 <= i <= docs@.len(),
            all == crate::module_doc::docs_view(docs@),
            warnings_view(warnings@) == validate_spec(all.take(i as int), all, graph@),
        decreases docs@.len() - i,
    {
        let module = &docs[i].mod_path;
        let actual = unique_strs(&graph.get_dependencies(module.as_str()));
        let declared = unique_strs(&declared_for_exec(docs, module.as_str()));
        push_drift(&mut warnings, module, &declared, &actual);
        proof {
            let t = all.take(i + 1);
            assert(t.drop_last() =~= all.take(i as int));
            assert(t.last() == docs@[i as int]@);
        }
        i += 1;
    }
    assert(all.take(i as int) =~= all);
    warnings
}

/// Detect orphaned modules: the nodes of the graph that no document
/// describes, each once, in node order.
pub fn detect_orphans(docs: &[ModuleDoc], graph: &ImportGraph) -> (r: Vec<String>)
    ensures
        strs_view(r@) == orphans_spec(graph@.nodes, crate::module_doc::docs_view(docs@)),
{
    let mut documented: Vec<String> = Vec::new();
    let mut i: usize = 0;
    while i < docs.len()
        invariant
            0 <= i <= docs@.len(),
            strs_view(documented@) =~= crate::module_doc::docs_view(docs@).take(i as int).map_values(
                |d: ModuleDocView| d.mod_path,
            ),
        decreases docs@.len() - i,
    {
        let ghost before = strs_view(documented@);
        documented.push(docs[i].mod_path.clone());
        assert(strs_view(documented@) =~= before.push(docs@[i as int].mod_path@));
        i += 1;
    }
    assert(crate::module_doc::docs_view(docs@).take(i as int) =~= crate::module_doc::docs_view(docs@));
    unique_strs(&missing_strs(&graph.nodes, &documented))
}

// ---------------------------------------------------------------------------
// Laws
// ---------------------------------------------------------------------------

pub proof fn lemma_add_unique(s: Seq<Seq<char>>, x: Seq<char>)
    ensures
        forall|y: Seq<char>| add_unique(s, x).contains(y) <==> (s.contains(y) || y == x),
        s.no_duplicates() ==> add_unique(s, x).no_duplicates(),
{
    if !s.contains(x) {
        assert forall|y: Seq<char>| add_unique(s, x).contains(y) <==> (s.contains(y) || y == x) by {
            if add_unique(s, x).contains(y) {
                let k = choose|k: int| 0 <= k < s.len() + 1 && s.push(x)[k] == y;
                if k < s.len() {
                    assert(s[k] == y);
                }
            }
            if s.contains(y) {
                let k = choose|k: int| 0 <= k < s.len() && s[k] == y;
                assert(s.push(x)[k] == y);
            }
            if y == x {
                assert(s.push(x)[s.len() as int] == y);
            }
        }
        if s.no_duplicates() {
            assert forall|i: int, j: int| 0 <= i < j < s.push(x).len() implies s.push(x)[i] != s.push(x)[j] by {
                if j == s.len() {
                    assert(s[i] == s.push(x)[i]);
                }
            }
        }
    }
}

/// `unique` keeps exactly the elements of its input, each once.
pub proof fn lemma_unique(s: Seq<Seq<char>>)
    ensures
        forall|y: Seq<char>| unique(s).contains(y) <==> s.contains(y),
        unique(s).no_duplicates(),
    decreases s.len(),
{
    if s.len() > 0 {
        lemma_unique(s.drop_last());
        lemma_add_unique(unique(s.drop_last()), s.last());
        assert forall|y: Seq<char>| s.contains(y) <==> (s.drop_last().contains(y) || y == s.last()) by {
            if s.contains(y) {
                let k = choose|k: int| 0 <= k < s.len() && s[k] == y;
                if k < s.len() - 1 {
                    assert(s.drop_last()[k] == y);
                }
            }
            if s.drop_last().contains(y) {
                let k = choose|k: int| 0 <= k < s.len() - 1 && s.drop_last()[k] == y;
                assert(s[k] == y);
            }
        }
    }
}

/// `missing` keeps exactly the elements of `s` that `other` lacks.
pub proof fn lemma_missing(s: Seq<Seq<char>>, other: Seq<Seq<char>>)
    ensures
        forall|y: Seq<char>| missing(s, other).contains(y) <==> (s.contains(y) && !other.contains(y)),
    decreases s.len(),
{
    if s.len() > 0 {
        lemma_missing(s.drop_last(), other);
        let r = missing(s.drop_last(), other);
        assert forall|y: Seq<char>| missing(s, other).contains(y) <==> (s.contains(y) && !other.contains(y)) by {
            if s.contains(y) {
                let k = choose|k: int| 0 <= k < s.len() && s[k] == y;
                if k < s.len() - 1 {
                    assert(s.drop_last()[k] == y);
                }
            }
            if s.drop_last().contains(y) {
                let k = choose|k: int| 0 <= k < s.len() - 1 && s.drop_last()[k] == y;
                assert(s[k] == y);
            }
            if !other.contains(s.last()) {
                if r.push(s.last()).contains(y) {
                    let k = choose|k: int| 0 <= k < r.len() + 1 && r.push(s.last())[k] == y;
                    if k < r.len() {
                        assert(r[k] == y);
                    }
                }
                if r.contains(y) {
                    let k = choose|k: int| 0 <= k < r.len() && r[k] == y;
                    assert(r.push(s.last())[k] == y);
                }
                if y == s.last() {
                    assert(r.push(s.last())[r.len() as int] == y);
                }
            }
        }
    }
}

/// An import graph whose nodes are distinct and hold both ends of every edge.
pub open spec fn graph_closed(g: ImportGraphView) -> bool {
    &&& g.nodes.no_duplicates()
    &&& forall|i: int|
        0 <= i < g.edges.len() ==> g.nodes.contains(#[trigger] g.edges[i].0) && g.nodes.contains(g.edges[i].1)
}

/// A parsed DOT graph is closed: its nodes are distinct and each edge joins
/// two of them.
pub proof fn lemma_parse_closed(lines: Seq<Seq<char>>)
    ensures
        parse_lines(lines) matches Ok(g) ==> graph_closed(g),
    decreases lines.len(),
{
    if lines.len() > 0 {
        lemma_parse_closed(lines.drop_last());
        if let Ok(g) = parse_lines(lines.drop_last()) {
            if let Ok(Some((f, t))) = dot_edge(lines.last()) {
                let n1 = add_unique(g.nodes, f);
                lemma_add_unique(g.nodes, f);
                lemma_add_unique(n1, t);
                let h = with_edge(g, f, t);
                assert forall|i: int| 0 <= i < h.edges.len() implies h.nodes.contains(#[trigger] h.edges[i].0)
                    && h.nodes.contains(h.edges[i].1) by {
                    if i < g.edges.len() {
                        assert(h.edges[i] == g.edges[i]);
                    }
                }
            }
        }
    }
}

/// The targets declared for `m` are, as a set, the modules `m` depends on.
pub open spec fn declares_imports(all: Seq<ModuleDocView>, g: ImportGraphView, m: Seq<char>) -> bool {
    forall|x: Seq<char>| declared_for(all, m).contains(x) <==> deps_of(g.edges, m).contains(x)
}

/// When every document declares exactly the modules its path depends on in
/// the graph (as sets), there is nothing to warn about.
pub proof fn lemma_validate_clean(docs: Seq<ModuleDocView>, all: Seq<ModuleDocView>, g: ImportGraphView)
    requires
        forall|i: int| 0 <= i < docs.len() ==> declares_imports(all, g, #[trigger] docs[i].mod_path),
    ensures
        validate_spec(docs, all, g) == Seq::<WarningView>::empty(),
    decreases docs.len(),
{
    if docs.len() > 0 {
        assert forall|i: int| 0 <= i < docs.drop_last().len() implies declares_imports(
            all,
            g,
            #[trigger] docs.drop_last()[i].mod_path,
        ) by {
            assert(docs.drop_last()[i] == docs[i]);
        }
        lemma_validate_clean(docs.drop_last(), all, g);
        let m = docs.last().mod_path;
        assert(docs[docs.len() - 1].mod_path == m);
        let d = unique(declared_for(all, m));
        let a = unique(deps_of(g.edges, m));
        lemma_unique(declared_for(all, m));
        lemma_unique(deps_of(g.edges, m));
        lemma_missing(d, a);
        lemma_missing(a, d);
        assert(declares_imports(all, g, m));
        assert(missing(d, a) =~= Seq::<Seq<char>>::empty()) by {
            if missing(d, a).len() > 0 {
                let y = missing(d, a)[0];
                assert(missing(d, a).contains(y));
                assert(declared_for(all, m).contains(y));
                assert(deps_of(g.edges, m).contains(y));
            }
        }
        assert(missing(a, d) =~= Seq::<Seq<char>>::empty()) by {
            if missing(a, d).len() > 0 {
                let y = missing(a, d)[0];
                assert(missing(a, d).contains(y));
                assert(deps_of(g.edges, m).contains(y));
                assert(declared_for(all, m).contains(y));
            }
        }
        assert(drift(m, d, a) =~= Seq::<WarningView>::empty());
        assert(validate_spec(docs, all, g) =~= Seq::<WarningView>::empty());
    }
}

/// The orphans are exactly the graph's nodes that no document describes,
/// with no repeats.
pub proof fn lemma_orphans(nodes: Seq<Seq<char>>, docs: Seq<ModuleDocView>)
    ensures
        forall|y: Seq<char>|
            orphans_spec(nodes, docs).contains(y) <==> (nodes.contains(y) && !docs.map_values(
                |d: ModuleDocView| d.mod_path,
            ).contains(y)),
        orphans_spec(nodes, docs).no_duplicates(),
{
    let m = missing(nodes, docs.map_values(|d: ModuleDocView| d.mod_path));
    lemma_missing(nodes, docs.map_values(|d: ModuleDocView| d.mod_path));
    lemma_unique(m);
}

} // verus!
