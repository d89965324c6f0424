//! Crate-level dependency edges from `cargo metadata`.
//!
//! Complements [`crate::cargo_modules`] (module-level, needs the external
//! `cargo-modules` tool) with a workspace-native source: `cargo metadata`
//! ships with every Cargo install. Edges are crate→crate (workspace members
//! only), which lines up with `@c4 component` granularity.
//!
//! The output is the same [`ImportGraph`] the `cargo_modules` path produces,
//! so the same [`RelationshipWarning`] types apply.
use vstd::prelude::*;

use crate::cargo_modules::{
    deps_of, drift, push_drift, unique, unique_strs, warnings_view, ImportGraph,
    ImportGraphView, RelationshipWarning, WarningKind, WarningView, warnings_as,
};
use crate::ir::{annotated_preorder, rels_view, ArchitectureIR, DirNodeView, RelationshipView};
use crate::text::{concat_all, decimal, decimal_string, push_str, seq_lt, str_eq, str_lt, strs_contain};
use crate::tree::{pairs_view, strs_view};

verus! {

broadcast use vstd::string::group_string_axioms;

// ---------------------------------------------------------------------------
// The metadata that the graph is built from
// ---------------------------------------------------------------------------

/// One dependency of a package, as `cargo metadata` lists it.
#[derive(Debug, Clone)]
pub struct CargoDependency {
    pub name: Option<String>,
    /// `None` for a normal dependency, `"dev"` or `"build"` otherwise.
    pub kind: Option<String>,
}

/// One workspace package, as `cargo metadata --no-deps` lists it.
#[derive(Debug, Clone)]
pub struct CargoPackage {
    pub name: Option<String>,
    pub dependencies: Option<Vec<CargoDependency>>,
}

/// The part of the `cargo metadata` document that the graph is built from.
#[derive(Debug, Clone)]
pub struct CargoMetadata {
    pub packages: Option<Vec<CargoPackage>>,
}

pub struct CargoDependencyView {
    pub name: Option<Seq<char>>,
    pub kind: Option<Seq<char>>,
}

pub struct CargoPackageView {
    pub name: Option<Seq<char>>,
    pub dependencies: Option<Seq<CargoDependencyView>>,
}

impl View for CargoDependency {
    type V = CargoDependencyView;

    open spec fn view(&self) -> CargoDependencyView {
        CargoDependencyView { name: crate::ir::opt_view(self.name), kind: crate::ir::opt_view(self.kind) }
    }
}

impl View for CargoPackage {
    type V = CargoPackageView;

    open spec fn view(&self) -> CargoPackageView {
        CargoPackageView {
            name: crate::ir::opt_view(self.name),
            dependencies: match self.dependencies {
                Some(d) => Some(d@.map_values(|x: CargoDependency| x@)),
                None => None,
            },
        }
    }
}

pub open spec fn packages_view(s: Seq<CargoPackage>) -> Seq<CargoPackageView> {
    s.map_values(|p: CargoPackage| p@)
}

/// The names of the packages that have one and are not ignored, in order.
pub open spec fn member_names(pkgs: Seq<CargoPackageView>, ignore: Seq<Seq<char>>) -> Seq<Seq<char>>
    decreases pkgs.len(),
{
    if pkgs.len() == 0 {
        seq![]
    } else {
        let r = member_names(pkgs.drop_last(), ignore);
        match pkgs.last().name {
            Some(n) => if ignore.contains(n) {
                r
            } else {
                r.push(n)
            },
            None => r,
        }
    }
}

/// A normal dependency of `from` on another member adds that edge once.
pub open spec fn dep_step(
    acc: Seq<(Seq<char>, Seq<char>)>,
    from: Seq<char>,
    d: CargoDependencyView,
    members: Seq<Seq<char>>,
) -> Seq<(Seq<char>, Seq<char>)> {
    match d.name {
        Some(n) => if d.kind is None && members.contains(n) && n != from && !acc.contains((from, n)) {
            acc.push((from, n))
        } else {
            acc
        },
        None => acc,
    }
}

pub open spec fn deps_fold(
    acc: Seq<(Seq<char>, Seq<char>)>,
    from: Seq<char>,
    ds: Seq<CargoDependencyView>,
    members: Seq<Seq<char>>,
) -> Seq<(Seq<char>, Seq<char>)>
    decreases ds.len(),
{
    if ds.len() == 0 {
        acc
    } else {
        dep_step(deps_fold(acc, from, ds.drop_last(), members), from, ds.last(), members)
    }
}

/// The edges a member package contributes; a package that is not a member,
/// or lists no dependencies, contributes none.
pub open spec fn pkg_edges(acc: Seq<(Seq<char>, Seq<char>)>, p: CargoPackageView, members: Seq<Seq<char>>) -> Seq<
    (Seq<char>, Seq<char>),
> {
    match p.name {
        Some(n) => if members.contains(n) {
            match p.dependencies {
                Some(ds) => deps_fold(acc, n, ds, members),
                None => acc,
            }
        } else {
            acc
        },
        None => acc,
    }
}

pub open spec fn edges_fold(pkgs: Seq<CargoPackageView>, members: Seq<Seq<char>>) -> Seq<(Seq<char>, Seq<char>)>
    decreases pkgs.len(),
{
    if pkgs.len() == 0 {
        seq![]
    } else {
        pkg_edges(edges_fold(pkgs.drop_last(), members), pkgs.last(), members)
    }
}

pub open spec fn no_packages_error() -> Seq<char> {
    "`cargo metadata` JSON has no `packages` array"@
}

/// The crate graph of a workspace: the distinct member names as nodes, and
/// each normal dependency between two different members as an edge, once.
pub open spec fn workspace_graph_spec(pkgs: Seq<CargoPackageView>, ignore: Seq<Seq<char>>) -> ImportGraphView {
    let members = unique(member_names(pkgs, ignore));
    ImportGraphView { nodes: members, edges: edges_fold(pkgs, members) }
}

fn dep_step_exec(edges: &mut Vec<(String, String)>, from: &String, d: &CargoDependency, members: &Vec<String>)
    ensures
        pairs_view(final(edges)@) == dep_step(pairs_view(old(edges)@), from@, d@, strs_view(members@)),
{
    match &d.name {
        Some(n) => {
            if d.kind.is_none() && strs_contain(members, n.as_str()) && !str_eq(n.as_str(), from.as_str()) {
                let ghost acc = pairs_view(edges@);
                let mut present = false;
                let mut i: usize = 0;
                while i < edges.len()
                    invariant
                        0 <= i <= edges@.len(),
                        acc == pairs_view(edges@),
                        present == exists|j: int| 0 <= j < i && acc[j] == (from@, n@),
                    decreases edges@.len() - i,
                {
                    if str_eq(edges[i].0.as_str(), from.as_str()) && str_eq(edges[i].1.as_str(), n.as_str()) {
                        present = true;
                    }
                    proof {
                        if acc[i as int] == (from@, n@) {
                            assert(exists|j: int| 0 <= j < i + 1 && acc[j] == (from@, n@));
                        }
                    }
                    i += 1;
                }
                if !present {
                    edges.push((from.clone(), n.clone()));
                    assert(pairs_view(edges@) =~= acc.push((from@, n@)));
                } else {
                    assert(acc.contains((from@, n@)));
                }
            }
        },
        None => {},
    }
}

/// Build the crate-level [`ImportGraph`] of a workspace from its metadata.
///
/// Nodes are the workspace member crate names; edges are the normal
/// (non-dev, non-build) dependencies between different members, each once.
/// `ignore` names are dropped from both nodes and edges. Metadata without a
/// `packages` array is an error.
pub fn workspace_import_graph(metadata: &CargoMetadata, ignore: &Vec<String>) -> (r: Result<ImportGraph, String>)
    ensures
        match metadata.packages {
            None => r matches Err(e) && e@ == no_packages_error(),
            Some(pkgs) => r matches Ok(g) && g@ == workspace_graph_spec(packages_view(pkgs@), strs_view(ignore@)),
        },
{
    let pkgs = match &metadata.packages {
        Some(p) => p,
        None => {
            return Err(crate::text::owned("`cargo metadata` JSON has no `packages` array"));
        },
    };
    let ghost pv = packages_view(pkgs@);
    let ghost iv = strs_view(ignore@);
    let mut names: Vec<String> = Vec::new();
    let mut i: usize = 0;
    while i < pkgs.len()
        invariant
            0 <= i <= pkgs@.len(),
            pv == packages_view(pkgs@),
            iv == strs_view(ignore@),
            strs_view(names@) == member_names(pv.take(i as int), iv),
        decreases pkgs@.len() - i,
    {
        proof {
            let t = pv.take(i + 1);
            assert(t.drop_last() =~= pv.take(i as int));
            assert(t.last() == pkgs@[i as int]@);
        }
        match &pkgs[i].name {
            Some(n) => {
                if !strs_contain(ignore, n.as_str()) {
                    let ghost before = strs_view(names@);
                    names.push(n.clone());
                    assert(strs_view(names@) =~= before.push(n@));
                }
            },
            None => {},
        }
        i += 1;
    }
    assert(pv.take(i as int) =~= pv);
    let members = unique_strs(&names);
    let ghost mv = strs_view(members@);
    let mut edges: Vec<(String, String)> = Vec::new();
    let mut k: usize = 0;
    assert(pairs_view(edges@) =~= Seq::<(Seq<char>, Seq<char>)>::empty());
    while k < pkgs.len()
        invariant
            0 <= k <= pkgs@.len(),
            pv == packages_view(pkgs@),
            mv == strs_view(members@),
            pairs_view(edges@) == edges_fold(pv.take(k as int), mv),
        decreases pkgs@.len() - k,
    {
        let p = &pkgs[k];
        proof {
            let t = pv.take(k + 1);
            assert(t.drop_last() =~= pv.take(k as int));
            assert(t.last() == p@);
        }
        let ghost acc0 = pairs_view(edges@);
        match &p.name {
            Some(from) => {
                if strs_contain(&members, from.as_str()) {
                    match &p.dependencies {
                        Some(ds) => {
                            let ghost dv = ds@.map_values(|x: CargoDependency| x@);
                            let mut j: usize = 0;
                            while j < ds.len()
                                invariant
                                    0 <= j <= ds@.len(),
                                    dv == ds@.map_values(|x: CargoDependency| x@),
                                    mv == strs_view(members@),
                                    pairs_view(edges@) == deps_fold(acc0, from@, dv.take(j as int), mv),
                                decreases ds@.len() - j,
                            {
                                proof {
                                    let t = dv.take(j + 1);
                                    assert(t.drop_last() =~= dv.take(j as int));
                                    assert(t.last() == ds@[j as int]@);
                                }
                                dep_step_exec(&mut edges, from, &ds[j], &members);
                                j += 1;
                            }
                            assert(dv.take(j as int) =~= dv);
                        },
                        None => {},
                    }
                }
            },
            None => {},
        }
        k += 1;
    }
    assert(pv.take(k as int) =~= pv);
    Ok(ImportGraph { nodes: members, edges })
}

// ---------------------------------------------------------------------------
// Comparing an IR with the crate graph
// ---------------------------------------------------------------------------

/// The strings of `s` that are not in `ignore`, in order.
pub open spec fn not_ignored(s: Seq<Seq<char>>, ignore: Seq<Seq<char>>) -> Seq<Seq<char>>
    decreases s.len(),
{
    if s.len() == 0 {
        seq![]
    } else if ignore.contains(s.last()) {
        not_ignored(s.drop_last(), ignore)
    } else {
        not_ignored(s.drop_last(), ignore).push(s.last())
    }
}

/// The drift of one annotated directory: skipped unless its name is a node
/// of the graph and not ignored; otherwise the drift between its distinct
/// declared targets and its distinct dependencies, both without ignored names.
pub open spec fn dir_drift(d: DirNodeView, g: ImportGraphView, ignore: Seq<Seq<char>>) -> Seq<WarningView> {
    if !g.nodes.contains(d.name) || ignore.contains(d.name) {
        seq![]
    } else {
        drift(
            d.name,
            unique(not_ignored(d.relationships.map_values(|r: RelationshipView| r.target), ignore)),
            unique(not_ignored(deps_of(g.edges, d.name), ignore)),
        )
    }
}

pub open spec fn dirs_drift(ds: Seq<DirNodeView>, g: ImportGraphView, ignore: Seq<Seq<char>>) -> Seq<WarningView>
    decreases ds.len(),
{
    if ds.len() == 0 {
        seq![]
    } else {
        dirs_drift(ds.drop_last(), g, ignore) + dir_drift(ds.last(), g, ignore)
    }
}

pub open spec fn kind_rank(k: WarningKind) -> int {
    match k {
        WarningKind::NoImport => 0,
        WarningKind::Undeclared => 1,
    }
}

/// Warnings are ordered by module, then target, then kind (`NoImport` first).
pub open spec fn warn_lt(a: WarningView, b: WarningView) -> bool {
    ||| seq_lt(a.module, b.module)
    ||| a.module == b.module && seq_lt(a.target, b.target)
    ||| a.module == b.module && a.target == b.target && kind_rank(a.kind) < kind_rank(b.kind)
}

/// The slot after the leading warnings that do not sort after `x`.
pub open spec fn warn_pos(t: Seq<WarningView>, x: WarningView) -> int
    decreases t.len(),
{
    if t.len() == 0 {
        0
    } else if !warn_lt(x, t[0]) {
        1 + warn_pos(t.drop_first(), x)
    } else {
        0
    }
}

/// `s` in ascending warning order (a stable insertion sort).
pub open spec fn sorted_warnings(s: Seq<WarningView>) -> Seq<WarningView>
    decreases s.len(),
{
    if s.len() == 0 {
        seq![]
    } else {
        let t = sorted_warnings(s.drop_last());
        t.insert(warn_pos(t, s.last()), s.last())
    }
}

proof fn lemma_warn_pos(t: Seq<WarningView>, x: WarningView)
    ensures
        0 <= warn_pos(t, x) <= t.len(),
    decreases t.len(),
{
    if t.len() > 0 && !warn_lt(x, t[0]) {
        lemma_warn_pos(t.drop_first(), x);
    }
}

fn warn_lt_exec(a: &RelationshipWarning, b: &RelationshipWarning) -> (r: bool)
    ensures
        r == warn_lt(a@, b@),
{
    if str_lt(a.module.as_str(), b.module.as_str()) {
        return true;
    }
    if !str_eq(a.module.as_str(), b.module.as_str()) {
        return false;
    }
    if str_lt(a.target.as_str(), b.target.as_str()) {
        return true;
    }
    if !str_eq(a.target.as_str(), b.target.as_str()) {
        return false;
    }
    match (a.kind, b.kind) {
        (WarningKind::NoImport, WarningKind::Undeclared) => true,
        _ => false,
    }
}

fn warn_slot(t: &Vec<RelationshipWarning>, x: &RelationshipWarning) -> (r: usize)
    ensures
        r == warn_pos(warnings_view(t@), x@),
{
    let ghost tv = warnings_view(t@);
    let mut i: usize = 0;
    assert(tv.skip(0) =~= tv);
    while i < t.len() && !warn_lt_exec(x, &t[i])
        invariant
            0 <= i <= t@.len(),
            tv == warnings_view(t@),
            warn_pos(tv, x@) == i + warn_pos(tv.skip(i as int), x@),
        decreases t@.len() - i,
    {
        assert(tv.skip(i + 1) =~= tv.skip(i as int).drop_first());
        i += 1;
    }
    proof {
        if i < t@.len() {
            assert(tv.skip(i as int)[0] == t@[i as int]@);
        }
    }
    i
}

/// The warnings in ascending (module, target, kind) order.
pub fn sort_warnings(v: Vec<RelationshipWarning>) -> (r: Vec<RelationshipWarning>)
    ensures
        warnings_view(r@) == sorted_warnings(warnings_view(v@)),
{
    let ghost all = warnings_view(v@);
    let ghost orig = v@;
    let mut out: Vec<RelationshipWarning> = Vec::new();
    for w in it: v.into_iter()
        invariant
            it.seq() == orig,
            all == warnings_view(orig),
            warnings_view(out@) == sorted_warnings(all.take(it.index() as int)),
    {
        let p = warn_slot(&out, &w);
        proof {
            let j = it.index() as int;
            assert(all.take(j + 1).drop_last() =~= all.take(j));
            assert(all.take(j + 1).last() == w@);
            lemma_warn_pos(warnings_view(out@), w@);
        }
        let ghost ov = warnings_view(out@);
        out.insert(p, w);
        assert(warnings_view(out@) =~= ov.insert(p as int, w@));
    }
    assert(all.take(all.len() as int) =~= all);
    out
}

/// The strings of `s` that are not in `ignore`.
fn not_ignored_exec(s: &Vec<String>, ignore: &Vec<String>) -> (r: Vec<String>)
    ensures
        strs_view(r@) == not_ignored(strs_view(s@), strs_view(ignore@)),
{
    let ghost sv = strs_view(s@);
    let mut out: Vec<String> = Vec::new();
    let mut i: usize = 0;
    while i < s.len()
        invariant
            0 <= i <= s@.len(),
            sv == strs_view(s@),
            strs_view(out@) == not_ignored(sv.take(i as int), strs_view(ignore@)),
        decreases s@.len() - i,
    {
        proof {
            let t = sv.take(i + 1);
            assert(t.drop_last() =~= sv.take(i as int));
            assert(t.last() == s@[i as int]@);
        }
        if !strs_contain(ignore, s[i].as_str()) {
            let ghost before = strs_view(out@);
            out.push(s[i].clone());
            assert(strs_view(out@) =~= before.push(s@[i as int]@));
        }
        i += 1;
    }
    assert(sv.take(i as int) =~= sv);
    out
}

/// Diff the `@c4 uses` relationships declared in a compiled IR against the
/// real crate-dependency graph.
///
/// Returns one [`RelationshipWarning`] per drift, in (module, target, kind)
/// order:
/// - [`WarningKind::NoImport`]: declared `@c4 uses` with no real dependency
///   (a stale arrow that should be removed), and
/// - [`WarningKind::Undeclared`]: real dependency with no `@c4 uses`
///   (a missing arrow that should be added).
///
/// Only annotated directories whose name is a node of the graph are compared;
/// sub-module dirs and un-annotated crates are skipped, and `ignore` names
/// drop out on both sides.
pub fn validate_ir_relationships(ir: &ArchitectureIR, graph: &ImportGraph, ignore: &Vec<String>) -> (r: Vec<
    RelationshipWarning,
>)
    ensures
        warnings_view(r@) == sorted_warnings(dirs_drift(annotated_preorder(ir@.root), graph@, strs_view(ignore@))),
{
    let dirs = ir.annotated_dirs();
    let ghost ds = annotated_preorder(ir@.root);
    assert(crate::ir::views_of_refs(dirs@) == ds);
    let ghost iv = strs_view(ignore@);
    let mut warnings: Vec<RelationshipWarning> = Vec::new();
    let mut i: usize = 0;
    while i < dirs.len()
        invariant
            0 <= i <= dirs@.len(),
            crate::ir::views_of_refs(dirs@) == ds,
            iv == strs_view(ignore@),
            warnings_view(warnings@) == dirs_drift(ds.take(i as int), graph@, iv),
        decreases dirs@.len() - i,
    {
        let dir = dirs[i];
        proof {
            let t = ds.take(i + 1);
            assert(t.drop_last() =~= ds.take(i as int));
            assert(t.last() == ds[i as int]);
            assert(ds[i as int] == dir@);
        }
        let name = &dir.name;
        if graph.has_node(name.as_str()) && !strs_contain(ignore, name.as_str()) {
            let mut targets: Vec<String> = Vec::new();
            let mut j: usize = 0;
            while j < dir.relationships.len()
                invariant
                    0 <= j <= dir.relationships@.len(),
                    strs_view(targets@) =~= rels_view(dir.relationships@).take(j as int).map_values(
                        |r: RelationshipView| r.target,
                    ),
                decreases dir.relationships@.len() - j,
            {
                let ghost before = strs_view(targets@);
                targets.push(dir.relationships[j].target.clone());
                assert(strs_view(targets@) =~= before.push(dir.relationships@[j as int].target@));
                j += 1;
            }
            assert(rels_view(dir.relationships@).take(j as int) =~= rels_view(dir.relationships@));
            let declared = unique_strs(&not_ignored_exec(&targets, ignore));
            let actual = unique_strs(&not_ignored_exec(&graph.get_dependencies(name.as_str()), ignore));
            push_drift(&mut warnings, name, &declared, &actual);
        }
        i += 1;
    }
    assert(ds.take(i as int) =~= ds);
    sort_warnings(warnings)
}

// ---------------------------------------------------------------------------
// The drift report
// ---------------------------------------------------------------------------

/// The warnings of one kind, in order.
pub open spec fn of_kind(ws: Seq<WarningView>, k: WarningKind) -> Seq<WarningView>
    decreases ws.len(),
{
    if ws.len() == 0 {
        seq![]
    } else if ws.last().kind == k {
        of_kind(ws.drop_last(), k).push(ws.last())
    } else {
        of_kind(ws.drop_last(), k)
    }
}

pub open spec fn missing_line(w: WarningView) -> Seq<char> {
    "  "@ + w.module + " → "@ + w.target + "\n      add to "@ + w.module + ": //! @c4 uses "@ + w.target
        + " \"<purpose>\" \"Rust\"\n"@
}

pub open spec fn stale_line(w: WarningView) -> Seq<char> {
    "  "@ + w.module + " → "@ + w.target + "  (remove or fix the `@c4 uses` line)\n"@
}

pub open spec fn passed_message() -> Seq<char> {
    "Relationship check passed — every `@c4 uses` matches a real crate dependency.\n"@
}

/// The report of a dependency check: a pass line when nothing drifted;
/// otherwise the missing arrows (real dependencies without `@c4 uses`) with
/// the line to add, then the stale arrows (`@c4 uses` without a dependency).
pub open spec fn drift_report_spec(ws: Seq<WarningView>) -> Seq<char> {
    if ws.len() == 0 {
        passed_message()
    } else {
        let miss = of_kind(ws, WarningKind::Undeclared);
        let stale = of_kind(ws, WarningKind::NoImport);
        (if miss.len() > 0 {
            "Missing `@c4 uses` ("@ + decimal(miss.len()) + " — real dependency, no declared arrow):\n"@
                + concat_all(miss.map_values(|w: WarningView| missing_line(w)))
        } else {
            seq![]
        }) + (if stale.len() > 0 {
            "\nStale `@c4 uses` ("@ + decimal(stale.len()) + " — declared arrow, no real dependency):\n"@
                + concat_all(stale.map_values(|w: WarningView| stale_line(w)))
        } else {
            seq![]
        })
    }
}

fn of_kind_exec(ws: &Vec<RelationshipWarning>, k: WarningKind) -> (r: Vec<RelationshipWarning>)
    ensures
        warnings_view(r@) == of_kind(warnings_view(ws@), k),
{
    let ghost wv = warnings_view(ws@);
    let mut out: Vec<RelationshipWarning> = Vec::new();
    let mut i: usize = 0;
    while i < ws.len()
        invariant
            0 <= i <= ws@.len(),
            wv == warnings_view(ws@),
            warnings_view(out@) == of_kind(wv.take(i as int), k),
        decreases ws@.len() - i,
    {
        proof {
            let t = wv.take(i + 1);
            assert(t.drop_last() =~= wv.take(i as int));
            assert(t.last() == ws@[i as int]@);
        }
        if ws[i].kind == k {
            let ghost before = warnings_view(out@);
            let w = RelationshipWarning { module: ws[i].module.clone(), target: ws[i].target.clone(), kind: ws[i].kind };
            out.push(w);
            assert(warnings_view(out@) =~= before.push(ws@[i as int]@));
        }
        i += 1;
    }
    assert(wv.take(i as int) =~= wv);
    out
}

fn push_lines(s: &mut String, ws: &Vec<RelationshipWarning>, missing: bool)
    ensures
        final(s)@ == old(s)@ + concat_all(
            if missing {
                warnings_view(ws@).map_values(|w: WarningView| missing_line(w))
            } else {
                warnings_view(ws@).map_values(|w: WarningView| stale_line(w))
            },
        ),
{
    let ghost lines = if missing {
        warnings_view(ws@).map_values(|w: WarningView| missing_line(w))
    } else {
        warnings_view(ws@).map_values(|w: WarningView| stale_line(w))
    };
    let ghost s0 = s@;
    let mut i: usize = 0;
    assert(lines.take(0) =~= Seq::<Seq<char>>::empty());
    while i < ws.len()
        invariant
            0 <= i <= ws@.len(),
            lines.len() == ws@.len(),
            lines == (if missing {
                warnings_view(ws@).map_values(|w: WarningView| missing_line(w))
            } else {
                warnings_view(ws@).map_values(|w: WarningView| stale_line(w))
            }),
            s@ == s0 + concat_all(lines.take(i as int)),
        decreases ws@.len() - i,
    {
        let w = &ws[i];
        let ghost before = s@;
        push_str(s, "  ");
        push_str(s, w.module.as_str());
        push_str(s, " → ");
        push_str(s, w.target.as_str());
        if missing {
            push_str(s, "\n      add to ");
            push_str(s, w.module.as_str());
            push_str(s, ": //! @c4 uses ");
            push_str(s, w.target.as_str());
            push_str(s, " \"<purpose>\" \"Rust\"\n");
        } else {
            push_str(s, "  (remove or fix the `@c4 uses` line)\n");
        }
        proof {
            crate::text::lemma_concat_step(lines, i as int);
            assert(lines[i as int] == (if missing {
                missing_line(w@)
            } else {
                stale_line(w@)
            }));
            assert(s@ =~= before + lines[i as int]);
        }
        i += 1;
    }
    assert(lines.take(i as int) =~= lines);
}

/// The report that a dependency check prints for its warnings.
pub fn drift_report(warnings: &Vec<RelationshipWarning>) -> (r: String)
    ensures
        r@ == drift_report_spec(warnings_view(warnings@)),
{
    if warnings.len() == 0 {
        return crate::text::owned(
            "Relationship check passed — every `@c4 uses` matches a real crate dependency.\n",
        );
    }
    let miss = of_kind_exec(warnings, WarningKind::Undeclared);
    let stale = of_kind_exec(warnings, WarningKind::NoImport);
    let mut out = String::new();
    let ghost part1 = if miss@.len() > 0 {
        "Missing `@c4 uses` ("@ + decimal(miss@.len()) + " — real dependency, no declared arrow):\n"@
            + concat_all(warnings_view(miss@).map_values(|w: WarningView| missing_line(w)))
    } else {
        seq![]
    };
    if miss.len() > 0 {
        push_str(&mut out, "Missing `@c4 uses` (");
        push_str(&mut out, decimal_string(miss.len()).as_str());
        push_str(&mut out, " — real dependency, no declared arrow):\n");
        push_lines(&mut out, &miss, true);
    }
    assert(out@ =~= part1);
    if stale.len() > 0 {
        push_str(&mut out, "\nStale `@c4 uses` (");
        push_str(&mut out, decimal_string(stale.len()).as_str());
        push_str(&mut out, " — declared arrow, no real dependency):\n");
        push_lines(&mut out, &stale, false);
    }
    proof {
        assert(warnings_view(miss@).len() == miss@.len());
        assert(warnings_view(stale@).len() == stale@.len());
    }
    assert(out@ =~= drift_report_spec(warnings_view(warnings@)));
    out
}

// ---------------------------------------------------------------------------
// Laws
// ---------------------------------------------------------------------------

proof fn lemma_warn_order(a: WarningView, b: WarningView, c: WarningView)
    ensures
        warn_lt(a, b) ==> !warn_lt(b, a),
        warn_lt(a, b) && warn_lt(b, c) ==> warn_lt(a, c),
        a == b || warn_lt(a, b) || warn_lt(b, a),
{
    crate::text::lemma_lt_irreflexive(a.module);
    crate::text::lemma_lt_irreflexive(a.target);
    crate::text::lemma_lt_total(a.module, b.module);
    crate::text::lemma_lt_total(a.target, b.target);
    if seq_lt(a.module, b.module) {
        crate::text::lemma_lt_asymmetric(a.module, b.module);
    }
    if seq_lt(a.target, b.target) {
        crate::text::lemma_lt_asymmetric(a.target, b.target);
    }
    if seq_lt(a.module, b.module) && seq_lt(b.module, c.module) {
        crate::text::lemma_lt_transitive(a.module, b.module, c.module);
    }
    if seq_lt(a.target, b.target) && seq_lt(b.target, c.target) {
        crate::text::lemma_lt_transitive(a.target, b.target, c.target);
    }
    if a.module == b.module && a.target == b.target && kind_rank(a.kind) == kind_rank(b.kind) {
        assert(a.kind == b.kind);
    }
}

/// No warning sorts before one that precedes it.
pub open spec fn warnings_sorted(t: Seq<WarningView>) -> bool {
    forall|i: int, j: int| 0 <= i < j < t.len() ==> !warn_lt(#[trigger] t[j], #[trigger] t[i])
}

proof fn lemma_warn_pos_props(t: Seq<WarningView>, x: WarningView)
    ensures
        forall|k: int| 0 <= k < warn_pos(t, x) ==> !warn_lt(x, #[trigger] t[k]),
        warn_pos(t, x) < t.len() ==> warn_lt(x, t[warn_pos(t, x)]),
    decreases t.len(),
{
    lemma_warn_pos(t, x);
    if t.len() > 0 && !warn_lt(x, t[0]) {
        let d = t.drop_first();
        let q = warn_pos(d, x);
        lemma_warn_pos_props(d, x);
        lemma_warn_pos(d, x);
        assert(warn_pos(t, x) == 1 + q);
        assert forall|k: int| 0 <= k < warn_pos(t, x) implies !warn_lt(x, #[trigger] t[k]) by {
            if k > 0 {
                assert(t[k] == d[k - 1]);
            }
        }
        if q < d.len() {
            assert(t[1 + q] == d[q]);
        }
    }
}

/// Sorting keeps the warnings, puts them in (module, target, kind) order,
/// and keeps their number.
pub proof fn lemma_sorted_warnings(s: Seq<WarningView>)
    ensures
        warnings_sorted(sorted_warnings(s)),
        sorted_warnings(s).len() == s.len(),
        forall|w: WarningView| sorted_warnings(s).contains(w) <==> s.contains(w),
    decreases s.len(),
{
    if s.len() > 0 {
        lemma_sorted_warnings(s.drop_last());
        let t = sorted_warnings(s.drop_last());
        let x = s.last();
        let p = warn_pos(t, x);
        lemma_warn_pos(t, x);
        lemma_warn_pos_props(t, x);
        let r = t.insert(p, x);
        assert(r == sorted_warnings(s));
        assert forall|j: int| p <= j < t.len() implies warn_lt(x, #[trigger] t[j]) by {
            lemma_warn_order(x, t[p], t[j]);
            lemma_warn_order(t[p], t[j], t[j]);
        }
        assert forall|i: int, j: int| 0 <= i < j < r.len() implies !warn_lt(#[trigger] r[j], #[trigger] r[i]) by {
            if j < p {
            } else if j == p {
                assert(r[i] == t[i]);
            } else if i < p {
                assert(r[i] == t[i] && r[j] == t[j - 1]);
            } else if i == p {
                assert(r[j] == t[j - 1]);
                lemma_warn_order(x, t[j - 1], x);
            } else {
                assert(r[i] == t[i - 1] && r[j] == t[j - 1]);
            }
        }
        assert forall|w: WarningView| r.contains(w) <==> s.contains(w) by {
            crate::seq_facts::lemma_insert_contains(t, p, x, w);
            crate::seq_facts::lemma_last_contains(s, w);
        }
    }
}

proof fn lemma_not_ignored(s: Seq<Seq<char>>, ignore: Seq<Seq<char>>)
    ensures
        forall|y: Seq<char>| not_ignored(s, ignore).contains(y) <==> s.contains(y) && !ignore.contains(y),
    decreases s.len(),
{
    if s.len() > 0 {
        lemma_not_ignored(s.drop_last(), ignore);
        let r = not_ignored(s.drop_last(), ignore);
        assert forall|y: Seq<char>| not_ignored(s, ignore).contains(y) <==> s.contains(y) && !ignore.contains(y) by {
            crate::seq_facts::lemma_last_contains(s, y);
            if !ignore.contains(s.last()) {
                crate::seq_facts::lemma_last_contains(r.push(s.last()), y);
                assert(r.push(s.last()).drop_last() =~= r);
            }
        }
    }
}

proof fn lemma_warnings_as(m: Seq<char>, ts: Seq<Seq<char>>, kind: WarningKind)
    ensures
        forall|w: WarningView| warnings_as(m, ts, kind).contains(w) ==> w.module == m && ts.contains(w.target),
{
    assert forall|w: WarningView| warnings_as(m, ts, kind).contains(w) implies w.module == m && ts.contains(w.target) by {
        let k = choose|k: int| 0 <= k < warnings_as(m, ts, kind).len() && warnings_as(m, ts, kind)[k] == w;
        assert(ts[k] == w.target);
    }
}

proof fn lemma_dir_drift_clean(d: DirNodeView, g: ImportGraphView, ignore: Seq<Seq<char>>)
    ensures
        forall|w: WarningView|
            dir_drift(d, g, ignore).contains(w) ==> g.nodes.contains(w.module) && !ignore.contains(w.module)
                && !ignore.contains(w.target),
{
    if g.nodes.contains(d.name) && !ignore.contains(d.name) {
        let t0 = d.relationships.map_values(|r: RelationshipView| r.target);
        let t1 = deps_of(g.edges, d.name);
        let decl = unique(not_ignored(t0, ignore));
        let act = unique(not_ignored(t1, ignore));
        crate::cargo_modules::lemma_unique(not_ignored(t0, ignore));
        crate::cargo_modules::lemma_unique(not_ignored(t1, ignore));
        lemma_not_ignored(t0, ignore);
        lemma_not_ignored(t1, ignore);
        crate::cargo_modules::lemma_missing(decl, act);
        crate::cargo_modules::lemma_missing(act, decl);
        let a = warnings_as(d.name, crate::cargo_modules::missing(decl, act), WarningKind::NoImport);
        let b = warnings_as(d.name, crate::cargo_modules::missing(act, decl), WarningKind::Undeclared);
        lemma_warnings_as(d.name, crate::cargo_modules::missing(decl, act), WarningKind::NoImport);
        lemma_warnings_as(d.name, crate::cargo_modules::missing(act, decl), WarningKind::Undeclared);
        assert(dir_drift(d, g, ignore) == a + b);
        assert forall|w: WarningView| dir_drift(d, g, ignore).contains(w) implies g.nodes.contains(w.module)
            && !ignore.contains(w.module) && !ignore.contains(w.target) by {
            crate::seq_facts::lemma_concat_contains(a, b, w);
        }
    }
}

proof fn lemma_dirs_drift_clean(ds: Seq<DirNodeView>, g: ImportGraphView, ignore: Seq<Seq<char>>)
    ensures
        forall|w: WarningView|
            dirs_drift(ds, g, ignore).contains(w) ==> g.nodes.contains(w.module) && !ignore.contains(w.module)
                && !ignore.contains(w.target),
    decreases ds.len(),
{
    if ds.len() > 0 {
        lemma_dirs_drift_clean(ds.drop_last(), g, ignore);
        lemma_dir_drift_clean(ds.last(), g, ignore);
        let prev = dirs_drift(ds.drop_last(), g, ignore);
        let cur = dir_drift(ds.last(), g, ignore);
        assert forall|w: WarningView| dirs_drift(ds, g, ignore).contains(w) implies g.nodes.contains(w.module)
            && !ignore.contains(w.module) && !ignore.contains(w.target) by {
            crate::seq_facts::lemma_concat_contains(prev, cur, w);
        }
    }
}

/// The IR check reports in (module, target, kind) order, only about crates
/// that are nodes of the graph, and never names an ignored crate on either
/// side of a warning.
pub proof fn lemma_ir_check_clean(ds: Seq<DirNodeView>, g: ImportGraphView, ignore: Seq<Seq<char>>)
    ensures
        warnings_sorted(sorted_warnings(dirs_drift(ds, g, ignore))),
        forall|w: WarningView|
            sorted_warnings(dirs_drift(ds, g, ignore)).contains(w) ==> g.nodes.contains(w.module)
                && !ignore.contains(w.module) && !ignore.contains(w.target),
{
    let all = dirs_drift(ds, g, ignore);
    lemma_sorted_warnings(all);
    lemma_dirs_drift_clean(ds, g, ignore);
    assert forall|w: WarningView| sorted_warnings(all).contains(w) implies g.nodes.contains(w.module)
        && !ignore.contains(w.module) && !ignore.contains(w.target) by {
        assert(all.contains(w));
    }
}

/// Edges between distinct members, each once.
pub open spec fn member_edges(acc: Seq<(Seq<char>, Seq<char>)>, members: Seq<Seq<char>>) -> bool {
    &&& acc.no_duplicates()
    &&& forall|i: int|
        0 <= i < acc.len() ==> members.contains(#[trigger] acc[i].0) && members.contains(acc[i].1) && acc[i].0
            != acc[i].1
}

proof fn lemma_deps_fold(acc: Seq<(Seq<char>, Seq<char>)>, from: Seq<char>, ds: Seq<CargoDependencyView>, members: Seq<Seq<char>>)
    requires
        member_edges(acc, members),
        members.contains(from),
    ensures
        member_edges(deps_fold(acc, from, ds, members), members),
    decreases ds.len(),
{
    if ds.len() > 0 {
        lemma_deps_fold(acc, from, ds.drop_last(), members);
        let a = deps_fold(acc, from, ds.drop_last(), members);
        let r = dep_step(a, from, ds.last(), members);
        if r != a {
            let n = ds.last().name->0;
            assert(r == a.push((from, n)));
            assert forall|i: int, j: int| 0 <= i < j < r.len() implies r[i] != r[j] by {
                if j == a.len() {
                    assert(r[i] == a[i]);
                    assert(a.contains(a[i]));
                }
            }
            assert forall|i: int| 0 <= i < r.len() implies members.contains(#[trigger] r[i].0) && members.contains(
                r[i].1,
            ) && r[i].0 != r[i].1 by {
                if i < a.len() {
                    assert(r[i] == a[i]);
                }
            }
        }
    }
}

proof fn lemma_edges_fold(pkgs: Seq<CargoPackageView>, members: Seq<Seq<char>>)
    ensures
        member_edges(edges_fold(pkgs, members), members),
    decreases pkgs.len(),
{
    if pkgs.len() > 0 {
        lemma_edges_fold(pkgs.drop_last(), members);
        let acc = edges_fold(pkgs.drop_last(), members);
        let p = pkgs.last();
        if let Some(n) = p.name {
            if members.contains(n) {
                if let Some(ds) = p.dependencies {
                    lemma_deps_fold(acc, n, ds, members);
                }
            }
        }
    } else {
        assert(edges_fold(pkgs, members) =~= Seq::<(Seq<char>, Seq<char>)>::empty());
    }
}

proof fn lemma_member_names(pkgs: Seq<CargoPackageView>, ignore: Seq<Seq<char>>)
    ensures
        forall|y: Seq<char>| member_names(pkgs, ignore).contains(y) ==> !ignore.contains(y),
    decreases pkgs.len(),
{
    if pkgs.len() > 0 {
        lemma_member_names(pkgs.drop_last(), ignore);
        let r = member_names(pkgs.drop_last(), ignore);
        assert forall|y: Seq<char>| member_names(pkgs, ignore).contains(y) implies !ignore.contains(y) by {
            if !r.contains(y) {
                let k = choose|k: int| 0 <= k < member_names(pkgs, ignore).len() && member_names(pkgs, ignore)[k] == y;
                if k < r.len() {
                    assert(r[k] == y);
                }
            }
        }
    }
}

/// The workspace graph is closed and plain: its nodes are distinct member
/// names, none of them ignored; every edge joins two different nodes; and no
/// edge occurs twice.
pub proof fn lemma_workspace_graph(pkgs: Seq<CargoPackageView>, ignore: Seq<Seq<char>>)
    ensures
        crate::cargo_modules::graph_closed(workspace_graph_spec(pkgs, ignore)),
        workspace_graph_spec(pkgs, ignore).edges.no_duplicates(),
        forall|i: int|
            0 <= i < workspace_graph_spec(pkgs, ignore).edges.len() ==> #[trigger] workspace_graph_spec(
                pkgs,
                ignore,
            ).edges[i].0 != workspace_graph_spec(pkgs, ignore).edges[i].1,
        forall|y: Seq<char>| workspace_graph_spec(pkgs, ignore).nodes.contains(y) ==> !ignore.contains(y),
{
    let members = unique(member_names(pkgs, ignore));
    crate::cargo_modules::lemma_unique(member_names(pkgs, ignore));
    lemma_member_names(pkgs, ignore);
    lemma_edges_fold(pkgs, members);
}

proof fn lemma_warnings_as_has(m: Seq<char>, ts: Seq<Seq<char>>, kind: WarningKind, t: Seq<char>)
    requires
        ts.contains(t),
    ensures
        warnings_as(m, ts, kind).contains(WarningView { module: m, target: t, kind }),
{
    let k = choose|k: int| 0 <= k < ts.len() && ts[k] == t;
    assert(warnings_as(m, ts, kind)[k] == WarningView { module: m, target: t, kind });
}

proof fn lemma_dirs_drift_has(ds: Seq<DirNodeView>, g: ImportGraphView, ignore: Seq<Seq<char>>, k: int, w: WarningView)
    requires
        0 <= k < ds.len(),
        dir_drift(ds[k], g, ignore).contains(w),
    ensures
        dirs_drift(ds, g, ignore).contains(w),
    decreases ds.len(),
{
    let prev = dirs_drift(ds.drop_last(), g, ignore);
    let cur = dir_drift(ds.last(), g, ignore);
    crate::seq_facts::lemma_concat_contains(prev, cur, w);
    if k < ds.len() - 1 {
        assert(ds.drop_last()[k] == ds[k]);
        lemma_dirs_drift_has(ds.drop_last(), g, ignore, k, w);
    }
}

/// The IR check misses no drift: for an annotated directory whose name is a
/// node of the graph and not ignored, each non-ignored dependency of that
/// name in the graph that the directory does not declare is reported as
/// `Undeclared`, and each non-ignored declared target that is not a
/// dependency is reported as `NoImport`, both under the directory's name.
pub proof fn lemma_ir_check_complete(
    ds: Seq<DirNodeView>,
    g: ImportGraphView,
    ignore: Seq<Seq<char>>,
    k: int,
    t: Seq<char>,
)
    requires
        0 <= k < ds.len(),
        g.nodes.contains(ds[k].name),
        !ignore.contains(ds[k].name),
        !ignore.contains(t),
    ensures
        deps_of(g.edges, ds[k].name).contains(t) && !ds[k].relationships.map_values(
            |r: RelationshipView| r.target,
        ).contains(t) ==> sorted_warnings(dirs_drift(ds, g, ignore)).contains(
            WarningView { module: ds[k].name, target: t, kind: WarningKind::Undeclared },
        ),
        ds[k].relationships.map_values(|r: RelationshipView| r.target).contains(t) && !deps_of(
            g.edges,
            ds[k].name,
        ).contains(t) ==> sorted_warnings(dirs_drift(ds, g, ignore)).contains(
            WarningView { module: ds[k].name, target: t, kind: WarningKind::NoImport },
        ),
{
    let d = ds[k];
    let t0 = d.relationships.map_values(|r: RelationshipView| r.target);
    let t1 = deps_of(g.edges, d.name);
    let decl = unique(not_ignored(t0, ignore));
    let act = unique(not_ignored(t1, ignore));
    crate::cargo_modules::lemma_unique(not_ignored(t0, ignore));
    crate::cargo_modules::lemma_unique(not_ignored(t1, ignore));
    lemma_not_ignored(t0, ignore);
    lemma_not_ignored(t1, ignore);
    crate::cargo_modules::lemma_missing(decl, act);
    crate::cargo_modules::lemma_missing(act, decl);
    let a = warnings_as(d.name, crate::cargo_modules::missing(decl, act), WarningKind::NoImport);
    let b = warnings_as(d.name, crate::cargo_modules::missing(act, decl), WarningKind::Undeclared);
    assert(dir_drift(d, g, ignore) == a + b);
    let all = dirs_drift(ds, g, ignore);
    lemma_sorted_warnings(all);
    if t1.contains(t) && !t0.contains(t) {
        let w = WarningView { module: d.name, target: t, kind: WarningKind::Undeclared };
        assert(act.contains(t));
        assert(!decl.contains(t));
        lemma_warnings_as_has(d.name, crate::cargo_modules::missing(act, decl), WarningKind::Undeclared, t);
        crate::seq_facts::lemma_concat_contains(a, b, w);
        lemma_dirs_drift_has(ds, g, ignore, k, w);
    }
    if t0.contains(t) && !t1.contains(t) {
        let w = WarningView { module: d.name, target: t, kind: WarningKind::NoImport };
        assert(decl.contains(t));
        assert(!act.contains(t));
        lemma_warnings_as_has(d.name, crate::cargo_modules::missing(decl, act), WarningKind::NoImport, t);
        crate::seq_facts::lemma_concat_contains(a, b, w);
        lemma_dirs_drift_has(ds, g, ignore, k, w);
    }
}

} // verus!
