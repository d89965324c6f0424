//! IR builder: lays module annotations onto a bare directory tree.
//!
//! The builder performs three steps:
//! 1. Build a bare tree from the directory listing (structure only)
//! 2. Overlay module annotations onto matching directory nodes
//! 3. Resolve parent relationships (nearest annotated ancestor)
use vstd::prelude::*;

use crate::ir::{
    codes_view, dirs_view, empty_view, files_view, first_with_path, is_annotated_view, lemma_dirs_view,
    lemma_dirs_view_index, opt_view, preorder, rels_view, ArchitectureIR, ArchitectureIRView,
    CodeElement, CodeElementView, DirNode, DirNodeView, FileNode, FileNodeView, Relationship,
    RelationshipView,
};
use crate::merge::dir_names;
use crate::tree::{build_dir_tree, child_rel, clean_tree, dir_node_spec, FsDir, FsDirView, TreeConfig};
use crate::module_doc::{
    DocCodeElementView, DocRelationshipView, FileEntry, FileEntryView, ModuleDoc, ModuleDocView,
};
use crate::paths::{file_name_of, parent_of, path_file_name, path_parent, path_strip_prefix, strip_prefix_of};
use crate::text::{
    asc_pos, asc_slot, chars_eq, chars_of, chars_split, join, join_strings, key_views, lemma_asc_pos,
    push_str, replace_char, replace_char_exec, split_char, str_eq,
};

verus! {

broadcast use vstd::string::group_string_axioms;

// ---------------------------------------------------------------------------
// Module → directory path
// ---------------------------------------------------------------------------

pub open spec fn or_dot(o: Option<Seq<char>>) -> Seq<char> {
    match o {
        Some(p) => p,
        None => "."@,
    }
}

/// The directory a module's annotations land on.
///
/// `_lib` is the root. Otherwise the source file's directory relative to the
/// scan root (a crate-root `src/lib.rs` standing for its crate directory), or,
/// when the source file is not under the scan root, the module path with `.`
/// read as `/`.
pub open spec fn dir_path_of(m: ModuleDocView, scan_root: Seq<char>) -> Seq<char> {
    if m.mod_path == "_lib"@ {
        "."@
    } else {
        let filename = match path_file_name(m.source_file) {
            Some(n) => n,
            None => Seq::<char>::empty(),
        };
        let rel = if scan_root.len() > 0 {
            path_strip_prefix(m.source_file, scan_root)
        } else {
            None
        };
        match rel {
            Some(r) => {
                let dir0 = or_dot(path_parent(r));
                let dir = if filename == "lib.rs"@ && path_file_name(dir0) == Some("src"@) {
                    or_dot(path_parent(dir0))
                } else {
                    dir0
                };
                let s = replace_char(dir, '\\', '/');
                if s.len() > 0 {
                    s
                } else {
                    "."@
                }
            },
            None => {
                let p = replace_char(m.mod_path, '.', '/');
                if p.len() > 0 {
                    p
                } else {
                    "."@
                }
            },
        }
    }
}

fn or_dot_exec(o: Option<String>) -> (r: String)
    ensures
        r@ == or_dot(opt_view(o)),
{
    match o {
        Some(p) => p,
        None => ".".to_string(),
    }
}

fn module_path_to_dir_path(module: &ModuleDoc, scan_root: &str) -> (r: String)
    ensures
        r@ == dir_path_of(module@, scan_root@),
{
    if str_eq(module.mod_path.as_str(), "_lib") {
        return ".".to_string();
    }
    let filename = match file_name_of(module.source_file.as_str()) {
        Some(n) => n,
        None => String::new(),
    };
    let rel = if !scan_root.is_empty() {
        strip_prefix_of(module.source_file.as_str(), scan_root)
    } else {
        None
    };
    match rel {
        Some(r) => {
            let dir0 = or_dot_exec(parent_of(r.as_str()));
            let is_src = match file_name_of(dir0.as_str()) {
                Some(n) => str_eq(n.as_str(), "src"),
                None => false,
            };
            let dir = if str_eq(filename.as_str(), "lib.rs") && is_src {
                or_dot_exec(parent_of(dir0.as_str()))
            } else {
                dir0
            };
            let s = replace_char_exec(dir.as_str(), '\\', '/');
            if !s.as_str().is_empty() {
                s
            } else {
                ".".to_string()
            }
        },
        None => {
            let p = replace_char_exec(module.mod_path.as_str(), '.', '/');
            if !p.as_str().is_empty() {
                p
            } else {
                ".".to_string()
            }
        },
    }
}


// ---------------------------------------------------------------------------
// Creating missing directories
// ---------------------------------------------------------------------------

/// The index of the first node named `name`, or the length when none is.
pub open spec fn name_index(s: Seq<DirNodeView>, name: Seq<char>) -> int
    decreases s.len(),
{
    if s.len() == 0 {
        0
    } else if s[0].name == name {
        0
    } else {
        1 + name_index(s.drop_first(), name)
    }
}

proof fn lemma_name_index(s: Seq<DirNodeView>, name: Seq<char>)
    ensures
        0 <= name_index(s, name) <= s.len(),
        name_index(s, name) < s.len() ==> s[name_index(s, name)].name == name,
        forall|j: int| 0 <= j < s.len() && s[j].name == name ==> name_index(s, name) <= j,
    decreases s.len(),
{
    if s.len() > 0 && s[0].name != name {
        lemma_name_index(s.drop_first(), name);
        assert forall|j: int| 0 <= j < s.len() && s[j].name == name implies name_index(s, name) <= j by {
            assert(s.drop_first()[j - 1] == s[j]);
        }
    }
}

/// Nodes in ascending name order, equal names keeping their order (a stable
/// sort by name).
pub open spec fn sorted_nodes(s: Seq<DirNodeView>) -> Seq<DirNodeView>
    decreases s.len(),
{
    if s.len() == 0 {
        seq![]
    } else {
        let t = sorted_nodes(s.drop_last());
        t.insert(asc_pos(dir_names(t), s.last().name), s.last())
    }
}

proof fn lemma_sorted_nodes_len(s: Seq<DirNodeView>)
    ensures
        sorted_nodes(s).len() == s.len(),
    decreases s.len(),
{
    if s.len() > 0 {
        lemma_sorted_nodes_len(s.drop_last());
        lemma_asc_pos(dir_names(sorted_nodes(s.drop_last())), s.last().name);
    }
}

/// Walk `parts` down from `n`, creating each missing directory (the children
/// are then re-sorted by name) and descending into the first child of the
/// part's name.
pub open spec fn ensure_parts(n: DirNodeView, parts: Seq<Seq<char>>, k: int) -> DirNodeView
    decreases parts.len() - k,
{
    if k < 0 || k >= parts.len() {
        n
    } else {
        let part = parts[k];
        let dirs1 = if name_index(n.dirs, part) < n.dirs.len() {
            n.dirs
        } else {
            sorted_nodes(n.dirs.push(empty_view(part, join(parts.take(k + 1), "/"@))))
        };
        let idx = name_index(dirs1, part);
        DirNodeView { dirs: dirs1.update(idx, ensure_parts(dirs1[idx], parts, k + 1)), ..n }
    }
}

/// The tree with a directory at `path`: unchanged for the root (`.` or
/// empty) and for a path some node already has; otherwise the missing
/// directories along the `/`-separated path are created.
pub open spec fn ensured(tree: DirNodeView, path: Seq<char>) -> DirNodeView {
    if path == "."@ || path.len() == 0 {
        tree
    } else if first_with_path(preorder(tree), path) is Some {
        tree
    } else {
        ensure_parts(tree, split_char(path, '/'), 0)
    }
}

fn name_index_exec(s: &Vec<DirNode>, name: &Vec<char>) -> (r: usize)
    ensures
        r == name_index(dirs_view(s@), name@),
{
    proof {
        lemma_dirs_view_index(s@);
    }
    let ghost sv = dirs_view(s@);
    let mut i: usize = 0;
    assert(sv.skip(0) =~= sv);
    while i < s.len() && !chars_eq(&chars_of(s[i].name.as_str()), name)
        invariant
            0 <= i <= s@.len(),
            sv == dirs_view(s@),
            sv.len() == s@.len(),
            forall|k: int| 0 <= k < s@.len() ==> #[trigger] sv[k] == s@[k]@,
            name_index(sv, name@) == i + name_index(sv.skip(i as int), name@),
        decreases s@.len() - i,
    {
        assert(sv.skip(i + 1) =~= sv.skip(i as int).drop_first());
        assert(sv.skip(i as int)[0] == sv[i as int]);
        i += 1;
    }
    proof {
        if i < s@.len() {
            assert(sv.skip(i as int)[0] == sv[i as int]);
        }
    }
    i
}

fn sort_nodes(v: Vec<DirNode>) -> (r: Vec<DirNode>)
    ensures
        dirs_view(r@) == sorted_nodes(dirs_view(v@)),
{
    proof {
        lemma_dirs_view(v@);
    }
    let ghost all = dirs_view(v@);
    let ghost orig = v@;
    let mut out: Vec<DirNode> = Vec::new();
    let mut keys: Vec<Vec<char>> = Vec::new();
    proof {
        lemma_dirs_view(out@);
    }
    for d in it: v.into_iter()
        invariant
            it.seq() == orig,
            all == orig.map_values(|x: DirNode| x@),
            out@.len() == keys@.len(),
            dirs_view(out@) == out@.map_values(|x: DirNode| x@),
            key_views(keys@) == dir_names(dirs_view(out@)),
            dirs_view(out@) == sorted_nodes(all.take(it.index() as int)),
    {
        let k = chars_of(d.name.as_str());
        let p = asc_slot(&keys, &k);
        proof {
            let j = it.index() as int;
            assert(all.take(j + 1).drop_last() =~= all.take(j));
            assert(all.take(j + 1).last() == d@);
            lemma_asc_pos(key_views(keys@), k@);
        }
        let ghost ov = dirs_view(out@);
        let ghost ok = key_views(keys@);
        out.insert(p, d);
        keys.insert(p, k);
        proof {
            lemma_dirs_view(out@);
            assert(dirs_view(out@) =~= ov.insert(p as int, d@));
            assert(key_views(keys@) =~= ok.insert(p as int, k@));
            assert(dir_names(ov.insert(p as int, d@)) =~= dir_names(ov).insert(p as int, d@.name));
        }
    }
    proof {
        assert(all.take(all.len() as int) =~= all);
    }
    out
}

fn ensure_parts_exec(node: &mut DirNode, parts: &Vec<Vec<char>>, k: usize)
    ensures
        final(node)@ == ensure_parts(old(node)@, key_views(parts@), k as int),
    decreases parts@.len() - k,
{
    let ghost pv = key_views(parts@);
    let ghost n0 = node@;
    if k >= parts.len() {
        return;
    }
    let part = &parts[k];
    assert(pv[k as int] == part@);
    let idx0 = name_index_exec(&node.dirs, part);
    if idx0 == node.dirs.len() {
        proof {
            lemma_dirs_view_index(node.dirs@);
        }
        let mut prefix: Vec<Vec<char>> = Vec::new();
        let mut j: usize = 0;
        let plen = parts.len();
        while j <= k
            invariant
                0 <= j <= k + 1,
                plen == parts@.len(),
                k < parts@.len(),
                key_views(prefix@) =~= key_views(parts@).take(j as int),
            decreases k + 1 - j,
        {
            let ghost before = key_views(prefix@);
            prefix.push(parts[j].clone());
            assert(key_views(prefix@) =~= before.push(parts@[j as int]@));
            assert(key_views(parts@).take(j + 1) =~= key_views(parts@).take(j as int).push(parts@[j as int]@));
            j += 1;
        }
        let partial = join_strings(&prefix, "/");
        let part_str = crate::text::string_from_chars(part.as_slice());
        let fresh = DirNode::empty(part_str.as_str(), partial.as_str());
        let mut tmp: Vec<DirNode> = Vec::new();
        std::mem::swap(&mut tmp, &mut node.dirs);
        let ghost before = tmp@;
        tmp.push(fresh);
        proof {
            lemma_dirs_view(tmp@);
            lemma_dirs_view(before);
            assert(dirs_view(tmp@) =~= dirs_view(before).push(fresh@));
        }
        node.dirs = sort_nodes(tmp);
        proof {
            let s = dirs_view(before).push(fresh@);
            assert(s.drop_last() =~= dirs_view(before));
            let t = sorted_nodes(dirs_view(before));
            lemma_sorted_nodes_len(dirs_view(before));
            let p = asc_pos(dir_names(t), fresh@.name);
            lemma_asc_pos(dir_names(t), fresh@.name);
            assert(sorted_nodes(s)[p] == fresh@);
            lemma_name_index(sorted_nodes(s), part@);
        }
    }
    proof {
        lemma_dirs_view_index(node.dirs@);
        lemma_name_index(dirs_view(node.dirs@), part@);
    }
    let idx = name_index_exec(&node.dirs, part);
    let ghost dirs1 = dirs_view(node.dirs@);
    let ghost raw1 = node.dirs@;
    let mut child = node.dirs.remove(idx);
    ensure_parts_exec(&mut child, parts, k + 1);
    node.dirs.insert(idx, child);
    proof {
        lemma_dirs_view_index(node.dirs@);
        lemma_dirs_view_index(raw1);
        assert(dirs_view(node.dirs@) =~= dirs1.update(idx as int, child@));
        assert(node@ =~= (DirNodeView { dirs: dirs1.update(idx as int, child@), ..n0 }));
    }
}

fn ensure_dir_exists(tree: &mut DirNode, path: &str)
    ensures
        final(tree)@ == ensured(old(tree)@, path@),
{
    if str_eq(path, ".") || path.is_empty() {
        return;
    }
    let found = crate::ir::find_dir_in(tree, path);
    if found {
        return;
    }
    let parts = chars_split(&chars_of(path), '/');
    proof {
        assert(key_views(parts@) =~= split_char(path@, '/'));
    }
    ensure_parts_exec(tree, &parts, 0);
}


// ---------------------------------------------------------------------------
// Annotation overlay
// ---------------------------------------------------------------------------

pub open spec fn nonempty_or_none(s: Seq<char>) -> Option<Seq<char>> {
    if s.len() == 0 {
        None
    } else {
        Some(s)
    }
}

/// `--` means "no pattern".
pub open spec fn pattern_of(s: Seq<char>) -> Option<Seq<char>> {
    if s == "--"@ {
        None
    } else {
        Some(s)
    }
}

/// Where a node records its annotation source: the path relative to the scan
/// root when it is under it (forward slashes), else the file name — joined to
/// the directory path when there is no scan root and the directory is not the
/// root.
pub open spec fn source_file_of(source: Seq<char>, target: Seq<char>, scan_root: Seq<char>) -> Option<Seq<char>> {
    if scan_root.len() > 0 {
        match path_strip_prefix(source, scan_root) {
            Some(rel) => Some(replace_char(rel, '\\', '/')),
            None => path_file_name(source),
        }
    } else if target == "."@ {
        path_file_name(source)
    } else {
        match path_file_name(source) {
            Some(n) => Some(target + "/"@ + n),
            None => None,
        }
    }
}

pub open spec fn rel_of(r: DocRelationshipView) -> RelationshipView {
    RelationshipView { target: r.target, label: r.label, protocol: r.protocol }
}

pub open spec fn code_of(c: DocCodeElementView) -> CodeElementView {
    CodeElementView {
        name: c.name,
        kind: c.kind,
        description: if c.description.len() == 0 || c.description == "*No description*"@ {
            None
        } else {
            Some(c.description)
        },
        relationships: c.relationships.map_values(|r: DocRelationshipView| rel_of(r)),
    }
}

pub open spec fn file_of(name: Seq<char>, e: FileEntryView) -> FileNodeView {
    FileNodeView {
        name,
        pattern: pattern_of(e.pattern),
        pattern_status: Some(e.pattern_status),
        purpose: nonempty_or_none(e.purpose),
        health: Some(e.health),
        extra: e.extra,
    }
}

/// The index of the first file named `name`, or the length when none is.
pub open spec fn file_index(s: Seq<FileNodeView>, name: Seq<char>) -> int
    decreases s.len(),
{
    if s.len() == 0 {
        0
    } else if s[0].name == name {
        0
    } else {
        1 + file_index(s.drop_first(), name)
    }
}

/// A file table entry promotes the first file of its name with its
/// attributes, or is recorded as a new file when none is on disk.
pub open spec fn file_step(files: Seq<FileNodeView>, e: FileEntryView) -> Seq<FileNodeView> {
    let i = file_index(files, e.name);
    if 0 <= i < files.len() {
        files.update(i, file_of(files[i].name, e))
    } else {
        files.push(file_of(e.name, e))
    }
}

pub open spec fn overlay_files(files: Seq<FileNodeView>, entries: Seq<FileEntryView>) -> Seq<FileNodeView>
    decreases entries.len(),
{
    if entries.len() == 0 {
        files
    } else {
        file_step(overlay_files(files, entries.drop_last()), entries.last())
    }
}

/// A node with a module's annotations laid on it.
pub open spec fn overlay_node(n: DirNodeView, m: ModuleDocView, target: Seq<char>, scan_root: Seq<char>) -> DirNodeView {
    DirNodeView {
        c4_level: Some(m.c4_level),
        description: nonempty_or_none(m.description),
        pattern: pattern_of(m.pattern),
        pattern_status: Some(m.pattern_status),
        content: nonempty_or_none(m.content),
        source_file: source_file_of(m.source_file, target, scan_root),
        relationships: m.relationships.map_values(|r: DocRelationshipView| rel_of(r)),
        code_elements: m.code_elements.map_values(|c: DocCodeElementView| code_of(c)),
        layer: if m.layer is Some {
            m.layer
        } else {
            n.layer
        },
        files: overlay_files(n.files, m.files),
        ..n
    }
}

pub open spec fn has_path(n: DirNodeView, p: Seq<char>) -> bool {
    first_with_path(preorder(n), p) is Some
}

pub open spec fn has_path_list(s: Seq<DirNodeView>, p: Seq<char>) -> bool {
    first_with_path(crate::ir::preorder_list(s), p) is Some
}

/// The tree with the module laid on its first node (depth-first) at path `p`;
/// unchanged when no node has that path.
pub open spec fn overlay_at(n: DirNodeView, p: Seq<char>, m: ModuleDocView, scan_root: Seq<char>) -> DirNodeView
    decreases n, 1nat,
{
    if n.path == p {
        overlay_node(n, m, p, scan_root)
    } else {
        DirNodeView { dirs: overlay_list(n.dirs, p, m, scan_root), ..n }
    }
}

pub open spec fn overlay_list(s: Seq<DirNodeView>, p: Seq<char>, m: ModuleDocView, scan_root: Seq<char>) -> Seq<DirNodeView>
    decreases s, 0nat,
{
    if s.len() == 0 {
        s
    } else if has_path_list(s.drop_last(), p) {
        overlay_list(s.drop_last(), p, m, scan_root).push(s.last())
    } else if has_path(s.last(), p) {
        s.drop_last().push(overlay_at(s.last(), p, m, scan_root))
    } else {
        s
    }
}

proof fn lemma_has_path(n: DirNodeView, p: Seq<char>)
    ensures
        has_path(n, p) == (n.path == p || has_path_list(n.dirs, p)),
{
    crate::ir::lemma_first_with_path_append(seq![n], crate::ir::preorder_list(n.dirs), p);
    assert(seq![n].drop_first() =~= Seq::<DirNodeView>::empty());
    assert(first_with_path(Seq::<DirNodeView>::empty(), p) is None);
    assert(first_with_path(seq![n], p) == (if n.path == p {
        Some(n)
    } else {
        first_with_path(seq![n].drop_first(), p)
    }));
}

proof fn lemma_has_path_list_push(s: Seq<DirNodeView>, p: Seq<char>)
    requires
        s.len() > 0,
    ensures
        has_path_list(s, p) == (has_path_list(s.drop_last(), p) || has_path(s.last(), p)),
{
    crate::ir::lemma_first_with_path_append(crate::ir::preorder_list(s.drop_last()), preorder(s.last()), p);
}

/// Overlaying updates the first child whose subtree has the path.
proof fn lemma_overlay_list_first(s: Seq<DirNodeView>, p: Seq<char>, m: ModuleDocView, sr: Seq<char>, i: int)
    requires
        0 <= i < s.len(),
        !has_path_list(s.take(i), p),
        has_path(s[i], p),
    ensures
        overlay_list(s, p, m, sr) == s.update(i, overlay_at(s[i], p, m, sr)),
    decreases s.len(),
{
    if i == s.len() - 1 {
        assert(s.take(i) =~= s.drop_last());
        assert(s.drop_last().push(overlay_at(s.last(), p, m, sr)) =~= s.update(i, overlay_at(s[i], p, m, sr)));
    } else {
        assert(s.drop_last().take(i) =~= s.take(i));
        assert(s.drop_last()[i] == s[i]);
        lemma_overlay_list_first(s.drop_last(), p, m, sr, i);
        lemma_has_path_list_prefix(s.drop_last(), p, i);
        assert(overlay_list(s.drop_last(), p, m, sr).push(s.last()) =~= s.update(i, overlay_at(s[i], p, m, sr)));
    }
}

/// A path found in a prefix is found in the whole list.
proof fn lemma_has_path_list_prefix(s: Seq<DirNodeView>, p: Seq<char>, i: int)
    requires
        0 <= i < s.len(),
        has_path(s[i], p),
    ensures
        has_path_list(s, p),
    decreases s.len(),
{
    lemma_has_path_list_push(s, p);
    if i < s.len() - 1 {
        assert(s.drop_last()[i] == s[i]);
        lemma_has_path_list_prefix(s.drop_last(), p, i);
    }
}

/// Without the path anywhere, overlaying changes nothing.
proof fn lemma_overlay_list_absent(s: Seq<DirNodeView>, p: Seq<char>, m: ModuleDocView, sr: Seq<char>)
    requires
        !has_path_list(s, p),
    ensures
        overlay_list(s, p, m, sr) == s,
{
    if s.len() > 0 {
        lemma_has_path_list_push(s, p);
    }
}

fn rel_of_exec(r: &crate::module_doc::Relationship) -> (o: Relationship)
    ensures
        o@ == rel_of(r@),
{
    Relationship { target: r.target.clone(), label: r.label.clone(), protocol: r.protocol.clone() }
}

fn rels_of_exec(rs: &Vec<crate::module_doc::Relationship>) -> (o: Vec<Relationship>)
    ensures
        crate::ir::rels_view(o@) == crate::module_doc::doc_rels_view(rs@).map_values(|r: DocRelationshipView| rel_of(r)),
{
    let mut o: Vec<Relationship> = Vec::new();
    let mut i: usize = 0;
    while i < rs.len()
        invariant
            0 <= i <= rs@.len(),
            crate::ir::rels_view(o@) =~= crate::module_doc::doc_rels_view(rs@).take(i as int).map_values(
                |r: DocRelationshipView| rel_of(r),
            ),
        decreases rs@.len() - i,
    {
        let ghost before = crate::ir::rels_view(o@);
        o.push(rel_of_exec(&rs[i]));
        proof {
            assert(crate::ir::rels_view(o@) =~= before.push(rel_of(rs@[i as int]@)));
            assert(crate::module_doc::doc_rels_view(rs@).take(i + 1) =~= crate::module_doc::doc_rels_view(rs@).take(
                i as int,
            ).push(rs@[i as int]@));
        }
        i += 1;
    }
    assert(crate::module_doc::doc_rels_view(rs@).take(i as int) =~= crate::module_doc::doc_rels_view(rs@));
    o
}

fn code_of_exec(c: &crate::module_doc::CodeElement) -> (o: CodeElement)
    ensures
        o@ == code_of(c@),
{
    let description = if c.description.as_str().is_empty() || str_eq(c.description.as_str(), "*No description*") {
        None
    } else {
        Some(c.description.clone())
    };
    CodeElement {
        name: c.name.clone(),
        kind: c.kind.clone(),
        description,
        relationships: rels_of_exec(&c.relationships),
    }
}

fn nonempty_or_none_exec(s: &String) -> (r: Option<String>)
    ensures
        opt_view(r) == nonempty_or_none(s@),
{
    if s.as_str().is_empty() {
        None
    } else {
        Some(s.clone())
    }
}

fn pattern_of_exec(s: &String) -> (r: Option<String>)
    ensures
        opt_view(r) == pattern_of(s@),
{
    if str_eq(s.as_str(), "--") {
        None
    } else {
        Some(s.clone())
    }
}

fn file_of_exec(name: String, e: &FileEntry) -> (r: FileNode)
    ensures
        r@ == file_of(name@, e@),
{
    FileNode {
        name,
        pattern: pattern_of_exec(&e.pattern),
        pattern_status: Some(e.pattern_status),
        purpose: nonempty_or_none_exec(&e.purpose),
        health: Some(e.health),
        extra: e.extra.clone(),
    }
}

fn file_step_exec(files: &mut Vec<FileNode>, e: &FileEntry)
    ensures
        files_view(final(files)@) == file_step(files_view(old(files)@), e@),
{
    let ghost fv = files_view(files@);
    let mut i: usize = 0;
    assert(fv.skip(0) =~= fv);
    while i < files.len() && !str_eq(files[i].name.as_str(), e.name.as_str())
        invariant
            0 <= i <= files@.len(),
            fv == files_view(files@),
            file_index(fv, e@.name) == i + file_index(fv.skip(i as int), e@.name),
        decreases files@.len() - i,
    {
        assert(fv.skip(i + 1) =~= fv.skip(i as int).drop_first());
        assert(fv.skip(i as int)[0] == files@[i as int]@);
        i += 1;
    }
    if i < files.len() {
        assert(fv.skip(i as int)[0] == files@[i as int]@);
        let name = files[i].name.clone();
        let f = file_of_exec(name, e);
        files.set(i, f);
        assert(files_view(files@) =~= fv.update(i as int, file_of(fv[i as int].name, e@)));
    } else {
        let f = file_of_exec(e.name.clone(), e);
        files.push(f);
        assert(files_view(files@) =~= fv.push(file_of(e@.name, e@)));
    }
}

fn overlay_node_exec(node: &mut DirNode, target: &str, module: &ModuleDoc, scan_root: &str)
    ensures
        final(node)@ == overlay_node(old(node)@, module@, target@, scan_root@),
{
    let ghost n0 = node@;
    node.c4_level = Some(module.c4_level);
    node.description = nonempty_or_none_exec(&module.description);
    node.pattern = pattern_of_exec(&module.pattern);
    node.pattern_status = Some(module.pattern_status);
    node.content = nonempty_or_none_exec(&module.content);
    let source = module.source_file.as_str();
    node.source_file = if !scan_root.is_empty() {
        match strip_prefix_of(source, scan_root) {
            Some(rel) => Some(replace_char_exec(rel.as_str(), '\\', '/')),
            None => file_name_of(source),
        }
    } else if str_eq(target, ".") {
        file_name_of(source)
    } else {
        match file_name_of(source) {
            Some(n) => {
                let mut s = target.to_string();
                push_str(&mut s, "/");
                push_str(&mut s, n.as_str());
                Some(s)
            },
            None => None,
        }
    };
    node.relationships = rels_of_exec(&module.relationships);
    let mut codes: Vec<CodeElement> = Vec::new();
    let mut i: usize = 0;
    while i < module.code_elements.len()
        invariant
            0 <= i <= module.code_elements@.len(),
            codes_view(codes@) =~= module@.code_elements.take(i as int).map_values(|c: DocCodeElementView| code_of(c)),
        decreases module.code_elements@.len() - i,
    {
        let ghost before = codes_view(codes@);
        codes.push(code_of_exec(&module.code_elements[i]));
        proof {
            assert(codes_view(codes@) =~= before.push(code_of(module.code_elements@[i as int]@)));
            assert(module@.code_elements.take(i + 1) =~= module@.code_elements.take(i as int).push(
                module.code_elements@[i as int]@,
            ));
        }
        i += 1;
    }
    assert(module@.code_elements.take(i as int) =~= module@.code_elements);
    node.code_elements = codes;
    match &module.layer {
        Some(l) => {
            node.layer = Some(l.clone());
        },
        None => {},
    }
    let mut files: Vec<FileNode> = Vec::new();
    std::mem::swap(&mut files, &mut node.files);
    let ghost fv0 = files_view(files@);
    let mut j: usize = 0;
    while j < module.files.len()
        invariant
            0 <= j <= module.files@.len(),
            files_view(files@) == overlay_files(fv0, module@.files.take(j as int)),
        decreases module.files@.len() - j,
    {
        file_step_exec(&mut files, &module.files[j]);
        proof {
            let t = module@.files.take(j + 1);
            assert(t.drop_last() =~= module@.files.take(j as int));
            assert(t.last() == module.files@[j as int]@);
        }
        j += 1;
    }
    proof {
        assert(module@.files.take(j as int) =~= module@.files);
    }
    node.files = files;
    assert(node@ =~= overlay_node(n0, module@, target@, scan_root@));
}

fn overlay_at_exec(node: &mut DirNode, p: &str, module: &ModuleDoc, scan_root: &str) -> (found: bool)
    ensures
        found == has_path(old(node)@, p@),
        final(node)@ == overlay_at(old(node)@, p@, module@, scan_root@),
    decreases old(node)@,
{
    let ghost n0 = node@;
    if str_eq(node.path.as_str(), p) {
        overlay_node_exec(node, p, module, scan_root);
        proof {
            lemma_has_path(n0, p@);
        }
        return true;
    }
    proof {
        lemma_has_path(n0, p@);
        lemma_dirs_view_index(node.dirs@);
    }
    let mut i: usize = 0;
    while i < node.dirs.len()
        invariant
            0 <= i <= node.dirs@.len(),
            node@ == n0,
            old(node)@ == n0,
            n0.path != p@,
            dirs_view(node.dirs@).len() == node.dirs@.len(),
            forall|k: int| 0 <= k < node.dirs@.len() ==> #[trigger] dirs_view(node.dirs@)[k] == node.dirs@[k]@,
            !has_path_list(n0.dirs.take(i as int), p@),
        decreases node.dirs@.len() - i,
    {
        let here = crate::ir::find_dir_in(&node.dirs[i], p);
        if here {
            let ghost raw = node.dirs@;
            let mut child = node.dirs.remove(i);
            assert(child@ == n0.dirs[i as int]);
            assert(has_path(n0.dirs[i as int], p@));
            assert(decreases_to!(n0 => child@)) by {
                assert(decreases_to!(n0 => n0.dirs));
                assert(decreases_to!(n0.dirs => n0.dirs[i as int]));
            }
            let _ = overlay_at_exec(&mut child, p, module, scan_root);
            node.dirs.insert(i, child);
            proof {
                lemma_dirs_view_index(node.dirs@);
                lemma_overlay_list_first(n0.dirs, p@, module@, scan_root@, i as int);
                assert(dirs_view(node.dirs@) =~= n0.dirs.update(i as int, child@));
                assert(node@ =~= overlay_at(n0, p@, module@, scan_root@));
                lemma_has_path_list_prefix(n0.dirs, p@, i as int);
                lemma_has_path(n0, p@);
            }
            return true;
        }
        proof {
            let t = n0.dirs.take(i + 1);
            assert(t.drop_last() =~= n0.dirs.take(i as int));
            lemma_has_path_list_push(t, p@);
        }
        i += 1;
    }
    proof {
        assert(n0.dirs.take(i as int) =~= n0.dirs);
        lemma_overlay_list_absent(n0.dirs, p@, module@, scan_root@);
        assert(overlay_at(n0, p@, module@, scan_root@) =~= n0);
    }
    false
}

// ---------------------------------------------------------------------------
// Parent resolution
// ---------------------------------------------------------------------------

pub open spec fn str_opt_view(o: Option<&str>) -> Option<Seq<char>> {
    match o {
        Some(s) => Some(s@),
        None => None,
    }
}

/// An empty ancestor path counts as no ancestor.
pub open spec fn nonempty_opt(o: Option<Seq<char>>) -> Option<Seq<char>> {
    match o {
        Some(s) => nonempty_or_none(s),
        None => None,
    }
}

/// The tree with each annotated node's `parent` set to the path of its nearest
/// annotated ancestor (`anc` for the nodes with none inside the tree);
/// nodes without annotations keep their `parent`.
pub open spec fn resolved(n: DirNodeView, anc: Option<Seq<char>>) -> DirNodeView
    decreases n, 1nat,
{
    let next = if is_annotated_view(n) {
        Some(n.path)
    } else {
        anc
    };
    DirNodeView {
        parent: if is_annotated_view(n) {
            anc
        } else {
            n.parent
        },
        dirs: resolved_list(n.dirs, nonempty_opt(next)),
        ..n
    }
}

pub open spec fn resolved_list(s: Seq<DirNodeView>, anc: Option<Seq<char>>) -> Seq<DirNodeView>
    decreases s, 0nat,
{
    if s.len() == 0 {
        s
    } else {
        resolved_list(s.drop_last(), anc).push(resolved(s.last(), anc))
    }
}

fn opt_owned(o: Option<&str>) -> (r: Option<String>)
    ensures
        opt_view(r) == str_opt_view(o),
{
    match o {
        Some(s) => Some(crate::text::owned(s)),
        None => None,
    }
}

fn resolve_parents(node: &mut DirNode, nearest: Option<&str>)
    ensures
        final(node)@ == resolved(old(node)@, str_opt_view(nearest)),
    decreases old(node)@,
{
    let ghost n0 = node@;
    let next: Option<String> = if node.c4_level.is_some() {
        node.parent = opt_owned(nearest);
        Some(node.path.clone())
    } else {
        opt_owned(nearest)
    };
    let ancestor: Option<String> = match next {
        Some(a) => if a.as_str().is_empty() {
            None
        } else {
            Some(a)
        },
        None => None,
    };
    let ghost anc = opt_view(ancestor);
    assert(anc == nonempty_opt(if is_annotated_view(n0) {
        Some(n0.path)
    } else {
        str_opt_view(nearest)
    }));
    let mut dirs: Vec<DirNode> = Vec::new();
    std::mem::swap(&mut dirs, &mut node.dirs);
    let ghost d0 = dirs@;
    proof {
        lemma_dirs_view_index(d0);
    }
    let mut out: Vec<DirNode> = Vec::new();
    for c in it: dirs.into_iter()
        invariant
            it.seq() == d0,
            old(node)@ == n0,
            dirs_view(d0) == n0.dirs,
            dirs_view(d0).len() == d0.len(),
            forall|k: int| 0 <= k < d0.len() ==> #[trigger] dirs_view(d0)[k] == d0[k]@,
            opt_view(ancestor) == anc,
            dirs_view(out@) == resolved_list(n0.dirs.take(it.index() as int), anc),
    {
        let ghost j = it.index() as int;
        let mut c = c;
        assert(c@ == n0.dirs[j]);
        assert(decreases_to!(n0 => c@)) by {
            assert(decreases_to!(n0 => n0.dirs));
            assert(decreases_to!(n0.dirs => n0.dirs[j]));
        }
        let a: Option<&str> = match &ancestor {
            Some(x) => Some(x.as_str()),
            None => None,
        };
        resolve_parents(&mut c, a);
        let ghost before = out@;
        out.push(c);
        proof {
            assert(out@.drop_last() =~= before);
            let t = n0.dirs.take(j + 1);
            assert(t.drop_last() =~= n0.dirs.take(j));
            assert(t.last() == n0.dirs[j]);
        }
    }
    proof {
        assert(n0.dirs.take(n0.dirs.len() as int) =~= n0.dirs);
    }
    node.dirs = out;
    assert(node@ =~= resolved(n0, str_opt_view(nearest)));
}

// ---------------------------------------------------------------------------
// Building the IR
// ---------------------------------------------------------------------------

/// The tree with one module laid on it: its directory is created when
/// missing, then the first node at that path takes the module's annotations.
pub open spec fn overlay_module_spec(tree: DirNodeView, m: ModuleDocView, scan_root: Seq<char>) -> DirNodeView {
    let target = dir_path_of(m, scan_root);
    overlay_at(ensured(tree, target), target, m, scan_root)
}

/// The modules laid on the tree one after another, in order.
pub open spec fn overlay_all(tree: DirNodeView, ms: Seq<ModuleDocView>, scan_root: Seq<char>) -> DirNodeView
    decreases ms.len(),
{
    if ms.len() == 0 {
        tree
    } else {
        overlay_module_spec(overlay_all(tree, ms.drop_last(), scan_root), ms.last(), scan_root)
    }
}

/// The IR that `build_ir` returns.
pub open spec fn build_ir_spec(scan_root: Seq<char>, tree: DirNodeView, ms: Seq<ModuleDocView>) -> ArchitectureIRView {
    ArchitectureIRView {
        version: "2.0"@,
        scan_root,
        root: resolved(overlay_all(tree, ms, scan_root), None),
    }
}

fn overlay_module(tree: &mut DirNode, target: &str, module: &ModuleDoc, scan_root: &str)
    ensures
        final(tree)@ == overlay_at(ensured(old(tree)@, target@), target@, module@, scan_root@),
{
    ensure_dir_exists(tree, target);
    let _ = overlay_at_exec(tree, target, module, scan_root);
}

/// Build a complete ArchitectureIR from a bare tree and extracted modules:
/// each module is laid on its directory in turn, then every annotated node
/// gets the path of its nearest annotated ancestor as its parent.
pub fn build_ir(scan_root: &str, bare_tree: DirNode, modules: Vec<ModuleDoc>) -> (r: ArchitectureIR)
    ensures
        r@ == build_ir_spec(scan_root@, bare_tree@, crate::module_doc::docs_view(modules@)),
{
    let ghost ms = crate::module_doc::docs_view(modules@);
    let mut root = bare_tree;
    let mut i: usize = 0;
    while i < modules.len()
        invariant
            0 <= i <= modules@.len(),
            ms == crate::module_doc::docs_view(modules@),
            root@ == overlay_all(bare_tree@, ms.take(i as int), scan_root@),
        decreases modules@.len() - i,
    {
        let module = &modules[i];
        let dir_path = module_path_to_dir_path(module, scan_root);
        overlay_module(&mut root, dir_path.as_str(), module, scan_root);
        proof {
            let t = ms.take(i + 1);
            assert(t.drop_last() =~= ms.take(i as int));
            assert(t.last() == module@);
        }
        i += 1;
    }
    assert(ms.take(i as int) =~= ms);
    resolve_parents(&mut root, None);
    ArchitectureIR { version: "2.0".to_string(), scan_root: crate::text::owned(scan_root), root }
}

/// Build an ArchitectureIR from a directory listing: the bare tree of
/// `build_dir_tree`, then the modules laid on it as in `build_ir`.
pub fn build_from_scan(scan_root: &str, listing: &FsDir, modules: Vec<ModuleDoc>, config: &TreeConfig) -> (r: ArchitectureIR)
    ensures
        r@ == build_ir_spec(
            scan_root@,
            dir_node_spec("."@, clean_tree(listing@, config@), true),
            crate::module_doc::docs_view(modules@),
        ),
{
    let bare_tree = build_dir_tree(listing, config);
    build_ir(scan_root, bare_tree, modules)
}

// ---------------------------------------------------------------------------
// Laws
// ---------------------------------------------------------------------------

proof fn lemma_first_of_single(x: DirNodeView, rest: Seq<DirNodeView>, p: Seq<char>)
    ensures
        first_with_path(seq![x] + rest, p) == (if x.path == p {
            Some(x)
        } else {
            first_with_path(rest, p)
        }),
{
    crate::ir::lemma_first_with_path_append(seq![x], rest, p);
    assert(seq![x].drop_first() =~= Seq::<DirNodeView>::empty());
    assert(first_with_path(Seq::<DirNodeView>::empty(), p) is None);
}

/// A node carries a module's annotations: its C4 level, pattern status,
/// description and content (absent when empty), pattern (absent for `--`),
/// and the module's relationships, one for one with the same target, label
/// and protocol.
pub open spec fn carries_module(x: DirNodeView, m: ModuleDocView) -> bool {
    &&& x.c4_level == Some(m.c4_level)
    &&& x.pattern_status == Some(m.pattern_status)
    &&& x.description == (if m.description.len() == 0 {
        None
    } else {
        Some(m.description)
    })
    &&& x.content == (if m.content.len() == 0 {
        None
    } else {
        Some(m.content)
    })
    &&& x.pattern == (if m.pattern == "--"@ {
        None
    } else {
        Some(m.pattern)
    })
    &&& x.relationships.len() == m.relationships.len()
    &&& forall|i: int|
        0 <= i < m.relationships.len() ==> (#[trigger] x.relationships[i]).target == m.relationships[i].target
            && x.relationships[i].label == m.relationships[i].label && x.relationships[i].protocol
            == m.relationships[i].protocol
}

/// A module lands on its directory: when the tree has a node at path `p`,
/// the first node at `p` (depth-first) after the overlay is that node with
/// the module's annotations, its C4 level among them.
pub proof fn lemma_overlay_lands(n: DirNodeView, p: Seq<char>, m: ModuleDocView, sr: Seq<char>)
    requires
        has_path(n, p),
    ensures
        first_with_path(preorder(overlay_at(n, p, m, sr)), p) == Some(
            overlay_node(first_with_path(preorder(n), p)->0, m, p, sr),
        ),
        first_with_path(preorder(overlay_at(n, p, m, sr)), p)->0.c4_level == Some(m.c4_level),
        carries_module(first_with_path(preorder(overlay_at(n, p, m, sr)), p)->0, m),
    decreases n, 1nat,
{
    let o = overlay_at(n, p, m, sr);
    lemma_first_of_single(n, crate::ir::preorder_list(n.dirs), p);
    lemma_first_of_single(o, crate::ir::preorder_list(o.dirs), p);
    if n.path != p {
        lemma_has_path(n, p);
        lemma_overlay_list_lands(n.dirs, p, m, sr);
    }
}

proof fn lemma_overlay_list_lands(s: Seq<DirNodeView>, p: Seq<char>, m: ModuleDocView, sr: Seq<char>)
    requires
        has_path_list(s, p),
    ensures
        first_with_path(crate::ir::preorder_list(overlay_list(s, p, m, sr)), p) == Some(
            overlay_node(first_with_path(crate::ir::preorder_list(s), p)->0, m, p, sr),
        ),
    decreases s, 0nat,
{
    lemma_has_path_list_push(s, p);
    let dl = s.drop_last();
    let o = overlay_list(s, p, m, sr);
    crate::ir::lemma_first_with_path_append(crate::ir::preorder_list(dl), preorder(s.last()), p);
    if has_path_list(dl, p) {
        lemma_overlay_list_lands(dl, p, m, sr);
        assert(o.drop_last() =~= overlay_list(dl, p, m, sr));
        crate::ir::lemma_first_with_path_append(
            crate::ir::preorder_list(overlay_list(dl, p, m, sr)),
            preorder(s.last()),
            p,
        );
    } else {
        lemma_overlay_lands(s.last(), p, m, sr);
        assert(o.drop_last() =~= dl);
        crate::ir::lemma_first_with_path_append(
            crate::ir::preorder_list(dl),
            preorder(overlay_at(s.last(), p, m, sr)),
            p,
        );
    }
}

/// Resolving parents is idempotent: a resolved tree resolves to itself.
pub proof fn lemma_resolve_idempotent(n: DirNodeView, anc: Option<Seq<char>>)
    ensures
        resolved(resolved(n, anc), anc) == resolved(n, anc),
    decreases n, 1nat,
{
    let next = if is_annotated_view(n) {
        Some(n.path)
    } else {
        anc
    };
    lemma_resolve_list_idempotent(n.dirs, nonempty_opt(next));
}

proof fn lemma_resolve_list_idempotent(s: Seq<DirNodeView>, anc: Option<Seq<char>>)
    ensures
        resolved_list(resolved_list(s, anc), anc) == resolved_list(s, anc),
    decreases s, 0nat,
{
    if s.len() > 0 {
        lemma_resolve_list_idempotent(s.drop_last(), anc);
        lemma_resolve_idempotent(s.last(), anc);
        assert(resolved_list(s, anc).drop_last() =~= resolved_list(s.drop_last(), anc));
    }
}

/// Parent resolution: an annotated node's parent is the nearest annotated
/// ancestor handed down (`None` at the root), a node without annotations
/// keeps its parent, and each child is resolved against the node's own path
/// when the node is annotated (and non-empty), else against the same
/// ancestor.
pub proof fn lemma_resolved_parent(n: DirNodeView, anc: Option<Seq<char>>, i: int)
    requires
        0 <= i < n.dirs.len(),
    ensures
        is_annotated_view(n) ==> resolved(n, anc).parent == anc,
        !is_annotated_view(n) ==> resolved(n, anc).parent == n.parent,
        resolved(n, anc).dirs.len() == n.dirs.len(),
        resolved(n, anc).dirs[i] == resolved(
            n.dirs[i],
            if is_annotated_view(n) {
                nonempty_or_none(n.path)
            } else {
                nonempty_opt(anc)
            },
        ),
{
    let next = if is_annotated_view(n) {
        Some(n.path)
    } else {
        anc
    };
    lemma_resolved_list_index(n.dirs, nonempty_opt(next), i);
}

proof fn lemma_resolved_list_index(s: Seq<DirNodeView>, anc: Option<Seq<char>>, i: int)
    requires
        0 <= i < s.len(),
    ensures
        resolved_list(s, anc).len() == s.len(),
        resolved_list(s, anc)[i] == resolved(s[i], anc),
    decreases s.len(),
{
    if s.len() > 1 {
        if i < s.len() - 1 {
            lemma_resolved_list_index(s.drop_last(), anc, i);
        } else {
            lemma_resolved_list_index(s.drop_last(), anc, 0);
        }
    } else {
        assert(s.drop_last().len() == 0);
        assert(resolved_list(s.drop_last(), anc).len() == 0);
    }
}

// ---------------------------------------------------------------------------
// Laws: directories are created where modules need them
// ---------------------------------------------------------------------------

/// Every child's path is its parent's path joined with its name (just the
/// name under the root `.`), all the way down.
pub open spec fn paths_consistent(n: DirNodeView) -> bool
    decreases n, 1nat,
{
    children_consistent(n.path, n.dirs)
}

pub open spec fn children_consistent(parent: Seq<char>, s: Seq<DirNodeView>) -> bool
    decreases s, 0nat,
{
    if s.len() == 0 {
        true
    } else {
        &&& children_consistent(parent, s.drop_last())
        &&& s.last().path == child_rel(parent, s.last().name)
        &&& paths_consistent(s.last())
    }
}

proof fn lemma_children_consistent_index(parent: Seq<char>, s: Seq<DirNodeView>, i: int)
    requires
        children_consistent(parent, s),
        0 <= i < s.len(),
    ensures
        s[i].path == child_rel(parent, s[i].name),
        paths_consistent(s[i]),
    decreases s.len(),
{
    if i < s.len() - 1 {
        assert(s.drop_last()[i] == s[i]);
        lemma_children_consistent_index(parent, s.drop_last(), i);
    }
}

/// The tree built from a listing has consistent paths.
pub proof fn lemma_built_tree_consistent(rel: Seq<char>, d: FsDirView, is_root: bool)
    ensures
        paths_consistent(dir_node_spec(rel, d, is_root)),
    decreases d, 1nat,
{
    lemma_built_list_consistent(rel, d.dirs);
}

proof fn lemma_built_list_consistent(rel: Seq<char>, s: Seq<FsDirView>)
    ensures
        children_consistent(rel, crate::tree::dir_node_list(rel, s)),
    decreases s, 0nat,
{
    if s.len() > 0 {
        lemma_built_list_consistent(rel, s.drop_last());
        lemma_built_tree_consistent(child_rel(rel, s.last().name), s.last(), false);
        let l = crate::tree::dir_node_list(rel, s);
        assert(l.drop_last() == crate::tree::dir_node_list(rel, s.drop_last()));
    }
}

/// The root `.`, or a non-empty `/`-separated directory path none of whose
/// parts is `.`.
pub open spec fn plain_dir_path(t: Seq<char>) -> bool {
    t == "."@ || (t.len() > 0 && forall|i: int|
        0 <= i < split_char(t, '/').len() ==> #[trigger] split_char(t, '/')[i] != "."@)
}

/// The path of the first `k` parts (the root `.` for none).
pub open spec fn prefix_path(parts: Seq<Seq<char>>, k: int) -> Seq<char> {
    if k == 0 {
        "."@
    } else {
        join(parts.take(k), "/"@)
    }
}

proof fn lemma_prefix_step(parts: Seq<Seq<char>>, k: int)
    requires
        0 <= k < parts.len(),
        forall|i: int| 0 <= i < parts.len() ==> #[trigger] parts[i] != "."@,
    ensures
        child_rel(prefix_path(parts, k), parts[k]) == prefix_path(parts, k + 1),
        prefix_path(parts, k + 1) != "."@,
    decreases k,
{
    reveal_strlit(".");
    reveal_strlit("/");
    if k == 0 {
        assert(parts.take(1).len() == 1);
        assert(join(parts.take(1), "/"@) == parts.take(1)[0]);
    } else {
        crate::text::lemma_join_step(parts, "/"@, k);
        lemma_prefix_step(parts, k - 1);
        let pk = prefix_path(parts, k);
        let next = prefix_path(parts, k + 1);
        assert(next == pk + "/"@ + parts[k]);
        assert(next[pk.len() as int] == '/');
        if next == "."@ {
            assert(next.len() == 1);
            assert(pk.len() == 0);
            assert(next[0] == '.');
        }
    }
}

pub open spec fn sorted_nodes_perm(s: Seq<DirNodeView>) -> bool {
    forall|x: DirNodeView| sorted_nodes(s).contains(x) <==> s.contains(x)
}

proof fn lemma_sorted_nodes_perm(s: Seq<DirNodeView>)
    ensures
        sorted_nodes_perm(s),
        sorted_nodes(s).len() == s.len(),
    decreases s.len(),
{
    lemma_sorted_nodes_len(s);
    if s.len() > 0 {
        lemma_sorted_nodes_perm(s.drop_last());
        let t = sorted_nodes(s.drop_last());
        let p = asc_pos(dir_names(t), s.last().name);
        lemma_asc_pos(dir_names(t), s.last().name);
        assert forall|x: DirNodeView| sorted_nodes(s).contains(x) <==> s.contains(x) by {
            crate::seq_facts::lemma_insert_contains(t, p, s.last(), x);
            crate::seq_facts::lemma_last_contains(s, x);
        }
    }
}

/// Walking the parts down from a node at the path of the first `k` parts
/// reaches, creating what is missing, a node at the path of all of them.
proof fn lemma_ensure_parts_has(n: DirNodeView, parts: Seq<Seq<char>>, k: int)
    requires
        0 <= k <= parts.len(),
        forall|i: int| 0 <= i < parts.len() ==> #[trigger] parts[i] != "."@,
        paths_consistent(n),
        n.path == prefix_path(parts, k),
    ensures
        has_path(ensure_parts(n, parts, k), prefix_path(parts, parts.len() as int)),
    decreases parts.len() - k,
{
    if k == parts.len() {
        lemma_has_path(n, n.path);
    } else {
        let part = parts[k];
        lemma_prefix_step(parts, k);
        lemma_name_index(n.dirs, part);
        let e = empty_view(part, join(parts.take(k + 1), "/"@));
        let existing = name_index(n.dirs, part) < n.dirs.len();
        let dirs1 = if existing {
            n.dirs
        } else {
            sorted_nodes(n.dirs.push(e))
        };
        let idx = name_index(dirs1, part);
        lemma_name_index(dirs1, part);
        if !existing {
            lemma_sorted_nodes_perm(n.dirs.push(e));
            assert(n.dirs.push(e)[n.dirs.len() as int] == e);
            assert(n.dirs.push(e).contains(e));
            assert(sorted_nodes(n.dirs.push(e)).contains(e));
            assert(dirs1.contains(e));
            let j = choose|j: int| 0 <= j < dirs1.len() && dirs1[j] == e;
            assert(dirs1[j].name == part);
        }
        assert(idx < dirs1.len());
        let c = dirs1[idx];
        assert(c.name == part);
        if existing {
            lemma_children_consistent_index(n.path, n.dirs, idx);
        } else {
            assert(dirs1.contains(c));
            crate::seq_facts::lemma_last_contains(n.dirs.push(e), c);
            assert(n.dirs.push(e).drop_last() =~= n.dirs);
            if n.dirs.contains(c) {
                let j = choose|j: int| 0 <= j < n.dirs.len() && n.dirs[j] == c;
                assert(n.dirs[j].name == part);
            }
            assert(c == e);
            assert(children_consistent(e.path, e.dirs));
        }
        lemma_ensure_parts_has(c, parts, k + 1);
        let r = ensure_parts(n, parts, k);
        let d2 = dirs1.update(idx, ensure_parts(c, parts, k + 1));
        assert(r.dirs == d2);
        assert(d2[idx] == ensure_parts(c, parts, k + 1));
        lemma_has_path_list_prefix(d2, prefix_path(parts, parts.len() as int), idx);
        lemma_has_path(r, prefix_path(parts, parts.len() as int));
    }
}

/// Ensuring a proper directory path in a consistent tree rooted at `.`
/// leaves a node at that path.
pub proof fn lemma_ensured_has_path(tree: DirNodeView, t: Seq<char>)
    requires
        tree.path == "."@,
        paths_consistent(tree),
        plain_dir_path(t),
    ensures
        has_path(ensured(tree, t), t),
{
    if t == "."@ {
        lemma_has_path(tree, t);
    } else if first_with_path(preorder(tree), t) is Some {
    } else {
        let parts = split_char(t, '/');
        crate::text::lemma_split_char_len(t, '/');
        assert(forall|i: int| 0 <= i < parts.len() ==> #[trigger] parts[i] != "."@);
        lemma_ensure_parts_has(tree, parts, 0);
        crate::text::lemma_split_join(t, '/');
        reveal_strlit("/");
        assert("/"@ == seq!['/']);
        assert(parts.take(parts.len() as int) =~= parts);
    }
}

/// A module lands on its directory: in a consistent tree rooted at `.`, when
/// the module's directory path is proper, laying the module on the tree
/// leaves a node at that path, and the first one carries the module's C4
/// level.
pub proof fn lemma_module_lands(tree: DirNodeView, m: ModuleDocView, sr: Seq<char>)
    requires
        tree.path == "."@,
        paths_consistent(tree),
        plain_dir_path(dir_path_of(m, sr)),
    ensures
        has_path(overlay_module_spec(tree, m, sr), dir_path_of(m, sr)),
        first_with_path(preorder(overlay_module_spec(tree, m, sr)), dir_path_of(m, sr))->0.c4_level == Some(
            m.c4_level,
        ),
        carries_module(first_with_path(preorder(overlay_module_spec(tree, m, sr)), dir_path_of(m, sr))->0, m),
{
    let t = dir_path_of(m, sr);
    lemma_ensured_has_path(tree, t);
    lemma_overlay_lands(ensured(tree, t), t, m, sr);
}

proof fn lemma_children_consistent_iff(parent: Seq<char>, s: Seq<DirNodeView>)
    ensures
        children_consistent(parent, s) <==> forall|i: int|
            0 <= i < s.len() ==> (#[trigger] s[i]).path == child_rel(parent, s[i].name) && paths_consistent(s[i]),
    decreases s.len(),
{
    if s.len() > 0 {
        lemma_children_consistent_iff(parent, s.drop_last());
        if forall|i: int|
            0 <= i < s.len() ==> (#[trigger] s[i]).path == child_rel(parent, s[i].name) && paths_consistent(s[i]) {
            assert forall|i: int| 0 <= i < s.drop_last().len() implies (#[trigger] s.drop_last()[i]).path
                == child_rel(parent, s.drop_last()[i].name) && paths_consistent(s.drop_last()[i]) by {
                assert(s.drop_last()[i] == s[i]);
            }
            assert(s.last() == s[s.len() - 1]);
        }
        if children_consistent(parent, s) {
            assert forall|i: int| 0 <= i < s.len() implies (#[trigger] s[i]).path == child_rel(parent, s[i].name)
                && paths_consistent(s[i]) by {
                if i < s.len() - 1 {
                    assert(s.drop_last()[i] == s[i]);
                }
            }
        }
    }
}

proof fn lemma_has_path_list_iff(s: Seq<DirNodeView>, p: Seq<char>)
    ensures
        has_path_list(s, p) <==> exists|i: int| 0 <= i < s.len() && has_path(#[trigger] s[i], p),
    decreases s.len(),
{
    if s.len() == 0 {
        assert(crate::ir::preorder_list(s) =~= Seq::<DirNodeView>::empty());
    } else {
        lemma_has_path_list_push(s, p);
        lemma_has_path_list_iff(s.drop_last(), p);
        if exists|i: int| 0 <= i < s.len() && has_path(#[trigger] s[i], p) {
            let i = choose|i: int| 0 <= i < s.len() && has_path(#[trigger] s[i], p);
            if i < s.len() - 1 {
                assert(s.drop_last()[i] == s[i]);
            }
        }
        if has_path_list(s.drop_last(), p) {
            let i = choose|i: int| 0 <= i < s.drop_last().len() && has_path(#[trigger] s.drop_last()[i], p);
            assert(s[i] == s.drop_last()[i]);
        }
        if has_path(s.last(), p) {
            assert(s[s.len() - 1] == s.last());
        }
    }
}

/// Two child lists with the same members are alike in consistency and in
/// the paths they hold.
proof fn lemma_same_members(parent: Seq<char>, a: Seq<DirNodeView>, b: Seq<DirNodeView>)
    requires
        forall|x: DirNodeView| a.contains(x) <==> b.contains(x),
    ensures
        children_consistent(parent, a) ==> children_consistent(parent, b),
        forall|q: Seq<char>| has_path_list(a, q) ==> has_path_list(b, q),
{
    lemma_children_consistent_iff(parent, a);
    lemma_children_consistent_iff(parent, b);
    if children_consistent(parent, a) {
        assert forall|i: int| 0 <= i < b.len() implies (#[trigger] b[i]).path == child_rel(parent, b[i].name)
            && paths_consistent(b[i]) by {
            assert(b.contains(b[i]));
            let j = choose|j: int| 0 <= j < a.len() && a[j] == b[i];
        }
    }
    assert forall|q: Seq<char>| has_path_list(a, q) implies has_path_list(b, q) by {
        lemma_has_path_list_iff(a, q);
        lemma_has_path_list_iff(b, q);
        let i = choose|i: int| 0 <= i < a.len() && has_path(#[trigger] a[i], q);
        assert(a.contains(a[i]));
        let j = choose|j: int| 0 <= j < b.len() && b[j] == a[i];
        assert(has_path(b[j], q));
    }
}

/// Replacing one child by a node of the same name and path that is
/// consistent and keeps the child's paths keeps the list consistent and keeps
/// its paths.
proof fn lemma_replace_child(parent: Seq<char>, s: Seq<DirNodeView>, i: int, c: DirNodeView)
    requires
        0 <= i < s.len(),
        c.name == s[i].name,
        c.path == s[i].path,
        paths_consistent(c),
        forall|q: Seq<char>| has_path(s[i], q) ==> has_path(c, q),
    ensures
        children_consistent(parent, s) ==> children_consistent(parent, s.update(i, c)),
        forall|q: Seq<char>| has_path_list(s, q) ==> has_path_list(s.update(i, c), q),
{
    let u = s.update(i, c);
    lemma_children_consistent_iff(parent, s);
    lemma_children_consistent_iff(parent, u);
    if children_consistent(parent, s) {
        assert forall|j: int| 0 <= j < u.len() implies (#[trigger] u[j]).path == child_rel(parent, u[j].name)
            && paths_consistent(u[j]) by {
            if j != i {
                assert(u[j] == s[j]);
            }
        }
    }
    assert forall|q: Seq<char>| has_path_list(s, q) implies has_path_list(u, q) by {
        lemma_has_path_list_iff(s, q);
        lemma_has_path_list_iff(u, q);
        let j = choose|j: int| 0 <= j < s.len() && has_path(#[trigger] s[j], q);
        if j != i {
            assert(u[j] == s[j]);
        } else {
            assert(u[i] == c);
        }
    }
}

/// Walking the parts down keeps the tree consistent and keeps every path
/// it had.
proof fn lemma_ensure_parts_keeps(n: DirNodeView, parts: Seq<Seq<char>>, k: int)
    requires
        0 <= k <= parts.len(),
        forall|i: int| 0 <= i < parts.len() ==> #[trigger] parts[i] != "."@,
        paths_consistent(n),
        n.path == prefix_path(parts, k),
    ensures
        paths_consistent(ensure_parts(n, parts, k)),
        ensure_parts(n, parts, k).path == n.path,
        forall|q: Seq<char>| has_path(n, q) ==> has_path(ensure_parts(n, parts, k), q),
    decreases parts.len() - k,
{
    if k < parts.len() {
        let part = parts[k];
        lemma_prefix_step(parts, k);
        lemma_name_index(n.dirs, part);
        let e = empty_view(part, join(parts.take(k + 1), "/"@));
        let existing = name_index(n.dirs, part) < n.dirs.len();
        let dirs1 = if existing {
            n.dirs
        } else {
            sorted_nodes(n.dirs.push(e))
        };
        let idx = name_index(dirs1, part);
        lemma_name_index(dirs1, part);
        if !existing {
            let pushed = n.dirs.push(e);
            lemma_sorted_nodes_perm(pushed);
            assert(pushed[n.dirs.len() as int] == e);
            assert(pushed.contains(e));
            assert(dirs1.contains(e));
            let j = choose|j: int| 0 <= j < dirs1.len() && dirs1[j] == e;
            assert(dirs1[j].name == part);
            // the pushed list is consistent and holds every old path
            lemma_children_consistent_iff(n.path, n.dirs);
            lemma_children_consistent_iff(n.path, pushed);
            assert forall|i: int| 0 <= i < pushed.len() implies (#[trigger] pushed[i]).path == child_rel(
                n.path,
                pushed[i].name,
            ) && paths_consistent(pushed[i]) by {
                if i < n.dirs.len() {
                    assert(pushed[i] == n.dirs[i]);
                } else {
                    assert(pushed[i] == e);
                    assert(children_consistent(e.path, e.dirs));
                }
            }
            assert forall|q: Seq<char>| has_path_list(n.dirs, q) implies has_path_list(pushed, q) by {
                lemma_has_path_list_iff(n.dirs, q);
                lemma_has_path_list_iff(pushed, q);
                let i = choose|i: int| 0 <= i < n.dirs.len() && has_path(#[trigger] n.dirs[i], q);
                assert(pushed[i] == n.dirs[i]);
            }
            lemma_same_members(n.path, pushed, dirs1);
        }
        assert(idx < dirs1.len());
        let c = dirs1[idx];
        if existing {
            lemma_children_consistent_index(n.path, n.dirs, idx);
        } else {
            assert(dirs1.contains(c));
            crate::seq_facts::lemma_last_contains(n.dirs.push(e), c);
            assert(n.dirs.push(e).drop_last() =~= n.dirs);
            if n.dirs.contains(c) {
                let j = choose|j: int| 0 <= j < n.dirs.len() && n.dirs[j] == c;
                assert(n.dirs[j].name == part);
            }
            assert(c == e);
            assert(children_consistent(e.path, e.dirs));
        }
        lemma_ensure_parts_keeps(c, parts, k + 1);
        let c2 = ensure_parts(c, parts, k + 1);
        lemma_replace_child(n.path, dirs1, idx, c2);
        let r = ensure_parts(n, parts, k);
        assert(r.dirs == dirs1.update(idx, c2));
        assert forall|q: Seq<char>| has_path(n, q) implies has_path(r, q) by {
            lemma_has_path(n, q);
            lemma_has_path(r, q);
            if n.path != q {
                assert(has_path_list(n.dirs, q));
                if !existing {
                    assert(has_path_list(n.dirs.push(e), q));
                }
                assert(has_path_list(dirs1, q));
                assert(has_path_list(dirs1.update(idx, c2), q));
            }
        }
    }
}

/// Laying a module on a tree keeps it consistent and keeps every path it had.
proof fn lemma_overlay_at_keeps(n: DirNodeView, p: Seq<char>, m: ModuleDocView, sr: Seq<char>)
    requires
        paths_consistent(n),
    ensures
        paths_consistent(overlay_at(n, p, m, sr)),
        overlay_at(n, p, m, sr).path == n.path,
        overlay_at(n, p, m, sr).name == n.name,
        forall|q: Seq<char>| has_path(n, q) ==> has_path(overlay_at(n, p, m, sr), q),
    decreases n, 1nat,
{
    let o = overlay_at(n, p, m, sr);
    if n.path != p {
        lemma_overlay_list_keeps(n.path, n.dirs, p, m, sr);
    }
    assert forall|q: Seq<char>| has_path(n, q) implies has_path(o, q) by {
        lemma_has_path(n, q);
        lemma_has_path(o, q);
    }
}

proof fn lemma_overlay_list_keeps(parent: Seq<char>, s: Seq<DirNodeView>, p: Seq<char>, m: ModuleDocView, sr: Seq<char>)
    requires
        children_consistent(parent, s),
    ensures
        children_consistent(parent, overlay_list(s, p, m, sr)),
        forall|q: Seq<char>| has_path_list(s, q) ==> has_path_list(overlay_list(s, p, m, sr), q),
    decreases s, 0nat,
{
    if s.len() > 0 {
        let o = overlay_list(s, p, m, sr);
        if has_path_list(s.drop_last(), p) {
            lemma_overlay_list_keeps(parent, s.drop_last(), p, m, sr);
            assert(o.drop_last() =~= overlay_list(s.drop_last(), p, m, sr));
            assert(o.last() == s.last());
            assert forall|q: Seq<char>| has_path_list(s, q) implies has_path_list(o, q) by {
                lemma_has_path_list_push(s, q);
                lemma_has_path_list_push(o, q);
            }
        } else if has_path(s.last(), p) {
            lemma_overlay_at_keeps(s.last(), p, m, sr);
            assert(o.drop_last() =~= s.drop_last());
            assert forall|q: Seq<char>| has_path_list(s, q) implies has_path_list(o, q) by {
                lemma_has_path_list_push(s, q);
                lemma_has_path_list_push(o, q);
            }
        }
    }
}

/// Ensuring a directory keeps the tree consistent and keeps its paths.
proof fn lemma_ensured_keeps(tree: DirNodeView, t: Seq<char>)
    requires
        tree.path == "."@,
        paths_consistent(tree),
        plain_dir_path(t),
    ensures
        paths_consistent(ensured(tree, t)),
        ensured(tree, t).path == "."@,
        forall|q: Seq<char>| has_path(tree, q) ==> has_path(ensured(tree, t), q),
{
    if t != "."@ && t.len() != 0 && first_with_path(preorder(tree), t) is None {
        let parts = split_char(t, '/');
        assert(forall|i: int| 0 <= i < parts.len() ==> #[trigger] parts[i] != "."@);
        lemma_ensure_parts_keeps(tree, parts, 0);
    }
}

/// Every module whose directory path is proper has its directory in the tree
/// that the modules are laid on, which stays consistent and rooted at `.`.
pub proof fn lemma_overlay_all_dirs(tree: DirNodeView, ms: Seq<ModuleDocView>, sr: Seq<char>)
    requires
        tree.path == "."@,
        paths_consistent(tree),
        forall|i: int| 0 <= i < ms.len() ==> plain_dir_path(dir_path_of(#[trigger] ms[i], sr)),
    ensures
        paths_consistent(overlay_all(tree, ms, sr)),
        overlay_all(tree, ms, sr).path == "."@,
        forall|i: int| 0 <= i < ms.len() ==> has_path(overlay_all(tree, ms, sr), dir_path_of(#[trigger] ms[i], sr)),
        forall|q: Seq<char>| has_path(tree, q) ==> has_path(overlay_all(tree, ms, sr), q),
    decreases ms.len(),
{
    if ms.len() > 0 {
        let rest = ms.drop_last();
        assert forall|i: int| 0 <= i < rest.len() implies plain_dir_path(dir_path_of(#[trigger] rest[i], sr)) by {
            assert(rest[i] == ms[i]);
        }
        lemma_overlay_all_dirs(tree, rest, sr);
        let a = overlay_all(tree, rest, sr);
        let m = ms.last();
        assert(ms[ms.len() - 1] == m);
        let t = dir_path_of(m, sr);
        lemma_ensured_keeps(a, t);
        lemma_ensured_has_path(a, t);
        let e = ensured(a, t);
        lemma_overlay_at_keeps(e, t, m, sr);
        assert forall|i: int| 0 <= i < ms.len() implies has_path(overlay_all(tree, ms, sr), dir_path_of(
            #[trigger] ms[i],
            sr,
        )) by {
            if i < ms.len() - 1 {
                assert(rest[i] == ms[i]);
            }
        }
    }
}

/// Resolving parents changes no path.
proof fn lemma_resolved_paths(n: DirNodeView, anc: Option<Seq<char>>, q: Seq<char>)
    ensures
        has_path(resolved(n, anc), q) == has_path(n, q),
    decreases n, 1nat,
{
    let next = if is_annotated_view(n) {
        Some(n.path)
    } else {
        anc
    };
    lemma_resolved_list_paths(n.dirs, nonempty_opt(next), q);
    lemma_has_path(n, q);
    lemma_has_path(resolved(n, anc), q);
}

proof fn lemma_resolved_list_paths(s: Seq<DirNodeView>, anc: Option<Seq<char>>, q: Seq<char>)
    ensures
        has_path_list(resolved_list(s, anc), q) == has_path_list(s, q),
    decreases s, 0nat,
{
    if s.len() > 0 {
        lemma_resolved_list_paths(s.drop_last(), anc, q);
        lemma_resolved_paths(s.last(), anc, q);
        let r = resolved_list(s, anc);
        assert(r.drop_last() == resolved_list(s.drop_last(), anc));
        lemma_has_path_list_push(s, q);
        lemma_has_path_list_push(r, q);
    }
}

/// Building an IR creates the directory of every module whose directory path
/// is proper, on a consistent bare tree rooted at `.` (as `build_dir_tree`
/// makes), and keeps every directory of the bare tree.
pub proof fn lemma_build_ir_dirs(sr: Seq<char>, tree: DirNodeView, ms: Seq<ModuleDocView>)
    requires
        tree.path == "."@,
        paths_consistent(tree),
        forall|i: int| 0 <= i < ms.len() ==> plain_dir_path(dir_path_of(#[trigger] ms[i], sr)),
    ensures
        forall|i: int| 0 <= i < ms.len() ==> has_path(build_ir_spec(sr, tree, ms).root, dir_path_of(#[trigger] ms[i], sr)),
        forall|q: Seq<char>| has_path(tree, q) ==> has_path(build_ir_spec(sr, tree, ms).root, q),
{
    lemma_overlay_all_dirs(tree, ms, sr);
    let o = overlay_all(tree, ms, sr);
    assert forall|q: Seq<char>| has_path(o, q) implies has_path(resolved(o, None), q) by {
        lemma_resolved_paths(o, None, q);
    }
}

/// Two nodes with the same annotations (everything but the parent and the
/// children).
pub open spec fn same_annotations(x: DirNodeView, y: DirNodeView) -> bool {
    &&& x.c4_level == y.c4_level
    &&& x.pattern_status == y.pattern_status
    &&& x.description == y.description
    &&& x.content == y.content
    &&& x.pattern == y.pattern
    &&& x.source_file == y.source_file
    &&& x.layer == y.layer
    &&& x.relationships == y.relationships
    &&& x.code_elements == y.code_elements
    &&& x.files == y.files
}

/// Resolving parents keeps the first node at each path, up to its parent
/// and children.
proof fn lemma_resolved_first(n: DirNodeView, anc: Option<Seq<char>>, p: Seq<char>)
    requires
        has_path(n, p),
    ensures
        has_path(resolved(n, anc), p),
        same_annotations(first_with_path(preorder(resolved(n, anc)), p)->0, first_with_path(preorder(n), p)->0),
    decreases n, 1nat,
{
    let r = resolved(n, anc);
    lemma_resolved_paths(n, anc, p);
    lemma_first_of_single(n, crate::ir::preorder_list(n.dirs), p);
    lemma_first_of_single(r, crate::ir::preorder_list(r.dirs), p);
    if n.path != p {
        lemma_has_path(n, p);
        let next = if is_annotated_view(n) {
            Some(n.path)
        } else {
            anc
        };
        lemma_resolved_list_first(n.dirs, nonempty_opt(next), p);
    }
}

proof fn lemma_resolved_list_first(s: Seq<DirNodeView>, anc: Option<Seq<char>>, p: Seq<char>)
    requires
        has_path_list(s, p),
    ensures
        same_annotations(
            first_with_path(crate::ir::preorder_list(resolved_list(s, anc)), p)->0,
            first_with_path(crate::ir::preorder_list(s), p)->0,
        ),
        first_with_path(crate::ir::preorder_list(resolved_list(s, anc)), p) is Some,
    decreases s, 0nat,
{
    lemma_has_path_list_push(s, p);
    let dl = s.drop_last();
    let r = resolved_list(s, anc);
    assert(r.drop_last() == resolved_list(dl, anc));
    assert(r.last() == resolved(s.last(), anc));
    crate::ir::lemma_first_with_path_append(crate::ir::preorder_list(dl), preorder(s.last()), p);
    crate::ir::lemma_first_with_path_append(crate::ir::preorder_list(r.drop_last()), preorder(r.last()), p);
    lemma_resolved_list_paths(dl, anc, p);
    if has_path_list(dl, p) {
        lemma_resolved_list_first(dl, anc, p);
    } else {
        lemma_resolved_first(s.last(), anc, p);
    }
}

/// After building, the directory of the last module carries that module's
/// annotations (on a consistent bare tree rooted at `.`, for proper directory
/// paths): its C4 level, strategy fields and relationships.
pub proof fn lemma_build_ir_last_module(sr: Seq<char>, tree: DirNodeView, ms: Seq<ModuleDocView>)
    requires
        tree.path == "."@,
        paths_consistent(tree),
        ms.len() > 0,
        forall|i: int| 0 <= i < ms.len() ==> plain_dir_path(dir_path_of(#[trigger] ms[i], sr)),
    ensures
        has_path(build_ir_spec(sr, tree, ms).root, dir_path_of(ms.last(), sr)),
        carries_module(
            first_with_path(preorder(build_ir_spec(sr, tree, ms).root), dir_path_of(ms.last(), sr))->0,
            ms.last(),
        ),
{
    let dl = ms.drop_last();
    assert forall|i: int| 0 <= i < dl.len() implies plain_dir_path(dir_path_of(#[trigger] dl[i], sr)) by {
        assert(dl[i] == ms[i]);
    }
    lemma_overlay_all_dirs(tree, dl, sr);
    let a = overlay_all(tree, dl, sr);
    let m = ms.last();
    assert(ms[ms.len() - 1] == m);
    let t = dir_path_of(m, sr);
    lemma_module_lands(a, m, sr);
    let o = overlay_all(tree, ms, sr);
    assert(o == overlay_module_spec(a, m, sr));
    lemma_resolved_first(o, None, t);
    let x = first_with_path(preorder(o), t)->0;
    let y = first_with_path(preorder(resolved(o, None)), t)->0;
    assert(same_annotations(y, x));
    assert(carries_module(x, m));
}

/// Laying a module on path `p` keeps the set of paths, and keeps the
/// annotations of the first node at any other path.
proof fn lemma_overlay_other(n: DirNodeView, p: Seq<char>, m: ModuleDocView, sr: Seq<char>, q: Seq<char>)
    ensures
        has_path(overlay_at(n, p, m, sr), q) == has_path(n, q),
        q != p && has_path(n, q) ==> same_annotations(
            first_with_path(preorder(overlay_at(n, p, m, sr)), q)->0,
            first_with_path(preorder(n), q)->0,
        ),
    decreases n, 1nat,
{
    let o = overlay_at(n, p, m, sr);
    lemma_first_of_single(n, crate::ir::preorder_list(n.dirs), q);
    lemma_first_of_single(o, crate::ir::preorder_list(o.dirs), q);
    lemma_has_path(n, q);
    lemma_has_path(o, q);
    if n.path != p {
        lemma_overlay_list_other(n.dirs, p, m, sr, q);
    }
}

proof fn lemma_overlay_list_other(s: Seq<DirNodeView>, p: Seq<char>, m: ModuleDocView, sr: Seq<char>, q: Seq<char>)
    ensures
        has_path_list(overlay_list(s, p, m, sr), q) == has_path_list(s, q),
        q != p && has_path_list(s, q) ==> same_annotations(
            first_with_path(crate::ir::preorder_list(overlay_list(s, p, m, sr)), q)->0,
            first_with_path(crate::ir::preorder_list(s), q)->0,
        ),
    decreases s, 0nat,
{
    if s.len() > 0 {
        let dl = s.drop_last();
        let o = overlay_list(s, p, m, sr);
        lemma_has_path_list_push(s, q);
        crate::ir::lemma_first_with_path_append(crate::ir::preorder_list(dl), preorder(s.last()), q);
        if has_path_list(dl, p) {
            lemma_overlay_list_other(dl, p, m, sr, q);
            assert(o.drop_last() =~= overlay_list(dl, p, m, sr));
            assert(o.last() == s.last());
        } else if has_path(s.last(), p) {
            lemma_overlay_other(s.last(), p, m, sr, q);
            assert(o.drop_last() =~= dl);
            assert(o.last() == overlay_at(s.last(), p, m, sr));
        } else {
            assert(o == s);
        }
        lemma_has_path_list_push(o, q);
        crate::ir::lemma_first_with_path_append(crate::ir::preorder_list(o.drop_last()), preorder(o.last()), q);
    }
}

proof fn lemma_module_stays(tree: DirNodeView, ms: Seq<ModuleDocView>, sr: Seq<char>, k: int)
    requires
        tree.path == "."@,
        paths_consistent(tree),
        0 <= k < ms.len(),
        forall|i: int| 0 <= i < ms.len() ==> plain_dir_path(dir_path_of(#[trigger] ms[i], sr)),
        forall|j: int|
            k < j < ms.len() ==> dir_path_of(#[trigger] ms[j], sr) != dir_path_of(ms[k], sr) && has_path(
                tree,
                dir_path_of(ms[j], sr),
            ),
    ensures
        has_path(overlay_all(tree, ms, sr), dir_path_of(ms[k], sr)),
        carries_module(first_with_path(preorder(overlay_all(tree, ms, sr)), dir_path_of(ms[k], sr))->0, ms[k]),
    decreases ms.len(),
{
    let dl = ms.drop_last();
    assert forall|i: int| 0 <= i < dl.len() implies plain_dir_path(dir_path_of(#[trigger] dl[i], sr)) by {
        assert(dl[i] == ms[i]);
    }
    lemma_overlay_all_dirs(tree, dl, sr);
    let a = overlay_all(tree, dl, sr);
    let m = ms.last();
    assert(ms[ms.len() - 1] == m);
    let o = overlay_all(tree, ms, sr);
    assert(o == overlay_module_spec(a, m, sr));
    if k == ms.len() - 1 {
        lemma_module_lands(a, m, sr);
    } else {
        assert forall|j: int| k < j < dl.len() implies dir_path_of(#[trigger] dl[j], sr) != dir_path_of(dl[k], sr)
            && has_path(tree, dir_path_of(dl[j], sr)) by {
            assert(dl[j] == ms[j]);
        }
        assert(dl[k] == ms[k]);
        lemma_module_stays(tree, dl, sr, k);
        let tl = dir_path_of(m, sr);
        let tk = dir_path_of(ms[k], sr);
        assert(dir_path_of(ms[ms.len() - 1], sr) != tk);
        assert(has_path(a, tl));
        assert(ensured(a, tl) == a);
        lemma_overlay_other(a, tl, m, sr, tk);
    }
}

/// After building, a module's directory carries that module's annotations
/// (its C4 level, strategy fields and relationships) unless a later module
/// lays its own on the same directory; shown on a consistent bare tree
/// rooted at `.`, for proper directory paths, where the later modules'
/// directories are already in the bare tree.
pub proof fn lemma_build_ir_module(sr: Seq<char>, tree: DirNodeView, ms: Seq<ModuleDocView>, k: int)
    requires
        tree.path == "."@,
        paths_consistent(tree),
        0 <= k < ms.len(),
        forall|i: int| 0 <= i < ms.len() ==> plain_dir_path(dir_path_of(#[trigger] ms[i], sr)),
        forall|j: int|
            k < j < ms.len() ==> dir_path_of(#[trigger] ms[j], sr) != dir_path_of(ms[k], sr) && has_path(
                tree,
                dir_path_of(ms[j], sr),
            ),
    ensures
        has_path(build_ir_spec(sr, tree, ms).root, dir_path_of(ms[k], sr)),
        carries_module(
            first_with_path(preorder(build_ir_spec(sr, tree, ms).root), dir_path_of(ms[k], sr))->0,
            ms[k],
        ),
{
    lemma_module_stays(tree, ms, sr, k);
    let o = overlay_all(tree, ms, sr);
    let t = dir_path_of(ms[k], sr);
    lemma_resolved_first(o, None, t);
    let x = first_with_path(preorder(o), t)->0;
    let y = first_with_path(preorder(resolved(o, None)), t)->0;
    assert(same_annotations(y, x));
    assert(carries_module(x, ms[k]));
}

} // verus!
