//! Merging two architecture IR trees.
use vstd::prelude::*;

use crate::ir::{
    dirs_view, files_view, lemma_dirs_view, ArchitectureIR, ArchitectureIRView, C4Level, DirNode,
    DirNodeView, FileNode, FileNodeView,
};
use crate::text::{
    chars_eq, chars_of, find_slot, key_views, lemma_insert_keys, lemma_lower_bound,
    lemma_sorted_insert, lower_bound, push_str, seq_lt, strictly_sorted,
};

verus! {

broadcast use vstd::string::group_string_axioms;

/// Error returned when merge encounters conflicting definitions.
#[derive(Debug)]
pub struct MergeError {
    pub path: String,
    pub message: String,
}

/// A merge conflict as the specification speaks of it.
pub struct MergeFault {
    pub path: Seq<char>,
    pub message: Seq<char>,
}

impl View for MergeError {
    type V = MergeFault;

    open spec fn view(&self) -> MergeFault {
        MergeFault { path: self.path@, message: self.message@ }
    }
}

impl MergeError {
    /// The error as it is displayed: `merge conflict at '<path>': <message>`.
    pub fn describe(&self) -> (r: String)
        ensures
            r@ == "merge conflict at '"@ + self.path@ + "': "@ + self.message@,
    {
        let mut r = String::new();
        push_str(&mut r, "merge conflict at '");
        push_str(&mut r, self.path.as_str());
        push_str(&mut r, "': ");
        push_str(&mut r, self.message.as_str());
        r
    }
}

// ---------------------------------------------------------------------------
// Specification
// ---------------------------------------------------------------------------

pub open spec fn conflict_message(existing: C4Level, new: C4Level) -> Seq<char> {
    "conflicting C4 levels: existing '"@ + existing.label_spec() + "' vs new '"@
        + new.label_spec() + "'"@
}

/// `a.or(b)`.
pub open spec fn or_else<T>(a: Option<T>, b: Option<T>) -> Option<T> {
    match a {
        Some(x) => Some(x),
        None => b,
    }
}

pub open spec fn dir_names(s: Seq<DirNodeView>) -> Seq<Seq<char>> {
    s.map_values(|d: DirNodeView| d.name)
}

pub open spec fn file_names(s: Seq<FileNodeView>) -> Seq<Seq<char>> {
    s.map_values(|f: FileNodeView| f.name)
}

/// Insert into a name-keyed sorted list, replacing an entry of the same name
/// (`BTreeMap::insert`).
pub open spec fn put_dir(acc: Seq<DirNodeView>, d: DirNodeView) -> Seq<DirNodeView> {
    let p = lower_bound(dir_names(acc), d.name);
    if 0 <= p < acc.len() && acc[p].name == d.name {
        acc.update(p, d)
    } else {
        acc.insert(p, d)
    }
}

pub open spec fn put_dirs(acc: Seq<DirNodeView>, s: Seq<DirNodeView>) -> Seq<DirNodeView>
    decreases s.len(),
{
    if s.len() == 0 {
        acc
    } else {
        put_dir(put_dirs(acc, s.drop_last()), s.last())
    }
}

pub open spec fn put_file(acc: Seq<FileNodeView>, f: FileNodeView) -> Seq<FileNodeView> {
    let p = lower_bound(file_names(acc), f.name);
    if 0 <= p < acc.len() && acc[p].name == f.name {
        acc.update(p, f)
    } else {
        acc.insert(p, f)
    }
}

pub open spec fn put_files(acc: Seq<FileNodeView>, s: Seq<FileNodeView>) -> Seq<FileNodeView>
    decreases s.len(),
{
    if s.len() == 0 {
        acc
    } else {
        put_file(put_files(acc, s.drop_last()), s.last())
    }
}

/// The strategy fields of a merged node: incoming wins where it has a value.
pub open spec fn merged_fields(
    base: DirNodeView,
    inc: DirNodeView,
    dirs: Seq<DirNodeView>,
    files: Seq<FileNodeView>,
) -> DirNodeView {
    DirNodeView {
        name: inc.name,
        path: inc.path,
        c4_level: or_else(inc.c4_level, base.c4_level),
        description: or_else(inc.description, base.description),
        pattern: or_else(inc.pattern, base.pattern),
        pattern_status: or_else(inc.pattern_status, base.pattern_status),
        content: or_else(inc.content, base.content),
        source_file: or_else(inc.source_file, base.source_file),
        parent: or_else(inc.parent, base.parent),
        layer: or_else(inc.layer, base.layer),
        relationships: if inc.relationships.len() == 0 {
            base.relationships
        } else {
            inc.relationships
        },
        code_elements: if inc.code_elements.len() == 0 {
            base.code_elements
        } else {
            inc.code_elements
        },
        dirs,
        files,
    }
}

pub open spec fn levels_conflict(base: DirNodeView, inc: DirNodeView) -> bool {
    base.c4_level is Some && inc.c4_level is Some && base.c4_level != inc.c4_level
}

/// Merge of two nodes: a level conflict at the pair is an error; otherwise
/// child directories are merged by name (base first, then incoming, merging
/// a pair that shares a name), files are combined by name with incoming
/// winning, and children come out sorted by name.
pub open spec fn merge_dir_spec(base: DirNodeView, inc: DirNodeView) -> Result<DirNodeView, MergeFault>
    decreases inc,
{
    if levels_conflict(base, inc) {
        Err(
            MergeFault {
                path: base.path,
                message: conflict_message(base.c4_level.unwrap(), inc.c4_level.unwrap()),
            },
        )
    } else {
        match merge_children(put_dirs(seq![], base.dirs), inc.dirs) {
            Err(e) => Err(e),
            Ok(dirs) => Ok(
                merged_fields(base, inc, dirs, put_files(put_files(seq![], base.files), inc.files)),
            ),
        }
    }
}

/// Fold the incoming children into the name-sorted list `acc`, merging with an
/// entry of the same name; the first conflict met ends the fold.
pub open spec fn merge_children(acc: Seq<DirNodeView>, s: Seq<DirNodeView>) -> Result<
    Seq<DirNodeView>,
    MergeFault,
>
    decreases s,
{
    if s.len() == 0 {
        Ok(acc)
    } else {
        match merge_children(acc, s.drop_last()) {
            Err(e) => Err(e),
            Ok(a) => {
                let d = s.last();
                let p = lower_bound(dir_names(a), d.name);
                if 0 <= p < a.len() && a[p].name == d.name {
                    match merge_dir_spec(a[p], d) {
                        Ok(m) => Ok(a.update(p, m)),
                        Err(e) => Err(e),
                    }
                } else {
                    Ok(a.insert(p, d))
                }
            },
        }
    }
}

pub open spec fn merge_ir_spec(base: ArchitectureIRView, inc: ArchitectureIRView) -> Result<
    ArchitectureIRView,
    MergeFault,
> {
    match merge_dir_spec(base.root, inc.root) {
        Ok(root) => Ok(ArchitectureIRView { version: "2.0"@, scan_root: inc.scan_root, root }),
        Err(e) => Err(e),
    }
}


// ---------------------------------------------------------------------------
// Implementation
// ---------------------------------------------------------------------------

fn opt_or<T>(a: Option<T>, b: Option<T>) -> (r: Option<T>)
    ensures
        r == or_else(a, b),
{
    match a {
        Some(x) => Some(x),
        None => b,
    }
}

fn level_conflict_message(existing: C4Level, new: C4Level) -> (r: String)
    ensures
        r@ == conflict_message(existing, new),
{
    let mut r = String::new();
    push_str(&mut r, "conflicting C4 levels: existing '");
    push_str(&mut r, existing.label());
    push_str(&mut r, "' vs new '");
    push_str(&mut r, new.label());
    push_str(&mut r, "'");
    r
}

/// Puts `f` into the name-sorted `acc` (with `keys` its names), replacing a
/// file of the same name.
fn put_file_exec(acc: &mut Vec<FileNode>, keys: &mut Vec<Vec<char>>, f: FileNode)
    requires
        key_views(old(keys)@) == file_names(files_view(old(acc)@)),
    ensures
        key_views(final(keys)@) == file_names(files_view(final(acc)@)),
        files_view(final(acc)@) == put_file(files_view(old(acc)@), f@),
{
    let name = chars_of(f.name.as_str());
    let p = find_slot(keys, &name);
    let ghost a = files_view(acc@);
    proof {
        crate::text::lemma_lower_bound(key_views(keys@), name@);
        if p < keys@.len() {
            assert(key_views(keys@)[p as int] == keys@[p as int]@);
            assert(a[p as int] == acc@[p as int]@);
        }
    }
    if p < keys.len() && chars_eq(&keys[p], &name) {
        acc.set(p, f);
        proof {
            assert(files_view(acc@) =~= a.update(p as int, f@));
            assert(key_views(keys@) =~= file_names(files_view(acc@)));
        }
    } else {
        let ghost old_keys = key_views(keys@);
        acc.insert(p, f);
        keys.insert(p, name);
        proof {
            assert(files_view(acc@) =~= a.insert(p as int, f@));
            assert(key_views(keys@) =~= old_keys.insert(p as int, name@));
            assert(key_views(keys@) =~= file_names(files_view(acc@)));
        }
    }
}

/// Puts every file of `s`, in order.
fn put_files_exec(acc: &mut Vec<FileNode>, keys: &mut Vec<Vec<char>>, s: Vec<FileNode>)
    requires
        key_views(old(keys)@) == file_names(files_view(old(acc)@)),
    ensures
        key_views(final(keys)@) == file_names(files_view(final(acc)@)),
        files_view(final(acc)@) == put_files(files_view(old(acc)@), files_view(s@)),
{
    let ghost start = files_view(acc@);
    let ghost all = files_view(s@);
    for f in it: s.into_iter()
        invariant
            it.seq() == s@,
            all == files_view(s@),
            key_views(keys@) == file_names(files_view(acc@)),
            files_view(acc@) == put_files(start, all.take(it.index() as int)),
    {
        proof {
            let k = it.index() as int;
            assert(all.take(k + 1).drop_last() =~= all.take(k));
            assert(all.take(k + 1).last() == f@);
        }
        put_file_exec(acc, keys, f);
    }
    assert(all.take(all.len() as int) =~= all);
}

/// Puts `d` into the name-sorted `acc`, replacing a directory of the same name.
fn put_dir_exec(acc: &mut Vec<DirNode>, keys: &mut Vec<Vec<char>>, d: DirNode)
    requires
        key_views(old(keys)@) == dir_names(dirs_view(old(acc)@)),
    ensures
        key_views(final(keys)@) == dir_names(dirs_view(final(acc)@)),
        dirs_view(final(acc)@) == put_dir(dirs_view(old(acc)@), d@),
{
    let name = chars_of(d.name.as_str());
    let p = find_slot(keys, &name);
    let ghost a = dirs_view(acc@);
    proof {
        lemma_dirs_view(acc@);
        crate::text::lemma_lower_bound(key_views(keys@), name@);
        if p < keys@.len() {
            assert(key_views(keys@)[p as int] == keys@[p as int]@);
            assert(a[p as int] == acc@[p as int]@);
        }
    }
    if p < keys.len() && chars_eq(&keys[p], &name) {
        acc.set(p, d);
        proof {
            lemma_dirs_view(acc@);
            assert(dirs_view(acc@) =~= a.update(p as int, d@));
            assert(key_views(keys@) =~= dir_names(dirs_view(acc@)));
        }
    } else {
        let ghost old_keys = key_views(keys@);
        acc.insert(p, d);
        keys.insert(p, name);
        proof {
            lemma_dirs_view(acc@);
            assert(dirs_view(acc@) =~= a.insert(p as int, d@));
            assert(key_views(keys@) =~= old_keys.insert(p as int, name@));
            assert(key_views(keys@) =~= dir_names(dirs_view(acc@)));
        }
    }
}

/// Puts every directory of `s`, in order.
fn put_dirs_exec(acc: &mut Vec<DirNode>, keys: &mut Vec<Vec<char>>, s: Vec<DirNode>)
    requires
        key_views(old(keys)@) == dir_names(dirs_view(old(acc)@)),
    ensures
        key_views(final(keys)@) == dir_names(dirs_view(final(acc)@)),
        dirs_view(final(acc)@) == put_dirs(dirs_view(old(acc)@), dirs_view(s@)),
{
    let ghost start = dirs_view(acc@);
    let ghost all = dirs_view(s@);
    proof {
        lemma_dirs_view(s@);
    }
    for d in it: s.into_iter()
        invariant
            it.seq() == s@,
            all == dirs_view(s@),
            all == s@.map_values(|x: DirNode| x@),
            key_views(keys@) == dir_names(dirs_view(acc@)),
            dirs_view(acc@) == put_dirs(start, all.take(it.index() as int)),
    {
        proof {
            let k = it.index() as int;
            assert(all.take(k + 1).drop_last() =~= all.take(k));
            assert(all.take(k + 1).last() == d@);
        }
        put_dir_exec(acc, keys, d);
    }
    assert(all.take(all.len() as int) =~= all);
}

/// Folds the incoming children into `acc` (see `merge_children`).
fn merge_children_exec(
    acc: &mut Vec<DirNode>,
    keys: &mut Vec<Vec<char>>,
    s: Vec<DirNode>,
    Ghost(sv): Ghost<Seq<DirNodeView>>,
) -> (r: Result<(), MergeError>)
    requires
        sv == dirs_view(s@),
        key_views(old(keys)@) == dir_names(dirs_view(old(acc)@)),
    ensures
        match r {
            Ok(_) => merge_children(dirs_view(old(acc)@), sv) == Ok::<Seq<DirNodeView>, MergeFault>(
                dirs_view(final(acc)@),
            ),
            Err(e) => merge_children(dirs_view(old(acc)@), sv) == Err::<Seq<DirNodeView>, MergeFault>(e@),
        },
    decreases sv, 0nat,
{
    let ghost start = dirs_view(acc@);
    proof {
        lemma_dirs_view(s@);
    }
    for d in it: s.into_iter()
        invariant
            it.seq() == s@,
            sv == dirs_view(s@),
            sv == s@.map_values(|x: DirNode| x@),
            start == dirs_view(old(acc)@),
            key_views(keys@) == dir_names(dirs_view(acc@)),
            merge_children(start, sv.take(it.index() as int)) == Ok::<Seq<DirNodeView>, MergeFault>(
                dirs_view(acc@),
            ),
    {
        let ghost k = it.index() as int;
        proof {
            assert(sv.take(k + 1).drop_last() =~= sv.take(k));
            assert(sv.take(k + 1).last() == d@);
            assert(sv[k] == d@);
        }
        let name = chars_of(d.name.as_str());
        let p = find_slot(keys, &name);
        let ghost a = dirs_view(acc@);
        proof {
            lemma_dirs_view(acc@);
            crate::text::lemma_lower_bound(key_views(keys@), name@);
            if p < keys@.len() {
                assert(key_views(keys@)[p as int] == keys@[p as int]@);
                assert(a[p as int] == acc@[p as int]@);
            }
        }
        if p < keys.len() && chars_eq(&keys[p], &name) {
            let existing = acc.remove(p);
            proof {
                assert(decreases_to!(sv => sv[k]));
            }
            match merge_dir(existing, d) {
                Ok(m) => {
                    acc.insert(p, m);
                    proof {
                        lemma_dirs_view(acc@);
                        assert(dirs_view(acc@) =~= a.update(p as int, m@));
                        assert(key_views(keys@) =~= dir_names(dirs_view(acc@)));
                    }
                },
                Err(e) => {
                    proof {
                        assert(merge_children(start, sv.take(k)) == Ok::<Seq<DirNodeView>, MergeFault>(a));
                        assert(dir_names(a)[p as int] == d@.name);
                        assert(merge_dir_spec(a[p as int], d@) == Err::<DirNodeView, MergeFault>(e@));
                        assert(merge_children(start, sv.take(k + 1)) == Err::<Seq<DirNodeView>, MergeFault>(e@));
                        lemma_merge_children_err_extend(start, sv, k + 1);
                        assert(start == dirs_view(old(acc)@));
                        assert(merge_children(dirs_view(old(acc)@), sv) == Err::<Seq<DirNodeView>, MergeFault>(e@));
                    }
                    return Err(e);
                },
            }
        } else {
            let ghost old_keys = key_views(keys@);
            acc.insert(p, d);
            keys.insert(p, name);
            proof {
                lemma_dirs_view(acc@);
                assert(dirs_view(acc@) =~= a.insert(p as int, d@));
                assert(key_views(keys@) =~= old_keys.insert(p as int, name@));
                assert(key_views(keys@) =~= dir_names(dirs_view(acc@)));
            }
        }
    }
    proof {
        assert(sv.take(sv.len() as int) =~= sv);
    }
    Ok(())
}

/// An error met in a prefix of the incoming children is the result of the
/// whole fold.
proof fn lemma_merge_children_err_extend(acc: Seq<DirNodeView>, s: Seq<DirNodeView>, k: int)
    requires
        0 <= k <= s.len(),
        merge_children(acc, s.take(k)) is Err,
    ensures
        merge_children(acc, s) == merge_children(acc, s.take(k)),
    decreases s.len() - k,
{
    if k < s.len() {
        assert(s.take(k + 1).drop_last() =~= s.take(k));
        lemma_merge_children_err_extend(acc, s, k + 1);
    } else {
        assert(s.take(k) =~= s);
    }
}

/// Recursively merge two DirNodes (see `merge_dir_spec`).
#[verifier::rlimit(50)]
#[verifier::spinoff_prover]
fn merge_dir(base: DirNode, incoming: DirNode) -> (r: Result<DirNode, MergeError>)
    ensures
        match r {
            Ok(d) => merge_dir_spec(base@, incoming@) == Ok::<DirNodeView, MergeFault>(d@),
            Err(e) => merge_dir_spec(base@, incoming@) == Err::<DirNodeView, MergeFault>(e@),
        },
    decreases incoming@, 1nat,
{
    let ghost bv = base@;
    let ghost iv = incoming@;
    if let (Some(base_level), Some(inc_level)) = (base.c4_level, incoming.c4_level) {
        if base_level != inc_level {
            return Err(
                MergeError {
                    path: base.path,
                    message: level_conflict_message(base_level, inc_level),
                },
            );
        }
    }
    let DirNode {
        name: b_name,
        path: b_path,
        c4_level: b_level,
        description: b_desc,
        pattern: b_pattern,
        pattern_status: b_status,
        content: b_content,
        source_file: b_source,
        parent: b_parent,
        layer: b_layer,
        relationships: b_rels,
        code_elements: b_codes,
        dirs: b_dirs,
        files: b_files,
    } = base;
    let DirNode {
        name: i_name,
        path: i_path,
        c4_level: i_level,
        description: i_desc,
        pattern: i_pattern,
        pattern_status: i_status,
        content: i_content,
        source_file: i_source,
        parent: i_parent,
        layer: i_layer,
        relationships: i_rels,
        code_elements: i_codes,
        dirs: i_dirs,
        files: i_files,
    } = incoming;

    let mut acc: Vec<DirNode> = Vec::new();
    let mut keys: Vec<Vec<char>> = Vec::new();
    proof {
        assert(dirs_view(acc@) =~= Seq::<DirNodeView>::empty());
        assert(key_views(keys@) =~= dir_names(dirs_view(acc@)));
        assert(decreases_to!(iv => iv.dirs));
    }
    put_dirs_exec(&mut acc, &mut keys, b_dirs);
    match merge_children_exec(&mut acc, &mut keys, i_dirs, Ghost(iv.dirs)) {
        Ok(_) => {},
        Err(e) => {
            return Err(e);
        },
    }

    let mut facc: Vec<FileNode> = Vec::new();
    let mut fkeys: Vec<Vec<char>> = Vec::new();
    proof {
        assert(files_view(facc@) =~= Seq::<FileNodeView>::empty());
        assert(key_views(fkeys@) =~= file_names(files_view(facc@)));
    }
    put_files_exec(&mut facc, &mut fkeys, b_files);
    put_files_exec(&mut facc, &mut fkeys, i_files);

    let merged = DirNode {
        name: i_name,
        path: i_path,
        c4_level: opt_or(i_level, b_level),
        description: opt_or(i_desc, b_desc),
        pattern: opt_or(i_pattern, b_pattern),
        pattern_status: opt_or(i_status, b_status),
        content: opt_or(i_content, b_content),
        source_file: opt_or(i_source, b_source),
        parent: opt_or(i_parent, b_parent),
        layer: opt_or(i_layer, b_layer),
        relationships: if i_rels.len() == 0 {
            b_rels
        } else {
            i_rels
        },
        code_elements: if i_codes.len() == 0 {
            b_codes
        } else {
            i_codes
        },
        dirs: acc,
        files: facc,
    };
    proof {
        assert(merged@ =~= merged_fields(bv, iv, dirs_view(acc@), files_view(facc@)));
    }
    Ok(merged)
}

/// Merge two `ArchitectureIR` trees into one.
///
/// Directories present in both sides have their strategy fields merged
/// (incoming wins for values that are present); directories and files on one
/// side only are kept as they are; a C4 level conflict at the same path is an
/// error; the scan root is the incoming one; children come out sorted by name.
pub fn merge_ir(base: ArchitectureIR, incoming: ArchitectureIR) -> (r: Result<ArchitectureIR, MergeError>)
    ensures
        match r {
            Ok(ir) => merge_ir_spec(base@, incoming@) == Ok::<ArchitectureIRView, MergeFault>(ir@),
            Err(e) => merge_ir_spec(base@, incoming@) == Err::<ArchitectureIRView, MergeFault>(e@),
        },
{
    let ArchitectureIR { version: _, scan_root: _, root: base_root } = base;
    let ArchitectureIR { version: _, scan_root: inc_scan_root, root: inc_root } = incoming;
    match merge_dir(base_root, inc_root) {
        Ok(root) => Ok(ArchitectureIR { version: "2.0".to_string(), scan_root: inc_scan_root, root }),
        Err(e) => Err(e),
    }
}


// ---------------------------------------------------------------------------
// Laws
// ---------------------------------------------------------------------------

proof fn lemma_put_dir(acc: Seq<DirNodeView>, d: DirNodeView)
    requires
        strictly_sorted(dir_names(acc)),
    ensures
        strictly_sorted(dir_names(put_dir(acc, d))),
        dir_names(put_dir(acc, d)).to_set() == dir_names(acc).to_set().insert(d.name),
{
    let keys = dir_names(acc);
    let p = lower_bound(keys, d.name);
    lemma_lower_bound(keys, d.name);
    if 0 <= p < acc.len() && acc[p].name == d.name {
        assert(dir_names(put_dir(acc, d)) =~= keys);
        assert(keys.to_set().contains(d.name));
        assert(keys.to_set().insert(d.name) =~= keys.to_set());
    } else {
        assert(dir_names(put_dir(acc, d)) =~= keys.insert(p, d.name));
        lemma_sorted_insert(keys, d.name);
        lemma_insert_keys(keys, p, d.name);
    }
}

proof fn lemma_put_dirs(acc: Seq<DirNodeView>, s: Seq<DirNodeView>)
    requires
        strictly_sorted(dir_names(acc)),
    ensures
        strictly_sorted(dir_names(put_dirs(acc, s))),
        dir_names(put_dirs(acc, s)).to_set() == dir_names(acc).to_set() + dir_names(s).to_set(),
    decreases s.len(),
{
    if s.len() == 0 {
        assert(dir_names(s).to_set() =~= Set::<Seq<char>>::empty());
        assert(dir_names(acc).to_set() + dir_names(s).to_set() =~= dir_names(acc).to_set());
    } else {
        lemma_put_dirs(acc, s.drop_last());
        lemma_put_dir(put_dirs(acc, s.drop_last()), s.last());
        lemma_names_push(s);
    }
}

proof fn lemma_names_push(s: Seq<DirNodeView>)
    requires
        s.len() > 0,
    ensures
        dir_names(s).to_set() == dir_names(s.drop_last()).to_set().insert(s.last().name),
{
    assert(dir_names(s) =~= dir_names(s.drop_last()).push(s.last().name));
    dir_names(s.drop_last()).lemma_push_to_set_commute(s.last().name);
}

proof fn lemma_merge_children(acc: Seq<DirNodeView>, s: Seq<DirNodeView>)
    requires
        strictly_sorted(dir_names(acc)),
    ensures
        merge_children(acc, s) matches Ok(r) ==> strictly_sorted(dir_names(r)) && dir_names(r).to_set()
            == dir_names(acc).to_set() + dir_names(s).to_set(),
    decreases s.len(),
{
    if s.len() == 0 {
        assert(dir_names(s).to_set() =~= Set::<Seq<char>>::empty());
        assert(dir_names(acc).to_set() + dir_names(s).to_set() =~= dir_names(acc).to_set());
    } else {
        lemma_merge_children(acc, s.drop_last());
        lemma_names_push(s);
        if let Ok(a) = merge_children(acc, s.drop_last()) {
            let d = s.last();
            let p = lower_bound(dir_names(a), d.name);
            lemma_lower_bound(dir_names(a), d.name);
            if 0 <= p < a.len() && a[p].name == d.name {
                if let Ok(m) = merge_dir_spec(a[p], d) {
                    assert(m.name == d.name);
                    assert(dir_names(a.update(p, m)) =~= dir_names(a));
                    assert(dir_names(a).to_set().contains(d.name));
                }
            } else {
                lemma_put_dir(a, d);
                assert(put_dir(a, d) == a.insert(p, d));
            }
        }
    }
}

/// Successful merge: the merged root's child directories are strictly sorted
/// by name and are named exactly as the children of either root; the same holds
/// of its files; the scan root is the incoming one and the version is "2.0".
pub proof fn lemma_merge_ir_children(base: ArchitectureIRView, incoming: ArchitectureIRView)
    ensures
        merge_ir_spec(base, incoming) matches Ok(r) ==> {
            &&& strictly_sorted(dir_names(r.root.dirs))
            &&& dir_names(r.root.dirs).to_set() == dir_names(base.root.dirs).to_set() + dir_names(
                incoming.root.dirs,
            ).to_set()
            &&& strictly_sorted(file_names(r.root.files))
            &&& file_names(r.root.files).to_set() == file_names(base.root.files).to_set()
                + file_names(incoming.root.files).to_set()
            &&& r.scan_root == incoming.scan_root
            &&& r.version == "2.0"@
        },
{
    let e = Seq::<DirNodeView>::empty();
    assert(dir_names(e) =~= Seq::<Seq<char>>::empty());
    assert(dir_names(e).to_set() =~= Set::<Seq<char>>::empty());
    lemma_put_dirs(e, base.root.dirs);
    let acc = put_dirs(e, base.root.dirs);
    assert(dir_names(e).to_set() + dir_names(base.root.dirs).to_set() =~= dir_names(base.root.dirs).to_set());
    lemma_merge_children(acc, incoming.root.dirs);
    let fe = Seq::<FileNodeView>::empty();
    assert(file_names(fe) =~= Seq::<Seq<char>>::empty());
    lemma_put_files(fe, base.root.files);
    let facc = put_files(fe, base.root.files);
    lemma_put_files(facc, incoming.root.files);
    assert(file_names(fe).to_set() + file_names(base.root.files).to_set() =~= file_names(base.root.files).to_set());
}

proof fn lemma_put_files(acc: Seq<FileNodeView>, s: Seq<FileNodeView>)
    requires
        strictly_sorted(file_names(acc)),
    ensures
        strictly_sorted(file_names(put_files(acc, s))),
        file_names(put_files(acc, s)).to_set() == file_names(acc).to_set() + file_names(s).to_set(),
    decreases s.len(),
{
    if s.len() == 0 {
        assert(file_names(s).to_set() =~= Set::<Seq<char>>::empty());
        assert(file_names(acc).to_set() + file_names(s).to_set() =~= file_names(acc).to_set());
    } else {
        lemma_put_files(acc, s.drop_last());
        let a = put_files(acc, s.drop_last());
        let f = s.last();
        let keys = file_names(a);
        let p = lower_bound(keys, f.name);
        lemma_lower_bound(keys, f.name);
        if 0 <= p < a.len() && a[p].name == f.name {
            assert(file_names(put_file(a, f)) =~= keys);
            assert(keys.to_set().contains(f.name));
        } else {
            assert(file_names(put_file(a, f)) =~= keys.insert(p, f.name));
            lemma_sorted_insert(keys, f.name);
            lemma_insert_keys(keys, p, f.name);
        }
        assert(file_names(s) =~= file_names(s.drop_last()).push(f.name));
        file_names(s.drop_last()).lemma_push_to_set_commute(f.name);
        assert(file_names(put_files(acc, s)).to_set() =~= file_names(acc).to_set() + file_names(s).to_set());
    }
}

/// A pair is merged with the incoming side winning every strategy field it
/// has: a successful merge of two directories takes each optional field from
/// the incoming one when it is present and from the base one otherwise, takes
/// the relationships and code elements of the incoming one unless it has
/// none, and its name and path from the incoming one. A pair whose C4 levels
/// are both present and differ fails.
pub proof fn lemma_merge_dir_incoming_wins(b: DirNodeView, i: DirNodeView)
    ensures
        (merge_dir_spec(b, i) is Err) <== (b.c4_level is Some && i.c4_level is Some && b.c4_level != i.c4_level),
        merge_dir_spec(b, i) matches Ok(r) ==> incoming_wins(b, i, r),
{
}

/// `r` takes each optional strategy field from `i` when `i` has it and from
/// `b` otherwise, the relationships and code elements of `i` unless `i` has
/// none, and the name and path of `i`.
pub open spec fn incoming_wins(b: DirNodeView, i: DirNodeView, r: DirNodeView) -> bool {
    &&& r.name == i.name
    &&& r.path == i.path
    &&& r.c4_level == (if i.c4_level is Some { i.c4_level } else { b.c4_level })
    &&& r.description == (if i.description is Some { i.description } else { b.description })
    &&& r.pattern == (if i.pattern is Some { i.pattern } else { b.pattern })
    &&& r.pattern_status == (if i.pattern_status is Some { i.pattern_status } else { b.pattern_status })
    &&& r.content == (if i.content is Some { i.content } else { b.content })
    &&& r.source_file == (if i.source_file is Some { i.source_file } else { b.source_file })
    &&& r.parent == (if i.parent is Some { i.parent } else { b.parent })
    &&& r.layer == (if i.layer is Some { i.layer } else { b.layer })
    &&& r.relationships == (if i.relationships.len() > 0 { i.relationships } else { b.relationships })
    &&& r.code_elements == (if i.code_elements.len() > 0 { i.code_elements } else { b.code_elements })
}

/// The roots of two IRs are merged as a pair (see
/// `lemma_merge_dir_incoming_wins`): the incoming root wins every field it has.
pub proof fn lemma_merge_incoming_wins(base: ArchitectureIRView, inc: ArchitectureIRView)
    ensures
        merge_ir_spec(base, inc) matches Ok(r) ==> merge_dir_spec(base.root, inc.root) == Ok::<DirNodeView, MergeFault>(r.root),
        (merge_ir_spec(base, inc) is Err) == (merge_dir_spec(base.root, inc.root) is Err),
{
}

proof fn lemma_lower_bound_at(keys: Seq<Seq<char>>, j: int)
    requires
        strictly_sorted(keys),
        0 <= j < keys.len(),
    ensures
        lower_bound(keys, keys[j]) == j,
{
    let key = keys[j];
    lemma_lower_bound(keys, key);
    let p = lower_bound(keys, key);
    crate::text::lemma_lt_irreflexive(key);
    if p < j {
        assert(seq_lt(keys[p], keys[j]));
    } else if p > j {
        assert(seq_lt(keys[j], key));
    }
}

proof fn lemma_put_dir_keeps(acc: Seq<DirNodeView>, d: DirNodeView, x: DirNodeView)
    requires
        acc.contains(x),
        x.name != d.name,
    ensures
        put_dir(acc, d).contains(x),
        put_dir(acc, d).contains(d),
{
    let p = lower_bound(dir_names(acc), d.name);
    lemma_lower_bound(dir_names(acc), d.name);
    let k = choose|k: int| 0 <= k < acc.len() && acc[k] == x;
    if 0 <= p < acc.len() && acc[p].name == d.name {
        assert(acc.update(p, d)[k] == x);
        assert(acc.update(p, d)[p] == d);
    } else {
        crate::seq_facts::lemma_insert_contains(acc, p, d, x);
        crate::seq_facts::lemma_insert_contains(acc, p, d, d);
    }
}

proof fn lemma_put_dir_has(acc: Seq<DirNodeView>, d: DirNodeView)
    ensures
        put_dir(acc, d).contains(d),
{
    let p = lower_bound(dir_names(acc), d.name);
    lemma_lower_bound(dir_names(acc), d.name);
    if 0 <= p < acc.len() && acc[p].name == d.name {
        assert(acc.update(p, d)[p] == d);
    } else {
        crate::seq_facts::lemma_insert_contains(acc, p, d, d);
    }
}

proof fn lemma_put_dirs_has(acc: Seq<DirNodeView>, s: Seq<DirNodeView>, k: int)
    requires
        0 <= k < s.len(),
        dir_names(s).no_duplicates(),
    ensures
        put_dirs(acc, s).contains(s[k]),
    decreases s.len(),
{
    let dl = s.drop_last();
    if k == s.len() - 1 {
        lemma_put_dir_has(put_dirs(acc, dl), s.last());
    } else {
        assert(dir_names(dl).no_duplicates()) by {
            assert forall|a: int, b: int| 0 <= a < b < dir_names(dl).len() implies dir_names(dl)[a] != dir_names(dl)[b] by {
                assert(dir_names(dl)[a] == dir_names(s)[a] && dir_names(dl)[b] == dir_names(s)[b]);
            }
        }
        assert(dl[k] == s[k]);
        lemma_put_dirs_has(acc, dl, k);
        assert(dir_names(s)[k] != dir_names(s)[s.len() - 1]);
        lemma_put_dir_keeps(put_dirs(acc, dl), s.last(), s[k]);
    }
}

/// An entry of a name other than those of the incoming children survives
/// the fold.
proof fn lemma_merge_children_keeps(acc: Seq<DirNodeView>, s: Seq<DirNodeView>, x: DirNodeView)
    requires
        acc.contains(x),
        forall|j: int| 0 <= j < s.len() ==> (#[trigger] s[j]).name != x.name,
        merge_children(acc, s) is Ok,
    ensures
        merge_children(acc, s)->Ok_0.contains(x),
    decreases s.len(),
{
    if s.len() > 0 {
        let dl = s.drop_last();
        assert forall|j: int| 0 <= j < dl.len() implies (#[trigger] dl[j]).name != x.name by {
            assert(dl[j] == s[j]);
        }
        assert(s[s.len() - 1].name != x.name);
        lemma_merge_children_keeps(acc, dl, x);
        let a = merge_children(acc, dl)->Ok_0;
        let d = s.last();
        let p = lower_bound(dir_names(a), d.name);
        lemma_lower_bound(dir_names(a), d.name);
        let k = choose|k: int| 0 <= k < a.len() && a[k] == x;
        if 0 <= p < a.len() && a[p].name == d.name {
            let m = merge_dir_spec(a[p], d)->Ok_0;
            assert(a.update(p, m)[k] == x);
        } else {
            crate::seq_facts::lemma_insert_contains(a, p, d, x);
        }
    }
}

proof fn lemma_merge_children_pair(acc: Seq<DirNodeView>, s: Seq<DirNodeView>, x: DirNodeView, ii: int)
    requires
        strictly_sorted(dir_names(acc)),
        acc.contains(x),
        0 <= ii < s.len(),
        s[ii].name == x.name,
        dir_names(s).no_duplicates(),
        merge_children(acc, s) is Ok,
    ensures
        merge_dir_spec(x, s[ii]) is Ok,
        merge_children(acc, s)->Ok_0.contains(merge_dir_spec(x, s[ii])->Ok_0),
    decreases s.len(),
{
    let dl = s.drop_last();
    let d = s.last();
    assert(merge_children(acc, dl) is Ok);
    lemma_merge_children(acc, dl);
    let a = merge_children(acc, dl)->Ok_0;
    let names = dir_names(a);
    let p = lower_bound(names, d.name);
    lemma_lower_bound(names, d.name);
    if ii == s.len() - 1 {
        assert forall|j: int| 0 <= j < dl.len() implies (#[trigger] dl[j]).name != x.name by {
            assert(dl[j] == s[j]);
            assert(dir_names(s)[j] != dir_names(s)[ii]);
        }
        lemma_merge_children_keeps(acc, dl, x);
        let k = choose|k: int| 0 <= k < a.len() && a[k] == x;
        assert(names[k] == d.name);
        lemma_lower_bound_at(names, k);
        assert(p == k);
        let m = merge_dir_spec(a[p], d)->Ok_0;
        assert(a.update(p, m)[p] == m);
    } else {
        assert(dir_names(dl).no_duplicates()) by {
            assert forall|a1: int, b1: int| 0 <= a1 < b1 < dir_names(dl).len() implies dir_names(dl)[a1]
                != dir_names(dl)[b1] by {
                assert(dir_names(dl)[a1] == dir_names(s)[a1] && dir_names(dl)[b1] == dir_names(s)[b1]);
            }
        }
        assert(dl[ii] == s[ii]);
        lemma_merge_children_pair(acc, dl, x, ii);
        let m0 = merge_dir_spec(x, s[ii])->Ok_0;
        assert(m0.name == s[ii].name);
        assert(dir_names(s)[ii] != dir_names(s)[s.len() - 1]);
        let k = choose|k: int| 0 <= k < a.len() && a[k] == m0;
        if 0 <= p < a.len() && a[p].name == d.name {
            let m = merge_dir_spec(a[p], d)->Ok_0;
            assert(a.update(p, m)[k] == m0);
        } else {
            crate::seq_facts::lemma_insert_contains(a, p, d, m0);
        }
    }
}

/// Directories present on both sides are merged with each other: when each
/// root's children hold a name once, a successful merge of the roots has,
/// among its children, the merge of the base child and the incoming child of
/// that name (so the incoming child wins their fields, by
/// `lemma_merge_dir_incoming_wins`).
pub proof fn lemma_merge_pairs(b: DirNodeView, i: DirNodeView, bi: int, ii: int)
    requires
        0 <= bi < b.dirs.len(),
        0 <= ii < i.dirs.len(),
        b.dirs[bi].name == i.dirs[ii].name,
        dir_names(b.dirs).no_duplicates(),
        dir_names(i.dirs).no_duplicates(),
        merge_dir_spec(b, i) is Ok,
    ensures
        merge_dir_spec(b.dirs[bi], i.dirs[ii]) is Ok,
        merge_dir_spec(b, i)->Ok_0.dirs.contains(merge_dir_spec(b.dirs[bi], i.dirs[ii])->Ok_0),
{
    let e = Seq::<DirNodeView>::empty();
    assert(dir_names(e) =~= Seq::<Seq<char>>::empty());
    lemma_put_dirs(e, b.dirs);
    let acc = put_dirs(e, b.dirs);
    lemma_put_dirs_has(e, b.dirs, bi);
    assert(merge_children(acc, i.dirs) is Ok);
    lemma_merge_children_pair(acc, i.dirs, b.dirs[bi], ii);
}

/// A top-level directory present under both roots comes out of a successful
/// `merge_ir` as one child of the merged root that takes the incoming
/// directory's fields where they are present and the base directory's
/// otherwise (children are named once on each side).
pub proof fn lemma_merge_ir_child_incoming_wins(base: ArchitectureIRView, inc: ArchitectureIRView, bi: int, ii: int)
    requires
        0 <= bi < base.root.dirs.len(),
        0 <= ii < inc.root.dirs.len(),
        base.root.dirs[bi].name == inc.root.dirs[ii].name,
        dir_names(base.root.dirs).no_duplicates(),
        dir_names(inc.root.dirs).no_duplicates(),
    ensures
        merge_ir_spec(base, inc) matches Ok(r) ==> exists|k: int|
            0 <= k < r.root.dirs.len() && incoming_wins(base.root.dirs[bi], inc.root.dirs[ii], #[trigger] r.root.dirs[k]),
{
    if merge_ir_spec(base, inc) is Ok {
        lemma_merge_incoming_wins(base, inc);
        lemma_merge_pairs(base.root, inc.root, bi, ii);
        let m = merge_dir_spec(base.root.dirs[bi], inc.root.dirs[ii])->Ok_0;
        lemma_merge_dir_incoming_wins(base.root.dirs[bi], inc.root.dirs[ii]);
        let r = merge_ir_spec(base, inc)->Ok_0;
        let k = choose|k: int| 0 <= k < r.root.dirs.len() && r.root.dirs[k] == m;
        assert(incoming_wins(base.root.dirs[bi], inc.root.dirs[ii], r.root.dirs[k]));
    }
}

proof fn lemma_put_file_keeps(acc: Seq<FileNodeView>, f: FileNodeView, x: FileNodeView)
    requires
        acc.contains(x),
        x.name != f.name,
    ensures
        put_file(acc, f).contains(x),
{
    let p = lower_bound(file_names(acc), f.name);
    lemma_lower_bound(file_names(acc), f.name);
    let k = choose|k: int| 0 <= k < acc.len() && acc[k] == x;
    if 0 <= p < acc.len() && acc[p].name == f.name {
        assert(acc.update(p, f)[k] == x);
    } else {
        crate::seq_facts::lemma_insert_contains(acc, p, f, x);
    }
}

proof fn lemma_put_file_has(acc: Seq<FileNodeView>, f: FileNodeView)
    ensures
        put_file(acc, f).contains(f),
{
    let p = lower_bound(file_names(acc), f.name);
    lemma_lower_bound(file_names(acc), f.name);
    if 0 <= p < acc.len() && acc[p].name == f.name {
        assert(acc.update(p, f)[p] == f);
    } else {
        crate::seq_facts::lemma_insert_contains(acc, p, f, f);
    }
}

/// A file of a later name survives the later insertions.
proof fn lemma_put_files_keeps(acc: Seq<FileNodeView>, s: Seq<FileNodeView>, x: FileNodeView)
    requires
        acc.contains(x),
        !file_names(s).contains(x.name),
    ensures
        put_files(acc, s).contains(x),
    decreases s.len(),
{
    if s.len() > 0 {
        let dl = s.drop_last();
        assert(!file_names(dl).contains(x.name)) by {
            if file_names(dl).contains(x.name) {
                let j = choose|j: int| 0 <= j < file_names(dl).len() && file_names(dl)[j] == x.name;
                assert(file_names(s)[j] == x.name);
            }
        }
        assert(file_names(s)[s.len() - 1] == s.last().name);
        lemma_put_files_keeps(acc, dl, x);
        lemma_put_file_keeps(put_files(acc, dl), s.last(), x);
    }
}

proof fn lemma_put_files_has(acc: Seq<FileNodeView>, s: Seq<FileNodeView>, k: int)
    requires
        0 <= k < s.len(),
        file_names(s).no_duplicates(),
    ensures
        put_files(acc, s).contains(s[k]),
    decreases s.len(),
{
    let dl = s.drop_last();
    if k == s.len() - 1 {
        lemma_put_file_has(put_files(acc, dl), s.last());
    } else {
        assert(file_names(dl).no_duplicates()) by {
            assert forall|a: int, b: int| 0 <= a < b < file_names(dl).len() implies file_names(dl)[a]
                != file_names(dl)[b] by {
                assert(file_names(dl)[a] == file_names(s)[a] && file_names(dl)[b] == file_names(s)[b]);
            }
        }
        assert(dl[k] == s[k]);
        lemma_put_files_has(acc, dl, k);
        assert(file_names(s)[k] != file_names(s)[s.len() - 1]);
        lemma_put_file_keeps(put_files(acc, dl), s.last(), s[k]);
    }
}

/// An incoming child whose name nothing in the list has is added as it is.
proof fn lemma_merge_children_adds(acc: Seq<DirNodeView>, s: Seq<DirNodeView>, k: int)
    requires
        strictly_sorted(dir_names(acc)),
        0 <= k < s.len(),
        dir_names(s).no_duplicates(),
        !dir_names(acc).contains(s[k].name),
        merge_children(acc, s) is Ok,
    ensures
        merge_children(acc, s)->Ok_0.contains(s[k]),
    decreases s.len(),
{
    let dl = s.drop_last();
    let d = s.last();
    assert(merge_children(acc, dl) is Ok);
    lemma_merge_children(acc, dl);
    let a = merge_children(acc, dl)->Ok_0;
    let names = dir_names(a);
    let p = lower_bound(names, d.name);
    lemma_lower_bound(names, d.name);
    if k == s.len() - 1 {
        assert(!dir_names(dl).contains(d.name)) by {
            if dir_names(dl).contains(d.name) {
                let j = choose|j: int| 0 <= j < dir_names(dl).len() && dir_names(dl)[j] == d.name;
                assert(dir_names(s)[j] == dir_names(s)[k]);
            }
        }
        assert(!names.to_set().contains(d.name));
        if 0 <= p < a.len() && a[p].name == d.name {
            assert(names[p] == d.name);
            assert(names.to_set().contains(d.name));
        }
        crate::seq_facts::lemma_insert_contains(a, p, d, d);
    } else {
        assert(dir_names(dl).no_duplicates()) by {
            assert forall|a1: int, b1: int| 0 <= a1 < b1 < dir_names(dl).len() implies dir_names(dl)[a1]
                != dir_names(dl)[b1] by {
                assert(dir_names(dl)[a1] == dir_names(s)[a1] && dir_names(dl)[b1] == dir_names(s)[b1]);
            }
        }
        assert(dl[k] == s[k]);
        lemma_merge_children_adds(acc, dl, k);
        assert(dir_names(s)[k] != dir_names(s)[s.len() - 1]);
        let x = s[k];
        let j = choose|j: int| 0 <= j < a.len() && a[j] == x;
        if 0 <= p < a.len() && a[p].name == d.name {
            let m = merge_dir_spec(a[p], d)->Ok_0;
            assert(a.update(p, m)[j] == x);
        } else {
            crate::seq_facts::lemma_insert_contains(a, p, d, x);
        }
    }
}

/// What only one side has is kept as it is: in a successful merge of two
/// directories (each naming its children and its files once), every incoming
/// file is among the merged files, every base file whose name no incoming
/// file has is too, and every child directory that only one side has is
/// among the merged children unchanged.
pub proof fn lemma_merge_one_side(b: DirNodeView, i: DirNodeView)
    requires
        dir_names(b.dirs).no_duplicates(),
        dir_names(i.dirs).no_duplicates(),
        file_names(b.files).no_duplicates(),
        file_names(i.files).no_duplicates(),
    ensures
        merge_dir_spec(b, i) matches Ok(r) ==> {
            &&& forall|k: int| 0 <= k < i.files.len() ==> r.files.contains(#[trigger] i.files[k])
            &&& forall|k: int|
                0 <= k < b.files.len() && !file_names(i.files).contains(b.files[k].name) ==> r.files.contains(
                    #[trigger] b.files[k],
                )
            &&& forall|k: int|
                0 <= k < b.dirs.len() && !dir_names(i.dirs).contains(b.dirs[k].name) ==> r.dirs.contains(
                    #[trigger] b.dirs[k],
                )
            &&& forall|k: int|
                0 <= k < i.dirs.len() && !dir_names(b.dirs).contains(i.dirs[k].name) ==> r.dirs.contains(
                    #[trigger] i.dirs[k],
                )
        },
{
    if merge_dir_spec(b, i) is Ok {
        let r = merge_dir_spec(b, i)->Ok_0;
        let ef = Seq::<FileNodeView>::empty();
        let fb = put_files(ef, b.files);
        assert forall|k: int| 0 <= k < i.files.len() implies r.files.contains(#[trigger] i.files[k]) by {
            lemma_put_files_has(fb, i.files, k);
        }
        assert forall|k: int|
            0 <= k < b.files.len() && !file_names(i.files).contains(b.files[k].name) implies r.files.contains(
            #[trigger] b.files[k],
        ) by {
            lemma_put_files_has(ef, b.files, k);
            lemma_put_files_keeps(fb, i.files, b.files[k]);
        }
        let e = Seq::<DirNodeView>::empty();
        assert(dir_names(e) =~= Seq::<Seq<char>>::empty());
        lemma_put_dirs(e, b.dirs);
        let acc = put_dirs(e, b.dirs);
        assert(merge_children(acc, i.dirs) is Ok);
        assert forall|k: int|
            0 <= k < b.dirs.len() && !dir_names(i.dirs).contains(b.dirs[k].name) implies r.dirs.contains(
            #[trigger] b.dirs[k],
        ) by {
            lemma_put_dirs_has(e, b.dirs, k);
            assert forall|j: int| 0 <= j < i.dirs.len() implies (#[trigger] i.dirs[j]).name != b.dirs[k].name by {
                assert(dir_names(i.dirs)[j] == i.dirs[j].name);
            }
            lemma_merge_children_keeps(acc, i.dirs, b.dirs[k]);
        }
        assert forall|k: int|
            0 <= k < i.dirs.len() && !dir_names(b.dirs).contains(i.dirs[k].name) implies r.dirs.contains(
            #[trigger] i.dirs[k],
        ) by {
            assert(Set::<Seq<char>>::empty() + dir_names(b.dirs).to_set() =~= dir_names(b.dirs).to_set());
            assert(dir_names(e).to_set() =~= Set::<Seq<char>>::empty());
            assert(!dir_names(acc).to_set().contains(i.dirs[k].name));
            lemma_merge_children_adds(acc, i.dirs, k);
        }
    }
}

} // verus!
