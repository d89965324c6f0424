//! Choosing the module entry files of a Rust source tree.
//!
//! A walk of the tree finds `.rs` files together with their archidoc
//! doc-comment content and the module path each stands for; this module
//! decides which of them document a module: `lib.rs` and `mod.rs` entry
//! files always, other (flat) module files only when they carry a C4 marker,
//! and an entry file wins over a flat file of the same module path.
use vstd::prelude::*;

use crate::text::{
    asc_pos, asc_slot, chars_ends_with, chars_find, chars_of, chars_trim, find, has_suffix, key_views,
    lemma_asc_pos, seq_lt, str_eq, trim,
};

verus! {

broadcast use vstd::string::group_string_axioms;

/// A `.rs` file met while walking a source tree.
#[derive(Debug, Clone)]
pub struct SourceFile {
    /// The module path the file stands for (dot-separated).
    pub mod_path: String,
    /// The file's base name.
    pub file_name: String,
    /// The file's path as found by the walk.
    pub source_file: String,
    /// The archidoc content of the file's `//!` doc comment (empty if none).
    pub content: String,
}

pub struct SourceFileView {
    pub mod_path: Seq<char>,
    pub file_name: Seq<char>,
    pub source_file: Seq<char>,
    pub content: Seq<char>,
}

impl View for SourceFile {
    type V = SourceFileView;

    open spec fn view(&self) -> SourceFileView {
        SourceFileView {
            mod_path: self.mod_path@,
            file_name: self.file_name@,
            source_file: self.source_file@,
            content: self.content@,
        }
    }
}

pub open spec fn sources_view(s: Seq<SourceFile>) -> Seq<SourceFileView> {
    s.map_values(|f: SourceFile| f@)
}

pub open spec fn contains_text(s: Seq<char>, pat: Seq<char>) -> bool {
    find(s, pat) is Some
}

/// `lib.rs` and `mod.rs` are module entry files.
pub open spec fn is_entry_file(name: Seq<char>) -> bool {
    name == "lib.rs"@ || name == "mod.rs"@
}

/// A file documents a module when it is a `.rs` file with non-blank archidoc
/// content, and, unless it is an entry file, that content marks a container
/// or a component.
pub open spec fn documents_module(f: SourceFileView) -> bool {
    &&& has_suffix(f.file_name, ".rs"@)
    &&& trim(f.content).len() > 0
    &&& (is_entry_file(f.file_name) || contains_text(f.content, "@c4 container"@) || contains_text(
        f.content,
        "@c4 component"@,
    ))
}

/// The index of the chosen file of module path `p`, or the length.
pub open spec fn chosen_index(acc: Seq<SourceFileView>, p: Seq<char>) -> int
    decreases acc.len(),
{
    if acc.len() == 0 {
        0
    } else if acc[0].mod_path == p {
        0
    } else {
        1 + chosen_index(acc.drop_first(), p)
    }
}

/// One file of the walk: ignored unless it documents a module; the first
/// file of a module path is kept, and an entry file replaces whatever was
/// kept for its path (a flat file never replaces one).
pub open spec fn choose_step(acc: Seq<SourceFileView>, f: SourceFileView) -> Seq<SourceFileView> {
    if !documents_module(f) {
        acc
    } else {
        let i = chosen_index(acc, f.mod_path);
        if 0 <= i < acc.len() {
            if is_entry_file(f.file_name) {
                acc.update(i, f)
            } else {
                acc
            }
        } else {
            acc.push(f)
        }
    }
}

pub open spec fn choose_all(fs: Seq<SourceFileView>) -> Seq<SourceFileView>
    decreases fs.len(),
{
    if fs.len() == 0 {
        seq![]
    } else {
        choose_step(choose_all(fs.drop_last()), fs.last())
    }
}

pub open spec fn source_paths(s: Seq<SourceFileView>) -> Seq<Seq<char>> {
    s.map_values(|f: SourceFileView| f.mod_path)
}

/// The files in ascending module-path order (a stable insertion sort).
pub open spec fn sorted_sources(s: Seq<SourceFileView>) -> Seq<SourceFileView>
    decreases s.len(),
{
    if s.len() == 0 {
        seq![]
    } else {
        let t = sorted_sources(s.drop_last());
        t.insert(asc_pos(source_paths(t), s.last().mod_path), s.last())
    }
}

fn documents_module_exec(f: &SourceFile) -> (r: bool)
    ensures
        r == documents_module(f@),
{
    let name = chars_of(f.file_name.as_str());
    if !chars_ends_with(&name, &chars_of(".rs")) {
        return false;
    }
    let content = chars_of(f.content.as_str());
    if chars_trim(&content).len() == 0 {
        return false;
    }
    if str_eq(f.file_name.as_str(), "lib.rs") || str_eq(f.file_name.as_str(), "mod.rs") {
        return true;
    }
    chars_find(&content, &chars_of("@c4 container")).is_some() || chars_find(
        &content,
        &chars_of("@c4 component"),
    ).is_some()
}

fn chosen_index_exec(acc: &Vec<SourceFile>, p: &str) -> (r: usize)
    ensures
        r == chosen_index(sources_view(acc@), p@),
{
    let ghost av = sources_view(acc@);
    let mut i: usize = 0;
    assert(av.skip(0) =~= av);
    while i < acc.len() && !str_eq(acc[i].mod_path.as_str(), p)
        invariant
            0 <= i <= acc@.len(),
            av == sources_view(acc@),
            chosen_index(av, p@) == i + chosen_index(av.skip(i as int), p@),
        decreases acc@.len() - i,
    {
        assert(av.skip(i + 1) =~= av.skip(i as int).drop_first());
        assert(av.skip(i as int)[0] == acc@[i as int]@);
        i += 1;
    }
    proof {
        if i < acc@.len() {
            assert(av.skip(i as int)[0] == acc@[i as int]@);
        }
    }
    i
}

proof fn lemma_chosen_index(acc: Seq<SourceFileView>, p: Seq<char>)
    ensures
        0 <= chosen_index(acc, p) <= acc.len(),
    decreases acc.len(),
{
    if acc.len() > 0 && acc[0].mod_path != p {
        lemma_chosen_index(acc.drop_first(), p);
    }
}

fn sort_sources(v: Vec<SourceFile>) -> (r: Vec<SourceFile>)
    ensures
        sources_view(r@) == sorted_sources(sources_view(v@)),
{
    let ghost all = sources_view(v@);
    let ghost orig = v@;
    let mut out: Vec<SourceFile> = Vec::new();
    let mut keys: Vec<Vec<char>> = Vec::new();
    for f in it: v.into_iter()
        invariant
            it.seq() == orig,
            all == sources_view(orig),
            out@.len() == keys@.len(),
            key_views(keys@) == source_paths(sources_view(out@)),
            sources_view(out@) == sorted_sources(all.take(it.index() as int)),
    {
        let k = chars_of(f.mod_path.as_str());
        let p = asc_slot(&keys, &k);
        proof {
            let j = it.index() as int;
            assert(all.take(j + 1).drop_last() =~= all.take(j));
            assert(all.take(j + 1).last() == f@);
            lemma_asc_pos(key_views(keys@), k@);
        }
        let ghost ov = sources_view(out@);
        let ghost ok = key_views(keys@);
        out.insert(p, f);
        keys.insert(p, k);
        proof {
            assert(sources_view(out@) =~= ov.insert(p as int, f@));
            assert(key_views(keys@) =~= ok.insert(p as int, k@));
            assert(source_paths(ov.insert(p as int, f@)) =~= source_paths(ov).insert(p as int, f@.mod_path));
        }
    }
    assert(all.take(all.len() as int) =~= all);
    out
}

/// Choose the module documentation files among the `.rs` files of a walk,
/// in walk order: non-`.rs` files and files without archidoc content are
/// skipped; a flat module file needs a `@c4 container` or `@c4 component`
/// marker; of several files with one module path the first is kept unless
/// an entry file (`lib.rs`, `mod.rs`) comes later, which then replaces it.
/// The chosen files come out in ascending module-path order.
pub fn choose_module_files(found: Vec<SourceFile>) -> (r: Vec<SourceFile>)
    ensures
        sources_view(r@) == sorted_sources(choose_all(sources_view(found@))),
{
    let ghost fv = sources_view(found@);
    let ghost orig = found@;
    let mut acc: Vec<SourceFile> = Vec::new();
    assert(sources_view(acc@) =~= Seq::<SourceFileView>::empty());
    for f in it: found.into_iter()
        invariant
            it.seq() == orig,
            fv == sources_view(orig),
            sources_view(acc@) == choose_all(fv.take(it.index() as int)),
    {
        proof {
            let j = it.index() as int;
            assert(fv.take(j + 1).drop_last() =~= fv.take(j));
            assert(fv.take(j + 1).last() == f@);
        }
        let ghost before = sources_view(acc@);
        if documents_module_exec(&f) {
            let i = chosen_index_exec(&acc, f.mod_path.as_str());
            proof {
                lemma_chosen_index(before, f@.mod_path);
            }
            if i < acc.len() {
                if str_eq(f.file_name.as_str(), "lib.rs") || str_eq(f.file_name.as_str(), "mod.rs") {
                    acc.set(i, f);
                    assert(sources_view(acc@) =~= before.update(i as int, f@));
                }
            } else {
                acc.push(f);
                assert(sources_view(acc@) =~= before.push(f@));
            }
        }
    }
    assert(fv.take(fv.len() as int) =~= fv);
    sort_sources(acc)
}

// ---------------------------------------------------------------------------
// Laws
// ---------------------------------------------------------------------------

proof fn lemma_chosen_index_props(acc: Seq<SourceFileView>, p: Seq<char>)
    ensures
        0 <= chosen_index(acc, p) <= acc.len(),
        chosen_index(acc, p) < acc.len() ==> acc[chosen_index(acc, p)].mod_path == p,
        forall|j: int| 0 <= j < chosen_index(acc, p) ==> #[trigger] acc[j].mod_path != p,
    decreases acc.len(),
{
    if acc.len() > 0 && acc[0].mod_path != p {
        lemma_chosen_index_props(acc.drop_first(), p);
        assert forall|j: int| 0 <= j < chosen_index(acc, p) implies #[trigger] acc[j].mod_path != p by {
            if j > 0 {
                assert(acc[j] == acc.drop_first()[j - 1]);
            }
        }
    }
}

/// Each module path is chosen once.
proof fn lemma_chosen_paths_distinct(fs: Seq<SourceFileView>)
    ensures
        source_paths(choose_all(fs)).no_duplicates(),
    decreases fs.len(),
{
    if fs.len() > 0 {
        lemma_chosen_paths_distinct(fs.drop_last());
        let acc = choose_all(fs.drop_last());
        let f = fs.last();
        lemma_chosen_index_props(acc, f.mod_path);
        let r = choose_all(fs);
        let i = chosen_index(acc, f.mod_path);
        if documents_module(f) {
            if i < acc.len() {
                if is_entry_file(f.file_name) {
                    assert(source_paths(r) =~= source_paths(acc));
                }
            } else {
                assert forall|a: int, b: int| 0 <= a < b < source_paths(r).len() implies source_paths(r)[a]
                    != source_paths(r)[b] by {
                    if b == acc.len() {
                        assert(source_paths(r)[a] == acc[a].mod_path);
                    } else {
                        assert(source_paths(r)[a] == source_paths(acc)[a]);
                        assert(source_paths(r)[b] == source_paths(acc)[b]);
                    }
                }
            }
        }
    }
}

/// Some chosen file of path `p` is an entry file.
pub open spec fn entry_chosen(acc: Seq<SourceFileView>, p: Seq<char>) -> bool {
    exists|j: int| 0 <= j < acc.len() && #[trigger] acc[j].mod_path == p && is_entry_file(acc[j].file_name)
}

/// An entry file wins: once a `lib.rs` or `mod.rs` documenting module path
/// `p` has been met, the file chosen for `p` is an entry file.
proof fn lemma_entry_wins(fs: Seq<SourceFileView>, k: int)
    requires
        0 <= k < fs.len(),
        documents_module(fs[k]),
        is_entry_file(fs[k].file_name),
    ensures
        entry_chosen(choose_all(fs), fs[k].mod_path),
    decreases fs.len(),
{
    let p = fs[k].mod_path;
    let acc = choose_all(fs.drop_last());
    let f = fs.last();
    lemma_chosen_index_props(acc, f.mod_path);
    let i = chosen_index(acc, f.mod_path);
    let r = choose_all(fs);
    if k == fs.len() - 1 {
        if i < acc.len() {
            assert(r[i] == f);
        } else {
            assert(r[acc.len() as int] == f);
        }
    } else {
        assert(fs.drop_last()[k] == fs[k]);
        lemma_entry_wins(fs.drop_last(), k);
        let j = choose|j: int| 0 <= j < acc.len() && #[trigger] acc[j].mod_path == p && is_entry_file(acc[j].file_name);
        if documents_module(f) {
            if i < acc.len() {
                if is_entry_file(f.file_name) {
                    if i == j {
                        assert(r[i] == f);
                    } else {
                        assert(r[j] == acc[j]);
                    }
                }
            } else {
                assert(r[j] == acc[j]);
            }
        }
    }
}

/// Sorting by module path keeps the files.
proof fn lemma_sorted_sources(s: Seq<SourceFileView>)
    ensures
        sorted_sources(s).len() == s.len(),
        forall|f: SourceFileView| sorted_sources(s).contains(f) <==> s.contains(f),
    decreases s.len(),
{
    if s.len() > 0 {
        lemma_sorted_sources(s.drop_last());
        let t = sorted_sources(s.drop_last());
        let p = asc_pos(source_paths(t), s.last().mod_path);
        lemma_asc_pos(source_paths(t), s.last().mod_path);
        assert forall|f: SourceFileView| sorted_sources(s).contains(f) <==> s.contains(f) by {
            crate::seq_facts::lemma_insert_contains(t, p, s.last(), f);
            crate::seq_facts::lemma_last_contains(s, f);
        }
    }
}

proof fn lemma_sorted_sources_distinct(s: Seq<SourceFileView>)
    requires
        source_paths(s).no_duplicates(),
    ensures
        source_paths(sorted_sources(s)).no_duplicates(),
    decreases s.len(),
{
    if s.len() > 0 {
        let d = s.drop_last();
        assert forall|a: int, b: int| 0 <= a < b < source_paths(d).len() implies source_paths(d)[a]
            != source_paths(d)[b] by {
            assert(source_paths(d)[a] == source_paths(s)[a]);
            assert(source_paths(d)[b] == source_paths(s)[b]);
        }
        lemma_sorted_sources_distinct(d);
        lemma_sorted_sources(d);
        let t = sorted_sources(d);
        let x = s.last();
        let p = asc_pos(source_paths(t), x.mod_path);
        lemma_asc_pos(source_paths(t), x.mod_path);
        let r = t.insert(p, x);
        assert forall|j: int| 0 <= j < t.len() implies #[trigger] t[j].mod_path != x.mod_path by {
            assert(t.contains(t[j]));
            assert(d.contains(t[j]));
            let k = choose|k: int| 0 <= k < d.len() && d[k] == t[j];
            assert(source_paths(s)[k] == d[k].mod_path);
            assert(source_paths(s)[s.len() - 1] == x.mod_path);
        }
        assert forall|a: int, b: int| 0 <= a < b < source_paths(r).len() implies source_paths(r)[a]
            != source_paths(r)[b] by {
            if b < p {
                assert(source_paths(t)[a] == t[a].mod_path && source_paths(t)[b] == t[b].mod_path);
            } else if b == p {
                assert(r[a] == t[a]);
            } else if a < p {
                assert(r[a] == t[a] && r[b] == t[b - 1]);
                assert(source_paths(t)[a] == t[a].mod_path && source_paths(t)[b - 1] == t[b - 1].mod_path);
            } else if a == p {
                assert(r[b] == t[b - 1]);
            } else {
                assert(r[a] == t[a - 1] && r[b] == t[b - 1]);
                assert(source_paths(t)[a - 1] == t[a - 1].mod_path && source_paths(t)[b - 1] == t[b
                    - 1].mod_path);
            }
        }
    }
}

/// The files `choose_module_files` returns name each module path once, in
/// ascending module-path order, and
/// a module path documented by an entry file (`lib.rs`, `mod.rs`) anywhere
/// in the walk is documented by an entry file in the result.
pub proof fn lemma_module_files(fs: Seq<SourceFileView>)
    ensures
        source_paths(sorted_sources(choose_all(fs))).no_duplicates(),
        paths_ascending(sorted_sources(choose_all(fs))),
        forall|k: int|
            0 <= k < fs.len() && documents_module(#[trigger] fs[k]) && is_entry_file(fs[k].file_name)
                ==> entry_chosen(sorted_sources(choose_all(fs)), fs[k].mod_path),
{
    let c = choose_all(fs);
    lemma_chosen_paths_distinct(fs);
    lemma_sorted_sources_distinct(c);
    lemma_sorted_sources(c);
    lemma_sorted_sources_ascending(c);
    assert forall|k: int|
        0 <= k < fs.len() && documents_module(#[trigger] fs[k]) && is_entry_file(fs[k].file_name) implies entry_chosen(
        sorted_sources(c),
        fs[k].mod_path,
    ) by {
        lemma_entry_wins(fs, k);
        let j = choose|j: int| 0 <= j < c.len() && #[trigger] c[j].mod_path == fs[k].mod_path && is_entry_file(
            c[j].file_name,
        );
        assert(c.contains(c[j]));
        assert(sorted_sources(c).contains(c[j]));
        let i = choose|i: int| 0 <= i < sorted_sources(c).len() && sorted_sources(c)[i] == c[j];
        assert(sorted_sources(c)[i].mod_path == fs[k].mod_path);
    }
}

proof fn lemma_asc_pos_props(t: Seq<Seq<char>>, x: Seq<char>)
    ensures
        forall|k: int| 0 <= k < asc_pos(t, x) ==> !seq_lt(x, #[trigger] t[k]),
        asc_pos(t, x) < t.len() ==> seq_lt(x, t[asc_pos(t, x)]),
    decreases t.len(),
{
    lemma_asc_pos(t, x);
    if t.len() > 0 && !seq_lt(x, t[0]) {
        let d = t.drop_first();
        lemma_asc_pos_props(d, x);
        lemma_asc_pos(d, x);
        assert forall|k: int| 0 <= k < asc_pos(t, x) implies !seq_lt(x, #[trigger] t[k]) by {
            if k > 0 {
                assert(t[k] == d[k - 1]);
            }
        }
        if asc_pos(d, x) < d.len() {
            assert(t[1 + asc_pos(d, x)] == d[asc_pos(d, x)]);
        }
    }
}

/// No module path sorts before one that precedes it.
pub open spec fn paths_ascending(s: Seq<SourceFileView>) -> bool {
    forall|i: int, j: int| 0 <= i < j < s.len() ==> !seq_lt(#[trigger] s[j].mod_path, #[trigger] s[i].mod_path)
}

/// The chosen files come out in ascending module-path order.
pub proof fn lemma_sorted_sources_ascending(s: Seq<SourceFileView>)
    ensures
        paths_ascending(sorted_sources(s)),
    decreases s.len(),
{
    if s.len() > 0 {
        lemma_sorted_sources_ascending(s.drop_last());
        let t = sorted_sources(s.drop_last());
        let x = s.last();
        let kt = source_paths(t);
        let p = asc_pos(kt, x.mod_path);
        lemma_asc_pos(kt, x.mod_path);
        lemma_asc_pos_props(kt, x.mod_path);
        let r = t.insert(p, x);
        assert(r == sorted_sources(s));
        assert forall|j: int| p <= j < t.len() implies seq_lt(x.mod_path, #[trigger] t[j].mod_path) by {
            assert(kt[p] == t[p].mod_path && kt[j] == t[j].mod_path);
            if j > p {
                assert(!seq_lt(t[j].mod_path, t[p].mod_path));
                crate::text::lemma_lt_total(t[p].mod_path, t[j].mod_path);
                if seq_lt(t[p].mod_path, t[j].mod_path) {
                    crate::text::lemma_lt_transitive(x.mod_path, t[p].mod_path, t[j].mod_path);
                }
            }
        }
        assert forall|i: int, j: int| 0 <= i < j < r.len() implies !seq_lt(#[trigger] r[j].mod_path, #[trigger] r[i].mod_path) by {
            if j < p {
            } else if j == p {
                assert(r[i] == t[i]);
                assert(kt[i] == t[i].mod_path);
            } else if i < p {
                assert(r[i] == t[i] && r[j] == t[j - 1]);
            } else if i == p {
                assert(r[j] == t[j - 1]);
                crate::text::lemma_lt_asymmetric(x.mod_path, t[j - 1].mod_path);
            } else {
                assert(r[i] == t[i - 1] && r[j] == t[j - 1]);
            }
        }
    }
}

/// Once a module path has a chosen file, later steps keep one.
proof fn lemma_choose_keeps_path(fs: Seq<SourceFileView>, k: int)
    requires
        0 <= k < fs.len(),
        documents_module(fs[k]),
    ensures
        source_paths(choose_all(fs)).contains(fs[k].mod_path),
    decreases fs.len(),
{
    let acc = choose_all(fs.drop_last());
    let f = fs.last();
    let r = choose_all(fs);
    lemma_chosen_index_props(acc, f.mod_path);
    let i = chosen_index(acc, f.mod_path);
    let p = fs[k].mod_path;
    if k == fs.len() - 1 {
        if i < acc.len() {
            assert(source_paths(r)[i] == r[i].mod_path);
        } else {
            assert(source_paths(r)[acc.len() as int] == f.mod_path);
        }
    } else {
        assert(fs.drop_last()[k] == fs[k]);
        lemma_choose_keeps_path(fs.drop_last(), k);
        let j = choose|j: int| 0 <= j < source_paths(acc).len() && source_paths(acc)[j] == p;
        assert(acc[j].mod_path == p);
        if documents_module(f) && i < acc.len() && is_entry_file(f.file_name) {
            if j == i {
                assert(r[i] == f);
                assert(source_paths(r)[i] == p);
            } else {
                assert(r[j] == acc[j]);
                assert(source_paths(r)[j] == p);
            }
        } else if documents_module(f) && i >= acc.len() {
            assert(r[j] == acc[j]);
            assert(source_paths(r)[j] == p);
        }
    }
}

/// Every module-documenting file of the walk is represented: a `.rs` file
/// with non-blank content that is an entry file (`lib.rs`, `mod.rs`) or
/// whose content holds `@c4 container` or `@c4 component` has a chosen file
/// for its module path.
pub proof fn lemma_documented_files_kept(fs: Seq<SourceFileView>, k: int)
    requires
        0 <= k < fs.len(),
        has_suffix(fs[k].file_name, ".rs"@),
        trim(fs[k].content).len() > 0,
        fs[k].file_name == "lib.rs"@ || fs[k].file_name == "mod.rs"@ || find(fs[k].content, "@c4 container"@)
            is Some || find(fs[k].content, "@c4 component"@) is Some,
    ensures
        exists|j: int|
            0 <= j < sorted_sources(choose_all(fs)).len() && (#[trigger] sorted_sources(choose_all(fs))[j]).mod_path
                == fs[k].mod_path,
{
    lemma_choose_keeps_path(fs, k);
    let c = choose_all(fs);
    lemma_sorted_sources(c);
    let j = choose|j: int| 0 <= j < source_paths(c).len() && source_paths(c)[j] == fs[k].mod_path;
    assert(c.contains(c[j]));
    assert(sorted_sources(c).contains(c[j]));
    let m = choose|m: int| 0 <= m < sorted_sources(c).len() && sorted_sources(c)[m] == c[j];
    assert(sorted_sources(c)[m].mod_path == fs[k].mod_path);
}

/// Every chosen file is a `.rs` file with non-blank content that is an
/// entry file (`lib.rs`, `mod.rs`) or holds `@c4 container` or
/// `@c4 component`.
pub proof fn lemma_chosen_files_document(fs: Seq<SourceFileView>)
    ensures
        forall|j: int|
            0 <= j < sorted_sources(choose_all(fs)).len() ==> {
                let f = #[trigger] sorted_sources(choose_all(fs))[j];
                &&& has_suffix(f.file_name, ".rs"@)
                &&& trim(f.content).len() > 0
                &&& (f.file_name == "lib.rs"@ || f.file_name == "mod.rs"@ || find(f.content, "@c4 container"@) is Some
                    || find(f.content, "@c4 component"@) is Some)
            },
{
    lemma_chosen_document(fs);
    let c = choose_all(fs);
    lemma_sorted_sources(c);
    assert forall|j: int| 0 <= j < sorted_sources(c).len() implies documents_module(
        #[trigger] sorted_sources(c)[j],
    ) by {
        assert(sorted_sources(c).contains(sorted_sources(c)[j]));
        assert(c.contains(sorted_sources(c)[j]));
    }
}

proof fn lemma_chosen_document(fs: Seq<SourceFileView>)
    ensures
        forall|x: SourceFileView| choose_all(fs).contains(x) ==> documents_module(x),
    decreases fs.len(),
{
    if fs.len() > 0 {
        lemma_chosen_document(fs.drop_last());
        let acc = choose_all(fs.drop_last());
        let f = fs.last();
        let i = chosen_index(acc, f.mod_path);
        lemma_chosen_index_props(acc, f.mod_path);
        assert forall|x: SourceFileView| choose_all(fs).contains(x) implies documents_module(x) by {
            let r = choose_all(fs);
            let k = choose|k: int| 0 <= k < r.len() && r[k] == x;
            if documents_module(f) {
                if i < acc.len() {
                    if is_entry_file(f.file_name) && k != i {
                        assert(r[k] == acc[k]);
                        assert(acc.contains(x));
                    } else if !is_entry_file(f.file_name) {
                        assert(acc.contains(x));
                    }
                } else if k < acc.len() {
                    assert(r[k] == acc[k]);
                    assert(acc.contains(x));
                }
            } else {
                assert(acc.contains(x));
            }
        }
    }
}

} // verus!
