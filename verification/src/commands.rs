//! The decisions behind the command-line workflows: argument parsing, the IR
//! version gate, design stamping and the lines the commands print.
use vstd::prelude::*;

use crate::annotation::HealthStatus;
use crate::ir::{
    dirs_view, files_view, lemma_dirs_view_index, ArchitectureIR, ArchitectureIRView, DirNode,
    DirNodeView, FileNode, FileNodeView,
};
use crate::text::{
    chars_index_of, chars_of, chars_slice, decimal, decimal_string, has_prefix, index_of, lemma_index_of,
    owned, push_str, string_from_chars, };
use crate::tree::strs_view;

verus! {

broadcast use vstd::string::group_string_axioms;

// ---------------------------------------------------------------------------
// `--var KEY=value`
// ---------------------------------------------------------------------------

pub open spec fn key_value_error(s: Seq<char>) -> Seq<char> {
    "invalid KEY=value: no '=' found in '"@ + s + "'"@
}

/// A `KEY=value` argument split at its first `=`.
pub open spec fn key_value(s: Seq<char>) -> Result<(Seq<char>, Seq<char>), Seq<char>> {
    let pos = index_of(s, '=');
    if pos < s.len() {
        Ok((s.take(pos), s.skip(pos + 1)))
    } else {
        Err(key_value_error(s))
    }
}

/// Parse a `KEY=value` argument: the text before the first `=` and the text
/// after it; an error when there is no `=`.
pub fn parse_key_value(s: &str) -> (r: Result<(String, String), String>)
    ensures
        match r {
            Ok((k, v)) => key_value(s@) == Ok::<(Seq<char>, Seq<char>), Seq<char>>((k@, v@)),
            Err(e) => key_value(s@) == Err::<(Seq<char>, Seq<char>), Seq<char>>(e@),
        },
{
    let cs = chars_of(s);
    let pos = chars_index_of(&cs, '=');
    proof {
        lemma_index_of(s@, '=');
    }
    if pos < cs.len() {
        let k = chars_slice(&cs, 0, pos);
        let v = chars_slice(&cs, pos + 1, cs.len());
        assert(k@ =~= s@.take(pos as int));
        assert(v@ =~= s@.skip(pos + 1));
        Ok((string_from_chars(k.as_slice()), string_from_chars(v.as_slice())))
    } else {
        let mut e = owned("invalid KEY=value: no '=' found in '");
        push_str(&mut e, s);
        push_str(&mut e, "'");
        Err(e)
    }
}

/// Splitting at the first `=` loses nothing: key, `=` and value give the
/// argument back, and the key holds no `=`; the error comes exactly when the
/// argument has no `=`.
pub proof fn lemma_key_value_round_trip(s: Seq<char>)
    ensures
        key_value(s) matches Ok((k, v)) ==> k + seq!['='] + v == s && !k.contains('='),
        key_value(s) is Err <==> !s.contains('='),
{
    lemma_index_of(s, '=');
    let pos = index_of(s, '=');
    if pos < s.len() {
        assert(s.take(pos) + seq!['='] + s.skip(pos + 1) =~= s);
        assert(s.contains('='));
        if s.take(pos).contains('=') {
            let j = choose|j: int| 0 <= j < s.take(pos).len() && s.take(pos)[j] == '=';
            assert(s[j] == '=');
        }
    } else {
        if s.contains('=') {
            let j = choose|j: int| 0 <= j < s.len() && s[j] == '=';
            assert(s[j] != '=');
        }
    }
}

// ---------------------------------------------------------------------------
// IR version gate
// ---------------------------------------------------------------------------

pub open spec fn version_error(v: Seq<char>) -> Seq<char> {
    "IR version '"@ + v + "' is no longer supported. Re-run `archidoc compile ir` to regenerate."@
}

/// Only IR schema versions `2.x` are read.
pub open spec fn version_supported(v: Seq<char>) -> bool {
    has_prefix(v, "2."@)
}

/// Accepts an IR document by its `version` field (empty when absent): only
/// versions `2.x` are read; any other is refused.
pub fn check_ir_version(version: &str) -> (r: Result<(), String>)
    ensures
        r is Ok <==> version_supported(version@),
        r matches Err(e) ==> e@ == version_error(version@),
{
    let v = chars_of(version);
    let two = chars_of("2.");
    if !crate::text::chars_starts_with(&v, &two) {
        let mut e = owned("IR version '");
        push_str(&mut e, version);
        push_str(&mut e, "' is no longer supported. Re-run `archidoc compile ir` to regenerate.");
        Err(e)
    } else {
        Ok(())
    }
}

// ---------------------------------------------------------------------------
// Design stamping
// ---------------------------------------------------------------------------

/// A file with a health value is marked planned; others keep none.
pub open spec fn planned_file(f: FileNodeView) -> FileNodeView {
    FileNodeView {
        health: if f.health is Some {
            Some(HealthStatus::Planned)
        } else {
            None
        },
        ..f
    }
}

/// The tree with every file that has a health marked planned.
pub open spec fn stamped(n: DirNodeView) -> DirNodeView
    decreases n, 1nat,
{
    DirNodeView {
        files: n.files.map_values(|f: FileNodeView| planned_file(f)),
        dirs: stamped_list(n.dirs),
        ..n
    }
}

pub open spec fn stamped_list(s: Seq<DirNodeView>) -> Seq<DirNodeView>
    decreases s, 0nat,
{
    if s.len() == 0 {
        s
    } else {
        stamped_list(s.drop_last()).push(stamped(s.last()))
    }
}

/// Mark every file of the tree that has a health as planned.
pub fn stamp_dir_planned(node: &mut DirNode)
    ensures
        final(node)@ == stamped(old(node)@),
    decreases old(node)@,
{
    let ghost n0 = node@;
    let mut i: usize = 0;
    while i < node.files.len()
        invariant
            0 <= i <= node.files@.len(),
            node.files@.len() == n0.files.len(),
            forall|k: int| 0 <= k < i ==> #[trigger] node.files@[k]@ == planned_file(n0.files[k]),
            forall|k: int| i <= k < node.files@.len() ==> #[trigger] node.files@[k]@ == n0.files[k],
            node@ == (DirNodeView { files: files_view(node.files@), ..n0 }),
        decreases node.files@.len() - i,
    {
        if node.files[i].health.is_some() {
            let mut files: Vec<FileNode> = Vec::new();
            std::mem::swap(&mut files, &mut node.files);
            let mut f = files.remove(i);
            f.health = Some(HealthStatus::Planned);
            files.insert(i, f);
            node.files = files;
        } else {
            assert(node.files@[i as int]@ == planned_file(n0.files[i as int]));
        }
        i += 1;
    }
    assert(files_view(node.files@) =~= n0.files.map_values(|f: FileNodeView| planned_file(f)));
    let mut dirs: Vec<DirNode> = Vec::new();
    std::mem::swap(&mut dirs, &mut node.dirs);
    let ghost d0 = dirs@;
    proof {
        lemma_dirs_view_index(d0);
    }
    let ghost n1 = node@;
    let mut out: Vec<DirNode> = Vec::new();
    for c in it: dirs.into_iter()
        invariant
            it.seq() == d0,
            old(node)@ == n0,
            dirs_view(d0) == n0.dirs,
            dirs_view(d0).len() == d0.len(),
            forall|k: int| 0 <= k < d0.len() ==> #[trigger] dirs_view(d0)[k] == d0[k]@,
            dirs_view(out@) == stamped_list(n0.dirs.take(it.index() as int)),
    {
        let ghost j = it.index() as int;
        let mut c = c;
        assert(c@ == n0.dirs[j]);
        assert(decreases_to!(n0 => c@)) by {
            assert(decreases_to!(n0 => n0.dirs));
            assert(decreases_to!(n0.dirs => n0.dirs[j]));
        }
        stamp_dir_planned(&mut c);
        let ghost before = out@;
        out.push(c);
        proof {
            assert(out@.drop_last() =~= before);
            let t = n0.dirs.take(j + 1);
            assert(t.drop_last() =~= n0.dirs.take(j));
            assert(t.last() == n0.dirs[j]);
        }
    }
    proof {
        assert(n0.dirs.take(n0.dirs.len() as int) =~= n0.dirs);
    }
    node.dirs = out;
    assert(node@ =~= stamped(n0));
}

/// An IR as a design (target architecture): every file with a health is
/// marked planned.
pub fn stamp_design(ir: ArchitectureIR) -> (r: ArchitectureIR)
    ensures
        r@ == (ArchitectureIRView { root: stamped(ir@.root), ..ir@ }),
{
    let mut ir = ir;
    stamp_dir_planned(&mut ir.root);
    ir
}

/// Stamping twice is stamping once.
pub proof fn lemma_stamp_idempotent(n: DirNodeView)
    ensures
        stamped(stamped(n)) == stamped(n),
    decreases n, 1nat,
{
    lemma_stamp_list_idempotent(n.dirs);
    assert(stamped(n).files.map_values(|f: FileNodeView| planned_file(f)) =~= stamped(n).files);
}

proof fn lemma_stamp_list_idempotent(s: Seq<DirNodeView>)
    ensures
        stamped_list(stamped_list(s)) == stamped_list(s),
    decreases s, 0nat,
{
    if s.len() > 0 {
        lemma_stamp_list_idempotent(s.drop_last());
        lemma_stamp_idempotent(s.last());
        assert(stamped_list(s).drop_last() =~= stamped_list(s.drop_last()));
    }
}

// ---------------------------------------------------------------------------
// Printed summaries
// ---------------------------------------------------------------------------

/// The name of the IR file a compile writes.
pub open spec fn ir_file_name(design: bool) -> Seq<char> {
    if design {
        "architecture.json"@
    } else {
        "current.json"@
    }
}

/// The line a compile prints: the number of annotated modules, where the IR
/// went, and whether it is the design or the current state.
pub open spec fn compile_summary_spec(annotated: nat, path: Seq<char>, design: bool) -> Seq<char> {
    decimal(annotated) + " module"@ + (if annotated == 1 {
        ""@
    } else {
        "s"@
    }) + ", tree captured → "@ + path + " ("@ + (if design {
        "architecture"@
    } else {
        "current"@
    }) + ")\n"@
}

pub fn ir_file_name_of(design: bool) -> (r: String)
    ensures
        r@ == ir_file_name(design),
{
    if design {
        owned("architecture.json")
    } else {
        owned("current.json")
    }
}

pub fn compile_summary(annotated: usize, path: &str, design: bool) -> (r: String)
    ensures
        r@ == compile_summary_spec(annotated as nat, path@, design),
{
    let mut s = decimal_string(annotated);
    push_str(&mut s, " module");
    if annotated == 1 {
        push_str(&mut s, "");
    } else {
        push_str(&mut s, "s");
    }
    push_str(&mut s, ", tree captured → ");
    push_str(&mut s, path);
    push_str(&mut s, " (");
    if design {
        push_str(&mut s, "architecture");
    } else {
        push_str(&mut s, "current");
    }
    push_str(&mut s, ")\n");
    s
}

/// Names ignored by a dependency check by default: build and tooling
/// artifacts, not architecture.
pub open spec fn default_ignore() -> Seq<Seq<char>> {
    seq!["workspace-hack"@]
}

/// The ignore list of a dependency check: the defaults, then the names given.
pub fn ignore_list(extra: Vec<String>) -> (r: Vec<String>)
    ensures
        strs_view(r@) == default_ignore() + strs_view(extra@),
{
    let mut r: Vec<String> = Vec::new();
    r.push(owned("workspace-hack"));
    let ghost start = strs_view(r@);
    assert(start =~= default_ignore());
    let mut i: usize = 0;
    while i < extra.len()
        invariant
            0 <= i <= extra@.len(),
            strs_view(r@) =~= default_ignore() + strs_view(extra@).take(i as int),
        decreases extra@.len() - i,
    {
        let ghost before = strs_view(r@);
        r.push(extra[i].clone());
        assert(strs_view(r@) =~= before.push(extra@[i as int]@));
        i += 1;
    }
    assert(strs_view(extra@).take(i as int) =~= strs_view(extra@));
    r
}

} // verus!
