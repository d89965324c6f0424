//! Compact directory trees: the filtering rules, the IR tree built from a
//! directory listing, and the AI-oriented text renderings.
use vstd::prelude::*;

use crate::ir::{
    dirs_view, empty_view, files_view, lemma_dirs_view, DirNode, DirNodeView, FileNode, FileNodeView,
};
use crate::merge::{dir_names, file_names};
use crate::text::{
    after_last, asc_pos, asc_slot, chars_ends_with, chars_eq, chars_of, chars_starts_with,
    count_all, count_keys, count_keys_exec, decimal, decimal_string, has_prefix,
    has_suffix, join, join_strings, key_views, lemma_asc_pos, push_chars,
    push_str, rindex_of, sort_strings, sorted_strs, };

verus! {

broadcast use vstd::string::group_string_axioms;

// ---------------------------------------------------------------------------
// Directory listings
// ---------------------------------------------------------------------------

/// A directory as read from disk: its name, the names of the regular files
/// directly in it, and its subdirectories that the ignore rules leave visible
/// (`.gitignore`, `.ignore`, hidden directories). Nothing else is filtered or
/// sorted yet.
#[derive(Debug)]
pub struct FsDir {
    pub name: String,
    pub files: Vec<String>,
    pub dirs: Vec<FsDir>,
}

pub struct FsDirView {
    pub name: Seq<char>,
    pub files: Seq<Seq<char>>,
    pub dirs: Seq<FsDirView>,
}

pub open spec fn strs_view(s: Seq<String>) -> Seq<Seq<char>> {
    s.map_values(|x: String| x@)
}

impl FsDir {
    pub open spec fn fview(self) -> FsDirView
        decreases self, 1nat,
    {
        FsDirView { name: self.name@, files: strs_view(self.files@), dirs: fs_view(self.dirs@) }
    }
}

pub open spec fn fs_view(s: Seq<FsDir>) -> Seq<FsDirView>
    decreases s, 0nat,
{
    if s.len() == 0 {
        seq![]
    } else {
        fs_view(s.drop_last()).push(s.last().fview())
    }
}

impl View for FsDir {
    type V = FsDirView;

    open spec fn view(&self) -> FsDirView {
        self.fview()
    }
}

pub proof fn lemma_fs_view(s: Seq<FsDir>)
    ensures
        fs_view(s) == s.map_values(|d: FsDir| d@),
    decreases s.len(),
{
    if s.len() > 0 {
        lemma_fs_view(s.drop_last());
        assert(s.map_values(|d: FsDir| d@) =~= s.drop_last().map_values(|d: FsDir| d@).push(s.last()@));
    } else {
        assert(s.map_values(|d: FsDir| d@) =~= Seq::<FsDirView>::empty());
    }
}

// ---------------------------------------------------------------------------
// Configuration
// ---------------------------------------------------------------------------

/// Per-extension icon mapping for human-readable output.
#[derive(Debug)]
pub struct IconConfig {
    /// Emoji for directories.
    pub directory: String,
    /// Fallback emoji for files with no specific mapping.
    pub file: String,
    /// `.ext` (with leading dot) → emoji, no extension twice.
    pub by_ext: Vec<(String, String)>,
}

/// Runtime configuration for tree generation: built-in defaults merged with
/// the project's overrides.
#[derive(Debug)]
pub struct TreeConfig {
    /// Exclusion patterns for directories: `*suffix`, `prefix*`, or exact name.
    pub exclude_dirs: Vec<String>,
    /// Exclusion patterns for files: `*suffix`, `prefix*`, or exact name.
    pub exclude_files: Vec<String>,
    /// A file is listed when its name ends with one of these.
    pub include_extensions: Vec<String>,
    /// Dirs with more files than this emit a count summary.
    pub inline_threshold: usize,
    /// Icon config for human-readable output.
    pub icons: IconConfig,
}

pub struct TreeConfigView {
    pub exclude_dirs: Seq<Seq<char>>,
    pub exclude_files: Seq<Seq<char>>,
    pub include_extensions: Seq<Seq<char>>,
    pub inline_threshold: nat,
}

impl View for TreeConfig {
    type V = TreeConfigView;

    open spec fn view(&self) -> TreeConfigView {
        TreeConfigView {
            exclude_dirs: strs_view(self.exclude_dirs@),
            exclude_files: strs_view(self.exclude_files@),
            include_extensions: strs_view(self.include_extensions@),
            inline_threshold: self.inline_threshold as nat,
        }
    }
}

/// The directory names skipped by default. Hidden directories not named
/// here are not skipped by these rules; the command line's directory walk
/// leaves hidden directories out on its own, and a project adds names of its
/// own through `exclude_dirs`.
pub open spec fn default_skip_dirs() -> Seq<Seq<char>> {
    seq![
        "node_modules"@,
        ".git"@,
        "target"@,
        "dist"@,
        ".ragd"@,
        ".vite"@,
        "_archive"@,
        "_context"@,
    ]
}

pub open spec fn default_include_extensions() -> Seq<Seq<char>> {
    seq![
        ".md"@,
        ".rs"@,
        ".ts"@,
        ".js"@,
        ".toml"@,
        ".yaml"@,
        ".yml"@,
        ".json"@,
        ".py"@,
        ".sh"@,
        ".ps1"@,
        ".drawio"@,
        ".csv"@,
    ]
}

pub open spec fn default_skip_files() -> Seq<Seq<char>> {
    seq!["package-lock.json"@, "yarn.lock"@, "Cargo.lock"@, ".DS_Store"@]
}

fn push_owned(v: &mut Vec<String>, s: &str)
    ensures
        strs_view(final(v)@) == strs_view(old(v)@).push(s@),
{
    let ghost before = strs_view(v@);
    v.push(s.to_string());
    assert(strs_view(v@) =~= before.push(s@));
}

pub open spec fn pairs_view(s: Seq<(String, String)>) -> Seq<(Seq<char>, Seq<char>)> {
    s.map_values(|p: (String, String)| (p.0@, p.1@))
}

fn push_pair(v: &mut Vec<(String, String)>, a: &str, b: &str)
    ensures
        pairs_view(final(v)@) == pairs_view(old(v)@).push((a@, b@)),
{
    let ghost before = pairs_view(v@);
    v.push((a.to_string(), b.to_string()));
    assert(pairs_view(v@) =~= before.push((a@, b@)));
}

pub open spec fn default_icons() -> Seq<(Seq<char>, Seq<char>)> {
    seq![
        (".md"@, "📖"@),
        (".rs"@, "🔷"@),
        (".ts"@, "🟦"@),
        (".js"@, "🟨"@),
        (".json"@, "⚙️"@),
        (".toml"@, "⚙️"@),
        (".yaml"@, "🗂️"@),
        (".yml"@, "🗂️"@),
        (".py"@, "🐍"@),
        (".sh"@, "📜"@),
        (".ps1"@, "📜"@),
        (".csv"@, "📊"@),
        (".drawio"@, "🖊️"@)
    ]
}

impl Default for IconConfig {
    fn default() -> (r: Self)
        ensures
            r.directory@ == "📁"@,
            r.file@ == "📄"@,
            pairs_view(r.by_ext@) == default_icons(),
    {
        let mut by_ext: Vec<(String, String)> = Vec::new();
        assert(pairs_view(by_ext@) =~= Seq::<(Seq<char>, Seq<char>)>::empty());
        push_pair(&mut by_ext, ".md", "📖");
        push_pair(&mut by_ext, ".rs", "🔷");
        push_pair(&mut by_ext, ".ts", "🟦");
        push_pair(&mut by_ext, ".js", "🟨");
        push_pair(&mut by_ext, ".json", "⚙️");
        push_pair(&mut by_ext, ".toml", "⚙️");
        push_pair(&mut by_ext, ".yaml", "🗂️");
        push_pair(&mut by_ext, ".yml", "🗂️");
        push_pair(&mut by_ext, ".py", "🐍");
        push_pair(&mut by_ext, ".sh", "📜");
        push_pair(&mut by_ext, ".ps1", "📜");
        push_pair(&mut by_ext, ".csv", "📊");
        push_pair(&mut by_ext, ".drawio", "🖊️");
        assert(pairs_view(by_ext@) =~= default_icons());
        IconConfig { directory: "📁".to_string(), file: "📄".to_string(), by_ext }
    }
}

impl TreeConfig {
    /// A config populated entirely from the built-in defaults (see
    /// `default_skip_dirs` for what the skip list covers).
    pub fn defaults() -> (r: Self)
        ensures
            r@ == (TreeConfigView {
                exclude_dirs: default_skip_dirs(),
                exclude_files: default_skip_files(),
                include_extensions: default_include_extensions(),
                inline_threshold: 6,
            }),
            r.icons.directory@ == "📁"@,
            r.icons.file@ == "📄"@,
            pairs_view(r.icons.by_ext@) == default_icons(),
    {
        let mut exclude_dirs: Vec<String> = Vec::new();
        let mut exclude_files: Vec<String> = Vec::new();
        let mut include_extensions: Vec<String> = Vec::new();
        assert(strs_view(exclude_dirs@) =~= Seq::<Seq<char>>::empty());
        assert(strs_view(exclude_files@) =~= Seq::<Seq<char>>::empty());
        assert(strs_view(include_extensions@) =~= Seq::<Seq<char>>::empty());
        push_owned(&mut exclude_dirs, "node_modules");
        push_owned(&mut exclude_dirs, ".git");
        push_owned(&mut exclude_dirs, "target");
        push_owned(&mut exclude_dirs, "dist");
        push_owned(&mut exclude_dirs, ".ragd");
        push_owned(&mut exclude_dirs, ".vite");
        push_owned(&mut exclude_dirs, "_archive");
        push_owned(&mut exclude_dirs, "_context");
        push_owned(&mut exclude_files, "package-lock.json");
        push_owned(&mut exclude_files, "yarn.lock");
        push_owned(&mut exclude_files, "Cargo.lock");
        push_owned(&mut exclude_files, ".DS_Store");
        push_owned(&mut include_extensions, ".md");
        push_owned(&mut include_extensions, ".rs");
        push_owned(&mut include_extensions, ".ts");
        push_owned(&mut include_extensions, ".js");
        push_owned(&mut include_extensions, ".toml");
        push_owned(&mut include_extensions, ".yaml");
        push_owned(&mut include_extensions, ".yml");
        push_owned(&mut include_extensions, ".json");
        push_owned(&mut include_extensions, ".py");
        push_owned(&mut include_extensions, ".sh");
        push_owned(&mut include_extensions, ".ps1");
        push_owned(&mut include_extensions, ".drawio");
        push_owned(&mut include_extensions, ".csv");
        assert(strs_view(exclude_dirs@) =~= default_skip_dirs());
        assert(strs_view(exclude_files@) =~= default_skip_files());
        assert(strs_view(include_extensions@) =~= default_include_extensions());
        TreeConfig {
            exclude_dirs,
            exclude_files,
            include_extensions,
            inline_threshold: 6,
            icons: IconConfig::default(),
        }
    }
}


// ---------------------------------------------------------------------------
// Project overrides (`.archidoc/config.tree.json`)
// ---------------------------------------------------------------------------

/// What the project's tree configuration file holds, as plain values.
#[derive(Debug)]
pub struct TreeOverrides {
    /// The string items of `exclude_dirs` (empty when absent).
    pub exclude_dirs: Vec<String>,
    /// The string items of `exclude_files` (empty when absent).
    pub exclude_files: Vec<String>,
    /// The items of `include_extensions` when it is an array; `None` for an
    /// item that is not a string.
    pub include_extensions: Option<Vec<Option<String>>>,
    /// `inline_threshold` when it is an unsigned integer.
    pub inline_threshold: Option<u64>,
    /// `icons.directory` when it is a string.
    pub icon_directory: Option<String>,
    /// `icons.file` when it is a string.
    pub icon_file: Option<String>,
    /// The string-valued entries of `icons.by_ext`.
    pub icon_by_ext: Vec<(String, String)>,
}

/// `acc` with each item of `items` appended unless already present.
pub open spec fn add_missing(acc: Seq<Seq<char>>, items: Seq<Seq<char>>) -> Seq<Seq<char>>
    decreases items.len(),
{
    if items.len() == 0 {
        acc
    } else {
        let a = add_missing(acc, items.drop_last());
        if a.contains(items.last()) {
            a
        } else {
            a.push(items.last())
        }
    }
}

pub open spec fn some_strs(items: Seq<Option<String>>) -> Seq<Seq<char>>
    decreases items.len(),
{
    if items.len() == 0 {
        seq![]
    } else {
        match items.last() {
            Some(s) => some_strs(items.drop_last()).push(s@),
            None => some_strs(items.drop_last()),
        }
    }
}

/// The first index whose key is `k`, or the length when none is.
pub open spec fn key_index(acc: Seq<(Seq<char>, Seq<char>)>, k: Seq<char>) -> int
    decreases acc.len(),
{
    if acc.len() == 0 {
        0
    } else if acc[0].0 == k {
        0
    } else {
        1 + key_index(acc.drop_first(), k)
    }
}

/// Insert or replace a key's value (`HashMap::insert`).
pub open spec fn upsert(acc: Seq<(Seq<char>, Seq<char>)>, k: Seq<char>, v: Seq<char>) -> Seq<
    (Seq<char>, Seq<char>),
> {
    let i = key_index(acc, k);
    if i < acc.len() {
        acc.update(i, (k, v))
    } else {
        acc.push((k, v))
    }
}

pub open spec fn upsert_all(acc: Seq<(Seq<char>, Seq<char>)>, items: Seq<(Seq<char>, Seq<char>)>) -> Seq<
    (Seq<char>, Seq<char>),
>
    decreases items.len(),
{
    if items.len() == 0 {
        acc
    } else {
        let a = upsert_all(acc, items.drop_last());
        upsert(a, items.last().0, items.last().1)
    }
}

fn contains_str(v: &Vec<String>, s: &String) -> (r: bool)
    ensures
        r == strs_view(v@).contains(s@),
{
    let mut i: usize = 0;
    while i < v.len()
        invariant
            0 <= i <= v@.len(),
            forall|k: int| 0 <= k < i ==> v@[k]@ != s@,
        decreases v@.len() - i,
    {
        if crate::text::str_eq(v[i].as_str(), s.as_str()) {
            assert(strs_view(v@)[i as int] == s@);
            return true;
        }
        i += 1;
    }
    assert forall|k: int| 0 <= k < strs_view(v@).len() implies strs_view(v@)[k] != s@ by {
        assert(strs_view(v@)[k] == v@[k]@);
    }
    false
}

fn add_missing_exec(acc: &mut Vec<String>, items: Vec<String>)
    ensures
        strs_view(final(acc)@) == add_missing(strs_view(old(acc)@), strs_view(items@)),
{
    let ghost start = strs_view(acc@);
    let ghost all = strs_view(items@);
    let ghost orig = items@;
    for x in it: items.into_iter()
        invariant
            it.seq() == orig,
            all == strs_view(orig),
            strs_view(acc@) == add_missing(start, all.take(it.index() as int)),
    {
        proof {
            let j = it.index() as int;
            assert(all.take(j + 1).drop_last() =~= all.take(j));
            assert(all.take(j + 1).last() == x@);
        }
        if !contains_str(acc, &x) {
            let ghost before = strs_view(acc@);
            acc.push(x);
            assert(strs_view(acc@) =~= before.push(x@));
        }
    }
    assert(all.take(all.len() as int) =~= all);
}

fn upsert_exec(acc: &mut Vec<(String, String)>, k: String, v: String)
    ensures
        pairs_view(final(acc)@) == upsert(pairs_view(old(acc)@), k@, v@),
{
    let ghost a = pairs_view(acc@);
    let mut i: usize = 0;
    assert(a.skip(0) =~= a);
    while i < acc.len() && !crate::text::str_eq(acc[i].0.as_str(), k.as_str())
        invariant
            0 <= i <= acc@.len(),
            a == pairs_view(acc@),
            key_index(a, k@) == i + key_index(a.skip(i as int), k@),
        decreases acc@.len() - i,
    {
        assert(a.skip(i + 1) =~= a.skip(i as int).drop_first());
        i += 1;
    }
    if i < acc.len() {
        assert(a.skip(i as int)[0] == a[i as int]);
        acc.set(i, (k, v));
        assert(pairs_view(acc@) =~= a.update(i as int, (k@, v@)));
    } else {
        acc.push((k, v));
        assert(pairs_view(acc@) =~= a.push((k@, v@)));
    }
}

fn some_strings(items: Vec<Option<String>>) -> (r: Vec<String>)
    ensures
        strs_view(r@) == some_strs(items@),
{
    let ghost orig = items@;
    let mut exts: Vec<String> = Vec::new();
    for item in it: items.into_iter()
        invariant
            it.seq() == orig,
            strs_view(exts@) == some_strs(orig.take(it.index() as int)),
    {
        proof {
            let j = it.index() as int;
            assert(orig.take(j + 1).drop_last() =~= orig.take(j));
            assert(orig.take(j + 1).last() == item);
        }
        match item {
            Some(x) => {
                let ghost before = strs_view(exts@);
                exts.push(x);
                assert(strs_view(exts@) =~= before.push(x@));
            },
            None => {},
        }
    }
    assert(orig.take(orig.len() as int) =~= orig);
    exts
}

fn upsert_all_exec(acc: &mut Vec<(String, String)>, items: Vec<(String, String)>)
    ensures
        pairs_view(final(acc)@) == upsert_all(pairs_view(old(acc)@), pairs_view(items@)),
{
    let ghost start = pairs_view(acc@);
    let ghost all = pairs_view(items@);
    let ghost orig = items@;
    for e in it: items.into_iter()
        invariant
            it.seq() == orig,
            all == pairs_view(orig),
            pairs_view(acc@) == upsert_all(start, all.take(it.index() as int)),
    {
        proof {
            let j = it.index() as int;
            assert(all.take(j + 1).drop_last() =~= all.take(j));
            assert(all.take(j + 1).last() == (e.0@, e.1@));
        }
        let (k, v) = e;
        upsert_exec(acc, k, v);
    }
    assert(all.take(all.len() as int) =~= all);
}

impl TreeConfig {
    /// The built-in defaults merged with a project's overrides: exclusion
    /// lists are extended (no pattern twice), a non-empty
    /// `include_extensions` array replaces the default extensions with its
    /// string items, `inline_threshold` replaces the default, and icon
    /// settings replace or extend the default icons.
    pub fn with_overrides(o: TreeOverrides) -> (r: Self)
        ensures
            r@.exclude_dirs == add_missing(default_skip_dirs(), strs_view(o.exclude_dirs@)),
            r@.exclude_files == add_missing(default_skip_files(), strs_view(o.exclude_files@)),
            r@.include_extensions == (match o.include_extensions {
                Some(items) => if items@.len() > 0 {
                    some_strs(items@)
                } else {
                    default_include_extensions()
                },
                None => default_include_extensions(),
            }),
            r.inline_threshold == (match o.inline_threshold {
                Some(n) => n as usize,
                None => 6usize,
            }),
            r.icons.directory@ == (match o.icon_directory {
                Some(d) => d@,
                None => "📁"@,
            }),
            r.icons.file@ == (match o.icon_file {
                Some(f) => f@,
                None => "📄"@,
            }),
            pairs_view(r.icons.by_ext@) == upsert_all(default_icons(), pairs_view(o.icon_by_ext@)),
    {
        let mut config = Self::defaults();
        let TreeOverrides {
            exclude_dirs,
            exclude_files,
            include_extensions,
            inline_threshold,
            icon_directory,
            icon_file,
            icon_by_ext,
        } = o;
        add_missing_exec(&mut config.exclude_dirs, exclude_dirs);
        add_missing_exec(&mut config.exclude_files, exclude_files);
        match include_extensions {
            Some(items) => {
                if items.len() > 0 {
                    config.include_extensions = some_strings(items);
                }
            },
            None => {},
        }
        match inline_threshold {
            Some(n) => {
                config.inline_threshold = #[verifier::truncate] (n as usize);
            },
            None => {},
        }
        match icon_directory {
            Some(d) => {
                config.icons.directory = d;
            },
            None => {},
        }
        match icon_file {
            Some(f) => {
                config.icons.file = f;
            },
            None => {},
        }
        upsert_all_exec(&mut config.icons.by_ext, icon_by_ext);
        config
    }
}

// ---------------------------------------------------------------------------
// Filtering rules
// ---------------------------------------------------------------------------

/// `*suffix` matches names ending with the suffix, `prefix*` names starting
/// with the prefix, anything else only the exact name.
pub open spec fn matches_spec(pattern: Seq<char>, name: Seq<char>) -> bool {
    if pattern.len() > 0 && pattern[0] == '*' {
        has_suffix(name, pattern.drop_first())
    } else if pattern.len() > 0 && pattern.last() == '*' {
        has_prefix(name, pattern.drop_last())
    } else {
        pattern == name
    }
}

fn matches_chars(pattern: &Vec<char>, name: &Vec<char>) -> (r: bool)
    ensures
        r == matches_spec(pattern@, name@),
{
    if pattern.len() > 0 && pattern[0] == '*' {
        let suffix = crate::text::chars_slice(pattern, 1, pattern.len());
        assert(suffix@ =~= pattern@.drop_first());
        chars_ends_with(name, &suffix)
    } else if pattern.len() > 0 && pattern[pattern.len() - 1] == '*' {
        let prefix = crate::text::chars_slice(pattern, 0, pattern.len() - 1);
        assert(prefix@ =~= pattern@.drop_last());
        chars_starts_with(name, &prefix)
    } else {
        chars_eq(pattern, name)
    }
}

/// Match a name against a pattern: `*suffix`, `prefix*`, or an exact name.
pub fn matches_pattern(pattern: &str, name: &str) -> (r: bool)
    ensures
        r == matches_spec(pattern@, name@),
{
    matches_chars(&chars_of(pattern), &chars_of(name))
}

/// A file is listed when no exclusion pattern matches it and it ends with an
/// included extension.
pub open spec fn keep_file(name: Seq<char>, cfg: TreeConfigView) -> bool {
    &&& !(exists|i: int| 0 <= i < cfg.exclude_files.len() && matches_spec(#[trigger] cfg.exclude_files[i], name))
    &&& exists|i: int| 0 <= i < cfg.include_extensions.len() && has_suffix(name, #[trigger] cfg.include_extensions[i])
}

/// A directory is walked when no exclusion pattern matches its name.
pub open spec fn keep_dir_name(name: Seq<char>, cfg: TreeConfigView) -> bool {
    !(exists|i: int| 0 <= i < cfg.exclude_dirs.len() && matches_spec(#[trigger] cfg.exclude_dirs[i], name))
}

fn any_matches(patterns: &Vec<String>, name: &Vec<char>) -> (r: bool)
    ensures
        r == exists|i: int| 0 <= i < strs_view(patterns@).len() && matches_spec(#[trigger] strs_view(patterns@)[i], name@),
{
    let mut i: usize = 0;
    while i < patterns.len()
        invariant
            0 <= i <= patterns@.len(),
            forall|k: int| 0 <= k < i ==> !matches_spec(#[trigger] strs_view(patterns@)[k], name@),
        decreases patterns@.len() - i,
    {
        if matches_chars(&chars_of(patterns[i].as_str()), name) {
            assert(matches_spec(strs_view(patterns@)[i as int], name@));
            return true;
        }
        i += 1;
    }
    false
}

fn any_suffix(exts: &Vec<String>, name: &Vec<char>) -> (r: bool)
    ensures
        r == exists|i: int| 0 <= i < strs_view(exts@).len() && has_suffix(name@, #[trigger] strs_view(exts@)[i]),
{
    let mut i: usize = 0;
    while i < exts.len()
        invariant
            0 <= i <= exts@.len(),
            forall|k: int| 0 <= k < i ==> !has_suffix(name@, #[trigger] strs_view(exts@)[k]),
        decreases exts@.len() - i,
    {
        if chars_ends_with(name, &chars_of(exts[i].as_str())) {
            assert(has_suffix(name@, strs_view(exts@)[i as int]));
            return true;
        }
        i += 1;
    }
    false
}

fn keep_file_exec(name: &String, config: &TreeConfig) -> (r: bool)
    ensures
        r == keep_file(name@, config@),
{
    let n = chars_of(name.as_str());
    let excluded = any_matches(&config.exclude_files, &n);
    let included = any_suffix(&config.include_extensions, &n);
    let ghost cfg = config@;
    assert(cfg.exclude_files == strs_view(config.exclude_files@));
    assert(cfg.include_extensions == strs_view(config.include_extensions@));
    assert(excluded == exists|i: int| 0 <= i < cfg.exclude_files.len() && matches_spec(#[trigger] cfg.exclude_files[i], name@));
    assert(included == exists|i: int| 0 <= i < cfg.include_extensions.len() && has_suffix(name@, #[trigger] cfg.include_extensions[i]));
    !excluded && included
}

fn keep_dir_exec(name: &String, config: &TreeConfig) -> (r: bool)
    ensures
        r == keep_dir_name(name@, config@),
{
    !any_matches(&config.exclude_dirs, &chars_of(name.as_str()))
}


// ---------------------------------------------------------------------------
// The cleaned tree: what every walk sees
// ---------------------------------------------------------------------------

pub open spec fn fs_names(s: Seq<FsDirView>) -> Seq<Seq<char>> {
    s.map_values(|d: FsDirView| d.name)
}

/// Directories in ascending name order, equal names keeping their order
/// (a stable sort by name).
pub open spec fn sorted_fs(s: Seq<FsDirView>) -> Seq<FsDirView>
    decreases s.len(),
{
    if s.len() == 0 {
        seq![]
    } else {
        let t = sorted_fs(s.drop_last());
        t.insert(asc_pos(fs_names(t), s.last().name), s.last())
    }
}

pub open spec fn kept_dirs(s: Seq<FsDirView>, cfg: TreeConfigView) -> Seq<FsDirView> {
    s.filter(|d: FsDirView| keep_dir_name(d.name, cfg))
}

/// The files a directory lists: kept by the filters, sorted.
pub open spec fn listed_files(d: FsDirView, cfg: TreeConfigView) -> Seq<Seq<char>> {
    sorted_strs(d.files.filter(|n: Seq<char>| keep_file(n, cfg)))
}

/// The tree as the walks see it: every directory's files filtered and sorted,
/// its subdirectories filtered by name and sorted by name.
pub open spec fn clean_tree(d: FsDirView, cfg: TreeConfigView) -> FsDirView
    decreases d, 1nat,
{
    FsDirView {
        name: d.name,
        files: listed_files(d, cfg),
        dirs: sorted_fs(kept_dirs(clean_list(d.dirs, cfg), cfg)),
    }
}

pub open spec fn clean_list(s: Seq<FsDirView>, cfg: TreeConfigView) -> Seq<FsDirView>
    decreases s, 0nat,
{
    if s.len() == 0 {
        seq![]
    } else {
        clean_list(s.drop_last(), cfg).push(clean_tree(s.last(), cfg))
    }
}

proof fn lemma_clean_list_map(s: Seq<FsDirView>, cfg: TreeConfigView)
    ensures
        clean_list(s, cfg) == s.map_values(|d: FsDirView| clean_tree(d, cfg)),
    decreases s.len(),
{
    if s.len() > 0 {
        lemma_clean_list_map(s.drop_last(), cfg);
        assert(s.map_values(|d: FsDirView| clean_tree(d, cfg)) =~= s.drop_last().map_values(
            |d: FsDirView| clean_tree(d, cfg),
        ).push(clean_tree(s.last(), cfg)));
    } else {
        assert(s.map_values(|d: FsDirView| clean_tree(d, cfg)) =~= Seq::<FsDirView>::empty());
    }
}

proof fn lemma_kept_clean_commute(s: Seq<FsDirView>, cfg: TreeConfigView)
    ensures
        kept_dirs(clean_list(s, cfg), cfg) == clean_list(kept_dirs(s, cfg), cfg),
    decreases s.len(),
{
    reveal(Seq::filter);
    if s.len() > 0 {
        lemma_kept_clean_commute(s.drop_last(), cfg);
        let c = clean_list(s, cfg);
        assert(c.drop_last() == clean_list(s.drop_last(), cfg));
        assert(c.last() == clean_tree(s.last(), cfg));
        assert(c.last().name == s.last().name);
        let k = kept_dirs(s.drop_last(), cfg);
        if keep_dir_name(s.last().name, cfg) {
            assert(kept_dirs(s, cfg) == k.push(s.last()));
            assert(k.push(s.last()).drop_last() =~= k);
            assert(k.push(s.last()).last() == s.last());
            assert(kept_dirs(c, cfg) == kept_dirs(c.drop_last(), cfg).push(c.last()));
        } else {
            assert(kept_dirs(s, cfg) == k);
            assert(kept_dirs(c, cfg) == kept_dirs(c.drop_last(), cfg));
        }
    } else {
        assert(clean_list(s, cfg) =~= Seq::<FsDirView>::empty());
    }
}

proof fn lemma_sorted_clean_commute(s: Seq<FsDirView>, cfg: TreeConfigView)
    ensures
        sorted_fs(clean_list(s, cfg)) == clean_list(sorted_fs(s), cfg),
    decreases s.len(),
{
    if s.len() > 0 {
        lemma_sorted_clean_commute(s.drop_last(), cfg);
        let t = sorted_fs(s.drop_last());
        let x = s.last();
        lemma_clean_list_map(t, cfg);
        lemma_clean_list_map(s.drop_last(), cfg);
        let ct = clean_list(t, cfg);
        assert(fs_names(ct) =~= fs_names(t));
        let p = asc_pos(fs_names(t), x.name);
        lemma_asc_pos(fs_names(t), x.name);
        assert(clean_list(s, cfg).drop_last() == clean_list(s.drop_last(), cfg));
        lemma_clean_list_map(t.insert(p, x), cfg);
        assert(ct.insert(p, clean_tree(x, cfg)) =~= t.insert(p, x).map_values(
            |d: FsDirView| clean_tree(d, cfg),
        ));
    } else {
        assert(clean_list(s, cfg) =~= Seq::<FsDirView>::empty());
    }
}

pub open spec fn fs_ref_views<'a>(s: Seq<&'a FsDir>) -> Seq<FsDirView> {
    s.map_values(|d: &'a FsDir| d@)
}

proof fn lemma_sorted_fs_members(s: Seq<FsDirView>)
    ensures
        sorted_fs(s).len() == s.len(),
        forall|i: int| 0 <= i < s.len() ==> s.contains(#[trigger] sorted_fs(s)[i]),
    decreases s.len(),
{
    if s.len() > 0 {
        lemma_sorted_fs_members(s.drop_last());
        let t = sorted_fs(s.drop_last());
        lemma_asc_pos(fs_names(t), s.last().name);
        let p = asc_pos(fs_names(t), s.last().name);
        assert forall|i: int| 0 <= i < s.len() implies s.contains(#[trigger] sorted_fs(s)[i]) by {
            if i < p {
                assert(sorted_fs(s)[i] == t[i]);
                assert(s.drop_last().contains(t[i]));
                let k = choose|k: int| 0 <= k < s.drop_last().len() && s.drop_last()[k] == t[i];
                assert(s[k] == t[i]);
            } else if i == p {
                assert(s[s.len() - 1] == s.last());
            } else {
                assert(sorted_fs(s)[i] == t[i - 1]);
                assert(s.drop_last().contains(t[i - 1]));
                let k = choose|k: int| 0 <= k < s.drop_last().len() && s.drop_last()[k] == t[i - 1];
                assert(s[k] == t[i - 1]);
            }
        }
    }
}

proof fn lemma_kept_members(s: Seq<FsDirView>, cfg: TreeConfigView)
    ensures
        forall|i: int| 0 <= i < kept_dirs(s, cfg).len() ==> s.contains(#[trigger] kept_dirs(s, cfg)[i]),
    decreases s.len(),
{
    reveal(Seq::filter);
    if s.len() > 0 {
        lemma_kept_members(s.drop_last(), cfg);
        let k = kept_dirs(s.drop_last(), cfg);
        assert forall|i: int| 0 <= i < kept_dirs(s, cfg).len() implies s.contains(#[trigger] kept_dirs(s, cfg)[i]) by {
            if i < k.len() {
                assert(kept_dirs(s, cfg)[i] == k[i]);
                assert(s.drop_last().contains(k[i]));
                let j = choose|j: int| 0 <= j < s.drop_last().len() && s.drop_last()[j] == k[i];
                assert(s[j] == k[i]);
            } else {
                assert(kept_dirs(s, cfg)[i] == s.last());
                assert(s[s.len() - 1] == s.last());
            }
        }
    }
}

fn sort_dir_refs<'a>(v: &Vec<&'a FsDir>) -> (r: Vec<&'a FsDir>)
    ensures
        fs_ref_views(r@) == sorted_fs(fs_ref_views(v@)),
{
    let ghost all = fs_ref_views(v@);
    let mut out: Vec<&'a FsDir> = Vec::new();
    let mut keys: Vec<Vec<char>> = Vec::new();
    let mut i: usize = 0;
    while i < v.len()
        invariant
            0 <= i <= v@.len(),
            all == fs_ref_views(v@),
            out@.len() == keys@.len(),
            key_views(keys@) == fs_names(fs_ref_views(out@)),
            fs_ref_views(out@) == sorted_fs(all.take(i as int)),
        decreases v@.len() - i,
    {
        let d = v[i];
        let k = chars_of(d.name.as_str());
        let p = asc_slot(&keys, &k);
        proof {
            assert(all.take(i + 1).drop_last() =~= all.take(i as int));
            assert(all.take(i + 1).last() == d@);
            lemma_asc_pos(key_views(keys@), k@);
        }
        let ghost ov = fs_ref_views(out@);
        let ghost ok = key_views(keys@);
        out.insert(p, d);
        keys.insert(p, k);
        proof {
            assert(fs_ref_views(out@) =~= ov.insert(p as int, d@));
            assert(key_views(keys@) =~= ok.insert(p as int, k@));
            assert(fs_names(ov.insert(p as int, d@)) =~= fs_names(ov).insert(p as int, d@.name));
        }
        i += 1;
    }
    proof {
        assert(all.take(i as int) =~= all);
    }
    out
}

/// The files a directory lists, sorted.
fn collect_files(dir: &FsDir, config: &TreeConfig) -> (r: Vec<String>)
    ensures
        strs_view(r@) == listed_files(dir@, config@),
{
    let ghost pred = |n: Seq<char>| keep_file(n, config@);
    let mut kept: Vec<String> = Vec::new();
    let mut i: usize = 0;
    while i < dir.files.len()
        invariant
            0 <= i <= dir.files@.len(),
            pred == (|n: Seq<char>| keep_file(n, config@)),
            strs_view(kept@) == strs_view(dir.files@).take(i as int).filter(pred),
        decreases dir.files@.len() - i,
    {
        proof {
            let t = strs_view(dir.files@).take(i + 1);
            assert(t.drop_last() =~= strs_view(dir.files@).take(i as int));
            assert(t.last() == dir.files@[i as int]@);
            reveal(Seq::filter);
        }
        if keep_file_exec(&dir.files[i], config) {
            let ghost before = strs_view(kept@);
            kept.push(dir.files[i].clone());
            assert(strs_view(kept@) =~= before.push(dir.files@[i as int]@));
        }
        i += 1;
    }
    proof {
        assert(strs_view(dir.files@).take(i as int) =~= strs_view(dir.files@));
    }
    sort_strings(kept)
}

/// The visible subdirectories that the exclusion patterns keep, sorted by name.
fn read_subdirs<'a>(dir: &'a FsDir, config: &TreeConfig) -> (r: Vec<&'a FsDir>)
    ensures
        fs_ref_views(r@) == sorted_fs(kept_dirs(dir@.dirs, config@)),
{
    proof {
        lemma_fs_view(dir.dirs@);
    }
    let ghost pred = |d: FsDirView| keep_dir_name(d.name, config@);
    let mut kept: Vec<&'a FsDir> = Vec::new();
    let mut i: usize = 0;
    while i < dir.dirs.len()
        invariant
            0 <= i <= dir.dirs@.len(),
            fs_view(dir.dirs@) == dir.dirs@.map_values(|d: FsDir| d@),
            pred == (|d: FsDirView| keep_dir_name(d.name, config@)),
            fs_ref_views(kept@) == dir@.dirs.take(i as int).filter(pred),
        decreases dir.dirs@.len() - i,
    {
        proof {
            let t = dir@.dirs.take(i + 1);
            assert(t.drop_last() =~= dir@.dirs.take(i as int));
            assert(t.last() == dir.dirs@[i as int]@);
            reveal(Seq::filter);
        }
        if keep_dir_exec(&dir.dirs[i].name, config) {
            let ghost before = fs_ref_views(kept@);
            kept.push(&dir.dirs[i]);
            assert(fs_ref_views(kept@) =~= before.push(dir.dirs@[i as int]@));
        }
        i += 1;
    }
    proof {
        assert(dir@.dirs.take(i as int) =~= dir@.dirs);
    }
    sort_dir_refs(&kept)
}

/// The cleaned copy of a directory listing (see `clean_tree`).
pub fn clean(dir: &FsDir, config: &TreeConfig) -> (r: FsDir)
    ensures
        r@ == clean_tree(dir@, config@),
    decreases dir@,
{
    let files = collect_files(dir, config);
    let subs = read_subdirs(dir, config);
    let ghost sv = fs_ref_views(subs@);
    let mut dirs: Vec<FsDir> = Vec::new();
    let mut i: usize = 0;
    proof {
        lemma_fs_view(dirs@);
        lemma_fs_view(dir.dirs@);
        lemma_clean_list_map(sv, config@);
    }
    while i < subs.len()
        invariant
            0 <= i <= subs@.len(),
            sv == fs_ref_views(subs@),
            sv == sorted_fs(kept_dirs(dir@.dirs, config@)),
            fs_view(dir.dirs@) == dir.dirs@.map_values(|d: FsDir| d@),
            clean_list(sv, config@) == sv.map_values(|d: FsDirView| clean_tree(d, config@)),
            dirs@.map_values(|d: FsDir| d@) == clean_list(sv, config@).take(i as int),
        decreases subs@.len() - i,
    {
        let d = subs[i];
        proof {
            assert(sv[i as int] == d@);
            lemma_sorted_fs_members(kept_dirs(dir@.dirs, config@));
            lemma_kept_members(dir@.dirs, config@);
            assert(kept_dirs(dir@.dirs, config@).contains(d@));
            let j = choose|j: int| 0 <= j < dir@.dirs.len() && dir@.dirs[j] == d@;
            assert(decreases_to!(dir@ => dir@.dirs));
            assert(decreases_to!(dir@.dirs => dir@.dirs[j]));
        }
        let c = clean(d, config);
        let ghost before = dirs@.map_values(|d: FsDir| d@);
        dirs.push(c);
        proof {
            assert(dirs@.map_values(|d: FsDir| d@) =~= before.push(c@));
            assert(clean_list(sv, config@).take(i + 1) =~= clean_list(sv, config@).take(i as int).push(
                clean_tree(sv[i as int], config@),
            ));
        }
        i += 1;
    }
    proof {
        lemma_fs_view(dirs@);
        assert(clean_list(sv, config@).take(i as int) =~= clean_list(sv, config@));
        lemma_kept_clean_commute(dir@.dirs, config@);
        lemma_sorted_clean_commute(kept_dirs(dir@.dirs, config@), config@);
    }
    FsDir { name: dir.name.clone(), files, dirs }
}


// ---------------------------------------------------------------------------
// File suffixes
// ---------------------------------------------------------------------------

/// What std's `Path::extension` returns for a file name (on the platform the
/// crate is built for).
pub uninterp spec fn path_extension_of(name: Seq<char>) -> Option<Seq<char>>;

/// A plain file name: not empty, no separator, no `:` (which on Windows can
/// start a drive prefix such as `C:`), not `.` or `..`. On every target such
/// a name is one normal path component.
pub open spec fn plain_file_name(name: Seq<char>) -> bool {
    &&& name.len() > 0
    &&& forall|i: int| 0 <= i < name.len() ==> name[i] != '/' && name[i] != '\\' && name[i] != ':'
    &&& name != "."@
    &&& name != ".."@
}

/// The extension of a file name per std's `Path::extension`. For a plain file
/// name std documents the result: the text after the final `.`, or nothing
/// when there is no `.` other than a leading one.
#[verifier::external_body]
fn path_extension(name: &str) -> (r: Option<String>)
    ensures
        match r {
            Some(e) => path_extension_of(name@) == Some(e@),
            None => path_extension_of(name@) is None,
        },
        plain_file_name(name@) ==> (r is Some <==> rindex_of(name@, '.') > 0),
        plain_file_name(name@) ==> (r matches Some(e) ==> e@ == after_last(name@, '.')),
{
    match std::path::Path::new(name).extension() {
        Some(e) => Some(e.to_string_lossy().into_owned()),
        None => None,
    }
}

/// The extension a count summary files a name under.
pub open spec fn ext_or_other(name: Seq<char>) -> Seq<char> {
    match path_extension_of(name) {
        Some(e) => e,
        None => "other"@,
    }
}

/// The number of leading entries whose count is at least `c`.
pub open spec fn desc_pos(t: Seq<(Seq<char>, nat)>, c: nat) -> int
    decreases t.len(),
{
    if t.len() == 0 {
        0
    } else if t[0].1 >= c {
        1 + desc_pos(t.drop_first(), c)
    } else {
        0
    }
}

/// Entries by descending count, equal counts keeping their order (a stable
/// sort by count, largest first).
pub open spec fn sorted_by_count(s: Seq<(Seq<char>, nat)>) -> Seq<(Seq<char>, nat)>
    decreases s.len(),
{
    if s.len() == 0 {
        seq![]
    } else {
        let t = sorted_by_count(s.drop_last());
        t.insert(desc_pos(t, s.last().1), s.last())
    }
}

pub open spec fn count_label(e: (Seq<char>, nat)) -> Seq<char> {
    decimal(e.1) + "."@ + e.0
}

/// `N.ext` for each extension, most frequent first, ties by extension.
pub open spec fn ext_breakdown(files: Seq<Seq<char>>) -> Seq<Seq<char>> {
    sorted_by_count(count_all(files.map_values(|f: Seq<char>| ext_or_other(f)))).map_values(
        |e: (Seq<char>, nat)| count_label(e),
    )
}

/// The extension of a plain file name as std's `Path::extension` reads it:
/// the text after the final `.` when that `.` is not the first character,
/// else `other`.
pub open spec fn plain_ext(name: Seq<char>) -> Seq<char> {
    if rindex_of(name, '.') > 0 {
        after_last(name, '.')
    } else {
        "other"@
    }
}

/// `N.ext` for each extension of the list, most frequent first, ties by
/// extension.
pub open spec fn breakdown_of(exts: Seq<Seq<char>>) -> Seq<Seq<char>> {
    sorted_by_count(count_all(exts)).map_values(|e: (Seq<char>, nat)| count_label(e))
}

/// `file_suffix` for files whose names are all plain, with the extensions
/// read by `plain_ext`.
pub open spec fn plain_file_suffix(files: Seq<Seq<char>>, threshold: nat) -> Seq<char> {
    if files.len() == 0 {
        seq![]
    } else if files.len() <= threshold {
        " {"@ + join(files, ", "@) + "}"@
    } else {
        " ["@ + decimal(files.len()) + " files: "@ + join(
            breakdown_of(files.map_values(|f: Seq<char>| plain_ext(f))),
            " "@,
        ) + "]"@
    }
}

/// The suffix of a directory line: nothing for no files, the files inline up
/// to the threshold, else a count summary by extension.
pub open spec fn file_suffix(files: Seq<Seq<char>>, threshold: nat) -> Seq<char> {
    if files.len() == 0 {
        seq![]
    } else if files.len() <= threshold {
        " {"@ + join(files, ", "@) + "}"@
    } else {
        " ["@ + decimal(files.len()) + " files: "@ + join(ext_breakdown(files), " "@) + "]"@
    }
}

proof fn lemma_desc_pos(t: Seq<(Seq<char>, nat)>, c: nat)
    ensures
        0 <= desc_pos(t, c) <= t.len(),
    decreases t.len(),
{
    if t.len() > 0 && t[0].1 >= c {
        lemma_desc_pos(t.drop_first(), c);
    }
}

fn chars_vec_views(v: &Vec<String>) -> (r: Vec<Vec<char>>)
    ensures
        key_views(r@) == strs_view(v@),
{
    let mut r: Vec<Vec<char>> = Vec::new();
    let mut i: usize = 0;
    while i < v.len()
        invariant
            0 <= i <= v@.len(),
            key_views(r@) =~= strs_view(v@).take(i as int),
        decreases v@.len() - i,
    {
        let ghost before = key_views(r@);
        r.push(chars_of(v[i].as_str()));
        assert(key_views(r@) =~= before.push(v@[i as int]@));
        assert(strs_view(v@).take(i + 1) =~= strs_view(v@).take(i as int).push(v@[i as int]@));
        i += 1;
    }
    assert(strs_view(v@).take(i as int) =~= strs_view(v@));
    r
}

/// Format the file suffix for a directory line (see `file_suffix`).
pub fn format_file_suffix(files: &Vec<String>, config: &TreeConfig) -> (r: String)
    ensures
        r@ == file_suffix(strs_view(files@), config.inline_threshold as nat),
        (forall|i: int| 0 <= i < files@.len() ==> plain_file_name(#[trigger] files@[i]@)) ==> r@
            == plain_file_suffix(strs_view(files@), config.inline_threshold as nat),
{
    let ghost fv = strs_view(files@);
    if files.len() == 0 {
        return String::new();
    }
    if files.len() <= config.inline_threshold {
        let mut r = String::new();
        push_str(&mut r, " {");
        push_str(&mut r, join_strings(&chars_vec_views(files), ", ").as_str());
        push_str(&mut r, "}");
        return r;
    }
    // Extension of each file, then counts per extension (in extension order).
    let mut exts: Vec<Vec<char>> = Vec::new();
    let mut i: usize = 0;
    while i < files.len()
        invariant
            0 <= i <= files@.len(),
            fv == strs_view(files@),
            key_views(exts@) =~= fv.take(i as int).map_values(|f: Seq<char>| ext_or_other(f)),
            forall|j: int| 0 <= j < i && plain_file_name(fv[j]) ==> ext_or_other(#[trigger] fv[j]) == plain_ext(fv[j]),
        decreases files@.len() - i,
    {
        let e = match path_extension(files[i].as_str()) {
            Some(x) => chars_of(x.as_str()),
            None => chars_of("other"),
        };
        let ghost before = key_views(exts@);
        exts.push(e);
        proof {
            assert(key_views(exts@) =~= before.push(ext_or_other(fv[i as int])));
            assert(fv.take(i + 1) =~= fv.take(i as int).push(fv[i as int]));
        }
        i += 1;
    }
    proof {
        assert(fv.take(i as int) =~= fv);
        if forall|j: int| 0 <= j < files@.len() ==> plain_file_name(#[trigger] files@[j]@) {
            assert(fv.map_values(|f: Seq<char>| ext_or_other(f)) =~= fv.map_values(|f: Seq<char>| plain_ext(f))) by {
                assert forall|j: int| 0 <= j < fv.len() implies plain_file_name(#[trigger] fv[j]) by {
                    assert(fv[j] == files@[j]@);
                }
            }
        }
    }
    let (keys, counts) = count_keys_exec(&exts);
    let ghost c = count_all(fv.map_values(|f: Seq<char>| ext_or_other(f)));
    // Stable insertion by descending count.
    let mut skeys: Vec<Vec<char>> = Vec::new();
    let mut scounts: Vec<usize> = Vec::new();
    let mut k: usize = 0;
    while k < keys.len()
        invariant
            0 <= k <= keys@.len(),
            keys@.len() == counts@.len(),
            keys@.len() == c.len(),
            key_views(keys@) == count_keys(c),
            forall|j: int| 0 <= j < counts@.len() ==> #[trigger] counts@[j] == c[j].1,
            skeys@.len() == scounts@.len(),
            Seq::new(skeys@.len(), |j: int| (skeys@[j]@, scounts@[j] as nat)) == sorted_by_count(c.take(k as int)),
        decreases keys@.len() - k,
    {
        let ghost sv = Seq::new(skeys@.len(), |j: int| (skeys@[j]@, scounts@[j] as nat));
        let cnt = counts[k];
        let mut p: usize = 0;
        assert(sv.skip(0) =~= sv);
        while p < scounts.len() && scounts[p] >= cnt
            invariant
                0 <= p <= scounts@.len(),
                skeys@.len() == scounts@.len(),
                sv == Seq::new(skeys@.len(), |j: int| (skeys@[j]@, scounts@[j] as nat)),
                desc_pos(sv, cnt as nat) == p + desc_pos(sv.skip(p as int), cnt as nat),
            decreases scounts@.len() - p,
        {
            assert(sv.skip(p + 1) =~= sv.skip(p as int).drop_first());
            p += 1;
        }
        proof {
            if p < scounts@.len() {
                assert(sv.skip(p as int)[0] == sv[p as int]);
            }
            lemma_desc_pos(sv, cnt as nat);
            assert(c.take(k + 1).drop_last() =~= c.take(k as int));
            assert(c.take(k + 1).last() == c[k as int]);
            assert(key_views(keys@)[k as int] == keys@[k as int]@);
            assert(c[k as int] == (keys@[k as int]@, cnt as nat));
        }
        let ghost sk = skeys@;
        let ghost sc = scounts@;
        skeys.insert(p, keys[k].clone());
        scounts.insert(p, cnt);
        proof {
            let nv = Seq::new(skeys@.len(), |j: int| (skeys@[j]@, scounts@[j] as nat));
            assert(nv =~= sv.insert(p as int, (keys@[k as int]@, cnt as nat))) by {
                assert forall|j: int| 0 <= j < nv.len() implies nv[j] == sv.insert(p as int, (keys@[k as int]@, cnt as nat))[j] by {
                    if j < p {
                        assert(skeys@[j] == sk[j]);
                        assert(scounts@[j] == sc[j]);
                    } else if j > p {
                        assert(skeys@[j] == sk[j - 1]);
                        assert(scounts@[j] == sc[j - 1]);
                    }
                }
            }
        }
        k += 1;
    }
    proof {
        assert(c.take(k as int) =~= c);
    }
    let ghost sorted = sorted_by_count(c);
    let mut labels: Vec<Vec<char>> = Vec::new();
    let mut j: usize = 0;
    while j < skeys.len()
        invariant
            0 <= j <= skeys@.len(),
            skeys@.len() == scounts@.len(),
            Seq::new(skeys@.len(), |j: int| (skeys@[j]@, scounts@[j] as nat)) == sorted,
            sorted == sorted_by_count(c),
            key_views(labels@) =~= sorted.take(j as int).map_values(|e: (Seq<char>, nat)| count_label(e)),
        decreases skeys@.len() - j,
    {
        let mut lab = String::new();
        push_str(&mut lab, decimal_string(scounts[j]).as_str());
        push_str(&mut lab, ".");
        push_chars(&mut lab, &skeys[j]);
        let ghost before = key_views(labels@);
        labels.push(chars_of(lab.as_str()));
        proof {
            assert(sorted[j as int] == (skeys@[j as int]@, scounts@[j as int] as nat));
            assert(key_views(labels@) =~= before.push(count_label(sorted[j as int])));
            assert(sorted.take(j + 1) =~= sorted.take(j as int).push(sorted[j as int]));
        }
        j += 1;
    }
    proof {
        assert(sorted.take(j as int) =~= sorted);
    }
    let mut r = String::new();
    push_str(&mut r, " [");
    push_str(&mut r, decimal_string(files.len()).as_str());
    push_str(&mut r, " files: ");
    push_str(&mut r, join_strings(&labels, " ").as_str());
    push_str(&mut r, "]");
    r
}


// ---------------------------------------------------------------------------
// Walk specifications (over the cleaned listing)
// ---------------------------------------------------------------------------

/// The path of a child: the name under the root, `parent/name` below it.
pub open spec fn child_rel(rel: Seq<char>, name: Seq<char>) -> Seq<char> {
    if rel == "."@ {
        name
    } else {
        rel + "/"@ + name
    }
}

/// Whether a walk at `depth` goes no deeper.
pub open spec fn stop_at(depth: nat, max_depth: Option<usize>) -> bool {
    match max_depth {
        Some(m) => depth >= m,
        None => false,
    }
}

/// `rel/ {child, child}` for every directory with children, depth-first;
/// below `max_depth` only the line itself.
pub open spec fn brace_spec(rel: Seq<char>, d: FsDirView, depth: nat, max_depth: Option<usize>) -> Seq<char>
    decreases d, 1nat,
{
    if d.dirs.len() == 0 {
        seq![]
    } else {
        rel + "/ {"@ + join(fs_names(d.dirs), ", "@) + "}\n"@ + if stop_at(depth, max_depth) {
            seq![]
        } else {
            brace_list(rel, d.dirs, depth + 1, max_depth)
        }
    }
}

pub open spec fn brace_list(rel: Seq<char>, s: Seq<FsDirView>, depth: nat, max_depth: Option<usize>) -> Seq<char>
    decreases s, 0nat,
{
    if s.len() == 0 {
        seq![]
    } else {
        brace_list(rel, s.drop_last(), depth, max_depth) + brace_spec(
            child_rel(rel, s.last().name),
            s.last(),
            depth,
            max_depth,
        )
    }
}

/// At least three siblings, all without subdirectories, all with the same
/// non-empty file list.
pub open spec fn collapsible(ds: Seq<FsDirView>) -> bool {
    &&& ds.len() >= 3
    &&& forall|i: int| 0 <= i < ds.len() ==> (#[trigger] ds[i]).dirs.len() == 0 && ds[i].files.len() > 0
        && ds[i].files == ds[0].files
}

pub open spec fn collapse_line(rel: Seq<char>, ds: Seq<FsDirView>) -> Seq<char> {
    rel + "/{"@ + join(fs_names(ds), ", "@) + "}/  [each: "@ + join(ds[0].files, ", "@) + "]\n"@
}

/// Each subdirectory as `path/` plus its file suffix, depth-first; siblings
/// that qualify collapse into one line.
pub open spec fn files_spec(rel: Seq<char>, d: FsDirView, depth: nat, max_depth: Option<usize>, threshold: nat) -> Seq<char>
    decreases d, 1nat,
{
    if stop_at(depth, max_depth) {
        seq![]
    } else if collapsible(d.dirs) {
        collapse_line(rel, d.dirs)
    } else {
        files_list(rel, d.dirs, depth + 1, max_depth, threshold)
    }
}

pub open spec fn files_list(rel: Seq<char>, s: Seq<FsDirView>, depth: nat, max_depth: Option<usize>, threshold: nat) -> Seq<char>
    decreases s, 0nat,
{
    if s.len() == 0 {
        seq![]
    } else {
        let x = s.last();
        let r = child_rel(rel, x.name);
        files_list(rel, s.drop_last(), depth, max_depth, threshold) + r + "/"@ + file_suffix(x.files, threshold) + "\n"@
            + files_spec(r, x, depth, max_depth, threshold)
    }
}

pub open spec fn root_files_line(files: Seq<Seq<char>>) -> Seq<char> {
    if files.len() == 0 {
        seq![]
    } else {
        "[root] "@ + join(files, ", "@) + "\n"@
    }
}

// ---------------------------------------------------------------------------
// Walk implementations
// ---------------------------------------------------------------------------

fn names_of(ds: &Vec<FsDir>) -> (r: Vec<Vec<char>>)
    ensures
        key_views(r@) == fs_names(fs_view(ds@)),
{
    proof {
        lemma_fs_view(ds@);
    }
    let mut r: Vec<Vec<char>> = Vec::new();
    let mut i: usize = 0;
    while i < ds.len()
        invariant
            0 <= i <= ds@.len(),
            fs_view(ds@) == ds@.map_values(|d: FsDir| d@),
            key_views(r@) =~= fs_names(fs_view(ds@)).take(i as int),
        decreases ds@.len() - i,
    {
        let ghost before = key_views(r@);
        r.push(chars_of(ds[i].name.as_str()));
        assert(key_views(r@) =~= before.push(ds@[i as int]@.name));
        assert(fs_names(fs_view(ds@)).take(i + 1) =~= fs_names(fs_view(ds@)).take(i as int).push(ds@[i as int]@.name));
        i += 1;
    }
    assert(fs_names(fs_view(ds@)).take(i as int) =~= fs_names(fs_view(ds@)));
    r
}

/// The depth budget left at `depth`: none without a maximum, else the
/// levels still allowed.
pub open spec fn budget(left: Option<usize>, depth: nat, max_depth: Option<usize>) -> bool {
    match max_depth {
        None => left is None,
        Some(m) => depth <= m && left == Some((m - depth) as usize),
    }
}

fn stop_exec(left: Option<usize>, Ghost(depth): Ghost<nat>, Ghost(max_depth): Ghost<Option<usize>>) -> (r: bool)
    requires
        budget(left, depth, max_depth),
    ensures
        r == stop_at(depth, max_depth),
{
    match left {
        Some(l) => l == 0,
        None => false,
    }
}

fn next_budget(left: Option<usize>, Ghost(depth): Ghost<nat>, Ghost(max_depth): Ghost<Option<usize>>) -> (r: Option<usize>)
    requires
        budget(left, depth, max_depth),
        !stop_at(depth, max_depth),
    ensures
        budget(r, depth + 1, max_depth),
{
    match left {
        Some(l) => Some(l - 1),
        None => None,
    }
}

fn child_rel_exec(rel: &String, name: &String) -> (r: String)
    ensures
        r@ == child_rel(rel@, name@),
{
    if crate::text::str_eq(rel.as_str(), ".") {
        name.clone()
    } else {
        let mut r = rel.clone();
        push_str(&mut r, "/");
        push_str(&mut r, name.as_str());
        r
    }
}

fn brace_walk(
    out: &mut String,
    rel: &String,
    d: &FsDir,
    left: Option<usize>,
    Ghost(depth): Ghost<nat>,
    Ghost(max_depth): Ghost<Option<usize>>,
)
    requires
        budget(left, depth, max_depth),
    ensures
        final(out)@ == old(out)@ + brace_spec(rel@, d@, depth, max_depth),
    decreases d@,
{
    proof {
        lemma_fs_view(d.dirs@);
    }
    if d.dirs.len() == 0 {
        return;
    }
    push_str(out, rel.as_str());
    push_str(out, "/ {");
    push_str(out, join_strings(&names_of(&d.dirs), ", ").as_str());
    push_str(out, "}\n");
    if stop_exec(left, Ghost(depth), Ghost(max_depth)) {
        return;
    }
    let next = next_budget(left, Ghost(depth), Ghost(max_depth));
    let ghost start = out@;
    let mut i: usize = 0;
    while i < d.dirs.len()
        invariant
            0 <= i <= d.dirs@.len(),
            budget(next, depth + 1, max_depth),
            fs_view(d.dirs@) == d.dirs@.map_values(|x: FsDir| x@),
            out@ == start + brace_list(rel@, d@.dirs.take(i as int), depth + 1, max_depth),
        decreases d.dirs@.len() - i,
    {
        let c = &d.dirs[i];
        let r = child_rel_exec(rel, &c.name);
        proof {
            assert(d@.dirs[i as int] == c@);
            assert(decreases_to!(d@ => d@.dirs));
        }
        brace_walk(out, &r, c, next, Ghost(depth + 1), Ghost(max_depth));
        proof {
            let t = d@.dirs.take(i + 1);
            assert(t.drop_last() =~= d@.dirs.take(i as int));
            assert(t.last() == c@);
        }
        i += 1;
    }
    assert(d@.dirs.take(i as int) =~= d@.dirs);
}

/// Generate a brace-expanded compact dirs-only tree: each line shows one
/// directory with children and its children in a `{child, child}` list; leaf
/// directories appear only in their parent's list.
pub fn compact_dirs_tree(root: &FsDir, max_depth: Option<usize>, config: &TreeConfig) -> (r: String)
    ensures
        r@ == brace_spec("."@, clean_tree(root@, config@), 0, max_depth),
{
    let c = clean(root, config);
    let mut out = String::new();
    let rel = ".".to_string();
    brace_walk(&mut out, &rel, &c, max_depth, Ghost(0), Ghost(max_depth));
    out
}


fn strs_eq(a: &Vec<String>, b: &Vec<String>) -> (r: bool)
    ensures
        r == (strs_view(a@) == strs_view(b@)),
{
    if a.len() != b.len() {
        return false;
    }
    let mut i: usize = 0;
    while i < a.len()
        invariant
            0 <= i <= a@.len(),
            a@.len() == b@.len(),
            forall|k: int| 0 <= k < i ==> a@[k]@ == b@[k]@,
        decreases a@.len() - i,
    {
        if !crate::text::str_eq(a[i].as_str(), b[i].as_str()) {
            assert(strs_view(a@)[i as int] != strs_view(b@)[i as int]);
            return false;
        }
        i += 1;
    }
    assert(strs_view(a@) =~= strs_view(b@));
    true
}

/// Whether the subdirectories collapse into one line (see `collapsible`).
fn try_sibling_collapse(ds: &Vec<FsDir>) -> (r: bool)
    ensures
        r == collapsible(fs_view(ds@)),
{
    proof {
        lemma_fs_view(ds@);
    }
    if ds.len() < 3 {
        return false;
    }
    let mut i: usize = 0;
    while i < ds.len()
        invariant
            0 <= i <= ds@.len(),
            ds@.len() >= 3,
            fs_view(ds@) == ds@.map_values(|x: FsDir| x@),
            forall|k: int| 0 <= k < i ==> (#[trigger] fs_view(ds@)[k]).dirs.len() == 0 && fs_view(ds@)[k].files.len() > 0
                && fs_view(ds@)[k].files == fs_view(ds@)[0].files,
        decreases ds@.len() - i,
    {
        let x = &ds[i];
        proof {
            assert(fs_view(ds@)[i as int] == x@);
            lemma_fs_view(x.dirs@);
        }
        if x.dirs.len() != 0 || x.files.len() == 0 || !strs_eq(&x.files, &ds[0].files) {
            return false;
        }
        i += 1;
    }
    true
}

fn files_walk(
    out: &mut String,
    rel: &String,
    d: &FsDir,
    left: Option<usize>,
    config: &TreeConfig,
    Ghost(depth): Ghost<nat>,
    Ghost(max_depth): Ghost<Option<usize>>,
)
    requires
        budget(left, depth, max_depth),
    ensures
        final(out)@ == old(out)@ + files_spec(rel@, d@, depth, max_depth, config.inline_threshold as nat),
    decreases d@,
{
    proof {
        lemma_fs_view(d.dirs@);
    }
    if stop_exec(left, Ghost(depth), Ghost(max_depth)) {
        return;
    }
    if try_sibling_collapse(&d.dirs) {
        proof {
            assert(d@.dirs[0] == d.dirs@[0]@);
        }
        push_str(out, rel.as_str());
        push_str(out, "/{");
        push_str(out, join_strings(&names_of(&d.dirs), ", ").as_str());
        push_str(out, "}/  [each: ");
        push_str(out, join_strings(&chars_vec_views(&d.dirs[0].files), ", ").as_str());
        push_str(out, "]\n");
        return;
    }
    let next = next_budget(left, Ghost(depth), Ghost(max_depth));
    let ghost start = out@;
    let ghost thr = config.inline_threshold as nat;
    let mut i: usize = 0;
    while i < d.dirs.len()
        invariant
            0 <= i <= d.dirs@.len(),
            thr == config.inline_threshold as nat,
            budget(next, depth + 1, max_depth),
            fs_view(d.dirs@) == d.dirs@.map_values(|x: FsDir| x@),
            out@ == start + files_list(rel@, d@.dirs.take(i as int), depth + 1, max_depth, thr),
        decreases d.dirs@.len() - i,
    {
        let c = &d.dirs[i];
        let r = child_rel_exec(rel, &c.name);
        proof {
            assert(d@.dirs[i as int] == c@);
            assert(decreases_to!(d@ => d@.dirs));
        }
        push_str(out, r.as_str());
        push_str(out, "/");
        push_str(out, format_file_suffix(&c.files, config).as_str());
        push_str(out, "\n");
        files_walk(out, &r, c, next, config, Ghost(depth + 1), Ghost(max_depth));
        proof {
            let t = d@.dirs.take(i + 1);
            assert(t.drop_last() =~= d@.dirs.take(i as int));
            assert(t.last() == c@);
        }
        i += 1;
    }
    assert(d@.dirs.take(i as int) =~= d@.dirs);
}

/// Generate a compact dirs+files tree: `[root] files` for the root's files,
/// then every directory as `path/` with its files inline (up to the inline
/// threshold) or a count summary, and sibling leaves with identical file lists
/// (three or more) collapsed into one `parent/{d1, d2, d3}/  [each: ...]` line.
pub fn compact_files_tree(root: &FsDir, max_depth: Option<usize>, config: &TreeConfig) -> (r: String)
    ensures
        r@ == root_files_line(clean_tree(root@, config@).files) + files_spec(
            "."@,
            clean_tree(root@, config@),
            0,
            max_depth,
            config.inline_threshold as nat,
        ),
{
    let c = clean(root, config);
    let mut out = String::new();
    if c.files.len() > 0 {
        push_str(&mut out, "[root] ");
        push_str(&mut out, join_strings(&chars_vec_views(&c.files), ", ").as_str());
        push_str(&mut out, "\n");
    }
    let rel = ".".to_string();
    files_walk(&mut out, &rel, &c, max_depth, config, Ghost(0), Ghost(max_depth));
    out
}

// ---------------------------------------------------------------------------
// The IR tree of a listing
// ---------------------------------------------------------------------------

pub open spec fn bare_file(name: Seq<char>) -> FileNodeView {
    FileNodeView {
        name,
        pattern: None,
        pattern_status: None,
        purpose: None,
        health: None,
        extra: Map::empty(),
    }
}

/// The bare IR node of a cleaned listing at path `rel` (the root is `.`).
pub open spec fn dir_node_spec(rel: Seq<char>, d: FsDirView, is_root: bool) -> DirNodeView
    decreases d, 1nat,
{
    DirNodeView {
        name: if is_root {
            "."@
        } else {
            d.name
        },
        path: rel,
        dirs: dir_node_list(rel, d.dirs),
        files: d.files.map_values(|n: Seq<char>| bare_file(n)),
        ..empty_view(d.name, rel)
    }
}

pub open spec fn dir_node_list(rel: Seq<char>, s: Seq<FsDirView>) -> Seq<DirNodeView>
    decreases s, 0nat,
{
    if s.len() == 0 {
        seq![]
    } else {
        dir_node_list(rel, s.drop_last()).push(
            dir_node_spec(child_rel(rel, s.last().name), s.last(), false),
        )
    }
}

fn build_node(rel: &String, d: &FsDir, is_root: bool) -> (r: DirNode)
    ensures
        r@ == dir_node_spec(rel@, d@, is_root),
    decreases d@,
{
    proof {
        lemma_fs_view(d.dirs@);
    }
    let mut files: Vec<FileNode> = Vec::new();
    let mut i: usize = 0;
    while i < d.files.len()
        invariant
            0 <= i <= d.files@.len(),
            files_view(files@) =~= strs_view(d.files@).take(i as int).map_values(|n: Seq<char>| bare_file(n)),
        decreases d.files@.len() - i,
    {
        let ghost before = files_view(files@);
        files.push(FileNode::bare(d.files[i].as_str()));
        proof {
            assert(files_view(files@) =~= before.push(bare_file(d.files@[i as int]@)));
            assert(strs_view(d.files@).take(i + 1) =~= strs_view(d.files@).take(i as int).push(d.files@[i as int]@));
        }
        i += 1;
    }
    assert(strs_view(d.files@).take(i as int) =~= strs_view(d.files@));
    let mut dirs: Vec<DirNode> = Vec::new();
    let mut j: usize = 0;
    proof {
        lemma_dirs_view(dirs@);
    }
    while j < d.dirs.len()
        invariant
            0 <= j <= d.dirs@.len(),
            fs_view(d.dirs@) == d.dirs@.map_values(|x: FsDir| x@),
            dirs_view(dirs@) == dir_node_list(rel@, d@.dirs.take(j as int)),
        decreases d.dirs@.len() - j,
    {
        let c = &d.dirs[j];
        let r = child_rel_exec(rel, &c.name);
        proof {
            assert(d@.dirs[j as int] == c@);
            assert(decreases_to!(d@ => d@.dirs));
        }
        let n = build_node(&r, c, false);
        let ghost old_seq = dirs@;
        dirs.push(n);
        proof {
            assert(dirs@.drop_last() =~= old_seq);
            assert(dirs@.last() == n);
            let t = d@.dirs.take(j + 1);
            assert(t.drop_last() =~= d@.dirs.take(j as int));
            assert(t.last() == c@);
        }
        j += 1;
    }
    assert(d@.dirs.take(j as int) =~= d@.dirs);
    let name = if is_root {
        ".".to_string()
    } else {
        d.name.clone()
    };
    let mut node = DirNode::empty(name.as_str(), rel.as_str());
    node.dirs = dirs;
    node.files = files;
    node
}

/// Build a bare `DirNode` tree from a directory listing, with the same
/// filtering rules as the compact trees. Strategy fields are left empty.
pub fn build_dir_tree(root: &FsDir, config: &TreeConfig) -> (r: DirNode)
    ensures
        r@ == dir_node_spec("."@, clean_tree(root@, config@), true),
{
    let c = clean(root, config);
    let rel = ".".to_string();
    build_node(&rel, &c, true)
}


// ---------------------------------------------------------------------------
// Renderings of an IR tree
// ---------------------------------------------------------------------------

/// As `brace_spec`, over an IR tree: `path/ {child, child}` lines.
pub open spec fn ir_brace_spec(d: DirNodeView, depth: nat, max_depth: Option<usize>) -> Seq<char>
    decreases d, 1nat,
{
    if d.dirs.len() == 0 {
        seq![]
    } else {
        d.path + "/ {"@ + join(dir_names(d.dirs), ", "@) + "}\n"@ + if stop_at(depth, max_depth) {
            seq![]
        } else {
            ir_brace_list(d.dirs, depth + 1, max_depth)
        }
    }
}

pub open spec fn ir_brace_list(s: Seq<DirNodeView>, depth: nat, max_depth: Option<usize>) -> Seq<char>
    decreases s, 0nat,
{
    if s.len() == 0 {
        seq![]
    } else {
        ir_brace_list(s.drop_last(), depth, max_depth) + ir_brace_spec(s.last(), depth, max_depth)
    }
}

pub open spec fn node_collapsible(ds: Seq<DirNodeView>) -> bool {
    &&& ds.len() >= 3
    &&& forall|i: int| 0 <= i < ds.len() ==> (#[trigger] ds[i]).dirs.len() == 0 && ds[i].files.len() > 0
        && file_names(ds[i].files) == file_names(ds[0].files)
}

/// As `files_spec`, over an IR tree.
pub open spec fn ir_files_spec(d: DirNodeView, depth: nat, max_depth: Option<usize>, threshold: nat) -> Seq<char>
    decreases d, 1nat,
{
    if stop_at(depth, max_depth) {
        seq![]
    } else if node_collapsible(d.dirs) {
        d.path + "/{"@ + join(dir_names(d.dirs), ", "@) + "}/  [each: "@ + join(
            file_names(d.dirs[0].files),
            ", "@,
        ) + "]\n"@
    } else {
        ir_files_list(d.dirs, depth + 1, max_depth, threshold)
    }
}

pub open spec fn ir_files_list(s: Seq<DirNodeView>, depth: nat, max_depth: Option<usize>, threshold: nat) -> Seq<char>
    decreases s, 0nat,
{
    if s.len() == 0 {
        seq![]
    } else {
        let x = s.last();
        ir_files_list(s.drop_last(), depth, max_depth, threshold) + x.path + "/"@ + file_suffix(
            file_names(x.files),
            threshold,
        ) + "\n"@ + ir_files_spec(x, depth, max_depth, threshold)
    }
}

fn dir_names_exec(ds: &Vec<DirNode>) -> (r: Vec<Vec<char>>)
    ensures
        key_views(r@) == dir_names(dirs_view(ds@)),
{
    proof {
        lemma_dirs_view(ds@);
    }
    let mut r: Vec<Vec<char>> = Vec::new();
    let mut i: usize = 0;
    while i < ds.len()
        invariant
            0 <= i <= ds@.len(),
            dirs_view(ds@) == ds@.map_values(|d: DirNode| d@),
            key_views(r@) =~= dir_names(dirs_view(ds@)).take(i as int),
        decreases ds@.len() - i,
    {
        let ghost before = key_views(r@);
        r.push(chars_of(ds[i].name.as_str()));
        assert(key_views(r@) =~= before.push(ds@[i as int]@.name));
        assert(dir_names(dirs_view(ds@)).take(i + 1) =~= dir_names(dirs_view(ds@)).take(i as int).push(ds@[i as int]@.name));
        i += 1;
    }
    assert(dir_names(dirs_view(ds@)).take(i as int) =~= dir_names(dirs_view(ds@)));
    r
}

fn file_name_strings(fs: &Vec<FileNode>) -> (r: Vec<String>)
    ensures
        strs_view(r@) == file_names(files_view(fs@)),
{
    let mut r: Vec<String> = Vec::new();
    let mut i: usize = 0;
    while i < fs.len()
        invariant
            0 <= i <= fs@.len(),
            strs_view(r@) =~= file_names(files_view(fs@)).take(i as int),
        decreases fs@.len() - i,
    {
        let ghost before = strs_view(r@);
        r.push(fs[i].name.clone());
        assert(strs_view(r@) =~= before.push(fs@[i as int]@.name));
        assert(file_names(files_view(fs@)).take(i + 1) =~= file_names(files_view(fs@)).take(i as int).push(fs@[i as int]@.name));
        i += 1;
    }
    assert(file_names(files_view(fs@)).take(i as int) =~= file_names(files_view(fs@)));
    r
}

fn ir_brace_walk(
    out: &mut String,
    d: &DirNode,
    left: Option<usize>,
    Ghost(depth): Ghost<nat>,
    Ghost(max_depth): Ghost<Option<usize>>,
)
    requires
        budget(left, depth, max_depth),
    ensures
        final(out)@ == old(out)@ + ir_brace_spec(d@, depth, max_depth),
    decreases d@,
{
    proof {
        lemma_dirs_view(d.dirs@);
    }
    if d.dirs.len() == 0 {
        return;
    }
    push_str(out, d.path.as_str());
    push_str(out, "/ {");
    push_str(out, join_strings(&dir_names_exec(&d.dirs), ", ").as_str());
    push_str(out, "}\n");
    if stop_exec(left, Ghost(depth), Ghost(max_depth)) {
        return;
    }
    let next = next_budget(left, Ghost(depth), Ghost(max_depth));
    let ghost start = out@;
    let mut i: usize = 0;
    while i < d.dirs.len()
        invariant
            0 <= i <= d.dirs@.len(),
            budget(next, depth + 1, max_depth),
            dirs_view(d.dirs@) == d.dirs@.map_values(|x: DirNode| x@),
            out@ == start + ir_brace_list(d@.dirs.take(i as int), depth + 1, max_depth),
        decreases d.dirs@.len() - i,
    {
        let c = &d.dirs[i];
        proof {
            assert(d@.dirs[i as int] == c@);
            assert(decreases_to!(d@ => d@.dirs));
        }
        ir_brace_walk(out, c, next, Ghost(depth + 1), Ghost(max_depth));
        proof {
            let t = d@.dirs.take(i + 1);
            assert(t.drop_last() =~= d@.dirs.take(i as int));
            assert(t.last() == c@);
        }
        i += 1;
    }
    assert(d@.dirs.take(i as int) =~= d@.dirs);
}

/// Render a dirs-only compact tree from an IR tree (the format of
/// `compact_dirs_tree`).
pub fn render_dirs_tree(root: &DirNode, max_depth: Option<usize>) -> (r: String)
    ensures
        r@ == ir_brace_spec(root@, 0, max_depth),
{
    let mut out = String::new();
    ir_brace_walk(&mut out, root, max_depth, Ghost(0), Ghost(max_depth));
    out
}

fn try_node_collapse(ds: &Vec<DirNode>) -> (r: bool)
    ensures
        r == node_collapsible(dirs_view(ds@)),
{
    proof {
        lemma_dirs_view(ds@);
    }
    if ds.len() < 3 {
        return false;
    }
    let first = file_name_strings(&ds[0].files);
    let mut i: usize = 0;
    while i < ds.len()
        invariant
            0 <= i <= ds@.len(),
            ds@.len() >= 3,
            dirs_view(ds@) == ds@.map_values(|x: DirNode| x@),
            strs_view(first@) == file_names(ds@[0]@.files),
            forall|k: int| 0 <= k < i ==> (#[trigger] dirs_view(ds@)[k]).dirs.len() == 0 && dirs_view(ds@)[k].files.len() > 0
                && file_names(dirs_view(ds@)[k].files) == file_names(dirs_view(ds@)[0].files),
        decreases ds@.len() - i,
    {
        let x = &ds[i];
        proof {
            assert(dirs_view(ds@)[i as int] == x@);
            lemma_dirs_view(x.dirs@);
        }
        if x.dirs.len() != 0 || x.files.len() == 0 || !strs_eq(&file_name_strings(&x.files), &first) {
            return false;
        }
        i += 1;
    }
    true
}

fn ir_files_walk(
    out: &mut String,
    d: &DirNode,
    left: Option<usize>,
    config: &TreeConfig,
    Ghost(depth): Ghost<nat>,
    Ghost(max_depth): Ghost<Option<usize>>,
)
    requires
        budget(left, depth, max_depth),
    ensures
        final(out)@ == old(out)@ + ir_files_spec(d@, depth, max_depth, config.inline_threshold as nat),
    decreases d@,
{
    proof {
        lemma_dirs_view(d.dirs@);
    }
    if stop_exec(left, Ghost(depth), Ghost(max_depth)) {
        return;
    }
    if try_node_collapse(&d.dirs) {
        proof {
            assert(d@.dirs[0] == d.dirs@[0]@);
        }
        push_str(out, d.path.as_str());
        push_str(out, "/{");
        push_str(out, join_strings(&dir_names_exec(&d.dirs), ", ").as_str());
        push_str(out, "}/  [each: ");
        push_str(out, join_strings(&chars_vec_views(&file_name_strings(&d.dirs[0].files)), ", ").as_str());
        push_str(out, "]\n");
        return;
    }
    let next = next_budget(left, Ghost(depth), Ghost(max_depth));
    let ghost start = out@;
    let ghost thr = config.inline_threshold as nat;
    let mut i: usize = 0;
    while i < d.dirs.len()
        invariant
            0 <= i <= d.dirs@.len(),
            thr == config.inline_threshold as nat,
            budget(next, depth + 1, max_depth),
            dirs_view(d.dirs@) == d.dirs@.map_values(|x: DirNode| x@),
            out@ == start + ir_files_list(d@.dirs.take(i as int), depth + 1, max_depth, thr),
        decreases d.dirs@.len() - i,
    {
        let c = &d.dirs[i];
        proof {
            assert(d@.dirs[i as int] == c@);
            assert(decreases_to!(d@ => d@.dirs));
        }
        push_str(out, c.path.as_str());
        push_str(out, "/");
        push_str(out, format_file_suffix(&file_name_strings(&c.files), config).as_str());
        push_str(out, "\n");
        ir_files_walk(out, c, next, config, Ghost(depth + 1), Ghost(max_depth));
        proof {
            let t = d@.dirs.take(i + 1);
            assert(t.drop_last() =~= d@.dirs.take(i as int));
            assert(t.last() == c@);
        }
        i += 1;
    }
    assert(d@.dirs.take(i as int) =~= d@.dirs);
}

/// Render a dirs+files compact tree from an IR tree (the format of
/// `compact_files_tree`).
pub fn render_files_tree(root: &DirNode, max_depth: Option<usize>, config: &TreeConfig) -> (r: String)
    ensures
        r@ == root_files_line(file_names(root@.files)) + ir_files_spec(
            root@,
            0,
            max_depth,
            config.inline_threshold as nat,
        ),
{
    let mut out = String::new();
    let names = file_name_strings(&root.files);
    if names.len() > 0 {
        push_str(&mut out, "[root] ");
        push_str(&mut out, join_strings(&chars_vec_views(&names), ", ").as_str());
        push_str(&mut out, "\n");
    }
    ir_files_walk(&mut out, root, max_depth, config, Ghost(0), Ghost(max_depth));
    out
}


// ---------------------------------------------------------------------------
// Laws: rendering the IR tree of a listing gives the listing's compact trees
// ---------------------------------------------------------------------------

proof fn lemma_dir_node_list_index(rel: Seq<char>, s: Seq<FsDirView>)
    ensures
        dir_node_list(rel, s).len() == s.len(),
        forall|i: int|
            0 <= i < s.len() ==> #[trigger] dir_node_list(rel, s)[i] == dir_node_spec(
                child_rel(rel, s[i].name),
                s[i],
                false,
            ),
    decreases s.len(),
{
    if s.len() > 0 {
        lemma_dir_node_list_index(rel, s.drop_last());
        assert forall|i: int| 0 <= i < s.len() implies #[trigger] dir_node_list(rel, s)[i] == dir_node_spec(
            child_rel(rel, s[i].name),
            s[i],
            false,
        ) by {
            if i < s.len() - 1 {
                assert(s[i] == s.drop_last()[i]);
            }
        }
    }
}

proof fn lemma_bare_names(files: Seq<Seq<char>>)
    ensures
        file_names(files.map_values(|n: Seq<char>| bare_file(n))) == files,
{
    assert(file_names(files.map_values(|n: Seq<char>| bare_file(n))) =~= files);
}

proof fn lemma_node_names(rel: Seq<char>, s: Seq<FsDirView>)
    ensures
        dir_names(dir_node_list(rel, s)) == fs_names(s),
{
    lemma_dir_node_list_index(rel, s);
    assert(dir_names(dir_node_list(rel, s)) =~= fs_names(s));
}

proof fn lemma_brace_node(rel: Seq<char>, d: FsDirView, is_root: bool, depth: nat, max_depth: Option<usize>)
    ensures
        ir_brace_spec(dir_node_spec(rel, d, is_root), depth, max_depth) == brace_spec(rel, d, depth, max_depth),
    decreases d, 1nat,
{
    lemma_node_names(rel, d.dirs);
    lemma_dir_node_list_index(rel, d.dirs);
    if d.dirs.len() > 0 && !stop_at(depth, max_depth) {
        lemma_brace_list(rel, d.dirs, depth + 1, max_depth);
    }
}

proof fn lemma_brace_list(rel: Seq<char>, s: Seq<FsDirView>, depth: nat, max_depth: Option<usize>)
    ensures
        ir_brace_list(dir_node_list(rel, s), depth, max_depth) == brace_list(rel, s, depth, max_depth),
    decreases s, 0nat,
{
    if s.len() > 0 {
        lemma_brace_list(rel, s.drop_last(), depth, max_depth);
        lemma_brace_node(child_rel(rel, s.last().name), s.last(), false, depth, max_depth);
        let l = dir_node_list(rel, s);
        assert(l.drop_last() == dir_node_list(rel, s.drop_last()));
    }
}

proof fn lemma_collapse_node(rel: Seq<char>, s: Seq<FsDirView>)
    ensures
        node_collapsible(dir_node_list(rel, s)) == collapsible(s),
        s.len() > 0 ==> file_names(dir_node_list(rel, s)[0].files) == s[0].files,
{
    lemma_dir_node_list_index(rel, s);
    let l = dir_node_list(rel, s);
    assert forall|i: int| 0 <= i < s.len() implies (#[trigger] l[i]).dirs.len() == s[i].dirs.len() && l[i].files.len()
        == s[i].files.len() && file_names(l[i].files) == s[i].files by {
        lemma_dir_node_list_index(child_rel(rel, s[i].name), s[i].dirs);
        lemma_bare_names(s[i].files);
    }
    if collapsible(s) {
        assert forall|i: int| 0 <= i < l.len() implies (#[trigger] l[i]).dirs.len() == 0 && l[i].files.len() > 0
            && file_names(l[i].files) == file_names(l[0].files) by {
            assert(s[i].dirs.len() == 0);
        }
    }
    if node_collapsible(l) {
        assert forall|i: int| 0 <= i < s.len() implies (#[trigger] s[i]).dirs.len() == 0 && s[i].files.len() > 0
            && s[i].files == s[0].files by {
            assert(l[i].dirs.len() == 0);
        }
    }
}

proof fn lemma_files_node(rel: Seq<char>, d: FsDirView, is_root: bool, depth: nat, max_depth: Option<usize>, thr: nat)
    ensures
        ir_files_spec(dir_node_spec(rel, d, is_root), depth, max_depth, thr) == files_spec(rel, d, depth, max_depth, thr),
    decreases d, 1nat,
{
    lemma_node_names(rel, d.dirs);
    lemma_collapse_node(rel, d.dirs);
    if !stop_at(depth, max_depth) && !collapsible(d.dirs) {
        lemma_files_list(rel, d.dirs, depth + 1, max_depth, thr);
    }
}

proof fn lemma_files_list(rel: Seq<char>, s: Seq<FsDirView>, depth: nat, max_depth: Option<usize>, thr: nat)
    ensures
        ir_files_list(dir_node_list(rel, s), depth, max_depth, thr) == files_list(rel, s, depth, max_depth, thr),
    decreases s, 0nat,
{
    if s.len() > 0 {
        lemma_files_list(rel, s.drop_last(), depth, max_depth, thr);
        let x = s.last();
        lemma_files_node(child_rel(rel, x.name), x, false, depth, max_depth, thr);
        lemma_bare_names(x.files);
        let l = dir_node_list(rel, s);
        assert(l.drop_last() == dir_node_list(rel, s.drop_last()));
    }
}

/// Rendering the IR tree built from a listing gives exactly the compact
/// dirs-only tree of that listing, and likewise the compact dirs+files tree.
pub proof fn lemma_render_matches_compact(root: FsDirView, cfg: TreeConfigView, max_depth: Option<usize>)
    ensures
        ir_brace_spec(dir_node_spec("."@, clean_tree(root, cfg), true), 0, max_depth) == brace_spec(
            "."@,
            clean_tree(root, cfg),
            0,
            max_depth,
        ),
        root_files_line(file_names(dir_node_spec("."@, clean_tree(root, cfg), true).files))
            + ir_files_spec(dir_node_spec("."@, clean_tree(root, cfg), true), 0, max_depth, cfg.inline_threshold)
            == root_files_line(clean_tree(root, cfg).files) + files_spec(
            "."@,
            clean_tree(root, cfg),
            0,
            max_depth,
            cfg.inline_threshold,
        ),
{
    let c = clean_tree(root, cfg);
    lemma_brace_node("."@, c, true, 0, max_depth);
    lemma_files_node("."@, c, true, 0, max_depth, cfg.inline_threshold);
    lemma_bare_names(c.files);
}

} // verus!
