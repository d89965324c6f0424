//! PlantUML C4 diagrams built from the IR.
use vstd::prelude::*;

use crate::ir::{
    annotated_preorder, opt_view, views_of_refs, ArchitectureIR,
    C4Level, CodeElement, CodeElementView, DirNode, DirNodeView, Relationship,
    RelationshipView,
};
use crate::text::{
    after_last, chars_after_last, chars_eq, chars_of, chars_split, concat_all, find_slot, join,
    join_strings, key_views, lemma_concat_step, lower_bound, push_char, push_str, infix_of,
    split_char, string_from_chars,
};

verus! {

broadcast use vstd::string::group_string_axioms;

// ---------------------------------------------------------------------------
// Identifier and label helpers
// ---------------------------------------------------------------------------

pub open spec fn puml_id_char(c: char) -> char {
    if c == '.' || c == '/' || c == '-' {
        '_'
    } else {
        c
    }
}

/// `s` with `.`, `/` and `-` replaced by `_`.
pub open spec fn puml_id(s: Seq<char>) -> Seq<char> {
    s.map_values(|c: char| puml_id_char(c))
}

pub open spec fn escape_char(c: char) -> char {
    if c == '"' {
        '\''
    } else if c == '\n' || c == '\r' {
        ' '
    } else {
        c
    }
}

/// `s` with `"` replaced by `'` and newlines flattened to spaces.
pub open spec fn escaped(s: Seq<char>) -> Seq<char> {
    s.map_values(|c: char| escape_char(c))
}

/// What std's `char::to_uppercase` yields for a character (full Unicode case
/// mapping; one character may map to several).
pub uninterp spec fn uppercase_of(c: char) -> Seq<char>;

pub open spec fn ascii_upper_char(c: char) -> char {
    if 97 <= (c as int) <= 122 {
        ((c as int) - 32) as char
    } else {
        c
    }
}

/// Upper-cases one character with std's `char::to_uppercase`, collected into
/// a string. For an ASCII character std documents the result as its ASCII
/// upper-casing; for other characters the result is only named, not stated.
#[verifier::external_body]
fn char_to_uppercase(c: char) -> (r: String)
    ensures
        r@ == uppercase_of(c),
        (c as int) < 128 ==> r@ == seq![ascii_upper_char(c)],
{
    c.to_uppercase().to_string()
}

/// A word with its first character upper-cased.
pub open spec fn capitalized(w: Seq<char>) -> Seq<char> {
    if w.len() == 0 {
        seq![]
    } else {
        uppercase_of(w[0]) + w.drop_first()
    }
}

/// A word with its first character upper-cased the ASCII way.
pub open spec fn ascii_capitalized(w: Seq<char>) -> Seq<char> {
    if w.len() == 0 {
        seq![]
    } else {
        seq![ascii_upper_char(w[0])] + w.drop_first()
    }
}

/// `title_case` for ASCII text: split at `_`, capitalize each word the ASCII
/// way, join with spaces.
pub open spec fn ascii_title_case(s: Seq<char>) -> Seq<char> {
    join(split_char(s, '_').map_values(|w: Seq<char>| ascii_capitalized(w)), " "@)
}

/// Every character of every piece of a split is a character of the string.
proof fn lemma_split_char_chars(s: Seq<char>, c: char)
    ensures
        forall|k: int, j: int|
            0 <= k < split_char(s, c).len() && 0 <= j < split_char(s, c)[k].len() ==> s.contains(
                #[trigger] split_char(s, c)[k][j],
            ),
    decreases s.len(),
{
    crate::text::lemma_index_of(s, c);
    let i = crate::text::index_of(s, c);
    if i < s.len() {
        let t = s.skip(i + 1);
        lemma_split_char_chars(t, c);
        let sp = split_char(s, c);
        assert(sp == seq![s.take(i)] + split_char(t, c));
        assert forall|k: int, j: int| 0 <= k < sp.len() && 0 <= j < sp[k].len() implies s.contains(
            #[trigger] sp[k][j],
        ) by {
            if k == 0 {
                assert(sp[0] == s.take(i));
                assert(s[j] == sp[k][j]);
            } else {
                assert(sp[k] == split_char(t, c)[k - 1]);
                assert(t.contains(sp[k][j]));
                let m = choose|m: int| 0 <= m < t.len() && t[m] == sp[k][j];
                assert(s[i + 1 + m] == t[m]);
            }
        }
    } else {
        assert forall|k: int, j: int|
            0 <= k < split_char(s, c).len() && 0 <= j < split_char(s, c)[k].len() implies s.contains(
            #[trigger] split_char(s, c)[k][j],
        ) by {
            assert(split_char(s, c)[k] == s);
            assert(s[j] == split_char(s, c)[k][j]);
        }
    }
}

/// Split at `_`, capitalize each word, join with spaces.
pub open spec fn title_case(s: Seq<char>) -> Seq<char> {
    join(split_char(s, '_').map_values(|w: Seq<char>| capitalized(w)), " "@)
}

fn map_chars_exec(s: &str, which: bool) -> (r: String)
    ensures
        which ==> r@ == puml_id(s@),
        !which ==> r@ == escaped(s@),
{
    let v = chars_of(s);
    let mut r = String::new();
    let mut i: usize = 0;
    while i < v.len()
        invariant
            0 <= i <= v@.len(),
            v@ == s@,
            which ==> r@ == puml_id(v@.take(i as int)),
            !which ==> r@ == escaped(v@.take(i as int)),
        decreases v@.len() - i,
    {
        let c = v[i];
        let d = if which {
            if c == '.' || c == '/' || c == '-' {
                '_'
            } else {
                c
            }
        } else {
            if c == '"' {
                '\''
            } else if c == '\n' || c == '\r' {
                ' '
            } else {
                c
            }
        };
        push_char(&mut r, d);
        proof {
            assert(v@.take(i + 1) =~= v@.take(i as int).push(c));
            assert(puml_id(v@.take(i + 1)) =~= puml_id(v@.take(i as int)).push(puml_id_char(c)));
            assert(escaped(v@.take(i + 1)) =~= escaped(v@.take(i as int)).push(escape_char(c)));
        }
        i += 1;
    }
    assert(v@.take(i as int) =~= v@);
    r
}

/// A PlantUML identifier: `.`, `/` and `-` become `_`.
pub fn to_puml_id(s: &str) -> (r: String)
    ensures
        r@ == puml_id(s@),
{
    map_chars_exec(s, true)
}

/// Sanitize a string for embedding inside a PlantUML double-quoted argument:
/// any `"` becomes `'` and newlines become spaces.
pub fn escape_label(s: &str) -> (r: String)
    ensures
        r@ == escaped(s@),
{
    map_chars_exec(s, false)
}

fn capitalize(w: &Vec<char>) -> (r: Vec<char>)
    ensures
        r@ == capitalized(w@),
        w@.len() == 0 || (w@[0] as int) < 128 ==> r@ == ascii_capitalized(w@),
{
    if w.len() == 0 {
        return Vec::new();
    }
    let up = chars_of(char_to_uppercase(w[0]).as_str());
    let mut r = up;
    let mut i: usize = 1;
    while i < w.len()
        invariant
            1 <= i <= w@.len(),
            r@ == uppercase_of(w@[0]) + w@.subrange(1, i as int),
        decreases w@.len() - i,
    {
        r.push(w[i]);
        assert(w@.subrange(1, i + 1) =~= w@.subrange(1, i as int).push(w@[i as int]));
        i += 1;
    }
    assert(w@.subrange(1, i as int) =~= w@.drop_first());
    r
}

/// `snake_case_name` → `Snake Case Name`.
pub fn to_title_case(s: &str) -> (r: String)
    ensures
        r@ == title_case(s@),
        crate::ir::is_ascii_chars(s@) ==> r@ == ascii_title_case(s@),
{
    let words = chars_split(&chars_of(s), '_');
    let ghost ws = split_char(s@, '_');
    let mut caps: Vec<Vec<char>> = Vec::new();
    let mut i: usize = 0;
    while i < words.len()
        invariant
            0 <= i <= words@.len(),
            words@.len() == ws.len(),
            ws == split_char(s@, '_'),
            forall|k: int| 0 <= k < words@.len() ==> #[trigger] words@[k]@ == ws[k],
            caps@.len() == i,
            forall|k: int| 0 <= k < i ==> #[trigger] caps@[k]@ == capitalized(ws[k]),
            forall|k: int|
                0 <= k < i && (ws[k].len() == 0 || (ws[k][0] as int) < 128) ==> #[trigger] caps@[k]@
                    == ascii_capitalized(ws[k]),
        decreases words@.len() - i,
    {
        caps.push(capitalize(&words[i]));
        i += 1;
    }
    assert(caps@.map_values(|v: Vec<char>| v@) =~= ws.map_values(|w: Seq<char>| capitalized(w)));
    proof {
        if crate::ir::is_ascii_chars(s@) {
            lemma_split_char_chars(s@, '_');
            assert forall|k: int| 0 <= k < ws.len() implies (ws[k].len() == 0 || (ws[k][0] as int) < 128) by {
                if ws[k].len() > 0 {
                    assert(s@.contains(ws[k][0]));
                    let m = choose|m: int| 0 <= m < s@.len() && s@[m] == ws[k][0];
                }
            }
            assert(ws.map_values(|w: Seq<char>| capitalized(w)) =~= ws.map_values(|w: Seq<char>| ascii_capitalized(w)));
        }
    }
    join_strings(&caps, " ")
}


// ---------------------------------------------------------------------------
// Shared diagram pieces
// ---------------------------------------------------------------------------

pub open spec fn or_default(o: Option<Seq<char>>, dflt: Seq<char>) -> Seq<char> {
    match o {
        Some(s) => s,
        None => dflt,
    }
}

/// The annotated nodes at one C4 level, depth-first.
pub open spec fn at_level(root: DirNodeView, level: C4Level) -> Seq<DirNodeView> {
    annotated_preorder(root).filter(|d: DirNodeView| d.c4_level == Some(level))
}

/// `Rel(from, to, "label", "protocol")` and a newline.
pub open spec fn rel_line(from: Seq<char>, r: RelationshipView) -> Seq<char> {
    "Rel("@ + from + ", "@ + puml_id(r.target) + ", \""@ + escaped(r.label) + "\", \""@ + escaped(
        r.protocol,
    ) + "\")\n"@
}

/// The `Rel` lines of one node's relationships.
pub open spec fn rel_lines(d: DirNodeView) -> Seq<char> {
    concat_all(d.relationships.map_values(|r: RelationshipView| rel_line(puml_id(d.path), r)))
}

/// The `Rel` lines of all the nodes, in order.
pub open spec fn rel_block(ds: Seq<DirNodeView>) -> Seq<char> {
    concat_all(ds.map_values(|d: DirNodeView| rel_lines(d)))
}

/// Group name of a node: its layer, else its parent, else `dflt`.
pub open spec fn group_key(d: DirNodeView, dflt: Seq<char>) -> Seq<char> {
    match d.layer {
        Some(l) => l,
        None => match d.parent {
            Some(p) => p,
            None => dflt,
        },
    }
}

pub type Groups = Seq<(Seq<char>, Seq<DirNodeView>)>;

pub open spec fn group_keys(g: Groups) -> Seq<Seq<char>> {
    g.map_values(|e: (Seq<char>, Seq<DirNodeView>)| e.0)
}

/// Appends `d` to its group in a name-sorted group list
/// (`BTreeMap::entry(key).or_default().push(d)`).
pub open spec fn group_put(g: Groups, key: Seq<char>, d: DirNodeView) -> Groups {
    let p = lower_bound(group_keys(g), key);
    if 0 <= p < g.len() && g[p].0 == key {
        g.update(p, (key, g[p].1.push(d)))
    } else {
        g.insert(p, (key, seq![d]))
    }
}

/// The nodes grouped by `group_key`, groups in name order, members in order.
pub open spec fn grouped(ds: Seq<DirNodeView>, dflt: Seq<char>) -> Groups
    decreases ds.len(),
{
    if ds.len() == 0 {
        seq![]
    } else {
        group_put(grouped(ds.drop_last(), dflt), group_key(ds.last(), dflt), ds.last())
    }
}

// ---------------------------------------------------------------------------
// Shared diagram pieces: implementation
// ---------------------------------------------------------------------------

/// The annotated nodes at one level.
pub fn dirs_at_level(ir: &ArchitectureIR, level: C4Level) -> (r: Vec<&DirNode>)
    ensures
        views_of_refs(r@) == at_level(ir.root@, level),
{
    let all = ir.annotated_dirs();
    let ghost pred = |d: DirNodeView| d.c4_level == Some(level);
    let mut r: Vec<&DirNode> = Vec::new();
    let mut i: usize = 0;
    while i < all.len()
        invariant
            0 <= i <= all@.len(),
            views_of_refs(all@) == annotated_preorder(ir.root@),
            pred == (|d: DirNodeView| d.c4_level == Some(level)),
            views_of_refs(r@) == views_of_refs(all@).take(i as int).filter(pred),
        decreases all@.len() - i,
    {
        let d = all[i];
        proof {
            let t = views_of_refs(all@).take(i + 1);
            assert(t.drop_last() =~= views_of_refs(all@).take(i as int));
            assert(t.last() == d@);
            reveal(Seq::filter);
        }
        if d.c4_level == Some(level) {
            r.push(d);
            proof {
                assert(views_of_refs(r@) =~= views_of_refs(r@).drop_last().push(d@));
            }
        }
        i += 1;
    }
    proof {
        assert(views_of_refs(all@).take(i as int) =~= views_of_refs(all@));
    }
    r
}

/// `Annotated @c4 system` nodes.
pub fn systems_of(ir: &ArchitectureIR) -> (r: Vec<&DirNode>)
    ensures
        views_of_refs(r@) == at_level(ir.root@, C4Level::System),
{
    dirs_at_level(ir, C4Level::System)
}

fn push_opt_or(out: &mut String, o: &Option<String>, dflt: &str)
    ensures
        final(out)@ == old(out)@ + escaped(or_default(crate::ir::opt_view(*o), dflt@)),
{
    match o {
        Some(s) => push_str(out, escape_label(s.as_str()).as_str()),
        None => push_str(out, escape_label(dflt).as_str()),
    }
}

fn push_rel_line(out: &mut String, from: &str, r: &Relationship)
    ensures
        final(out)@ == old(out)@ + rel_line(from@, r@),
{
    push_str(out, "Rel(");
    push_str(out, from);
    push_str(out, ", ");
    push_str(out, to_puml_id(r.target.as_str()).as_str());
    push_str(out, ", \"");
    push_str(out, escape_label(r.label.as_str()).as_str());
    push_str(out, "\", \"");
    push_str(out, escape_label(r.protocol.as_str()).as_str());
    push_str(out, "\")\n");
}

fn push_rel_lines(out: &mut String, d: &DirNode)
    ensures
        final(out)@ == old(out)@ + rel_lines(d@),
{
    let from = to_puml_id(d.path.as_str());
    let ghost parts = d@.relationships.map_values(|r: RelationshipView| rel_line(puml_id(d@.path), r));
    let ghost start = out@;
    let mut i: usize = 0;
    while i < d.relationships.len()
        invariant
            0 <= i <= d.relationships@.len(),
            from@ == puml_id(d@.path),
            parts.len() == d.relationships@.len(),
            parts == d@.relationships.map_values(|r: RelationshipView| rel_line(puml_id(d@.path), r)),
            out@ == start + concat_all(parts.take(i as int)),
        decreases d.relationships@.len() - i,
    {
        push_rel_line(out, from.as_str(), &d.relationships[i]);
        proof {
            lemma_concat_step(parts, i as int);
            assert(d@.relationships[i as int] == d.relationships@[i as int]@);
        }
        i += 1;
    }
    assert(parts.take(i as int) =~= parts);
}

fn push_rel_block(out: &mut String, ds: &Vec<&DirNode>)
    ensures
        final(out)@ == old(out)@ + rel_block(views_of_refs(ds@)),
{
    let ghost parts = views_of_refs(ds@).map_values(|d: DirNodeView| rel_lines(d));
    let ghost start = out@;
    let mut i: usize = 0;
    while i < ds.len()
        invariant
            0 <= i <= ds@.len(),
            parts == views_of_refs(ds@).map_values(|d: DirNodeView| rel_lines(d)),
            out@ == start + concat_all(parts.take(i as int)),
        decreases ds@.len() - i,
    {
        push_rel_lines(out, ds[i]);
        proof {
            lemma_concat_step(parts, i as int);
        }
        i += 1;
    }
    assert(parts.take(i as int) =~= parts);
}

/// The group name of a node as characters.
fn group_key_exec(d: &DirNode, dflt: &str) -> (r: Vec<char>)
    ensures
        r@ == group_key(d@, dflt@),
{
    match &d.layer {
        Some(l) => chars_of(l.as_str()),
        None => match &d.parent {
            Some(p) => chars_of(p.as_str()),
            None => chars_of(dflt),
        },
    }
}

pub open spec fn group_views<'a>(keys: Seq<Vec<char>>, members: Seq<Vec<&'a DirNode>>) -> Groups {
    Seq::new(keys.len(), |i: int| (keys[i]@, views_of_refs(members[i]@)))
}

/// Groups the nodes (see `grouped`), as parallel key and member lists.
fn group_dirs<'a>(ds: &Vec<&'a DirNode>, dflt: &str) -> (r: (Vec<Vec<char>>, Vec<Vec<&'a DirNode>>))
    ensures
        r.0@.len() == r.1@.len(),
        group_views(r.0@, r.1@) == grouped(views_of_refs(ds@), dflt@),
{
    let ghost all = views_of_refs(ds@);
    let mut keys: Vec<Vec<char>> = Vec::new();
    let mut members: Vec<Vec<&'a DirNode>> = Vec::new();
    let mut i: usize = 0;
    proof {
        assert(group_views(keys@, members@) =~= grouped(all.take(0), dflt@));
    }
    while i < ds.len()
        invariant
            0 <= i <= ds@.len(),
            all == views_of_refs(ds@),
            keys@.len() == members@.len(),
            group_views(keys@, members@) == grouped(all.take(i as int), dflt@),
        decreases ds@.len() - i,
    {
        let d = ds[i];
        let key = group_key_exec(d, dflt);
        let p = find_slot(&keys, &key);
        let ghost g = group_views(keys@, members@);
        proof {
            let t = all.take(i + 1);
            assert(t.drop_last() =~= all.take(i as int));
            assert(t.last() == d@);
            assert(key_views(keys@) =~= group_keys(g));
            crate::text::lemma_lower_bound(key_views(keys@), key@);
        }
        proof {
            if p < keys@.len() {
                assert(g[p as int].0 == keys@[p as int]@);
            }
        }
        if p < keys.len() && chars_eq(&keys[p], &key) {
            let ghost members0 = members@;
            let mut m = members.remove(p);
            let ghost old_m = views_of_refs(m@);
            assert(old_m == g[p as int].1);
            m.push(d);
            proof {
                assert(views_of_refs(m@) =~= old_m.push(d@));
            }
            members.insert(p, m);
            proof {
                let nv = group_views(keys@, members@);
                let want = g.update(p as int, (key@, g[p as int].1.push(d@)));
                assert forall|j: int| 0 <= j < nv.len() implies nv[j] == want[j] by {
                    if j != p {
                        assert(members@[j] == members0[j]);
                    }
                }
                assert(nv =~= want);
            }
        } else {
            let ghost old_keys = keys@;
            let ghost old_members = members@;
            keys.insert(p, key);
            members.insert(p, vec![d]);
            proof {
                let nv = group_views(keys@, members@);
                let want = g.insert(p as int, (key@, seq![d@]));
                assert forall|j: int| 0 <= j < nv.len() implies nv[j] == want[j] by {
                    if j < p {
                        assert(keys@[j] == old_keys[j]);
                        assert(members@[j] == old_members[j]);
                    } else if j > p {
                        assert(keys@[j] == old_keys[j - 1]);
                        assert(members@[j] == old_members[j - 1]);
                    } else {
                        assert(views_of_refs(members@[j]@) =~= seq![d@]);
                    }
                }
                assert(nv =~= want);
            }
        }
        i += 1;
    }
    proof {
        assert(all.take(i as int) =~= all);
    }
    (keys, members)
}


// ---------------------------------------------------------------------------
// Container diagram
// ---------------------------------------------------------------------------

/// `Container(id, "Title", "pattern", "description")`.
pub open spec fn container_line(d: DirNodeView) -> Seq<char> {
    "Container("@ + puml_id(d.path) + ", \""@ + escaped(title_case(d.name)) + "\", \""@ + escaped(
        or_default(d.pattern, "--"@),
    ) + "\", \""@ + escaped(or_default(d.description, ""@)) + "\")"@
}

pub open spec fn layered_container_line(d: DirNodeView) -> Seq<char> {
    "        "@ + container_line(d) + "\n"@
}

pub open spec fn flat_container_line(d: DirNodeView) -> Seq<char> {
    "    "@ + container_line(d) + "\n"@
}

/// One `Container_Boundary` per group, holding the group's containers.
pub open spec fn layer_block(g: (Seq<char>, Seq<DirNodeView>)) -> Seq<char> {
    "    Container_Boundary("@ + puml_id(g.0) + "_layer, \""@ + title_case(after_last(g.0, '/'))
        + "\") {\n"@ + concat_all(g.1.map_values(|d: DirNodeView| layered_container_line(d)))
        + "    }\n"@
}

/// The containers inside the System boundary: grouped by layer when any
/// container declares one, otherwise a flat list.
pub open spec fn container_defs(cs: Seq<DirNodeView>) -> Seq<char> {
    if exists|i: int| 0 <= i < cs.len() && (#[trigger] cs[i]).layer is Some {
        concat_all(grouped(cs, "Other"@).map_values(|g: (Seq<char>, Seq<DirNodeView>)| layer_block(g)))
    } else {
        concat_all(cs.map_values(|d: DirNodeView| flat_container_line(d)))
    }
}

/// `System_Ext(id, "Title", "description")` and a newline.
pub open spec fn system_ext_line(d: DirNodeView) -> Seq<char> {
    "System_Ext("@ + puml_id(d.path) + ", \""@ + escaped(title_case(d.name)) + "\", \""@ + escaped(
        or_default(d.description, ""@),
    ) + "\")\n"@
}

pub open spec fn container_diagram_spec(root: DirNodeView) -> Seq<char> {
    let cs = at_level(root, C4Level::Container);
    let systems = at_level(root, C4Level::System);
    "@startuml c4-container\n!include https://raw.githubusercontent.com/plantuml-stdlib/C4-PlantUML/master/C4_Container.puml\n\ntitle Container Diagram\n\nSystem_Boundary(sys, \"System\") {\n"@
        + container_defs(cs) + "}\n\n"@ + concat_all(
        systems.map_values(|d: DirNodeView| system_ext_line(d)),
    ) + "\n"@ + rel_block(cs) + "\n@enduml\n"@
}

fn push_container_line(out: &mut String, d: &DirNode)
    ensures
        final(out)@ == old(out)@ + container_line(d@),
{
    push_str(out, "Container(");
    push_str(out, to_puml_id(d.path.as_str()).as_str());
    push_str(out, ", \"");
    push_str(out, escape_label(to_title_case(d.name.as_str()).as_str()).as_str());
    push_str(out, "\", \"");
    push_opt_or(out, &d.pattern, "--");
    push_str(out, "\", \"");
    push_opt_or(out, &d.description, "");
    push_str(out, "\")");
}

fn push_layer_block(out: &mut String, key: &Vec<char>, ds: &Vec<&DirNode>)
    ensures
        final(out)@ == old(out)@ + layer_block((key@, views_of_refs(ds@))),
{
    let ghost parts = views_of_refs(ds@).map_values(|d: DirNodeView| layered_container_line(d));
    let ks = string_from_chars(key.as_slice());
    let tail = string_from_chars(chars_after_last(key, '/').as_slice());
    push_str(out, "    Container_Boundary(");
    push_str(out, to_puml_id(ks.as_str()).as_str());
    push_str(out, "_layer, \"");
    push_str(out, to_title_case(tail.as_str()).as_str());
    push_str(out, "\") {\n");
    let ghost start = out@;
    let mut i: usize = 0;
    while i < ds.len()
        invariant
            0 <= i <= ds@.len(),
            parts == views_of_refs(ds@).map_values(|d: DirNodeView| layered_container_line(d)),
            out@ == start + concat_all(parts.take(i as int)),
        decreases ds@.len() - i,
    {
        push_str(out, "        ");
        push_container_line(out, ds[i]);
        push_str(out, "\n");
        proof {
            lemma_concat_step(parts, i as int);
        }
        i += 1;
    }
    assert(parts.take(i as int) =~= parts);
    push_str(out, "    }\n");
}

fn push_container_defs(out: &mut String, cs: &Vec<&DirNode>)
    ensures
        final(out)@ == old(out)@ + container_defs(views_of_refs(cs@)),
{
    let ghost cv = views_of_refs(cs@);
    let mut any_layer = false;
    let mut i: usize = 0;
    while i < cs.len()
        invariant
            0 <= i <= cs@.len(),
            cv == views_of_refs(cs@),
            any_layer == exists|k: int| 0 <= k < i && (#[trigger] cv[k]).layer is Some,
        decreases cs@.len() - i,
    {
        if cs[i].layer.is_some() {
            assert(cv[i as int].layer is Some);
            any_layer = true;
        }
        i += 1;
    }
    if any_layer {
        let (keys, members) = group_dirs(cs, "Other");
        let ghost g = grouped(cv, "Other"@);
        let ghost parts = g.map_values(|e: (Seq<char>, Seq<DirNodeView>)| layer_block(e));
        let ghost start = out@;
        let mut j: usize = 0;
        while j < keys.len()
            invariant
                0 <= j <= keys@.len(),
                keys@.len() == members@.len(),
                group_views(keys@, members@) == g,
                parts == g.map_values(|e: (Seq<char>, Seq<DirNodeView>)| layer_block(e)),
                out@ == start + concat_all(parts.take(j as int)),
            decreases keys@.len() - j,
        {
            push_layer_block(out, &keys[j], &members[j]);
            proof {
                assert(g[j as int] == (keys@[j as int]@, views_of_refs(members@[j as int]@)));
                lemma_concat_step(parts, j as int);
            }
            j += 1;
        }
        assert(parts.take(j as int) =~= parts);
    } else {
        let ghost parts = cv.map_values(|d: DirNodeView| flat_container_line(d));
        let ghost start = out@;
        let mut j: usize = 0;
        while j < cs.len()
            invariant
                0 <= j <= cs@.len(),
                cv == views_of_refs(cs@),
                parts == cv.map_values(|d: DirNodeView| flat_container_line(d)),
                out@ == start + concat_all(parts.take(j as int)),
            decreases cs@.len() - j,
        {
            push_str(out, "    ");
            push_container_line(out, cs[j]);
            push_str(out, "\n");
            proof {
                lemma_concat_step(parts, j as int);
            }
            j += 1;
        }
        assert(parts.take(j as int) =~= parts);
    }
}

fn system_line_exec(d: &DirNode, external: bool) -> (r: String)
    ensures
        external ==> r@ == system_ext_line(d@),
        !external ==> r@ == system_line(d@),
{
    let mut out = String::new();
    if external {
        push_str(&mut out, "System_Ext(");
    } else {
        push_str(&mut out, "System(");
    }
    push_str(&mut out, to_puml_id(d.path.as_str()).as_str());
    push_str(&mut out, ", \"");
    push_str(&mut out, escape_label(to_title_case(d.name.as_str()).as_str()).as_str());
    push_str(&mut out, "\", \"");
    push_opt_or(&mut out, &d.description, "");
    push_str(&mut out, "\")\n");
    out
}

fn push_system_lines(out: &mut String, ds: &Vec<&DirNode>, external: bool)
    ensures
        external ==> final(out)@ == old(out)@ + concat_all(
            views_of_refs(ds@).map_values(|d: DirNodeView| system_ext_line(d)),
        ),
        !external ==> final(out)@ == old(out)@ + concat_all(
            views_of_refs(ds@).map_values(|d: DirNodeView| system_line(d)),
        ),
{
    let ghost pe = views_of_refs(ds@).map_values(|d: DirNodeView| system_ext_line(d));
    let ghost ps = views_of_refs(ds@).map_values(|d: DirNodeView| system_line(d));
    let ghost start = out@;
    let mut i: usize = 0;
    while i < ds.len()
        invariant
            0 <= i <= ds@.len(),
            pe == views_of_refs(ds@).map_values(|d: DirNodeView| system_ext_line(d)),
            ps == views_of_refs(ds@).map_values(|d: DirNodeView| system_line(d)),
            external ==> out@ == start + concat_all(pe.take(i as int)),
            !external ==> out@ == start + concat_all(ps.take(i as int)),
        decreases ds@.len() - i,
    {
        let line = system_line_exec(ds[i], external);
        push_str(out, line.as_str());
        proof {
            lemma_concat_step(pe, i as int);
            lemma_concat_step(ps, i as int);
        }
        i += 1;
    }
    assert(pe.take(i as int) =~= pe);
    assert(ps.take(i as int) =~= ps);
}

/// `System(id, "Title", "description")` and a newline.
pub open spec fn system_line(d: DirNodeView) -> Seq<char> {
    "System("@ + puml_id(d.path) + ", \""@ + escaped(title_case(d.name)) + "\", \""@ + escaped(
        or_default(d.description, ""@),
    ) + "\")\n"@
}

/// Build the PlantUML C4 container diagram.
///
/// When any container declares a layer, the containers are grouped into nested
/// `Container_Boundary` blocks (one per layer, falling back to the parent, then
/// "Other") inside the `System` boundary; otherwise the System holds a flat
/// container list. `@c4 system` nodes are rendered outside as `System_Ext`.
pub fn container_diagram(ir: &ArchitectureIR) -> (r: String)
    ensures
        r@ == container_diagram_spec(ir.root@),
{
    let containers = dirs_at_level(ir, C4Level::Container);
    let systems = systems_of(ir);
    let mut out = String::new();
    push_str(
        &mut out,
        "@startuml c4-container\n!include https://raw.githubusercontent.com/plantuml-stdlib/C4-PlantUML/master/C4_Container.puml\n\ntitle Container Diagram\n\nSystem_Boundary(sys, \"System\") {\n",
    );
    push_container_defs(&mut out, &containers);
    push_str(&mut out, "}\n\n");
    push_system_lines(&mut out, &systems, true);
    push_str(&mut out, "\n");
    push_rel_block(&mut out, &containers);
    push_str(&mut out, "\n@enduml\n");
    out
}


// ---------------------------------------------------------------------------
// Component diagram
// ---------------------------------------------------------------------------

/// `    Component(id, "name", "pattern", "description")` and a newline.
pub open spec fn component_line(d: DirNodeView) -> Seq<char> {
    "    Component("@ + puml_id(d.path) + ", \""@ + escaped(d.name) + "\", \""@ + escaped(
        or_default(d.pattern, "--"@),
    ) + "\", \""@ + escaped(or_default(d.description, ""@)) + "\")\n"@
}

/// One `Container_Boundary` per group of components.
pub open spec fn component_block(g: (Seq<char>, Seq<DirNodeView>)) -> Seq<char> {
    "Container_Boundary("@ + puml_id(g.0) + "_boundary, \""@ + escaped(
        title_case(after_last(g.0, '/')),
    ) + "\") {\n"@ + concat_all(g.1.map_values(|d: DirNodeView| component_line(d))) + "}\n\n"@
}

pub open spec fn component_diagram_spec(root: DirNodeView) -> Seq<char> {
    let cs = at_level(root, C4Level::Component);
    "@startuml c4-component\n!include https://raw.githubusercontent.com/plantuml-stdlib/C4-PlantUML/master/C4_Component.puml\n\ntitle Component Diagram (GoF Patterns)\n\n"@
        + concat_all(
        grouped(cs, "other"@).map_values(|g: (Seq<char>, Seq<DirNodeView>)| component_block(g)),
    ) + rel_block(cs) + "\n@enduml\n"@
}

fn component_line_exec(d: &DirNode) -> (r: String)
    ensures
        r@ == component_line(d@),
{
    let mut out = String::new();
    push_str(&mut out, "    Component(");
    push_str(&mut out, to_puml_id(d.path.as_str()).as_str());
    push_str(&mut out, ", \"");
    push_str(&mut out, escape_label(d.name.as_str()).as_str());
    push_str(&mut out, "\", \"");
    push_opt_or(&mut out, &d.pattern, "--");
    push_str(&mut out, "\", \"");
    push_opt_or(&mut out, &d.description, "");
    push_str(&mut out, "\")\n");
    out
}

fn push_component_block(out: &mut String, key: &Vec<char>, ds: &Vec<&DirNode>)
    ensures
        final(out)@ == old(out)@ + component_block((key@, views_of_refs(ds@))),
{
    let ghost parts = views_of_refs(ds@).map_values(|d: DirNodeView| component_line(d));
    let ks = string_from_chars(key.as_slice());
    let tail = string_from_chars(chars_after_last(key, '/').as_slice());
    push_str(out, "Container_Boundary(");
    push_str(out, to_puml_id(ks.as_str()).as_str());
    push_str(out, "_boundary, \"");
    push_str(out, escape_label(to_title_case(tail.as_str()).as_str()).as_str());
    push_str(out, "\") {\n");
    let ghost start = out@;
    let mut i: usize = 0;
    while i < ds.len()
        invariant
            0 <= i <= ds@.len(),
            parts == views_of_refs(ds@).map_values(|d: DirNodeView| component_line(d)),
            out@ == start + concat_all(parts.take(i as int)),
        decreases ds@.len() - i,
    {
        let line = component_line_exec(ds[i]);
        push_str(out, line.as_str());
        proof {
            lemma_concat_step(parts, i as int);
        }
        i += 1;
    }
    assert(parts.take(i as int) =~= parts);
    push_str(out, "}\n\n");
}

/// Build the PlantUML C4 component diagram: components grouped by layer,
/// else by parent, else "other", one boundary per group in name order,
/// followed by the components' relationships.
pub fn component_diagram(ir: &ArchitectureIR) -> (r: String)
    ensures
        r@ == component_diagram_spec(ir.root@),
{
    let components = dirs_at_level(ir, C4Level::Component);
    let mut out = String::new();
    push_str(
        &mut out,
        "@startuml c4-component\n!include https://raw.githubusercontent.com/plantuml-stdlib/C4-PlantUML/master/C4_Component.puml\n\ntitle Component Diagram (GoF Patterns)\n\n",
    );
    let (keys, members) = group_dirs(&components, "other");
    let ghost g = grouped(views_of_refs(components@), "other"@);
    let ghost parts = g.map_values(|e: (Seq<char>, Seq<DirNodeView>)| component_block(e));
    let ghost start = out@;
    let mut j: usize = 0;
    while j < keys.len()
        invariant
            0 <= j <= keys@.len(),
            keys@.len() == members@.len(),
            group_views(keys@, members@) == g,
            parts == g.map_values(|e: (Seq<char>, Seq<DirNodeView>)| component_block(e)),
            out@ == start + concat_all(parts.take(j as int)),
        decreases keys@.len() - j,
    {
        push_component_block(&mut out, &keys[j], &members[j]);
        proof {
            assert(g[j as int] == (keys@[j as int]@, views_of_refs(members@[j as int]@)));
            lemma_concat_step(parts, j as int);
        }
        j += 1;
    }
    assert(parts.take(j as int) =~= parts);
    push_rel_block(&mut out, &components);
    push_str(&mut out, "\n@enduml\n");
    out
}

// ---------------------------------------------------------------------------
// Context diagram
// ---------------------------------------------------------------------------

pub open spec fn context_diagram_spec(root: DirNodeView) -> Option<Seq<char>> {
    let systems = at_level(root, C4Level::System);
    if systems.len() == 0 {
        None
    } else {
        Some(
            "@startuml c4-context\n!include https://raw.githubusercontent.com/plantuml-stdlib/C4-PlantUML/master/C4_Context.puml\n\ntitle System Context Diagram\n\n"@
                + concat_all(systems.map_values(|d: DirNodeView| system_line(d))) + "\n"@
                + rel_block(systems) + "\n@enduml\n"@,
        )
    }
}

/// Build the PlantUML C4 system-context diagram from `@c4 system` nodes: one
/// `System(...)` per system node and their relationships. Nothing when no
/// system-level node exists.
pub fn context_diagram(ir: &ArchitectureIR) -> (r: Option<String>)
    ensures
        match r {
            Some(s) => context_diagram_spec(ir.root@) == Some(s@),
            None => context_diagram_spec(ir.root@) is None,
        },
{
    let systems = systems_of(ir);
    if systems.len() == 0 {
        return None;
    }
    let mut out = String::new();
    push_str(
        &mut out,
        "@startuml c4-context\n!include https://raw.githubusercontent.com/plantuml-stdlib/C4-PlantUML/master/C4_Context.puml\n\ntitle System Context Diagram\n\n",
    );
    push_system_lines(&mut out, &systems, false);
    push_str(&mut out, "\n");
    push_rel_block(&mut out, &systems);
    push_str(&mut out, "\n@enduml\n");
    Some(out)
}

// ---------------------------------------------------------------------------
// Code diagram
// ---------------------------------------------------------------------------

/// The annotated nodes that declare code elements.
pub open spec fn code_owners(root: DirNodeView) -> Seq<DirNodeView> {
    annotated_preorder(root).filter(|d: DirNodeView| d.code_elements.len() > 0)
}

/// The identifier of a code element: `<owner path>__<name>` as a PlantUML id.
pub open spec fn code_id(owner_path: Seq<char>, name: Seq<char>) -> Seq<char> {
    puml_id(owner_path + "__"@ + name)
}

/// The (name, id) entries of one owner's code elements.
pub open spec fn owner_entries(o: DirNodeView) -> Seq<(Seq<char>, Seq<char>)> {
    o.code_elements.map_values(|e: CodeElementView| (e.name, code_id(o.path, e.name)))
}

/// All (name, id) entries, owners and elements in order.
pub open spec fn code_entries(owners: Seq<DirNodeView>) -> Seq<(Seq<char>, Seq<char>)>
    decreases owners.len(),
{
    if owners.len() == 0 {
        seq![]
    } else {
        code_entries(owners.drop_last()) + owner_entries(owners.last())
    }
}

/// The id of the last entry named `target` (a later entry of the same name
/// replaces an earlier one).
pub open spec fn last_entry(entries: Seq<(Seq<char>, Seq<char>)>, target: Seq<char>) -> Option<
    Seq<char>,
>
    decreases entries.len(),
{
    if entries.len() == 0 {
        None
    } else if entries.last().0 == target {
        Some(entries.last().1)
    } else {
        last_entry(entries.drop_last(), target)
    }
}

/// Where an arrow to `target` lands: a code element of that name, else the
/// target as an identifier.
pub open spec fn resolve_target(entries: Seq<(Seq<char>, Seq<char>)>, target: Seq<char>) -> Seq<
    char,
> {
    match last_entry(entries, target) {
        Some(id) => id,
        None => puml_id(target),
    }
}

pub open spec fn element_line(o: DirNodeView, e: CodeElementView) -> Seq<char> {
    "    Component("@ + code_id(o.path, e.name) + ", \""@ + escaped(e.name) + "\", \""@ + escaped(
        e.kind,
    ) + "\", \""@ + escaped(or_default(e.description, ""@)) + "\")\n"@
}

pub open spec fn owner_block(o: DirNodeView) -> Seq<char> {
    "Container_Boundary("@ + puml_id(o.path) + "_code, \""@ + escaped(o.name) + "\") {\n"@
        + concat_all(o.code_elements.map_values(|e: CodeElementView| element_line(o, e)))
        + "}\n\n"@
}

pub open spec fn element_rel(
    entries: Seq<(Seq<char>, Seq<char>)>,
    o: DirNodeView,
    e: CodeElementView,
    r: RelationshipView,
) -> Seq<char> {
    "Rel("@ + code_id(o.path, e.name) + ", "@ + resolve_target(entries, r.target) + ", \""@
        + escaped(r.label) + "\", \""@ + escaped(r.protocol) + "\")\n"@
}

pub open spec fn element_rels(
    entries: Seq<(Seq<char>, Seq<char>)>,
    o: DirNodeView,
    e: CodeElementView,
) -> Seq<char> {
    concat_all(e.relationships.map_values(|r: RelationshipView| element_rel(entries, o, e, r)))
}

pub open spec fn owner_rels(entries: Seq<(Seq<char>, Seq<char>)>, o: DirNodeView) -> Seq<char> {
    concat_all(o.code_elements.map_values(|e: CodeElementView| element_rels(entries, o, e)))
}

pub open spec fn code_diagram_spec(root: DirNodeView) -> Option<Seq<char>> {
    let owners = code_owners(root);
    let entries = code_entries(owners);
    if owners.len() == 0 {
        None
    } else {
        Some(
            "@startuml c4-code\n!include https://raw.githubusercontent.com/plantuml-stdlib/C4-PlantUML/master/C4_Component.puml\n\ntitle Code Diagram (@c4 code elements)\n\n"@
                + concat_all(owners.map_values(|o: DirNodeView| owner_block(o))) + concat_all(
                owners.map_values(|o: DirNodeView| owner_rels(entries, o)),
            ) + "\n@enduml\n"@,
        )
    }
}

fn element_id(owner: &DirNode, el: &CodeElement) -> (r: String)
    ensures
        r@ == code_id(owner@.path, el@.name),
{
    let mut joined = String::new();
    push_str(&mut joined, owner.path.as_str());
    push_str(&mut joined, "__");
    push_str(&mut joined, el.name.as_str());
    to_puml_id(joined.as_str())
}

pub open spec fn entry_views(names: Seq<Vec<char>>, ids: Seq<String>) -> Seq<(Seq<char>, Seq<char>)> {
    Seq::new(names.len(), |i: int| (names[i]@, ids[i]@))
}

fn lookup_target(names: &Vec<Vec<char>>, ids: &Vec<String>, target: &str) -> (r: String)
    requires
        names@.len() == ids@.len(),
    ensures
        r@ == resolve_target(entry_views(names@, ids@), target@),
{
    let t = chars_of(target);
    let ghost ev = entry_views(names@, ids@);
    let mut j: usize = names.len();
    assert(ev.take(j as int) =~= ev);
    while j > 0
        invariant
            0 <= j <= names@.len(),
            names@.len() == ids@.len(),
            ev == entry_views(names@, ids@),
            t@ == target@,
            last_entry(ev, t@) == last_entry(ev.take(j as int), t@),
        decreases j,
    {
        proof {
            assert(ev.take(j as int).last() == ev[j - 1]);
            assert(ev.take(j as int).drop_last() =~= ev.take(j - 1));
        }
        if chars_eq(&names[j - 1], &t) {
            assert(ev[j - 1] == (names@[j - 1]@, ids@[j - 1]@));
            let found = ids[j - 1].clone();
            assert(found@ == ids@[j - 1]@);
            assert(last_entry(ev.take(j as int), t@) == Some(ids@[j - 1]@));
            return found;
        }
        j -= 1;
    }
    proof {
        assert(ev.take(0) =~= Seq::<(Seq<char>, Seq<char>)>::empty());
    }
    to_puml_id(target)
}

fn element_line_exec(el: &CodeElement, id: &String) -> (r: String)
    ensures
        forall|o: DirNodeView| id@ == code_id(o.path, el@.name) ==> r@ == element_line(o, el@),
{
    let mut out = String::new();
    push_str(&mut out, "    Component(");
    push_str(&mut out, id.as_str());
    push_str(&mut out, ", \"");
    push_str(&mut out, escape_label(el.name.as_str()).as_str());
    push_str(&mut out, "\", \"");
    push_str(&mut out, escape_label(el.kind.as_str()).as_str());
    push_str(&mut out, "\", \"");
    push_opt_or(&mut out, &el.description, "");
    push_str(&mut out, "\")\n");
    out
}

fn push_element_rels(
    rels: &mut String,
    names: &Vec<Vec<char>>,
    ids: &Vec<String>,
    o: &DirNode,
    el: &CodeElement,
    id: &String,
)
    requires
        names@.len() == ids@.len(),
        id@ == code_id(o@.path, el@.name),
    ensures
        final(rels)@ == old(rels)@ + element_rels(entry_views(names@, ids@), o@, el@),
{
    let ghost entries = entry_views(names@, ids@);
    let ghost r1 = rels@;
    let ghost xparts = el@.relationships.map_values(|r: RelationshipView| element_rel(entries, o@, el@, r));
    let mut q: usize = 0;
    while q < el.relationships.len()
        invariant
            0 <= q <= el.relationships@.len(),
            names@.len() == ids@.len(),
            entries == entry_views(names@, ids@),
            id@ == code_id(o@.path, el@.name),
            xparts == el@.relationships.map_values(|r: RelationshipView| element_rel(entries, o@, el@, r)),
            rels@ == r1 + concat_all(xparts.take(q as int)),
        decreases el.relationships@.len() - q,
    {
        let rel = &el.relationships[q];
        let to_id = lookup_target(names, ids, rel.target.as_str());
        push_str(rels, "Rel(");
        push_str(rels, id.as_str());
        push_str(rels, ", ");
        push_str(rels, to_id.as_str());
        push_str(rels, ", \"");
        push_str(rels, escape_label(rel.label.as_str()).as_str());
        push_str(rels, "\", \"");
        push_str(rels, escape_label(rel.protocol.as_str()).as_str());
        push_str(rels, "\")\n");
        proof {
            assert(el@.relationships[q as int] == rel@);
            lemma_concat_step(xparts, q as int);
        }
        q += 1;
    }
    assert(xparts.take(q as int) =~= xparts);
}

fn push_owner(
    boundary: &mut String,
    rels: &mut String,
    names: &Vec<Vec<char>>,
    ids: &Vec<String>,
    o: &DirNode,
)
    requires
        names@.len() == ids@.len(),
    ensures
        final(boundary)@ == old(boundary)@ + owner_block(o@),
        final(rels)@ == old(rels)@ + owner_rels(entry_views(names@, ids@), o@),
{
    let ghost entries = entry_views(names@, ids@);
    let ghost r0 = rels@;
    let ghost lparts = o@.code_elements.map_values(|e: CodeElementView| element_line(o@, e));
    let ghost eparts = o@.code_elements.map_values(|e: CodeElementView| element_rels(entries, o@, e));
    push_str(boundary, "Container_Boundary(");
    push_str(boundary, to_puml_id(o.path.as_str()).as_str());
    push_str(boundary, "_code, \"");
    push_str(boundary, escape_label(o.name.as_str()).as_str());
    push_str(boundary, "\") {\n");
    let ghost b1 = boundary@;
    let mut e: usize = 0;
    while e < o.code_elements.len()
        invariant
            0 <= e <= o.code_elements@.len(),
            names@.len() == ids@.len(),
            entries == entry_views(names@, ids@),
            lparts == o@.code_elements.map_values(|e: CodeElementView| element_line(o@, e)),
            eparts == o@.code_elements.map_values(|e: CodeElementView| element_rels(entries, o@, e)),
            boundary@ == b1 + concat_all(lparts.take(e as int)),
            rels@ == r0 + concat_all(eparts.take(e as int)),
        decreases o.code_elements@.len() - e,
    {
        let el = &o.code_elements[e];
        let id = element_id(o, el);
        proof {
            assert(o@.code_elements[e as int] == el@);
        }
        let line = element_line_exec(el, &id);
        push_str(boundary, line.as_str());
        push_element_rels(rels, names, ids, o, el, &id);
        proof {
            lemma_concat_step(lparts, e as int);
            lemma_concat_step(eparts, e as int);
        }
        e += 1;
    }
    push_str(boundary, "}\n\n");
    proof {
        assert(lparts.take(e as int) =~= lparts);
        assert(eparts.take(e as int) =~= eparts);
    }
}

/// Build the PlantUML C4 code diagram from `@c4 code` elements: each annotated
/// node with code elements becomes a `Container_Boundary` holding one
/// `Component` per element, and their relationships become `Rel` arrows that
/// land on a defined element of the target's name when there is one. Nothing
/// when no code element exists.
pub fn code_diagram(ir: &ArchitectureIR) -> (r: Option<String>)
    ensures
        match r {
            Some(s) => code_diagram_spec(ir.root@) == Some(s@),
            None => code_diagram_spec(ir.root@) is None,
        },
{
    let all = ir.annotated_dirs();
    let ghost pred = |d: DirNodeView| d.code_elements.len() > 0;
    let mut owners: Vec<&DirNode> = Vec::new();
    let mut i: usize = 0;
    while i < all.len()
        invariant
            0 <= i <= all@.len(),
            views_of_refs(all@) == annotated_preorder(ir.root@),
            pred == (|d: DirNodeView| d.code_elements.len() > 0),
            views_of_refs(owners@) == views_of_refs(all@).take(i as int).filter(pred),
        decreases all@.len() - i,
    {
        let d = all[i];
        proof {
            let t = views_of_refs(all@).take(i + 1);
            assert(t.drop_last() =~= views_of_refs(all@).take(i as int));
            assert(t.last() == d@);
            reveal(Seq::filter);
        }
        if d.code_elements.len() > 0 {
            owners.push(d);
            proof {
                assert(views_of_refs(owners@) =~= views_of_refs(owners@).drop_last().push(d@));
            }
        }
        i += 1;
    }
    proof {
        assert(views_of_refs(all@).take(i as int) =~= views_of_refs(all@));
    }
    if owners.len() == 0 {
        return None;
    }
    let ghost ov = views_of_refs(owners@);

    // Name → id entries, in order.
    let mut names: Vec<Vec<char>> = Vec::new();
    let mut ids: Vec<String> = Vec::new();
    let mut k: usize = 0;
    while k < owners.len()
        invariant
            0 <= k <= owners@.len(),
            ov == views_of_refs(owners@),
            names@.len() == ids@.len(),
            entry_views(names@, ids@) == code_entries(ov.take(k as int)),
        decreases owners@.len() - k,
    {
        let o = owners[k];
        let ghost before = entry_views(names@, ids@);
        let mut e: usize = 0;
        while e < o.code_elements.len()
            invariant
                0 <= e <= o.code_elements@.len(),
                names@.len() == ids@.len(),
                before.len() <= names@.len(),
                entry_views(names@, ids@) == before + owner_entries(o@).take(e as int),
            decreases o.code_elements@.len() - e,
        {
            let el = &o.code_elements[e];
            let ghost prev = entry_views(names@, ids@);
            names.push(chars_of(el.name.as_str()));
            ids.push(element_id(o, el));
            proof {
                assert(o@.code_elements[e as int] == el@);
                assert(entry_views(names@, ids@) =~= prev.push((el@.name, code_id(o@.path, el@.name))));
                assert(owner_entries(o@).take(e + 1) =~= owner_entries(o@).take(e as int).push(
                    (el@.name, code_id(o@.path, el@.name)),
                ));
            }
            e += 1;
        }
        proof {
            assert(owner_entries(o@).take(e as int) =~= owner_entries(o@));
            let t = ov.take(k + 1);
            assert(t.drop_last() =~= ov.take(k as int));
            assert(t.last() == o@);
        }
        k += 1;
    }
    proof {
        assert(ov.take(k as int) =~= ov);
    }
    let ghost entries = entry_views(names@, ids@);

    let mut boundary = String::new();
    let mut rels = String::new();
    let ghost bparts = ov.map_values(|o: DirNodeView| owner_block(o));
    let ghost rparts = ov.map_values(|o: DirNodeView| owner_rels(entries, o));
    let mut k: usize = 0;
    while k < owners.len()
        invariant
            0 <= k <= owners@.len(),
            ov == views_of_refs(owners@),
            names@.len() == ids@.len(),
            entries == entry_views(names@, ids@),
            bparts == ov.map_values(|o: DirNodeView| owner_block(o)),
            rparts == ov.map_values(|o: DirNodeView| owner_rels(entries, o)),
            boundary@ == concat_all(bparts.take(k as int)),
            rels@ == concat_all(rparts.take(k as int)),
        decreases owners@.len() - k,
    {
        push_owner(&mut boundary, &mut rels, &names, &ids, owners[k]);
        proof {
            lemma_concat_step(bparts, k as int);
            lemma_concat_step(rparts, k as int);
        }
        k += 1;
    }
    proof {
        assert(bparts.take(k as int) =~= bparts);
        assert(rparts.take(k as int) =~= rparts);
    }
    let mut out = String::new();
    push_str(
        &mut out,
        "@startuml c4-code\n!include https://raw.githubusercontent.com/plantuml-stdlib/C4-PlantUML/master/C4_Component.puml\n\ntitle Code Diagram (@c4 code elements)\n\n",
    );
    push_str(&mut out, boundary.as_str());
    push_str(&mut out, rels.as_str());
    push_str(&mut out, "\n@enduml\n");
    Some(out)
}


// ---------------------------------------------------------------------------
// Laws
// ---------------------------------------------------------------------------

/// An escaped label holds no double quote and no line break, so it cannot end
/// a PlantUML string early; it has as many characters as the input.
pub proof fn lemma_escaped_is_safe(s: Seq<char>)
    ensures
        escaped(s).len() == s.len(),
        forall|i: int|
            0 <= i < s.len() ==> #[trigger] escaped(s)[i] != '"' && escaped(s)[i] != '\n' && escaped(
                s,
            )[i] != '\r',
{
}

/// A PlantUML identifier holds no `.`, `/` or `-`.
pub proof fn lemma_puml_id_is_plain(s: Seq<char>)
    ensures
        puml_id(s).len() == s.len(),
        forall|i: int|
            0 <= i < s.len() ==> #[trigger] puml_id(s)[i] != '.' && puml_id(s)[i] != '/' && puml_id(
                s,
            )[i] != '-',
{
}

/// Some owner declares a code element named `t`.
pub open spec fn declares_element(owners: Seq<DirNodeView>, t: Seq<char>) -> bool {
    exists|i: int, j: int|
        0 <= i < owners.len() && 0 <= j < owners[i].code_elements.len() && (#[trigger] owners[i].code_elements[j]).name
            == t
}

/// `id` is the id of an element named `t` that some owner declares.
pub open spec fn declared_id(owners: Seq<DirNodeView>, t: Seq<char>, id: Seq<char>) -> bool {
    exists|i: int, j: int|
        0 <= i < owners.len() && 0 <= j < owners[i].code_elements.len() && (#[trigger] owners[i].code_elements[j]).name
            == t && id == code_id(owners[i].path, t)
}

proof fn lemma_entries_form(owners: Seq<DirNodeView>)
    ensures
        forall|k: int|
            0 <= k < code_entries(owners).len() ==> declared_id(
                owners,
                (#[trigger] code_entries(owners)[k]).0,
                code_entries(owners)[k].1,
            ),
        forall|i: int, j: int|
            0 <= i < owners.len() && 0 <= j < owners[i].code_elements.len() ==> code_entries(owners).contains(
                (
                    (#[trigger] owners[i].code_elements[j]).name,
                    code_id(owners[i].path, owners[i].code_elements[j].name),
                ),
            ),
    decreases owners.len(),
{
    if owners.len() > 0 {
        let dl = owners.drop_last();
        let o = owners.last();
        lemma_entries_form(dl);
        let a = code_entries(dl);
        let b = owner_entries(o);
        assert(code_entries(owners) == a + b);
        assert forall|k: int| 0 <= k < code_entries(owners).len() implies declared_id(
            owners,
            (#[trigger] code_entries(owners)[k]).0,
            code_entries(owners)[k].1,
        ) by {
            if k < a.len() {
                assert(code_entries(owners)[k] == a[k]);
                let (i, j) = choose|i: int, j: int|
                    0 <= i < dl.len() && 0 <= j < dl[i].code_elements.len() && (#[trigger] dl[i].code_elements[j]).name
                        == a[k].0 && a[k].1 == code_id(dl[i].path, a[k].0);
                assert(owners[i] == dl[i]);
                assert(owners[i].code_elements[j] == dl[i].code_elements[j]);
            } else {
                let j = k - a.len();
                assert(code_entries(owners)[k] == b[j]);
                let i = owners.len() - 1;
                assert(owners[i] == o);
                assert(owners[i].code_elements[j] == o.code_elements[j]);
            }
        }
        assert forall|i: int, j: int|
            0 <= i < owners.len() && 0 <= j < owners[i].code_elements.len() implies code_entries(owners).contains(
            (
                (#[trigger] owners[i].code_elements[j]).name,
                code_id(owners[i].path, owners[i].code_elements[j].name),
            ),
        ) by {
            let x = (owners[i].code_elements[j].name, code_id(owners[i].path, owners[i].code_elements[j].name));
            if i < owners.len() - 1 {
                assert(owners[i] == dl[i]);
                assert(dl[i].code_elements[j] == owners[i].code_elements[j]);
                assert(a.contains(x));
                let k = choose|k: int| 0 <= k < a.len() && a[k] == x;
                assert((a + b)[k] == x);
            } else {
                assert(owners[i] == o);
                assert(b[j] == x);
                assert((a + b)[a.len() + j] == x);
            }
        }
    }
}

proof fn lemma_last_entry_found(entries: Seq<(Seq<char>, Seq<char>)>, t: Seq<char>, id0: Seq<char>)
    requires
        entries.contains((t, id0)),
    ensures
        last_entry(entries, t) matches Some(id) && entries.contains((t, id)),
    decreases entries.len(),
{
    if entries.last().0 != t {
        let k = choose|k: int| 0 <= k < entries.len() && entries[k] == (t, id0);
        assert(k < entries.len() - 1);
        assert(entries.drop_last()[k] == (t, id0));
        lemma_last_entry_found(entries.drop_last(), t, id0);
        let id = last_entry(entries.drop_last(), t)->0;
        let k2 = choose|k2: int| 0 <= k2 < entries.drop_last().len() && entries.drop_last()[k2] == (t, id);
        assert(entries[k2] == (t, id));
    } else {
        assert(entries[entries.len() - 1] == (t, entries.last().1));
    }
}

/// An arrow lands on a declared element: when some owner in the code diagram
/// declares a code element named `t`, every arrow to `t` points at the id of
/// a declared element named `t` (`<owner path>__t`), never at a bare `t` node.
pub proof fn lemma_arrow_lands_on_declared(root: DirNodeView, t: Seq<char>)
    requires
        declares_element(code_owners(root), t),
    ensures
        declared_id(code_owners(root), t, resolve_target(code_entries(code_owners(root)), t)),
        forall|o: DirNodeView, e: CodeElementView, r: RelationshipView|
            r.target == t ==> #[trigger] element_rel(code_entries(code_owners(root)), o, e, r) == "Rel("@ + code_id(
                o.path,
                e.name,
            ) + ", "@ + resolve_target(code_entries(code_owners(root)), t) + ", \""@ + escaped(r.label) + "\", \""@
                + escaped(r.protocol) + "\")\n"@,
{
    let owners = code_owners(root);
    let entries = code_entries(owners);
    lemma_entries_form(owners);
    let (i, j) = choose|i: int, j: int|
        0 <= i < owners.len() && 0 <= j < owners[i].code_elements.len() && (#[trigger] owners[i].code_elements[j]).name
            == t;
    assert(entries.contains((owners[i].code_elements[j].name, code_id(owners[i].path, owners[i].code_elements[j].name))));
    lemma_last_entry_found(entries, t, code_id(owners[i].path, t));
    let id = last_entry(entries, t)->0;
    let k = choose|k: int| 0 <= k < entries.len() && entries[k] == (t, id);
    assert(declared_id(owners, entries[k].0, entries[k].1));
}

/// The arrow line of the code diagram from element id `from` to id `to`.
pub open spec fn code_rel_line(from: Seq<char>, to: Seq<char>, r: RelationshipView) -> Seq<char> {
    "Rel("@ + from + ", "@ + to + ", \""@ + escaped(r.label) + "\", \""@ + escaped(r.protocol) + "\")\n"@
}

proof fn lemma_map_contains<A, B>(s: Seq<A>, f: spec_fn(A) -> B, x: A)
    requires
        s.contains(x),
    ensures
        s.map_values(f).contains(f(x)),
{
    let k = choose|k: int| 0 <= k < s.len() && s[k] == x;
    assert(s.map_values(f)[k] == f(x));
}

/// Every use of a declared code element is drawn onto it: for each annotated
/// directory `d` with a code element `e` that uses `r.target`, where some
/// annotated directory declares a code element of that name, the code diagram
/// holds an arrow from `d`'s element `e` to the id `<owner path>__<name>` of
/// such a declared element, with the use's label and protocol.
pub proof fn lemma_code_diagram_arrow(root: DirNodeView, d: DirNodeView, e: CodeElementView, r: RelationshipView)
    requires
        annotated_preorder(root).contains(d),
        d.code_elements.contains(e),
        e.relationships.contains(r),
        declares_element(annotated_preorder(root), r.target),
    ensures
        code_diagram_spec(root) is Some,
        exists|id: Seq<char>|
            #[trigger] declared_id(annotated_preorder(root), r.target, id) && infix_of(
                code_rel_line(code_id(d.path, e.name), id, r),
                code_diagram_spec(root)->0,
            ),
{
    let all = annotated_preorder(root);
    let pred = |x: DirNodeView| x.code_elements.len() > 0;
    let owners = code_owners(root);
    let entries = code_entries(owners);
    let t = r.target;
    assert(owners == all.filter(pred));
    // Declared in the annotated directories, so declared among the owners.
    let (i0, j0) = choose|i: int, j: int|
        0 <= i < all.len() && 0 <= j < all[i].code_elements.len() && (#[trigger] all[i].code_elements[j]).name == t;
    all.lemma_filter_contains(pred, i0);
    let k0 = choose|k: int| 0 <= k < owners.len() && owners[k] == all[i0];
    assert(owners[k0].code_elements[j0].name == t);
    assert(declares_element(owners, t));
    lemma_arrow_lands_on_declared(root, t);
    let id = resolve_target(entries, t);
    let (i1, j1) = choose|i: int, j: int|
        0 <= i < owners.len() && 0 <= j < owners[i].code_elements.len() && (#[trigger] owners[i].code_elements[j]).name
            == t && id == code_id(owners[i].path, t);
    assert(owners.contains(owners[i1]));
    all.lemma_filter_contains_rev(pred, owners[i1]);
    let i2 = choose|i: int| 0 <= i < all.len() && all[i] == owners[i1];
    assert(all[i2].code_elements[j1].name == t);
    assert(declared_id(all, t, id));
    // The arrow line stands in the output.
    let di = choose|i: int| 0 <= i < all.len() && all[i] == d;
    let ej = choose|j: int| 0 <= j < d.code_elements.len() && d.code_elements[j] == e;
    assert(d.code_elements.len() > 0);
    all.lemma_filter_contains(pred, di);
    let line = code_rel_line(code_id(d.path, e.name), id, r);
    assert(element_rel(entries, d, e, r) == line);
    lemma_map_contains(e.relationships, |x: RelationshipView| element_rel(entries, d, e, x), r);
    crate::text::lemma_concat_infix(e.relationships.map_values(|x: RelationshipView| element_rel(entries, d, e, x)), line);
    lemma_map_contains(d.code_elements, |x: CodeElementView| element_rels(entries, d, x), e);
    crate::text::lemma_concat_infix(d.code_elements.map_values(|x: CodeElementView| element_rels(entries, d, x)), element_rels(entries, d, e));
    crate::text::lemma_infix_trans(line, element_rels(entries, d, e), owner_rels(entries, d));
    lemma_map_contains(owners, |o: DirNodeView| owner_rels(entries, o), d);
    let rels = owners.map_values(|o: DirNodeView| owner_rels(entries, o));
    crate::text::lemma_concat_infix(rels, owner_rels(entries, d));
    crate::text::lemma_infix_trans(line, owner_rels(entries, d), concat_all(rels));
    let head = "@startuml c4-code\n!include https://raw.githubusercontent.com/plantuml-stdlib/C4-PlantUML/master/C4_Component.puml\n\ntitle Code Diagram (@c4 code elements)\n\n"@
        + concat_all(owners.map_values(|o: DirNodeView| owner_block(o)));
    crate::text::lemma_infix_extend(line, concat_all(rels), head, "\n@enduml\n"@);
    assert(owners.len() > 0);
    assert(code_diagram_spec(root)->0 == head + concat_all(rels) + "\n@enduml\n"@);
    assert(declared_id(all, t, id) && infix_of(line, code_diagram_spec(root)->0));
}

} // verus!
