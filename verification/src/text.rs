//! Character-level text utilities shared by the renderers and parsers.
//!
//! Strings are modelled by their views (`Seq<char>`); every helper here states
//! its result over those views.
use vstd::prelude::*;

verus! {

broadcast use vstd::string::group_string_axioms;

// ---------------------------------------------------------------------------
// Building and reading strings
// ---------------------------------------------------------------------------

/// Appends one character to a string; calls std's `String::push`, which the
/// std documentation describes as appending the given `char` to the end.
#[verifier::external_body]
pub(crate) fn push_char(s: &mut String, c: char)
    ensures
        final(s)@ == old(s)@.push(c),
{
    s.push(c);
}

/// The characters of `s`, in order.
pub fn chars_of(s: &str) -> (r: Vec<char>)
    ensures
        r@ == s@,
{
    let mut r: Vec<char> = Vec::new();
    for c in it: s.chars()
        invariant
            r@ == it.seq().take(it.index() as int),
            it.seq() == s@,
    {
        r.push(c);
    }
    r
}

/// A string holding exactly the characters of `v`.
pub fn string_from_chars(v: &[char]) -> (r: String)
    ensures
        r@ == v@,
{
    let mut r = String::new();
    let mut i: usize = 0;
    while i < v.len()
        invariant
            0 <= i <= v@.len(),
            r@ == v@.take(i as int),
        decreases v@.len() - i,
    {
        push_char(&mut r, v[i]);
        assert(v@.take(i + 1) =~= v@.take(i as int).push(v@[i as int]));
        i += 1;
    }
    assert(v@.take(i as int) =~= v@);
    r
}

/// A fresh string with the same characters as `s`.
pub fn owned(s: &str) -> (r: String)
    ensures
        r@ == s@,
{
    s.to_string()
}

/// Appends `t` to `s`.
pub fn push_str(s: &mut String, t: &str)
    ensures
        final(s)@ == old(s)@ + t@,
{
    s.append(t);
}

/// Character-sequence equality of two vectors.
pub fn chars_eq(a: &Vec<char>, b: &Vec<char>) -> (r: bool)
    ensures
        r == (a@ == b@),
{
    if a.len() != b.len() {
        return false;
    }
    let mut i: usize = 0;
    while i < a.len()
        invariant
            a@.len() == b@.len(),
            0 <= i <= a@.len(),
            forall|k: int| 0 <= k < i ==> a@[k] == b@[k],
        decreases a@.len() - i,
    {
        if a[i] != b[i] {
            return false;
        }
        i += 1;
    }
    assert(a@ =~= b@);
    true
}

/// Equality of two strings by their characters.
pub fn str_eq(a: &str, b: &str) -> (r: bool)
    ensures
        r == (a@ == b@),
{
    let va = chars_of(a);
    let vb = chars_of(b);
    chars_eq(&va, &vb)
}

// ---------------------------------------------------------------------------
// Lexicographic order (the order of `String`'s `Ord`: UTF-8 byte order is
// code-point order, and a proper prefix sorts first)
// ---------------------------------------------------------------------------

pub open spec fn seq_lt(a: Seq<char>, b: Seq<char>) -> bool
    decreases a.len(),
{
    if a.len() == 0 {
        b.len() > 0
    } else if b.len() == 0 {
        false
    } else if a[0] != b[0] {
        (a[0] as int) < (b[0] as int)
    } else {
        seq_lt(a.drop_first(), b.drop_first())
    }
}

pub proof fn lemma_lt_irreflexive(a: Seq<char>)
    ensures
        !seq_lt(a, a),
    decreases a.len(),
{
    if a.len() > 0 {
        lemma_lt_irreflexive(a.drop_first());
    }
}

pub proof fn lemma_lt_transitive(a: Seq<char>, b: Seq<char>, c: Seq<char>)
    requires
        seq_lt(a, b),
        seq_lt(b, c),
    ensures
        seq_lt(a, c),
    decreases a.len(),
{
    if a.len() > 0 && b.len() > 0 && c.len() > 0 {
        if a[0] == b[0] && b[0] == c[0] {
            lemma_lt_transitive(a.drop_first(), b.drop_first(), c.drop_first());
        }
    }
}

pub proof fn lemma_lt_total(a: Seq<char>, b: Seq<char>)
    ensures
        a == b || seq_lt(a, b) || seq_lt(b, a),
    decreases a.len(),
{
    if a.len() > 0 && b.len() > 0 {
        if a[0] == b[0] {
            lemma_lt_total(a.drop_first(), b.drop_first());
            if a.drop_first() == b.drop_first() {
                assert(a =~= seq![a[0]] + a.drop_first());
                assert(b =~= seq![b[0]] + b.drop_first());
            }
        } else {
            assert((a[0] as int) != (b[0] as int));
        }
    } else if a.len() == 0 && b.len() == 0 {
        assert(a =~= b);
    }
}

pub proof fn lemma_lt_asymmetric(a: Seq<char>, b: Seq<char>)
    requires
        seq_lt(a, b),
    ensures
        !seq_lt(b, a),
{
    if seq_lt(b, a) {
        lemma_lt_transitive(a, b, a);
        lemma_lt_irreflexive(a);
    }
}

/// `a` sorts strictly before `b`.
pub fn chars_lt(a: &Vec<char>, b: &Vec<char>) -> (r: bool)
    ensures
        r == seq_lt(a@, b@),
{
    let mut i: usize = 0;
    assert(a@.skip(0) =~= a@);
    assert(b@.skip(0) =~= b@);
    while i < a.len() && i < b.len() && a[i] == b[i]
        invariant
            0 <= i <= a@.len(),
            i <= b@.len(),
            seq_lt(a@, b@) == seq_lt(a@.skip(i as int), b@.skip(i as int)),
        decreases a@.len() - i,
    {
        assert(a@.skip(i + 1) =~= a@.skip(i as int).drop_first());
        assert(b@.skip(i + 1) =~= b@.skip(i as int).drop_first());
        i += 1;
    }
    let ghost sa = a@.skip(i as int);
    let ghost sb = b@.skip(i as int);
    assert(sa.len() == 0 ==> seq_lt(sa, sb) == (sb.len() > 0));
    if i < a.len() && i < b.len() {
        assert(sa[0] == a@[i as int] && sb[0] == b@[i as int]);
        a[i] < b[i]
    } else {
        i == a.len() && i < b.len()
    }
}

/// `a` sorts strictly before `b`.
pub fn str_lt(a: &str, b: &str) -> (r: bool)
    ensures
        r == seq_lt(a@, b@),
{
    let va = chars_of(a);
    let vb = chars_of(b);
    chars_lt(&va, &vb)
}


// ---------------------------------------------------------------------------
// Prefixes, suffixes and searching
// ---------------------------------------------------------------------------

pub open spec fn has_prefix(s: Seq<char>, p: Seq<char>) -> bool {
    p.len() <= s.len() && s.take(p.len() as int) == p
}

pub open spec fn has_suffix(s: Seq<char>, p: Seq<char>) -> bool {
    p.len() <= s.len() && s.skip(s.len() - p.len()) == p
}

pub fn chars_starts_with(s: &Vec<char>, p: &Vec<char>) -> (r: bool)
    ensures
        r == has_prefix(s@, p@),
{
    if p.len() > s.len() {
        return false;
    }
    let mut i: usize = 0;
    while i < p.len()
        invariant
            p@.len() <= s@.len(),
            0 <= i <= p@.len(),
            forall|k: int| 0 <= k < i ==> s@[k] == p@[k],
        decreases p@.len() - i,
    {
        if s[i] != p[i] {
            assert(s@.take(p@.len() as int)[i as int] != p@[i as int]);
            return false;
        }
        i += 1;
    }
    assert(s@.take(p@.len() as int) =~= p@);
    true
}

pub fn chars_ends_with(s: &Vec<char>, p: &Vec<char>) -> (r: bool)
    ensures
        r == has_suffix(s@, p@),
{
    if p.len() > s.len() {
        return false;
    }
    let off = s.len() - p.len();
    let slen = s.len();
    let mut i: usize = 0;
    while i < p.len()
        invariant
            slen == s@.len(),
            p@.len() <= s@.len(),
            off == s@.len() - p@.len(),
            0 <= i <= p@.len(),
            forall|k: int| 0 <= k < i ==> s@[off + k] == p@[k],
        decreases p@.len() - i,
    {
        assert(off + i < s@.len());
        if s[off + i] != p[i] {
            assert(s@.skip(off as int)[i as int] != p@[i as int]);
            return false;
        }
        i += 1;
    }
    assert(s@.skip(off as int) =~= p@);
    true
}

/// The index of the first `c` in `s`, or `s.len()` when there is none.
pub open spec fn index_of(s: Seq<char>, c: char) -> int
    decreases s.len(),
{
    if s.len() == 0 {
        0
    } else if s[0] == c {
        0
    } else {
        1 + index_of(s.drop_first(), c)
    }
}

pub proof fn lemma_index_of(s: Seq<char>, c: char)
    ensures
        0 <= index_of(s, c) <= s.len(),
        index_of(s, c) < s.len() ==> s[index_of(s, c)] == c,
        forall|j: int| 0 <= j < index_of(s, c) ==> s[j] != c,
    decreases s.len(),
{
    if s.len() > 0 && s[0] != c {
        lemma_index_of(s.drop_first(), c);
        assert forall|j: int| 0 <= j < index_of(s, c) implies s[j] != c by {
            if j > 0 {
                assert(s[j] == s.drop_first()[j - 1]);
            }
        }
    }
}

pub fn chars_index_of(s: &Vec<char>, c: char) -> (r: usize)
    ensures
        r == index_of(s@, c),
{
    let mut i: usize = 0;
    assert(s@.skip(0) =~= s@);
    while i < s.len() && s[i] != c
        invariant
            0 <= i <= s@.len(),
            index_of(s@, c) == i + index_of(s@.skip(i as int), c),
        decreases s@.len() - i,
    {
        assert(s@.skip(i + 1) =~= s@.skip(i as int).drop_first());
        i += 1;
    }
    i
}

pub open spec fn occurs_at(s: Seq<char>, pat: Seq<char>, i: int) -> bool {
    0 <= i && i + pat.len() <= s.len() && s.subrange(i, i + pat.len()) == pat
}

/// The first index at or after `i` where `pat` occurs in `s`.
pub open spec fn find_from(s: Seq<char>, pat: Seq<char>, i: int) -> Option<int>
    decreases s.len() + 1 - i,
{
    if i < 0 || i + pat.len() > s.len() {
        None
    } else if occurs_at(s, pat, i) {
        Some(i)
    } else {
        find_from(s, pat, i + 1)
    }
}

/// The first index where `pat` occurs in `s` (`str::find`).
pub open spec fn find(s: Seq<char>, pat: Seq<char>) -> Option<int> {
    find_from(s, pat, 0)
}

pub proof fn lemma_find_from(s: Seq<char>, pat: Seq<char>, i: int)
    requires
        0 <= i,
    ensures
        find_from(s, pat, i) matches Some(k) ==> i <= k && occurs_at(s, pat, k),
        find_from(s, pat, i) matches Some(k) ==> forall|j: int| i <= j < k ==> !occurs_at(s, pat, j),
        find_from(s, pat, i) is None ==> forall|j: int| i <= j ==> !occurs_at(s, pat, j),
    decreases s.len() + 1 - i,
{
    if i < 0 || i + pat.len() > s.len() {
    } else if occurs_at(s, pat, i) {
    } else {
        lemma_find_from(s, pat, i + 1);
    }
}

fn occurs_at_exec(s: &Vec<char>, pat: &Vec<char>, i: usize) -> (r: bool)
    requires
        i + pat@.len() <= s@.len(),
    ensures
        r == occurs_at(s@, pat@, i as int),
{
    let mut k: usize = 0;
    let slen = s.len();
    while k < pat.len()
        invariant
            slen == s@.len(),
            i + pat@.len() <= s@.len(),
            0 <= k <= pat@.len(),
            forall|j: int| 0 <= j < k ==> s@[i + j] == pat@[j],
        decreases pat@.len() - k,
    {
        assert(i + k < s@.len());
        if s[i + k] != pat[k] {
            assert(s@.subrange(i as int, i + pat@.len())[k as int] != pat@[k as int]);
            return false;
        }
        k += 1;
    }
    assert(s@.subrange(i as int, i + pat@.len()) =~= pat@);
    true
}

/// `str::find` over character vectors.
pub fn chars_find(s: &Vec<char>, pat: &Vec<char>) -> (r: Option<usize>)
    ensures
        match r {
            Some(k) => find(s@, pat@) == Some(k as int),
            None => find(s@, pat@) is None,
        },
{
    if pat.len() > s.len() {
        return None;
    }
    if pat.len() == 0 {
        assert(s@.subrange(0, 0) =~= pat@);
        return Some(0);
    }
    let mut i: usize = 0;
    let last = s.len() - pat.len();
    let slen = s.len();
    while i <= last
        invariant
            slen == s@.len(),
            1 <= pat@.len() <= s@.len(),
            last == s@.len() - pat@.len(),
            0 <= i <= last + 1,
            find(s@, pat@) == find_from(s@, pat@, i as int),
        decreases s@.len() + 1 - i,
    {
        if occurs_at_exec(s, pat, i) {
            return Some(i);
        }
        i += 1;
    }
    None
}

// ---------------------------------------------------------------------------
// Splitting and joining
// ---------------------------------------------------------------------------

/// The pieces of `s` between occurrences of `c` (`str::split` on a `char`).
pub open spec fn split_char(s: Seq<char>, c: char) -> Seq<Seq<char>>
    decreases s.len(),
{
    let k = index_of(s, c);
    if k >= s.len() {
        seq![s]
    } else {
        proof {
            lemma_index_of(s, c);
        }
        seq![s.take(k)] + split_char(s.skip(k + 1), c)
    }
}

/// `l` with one trailing carriage return removed.
pub open spec fn strip_cr(l: Seq<char>) -> Seq<char> {
    if l.len() > 0 && l.last() == '\r' {
        l.drop_last()
    } else {
        l
    }
}

/// The lines of `s` (`str::lines`): split at `\n`, a `\r` before each `\n`
/// dropped, and no empty line after a final `\n`.
pub open spec fn lines_of(s: Seq<char>) -> Seq<Seq<char>>
    decreases s.len(),
{
    let k = index_of(s, '\n');
    if s.len() == 0 {
        seq![]
    } else if k >= s.len() {
        seq![s]
    } else {
        proof {
            lemma_index_of(s, '\n');
        }
        seq![strip_cr(s.take(k))] + lines_of(s.skip(k + 1))
    }
}

/// The pieces of `s` between occurrences of the non-empty separator `sep`.
pub open spec fn split_str(s: Seq<char>, sep: Seq<char>) -> Seq<Seq<char>>
    decreases s.len(),
{
    if sep.len() == 0 {
        seq![s]
    } else {
        match find(s, sep) {
            None => seq![s],
            Some(k) => {
                proof {
                    lemma_find_from(s, sep, 0);
                }
                seq![s.take(k)] + split_str(s.skip(k + sep.len()), sep)
            },
        }
    }
}

/// `parts` joined with `sep` between consecutive elements.
pub open spec fn join(parts: Seq<Seq<char>>, sep: Seq<char>) -> Seq<char>
    decreases parts.len(),
{
    if parts.len() == 0 {
        seq![]
    } else if parts.len() == 1 {
        parts[0]
    } else {
        join(parts.drop_last(), sep) + sep + parts.last()
    }
}

/// Copies `s[from..to]`.
pub fn chars_slice(s: &Vec<char>, from: usize, to: usize) -> (r: Vec<char>)
    requires
        from <= to <= s@.len(),
    ensures
        r@ == s@.subrange(from as int, to as int),
{
    let mut r: Vec<char> = Vec::new();
    let mut i = from;
    while i < to
        invariant
            from <= i <= to <= s@.len(),
            r@ == s@.subrange(from as int, i as int),
        decreases to - i,
    {
        r.push(s[i]);
        assert(s@.subrange(from as int, i + 1) =~= s@.subrange(from as int, i as int).push(s@[i as int]));
        i += 1;
    }
    r
}

/// Appends the characters of `v` to `s`.
pub fn push_chars(s: &mut String, v: &Vec<char>)
    ensures
        final(s)@ == old(s)@ + v@,
{
    let mut i: usize = 0;
    while i < v.len()
        invariant
            0 <= i <= v@.len(),
            s@ == old(s)@ + v@.take(i as int),
        decreases v@.len() - i,
    {
        push_char(s, v[i]);
        assert(v@.take(i + 1) =~= v@.take(i as int).push(v@[i as int]));
        i += 1;
    }
    assert(v@.take(i as int) =~= v@);
}

/// `str::split` on a character.
pub fn chars_split(s: &Vec<char>, c: char) -> (r: Vec<Vec<char>>)
    ensures
        r@.len() == split_char(s@, c).len(),
        forall|i: int| 0 <= i < r@.len() ==> #[trigger] r@[i]@ == split_char(s@, c)[i],
{
    let mut r: Vec<Vec<char>> = Vec::new();
    let mut start: usize = 0;
    let mut i: usize = 0;
    assert(s@.skip(0) =~= s@);
    assert(r@.map_values(|v: Vec<char>| v@) =~= Seq::<Seq<char>>::empty());
    while i < s.len()
        invariant
            0 <= start <= i <= s@.len(),
            forall|j: int| start <= j < i ==> s@[j] != c,
            split_char(s@, c) =~= r@.map_values(|v: Vec<char>| v@) + split_char(s@.skip(start as int), c),
        decreases s@.len() - i,
    {
        if s[i] == c {
            let piece = chars_slice(s, start, i);
            proof {
                let t = s@.skip(start as int);
                lemma_index_of(t, c);
                assert(index_of(t, c) == i - start) by {
                    lemma_index_of_is_first(t, c, i - start);
                }
                assert(t.take(i - start) =~= piece@);
                assert(t.skip(i - start + 1) =~= s@.skip(i + 1));
            }
            r.push(piece);
            start = i + 1;
        }
        i += 1;
    }
    let piece = chars_slice(s, start, s.len());
    proof {
        let t = s@.skip(start as int);
        lemma_index_of(t, c);
        lemma_index_of_absent(t, c);
        assert(t =~= piece@);
    }
    r.push(piece);
    r
}

/// `str::lines` over a character vector.
pub fn chars_lines(s: &Vec<char>) -> (r: Vec<Vec<char>>)
    ensures
        key_views(r@) == lines_of(s@),
{
    let mut r: Vec<Vec<char>> = Vec::new();
    let mut start: usize = 0;
    let mut i: usize = 0;
    assert(s@.skip(0) =~= s@);
    assert(key_views(r@) =~= Seq::<Seq<char>>::empty());
    while i < s.len()
        invariant
            0 <= start <= i <= s@.len(),
            forall|j: int| start <= j < i ==> s@[j] != '\n',
            lines_of(s@) =~= key_views(r@) + lines_of(s@.skip(start as int)),
        decreases s@.len() - i,
    {
        if s[i] == '\n' {
            let mut piece = chars_slice(s, start, i);
            if piece.len() > 0 && piece[piece.len() - 1] == '\r' {
                piece.pop();
            }
            proof {
                let t = s@.skip(start as int);
                lemma_index_of(t, '\n');
                assert(index_of(t, '\n') == i - start) by {
                    lemma_index_of_is_first(t, '\n', i - start);
                }
                assert(t.take(i - start) =~= s@.subrange(start as int, i as int));
                assert(t.skip(i - start + 1) =~= s@.skip(i + 1));
                assert(piece@ == strip_cr(t.take(i - start)));
            }
            let ghost before = key_views(r@);
            r.push(piece);
            assert(key_views(r@) =~= before.push(piece@));
            start = i + 1;
        }
        i += 1;
    }
    if start < s.len() {
        let piece = chars_slice(s, start, s.len());
        proof {
            let t = s@.skip(start as int);
            lemma_index_of(t, '\n');
            lemma_index_of_absent(t, '\n');
            assert(t =~= piece@);
        }
        let ghost before = key_views(r@);
        r.push(piece);
        assert(key_views(r@) =~= before.push(piece@));
    } else {
        assert(s@.skip(start as int) =~= Seq::<char>::empty());
    }
    r
}

/// `str::split` on a non-empty string separator.
pub fn chars_split_str(s: &Vec<char>, sep: &Vec<char>) -> (r: Vec<Vec<char>>)
    requires
        sep@.len() > 0,
    ensures
        key_views(r@) == split_str(s@, sep@),
{
    let mut r: Vec<Vec<char>> = Vec::new();
    let mut rest: Vec<char> = s.clone();
    assert(key_views(r@) =~= Seq::<Seq<char>>::empty());
    loop
        invariant
            sep@.len() > 0,
            split_str(s@, sep@) =~= key_views(r@) + split_str(rest@, sep@),
        decreases rest@.len(),
    {
        let ghost before = key_views(r@);
        match chars_find(&rest, sep) {
            None => {
                let last = rest.clone();
                r.push(last);
                assert(key_views(r@) =~= before.push(rest@));
                return r;
            },
            Some(k) => {
                proof {
                    lemma_find_from(rest@, sep@, 0);
                    assert(find_from(rest@, sep@, 0) == Some(k as int));
                    assert(occurs_at(rest@, sep@, k as int));
                }
                let piece = chars_slice(&rest, 0, k);
                let rl = rest.len();
                let tail = chars_slice(&rest, k + sep.len(), rl);
                assert(piece@ =~= rest@.take(k as int));
                assert(tail@ =~= rest@.skip(k + sep@.len()));
                r.push(piece);
                assert(key_views(r@) =~= before.push(piece@));
                rest = tail;
            },
        }
    }
}

/// Whether `v` holds a string equal to `s`.
pub fn strs_contain(v: &Vec<String>, s: &str) -> (r: bool)
    ensures
        r == v@.map_values(|x: String| x@).contains(s@),
{
    let ghost vs = v@.map_values(|x: String| x@);
    let mut i: usize = 0;
    while i < v.len()
        invariant
            0 <= i <= v@.len(),
            vs == v@.map_values(|x: String| x@),
            forall|j: int| 0 <= j < i ==> vs[j] != s@,
        decreases v@.len() - i,
    {
        if str_eq(v[i].as_str(), s) {
            assert(vs[i as int] == s@);
            return true;
        }
        i += 1;
    }
    false
}

pub proof fn lemma_index_of_is_first(s: Seq<char>, c: char, k: int)
    requires
        0 <= k < s.len(),
        s[k] == c,
        forall|j: int| 0 <= j < k ==> s[j] != c,
    ensures
        index_of(s, c) == k,
    decreases s.len(),
{
    if k > 0 {
        lemma_index_of_is_first(s.drop_first(), c, k - 1);
    }
}

pub proof fn lemma_index_of_absent(s: Seq<char>, c: char)
    requires
        forall|j: int| 0 <= j < s.len() ==> s[j] != c,
    ensures
        index_of(s, c) == s.len(),
    decreases s.len(),
{
    if s.len() > 0 {
        lemma_index_of_absent(s.drop_first(), c);
    }
}

// ---------------------------------------------------------------------------
// Whitespace trimming (`char::is_whitespace`: the Unicode White_Space set)
// ---------------------------------------------------------------------------

pub open spec fn is_ws(c: char) -> bool {
    let n = c as int;
    (9 <= n <= 13) || n == 32 || n == 0x85 || n == 0xa0 || n == 0x1680 || (0x2000 <= n
        <= 0x200a) || n == 0x2028 || n == 0x2029 || n == 0x202f || n == 0x205f || n == 0x3000
}

pub fn is_ws_exec(c: char) -> (r: bool)
    ensures
        r == is_ws(c),
{
    ('\t' <= c && c <= '\r') || c == ' ' || c == '\u{85}' || c == '\u{a0}' || c == '\u{1680}' || (
    '\u{2000}' <= c && c <= '\u{200a}') || c == '\u{2028}' || c == '\u{2029}' || c == '\u{202f}'
        || c == '\u{205f}' || c == '\u{3000}'
}

pub open spec fn trim_start(s: Seq<char>) -> Seq<char>
    decreases s.len(),
{
    if s.len() > 0 && is_ws(s[0]) {
        trim_start(s.drop_first())
    } else {
        s
    }
}

pub open spec fn trim_end(s: Seq<char>) -> Seq<char>
    decreases s.len(),
{
    if s.len() > 0 && is_ws(s.last()) {
        trim_end(s.drop_last())
    } else {
        s
    }
}

/// `str::trim`.
pub open spec fn trim(s: Seq<char>) -> Seq<char> {
    trim_end(trim_start(s))
}

pub fn chars_trim(s: &Vec<char>) -> (r: Vec<char>)
    ensures
        r@ == trim(s@),
{
    let mut i: usize = 0;
    assert(s@.skip(0) =~= s@);
    while i < s.len() && is_ws_exec(s[i])
        invariant
            0 <= i <= s@.len(),
            trim_start(s@) == trim_start(s@.skip(i as int)),
        decreases s@.len() - i,
    {
        assert(s@.skip(i + 1) =~= s@.skip(i as int).drop_first());
        i += 1;
    }
    let mut j: usize = s.len();
    assert(s@.skip(i as int) =~= s@.subrange(i as int, j as int));
    while j > i && is_ws_exec(s[j - 1])
        invariant
            0 <= i <= j <= s@.len(),
            trim(s@) == trim_end(s@.subrange(i as int, j as int)),
        decreases j,
    {
        assert(s@.subrange(i as int, j - 1) =~= s@.subrange(i as int, j as int).drop_last());
        j -= 1;
    }
    chars_slice(s, i, j)
}


// ---------------------------------------------------------------------------
// Sorted key lists (the order a `BTreeMap<String, _>` iterates in)
// ---------------------------------------------------------------------------

/// The number of leading keys that sort strictly before `key`; for a sorted
/// key list this is where `key` is found or would be inserted.
pub open spec fn lower_bound(keys: Seq<Seq<char>>, key: Seq<char>) -> int
    decreases keys.len(),
{
    if keys.len() == 0 {
        0
    } else if seq_lt(keys[0], key) {
        1 + lower_bound(keys.drop_first(), key)
    } else {
        0
    }
}

pub proof fn lemma_lower_bound(keys: Seq<Seq<char>>, key: Seq<char>)
    ensures
        0 <= lower_bound(keys, key) <= keys.len(),
        forall|j: int| 0 <= j < lower_bound(keys, key) ==> seq_lt(#[trigger] keys[j], key),
        lower_bound(keys, key) < keys.len() ==> !seq_lt(keys[lower_bound(keys, key)], key),
    decreases keys.len(),
{
    if keys.len() > 0 && seq_lt(keys[0], key) {
        lemma_lower_bound(keys.drop_first(), key);
        assert forall|j: int| 0 <= j < lower_bound(keys, key) implies seq_lt(#[trigger] keys[j], key) by {
            if j > 0 {
                assert(keys[j] == keys.drop_first()[j - 1]);
            }
        }
    }
}

pub open spec fn key_views(keys: Seq<Vec<char>>) -> Seq<Seq<char>> {
    keys.map_values(|k: Vec<char>| k@)
}

/// The slot of `key` in a list of keys (see `lower_bound`).
pub fn find_slot(keys: &Vec<Vec<char>>, key: &Vec<char>) -> (r: usize)
    ensures
        r == lower_bound(key_views(keys@), key@),
{
    let mut i: usize = 0;
    assert(key_views(keys@).skip(0) =~= key_views(keys@));
    while i < keys.len() && chars_lt(&keys[i], key)
        invariant
            0 <= i <= keys@.len(),
            lower_bound(key_views(keys@), key@) == i + lower_bound(key_views(keys@).skip(i as int), key@),
        decreases keys@.len() - i,
    {
        assert(key_views(keys@).skip(i + 1) =~= key_views(keys@).skip(i as int).drop_first());
        i += 1;
    }
    i
}

/// Strictly increasing keys: a sorted list with no key twice.
pub open spec fn strictly_sorted(keys: Seq<Seq<char>>) -> bool {
    forall|i: int, j: int| 0 <= i < j < keys.len() ==> seq_lt(#[trigger] keys[i], #[trigger] keys[j])
}


/// The index of the last `c` in `s`, or -1 when there is none.
pub open spec fn rindex_of(s: Seq<char>, c: char) -> int
    decreases s.len(),
{
    if s.len() == 0 {
        -1
    } else if s.last() == c {
        s.len() - 1
    } else {
        rindex_of(s.drop_last(), c)
    }
}

pub proof fn lemma_rindex_of(s: Seq<char>, c: char)
    ensures
        -1 <= rindex_of(s, c) < s.len(),
        rindex_of(s, c) >= 0 ==> s[rindex_of(s, c)] == c,
        forall|j: int| rindex_of(s, c) < j < s.len() ==> s[j] != c,
    decreases s.len(),
{
    if s.len() > 0 && s.last() != c {
        lemma_rindex_of(s.drop_last(), c);
        assert forall|j: int| rindex_of(s, c) < j < s.len() implies s[j] != c by {
            if j < s.len() - 1 {
                assert(s[j] == s.drop_last()[j]);
            }
        }
    }
}

/// The text after the last `c` of `s`, or all of `s` when it has no `c`
/// (`str::rsplit(c).next()`).
pub open spec fn after_last(s: Seq<char>, c: char) -> Seq<char> {
    s.skip(rindex_of(s, c) + 1)
}

pub fn chars_after_last(s: &Vec<char>, c: char) -> (r: Vec<char>)
    ensures
        r@ == after_last(s@, c),
{
    let mut j: usize = s.len();
    assert(s@.take(j as int) =~= s@);
    while j > 0 && s[j - 1] != c
        invariant
            0 <= j <= s@.len(),
            rindex_of(s@, c) == rindex_of(s@.take(j as int), c),
        decreases j,
    {
        assert(s@.take(j - 1) =~= s@.take(j as int).drop_last());
        j -= 1;
    }
    proof {
        if j > 0 {
            assert(s@.take(j as int).last() == c);
        }
    }
    chars_slice(s, j, s.len())
}


/// Inserting a key that is absent at its `lower_bound` slot keeps a strictly
/// sorted key list strictly sorted.
pub proof fn lemma_sorted_insert(keys: Seq<Seq<char>>, key: Seq<char>)
    requires
        strictly_sorted(keys),
        !(0 <= lower_bound(keys, key) < keys.len() && keys[lower_bound(keys, key)] == key),
    ensures
        strictly_sorted(keys.insert(lower_bound(keys, key), key)),
{
    lemma_lower_bound(keys, key);
    let p = lower_bound(keys, key);
    let r = keys.insert(p, key);
    assert forall|j: int| p <= j < keys.len() implies seq_lt(key, #[trigger] keys[j]) by {
        lemma_lt_total(keys[p], key);
        if j > p {
            if seq_lt(keys[j], key) {
                lemma_lt_transitive(keys[p], keys[j], key);
            }
            lemma_lt_total(keys[j], key);
            if keys[j] == key {
                lemma_lt_transitive(keys[p], keys[j], key);
            }
        }
    }
    assert forall|i: int, j: int| 0 <= i < j < r.len() implies seq_lt(#[trigger] r[i], #[trigger] r[j]) by {
        if j < p {
        } else if j == p {
        } else if i < p {
            assert(r[j] == keys[j - 1]);
            assert(seq_lt(keys[i], key));
            lemma_lt_transitive(keys[i], key, keys[j - 1]);
        } else if i == p {
            assert(r[j] == keys[j - 1]);
        } else {
            assert(r[i] == keys[i - 1] && r[j] == keys[j - 1]);
        }
    }
}

/// Inserting at the `lower_bound` slot keeps a key set: the result holds
/// exactly the old keys and the new one.
pub proof fn lemma_insert_keys(keys: Seq<Seq<char>>, p: int, key: Seq<char>)
    requires
        0 <= p <= keys.len(),
    ensures
        keys.insert(p, key).to_set() == keys.to_set().insert(key),
{
    let r = keys.insert(p, key);
    assert forall|x: Seq<char>| r.to_set().contains(x) <==> keys.to_set().insert(key).contains(x) by {
        if r.to_set().contains(x) {
            let i = choose|i: int| 0 <= i < r.len() && r[i] == x;
            if i < p {
                assert(keys[i] == x);
            } else if i > p {
                assert(keys[i - 1] == x);
            }
        }
        if keys.to_set().contains(x) {
            let i = choose|i: int| 0 <= i < keys.len() && keys[i] == x;
            if i < p {
                assert(r[i] == x);
            } else {
                assert(r[i + 1] == x);
            }
        }
        if x == key {
            assert(r[p] == x);
        }
    }
    assert(r.to_set() =~= keys.to_set().insert(key));
}


/// All of `parts`, one after another.
pub open spec fn concat_all(parts: Seq<Seq<char>>) -> Seq<char>
    decreases parts.len(),
{
    if parts.len() == 0 {
        seq![]
    } else {
        concat_all(parts.drop_last()) + parts.last()
    }
}

/// One step of building a concatenation left to right.
pub proof fn lemma_concat_step(parts: Seq<Seq<char>>, i: int)
    requires
        0 <= i < parts.len(),
    ensures
        concat_all(parts.take(i + 1)) == concat_all(parts.take(i)) + parts[i],
{
    assert(parts.take(i + 1).drop_last() =~= parts.take(i));
}

pub proof fn lemma_concat_append(a: Seq<Seq<char>>, b: Seq<Seq<char>>)
    ensures
        concat_all(a + b) == concat_all(a) + concat_all(b),
    decreases b.len(),
{
    if b.len() == 0 {
        assert(a + b =~= a);
    } else {
        lemma_concat_append(a, b.drop_last());
        assert((a + b).drop_last() =~= a + b.drop_last());
    }
}

/// `pat` occurs somewhere in `s`.
pub open spec fn infix_of(pat: Seq<char>, s: Seq<char>) -> bool {
    exists|p: int| occurs_at(s, pat, p)
}

pub proof fn lemma_infix_extend(pat: Seq<char>, s: Seq<char>, a: Seq<char>, b: Seq<char>)
    requires
        infix_of(pat, s),
    ensures
        infix_of(pat, a + s + b),
{
    let p = choose|p: int| occurs_at(s, pat, p);
    let q = a.len() + p;
    assert((a + s + b).subrange(q, q + pat.len()) =~= s.subrange(p, p + pat.len()));
    assert(occurs_at(a + s + b, pat, q));
}

pub proof fn lemma_infix_trans(x: Seq<char>, y: Seq<char>, z: Seq<char>)
    requires
        infix_of(x, y),
        infix_of(y, z),
    ensures
        infix_of(x, z),
{
    let p = choose|p: int| occurs_at(y, x, p);
    let q = choose|q: int| occurs_at(z, y, q);
    assert(z.subrange(q + p, q + p + x.len()) =~= y.subrange(p, p + x.len()));
    assert(occurs_at(z, x, q + p));
}

/// Each part occurs in the concatenation of all parts.
pub proof fn lemma_concat_infix(parts: Seq<Seq<char>>, x: Seq<char>)
    requires
        parts.contains(x),
    ensures
        infix_of(x, concat_all(parts)),
{
    let i = choose|i: int| 0 <= i < parts.len() && parts[i] == x;
    assert(parts =~= parts.take(i + 1) + parts.skip(i + 1));
    lemma_concat_append(parts.take(i + 1), parts.skip(i + 1));
    lemma_concat_step(parts, i);
    let a = concat_all(parts.take(i));
    let b = concat_all(parts.skip(i + 1));
    assert(concat_all(parts) == a + x + b);
    assert((a + x + b).subrange(a.len() as int, a.len() + x.len() as int) =~= x);
    assert(occurs_at(concat_all(parts), x, a.len() as int));
}

/// One step of building a join left to right.
pub proof fn lemma_join_step(parts: Seq<Seq<char>>, sep: Seq<char>, i: int)
    requires
        0 < i < parts.len(),
    ensures
        join(parts.take(i + 1), sep) == join(parts.take(i), sep) + sep + parts[i],
{
    assert(parts.take(i + 1).drop_last() =~= parts.take(i));
}

/// Joining a first part to the join of a non-empty rest.
pub proof fn lemma_join_prepend(a: Seq<char>, rest: Seq<Seq<char>>, sep: Seq<char>)
    requires
        rest.len() > 0,
    ensures
        join(seq![a] + rest, sep) == a + sep + join(rest, sep),
    decreases rest.len(),
{
    let all = seq![a] + rest;
    if rest.len() == 1 {
        assert(all.drop_last() =~= seq![a]);
        assert(all.last() == rest[0]);
        assert(join(seq![a], sep) == a);
        assert(join(rest, sep) == rest[0]);
        assert(join(all, sep) == join(all.drop_last(), sep) + sep + all.last());
    } else {
        lemma_join_prepend(a, rest.drop_last(), sep);
        assert(all.drop_last() =~= seq![a] + rest.drop_last());
        assert(all.last() == rest.last());
        assert(join(all, sep) == join(all.drop_last(), sep) + sep + all.last());
        assert(join(rest, sep) == join(rest.drop_last(), sep) + sep + rest.last());
        assert(a + sep + join(rest.drop_last(), sep) + sep + rest.last() =~= a + sep + (join(
            rest.drop_last(),
            sep,
        ) + sep + rest.last()));
    }
}

/// Splitting at a character always gives at least one piece.
pub proof fn lemma_split_char_len(s: Seq<char>, c: char)
    ensures
        split_char(s, c).len() >= 1,
    decreases s.len(),
{
    lemma_index_of(s, c);
    if index_of(s, c) < s.len() {
        lemma_split_char_len(s.skip(index_of(s, c) + 1), c);
    }
}

/// Joining the pieces of a split with the separator gives the string back.
pub proof fn lemma_split_join(s: Seq<char>, c: char)
    ensures
        join(split_char(s, c), seq![c]) == s,
    decreases s.len(),
{
    lemma_index_of(s, c);
    let k = index_of(s, c);
    if k < s.len() {
        let t = s.skip(k + 1);
        lemma_split_join(t, c);
        lemma_split_char_len(t, c);
        lemma_join_prepend(s.take(k), split_char(t, c), seq![c]);
        assert(s.take(k) + seq![c] + t =~= s);
    }
}

/// `parts` joined with `sep`, as a `String`.
pub fn join_strings(parts: &Vec<Vec<char>>, sep: &str) -> (r: String)
    ensures
        r@ == join(parts@.map_values(|v: Vec<char>| v@), sep@),
{
    let ghost pv = parts@.map_values(|v: Vec<char>| v@);
    let mut r = String::new();
    let mut i: usize = 0;
    while i < parts.len()
        invariant
            0 <= i <= parts@.len(),
            pv == parts@.map_values(|v: Vec<char>| v@),
            r@ == join(pv.take(i as int), sep@),
        decreases parts@.len() - i,
    {
        if i > 0 {
            push_str(&mut r, sep);
            proof {
                lemma_join_step(pv, sep@, i as int);
            }
        } else {
            assert(pv.take(1) =~= seq![pv[0]]);
            assert(pv.take(0) =~= Seq::<Seq<char>>::empty());
        }
        push_chars(&mut r, &parts[i]);
        i += 1;
    }
    assert(pv.take(i as int) =~= pv);
    r
}


// ---------------------------------------------------------------------------
// Decimal numbers
// ---------------------------------------------------------------------------

pub open spec fn digit_char(d: nat) -> char {
    ((d % 10) + 48) as char
}

/// The decimal representation of `n` (as `{}` formats a `usize`).
pub open spec fn decimal(n: nat) -> Seq<char>
    decreases n,
{
    if n < 10 {
        seq![digit_char(n)]
    } else {
        decimal(n / 10).push(digit_char(n % 10))
    }
}

pub fn decimal_string(n: usize) -> (r: String)
    ensures
        r@ == decimal(n as nat),
    decreases n,
{
    if n < 10 {
        let mut r = String::new();
        let c = digit_of(n);
        push_char(&mut r, c);
        assert(r@ =~= seq![digit_char(n as nat)]);
        r
    } else {
        let mut r = decimal_string(n / 10);
        push_char(&mut r, digit_of(n % 10));
        r
    }
}

fn digit_of(d: usize) -> (c: char)
    requires
        d < 10,
    ensures
        c == digit_char(d as nat),
{
    let c = match d {
        0 => '0',
        1 => '1',
        2 => '2',
        3 => '3',
        4 => '4',
        5 => '5',
        6 => '6',
        7 => '7',
        8 => '8',
        _ => '9',
    };
    assert(c as int == (d % 10) + 48);
    c
}

// ---------------------------------------------------------------------------
// Counting keys into a sorted key→count list
// ---------------------------------------------------------------------------

pub open spec fn count_keys(acc: Seq<(Seq<char>, nat)>) -> Seq<Seq<char>> {
    acc.map_values(|e: (Seq<char>, nat)| e.0)
}

/// One insertion into a sorted key→count list, as
/// `*map.entry(key).or_default() += 1` does on a `BTreeMap`.
pub open spec fn count_step(acc: Seq<(Seq<char>, nat)>, key: Seq<char>) -> Seq<(Seq<char>, nat)> {
    let p = lower_bound(count_keys(acc), key);
    if 0 <= p < acc.len() && acc[p].0 == key {
        acc.update(p, (key, acc[p].1 + 1))
    } else {
        acc.insert(p, (key, 1nat))
    }
}

/// Each distinct key with the number of times it occurs, in key order.
pub open spec fn count_all(keys: Seq<Seq<char>>) -> Seq<(Seq<char>, nat)>
    decreases keys.len(),
{
    if keys.len() == 0 {
        seq![]
    } else {
        count_step(count_all(keys.drop_last()), keys.last())
    }
}

/// The number of times `k` occurs in `ks`.
pub open spec fn occurrences(ks: Seq<Seq<char>>, k: Seq<char>) -> nat
    decreases ks.len(),
{
    if ks.len() == 0 {
        0
    } else {
        occurrences(ks.drop_last(), k) + if ks.last() == k {
            1nat
        } else {
            0nat
        }
    }
}

proof fn lemma_occurrences_absent(ks: Seq<Seq<char>>, k: Seq<char>)
    requires
        !ks.contains(k),
    ensures
        occurrences(ks, k) == 0,
    decreases ks.len(),
{
    if ks.len() > 0 {
        crate::seq_facts::lemma_last_contains(ks, k);
        lemma_occurrences_absent(ks.drop_last(), k);
    }
}

/// The counts of `count_all` are a key-sorted table: each key once in strictly
/// ascending order, exactly the keys that occur, each with its number of
/// occurrences.
pub proof fn lemma_count_all(ks: Seq<Seq<char>>)
    ensures
        strictly_sorted(count_keys(count_all(ks))),
        forall|k: Seq<char>| count_keys(count_all(ks)).contains(k) <==> ks.contains(k),
        forall|i: int|
            0 <= i < count_all(ks).len() ==> (#[trigger] count_all(ks)[i]).1 == occurrences(ks, count_all(ks)[i].0),
    decreases ks.len(),
{
    if ks.len() > 0 {
        let dl = ks.drop_last();
        let x = ks.last();
        lemma_count_all(dl);
        let c = count_all(dl);
        let keys = count_keys(c);
        let p = lower_bound(keys, x);
        lemma_lower_bound(keys, x);
        let r = count_all(ks);
        assert(r == count_step(c, x));
        if 0 <= p < c.len() && c[p].0 == x {
            let r2 = c.update(p, (x, c[p].1 + 1));
            assert(r == r2);
            assert(count_keys(r2) =~= keys);
            assert forall|k: Seq<char>| count_keys(r).contains(k) <==> ks.contains(k) by {
                crate::seq_facts::lemma_last_contains(ks, k);
                assert(keys[p] == x);
            }
            assert forall|i: int| 0 <= i < r.len() implies (#[trigger] r[i]).1 == occurrences(ks, r[i].0) by {
                if i != p {
                    assert(r[i] == c[i]);
                    assert(keys[i] == c[i].0);
                    if c[i].0 == x {
                        if i < p {
                            assert(seq_lt(keys[i], keys[p]));
                        } else {
                            assert(seq_lt(keys[p], keys[i]));
                        }
                        lemma_lt_irreflexive(x);
                    }
                }
            }
        } else {
            assert(!keys.contains(x)) by {
                if keys.contains(x) {
                    let j = choose|j: int| 0 <= j < keys.len() && keys[j] == x;
                    lemma_lt_irreflexive(x);
                    if j > p {
                        lemma_lt_total(keys[p], x);
                        assert(seq_lt(keys[p], keys[j]));
                        if seq_lt(x, keys[p]) {
                            lemma_lt_transitive(x, keys[p], x);
                        }
                    }
                }
            }
            assert(!dl.contains(x));
            lemma_occurrences_absent(dl, x);
            lemma_sorted_insert(keys, x);
            let r2 = c.insert(p, (x, 1nat));
            assert(r == r2);
            assert(count_keys(r2) =~= keys.insert(p, x));
            assert forall|k: Seq<char>| count_keys(r).contains(k) <==> ks.contains(k) by {
                crate::seq_facts::lemma_last_contains(ks, k);
                crate::seq_facts::lemma_insert_contains(keys, p, x, k);
            }
            assert forall|i: int| 0 <= i < r.len() implies (#[trigger] r[i]).1 == occurrences(ks, r[i].0) by {
                if i < p {
                    assert(r[i] == c[i]);
                    assert(keys[i] == c[i].0);
                    if c[i].0 == x {
                        assert(keys.contains(x));
                    }
                } else if i > p {
                    assert(r[i] == c[i - 1]);
                    assert(keys[i - 1] == c[i - 1].0);
                    if c[i - 1].0 == x {
                        assert(keys.contains(x));
                    }
                }
            }
        }
    }
}

/// Counts the keys (see `count_all`), as parallel key and count lists.
pub fn count_keys_exec(ks: &Vec<Vec<char>>) -> (r: (Vec<Vec<char>>, Vec<usize>))
    ensures
        r.0@.len() == r.1@.len(),
        r.0@.len() == count_all(key_views(ks@)).len(),
        key_views(r.0@) == count_keys(count_all(key_views(ks@))),
        forall|k: int| 0 <= k < r.1@.len() ==> #[trigger] r.1@[k] == count_all(key_views(ks@))[k].1,
{
    let ghost all = key_views(ks@);
    let mut keys: Vec<Vec<char>> = Vec::new();
    let mut counts: Vec<usize> = Vec::new();
    let mut i: usize = 0;
    while i < ks.len()
        invariant
            0 <= i <= ks@.len(),
            all == key_views(ks@),
            keys@.len() == counts@.len(),
            keys@.len() == count_all(all.take(i as int)).len(),
            key_views(keys@) =~= count_keys(count_all(all.take(i as int))),
            forall|k: int| 0 <= k < counts@.len() ==> #[trigger] counts@[k] == count_all(all.take(i as int))[k].1,
            forall|k: int| 0 <= k < counts@.len() ==> #[trigger] counts@[k] <= i,
        decreases ks@.len() - i,
    {
        let key = ks[i].clone();
        let p = find_slot(&keys, &key);
        let ghost acc = count_all(all.take(i as int));
        proof {
            let t = all.take(i + 1);
            assert(t.drop_last() =~= all.take(i as int));
            assert(t.last() == ks@[i as int]@);
            assert(key@ == ks@[i as int]@);
            lemma_lower_bound(key_views(keys@), key@);
            if p < keys@.len() {
                assert(key_views(keys@)[p as int] == keys@[p as int]@);
            }
        }
        let ghost old_keys = key_views(keys@);
        if p < keys.len() && chars_eq(&keys[p], &key) {
            let c = counts[p];
            counts.set(p, c + 1);
            proof {
                assert(key_views(keys@) =~= count_keys(count_all(all.take(i + 1))));
            }
        } else {
            keys.insert(p, key);
            counts.insert(p, 1);
            proof {
                assert(key_views(keys@) =~= old_keys.insert(p as int, key@));
                assert(count_keys(acc.insert(p as int, (key@, 1nat))) =~= count_keys(acc).insert(p as int, key@));
                assert(key_views(keys@) =~= count_keys(count_all(all.take(i + 1))));
            }
        }
        i += 1;
    }
    proof {
        assert(all.take(i as int) =~= all);
    }
    (keys, counts)
}

// ---------------------------------------------------------------------------
// Sorting strings (`slice::sort` on `String`s)
// ---------------------------------------------------------------------------

/// The slot after the leading entries that do not sort after `x`.
pub open spec fn asc_pos(t: Seq<Seq<char>>, x: Seq<char>) -> int
    decreases t.len(),
{
    if t.len() == 0 {
        0
    } else if !seq_lt(x, t[0]) {
        1 + asc_pos(t.drop_first(), x)
    } else {
        0
    }
}

/// `s` in ascending order (insertion sort).
pub open spec fn sorted_strs(s: Seq<Seq<char>>) -> Seq<Seq<char>>
    decreases s.len(),
{
    if s.len() == 0 {
        seq![]
    } else {
        let t = sorted_strs(s.drop_last());
        t.insert(asc_pos(t, s.last()), s.last())
    }
}

pub proof fn lemma_asc_pos(t: Seq<Seq<char>>, x: Seq<char>)
    ensures
        0 <= asc_pos(t, x) <= t.len(),
    decreases t.len(),
{
    if t.len() > 0 && !seq_lt(x, t[0]) {
        lemma_asc_pos(t.drop_first(), x);
    }
}

pub fn asc_slot(t: &Vec<Vec<char>>, x: &Vec<char>) -> (r: usize)
    ensures
        r == asc_pos(key_views(t@), x@),
{
    let mut i: usize = 0;
    assert(key_views(t@).skip(0) =~= key_views(t@));
    while i < t.len() && !chars_lt(x, &t[i])
        invariant
            0 <= i <= t@.len(),
            asc_pos(key_views(t@), x@) == i + asc_pos(key_views(t@).skip(i as int), x@),
        decreases t@.len() - i,
    {
        assert(key_views(t@).skip(i + 1) =~= key_views(t@).skip(i as int).drop_first());
        i += 1;
    }
    proof {
        if i < t@.len() {
            assert(key_views(t@).skip(i as int)[0] == t@[i as int]@);
        }
    }
    i
}

/// The strings in ascending order.
pub fn sort_strings(v: Vec<String>) -> (r: Vec<String>)
    ensures
        r@.map_values(|s: String| s@) == sorted_strs(v@.map_values(|s: String| s@)),
{
    let ghost all = v@.map_values(|s: String| s@);
    let mut out: Vec<String> = Vec::new();
    let mut keys: Vec<Vec<char>> = Vec::new();
    let mut i: usize = 0;
    let ghost orig = v@;
    let mut v = v;
    for s in it: v.into_iter()
        invariant
            it.seq() == orig,
            all == orig.map_values(|s: String| s@),
            out@.len() == keys@.len(),
            key_views(keys@) == out@.map_values(|s: String| s@),
            out@.map_values(|s: String| s@) == sorted_strs(all.take(it.index() as int)),
    {
        let k = chars_of(s.as_str());
        let p = asc_slot(&keys, &k);
        proof {
            let j = it.index() as int;
            assert(all.take(j + 1).drop_last() =~= all.take(j));
            assert(all.take(j + 1).last() == s@);
            lemma_asc_pos(key_views(keys@), k@);
        }
        let ghost ov = out@.map_values(|s: String| s@);
        let ghost ok = key_views(keys@);
        out.insert(p, s);
        keys.insert(p, k);
        proof {
            assert(out@.map_values(|s: String| s@) =~= ov.insert(p as int, k@));
            assert(key_views(keys@) =~= ok.insert(p as int, k@));
        }
    }
    proof {
        assert(all.take(all.len() as int) =~= all);
    }
    out
}


/// `s` with every `from` replaced by `to`.
pub open spec fn replace_char(s: Seq<char>, from: char, to: char) -> Seq<char> {
    s.map_values(|c: char| if c == from { to } else { c })
}

/// `str::replace` of one character by another.
pub fn replace_char_exec(s: &str, from: char, to: char) -> (r: String)
    ensures
        r@ == replace_char(s@, from, to),
{
    let v = chars_of(s);
    let mut r = String::new();
    let mut i: usize = 0;
    while i < v.len()
        invariant
            0 <= i <= v@.len(),
            v@ == s@,
            r@ == replace_char(v@.take(i as int), from, to),
        decreases v@.len() - i,
    {
        let c = v[i];
        push_char(&mut r, if c == from { to } else { c });
        assert(v@.take(i + 1) =~= v@.take(i as int).push(c));
        assert(replace_char(v@.take(i + 1), from, to) =~= replace_char(v@.take(i as int), from, to).push(
            if c == from { to } else { c },
        ));
        i += 1;
    }
    assert(v@.take(i as int) =~= v@);
    r
}

} // verus!
