//! Membership facts about sequences that the proofs share.
use vstd::prelude::*;

verus! {

/// An element of a concatenation is an element of one of its parts.
pub proof fn lemma_concat_contains<T>(a: Seq<T>, b: Seq<T>, w: T)
    ensures
        (a + b).contains(w) <==> (a.contains(w) || b.contains(w)),
{
    if (a + b).contains(w) {
        let k = choose|k: int| 0 <= k < (a + b).len() && (a + b)[k] == w;
        if k < a.len() {
            assert(a[k] == w);
        } else {
            assert(b[k - a.len()] == w);
        }
    }
    if a.contains(w) {
        let k = choose|k: int| 0 <= k < a.len() && a[k] == w;
        assert((a + b)[k] == w);
    }
    if b.contains(w) {
        let k = choose|k: int| 0 <= k < b.len() && b[k] == w;
        assert((a + b)[a.len() + k] == w);
    }
}

/// Inserting adds exactly the inserted element.
pub proof fn lemma_insert_contains<T>(t: Seq<T>, p: int, x: T, w: T)
    requires
        0 <= p <= t.len(),
    ensures
        t.insert(p, x).contains(w) <==> (t.contains(w) || w == x),
{
    let r = t.insert(p, x);
    if r.contains(w) {
        let k = choose|k: int| 0 <= k < r.len() && r[k] == w;
        if k < p {
            assert(t[k] == w);
        } else if k > p {
            assert(t[k - 1] == w);
        }
    }
    if t.contains(w) {
        let k = choose|k: int| 0 <= k < t.len() && t[k] == w;
        if k < p {
            assert(r[k] == w);
        } else {
            assert(r[k + 1] == w);
        }
    }
    if w == x {
        assert(r[p] == w);
    }
}

/// A non-empty sequence holds its last element and those before it.
pub proof fn lemma_last_contains<T>(s: Seq<T>, w: T)
    requires
        s.len() > 0,
    ensures
        s.contains(w) <==> (s.drop_last().contains(w) || w == s.last()),
{
    assert(s =~= s.drop_last().push(s.last()));
    lemma_insert_contains(s.drop_last(), s.len() - 1, s.last(), w);
    assert(s.drop_last().insert(s.len() - 1, s.last()) =~= s);
}

} // verus!
