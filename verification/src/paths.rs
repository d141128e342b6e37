//! Paths: byte strings, ordered as a depth-first walk of a trie visits them.
use vstd::prelude::*;

verus! {

/// Whether path `a` comes strictly before path `b`: byte by byte, a path before its
/// own extensions.
pub open spec fn path_before(a: Seq<u8>, b: Seq<u8>) -> bool
    decreases a.len(),
{
    if b.len() == 0 {
        false
    } else if a.len() == 0 {
        true
    } else if a[0] != b[0] {
        a[0] < b[0]
    } else {
        path_before(a.drop_first(), b.drop_first())
    }
}

/// Whether `prefix` leads to `path`: the two are equal, or `path` lies below `prefix`.
pub open spec fn leads_to(prefix: Seq<u8>, path: Seq<u8>) -> bool {
    prefix.len() <= path.len() && path.take(prefix.len() as int) == prefix
}

/// Whether one of two paths leads to the other.
pub open spec fn overlap(a: Seq<u8>, b: Seq<u8>) -> bool {
    leads_to(a, b) || leads_to(b, a)
}

/// No path comes before itself.
pub proof fn lemma_path_before_irreflexive(a: Seq<u8>)
    ensures
        !path_before(a, a),
    decreases a.len(),
{
    if a.len() > 0 {
        lemma_path_before_irreflexive(a.drop_first());
    }
}

/// Of two different paths one comes before the other.
pub proof fn lemma_path_before_total(a: Seq<u8>, b: Seq<u8>)
    ensures
        a == b || path_before(a, b) || path_before(b, a),
    decreases a.len(),
{
    if a.len() == 0 || b.len() == 0 {
        assert(a.len() == 0 && b.len() == 0 ==> a =~= b);
    } else if a[0] == b[0] {
        lemma_path_before_total(a.drop_first(), b.drop_first());
        if a.drop_first() == b.drop_first() {
            assert(a =~= seq![a[0]] + a.drop_first());
            assert(b =~= seq![b[0]] + b.drop_first());
        }
    }
}

/// The order of paths is transitive.
pub proof fn lemma_path_before_transitive(a: Seq<u8>, b: Seq<u8>, c: Seq<u8>)
    requires
        path_before(a, b),
        path_before(b, c),
    ensures
        path_before(a, c),
    decreases a.len(),
{
    if a.len() > 0 && a[0] == b[0] && b[0] == c[0] {
        lemma_path_before_transitive(a.drop_first(), b.drop_first(), c.drop_first());
    }
}

/// Two paths do not come before each other.
pub proof fn lemma_path_before_asymmetric(a: Seq<u8>, b: Seq<u8>)
    requires
        path_before(a, b),
    ensures
        !path_before(b, a),
        a != b,
{
    lemma_path_before_irreflexive(a);
    if path_before(b, a) {
        lemma_path_before_transitive(a, b, a);
    }
}

/// A path comes before everything below it.
pub proof fn lemma_leads_to_is_before(prefix: Seq<u8>, path: Seq<u8>)
    requires
        leads_to(prefix, path),
        prefix != path,
    ensures
        path_before(prefix, path),
    decreases prefix.len(),
{
    if prefix.len() == path.len() {
        assert(path.take(prefix.len() as int) =~= path);
    }
    if prefix.len() > 0 {
        assert(path.take(prefix.len() as int)[0] == path[0]);
        assert(path.drop_first().take(prefix.len() - 1) =~= path.take(
            prefix.len() as int,
        ).drop_first());
        if prefix.drop_first() == path.drop_first() {
            assert(prefix =~= seq![prefix[0]] + prefix.drop_first());
            assert(path =~= seq![path[0]] + path.drop_first());
        }
        lemma_leads_to_is_before(prefix.drop_first(), path.drop_first());
    }
}

/// Whether path `a` comes strictly before path `b`.
pub fn precedes(a: &[u8], b: &[u8]) -> (before: bool)
    ensures
        before == path_before(a@, b@),
{
    let mut i: usize = 0;
    proof {
        assert(a@.skip(0) =~= a@);
        assert(b@.skip(0) =~= b@);
    }
    while i < a.len() && i < b.len()
        invariant
            i <= a.len(),
            i <= b.len(),
            path_before(a@, b@) == path_before(a@.skip(i as int), b@.skip(i as int)),
        decreases a.len() - i,
    {
        if a[i] != b[i] {
            return a[i] < b[i];
        }
        proof {
            assert(a@.skip(i as int).drop_first() =~= a@.skip(i + 1));
            assert(b@.skip(i as int).drop_first() =~= b@.skip(i + 1));
        }
        i = i + 1;
    }
    i < b.len()
}

/// Whether `prefix` leads to `path`.
pub fn is_prefix(prefix: &[u8], path: &[u8]) -> (leads: bool)
    ensures
        leads == leads_to(prefix@, path@),
{
    if prefix.len() > path.len() {
        return false;
    }
    let mut i: usize = 0;
    while i < prefix.len()
        invariant
            i <= prefix.len() <= path.len(),
            forall|j: int| 0 <= j < i ==> prefix@[j] == path@[j],
        decreases prefix.len() - i,
    {
        if prefix[i] != path[i] {
            assert(path@.take(prefix@.len() as int)[i as int] != prefix@[i as int]);
            return false;
        }
        i = i + 1;
    }
    assert(path@.take(prefix@.len() as int) =~= prefix@);
    true
}

}
