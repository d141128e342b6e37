//! What paths have to do with each other, in terms of one path continuing another.
use vstd::prelude::*;

use crate::paths::{leads_to, overlap, path_before};

verus! {

/// A path leads to all its continuations, however long they are.
pub proof fn law_paths_lead_to_their_continuations(path: Seq<u8>, rest: Seq<u8>)
    ensures
        leads_to(path, path + rest),
        overlap(path, path + rest),
        overlap(path + rest, path),
{
    assert((path + rest).take(path.len() as int) =~= path);
}

/// A path leads to nothing but its continuations.
pub proof fn law_paths_lead_to_nothing_else(path: Seq<u8>, target: Seq<u8>)
    requires
        leads_to(path, target),
    ensures
        exists|rest: Seq<u8>| target == #[trigger] (path + rest),
        target == path + target.skip(path.len() as int),
{
    let rest = target.skip(path.len() as int);
    assert(target =~= target.take(path.len() as int) + rest);
    assert(target == path + rest);
}

/// Two paths overlap just when one of them continues the other.
pub proof fn law_overlapping_paths_continue_each_other(a: Seq<u8>, b: Seq<u8>)
    ensures
        overlap(a, b) <==> (exists|rest: Seq<u8>| b == #[trigger] (a + rest)) || (exists|
            rest: Seq<u8>,
        |
            a == #[trigger] (b + rest)),
{
    if leads_to(a, b) {
        law_paths_lead_to_nothing_else(a, b);
    }
    if leads_to(b, a) {
        law_paths_lead_to_nothing_else(b, a);
    }
    if exists|rest: Seq<u8>| b == #[trigger] (a + rest) {
        let rest = choose|rest: Seq<u8>| b == #[trigger] (a + rest);
        law_paths_lead_to_their_continuations(a, rest);
    }
    if exists|rest: Seq<u8>| a == #[trigger] (b + rest) {
        let rest = choose|rest: Seq<u8>| a == #[trigger] (b + rest);
        law_paths_lead_to_their_continuations(b, rest);
    }
}

/// A path comes before its continuations, and not before itself.
pub proof fn law_paths_come_before_their_continuations(path: Seq<u8>, rest: Seq<u8>)
    ensures
        path_before(path, path + rest) == (rest.len() > 0),
        !path_before(path + rest, path),
    decreases path.len(),
{
    if path.len() == 0 {
        assert(path + rest =~= rest);
    } else {
        assert((path + rest).drop_first() =~= path.drop_first() + rest);
        law_paths_come_before_their_continuations(path.drop_first(), rest);
    }
}

/// Where two paths part, the smaller byte comes first, whatever follows.
pub proof fn law_the_first_difference_decides(
    path: Seq<u8>,
    a: u8,
    after_a: Seq<u8>,
    b: u8,
    after_b: Seq<u8>,
)
    requires
        a != b,
    ensures
        path_before(path.push(a) + after_a, path.push(b) + after_b) == (a < b),
    decreases path.len(),
{
    let left = path.push(a) + after_a;
    let right = path.push(b) + after_b;
    if path.len() > 0 {
        let rest = path.drop_first();
        assert(left.drop_first() =~= rest.push(a) + after_a);
        assert(right.drop_first() =~= rest.push(b) + after_b);
        law_the_first_difference_decides(rest, a, after_a, b, after_b);
    }
}

}
