//! What holds of the permissions that are out, and of those that are asked for.
use vstd::prelude::*;

use crate::conflict::{ConflictView, IsTracking};
use crate::path_laws::{
    law_overlapping_paths_continue_each_other, law_paths_lead_to_their_continuations,
};
use crate::paths::{
    leads_to, lemma_leads_to_is_before, lemma_path_before_asymmetric,
    lemma_path_before_total, lemma_path_before_transitive, overlap, path_before,
};
use crate::permissions::{is_free, lemma_met_is, meets, met, Permissions};

verus! {

/// Some path of a finite set comes before all others.
proof fn lemma_first(paths: Set<Seq<u8>>) -> (first: Seq<u8>)
    requires
        paths.finite(),
        !paths.is_empty(),
    ensures
        paths.contains(first),
        forall|other: Seq<u8>| #[trigger]
            paths.contains(other) && other != first ==> path_before(first, other),
    decreases paths.len(),
{
    let some = paths.choose();
    let rest = paths.remove(some);
    if rest.is_empty() {
        assert forall|other: Seq<u8>| #[trigger] paths.contains(other) implies other == some by {
            assert(!rest.contains(other));
        }
        some
    } else {
        let first = lemma_first(rest);
        lemma_path_before_total(some, first);
        if path_before(some, first) {
            assert forall|other: Seq<u8>| #[trigger]
                paths.contains(other) && other != some implies path_before(some, other) by {
                assert(rest.contains(other));
                if other != first {
                    lemma_path_before_transitive(some, first, other);
                }
            }
            some
        } else {
            assert forall|other: Seq<u8>| #[trigger]
                paths.contains(other) && other != first implies path_before(first, other) by {
                if other != some {
                    assert(rest.contains(other));
                }
            }
            first
        }
    }
}

/// A request for a path that is not free meets a taken path that overlaps it: the shortest
/// of those that lead to it, or else the first of those below it.
pub proof fn law_a_taken_path_is_met<V>(taken: Map<Seq<u8>, V>, path: Seq<u8>)
    requires
        taken.dom().finite(),
        !is_free(taken, path),
    ensures
        ({
            let at = met(taken, path);
            &&& meets(taken, path, at)
            &&& taken.contains_key(at) && overlap(at, path)
            &&& forall|other: Seq<u8>| #[trigger]
                taken.contains_key(other) && leads_to(other, path) ==> leads_to(at, path)
                    && at.len() <= other.len()
        }),
{
    let rivals = taken.dom().filter(|other: Seq<u8>| overlap(other, path));
    let some = choose|other: Seq<u8>| #[trigger] taken.contains_key(other) && overlap(other, path);
    assert(rivals.contains(some));
    let at = lemma_first(rivals);
    assert forall|other: Seq<u8>| #[trigger]
        taken.contains_key(other) && overlap(other, path) && other != at implies path_before(
        at,
        other,
    ) by {
        assert(rivals.contains(other));
    }
    assert(meets(taken, path, at));
    lemma_met_is(taken, path, at);
    assert forall|other: Seq<u8>| #[trigger]
        taken.contains_key(other) && leads_to(other, path) implies leads_to(at, path) && at.len()
        <= other.len() by {
        if other != at {
            assert(path_before(at, other));
            if !leads_to(at, path) {
                // `other` leads to `path`, which leads to `at`
                assert(leads_to(path, at));
                assert(at.take(other.len() as int) =~= path.take(other.len() as int));
                assert(leads_to(other, at));
                lemma_leads_to_is_before(other, at);
                lemma_path_before_asymmetric(at, other);
            } else if at.len() > other.len() {
                assert(at.take(other.len() as int) =~= path.take(other.len() as int));
                assert(leads_to(other, at));
                lemma_leads_to_is_before(other, at);
                lemma_path_before_asymmetric(at, other);
            }
        }
    }
}

/// What is reported as standing in the way of a request does stand in its way.
pub proof fn law_conflicts_are_real(permissions: Permissions, path: Seq<u8>)
    requires
        permissions.readers.dom().finite(),
        permissions.writers.dom().finite(),
    ensures
        forall|conflict: ConflictView|
            (permissions.read_conflict(path) == Some(conflict) || permissions.write_conflict(path)
                == Some(conflict)) ==> {
                &&& overlap(conflict.at, path)
                &&& match #[trigger] conflict.with {
                    IsTracking::WriteZipper => permissions.writers.contains_key(conflict.at),
                    IsTracking::ReadZipper(count) => permissions.readers.contains_key(conflict.at)
                        && permissions.readers[conflict.at] == count,
                }
            },
{
    assert(path.take(path.len() as int) =~= path);
    if !is_free(permissions.writers, path) {
        law_a_taken_path_is_met(permissions.writers, path);
    }
    if !is_free(permissions.readers, path) {
        law_a_taken_path_is_met(permissions.readers, path);
    }
}

/// While a writer holds a path, no request for a path that overlaps it is granted.
pub proof fn law_writers_exclude_everybody(permissions: Permissions, held: Seq<u8>, path: Seq<u8>)
    requires
        permissions.writers.contains_key(held),
        overlap(held, path),
    ensures
        permissions.read_conflict(path) matches Some(conflict) && conflict.with
            == IsTracking::WriteZipper,
        permissions.write_conflict(path) matches Some(conflict) && conflict.with
            == IsTracking::WriteZipper,
{
}

/// While a reader holds a path, no writer is granted for a path that overlaps it.
pub proof fn law_readers_exclude_writers(permissions: Permissions, held: Seq<u8>, path: Seq<u8>)
    requires
        permissions.readers.contains_key(held),
        overlap(held, path),
    ensures
        permissions.write_conflict(path) is Some,
{
}

/// Readers do not stand in each other's way, whatever their paths, as long as those of one
/// path can be counted.
pub proof fn law_readers_share(permissions: Permissions, held: Seq<u8>, path: Seq<u8>)
    requires
        permissions.read_conflict(path) is None,
        held == path && permissions.readers.contains_key(path) ==> permissions.readers[path] + 1
            < u32::MAX,
    ensures
        permissions.with_reader(held).read_conflict(path) is None,
{
}

/// Where a writer would be granted, so would a reader.
pub proof fn law_who_may_write_may_read(permissions: Permissions, path: Seq<u8>)
    requires
        permissions.write_conflict(path) is None,
    ensures
        permissions.read_conflict(path) is None,
{
    assert(path.take(path.len() as int) =~= path);
    assert(overlap(path, path));
}

/// The answer to a request does not depend on permissions for paths that do not overlap it.
pub proof fn law_separate_paths_do_not_interfere(
    permissions: Permissions,
    held: Seq<u8>,
    path: Seq<u8>,
)
    requires
        permissions.readers.dom().finite(),
        permissions.writers.dom().finite(),
        !overlap(held, path),
    ensures
        permissions.with_reader(held).read_conflict(path) == permissions.read_conflict(path),
        permissions.with_reader(held).write_conflict(path) == permissions.write_conflict(path),
        permissions.with_writer(held).read_conflict(path) == permissions.read_conflict(path),
        permissions.with_writer(held).write_conflict(path) == permissions.write_conflict(path),
{
    assert(path.take(path.len() as int) =~= path);
    lemma_insert_elsewhere(permissions.writers, held, (), path);
    lemma_insert_elsewhere(
        permissions.readers,
        held,
        permissions.with_reader(held).readers[held],
        path,
    );
    if !is_free(permissions.readers, path) {
        law_a_taken_path_is_met(permissions.readers, path);
    }
}

proof fn lemma_insert_elsewhere<V>(
    taken: Map<Seq<u8>, V>,
    held: Seq<u8>,
    value: V,
    path: Seq<u8>,
)
    requires
        taken.dom().finite(),
        !overlap(held, path),
    ensures
        is_free(taken.insert(held, value), path) == is_free(taken, path),
        !is_free(taken, path) ==> met(taken.insert(held, value), path) == met(taken, path),
{
    let more = taken.insert(held, value);
    assert forall|other: Seq<u8>| overlap(other, path) implies #[trigger] more.contains_key(other)
        == taken.contains_key(other) by {}
    if is_free(taken, path) {
        assert(is_free(more, path));
    } else {
        let some = choose|other: Seq<u8>| #[trigger]
            taken.contains_key(other) && overlap(other, path);
        assert(more.contains_key(some));
        law_a_taken_path_is_met(taken, path);
        let at = met(taken, path);
        assert(meets(more, path, at));
        lemma_met_is(more, path, at);
    }
}

/// Giving a reader back undoes granting it.
pub proof fn law_returning_a_reader_undoes_it(permissions: Permissions, path: Seq<u8>)
    requires
        permissions.exclusive(),
        permissions.read_conflict(path) is None,
    ensures
        permissions.with_reader(path).without_reader(path) == permissions,
{
    assert(permissions.with_reader(path).without_reader(path) =~= permissions);
}

/// Giving a writer back undoes granting it.
pub proof fn law_returning_a_writer_undoes_it(permissions: Permissions, path: Seq<u8>)
    requires
        permissions.write_conflict(path) is None,
    ensures
        permissions.with_writer(path).without_writer(path) == permissions,
{
    assert(path.take(path.len() as int) =~= path);
    assert(overlap(path, path));
    assert(permissions.with_writer(path).without_writer(path) =~= permissions);
}

/// Granting and giving back keep permissions exclusive.
pub proof fn law_permissions_stay_exclusive(permissions: Permissions, path: Seq<u8>)
    requires
        permissions.exclusive(),
    ensures
        permissions.read_conflict(path) is None ==> permissions.with_reader(path).exclusive(),
        permissions.write_conflict(path) is None ==> permissions.with_writer(path).exclusive(),
        permissions.readers.contains_key(path) ==> permissions.without_reader(path).exclusive(),
        permissions.without_writer(path).exclusive(),
{
}

/// A reader is granted just when no writer holds a path that continues the requested one or
/// is continued by it, and one more reader of the path can be counted.
pub proof fn law_when_readers_are_granted(permissions: Permissions, path: Seq<u8>)
    ensures
        permissions.read_conflict(path) is None <==> {
            &&& forall|rest: Seq<u8>| !permissions.writers.contains_key(#[trigger] (path + rest))
            &&& forall|held: Seq<u8>, rest: Seq<u8>|
                permissions.writers.contains_key(held) ==> path != #[trigger] (held + rest)
            &&& permissions.readers.contains_key(path) ==> permissions.readers[path] < u32::MAX
        },
{
    lemma_free_is(permissions.writers, path);
}

/// A writer is granted just when neither a writer nor a reader holds a path that continues the
/// requested one or is continued by it.
pub proof fn law_when_writers_are_granted(permissions: Permissions, path: Seq<u8>)
    ensures
        permissions.write_conflict(path) is None <==> {
            &&& forall|rest: Seq<u8>| !permissions.writers.contains_key(#[trigger] (path + rest))
            &&& forall|held: Seq<u8>, rest: Seq<u8>|
                permissions.writers.contains_key(held) ==> path != #[trigger] (held + rest)
            &&& forall|rest: Seq<u8>| !permissions.readers.contains_key(#[trigger] (path + rest))
            &&& forall|held: Seq<u8>, rest: Seq<u8>|
                permissions.readers.contains_key(held) ==> path != #[trigger] (held + rest)
        },
{
    lemma_free_is(permissions.writers, path);
    lemma_free_is(permissions.readers, path);
}

proof fn lemma_free_is<V>(taken: Map<Seq<u8>, V>, path: Seq<u8>)
    ensures
        is_free(taken, path) <==> {
            &&& forall|rest: Seq<u8>| !taken.contains_key(#[trigger] (path + rest))
            &&& forall|held: Seq<u8>, rest: Seq<u8>|
                taken.contains_key(held) ==> path != #[trigger] (held + rest)
        },
{
    if is_free(taken, path) {
        assert forall|rest: Seq<u8>| !taken.contains_key(#[trigger] (path + rest)) by {
            law_paths_lead_to_their_continuations(path, rest);
        }
        assert forall|held: Seq<u8>, rest: Seq<u8>| taken.contains_key(held) implies path
            != #[trigger] (held + rest) by {
            law_paths_lead_to_their_continuations(held, rest);
        }
    } else {
        let held = choose|held: Seq<u8>| #[trigger] taken.contains_key(held) && overlap(held, path);
        law_overlapping_paths_continue_each_other(held, path);
        if exists|rest: Seq<u8>| path == #[trigger] (held + rest) {
            let rest = choose|rest: Seq<u8>| path == #[trigger] (held + rest);
            assert(taken.contains_key(held) && path == held + rest);
        } else {
            let rest = choose|rest: Seq<u8>| held == #[trigger] (path + rest);
            assert(taken.contains_key(path + rest));
        }
    }
}

/// While a writer holds a path, every request at a continuation of it, and at every path that
/// it continues, is refused, however long the continuation is.
pub proof fn law_a_writer_has_everything_below_to_itself(
    permissions: Permissions,
    above: Seq<u8>,
    rest: Seq<u8>,
)
    ensures
        permissions.writers.contains_key(above) ==> permissions.read_conflict(above + rest) is Some
            && permissions.write_conflict(above + rest) is Some,
        permissions.writers.contains_key(above + rest) ==> permissions.read_conflict(above) is Some
            && permissions.write_conflict(above) is Some,
        permissions.readers.contains_key(above) ==> permissions.write_conflict(above + rest)
            is Some,
        permissions.readers.contains_key(above + rest) ==> permissions.write_conflict(above)
            is Some,
{
    law_paths_lead_to_their_continuations(above, rest);
}

/// A refusal reports a writer where one stands in the way, and readers otherwise, and of
/// several paths that stand in the way the first.
pub proof fn law_what_refusals_report(permissions: Permissions, path: Seq<u8>, other: Seq<u8>)
    requires
        permissions.readers.dom().finite(),
        permissions.writers.dom().finite(),
    ensures
        permissions.write_conflict(path) matches Some(conflict) ==> match conflict.with {
            IsTracking::WriteZipper => {
                &&& permissions.writers.contains_key(conflict.at)
                &&& overlap(conflict.at, path)
                &&& permissions.writers.contains_key(other) && overlap(other, path) && other
                    != conflict.at ==> path_before(conflict.at, other)
            },
            IsTracking::ReadZipper(count) => {
                &&& permissions.readers.contains_key(conflict.at)
                &&& permissions.readers[conflict.at] == count
                &&& overlap(conflict.at, path)
                &&& permissions.readers.contains_key(other) && overlap(other, path) && other
                    != conflict.at ==> path_before(conflict.at, other)
                &&& permissions.writers.contains_key(other) ==> !overlap(other, path)
            },
        },
        permissions.read_conflict(path) matches Some(conflict) ==> match conflict.with {
            IsTracking::WriteZipper => permissions.write_conflict(path) == Some(conflict),
            IsTracking::ReadZipper(count) => {
                &&& conflict.at == path
                &&& permissions.readers.contains_key(path)
                &&& permissions.readers[path] == count
                &&& count == u32::MAX
                &&& permissions.writers.contains_key(other) ==> !overlap(other, path)
            },
        },
{
    if !is_free(permissions.writers, path) {
        law_a_taken_path_is_met(permissions.writers, path);
    }
    if !is_free(permissions.readers, path) {
        law_a_taken_path_is_met(permissions.readers, path);
    }
}

/// Granting a permission adds it to what is out, and giving it back takes it away; nothing
/// else changes.
pub proof fn law_what_granting_changes(permissions: Permissions, path: Seq<u8>, other: Seq<u8>)
    requires
        permissions.exclusive(),
        other != path,
    ensures
        permissions.read_conflict(path) is None ==> {
            let after = permissions.with_reader(path);
            &&& after.writers == permissions.writers
            &&& after.readers.contains_key(path)
            &&& after.readers[path] == if permissions.readers.contains_key(path) {
                permissions.readers[path] + 1
            } else {
                1
            }
            &&& after.readers.contains_key(other) == permissions.readers.contains_key(other)
            &&& after.readers.contains_key(other) ==> after.readers[other]
                == permissions.readers[other]
        },
        permissions.readers.contains_key(path) ==> {
            let after = permissions.without_reader(path);
            &&& after.writers == permissions.writers
            &&& after.readers.contains_key(path) == (permissions.readers[path] > 1)
            &&& after.readers.contains_key(path) ==> after.readers[path] + 1
                == permissions.readers[path]
            &&& after.readers.contains_key(other) == permissions.readers.contains_key(other)
            &&& after.readers.contains_key(other) ==> after.readers[other]
                == permissions.readers[other]
        },
        permissions.with_writer(path).readers == permissions.readers,
        permissions.with_writer(path).writers.contains_key(path),
        permissions.with_writer(path).writers.contains_key(other)
            == permissions.writers.contains_key(other),
        permissions.without_writer(path).readers == permissions.readers,
        !permissions.without_writer(path).writers.contains_key(path),
        permissions.without_writer(path).writers.contains_key(other)
            == permissions.writers.contains_key(other),
{
}

/// Of the permissions that are out, no writer holds a continuation of what another holds.
pub proof fn law_no_writer_shares_its_paths(
    permissions: Permissions,
    above: Seq<u8>,
    rest: Seq<u8>,
)
    requires
        permissions.exclusive(),
    ensures
        permissions.writers.contains_key(above) && permissions.writers.contains_key(above + rest)
            ==> rest.len() == 0,
        !(permissions.writers.contains_key(above) && permissions.readers.contains_key(
            above + rest,
        )),
        !(permissions.readers.contains_key(above) && permissions.writers.contains_key(
            above + rest,
        )),
{
    law_paths_lead_to_their_continuations(above, rest);
    if rest.len() > 0 {
        assert((above + rest).len() != above.len());
    }
}

}
