//! What holds of a weighted space as a whole.
use vstd::arithmetic::power2::pow2;
use vstd::math::abs;
use vstd::prelude::*;

use crate::arithmetic_laws::{law_products_are_rounded, law_sums_are_rounded};
use crate::combination::zero;
use crate::path_laws::{
    law_paths_lead_to_nothing_else, law_paths_lead_to_their_continuations,
};
use crate::path_table::{
    entry_map, in_path_order, lemma_entry_map, lemma_listing_is, listing,
};
use crate::paths::{
    leads_to, lemma_path_before_total, lemma_path_before_transitive, path_before,
};
use crate::permission_laws::law_who_may_write_may_read;
use crate::permissions::{is_free, Permissions};
use crate::space::{in_order, SpaceView};
use crate::weight::{signed, weight_product, weight_sum, Weight, ONE_BITS};
use crate::weight_laws::{law_adding_to_zero, law_one_is_neutral, lemma_units_of_one};
use crate::zipper::{below, lies_below};

verus! {

/// A weight that was set at a path is read at that path, and can be read where it could be
/// set.
pub proof fn law_reads_give_back_writes(space: SpaceView, path: Seq<u8>, weight: Weight)
    requires
        space.permissions.write_conflict(path) is None,
    ensures
        space.with_weight(path, weight).permissions.read_conflict(path) is None,
        space.with_weight(path, weight).weight_at(path) == Some(weight),
{
    law_who_may_write_may_read(space.permissions, path);
}

/// Setting a weight changes the weight at no other path.
pub proof fn law_writes_leave_other_paths(
    space: SpaceView,
    path: Seq<u8>,
    weight: Weight,
    other: Seq<u8>,
)
    requires
        other != path,
    ensures
        space.with_weight(path, weight).weight_at(other) == space.weight_at(other),
{
}

/// Of two weights that were set at a path the later one counts.
pub proof fn law_the_last_write_counts(
    space: SpaceView,
    path: Seq<u8>,
    first: Weight,
    second: Weight,
)
    ensures
        space.with_weight(path, first).with_weight(path, second) == space.with_weight(path, second),
{
    assert(space.weights.insert(path, first).insert(path, second) =~= space.weights.insert(
        path,
        second,
    ));
}

/// The order in which weights are set at different paths does not matter.
pub proof fn law_writes_commute(
    space: SpaceView,
    path: Seq<u8>,
    weight: Weight,
    other: Seq<u8>,
    other_weight: Weight,
)
    requires
        path != other,
    ensures
        space.with_weight(path, weight).with_weight(other, other_weight) == space.with_weight(
            other,
            other_weight,
        ).with_weight(path, weight),
{
    assert(space.weights.insert(path, weight).insert(other, other_weight)
        =~= space.weights.insert(other, other_weight).insert(path, weight));
}

/// Adding a weight where there is none sets it: a number other than minus zero comes out
/// as it went in.
pub proof fn law_adding_where_nothing_is_sets(space: SpaceView, path: Seq<u8>, weight: Weight)
    requires
        space.weight_at(path) is None,
        !weight.is_nan(),
        weight != signed(true, 0),
    ensures
        space.added(path, weight) == weight,
{
    law_adding_to_zero(weight);
}

/// Multiplying where there is no weight sets the factor, which has to be a number.
pub proof fn law_multiplying_where_nothing_is_sets(
    space: SpaceView,
    path: Seq<u8>,
    factor: Weight,
)
    requires
        space.weight_at(path) is None,
        !factor.is_nan(),
    ensures
        space.multiplied(path, factor) == factor,
{
    law_one_is_neutral(factor);
}

/// A space without weights and permissions has a count and a total of zero, and every
/// permission can be had.
pub proof fn law_an_empty_space_is_open(space: SpaceView, path: Seq<u8>)
    requires
        space.weights == Map::<Seq<u8>, Weight>::empty(),
        space.permissions == (Permissions { readers: Map::empty(), writers: Map::empty() }),
    ensures
        space.weight_at(path) is None,
        space.weights.dom().len() == 0,
        space.total() == zero(),
        space.total().bits == 0,
        space.permissions.read_conflict(path) is None,
        space.permissions.write_conflict(path) is None,
{
    let none = Seq::<(Seq<u8>, Weight)>::empty();
    lemma_listing_is(none);
    assert(in_order(space.weights) =~= Seq::empty());
    assert(is_free(space.permissions.readers, path));
}

/// Setting a weight adds one to the count where there was none, and nothing else.
pub proof fn law_count_grows_with_new_paths(space: SpaceView, path: Seq<u8>, weight: Weight)
    requires
        space.weights.dom().finite(),
    ensures
        space.with_weight(path, weight).weights.dom().finite(),
        space.with_weight(path, weight).weights.dom().len() == if space.weights.contains_key(path) {
            space.weights.dom().len()
        } else {
            space.weights.dom().len() + 1
        },
{
    let after = space.with_weight(path, weight).weights;
    assert(after.dom() =~= space.weights.dom().insert(path));
}

/// Some path of a finite set comes after all others.
proof fn lemma_last(paths: Set<Seq<u8>>) -> (last: Seq<u8>)
    requires
        paths.finite(),
        !paths.is_empty(),
    ensures
        paths.contains(last),
        forall|other: Seq<u8>| #[trigger]
            paths.contains(other) && other != last ==> path_before(other, last),
    decreases paths.len(),
{
    let some = paths.choose();
    let rest = paths.remove(some);
    if rest.is_empty() {
        assert forall|other: Seq<u8>| #[trigger] paths.contains(other) implies other == some by {
            assert(!rest.contains(other));
        }
        some
    } else {
        let last = lemma_last(rest);
        lemma_path_before_total(last, some);
        if path_before(last, some) {
            assert forall|other: Seq<u8>| #[trigger]
                paths.contains(other) && other != some implies path_before(other, some) by {
                assert(rest.contains(other));
                if other != last {
                    lemma_path_before_transitive(other, last, some);
                }
            }
            some
        } else {
            assert forall|other: Seq<u8>| #[trigger]
                paths.contains(other) && other != last implies path_before(other, last) by {
                if other != some {
                    assert(rest.contains(other));
                }
            }
            last
        }
    }
}

/// The listing of a finite map has each of its entries once, in the order of their paths.
pub proof fn law_listings_are_complete<V>(map: Map<Seq<u8>, V>)
    requires
        map.dom().finite(),
    ensures
        in_path_order(listing(map)),
        listing(map).len() == map.dom().len(),
        forall|i: int|
            0 <= i < listing(map).len() ==> map.contains_key(#[trigger] listing(map)[i].0)
                && map[listing(map)[i].0] == listing(map)[i].1,
        forall|path: Seq<u8>| #[trigger]
            map.contains_key(path) ==> exists|i: int|
                0 <= i < listing(map).len() && #[trigger] listing(map)[i].0 == path,
        entry_map(listing(map)) == map,
    decreases map.dom().len(),
{
    if map.dom().is_empty() {
        let none = Seq::<(Seq<u8>, V)>::empty();
        assert(entry_map(none) =~= map);
        lemma_listing_is(none);
    } else {
        let last = lemma_last(map.dom());
        let rest = map.remove(last);
        assert(rest.dom() =~= map.dom().remove(last));
        law_listings_are_complete(rest);
        let init = listing(rest);
        let entries = init.push((last, map[last]));
        assert(entries.drop_last() =~= init);
        assert(entry_map(entries) =~= map);
        assert forall|i: int, j: int| 0 <= i < j < entries.len() implies path_before(
            #[trigger] entries[i].0,
            #[trigger] entries[j].0,
        ) by {
            assert(entries[i] == init[i]);
            assert(rest.contains_key(init[i].0));
            assert(map.dom().contains(init[i].0));
            if j < init.len() {
                assert(entries[j] == init[j]);
            }
        }
        lemma_listing_is(entries);
        lemma_entry_map(entries);
    }
}

/// A walk below a path comes to each entry strictly below it once, in the order of their
/// paths.
pub proof fn law_walks_are_complete<V>(map: Map<Seq<u8>, V>, root: Seq<u8>)
    requires
        map.dom().finite(),
    ensures
        in_path_order(below(map, root)),
        forall|i: int|
            0 <= i < below(map, root).len() ==> {
                let entry = #[trigger] below(map, root)[i];
                &&& map.contains_key(entry.0) && map[entry.0] == entry.1
                &&& leads_to(root, entry.0) && entry.0 != root
            },
        forall|path: Seq<u8>| #[trigger]
            map.contains_key(path) && leads_to(root, path) && path != root ==> exists|i: int|
                0 <= i < below(map, root).len() && #[trigger] below(map, root)[i].0 == path,
{
    let rows = listing(map);
    law_listings_are_complete(map);
    lemma_filtered_order(rows, lies_below(root));
    assert forall|path: Seq<u8>| #[trigger]
        map.contains_key(path) && leads_to(root, path) && path != root implies exists|i: int|
        0 <= i < below(map, root).len() && #[trigger] below(map, root)[i].0 == path by {
        let j = choose|j: int| 0 <= j < rows.len() && #[trigger] rows[j].0 == path;
        rows.lemma_filter_contains(lies_below(root), j);
        let i = choose|i: int| 0 <= i < below(map, root).len() && below(map, root)[i] == rows[j];
        assert(below(map, root)[i].0 == path);
    }
}

proof fn lemma_filtered_order<V>(
    entries: Seq<(Seq<u8>, V)>,
    wanted: spec_fn((Seq<u8>, V)) -> bool,
)
    requires
        in_path_order(entries),
    ensures
        in_path_order(entries.filter(wanted)),
        forall|i: int|
            0 <= i < entries.filter(wanted).len() ==> wanted(
                #[trigger] entries.filter(wanted)[i],
            ) && exists|j: int|
                0 <= j < entries.len() && #[trigger] entries[j] == entries.filter(wanted)[i],
    decreases entries.len(),
{
    reveal(Seq::filter);
    if entries.len() > 0 {
        let init = entries.drop_last();
        let last = entries.last();
        lemma_filtered_order(init, wanted);
        let before = init.filter(wanted);
        let kept = entries.filter(wanted);
        assert forall|i: int| 0 <= i < kept.len() implies wanted(#[trigger] kept[i]) && exists|j: int|
            0 <= j < entries.len() && #[trigger] entries[j] == kept[i] by {
            if i < before.len() {
                assert(kept[i] == before[i]);
                let j = choose|j: int| 0 <= j < init.len() && #[trigger] init[j] == before[i];
                assert(entries[j] == kept[i]);
            } else {
                assert(entries[entries.len() - 1] == kept[i]);
            }
        }
        assert forall|i: int, j: int| 0 <= i < j < kept.len() implies path_before(
            #[trigger] kept[i].0,
            #[trigger] kept[j].0,
        ) by {
            assert(kept[i] == before[i]);
            if j < before.len() {
                assert(kept[j] == before[j]);
            } else {
                let at = choose|at: int| 0 <= at < init.len() && #[trigger] init[at] == before[i];
                assert(entries[at] == before[i]);
                assert(path_before(entries[at].0, entries[entries.len() - 1].0));
            }
        }
    }
}

/// The total of a space with one weight is that weight: a number other than minus zero.
pub proof fn law_total_of_one_weight(space: SpaceView, path: Seq<u8>, weight: Weight)
    requires
        space.weights == Map::<Seq<u8>, Weight>::empty().insert(path, weight),
        !weight.is_nan(),
        weight != signed(true, 0),
    ensures
        space.total() == weight,
{
    let rows = seq![(path, weight)];
    assert(rows.drop_last() =~= Seq::empty());
    reveal_with_fuel(entry_map, 2);
    assert(entry_map(rows) =~= space.weights);
    lemma_listing_is(rows);
    reveal_with_fuel(Seq::fold_left, 2);
    assert(in_order(space.weights) =~= seq![weight]);
    assert(seq![weight].drop_last() =~= Seq::empty());
    law_adding_to_zero(weight);
}

/// Every weight of a space is at its path, and setting one touches neither the permissions nor
/// the strategy.
pub proof fn law_weights_are_at_their_paths(space: SpaceView, path: Seq<u8>, weight: Weight)
    ensures
        space.weight_at(path) == Some(weight) <==> space.weights.contains_key(path)
            && space.weights[path] == weight,
        space.weight_at(path) is None <==> !space.weights.contains_key(path),
        space.with_weight(path, weight).permissions == space.permissions,
        space.with_weight(path, weight).weight_combination == space.weight_combination,
{
}

/// Adding to a weight gives the weight nearest to the exact sum of the two, whatever their
/// signs: no finite weight is nearer, ties go to the even one, and a sum that some weight
/// stands for comes out exactly.
pub proof fn law_adding_to_a_weight(
    space: SpaceView,
    path: Seq<u8>,
    current: Weight,
    weight: Weight,
    other: Weight,
)
    requires
        space.weight_at(path) == Some(current),
        current.is_finite(),
        weight.is_finite(),
        other.is_finite(),
    ensures
        ({
            let sum = space.added(path, weight);
            let exact = current.value() + weight.value();
            let off = abs(sum.value() - exact);
            let other_off = abs(other.value() - exact);
            &&& !sum.is_nan()
            &&& sum.is_infinite() <==> 2 * abs(exact) >= (pow2(54) - 1) * pow2(2045)
            &&& sum.is_finite() ==> off <= other_off
            &&& sum.is_finite() && off == other_off && other.value() != sum.value() ==> sum.bits % 2
                == 0
            &&& other.value() == exact ==> sum.is_finite() && sum.value() == exact
            &&& sum.negative() == (exact < 0 || (exact == 0 && current.negative()
                && weight.negative()))
        }),
{
    law_sums_are_rounded(current, weight, other);
}

/// Adding where there is a weight and adding where there is none relate to the sum of two
/// weights, whether they are finite or not: a missing weight counts as zero.
pub proof fn law_adding_is_taking_the_sum(space: SpaceView, path: Seq<u8>, weight: Weight)
    ensures
        space.weight_at(path) matches Some(current) ==> space.added(path, weight) == weight_sum(
            current,
            weight,
        ),
        space.weight_at(path) is None ==> space.added(path, weight) == weight_sum(
            Weight { bits: 0 },
            weight,
        ),
{
}

/// Multiplying a weight gives the weight nearest to the exact product of the two, for factors
/// of any size and sign: no finite weight is nearer, ties go to the even one, and a product
/// that some weight stands for comes out exactly.
pub proof fn law_multiplying_a_weight(
    space: SpaceView,
    path: Seq<u8>,
    current: Weight,
    factor: Weight,
    other: Weight,
)
    requires
        space.weight_at(path) == Some(current),
        current.is_finite(),
        factor.is_finite(),
        other.is_finite(),
    ensures
        ({
            let product = space.multiplied(path, factor);
            let exact = current.value() * factor.value();
            let off = abs(product.value() * pow2(1074) - exact);
            let other_off = abs(other.value() * pow2(1074) - exact);
            &&& !product.is_nan()
            &&& product.is_infinite() <==> 2 * abs(exact) >= ((pow2(54) - 1) * pow2(2045)) * pow2(
                1074,
            )
            &&& product.is_finite() ==> off <= other_off
            &&& product.is_finite() && off == other_off && other.value() != product.value()
                ==> product.bits % 2 == 0
            &&& other.value() * pow2(1074) == exact ==> product.is_finite() && product.value()
                == other.value()
            &&& product.negative() == (current.negative() != factor.negative())
        }),
{
    law_products_are_rounded(current, factor, other);
}

/// Multiplying where there is a weight and multiplying where there is none relate to the
/// product of two weights, whether they are finite or not: a missing weight counts as one.
pub proof fn law_multiplying_is_taking_the_product(
    space: SpaceView,
    path: Seq<u8>,
    factor: Weight,
)
    ensures
        space.weight_at(path) matches Some(current) ==> space.multiplied(path, factor)
            == weight_product(current, factor),
        space.weight_at(path) is None ==> space.multiplied(path, factor) == weight_product(
            Weight { bits: ONE_BITS },
            factor,
        ),
        (Weight { bits: ONE_BITS }).value() == pow2(1074),
{
    lemma_units_of_one();
}

/// A weight at a path that comes after all others is added to the total of the others. With
/// the total of the space without weights, this fixes the total of every space.
pub proof fn law_totals_add_up(space: SpaceView, path: Seq<u8>, weight: Weight)
    requires
        space.weights.dom().finite(),
        forall|other: Seq<u8>| #[trigger]
            space.weights.contains_key(other) ==> path_before(other, path),
    ensures
        space.with_weight(path, weight).total() == weight_sum(space.total(), weight),
{
    let rows = listing(space.weights);
    law_listings_are_complete(space.weights);
    let more = rows.push((path, weight));
    assert(more.drop_last() =~= rows);
    assert forall|i: int, j: int| 0 <= i < j < more.len() implies path_before(
        #[trigger] more[i].0,
        #[trigger] more[j].0,
    ) by {
        assert(more[i] == rows[i]);
        assert(space.weights.contains_key(rows[i].0));
        if j < rows.len() {
            assert(more[j] == rows[j]);
        }
    }
    assert(entry_map(more) =~= space.weights.insert(path, weight));
    lemma_listing_is(more);
    let all = in_order(space.weights);
    let after = in_order(space.with_weight(path, weight).weights);
    assert(after =~= all.push(weight));
    assert(after.drop_last() =~= all);
}

/// The total of a space does not depend on its permissions, its strategy or the order in which
/// its weights were set.
pub proof fn law_totals_depend_on_weights_alone(a: SpaceView, b: SpaceView)
    requires
        a.weights == b.weights,
    ensures
        a.total() == b.total(),
{
}

/// A walk below a path comes to every stored continuation of it, however long.
pub proof fn law_walks_come_to_all_continuations<V>(
    map: Map<Seq<u8>, V>,
    root: Seq<u8>,
    rest: Seq<u8>,
)
    requires
        map.dom().finite(),
        rest.len() > 0,
        map.contains_key(root + rest),
    ensures
        below(map, root).contains((root + rest, map[root + rest])),
{
    law_walks_are_complete(map, root);
    law_paths_lead_to_their_continuations(root, rest);
    assert((root + rest).len() != root.len());
    let walk = below(map, root);
    let i = choose|i: int| 0 <= i < walk.len() && #[trigger] walk[i].0 == root + rest;
    assert(walk[i] == (root + rest, map[root + rest]));
}

/// A walk below a path comes to stored continuations of it only, each once and in path order.
pub proof fn law_walks_come_to_nothing_else<V>(map: Map<Seq<u8>, V>, root: Seq<u8>)
    requires
        map.dom().finite(),
    ensures
        forall|i: int|
            0 <= i < below(map, root).len() ==> {
                let entry = #[trigger] below(map, root)[i];
                &&& entry.0 == root + entry.0.skip(root.len() as int)
                &&& entry.0.len() > root.len()
                &&& map.contains_key(entry.0) && map[entry.0] == entry.1
            },
        forall|i: int, j: int|
            0 <= i < j < below(map, root).len() ==> path_before(
                #[trigger] below(map, root)[i].0,
                #[trigger] below(map, root)[j].0,
            ),
{
    law_walks_are_complete(map, root);
    let walk = below(map, root);
    assert forall|i: int| 0 <= i < walk.len() implies (#[trigger] walk[i]).0 == root
        + walk[i].0.skip(root.len() as int) && walk[i].0.len() > root.len() by {
        law_paths_lead_to_nothing_else(root, walk[i].0);
        if walk[i].0.len() == root.len() {
            assert(walk[i].0.take(root.len() as int) =~= walk[i].0);
        }
    }
}

}
