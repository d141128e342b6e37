//! A space that stores weights at paths.
use vstd::prelude::*;
use vstd::string::*;

use crate::combination::{combined, lemma_fold_step, sum_onto, zero, WeightCombination};
use crate::errors::{
    unauthorized, CommandError, ExternalError, PermissionErrView, WeightedPermissionErr,
    UNAUTHORIZED,
};
use crate::path_table::{listing, PathTable};
use crate::paths::path_before;
use crate::permission_laws::law_returning_a_writer_undoes_it;
use crate::permissions::{
    read_refusal, write_refusal, Permissions, WeightedPermissionHead, WeightedSpaceReader,
    WeightedSpaceWriter,
};
use crate::settle::{settle, Attempt, Settled, SETTLE_MILLIS};
use crate::text::{append_path, path_text};
use crate::weight::{weight_product, weight_sum, Weight, ONE_BITS};
use crate::zipper::{below, lemma_below_everything, WeightedReadZipper};

verus! {

/// What a [`WeightedSpace`] holds.
#[verifier::ext_equal]
pub struct SpaceView {
    /// The weights by their paths
    pub weights: Map<Seq<u8>, Weight>,
    /// The permissions that are out
    pub permissions: Permissions,
    /// The strategy for combining weights
    pub weight_combination: WeightCombination,
}

/// The weights of a map in the order of their paths.
pub open spec fn in_order(weights: Map<Seq<u8>, Weight>) -> Seq<Weight> {
    listing(weights).map_values(|entry: (Seq<u8>, Weight)| entry.1)
}

impl SpaceView {
    /// The weight at `path`.
    pub open spec fn weight_at(self, path: Seq<u8>) -> Option<Weight> {
        if self.weights.contains_key(path) {
            Some(self.weights[path])
        } else {
            None
        }
    }

    /// The space with `weight` at `path`, and otherwise as it is.
    pub open spec fn with_weight(self, path: Seq<u8>, weight: Weight) -> SpaceView {
        SpaceView { weights: self.weights.insert(path, weight), ..self }
    }

    /// The weight at `path` after `weight` is added to it, a missing one counting as zero.
    pub open spec fn added(self, path: Seq<u8>, weight: Weight) -> Weight {
        let current = match self.weight_at(path) {
            Some(current) => current,
            None => zero(),
        };
        weight_sum(current, weight)
    }

    /// The weight at `path` after it is multiplied by `factor`, a missing one counting as one.
    pub open spec fn multiplied(self, path: Seq<u8>, factor: Weight) -> Weight {
        let current = match self.weight_at(path) {
            Some(current) => current,
            None => Weight { bits: ONE_BITS },
        };
        weight_product(current, factor)
    }

    /// The sum of all weights, taken in path order.
    pub open spec fn total(self) -> Weight {
        sum_onto(zero(), in_order(self.weights))
    }
}

/// The answer to a reader at `path` that met what stands in its way.
pub open spec fn reader_refused(permissions: Permissions, path: Seq<u8>) -> PermissionErrView {
    PermissionErrView {
        path,
        message: read_refusal(path, permissions.read_conflict(path)->0),
    }
}

/// The answer to a writer at `path` that met what stands in its way.
pub open spec fn writer_refused(permissions: Permissions, path: Seq<u8>) -> PermissionErrView {
    PermissionErrView {
        path,
        message: write_refusal(path, permissions.write_conflict(path)->0),
    }
}

/// The message that a status which could not be set is answered with, `status` being the
/// text of the status in its way.
pub open spec fn status_refusal(status: Seq<char>, path: Seq<u8>) -> Seq<char> {
    "Conflicting status: "@ + status + " at path: "@ + path_text(path)
        + " when attempting to set new status"@
}

/// A space that stores weights at paths
pub struct WeightedSpace {
    /// The weights by their paths
    primary_map: PathTable<Weight>,
    /// The permissions that are out
    permissions: WeightedPermissionHead,
    /// Strategy for combining weights during transformations
    weight_combination: WeightCombination,
}

impl View for WeightedSpace {
    type V = SpaceView;

    closed spec fn view(&self) -> SpaceView {
        SpaceView {
            weights: self.primary_map@,
            permissions: self.permissions@,
            weight_combination: self.weight_combination,
        }
    }
}

impl WeightedSpace {
    pub closed spec fn wf(self) -> bool {
        &&& self.primary_map.wf()
        &&& self.permissions.wf()
    }

    /// A well-formed space has finitely many weights, and its permissions are exclusive and
    /// finitely many.
    pub proof fn lemma_wf(self)
        requires
            self.wf(),
        ensures
            self@.weights.dom().finite(),
            in_order(self@.weights).len() == self@.weights.dom().len(),
            self@.permissions.exclusive(),
            self@.permissions.readers.dom().finite(),
            self@.permissions.writers.dom().finite(),
    {
        self.primary_map.lemma_listing();
        self.permissions.lemma_wf();
    }

    /// Make a new `WeightedSpace`
    pub fn new() -> (space: Self)
        ensures
            space.wf(),
            space@ == (SpaceView {
                weights: Map::empty(),
                permissions: Permissions { readers: Map::empty(), writers: Map::empty() },
                weight_combination: WeightCombination::Add,
            }),
    {
        Self::with_weight_combination(WeightCombination::default())
    }

    /// Make a new `WeightedSpace` with a specific weight combination strategy
    pub fn with_weight_combination(weight_combination: WeightCombination) -> (space: Self)
        ensures
            space.wf(),
            space@ == (SpaceView {
                weights: Map::empty(),
                permissions: Permissions { readers: Map::empty(), writers: Map::empty() },
                weight_combination,
            }),
    {
        WeightedSpace {
            primary_map: PathTable::new(),
            permissions: WeightedPermissionHead::new(),
            weight_combination,
        }
    }

    /// Get the current weight combination strategy
    pub fn weight_combination(&self) -> (strategy: WeightCombination)
        ensures
            strategy == self@.weight_combination,
    {
        self.weight_combination
    }

    /// Set the weight combination strategy
    pub fn set_weight_combination(&mut self, strategy: WeightCombination)
        ensures
            old(self).wf() ==> final(self).wf(),
            final(self)@ == (SpaceView { weight_combination: strategy, ..old(self)@ }),
    {
        self.weight_combination = strategy;
    }

    /// Combine weights according to the current strategy
    pub fn combine_weights(&self, weights: &[Weight]) -> (weight: Weight)
        ensures
            weight == combined(self@.weight_combination, weights@),
    {
        self.weight_combination.combine(weights)
    }

    /// Requests a new reader at `path`.
    pub fn new_reader(&mut self, path: &[u8], auth: &()) -> (granted: Result<
        WeightedSpaceReader,
        WeightedPermissionErr,
    >)
        requires
            old(self).wf(),
        ensures
            final(self).wf(),
            if old(self)@.permissions.read_conflict(path@) is None {
                granted matches Ok(reader) && reader@ == path@ && final(self)@ == (SpaceView {
                    permissions: old(self)@.permissions.with_reader(path@),
                    ..old(self)@
                })
            } else {
                granted matches Err(error) && error@ == reader_refused(
                    old(self)@.permissions,
                    path@,
                ) && final(self)@ == old(self)@
            },
    {
        self.permissions.new_reader(path, auth)
    }

    /// Requests a new writer at `path`.
    pub fn new_writer(&mut self, path: &[u8], auth: &()) -> (granted: Result<
        WeightedSpaceWriter,
        WeightedPermissionErr,
    >)
        requires
            old(self).wf(),
        ensures
            final(self).wf(),
            if old(self)@.permissions.write_conflict(path@) is None {
                granted matches Ok(writer) && writer@ == path@ && final(self)@ == (SpaceView {
                    permissions: old(self)@.permissions.with_writer(path@),
                    ..old(self)@
                })
            } else {
                granted matches Err(error) && error@ == writer_refused(
                    old(self)@.permissions,
                    path@,
                ) && final(self)@ == old(self)@
            },
    {
        self.permissions.new_writer(path, auth)
    }

    /// Requests a new reader at `path`, and decides whether to answer the request or to let
    /// previous requests settle first.
    pub fn attempt_reader(&mut self, path: &[u8], auth: &(), attempt: Attempt) -> (next: Settled<
        WeightedSpaceReader,
    >)
        requires
            old(self).wf(),
        ensures
            final(self).wf(),
            if old(self)@.permissions.read_conflict(path@) is None {
                next matches Settled::Answer(Ok(reader)) && reader@ == path@ && final(self)@ == (
                SpaceView {
                    permissions: old(self)@.permissions.with_reader(path@),
                    ..old(self)@
                })
            } else {
                final(self)@ == old(self)@ && match attempt {
                    Attempt::First => next == Settled::<WeightedSpaceReader>::Wait(SETTLE_MILLIS),
                    Attempt::AfterSettling => next matches Settled::Answer(Err(error)) && error@
                        == reader_refused(old(self)@.permissions, path@),
                }
            },
    {
        settle(attempt, self.new_reader(path, auth))
    }

    /// Requests a new writer at `path`, and decides whether to answer the request or to let
    /// previous requests settle first.
    pub fn attempt_writer(&mut self, path: &[u8], auth: &(), attempt: Attempt) -> (next: Settled<
        WeightedSpaceWriter,
    >)
        requires
            old(self).wf(),
        ensures
            final(self).wf(),
            if old(self)@.permissions.write_conflict(path@) is None {
                next matches Settled::Answer(Ok(writer)) && writer@ == path@ && final(self)@ == (
                SpaceView {
                    permissions: old(self)@.permissions.with_writer(path@),
                    ..old(self)@
                })
            } else {
                final(self)@ == old(self)@ && match attempt {
                    Attempt::First => next == Settled::<WeightedSpaceWriter>::Wait(SETTLE_MILLIS),
                    Attempt::AfterSettling => next matches Settled::Answer(Err(error)) && error@
                        == writer_refused(old(self)@.permissions, path@),
                }
            },
    {
        settle(attempt, self.new_writer(path, auth))
    }

    /// Takes a reader back.
    pub fn release_reader(&mut self, reader: WeightedSpaceReader)
        requires
            old(self).wf(),
            old(self)@.permissions.readers.contains_key(reader@),
        ensures
            final(self).wf(),
            final(self)@ == (SpaceView {
                permissions: old(self)@.permissions.without_reader(reader@),
                ..old(self)@
            }),
    {
        self.permissions.release_reader(reader);
    }

    /// Takes a writer back.
    pub fn release_writer(&mut self, writer: WeightedSpaceWriter)
        requires
            old(self).wf(),
            old(self)@.permissions.writers.contains_key(writer@),
        ensures
            final(self).wf(),
            final(self)@ == (SpaceView {
                permissions: old(self)@.permissions.without_writer(writer@),
                ..old(self)@
            }),
    {
        self.permissions.release_writer(writer);
    }

    /// Requests several permissions at once: nobody else can ask for one in between.
    pub fn new_multiple<
        F: FnOnce(&mut WeightedPermissionHead) -> Result<(), WeightedPermissionErr>,
    >(&mut self, f: F) -> (outcome: Result<(), WeightedPermissionErr>)
        requires
            old(self).wf(),
            forall|head: &mut WeightedPermissionHead|
                (*head).wf() && (*head)@ == old(self)@.permissions ==> #[trigger] call_requires(
                    f,
                    (head,),
                ),
            forall|head: &mut WeightedPermissionHead, outcome: Result<(), WeightedPermissionErr>|
                (*head).wf() && #[trigger] call_ensures(f, (head,), outcome) ==>
                    (*final(head)).wf(),
        ensures
            final(self).wf(),
            final(self)@ == (SpaceView { permissions: final(self)@.permissions, ..old(self)@ }),
            exists|head: &mut WeightedPermissionHead|
                {
                    &&& (*head)@ == old(self)@.permissions
                    &&& (*final(head))@ == final(self)@.permissions
                    &&& #[trigger] call_ensures(f, (head,), outcome)
                },
    {
        f(&mut self.permissions)
    }

    /// The weights at and below the path of a reader.
    pub fn read_zipper<'r>(&'r self, reader: &WeightedSpaceReader) -> (zipper: WeightedReadZipper<
        'r,
    >)
        requires
            self.wf(),
            self@.permissions.readers.contains_key(reader@),
        ensures
            zipper.wf(),
            zipper.weights() == self@.weights,
            zipper.root() == reader@,
            zipper.steps() == 0,
    {
        WeightedReadZipper::new(&self.primary_map, reader.path())
    }

    /// The weight at the path of a writer.
    pub fn writer_val(&self, writer: &WeightedSpaceWriter) -> (weight: Option<Weight>)
        requires
            self.wf(),
            self@.permissions.writers.contains_key(writer@),
        ensures
            weight == self@.weight_at(writer@),
    {
        self.primary_map.get(writer.path())
    }

    /// Stores a weight at the path of a writer.
    pub fn writer_set_val(&mut self, writer: &WeightedSpaceWriter, weight: Weight)
        requires
            old(self).wf(),
            old(self)@.permissions.writers.contains_key(writer@),
        ensures
            final(self).wf(),
            final(self)@ == old(self)@.with_weight(writer@, weight),
    {
        self.primary_map.set(writer.path(), weight);
    }

    /// Set a weight at a specific path
    pub fn set_weight(&mut self, path: &[u8], weight: Weight) -> (done: Result<
        (),
        WeightedPermissionErr,
    >)
        requires
            old(self).wf(),
        ensures
            final(self).wf(),
            if old(self)@.permissions.write_conflict(path@) is None {
                done is Ok && final(self)@ == old(self)@.with_weight(path@, weight)
            } else {
                done matches Err(error) && error@ == writer_refused(old(self)@.permissions, path@)
                    && final(self)@ == old(self)@
            },
    {
        let writer: WeightedSpaceWriter = match self.new_writer(path, &()) {
            Ok(writer) => writer,
            Err(error) => return Err(error),
        };
        self.writer_set_val(&writer, weight);
        self.release_writer(writer);
        proof {
            law_returning_a_writer_undoes_it(old(self)@.permissions, path@);
        }
        Ok(())
    }

    /// Get a weight at a specific path
    pub fn get_weight(&self, path: &[u8]) -> (weight: Result<
        Option<Weight>,
        WeightedPermissionErr,
    >)
        requires
            self.wf(),
        ensures
            if self@.permissions.read_conflict(path@) is None {
                weight matches Ok(weight) && weight == self@.weight_at(path@)
            } else {
                weight matches Err(error) && error@ == reader_refused(self@.permissions, path@)
            },
    {
        match self.permissions.check_reader(path) {
            Ok(()) => Ok(self.primary_map.get(path)),
            Err(error) => Err(error),
        }
    }

    /// Add to an existing weight at a path, or set it if it doesn't exist
    pub fn add_weight(&mut self, path: &[u8], weight: Weight) -> (sum: Result<
        Weight,
        WeightedPermissionErr,
    >)
        requires
            old(self).wf(),
        ensures
            final(self).wf(),
            if old(self)@.permissions.write_conflict(path@) is None {
                sum == Ok::<Weight, WeightedPermissionErr>(old(self)@.added(path@, weight))
                    && final(self)@ == old(self)@.with_weight(
                    path@,
                    old(self)@.added(path@, weight),
                )
            } else {
                sum matches Err(error) && error@ == writer_refused(old(self)@.permissions, path@)
                    && final(self)@ == old(self)@
            },
    {
        let writer: WeightedSpaceWriter = match self.new_writer(path, &()) {
            Ok(writer) => writer,
            Err(error) => return Err(error),
        };
        let current_weight: Weight = match self.writer_val(&writer) {
            Some(current) => current,
            None => Weight { bits: 0 },
        };
        let new_weight: Weight = current_weight.plus(weight);
        self.writer_set_val(&writer, new_weight);
        self.release_writer(writer);
        proof {
            law_returning_a_writer_undoes_it(old(self)@.permissions, path@);
        }
        Ok(new_weight)
    }

    /// Multiply an existing weight at a path, or set it if it doesn't exist
    pub fn multiply_weight(&mut self, path: &[u8], factor: Weight) -> (product: Result<
        Weight,
        WeightedPermissionErr,
    >)
        requires
            old(self).wf(),
        ensures
            final(self).wf(),
            if old(self)@.permissions.write_conflict(path@) is None {
                product == Ok::<Weight, WeightedPermissionErr>(
                    old(self)@.multiplied(path@, factor),
                ) && final(self)@ == old(self)@.with_weight(
                    path@,
                    old(self)@.multiplied(path@, factor),
                )
            } else {
                product matches Err(error) && error@ == writer_refused(
                    old(self)@.permissions,
                    path@,
                ) && final(self)@ == old(self)@
            },
    {
        let writer: WeightedSpaceWriter = match self.new_writer(path, &()) {
            Ok(writer) => writer,
            Err(error) => return Err(error),
        };
        let current_weight: Weight = match self.writer_val(&writer) {
            Some(current) => current,
            None => Weight { bits: ONE_BITS },
        };
        let new_weight: Weight = current_weight.times(factor);
        self.writer_set_val(&writer, new_weight);
        self.release_writer(writer);
        proof {
            law_returning_a_writer_undoes_it(old(self)@.permissions, path@);
        }
        Ok(new_weight)
    }

    /// Get the total weight of all values in the space
    pub fn total_weight(&self) -> (total: Result<Weight, WeightedPermissionErr>)
        requires
            self.wf(),
        ensures
            if self@.permissions.read_conflict(Seq::empty()) is None {
                total == Ok::<Weight, WeightedPermissionErr>(self@.total())
            } else {
                total matches Err(error) && error@ == reader_refused(
                    self@.permissions,
                    Seq::empty(),
                )
            },
    {
        let top: Vec<u8> = Vec::new();
        assert(top@ =~= Seq::empty());
        if let Err(error) = self.permissions.check_reader(top.as_slice()) {
            return Err(error);
        }
        let ghost all = in_order(self@.weights);
        let ghost start = zero();
        let ghost f = |total: Weight, weight: Weight| weight_sum(total, weight);
        let ghost first: int = if self@.weights.contains_key(Seq::empty()) {
            1
        } else {
            0
        };
        proof {
            self.lemma_from_the_top();
        }
        let mut rz = WeightedReadZipper::new(&self.primary_map, top.as_slice());
        let mut total: Weight = Weight { bits: 0 };
        assert(total == all.take(0).fold_left(start, f)) by {
            assert(all.take(0) =~= Seq::empty());
        }
        if let Some(weight) = rz.val() {
            proof {
                lemma_fold_step(all, 0, start, f);
            }
            total = total.plus(weight);
        }
        let mut more: bool = rz.to_next_val();
        while more
            invariant
                rz.wf(),
                rz.weights() == self@.weights,
                rz.root() == Seq::<u8>::empty(),
                all == in_order(self@.weights),
                0 <= first <= all.len(),
                all.len() == first + below(self@.weights, Seq::empty()).len(),
                forall|j: int|
                    0 <= j < below(self@.weights, Seq::empty()).len() ==> all[first + j]
                        == #[trigger] below(self@.weights, Seq::empty())[j].1,
                f == |total: Weight, weight: Weight| weight_sum(total, weight),
                more ==> 0 < rz.steps() <= below(self@.weights, Seq::empty()).len(),
                total == all.take(
                    if more {
                        first + rz.steps() - 1
                    } else {
                        all.len() as int
                    },
                ).fold_left(start, f),
            decreases
                if more {
                    all.len() - rz.steps() + 1
                } else {
                    0
                },
        {
            if let Some(weight) = rz.val() {
                proof {
                    lemma_fold_step(all, first + rz.steps() - 1, start, f);
                }
                total = total.plus(weight);
            }
            more = rz.to_next_val();
        }
        assert(all.take(all.len() as int) =~= all);
        Ok(total)
    }

    /// Get the count of weighted entries in the space
    pub fn weight_count(&self) -> (count: Result<usize, WeightedPermissionErr>)
        requires
            self.wf(),
        ensures
            if self@.permissions.read_conflict(Seq::empty()) is None {
                count matches Ok(count) && count == self@.weights.dom().len()
            } else {
                count matches Err(error) && error@ == reader_refused(
                    self@.permissions,
                    Seq::empty(),
                )
            },
    {
        let top: Vec<u8> = Vec::new();
        assert(top@ =~= Seq::empty());
        if let Err(error) = self.permissions.check_reader(top.as_slice()) {
            return Err(error);
        }
        let limit: usize = self.primary_map.len();
        let ghost first: int = if self@.weights.contains_key(Seq::empty()) {
            1
        } else {
            0
        };
        proof {
            self.lemma_wf();
            self.lemma_from_the_top();
        }
        let mut rz = WeightedReadZipper::new(&self.primary_map, top.as_slice());
        let mut count: usize = 0;
        if rz.val().is_some() {
            count = 1;
        }
        let mut more: bool = rz.to_next_val();
        while more
            invariant
                rz.wf(),
                rz.weights() == self@.weights,
                rz.root() == Seq::<u8>::empty(),
                0 <= first,
                limit == first + below(self@.weights, Seq::empty()).len(),
                more ==> 0 < rz.steps() <= below(self@.weights, Seq::empty()).len(),
                count == if more {
                    first + rz.steps() - 1
                } else {
                    limit as int
                },
            decreases
                if more {
                    limit - rz.steps() + 1
                } else {
                    0
                },
        {
            count = count + 1;
            more = rz.to_next_val();
        }
        Ok(count)
    }

    /// A walk below the empty path comes to every weight but the one at the empty path,
    /// which is the first of all.
    proof fn lemma_from_the_top(self)
        requires
            self.wf(),
        ensures
            ({
                let all = in_order(self@.weights);
                let rest = below(self@.weights, Seq::empty());
                let first: int = if self@.weights.contains_key(Seq::empty()) {
                    1
                } else {
                    0
                };
                &&& all.len() == listing(self@.weights).len() == first + rest.len()
                &&& first == 1 ==> all[0] == self@.weights[Seq::empty()]
                &&& forall|j: int| 0 <= j < rest.len() ==> all[first + j] == #[trigger] rest[j].1
            }),
    {
        let rows = listing(self@.weights);
        self.primary_map.lemma_listing();
        lemma_below_everything(rows);
        if self@.weights.contains_key(Seq::empty()) {
            let i = choose|i: int| 0 <= i < rows.len() && #[trigger] rows[i].0 == Seq::<u8>::empty();
            if i > 0 {
                assert(path_before(rows[0].0, rows[i].0));
            }
        } else if rows.len() > 0 && rows[0].0.len() == 0 {
            assert(rows[0].0 =~= Seq::empty());
        }
    }

    /// Answers a request to set the status of a path, from what the status map made of it:
    /// where it refused, `outcome` has the text of the status that stood in the way.
    pub fn set_user_status(&self, path: &[u8], outcome: Result<(), String>) -> (answer: Result<
        (),
        CommandError,
    >)
        ensures
            match outcome {
                Ok(()) => answer is Ok,
                Err(status) => answer matches Err(CommandError::External(external))
                    && external@.status == UNAUTHORIZED && external@.message == status_refusal(
                    status@,
                    path@,
                ),
            },
    {
        match outcome {
            Ok(()) => Ok(()),
            Err(status) => {
                let mut message = "Conflicting status: ".to_owned();
                message.append(status.as_str());
                message.append(" at path: ");
                append_path(&mut message, path);
                message.append(" when attempting to set new status");
                Err(CommandError::External(ExternalError::new(unauthorized(), message)))
            },
        }
    }
}

}
