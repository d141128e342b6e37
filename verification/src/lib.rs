//! Weighted spaces: weights stored at paths, and the permissions to read and write them.
//!
//! A [`WeightedSpace`] keeps a weight at each of some paths. Whoever works on a path holds a
//! permission for it and for everything below it: any number of readers at a time, or one
//! writer alone. Weights are binary64 numbers; their arithmetic is defined and proved here
//! down to the last bit, so that sums, products and averages have exact contracts.
//!
//! - [`weight`], on top of [`rounding`] and [`binary64`]: weights and their arithmetic
//! - [`combination`]: strategies for combining weights
//! - [`paths`] and [`path_table`]: the order of paths, and tables in that order
//! - [`conflict`], [`permissions`] and [`settle`]: who may read and write what
//! - [`zipper`]: walking the weights below a path
//! - [`space`]: the weighted space itself
//! - [`text`] and [`errors`]: what refused requests are answered with
//! - [`arithmetic_laws`], [`weight_laws`], [`path_laws`], [`permission_laws`], [`space_laws`]
//!   and [`text_laws`]: what follows from the contracts

pub mod arithmetic_laws;
pub mod binary64;
pub mod combination;
pub mod conflict;
pub mod errors;
pub mod path_laws;
pub mod path_table;
pub mod paths;
pub mod permission_laws;
pub mod permissions;
pub mod rounding;
pub mod settle;
pub mod space;
pub mod space_laws;
pub mod text;
pub mod text_laws;
pub mod weight;
pub mod weight_laws;
pub mod zipper;

pub use combination::WeightCombination;
pub use errors::{ServerPermissionErr, WeightedPermissionErr};
pub use permissions::{WeightedPermissionHead, WeightedSpaceReader, WeightedSpaceWriter};
pub use space::WeightedSpace;
