//! Bisection search over a fixed set of objects: finds every object that,
//! alone or together with others, makes a test show a given behavior.
//!
//! The objects are cut into groups of neighbours. A group is tested with
//! exactly its objects enabled. Where the test does not show the behavior,
//! the group is harmless. Where it does, a single object is a culprit, and
//! a larger group is cut in two, both halves to be tested in their turn.
//! The search is over when no group is left to test. It finds every culprit
//! however many there are, as long as each of them shows the behavior by
//! itself.
//!
//! - `behavior`: what is known of a group, and the two states of an
//!   object.
//! - `group`: ranges of indices, how they split, and `order`, the order in
//!   which they are picked for testing.
//! - `object`: what an object has to offer to be searched, and `runner`,
//!   what a test has to offer.
//! - `partition`: the groups of a search and what a test result does to
//!   them.
//! - `controller`: the search itself, step by step or in one run.
//! - `search`: what a search arrives at, and after how many tests.
//! - `debug`: a set of numbers to try it all out on.
//! - `action`: objects that are switched by applying and unapplying them
//!   to a value.

pub mod behavior;
pub mod error;
pub mod group;
pub mod order;
pub mod object;
pub mod runner;
pub mod partition;
pub mod controller;
pub mod search;
pub mod debug;
pub mod action;

pub use crate::action::ActionSet;
pub use crate::action::Actionable;
pub use crate::behavior::Behavior;
pub use crate::behavior::State;
pub use crate::controller::Bisection;
pub use crate::error::BisectError;
pub use crate::group::Group;
pub use crate::object::Stateful;
pub use crate::runner::TestRunner;
