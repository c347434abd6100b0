//! Functions that an extension implements.

use vstd::prelude::*;
use std::fmt::Display;
use crate::value::Value;

verus! {

/// An aggregate function. Each group of rows has a state of its own, which starts at its default
/// value, takes the arguments of each row in turn, and is turned into the result at the end.
pub trait AggFunc {
    type State: Default;

    type Error: Display;

    const NAME: &'static str;

    const ARGS: i32;

    fn step(state: &mut Self::State, args: &[Value]);

    fn finalize(state: Self::State) -> Result<Value, Self::Error>;
}

/// A scalar function that carries opaque, per-registration state.
///
/// `State` is constructed once per registration via [`ScalarFunc::init`], shared by reference
/// across every invocation, and dropped when the function is unregistered or the owning connection
/// is dropped. Because a single registration is shared across connections and may be invoked
/// concurrently, `State` must be `Send + Sync`.
pub trait ScalarFunc {
    type State: Send + Sync;

    const NAME: &'static str;

    const ALIAS: Option<&'static str> = None;

    fn init() -> Self::State;

    fn call(state: &Self::State, args: &[Value]) -> Value;
}

} // verus!
