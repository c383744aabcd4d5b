//! The SpacetimeDB items that the board logic handles.
use spacetimedb::rand::Rng;
use spacetimedb::{Identity, ReducerContext};
use vstd::prelude::*;

verus! {

/// The context handed to every reducer; the board logic only draws random
/// numbers from it.
#[verifier::external_type_specification]
#[verifier::external_body]
pub struct ExReducerContext(ReducerContext);

/// The identity of a connected client; carried through unchanged.
#[verifier::external_type_specification]
#[verifier::external_body]
pub struct ExIdentity(Identity);

/// Draws a number uniformly from `0..n` with the reducer's random number
/// generator, through `rand::Rng::gen_range` on `ReducerContext::rng`.
///
/// `gen_range` panics on an empty range, hence `n > 0`. The value depends on
/// the generator's state, so only its range is stated.
#[verifier::external_body]
pub(crate) fn gen_range_below(ctx: &ReducerContext, n: u8) -> (r: u8)
    requires
        n > 0,
    ensures
        r < n,
{
    let mut rng = ctx.rng();
    rng.gen_range(0..n)
}

} // verus!
