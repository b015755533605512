//! Random choices.
//!
//! All chance comes from one generator that the caller hands in.  Nothing
//! is known of a draw but the range it lies in, so whatever is built on a
//! draw is proved for every value that the draw may have.

use vstd::prelude::*;
use rand::XorShiftRng;
use crate::geom::CellVector;
use crate::location::Location;

verus! {

/// The generator `XorShiftRng` of `rand`.  It is handed on as it is:
/// nothing is known of what it holds.
#[verifier::external_type_specification]
#[verifier::external_body]
pub struct ExXorShiftRng(XorShiftRng);

/// Calls `SeedableRng::from_seed` of `rand` with four copies of `seed`.
/// That call panics on a seed of zeros only, which is left out here.
#[verifier::external_body]
pub(crate) fn seeded(seed: u32) -> (rng: XorShiftRng)
    requires
        seed != 0,
{
    rand::SeedableRng::from_seed([seed, seed, seed, seed])
}

/// Calls `Rng::gen_range` of `rand` on `i32`.  The call panics unless
/// `low < high`; its result lies in `low..high`.
#[verifier::external_body]
pub(crate) fn gen_range_i32(rng: &mut XorShiftRng, low: i32, high: i32) -> (r: i32)
    requires
        low < high,
    ensures
        low <= r < high,
{
    rand::Rng::gen_range(rng, low, high)
}

/// Calls `Rng::gen_range` of `rand` on `usize`, from zero.  The call
/// panics unless `0 < n`; its result lies in `0..n`.
#[verifier::external_body]
pub(crate) fn gen_index(rng: &mut XorShiftRng, n: usize) -> (r: usize)
    requires
        0 < n,
    ensures
        r < n,
{
    rand::Rng::gen_range(rng, 0usize, n)
}

/// Calls `seq::sample_iter` of `rand` for one item of `items`.  With at
/// least one item to draw from the call returns `Ok` with one of them.
#[verifier::external_body]
pub(crate) fn sample_one(rng: &mut XorShiftRng, items: &Vec<CellVector>) -> (r: CellVector)
    requires
        items@.len() > 0,
    ensures
        items@.contains(r),
{
    *rand::seq::sample_iter(rng, items, 1).unwrap()[0]
}

/// Calls `sample` of `rand` for up to `amount` of `items`.  The call
/// returns all of `items` where they are no more than `amount`, and else
/// `amount` of them.
#[verifier::external_body]
#[allow(deprecated)]
pub(crate) fn sample_locations(rng: &mut XorShiftRng, items: &Vec<Location>, amount: usize) -> (r:
    Vec<Location>)
    ensures
        r@.len() == if items@.len() < amount { items@.len() } else { amount as nat },
        forall|i: int| 0 <= i < r@.len() ==> items@.contains(#[trigger] r@[i]),
{
    rand::sample(rng, items.iter().copied(), amount)
}

/// One item of `items`, or none if there is none.
pub fn pick_slice(rng: &mut XorShiftRng, items: &Vec<CellVector>) -> (r: Option<CellVector>)
    ensures
        items@.len() == 0 ==> r is None,
        items@.len() > 0 ==> r is Some && items@.contains(r->0),
{
    if items.len() == 0 {
        None
    } else {
        let i = gen_index(rng, items.len());
        Some(items[i])
    }
}

} // verus!
