//! The random source of the simulation, and the few draws the rules make
//! from it. Nothing here is proved: each function states what the `rand`
//! crate documents of the call it makes.

use vstd::prelude::*;
use rand::Rng;
use rand::rngs::StdRng;
use crate::color::Color;
use crate::port::Port;

verus! {

/// `rand::rngs::StdRng`, the seedable generator that every draw is made from.
/// Its state is opaque to the verifier.
#[verifier::external_type_specification]
#[verifier::external_body]
pub struct ExStdRng(StdRng);

/// `picked` holds the values found at distinct places of `values`: no place
/// was taken twice.
pub open spec fn drawn_from(values: Seq<Color>, picked: Seq<Color>) -> bool {
    exists|at: Seq<int>|
        at.len() == picked.len() && at.no_duplicates() && (forall|k: int|
            0 <= k < picked.len() ==> 0 <= #[trigger] at[k] < values.len() && picked[k]
                == values[at[k]])
}

/// Calls `rand::seq::sample_slice`, which picks `amount` indices of `values`,
/// no index twice, and returns the values found there in the order picked.
/// It panics when asked for more values than there are.
#[verifier::external_body]
pub(crate) fn sample_slice(gen: &mut StdRng, values: &Vec<Color>, amount: usize) -> (picked: Vec<Color>)
    requires
        amount <= values.len(),
    ensures
        picked.len() == amount,
        drawn_from(values@, picked@),
{
    rand::seq::sample_slice(gen, values.as_slice(), amount)
}

/// Calls `Rng::gen_range(0, bound)`, which returns a number from zero up to,
/// but not including, `bound`. It panics on an empty range.
#[verifier::external_body]
pub(crate) fn gen_below(gen: &mut StdRng, bound: usize) -> (n: usize)
    requires
        bound > 0,
    ensures
        n < bound,
{
    gen.gen_range(0, bound)
}

/// Calls `Rng::shuffle`, which reorders the slice in place by swapping pairs
/// of its elements: the same ports are there afterwards, each as often as
/// before.
#[verifier::external_body]
pub(crate) fn shuffle(gen: &mut StdRng, ports: &mut Vec<Port>)
    ensures
        final(ports)@.to_multiset() == old(ports)@.to_multiset(),
{
    gen.shuffle(ports.as_mut_slice())
}

} // verus!
