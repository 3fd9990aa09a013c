//! The generator that the placement draws from.
//!
//! A generator is made from a seed and is asked, time after time, for one
//! item of a list or for a new order of a list. What it answers is a
//! function of its seed and of what it was asked before: the same seed and
//! the same requests give the same answers.

use rand::seq::SliceRandom;
use rand_core::SeedableRng;
use rand_pcg::Pcg32;
use vstd::prelude::*;

verus! {

/// The generator of `rand_pcg` that makes the draws.
#[verifier::external_type_specification]
#[verifier::external_body]
pub struct ExPcg32(rand_pcg::Lcg64Xsh32);

/// One request to a generator, with the length of the list that it was
/// made for.
pub enum Draw {
    /// One item of a list was asked for.
    Pick(nat),
    /// A new order of a list was asked for.
    Shuffle(nat),
}

/// A generator with the seed that it was made from and the requests that
/// it has answered. A generator is made by `Generator::new` only, and only
/// the functions of this file draw from it, so that the seed and the
/// requests kept beside it are always those that have led to its state.
pub struct Generator {
    rng: Pcg32,
    seed: Ghost<u64>,
    past: Ghost<Seq<Draw>>,
}

impl Generator {
    /// The seed that the generator was made from.
    pub closed spec fn seed(&self) -> u64 {
        self.seed@
    }

    /// The requests that the generator has answered, in order.
    pub closed spec fn past(&self) -> Seq<Draw> {
        self.past@
    }

    /// A generator for a seed, which has answered nothing yet.
    pub fn new(seed: u64) -> (g: Generator)
        ensures
            g.seed() == seed,
            g.past() == Seq::<Draw>::empty(),
    {
        seeded_rng(seed)
    }
}

/// The place in a list of `len` items of the item that a generator picks
/// which was made from `seed` and has answered `past`.
pub uninterp spec fn picked(seed: u64, past: Seq<Draw>, len: nat) -> nat;

/// The order that a generator gives a list of `len` items which was made
/// from `seed` and has answered `past`: for each new place, the old place
/// of the item that goes there.
pub uninterp spec fn shuffled(seed: u64, past: Seq<Draw>, len: nat) -> Seq<int>;

/// The list in the order that `order` gives: at each place stands the item
/// from the old place that `order` names.
pub open spec fn arranged<T>(items: Seq<T>, order: Seq<int>) -> Seq<T> {
    Seq::new(items.len(), |i: int| items[order[i]])
}

/// Makes a generator from a seed with `SeedableRng::seed_from_u64`, whose
/// state is a function of the seed; it has answered nothing.
#[verifier::external_body]
fn seeded_rng(seed: u64) -> (g: Generator)
    ensures
        g.seed() == seed,
        g.past() == Seq::<Draw>::empty(),
{
    Generator { rng: Pcg32::seed_from_u64(seed), seed: Ghost(seed), past: Ghost(Seq::empty()) }
}

/// Shuffles `items` with `SliceRandom::shuffle`, which only swaps items,
/// at places that it draws from the generator by the length of the list
/// alone: the same items are there afterwards, in the order that the
/// contract names `shuffled(seed, past, len)`.
#[verifier::external_body]
pub(crate) fn shuffle<T>(g: &mut Generator, items: &mut Vec<T>)
    ensures
        final(g).seed() == old(g).seed(),
        final(g).past() == old(g).past().push(Draw::Shuffle(old(items)@.len())),
        final(items)@.to_multiset() == old(items)@.to_multiset(),
        final(items)@ == arranged(
            old(items)@,
            shuffled(old(g).seed(), old(g).past(), old(items)@.len()),
        ),
{
    items.shuffle(&mut g.rng)
}

/// Picks one of `items` with `SliceRandom::choose`: `None` where there is
/// none, else a reference to the item at the place that the contract names
/// `picked(seed, past, len)`, which the generator draws by the length of
/// the list alone.
#[verifier::external_body]
pub(crate) fn pick_one<'a, T>(g: &mut Generator, items: &'a Vec<T>) -> (r: Option<&'a T>)
    ensures
        final(g).seed() == old(g).seed(),
        final(g).past() == old(g).past().push(Draw::Pick(items@.len())),
        r is None <==> items@.len() == 0,
        r is Some ==> picked(old(g).seed(), old(g).past(), items@.len()) < items@.len()
            && *r->Some_0 == items@[picked(old(g).seed(), old(g).past(), items@.len()) as int],
{
    items.choose(&mut g.rng)
}

} // verus!
