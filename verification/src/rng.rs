//! Random numbers.

use crate::float::number::{Binary32, Binary64};
use crate::seed_sequence::{seed_word64, seed_words};
use vstd::arithmetic::power2::pow2;
use vstd::prelude::*;

verus! {

/// The generator of random numbers, kept in its own crate.
#[verifier::external_type_specification]
#[verifier::external_body]
pub struct ExPcg64(rand_pcg::Pcg64);

/// The state that a generator is in.
pub uninterp spec fn pcg64_state(rng: rand_pcg::Pcg64) -> u128;

/// The odd number that a generator adds at each step.
pub uninterp spec fn pcg64_increment(rng: rand_pcg::Pcg64) -> u128;

/// A number of 128 bits, by remainder.
pub open spec fn wrapped(n: int) -> u128 {
    (n % (u128::MAX + 1)) as u128
}

/// The state after a step.
pub open spec fn stepped(state: u128, increment: u128) -> u128 {
    wrapped(state * 0x2360_ed05_1fc6_5da4_4385_df64_9fcc_f645 + increment)
}

/// A number of 64 bits turned to the right.
pub open spec fn turned(x: u64, places: u64) -> u64 {
    (x as nat / pow2(places as nat) + (x as nat % pow2(places as nat)) * pow2(
        (64 - places) as nat,
    )) as u64
}

/// The number that is given out in a state.
pub open spec fn output(state: u128) -> u64 {
    turned((((state >> 64) ^ state) % 0x1_0000_0000_0000_0000) as u64, (state >> 122) as u64)
}

/// `rand_pcg::Pcg64::new`: a generator on a stream, one step on from the sum of
/// the given state and the stream's increment.
#[verifier::external_body]
fn new_pcg64(state: u128, stream: u128) -> (rng: rand_pcg::Pcg64)
    ensures
        pcg64_increment(rng) == (stream << 1) | 1,
        pcg64_state(rng) == stepped(
            wrapped(state + pcg64_increment(rng)),
            pcg64_increment(rng),
        ),
{
    rand_pcg::Pcg64::new(state, stream)
}

/// `next_u64` of `rand::Rng` for `rand_pcg::Pcg64`: takes a step, and gives the
/// number for the state that it comes to.
#[verifier::external_body]
fn next_u64(rng: &mut rand_pcg::Pcg64) -> (r: u64)
    ensures
        pcg64_increment(*final(rng)) == pcg64_increment(*old(rng)),
        pcg64_state(*final(rng)) == stepped(pcg64_state(*old(rng)), pcg64_increment(*old(rng))),
        r == output(pcg64_state(*final(rng))),
{
    rand::Rng::next_u64(rng)
}

/// Where a generator stands.
pub struct RngView {
    pub state: u128,
    pub increment: u128,
}

impl RngView {
    /// One number further.
    pub open spec fn next(self) -> RngView {
        RngView { state: stepped(self.state, self.increment), ..self }
    }

    /// `n` numbers further.
    pub open spec fn after(self, n: nat) -> RngView
        decreases n,
    {
        if n == 0 {
            self
        } else {
            self.after((n - 1) as nat).next()
        }
    }

    /// The next number.
    pub open spec fn word(self) -> u64 {
        output(self.next().state)
    }

    /// The next number as a fraction of 24 bits.
    pub open spec fn fraction24(self) -> Binary32 {
        Binary32::dyadic(((self.word() % 0x1_0000_0000) / 0x100) as nat, 24)
    }

    /// The next number as a fraction of 23 bits.
    pub open spec fn fraction23(self) -> Binary32 {
        Binary32::dyadic(((self.word() % 0x1_0000_0000) / 0x200) as nat, 23)
    }

    /// The next number as a fraction of 53 bits.
    pub open spec fn fraction53(self) -> Binary64 {
        Binary64::dyadic((self.word() / 0x800) as nat, 53)
    }
}

/// A generator of random numbers.
pub struct Random {
    rng: rand_pcg::Pcg64,
}

impl View for Random {
    type V = RngView;

    closed spec fn view(&self) -> RngView {
        RngView { state: pcg64_state(self.rng), increment: pcg64_increment(self.rng) }
    }
}

/// Two words as one number, the higher one first.
pub open spec fn wide(high: u64, low: u64) -> u128 {
    (high * 0x1_0000_0000_0000_0000 + low) as u128
}

/// The increment that a seed gives: odd.
pub open spec fn seed_increment(seed: u64) -> u128 {
    (wide(seed_word64(seed, 2), seed_word64(seed, 3)) << 1) | 1
}

/// The generator for a seed: its state is that of `numpy.random.default_rng`.
pub open spec fn seeded(seed: u64) -> RngView {
    RngView {
        state: stepped(
            wrapped(wide(seed_word64(seed, 0), seed_word64(seed, 1)) + seed_increment(seed)),
            seed_increment(seed),
        ),
        increment: seed_increment(seed),
    }
}

fn widen(high: u64, low: u64) -> (r: u128)
    ensures
        r == wide(high, low),
{
    high as u128 * 0x1_0000_0000_0000_0000 + low as u128
}

/// Create a PCG64 RNG compatible with `numpy.random.default_rng(seed)`: the
/// seed is spread by the seed sequence, whose first two words are the state and
/// the next two the stream.
pub fn create_numpy_compatible_rng(seed: u64) -> (r: Random)
    ensures
        r@ == seeded(seed),
{
    let words = seed_words(seed);
    let state = widen(words[0], words[1]);
    let stream = widen(words[2], words[3]);
    Random { rng: new_pcg64(state, stream) }
}

impl Random {
    /// The next number.
    pub fn draw(&mut self) -> (r: u64)
        ensures
            final(self)@ == old(self)@.next(),
            r == old(self)@.word(),
    {
        next_u64(&mut self.rng)
    }

    /// The next number as a fraction of 24 bits, from 0 up to but not 1.
    pub fn draw24(&mut self) -> (r: Binary32)
        ensures
            final(self)@ == old(self)@.next(),
            r == old(self)@.fraction24(),
    {
        let word = self.draw();
        Binary32::from_dyadic((word % 0x1_0000_0000) / 0x100, 24)
    }

    /// The next number as a fraction of 23 bits, from 0 up to but not 1.
    pub fn draw23(&mut self) -> (r: Binary32)
        ensures
            final(self)@ == old(self)@.next(),
            r == old(self)@.fraction23(),
    {
        let word = self.draw();
        Binary32::from_dyadic((word % 0x1_0000_0000) / 0x200, 23)
    }

    /// The next number as a fraction of 53 bits, from 0 up to but not 1.
    pub fn draw53(&mut self) -> (r: Binary64)
        ensures
            final(self)@ == old(self)@.next(),
            r == old(self)@.fraction53(),
    {
        let word = self.draw();
        Binary64::from_dyadic(word / 0x800, 53)
    }
}

} // verus!
