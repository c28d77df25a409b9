//! The layer at which an insertion starts.
//!
//! A new text enters the graph at a random layer and at every layer below
//! it. The layer is `floor(-ln(u) * 0.6) mod 10` for a number `u` drawn
//! uniformly from `(0, 1]`, so that most texts touch the bottom layer alone
//! and a few reach far up. The number is drawn as a 64-bit integer `r`, which
//! stands for `u = (r + 1) / 2^64`, and the layer is read off a table of
//! integer thresholds.

use vstd::prelude::*;

verus! {

/// Number of layers of an index.
pub const LAYERS: usize = 10;

/// Index of the highest step of the table.
pub const STEPS: u64 = 26;

/// `floor(2^64 * e^(-k / 0.6))` for `k` from one to twenty-six, zero
/// elsewhere: the draws below this number give `-ln(u) * 0.6 >= k`.
pub open spec fn threshold(k: nat) -> u64 {
    if k == 1 {
        3484139907312112814
    } else if k == 2 {
        658069025363982135
    } else if k == 3 {
        124293183874348897
    } else if k == 4 {
        23475950032867568
    } else if k == 5 {
        4434034214642341
    } else if k == 6 {
        837480885292947
    } else if k == 7 {
        158179707074640
    } else if k == 8 {
        29876287530391
    } else if k == 9 {
        5642901817851
    } else if k == 10 {
        1065806482599
    } else if k == 11 {
        201304841909
    } else if k == 12 {
        38021573369
    } else if k == 13 {
        7181347591
    } else if k == 14 {
        1356381355
    } else if k == 15 {
        256187346
    } else if k == 16 {
        48387539
    } else if k == 17 {
        9139225
    } else if k == 18 {
        1726176
    } else if k == 19 {
        326032
    } else if k == 20 {
        61579
    } else if k == 21 {
        11630
    } else if k == 22 {
        2196
    } else if k == 23 {
        414
    } else if k == 24 {
        78
    } else if k == 25 {
        14
    } else if k == 26 {
        2
    } else {
        0
    }
}

/// The number of steps that a draw climbs: the largest `k` whose threshold
/// lies above it, counted from `from - 1`.
pub open spec fn climb(draw: u64, from: nat) -> nat
    decreases STEPS + 1 - from,
{
    if from <= STEPS && draw < threshold(from) {
        1 + climb(draw, from + 1)
    } else {
        0
    }
}

/// The layer that belongs to a draw.
pub open spec fn height_of(draw: u64) -> nat {
    climb(draw, 1) % (LAYERS as nat)
}

/// One entry of the table.
fn step(k: u64) -> (t: u64)
    ensures
        t == threshold(k as nat),
{
    if k == 1 {
        3484139907312112814
    } else if k == 2 {
        658069025363982135
    } else if k == 3 {
        124293183874348897
    } else if k == 4 {
        23475950032867568
    } else if k == 5 {
        4434034214642341
    } else if k == 6 {
        837480885292947
    } else if k == 7 {
        158179707074640
    } else if k == 8 {
        29876287530391
    } else if k == 9 {
        5642901817851
    } else if k == 10 {
        1065806482599
    } else if k == 11 {
        201304841909
    } else if k == 12 {
        38021573369
    } else if k == 13 {
        7181347591
    } else if k == 14 {
        1356381355
    } else if k == 15 {
        256187346
    } else if k == 16 {
        48387539
    } else if k == 17 {
        9139225
    } else if k == 18 {
        1726176
    } else if k == 19 {
        326032
    } else if k == 20 {
        61579
    } else if k == 21 {
        11630
    } else if k == 22 {
        2196
    } else if k == 23 {
        414
    } else if k == 24 {
        78
    } else if k == 25 {
        14
    } else if k == 26 {
        2
    } else {
        0
    }
}

/// The layer at which the insertion that drew `draw` starts.
pub fn layer_height(draw: u64) -> (n: usize)
    ensures
        n == height_of(draw),
        n < LAYERS,
{
    let mut k: u64 = 1;
    while k <= STEPS && draw < step(k)
        invariant
            1 <= k <= STEPS + 1,
            climb(draw, 1) == (k - 1) + climb(draw, k as nat),
        decreases STEPS + 1 - k,
    {
        k = k + 1;
    }
    ((k - 1) % 10) as usize
}

/// Draws a 64-bit integer from `rand::random`.
///
/// Trusted. Nothing is claimed of the number: the callers hold for every
/// value of it.
#[verifier::external_body]
pub(crate) fn random_draw() -> (draw: u64) {
    rand::random::<u64>()
}

} // verus!
