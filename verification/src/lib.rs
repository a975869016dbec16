//! Force-directed graph simulation over an N-dimensional spatial tree.
//!
//! All physical quantities (coordinates, velocities, forces, the annealing
//! coefficient alpha) are fixed-point numbers: an `i64` holding the real
//! value times [`fixed::SCALE`].  The spatial tree itself is pure integer
//! geometry: a 2^N-way recursive subdivision of an axis-aligned box,
//! generic over the payload carried by points and regions.

pub mod bound;
pub mod center_force;
pub mod collide_force;
pub mod data;
pub mod fixed;
pub mod force;
pub mod force_utils;
pub mod link_force;
pub mod nbody_force;
pub mod node;
pub mod position_force;
pub mod radial_force;
pub mod simulation;
pub mod tree;
pub mod tree_data;

use vstd::prelude::*;

verus! {

/// Number of child slots of a region of dimension `n`, that is `2^n`.
pub fn two_power(n: usize) -> (r: usize)
    requires
        n <= 16,
    ensures
        r == vstd::arithmetic::power2::pow2(n as nat),
{
    let mut r: usize = 1;
    let mut i: usize = 0;
    proof {
        vstd::arithmetic::power2::lemma2_to64();
    }
    while i < n
        invariant
            i <= n <= 16,
            r == vstd::arithmetic::power2::pow2(i as nat),
            r <= 65536,
        decreases n - i,
    {
        proof {
            vstd::arithmetic::power2::lemma_pow2_unfold((i + 1) as nat);
            vstd::arithmetic::power2::lemma_pow2_strictly_increases(i as nat, 17);
            vstd::arithmetic::power2::lemma2_to64();
        }
        r = r * 2;
        i = i + 1;
    }
    r
}

} // verus!
