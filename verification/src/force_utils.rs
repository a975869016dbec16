//! Small helpers shared by the force kernels.

use vstd::prelude::*;

verus! {

/// Largest magnitude of a random jiggle, in fixed-point units: half of
/// one millionth of a unit.
pub const JIGGLE_MAX: i64 = 500;

/// A small random displacement used to separate coincident points.
///
/// Relies on rand::Rng::gen_range over an inclusive range: the thread-local
/// generator returns a value within the given bounds.  Nothing more can be
/// promised of a random draw.
#[verifier::external_body]
pub fn jiggle() -> (r: i64)
    ensures
        -JIGGLE_MAX <= r <= JIGGLE_MAX,
{
    <rand::rngs::ThreadRng as rand::Rng>::gen_range(
        &mut rand::thread_rng(),
        -JIGGLE_MAX..=JIGGLE_MAX,
    )
}

/// A list of jiggle chunks is well formed: one value per axis, each
/// within the jiggle bound.
pub open spec fn jiggle_chunks_ok(chunks: Seq<Seq<int>>, dim: int) -> bool {
    forall|k: int|
        0 <= k < chunks.len() ==> (#[trigger] chunks[k]).len() == dim && (forall|j: int|
            0 <= j < dim ==> -JIGGLE_MAX as int <= #[trigger] chunks[k][j] <= JIGGLE_MAX as int)
}

/// One well-formed chunk list per entry.
pub open spec fn jiggle_chunk_lists_ok(lists: Seq<Seq<Seq<int>>>, dim: int) -> bool {
    forall|u: int| 0 <= u < lists.len() ==> jiggle_chunks_ok(#[trigger] lists[u], dim)
}

/// Whether a fixed-point value is indistinguishable from zero; at this
/// resolution, only zero itself is.
pub fn about_zero(x: i64) -> (r: bool)
    ensures
        r == (x == 0),
{
    x == 0
}

} // verus!
