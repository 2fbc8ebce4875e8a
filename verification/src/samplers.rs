//! How many samples a stencil of rings around a point holds.

use vstd::prelude::*;

verus! {

/// The number of samples on ring `ring` of a stencil, counted from zero at
/// the centre: eight on the innermost ring, and eight more on each ring
/// farther out.
pub open spec fn ring_samples(ring: nat) -> nat {
    (ring + 1) * 2 * 4
}

/// The number of samples on the first `quality` rings together.
pub open spec fn stencil_samples(quality: nat) -> nat
    decreases quality,
{
    if quality == 0 {
        0
    } else {
        stencil_samples((quality - 1) as nat) + ring_samples((quality - 1) as nat)
    }
}

/// A stencil of `quality` rings holds `4 * quality * (quality + 1)` samples.
pub proof fn lemma_stencil_samples(quality: nat)
    ensures
        stencil_samples(quality) == 4 * quality * (quality + 1),
    decreases quality,
{
    if quality > 0 {
        let q = quality as int;
        lemma_stencil_samples((quality - 1) as nat);
        assert(stencil_samples((quality - 1) as nat) == 4 * (q - 1) * q);
        assert(ring_samples((quality - 1) as nat) == q * 2 * 4);
        assert(4 * (q - 1) * q + q * 2 * 4 == 4 * q * (q + 1)) by (nonlinear_arith);
    } else {
        assert(4 * quality * (quality + 1) == 0) by (nonlinear_arith)
            requires
                quality == 0,
        ;
    }
}

/// A stencil of more rings holds more samples.
pub proof fn lemma_stencil_samples_grow(fewer: nat, more: nat)
    requires
        fewer <= more,
    ensures
        stencil_samples(fewer) <= stencil_samples(more),
    decreases more,
{
    if fewer < more {
        lemma_stencil_samples_grow(fewer, (more - 1) as nat);
    }
}

/// The number of samples on one ring of a stencil.
pub fn ring_size(ring: usize) -> (n: usize)
    requires
        ring_samples(ring as nat) <= usize::MAX,
    ensures
        n == ring_samples(ring as nat),
{
    (ring + 1) * 2 * 4
}

/// The number of samples on all rings of a stencil of the given quality.
pub fn stencil_size(quality: usize) -> (n: usize)
    requires
        stencil_samples(quality as nat) <= usize::MAX,
    ensures
        n == stencil_samples(quality as nat),
        n == 4 * quality * (quality + 1),
{
    let mut total_samples: usize = 0;
    let mut ring: usize = 0;
    while ring < quality
        invariant
            ring <= quality,
            total_samples == stencil_samples(ring as nat),
            stencil_samples(quality as nat) <= usize::MAX,
        decreases quality - ring,
    {
        proof {
            lemma_stencil_samples_grow((ring + 1) as nat, quality as nat);
        }
        total_samples += ring_size(ring);
        ring = ring + 1;
    }
    proof {
        lemma_stencil_samples(quality as nat);
    }
    total_samples
}

} // verus!
