//! Region-seed arithmetic and the stateless position hashes.
use crate::random::chunkrand::{base_stone_seed_word, position_seed_value, ChunkRand};
use crate::random::mth::{asr, from_bits, sig32, sig64, to_bits, wadd, wmul, wmul32, wrap64};
use vstd::prelude::*;

verus! {

/// Arithmetic on region seeds: a region seed moves between neighbouring
/// regions by fixed multiples of the two region constants.
pub struct RegionSeed;

/// The increment between two region seeds a given region offset apart.
pub open spec fn region_increment(dx: int, dz: int) -> int {
    sig64(dx * 341873128712 + dz * 132897987541)
}

impl RegionSeed {
    /// The region-seed multiplier on the x coordinate.
    pub const A: i64 = 341873128712;

    /// The region-seed multiplier on the z coordinate.
    pub const B: i64 = 132897987541;

    /// The seed increment a region offset contributes.
    pub fn get_increment(d_region_x: i32, d_region_z: i32) -> (r: i64)
        ensures
            r as int == region_increment(d_region_x as int, d_region_z as int),
    {
        let w = wadd(
            wmul(to_bits(d_region_x as i64), 341873128712),
            wmul(to_bits(d_region_z as i64), 132897987541),
        );
        proof {
            crate::random::mth::lemma_wrap64_mul_noop(d_region_x as int, 341873128712);
            crate::random::mth::lemma_wrap64_mul_noop(d_region_z as int, 132897987541);
            vstd::arithmetic::div_mod::lemma_add_mod_noop(
                d_region_x as int * 341873128712,
                d_region_z as int * 132897987541,
                0x1_0000_0000_0000_0000,
            );
        }
        from_bits(w)
    }

    /// The world seed that a region seed at the given region and salt
    /// came from.
    pub fn convert_to_world_seed(region_seed: i64, region_x: i32, region_z: i32, salt: i32) -> (r:
        i64)
        ensures
            r as int == sig64(
                region_seed as int - (region_x as int * 341873128712 + region_z as int
                    * 132897987541) - salt as int,
            ),
    {
        let t = Self::translate(region_seed, region_x, region_z);
        let w = wadd(to_bits(t), to_bits(-(salt as i64)));
        proof {
            let m = 0x1_0000_0000_0000_0000int;
            let base = region_seed as int - (region_x as int * 341873128712 + region_z as int
                * 132897987541);
            vstd::arithmetic::div_mod::lemma_add_mod_noop(base, -(salt as int), m);
            crate::random::mth::lemma_wrap64_of_sig64(base);
        }
        from_bits(w)
    }

    /// The region seed translated by a region offset, against the grain of
    /// the increment.
    #[verifier::rlimit(100)]
    #[verifier::spinoff_prover]
    pub fn translate(region_seed: i64, d_region_x: i32, d_region_z: i32) -> (r: i64)
        ensures
            r as int == sig64(
                region_seed as int - (d_region_x as int * 341873128712 + d_region_z as int
                    * 132897987541),
            ),
    {
        let inc = Self::get_increment(d_region_x, d_region_z);
        let wi = to_bits(inc);
        let nw = 0u64.wrapping_sub(wi);
        let w = wadd(to_bits(region_seed), nw);
        proof {
            let m = 0x1_0000_0000_0000_0000int;
            let incv = d_region_x as int * 341873128712 + d_region_z as int * 132897987541;
            // Negating the increment's word stands for subtracting the
            // increment, modulo 2^64.
            assert(nw as int % m == (-incv) % m) by {
                crate::random::mth::lemma_wrap64_of_sig64(incv);
                vstd::arithmetic::div_mod::lemma_sub_mod_noop(0, incv, m);
                vstd::arithmetic::div_mod::lemma_sub_mod_noop(0, wrap64(incv), m);
            }
            vstd::arithmetic::div_mod::lemma_add_mod_noop(region_seed as int, -incv, m);
            vstd::arithmetic::div_mod::lemma_add_mod_noop(region_seed as int, nw as int, m);
        }
        from_bits(w)
    }

    /// The region seed a region offset away.
    pub fn get_neighbor(region_seed: i64, d_region_x: i32, d_region_z: i32) -> (r: i64)
        ensures
            r as int == sig64(
                region_seed as int + d_region_x as int * 341873128712 + d_region_z as int
                    * 132897987541,
            ),
    {
        let inc = Self::get_increment(d_region_x, d_region_z);
        let w = wadd(to_bits(region_seed), to_bits(inc));
        proof {
            let m = 0x1_0000_0000_0000_0000int;
            let incv = d_region_x as int * 341873128712 + d_region_z as int * 132897987541;
            crate::random::mth::lemma_wrap64_of_sig64(incv);
            vstd::arithmetic::div_mod::lemma_add_mod_noop(region_seed as int, incv, m);
            vstd::arithmetic::div_mod::lemma_add_mod_noop(region_seed as int, wrap64(incv), m);
        }
        from_bits(w)
    }

    /// Whether two region seeds sit a given region offset apart.
    pub fn are_neighbors(region_seed1: i64, region_seed2: i64, d_region_x: i32, d_region_z: i32) -> (r:
        bool)
        ensures
            r == (region_increment(d_region_x as int, d_region_z as int) == sig64(
                region_seed2 as int - region_seed1 as int,
            )),
    {
        Self::are_neighbors_with_salt(region_seed1, region_seed2, 0, 0, d_region_x, d_region_z)
    }

    /// Whether two salted region seeds sit a given region offset apart.
    #[verifier::rlimit(100)]
    #[verifier::spinoff_prover]
    pub fn are_neighbors_with_salt(
        region_seed1: i64,
        region_seed2: i64,
        salt1: i32,
        salt2: i32,
        d_region_x: i32,
        d_region_z: i32,
    ) -> (r: bool)
        ensures
            r == (region_increment(d_region_x as int, d_region_z as int) == sig64(
                (region_seed2 as int - salt2 as int) - (region_seed1 as int - salt1 as int),
            )),
    {
        let inc = Self::get_increment(d_region_x, d_region_z);
        let a = wadd(to_bits(region_seed2), to_bits(-(salt2 as i64)));
        let b = wadd(to_bits(region_seed1), to_bits(-(salt1 as i64)));
        let nb = 0u64.wrapping_sub(b);
        let d = wadd(a, nb);
        proof {
            let m = 0x1_0000_0000_0000_0000int;
            let av = region_seed2 as int - salt2 as int;
            let bv = region_seed1 as int - salt1 as int;
            assert(a as int == wrap64(av)) by {
                vstd::arithmetic::div_mod::lemma_add_mod_noop(
                    region_seed2 as int,
                    -(salt2 as int),
                    m,
                );
            }
            assert(b as int == wrap64(bv)) by {
                vstd::arithmetic::div_mod::lemma_add_mod_noop(
                    region_seed1 as int,
                    -(salt1 as int),
                    m,
                );
            }
            assert(nb as int == wrap64(-bv)) by {
                vstd::arithmetic::div_mod::lemma_sub_mod_noop(0, bv, m);
                vstd::arithmetic::div_mod::lemma_sub_mod_noop(0, wrap64(bv), m);
            }
            assert(d as int == wrap64(av - bv)) by {
                vstd::arithmetic::div_mod::lemma_add_mod_noop(av, -bv, m);
                vstd::arithmetic::div_mod::lemma_add_mod_noop(wrap64(av), wrap64(-bv), m);
            }
            assert(sig64(d as int) == sig64(av - bv));
        }
        inc == from_bits(d)
    }
}

/// The stateless position hashes.
pub struct PositionSeed;

impl PositionSeed {
    /// The position hash of three block coordinates: the fixed folding of
    /// the coordinates into one word, remixed quadratically and shifted
    /// down by 16.
    pub fn get_position_seed(x: i32, y: i32, z: i32) -> (r: i64)
        ensures
            r as int == position_seed_value(x as int, y as int, z as int),
    {
        let p1 = wmul32(x, 3129871);
        let zm = wmul(to_bits(z as i64), 116129781);
        let w = (to_bits(p1 as i64) ^ zm) ^ to_bits(y as i64);
        proof {
            crate::random::mth::lemma_wrap64_mul_noop(z as int, 116129781);
        }
        let sq = wmul(wmul(w, w), 42317861);
        let lin = wmul(w, 11);
        let mixed = wadd(sq, lin);
        proof {
            let m = 0x1_0000_0000_0000_0000int;
            crate::random::mth::lemma_wrap64_mul_noop(w as int * w as int, 42317861);
            vstd::arithmetic::div_mod::lemma_add_mod_noop(
                w as int * w as int * 42317861,
                w as int * 11,
                m,
            );
            vstd::arithmetic::div_mod::lemma_add_mod_noop(
                wrap64(w as int * w as int * 42317861),
                w as int * 11,
                m,
            );
            assert(vstd::arithmetic::power2::pow2(16) == 0x1_0000) by {
                vstd::arithmetic::power2::lemma2_to64();
            }
        }
        asr(mixed, 16)
    }

    /// The base-stone hash, run on a fresh generator: the stateless form
    /// of the derivation.
    pub fn get_base_stone_seed(world_seed: i64, x: i32, y: i32, z: i32) -> (r: i64)
        ensures
            r as int == sig64(
                base_stone_seed_word(world_seed as int, x as int, y as int, z as int),
            ),
    {
        let mut chunkrand = ChunkRand::new_scramble(0, false);
        chunkrand.set_base_stone_seed(world_seed, x, y, z)
    }
}

} // verus!
