//! The seed-derivation layer: a generator together with the fixed hash
//! mixers that re-seed it from a world seed and spatial coordinates.
//!
//! Each derivation is a pure function of its inputs.  The `*_word` spec
//! functions give the 64-bit word each mixer produces before scrambling;
//! the methods re-seed the wrapped generator with that word and return it
//! masked to 48 bits (except the base-stone seed, which the simulation
//! returns unmasked).
use crate::random::jrand::{
    bounded_of, initial_state, next48, next_long_of, JRand,
};
use crate::random::mth::{
    from_bits, sig32, sig64, to_bits, wadd, wmul, wmul32, wrap64, xor32, xor64,
};
use vstd::prelude::*;

verus! {

/// The terrain-seed word: the two region multipliers applied to the chunk
/// coordinates, summed in wrapping 64-bit arithmetic.
pub open spec fn terrain_seed_word(cx: int, cz: int) -> int {
    wrap64(cx * 341873128712 + cz * 132897987541)
}

/// The word of a signed value forced odd by setting its low bit.
pub open spec fn odd_by_bit(l: int) -> int {
    let w = wrap64(l);
    if w % 2 == 0 {
        w + 1
    } else {
        w
    }
}

/// The word of a signed value forced odd the older way: truncating
/// division by two, doubling, and adding one.
pub open spec fn odd_by_halving(l: int) -> int {
    wrap64(
        2 * (if l >= 0 {
            l / 2
        } else {
            -((-l) / 2)
        }) + 1,
    )
}

/// The population-seed word: two odd multipliers drawn from the scrambled
/// world seed, applied to the block coordinates and folded back into the
/// world seed.
pub open spec fn population_seed_word(ws: int, x: int, z: int, legacy: bool) -> int {
    let s0 = initial_state(ws, true);
    let l1 = next_long_of(s0);
    let s1 = next48(next48(s0));
    let l2 = next_long_of(s1);
    let a = if legacy {
        odd_by_halving(l1)
    } else {
        odd_by_bit(l1)
    };
    let b = if legacy {
        odd_by_halving(l2)
    } else {
        odd_by_bit(l2)
    };
    xor64(wrap64(x * a + z * b), wrap64(ws))
}

/// The decorator-seed word: the population seed plus the feature salt.
pub open spec fn decorator_seed_word(population_seed: int, salt: int) -> int {
    wrap64(population_seed + salt)
}

/// The carver-seed word: two longs drawn from the scrambled world seed,
/// multiplied by the chunk coordinates and folded together.
pub open spec fn carver_seed_word(ws: int, cx: int, cz: int) -> int {
    let s0 = initial_state(ws, true);
    let a = next_long_of(s0);
    let s1 = next48(next48(s0));
    let b = next_long_of(s1);
    xor64(xor64(wrap64(cx * a), wrap64(cz * b)), wrap64(ws))
}

/// The region-seed word: the two region multipliers applied to the region
/// coordinates, plus the world seed and the structure salt.
pub open spec fn region_seed_word(ws: int, rx: int, rz: int, salt: int) -> int {
    wrap64(rx * 341873128712 + rz * 132897987541 + ws + salt)
}

/// The weak-seed word: the chunk coordinates scaled down to their
/// sections, folded over 32 bits, and folded into the world seed.
pub open spec fn weak_seed_word(ws: int, cx: int, cz: int) -> int {
    let folded = sig32(xor32(cx / 16, 16 * (cz / 16)));
    xor64(wrap64(folded), wrap64(ws))
}

/// The slime-seed word: the fixed quadratic mixer over the chunk
/// coordinates, summed into the world seed and scrambled.
pub open spec fn slime_seed_word(ws: int, cx: int, cz: int, scrambler: int) -> int {
    let t1 = sig32(sig32(cx * cx) * 4987142);
    let t2 = sig32(cx * 5947611);
    let t3 = sig32(cz * cz) * 4392871;
    let t4 = sig32(cz * 389711);
    xor64(wrap64(ws + t1 + t2 + t3 + t4), wrap64(scrambler))
}

/// The position-seed value: the block coordinates folded over one word,
/// squared and remixed, then arithmetically shifted down by 16.
pub open spec fn position_seed_value(x: int, y: int, z: int) -> int {
    let w = xor64(xor64(wrap64(sig32(x * 3129871)), wrap64(z * 116129781)), wrap64(y));
    sig64(wrap64(w * w * 42317861 + w * 11)) / 0x1_0000
}

/// The base-stone-seed word: two longs drawn from the scrambled world
/// seed, multiplied by two coordinates, folded with the third coordinate's
/// square and the world seed.
pub open spec fn base_stone_seed_word(ws: int, x: int, y: int, z: int) -> int {
    let s0 = initial_state(ws, true);
    let a = next_long_of(s0);
    let s1 = next48(next48(s0));
    let b = next_long_of(s1);
    xor64(xor64(xor64(wrap64(x * a), wrap64(y * b)), wrap64(z * z)), wrap64(ws))
}

/// Final state and value of the draw `get_int` makes: nothing for an empty
/// range, one bounded draw shifted by the minimum otherwise.
pub open spec fn int_in_range(s: int, min: int, max: int) -> (int, int) {
    if min >= max {
        (s, min)
    } else {
        let d = bounded_of(s, max - min + 1);
        (d.0, d.1 + min)
    }
}

/// A generator bundled with the seed-derivation mixers.  The view is the
/// state word of the wrapped generator.
#[derive(Debug)]
pub struct ChunkRand {
    pub jrand: JRand,
}

impl View for ChunkRand {
    type V = int;

    open spec fn view(&self) -> int {
        self.jrand@
    }
}

impl Default for ChunkRand {
    /// A derivation generator over the zero state.
    fn default() -> (r: Self)
        ensures
            r@ == 0,
    {
        Self { jrand: JRand::new_scramble(0, false) }
    }
}

impl From<JRand> for ChunkRand {
    /// Wrap an existing generator, keeping its state.
    fn from(jrand: JRand) -> (r: Self)
        ensures
            r@ == jrand@,
    {
        Self { jrand }
    }
}

impl vstd::std_specs::convert::FromSpecImpl<JRand> for ChunkRand {
    open spec fn obeys_from_spec() -> bool {
        true
    }

    open spec fn from_spec(jrand: JRand) -> Self {
        ChunkRand { jrand }
    }
}

impl ChunkRand {
    /// A derivation generator seeded with scrambling.
    pub fn new(seed: i64) -> (r: Self)
        ensures
            r@ == initial_state(seed as int, true),
    {
        Self { jrand: JRand::new(seed) }
    }

    /// A derivation generator seeded with or without scrambling.
    pub fn new_scramble(seed: i64, scramble: bool) -> (r: Self)
        ensures
            r@ == initial_state(seed as int, scramble),
    {
        Self { jrand: JRand::new_scramble(seed, scramble) }
    }

    /// Re-seed the wrapped generator.
    pub fn set_seed(&mut self, seed: i64, scramble: bool)
        ensures
            final(self)@ == initial_state(seed as int, scramble),
    {
        self.jrand.set_seed(seed, scramble);
    }

    /// Advance once and return the new state word.
    pub fn next_seed(&mut self) -> (r: i64)
        ensures
            final(self)@ == next48(old(self)@),
            r as int == final(self)@,
    {
        self.jrand.next_seed()
    }

    /// Draw one boolean.
    pub fn get_next_bool(&mut self) -> (r: bool)
        ensures
            final(self)@ == next48(old(self)@),
            r == crate::random::jrand::bool_of_bits(old(self)@),
    {
        self.jrand.get_next_bool()
    }

    /// Draw one value uniform in `[0, n)`.
    pub fn get_next_int_bound(&mut self, n: i32) -> (r: i32)
        requires
            0 <= n,
        ensures
            final(self)@ == bounded_of(old(self)@, n as int).0,
            r as int == bounded_of(old(self)@, n as int).1,
    {
        self.jrand.get_next_int_bound(n)
    }

    /// Draw one signed 64-bit value.
    pub fn get_next_long(&mut self) -> (r: i64)
        ensures
            final(self)@ == next48(next48(old(self)@)),
            r as int == next_long_of(old(self)@),
    {
        self.jrand.get_next_long()
    }

    /// Shuffle in place by the simulation's convention.
    pub fn shuffle<T: Copy>(&mut self, vec: &mut Vec<T>)
        requires
            old(vec)@.len() < 0x8000_0000,
        ensures
            final(self)@ == crate::random::jrand::shuffled(old(self)@, old(vec)@).0,
            final(vec)@ == crate::random::jrand::shuffled(old(self)@, old(vec)@).1,
    {
        self.jrand.shuffle(vec)
    }

    /// Re-seed from the terrain hash of two chunk coordinates and return
    /// the masked seed.
    pub fn set_terrain_seed(&mut self, chunk_x: i32, chunk_z: i32) -> (r: i64)
        ensures
            final(self)@ == initial_state(
                sig64(terrain_seed_word(chunk_x as int, chunk_z as int)),
                true,
            ),
            r as int == terrain_seed_word(chunk_x as int, chunk_z as int) % 0x1_0000_0000_0000,
    {
        let w = wadd(
            wmul(to_bits(chunk_x as i64), 341873128712),
            wmul(to_bits(chunk_z as i64), 132897987541),
        );
        proof {
            crate::random::mth::lemma_wrap64_mul_noop(chunk_x as int, 341873128712);
            crate::random::mth::lemma_wrap64_mul_noop(chunk_z as int, 132897987541);
            vstd::arithmetic::div_mod::lemma_add_mod_noop(
                chunk_x as int * 341873128712,
                chunk_z as int * 132897987541,
                0x1_0000_0000_0000_0000,
            );
        }
        self.reseed_and_mask(w)
    }

    /// Re-seed from a derivation word and return it masked to 48 bits.
    fn reseed_and_mask(&mut self, w: u64) -> (r: i64)
        ensures
            final(self)@ == initial_state(sig64(w as int), true),
            r as int == (w as int) % 0x1_0000_0000_0000,
    {
        let s = from_bits(w);
        self.jrand.set_seed(s, true);
        proof {
            crate::random::mth::lemma_wrap64_of_sig64(w as int);
            crate::random::mth::lemma_wrap64_keeps_low(sig64(w as int), 48);
            crate::random::mth::lemma_wrap64_keeps_low(w as int, 48);
            assert(vstd::arithmetic::power2::pow2(48) == 0x1_0000_0000_0000) by {
                vstd::arithmetic::power2::lemma2_to64_rest();
            }
        }
        (w % 0x1_0000_0000_0000) as i64
    }

    /// Re-seed from the population hash of the world seed and two block
    /// coordinates, and return the masked population seed.
    pub fn set_population_seed(&mut self, world_seed: i64, x: i32, z: i32) -> (r: i64)
        ensures
            final(self)@ == initial_state(
                sig64(population_seed_word(world_seed as int, x as int, z as int, false)),
                true,
            ),
            r as int == population_seed_word(world_seed as int, x as int, z as int, false)
                % 0x1_0000_0000_0000,
    {
        let legacy = crate::mc_version().is_older_than(&crate::random::mcversion::v1_13());
        self.set_population_seed_gated(world_seed, x, z, legacy)
    }

    /// The population hash with the version gate made explicit: the older
    /// construction forces the multipliers odd by halving and doubling, the
    /// newer one by setting the low bit.
    pub fn set_population_seed_gated(&mut self, world_seed: i64, x: i32, z: i32, legacy: bool) -> (r:
        i64)
        ensures
            final(self)@ == initial_state(
                sig64(population_seed_word(world_seed as int, x as int, z as int, legacy)),
                true,
            ),
            r as int == population_seed_word(world_seed as int, x as int, z as int, legacy)
                % 0x1_0000_0000_0000,
    {
        self.jrand.set_seed(world_seed, true);
        let a: u64;
        let b: u64;
        if legacy {
            a = Self::halved_odd(self.jrand.get_next_long());
            b = Self::halved_odd(self.jrand.get_next_long());
        } else {
            a = Self::low_bit_odd(self.jrand.get_next_long());
            b = Self::low_bit_odd(self.jrand.get_next_long());
        }
        let f = wmul(to_bits(x as i64), a);
        let g = wmul(to_bits(z as i64), b);
        let w = wadd(f, g) ^ to_bits(world_seed);
        proof {
            crate::random::mth::lemma_wrap64_mul_noop(x as int, a as int);
            crate::random::mth::lemma_wrap64_mul_noop(z as int, b as int);
            vstd::arithmetic::div_mod::lemma_add_mod_noop(
                x as int * a as int,
                z as int * b as int,
                0x1_0000_0000_0000_0000,
            );
        }
        self.reseed_and_mask(w)
    }

    /// The word of a long forced odd by setting its low bit.
    fn low_bit_odd(l: i64) -> (r: u64)
        ensures
            r as int == odd_by_bit(l as int),
    {
        let w = to_bits(l);
        if w % 2 == 0 {
            w + 1
        } else {
            w
        }
    }

    /// The word of a long forced odd by halving, doubling and adding one.
    fn halved_odd(l: i64) -> (r: u64)
        ensures
            r as int == odd_by_halving(l as int),
    {
        let half: i64 = if l >= 0 {
            ((l as u64) / 2) as i64
        } else {
            let mag = to_bits(l);
            // The magnitude of a negative long, halved and negated again.
            let m = (0xFFFF_FFFF_FFFF_FFFFu64 - mag) + 1;
            -((m / 2) as i64)
        };
        proof {
            if l < 0 {
                assert((-(l as int)) / 2 == ((0xFFFF_FFFF_FFFF_FFFF - wrap64(l as int)) + 1) / 2);
            }
        }
        to_bits(2 * half + 1)
    }

    /// Re-seed from a population seed plus a decorator salt built from a
    /// feature index and generation step, and return the masked seed.
    pub fn set_decorator_seed_with_index(
        &mut self,
        population_seed: i64,
        index: i32,
        step: i32,
    ) -> (r: i64)
        requires
            -0x8000_0000 <= 10000 * step < 0x8000_0000,
            -0x8000_0000 <= index + 10000 * step < 0x8000_0000,
        ensures
            final(self)@ == initial_state(
                sig64(decorator_seed_word(population_seed as int, index + 10000 * step)),
                true,
            ),
            r as int == decorator_seed_word(population_seed as int, index + 10000 * step)
                % 0x1_0000_0000_0000,
    {
        self.set_decorator_seed(population_seed, index + 10000 * step)
    }

    /// Re-seed from a population seed plus a raw decorator salt, and
    /// return the masked seed.
    pub fn set_decorator_seed(&mut self, population_seed: i64, salt: i32) -> (r: i64)
        ensures
            final(self)@ == initial_state(
                sig64(decorator_seed_word(population_seed as int, salt as int)),
                true,
            ),
            r as int == decorator_seed_word(population_seed as int, salt as int)
                % 0x1_0000_0000_0000,
    {
        // The decorator construction exists only from version 1.13 on; the
        // version this library is fixed to is newer.
        let w = wadd(to_bits(population_seed), to_bits(salt as i64));
        proof {
            vstd::arithmetic::div_mod::lemma_add_mod_noop(
                population_seed as int,
                salt as int,
                0x1_0000_0000_0000_0000,
            );
        }
        self.reseed_and_mask(w)
    }

    /// Population and decorator hash in sequence, from a feature index and
    /// step, returning the masked decorator seed.
    pub fn set_decorator_seed_block(
        &mut self,
        world_seed: i64,
        block_x: i32,
        block_z: i32,
        index: i32,
        step: i32,
    ) -> (r: i64)
        requires
            -0x8000_0000 <= 10000 * step < 0x8000_0000,
            -0x8000_0000 <= index + 10000 * step < 0x8000_0000,
        ensures
            ({
                let pop = population_seed_word(
                    world_seed as int,
                    block_x as int,
                    block_z as int,
                    false,
                ) % 0x1_0000_0000_0000;
                final(self)@ == initial_state(
                    sig64(decorator_seed_word(pop, index + 10000 * step)),
                    true,
                ) && r as int == decorator_seed_word(pop, index + 10000 * step)
                    % 0x1_0000_0000_0000
            }),
    {
        let population_seed = self.set_population_seed(world_seed, block_x, block_z);
        self.set_decorator_seed_with_index(population_seed, index, step)
    }

    /// Population and decorator hash in sequence, from a raw salt,
    /// returning the masked decorator seed.
    pub fn set_decorator_seed_block_salt(
        &mut self,
        world_seed: i64,
        block_x: i32,
        block_z: i32,
        salt: i32,
    ) -> (r: i64)
        ensures
            ({
                let pop = population_seed_word(
                    world_seed as int,
                    block_x as int,
                    block_z as int,
                    false,
                ) % 0x1_0000_0000_0000;
                final(self)@ == initial_state(sig64(decorator_seed_word(pop, salt as int)), true)
                    && r as int == decorator_seed_word(pop, salt as int) % 0x1_0000_0000_0000
            }),
    {
        let population_seed = self.set_population_seed(world_seed, block_x, block_z);
        self.set_decorator_seed(population_seed, salt)
    }

    /// Re-seed from the carver hash of the world seed and two chunk
    /// coordinates, and return the masked carver seed.
    pub fn set_carver_seed(&mut self, world_seed: i64, chunk_x: i32, chunk_z: i32) -> (r: i64)
        ensures
            final(self)@ == initial_state(
                sig64(carver_seed_word(world_seed as int, chunk_x as int, chunk_z as int)),
                true,
            ),
            r as int == carver_seed_word(world_seed as int, chunk_x as int, chunk_z as int)
                % 0x1_0000_0000_0000,
    {
        self.jrand.set_seed(world_seed, true);
        let a = self.jrand.get_next_long();
        let b = self.jrand.get_next_long();
        let w = (wmul(to_bits(chunk_x as i64), to_bits(a)) ^ wmul(
            to_bits(chunk_z as i64),
            to_bits(b),
        )) ^ to_bits(world_seed);
        proof {
            crate::random::mth::lemma_wrap64_mul_noop(chunk_x as int, a as int);
            crate::random::mth::lemma_wrap64_mul_noop(chunk_z as int, b as int);
        }
        self.reseed_and_mask(w)
    }

    /// Re-seed from the region hash of the world seed, two region
    /// coordinates and a structure salt, and return the masked region seed.
    pub fn set_region_seed(&mut self, world_seed: i64, region_x: i32, region_z: i32, salt: i32) -> (r:
        i64)
        ensures
            final(self)@ == initial_state(
                sig64(
                    region_seed_word(world_seed as int, region_x as int, region_z as int, salt as int),
                ),
                true,
            ),
            r as int == region_seed_word(
                world_seed as int,
                region_x as int,
                region_z as int,
                salt as int,
            ) % 0x1_0000_0000_0000,
    {
        let w = wadd(
            wadd(
                wadd(
                    wmul(to_bits(region_x as i64), 341873128712),
                    wmul(to_bits(region_z as i64), 132897987541),
                ),
                to_bits(world_seed),
            ),
            to_bits(salt as i64),
        );
        proof {
            crate::random::mth::lemma_wrap64_mul_noop(region_x as int, 341873128712);
            crate::random::mth::lemma_wrap64_mul_noop(region_z as int, 132897987541);
            let m = 0x1_0000_0000_0000_0000int;
            let p1 = region_x as int * 341873128712;
            let p2 = region_z as int * 132897987541;
            vstd::arithmetic::div_mod::lemma_add_mod_noop(p1, p2, m);
            vstd::arithmetic::div_mod::lemma_add_mod_noop(p1 + p2, world_seed as int, m);
            vstd::arithmetic::div_mod::lemma_add_mod_noop(
                p1 + p2 + world_seed as int,
                salt as int,
                m,
            );
        }
        self.reseed_and_mask(w)
    }

    /// Re-seed from the weak hash of the world seed and two chunk
    /// coordinates, and return the masked weak seed.
    pub fn set_weak_seed(&mut self, world_seed: i64, chunk_x: i32, chunk_z: i32) -> (r: i64)
        ensures
            final(self)@ == initial_state(
                sig64(weak_seed_word(world_seed as int, chunk_x as int, chunk_z as int)),
                true,
            ),
            r as int == weak_seed_word(world_seed as int, chunk_x as int, chunk_z as int)
                % 0x1_0000_0000_0000,
    {
        let sx = crate::random::mth::floor_div16(chunk_x);
        let sz = crate::random::mth::floor_div16(chunk_z);
        let folded = crate::random::mth::xor_i32(sx, 16 * sz);
        let w = to_bits(folded as i64) ^ to_bits(world_seed);
        self.reseed_and_mask(w)
    }

    /// Re-seed from the slime hash with an explicit scrambler constant, and
    /// return the masked slime seed.
    pub fn set_slime_seed_scramble(
        &mut self,
        world_seed: i64,
        chunk_x: i32,
        chunk_z: i32,
        scrambler: i64,
    ) -> (r: i64)
        ensures
            final(self)@ == initial_state(
                sig64(
                    slime_seed_word(
                        world_seed as int,
                        chunk_x as int,
                        chunk_z as int,
                        scrambler as int,
                    ),
                ),
                true,
            ),
            r as int == slime_seed_word(
                world_seed as int,
                chunk_x as int,
                chunk_z as int,
                scrambler as int,
            ) % 0x1_0000_0000_0000,
    {
        let t1 = wmul32(wmul32(chunk_x, chunk_x), 4987142);
        let t2 = wmul32(chunk_x, 5947611);
        let t3a = wmul32(chunk_z, chunk_z);
        let t3 = (t3a as i64) * 4392871;
        let t4 = wmul32(chunk_z, 389711);
        let w = wadd(
            wadd(wadd(wadd(to_bits(world_seed), to_bits(t1 as i64)), to_bits(t2 as i64)), to_bits(t3)),
            to_bits(t4 as i64),
        ) ^ to_bits(scrambler);
        proof {
            let m = 0x1_0000_0000_0000_0000int;
            let ws = world_seed as int;
            vstd::arithmetic::div_mod::lemma_add_mod_noop(ws, t1 as int, m);
            vstd::arithmetic::div_mod::lemma_add_mod_noop(ws + t1 as int, t2 as int, m);
            vstd::arithmetic::div_mod::lemma_add_mod_noop(ws + t1 as int + t2 as int, t3 as int, m);
            vstd::arithmetic::div_mod::lemma_add_mod_noop(
                ws + t1 as int + t2 as int + t3 as int,
                t4 as int,
                m,
            );
        }
        self.reseed_and_mask(w)
    }

    /// Re-seed from the slime hash with the simulation's fixed scrambler.
    pub fn set_slime_seed(&mut self, world_seed: i64, chunk_x: i32, chunk_z: i32) -> (r: i64)
        ensures
            final(self)@ == initial_state(
                sig64(
                    slime_seed_word(world_seed as int, chunk_x as int, chunk_z as int, 987234911),
                ),
                true,
            ),
            r as int == slime_seed_word(world_seed as int, chunk_x as int, chunk_z as int, 987234911)
                % 0x1_0000_0000_0000,
    {
        self.set_slime_seed_scramble(world_seed, chunk_x, chunk_z, 987234911)
    }

    /// Re-seed from the position hash of three block coordinates, and
    /// return the masked position seed.
    pub fn set_position_seed(&mut self, x: i32, y: i32, z: i32) -> (r: i64)
        ensures
            final(self)@ == initial_state(position_seed_value(x as int, y as int, z as int), true),
            r as int == wrap64(position_seed_value(x as int, y as int, z as int))
                % 0x1_0000_0000_0000,
    {
        let seed = crate::random::seeds::PositionSeed::get_position_seed(x, y, z);
        self.jrand.set_seed(seed, true);
        proof {
            crate::random::mth::lemma_wrap64_keeps_low(
                position_seed_value(x as int, y as int, z as int),
                48,
            );
            assert(vstd::arithmetic::power2::pow2(48) == 0x1_0000_0000_0000) by {
                vstd::arithmetic::power2::lemma2_to64_rest();
            }
        }
        crate::random::mth::mask(seed, 48)
    }

    /// Re-seed from the base-stone hash of the world seed and three block
    /// coordinates, and return the seed unmasked, as the simulation does.
    pub fn set_base_stone_seed(&mut self, world_seed: i64, x: i32, y: i32, z: i32) -> (r: i64)
        ensures
            final(self)@ == initial_state(
                sig64(base_stone_seed_word(world_seed as int, x as int, y as int, z as int)),
                true,
            ),
            r as int == sig64(
                base_stone_seed_word(world_seed as int, x as int, y as int, z as int),
            ),
    {
        self.jrand.set_seed(world_seed, true);
        let a = self.jrand.get_next_long();
        let b = self.jrand.get_next_long();
        let _c = self.jrand.get_next_long();
        let zz = wmul(to_bits(z as i64), to_bits(z as i64));
        let w = ((wmul(to_bits(x as i64), to_bits(a)) ^ wmul(to_bits(y as i64), to_bits(b))) ^ zz)
            ^ to_bits(world_seed);
        proof {
            crate::random::mth::lemma_wrap64_mul_noop(x as int, a as int);
            crate::random::mth::lemma_wrap64_mul_noop(y as int, b as int);
            crate::random::mth::lemma_wrap64_mul_noop(z as int, z as int);
        }
        let s = from_bits(w);
        self.jrand.set_seed(s, true);
        proof {
            crate::random::mth::lemma_wrap64_of_sig64(w as int);
        }
        s
    }

    /// Pick one element of a non-empty slice by a bounded draw.
    pub fn get_random<T: Copy>(&mut self, list: &[T]) -> (r: T)
        requires
            1 <= list@.len() <= 0x7FFF_FFFF,
        ensures
            final(self)@ == bounded_of(old(self)@, list@.len() as int).0,
            r == list@[bounded_of(old(self)@, list@.len() as int).1],
    {
        let n = list.len();
        let ghost s0 = self@;
        let idx = self.get_next_int_bound(n as i32);
        proof {
            crate::random::jrand::lemma_bounded_of_range(s0, n as int);
        }
        *vstd::slice::slice_index_get(list, idx as usize)
    }

    /// Draw a value uniform in `[min, max]`, drawing nothing when the
    /// range is empty.
    pub fn get_int(&mut self, min: i32, max: i32) -> (r: i32)
        requires
            min < max ==> max - min < 0x7FFF_FFFF,
        ensures
            final(self)@ == int_in_range(old(self)@, min as int, max as int).0,
            r as int == int_in_range(old(self)@, min as int, max as int).1,
    {
        if min >= max {
            min
        } else {
            let ghost s0 = self@;
            let d = self.get_next_int_bound(max - min + 1);
            proof {
                crate::random::jrand::lemma_bounded_of_range(s0, max as int - min as int + 1);
            }
            d + min
        }
    }
}

} // verus!
