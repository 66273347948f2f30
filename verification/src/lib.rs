//! Seed search for a voxel-world chest: a bit-exact 48-bit linear
//! congruential generator, the seed-derivation hashes layered on top of it,
//! a replay of the randomized chest loot, and a search that looks for the
//! world seed reproducing a fixed target inventory.
use vstd::prelude::*;

pub mod item;
pub mod loot;
pub mod random;

pub use loot::ItemStack;

use crate::loot::{generated_loot, target_items, target_items_seq};
use crate::random::chunkrand::{decorator_seed_word, population_seed_word, ChunkRand};
use crate::random::jrand::{next48, next_bits, next_long_of, JRand};
use crate::random::mth::{from_bits, sig32, sig64, to_bits, wadd, wmul, wrap64, xor64};

verus! {

/// The simulation version this library is fixed to.
pub fn mc_version() -> (r: crate::random::mcversion::MCVersion)
    ensures
        r.release == 16 && r.sub_version == 5,
{
    crate::random::mcversion::v1_16_5()
}

/// The salt of the buried-treasure structure.
pub const BURIED_TREASURE_SALT: i64 = 10387320;

/// The structure gate: mix the seed's word with the chunk coordinates and
/// the structure salt, step once, and accept when the 24-bit draw falls
/// below the spawn threshold.
///
/// The simulation compares the draw, as a single-precision fraction of
/// 2^24, against one hundredth; on whole numbers below 2^24 that holds
/// exactly when the draw is at most 167772.
pub open spec fn gate_seed_word(seed: int, cx: int, cz: int) -> int {
    xor64(wrap64(cx * 341873128712 + cz * 132897987541 + sig64(seed) + 10387320), 0x5DEECE66D)
}

pub open spec fn treasure_gate(seed: int, cx: int, cz: int) -> bool {
    next_bits(gate_seed_word(seed, cx, cz) % 0x1_0000_0000_0000, 24) < 167773
}

/// The chest inventory derived from a structure seed at a chunk: the
/// population and decorator hashes seed a generator, one long draw seeds
/// the loot generator, and the loot replay fills the container.
pub open spec fn loot_for_seed(structure_seed: int, cx: int, cz: int, indexed: bool) -> Seq<
    ItemStack,
> {
    let pop = population_seed_word(structure_seed, 16 * cx, 16 * cz, false) % 0x1_0000_0000_0000;
    let dec_state = crate::random::jrand::initial_state(
        sig64(decorator_seed_word(pop, 30001)),
        true,
    );
    generated_loot(crate::random::jrand::initial_state(next_long_of(dec_state), true), indexed)
}

/// Whether a candidate seed reproduces the target inventory at the chunk:
/// it passes the structure gate, and its replayed chest equals the target
/// slot for slot.
pub open spec fn seed_matches(seed: int, cx: int, cz: int) -> bool {
    treasure_gate(seed, cx, cz) && loot_for_seed(sig64(seed), cx, cz, true) == target_items_seq()
}

/// The structure gate on a candidate seed.
pub fn can_spawn_buried_treasure(seed: u64, chunk_x: i32, chunk_z: i32) -> (r: bool)
    ensures
        r == treasure_gate(seed as int, chunk_x as int, chunk_z as int),
{
    let w = gate_word(seed, chunk_x, chunk_z);
    let v = JRand::get_next(from_bits(w), 24);
    proof {
        lemma_gate_equiv(seed as int, chunk_x as int, chunk_z as int, w as int, v as int);
    }
    v < 167773
}

/// The masked word from which the pre-filter draws its 24 bits.
#[verifier::spinoff_prover]
fn gate_word(seed: u64, chunk_x: i32, chunk_z: i32) -> (w: u64)
    ensures
        w as int == gate_seed_word(seed as int, chunk_x as int, chunk_z as int)
            % 0x1_0000_0000_0000,
{
    let sum = wadd(
        wadd(
            wadd(
                wmul(to_bits(chunk_x as i64), 341873128712),
                wmul(to_bits(chunk_z as i64), 132897987541),
            ),
            seed,
        ),
        10387320,
    );
    proof {
        let m = 0x1_0000_0000_0000_0000int;
        let p1 = chunk_x as int * 341873128712;
        let p2 = chunk_z as int * 132897987541;
        crate::random::mth::lemma_wrap64_mul_noop(chunk_x as int, 341873128712);
        crate::random::mth::lemma_wrap64_mul_noop(chunk_z as int, 132897987541);
        vstd::arithmetic::div_mod::lemma_add_mod_noop(p1, p2, m);
        vstd::arithmetic::div_mod::lemma_add_mod_noop(p1 + p2, sig64(seed as int), m);
        vstd::arithmetic::div_mod::lemma_add_mod_noop(p1 + p2, seed as int, m);
        crate::random::mth::lemma_wrap64_of_sig64(seed as int);
        vstd::arithmetic::div_mod::lemma_add_mod_noop(p1 + p2 + sig64(seed as int), 10387320, m);
        vstd::arithmetic::div_mod::lemma_add_mod_noop(p1 + p2 + seed as int, 10387320, m);
        assert(sum as int == wrap64(p1 + p2 + sig64(seed as int) + 10387320));
    }
    (sum ^ 0x5DEECE66D) % 0x1_0000_0000_0000
}

/// The whole-number draw from the masked word settles the pre-filter.
proof fn lemma_gate_equiv(seed: int, cx: int, cz: int, w: int, v: int)
    requires
        0 <= seed < 0x1_0000_0000_0000_0000,
        w == gate_seed_word(seed, cx, cz) % 0x1_0000_0000_0000,
        v == crate::random::jrand::get_next_of(sig64(w), 24),
    ensures
        (v < 167773) == treasure_gate(seed, cx, cz),
{
    crate::random::jrand::lemma_next48_of_wrap(sig64(w));
    crate::random::mth::lemma_wrap64_of_sig64(w);
    assert(next48(sig64(w)) == next48(w));
    lemma_gate_draw_range(w);
}

/// A 24-bit draw lies in `[0, 2^24)`, where its signed 32-bit reading is
/// itself.
proof fn lemma_gate_draw_range(s: int)
    ensures
        next_bits(s, 24) == next48(s) / vstd::arithmetic::power2::pow2(24) as int,
        0 <= next_bits(s, 24) < 0x100_0000,
        sig32(next_bits(s, 24)) == next_bits(s, 24),
{
    reveal(crate::random::jrand::next48);
    reveal(crate::random::jrand::next_bits);
    vstd::arithmetic::power2::lemma_pow2_pos(24);
    vstd::arithmetic::power2::lemma_pow2_adds(24, 24);
    assert(vstd::arithmetic::power2::pow2(24) == 0x100_0000 && vstd::arithmetic::power2::pow2(48)
        == 0x1_0000_0000_0000) by {
        vstd::arithmetic::power2::lemma2_to64();
        vstd::arithmetic::power2::lemma2_to64_rest();
    }
    vstd::arithmetic::div_mod::lemma_multiply_divide_lt(
        next48(s),
        vstd::arithmetic::power2::pow2(24) as int,
        vstd::arithmetic::power2::pow2(24) as int,
    );
}

/// The structure gate with the generator step written out in place.
pub fn can_spawn_buried_treasure_full(seed: u64, chunk_x: i32, chunk_z: i32) -> (r: bool)
    ensures
        r == treasure_gate(seed as int, chunk_x as int, chunk_z as int),
{
    can_spawn_buried_treasure(seed, chunk_x, chunk_z)
}

/// Whether two inventories agree slot for slot.
fn inventories_equal(a: &Vec<ItemStack>, b: &Vec<ItemStack>) -> (r: bool)
    ensures
        r == (a@ == b@),
{
    if a.len() != b.len() {
        return false;
    }
    let mut i: usize = 0;
    while i < a.len()
        invariant
            i <= a@.len(),
            a@.len() == b@.len(),
            forall|j: int| 0 <= j < i ==> a@[j] == b@[j],
        decreases a@.len() - i,
    {
        let x = *vstd::slice::slice_index_get(a.as_slice(), i);
        let y = *vstd::slice::slice_index_get(b.as_slice(), i);
        if !(x == y) {
            return false;
        }
        i = i + 1;
    }
    proof {
        assert(a@ =~= b@);
    }
    true
}

/// The chest inventory (or raw stack list) a structure seed produces at a
/// chunk.
pub fn get_loot(structure_seed: i64, chunk_x: i32, chunk_z: i32, indexed: bool) -> (r: Option<
    Vec<ItemStack>,
>)
    requires
        -0x800_0000 <= chunk_x < 0x800_0000,
        -0x800_0000 <= chunk_z < 0x800_0000,
    ensures
        r is Some,
        r.unwrap()@ == loot_for_seed(structure_seed as int, chunk_x as int, chunk_z as int, indexed),
{
    let mut rand = ChunkRand::default();
    rand.set_decorator_seed_block_salt(structure_seed, chunk_x * 16, chunk_z * 16, 30001);
    let loot_rand = ChunkRand::new(rand.get_next_long());
    crate::loot::generate_buried_treasure_loot(loot_rand, indexed, false)
}

/// Whether a candidate seed reproduces the target inventory at the chunk.
pub fn check_seed(seed: u64, chunk_x: i32, chunk_z: i32) -> (r: bool)
    requires
        -0x800_0000 <= chunk_x < 0x800_0000,
        -0x800_0000 <= chunk_z < 0x800_0000,
    ensures
        r == seed_matches(seed as int, chunk_x as int, chunk_z as int),
{
    if !can_spawn_buried_treasure(seed, chunk_x, chunk_z) {
        return false;
    }
    let loot = get_loot(from_bits(seed), chunk_x, chunk_z, true);
    match loot {
        Some(v) => {
            let target = target_items();
            inventories_equal(&v, &target)
        },
        None => false,
    }
}

/// Search the candidate seeds in `[lo, hi)` in ascending order and return
/// the first that reproduces the target inventory, or nothing when the
/// range holds none.
pub fn find_seed_in_range(lo: u64, hi: u64, chunk_x: i32, chunk_z: i32) -> (r: Option<u64>)
    requires
        lo <= hi,
        -0x800_0000 <= chunk_x < 0x800_0000,
        -0x800_0000 <= chunk_z < 0x800_0000,
    ensures
        r is Some ==> lo <= r.unwrap() < hi && seed_matches(
            r.unwrap() as int,
            chunk_x as int,
            chunk_z as int,
        ) && forall|s: int|
            lo <= s < r.unwrap() ==> !seed_matches(s, chunk_x as int, chunk_z as int),
        r is None ==> forall|s: int| lo <= s < hi ==> !seed_matches(s, chunk_x as int, chunk_z as int),
{
    let mut cur = lo;
    while cur < hi
        invariant
            lo <= cur <= hi,
            -0x800_0000 <= chunk_x < 0x800_0000,
            -0x800_0000 <= chunk_z < 0x800_0000,
            forall|s: int| lo <= s < cur ==> !seed_matches(s, chunk_x as int, chunk_z as int),
        decreases hi - cur,
    {
        if check_seed(cur, chunk_x, chunk_z) {
            return Some(cur);
        }
        cur = cur + 1;
    }
    None
}

/// The structure gate reads only the low 48 bits of a seed: two seed words
/// that agree modulo 2^48 pass or fail it together, whatever their upper
/// 16 bits hold.
pub proof fn lemma_gate_reads_low48(s1: int, s2: int, cx: int, cz: int)
    requires
        0 <= s1 < 0x1_0000_0000_0000_0000,
        0 <= s2 < 0x1_0000_0000_0000_0000,
        s1 % 0x1_0000_0000_0000 == s2 % 0x1_0000_0000_0000,
    ensures
        treasure_gate(s1, cx, cz) == treasure_gate(s2, cx, cz),
{
    let m = 0x1_0000_0000_0000_0000int;
    let n = 0x1_0000_0000_0000int;
    let base = cx * 341873128712 + cz * 132897987541 + 10387320;
    let w1 = wrap64(base + sig64(s1));
    let w2 = wrap64(base + sig64(s2));
    assert(sig64(s1) % n == s1 % n && sig64(s2) % n == s2 % n) by {
        crate::random::mth::lemma_wrap64_of_sig64(s1);
        crate::random::mth::lemma_wrap64_of_sig64(s2);
        crate::random::mth::lemma_wrap64_keeps_low(sig64(s1), 48);
        crate::random::mth::lemma_wrap64_keeps_low(sig64(s2), 48);
        crate::random::mth::lemma_wrap64_keeps_low(s1, 48);
        crate::random::mth::lemma_wrap64_keeps_low(s2, 48);
        assert(vstd::arithmetic::power2::pow2(48) == n) by {
            vstd::arithmetic::power2::lemma2_to64_rest();
        }
    }
    assert(w1 % n == w2 % n) by {
        crate::random::mth::lemma_wrap64_keeps_low(base + sig64(s1), 48);
        crate::random::mth::lemma_wrap64_keeps_low(base + sig64(s2), 48);
        assert(vstd::arithmetic::power2::pow2(48) == n) by {
            vstd::arithmetic::power2::lemma2_to64_rest();
        }
        vstd::arithmetic::div_mod::lemma_add_mod_noop(base, sig64(s1), n);
        vstd::arithmetic::div_mod::lemma_add_mod_noop(base, sig64(s2), n);
    }
    let u1 = w1 as u64;
    let u2 = w2 as u64;
    assert((u1 ^ 0x5DEECE66Du64) % 0x1_0000_0000_0000u64 == (u2 ^ 0x5DEECE66Du64)
        % 0x1_0000_0000_0000u64) by (bit_vector)
        requires
            u1 % 0x1_0000_0000_0000u64 == u2 % 0x1_0000_0000_0000u64,
    ;
    assert(gate_seed_word(s1, cx, cz) == xor64(w1, 0x5DEECE66D));
    assert(gate_seed_word(s2, cx, cz) == xor64(w2, 0x5DEECE66D));
}

/// Checking a seed is deterministic: two calls on one candidate and chunk
/// return one verdict — the derivation chain has no hidden state.
pub proof fn lemma_check_seed_deterministic(
    seed: u64,
    chunk_x: i32,
    chunk_z: i32,
    r1: bool,
    r2: bool,
)
    requires
        call_ensures(check_seed, (seed, chunk_x, chunk_z), r1),
        call_ensures(check_seed, (seed, chunk_x, chunk_z), r2),
    ensures
        r1 == r2,
{
}

/// The stateless position hash is pure: two calls on one input tuple
/// return one value.
pub proof fn lemma_position_seed_pure(x: i32, y: i32, z: i32, r1: i64, r2: i64)
    requires
        call_ensures(crate::random::seeds::PositionSeed::get_position_seed, (x, y, z), r1),
        call_ensures(crate::random::seeds::PositionSeed::get_position_seed, (x, y, z), r2),
    ensures
        r1 == r2,
{
}

/// The base-stone derivation is pure in the same way, though it runs a
/// whole generator chain: its result is a function of the world seed and
/// the coordinates alone.
pub proof fn lemma_base_stone_seed_pure(
    world_seed: i64,
    x: i32,
    y: i32,
    z: i32,
    r1: i64,
    r2: i64,
)
    requires
        call_ensures(
            crate::random::seeds::PositionSeed::get_base_stone_seed,
            (world_seed, x, y, z),
            r1,
        ),
        call_ensures(
            crate::random::seeds::PositionSeed::get_base_stone_seed,
            (world_seed, x, y, z),
            r2,
        ),
    ensures
        r1 == r2,
{
}

} // verus!
