use seedcracker::random::jrand::{JRand, LCG};

#[test]
fn test_next_int_bound() {
    let mut rand = JRand::new(4506419895);
    assert_eq!(rand.get_next_int_bound(100), 10)
}

#[test]
fn test_next_bool() {
    let mut rand = JRand::new(4506419895);
    assert!(rand.get_next_bool());
}

#[test]
fn test_next_seed() {
    let mut rand = JRand::new(4506419895);
    assert_eq!(rand.next_seed(), 281474976500957)
}

#[test]
fn test_shuffle() {
    let mut rand = JRand::new(4506419895);
    let mut vec = vec![
        1, 2, 3, 4, 5, 6, 7, 8, 9, 10, 11, 12, 13, 14, 15, 16, 17, 18,
    ];
    rand.shuffle(&mut vec);
    assert_eq!(
        vec,
        [7, 11, 5, 15, 10, 17, 8, 18, 4, 14, 12, 2, 1, 3, 13, 6, 16, 9]
    )
}

#[test]
fn test_next_long() {
    let mut rand = JRand::new(4506419895);
    assert_eq!(rand.get_next_long(), -16256950163)
}

#[test]
fn test_advance_matches_stepping() {
    let mut jumped = JRand::new(4506419895);
    jumped.advance_calls(5);
    let mut stepped = JRand::new(4506419895);
    for _ in 0..5 {
        stepped.next_seed();
    }
    assert_eq!(jumped.seed, stepped.seed);

    let mut idle = JRand::new(4506419895);
    idle.advance_calls(0);
    assert_eq!(idle.seed, JRand::new(4506419895).seed);
}

#[test]
fn test_advance_backward() {
    let start = JRand::new(4506419895).seed;
    let mut rand = JRand::new(4506419895);
    rand.advance_calls(-3);
    rand.advance_calls(3);
    assert_eq!(rand.seed, start);

    let mut inverse = JRand::new(4506419895);
    inverse.advance_calls(-1);
    inverse.next_seed();
    assert_eq!(inverse.seed, start);
}

#[test]
fn test_lcg_invert_roundtrip() {
    let java = LCG::java();
    let back = java.invert();
    let s0: i64 = 123456789;
    let s1 = java.next_seed(s0);
    assert_eq!(back.next_seed(s1), s0);
}

#[test]
fn test_static_draws() {
    let mut rand = JRand::new(4506419895);
    let state = rand.next_seed();
    assert_eq!(JRand::next_bool(state), rand.seed >= 0x8000_0000_0000);
    assert_eq!(JRand::next_int(state), (state >> 16) as i32);
}

#[test]
fn test_static_bound_matches_generator() {
    let mut g = JRand::new(4506419895);
    let pow2_draw = g.get_next_int_bound(16);
    let mut h = JRand::new(4506419895);
    let s = h.next_seed();
    assert_eq!(JRand::next_int_bound(s, 16), pow2_draw);

    let mut g2 = JRand::new(4506419895);
    let general_draw = g2.get_next_int_bound(100);
    let mut h2 = JRand::new(4506419895);
    let s2 = h2.next_seed();
    assert_eq!(JRand::next_int_bound(s2, 100), general_draw);
}

#[test]
fn test_combine_is_sequential() {
    let chained = LCG::borland_c().combine_two(LCG::pascal()).combine_two(LCG::open_vms());
    let folded = LCG::combine(vec![LCG::borland_c(), LCG::pascal(), LCG::open_vms()]);
    assert_eq!(folded.multiplier, chained.multiplier);
    assert_eq!(folded.addend, chained.addend);
    assert_eq!(folded.modulus, chained.modulus);
}

#[test]
fn test_minstd_small_step() {
    let minstd = LCG::minstd_rand0_c();
    assert_eq!(minstd.next_seed(1), 16807);
    assert_eq!(minstd.next_seed(16807), (16807i64 * 16807) % 0x7FFF_FFFF);
}
