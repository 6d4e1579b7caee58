use dungeon_gen::random::{scale, LfsrRandom, Random, LFSR_DEFAULT_SEED};

#[test]
fn rng() {
    let mut t = LfsrRandom::default();
    let mut cnt = [0usize; 256];
    let mean = 10000;
    for _ in 0..mean * 256 {
        cnt[t.gen_u8() as usize] += 1;
    }
    assert!(cnt
        .into_iter()
        .all(|t| mean * 9 / 10 <= t && t <= mean * 11 / 10))
}

#[test]
fn default_seed() {
    assert_eq!(LfsrRandom::default().state(), 0x17291729);
    assert_eq!(LFSR_DEFAULT_SEED, 0x17291729);
    assert_eq!(LfsrRandom::new(5).state(), 5);
}

#[test]
fn lfsr_first_draws() {
    // state 0x17291729: bits 23..30 are 0x2e, bits 10..17 are 0x45
    let mut g = LfsrRandom::new(0x17291729);
    let first = g.gen();
    assert_eq!(first, 0x2917296b);
    assert_eq!(g.state(), 0x2917296b);
    let mut h = LfsrRandom::new(0x17291729);
    assert_eq!(h.gen_u8(), 0x6b);
    assert_eq!(h.state(), 0x2917296b);
}

#[test]
fn gen_u8_is_low_byte_of_gen() {
    let mut a = LfsrRandom::new(12345);
    let mut b = LfsrRandom::new(12345);
    for _ in 0..1000 {
        let word = a.gen();
        let byte = b.gen_u8();
        assert_eq!(byte, (word & 0xff) as u8);
    }
}

#[test]
fn scale_exact_values() {
    assert_eq!(scale(0, 0), 0);
    assert_eq!(scale(u32::MAX, 0), 0);
    assert_eq!(scale(0, 1), 0);
    assert_eq!(scale(0x7fff_ffff, 1), 0);
    assert_eq!(scale(0x8000_0000, 1), 1);
    assert_eq!(scale(u32::MAX, 1), 1);
    assert_eq!(scale(0x0100_0000, 255), 1);
    assert_eq!(scale(0x00ff_ffff, 255), 0);
    assert_eq!(scale(u32::MAX, 255), 255);
    assert_eq!(scale(u32::MAX, 1 << 31), 1 << 31);
    assert_eq!(scale(u32::MAX, u32::MAX), u32::MAX);
    assert_eq!(scale(0x1234_5678, u32::MAX), 0x1234_5678);
    assert_eq!(scale(0x8000_0000, 9), 5);
}

#[test]
fn gen_max_stays_in_range() {
    let mut g = LfsrRandom::default();
    for max in [0u32, 1, 255, 1 << 31] {
        for _ in 0..10000 {
            assert!(g.gen_max(max) <= max);
        }
    }
}

#[test]
fn gen_max_scales_one_draw() {
    let mut a = LfsrRandom::new(99);
    let mut b = LfsrRandom::new(99);
    for max in [0u32, 1, 7, 255, 1 << 31, u32::MAX] {
        let word = a.gen();
        assert_eq!(b.gen_max(max), scale(word, max));
        assert_eq!(a.state(), b.state());
    }
}
