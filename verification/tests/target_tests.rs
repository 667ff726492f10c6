use fpoc::target::Target;

fn from_hex(s: &str) -> [u8; 32] {
    let mut out = [0u8; 32];
    for i in 0..32 {
        out[i] = u8::from_str_radix(&s[2 * i..2 * i + 2], 16).unwrap();
    }
    out
}

fn genesis_bytes() -> [u8; 32] {
    let mut g = [0xFFu8; 32];
    g[..4].copy_from_slice(&[0, 0, 0, 0]);
    g
}

#[test]
fn genesis_target_has_four_zero_bytes() {
    assert_eq!(Target::genesis().0, genesis_bytes());
}

#[test]
fn hashes_below_the_target_meet_it() {
    let t = Target::genesis();
    assert!(t.is_met_by(&[0u8; 32]));
    assert!(!t.is_met_by(&genesis_bytes()));
    let mut just_below = genesis_bytes();
    just_below[31] = 0xFE;
    assert!(t.is_met_by(&just_below));
    assert!(!Target([5u8; 32]).is_met_by(&[5u8; 32]));
    let mut above = [0u8; 32];
    above[3] = 1;
    assert!(!t.is_met_by(&above));
    assert!(!t.is_met_by(&[0xFFu8; 32]));
}

#[test]
fn share_target_is_the_target_times_256() {
    let s = Target::genesis().share_target();
    assert_eq!(s.0, from_hex("000000ffffffffffffffffffffffffffffffffffffffffffffffffffffffff00"));
}

#[test]
fn prefilter_target_is_the_share_target_times_65536() {
    let p = Target::genesis().prefilter_target();
    assert_eq!(p.0, from_hex("00ffffffffffffffffffffffffffffffffffffffffffffffffffffffff000000"));
}

#[test]
fn scaled_targets_saturate_at_all_ones() {
    let big = Target([0x10u8; 32]);
    assert_eq!(big.share_target().0, [0xFFu8; 32]);
    assert_eq!(big.prefilter_target().0, [0xFFu8; 32]);
}

#[test]
fn a_block_hash_also_meets_the_share_target() {
    let t = Target::genesis();
    let mut h = [0u8; 32];
    h[5] = 0x42;
    assert!(t.is_met_by(&h));
    assert!(t.share_target().is_met_by(&h));
    assert!(t.prefilter_target().is_met_by(&h));
}

#[test]
fn adjusting_by_one_keeps_the_target() {
    let t = Target([0x5Au8; 32]);
    assert_eq!(t.adjust_fixed(1_000_000).0, t.0);
    assert_eq!(Target::genesis().adjust_fixed(1_000_000).0, genesis_bytes());
}

#[test]
fn adjusting_multiplies_the_target_exactly() {
    let g = Target::genesis();
    assert_eq!(
        g.adjust_fixed(500_000).0,
        from_hex("000000007fffffffffffffffffffffffffffffffffffffffffffffffffffffff")
    );
    assert_eq!(
        g.adjust_fixed(1_250_000).0,
        from_hex("000000013ffffffffffffffffffffffffffffffffffffffffffffffffffffffe")
    );
    assert_eq!(
        Target([0x12u8; 32]).adjust_fixed(750_000).0,
        from_hex("0d8d8d8d8d8d8d8d8d8d8d8d8d8d8d8d8d8d8d8d8d8d8d8d8d8d8d8d8d8d8d8d")
    );
    let mut t = [0u8; 32];
    t[30] = 1;
    let mut expected = [0u8; 32];
    expected[30] = 1;
    expected[31] = 64;
    assert_eq!(Target(t).adjust_fixed(1_250_000).0, expected);
    assert_eq!(Target([0xFFu8; 32]).adjust_fixed(1_250_000).0, [0xFFu8; 32]);
    assert_eq!(Target([0xFFu8; 32]).adjust_fixed(0).0, [0u8; 32]);
}
