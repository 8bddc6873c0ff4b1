use quickphf::{hash_key, hash_pilot_value, ilog2, PhfSet};

#[test]
fn ilog2_values() {
    assert_eq!(ilog2(1), 0);
    assert_eq!(ilog2(2), 1);
    assert_eq!(ilog2(3), 1);
    assert_eq!(ilog2(4), 2);
    assert_eq!(ilog2(10), 3);
    assert_eq!(ilog2(1 << 40), 40);
    assert_eq!(ilog2(u64::MAX), 63);
}

#[test]
fn pilot_hash_values() {
    assert_eq!(hash_pilot_value(0), 0);
    assert_eq!(hash_pilot_value(1), 0x517cc1b727220a95);
    assert_eq!(hash_pilot_value(2), 0x517cc1b727220a95u64.wrapping_mul(2));
    assert_eq!(hash_pilot_value(u16::MAX), 0x517cc1b727220a95u64.wrapping_mul(65535));
}

#[test]
fn hash_key_depends_on_key_and_seed() {
    let a = hash_key(&1u64, 0x1_0000_0000);
    let b = hash_key(&2u64, 0x1_0000_0000);
    let c = hash_key(&1u64, 0x2_0000_0000);
    assert_ne!(a, b);
    assert_ne!(a, c);
    assert_eq!(a, hash_key(&1u64, 0x1_0000_0000));
}

#[test]
fn key_types_round_trip() {
    let bytes = PhfSet::build(&vec![1u8, 2, 250]).unwrap();
    assert!(bytes.contains(&250));
    assert!(!bytes.contains(&251));

    let shorts = PhfSet::build(&vec![1u16, 600, 65535]).unwrap();
    assert!(shorts.contains(&600));
    assert!(!shorts.contains(&599));

    let words = PhfSet::build(&vec![1u32, 1 << 20, u32::MAX]).unwrap();
    assert!(words.contains(&(1 << 20)));
    assert!(!words.contains(&2));

    let longs = PhfSet::build(&vec![1u64, 1 << 50, u64::MAX]).unwrap();
    assert!(longs.contains(&(1 << 50)));
    assert!(!longs.contains(&0));

    let sizes = PhfSet::build(&vec![1usize, 77, 1 << 30]).unwrap();
    assert!(sizes.contains(&77));
    assert!(!sizes.contains(&78));

    let signed = PhfSet::build(&vec![-5i32, 0, 5]).unwrap();
    assert!(signed.contains(&-5));
    assert!(!signed.contains(&-4));

    let wide_signed = PhfSet::build(&vec![i64::MIN, -1, 1, i64::MAX]).unwrap();
    assert!(wide_signed.contains(&i64::MIN));
    assert!(!wide_signed.contains(&0));

    let strs = PhfSet::build(&vec!["to", "the", "lighthouse"]).unwrap();
    assert!(strs.contains(&"lighthouse"));
    assert!(!strs.contains(&"lighthous"));
    assert!(!strs.contains(&""));
}
