use quickphf::{build_map, build_raw_map, build_set, ConstInstantiable, PhfError};

#[test]
fn empty_set_rendering() {
    let writer = build_set::<u64>(vec![]).unwrap();
    let code = writer.write();
    assert_eq!(code, "::quickphf::PhfSet::new(\n    0,\n    &[0],\n    &[],\n    &[0]\n)");
}

#[test]
fn empty_map_rendering() {
    let writer = build_map::<u64, bool>(vec![], vec![]).unwrap();
    let code = writer.write();
    assert_eq!(code, "::quickphf::PhfMap::new(\n    0,\n    &[0],\n    &[],\n    &[0]\n)");
}

#[test]
fn empty_raw_map_rendering() {
    let writer = build_raw_map::<u64, u32>(vec![], vec![]).unwrap();
    let code = writer.write();
    assert_eq!(code, "::quickphf::RawPhfMap::new(\n    0,\n    &[0],\n    &[],\n    &[0]\n)");
}

#[test]
fn rendering_is_deterministic() {
    let months = vec![
        "jan", "feb", "mar", "apr", "may", "jun", "jul", "aug", "sep", "oct", "nov", "dec",
    ];
    let holidays = vec![2i32, 1, 0, 0, 0, 1, 1, 0, 1, 1, 2, 1];

    let first = build_raw_map(months.clone(), holidays.clone()).unwrap().write();
    let second = build_raw_map(months, holidays).unwrap().write();
    assert_eq!(first, second);

    let third = build_set(vec![0u64, 2, 4, 6, 8]).unwrap().write();
    let fourth = build_set(vec![0u64, 2, 4, 6, 8]).unwrap().write();
    assert_eq!(third, fourth);
}

#[test]
fn rendering_shape() {
    let writer = build_map(vec![1u32, 16, 81], vec!["one", "two", "three"]).unwrap();
    let code = writer.write();
    assert!(code.starts_with("::quickphf::PhfMap::new(\n    "));
    assert!(code.ends_with("\n)"));
    assert!(code.contains("(1, \"one\")"));
    assert!(code.contains("(16, \"two\")"));
    assert!(code.contains("(81, \"three\")"));
}

#[test]
fn duplicate_keys_refused_by_builders() {
    match build_set(vec!["dup", "other", "dup"]) {
        Err(PhfError::DuplicateKeys { first, second }) => {
            assert_eq!(first, 0);
            assert_eq!(second, 2);
        }
        _ => panic!("duplicate keys must be rejected"),
    }
    assert!(build_map(vec![7u64, 7], vec![1i32, 2]).is_err());
    assert!(build_raw_map(vec![7u64, 7], vec![1i32, 2]).is_err());
}

#[test]
fn constant_expressions() {
    assert_eq!(0u64.fmt_const_new(), "0");
    assert_eq!(1234567890123456789u64.fmt_const_new(), "1234567890123456789");
    assert_eq!(65535u16.fmt_const_new(), "65535");
    assert_eq!(10u8.fmt_const_new(), "10");
    assert_eq!(4294967295u32.fmt_const_new(), "4294967295");
    assert_eq!(42usize.fmt_const_new(), "42");
    assert_eq!((-5i32).fmt_const_new(), "-5");
    assert_eq!(i32::MIN.fmt_const_new(), "-2147483648");
    assert_eq!(i64::MIN.fmt_const_new(), "-9223372036854775808");
    assert_eq!(7i64.fmt_const_new(), "7");
    assert_eq!(true.fmt_const_new(), "true");
    assert_eq!(false.fmt_const_new(), "false");
    assert_eq!("jan".fmt_const_new(), "\"jan\"");
    assert_eq!((3u8, "x").fmt_const_new(), "(3, \"x\")");
    assert_eq!(Some(9u16).fmt_const_new(), "Some(9)");
    assert_eq!(None::<u16>.fmt_const_new(), "None");
    assert_eq!(Ok::<u8, u8>(1).fmt_const_new(), "Ok(1)");
    assert_eq!(Err::<u8, u8>(2).fmt_const_new(), "Err(2)");
}

#[test]
fn string_escaping() {
    assert_eq!("a\"b".fmt_const_new(), "\"a\\\"b\"");
    assert_eq!("a\\b".fmt_const_new(), "\"a\\\\b\"");
    assert_eq!("line\nbreak".fmt_const_new(), "\"line\\nbreak\"");
    assert_eq!("tab\there".fmt_const_new(), "\"tab\\there\"");
    assert_eq!("cr\rhere".fmt_const_new(), "\"cr\\rhere\"");
    assert_eq!("nul\0here".fmt_const_new(), "\"nul\\0here\"");
    assert_eq!("plain".fmt_const_new(), "\"plain\"");
}

#[test]
fn more_constant_expressions() {
    assert_eq!('x'.fmt_const_new(), "'x'");
    assert_eq!('\''.fmt_const_new(), "'\\''");
    assert_eq!('\\'.fmt_const_new(), "'\\\\'");
    assert_eq!('\n'.fmt_const_new(), "'\\n'");
    assert_eq!((-7i8).fmt_const_new(), "-7");
    assert_eq!(i8::MIN.fmt_const_new(), "-128");
    assert_eq!(i16::MIN.fmt_const_new(), "-32768");
    assert_eq!((-3isize).fmt_const_new(), "-3");
    assert_eq!(340282366920938463463374607431768211455u128.fmt_const_new(),
        "340282366920938463463374607431768211455");
    assert_eq!(i128::MIN.fmt_const_new(), "-170141183460469231731687303715884105728");
    assert_eq!(().fmt_const_new(), "()");
    assert_eq!((1u8, 2u8, 3u8).fmt_const_new(), "(1, 2, 3)");
    assert_eq!((1u8, 2u8, 3u8, 4u8).fmt_const_new(), "(1, 2, 3, 4)");
}

#[test]
fn quoted_keys_render_as_valid_literals() {
    let writer = build_set(vec!["plain", "qu\"ote", "back\\slash"]).unwrap();
    let code = writer.write();
    assert!(code.contains("\"plain\""));
    assert!(code.contains("\"qu\\\"ote\""));
    assert!(code.contains("\"back\\\\slash\""));
}
