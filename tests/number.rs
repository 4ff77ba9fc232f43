use fraud_motor::number::{decode, encode, parse, ByteOrder, NumKind};

#[test]
fn decode_little_and_big() {
    let b = [0x39, 0x05, 0x00, 0x00, 0xff];
    assert_eq!(decode(NumKind::U32, &b, ByteOrder::Little), 1337);
    assert_eq!(decode(NumKind::U32, &b, ByteOrder::Big), 0x3905_0000);
    assert_eq!(decode(NumKind::U16, &b, ByteOrder::Little), 1337);
    assert_eq!(decode(NumKind::U8, &b, ByteOrder::Big), 0x39);
}

#[test]
fn decode_signed() {
    assert_eq!(decode(NumKind::I8, &[0xff], ByteOrder::Little), -1);
    assert_eq!(decode(NumKind::I16, &[0x00, 0x80], ByteOrder::Little), -32768);
    assert_eq!(decode(NumKind::I64, &[0xff; 8], ByteOrder::Big), -1);
    assert_eq!(decode(NumKind::U64, &[0xff; 8], ByteOrder::Big), u64::MAX as i128);
    assert_eq!(decode(NumKind::I32, &[0xff, 0xff, 0xff, 0x7f], ByteOrder::Little), i32::MAX as i128);
}

#[test]
fn decode_matches_host_order() {
    let order = ByteOrder::native();
    for v in [0u32, 1, 42, 1337, 0xdead_beef, u32::MAX] {
        assert_eq!(decode(NumKind::U32, &v.to_ne_bytes(), order), v as i128);
    }
    for v in [i64::MIN, -5, 0, 7, i64::MAX] {
        assert_eq!(decode(NumKind::I64, &v.to_ne_bytes(), order), v as i128);
    }
}

#[test]
fn encode_write_back_bytes() {
    let order = ByteOrder::native();
    assert_eq!(encode(NumKind::U32, 42, order), 42u32.to_ne_bytes().to_vec());
    assert_eq!(encode(NumKind::I16, -2, order), (-2i16).to_ne_bytes().to_vec());
    assert_eq!(encode(NumKind::U16, 0x1234, ByteOrder::Big), vec![0x12, 0x34]);
    assert_eq!(encode(NumKind::U16, 0x1234, ByteOrder::Little), vec![0x34, 0x12]);
}

#[test]
fn encode_decode_round_trip() {
    let kinds = [
        NumKind::U8,
        NumKind::U16,
        NumKind::U32,
        NumKind::U64,
        NumKind::I8,
        NumKind::I16,
        NumKind::I32,
        NumKind::I64,
    ];
    for kind in kinds {
        let (lo, hi) = kind.bounds();
        for order in [ByteOrder::Little, ByteOrder::Big] {
            for v in [lo, hi, 0, 1, hi / 3] {
                let b = encode(kind, v, order);
                assert_eq!(b.len(), kind.width());
                assert_eq!(decode(kind, &b, order), v);
            }
        }
    }
}

#[test]
fn parse_accepts_literals() {
    assert_eq!(parse(NumKind::U32, "1337"), Some(1337));
    assert_eq!(parse(NumKind::U32, "+1337"), Some(1337));
    assert_eq!(parse(NumKind::I8, "-128"), Some(-128));
    assert_eq!(parse(NumKind::I8, "127"), Some(127));
    assert_eq!(parse(NumKind::U64, "18446744073709551615"), Some(u64::MAX as i128));
    assert_eq!(parse(NumKind::I64, "-9223372036854775808"), Some(i64::MIN as i128));
    assert_eq!(parse(NumKind::U8, "007"), Some(7));
    assert_eq!(parse(NumKind::I32, "-0"), Some(0));
}

#[test]
fn parse_rejects_like_from_str() {
    let cases = ["", "+", "-", "notanumber", "12a", " 1", "1 ", "0x10", "1_000"];
    for c in cases {
        assert_eq!(parse(NumKind::U32, c), None, "{c}");
        assert_eq!(c.parse::<u32>().ok(), None);
    }
    assert_eq!(parse(NumKind::U8, "256"), None);
    assert_eq!(parse(NumKind::U8, "-1"), None);
    assert_eq!(parse(NumKind::I8, "128"), None);
    assert_eq!(parse(NumKind::I8, "-129"), None);
    assert_eq!(parse(NumKind::U64, "18446744073709551616"), None);
    assert_eq!(parse(NumKind::U64, "99999999999999999999999999999999999999999"), None);
}

#[test]
fn parse_agrees_with_std() {
    let cases = ["0", "255", "256", "-1", "+0", "65535", "-32768", "4294967295", "4294967296"];
    for c in cases {
        assert_eq!(parse(NumKind::U8, c), c.parse::<u8>().ok().map(|v| v as i128));
        assert_eq!(parse(NumKind::I16, c), c.parse::<i16>().ok().map(|v| v as i128));
        assert_eq!(parse(NumKind::U32, c), c.parse::<u32>().ok().map(|v| v as i128));
        assert_eq!(parse(NumKind::I64, c), c.parse::<i64>().ok().map(|v| v as i128));
    }
}

#[test]
fn byte_order_from_bytes_of_one() {
    assert!(ByteOrder::from_ne_bytes_of_one([1, 0]) == ByteOrder::Little);
    assert!(ByteOrder::from_ne_bytes_of_one([0, 1]) == ByteOrder::Big);
    let expect = if 1u16.to_ne_bytes() == [1, 0] { ByteOrder::Little } else { ByteOrder::Big };
    assert!(ByteOrder::native() == expect);
}
