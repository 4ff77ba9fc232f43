use fraud_motor::process::{parse_hex, parse_maps_line, region_from_maps_fields};

#[test]
fn maps_line_with_path() {
    let r = parse_maps_line("55d0c7a0e000-55d0c7a10000 r-xp 00002000 08:01 1234      /usr/bin/foo").unwrap();
    assert_eq!(r.start(), 0x55d0c7a0e000);
    assert_eq!(r.end(), 0x55d0c7a10000);
    let p = r.permissions();
    assert!(p.read() && !p.write() && p.execute());
    assert_eq!(r.path(), Some("/usr/bin/foo"));
}

#[test]
fn maps_line_pseudo_path_and_anonymous() {
    let r = parse_maps_line("7ffd1000-7ffd2000 rw-p 00000000 00:00 0 [stack]").unwrap();
    assert_eq!(r.path(), None);
    assert!(r.permissions().read() && r.permissions().write());
    let r = parse_maps_line("7f0000000000-7f0000001000 ---p 00000000 00:00 0").unwrap();
    assert_eq!(r.path(), None);
    assert!(!r.permissions().read() && !r.permissions().write() && !r.permissions().execute());
    assert_eq!(r.end() - r.start(), 0x1000);
}

#[test]
fn maps_line_malformed() {
    for line in ["", "1000 rw-p", "zz-1000 rw-p", "1000-zz rw-p", "2000-1000 rw-p", "1000-2000 r", "1000-2000-3000 rw-p", "-1000 rw-p", "1000- rw-p", "0-10000000000000000 rw-p"] {
        assert!(parse_maps_line(line).is_none(), "{line}");
    }
}

#[test]
fn maps_fields_upper_case_and_plus() {
    let r = region_from_maps_fields(&["+AB-Cd", "rwxs"]).unwrap();
    assert_eq!((r.start(), r.end()), (0xab, 0xcd));
    assert!(r.permissions().execute());
}

#[test]
fn hex_matches_from_str_radix() {
    for t in ["0", "ff", "FF", "+1", "", "+", "g", "ffffffffffffffff", "10000000000000000", "00000000000000000001"] {
        let b = t.as_bytes();
        assert_eq!(parse_hex(b, 0, b.len()), usize::from_str_radix(t, 16).ok(), "{t}");
    }
}
