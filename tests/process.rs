use fraud_motor::process::{walk_answer, walk_ends_on_error, with_path, Permissions, Region, WalkStep};

#[test]
fn region_getters() {
    let r = Region::new(0x1000, 0x2000, Permissions::new(true, true, false), Some("/usr/bin/x".to_string()));
    assert_eq!(r.start(), 0x1000);
    assert_eq!(r.end(), 0x2000);
    assert!(r.permissions().read());
    assert!(r.permissions().write());
    assert!(!r.permissions().execute());
    assert_eq!(r.path(), Some("/usr/bin/x"));
    let anon = Region::new(0, 0, Permissions::new(false, false, false), None);
    assert_eq!(anon.path(), None);
}

#[test]
fn protect_flags_decode() {
    let p = Permissions::from_protect(0x02);
    assert!(p.read() && !p.write() && !p.execute());
    let p = Permissions::from_protect(0x04);
    assert!(p.read() && p.write() && !p.execute());
    let p = Permissions::from_protect(0x08);
    assert!(p.read() && p.write() && !p.execute());
    let p = Permissions::from_protect(0x10);
    assert!(p.read() && !p.write() && p.execute());
    let p = Permissions::from_protect(0x20);
    assert!(p.read() && !p.write() && p.execute());
    let p = Permissions::from_protect(0x40);
    assert!(p.read() && p.write() && p.execute());
    let p = Permissions::from_protect(0x80);
    assert!(p.read() && p.write() && p.execute());
    let p = Permissions::from_protect(0x01);
    assert!(!p.read() && !p.write() && !p.execute());
    let p = Permissions::from_protect(0x04 | 0x100);
    assert!(p.read() && p.write() && !p.execute());
}

#[test]
fn walk_yields_committed_blocks() {
    let (step, next) = walk_answer(0x10000, 0x2000, 0x1000, 0x20000, 0x04);
    assert_eq!(next, Some(0x12000));
    match step {
        WalkStep::Yield { region, wants_path } => {
            assert_eq!((region.start(), region.end()), (0x10000, 0x12000));
            assert!(region.permissions().write());
            assert!(!wants_path);
            let named = with_path(region, "\\Device\\x.dll".to_string());
            assert_eq!(named.path(), Some("\\Device\\x.dll"));
            assert_eq!(named.end(), 0x12000);
        }
        WalkStep::Skip => panic!("committed block skipped"),
    }
    let (step, _) = walk_answer(0x10000, 0x1000, 0x1000, 0x100_0000, 0x20);
    assert!(matches!(step, WalkStep::Yield { wants_path: true, .. }));
    let (step, next) = walk_answer(0x20000, 0x1000, 0x2000, 0, 0x04);
    assert!(matches!(step, WalkStep::Skip));
    assert_eq!(next, Some(0x21000));
    let (step, next) = walk_answer(usize::MAX - 0xfff, 0x2000, 0x1000, 0, 0x04);
    assert!(matches!(step, WalkStep::Skip));
    assert_eq!(next, None);
    assert!(walk_ends_on_error(Some(87)));
    assert!(!walk_ends_on_error(Some(5)));
    assert!(!walk_ends_on_error(None));
}
