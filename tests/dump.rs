use fraud_motor::dump::{DumpPool, ProcessDump, RegionDump};
use fraud_motor::error::ErrorKind;
use fraud_motor::process::{Permissions, Region};

fn region(start: usize, end: usize, write: bool) -> Region {
    Region::new(start, end, Permissions::new(true, write, false), None)
}

fn fill(r: &Region) -> Result<Vec<u8>, ErrorKind> {
    Ok((r.start()..r.end()).map(|a| (a % 251) as u8).collect())
}

#[test]
fn region_dump_shares_equal_contents() {
    let mut pool = DumpPool::new();
    let a = RegionDump::new(&mut pool, vec![1, 2, 3]);
    let b = RegionDump::new(&mut pool, vec![1, 2, 3]);
    let c = RegionDump::new(&mut pool, vec![1, 2, 4]);
    assert_eq!(a.data(), &[1, 2, 3]);
    assert_eq!(a.data().as_ptr(), b.data().as_ptr());
    assert_ne!(a.data().as_ptr(), c.data().as_ptr());
    assert_eq!(c.data(), &[1, 2, 4]);
}

#[test]
fn region_dump_order_of_insertion_irrelevant() {
    let mut pool = DumpPool::new();
    let items: Vec<Vec<u8>> = vec![vec![5], vec![1, 9], vec![], vec![1], vec![5, 0], vec![0xff]];
    let first: Vec<RegionDump> = items.iter().map(|v| RegionDump::new(&mut pool, v.clone())).collect();
    for (v, d) in items.iter().zip(first.iter()).rev() {
        let again = RegionDump::new(&mut pool, v.clone());
        assert_eq!(again.data(), v.as_slice());
        assert_eq!(again.data().as_ptr(), d.data().as_ptr());
    }
}

#[test]
fn region_dump_dropped_contents_not_kept() {
    let mut pool = DumpPool::new();
    let a = RegionDump::new(&mut pool, vec![7; 32]);
    drop(a);
    let b = RegionDump::new(&mut pool, vec![7; 32]);
    assert_eq!(b.data(), &[7; 32]);
}

#[test]
fn process_dump_twice_shares_storage() {
    let mut pool = DumpPool::new();
    let regions = || vec![Ok(region(0x1000, 0x1100, true)), Ok(region(0x2000, 0x2010, true))];
    let d1 = ProcessDump::new(&mut pool, regions(), |_| true, fill).unwrap();
    let d2 = ProcessDump::new(&mut pool, regions(), |_| true, fill).unwrap();
    for ((_, a), (_, b)) in d1.regions().iter().zip(d2.regions().iter()) {
        let (a, b) = (a.as_ref().unwrap(), b.as_ref().unwrap());
        assert_eq!(a.data().as_ptr(), b.data().as_ptr());
    }
}

#[test]
fn process_dump_filters_in_order() {
    let mut pool = DumpPool::new();
    let regions = vec![
        Ok(region(0x1000, 0x1010, true)),
        Ok(region(0x2000, 0x2010, false)),
        Ok(region(0x3000, 0x3008, true)),
    ];
    let d = ProcessDump::new(&mut pool, regions, |r| r.permissions().write(), fill).unwrap();
    let rs = d.regions();
    assert_eq!(rs.len(), 2);
    assert_eq!(rs[0].0.start(), 0x1000);
    assert_eq!(rs[1].0.start(), 0x3000);
    for (r, data) in rs {
        assert!(r.permissions().write());
        assert_eq!(data.as_ref().unwrap().data().len(), r.end() - r.start());
    }
    let mut last = 0;
    for (r, _) in rs {
        assert!(r.start() >= last);
        last = r.end();
    }
}

#[test]
fn process_dump_records_read_errors() {
    let mut pool = DumpPool::new();
    let regions = vec![Ok(region(0x1000, 0x1010, true)), Ok(region(0x2000, 0x2010, true))];
    let d = ProcessDump::new(&mut pool, regions, |_| true, |r: &Region| {
        if r.start() == 0x1000 {
            Err(ErrorKind::Permission)
        } else {
            Ok(vec![0; 4])
        }
    })
    .unwrap();
    let rs = d.regions();
    assert_eq!(rs.len(), 2);
    assert_eq!(rs[0].1.as_ref().err(), Some(&ErrorKind::Permission));
    assert_eq!(rs[1].1.as_ref().err(), Some(&ErrorKind::Io));
}

#[test]
fn process_dump_enumeration_error_aborts() {
    let mut pool = DumpPool::new();
    let regions = vec![Ok(region(0x1000, 0x1010, true)), Err(ErrorKind::Io), Err(ErrorKind::Permission)];
    let r = ProcessDump::new(&mut pool, regions, |_| true, fill);
    assert_eq!(r.err(), Some(ErrorKind::Io));
}

#[test]
fn view_lookup_returns_suffix() {
    let mut pool = DumpPool::new();
    let regions = vec![Ok(region(0x1000, 0x1010, true)), Ok(region(0x1010, 0x1020, true)), Ok(region(0x3000, 0x3004, true))];
    let d = ProcessDump::new(&mut pool, regions, |_| true, fill).unwrap();
    let view = d.view();
    let expect: Vec<u8> = (0x1004usize..0x1010).map(|a| (a % 251) as u8).collect();
    assert_eq!(view.data(0x1004), Some(expect.as_slice()));
    assert_eq!(view.data(0x1010).map(|s| s.len()), Some(16));
    assert_eq!(view.data(0x101f).map(|s| s.len()), Some(1));
    assert_eq!(view.data(0x3003).map(|s| s.len()), Some(1));
    assert_eq!(view.data(0x1020), None);
    assert_eq!(view.data(0xfff), None);
    assert_eq!(view.data(0x3004), None);
    assert_eq!(view.data(0), None);
}

#[test]
fn view_lookup_misses_failed_region() {
    let mut pool = DumpPool::new();
    let regions = vec![Ok(region(0x1000, 0x1010, true))];
    let d = ProcessDump::new(&mut pool, regions, |_| true, |_: &Region| Err(ErrorKind::Io)).unwrap();
    assert_eq!(d.view().data(0x1004), None);
}
