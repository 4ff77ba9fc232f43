use fraud_motor::dump::{DumpPool, ProcessDump};
use fraud_motor::error::ErrorKind;
use fraud_motor::group::{compare_values, scan_insert, scan_new, scan_next, scan_next_imp, CmpOp, Filters, ScanGroup, Types};
use fraud_motor::number::{encode, ByteOrder, NumKind};
use fraud_motor::process::{Permissions, Region};
use fraud_motor::scan::Scan;

const BASE: usize = 0x10000;

fn memory_with(values: &[(usize, Vec<u8>)]) -> Vec<u8> {
    let mut mem = vec![0u8; 0x100];
    for (off, bytes) in values {
        mem[*off..*off + bytes.len()].copy_from_slice(bytes);
    }
    mem
}

fn snapshot(pool: &mut DumpPool, mem: &[u8]) -> ProcessDump {
    let r = Region::new(BASE, BASE + mem.len(), Permissions::new(true, true, false), None);
    ProcessDump::new(pool, vec![Ok(r)], |_| true, |_: &Region| -> Result<Vec<u8>, ErrorKind> { Ok(mem.to_vec()) })
        .unwrap()
}

fn group_u32() -> ScanGroup {
    let mut types = no_types();
    types.u32 = true;
    let mut g = ScanGroup::new(&types, None);
    let r = Region::new(BASE, BASE + 0x100, Permissions::new(true, true, false), None);
    g.insert(&r);
    g
}

fn no_types() -> Types {
    Types {
        u8: false,
        u16: false,
        u32: false,
        u64: false,
        i8: false,
        i16: false,
        i32: false,
        i64: false,
        float32: false,
        float64: false,
    }
}

fn filters(eq: &[&str], ge: &[&str], le: &[&str]) -> Filters {
    let v = |s: &[&str]| s.iter().map(|x| x.to_string()).collect::<Vec<String>>();
    Filters { eq: v(eq), ne: vec![], gt: vec![], ge: v(ge), lt: vec![], le: v(le) }
}

fn addrs(scan: &Scan) -> Vec<usize> {
    let mut out = Vec::new();
    let mut it = scan.iter();
    while let Some(a) = it.next() {
        out.push(a);
    }
    out
}

#[test]
fn group_new_all_types_when_none_selected() {
    let g = ScanGroup::new(&no_types(), None);
    assert!(g.u8.is_some() && g.u16.is_some() && g.u32.is_some() && g.u64.is_some());
    assert!(g.i8.is_some() && g.i16.is_some() && g.i32.is_some() && g.i64.is_some());
    assert!(g.float32.is_some() && g.float64.is_some());
}

#[test]
fn group_new_strides() {
    let mut types = no_types();
    types.u16 = true;
    types.float64 = true;
    let mut g = ScanGroup::new(&types, None);
    assert!(g.u8.is_none() && g.u32.is_none());
    let r = Region::new(0x100, 0x110, Permissions::new(true, true, false), None);
    g.insert(&r);
    assert_eq!(g.u16.as_ref().unwrap().len(), 8);
    assert_eq!(g.float64.as_ref().unwrap().len(), 2);
    let mut g = ScanGroup::new(&types, Some(1));
    g.insert(&r);
    assert_eq!(g.u16.as_ref().unwrap().len(), 16);
    assert_eq!(g.float64.as_ref().unwrap().len(), 16);
}

#[test]
fn secret_find_and_refine() {
    let order = ByteOrder::native();
    let mut pool = DumpPool::new();
    let a = BASE + 0x40;
    let mem = memory_with(&[(0x40, encode(NumKind::U32, 1337, order)), (0x80, encode(NumKind::U32, 7, order))]);
    let mut g = group_u32();
    let d = snapshot(&mut pool, &mem);
    g.next(&d.view(), &filters(&["1337"], &[], &[]), order);
    let s = g.u32.as_ref().unwrap();
    assert!(addrs(s).contains(&a));
    assert_eq!(s.len(), 1);
    let before = s.len();
    let mem = memory_with(&[(0x40, encode(NumKind::U32, 1338, order))]);
    let d = snapshot(&mut pool, &mem);
    g.next(&d.view(), &filters(&["1338"], &[], &[]), order);
    let s = g.u32.as_ref().unwrap();
    assert!(addrs(s).contains(&a));
    assert!(s.len() <= before);
}

#[test]
fn range_filter_on_integers() {
    let order = ByteOrder::native();
    let mut pool = DumpPool::new();
    let mem = memory_with(&[(0x10, encode(NumKind::U32, 5, order)), (0x20, encode(NumKind::U32, 50, order))]);
    let mut g = group_u32();
    let d = snapshot(&mut pool, &mem);
    g.next(&d.view(), &filters(&[], &["3"], &["10"]), order);
    assert_eq!(addrs(g.u32.as_ref().unwrap()), vec![BASE + 0x10]);
}

#[test]
fn range_filter_on_floats() {
    let mut pool = DumpPool::new();
    let b = BASE + 0x30;
    let mem = memory_with(&[(0x30, 3.14f64.to_ne_bytes().to_vec())]);
    let mut types = no_types();
    types.float64 = true;
    let mut g = ScanGroup::new(&types, None);
    g.insert(&Region::new(BASE, BASE + 0x100, Permissions::new(true, true, false), None));
    let d = snapshot(&mut pool, &mem);
    let view = d.view();
    let read = |addr: usize| view.data(addr).and_then(|s| s.get(..8)).map(|s| f64::from_ne_bytes(s.try_into().unwrap()));
    let s = g.float64.as_mut().unwrap();
    s.retain(|addr| read(addr).is_some_and(|v| v >= 3.0));
    s.retain(|addr| read(addr).is_some_and(|v| v <= 4.0));
    assert_eq!(addrs(s), vec![b]);
}

#[test]
fn parse_failure_clears() {
    let order = ByteOrder::native();
    let mut pool = DumpPool::new();
    let mut g = group_u32();
    assert!(g.u32.as_ref().unwrap().len() > 0);
    let d = snapshot(&mut pool, &memory_with(&[]));
    g.next(&d.view(), &filters(&["notanumber"], &[], &[]), order);
    assert_eq!(g.u32.as_ref().unwrap().len(), 0);
}

#[test]
fn value_straddling_region_end_is_dropped() {
    let order = ByteOrder::native();
    let mut pool = DumpPool::new();
    let mut scan = Scan::new(1);
    scan.insert(BASE, BASE + 0x100);
    let d = snapshot(&mut pool, &memory_with(&[]));
    let view = d.view();
    scan_next_imp(&mut scan, &view, &["0".to_string()], NumKind::U32, CmpOp::Eq, order);
    assert_eq!(scan.len(), 0x100 - 3);
    assert!(!addrs(&scan).contains(&(BASE + 0xfd)));
}

#[test]
fn filters_are_a_conjunction() {
    let order = ByteOrder::native();
    let mut pool = DumpPool::new();
    let mem = memory_with(&[(0x0, vec![1]), (0x1, vec![2]), (0x2, vec![3]), (0x3, vec![200])]);
    let mut types = no_types();
    types.u8 = true;
    types.i8 = true;
    let mut g = ScanGroup::new(&types, None);
    g.insert(&Region::new(BASE, BASE + 4, Permissions::new(true, true, false), None));
    let d = snapshot(&mut pool, &mem);
    let f = Filters {
        eq: vec![],
        ne: vec!["2".to_string()],
        gt: vec!["0".to_string()],
        ge: vec![],
        lt: vec!["250".to_string()],
        le: vec![],
    };
    g.next(&d.view(), &f, order);
    assert_eq!(addrs(g.u8.as_ref().unwrap()), vec![BASE, BASE + 2, BASE + 3]);
    assert_eq!(g.i8.as_ref().unwrap().len(), 0);
}

#[test]
fn scan_helpers_forward_to_present_sets() {
    assert!(scan_new(false, 4).is_none());
    let mut s = scan_new(true, 2).unwrap();
    assert!(s.is_empty());
    let r = Region::new(BASE, BASE + 0x10, Permissions::new(true, true, false), None);
    scan_insert(Some(&mut s), &r);
    scan_insert(None, &r);
    assert_eq!(s.len(), 8);
    let order = ByteOrder::native();
    let mut pool = DumpPool::new();
    let mut mem = vec![0u8; 0x100];
    mem[4..6].copy_from_slice(&encode(NumKind::U16, 0x1234, order));
    let d = snapshot(&mut pool, &mem);
    scan_next(Some(&mut s), &d.view(), &filters(&["4660"], &[], &[]), NumKind::U16, order);
    scan_next(None, &d.view(), &filters(&["1"], &[], &[]), NumKind::U16, order);
    assert_eq!(addrs(&s), vec![BASE + 4]);
}

#[test]
fn comparisons() {
    assert!(compare_values(CmpOp::Eq, 3, 3));
    assert!(compare_values(CmpOp::Ne, 3, 4));
    assert!(compare_values(CmpOp::Gt, 4, 3));
    assert!(!compare_values(CmpOp::Gt, 3, 3));
    assert!(compare_values(CmpOp::Ge, 3, 3));
    assert!(compare_values(CmpOp::Lt, -1, 0));
    assert!(compare_values(CmpOp::Le, 0, 0));
    assert!(!compare_values(CmpOp::Le, 1, 0));
}
