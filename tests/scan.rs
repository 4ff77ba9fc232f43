use fraud_motor::scan::Scan;
use std::cell::Cell;

fn collect(scan: &Scan) -> Vec<usize> {
    let mut out = Vec::new();
    let mut it = scan.iter();
    while let Some(addr) = it.next() {
        out.push(addr);
    }
    out
}

#[test]
fn scan_new_is_empty() {
    let scan = Scan::new(4);
    assert_eq!(scan.len(), 0);
    assert!(scan.is_empty());
    assert_eq!(collect(&scan), Vec::<usize>::new());
}

#[test]
fn scan_tail_mask() {
    let mut scan = Scan::new(4);
    scan.insert(0x1000, 0x100d);
    assert_eq!(scan.len(), 4);
    assert_eq!(scan.range_count(), 1);
    assert_eq!(scan.bitmap(0), &[0x0f]);
    assert_eq!(collect(&scan), vec![0x1000, 0x1004, 0x1008, 0x100c]);
}

#[test]
fn scan_insert_counts_slots() {
    let mut scan = Scan::new(4);
    scan.insert(0x1000, 0x1010);
    scan.insert(0x2000, 0x2021);
    assert_eq!(scan.len(), 4 + 9);
    assert_eq!(scan.bitmap(0), &[0x0f]);
    assert_eq!(scan.bitmap(1), &[0xff, 0x01]);
    assert!(!scan.is_empty());
}

#[test]
fn scan_insert_exact_multiple() {
    let mut scan = Scan::new(2);
    scan.insert(0, 16);
    assert_eq!(scan.len(), 8);
    assert_eq!(scan.bitmap(0), &[0xff]);
}

#[test]
fn scan_insert_empty_range() {
    let mut scan = Scan::new(8);
    scan.insert(0x40, 0x40);
    assert_eq!(scan.len(), 0);
    assert_eq!(scan.bitmap(0), &[] as &[u8]);
    assert!(scan.is_empty());
}

#[test]
fn scan_retain_keeps_matching() {
    let mut scan = Scan::new(1);
    scan.insert(100, 120);
    scan.retain(|a| a % 5 == 0);
    assert_eq!(collect(&scan), vec![100, 105, 110, 115]);
    assert_eq!(scan.len(), 4);
}

#[test]
fn scan_retain_all_is_identity() {
    let mut scan = Scan::new(4);
    scan.insert(0x1000, 0x1030);
    scan.retain(|a| a != 0x1008);
    let before = collect(&scan);
    let len = scan.len();
    scan.retain(|_| true);
    assert_eq!(collect(&scan), before);
    assert_eq!(scan.len(), len);
}

#[test]
fn scan_retain_composes() {
    let p = |a: usize| a % 3 != 0;
    let q = |a: usize| a % 2 == 0;
    let mut a = Scan::new(1);
    a.insert(0, 50);
    a.insert(60, 75);
    a.retain(p);
    a.retain(q);
    let mut b = Scan::new(1);
    b.insert(0, 50);
    b.insert(60, 75);
    b.retain(|x| p(x) && q(x));
    assert_eq!(collect(&a), collect(&b));
    assert_eq!(a.len(), b.len());
}

#[test]
fn scan_iter_yields_len_ascending() {
    let mut scan = Scan::new(8);
    scan.insert(0x100, 0x200);
    scan.insert(0x400, 0x433);
    scan.retain(|a| (a / 8) % 3 != 1);
    let addrs = collect(&scan);
    assert_eq!(addrs.len(), scan.len());
    for w in addrs.windows(2) {
        assert!(w[0] < w[1]);
    }
}

#[test]
fn scan_retain_skips_cleared_bytes() {
    let mut scan = Scan::new(1);
    scan.insert(0, 64);
    scan.retain(|a| a >= 32);
    let calls = Cell::new(0usize);
    scan.retain(|_| {
        calls.set(calls.get() + 1);
        true
    });
    assert_eq!(calls.get(), 32);
    assert_eq!(scan.len(), 32);
}

#[test]
fn scan_replay_gives_same_addresses() {
    let build = || {
        let mut s = Scan::new(4);
        s.insert(0x1000, 0x1100);
        s.retain(|a| a % 12 == 0);
        s.insert(0x2000, 0x2040);
        s.retain(|a| a % 16 != 0);
        s
    };
    let a = build();
    let b = build();
    assert_eq!(collect(&a), collect(&b));
    assert_eq!(a.len(), b.len());
}
