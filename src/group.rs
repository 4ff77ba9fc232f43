//! Scan groups, one scan set per numeric type, and the comparison driver that
//! narrows them against a snapshot.

use crate::dump::{lookup, DumpEntryView, DumpView};
use crate::number::{decode, decoded, parse, parsed, ByteOrder, NumKind};
use crate::process::Region;
use crate::scan::{lemma_retain_decided, lemma_retain_shrinks, Scan, ScanView};
use vstd::prelude::*;
use vstd::utf8::encode_utf8;

verus! {

/// A comparison of a value read from memory with a right-hand value.
#[derive(Clone, Copy, PartialEq, Eq, Structural)]
pub enum CmpOp {
    Eq,
    Ne,
    Gt,
    Ge,
    Lt,
    Le,
}

/// Whether `a op b` holds.
pub open spec fn holds(op: CmpOp, a: int, b: int) -> bool {
    match op {
        CmpOp::Eq => a == b,
        CmpOp::Ne => a != b,
        CmpOp::Gt => a > b,
        CmpOp::Ge => a >= b,
        CmpOp::Lt => a < b,
        CmpOp::Le => a <= b,
    }
}

/// Evaluates `a op b`.
pub fn compare_values(op: CmpOp, a: i128, b: i128) -> (r: bool)
    ensures
        r == holds(op, a as int, b as int),
{
    match op {
        CmpOp::Eq => a == b,
        CmpOp::Ne => a != b,
        CmpOp::Gt => a > b,
        CmpOp::Ge => a >= b,
        CmpOp::Lt => a < b,
        CmpOp::Le => a <= b,
    }
}

/// Whether the value of type `kind` captured at `addr` satisfies `op rhs`:
/// the snapshot must hold at least the type's width of bytes from `addr` on
/// within one region.
pub open spec fn satisfies(
    entries: Seq<DumpEntryView>,
    kind: NumKind,
    order: ByteOrder,
    op: CmpOp,
    rhs: int,
    addr: int,
) -> bool {
    match lookup(entries, addr) {
        Some(s) => s.len() >= kind.spec_width() && holds(op, decoded(kind, s, order), rhs),
        None => false,
    }
}

/// The set after one filter: kept where the literal `expr` parses and the
/// comparison holds, emptied where it does not parse.
pub open spec fn filter_step(
    v: ScanView,
    entries: Seq<DumpEntryView>,
    kind: NumKind,
    order: ByteOrder,
    op: CmpOp,
    expr: Seq<char>,
) -> ScanView {
    match parsed(kind, encode_utf8(expr)) {
        Some(rhs) => v.retained(|a: int| satisfies(entries, kind, order, op, rhs, a)),
        None => v.retained(|a: int| false),
    }
}

/// The set after the filters `exprs`, one after another.
pub open spec fn filtered(
    v: ScanView,
    entries: Seq<DumpEntryView>,
    kind: NumKind,
    order: ByteOrder,
    op: CmpOp,
    exprs: Seq<Seq<char>>,
) -> ScanView
    decreases exprs.len(),
{
    if exprs.len() == 0 {
        v
    } else {
        filter_step(filtered(v, entries, kind, order, op, exprs.drop_last()), entries, kind, order, op, exprs.last())
    }
}

/// The texts of `v`, in order.
pub open spec fn texts(v: Seq<String>) -> Seq<Seq<char>> {
    v.map_values(|s: String| s@)
}

/// Applies each literal of `filter` in turn to `scan`: the addresses whose
/// captured value of type `kind` satisfies `op` against the literal stay; a
/// literal that is not a valid value of the type empties the set.
pub fn scan_next_imp(
    scan: &mut Scan,
    view: &DumpView,
    filter: &[String],
    kind: NumKind,
    op: CmpOp,
    order: ByteOrder,
)
    requires
        old(scan).wf(),
    ensures
        final(scan).wf(),
        final(scan)@ == filtered(old(scan)@, view.entries(), kind, order, op, texts(filter@)),
{
    let ghost entries = view.entries();
    let ghost exprs = texts(filter@);
    let mut j: usize = 0;
    while j < filter.len()
        invariant
            j <= filter@.len(),
            scan.wf(),
            entries == view.entries(),
            exprs == texts(filter@),
            scan@ == filtered(old(scan)@, entries, kind, order, op, exprs.take(j as int)),
        decreases filter@.len() - j,
    {
        let ghost before = scan@;
        let expr = filter[j].as_str();
        proof {
            scan.lemma_valid();
        }
        match parse(kind, expr) {
            Some(rhs) => {
                let w = kind.width();
                let pred = |addr: usize| -> (b: bool)
                    ensures
                        b == satisfies(view.entries(), kind, order, op, rhs as int, addr as int),
                    {
                        match view.data(addr) {
                            Some(buf) => {
                                if buf.len() >= w {
                                    compare_values(op, decode(kind, buf, order), rhs)
                                } else {
                                    false
                                }
                            },
                            None => false,
                        }
                    };
                scan.retain(pred);
                proof {
                    lemma_retain_decided(
                        before,
                        scan@,
                        pred,
                        |a: int| satisfies(entries, kind, order, op, rhs as int, a),
                    );
                }
            },
            None => {
                let pred = |addr: usize| -> (b: bool)
                    ensures
                        b == false,
                    { false };
                scan.retain(pred);
                proof {
                    lemma_retain_decided(before, scan@, pred, |a: int| false);
                }
            },
        }
        proof {
            assert(exprs.take(j + 1).drop_last() =~= exprs.take(j as int));
            assert(exprs[j as int] == filter@[j as int]@);
        }
        j = j + 1;
    }
    assert(exprs.take(filter@.len() as int) =~= exprs);
}

/// Literal filters of one refinement step, one list per comparison.
pub struct Filters {
    pub eq: Vec<String>,
    pub ne: Vec<String>,
    pub gt: Vec<String>,
    pub ge: Vec<String>,
    pub lt: Vec<String>,
    pub le: Vec<String>,
}

/// The set after all of `f`'s filters, in the order `==`, `≠`, `>`, `≥`, `<`, `≤`.
pub open spec fn after_filters(
    v: ScanView,
    entries: Seq<DumpEntryView>,
    kind: NumKind,
    order: ByteOrder,
    f: Filters,
) -> ScanView {
    let v1 = filtered(v, entries, kind, order, CmpOp::Eq, texts(f.eq@));
    let v2 = filtered(v1, entries, kind, order, CmpOp::Ne, texts(f.ne@));
    let v3 = filtered(v2, entries, kind, order, CmpOp::Gt, texts(f.gt@));
    let v4 = filtered(v3, entries, kind, order, CmpOp::Ge, texts(f.ge@));
    let v5 = filtered(v4, entries, kind, order, CmpOp::Lt, texts(f.lt@));
    filtered(v5, entries, kind, order, CmpOp::Le, texts(f.le@))
}

/// Refining with a list of literals never adds an address.
pub proof fn lemma_filtered_shrinks(
    v: ScanView,
    entries: Seq<DumpEntryView>,
    kind: NumKind,
    order: ByteOrder,
    op: CmpOp,
    exprs: Seq<Seq<char>>,
)
    ensures
        filtered(v, entries, kind, order, op, exprs).count() <= v.count(),
    decreases exprs.len(),
{
    if exprs.len() > 0 {
        let w = filtered(v, entries, kind, order, op, exprs.drop_last());
        lemma_filtered_shrinks(v, entries, kind, order, op, exprs.drop_last());
        match parsed(kind, encode_utf8(exprs.last())) {
            Some(rhs) => lemma_retain_shrinks(w, |a: int| satisfies(entries, kind, order, op, rhs, a)),
            None => lemma_retain_shrinks(w, |a: int| false),
        }
    }
}

/// A refinement step with all of `f`'s filters never adds an address.
pub proof fn lemma_after_filters_shrinks(
    v: ScanView,
    entries: Seq<DumpEntryView>,
    kind: NumKind,
    order: ByteOrder,
    f: Filters,
)
    ensures
        after_filters(v, entries, kind, order, f).count() <= v.count(),
{
    let v1 = filtered(v, entries, kind, order, CmpOp::Eq, texts(f.eq@));
    let v2 = filtered(v1, entries, kind, order, CmpOp::Ne, texts(f.ne@));
    let v3 = filtered(v2, entries, kind, order, CmpOp::Gt, texts(f.gt@));
    let v4 = filtered(v3, entries, kind, order, CmpOp::Ge, texts(f.ge@));
    let v5 = filtered(v4, entries, kind, order, CmpOp::Lt, texts(f.lt@));
    lemma_filtered_shrinks(v, entries, kind, order, CmpOp::Eq, texts(f.eq@));
    lemma_filtered_shrinks(v1, entries, kind, order, CmpOp::Ne, texts(f.ne@));
    lemma_filtered_shrinks(v2, entries, kind, order, CmpOp::Gt, texts(f.gt@));
    lemma_filtered_shrinks(v3, entries, kind, order, CmpOp::Ge, texts(f.ge@));
    lemma_filtered_shrinks(v4, entries, kind, order, CmpOp::Lt, texts(f.lt@));
    lemma_filtered_shrinks(v5, entries, kind, order, CmpOp::Le, texts(f.le@));
}

/// Whether a scan slot that may be absent holds a well-formed set.
pub open spec fn slot_wf(s: Option<Scan>) -> bool {
    s matches Some(x) ==> x.wf()
}

/// Whether a range starting at `start` may follow the ranges of the slot.
pub open spec fn slot_room(s: Option<Scan>, start: int) -> bool {
    s matches Some(x) ==> (x@.ranges.len() > 0 ==> x@.ranges.last().end <= start)
}

/// The slot `new` is `old` with `[start, end)` appended, if present.
pub open spec fn slot_inserted(old: Option<Scan>, new: Option<Scan>, start: int, end: int) -> bool {
    match old {
        Some(o) => new matches Some(n) && n.wf() && n@ == o@.inserted(start, end),
        None => new is None,
    }
}

/// The slot `new` is `old` after the filters `f` for type `kind`, if present.
pub open spec fn slot_filtered(
    old: Option<Scan>,
    new: Option<Scan>,
    entries: Seq<DumpEntryView>,
    kind: NumKind,
    order: ByteOrder,
    f: Filters,
) -> bool {
    match old {
        Some(o) => new matches Some(n) && n.wf() && n@ == after_filters(o@, entries, kind, order, f),
        None => new is None,
    }
}

/// The slot is present exactly when `present`, and then empty with stride `align`.
pub open spec fn slot_fresh(s: Option<Scan>, present: bool, align: nat) -> bool {
    if present {
        s matches Some(x) && x.wf() && x@ == ScanView::empty(align)
    } else {
        s is None
    }
}

/// A new empty scan set with stride `align` when `flag` is set.
pub fn scan_new(flag: bool, align: usize) -> (r: Option<Scan>)
    requires
        align >= 1,
    ensures
        slot_fresh(r, flag, align as nat),
{
    if flag {
        Some(Scan::new(align))
    } else {
        None
    }
}

/// Appends `region`'s range to the set in `scan`, if there is one.
pub fn scan_insert(scan: Option<&mut Scan>, region: &Region)
    requires
        scan matches Some(s) ==> s.wf() && (s@.ranges.len() > 0 ==> s@.ranges.last().end <= region@.start),
    ensures
        scan matches Some(s) ==> final(s).wf() && final(s)@ == s@.inserted(region@.start as int, region@.end as int),
{
    if let Some(s) = scan {
        let start = region.start();
        let end = region.end();
        s.insert(start, end);
    }
}

/// Applies all of `filters` to the set in `scan`, if there is one, reading
/// values of type `kind`.
pub fn scan_next(
    scan: Option<&mut Scan>,
    view: &DumpView,
    filters: &Filters,
    kind: NumKind,
    order: ByteOrder,
)
    requires
        scan matches Some(s) ==> s.wf(),
    ensures
        scan matches Some(s) ==> final(s).wf() && final(s)@ == after_filters(
            s@,
            view.entries(),
            kind,
            order,
            *filters,
        ),
{
    if let Some(s) = scan {
        scan_next_imp(s, view, filters.eq.as_slice(), kind, CmpOp::Eq, order);
        scan_next_imp(s, view, filters.ne.as_slice(), kind, CmpOp::Ne, order);
        scan_next_imp(s, view, filters.gt.as_slice(), kind, CmpOp::Gt, order);
        scan_next_imp(s, view, filters.ge.as_slice(), kind, CmpOp::Ge, order);
        scan_next_imp(s, view, filters.lt.as_slice(), kind, CmpOp::Lt, order);
        scan_next_imp(s, view, filters.le.as_slice(), kind, CmpOp::Le, order);
    }
}

/// Which numeric types a scan group covers; none set means all of them.
pub struct Types {
    pub u8: bool,
    pub u16: bool,
    pub u32: bool,
    pub u64: bool,
    pub i8: bool,
    pub i16: bool,
    pub i32: bool,
    pub i64: bool,
    pub float32: bool,
    pub float64: bool,
}

impl Types {
    /// Whether no type is selected.
    pub open spec fn none(self) -> bool {
        !self.u8 && !self.u16 && !self.u32 && !self.u64 && !self.i8 && !self.i16 && !self.i32 && !self.i64 && !self.float32 && !self.float64
    }
}

/// The stride of a type of width `width` under an optional group-wide stride.
pub open spec fn stride(align: Option<usize>, width: nat) -> nat {
    match align {
        Some(a) => a as nat,
        None => width,
    }
}

fn align_or(align: Option<usize>, width: usize) -> (r: usize)
    ensures
        r == stride(align, width as nat),
{
    match align {
        Some(a) => a,
        None => width,
    }
}

/// One optional scan set per numeric type, all over the same regions.
pub struct ScanGroup {
    pub u8: Option<Scan>,
    pub u16: Option<Scan>,
    pub u32: Option<Scan>,
    pub u64: Option<Scan>,
    pub i8: Option<Scan>,
    pub i16: Option<Scan>,
    pub i32: Option<Scan>,
    pub i64: Option<Scan>,
    pub float32: Option<Scan>,
    pub float64: Option<Scan>,
}

impl ScanGroup {
    /// Well-formedness: every present set is well formed.
    pub open spec fn wf(&self) -> bool {
        &&& slot_wf(self.u8)
        &&& slot_wf(self.u16)
        &&& slot_wf(self.u32)
        &&& slot_wf(self.u64)
        &&& slot_wf(self.i8)
        &&& slot_wf(self.i16)
        &&& slot_wf(self.i32)
        &&& slot_wf(self.i64)
        &&& slot_wf(self.float32)
        &&& slot_wf(self.float64)
    }

    /// Whether a region starting at `start` may follow every present set's ranges.
    pub open spec fn room(&self, start: int) -> bool {
        &&& slot_room(self.u8, start)
        &&& slot_room(self.u16, start)
        &&& slot_room(self.u32, start)
        &&& slot_room(self.u64, start)
        &&& slot_room(self.i8, start)
        &&& slot_room(self.i16, start)
        &&& slot_room(self.i32, start)
        &&& slot_room(self.i64, start)
        &&& slot_room(self.float32, start)
        &&& slot_room(self.float64, start)
    }

    /// Empty sets for the selected types (all types when none is selected),
    /// each with stride `align`, or its type's width when `align` is absent.
    pub fn new(types: &Types, align: Option<usize>) -> (r: ScanGroup)
        requires
            align matches Some(a) ==> a >= 1,
        ensures
            r.wf(),
            slot_fresh(r.u8, types.u8 || types.none(), stride(align, 1)),
            slot_fresh(r.u16, types.u16 || types.none(), stride(align, 2)),
            slot_fresh(r.u32, types.u32 || types.none(), stride(align, 4)),
            slot_fresh(r.u64, types.u64 || types.none(), stride(align, 8)),
            slot_fresh(r.i8, types.i8 || types.none(), stride(align, 1)),
            slot_fresh(r.i16, types.i16 || types.none(), stride(align, 2)),
            slot_fresh(r.i32, types.i32 || types.none(), stride(align, 4)),
            slot_fresh(r.i64, types.i64 || types.none(), stride(align, 8)),
            slot_fresh(r.float32, types.float32 || types.none(), stride(align, 4)),
            slot_fresh(r.float64, types.float64 || types.none(), stride(align, 8)),
    {
        let all = !types.u8
            && !types.u16
            && !types.u32
            && !types.u64
            && !types.i8
            && !types.i16
            && !types.i32
            && !types.i64
            && !types.float32
            && !types.float64;
        ScanGroup {
            u8: scan_new(types.u8 || all, align_or(align, 1)),
            u16: scan_new(types.u16 || all, align_or(align, 2)),
            u32: scan_new(types.u32 || all, align_or(align, 4)),
            u64: scan_new(types.u64 || all, align_or(align, 8)),
            i8: scan_new(types.i8 || all, align_or(align, 1)),
            i16: scan_new(types.i16 || all, align_or(align, 2)),
            i32: scan_new(types.i32 || all, align_or(align, 4)),
            i64: scan_new(types.i64 || all, align_or(align, 8)),
            float32: scan_new(types.float32 || all, align_or(align, 4)),
            float64: scan_new(types.float64 || all, align_or(align, 8)),
        }
    }

    /// Appends `region`'s range to every present set.
    pub fn insert(&mut self, region: &Region)
        requires
            old(self).wf(),
            old(self).room(region@.start as int),
        ensures
            final(self).wf(),
            slot_inserted(old(self).u8, final(self).u8, region@.start as int, region@.end as int),
            slot_inserted(old(self).u16, final(self).u16, region@.start as int, region@.end as int),
            slot_inserted(old(self).u32, final(self).u32, region@.start as int, region@.end as int),
            slot_inserted(old(self).u64, final(self).u64, region@.start as int, region@.end as int),
            slot_inserted(old(self).i8, final(self).i8, region@.start as int, region@.end as int),
            slot_inserted(old(self).i16, final(self).i16, region@.start as int, region@.end as int),
            slot_inserted(old(self).i32, final(self).i32, region@.start as int, region@.end as int),
            slot_inserted(old(self).i64, final(self).i64, region@.start as int, region@.end as int),
            slot_inserted(old(self).float32, final(self).float32, region@.start as int, region@.end as int),
            slot_inserted(old(self).float64, final(self).float64, region@.start as int, region@.end as int),
    {
        scan_insert(self.u8.as_mut(), region);
        scan_insert(self.u16.as_mut(), region);
        scan_insert(self.u32.as_mut(), region);
        scan_insert(self.u64.as_mut(), region);
        scan_insert(self.i8.as_mut(), region);
        scan_insert(self.i16.as_mut(), region);
        scan_insert(self.i32.as_mut(), region);
        scan_insert(self.i64.as_mut(), region);
        scan_insert(self.float32.as_mut(), region);
        scan_insert(self.float64.as_mut(), region);
    }

    /// Refines every present integer set with `filters` against `view`,
    /// reading values in byte order `order`. The floating-point sets are left
    /// as they are.
    pub fn next(&mut self, view: &DumpView, filters: &Filters, order: ByteOrder)
        requires
            old(self).wf(),
        ensures
            final(self).wf(),
            slot_filtered(old(self).u8, final(self).u8, view.entries(), NumKind::U8, order, *filters),
            slot_filtered(old(self).u16, final(self).u16, view.entries(), NumKind::U16, order, *filters),
            slot_filtered(old(self).u32, final(self).u32, view.entries(), NumKind::U32, order, *filters),
            slot_filtered(old(self).u64, final(self).u64, view.entries(), NumKind::U64, order, *filters),
            slot_filtered(old(self).i8, final(self).i8, view.entries(), NumKind::I8, order, *filters),
            slot_filtered(old(self).i16, final(self).i16, view.entries(), NumKind::I16, order, *filters),
            slot_filtered(old(self).i32, final(self).i32, view.entries(), NumKind::I32, order, *filters),
            slot_filtered(old(self).i64, final(self).i64, view.entries(), NumKind::I64, order, *filters),
            final(self).float32 == old(self).float32,
            final(self).float64 == old(self).float64,
    {
        scan_next(self.u8.as_mut(), view, filters, NumKind::U8, order);
        scan_next(self.u16.as_mut(), view, filters, NumKind::U16, order);
        scan_next(self.u32.as_mut(), view, filters, NumKind::U32, order);
        scan_next(self.u64.as_mut(), view, filters, NumKind::U64, order);
        scan_next(self.i8.as_mut(), view, filters, NumKind::I8, order);
        scan_next(self.i16.as_mut(), view, filters, NumKind::I16, order);
        scan_next(self.i32.as_mut(), view, filters, NumKind::I32, order);
        scan_next(self.i64.as_mut(), view, filters, NumKind::I64, order);
    }
}

} // verus!
