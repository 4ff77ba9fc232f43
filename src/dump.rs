//! Snapshots of a process's memory whose equal region contents share storage.

use crate::error::ErrorKind;
use crate::process::{Region, RegionView};
use std::sync::{Arc, Weak};
use vstd::prelude::*;

verus! {

/// Lexicographic order on byte strings: the first differing byte decides, and
/// a proper prefix comes first.
pub open spec fn lex_lt(a: Seq<u8>, b: Seq<u8>) -> bool
    decreases a.len(),
{
    if a.len() == 0 {
        b.len() > 0
    } else if b.len() == 0 {
        false
    } else if a[0] != b[0] {
        a[0] < b[0]
    } else {
        lex_lt(a.drop_first(), b.drop_first())
    }
}

/// Whether `s` is in strictly ascending lexicographic order.
pub open spec fn strictly_sorted(s: Seq<Seq<u8>>) -> bool {
    forall|i: int, j: int| 0 <= i < j < s.len() ==> lex_lt(#[trigger] s[i], #[trigger] s[j])
}

proof fn lemma_lex_trichotomy(a: Seq<u8>, b: Seq<u8>)
    ensures
        lex_lt(a, b) || a == b || lex_lt(b, a),
        !(lex_lt(a, b) && lex_lt(b, a)),
    decreases a.len(),
{
    if a.len() > 0 && b.len() > 0 {
        lemma_lex_trichotomy(a.drop_first(), b.drop_first());
        if a[0] == b[0] && a.drop_first() == b.drop_first() {
            assert(a =~= seq![a[0]] + a.drop_first());
            assert(b =~= seq![b[0]] + b.drop_first());
        }
    } else if a.len() == 0 && b.len() == 0 {
        assert(a =~= b);
    }
}

proof fn lemma_lex_trans(a: Seq<u8>, b: Seq<u8>, c: Seq<u8>)
    requires
        lex_lt(a, b),
        lex_lt(b, c),
    ensures
        lex_lt(a, c),
    decreases a.len(),
{
    if a.len() > 0 && b.len() > 0 && c.len() > 0 && a[0] == b[0] && b[0] == c[0] {
        lemma_lex_trans(a.drop_first(), b.drop_first(), c.drop_first());
    }
}

proof fn lemma_lex_skip(a: Seq<u8>, b: Seq<u8>, i: int)
    requires
        0 <= i <= a.len(),
        i <= b.len(),
        a.subrange(0, i) == b.subrange(0, i),
    ensures
        lex_lt(a, b) == lex_lt(a.subrange(i, a.len() as int), b.subrange(i, b.len() as int)),
    decreases i,
{
    if i > 0 {
        assert(a[0] == a.subrange(0, i)[0]);
        assert(b[0] == b.subrange(0, i)[0]);
        assert(a.drop_first().subrange(0, i - 1) =~= a.subrange(0, i).drop_first());
        assert(b.drop_first().subrange(0, i - 1) =~= b.subrange(0, i).drop_first());
        lemma_lex_skip(a.drop_first(), b.drop_first(), i - 1);
        assert(a.drop_first().subrange(i - 1, a.len() - 1) =~= a.subrange(i, a.len() as int));
        assert(b.drop_first().subrange(i - 1, b.len() - 1) =~= b.subrange(i, b.len() as int));
    } else {
        assert(a.subrange(0, a.len() as int) =~= a);
        assert(b.subrange(0, b.len() as int) =~= b);
    }
}

/// Compares two byte strings lexicographically: negative, zero or positive as
/// `a` comes before, equals or comes after `b`.
fn compare(a: &[u8], b: &[u8]) -> (r: i8)
    ensures
        r < 0 <==> lex_lt(a@, b@),
        r == 0 <==> a@ == b@,
        r > 0 <==> lex_lt(b@, a@),
{
    proof {
        lemma_lex_trichotomy(a@, b@);
    }
    let mut i: usize = 0;
    while i < a.len() && i < b.len()
        invariant
            i <= a@.len(),
            i <= b@.len(),
            a@.subrange(0, i as int) == b@.subrange(0, i as int),
        decreases a@.len() - i,
    {
        if a[i] != b[i] {
            proof {
                lemma_lex_skip(a@, b@, i as int);
                lemma_lex_skip(b@, a@, i as int);
            }
            return if a[i] < b[i] {
                -1
            } else {
                1
            };
        }
        assert(a@.subrange(0, i + 1) =~= a@.subrange(0, i as int).push(a@[i as int]));
        assert(b@.subrange(0, i + 1) =~= b@.subrange(0, i as int).push(b@[i as int]));
        i = i + 1;
    }
    proof {
        lemma_lex_skip(a@, b@, i as int);
        lemma_lex_skip(b@, a@, i as int);
        if i == a.len() && i == b.len() {
            assert(a@ =~= a@.subrange(0, i as int));
            assert(b@ =~= b@.subrange(0, i as int));
        }
    }
    if a.len() < b.len() {
        -1
    } else if a.len() == b.len() {
        0
    } else {
        1
    }
}

/// The weak references of a deduplication pool, each to a byte string that
/// some snapshot may still hold.
#[verifier::external_body]
pub struct WeakEntries {
    entries: Vec<Weak<Vec<u8>>>,
}

/// The byte strings that the entries were made from, in order.
pub uninterp spec fn entry_contents(e: WeakEntries) -> Seq<Seq<u8>>;

impl WeakEntries {
    /// Relies on `Vec::new`: no entries.
    #[verifier::external_body]
    fn new() -> (r: WeakEntries)
        ensures
            entry_contents(r) == Seq::<Seq<u8>>::empty(),
    {
        WeakEntries { entries: Vec::new() }
    }

    /// Relies on `Vec::len` of the entries.
    #[verifier::external_body]
    fn len(&self) -> (r: usize)
        ensures
            r == entry_contents(*self).len(),
    {
        self.entries.len()
    }

    /// Relies on `Weak::upgrade`: a strong reference to the same allocation
    /// while some strong reference still keeps it, else `None`. An allocation
    /// shared through `Arc` is never changed while a weak reference to it
    /// exists, so its contents are those it was made from.
    #[verifier::external_body]
    fn upgrade(&self, i: usize) -> (r: Option<Arc<Vec<u8>>>)
        requires
            i < entry_contents(*self).len(),
        ensures
            r matches Some(a) ==> a@ == entry_contents(*self)[i as int],
    {
        self.entries[i].upgrade()
    }

    /// Relies on `Arc::downgrade`: a weak reference to the allocation of `a`.
    #[verifier::external_body]
    fn push(&mut self, a: &Arc<Vec<u8>>)
        ensures
            entry_contents(*final(self)) == entry_contents(*old(self)).push(a@),
    {
        self.entries.push(Arc::downgrade(a))
    }
}

/// A process-wide store through which snapshots with equal contents come to
/// share one allocation. It holds only weak references, in ascending
/// lexicographic order of their contents, so a snapshot's memory goes once the
/// last snapshot holding it is dropped.
pub struct DumpPool {
    entries: WeakEntries,
}

impl DumpPool {
    /// Contents of the entries, live or not, in order.
    pub closed spec fn contents(&self) -> Seq<Seq<u8>> {
        entry_contents(self.entries)
    }

    /// Well-formedness: the entries are in strictly ascending order.
    pub open spec fn wf(&self) -> bool {
        strictly_sorted(self.contents())
    }

    /// An empty pool.
    pub fn new() -> (r: DumpPool)
        ensures
            r.wf(),
            r.contents() == Seq::<Seq<u8>>::empty(),
    {
        DumpPool { entries: WeakEntries::new() }
    }
}

/// The view of a sequence of shared byte strings.
pub open spec fn arc_views(s: Seq<Arc<Vec<u8>>>) -> Seq<Seq<u8>> {
    s.map_values(|a: Arc<Vec<u8>>| a@)
}

/// Finds `buf` in the ascending `live`: its index, or the index at which it
/// would keep the order.
fn search(live: &Vec<Arc<Vec<u8>>>, buf: &[u8]) -> (r: Result<usize, usize>)
    requires
        strictly_sorted(arc_views(live@)),
    ensures
        r matches Ok(i) ==> i < live@.len() && live@[i as int]@ == buf@,
        r matches Err(i) ==> i <= live@.len() && (forall|k: int|
            0 <= k < i ==> lex_lt(#[trigger] live@[k]@, buf@)) && (forall|k: int|
            i <= k < live@.len() ==> lex_lt(buf@, #[trigger] live@[k]@)),
{
    let mut lo: usize = 0;
    let mut hi: usize = live.len();
    while lo < hi
        invariant
            lo <= hi <= live@.len(),
            strictly_sorted(arc_views(live@)),
            forall|k: int| 0 <= k < lo ==> lex_lt(#[trigger] live@[k]@, buf@),
            forall|k: int| hi <= k < live@.len() ==> lex_lt(buf@, #[trigger] live@[k]@),
        decreases hi - lo,
    {
        let mid = lo + (hi - lo) / 2;
        let c = compare(live[mid].as_slice(), buf);
        if c == 0 {
            return Ok(mid);
        } else if c < 0 {
            proof {
                assert forall|k: int| 0 <= k <= mid implies lex_lt(#[trigger] live@[k]@, buf@) by {
                    if k < mid {
                        assert(lex_lt(arc_views(live@)[k], arc_views(live@)[mid as int]));
                        lemma_lex_trans(live@[k]@, live@[mid as int]@, buf@);
                    }
                }
            }
            lo = mid + 1;
        } else {
            proof {
                assert forall|k: int| mid <= k < live@.len() implies lex_lt(buf@, #[trigger] live@[k]@) by {
                    if k > mid {
                        assert(lex_lt(arc_views(live@)[mid as int], arc_views(live@)[k]));
                        lemma_lex_trans(buf@, live@[mid as int]@, live@[k]@);
                    }
                }
            }
            hi = mid;
        }
    }
    Err(lo)
}

/// The captured bytes of one region, shared with every other snapshot of equal
/// contents that was made through the same pool while this one lives.
pub struct RegionDump {
    data: Arc<Vec<u8>>,
}

impl View for RegionDump {
    type V = Seq<u8>;

    closed spec fn view(&self) -> Seq<u8> {
        self.data@
    }
}

impl RegionDump {
    /// Canonicalizes the freshly read `buf` through `pool`: when a live entry of
    /// the pool has the same contents, the snapshot adopts that entry's storage
    /// and `buf` is dropped; otherwise `buf` becomes a new entry at its place in
    /// the order. Entries whose snapshots are all gone are dropped.
    pub fn new(pool: &mut DumpPool, buf: Vec<u8>) -> (r: RegionDump)
        requires
            old(pool).wf(),
        ensures
            final(pool).wf(),
            r@ == buf@,
            final(pool).contents().contains(buf@),
            forall|x: Seq<u8>|
                #[trigger] final(pool).contents().contains(x) ==> x == buf@ || old(
                    pool,
                ).contents().contains(x),
    {
        let ghost old_contents = pool.contents();
        let n = pool.entries.len();
        let mut live: Vec<Arc<Vec<u8>>> = Vec::new();
        let ghost mut idx: Seq<int> = Seq::empty();
        let mut i: usize = 0;
        while i < n
            invariant
                i <= n,
                n == old_contents.len(),
                old_contents == pool.contents(),
                strictly_sorted(old_contents),
                idx.len() == live@.len(),
                forall|p: int| 0 <= p < idx.len() ==> 0 <= #[trigger] idx[p] < i,
                forall|p: int, q: int| 0 <= p < q < idx.len() ==> #[trigger] idx[p] < #[trigger] idx[q],
                forall|p: int| 0 <= p < idx.len() ==> #[trigger] live@[p]@ == old_contents[idx[p]],
            decreases n - i,
        {
            match pool.entries.upgrade(i) {
                Some(a) => {
                    live.push(a);
                    proof {
                        idx = idx.push(i as int);
                    }
                },
                None => {},
            }
            i = i + 1;
        }
        proof {
            assert forall|p: int, q: int| 0 <= p < q < live@.len() implies lex_lt(
                #[trigger] arc_views(live@)[p],
                #[trigger] arc_views(live@)[q],
            ) by {
                assert(lex_lt(old_contents[idx[p]], old_contents[idx[q]]));
            }
        }
        let pos = match search(&live, buf.as_slice()) {
            Ok(found) => found,
            Err(at) => {
                let ghost before = arc_views(live@);
                live.insert(at, Arc::new(buf));
                proof {
                    assert forall|p: int, q: int| 0 <= p < q < live@.len() implies lex_lt(
                        #[trigger] arc_views(live@)[p],
                        #[trigger] arc_views(live@)[q],
                    ) by {
                        if q < at {
                            assert(lex_lt(before[p], before[q]));
                        } else if q == at {
                        } else if p < at {
                            assert(lex_lt(before[p], before[q - 1]));
                        } else if p == at {
                        } else {
                            assert(lex_lt(before[p - 1], before[q - 1]));
                        }
                    }
                }
                at
            },
        };
        let mut entries = WeakEntries::new();
        let mut k: usize = 0;
        while k < live.len()
            invariant
                k <= live@.len(),
                entry_contents(entries) == arc_views(live@).subrange(0, k as int),
            decreases live@.len() - k,
        {
            entries.push(&live[k]);
            assert(arc_views(live@).subrange(0, k + 1) =~= arc_views(live@).subrange(0, k as int).push(
                live@[k as int]@,
            ));
            k = k + 1;
        }
        assert(arc_views(live@).subrange(0, live@.len() as int) =~= arc_views(live@));
        pool.entries = entries;
        proof {
            assert forall|x: Seq<u8>| #[trigger] pool.contents().contains(x) implies x == buf@
                || old_contents.contains(x) by {
                let p = choose|p: int| 0 <= p < pool.contents().len() && pool.contents()[p] == x;
                if x != buf@ {
                    assert(live@[p]@ == x);
                }
            }
            assert(pool.contents()[pos as int] == buf@);
        }
        let data = live.remove(pos);
        RegionDump { data }
    }

    /// The captured bytes.
    pub fn data(&self) -> (r: &[u8])
        ensures
            r@ == self@,
    {
        self.data.as_slice()
    }
}

/// One captured region as seen by specifications: the region and its bytes,
/// or why they could not be read.
pub struct DumpEntryView {
    pub region: RegionView,
    pub data: Result<Seq<u8>, ErrorKind>,
}

/// Whether `entries` are in ascending order without overlap and every
/// captured byte string is as long as its region.
pub open spec fn entries_wf(entries: Seq<DumpEntryView>) -> bool {
    &&& forall|p: int, q: int|
        0 <= p < q < entries.len() ==> (#[trigger] entries[p]).region.end
            <= (#[trigger] entries[q]).region.start
    &&& forall|p: int|
        0 <= p < entries.len() ==> (#[trigger] entries[p]).region.start <= entries[p].region.end
    &&& forall|p: int|
        0 <= p < entries.len() ==> ((#[trigger] entries[p]).data matches Ok(b) ==> b.len()
            == entries[p].region.end - entries[p].region.start)
}

/// Whether the regions that were enumerated without error come in ascending
/// order without overlap.
pub open spec fn enumeration_sorted(regions: Seq<Result<Region, ErrorKind>>) -> bool {
    forall|i: int, j: int|
        0 <= i < j < regions.len() && (#[trigger] regions[i]) is Ok && (#[trigger] regions[j]) is Ok
            ==> regions[i]->Ok_0@.end <= regions[j]->Ok_0@.start
}

/// The first enumeration error, if any.
pub open spec fn first_error(regions: Seq<Result<Region, ErrorKind>>) -> Option<ErrorKind>
    decreases regions.len(),
{
    if regions.len() == 0 {
        None
    } else {
        match regions[0] {
            Err(e) => Some(e),
            Ok(_) => first_error(regions.drop_first()),
        }
    }
}

/// Positions below `i` of the regions that were enumerated without error and
/// that the decisions `dec` select, in order.
pub open spec fn picked(regions: Seq<Result<Region, ErrorKind>>, dec: Seq<bool>, i: int) -> Seq<int>
    decreases i,
{
    if i <= 0 {
        Seq::empty()
    } else if regions[i - 1] is Ok && dec[i - 1] {
        picked(regions, dec, i - 1).push(i - 1)
    } else {
        picked(regions, dec, i - 1)
    }
}

/// What capturing `region` through `read` may record: bytes that a read
/// returned and that cover the region, an error the read returned, or an I/O
/// error for a read that returned the wrong number of bytes.
pub open spec fn read_outcome<R: Fn(&Region) -> Result<Vec<u8>, ErrorKind>>(
    read: R,
    region: Region,
    data: Result<Seq<u8>, ErrorKind>,
) -> bool {
    match data {
        Ok(b) => b.len() == region@.end - region@.start && exists|v: Vec<u8>|
            read.ensures((&region,), Ok(v)) && #[trigger] v@ == b,
        Err(e) => read.ensures((&region,), Err(e)) || (e == ErrorKind::Io && exists|v: Vec<u8>|
            read.ensures((&region,), Ok(v)) && #[trigger] v@.len() != region@.end
                - region@.start),
    }
}

proof fn lemma_picked_prefix(
    regions: Seq<Result<Region, ErrorKind>>,
    a: Seq<bool>,
    b: Seq<bool>,
    i: int,
)
    requires
        forall|k: int| 0 <= k < i ==> a[k] == b[k],
    ensures
        picked(regions, a, i) == picked(regions, b, i),
    decreases i,
{
    if i > 0 {
        lemma_picked_prefix(regions, a, b, i - 1);
    }
}

/// A snapshot of a process: the regions that a predicate selected, in
/// enumeration order, each with its captured bytes or the reason they could
/// not be read.
pub struct ProcessDump {
    regions: Vec<(Region, Result<RegionDump, ErrorKind>)>,
}

/// The view of one captured region.
pub open spec fn entry_view(e: (Region, Result<RegionDump, ErrorKind>)) -> DumpEntryView {
    DumpEntryView {
        region: e.0@,
        data: match e.1 {
            Ok(d) => Ok(d@),
            Err(k) => Err(k),
        },
    }
}

impl ProcessDump {
    /// The captured regions, in order.
    pub closed spec fn entries(&self) -> Seq<DumpEntryView> {
        self.regions@.map_values(|e: (Region, Result<RegionDump, ErrorKind>)| entry_view(e))
    }

    /// Captures the regions that `filter` accepts, in enumeration order,
    /// reading each through `read` and sharing equal contents through `pool`.
    /// A failed read is recorded for its region; an enumeration error aborts
    /// the capture with the first such error.
    pub fn new<F, R>(
        pool: &mut DumpPool,
        regions: Vec<Result<Region, ErrorKind>>,
        filter: F,
        read: R,
    ) -> (r: Result<ProcessDump, ErrorKind>) where
        F: Fn(&Region) -> bool,
        R: Fn(&Region) -> Result<Vec<u8>, ErrorKind>,

        requires
            old(pool).wf(),
            enumeration_sorted(regions@),
            forall|x: &Region| filter.requires((x,)),
            forall|x: &Region| read.requires((x,)),
        ensures
            final(pool).wf(),
            r matches Err(e) ==> first_error(regions@) == Some(e),
            r is Ok ==> first_error(regions@) is None,
            r matches Ok(d) ==> entries_wf(d.entries()) && exists|dec: Seq<bool>|
                {
                    &&& dec.len() == regions@.len()
                    &&& forall|i: int|
                        0 <= i < regions@.len() && (#[trigger] regions@[i]) is Ok ==> filter.ensures(
                            (&regions@[i]->Ok_0,),
                            dec[i],
                        )
                    &&& #[trigger] picked(regions@, dec, regions@.len() as int).len()
                        == d.entries().len()
                    &&& forall|p: int|
                        0 <= p < d.entries().len() ==> {
                            let region = regions@[picked(regions@, dec, regions@.len() as int)[p]]->Ok_0;
                            &&& (#[trigger] d.entries()[p]).region == region@
                            &&& read_outcome(read, region, d.entries()[p].data)
                        }
                },
    {
        let ghost input = regions@;
        let n = regions.len();
        let mut rest = regions;
        let mut out: Vec<(Region, Result<RegionDump, ErrorKind>)> = Vec::new();
        let ghost mut dec: Seq<bool> = Seq::new(n as nat, |i: int| false);
        let mut i: usize = 0;
        while i < n
            invariant
                i <= n,
                n == input.len(),
                input == regions@,
                dec.len() == n,
                rest@ == input.subrange(i as int, n as int),
                pool.wf(),
                enumeration_sorted(input),
                forall|x: &Region| filter.requires((x,)),
                forall|x: &Region| read.requires((x,)),
                first_error(input) == first_error(rest@),
                forall|k: int| 0 <= k < i ==> (#[trigger] input[k]) is Ok,
                forall|k: int|
                    0 <= k < i && (#[trigger] input[k]) is Ok ==> filter.ensures(
                        (&input[k]->Ok_0,),
                        dec[k],
                    ),
                picked(input, dec, i as int).len() == out@.len(),
                forall|p: int| 0 <= p < out@.len() ==> 0 <= #[trigger] picked(input, dec, i as int)[p] < i,
                forall|p: int|
                    0 <= p < out@.len() ==> {
                        let region = input[picked(input, dec, i as int)[p]]->Ok_0;
                        &&& (#[trigger] out@[p]).0 == region
                        &&& read_outcome(read, region, entry_view(out@[p]).data)
                    },
                entries_wf(out@.map_values(|e: (Region, Result<RegionDump, ErrorKind>)| entry_view(e))),
            decreases n - i,
        {
            let ghost before = rest@;
            let item = rest.remove(0);
            proof {
                assert(rest@ == input.subrange(i + 1, n as int));
                assert(before.drop_first() =~= rest@);
            }
            match item {
                Err(e) => {
                    assert(before[0] == Err::<Region, ErrorKind>(e));
                    assert(first_error(before) == Some(e));
                    assert(first_error(input) == Some(e));
                    return Err(e);
                },
                Ok(region) => {
                    let keep = filter(&region);
                    let ghost old_dec = dec;
                    let ghost old_out = out@;
                    proof {
                        dec = dec.update(i as int, keep);
                        lemma_picked_prefix(input, old_dec, dec, i as int);
                        assert(input[i as int] == Ok::<Region, ErrorKind>(region));
                    }
                    if keep {
                        let start = region.start();
                        let end = region.end();
                        let data = match read(&region) {
                            Ok(buf) => {
                                if buf.len() == end - start {
                                    Ok(RegionDump::new(pool, buf))
                                } else {
                                    Err(ErrorKind::Io)
                                }
                            },
                            Err(e) => Err(e),
                        };
                        out.push((region, data));
                        proof {
                            assert(picked(input, dec, i + 1) == picked(input, dec, i as int).push(i as int));
                            let views = out@.map_values(|e: (Region, Result<RegionDump, ErrorKind>)| entry_view(e));
                            let old_views = old_out.map_values(|e: (Region, Result<RegionDump, ErrorKind>)| entry_view(e));
                            assert forall|p: int| 0 <= p < old_out.len() implies #[trigger] views[p] == old_views[p] by {}
                            assert forall|p: int, q: int| 0 <= p < q < views.len() implies (#[trigger] views[p]).region.end
                                <= (#[trigger] views[q]).region.start by {
                                if q == old_out.len() {
                                    let k = picked(input, dec, i as int)[p];
                                    assert(input[k] is Ok);
                                    assert(input[i as int] is Ok);
                                } else {
                                    assert(old_views[p].region.end <= old_views[q].region.start);
                                }
                            }
                        }
                    } else {
                        proof {
                            assert(picked(input, dec, i + 1) == picked(input, dec, i as int));
                        }
                    }
                },
            }
            i = i + 1;
        }
        Ok(ProcessDump { regions: out })
    }

    /// The captured regions with their bytes or read errors, in order.
    pub fn regions(&self) -> (r: &[(Region, Result<RegionDump, ErrorKind>)])
        ensures
            r@.map_values(|e: (Region, Result<RegionDump, ErrorKind>)| entry_view(e)) == self.entries(),
            entries_wf(self.entries()),
    {
        proof {
            use_type_invariant(self);
        }
        self.regions.as_slice()
    }

    /// Every snapshot's entries are in ascending order without overlap, and
    /// each captured byte string is as long as its region.
    #[verifier::type_invariant]
    spec fn sorted(&self) -> bool {
        entries_wf(self.entries())
    }

    /// A lookup from addresses to captured bytes.
    pub fn view(&self) -> (r: DumpView<'_>)
        ensures
            r.entries() == self.entries(),
    {
        DumpView { dump: self }
    }
}

/// Whether entry `i` covers `addr` and holds captured bytes.
pub open spec fn hit(entries: Seq<DumpEntryView>, i: int, addr: int) -> bool {
    &&& 0 <= i < entries.len()
    &&& entries[i].region.start <= addr < entries[i].region.end
    &&& entries[i].data is Ok
}

/// The bytes captured from `addr` to the end of the entry that holds it.
pub open spec fn suffix_at(entries: Seq<DumpEntryView>, i: int, addr: int) -> Seq<u8> {
    let b = entries[i].data->Ok_0;
    b.subrange(addr - entries[i].region.start, b.len() as int)
}

/// The captured bytes from `addr` on within its region, if a region with
/// captured bytes covers `addr`.
pub open spec fn lookup(entries: Seq<DumpEntryView>, addr: int) -> Option<Seq<u8>> {
    if exists|i: int| hit(entries, i, addr) {
        Some(suffix_at(entries, choose|i: int| hit(entries, i, addr), addr))
    } else {
        None
    }
}

proof fn lemma_hit_unique(entries: Seq<DumpEntryView>, i: int, j: int, addr: int)
    requires
        entries_wf(entries),
        hit(entries, i, addr),
        hit(entries, j, addr),
    ensures
        i == j,
{
    if i < j {
        assert(entries[i].region.end <= entries[j].region.start);
    } else if j < i {
        assert(entries[j].region.end <= entries[i].region.start);
    }
}

/// A lookup from absolute addresses into a process snapshot.
pub struct DumpView<'a> {
    dump: &'a ProcessDump,
}

impl<'a> DumpView<'a> {
    /// The captured regions, in order.
    pub closed spec fn entries(&self) -> Seq<DumpEntryView> {
        self.dump.entries()
    }

    /// The captured bytes from `addr` to the end of the region that holds it;
    /// `None` when no region covers `addr` or its bytes could not be read.
    pub fn data(&self, addr: usize) -> (r: Option<&[u8]>)
        ensures
            r matches Some(s) ==> lookup(self.entries(), addr as int) == Some(s@),
            r is None ==> lookup(self.entries(), addr as int) is None,
    {
        proof {
            use_type_invariant(self.dump);
        }
        let regions = &self.dump.regions;
        let ghost e = self.entries();
        let n = regions.len();
        let mut lo: usize = 0;
        let mut hi: usize = n;
        while lo < hi
            invariant
                lo <= hi <= n,
                n == regions@.len(),
                e == self.entries(),
                e == regions@.map_values(|x: (Region, Result<RegionDump, ErrorKind>)| entry_view(x)),
                entries_wf(e),
                forall|k: int| 0 <= k < lo ==> (#[trigger] e[k]).region.start <= addr,
                forall|k: int| hi <= k < n ==> (#[trigger] e[k]).region.start > addr,
            decreases hi - lo,
        {
            let mid = lo + (hi - lo) / 2;
            let start = regions[mid].0.start();
            if start <= addr {
                proof {
                    assert forall|k: int| 0 <= k <= mid implies (#[trigger] e[k]).region.start <= addr by {
                        if k < mid {
                            assert(e[k].region.end <= e[mid as int].region.start);
                        }
                    }
                }
                lo = mid + 1;
            } else {
                proof {
                    assert forall|k: int| mid <= k < n implies (#[trigger] e[k]).region.start > addr by {
                        if k > mid {
                            assert(e[mid as int].region.end <= e[k].region.start);
                        }
                    }
                }
                hi = mid;
            }
        }
        if lo == 0 {
            assert forall|i: int| !#[trigger] hit(e, i, addr as int) by {
                if 0 <= i < n {
                    assert(e[i].region.start > addr);
                }
            }
            return None;
        }
        let c = lo - 1;
        let entry = &regions[c];
        let end = entry.0.end();
        let start = entry.0.start();
        proof {
            assert forall|i: int| 0 <= i < n && i != c implies !#[trigger] hit(e, i, addr as int) by {
                if i < c {
                    assert(e[i].region.end <= e[c as int].region.start);
                } else {
                    assert(e[i].region.start > addr);
                }
            }
        }
        if addr >= end {
            return None;
        }
        match &entry.1 {
            Ok(d) => {
                let bytes = d.data();
                assert(e[c as int].data == Ok::<Seq<u8>, ErrorKind>(bytes@));
                let s = &bytes[addr - start..bytes.len()];
                assert(hit(e, c as int, addr as int));
                proof {
                    let j = choose|j: int| hit(e, j, addr as int);
                    lemma_hit_unique(e, j, c as int, addr as int);
                }
                Some(s)
            },
            Err(_) => None,
        }
    }
}

} // verus!
