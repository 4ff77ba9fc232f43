//! Bitmap-backed sets of aligned candidate addresses.

use vstd::prelude::*;

verus! {

/// Whether bit `j` (0 = lowest) of `byte` is set.
pub open spec fn bit_of(byte: u8, j: u8) -> bool {
    (byte >> j) & 1u8 == 1u8
}

/// Number of aligned slots in `[start, end)` with stride `align`: `⌈(end − start) / align⌉`.
pub open spec fn slot_count(start: int, end: int, align: int) -> int {
    (end - start) / align + if (end - start) % align == 0 { 0int } else { 1int }
}

/// Number of bytes that hold `size` bits.
pub open spec fn byte_count(size: int) -> int {
    size / 8 + if size % 8 == 0 { 0int } else { 1int }
}

/// Number of `true` entries.
pub open spec fn count_true(s: Seq<bool>) -> nat
    decreases s.len(),
{
    if s.len() == 0 {
        0
    } else {
        count_true(s.drop_last()) + if s.last() { 1nat } else { 0nat }
    }
}

/// What `retain` with `f` guarantees of the set `new` that it makes from `old`:
/// the same ranges, where a slot stays live only if it was live and `f`
/// accepted its address, and a live slot is dropped only if `f` rejected it.
pub open spec fn retain_outcome<F: Fn(usize) -> bool>(old: ScanView, new: ScanView, f: F) -> bool {
    &&& new.align == old.align
    &&& new.ranges.len() == old.ranges.len()
    &&& forall|i: int|
        0 <= i < old.ranges.len() ==> {
            &&& (#[trigger] new.ranges[i]).base == old.ranges[i].base
            &&& new.ranges[i].end == old.ranges[i].end
            &&& new.ranges[i].live.len() == old.ranges[i].live.len()
        }
    &&& forall|i: int, k: int|
        0 <= i < old.ranges.len() && 0 <= k < old.ranges[i].live.len() ==> {
            &&& #[trigger] new.ranges[i].live[k] ==> old.ranges[i].live[k] && f.ensures(
                (old.slot_addr(i, k) as usize,),
                true,
            )
            &&& old.ranges[i].live[k] && !new.ranges[i].live[k] ==> f.ensures(
                (old.slot_addr(i, k) as usize,),
                false,
            )
        }
}

/// Every slot address of a valid set lies inside its range.
pub proof fn lemma_slot_addr_bounds(v: ScanView, i: int, k: int)
    requires
        v.valid(),
        0 <= i < v.ranges.len(),
        0 <= k < v.ranges[i].live.len(),
    ensures
        v.ranges[i].base <= v.slot_addr(i, k) < v.ranges[i].end <= usize::MAX,
{
    let r = v.ranges[i];
    lemma_slot_count(r.end - r.base, v.align as int);
    vstd::arithmetic::mul::lemma_mul_inequality(k, r.live.len() - 1, v.align as int);
    assert(k * v.align >= 0) by (nonlinear_arith)
        requires
            k >= 0,
            v.align >= 1,
    ;
}

/// When `f` answers like the predicate `p` on every address, `retain(f)`
/// leaves exactly the live addresses that satisfy `p`.
pub proof fn lemma_retain_decided<F: Fn(usize) -> bool>(
    old: ScanView,
    new: ScanView,
    f: F,
    p: spec_fn(int) -> bool,
)
    requires
        old.valid(),
        retain_outcome(old, new, f),
        forall|a: usize, r: bool| f.ensures((a,), r) ==> r == p(a as int),
    ensures
        new == old.retained(p),
{
    let w = old.retained(p);
    assert forall|i: int| 0 <= i < old.ranges.len() implies #[trigger] new.ranges[i] == w.ranges[i] by {
        assert forall|k: int| 0 <= k < old.ranges[i].live.len() implies #[trigger] new.ranges[i].live[k]
            == w.ranges[i].live[k] by {
            lemma_slot_addr_bounds(old, i, k);
            let a = old.slot_addr(i, k) as usize;
            assert(a as int == old.slot_addr(i, k));
        }
        assert(new.ranges[i].live =~= w.ranges[i].live);
    }
    assert(new.ranges =~= w.ranges);
}

proof fn lemma_count_sub(s: Seq<bool>, t: Seq<bool>)
    requires
        s.len() == t.len(),
        forall|k: int| 0 <= k < t.len() && #[trigger] t[k] ==> s[k],
    ensures
        count_true(t) <= count_true(s),
    decreases s.len(),
{
    if s.len() > 0 {
        lemma_count_sub(s.drop_last(), t.drop_last());
    }
}

proof fn lemma_total_sub(a: Seq<RangeView>, b: Seq<RangeView>)
    requires
        a.len() == b.len(),
        forall|i: int| 0 <= i < a.len() ==> count_true((#[trigger] b[i]).live) <= count_true(a[i].live),
    ensures
        total_live(b) <= total_live(a),
    decreases a.len(),
{
    if a.len() > 0 {
        lemma_total_sub(a.drop_last(), b.drop_last());
    }
}

/// Filtering never adds an address: the count after `retained(p)` is at most
/// the count before.
pub proof fn lemma_retain_shrinks(v: ScanView, p: spec_fn(int) -> bool)
    ensures
        v.retained(p).count() <= v.count(),
{
    let w = v.retained(p);
    assert forall|i: int| 0 <= i < v.ranges.len() implies count_true((#[trigger] w.ranges[i]).live)
        <= count_true(v.ranges[i].live) by {
        lemma_count_sub(v.ranges[i].live, w.ranges[i].live);
    }
    lemma_total_sub(v.ranges, w.ranges);
}

/// Filtering with a predicate that holds everywhere changes nothing.
pub proof fn lemma_retain_all(v: ScanView)
    ensures
        v.retained(|a: int| true) == v,
{
    let w = v.retained(|a: int| true);
    assert forall|i: int| 0 <= i < v.ranges.len() implies #[trigger] w.ranges[i] == v.ranges[i] by {
        assert(w.ranges[i].live =~= v.ranges[i].live);
    }
    assert(w.ranges =~= v.ranges);
}

/// Filtering with `p` and then with `q` is filtering once with `p ∧ q`.
pub proof fn lemma_retain_compose(v: ScanView, p: spec_fn(int) -> bool, q: spec_fn(int) -> bool)
    ensures
        v.retained(p).retained(q) == v.retained(|a: int| p(a) && q(a)),
{
    let w1 = v.retained(p).retained(q);
    let w2 = v.retained(|a: int| p(a) && q(a));
    assert forall|i: int| 0 <= i < v.ranges.len() implies #[trigger] w1.ranges[i] == w2.ranges[i] by {
        assert(w1.ranges[i].live =~= w2.ranges[i].live);
    }
    assert(w1.ranges =~= w2.ranges);
}

/// Live addresses of range `i` from slot `k` on, in ascending order.
pub open spec fn range_addrs_from(v: ScanView, i: int, k: int) -> Seq<int>
    decreases v.ranges[i].live.len() - k,
{
    if k < 0 || k >= v.ranges[i].live.len() {
        Seq::empty()
    } else {
        (if v.ranges[i].live[k] {
            seq![v.slot_addr(i, k)]
        } else {
            Seq::empty()
        }) + range_addrs_from(v, i, k + 1)
    }
}

/// Live addresses of the ranges from `i` on, range by range.
pub open spec fn addrs_from(v: ScanView, i: int) -> Seq<int>
    decreases v.ranges.len() - i,
{
    if i < 0 || i >= v.ranges.len() {
        Seq::empty()
    } else {
        range_addrs_from(v, i, 0) + addrs_from(v, i + 1)
    }
}

/// Every live address, in range order and ascending within each range.
pub open spec fn addresses(v: ScanView) -> Seq<int> {
    addrs_from(v, 0)
}

proof fn lemma_count_front(s: Seq<bool>)
    requires
        s.len() > 0,
    ensures
        count_true(s) == count_true(s.drop_first()) + if s[0] { 1nat } else { 0nat },
    decreases s.len(),
{
    if s.len() > 1 {
        assert(s.drop_last().drop_first() =~= s.drop_first().drop_last());
        lemma_count_front(s.drop_last());
    } else {
        assert(s.drop_last() =~= Seq::<bool>::empty());
        assert(s.drop_first() =~= Seq::<bool>::empty());
    }
}

proof fn lemma_total_front(s: Seq<RangeView>)
    requires
        s.len() > 0,
    ensures
        total_live(s) == total_live(s.drop_first()) + count_true(s[0].live),
    decreases s.len(),
{
    if s.len() > 1 {
        assert(s.drop_last().drop_first() =~= s.drop_first().drop_last());
        lemma_total_front(s.drop_last());
    } else {
        assert(s.drop_last() =~= Seq::<RangeView>::empty());
        assert(s.drop_first() =~= Seq::<RangeView>::empty());
    }
}

/// Range `i`'s live addresses from slot `k` on number as many as its live
/// slots there, and increase strictly, starting at or after slot `k`.
proof fn lemma_range_addrs(v: ScanView, i: int, k: int)
    requires
        v.align >= 1,
        0 <= i < v.ranges.len(),
        0 <= k <= v.ranges[i].live.len(),
    ensures
        range_addrs_from(v, i, k).len() == count_true(
            v.ranges[i].live.subrange(k, v.ranges[i].live.len() as int),
        ),
        forall|a: int, b: int|
            0 <= a < b < range_addrs_from(v, i, k).len() ==> #[trigger] range_addrs_from(v, i, k)[a]
                < #[trigger] range_addrs_from(v, i, k)[b],
        forall|a: int|
            0 <= a < range_addrs_from(v, i, k).len() ==> #[trigger] range_addrs_from(v, i, k)[a]
                >= v.slot_addr(i, k),
    decreases v.ranges[i].live.len() - k,
{
    let live = v.ranges[i].live;
    if k == live.len() {
        assert(live.subrange(k, live.len() as int) =~= Seq::<bool>::empty());
    } else {
        lemma_range_addrs(v, i, k + 1);
        let sub = live.subrange(k, live.len() as int);
        assert(sub.drop_first() =~= live.subrange(k + 1, live.len() as int));
        lemma_count_front(sub);
        assert(v.slot_addr(i, k + 1) == v.slot_addr(i, k) + v.align) by (nonlinear_arith)
            requires
                v.slot_addr(i, k + 1) == v.ranges[i].base + (k + 1) * v.align,
                v.slot_addr(i, k) == v.ranges[i].base + k * v.align,
        ;
    }
}

/// The ranges from `i` on hold as many addresses as their live slots.
proof fn lemma_addrs_len(v: ScanView, i: int)
    requires
        v.align >= 1,
        0 <= i <= v.ranges.len(),
    ensures
        addrs_from(v, i).len() == total_live(v.ranges.subrange(i, v.ranges.len() as int)),
    decreases v.ranges.len() - i,
{
    if i == v.ranges.len() {
        assert(v.ranges.subrange(i, v.ranges.len() as int) =~= Seq::<RangeView>::empty());
    } else {
        lemma_addrs_len(v, i + 1);
        lemma_range_addrs(v, i, 0);
        assert(v.ranges[i].live.subrange(0, v.ranges[i].live.len() as int) =~= v.ranges[i].live);
        let sub = v.ranges.subrange(i, v.ranges.len() as int);
        assert(sub.drop_first() =~= v.ranges.subrange(i + 1, v.ranges.len() as int));
        lemma_total_front(sub);
    }
}

/// Iteration yields exactly as many addresses as the set counts, and within
/// each range they increase strictly.
pub proof fn lemma_addresses(v: ScanView)
    requires
        v.align >= 1,
    ensures
        addresses(v).len() == v.count(),
        forall|i: int, a: int, b: int|
            0 <= i < v.ranges.len() && 0 <= a < b < range_addrs_from(v, i, 0).len()
                ==> #[trigger] range_addrs_from(v, i, 0)[a] < #[trigger] range_addrs_from(v, i, 0)[b],
{
    lemma_addrs_len(v, 0);
    assert(v.ranges.subrange(0, v.ranges.len() as int) =~= v.ranges);
    assert forall|i: int, a: int, b: int|
        0 <= i < v.ranges.len() && 0 <= a < b < range_addrs_from(v, i, 0).len()
            implies #[trigger] range_addrs_from(v, i, 0)[a] < #[trigger] range_addrs_from(v, i, 0)[b] by {
        lemma_range_addrs(v, i, 0);
    }
}

/// Skipping slots `k..m` of range `i`, none of them live, drops no address.
proof fn lemma_skip_dead(v: ScanView, i: int, k: int, m: int)
    requires
        0 <= i < v.ranges.len(),
        0 <= k <= m <= v.ranges[i].live.len(),
        forall|x: int| k <= x < m ==> !#[trigger] v.ranges[i].live[x],
    ensures
        range_addrs_from(v, i, k) == range_addrs_from(v, i, m),
    decreases m - k,
{
    if k < m {
        lemma_skip_dead(v, i, k + 1, m);
        assert(range_addrs_from(v, i, k) =~= range_addrs_from(v, i, k + 1));
    }
}

/// A change to a scan set: appending a range, or filtering by a predicate.
pub enum ScanStep {
    Insert(int, int),
    Retain(spec_fn(int) -> bool),
}

/// The set that `steps` make from `v`, in order.
pub open spec fn replay(v: ScanView, steps: Seq<ScanStep>) -> ScanView
    decreases steps.len(),
{
    if steps.len() == 0 {
        v
    } else {
        let w = match steps[0] {
            ScanStep::Insert(start, end) => v.inserted(start, end),
            ScanStep::Retain(p) => v.retained(p),
        };
        replay(w, steps.drop_first())
    }
}

/// Two sets that start equal and go through the same inserts and the same
/// filters yield the same addresses in the same order.
pub proof fn lemma_replay(a: ScanView, b: ScanView, steps: Seq<ScanStep>)
    requires
        a == b,
    ensures
        replay(a, steps) == replay(b, steps),
        addresses(replay(a, steps)) == addresses(replay(b, steps)),
    decreases steps.len(),
{
    if steps.len() > 0 {
        let wa = match steps[0] {
            ScanStep::Insert(start, end) => a.inserted(start, end),
            ScanStep::Retain(p) => a.retained(p),
        };
        lemma_replay(wa, wa, steps.drop_first());
    }
}

/// One inserted range as seen by specifications: its bounds and, for each
/// slot, whether the slot is still a candidate.
pub struct RangeView {
    pub base: int,
    pub end: int,
    pub live: Seq<bool>,
}

proof fn lemma_bits_full(j: u8)
    by (bit_vector)
    requires
        j < 8,
    ensures
        bit_of(255u8, j),
{
}

proof fn lemma_bits_masked(r: u8, j: u8)
    by (bit_vector)
    requires
        1 <= r < 8,
        j < 8,
    ensures
        bit_of(255u8 >> (8u8 - r) as u8, j) == (j < r),
{
}

/// `⌈len / align⌉` is at most `len`, and its last slot starts before `len`.
proof fn lemma_slot_count(len: int, align: int)
    requires
        len >= 0,
        align >= 1,
    ensures
        0 <= slot_count(0, len, align) <= len,
        slot_count(0, len, align) > 0 ==> (slot_count(0, len, align) - 1) * align < len,
        slot_count(0, len, align) * align >= len,
{
    vstd::arithmetic::div_mod::lemma_fundamental_div_mod(len, align);
    let q = len / align;
    let r = len % align;
    assert(len == align * q + r);
    assert(0 <= r < align) by {
        vstd::arithmetic::div_mod::lemma_mod_bound(len, align);
    }
    assert(q >= 0) by {
        vstd::arithmetic::div_mod::lemma_div_pos_is_pos(len, align);
    }
    assert(q <= align * q) by (nonlinear_arith)
        requires
            q >= 0,
            align >= 1,
    ;
    assert(q * align == align * q) by (nonlinear_arith);
    assert(slot_count(0, len, align) == q + if r == 0 { 0int } else { 1int });
    if r == 0 {
        assert((q - 1) * align == align * q - align) by (nonlinear_arith);
    } else {
        assert((q + 1) * align == align * q + align) by (nonlinear_arith);
    }
}

proof fn lemma_count_all_true(n: nat)
    ensures
        count_true(Seq::new(n, |k: int| true)) == n,
    decreases n,
{
    if n > 0 {
        assert(Seq::new(n, |k: int| true).drop_last() =~= Seq::new((n - 1) as nat, |k: int| true));
        lemma_count_all_true((n - 1) as nat);
    }
}

proof fn lemma_test_bit(byte: u8, j: u8)
    by (bit_vector)
    requires
        j < 8,
    ensures
        (byte & (1u8 << j) != 0u8) == bit_of(byte, j),
        byte == 0u8 ==> !bit_of(byte, j),
{
}

proof fn lemma_clear_bit(byte: u8, j: u8, i: u8)
    by (bit_vector)
    requires
        j < 8,
        i < 8,
    ensures
        bit_of(byte & !(1u8 << j), i) == (bit_of(byte, i) && i != j),
{
}

proof fn lemma_count_update_false(s: Seq<bool>, k: int)
    requires
        0 <= k < s.len(),
        s[k],
    ensures
        count_true(s.update(k, false)) + 1 == count_true(s),
    decreases s.len(),
{
    if k == s.len() - 1 {
        assert(s.update(k, false).drop_last() =~= s.drop_last());
    } else {
        assert(s.update(k, false).drop_last() =~= s.drop_last().update(k, false));
        lemma_count_update_false(s.drop_last(), k);
    }
}

proof fn lemma_count_le_len(s: Seq<bool>)
    ensures
        count_true(s) <= s.len(),
    decreases s.len(),
{
    if s.len() > 0 {
        lemma_count_le_len(s.drop_last());
    }
}

/// Dropping a suffix with no `true` entry keeps the count.
proof fn lemma_count_prefix(s: Seq<bool>, n: int)
    requires
        0 <= n <= s.len(),
        forall|k: int| n <= k < s.len() ==> !#[trigger] s[k],
    ensures
        count_true(s) == count_true(s.subrange(0, n)),
    decreases s.len(),
{
    if s.len() > n {
        assert(s.drop_last().subrange(0, n) =~= s.subrange(0, n));
        lemma_count_prefix(s.drop_last(), n);
    } else {
        assert(s.subrange(0, n) =~= s);
    }
}

proof fn lemma_total_update(s: Seq<RangeView>, p: int, x: RangeView)
    requires
        0 <= p < s.len(),
    ensures
        total_live(s.update(p, x)) + count_true(s[p].live) == total_live(s) + count_true(x.live),
    decreases s.len(),
{
    if p == s.len() - 1 {
        assert(s.update(p, x).drop_last() =~= s.drop_last());
    } else {
        assert(s.update(p, x).drop_last() =~= s.drop_last().update(p, x));
        lemma_total_update(s.drop_last(), p, x);
    }
}

/// A scan set as seen by specifications.
pub struct ScanView {
    pub align: nat,
    pub ranges: Seq<RangeView>,
}

/// Total number of live slots over `ranges`.
pub open spec fn total_live(ranges: Seq<RangeView>) -> nat
    decreases ranges.len(),
{
    if ranges.len() == 0 {
        0
    } else {
        total_live(ranges.drop_last()) + count_true(ranges.last().live)
    }
}

impl ScanView {
    /// The empty set with stride `align`.
    pub open spec fn empty(align: nat) -> ScanView {
        ScanView { align, ranges: Seq::empty() }
    }

    /// Number of live addresses.
    pub open spec fn count(self) -> nat {
        total_live(self.ranges)
    }

    /// Address of slot `k` of range `i`.
    pub open spec fn slot_addr(self, i: int, k: int) -> int {
        self.ranges[i].base + k * self.align
    }

    /// The shape every scan set has: a positive stride; ranges inside the
    /// address space, each with one slot per stride step, in ascending order
    /// without overlap.
    pub open spec fn valid(self) -> bool {
        &&& self.align >= 1
        &&& forall|i: int|
            0 <= i < self.ranges.len() ==> {
                &&& 0 <= (#[trigger] self.ranges[i]).base <= self.ranges[i].end <= usize::MAX
                &&& self.ranges[i].live.len() == slot_count(
                    self.ranges[i].base,
                    self.ranges[i].end,
                    self.align as int,
                )
            }
        &&& forall|i: int|
            0 <= i < self.ranges.len() - 1 ==> (#[trigger] self.ranges[i]).end
                <= self.ranges[i + 1].base
    }

    /// The set after appending `[start, end)` with every slot live.
    pub open spec fn inserted(self, start: int, end: int) -> ScanView {
        ScanView {
            align: self.align,
            ranges: self.ranges.push(
                RangeView {
                    base: start,
                    end,
                    live: Seq::new(slot_count(start, end, self.align as int) as nat, |k: int| true),
                },
            ),
        }
    }

    /// The set after dropping every live address that fails `p`.
    pub open spec fn retained(self, p: spec_fn(int) -> bool) -> ScanView {
        ScanView {
            align: self.align,
            ranges: Seq::new(
                self.ranges.len(),
                |i: int|
                    RangeView {
                        base: self.ranges[i].base,
                        end: self.ranges[i].end,
                        live: Seq::new(
                            self.ranges[i].live.len(),
                            |k: int| self.ranges[i].live[k] && p(self.slot_addr(i, k)),
                        ),
                    },
            ),
        }
    }
}

/// One inserted range: `data` holds one bit per slot, lowest bit first.
struct Chunk {
    start: usize,
    end: usize,
    size: usize,
    data: Vec<u8>,
}

impl Chunk {
    spec fn view_with(self) -> RangeView {
        RangeView {
            base: self.start as int,
            end: self.end as int,
            live: Seq::new(self.size as nat, |k: int| bit_of(self.data@[k / 8], (k % 8) as u8)),
        }
    }

    spec fn wf(self, align: nat) -> bool {
        &&& align >= 1
        &&& self.start <= self.end
        &&& self.size == slot_count(self.start as int, self.end as int, align as int)
        &&& self.data@.len() == byte_count(self.size as int)
        &&& forall|b: int, j: u8|
            0 <= b < self.data@.len() && j < 8 && 8 * b + j >= self.size ==> !#[trigger] bit_of(self.data@[b], j)
    }

    /// The outcome of filtering one range's slots with `f`.
    spec fn retain_step<F: Fn(usize) -> bool>(old: Chunk, new: Chunk, align: nat, f: F) -> bool {
        &&& new.start == old.start
        &&& new.end == old.end
        &&& new.size == old.size
        &&& forall|k: int|
            0 <= k < old.size ==> {
                &&& #[trigger] new.view_with().live[k] ==> old.view_with().live[k] && f.ensures(
                    ((old.start + k * align) as usize,),
                    true,
                )
                &&& old.view_with().live[k] && !new.view_with().live[k] ==> f.ensures(
                    ((old.start + k * align) as usize,),
                    false,
                )
            }
    }

    /// Clears the live slots whose address `f` rejects; returns how many were cleared.
    fn retain<F: Fn(usize) -> bool>(&mut self, align: usize, f: &F) -> (removed: usize)
        requires
            old(self).wf(align as nat),
            forall|a: usize| f.requires((a,)),
        ensures
            final(self).wf(align as nat),
            Chunk::retain_step(*old(self), *final(self), align as nat, *f),
            count_true(final(self).view_with().live) + removed == count_true(
                old(self).view_with().live,
            ),
    {
        let ghost old_c = *self;
        let ghost old_live = old_c.view_with().live;
        proof {
            lemma_slot_count(self.end - self.start, align as int);
        }
        let nbytes = self.data.len();
        let mut removed: usize = 0;
        let mut b: usize = 0;
        while b < nbytes
            invariant
                self.wf(align as nat),
                self.start == old_c.start,
                self.end == old_c.end,
                self.size == old_c.size,
                self.data@.len() == nbytes,
                old_c.wf(align as nat),
                old_live == old_c.view_with().live,
                self.size > 0 ==> (self.size - 1) * align < self.end - self.start,
                b <= nbytes,
                forall|a: usize| f.requires((a,)),
                count_true(self.view_with().live) + removed == count_true(old_live),
                forall|k: int|
                    0 <= k < self.size && k < 8 * b ==> {
                        &&& #[trigger] self.view_with().live[k] ==> old_live[k] && f.ensures(
                            ((old_c.start + k * align) as usize,),
                            true,
                        )
                        &&& old_live[k] && !self.view_with().live[k] ==> f.ensures(
                            ((old_c.start + k * align) as usize,),
                            false,
                        )
                    },
                forall|k: int|
                    0 <= k < self.size && k >= 8 * b ==> #[trigger] self.view_with().live[k]
                        == old_live[k],
            decreases nbytes - b,
        {
            let mut byte = self.data[b];
            if byte != 0 {
                let mut j: u8 = 0;
                while j < 8
                    invariant
                        self.wf(align as nat),
                        self.start == old_c.start,
                        self.end == old_c.end,
                        self.size == old_c.size,
                        self.data@.len() == nbytes,
                        old_live == old_c.view_with().live,
                        self.size > 0 ==> (self.size - 1) * align < self.end - self.start,
                        b < nbytes,
                        j <= 8,
                        byte == self.data@[b as int],
                        forall|a: usize| f.requires((a,)),
                        count_true(self.view_with().live) + removed == count_true(old_live),
                        forall|k: int|
                            0 <= k < self.size && k < 8 * b + j ==> {
                                &&& #[trigger] self.view_with().live[k] ==> old_live[k]
                                    && f.ensures(((old_c.start + k * align) as usize,), true)
                                &&& old_live[k] && !self.view_with().live[k] ==> f.ensures(
                                    ((old_c.start + k * align) as usize,),
                                    false,
                                )
                            },
                        forall|k: int|
                            0 <= k < self.size && k >= 8 * b + j ==> #[trigger] self.view_with().live[k]
                                == old_live[k],
                    decreases 8 - j,
                {
                    proof {
                        lemma_test_bit(byte, j);
                    }
                    if byte & (1u8 << j) != 0 {
                        let k: usize = 8 * b + j as usize;
                        assert(k < self.size);
                        assert(k * align <= (self.size - 1) * align) by {
                            vstd::arithmetic::mul::lemma_mul_inequality(
                                k as int,
                                (self.size - 1) as int,
                                align as int,
                            );
                        }
                        let addr = self.start + k * align;
                        if !f(addr) {
                            let ghost before = self.view_with().live;
                            let ghost old_byte = byte;
                            byte = byte & !(1u8 << j);
                            self.data.set(b, byte);
                            proof {
                                assert(before[k as int]);
                                assert(self.view_with().live =~= before.update(k as int, false)) by {
                                    assert forall|i: int| 0 <= i < self.size implies #[trigger] self.view_with().live[i]
                                        == before.update(k as int, false)[i] by {
                                        if i / 8 == b as int {
                                            lemma_clear_bit(old_byte, j, (i % 8) as u8);
                                            assert((i % 8 == j) == (i == k));
                                        }
                                    }
                                }
                                lemma_count_update_false(before, k as int);
                                lemma_count_le_len(old_live);
                                assert forall|b2: int, j2: u8|
                                    0 <= b2 < self.data@.len() && j2 < 8 && 8 * b2 + j2
                                        >= self.size implies !#[trigger] bit_of(
                                    self.data@[b2],
                                    j2,
                                ) by {
                                    if b2 == b {
                                        lemma_clear_bit(old_byte, j, j2);
                                    }
                                }
                            }
                            removed = removed + 1;
                        }
                    }
                    j = j + 1;
                }
            } else {
                proof {
                    assert forall|j: u8| j < 8 implies !bit_of(byte, j) by {
                        lemma_test_bit(byte, j);
                    }
                }
            }
            b = b + 1;
        }
        removed
    }
}

/// A set of aligned addresses over a sequence of inserted ranges, one bit per
/// candidate slot, with a running count of the live slots.
pub struct Scan {
    regions: Vec<Chunk>,
    align: usize,
    len: usize,
}

impl View for Scan {
    type V = ScanView;

    closed spec fn view(&self) -> ScanView {
        ScanView {
            align: self.align as nat,
            ranges: self.regions@.map_values(|c: Chunk| c.view_with()),
        }
    }
}

impl Scan {
    /// End of the last inserted range, or 0 when none was inserted.
    pub closed spec fn last_end(&self) -> int {
        if self.regions@.len() == 0 {
            0
        } else {
            self.regions@.last().end as int
        }
    }

    /// Well-formedness: every range's bitmap has `⌈size/8⌉` bytes with the bits
    /// past `size` clear, the ranges are in ascending order without overlap, and
    /// the running count equals the number of live slots.
    pub closed spec fn wf(&self) -> bool {
        &&& self.align >= 1
        &&& forall|i: int|
            0 <= i < self.regions@.len() ==> (#[trigger] self.regions@[i]).wf(self.align as nat)
        &&& forall|i: int|
            0 <= i < self.regions@.len() - 1 ==> (#[trigger] self.regions@[i]).end
                <= self.regions@[i + 1].start
        &&& self.len == self@.count()
        &&& self.len <= self.last_end()
    }

    /// A well-formed scan set has a valid view.
    pub proof fn lemma_valid(&self)
        requires
            self.wf(),
        ensures
            self@.valid(),
    {
        assert forall|i: int| 0 <= i < self@.ranges.len() implies {
            &&& 0 <= (#[trigger] self@.ranges[i]).base <= self@.ranges[i].end <= usize::MAX
            &&& self@.ranges[i].live.len() == slot_count(
                self@.ranges[i].base,
                self@.ranges[i].end,
                self@.align as int,
            )
        } by {
            assert(self.regions@[i].wf(self.align as nat));
        }
        assert forall|i: int| 0 <= i < self@.ranges.len() - 1 implies (#[trigger] self@.ranges[i]).end
            <= self@.ranges[i + 1].base by {
            assert(self.regions@[i].end <= self.regions@[i + 1].start);
        }
    }

    /// Every bit of range `i`'s bitmap, including the bits past its last slot.
    pub closed spec fn bitmap_bits(&self, i: int) -> Seq<bool> {
        let d = self.regions@[i].data@;
        Seq::new((8 * d.len()) as nat, |k: int| bit_of(d[k / 8], (k % 8) as u8))
    }

    /// Number of set bits in the bitmaps of the first `n` ranges.
    pub closed spec fn popcount_upto(&self, n: int) -> nat
        decreases n,
    {
        if n <= 0 {
            0
        } else {
            self.popcount_upto(n - 1) + count_true(self.bitmap_bits(n - 1))
        }
    }

    /// Number of set bits over all bitmaps.
    pub closed spec fn popcount(&self) -> nat {
        self.popcount_upto(self.regions@.len() as int)
    }

    /// Whether every bitmap bit past its range's last slot is clear.
    pub closed spec fn tail_clear(&self) -> bool {
        forall|i: int, k: int|
            0 <= i < self.regions@.len() && self.regions@[i].size <= k < self.bitmap_bits(i).len()
                ==> !#[trigger] self.bitmap_bits(i)[k]
    }

    /// The count of a well-formed set is the number of set bits over all its
    /// bitmaps, and no bit past a range's last slot is set.
    pub proof fn lemma_count_is_popcount(&self)
        requires
            self.wf(),
        ensures
            self@.count() == self.popcount(),
            self.tail_clear(),
    {
        let n = self.regions@.len() as int;
        assert forall|i: int, k: int|
            0 <= i < n && self.regions@[i].size <= k < self.bitmap_bits(i).len()
                implies !#[trigger] self.bitmap_bits(i)[k] by {
            assert(self.regions@[i].wf(self.align as nat));
            let b = k / 8;
            let j = (k % 8) as u8;
            assert(8 * b + j == k);
            assert(!bit_of(self.regions@[i].data@[b], j));
        }
        self.lemma_popcount_upto(n);
        assert(self@.ranges.subrange(0, n) =~= self@.ranges);
    }

    proof fn lemma_popcount_upto(&self, m: int)
        requires
            self.wf(),
            0 <= m <= self.regions@.len(),
            self.tail_clear(),
        ensures
            self.popcount_upto(m) == total_live(self@.ranges.subrange(0, m)),
        decreases m,
    {
        if m > 0 {
            self.lemma_popcount_upto(m - 1);
            let i = m - 1;
            let c = self.regions@[i];
            assert(c.wf(self.align as nat));
            let bits = self.bitmap_bits(i);
            assert(bits.len() >= c.size);
            assert(bits.subrange(0, c.size as int) =~= c.view_with().live);
            lemma_count_prefix(bits, c.size as int);
            assert(self@.ranges.subrange(0, m).drop_last() =~= self@.ranges.subrange(0, m - 1));
        }
    }

    /// An empty scan set whose slots are `align` bytes apart.
    pub fn new(align: usize) -> (r: Scan)
        requires
            align >= 1,
        ensures
            r.wf(),
            r@ == ScanView::empty(align as nat),
    {
        let r = Scan { regions: Vec::new(), align, len: 0 };
        assert(r@.ranges =~= Seq::<RangeView>::empty());
        r
    }


    /// Appends the range `[start, end)` with every slot live; bits past the
    /// last slot of the range's bitmap are cleared.
    pub fn insert(&mut self, start: usize, end: usize)
        requires
            old(self).wf(),
            start <= end,
            old(self)@.ranges.len() > 0 ==> old(self)@.ranges.last().end <= start,
        ensures
            final(self).wf(),
            final(self)@ == old(self)@.inserted(start as int, end as int),
    {
        let ghost old_view = self@;
        let align = self.align;
        let span = end - start;
        proof {
            lemma_slot_count(span as int, align as int);
        }
        let size: usize = span / align + if span % align != 0 { 1 } else { 0 };
        let nbytes: usize = size / 8 + if size % 8 != 0 { 1 } else { 0 };
        let mut data: Vec<u8> = vec![255u8; nbytes];
        if size % 8 != 0 {
            let r: u8 = (size % 8) as u8;
            data.set(size / 8, 255u8 >> (8u8 - r));
        }
        let chunk = Chunk { start, end, size, data };
        assert(chunk.wf(align as nat)) by {
            assert forall|b: int, j: u8|
                0 <= b < chunk.data@.len() && j < 8 && 8 * b + j >= size implies !#[trigger] bit_of(
                chunk.data@[b],
                j,
            ) by {
                lemma_bits_masked((size % 8) as u8, j);
            }
        }
        let ghost rv = chunk.view_with();
        assert(rv.live =~= Seq::new(size as nat, |k: int| true)) by {
            assert forall|k: int| 0 <= k < size implies #[trigger] rv.live[k] by {
                let j = (k % 8) as u8;
                if k / 8 < size / 8 {
                    lemma_bits_full(j);
                } else {
                    lemma_bits_masked((size % 8) as u8, j);
                }
            }
        }
        proof {
            lemma_count_all_true(size as nat);
        }
        self.regions.push(chunk);
        self.len = self.len + size;
        assert(self@.ranges =~= old_view.ranges.push(rv));
        assert(self@.ranges.drop_last() =~= old_view.ranges);
    }

    /// Keeps only the live addresses that `f` accepts. Addresses are offered
    /// in ascending order within each range; a bitmap byte with no live slot
    /// is skipped without calling `f`.
    pub fn retain<F: Fn(usize) -> bool>(&mut self, f: F)
        requires
            old(self).wf(),
            forall|a: usize| f.requires((a,)),
        ensures
            final(self).wf(),
            retain_outcome(old(self)@, final(self)@, f),
    {
        let ghost old_view = self@;
        let ghost old_regions = self.regions@;
        let align = self.align;
        let mut rest: Vec<Chunk> = Vec::new();
        std::mem::swap(&mut rest, &mut self.regions);
        let mut done: Vec<Chunk> = Vec::new();
        let mut len = self.len;
        let ghost old_len = self.len;
        let ghost n = rest@.len();
        while rest.len() > 0
            invariant
                align == self.align,
                len <= old_len,
                align >= 1,
                done@.len() + rest@.len() == n,
                n == old_regions.len(),
                old_view == (ScanView {
                    align: align as nat,
                    ranges: old_regions.map_values(|c: Chunk| c.view_with()),
                }),
                forall|a: usize| f.requires((a,)),
                forall|i: int| 0 <= i < rest@.len() ==> #[trigger] rest@[i] == old_regions[done@.len() + i],
                forall|i: int| 0 <= i < n ==> (#[trigger] old_regions[i]).wf(align as nat),
                forall|i: int|
                    0 <= i < done@.len() ==> (#[trigger] done@[i]).wf(align as nat)
                        && Chunk::retain_step(old_regions[i], done@[i], align as nat, f),
                len == total_live(
                    done@.map_values(|c: Chunk| c.view_with()) + rest@.map_values(
                        |c: Chunk| c.view_with(),
                    ),
                ),
            decreases rest@.len(),
        {
            let ghost cur = done@.map_values(|c: Chunk| c.view_with()) + rest@.map_values(
                |c: Chunk| c.view_with(),
            );
            let ghost p = done@.len() as int;
            let mut c = rest.remove(0);
            let removed = c.retain(align, &f);
            proof {
                assert(cur[p] == old_regions[p].view_with());
                lemma_total_update(cur, p, c.view_with());
            }
            len = len - removed;
            done.push(c);
            proof {
                assert(done@.map_values(|c: Chunk| c.view_with()) + rest@.map_values(
                    |c: Chunk| c.view_with(),
                ) =~= cur.update(p, c.view_with()));
            }
        }
        self.regions = done;
        self.len = len;
        proof {
            assert(rest@.map_values(|c: Chunk| c.view_with()) =~= Seq::<RangeView>::empty());
            assert(done@.map_values(|c: Chunk| c.view_with()) + rest@.map_values(
                |c: Chunk| c.view_with(),
            ) =~= self@.ranges);
            assert forall|i: int|
                0 <= i < old_view.ranges.len() implies {
                    &&& (#[trigger] self@.ranges[i]).base == old_view.ranges[i].base
                    &&& self@.ranges[i].end == old_view.ranges[i].end
                    &&& self@.ranges[i].live.len() == old_view.ranges[i].live.len()
                } by {}
            assert forall|i: int, k: int|
                0 <= i < old_view.ranges.len() && 0 <= k < old_view.ranges[i].live.len() implies {
                    &&& #[trigger] self@.ranges[i].live[k] ==> old_view.ranges[i].live[k]
                        && f.ensures((old_view.slot_addr(i, k) as usize,), true)
                    &&& old_view.ranges[i].live[k] && !self@.ranges[i].live[k] ==> f.ensures(
                        (old_view.slot_addr(i, k) as usize,),
                        false,
                    )
                } by {
                assert(Chunk::retain_step(old_regions[i], self.regions@[i], align as nat, f));
            }
            assert forall|i: int|
                0 <= i < self.regions@.len() - 1 implies (#[trigger] self.regions@[i]).end
                <= self.regions@[i + 1].start by {
                assert(Chunk::retain_step(old_regions[i], self.regions@[i], align as nat, f));
                assert(Chunk::retain_step(old_regions[i + 1], self.regions@[i + 1], align as nat, f));
            }
            if n > 0 {
                assert(Chunk::retain_step(old_regions[n - 1], self.regions@[n - 1], align as nat, f));
            }
        }
    }

    /// A cursor that yields the live addresses; see [`Iter`].
    pub fn iter(&self) -> (r: Iter<'_>)
        requires
            self.wf(),
        ensures
            r.wf(),
            r.scan_view() == self@,
            r.remaining() == addresses(self@),
    {
        let r = Iter { scan: self, region: 0, slot: 0 };
        proof {
            if self.regions@.len() > 0 {
                assert(addresses(self@) == range_addrs_from(self@, 0, 0) + addrs_from(self@, 1));
            }
        }
        r
    }

    /// Number of inserted ranges.
    pub fn range_count(&self) -> (r: usize)
        ensures
            r == self@.ranges.len(),
    {
        self.regions.len()
    }

    /// The bitmap of range `i`: bit `k % 8` of byte `k / 8` is slot `k`.
    pub fn bitmap(&self, i: usize) -> (r: &[u8])
        requires
            self.wf(),
            i < self@.ranges.len(),
        ensures
            r@.len() == byte_count(self@.ranges[i as int].live.len() as int),
            forall|k: int|
                0 <= k < 8 * r@.len() ==> #[trigger] bit_of(r@[k / 8], (k % 8) as u8) == (k
                    < self@.ranges[i as int].live.len() && self@.ranges[i as int].live[k]),
    {
        let c = &self.regions[i];
        proof {
            assert(c.wf(self.align as nat));
            assert forall|k: int| 0 <= k < 8 * c.data@.len() && k >= c.size implies !#[trigger] bit_of(
                c.data@[k / 8],
                (k % 8) as u8,
            ) by {
                assert(8 * (k / 8) + (k % 8) as u8 == k);
            }
        }
        c.data.as_slice()
    }

    /// Number of live addresses.
    pub fn len(&self) -> (r: usize)
        requires
            self.wf(),
        ensures
            r == self@.count(),
    {
        self.len
    }

    /// Whether no address is live.
    pub fn is_empty(&self) -> (r: bool)
        requires
            self.wf(),
        ensures
            r == (self@.count() == 0),
    {
        self.len == 0
    }
}

/// A cursor over the live addresses of a scan set, in ascending range order
/// and ascending address order within a range. It reads the set without
/// changing it.
pub struct Iter<'a> {
    scan: &'a Scan,
    region: usize,
    slot: usize,
}

impl<'a> Iter<'a> {
    /// The set being walked.
    pub closed spec fn scan_view(&self) -> ScanView {
        self.scan@
    }

    /// Well-formedness: the set is well formed and the cursor lies within it.
    pub closed spec fn wf(&self) -> bool {
        &&& self.scan.wf()
        &&& self.region <= self.scan.regions@.len()
        &&& self.region < self.scan.regions@.len() ==> self.slot <= self.scan.regions@[self.region as int].size
    }

    /// Addresses that are still to come.
    pub closed spec fn remaining(&self) -> Seq<int> {
        if self.region < self.scan.regions@.len() {
            range_addrs_from(self.scan@, self.region as int, self.slot as int) + addrs_from(
                self.scan@,
                self.region + 1,
            )
        } else {
            Seq::empty()
        }
    }

    /// The next live address, or `None` once all were yielded.
    pub fn next(&mut self) -> (r: Option<usize>)
        requires
            old(self).wf(),
        ensures
            final(self).wf(),
            final(self).scan_view() == old(self).scan_view(),
            old(self).remaining().len() == 0 ==> r is None && final(self).remaining().len() == 0,
            old(self).remaining().len() > 0 ==> r == Some(old(self).remaining()[0] as usize)
                && final(self).remaining() == old(self).remaining().drop_first(),
    {
        let ghost start = self.remaining();
        let n = self.scan.regions.len();
        let ghost v = self.scan@;
        proof {
            self.scan.lemma_valid();
        }
        loop
            invariant
                self.wf(),
                self.scan@ == v,
                v == old(self).scan_view(),
                start == old(self).remaining(),
                v.valid(),
                n == self.scan.regions@.len(),
                self.remaining() == start,
            decreases n - self.region, self.scan.regions@[self.region as int].size - self.slot,
        {
            if self.region >= n {
                return None;
            }
            let c = &self.scan.regions[self.region];
            let ghost i = self.region as int;
            assert(c.wf(self.scan.align as nat));
            assert(c.view_with() == v.ranges[i]);
            if self.slot >= c.size {
                proof {
                    assert(range_addrs_from(v, i, self.slot as int) =~= Seq::<int>::empty());
                    if i + 1 < n {
                        assert(addrs_from(v, i + 1) =~= range_addrs_from(v, i + 1, 0) + addrs_from(v, i + 2));
                    }
                }
                self.region = self.region + 1;
                self.slot = 0;
            } else if self.slot % 8 == 0 && c.data[self.slot / 8] == 0 {
                let k = self.slot;
                let m = if c.size - k < 8 { c.size } else { k + 8 };
                proof {
                    assert forall|x: int| k <= x < m implies !#[trigger] v.ranges[i].live[x] by {
                        assert(x / 8 == k / 8);
                        lemma_test_bit(0u8, (x % 8) as u8);
                    }
                    lemma_skip_dead(v, i, k as int, m as int);
                }
                self.slot = m;
            } else {
                let k = self.slot;
                let byte = c.data[k / 8];
                let bit = (k % 8) as u8;
                proof {
                    lemma_test_bit(byte, bit);
                    lemma_slot_addr_bounds(v, i, k as int);
                }
                self.slot = k + 1;
                if byte & (1u8 << bit) != 0 {
                    let addr = c.start + k * self.scan.align;
                    proof {
                        assert(start =~= seq![addr as int] + (range_addrs_from(v, i, k + 1) + addrs_from(v, i + 1)));
                        assert(start.drop_first() =~= self.remaining());
                    }
                    return Some(addr);
                }
            }
        }
    }
}

} // verus!
