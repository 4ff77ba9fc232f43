//! Integer kinds, byte orders, and the conversions between bytes, values and
//! decimal literals.

use vstd::prelude::*;
use vstd::string::StringSliceAdditionalSpecFns;

verus! {

/// The integer types a scan can compare.
#[derive(Clone, Copy, PartialEq, Eq, Structural)]
pub enum NumKind {
    U8,
    U16,
    U32,
    U64,
    I8,
    I16,
    I32,
    I64,
}

/// Order of the bytes of an integer in memory.
#[derive(Clone, Copy, PartialEq, Eq, Structural)]
pub enum ByteOrder {
    Little,
    Big,
}

/// `256^n`.
pub open spec fn pow256(n: nat) -> nat
    decreases n,
{
    if n == 0 {
        1
    } else {
        256 * pow256((n - 1) as nat)
    }
}

impl NumKind {
    /// Width in bytes.
    pub open spec fn spec_width(self) -> nat {
        match self {
            NumKind::U8 | NumKind::I8 => 1,
            NumKind::U16 | NumKind::I16 => 2,
            NumKind::U32 | NumKind::I32 => 4,
            NumKind::U64 | NumKind::I64 => 8,
        }
    }

    /// Whether values are two's complement signed.
    pub open spec fn spec_signed(self) -> bool {
        match self {
            NumKind::I8 | NumKind::I16 | NumKind::I32 | NumKind::I64 => true,
            _ => false,
        }
    }

    /// Smallest value of the type.
    pub open spec fn spec_min(self) -> int {
        if self.spec_signed() {
            -(pow256(self.spec_width()) / 2)
        } else {
            0
        }
    }

    /// Largest value of the type.
    pub open spec fn spec_max(self) -> int {
        if self.spec_signed() {
            pow256(self.spec_width()) / 2 - 1
        } else {
            pow256(self.spec_width()) - 1
        }
    }

    /// Width in bytes.
    pub fn width(&self) -> (r: usize)
        ensures
            r == self.spec_width(),
    {
        match self {
            NumKind::U8 | NumKind::I8 => 1,
            NumKind::U16 | NumKind::I16 => 2,
            NumKind::U32 | NumKind::I32 => 4,
            NumKind::U64 | NumKind::I64 => 8,
        }
    }

    /// Whether values are two's complement signed.
    pub fn is_signed(&self) -> (r: bool)
        ensures
            r == self.spec_signed(),
    {
        match self {
            NumKind::I8 | NumKind::I16 | NumKind::I32 | NumKind::I64 => true,
            _ => false,
        }
    }

    /// Smallest and largest value of the type.
    pub fn bounds(&self) -> (r: (i128, i128))
        ensures
            r.0 == self.spec_min(),
            r.1 == self.spec_max(),
    {
        proof {
            lemma_pow256_values();
        }
        match self {
            NumKind::U8 => (0, 0xff),
            NumKind::U16 => (0, 0xffff),
            NumKind::U32 => (0, 0xffff_ffff),
            NumKind::U64 => (0, 0xffff_ffff_ffff_ffff),
            NumKind::I8 => (-0x80, 0x7f),
            NumKind::I16 => (-0x8000, 0x7fff),
            NumKind::I32 => (-0x8000_0000, 0x7fff_ffff),
            NumKind::I64 => (-0x8000_0000_0000_0000, 0x7fff_ffff_ffff_ffff),
        }
    }
}

proof fn lemma_pow256_values()
    ensures
        pow256(1) == 0x100,
        pow256(2) == 0x1_0000,
        pow256(4) == 0x1_0000_0000,
        pow256(8) == 0x1_0000_0000_0000_0000,
{
    reveal_with_fuel(pow256, 9);
}

/// Value of bytes read least significant first.
pub open spec fn le_value(b: Seq<u8>) -> nat
    decreases b.len(),
{
    if b.len() == 0 {
        0
    } else {
        (b[0] + 256 * le_value(b.drop_first())) as nat
    }
}

/// Value of `b` as an unsigned number in byte order `order`.
pub open spec fn unsigned_value(b: Seq<u8>, order: ByteOrder) -> nat {
    match order {
        ByteOrder::Little => le_value(b),
        ByteOrder::Big => le_value(b.reverse()),
    }
}

/// The value of type `kind` whose bytes in order `order` start `b`.
pub open spec fn decoded(kind: NumKind, b: Seq<u8>, order: ByteOrder) -> int {
    let u = unsigned_value(b.take(kind.spec_width() as int), order);
    if kind.spec_signed() && u >= pow256(kind.spec_width()) / 2 {
        u - pow256(kind.spec_width())
    } else {
        u as int
    }
}

proof fn lemma_le_bound(b: Seq<u8>)
    ensures
        le_value(b) < pow256(b.len()),
    decreases b.len(),
{
    if b.len() > 0 {
        lemma_le_bound(b.drop_first());
        let r = le_value(b.drop_first());
        let p = pow256((b.len() - 1) as nat);
        assert(b[0] + 256 * r < 256 * p) by (nonlinear_arith)
            requires
                r < p,
                b[0] < 256,
        ;
    }
}

/// Relies on `u16::to_ne_bytes`: the bytes of 1 in the host's byte order,
/// which is little or big endian.
#[verifier::external_body]
fn ne_bytes_of_one() -> (r: [u8; 2])
    ensures
        r@ == seq![1u8, 0u8] || r@ == seq![0u8, 1u8],
{
    1u16.to_ne_bytes()
}

impl ByteOrder {
    /// The byte order in which the number 1 is stored as the two bytes `b`:
    /// little endian for `[1, 0]`, big endian for `[0, 1]`.
    pub fn from_ne_bytes_of_one(b: [u8; 2]) -> (r: ByteOrder)
        requires
            b@ == seq![1u8, 0u8] || b@ == seq![0u8, 1u8],
        ensures
            (r == ByteOrder::Little) == (b@ == seq![1u8, 0u8]),
            (r == ByteOrder::Big) == (b@ == seq![0u8, 1u8]),
    {
        if b[0] == 1 {
            ByteOrder::Little
        } else {
            ByteOrder::Big
        }
    }

    /// The byte order of the host: the order in which it stores the number 1.
    pub fn native() -> (r: ByteOrder)
        ensures
            r == ByteOrder::Little || r == ByteOrder::Big,
    {
        ByteOrder::from_ne_bytes_of_one(ne_bytes_of_one())
    }
}

/// Reads a value of type `kind` from the first bytes of `bytes` in byte order
/// `order`; signed types are two's complement.
pub fn decode(kind: NumKind, bytes: &[u8], order: ByteOrder) -> (r: i128)
    requires
        bytes@.len() >= kind.spec_width(),
    ensures
        r == decoded(kind, bytes@, order),
{
    let w = kind.width();
    let ghost s = bytes@.take(w as int);
    let mut acc: u128 = 0;
    proof {
        lemma_pow256_values();
    }
    match order {
        ByteOrder::Little => {
            let mut i = w;
            while i > 0
                invariant
                    w == kind.spec_width(),
                    w <= bytes@.len(),
                    s == bytes@.take(w as int),
                    i <= w,
                    acc == le_value(s.subrange(i as int, w as int)),
                decreases i,
            {
                i = i - 1;
                proof {
                    lemma_le_bound(s.subrange(i + 1, w as int));
                    assert(s.subrange(i as int, w as int).drop_first() =~= s.subrange(i + 1, w as int));
                    assert(pow256((w - i - 1) as nat) <= pow256(7)) by {
                        lemma_pow256_mono((w - i - 1) as nat, 7);
                    }
                    reveal_with_fuel(pow256, 8);
                }
                acc = acc * 256 + bytes[i] as u128;
            }
            assert(s.subrange(0, w as int) =~= s);
            assert(acc == unsigned_value(s, order));
        },
        ByteOrder::Big => {
            let mut i: usize = 0;
            while i < w
                invariant
                    w == kind.spec_width(),
                    w <= bytes@.len(),
                    s == bytes@.take(w as int),
                    i <= w,
                    acc == le_value(s.subrange(0, i as int).reverse()),
                decreases w - i,
            {
                proof {
                    lemma_le_bound(s.subrange(0, i as int).reverse());
                    assert(s.subrange(0, i + 1).reverse().drop_first() =~= s.subrange(0, i as int).reverse());
                    assert(pow256(i as nat) <= pow256(7)) by {
                        lemma_pow256_mono(i as nat, 7);
                    }
                    reveal_with_fuel(pow256, 8);
                }
                acc = acc * 256 + bytes[i] as u128;
                i = i + 1;
            }
            assert(s.subrange(0, w as int) =~= s);
            assert(acc == unsigned_value(s, order));
        },
    }
    proof {
        lemma_le_bound(s);
        lemma_le_bound(s.reverse());
        assert(s.len() == w);
    }
    let full: u128 = if w == 8 {
        0x1_0000_0000_0000_0000
    } else if w == 4 {
        0x1_0000_0000
    } else if w == 2 {
        0x1_0000
    } else {
        0x100
    };
    assert(full == pow256(w as nat));
    assert(acc < full);
    if kind.is_signed() && acc >= full / 2 {
        acc as i128 - full as i128
    } else {
        acc as i128
    }
}

proof fn lemma_le_push(s: Seq<u8>, d: u8)
    ensures
        le_value(s.push(d)) == le_value(s) + pow256(s.len()) * d,
    decreases s.len(),
{
    if s.len() == 0 {
        assert(s.push(d).drop_first() =~= Seq::<u8>::empty());
        assert(le_value(Seq::<u8>::empty()) == 0);
        assert(pow256(0) == 1);
        assert(le_value(s) == 0);
        assert(le_value(s.push(d)) == d);
    } else {
        assert(s.push(d).drop_first() =~= s.drop_first().push(d));
        lemma_le_push(s.drop_first(), d);
        let a = le_value(s.drop_first());
        let p = pow256((s.len() - 1) as nat);
        assert(pow256(s.len()) == 256 * p);
        assert(s.push(d)[0] == s[0]);
        assert(le_value(s.push(d)) == s[0] + 256 * (a + p * d));
        assert(256 * (a + p * d) == 256 * a + (256 * p) * d) by (nonlinear_arith);
    }
}

/// The bytes of `value`, of type `kind`, in byte order `order`; negative
/// values are two's complement.
pub fn encode(kind: NumKind, value: i128, order: ByteOrder) -> (r: Vec<u8>)
    requires
        kind.spec_min() <= value <= kind.spec_max(),
    ensures
        r@.len() == kind.spec_width(),
        decoded(kind, r@, order) == value,
{
    proof {
        lemma_pow256_values();
    }
    let w = kind.width();
    let full: u128 = if w == 8 {
        0x1_0000_0000_0000_0000
    } else if w == 4 {
        0x1_0000_0000
    } else if w == 2 {
        0x1_0000
    } else {
        0x100
    };
    assert(full == pow256(w as nat));
    let u0: u128 = if value < 0 {
        (value + full as i128) as u128
    } else {
        value as u128
    };
    assert(u0 < full);
    let mut u = u0;
    let mut out: Vec<u8> = Vec::new();
    let mut i: usize = 0;
    assert(le_value(out@) == 0);
    assert(pow256(0) == 1);
    while i < w
        invariant
            w == kind.spec_width(),
            i <= w,
            out@.len() == i,
            u0 == le_value(out@) + pow256(i as nat) * u,
        decreases w - i,
    {
        let d = (u % 256) as u8;
        proof {
            lemma_le_push(out@, d);
            let p = pow256(i as nat);
            assert(p * u == p * d + (256 * p) * (u / 256)) by (nonlinear_arith)
                requires
                    d == u % 256,
            ;
        }
        out.push(d);
        u = u / 256;
        i = i + 1;
    }
    proof {
        assert(u == 0) by (nonlinear_arith)
            requires
                u0 == le_value(out@) + pow256(w as nat) * u,
                u0 < pow256(w as nat),
                pow256(w as nat) > 0,
        ;
        assert(out@.take(w as int) =~= out@);
    }
    match order {
        ByteOrder::Little => out,
        ByteOrder::Big => {
            let mut be: Vec<u8> = Vec::new();
            let mut j = w;
            while j > 0
                invariant
                    j <= w,
                    out@.len() == w,
                    be@ =~= out@.subrange(j as int, w as int).reverse(),
                decreases j,
            {
                j = j - 1;
                be.push(out[j]);
            }
            proof {
                assert(out@.subrange(0, w as int) =~= out@);
                assert(be@.reverse() =~= out@);
                assert(be@.take(w as int) =~= be@);
            }
            be
        },
    }
}

/// Decoding reads only the type's width of bytes: a value written as `b` and
/// read back from any capture that starts with `b` is the value of `b`.
pub proof fn lemma_decode_prefix(kind: NumKind, b: Seq<u8>, rest: Seq<u8>, order: ByteOrder)
    requires
        b.len() == kind.spec_width(),
    ensures
        decoded(kind, b + rest, order) == decoded(kind, b, order),
{
    assert((b + rest).take(kind.spec_width() as int) =~= b.take(kind.spec_width() as int));
}

/// Whether `c` is an ASCII decimal digit.
pub open spec fn is_digit(c: u8) -> bool {
    48 <= c <= 57
}

/// Value of a string of decimal digits, most significant first.
pub open spec fn decimal_value(d: Seq<u8>) -> int
    decreases d.len(),
{
    if d.len() == 0 {
        0
    } else {
        decimal_value(d.drop_last()) * 10 + (d.last() - 48)
    }
}

/// Whether `s` starts with a minus sign that a signed literal may carry.
pub open spec fn literal_negative(s: Seq<u8>, signed: bool) -> bool {
    signed && s.len() > 0 && s[0] == 45
}

/// The digits of a literal: `s` without its sign, if it has one.
pub open spec fn literal_digits(s: Seq<u8>, signed: bool) -> Seq<u8> {
    if s.len() > 0 && (s[0] == 43 || literal_negative(s, signed)) {
        s.drop_first()
    } else {
        s
    }
}

/// Whether every entry of `d` is a decimal digit.
pub open spec fn all_digits(d: Seq<u8>) -> bool {
    forall|i: int| 0 <= i < d.len() ==> is_digit(#[trigger] d[i])
}

/// The integer that `s` spells: an optional `+` (or `-` when `signed`)
/// followed by one or more decimal digits and nothing else.
pub open spec fn literal_value(s: Seq<u8>, signed: bool) -> Option<int> {
    let digits = literal_digits(s, signed);
    if digits.len() == 0 || !all_digits(digits) {
        None
    } else if literal_negative(s, signed) {
        Some(-decimal_value(digits))
    } else {
        Some(decimal_value(digits))
    }
}

/// The value of type `kind` that the text `s` denotes, if it is a literal
/// of that type in range.
pub open spec fn parsed(kind: NumKind, s: Seq<u8>) -> Option<int> {
    match literal_value(s, kind.spec_signed()) {
        Some(v) => if kind.spec_min() <= v <= kind.spec_max() {
            Some(v)
        } else {
            None
        },
        None => None,
    }
}

proof fn lemma_decimal_mono(d: Seq<u8>, k: int)
    requires
        0 <= k <= d.len(),
        all_digits(d),
    ensures
        decimal_value(d) >= decimal_value(d.subrange(0, k)) >= 0,
    decreases d.len(),
{
    if k == d.len() {
        assert(d.subrange(0, k) =~= d);
        if d.len() > 0 {
            lemma_decimal_mono(d.drop_last(), k - 1);
        }
    } else {
        assert(d.drop_last().subrange(0, k) =~= d.subrange(0, k));
        lemma_decimal_mono(d.drop_last(), k);
    }
}

/// Parses `text` as a decimal literal of type `kind`, as Rust's integer
/// `from_str` does: an optional sign (`-` only for signed types), then one or
/// more digits, with the value in the type's range.
pub fn parse(kind: NumKind, text: &str) -> (r: Option<i128>)
    ensures
        r matches Some(v) ==> parsed(kind, text.spec_bytes()) == Some(v as int),
        r is None ==> parsed(kind, text.spec_bytes()) is None,
{
    let b = text.as_bytes();
    let ghost s = b@;
    let n = b.len();
    let signed = kind.is_signed();
    let neg = signed && n > 0 && b[0] == 45;
    let start: usize = if n > 0 && (b[0] == 43 || neg) { 1 } else { 0 };
    let ghost digits = literal_digits(s, kind.spec_signed());
    assert(digits =~= s.subrange(start as int, n as int));
    if start == n {
        return None;
    }
    let limit: u128 = 0x1_0000_0000_0000_0000;
    let mut acc: u128 = 0;
    let mut i = start;
    while i < n
        invariant
            start <= i <= n,
            n == s.len(),
            b@ == s,
            digits == s.subrange(start as int, n as int),
            acc == decimal_value(s.subrange(start as int, i as int)),
            acc <= limit,
            limit == 0x1_0000_0000_0000_0000,
            s == text.spec_bytes(),
            neg == literal_negative(s, kind.spec_signed()),
            digits == literal_digits(s, kind.spec_signed()),
            forall|x: int| start <= x < i ==> is_digit(#[trigger] s[x]),
        decreases n - i,
    {
        let c = b[i];
        if c < 48 || c > 57 {
            assert(!is_digit(digits[i - start]));
            return None;
        }
        assert(s.subrange(start as int, i + 1).drop_last() =~= s.subrange(start as int, i as int));
        acc = acc * 10 + (c - 48) as u128;
        i = i + 1;
        if acc > limit {
            proof {
                lemma_pow256_values();
                if all_digits(digits) {
                    lemma_decimal_mono(digits, i - start);
                    assert(digits.subrange(0, i - start) =~= s.subrange(start as int, i as int));
                }
            }
            return None;
        }
    }
    assert(s.subrange(start as int, n as int) =~= digits);
    let (lo, hi) = kind.bounds();
    let v: i128 = if neg { -(acc as i128) } else { acc as i128 };
    if lo <= v && v <= hi {
        Some(v)
    } else {
        None
    }
}

proof fn lemma_pow256_mono(a: nat, b: nat)
    requires
        a <= b,
    ensures
        pow256(a) <= pow256(b),
    decreases b,
{
    if a < b {
        lemma_pow256_mono(a, (b - 1) as nat);
    }
}

} // verus!
