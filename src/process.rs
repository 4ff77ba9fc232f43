//! Mapped memory regions of a target process and their permissions.

use vstd::prelude::*;
use vstd::utf8::encode_utf8;

verus! {

/// Access rights of a region, as seen by specifications.
pub struct PermissionsView {
    pub read: bool,
    pub write: bool,
    pub execute: bool,
}

/// Access rights of a region.
#[derive(Clone, Copy)]
pub struct Permissions {
    read: bool,
    write: bool,
    execute: bool,
}

impl View for Permissions {
    type V = PermissionsView;

    closed spec fn view(&self) -> PermissionsView {
        PermissionsView { read: self.read, write: self.write, execute: self.execute }
    }
}

/// Windows page protection `PAGE_READONLY`.
pub const PAGE_READONLY: u32 = 0x02;

/// Windows page protection `PAGE_READWRITE`.
pub const PAGE_READWRITE: u32 = 0x04;

/// Windows page protection `PAGE_WRITECOPY`.
pub const PAGE_WRITECOPY: u32 = 0x08;

/// Windows page protection `PAGE_EXECUTE`.
pub const PAGE_EXECUTE: u32 = 0x10;

/// Windows page protection `PAGE_EXECUTE_READ`.
pub const PAGE_EXECUTE_READ: u32 = 0x20;

/// Windows page protection `PAGE_EXECUTE_READWRITE`.
pub const PAGE_EXECUTE_READWRITE: u32 = 0x40;

/// Windows page protection `PAGE_EXECUTE_WRITECOPY`.
pub const PAGE_EXECUTE_WRITECOPY: u32 = 0x80;

/// Protections that allow execution and writing.
pub const EXEC_WRITE_MASK: u32 = PAGE_EXECUTE_READWRITE | PAGE_EXECUTE_WRITECOPY;

/// Protections that allow execution and reading.
pub const EXEC_READ_MASK: u32 = PAGE_EXECUTE_READ | EXEC_WRITE_MASK;

/// Protections that allow execution.
pub const EXEC_MASK: u32 = PAGE_EXECUTE | EXEC_READ_MASK;

/// Protections that allow writing.
pub const WRITE_MASK: u32 = PAGE_READWRITE | PAGE_WRITECOPY | EXEC_WRITE_MASK;

/// Protections that allow reading.
pub const READ_MASK: u32 = PAGE_READONLY | WRITE_MASK | EXEC_MASK;

impl Permissions {
    /// Rights with the given flags.
    pub fn new(read: bool, write: bool, execute: bool) -> (r: Permissions)
        ensures
            r@ == (PermissionsView { read, write, execute }),
    {
        Permissions { read, write, execute }
    }

    /// Rights of a Windows page protection value: every execute protection
    /// allows execution, every read-write or write-copy protection allows
    /// writing, and every protection but no-access and guard-only allows
    /// reading.
    pub fn from_protect(protect: u32) -> (r: Permissions)
        ensures
            r@ == (PermissionsView {
                read: protect & READ_MASK != 0,
                write: protect & WRITE_MASK != 0,
                execute: protect & EXEC_MASK != 0,
            }),
    {
        Permissions {
            read: protect & READ_MASK != 0,
            write: protect & WRITE_MASK != 0,
            execute: protect & EXEC_MASK != 0,
        }
    }

    /// Whether the region can be read.
    pub fn read(&self) -> (r: bool)
        ensures
            r == self@.read,
    {
        self.read
    }

    /// Whether the region can be written.
    pub fn write(&self) -> (r: bool)
        ensures
            r == self@.write,
    {
        self.write
    }

    /// Whether the region can be executed.
    pub fn execute(&self) -> (r: bool)
        ensures
            r == self@.execute,
    {
        self.execute
    }
}

/// A mapped region as seen by specifications: the half-open interval
/// `[start, end)`, its rights and the path of the file it maps, if any.
pub struct RegionView {
    pub start: nat,
    pub end: nat,
    pub permissions: PermissionsView,
    pub path: Option<Seq<char>>,
}

/// A contiguous mapped interval of a process's address space with uniform
/// permissions.
pub struct Region {
    start: usize,
    end: usize,
    permissions: Permissions,
    path: Option<String>,
}

impl View for Region {
    type V = RegionView;

    closed spec fn view(&self) -> RegionView {
        RegionView {
            start: self.start as nat,
            end: self.end as nat,
            permissions: self.permissions@,
            path: match self.path {
                Some(p) => Some(p@),
                None => None,
            },
        }
    }
}

impl Region {
    #[verifier::type_invariant]
    spec fn bounded(&self) -> bool {
        self.start <= self.end
    }

    /// The region `[start, end)` with the given rights and mapped file.
    pub fn new(start: usize, end: usize, permissions: Permissions, path: Option<String>) -> (r:
        Region)
        requires
            start <= end,
        ensures
            r@.start == start,
            r@.end == end,
            r@.permissions == permissions@,
            r@.path == (match path {
                Some(p) => Some(p@),
                None => None::<Seq<char>>,
            }),
    {
        Region { start, end, permissions, path }
    }

    /// First address of the region.
    pub fn start(&self) -> (r: usize)
        ensures
            r == self@.start,
            self@.start <= self@.end,
    {
        proof {
            use_type_invariant(self);
        }
        self.start
    }

    /// One past the last address of the region.
    pub fn end(&self) -> (r: usize)
        ensures
            r == self@.end,
            self@.start <= self@.end,
    {
        proof {
            use_type_invariant(self);
        }
        self.end
    }

    /// Access rights of the region.
    pub fn permissions(&self) -> (r: Permissions)
        ensures
            r@ == self@.permissions,
    {
        self.permissions
    }

    /// Path of the file the region maps, if any.
    pub fn path(&self) -> (r: Option<&str>)
        ensures
            r matches Some(p) ==> self@.path == Some(p@),
            r is None ==> self@.path is None,
    {
        match &self.path {
            Some(p) => Some(p.as_str()),
            None => None,
        }
    }
}

/// Value of a hexadecimal digit, or -1 for any other byte.
pub open spec fn hex_digit_value(c: u8) -> int {
    if 48 <= c <= 57 {
        c - 48
    } else if 97 <= c <= 102 {
        c - 87
    } else if 65 <= c <= 70 {
        c - 55
    } else {
        -1
    }
}

/// Value of a string of hexadecimal digits, most significant first.
pub open spec fn hex_value(d: Seq<u8>) -> int
    decreases d.len(),
{
    if d.len() == 0 {
        0
    } else {
        hex_value(d.drop_last()) * 16 + hex_digit_value(d.last())
    }
}

/// Whether every byte of `d` is a hexadecimal digit.
pub open spec fn all_hex(d: Seq<u8>) -> bool {
    forall|i: int| 0 <= i < d.len() ==> hex_digit_value(#[trigger] d[i]) >= 0
}

/// The digits of a base-16 literal: `s` without a leading `+`.
pub open spec fn hex_digits(s: Seq<u8>) -> Seq<u8> {
    if s.len() > 0 && s[0] == 43 {
        s.drop_first()
    } else {
        s
    }
}

/// The address that `s` spells in base 16, as `usize::from_str_radix(s, 16)`
/// reads it: an optional `+`, then one or more hexadecimal digits, with the
/// value in range.
pub open spec fn hex_literal(s: Seq<u8>) -> Option<int> {
    let d = hex_digits(s);
    if d.len() == 0 || !all_hex(d) || hex_value(d) > usize::MAX {
        None
    } else {
        Some(hex_value(d))
    }
}

proof fn lemma_hex_mono(d: Seq<u8>, k: int)
    requires
        0 <= k <= d.len(),
        all_hex(d),
    ensures
        hex_value(d) >= hex_value(d.subrange(0, k)) >= 0,
    decreases d.len(),
{
    if k == d.len() {
        assert(d.subrange(0, k) =~= d);
        if d.len() > 0 {
            lemma_hex_mono(d.drop_last(), k - 1);
        }
    } else {
        assert(d.drop_last().subrange(0, k) =~= d.subrange(0, k));
        lemma_hex_mono(d.drop_last(), k);
    }
}

/// Reads `b[from..to]` as a base-16 address; see [`hex_literal`].
pub fn parse_hex(b: &[u8], from: usize, to: usize) -> (r: Option<usize>)
    requires
        from <= to <= b@.len(),
    ensures
        r matches Some(v) ==> hex_literal(b@.subrange(from as int, to as int)) == Some(v as int),
        r is None ==> hex_literal(b@.subrange(from as int, to as int)) is None,
{
    let ghost s = b@.subrange(from as int, to as int);
    let start: usize = if from < to && b[from] == 43 { from + 1 } else { from };
    let ghost d = hex_digits(s);
    assert(d =~= b@.subrange(start as int, to as int));
    if start == to {
        return None;
    }
    let mut acc: u128 = 0;
    let mut i = start;
    while i < to
        invariant
            start <= i <= to <= b@.len(),
            d == b@.subrange(start as int, to as int),
            s == b@.subrange(from as int, to as int),
            d == hex_digits(s),
            acc == hex_value(b@.subrange(start as int, i as int)),
            acc <= usize::MAX,
            forall|x: int| start <= x < i ==> hex_digit_value(#[trigger] b@[x]) >= 0,
        decreases to - i,
    {
        let c = b[i];
        let v: u128 = if 48 <= c && c <= 57 {
            (c - 48) as u128
        } else if 97 <= c && c <= 102 {
            (c - 87) as u128
        } else if 65 <= c && c <= 70 {
            (c - 55) as u128
        } else {
            assert(hex_digit_value(d[i - start]) < 0);
            return None;
        };
        assert(b@.subrange(start as int, i + 1).drop_last() =~= b@.subrange(start as int, i as int));
        acc = acc * 16 + v;
        i = i + 1;
        if acc > usize::MAX as u128 {
            proof {
                if all_hex(d) {
                    lemma_hex_mono(d, i - start);
                    assert(d.subrange(0, i - start) =~= b@.subrange(start as int, i as int));
                }
            }
            return None;
        }
    }
    assert(b@.subrange(start as int, to as int) =~= d);
    Some(acc as usize)
}

/// Index of the first `-` in `f`, if any.
pub open spec fn first_dash(f: Seq<u8>) -> Option<int> {
    if exists|k: int| 0 <= k < f.len() && f[k] == 45 {
        Some(choose|k: int| 0 <= k < f.len() && f[k] == 45 && forall|j: int| 0 <= j < k ==> f[j] != 45)
    } else {
        None
    }
}

/// The range of a maps line's first field `start-end`, split at its first `-`.
pub open spec fn maps_range(f: Seq<u8>) -> Option<(int, int)> {
    match first_dash(f) {
        Some(k) => match (hex_literal(f.subrange(0, k)), hex_literal(f.subrange(k + 1, f.len() as int))) {
            (Some(s), Some(e)) => Some((s, e)),
            _ => None,
        },
        None => None,
    }
}

/// The region that the fields of a `/proc/<pid>/maps` line describe
/// (`start-end perms offset dev inode [path]`): the bounds in base 16, the
/// rights from the first three bytes of the permission field, and the sixth
/// field as path when it starts with `/`. `None` when the line is malformed or
/// its end lies before its start.
pub open spec fn maps_region(fields: Seq<Seq<char>>) -> Option<RegionView> {
    if fields.len() < 2 {
        None
    } else {
        let perms = encode_utf8(fields[1]);
        match maps_range(encode_utf8(fields[0])) {
            Some((s, e)) => if s <= e && perms.len() >= 3 {
                Some(
                    RegionView {
                        start: s as nat,
                        end: e as nat,
                        permissions: PermissionsView {
                            read: perms[0] == 114,
                            write: perms[1] == 119,
                            execute: perms[2] == 120,
                        },
                        path: if fields.len() >= 6 && encode_utf8(fields[5]).len() > 0
                            && encode_utf8(fields[5])[0] == 47 {
                            Some(fields[5])
                        } else {
                            None
                        },
                    },
                )
            } else {
                None
            },
            None => None,
        }
    }
}

/// The texts of `fields`, in order.
pub open spec fn field_texts(fields: Seq<&str>) -> Seq<Seq<char>> {
    fields.map_values(|f: &str| f@)
}

/// Reads the region described by the whitespace-separated fields of a
/// `/proc/<pid>/maps` line; see [`maps_region`].
pub fn region_from_maps_fields(fields: &[&str]) -> (r: Option<Region>)
    ensures
        r matches Some(region) ==> maps_region(field_texts(fields@)) == Some(region@),
        r is None ==> maps_region(field_texts(fields@)) is None,
{
    let ghost texts = field_texts(fields@);
    if fields.len() < 2 {
        return None;
    }
    let range = fields[0].as_bytes();
    let perms = fields[1].as_bytes();
    assert(range@ == encode_utf8(texts[0]));
    assert(perms@ == encode_utf8(texts[1]));
    let n = range.len();
    let mut k: usize = 0;
    while k < n && range[k] != 45
        invariant
            k <= n == range@.len(),
            forall|j: int| 0 <= j < k ==> range@[j] != 45,
        decreases n - k,
    {
        k = k + 1;
    }
    if k == n {
        assert(first_dash(range@) is None);
        return None;
    }
    proof {
        let c = choose|c: int| 0 <= c < range@.len() && range@[c] == 45 && forall|j: int| 0 <= j < c ==> range@[j] != 45;
        assert(c == k) by {
            if c < k {
            } else if c > k {
                assert(range@[k as int] == 45);
            }
        }
    }
    let start = match parse_hex(range, 0, k) {
        Some(v) => v,
        None => {
            return None;
        },
    };
    let end = match parse_hex(range, k + 1, n) {
        Some(v) => v,
        None => {
            return None;
        },
    };
    if start > end || perms.len() < 3 {
        return None;
    }
    let permissions = Permissions::new(perms[0] == 114, perms[1] == 119, perms[2] == 120);
    let path = if fields.len() >= 6 {
        let p = fields[5];
        let pb = p.as_bytes();
        assert(pb@ == encode_utf8(texts[5]));
        if pb.len() > 0 && pb[0] == 47 {
            Some(p.to_owned())
        } else {
            None
        }
    } else {
        None
    };
    Some(Region::new(start, end, permissions, path))
}

/// The whitespace-separated fields of a line.
pub uninterp spec fn whitespace_fields(s: Seq<char>) -> Seq<Seq<char>>;

/// Relies on `str::split_whitespace`: the maximal runs of non-whitespace
/// characters of `line`, in order.
#[verifier::external_body]
fn split_fields(line: &str) -> (r: Vec<&str>)
    ensures
        field_texts(r@) == whitespace_fields(line@),
{
    line.split_whitespace().collect()
}

/// Reads the region described by one line of `/proc/<pid>/maps`.
pub fn parse_maps_line(line: &str) -> (r: Option<Region>)
    ensures
        r matches Some(region) ==> maps_region(whitespace_fields(line@)) == Some(region@),
        r is None ==> maps_region(whitespace_fields(line@)) is None,
{
    let fields = split_fields(line);
    region_from_maps_fields(fields.as_slice())
}

/// Windows memory state `MEM_COMMIT`.
pub const MEM_COMMIT: u32 = 0x1000;

/// Windows memory type `MEM_MAPPED`.
pub const MEM_MAPPED: u32 = 0x40000;

/// Windows memory type `MEM_IMAGE`.
pub const MEM_IMAGE: u32 = 0x100_0000;

/// Windows error `ERROR_INVALID_PARAMETER`.
pub const ERROR_INVALID_PARAMETER: i32 = 87;

/// What a walk over a Windows address space does with one answer of a
/// memory query.
pub enum WalkStep {
    /// The block is not committed: nothing is yielded.
    Skip,
    /// The block is yielded as `region`; when `wants_path`, the block maps an
    /// image or a file whose name is to be looked up for it.
    Yield { region: Region, wants_path: bool },
}

/// Decides on the queried block at `base` of `size` bytes with memory state
/// `state`, memory type `kind` and protection `protect`: only committed
/// blocks are yielded, with the rights of their protection and, for image or
/// file mappings, a request for the mapped file's name. The walk goes on at
/// `base + size`, and ends when that overflows. A committed block that
/// reaches past the end of the address space is not yielded.
pub fn walk_answer(base: usize, size: usize, state: u32, kind: u32, protect: u32) -> (r: (
    WalkStep,
    Option<usize>,
))
    ensures
        r.1 == (if base + size <= usize::MAX {
            Some((base + size) as usize)
        } else {
            None::<usize>
        }),
        (state & MEM_COMMIT == 0 || base + size > usize::MAX) ==> r.0 is Skip,
        (state & MEM_COMMIT != 0 && base + size <= usize::MAX) ==> (r.0 matches WalkStep::Yield {
            region,
            wants_path,
        } && region@ == (RegionView {
            start: base as nat,
            end: (base + size) as nat,
            permissions: PermissionsView {
                read: protect & READ_MASK != 0,
                write: protect & WRITE_MASK != 0,
                execute: protect & EXEC_MASK != 0,
            },
            path: None,
        }) && wants_path == (kind & (MEM_IMAGE | MEM_MAPPED) != 0)),
{
    let next = base.checked_add(size);
    match next {
        Some(end) => {
            if state & MEM_COMMIT == 0 {
                (WalkStep::Skip, next)
            } else {
                let region = Region::new(base, end, Permissions::from_protect(protect), None);
                (WalkStep::Yield { region, wants_path: kind & (MEM_IMAGE | MEM_MAPPED) != 0 }, next)
            }
        },
        None => (WalkStep::Skip, next),
    }
}

/// Whether a failed memory query ends the walk quietly: it does when the
/// system reports an invalid parameter, the answer past the last block;
/// any other failure is an error of the walk.
pub fn walk_ends_on_error(code: Option<i32>) -> (r: bool)
    ensures
        r == (code == Some(ERROR_INVALID_PARAMETER)),
{
    match code {
        Some(c) => c == ERROR_INVALID_PARAMETER,
        None => false,
    }
}

/// The region `region` with `path` as its mapped file.
pub fn with_path(region: Region, path: String) -> (r: Region)
    ensures
        r@ == (RegionView { path: Some(path@), ..region@ }),
{
    let start = region.start();
    let end = region.end();
    Region::new(start, end, region.permissions(), Some(path))
}

} // verus!
