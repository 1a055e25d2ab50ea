//! The process's memory map: parsing the lines of `/proc/self/maps`, and
//! finding the mapping that holds an address or a library.

use vstd::prelude::*;

verus! {

/// One line of the process's memory map.
pub struct MapsEntry {
    pub start: u64,
    pub end: u64,
    pub perms: Vec<u8>,
    pub path: Vec<u8>,
}

/// Character classes of the line format: 0 is a lowercase hexadecimal
/// digit, 1 a decimal digit, 2 ASCII whitespace.
pub open spec fn in_class(class: u8, c: u8) -> bool {
    if class == 0 {
        (48 <= c <= 57) || (97 <= c <= 102)
    } else if class == 1 {
        48 <= c <= 57
    } else {
        c == 32 || (9 <= c <= 13)
    }
}

/// A permission character: `-`, `r`, `w`, `x` or `p`.
pub open spec fn is_perm(c: u8) -> bool {
    c == 45 || c == 114 || c == 119 || c == 120 || c == 112
}

/// Length of the longest run of `class` characters in `s` from `i` on.
pub open spec fn run(s: Seq<u8>, i: int, class: u8) -> int
    decreases s.len() - i,
{
    if i < 0 || i >= s.len() || !in_class(class, s[i]) {
        0
    } else {
        1 + run(s, i + 1, class)
    }
}

/// The value of a hexadecimal digit.
pub open spec fn hex_digit_value(c: u8) -> int {
    if c <= 57 {
        c - 48
    } else {
        c - 87
    }
}

/// The value of a string of hexadecimal digits.
pub open spec fn hex_value(s: Seq<u8>) -> int
    decreases s.len(),
{
    if s.len() == 0 {
        0
    } else {
        hex_value(s.drop_last()) * 16 + hex_digit_value(s.last())
    }
}

/// Whether `s[i]` exists and is `c`.
pub open spec fn byte_at(s: Seq<u8>, i: int, c: u8) -> bool {
    0 <= i < s.len() && s[i] == c
}

/// A line of the memory map, read as the pattern
/// `^START-END PERM OFFSET DEV:DEV INODE\s+PATH$` reads it: `START` and `END` of
/// 8 to 16 hexadecimal digits, `PERM` four permission characters, `OFFSET`
/// exactly 8 hexadecimal digits, the device numbers hexadecimal, the inode
/// decimal, `PATH` the rest after the whitespace, without a line feed.
/// Gives start, end, permissions and path.
pub open spec fn maps_line(s: Seq<u8>) -> Option<(int, int, Seq<u8>, Seq<u8>)> {
    let a = run(s, 0, 0);
    let b0 = a + 1;
    let b = run(s, b0, 0);
    let p0 = b0 + b + 1;
    let o0 = p0 + 5;
    let d0 = o0 + 9;
    let d = run(s, d0, 0);
    let e0 = d0 + d + 1;
    let e = run(s, e0, 0);
    let i0 = e0 + e + 1;
    let n = run(s, i0, 1);
    let w0 = i0 + n;
    let w = run(s, w0, 2);
    let q0 = w0 + w;
    if 8 <= a <= 16 && byte_at(s, a, 45) && 8 <= b <= 16 && byte_at(s, b0 + b, 32) && p0 + 4
        < s.len() && (forall|k: int| 0 <= k < 4 ==> is_perm(#[trigger] s[p0 + k])) && s[p0 + 4]
        == 32 && o0 + 8 < s.len() && (forall|k: int| 0 <= k < 8 ==> in_class(0, #[trigger] s[o0 + k]))
        && s[o0 + 8] == 32 && d >= 1 && byte_at(s, d0 + d, 58) && e >= 1 && byte_at(s, e0 + e, 32)
        && n >= 1 && w >= 1 && (forall|k: int| q0 <= k < s.len() ==> #[trigger] s[k] != 10) {
        Some((hex_value(s.subrange(0, a)), hex_value(s.subrange(b0, b0 + b)), s.subrange(p0, p0 + 4), s.subrange(q0, s.len() as int)))
    } else {
        None
    }
}

/// `16` to the power `n`.
pub open spec fn pow16(n: nat) -> nat
    decreases n,
{
    if n == 0 {
        1
    } else {
        16 * pow16((n - 1) as nat)
    }
}

proof fn lemma_pow16_bound(n: nat)
    requires
        n <= 16,
    ensures
        pow16(n) <= 0x1_0000_0000_0000_0000,
{
    lemma_pow16_mono(n, 16);
    reveal_with_fuel(pow16, 17);
}

proof fn lemma_pow16_mono(a: nat, b: nat)
    requires
        a <= b,
    ensures
        pow16(a) <= pow16(b),
    decreases b - a,
{
    if a < b {
        lemma_pow16_mono(a, (b - 1) as nat);
    }
}

fn class_has(class: u8, c: u8) -> (r: bool)
    ensures
        r == in_class(class, c),
{
    if class == 0 {
        (48 <= c && c <= 57) || (97 <= c && c <= 102)
    } else if class == 1 {
        48 <= c && c <= 57
    } else {
        c == 32 || (9 <= c && c <= 13)
    }
}

fn run_len(s: &Vec<u8>, i: usize, class: u8) -> (r: usize)
    requires
        i <= s@.len(),
    ensures
        r == run(s@, i as int, class),
        i + r <= s@.len(),
    decreases s@.len() - i,
{
    if i >= s.len() || !class_has(class, s[i]) {
        0
    } else {
        1 + run_len(s, i + 1, class)
    }
}

/// Every character of a run is of its class.
proof fn lemma_run_members(s: Seq<u8>, i: int, class: u8, k: int)
    requires
        0 <= i,
        i <= k < i + run(s, i, class),
    ensures
        in_class(class, s[k]),
    decreases s.len() - i,
{
    if k > i {
        lemma_run_members(s, i + 1, class, k);
    }
}

fn hex_number(s: &Vec<u8>, from: usize, to: usize) -> (r: u64)
    requires
        from <= to <= s@.len(),
        to - from <= 16,
        forall|k: int| from <= k < to ==> in_class(0, #[trigger] s@[k]),
    ensures
        r == hex_value(s@.subrange(from as int, to as int)),
{
    let mut acc: u64 = 0;
    let mut k: usize = from;
    while k < to
        invariant
            from <= k <= to,
            to <= s@.len(),
            to - from <= 16,
            forall|j: int| from <= j < to ==> in_class(0, #[trigger] s@[j]),
            acc == hex_value(s@.subrange(from as int, k as int)),
            acc < pow16((k - from) as nat),
        decreases to - k,
    {
        let c = s[k];
        assert(in_class(0, s@[k as int]));
        let digit: u64 = if c <= 57 {
            (c - 48) as u64
        } else {
            (c - 87) as u64
        };
        proof {
            lemma_pow16_bound((k + 1 - from) as nat);
            assert(acc * 16 + digit < pow16((k + 1 - from) as nat)) by (nonlinear_arith)
                requires
                    acc < pow16((k - from) as nat),
                    digit < 16,
                    pow16((k + 1 - from) as nat) == 16 * pow16((k - from) as nat),
            ;
            assert(s@.subrange(from as int, k + 1).drop_last() =~= s@.subrange(from as int, k as int));
        }
        acc = acc * 16 + digit;
        k = k + 1;
    }
    acc
}

/// Reads one line of the memory map; `None` where the line does not have the
/// expected shape.
#[verifier::loop_isolation(false)]
pub fn parse_maps_line(line: &Vec<u8>) -> (r: Option<MapsEntry>)
    ensures
        match maps_line(line@) {
            Some(f) => r matches Some(e) && e.start == f.0 && e.end == f.1 && e.perms@ == f.2
                && e.path@ == f.3,
            None => r is None,
        },
{
    let s = line;
    let len = s.len();
    let a = run_len(s, 0, 0);
    if !(8 <= a && a <= 16 && a < len && s[a] == 45) {
        return None;
    }
    let b0 = a + 1;
    let b = run_len(s, b0, 0);
    if !(8 <= b && b <= 16 && b0 + b < len && s[b0 + b] == 32) {
        return None;
    }
    let p0 = b0 + b + 1;
    if !(p0 + 4 < len) {
        return None;
    }
    let mut k: usize = 0;
    while k < 4
        invariant
            k <= 4,
            p0 + 4 < s@.len(),
            forall|j: int| 0 <= j < k ==> is_perm(#[trigger] s@[p0 + j]),
        decreases 4 - k,
    {
        let c = s[p0 + k];
        if !(c == 45 || c == 114 || c == 119 || c == 120 || c == 112) {
            assert(!is_perm(s@[p0 + k]));
            return None;
        }
        k = k + 1;
    }
    if s[p0 + 4] != 32 {
        return None;
    }
    let o0 = p0 + 5;
    if !(o0 + 8 < len) {
        return None;
    }
    let mut k: usize = 0;
    while k < 8
        invariant
            k <= 8,
            o0 + 8 < s@.len(),
            forall|j: int| 0 <= j < k ==> in_class(0, #[trigger] s@[o0 + j]),
        decreases 8 - k,
    {
        if !class_has(0, s[o0 + k]) {
            assert(!in_class(0, s@[o0 + k]));
            return None;
        }
        k = k + 1;
    }
    if s[o0 + 8] != 32 {
        return None;
    }
    let d0 = o0 + 9;
    let d = run_len(s, d0, 0);
    if !(d >= 1 && d0 + d < len && s[d0 + d] == 58) {
        return None;
    }
    let e0 = d0 + d + 1;
    let e = run_len(s, e0, 0);
    if !(e >= 1 && e0 + e < len && s[e0 + e] == 32) {
        return None;
    }
    let i0 = e0 + e + 1;
    let n = run_len(s, i0, 1);
    if n < 1 {
        return None;
    }
    let w0 = i0 + n;
    let w = run_len(s, w0, 2);
    if w < 1 {
        return None;
    }
    let q0 = w0 + w;
    let mut k: usize = q0;
    while k < len
        invariant
            q0 <= k <= len,
            len == s@.len(),
            forall|j: int| q0 <= j < k ==> #[trigger] s@[j] != 10,
        decreases len - k,
    {
        if s[k] == 10 {
            assert(s@[k as int] == 10);
            return None;
        }
        k = k + 1;
    }
    proof {
        assert forall|j: int| 0 <= j < a implies in_class(0, #[trigger] s@[j]) by {
            lemma_run_members(s@, 0, 0, j);
        }
        assert forall|j: int| b0 <= j < b0 + b implies in_class(0, #[trigger] s@[j]) by {
            lemma_run_members(s@, b0 as int, 0, j);
        }
    }
    let start = hex_number(s, 0, a);
    let end = hex_number(s, b0, b0 + b);
    let mut perms: Vec<u8> = Vec::new();
    let mut k: usize = p0;
    while k < p0 + 4
        invariant
            p0 <= k <= p0 + 4,
            p0 + 4 < s@.len(),
            perms@ == s@.subrange(p0 as int, k as int),
        decreases p0 + 4 - k,
    {
        perms.push(s[k]);
        assert(s@.subrange(p0 as int, k + 1) =~= s@.subrange(p0 as int, k as int).push(s@[k as int]));
        k = k + 1;
    }
    let mut path: Vec<u8> = Vec::new();
    let mut k: usize = q0;
    while k < len
        invariant
            q0 <= k <= len,
            len == s@.len(),
            path@ == s@.subrange(q0 as int, k as int),
        decreases len - k,
    {
        path.push(s[k]);
        assert(s@.subrange(q0 as int, k + 1) =~= s@.subrange(q0 as int, k as int).push(s@[k as int]));
        k = k + 1;
    }
    Some(MapsEntry { start, end, perms, path })
}

/// Index of the first mapping that contains `addr`, if any.
pub open spec fn first_containing(maps: Seq<MapsEntry>, addr: u64) -> Option<int>
    decreases maps.len(),
{
    if maps.len() == 0 {
        None
    } else {
        match first_containing(maps.drop_last(), addr) {
            Some(i) => Some(i),
            None => if maps.last().start <= addr < maps.last().end {
                Some(maps.len() - 1)
            } else {
                None
            },
        }
    }
}

/// The span `mapping_for_library` reports for the mappings of `path`: the
/// start of the first of them (the first whose start is not zero, if the
/// earlier ones start at zero), the end of the last; zeros where none.
pub open spec fn library_span(maps: Seq<MapsEntry>, path: Seq<u8>) -> (u64, u64)
    decreases maps.len(),
{
    if maps.len() == 0 {
        (0, 0)
    } else {
        let (s, e) = library_span(maps.drop_last(), path);
        if maps.last().path@ == path {
            (if s == 0 {
                maps.last().start
            } else {
                s
            }, maps.last().end)
        } else {
            (s, e)
        }
    }
}

/// Start and end of the first mapping that contains `address`; `(0, 0)` if none does.
pub fn mapping_containing(maps: &Vec<MapsEntry>, address: u64) -> (r: (u64, u64))
    ensures
        r == (match first_containing(maps@, address) {
            Some(i) => (maps@[i].start, maps@[i].end),
            None => (0u64, 0u64),
        }),
{
    let mut i: usize = 0;
    while i < maps.len()
        invariant
            i <= maps@.len(),
            first_containing(maps@.subrange(0, i as int), address) == None::<int>,
        decreases maps.len() - i,
    {
        assert(maps@.subrange(0, i + 1).drop_last() =~= maps@.subrange(0, i as int));
        if maps[i].start <= address && address < maps[i].end {
            proof {
                lemma_first_containing_prefix(maps@, (i + 1) as int, address);
            }
            return (maps[i].start, maps[i].end);
        }
        i = i + 1;
    }
    assert(maps@.subrange(0, maps@.len() as int) =~= maps@);
    (0, 0)
}

/// A first match within a prefix is the first match of the whole.
proof fn lemma_first_containing_prefix(maps: Seq<MapsEntry>, n: int, addr: u64)
    requires
        0 <= n <= maps.len(),
        first_containing(maps.subrange(0, n), addr) is Some,
    ensures
        first_containing(maps, addr) == first_containing(maps.subrange(0, n), addr),
    decreases maps.len() - n,
{
    if n < maps.len() {
        assert(maps.subrange(0, n + 1).drop_last() =~= maps.subrange(0, n));
        lemma_first_containing_prefix(maps, n + 1, addr);
    } else {
        assert(maps.subrange(0, n) =~= maps);
    }
}

pub proof fn lemma_first_containing_found(maps: Seq<MapsEntry>, addr: u64)
    ensures
        first_containing(maps, addr) matches Some(i) ==> 0 <= i < maps.len() && maps[i].start <= addr
            < maps[i].end,
    decreases maps.len(),
{
    if maps.len() > 0 {
        lemma_first_containing_found(maps.drop_last(), addr);
    }
}

fn bytes_equal(a: &Vec<u8>, b: &Vec<u8>) -> (r: bool)
    ensures
        r == (a@ == b@),
{
    if a.len() != b.len() {
        return false;
    }
    let mut i: usize = 0;
    while i < a.len()
        invariant
            a@.len() == b@.len(),
            i <= a@.len(),
            forall|j: int| 0 <= j < i ==> a@[j] == b@[j],
        decreases a.len() - i,
    {
        if a[i] != b[i] {
            return false;
        }
        i = i + 1;
    }
    assert(a@ =~= b@);
    true
}

/// Start of the first and end of the last mapping of the file `libpath`.
pub fn mapping_for_library(maps: &Vec<MapsEntry>, libpath: &Vec<u8>) -> (r: (u64, u64))
    ensures
        r == library_span(maps@, libpath@),
{
    let mut libstart: u64 = 0;
    let mut libend: u64 = 0;
    let mut i: usize = 0;
    while i < maps.len()
        invariant
            i <= maps@.len(),
            (libstart, libend) == library_span(maps@.subrange(0, i as int), libpath@),
        decreases maps.len() - i,
    {
        assert(maps@.subrange(0, i + 1).drop_last() =~= maps@.subrange(0, i as int));
        if bytes_equal(&maps[i].path, libpath) {
            if libstart == 0 {
                libstart = maps[i].start;
            }
            libend = maps[i].end;
        }
        i = i + 1;
    }
    assert(maps@.subrange(0, maps@.len() as int) =~= maps@);
    (libstart, libend)
}

} // verus!
