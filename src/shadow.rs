//! The shadow encoding: one shadow byte per 8-byte granule of application
//! memory, addressable bytes marked most-significant bit first, and the
//! `memset`-style writes that poison and unpoison ranges of it.

use vstd::prelude::*;

verus! {

/// Offset of the shadow region: `shadow(a) = (a >> 3) + SHADOW_OFFSET`.
pub const SHADOW_OFFSET: u64 = 0x10_0000_0000;

/// The shadow byte that describes the granule holding application address `addr`.
pub open spec fn shadow_of(addr: int) -> int {
    addr / 8 + SHADOW_OFFSET as int
}

/// Bit `k` of `b`, counted from the most significant bit.
pub open spec fn msb_bit(b: u8, k: u8) -> bool {
    (b >> ((7u8 - k) as u8)) & 1u8 == 1u8
}

/// Whether shadow byte `b` marks byte `k` of its granule addressable.
pub open spec fn granule_byte_open(b: u8, k: int) -> bool {
    0 <= k < 8 && msb_bit(b, k as u8)
}

/// Whether application address `a` is addressable under the shadow contents `m`.
pub open spec fn addressable(m: spec_fn(int) -> u8, a: int) -> bool {
    granule_byte_open(m(shadow_of(a)), a % 8)
}

/// Whether every byte of `[a, a + w)` is addressable under `m`.
pub open spec fn range_addressable(m: spec_fn(int) -> u8, a: int, w: int) -> bool {
    forall|i: int| 0 <= i < w ==> #[trigger] addressable(m, a + i)
}

/// The shadow byte for a granule whose first `k` bytes are addressable (`1 <= k <= 7`).
pub open spec fn partial_granule(k: u32) -> u8 {
    ((0xffu32 << ((8u32 - k) as u32)) & 0xffu32) as u8
}

/// One `memset` on the shadow region: `len` bytes from `start` set to `value`.
#[derive(Clone, Copy, Debug, PartialEq, Eq, Structural)]
pub struct ShadowFill {
    pub start: u64,
    pub len: u64,
    pub value: u8,
}

impl ShadowFill {
    pub open spec fn covers(self, x: int) -> bool {
        self.start <= x < self.start + self.len
    }
}

/// The byte at shadow address `x` once the writes `fs` have been performed in
/// order on the contents `m`.
pub open spec fn shadow_after(m: spec_fn(int) -> u8, fs: Seq<ShadowFill>, x: int) -> u8
    decreases fs.len(),
{
    if fs.len() == 0 {
        m(x)
    } else if fs.last().covers(x) {
        fs.last().value
    } else {
        shadow_after(m, fs.drop_last(), x)
    }
}

/// The contents `m` after the writes `fs`, as a function.
pub open spec fn contents_after(m: spec_fn(int) -> u8, fs: Seq<ShadowFill>) -> spec_fn(int) -> u8 {
    |x: int| shadow_after(m, fs, x)
}

/// What `unpoison(start, size)` leaves at shadow address `x`.
pub open spec fn unpoisoned(m: spec_fn(int) -> u8, start: int, size: int, x: int) -> u8 {
    if start <= x < start + size / 8 {
        0xffu8
    } else if size % 8 != 0 && x == start + size / 8 {
        partial_granule((size % 8) as u32)
    } else {
        m(x)
    }
}

/// What `poison(start, size)` leaves at shadow address `x`: the partial tail
/// byte, if any, becomes zero as well.
pub open spec fn poisoned(m: spec_fn(int) -> u8, start: int, size: int, x: int) -> u8 {
    if start <= x < start + (size + 7) / 8 {
        0u8
    } else {
        m(x)
    }
}

/// The writes `fs` only touch shadow addresses in `[lo, hi)`.
pub open spec fn fills_within(fs: Seq<ShadowFill>, lo: int, hi: int) -> bool {
    forall|i: int|
        0 <= i < fs.len() ==> (#[trigger] fs[i]).len == 0 || (lo <= fs[i].start
            && fs[i].start + fs[i].len <= hi)
}

pub proof fn lemma_msb_bit_full(j: u8)
    requires
        j < 8,
    ensures
        msb_bit(0xffu8, j),
        !msb_bit(0u8, j),
{
    assert((0xffu8 >> ((7u8 - j) as u8)) & 1u8 == 1u8) by (bit_vector)
        requires
            j < 8,
    ;
    assert((0u8 >> ((7u8 - j) as u8)) & 1u8 == 0u8) by (bit_vector);
}

pub proof fn lemma_partial_granule_bits(k: u32, j: u8)
    requires
        1 <= k <= 7,
        j < 8,
    ensures
        msb_bit(partial_granule(k), j) <==> (j as u32) < k,
{
    assert(((((0xffu32 << ((8u32 - k) as u32)) & 0xffu32) as u8 >> ((7u8 - j) as u8)) & 1u8 == 1u8) <==> (j as u32)
        < k) by (bit_vector)
        requires
            1 <= k <= 7,
            j < 8,
    ;
}

/// Appending one write: it wins where it lands.
pub proof fn lemma_shadow_after_push(m: spec_fn(int) -> u8, fs: Seq<ShadowFill>, f: ShadowFill, x: int)
    ensures
        shadow_after(m, fs.push(f), x) == if f.covers(x) {
            f.value
        } else {
            shadow_after(m, fs, x)
        },
{
    assert(fs.push(f).drop_last() =~= fs);
}

/// Performing `a` then `b` is performing `b` on what `a` left.
pub proof fn lemma_shadow_after_concat(
    m: spec_fn(int) -> u8,
    a: Seq<ShadowFill>,
    b: Seq<ShadowFill>,
    x: int,
)
    ensures
        shadow_after(m, a + b, x) == shadow_after(contents_after(m, a), b, x),
    decreases b.len(),
{
    if b.len() == 0 {
        assert(a + b =~= a);
    } else {
        assert((a + b).drop_last() =~= a + b.drop_last());
        assert((a + b).last() == b.last());
        lemma_shadow_after_concat(m, a, b.drop_last(), x);
    }
}

/// Writes that stay within `[lo, hi)` leave every address outside it as it was.
pub proof fn lemma_shadow_after_frame(m: spec_fn(int) -> u8, fs: Seq<ShadowFill>, lo: int, hi: int, x: int)
    requires
        fills_within(fs, lo, hi),
        x < lo || hi <= x,
    ensures
        shadow_after(m, fs, x) == m(x),
    decreases fs.len(),
{
    if fs.len() > 0 {
        assert(fs[fs.len() - 1] == fs.last());
        assert(fills_within(fs.drop_last(), lo, hi)) by {
            assert forall|i: int| 0 <= i < fs.drop_last().len() implies (#[trigger] fs.drop_last()[i]).len
                == 0 || (lo <= fs.drop_last()[i].start && fs.drop_last()[i].start
                + fs.drop_last()[i].len <= hi) by {
                assert(fs.drop_last()[i] == fs[i]);
            }
        }
        lemma_shadow_after_frame(m, fs.drop_last(), lo, hi, x);
    }
}

/// Within a granule-aligned block, moving `d` bytes on moves `d / 8` shadow bytes on.
pub proof fn lemma_shadow_of_offset(base: int, d: int)
    requires
        base % 8 == 0,
        d >= 0,
    ensures
        shadow_of(base + d) == shadow_of(base) + d / 8,
        (base + d) % 8 == d % 8,
{
    assert((base + d) / 8 == base / 8 + d / 8 && (base + d) % 8 == d % 8) by (nonlinear_arith)
        requires
            base % 8 == 0,
            d >= 0,
    ;
}

/// After `unpoison` of `n` bytes at the shadow of the granule-aligned address
/// `s`, the first `n` bytes are addressable and the rest of the last granule is not.
pub proof fn lemma_unpoisoned_addressable(m: spec_fn(int) -> u8, m2: spec_fn(int) -> u8, s: int, n: int, i: int)
    requires
        s % 8 == 0,
        n >= 0,
        0 <= i < 8 * ((n + 7) / 8),
        forall|x: int| shadow_of(s) <= x < shadow_of(s) + (n + 7) / 8 ==> #[trigger] m2(x) == unpoisoned(m, shadow_of(s), n, x),
    ensures
        addressable(m2, s + i) <==> i < n,
{
    lemma_shadow_of_offset(s, i);
    let x = shadow_of(s + i);
    assert(i / 8 < (n + 7) / 8) by (nonlinear_arith)
        requires
            0 <= i < 8 * ((n + 7) / 8),
    ;
    assert(m2(x) == unpoisoned(m, shadow_of(s), n, x));
    let j = (i % 8) as u8;
    if i / 8 < n / 8 {
        lemma_msb_bit_full(j);
        assert(i < n) by (nonlinear_arith)
            requires
                i / 8 < n / 8,
                i >= 0,
                n >= 0,
        ;
    } else {
        assert(i / 8 == n / 8 && n % 8 != 0) by (nonlinear_arith)
            requires
                i / 8 >= n / 8,
                i / 8 < (n + 7) / 8,
                n >= 0,
        ;
        lemma_partial_granule_bits((n % 8) as u32, j);
        assert((i % 8 < n % 8) <==> i < n) by (nonlinear_arith)
            requires
                i / 8 == n / 8,
                i >= 0,
                n >= 0,
        ;
    }
}

/// After `poison` of `n` bytes at the shadow of the granule-aligned address
/// `s`, no byte of the granules it covers is addressable.
pub proof fn lemma_poisoned_unaddressable(m: spec_fn(int) -> u8, m2: spec_fn(int) -> u8, s: int, n: int, i: int)
    requires
        s % 8 == 0,
        n >= 0,
        0 <= i < 8 * ((n + 7) / 8),
        forall|x: int| shadow_of(s) <= x < shadow_of(s) + (n + 7) / 8 ==> #[trigger] m2(x) == poisoned(m, shadow_of(s), n, x),
    ensures
        !addressable(m2, s + i),
{
    lemma_shadow_of_offset(s, i);
    let x = shadow_of(s + i);
    assert(i / 8 < (n + 7) / 8) by (nonlinear_arith)
        requires
            0 <= i < 8 * ((n + 7) / 8),
    ;
    assert(m2(x) == poisoned(m, shadow_of(s), n, x));
    lemma_msb_bit_full((i % 8) as u8);
}

/// Unpoisoning `n` bytes and poisoning them again leaves a fully poisoned
/// stretch of shadow as it was, byte for byte, except the partial tail byte:
/// that one ends zero whatever it held before.
pub proof fn law_unpoison_poison_round_trip(
    m: spec_fn(int) -> u8,
    start: int,
    n: int,
    unpoison_fills: Seq<ShadowFill>,
    poison_fills: Seq<ShadowFill>,
    x: int,
)
    requires
        n >= 0,
        forall|y: int| start <= y < start + n / 8 ==> #[trigger] m(y) == 0,
        forall|m: spec_fn(int) -> u8, y: int|
            #[trigger] shadow_after(m, unpoison_fills, y) == unpoisoned(m, start, n, y),
        forall|m: spec_fn(int) -> u8, y: int|
            #[trigger] shadow_after(m, poison_fills, y) == poisoned(m, start, n, y),
    ensures
        shadow_after(contents_after(m, unpoison_fills), poison_fills, x) == if n % 8 != 0 && x
            == start + n / 8 {
            0u8
        } else {
            m(x)
        },
{
    if start <= x < start + n / 8 {
        assert(m(x) == 0);
    }
}

/// The value of the tail byte written for a granule holding `size % 8` live bytes.
pub fn partial_granule_byte(k: u64) -> (r: u8)
    requires
        1 <= k <= 7,
    ensures
        r == partial_granule(k as u32),
{
    let k32: u32 = k as u32;
    ((0xffu32 << (8u32 - k32)) & 0xffu32) as u8
}

/// The writes that mark `size` application bytes addressable, their shadow
/// starting at `start`: `size / 8` bytes of `0xff`, then the partial tail byte.
pub fn unpoison(start: u64, size: u64) -> (r: Vec<ShadowFill>)
    requires
        start + size / 8 < u64::MAX,
    ensures
        forall|m: spec_fn(int) -> u8, x: int|
            #[trigger] shadow_after(m, r@, x) == unpoisoned(m, start as int, size as int, x),
        fills_within(r@, start as int, start + (size + 7) / 8),
{
    let mut r: Vec<ShadowFill> = Vec::new();
    r.push(ShadowFill { start, len: size / 8, value: 0xff });
    let remainder: u64 = size % 8;
    if remainder > 0 {
        r.push(ShadowFill { start: start + size / 8, len: 1, value: partial_granule_byte(remainder) });
    }
    proof {
        assert forall|m: spec_fn(int) -> u8, x: int|
            #[trigger] shadow_after(m, r@, x) == unpoisoned(m, start as int, size as int, x) by {
            let f0 = ShadowFill { start, len: (size / 8) as u64, value: 0xffu8 };
            lemma_shadow_after_push(m, Seq::<ShadowFill>::empty(), f0, x);
            assert(seq![f0] =~= Seq::<ShadowFill>::empty().push(f0));
            assert(shadow_after(m, Seq::<ShadowFill>::empty(), x) == m(x));
            if remainder > 0 {
                lemma_shadow_after_push(m, seq![f0], r@.last(), x);
                assert(r@ =~= seq![f0].push(r@.last()));
            } else {
                assert(r@ =~= seq![f0]);
            }
        }
    }
    r
}

/// The writes that mark `size` application bytes unaddressable, their shadow
/// starting at `start`: `size / 8` zero bytes, then one more zero byte when
/// `size % 8 != 0`.
pub fn poison(start: u64, size: u64) -> (r: Vec<ShadowFill>)
    requires
        start + size / 8 < u64::MAX,
    ensures
        forall|m: spec_fn(int) -> u8, x: int|
            #[trigger] shadow_after(m, r@, x) == poisoned(m, start as int, size as int, x),
        fills_within(r@, start as int, start + (size + 7) / 8),
{
    let mut r: Vec<ShadowFill> = Vec::new();
    r.push(ShadowFill { start, len: size / 8, value: 0 });
    let remainder: u64 = size % 8;
    if remainder > 0 {
        r.push(ShadowFill { start: start + size / 8, len: 1, value: 0 });
    }
    proof {
        assert forall|m: spec_fn(int) -> u8, x: int|
            #[trigger] shadow_after(m, r@, x) == poisoned(m, start as int, size as int, x) by {
            let f0 = ShadowFill { start, len: (size / 8) as u64, value: 0u8 };
            lemma_shadow_after_push(m, Seq::<ShadowFill>::empty(), f0, x);
            assert(seq![f0] =~= Seq::<ShadowFill>::empty().push(f0));
            if remainder > 0 {
                lemma_shadow_after_push(m, seq![f0], r@.last(), x);
                assert(r@ =~= seq![f0].push(r@.last()));
            } else {
                assert(r@ =~= seq![f0]);
            }
        }
    }
    r
}

} // verus!
