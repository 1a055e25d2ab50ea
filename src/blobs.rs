//! The access-check code blobs: for each access width `w` in 1, 2, 4, 8 and
//! 16 bytes, a short AArch64 sequence that takes the access address in `x0`,
//! loads the two shadow bytes from `(x0 >> 3) + SHADOW_OFFSET`, brings the
//! granule's bits into address order and tests bit `log2(w)` of them at the
//! address's offset; if it is clear, `brk #log2(w)`.

use vstd::prelude::*;
use crate::shadow::{
    msb_bit, shadow_of, addressable, range_addressable,
};

verus! {

/// `movz xd, #imm`.
pub open spec fn enc_movz_x(rd: u32, imm16: u32) -> u32 {
    0xd280_0000u32 | (imm16 << 5u32) | rd
}

/// `add xd, xn, xm, <shift> #amount`; shift 0 is LSL, 1 is LSR.
pub open spec fn enc_add_shifted_x(rd: u32, rn: u32, rm: u32, shift: u32, amount: u32) -> u32 {
    0x8b00_0000u32 | (shift << 22u32) | (rm << 16u32) | (amount << 10u32) | (rn << 5u32) | rd
}

/// `ldrh wt, [xn, #2 * imm12]`.
pub open spec fn enc_ldrh_imm(rt: u32, rn: u32, imm12: u32) -> u32 {
    0x7940_0000u32 | (imm12 << 10u32) | (rn << 5u32) | rt
}

/// `and xd, xn, #mask`, the mask given as its `N:immr:imms` fields.
pub open spec fn enc_and_imm_x(rd: u32, rn: u32, n: u32, immr: u32, imms: u32) -> u32 {
    0x9200_0000u32 | (n << 22u32) | (immr << 16u32) | (imms << 10u32) | (rn << 5u32) | rd
}

/// `rev16 wd, wn`.
pub open spec fn enc_rev16_w(rd: u32, rn: u32) -> u32 {
    0x5ac0_0400u32 | (rn << 5u32) | rd
}

/// `rbit wd, wn`.
pub open spec fn enc_rbit_w(rd: u32, rn: u32) -> u32 {
    0x5ac0_0000u32 | (rn << 5u32) | rd
}

/// `lsr xd, xn, #shift` (an alias of `ubfm xd, xn, #shift, #63`).
pub open spec fn enc_lsr_imm_x(rd: u32, rn: u32, shift: u32) -> u32 {
    0xd340_0000u32 | (shift << 16u32) | (63u32 << 10u32) | (rn << 5u32) | rd
}

/// `lsr xd, xn, xm` (`lsrv`).
pub open spec fn enc_lsr_reg_x(rd: u32, rn: u32, rm: u32) -> u32 {
    0x9ac0_2400u32 | (rm << 16u32) | (rn << 5u32) | rd
}

/// `tbnz rt, #bit, .+4*imm14` for a bit below 32.
pub open spec fn enc_tbnz(rt: u32, bit: u32, imm14: u32) -> u32 {
    0x3700_0000u32 | (bit << 19u32) | (imm14 << 5u32) | rt
}

/// `brk #imm`.
pub open spec fn enc_brk(imm16: u32) -> u32 {
    0xd420_0000u32 | (imm16 << 5u32)
}

/// The instruction words of the check for accesses of `1 << bit` bytes.
pub open spec fn check_words(bit: u32) -> Seq<u32> {
    seq![
        enc_movz_x(1, 1),
        enc_add_shifted_x(1, 31, 1, 0, 36),
        enc_add_shifted_x(1, 1, 0, 1, 3),
        enc_ldrh_imm(1, 1, 0),
        enc_and_imm_x(0, 0, 1, 0, 2),
        enc_rev16_w(1, 1),
        enc_rbit_w(1, 1),
        enc_lsr_imm_x(1, 1, 16),
        enc_lsr_reg_x(1, 1, 0),
        enc_tbnz(1, bit, 2),
        enc_brk(bit),
    ]
}

/// Instruction words laid out as little-endian bytes.
pub open spec fn le_bytes(words: Seq<u32>) -> Seq<u8> {
    Seq::new(4 * words.len(), |j: int| ((words[j / 4] >> (8 * (j % 4)) as u32) & 0xffu32) as u8)
}

/// What `rev16 w` makes of a 32-bit value: the bytes of each halfword swapped.
pub open spec fn rev16(x: u32) -> u32 {
    ((x & 0x00ff_00ffu32) << 8u32) | ((x >> 8u32) & 0x00ff_00ffu32)
}

/// What `rbit w` makes of a 32-bit value: its bits in reverse order.
pub open spec fn rbit32(x: u32) -> u32 {
    (((x >> 0u32) & 1u32) << 31u32) | (((x >> 1u32) & 1u32) << 30u32) | (((x >> 2u32) & 1u32) << 29u32) | (((x >> 3u32) & 1u32) << 28u32)
        | (((x >> 4u32) & 1u32) << 27u32) | (((x >> 5u32) & 1u32) << 26u32) | (((x >> 6u32) & 1u32) << 25u32) | (((x >> 7u32) & 1u32) << 24u32)
        | (((x >> 8u32) & 1u32) << 23u32) | (((x >> 9u32) & 1u32) << 22u32) | (((x >> 10u32) & 1u32) << 21u32) | (((x >> 11u32) & 1u32) << 20u32)
        | (((x >> 12u32) & 1u32) << 19u32) | (((x >> 13u32) & 1u32) << 18u32) | (((x >> 14u32) & 1u32) << 17u32) | (((x >> 15u32) & 1u32) << 16u32)
        | (((x >> 16u32) & 1u32) << 15u32) | (((x >> 17u32) & 1u32) << 14u32) | (((x >> 18u32) & 1u32) << 13u32) | (((x >> 19u32) & 1u32) << 12u32)
        | (((x >> 20u32) & 1u32) << 11u32) | (((x >> 21u32) & 1u32) << 10u32) | (((x >> 22u32) & 1u32) << 9u32) | (((x >> 23u32) & 1u32) << 8u32)
        | (((x >> 24u32) & 1u32) << 7u32) | (((x >> 25u32) & 1u32) << 6u32) | (((x >> 26u32) & 1u32) << 5u32) | (((x >> 27u32) & 1u32) << 4u32)
        | (((x >> 28u32) & 1u32) << 3u32) | (((x >> 29u32) & 1u32) << 2u32) | (((x >> 30u32) & 1u32) << 1u32) | (((x >> 31u32) & 1u32) << 0u32)
}

/// The value in `x1` when the check reaches `tbnz`: bit `j` tells whether byte
/// `j` after `addr` is addressable, `lo` and `hi` being the two shadow bytes
/// loaded from `(addr >> 3) + SHADOW_OFFSET`.
pub open spec fn probe_bits(addr: u64, lo: u8, hi: u8) -> u64 {
    ((rbit32(rev16((lo as u32) | ((hi as u32) << 8u32))) as u64) >> 16u64) >> (addr & 7u64)
}

/// Whether the check for accesses of `1 << bit` bytes at `addr` reaches `brk`.
pub open spec fn check_traps(addr: u64, lo: u8, hi: u8, bit: u64) -> bool {
    (probe_bits(addr, lo, hi) >> bit) & 1u64 == 0u64
}

/// The shadow address the check loads from: `(1 << 36) + (addr >> 3)`.
proof fn lemma_check_loads_shadow(addr: u64)
    ensures
        (1u64 << 36u64) + (addr >> 3u64) == shadow_of(addr as int),
{
    assert((1u64 << 36u64) == 0x10_0000_0000u64) by (bit_vector);
    assert((addr >> 3u64) == addr / 8) by (bit_vector);
}

proof fn lemma_probe_bit(lo: u8, hi: u8, addr: u64, bit: u64)
    requires
        bit <= 4,
    ensures
        ((probe_bits(addr, lo, hi) >> bit) & 1u64 == 1u64) <==> (if (addr & 7u64) + bit < 8 {
            msb_bit(lo, ((addr & 7u64) + bit) as u8)
        } else {
            msb_bit(hi, ((addr & 7u64) + bit - 8) as u8)
        }),
{
    let o = addr & 7u64;
    assert(o < 8) by (bit_vector)
        requires
            o == addr & 7u64,
    ;
    let x = (lo as u32) | ((hi as u32) << 8u32);
    let v = (rbit32(rev16(x)) as u64) >> 16u64;
    assert(probe_bits(addr, lo, hi) == v >> o);
    assert((((v >> o) >> bit) & 1u64 == 1u64) <==> (if o + bit < 8 {
        msb_bit(lo, (o + bit) as u8)
    } else {
        msb_bit(hi, (o + bit - 8) as u8)
    })) by (bit_vector)
        requires
            bit <= 4,
            o < 8,
            x == (lo as u32) | ((hi as u32) << 8u32),
            v == (rbit32(rev16(x)) as u64) >> 16u64,
    ;
}

/// The check for accesses of `1 << bit` bytes at `addr` loads the shadow of
/// `addr` and traps exactly when byte `bit` after `addr` is unaddressable.
pub proof fn law_check_probe(m: spec_fn(int) -> u8, addr: u64, bit: u64)
    requires
        bit <= 4,
    ensures
        (1u64 << 36u64) + (addr >> 3u64) == shadow_of(addr as int),
        check_traps(addr, m(shadow_of(addr as int)), m(shadow_of(addr as int) + 1), bit)
            <==> !addressable(m, addr + bit),
{
    lemma_check_loads_shadow(addr);
    let lo = m(shadow_of(addr as int));
    let hi = m(shadow_of(addr as int) + 1);
    lemma_probe_bit(lo, hi, addr, bit);
    let y = probe_bits(addr, lo, hi) >> bit;
    assert((y & 1u64 == 0u64) <==> !(y & 1u64 == 1u64)) by (bit_vector);
    assert((addr & 7u64) == addr % 8) by (bit_vector);
    let o = addr % 8;
    assert((addr + bit) / 8 == addr / 8 + (o + bit) / 8);
    assert((addr + bit) % 8 == (o + bit) % 8);
    if o + bit < 8 {
        assert(shadow_of(addr + bit) == shadow_of(addr as int));
        assert((addr + bit) % 8 == o + bit);
        assert(addressable(m, addr + bit) == msb_bit(lo, (o + bit) as u8));
    } else {
        assert(shadow_of(addr + bit) == shadow_of(addr as int) + 1);
        assert((addr + bit) % 8 == o + bit - 8);
        assert(addressable(m, addr + bit) == msb_bit(hi, (o + bit - 8) as u8));
    }
}

/// A check that traps is right to: the access it guards touches an
/// unaddressable byte.
pub proof fn law_check_sound(m: spec_fn(int) -> u8, addr: u64, bit: u64)
    requires
        bit <= 4,
        check_traps(addr, m(shadow_of(addr as int)), m(shadow_of(addr as int) + 1), bit),
    ensures
        !range_addressable(m, addr as int, (1u64 << bit) as int),
{
    law_check_probe(m, addr, bit);
    assert(bit < (1u64 << bit)) by (bit_vector)
        requires
            bit <= 4,
    ;
    assert(!addressable(m, addr + bit));
}

/// For one-byte accesses the check traps exactly when the access is invalid.
pub proof fn law_check_byte_exact(m: spec_fn(int) -> u8, addr: u64)
    ensures
        check_traps(addr, m(shadow_of(addr as int)), m(shadow_of(addr as int) + 1), 0)
            <==> !range_addressable(m, addr as int, 1),
{
    law_check_probe(m, addr, 0);
    assert(addr + 0 == addr as int);
    if !addressable(m, addr as int) {
        assert(!addressable(m, addr as int + 0));
    }
}

fn emit_word(buf: &mut Vec<u8>, w: u32)
    ensures
        final(buf)@ == old(buf)@ + seq![
            (w & 0xffu32) as u8,
            ((w >> 8u32) & 0xffu32) as u8,
            ((w >> 16u32) & 0xffu32) as u8,
            ((w >> 24u32) & 0xffu32) as u8,
        ],
{
    buf.push((w & 0xff) as u8);
    buf.push(((w >> 8) & 0xff) as u8);
    buf.push(((w >> 16) & 0xff) as u8);
    buf.push(((w >> 24) & 0xff) as u8);
}

/// The machine code of the check for accesses of `1 << bit` bytes.
pub fn generate_check_blob(bit: u32) -> (r: Vec<u8>)
    requires
        bit <= 4,
    ensures
        r@ == le_bytes(check_words(bit)),
{
    let words: Vec<u32> = vec![
        0xd280_0000u32 | (1u32 << 5u32) | 1u32,
        0x8b00_0000u32 | (0u32 << 22u32) | (1u32 << 16u32) | (36u32 << 10u32) | (31u32 << 5u32) | 1u32,
        0x8b00_0000u32 | (1u32 << 22u32) | (0u32 << 16u32) | (3u32 << 10u32) | (1u32 << 5u32) | 1u32,
        0x7940_0000u32 | (0u32 << 10u32) | (1u32 << 5u32) | 1u32,
        0x9200_0000u32 | (1u32 << 22u32) | (0u32 << 16u32) | (2u32 << 10u32) | (0u32 << 5u32) | 0u32,
        0x5ac0_0400u32 | (1u32 << 5u32) | 1u32,
        0x5ac0_0000u32 | (1u32 << 5u32) | 1u32,
        0xd340_0000u32 | (16u32 << 16u32) | (63u32 << 10u32) | (1u32 << 5u32) | 1u32,
        0x9ac0_2400u32 | (0u32 << 16u32) | (1u32 << 5u32) | 1u32,
        0x3700_0000u32 | (bit << 19u32) | (2u32 << 5u32) | 1u32,
        0xd420_0000u32 | (bit << 5u32),
    ];
    assert(words@ =~= check_words(bit));
    let mut buf: Vec<u8> = Vec::new();
    let mut i: usize = 0;
    while i < words.len()
        invariant
            i <= words@.len(),
            words@ == check_words(bit),
            buf@ =~= le_bytes(words@.subrange(0, i as int)),
        decreases words.len() - i,
    {
        let ghost before = buf@;
        emit_word(&mut buf, words[i]);
        proof {
            let w = words@[i as int];
            assert(words@.subrange(0, i + 1) =~= words@.subrange(0, i as int).push(w));
            assert forall|j: int| 0 <= j < 4 * (i + 1) implies #[trigger] buf@[j] == le_bytes(
                words@.subrange(0, i + 1),
            )[j] by {
                if j < 4 * i {
                    assert(before[j] == le_bytes(words@.subrange(0, i as int))[j]);
                    assert(j / 4 < i);
                } else {
                    let k = j - 4 * i;
                    assert(j / 4 == i && j % 4 == k);
                    assert(words@.subrange(0, i + 1)[i as int] == w);
                    assert(buf@[j] == before.push((w & 0xffu32) as u8).push(((w >> 8u32) & 0xffu32) as u8).push(
                        ((w >> 16u32) & 0xffu32) as u8).push(((w >> 24u32) & 0xffu32) as u8)[j]);
                    if k == 0 {
                        assert(w >> 0u32 == w) by (bit_vector);
                    }
                }
            }
        }
        i = i + 1;
    }
    assert(words@.subrange(0, words@.len() as int) =~= words@);
    buf
}

fn reverse_bits32(x: u32) -> (r: u32)
    ensures
        r == rbit32(x),
{
    (((x >> 0u32) & 1u32) << 31u32) | (((x >> 1u32) & 1u32) << 30u32) | (((x >> 2u32) & 1u32) << 29u32) | (((x >> 3u32) & 1u32) << 28u32)
        | (((x >> 4u32) & 1u32) << 27u32) | (((x >> 5u32) & 1u32) << 26u32) | (((x >> 6u32) & 1u32) << 25u32) | (((x >> 7u32) & 1u32) << 24u32)
        | (((x >> 8u32) & 1u32) << 23u32) | (((x >> 9u32) & 1u32) << 22u32) | (((x >> 10u32) & 1u32) << 21u32) | (((x >> 11u32) & 1u32) << 20u32)
        | (((x >> 12u32) & 1u32) << 19u32) | (((x >> 13u32) & 1u32) << 18u32) | (((x >> 14u32) & 1u32) << 17u32) | (((x >> 15u32) & 1u32) << 16u32)
        | (((x >> 16u32) & 1u32) << 15u32) | (((x >> 17u32) & 1u32) << 14u32) | (((x >> 18u32) & 1u32) << 13u32) | (((x >> 19u32) & 1u32) << 12u32)
        | (((x >> 20u32) & 1u32) << 11u32) | (((x >> 21u32) & 1u32) << 10u32) | (((x >> 22u32) & 1u32) << 9u32) | (((x >> 23u32) & 1u32) << 8u32)
        | (((x >> 24u32) & 1u32) << 7u32) | (((x >> 25u32) & 1u32) << 6u32) | (((x >> 26u32) & 1u32) << 5u32) | (((x >> 27u32) & 1u32) << 4u32)
        | (((x >> 28u32) & 1u32) << 3u32) | (((x >> 29u32) & 1u32) << 2u32) | (((x >> 30u32) & 1u32) << 1u32) | (((x >> 31u32) & 1u32) << 0u32)
}

/// What the check for accesses of `1 << bit` bytes at `addr` does, computed
/// step for step as the blob does it from the two shadow bytes `lo` and `hi`
/// at `(addr >> 3) + SHADOW_OFFSET`: `Some(bit)`, the `brk` immediate, when it
/// traps, `None` when it falls through.
pub fn check_access(addr: u64, lo: u8, hi: u8, bit: u64) -> (r: Option<u8>)
    requires
        bit <= 4,
    ensures
        r == (if check_traps(addr, lo, hi, bit) {
            Some(bit as u8)
        } else {
            None::<u8>
        }),
{
    let loaded: u32 = (lo as u32) | ((hi as u32) << 8u32);
    let swapped: u32 = ((loaded & 0x00ff_00ffu32) << 8u32) | ((loaded >> 8u32) & 0x00ff_00ffu32);
    let x1: u64 = (reverse_bits32(swapped) as u64) >> 16u64;
    let x0: u64 = addr & 7u64;
    assert(x0 < 8) by (bit_vector)
        requires
            x0 == addr & 7u64,
    ;
    let probe: u64 = x1 >> x0;
    if (probe >> bit) & 1u64 == 0u64 {
        Some(bit as u8)
    } else {
        None
    }
}

} // verus!
