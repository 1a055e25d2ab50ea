//! The fault report printed when a check traps: the register frame as it was
//! before the check's trampoline, the registers, the stack above `sp`, and one
//! line per backtrace frame.

use vstd::prelude::*;

verus! {

/// Bytes the trampoline in front of a check pushes below the interrupted frame.
pub const TRAMPOLINE_FRAME_SIZE: u64 = 144;

/// Words of stack the report shows.
pub const STACK_DUMP_WORDS: usize = 256;

/// The general registers `x0` to `x30` and the special registers of a signal context.
pub struct CpuContext {
    pub regs: Vec<u64>,
    pub sp: u64,
    pub pc: u64,
    pub pstate: u64,
    pub fault_address: u64,
}

/// The lowercase hexadecimal digit for `d < 16`.
pub open spec fn hex_digit(d: int) -> u8 {
    if d < 10 {
        (48 + d) as u8
    } else {
        (87 + d) as u8
    }
}

/// `v` as sixteen lowercase hexadecimal digits (`{:016x}`).
pub open spec fn hex16(v: u64) -> Seq<u8> {
    Seq::new(16, |i: int| hex_digit(((v >> ((60 - 4 * i) as u64)) & 0xfu64) as int))
}

/// `n` in decimal, without leading zeros (`{}`).
pub open spec fn decimal(n: nat) -> Seq<u8>
    decreases n,
{
    if n < 10 {
        seq![(48 + n) as u8]
    } else {
        decimal(n / 10).push((48 + n % 10) as u8)
    }
}

/// `0x` and `v` in sixteen hexadecimal digits.
pub open spec fn hex_word(v: u64) -> Seq<u8> {
    seq![48u8, 120u8] + hex16(v)
}

/// The report's entry for register `xk`: `x{k:02}: 0x{v:016x} `, and a line
/// break after every fourth register.
pub open spec fn register_entry(k: int, v: u64) -> Seq<u8> {
    seq![120u8, (48 + k / 10) as u8, (48 + k % 10) as u8, 58u8, 32u8] + hex_word(v) + seq![32u8]
        + if k % 4 == 3 {
        seq![10u8]
    } else {
        Seq::empty()
    }
}

/// The entries of the first `n` registers.
pub open spec fn registers_text(regs: Seq<u64>, n: nat) -> Seq<u8>
    decreases n,
{
    if n == 0 {
        Seq::empty()
    } else {
        registers_text(regs, (n - 1) as nat) + register_entry(n - 1, regs[n - 1])
    }
}

/// The register part of the report: `x00` to `x30`, then `sp`, `pc`,
/// `pstate` and the fault address.
pub open spec fn register_dump_text(regs: Seq<u64>, sp: u64, pc: u64, pstate: u64, fault: u64) -> Seq<u8> {
    registers_text(regs, 31) + seq![115u8, 112u8, 32u8, 58u8, 32u8] + hex_word(sp) + seq![32u8, 10u8]
        + seq![112u8, 99u8, 32u8, 58u8, 32u8] + hex_word(pc) + seq![32u8] + seq![
        112u8,
        115u8,
        116u8,
        97u8,
        116u8,
        101u8,
        58u8,
        32u8,
    ] + hex_word(pstate) + seq![32u8] + seq![102u8, 97u8, 117u8, 108u8, 116u8, 58u8, 32u8]
        + hex_word(fault) + seq![32u8]
}

/// The first `n` stack words of the report: a line per four words, each line
/// starting with the address of its first word.
pub open spec fn stack_words_text(sp: u64, words: Seq<u64>, n: nat) -> Seq<u8>
    decreases n,
{
    if n == 0 {
        Seq::empty()
    } else {
        let i = n - 1;
        stack_words_text(sp, words, (n - 1) as nat) + if i % 4 == 0 {
            seq![10u8] + hex_word((sp + 8 * i) as u64) + seq![58u8, 32u8]
        } else {
            Seq::empty()
        } + hex_word(words[i]) + seq![32u8]
    }
}

/// The stack part of the report, and the heading of the backtrace.
pub open spec fn stack_dump_text(sp: u64, words: Seq<u64>) -> Seq<u8> {
    seq![10u8, 115u8, 116u8, 97u8, 99u8, 107u8, 58u8] + stack_words_text(sp, words, words.len())
        + seq![10u8, 98u8, 97u8, 99u8, 107u8, 116u8, 114u8, 97u8, 99u8, 101u8, 58u8, 32u8, 10u8]
}

/// The report's line for a backtrace frame at `addr`: `- 0x{addr:016x}`, then
/// `: name` if the symbol is known, then ` - file:line` if its location is.
pub open spec fn frame_line_text(addr: u64, name: Option<Seq<u8>>, location: Option<(Seq<u8>, nat)>) -> Seq<u8> {
    seq![45u8, 32u8] + hex_word(addr) + match name {
        Some(n) => seq![58u8, 32u8] + n + match location {
            Some(loc) => seq![32u8, 45u8, 32u8] + loc.0 + seq![58u8] + decimal(loc.1),
            None => Seq::empty(),
        },
        None => Seq::empty(),
    } + seq![10u8]
}

/// Puts back the frame the check's trampoline hid: `x0` and `x1` from the two
/// words the trampoline saved on top of the stack, `sp` above the trampoline's frame.
pub fn restore_trampoline_frame(ctx: &mut CpuContext, saved_x0: u64, saved_x1: u64)
    requires
        old(ctx).regs@.len() == 31,
        old(ctx).sp + TRAMPOLINE_FRAME_SIZE <= u64::MAX,
    ensures
        final(ctx).regs@ == old(ctx).regs@.update(0, saved_x0).update(1, saved_x1),
        final(ctx).sp == old(ctx).sp + TRAMPOLINE_FRAME_SIZE,
        final(ctx).pc == old(ctx).pc,
        final(ctx).pstate == old(ctx).pstate,
        final(ctx).fault_address == old(ctx).fault_address,
{
    ctx.regs.set(0, saved_x0);
    ctx.regs.set(1, saved_x1);
    ctx.sp = ctx.sp + TRAMPOLINE_FRAME_SIZE;
}

fn push_hex_word(out: &mut Vec<u8>, v: u64)
    ensures
        final(out)@ == old(out)@ + hex_word(v),
{
    out.push(48u8);
    out.push(120u8);
    let ghost start = out@;
    let mut i: u64 = 0;
    while i < 16
        invariant
            i <= 16,
            start == old(out)@ + seq![48u8, 120u8],
            out@ == start + hex16(v).subrange(0, i as int),
        decreases 16 - i,
    {
        let shift: u64 = 60 - 4 * i;
        let d: u64 = (v >> shift) & 0xf;
        assert(d < 16) by (bit_vector)
            requires
                d == (v >> shift) & 0xf,
        ;
        let c: u8 = if d < 10 {
            (48 + d) as u8
        } else {
            (87 + d) as u8
        };
        out.push(c);
        assert(hex16(v).subrange(0, i + 1) =~= hex16(v).subrange(0, i as int).push(c));
        i = i + 1;
    }
    assert(hex16(v).subrange(0, 16) =~= hex16(v));
    assert(out@ =~= old(out)@ + hex_word(v));
}

fn push_decimal(out: &mut Vec<u8>, n: u64)
    ensures
        final(out)@ == old(out)@ + decimal(n as nat),
    decreases n,
{
    if n >= 10 {
        push_decimal(out, n / 10);
    }
    out.push((48 + n % 10) as u8);
    assert(out@ =~= old(out)@ + decimal(n as nat));
}

fn push_bytes(out: &mut Vec<u8>, bytes: &Vec<u8>)
    ensures
        final(out)@ == old(out)@ + bytes@,
{
    let mut i: usize = 0;
    while i < bytes.len()
        invariant
            i <= bytes@.len(),
            out@ == old(out)@ + bytes@.subrange(0, i as int),
        decreases bytes.len() - i,
    {
        out.push(bytes[i]);
        assert(bytes@.subrange(0, i + 1) =~= bytes@.subrange(0, i as int).push(bytes@[i as int]));
        i = i + 1;
    }
    assert(bytes@.subrange(0, bytes@.len() as int) =~= bytes@);
}

/// The register part of the report.
pub fn register_dump(ctx: &CpuContext) -> (r: Vec<u8>)
    requires
        ctx.regs@.len() == 31,
    ensures
        r@ == register_dump_text(ctx.regs@, ctx.sp, ctx.pc, ctx.pstate, ctx.fault_address),
{
    let mut out: Vec<u8> = Vec::new();
    let mut k: usize = 0;
    while k < 31
        invariant
            k <= 31,
            ctx.regs@.len() == 31,
            out@ == registers_text(ctx.regs@, k as nat),
        decreases 31 - k,
    {
        let ghost before = out@;
        out.push(120u8);
        out.push((48 + k / 10) as u8);
        out.push((48 + k % 10) as u8);
        out.push(58u8);
        out.push(32u8);
        push_hex_word(&mut out, ctx.regs[k]);
        out.push(32u8);
        if k % 4 == 3 {
            out.push(10u8);
        }
        assert(out@ =~= before + register_entry(k as int, ctx.regs@[k as int]));
        k = k + 1;
    }
    let ghost regs_part = out@;
    out.push(115u8);
    out.push(112u8);
    out.push(32u8);
    out.push(58u8);
    out.push(32u8);
    push_hex_word(&mut out, ctx.sp);
    out.push(32u8);
    out.push(10u8);
    out.push(112u8);
    out.push(99u8);
    out.push(32u8);
    out.push(58u8);
    out.push(32u8);
    push_hex_word(&mut out, ctx.pc);
    out.push(32u8);
    push_bytes(&mut out, &vec![112u8, 115u8, 116u8, 97u8, 116u8, 101u8, 58u8, 32u8]);
    push_hex_word(&mut out, ctx.pstate);
    out.push(32u8);
    push_bytes(&mut out, &vec![102u8, 97u8, 117u8, 108u8, 116u8, 58u8, 32u8]);
    push_hex_word(&mut out, ctx.fault_address);
    out.push(32u8);
    assert(out@ =~= register_dump_text(ctx.regs@, ctx.sp, ctx.pc, ctx.pstate, ctx.fault_address));
    out
}

/// The stack part of the report, for the words read upwards from `sp`.
pub fn stack_dump(sp: u64, words: &Vec<u64>) -> (r: Vec<u8>)
    requires
        sp + 8 * words@.len() <= u64::MAX,
    ensures
        r@ == stack_dump_text(sp, words@),
{
    let mut out: Vec<u8> = Vec::new();
    push_bytes(&mut out, &vec![10u8, 115u8, 116u8, 97u8, 99u8, 107u8, 58u8]);
    let ghost head = out@;
    let mut i: usize = 0;
    while i < words.len()
        invariant
            i <= words@.len(),
            sp + 8 * words@.len() <= u64::MAX,
            head == seq![10u8, 115u8, 116u8, 97u8, 99u8, 107u8, 58u8],
            out@ == head + stack_words_text(sp, words@, i as nat),
        decreases words.len() - i,
    {
        let ghost before = out@;
        if i % 4 == 0 {
            out.push(10u8);
            push_hex_word(&mut out, sp + 8 * (i as u64));
            out.push(58u8);
            out.push(32u8);
        }
        push_hex_word(&mut out, words[i]);
        out.push(32u8);
        assert(out@ =~= head + stack_words_text(sp, words@, (i + 1) as nat));
        i = i + 1;
    }
    push_bytes(
        &mut out,
        &vec![10u8, 98u8, 97u8, 99u8, 107u8, 116u8, 114u8, 97u8, 99u8, 101u8, 58u8, 32u8, 10u8],
    );
    assert(out@ =~= stack_dump_text(sp, words@));
    out
}

/// The report's line for one backtrace frame. `location` is the source file,
/// already written as the report shows it, and the line.
pub fn frame_line(addr: u64, name: Option<&Vec<u8>>, location: Option<(&Vec<u8>, u32)>) -> (r: Vec<u8>)
    ensures
        r@ == frame_line_text(
            addr,
            match name {
                Some(n) => Some(n@),
                None => None,
            },
            match location {
                Some(loc) => Some((loc.0@, loc.1 as nat)),
                None => None,
            },
        ),
{
    let mut out: Vec<u8> = Vec::new();
    out.push(45u8);
    out.push(32u8);
    push_hex_word(&mut out, addr);
    match name {
        Some(n) => {
            out.push(58u8);
            out.push(32u8);
            push_bytes(&mut out, n);
            match location {
                Some(loc) => {
                    out.push(32u8);
                    out.push(45u8);
                    out.push(32u8);
                    push_bytes(&mut out, loc.0);
                    out.push(58u8);
                    push_decimal(&mut out, loc.1 as u64);
                },
                None => {},
            }
        },
        None => {},
    }
    out.push(10u8);
    assert(out@ =~= frame_line_text(
        addr,
        match name {
            Some(n) => Some(n@),
            None => None,
        },
        match location {
            Some(loc) => Some((loc.0@, loc.1 as nat)),
            None => None,
        },
    ));
    out
}

} // verus!
