use frida_asan::allocator::Allocator;
use frida_asan::blobs::{check_access, generate_check_blob};
use frida_asan::maps::{mapping_containing, mapping_for_library, parse_maps_line, MapsEntry};
use frida_asan::report::{frame_line, register_dump, restore_trampoline_frame, stack_dump, CpuContext};
use frida_asan::runtime::AsanRuntime;
use frida_asan::shadow::{ShadowFill, SHADOW_OFFSET};

fn words_to_bytes(words: &[u32]) -> Vec<u8> {
    words.iter().flat_map(|w| w.to_le_bytes()).collect()
}

fn expected_blob(bit: u32) -> Vec<u8> {
    words_to_bytes(&[
        0xd280_0021,             // mov x1, #1
        0x8b01_93e1,             // add x1, xzr, x1, lsl #36
        0x8b40_0c21,             // add x1, x1, x0, lsr #3
        0x7940_0021,             // ldrh w1, [x1]
        0x9240_0800,             // and x0, x0, #7
        0x5ac0_0421,             // rev16 w1, w1
        0x5ac0_0021,             // rbit w1, w1
        0xd350_fc21,             // lsr x1, x1, #16
        0x9ac0_2421,             // lsr x1, x1, x0
        0x3700_0041 | (bit << 19), // tbnz x1, #bit, done
        0xd420_0000 | (bit << 5),  // brk #bit
    ])
}

#[test]
fn blobs_hold_the_check_sequence() {
    let runtime = AsanRuntime::new();
    assert_eq!(runtime.blob_check_mem_byte().clone(), expected_blob(0));
    assert_eq!(runtime.blob_check_mem_halfword().clone(), expected_blob(1));
    assert_eq!(runtime.blob_check_mem_dword().clone(), expected_blob(2));
    assert_eq!(runtime.blob_check_mem_qword().clone(), expected_blob(3));
    assert_eq!(runtime.blob_check_mem_16bytes().clone(), expected_blob(4));
    assert_eq!(generate_check_blob(2).len(), 44);
}

#[test]
fn check_reads_msb_first_bits_across_two_granules() {
    // First granule: 5 bytes addressable; second: all 8.
    let lo = 0xf8u8;
    let hi = 0xffu8;
    let base = 0x1000u64;
    for off in 0..8u64 {
        for bit in 0..5u64 {
            let probe = off + bit;
            let open = if probe < 8 { probe < 5 } else { true };
            let expected = if open { None } else { Some(bit as u8) };
            assert_eq!(check_access(base + off, lo, hi, bit), expected, "off {} bit {}", off, bit);
        }
    }
    assert_eq!(check_access(base + 7, 0xff, 0x00, 1), Some(1));
    assert_eq!(check_access(base + 7, 0xff, 0x80, 1), None);
    assert_eq!(check_access(base, 0x00, 0xff, 0), Some(0));
}

fn entry(start: u64, end: u64, path: &str) -> MapsEntry {
    MapsEntry { start, end, perms: b"r-xp".to_vec(), path: path.as_bytes().to_vec() }
}

#[test]
fn parses_a_file_backed_line() {
    let line = b"55d0c4a2e000-55d0c4a30000 r--p 00000000 fd:01 1835030                    /usr/bin/cat".to_vec();
    let e = parse_maps_line(&line).unwrap();
    assert_eq!(e.start, 0x55d0c4a2e000);
    assert_eq!(e.end, 0x55d0c4a30000);
    assert_eq!(e.perms, b"r--p".to_vec());
    assert_eq!(e.path, b"/usr/bin/cat".to_vec());
}

#[test]
fn parses_sixteen_digit_addresses_and_pseudo_paths() {
    let line = b"ffffffffff600000-ffffffffff601000 --xp 00000000 00:00 0                  [vsyscall]".to_vec();
    let e = parse_maps_line(&line).unwrap();
    assert_eq!(e.start, 0xffff_ffff_ff60_0000);
    assert_eq!(e.end, 0xffff_ffff_ff60_1000);
    assert_eq!(e.perms, b"--xp".to_vec());
    assert_eq!(e.path, b"[vsyscall]".to_vec());
}

#[test]
fn a_line_with_only_trailing_whitespace_has_an_empty_path() {
    let line = b"7f0000000000-7f0000001000 rw-p 00000000 00:00 0 ".to_vec();
    let e = parse_maps_line(&line).unwrap();
    assert_eq!(e.path, Vec::<u8>::new());
}

#[test]
fn rejects_lines_of_another_shape() {
    let without_path = b"7f0000000000-7f0000001000 rw-p 00000000 00:00 0".to_vec();
    assert!(parse_maps_line(&without_path).is_none());
    let short_start = b"7f00000-7f0000001000 rw-p 00000000 00:00 0 x".to_vec();
    assert!(parse_maps_line(&short_start).is_none());
    let long_offset = b"7f0000000000-7f0000001000 rw-p 000000000 00:00 0 x".to_vec();
    assert!(parse_maps_line(&long_offset).is_none());
    let bad_perm = b"7f0000000000-7f0000001000 rwzp 00000000 00:00 0 x".to_vec();
    assert!(parse_maps_line(&bad_perm).is_none());
    let upper_hex = b"7F0000000000-7f0000001000 rw-p 00000000 00:00 0 x".to_vec();
    assert!(parse_maps_line(&upper_hex).is_none());
    let too_long = b"10000000000000000-7f0000001000 rw-p 00000000 00:00 0 x".to_vec();
    assert!(parse_maps_line(&too_long).is_none());
    assert!(parse_maps_line(&Vec::new()).is_none());
}

#[test]
fn finds_the_mapping_that_contains_an_address() {
    let maps = vec![entry(0x1000, 0x2000, "a"), entry(0x2000, 0x5000, "b"), entry(0x3000, 0x4000, "c")];
    assert_eq!(mapping_containing(&maps, 0x1000), (0x1000, 0x2000));
    assert_eq!(mapping_containing(&maps, 0x1fff), (0x1000, 0x2000));
    assert_eq!(mapping_containing(&maps, 0x3500), (0x2000, 0x5000));
    assert_eq!(mapping_containing(&maps, 0x5000), (0, 0));
    assert_eq!(mapping_containing(&Vec::new(), 0x5000), (0, 0));
}

#[test]
fn finds_the_span_of_a_library() {
    let maps = vec![
        entry(0x1000, 0x2000, "/lib/a.so"),
        entry(0x2000, 0x3000, "/lib/b.so"),
        entry(0x3000, 0x4000, "/lib/a.so"),
        entry(0x5000, 0x6000, "[heap]"),
    ];
    assert_eq!(mapping_for_library(&maps, &b"/lib/a.so".to_vec()), (0x1000, 0x4000));
    assert_eq!(mapping_for_library(&maps, &b"/lib/b.so".to_vec()), (0x2000, 0x3000));
    assert_eq!(mapping_for_library(&maps, &b"/lib/c.so".to_vec()), (0, 0));
}

#[test]
fn unpoisons_every_existing_mapping() {
    let mut allocator = Allocator::new(4096);
    let runtime = AsanRuntime::new();
    let maps = vec![entry(0x10000, 0x10010, "a"), entry(0x20000, 0x20005, "b")];
    let update = runtime.unpoison_all_existing_memory(&mut allocator, &maps);
    let s1 = (0x10000u64 >> 3) + SHADOW_OFFSET;
    let s2 = (0x20000u64 >> 3) + SHADOW_OFFSET;
    assert_eq!(
        update.fills,
        vec![
            ShadowFill { start: s1, len: 2, value: 0xff },
            ShadowFill { start: s2, len: 0, value: 0xff },
            ShadowFill { start: s2 + 0, len: 1, value: 0xf8 },
        ]
    );
    assert_eq!(update.maps, vec![(s1, s1 + 8192), (s2, s2 + 4096)]);
    let again = runtime.unpoison_all_existing_memory(&mut allocator, &maps);
    assert!(again.maps.is_empty());
}

#[test]
fn registers_a_thread_by_its_stack_and_tls_mappings() {
    let mut allocator = Allocator::new(4096);
    let runtime = AsanRuntime::new();
    let maps = vec![entry(0x7000_0000, 0x7000_8000, "[stack]"), entry(0x6000_0000, 0x6000_1000, "")];
    let reg = runtime.register_thread(&mut allocator, &maps, 0x7000_7ff0, 0x6000_0010);
    assert_eq!(reg.stack, (0x7000_0000, 0x7000_8000));
    assert_eq!(reg.tls, (0x6000_0000, 0x6000_1000));
    let stack_shadow = (0x7000_0000u64 >> 3) + SHADOW_OFFSET;
    let tls_shadow = (0x6000_0000u64 >> 3) + SHADOW_OFFSET;
    assert_eq!(
        reg.update.fills,
        vec![
            ShadowFill { start: stack_shadow, len: 0x1000, value: 0xff },
            ShadowFill { start: tls_shadow, len: 0x200, value: 0xff },
        ]
    );
    assert_eq!(reg.update.maps.len(), 2);
}

fn context() -> CpuContext {
    CpuContext {
        regs: (0..31u64).map(|i| i * 0x1111).collect(),
        sp: 0x7fff_0000,
        pc: 0x4000_1234,
        pstate: 0x6000_0000,
        fault_address: 0xdead_beef,
    }
}

#[test]
fn restores_the_frame_behind_the_trampoline() {
    let mut ctx = context();
    restore_trampoline_frame(&mut ctx, 0xaaaa, 0xbbbb);
    assert_eq!(ctx.regs[0], 0xaaaa);
    assert_eq!(ctx.regs[1], 0xbbbb);
    assert_eq!(ctx.regs[2], 0x2222);
    assert_eq!(ctx.sp, 0x7fff_0000 + 144);
    assert_eq!(ctx.pc, 0x4000_1234);
}

#[test]
fn register_dump_matches_the_report_format() {
    let ctx = context();
    let mut expected = String::new();
    for reg in 0..=30usize {
        expected += &format!("x{:02}: 0x{:016x} ", reg, ctx.regs[reg]);
        if reg % 4 == 3 {
            expected += "\n";
        }
    }
    expected += &format!("sp : 0x{:016x} ", ctx.sp);
    expected += "\n";
    expected += &format!("pc : 0x{:016x} ", ctx.pc);
    expected += &format!("pstate: 0x{:016x} ", ctx.pstate);
    expected += &format!("fault: 0x{:016x} ", ctx.fault_address);
    assert_eq!(String::from_utf8(register_dump(&ctx)).unwrap(), expected);
}

#[test]
fn stack_dump_matches_the_report_format() {
    let sp = 0x7fff_fff0_0000u64;
    let words: Vec<u64> = (0..256u64).map(|i| i.wrapping_mul(0x0123_4567_89ab_cdef)).collect();
    let mut expected = String::from("\nstack:");
    for i in 0..256u64 {
        if i % 4 == 0 {
            expected += &format!("\n0x{:016x}: ", sp + i * 8);
        }
        expected += &format!("0x{:016x} ", words[i as usize]);
    }
    expected += "\nbacktrace: \n";
    assert_eq!(String::from_utf8(stack_dump(sp, &words)).unwrap(), expected);
}

#[test]
fn frame_lines_match_the_report_format() {
    let name = b"main".to_vec();
    let file = b"\"/src/main.rs\"".to_vec();
    assert_eq!(
        String::from_utf8(frame_line(0x4000_1234, Some(&name), Some((&file, 42)))).unwrap(),
        "- 0x0000000040001234: main - \"/src/main.rs\":42\n"
    );
    assert_eq!(String::from_utf8(frame_line(0xffff, Some(&name), None)).unwrap(), "- 0x000000000000ffff: main\n");
    assert_eq!(String::from_utf8(frame_line(0, None, None)).unwrap(), "- 0x0000000000000000\n");
    assert_eq!(
        String::from_utf8(frame_line(1, Some(&name), Some((&file, 0)))).unwrap(),
        "- 0x0000000000000001: main - \"/src/main.rs\":0\n"
    );
}
