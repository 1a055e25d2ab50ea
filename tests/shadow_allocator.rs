use std::collections::HashMap;

use frida_asan::allocator::{calloc_size, Allocator, ShadowUpdate};
use frida_asan::blobs::check_access;
use frida_asan::runtime::AsanRuntime;
use frida_asan::shadow::{partial_granule_byte, poison, unpoison, ShadowFill, SHADOW_OFFSET};

const PAGE: u64 = 4096;
const RESERVATION_BASE: u64 = 0x7f00_0000_0000;

/// Shadow memory as the caller keeps it: every byte not yet written is zero.
#[derive(Default, Clone, PartialEq, Debug)]
struct Shadow {
    bytes: HashMap<u64, u8>,
    mapped: Vec<(u64, u64)>,
}

impl Shadow {
    fn fill(&mut self, fills: &[ShadowFill]) {
        for f in fills {
            for a in f.start..f.start + f.len {
                self.bytes.insert(a, f.value);
            }
        }
    }

    fn apply(&mut self, update: &ShadowUpdate) {
        self.mapped.extend(update.maps.iter().copied());
        self.fill(&update.fills);
    }

    fn get(&self, a: u64) -> u8 {
        *self.bytes.get(&a).unwrap_or(&0)
    }

    /// Runs the check for an access of `1 << bit` bytes at `addr`.
    fn check(&self, addr: u64, bit: u64) -> Option<u8> {
        let s = (addr >> 3) + SHADOW_OFFSET;
        check_access(addr, self.get(s), self.get(s + 1), bit)
    }

    fn addressable(&self, addr: u64) -> bool {
        self.check(addr, 0).is_none()
    }
}

struct Heap {
    allocator: Allocator,
    shadow: Shadow,
    next_mapping: u64,
}

impl Heap {
    fn new() -> Heap {
        Heap { allocator: Allocator::new(PAGE), shadow: Shadow::default(), next_mapping: RESERVATION_BASE }
    }

    fn malloc(&mut self, size: u64) -> u64 {
        let len = self.allocator.reservation_size(size).unwrap();
        let mapping = self.next_mapping;
        self.next_mapping += len + PAGE;
        let (p, update) = self.allocator.allocate(size, 8, mapping);
        self.shadow.apply(&update);
        p
    }

    fn free(&mut self, p: u64) {
        if p != 0 {
            let fills = self.allocator.release(p);
            self.shadow.fill(&fills);
        }
    }

    fn realloc(&mut self, p: u64, size: u64) -> (u64, u64) {
        let len = self.allocator.reservation_size(size).unwrap();
        let mapping = self.next_mapping;
        self.next_mapping += len + PAGE;
        let (q, copy, update) = self.allocator.realloc(p, size, mapping);
        self.shadow.apply(&update);
        (q, copy)
    }
}

#[test]
fn in_bounds_bytes_do_not_trap() {
    let mut heap = Heap::new();
    let p = heap.malloc(17);
    for i in 0..17 {
        assert_eq!(heap.shadow.check(p + i, 0), None);
    }
}

#[test]
fn one_past_the_end_traps_with_immediate_zero() {
    let mut heap = Heap::new();
    let p = heap.malloc(17);
    assert_eq!(heap.shadow.check(p + 17, 0), Some(0));
}

#[test]
fn use_after_free_traps() {
    let mut heap = Heap::new();
    let p = heap.malloc(17);
    heap.free(p);
    assert_eq!(heap.shadow.check(p, 0), Some(0));
}

#[test]
fn unaligned_halfword_into_the_tail_traps_with_immediate_one() {
    let mut heap = Heap::new();
    let p = heap.malloc(7);
    assert_eq!(heap.shadow.check(p + 6, 1), Some(1));
}

#[test]
fn realloc_keeps_contents_and_bounds() {
    let mut heap = Heap::new();
    let p = heap.malloc(4);
    let (q, copy) = heap.realloc(p, 8);
    assert_eq!(copy, 4);
    assert_ne!(q, p);
    assert_eq!(heap.shadow.check(q + 7, 0), None);
    assert_eq!(heap.shadow.check(q + 8, 0), Some(0));
    assert_eq!(heap.shadow.check(p, 0), Some(0));
    assert_eq!(heap.allocator.lookup(p), None);
    assert_eq!(heap.allocator.get_usable_size(q), 8);
}

#[test]
fn realloc_shrinking_copies_the_new_size() {
    let mut heap = Heap::new();
    let p = heap.malloc(100);
    let (_, copy) = heap.realloc(p, 10);
    assert_eq!(copy, 10);
}

#[test]
fn realloc_of_null_copies_nothing() {
    let mut heap = Heap::new();
    let (q, copy) = heap.realloc(0, 24);
    assert_eq!(copy, 0);
    assert_eq!(heap.allocator.get_usable_size(q), 24);
}

#[test]
fn sixteen_byte_check_probes_byte_four() {
    let mut heap = Heap::new();
    let p = heap.malloc(16);
    assert_eq!(heap.shadow.check(p, 4), None);
    // The check tests the one byte at offset log2(16) = 4 from the address:
    // at p + 1 that is p + 5, which is addressable, although p + 16 is not.
    assert_eq!(heap.shadow.check(p + 1, 4), None);
    assert!(!heap.shadow.addressable(p + 16));
    // Where the probed byte itself is out of bounds, the check traps with 4.
    assert_eq!(heap.shadow.check(p + 12, 4), Some(4));
}

#[test]
fn allocation_shadow_and_guards() {
    let mut heap = Heap::new();
    let mapping = heap.next_mapping;
    let n = 4100;
    let p = heap.malloc(n);
    let len = heap.allocator.reservation_size(n).unwrap();
    assert_eq!(p, mapping + PAGE);
    assert_eq!(p % PAGE, 0);
    assert_eq!(len, 2 * PAGE + 2 * PAGE);
    for a in mapping..mapping + len {
        assert_eq!(heap.shadow.addressable(a), p <= a && a < p + n, "address {:#x}", a);
    }
    for i in n..n + PAGE {
        assert!(!heap.shadow.addressable(p + i));
    }
}

#[test]
fn guard_pages_trap_for_every_width() {
    let mut heap = Heap::new();
    let mapping = heap.next_mapping;
    let p = heap.malloc(64);
    for bit in 0..5 {
        assert_eq!(heap.shadow.check(mapping, bit), Some(bit as u8));
        assert_eq!(heap.shadow.check(p - 16, bit), Some(bit as u8));
        assert_eq!(heap.shadow.check(p + 64, bit), Some(bit as u8));
    }
}

#[test]
fn zero_size_allocation_traps_at_once() {
    let mut heap = Heap::new();
    let p = heap.malloc(0);
    assert_eq!(p % PAGE, 0);
    assert_eq!(heap.shadow.check(p, 0), Some(0));
    assert_eq!(heap.allocator.get_usable_size(p), 0);
}

#[test]
fn release_poisons_every_byte() {
    let mut heap = Heap::new();
    let p = heap.malloc(29);
    heap.free(p);
    for i in 0..32 {
        assert!(!heap.shadow.addressable(p + i));
    }
    assert_eq!(heap.allocator.lookup(p), None);
}

#[test]
fn release_of_an_unknown_pointer_is_ignored() {
    let mut heap = Heap::new();
    let p = heap.malloc(8);
    let fills = heap.allocator.release(p + 8);
    assert!(fills.is_empty());
    assert_eq!(heap.allocator.lookup(p), Some(8));
    assert!(heap.allocator.release(0).is_empty());
}

#[test]
fn double_free_is_ignored() {
    let mut heap = Heap::new();
    let p = heap.malloc(8);
    assert!(!heap.allocator.release(p).is_empty());
    assert!(heap.allocator.release(p).is_empty());
}

#[test]
fn release_writes_size_over_eight_zero_bytes_and_the_tail() {
    let mut allocator = Allocator::new(PAGE);
    let (p, _) = allocator.allocate(13, 8, RESERVATION_BASE);
    let fills = allocator.release(p);
    let s = (p >> 3) + SHADOW_OFFSET;
    assert_eq!(fills, vec![ShadowFill { start: s, len: 1, value: 0 }, ShadowFill { start: s + 1, len: 1, value: 0 }]);
}

#[test]
fn usable_size_is_the_requested_size() {
    let mut heap = Heap::new();
    let p = heap.malloc(1000);
    assert_eq!(heap.allocator.get_usable_size(p), 1000);
    assert_eq!(heap.allocator.lookup(p), Some(1000));
    for i in 0..1000 {
        assert!(heap.shadow.addressable(p + i));
    }
}

#[test]
fn allocation_maps_its_shadow_pages_once() {
    let mut allocator = Allocator::new(PAGE);
    let (_, first) = allocator.allocate(10, 8, RESERVATION_BASE);
    let shadow = (RESERVATION_BASE >> 3) + SHADOW_OFFSET;
    assert_eq!(first.maps, vec![(shadow, shadow + 2 * PAGE)]);
    // The next reservation shares the same shadow pages: nothing new to map.
    let (_, second) = allocator.allocate(10, 8, RESERVATION_BASE + 3 * PAGE);
    assert!(second.maps.is_empty());
}

#[test]
fn map_shadow_for_region_reports_shadow_start_and_size() {
    let mut allocator = Allocator::new(PAGE);
    let ((start, size), update) = allocator.map_shadow_for_region(0x1000, 0x1000 + 0x123, true);
    assert_eq!(start, (0x1000 >> 3) + SHADOW_OFFSET);
    assert_eq!(size, 0x123 / 8);
    assert_eq!(
        update.fills,
        vec![
            ShadowFill { start, len: 0x24, value: 0xff },
            ShadowFill { start: start + 0x24, len: 1, value: 0xe0 },
        ]
    );
    let floor = (start / PAGE) * PAGE;
    let ceil = ((start + size + PAGE - 1) / PAGE) * PAGE;
    assert_eq!(update.maps, vec![(floor, ceil + PAGE)]);
}

#[test]
fn map_shadow_without_unpoison_writes_nothing() {
    let mut allocator = Allocator::new(PAGE);
    let (_, update) = allocator.map_shadow_for_region(0x10000, 0x20000, false);
    assert!(update.fills.is_empty());
    assert!(!update.maps.is_empty());
}

#[test]
fn map_shadow_twice_is_idempotent() {
    let mut allocator = Allocator::new(PAGE);
    let mut once = Shadow::default();
    let (r1, first) = allocator.map_shadow_for_region(0x40_0000, 0x40_5003, true);
    once.apply(&first);
    let mut twice = once.clone();
    let (r2, second) = allocator.map_shadow_for_region(0x40_0000, 0x40_5003, true);
    assert_eq!(r1, r2);
    assert!(second.maps.is_empty());
    twice.apply(&second);
    assert_eq!(once, twice);
}

#[test]
fn unpoison_then_poison_round_trip() {
    let mut shadow = Shadow::default();
    let start = SHADOW_OFFSET + 0x100;
    shadow.bytes.insert(start + 2, 0xab);
    shadow.bytes.insert(start - 1, 0x77);
    shadow.bytes.insert(start + 3, 0x55);
    let before = shadow.clone();
    shadow.fill(&unpoison(start, 19));
    assert_eq!(shadow.get(start), 0xff);
    assert_eq!(shadow.get(start + 1), 0xff);
    assert_eq!(shadow.get(start + 2), 0xe0);
    shadow.fill(&poison(start, 19));
    // Everything is as before except the tail byte, now zero.
    assert_eq!(shadow.get(start - 1), 0x77);
    assert_eq!(shadow.get(start), before.get(start));
    assert_eq!(shadow.get(start + 1), before.get(start + 1));
    assert_eq!(shadow.get(start + 2), 0);
    assert_eq!(shadow.get(start + 3), 0x55);
}

#[test]
fn partial_granule_encoding() {
    let expected = [0x80u8, 0xc0, 0xe0, 0xf0, 0xf8, 0xfc, 0xfe];
    for k in 1..8u64 {
        assert_eq!(partial_granule_byte(k), expected[(k - 1) as usize]);
    }
}

#[test]
fn unpoison_of_whole_granules_has_no_tail() {
    assert_eq!(unpoison(100, 16), vec![ShadowFill { start: 100, len: 2, value: 0xff }]);
    assert_eq!(poison(100, 16), vec![ShadowFill { start: 100, len: 2, value: 0 }]);
}

#[test]
fn rounding_to_pages() {
    let allocator = Allocator::new(PAGE);
    assert_eq!(allocator.page_size(), PAGE);
    assert_eq!(allocator.round_up_to_page(0), 0);
    assert_eq!(allocator.round_up_to_page(1), PAGE);
    assert_eq!(allocator.round_up_to_page(PAGE), PAGE);
    assert_eq!(allocator.round_up_to_page(PAGE + 1), 2 * PAGE);
    assert_eq!(allocator.round_down_to_page(PAGE - 1), 0);
    assert_eq!(allocator.round_down_to_page(3 * PAGE + 5), 3 * PAGE);
}

#[test]
fn reservation_sizes() {
    let allocator = Allocator::new(PAGE);
    assert_eq!(allocator.reservation_size(0), Some(2 * PAGE));
    assert_eq!(allocator.reservation_size(17), Some(3 * PAGE));
    assert_eq!(allocator.reservation_size(u64::MAX), None);
    assert_eq!(allocator.reservation_size(u64::MAX - 2 * PAGE), None);
    assert_eq!(allocator.reservation_size(u64::MAX - 3 * PAGE + 1), Some(u64::MAX - PAGE + 1));
}

#[test]
fn calloc_sizes() {
    assert_eq!(calloc_size(3, 7), Some(21));
    assert_eq!(calloc_size(0, u64::MAX), Some(0));
    assert_eq!(calloc_size(u64::MAX, 2), None);
}

#[test]
fn hooked_malloc_returns_usable_memory() {
    let mut heap = Heap::new();
    let mut runtime = AsanRuntime::new();
    let update = runtime.hook_library(&mut heap.allocator, 0x5555_0000_0000, 0x5555_0001_0000);
    heap.shadow.apply(&update);
    assert!(heap.shadow.addressable(0x5555_0000_8000));
    let n = 300;
    let p = heap.malloc(n);
    assert_eq!(heap.allocator.get_usable_size(p), n);
    for i in 0..n {
        assert!(heap.shadow.addressable(p + i));
    }
}
