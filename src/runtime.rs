//! The runtime: the five check blobs, and the registration of memory that
//! exists before the allocator sees it (every current mapping, a thread's
//! stack and TLS, an instrumented library) in the shadow.

use vstd::prelude::*;
use crate::shadow::{shadow_of, shadow_after, contents_after, unpoisoned, ShadowFill, lemma_shadow_after_concat};
use crate::tables::span;
use crate::allocator::{
    Allocator, ShadowUpdate, maps_exactly, shadow_span_start, shadow_span_end,
};
use crate::blobs::{generate_check_blob, le_bytes, check_words};
use crate::maps::{MapsEntry, first_containing, mapping_containing, lemma_first_containing_found};

verus! {

/// The shadow addresses that registering the mappings `maps` keeps mapped.
pub open spec fn spans_of(page: int, maps: Seq<MapsEntry>) -> Set<u64>
    decreases maps.len(),
{
    if maps.len() == 0 {
        Set::empty()
    } else {
        spans_of(page, maps.drop_last()).union(
            span(
                shadow_span_start(page, maps.last().start as int),
                shadow_span_end(page, maps.last().start as int, maps.last().end as int),
            ),
        )
    }
}

/// The shadow byte at `x` after the mappings `maps` have been unpoisoned in order.
pub open spec fn unpoisoned_all(m: spec_fn(int) -> u8, maps: Seq<MapsEntry>, x: int) -> u8
    decreases maps.len(),
{
    if maps.len() == 0 {
        m(x)
    } else {
        unpoisoned(
            |y: int| unpoisoned_all(m, maps.drop_last(), y),
            shadow_of(maps.last().start as int),
            maps.last().end - maps.last().start,
            x,
        )
    }
}

/// Shadow work done one call after another composes: the ranges to map of
/// both, the writes of the first followed by those of the second.
proof fn lemma_maps_exactly_concat(
    a: Seq<(u64, u64)>,
    b: Seq<(u64, u64)>,
    s0: Set<u64>,
    s1: Set<u64>,
    s2: Set<u64>,
)
    requires
        maps_exactly(a, s0, s1),
        maps_exactly(b, s1, s2),
        s0.subset_of(s1),
        s1.subset_of(s2),
    ensures
        maps_exactly(a + b, s0, s2),
{
    let c = a + b;
    assert forall|i: int, x: u64|
        0 <= i < c.len() && (#[trigger] c[i]).0 <= x < c[i].1 implies #[trigger] s2.contains(x)
            && !s0.contains(x) by {
        if i < a.len() {
            assert(c[i] == a[i]);
            assert(s1.contains(x));
        } else {
            assert(c[i] == b[i - a.len()]);
        }
    }
    assert forall|i: int, j: int|
        0 <= i < j < c.len() implies (#[trigger] c[i]).1 <= (#[trigger] c[j]).0 || c[j].1
            <= c[i].0 by {
        if j < a.len() {
            assert(c[i] == a[i] && c[j] == a[j]);
        } else if i >= a.len() {
            assert(c[i] == b[i - a.len()] && c[j] == b[j - a.len()]);
        } else {
            assert(c[i] == a[i] && c[j] == b[j - a.len()]);
            if !(c[i].1 <= c[j].0 || c[j].1 <= c[i].0) {
                let x = if c[i].0 <= c[j].0 {
                    c[j].0
                } else {
                    c[i].0
                };
                assert(a[i].0 <= x < a[i].1);
                assert(s1.contains(x));
                assert(b[j - a.len()].0 <= x < b[j - a.len()].1);
            }
        }
    }
    assert forall|x: u64| #[trigger] s2.contains(x) && !s0.contains(x) implies exists|i: int|
        0 <= i < c.len() && (#[trigger] c[i]).0 <= x < c[i].1 by {
        if s1.contains(x) {
            let i = choose|i: int| 0 <= i < a.len() && (#[trigger] a[i]).0 <= x < a[i].1;
            assert(c[i] == a[i]);
        } else {
            let i = choose|i: int| 0 <= i < b.len() && (#[trigger] b[i]).0 <= x < b[i].1;
            assert(c[i + a.len()] == b[i]);
        }
    }
}

/// The check blobs, one per access width.
pub struct AsanRuntime {
    blob_check_mem_byte: Vec<u8>,
    blob_check_mem_halfword: Vec<u8>,
    blob_check_mem_dword: Vec<u8>,
    blob_check_mem_qword: Vec<u8>,
    blob_check_mem_16bytes: Vec<u8>,
}

/// What registering a thread found and did: the stack and TLS mappings, and
/// the shadow work that unpoisons both.
pub struct ThreadRegistration {
    pub stack: (u64, u64),
    pub tls: (u64, u64),
    pub update: ShadowUpdate,
}

impl AsanRuntime {
    #[verifier::type_invariant]
    spec fn blobs_generated(&self) -> bool {
        &&& self.blob_check_mem_byte@ == le_bytes(check_words(0))
        &&& self.blob_check_mem_halfword@ == le_bytes(check_words(1))
        &&& self.blob_check_mem_dword@ == le_bytes(check_words(2))
        &&& self.blob_check_mem_qword@ == le_bytes(check_words(3))
        &&& self.blob_check_mem_16bytes@ == le_bytes(check_words(4))
    }

    /// Generates the five check blobs.
    pub fn new() -> (r: AsanRuntime) {
        AsanRuntime {
            blob_check_mem_byte: generate_check_blob(0),
            blob_check_mem_halfword: generate_check_blob(1),
            blob_check_mem_dword: generate_check_blob(2),
            blob_check_mem_qword: generate_check_blob(3),
            blob_check_mem_16bytes: generate_check_blob(4),
        }
    }

    /// The blob that checks a one-byte access.
    pub fn blob_check_mem_byte(&self) -> (r: &Vec<u8>)
        ensures
            r@ == le_bytes(check_words(0)),
    {
        proof {
            use_type_invariant(self);
        }
        &self.blob_check_mem_byte
    }

    /// The blob that checks a two-byte access.
    pub fn blob_check_mem_halfword(&self) -> (r: &Vec<u8>)
        ensures
            r@ == le_bytes(check_words(1)),
    {
        proof {
            use_type_invariant(self);
        }
        &self.blob_check_mem_halfword
    }

    /// The blob that checks a four-byte access.
    pub fn blob_check_mem_dword(&self) -> (r: &Vec<u8>)
        ensures
            r@ == le_bytes(check_words(2)),
    {
        proof {
            use_type_invariant(self);
        }
        &self.blob_check_mem_dword
    }

    /// The blob that checks an eight-byte access.
    pub fn blob_check_mem_qword(&self) -> (r: &Vec<u8>)
        ensures
            r@ == le_bytes(check_words(3)),
    {
        proof {
            use_type_invariant(self);
        }
        &self.blob_check_mem_qword
    }

    /// The blob that checks a sixteen-byte access.
    pub fn blob_check_mem_16bytes(&self) -> (r: &Vec<u8>)
        ensures
            r@ == le_bytes(check_words(4)),
    {
        proof {
            use_type_invariant(self);
        }
        &self.blob_check_mem_16bytes
    }

    /// Maps and unpoisons the shadow of every mapping in `maps`, in order.
    pub fn unpoison_all_existing_memory(&self, allocator: &mut Allocator, maps: &Vec<MapsEntry>) -> (r:
        ShadowUpdate)
        requires
            old(allocator).wf(),
            forall|i: int| 0 <= i < maps@.len() ==> (#[trigger] maps@[i]).start <= maps@[i].end,
        ensures
            final(allocator).wf(),
            final(allocator).page() == old(allocator).page(),
            final(allocator).allocations() == old(allocator).allocations(),
            final(allocator).mapped_shadow() == old(allocator).mapped_shadow().union(
                spans_of(old(allocator).page(), maps@),
            ),
            maps_exactly(r.maps@, old(allocator).mapped_shadow(), final(allocator).mapped_shadow()),
            forall|m: spec_fn(int) -> u8, x: int|
                #[trigger] shadow_after(m, r.fills@, x) == unpoisoned_all(m, maps@, x),
    {
        let ghost page = allocator.page();
        let ghost mapped0 = allocator.mapped_shadow();
        let mut all_maps: Vec<(u64, u64)> = Vec::new();
        let mut all_fills: Vec<ShadowFill> = Vec::new();
        let mut i: usize = 0;
        while i < maps.len()
            invariant
                i <= maps@.len(),
                forall|k: int| 0 <= k < maps@.len() ==> (#[trigger] maps@[k]).start <= maps@[k].end,
                allocator.wf(),
                allocator.page() == page,
                allocator.allocations() == old(allocator).allocations(),
                mapped0 == old(allocator).mapped_shadow(),
                allocator.mapped_shadow() == mapped0.union(spans_of(page, maps@.subrange(0, i as int))),
                maps_exactly(all_maps@, mapped0, allocator.mapped_shadow()),
                forall|m: spec_fn(int) -> u8, x: int|
                    #[trigger] shadow_after(m, all_fills@, x) == unpoisoned_all(
                        m,
                        maps@.subrange(0, i as int),
                        x,
                    ),
            decreases maps.len() - i,
        {
            let ghost before = allocator.mapped_shadow();
            let ghost maps_before = all_maps@;
            let ghost fills_before = all_fills@;
            let (_, mut update) = allocator.map_shadow_for_region(maps[i].start, maps[i].end, true);
            let ghost new_fills = update.fills@;
            let ghost new_maps = update.maps@;
            proof {
                lemma_maps_exactly_concat(maps_before, update.maps@, mapped0, before, allocator.mapped_shadow());
            }
            all_maps.append(&mut update.maps);
            all_fills.append(&mut update.fills);
            proof {
                let pre = maps@.subrange(0, i as int);
                let cur = maps@.subrange(0, i + 1);
                assert(cur.drop_last() =~= pre);
                assert(all_maps@ =~= maps_before + new_maps);
                assert(all_fills@ =~= fills_before + new_fills);
                assert(allocator.mapped_shadow() =~= mapped0.union(spans_of(page, cur)));
                assert forall|m: spec_fn(int) -> u8, x: int|
                    #[trigger] shadow_after(m, all_fills@, x) == unpoisoned_all(m, cur, x) by {
                    lemma_shadow_after_concat(m, fills_before, new_fills, x);
                    assert(contents_after(m, fills_before) =~= (|y: int| unpoisoned_all(m, pre, y)));
                }
            }
            i = i + 1;
        }
        assert(maps@.subrange(0, maps@.len() as int) =~= maps@);
        ShadowUpdate { maps: all_maps, fills: all_fills }
    }

    /// Maps and unpoisons the shadow of the mappings that hold the current
    /// thread's stack and its TLS, found in `maps` by an address in each.
    pub fn register_thread(
        &self,
        allocator: &mut Allocator,
        maps: &Vec<MapsEntry>,
        stack_address: u64,
        tls_address: u64,
    ) -> (r: ThreadRegistration)
        requires
            old(allocator).wf(),
            forall|i: int| 0 <= i < maps@.len() ==> (#[trigger] maps@[i]).start <= maps@[i].end,
        ensures
            r.stack == (match first_containing(maps@, stack_address) {
                Some(i) => (maps@[i].start, maps@[i].end),
                None => (0u64, 0u64),
            }),
            r.tls == (match first_containing(maps@, tls_address) {
                Some(i) => (maps@[i].start, maps@[i].end),
                None => (0u64, 0u64),
            }),
            final(allocator).wf(),
            final(allocator).page() == old(allocator).page(),
            final(allocator).allocations() == old(allocator).allocations(),
            final(allocator).mapped_shadow() == old(allocator).mapped_shadow().union(
                span(
                    shadow_span_start(old(allocator).page(), r.stack.0 as int),
                    shadow_span_end(old(allocator).page(), r.stack.0 as int, r.stack.1 as int),
                ),
            ).union(
                span(
                    shadow_span_start(old(allocator).page(), r.tls.0 as int),
                    shadow_span_end(old(allocator).page(), r.tls.0 as int, r.tls.1 as int),
                ),
            ),
            maps_exactly(r.update.maps@, old(allocator).mapped_shadow(), final(allocator).mapped_shadow()),
            forall|m: spec_fn(int) -> u8, x: int|
                #[trigger] shadow_after(m, r.update.fills@, x) == unpoisoned(
                    |y: int| unpoisoned(m, shadow_of(r.stack.0 as int), r.stack.1 - r.stack.0, y),
                    shadow_of(r.tls.0 as int),
                    r.tls.1 - r.tls.0,
                    x,
                ),
    {
        let stack = mapping_containing(maps, stack_address);
        let tls = mapping_containing(maps, tls_address);
        proof {
            lemma_first_containing_found(maps@, stack_address);
            lemma_first_containing_found(maps@, tls_address);
        }
        let ghost mapped0 = allocator.mapped_shadow();
        let (_, mut first) = allocator.map_shadow_for_region(stack.0, stack.1, true);
        let ghost mapped1 = allocator.mapped_shadow();
        let (_, mut second) = allocator.map_shadow_for_region(tls.0, tls.1, true);
        let ghost first_maps = first.maps@;
        let ghost first_fills = first.fills@;
        let ghost second_fills = second.fills@;
        proof {
            lemma_maps_exactly_concat(first_maps, second.maps@, mapped0, mapped1, allocator.mapped_shadow());
        }
        first.maps.append(&mut second.maps);
        first.fills.append(&mut second.fills);
        proof {
            assert(first.fills@ =~= first_fills + second_fills);
            assert forall|m: spec_fn(int) -> u8, x: int|
                #[trigger] shadow_after(m, first.fills@, x) == unpoisoned(
                    |y: int| unpoisoned(m, shadow_of(stack.0 as int), stack.1 - stack.0, y),
                    shadow_of(tls.0 as int),
                    tls.1 - tls.0,
                    x,
                ) by {
                lemma_shadow_after_concat(m, first_fills, second_fills, x);
                assert(contents_after(m, first_fills) =~= (|y: int|
                    unpoisoned(m, shadow_of(stack.0 as int), stack.1 - stack.0, y)));
            }
        }
        ThreadRegistration { stack, tls, update: first }
    }

    /// Maps and unpoisons the shadow of an instrumented library's mappings,
    /// `[start, end)`, so that all its own accesses pass.
    pub fn hook_library(&mut self, allocator: &mut Allocator, start: u64, end: u64) -> (r: ShadowUpdate)
        requires
            old(allocator).wf(),
            start <= end,
        ensures
            final(allocator).wf(),
            final(allocator).page() == old(allocator).page(),
            final(allocator).allocations() == old(allocator).allocations(),
            final(allocator).mapped_shadow() == old(allocator).mapped_shadow().union(
                span(
                    shadow_span_start(old(allocator).page(), start as int),
                    shadow_span_end(old(allocator).page(), start as int, end as int),
                ),
            ),
            maps_exactly(r.maps@, old(allocator).mapped_shadow(), final(allocator).mapped_shadow()),
            forall|m: spec_fn(int) -> u8, x: int|
                #[trigger] shadow_after(m, r.fills@, x) == unpoisoned(
                    m,
                    shadow_of(start as int),
                    end - start,
                    x,
                ),
    {
        let (_, update) = allocator.map_shadow_for_region(start, end, true);
        update
    }
}

} // verus!
