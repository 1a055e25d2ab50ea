//! The shadow-aware allocator: every allocation lives in its own reservation
//! of whole pages with a poisoned guard page on either side, the allocation
//! table maps user pointers to sizes, and the shadow pages already mapped are
//! kept as a range set so that each is mapped once.
//!
//! The allocator decides; the caller performs. Each operation returns the
//! shadow pages to map (anonymous, read-write, at fixed addresses) and the
//! shadow writes to make, in order.

use vstd::prelude::*;
use crate::shadow::{
    SHADOW_OFFSET, ShadowFill, shadow_of, addressable, shadow_after, contents_after, unpoisoned,
    poisoned, fills_within, unpoison, poison, lemma_shadow_after_push, lemma_shadow_after_concat,
    lemma_shadow_of_offset, lemma_unpoisoned_addressable, lemma_msb_bit_full, lemma_shadow_after_frame,
    lemma_poisoned_unaddressable,
};
use vstd::arithmetic::div_mod::{lemma_fundamental_div_mod, lemma_mod_multiples_basic};
use crate::tables::{
    table_entries, covered, span, table_new, table_insert, table_get, table_remove, ranges_new,
    ranges_insert, ranges_gaps,
};

verus! {

/// `v` rounded down to a multiple of `page`.
pub open spec fn page_floor(page: int, v: int) -> int {
    (v / page) * page
}

/// `v` rounded up to a multiple of `page`.
pub open spec fn page_ceil(page: int, v: int) -> int {
    ((v + page - 1) / page) * page
}

/// The page sizes the allocator works with.
pub open spec fn valid_page_size(page: int) -> bool {
    8 <= page <= 0x1_0000_0000 && page % 8 == 0
}

/// Length of the reservation behind an allocation of `size` bytes: the size
/// rounded up to whole pages, with a guard page on either side.
pub open spec fn reservation_len(page: int, size: int) -> int {
    page_ceil(page, size) + 2 * page
}

/// First shadow address that `map_shadow_for_region(start, ..)` keeps mapped.
pub open spec fn shadow_span_start(page: int, start: int) -> int {
    page_floor(page, shadow_of(start))
}

/// End of the shadow addresses that `map_shadow_for_region(start, end, ..)` keeps mapped.
pub open spec fn shadow_span_end(page: int, start: int, end: int) -> int {
    page_ceil(page, shadow_of(start) + (end - start) / 8) + page
}

/// The ranges `maps` cover exactly the addresses of `after` that are not in
/// `before`, each address once.
pub open spec fn maps_exactly(maps: Seq<(u64, u64)>, before: Set<u64>, after: Set<u64>) -> bool {
    &&& forall|i: int| 0 <= i < maps.len() ==> (#[trigger] maps[i]).0 < maps[i].1
    &&& forall|i: int, x: u64|
        0 <= i < maps.len() && (#[trigger] maps[i]).0 <= x < maps[i].1 ==> #[trigger] after.contains(x)
            && !before.contains(x)
    &&& forall|i: int, j: int|
        0 <= i < j < maps.len() ==> (#[trigger] maps[i]).1 <= (#[trigger] maps[j]).0 || maps[j].1
            <= maps[i].0
    &&& forall|x: u64|
        #[trigger] after.contains(x) && !before.contains(x) ==> exists|i: int|
            0 <= i < maps.len() && (#[trigger] maps[i]).0 <= x < maps[i].1
}

/// What the caller performs for one operation: map the shadow ranges `maps`
/// (shadow addresses `[start, end)`), then make the writes `fills` in order.
pub struct ShadowUpdate {
    pub maps: Vec<(u64, u64)>,
    pub fills: Vec<ShadowFill>,
}

pub struct Allocator {
    page_size: u64,
    allocations: hashbrown::HashMap<u64, u64>,
    shadow_pages: rangemap::RangeSet<u64>,
}

impl Allocator {
    /// The page size.
    pub closed spec fn page(&self) -> int {
        self.page_size as int
    }

    /// The live allocations: user pointer to requested size.
    pub closed spec fn allocations(&self) -> Map<u64, u64> {
        table_entries(self.allocations)
    }

    /// The shadow addresses already mapped.
    pub closed spec fn mapped_shadow(&self) -> Set<u64> {
        covered(self.shadow_pages)
    }

    pub closed spec fn wf(&self) -> bool {
        &&& valid_page_size(self.page_size as int)
        &&& forall|p: u64| #[trigger]
            self.allocations().contains_key(p) ==> p % 8 == 0 && p >= self.page_size
    }

    pub fn new(page_size: u64) -> (r: Allocator)
        requires
            valid_page_size(page_size as int),
        ensures
            r.wf(),
            r.page() == page_size,
            r.allocations().dom() == Set::<u64>::empty(),
            r.mapped_shadow() == Set::<u64>::empty(),
    {
        Allocator { page_size, allocations: table_new(), shadow_pages: ranges_new() }
    }

    pub fn page_size(&self) -> (r: u64)
        ensures
            r == self.page(),
    {
        self.page_size
    }

    pub fn round_up_to_page(&self, size: u64) -> (r: u64)
        requires
            self.wf(),
            size <= u64::MAX - self.page(),
        ensures
            r == page_ceil(self.page(), size as int),
            r as int % self.page() == 0,
            size <= r < size + self.page(),
    {
        let q = (size + self.page_size - 1) / self.page_size;
        proof {
            lemma_round_bounds(size + self.page() - 1, self.page());
        }
        q * self.page_size
    }

    pub fn round_down_to_page(&self, value: u64) -> (r: u64)
        requires
            self.wf(),
        ensures
            r == page_floor(self.page(), value as int),
            r <= value < r + self.page(),
            r as int % self.page() == 0,
    {
        proof {
            lemma_round_bounds(value as int, self.page());
        }
        (value / self.page_size) * self.page_size
    }

    /// The length of the reservation behind an allocation of `size` bytes, if
    /// it can be expressed.
    pub fn reservation_size(&self, size: u64) -> (r: Option<u64>)
        requires
            self.wf(),
        ensures
            r == (if reservation_len(self.page(), size as int) <= u64::MAX {
                Some(reservation_len(self.page(), size as int) as u64)
            } else {
                None::<u64>
            }),
    {
        if size > u64::MAX - 2 * self.page_size {
            return None;
        }
        let rounded = self.round_up_to_page(size);
        if rounded > u64::MAX - 2 * self.page_size {
            return None;
        }
        Some(rounded + 2 * self.page_size)
    }

    /// The size recorded for `ptr`, if it is a live allocation.
    pub fn lookup(&self, ptr: u64) -> (r: Option<u64>)
        ensures
            r == (if self.allocations().contains_key(ptr) {
                Some(self.allocations()[ptr])
            } else {
                None::<u64>
            }),
    {
        table_get(&self.allocations, ptr)
    }

    pub fn get_usable_size(&self, ptr: u64) -> (r: u64)
        requires
            self.allocations().contains_key(ptr),
        ensures
            r == self.allocations()[ptr],
    {
        let found = table_get(&self.allocations, ptr);
        match found {
            Some(size) => size,
            None => 0,
        }
    }

    /// Makes sure the shadow of `[start, end)` is mapped, and, if `unpoison`,
    /// marks the region addressable. Returns the region's shadow address and
    /// shadow length.
    pub fn map_shadow_for_region(&mut self, start: u64, end: u64, unpoison: bool) -> (r: (
        (u64, u64),
        ShadowUpdate,
    ))
        requires
            old(self).wf(),
            start <= end,
        ensures
            final(self).wf(),
            final(self).page() == old(self).page(),
            final(self).allocations() == old(self).allocations(),
            final(self).mapped_shadow() == old(self).mapped_shadow().union(
                span(
                    shadow_span_start(old(self).page(), start as int),
                    shadow_span_end(old(self).page(), start as int, end as int),
                ),
            ),
            r.0.0 == shadow_of(start as int),
            r.0.1 == (end - start) / 8,
            maps_exactly(r.1.maps@, old(self).mapped_shadow(), final(self).mapped_shadow()),
            unpoison ==> forall|m: spec_fn(int) -> u8, x: int|
                #[trigger] shadow_after(m, r.1.fills@, x) == unpoisoned(
                    m,
                    shadow_of(start as int),
                    end - start,
                    x,
                ),
            !unpoison ==> r.1.fills@.len() == 0,
    {
        let shadow_mapping_start = start / 8 + SHADOW_OFFSET;
        let shadow_size = (end - start) / 8;
        let shadow_start = self.round_down_to_page(shadow_mapping_start);
        let shadow_end = self.round_up_to_page(shadow_mapping_start + shadow_size) + self.page_size;
        let maps = ranges_gaps(&self.shadow_pages, shadow_start, shadow_end);
        let ghost before = self.mapped_shadow();
        ranges_insert(&mut self.shadow_pages, shadow_start, shadow_end);
        proof {
            let after = self.mapped_shadow();
            assert forall|i: int, x: u64|
                0 <= i < maps@.len() && (#[trigger] maps@[i]).0 <= x < maps@[i].1 implies #[trigger] after.contains(x)
                    && !before.contains(x) by {
                assert(span(shadow_start as int, shadow_end as int).contains(x));
            }
            assert forall|x: u64| #[trigger] after.contains(x) && !before.contains(x) implies exists|i: int|
                0 <= i < maps@.len() && (#[trigger] maps@[i]).0 <= x < maps@[i].1 by {
                assert(span(shadow_start as int, shadow_end as int).contains(x));
            }
        }
        let fills = if unpoison {
            crate::shadow::unpoison(shadow_mapping_start, end - start)
        } else {
            Vec::new()
        };
        assert(self.allocations() == old(self).allocations());
        ((shadow_mapping_start, shadow_size), ShadowUpdate { maps, fills })
    }

    /// Takes the reservation at `mapping` (page-aligned, `reservation_size(size)`
    /// bytes, freshly obtained from the OS) for an allocation of `size` bytes.
    /// Returns the user pointer, one page into the reservation, and the shadow
    /// work: the reservation's shadow mapped, its leading guard page and
    /// everything after the user bytes poisoned, the user bytes unpoisoned.
    /// Alignments up to the page size are met; larger ones are not.
    pub fn allocate(&mut self, size: u64, alignment: u64, mapping: u64) -> (r: (u64, ShadowUpdate))
        requires
            old(self).wf(),
            mapping as int % old(self).page() == 0,
            mapping + reservation_len(old(self).page(), size as int) <= u64::MAX,
        ensures
            r.0 == mapping + old(self).page(),
            final(self).wf(),
            final(self).page() == old(self).page(),
            final(self).allocations() == old(self).allocations().insert(r.0, size),
            final(self).mapped_shadow() == old(self).mapped_shadow().union(
                span(
                    shadow_span_start(old(self).page(), mapping as int),
                    shadow_span_end(
                        old(self).page(),
                        mapping as int,
                        mapping + reservation_len(old(self).page(), size as int),
                    ),
                ),
            ),
            maps_exactly(r.1.maps@, old(self).mapped_shadow(), final(self).mapped_shadow()),
            fills_within(
                r.1.fills@,
                shadow_of(mapping as int),
                shadow_of(mapping + reservation_len(old(self).page(), size as int)),
            ),
            forall|m: spec_fn(int) -> u8, a: int|
                mapping <= a < mapping + reservation_len(old(self).page(), size as int) ==> (
                #[trigger] addressable(contents_after(m, r.1.fills@), a) <==> r.0 <= a < r.0
                    + size),
    {
        let page = self.page_size;
        proof {
            lemma_round_bounds(size + page - 1, page as int);
        }
        let rounded = self.round_up_to_page(size);
        proof {
            lemma_granular(rounded as int, page as int);
        }
        let len = rounded + 2 * page;
        let (shadow, update) = self.map_shadow_for_region(mapping, mapping + len, false);
        let ptr = mapping + page;
        let user_shadow = shadow.0 + page / 8;
        let live_granules = size / 8 + if size % 8 == 0 { 0 } else { 1 };
        proof {
            assert(live_granules == (size + 7) / 8);
            assert(rounded / 8 >= live_granules) by (nonlinear_arith)
                requires
                    rounded >= size,
                    rounded % 8 == 0,
                    live_granules == (size + 7) / 8,
            ;
        }
        let guard = ShadowFill { start: shadow.0, len: page / 8, value: 0 };
        let mut user = unpoison(user_shadow, size);
        let trailer = ShadowFill {
            start: user_shadow + live_granules,
            len: rounded / 8 - live_granules + page / 8,
            value: 0,
        };
        let mut fills: Vec<ShadowFill> = Vec::new();
        fills.push(guard);
        let ghost user_fills = user@;
        fills.append(&mut user);
        fills.push(trailer);
        table_insert(&mut self.allocations, ptr, size);
        proof {
            assert(fills@ =~= (seq![guard] + user_fills).push(trailer));
                        lemma_granular(mapping as int, page as int);
            lemma_shadow_of_offset(mapping as int, page as int);
            lemma_shadow_of_offset(mapping as int, len as int);
            assert forall|m: spec_fn(int) -> u8, a: int|
                mapping <= a < mapping + len implies (#[trigger] addressable(
                contents_after(m, fills@),
                a,
            ) <==> ptr <= a < ptr + size) by {
                lemma_reservation_layout(
                    m,
                    fills@,
                    guard,
                    user_fills,
                    trailer,
                    mapping as int,
                    page as int,
                    size as int,
                    rounded as int,
                    a,
                );
            }
            assert forall|i: int| 0 <= i < fills@.len() implies (#[trigger] fills@[i]).len == 0 || (
            shadow_of(mapping as int) <= fills@[i].start && fills@[i].start + fills@[i].len
                <= shadow_of(mapping + len)) by {
                if 0 < i < fills@.len() - 1 {
                    assert(fills@[i] == user_fills[i - 1]);
                }
            }
        }
        (ptr, ShadowUpdate { maps: update.maps, fills })
    }

    /// Moves the allocation at `ptr` (none if `ptr` is null) into a new one
    /// of `size` bytes whose reservation is at `mapping`: the old allocation
    /// is released, the new one made. Returns the new user pointer, the number
    /// of bytes the caller copies over (`min(size, usable_size(ptr))`, none
    /// for a null `ptr`) and the shadow work.
    pub fn realloc(&mut self, ptr: u64, size: u64, mapping: u64) -> (r: (u64, u64, ShadowUpdate))
        requires
            old(self).wf(),
            ptr == 0 || old(self).allocations().contains_key(ptr),
            mapping as int % old(self).page() == 0,
            mapping + reservation_len(old(self).page(), size as int) <= u64::MAX,
        ensures
            r.0 == mapping + old(self).page(),
            r.1 == (if ptr == 0 {
                0
            } else if size < old(self).allocations()[ptr] {
                size
            } else {
                old(self).allocations()[ptr]
            }),
            final(self).wf(),
            final(self).page() == old(self).page(),
            final(self).allocations() == (if ptr == 0 {
                old(self).allocations()
            } else {
                old(self).allocations().remove(ptr)
            }).insert(r.0, size),
            final(self).mapped_shadow() == old(self).mapped_shadow().union(
                span(
                    shadow_span_start(old(self).page(), mapping as int),
                    shadow_span_end(
                        old(self).page(),
                        mapping as int,
                        mapping + reservation_len(old(self).page(), size as int),
                    ),
                ),
            ),
            maps_exactly(r.2.maps@, old(self).mapped_shadow(), final(self).mapped_shadow()),
            forall|m: spec_fn(int) -> u8, a: int|
                mapping <= a < mapping + reservation_len(old(self).page(), size as int) ==> (
                #[trigger] addressable(contents_after(m, r.2.fills@), a) <==> r.0 <= a < r.0
                    + size),
            forall|m: spec_fn(int) -> u8, x: int|
                (x < shadow_of(mapping as int) || shadow_of(
                    mapping + reservation_len(old(self).page(), size as int),
                ) <= x) ==> #[trigger] shadow_after(m, r.2.fills@, x) == (if ptr == 0 {
                    m(x)
                } else {
                    poisoned(m, shadow_of(ptr as int), old(self).allocations()[ptr] as int, x)
                }),
    {
        let copy = if ptr == 0 {
            0
        } else {
            let usable = self.get_usable_size(ptr);
            if size < usable {
                size
            } else {
                usable
            }
        };
        let mut fills = if ptr == 0 {
            Vec::new()
        } else {
            self.release(ptr)
        };
        let ghost released = fills@;
        let (new_ptr, mut update) = self.allocate(size, 8, mapping);
        let ghost made = update.fills@;
        fills.append(&mut update.fills);
        proof {
            assert(fills@ =~= released + made);
            assert forall|m: spec_fn(int) -> u8, a: int|
                mapping <= a < mapping + reservation_len(old(self).page(), size as int) implies (
                #[trigger] addressable(contents_after(m, fills@), a) <==> new_ptr <= a < new_ptr
                    + size) by {
                assert(contents_after(m, fills@) =~= contents_after(contents_after(m, released), made)) by {
                    assert forall|y: int| #[trigger] contents_after(m, fills@)(y) == contents_after(
                        contents_after(m, released),
                        made,
                    )(y) by {
                        lemma_shadow_after_concat(m, released, made, y);
                    }
                }
                assert(addressable(contents_after(contents_after(m, released), made), a) <==> new_ptr
                    <= a < new_ptr + size);
            }
            assert forall|m: spec_fn(int) -> u8, x: int|
                (x < shadow_of(mapping as int) || shadow_of(
                    mapping + reservation_len(old(self).page(), size as int),
                ) <= x) implies #[trigger] shadow_after(m, fills@, x) == (if ptr == 0 {
                    m(x)
                } else {
                    poisoned(m, shadow_of(ptr as int), old(self).allocations()[ptr] as int, x)
                }) by {
                lemma_shadow_after_concat(m, released, made, x);
                lemma_shadow_after_frame(
                    contents_after(m, released),
                    made,
                    shadow_of(mapping as int),
                    shadow_of(mapping + reservation_len(old(self).page(), size as int)),
                    x,
                );
            }
        }
        (new_ptr, copy, ShadowUpdate { maps: update.maps, fills })
    }

    /// Ends the allocation at `ptr`, if it is live: its table entry goes and
    /// its bytes are poisoned, the partial tail granule whole. The reservation
    /// stays. An unknown pointer is ignored.
    pub fn release(&mut self, ptr: u64) -> (r: Vec<ShadowFill>)
        requires
            old(self).wf(),
        ensures
            final(self).wf(),
            final(self).page() == old(self).page(),
            final(self).mapped_shadow() == old(self).mapped_shadow(),
            final(self).allocations() == old(self).allocations().remove(ptr),
            !old(self).allocations().contains_key(ptr) ==> r@.len() == 0,
            old(self).allocations().contains_key(ptr) ==> forall|m: spec_fn(int) -> u8, x: int|
                #[trigger] shadow_after(m, r@, x) == poisoned(
                    m,
                    shadow_of(ptr as int),
                    old(self).allocations()[ptr] as int,
                    x,
                ),
    {
        let size = match table_get(&self.allocations, ptr) {
            Some(size) => size,
            None => {
                return Vec::new();
            },
        };
        table_remove(&mut self.allocations, ptr);
        proof {
            assert forall|p: u64| #[trigger] self.allocations().contains_key(p) implies p % 8 == 0
                && p >= self.page_size by {
                assert(old(self).allocations().contains_key(p));
            }
        }
        poison(ptr / 8 + SHADOW_OFFSET, size)
    }
}

/// The byte count a `calloc` of `nmemb` elements of `size` bytes asks for,
/// if it can be expressed.
pub fn calloc_size(nmemb: u64, size: u64) -> (r: Option<u64>)
    ensures
        r == (if nmemb * size <= u64::MAX {
            Some((nmemb * size) as u64)
        } else {
            None::<u64>
        }),
{
    nmemb.checked_mul(size)
}

/// Once a live allocation is released, none of its bytes is addressable.
pub proof fn law_release_poisons(
    a: Allocator,
    p: u64,
    fills: Seq<ShadowFill>,
    m: spec_fn(int) -> u8,
    i: int,
)
    requires
        a.wf(),
        a.allocations().contains_key(p),
        forall|m: spec_fn(int) -> u8, x: int|
            #[trigger] shadow_after(m, fills, x) == poisoned(
                m,
                shadow_of(p as int),
                a.allocations()[p] as int,
                x,
            ),
        0 <= i < a.allocations()[p],
    ensures
        !addressable(contents_after(m, fills), p + i),
{
    let n = a.allocations()[p] as int;
    assert(i < 8 * ((n + 7) / 8)) by (nonlinear_arith)
        requires
            0 <= i < n,
    ;
    lemma_poisoned_unaddressable(m, contents_after(m, fills), p as int, n, i);
}

/// Shadow work confined to the shadow of a granule-aligned region `[lo, hi)`,
/// as that of an allocation is to its reservation, leaves every address
/// outside the region as addressable as it was: allocating never disturbs
/// another live allocation.
pub proof fn law_shadow_work_is_local(
    m: spec_fn(int) -> u8,
    fills: Seq<ShadowFill>,
    lo: int,
    hi: int,
    a: int,
)
    requires
        lo % 8 == 0,
        hi % 8 == 0,
        fills_within(fills, shadow_of(lo), shadow_of(hi)),
        a < lo || hi <= a,
    ensures
        addressable(contents_after(m, fills), a) == addressable(m, a),
{
    assert(shadow_of(a) < shadow_of(lo) || shadow_of(hi) <= shadow_of(a)) by (nonlinear_arith)
        requires
            lo % 8 == 0,
            hi % 8 == 0,
            a < lo || hi <= a,
    ;
    lemma_shadow_after_frame(m, fills, shadow_of(lo), shadow_of(hi), shadow_of(a));
}

/// A `malloc(n)` served by the allocator hands out a pointer whose usable
/// size is `n` and all of whose `n` bytes are addressable once the returned
/// shadow work is done.
pub proof fn law_malloc_identity(
    a0: Allocator,
    a1: Allocator,
    mapping: u64,
    size: u64,
    p: u64,
    fills: Seq<ShadowFill>,
    m: spec_fn(int) -> u8,
    i: int,
)
    requires
        p == mapping + a0.page(),
        a1.allocations() == a0.allocations().insert(p, size),
        forall|m: spec_fn(int) -> u8, a: int|
            mapping <= a < mapping + reservation_len(a0.page(), size as int) ==> (
            #[trigger] addressable(contents_after(m, fills), a) <==> p <= a < p + size),
        a0.page() >= 8,
        0 <= i < size,
    ensures
        a1.allocations().contains_key(p),
        a1.allocations()[p] == size,
        addressable(contents_after(m, fills), p + i),
{
    assert(page_ceil(a0.page(), size as int) >= size) by (nonlinear_arith)
        requires
            a0.page() >= 8,
            size >= 0,
    ;
    assert(mapping <= p + i < mapping + reservation_len(a0.page(), size as int));
}

/// Mapping the shadow of a region a second time, unpoisoning both times,
/// leaves everything as the first call left it: the second call maps no page
/// and its writes change no shadow byte.
pub proof fn law_map_shadow_idempotent(
    a0: Allocator,
    a1: Allocator,
    a2: Allocator,
    start: u64,
    end: u64,
    maps2: Seq<(u64, u64)>,
    fills1: Seq<ShadowFill>,
    fills2: Seq<ShadowFill>,
    m: spec_fn(int) -> u8,
)
    requires
        start <= end,
        a1.page() == a0.page(),
        a1.mapped_shadow() == a0.mapped_shadow().union(
            span(
                shadow_span_start(a0.page(), start as int),
                shadow_span_end(a0.page(), start as int, end as int),
            ),
        ),
        a2.mapped_shadow() == a1.mapped_shadow().union(
            span(
                shadow_span_start(a1.page(), start as int),
                shadow_span_end(a1.page(), start as int, end as int),
            ),
        ),
        maps_exactly(maps2, a1.mapped_shadow(), a2.mapped_shadow()),
        forall|m: spec_fn(int) -> u8, x: int|
            #[trigger] shadow_after(m, fills1, x) == unpoisoned(
                m,
                shadow_of(start as int),
                end - start,
                x,
            ),
        forall|m: spec_fn(int) -> u8, x: int|
            #[trigger] shadow_after(m, fills2, x) == unpoisoned(
                m,
                shadow_of(start as int),
                end - start,
                x,
            ),
    ensures
        a2.mapped_shadow() == a1.mapped_shadow(),
        maps2.len() == 0,
        forall|x: int|
            #[trigger] shadow_after(contents_after(m, fills1), fills2, x) == shadow_after(
                m,
                fills1,
                x,
            ),
{
    assert(a2.mapped_shadow() =~= a1.mapped_shadow());
    if maps2.len() > 0 {
        let x = maps2[0].0;
        assert(maps2[0].0 <= x < maps2[0].1);
        assert(a2.mapped_shadow().contains(x) && !a1.mapped_shadow().contains(x));
    }
}

proof fn lemma_round_bounds(v: int, p: int)
    requires
        p > 0,
        v >= 0,
    ensures
        (v / p) * p <= v < (v / p) * p + p,
        ((v / p) * p) % p == 0,
        v / p >= 0,
{
    lemma_fundamental_div_mod(v, p);
    assert(p * (v / p) == (v / p) * p) by (nonlinear_arith);
    lemma_mod_multiples_basic(v / p, p);
}

/// A multiple of a page is a multiple of the granule.
proof fn lemma_granular(v: int, p: int)
    requires
        p > 0,
        p % 8 == 0,
        v % p == 0,
    ensures
        v % 8 == 0,
{
    lemma_fundamental_div_mod(v, p);
    lemma_fundamental_div_mod(p, 8);
    assert(v == ((p / 8) * (v / p)) * 8) by (nonlinear_arith)
        requires
            v == p * (v / p),
            p == 8 * (p / 8),
    ;
    lemma_mod_multiples_basic((p / 8) * (v / p), 8);
}

/// The addressable bytes of a reservation `[b, b + 2 * page + rounded)` after
/// its guard write, the unpoisoning of `size` bytes at `b + page`, and the
/// trailer write: exactly the user bytes.
proof fn lemma_reservation_layout(
    m: spec_fn(int) -> u8,
    fills: Seq<ShadowFill>,
    guard: ShadowFill,
    user: Seq<ShadowFill>,
    trailer: ShadowFill,
    b: int,
    page: int,
    size: int,
    rounded: int,
    a: int,
)
    requires
        b % 8 == 0,
        page % 8 == 0,
        page >= 8,
        rounded % 8 == 0,
        size >= 0,
        rounded >= size,
        fills == (seq![guard] + user).push(trailer),
        guard.start == shadow_of(b),
        guard.len == page / 8,
        guard.value == 0,
        forall|m: spec_fn(int) -> u8, x: int|
            #[trigger] shadow_after(m, user, x) == unpoisoned(m, shadow_of(b + page), size, x),
        trailer.start == shadow_of(b + page) + (size + 7) / 8,
        trailer.len == rounded / 8 - (size + 7) / 8 + page / 8,
        trailer.value == 0,
        shadow_of(b + page) == shadow_of(b) + page / 8,
        b <= a < b + rounded + 2 * page,
    ensures
        addressable(contents_after(m, fills), a) <==> b + page <= a < b + page + size,
{
    let p = b + page;
    let m1 = contents_after(m, seq![guard]);
    let m2 = contents_after(m, fills);
    let g = (size + 7) / 8;
    assert forall|x: int| x < trailer.start implies #[trigger] m2(x) == unpoisoned(m1, shadow_of(p), size, x) by {
        lemma_shadow_after_push(m, seq![guard] + user, trailer, x);
        lemma_shadow_after_concat(m, seq![guard], user, x);
    }
    lemma_shadow_of_offset(b, a - b);
    let x = shadow_of(a);
    if a < p {
        assert((a - b) / 8 < page / 8) by (nonlinear_arith)
            requires
                0 <= a - b < page,
                page % 8 == 0,
        ;
        lemma_shadow_after_push(m, Seq::<ShadowFill>::empty(), guard, x);
        assert(seq![guard] =~= Seq::<ShadowFill>::empty().push(guard));
        assert(m1(x) == 0);
        lemma_msb_bit_full((a % 8) as u8);
    } else if a < p + 8 * g {
        lemma_shadow_of_offset(p, a - p);
        assert((a - p) / 8 < g) by (nonlinear_arith)
            requires
                0 <= a - p < 8 * g,
        ;
        assert forall|y: int| shadow_of(p) <= y < shadow_of(p) + (size + 7) / 8 implies #[trigger] m2(y)
            == unpoisoned(m1, shadow_of(p), size, y) by {}
        lemma_unpoisoned_addressable(m1, m2, p, size, a - p);
        assert(a - p < size <==> a < p + size);
    } else {
        lemma_shadow_of_offset(p, a - p);
        assert((a - p) / 8 >= g && (a - p) / 8 < rounded / 8 + page / 8) by (nonlinear_arith)
            requires
                a - p >= 8 * g,
                a - p < rounded + page,
                rounded % 8 == 0,
                page % 8 == 0,
        ;
        lemma_shadow_after_push(m, seq![guard] + user, trailer, x);
        lemma_msb_bit_full((a % 8) as u8);
        assert(8 * g >= size) by (nonlinear_arith)
            requires
                g == (size + 7) / 8,
                size >= 0,
        ;
    }
}

} // verus!
