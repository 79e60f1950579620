use vstd::prelude::*;

use crate::frame::{BootInfoFrameAllocator, PAGE_SIZE};
use crate::heap::{span, Heap};
use crate::mapper::{same_tables, MapToError, Mapper, VirtualPage, FLAG_PRESENT, FLAG_WRITABLE};

verus! {

/// First address of the kernel heap.
pub const HEAP_START: u64 = 0x4444_4444_0000;

/// Size in bytes of the kernel heap.
pub const HEAP_SIZE: u64 = 100 * 1024;

/// Number of page tables below the root that mapping the first heap page
/// may need.
pub const HEAP_TABLES: u64 = 3;

/// Number of pages the heap spans.
pub const HEAP_PAGES: u64 = 25;

/// First address of page `k` of the heap.
pub open spec fn heap_page(k: int) -> u64 {
    (HEAP_START + k * PAGE_SIZE) as u64
}

/// Nothing in the heap range is mapped, and no mapped page is backed by a
/// frame of the memory map that `frames` draws from.
pub open spec fn heap_range_free(mapper: Mapper, frames: BootInfoFrameAllocator) -> bool {
    forall|p: u64| #[trigger]
        mapper.mappings().contains_key(p) ==> !(HEAP_START <= p < HEAP_START + HEAP_SIZE)
            && !frames.frames().contains(mapper.mappings()[p])
}

/// Consecutive heap pages lie under the same page tables.
proof fn lemma_heap_pages_share_tables(k: int)
    requires
        1 <= k < HEAP_PAGES,
    ensures
        same_tables(VirtualPage { start: heap_page(k - 1) }, VirtualPage { start: heap_page(k) }),
{
    assert(heap_page(k - 1) / 0x20_0000 == 0x222_2222 && heap_page(k) / 0x20_0000 == 0x222_2222) by (nonlinear_arith)
        requires
            1 <= k < 25,
            heap_page(k - 1) == 0x4444_4444_0000 + (k - 1) * 4096,
            heap_page(k) == 0x4444_4444_0000 + k * 4096,
    ;
}

/// Maps every page of the heap region to a fresh frame from `frames`, then
/// returns an allocator that owns exactly that range.
///
/// The first mapping that fails ends the work and its error is returned;
/// there is no fallback heap. It succeeds whenever nothing in the heap range
/// is mapped yet, no frame of the memory map backs a page yet, and enough
/// frames are left for the heap pages and the tables above them.
pub fn init_heap(mapper: &mut Mapper, frames: &mut BootInfoFrameAllocator) -> (r: Result<
    Heap,
    MapToError,
>)
    requires
        old(mapper).wf(),
        old(frames).wf(),
    ensures
        final(mapper).wf(),
        final(frames).wf(),
        final(frames).regions() == old(frames).regions(),
        r matches Ok(h) ==> {
            &&& h.wf()
            &&& h.region() == span(HEAP_START as int, HEAP_SIZE as int)
            &&& h.free_set() == h.region()
            &&& h.has_block(HEAP_START as int, HEAP_SIZE as int)
            &&& forall|k: int|
                0 <= k < HEAP_PAGES ==> #[trigger] final(mapper).mappings().contains_key(
                    heap_page(k),
                )
        },
        r == Err::<Heap, MapToError>(MapToError::FrameAllocationFailed)
            ==> final(frames).remaining() == 0,
        heap_range_free(*old(mapper), *old(frames)) && old(frames).remaining() >= HEAP_PAGES
            + HEAP_TABLES ==> r is Ok,
        r == Err::<Heap, MapToError>(MapToError::PageAlreadyMapped) ==> !heap_range_free(
            *old(mapper),
            *old(frames),
        ),
{
    let ghost fresh = heap_range_free(*old(mapper), *old(frames)) && old(frames).remaining()
        >= HEAP_PAGES + HEAP_TABLES;
    let mut k: u64 = 0;
    while k < HEAP_PAGES
        invariant
            mapper.wf(),
            frames.wf(),
            frames.regions() == old(frames).regions(),
            k <= HEAP_PAGES,
            forall|j: int| 0 <= j < k ==> #[trigger] mapper.mappings().contains_key(heap_page(j)),
            fresh == (heap_range_free(*old(mapper), *old(frames)) && old(frames).remaining()
                >= HEAP_PAGES + HEAP_TABLES),
            heap_range_free(*old(mapper), *old(frames)) ==> forall|p: u64| #[trigger]
                mapper.mappings().contains_key(p) ==> !(HEAP_START + k * PAGE_SIZE <= p
                    < HEAP_START + HEAP_SIZE) && (frames.issued().contains(mapper.mappings()[p])
                    || !frames.frames().contains(mapper.mappings()[p])),
            fresh && k == 0 ==> frames.remaining() >= HEAP_PAGES + HEAP_TABLES,
            fresh && k > 0 ==> frames.remaining() >= HEAP_PAGES - k && mapper.tables_needed(
                VirtualPage { start: heap_page(k - 1) },
            ) == 0,
        decreases HEAP_PAGES - k,
    {
        let page = VirtualPage { start: HEAP_START + k * PAGE_SIZE };
        let ghost issued_before = frames.issued();
        let ghost used_before = frames.used();
        proof {
            frames.lemma_used_bounded();
            if fresh && k > 0 {
                lemma_heap_pages_share_tables(k as int);
                mapper.lemma_same_tables(VirtualPage { start: heap_page(k - 1) }, page);
            }
        }
        let frame = match frames.allocate_frame() {
            Some(f) => f,
            None => {
                proof {
                    frames.lemma_used_bounded();
                }
                return Err(MapToError::FrameAllocationFailed);
            },
        };
        let ghost before_map = mapper.mappings();
        proof {
            if fresh {
                mapper.lemma_tables_needed_bounded(page);
                assert(frames.remaining() >= mapper.tables_needed(page));
            }
            if heap_range_free(*old(mapper), *old(frames)) {
                assert(frames.frames().contains(frame.start)) by {
                    assert(frames.frames()[used_before as int] == frame.start);
                }
                assert(!mapper.mappings().contains_key(page.start));
                assert forall|p: u64| #[trigger] mapper.mappings().contains_key(p) implies mapper.mappings()[p]
                    != frame.start by {}
                assert(!mapper.frame_in_use(frame.start));
                frames.lemma_used_bounded();
            }
        }
        match mapper.map_to(page, frame, FLAG_PRESENT | FLAG_WRITABLE, frames) {
            Ok(()) => {},
            Err(e) => {
                return Err(e);
            },
        }
        assert(mapper.mappings().contains_key(heap_page(k as int)));
        proof {
            if heap_range_free(*old(mapper), *old(frames)) {
                frames.lemma_used_bounded();
                assert forall|x: u64| #[trigger] issued_before.contains(x) implies frames.issued().contains(x) by {
                    let i = choose|i: int| 0 <= i < issued_before.len() && issued_before[i] == x;
                    assert(frames.issued()[i] == x);
                }
                assert(frames.issued()[used_before as int] == frame.start);
                assert(frames.issued().contains(frame.start));
                assert(mapper.mappings() == before_map.insert(page.start, frame.start));
                assert forall|p: u64| #[trigger] mapper.mappings().contains_key(p) implies !(HEAP_START
                    + (k + 1) * PAGE_SIZE <= p < HEAP_START + HEAP_SIZE) && (frames.issued().contains(
                    mapper.mappings()[p],
                ) || !frames.frames().contains(mapper.mappings()[p])) by {
                    if p != page.start {
                        assert(before_map.contains_key(p));
                        assert(mapper.mappings()[p] == before_map[p]);
                    }
                }
            }
        }
        k = k + 1;
    }
    Ok(Heap::init(HEAP_START, HEAP_SIZE))
}

} // verus!
