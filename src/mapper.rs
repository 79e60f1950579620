use vstd::hash_map::HashMapWithView;
use vstd::prelude::*;

use crate::frame::{BootInfoFrameAllocator, PhysicalFrame};

verus! {

broadcast use vstd::std_specs::hash::group_hash_axioms;

/// A page of virtual memory, named by its first address.
#[derive(Clone, Copy, Debug, PartialEq, Eq, Structural)]
pub struct VirtualPage {
    pub start: u64,
}

/// Span in bytes covered by one table of each of the three lower levels.
pub const LEVEL1_SPAN: u64 = 0x20_0000;

pub const LEVEL2_SPAN: u64 = 0x4000_0000;

pub const LEVEL3_SPAN: u64 = 0x80_0000_0000;

/// Bits of a page-table entry.
pub const FLAG_PRESENT: u64 = 1;

pub const FLAG_WRITABLE: u64 = 2;

/// Why a mapping could not be installed.
#[derive(Clone, Copy, Debug, PartialEq, Eq, Structural)]
pub enum MapToError {
    /// No frame was left for a page table that the mapping needed.
    FrameAllocationFailed,
    /// The page is mapped already, or the frame backs another page.
    PageAlreadyMapped,
}

/// The page-table hierarchy of the kernel's address space.
///
/// The root table always exists; a table of each lower level is created, from
/// a frame of the frame source, the first time a page under it is mapped.
/// Each present mapping takes its page to one frame, and no frame backs
/// two pages.
pub struct Mapper {
    level3: HashMapWithView<u64, u64>,
    level2: HashMapWithView<u64, u64>,
    level1: HashMapWithView<u64, u64>,
    entries: HashMapWithView<u64, (u64, u64)>,
    owners: HashMapWithView<u64, u64>,
}

/// Whether one more table is needed for `key` at a level whose tables are
/// `tables`.
pub open spec fn missing(tables: Map<u64, u64>, key: u64) -> nat {
    if tables.contains_key(key) {
        0
    } else {
        1
    }
}

/// Whether `p` and `q` lie under the same table at every level.
pub open spec fn same_tables(p: VirtualPage, q: VirtualPage) -> bool {
    &&& p.start / LEVEL3_SPAN == q.start / LEVEL3_SPAN
    &&& p.start / LEVEL2_SPAN == q.start / LEVEL2_SPAN
    &&& p.start / LEVEL1_SPAN == q.start / LEVEL1_SPAN
}

impl Mapper {
    /// Mappings: page address to frame address.
    pub closed spec fn mappings(&self) -> Map<u64, u64> {
        Map::new(|p: u64| self.entries@.contains_key(p), |p: u64| self.entries@[p].0)
    }

    /// The entry bits of each present mapping.
    pub closed spec fn flags(&self) -> Map<u64, u64> {
        Map::new(|p: u64| self.entries@.contains_key(p), |p: u64| self.entries@[p].1)
    }

    /// How many page tables mapping `page` would have to create.
    pub closed spec fn tables_needed(&self, page: VirtualPage) -> nat {
        missing(self.level3@, page.start / LEVEL3_SPAN) + missing(
            self.level2@,
            page.start / LEVEL2_SPAN,
        ) + missing(self.level1@, page.start / LEVEL1_SPAN)
    }

    /// At most one table per level below the root is ever missing.
    pub proof fn lemma_tables_needed_bounded(&self, p: VirtualPage)
        ensures
            self.tables_needed(p) <= 3,
    {
    }

    /// Pages that lie under the same table at every level need the same
    /// tables.
    pub proof fn lemma_same_tables(&self, p: VirtualPage, q: VirtualPage)
        requires
            same_tables(p, q),
        ensures
            self.tables_needed(p) == self.tables_needed(q),
    {
    }

    /// Whether `frame` backs some page.
    pub open spec fn frame_in_use(&self, frame: u64) -> bool {
        exists|p: u64| #[trigger] self.mappings().contains_key(p) && self.mappings()[p] == frame
    }

    pub closed spec fn wf(&self) -> bool {
        &&& forall|p: u64| #[trigger]
            self.entries@.contains_key(p) ==> self.owners@.contains_key(self.entries@[p].0)
                && self.owners@[self.entries@[p].0] == p
        &&& forall|f: u64| #[trigger]
            self.owners@.contains_key(f) ==> self.entries@.contains_key(self.owners@[f])
                && self.entries@[self.owners@[f]].0 == f
    }

    /// An address space with no mappings and only the root table.
    pub fn new() -> (r: Self)
        ensures
            r.wf(),
            r.mappings() == Map::<u64, u64>::empty(),
            forall|page: VirtualPage| r.tables_needed(page) == 3,
    {
        let r = Mapper {
            level3: HashMapWithView::new(),
            level2: HashMapWithView::new(),
            level1: HashMapWithView::new(),
            entries: HashMapWithView::new(),
            owners: HashMapWithView::new(),
        };
        assert(r.mappings() =~= Map::<u64, u64>::empty());
        r
    }

    /// The frame that backs `page`, or `None` when it is unmapped.
    pub fn translate(&self, page: VirtualPage) -> (r: Option<PhysicalFrame>)
        ensures
            self.mappings().contains_key(page.start) ==> r == Some(
                PhysicalFrame { start: self.mappings()[page.start] },
            ),
            !self.mappings().contains_key(page.start) ==> r is None,
    {
        match self.entries.get(&page.start) {
            Some(e) => Some(PhysicalFrame { start: e.0 }),
            None => None,
        }
    }

    /// Whether `frame` backs some page, found by the reverse lookup.
    pub fn is_frame_used(&self, frame: PhysicalFrame) -> (r: bool)
        requires
            self.wf(),
        ensures
            r == self.frame_in_use(frame.start),
    {
        let r = self.owners.contains_key(&frame.start);
        if r {
            let ghost p = self.owners@[frame.start];
            assert(self.mappings().contains_key(p) && self.mappings()[p] == frame.start);
        }
        r
    }

    /// Makes sure the table under `key` exists, taking a frame for it when it
    /// does not. Returns false when a frame was needed and none was left.
    fn ensure_table(
        tables: &mut HashMapWithView<u64, u64>,
        key: u64,
        frames: &mut BootInfoFrameAllocator,
    ) -> (ok: bool)
        requires
            old(frames).wf(),
        ensures
            final(frames).wf(),
            final(frames).regions() == old(frames).regions(),
            ok == (missing(old(tables)@, key) <= old(frames).remaining()),
            ok ==> final(frames).used() == old(frames).used() + missing(old(tables)@, key),
            !ok ==> final(frames).remaining() == 0,
            final(tables)@.contains_key(key) == ok,
            final(tables)@.dom() == old(tables)@.dom().insert(key) || final(tables)@ == old(
                tables,
            )@,
    {
        proof {
            old(frames).lemma_used_bounded();
        }
        if tables.contains_key(&key) {
            return true;
        }
        match frames.allocate_frame() {
            Some(f) => {
                tables.insert(key, f.start);
                true
            },
            None => false,
        }
    }

    /// Installs a mapping from `page` to `frame` with the entry bits
    /// `flags`, creating from `frames` the tables it needs. An existing
    /// mapping is never overwritten, and a frame never backs two pages.
    pub fn map_to(
        &mut self,
        page: VirtualPage,
        frame: PhysicalFrame,
        flags: u64,
        frames: &mut BootInfoFrameAllocator,
    ) -> (r: Result<(), MapToError>)
        requires
            old(self).wf(),
            old(frames).wf(),
        ensures
            final(self).wf(),
            final(frames).wf(),
            final(frames).regions() == old(frames).regions(),
            r == Err::<(), MapToError>(MapToError::FrameAllocationFailed) <==> old(frames).remaining()
                < old(self).tables_needed(page),
            r == Err::<(), MapToError>(MapToError::PageAlreadyMapped) <==> old(self).tables_needed(page)
                <= old(frames).remaining() && (old(self).mappings().contains_key(page.start)
                || old(self).frame_in_use(frame.start)),
            r is Ok ==> final(self).mappings() == old(self).mappings().insert(
                page.start,
                frame.start,
            ) && final(self).flags()[page.start] == flags,
            r is Err ==> final(self).mappings() == old(self).mappings(),
            r == Err::<(), MapToError>(MapToError::FrameAllocationFailed) ==> final(frames).remaining()
                == 0,
            r != Err::<(), MapToError>(MapToError::FrameAllocationFailed) ==> final(frames).used()
                == old(frames).used() + old(self).tables_needed(page),
            forall|q: VirtualPage| #[trigger]
                final(self).tables_needed(q) <= old(self).tables_needed(q),
            final(self).tables_needed(page) == 0 || r == Err::<(), MapToError>(
                MapToError::FrameAllocationFailed,
            ),
    {
        proof {
            old(frames).lemma_used_bounded();
        }
        if !Self::ensure_table(&mut self.level3, page.start / LEVEL3_SPAN, frames) {
            assert(self.mappings() =~= old(self).mappings());
            return Err(MapToError::FrameAllocationFailed);
        }
        if !Self::ensure_table(&mut self.level2, page.start / LEVEL2_SPAN, frames) {
            assert(self.mappings() =~= old(self).mappings());
            return Err(MapToError::FrameAllocationFailed);
        }
        if !Self::ensure_table(&mut self.level1, page.start / LEVEL1_SPAN, frames) {
            assert(self.mappings() =~= old(self).mappings());
            return Err(MapToError::FrameAllocationFailed);
        }
        assert(self.mappings() =~= old(self).mappings());
        if self.entries.contains_key(&page.start) {
            return Err(MapToError::PageAlreadyMapped);
        }
        if self.owners.contains_key(&frame.start) {
            let ghost p = self.owners@[frame.start];
            assert(self.mappings().contains_key(p) && self.mappings()[p] == frame.start);
            return Err(MapToError::PageAlreadyMapped);
        }
        assert(!old(self).frame_in_use(frame.start));
        self.entries.insert(page.start, (frame.start, flags));
        self.owners.insert(frame.start, page.start);
        assert(self.mappings() =~= old(self).mappings().insert(page.start, frame.start));
        Ok(())
    }
}

} // verus!
