use vstd::prelude::*;

verus! {

/// Size in bytes of a frame and of a page.
pub const PAGE_SIZE: u64 = 4096;

/// A frame of physical memory, named by its first address.
#[derive(Clone, Copy, Debug, PartialEq, Eq, Structural)]
pub struct PhysicalFrame {
    pub start: u64,
}

/// One range `[start, end)` of physical addresses from the boot memory map.
#[derive(Clone, Copy, Debug, PartialEq, Eq, Structural)]
pub struct MemoryRegion {
    pub start: u64,
    pub end: u64,
    pub usable: bool,
}

/// The first addresses of the frames that a region contributes: one per
/// whole page of a usable region, none for a reserved one.
pub open spec fn region_frames(r: MemoryRegion) -> Seq<u64> {
    if r.usable && r.start <= r.end {
        Seq::new(
            ((r.end - r.start) / PAGE_SIZE as int) as nat,
            |k: int| (r.start + k * PAGE_SIZE) as u64,
        )
    } else {
        Seq::empty()
    }
}

/// Every usable frame of a memory map, in region order and then in address
/// order within a region.
pub open spec fn usable_frames(regions: Seq<MemoryRegion>) -> Seq<u64>
    decreases regions.len(),
{
    if regions.len() == 0 {
        Seq::empty()
    } else {
        usable_frames(regions.drop_last()) + region_frames(regions.last())
    }
}

/// A memory map as the bootloader hands it over: page-aligned regions in
/// ascending order that do not overlap.
pub open spec fn memory_map_wf(regions: Seq<MemoryRegion>) -> bool {
    &&& forall|i: int|
        0 <= i < regions.len() ==> {
            &&& regions[i].start <= regions[i].end
            &&& regions[i].start % PAGE_SIZE == 0
            &&& regions[i].end % PAGE_SIZE == 0
        }
    &&& forall|i: int, j: int|
        0 <= i < j < regions.len() ==> regions[i].end <= regions[j].start
}

/// Every frame of a well-formed map lies whole inside the span of its
/// regions, and the frames run strictly upwards.
proof fn lemma_usable_frames_ordered(regions: Seq<MemoryRegion>)
    requires
        memory_map_wf(regions),
    ensures
        forall|a: int, b: int|
            0 <= a < b < usable_frames(regions).len() ==> usable_frames(regions)[a]
                < usable_frames(regions)[b],
        regions.len() > 0 ==> forall|a: int|
            0 <= a < usable_frames(regions).len() ==> usable_frames(regions)[a] + PAGE_SIZE
                <= regions.last().end,
        forall|a: int|
            0 <= a < usable_frames(regions).len() ==> usable_frames(regions)[a]
                % PAGE_SIZE == 0,
        regions.len() > 0 ==> usable_frames(regions).len() * PAGE_SIZE <= regions.last().end,
        regions.len() == 0 ==> usable_frames(regions).len() == 0,
    decreases regions.len(),
{
    if regions.len() > 0 {
        let init = regions.drop_last();
        let r = regions.last();
        assert(memory_map_wf(init));
        lemma_usable_frames_ordered(init);
        let prev = usable_frames(init);
        let own = region_frames(r);
        let all = usable_frames(regions);
        assert(all == prev + own);
        assert(r.start <= r.end);
        assert(r.start % 4096 == 0 && r.end % 4096 == 0);
        let cnt = (r.end - r.start) / 4096;
        assert(cnt * 4096 == r.end - r.start) by (nonlinear_arith)
            requires
                r.start % 4096 == 0,
                r.end % 4096 == 0,
                r.start <= r.end,
                cnt == (r.end - r.start) / 4096,
        ;
        if init.len() > 0 {
            assert(init.last().end <= r.start) by {
                assert(init.last() == regions[regions.len() - 2]);
            }
        }
        assert forall|k: int| 0 <= k < own.len() implies own[k] == r.start + k * 4096 && own[k]
            + 4096 <= r.end && own[k] % 4096 == 0 by {
            assert(k * 4096 + 4096 <= cnt * 4096) by (nonlinear_arith)
                requires
                    k < cnt,
            ;
            assert((r.start + k * 4096) % 4096 == 0) by (nonlinear_arith)
                requires
                    r.start % 4096 == 0,
            ;
        }
        assert forall|a: int, b: int| 0 <= a < b < all.len() implies all[a] < all[b] by {
            if b < prev.len() {
            } else if a < prev.len() {
                assert(all[a] + 4096 <= r.start);
            } else {
                let ka = a - prev.len();
                let kb = b - prev.len();
                assert(ka * 4096 < kb * 4096) by (nonlinear_arith)
                    requires
                        ka < kb,
                ;
            }
        }
        assert forall|a: int| 0 <= a < all.len() implies all[a] + PAGE_SIZE <= r.end by {
            if a < prev.len() {
                assert(all[a] + 4096 <= r.start);
            }
        }
        if init.len() > 0 {
            assert(prev.len() * 4096 <= init.last().end);
        }
        assert(all.len() <= prev.len() + cnt);
        assert(all.len() * 4096 <= r.end) by (nonlinear_arith)
            requires
                all.len() <= prev.len() + cnt,
                prev.len() * 4096 <= r.start,
                cnt * 4096 == r.end - r.start,
        ;
    }
}

/// Hands out the usable frames of a boot memory map one by one, each once.
///
/// Frames are never taken back: the allocator only moves forward.
pub struct BootInfoFrameAllocator {
    memory_map: Vec<MemoryRegion>,
    next: u64,
}

impl BootInfoFrameAllocator {
    /// The regions of the memory map this allocator draws from.
    pub closed spec fn regions(&self) -> Seq<MemoryRegion> {
        self.memory_map@
    }

    /// Every frame the allocator can ever hand out, in the order it does so.
    pub open spec fn frames(&self) -> Seq<u64> {
        usable_frames(self.regions())
    }

    /// How many frames have been handed out so far.
    pub closed spec fn used(&self) -> nat {
        self.next as nat
    }

    /// The frames handed out so far.
    pub open spec fn issued(&self) -> Seq<u64> {
        self.frames().take(self.used() as int)
    }

    /// How many frames are still to be had.
    pub open spec fn remaining(&self) -> nat {
        (self.frames().len() - self.used()) as nat
    }

    pub closed spec fn wf(&self) -> bool {
        &&& memory_map_wf(self.memory_map@)
        &&& self.next <= usable_frames(self.memory_map@).len()
    }

    /// A well-formed allocator has never handed out more frames than it has.
    pub proof fn lemma_used_bounded(&self)
        requires
            self.wf(),
        ensures
            self.used() <= self.frames().len(),
    {
    }

    /// No frame is handed out twice: the frames issued so far are pairwise
    /// distinct.
    pub proof fn lemma_issued_distinct(&self)
        requires
            self.wf(),
        ensures
            self.issued().no_duplicates(),
    {
        lemma_usable_frames_ordered(self.regions());
        let all = self.frames();
        assert forall|i: int, j: int|
            0 <= i < self.issued().len() && 0 <= j < self.issued().len() && i != j implies self.issued()[i]
            != self.issued()[j] by {
            if i < j {
                assert(all[i] < all[j]);
            } else {
                assert(all[j] < all[i]);
            }
        }
    }

    /// An allocator that has handed out nothing yet from `memory_map`.
    pub fn init(memory_map: Vec<MemoryRegion>) -> (r: Self)
        requires
            memory_map_wf(memory_map@),
        ensures
            r.wf(),
            r.regions() == memory_map@,
            r.used() == 0,
    {
        BootInfoFrameAllocator { memory_map, next: 0 }
    }

    /// The next unused usable frame, or `None` once every usable frame has
    /// been handed out (and at every call after that).
    pub fn allocate_frame(&mut self) -> (r: Option<PhysicalFrame>)
        requires
            old(self).wf(),
        ensures
            final(self).wf(),
            final(self).regions() == old(self).regions(),
            old(self).used() < old(self).frames().len() ==> r == Some(
                PhysicalFrame { start: old(self).frames()[old(self).used() as int] },
            ) && final(self).used() == old(self).used() + 1,
            old(self).used() >= old(self).frames().len() ==> r is None && final(self).used()
                == old(self).used(),
            r matches Some(f) ==> !old(self).issued().contains(f.start) && final(self).issued()
                == old(self).issued().push(f.start) && f.start % PAGE_SIZE == 0,
    {
        let ghost regions = self.memory_map@;
        proof {
            lemma_usable_frames_ordered(regions);
        }
        let mut rest: u64 = self.next;
        let mut i: usize = 0;
        while i < self.memory_map.len()
            invariant
                regions == self.memory_map@,
                self.next == old(self).next,
                old(self).memory_map@ == regions,
                self.wf(),
                0 <= i <= regions.len(),
                usable_frames(regions.take(i as int)).len() + rest == self.next,
                usable_frames(regions.take(i as int)) == usable_frames(regions).take(
                    usable_frames(regions.take(i as int)).len() as int,
                ),
            decreases regions.len() - i,
        {
            let r = self.memory_map[i];
            proof {
                assert(regions.take(i + 1).drop_last() == regions.take(i as int));
                assert(regions.take(i + 1).last() == r);
                lemma_prefix_frames(regions, i as int);
            }
            if r.usable {
                let count = (r.end - r.start) / PAGE_SIZE;
                if rest < count {
                    proof {
                        assert(rest * 4096 + 4096 <= r.end - r.start) by (nonlinear_arith)
                            requires
                                rest < count,
                                count == (r.end - r.start) / 4096,
                                r.start <= r.end,
                        ;
                    }
                    let start = r.start + rest * PAGE_SIZE;
                    let ghost all = usable_frames(regions);
                    let ghost k = old(self).next as int;
                    proof {
                        lemma_usable_frames_ordered(regions);
                        let pre = usable_frames(regions.take(i + 1));
                        let p0 = usable_frames(regions.take(i as int));
                        assert(regions[i as int].start <= regions[i as int].end);
                        assert(region_frames(r).len() == count);
                        assert(pre == p0 + region_frames(r));
                        assert(start == r.start + rest * 4096);
                        assert(region_frames(r)[rest as int] == (r.start + rest * PAGE_SIZE) as u64);
                        assert(region_frames(r)[rest as int] == start);
                        assert(pre[k] == start);
                        assert(pre.len() <= all.len());
                        assert(k < pre.len());
                        assert(k < all.len());
                        assert(all[k] == start);
                        assert(all.len() * 4096 <= regions.last().end);
                        assert(all.len() <= 0xffff_ffff_ffff_ffffu64) by (nonlinear_arith)
                            requires
                                all.len() * 4096 <= regions.last().end,
                                regions.last().end <= 0xffff_ffff_ffff_ffffu64,
                        ;
                    }
                    self.next = self.next + 1;
                    proof {
                        lemma_usable_frames_ordered(regions);
                        assert(all[k] == start);
                        assert forall|a: int| 0 <= a < k implies all[a] != start by {
                            assert(all[a] < all[k]);
                        }
                        assert(self.frames() == all);
                        assert(k < all.len());
                        assert(old(self).memory_map@ == regions);
                        assert(old(self).regions() == regions);
                        assert(old(self).frames() == all);
                        assert(self.used() == k + 1);
                        assert(old(self).used() == k);
                        assert(self.issued() =~= all.take(k + 1));
                        assert(old(self).issued() =~= all.take(k));
                        assert(all.take(k + 1) =~= all.take(k).push(start));
                    }
                    return Some(PhysicalFrame { start });
                }
                rest = rest - count;
            }
            i = i + 1;
        }
        proof {
            assert(regions.take(regions.len() as int) =~= regions);
        }
        None
    }
}

/// The frames of the first `i + 1` regions are those of the first `i`
/// followed by those of region `i`, and they open the whole sequence.
proof fn lemma_prefix_frames(regions: Seq<MemoryRegion>, i: int)
    requires
        0 <= i < regions.len(),
        usable_frames(regions.take(i)) == usable_frames(regions).take(
            usable_frames(regions.take(i)).len() as int,
        ),
    ensures
        usable_frames(regions.take(i + 1)) == usable_frames(regions.take(i)) + region_frames(
            regions[i],
        ),
        usable_frames(regions.take(i + 1)) == usable_frames(regions).take(
            usable_frames(regions.take(i + 1)).len() as int,
        ),
        usable_frames(regions.take(i + 1)).len() <= usable_frames(regions).len(),
{
    assert(regions.take(i + 1).drop_last() =~= regions.take(i));
    lemma_frames_prefix_of_whole(regions, i + 1);
}

/// The frames of a prefix of the map open the frames of the whole map.
proof fn lemma_frames_prefix_of_whole(regions: Seq<MemoryRegion>, i: int)
    requires
        0 <= i <= regions.len(),
    ensures
        usable_frames(regions.take(i)) == usable_frames(regions).take(
            usable_frames(regions.take(i)).len() as int,
        ),
        usable_frames(regions.take(i)).len() <= usable_frames(regions).len(),
    decreases regions.len() - i,
{
    if i == regions.len() {
        assert(regions.take(i) =~= regions);
    } else {
        lemma_frames_prefix_of_whole(regions, i + 1);
        assert(regions.take(i + 1).drop_last() =~= regions.take(i));
        let p = usable_frames(regions.take(i));
        let q = usable_frames(regions.take(i + 1));
        assert(q == p + region_frames(regions[i]));
        let whole = usable_frames(regions);
        assert forall|k: int| 0 <= k < p.len() implies p[k] == whole[k] by {
            assert(p[k] == q[k]);
            assert(q[k] == whole.take(q.len() as int)[k]);
        }
        assert(p =~= whole.take(p.len() as int));
    }
}

} // verus!
