use vstd::arithmetic::div_mod::{lemma_fundamental_div_mod, lemma_mod_multiples_basic};
use vstd::prelude::*;

verus! {

/// A run of `size` free bytes starting at `start`.
#[derive(Clone, Copy, Debug, PartialEq, Eq, Structural)]
pub struct Block {
    pub start: u64,
    pub size: u64,
}

pub open spec fn in_block(b: Block, x: int) -> bool {
    b.start <= x < b.start + b.size
}

/// The addresses `[start, start + size)`.
pub open spec fn span(start: int, size: int) -> Set<int> {
    Set::new(|x: int| start <= x < start + size)
}

/// Bytes to skip from `start` up to the next multiple of `align`.
pub open spec fn padding(start: int, align: int) -> int {
    if start % align == 0 {
        0
    } else {
        align - start % align
    }
}

/// Whether `size` bytes aligned to `align` can be carved out of `b`.
pub open spec fn fits(b: Block, size: int, align: int) -> bool {
    padding(b.start as int, align) + size <= b.size
}

/// A first-fit allocator over one fixed range of addresses.
///
/// It keeps the free bytes as a list of disjoint blocks. An allocation takes
/// the first block that can hold it and returns what is left of that block
/// to the list; a freed range goes to the front of the list as a block of its
/// own, so it is the first to be reused.
pub struct Heap {
    bottom: u64,
    size: u64,
    free: Vec<Block>,
}

impl Heap {
    /// The range of addresses the heap manages.
    pub closed spec fn region(&self) -> Set<int> {
        span(self.bottom as int, self.size as int)
    }

    pub closed spec fn blocks(&self) -> Seq<Block> {
        self.free@
    }

    /// Every free address.
    pub closed spec fn free_set(&self) -> Set<int> {
        Set::new(|x: int| exists|i: int| 0 <= i < self.free@.len() && in_block(#[trigger] self.free@[i], x))
    }

    /// Whether some free block can hold `size` bytes aligned to `align`.
    pub open spec fn can_allocate(&self, size: int, align: int) -> bool {
        exists|i: int| 0 <= i < self.blocks().len() && fits(#[trigger] self.blocks()[i], size, align)
    }

    /// Whether `[start, start + size)` is one of the free blocks.
    pub open spec fn has_block(&self, start: int, size: int) -> bool {
        exists|i: int| 0 <= i < self.blocks().len() && #[trigger] self.blocks()[i] == Block { start: start as u64, size: size as u64 }
    }

    pub closed spec fn wf(&self) -> bool {
        &&& self.bottom + self.size <= u64::MAX
        &&& forall|i: int|
            0 <= i < self.free@.len() ==> {
                &&& #[trigger] self.free@[i].size > 0
                &&& self.bottom <= self.free@[i].start
                &&& self.free@[i].start + self.free@[i].size <= self.bottom + self.size
            }
        &&& forall|i: int, j: int|
            0 <= i < self.free@.len() && 0 <= j < self.free@.len() && i != j ==> #[trigger] self.free@[i].start
                + self.free@[i].size <= #[trigger] self.free@[j].start || self.free@[j].start
                + self.free@[j].size <= self.free@[i].start
    }

    /// Free addresses all lie in the managed range.
    pub proof fn lemma_free_in_region(&self)
        requires
            self.wf(),
        ensures
            self.free_set().subset_of(self.region()),
    {
        assert forall|x: int| self.free_set().contains(x) implies self.region().contains(x) by {
            let i = choose|i: int| 0 <= i < self.free@.len() && in_block(#[trigger] self.free@[i], x);
            assert(self.free@[i].size > 0);
        }
    }

    /// A freed block serves again: any later request of at most its size,
    /// with an alignment its address meets, can be satisfied.
    pub proof fn lemma_freed_block_reusable(&self, ptr: u64, size: u64, request: int, align: int)
        requires
            self.has_block(ptr as int, size as int),
            0 < request <= size,
            align > 0,
            ptr as int % align == 0,
        ensures
            self.can_allocate(request, align),
    {
        let i = choose|i: int| 0 <= i < self.blocks().len() && #[trigger] self.blocks()[i] == Block { start: ptr, size };
        assert(fits(self.blocks()[i], request, align));
    }

    /// A new allocation never overlaps a live one: whatever was handed out
    /// and not yet returned lies outside the free set, and every allocation
    /// is taken from inside it and from inside the heap's range.
    pub proof fn lemma_allocation_disjoint_from_live(&self, live: Set<int>, a: int, size: int)
        requires
            self.wf(),
            live.disjoint(self.free_set()),
            span(a, size).subset_of(self.free_set()),
        ensures
            span(a, size).disjoint(live),
            span(a, size).subset_of(self.region()),
    {
        self.lemma_free_in_region();
    }

    /// A heap over `[bottom, bottom + size)` with every byte free.
    pub fn init(bottom: u64, size: u64) -> (r: Self)
        requires
            bottom + size <= u64::MAX,
        ensures
            r.wf(),
            r.region() == span(bottom as int, size as int),
            r.free_set() == r.region(),
            size > 0 ==> r.has_block(bottom as int, size as int),
            size > 0 ==> r.blocks() == seq![Block { start: bottom, size }],
            size == 0 ==> r.blocks() == Seq::<Block>::empty(),
    {
        let mut free: Vec<Block> = Vec::new();
        if size > 0 {
            free.push(Block { start: bottom, size });
        }
        let r = Heap { bottom, size, free };
        assert forall|x: int| r.region().contains(x) implies r.free_set().contains(x) by {
            assert(in_block(r.free@[0], x));
        }
        assert(r.free_set() =~= r.region());
        if size > 0 {
            assert(r.blocks()[0] == Block { start: bottom, size });
            assert(r.blocks() =~= seq![Block { start: bottom, size }]);
        } else {
            assert(r.blocks() =~= Seq::<Block>::empty());
        }
        r
    }
    /// Hands out `size` bytes aligned to `align` from the first free block that
    /// can hold them, or `None` when no free block can.
    pub fn allocate(&mut self, size: u64, align: u64) -> (r: Option<u64>)
        requires
            old(self).wf(),
            size > 0,
            align > 0,
        ensures
            final(self).wf(),
            final(self).region() == old(self).region(),
            r is Some <==> old(self).can_allocate(size as int, align as int),
            r is None ==> final(self).free_set() == old(self).free_set(),
            r matches Some(a) ==> exists|i: int|
                0 <= i < old(self).blocks().len() && #[trigger] fits(
                    old(self).blocks()[i],
                    size as int,
                    align as int,
                ) && (forall|j: int|
                    0 <= j < i ==> !fits(#[trigger] old(self).blocks()[j], size as int, align as int))
                    && a == old(self).blocks()[i].start + padding(
                    old(self).blocks()[i].start as int,
                    align as int,
                ),
            r matches Some(a) ==> {
                &&& a % align == 0
                &&& span(a as int, size as int).subset_of(old(self).free_set())
                &&& final(self).free_set() == old(self).free_set().difference(
                    span(a as int, size as int),
                )
            },
    {
        let mut i: usize = 0;
        while i < self.free.len()
            invariant
                self.free@ == old(self).free@,
                self.bottom == old(self).bottom,
                self.size == old(self).size,
                self.wf(),
                size > 0,
                align > 0,
                0 <= i <= self.free@.len(),
                forall|j: int| 0 <= j < i ==> !fits(#[trigger] self.free@[j], size as int, align as int),
            decreases self.free@.len() - i,
        {
            let b = self.free[i];
            let rem = b.start % align;
            let pad = if rem == 0 {
                0
            } else {
                align - rem
            };
            if pad <= b.size && size <= b.size - pad {
                let a = b.start + pad;
                proof {
                    lemma_fundamental_div_mod(b.start as int, align as int);
                    lemma_mod_multiples_basic(b.start as int / align as int + 1, align as int);
                    let q = b.start as int / align as int;
                    if rem != 0 {
                        assert(a == (q + 1) * align) by (nonlinear_arith)
                            requires
                                b.start == align * q + rem,
                                a == b.start + align - rem,
                        ;
                    } else {
                        lemma_mod_multiples_basic(q, align as int);
                        assert(a == q * align) by (nonlinear_arith)
                            requires
                                b.start == align * q + rem,
                                a == b.start,
                                rem == 0,
                        ;
                    }
                    assert(fits(b, size as int, align as int));
                    assert(fits(old(self).blocks()[i as int], size as int, align as int));
                }
                let tail = b.size - pad - size;
                self.free.remove(i);
                if pad > 0 {
                    self.free.push(Block { start: b.start, size: pad });
                }
                if tail > 0 {
                    self.free.push(Block { start: a + size, size: tail });
                }
                proof {
                    self.lemma_carve(*old(self), i as int, b, a as int, size as int, pad as int, tail as int);
                }
                return Some(a);
            }
            i = i + 1;
        }
        proof {
            if old(self).can_allocate(size as int, align as int) {
                let j = choose|j: int| 0 <= j < old(self).blocks().len() && fits(#[trigger] old(self).blocks()[j], size as int, align as int);
                assert(!fits(self.free@[j], size as int, align as int));
            }
        }
        None
    }

    /// What `allocate` leaves behind after carving `[a, a + size)` out of
    /// block `i`, with the pieces before and after it put back.
    proof fn lemma_carve(&self, prev: Heap, i: int, b: Block, a: int, size: int, pad: int, tail: int)
        requires
            prev.wf(),
            0 <= i < prev.free@.len(),
            b == prev.free@[i],
            pad >= 0,
            tail >= 0,
            size > 0,
            a == b.start + pad,
            b.size == pad + size + tail,
            self.bottom == prev.bottom,
            self.size == prev.size,
            self.free@ == {
                let s0 = prev.free@.remove(i);
                let s1 = if pad > 0 { s0.push(Block { start: b.start, size: pad as u64 }) } else { s0 };
                if tail > 0 { s1.push(Block { start: (a + size) as u64, size: tail as u64 }) } else { s1 }
            },
        ensures
            self.wf(),
            span(a, size).subset_of(prev.free_set()),
            self.free_set() == prev.free_set().difference(span(a, size)),
    {
        let s0 = prev.free@.remove(i);
        let n0 = s0.len();
        assert forall|k: int| 0 <= k < self.free@.len() implies {
            ||| (k < n0 && #[trigger] self.free@[k] == s0[k])
            ||| (k >= n0 && b.start <= self.free@[k].start && self.free@[k].start + self.free@[k].size <= b.start + b.size)
        } by {
            if k < n0 {
                assert(self.free@[k] == s0[k]);
            }
        }
        assert forall|k: int| 0 <= k < n0 implies #[trigger] s0[k] == prev.free@[if k < i { k } else { k + 1 }] by {}
        assert forall|k: int| 0 <= k < n0 implies (#[trigger] s0[k]).start + s0[k].size <= b.start || b.start + b.size <= s0[k].start by {
            let kk = if k < i { k } else { k + 1 };
            assert(prev.free@[kk] == s0[k]);
            assert(kk != i);
        }
        assert(self.wf()) by {
            assert forall|p: int, q: int|
                0 <= p < self.free@.len() && 0 <= q < self.free@.len() && p != q implies #[trigger] self.free@[p].start
                    + self.free@[p].size <= #[trigger] self.free@[q].start || self.free@[q].start
                    + self.free@[q].size <= self.free@[p].start by {
                if p < n0 && q < n0 {
                    let pp = if p < i { p } else { p + 1 };
                    let qq = if q < i { q } else { q + 1 };
                    assert(prev.free@[pp] == s0[p]);
                    assert(prev.free@[qq] == s0[q]);
                }
            }
            assert forall|k: int| 0 <= k < self.free@.len() implies {
                &&& #[trigger] self.free@[k].size > 0
                &&& self.bottom <= self.free@[k].start
                &&& self.free@[k].start + self.free@[k].size <= self.bottom + self.size
            } by {
                if k < n0 {
                    let kk = if k < i { k } else { k + 1 };
                    assert(prev.free@[kk] == s0[k]);
                }
                assert(prev.free@[i].size > 0);
            }
        }
        assert forall|x: int| span(a, size).contains(x) implies prev.free_set().contains(x) by {
            assert(in_block(prev.free@[i], x));
        }
        assert forall|x: int| self.free_set().contains(x) <==> prev.free_set().difference(span(a, size)).contains(x) by {
            if self.free_set().contains(x) {
                let k = choose|k: int| 0 <= k < self.free@.len() && in_block(#[trigger] self.free@[k], x);
                if k < n0 {
                    let kk = if k < i { k } else { k + 1 };
                    assert(prev.free@[kk] == s0[k]);
                    assert(in_block(prev.free@[kk], x));
                } else {
                    assert(in_block(prev.free@[i], x));
                }
            }
            if prev.free_set().difference(span(a, size)).contains(x) {
                let k = choose|k: int| 0 <= k < prev.free@.len() && in_block(#[trigger] prev.free@[k], x);
                if k == i {
                    if x < a {
                        let m = self.free@.len() - (if tail > 0 { 2int } else { 1int });
                        assert(self.free@[m] == Block { start: b.start, size: pad as u64 });
                        assert(in_block(self.free@[m], x));
                    } else {
                        let m = self.free@.len() - 1;
                        assert(self.free@[m] == Block { start: (a + size) as u64, size: tail as u64 });
                        assert(in_block(self.free@[m], x));
                    }
                } else {
                    let kk = if k < i { k } else { k - 1 };
                    assert(s0[kk] == prev.free@[k]);
                    assert(self.free@[kk] == s0[kk]);
                    assert(in_block(self.free@[kk], x));
                }
            }
        }
        assert(self.free_set() =~= prev.free_set().difference(span(a, size)));
    }

    /// Gives `[ptr, ptr + size)` back: it becomes the first free block.
    pub fn deallocate(&mut self, ptr: u64, size: u64)
        requires
            old(self).wf(),
            size > 0,
            span(ptr as int, size as int).subset_of(old(self).region()),
            span(ptr as int, size as int).disjoint(old(self).free_set()),
        ensures
            final(self).wf(),
            final(self).region() == old(self).region(),
            final(self).free_set() == old(self).free_set().union(span(ptr as int, size as int)),
            final(self).blocks() == old(self).blocks().insert(0, Block { start: ptr, size }),
            final(self).has_block(ptr as int, size as int),
    {
        proof {
            assert(span(ptr as int, size as int).contains(ptr as int));
            assert(span(ptr as int, size as int).contains(ptr + size - 1));
        }
        let nb = Block { start: ptr, size };
        let ghost prev = self.free@;
        self.free.insert(0, nb);
        proof {
            let n = prev.len() as int;
            assert(self.free@[0] == nb);
            assert forall|k: int| 0 <= k < n implies #[trigger] self.free@[k + 1] == prev[k] by {}
            assert forall|k: int| 0 <= k < n implies (#[trigger] prev[k]).start + prev[k].size <= ptr || ptr + size <= prev[k].start by {
                if !(prev[k].start + prev[k].size <= ptr || ptr + size <= prev[k].start) {
                    let x = if prev[k].start <= ptr { ptr as int } else { prev[k].start as int };
                    assert(in_block(prev[k], x));
                    assert(old(self).free_set().contains(x));
                    assert(span(ptr as int, size as int).contains(x));
                }
            }
            assert forall|p: int, q: int|
                0 <= p < self.free@.len() && 0 <= q < self.free@.len() && p != q implies #[trigger] self.free@[p].start
                    + self.free@[p].size <= #[trigger] self.free@[q].start || self.free@[q].start
                    + self.free@[q].size <= self.free@[p].start by {
                if p > 0 && q > 0 {
                    assert(self.free@[p] == prev[p - 1]);
                    assert(self.free@[q] == prev[q - 1]);
                } else if p > 0 {
                    assert(self.free@[p] == prev[p - 1]);
                } else {
                    assert(self.free@[q] == prev[q - 1]);
                }
            }
            assert forall|k: int| 0 <= k < self.free@.len() implies {
                &&& #[trigger] self.free@[k].size > 0
                &&& self.bottom <= self.free@[k].start
                &&& self.free@[k].start + self.free@[k].size <= self.bottom + self.size
            } by {
                if k > 0 {
                    assert(self.free@[k] == prev[k - 1]);
                }
            }
            assert forall|x: int| self.free_set().contains(x) <==> old(self).free_set().union(span(ptr as int, size as int)).contains(x) by {
                if self.free_set().contains(x) {
                    let k = choose|k: int| 0 <= k < self.free@.len() && in_block(#[trigger] self.free@[k], x);
                    if k > 0 {
                        assert(self.free@[k] == prev[k - 1]);
                        assert(in_block(prev[k - 1], x));
                    }
                }
                if old(self).free_set().contains(x) {
                    let k = choose|k: int| 0 <= k < prev.len() && in_block(#[trigger] prev[k], x);
                    assert(self.free@[k + 1] == prev[k]);
                    assert(in_block(self.free@[k + 1], x));
                } else if span(ptr as int, size as int).contains(x) {
                    assert(in_block(self.free@[0], x));
                }
            }
            assert(self.free_set() =~= old(self).free_set().union(span(ptr as int, size as int)));
            assert(self.blocks()[0] == nb);
        }
    }
}

} // verus!
