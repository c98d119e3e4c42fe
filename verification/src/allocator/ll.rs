use vstd::prelude::*;
use vstd::pervasive::unreached;
use crate::allocator::align_up;
use crate::allocator::align_up_spec;
use crate::allocator::lemma_align_up_is_least;
use crate::allocator::norm_align;
use crate::allocator::norm_size;
use crate::allocator::valid_layout;
use crate::allocator::NODE_ALIGN;
use crate::allocator::NODE_SIZE;
use crate::allocator::is_aligned;
use crate::allocator::valid_align;
use vstd::arithmetic::div_mod::lemma_fundamental_div_mod;
use vstd::arithmetic::div_mod::lemma_mod_mod;
use vstd::arithmetic::div_mod::lemma_mod_self_0;
use vstd::arithmetic::div_mod::lemma_small_mod;

verus! {

/// A span of addresses: `size` bytes from `start` on.
pub struct Region {
    pub start: int,
    pub size: int,
}

impl Region {
    /// The first address behind the span.
    pub open spec fn end(self) -> int {
        self.start + self.size
    }

    /// The two spans share no byte.
    pub open spec fn disjoint(self, other: Region) -> bool {
        self.end() <= other.start || other.end() <= self.start
    }

    /// The span lies inside `outer`.
    pub open spec fn within(self, outer: Region) -> bool {
        outer.start <= self.start && self.end() <= outer.end()
    }

    /// The span can be linked into the free list: a header fits at its start,
    /// suitably aligned, and the span ends inside the address space.
    pub open spec fn linkable(self) -> bool {
        &&& 0 <= self.start
        &&& self.start % (NODE_ALIGN as int) == 0
        &&& self.size >= NODE_SIZE
        &&& self.end() <= usize::MAX
    }
}

/// The header of one free region: where the region starts and how long it is.
pub struct LLNode {
    start: usize,
    size: usize,
}

impl View for LLNode {
    type V = Region;

    closed spec fn view(&self) -> Region {
        Region { start: self.start as int, size: self.size as int }
    }
}

impl LLNode {
    /// The region ends inside the address space.
    pub open spec fn wf(&self) -> bool {
        0 <= self@.start && 0 <= self@.size && self@.end() <= usize::MAX
    }

    pub fn new(start: usize, size: usize) -> (node: Self)
        requires
            start + size <= usize::MAX,
        ensures
            node@ == (Region { start: start as int, size: size as int }),
            node.wf(),
    {
        LLNode { start, size }
    }

    pub fn start_addr(&self) -> (addr: usize)
        ensures
            addr == self@.start,
    {
        self.start
    }

    pub fn end_addr(&self) -> (addr: usize)
        requires
            self.wf(),
        ensures
            addr == self@.end(),
    {
        self.start + self.size
    }

    pub fn size(&self) -> (size: usize)
        ensures
            size == self@.size,
    {
        self.size
    }
}

/// Where an allocation of `size` bytes aligned to `align` would start inside
/// the free region `r`: at the first aligned address of `r`, provided the
/// allocation ends inside `r` and what is left behind it is either nothing or
/// enough for a header. `None` when `r` does not qualify.
pub open spec fn fit(r: Region, size: int, align: int) -> Option<int> {
    let start = align_up_spec(r.start, align);
    let excess = r.end() - (start + size);
    if excess == 0 || excess >= NODE_SIZE {
        Some(start)
    } else {
        None
    }
}

/// The index of the region that an allocation is carved from: the qualifying
/// region nearest to the head of the list, which is the last element of `free`.
pub open spec fn first_fit(free: Seq<Region>, size: int, align: int) -> Option<int>
    decreases free.len(),
{
    if free.len() == 0 {
        None
    } else if fit(free.last(), size, align) is Some {
        Some(free.len() - 1)
    } else {
        first_fit(free.drop_last(), size, align)
    }
}

/// `first_fit` names a qualifying region with no qualifying region between it
/// and the head, and names none only when no region qualifies.
pub proof fn lemma_first_fit(free: Seq<Region>, size: int, align: int)
    ensures
        match first_fit(free, size, align) {
            Some(i) => {
                &&& 0 <= i < free.len()
                &&& fit(free[i], size, align) is Some
                &&& forall|j: int| i < j < free.len() ==> fit(#[trigger] free[j], size, align) is None
            },
            None => forall|j: int| 0 <= j < free.len() ==> fit(#[trigger] free[j], size, align) is None,
        },
    decreases free.len(),
{
    if free.len() > 0 && fit(free.last(), size, align) is None {
        let front = free.drop_last();
        lemma_first_fit(front, size, align);
        assert forall|j: int| 0 <= j < front.len() implies front[j] == free[j] by {}
        match first_fit(front, size, align) {
            Some(i) => {
                assert forall|j: int| i < j < free.len() implies fit(
                    #[trigger] free[j],
                    size,
                    align,
                ) is None by {
                    if j < front.len() {
                        assert(front[j] == free[j]);
                    }
                }
            },
            None => {
                assert forall|j: int| 0 <= j < free.len() implies fit(
                    #[trigger] free[j],
                    size,
                    align,
                ) is None by {
                    if j < front.len() {
                        assert(front[j] == free[j]);
                    }
                }
            },
        }
    }
}

/// The state of a heap: the range it manages once it is initialized, the free
/// regions in list order with the head last, and the blocks handed out and not
/// yet returned.
pub struct HeapView {
    pub heap: Option<Region>,
    pub free: Seq<Region>,
    pub live: Set<Region>,
}

impl HeapView {
    /// `r` lies inside the managed range.
    pub open spec fn in_heap(self, r: Region) -> bool {
        self.heap matches Some(range) && r.within(range)
    }

    /// The managed range, every free region and every live block can be
    /// linked; the regions and blocks lie in the managed range, and no two of
    /// them share a byte.
    pub open spec fn wf(self) -> bool {
        &&& self.heap is None ==> self.free.len() == 0 && self.live == Set::<Region>::empty()
        &&& self.heap matches Some(range) ==> range.linkable()
        &&& forall|i: int|
            0 <= i < self.free.len() ==> (#[trigger] self.free[i]).linkable() && self.in_heap(
                self.free[i],
            )
        &&& forall|b: Region| #[trigger] self.live.contains(b) ==> b.linkable() && self.in_heap(b)
        &&& forall|i: int, j: int|
            0 <= i < j < self.free.len() ==> (#[trigger] self.free[i]).disjoint(
                #[trigger] self.free[j],
            )
        &&& forall|a: Region, b: Region|
            #[trigger] self.live.contains(a) && #[trigger] self.live.contains(b) && a != b
                ==> a.disjoint(b)
        &&& forall|i: int, b: Region|
            0 <= i < self.free.len() && #[trigger] self.live.contains(b) ==> (
            #[trigger] self.free[i]).disjoint(b)
    }

    /// A heap that manages nothing yet.
    pub open spec fn uninit() -> HeapView {
        HeapView { heap: None, free: Seq::empty(), live: Set::empty() }
    }
}

/// The sum of the sizes of the regions in `free`.
pub open spec fn total_size(free: Seq<Region>) -> int
    decreases free.len(),
{
    if free.len() == 0 {
        0
    } else {
        total_size(free.drop_last()) + free.last().size
    }
}

/// The heap after a request for `size` bytes aligned to `align`, and the
/// address handed out. The qualifying region nearest to the head leaves the
/// list, the block starts at its first aligned address, and what is left
/// behind the block becomes the new head. What lies before the block is given
/// up. Without a qualifying region nothing changes.
pub open spec fn alloc_step(h: HeapView, size: usize, align: usize) -> (HeapView, Option<int>) {
    let n = norm_size(size, align);
    let a = norm_align(align) as int;
    match first_fit(h.free, n, a) {
        None => (h, None),
        Some(i) => {
            let r = h.free[i];
            let block = Region { start: align_up_spec(r.start, a), size: n };
            let rest = h.free.remove(i);
            let free = if block.end() < r.end() {
                rest.push(Region { start: block.end(), size: r.end() - block.end() })
            } else {
                rest
            };
            (HeapView { heap: h.heap, free, live: h.live.insert(block) }, Some(block.start))
        },
    }
}

/// The block that a release of `size` bytes at `addr`, aligned to `align`,
/// gives back.
pub open spec fn released_block(addr: int, size: usize, align: usize) -> Region {
    Region { start: addr, size: norm_size(size, align) }
}

/// The heap after that release: the block becomes the head of the free list.
pub open spec fn dealloc_step(h: HeapView, addr: int, size: usize, align: usize) -> HeapView {
    let block = released_block(addr, size, align);
    HeapView { heap: h.heap, free: h.free.push(block), live: h.live.remove(block) }
}


/// A multiple of a multiple of `b` is a multiple of `b`.
pub proof fn lemma_multiple_of_multiple(x: int, a: int, b: int)
    requires
        0 < a,
        0 < b,
        x % a == 0,
        a % b == 0,
    ensures
        x % b == 0,
{
    let m = a / b;
    lemma_fundamental_div_mod(a, b);
    assert(a == b * m);
    assert(m > 0) by (nonlinear_arith)
        requires
            a == b * m,
            a > 0,
            b > 0,
    ;
    lemma_mod_mod(x, b, m);
    lemma_small_mod(0, b as nat);
}

/// The alignment served is a multiple of the alignment asked for and of the
/// header's alignment.
pub proof fn lemma_norm_align(align: usize)
    requires
        valid_align(align),
    ensures
        norm_align(align) >= NODE_ALIGN,
        norm_align(align) >= align,
        norm_align(align) % NODE_ALIGN == 0,
        norm_align(align) % align == 0,
{
    if align >= NODE_ALIGN {
        lemma_mod_self_0(align as int);
    }
    if align > NODE_ALIGN {
        lemma_small_mod(NODE_ALIGN as nat, align as nat);
    }
}

/// The size served covers the size asked for, holds a header, keeps the
/// header's alignment for what follows the block, and fits in `isize`.
pub proof fn lemma_norm_size(size: usize, align: usize)
    requires
        valid_layout(size, align),
    ensures
        size <= norm_size(size, align) <= isize::MAX,
        norm_size(size, align) >= NODE_SIZE,
        norm_size(size, align) % (NODE_ALIGN as int) == 0,
{
    lemma_norm_align(align);
    let na = norm_align(align) as int;
    lemma_align_up_is_least(size as int, na);
    let padded = align_up_spec(size as int, na);
    assert(is_aligned(padded, na));
    lemma_multiple_of_multiple(padded, na, NODE_ALIGN as int);
}

/// A request on a well-formed heap leaves it well-formed. A block handed out
/// is aligned as asked, lies in the managed range inside what was one free
/// region, and shares no byte with any block that was live before.
pub proof fn lemma_alloc_step(h: HeapView, size: usize, align: usize)
    requires
        h.wf(),
        valid_layout(size, align),
    ensures
        alloc_step(h, size, align).0.wf(),
        match alloc_step(h, size, align).1 {
            Some(addr) => {
                let block = Region { start: addr, size: norm_size(size, align) };
                &&& 0 <= addr <= usize::MAX
                &&& addr % (align as int) == 0
                &&& block.linkable()
                &&& h.in_heap(block)
                &&& !h.live.contains(block)
                &&& alloc_step(h, size, align).0.live == h.live.insert(block)
                &&& forall|b: Region| #[trigger] h.live.contains(b) ==> b.disjoint(block)
                &&& exists|i: int| 0 <= i < h.free.len() && block.within(#[trigger] h.free[i])
            },
            None => alloc_step(h, size, align).0 == h,
        },
{
    let n = norm_size(size, align);
    let a = norm_align(align) as int;
    lemma_norm_align(align);
    lemma_norm_size(size, align);
    lemma_first_fit(h.free, n, a);
    match first_fit(h.free, n, a) {
        None => {},
        Some(i) => {
            let r = h.free[i];
            let block = Region { start: align_up_spec(r.start, a), size: n };
            let h2 = alloc_step(h, size, align).0;
            let rest = h.free.remove(i);
            assert(r.linkable() && h.in_heap(r));
            lemma_align_up_is_least(r.start, a);
            assert(is_aligned(block.start, a));
            lemma_multiple_of_multiple(block.start, a, NODE_ALIGN as int);
            lemma_multiple_of_multiple(block.start, a, align as int);
            assert(block.within(r));
            assert(block.linkable());
            h.free.remove_ensures(i);
            assert forall|k: int| 0 <= k < rest.len() implies (#[trigger] rest[k]).linkable()
                && h.in_heap(rest[k]) && rest[k].disjoint(r) by {
                let src = if k < i { k } else { k + 1 };
                assert(rest[k] == h.free[src]);
                if src < i {
                    assert(h.free[src].disjoint(h.free[i]));
                } else {
                    assert(h.free[i].disjoint(h.free[src]));
                }
            }
            assert forall|j: int, k: int| 0 <= j < k < rest.len() implies (#[trigger] rest[j]).disjoint(
                #[trigger] rest[k],
            ) by {
                let sj = if j < i { j } else { j + 1 };
                let sk = if k < i { k } else { k + 1 };
                assert(rest[j] == h.free[sj]);
                assert(rest[k] == h.free[sk]);
                assert(h.free[sj].disjoint(h.free[sk]));
            }
            assert forall|k: int, b: Region| 0 <= k < rest.len() && #[trigger] h.live.contains(
                b,
            ) implies (#[trigger] rest[k]).disjoint(b) by {
                let src = if k < i { k } else { k + 1 };
                assert(rest[k] == h.free[src]);
                assert(h.free[src].disjoint(b));
            }
            assert forall|b: Region| #[trigger] h.live.contains(b) implies b.disjoint(block) by {
                assert(h.free[i].disjoint(b));
            }
            if h.live.contains(block) {
                assert(h.free[i].disjoint(block));
            }
            assert(h2.live == h.live.insert(block));
            if block.end() < r.end() {
                let tail = Region { start: block.end(), size: r.end() - block.end() };
                assert(tail.within(r));
                assert(tail.linkable());
                assert(h2.free == rest.push(tail));
                assert forall|k: int| 0 <= k < h2.free.len() implies (#[trigger] h2.free[k]).linkable()
                    && h2.in_heap(h2.free[k]) by {
                    if k < rest.len() {
                        assert(h2.free[k] == rest[k]);
                    }
                }
                assert forall|j: int, k: int| 0 <= j < k < h2.free.len() implies (
                #[trigger] h2.free[j]).disjoint(#[trigger] h2.free[k]) by {
                    assert(h2.free[j] == rest[j]);
                    if k < rest.len() {
                        assert(h2.free[k] == rest[k]);
                    }
                }
                assert forall|k: int, b: Region| 0 <= k < h2.free.len() && #[trigger] h2.live.contains(
                    b,
                ) implies (#[trigger] h2.free[k]).disjoint(b) by {
                    if k < rest.len() {
                        assert(h2.free[k] == rest[k]);
                    }
                    if b != block {
                        assert(h.live.contains(b));
                    }
                }
            } else {
                assert(h2.free == rest);
                assert forall|k: int, b: Region| 0 <= k < h2.free.len() && #[trigger] h2.live.contains(
                    b,
                ) implies (#[trigger] h2.free[k]).disjoint(b) by {
                    if b != block {
                        assert(h.live.contains(b));
                    }
                }
            }
            assert forall|b: Region| #[trigger] h2.live.contains(b) implies b.linkable()
                && h2.in_heap(b) by {
                if b != block {
                    assert(h.live.contains(b));
                }
            }
            assert forall|b: Region, c: Region| #[trigger]
                h2.live.contains(b) && #[trigger] h2.live.contains(c) && b != c implies b.disjoint(
                c,
            ) by {
                if b != block {
                    assert(h.live.contains(b));
                }
                if c != block {
                    assert(h.live.contains(c));
                }
            }
            assert(h2.wf());
        },
    }
}

/// Giving back a live block of a well-formed heap leaves it well-formed.
pub proof fn lemma_dealloc_step(h: HeapView, addr: int, size: usize, align: usize)
    requires
        h.wf(),
        h.live.contains(released_block(addr, size, align)),
    ensures
        dealloc_step(h, addr, size, align).wf(),
{
    let block = released_block(addr, size, align);
    let h2 = dealloc_step(h, addr, size, align);
    assert(block.linkable() && h.in_heap(block));
    assert forall|k: int| 0 <= k < h2.free.len() implies (#[trigger] h2.free[k]).linkable()
        && h2.in_heap(h2.free[k]) by {
        if k < h.free.len() {
            assert(h2.free[k] == h.free[k]);
        }
    }
    assert forall|j: int, k: int| 0 <= j < k < h2.free.len() implies (#[trigger] h2.free[j]).disjoint(
        #[trigger] h2.free[k],
    ) by {
        assert(h2.free[j] == h.free[j]);
        if k < h.free.len() {
            assert(h2.free[k] == h.free[k]);
        } else {
            assert(h.free[j].disjoint(block));
        }
    }
    assert forall|k: int, b: Region| 0 <= k < h2.free.len() && #[trigger] h2.live.contains(
        b,
    ) implies (#[trigger] h2.free[k]).disjoint(b) by {
        assert(h.live.contains(b));
        if k < h.free.len() {
            assert(h2.free[k] == h.free[k]);
        } else {
            assert(b != block);
        }
    }
    assert forall|b: Region| #[trigger] h2.live.contains(b) implies b.linkable() && h2.in_heap(
        b,
    ) by {
        assert(h.live.contains(b));
    }
    assert forall|b: Region, c: Region| #[trigger]
        h2.live.contains(b) && #[trigger] h2.live.contains(c) && b != c implies b.disjoint(c) by {
        assert(h.live.contains(b));
        assert(h.live.contains(c));
    }
}


/// The request could not be served: no free region qualifies.
#[derive(Debug, Clone, Copy, PartialEq, Eq)]
pub struct OutOfMemory;

/// A free-list allocator over one contiguous range of addresses.
///
/// The free regions form a list whose head is the region that was freed last.
/// A request is served from the qualifying region nearest to the head; a
/// release puts the block at the head, without merging it with its
/// neighbours.
pub struct LLAllocator {
    regions: Vec<LLNode>,
    live: Ghost<Set<Region>>,
    heap: Ghost<Option<Region>>,
}

impl View for LLAllocator {
    type V = HeapView;

    closed spec fn view(&self) -> HeapView {
        HeapView {
            heap: self.heap@,
            free: self.regions@.map_values(|node: LLNode| node@),
            live: self.live@,
        }
    }
}

impl LLAllocator {
    /// The heap is well-formed.
    pub open spec fn wf(&self) -> bool {
        self@.wf()
    }

    /// An allocator that manages no memory yet.
    pub fn new() -> (allocator: Self)
        ensures
            allocator@ == HeapView::uninit(),
            allocator.wf(),
    {
        let allocator = LLAllocator {
            regions: Vec::new(),
            live: Ghost(Set::empty()),
            heap: Ghost(None),
        };
        assert(allocator@.free =~= Seq::<Region>::empty());
        allocator
    }

    /// Hands the range of `heap_size` bytes from `heap_start` on to the
    /// allocator, as one free region. To be called once, before any request.
    pub fn init(&mut self, heap_start: usize, heap_size: usize)
        requires
            old(self)@ == HeapView::uninit(),
            heap_start % NODE_ALIGN == 0,
            heap_size >= NODE_SIZE,
            heap_start + heap_size <= usize::MAX,
        ensures
            final(self).wf(),
            final(self)@ == (HeapView {
                heap: Some(Region { start: heap_start as int, size: heap_size as int }),
                free: seq![Region { start: heap_start as int, size: heap_size as int }],
                live: Set::empty(),
            }),
    {
        self.heap = Ghost(Some(Region { start: heap_start as int, size: heap_size as int }));
        self.add_free_region(heap_start, heap_size);
        assert(self@.free =~= seq![Region { start: heap_start as int, size: heap_size as int }]);
    }

    /// Puts the region of `size` bytes at `addr` at the head of the free list.
    fn add_free_region(&mut self, addr: usize, size: usize)
        requires
            addr % NODE_ALIGN == 0,
            size >= NODE_SIZE,
            addr + size <= usize::MAX,
        ensures
            final(self)@ == (HeapView {
                free: old(self)@.free.push(Region { start: addr as int, size: size as int }),
                ..old(self)@
            }),
    {
        let node = LLNode::new(addr, size);
        self.regions.push(node);
        assert(self@.free =~= old(self)@.free.push(Region { start: addr as int, size: size as int }));
    }

    /// Takes the qualifying region nearest to the head out of the free list and
    /// returns it with the address at which the allocation starts in it.
    fn find_region(&mut self, size: usize, align: usize) -> (found: Option<(LLNode, usize)>)
        requires
            old(self).wf(),
            align > 0,
        ensures
            final(self)@.heap == old(self)@.heap,
            final(self)@.live == old(self)@.live,
            match first_fit(old(self)@.free, size as int, align as int) {
                Some(i) => {
                    &&& found matches Some((node, start))
                    &&& node@ == old(self)@.free[i]
                    &&& node.wf()
                    &&& fit(node@, size as int, align as int) == Some(start as int)
                    &&& final(self)@.free == old(self)@.free.remove(i)
                },
                None => found is None && final(self)@.free == old(self)@.free,
            },
    {
        let ghost free = self@.free;
        let mut i: usize = self.regions.len();
        assert(free.take(i as int) =~= free);
        while i > 0
            invariant
                i <= self.regions.len(),
                *self == *old(self),
                free == self@.free,
                self.wf(),
                align > 0,
                first_fit(free, size as int, align as int) == first_fit(
                    free.take(i as int),
                    size as int,
                    align as int,
                ),
            decreases i,
        {
            i = i - 1;
            let ghost prefix = free.take(i + 1);
            assert(prefix.last() == free[i as int]);
            assert(prefix.drop_last() =~= free.take(i as int));
            assert(free[i as int].linkable());
            match Self::calculate_start(&self.regions[i], size, align) {
                Ok(alloc_start) => {
                    let region = self.regions.remove(i);
                    assert(self@.free =~= free.remove(i as int));
                    return Some((region, alloc_start));
                },
                Err(_) => {},
            }
        }
        assert(free.take(0) =~= Seq::<Region>::empty());
        None
    }

    /// Where an allocation of `size` bytes aligned to `align` starts in
    /// `region`, if the region qualifies for it.
    pub fn calculate_start(region: &LLNode, size: usize, align: usize) -> (start: Result<usize, ()>)
        requires
            region.wf(),
            align > 0,
        ensures
            match start {
                Ok(addr) => fit(region@, size as int, align as int) == Some(addr as int),
                Err(_) => fit(region@, size as int, align as int) is None,
            },
    {
        let alloc_start = match align_up(region.start_addr(), align) {
            Some(addr) => addr,
            None => {
                return Err(());
            },
        };
        let alloc_end = match alloc_start.checked_add(size) {
            Some(addr) => addr,
            None => {
                return Err(());
            },
        };

        if alloc_end > region.end_addr() {
            return Err(());
        }
        let excess_size = region.end_addr() - alloc_end;
        if excess_size > 0 && excess_size < NODE_SIZE {
            return Err(());
        }
        Ok(alloc_start)
    }

    /// The size and alignment that a request is served with.
    pub fn size_align(size: usize, align: usize) -> (served: (usize, usize))
        requires
            valid_layout(size, align),
        ensures
            served.0 == norm_size(size, align),
            served.1 == norm_align(align),
    {
        let align = if align < NODE_ALIGN {
            NODE_ALIGN
        } else {
            align
        };
        proof {
            lemma_align_up_is_least(size as int, align as int);
        }
        let padded = match align_up(size, align) {
            Some(padded) => padded,
            None => unreached(),
        };
        let size = if padded < NODE_SIZE {
            NODE_SIZE
        } else {
            padded
        };
        (size, align)
    }

    /// Serves a request for `size` bytes aligned to `align`: the address of the
    /// block, or `OutOfMemory` when no free region qualifies.
    pub fn allocate(&mut self, size: usize, align: usize) -> (block: Result<usize, OutOfMemory>)
        requires
            old(self).wf(),
            valid_layout(size, align),
        ensures
            final(self).wf(),
            final(self)@ == alloc_step(old(self)@, size, align).0,
            match block {
                Ok(addr) => {
                    let handed_out = Region { start: addr as int, size: norm_size(size, align) };
                    &&& alloc_step(old(self)@, size, align).1 == Some(addr as int)
                    &&& addr % align == 0
                    &&& old(self)@.in_heap(handed_out)
                    &&& forall|b: Region| #[trigger]
                        old(self)@.live.contains(b) ==> b.disjoint(handed_out)
                    &&& 0 <= total_size(old(self)@.free) - handed_out.size - total_size(
                        final(self)@.free,
                    ) <= align - 1
                },
                Err(_) => alloc_step(old(self)@, size, align).1 is None && final(self)@ == old(
                    self,
                )@,
            },
    {
        proof {
            lemma_alloc_step(self@, size, align);
            lemma_alloc_bytes(self@, size, align);
            lemma_norm_align(align);
            lemma_norm_size(size, align);
        }
        let (size, align) = Self::size_align(size, align);
        match self.find_region(size, align) {
            Some((region, alloc_start)) => {
                proof {
                    lemma_first_fit(old(self)@.free, size as int, align as int);
                    lemma_align_up_is_least(region@.start, align as int);
                    lemma_multiple_of_multiple(alloc_start as int, align as int, NODE_ALIGN as int);
                }
                let alloc_end = alloc_start + size;
                let excess_size = region.end_addr() - alloc_end;
                if excess_size > 0 {
                    self.add_free_region(alloc_end, excess_size);
                }
                self.live = Ghost(
                    self.live@.insert(Region { start: alloc_start as int, size: size as int }),
                );
                Ok(alloc_start)
            },
            None => Err(OutOfMemory),
        }
    }

    /// Takes back the block at `addr` that was handed out for `size` bytes
    /// aligned to `align`. It becomes the head of the free list.
    pub fn deallocate(&mut self, addr: usize, size: usize, align: usize)
        requires
            old(self).wf(),
            valid_layout(size, align),
            old(self)@.live.contains(released_block(addr as int, size, align)),
        ensures
            final(self).wf(),
            final(self)@ == dealloc_step(old(self)@, addr as int, size, align),
            total_size(final(self)@.free) == total_size(old(self)@.free) + norm_size(size, align),
    {
        proof {
            lemma_dealloc_step(self@, addr as int, size, align);
            lemma_dealloc_bytes(self@, addr as int, size, align);
        }
        let (size, _) = Self::size_align(size, align);
        self.live = Ghost(self.live@.remove(Region { start: addr as int, size: size as int }));
        self.add_free_region(addr, size);
    }

    /// The number of regions in the free list.
    pub fn free_regions(&self) -> (count: usize)
        ensures
            count == self@.free.len(),
    {
        self.regions.len()
    }

    /// The number of free bytes: the sizes of all free regions, added up.
    pub fn free_bytes(&self) -> (bytes: usize)
        requires
            self.wf(),
        ensures
            bytes == total_size(self@.free),
            self@.heap matches Some(range) ==> bytes <= range.size,
    {
        let ghost free = self@.free;
        proof {
            lemma_free_bytes_bounded(self@);
        }
        let mut bytes: usize = 0;
        let mut i: usize = 0;
        while i < self.regions.len()
            invariant
                i <= self.regions.len(),
                free == self@.free,
                self.wf(),
                bytes == total_size(free.take(i as int)),
                total_size(free) <= usize::MAX,
            decreases self.regions.len() - i,
        {
            let ghost next = free.take(i + 1);
            assert(next.drop_last() =~= free.take(i as int));
            assert(next.last() == free[i as int]);
            proof {
                assert forall|k: int| 0 <= k < free.len() implies (#[trigger] free[k]).size >= 0 by {
                    assert(free[k].linkable());
                }
                lemma_total_size_prefix(free, i + 1);
            }
            bytes = bytes + self.regions[i].size();
            i = i + 1;
        }
        assert(free.take(i as int) =~= free);
        bytes
    }
}

/// One call on the allocator.
pub enum HeapOp {
    Allocate { size: usize, align: usize },
    Deallocate { addr: usize, size: usize, align: usize },
}

/// The call is one that the allocator accepts in the state `h`: its layout is
/// valid, and what it gives back is a live block.
pub open spec fn op_allowed(h: HeapView, op: HeapOp) -> bool {
    match op {
        HeapOp::Allocate { size, align } => valid_layout(size, align),
        HeapOp::Deallocate { addr, size, align } => valid_layout(size, align) && h.live.contains(
            released_block(addr as int, size, align),
        ),
    }
}

/// The heap after the call.
pub open spec fn apply_op(h: HeapView, op: HeapOp) -> HeapView {
    match op {
        HeapOp::Allocate { size, align } => alloc_step(h, size, align).0,
        HeapOp::Deallocate { addr, size, align } => dealloc_step(h, addr as int, size, align),
    }
}

/// The heap after the calls `ops`, made in this order.
pub open spec fn run_ops(h: HeapView, ops: Seq<HeapOp>) -> HeapView
    decreases ops.len(),
{
    if ops.len() == 0 {
        h
    } else {
        apply_op(run_ops(h, ops.drop_last()), ops.last())
    }
}

/// Each of the calls `ops` is accepted in the state in which it is made.
pub open spec fn ops_allowed(h: HeapView, ops: Seq<HeapOp>) -> bool
    decreases ops.len(),
{
    ops.len() == 0 || (ops_allowed(h, ops.drop_last()) && op_allowed(
        run_ops(h, ops.drop_last()),
        ops.last(),
    ))
}

/// Whatever calls are made on a well-formed heap, in whatever order, no two
/// live blocks ever share a byte, and the heap stays well-formed.
pub proof fn lemma_live_blocks_never_overlap(h: HeapView, ops: Seq<HeapOp>)
    requires
        h.wf(),
        ops_allowed(h, ops),
    ensures
        run_ops(h, ops).wf(),
        forall|a: Region, b: Region|
            #[trigger] run_ops(h, ops).live.contains(a) && #[trigger] run_ops(h, ops).live.contains(
                b,
            ) && a != b ==> a.disjoint(b),
    decreases ops.len(),
{
    if ops.len() > 0 {
        lemma_live_blocks_never_overlap(h, ops.drop_last());
        let before = run_ops(h, ops.drop_last());
        match ops.last() {
            HeapOp::Allocate { size, align } => {
                lemma_alloc_step(before, size, align);
            },
            HeapOp::Deallocate { addr, size, align } => {
                lemma_dealloc_step(before, addr as int, size, align);
            },
        }
    }
}

/// Adding a region adds its size.
pub proof fn lemma_total_size_push(free: Seq<Region>, r: Region)
    ensures
        total_size(free.push(r)) == total_size(free) + r.size,
{
    assert(free.push(r).drop_last() =~= free);
}

/// Removing a region takes its size away.
pub proof fn lemma_total_size_remove(free: Seq<Region>, i: int)
    requires
        0 <= i < free.len(),
    ensures
        total_size(free.remove(i)) == total_size(free) - free[i].size,
    decreases free.len(),
{
    if i == free.len() - 1 {
        assert(free.remove(i) =~= free.drop_last());
    } else {
        lemma_total_size_remove(free.drop_last(), i);
        assert(free.remove(i) =~= free.drop_last().remove(i).push(free.last()));
        lemma_total_size_push(free.drop_last().remove(i), free.last());
    }
}

/// The heap after a request that is followed at once by the release of what
/// it handed out. A request that fails leaves the heap as it is.
pub open spec fn cycle(h: HeapView, size: usize, align: usize) -> HeapView {
    match alloc_step(h, size, align).1 {
        Some(addr) => dealloc_step(alloc_step(h, size, align).0, addr, size, align),
        None => h,
    }
}

/// The heap after `n` such cycles.
pub open spec fn cycles(h: HeapView, size: usize, align: usize, n: nat) -> HeapView
    decreases n,
{
    if n == 0 {
        h
    } else {
        cycle(cycles(h, size, align, (n - 1) as nat), size, align)
    }
}

/// The index of a region that starts at the greatest address.
pub open spec fn last_region(regions: Seq<Region>) -> int
    decreases regions.len(),
{
    if regions.len() <= 1 {
        0
    } else {
        let k = last_region(regions.drop_last());
        if regions.last().start >= regions[k].start {
            regions.len() - 1
        } else {
            k
        }
    }
}

/// No region starts behind the one that `last_region` names.
pub proof fn lemma_last_region(regions: Seq<Region>)
    requires
        regions.len() > 0,
    ensures
        0 <= last_region(regions) < regions.len(),
        forall|i: int|
            0 <= i < regions.len() ==> (#[trigger] regions[i]).start
                <= regions[last_region(regions)].start,
    decreases regions.len(),
{
    if regions.len() > 1 {
        let front = regions.drop_last();
        lemma_last_region(front);
        assert forall|i: int| 0 <= i < regions.len() implies (#[trigger] regions[i]).start
            <= regions[last_region(regions)].start by {
            if i < front.len() {
                assert(front[i] == regions[i]);
            }
        }
    }
}

/// Regions that share no byte and lie between `lo` and `hi` have no more
/// bytes between them than lie between `lo` and `hi`.
pub proof fn lemma_disjoint_regions_fit(regions: Seq<Region>, lo: int, hi: int)
    requires
        lo <= hi,
        forall|i: int|
            0 <= i < regions.len() ==> (#[trigger] regions[i]).size > 0 && lo <= regions[i].start
                && regions[i].end() <= hi,
        forall|i: int, j: int|
            0 <= i < j < regions.len() ==> (#[trigger] regions[i]).disjoint(#[trigger] regions[j]),
    ensures
        total_size(regions) <= hi - lo,
    decreases regions.len(),
{
    if regions.len() > 0 {
        let k = last_region(regions);
        lemma_last_region(regions);
        let last = regions[k];
        let rest = regions.remove(k);
        regions.remove_ensures(k);
        lemma_total_size_remove(regions, k);
        assert forall|i: int| 0 <= i < rest.len() implies (#[trigger] rest[i]).size > 0 && lo
            <= rest[i].start && rest[i].end() <= last.start by {
            let src = if i < k { i } else { i + 1 };
            assert(rest[i] == regions[src]);
            assert(regions[src].start <= last.start);
            if src < k {
                assert(regions[src].disjoint(regions[k]));
            } else {
                assert(regions[k].disjoint(regions[src]));
            }
        }
        assert forall|i: int, j: int| 0 <= i < j < rest.len() implies (#[trigger] rest[i]).disjoint(
            #[trigger] rest[j],
        ) by {
            let si = if i < k { i } else { i + 1 };
            let sj = if j < k { j } else { j + 1 };
            assert(rest[i] == regions[si]);
            assert(rest[j] == regions[sj]);
            assert(regions[si].disjoint(regions[sj]));
        }
        lemma_disjoint_regions_fit(rest, lo, last.start);
    }
}

/// The free bytes of a well-formed heap are no more than the range that it
/// manages holds.
pub proof fn lemma_free_bytes_bounded(h: HeapView)
    requires
        h.wf(),
    ensures
        0 <= total_size(h.free),
        h.heap matches Some(range) ==> total_size(h.free) <= range.size,
        h.heap is None ==> total_size(h.free) == 0,
        total_size(h.free) <= usize::MAX,
{
    lemma_total_size_prefix(h.free, h.free.len() as int);
    assert(h.free.take(h.free.len() as int) =~= h.free);
    match h.heap {
        Some(range) => {
            if h.free.len() > 0 {
                assert(h.free[0].linkable() && h.in_heap(h.free[0]));
                lemma_disjoint_regions_fit(h.free, range.start, range.end());
                assert(0 <= h.free[0].start);
            }
        },
        None => {},
    }
}

/// The sizes of the first `n` regions add up to no more than the sizes of
/// all, where no size is negative.
pub proof fn lemma_total_size_prefix(free: Seq<Region>, n: int)
    requires
        0 <= n <= free.len(),
        forall|i: int| 0 <= i < free.len() ==> (#[trigger] free[i]).size >= 0,
    ensures
        0 <= total_size(free.take(n)) <= total_size(free),
    decreases free.len() - n,
{
    if n == free.len() {
        assert(free.take(n) =~= free);
        lemma_total_size_nonnegative(free);
    } else {
        lemma_total_size_prefix(free, n + 1);
        assert(free.take(n + 1).drop_last() =~= free.take(n));
        assert(free.take(n + 1).last() == free[n]);
        lemma_total_size_nonnegative(free.take(n));
    }
}

/// Sizes that are not negative add up to a sum that is not negative.
pub proof fn lemma_total_size_nonnegative(free: Seq<Region>)
    requires
        forall|i: int| 0 <= i < free.len() ==> (#[trigger] free[i]).size >= 0,
    ensures
        0 <= total_size(free),
    decreases free.len(),
{
    if free.len() > 0 {
        assert forall|i: int| 0 <= i < free.drop_last().len() implies (#[trigger] free.drop_last()[i]).size
            >= 0 by {
            assert(free.drop_last()[i] == free[i]);
        }
        lemma_total_size_nonnegative(free.drop_last());
    }
}

/// What a request costs in free bytes: nothing when it fails; else the size
/// served and what lay before the block in its region, which is less than the
/// alignment asked for.
pub proof fn lemma_alloc_bytes(h: HeapView, size: usize, align: usize)
    requires
        h.wf(),
        valid_layout(size, align),
    ensures
        match alloc_step(h, size, align).1 {
            Some(_) => {
                let lost = total_size(h.free) - norm_size(size, align) - total_size(
                    alloc_step(h, size, align).0.free,
                );
                0 <= lost <= align - 1
            },
            None => total_size(alloc_step(h, size, align).0.free) == total_size(h.free),
        },
{
    let n = norm_size(size, align);
    let a = norm_align(align) as int;
    lemma_norm_align(align);
    lemma_first_fit(h.free, n, a);
    match first_fit(h.free, n, a) {
        None => {},
        Some(i) => {
            let r = h.free[i];
            let block = Region { start: align_up_spec(r.start, a), size: n };
            assert(r.linkable());
            lemma_align_up_is_least(r.start, a);
            if align < NODE_ALIGN {
                assert(block.start == r.start);
            }
            let rest = h.free.remove(i);
            lemma_total_size_remove(h.free, i);
            if block.end() < r.end() {
                lemma_total_size_push(
                    rest,
                    Region { start: block.end(), size: r.end() - block.end() },
                );
            }
        },
    }
}

/// A release gives back the size served, to the byte.
pub proof fn lemma_dealloc_bytes(h: HeapView, addr: int, size: usize, align: usize)
    ensures
        total_size(dealloc_step(h, addr, size, align).free) == total_size(h.free) + norm_size(
            size,
            align,
        ),
{
    lemma_total_size_push(h.free, released_block(addr, size, align));
}

/// A request followed by the release of its block keeps the live blocks, and
/// costs fewer free bytes than the alignment asked for: only what lay before
/// the block in its region is lost.
pub proof fn lemma_cycle(h: HeapView, size: usize, align: usize)
    requires
        h.wf(),
        valid_layout(size, align),
    ensures
        cycle(h, size, align).wf(),
        cycle(h, size, align).heap == h.heap,
        cycle(h, size, align).live == h.live,
        total_size(h.free) - (align - 1) <= total_size(cycle(h, size, align).free) <= total_size(
            h.free,
        ),
{
    lemma_alloc_step(h, size, align);
    lemma_alloc_bytes(h, size, align);
    match alloc_step(h, size, align).1 {
        None => {},
        Some(addr) => {
            let h1 = alloc_step(h, size, align).0;
            assert(h1.live.contains(released_block(addr, size, align)));
            lemma_dealloc_step(h1, addr, size, align);
            lemma_dealloc_bytes(h1, addr, size, align);
            assert(cycle(h, size, align).live =~= h.live);
        },
    }
}

/// `n` such cycles in a row keep the live blocks and cost at most
/// `n * (align - 1)` free bytes.
pub proof fn lemma_cycles(h: HeapView, size: usize, align: usize, n: nat)
    requires
        h.wf(),
        valid_layout(size, align),
    ensures
        cycles(h, size, align, n).wf(),
        cycles(h, size, align, n).heap == h.heap,
        cycles(h, size, align, n).live == h.live,
        total_size(h.free) - n * (align - 1) <= total_size(cycles(h, size, align, n).free)
            <= total_size(h.free),
    decreases n,
{
    if n > 0 {
        let m = (n - 1) as nat;
        lemma_cycles(h, size, align, m);
        lemma_cycle(cycles(h, size, align, m), size, align);
        assert(m * (align - 1) + (align - 1) == n * (align - 1)) by (nonlinear_arith)
            requires
                m == n - 1,
        ;
    }
}

} // verus!
