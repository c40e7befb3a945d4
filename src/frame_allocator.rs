use vstd::prelude::*;

verus! {

/// Size of one physical frame, in bytes.
pub const PAGE_SIZE: usize = 4096;

/// Physical address of frame 0.
pub const MEMORY_OFFSET: usize = 0x8000_0000;

/// Number of free entries (`false`) in an allocation bitmap.
pub open spec fn free_count(bits: Seq<bool>) -> nat
    decreases bits.len(),
{
    if bits.len() == 0 {
        0
    } else {
        free_count(bits.drop_last()) + if bits.last() {
            0nat
        } else {
            1nat
        }
    }
}

/// `id` is the lowest free frame of `bits`.
pub open spec fn is_lowest_free(bits: Seq<bool>, id: int) -> bool {
    &&& 0 <= id < bits.len()
    &&& !bits[id]
    &&& forall|j: int| 0 <= j < id ==> bits[j]
}

/// Every frame of `bits` is allocated.
pub open spec fn all_allocated(bits: Seq<bool>) -> bool {
    forall|j: int| 0 <= j < bits.len() ==> bits[j]
}

/// A fixed-capacity bitmap over the physical frames: bit `i` is set exactly
/// when frame `i` is allocated.
pub struct FrameAllocator {
    bits: Vec<bool>,
}

impl View for FrameAllocator {
    type V = Seq<bool>;

    closed spec fn view(&self) -> Seq<bool> {
        self.bits@
    }
}

impl FrameAllocator {
    /// An allocator over `capacity` frames, all of them free.
    pub fn new(capacity: usize) -> (r: FrameAllocator)
        ensures
            r@ == Seq::new(capacity as nat, |i: int| false),
    {
        let mut bits: Vec<bool> = Vec::new();
        let mut i: usize = 0;
        while i < capacity
            invariant
                i <= capacity,
                bits@ == Seq::new(i as nat, |k: int| false),
            decreases capacity - i,
        {
            bits.push(false);
            i = i + 1;
            assert(bits@ =~= Seq::new(i as nat, |k: int| false));
        }
        FrameAllocator { bits }
    }

    /// Number of frames that the allocator manages.
    pub fn capacity(&self) -> (r: usize)
        ensures
            r == self@.len(),
    {
        self.bits.len()
    }

    /// Whether frame `id` is currently allocated.
    pub fn is_allocated(&self, id: usize) -> (r: bool)
        requires
            id < self@.len(),
        ensures
            r == self@[id as int],
    {
        self.bits[id]
    }

    /// Takes the lowest free frame, or `None` when every frame is allocated.
    pub fn allocate(&mut self) -> (r: Option<usize>)
        ensures
            match r {
                None => all_allocated(old(self)@) && *final(self) == *old(self),
                Some(id) => is_lowest_free(old(self)@, id as int) && final(self)@ == old(
                    self,
                )@.update(id as int, true),
            },
    {
        let n = self.bits.len();
        let mut i: usize = 0;
        while i < n
            invariant
                n == self@.len(),
                *self == *old(self),
                i <= n,
                forall|j: int| 0 <= j < i ==> self@[j],
            decreases n - i,
        {
            if !self.bits[i] {
                self.bits.set(i, true);
                return Some(i);
            }
            i = i + 1;
        }
        None
    }

    /// Returns frame `id` to the allocator.
    pub fn deallocate(&mut self, id: usize)
        requires
            id < old(self)@.len(),
            old(self)@[id as int],
        ensures
            final(self)@ == old(self)@.update(id as int, false),
    {
        self.bits.set(id, false);
    }

    /// Number of free frames.
    pub fn free_count(&self) -> (r: usize)
        ensures
            r == free_count(self@),
    {
        let n = self.bits.len();
        let mut count: usize = 0;
        let mut i: usize = 0;
        while i < n
            invariant
                n == self@.len(),
                i <= n,
                count == free_count(self@.take(i as int)),
                count <= i,
            decreases n - i,
        {
            assert(self@.take(i + 1).drop_last() =~= self@.take(i as int));
            if !self.bits[i] {
                count = count + 1;
            }
            i = i + 1;
        }
        assert(self@.take(n as int) =~= self@);
        count
    }
}

/// Physical address of frame `id`.
pub open spec fn frame_addr(id: int) -> int {
    id * PAGE_SIZE + MEMORY_OFFSET
}

/// Takes the lowest free frame and gives its physical address. `None`,
/// with the allocator unchanged, when every frame is allocated, or when the
/// lowest free frame has no address that fits in `usize`.
pub fn alloc_frame(allocator: &mut FrameAllocator) -> (r: Option<usize>)
    ensures
        match r {
            None => final(allocator)@ == old(allocator)@ && (all_allocated(old(allocator)@) || exists|
                id: int,
            | #[trigger] is_lowest_free(old(allocator)@, id) && frame_addr(id) > usize::MAX),
            Some(addr) => exists|id: int|
                #![trigger is_lowest_free(old(allocator)@, id)]
                {
                    &&& is_lowest_free(old(allocator)@, id)
                    &&& addr == frame_addr(id)
                    &&& final(allocator)@ == old(allocator)@.update(id, true)
                },
        },
{
    match allocator.allocate() {
        None => None,
        Some(id) => {
            if id > (usize::MAX - MEMORY_OFFSET) / PAGE_SIZE {
                proof {
                    assert(frame_addr(id as int) > usize::MAX) by (nonlinear_arith)
                        requires
                            id > (usize::MAX - MEMORY_OFFSET) / 4096,
                            MEMORY_OFFSET == 0x8000_0000,
                            PAGE_SIZE == 4096,
                    ;
                }
                allocator.deallocate(id);
                proof {
                    assert(allocator@ =~= old(allocator)@);
                }
                return None;
            }
            proof {
                assert(id * PAGE_SIZE + MEMORY_OFFSET <= usize::MAX) by (nonlinear_arith)
                    requires
                        id <= (usize::MAX - MEMORY_OFFSET) / 4096,
                        MEMORY_OFFSET == 0x8000_0000,
                        PAGE_SIZE == 4096,
                ;
            }
            Some(id * PAGE_SIZE + MEMORY_OFFSET)
        },
    }
}

/// Different frames have different physical addresses, so two frames that
/// `alloc_frame` hands out at once are never the same memory.
pub proof fn lemma_frame_addr_injective(i: int, j: int)
    requires
        0 <= i,
        0 <= j,
        frame_addr(i) == frame_addr(j),
    ensures
        i == j,
{
    assert(i == j) by (nonlinear_arith)
        requires
            i * 4096 == j * 4096,
    ;
}

/// Returns the frame at physical address `target` to the allocator.
pub fn dealloc_frame(allocator: &mut FrameAllocator, target: usize)
    requires
        target >= MEMORY_OFFSET,
        (target - MEMORY_OFFSET) / (PAGE_SIZE as int) < old(allocator)@.len(),
        old(allocator)@[(target - MEMORY_OFFSET) / (PAGE_SIZE as int)],
    ensures
        final(allocator)@ == old(allocator)@.update((target - MEMORY_OFFSET) / (PAGE_SIZE as int), false),
{
    allocator.deallocate((target - MEMORY_OFFSET) / PAGE_SIZE);
}

/// Changing one entry of a bitmap changes its free count by that entry alone.
pub proof fn lemma_free_count_update(bits: Seq<bool>, i: int, b: bool)
    requires
        0 <= i < bits.len(),
    ensures
        free_count(bits.update(i, b)) + (if bits[i] { 0int } else { 1int }) == free_count(bits)
            + (if b { 0int } else { 1int }),
    decreases bits.len(),
{
    let u = bits.update(i, b);
    if i == bits.len() - 1 {
        assert(u.drop_last() =~= bits.drop_last());
    } else {
        assert(u.drop_last() =~= bits.drop_last().update(i, b));
        lemma_free_count_update(bits.drop_last(), i, b);
    }
}

/// A bitmap has no free frame exactly when every frame is allocated.
pub proof fn lemma_free_count_zero(bits: Seq<bool>)
    ensures
        free_count(bits) == 0 <==> all_allocated(bits),
    decreases bits.len(),
{
    if bits.len() > 0 {
        lemma_free_count_zero(bits.drop_last());
        if all_allocated(bits) {
            assert(all_allocated(bits.drop_last()));
        }
        if free_count(bits) == 0 {
            assert forall|j: int| 0 <= j < bits.len() implies bits[j] by {
                if j < bits.len() - 1 {
                    assert(bits[j] == bits.drop_last()[j]);
                }
            }
        }
    }
}

/// A frame that is allocated is never the one that `allocate` hands out: a
/// frame comes back from `allocate` again only after it was deallocated, and
/// two allocations in a row give two different frames.
pub proof fn lemma_allocated_never_returned(bits: Seq<bool>, held: int, id: int)
    requires
        0 <= held < bits.len(),
        bits[held],
        is_lowest_free(bits, id),
    ensures
        id != held,
        !is_lowest_free(bits.update(id, true), id),
{
}

/// Deallocating the frame that `allocate` has just handed out restores the
/// bitmap, and with it the free count.
pub proof fn lemma_alloc_dealloc_round_trip(bits: Seq<bool>, id: int)
    requires
        is_lowest_free(bits, id),
    ensures
        bits.update(id, true).update(id, false) == bits,
        free_count(bits.update(id, true).update(id, false)) == free_count(bits),
        free_count(bits.update(id, true)) + 1 == free_count(bits),
{
    assert(bits.update(id, true).update(id, false) =~= bits);
    lemma_free_count_update(bits, id, true);
}

/// Each allocation takes one free frame; once none is left, `allocate`
/// reports exhaustion instead of handing out a frame in use.
pub proof fn lemma_exhaustion(bits: Seq<bool>)
    ensures
        free_count(bits) == 0 <==> !exists|id: int| is_lowest_free(bits, id),
        forall|id: int| is_lowest_free(bits, id) ==> free_count(bits.update(id, true)) + 1
            == free_count(bits),
{
    lemma_free_count_zero(bits);
    if free_count(bits) != 0 {
        let k = choose|k: int| 0 <= k < bits.len() && !bits[k];
        lemma_lowest_free_exists(bits, k);
    }
    assert forall|id: int| is_lowest_free(bits, id) implies free_count(bits.update(id, true)) + 1
        == free_count(bits) by {
        lemma_free_count_update(bits, id, true);
    }
}

/// A bitmap with a free frame at or below `k` has a lowest free frame.
proof fn lemma_lowest_free_exists(bits: Seq<bool>, k: int)
    requires
        0 <= k < bits.len(),
        !bits[k],
    ensures
        exists|id: int| is_lowest_free(bits, id),
    decreases k,
{
    if forall|j: int| 0 <= j < k ==> bits[j] {
        assert(is_lowest_free(bits, k));
    } else {
        let j = choose|j: int| 0 <= j < k && !bits[j];
        lemma_lowest_free_exists(bits, j);
    }
}

} // verus!
