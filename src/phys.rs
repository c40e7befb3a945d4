use vstd::prelude::*;
use crate::frame_allocator::{FrameAllocator, PAGE_SIZE, all_allocated, is_lowest_free};

verus! {

/// The physical frames: which are allocated, how many mappings refer to
/// each, and what each holds.
pub struct PhysMemory {
    allocator: FrameAllocator,
    refs: Vec<usize>,
    data: Vec<Vec<u8>>,
}

/// The contents of a freshly cleared frame.
pub open spec fn zero_page() -> Seq<u8> {
    Seq::new(PAGE_SIZE as nat, |i: int| 0u8)
}

impl PhysMemory {
    /// Allocation bitmap: `true` for an allocated frame.
    pub closed spec fn bits(&self) -> Seq<bool> {
        self.allocator@
    }

    /// Number of mappings that refer to each frame.
    pub closed spec fn refs(&self) -> Seq<usize> {
        self.refs@
    }

    /// Contents of each frame.
    pub closed spec fn data(&self) -> Seq<Seq<u8>> {
        self.data@.map_values(|v: Vec<u8>| v@)
    }

    /// Number of frames.
    pub open spec fn capacity(&self) -> nat {
        self.bits().len()
    }

    /// Every frame is a page long, and a frame that a mapping refers to is
    /// allocated.
    pub open spec fn wf(&self) -> bool {
        &&& self.capacity() <= usize::MAX
        &&& self.refs().len() == self.capacity()
        &&& self.data().len() == self.capacity()
        &&& forall|f: int| 0 <= f < self.capacity() ==> #[trigger] self.data()[f].len() == PAGE_SIZE
        &&& forall|f: int| 0 <= f < self.capacity() && #[trigger] self.refs()[f] > 0 ==> self.bits()[f]
    }

    /// `capacity` free, cleared frames.
    pub fn new(capacity: usize) -> (r: PhysMemory)
        ensures
            r.wf(),
            r.bits() == Seq::new(capacity as nat, |i: int| false),
            r.refs() == Seq::new(capacity as nat, |i: int| 0usize),
            r.data() == Seq::new(capacity as nat, |i: int| zero_page()),
    {
        let allocator = FrameAllocator::new(capacity);
        let mut refs: Vec<usize> = Vec::new();
        let mut data: Vec<Vec<u8>> = Vec::new();
        let mut i: usize = 0;
        while i < capacity
            invariant
                i <= capacity,
                refs@ == Seq::new(i as nat, |k: int| 0usize),
                data@.len() == i,
                forall|k: int| 0 <= k < i ==> #[trigger] data@[k]@ == zero_page(),
            decreases capacity - i,
        {
            refs.push(0);
            data.push(zero_frame());
            i = i + 1;
            assert(refs@ =~= Seq::new(i as nat, |k: int| 0usize));
        }
        assert(data@.map_values(|v: Vec<u8>| v@) =~= Seq::new(capacity as nat, |k: int| zero_page()));
        PhysMemory { allocator, refs, data }
    }

    /// Free frames left.
    pub fn free_count(&self) -> (r: usize)
        ensures
            r == crate::frame_allocator::free_count(self.bits()),
    {
        self.allocator.free_count()
    }

    /// Number of mappings that refer to frame `f`.
    pub fn ref_count(&self, f: usize) -> (r: usize)
        requires
            self.wf(),
            f < self.capacity(),
        ensures
            r == self.refs()[f as int],
    {
        self.refs[f]
    }

    /// Byte `offset` of frame `f`.
    pub fn read(&self, f: usize, offset: usize) -> (r: u8)
        requires
            self.wf(),
            f < self.capacity(),
            offset < PAGE_SIZE,
        ensures
            r == self.data()[f as int][offset as int],
    {
        proof {
            assert(self.data()[f as int] == self.data@[f as int]@);
        }
        self.data[f][offset]
    }

    /// Stores `value` at byte `offset` of frame `f`.
    pub fn write(&mut self, f: usize, offset: usize, value: u8)
        requires
            old(self).wf(),
            f < old(self).capacity(),
            offset < PAGE_SIZE,
        ensures
            final(self).wf(),
            final(self).bits() == old(self).bits(),
            final(self).refs() == old(self).refs(),
            final(self).data() == old(self).data().update(
                f as int,
                old(self).data()[f as int].update(offset as int, value),
            ),
    {
        proof {
            assert(self.data()[f as int] == self.data@[f as int]@);
        }
        let mut page = copy_page(&self.data[f]);
        page.set(offset, value);
        self.data.set(f, page);
        proof {
            assert(self.data() =~= old(self).data().update(
                f as int,
                old(self).data()[f as int].update(offset as int, value),
            ));
        }
    }

    /// Takes the lowest free frame for one mapping: it is cleared and its
    /// reference count is one.
    pub fn map_new_frame(&mut self) -> (r: Option<usize>)
        requires
            old(self).wf(),
        ensures
            final(self).wf(),
            match r {
                None => all_allocated(old(self).bits()) && *final(self) == *old(self),
                Some(f) => {
                    &&& is_lowest_free(old(self).bits(), f as int)
                    &&& old(self).refs()[f as int] == 0
                    &&& final(self).bits() == old(self).bits().update(f as int, true)
                    &&& final(self).refs() == old(self).refs().update(f as int, 1)
                    &&& final(self).data() == old(self).data().update(f as int, zero_page())
                },
            },
    {
        match self.allocator.allocate() {
            None => None,
            Some(f) => {
                self.refs.set(f, 1);
                self.data.set(f, zero_frame());
                proof {
                    assert(self.data() =~= old(self).data().update(f as int, zero_page()));
                }
                Some(f)
            },
        }
    }

    /// One more mapping refers to frame `f`.
    pub fn share(&mut self, f: usize)
        requires
            old(self).wf(),
            f < old(self).capacity(),
            old(self).refs()[f as int] > 0,
            old(self).refs()[f as int] < usize::MAX,
        ensures
            final(self).wf(),
            final(self).bits() == old(self).bits(),
            final(self).data() == old(self).data(),
            final(self).refs() == old(self).refs().update(f as int, (old(self).refs()[f as int]
                + 1) as usize),
    {
        let n = self.refs[f];
        self.refs.set(f, n + 1);
    }

    /// One mapping of frame `f` is gone; the frame returns to the allocator
    /// when no mapping refers to it any more.
    pub fn release(&mut self, f: usize)
        requires
            old(self).wf(),
            f < old(self).capacity(),
            old(self).refs()[f as int] > 0,
        ensures
            final(self).wf(),
            final(self).data() == old(self).data(),
            final(self).refs() == old(self).refs().update(f as int, (old(self).refs()[f as int]
                - 1) as usize),
            final(self).bits() == if old(self).refs()[f as int] == 1 {
                old(self).bits().update(f as int, false)
            } else {
                old(self).bits()
            },
    {
        let n = self.refs[f];
        self.refs.set(f, n - 1);
        if n == 1 {
            self.allocator.deallocate(f);
        }
    }

    /// Copies the contents of frame `src` into frame `dst`.
    pub fn copy_frame(&mut self, src: usize, dst: usize)
        requires
            old(self).wf(),
            src < old(self).capacity(),
            dst < old(self).capacity(),
        ensures
            final(self).wf(),
            final(self).bits() == old(self).bits(),
            final(self).refs() == old(self).refs(),
            final(self).data() == old(self).data().update(dst as int, old(self).data()[src as int]),
    {
        proof {
            assert(self.data()[src as int] == self.data@[src as int]@);
        }
        let page = copy_page(&self.data[src]);
        self.data.set(dst, page);
        proof {
            assert(self.data() =~= old(self).data().update(dst as int, old(self).data()[src as int]));
        }
    }
}

/// A copy of `src`.
fn copy_page(src: &Vec<u8>) -> (r: Vec<u8>)
    ensures
        r@ == src@,
{
    let mut page: Vec<u8> = Vec::new();
    let mut i: usize = 0;
    while i < src.len()
        invariant
            i <= src@.len(),
            page@ == src@.take(i as int),
        decreases src@.len() - i,
    {
        page.push(src[i]);
        i = i + 1;
        assert(page@ =~= src@.take(i as int));
    }
    assert(page@ =~= src@);
    page
}

/// A cleared page.
fn zero_frame() -> (r: Vec<u8>)
    ensures
        r@ == zero_page(),
{
    let mut page: Vec<u8> = Vec::new();
    let mut i: usize = 0;
    while i < PAGE_SIZE
        invariant
            i <= PAGE_SIZE,
            page@ == Seq::new(i as nat, |k: int| 0u8),
        decreases PAGE_SIZE - i,
    {
        page.push(0);
        i = i + 1;
        assert(page@ =~= Seq::new(i as nat, |k: int| 0u8));
    }
    page
}

} // verus!
