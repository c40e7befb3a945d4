use vstd::prelude::*;
use crate::memory_set::{
    MemError, MemorySet, PageEntry, cow_fault_result, first_page, frame_uses,
    lemma_first_page_exists, lemma_first_page_unique, lemma_frame_used,
    lemma_frame_uses_update,
};
use crate::phys::PhysMemory;
use crate::frame_allocator::PAGE_SIZE;

verus! {

/// How write-protection faults are handled, chosen once for the platform.
#[derive(Clone, Copy, PartialEq, Eq, Structural, Debug)]
pub enum FaultHandler {
    /// Copy-on-write areas are repaired on a write fault.
    CowCapable,
    /// Every fault is fatal.
    NoCow,
}

impl FaultHandler {
    /// Handles a write-protection fault at byte `addr` of the active address
    /// space: `Ok` resumes the faulting instruction, an error ends the
    /// faulting context.
    pub fn page_fault_handler(&self, set: &mut MemorySet, mem: &mut PhysMemory, addr: usize) -> (r:
        Result<(), MemError>)
        requires
            old(set).wf(),
            old(mem).wf(),
            old(set).backed_by(*old(mem)),
        ensures
            final(set).wf(),
            final(mem).wf(),
            final(set).backed_by(*final(mem)),
            *self == FaultHandler::NoCow ==> r == Err::<(), MemError>(MemError::InvalidAccess)
                && *final(set) == *old(set) && *final(mem) == *old(mem),
            *self == FaultHandler::CowCapable ==> cow_fault_result(
                *old(set),
                *old(mem),
                addr as int,
                *final(set),
                *final(mem),
                r,
            ),
    {
        match self {
            FaultHandler::CowCapable => set.resolve_cow_fault(mem, addr),
            FaultHandler::NoCow => Err(MemError::InvalidAccess),
        }
    }
}

/// Address spaces `a` and `b` together refer to each frame no more often
/// than the frame's reference count says.
pub open spec fn jointly_backed(a: MemorySet, b: MemorySet, mem: PhysMemory) -> bool {
    &&& a.backed_by(mem)
    &&& b.backed_by(mem)
    &&& forall|f: int|
        0 <= f < mem.capacity() ==> frame_uses(a.pages(), f) + frame_uses(b.pages(), f)
            <= #[trigger] mem.refs()[f]
}

/// Copy-on-write keeps address spaces apart. Let `a` and `b` share frames,
/// and let a write fault at `addr` in `a`, on a page that the hardware
/// does not let be written, be repaired. Then the page is writable in `a`
/// and backed by a frame that no page of `b` uses; every frame that `b`
/// uses keeps its contents; and the two spaces are still counted right.
pub proof fn lemma_cow_fault_isolates(
    a0: MemorySet,
    m0: PhysMemory,
    addr: int,
    a1: MemorySet,
    m1: PhysMemory,
    b: MemorySet,
)
    requires
        a0.wf(),
        m0.wf(),
        m1.wf(),
        m1.capacity() == m0.capacity(),
        jointly_backed(a0, b, m0),
        a1.backed_by(m1),
        cow_fault_result(a0, m0, addr, a1, m1, Ok(())),
    ensures
        jointly_backed(a1, b, m1),
        forall|f: int| 0 <= f < m0.capacity() && frame_uses(b.pages(), f) > 0 ==> #[trigger] m1.data()[f] == m0.data()[f],
        forall|i: int|
            #[trigger] first_page(a0.pages(), addr / (PAGE_SIZE as int), i) && !a0.pages()[i].writable
                ==> a1.pages()[i].writable && frame_uses(b.pages(), a1.pages()[i].frame as int) == 0,
{
    let vpn = addr / (PAGE_SIZE as int);
    if exists|i: int| first_page(a0.pages(), vpn, i) && !a0.pages()[i].writable {
        let i = choose|i: int| first_page(a0.pages(), vpn, i) && !a0.pages()[i].writable;
        let e = a0.pages()[i];
        let old_f = e.frame as int;
        lemma_frame_used(a0.pages(), i);
        let rc = m0.refs()[old_f];
        assert(first_page(a0.pages(), vpn, i));
        assert forall|j: int| #[trigger] first_page(a0.pages(), vpn, j) implies j == i by {
            lemma_first_page_unique(a0.pages(), vpn, i, j);
        }
        assert(frame_uses(a0.pages(), old_f) + frame_uses(b.pages(), old_f) <= m0.refs()[old_f]);
        assert(m0.bits()[old_f]);
        {
            assert(crate::memory_set::cow_at(a0.areas(), addr));
            assert(!crate::frame_allocator::all_allocated(m0.bits()));
            assert(exists|g: int| #[trigger] crate::frame_allocator::is_lowest_free(m0.bits(), g) && {
                &&& a1.pages() == a0.pages().update(i, PageEntry { vpn: e.vpn, frame: g as usize, writable: true })
                &&& m1.bits() == if rc == 1 {
                    m0.bits().update(g, true).update(old_f, false)
                } else {
                    m0.bits().update(g, true)
                }
                &&& m1.refs() == m0.refs().update(g, 1).update(old_f, (rc - 1) as usize)
                &&& m1.data() == m0.data().update(g, m0.data()[old_f])
            });
            let g = choose|g: int| #[trigger] crate::frame_allocator::is_lowest_free(m0.bits(), g) && {
                &&& a1.pages() == a0.pages().update(i, PageEntry { vpn: e.vpn, frame: g as usize, writable: true })
                &&& m1.bits() == if rc == 1 {
                    m0.bits().update(g, true).update(old_f, false)
                } else {
                    m0.bits().update(g, true)
                }
                &&& m1.refs() == m0.refs().update(g, 1).update(old_f, (rc - 1) as usize)
                &&& m1.data() == m0.data().update(g, m0.data()[old_f])
            };
            let ne = PageEntry { vpn: e.vpn, frame: g as usize, writable: true };
            assert(m0.refs()[g] == 0);
            assert(g != old_f);
            assert(frame_uses(a0.pages(), g) + frame_uses(b.pages(), g) <= m0.refs()[g]);
            assert forall|f: int| 0 <= f < m1.capacity() implies frame_uses(a1.pages(), f) + frame_uses(b.pages(), f)
                <= #[trigger] m1.refs()[f] by {
                lemma_frame_uses_update(a0.pages(), i, ne, f);
                assert(frame_uses(a0.pages(), f) + frame_uses(b.pages(), f) <= m0.refs()[f]);
            }
            assert forall|f: int| 0 <= f < m0.capacity() && frame_uses(b.pages(), f) > 0 implies #[trigger] m1.data()[f]
                == m0.data()[f] by {
                assert(f != g);
            }
        }
    } else {
        if exists|i: int| first_page(a0.pages(), vpn, i) {
            let i = choose|i: int| first_page(a0.pages(), vpn, i);
            assert(a1 == a0 && m1 == m0);
        } else {
            assert forall|j: int| 0 <= j < a0.pages().len() implies #[trigger] a0.pages()[j].vpn != vpn by {
                if a0.pages()[j].vpn == vpn {
                    if exists|k: int| 0 <= k < j && a0.pages()[k].vpn == vpn {
                        let k = choose|k: int| 0 <= k < j && a0.pages()[k].vpn == vpn;
                        lemma_first_page_exists(a0.pages(), vpn, k);
                    } else {
                        assert(first_page(a0.pages(), vpn, j));
                    }
                }
            }
        }
    }
    assert forall|f: int| 0 <= f < m1.capacity() implies frame_uses(b.pages(), f) <= #[trigger] m1.refs()[f] by {
        assert(frame_uses(a1.pages(), f) + frame_uses(b.pages(), f) <= m1.refs()[f]);
    }
    assert forall|i: int| 0 <= i < b.pages().len() implies #[trigger] b.pages()[i].frame < m1.capacity() by {
        assert(b.pages()[i].frame < m0.capacity());
    }
}

/// A write to a frame that no page of `b` uses leaves everything that `b`
/// reads unchanged.
pub proof fn lemma_private_write_invisible(b: MemorySet, m0: PhysMemory, m1: PhysMemory, f: int, contents: Seq<u8>)
    requires
        m0.wf(),
        b.backed_by(m0),
        0 <= f < m0.capacity(),
        frame_uses(b.pages(), f) == 0,
        m1.data() == m0.data().update(f, contents),
    ensures
        forall|i: int| 0 <= i < b.pages().len() ==> #[trigger] m1.data()[b.pages()[i].frame as int] == m0.data()[b.pages()[i].frame as int],
{
    assert forall|i: int| 0 <= i < b.pages().len() implies #[trigger] m1.data()[b.pages()[i].frame as int] == m0.data()[b.pages()[i].frame as int] by {
        lemma_frame_used(b.pages(), i);
    }
}

} // verus!
