//! Physical-memory management: sanitization of the firmware-reported memory
//! map into a [`RangeSet`] of free memory, and the bootstrap allocator that
//! guards that set behind a [`LockCell`].

use crate::lockcell::LockCell;
use crate::rangeset::{Range, RangeSet};
use vstd::prelude::*;

verus! {

/// The memory type firmware uses for usable memory; every other value marks
/// the region reserved or otherwise unusable.
pub const MEM_TYPE_FREE: u32 = 1;

/// The first megabyte of address space is never handed out: firmware data
/// structures and the bootloader's own low-memory footprint live there.
pub const LOW_MEMORY_END: u64 = 0xFFFFF;

/// One firmware-reported memory-map entry: a byte region and its type.
#[derive(Clone, Copy, PartialEq, Eq, Structural)]
pub struct MemMapEntry {
    pub base: u64,
    pub size: u64,
    pub typ: u32,
}

impl MemMapEntry {
    /// Does this entry describe the address `a`? Zero-sized entries describe
    /// nothing.
    pub open spec fn covers(self, a: int) -> bool {
        self.size > 0 && self.base <= a < self.base + self.size
    }

    /// The entry's region stays inside the 64-bit address space.
    pub open spec fn wf(self) -> bool {
        self.base + self.size - 1 <= u64::MAX
    }
}

/// Does some entry of `entries` marked free describe the address `a`?
pub open spec fn reported_free(entries: Seq<MemMapEntry>, a: int) -> bool {
    exists|i: int| 0 <= i < entries.len() && entries[i].typ == MEM_TYPE_FREE
        && (#[trigger] entries[i]).covers(a)
}

/// Does some entry of `entries` not marked free describe the address `a`?
pub open spec fn reported_reserved(entries: Seq<MemMapEntry>, a: int) -> bool {
    exists|i: int| 0 <= i < entries.len() && entries[i].typ != MEM_TYPE_FREE
        && (#[trigger] entries[i]).covers(a)
}

/// Build the set of usable physical memory from the firmware-reported map.
///
/// The firmware may report overlapping or contradictory entries, so the map
/// is sanitized in two passes: the first inserts every region marked free,
/// the second removes every region marked anything else. A byte claimed both
/// free and reserved, in any order, therefore ends up excluded — reservation
/// always dominates. The first megabyte is removed unconditionally.
pub fn build_free_memory(entries: &Vec<MemMapEntry>) -> (r: RangeSet)
    requires
        forall|i: int| 0 <= i < entries@.len() ==> (#[trigger] entries@[i]).wf(),
    ensures
        r.wf(),
        forall|a: int| #[trigger] r.contains_addr(a)
            <==> reported_free(entries@, a) && !reported_reserved(entries@, a)
                && a > LOW_MEMORY_END,
{
    let ghost es = entries@;
    let n = entries.len();
    let mut free_memory = RangeSet::new();

    // First pass: accumulate everything the firmware marks free.
    let mut i: usize = 0;
    while i < n
        invariant
            es == entries@,
            n == es.len(),
            i <= n,
            forall|k: int| 0 <= k < n ==> (#[trigger] es[k]).wf(),
            free_memory.wf(),
            forall|a: int| #[trigger] free_memory.contains_addr(a)
                <==> reported_free(es.take(i as int), a),
        decreases n - i,
    {
        let e = entries[i];
        let ghost pre = es.take(i as int);
        let ghost post = es.take(i + 1 as int);
        proof {
            assert(forall|j: int| 0 <= j < pre.len() ==> pre[j] == es[j] && post[j] == es[j]);
            assert(post[i as int] == es[i as int]);
        }
        if e.typ == MEM_TYPE_FREE && e.size > 0 {
            free_memory.insert(Range { start: e.base, end: e.base + (e.size - 1) });
        }
        proof {
            assert forall|a: int| #[trigger] free_memory.contains_addr(a)
                <==> reported_free(post, a) by {
                if free_memory.contains_addr(a) {
                    if reported_free(pre, a) {
                        let j = choose|j: int| 0 <= j < pre.len() && pre[j].typ == MEM_TYPE_FREE
                            && pre[j].covers(a);
                        assert(post[j].typ == MEM_TYPE_FREE && post[j].covers(a));
                    } else {
                        assert(post[i as int].typ == MEM_TYPE_FREE && post[i as int].covers(a));
                    }
                }
                if reported_free(post, a) {
                    let j = choose|j: int| 0 <= j < post.len() && post[j].typ == MEM_TYPE_FREE
                        && (#[trigger] post[j]).covers(a);
                    if j < i {
                        assert(pre[j].typ == MEM_TYPE_FREE && pre[j].covers(a));
                        assert(reported_free(pre, a));
                    }
                }
            }
        }
        i += 1;
    }

    proof {
        assert(es.take(n as int) == es);
        assert(forall|a: int| !reported_reserved(es.take(0), a));
    }

    // Second pass: carve out everything the firmware marks reserved, so a
    // byte reported both ways ends up unusable.
    let mut i2: usize = 0;
    while i2 < n
        invariant
            es == entries@,
            n == es.len(),
            i2 <= n,
            forall|k: int| 0 <= k < n ==> (#[trigger] es[k]).wf(),
            free_memory.wf(),
            forall|a: int| #[trigger] free_memory.contains_addr(a)
                <==> reported_free(es, a) && !reported_reserved(es.take(i2 as int), a),
        decreases n - i2,
    {
        let e = entries[i2];
        let ghost pre = es.take(i2 as int);
        let ghost post = es.take(i2 + 1 as int);
        proof {
            assert(forall|j: int| 0 <= j < pre.len() ==> pre[j] == es[j] && post[j] == es[j]);
            assert(post[i2 as int] == es[i2 as int]);
        }
        if e.typ != MEM_TYPE_FREE && e.size > 0 {
            free_memory.remove(Range { start: e.base, end: e.base + (e.size - 1) });
        }
        proof {
            assert forall|a: int| #[trigger] free_memory.contains_addr(a)
                <==> reported_free(es, a) && !reported_reserved(post, a) by {
                if reported_reserved(pre, a) {
                    let j = choose|j: int| 0 <= j < pre.len() && pre[j].typ != MEM_TYPE_FREE
                        && (#[trigger] pre[j]).covers(a);
                    assert(post[j].typ != MEM_TYPE_FREE && post[j].covers(a));
                }
                if reported_reserved(post, a) && !reported_reserved(pre, a) {
                    let j = choose|j: int| 0 <= j < post.len() && post[j].typ != MEM_TYPE_FREE
                        && (#[trigger] post[j]).covers(a);
                    assert(j == i2);
                    assert(es[i2 as int].covers(a));
                }
            }
        }
        i2 += 1;
    }

    // Low memory is never usable, whatever the firmware said.
    free_memory.remove(Range { start: 0, end: LOW_MEMORY_END });
    proof {
        assert(es.take(n as int) == es);
    }
    free_memory
}

/// The bootstrap allocator's state: free physical memory once initialized,
/// guarded by the mutual-exclusion cell. `None` until `init` has run.
pub struct PhysicalMemory {
    pmem: LockCell<Option<RangeSet>>,
}

impl PhysicalMemory {
    /// The mutual-exclusion cell guarding the tracker.
    pub closed spec fn cell(self) -> LockCell<Option<RangeSet>> {
        self.pmem
    }

    /// The guarded tracker, if initialized.
    pub open spec fn tracker(self) -> Option<RangeSet> {
        self.cell().value()
    }

    /// The cell is free and any tracker inside is well formed.
    pub open spec fn wf(self) -> bool {
        &&& self.cell().available()
        &&& self.tracker() matches Some(rs) ==> rs.wf()
    }

    /// How many lock acquisitions the cell has served. Each operation that
    /// takes the lock advances this by one; it must stay below `u64::MAX`.
    pub open spec fn tickets(self) -> u64 {
        self.cell().ticket_ctr()
    }

    /// Is the address `a` tracked as free?
    pub open spec fn contains_addr(self, a: int) -> bool {
        self.tracker() matches Some(rs) && rs.contains_addr(a)
    }

    /// An uninitialized memory manager.
    pub fn new() -> (pm: Self)
        ensures
            pm.wf(),
            pm.tracker() is None,
            pm.tickets() == 0,
    {
        PhysicalMemory { pmem: LockCell::new(None) }
    }

    /// Has `init` run? Takes the lock like every other observer of the
    /// guarded state.
    pub fn is_initialized(&mut self) -> (r: bool)
        requires
            old(self).wf(),
            old(self).tickets() < u64::MAX,
        ensures
            final(self).wf(),
            final(self).tickets() == old(self).tickets() + 1,
            final(self).tracker() == old(self).tracker(),
            r == (old(self).tracker() is Some),
    {
        let guard = self.pmem.lock();
        let r = self.pmem.read(&guard).is_some();
        self.pmem.unlock(guard);
        r
    }

    /// Acquire the firmware memory map and initialize the tracker from it.
    /// Initializing twice is a programming error and is excluded outright.
    pub fn init(&mut self, entries: &Vec<MemMapEntry>)
        requires
            old(self).wf(),
            old(self).tracker() is None,
            old(self).tickets() < u64::MAX,
            forall|i: int| 0 <= i < entries@.len() ==> (#[trigger] entries@[i]).wf(),
        ensures
            final(self).wf(),
            final(self).tickets() == old(self).tickets() + 1,
            final(self).tracker() is Some,
            forall|a: int| #[trigger] final(self).contains_addr(a)
                <==> reported_free(entries@, a) && !reported_reserved(entries@, a)
                    && a > LOW_MEMORY_END,
    {
        let free_memory = build_free_memory(entries);
        let guard = self.pmem.lock();
        self.pmem.write(&guard, Some(free_memory));
        self.pmem.unlock(guard);
    }

    /// Allocate `size` bytes aligned to `align`, returning the base address,
    /// or 0 when the tracker is uninitialized or no aligned block of that
    /// size is free. (Address 0 lies in low memory, so no genuine allocation
    /// ever returns it.)
    pub fn allocate(&mut self, size: u64, align: u64) -> (r: u64)
        requires
            old(self).wf(),
            old(self).tickets() < u64::MAX,
            align >= 1,
        ensures
            final(self).wf(),
            final(self).tickets() == old(self).tickets() + 1,
            old(self).tracker() is None ==> r == 0 && final(self).tracker() is None,
            old(self).tracker() matches Some(rs) ==> {
                &&& final(self).tracker() is Some
                &&& match crate::rangeset::spec_first_fit(rs.ranges(), size, align) {
                    Some(base) => {
                        &&& r == base
                        &&& r % align == 0
                        &&& size >= 1
                        &&& forall|a: int| r <= a <= r + size - 1 ==> rs.contains_addr(a)
                        &&& forall|a: int| #[trigger] final(self).contains_addr(a)
                            <==> rs.contains_addr(a) && !(r <= a <= r + size - 1)
                    },
                    None => r == 0 && final(self).tracker() == old(self).tracker(),
                }
            },
    {
        let guard = self.pmem.lock();
        let slot = self.pmem.get_mut(&guard);
        let r = match slot {
            Some(tracker) => {
                match tracker.allocate(size, align) {
                    Some(base) => base,
                    None => 0,
                }
            },
            None => 0,
        };
        self.pmem.unlock(guard);
        r
    }

    /// Return `size` bytes at `addr` to the tracker. A zero-sized request is
    /// a no-op. Deallocation before initialization, or of a block whose end
    /// overflows the address space, is a programming error and is excluded
    /// outright.
    pub fn deallocate(&mut self, addr: u64, size: u64)
        requires
            old(self).wf(),
            size > 0 ==> old(self).tracker() is Some,
            size > 0 ==> old(self).tickets() < u64::MAX,
            size > 0 ==> addr + size - 1 <= u64::MAX,
        ensures
            final(self).wf(),
            size == 0 ==> *final(self) == *old(self),
            size > 0 ==> final(self).tickets() == old(self).tickets() + 1,
            size > 0 ==> {
                &&& final(self).tracker() is Some
                &&& forall|a: int| #[trigger] final(self).contains_addr(a)
                    <==> old(self).contains_addr(a) || (addr <= a <= addr + size - 1)
            },
    {
        if size == 0 {
            return;
        }
        let guard = self.pmem.lock();
        let slot = self.pmem.get_mut(&guard);
        match slot {
            Some(tracker) => {
                tracker.insert(Range { start: addr, end: addr + (size - 1) });
            },
            None => {},
        }
        self.pmem.unlock(guard);
    }
}

} // verus!
