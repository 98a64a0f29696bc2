//! A ticket-ordered mutual-exclusion cell. Acquiring takes the next ticket;
//! the holder's guard carries that ticket, and releasing admits the next
//! ticket in issue order, so waiters are served first-come, first-served.
//!
//! Bootstrap code runs on a single logical thread, so the cell is modelled
//! sequentially: acquiring when the cell is already held would spin forever,
//! and is ruled out by precondition instead.

use vstd::prelude::*;

verus! {

/// A value guarded by a ticket lock: a monotonically increasing ticket
/// counter, a release counter, and the guarded value. The lock is free
/// exactly when the two counters agree.
pub struct LockCell<T> {
    ticket: u64,
    release: u64,
    val: T,
}

/// Witness that the lock is held: carries the holder's ticket. Produced only
/// by [`LockCell::lock`] and consumed by [`LockCell::unlock`].
pub struct LockCellGuard {
    ticket: u64,
}

impl LockCellGuard {
    /// The ticket this guard was admitted under.
    pub closed spec fn ticket(self) -> u64 {
        self.ticket
    }
}

impl<T> LockCell<T> {
    /// The next ticket that `lock` will hand out.
    pub closed spec fn ticket_ctr(self) -> u64 {
        self.ticket
    }

    /// The ticket currently admitted.
    pub closed spec fn release_ctr(self) -> u64 {
        self.release
    }

    /// The guarded value.
    pub closed spec fn value(self) -> T {
        self.val
    }

    /// No holder is outstanding: the next ticket handed out is admitted at
    /// once.
    pub open spec fn available(self) -> bool {
        self.ticket_ctr() == self.release_ctr()
    }

    /// `g` is the one outstanding holder.
    pub open spec fn holds(self, g: LockCellGuard) -> bool {
        &&& g.ticket() == self.release_ctr()
        &&& self.ticket_ctr() == g.ticket() + 1
    }

    /// Move `val` into a fresh, available cell, with ticket numbering
    /// starting at zero.
    pub fn new(val: T) -> (c: Self)
        ensures
            c.available(),
            c.ticket_ctr() == 0,
            c.value() == val,
    {
        LockCell { ticket: 0, release: 0, val }
    }

    /// Acquire exclusive access. Takes the next ticket; the caller is
    /// admitted once every earlier ticket has been released, which for this
    /// sequential model means at once — acquiring a held cell would spin
    /// forever and is excluded by precondition.
    pub fn lock(&mut self) -> (g: LockCellGuard)
        requires
            old(self).available(),
            old(self).ticket_ctr() < u64::MAX,
        ensures
            g.ticket() == old(self).ticket_ctr(),
            final(self).holds(g),
            final(self).ticket_ctr() == old(self).ticket_ctr() + 1,
            final(self).release_ctr() == old(self).release_ctr(),
            final(self).value() == old(self).value(),
    {
        let ticket = self.ticket;
        self.ticket = self.ticket + 1;
        LockCellGuard { ticket }
    }

    /// Read the guarded value. Only the holder may look.
    pub fn read(&self, g: &LockCellGuard) -> (r: &T)
        requires
            self.holds(*g),
        ensures
            *r == self.value(),
    {
        &self.val
    }

    /// Replace the guarded value. Only the holder may write.
    pub fn write(&mut self, g: &LockCellGuard, v: T)
        requires
            old(self).holds(*g),
        ensures
            final(self).holds(*g),
            final(self).value() == v,
            final(self).ticket_ctr() == old(self).ticket_ctr(),
            final(self).release_ctr() == old(self).release_ctr(),
    {
        self.val = v;
    }

    /// Borrow the guarded value for mutation. Only the holder may borrow;
    /// the counters are untouched, and the cell ends up holding whatever the
    /// caller leaves behind the reference.
    pub fn get_mut(&mut self, g: &LockCellGuard) -> (r: &mut T)
        requires
            old(self).holds(*g),
        ensures
            *r == old(self).value(),
            final(self).value() == *final(r),
            final(self).holds(*g),
            final(self).ticket_ctr() == old(self).ticket_ctr(),
            final(self).release_ctr() == old(self).release_ctr(),
    {
        &mut self.val
    }

    /// Release the lock, admitting the next ticket in issue order. Consumes
    /// the guard: access after release is impossible.
    pub fn unlock(&mut self, g: LockCellGuard)
        requires
            old(self).holds(g),
        ensures
            final(self).available(),
            final(self).ticket_ctr() == old(self).ticket_ctr(),
            final(self).release_ctr() == old(self).release_ctr() + 1,
            final(self).value() == old(self).value(),
    {
        let _ = g;
        self.release = self.release + 1;
    }
}

/// The cell after one complete critical section: acquire, store `v`,
/// release. Mirrors the contracts of `lock`, `write` and `unlock` composed.
pub open spec fn spec_session<T>(c: LockCell<T>, v: T) -> LockCell<T>
    recommends
        c.available(),
        c.ticket_ctr() < u64::MAX,
{
    spec_unlocked(spec_locked(c), v)
}

/// The cell right after `lock`.
pub closed spec fn spec_locked<T>(c: LockCell<T>) -> LockCell<T> {
    LockCell { ticket: (c.ticket + 1) as u64, release: c.release, val: c.val }
}

/// The cell after the holder stores `v` and releases.
pub closed spec fn spec_unlocked<T>(c: LockCell<T>, v: T) -> LockCell<T> {
    LockCell { ticket: c.ticket, release: (c.release + 1) as u64, val: v }
}

/// The cell after the critical sections storing `vs[0]`, `vs[1]`, ... have
/// run in ticket order, one after the other.
pub open spec fn spec_sessions<T>(c: LockCell<T>, vs: Seq<T>) -> LockCell<T>
    decreases vs.len(),
{
    if vs.len() == 0 {
        c
    } else {
        spec_sessions(spec_session(c, vs[0]), vs.drop_first())
    }
}

/// Mutual exclusion is first-come, first-served and loses no update: when N
/// critical sections run in ticket order on an available cell, the i-th
/// section is admitted under ticket `ticket_ctr + i` and observes exactly the
/// value the (i-1)-th section left behind, and the cell ends up available,
/// holding the last value written.
pub proof fn lemma_sessions_fifo<T>(c: LockCell<T>, vs: Seq<T>)
    requires
        c.available(),
        c.ticket_ctr() + vs.len() <= u64::MAX,
    ensures
        spec_sessions(c, vs).available(),
        spec_sessions(c, vs).ticket_ctr() == c.ticket_ctr() + vs.len(),
        spec_sessions(c, vs).value() == if vs.len() == 0 { c.value() } else { vs.last() },
        forall|i: int| 0 <= i < vs.len() ==> {
            let before = spec_sessions(c, #[trigger] vs.take(i));
            &&& before.available()
            &&& before.ticket_ctr() == c.ticket_ctr() + i
            &&& before.value() == if i == 0 { c.value() } else { vs[i - 1] }
        },
    decreases vs.len(),
{
    if vs.len() > 0 {
        let c1 = spec_session(c, vs[0]);
        assert(c1.available());
        assert(c1.ticket_ctr() == c.ticket_ctr() + 1);
        assert(c1.value() == vs[0]);
        lemma_sessions_fifo(c1, vs.drop_first());
        assert forall|i: int| 0 <= i < vs.len() implies {
            let before = spec_sessions(c, #[trigger] vs.take(i));
            &&& before.available()
            &&& before.ticket_ctr() == c.ticket_ctr() + i
            &&& before.value() == if i == 0 { c.value() } else { vs[i - 1] }
        } by {
            if i > 0 {
                let sub = vs.drop_first();
                assert(sub.take(i - 1) == vs.take(i).drop_first());
                assert(spec_sessions(c, vs.take(i))
                    == spec_sessions(spec_session(c, vs[0]), vs.take(i).drop_first()));
            } else {
                assert(vs.take(0) == Seq::<T>::empty());
            }
        }
        assert(vs.drop_first().len() == 0 ==> vs.last() == vs[0]);
        assert(vs.drop_first().len() > 0 ==> vs.drop_first().last() == vs.last());
    }
}

} // verus!
