//! A reader-writer lock in which every reader has a slot of its own.

use vstd::prelude::*;

use super::rw_w_pre::RwLockStat;

verus! {

/// The number of reader slots.
pub const MAX_THREADS: usize = 32;

/// A reader-writer lock for many readers and a rare writer. A reader announces itself in the count
/// of its own slot and then looks whether a writer is pending. A writer announces itself as pending
/// and then waits until it has seen all slots empty.
pub struct DistributedRwLock {
    writer_pending: bool,
    writer_locked: bool,
    slots: [u32; 32],
    /// One more than the highest slot that was ever used: a writer looks no further.
    max_slot_seen: usize,
    stat: RwLockStat,
}

/// The right to read, held through a slot.
pub struct ReadGuard {
    slot: usize,
}

/// The right to write.
pub struct WriteGuard {
    _locked: (),
}

/// What came of an attempt to write.
pub enum WriteAttempt {
    /// Another writer is pending or has the lock.
    Busy,
    /// The lock is claimed, but there is a reader yet.
    Draining,
    Locked(WriteGuard),
}

impl ReadGuard {
    pub closed spec fn slot(&self) -> int {
        self.slot as int
    }
}

/// A count of readers with one less, if there is one.
pub open spec fn without_one(count: u32) -> u32 {
    if count == 0 {
        0
    } else {
        (count - 1) as u32
    }
}

/// What a lock holds.
pub struct LockState {
    pub pending: bool,
    pub locked: bool,
    pub slots: Seq<u32>,
    pub max_seen: nat,
}

impl LockState {
    /// No reader is in or has announced itself.
    pub open spec fn drained(self) -> bool {
        forall|i: int| 0 <= i < self.slots.len() ==> #[trigger] self.slots[i] == 0
    }

    /// Nobody has the lock or wants it.
    pub open spec fn idle(self) -> bool {
        !self.pending && !self.locked && self.drained()
    }

    /// Slot `i` was used.
    pub open spec fn seen(self, i: int) -> LockState {
        LockState {
            max_seen: if i >= self.max_seen {
                (i + 1) as nat
            } else {
                self.max_seen
            },
            ..self
        }
    }

    /// One more reader of slot `i` is in.
    pub open spec fn entered(self, i: int) -> LockState {
        LockState { slots: self.slots.update(i, (self.slots[i] + 1) as u32), ..self.seen(i) }
    }

    /// A reader of slot `i` is out, if one was in.
    pub open spec fn left(self, i: int) -> LockState {
        LockState { slots: self.slots.update(i, without_one(self.slots[i])), ..self }
    }
}

/// One more reader counts in its own slot and in no other, and so does one less. A slot that was
/// used is below the highest one that was seen, which no other slot raises. Neither touches the
/// writer.
pub proof fn law_slots(l: LockState, i: int, k: int)
    requires
        0 <= i < l.slots.len(),
        0 <= k < l.slots.len(),
        l.slots[i] < u32::MAX,
    ensures
        l.entered(i).slots.len() == l.slots.len(),
        l.entered(i).slots[k] == l.slots[k] + if k == i {
            1int
        } else {
            0
        },
        l.entered(i).pending == l.pending,
        l.entered(i).locked == l.locked,
        l.left(i).slots.len() == l.slots.len(),
        l.left(i).slots[k] == l.slots[k] - if k == i && l.slots[i] > 0 {
            1int
        } else {
            0
        },
        l.left(i).pending == l.pending,
        l.left(i).locked == l.locked,
        l.left(i).max_seen == l.max_seen,
        l.entered(i).left(i).slots == l.slots,
        l.seen(i).slots == l.slots,
        l.seen(i).pending == l.pending,
        l.seen(i).locked == l.locked,
        l.entered(i).max_seen == l.seen(i).max_seen,
        i < l.seen(i).max_seen,
        l.max_seen <= l.seen(i).max_seen,
        l.seen(i).max_seen == l.max_seen || l.seen(i).max_seen == i + 1,
        l.drained() ==> l.slots[k] == 0,
        (forall|j: int| 0 <= j < l.slots.len() ==> #[trigger] l.slots[j] == 0) ==> l.drained(),
        l.slots[k] != 0 ==> !l.idle(),
        l.pending || l.locked ==> !l.idle(),
        l.drained() && !l.pending && !l.locked ==> l.idle(),
{
    assert(l.entered(i).left(i).slots =~= l.slots);
}

impl Default for DistributedRwLock {
    fn default() -> (r: Self)
        ensures
            r.wf(),
            r.state().idle(),
            r.state().slots.len() == MAX_THREADS,
            r.state().max_seen == 0,
            r.stats() == RwLockStat::zero(),
    {
        DistributedRwLock {
            writer_pending: false,
            writer_locked: false,
            slots: [0; 32],
            max_slot_seen: 0,
            stat: RwLockStat::default(),
        }
    }
}

impl DistributedRwLock {
    /// No slot is used that a writer would not look at, and only a pending writer has the lock.
    pub closed spec fn wf(&self) -> bool {
        &&& self.max_slot_seen <= MAX_THREADS
        &&& forall|i: int|
            self.max_slot_seen <= i < MAX_THREADS ==> #[trigger] self.slots@[i] == 0
        &&& self.writer_locked ==> self.writer_pending
    }

    pub closed spec fn state(&self) -> LockState {
        LockState {
            pending: self.writer_pending,
            locked: self.writer_locked,
            slots: self.slots@,
            max_seen: self.max_slot_seen as nat,
        }
    }

    pub closed spec fn stats(&self) -> RwLockStat {
        self.stat
    }

    pub fn stat(&self) -> (r: RwLockStat)
        ensures
            r == self.stats(),
    {
        self.stat
    }

    pub proof fn lemma_slots(&self)
        ensures
            self.state().slots.len() == MAX_THREADS,
    {
    }

    /// Only a pending writer has the lock.
    pub proof fn lemma_locked(&self)
        requires
            self.wf(),
        ensures
            self.state().locked ==> self.state().pending,
    {
    }

    /// Notes that slot `slot` is used.
    fn see(&mut self, slot: usize)
        requires
            old(self).wf(),
            slot < MAX_THREADS,
        ensures
            final(self).wf(),
            final(self).state() == old(self).state().seen(slot as int),
            final(self).stats() == old(self).stats(),
    {
        if slot >= self.max_slot_seen {
            self.max_slot_seen = slot + 1;
        }
    }

    /// Tries once to read through `slot`. A reader that meets a pending writer backs off.
    pub fn read(&mut self, slot: usize) -> (r: Option<ReadGuard>)
        requires
            old(self).wf(),
            slot < MAX_THREADS,
            old(self).state().slots[slot as int] < u32::MAX,
        ensures
            final(self).wf(),
            match r {
                Some(guard) => {
                    &&& !old(self).state().pending
                    &&& guard.slot() == slot
                    &&& final(self).state() == old(self).state().entered(slot as int)
                    &&& final(self).stats() == old(self).stats().acquired()
                },
                None => {
                    &&& old(self).state().pending
                    &&& final(self).state() == old(self).state().seen(slot as int)
                    &&& final(self).stats() == old(self).stats().spun()
                },
            },
    {
        if self.read_lock(slot) {
            Some(ReadGuard { slot })
        } else {
            None
        }
    }

    /// Like [`DistributedRwLock::read`], but hands out no guard: the caller unlocks, once for each
    /// time that this has returned true.
    pub fn read_lock(&mut self, slot: usize) -> (r: bool)
        requires
            old(self).wf(),
            slot < MAX_THREADS,
            old(self).state().slots[slot as int] < u32::MAX,
        ensures
            final(self).wf(),
            r == !old(self).state().pending,
            r ==> final(self).state() == old(self).state().entered(slot as int),
            r ==> final(self).stats() == old(self).stats().acquired(),
            !r ==> final(self).state() == old(self).state().seen(slot as int),
            !r ==> final(self).stats() == old(self).stats().spun(),
    {
        self.see(slot);
        let count: u32 = self.slots[slot];
        self.slots[slot] = count + 1;
        if may_read(self.writer_pending) {
            self.stat.record_acquire();
            return true;
        }
        self.slots[slot] = count;
        self.stat.record_spin();
        assert(self.state().slots =~= old(self).state().slots);
        false
    }

    /// Ends one reading through `slot`. Readings nest: the slot is read-locked until each of them
    /// has ended, those with a guard and those without. Where there is none, nothing happens.
    pub fn read_unlock(&mut self, slot: usize)
        requires
            old(self).wf(),
            slot < MAX_THREADS,
        ensures
            final(self).wf(),
            final(self).state() == old(self).state().left(slot as int),
            final(self).stats() == old(self).stats(),
    {
        self.slots[slot] = leave_step(self.slots[slot]);
    }

    /// Ends the reading of a guard.
    pub fn release_read(&mut self, guard: ReadGuard)
        requires
            old(self).wf(),
            0 <= guard.slot() < MAX_THREADS,
        ensures
            final(self).wf(),
            final(self).state() == old(self).state().left(guard.slot()),
            final(self).stats() == old(self).stats(),
    {
        self.read_unlock(guard.slot);
    }

    /// Whether a reader of `slot` is in.
    pub fn is_read_locked(&self, slot: usize) -> (r: bool)
        requires
            slot < MAX_THREADS,
        ensures
            r == (self.state().slots[slot as int] != 0),
    {
        self.slots[slot] != 0
    }

    /// Whether a writer has the lock or waits for it.
    pub fn is_writer_pending(&self) -> (r: bool)
        ensures
            r == self.state().pending,
    {
        self.writer_pending
    }

    /// Tries to write: claims the lock, and takes it if no reader is in.
    pub fn try_write(&mut self) -> (r: WriteAttempt)
        requires
            old(self).wf(),
        ensures
            final(self).wf(),
            final(self).stats() == old(self).stats(),
            r is Busy <==> old(self).state().pending,
            r is Locked <==> !old(self).state().pending && old(self).state().drained(),
            r is Busy ==> final(self).state() == old(self).state(),
            r !is Busy ==> final(self).state() == (LockState {
                pending: true,
                locked: r is Locked,
                ..old(self).state()
            }),
    {
        if self.writer_pending {
            return WriteAttempt::Busy;
        }
        self.writer_pending = true;
        self.drain()
    }

    /// Looks once more at the slots on behalf of a writer that has claimed the lock, and takes the
    /// lock if no reader is in.
    pub fn drain(&mut self) -> (r: WriteAttempt)
        requires
            old(self).wf(),
            old(self).state().pending,
            !old(self).state().locked,
        ensures
            final(self).wf(),
            final(self).stats() == old(self).stats(),
            r !is Busy,
            r is Locked <==> old(self).state().drained(),
            final(self).state() == (LockState { locked: r is Locked, ..old(self).state() }),
    {
        let max: usize = self.max_slot_seen;
        let mut i: usize = 0;
        while i < max
            invariant
                i <= max <= MAX_THREADS,
                max == self.max_slot_seen,
                self.wf(),
                *self == *old(self),
                !self.writer_locked,
                forall|k: int| 0 <= k < i ==> #[trigger] self.slots@[k] == 0,
            decreases max - i,
        {
            let next: usize = scan_step(i, self.slots[i]);
            if next == 0 {
                assert(self.state().slots[i as int] != 0);
                return WriteAttempt::Draining;
            }
            i = next;
        }
        self.writer_locked = true;
        WriteAttempt::Locked(WriteGuard { _locked: () })
    }

    /// Ends the writing of a guard.
    pub fn release_write(&mut self, guard: WriteGuard)
        requires
            old(self).wf(),
            old(self).state().locked,
        ensures
            final(self).wf(),
            final(self).state() == (LockState {
                pending: false,
                locked: false,
                ..old(self).state()
            }),
            final(self).stats() == old(self).stats(),
    {
        self.writer_locked = false;
        self.writer_pending = false;
    }
}

/// The count of a slot when one more reader announces itself; none where it cannot be counted.
pub fn enter_step(count: u32) -> (r: Option<u32>)
    ensures
        r == (if count == u32::MAX {
            None
        } else {
            Some((count + 1) as u32)
        }),
{
    if count == u32::MAX {
        return None;
    }
    Some(count + 1)
}

/// The count of a slot when a reader has left.
pub fn leave_step(count: u32) -> (r: u32)
    ensures
        r == without_one(count),
{
    if count == 0 {
        return 0;
    }
    count - 1
}

/// Whether a reader that has announced itself may go on, by what it then sees of the writer.
pub fn may_read(writer_pending: bool) -> (r: bool)
    ensures
        r == !writer_pending,
{
    !writer_pending
}

/// The slot that a writer looks at after slot `i`, by the count that it has found there: the next
/// one, or the first one again if there is a reader.
pub fn scan_step(i: usize, count: u32) -> (r: usize)
    requires
        i < MAX_THREADS,
    ensures
        r == if count == 0 {
            i + 1
        } else {
            0
        },
{
    if count != 0 {
        return 0;
    }
    i + 1
}

/// How far a thread has come that wants to read.
pub enum Reader {
    /// It does not want to read, or not more than it does.
    Content,
    /// Its slot is within those that a writer looks at.
    Known,
    /// It has counted itself in its slot.
    Announced,
    /// It has seen a pending writer and has yet to take itself off the count.
    Refused,
}

/// How far a writer has come.
pub enum Writer {
    Out,
    /// It is pending.
    Claimed,
    /// It has seen the first `next` of `max` slots empty in this round.
    Scanning { max: nat, next: nat },
    In,
    /// It has given up the lock and is pending yet.
    Leaving,
}

/// The words of a lock, how far its users have come, and how often each thread is in to read.
pub struct Protocol {
    pub lock: LockState,
    pub readers: Seq<Reader>,
    pub held: Seq<nat>,
    pub writer: Writer,
}

impl Protocol {
    pub open spec fn start(n: nat) -> Self {
        Protocol {
            lock: LockState {
                pending: false,
                locked: false,
                slots: Seq::new(n, |i: int| 0u32),
                max_seen: 0,
            },
            readers: Seq::new(n, |i: int| Reader::Content),
            held: Seq::new(n, |i: int| 0nat),
            writer: Writer::Out,
        }
    }

    pub open spec fn reader_at(self, i: int, reader: Reader) -> bool {
        0 <= i < self.readers.len() && self.readers[i] == reader
    }

    pub open spec fn with_reader(self, i: int, reader: Reader) -> Self {
        Protocol { readers: self.readers.update(i, reader), ..self }
    }

    pub open spec fn with_slot(self, i: int, count: u32) -> Self {
        Protocol {
            lock: LockState { slots: self.lock.slots.update(i, count), ..self.lock },
            ..self
        }
    }

    pub open spec fn with_held(self, i: int, held: nat) -> Self {
        Protocol { held: self.held.update(i, held), ..self }
    }

    /// A reader makes its slot known.
    pub open spec fn known(self, i: int, after: Self) -> bool {
        &&& self.reader_at(i, Reader::Content)
        &&& after == (Protocol { lock: self.lock.seen(i), ..self }).with_reader(i, Reader::Known)
    }

    /// A reader counts itself in its slot.
    pub open spec fn announced(self, i: int, after: Self) -> bool {
        &&& self.reader_at(i, Reader::Known)
        &&& self.lock.slots[i] < u32::MAX
        &&& after == self.with_slot(i, (self.lock.slots[i] + 1) as u32).with_reader(
            i,
            Reader::Announced,
        )
    }

    /// A reader looks whether a writer is pending, and is in if none is.
    pub open spec fn looked(self, i: int, after: Self) -> bool {
        &&& self.reader_at(i, Reader::Announced)
        &&& after == if self.lock.pending {
            self.with_reader(i, Reader::Refused)
        } else {
            self.with_held(i, self.held[i] + 1).with_reader(i, Reader::Content)
        }
    }

    /// A refused reader takes itself off the count.
    pub open spec fn backed_off(self, i: int, after: Self) -> bool {
        &&& self.reader_at(i, Reader::Refused)
        &&& after == self.with_slot(i, without_one(self.lock.slots[i])).with_reader(
            i,
            Reader::Known,
        )
    }

    /// A reader that is in takes itself off the count and is done.
    pub open spec fn left(self, i: int, after: Self) -> bool {
        &&& 0 <= i < self.held.len()
        &&& self.held[i] > 0
        &&& after == self.with_slot(i, without_one(self.lock.slots[i])).with_held(
            i,
            (self.held[i] - 1) as nat,
        )
    }

    /// A writer becomes pending, if none is.
    pub open spec fn claimed(self, after: Self) -> bool {
        &&& !self.lock.pending
        &&& after == (Protocol {
            lock: LockState { pending: true, ..self.lock },
            writer: Writer::Claimed,
            ..self
        })
    }

    /// The writer reads how many slots to look at.
    pub open spec fn measured(self, after: Self) -> bool {
        &&& self.writer is Claimed
        &&& after == (Protocol {
            writer: Writer::Scanning { max: self.lock.max_seen, next: 0 },
            ..self
        })
    }

    /// The writer looks at a slot.
    pub open spec fn scanned(self, after: Self) -> bool {
        match self.writer {
            Writer::Scanning { max, next } => {
                &&& next < max
                &&& after == (Protocol {
                    writer: Writer::Scanning {
                        max,
                        next: if self.lock.slots[next as int] == 0 {
                            next + 1
                        } else {
                            0
                        },
                    },
                    ..self
                })
            },
            _ => false,
        }
    }

    /// The writer has seen all slots empty in one round and takes the lock.
    pub open spec fn taken(self, after: Self) -> bool {
        match self.writer {
            Writer::Scanning { max, next } => {
                &&& next == max
                &&& after == (Protocol {
                    lock: LockState { locked: true, ..self.lock },
                    writer: Writer::In,
                    ..self
                })
            },
            _ => false,
        }
    }

    /// The writer gives up the lock.
    pub open spec fn given_up(self, after: Self) -> bool {
        &&& self.writer is In
        &&& after == (Protocol {
            lock: LockState { locked: false, ..self.lock },
            writer: Writer::Leaving,
            ..self
        })
    }

    /// The writer is no longer pending.
    pub open spec fn cleared(self, after: Self) -> bool {
        &&& self.writer is Leaving
        &&& after == (Protocol {
            lock: LockState { pending: false, ..self.lock },
            writer: Writer::Out,
            ..self
        })
    }

    /// One reader or the writer has taken one step.
    pub open spec fn next(self, after: Self) -> bool {
        ||| exists|i: int| self.known(i, after)
        ||| exists|i: int| self.announced(i, after)
        ||| exists|i: int| self.looked(i, after)
        ||| exists|i: int| self.backed_off(i, after)
        ||| exists|i: int| self.left(i, after)
        ||| self.claimed(after)
        ||| self.measured(after)
        ||| self.scanned(after)
        ||| self.taken(after)
        ||| self.given_up(after)
        ||| self.cleared(after)
    }

    /// What slot `i` counts: how often its thread is in, and once more while it is announced.
    pub open spec fn slot_tells(self, i: int) -> bool {
        self.lock.slots[i] == self.held[i] + if self.readers[i] is Announced
            || self.readers[i] is Refused {
            1int
        } else {
            0int
        }
    }

    /// The words tell how far the users have come, and no reader is in that a writer has passed.
    pub open spec fn inv(self) -> bool {
        &&& self.lock.slots.len() == self.readers.len()
        &&& self.held.len() == self.readers.len()
        &&& self.lock.pending <==> self.writer !is Out
        &&& self.lock.locked <==> self.writer is In
        &&& self.lock.max_seen <= self.readers.len()
        &&& forall|i: int|
            #![trigger self.readers[i]]
            #![trigger self.held[i]]
            0 <= i < self.readers.len() ==> {
                &&& self.slot_tells(i)
                &&& self.readers[i] !is Content || self.held[i] > 0 ==> i < self.lock.max_seen
                &&& self.held[i] > 0 ==> match self.writer {
                    Writer::Scanning { max, next } => next <= i < max,
                    Writer::In | Writer::Leaving => false,
                    _ => true,
                }
            }
        &&& match self.writer {
            Writer::Scanning { max, next } => next <= max <= self.lock.max_seen,
            _ => true,
        }
    }
}

/// What happens to a lock with `n` slots, step by step.
pub open spec fn history(s: Seq<Protocol>, n: nat) -> bool {
    &&& s.len() > 0
    &&& s[0] == Protocol::start(n)
    &&& forall|i: int| 0 <= i < s.len() - 1 ==> (#[trigger] s[i]).next(s[i + 1])
}

/// However the readers and the writer take turns, no reader is in while the writer is.
pub proof fn law_exclusion(s: Seq<Protocol>, n: nat, i: int)
    requires
        history(s, n),
        0 <= i < s.len(),
    ensures
        s[i].inv(),
        s[i].writer is In ==> forall|k: int|
            #![trigger s[i].held[k]]
            0 <= k < s[i].held.len() ==> s[i].held[k] == 0,
    decreases i,
{
    if i > 0 {
        law_exclusion(s, n, i - 1);
        assert(s[i - 1].next(s[i - 1 + 1]));
        lemma_inv_next(s[i - 1], s[i]);
    }
}

/// Each step keeps the invariant.
proof fn lemma_inv_next(a: Protocol, b: Protocol)
    requires
        a.inv(),
        a.next(b),
    ensures
        b.inv(),
{
    assert forall|i: int|
        #![trigger b.readers[i]]
        #![trigger b.held[i]]
        0 <= i < b.readers.len() implies {
        &&& b.slot_tells(i)
        &&& b.readers[i] !is Content || b.held[i] > 0 ==> i < b.lock.max_seen
        &&& b.held[i] > 0 ==> match b.writer {
            Writer::Scanning { max, next } => next <= i < max,
            Writer::In | Writer::Leaving => false,
            _ => true,
        }
    } by {
        let r = a.readers[i];
        assert(a.slot_tells(i));
    }
}

/// While a reader of a slot is in, the slot is read-locked and no writer gets in; the other slots
/// are as they were. A reading that ends leaves the counts as they were before it: whoever else
/// reads through the slot still holds the lock, and no writer gets in.
pub proof fn law_reading_undone(s: LockState, i: int)
    requires
        0 <= i < s.slots.len(),
        s.slots[i] < u32::MAX,
    ensures
        s.entered(i).slots[i] != 0,
        !s.entered(i).drained(),
        forall|j: int| 0 <= j < s.slots.len() && j != i ==> #[trigger] s.entered(i).slots[j]
            == s.slots[j],
        s.entered(i).left(i) == s.seen(i),
        s.slots[i] != 0 ==> s.entered(i).left(i).slots[i] != 0 && !s.entered(i).left(i).drained(),
{
    assert(s.entered(i).left(i).slots =~= s.slots);
}

/// Some steps in a row.
pub open spec fn path(s: Seq<Protocol>, from: Protocol, to: Protocol) -> bool {
    &&& s.len() > 0
    &&& s[0] == from
    &&& s.last() == to
    &&& forall|i: int| 0 <= i < s.len() - 1 ==> (#[trigger] s[i]).next(s[i + 1])
}

/// One more step.
proof fn lemma_path_more(s: Seq<Protocol>, from: Protocol, mid: Protocol, to: Protocol)
    requires
        path(s, from, mid),
        mid.next(to),
    ensures
        path(s.push(to), from, to),
{
    let t = s.push(to);
    assert forall|i: int| 0 <= i < t.len() - 1 implies (#[trigger] t[i]).next(t[i + 1]) by {
        if i < s.len() - 1 {
            assert(s[i].next(s[i + 1]));
        } else {
            assert(t[i] == mid);
        }
    }
}

/// [`DistributedRwLock::read`] takes a thread through steps of the protocol, to the state that its
/// contract promises: in once more, or as often as before if a writer is pending.
pub proof fn law_read_is_path(p: Protocol, i: int)
    requires
        p.inv(),
        p.reader_at(i, Reader::Content),
        p.lock.slots[i] < u32::MAX,
    ensures
        exists|s: Seq<Protocol>, q: Protocol|
            #![trigger path(s, p, q)]
            path(s, p, q) && if p.lock.pending {
                &&& q.lock == p.lock.seen(i)
                &&& q.held == p.held
                &&& q.reader_at(i, Reader::Known)
            } else {
                &&& q.lock == p.lock.entered(i)
                &&& q.held == p.held.update(i, p.held[i] + 1)
                &&& q.reader_at(i, Reader::Content)
            },
{
    let p1 = (Protocol { lock: p.lock.seen(i), ..p }).with_reader(i, Reader::Known);
    let p2 = p1.with_slot(i, (p1.lock.slots[i] + 1) as u32).with_reader(i, Reader::Announced);
    let p3 = if p.lock.pending {
        p2.with_reader(i, Reader::Refused)
    } else {
        p2.with_held(i, p2.held[i] + 1).with_reader(i, Reader::Content)
    };
    let s0 = seq![p];
    assert(path(s0, p, p));
    assert(p.known(i, p1));
    lemma_path_more(s0, p, p, p1);
    assert(p1.announced(i, p2));
    lemma_path_more(s0.push(p1), p, p1, p2);
    assert(p2.looked(i, p3));
    lemma_path_more(s0.push(p1).push(p2), p, p2, p3);
    let s3 = s0.push(p1).push(p2).push(p3);
    if p.lock.pending {
        let p4 = p3.with_slot(i, without_one(p3.lock.slots[i])).with_reader(i, Reader::Known);
        assert(p3.backed_off(i, p4));
        lemma_path_more(s3, p, p3, p4);
        assert(p4.lock.slots =~= p.lock.seen(i).slots);
        assert(path(s3.push(p4), p, p4));
    } else {
        assert(path(s3, p, p3));
    }
}

/// [`DistributedRwLock::release_read`] of a thread that is in is a step of the protocol.
pub proof fn law_release_is_step(p: Protocol, i: int)
    requires
        p.inv(),
        0 <= i < p.held.len(),
        p.held[i] > 0,
    ensures
        exists|q: Protocol|
            #![trigger p.next(q)]
            p.next(q) && q.lock == p.lock.left(i) && q.held == p.held.update(
                i,
                (p.held[i] - 1) as nat,
            ),
{
    let q = p.with_slot(i, without_one(p.lock.slots[i])).with_held(i, (p.held[i] - 1) as nat);
    assert(p.left(i, q));
    assert(p.next(q));
}

/// A writer that finds `max` slots empty passes them one after the other.
proof fn lemma_scan(p: Protocol, max: nat, k: nat) -> (s: Seq<Protocol>)
    requires
        p.writer == (Writer::Scanning { max, next: 0 }),
        p.lock.drained(),
        max <= p.lock.slots.len(),
        k <= max,
    ensures
        path(s, p, Protocol { writer: Writer::Scanning { max, next: k }, ..p }),
    decreases k,
{
    if k == 0 {
        let s = seq![p];
        assert(path(s, p, p));
        s
    } else {
        let q = Protocol { writer: Writer::Scanning { max, next: (k - 1) as nat }, ..p };
        let r = Protocol { writer: Writer::Scanning { max, next: k }, ..p };
        let s = lemma_scan(p, max, (k - 1) as nat);
        assert(p.lock.slots[k - 1] == 0);
        assert(q.scanned(r));
        lemma_path_more(s, p, q, r);
        s.push(r)
    }
}

/// [`DistributedRwLock::try_write`] takes a writer through steps of the protocol, to the state that
/// its contract promises: in if there is no reader, else pending.
pub proof fn law_write_is_path(p: Protocol)
    requires
        p.inv(),
        !p.lock.pending,
    ensures
        exists|s: Seq<Protocol>, q: Protocol|
            #![trigger path(s, p, q)]
            path(s, p, q) && q.lock == (LockState {
                pending: true,
                locked: p.lock.drained(),
                ..p.lock
            }) && (p.lock.drained() ==> q.writer is In),
{
    let p1 = Protocol {
        lock: LockState { pending: true, ..p.lock },
        writer: Writer::Claimed,
        ..p
    };
    let s0 = seq![p];
    assert(path(s0, p, p));
    assert(p.claimed(p1));
    lemma_path_more(s0, p, p, p1);
    let s1 = s0.push(p1);
    if p.lock.drained() {
        let max = p.lock.max_seen;
        let p2 = Protocol { writer: Writer::Scanning { max, next: 0 }, ..p1 };
        assert(p1.measured(p2));
        assert(p2.lock.drained());
        let scan = lemma_scan(p2, max, max);
        let p3 = Protocol { writer: Writer::Scanning { max, next: max }, ..p2 };
        lemma_path_joined(s1, scan, p, p1, p2, p3);
        let p4 = Protocol {
            lock: LockState { locked: true, ..p3.lock },
            writer: Writer::In,
            ..p3
        };
        assert(p3.taken(p4));
        lemma_path_more(s1 + scan, p, p3, p4);
        assert(path((s1 + scan).push(p4), p, p4));
    } else {
        assert(path(s1, p, p1));
    }
}

/// One path after another, with a step between them.
proof fn lemma_path_joined(
    s: Seq<Protocol>,
    t: Seq<Protocol>,
    a: Protocol,
    b: Protocol,
    c: Protocol,
    d: Protocol,
)
    requires
        path(s, a, b),
        b.next(c),
        path(t, c, d),
    ensures
        path(s + t, a, d),
{
    let u = s + t;
    assert forall|i: int| 0 <= i < u.len() - 1 implies (#[trigger] u[i]).next(u[i + 1]) by {
        if i < s.len() - 1 {
            assert(s[i].next(s[i + 1]));
        } else if i == s.len() - 1 {
            assert(u[i] == b && u[i + 1] == c);
        } else {
            let k = i - s.len();
            assert(t[k].next(t[k + 1]));
        }
    }
    assert(u.last() == t.last());
}

} // verus!
