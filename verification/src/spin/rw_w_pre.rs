//! A reader-writer lock in one word that lets a waiting writer go first.

use vstd::prelude::*;
use vstd::string::StringExecFns;

use crate::text::{decimal, push_count};

verus! {

/// Counts of what the readers of a lock went through.
#[derive(Clone, Copy)]
pub struct RwLockStat {
    pub read_acquires: usize,
    pub read_cas_retries: usize,
    pub read_writer_spins: usize,
}

impl RwLockStat {
    pub open spec fn zero() -> Self {
        RwLockStat { read_acquires: 0, read_cas_retries: 0, read_writer_spins: 0 }
    }

    /// After one more reader got in.
    pub open spec fn acquired(self) -> Self {
        RwLockStat { read_acquires: self.read_acquires.wrapping_add(1), ..self }
    }

    /// After one more exchange of the lock word failed.
    pub open spec fn retried(self) -> Self {
        RwLockStat { read_cas_retries: self.read_cas_retries.wrapping_add(1), ..self }
    }

    /// After one more reader was turned away by a writer.
    pub open spec fn spun(self) -> Self {
        RwLockStat { read_writer_spins: self.read_writer_spins.wrapping_add(1), ..self }
    }

    /// The counts in one line of text, with the rate of retries as given.
    pub open spec fn text(self, retry_rate: Seq<char>) -> Seq<char> {
        "read_acquires: "@ + decimal(self.read_acquires as nat) + ", read_cas_retries: "@ + decimal(
            self.read_cas_retries as nat,
        ) + ", read_writer_spins: "@ + decimal(self.read_writer_spins as nat) + " (retry_rate: "@
            + retry_rate + "%)"@
    }

    pub fn to_text(&self, retry_rate: &str) -> (r: String)
        ensures
            r@ == self.text(retry_rate@),
    {
        let mut r = String::new();
        push_count(&mut r, "read_acquires: ", self.read_acquires);
        push_count(&mut r, ", read_cas_retries: ", self.read_cas_retries);
        push_count(&mut r, ", read_writer_spins: ", self.read_writer_spins);
        r.append(" (retry_rate: ");
        r.append(retry_rate);
        r.append("%)");
        r
    }

    pub fn record_acquire(&mut self)
        ensures
            *final(self) == old(self).acquired(),
    {
        self.read_acquires = self.read_acquires.wrapping_add(1);
    }

    pub fn record_retry(&mut self)
        ensures
            *final(self) == old(self).retried(),
    {
        self.read_cas_retries = self.read_cas_retries.wrapping_add(1);
    }

    pub fn record_spin(&mut self)
        ensures
            *final(self) == old(self).spun(),
    {
        self.read_writer_spins = self.read_writer_spins.wrapping_add(1);
    }
}

impl Default for RwLockStat {
    fn default() -> (r: Self)
        ensures
            r == RwLockStat::zero(),
    {
        RwLockStat { read_acquires: 0, read_cas_retries: 0, read_writer_spins: 0 }
    }
}

/// Set in the word while a writer is in.
pub const WRITE_LOCKED: usize = 1;

/// Set in the word while a writer waits for the readers to leave.
pub const WRITE_PENDING: usize = 2;

/// Added to the word for each reader.
pub const READER_ONE: usize = 4;

/// The number of readers that a word counts.
pub open spec fn readers_in(s: usize) -> nat {
    (s / READER_ONE) as nat
}

/// A writer is in or waits, by the word.
pub open spec fn has_writer(s: usize) -> bool {
    s % READER_ONE != 0
}

proof fn lemma_bits(s: usize)
    ensures
        s & 3 == s % 4,
        s >> 2 == s / 4,
        s % 4 == 0 ==> s | 2 == s + 2,
        s / 4 == 0 ==> (s & !2) | 1 == s - s % 4 + 1,
        s & !3 == s - s % 4,
        WRITE_LOCKED | WRITE_PENDING == 3,
{
    assert(1usize | 2usize == 3usize) by (bit_vector);
    assert(s & 3 == s % 4) by (bit_vector);
    assert(s >> 2 == s / 4) by (bit_vector);
    assert(s % 4 == 0 ==> s | 2 == s + 2) by (bit_vector);
    assert(s / 4 == 0 ==> (s & !2) | 1 == s - s % 4 + 1) by (bit_vector);
    assert(s & !3 == s - s % 4) by (bit_vector);
}

/// A word of `readers` readers and one of the numbers nought to three says how many readers there
/// are, and that there is a writer just if that number is not nought.
pub proof fn law_word(readers: nat, b: nat)
    requires
        b < 4,
        4 * readers + b <= usize::MAX,
    ensures
        readers_in((4 * readers + b) as usize) == readers,
        has_writer((4 * readers + b) as usize) <==> b != 0,
{
}

/// The word that a reader exchanges `s` for; none while a writer is in or waits.
pub fn read_step(s: usize) -> (r: Option<usize>)
    ensures
        r == (if has_writer(s) {
            None
        } else {
            Some(s.wrapping_add(READER_ONE))
        }),
{
    proof {
        lemma_bits(s);
    }
    if (s & (WRITE_LOCKED | WRITE_PENDING)) != 0 {
        return None;
    }
    Some(s.wrapping_add(READER_ONE))
}

/// The word that a writer exchanges `s` for, to keep new readers out; none while another writer is
/// in or waits.
pub fn claim_step(s: usize) -> (r: Option<usize>)
    ensures
        r == (if has_writer(s) {
            None
        } else {
            Some((s + WRITE_PENDING) as usize)
        }),
{
    proof {
        lemma_bits(s);
    }
    if (s & (WRITE_LOCKED | WRITE_PENDING)) != 0 {
        return None;
    }
    Some(s | WRITE_PENDING)
}

/// The word that a waiting writer exchanges `s` for; none while there are readers.
pub fn lock_step(s: usize) -> (r: Option<usize>)
    ensures
        r == (if readers_in(s) == 0 {
            Some(WRITE_LOCKED)
        } else {
            None
        }),
{
    proof {
        lemma_bits(s);
    }
    if s >> 2 == 0 {
        return Some((s & !WRITE_PENDING) | WRITE_LOCKED);
    }
    None
}

/// The word when a reader has left.
pub fn read_end(s: usize) -> (r: usize)
    ensures
        r == s.wrapping_sub(READER_ONE),
{
    s.wrapping_sub(READER_ONE)
}

/// The word when a writer has left.
pub fn write_end(s: usize) -> (r: usize)
    ensures
        r == s - s % READER_ONE,
{
    proof {
        lemma_bits(s);
    }
    s & !(WRITE_LOCKED | WRITE_PENDING)
}

/// A value behind a lock.
pub struct SpinRwLock<T> {
    state: usize,
    value: T,
    stat: RwLockStat,
}

/// The right to read.
pub struct ReadGuard {
    _counted: (),
}

/// The right to write.
pub struct WriteGuard {
    _locked: (),
}

/// What came of an attempt to write.
pub enum WriteAttempt {
    /// Another writer is in or waits.
    Busy,
    /// The lock is claimed, but there is a reader yet.
    Draining,
    Locked(WriteGuard),
}

impl<T: Default> Default for SpinRwLock<T> {
    fn default() -> (r: Self)
        ensures
            r.word() == 0,
            call_ensures(T::default, (), r.content()),
            r.stats() == RwLockStat::zero(),
    {
        SpinRwLock { state: 0, value: T::default(), stat: RwLockStat::default() }
    }
}

impl<T> SpinRwLock<T> {
    pub closed spec fn word(&self) -> usize {
        self.state
    }

    pub closed spec fn content(&self) -> T {
        self.value
    }

    pub closed spec fn stats(&self) -> RwLockStat {
        self.stat
    }

    pub fn new(value: T) -> (r: Self)
        ensures
            r.word() == 0,
            r.content() == value,
            r.stats() == RwLockStat::zero(),
    {
        SpinRwLock { state: 0, value, stat: RwLockStat::default() }
    }

    /// Tries once to read; fails while a writer is in or waits.
    pub fn read(&mut self) -> (r: Option<ReadGuard>)
        ensures
            r is Some <==> !has_writer(old(self).word()),
            r is Some ==> final(self).word() == old(self).word().wrapping_add(READER_ONE),
            r is Some ==> final(self).stats() == old(self).stats().acquired(),
            r is None ==> final(self).word() == old(self).word(),
            r is None ==> final(self).stats() == old(self).stats().spun(),
            final(self).content() == old(self).content(),
    {
        match read_step(self.state) {
            Some(next) => {
                self.state = next;
                self.stat.record_acquire();
                Some(ReadGuard { _counted: () })
            },
            None => {
                self.stat.record_spin();
                None
            },
        }
    }

    /// Tries to write: keeps new readers out, and takes the lock if there are none.
    pub fn try_write(&mut self) -> (r: WriteAttempt)
        ensures
            r is Busy <==> has_writer(old(self).word()),
            r is Locked <==> old(self).word() == 0,
            r is Busy ==> final(self).word() == old(self).word(),
            r is Draining ==> final(self).word() == old(self).word() + WRITE_PENDING,
            r is Locked ==> final(self).word() == WRITE_LOCKED,
            final(self).content() == old(self).content(),
            final(self).stats() == old(self).stats(),
    {
        match claim_step(self.state) {
            Some(next) => {
                self.state = next;
                self.drain()
            },
            None => WriteAttempt::Busy,
        }
    }

    /// Looks once more on behalf of a waiting writer, and takes the lock if there are no readers.
    pub fn drain(&mut self) -> (r: WriteAttempt)
        requires
            old(self).word() % READER_ONE == WRITE_PENDING,
        ensures
            r !is Busy,
            r is Locked <==> readers_in(old(self).word()) == 0,
            r is Locked ==> final(self).word() == WRITE_LOCKED,
            r is Draining ==> final(self).word() == old(self).word(),
            final(self).content() == old(self).content(),
            final(self).stats() == old(self).stats(),
    {
        match lock_step(self.state) {
            Some(next) => {
                self.state = next;
                WriteAttempt::Locked(WriteGuard { _locked: () })
            },
            None => WriteAttempt::Draining,
        }
    }

    /// The value, for as long as the guard is held.
    pub fn get(&self, guard: &ReadGuard) -> (r: &T)
        ensures
            *r == self.content(),
    {
        &self.value
    }

    /// The value, to be changed for as long as the guard is held.
    pub fn get_mut(&mut self, guard: &WriteGuard) -> (r: &mut T)
        requires
            old(self).word() == WRITE_LOCKED,
        ensures
            *r == old(self).content(),
            final(self).content() == *final(r),
            final(self).word() == old(self).word(),
            final(self).stats() == old(self).stats(),
    {
        &mut self.value
    }

    /// Ends the reading of a guard.
    pub fn release_read(&mut self, guard: ReadGuard)
        requires
            readers_in(old(self).word()) > 0,
        ensures
            final(self).word() == old(self).word() - READER_ONE,
            final(self).content() == old(self).content(),
            final(self).stats() == old(self).stats(),
    {
        self.state = read_end(self.state);
    }

    /// Ends the writing of a guard.
    pub fn release_write(&mut self, guard: WriteGuard)
        requires
            old(self).word() == WRITE_LOCKED,
        ensures
            final(self).word() == 0,
            final(self).content() == old(self).content(),
            final(self).stats() == old(self).stats(),
    {
        self.state = write_end(self.state);
    }
}

/// How far a writer has come.
pub enum Writer {
    Out,
    Waiting,
    In,
}

/// The word of a lock and who is in.
pub struct Occupancy {
    pub word: usize,
    pub readers: nat,
    pub writer: Writer,
}

impl Occupancy {
    pub open spec fn start() -> Self {
        Occupancy { word: 0, readers: 0, writer: Writer::Out }
    }

    /// The word tells who is in.
    pub open spec fn inv(self) -> bool {
        &&& self.word == READER_ONE * self.readers + match self.writer {
            Writer::Out => 0int,
            Writer::Waiting => WRITE_PENDING as int,
            Writer::In => WRITE_LOCKED as int,
        }
        &&& self.writer is In ==> self.readers == 0
    }

    /// A reader has exchanged the word.
    pub open spec fn reader_enters(self, after: Self) -> bool {
        &&& !has_writer(self.word)
        &&& self.word <= usize::MAX - READER_ONE
        &&& after == (Occupancy {
            word: self.word.wrapping_add(READER_ONE),
            readers: self.readers + 1,
            ..self
        })
    }

    /// A reader that is in has left.
    pub open spec fn reader_leaves(self, after: Self) -> bool {
        &&& self.readers > 0
        &&& after == (Occupancy {
            word: self.word.wrapping_sub(READER_ONE),
            readers: (self.readers - 1) as nat,
            ..self
        })
    }

    /// A writer has exchanged the word to keep readers out.
    pub open spec fn writer_claims(self, after: Self) -> bool {
        &&& !has_writer(self.word)
        &&& after == (Occupancy {
            word: (self.word + WRITE_PENDING) as usize,
            writer: Writer::Waiting,
            ..self
        })
    }

    /// The waiting writer has found no readers and exchanged the word.
    pub open spec fn writer_enters(self, after: Self) -> bool {
        &&& self.writer is Waiting
        &&& readers_in(self.word) == 0
        &&& after == (Occupancy { word: WRITE_LOCKED, writer: Writer::In, ..self })
    }

    /// The writer that is in has left.
    pub open spec fn writer_leaves(self, after: Self) -> bool {
        &&& self.writer is In
        &&& after == (Occupancy {
            word: (self.word - self.word % READER_ONE) as usize,
            writer: Writer::Out,
            ..self
        })
    }

    /// The writer that is in has changed the value, and not the word.
    pub open spec fn writer_writes(self, after: Self) -> bool {
        &&& self.word == WRITE_LOCKED
        &&& after == self
    }

    /// One thread has changed the word or the value, in one of the ways of the lock.
    pub open spec fn next(self, after: Self) -> bool {
        ||| self.reader_enters(after)
        ||| self.reader_leaves(after)
        ||| self.writer_claims(after)
        ||| self.writer_enters(after)
        ||| self.writer_leaves(after)
        ||| self.writer_writes(after)
    }
}

/// What happens to a lock, step by step.
pub open spec fn history(s: Seq<Occupancy>) -> bool {
    &&& s.len() > 0
    &&& s[0] == Occupancy::start()
    &&& forall|i: int| 0 <= i < s.len() - 1 ==> (#[trigger] s[i]).next(s[i + 1])
}

/// However the threads take turns, no reader is in while a writer is, and while a writer is in or
/// waits, no reader and no second writer gets in.
pub proof fn law_exclusion(s: Seq<Occupancy>, i: int)
    requires
        history(s),
        0 <= i < s.len(),
    ensures
        s[i].inv(),
        !(s[i].writer is In && s[i].readers > 0),
        has_writer(s[i].word) <==> s[i].writer !is Out,
    decreases i,
{
    if i > 0 {
        law_exclusion(s, i - 1);
        assert(s[i - 1].next(s[i - 1 + 1]));
    }
}

/// The values behind a lock, step by step: only a writer that is in changes them.
pub open spec fn guarded<T>(s: Seq<Occupancy>, values: Seq<T>) -> bool {
    &&& values.len() == s.len()
    &&& forall|i: int|
        0 <= i < s.len() - 1 ==> values[i + 1] == #[trigger] values[i] || s[i].writer_writes(
            s[i + 1],
        )
}

/// The value does not change while a reader is in.
pub proof fn law_value_kept<T>(s: Seq<Occupancy>, values: Seq<T>, i: int, j: int)
    requires
        history(s),
        guarded(s, values),
        0 <= i <= j < s.len(),
        forall|k: int| i <= k <= j ==> (#[trigger] s[k]).readers > 0,
    ensures
        values[j] == values[i],
    decreases j,
{
    if i < j {
        law_value_kept(s, values, i, j - 1);
        law_exclusion(s, j - 1);
        assert(s[j - 1].readers > 0);
        assert(values[j - 1 + 1] == values[j - 1] || s[j - 1].writer_writes(s[j]));
    }
}

} // verus!
