//! A reader-writer lock in one signed word that lets readers go first: the word counts the readers,
//! and is -1 while a writer is in.

use vstd::prelude::*;

verus! {

/// The word while a writer is in.
pub const WRITING: isize = -1;

/// The word while nobody is in.
pub const FREE: isize = 0;

/// What a reader does about the word that it has found.
#[derive(Clone, Copy, PartialEq, Eq, Debug, Structural)]
pub enum ReadStep {
    /// A writer is in: look again.
    Spin,
    /// There are as many readers as can be counted.
    Overflow,
    /// Exchange the word for this one.
    Enter(isize),
}

/// What a reader does about the word `s`.
pub fn read_step(s: isize) -> (r: ReadStep)
    ensures
        r == (if s < 0 {
            ReadStep::Spin
        } else if s == isize::MAX {
            ReadStep::Overflow
        } else {
            ReadStep::Enter((s + 1) as isize)
        }),
{
    if s < 0 {
        return ReadStep::Spin;
    }
    if s == isize::MAX {
        return ReadStep::Overflow;
    }
    ReadStep::Enter(s + 1)
}

/// The word that a writer may exchange for [`WRITING`], if `s` is it.
pub fn write_step(s: isize) -> (r: Option<isize>)
    ensures
        r == (if s == FREE {
            Some(WRITING)
        } else {
            None
        }),
{
    if s == FREE {
        Some(WRITING)
    } else {
        None
    }
}

/// A value behind a lock.
pub struct SpinRwLock<T> {
    state: isize,
    data: T,
}

/// The right to read.
pub struct ReadGuard {
    _counted: (),
}

impl<T> SpinRwLock<T> {
    pub closed spec fn word(&self) -> isize {
        self.state
    }

    pub closed spec fn value(&self) -> T {
        self.data
    }

    pub fn new(value: T) -> (r: Self)
        ensures
            r.word() == FREE,
            r.value() == value,
    {
        SpinRwLock { state: 0, data: value }
    }

    /// Tries once to read; fails while a writer is in.
    pub fn read(&mut self) -> (r: Option<ReadGuard>)
        requires
            old(self).word() < isize::MAX,
        ensures
            r is Some <==> old(self).word() >= 0,
            r is Some ==> final(self).word() == old(self).word() + 1,
            r is None ==> final(self).word() == old(self).word(),
            final(self).value() == old(self).value(),
    {
        match read_step(self.state) {
            ReadStep::Enter(next) => {
                self.state = next;
                Some(ReadGuard { _counted: () })
            },
            _ => None,
        }
    }

    /// The value, for as long as the guard is held.
    pub fn get(&self, guard: &ReadGuard) -> (r: &T)
        ensures
            *r == self.value(),
    {
        &self.data
    }

    /// Ends the reading of a guard.
    pub fn release_read(&mut self, guard: ReadGuard)
        requires
            old(self).word() > 0,
        ensures
            final(self).word() == old(self).word() - 1,
            final(self).value() == old(self).value(),
    {
        self.state = self.state - 1;
    }

    /// Lets `f` change the value if nobody is in; tells whether it did.
    pub fn try_write_once<F: FnOnce(&mut T)>(&mut self, f: F) -> (r: bool)
        requires
            old(self).word() == FREE ==> forall|y: &mut T|
                *y == old(self).value() ==> call_requires(f, (y,)),
        ensures
            r == (old(self).word() == FREE),
            final(self).word() == old(self).word(),
            r ==> exists|y: &mut T|
                *y == old(self).value() && *final(y) == final(self).value() && call_ensures(
                    f,
                    (y,),
                    (),
                ),
            !r ==> final(self).value() == old(self).value(),
    {
        match write_step(self.state) {
            Some(next) => {
                self.state = next;
                f(&mut self.data);
                self.state = FREE;
                true
            },
            None => false,
        }
    }

    /// Lets `f` change the value of a free lock.
    pub fn write<F: FnOnce(&mut T)>(&mut self, f: F)
        requires
            old(self).word() == FREE,
            forall|y: &mut T| *y == old(self).value() ==> call_requires(f, (y,)),
        ensures
            final(self).word() == FREE,
            exists|y: &mut T|
                *y == old(self).value() && *final(y) == final(self).value() && call_ensures(
                    f,
                    (y,),
                    (),
                ),
    {
        self.try_write_once(f);
    }
}

/// The word of a lock and who is in.
pub struct Occupancy {
    pub word: isize,
    pub readers: nat,
    pub writing: bool,
}

impl Occupancy {
    pub open spec fn start() -> Self {
        Occupancy { word: FREE, readers: 0, writing: false }
    }

    /// The word tells who is in.
    pub open spec fn inv(self) -> bool {
        &&& self.word == if self.writing {
            WRITING as int
        } else {
            self.readers as int
        }
        &&& self.writing ==> self.readers == 0
    }

    pub open spec fn reader_enters(self, after: Self) -> bool {
        &&& 0 <= self.word < isize::MAX
        &&& after == (Occupancy {
            word: (self.word + 1) as isize,
            readers: self.readers + 1,
            ..self
        })
    }

    pub open spec fn reader_leaves(self, after: Self) -> bool {
        &&& self.readers > 0
        &&& after == (Occupancy {
            word: (self.word - 1) as isize,
            readers: (self.readers - 1) as nat,
            ..self
        })
    }

    pub open spec fn writer_enters(self, after: Self) -> bool {
        &&& self.word == FREE
        &&& after == (Occupancy { word: WRITING, writing: true, ..self })
    }

    pub open spec fn writer_leaves(self, after: Self) -> bool {
        &&& self.writing
        &&& after == (Occupancy { word: FREE, writing: false, ..self })
    }

    /// The writer that is in has changed the value, and not the word.
    pub open spec fn writer_writes(self, after: Self) -> bool {
        &&& self.writing
        &&& after == self
    }

    /// One thread has exchanged or changed the word, or the value, in one of the ways of the lock.
    pub open spec fn next(self, after: Self) -> bool {
        ||| self.reader_enters(after)
        ||| self.reader_leaves(after)
        ||| self.writer_enters(after)
        ||| self.writer_leaves(after)
        ||| self.writer_writes(after)
    }

    /// How many are in.
    pub open spec fn occupants(self) -> nat {
        self.readers + if self.writing {
            1nat
        } else {
            0nat
        }
    }
}

/// What happens to a lock, step by step.
pub open spec fn history(s: Seq<Occupancy>) -> bool {
    &&& s.len() > 0
    &&& s[0] == Occupancy::start()
    &&& forall|i: int| 0 <= i < s.len() - 1 ==> (#[trigger] s[i]).next(s[i + 1])
}

/// However the threads take turns, no reader is in while a writer is, and no second writer gets in
/// while one is.
pub proof fn law_exclusion(s: Seq<Occupancy>, i: int)
    requires
        history(s),
        0 <= i < s.len(),
    ensures
        s[i].inv(),
        !(s[i].writing && s[i].readers > 0),
        s[i].writing || s[i].readers > 0 ==> s[i].word != FREE,
    decreases i,
{
    if i > 0 {
        law_exclusion(s, i - 1);
        assert(s[i - 1].next(s[i - 1 + 1]));
    }
}

/// The values behind a lock, step by step: only a writer that is in changes them.
pub open spec fn guarded<T>(s: Seq<Occupancy>, values: Seq<T>) -> bool {
    &&& values.len() == s.len()
    &&& forall|i: int|
        0 <= i < s.len() - 1 ==> values[i + 1] == #[trigger] values[i] || s[i].writer_writes(
            s[i + 1],
        )
}

/// The value does not change while a reader is in, nor while nobody is.
pub proof fn law_value_kept<T>(s: Seq<Occupancy>, values: Seq<T>, i: int, j: int)
    requires
        history(s),
        guarded(s, values),
        0 <= i <= j < s.len(),
        forall|k: int| i <= k <= j ==> (#[trigger] s[k]).readers > 0 || !s[k].writing,
    ensures
        values[j] == values[i],
    decreases j,
{
    if i < j {
        law_value_kept(s, values, i, j - 1);
        law_exclusion(s, j - 1);
        assert(s[j - 1].readers > 0 || !s[j - 1].writing);
        assert(values[j - 1 + 1] == values[j - 1] || s[j - 1].writer_writes(s[j]));
    }
}

/// Those who are in leave one after the other, and nobody enters.
pub open spec fn drains(s: Seq<Occupancy>) -> bool {
    &&& s.len() > 0
    &&& s[0].inv()
    &&& forall|i: int|
        0 <= i < s.len() - 1 ==> (#[trigger] s[i]).reader_leaves(s[i + 1]) || s[i].writer_leaves(
            s[i + 1],
        )
}

/// A waiting writer gets in: where those who are in leave and nobody enters, the word is free as
/// soon as the last one has left, and not before; and a writer that then enters is in alone.
pub proof fn law_waiting_writer(s: Seq<Occupancy>, i: int)
    requires
        drains(s),
        0 <= i < s.len(),
    ensures
        s[i].inv(),
        s[i].occupants() == s[0].occupants() - i,
        s[i].word == FREE <==> i == s[0].occupants(),
        i == s[0].occupants() ==> {
            let after = Occupancy { word: WRITING, writing: true, ..s[i] };
            s[i].writer_enters(after) && after.inv() && after.occupants() == 1
        },
    decreases i,
{
    if i > 0 {
        law_waiting_writer(s, i - 1);
        let (a, b) = (s[i - 1], s[i - 1 + 1]);
        assert(a.reader_leaves(b) || a.writer_leaves(b));
    }
}

} // verus!
