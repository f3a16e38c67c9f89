//! Direct-mapped caches of operation results.

use vstd::arithmetic::div_mod::{
    lemma_fundamental_div_mod, lemma_fundamental_div_mod_converse, lemma_small_mod,
};
use vstd::arithmetic::power2::pow2;
use vstd::prelude::*;
use vstd::std_specs::cmp::PartialEqSpec;

use crate::sizing::{lemma_double, lemma_size_range, size_for, MAX_SIZE_EXP};
use crate::text::{decimal, push_count};

verus! {

/// Counts of what a cache has done.
#[derive(Clone, Copy)]
pub struct CacheStat {
    pub clear_cnt: usize,
    pub grow_cnt: usize,
    /// Hits since the cache last grew.
    pub last_hit: usize,
    /// Misses since the cache last grew.
    pub last_miss: usize,
    pub unique_hit: usize,
    pub unique_miss: usize,
}

impl CacheStat {
    pub open spec fn zero() -> Self {
        CacheStat {
            clear_cnt: 0,
            grow_cnt: 0,
            last_hit: 0,
            last_miss: 0,
            unique_hit: 0,
            unique_miss: 0,
        }
    }

    /// After one more hit.
    pub open spec fn hit(self) -> Self {
        CacheStat {
            last_hit: self.last_hit.wrapping_add(1),
            unique_hit: self.unique_hit.wrapping_add(1),
            ..self
        }
    }

    /// After one more miss.
    pub open spec fn missed(self) -> Self {
        CacheStat {
            last_miss: self.last_miss.wrapping_add(1),
            unique_miss: self.unique_miss.wrapping_add(1),
            ..self
        }
    }

    /// After the cache has grown once more.
    pub open spec fn grown(self) -> Self {
        CacheStat {
            grow_cnt: self.grow_cnt.wrapping_add(1),
            last_hit: 0,
            last_miss: 0,
            ..self
        }
    }

    /// After the cache was emptied once more.
    pub open spec fn cleared(self) -> Self {
        CacheStat { clear_cnt: self.clear_cnt.wrapping_add(1), ..self }
    }

    /// After `hits` hits and `misses` misses more.
    pub open spec fn after(self, hits: nat, misses: nat) -> Self
        decreases hits + misses,
    {
        if hits > 0 {
            self.after((hits - 1) as nat, misses).hit()
        } else if misses > 0 {
            self.after(0, (misses - 1) as nat).missed()
        } else {
            self
        }
    }

    /// The counts are those of `before`, and of some lookups after it.
    pub open spec fn looked_up(self, before: Self) -> bool {
        exists|hits: nat, misses: nat| #[trigger] before.after(hits, misses) == self
    }

    /// The counts are those of `before`, and of at least one lookup after it.
    pub open spec fn consulted(self, before: Self) -> bool {
        self.looked_up(before.hit()) || self.looked_up(before.missed())
    }

    pub proof fn lemma_looked_up_self(self)
        ensures
            self.looked_up(self),
    {
        assert(self.after(0, 0) == self);
    }

    proof fn lemma_after_missed(self, hits: nat, misses: nat)
        ensures
            self.after(hits, misses).missed() == self.after(hits, misses + 1),
        decreases hits,
    {
        if hits > 0 {
            self.lemma_after_missed((hits - 1) as nat, misses);
        }
    }

    /// One lookup more.
    pub proof fn lemma_looked_up_more(self, before: Self)
        requires
            self.looked_up(before),
        ensures
            self.hit().looked_up(before),
            self.missed().looked_up(before),
    {
        let (hits, misses) = choose|hits: nat, misses: nat| #[trigger]
            before.after(hits, misses) == self;
        before.lemma_after_missed(hits, misses);
        assert(before.after(hits + 1, misses) == self.hit());
    }

    /// Some lookups more.
    pub proof fn lemma_looked_up_trans(self, mid: Self, before: Self)
        requires
            self.looked_up(mid),
            mid.looked_up(before),
        ensures
            self.looked_up(before),
    {
        let (hits, misses) = choose|hits: nat, misses: nat| #[trigger]
            mid.after(hits, misses) == self;
        mid.lemma_looked_up_after(before, hits, misses);
    }

    proof fn lemma_looked_up_after(self, before: Self, hits: nat, misses: nat)
        requires
            self.looked_up(before),
        ensures
            self.after(hits, misses).looked_up(before),
        decreases hits + misses,
    {
        if hits > 0 {
            self.lemma_looked_up_after(before, (hits - 1) as nat, misses);
            self.after((hits - 1) as nat, misses).lemma_looked_up_more(before);
        } else if misses > 0 {
            self.lemma_looked_up_after(before, 0, (misses - 1) as nat);
            self.after(0, (misses - 1) as nat).lemma_looked_up_more(before);
        }
    }

    /// The hits and misses in one line of text.
    pub open spec fn text(self) -> Seq<char> {
        "unique_hit: "@ + decimal(self.unique_hit as nat) + ", unique_miss: "@ + decimal(
            self.unique_miss as nat,
        )
    }

    pub fn to_text(&self) -> (r: String)
        ensures
            r@ == self.text(),
    {
        let mut r = String::new();
        push_count(&mut r, "unique_hit: ", self.unique_hit);
        push_count(&mut r, ", unique_miss: ", self.unique_miss);
        r
    }

    pub fn record_hit(&mut self)
        ensures
            *final(self) == old(self).hit(),
    {
        self.last_hit = self.last_hit.wrapping_add(1);
        self.unique_hit = self.unique_hit.wrapping_add(1);
    }

    pub fn record_miss(&mut self)
        ensures
            *final(self) == old(self).missed(),
    {
        self.last_miss = self.last_miss.wrapping_add(1);
        self.unique_miss = self.unique_miss.wrapping_add(1);
    }

    pub fn record_grow(&mut self)
        ensures
            *final(self) == old(self).grown(),
    {
        self.grow_cnt = self.grow_cnt.wrapping_add(1);
        self.last_hit = 0;
        self.last_miss = 0;
    }

    pub fn record_clear(&mut self)
        ensures
            *final(self) == old(self).cleared(),
    {
        self.clear_cnt = self.clear_cnt.wrapping_add(1);
    }
}

impl Default for CacheStat {
    fn default() -> (r: Self)
        ensures
            r == CacheStat::zero(),
    {
        CacheStat {
            clear_cnt: 0,
            grow_cnt: 0,
            last_hit: 0,
            last_miss: 0,
            unique_hit: 0,
            unique_miss: 0,
        }
    }
}

/// A pair of default values, as an unused entry holds it.
pub open spec fn unused<K: Default, V: Default>(e: (K, V)) -> bool {
    call_ensures(K::default, (), e.0) && call_ensures(V::default, (), e.1)
}

/// All entries are unused.
pub open spec fn all_unused<K: Default, V: Default>(s: Seq<(K, V)>) -> bool {
    forall|i: int| 0 <= i < s.len() ==> unused(#[trigger] s[i])
}

/// The entry that belongs to a hash, among `n`.
pub open spec fn entry_of(hash: u64, n: nat) -> int {
    hash as int % n as int
}

/// The entry of a hash is what is left of it when it is divided by the number of entries.
pub proof fn law_entry(hash: u64, n: nat, q: int, e: int)
    requires
        n > 0,
    ensures
        0 <= entry_of(hash, n) < n,
        hash == n * (hash as int / n as int) + entry_of(hash, n),
        0 <= e < n && hash == n * q + e ==> entry_of(hash, n) == e,
{
    lemma_fundamental_div_mod(hash as int, n as int);
    if 0 <= e < n && hash == n * q + e {
        lemma_fundamental_div_mod_converse(hash as int, n as int, q, e);
    }
}

/// A cache of values by key. A value may be forgotten at any time.
pub trait Cache<K: Eq + Default, V: Default + Copy>: Sized {
    spec fn wf(&self) -> bool;

    /// The entries, of which each key has one place.
    spec fn entries(&self) -> Seq<(K, V)>;

    /// The binary logarithm of the number of entries.
    spec fn exp(&self) -> nat;

    spec fn stats(&self) -> CacheStat;

    /// The value that was put in for `q`, if its entry still holds it, else the default value.
    fn get(&mut self, hash: u64, q: &K) -> (r: V)
        requires
            old(self).wf(),
        ensures
            final(self).wf(),
            final(self).exp() == old(self).exp(),
            final(self).entries() == old(self).entries(),
            K::obeys_eq_spec() ==> ({
                let e = old(self).entries()[entry_of(hash, old(self).entries().len())];
                if e.0.eq_spec(q) {
                    r == e.1 && final(self).stats() == old(self).stats().hit()
                } else {
                    call_ensures(V::default, (), r) && final(self).stats() == old(
                        self,
                    ).stats().missed()
                }
            }),
    ;

    /// Puts a value in, over what the entry of its hash held.
    fn insert(&mut self, hash: u64, key: K, value: V) -> (r: bool)
        requires
            old(self).wf(),
        ensures
            r,
            final(self).wf(),
            final(self).exp() == old(self).exp(),
            final(self).stats() == old(self).stats(),
            final(self).entries() == old(self).entries().update(
                entry_of(hash, old(self).entries().len()),
                (key, value),
            ),
    ;

    /// Forgets all values.
    fn invalidate_all(&mut self)
        requires
            old(self).wf(),
        ensures
            final(self).wf(),
            final(self).exp() == old(self).exp(),
            final(self).stats() == old(self).stats().cleared(),
            all_unused(final(self).entries()),
    ;

    /// Doubles the number of entries and forgets all values.
    fn grow(&mut self)
        requires
            old(self).wf(),
            old(self).exp() < MAX_SIZE_EXP,
        ensures
            final(self).wf(),
            final(self).exp() == old(self).exp() + 1,
            final(self).stats() == old(self).stats().grown(),
            all_unused(final(self).entries()),
    ;
}

/// A cache in which each hash has one entry.
pub struct LockFreeCache<K, V> {
    entries: Vec<(K, V)>,
    size_exp: usize,
    stat: CacheStat,
}

/// `n` unused entries.
fn fresh<K: Default, V: Default>(n: usize) -> (r: Vec<(K, V)>)
    ensures
        r@.len() == n,
        all_unused(r@),
{
    let mut r: Vec<(K, V)> = Vec::with_capacity(n);
    let mut i: usize = 0;
    while i < n
        invariant
            i <= n,
            r@.len() == i,
            all_unused(r@),
        decreases n - i,
    {
        r.push((K::default(), V::default()));
        i = i + 1;
    }
    r
}

impl<K: Eq + Default, V: Default + Copy> LockFreeCache<K, V> {
    /// The number of entries is the least power of two greater than `cap`.
    pub fn with_capacity(cap: usize) -> (r: Self)
        requires
            0 < cap < pow2(MAX_SIZE_EXP as nat),
        ensures
            r.wf(),
            1 <= r.exp() <= MAX_SIZE_EXP,
            pow2((r.exp() - 1) as nat) <= cap < pow2(r.exp()),
            all_unused(r.entries()),
            r.stats() == CacheStat::zero(),
    {
        let (size_exp, size) = size_for(cap);
        LockFreeCache { entries: fresh(size), size_exp, stat: CacheStat::default() }
    }

    /// The number of entries is the power of two of the exponent.
    pub proof fn lemma_entries(&self)
        requires
            self.wf(),
        ensures
            1 <= self.exp() <= MAX_SIZE_EXP,
            self.entries().len() == pow2(self.exp()),
            self.entries().len() > 0,
    {
        lemma_size_range(self.exp());
    }

    /// The binary logarithm of the number of entries.
    pub fn size_exp(&self) -> (r: usize)
        ensures
            r == self.exp(),
    {
        self.size_exp
    }

    pub fn stat(&self) -> (r: CacheStat)
        ensures
            r == self.stats(),
    {
        self.stat
    }
}

impl<K: Eq + Default, V: Default + Copy> Cache<K, V> for LockFreeCache<K, V> {
    closed spec fn wf(&self) -> bool {
        &&& 1 <= self.size_exp <= MAX_SIZE_EXP
        &&& self.entries@.len() == pow2(self.size_exp as nat)
    }

    closed spec fn entries(&self) -> Seq<(K, V)> {
        self.entries@
    }

    closed spec fn exp(&self) -> nat {
        self.size_exp as nat
    }

    closed spec fn stats(&self) -> CacheStat {
        self.stat
    }

    fn get(&mut self, hash: u64, q: &K) -> (r: V) {
        proof {
            self.lemma_entries();
            lemma_size_range(self.exp());
        }
        let idx: usize = (hash % (self.entries.len() as u64)) as usize;
        if self.entries[idx].0 == *q {
            self.stat.record_hit();
            return self.entries[idx].1;
        }
        self.stat.record_miss();
        V::default()
    }

    fn insert(&mut self, hash: u64, key: K, value: V) -> (r: bool) {
        proof {
            self.lemma_entries();
            lemma_size_range(self.exp());
        }
        let idx: usize = (hash % (self.entries.len() as u64)) as usize;
        self.entries[idx] = (key, value);
        true
    }

    fn invalidate_all(&mut self) {
        let n: usize = self.entries.len();
        let ghost exp = self.size_exp;
        let ghost stat = self.stat;
        let mut i: usize = 0;
        while i < n
            invariant
                i <= n,
                self.entries@.len() == n,
                self.size_exp == exp,
                self.stat == stat,
                forall|k: int| 0 <= k < i ==> unused(#[trigger] self.entries@[k]),
            decreases n - i,
        {
            self.entries[i] = (K::default(), V::default());
            i = i + 1;
        }
        self.stat.record_clear();
    }

    fn grow(&mut self) {
        proof {
            self.lemma_entries();
            lemma_double(self.exp());
        }
        let new_size: usize = self.entries.len() * 2;
        self.entries = fresh(new_size);
        self.size_exp = self.size_exp + 1;
        self.stat.record_grow();
    }
}

/// The default handle is that of no node.
pub proof fn lemma_unused_null<K: Default>(s: Seq<(K, usize)>, i: int)
    requires
        all_unused(s),
        0 <= i < s.len(),
    ensures
        s[i].1 == 0,
{
    assert(unused(s[i]));
}

/// What was put in for a key is what is found for it, as long as nothing else is put in.
pub proof fn law_get_after_insert<K: Eq + Default, V: Default>(
    entries: Seq<(K, V)>,
    hash: u64,
    key: K,
    value: V,
)
    requires
        entries.len() > 0,
    ensures
        entries.update(entry_of(hash, entries.len()), (key, value))[entry_of(hash, entries.len())]
            == (key, value),
{
}

/// A call on a cache.
pub enum Call<K, V> {
    Get,
    Insert { hash: u64, key: K, value: V },
    InvalidateAll,
    Grow,
}

/// What a call makes of the entries of a cache.
pub open spec fn called<K: Default, V: Default>(
    before: Seq<(K, V)>,
    call: Call<K, V>,
    after: Seq<(K, V)>,
) -> bool {
    match call {
        Call::Get => after == before,
        Call::Insert { hash, key, value } => after == before.update(
            entry_of(hash, before.len()),
            (key, value),
        ),
        Call::InvalidateAll => all_unused(after) && after.len() == before.len(),
        Call::Grow => all_unused(after) && after.len() == 2 * before.len(),
    }
}

/// The entries of a cache from when it was made on, call by call.
pub open spec fn history<K: Default, V: Default>(
    states: Seq<Seq<(K, V)>>,
    calls: Seq<Call<K, V>>,
) -> bool {
    &&& states.len() == calls.len() + 1
    &&& states[0].len() > 0
    &&& all_unused(states[0])
    &&& forall|i: int|
        0 <= i < calls.len() ==> called(states[i], #[trigger] calls[i], states[i + 1])
}

/// The last key and value that were put at `place` of `n` since the values were last forgotten, if
/// there are any.
pub open spec fn last_put<K, V>(calls: Seq<Call<K, V>>, place: int, n: nat) -> Option<(K, V)>
    decreases calls.len(),
{
    if calls.len() == 0 {
        None
    } else {
        match calls.last() {
            Call::Get => last_put(calls.drop_last(), place, n),
            Call::Insert { hash, key, value } => if entry_of(hash, n) == place {
                Some((key, value))
            } else {
                last_put(calls.drop_last(), place, n)
            },
            Call::InvalidateAll | Call::Grow => None,
        }
    }
}

/// What [`Cache::get`] may return for `q` from the entry of its hash.
pub open spec fn gets<K: Eq + Default, V: Default>(e: (K, V), q: K, r: V) -> bool {
    if e.0.eq_spec(&q) {
        r == e.1
    } else {
        call_ensures(V::default, (), r)
    }
}

/// What came before the last call.
proof fn lemma_earlier<K: Default, V: Default>(states: Seq<Seq<(K, V)>>, calls: Seq<Call<K, V>>)
    requires
        history(states, calls),
        calls.len() > 0,
    ensures
        history(states.drop_last(), calls.drop_last()),
        called(states.drop_last().last(), calls.last(), states.last()),
{
    let (earlier, fewer) = (states.drop_last(), calls.drop_last());
    assert forall|i: int| 0 <= i < fewer.len() implies called(
        earlier[i],
        #[trigger] fewer[i],
        earlier[i + 1],
    ) by {
        assert(called(states[i], calls[i], states[i + 1]));
    }
    let k = calls.len() - 1;
    assert(called(states[k], calls[k], states[k + 1]));
}

/// A cache has entries at all times.
proof fn lemma_nonempty<K: Default, V: Default>(states: Seq<Seq<(K, V)>>, calls: Seq<Call<K, V>>)
    requires
        history(states, calls),
    ensures
        states.last().len() > 0,
    decreases calls.len(),
{
    if calls.len() > 0 {
        lemma_earlier(states, calls);
        lemma_nonempty(states.drop_last(), calls.drop_last());
    }
}

/// An entry holds what was last put there since the values were last forgotten, and default values
/// where nothing was.
proof fn lemma_entry<K: Eq + Default, V: Default>(
    states: Seq<Seq<(K, V)>>,
    calls: Seq<Call<K, V>>,
    place: int,
)
    requires
        history(states, calls),
        0 <= place < states.last().len(),
    ensures
        match last_put(calls, place, states.last().len()) {
            Some(e) => states.last()[place] == e,
            None => unused(states.last()[place]),
        },
    decreases calls.len(),
{
    if calls.len() > 0 {
        let (earlier, fewer) = (states.drop_last(), calls.drop_last());
        lemma_earlier(states, calls);
        lemma_nonempty(earlier, fewer);
        match calls.last() {
            Call::Get | Call::Insert { .. } => {
                assert(states.last().len() == earlier.last().len());
                lemma_entry(earlier, fewer, place);
            },
            Call::InvalidateAll | Call::Grow => {
                assert(unused(states.last()[place]));
            },
        }
    }
}

/// After any calls, a lookup gives the value that was last put at the place of its hash since the
/// values were last forgotten, if that was under an equal key, and else a default value.
pub proof fn law_get<K: Eq + Default, V: Default>(
    states: Seq<Seq<(K, V)>>,
    calls: Seq<Call<K, V>>,
    hash: u64,
    q: K,
    r: V,
)
    requires
        history(states, calls),
        gets(states.last()[entry_of(hash, states.last().len())], q, r),
    ensures
        match last_put(
            calls,
            entry_of(hash, states.last().len()),
            states.last().len(),
        ) {
            Some((key, value)) => if key.eq_spec(&q) {
                r == value
            } else {
                call_ensures(V::default, (), r)
            },
            None => call_ensures(V::default, (), r),
        },
{
    let place = entry_of(hash, states.last().len());
    lemma_nonempty(states, calls);
    lemma_entry(states, calls, place);
}

/// Of two values that were put in under different keys, the first is still found just if their
/// hashes have different places.
pub proof fn law_two_places<K: Eq + Default, V: Default>(
    entries: Seq<(K, V)>,
    h1: u64,
    k1: K,
    v1: V,
    h2: u64,
    k2: K,
    v2: V,
    r: V,
)
    requires
        entries.len() > 0,
        k1.eq_spec(&k1),
        !k2.eq_spec(&k1),
        !call_ensures(V::default, (), v1),
        gets(
            entries.update(entry_of(h1, entries.len()), (k1, v1)).update(
                entry_of(h2, entries.len()),
                (k2, v2),
            )[entry_of(h1, entries.len())],
            k1,
            r,
        ),
    ensures
        r == v1 <==> entry_of(h1, entries.len()) != entry_of(h2, entries.len()),
{
}

/// Hashes below the number of entries have places of their own.
pub proof fn law_small_hashes(h1: u64, h2: u64, n: nat)
    requires
        h1 < n,
        h2 < n,
    ensures
        entry_of(h1, n) == entry_of(h2, n) <==> h1 == h2,
{
    lemma_small_mod(h1 as nat, n);
    lemma_small_mod(h2 as nat, n);
}

} // verus!
