//! Which streams can be read, by what their handles stand for.

use vstd::prelude::*;

use crate::codec::{
    decoded, grafted, leaves, lemma_sound_at, parsed, readable, record_at, record_count, sound,
    sound_record, word_at, Record,
};
use crate::diagram::{assigned, Assignment};
use crate::format::{is_known, place, worth};
use crate::tree::Tree;

verus! {

/// Two handles stand for the same function after the first `k` records of a stream.
pub open spec fn same_worth(s: Seq<u8>, k: nat, a: u64, b: u64) -> bool {
    forall|env: Assignment| #[trigger] worth(s, k, a, env) == worth(s, k, b, env)
}

/// Two assignments agree on the variables after `l`.
pub open spec fn agree_after(l: nat, e1: Assignment, e2: Assignment) -> bool {
    forall|v: nat| v > l ==> #[trigger] e1(v) == e2(v)
}

/// What a handle stands for after the first `k` records of a stream depends on no variable but
/// those after `l`.
pub open spec fn only_after(s: Seq<u8>, k: nat, h: u64, l: nat) -> bool {
    forall|e1: Assignment, e2: Assignment|
        agree_after(l, e1, e2) ==> #[trigger] worth(s, k, h, e1) == #[trigger] worth(s, k, h, e2)
}

/// The record at `k` makes sense: its two children are known, and they stand for the same function,
/// or else its variable is one of `n` and they depend only on later ones.
pub open spec fn makes_sense(s: Seq<u8>, n: nat, k: nat) -> bool {
    let l = word_at(s, place(k) + 8) as nat;
    let (low, high) = (word_at(s, place(k) + 16), word_at(s, place(k) + 24));
    &&& is_known(s, k, low)
    &&& is_known(s, k, high)
    &&& same_worth(s, k, low, high) || {
        &&& l < n
        &&& only_after(s, k, low, l)
        &&& only_after(s, k, high, l)
    }
}

impl Tree {
    /// The tree asks for some of `n` variables in their order, and only where it matters.
    pub open spec fn reduced(self, n: nat) -> bool
        decreases self,
    {
        match self {
            Tree::Leaf(_) => true,
            Tree::Branch(l, low, high) => {
                &&& l < n
                &&& low != high
                &&& l < low.top(n)
                &&& l < high.top(n)
                &&& low.reduced(n)
                &&& high.reduced(n)
            },
        }
    }

    /// The number of leaves and branches.
    pub open spec fn size(self) -> nat
        decreases self,
    {
        match self {
            Tree::Leaf(_) => 1,
            Tree::Branch(_, low, high) => 1 + low.size() + high.size(),
        }
    }

    /// Two trees stand for the same function.
    pub open spec fn alike(self, other: Tree) -> bool {
        forall|env: Assignment| #[trigger] self.eval(env) == other.eval(env)
    }

    /// A tree does not depend on variables before the first one that it asks for.
    proof fn lemma_agree(self, n: nat, e1: Assignment, e2: Assignment)
        requires
            self.reduced(n),
            forall|v: nat| self.top(n) <= v ==> #[trigger] e1(v) == e2(v),
        ensures
            self.eval(e1) == self.eval(e2),
        decreases self,
    {
        match self {
            Tree::Leaf(_) => {},
            Tree::Branch(_, low, high) => {
                low.lemma_agree(n, e1, e2);
                high.lemma_agree(n, e1, e2);
            },
        }
    }

    /// Where the first variable is fixed, a tree is worth what one of its two parts is worth.
    proof fn lemma_part(self, n: nat, env: Assignment, value: bool)
        requires
            self.reduced(n),
            self is Branch,
        ensures
            self.eval(assigned(env, self->Branch_0, value)) == if value {
                self->2.eval(env)
            } else {
                self->1.eval(env)
            },
    {
        let e = assigned(env, self->Branch_0, value);
        self->1.lemma_agree(n, e, env);
        self->2.lemma_agree(n, e, env);
    }

    /// Trees that stand for the same function are the same.
    pub proof fn law_reduced(self, other: Tree, n: nat)
        requires
            self.reduced(n),
            other.reduced(n),
        ensures
            self.alike(other) <==> self == other,
        decreases self.size() + other.size(), 1nat,
    {
        if self.alike(other) {
            let any: Assignment = |v: nat| true;
            assert(self.eval(any) == other.eval(any));
            if self.top(n) < other.top(n) {
                self.lemma_matters(other, n);
            } else if other.top(n) < self.top(n) {
                other.lemma_matters(self, n);
            } else if self is Branch && other is Branch {
                let l = self->Branch_0;
                assert forall|env: Assignment| #[trigger]
                    self->1.eval(env) == other->1.eval(env) by {
                    self.lemma_part(n, env, false);
                    other.lemma_part(n, env, false);
                    assert(self.eval(assigned(env, l, false)) == other.eval(
                        assigned(env, l, false),
                    ));
                }
                assert forall|env: Assignment| #[trigger]
                    self->2.eval(env) == other->2.eval(env) by {
                    self.lemma_part(n, env, true);
                    other.lemma_part(n, env, true);
                    assert(self.eval(assigned(env, l, true)) == other.eval(assigned(env, l, true)));
                }
                self->1.law_reduced(*other->1, n);
                self->2.law_reduced(*other->2, n);
            }
        }
    }

    /// A tree does not stand for the same function as one that starts later.
    proof fn lemma_matters(self, other: Tree, n: nat)
        requires
            self.reduced(n),
            other.reduced(n),
            self.top(n) < other.top(n),
        ensures
            !self.alike(other),
        decreases self.size() + other.size(), 0nat,
    {
        if self.alike(other) {
            let l = self->Branch_0;
            assert forall|env: Assignment| #[trigger] self->1.eval(env) == self->2.eval(env) by {
                self.lemma_part(n, env, false);
                self.lemma_part(n, env, true);
                let (e1, e2) = (assigned(env, l, false), assigned(env, l, true));
                other.lemma_agree(n, e1, e2);
                assert(self.eval(e1) == other.eval(e1));
                assert(self.eval(e2) == other.eval(e2));
            }
            self->1.law_reduced(*self->2, n);
        }
    }

    /// A tree starts after variable `l` just if it depends only on later ones.
    proof fn lemma_starts_after(self, n: nat, l: nat)
        requires
            self.reduced(n),
            l < n,
        ensures
            self.top(n) > l <==> forall|e1: Assignment, e2: Assignment|
                agree_after(l, e1, e2) ==> #[trigger] self.eval(e1) == #[trigger] self.eval(e2),
    {
        if self.top(n) > l {
            assert forall|e1: Assignment, e2: Assignment|
                agree_after(l, e1, e2) implies #[trigger] self.eval(e1) == #[trigger] self.eval(
                e2,
            ) by {
                self.lemma_agree(n, e1, e2);
            }
        } else {
            self->1.law_reduced(*self->2, n);
            let env = choose|env: Assignment| #[trigger] self->1.eval(env) != self->2.eval(env);
            let v = self->Branch_0;
            let (e1, e2) = (assigned(env, v, false), assigned(env, v, true));
            self.lemma_part(n, env, false);
            self.lemma_part(n, env, true);
            assert(agree_after(l, e1, e2));
            assert(self.eval(e1) != self.eval(e2));
        }
    }
}

/// All that the handles stand for are reduced trees.
spec fn all_reduced(m: Map<u64, Tree>, n: nat) -> bool {
    forall|h: u64| #[trigger] m.contains_key(h) ==> m[h].reduced(n)
}

proof fn lemma_stays_reduced(m: Map<u64, Tree>, s: Seq<Record>, n: nat)
    requires
        all_reduced(m, n),
        sound(m, s, n),
    ensures
        all_reduced(decoded(m, s), n),
    decreases s.len(),
{
    if s.len() > 0 {
        lemma_stays_reduced(m, s.drop_last(), n);
        let before = decoded(m, s.drop_last());
        let r = s.last();
        assert(before.contains_key(r.low) && before.contains_key(r.high));
        assert(grafted(before, r).reduced(n));
    }
}

/// A record makes sense by what its children stand for just if it does by their trees.
proof fn lemma_sense(s: Seq<u8>, n: nat, k: nat)
    requires
        k < record_count(s),
        sound(leaves(s), parsed(s).take(k as int), n),
    ensures
        makes_sense(s, n, k) <==> sound_record(
            decoded(leaves(s), parsed(s).take(k as int)),
            parsed(s)[k as int],
            n,
        ),
{
    let m = decoded(leaves(s), parsed(s).take(k as int));
    let r = parsed(s)[k as int];
    assert(r == record_at(s, k as int));
    assert(all_reduced(leaves(s), n));
    lemma_stays_reduced(leaves(s), parsed(s).take(k as int), n);
    let l = r.level as nat;
    if m.contains_key(r.low) && m.contains_key(r.high) {
        let (low, high) = (m[r.low], m[r.high]);
        low.law_reduced(high, n);
        assert(same_worth(s, k, r.low, r.high) <==> low.alike(high)) by {
            assert forall|env: Assignment| #[trigger] worth(s, k, r.low, env) == low.eval(env) by {}
            if same_worth(s, k, r.low, r.high) {
                assert forall|env: Assignment| #[trigger] low.eval(env) == high.eval(env) by {
                    assert(worth(s, k, r.low, env) == worth(s, k, r.high, env));
                }
            }
        }
        if l < n {
            low.lemma_starts_after(n, l);
            high.lemma_starts_after(n, l);
            lemma_only_after(s, k, r.low, l);
            lemma_only_after(s, k, r.high, l);
        }
    }
}

proof fn lemma_only_after(s: Seq<u8>, k: nat, h: u64, l: nat)
    ensures
        ({
            let t = decoded(leaves(s), parsed(s).take(k as int))[h];
            only_after(s, k, h, l) <==> forall|e1: Assignment, e2: Assignment|
                agree_after(l, e1, e2) ==> #[trigger] t.eval(e1) == #[trigger] t.eval(e2)
        }),
{
    let t = decoded(leaves(s), parsed(s).take(k as int))[h];
    if only_after(s, k, h, l) {
        assert forall|e1: Assignment, e2: Assignment|
            agree_after(l, e1, e2) implies #[trigger] t.eval(e1) == #[trigger] t.eval(e2) by {
            assert(worth(s, k, h, e1) == worth(s, k, h, e2));
        }
    }
}

/// A stream can be read into a diagram of `n` variables just if it has a whole record after its
/// header, and each of its whole records makes sense.
pub proof fn law_readable(s: Seq<u8>, n: nat)
    ensures
        readable(s, n) <==> s.len() >= 48 && forall|k: nat|
            #![trigger makes_sense(s, n, k)]
            place(k) + 32 <= s.len() ==> makes_sense(s, n, k),
{
    if readable(s, n) {
        assert forall|k: nat|
            #![trigger makes_sense(s, n, k)]
            place(k) + 32 <= s.len() implies makes_sense(s, n, k) by {
            assert(k < record_count(s));
            lemma_sound_at(leaves(s), parsed(s), n, k as int);
            lemma_sound_first(leaves(s), parsed(s), n, k as int);
            lemma_sense(s, n, k);
        }
    }
    if s.len() >= 48 && forall|k: nat|
        #![trigger makes_sense(s, n, k)]
        place(k) + 32 <= s.len() ==> makes_sense(s, n, k) {
        lemma_all_sound(s, n, record_count(s));
        assert(parsed(s).take(record_count(s) as int) =~= parsed(s));
    }
}

proof fn lemma_sound_first(m: Map<u64, Tree>, s: Seq<Record>, n: nat, k: int)
    requires
        sound(m, s, n),
        0 <= k <= s.len(),
    ensures
        sound(m, s.take(k), n),
    decreases s.len(),
{
    if k == s.len() {
        assert(s.take(k) =~= s);
    } else {
        lemma_sound_first(m, s.drop_last(), n, k);
        assert(s.drop_last().take(k) =~= s.take(k));
    }
}

proof fn lemma_all_sound(s: Seq<u8>, n: nat, k: nat)
    requires
        k <= record_count(s),
        forall|k: nat|
            #![trigger makes_sense(s, n, k)]
            place(k) + 32 <= s.len() ==> makes_sense(s, n, k),
    ensures
        sound(leaves(s), parsed(s).take(k as int), n),
    decreases k,
{
    if k > 0 {
        let j = (k - 1) as nat;
        lemma_all_sound(s, n, j);
        assert(place(j) + 32 <= s.len());
        assert(makes_sense(s, n, j));
        lemma_sense(s, n, j);
        let taken = parsed(s).take(k as int);
        assert(taken.drop_last() =~= parsed(s).take(j as int));
        assert(taken.last() == parsed(s)[j as int]);
    }
}

} // verus!
