//! A diagram as a union of cubes, one line of text for each.

use vstd::prelude::*;

use crate::diagram::{Assignment, Diagram};
use crate::node::{Bdd, NULL};

verus! {

/// The bytes of a text in ASCII.
pub open spec fn ascii(s: Seq<char>) -> Seq<u8> {
    s.map_values(|c: char| c as u8)
}

/// Each line with `c` before it.
pub open spec fn prefixed(c: u8, lines: Seq<Seq<u8>>) -> Seq<Seq<u8>> {
    lines.map_values(|line: Seq<u8>| seq![c] + line)
}

/// The cubes of a node other than false, from variable `curr` on: in each, a variable is `0`, `1`,
/// or `*` where its value does not matter.
pub open spec fn cubes(d: Diagram, id: Bdd, curr: nat) -> Seq<Seq<u8>>
    decreases d.num_vars() - curr,
{
    if curr >= d.num_vars() {
        seq![Seq::empty()]
    } else if d.top(id) > curr {
        prefixed('*' as u8, cubes(d, id, curr + 1))
    } else {
        let low = if d.low(id) != d.false_id {
            prefixed('0' as u8, cubes(d, d.low(id), curr + 1))
        } else {
            Seq::empty()
        };
        let high = if d.high(id) != d.false_id {
            prefixed('1' as u8, cubes(d, d.high(id), curr + 1))
        } else {
            Seq::empty()
        };
        low + high
    }
}

/// The lines as text, each with `prefix` before it and a line break after it.
pub open spec fn text(prefix: Seq<u8>, lines: Seq<Seq<u8>>) -> Seq<u8>
    decreases lines.len(),
{
    if lines.len() == 0 {
        Seq::empty()
    } else {
        text(prefix, lines.drop_last()) + prefix + lines.last() + seq!['\n' as u8]
    }
}

/// What is printed of a node.
pub open spec fn printed(d: Diagram, id: Bdd) -> Seq<u8> {
    if id == d.false_id {
        ascii("FALSE\n"@)
    } else if id == d.true_id {
        ascii("TRUE\n"@)
    } else {
        text(Seq::empty(), cubes(d, id, 0))
    }
}

pub proof fn lemma_text_more(prefix: Seq<u8>, a: Seq<Seq<u8>>, b: Seq<Seq<u8>>)
    ensures
        text(prefix, a + b) == text(prefix, a) + text(prefix, b),
    decreases b.len(),
{
    if b.len() == 0 {
        assert(a + b =~= a);
        assert(text(prefix, a + b) =~= text(prefix, a) + text(prefix, b));
    } else {
        assert((a + b).drop_last() =~= a + b.drop_last());
        lemma_text_more(prefix, a, b.drop_last());
        assert(text(prefix, a + b) =~= text(prefix, a) + text(prefix, b));
    }
}

pub proof fn lemma_text_prefixed(prefix: Seq<u8>, c: u8, lines: Seq<Seq<u8>>)
    ensures
        text(prefix, prefixed(c, lines)) == text(prefix.push(c), lines),
    decreases lines.len(),
{
    if lines.len() > 0 {
        assert(prefixed(c, lines).drop_last() =~= prefixed(c, lines.drop_last()));
        lemma_text_prefixed(prefix, c, lines.drop_last());
        assert(text(prefix, prefixed(c, lines)) =~= text(prefix.push(c), lines));
    }
}

/// A cube from variable `curr` on allows for the values of an assignment.
pub open spec fn covers(line: Seq<u8>, curr: nat, env: Assignment) -> bool {
    forall|k: int|
        0 <= k < line.len() ==> (#[trigger] line[k] == '*' as u8 || (line[k] == '1' as u8) == env(
            (curr + k) as nat,
        ))
}

/// A cube with `c` before it.
proof fn lemma_covers_more(c: u8, line: Seq<u8>, curr: nat, env: Assignment)
    ensures
        covers(seq![c] + line, curr, env) <==> (c == '*' as u8 || (c == '1' as u8) == env(curr))
            && covers(line, curr + 1, env),
{
    let longer = seq![c] + line;
    if covers(longer, curr, env) {
        assert(longer[0] == c);
        assert forall|k: int| 0 <= k < line.len() implies (#[trigger] line[k] == '*' as u8 || (
        line[k] == '1' as u8) == env((curr + 1 + k) as nat)) by {
            assert(longer[k + 1] == line[k]);
        }
    }
    if (c == '*' as u8 || (c == '1' as u8) == env(curr)) && covers(line, curr + 1, env) {
        assert forall|k: int| 0 <= k < longer.len() implies (#[trigger] longer[k] == '*' as u8 || (
        longer[k] == '1' as u8) == env((curr + k) as nat)) by {
            if k > 0 {
                assert(longer[k] == line[k - 1]);
            }
        }
    }
}

/// How the lines of one list cover an assignment: none or one of them does.
pub open spec fn covered(lines: Seq<Seq<u8>>, curr: nat, env: Assignment) -> bool {
    exists|i: int| 0 <= i < lines.len() && covers(#[trigger] lines[i], curr, env)
}

/// No two lines cover the same assignment.
pub open spec fn disjoint(lines: Seq<Seq<u8>>, curr: nat, env: Assignment) -> bool {
    forall|i: int, j: int|
        0 <= i < lines.len() && 0 <= j < lines.len() && covers(#[trigger] lines[i], curr, env)
            && covers(#[trigger] lines[j], curr, env) ==> i == j
}

/// Each line has a sign for each of `n` variables.
pub open spec fn full_lines(lines: Seq<Seq<u8>>, n: nat) -> bool {
    forall|i: int| 0 <= i < lines.len() ==> (#[trigger] lines[i]).len() == n
}

/// The lines with a sign before them.
proof fn lemma_prefixed(c: u8, lines: Seq<Seq<u8>>, curr: nat, env: Assignment, n: nat)
    requires
        disjoint(lines, curr + 1, env),
        full_lines(lines, n),
    ensures
        covered(prefixed(c, lines), curr, env) <==> (c == '*' as u8 || (c == '1' as u8) == env(
            curr,
        )) && covered(lines, curr + 1, env),
        disjoint(prefixed(c, lines), curr, env),
        full_lines(prefixed(c, lines), n + 1),
{
    let longer = prefixed(c, lines);
    assert forall|i: int| 0 <= i < lines.len() implies {
        &&& #[trigger] longer[i] == seq![c] + lines[i]
        &&& longer[i].len() == n + 1
        &&& covers(longer[i], curr, env) <==> (c == '*' as u8 || (c == '1' as u8) == env(curr))
            && covers(lines[i], curr + 1, env)
    } by {
        lemma_covers_more(c, lines[i], curr, env);
        assert(lines[i].len() == n);
    }
    if covered(longer, curr, env) {
        let i = choose|i: int| 0 <= i < longer.len() && covers(#[trigger] longer[i], curr, env);
        assert(covers(lines[i], curr + 1, env));
    }
    if (c == '*' as u8 || (c == '1' as u8) == env(curr)) && covered(lines, curr + 1, env) {
        let i = choose|i: int| 0 <= i < lines.len() && covers(#[trigger] lines[i], curr + 1, env);
        assert(covers(longer[i], curr, env));
    }
    assert forall|i: int, j: int|
        0 <= i < longer.len() && 0 <= j < longer.len() && covers(#[trigger] longer[i], curr, env)
            && covers(#[trigger] longer[j], curr, env) implies i == j by {
        assert(covers(lines[i], curr + 1, env) && covers(lines[j], curr + 1, env));
    }
}

/// Two lists of lines, of which at most one covers an assignment.
proof fn lemma_joined(a: Seq<Seq<u8>>, b: Seq<Seq<u8>>, curr: nat, env: Assignment, n: nat)
    requires
        disjoint(a, curr, env),
        disjoint(b, curr, env),
        !(covered(a, curr, env) && covered(b, curr, env)),
        full_lines(a, n),
        full_lines(b, n),
    ensures
        covered(a + b, curr, env) <==> covered(a, curr, env) || covered(b, curr, env),
        disjoint(a + b, curr, env),
        full_lines(a + b, n),
{
    let c = a + b;
    assert forall|i: int| 0 <= i < c.len() implies (#[trigger] c[i]).len() == n by {
        if i < a.len() {
            assert(c[i] == a[i]);
        } else {
            assert(c[i] == b[i - a.len()]);
        }
    }
    if covered(c, curr, env) {
        let i = choose|i: int| 0 <= i < c.len() && covers(#[trigger] c[i], curr, env);
        if i < a.len() {
            assert(covers(a[i], curr, env));
        } else {
            assert(covers(b[i - a.len()], curr, env));
        }
    }
    if covered(a, curr, env) {
        let i = choose|i: int| 0 <= i < a.len() && covers(#[trigger] a[i], curr, env);
        assert(covers(c[i], curr, env));
    }
    if covered(b, curr, env) {
        let i = choose|i: int| 0 <= i < b.len() && covers(#[trigger] b[i], curr, env);
        assert(covers(c[i + a.len()], curr, env));
    }
    assert forall|i: int, j: int|
        0 <= i < c.len() && 0 <= j < c.len() && covers(#[trigger] c[i], curr, env) && covers(
            #[trigger] c[j],
            curr,
            env,
        ) implies i == j by {
        if i < a.len() {
            assert(covers(a[i], curr, env));
        } else {
            assert(covers(b[i - a.len()], curr, env));
        }
        if j < a.len() {
            assert(covers(a[j], curr, env));
        } else {
            assert(covers(b[j - a.len()], curr, env));
        }
    }
}

/// The cubes of a node from variable `curr` on cover the assignments that make its function true,
/// each of them once.
proof fn lemma_cubes(d: Diagram, id: Bdd, curr: nat, env: Assignment)
    requires
        d.wf(),
        d.has_node(id),
        id != d.false_id,
        curr <= d.top(id),
    ensures
        covered(cubes(d, id, curr), curr, env) == d.eval(id, env),
        disjoint(cubes(d, id, curr), curr, env),
        full_lines(cubes(d, id, curr), (d.num_vars() - curr) as nat),
    decreases d.num_vars() - curr,
{
    d.lemma_top(id);
    let lines = cubes(d, id, curr);
    let n = d.num_vars();
    if curr >= n {
        assert(id == d.true_id);
        assert(lines[0] =~= Seq::<u8>::empty());
        assert(covers(lines[0], curr, env));
    } else if d.top(id) > curr {
        lemma_cubes(d, id, curr + 1, env);
        lemma_prefixed('*' as u8, cubes(d, id, curr + 1), curr, env, (n - curr - 1) as nat);
    } else {
        d.lemma_decides(id);
        let (low, high) = (d.low(id), d.high(id));
        let nothing = Seq::<Seq<u8>>::empty();
        let m = (n - curr - 1) as nat;
        let a = if low != d.false_id {
            prefixed('0' as u8, cubes(d, low, curr + 1))
        } else {
            nothing
        };
        let b = if high != d.false_id {
            prefixed('1' as u8, cubes(d, high, curr + 1))
        } else {
            nothing
        };
        if low != d.false_id {
            lemma_cubes(d, low, curr + 1, env);
            lemma_prefixed('0' as u8, cubes(d, low, curr + 1), curr, env, m);
        }
        if high != d.false_id {
            lemma_cubes(d, high, curr + 1, env);
            lemma_prefixed('1' as u8, cubes(d, high, curr + 1), curr, env, m);
        }
        assert(d.is_vertex(d.false_id, 0, NULL, NULL));
        assert(!d.eval(d.false_id, env));
        assert(d.eval(id, env) == if env(curr) {
            d.eval(high, env)
        } else {
            d.eval(low, env)
        });
        lemma_joined(a, b, curr, env, (n - curr) as nat);
        assert(lines == a + b);
    }
}

/// Line `a` comes before line `b`: at the first place where they differ it has the lesser sign.
pub open spec fn comes_before(a: Seq<u8>, b: Seq<u8>) -> bool {
    exists|k: int|
        0 <= k < a.len() && k < b.len() && a.take(k) == b.take(k) && #[trigger] a[k] < b[k]
}

/// Each line comes before those after it.
pub open spec fn ascending(lines: Seq<Seq<u8>>) -> bool {
    forall|i: int, j: int|
        0 <= i < j < lines.len() ==> comes_before(#[trigger] lines[i], #[trigger] lines[j])
}

/// The signs of a cube.
pub open spec fn is_sign(c: u8) -> bool {
    c == '0' as u8 || c == '1' as u8 || c == '*' as u8
}

/// The lines are made of signs.
pub open spec fn signed(lines: Seq<Seq<u8>>) -> bool {
    forall|i: int, k: int|
        0 <= i < lines.len() && 0 <= k < lines[i].len() ==> is_sign(#[trigger] lines[i][k])
}

/// A sign before each of the lines keeps their order.
proof fn lemma_ascending_prefixed(c: u8, lines: Seq<Seq<u8>>)
    requires
        ascending(lines),
        signed(lines),
        is_sign(c),
    ensures
        ascending(prefixed(c, lines)),
        signed(prefixed(c, lines)),
{
    let longer = prefixed(c, lines);
    assert forall|i: int, j: int| 0 <= i < j < longer.len() implies comes_before(
        #[trigger] longer[i],
        #[trigger] longer[j],
    ) by {
        let (a, b) = (lines[i], lines[j]);
        assert(comes_before(a, b));
        let k = choose|k: int|
            0 <= k < a.len() && k < b.len() && a.take(k) == b.take(k) && #[trigger] a[k] < b[k];
        let (x, y) = (longer[i], longer[j]);
        assert(x == seq![c] + a && y == seq![c] + b);
        assert(x.take(k + 1) =~= seq![c] + a.take(k));
        assert(y.take(k + 1) =~= seq![c] + b.take(k));
        assert(x[k + 1] == a[k] && y[k + 1] == b[k]);
    }
    assert forall|i: int, k: int| 0 <= i < longer.len() && 0 <= k < longer[i].len() implies is_sign(
        #[trigger] longer[i][k],
    ) by {
        assert(longer[i] == seq![c] + lines[i]);
        if k > 0 {
            assert(longer[i][k] == lines[i][k - 1]);
        }
    }
}

/// Lines that start with a zero come before those that start with a one.
proof fn lemma_ascending_joined(a: Seq<Seq<u8>>, b: Seq<Seq<u8>>)
    requires
        ascending(a),
        ascending(b),
        signed(a),
        signed(b),
        forall|i: int|
            0 <= i < a.len() ==> (#[trigger] a[i]).len() > 0 && a[i][0] == '0' as u8,
        forall|i: int|
            0 <= i < b.len() ==> (#[trigger] b[i]).len() > 0 && b[i][0] == '1' as u8,
    ensures
        ascending(a + b),
        signed(a + b),
{
    let c = a + b;
    assert forall|i: int, j: int| 0 <= i < j < c.len() implies comes_before(
        #[trigger] c[i],
        #[trigger] c[j],
    ) by {
        if j < a.len() {
            assert(c[i] == a[i] && c[j] == a[j]);
        } else if i >= a.len() {
            assert(c[i] == b[i - a.len()] && c[j] == b[j - a.len()]);
        } else {
            assert(c[i] == a[i] && c[j] == b[j - a.len()]);
            assert(c[i].take(0) =~= c[j].take(0));
            assert(c[i][0] < c[j][0]);
        }
    }
    assert forall|i: int, k: int| 0 <= i < c.len() && 0 <= k < c[i].len() implies is_sign(
        #[trigger] c[i][k],
    ) by {
        if i < a.len() {
            assert(c[i][k] == a[i][k]);
        } else {
            assert(c[i][k] == b[i - a.len()][k]);
        }
    }
}

proof fn lemma_ascending(d: Diagram, id: Bdd, curr: nat)
    ensures
        ascending(cubes(d, id, curr)),
        signed(cubes(d, id, curr)),
    decreases d.num_vars() - curr,
{
    if curr < d.num_vars() {
        if d.top(id) > curr {
            lemma_ascending(d, id, curr + 1);
            lemma_ascending_prefixed('*' as u8, cubes(d, id, curr + 1));
        } else {
            let (low, high) = (d.low(id), d.high(id));
            let nothing = Seq::<Seq<u8>>::empty();
            let (below, above) = (cubes(d, low, curr + 1), cubes(d, high, curr + 1));
            lemma_ascending(d, low, curr + 1);
            lemma_ascending(d, high, curr + 1);
            lemma_ascending_prefixed('0' as u8, below);
            lemma_ascending_prefixed('1' as u8, above);
            let a = if low != d.false_id {
                prefixed('0' as u8, below)
            } else {
                nothing
            };
            let b = if high != d.false_id {
                prefixed('1' as u8, above)
            } else {
                nothing
            };
            assert forall|i: int| 0 <= i < a.len() implies (#[trigger] a[i]).len() > 0 && a[i][0]
                == '0' as u8 by {
                assert(a[i] == seq!['0' as u8] + below[i]);
            }
            assert forall|i: int| 0 <= i < b.len() implies (#[trigger] b[i]).len() > 0 && b[i][0]
                == '1' as u8 by {
                assert(b[i] == seq!['1' as u8] + above[i]);
            }
            lemma_ascending_joined(a, b);
            assert(cubes(d, id, curr) == a + b);
        }
    }
}

/// The lines that are printed of a node have a sign for each variable, and each comes before those
/// after it.
pub proof fn law_lines(d: Diagram, id: Bdd)
    requires
        d.wf(),
        d.has_node(id),
        !d.terminal(id),
    ensures
        printed(d, id) == text(Seq::empty(), cubes(d, id, 0)),
        full_lines(cubes(d, id, 0), d.num_vars()),
        signed(cubes(d, id, 0)),
        ascending(cubes(d, id, 0)),
{
    law_cubes(d, id, |k: nat| true);
    lemma_ascending(d, id, 0);
}

/// What is printed of a node is a union of disjoint cubes: an assignment makes its function true
/// if one of the lines covers it, and then no other line does.
pub proof fn law_cubes(d: Diagram, id: Bdd, env: Assignment)
    requires
        d.wf(),
        d.has_node(id),
        !d.terminal(id),
    ensures
        printed(d, id) == text(Seq::empty(), cubes(d, id, 0)),
        d.eval(id, env) <==> covered(cubes(d, id, 0), 0, env),
        disjoint(cubes(d, id, 0), 0, env),
        full_lines(cubes(d, id, 0), d.num_vars()),
{
    lemma_cubes(d, id, 0, env);
}

} // verus!
