//! What the printed bytes of a diagram say, row by row.

use vstd::prelude::*;

use crate::cubes::{
    comes_before, covers, cubes, full_lines, is_sign, law_cubes, law_lines, prefixed, printed, text,
};
use crate::diagram::{Assignment, Diagram};
use crate::node::Bdd;

verus! {

/// Row `i` of bytes that are rows of `n` signs, each with a line break after it.
pub open spec fn row(s: Seq<u8>, n: nat, i: int) -> Seq<u8> {
    s.subrange(i * (n + 1), i * (n + 1) + n)
}

/// The bytes are `count` rows of `n` signs, each with a line break after it.
pub open spec fn in_rows(s: Seq<u8>, n: nat, count: nat) -> bool {
    &&& s.len() == count * (n + 1)
    &&& forall|i: int| 0 <= i < count ==> #[trigger] s[i * (n + 1) + n] == 10
    &&& forall|i: int, k: int|
        0 <= i < count && 0 <= k < n ==> {
            let c = #[trigger] row(s, n, i)[k];
            c == 42 || c == 48 || c == 49
        }
}

/// The sign of each variable, in the order of the variables, is a star or the variable's value: 48
/// for false and 49 for true.
pub open spec fn fits(r: Seq<u8>, env: Assignment) -> bool {
    forall|k: int|
        0 <= k < r.len() ==> #[trigger] r[k] == 42 || r[k] == if env(k as nat) {
            49u8
        } else {
            48u8
        }
}

/// Variable `k` is asked for on the way from a node that an assignment takes.
pub open spec fn asks(d: Diagram, id: Bdd, env: Assignment, k: nat) -> bool
    decreases d.rank(id),
    when d.wf() && d.has_node(id)
{
    proof {
        if !d.terminal(id) {
            d.lemma_decides(id);
        }
    }
    if d.terminal(id) {
        false
    } else {
        d.nodes[id].level == k || asks(
            d,
            if env(d.nodes[id].level as nat) {
                d.nodes[id].high
            } else {
                d.nodes[id].low
            },
            env,
            k,
        )
    }
}

/// No variable before the first one is asked for.
proof fn lemma_asks_later(d: Diagram, id: Bdd, env: Assignment, k: nat)
    requires
        d.wf(),
        d.has_node(id),
        k < d.top(id),
    ensures
        !asks(d, id, env, k),
    decreases d.rank(id),
{
    if !d.terminal(id) {
        d.lemma_decides(id);
        lemma_asks_later(d, d.high(id), env, k);
        lemma_asks_later(d, d.low(id), env, k);
    }
}

/// Lines of `n` signs as text are rows.
proof fn lemma_text_rows(lines: Seq<Seq<u8>>, n: nat)
    requires
        full_lines(lines, n),
    ensures
        text(Seq::empty(), lines).len() == lines.len() * (n + 1),
        forall|i: int|
            0 <= i < lines.len() ==> #[trigger] row(text(Seq::empty(), lines), n, i) == lines[i],
        forall|i: int|
            0 <= i < lines.len() ==> #[trigger] text(Seq::empty(), lines)[i * (n + 1) + n] == 10,
    decreases lines.len(),
{
    let s = text(Seq::empty(), lines);
    let m = n + 1;
    if lines.len() == 0 {
        assert(lines.len() * m == 0) by (nonlinear_arith)
            requires
                lines.len() == 0,
        ;
    } else {
        let fewer = lines.drop_last();
        let c = fewer.len() as int;
        let t = text(Seq::empty(), fewer);
        let last = lines.last();
        assert(full_lines(fewer, n)) by {
            assert forall|i: int| 0 <= i < fewer.len() implies (#[trigger] fewer[i]).len() == n by {
                assert(lines[i].len() == n);
            }
        }
        lemma_text_rows(fewer, n);
        assert(lines[c] == last && last.len() == n);
        assert(s =~= t + last + seq![10u8]);
        assert((c + 1) * m == c * m + m) by (nonlinear_arith);
        assert forall|i: int| 0 <= i < lines.len() implies #[trigger] row(s, n, i) == lines[i]
            && s[i * m + n] == 10 by {
            if i < c {
                assert(i * m + m <= c * m) by (nonlinear_arith)
                    requires
                        i + 1 <= c,
                        m > 0,
                ;
                assert(0 <= i * m) by (nonlinear_arith)
                    requires
                        0 <= i,
                        m > 0,
                ;
                assert(row(t, n, i) == fewer[i]);
                assert(row(s, n, i) =~= row(t, n, i));
                assert(t[i * m + n] == 10);
            } else {
                assert(i == c);
                assert(row(s, n, i) =~= last);
            }
        }
        assert forall|i: int| 0 <= i < lines.len() implies #[trigger] s[i * (n + 1) + n] == 10 by {
            assert(row(s, n, i) == lines[i]);
        }
    }
}

/// In a line that covers an assignment, the signs that are no stars are those of the variables
/// that are asked for.
proof fn lemma_stars(d: Diagram, id: Bdd, curr: nat, env: Assignment, i: int, k: int)
    requires
        d.wf(),
        d.has_node(id),
        id != d.false_id,
        curr <= d.top(id),
        0 <= i < cubes(d, id, curr).len(),
        covers(cubes(d, id, curr)[i], curr, env),
        0 <= k < cubes(d, id, curr)[i].len(),
    ensures
        cubes(d, id, curr)[i][k] != 42 <==> asks(d, id, env, (curr + k) as nat),
    decreases d.num_vars() - curr,
{
    d.lemma_top(id);
    let lines = cubes(d, id, curr);
    let line = lines[i];
    if curr < d.num_vars() {
        if d.top(id) > curr {
            let rest = cubes(d, id, curr + 1);
            assert(line == seq!['*' as u8] + rest[i]);
            lemma_covers_rest(line, rest[i], curr, env);
            if k == 0 {
                lemma_asks_later(d, id, env, curr);
            } else {
                assert(line[k] == rest[i][k - 1]);
                lemma_stars(d, id, curr + 1, env, i, k - 1);
            }
        } else {
            d.lemma_decides(id);
            let (low, high) = (d.low(id), d.high(id));
            let (below, above) = (cubes(d, low, curr + 1), cubes(d, high, curr + 1));
            let a = if low != d.false_id {
                prefixed('0' as u8, below)
            } else {
                Seq::empty()
            };
            let b = if high != d.false_id {
                prefixed('1' as u8, above)
            } else {
                Seq::empty()
            };
            assert(lines == a + b);
            let (child, rest, j, c) = if i < a.len() {
                (low, below, i, '0' as u8)
            } else {
                (high, above, i - a.len(), '1' as u8)
            };
            assert(line == seq![c] + rest[j]);
            lemma_covers_rest(line, rest[j], curr, env);
            assert(line[0] == c);
            assert(line[0] == '*' as u8 || (line[0] == '1' as u8) == env((curr + 0) as nat));
            assert(env(curr) == (c == '1' as u8));
            if k > 0 {
                assert(line[k] == rest[j][k - 1]);
                lemma_stars(d, child, curr + 1, env, j, k - 1);
            }
        }
    }
}

proof fn lemma_covers_rest(line: Seq<u8>, rest: Seq<u8>, curr: nat, env: Assignment)
    requires
        line.len() == rest.len() + 1,
        forall|k: int| 0 <= k < rest.len() ==> #[trigger] rest[k] == line[k + 1],
        covers(line, curr, env),
    ensures
        covers(rest, curr + 1, env),
{
    assert forall|k: int| 0 <= k < rest.len() implies (#[trigger] rest[k] == '*' as u8 || (rest[k]
        == '1' as u8) == env((curr + 1 + k) as nat)) by {
        assert(line[k + 1] == rest[k]);
    }
}

proof fn lemma_fits(line: Seq<u8>, env: Assignment)
    requires
        forall|k: int| 0 <= k < line.len() ==> is_sign(#[trigger] line[k]),
    ensures
        fits(line, env) <==> covers(line, 0, env),
{
    if fits(line, env) {
        assert forall|k: int| 0 <= k < line.len() implies (#[trigger] line[k] == '*' as u8 || (
        line[k] == '1' as u8) == env((0 + k) as nat)) by {}
    }
    if covers(line, 0, env) {
        assert forall|k: int| 0 <= k < line.len() implies (#[trigger] line[k] == 42 || line[k]
            == if env(k as nat) {
            49u8
        } else {
            48u8
        }) by {
            assert(is_sign(line[k]));
        }
    }
}

/// The cubes of a node are the rows of what is printed of it.
proof fn lemma_rows(d: Diagram, id: Bdd)
    requires
        d.wf(),
        d.has_node(id),
        !d.terminal(id),
    ensures
        in_rows(printed(d, id), d.num_vars(), cubes(d, id, 0).len()),
        forall|i: int|
            0 <= i < cubes(d, id, 0).len() ==> #[trigger] row(printed(d, id), d.num_vars(), i)
                == cubes(d, id, 0)[i],
        forall|i: int, k: int|
            0 <= i < cubes(d, id, 0).len() && 0 <= k < cubes(d, id, 0)[i].len() ==> is_sign(
                #[trigger] cubes(d, id, 0)[i][k],
            ),
{
    law_lines(d, id);
    let lines = cubes(d, id, 0);
    let n = d.num_vars();
    lemma_text_rows(lines, n);
    let s = printed(d, id);
    assert forall|i: int, k: int| 0 <= i < lines.len() && 0 <= k < n implies {
        let c = #[trigger] row(s, n, i)[k];
        c == 42 || c == 48 || c == 49
    } by {
        assert(row(s, n, i) == lines[i]);
        assert(lines[i].len() == n);
        assert(is_sign(lines[i][k]));
    }
}

/// What is printed of a decision node are rows of one sign for each variable, in the order of the
/// variables. An assignment makes its function true just if it fits one of the rows, and then it
/// fits no other; and of that row the signs other than stars are those of the variables that are
/// asked for on the way that the assignment takes.
pub proof fn law_rows(d: Diagram, id: Bdd, env: Assignment)
    requires
        d.wf(),
        d.nodes.contains_key(id),
        id != d.true_id,
        id != d.false_id,
    ensures
        exists|count: nat|
            #![trigger in_rows(printed(d, id), d.num_vars(), count)]
            {
                let (s, n) = (printed(d, id), d.num_vars());
                &&& in_rows(s, n, count)
                &&& d.eval(id, env) <==> exists|i: int|
                    0 <= i < count && fits(#[trigger] row(s, n, i), env)
                &&& forall|i: int, j: int|
                    0 <= i < count && 0 <= j < count && fits(#[trigger] row(s, n, i), env) && fits(
                        #[trigger] row(s, n, j),
                        env,
                    ) ==> i == j
                &&& forall|i: int, k: int|
                    0 <= i < count && fits(row(s, n, i), env) && 0 <= k < n ==> (#[trigger] row(
                        s,
                        n,
                        i,
                    )[k] != 42 <==> asks(d, id, env, k as nat))
            },
{
    assert(d.has_node(id));
    let (s, n) = (printed(d, id), d.num_vars());
    let lines = cubes(d, id, 0);
    let count = lines.len();
    lemma_rows(d, id);
    law_cubes(d, id, env);
    assert(in_rows(s, n, count));
    assert forall|i: int| 0 <= i < count implies #[trigger] row(s, n, i) == lines[i] && (fits(
        row(s, n, i),
        env,
    ) <==> covers(lines[i], 0, env)) && lines[i].len() == n by {
        assert forall|k: int| 0 <= k < lines[i].len() implies is_sign(#[trigger] lines[i][k]) by {}
        lemma_fits(lines[i], env);
    }
    if d.eval(id, env) {
        let i = choose|i: int| 0 <= i < lines.len() && covers(#[trigger] lines[i], 0, env);
        assert(fits(row(s, n, i), env));
    }
    if exists|i: int| 0 <= i < count && fits(#[trigger] row(s, n, i), env) {
        let i = choose|i: int| 0 <= i < count && fits(#[trigger] row(s, n, i), env);
        assert(covers(lines[i], 0, env));
    }
    assert forall|i: int, j: int|
        0 <= i < count && 0 <= j < count && fits(#[trigger] row(s, n, i), env) && fits(
            #[trigger] row(s, n, j),
            env,
        ) implies i == j by {
        assert(covers(lines[i], 0, env) && covers(lines[j], 0, env));
    }
    assert forall|i: int, k: int|
        0 <= i < count && fits(row(s, n, i), env) && 0 <= k < n implies (#[trigger] row(s, n, i)[k]
        != 42 <==> asks(d, id, env, k as nat)) by {
        assert(row(s, n, i) == lines[i]);
        lemma_stars(d, id, 0, env, i, k);
    }
}

/// Of two printed rows, the earlier one has the lesser sign at the first place where they differ.
pub proof fn law_rows_ascend(d: Diagram, id: Bdd, i: int, j: int)
    requires
        d.wf(),
        d.nodes.contains_key(id),
        id != d.true_id,
        id != d.false_id,
        0 <= i < j,
        (j + 1) * (d.num_vars() + 1) <= printed(d, id).len(),
    ensures
        ({
            let (a, b) = (row(printed(d, id), d.num_vars(), i), row(
                printed(d, id),
                d.num_vars(),
                j,
            ));
            exists|k: int|
                0 <= k < d.num_vars() && #[trigger] a[k] < b[k] && forall|l: int|
                    0 <= l < k ==> a[l] == b[l]
        }),
{
    assert(d.has_node(id));
    let (s, n) = (printed(d, id), d.num_vars());
    let lines = cubes(d, id, 0);
    law_lines(d, id);
    lemma_rows(d, id);
    let m = n + 1;
    assert(j < lines.len()) by (nonlinear_arith)
        requires
            (j + 1) * m <= lines.len() * m,
            m > 0,
    ;
    let (a, b) = (row(s, n, i), row(s, n, j));
    assert(a == lines[i] && b == lines[j]);
    assert(lines[i].len() == n && lines[j].len() == n);
    assert(comes_before(lines[i], lines[j]));
    let k = choose|k: int|
        0 <= k < a.len() && k < b.len() && a.take(k) == b.take(k) && #[trigger] a[k] < b[k];
    assert forall|l: int| 0 <= l < k implies a[l] == b[l] by {
        assert(a.take(k)[l] == b.take(k)[l]);
    }
}

/// What is printed of the terminals: their names, each with a line break after it.
pub proof fn law_names(d: Diagram)
    requires
        d.wf(),
    ensures
        printed(d, d.false_id) == seq![70u8, 65u8, 76u8, 83u8, 69u8, 10u8],
        printed(d, d.true_id) == seq![84u8, 82u8, 85u8, 69u8, 10u8],
{
    reveal_strlit("FALSE\n");
    reveal_strlit("TRUE\n");
    assert(printed(d, d.false_id) =~= seq![70u8, 65u8, 76u8, 83u8, 69u8, 10u8]);
    assert(printed(d, d.true_id) =~= seq![84u8, 82u8, 85u8, 69u8, 10u8]);
}

} // verus!
