//! Runs of the automaton over a text, and how runs survive as the compiler
//! adds states and edges.

use vstd::prelude::*;

use crate::layers::{prev_at, spelled_from};
use crate::matching::{copies_n, next_at, pmatch};
use crate::nfa::Nfa;
use crate::pattern::{Pattern, look_holds_spec};

verus! {

/// `a` is `b` cut short.
pub open spec fn prefix_of<T>(a: Seq<T>, b: Seq<T>) -> bool {
    a.len() <= b.len() && forall|k: int| 0 <= k < a.len() ==> #[trigger] b[k] == a[k]
}

/// `new` is `old` with states added and edges appended: every edge of `old`
/// is still there, at the same place.
pub open spec fn grows(new: Nfa, old: Nfa) -> bool {
    &&& old.n() <= new.n()
    &&& forall|q: int| 0 <= q < old.n() ==> #[trigger] prefix_of(old.eps_of(q), new.eps_of(q))
    &&& forall|q: int| 0 <= q < old.n() ==> #[trigger] prefix_of(old.guarded_of(q), new.guarded_of(q))
    &&& forall|q: int| 0 <= q < old.n() ==> #[trigger] prefix_of(old.trans_of(q), new.trans_of(q))
}

/// One move of the automaton reading `t`: from state `q` at position `i` to
/// state `r` at position `j`, either by an epsilon move that stays at the
/// position or by consuming the character there.
pub open spec fn moves(nfa: Nfa, t: Seq<char>, q: usize, i: int, r: usize, j: int) -> bool {
    &&& q < nfa.n()
    &&& {
        ||| (j == i && nfa.eps_move(q, r, prev_at(t, i), next_at(t, i)))
        ||| (j == i + 1 && 0 <= i < t.len() && exists|k: int|
            0 <= k < nfa.trans_of(q as int).len() && #[trigger] nfa.trans_of(q as int)[k] == (t[i], r))
    }
}

/// `path` is a chain of moves over `t`, each step a state and a position.
pub open spec fn is_run(nfa: Nfa, t: Seq<char>, path: Seq<(usize, int)>) -> bool {
    &&& path.len() > 0
    &&& forall|k: int|
        0 <= k < path.len() - 1 ==> #[trigger] moves(nfa, t, path[k].0, path[k].1, path[k + 1].0, path[k + 1].1)
}

/// The automaton can get from state `q` at position `i` of `t` to state `r`
/// at position `j`.
pub open spec fn runs(nfa: Nfa, t: Seq<char>, q: usize, i: int, r: usize, j: int) -> bool {
    exists|path: Seq<(usize, int)>| #[trigger] is_run(nfa, t, path) && path[0] == (q, i) && path.last() == (r, j)
}

/// Whatever `p` matches, the automaton runs through from `start` to
/// `accept`.
pub open spec fn fragment_complete(nfa: Nfa, p: Pattern, alphabet: Seq<char>, start: usize, accept: usize) -> bool {
    forall|t: Seq<char>, i: int, j: int| #[trigger] pmatch(p, alphabet, t, i, j) ==> runs(nfa, t, start, i, accept, j)
}

pub proof fn lemma_grows_refl(nfa: Nfa)
    ensures
        grows(nfa, nfa),
{
}

pub proof fn lemma_grows_trans(a: Nfa, b: Nfa, c: Nfa)
    requires
        grows(a, b),
        grows(b, c),
    ensures
        grows(a, c),
{
    assert forall|q: int| 0 <= q < c.n() implies #[trigger] prefix_of(c.eps_of(q), a.eps_of(q)) by {
        assert(prefix_of(b.eps_of(q), a.eps_of(q)));
        assert(prefix_of(c.eps_of(q), b.eps_of(q)));
    }
    assert forall|q: int| 0 <= q < c.n() implies #[trigger] prefix_of(c.guarded_of(q), a.guarded_of(q)) by {
        assert(prefix_of(b.guarded_of(q), a.guarded_of(q)));
        assert(prefix_of(c.guarded_of(q), b.guarded_of(q)));
    }
    assert forall|q: int| 0 <= q < c.n() implies #[trigger] prefix_of(c.trans_of(q), a.trans_of(q)) by {
        assert(prefix_of(b.trans_of(q), a.trans_of(q)));
        assert(prefix_of(c.trans_of(q), b.trans_of(q)));
    }
}

/// An epsilon edge stays as the automaton grows.
pub proof fn lemma_eps_grow(new: Nfa, old: Nfa, q: usize, r: usize)
    requires
        grows(new, old),
        q < old.n(),
        old.eps_of(q as int).contains(r),
    ensures
        new.eps_of(q as int).contains(r),
{
    assert(prefix_of(old.eps_of(q as int), new.eps_of(q as int)));
    let k = choose|k: int| 0 <= k < old.eps_of(q as int).len() && old.eps_of(q as int)[k] == r;
    assert(new.eps_of(q as int)[k] == r);
}

/// A move stays a move as the automaton grows.
proof fn lemma_moves_grow(new: Nfa, old: Nfa, t: Seq<char>, q: usize, i: int, r: usize, j: int)
    requires
        grows(new, old),
        moves(old, t, q, i, r, j),
    ensures
        moves(new, t, q, i, r, j),
{
    let prev = prev_at(t, i);
    let next = next_at(t, i);
    if j == i && old.eps_move(q, r, prev, next) {
        if old.eps_of(q as int).contains(r) {
            lemma_eps_grow(new, old, q, r);
        } else {
            let k = choose|k: int|
                #![trigger old.guarded_of(q as int)[k]]
                0 <= k < old.guarded_of(q as int).len() && old.guarded_of(q as int)[k].1 == r
                    && look_holds_spec(old.guarded_of(q as int)[k].0, prev, next);
            assert(prefix_of(old.guarded_of(q as int), new.guarded_of(q as int)));
            assert(new.guarded_of(q as int)[k] == old.guarded_of(q as int)[k]);
        }
    } else {
        let k = choose|k: int| 0 <= k < old.trans_of(q as int).len() && #[trigger] old.trans_of(q as int)[k] == (t[i], r);
        assert(prefix_of(old.trans_of(q as int), new.trans_of(q as int)));
        assert(new.trans_of(q as int)[k] == old.trans_of(q as int)[k]);
    }
}

/// A run stays a run as the automaton grows.
pub proof fn lemma_runs_grow(new: Nfa, old: Nfa, t: Seq<char>, q: usize, i: int, r: usize, j: int)
    requires
        grows(new, old),
        runs(old, t, q, i, r, j),
    ensures
        runs(new, t, q, i, r, j),
{
    let path = choose|path: Seq<(usize, int)>| #[trigger] is_run(old, t, path) && path[0] == (q, i) && path.last() == (r, j);
    assert forall|k: int| 0 <= k < path.len() - 1 implies #[trigger] moves(new, t, path[k].0, path[k].1, path[k + 1].0, path[k + 1].1) by {
        lemma_moves_grow(new, old, t, path[k].0, path[k].1, path[k + 1].0, path[k + 1].1);
    }
    assert(is_run(new, t, path));
}

pub proof fn lemma_fragment_grow(new: Nfa, old: Nfa, p: Pattern, alphabet: Seq<char>, start: usize, accept: usize)
    requires
        grows(new, old),
        fragment_complete(old, p, alphabet, start, accept),
    ensures
        fragment_complete(new, p, alphabet, start, accept),
{
    assert forall|t: Seq<char>, i: int, j: int| #[trigger] pmatch(p, alphabet, t, i, j) implies runs(new, t, start, i, accept, j) by {
        lemma_runs_grow(new, old, t, start, i, accept, j);
    }
}

pub proof fn lemma_runs_refl(nfa: Nfa, t: Seq<char>, q: usize, i: int)
    ensures
        runs(nfa, t, q, i, q, i),
{
    let path = seq![(q, i)];
    assert(is_run(nfa, t, path));
}

/// A single move is a run.
pub proof fn lemma_runs_move(nfa: Nfa, t: Seq<char>, q: usize, i: int, r: usize, j: int)
    requires
        moves(nfa, t, q, i, r, j),
    ensures
        runs(nfa, t, q, i, r, j),
{
    let path = seq![(q, i), (r, j)];
    assert forall|k: int| 0 <= k < path.len() - 1 implies #[trigger] moves(nfa, t, path[k].0, path[k].1, path[k + 1].0, path[k + 1].1) by {
        assert(k == 0);
    }
    assert(is_run(nfa, t, path));
}

pub proof fn lemma_runs_eps(nfa: Nfa, t: Seq<char>, q: usize, r: usize, i: int)
    requires
        q < nfa.n(),
        nfa.eps_of(q as int).contains(r),
    ensures
        runs(nfa, t, q, i, r, i),
{
    assert(moves(nfa, t, q, i, r, i));
    lemma_runs_move(nfa, t, q, i, r, i);
}

pub proof fn lemma_runs_guard(nfa: Nfa, t: Seq<char>, q: usize, r: usize, i: int, k: int)
    requires
        q < nfa.n(),
        0 <= k < nfa.guarded_of(q as int).len(),
        nfa.guarded_of(q as int)[k].1 == r,
        look_holds_spec(nfa.guarded_of(q as int)[k].0, prev_at(t, i), next_at(t, i)),
    ensures
        runs(nfa, t, q, i, r, i),
{
    assert(nfa.eps_move(q, r, prev_at(t, i), next_at(t, i)));
    assert(moves(nfa, t, q, i, r, i));
    lemma_runs_move(nfa, t, q, i, r, i);
}

pub proof fn lemma_runs_char(nfa: Nfa, t: Seq<char>, q: usize, r: usize, i: int, k: int)
    requires
        q < nfa.n(),
        0 <= i < t.len(),
        0 <= k < nfa.trans_of(q as int).len(),
        nfa.trans_of(q as int)[k] == (t[i], r),
    ensures
        runs(nfa, t, q, i, r, i + 1),
{
    assert(moves(nfa, t, q, i, r, i + 1));
    lemma_runs_move(nfa, t, q, i, r, i + 1);
}

pub proof fn lemma_runs_trans(nfa: Nfa, t: Seq<char>, q: usize, i: int, r: usize, j: int, s: usize, k: int)
    requires
        runs(nfa, t, q, i, r, j),
        runs(nfa, t, r, j, s, k),
    ensures
        runs(nfa, t, q, i, s, k),
{
    let a = choose|path: Seq<(usize, int)>| #[trigger] is_run(nfa, t, path) && path[0] == (q, i) && path.last() == (r, j);
    let b = choose|path: Seq<(usize, int)>| #[trigger] is_run(nfa, t, path) && path[0] == (r, j) && path.last() == (s, k);
    let path = a + b.drop_first();
    assert forall|x: int| 0 <= x < path.len() - 1 implies #[trigger] moves(nfa, t, path[x].0, path[x].1, path[x + 1].0, path[x + 1].1) by {
        if x < a.len() - 1 {
            assert(moves(nfa, t, a[x].0, a[x].1, a[x + 1].0, a[x + 1].1));
        } else {
            let y = x - (a.len() - 1);
            assert(moves(nfa, t, b[y].0, b[y].1, b[y + 1].0, b[y + 1].1));
            if y == 0 {
                assert(path[x] == a.last());
            } else {
                assert(path[x] == b[y]);
            }
            assert(path[x + 1] == b[y + 1]);
        }
    }
    assert(is_run(nfa, t, path));
    if b.len() == 1 {
        assert(path.last() == a.last());
    } else {
        assert(path.last() == b.last());
    }
}

/// One more copy: a run through `count` copies to `from`, an epsilon edge
/// from there into a copy that runs through what it matches, gives a run
/// through `count + 1` copies to the copy's end.
pub proof fn lemma_step_copies(
    nfa: Nfa,
    before: Nfa,
    sub: Pattern,
    alphabet: Seq<char>,
    start: usize,
    from: usize,
    sub_start: usize,
    sub_accept: usize,
    count: nat,
)
    requires
        grows(nfa, before),
        forall|t: Seq<char>, p: int, q: int, n: nat| n == count && #[trigger] copies_n(sub, n, alphabet, t, p, q) ==> runs(before, t, start, p, from, q),
        from < nfa.n(),
        nfa.eps_of(from as int).contains(sub_start),
        fragment_complete(nfa, sub, alphabet, sub_start, sub_accept),
    ensures
        forall|t: Seq<char>, p: int, q: int, n: nat| n == count + 1 && #[trigger] copies_n(sub, n, alphabet, t, p, q) ==> runs(nfa, t, start, p, sub_accept, q),
{
    assert forall|t: Seq<char>, p: int, q: int, n: nat| n == count + 1 && #[trigger] copies_n(sub, n, alphabet, t, p, q) implies runs(nfa, t, start, p, sub_accept, q) by {
        let m = choose|m: int| copies_n(sub, count, alphabet, t, p, m) && #[trigger] pmatch(sub, alphabet, t, m, q);
        assert(runs(before, t, start, p, from, m));
        lemma_runs_grow(nfa, before, t, start, p, from, m);
        lemma_runs_eps(nfa, t, from, sub_start, m);
        lemma_runs_trans(nfa, t, start, p, from, m, sub_start, m);
        lemma_runs_trans(nfa, t, start, p, sub_start, m, sub_accept, q);
    }
}

/// Repeating the last copy through an edge back to its start: `n` copies,
/// `min` of them before the loop, run to the end of the last copy.
pub proof fn lemma_copies_loop(
    nfa: Nfa,
    before: Nfa,
    sub: Pattern,
    alphabet: Seq<char>,
    start: usize,
    from: usize,
    loop_start: usize,
    min: nat,
    n: nat,
    t: Seq<char>,
    p: int,
    q: int,
)
    requires
        grows(nfa, before),
        forall|t: Seq<char>, p: int, q: int, n: nat| n == min && #[trigger] copies_n(sub, n, alphabet, t, p, q) ==> runs(before, t, start, p, from, q),
        from < nfa.n(),
        nfa.eps_of(from as int).contains(loop_start),
        fragment_complete(nfa, sub, alphabet, loop_start, from),
        min <= n,
        copies_n(sub, n, alphabet, t, p, q),
    ensures
        runs(nfa, t, start, p, from, q),
    decreases n,
{
    if n == min {
        assert(runs(before, t, start, p, from, q));
        lemma_runs_grow(nfa, before, t, start, p, from, q);
    } else {
        let m = choose|m: int| copies_n(sub, (n - 1) as nat, alphabet, t, p, m) && #[trigger] pmatch(sub, alphabet, t, m, q);
        lemma_copies_loop(nfa, before, sub, alphabet, start, from, loop_start, min, (n - 1) as nat, t, p, m);
        lemma_runs_eps(nfa, t, from, loop_start, m);
        lemma_runs_trans(nfa, t, start, p, from, m, loop_start, m);
        lemma_runs_trans(nfa, t, start, p, loop_start, m, from, q);
    }
}

/// A starred copy: edges from `start` into the copy and from its end back
/// into it let any positive number of copies run to the copy's end.
pub proof fn lemma_copies_star(
    nfa: Nfa,
    sub: Pattern,
    alphabet: Seq<char>,
    start: usize,
    sub_start: usize,
    sub_accept: usize,
    n: nat,
    t: Seq<char>,
    p: int,
    q: int,
)
    requires
        start < nfa.n(),
        sub_accept < nfa.n(),
        nfa.eps_of(start as int).contains(sub_start),
        nfa.eps_of(sub_accept as int).contains(sub_start),
        fragment_complete(nfa, sub, alphabet, sub_start, sub_accept),
        n >= 1,
        copies_n(sub, n, alphabet, t, p, q),
    ensures
        runs(nfa, t, start, p, sub_accept, q),
    decreases n,
{
    let m = choose|m: int| copies_n(sub, (n - 1) as nat, alphabet, t, p, m) && #[trigger] pmatch(sub, alphabet, t, m, q);
    if n == 1 {
        assert(p == m);
        lemma_runs_eps(nfa, t, start, sub_start, p);
        lemma_runs_trans(nfa, t, start, p, sub_start, p, sub_accept, q);
    } else {
        lemma_copies_star(nfa, sub, alphabet, start, sub_start, sub_accept, (n - 1) as nat, t, p, m);
        lemma_runs_eps(nfa, t, sub_accept, sub_start, m);
        lemma_runs_trans(nfa, t, start, p, sub_accept, m, sub_start, m);
        lemma_runs_trans(nfa, t, start, p, sub_start, m, sub_accept, q);
    }
}

/// `q` has an edge back to itself that consumes `c`.
pub open spec fn loops_on(nfa: Nfa, q: usize, c: char) -> bool {
    exists|k: int| 0 <= k < nfa.trans_of(q as int).len() && #[trigger] nfa.trans_of(q as int)[k] == (c, q)
}

pub proof fn lemma_loops_grow(new: Nfa, old: Nfa, q: usize, c: char)
    requires
        grows(new, old),
        q < old.n(),
        loops_on(old, q, c),
    ensures
        loops_on(new, q, c),
{
    let k = choose|k: int| 0 <= k < old.trans_of(q as int).len() && #[trigger] old.trans_of(q as int)[k] == (c, q);
    assert(prefix_of(old.trans_of(q as int), new.trans_of(q as int)));
    assert(new.trans_of(q as int)[k] == old.trans_of(q as int)[k]);
}

/// A state that loops on every character of the alphabet reads any stretch
/// of a text spelled from the alphabet without moving.
pub proof fn lemma_runs_loop(nfa: Nfa, alphabet: Seq<char>, t: Seq<char>, q: usize, i: int, j: int)
    requires
        q < nfa.n(),
        0 <= i <= j <= t.len(),
        spelled_from(t, alphabet),
        forall|c: char| alphabet.contains(c) ==> #[trigger] loops_on(nfa, q, c),
    ensures
        runs(nfa, t, q, i, q, j),
    decreases j - i,
{
    if i == j {
        lemma_runs_refl(nfa, t, q, i);
    } else {
        lemma_runs_loop(nfa, alphabet, t, q, i, j - 1);
        assert(alphabet.contains(t[j - 1]));
        assert(loops_on(nfa, q, t[j - 1]));
        let k = choose|k: int| 0 <= k < nfa.trans_of(q as int).len() && #[trigger] nfa.trans_of(q as int)[k] == (t[j - 1], q);
        lemma_runs_char(nfa, t, q, q, j - 1, k);
        lemma_runs_trans(nfa, t, q, i, q, j - 1, q, j);
    }
}

} // verus!
