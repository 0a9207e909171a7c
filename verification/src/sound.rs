//! Regions of the automaton that runs leave only through one exit, and the
//! lemmas that take runs apart at those exits.

use vstd::prelude::*;

use crate::nfa::Nfa;
use crate::matching::{copies_n, pmatch};
use crate::pattern::Pattern;
use crate::runs::{is_run, moves, runs};

verus! {

/// `q` has the same edges in `new` as in `old`.
pub open spec fn same_edges(new: Nfa, old: Nfa, q: int) -> bool {
    &&& new.eps_of(q) == old.eps_of(q)
    &&& new.guarded_of(q) == old.guarded_of(q)
    &&& new.trans_of(q) == old.trans_of(q)
}

/// Every state of `region` but `exit` has the same edges in `new` as in
/// `old`.
pub open spec fn kept(new: Nfa, old: Nfa, region: Set<int>, exit: int) -> bool {
    forall|q: int| region.contains(q) && q != exit ==> #[trigger] same_edges(new, old, q)
}

/// Every edge from `q` ends in `region`.
pub open spec fn edges_within(nfa: Nfa, q: int, region: Set<int>) -> bool {
    &&& forall|k: int| 0 <= k < nfa.eps_of(q).len() ==> region.contains(#[trigger] nfa.eps_of(q)[k] as int)
    &&& forall|k: int| 0 <= k < nfa.guarded_of(q).len() ==> region.contains(#[trigger] nfa.guarded_of(q)[k].1 as int)
    &&& forall|k: int| 0 <= k < nfa.trans_of(q).len() ==> region.contains(#[trigger] nfa.trans_of(q)[k].1 as int)
}

/// The states of `region` exist, and every edge from one of them but `exit`
/// stays inside `region`.
pub open spec fn closed(nfa: Nfa, region: Set<int>, exit: int) -> bool {
    &&& forall|q: int| #[trigger] region.contains(q) ==> 0 <= q < nfa.n()
    &&& forall|q: int| region.contains(q) && q != exit ==> #[trigger] edges_within(nfa, q, region)
}

/// Edges that end in a region end in any larger one.
pub proof fn lemma_within_mono(nfa: Nfa, q: int, small: Set<int>, large: Set<int>)
    requires
        edges_within(nfa, q, small),
        small.subset_of(large),
    ensures
        edges_within(nfa, q, large),
{
    assert forall|k: int| 0 <= k < nfa.eps_of(q).len() implies large.contains(#[trigger] nfa.eps_of(q)[k] as int) by {
        assert(small.contains(nfa.eps_of(q)[k] as int));
    }
    assert forall|k: int| 0 <= k < nfa.guarded_of(q).len() implies large.contains(#[trigger] nfa.guarded_of(q)[k].1 as int) by {
        assert(small.contains(nfa.guarded_of(q)[k].1 as int));
    }
    assert forall|k: int| 0 <= k < nfa.trans_of(q).len() implies large.contains(#[trigger] nfa.trans_of(q)[k].1 as int) by {
        assert(small.contains(nfa.trans_of(q)[k].1 as int));
    }
}

/// No edge leaves `q`.
pub open spec fn sealed(nfa: Nfa, q: int) -> bool {
    &&& nfa.eps_of(q).len() == 0
    &&& nfa.guarded_of(q).len() == 0
    &&& nfa.trans_of(q).len() == 0
}

/// The states from `lo` up to `hi`.
pub open spec fn span(lo: int, hi: int) -> Set<int> {
    Set::new(|q: int| lo <= q < hi)
}

pub proof fn lemma_kept_trans(a: Nfa, b: Nfa, c: Nfa, region: Set<int>, exit: int)
    requires
        kept(a, b, region, exit),
        kept(b, c, region, exit),
    ensures
        kept(a, c, region, exit),
{
    assert forall|q: int| region.contains(q) && q != exit implies #[trigger] same_edges(a, c, q) by {
        assert(same_edges(a, b, q));
        assert(same_edges(b, c, q));
    }
}

/// Keeping a region's edges keeps it closed.
pub proof fn lemma_closed_kept(nfa: Nfa, frag: Nfa, region: Set<int>, exit: int)
    requires
        closed(frag, region, exit),
        kept(nfa, frag, region, exit),
        frag.n() <= nfa.n(),
    ensures
        closed(nfa, region, exit),
{
    assert forall|q: int| region.contains(q) && q != exit implies #[trigger] edges_within(nfa, q, region) by {
        assert(same_edges(nfa, frag, q));
        assert(edges_within(frag, q, region));
    }
}

/// A move from a state of a closed region, other than its exit, ends in
/// the region.
pub proof fn lemma_move_inside(nfa: Nfa, region: Set<int>, exit: int, t: Seq<char>, q: usize, i: int, r: usize, j: int)
    requires
        closed(nfa, region, exit),
        region.contains(q as int),
        q != exit,
        moves(nfa, t, q, i, r, j),
    ensures
        region.contains(r as int),
{
    let prev = crate::layers::prev_at(t, i);
    let next = crate::matching::next_at(t, i);
    assert(edges_within(nfa, q as int, region));
    if j == i && nfa.eps_move(q, r, prev, next) {
        if nfa.eps_of(q as int).contains(r) {
            let k = choose|k: int| 0 <= k < nfa.eps_of(q as int).len() && nfa.eps_of(q as int)[k] == r;
            assert(region.contains(nfa.eps_of(q as int)[k] as int));
        } else {
            let k = choose|k: int|
                #![trigger nfa.guarded_of(q as int)[k]]
                0 <= k < nfa.guarded_of(q as int).len() && nfa.guarded_of(q as int)[k].1 == r
                    && crate::pattern::look_holds_spec(nfa.guarded_of(q as int)[k].0, prev, next);
            assert(region.contains(nfa.guarded_of(q as int)[k].1 as int));
        }
    } else {
        let k = choose|k: int| 0 <= k < nfa.trans_of(q as int).len() && #[trigger] nfa.trans_of(q as int)[k] == (t[i], r);
        assert(region.contains(nfa.trans_of(q as int)[k].1 as int));
    }
}

/// Leaving a closed region goes through its exit: from a state of the
/// region on, a run either stays among the region's other states or reaches
/// the exit first.
pub proof fn lemma_escape(nfa: Nfa, region: Set<int>, exit: int, t: Seq<char>, path: Seq<(usize, int)>, k: int)
    requires
        is_run(nfa, t, path),
        closed(nfa, region, exit),
        0 <= k < path.len(),
        region.contains(path[k].0 as int),
    ensures
        (forall|x: int| k <= x < path.len() ==> region.contains(#[trigger] path[x].0 as int) && path[x].0 != exit) || exists|f: int|
            #![trigger path[f]]
            k <= f < path.len() && path[f].0 == exit && forall|x: int|
                k <= x < f ==> region.contains(#[trigger] path[x].0 as int) && path[x].0 != exit,
    decreases path.len() - k,
{
    if path[k].0 == exit {
        assert(path[k].0 == exit);
    } else if k == path.len() - 1 {
    } else {
        assert(moves(nfa, t, path[k].0, path[k].1, path[k + 1].0, path[k + 1].1));
        lemma_move_inside(nfa, region, exit, t, path[k].0, path[k].1, path[k + 1].0, path[k + 1].1);
        lemma_escape(nfa, region, exit, t, path, k + 1);
        if forall|x: int| k + 1 <= x < path.len() ==> region.contains(#[trigger] path[x].0 as int) && path[x].0 != exit {
            assert forall|x: int| k <= x < path.len() implies region.contains(#[trigger] path[x].0 as int) && path[x].0 != exit by {
                if x > k {
                    assert(k + 1 <= x);
                }
            }
        } else {
            let f = choose|f: int|
                #![trigger path[f]]
                k + 1 <= f < path.len() && path[f].0 == exit && forall|x: int|
                    k + 1 <= x < f ==> region.contains(#[trigger] path[x].0 as int) && path[x].0 != exit;
            assert forall|x: int| k <= x < f implies region.contains(#[trigger] path[x].0 as int) && path[x].0 != exit by {
                if x > k {
                    assert(k + 1 <= x);
                }
            }
            assert(path[f].0 == exit);
        }
    }
}

/// A stretch of a run whose states, but the last, have the same edges in
/// `old` is a run of `old`.
pub proof fn lemma_restrict(nfa: Nfa, old: Nfa, t: Seq<char>, path: Seq<(usize, int)>, a: int, b: int)
    requires
        is_run(nfa, t, path),
        0 <= a <= b < path.len(),
        forall|x: int| a <= x < b ==> #[trigger] same_edges(nfa, old, path[x].0 as int) && path[x].0 < old.n(),
    ensures
        runs(old, t, path[a].0, path[a].1, path[b].0, path[b].1),
{
    let sub = path.subrange(a, b + 1);
    assert forall|x: int| 0 <= x < sub.len() - 1 implies #[trigger] moves(old, t, sub[x].0, sub[x].1, sub[x + 1].0, sub[x + 1].1) by {
        assert(sub[x] == path[a + x]);
        assert(sub[x + 1] == path[a + x + 1]);
        assert(moves(nfa, t, path[a + x].0, path[a + x].1, path[a + x + 1].0, path[a + x + 1].1));
        assert(same_edges(nfa, old, path[a + x].0 as int));
        let q = path[a + x].0;
        assert(nfa.eps_of(q as int) == old.eps_of(q as int));
        assert(nfa.guarded_of(q as int) == old.guarded_of(q as int));
        assert(nfa.trans_of(q as int) == old.trans_of(q as int));
    }
    assert(is_run(old, t, sub));
    assert(sub[0] == path[a]);
    assert(sub.last() == path[b]);
}

/// Through a region whose edges are kept from `frag`: from a state of the
/// region, a run that ends outside the region's other states reaches the
/// exit, and the stretch up to there is a run of `frag`.
pub proof fn lemma_through(
    nfa: Nfa,
    frag: Nfa,
    region: Set<int>,
    exit: int,
    t: Seq<char>,
    path: Seq<(usize, int)>,
    k: int,
)
    requires
        is_run(nfa, t, path),
        closed(frag, region, exit),
        kept(nfa, frag, region, exit),
        frag.n() <= nfa.n(),
        0 <= k < path.len(),
        region.contains(path[k].0 as int),
        !(region.contains(path.last().0 as int) && path.last().0 != exit),
    ensures
        exists|f: int|
            #![trigger path[f]]
            k <= f < path.len() && path[f].0 == exit && runs(frag, t, path[k].0, path[k].1, path[f].0, path[f].1) && forall|x: int|
                k <= x < f ==> region.contains(#[trigger] path[x].0 as int) && path[x].0 != exit,
{
    lemma_closed_kept(nfa, frag, region, exit);
    lemma_escape(nfa, region, exit, t, path, k);
    if forall|x: int| k <= x < path.len() ==> region.contains(#[trigger] path[x].0 as int) && path[x].0 != exit {
        assert(region.contains(path[path.len() - 1].0 as int) && path[path.len() - 1].0 != exit);
    } else {
        let f = choose|f: int|
            #![trigger path[f]]
            k <= f < path.len() && path[f].0 == exit && forall|x: int|
                k <= x < f ==> region.contains(#[trigger] path[x].0 as int) && path[x].0 != exit;
        assert forall|x: int| k <= x < f implies #[trigger] same_edges(nfa, frag, path[x].0 as int) && path[x].0 < frag.n() by {
            assert(region.contains(path[x].0 as int) && path[x].0 != exit);
        }
        lemma_restrict(nfa, frag, t, path, k, f);
        assert(path[f].0 == exit);
    }
}

/// A run stops at a state with no edges.
pub proof fn lemma_sealed_end(nfa: Nfa, t: Seq<char>, path: Seq<(usize, int)>, k: int)
    requires
        is_run(nfa, t, path),
        0 <= k < path.len(),
        sealed(nfa, path[k].0 as int),
    ensures
        k == path.len() - 1,
{
    if k < path.len() - 1 {
        assert(moves(nfa, t, path[k].0, path[k].1, path[k + 1].0, path[k + 1].1));
    }
}

/// From a state with only plain epsilon edges a run takes one of them.
pub proof fn lemma_eps_step(nfa: Nfa, t: Seq<char>, path: Seq<(usize, int)>, k: int)
    requires
        is_run(nfa, t, path),
        0 <= k < path.len() - 1,
        nfa.guarded_of(path[k].0 as int).len() == 0,
        nfa.trans_of(path[k].0 as int).len() == 0,
    ensures
        path[k + 1].1 == path[k].1,
        nfa.eps_of(path[k].0 as int).contains(path[k + 1].0),
{
    assert(moves(nfa, t, path[k].0, path[k].1, path[k + 1].0, path[k + 1].1));
}

/// Positions along a run from inside the text never go back and stay
/// inside the text.
pub proof fn lemma_positions(nfa: Nfa, t: Seq<char>, path: Seq<(usize, int)>, x: int, y: int)
    requires
        is_run(nfa, t, path),
        0 <= x <= y < path.len(),
        0 <= path[x].1 <= t.len(),
    ensures
        path[x].1 <= path[y].1 <= t.len(),
    decreases y - x,
{
    if x < y {
        lemma_positions(nfa, t, path, x, y - 1);
        let z = y - 1;
        assert(moves(nfa, t, path[z].0, path[z].1, path[z + 1].0, path[z + 1].1));
    }
}

/// Whatever the automaton runs through from `start` to `accept`, from a
/// position inside the text, `p` matches.
pub open spec fn fragment_sound(nfa: Nfa, p: Pattern, alphabet: Seq<char>, start: usize, accept: usize) -> bool {
    forall|t: Seq<char>, i: int, j: int|
        0 <= i <= t.len() && #[trigger] runs(nfa, t, start, i, accept, j) ==> pmatch(p, alphabet, t, i, j)
}

/// The states of a fragment from `start` to `accept` whose other states run
/// from `lo` up to `hi`.
pub open spec fn frag_region(start: usize, accept: usize, lo: int, hi: int) -> Set<int> {
    Set::new(|q: int| q == start || q == accept || lo <= q < hi)
}

/// `start` and `accept` are distinct states without edges, ready to have a
/// fragment wired between them.
pub open spec fn ready(nfa: Nfa, start: usize, accept: usize) -> bool {
    &&& nfa.wf_graph()
    &&& start < nfa.n()
    &&& accept < nfa.n()
    &&& start != accept
    &&& sealed(nfa, start as int)
    &&& sealed(nfa, accept as int)
}

/// `new` is `old` with a fragment wired from `start` to `accept`: states
/// added after `old`'s, edges added only from `start` and the new states,
/// every edge of the fragment inside it, and none leaving `accept`.
pub open spec fn wired(new: Nfa, old: Nfa, start: usize, accept: usize) -> bool {
    &&& new.wf_graph()
    &&& old.n() <= new.n()
    &&& new.start == old.start
    &&& new.accept == old.accept
    &&& crate::runs::grows(new, old)
    &&& forall|q: int| 0 <= q < old.n() && q != start ==> #[trigger] same_edges(new, old, q)
    &&& closed(new, frag_region(start, accept, old.n() as int, new.n() as int), accept as int)
    &&& sealed(new, accept as int)
}

/// A run does not stop at a state other than its last one.
pub proof fn lemma_run_len(nfa: Nfa, t: Seq<char>, path: Seq<(usize, int)>, q: usize, i: int, r: usize, j: int)
    requires
        is_run(nfa, t, path),
        path[0] == (q, i),
        path.last() == (r, j),
        q != r,
    ensures
        path.len() >= 2,
{
    if path.len() == 1 {
        assert(path[0] == path.last());
    }
}

/// From a state whose one edge is a plain epsilon edge to `x`, a run goes
/// to `x`.
pub proof fn lemma_eps_to(nfa: Nfa, t: Seq<char>, path: Seq<(usize, int)>, k: int, x: usize)
    requires
        is_run(nfa, t, path),
        0 <= k < path.len() - 1,
        nfa.eps_of(path[k].0 as int) == seq![x],
        nfa.guarded_of(path[k].0 as int).len() == 0,
        nfa.trans_of(path[k].0 as int).len() == 0,
    ensures
        path[k + 1] == (x, path[k].1),
{
    lemma_eps_step(nfa, t, path, k);
    let e = nfa.eps_of(path[k].0 as int);
    let y = choose|y: int| 0 <= y < e.len() && e[y] == path[k + 1].0;
    assert(y == 0);
}

/// From a state whose one edge consumes `c` on the way to `r`, a run
/// consumes `c` there and goes to `r`.
pub proof fn lemma_char_to(nfa: Nfa, t: Seq<char>, path: Seq<(usize, int)>, k: int, c: char, r: usize)
    requires
        is_run(nfa, t, path),
        0 <= k < path.len() - 1,
        nfa.eps_of(path[k].0 as int).len() == 0,
        nfa.guarded_of(path[k].0 as int).len() == 0,
        nfa.trans_of(path[k].0 as int) == seq![(c, r)],
    ensures
        path[k + 1] == (r, path[k].1 + 1),
        0 <= path[k].1 < t.len(),
        t[path[k].1] == c,
{
    assert(moves(nfa, t, path[k].0, path[k].1, path[k + 1].0, path[k + 1].1));
    let q = path[k].0;
    if path[k + 1].1 == path[k].1 && nfa.eps_move(q, path[k + 1].0, crate::layers::prev_at(t, path[k].1), crate::matching::next_at(t, path[k].1)) {
        assert(!nfa.eps_of(q as int).contains(path[k + 1].0));
    } else {
        let x = choose|x: int| 0 <= x < nfa.trans_of(q as int).len() && #[trigger] nfa.trans_of(q as int)[x] == (t[path[k].1], path[k + 1].0);
        assert(x == 0);
    }
}

/// Each step of a run is a move.
pub proof fn lemma_step(nfa: Nfa, t: Seq<char>, path: Seq<(usize, int)>, k: int)
    requires
        is_run(nfa, t, path),
        0 <= k < path.len() - 1,
    ensures
        moves(nfa, t, path[k].0, path[k].1, path[k + 1].0, path[k + 1].1),
{
}

/// Around a copy of `sub` that is entered from `exit` and left back to
/// `exit`, where `exit` can also leave for `out`: a run from `exit` to
/// `out` goes round some number of times, each a copy of `sub`.
pub proof fn lemma_loop_walk(
    nfa: Nfa,
    frag: Nfa,
    sub: Pattern,
    alphabet: Seq<char>,
    t: Seq<char>,
    path: Seq<(usize, int)>,
    f: int,
    entry: usize,
    exit: usize,
    out: usize,
    region: Set<int>,
    count: nat,
    p: int,
)
    requires
        is_run(nfa, t, path),
        0 <= f < path.len(),
        path[f].0 == exit,
        0 <= path[f].1 <= t.len(),
        path.last().0 == out,
        copies_n(sub, count, alphabet, t, p, path[f].1),
        nfa.eps_of(exit as int) == seq![entry, out],
        nfa.guarded_of(exit as int).len() == 0,
        nfa.trans_of(exit as int).len() == 0,
        sealed(nfa, out as int),
        out != exit,
        closed(frag, region, exit as int),
        kept(nfa, frag, region, exit as int),
        frag.n() <= nfa.n(),
        region.contains(entry as int),
        !region.contains(out as int),
        fragment_sound(frag, sub, alphabet, entry, exit),
    ensures
        exists|n: nat| count <= n && #[trigger] copies_n(sub, n, alphabet, t, p, path.last().1),
    decreases path.len() - f,
{
    if f == path.len() - 1 {
        assert(path[f].0 == path.last().0);
    }
    lemma_eps_step(nfa, t, path, f);
    let e = nfa.eps_of(exit as int);
    let y = choose|y: int| 0 <= y < e.len() && e[y] == path[f + 1].0;
    if y == 1 {
        lemma_sealed_end(nfa, t, path, f + 1);
        assert(copies_n(sub, count, alphabet, t, p, path.last().1));
    } else {
        assert(path[f + 1].0 == entry);
        lemma_through(nfa, frag, region, exit as int, t, path, f + 1);
        let g = choose|g: int|
            #![trigger path[g]]
            f + 1 <= g < path.len() && path[g].0 == exit && runs(frag, t, path[f + 1].0, path[f + 1].1, path[g].0, path[g].1) && forall|x: int|
                f + 1 <= x < g ==> region.contains(#[trigger] path[x].0 as int) && path[x].0 != exit;
        assert(runs(frag, t, entry, path[f + 1].1, exit, path[g].1));
        assert(pmatch(sub, alphabet, t, path[f].1, path[g].1));
        assert(copies_n(sub, count, alphabet, t, p, path[f].1) && pmatch(sub, alphabet, t, path[f].1, path[g].1));
        assert(copies_n(sub, count + 1, alphabet, t, p, path[g].1));
        lemma_positions(nfa, t, path, f, g);
        lemma_loop_walk(nfa, frag, sub, alphabet, t, path, g, entry, exit, out, region, count + 1, p);
    }
}

/// From a state whose only epsilon edge leads to `r`, with no guarded edge
/// and every consuming edge leading back to itself, a run that ends
/// elsewhere gets to `r`.
pub proof fn lemma_first_leave(nfa: Nfa, t: Seq<char>, path: Seq<(usize, int)>, x: int, q: usize, r: usize)
    requires
        is_run(nfa, t, path),
        0 <= x < path.len(),
        path[x].0 == q,
        path.last().0 != q,
        nfa.eps_of(q as int) == seq![r],
        nfa.guarded_of(q as int).len() == 0,
        forall|k: int| 0 <= k < nfa.trans_of(q as int).len() ==> (#[trigger] nfa.trans_of(q as int)[k]).1 == q,
    ensures
        exists|f: int| #![trigger path[f]] x < f < path.len() && path[f].0 == r,
    decreases path.len() - x,
{
    if x == path.len() - 1 {
        assert(path[x] == path.last());
    }
    lemma_step(nfa, t, path, x);
    let prev = crate::layers::prev_at(t, path[x].1);
    let next = crate::matching::next_at(t, path[x].1);
    if path[x + 1].1 == path[x].1 && nfa.eps_move(q, path[x + 1].0, prev, next) {
        let y = choose|y: int| 0 <= y < nfa.eps_of(q as int).len() && nfa.eps_of(q as int)[y] == path[x + 1].0;
        assert(path[x + 1].0 == r);
    } else {
        let k = choose|k: int| 0 <= k < nfa.trans_of(q as int).len() && #[trigger] nfa.trans_of(q as int)[k] == (t[path[x].1], path[x + 1].0);
        assert(path[x + 1].0 == q);
        lemma_first_leave(nfa, t, path, x + 1, q, r);
    }
}

} // verus!
