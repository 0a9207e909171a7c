//! The epsilon-NFA of an unanchored search, its epsilon closures, and which
//! of its states can still reach the accepting one.

use vstd::prelude::*;

use crate::layers::{lemma_accepts_run, lemma_run_accepts, nfa_accepts, spelled_from};
use crate::matching::{matches_somewhere, pmatch};
use crate::pattern::{LOOK_START, LOOK_START_CRLF, LOOK_START_LF, Pattern, look_holds, look_holds_spec};
use crate::runs::{
    grows, is_run, lemma_eps_grow, lemma_fragment_grow, lemma_grows_refl, lemma_grows_trans, lemma_loops_grow, lemma_runs_eps,
    lemma_runs_grow, lemma_runs_loop, lemma_runs_trans, loops_on, prefix_of, runs,
};
use vstd::utf8::{decode_utf8, valid_utf8};
use crate::sound::{kept, lemma_first_leave, lemma_positions, lemma_through, same_edges, sealed, span};

verus! {

broadcast use vstd::std_specs::vec::axiom_vec_index_decreases;

/// An epsilon-NFA with one start and one accepting state. From each state
/// leave plain epsilon edges, epsilon edges guarded by a look-around, and
/// edges that consume one character.
pub struct Nfa {
    pub eps: Vec<Vec<usize>>,
    pub guarded: Vec<Vec<(u32, usize)>>,
    pub trans: Vec<Vec<(char, usize)>>,
    pub start: usize,
    pub accept: usize,
    /// Whether the accepting state can be reached from this state at all.
    pub alive_anywhere: Vec<bool>,
    /// The same, past the first character, where a `^` can no longer be
    /// crossed.
    pub alive_later: Vec<bool>,
}

impl Nfa {
    pub open spec fn n(&self) -> nat {
        self.eps@.len()
    }

    pub open spec fn eps_of(&self, q: int) -> Seq<usize> {
        self.eps@[q]@
    }

    pub open spec fn guarded_of(&self, q: int) -> Seq<(u32, usize)> {
        self.guarded@[q]@
    }

    pub open spec fn trans_of(&self, q: int) -> Seq<(char, usize)> {
        self.trans@[q]@
    }

    /// The three edge tables describe the same states, and every edge ends
    /// at one of them.
    pub open spec fn wf_graph(&self) -> bool {
        &&& self.guarded@.len() == self.n()
        &&& self.trans@.len() == self.n()
        &&& eps_bounded(self.eps@, self.n())
        &&& guarded_bounded(self.guarded@, self.n())
        &&& trans_bounded(self.trans@, self.n())
    }

    /// The marks of which states can still reach the accepting state are
    /// exact, for texts over `alphabet`.
    pub open spec fn alive_exact(&self, alphabet: Seq<char>) -> bool {
        let lf = alphabet.contains('\n');
        let cr = alphabet.contains('\r');
        &&& forall|q: usize| q < self.n() ==> (#[trigger] self.alive_anywhere@[q as int] <==> self.can_finish(q, false, lf, cr))
        &&& forall|q: usize| q < self.n() ==> (#[trigger] self.alive_later@[q as int] <==> self.can_finish(q, true, lf, cr))
    }

    pub open spec fn wf(&self) -> bool {
        &&& self.wf_graph()
        &&& self.start < self.n()
        &&& self.accept < self.n()
        &&& self.alive_anywhere@.len() == self.n()
        &&& self.alive_later@.len() == self.n()
    }

    /// Adds a state without edges and returns it.
    pub(crate) fn push(&mut self) -> (q: usize)
        requires
            old(self).wf_graph(),
        ensures
            final(self).wf_graph(),
            q == old(self).n(),
            final(self).n() == old(self).n() + 1,
            final(self).start == old(self).start,
            final(self).accept == old(self).accept,
            grows(*final(self), *old(self)),
            forall|p: int| 0 <= p < old(self).n() ==> #[trigger] same_edges(*final(self), *old(self), p),
            sealed(*final(self), q as int),
    {
        let q = self.eps.len();
        self.eps.push(Vec::new());
        self.guarded.push(Vec::new());
        self.trans.push(Vec::new());
        let ghost n = self.n();
        assert forall|p: int, k: int| 0 <= p < n && 0 <= k < self.eps@[p]@.len() implies #[trigger] self.eps@[p]@[k] < n by {
            if p < q {
                assert(self.eps@[p] == old(self).eps@[p]);
            }
        }
        assert forall|p: int, k: int| 0 <= p < n && 0 <= k < self.guarded@[p]@.len() implies #[trigger] self.guarded@[p]@[k].1 < n by {
            if p < q {
                assert(self.guarded@[p] == old(self).guarded@[p]);
            }
        }
        assert forall|p: int, k: int| 0 <= p < n && 0 <= k < self.trans@[p]@.len() implies #[trigger] self.trans@[p]@[k].1 < n by {
            if p < q {
                assert(self.trans@[p] == old(self).trans@[p]);
            }
        }
        assert forall|p: int| 0 <= p < old(self).n() implies #[trigger] prefix_of(old(self).eps_of(p), self.eps_of(p)) by {
            assert(self.eps@[p] == old(self).eps@[p]);
        }
        assert forall|p: int| 0 <= p < old(self).n() implies #[trigger] prefix_of(old(self).guarded_of(p), self.guarded_of(p)) by {
            assert(self.guarded@[p] == old(self).guarded@[p]);
        }
        assert forall|p: int| 0 <= p < old(self).n() implies #[trigger] prefix_of(old(self).trans_of(p), self.trans_of(p)) by {
            assert(self.trans@[p] == old(self).trans@[p]);
        }
        assert forall|p: int| 0 <= p < old(self).n() implies #[trigger] same_edges(*self, *old(self), p) by {
            assert(self.eps@[p] == old(self).eps@[p]);
            assert(self.guarded@[p] == old(self).guarded@[p]);
            assert(self.trans@[p] == old(self).trans@[p]);
        }
        q
    }

    /// Adds the epsilon edge `from -> to`.
    pub(crate) fn eps(&mut self, from: usize, to: usize)
        requires
            old(self).wf_graph(),
            from < old(self).n(),
            to < old(self).n(),
        ensures
            final(self).wf_graph(),
            final(self).n() == old(self).n(),
            final(self).start == old(self).start,
            final(self).accept == old(self).accept,
            grows(*final(self), *old(self)),
            final(self).eps_of(from as int) == old(self).eps_of(from as int).push(to),
            final(self).guarded_of(from as int) == old(self).guarded_of(from as int),
            final(self).trans_of(from as int) == old(self).trans_of(from as int),
            forall|p: int| 0 <= p < old(self).n() && p != from ==> #[trigger] same_edges(*final(self), *old(self), p),
    {
        let ghost before = *self;
        self.eps[from].push(to);
        let ghost n = self.n();
        assert forall|p: int, k: int| 0 <= p < n && 0 <= k < self.eps@[p]@.len() implies #[trigger] self.eps@[p]@[k] < n by {
            if p != from {
                assert(self.eps@[p] == before.eps@[p]);
            } else if k < before.eps@[p]@.len() {
                assert(self.eps@[p]@[k] == before.eps@[p]@[k]);
            }
        }
        assert forall|p: int| 0 <= p < before.n() implies #[trigger] prefix_of(before.eps_of(p), self.eps_of(p)) by {
            if p != from {
                assert(self.eps@[p] == before.eps@[p]);
            }
        }
        assert forall|p: int| 0 <= p < before.n() implies #[trigger] prefix_of(before.guarded_of(p), self.guarded_of(p)) by {
            assert(self.guarded@[p] == before.guarded@[p]);
        }
        assert forall|p: int| 0 <= p < before.n() implies #[trigger] prefix_of(before.trans_of(p), self.trans_of(p)) by {
            assert(self.trans@[p] == before.trans@[p]);
        }
        assert forall|p: int| 0 <= p < before.n() && p != from implies #[trigger] same_edges(*self, before, p) by {
            assert(self.eps@[p] == before.eps@[p]);
            assert(self.guarded@[p] == before.guarded@[p]);
            assert(self.trans@[p] == before.trans@[p]);
        }
        assert(self.guarded@[from as int] == before.guarded@[from as int]);
        assert(self.trans@[from as int] == before.trans@[from as int]);
    }

    /// Adds the edge `from -> to` that is crossed only where `look` holds.
    pub(crate) fn guard(&mut self, from: usize, look: u32, to: usize)
        requires
            old(self).wf_graph(),
            from < old(self).n(),
            to < old(self).n(),
        ensures
            final(self).wf_graph(),
            final(self).n() == old(self).n(),
            final(self).start == old(self).start,
            final(self).accept == old(self).accept,
            grows(*final(self), *old(self)),
            final(self).guarded_of(from as int) == old(self).guarded_of(from as int).push((look, to)),
            final(self).eps_of(from as int) == old(self).eps_of(from as int),
            final(self).trans_of(from as int) == old(self).trans_of(from as int),
            forall|p: int| 0 <= p < old(self).n() && p != from ==> #[trigger] same_edges(*final(self), *old(self), p),
    {
        let ghost before = *self;
        self.guarded[from].push((look, to));
        let ghost n = self.n();
        assert forall|p: int, k: int| 0 <= p < n && 0 <= k < self.guarded@[p]@.len() implies #[trigger] self.guarded@[p]@[k].1 < n by {
            if p != from {
                assert(self.guarded@[p] == before.guarded@[p]);
            } else if k < before.guarded@[p]@.len() {
                assert(self.guarded@[p]@[k] == before.guarded@[p]@[k]);
            }
        }
        assert forall|p: int| 0 <= p < before.n() implies #[trigger] prefix_of(before.eps_of(p), self.eps_of(p)) by {
            assert(self.eps@[p] == before.eps@[p]);
        }
        assert forall|p: int| 0 <= p < before.n() implies #[trigger] prefix_of(before.guarded_of(p), self.guarded_of(p)) by {
            if p != from {
                assert(self.guarded@[p] == before.guarded@[p]);
            }
        }
        assert forall|p: int| 0 <= p < before.n() implies #[trigger] prefix_of(before.trans_of(p), self.trans_of(p)) by {
            assert(self.trans@[p] == before.trans@[p]);
        }
        assert forall|p: int| 0 <= p < before.n() && p != from implies #[trigger] same_edges(*self, before, p) by {
            assert(self.eps@[p] == before.eps@[p]);
            assert(self.guarded@[p] == before.guarded@[p]);
            assert(self.trans@[p] == before.trans@[p]);
        }
        assert(self.eps@[from as int] == before.eps@[from as int]);
        assert(self.trans@[from as int] == before.trans@[from as int]);
    }

    /// Adds the edge `from -> to` that consumes `ch`.
    pub(crate) fn consume(&mut self, from: usize, ch: char, to: usize)
        requires
            old(self).wf_graph(),
            from < old(self).n(),
            to < old(self).n(),
        ensures
            final(self).wf_graph(),
            final(self).n() == old(self).n(),
            final(self).start == old(self).start,
            final(self).accept == old(self).accept,
            grows(*final(self), *old(self)),
            final(self).trans_of(from as int) == old(self).trans_of(from as int).push((ch, to)),
            final(self).eps_of(from as int) == old(self).eps_of(from as int),
            final(self).guarded_of(from as int) == old(self).guarded_of(from as int),
            forall|p: int| 0 <= p < old(self).n() && p != from ==> #[trigger] same_edges(*final(self), *old(self), p),
    {
        let ghost before = *self;
        self.trans[from].push((ch, to));
        let ghost n = self.n();
        assert forall|p: int, k: int| 0 <= p < n && 0 <= k < self.trans@[p]@.len() implies #[trigger] self.trans@[p]@[k].1 < n by {
            if p != from {
                assert(self.trans@[p] == before.trans@[p]);
            } else if k < before.trans@[p]@.len() {
                assert(self.trans@[p]@[k] == before.trans@[p]@[k]);
            }
        }
        assert forall|p: int| 0 <= p < before.n() implies #[trigger] prefix_of(before.eps_of(p), self.eps_of(p)) by {
            assert(self.eps@[p] == before.eps@[p]);
        }
        assert forall|p: int| 0 <= p < before.n() implies #[trigger] prefix_of(before.guarded_of(p), self.guarded_of(p)) by {
            assert(self.guarded@[p] == before.guarded@[p]);
        }
        assert forall|p: int| 0 <= p < before.n() implies #[trigger] prefix_of(before.trans_of(p), self.trans_of(p)) by {
            if p != from {
                assert(self.trans@[p] == before.trans@[p]);
            }
        }
        assert forall|p: int| 0 <= p < before.n() && p != from implies #[trigger] same_edges(*self, before, p) by {
            assert(self.eps@[p] == before.eps@[p]);
            assert(self.guarded@[p] == before.guarded@[p]);
            assert(self.trans@[p] == before.trans@[p]);
        }
        assert(self.eps@[from as int] == before.eps@[from as int]);
        assert(self.guarded@[from as int] == before.guarded@[from as int]);
    }
}

impl Nfa {
    /// One epsilon move from `q` to `r` at a position with `prev` behind it
    /// and `next` ahead of it.
    pub open spec fn eps_move(&self, q: usize, r: usize, prev: Option<char>, next: Option<char>) -> bool {
        ||| self.eps_of(q as int).contains(r)
        ||| exists|k: int|
            #![trigger self.guarded_of(q as int)[k]]
            0 <= k < self.guarded_of(q as int).len() && self.guarded_of(q as int)[k].1 == r
                && look_holds_spec(self.guarded_of(q as int)[k].0, prev, next)
    }

    /// `path` is a chain of epsilon moves that starts inside `s`.
    pub open spec fn eps_path(&self, s: Set<usize>, prev: Option<char>, next: Option<char>, path: Seq<usize>) -> bool {
        &&& path.len() > 0
        &&& s.contains(path[0])
        &&& forall|i: int| 0 <= i < path.len() - 1 ==> #[trigger] self.eps_move(path[i], path[i + 1], prev, next)
    }

    /// `r` is in the epsilon closure of `s` at a position with `prev` behind
    /// it and `next` ahead of it.
    pub open spec fn in_closure(&self, s: Set<usize>, prev: Option<char>, next: Option<char>, r: usize) -> bool {
        exists|path: Seq<usize>| #[trigger] self.eps_path(s, prev, next, path) && path.last() == r
    }

    pub open spec fn closure_set(&self, s: Set<usize>, prev: Option<char>, next: Option<char>) -> Set<usize> {
        Set::new(|r: usize| self.in_closure(s, prev, next, r))
    }

    pub proof fn lemma_closure_step(&self, s: Set<usize>, prev: Option<char>, next: Option<char>, q: usize, r: usize)
        requires
            self.in_closure(s, prev, next, q),
            self.eps_move(q, r, prev, next),
        ensures
            self.in_closure(s, prev, next, r),
    {
        let path = choose|path: Seq<usize>| #[trigger] self.eps_path(s, prev, next, path) && path.last() == q;
        let longer = path.push(r);
        assert forall|i: int| 0 <= i < longer.len() - 1 implies #[trigger] self.eps_move(longer[i], longer[i + 1], prev, next) by {
            if i < path.len() - 1 {
                assert(longer[i] == path[i] && longer[i + 1] == path[i + 1]);
            }
        }
        assert(self.eps_path(s, prev, next, longer));
    }

    pub proof fn lemma_closure_start(&self, s: Set<usize>, prev: Option<char>, next: Option<char>, q: usize)
        requires
            s.contains(q),
        ensures
            self.in_closure(s, prev, next, q),
    {
        assert(self.eps_path(s, prev, next, seq![q]));
    }

    proof fn lemma_closure_complete(
        &self,
        s: Set<usize>,
        prev: Option<char>,
        next: Option<char>,
        found: Set<usize>,
        path: Seq<usize>,
    )
        requires
            forall|x: usize| s.contains(x) ==> found.contains(x),
            forall|q: usize, x: usize| found.contains(q) && #[trigger] self.eps_move(q, x, prev, next) ==> found.contains(x),
            self.eps_path(s, prev, next, path),
        ensures
            found.contains(path.last()),
        decreases path.len(),
    {
        if path.len() > 1 {
            let shorter = path.drop_last();
            assert forall|i: int| 0 <= i < shorter.len() - 1 implies #[trigger] self.eps_move(shorter[i], shorter[i + 1], prev, next) by {
                assert(self.eps_move(path[i], path[i + 1], prev, next));
            }
            self.lemma_closure_complete(s, prev, next, found, shorter);
            let i = path.len() - 2;
            assert(self.eps_move(path[i], path[i + 1], prev, next));
            assert(shorter.last() == path[i]);
        }
    }

    /// Marks `to` as found, appending it to `open`, unless it was found before.
    fn visit(seen: &mut Vec<bool>, open: &mut Vec<usize>, to: usize)
        requires
            to < old(seen).len(),
            forall|x: usize| x < old(seen).len() ==> (old(seen)@[x as int] <==> old(open)@.contains(x)),
            old(open)@.no_duplicates(),
        ensures
            final(seen).len() == old(seen).len(),
            forall|x: usize| x < final(seen).len() ==> (final(seen)@[x as int] <==> final(open)@.contains(x)),
            final(open)@.no_duplicates(),
            final(open)@.contains(to),
            old(seen)@[to as int] ==> final(open)@ == old(open)@,
            !old(seen)@[to as int] ==> final(open)@ == old(open)@.push(to),
    {
        if !seen[to] {
            seen.set(to, true);
            let ghost before = open@;
            open.push(to);
            assert(open@[open@.len() - 1] == to);
            assert forall|x: usize| x < seen.len() implies (seen@[x as int] <==> open@.contains(x)) by {
                if x != to && open@.contains(x) {
                    let t = choose|t: int| 0 <= t < open@.len() && open@[t] == x;
                    assert(before[t] == x);
                }
                if x != to && before.contains(x) {
                    let t = choose|t: int| 0 <= t < before.len() && before[t] == x;
                    assert(open@[t] == x);
                }
            }
        } else {
            assert(seen@[to as int]);
        }
    }

    /// The epsilon closure of `states` at a position with `prev` behind and
    /// `next` ahead, without repeats.
    pub fn closure(&self, states: &Vec<usize>, prev: Option<char>, next: Option<char>) -> (reached: Vec<usize>)
        requires
            self.wf_graph(),
            forall|i: int| 0 <= i < states@.len() ==> #[trigger] states@[i] < self.n(),
        ensures
            reached@.no_duplicates(),
            forall|i: int| 0 <= i < reached@.len() ==> #[trigger] reached@[i] < self.n(),
            forall|r: usize| reached@.contains(r) <==> self.in_closure(states@.to_set(), prev, next, r),
    {
        let ghost s = states@.to_set();
        let n = self.eps.len();
        let mut seen = bools(n, false);
        let mut open: Vec<usize> = Vec::new();
        let mut j: usize = 0;
        while j < states.len()
            invariant
                n == self.n(),
                self.wf_graph(),
                seen.len() == n,
                j <= states.len(),
                s == states@.to_set(),
                forall|i: int| 0 <= i < states@.len() ==> #[trigger] states@[i] < n,
                forall|x: usize| x < n ==> (seen@[x as int] <==> open@.contains(x)),
                open@.no_duplicates(),
                forall|t: int| 0 <= t < open@.len() ==> #[trigger] open@[t] < n,
                forall|t: int| 0 <= t < open@.len() ==> #[trigger] s.contains(open@[t]),
                forall|t: int| 0 <= t < j ==> open@.contains(#[trigger] states@[t]),
            decreases states.len() - j,
        {
            let q = states[j];
            assert(s.contains(q));
            let ghost prev_open = open@;
            Self::visit(&mut seen, &mut open, q);
            proof {
                assert forall|x: usize| prev_open.contains(x) implies open@.contains(x) by {
                    let t = choose|t: int| 0 <= t < prev_open.len() && prev_open[t] == x;
                    assert(open@[t] == x);
                }
                assert forall|t: int| 0 <= t < j + 1 implies open@.contains(#[trigger] states@[t]) by {
                    if t < j {
                        assert(prev_open.contains(states@[t]));
                    }
                }
            }
            j = j + 1;
        }
        proof {
            assert forall|t: int| 0 <= t < open@.len() implies self.in_closure(s, prev, next, #[trigger] open@[t]) by {
                self.lemma_closure_start(s, prev, next, open@[t]);
            }
            assert forall|x: usize| s.contains(x) implies open@.contains(x) by {
                let t = choose|t: int| 0 <= t < states@.len() && states@[t] == x;
                assert(open@.contains(states@[t]));
            }
        }
        let mut i: usize = 0;
        while i < open.len()
            invariant
                n == self.n(),
                self.wf_graph(),
                seen.len() == n,
                i <= open.len(),
                forall|x: usize| x < n ==> (seen@[x as int] <==> open@.contains(x)),
                open@.no_duplicates(),
                forall|t: int| 0 <= t < open@.len() ==> #[trigger] open@[t] < n,
                forall|t: int| 0 <= t < open@.len() ==> self.in_closure(s, prev, next, #[trigger] open@[t]),
                forall|x: usize| s.contains(x) ==> open@.contains(x),
                forall|t: int, r: usize| 0 <= t < i && #[trigger] self.eps_move(open@[t], r, prev, next) ==> open@.contains(r),
            decreases n - i,
        {
            proof {
                crate::util::lemma_distinct_below(open@, n as nat);
            }
            let state = open[i];
            let ghost open_before = open@;
            let mut k: usize = 0;
            while k < self.eps[state].len()
                invariant
                    n == self.n(),
                    self.wf_graph(),
                    seen.len() == n,
                    state < n,
                    i < open.len(),
                    open@[i as int] == state,
                    open_before.len() <= open@.len(),
                    forall|t: int| 0 <= t < open_before.len() ==> open@[t] == open_before[t],
                    forall|x: usize| x < n ==> (seen@[x as int] <==> open@.contains(x)),
                    open@.no_duplicates(),
                    forall|t: int| 0 <= t < open@.len() ==> #[trigger] open@[t] < n,
                    forall|t: int| 0 <= t < open@.len() ==> self.in_closure(s, prev, next, #[trigger] open@[t]),
                    forall|x: usize| s.contains(x) ==> open@.contains(x),
                    forall|t: int, r: usize| 0 <= t < i && #[trigger] self.eps_move(open@[t], r, prev, next) ==> open@.contains(r),
                    forall|t: int| 0 <= t < k ==> open@.contains(#[trigger] self.eps_of(state as int)[t]),
                decreases self.eps_of(state as int).len() - k,
            {
                let to = self.eps[state][k];
                proof {
                    assert(self.eps_of(state as int).contains(to));
                    assert(self.eps_move(state, to, prev, next));
                    self.lemma_closure_step(s, prev, next, state, to);
                }
                let ghost prev_open = open@;
                Self::visit(&mut seen, &mut open, to);
                proof {
                    assert forall|t: int| 0 <= t < open@.len() implies self.in_closure(s, prev, next, #[trigger] open@[t]) by {
                        if t < prev_open.len() {
                            assert(open@[t] == prev_open[t]);
                        }
                    }
                    assert forall|x: usize| prev_open.contains(x) implies open@.contains(x) by {
                        let t = choose|t: int| 0 <= t < prev_open.len() && prev_open[t] == x;
                        assert(open@[t] == x);
                    }
                }
                k = k + 1;
            }
            let mut k: usize = 0;
            while k < self.guarded[state].len()
                invariant
                    n == self.n(),
                    self.wf_graph(),
                    seen.len() == n,
                    state < n,
                    i < open.len(),
                    open@[i as int] == state,
                    open_before.len() <= open@.len(),
                    forall|t: int| 0 <= t < open_before.len() ==> open@[t] == open_before[t],
                    forall|x: usize| x < n ==> (seen@[x as int] <==> open@.contains(x)),
                    open@.no_duplicates(),
                    forall|t: int| 0 <= t < open@.len() ==> #[trigger] open@[t] < n,
                    forall|t: int| 0 <= t < open@.len() ==> self.in_closure(s, prev, next, #[trigger] open@[t]),
                    forall|x: usize| s.contains(x) ==> open@.contains(x),
                    forall|t: int, r: usize| 0 <= t < i && #[trigger] self.eps_move(open@[t], r, prev, next) ==> open@.contains(r),
                    forall|t: int| 0 <= t < self.eps_of(state as int).len() ==> open@.contains(#[trigger] self.eps_of(state as int)[t]),
                    forall|t: int| 0 <= t < k && look_holds_spec(#[trigger] self.guarded_of(state as int)[t].0, prev, next) ==> open@.contains(self.guarded_of(state as int)[t].1),
                decreases self.guarded_of(state as int).len() - k,
            {
                let (look, to) = self.guarded[state][k];
                if look_holds(look, prev, next) {
                    proof {
                        assert(self.guarded_of(state as int)[k as int] == (look, to));
                        assert(self.eps_move(state, to, prev, next));
                        self.lemma_closure_step(s, prev, next, state, to);
                    }
                    let ghost prev_open = open@;
                    Self::visit(&mut seen, &mut open, to);
                    proof {
                        assert forall|t: int| 0 <= t < open@.len() implies self.in_closure(s, prev, next, #[trigger] open@[t]) by {
                            if t < prev_open.len() {
                                assert(open@[t] == prev_open[t]);
                            }
                        }
                        assert forall|x: usize| prev_open.contains(x) implies open@.contains(x) by {
                            let t = choose|t: int| 0 <= t < prev_open.len() && prev_open[t] == x;
                            assert(open@[t] == x);
                        }
                        }
                }
                k = k + 1;
            }
            proof {
                assert forall|t: int, r: usize| 0 <= t < i + 1 && #[trigger] self.eps_move(open@[t], r, prev, next) implies open@.contains(r) by {
                    if t == i {
                        if self.eps_of(state as int).contains(r) {
                            let u = choose|u: int| 0 <= u < self.eps_of(state as int).len() && self.eps_of(state as int)[u] == r;
                            assert(open@.contains(self.eps_of(state as int)[u]));
                        } else {
                            let u = choose|u: int|
                                #![trigger self.guarded_of(state as int)[u]]
                                0 <= u < self.guarded_of(state as int).len() && self.guarded_of(state as int)[u].1 == r
                                    && look_holds_spec(self.guarded_of(state as int)[u].0, prev, next);
                            assert(open@.contains(self.guarded_of(state as int)[u].1));
                        }
                    }
                }
            }
            i = i + 1;
        }
        proof {
            assert forall|r: usize| self.in_closure(s, prev, next, r) implies open@.contains(r) by {
                let path = choose|path: Seq<usize>| #[trigger] self.eps_path(s, prev, next, path) && path.last() == r;
                assert forall|q: usize, x: usize| open@.to_set().contains(q) && #[trigger] self.eps_move(q, x, prev, next) implies open@.to_set().contains(x) by {
                    let t = choose|t: int| 0 <= t < open@.len() && open@[t] == q;
                    assert(self.eps_move(open@[t], x, prev, next));
                }
                self.lemma_closure_complete(s, prev, next, open@.to_set(), path);
            }
        }
        open
    }
}

impl Nfa {
    /// Some state of `s` has an edge to `r` that consumes `ch`.
    pub open spec fn step_target(&self, s: Set<usize>, ch: char, r: usize) -> bool {
        exists|q: usize, k: int|
            #![trigger s.contains(q), self.trans_of(q as int)[k]]
            s.contains(q) && 0 <= k < self.trans_of(q as int).len() && self.trans_of(q as int)[k] == (ch, r)
    }

    /// The states reached from `states` by consuming `ch`.
    pub fn step(&self, states: &Vec<usize>, ch: char) -> (reached: Vec<usize>)
        requires
            self.wf_graph(),
            forall|i: int| 0 <= i < states@.len() ==> #[trigger] states@[i] < self.n(),
        ensures
            forall|i: int| 0 <= i < reached@.len() ==> #[trigger] reached@[i] < self.n(),
            forall|r: usize| reached@.contains(r) <==> self.step_target(states@.to_set(), ch, r),
    {
        let ghost s = states@.to_set();
        let mut out: Vec<usize> = Vec::new();
        let mut i: usize = 0;
        while i < states.len()
            invariant
                self.wf_graph(),
                i <= states.len(),
                s == states@.to_set(),
                forall|t: int| 0 <= t < states@.len() ==> #[trigger] states@[t] < self.n(),
                forall|t: int| 0 <= t < out@.len() ==> #[trigger] out@[t] < self.n(),
                forall|r: usize| out@.contains(r) ==> self.step_target(s, ch, r),
                forall|t: int, k: int|
                    0 <= t < i && 0 <= k < self.trans_of(states@[t] as int).len()
                        && (#[trigger] self.trans_of(states@[t] as int)[k]).0 == ch ==> out@.contains(
                        self.trans_of(states@[t] as int)[k].1,
                    ),
            decreases states.len() - i,
        {
            let q = states[i];
            assert(s.contains(q));
            let mut k: usize = 0;
            while k < self.trans[q].len()
                invariant
                    self.wf_graph(),
                    i < states.len(),
                    q == states@[i as int],
                    q < self.n(),
                    s.contains(q),
                    k <= self.trans_of(q as int).len(),
                    forall|t: int| 0 <= t < out@.len() ==> #[trigger] out@[t] < self.n(),
                    forall|r: usize| out@.contains(r) ==> self.step_target(s, ch, r),
                    forall|t: int, k2: int|
                        0 <= t < i && 0 <= k2 < self.trans_of(states@[t] as int).len()
                            && (#[trigger] self.trans_of(states@[t] as int)[k2]).0 == ch ==> out@.contains(
                            self.trans_of(states@[t] as int)[k2].1,
                        ),
                    forall|k2: int|
                        0 <= k2 < k && (#[trigger] self.trans_of(q as int)[k2]).0 == ch ==> out@.contains(
                            self.trans_of(q as int)[k2].1,
                        ),
                decreases self.trans_of(q as int).len() - k,
            {
                let (c, to) = self.trans[q][k];
                if c == ch {
                    let ghost before = out@;
                    out.push(to);
                    proof {
                        assert(self.trans_of(q as int)[k as int] == (ch, to));
                        assert(self.step_target(s, ch, to));
                        assert(out@[out@.len() - 1] == to);
                        assert forall|r: usize| before.contains(r) implies out@.contains(r) by {
                            let t = choose|t: int| 0 <= t < before.len() && before[t] == r;
                            assert(out@[t] == r);
                        }
                        assert forall|r: usize| out@.contains(r) implies self.step_target(s, ch, r) by {
                            let t = choose|t: int| 0 <= t < out@.len() && out@[t] == r;
                            if t < before.len() {
                                assert(before[t] == r);
                                assert(before.contains(r));
                            } else {
                                assert(r == to);
                            }
                        }
                    }
                }
                k = k + 1;
            }
            i = i + 1;
        }
        proof {
            assert forall|r: usize| self.step_target(s, ch, r) implies out@.contains(r) by {
                let (q, k) = choose|q: usize, k: int|
                    #![trigger s.contains(q), self.trans_of(q as int)[k]]
                    s.contains(q) && 0 <= k < self.trans_of(q as int).len() && self.trans_of(q as int)[k] == (ch, r);
                let t = choose|t: int| 0 <= t < states@.len() && states@[t] == q;
                assert(self.trans_of(states@[t] as int)[k].0 == ch);
            }
        }
        out
    }
}

impl Nfa {
    /// Builds the NFA of an unanchored search for `pattern`: the pattern is
    /// wrapped as `alphabet* pattern alphabet*`.
    pub fn build(pattern: &Pattern, alphabet: &Vec<char>) -> (nfa: Nfa)
        ensures
            nfa.wf(),
            nfa.alive_exact(alphabet@),
            forall|t: Seq<char>| spelled_from(t, alphabet@) && #[trigger] matches_somewhere(*pattern, alphabet@, t) ==> nfa_accepts(nfa, t),
            forall|t: Seq<char>| #[trigger] nfa_accepts(nfa, t) ==> matches_somewhere(*pattern, alphabet@, t),
    {
        let mut nfa = Nfa {
            eps: Vec::new(),
            guarded: Vec::new(),
            trans: Vec::new(),
            start: 0,
            accept: 1,
            alive_anywhere: Vec::new(),
            alive_later: Vec::new(),
        };
        let start = nfa.push();
        let ghost pushed = nfa;
        let accept = nfa.push();
        let ghost b0 = nfa;
        let (pattern_start, pattern_accept) = nfa.compile(pattern, alphabet);
        let ghost b1 = nfa;
        nfa.eps(start, pattern_start);
        let ghost b2 = nfa;
        nfa.eps(pattern_accept, accept);
        let ghost b3 = nfa;
        let ghost inner = span(2, b1.n() as int);
        proof {
            assert(same_edges(b0, pushed, 0));
            assert(same_edges(b1, b0, 0));
            assert(same_edges(b3, b2, 0));
            assert(b3.eps_of(0) =~= seq![pattern_start]);
            assert(kept(b3, b1, inner, pattern_accept as int)) by {
                assert forall|q: int| inner.contains(q) && q != pattern_accept implies #[trigger] same_edges(b3, b1, q) by {
                    assert(same_edges(b3, b2, q));
                    assert(same_edges(b2, b1, q));
                }
            }
            lemma_grows_trans(b3, b2, b1);
            assert(b2.eps_of(start as int).contains(pattern_start)) by {
                assert(b2.eps_of(start as int)[b1.eps_of(start as int).len() as int] == pattern_start);
            }
            lemma_eps_grow(b3, b2, start, pattern_start);
            assert(b3.eps_of(pattern_accept as int).contains(accept)) by {
                assert(b3.eps_of(pattern_accept as int)[b2.eps_of(pattern_accept as int).len() as int] == accept);
            }
            lemma_fragment_grow(b3, b1, *pattern, alphabet@, pattern_start, pattern_accept);
            lemma_grows_refl(b3);
        }
        let mut i: usize = 0;
        while i < alphabet.len()
            invariant
                nfa.wf_graph(),
                nfa.start == 0,
                nfa.accept == 1,
                start == 0,
                accept == 1,
                2 <= nfa.n(),
                grows(nfa, b3),
                i <= alphabet.len(),
                forall|m: int| 0 <= m < i ==> #[trigger] loops_on(nfa, 0, alphabet@[m]) && loops_on(nfa, 1, alphabet@[m]),
                nfa.eps_of(0) == seq![pattern_start],
                nfa.guarded_of(0).len() == 0,
                forall|k: int| 0 <= k < nfa.trans_of(0).len() ==> (#[trigger] nfa.trans_of(0)[k]).1 == 0,
                kept(nfa, b1, inner, pattern_accept as int),
                inner == span(2, b1.n() as int),
                b1.n() <= nfa.n(),
            decreases alphabet.len() - i,
        {
            let ch = alphabet[i];
            let ghost c0 = nfa;
            nfa.consume(start, ch, start);
            let ghost c1 = nfa;
            nfa.consume(accept, ch, accept);
            proof {
                assert(same_edges(nfa, c1, 0));
                assert forall|k: int| 0 <= k < nfa.trans_of(0).len() implies (#[trigger] nfa.trans_of(0)[k]).1 == 0 by {
                    if k < c0.trans_of(0).len() {
                        assert(nfa.trans_of(0)[k] == c0.trans_of(0)[k]);
                    }
                }
                assert(kept(nfa, b1, inner, pattern_accept as int)) by {
                    assert forall|q: int| inner.contains(q) && q != pattern_accept implies #[trigger] same_edges(nfa, b1, q) by {
                        assert(same_edges(nfa, c1, q));
                        assert(same_edges(c1, c0, q));
                        assert(same_edges(c0, b1, q));
                    }
                }
                lemma_grows_trans(c1, c0, b3);
                lemma_grows_trans(nfa, c1, b3);
                lemma_grows_trans(nfa, c1, c0);
                assert(c1.trans_of(0)[c0.trans_of(0).len() as int] == (ch, 0usize));
                assert(loops_on(c1, 0, ch));
                lemma_loops_grow(nfa, c1, 0, ch);
                assert(nfa.trans_of(1)[c1.trans_of(1).len() as int] == (ch, 1usize));
                assert(loops_on(nfa, 1, ch));
                assert forall|m: int| 0 <= m < i + 1 implies #[trigger] loops_on(nfa, 0, alphabet@[m]) && loops_on(nfa, 1, alphabet@[m]) by {
                    if m < i {
                        assert(0 <= m < i);
                        assert(loops_on(c0, 0, alphabet@[m]));
                        assert(loops_on(c0, 1, alphabet@[m]));
                        lemma_loops_grow(nfa, c0, 0, alphabet@[m]);
                        lemma_loops_grow(nfa, c0, 1, alphabet@[m]);
                    }
                }
            }
            i = i + 1;
        }
        proof {
            lemma_fragment_grow(nfa, b3, *pattern, alphabet@, pattern_start, pattern_accept);
            lemma_eps_grow(nfa, b3, start, pattern_start);
            lemma_eps_grow(nfa, b3, pattern_accept, accept);
            assert forall|c: char| alphabet@.contains(c) implies #[trigger] loops_on(nfa, 0, c) && loops_on(nfa, 1, c) by {
                let m = choose|m: int| 0 <= m < alphabet@.len() && alphabet@[m] == c;
                assert(loops_on(nfa, 0, alphabet@[m]) && loops_on(nfa, 1, alphabet@[m]));
            }
        }
        let has_lf = contains_char(alphabet, '\n');
        let has_cr = contains_char(alphabet, '\r');
        let ghost graph = nfa;
        let anywhere = nfa.co_accessible(false, has_lf, has_cr);
        let later = nfa.co_accessible(true, has_lf, has_cr);
        nfa.alive_anywhere = anywhere;
        nfa.alive_later = later;
        proof {
            assert(nfa.eps == graph.eps && nfa.trans == graph.trans && nfa.guarded == graph.guarded && nfa.accept == graph.accept);
            assert forall|q: usize, later: bool| #[trigger] nfa.can_finish(q, later, has_lf, has_cr) == graph.can_finish(q, later, has_lf, has_cr) by {
                assert forall|a: usize, b: usize| #[trigger] nfa.live_edge(a, b, later, has_lf, has_cr) == graph.live_edge(a, b, later, has_lf, has_cr) by {
                    assert(nfa.eps_of(a as int) == graph.eps_of(a as int));
                    assert(nfa.trans_of(a as int) == graph.trans_of(a as int));
                    assert(nfa.guarded_of(a as int) == graph.guarded_of(a as int));
                }
                assert forall|path: Seq<usize>| #[trigger] nfa.live_path(path, later, has_lf, has_cr) == graph.live_path(path, later, has_lf, has_cr) by {
                    if nfa.live_path(path, later, has_lf, has_cr) {
                        assert forall|i: int| 0 <= i < path.len() - 1 implies #[trigger] graph.live_edge(path[i], path[i + 1], later, has_lf, has_cr) by {
                            assert(nfa.live_edge(path[i], path[i + 1], later, has_lf, has_cr));
                        }
                    }
                    if graph.live_path(path, later, has_lf, has_cr) {
                        assert forall|i: int| 0 <= i < path.len() - 1 implies #[trigger] nfa.live_edge(path[i], path[i + 1], later, has_lf, has_cr) by {
                            assert(graph.live_edge(path[i], path[i + 1], later, has_lf, has_cr));
                        }
                    }
                }
                if nfa.can_finish(q, later, has_lf, has_cr) {
                    let path = choose|path: Seq<usize>| #[trigger] nfa.live_path(path, later, has_lf, has_cr) && path[0] == q;
                    assert(graph.live_path(path, later, has_lf, has_cr));
                }
                if graph.can_finish(q, later, has_lf, has_cr) {
                    let path = choose|path: Seq<usize>| #[trigger] graph.live_path(path, later, has_lf, has_cr) && path[0] == q;
                    assert(nfa.live_path(path, later, has_lf, has_cr));
                }
            }
            assert(grows(nfa, graph));
            assert forall|t: Seq<char>| #[trigger] nfa_accepts(nfa, t) implies matches_somewhere(*pattern, alphabet@, t) by {
                lemma_accepts_run(nfa, t);
                let path = choose|path: Seq<(usize, int)>| #[trigger] is_run(nfa, t, path) && path[0] == (0usize, 0int) && path.last() == (1usize, t.len() as int);
                assert(same_edges(nfa, graph, 0));
                assert forall|k: int| 0 <= k < nfa.trans_of(0).len() implies (#[trigger] nfa.trans_of(0)[k]).1 == 0 by {
                    assert(graph.trans_of(0)[k].1 == 0);
                }
                lemma_first_leave(nfa, t, path, 0, 0, pattern_start);
                let f = choose|f: int| #![trigger path[f]] 0 < f < path.len() && path[f].0 == pattern_start;
                lemma_positions(nfa, t, path, 0, f);
                assert(kept(nfa, b1, inner, pattern_accept as int)) by {
                    assert forall|q: int| inner.contains(q) && q != pattern_accept implies #[trigger] same_edges(nfa, b1, q) by {
                        assert(same_edges(nfa, graph, q));
                        assert(same_edges(graph, b1, q));
                    }
                }
                        lemma_through(nfa, b1, inner, pattern_accept as int, t, path, f);
                let g = choose|g: int|
                    #![trigger path[g]]
                    f <= g < path.len() && path[g].0 == pattern_accept && runs(b1, t, path[f].0, path[f].1, path[g].0, path[g].1) && forall|x: int|
                        f <= x < g ==> inner.contains(#[trigger] path[x].0 as int) && path[x].0 != pattern_accept;
                assert(runs(b1, t, pattern_start, path[f].1, pattern_accept, path[g].1));
                assert(pmatch(*pattern, alphabet@, t, path[f].1, path[g].1));
            }
            assert forall|t: Seq<char>| spelled_from(t, alphabet@) && #[trigger] matches_somewhere(*pattern, alphabet@, t) implies nfa_accepts(
                nfa,
                t,
            ) by {
                let (i, j) = choose|i: int, j: int| #[trigger] pmatch(*pattern, alphabet@, t, i, j);
                assert(pmatch(*pattern, alphabet@, t, i, j));
                assert forall|c: char| alphabet@.contains(c) implies #[trigger] loops_on(graph, 0, c) by {
                    assert(loops_on(graph, 0, c) && loops_on(graph, 1, c));
                }
                lemma_runs_loop(graph, alphabet@, t, 0, 0, i);
                assert forall|c: char| alphabet@.contains(c) implies #[trigger] loops_on(graph, 1, c) by {
                    assert(loops_on(graph, 0, c) && loops_on(graph, 1, c));
                }
                lemma_runs_loop(graph, alphabet@, t, 1, j, t.len() as int);
                lemma_runs_eps(graph, t, 0, pattern_start, i);
                lemma_runs_eps(graph, t, pattern_accept, 1, j);
                lemma_runs_trans(graph, t, 0, 0, 0, i, pattern_start, i);
                lemma_runs_trans(graph, t, 0, 0, pattern_start, i, pattern_accept, j);
                lemma_runs_trans(graph, t, 0, 0, pattern_accept, j, 1, j);
                lemma_runs_trans(graph, t, 0, 0, 1, j, 1, t.len() as int);
                lemma_runs_grow(nfa, graph, t, 0, 0, 1, t.len() as int);
                lemma_run_accepts(nfa, t);
            }
        }
        nfa
    }

    /// An edge from `q` to `r` that the search for the accepting state may
    /// take: an epsilon or consuming edge, or a guarded edge whose
    /// look-around `allowed_spec` lets through.
    pub open spec fn live_edge(&self, q: usize, r: usize, later: bool, has_lf: bool, has_cr: bool) -> bool {
        &&& q < self.n()
        &&& {
            ||| self.eps_of(q as int).contains(r)
            ||| exists|k: int| 0 <= k < self.trans_of(q as int).len() && #[trigger] self.trans_of(q as int)[k].1 == r
            ||| exists|k: int|
                0 <= k < self.guarded_of(q as int).len() && #[trigger] self.guarded_of(q as int)[k].1 == r
                    && allowed_spec(self.guarded_of(q as int)[k].0, later, has_lf, has_cr)
        }
    }

    /// `path` leads along live edges to the accepting state.
    pub open spec fn live_path(&self, path: Seq<usize>, later: bool, has_lf: bool, has_cr: bool) -> bool {
        &&& path.len() > 0
        &&& path.last() == self.accept
        &&& forall|i: int| 0 <= i < path.len() - 1 ==> #[trigger] self.live_edge(path[i], path[i + 1], later, has_lf, has_cr)
    }

    /// The accepting state can be reached from `q` along live edges.
    pub open spec fn can_finish(&self, q: usize, later: bool, has_lf: bool, has_cr: bool) -> bool {
        exists|path: Seq<usize>| #[trigger] self.live_path(path, later, has_lf, has_cr) && path[0] == q
    }

    /// Following a live edge into a state that can finish can finish too.
    pub proof fn lemma_finish_back(&self, f: usize, q: usize, later: bool, has_lf: bool, has_cr: bool)
        requires
            self.live_edge(f, q, later, has_lf, has_cr),
            self.can_finish(q, later, has_lf, has_cr),
        ensures
            self.can_finish(f, later, has_lf, has_cr),
    {
        let path = choose|path: Seq<usize>| #[trigger] self.live_path(path, later, has_lf, has_cr) && path[0] == q;
        let longer = seq![f] + path;
        assert forall|i: int| 0 <= i < longer.len() - 1 implies #[trigger] self.live_edge(longer[i], longer[i + 1], later, has_lf, has_cr) by {
            if i > 0 {
                assert(longer[i] == path[i - 1] && longer[i + 1] == path[i]);
                assert(self.live_edge(path[i - 1], path[(i - 1) + 1], later, has_lf, has_cr));
            }
        }
        assert(longer.last() == path.last());
        assert(self.live_path(longer, later, has_lf, has_cr));
    }

    /// A state that can finish past the first character can finish from the
    /// start too, where every guarded edge counts.
    pub proof fn lemma_finish_later_anywhere(&self, q: usize, has_lf: bool, has_cr: bool)
        requires
            self.can_finish(q, true, has_lf, has_cr),
        ensures
            self.can_finish(q, false, has_lf, has_cr),
    {
        let path = choose|path: Seq<usize>| #[trigger] self.live_path(path, true, has_lf, has_cr) && path[0] == q;
        assert forall|i: int| 0 <= i < path.len() - 1 implies #[trigger] self.live_edge(path[i], path[i + 1], false, has_lf, has_cr) by {
            assert(self.live_edge(path[i], path[i + 1], true, has_lf, has_cr));
        }
        assert(self.live_path(path, false, has_lf, has_cr));
    }

    /// A chain of epsilon moves from valid states stays among valid states.
    pub proof fn lemma_eps_path_valid(&self, s: Set<usize>, prev: Option<char>, next: Option<char>, path: Seq<usize>)
        requires
            self.wf_graph(),
            forall|q: usize| #[trigger] s.contains(q) ==> q < self.n(),
            self.eps_path(s, prev, next, path),
        ensures
            forall|i: int| 0 <= i < path.len() ==> #[trigger] path[i] < self.n(),
        decreases path.len(),
    {
        if path.len() > 1 {
            let shorter = path.drop_last();
            assert forall|i: int| 0 <= i < shorter.len() - 1 implies #[trigger] self.eps_move(shorter[i], shorter[i + 1], prev, next) by {
                assert(self.eps_move(path[i], path[i + 1], prev, next));
            }
            self.lemma_eps_path_valid(s, prev, next, shorter);
            let i = path.len() - 2;
            let q = path[i];
            let r = path[i + 1];
            assert(q == shorter[i]);
            assert(self.eps_move(q, r, prev, next));
            if self.eps_of(q as int).contains(r) {
                let k = choose|k: int| 0 <= k < self.eps_of(q as int).len() && self.eps_of(q as int)[k] == r;
                assert(self.eps@[q as int]@[k] < self.n());
            } else {
                let k = choose|k: int|
                    #![trigger self.guarded_of(q as int)[k]]
                    0 <= k < self.guarded_of(q as int).len() && self.guarded_of(q as int)[k].1 == r && look_holds_spec(
                        self.guarded_of(q as int)[k].0,
                        prev,
                        next,
                    );
                assert(self.guarded@[q as int]@[k].1 < self.n());
            }
            assert forall|i2: int| 0 <= i2 < path.len() implies #[trigger] path[i2] < self.n() by {
                if i2 < path.len() - 1 {
                    assert(path[i2] == shorter[i2]);
                }
            }
        } else {
            assert(path[0] < self.n());
        }
    }

    /// Where every state with a live edge into a marked state is marked, and
    /// the accepting state is marked, every state that can finish is marked.
    proof fn lemma_marked_closed(&self, alive: Seq<bool>, path: Seq<usize>, i: int, later: bool, has_lf: bool, has_cr: bool)
        requires
            alive.len() == self.n(),
            self.accept < self.n(),
            alive[self.accept as int],
            forall|f: usize, t: usize|
                t < self.n() && alive[t as int] && #[trigger] self.live_edge(f, t, later, has_lf, has_cr) ==> alive[f as int],
            self.live_path(path, later, has_lf, has_cr),
            0 <= i < path.len(),
        ensures
            path[i] < self.n(),
            alive[path[i] as int],
        decreases path.len() - i,
    {
        if i < path.len() - 1 {
            self.lemma_marked_closed(alive, path, i + 1, later, has_lf, has_cr);
            assert(self.live_edge(path[i], path[i + 1], later, has_lf, has_cr));
        }
    }

    /// Backwards reachability of the accepting state. Past the first
    /// character (`later`) a single-line `^` can no longer be crossed, and a
    /// multi-line one only where a line break can come before it.
    fn co_accessible(&self, later: bool, has_lf: bool, has_cr: bool) -> (alive: Vec<bool>)
        requires
            self.wf_graph(),
            self.accept < self.n(),
        ensures
            alive@.len() == self.n(),
            forall|q: usize| q < self.n() ==> (alive@[q as int] <==> self.can_finish(q, later, has_lf, has_cr)),
    {
        let n = self.eps.len();
        let mut back: Vec<Vec<usize>> = Vec::new();
        let mut q: usize = 0;
        while q < n
            invariant
                back@.len() == q,
                q <= n,
                forall|t: int| 0 <= t < q ==> (#[trigger] back@[t])@.len() == 0,
            decreases n - q,
        {
            back.push(Vec::new());
            q = q + 1;
        }
        // `back[t]` lists the states with a live edge into `t`.
        let mut from: usize = 0;
        while from < n
            invariant
                self.wf_graph(),
                self.accept < self.n(),
                n == self.n(),
                from <= n,
                back@.len() == n,
                forall|t: int, k: int|
                    0 <= t < n && 0 <= k < back@[t]@.len() ==> #[trigger] back@[t]@[k] < n && self.live_edge(
                        back@[t]@[k],
                        t as usize,
                        later,
                        has_lf,
                        has_cr,
                    ),
                forall|f: usize, t: usize|
                    f < from && t < n && #[trigger] self.live_edge(f, t, later, has_lf, has_cr) ==> back@[t as int]@.contains(f),
            decreases n - from,
        {
            let mut k: usize = 0;
            while k < self.eps[from].len()
                invariant
                    self.wf_graph(),
                    n == self.n(),
                    from < n,
                    back@.len() == n,
                    forall|t: int, k2: int|
                        0 <= t < n && 0 <= k2 < back@[t]@.len() ==> #[trigger] back@[t]@[k2] < n && self.live_edge(
                            back@[t]@[k2],
                            t as usize,
                            later,
                            has_lf,
                            has_cr,
                        ),
                    forall|f: usize, t: usize|
                        f < from && t < n && #[trigger] self.live_edge(f, t, later, has_lf, has_cr) ==> back@[t as int]@.contains(f),
                    forall|k2: int| 0 <= k2 < k ==> back@[#[trigger] self.eps_of(from as int)[k2] as int]@.contains(from),
                decreases self.eps_of(from as int).len() - k,
            {
                let to = self.eps[from][k];
                proof {
                    assert(self.eps_of(from as int)[k as int] == to);
                    assert(self.eps_of(from as int).contains(to));
                }
                push_back(&mut back, to, from, Ghost(|f: usize, t: usize| self.live_edge(f, t, later, has_lf, has_cr)));
                k = k + 1;
            }
            let mut k: usize = 0;
            while k < self.trans[from].len()
                invariant
                    self.wf_graph(),
                    n == self.n(),
                    from < n,
                    back@.len() == n,
                    forall|t: int, k2: int|
                        0 <= t < n && 0 <= k2 < back@[t]@.len() ==> #[trigger] back@[t]@[k2] < n && self.live_edge(
                            back@[t]@[k2],
                            t as usize,
                            later,
                            has_lf,
                            has_cr,
                        ),
                    forall|f: usize, t: usize|
                        f < from && t < n && #[trigger] self.live_edge(f, t, later, has_lf, has_cr) ==> back@[t as int]@.contains(f),
                    forall|k2: int|
                        0 <= k2 < self.eps_of(from as int).len() ==> back@[#[trigger] self.eps_of(from as int)[k2] as int]@.contains(from),
                    forall|k2: int| 0 <= k2 < k ==> back@[#[trigger] self.trans_of(from as int)[k2].1 as int]@.contains(from),
                decreases self.trans_of(from as int).len() - k,
            {
                let (_, to) = self.trans[from][k];
                proof {
                    assert(self.trans_of(from as int)[k as int].1 == to);
                }
                push_back(&mut back, to, from, Ghost(|f: usize, t: usize| self.live_edge(f, t, later, has_lf, has_cr)));
                k = k + 1;
            }
            let mut k: usize = 0;
            while k < self.guarded[from].len()
                invariant
                    self.wf_graph(),
                    n == self.n(),
                    from < n,
                    back@.len() == n,
                    forall|t: int, k2: int|
                        0 <= t < n && 0 <= k2 < back@[t]@.len() ==> #[trigger] back@[t]@[k2] < n && self.live_edge(
                            back@[t]@[k2],
                            t as usize,
                            later,
                            has_lf,
                            has_cr,
                        ),
                    forall|f: usize, t: usize|
                        f < from && t < n && #[trigger] self.live_edge(f, t, later, has_lf, has_cr) ==> back@[t as int]@.contains(f),
                    forall|k2: int|
                        0 <= k2 < self.eps_of(from as int).len() ==> back@[#[trigger] self.eps_of(from as int)[k2] as int]@.contains(from),
                    forall|k2: int|
                        0 <= k2 < self.trans_of(from as int).len() ==> back@[#[trigger] self.trans_of(from as int)[k2].1 as int]@.contains(
                            from,
                        ),
                    forall|k2: int|
                        0 <= k2 < k && allowed_spec(self.guarded_of(from as int)[k2].0, later, has_lf, has_cr)
                            ==> back@[#[trigger] self.guarded_of(from as int)[k2].1 as int]@.contains(from),
                decreases self.guarded_of(from as int).len() - k,
            {
                let (look, to) = self.guarded[from][k];
                proof {
                    assert(self.guarded_of(from as int)[k as int] == (look, to));
                }
                if allowed(look, later, has_lf, has_cr) {
                    push_back(&mut back, to, from, Ghost(|f: usize, t: usize| self.live_edge(f, t, later, has_lf, has_cr)));
                }
                k = k + 1;
            }
            proof {
                assert forall|f: usize, t: usize|
                    f < from + 1 && t < n && #[trigger] self.live_edge(f, t, later, has_lf, has_cr) implies back@[t as int]@.contains(f) by {
                    if f == from {
                        if self.eps_of(from as int).contains(t) {
                            let k2 = choose|k2: int| 0 <= k2 < self.eps_of(from as int).len() && self.eps_of(from as int)[k2] == t;
                            assert(back@[self.eps_of(from as int)[k2] as int]@.contains(from));
                        } else if exists|k2: int| 0 <= k2 < self.trans_of(from as int).len() && #[trigger] self.trans_of(from as int)[k2].1 == t {
                            let k2 = choose|k2: int| 0 <= k2 < self.trans_of(from as int).len() && #[trigger] self.trans_of(from as int)[k2].1 == t;
                            assert(back@[self.trans_of(from as int)[k2].1 as int]@.contains(from));
                        } else {
                            let k2 = choose|k2: int|
                                0 <= k2 < self.guarded_of(from as int).len() && #[trigger] self.guarded_of(from as int)[k2].1 == t
                                    && allowed_spec(self.guarded_of(from as int)[k2].0, later, has_lf, has_cr);
                            assert(back@[self.guarded_of(from as int)[k2].1 as int]@.contains(from));
                        }
                    }
                }
            }
            from = from + 1;
        }
        let mut alive = bools(n, false);
        alive.set(self.accept, true);
        let mut stack: Vec<usize> = Vec::new();
        stack.push(self.accept);
        let ghost mut order: Seq<usize> = seq![self.accept];
        proof {
            assert forall|x: usize| x < n implies (alive@[x as int] <==> order.contains(x)) by {
                if x == self.accept {
                    assert(order[0] == x);
                }
            }
            assert(self.live_path(seq![self.accept], later, has_lf, has_cr));
            assert(self.can_finish(self.accept, later, has_lf, has_cr));
            assert forall|x: usize| #[trigger] order.contains(x) implies self.can_finish(x, later, has_lf, has_cr) by {
                assert(x == order[0]);
            }
            assert forall|x: usize| #[trigger] stack@.contains(x) implies order.contains(x) by {
                assert(x == stack@[0]);
                assert(order[0] == x);
            }
        }
        while stack.len() > 0
            invariant
                self.wf_graph(),
                self.accept < n,
                n == self.n(),
                alive@.len() == n,
                back@.len() == n,
                forall|t: int, k2: int|
                    0 <= t < n && 0 <= k2 < back@[t]@.len() ==> #[trigger] back@[t]@[k2] < n && self.live_edge(
                        back@[t]@[k2],
                        t as usize,
                        later,
                        has_lf,
                        has_cr,
                    ),
                forall|f: usize, t: usize|
                    t < n && #[trigger] self.live_edge(f, t, later, has_lf, has_cr) ==> back@[t as int]@.contains(f),
                forall|t: int| 0 <= t < stack@.len() ==> #[trigger] stack@[t] < n,
                forall|t: int| 0 <= t < order.len() ==> #[trigger] order[t] < n,
                forall|x: usize| x < n ==> (alive@[x as int] <==> order.contains(x)),
                forall|x: usize| #[trigger] order.contains(x) ==> self.can_finish(x, later, has_lf, has_cr),
                forall|x: usize| #[trigger] stack@.contains(x) ==> order.contains(x),
                forall|x: usize, k2: int|
                    order.contains(x) && !stack@.contains(x) && 0 <= k2 < back@[x as int]@.len() ==> alive@[#[trigger] back@[x as int]@[k2] as int],
                alive@[self.accept as int],
                order.no_duplicates(),
                stack@.len() <= order.len(),
            decreases n - order.len(), stack@.len(),
        {
            proof {
                crate::util::lemma_distinct_below(order, n as nat);
            }
            let ghost stack_full = stack@;
            let q = stack.pop().unwrap();
            proof {
                assert(stack_full.contains(q)) by {
                    assert(stack_full[stack_full.len() - 1] == q);
                }
                assert forall|x: usize| #[trigger] stack@.contains(x) implies stack_full.contains(x) by {
                    let t = choose|t: int| 0 <= t < stack@.len() && stack@[t] == x;
                    assert(stack_full[t] == x);
                }
                assert forall|x: usize| #[trigger] stack_full.contains(x) && x != q implies stack@.contains(x) by {
                    let t = choose|t: int| 0 <= t < stack_full.len() && stack_full[t] == x;
                    assert(t < stack@.len());
                    assert(stack@[t] == x);
                }
            }
            let ghost order_before = order;
            let ghost stack_before = stack@.len();
            let mut k: usize = 0;
            while k < back[q].len()
                invariant
                    self.wf_graph(),
                    self.accept < n,
                    n == self.n(),
                    q < n,
                    order.contains(q),
                    alive@.len() == n,
                    back@.len() == n,
                    forall|t: int, k2: int|
                        0 <= t < n && 0 <= k2 < back@[t]@.len() ==> #[trigger] back@[t]@[k2] < n && self.live_edge(
                            back@[t]@[k2],
                            t as usize,
                            later,
                            has_lf,
                            has_cr,
                        ),
                    forall|f: usize, t: usize|
                        t < n && #[trigger] self.live_edge(f, t, later, has_lf, has_cr) ==> back@[t as int]@.contains(f),
                    forall|t: int| 0 <= t < stack@.len() ==> #[trigger] stack@[t] < n,
                    forall|t: int| 0 <= t < order.len() ==> #[trigger] order[t] < n,
                    forall|x: usize| x < n ==> (alive@[x as int] <==> order.contains(x)),
                    forall|x: usize| #[trigger] order.contains(x) ==> self.can_finish(x, later, has_lf, has_cr),
                    forall|x: usize| #[trigger] stack@.contains(x) ==> order.contains(x),
                    forall|x: usize, k2: int|
                        order.contains(x) && !stack@.contains(x) && x != q && 0 <= k2 < back@[x as int]@.len()
                            ==> alive@[#[trigger] back@[x as int]@[k2] as int],
                    forall|k2: int| 0 <= k2 < k ==> alive@[#[trigger] back@[q as int]@[k2] as int],
                    alive@[self.accept as int],
                    order.no_duplicates(),
                    order_before.len() <= order.len(),
                    stack_before < order_before.len(),
                    stack@.len() - stack_before == order.len() - order_before.len(),
                decreases back@[q as int]@.len() - k,
            {
                let from = back[q][k];
                if !alive[from] {
                    alive.set(from, true);
                    let ghost stack_old = stack@;
                    stack.push(from);
                    proof {
                        let old_order = order;
                        order = order.push(from);
                        assert(!old_order.contains(from));
                        assert forall|x: usize| x < n implies (alive@[x as int] <==> order.contains(x)) by {
                            if x != from && order.contains(x) {
                                let t = choose|t: int| 0 <= t < order.len() && order[t] == x;
                                assert(old_order[t] == x);
                            }
                            if old_order.contains(x) {
                                let t = choose|t: int| 0 <= t < old_order.len() && old_order[t] == x;
                                assert(order[t] == x);
                            }
                            if x == from {
                                assert(order[order.len() - 1] == from);
                            }
                        }
                        self.lemma_finish_back(from, q, later, has_lf, has_cr);
                        assert forall|x: usize| #[trigger] order.contains(x) implies self.can_finish(x, later, has_lf, has_cr) by {
                            if x != from {
                                let t = choose|t: int| 0 <= t < order.len() && order[t] == x;
                                assert(old_order[t] == x);
                                assert(old_order.contains(x));
                            }
                        }
                        assert forall|x: usize| #[trigger] stack@.contains(x) implies order.contains(x) by {
                            let t = choose|t: int| 0 <= t < stack@.len() && stack@[t] == x;
                            if t < stack_old.len() {
                                assert(stack_old[t] == x);
                                assert(stack_old.contains(x));
                                assert(old_order.contains(x));
                                let t2 = choose|t2: int| 0 <= t2 < old_order.len() && old_order[t2] == x;
                                assert(order[t2] == x);
                            } else {
                                assert(order[order.len() - 1] == x);
                            }
                        }
                        assert forall|x: usize, k2: int|
                            order.contains(x) && !stack@.contains(x) && x != q && 0 <= k2 < back@[x as int]@.len()
                            implies alive@[#[trigger] back@[x as int]@[k2] as int] by {
                            if x != from {
                                let t = choose|t: int| 0 <= t < order.len() && order[t] == x;
                                assert(old_order[t] == x);
                                if stack_old.contains(x) {
                                    let t2 = choose|t2: int| 0 <= t2 < stack_old.len() && stack_old[t2] == x;
                                    assert(stack@[t2] == x);
                                }
                            } else {
                                assert(stack@[stack@.len() - 1] == from);
                            }
                        }
                    }
                }
                k = k + 1;
            }
            proof {
                crate::util::lemma_distinct_below(order, n as nat);
            }
        }
        proof {
            assert forall|f: usize, t: usize|
                t < self.n() && alive@[t as int] && #[trigger] self.live_edge(f, t, later, has_lf, has_cr) implies alive@[f as int] by {
                assert(order.contains(t));
                assert(!stack@.contains(t));
                let k2 = choose|k2: int| 0 <= k2 < back@[t as int]@.len() && back@[t as int]@[k2] == f;
                assert(alive@[back@[t as int]@[k2] as int]);
            }
            assert forall|q: usize| q < self.n() implies (alive@[q as int] <==> self.can_finish(q, later, has_lf, has_cr)) by {
                if self.can_finish(q, later, has_lf, has_cr) {
                    let path = choose|path: Seq<usize>| #[trigger] self.live_path(path, later, has_lf, has_cr) && path[0] == q;
                    self.lemma_marked_closed(alive@, path, 0, later, has_lf, has_cr);
                }
                if alive@[q as int] {
                    assert(order.contains(q));
                }
            }
        }
        alive
    }
}

/// Records the backward edge `to <- from`, an edge `edge` admits.
fn push_back(back: &mut Vec<Vec<usize>>, to: usize, from: usize, Ghost(edge): Ghost<spec_fn(usize, usize) -> bool>)
    requires
        to < old(back)@.len(),
        from < old(back)@.len(),
        edge(from, to),
        forall|t: int, k: int|
            0 <= t < old(back)@.len() && 0 <= k < old(back)@[t]@.len() ==> #[trigger] old(back)@[t]@[k] < old(back)@.len()
                && edge(old(back)@[t]@[k], t as usize),
    ensures
        final(back)@.len() == old(back)@.len(),
        forall|t: int, k: int|
            0 <= t < final(back)@.len() && 0 <= k < final(back)@[t]@.len() ==> #[trigger] final(back)@[t]@[k] < final(back)@.len()
                && edge(final(back)@[t]@[k], t as usize),
        forall|t: int, f: usize| 0 <= t < old(back)@.len() && #[trigger] old(back)@[t]@.contains(f) ==> final(back)@[t]@.contains(f),
        final(back)@[to as int]@.contains(from),
{
    let ghost before = back@;
    back[to].push(from);
    assert forall|t: int, k: int|
        0 <= t < back@.len() && 0 <= k < back@[t]@.len() implies #[trigger] back@[t]@[k] < back@.len() && edge(back@[t]@[k], t as usize) by {
        if t != to {
            assert(back@[t] == before[t]);
        } else if k < before[t]@.len() {
            assert(back@[t]@[k] == before[t]@[k]);
        }
    }
    assert forall|t: int, f: usize| 0 <= t < before.len() && #[trigger] before[t]@.contains(f) implies back@[t]@.contains(f) by {
        let k = choose|k: int| 0 <= k < before[t]@.len() && before[t]@[k] == f;
        if t == to {
            assert(back@[t]@[k] == f);
        } else {
            assert(back@[t] == before[t]);
        }
    }
    assert(back@[to as int]@[before[to as int]@.len() as int] == from);
}

/// Whether a guarded edge with `look` counts for reachability.
fn allowed(look: u32, later: bool, has_lf: bool, has_cr: bool) -> (ok: bool)
    ensures
        ok == allowed_spec(look, later, has_lf, has_cr),
{
    if !later {
        true
    } else if look == LOOK_START {
        false
    } else if look == LOOK_START_LF {
        has_lf
    } else if look == LOOK_START_CRLF {
        has_lf || has_cr
    } else {
        true
    }
}

pub open spec fn allowed_spec(look: u32, later: bool, has_lf: bool, has_cr: bool) -> bool {
    if !later {
        true
    } else if look == LOOK_START {
        false
    } else if look == LOOK_START_LF {
        has_lf
    } else if look == LOOK_START_CRLF {
        has_lf || has_cr
    } else {
        true
    }
}

/// A vector of `n` copies of `value`.
pub fn bools(n: usize, value: bool) -> (v: Vec<bool>)
    ensures
        v@.len() == n,
        forall|i: int| 0 <= i < n ==> v@[i] == value,
{
    let mut v: Vec<bool> = Vec::new();
    let mut i: usize = 0;
    while i < n
        invariant
            i <= n,
            v@.len() == i,
            forall|t: int| 0 <= t < i ==> v@[t] == value,
        decreases n - i,
    {
        v.push(value);
        i = i + 1;
    }
    v
}

/// What `String::from_utf8_lossy` decodes from `bytes`.
pub uninterp spec fn utf8_lossy(bytes: Seq<u8>) -> Seq<char>;

/// `String::from_utf8_lossy`: the characters of `bytes` decoded as UTF-8,
/// with U+FFFD in place of each invalid sequence; valid UTF-8 is decoded
/// as it stands.
#[verifier::external_body]
pub(crate) fn utf8_lossy_chars(bytes: &[u8]) -> (chars: Vec<char>)
    ensures
        chars@ == utf8_lossy(bytes@),
        valid_utf8(bytes@) ==> chars@ == decode_utf8(bytes@),
{
    String::from_utf8_lossy(bytes).chars().collect()
}

/// Whether `c` is one of `chars`.
pub fn contains_char(chars: &Vec<char>, c: char) -> (found: bool)
    ensures
        found == chars@.contains(c),
{
    let mut i: usize = 0;
    while i < chars.len()
        invariant
            i <= chars.len(),
            forall|k: int| 0 <= k < i ==> chars@[k] != c,
        decreases chars.len() - i,
    {
        if chars[i] == c {
            assert(chars@[i as int] == c);
            return true;
        }
        i = i + 1;
    }
    false
}

/// Whether every character of `text` is in `alphabet`.
pub(crate) fn all_in(text: &Vec<char>, alphabet: &Vec<char>) -> (every: bool)
    ensures
        every == forall|k: int| 0 <= k < text@.len() ==> alphabet@.contains(#[trigger] text@[k]),
{
    let mut i: usize = 0;
    while i < text.len()
        invariant
            i <= text.len(),
            forall|k: int| 0 <= k < i ==> alphabet@.contains(#[trigger] text@[k]),
        decreases text.len() - i,
    {
        if !contains_char(alphabet, text[i]) {
            return false;
        }
        i = i + 1;
    }
    true
}

pub open spec fn eps_bounded(e: Seq<Vec<usize>>, n: nat) -> bool {
    forall|q: int, k: int| 0 <= q < e.len() && 0 <= k < e[q]@.len() ==> #[trigger] e[q]@[k] < n
}

pub open spec fn guarded_bounded(g: Seq<Vec<(u32, usize)>>, n: nat) -> bool {
    forall|q: int, k: int| 0 <= q < g.len() && 0 <= k < g[q]@.len() ==> #[trigger] g[q]@[k].1 < n
}

pub open spec fn trans_bounded(t: Seq<Vec<(char, usize)>>, n: nat) -> bool {
    forall|q: int, k: int| 0 <= q < t.len() && 0 <= k < t[q]@.len() ==> #[trigger] t[q]@[k].1 < n
}

} // verus!
