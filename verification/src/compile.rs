//! Compiling a pattern into a fragment of the automaton, proved to run
//! through exactly what the pattern matches.

use vstd::prelude::*;

use crate::layers::spelled_from;
use crate::matching::{
    allowed_count, copies_n, count_bound, first_parts, lemma_copies_count, lemma_copies_from_count, lemma_first_parts_intro,
    lemma_first_parts_last, lemma_some_part, pmatch, some_part,
};
use vstd::utf8::{decode_utf8, valid_utf8};
use crate::nfa::{Nfa, all_in, utf8_lossy, utf8_lossy_chars};
use crate::pattern::{Pattern, class_contains, in_ranges};
use crate::runs::{
    fragment_complete, grows, is_run, lemma_copies_loop, lemma_copies_star, lemma_fragment_grow, lemma_grows_refl, lemma_grows_trans,
    lemma_runs_char, lemma_runs_eps, lemma_runs_grow, lemma_runs_guard, lemma_runs_refl, lemma_runs_trans, lemma_step_copies, runs,
};
use crate::sound::{
    closed, edges_within, frag_region, fragment_sound, kept, lemma_char_to, lemma_closed_kept, lemma_eps_step, lemma_eps_to, lemma_escape,
    lemma_kept_trans, lemma_loop_walk, lemma_positions, lemma_restrict, lemma_run_len, lemma_sealed_end, lemma_step, lemma_through,
    lemma_within_mono, ready, same_edges, sealed, span, wired,
};

verus! {

broadcast use {vstd::std_specs::vec::axiom_vec_index_decreases, vstd::std_specs::vec::axiom_vec_decreases_to_view};

/// The state that a literal's chain leaves from before its `k`-th
/// character: its start state, then the states added from `lo` on.
pub open spec fn chain_state(start: usize, lo: int, k: int) -> int {
    if k == 0 {
        start as int
    } else {
        lo + k - 1
    }
}

/// What a literal with characters `text` builds from `start` to `accept`,
/// its other states numbered from `lo`: where `text` is spelled from the
/// alphabet, one new state per character, a chain of edges that consume the
/// characters in turn, and an epsilon edge from the chain's end to `accept`;
/// otherwise no state and no edge at all.
pub open spec fn literal_built(nfa: Nfa, start: usize, accept: usize, lo: int, text: Seq<char>, alphabet: Seq<char>) -> bool {
    if spelled_from(text, alphabet) {
        &&& nfa.n() == lo + text.len()
        &&& forall|k: int|
            0 <= k < text.len() ==> {
                &&& nfa.trans_of(#[trigger] chain_state(start, lo, k)) == seq![(text[k], (lo + k) as usize)]
                &&& nfa.eps_of(chain_state(start, lo, k)).len() == 0
                &&& nfa.guarded_of(chain_state(start, lo, k)).len() == 0
            }
        &&& nfa.eps_of(chain_state(start, lo, text.len() as int)) == seq![accept]
        &&& nfa.guarded_of(chain_state(start, lo, text.len() as int)).len() == 0
        &&& nfa.trans_of(chain_state(start, lo, text.len() as int)).len() == 0
    } else {
        &&& nfa.n() == lo
        &&& sealed(nfa, start as int)
    }
}

impl Nfa {
    /// The empty pattern: one epsilon edge.
    fn compile_empty(&mut self, pattern: &Pattern, start: usize, accept: usize, alphabet: &Vec<char>)
        requires
            ready(*old(self), start, accept),
            *pattern == Pattern::Empty,
        ensures
            wired(*final(self), *old(self), start, accept),
            fragment_complete(*final(self), *pattern, alphabet@, start, accept),
            fragment_sound(*final(self), *pattern, alphabet@, start, accept),
    {
        self.eps(start, accept);
        proof {
            let region = frag_region(start, accept, old(self).n() as int, self.n() as int);
            assert(self.eps_of(start as int) =~= seq![accept]);
            assert(same_edges(*self, *old(self), accept as int));
            assert(edges_within(*self, start as int, region));
            assert forall|t: Seq<char>, i: int, j: int| #[trigger] pmatch(*pattern, alphabet@, t, i, j) implies runs(
                *self,
                t,
                start,
                i,
                accept,
                j,
            ) by {
                assert(self.eps_of(start as int)[0] == accept);
                lemma_runs_eps(*self, t, start, accept, i);
            }
            assert forall|t: Seq<char>, i: int, j: int|
                0 <= i <= t.len() && #[trigger] runs(*self, t, start, i, accept, j) implies pmatch(*pattern, alphabet@, t, i, j) by {
                let path = choose|path: Seq<(usize, int)>| #[trigger] is_run(*self, t, path) && path[0] == (start, i) && path.last() == (accept, j);
                lemma_run_len(*self, t, path, start, i, accept, j);
                lemma_eps_to(*self, t, path, 0, accept);
                lemma_sealed_end(*self, t, path, 1);
            }
        }
    }

    /// A look-around: one guarded edge.
    fn compile_look(&mut self, pattern: &Pattern, look: u32, start: usize, accept: usize, alphabet: &Vec<char>)
        requires
            ready(*old(self), start, accept),
            *pattern == Pattern::Look(look),
        ensures
            wired(*final(self), *old(self), start, accept),
            fragment_complete(*final(self), *pattern, alphabet@, start, accept),
            fragment_sound(*final(self), *pattern, alphabet@, start, accept),
    {
        self.guard(start, look, accept);
        proof {
            let region = frag_region(start, accept, old(self).n() as int, self.n() as int);
            assert(self.guarded_of(start as int) =~= seq![(look, accept)]);
            assert(same_edges(*self, *old(self), accept as int));
            assert(edges_within(*self, start as int, region));
            assert forall|t: Seq<char>, i: int, j: int| #[trigger] pmatch(*pattern, alphabet@, t, i, j) implies runs(
                *self,
                t,
                start,
                i,
                accept,
                j,
            ) by {
                lemma_runs_guard(*self, t, start, accept, i, 0);
            }
            assert forall|t: Seq<char>, i: int, j: int|
                0 <= i <= t.len() && #[trigger] runs(*self, t, start, i, accept, j) implies pmatch(*pattern, alphabet@, t, i, j) by {
                let path = choose|path: Seq<(usize, int)>| #[trigger] is_run(*self, t, path) && path[0] == (start, i) && path.last() == (accept, j);
                lemma_run_len(*self, t, path, start, i, accept, j);
                lemma_step(*self, t, path, 0);
                let prev = crate::layers::prev_at(t, i);
                let next = crate::matching::next_at(t, i);
                if path[1].1 == i && self.eps_move(start, path[1].0, prev, next) {
                    assert(!self.eps_of(start as int).contains(path[1].0));
                    let k = choose|k: int|
                        #![trigger self.guarded_of(start as int)[k]]
                        0 <= k < self.guarded_of(start as int).len() && self.guarded_of(start as int)[k].1 == path[1].0
                            && crate::pattern::look_holds_spec(self.guarded_of(start as int)[k].0, prev, next);
                    assert(k == 0);
                } else {
                    let k = choose|k: int|
                        0 <= k < self.trans_of(start as int).len() && #[trigger] self.trans_of(start as int)[k] == (t[i], path[1].0);
                }
                lemma_sealed_end(*self, t, path, 1);
            }
        }
    }

    /// A class: an edge for each character of the alphabet that it holds.
    fn compile_class(&mut self, pattern: &Pattern, ranges: &Vec<(char, char)>, start: usize, accept: usize, alphabet: &Vec<char>)
        requires
            ready(*old(self), start, accept),
            *pattern == Pattern::Class(*ranges),
        ensures
            wired(*final(self), *old(self), start, accept),
            fragment_complete(*final(self), *pattern, alphabet@, start, accept),
            fragment_sound(*final(self), *pattern, alphabet@, start, accept),
    {
        let ghost region = frag_region(start, accept, old(self).n() as int, old(self).n() as int);
        let mut i: usize = 0;
        while i < alphabet.len()
            invariant
                self.wf_graph(),
                self.n() == old(self).n(),
                start < self.n(),
                accept < self.n(),
                start != accept,
                self.start == old(self).start,
                self.accept == old(self).accept,
                grows(*self, *old(self)),
                forall|q: int| 0 <= q < old(self).n() && q != start ==> #[trigger] same_edges(*self, *old(self), q),
                self.eps_of(start as int).len() == 0,
                self.guarded_of(start as int).len() == 0,
                i <= alphabet.len(),
                forall|k: int|
                    0 <= k < self.trans_of(start as int).len() ==> (#[trigger] self.trans_of(start as int)[k]).1 == accept
                        && alphabet@.contains(self.trans_of(start as int)[k].0) && in_ranges(ranges@, self.trans_of(start as int)[k].0),
                forall|m: int|
                    0 <= m < i && in_ranges(ranges@, #[trigger] alphabet@[m]) ==> exists|k: int|
                        0 <= k < self.trans_of(start as int).len() && #[trigger] self.trans_of(start as int)[k] == (alphabet@[m], accept),
            decreases alphabet.len() - i,
        {
            let ch = alphabet[i];
            if class_contains(ranges, ch) {
                let ghost before = *self;
                self.consume(start, ch, accept);
                proof {
                    lemma_grows_trans(*self, before, *old(self));
                    assert forall|q: int| 0 <= q < old(self).n() && q != start implies #[trigger] same_edges(*self, *old(self), q) by {
                        assert(same_edges(*self, before, q));
                        assert(same_edges(before, *old(self), q));
                    }
                    assert forall|k: int| 0 <= k < self.trans_of(start as int).len() implies (#[trigger] self.trans_of(
                        start as int,
                    )[k]).1 == accept && alphabet@.contains(self.trans_of(start as int)[k].0) && in_ranges(
                        ranges@,
                        self.trans_of(start as int)[k].0,
                    ) by {
                        if k < before.trans_of(start as int).len() {
                            assert(self.trans_of(start as int)[k] == before.trans_of(start as int)[k]);
                        } else {
                            assert(alphabet@[i as int] == ch);
                        }
                    }
                    assert forall|m: int|
                        0 <= m < i + 1 && in_ranges(ranges@, #[trigger] alphabet@[m]) implies exists|k: int|
                        0 <= k < self.trans_of(start as int).len() && #[trigger] self.trans_of(start as int)[k] == (alphabet@[m], accept) by {
                        if m < i {
                            let k = choose|k: int|
                                0 <= k < before.trans_of(start as int).len() && #[trigger] before.trans_of(start as int)[k] == (
                                alphabet@[m],
                                accept,
                            );
                            assert(self.trans_of(start as int)[k] == before.trans_of(start as int)[k]);
                        } else {
                            let k = before.trans_of(start as int).len() as int;
                            assert(self.trans_of(start as int)[k] == (alphabet@[m], accept));
                        }
                    }
                }
            }
            i = i + 1;
        }
        proof {
            assert(same_edges(*self, *old(self), accept as int));
            assert(edges_within(*self, start as int, region));
            assert forall|t: Seq<char>, p: int, q: int| #[trigger] pmatch(*pattern, alphabet@, t, p, q) implies runs(
                *self,
                t,
                start,
                p,
                accept,
                q,
            ) by {
                let m = choose|m: int| 0 <= m < alphabet@.len() && alphabet@[m] == t[p];
                assert(in_ranges(ranges@, alphabet@[m]));
                let k = choose|k: int|
                    0 <= k < self.trans_of(start as int).len() && #[trigger] self.trans_of(start as int)[k] == (alphabet@[m], accept);
                lemma_runs_char(*self, t, start, accept, p, k);
            }
            assert forall|t: Seq<char>, p: int, q: int|
                0 <= p <= t.len() && #[trigger] runs(*self, t, start, p, accept, q) implies pmatch(*pattern, alphabet@, t, p, q) by {
                let path = choose|path: Seq<(usize, int)>| #[trigger] is_run(*self, t, path) && path[0] == (start, p) && path.last() == (accept, q);
                lemma_run_len(*self, t, path, start, p, accept, q);
                lemma_step(*self, t, path, 0);
                let k = choose|k: int|
                    0 <= k < self.trans_of(start as int).len() && #[trigger] self.trans_of(start as int)[k] == (t[p], path[1].0);
                assert(self.trans_of(start as int)[k].1 == accept);
                lemma_sealed_end(*self, t, path, 1);
            }
        }
    }

    /// A literal: a chain of edges that consume its characters; nothing
    /// where it cannot be spelled from the alphabet.
    fn compile_literal(&mut self, pattern: &Pattern, bytes: &Vec<u8>, start: usize, accept: usize, alphabet: &Vec<char>)
        requires
            ready(*old(self), start, accept),
            *pattern == Pattern::Literal(*bytes),
        ensures
            wired(*final(self), *old(self), start, accept),
            fragment_complete(*final(self), *pattern, alphabet@, start, accept),
            fragment_sound(*final(self), *pattern, alphabet@, start, accept),
            literal_built(*final(self), start, accept, old(self).n() as int, utf8_lossy(bytes@), alphabet@),
            valid_utf8(bytes@) ==> utf8_lossy(bytes@) == decode_utf8(bytes@),
    {
        let ghost lo = old(self).n() as int;
        let slice = bytes.as_slice();
        let text = utf8_lossy_chars(slice);
        proof {
            assert(slice@ == bytes@);
        }
        if all_in(&text, alphabet) {
            let mut from = start;
            let mut i: usize = 0;
            proof {
                assert forall|t: Seq<char>, p: int, q: int|
                    0 <= p && q == p && q <= t.len() && #[trigger] t.subrange(p, q) == text@.take(0) implies runs(
                    *self,
                    t,
                    start,
                    p,
                    from,
                    q,
                ) by {
                    lemma_runs_refl(*self, t, start, p);
                }
                assert forall|q: int| frag_region(start, start, lo, self.n() as int).contains(q) && q != from implies #[trigger] edges_within(
                    *self,
                    q,
                    frag_region(start, start, lo, self.n() as int),
                ) by {
                }
                assert forall|t: Seq<char>, p: int, m: int|
                    0 <= p <= t.len() && #[trigger] runs(*self, t, start, p, from, m) implies m == p + i && m <= t.len() && t.subrange(p, m)
                    == text@.take(i as int) by {
                    let path = choose|path: Seq<(usize, int)>| #[trigger] is_run(*self, t, path) && path[0] == (start, p) && path.last() == (from, m);
                    lemma_sealed_end(*self, t, path, 0);
                    assert(t.subrange(p, p) =~= text@.take(0));
                }
            }
            while i < text.len()
                invariant
                    self.wf_graph(),
                    from < self.n(),
                    start < self.n(),
                    accept < self.n(),
                    start != accept,
                    lo == old(self).n(),
                    lo <= self.n(),
                    start < lo,
                    accept < lo,
                    from == start || lo <= from,
                    self.start == old(self).start,
                    self.accept == old(self).accept,
                    grows(*self, *old(self)),
                    i <= text.len(),
                    text@ == utf8_lossy(bytes@),
                    forall|q: int| 0 <= q < old(self).n() && q != start ==> #[trigger] same_edges(*self, *old(self), q),
                    sealed(*self, from as int),
                    sealed(*self, accept as int),
                    closed(*self, frag_region(start, start, lo, self.n() as int), from as int),
                    self.n() == lo + i,
                    from as int == chain_state(start, lo, i as int),
                    forall|k: int|
                        0 <= k < i ==> {
                            &&& self.trans_of(#[trigger] chain_state(start, lo, k)) == seq![(text@[k], (lo + k) as usize)]
                            &&& self.eps_of(chain_state(start, lo, k)).len() == 0
                            &&& self.guarded_of(chain_state(start, lo, k)).len() == 0
                        },
                    forall|t: Seq<char>, p: int, q: int|
                        0 <= p && q == p + i && q <= t.len() && #[trigger] t.subrange(p, q) == text@.take(i as int) ==> runs(
                            *self,
                            t,
                            start,
                            p,
                            from,
                            q,
                        ),
                    forall|t: Seq<char>, p: int, m: int|
                        0 <= p <= t.len() && #[trigger] runs(*self, t, start, p, from, m) ==> m == p + i && m <= t.len() && t.subrange(p, m)
                            == text@.take(i as int),
                decreases text.len() - i,
            {
                let ghost before = *self;
                let ghost from_before = from;
                let ghost region = frag_region(start, start, lo, before.n() as int);
                let to = self.push();
                let ghost mid = *self;
                let c = text[i];
                self.consume(from, c, to);
                proof {
                    lemma_grows_trans(*self, mid, before);
                    lemma_grows_trans(*self, before, *old(self));
                    let k = mid.trans_of(from_before as int).len() as int;
                    assert(self.trans_of(from_before as int)[k] == (text@[i as int], to));
                    assert forall|t: Seq<char>, p: int, q: int|
                        0 <= p && q == p + (i + 1) && q <= t.len() && #[trigger] t.subrange(p, q) == text@.take(i + 1) implies runs(
                        *self,
                        t,
                        start,
                        p,
                        to,
                        q,
                    ) by {
                        assert(t.subrange(p, p + i) =~= text@.take(i as int)) by {
                            assert forall|x: int| 0 <= x < i implies #[trigger] t.subrange(p, p + i)[x] == text@.take(i as int)[x] by {
                                assert(t.subrange(p, q)[x] == text@.take(i + 1)[x]);
                            }
                        }
                        assert(t[p + i] == text@[i as int]) by {
                            assert(t.subrange(p, q)[i as int] == text@.take(i + 1)[i as int]);
                        }
                        assert(runs(before, t, start, p, from_before, p + i));
                        lemma_runs_grow(*self, before, t, start, p, from_before, p + i);
                        lemma_runs_char(*self, t, from_before, to, p + i, k);
                        lemma_runs_trans(*self, t, start, p, from_before, p + i, to, q);
                    }
                    assert forall|q: int| 0 <= q < old(self).n() && q != start implies #[trigger] same_edges(*self, *old(self), q) by {
                        assert(same_edges(*self, mid, q));
                        assert(same_edges(mid, before, q));
                        assert(same_edges(before, *old(self), q));
                    }
                    assert(same_edges(*self, mid, to as int));
                    assert(same_edges(mid, before, from_before as int));
                    assert(same_edges(*self, mid, accept as int));
                    assert(same_edges(mid, before, accept as int));
                    assert(self.trans_of(from_before as int) =~= seq![(c, to)]);
                    assert forall|k: int|
                        0 <= k < i + 1 implies {
                        &&& self.trans_of(#[trigger] chain_state(start, lo, k)) == seq![(text@[k], (lo + k) as usize)]
                        &&& self.eps_of(chain_state(start, lo, k)).len() == 0
                        &&& self.guarded_of(chain_state(start, lo, k)).len() == 0
                    } by {
                        if k < i {
                            let q = chain_state(start, lo, k);
                            assert(q != from_before);
                            assert(same_edges(*self, mid, q));
                            assert(same_edges(mid, before, q));
                        } else {
                            assert(chain_state(start, lo, k) == from_before);
                        }
                    }
                    assert(kept(*self, before, region, from_before as int)) by {
                        assert forall|q: int| region.contains(q) && q != from_before implies #[trigger] same_edges(*self, before, q) by {
                            assert(same_edges(*self, mid, q));
                            assert(same_edges(mid, before, q));
                        }
                    }
                    let grown = frag_region(start, start, lo, self.n() as int);
                    assert forall|q: int| grown.contains(q) && q != to implies #[trigger] edges_within(*self, q, grown) by {
                        if q == from_before {
                        } else {
                            assert(region.contains(q));
                            assert(edges_within(before, q, region));
                            assert(same_edges(*self, before, q));
                            lemma_within_mono(*self, q, region, grown);
                        }
                    }
                    assert forall|t: Seq<char>, p: int, m: int|
                        0 <= p <= t.len() && #[trigger] runs(*self, t, start, p, to, m) implies m == p + (i + 1) && m <= t.len() && t.subrange(
                        p,
                        m,
                    ) == text@.take(i + 1) by {
                        let path = choose|path: Seq<(usize, int)>| #[trigger] is_run(*self, t, path) && path[0] == (start, p) && path.last() == (to, m);
                        lemma_through(*self, before, region, from_before as int, t, path, 0);
                        let f = choose|f: int|
                            #![trigger path[f]]
                            0 <= f < path.len() && path[f].0 == from_before && runs(before, t, path[0].0, path[0].1, path[f].0, path[f].1)
                                && forall|x: int| 0 <= x < f ==> region.contains(#[trigger] path[x].0 as int) && path[x].0 != from_before;
                        let q1 = path[f].1;
                        assert(runs(before, t, start, p, from_before, q1));
                        lemma_char_to(*self, t, path, f, c, to);
                        lemma_sealed_end(*self, t, path, f + 1);
                        assert(t.subrange(p, m) =~= text@.take(i + 1)) by {
                            assert forall|x: int| 0 <= x < i + 1 implies #[trigger] t.subrange(p, m)[x] == text@.take(i + 1)[x] by {
                                if x < i {
                                    assert(t.subrange(p, q1)[x] == text@.take(i as int)[x]);
                                }
                            }
                        }
                    }
                }
                from = to;
                i = i + 1;
            }
            let ghost before = *self;
            let ghost region = frag_region(start, start, lo, before.n() as int);
            self.eps(from, accept);
            proof {
                lemma_grows_trans(*self, before, *old(self));
                assert(self.eps_of(from as int) =~= seq![accept]);
                assert(same_edges(*self, before, accept as int));
                assert(spelled_from(text@, alphabet@));
                assert forall|k: int| 0 <= k < text@.len() implies {
                    &&& self.trans_of(#[trigger] chain_state(start, lo, k)) == seq![(text@[k], (lo + k) as usize)]
                    &&& self.eps_of(chain_state(start, lo, k)).len() == 0
                    &&& self.guarded_of(chain_state(start, lo, k)).len() == 0
                } by {
                    let q = chain_state(start, lo, k);
                    assert(q != from);
                    assert(same_edges(*self, before, q));
                }
                assert(literal_built(*self, start, accept, lo, text@, alphabet@));
                assert forall|t: Seq<char>, p: int, q: int| #[trigger] pmatch(*pattern, alphabet@, t, p, q) implies runs(
                    *self,
                    t,
                    start,
                    p,
                    accept,
                    q,
                ) by {
                    assert(text@.take(text@.len() as int) =~= text@);
                    assert(t.subrange(p, q) == text@.take(text@.len() as int));
                    assert(runs(before, t, start, p, from, q));
                    lemma_runs_grow(*self, before, t, start, p, from, q);
                    assert(self.eps_of(from as int)[0] == accept);
                    lemma_runs_eps(*self, t, from, accept, q);
                    lemma_runs_trans(*self, t, start, p, from, q, accept, q);
                }
                assert forall|q: int| 0 <= q < old(self).n() && q != start implies #[trigger] same_edges(*self, *old(self), q) by {
                    assert(same_edges(*self, before, q));
                    assert(same_edges(before, *old(self), q));
                }
                assert(same_edges(*self, before, accept as int));
                assert(kept(*self, before, region, from as int)) by {
                    assert forall|q: int| region.contains(q) && q != from implies #[trigger] same_edges(*self, before, q) by {
                    }
                }
                let whole = frag_region(start, accept, lo, self.n() as int);
                assert(region.subset_of(whole));
                assert forall|q: int| whole.contains(q) && q != accept implies #[trigger] edges_within(*self, q, whole) by {
                    if q == from {
                    } else {
                        assert(region.contains(q));
                        assert(edges_within(before, q, region));
                        assert(same_edges(*self, before, q));
                        lemma_within_mono(*self, q, region, whole);
                    }
                }
                assert forall|t: Seq<char>, p: int, m: int|
                    0 <= p <= t.len() && #[trigger] runs(*self, t, start, p, accept, m) implies pmatch(*pattern, alphabet@, t, p, m) by {
                    let path = choose|path: Seq<(usize, int)>| #[trigger] is_run(*self, t, path) && path[0] == (start, p) && path.last() == (accept, m);
                    lemma_through(*self, before, region, from as int, t, path, 0);
                    let f = choose|f: int|
                        #![trigger path[f]]
                        0 <= f < path.len() && path[f].0 == from && runs(before, t, path[0].0, path[0].1, path[f].0, path[f].1) && forall|x: int|
                            0 <= x < f ==> region.contains(#[trigger] path[x].0 as int) && path[x].0 != from;
                    let q1 = path[f].1;
                    assert(runs(before, t, start, p, from, q1));
                    lemma_run_len(*self, t, path, start, p, accept, m);
                    assert(f < path.len() - 1);
                    lemma_eps_to(*self, t, path, f, accept);
                    lemma_sealed_end(*self, t, path, f + 1);
                    assert(text@.take(text@.len() as int) =~= text@);
                    assert(spelled_from(text@, alphabet@));
                }
            }
        } else {
            proof {
                assert(!spelled_from(text@, alphabet@)) by {
                    let k = choose|k: int| 0 <= k < text@.len() && !alphabet@.contains(#[trigger] text@[k]);
                }
                assert(literal_built(*self, start, accept, lo, text@, alphabet@));
                let region = frag_region(start, accept, lo, self.n() as int);
                assert forall|q: int| region.contains(q) && q != accept implies #[trigger] edges_within(*self, q, region) by {
                }
                assert forall|t: Seq<char>, p: int, q: int| #[trigger] pmatch(*pattern, alphabet@, t, p, q) implies runs(
                    *self,
                    t,
                    start,
                    p,
                    accept,
                    q,
                ) by {
                    assert(spelled_from(text@, alphabet@));
                    let k = choose|k: int| 0 <= k < text@.len() && !alphabet@.contains(#[trigger] text@[k]);
                    assert(alphabet@.contains(text@[k]));
                }
                assert forall|t: Seq<char>, p: int, m: int|
                    0 <= p <= t.len() && #[trigger] runs(*self, t, start, p, accept, m) implies pmatch(*pattern, alphabet@, t, p, m) by {
                    let path = choose|path: Seq<(usize, int)>| #[trigger] is_run(*self, t, path) && path[0] == (start, p) && path.last() == (accept, m);
                    lemma_run_len(*self, t, path, start, p, accept, m);
                    lemma_sealed_end(*self, t, path, 0);
                }
            }
        }
    }
}

impl Nfa {
    /// Compiles `pattern` into a fresh `(start, accept)` pair of states.
    ///
    /// A literal that cannot be spelled from the alphabet matches nothing,
    /// and a class contributes only the alphabet's characters that it holds.
    /// The automaton runs through from the first state to the second exactly
    /// over what the pattern matches.
    pub(crate) fn compile(&mut self, pattern: &Pattern, alphabet: &Vec<char>) -> (ends: (usize, usize))
        requires
            old(self).wf_graph(),
        ensures
            final(self).wf_graph(),
            ends.0 == old(self).n(),
            ends.1 == old(self).n() + 1,
            old(self).n() + 2 <= final(self).n(),
            final(self).start == old(self).start,
            final(self).accept == old(self).accept,
            grows(*final(self), *old(self)),
            forall|q: int| 0 <= q < old(self).n() ==> #[trigger] same_edges(*final(self), *old(self), q),
            closed(*final(self), span(old(self).n() as int, final(self).n() as int), ends.1 as int),
            sealed(*final(self), ends.1 as int),
            fragment_complete(*final(self), *pattern, alphabet@, ends.0, ends.1),
            fragment_sound(*final(self), *pattern, alphabet@, ends.0, ends.1),
            *pattern matches Pattern::Literal(bytes) ==> literal_built(
                *final(self),
                ends.0,
                ends.1,
                old(self).n() + 2int,
                utf8_lossy(bytes@),
                alphabet@,
            ) && (valid_utf8(bytes@) ==> utf8_lossy(bytes@) == decode_utf8(bytes@)),
        decreases pattern, 2int,
    {
        let start = self.push();
        let ghost pushed = *self;
        let accept = self.push();
        let ghost ready_nfa = *self;
        proof {
            lemma_grows_trans(*self, pushed, *old(self));
            assert(same_edges(*self, pushed, start as int));
            assert forall|q: int| 0 <= q < old(self).n() implies #[trigger] same_edges(*self, *old(self), q) by {
                assert(same_edges(*self, pushed, q));
                assert(same_edges(pushed, *old(self), q));
            }
        }
        match pattern {
            Pattern::Empty => self.compile_empty(pattern, start, accept, alphabet),
            Pattern::Look(look) => self.compile_look(pattern, *look, start, accept, alphabet),
            Pattern::Literal(bytes) => self.compile_literal(pattern, bytes, start, accept, alphabet),
            Pattern::Class(ranges) => self.compile_class(pattern, ranges, start, accept, alphabet),
            Pattern::Capture(sub) => self.compile_capture(pattern, sub, start, accept, alphabet),
            Pattern::Concat(parts) => self.compile_concat(pattern, parts, start, accept, alphabet),
            Pattern::Alternation(parts) => self.compile_alternation(pattern, parts, start, accept, alphabet),
            Pattern::Repetition { min, max, sub } => self.compile_repetition(pattern, *min, *max, sub, start, accept, alphabet),
        }
        proof {
            lemma_grows_trans(*self, ready_nfa, *old(self));
            assert forall|q: int| 0 <= q < old(self).n() implies #[trigger] same_edges(*self, *old(self), q) by {
                assert(same_edges(*self, ready_nfa, q));
                assert(same_edges(ready_nfa, *old(self), q));
            }
            assert(frag_region(start, accept, ready_nfa.n() as int, self.n() as int) =~= span(old(self).n() as int, self.n() as int));
        }
        (start, accept)
    }

    /// A group: the fragment of what it holds, between two epsilon edges.
    fn compile_capture(&mut self, pattern: &Pattern, sub: &Box<Pattern>, start: usize, accept: usize, alphabet: &Vec<char>)
        requires
            ready(*old(self), start, accept),
            *pattern == Pattern::Capture(*sub),
        ensures
            wired(*final(self), *old(self), start, accept),
            fragment_complete(*final(self), *pattern, alphabet@, start, accept),
            fragment_sound(*final(self), *pattern, alphabet@, start, accept),
        decreases pattern, 1int,
    {
        let ghost b0 = *self;
        proof {
            assert(decreases_to!(*pattern => (*pattern)->Capture_0));
        }
        let (sub_start, sub_accept) = self.compile(sub, alphabet);
        let ghost b1 = *self;
        self.eps(start, sub_start);
        let ghost b2 = *self;
        self.eps(sub_accept, accept);
        proof {
            let lo = b0.n() as int;
            let inner = span(lo, b1.n() as int);
            lemma_grows_trans(b2, b1, b0);
            lemma_grows_trans(*self, b2, b0);
            lemma_grows_trans(*self, b2, b1);
            assert forall|q: int| 0 <= q < b0.n() && q != start implies #[trigger] same_edges(*self, b0, q) by {
                assert(same_edges(*self, b2, q));
                assert(same_edges(b2, b1, q));
                assert(same_edges(b1, b0, q));
            }
            assert(same_edges(b1, b0, start as int));
            assert(same_edges(*self, b2, start as int));
            assert(self.eps_of(start as int) =~= seq![sub_start]);
            assert(same_edges(b2, b1, sub_accept as int));
            assert(self.eps_of(sub_accept as int) =~= seq![accept]);
            assert(same_edges(b1, b0, accept as int));
            assert(same_edges(b2, b1, accept as int));
            assert(same_edges(*self, b2, accept as int));
            assert(kept(*self, b1, inner, sub_accept as int)) by {
                assert forall|q: int| inner.contains(q) && q != sub_accept implies #[trigger] same_edges(*self, b1, q) by {
                    assert(same_edges(*self, b2, q));
                    assert(same_edges(b2, b1, q));
                }
            }
            let whole = frag_region(start, accept, lo, self.n() as int);
            assert(inner.subset_of(whole));
            assert forall|q: int| whole.contains(q) && q != accept implies #[trigger] edges_within(*self, q, whole) by {
                if q == start || q == sub_accept {
                } else {
                    assert(inner.contains(q));
                    assert(edges_within(b1, q, inner));
                    assert(same_edges(*self, b1, q));
                    lemma_within_mono(*self, q, inner, whole);
                }
            }
            assert forall|t: Seq<char>, p: int, q: int| #[trigger] pmatch(*pattern, alphabet@, t, p, q) implies runs(
                *self,
                t,
                start,
                p,
                accept,
                q,
            ) by {
                assert(pmatch(**sub, alphabet@, t, p, q));
                lemma_runs_grow(*self, b1, t, sub_start, p, sub_accept, q);
                assert(self.eps_of(start as int)[0] == sub_start);
                assert(self.eps_of(sub_accept as int)[0] == accept);
                lemma_runs_eps(*self, t, start, sub_start, p);
                lemma_runs_eps(*self, t, sub_accept, accept, q);
                lemma_runs_trans(*self, t, start, p, sub_start, p, sub_accept, q);
                lemma_runs_trans(*self, t, start, p, sub_accept, q, accept, q);
            }
            assert forall|t: Seq<char>, p: int, m: int|
                0 <= p <= t.len() && #[trigger] runs(*self, t, start, p, accept, m) implies pmatch(*pattern, alphabet@, t, p, m) by {
                let path = choose|path: Seq<(usize, int)>| #[trigger] is_run(*self, t, path) && path[0] == (start, p) && path.last() == (accept, m);
                lemma_run_len(*self, t, path, start, p, accept, m);
                lemma_eps_to(*self, t, path, 0, sub_start);
                lemma_through(*self, b1, inner, sub_accept as int, t, path, 1);
                let f = choose|f: int|
                    #![trigger path[f]]
                    1 <= f < path.len() && path[f].0 == sub_accept && runs(b1, t, path[1].0, path[1].1, path[f].0, path[f].1) && forall|x: int|
                        1 <= x < f ==> inner.contains(#[trigger] path[x].0 as int) && path[x].0 != sub_accept;
                assert(runs(b1, t, sub_start, p, sub_accept, path[f].1));
                assert(pmatch(**sub, alphabet@, t, p, path[f].1));
                assert(f < path.len() - 1);
                lemma_eps_to(*self, t, path, f, accept);
                lemma_sealed_end(*self, t, path, f + 1);
            }
        }
    }

    /// A concatenation: the parts' fragments one after another.
    fn compile_concat(&mut self, pattern: &Pattern, parts: &Vec<Pattern>, start: usize, accept: usize, alphabet: &Vec<char>)
        requires
            ready(*old(self), start, accept),
            *pattern == Pattern::Concat(*parts),
        ensures
            wired(*final(self), *old(self), start, accept),
            fragment_complete(*final(self), *pattern, alphabet@, start, accept),
            fragment_sound(*final(self), *pattern, alphabet@, start, accept),
        decreases pattern, 1int,
    {
        let ghost lo = old(self).n() as int;
        let mut from = start;
        let mut i: usize = 0;
        proof {
            assert forall|t: Seq<char>, p: int, m: int, n: nat| n == i && #[trigger] first_parts(parts@, n, alphabet@, t, p, m) implies runs(
                *self,
                t,
                start,
                p,
                from,
                m,
            ) by {
                lemma_runs_refl(*self, t, start, p);
            }
            assert forall|q: int| frag_region(start, start, lo, self.n() as int).contains(q) && q != from implies #[trigger] edges_within(
                *self,
                q,
                frag_region(start, start, lo, self.n() as int),
            ) by {
            }
            assert forall|t: Seq<char>, p: int, m: int|
                0 <= p <= t.len() && #[trigger] runs(*self, t, start, p, from, m) implies first_parts(parts@, i as nat, alphabet@, t, p, m) by {
                let path = choose|path: Seq<(usize, int)>| #[trigger] is_run(*self, t, path) && path[0] == (start, p) && path.last() == (from, m);
                lemma_sealed_end(*self, t, path, 0);
            }
        }
        while i < parts.len()
            invariant
                self.wf_graph(),
                from < self.n(),
                start < lo,
                accept < lo,
                start != accept,
                lo == old(self).n(),
                lo <= self.n(),
                from == start || lo <= from,
                self.start == old(self).start,
                self.accept == old(self).accept,
                grows(*self, *old(self)),
                i <= parts.len(),
                *pattern == Pattern::Concat(*parts),
                forall|q: int| 0 <= q < old(self).n() && q != start ==> #[trigger] same_edges(*self, *old(self), q),
                sealed(*self, from as int),
                sealed(*self, accept as int),
                closed(*self, frag_region(start, start, lo, self.n() as int), from as int),
                forall|t: Seq<char>, p: int, m: int, n: nat| n == i && #[trigger] first_parts(parts@, n, alphabet@, t, p, m) ==> runs(
                    *self,
                    t,
                    start,
                    p,
                    from,
                    m,
                ),
                forall|t: Seq<char>, p: int, m: int|
                    0 <= p <= t.len() && #[trigger] runs(*self, t, start, p, from, m) ==> first_parts(parts@, i as nat, alphabet@, t, p, m),
            decreases parts.len() - i,
        {
            proof {
                assert(decreases_to!(*pattern => (*pattern)->Concat_0));
                assert(decreases_to!(*parts => parts@));
                assert(decreases_to!(parts@ => parts@[i as int]));
            }
            let ghost b0 = *self;
            let ghost from0 = from;
            let ghost region = frag_region(start, start, lo, b0.n() as int);
            let (sub_start, sub_accept) = self.compile(&parts[i], alphabet);
            let ghost b1 = *self;
            self.eps(from, sub_start);
            proof {
                let inner = span(b0.n() as int, b1.n() as int);
                lemma_grows_trans(b1, b0, *old(self));
                lemma_grows_trans(*self, b1, *old(self));
                lemma_grows_trans(*self, b1, b0);
                assert(same_edges(b1, b0, from0 as int));
                assert(self.eps_of(from0 as int) =~= seq![sub_start]);
                assert(self.eps_of(from0 as int).contains(sub_start)) by {
                    assert(self.eps_of(from0 as int)[0] == sub_start);
                }
                assert forall|q: int| 0 <= q < old(self).n() && q != start implies #[trigger] same_edges(*self, *old(self), q) by {
                    assert(same_edges(*self, b1, q));
                    assert(same_edges(b1, b0, q));
                    assert(same_edges(b0, *old(self), q));
                }
                assert(same_edges(*self, b1, sub_accept as int));
                assert(same_edges(*self, b1, accept as int));
                assert(same_edges(b1, b0, accept as int));
                assert(kept(*self, b0, region, from0 as int)) by {
                    assert forall|q: int| region.contains(q) && q != from0 implies #[trigger] same_edges(*self, b0, q) by {
                        assert(same_edges(*self, b1, q));
                        assert(same_edges(b1, b0, q));
                    }
                }
                assert(kept(*self, b1, inner, sub_accept as int)) by {
                    assert forall|q: int| inner.contains(q) && q != sub_accept implies #[trigger] same_edges(*self, b1, q) by {
                        assert(same_edges(*self, b1, q));
                    }
                }
                let grown = frag_region(start, start, lo, self.n() as int);
                assert(region.subset_of(grown));
                assert(inner.subset_of(grown));
                assert forall|q: int| grown.contains(q) && q != sub_accept implies #[trigger] edges_within(*self, q, grown) by {
                    if q == from0 {
                    } else if region.contains(q) {
                        assert(edges_within(b0, q, region));
                        assert(same_edges(*self, b0, q));
                        lemma_within_mono(*self, q, region, grown);
                    } else {
                        assert(inner.contains(q));
                        assert(edges_within(b1, q, inner));
                        assert(same_edges(*self, b1, q));
                        lemma_within_mono(*self, q, inner, grown);
                    }
                }
                assert forall|t: Seq<char>, p: int, m: int, n: nat|
                    n == i + 1 && #[trigger] first_parts(parts@, n, alphabet@, t, p, m) implies runs(*self, t, start, p, sub_accept, m) by {
                    lemma_first_parts_last(parts@, n, alphabet@, t, p, m);
                    let q = choose|q: int| first_parts(parts@, i as nat, alphabet@, t, p, q) && #[trigger] pmatch(parts@[i as int], alphabet@, t, q, m);
                    assert(runs(b0, t, start, p, from0, q));
                    lemma_runs_grow(*self, b0, t, start, p, from0, q);
                    lemma_runs_eps(*self, t, from0, sub_start, q);
                    assert(runs(b1, t, sub_start, q, sub_accept, m));
                    lemma_runs_grow(*self, b1, t, sub_start, q, sub_accept, m);
                    lemma_runs_trans(*self, t, start, p, from0, q, sub_start, q);
                    lemma_runs_trans(*self, t, start, p, sub_start, q, sub_accept, m);
                }
                assert forall|t: Seq<char>, p: int, m: int|
                    0 <= p <= t.len() && #[trigger] runs(*self, t, start, p, sub_accept, m) implies first_parts(
                    parts@,
                    (i + 1) as nat,
                    alphabet@,
                    t,
                    p,
                    m,
                ) by {
                    let path = choose|path: Seq<(usize, int)>| #[trigger] is_run(*self, t, path) && path[0] == (start, p) && path.last() == (sub_accept, m);
                    lemma_through(*self, b0, region, from0 as int, t, path, 0);
                    let f = choose|f: int|
                        #![trigger path[f]]
                        0 <= f < path.len() && path[f].0 == from0 && runs(b0, t, path[0].0, path[0].1, path[f].0, path[f].1) && forall|x: int|
                            0 <= x < f ==> region.contains(#[trigger] path[x].0 as int) && path[x].0 != from0;
                    let q1 = path[f].1;
                    assert(runs(b0, t, start, p, from0, q1));
                    assert(first_parts(parts@, i as nat, alphabet@, t, p, q1));
                    assert(f < path.len() - 1) by {
                        if f == path.len() - 1 {
                            assert(path[f] == path.last());
                        }
                    }
                    lemma_eps_to(*self, t, path, f, sub_start);
                    lemma_positions(*self, t, path, 0, f);
                    lemma_through(*self, b1, inner, sub_accept as int, t, path, f + 1);
                    let g = choose|g: int|
                        #![trigger path[g]]
                        f + 1 <= g < path.len() && path[g].0 == sub_accept && runs(b1, t, path[f + 1].0, path[f + 1].1, path[g].0, path[g].1)
                            && forall|x: int| f + 1 <= x < g ==> inner.contains(#[trigger] path[x].0 as int) && path[x].0 != sub_accept;
                    assert(runs(b1, t, sub_start, q1, sub_accept, path[g].1));
                    assert(pmatch(parts@[i as int], alphabet@, t, q1, path[g].1));
                    lemma_sealed_end(*self, t, path, g);
                    lemma_first_parts_intro(parts@, (i + 1) as nat, alphabet@, t, p, q1, m);
                }
            }
            from = sub_accept;
            i = i + 1;
        }
        let ghost before = *self;
        let ghost region = frag_region(start, start, lo, before.n() as int);
        self.eps(from, accept);
        proof {
            lemma_grows_trans(*self, before, *old(self));
            assert(self.eps_of(from as int) =~= seq![accept]);
            assert forall|q: int| 0 <= q < old(self).n() && q != start implies #[trigger] same_edges(*self, *old(self), q) by {
                assert(same_edges(*self, before, q));
                assert(same_edges(before, *old(self), q));
            }
            assert(same_edges(*self, before, accept as int));
            assert(kept(*self, before, region, from as int)) by {
                assert forall|q: int| region.contains(q) && q != from implies #[trigger] same_edges(*self, before, q) by {
                }
            }
            let whole = frag_region(start, accept, lo, self.n() as int);
            assert(region.subset_of(whole));
            assert forall|q: int| whole.contains(q) && q != accept implies #[trigger] edges_within(*self, q, whole) by {
                if q == from {
                } else {
                    assert(region.contains(q));
                    assert(edges_within(before, q, region));
                    assert(same_edges(*self, before, q));
                    lemma_within_mono(*self, q, region, whole);
                }
            }
            assert forall|t: Seq<char>, p: int, q: int| #[trigger] pmatch(*pattern, alphabet@, t, p, q) implies runs(
                *self,
                t,
                start,
                p,
                accept,
                q,
            ) by {
                assert(first_parts(parts@, parts@.len(), alphabet@, t, p, q));
                assert(runs(before, t, start, p, from, q));
                lemma_runs_grow(*self, before, t, start, p, from, q);
                assert(self.eps_of(from as int)[0] == accept);
                lemma_runs_eps(*self, t, from, accept, q);
                lemma_runs_trans(*self, t, start, p, from, q, accept, q);
            }
            assert forall|t: Seq<char>, p: int, m: int|
                0 <= p <= t.len() && #[trigger] runs(*self, t, start, p, accept, m) implies pmatch(*pattern, alphabet@, t, p, m) by {
                let path = choose|path: Seq<(usize, int)>| #[trigger] is_run(*self, t, path) && path[0] == (start, p) && path.last() == (accept, m);
                lemma_through(*self, before, region, from as int, t, path, 0);
                let f = choose|f: int|
                    #![trigger path[f]]
                    0 <= f < path.len() && path[f].0 == from && runs(before, t, path[0].0, path[0].1, path[f].0, path[f].1) && forall|x: int|
                        0 <= x < f ==> region.contains(#[trigger] path[x].0 as int) && path[x].0 != from;
                let q1 = path[f].1;
                assert(runs(before, t, start, p, from, q1));
                assert(first_parts(parts@, parts@.len(), alphabet@, t, p, q1));
                assert(f < path.len() - 1) by {
                    if f == path.len() - 1 {
                        assert(path[f] == path.last());
                    }
                }
                lemma_eps_to(*self, t, path, f, accept);
                lemma_sealed_end(*self, t, path, f + 1);
                lemma_positions(*self, t, path, 0, f);
            }
        }
    }

    /// An alternation: an epsilon edge into each part's fragment, and one out
    /// of each.
    fn compile_alternation(&mut self, pattern: &Pattern, parts: &Vec<Pattern>, start: usize, accept: usize, alphabet: &Vec<char>)
        requires
            ready(*old(self), start, accept),
            *pattern == Pattern::Alternation(*parts),
        ensures
            wired(*final(self), *old(self), start, accept),
            fragment_complete(*final(self), *pattern, alphabet@, start, accept),
            fragment_sound(*final(self), *pattern, alphabet@, start, accept),
        decreases pattern, 1int,
    {
        let ghost lo = old(self).n() as int;
        let mut i: usize = 0;
        proof {
            assert forall|q: int| frag_region(accept, accept, lo, self.n() as int).contains(q) && q != accept implies #[trigger] edges_within(
                *self,
                q,
                frag_region(accept, accept, lo, self.n() as int),
            ) by {
            }
            assert forall|t: Seq<char>, p: int, m: int|
                0 <= p <= t.len() && #[trigger] runs(*self, t, start, p, accept, m) implies some_part(parts@, i as nat, alphabet@, t, p, m) by {
                let path = choose|path: Seq<(usize, int)>| #[trigger] is_run(*self, t, path) && path[0] == (start, p) && path.last() == (accept, m);
                lemma_run_len(*self, t, path, start, p, accept, m);
                lemma_sealed_end(*self, t, path, 0);
            }
        }
        while i < parts.len()
            invariant
                self.wf_graph(),
                start < lo,
                accept < lo,
                start != accept,
                lo == old(self).n(),
                lo <= self.n(),
                self.start == old(self).start,
                self.accept == old(self).accept,
                grows(*self, *old(self)),
                i <= parts.len(),
                *pattern == Pattern::Alternation(*parts),
                forall|q: int| 0 <= q < old(self).n() && q != start ==> #[trigger] same_edges(*self, *old(self), q),
                sealed(*self, accept as int),
                self.guarded_of(start as int).len() == 0,
                self.trans_of(start as int).len() == 0,
                forall|k: int|
                    0 <= k < self.eps_of(start as int).len() ==> lo <= #[trigger] self.eps_of(start as int)[k] < self.n(),
                closed(*self, frag_region(accept, accept, lo, self.n() as int), accept as int),
                forall|t: Seq<char>, p: int, m: int, k: int|
                    0 <= k < i && #[trigger] pmatch(parts@[k], alphabet@, t, p, m) ==> runs(*self, t, start, p, accept, m),
                forall|t: Seq<char>, p: int, m: int|
                    0 <= p <= t.len() && #[trigger] runs(*self, t, start, p, accept, m) ==> some_part(parts@, i as nat, alphabet@, t, p, m),
            decreases parts.len() - i,
        {
            proof {
                assert(decreases_to!(*pattern => (*pattern)->Alternation_0));
                assert(decreases_to!(*parts => parts@));
                assert(decreases_to!(parts@ => parts@[i as int]));
            }
            let ghost b0 = *self;
            let ghost region = frag_region(accept, accept, lo, b0.n() as int);
            let (sub_start, sub_accept) = self.compile(&parts[i], alphabet);
            let ghost b1 = *self;
            self.eps(start, sub_start);
            let ghost b2 = *self;
            self.eps(sub_accept, accept);
            proof {
                let inner = span(b0.n() as int, b1.n() as int);
                lemma_grows_trans(b1, b0, *old(self));
                lemma_grows_trans(b2, b1, *old(self));
                lemma_grows_trans(*self, b2, *old(self));
                lemma_grows_trans(*self, b2, b1);
                lemma_grows_trans(*self, b1, b0);
                assert(same_edges(b1, b0, start as int));
                assert(same_edges(*self, b2, start as int));
                assert(self.eps_of(start as int) == b0.eps_of(start as int).push(sub_start));
                assert(same_edges(b2, b1, sub_accept as int));
                assert(self.eps_of(sub_accept as int) =~= seq![accept]);
                assert(self.eps_of(start as int).contains(sub_start)) by {
                    assert(self.eps_of(start as int)[b0.eps_of(start as int).len() as int] == sub_start);
                }
                assert(self.eps_of(sub_accept as int).contains(accept)) by {
                    assert(self.eps_of(sub_accept as int)[0] == accept);
                }
                assert forall|q: int| 0 <= q < old(self).n() && q != start implies #[trigger] same_edges(*self, *old(self), q) by {
                    assert(same_edges(*self, b2, q));
                    assert(same_edges(b2, b1, q));
                    assert(same_edges(b1, b0, q));
                    assert(same_edges(b0, *old(self), q));
                }
                assert(same_edges(*self, b2, accept as int));
                assert(same_edges(b2, b1, accept as int));
                assert(same_edges(b1, b0, accept as int));
                assert forall|k: int|
                    0 <= k < self.eps_of(start as int).len() implies lo <= #[trigger] self.eps_of(start as int)[k] < self.n() by {
                    if k < b0.eps_of(start as int).len() {
                        assert(self.eps_of(start as int)[k] == b0.eps_of(start as int)[k]);
                    }
                }
                assert(kept(*self, b0, region, accept as int)) by {
                    assert forall|q: int| region.contains(q) && q != accept implies #[trigger] same_edges(*self, b0, q) by {
                        assert(same_edges(*self, b2, q));
                        assert(same_edges(b2, b1, q));
                        assert(same_edges(b1, b0, q));
                    }
                }
                assert(kept(*self, b1, inner, sub_accept as int)) by {
                    assert forall|q: int| inner.contains(q) && q != sub_accept implies #[trigger] same_edges(*self, b1, q) by {
                        assert(same_edges(*self, b2, q));
                        assert(same_edges(b2, b1, q));
                    }
                }
                let grown = frag_region(accept, accept, lo, self.n() as int);
                assert(region.subset_of(grown));
                assert(inner.subset_of(grown));
                assert forall|q: int| grown.contains(q) && q != accept implies #[trigger] edges_within(*self, q, grown) by {
                    if q == sub_accept {
                    } else if region.contains(q) {
                        assert(edges_within(b0, q, region));
                        assert(same_edges(*self, b0, q));
                        lemma_within_mono(*self, q, region, grown);
                    } else {
                        assert(inner.contains(q));
                        assert(edges_within(b1, q, inner));
                        assert(same_edges(*self, b1, q));
                        lemma_within_mono(*self, q, inner, grown);
                    }
                }
                assert forall|t: Seq<char>, p: int, m: int, k: int|
                    0 <= k < i + 1 && #[trigger] pmatch(parts@[k], alphabet@, t, p, m) implies runs(*self, t, start, p, accept, m) by {
                    if k < i {
                        assert(runs(b0, t, start, p, accept, m));
                        lemma_runs_grow(*self, b0, t, start, p, accept, m);
                    } else {
                        assert(runs(b1, t, sub_start, p, sub_accept, m));
                        lemma_runs_grow(*self, b1, t, sub_start, p, sub_accept, m);
                        lemma_runs_eps(*self, t, start, sub_start, p);
                        lemma_runs_eps(*self, t, sub_accept, accept, m);
                        lemma_runs_trans(*self, t, start, p, sub_start, p, sub_accept, m);
                        lemma_runs_trans(*self, t, start, p, sub_accept, m, accept, m);
                    }
                }
                assert forall|t: Seq<char>, p: int, m: int|
                    0 <= p <= t.len() && #[trigger] runs(*self, t, start, p, accept, m) implies some_part(parts@, (i + 1) as nat, alphabet@, t, p, m) by {
                    let path = choose|path: Seq<(usize, int)>| #[trigger] is_run(*self, t, path) && path[0] == (start, p) && path.last() == (accept, m);
                    lemma_run_len(*self, t, path, start, p, accept, m);
                    lemma_eps_step(*self, t, path, 0);
                    let x = path[1].0;
                    let e = self.eps_of(start as int);
                    let y = choose|y: int| 0 <= y < e.len() && e[y] == x;
                    if y == b0.eps_of(start as int).len() {
                        assert(x == sub_start);
                        lemma_through(*self, b1, inner, sub_accept as int, t, path, 1);
                        let f = choose|f: int|
                            #![trigger path[f]]
                            1 <= f < path.len() && path[f].0 == sub_accept && runs(b1, t, path[1].0, path[1].1, path[f].0, path[f].1)
                                && forall|z: int| 1 <= z < f ==> inner.contains(#[trigger] path[z].0 as int) && path[z].0 != sub_accept;
                        assert(runs(b1, t, sub_start, p, sub_accept, path[f].1));
                        assert(pmatch(parts@[i as int], alphabet@, t, p, path[f].1));
                        assert(f < path.len() - 1) by {
                            if f == path.len() - 1 {
                                assert(path[f] == path.last());
                            }
                        }
                        lemma_eps_to(*self, t, path, f, accept);
                        lemma_sealed_end(*self, t, path, f + 1);
                    } else {
                        assert(x == b0.eps_of(start as int)[y]);
                        assert(region.contains(x as int));
                        lemma_closed_kept(*self, b0, region, accept as int);
                        lemma_escape(*self, region, accept as int, t, path, 1);
                        if forall|z: int| 1 <= z < path.len() ==> region.contains(#[trigger] path[z].0 as int) && path[z].0 != accept {
                            assert(region.contains(path[path.len() - 1].0 as int) && path[path.len() - 1].0 != accept);
                        } else {
                            let f = choose|f: int|
                                #![trigger path[f]]
                                1 <= f < path.len() && path[f].0 == accept && forall|z: int|
                                    1 <= z < f ==> region.contains(#[trigger] path[z].0 as int) && path[z].0 != accept;
                            lemma_sealed_end(*self, t, path, f);
                            assert forall|z: int| 1 <= z < f implies #[trigger] same_edges(*self, b0, path[z].0 as int) && path[z].0 < b0.n() by {
                                assert(region.contains(path[z].0 as int) && path[z].0 != accept);
                            }
                            lemma_restrict(*self, b0, t, path, 1, f);
                            assert(b0.eps_of(start as int).contains(x)) by {
                                assert(b0.eps_of(start as int)[y] == x);
                            }
                            lemma_runs_eps(b0, t, start, x, p);
                            lemma_runs_trans(b0, t, start, p, x, p, accept, m);
                            assert(some_part(parts@, i as nat, alphabet@, t, p, m));
                        }
                    }
                }
            }
            i = i + 1;
        }
        proof {
            let region = frag_region(accept, accept, lo, self.n() as int);
            let whole = frag_region(start, accept, lo, self.n() as int);
            assert(region.subset_of(whole));
            assert forall|q: int| whole.contains(q) && q != accept implies #[trigger] edges_within(*self, q, whole) by {
                if q == start {
                } else {
                    assert(region.contains(q));
                    assert(edges_within(*self, q, region));
                    lemma_within_mono(*self, q, region, whole);
                }
            }
            assert forall|t: Seq<char>, p: int, q: int| #[trigger] pmatch(*pattern, alphabet@, t, p, q) implies runs(
                *self,
                t,
                start,
                p,
                accept,
                q,
            ) by {
                lemma_some_part(parts@, parts@.len(), alphabet@, t, p, q);
                let k = choose|k: int| 0 <= k < parts@.len() && #[trigger] pmatch(parts@[k], alphabet@, t, p, q);
                assert(pmatch(parts@[k], alphabet@, t, p, q));
            }
            assert forall|t: Seq<char>, p: int, m: int|
                0 <= p <= t.len() && #[trigger] runs(*self, t, start, p, accept, m) implies pmatch(*pattern, alphabet@, t, p, m) by {
                assert(some_part(parts@, parts@.len(), alphabet@, t, p, m));
                let path = choose|path: Seq<(usize, int)>| #[trigger] is_run(*self, t, path) && path[0] == (start, p) && path.last() == (accept, m);
                lemma_positions(*self, t, path, 0, path.len() - 1);
            }
        }
    }

    /// Wires `sub` repeated between `min` and `max` times from `start` to
    /// `accept`: any number from `min` on where `max` is `None`, and just
    /// `min` where `max` is below it.
    #[verifier::rlimit(60)]
    fn compile_repetition(
        &mut self,
        pattern: &Pattern,
        min: u32,
        max: Option<u32>,
        sub: &Box<Pattern>,
        start: usize,
        accept: usize,
        alphabet: &Vec<char>,
    )
        requires
            ready(*old(self), start, accept),
            *pattern == (Pattern::Repetition { min, max, sub: *sub }),
        ensures
            wired(*final(self), *old(self), start, accept),
            fragment_complete(*final(self), *pattern, alphabet@, start, accept),
            fragment_sound(*final(self), *pattern, alphabet@, start, accept),
        decreases pattern, 1int,
    {
        let ghost lo = old(self).n() as int;
        let mut from = start;
        let mut last: Option<usize> = None;
        let ghost mut last_nfa = *self;
        let mut k: u32 = 0;
        proof {
            lemma_grows_refl(*self);
            assert forall|t: Seq<char>, p: int, q: int, n: nat| n == k && #[trigger] copies_n(**sub, n, alphabet@, t, p, q) implies runs(
                *self,
                t,
                start,
                p,
                from,
                q,
            ) by {
                lemma_runs_refl(*self, t, start, p);
            }
            assert forall|q: int| frag_region(start, start, lo, self.n() as int).contains(q) && q != from implies #[trigger] edges_within(
                *self,
                q,
                frag_region(start, start, lo, self.n() as int),
            ) by {
            }
            assert forall|t: Seq<char>, p: int, q: int|
                0 <= p <= t.len() && #[trigger] runs(*self, t, start, p, from, q) implies copies_n(**sub, k as nat, alphabet@, t, p, q) by {
                let path = choose|path: Seq<(usize, int)>| #[trigger] is_run(*self, t, path) && path[0] == (start, p) && path.last() == (from, q);
                lemma_sealed_end(*self, t, path, 0);
            }
        }
        while k < min
            invariant
                self.wf_graph(),
                from < self.n(),
                start < lo,
                accept < lo,
                start != accept,
                lo == old(self).n(),
                lo <= self.n(),
                from == start || lo <= from,
                self.start == old(self).start,
                self.accept == old(self).accept,
                grows(*self, *old(self)),
                k <= min,
                *pattern == (Pattern::Repetition { min, max, sub: *sub }),
                last is None <==> k == 0,
                k == 0 ==> from == start && self.n() == lo,
                forall|q: int| 0 <= q < old(self).n() && q != start ==> #[trigger] same_edges(*self, *old(self), q),
                sealed(*self, from as int),
                sealed(*self, accept as int),
                closed(*self, frag_region(start, start, lo, self.n() as int), from as int),
                last matches Some(ls) ==> {
                    &&& lo <= ls
                    &&& from == ls + 1
                    &&& last_nfa.n() == self.n()
                    &&& closed(last_nfa, span(ls as int, self.n() as int), from as int)
                    &&& kept(*self, last_nfa, span(ls as int, self.n() as int), from as int)
                    &&& fragment_sound(last_nfa, **sub, alphabet@, ls, from)
                    &&& fragment_complete(*self, **sub, alphabet@, ls, from)
                },
                forall|t: Seq<char>, p: int, q: int, n: nat| n == k && #[trigger] copies_n(**sub, n, alphabet@, t, p, q) ==> runs(
                    *self,
                    t,
                    start,
                    p,
                    from,
                    q,
                ),
                forall|t: Seq<char>, p: int, q: int|
                    0 <= p <= t.len() && #[trigger] runs(*self, t, start, p, from, q) ==> copies_n(**sub, k as nat, alphabet@, t, p, q),
            decreases min - k,
        {
            let ghost b0 = *self;
            let ghost from0 = from;
            let ghost region = frag_region(start, start, lo, b0.n() as int);
            proof {
                assert(decreases_to!(*pattern => (*pattern)->sub));
            }
            let (sub_start, sub_accept) = self.compile(sub, alphabet);
            let ghost b1 = *self;
            self.eps(from, sub_start);
            proof {
                let inner = span(b0.n() as int, b1.n() as int);
                lemma_grows_trans(b1, b0, *old(self));
                lemma_grows_trans(*self, b1, *old(self));
                lemma_grows_trans(*self, b1, b0);
                assert(same_edges(b1, b0, from0 as int));
                assert(self.eps_of(from0 as int) =~= seq![sub_start]);
                assert(self.eps_of(from0 as int).contains(sub_start)) by {
                    assert(self.eps_of(from0 as int)[0] == sub_start);
                }
                lemma_fragment_grow(*self, b1, **sub, alphabet@, sub_start, sub_accept);
                lemma_step_copies(*self, b0, **sub, alphabet@, start, from0, sub_start, sub_accept, k as nat);
                assert forall|q: int| 0 <= q < old(self).n() && q != start implies #[trigger] same_edges(*self, *old(self), q) by {
                    assert(same_edges(*self, b1, q));
                    assert(same_edges(b1, b0, q));
                    assert(same_edges(b0, *old(self), q));
                }
                assert(same_edges(*self, b1, sub_accept as int));
                assert(same_edges(*self, b1, accept as int));
                assert(same_edges(b1, b0, accept as int));
                assert(kept(*self, b0, region, from0 as int)) by {
                    assert forall|q: int| region.contains(q) && q != from0 implies #[trigger] same_edges(*self, b0, q) by {
                        assert(same_edges(*self, b1, q));
                        assert(same_edges(b1, b0, q));
                    }
                }
                assert(kept(*self, b1, inner, sub_accept as int)) by {
                    assert forall|q: int| inner.contains(q) && q != sub_accept implies #[trigger] same_edges(*self, b1, q) by {
                        assert(same_edges(*self, b1, q));
                    }
                }
                let grown = frag_region(start, start, lo, self.n() as int);
                assert(region.subset_of(grown));
                assert(inner.subset_of(grown));
                assert forall|q: int| grown.contains(q) && q != sub_accept implies #[trigger] edges_within(*self, q, grown) by {
                    if q == from0 {
                    } else if region.contains(q) {
                        assert(edges_within(b0, q, region));
                        assert(same_edges(*self, b0, q));
                        lemma_within_mono(*self, q, region, grown);
                    } else {
                        assert(inner.contains(q));
                        assert(edges_within(b1, q, inner));
                        assert(same_edges(*self, b1, q));
                        lemma_within_mono(*self, q, inner, grown);
                    }
                }
                assert forall|t: Seq<char>, p: int, q: int|
                    0 <= p <= t.len() && #[trigger] runs(*self, t, start, p, sub_accept, q) implies copies_n(
                    **sub,
                    (k + 1) as nat,
                    alphabet@,
                    t,
                    p,
                    q,
                ) by {
                    let path = choose|path: Seq<(usize, int)>| #[trigger] is_run(*self, t, path) && path[0] == (start, p) && path.last() == (sub_accept, q);
                    lemma_through(*self, b0, region, from0 as int, t, path, 0);
                    let f = choose|f: int|
                        #![trigger path[f]]
                        0 <= f < path.len() && path[f].0 == from0 && runs(b0, t, path[0].0, path[0].1, path[f].0, path[f].1) && forall|x: int|
                            0 <= x < f ==> region.contains(#[trigger] path[x].0 as int) && path[x].0 != from0;
                    let q1 = path[f].1;
                    assert(runs(b0, t, start, p, from0, q1));
                    assert(copies_n(**sub, k as nat, alphabet@, t, p, q1));
                    assert(f < path.len() - 1) by {
                        if f == path.len() - 1 {
                            assert(path[f] == path.last());
                        }
                    }
                    lemma_eps_to(*self, t, path, f, sub_start);
                    lemma_positions(*self, t, path, 0, f);
                    lemma_through(*self, b1, inner, sub_accept as int, t, path, f + 1);
                    let g = choose|g: int|
                        #![trigger path[g]]
                        f + 1 <= g < path.len() && path[g].0 == sub_accept && runs(b1, t, path[f + 1].0, path[f + 1].1, path[g].0, path[g].1)
                            && forall|x: int| f + 1 <= x < g ==> inner.contains(#[trigger] path[x].0 as int) && path[x].0 != sub_accept;
                    assert(runs(b1, t, sub_start, q1, sub_accept, path[g].1));
                    assert(pmatch(**sub, alphabet@, t, q1, path[g].1));
                    lemma_sealed_end(*self, t, path, g);
                    assert(copies_n(**sub, k as nat, alphabet@, t, p, q1) && pmatch(**sub, alphabet@, t, q1, q));
                }
            }
            last = Some(sub_start);
            proof {
                last_nfa = b1;
            }
            from = sub_accept;
            k = k + 1;
        }
        let ghost mid = *self;
        let ghost chain = frag_region(start, start, lo, mid.n() as int);
        match (max, last) {
            // Reuse the last mandatory copy for `x{n,}` to avoid expanding
            // nested quantifiers.
            (None, Some(sub_start)) => {
                self.eps(from, sub_start);
                let ghost b1 = *self;
                self.eps(from, accept);
                proof {
                    let inner = span(sub_start as int, mid.n() as int);
                    lemma_grows_trans(b1, mid, *old(self));
                    lemma_grows_trans(*self, b1, *old(self));
                    lemma_grows_trans(*self, b1, mid);
                    assert(self.eps_of(from as int) =~= seq![sub_start, accept]);
                    assert(self.eps_of(from as int).contains(sub_start)) by {
                        assert(self.eps_of(from as int)[0] == sub_start);
                    }
                    assert(self.eps_of(from as int).contains(accept)) by {
                        assert(self.eps_of(from as int)[1] == accept);
                    }
                    lemma_fragment_grow(*self, mid, **sub, alphabet@, sub_start, from);
                    assert forall|q: int| 0 <= q < old(self).n() && q != start implies #[trigger] same_edges(*self, *old(self), q) by {
                        assert(same_edges(*self, b1, q));
                        assert(same_edges(b1, mid, q));
                        assert(same_edges(mid, *old(self), q));
                    }
                    assert(same_edges(*self, b1, accept as int));
                    assert(same_edges(b1, mid, accept as int));
                    assert(kept(*self, mid, chain, from as int)) by {
                        assert forall|q: int| chain.contains(q) && q != from implies #[trigger] same_edges(*self, mid, q) by {
                            assert(same_edges(*self, b1, q));
                            assert(same_edges(b1, mid, q));
                        }
                    }
                    assert(kept(*self, mid, inner, from as int)) by {
                        assert forall|q: int| inner.contains(q) && q != from implies #[trigger] same_edges(*self, mid, q) by {
                            assert(same_edges(*self, b1, q));
                            assert(same_edges(b1, mid, q));
                        }
                    }
                    lemma_kept_trans(*self, mid, last_nfa, inner, from as int);
                    let whole = frag_region(start, accept, lo, self.n() as int);
                    assert(chain.subset_of(whole));
                    assert forall|q: int| whole.contains(q) && q != accept implies #[trigger] edges_within(*self, q, whole) by {
                        if q == from {
                        } else {
                            assert(chain.contains(q));
                            assert(edges_within(mid, q, chain));
                            assert(same_edges(*self, mid, q));
                            lemma_within_mono(*self, q, chain, whole);
                        }
                    }
                    assert forall|t: Seq<char>, p: int, q: int, n: nat|
                        allowed_count(n, min as nat, count_bound(max)) && #[trigger] copies_n(**sub, n, alphabet@, t, p, q) implies runs(
                        *self,
                        t,
                        start,
                        p,
                        accept,
                        q,
                    ) by {
                        lemma_copies_loop(*self, mid, **sub, alphabet@, start, from, sub_start, min as nat, n, t, p, q);
                        lemma_runs_eps(*self, t, from, accept, q);
                        lemma_runs_trans(*self, t, start, p, from, q, accept, q);
                    }
                    assert forall|t: Seq<char>, p: int, m: int|
                        0 <= p <= t.len() && #[trigger] runs(*self, t, start, p, accept, m) implies exists|n: nat|
                        allowed_count(n, min as nat, count_bound(max)) && #[trigger] copies_n(**sub, n, alphabet@, t, p, m) by {
                        let path = choose|path: Seq<(usize, int)>| #[trigger] is_run(*self, t, path) && path[0] == (start, p) && path.last() == (accept, m);
                        lemma_through(*self, mid, chain, from as int, t, path, 0);
                        let f = choose|f: int|
                            #![trigger path[f]]
                            0 <= f < path.len() && path[f].0 == from && runs(mid, t, path[0].0, path[0].1, path[f].0, path[f].1) && forall|x: int|
                                0 <= x < f ==> chain.contains(#[trigger] path[x].0 as int) && path[x].0 != from;
                        assert(runs(mid, t, start, p, from, path[f].1));
                        assert(copies_n(**sub, min as nat, alphabet@, t, p, path[f].1));
                        lemma_positions(*self, t, path, 0, f);
                        lemma_loop_walk(*self, last_nfa, **sub, alphabet@, t, path, f, sub_start, from, accept, inner, min as nat, p);
                        let n = choose|n: nat| min <= n && #[trigger] copies_n(**sub, n, alphabet@, t, p, path.last().1);
                        assert(allowed_count(n, min as nat, count_bound(max)));
                    }
                    self.lemma_repetition_ends(pattern, min, max, sub, start, accept, alphabet@);
                }
            },
            (None, None) => {
                proof {
                    assert(decreases_to!(*pattern => (*pattern)->sub));
                }
                let (sub_start, sub_accept) = self.compile(sub, alphabet);
                let ghost b1 = *self;
                self.eps(from, sub_start);
                let ghost b2 = *self;
                self.eps(sub_accept, sub_start);
                let ghost b3 = *self;
                self.eps(sub_accept, accept);
                let ghost b4 = *self;
                self.eps(from, accept);
                proof {
                    let inner = span(mid.n() as int, b1.n() as int);
                    lemma_grows_trans(b1, mid, *old(self));
                    lemma_grows_trans(b2, b1, *old(self));
                    lemma_grows_trans(b3, b2, *old(self));
                    lemma_grows_trans(b4, b3, *old(self));
                    lemma_grows_trans(*self, b4, *old(self));
                    lemma_grows_trans(b3, b2, b1);
                    lemma_grows_trans(b4, b3, b1);
                    lemma_grows_trans(*self, b4, b1);
                    assert(min == 0);
                    assert(from == start);
                    assert(same_edges(b1, mid, start as int));
                    assert(same_edges(b3, b2, start as int));
                    assert(same_edges(b4, b3, start as int));
                    assert(self.eps_of(start as int) =~= seq![sub_start, accept]);
                    assert(same_edges(b2, b1, sub_accept as int));
                    assert(same_edges(*self, b4, sub_accept as int));
                    assert(self.eps_of(sub_accept as int) =~= seq![sub_start, accept]);
                    lemma_fragment_grow(*self, b1, **sub, alphabet@, sub_start, sub_accept);
                    assert(self.eps_of(start as int).contains(sub_start)) by {
                        assert(self.eps_of(start as int)[0] == sub_start);
                    }
                    assert(self.eps_of(start as int).contains(accept)) by {
                        assert(self.eps_of(start as int)[1] == accept);
                    }
                    assert(self.eps_of(sub_accept as int).contains(sub_start)) by {
                        assert(self.eps_of(sub_accept as int)[0] == sub_start);
                    }
                    assert(self.eps_of(sub_accept as int).contains(accept)) by {
                        assert(self.eps_of(sub_accept as int)[1] == accept);
                    }
                    assert forall|q: int| 0 <= q < old(self).n() && q != start implies #[trigger] same_edges(*self, *old(self), q) by {
                        assert(same_edges(*self, b4, q));
                        assert(same_edges(b4, b3, q));
                        assert(same_edges(b3, b2, q));
                        assert(same_edges(b2, b1, q));
                        assert(same_edges(b1, mid, q));
                        assert(same_edges(mid, *old(self), q));
                    }
                    assert(same_edges(*self, b4, accept as int));
                    assert(same_edges(b4, b3, accept as int));
                    assert(same_edges(b3, b2, accept as int));
                    assert(same_edges(b2, b1, accept as int));
                    assert(same_edges(b1, mid, accept as int));
                    assert(kept(*self, b1, inner, sub_accept as int)) by {
                        assert forall|q: int| inner.contains(q) && q != sub_accept implies #[trigger] same_edges(*self, b1, q) by {
                            assert(same_edges(*self, b4, q));
                            assert(same_edges(b4, b3, q));
                            assert(same_edges(b3, b2, q));
                            assert(same_edges(b2, b1, q));
                        }
                    }
                    let whole = frag_region(start, accept, lo, self.n() as int);
                    assert(inner.subset_of(whole));
                    assert forall|q: int| whole.contains(q) && q != accept implies #[trigger] edges_within(*self, q, whole) by {
                        if q == start || q == sub_accept {
                        } else {
                            assert(inner.contains(q));
                            assert(edges_within(b1, q, inner));
                            assert(same_edges(*self, b1, q));
                            lemma_within_mono(*self, q, inner, whole);
                        }
                    }
                    assert forall|t: Seq<char>, p: int, q: int, n: nat|
                        allowed_count(n, min as nat, count_bound(max)) && #[trigger] copies_n(**sub, n, alphabet@, t, p, q) implies runs(
                        *self,
                        t,
                        start,
                        p,
                        accept,
                        q,
                    ) by {
                        if n == 0 {
                            lemma_runs_eps(*self, t, start, accept, p);
                        } else {
                            lemma_copies_star(*self, **sub, alphabet@, start, sub_start, sub_accept, n, t, p, q);
                            lemma_runs_eps(*self, t, sub_accept, accept, q);
                            lemma_runs_trans(*self, t, start, p, sub_accept, q, accept, q);
                        }
                    }
                    assert forall|t: Seq<char>, p: int, m: int|
                        0 <= p <= t.len() && #[trigger] runs(*self, t, start, p, accept, m) implies exists|n: nat|
                        allowed_count(n, min as nat, count_bound(max)) && #[trigger] copies_n(**sub, n, alphabet@, t, p, m) by {
                        let path = choose|path: Seq<(usize, int)>| #[trigger] is_run(*self, t, path) && path[0] == (start, p) && path.last() == (accept, m);
                        lemma_run_len(*self, t, path, start, p, accept, m);
                        lemma_eps_step(*self, t, path, 0);
                        let e = self.eps_of(start as int);
                        let y = choose|y: int| 0 <= y < e.len() && e[y] == path[1].0;
                        if y == 1 {
                            lemma_sealed_end(*self, t, path, 1);
                            assert(copies_n(**sub, 0, alphabet@, t, p, m));
                            assert(allowed_count(0, min as nat, count_bound(max)));
                        } else {
                            lemma_through(*self, b1, inner, sub_accept as int, t, path, 1);
                            let f = choose|f: int|
                                #![trigger path[f]]
                                1 <= f < path.len() && path[f].0 == sub_accept && runs(b1, t, path[1].0, path[1].1, path[f].0, path[f].1)
                                    && forall|x: int| 1 <= x < f ==> inner.contains(#[trigger] path[x].0 as int) && path[x].0 != sub_accept;
                            assert(runs(b1, t, sub_start, p, sub_accept, path[f].1));
                            assert(pmatch(**sub, alphabet@, t, p, path[f].1));
                            assert(copies_n(**sub, 0, alphabet@, t, p, p) && pmatch(**sub, alphabet@, t, p, path[f].1));
                            assert(copies_n(**sub, 1, alphabet@, t, p, path[f].1));
                            lemma_positions(*self, t, path, 0, f);
                            lemma_loop_walk(*self, b1, **sub, alphabet@, t, path, f, sub_start, sub_accept, accept, inner, 1, p);
                            let n = choose|n: nat| 1 <= n && #[trigger] copies_n(**sub, n, alphabet@, t, p, path.last().1);
                            assert(allowed_count(n, min as nat, count_bound(max)));
                        }
                    }
                    self.lemma_repetition_ends(pattern, min, max, sub, start, accept, alphabet@);
                }
            },
            (Some(max_copies), _) => {
                self.compile_optional_copies(pattern, min, max_copies, sub, start, accept, from, alphabet, Ghost(lo));
                proof {
                    lemma_grows_trans(*self, mid, *old(self));
                    assert forall|q: int| 0 <= q < old(self).n() && q != start implies #[trigger] same_edges(*self, *old(self), q) by {
                        assert(same_edges(*self, mid, q));
                        assert(same_edges(mid, *old(self), q));
                    }
                    self.lemma_repetition_ends(pattern, min, max, sub, start, accept, alphabet@);
                }
            },
        }
    }

    /// After `min` mandatory copies ending at `entry`, up to `max` copies in
    /// all: before each optional copy an edge leaves for `accept`.
    #[verifier::rlimit(60)]
    fn compile_optional_copies(
        &mut self,
        pattern: &Pattern,
        min: u32,
        max: u32,
        sub: &Box<Pattern>,
        start: usize,
        accept: usize,
        entry: usize,
        alphabet: &Vec<char>,
        Ghost(lo): Ghost<int>,
    )
        requires
            old(self).wf_graph(),
            *pattern == (Pattern::Repetition { min, max: Some(max), sub: *sub }),
            entry < old(self).n(),
            start < lo,
            accept < lo,
            start != accept,
            lo <= old(self).n(),
            entry == start || lo <= entry,
            sealed(*old(self), entry as int),
            sealed(*old(self), accept as int),
            closed(*old(self), frag_region(start, start, lo, old(self).n() as int), entry as int),
            forall|t: Seq<char>, p: int, q: int, n: nat| n == min && #[trigger] copies_n(**sub, n, alphabet@, t, p, q) ==> runs(
                *old(self),
                t,
                start,
                p,
                entry,
                q,
            ),
            forall|t: Seq<char>, p: int, q: int|
                0 <= p <= t.len() && #[trigger] runs(*old(self), t, start, p, entry, q) ==> copies_n(**sub, min as nat, alphabet@, t, p, q),
        ensures
            final(self).wf_graph(),
            old(self).n() <= final(self).n(),
            final(self).start == old(self).start,
            final(self).accept == old(self).accept,
            grows(*final(self), *old(self)),
            forall|q: int| 0 <= q < old(self).n() && q != entry ==> #[trigger] same_edges(*final(self), *old(self), q),
            closed(*final(self), frag_region(start, accept, lo, final(self).n() as int), accept as int),
            sealed(*final(self), accept as int),
            forall|t: Seq<char>, p: int, q: int, n: nat|
                allowed_count(n, min as nat, count_bound(Some(max))) && #[trigger] copies_n(**sub, n, alphabet@, t, p, q) ==> runs(
                    *final(self),
                    t,
                    start,
                    p,
                    accept,
                    q,
                ),
            forall|t: Seq<char>, p: int, m: int|
                0 <= p <= t.len() && #[trigger] runs(*final(self), t, start, p, accept, m) ==> exists|n: nat|
                    allowed_count(n, min as nat, count_bound(Some(max))) && #[trigger] copies_n(**sub, n, alphabet@, t, p, m),
        decreases pattern, 0int,
    {
        let mut from = entry;
        let mut k: u32 = min;
        proof {
            lemma_grows_refl(*self);
            let chain = frag_region(start, start, lo, self.n() as int);
            let region = frag_region(start, accept, lo, self.n() as int);
            assert(chain.subset_of(region));
            assert forall|q: int| region.contains(q) && q != from implies #[trigger] edges_within(*self, q, region) by {
                if q != accept {
                    assert(chain.contains(q));
                    assert(edges_within(*self, q, chain));
                    lemma_within_mono(*self, q, chain, region);
                }
            }
            assert forall|t: Seq<char>, p: int, m: int|
                0 <= p <= t.len() && #[trigger] runs(*self, t, start, p, accept, m) implies exists|n: nat|
                min <= n < k && #[trigger] copies_n(**sub, n, alphabet@, t, p, m) by {
                let path = choose|path: Seq<(usize, int)>| #[trigger] is_run(*self, t, path) && path[0] == (start, p) && path.last() == (accept, m);
                lemma_escape(*self, chain, from as int, t, path, 0);
                if forall|z: int| 0 <= z < path.len() ==> chain.contains(#[trigger] path[z].0 as int) && path[z].0 != from {
                    assert(chain.contains(path[path.len() - 1].0 as int));
                } else {
                    let f = choose|f: int|
                        #![trigger path[f]]
                        0 <= f < path.len() && path[f].0 == from && forall|z: int|
                            0 <= z < f ==> chain.contains(#[trigger] path[z].0 as int) && path[z].0 != from;
                    lemma_sealed_end(*self, t, path, f);
                }
            }
        }
        while k < max
            invariant
                self.wf_graph(),
                from < self.n(),
                start < lo,
                accept < lo,
                start != accept,
                lo <= old(self).n(),
                old(self).n() <= self.n(),
                from == start || lo <= from,
                from == entry || old(self).n() <= from,
                self.start == old(self).start,
                self.accept == old(self).accept,
                grows(*self, *old(self)),
                min <= k,
                k == min || k <= max,
                *pattern == (Pattern::Repetition { min, max: Some(max), sub: *sub }),
                forall|q: int| 0 <= q < old(self).n() && q != entry ==> #[trigger] same_edges(*self, *old(self), q),
                sealed(*self, from as int),
                sealed(*self, accept as int),
                closed(*self, frag_region(start, accept, lo, self.n() as int), from as int),
                forall|t: Seq<char>, p: int, q: int, n: nat| n == k && #[trigger] copies_n(**sub, n, alphabet@, t, p, q) ==> runs(
                    *self,
                    t,
                    start,
                    p,
                    from,
                    q,
                ),
                forall|t: Seq<char>, p: int, q: int, n: nat|
                    min <= n < k && #[trigger] copies_n(**sub, n, alphabet@, t, p, q) ==> runs(*self, t, start, p, accept, q),
                forall|t: Seq<char>, p: int, q: int|
                    0 <= p <= t.len() && #[trigger] runs(*self, t, start, p, from, q) ==> copies_n(**sub, k as nat, alphabet@, t, p, q),
                forall|t: Seq<char>, p: int, m: int|
                    0 <= p <= t.len() && #[trigger] runs(*self, t, start, p, accept, m) ==> exists|n: nat|
                        min <= n < k && #[trigger] copies_n(**sub, n, alphabet@, t, p, m),
            decreases max - k,
        {
            let ghost b0 = *self;
            let ghost from0 = from;
            let ghost region = frag_region(start, accept, lo, b0.n() as int);
            self.eps(from, accept);
            let ghost ba = *self;
            proof {
                assert(decreases_to!(*pattern => (*pattern)->sub));
            }
            let (sub_start, sub_accept) = self.compile(sub, alphabet);
            let ghost bb = *self;
            self.eps(from, sub_start);
            proof {
                let inner = span(ba.n() as int, bb.n() as int);
                lemma_grows_trans(ba, b0, *old(self));
                lemma_grows_trans(bb, ba, *old(self));
                lemma_grows_trans(*self, bb, *old(self));
                lemma_grows_trans(bb, ba, b0);
                lemma_grows_trans(*self, bb, b0);
                lemma_grows_trans(*self, bb, ba);
                assert(same_edges(bb, ba, from0 as int));
                assert(self.eps_of(from0 as int) =~= seq![accept, sub_start]);
                assert(self.eps_of(from0 as int).contains(accept)) by {
                    assert(self.eps_of(from0 as int)[0] == accept);
                }
                assert(self.eps_of(from0 as int).contains(sub_start)) by {
                    assert(self.eps_of(from0 as int)[1] == sub_start);
                }
                lemma_fragment_grow(*self, bb, **sub, alphabet@, sub_start, sub_accept);
                lemma_step_copies(*self, b0, **sub, alphabet@, start, from0, sub_start, sub_accept, k as nat);
                assert forall|q: int| 0 <= q < old(self).n() && q != entry implies #[trigger] same_edges(*self, *old(self), q) by {
                    assert(same_edges(*self, bb, q));
                    assert(same_edges(bb, ba, q));
                    assert(same_edges(ba, b0, q));
                    assert(same_edges(b0, *old(self), q));
                }
                assert(same_edges(*self, bb, sub_accept as int));
                assert(same_edges(*self, bb, accept as int));
                assert(same_edges(bb, ba, accept as int));
                assert(same_edges(ba, b0, accept as int));
                assert(kept(*self, b0, region, from0 as int)) by {
                    assert forall|q: int| region.contains(q) && q != from0 implies #[trigger] same_edges(*self, b0, q) by {
                        assert(same_edges(*self, bb, q));
                        assert(same_edges(bb, ba, q));
                        assert(same_edges(ba, b0, q));
                    }
                }
                assert(kept(*self, bb, inner, sub_accept as int)) by {
                    assert forall|q: int| inner.contains(q) && q != sub_accept implies #[trigger] same_edges(*self, bb, q) by {
                        assert(same_edges(*self, bb, q));
                    }
                }
                let grown = frag_region(start, accept, lo, self.n() as int);
                assert(region.subset_of(grown));
                assert(inner.subset_of(grown));
                assert forall|q: int| grown.contains(q) && q != sub_accept implies #[trigger] edges_within(*self, q, grown) by {
                    if q == from0 {
                    } else if region.contains(q) {
                        assert(edges_within(b0, q, region));
                        assert(same_edges(*self, b0, q));
                        lemma_within_mono(*self, q, region, grown);
                    } else {
                        assert(inner.contains(q));
                        assert(edges_within(bb, q, inner));
                        assert(same_edges(*self, bb, q));
                        lemma_within_mono(*self, q, inner, grown);
                    }
                }
                assert forall|t: Seq<char>, p: int, q: int, n: nat|
                    min <= n < k + 1 && #[trigger] copies_n(**sub, n, alphabet@, t, p, q) implies runs(*self, t, start, p, accept, q) by {
                    if n < k {
                        assert(runs(b0, t, start, p, accept, q));
                        lemma_runs_grow(*self, b0, t, start, p, accept, q);
                    } else {
                        assert(runs(b0, t, start, p, from0, q));
                        lemma_runs_grow(*self, b0, t, start, p, from0, q);
                        lemma_runs_eps(*self, t, from0, accept, q);
                        lemma_runs_trans(*self, t, start, p, from0, q, accept, q);
                    }
                }
                assert forall|t: Seq<char>, p: int, q: int|
                    0 <= p <= t.len() && #[trigger] runs(*self, t, start, p, sub_accept, q) implies copies_n(
                    **sub,
                    (k + 1) as nat,
                    alphabet@,
                    t,
                    p,
                    q,
                ) by {
                    let path = choose|path: Seq<(usize, int)>| #[trigger] is_run(*self, t, path) && path[0] == (start, p) && path.last() == (sub_accept, q);
                    lemma_through(*self, b0, region, from0 as int, t, path, 0);
                    let f = choose|f: int|
                        #![trigger path[f]]
                        0 <= f < path.len() && path[f].0 == from0 && runs(b0, t, path[0].0, path[0].1, path[f].0, path[f].1) && forall|x: int|
                            0 <= x < f ==> region.contains(#[trigger] path[x].0 as int) && path[x].0 != from0;
                    let q1 = path[f].1;
                    assert(runs(b0, t, start, p, from0, q1));
                    assert(copies_n(**sub, k as nat, alphabet@, t, p, q1));
                    assert(f < path.len() - 1) by {
                        if f == path.len() - 1 {
                            assert(path[f] == path.last());
                        }
                    }
                    lemma_eps_step(*self, t, path, f);
                    let e = self.eps_of(from0 as int);
                    let y = choose|y: int| 0 <= y < e.len() && e[y] == path[f + 1].0;
                    if y == 0 {
                        lemma_sealed_end(*self, t, path, f + 1);
                    } else {
                        lemma_positions(*self, t, path, 0, f);
                        lemma_through(*self, bb, inner, sub_accept as int, t, path, f + 1);
                        let g = choose|g: int|
                            #![trigger path[g]]
                            f + 1 <= g < path.len() && path[g].0 == sub_accept && runs(bb, t, path[f + 1].0, path[f + 1].1, path[g].0, path[g].1)
                                && forall|x: int| f + 1 <= x < g ==> inner.contains(#[trigger] path[x].0 as int) && path[x].0 != sub_accept;
                        assert(runs(bb, t, sub_start, q1, sub_accept, path[g].1));
                        assert(pmatch(**sub, alphabet@, t, q1, path[g].1));
                        lemma_sealed_end(*self, t, path, g);
                        assert(copies_n(**sub, k as nat, alphabet@, t, p, q1) && pmatch(**sub, alphabet@, t, q1, q));
                    }
                }
                assert forall|t: Seq<char>, p: int, m: int|
                    0 <= p <= t.len() && #[trigger] runs(*self, t, start, p, accept, m) implies exists|n: nat|
                    min <= n < k + 1 && #[trigger] copies_n(**sub, n, alphabet@, t, p, m) by {
                    let path = choose|path: Seq<(usize, int)>| #[trigger] is_run(*self, t, path) && path[0] == (start, p) && path.last() == (accept, m);
                    lemma_closed_kept(*self, b0, region, from0 as int);
                    lemma_escape(*self, region, from0 as int, t, path, 0);
                    if forall|z: int| 0 <= z < path.len() ==> region.contains(#[trigger] path[z].0 as int) && path[z].0 != from0 {
                        assert forall|z: int| 0 <= z < path.len() - 1 implies #[trigger] same_edges(*self, b0, path[z].0 as int) && path[z].0
                            < b0.n() by {
                            assert(region.contains(path[z].0 as int) && path[z].0 != from0);
                        }
                        lemma_restrict(*self, b0, t, path, 0, path.len() - 1);
                        assert(runs(b0, t, start, p, accept, m));
                        let n = choose|n: nat| min <= n < k && #[trigger] copies_n(**sub, n, alphabet@, t, p, m);
                        assert(min <= n < k + 1 && copies_n(**sub, n, alphabet@, t, p, m));
                    } else {
                        let f = choose|f: int|
                            #![trigger path[f]]
                            0 <= f < path.len() && path[f].0 == from0 && forall|z: int|
                                0 <= z < f ==> region.contains(#[trigger] path[z].0 as int) && path[z].0 != from0;
                        assert forall|z: int| 0 <= z < f implies #[trigger] same_edges(*self, b0, path[z].0 as int) && path[z].0 < b0.n() by {
                            assert(region.contains(path[z].0 as int) && path[z].0 != from0);
                        }
                        lemma_restrict(*self, b0, t, path, 0, f);
                        let q1 = path[f].1;
                        assert(runs(b0, t, start, p, from0, q1));
                        assert(copies_n(**sub, k as nat, alphabet@, t, p, q1));
                        assert(f < path.len() - 1) by {
                            if f == path.len() - 1 {
                                assert(path[f] == path.last());
                            }
                        }
                        lemma_eps_step(*self, t, path, f);
                        let e = self.eps_of(from0 as int);
                        let y = choose|y: int| 0 <= y < e.len() && e[y] == path[f + 1].0;
                        if y == 0 {
                            lemma_sealed_end(*self, t, path, f + 1);
                            assert(min <= k < k + 1 && copies_n(**sub, k as nat, alphabet@, t, p, m));
                        } else {
                            lemma_positions(*self, t, path, 0, f);
                            lemma_through(*self, bb, inner, sub_accept as int, t, path, f + 1);
                            let g = choose|g: int|
                                #![trigger path[g]]
                                f + 1 <= g < path.len() && path[g].0 == sub_accept && runs(bb, t, path[f + 1].0, path[f + 1].1, path[g].0, path[g].1)
                                    && forall|x: int| f + 1 <= x < g ==> inner.contains(#[trigger] path[x].0 as int) && path[x].0 != sub_accept;
                            lemma_sealed_end(*self, t, path, g);
                        }
                    }
                }
            }
            from = sub_accept;
            k = k + 1;
        }
        let ghost b0 = *self;
        let ghost region = frag_region(start, accept, lo, b0.n() as int);
        self.eps(from, accept);
        proof {
            lemma_grows_trans(*self, b0, *old(self));
            assert(self.eps_of(from as int) =~= seq![accept]);
            assert(self.eps_of(from as int).contains(accept)) by {
                assert(self.eps_of(from as int)[0] == accept);
            }
            assert forall|q: int| 0 <= q < old(self).n() && q != entry implies #[trigger] same_edges(*self, *old(self), q) by {
                assert(same_edges(*self, b0, q));
                assert(same_edges(b0, *old(self), q));
            }
            assert(same_edges(*self, b0, accept as int));
            assert(kept(*self, b0, region, from as int)) by {
                assert forall|q: int| region.contains(q) && q != from implies #[trigger] same_edges(*self, b0, q) by {
                }
            }
            assert forall|q: int| region.contains(q) && q != accept implies #[trigger] edges_within(*self, q, region) by {
                if q != from {
                    assert(edges_within(b0, q, region));
                    assert(same_edges(*self, b0, q));
                }
            }
            assert forall|t: Seq<char>, p: int, q: int, n: nat|
                allowed_count(n, min as nat, count_bound(Some(max))) && #[trigger] copies_n(**sub, n, alphabet@, t, p, q) implies runs(
                *self,
                t,
                start,
                p,
                accept,
                q,
            ) by {
                if n < k {
                    assert(runs(b0, t, start, p, accept, q));
                    lemma_runs_grow(*self, b0, t, start, p, accept, q);
                } else {
                    assert(n == k);
                    assert(runs(b0, t, start, p, from, q));
                    lemma_runs_grow(*self, b0, t, start, p, from, q);
                    lemma_runs_eps(*self, t, from, accept, q);
                    lemma_runs_trans(*self, t, start, p, from, q, accept, q);
                }
            }
            assert forall|t: Seq<char>, p: int, m: int|
                0 <= p <= t.len() && #[trigger] runs(*self, t, start, p, accept, m) implies exists|n: nat|
                allowed_count(n, min as nat, count_bound(Some(max))) && #[trigger] copies_n(**sub, n, alphabet@, t, p, m) by {
                let path = choose|path: Seq<(usize, int)>| #[trigger] is_run(*self, t, path) && path[0] == (start, p) && path.last() == (accept, m);
                lemma_closed_kept(*self, b0, region, from as int);
                lemma_escape(*self, region, from as int, t, path, 0);
                if forall|z: int| 0 <= z < path.len() ==> region.contains(#[trigger] path[z].0 as int) && path[z].0 != from {
                    assert forall|z: int| 0 <= z < path.len() - 1 implies #[trigger] same_edges(*self, b0, path[z].0 as int) && path[z].0
                        < b0.n() by {
                        assert(region.contains(path[z].0 as int) && path[z].0 != from);
                    }
                    lemma_restrict(*self, b0, t, path, 0, path.len() - 1);
                    assert(runs(b0, t, start, p, accept, m));
                    let n = choose|n: nat| min <= n < k && #[trigger] copies_n(**sub, n, alphabet@, t, p, m);
                    assert(allowed_count(n, min as nat, count_bound(Some(max))));
                } else {
                    let f = choose|f: int|
                        #![trigger path[f]]
                        0 <= f < path.len() && path[f].0 == from && forall|z: int|
                            0 <= z < f ==> region.contains(#[trigger] path[z].0 as int) && path[z].0 != from;
                    assert forall|z: int| 0 <= z < f implies #[trigger] same_edges(*self, b0, path[z].0 as int) && path[z].0 < b0.n() by {
                        assert(region.contains(path[z].0 as int) && path[z].0 != from);
                    }
                    lemma_restrict(*self, b0, t, path, 0, f);
                    assert(runs(b0, t, start, p, from, path[f].1));
                    assert(copies_n(**sub, k as nat, alphabet@, t, p, path[f].1));
                    assert(f < path.len() - 1) by {
                        if f == path.len() - 1 {
                            assert(path[f] == path.last());
                        }
                    }
                    lemma_eps_to(*self, t, path, f, accept);
                    lemma_sealed_end(*self, t, path, f + 1);
                    assert(allowed_count(k as nat, min as nat, count_bound(Some(max))));
                }
            }
        }
    }

    /// What the repetition's fragment runs through, as counts of copies, is
    /// what the repetition matches.
    proof fn lemma_repetition_ends(
        &self,
        pattern: &Pattern,
        min: u32,
        max: Option<u32>,
        sub: &Box<Pattern>,
        start: usize,
        accept: usize,
        alphabet: Seq<char>,
    )
        requires
            *pattern == (Pattern::Repetition { min, max, sub: *sub }),
            forall|t: Seq<char>, p: int, q: int, n: nat|
                allowed_count(n, min as nat, count_bound(max)) && #[trigger] copies_n(**sub, n, alphabet, t, p, q) ==> runs(
                    *self,
                    t,
                    start,
                    p,
                    accept,
                    q,
                ),
            forall|t: Seq<char>, p: int, m: int|
                0 <= p <= t.len() && #[trigger] runs(*self, t, start, p, accept, m) ==> exists|n: nat|
                    allowed_count(n, min as nat, count_bound(max)) && #[trigger] copies_n(**sub, n, alphabet, t, p, m),
        ensures
            fragment_complete(*self, *pattern, alphabet, start, accept),
            fragment_sound(*self, *pattern, alphabet, start, accept),
    {
        assert forall|t: Seq<char>, p: int, q: int| #[trigger] pmatch(*pattern, alphabet, t, p, q) implies runs(*self, t, start, p, accept, q) by {
            lemma_copies_count(**sub, min as nat, count_bound(max), alphabet, t, p, q);
            let n = choose|n: nat| allowed_count(n, min as nat, count_bound(max)) && #[trigger] copies_n(**sub, n, alphabet, t, p, q);
            assert(copies_n(**sub, n, alphabet, t, p, q));
        }
        assert forall|t: Seq<char>, p: int, m: int|
            0 <= p <= t.len() && #[trigger] runs(*self, t, start, p, accept, m) implies pmatch(*pattern, alphabet, t, p, m) by {
            let n = choose|n: nat| allowed_count(n, min as nat, count_bound(max)) && #[trigger] copies_n(**sub, n, alphabet, t, p, m);
            lemma_copies_from_count(**sub, n, min as nat, count_bound(max), alphabet, t, p, m);
            let path = choose|path: Seq<(usize, int)>| #[trigger] is_run(*self, t, path) && path[0] == (start, p) && path.last() == (accept, m);
            lemma_positions(*self, t, path, 0, path.len() - 1);
        }
    }
}

} // verus!
