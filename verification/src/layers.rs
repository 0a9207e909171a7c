//! Reading a text with the automaton, layer by layer, and how that relates
//! to the determinized automaton and to runs.

use vstd::prelude::*;

use crate::dfa::{accepts, alive_set, run, start_key, step_set};
use crate::lang::{lemma_run_append, lemma_run_cons};
use crate::nfa::{Nfa, allowed_spec};
use crate::matching::next_at;
use crate::pattern::{LOOK_START_CRLF, LOOK_START_LF, look_holds_spec};
use crate::runs::{is_run, lemma_runs_move, lemma_runs_refl, lemma_runs_trans, moves, runs};

verus! {

/// The character just before position `i` of `t`, if any.
pub open spec fn prev_at(t: Seq<char>, i: int) -> Option<char> {
    if i <= 0 {
        None
    } else {
        Some(t[i - 1])
    }
}

/// Every character of `t` is in `alphabet`.
pub open spec fn spelled_from(t: Seq<char>, alphabet: Seq<char>) -> bool {
    forall|i: int| 0 <= i < t.len() ==> alphabet.contains(#[trigger] t[i])
}

/// The states that reading the first `k` characters of `t` leads to, each
/// taken just after a character is consumed; before any, the start state.
pub open spec fn layer(nfa: Nfa, t: Seq<char>, k: nat) -> Set<usize>
    decreases k,
{
    if k == 0 {
        Set::empty().insert(nfa.start)
    } else {
        step_set(nfa, (layer(nfa, t, (k - 1) as nat), prev_at(t, k - 1)), t[k - 1])
    }
}

/// The automaton, read without any pruning, accepts `t`: the accepting
/// state is in the epsilon closure at the end of the text.
pub open spec fn nfa_accepts(nfa: Nfa, t: Seq<char>) -> bool {
    nfa.in_closure(layer(nfa, t, t.len()), prev_at(t, t.len() as int), None, nfa.accept)
}

/// From each prefix length on, a match is still reachable.
pub open spec fn alive_all_along(nfa: Nfa, t: Seq<char>, k: int) -> bool {
    forall|m: nat| m <= k ==> #[trigger] alive_set(nfa, layer(nfa, t, m), prev_at(t, m as int))
}

/// Reading a prefix of `t` with the determinized automaton lands on the
/// layer of that prefix, as long as the prefix is spelled from the alphabet
/// and a match stays reachable all along.
proof fn lemma_run_layers(nfa: Nfa, alphabet: Seq<char>, t: Seq<char>, k: nat)
    requires
        start_key(nfa) is Some,
        k <= t.len(),
    ensures
        run(nfa, alphabet, start_key(nfa).unwrap(), t.take(k as int)) == if spelled_from(t.take(k as int), alphabet)
            && alive_all_along(nfa, t, k as int) {
            Some((layer(nfa, t, k), prev_at(t, k as int)))
        } else {
            None
        },
    decreases k,
{
    let sk = start_key(nfa).unwrap();
    if k == 0 {
        assert(t.take(0) =~= Seq::<char>::empty());
        assert(alive_set(nfa, layer(nfa, t, 0), prev_at(t, 0)));
        assert forall|m: nat| m <= 0 implies #[trigger] alive_set(nfa, layer(nfa, t, m), prev_at(t, m as int)) by {
            assert(m == 0);
        }
    } else {
        let j = (k - 1) as nat;
        lemma_run_layers(nfa, alphabet, t, j);
        let c = t[j as int];
        assert(t.take(k as int) =~= t.take(j as int) + seq![c]);
        lemma_run_append(nfa, alphabet, sk, t.take(j as int), seq![c]);
        let before = spelled_from(t.take(j as int), alphabet) && alive_all_along(nfa, t, j as int);
        let now = spelled_from(t.take(k as int), alphabet) && alive_all_along(nfa, t, k as int);
        if spelled_from(t.take(k as int), alphabet) {
            assert forall|i: int| 0 <= i < t.take(j as int).len() implies alphabet.contains(#[trigger] t.take(j as int)[i]) by {
                assert(t.take(j as int)[i] == t.take(k as int)[i]);
            }
        }
        if alive_all_along(nfa, t, k as int) {
            assert forall|m: nat| m <= j implies #[trigger] alive_set(nfa, layer(nfa, t, m), prev_at(t, m as int)) by {
                assert(alive_set(nfa, layer(nfa, t, m), prev_at(t, m as int)));
            }
        }
        if before {
            let key = (layer(nfa, t, j), prev_at(t, j as int));
            if alphabet.contains(c) {
                lemma_run_cons(nfa, alphabet, key, c, Seq::<char>::empty());
                assert(seq![c] + Seq::<char>::empty() =~= seq![c]);
                assert(step_set(nfa, key, c) == layer(nfa, t, k));
                assert(prev_at(t, k as int) == Some(c));
                if alive_set(nfa, layer(nfa, t, k), prev_at(t, k as int)) {
                    assert forall|i: int| 0 <= i < t.take(k as int).len() implies alphabet.contains(#[trigger] t.take(k as int)[i]) by {
                        if i < j {
                            assert(t.take(k as int)[i] == t.take(j as int)[i]);
                        }
                    }
                    assert forall|m: nat| m <= k implies #[trigger] alive_set(nfa, layer(nfa, t, m), prev_at(t, m as int)) by {
                        if m < k {
                            assert(m <= j);
                        }
                    }
                    assert(now);
                } else {
                    assert(!alive_all_along(nfa, t, k as int)) by {
                        assert(!alive_set(nfa, layer(nfa, t, k), prev_at(t, k as int)));
                    }
                }
            } else {
                let one = seq![c];
                assert(one[0] == c);
                assert(run(nfa, alphabet, key, one) == None::<crate::dfa::Key>);
                assert(!spelled_from(t.take(k as int), alphabet)) by {
                    assert(t.take(k as int)[j as int] == c);
                }
            }
        }
    }
}

/// What the determinized automaton accepts, it accepts because the
/// automaton read without pruning does, over the alphabet.
pub proof fn lemma_accepts_sound(nfa: Nfa, alphabet: Seq<char>, t: Seq<char>)
    requires
        accepts(nfa, alphabet, t),
    ensures
        spelled_from(t, alphabet),
        nfa_accepts(nfa, t),
{
    lemma_run_layers(nfa, alphabet, t, t.len());
    assert(t.take(t.len() as int) =~= t);
}

/// Where the look-around `look` holds right after `c`, a character of the
/// alphabet, the search for the accepting state past the first character
/// crosses its edge.
proof fn lemma_look_later(look: u32, c: char, next: Option<char>, alphabet: Seq<char>)
    requires
        look_holds_spec(look, Some(c), next),
        alphabet.contains(c),
    ensures
        allowed_spec(look, true, alphabet.contains('\n'), alphabet.contains('\r')),
{
    if look == LOOK_START_LF {
        assert(c == '\n');
    } else if look == LOOK_START_CRLF {
        assert(c == '\n' || c == '\r');
    }
}

/// A chain of epsilon moves at position `p` of `t`, starting among valid
/// states, stays among valid states and moves along live edges; past the
/// first character, live also for the search that starts later.
proof fn lemma_eps_path_live(nfa: Nfa, alphabet: Seq<char>, t: Seq<char>, p: int, next: Option<char>, s: Set<usize>, path: Seq<usize>, later: bool)
    requires
        nfa.wf(),
        spelled_from(t, alphabet),
        0 <= p <= t.len(),
        later ==> p > 0,
        forall|q: usize| #[trigger] s.contains(q) ==> q < nfa.n(),
        nfa.eps_path(s, prev_at(t, p), next, path),
    ensures
        forall|i: int| 0 <= i < path.len() ==> #[trigger] path[i] < nfa.n(),
        forall|i: int|
            0 <= i < path.len() - 1 ==> #[trigger] nfa.live_edge(
                path[i],
                path[i + 1],
                later,
                alphabet.contains('\n'),
                alphabet.contains('\r'),
            ),
    decreases path.len(),
{
    let lf = alphabet.contains('\n');
    let cr = alphabet.contains('\r');
    if path.len() > 1 {
        let shorter = path.drop_last();
        assert forall|i: int| 0 <= i < shorter.len() - 1 implies #[trigger] nfa.eps_move(shorter[i], shorter[i + 1], prev_at(t, p), next) by {
            assert(nfa.eps_move(path[i], path[i + 1], prev_at(t, p), next));
        }
        lemma_eps_path_live(nfa, alphabet, t, p, next, s, shorter, later);
        let i = path.len() - 2;
        let q = path[i];
        let r = path[i + 1];
        assert(q == shorter[i]);
        assert(q < nfa.n());
        assert(nfa.eps_move(q, r, prev_at(t, p), next));
        if nfa.eps_of(q as int).contains(r) {
            let k = choose|k: int| 0 <= k < nfa.eps_of(q as int).len() && nfa.eps_of(q as int)[k] == r;
            assert(nfa.eps@[q as int]@[k] < nfa.n());
        } else {
            let k = choose|k: int|
                #![trigger nfa.guarded_of(q as int)[k]]
                0 <= k < nfa.guarded_of(q as int).len() && nfa.guarded_of(q as int)[k].1 == r && look_holds_spec(
                    nfa.guarded_of(q as int)[k].0,
                    prev_at(t, p),
                    next,
                );
            assert(nfa.guarded@[q as int]@[k].1 < nfa.n());
            if later {
                assert(alphabet.contains(t[p - 1]));
                lemma_look_later(nfa.guarded_of(q as int)[k].0, t[p - 1], next, alphabet);
            }
        }
        assert(nfa.live_edge(q, r, later, lf, cr));
        assert forall|i2: int| 0 <= i2 < path.len() implies #[trigger] path[i2] < nfa.n() by {
            if i2 < path.len() - 1 {
                assert(path[i2] == shorter[i2]);
            }
        }
        assert forall|i2: int| 0 <= i2 < path.len() - 1 implies #[trigger] nfa.live_edge(path[i2], path[i2 + 1], later, lf, cr) by {
            if i2 < path.len() - 2 {
                assert(path[i2] == shorter[i2] && path[i2 + 1] == shorter[i2 + 1]);
                assert(nfa.live_edge(shorter[i2], shorter[i2 + 1], later, lf, cr));
            }
        }
    } else {
        assert(path[0] < nfa.n());
    }
}

/// A live chain into a state that can finish can finish.
proof fn lemma_chain_finishes(nfa: Nfa, path: Seq<usize>, later: bool, lf: bool, cr: bool)
    requires
        path.len() > 0,
        forall|i: int| 0 <= i < path.len() - 1 ==> #[trigger] nfa.live_edge(path[i], path[i + 1], later, lf, cr),
        nfa.can_finish(path.last(), later, lf, cr),
    ensures
        nfa.can_finish(path[0], later, lf, cr),
    decreases path.len(),
{
    if path.len() > 1 {
        let rest = path.drop_first();
        assert forall|i: int| 0 <= i < rest.len() - 1 implies #[trigger] nfa.live_edge(rest[i], rest[i + 1], later, lf, cr) by {
            assert(nfa.live_edge(path[i + 1], path[(i + 1) + 1], later, lf, cr));
            assert(rest[i] == path[i + 1] && rest[i + 1] == path[(i + 1) + 1]);
        }
        assert(rest.last() == path.last());
        lemma_chain_finishes(nfa, rest, later, lf, cr);
        assert(nfa.live_edge(path[0], path[1], later, lf, cr));
        nfa.lemma_finish_back(path[0], path[1], later, lf, cr);
    }
}

/// The states of each layer are valid states.
proof fn lemma_layer_valid(nfa: Nfa, t: Seq<char>, k: nat)
    requires
        nfa.wf(),
        k <= t.len(),
    ensures
        forall|q: usize| #[trigger] layer(nfa, t, k).contains(q) ==> q < nfa.n(),
    decreases k,
{
    if k > 0 {
        let j = (k - 1) as nat;
        lemma_layer_valid(nfa, t, j);
        assert forall|q: usize| #[trigger] layer(nfa, t, k).contains(q) implies q < nfa.n() by {
            let s = nfa.closure_set(layer(nfa, t, j), prev_at(t, j as int), Some(t[j as int]));
            assert(nfa.step_target(s, t[j as int], q));
            let (q0, kk) = choose|q0: usize, kk: int|
                #![trigger s.contains(q0), nfa.trans_of(q0 as int)[kk]]
                s.contains(q0) && 0 <= kk < nfa.trans_of(q0 as int).len() && nfa.trans_of(q0 as int)[kk] == (t[j as int], q);
            let path = choose|path: Seq<usize>| #[trigger] nfa.eps_path(layer(nfa, t, j), prev_at(t, j as int), Some(t[j as int]), path) && path.last() == q0;
            nfa.lemma_eps_path_valid(layer(nfa, t, j), prev_at(t, j as int), Some(t[j as int]), path);
            assert(nfa.trans@[q0 as int]@[kk].1 < nfa.n());
        }
    }
}

/// From every prefix length of an accepted text on, some state of that
/// layer can still reach the accepting state.
proof fn lemma_layers_finish(nfa: Nfa, alphabet: Seq<char>, t: Seq<char>, m: nat)
    requires
        nfa.wf(),
        spelled_from(t, alphabet),
        nfa_accepts(nfa, t),
        m <= t.len(),
    ensures
        exists|q: usize|
            #[trigger] layer(nfa, t, m).contains(q) && q < nfa.n() && nfa.can_finish(
                q,
                m > 0,
                alphabet.contains('\n'),
                alphabet.contains('\r'),
            ),
    decreases t.len() - m,
{
    let lf = alphabet.contains('\n');
    let cr = alphabet.contains('\r');
    let later = m > 0;
    lemma_layer_valid(nfa, t, m);
    if m == t.len() {
        let s = layer(nfa, t, m);
        let path = choose|path: Seq<usize>| #[trigger] nfa.eps_path(s, prev_at(t, m as int), None, path) && path.last() == nfa.accept;
        lemma_eps_path_live(nfa, alphabet, t, m as int, None, s, path, later);
        assert(nfa.live_path(seq![nfa.accept], later, lf, cr));
        assert(nfa.can_finish(nfa.accept, later, lf, cr));
        lemma_chain_finishes(nfa, path, later, lf, cr);
        assert(s.contains(path[0]));
    } else {
        let m1 = (m + 1) as nat;
        lemma_layers_finish(nfa, alphabet, t, m1);
        let q = choose|q: usize| #[trigger] layer(nfa, t, m1).contains(q) && q < nfa.n() && nfa.can_finish(q, m1 > 0, lf, cr);
        let c = t[m as int];
        let s = nfa.closure_set(layer(nfa, t, m), prev_at(t, m as int), Some(c));
        assert(layer(nfa, t, m1) == step_set(nfa, (layer(nfa, t, m), prev_at(t, m as int)), c));
        assert(nfa.step_target(s, c, q));
        let (q0, kk) = choose|q0: usize, kk: int|
            #![trigger s.contains(q0), nfa.trans_of(q0 as int)[kk]]
            s.contains(q0) && 0 <= kk < nfa.trans_of(q0 as int).len() && nfa.trans_of(q0 as int)[kk] == (c, q);
        let path = choose|path: Seq<usize>| #[trigger] nfa.eps_path(layer(nfa, t, m), prev_at(t, m as int), Some(c), path) && path.last() == q0;
        lemma_eps_path_live(nfa, alphabet, t, m as int, Some(c), layer(nfa, t, m), path, later);
        nfa.lemma_finish_later_anywhere(q, lf, cr);
        assert(nfa.can_finish(q, later, lf, cr));
        assert(q0 == path.last());
        assert(q0 < nfa.n());
        assert(nfa.trans_of(q0 as int)[kk].1 == q);
        assert(nfa.live_edge(q0, q, later, lf, cr));
        nfa.lemma_finish_back(q0, q, later, lf, cr);
        lemma_chain_finishes(nfa, path, later, lf, cr);
        assert(layer(nfa, t, m).contains(path[0]));
    }
}

/// The determinized automaton, with its pruning, accepts exactly the texts
/// over the alphabet that the automaton read without pruning accepts.
pub proof fn lemma_accepts_exactly(nfa: Nfa, alphabet: Seq<char>, t: Seq<char>)
    requires
        nfa.wf(),
        nfa.alive_exact(alphabet),
    ensures
        accepts(nfa, alphabet, t) <==> spelled_from(t, alphabet) && nfa_accepts(nfa, t),
{
    if accepts(nfa, alphabet, t) {
        lemma_accepts_sound(nfa, alphabet, t);
    }
    if spelled_from(t, alphabet) && nfa_accepts(nfa, t) {
        let lf = alphabet.contains('\n');
        let cr = alphabet.contains('\r');
        assert forall|m: nat| m <= t.len() implies #[trigger] alive_set(nfa, layer(nfa, t, m), prev_at(t, m as int)) by {
            lemma_layers_finish(nfa, alphabet, t, m);
            let q = choose|q: usize| #[trigger] layer(nfa, t, m).contains(q) && q < nfa.n() && nfa.can_finish(q, m > 0, lf, cr);
            if m == 0 {
                assert(nfa.alive_anywhere@[q as int]);
            } else {
                assert(nfa.alive_later@[q as int]);
            }
        }
        assert(alive_set(nfa, layer(nfa, t, 0), prev_at(t, 0)));
        assert(layer(nfa, t, 0) == Set::<usize>::empty().insert(nfa.start));
        assert(start_key(nfa) is Some);
        lemma_run_layers(nfa, alphabet, t, t.len());
        assert(t.take(t.len() as int) =~= t);
        assert(spelled_from(t.take(t.len() as int), alphabet));
    }
}

/// Along a run from the start state at the beginning of `t`, each state is
/// in the epsilon closure of the layer at its position.
proof fn lemma_run_in_layers(nfa: Nfa, t: Seq<char>, path: Seq<(usize, int)>, x: int)
    requires
        is_run(nfa, t, path),
        path[0] == (nfa.start, 0int),
        0 <= x < path.len(),
    ensures
        0 <= path[x].1 <= t.len(),
        nfa.in_closure(layer(nfa, t, path[x].1 as nat), prev_at(t, path[x].1), next_at(t, path[x].1), path[x].0),
    decreases x,
{
    if x == 0 {
        nfa.lemma_closure_start(layer(nfa, t, 0), prev_at(t, 0), next_at(t, 0), nfa.start);
    } else {
        lemma_run_in_layers(nfa, t, path, x - 1);
        let y = x - 1;
        assert(moves(nfa, t, path[y].0, path[y].1, path[y + 1].0, path[y + 1].1));
        assert(y + 1 == x);
        let (q, i) = path[y];
        let (r, j) = path[x];
        assert(moves(nfa, t, q, i, r, j));
        if j == i && nfa.eps_move(q, r, prev_at(t, i), next_at(t, i)) {
            nfa.lemma_closure_step(layer(nfa, t, i as nat), prev_at(t, i), next_at(t, i), q, r);
        } else {
            let k = choose|k: int| 0 <= k < nfa.trans_of(q as int).len() && #[trigger] nfa.trans_of(q as int)[k] == (t[i], r);
            let s = nfa.closure_set(layer(nfa, t, i as nat), prev_at(t, i), Some(t[i]));
            assert(s.contains(q));
            assert(nfa.step_target(s, t[i], r));
            assert(layer(nfa, t, j as nat) == step_set(nfa, (layer(nfa, t, i as nat), prev_at(t, i)), t[i]));
            assert(layer(nfa, t, j as nat).contains(r));
            nfa.lemma_closure_start(layer(nfa, t, j as nat), prev_at(t, j), next_at(t, j), r);
        }
    }
}

/// A run from the start state at the beginning of `t` to the accepting
/// state at its end makes the automaton accept `t`.
pub proof fn lemma_run_accepts(nfa: Nfa, t: Seq<char>)
    requires
        runs(nfa, t, nfa.start, 0, nfa.accept, t.len() as int),
    ensures
        nfa_accepts(nfa, t),
{
    let path = choose|path: Seq<(usize, int)>|
        #[trigger] is_run(nfa, t, path) && path[0] == (nfa.start, 0int) && path.last() == (nfa.accept, t.len() as int);
    lemma_run_in_layers(nfa, t, path, path.len() - 1);
}

/// Along a chain of epsilon moves at position `k` from states that runs
/// reach from the start, runs reach every state.
proof fn lemma_closure_runs(nfa: Nfa, t: Seq<char>, k: int, s: Set<usize>, path: Seq<usize>)
    requires
        nfa.wf_graph(),
        0 <= k <= t.len(),
        forall|q: usize| #[trigger] s.contains(q) ==> q < nfa.n() && runs(nfa, t, nfa.start, 0, q, k),
        nfa.eps_path(s, prev_at(t, k), next_at(t, k), path),
    ensures
        runs(nfa, t, nfa.start, 0, path.last(), k),
    decreases path.len(),
{
    nfa.lemma_eps_path_valid(s, prev_at(t, k), next_at(t, k), path);
    if path.len() == 1 {
        assert(s.contains(path[0]));
    } else {
        let shorter = path.drop_last();
        assert forall|i: int| 0 <= i < shorter.len() - 1 implies #[trigger] nfa.eps_move(shorter[i], shorter[i + 1], prev_at(t, k), next_at(t, k)) by {
            assert(nfa.eps_move(path[i], path[i + 1], prev_at(t, k), next_at(t, k)));
        }
        lemma_closure_runs(nfa, t, k, s, shorter);
        let i = path.len() - 2;
        assert(nfa.eps_move(path[i], path[i + 1], prev_at(t, k), next_at(t, k)));
        assert(path[i] < nfa.n());
        assert(moves(nfa, t, path[i], k, path[i + 1], k));
        lemma_runs_move(nfa, t, path[i], k, path[i + 1], k);
        assert(shorter.last() == path[i]);
        lemma_runs_trans(nfa, t, nfa.start, 0, path[i], k, path[i + 1], k);
    }
}

/// Runs from the start reach every state of every layer.
proof fn lemma_layer_runs(nfa: Nfa, t: Seq<char>, k: nat)
    requires
        nfa.wf_graph(),
        nfa.start < nfa.n(),
        k <= t.len(),
    ensures
        forall|q: usize| #[trigger] layer(nfa, t, k).contains(q) ==> q < nfa.n() && runs(nfa, t, nfa.start, 0, q, k as int),
    decreases k,
{
    if k == 0 {
        assert forall|q: usize| #[trigger] layer(nfa, t, k).contains(q) implies q < nfa.n() && runs(nfa, t, nfa.start, 0, q, k as int) by {
            lemma_runs_refl(nfa, t, nfa.start, 0);
        }
    } else {
        let j = (k - 1) as nat;
        lemma_layer_runs(nfa, t, j);
        let c = t[j as int];
        let before = layer(nfa, t, j);
        assert(next_at(t, j as int) == Some(c));
        assert forall|r: usize| #[trigger] layer(nfa, t, k).contains(r) implies r < nfa.n() && runs(nfa, t, nfa.start, 0, r, k as int) by {
            let cl = nfa.closure_set(before, prev_at(t, j as int), Some(c));
            assert(nfa.step_target(cl, c, r));
            let (q, x) = choose|q: usize, x: int|
                #![trigger cl.contains(q), nfa.trans_of(q as int)[x]]
                cl.contains(q) && 0 <= x < nfa.trans_of(q as int).len() && nfa.trans_of(q as int)[x] == (c, r);
            assert(nfa.in_closure(before, prev_at(t, j as int), Some(c), q));
            let path = choose|path: Seq<usize>| #[trigger] nfa.eps_path(before, prev_at(t, j as int), Some(c), path) && path.last() == q;
            lemma_closure_runs(nfa, t, j as int, before, path);
            nfa.lemma_eps_path_valid(before, prev_at(t, j as int), Some(c), path);
            assert(q < nfa.n());
            assert(moves(nfa, t, q, j as int, r, k as int));
            lemma_runs_move(nfa, t, q, j as int, r, k as int);
            lemma_runs_trans(nfa, t, nfa.start, 0, q, j as int, r, k as int);
            assert(nfa.trans@[q as int]@[x].1 < nfa.n());
        }
    }
}

/// Where the automaton accepts `t`, a run leads from the start state at the
/// beginning of `t` to the accepting state at its end.
pub proof fn lemma_accepts_run(nfa: Nfa, t: Seq<char>)
    requires
        nfa.wf_graph(),
        nfa.start < nfa.n(),
        nfa_accepts(nfa, t),
    ensures
        runs(nfa, t, nfa.start, 0, nfa.accept, t.len() as int),
{
    lemma_layer_runs(nfa, t, t.len());
    let s = layer(nfa, t, t.len());
    let path = choose|path: Seq<usize>| #[trigger] nfa.eps_path(s, prev_at(t, t.len() as int), None, path) && path.last() == nfa.accept;
    assert(next_at(t, t.len() as int) == None::<char>);
    lemma_closure_runs(nfa, t, t.len() as int, s, path);
}

} // verus!
