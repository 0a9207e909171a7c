//! Paths through the determinized automaton and the strings they spell.

use vstd::prelude::*;

use crate::dfa::{Dfa, Key, key_accepting, next_key, onward_chars, run};
use crate::nfa::Nfa;

verus! {

/// Reading `w` from `key` ends in an accepting state.
pub open spec fn accepted_from(nfa: Nfa, alphabet: Seq<char>, key: Key, w: Seq<char>) -> bool {
    run(nfa, alphabet, key, w) matches Some(k) && key_accepting(nfa, k)
}

/// Reading `w` from `key` stays where a match can be reached.
pub open spec fn runs_from(nfa: Nfa, alphabet: Seq<char>, key: Key, w: Seq<char>) -> bool {
    run(nfa, alphabet, key, w) is Some
}

/// Some word of exactly `n` characters is accepted from `key`.
pub open spec fn has_match(nfa: Nfa, alphabet: Seq<char>, key: Key, n: nat) -> bool {
    exists|w: Seq<char>| w.len() == n && #[trigger] accepted_from(nfa, alphabet, key, w)
}

/// Some word of exactly `n` characters can be read from `key`.
pub open spec fn has_path(nfa: Nfa, alphabet: Seq<char>, key: Key, n: nat) -> bool {
    exists|w: Seq<char>| w.len() == n && #[trigger] runs_from(nfa, alphabet, key, w)
}

/// `key` is one of the interned states of `dfa`.
pub open spec fn interned(dfa: Dfa, key: Key) -> bool {
    exists|id: int| 0 <= id < dfa.count() && #[trigger] dfa.key_of(id) == key
}

/// Every state that at most `s` characters lead to from `key` is interned.
pub open spec fn closed_within(dfa: Dfa, key: Key, s: nat) -> bool {
    forall|w: Seq<char>|
        w.len() <= s && #[trigger] runs_from(dfa.nfa, dfa.alphabet@, key, w) ==> interned(
            dfa,
            run(dfa.nfa, dfa.alphabet@, key, w).unwrap(),
        )
}

pub proof fn lemma_run_append(nfa: Nfa, alphabet: Seq<char>, key: Key, u: Seq<char>, v: Seq<char>)
    ensures
        run(nfa, alphabet, key, u + v) == match run(nfa, alphabet, key, u) {
            Some(k) => run(nfa, alphabet, k, v),
            None => None,
        },
    decreases u.len(),
{
    if u.len() == 0 {
        assert(u + v =~= v);
    } else {
        assert((u + v)[0] == u[0]);
        assert((u + v).drop_first() =~= u.drop_first() + v);
        if alphabet.contains(u[0]) {
            if let Some(k) = next_key(nfa, key, u[0]) {
                lemma_run_append(nfa, alphabet, k, u.drop_first(), v);
            }
        }
    }
}

/// One character `c`, then `w`.
pub proof fn lemma_run_cons(nfa: Nfa, alphabet: Seq<char>, key: Key, c: char, w: Seq<char>)
    requires
        alphabet.contains(c),
    ensures
        run(nfa, alphabet, key, seq![c] + w) == match next_key(nfa, key, c) {
            Some(k) => run(nfa, alphabet, k, w),
            None => None,
        },
{
    let u = seq![c] + w;
    assert(u[0] == c);
    assert(u.drop_first() =~= w);
}

/// The interned states stay interned as the automaton grows.
pub proof fn lemma_closed_extends(newer: Dfa, older: Dfa, key: Key, s: nat)
    requires
        newer.extends(&older),
        closed_within(older, key, s),
    ensures
        closed_within(newer, key, s),
{
    assert forall|w: Seq<char>|
        w.len() <= s && #[trigger] runs_from(newer.nfa, newer.alphabet@, key, w) implies interned(
        newer,
        run(newer.nfa, newer.alphabet@, key, w).unwrap(),
    ) by {
        assert(runs_from(older.nfa, older.alphabet@, key, w));
        let k = run(older.nfa, older.alphabet@, key, w).unwrap();
        let id = choose|id: int| 0 <= id < older.count() && #[trigger] older.key_of(id) == k;
        assert(newer.key_of(id) == older.key_of(id));
    }
}

/// What the first character of a nonempty word leads to.
pub proof fn lemma_first_step(nfa: Nfa, alphabet: Seq<char>, key: Key, w: Seq<char>)
    requires
        w.len() > 0,
        runs_from(nfa, alphabet, key, w),
    ensures
        alphabet.contains(w[0]),
        next_key(nfa, key, w[0]) is Some,
        onward_chars(nfa, alphabet, key).contains(w[0]),
        run(nfa, alphabet, key, w) == run(nfa, alphabet, next_key(nfa, key, w[0]).unwrap(), w.drop_first()),
{
    let f = |c: char| next_key(nfa, key, c) is Some;
    assert(f(w[0]));
    let i = choose|i: int| 0 <= i < alphabet.len() && alphabet[i] == w[0];
    alphabet.lemma_filter_contains(f, i);
}

/// Splitting a word into its first character and the rest, for matches and
/// paths of length `n + 1`.
pub proof fn lemma_outlook_step(nfa: Nfa, alphabet: Seq<char>, key: Key, n: nat)
    ensures
        has_match(nfa, alphabet, key, n + 1) <==> exists|j: int|
            0 <= j < onward_chars(nfa, alphabet, key).len() && #[trigger] has_match(
                nfa,
                alphabet,
                next_key(nfa, key, onward_chars(nfa, alphabet, key)[j]).unwrap(),
                n,
            ),
        has_path(nfa, alphabet, key, n + 1) <==> exists|j: int|
            0 <= j < onward_chars(nfa, alphabet, key).len() && #[trigger] has_path(
                nfa,
                alphabet,
                next_key(nfa, key, onward_chars(nfa, alphabet, key)[j]).unwrap(),
                n,
            ),
{
    let oc = onward_chars(nfa, alphabet, key);
    let f = |c: char| next_key(nfa, key, c) is Some;
    if has_match(nfa, alphabet, key, n + 1) {
        let w = choose|w: Seq<char>| w.len() == n + 1 && #[trigger] accepted_from(nfa, alphabet, key, w);
        lemma_first_step(nfa, alphabet, key, w);
        let j = choose|j: int| 0 <= j < oc.len() && oc[j] == w[0];
        assert(accepted_from(nfa, alphabet, next_key(nfa, key, oc[j]).unwrap(), w.drop_first()));
        assert(has_match(nfa, alphabet, next_key(nfa, key, oc[j]).unwrap(), n));
    }
    if exists|j: int| 0 <= j < oc.len() && #[trigger] has_match(nfa, alphabet, next_key(nfa, key, oc[j]).unwrap(), n) {
        let j = choose|j: int| 0 <= j < oc.len() && #[trigger] has_match(nfa, alphabet, next_key(nfa, key, oc[j]).unwrap(), n);
        let c = oc[j];
        alphabet.lemma_filter_pred(f, j);
        assert(oc.contains(oc[j]));
        alphabet.lemma_filter_contains_rev(f, c);
        let k = next_key(nfa, key, c).unwrap();
        let w = choose|w: Seq<char>| w.len() == n && #[trigger] accepted_from(nfa, alphabet, k, w);
        lemma_run_cons(nfa, alphabet, key, c, w);
        assert(accepted_from(nfa, alphabet, key, seq![c] + w));
        assert((seq![c] + w).len() == n + 1);
    }
    if has_path(nfa, alphabet, key, n + 1) {
        let w = choose|w: Seq<char>| w.len() == n + 1 && #[trigger] runs_from(nfa, alphabet, key, w);
        lemma_first_step(nfa, alphabet, key, w);
        let j = choose|j: int| 0 <= j < oc.len() && oc[j] == w[0];
        assert(runs_from(nfa, alphabet, next_key(nfa, key, oc[j]).unwrap(), w.drop_first()));
        assert(has_path(nfa, alphabet, next_key(nfa, key, oc[j]).unwrap(), n));
    }
    if exists|j: int| 0 <= j < oc.len() && #[trigger] has_path(nfa, alphabet, next_key(nfa, key, oc[j]).unwrap(), n) {
        let j = choose|j: int| 0 <= j < oc.len() && #[trigger] has_path(nfa, alphabet, next_key(nfa, key, oc[j]).unwrap(), n);
        let c = oc[j];
        alphabet.lemma_filter_pred(f, j);
        assert(oc.contains(oc[j]));
        alphabet.lemma_filter_contains_rev(f, c);
        let k = next_key(nfa, key, c).unwrap();
        let w = choose|w: Seq<char>| w.len() == n && #[trigger] runs_from(nfa, alphabet, k, w);
        lemma_run_cons(nfa, alphabet, key, c, w);
        assert(runs_from(nfa, alphabet, key, seq![c] + w));
        assert((seq![c] + w).len() == n + 1);
    }
}

/// A prefix of a word that can be read can be read too.
pub proof fn lemma_run_prefix(nfa: Nfa, alphabet: Seq<char>, key: Key, w: Seq<char>, d: int)
    requires
        runs_from(nfa, alphabet, key, w),
        0 <= d <= w.len(),
    ensures
        runs_from(nfa, alphabet, key, w.take(d)),
        run(nfa, alphabet, key, w) == run(nfa, alphabet, run(nfa, alphabet, key, w.take(d)).unwrap(), w.skip(d)),
{
    assert(w.take(d) + w.skip(d) =~= w);
    lemma_run_append(nfa, alphabet, key, w.take(d), w.skip(d));
}

/// Where no word of `n` characters can be read, no longer one can either.
pub proof fn lemma_no_path_beyond(nfa: Nfa, alphabet: Seq<char>, key: Key, n: nat, w: Seq<char>)
    requires
        !has_path(nfa, alphabet, key, n),
        w.len() >= n,
    ensures
        !runs_from(nfa, alphabet, key, w),
{
    if runs_from(nfa, alphabet, key, w) {
        lemma_run_prefix(nfa, alphabet, key, w, n as int);
        assert(w.take(n as int).len() == n);
    }
}

/// More consecutive lengths without a match than the automaton has states,
/// all of whose states are interned, leave no match at any later length: a
/// longer match would pass some state twice in that stretch, and cutting out
/// the loop between gives a shorter match, down into the stretch.
pub proof fn lemma_barren_run(dfa: Dfa, start: Key, lo: nat, hi: nat, w: Seq<char>)
    requires
        dfa.wf(),
        closed_within(dfa, start, hi),
        lo <= hi,
        hi - lo + 1 > dfa.count(),
        forall|t: nat| lo <= t <= hi ==> !#[trigger] has_match(dfa.nfa, dfa.alphabet@, start, t),
        w.len() >= lo,
    ensures
        !accepted_from(dfa.nfa, dfa.alphabet@, start, w),
    decreases w.len(),
{
    let nfa = dfa.nfa;
    let a = dfa.alphabet@;
    if !accepted_from(nfa, a, start, w) {
    } else if w.len() <= hi {
        assert(has_match(nfa, a, start, w.len()));
    } else {
        assert(runs_from(nfa, a, start, w));
        let len = (hi - lo + 1) as nat;
        let ids = Seq::new(
            len,
            |i: int| choose|id: int| 0 <= id < dfa.count() && dfa.key_of(id) == run(nfa, a, start, w.take(lo + i)).unwrap(),
        );
        assert forall|i: int| 0 <= i < len implies 0 <= #[trigger] ids[i] < dfa.count() && dfa.key_of(ids[i]) == run(
            nfa,
            a,
            start,
            w.take(lo + i),
        ).unwrap() by {
            lemma_run_prefix(nfa, a, start, w, lo + i);
            assert(w.take(lo + i).len() <= hi);
            let k = run(nfa, a, start, w.take(lo + i)).unwrap();
            assert(interned(dfa, k));
        }
        if ids.no_duplicates() {
            crate::util::lemma_distinct_ints_below(ids, dfa.count() as int);
            assert(false);
        }
        let (i, j) = choose|i: int, j: int| 0 <= i < ids.len() && 0 <= j < ids.len() && i != j && ids[i] == ids[j];
        let (d1, d2) = if i < j { (lo + i, lo + j) } else { (lo + j, lo + i) };
        assert(d1 < d2 <= hi);
        lemma_run_prefix(nfa, a, start, w, d1);
        lemma_run_prefix(nfa, a, start, w, d2);
        let k1 = run(nfa, a, start, w.take(d1)).unwrap();
        let k2 = run(nfa, a, start, w.take(d2)).unwrap();
        assert(k1 == k2) by {
            assert(ids[i] == ids[j]);
        }
        let shorter = w.take(d1) + w.skip(d2);
        lemma_run_append(nfa, a, start, w.take(d1), w.skip(d2));
        assert(run(nfa, a, start, shorter) == run(nfa, a, start, w));
        assert(accepted_from(nfa, a, start, shorter));
        lemma_barren_run(dfa, start, lo, hi, shorter);
    }
}

} // verus!
