//! The enumeration itself: a depth-first walk over the determinized
//! automaton, one target length at a time.

use vstd::prelude::*;

use crate::dfa::{Dfa, Key, alive_set, key_accepting, next_key, onward_chars, start_key};
use crate::lang::{
    accepted_from, closed_within, has_match, has_path, interned, lemma_closed_extends,
    lemma_first_step, lemma_outlook_step, lemma_run_prefix, runs_from,
};
use crate::dfa::run;
use crate::alphabet::Alphabet;
use crate::nfa::Nfa;
use crate::pattern::{Pattern, parse_pattern, parsed_pattern};
use crate::order::{
    lemma_filter_increasing, lemma_first_diff, lemma_lex_asym, lemma_lex_asym_self, lemma_power_positive,
    lemma_shortlex_trans, lex_lt, power, shortlex_lt,
};
use crate::alphabet::strictly_increasing;
use crate::layers::{lemma_accepts_exactly, nfa_accepts, spelled_from};
use crate::matching::matches_somewhere;

verus! {

/// What is still ahead, some number of characters on from a state.
///
/// Ordered by how promising it is, so merging what several characters lead to
/// keeps the most promising.
#[derive(Clone, Copy, PartialEq, Eq, Structural, Debug)]
pub enum Outlook {
    /// No path that long leaves the state at all.
    Nothing,
    /// Paths that long exist, but none of them end in a match.
    Barren,
    /// Some path that long ends in a match.
    Matches,
}

/// What exactly `n` characters on from `key` holds in store.
pub open spec fn outlook_spec(dfa: Dfa, key: crate::dfa::Key, n: nat) -> Outlook {
    if has_match(dfa.nfa, dfa.alphabet@, key, n) {
        Outlook::Matches
    } else if has_path(dfa.nfa, dfa.alphabet@, key, n) {
        Outlook::Barren
    } else {
        Outlook::Nothing
    }
}

/// The more promising of two outlooks.
fn merge(a: Outlook, b: Outlook) -> (m: Outlook)
    ensures
        (m == Outlook::Matches) <==> (a == Outlook::Matches || b == Outlook::Matches),
        (m == Outlook::Nothing) <==> (a == Outlook::Nothing && b == Outlook::Nothing),
{
    match (a, b) {
        (Outlook::Matches, _) => Outlook::Matches,
        (_, Outlook::Matches) => Outlook::Matches,
        (Outlook::Barren, _) => Outlook::Barren,
        (_, Outlook::Barren) => Outlook::Barren,
        _ => Outlook::Nothing,
    }
}

/// Every remembered outlook is right, and everything its lookahead reached
/// is interned.
pub open spec fn memo_ok(dfa: Dfa, memo: Seq<Vec<Option<Outlook>>>) -> bool {
    forall|s: int, id: int|
        0 <= s < memo.len() && 0 <= id < memo[s]@.len() && (#[trigger] memo[s]@[id]) is Some ==> {
            &&& id < dfa.count()
            &&& memo[s]@[id].unwrap() == outlook_spec(dfa, dfa.key_of(id), s as nat)
            &&& closed_within(dfa, dfa.key_of(id), s as nat)
        }
}

pub proof fn lemma_memo_extends(newer: Dfa, older: Dfa, memo: Seq<Vec<Option<Outlook>>>)
    requires
        newer.extends(&older),
        memo_ok(older, memo),
    ensures
        memo_ok(newer, memo),
{
    assert forall|s: int, id: int|
        0 <= s < memo.len() && 0 <= id < memo[s]@.len() && (#[trigger] memo[s]@[id]) is Some implies {
            &&& id < newer.count()
            &&& memo[s]@[id].unwrap() == outlook_spec(newer, newer.key_of(id), s as nat)
            &&& closed_within(newer, newer.key_of(id), s as nat)
        } by {
        assert(newer.key_of(id) == older.key_of(id));
        lemma_closed_extends(newer, older, older.key_of(id), s as nat);
    }
}

/// What is still possible `steps` characters on from state `state`.
///
/// Memoized, so each state is worked out once per distance rather than once
/// per prefix arriving at it.
pub fn probe(dfa: &mut Dfa, memo: &mut Vec<Vec<Option<Outlook>>>, state: usize, steps: usize) -> (o: Outlook)
    requires
        old(dfa).wf(),
        memo_ok(*old(dfa), old(memo)@),
        state < old(dfa).count(),
        steps < usize::MAX,
    ensures
        final(dfa).wf(),
        final(dfa).extends(old(dfa)),
        memo_ok(*final(dfa), final(memo)@),
        final(memo)@.len() >= old(memo)@.len(),
        o == outlook_spec(*final(dfa), final(dfa).key_of(state as int), steps as nat),
        closed_within(*final(dfa), final(dfa).key_of(state as int), steps as nat),
    decreases steps,
{
    let ghost key = dfa.key_of(state as int);
    if steps == 0 {
        proof {
            assert(dfa.state_ok(state as int));
            let e = Seq::<char>::empty();
            assert(run(dfa.nfa, dfa.alphabet@, key, e) == Some(key));
            assert(runs_from(dfa.nfa, dfa.alphabet@, key, e));
            assert(has_path(dfa.nfa, dfa.alphabet@, key, 0));
            if key_accepting(dfa.nfa, key) {
                assert(accepted_from(dfa.nfa, dfa.alphabet@, key, e));
            }
            if has_match(dfa.nfa, dfa.alphabet@, key, 0) {
                let w = choose|w: Seq<char>| w.len() == 0 && #[trigger] accepted_from(dfa.nfa, dfa.alphabet@, key, w);
                assert(w =~= e);
            }
            assert forall|w: Seq<char>|
                w.len() <= 0 && #[trigger] runs_from(dfa.nfa, dfa.alphabet@, key, w) implies interned(
                *dfa,
                run(dfa.nfa, dfa.alphabet@, key, w).unwrap(),
            ) by {
                assert(w =~= e);
            }
        }
        return if dfa.accepting[state] {
            Outlook::Matches
        } else {
            Outlook::Barren
        };
    }
    if steps < memo.len() && state < memo[steps].len() {
        if let Some(known) = memo[steps][state] {
            proof {
                assert(memo@[steps as int]@[state as int] is Some);
            }
            return known;
        }
    }
    // Recursion can grow the state table, so take the transitions first.
    let onward = dfa.onward(state);
    proof {
        lemma_memo_extends(*dfa, *old(dfa), memo@);
        lemma_outlook_step(dfa.nfa, dfa.alphabet@, key, (steps - 1) as nat);
    }
    let ghost oc = onward_chars(dfa.nfa, dfa.alphabet@, key);
    let mut outlook = Outlook::Nothing;
    let mut j: usize = 0;
    while j < onward.len()
        invariant
            dfa.wf(),
            dfa.extends(old(dfa)),
            memo_ok(*dfa, memo@),
            memo@.len() >= old(memo)@.len(),
            state < dfa.count(),
            dfa.key_of(state as int) == key,
            0 < steps < usize::MAX,
            oc == onward_chars(dfa.nfa, dfa.alphabet@, key),
            onward@.map_values(|e: (char, usize)| e.0) == oc,
            forall|t: int|
                0 <= t < onward@.len() ==> (#[trigger] onward@[t]).1 < dfa.count() && next_key(dfa.nfa, key, onward@[t].0)
                    == Some(dfa.key_of(onward@[t].1 as int)),
            j <= onward@.len(),
            (outlook == Outlook::Matches) <==> exists|t: int|
                0 <= t < j && #[trigger] has_match(
                    dfa.nfa,
                    dfa.alphabet@,
                    next_key(dfa.nfa, key, oc[t]).unwrap(),
                    (steps - 1) as nat,
                ),
            (outlook == Outlook::Nothing) <==> !exists|t: int|
                0 <= t < j && #[trigger] has_path(
                    dfa.nfa,
                    dfa.alphabet@,
                    next_key(dfa.nfa, key, oc[t]).unwrap(),
                    (steps - 1) as nat,
                ),
            forall|t: int|
                0 <= t < j ==> closed_within(
                    *dfa,
                    #[trigger] next_key(dfa.nfa, key, oc[t]).unwrap(),
                    (steps - 1) as nat,
                ),
        decreases onward@.len() - j,
    {
        let target = onward[j].1;
        proof {
            assert(onward@.map_values(|e: (char, usize)| e.0)[j as int] == onward@[j as int].0);
        }
        let ghost before = *dfa;
        let o = probe(dfa, memo, target, steps - 1);
        proof {
            dfa.lemma_extends_trans(&before, old(dfa));
            assert(dfa.key_of(state as int) == before.key_of(state as int));
            assert(dfa.key_of(target as int) == before.key_of(target as int));
            assert forall|t: int|
                0 <= t < onward@.len() implies (#[trigger] onward@[t]).1 < dfa.count() && next_key(dfa.nfa, key, onward@[t].0)
                    == Some(dfa.key_of(onward@[t].1 as int)) by {
                assert(dfa.key_of(onward@[t].1 as int) == before.key_of(onward@[t].1 as int));
            }
            assert forall|t: int|
                0 <= t < j implies closed_within(
                    *dfa,
                    #[trigger] next_key(dfa.nfa, key, oc[t]).unwrap(),
                    (steps - 1) as nat,
                ) by {
                lemma_closed_extends(*dfa, before, next_key(dfa.nfa, key, oc[t]).unwrap(), (steps - 1) as nat);
            }
            assert(next_key(dfa.nfa, key, oc[j as int]).unwrap() == dfa.key_of(target as int));
            let tk = dfa.key_of(target as int);
            if has_match(dfa.nfa, dfa.alphabet@, tk, (steps - 1) as nat) {
                let w = choose|w: Seq<char>| w.len() == (steps - 1) as nat && #[trigger] accepted_from(dfa.nfa, dfa.alphabet@, tk, w);
                assert(runs_from(dfa.nfa, dfa.alphabet@, tk, w));
            }
        }
        let ghost prev_outlook = outlook;
        outlook = merge(outlook, o);
        proof {
            let tk = next_key(dfa.nfa, key, oc[j as int]).unwrap();
            let hp = |t: int| has_path(dfa.nfa, dfa.alphabet@, next_key(dfa.nfa, key, oc[t]).unwrap(), (steps - 1) as nat);
            if has_path(dfa.nfa, dfa.alphabet@, tk, (steps - 1) as nat) {
                assert(o != Outlook::Nothing);
                assert(0 <= j < j + 1 && hp(j as int));
            } else {
                assert(o == Outlook::Nothing);
                assert forall|t: int| 0 <= t < j + 1 && #[trigger] has_path(dfa.nfa, dfa.alphabet@, next_key(dfa.nfa, key, oc[t]).unwrap(), (steps - 1) as nat)
                    implies 0 <= t < j by {
                }
            }
        }
        j = j + 1;
    }
    proof {
        assert(onward@.len() == oc.len());
        // Everything that at most `steps` characters reach is interned.
        assert forall|w: Seq<char>|
            w.len() <= steps && #[trigger] runs_from(dfa.nfa, dfa.alphabet@, key, w) implies interned(
            *dfa,
            run(dfa.nfa, dfa.alphabet@, key, w).unwrap(),
        ) by {
            if w.len() == 0 {
                assert(run(dfa.nfa, dfa.alphabet@, key, w) == Some(key));
                assert(dfa.key_of(state as int) == key);
            } else {
                crate::lang::lemma_first_step(dfa.nfa, dfa.alphabet@, key, w);
                let t = choose|t: int| 0 <= t < oc.len() && oc[t] == w[0];
                let k = next_key(dfa.nfa, key, oc[t]).unwrap();
                assert(closed_within(*dfa, k, (steps - 1) as nat));
                assert(runs_from(dfa.nfa, dfa.alphabet@, k, w.drop_first()));
            }
        }
    }
    let count = dfa.sets.len();
    while memo.len() <= steps
        invariant
            memo_ok(*dfa, memo@),
            memo@.len() >= old(memo)@.len(),
            steps < usize::MAX,
        decreases steps + 1 - memo.len(),
    {
        memo.push(Vec::new());
        proof {
            assert forall|s: int, id: int|
                0 <= s < memo@.len() && 0 <= id < memo@[s]@.len() && (#[trigger] memo@[s]@[id]) is Some implies {
                    &&& id < dfa.count()
                    &&& memo@[s]@[id].unwrap() == outlook_spec(*dfa, dfa.key_of(id), s as nat)
                    &&& closed_within(*dfa, dfa.key_of(id), s as nat)
                } by {
                if s == memo@.len() - 1 {
                    assert(memo@[s]@.len() == 0);
                }
            }
        }
    }
    while memo[steps].len() < count
        invariant
            memo_ok(*dfa, memo@),
            steps < memo@.len(),
            memo@.len() >= old(memo)@.len(),
            count == dfa.count(),
        decreases count - memo@[steps as int]@.len(),
    {
        let ghost before = memo@;
        memo[steps].push(None);
        proof {
            assert forall|s: int, id: int|
                0 <= s < memo@.len() && 0 <= id < memo@[s]@.len() && (#[trigger] memo@[s]@[id]) is Some implies {
                    &&& id < dfa.count()
                    &&& memo@[s]@[id].unwrap() == outlook_spec(*dfa, dfa.key_of(id), s as nat)
                    &&& closed_within(*dfa, dfa.key_of(id), s as nat)
                } by {
                if s != steps {
                    assert(memo@[s] == before[s]);
                } else if id < before[s]@.len() {
                    assert(memo@[s]@[id] == before[s]@[id]);
                }
            }
        }
    }
    let ghost before = memo@;
    memo[steps].set(state, Some(outlook));
    proof {
        assert(outlook == outlook_spec(*dfa, key, steps as nat));
        assert forall|s: int, id: int|
            0 <= s < memo@.len() && 0 <= id < memo@[s]@.len() && (#[trigger] memo@[s]@[id]) is Some implies {
                &&& id < dfa.count()
                &&& memo@[s]@[id].unwrap() == outlook_spec(*dfa, dfa.key_of(id), s as nat)
                &&& closed_within(*dfa, dfa.key_of(id), s as nat)
            } by {
            if s != steps {
                assert(memo@[s] == before[s]);
            } else if id != state {
                assert(memo@[s]@[id] == before[s]@[id]);
            }
        }
    }
    outlook
}

/// How far the depth-first walk along `path` still has to go: each depth is a
/// digit, the transitions it has left to try, weighted by `width` to the
/// power of the depths below it, out of `slots` depths in all.
spec fn digits(path: Seq<Step>, width: nat, slots: nat) -> nat
    decreases path.len(),
{
    if path.len() == 0 {
        0
    } else {
        let next = path.last().next;
        let digit: nat = if next < width {
            (width - 1 - next) as nat
        } else {
            0
        };
        digits(path.drop_last(), width, slots) + digit * power(width, (slots - path.len()) as nat)
    }
}

/// Giving up the deepest step, which still had a transition's worth of work,
/// shrinks the measure.
proof fn lemma_digits_pop(path: Seq<Step>, width: nat, slots: nat)
    requires
        path.len() > 0,
        path.last().next + 2 <= width,
    ensures
        digits(path.drop_last(), width, slots) < digits(path, width, slots),
{
    lemma_power_positive(width, (slots - path.len()) as nat);
    let p = power(width, (slots - path.len()) as nat);
    let digit = (width - 1 - path.last().next) as nat;
    assert(digit * p >= 1) by (nonlinear_arith)
        requires
            digit >= 1,
            p >= 1,
    ;
}

/// Moving the deepest step on to its next transition shrinks the measure,
/// and so does that together with stepping down to a fresh depth.
proof fn lemma_digits_advance(path: Seq<Step>, width: nat, slots: nat, state: usize, to: usize)
    requires
        path.len() > 0,
        path.len() < slots,
        path.last().next + 2 <= width,
        path.last().next < usize::MAX,
    ensures
        ({
            let bumped = path.update(path.len() - 1, Step { state, next: (path.last().next + 1) as usize });
            &&& digits(bumped, width, slots) < digits(path, width, slots)
            &&& digits(bumped.push(Step { state: to, next: 0 }), width, slots) < digits(path, width, slots)
        }),
{
    let n = path.len();
    let next = path.last().next;
    let bumped = path.update(n - 1, Step { state, next: (next + 1) as usize });
    assert(bumped.drop_last() =~= path.drop_last());
    let rest = digits(path.drop_last(), width, slots);
    let e = (slots - n - 1) as nat;
    let q = power(width, e);
    let p = power(width, (slots - n) as nat);
    assert(p == width * q) by {
        assert((slots - n) as nat == e + 1);
    }
    lemma_power_positive(width, e);
    lemma_power_positive(width, (slots - n) as nat);
    let digit = (width - 1 - next) as nat;
    assert(bumped.last().next == next + 1);
    assert(digits(path, width, slots) == rest + digit * p);
    assert(digits(bumped, width, slots) == rest + (digit - 1) * p);
    assert((digit - 1) * p < digit * p) by (nonlinear_arith)
        requires
            digit >= 1,
            p >= 1,
    ;
    let pushed = bumped.push(Step { state: to, next: 0 });
    assert(pushed.drop_last() =~= bumped);
    assert(digits(pushed, width, slots) == rest + (digit - 1) * p + (width - 1) * q);
    assert((digit - 1) * p + (width - 1) * q < digit * p) by (nonlinear_arith)
        requires
            p == width * q,
            q >= 1,
            width >= 1,
            digit >= 1,
    ;
}

/// One step of the depth-first walk: a state, and the index into its
/// transitions of the next one to try.
#[derive(Clone, Copy)]
pub struct Step {
    pub state: usize,
    pub next: usize,
}

/// An enumeration of the strings that a pattern matches, shortest first and
/// in dictionary order within each length.
///
/// All the state is the one path the depth-first walk is standing on.
pub struct Strings {
    dfa: Dfa,
    start: Option<usize>,
    /// Length being enumerated right now.
    target: usize,
    max_len: Option<usize>,
    /// Whether a pass has run, and so whether `target` needs advancing.
    started: bool,
    /// Consecutive lengths tried that turned up nothing.
    barren: usize,
    /// The states along `word`, starting with the start state, so one longer
    /// than `word` has characters.
    path: Vec<Step>,
    word: Vec<char>,
    /// Memo for `probe`, indexed by `[steps][state]`.
    outlook: Vec<Vec<Option<Outlook>>>,
    /// The string handed out last.
    last: Ghost<Option<Seq<char>>>,
}

impl Strings {
    /// The enumeration's alphabet, in order.
    pub closed spec fn alphabet(&self) -> Seq<char> {
        self.dfa.alphabet@
    }

    /// `w` is a string over the alphabet that the pattern matches.
    pub closed spec fn accepts(&self, w: Seq<char>) -> bool {
        crate::dfa::accepts(self.dfa.nfa, self.dfa.alphabet@, w)
    }

    /// The automaton whose language, over the alphabet, is enumerated.
    pub closed spec fn automaton(&self) -> Nfa {
        self.dfa.nfa
    }

    /// The length limit set with `max_len`.
    pub closed spec fn limit(&self) -> Option<usize> {
        self.max_len
    }

    /// The string handed out last, if any.
    pub closed spec fn last(&self) -> Option<Seq<char>> {
        self.last@
    }

    /// Strings shorter than this are behind the enumeration.
    pub closed spec fn low(&self) -> nat {
        if !self.started {
            0
        } else if self.path@.len() == 0 {
            (self.target + 1) as nat
        } else {
            self.target as nat
        }
    }

    /// The length being enumerated, while a pass is under way.
    pub closed spec fn pass_len(&self) -> Option<nat> {
        if self.path@.len() > 0 {
            Some(self.target as nat)
        } else {
            None
        }
    }

    /// `w` is within the length limit, or of the length being enumerated;
    /// either way shorter than `usize::MAX`.
    pub open spec fn in_bounds(&self, w: Seq<char>) -> bool {
        &&& w.len() < usize::MAX
        &&& (self.limit() matches Some(m) ==> (w.len() <= m || self.pass_len() == Some(w.len())))
    }

    /// `w` has not been passed yet.
    pub open spec fn unseen(&self, w: Seq<char>) -> bool {
        &&& w.len() >= self.low()
        &&& (self.last() matches Some(l) ==> shortlex_lt(l, w))
    }

    /// `w` is still to come.
    pub open spec fn candidate(&self, w: Seq<char>) -> bool {
        &&& self.accepts(w)
        &&& self.in_bounds(w)
        &&& self.unseen(w)
    }

    /// Nothing has been handed out yet, and no length limit is set: every
    /// string over `alphabet` that the pattern matches is still to come.
    pub open spec fn fresh(&self, alphabet: Seq<char>) -> bool {
        &&& self.wf()
        &&& self.alphabet() == alphabet
        &&& self.limit() is None
        &&& self.last() is None
        &&& self.pass_len() is None
        &&& forall|w: Seq<char>| #[trigger] self.unseen(w)
    }

    /// The strings that the enumeration accepts are exactly those over the
    /// alphabet in which `pattern` matches somewhere.
    pub open spec fn language_is(&self, pattern: Pattern) -> bool {
        forall|w: Seq<char>| #[trigger] self.accepts(w) <==> spelled_from(w, self.alphabet()) && matches_somewhere(pattern, self.alphabet(), w)
    }

    /// `after` and `item` are what a call of `next` may leave and return:
    /// `item` is the first of the strings still to come, and afterwards
    /// exactly the later ones are; `None` once none are left.
    pub open spec fn steps_to(&self, after: Strings, item: Option<Seq<char>>) -> bool {
        &&& after.wf()
        &&& after.same_language(self)
        &&& after.limit() == self.limit()
        &&& match item {
            Some(s) => {
                &&& self.candidate(s)
                &&& forall|w: Seq<char>| self.candidate(w) ==> !#[trigger] shortlex_lt(w, s)
                &&& after.last() == Some(s)
                &&& forall|w: Seq<char>| #[trigger] after.candidate(w) == (self.candidate(w) && shortlex_lt(s, w))
            },
            None => {
                &&& after.last() == self.last()
                &&& forall|w: Seq<char>| !#[trigger] self.candidate(w)
                &&& forall|w: Seq<char>| !#[trigger] after.candidate(w)
            },
        }
    }

    /// The strings accepted are exactly those over the alphabet that the
    /// automaton, read without pruning, accepts.
    pub proof fn lemma_accepts_automaton(&self, w: Seq<char>)
        requires
            self.wf(),
        ensures
            self.accepts(w) <==> spelled_from(w, self.alphabet()) && nfa_accepts(self.automaton(), w),
    {
        lemma_accepts_exactly(self.dfa.nfa, self.dfa.alphabet@, w);
    }

    /// Every string that the pattern accepts is spelled from the alphabet.
    pub proof fn lemma_accepts_alphabet(&self, w: Seq<char>)
        requires
            self.accepts(w),
        ensures
            forall|i: int| 0 <= i < w.len() ==> self.alphabet().contains(#[trigger] w[i]),
    {
        let nfa = self.dfa.nfa;
        let a = self.dfa.alphabet@;
        assert forall|i: int| 0 <= i < w.len() implies a.contains(#[trigger] w[i]) by {
            let k = start_key(nfa).unwrap();
            assert(runs_from(nfa, a, k, w));
            lemma_run_prefix(nfa, a, k, w, i);
            let rest = w.skip(i);
            assert(runs_from(nfa, a, run(nfa, a, k, w.take(i)).unwrap(), rest));
            lemma_first_step(nfa, a, run(nfa, a, k, w.take(i)).unwrap(), rest);
            assert(rest[0] == w[i]);
        }
    }

    /// `other` enumerates the same strings over the same alphabet.
    pub open spec fn same_language(&self, other: &Strings) -> bool {
        &&& self.alphabet() == other.alphabet()
        &&& forall|w: Seq<char>| #[trigger] self.accepts(w) == other.accepts(w)
    }

    spec fn start_key(&self) -> Key {
        start_key(self.dfa.nfa).unwrap()
    }

    spec fn key_at(&self, d: int) -> Key {
        self.dfa.key_of(self.path@[d].state as int)
    }

    spec fn oc(&self, d: int) -> Seq<char> {
        onward_chars(self.dfa.nfa, self.dfa.alphabet@, self.key_at(d))
    }

    /// How many transitions of the state at depth `d` are done with.
    spec fn lim(&self, d: int) -> int {
        if d < self.path@.len() - 1 {
            self.path@[d].next - 1
        } else {
            self.path@[d].next as int
        }
    }

    /// `u` agrees with the walk up to depth `d` and then takes a transition
    /// that is done with.
    spec fn behind_at(&self, u: Seq<char>, d: int, k: int) -> bool {
        &&& 0 <= d < self.path@.len()
        &&& d < u.len()
        &&& 0 <= k < self.lim(d)
        &&& u.take(d) == self.word@.take(d)
        &&& u[d] == self.oc(d)[k]
    }

    /// The walk has passed `u`.
    spec fn behind(&self, u: Seq<char>) -> bool {
        exists|d: int, k: int| #[trigger] self.behind_at(u, d, k)
    }

    spec fn path_ok(&self) -> bool {
        &&& self.path@.len() > 0 ==> {
            &&& self.started
            &&& self.start is Some
            &&& self.word@.len() + 1 == self.path@.len()
            &&& self.word@.len() <= self.target
            &&& self.path@[0].state == self.start.unwrap()
            &&& self.barren == 0
        }
        &&& forall|d: int|
            0 <= d < self.path@.len() ==> {
                &&& (#[trigger] self.path@[d]).state < self.dfa.count()
                &&& run(self.dfa.nfa, self.dfa.alphabet@, self.start_key(), self.word@.take(d)) == Some(self.key_at(d))
                &&& has_match(self.dfa.nfa, self.dfa.alphabet@, self.key_at(d), (self.target - d) as nat)
                &&& self.path@[d].next <= self.oc(d).len()
                &&& (d < self.path@.len() - 1 ==> 1 <= self.path@[d].next && self.oc(d)[self.path@[d].next - 1]
                    == self.word@[d])
            }
    }

    pub closed spec fn wf(&self) -> bool {
        &&& self.dfa.wf()
        &&& self.dfa.nfa.alive_exact(self.dfa.alphabet@)
        &&& memo_ok(self.dfa, self.outlook@)
        &&& (self.start matches Some(s) ==> s < self.dfa.count() && self.dfa.key_of(s as int)
            == start_key(self.dfa.nfa).unwrap())
        &&& (self.start is None <==> start_key(self.dfa.nfa) is None)
        &&& (!self.started ==> self.path@.len() == 0 && self.target == 0 && self.barren == 0 && self.last@ is None)
        &&& self.target < usize::MAX
        &&& (self.last@ matches Some(l) ==> l.len() <= self.target)
        &&& self.barren <= self.target + 1
        &&& (self.path@.len() == 0 ==> self.word@.len() == 0)
        &&& self.path_ok()
        &&& (self.path@.len() > 0 ==> forall|u: Seq<char>|
            #![trigger self.behind(u)]
            self.accepts(u) && u.len() == self.target ==> ((self.last@ is None || shortlex_lt(
                self.last@.unwrap(),
                u,
            )) <==> !self.behind(u)))
        &&& (self.started && self.path@.len() == 0 && self.start is Some ==> forall|t: nat|
            self.target - self.barren < t <= self.target ==> !#[trigger] has_match(
                self.dfa.nfa,
                self.dfa.alphabet@,
                self.start_key(),
                t,
            ))
    }
}

impl Strings {
    /// An enumeration of the strings over `alphabet` that `pattern` matches
    /// somewhere.
    pub fn new(pattern: &Pattern, alphabet: Alphabet) -> (strings: Strings)
        ensures
            strings.fresh(alphabet@),
            strings.language_is(*pattern),
    {
        let chars = alphabet.into_vec();
        let nfa = Nfa::build(pattern, &chars);
        let mut dfa = Dfa::new(nfa, chars);
        let mut first: Vec<usize> = Vec::new();
        first.push(dfa.nfa.start);
        let start = dfa.intern(&first, None);
        proof {
            assert(first@ =~= seq![dfa.nfa.start]);
            assert forall|x: usize| first@.to_set().contains(x) <==> Set::empty().insert(dfa.nfa.start).contains(x) by {
                if x == dfa.nfa.start {
                    assert(first@[0] == x);
                }
            }
            assert(first@.to_set() =~= Set::empty().insert(dfa.nfa.start));
            assert(memo_ok(dfa, Seq::<Vec<Option<Outlook>>>::empty()));
        }
        let strings = Strings {
            dfa,
            start,
            target: 0,
            max_len: None,
            started: false,
            barren: 0,
            path: Vec::new(),
            word: Vec::new(),
            outlook: Vec::new(),
            last: Ghost(None),
        };
        proof {
            assert(strings.dfa.wf());
            assert(memo_ok(strings.dfa, strings.outlook@));
            assert(strings.start is None <==> start_key(strings.dfa.nfa) is None);
            assert(strings.path_ok());
            if let Some(st) = strings.start {
                assert(strings.dfa.key_of(st as int) == (first@.to_set(), None::<char>));
                assert(alive_set(strings.dfa.nfa, first@.to_set(), None));
                assert(start_key(strings.dfa.nfa) == Some((first@.to_set(), None::<char>)));
            }
            assert forall|w: Seq<char>|
                #[trigger] strings.accepts(w) <==> spelled_from(w, strings.alphabet()) && matches_somewhere(*pattern, strings.alphabet(), w) by {
                lemma_accepts_exactly(strings.dfa.nfa, strings.dfa.alphabet@, w);
            }
        }
        strings
    }

    /// An enumeration of the strings over `alphabet` that the regular
    /// expression `pattern` matches somewhere, or `None` where `pattern` does
    /// not parse.
    pub fn parse(pattern: &str, alphabet: Alphabet) -> (found: Option<Strings>)
        ensures
            found is Some <==> parsed_pattern(pattern@) is Some,
            found matches Some(strings) ==> strings.fresh(alphabet@),
            found matches Some(strings) ==> strings.language_is(parsed_pattern(pattern@).unwrap()),
    {
        match parse_pattern(pattern) {
            Some(tree) => Some(Strings::new(&tree, alphabet)),
            None => None,
        }
    }

    /// Stops after strings of `max_len` characters.
    ///
    /// Also limits how far ahead the lazy search builds the automaton.
    pub fn max_len(self, max_len: usize) -> (strings: Strings)
        requires
            self.wf(),
        ensures
            strings.wf(),
            strings.same_language(&self),
            strings.limit() == Some(max_len),
            strings.last() == self.last(),
            strings.low() == self.low(),
            strings.pass_len() == self.pass_len(),
    {
        let mut strings = self;
        strings.max_len = Some(max_len);
        proof {
            assert forall|u: Seq<char>| #[trigger] strings.behind(u) == self.behind(u) by {
                if strings.behind(u) {
                    let (d, k) = choose|d: int, k: int| #[trigger] strings.behind_at(u, d, k);
                    assert(self.behind_at(u, d, k));
                }
                if self.behind(u) {
                    let (d, k) = choose|d: int, k: int| #[trigger] self.behind_at(u, d, k);
                    assert(strings.behind_at(u, d, k));
                }
            }
            assert(strings.path_ok() == self.path_ok());
        }
        strings
    }
}

impl Strings {
    proof fn lemma_accepts_match(&self, w: Seq<char>)
        requires
            start_key(self.dfa.nfa) is Some,
            self.accepts(w),
        ensures
            has_match(self.dfa.nfa, self.dfa.alphabet@, self.start_key(), w.len()),
    {
        assert(accepted_from(self.dfa.nfa, self.dfa.alphabet@, self.start_key(), w));
    }

    /// Decreases with every pass that starts.
    spec fn pass_measure(&self) -> int {
        usize::MAX - self.target + if self.started {
            0int
        } else {
            1int
        }
    }

    /// Starts the pass for the next length that has any matches, or returns
    /// `false` once no longer string can come at all.
    fn begin_pass(&mut self) -> (found: bool)
        requires
            old(self).wf(),
            old(self).path@.len() == 0,
        ensures
            final(self).wf(),
            final(self).same_language(old(self)),
            final(self).limit() == old(self).limit(),
            final(self).last() == old(self).last(),
            found ==> final(self).path@.len() == 1 && final(self).pass_measure() < old(self).pass_measure()
                && forall|w: Seq<char>| #[trigger] final(self).candidate(w) == old(self).candidate(w),
            !found ==> final(self).path@.len() == 0 && (forall|w: Seq<char>| !#[trigger] old(self).candidate(w))
                && (forall|w: Seq<char>| !#[trigger] final(self).candidate(w)),
            found ==> final(self).barren == 0 && final(self).path@[0] == (Step { state: final(self).start.unwrap(), next: 0 }),
            final(self).target <= (if old(self).started {
                old(self).target + 1
            } else {
                old(self).target as int
            }) + final(self).dfa.count(),
    {
        let start = match self.start {
            Some(s) => s,
            None => {
                proof {
                    assert forall|w: Seq<char>| !#[trigger] self.accepts(w) by {}
                }
                return false;
            },
        };
        let ghost nfa = self.dfa.nfa;
        let ghost alpha = self.dfa.alphabet@;
        let ghost sk = self.start_key();
        let ghost old_low = self.low();
        if self.started {
            if self.target >= usize::MAX - 1 {
                return false;
            }
            self.target = self.target + 1;
        }
        self.started = true;
        assert(self.target >= old_low);
        let ghost t0 = self.target as int;
        let ghost b0 = self.barren as int;
        loop
            invariant
                t0 == (if old(self).started {
                    old(self).target + 1
                } else {
                    old(self).target as int
                }),
                t0 <= self.target,
                self.barren == b0 + (self.target - t0),
                b0 >= 0,
                self.target - t0 <= self.dfa.count(),
                old(self).wf(),
                old(self).path@.len() == 0,
                old_low == old(self).low(),
                sk == old(self).start_key(),
                old(self).start == Some(start),
                self.dfa.wf(),
                self.dfa.extends(&old(self).dfa),
                memo_ok(self.dfa, self.outlook@),
                self.start == Some(start),
                start < self.dfa.count(),
                self.dfa.key_of(start as int) == sk,
                sk == start_key(nfa).unwrap(),
                start_key(nfa) is Some,
                nfa == self.dfa.nfa,
                alpha == self.dfa.alphabet@,
                self.path@.len() == 0,
                self.word@.len() == 0,
                self.started,
                self.max_len == old(self).max_len,
                self.last@ == old(self).last@,
                self.target < usize::MAX,
                self.target >= old_low,
                self.target > old(self).target || !old(self).started,
                self.barren <= self.target,
                self.last@ matches Some(l) ==> l.len() < self.target,
                forall|t: nat| old_low <= t < self.target ==> !#[trigger] has_match(nfa, alpha, sk, t),
                forall|t: nat| self.target - self.barren <= t < self.target ==> !#[trigger] has_match(nfa, alpha, sk, t),
            decreases usize::MAX - self.target,
        {
            if let Some(max_len) = self.max_len {
                if self.target > max_len {
                    self.barren = 0;
                    proof {
                        assert forall|w: Seq<char>| !#[trigger] old(self).candidate(w) by {
                            if old(self).candidate(w) {
                                old(self).lemma_accepts_match(w);
                            }
                        }
                        assert forall|w: Seq<char>| !#[trigger] self.candidate(w) by {}
                    }
                    return false;
                }
            }
            let o = probe(&mut self.dfa, &mut self.outlook, start, self.target);
            match o {
                Outlook::Nothing => {
                    proof {
                        assert forall|w: Seq<char>| old(self).accepts(w) implies w.len() < self.target by {
                            old(self).lemma_accepts_match(w);
                            if w.len() >= self.target {
                                crate::lang::lemma_no_path_beyond(nfa, alpha, sk, self.target as nat, w);
                                assert(accepted_from(nfa, alpha, sk, w));
                            }
                        }
                        assert forall|w: Seq<char>| !#[trigger] old(self).candidate(w) by {
                            if old(self).candidate(w) {
                                old(self).lemma_accepts_match(w);
                            }
                        }
                        assert forall|w: Seq<char>| !#[trigger] self.candidate(w) by {
                            if self.candidate(w) {
                                assert(old(self).accepts(w));
                            }
                        }
                    }
                    return false;
                },
                Outlook::Matches => {
                    self.barren = 0;
                    self.path.push(Step { state: start, next: 0 });
                    proof {
                        assert(has_match(nfa, alpha, sk, self.target as nat));
                        assert forall|w: Seq<char>| #[trigger] self.candidate(w) == old(self).candidate(w) by {
                            assert(self.accepts(w) == old(self).accepts(w));
                            if old(self).accepts(w) {
                                old(self).lemma_accepts_match(w);
                            }
                        }
                    }
                    return true;
                },
                Outlook::Barren => {},
            }
            self.barren = self.barren + 1;
            if self.barren > self.dfa.sets.len() {
                proof {
                    assert(!has_match(nfa, alpha, sk, self.target as nat));
                    let lo = (self.target - self.barren + 1) as nat;
                    let hi = self.target as nat;
                    assert forall|w: Seq<char>| old(self).accepts(w) implies w.len() < lo by {
                        old(self).lemma_accepts_match(w);
                        if w.len() >= lo {
                            crate::lang::lemma_barren_run(self.dfa, sk, lo, hi, w);
                            assert(accepted_from(nfa, alpha, sk, w));
                        }
                    }
                    assert forall|w: Seq<char>| !#[trigger] old(self).candidate(w) by {
                        if old(self).candidate(w) {
                            old(self).lemma_accepts_match(w);
                        }
                    }
                    assert forall|w: Seq<char>| !#[trigger] self.candidate(w) by {
                        if self.candidate(w) {
                            assert(self.accepts(w) == old(self).accepts(w));
                            assert(old(self).accepts(w));
                        }
                    }
                    assert(self.wf());
                }
                return false;
            }
            if self.target >= usize::MAX - 1 {
                proof {
                    assert(!has_match(nfa, alpha, sk, self.target as nat));
                    assert forall|w: Seq<char>| !#[trigger] old(self).candidate(w) by {
                        if old(self).candidate(w) {
                            old(self).lemma_accepts_match(w);
                        }
                    }
                    assert forall|w: Seq<char>| !#[trigger] self.candidate(w) by {
                        if self.candidate(w) {
                            assert(self.accepts(w) == old(self).accepts(w));
                            old(self).lemma_accepts_match(w);
                        }
                    }
                }
                return false;
            }
            self.target = self.target + 1;
        }
    }
}

impl Strings {
    spec fn dfs_measure(&self) -> nat {
        digits(self.path@, (self.dfa.alphabet@.len() + 2) as nat, (self.target + 1) as nat)
    }

    /// The transitions out of the state at depth `d` come in alphabet order,
    /// and each leads where a match is still reachable.
    proof fn lemma_oc(&self, d: int)
        requires
            self.wf(),
            0 <= d < self.path@.len(),
        ensures
            strictly_increasing(self.oc(d)),
            self.oc(d).len() <= self.dfa.alphabet@.len(),
            forall|k: int|
                0 <= k < self.oc(d).len() ==> self.dfa.alphabet@.contains(#[trigger] self.oc(d)[k]) && next_key(
                    self.dfa.nfa,
                    self.key_at(d),
                    self.oc(d)[k],
                ) is Some,
    {
        let f = |c: char| next_key(self.dfa.nfa, self.key_at(d), c) is Some;
        lemma_filter_increasing(self.dfa.alphabet@, f);
        assert forall|k: int| 0 <= k < self.oc(d).len() implies self.dfa.alphabet@.contains(#[trigger] self.oc(d)[k])
            && next_key(self.dfa.nfa, self.key_at(d), self.oc(d)[k]) is Some by {
            self.dfa.alphabet@.lemma_filter_pred(f, k);
        }
    }

    /// A word the pattern accepts that agrees with the walk's word up to depth
    /// `d` leaves the state there by one of its transitions, to a state with a
    /// match at the word's remaining length.
    proof fn lemma_through(&self, u: Seq<char>, d: int)
        requires
            self.wf(),
            0 <= d < self.path@.len(),
            d < u.len(),
            u.take(d) == self.word@.take(d),
            self.accepts(u),
        ensures
            exists|k: int| 0 <= k < self.oc(d).len() && self.oc(d)[k] == u[d],
            next_key(self.dfa.nfa, self.key_at(d), u[d]) is Some,
            has_match(
                self.dfa.nfa,
                self.dfa.alphabet@,
                next_key(self.dfa.nfa, self.key_at(d), u[d]).unwrap(),
                (u.len() - d - 1) as nat,
            ),
    {
        let nfa = self.dfa.nfa;
        let a = self.dfa.alphabet@;
        let sk = self.start_key();
        assert(self.path@[d].state < self.dfa.count());
        assert(run(nfa, a, sk, self.word@.take(d)) == Some(self.key_at(d)));
        assert(runs_from(nfa, a, sk, u));
        lemma_run_prefix(nfa, a, sk, u, d);
        let rest = u.skip(d);
        assert(run(nfa, a, sk, u) == run(nfa, a, self.key_at(d), rest));
        lemma_first_step(nfa, a, self.key_at(d), rest);
        assert(rest[0] == u[d]);
        let k2 = next_key(nfa, self.key_at(d), u[d]).unwrap();
        let tail = rest.drop_first();
        assert(accepted_from(nfa, a, k2, tail));
        assert(tail.len() == u.len() - d - 1);
        assert(self.oc(d).contains(u[d]));
    }

    /// A word the walk has passed, at a depth above the deepest, comes before
    /// the walk's word.
    proof fn lemma_behind_before(&self, u: Seq<char>, d: int, k: int)
        requires
            self.wf(),
            self.behind_at(u, d, k),
            d < self.path@.len() - 1,
        ensures
            lex_lt(u, self.word@),
    {
        self.lemma_oc(d);
        let nx = self.path@[d].next;
        assert(self.oc(d)[nx - 1] == self.word@[d]);
        assert(u[d] < self.word@[d]);
        assert(u.take(d) == self.word@.take(d));
    }

    /// With the walk at full length, a word of that length that the pattern
    /// accepts and that the walk has not passed is the walk's word or comes
    /// after it.
    proof fn lemma_not_behind_after(&self, u: Seq<char>)
        requires
            self.wf(),
            self.path@.len() == self.target + 1,
            self.accepts(u),
            u.len() == self.target,
            !self.behind(u),
        ensures
            u == self.word@ || lex_lt(self.word@, u),
    {
        if u != self.word@ {
            assert(u.take(0) =~= self.word@.take(0));
            let i = lemma_first_diff(u, self.word@, 0);
            self.lemma_through(u, i);
            self.lemma_oc(i);
            let k = choose|k: int| 0 <= k < self.oc(i).len() && self.oc(i)[k] == u[i];
            let nx = self.path@[i].next;
            assert(self.oc(i)[nx - 1] == self.word@[i]);
            if k < nx - 1 {
                assert(self.behind_at(u, i, k));
                assert(false);
            }
            assert(k != nx - 1);
            assert(self.word@[i] < u[i]);
            assert(self.word@.take(i) == u.take(i));
        }
    }
}

impl Strings {
    /// `g` is `self` with the automaton grown and the memo brought along.
    spec fn regrown(&self, g: &Strings) -> bool {
        &&& g.dfa.wf()
        &&& g.dfa.extends(&self.dfa)
        &&& memo_ok(g.dfa, g.outlook@)
        &&& g.start == self.start
        &&& g.target == self.target
        &&& g.max_len == self.max_len
        &&& g.started == self.started
        &&& g.barren == self.barren
        &&& g.path@ == self.path@
        &&& g.word@ == self.word@
        &&& g.last@ == self.last@
    }

    /// Growing the automaton changes nothing that the enumeration depends on.
    proof fn lemma_regrow(&self, g: &Strings)
        requires
            self.wf(),
            self.regrown(g),
        ensures
            g.wf(),
            g.same_language(self),
            g.limit() == self.limit(),
            g.last() == self.last(),
            forall|w: Seq<char>| #[trigger] g.candidate(w) == self.candidate(w),
            g.dfs_measure() == self.dfs_measure(),
            g.pass_measure() == self.pass_measure(),
    {
        assert forall|d: int| 0 <= d < self.path@.len() implies #[trigger] g.key_at(d) == self.key_at(d) by {
            assert(self.path@[d].state < self.dfa.count());
        }
        assert forall|u: Seq<char>| #[trigger] g.behind(u) == self.behind(u) by {
            if g.behind(u) {
                let (d, k) = choose|d: int, k: int| #[trigger] g.behind_at(u, d, k);
                assert(g.key_at(d) == self.key_at(d));
                assert(self.behind_at(u, d, k));
            }
            if self.behind(u) {
                let (d, k) = choose|d: int, k: int| #[trigger] self.behind_at(u, d, k);
                assert(g.key_at(d) == self.key_at(d));
                assert(g.behind_at(u, d, k));
            }
        }
        assert forall|w: Seq<char>| #[trigger] g.accepts(w) == self.accepts(w) by {}
        if let Some(st) = self.start {
            assert(g.dfa.key_of(st as int) == self.dfa.key_of(st as int));
        }
        assert forall|d: int| 0 <= d < g.path@.len() implies {
            &&& (#[trigger] g.path@[d]).state < g.dfa.count()
            &&& run(g.dfa.nfa, g.dfa.alphabet@, g.start_key(), g.word@.take(d)) == Some(g.key_at(d))
            &&& has_match(g.dfa.nfa, g.dfa.alphabet@, g.key_at(d), (g.target - d) as nat)
            &&& g.path@[d].next <= g.oc(d).len()
            &&& (d < g.path@.len() - 1 ==> 1 <= g.path@[d].next && g.oc(d)[g.path@[d].next - 1] == g.word@[d])
        } by {
            assert(self.path@[d] == g.path@[d]);
            assert(g.key_at(d) == self.key_at(d));
        }
        assert(g.path_ok());
    }
}

impl Strings {
    /// `g` is `self` with only the walk (and what was handed out) changed.
    spec fn walk_moved(&self, g: &Strings) -> bool {
        &&& g.dfa == self.dfa
        &&& g.outlook@ == self.outlook@
        &&& g.start == self.start
        &&& g.target == self.target
        &&& g.max_len == self.max_len
        &&& g.started == self.started
        &&& g.barren == self.barren
    }

    /// The walk's word without its last character, if it has one.
    spec fn shorter_word(&self) -> Seq<char> {
        if self.word@.len() > 0 {
            self.word@.drop_last()
        } else {
            self.word@
        }
    }

    /// Backing out of a state whose transitions are all done with leaves the
    /// strings still to come as they were.
    proof fn lemma_retreat(&self, g: &Strings)
        requires
            self.wf(),
            self.path@.len() > 0,
            self.path@.len() - 1 < self.target,
            self.path@.last().next >= self.oc(self.path@.len() - 1).len(),
            self.walk_moved(g),
            g.path@ == self.path@.drop_last(),
            g.word@ == self.shorter_word(),
            g.last@ == self.last@,
        ensures
            g.wf(),
            g.same_language(self),
            g.limit() == self.limit(),
            g.last() == self.last(),
            forall|w: Seq<char>| #[trigger] g.candidate(w) == self.candidate(w),
            g.dfs_measure() < self.dfs_measure(),
            g.pass_measure() == self.pass_measure(),
    {
        let n = self.path@.len();
        let depth = n - 1;
        self.lemma_oc(depth);
        lemma_digits_pop(self.path@, (self.dfa.alphabet@.len() + 2) as nat, (self.target + 1) as nat);
        assert(self.word@.len() == depth);
        assert forall|d: int| 0 <= d < g.path@.len() implies #[trigger] g.key_at(d) == self.key_at(d) && g.oc(d)
            == self.oc(d) && g.word@.take(d) == self.word@.take(d) by {
            assert(g.path@[d] == self.path@[d]);
            assert(g.word@.take(d) =~= self.word@.take(d));
        }
        if n == 1 {
            // The last state of the pass: every word of this length is
            // passed, and none of them is still to come.
            assert forall|w: Seq<char>| #[trigger] g.candidate(w) == self.candidate(w) by {
                if self.candidate(w) && w.len() == self.target {
                    assert(w.take(0) =~= self.word@.take(0));
                    self.lemma_through(w, 0);
                    let k = choose|k: int| 0 <= k < self.oc(0).len() && self.oc(0)[k] == w[0];
                    assert(self.behind_at(w, 0, k));
                    assert(self.behind(w));
                }
                assert(g.low() == self.target + 1);
                assert(self.low() == self.target);
                assert(g.pass_len() is None);
                assert(self.pass_len() == Some(self.target as nat));
            }
            assert(g.path_ok());
        } else {
            assert forall|u: Seq<char>| self.accepts(u) && u.len() == self.target implies #[trigger] g.behind(u)
                == self.behind(u) by {
                if self.behind(u) {
                    let (d, k) = choose|d: int, k: int| #[trigger] self.behind_at(u, d, k);
                    if d < depth {
                        assert(g.key_at(d) == self.key_at(d));
                        assert(g.lim(d) >= self.lim(d));
                        assert(g.behind_at(u, d, k));
                    } else {
                        let nx = self.path@[depth - 1].next;
                        assert(self.oc(depth - 1)[nx - 1] == self.word@[depth - 1]);
                        assert(u.take(depth) == self.word@);
                        assert(u[depth - 1] == self.word@[depth - 1]) by {
                            assert(u.take(depth)[depth - 1] == u[depth - 1]);
                        }
                        assert(u.take(depth - 1) =~= g.word@.take(depth - 1)) by {
                            assert(u.take(depth - 1) =~= u.take(depth).take(depth - 1));
                        }
                        assert(g.behind_at(u, depth - 1, nx - 1));
                    }
                }
                if g.behind(u) {
                    let (d, k) = choose|d: int, k: int| #[trigger] g.behind_at(u, d, k);
                    if k < self.lim(d) {
                        assert(self.behind_at(u, d, k));
                    } else {
                        assert(d == depth - 1);
                        let nx = self.path@[depth - 1].next;
                        assert(k == nx - 1);
                        assert(u[depth - 1] == self.word@[depth - 1]);
                        assert(u.take(depth) =~= self.word@.take(depth)) by {
                            assert forall|i: int| 0 <= i < depth implies u.take(depth)[i] == self.word@.take(depth)[i] by {
                                if i < depth - 1 {
                                    assert(u.take(depth - 1)[i] == g.word@.take(depth - 1)[i]);
                                }
                            }
                        }
                        self.lemma_through(u, depth);
                        let k2 = choose|k2: int| 0 <= k2 < self.oc(depth).len() && self.oc(depth)[k2] == u[depth];
                        assert(self.behind_at(u, depth, k2));
                    }
                }
            }
            assert(g.path_ok());
        }
    }
}

impl Strings {
    /// The walk's steps after moving the deepest one on to its next
    /// transition, and stepping down along it when a match lies that way.
    spec fn advanced(&self, to: usize, onward: bool) -> Seq<Step> {
        let depth = self.path@.len() - 1;
        let bumped = self.path@.update(
            depth,
            Step { state: self.path@[depth].state, next: (self.path@[depth].next + 1) as usize },
        );
        if onward {
            bumped.push(Step { state: to, next: 0 })
        } else {
            bumped
        }
    }

    /// Trying the next transition of the deepest state, and stepping down
    /// along it exactly when a match of the pass's length lies that way,
    /// leaves the strings still to come as they were.
    proof fn lemma_advance(&self, g: &Strings, ch: char, to: usize)
        requires
            self.wf(),
            self.path@.len() > 0,
            self.path@.len() - 1 < self.target,
            self.path@.last().next < self.oc(self.path@.len() - 1).len(),
            ch == self.oc(self.path@.len() - 1)[self.path@.last().next as int],
            to < self.dfa.count(),
            next_key(self.dfa.nfa, self.key_at(self.path@.len() - 1), ch) == Some(self.dfa.key_of(to as int)),
            self.walk_moved(g),
            g.last@ == self.last@,
            ({
                let down = has_match(
                    self.dfa.nfa,
                    self.dfa.alphabet@,
                    self.dfa.key_of(to as int),
                    (self.target - self.path@.len()) as nat,
                );
                &&& g.path@ == self.advanced(to, down)
                &&& g.word@ == if down {
                    self.word@.push(ch)
                } else {
                    self.word@
                }
            }),
        ensures
            g.wf(),
            g.same_language(self),
            g.limit() == self.limit(),
            g.last() == self.last(),
            forall|w: Seq<char>| #[trigger] g.candidate(w) == self.candidate(w),
            g.dfs_measure() < self.dfs_measure(),
            g.pass_measure() == self.pass_measure(),
    {
        let n = self.path@.len();
        let depth = n - 1;
        let nfa = self.dfa.nfa;
        let a = self.dfa.alphabet@;
        let nx = self.path@[depth].next;
        let down = has_match(nfa, a, self.dfa.key_of(to as int), (self.target - n) as nat);
        self.lemma_oc(depth);
        assert(self.word@.len() == depth);
        assert(a.len() <= usize::MAX) by {
            assert(self.dfa.alphabet@.len() == self.dfa.alphabet.len());
        }
        assert(g.path@[depth].next == nx + 1);
        assert forall|d: int| 0 <= d < depth implies #[trigger] g.path@[d] == self.path@[d] by {}
        lemma_digits_advance(
            self.path@,
            (a.len() + 2) as nat,
            (self.target + 1) as nat,
            self.path@[depth].state,
            to,
        );
        assert forall|d: int| 0 <= d <= depth implies #[trigger] g.key_at(d) == self.key_at(d) && g.oc(d) == self.oc(
            d,
        ) && g.word@.take(d) == self.word@.take(d) by {
            assert(g.path@[d].state == self.path@[d].state);
            assert(g.word@.take(d) =~= self.word@.take(d));
        }
        if down {
            let sk = self.start_key();
            assert(g.word@.take(depth + 1) =~= self.word@ + seq![ch]);
            assert(self.word@.take(depth) =~= self.word@);
            crate::lang::lemma_run_append(nfa, a, sk, self.word@, seq![ch]);
            crate::lang::lemma_run_cons(nfa, a, self.key_at(depth), ch, Seq::<char>::empty());
            assert(seq![ch] + Seq::<char>::empty() =~= seq![ch]);
            assert(g.key_at(depth + 1) == self.dfa.key_of(to as int));
        }
        assert forall|d: int| 0 <= d < g.path@.len() implies {
            &&& (#[trigger] g.path@[d]).state < g.dfa.count()
            &&& run(g.dfa.nfa, g.dfa.alphabet@, g.start_key(), g.word@.take(d)) == Some(g.key_at(d))
            &&& has_match(g.dfa.nfa, g.dfa.alphabet@, g.key_at(d), (g.target - d) as nat)
            &&& g.path@[d].next <= g.oc(d).len()
            &&& (d < g.path@.len() - 1 ==> 1 <= g.path@[d].next && g.oc(d)[g.path@[d].next - 1] == g.word@[d])
        } by {
            if d <= depth {
                assert(g.key_at(d) == self.key_at(d));
            }
        }
        assert(g.path_ok());
        assert forall|u: Seq<char>| self.accepts(u) && u.len() == self.target implies #[trigger] g.behind(u)
            == self.behind(u) by {
            if self.behind(u) {
                let (d, k) = choose|d: int, k: int| #[trigger] self.behind_at(u, d, k);
                assert(g.key_at(d) == self.key_at(d));
                if d < depth {
                    assert(g.path@[d] == self.path@[d]);
                }
                assert(g.lim(d) >= self.lim(d));
                assert(g.behind_at(u, d, k));
            }
            if g.behind(u) {
                let (d, k) = choose|d: int, k: int| #[trigger] g.behind_at(u, d, k);
                assert(d <= depth);
                if d < depth {
                    assert(g.path@[d] == self.path@[d]);
                }
                assert(g.key_at(d) == self.key_at(d));
                if k < self.lim(d) {
                    assert(self.behind_at(u, d, k));
                } else {
                    assert(!down && d == depth && k == nx);
                    self.lemma_through(u, depth);
                    assert(false);
                }
            }
        }
    }
}

impl Strings {
    /// Handing out the walk's word at the pass's length: it is the first of
    /// the strings still to come, and afterwards exactly the strings after it
    /// are.
    proof fn lemma_emit(&self, g: &Strings)
        requires
            self.wf(),
            self.path@.len() == self.target + 1,
            self.walk_moved(g),
            g.path@ == self.path@.drop_last(),
            g.word@ == self.shorter_word(),
            g.last@ == Some(self.word@),
        ensures
            g.wf(),
            g.same_language(self),
            g.limit() == self.limit(),
            g.last() == Some(self.word@),
            self.candidate(self.word@),
            forall|w: Seq<char>| self.candidate(w) ==> !#[trigger] shortlex_lt(w, self.word@),
            forall|w: Seq<char>| #[trigger] g.candidate(w) == (self.candidate(w) && shortlex_lt(self.word@, w)),
    {
        let t = self.target as int;
        let word = self.word@;
        let nfa = self.dfa.nfa;
        let a = self.dfa.alphabet@;
        let sk = self.start_key();
        assert(word.len() == t);
        // The word is accepted.
        assert(self.path@[t].state < self.dfa.count());
        assert(word.take(t) =~= word);
        let kt = self.key_at(t);
        assert(has_match(nfa, a, kt, 0));
        let w0 = choose|w0: Seq<char>| w0.len() == 0 && #[trigger] accepted_from(nfa, a, kt, w0);
        assert(w0 =~= Seq::<char>::empty());
        assert(self.accepts(word));
        // The walk has not passed it.
        lemma_lex_asym_self(word);
        if self.behind(word) {
            let (d, k) = choose|d: int, k: int| #[trigger] self.behind_at(word, d, k);
            self.lemma_behind_before(word, d, k);
        }
        assert(!self.behind(word));
        assert(self.unseen(word));
        assert(self.candidate(word));
        // Nothing still to come is before it.
        assert forall|w: Seq<char>| self.candidate(w) implies !#[trigger] shortlex_lt(w, word) by {
            if w.len() == t {
                assert(!self.behind(w));
                self.lemma_not_behind_after(w);
                if w != word {
                    lemma_lex_asym(word, w);
                }
            }
        }
        // The walk one step shorter.
        assert forall|d: int| 0 <= d < g.path@.len() implies #[trigger] g.key_at(d) == self.key_at(d) && g.oc(d)
            == self.oc(d) && g.word@.take(d) == word.take(d) && g.path@[d] == self.path@[d] by {
            assert(g.path@[d] == self.path@[d]);
            assert(g.word@.take(d) =~= word.take(d));
        }
        assert forall|d: int| 0 <= d < g.path@.len() implies {
            &&& (#[trigger] g.path@[d]).state < g.dfa.count()
            &&& run(g.dfa.nfa, g.dfa.alphabet@, g.start_key(), g.word@.take(d)) == Some(g.key_at(d))
            &&& has_match(g.dfa.nfa, g.dfa.alphabet@, g.key_at(d), (g.target - d) as nat)
            &&& g.path@[d].next <= g.oc(d).len()
            &&& (d < g.path@.len() - 1 ==> 1 <= g.path@[d].next && g.oc(d)[g.path@[d].next - 1] == g.word@[d])
        } by {
            assert(g.key_at(d) == self.key_at(d));
            if d < g.path@.len() - 1 {
                assert(g.word@[d] == word[d]);
            }
        }
        assert(g.path_ok());
        if t > 0 {
            let nx = self.path@[t - 1].next;
            assert(self.oc(t - 1)[nx - 1] == word[t - 1]);
            assert forall|u: Seq<char>| self.accepts(u) && u.len() == t implies #[trigger] g.behind(u) == (
            self.behind(u) || u == word) by {
                if u == word {
                    assert(g.key_at(t - 1) == self.key_at(t - 1));
                    assert(g.behind_at(u, t - 1, nx - 1));
                }
                if self.behind(u) {
                    let (d, k) = choose|d: int, k: int| #[trigger] self.behind_at(u, d, k);
                    assert(g.key_at(d) == self.key_at(d));
                    assert(g.behind_at(u, d, k));
                }
                if g.behind(u) {
                    let (d, k) = choose|d: int, k: int| #[trigger] g.behind_at(u, d, k);
                    assert(g.key_at(d) == self.key_at(d));
                    if k < self.lim(d) {
                        assert(self.behind_at(u, d, k));
                    } else {
                        assert(d == t - 1 && k == nx - 1);
                        assert(u[t - 1] == word[t - 1]);
                        assert forall|i: int| 0 <= i < t implies u[i] == word[i] by {
                            if i < t - 1 {
                                assert(u.take(t - 1)[i] == g.word@.take(t - 1)[i]);
                            }
                        }
                        assert(u =~= word);
                    }
                }
            }
            assert forall|u: Seq<char>| #![trigger g.behind(u)] g.accepts(u) && u.len() == g.target implies (
            (g.last@ is None || shortlex_lt(g.last@.unwrap(), u)) <==> !g.behind(u)) by {
                if lex_lt(word, u) {
                    lemma_lex_asym(word, u);
                    if self.behind(u) {
                        let (d, k) = choose|d: int, k: int| #[trigger] self.behind_at(u, d, k);
                        self.lemma_behind_before(u, d, k);
                    }
                }
                if !g.behind(u) {
                    self.lemma_not_behind_after(u);
                }
            }
        }
        assert(g.wf());
        // What is still to come afterwards.
        assert forall|w: Seq<char>| #[trigger] g.candidate(w) == (self.candidate(w) && shortlex_lt(word, w)) by {
            if g.candidate(w) {
                if let Some(l) = self.last@ {
                    lemma_shortlex_trans(l, word, w);
                }
            }
            if t == 0 && shortlex_lt(word, w) {
                assert(w.len() > 0);
            }
        }
    }
}

/// The characters of `chars` as a `String`. std's `FromIterator<char>` for
/// `String` appends the characters one after another, in order.
#[verifier::external_body]
fn chars_to_string(chars: &Vec<char>) -> (text: String)
    ensures
        text@ == chars@,
{
    String::from_iter(chars.iter())
}

impl Strings {
    /// The next string still to come: the shortest, and the first in
    /// alphabet order among those as short, or `None` once there are none.
    pub fn next(&mut self) -> (item: Option<String>)
        requires
            old(self).wf(),
        ensures
            old(self).steps_to(
                *final(self),
                match item {
                    Some(s) => Some(s@),
                    None => None,
                },
            ),
    {
        loop
            invariant
                self.wf(),
                self.same_language(old(self)),
                self.limit() == old(self).limit(),
                self.last() == old(self).last(),
                forall|w: Seq<char>| #[trigger] self.candidate(w) == old(self).candidate(w),
            decreases self.pass_measure(), self.dfs_measure(),
        {
            let ghost entry = *self;
            if self.path.len() == 0 {
                if !self.begin_pass() {
                    proof {
                        assert forall|w: Seq<char>| !#[trigger] old(self).candidate(w) by {
                            assert(entry.candidate(w) == old(self).candidate(w));
                        }
                    }
                    return None;
                }
            }
            let ghost begun = *self;
            let depth = self.path.len() - 1;
            let state = self.path[depth].state;
            let next = self.path[depth].next;
            if depth == self.target {
                let text = chars_to_string(&self.word);
                self.path.pop();
                self.word.pop();
                self.last = Ghost(Some(begun.word@));
                proof {
                    assert(self.word@ == begun.shorter_word());
                    begun.lemma_emit(self);
                }
                return Some(text);
            }
            let onward = self.dfa.onward(state);
            proof {
                lemma_memo_extends(self.dfa, begun.dfa, self.outlook@);
                begun.lemma_regrow(self);
                assert(self.key_at(depth as int) == self.dfa.key_of(state as int));
                assert(onward@.len() == self.oc(depth as int).len()) by {
                    assert(onward@.map_values(|e: (char, usize)| e.0).len() == onward@.len());
                }
            }
            if next >= onward.len() {
                let ghost grown = *self;
                self.path.pop();
                self.word.pop();
                proof {
                    assert(self.word@ == grown.shorter_word());
                    grown.lemma_retreat(self);
                }
                continue;
            }
            let (ch, to) = onward[next];
            proof {
                assert(onward@.map_values(|e: (char, usize)| e.0)[next as int] == ch);
            }
            let ghost grown = *self;
            let outlook = probe(&mut self.dfa, &mut self.outlook, to, self.target - depth - 1);
            proof {
                grown.lemma_regrow(self);
            }
            let ghost probed = *self;
            self.path.set(depth, Step { state, next: next + 1 });
            if outlook == Outlook::Matches {
                self.word.push(ch);
                self.path.push(Step { state: to, next: 0 });
            }
            proof {
                assert(self.dfa.key_of(to as int) == grown.dfa.key_of(to as int));
                probed.lemma_advance(self, ch, to);
            }
        }
    }
}

} // verus!
