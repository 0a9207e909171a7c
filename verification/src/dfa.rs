//! The automaton determinized lazily: sets of states interned as they are
//! reached, with the moves out of each filled in on demand.

use vstd::prelude::*;

use std::collections::HashMap;

use crate::alphabet::strictly_increasing;
use crate::nfa::{Nfa, bools};

verus! {

broadcast use {
    vstd::std_specs::hash::axiom_u64_obeys_hash_table_key_model,
    vstd::std_specs::hash::axiom_random_state_builds_valid_hashers,
    vstd::std_specs::hash::axiom_contains_deref_key,
    vstd::std_specs::hash::axiom_maps_deref_key_to_value,
};

/// The modulus of `key_hash`, a prime below 2^31.
pub const HASH_MODULUS: u64 = 2_147_483_647;

/// A polynomial hash of the NFA states of a sorted state set.
pub open spec fn fold_hash(s: Seq<usize>) -> nat
    decreases s.len(),
{
    if s.len() == 0 {
        0
    } else {
        (fold_hash(s.drop_last()) * 31 + (s.last() as nat) % (HASH_MODULUS as nat)) % (HASH_MODULUS as nat)
    }
}

/// The hash under which a state with sorted NFA states `s` and previous
/// character `prev` is filed in the index.
pub open spec fn key_hash(s: Seq<usize>, prev: Option<char>) -> u64 {
    let p: nat = match prev {
        Some(c) => (c as u32) as nat + 1,
        None => 0,
    };
    ((fold_hash(s) * 31 + p) % (HASH_MODULUS as nat)) as u64
}

/// A state of the lazily determinized automaton: the set of NFA states that
/// the characters read so far lead to, before the epsilon closure at the
/// current position, together with the character just read. Both decide what
/// a `$` or `\b` one step further on sees.
pub type Key = (Set<usize>, Option<char>);

/// Some state of `s` can still reach the accepting state.
pub open spec fn alive_set(nfa: Nfa, s: Set<usize>, prev: Option<char>) -> bool {
    exists|q: usize|
        #![trigger s.contains(q)]
        s.contains(q) && q < nfa.n() && (if prev is None {
            nfa.alive_anywhere@[q as int]
        } else {
            nfa.alive_later@[q as int]
        })
}

/// The states that consuming `ch` leads to from `key`.
pub open spec fn step_set(nfa: Nfa, key: Key, ch: char) -> Set<usize> {
    Set::new(|r: usize| nfa.step_target(nfa.closure_set(key.0, key.1, Some(ch)), ch, r))
}

/// The state that consuming `ch` leads to from `key`, if a match can still
/// be reached from there.
pub open spec fn next_key(nfa: Nfa, key: Key, ch: char) -> Option<Key> {
    let s = step_set(nfa, key, ch);
    if alive_set(nfa, s, Some(ch)) {
        Some((s, Some(ch)))
    } else {
        None
    }
}

/// At the end of the text after `key`, the accepting state is reached.
pub open spec fn key_accepting(nfa: Nfa, key: Key) -> bool {
    nfa.in_closure(key.0, key.1, None, nfa.accept)
}

/// The state before any character is read, if a match can be reached at all.
pub open spec fn start_key(nfa: Nfa) -> Option<Key> {
    let s = Set::empty().insert(nfa.start);
    if alive_set(nfa, s, None) {
        Some((s, None))
    } else {
        None
    }
}

/// The state that reading `w` from `key` leads to, where every character of
/// `w` is in `alphabet` and a match stays reachable all along.
pub open spec fn run(nfa: Nfa, alphabet: Seq<char>, key: Key, w: Seq<char>) -> Option<Key>
    decreases w.len(),
{
    if w.len() == 0 {
        Some(key)
    } else if !alphabet.contains(w[0]) {
        None
    } else {
        match next_key(nfa, key, w[0]) {
            Some(k) => run(nfa, alphabet, k, w.drop_first()),
            None => None,
        }
    }
}

/// `w` is spelled from `alphabet` and the automaton accepts it.
pub open spec fn accepts(nfa: Nfa, alphabet: Seq<char>, w: Seq<char>) -> bool {
    &&& start_key(nfa) is Some
    &&& run(nfa, alphabet, start_key(nfa).unwrap(), w) matches Some(k)
    &&& key_accepting(nfa, k)
}

/// The characters of `alphabet`, in order, that lead somewhere from `key`.
pub open spec fn onward_chars(nfa: Nfa, alphabet: Seq<char>, key: Key) -> Seq<char> {
    alphabet.filter(|c: char| next_key(nfa, key, c) is Some)
}

/// The automaton, determinized on demand. State `id` has the NFA states
/// `sets[id]` (sorted, without repeats), the previous character `prevs[id]`,
/// and, once computed, its outgoing transitions `onward[id]` as
/// `(character, state)` in alphabet order. `index` files every state under
/// the hash of its key, so that a state is found again without a scan.
pub struct Dfa {
    pub nfa: Nfa,
    pub alphabet: Vec<char>,
    pub sets: Vec<Vec<usize>>,
    pub prevs: Vec<Option<char>>,
    pub accepting: Vec<bool>,
    pub onward: Vec<Option<Vec<(char, usize)>>>,
    pub index: HashMap<u64, Vec<usize>>,
}

pub open spec fn usize_increasing(s: Seq<usize>) -> bool {
    forall|i: int, j: int| 0 <= i < j < s.len() ==> s[i] < s[j]
}

impl Dfa {
    pub open spec fn count(&self) -> nat {
        self.sets@.len()
    }

    pub open spec fn key_of(&self, id: int) -> Key {
        (self.sets@[id]@.to_set(), self.prevs@[id])
    }

    /// The transitions of state `id`, as recorded, agree with the automaton.
    pub open spec fn onward_ok(&self, id: int, list: Seq<(char, usize)>) -> bool {
        &&& list.map_values(|e: (char, usize)| e.0) == onward_chars(self.nfa, self.alphabet@, self.key_of(id))
        &&& forall|j: int|
            0 <= j < list.len() ==> (#[trigger] list[j]).1 < self.count() && next_key(
                self.nfa,
                self.key_of(id),
                list[j].0,
            ) == Some(self.key_of(list[j].1 as int))
    }

    pub open spec fn state_ok(&self, id: int) -> bool {
        &&& usize_increasing(self.sets@[id]@)
        &&& forall|k: int| 0 <= k < self.sets@[id]@.len() ==> #[trigger] self.sets@[id]@[k] < self.nfa.n()
        &&& alive_set(self.nfa, self.key_of(id).0, self.key_of(id).1)
        &&& self.accepting@[id] == key_accepting(self.nfa, self.key_of(id))
        &&& (self.prevs@[id] matches Some(c) ==> self.alphabet@.contains(c))
        &&& (self.onward@[id] matches Some(list) ==> self.onward_ok(id, list@))
    }

    pub open spec fn hash_of(&self, id: int) -> u64 {
        key_hash(self.sets@[id]@, self.prevs@[id])
    }

    /// State `id` is listed in the index under the hash of its key.
    pub open spec fn indexed(&self, id: int) -> bool {
        &&& self.index@.contains_key(self.hash_of(id))
        &&& exists|k: int|
            0 <= k < self.index@[self.hash_of(id)]@.len() && #[trigger] self.index@[self.hash_of(id)]@[k] as int == id
    }

    /// Every state is listed in the index, and the index lists only states.
    pub open spec fn index_ok(&self) -> bool {
        &&& forall|id: int| 0 <= id < self.count() ==> #[trigger] self.indexed(id)
        &&& forall|h: u64, k: int|
            self.index@.contains_key(h) && 0 <= k < self.index@[h]@.len() ==> (#[trigger] self.index@[h]@[k])
                < self.count()
    }

    pub open spec fn wf(&self) -> bool {
        &&& self.nfa.wf()
        &&& self.index_ok()
        &&& strictly_increasing(self.alphabet@)
        &&& self.prevs@.len() == self.count()
        &&& self.accepting@.len() == self.count()
        &&& self.onward@.len() == self.count()
        &&& forall|id: int| 0 <= id < self.count() ==> #[trigger] self.state_ok(id)
        &&& forall|i: int, j: int|
            0 <= i < self.count() && 0 <= j < self.count() && i != j ==> #[trigger] self.key_of(i)
                != #[trigger] self.key_of(j)
    }

    /// `self` is `old` with possibly more states, and the states of `old`
    /// unchanged, except that transitions may have been filled in.
    pub open spec fn extends(&self, old: &Dfa) -> bool {
        &&& self.nfa == old.nfa
        &&& self.alphabet@ == old.alphabet@
        &&& old.count() <= self.count()
        &&& forall|id: int| 0 <= id < old.count() ==> #[trigger] self.key_of(id) == old.key_of(id)
        &&& forall|id: int|
            0 <= id < old.count() && old.onward@[id] is Some ==> #[trigger] self.onward@[id] == old.onward@[id]
    }
}

impl Dfa {
    pub fn new(nfa: Nfa, alphabet: Vec<char>) -> (dfa: Dfa)
        requires
            nfa.wf(),
            strictly_increasing(alphabet@),
        ensures
            dfa.wf(),
            dfa.count() == 0,
            dfa.nfa == nfa,
            dfa.alphabet@ == alphabet@,
    {
        Dfa {
            nfa,
            alphabet,
            sets: Vec::new(),
            prevs: Vec::new(),
            accepting: Vec::new(),
            onward: Vec::new(),
            index: HashMap::new(),
        }
    }

    /// Interns the state with NFA states `set` and previous character
    /// `prev`, or returns `None` if no match is reachable from it.
    pub fn intern(&mut self, set: &Vec<usize>, prev: Option<char>) -> (id: Option<usize>)
        requires
            old(self).wf(),
            forall|i: int| 0 <= i < set@.len() ==> #[trigger] set@[i] < old(self).nfa.n(),
            prev matches Some(c) ==> old(self).alphabet@.contains(c),
        ensures
            final(self).wf(),
            final(self).extends(old(self)),
            final(self).count() <= old(self).count() + 1,
            forall|j: int| 0 <= j < old(self).count() ==> #[trigger] final(self).onward@[j] == old(self).onward@[j],
            id is None <==> !alive_set(old(self).nfa, set@.to_set(), prev),
            id matches Some(i) ==> i < final(self).count() && final(self).key_of(i as int) == (set@.to_set(), prev),
            id is None ==> *final(self) == *old(self),
            (exists|j: int| 0 <= j < old(self).count() && #[trigger] old(self).key_of(j) == (set@.to_set(), prev)) ==> *final(self)
                == *old(self),
            id is Some && !(exists|j: int| 0 <= j < old(self).count() && #[trigger] old(self).key_of(j) == (set@.to_set(), prev))
                ==> id == Some(old(self).count() as usize) && final(self).count() == old(self).count() + 1,
    {
        let canon = canonical(set, self.nfa.eps.len());
        let alive = if prev.is_none() {
            any_alive(&canon, &self.nfa.alive_anywhere)
        } else {
            any_alive(&canon, &self.nfa.alive_later)
        };
        if !alive {
            return None;
        }
        let ghost key: Key = (set@.to_set(), prev);
        let h = hash_key(&canon, prev);
        let mut filed: Vec<usize> = Vec::new();
        if let Some(candidates) = self.index.get(&h) {
            let mut k: usize = 0;
            while k < candidates.len()
                invariant
                    self.wf(),
                    *self == *old(self),
                    self.index@.contains_key(h),
                    self.index@[h] == *candidates,
                    canon@.to_set() == set@.to_set(),
                    usize_increasing(canon@),
                    key == (set@.to_set(), prev),
                    k <= candidates@.len(),
                    forall|t: int| 0 <= t < k ==> #[trigger] self.key_of(candidates@[t] as int) != key,
                decreases candidates.len() - k,
            {
                let cand = candidates[k];
                assert(cand < self.count());
                if same_vec(&self.sets[cand], &canon) && same_prev(self.prevs[cand], prev) {
                    assert(self.key_of(cand as int) == key);
                    assert(self.state_ok(cand as int));
                    return Some(cand);
                }
                proof {
                    if self.key_of(cand as int) == key {
                        assert(self.state_ok(cand as int));
                        lemma_increasing_unique(self.sets@[cand as int]@, canon@);
                    }
                }
                k = k + 1;
            }
            filed = copy_usizes(candidates);
            assert(forall|t: int| 0 <= t < self.index@[h]@.len() ==> #[trigger] self.key_of(self.index@[h]@[t] as int) != key);
        } else {
            assert(!self.index@.contains_key(h));
        }
        proof {
            assert forall|j: int| 0 <= j < self.count() implies #[trigger] self.key_of(j) != key by {
                if self.key_of(j) == key {
                    assert(self.state_ok(j));
                    assert(self.sets@[j]@.to_set() == canon@.to_set());
                    lemma_increasing_unique(self.sets@[j]@, canon@);
                    assert(self.prevs@[j] == prev);
                    assert(self.hash_of(j) == h);
                    assert(self.indexed(j));
                    assert(self.index@.contains_key(h));
                    let t = choose|t: int| 0 <= t < self.index@[h]@.len() && #[trigger] self.index@[h]@[t] as int == j;
                    assert(self.key_of(self.index@[h]@[t] as int) != key);
                }
            }
        }
        let reached = self.nfa.closure(&canon, prev, None);
        let accepting = contains_usize(&reached, self.nfa.accept);
        let ghost before = *self;
        let id = self.sets.len();
        self.sets.push(canon);
        self.prevs.push(prev);
        self.accepting.push(accepting);
        self.onward.push(None);
        let ghost filed_before = filed@;
        filed.push(id);
        self.index.insert(h, filed);
        proof {
            assert(self.key_of(id as int) == key);
            assert(self.hash_of(id as int) == h);
            assert(self.index@[h]@ == filed_before.push(id));
            assert(filed_before == if before.index@.contains_key(h) { before.index@[h]@ } else { Seq::<usize>::empty() });
            assert forall|j: int| 0 <= j < self.count() implies #[trigger] self.indexed(j) by {
                if j < before.count() {
                    assert(before.indexed(j));
                    assert(self.sets@[j] == before.sets@[j]);
                    assert(self.prevs@[j] == before.prevs@[j]);
                    let g = before.hash_of(j);
                    assert(self.hash_of(j) == g);
                    let t = choose|t: int| 0 <= t < before.index@[g]@.len() && #[trigger] before.index@[g]@[t] as int == j;
                    if g == h {
                        assert(filed_before == before.index@[h]@);
                        assert(self.index@[g]@[t] == before.index@[g]@[t]);
                    } else {
                        assert(self.index@[g] == before.index@[g]);
                    }
                    assert(self.index@[self.hash_of(j)]@[t] as int == j);
                } else {
                    assert(self.index@[self.hash_of(j)]@[filed_before.len() as int] as int == j);
                }
            }
            assert forall|g: u64, k: int| self.index@.contains_key(g) && 0 <= k < self.index@[g]@.len() implies (
            #[trigger] self.index@[g]@[k]) < self.count() by {
                if g == h {
                    if k < filed_before.len() {
                        assert(before.index@[h]@[k] < before.count());
                    }
                } else {
                    assert(self.index@[g] == before.index@[g]);
                    assert(before.index@[g]@[k] < before.count());
                }
            }
            assert forall|j: int| 0 <= j < before.count() implies #[trigger] self.key_of(j) == before.key_of(j) by {
                assert(self.sets@[j] == before.sets@[j]);
                assert(self.prevs@[j] == before.prevs@[j]);
            }
            assert forall|j: int| 0 <= j < self.count() implies #[trigger] self.state_ok(j) by {
                if j < before.count() {
                    assert(before.state_ok(j));
                    assert(self.key_of(j) == before.key_of(j));
                    assert(self.onward@[j] == before.onward@[j]);
                    assert(self.accepting@[j] == before.accepting@[j]);
                    if self.onward@[j] is Some {
                        let list = self.onward@[j].unwrap()@;
                        assert(before.onward_ok(j, list));
                        assert forall|t: int| 0 <= t < list.len() implies (#[trigger] list[t]).1 < self.count() && next_key(
                            self.nfa,
                            self.key_of(j),
                            list[t].0,
                        ) == Some(self.key_of(list[t].1 as int)) by {
                            assert(self.key_of(list[t].1 as int) == before.key_of(list[t].1 as int));
                        }
                    }
                } else {
                    assert(canon@.to_set() == key.0);
                    assert forall|k: int| 0 <= k < self.sets@[j]@.len() implies #[trigger] self.sets@[j]@[k] < self.nfa.n() by {
                        assert(self.sets@[j]@[k] == canon@[k]);
                    }
                    assert(reached@.contains(self.nfa.accept) == self.nfa.in_closure(canon@.to_set(), prev, None, self.nfa.accept));
                }
            }
            assert forall|i: int, j: int| 0 <= i < self.count() && 0 <= j < self.count() && i != j implies #[trigger] self.key_of(i)
                != #[trigger] self.key_of(j) by {
                if i < before.count() && j < before.count() {
                    assert(self.key_of(i) == before.key_of(i));
                    assert(self.key_of(j) == before.key_of(j));
                } else if i < before.count() {
                    assert(self.key_of(i) == before.key_of(i));
                } else {
                    assert(self.key_of(j) == before.key_of(j));
                }
            }
        }
        Some(id)
    }
}

impl Dfa {
    pub proof fn lemma_extends_trans(&self, mid: &Dfa, old: &Dfa)
        requires
            self.extends(mid),
            mid.extends(old),
        ensures
            self.extends(old),
    {
        assert forall|id: int| 0 <= id < old.count() implies #[trigger] self.key_of(id) == old.key_of(id) by {
            assert(self.key_of(id) == mid.key_of(id));
        }
        assert forall|id: int| 0 <= id < old.count() && old.onward@[id] is Some implies #[trigger] self.onward@[id]
            == old.onward@[id] by {
            assert(mid.onward@[id] == old.onward@[id]);
        }
    }

    /// Fills in, if need be, the transitions of state `id` and returns them.
    pub fn onward(&mut self, id: usize) -> (list: Vec<(char, usize)>)
        requires
            old(self).wf(),
            id < old(self).count(),
        ensures
            final(self).wf(),
            final(self).extends(old(self)),
            final(self).onward_ok(id as int, list@),
            final(self).onward@[id as int] matches Some(l) && l@ == list@,
            old(self).onward@[id as int] is Some ==> *final(self) == *old(self),
    {
        if let Some(list) = &self.onward[id] {
            assert(self.state_ok(id as int));
            return copy_pairs(list);
        }
        let set = copy_usizes(&self.sets[id]);
        let prev = self.prevs[id];
        assert(self.state_ok(id as int));
        let ghost key = self.key_of(id as int);
        let ghost f = |c: char| next_key(self.nfa, key, c) is Some;
        let mut list: Vec<(char, usize)> = Vec::new();
        let mut i: usize = 0;
        while i < self.alphabet.len()
            invariant
                self.wf(),
                self.extends(old(self)),
                id < self.count(),
                self.key_of(id as int) == key,
                key == (set@.to_set(), prev),
                self.onward@[id as int] is None,
                f == (|c: char| next_key(self.nfa, key, c) is Some),
                forall|k: int| 0 <= k < set@.len() ==> #[trigger] set@[k] < self.nfa.n(),
                prev matches Some(c) ==> self.alphabet@.contains(c),
                i <= self.alphabet@.len(),
                list@.map_values(|e: (char, usize)| e.0) == self.alphabet@.subrange(0, i as int).filter(f),
                forall|j: int|
                    0 <= j < list@.len() ==> (#[trigger] list@[j]).1 < self.count() && next_key(
                        self.nfa,
                        key,
                        list@[j].0,
                    ) == Some(self.key_of(list@[j].1 as int)),
            decreases self.alphabet@.len() - i,
        {
            let ch = self.alphabet[i];
            let closed = self.nfa.closure(&set, prev, Some(ch));
            let reached = self.nfa.step(&closed, ch);
            proof {
                assert(closed@.to_set() =~= self.nfa.closure_set(key.0, key.1, Some(ch)));
                assert(reached@.to_set() =~= step_set(self.nfa, key, ch));
                assert(self.alphabet@.contains(ch));
            }
            let ghost mid = *self;
            let target = self.intern(&reached, Some(ch));
            proof {
                self.lemma_extends_trans(&mid, old(self));
                assert(self.key_of(id as int) == mid.key_of(id as int));
                assert(self.onward@[id as int] == mid.onward@[id as int]);
                assert forall|j: int|
                    0 <= j < list@.len() implies (#[trigger] list@[j]).1 < self.count() && next_key(
                        self.nfa,
                        key,
                        list@[j].0,
                    ) == Some(self.key_of(list@[j].1 as int)) by {
                    assert(self.key_of(list@[j].1 as int) == mid.key_of(list@[j].1 as int));
                }
                let sub = self.alphabet@.subrange(0, i as int);
                let sub1 = self.alphabet@.subrange(0, i + 1);
                assert(sub1.drop_last() =~= sub);
                assert(sub1.last() == ch);
                reveal_with_fuel(Seq::<_>::filter, 1);
                assert(sub1.len() > 0);
                assert(next_key(self.nfa, key, ch) is Some <==> target is Some);
                if target is Some {
                    assert(f(ch));
                    assert(sub1.filter(f) == sub.filter(f).push(ch));
                } else {
                    assert(!f(ch));
                    assert(sub1.filter(f) == sub.filter(f));
                }
            }
            if let Some(t) = target {
                let ghost before = list@;
                list.push((ch, t));
                proof {
                    assert(list@.map_values(|e: (char, usize)| e.0) =~= before.map_values(|e: (char, usize)| e.0).push(ch));
                    assert forall|j: int|
                        0 <= j < list@.len() implies (#[trigger] list@[j]).1 < self.count() && next_key(
                            self.nfa,
                            key,
                            list@[j].0,
                        ) == Some(self.key_of(list@[j].1 as int)) by {
                        if j < before.len() {
                            assert(list@[j] == before[j]);
                        }
                    }
                }
            }
            i = i + 1;
        }
        proof {
            assert(self.alphabet@.subrange(0, self.alphabet@.len() as int) == self.alphabet@);
        }
        let ghost before = *self;
        self.onward.set(id, Some(copy_pairs(&list)));
        proof {
            assert forall|j: int| 0 <= j < self.count() implies #[trigger] self.key_of(j) == before.key_of(j) by {}
            assert forall|j: int| 0 <= j < self.count() implies #[trigger] self.indexed(j) by {
                assert(before.indexed(j));
            }
            assert forall|j: int| 0 <= j < self.count() implies #[trigger] self.state_ok(j) by {
                assert(before.state_ok(j));
                if j != id {
                    assert(self.onward@[j] == before.onward@[j]);
                    if self.onward@[j] is Some {
                        assert(before.onward_ok(j, self.onward@[j].unwrap()@));
                    }
                }
            }
            assert forall|a: int, b: int| 0 <= a < self.count() && 0 <= b < self.count() && a != b implies #[trigger] self.key_of(a)
                != #[trigger] self.key_of(b) by {
                assert(before.key_of(a) != before.key_of(b));
            }
            assert forall|j: int| 0 <= j < old(self).count() && old(self).onward@[j] is Some implies #[trigger] self.onward@[j]
                == old(self).onward@[j] by {
                assert(before.onward@[j] == old(self).onward@[j]);
            }
        }
        list
    }
}

/// The index hash of the state with sorted NFA states `set` and previous
/// character `prev`.
fn hash_key(set: &Vec<usize>, prev: Option<char>) -> (h: u64)
    ensures
        h == key_hash(set@, prev),
{
    let mut h: u64 = 0;
    let mut i: usize = 0;
    while i < set.len()
        invariant
            i <= set.len(),
            h == fold_hash(set@.take(i as int)),
            h < HASH_MODULUS,
        decreases set.len() - i,
    {
        assert(set@.take(i + 1).drop_last() =~= set@.take(i as int));
        let x = (set[i] as u64) % HASH_MODULUS;
        h = (h * 31 + x) % HASH_MODULUS;
        i = i + 1;
    }
    assert(set@.take(set.len() as int) =~= set@);
    let p: u64 = match prev {
        Some(c) => (c as u32) as u64 + 1,
        None => 0,
    };
    (h * 31 + p) % HASH_MODULUS
}

fn copy_usizes(v: &Vec<usize>) -> (c: Vec<usize>)
    ensures
        c@ == v@,
{
    let mut c: Vec<usize> = Vec::new();
    let mut i: usize = 0;
    while i < v.len()
        invariant
            i <= v.len(),
            c@ == v@.subrange(0, i as int),
        decreases v.len() - i,
    {
        c.push(v[i]);
        i = i + 1;
    }
    assert(v@.subrange(0, v@.len() as int) == v@);
    c
}

fn copy_pairs(v: &Vec<(char, usize)>) -> (c: Vec<(char, usize)>)
    ensures
        c@ == v@,
{
    let mut c: Vec<(char, usize)> = Vec::new();
    let mut i: usize = 0;
    while i < v.len()
        invariant
            i <= v.len(),
            c@ == v@.subrange(0, i as int),
        decreases v.len() - i,
    {
        c.push(v[i]);
        i = i + 1;
    }
    assert(v@.subrange(0, v@.len() as int) == v@);
    c
}

/// Two strictly increasing sequences with the same elements are equal.
pub proof fn lemma_increasing_unique(s1: Seq<usize>, s2: Seq<usize>)
    requires
        usize_increasing(s1),
        usize_increasing(s2),
        s1.to_set() == s2.to_set(),
    ensures
        s1 == s2,
    decreases s1.len() + s2.len(),
{
    if s1.len() == 0 || s2.len() == 0 {
        if s1.len() > 0 {
            assert(s1.to_set().contains(s1[0]));
        }
        if s2.len() > 0 {
            assert(s2.to_set().contains(s2[0]));
        }
        assert(s1 =~= s2);
    } else {
        assert(s1.to_set().contains(s1[0]));
        assert(s2.to_set().contains(s2[0]));
        assert(s2.contains(s1[0]));
        assert(s1.contains(s2[0]));
        let i = choose|i: int| 0 <= i < s2.len() && s2[i] == s1[0];
        let j = choose|j: int| 0 <= j < s1.len() && s1[j] == s2[0];
        assert(s1[0] == s2[0]) by {
            if i > 0 {
                assert(s2[0] < s2[i]);
                if j > 0 {
                    assert(s1[0] < s1[j]);
                }
            }
        }
        let t1 = s1.drop_first();
        let t2 = s2.drop_first();
        assert forall|x: usize| t1.to_set().contains(x) implies t2.to_set().contains(x) by {
            let k = choose|k: int| 0 <= k < t1.len() && t1[k] == x;
            assert(s1[k + 1] == x);
            assert(s1.to_set().contains(x));
            assert(s2.contains(x));
            let m = choose|m: int| 0 <= m < s2.len() && s2[m] == x;
            assert(s1[0] < s1[k + 1]);
            if m == 0 {
                assert(false);
            }
            assert(t2[m - 1] == x);
        }
        assert forall|x: usize| t2.to_set().contains(x) implies t1.to_set().contains(x) by {
            let k = choose|k: int| 0 <= k < t2.len() && t2[k] == x;
            assert(s2[k + 1] == x);
            assert(s2.to_set().contains(x));
            assert(s1.contains(x));
            let m = choose|m: int| 0 <= m < s1.len() && s1[m] == x;
            assert(s2[0] < s2[k + 1]);
            if m == 0 {
                assert(false);
            }
            assert(t1[m - 1] == x);
        }
        assert(t1.to_set() =~= t2.to_set());
        lemma_increasing_unique(t1, t2);
        assert(s1 =~= s2) by {
            assert forall|k: int| 0 <= k < s1.len() implies s1[k] == s2[k] by {
                if k > 0 {
                    assert(s1[k] == t1[k - 1]);
                    assert(s2[k] == t2[k - 1]);
                }
            }
        }
    }
}

/// The states of `set`, sorted and without repeats.
fn canonical(set: &Vec<usize>, n: usize) -> (canon: Vec<usize>)
    requires
        forall|i: int| 0 <= i < set@.len() ==> #[trigger] set@[i] < n,
    ensures
        usize_increasing(canon@),
        forall|i: int| 0 <= i < canon@.len() ==> #[trigger] canon@[i] < n,
        canon@.to_set() == set@.to_set(),
{
    let mut marks = bools(n, false);
    let mut i: usize = 0;
    while i < set.len()
        invariant
            i <= set.len(),
            marks@.len() == n,
            forall|k: int| 0 <= k < set@.len() ==> #[trigger] set@[k] < n,
            forall|q: usize| q < n ==> (marks@[q as int] <==> set@.subrange(0, i as int).contains(q)),
        decreases set.len() - i,
    {
        let q = set[i];
        marks.set(q, true);
        proof {
            assert forall|x: usize| x < n implies (marks@[x as int] <==> set@.subrange(0, i + 1).contains(x)) by {
                let sub = set@.subrange(0, i as int);
                let sub1 = set@.subrange(0, i + 1);
                if sub.contains(x) {
                    let k = choose|k: int| 0 <= k < sub.len() && sub[k] == x;
                    assert(sub1[k] == x);
                }
                if sub1.contains(x) {
                    let k = choose|k: int| 0 <= k < sub1.len() && sub1[k] == x;
                    if k < i {
                        assert(sub[k] == x);
                    }
                }
                assert(sub1[i as int] == q);
            }
        }
        i = i + 1;
    }
    assert(set@.subrange(0, set@.len() as int) == set@);
    let mut canon: Vec<usize> = Vec::new();
    let mut q: usize = 0;
    while q < n
        invariant
            q <= n,
            marks@.len() == n,
            usize_increasing(canon@),
            forall|k: int| 0 <= k < canon@.len() ==> #[trigger] canon@[k] < q,
            forall|x: usize| x < n ==> (marks@[x as int] <==> set@.contains(x)),
            forall|x: usize| canon@.contains(x) <==> (x < q && set@.contains(x)),
        decreases n - q,
    {
        if marks[q] {
            let ghost before = canon@;
            canon.push(q);
            proof {
                assert forall|x: usize| canon@.contains(x) <==> (x < q + 1 && set@.contains(x)) by {
                    if canon@.contains(x) {
                        let k = choose|k: int| 0 <= k < canon@.len() && canon@[k] == x;
                        if k < before.len() {
                            assert(before[k] == x);
                        }
                    }
                    if before.contains(x) {
                        let k = choose|k: int| 0 <= k < before.len() && before[k] == x;
                        assert(canon@[k] == x);
                    }
                    if x == q {
                        assert(canon@[before.len() as int] == q);
                    }
                }
            }
        } else {
            assert forall|x: usize| canon@.contains(x) <==> (x < q + 1 && set@.contains(x)) by {
                if x == q {
                    assert(!set@.contains(x));
                }
            }
        }
        q = q + 1;
    }
    assert(canon@.to_set() =~= set@.to_set()) by {
        assert forall|x: usize| set@.contains(x) implies x < n by {
            let k = choose|k: int| 0 <= k < set@.len() && set@[k] == x;
            assert(set@[k] < n);
        }
    }
    canon
}

/// Whether the two vectors hold the same sequence.
fn same_vec(a: &Vec<usize>, b: &Vec<usize>) -> (same: bool)
    ensures
        same == (a@ == b@),
{
    if a.len() != b.len() {
        return false;
    }
    let mut i: usize = 0;
    while i < a.len()
        invariant
            i <= a.len(),
            a@.len() == b@.len(),
            forall|k: int| 0 <= k < i ==> a@[k] == b@[k],
        decreases a.len() - i,
    {
        if a[i] != b[i] {
            return false;
        }
        i = i + 1;
    }
    assert(a@ =~= b@);
    true
}

fn same_prev(a: Option<char>, b: Option<char>) -> (same: bool)
    ensures
        same == (a == b),
{
    match (a, b) {
        (None, None) => true,
        (Some(x), Some(y)) => x == y,
        _ => false,
    }
}

/// Whether `x` is one of `v`.
pub fn contains_usize(v: &Vec<usize>, x: usize) -> (found: bool)
    ensures
        found == v@.contains(x),
{
    let mut i: usize = 0;
    while i < v.len()
        invariant
            i <= v.len(),
            forall|k: int| 0 <= k < i ==> v@[k] != x,
        decreases v.len() - i,
    {
        if v[i] == x {
            assert(v@[i as int] == x);
            return true;
        }
        i = i + 1;
    }
    false
}

/// Whether some state of `set` is marked in `alive`.
fn any_alive(set: &Vec<usize>, alive: &Vec<bool>) -> (found: bool)
    requires
        forall|i: int| 0 <= i < set@.len() ==> #[trigger] set@[i] < alive@.len(),
    ensures
        found == exists|q: usize| #![trigger set@.to_set().contains(q)] set@.to_set().contains(q) && alive@[q as int],
{
    let mut i: usize = 0;
    while i < set.len()
        invariant
            i <= set.len(),
            forall|k: int| 0 <= k < set@.len() ==> #[trigger] set@[k] < alive@.len(),
            forall|k: int| 0 <= k < i ==> !alive@[#[trigger] set@[k] as int],
        decreases set.len() - i,
    {
        if alive[set[i]] {
            assert(set@.to_set().contains(set@[i as int]));
            return true;
        }
        i = i + 1;
    }
    assert forall|q: usize| set@.to_set().contains(q) implies !alive@[q as int] by {
        let k = choose|k: int| 0 <= k < set@.len() && set@[k] == q;
        assert(!alive@[set@[k] as int]);
    }
    false
}

} // verus!
