//! What holds of every run of an enumeration: the order, the absence of
//! repeats, that nothing is skipped, and that exactly the matches come out.

use vstd::prelude::*;

use crate::order::{lemma_shortlex_asym, lemma_shortlex_total, shortlex_lt};
use crate::layers::spelled_from;
use crate::matching::{law_class_matches, lemma_extend_match, look_free, matches_somewhere, pmatch};
use crate::pattern::Pattern;
use crate::strings::Strings;

verus! {

/// `states` and `items` record successive calls of `next`: the call on
/// `states[i]` returned `items[i]` and left `states[i + 1]`.
pub open spec fn enumeration(states: Seq<Strings>, items: Seq<Option<Seq<char>>>) -> bool {
    &&& states.len() == items.len() + 1
    &&& forall|i: int| #![trigger items[i]] 0 <= i < items.len() ==> states[i].steps_to(states[i + 1], items[i])
}

/// A call of `next` only ever removes strings from those still to come.
pub proof fn law_candidates_shrink(before: Strings, after: Strings, item: Option<Seq<char>>, w: Seq<char>)
    requires
        before.steps_to(after, item),
        after.candidate(w),
    ensures
        before.candidate(w),
{
}

/// What is still to come after `k` calls was still to come at the start, and
/// comes after everything handed out so far.
proof fn lemma_still_to_come(states: Seq<Strings>, items: Seq<Option<Seq<char>>>, k: int, w: Seq<char>)
    requires
        enumeration(states, items),
        0 <= k < states.len(),
        states[k].candidate(w),
    ensures
        states[0].candidate(w),
        forall|i: int| 0 <= i < k && items[i] is Some ==> shortlex_lt(#[trigger] items[i].unwrap(), w),
    decreases k,
{
    if k > 0 {
        let item = items[k - 1];
        assert(states[k - 1].steps_to(states[k], item));
        lemma_still_to_come(states, items, k - 1, w);
        assert forall|i: int| 0 <= i < k && items[i] is Some implies shortlex_lt(#[trigger] items[i].unwrap(), w) by {
            if i < k - 1 {
            } else {
                assert(i == k - 1);
            }
        }
    }
}

/// Everything `next` hands out was, at the start, a string still to come:
/// one the pattern accepts, within the bounds, not passed yet.
pub proof fn law_yields_candidates(states: Seq<Strings>, items: Seq<Option<Seq<char>>>, i: int)
    requires
        enumeration(states, items),
        0 <= i < items.len(),
        items[i] is Some,
    ensures
        states[0].candidate(items[i].unwrap()),
{
    assert(states[i].steps_to(states[i + 1], items[i]));
    lemma_still_to_come(states, items, i, items[i].unwrap());
}

/// Strings come out shortest first, and in alphabet order within a length:
/// each one handed out comes strictly after every one before it.
pub proof fn law_in_order(states: Seq<Strings>, items: Seq<Option<Seq<char>>>, i: int, j: int)
    requires
        enumeration(states, items),
        0 <= i < j < items.len(),
        items[i] is Some,
        items[j] is Some,
    ensures
        shortlex_lt(items[i].unwrap(), items[j].unwrap()),
{
    assert(states[j].steps_to(states[j + 1], items[j]));
    lemma_still_to_come(states, items, j, items[j].unwrap());
}

/// No string is handed out twice.
pub proof fn law_no_repeats(states: Seq<Strings>, items: Seq<Option<Seq<char>>>, i: int, j: int)
    requires
        enumeration(states, items),
        0 <= i < items.len(),
        0 <= j < items.len(),
        i != j,
        items[i] is Some,
        items[j] is Some,
    ensures
        items[i] != items[j],
{
    if i < j {
        law_in_order(states, items, i, j);
        lemma_shortlex_asym(items[i].unwrap(), items[j].unwrap());
    } else {
        law_in_order(states, items, j, i);
        lemma_shortlex_asym(items[j].unwrap(), items[i].unwrap());
    }
}

/// A string still to come at the start is, after `k` calls, either handed out
/// already or still to come: each call hands out the first string still to
/// come, so it cannot pass over one.
proof fn lemma_tracked(states: Seq<Strings>, items: Seq<Option<Seq<char>>>, k: int, w: Seq<char>)
    requires
        enumeration(states, items),
        0 <= k < states.len(),
        states[0].candidate(w),
    ensures
        (exists|i: int| 0 <= i < k && items[i] == Some(w)) || states[k].candidate(w),
    decreases k,
{
    if k > 0 {
        lemma_tracked(states, items, k - 1, w);
        if !exists|i: int| 0 <= i < k - 1 && items[i] == Some(w) {
            assert(states[k - 1].steps_to(states[k], items[k - 1]));
            assert(states[k - 1].candidate(w));
            let z = items[k - 1].unwrap();
            if z != w {
                lemma_shortlex_total(z, w);
                assert(states[k].candidate(w));
            } else {
                assert(items[k - 1] == Some(w));
            }
        }
    }
}

/// Nothing is skipped: a string still to come at the start that is not
/// after something handed out has itself been handed out by then.
pub proof fn law_nothing_skipped(states: Seq<Strings>, items: Seq<Option<Seq<char>>>, j: int, w: Seq<char>)
    requires
        enumeration(states, items),
        0 <= j < items.len(),
        items[j] is Some,
        states[0].candidate(w),
        !shortlex_lt(items[j].unwrap(), w),
    ensures
        exists|i: int| 0 <= i <= j && items[i] == Some(w),
{
    lemma_tracked(states, items, j, w);
    if !exists|i: int| 0 <= i < j && items[i] == Some(w) {
        let y = items[j].unwrap();
        assert(states[j].steps_to(states[j + 1], items[j]));
        if y != w {
            lemma_shortlex_total(y, w);
            assert(false);
        }
        assert(items[j] == Some(w));
    }
}

/// Once `next` has returned `None`, it keeps returning `None`.
proof fn lemma_exhausted_stays(states: Seq<Strings>, items: Seq<Option<Seq<char>>>, i: int, j: int)
    requires
        enumeration(states, items),
        0 <= i <= j < items.len(),
        items[i] is None,
    ensures
        items[j] is None,
        forall|w: Seq<char>| !#[trigger] states[j + 1].candidate(w),
    decreases j - i,
{
    assert(states[i].steps_to(states[i + 1], items[i]));
    if i < j {
        lemma_exhausted_stays(states, items, i, j - 1);
        assert(states[j].steps_to(states[j + 1], items[j]));
        assert forall|w: Seq<char>| !#[trigger] states[j].candidate(w) by {
            assert(!states[j - 1 + 1].candidate(w));
        }
    }
}

/// Once `next` has returned `None`, it keeps returning `None`.
pub proof fn law_exhausted_stays_exhausted(states: Seq<Strings>, items: Seq<Option<Seq<char>>>, i: int, j: int)
    requires
        enumeration(states, items),
        0 <= i <= j < items.len(),
        items[i] is None,
    ensures
        items[j] is None,
{
    lemma_exhausted_stays(states, items, i, j);
}

/// When `next` returns `None`, every string still to come at the start has
/// been handed out before.
pub proof fn law_exhausted_means_complete(states: Seq<Strings>, items: Seq<Option<Seq<char>>>, j: int, w: Seq<char>)
    requires
        enumeration(states, items),
        0 <= j < items.len(),
        items[j] is None,
        states[0].candidate(w),
    ensures
        exists|i: int| 0 <= i < j && items[i] == Some(w),
{
    lemma_tracked(states, items, j, w);
    assert(states[j].steps_to(states[j + 1], items[j]));
}

/// With a length limit set before any pass began, nothing longer than the
/// limit comes out.
pub proof fn law_within_limit(states: Seq<Strings>, items: Seq<Option<Seq<char>>>, i: int, m: usize)
    requires
        enumeration(states, items),
        states[0].limit() == Some(m),
        states[0].pass_len() is None,
        0 <= i < items.len(),
        items[i] is Some,
    ensures
        items[i].unwrap().len() <= m,
{
    law_yields_candidates(states, items, i);
}

/// Everything handed out is spelled from the alphabet.
pub proof fn law_spelled_from_alphabet(states: Seq<Strings>, items: Seq<Option<Seq<char>>>, i: int)
    requires
        enumeration(states, items),
        0 <= i < items.len(),
        items[i] is Some,
    ensures
        forall|k: int| 0 <= k < items[i].unwrap().len() ==> states[0].alphabet().contains(#[trigger] items[i].unwrap()[k]),
{
    law_yields_candidates(states, items, i);
    states[0].lemma_accepts_alphabet(items[i].unwrap());
}

/// Every string over the alphabet in which the pattern matches somewhere
/// comes out of an enumeration started fresh: by the time `next` returns
/// `None`, or returns a string that does not come before it, it has been
/// handed out.
pub proof fn law_matches_come_out(states: Seq<Strings>, items: Seq<Option<Seq<char>>>, pattern: Pattern, j: int, w: Seq<char>)
    requires
        enumeration(states, items),
        states[0].fresh(states[0].alphabet()),
        states[0].language_is(pattern),
        spelled_from(w, states[0].alphabet()),
        matches_somewhere(pattern, states[0].alphabet(), w),
        w.len() < usize::MAX,
        0 <= j < items.len(),
        items[j] is None || !shortlex_lt(items[j].unwrap(), w),
    ensures
        exists|i: int| 0 <= i <= j && items[i] == Some(w),
{
    assert(states[0].unseen(w));
    assert(states[0].candidate(w));
    if items[j] is None {
        law_exhausted_means_complete(states, items, j, w);
        let i = choose|i: int| 0 <= i < j && items[i] == Some(w);
        assert(0 <= i <= j && items[i] == Some(w));
    } else {
        law_nothing_skipped(states, items, j, w);
    }
}

/// Everything handed out is a string over the alphabet in which the
/// pattern matches somewhere.
pub proof fn law_yields_matches(states: Seq<Strings>, items: Seq<Option<Seq<char>>>, pattern: Pattern, i: int)
    requires
        enumeration(states, items),
        states[0].language_is(pattern),
        0 <= i < items.len(),
        items[i] is Some,
    ensures
        spelled_from(items[i].unwrap(), states[0].alphabet()),
        matches_somewhere(pattern, states[0].alphabet(), items[i].unwrap()),
{
    law_yields_candidates(states, items, i);
    assert(states[0].accepts(items[i].unwrap()));
}

/// `w` followed by `m` copies of `c`.
pub open spec fn padded(w: Seq<char>, c: char, m: nat) -> Seq<char> {
    w + Seq::new(m, |k: int| c)
}

/// A match of a pattern without look-arounds stays a match with `c`s
/// added at the end, and a string still to come at the start.
proof fn lemma_padded_candidate(s: Strings, pattern: Pattern, w: Seq<char>, c: char, m: nat)
    requires
        s.fresh(s.alphabet()),
        s.language_is(pattern),
        look_free(pattern),
        spelled_from(w, s.alphabet()),
        matches_somewhere(pattern, s.alphabet(), w),
        s.alphabet().contains(c),
        w.len() + m < usize::MAX,
    ensures
        s.candidate(padded(w, c, m)),
{
    let a = s.alphabet();
    let u = padded(w, c, m);
    let (i, j) = choose|i: int, j: int| #[trigger] pmatch(pattern, a, w, i, j);
    assert(u.subrange(0, w.len() as int) =~= w);
    lemma_extend_match(pattern, a, w, u, i, j);
    assert forall|k: int| 0 <= k < u.len() implies a.contains(#[trigger] u[k]) by {
        if k < w.len() {
            assert(u[k] == w[k]);
        }
    }
    assert(s.unseen(u));
}

/// A pattern without anchors or other look-arounds, with a match over a
/// non-empty alphabet, never runs out: a fresh enumeration of it keeps
/// handing out strings, as far as the machine can count their length.
pub proof fn law_look_free_never_ends(states: Seq<Strings>, items: Seq<Option<Seq<char>>>, pattern: Pattern, w: Seq<char>, j: int)
    requires
        enumeration(states, items),
        states[0].fresh(states[0].alphabet()),
        states[0].language_is(pattern),
        look_free(pattern),
        spelled_from(w, states[0].alphabet()),
        matches_somewhere(pattern, states[0].alphabet(), w),
        states[0].alphabet().len() > 0,
        0 <= j < items.len(),
        w.len() + j < usize::MAX,
    ensures
        items[j] is Some,
{
    if items[j] is None {
        let s = states[0];
        let c = s.alphabet()[0];
        assert(s.alphabet().contains(c));
        lemma_padded_indices(states, items, pattern, w, c, j, j as nat);
    }
}

/// Were the enumeration to stop at `j`, the first `n + 1` padded strings
/// would all have come out before `j`, at increasing places.
proof fn lemma_padded_indices(
    states: Seq<Strings>,
    items: Seq<Option<Seq<char>>>,
    pattern: Pattern,
    w: Seq<char>,
    c: char,
    j: int,
    n: nat,
)
    requires
        enumeration(states, items),
        states[0].fresh(states[0].alphabet()),
        states[0].language_is(pattern),
        look_free(pattern),
        spelled_from(w, states[0].alphabet()),
        matches_somewhere(pattern, states[0].alphabet(), w),
        states[0].alphabet().contains(c),
        0 <= j < items.len(),
        items[j] is None,
        w.len() + n < usize::MAX,
        n <= j,
    ensures
        exists|i: int| n <= i < j && items[i] == Some(padded(w, c, n)),
    decreases n,
{
    lemma_padded_candidate(states[0], pattern, w, c, n);
    law_exhausted_means_complete(states, items, j, padded(w, c, n));
    let i = choose|i: int| 0 <= i < j && items[i] == Some(padded(w, c, n));
    if n > 0 {
        lemma_padded_indices(states, items, pattern, w, c, j, (n - 1) as nat);
        let h = choose|h: int| (n - 1) <= h < j && items[h] == Some(padded(w, c, (n - 1) as nat));
        let shorter = padded(w, c, (n - 1) as nat);
        let longer = padded(w, c, n);
        assert(shortlex_lt(shorter, longer));
        if i <= h {
            if i == h {
                assert(shorter.len() != longer.len());
            } else {
                law_in_order(states, items, i, h);
                lemma_shortlex_asym(shorter, longer);
            }
        }
    }
    assert(n <= i < j && items[i] == Some(padded(w, c, n)));
}

/// An enumeration of a character class accepts, as a one-character string,
/// every alphabet character that lies inside any one of the class's ranges,
/// whichever index that range stands at.
pub proof fn law_class_accepts_members(s: Strings, ranges: Vec<(char, char)>, c: char, k: int)
    requires
        s.language_is(Pattern::Class(ranges)),
        s.alphabet().contains(c),
        0 <= k < ranges@.len(),
        ranges@[k].0 <= c && c <= ranges@[k].1,
    ensures
        s.accepts(seq![c]),
{
    let w = seq![c];
    law_class_matches(ranges, s.alphabet(), w, 0, 1);
    assert(ranges@[k].0 <= w[0] && w[0] <= ranges@[k].1);
    assert(pmatch(Pattern::Class(ranges), s.alphabet(), w, 0, 1));
    assert(matches_somewhere(Pattern::Class(ranges), s.alphabet(), w));
    assert(spelled_from(w, s.alphabet()));
}

} // verus!
