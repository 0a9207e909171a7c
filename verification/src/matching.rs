//! What it means for a pattern to match a stretch of a text whose
//! characters come from an alphabet.

use vstd::prelude::*;

use crate::layers::{prev_at, spelled_from};
use crate::nfa::utf8_lossy;
use crate::pattern::{
    LOOK_END, LOOK_END_CRLF, LOOK_END_LF, LOOK_START, LOOK_START_CRLF, LOOK_START_LF, LOOK_WORD_ASCII,
    LOOK_WORD_ASCII_NEGATE, LOOK_WORD_END_ASCII, LOOK_WORD_END_HALF_ASCII, LOOK_WORD_END_HALF_UNICODE,
    LOOK_WORD_END_UNICODE, LOOK_WORD_START_ASCII, LOOK_WORD_START_HALF_ASCII, LOOK_WORD_START_HALF_UNICODE,
    LOOK_WORD_START_UNICODE, LOOK_WORD_UNICODE, LOOK_WORD_UNICODE_NEGATE, Pattern, in_ranges, look_holds_spec,
    unicode_word,
};

verus! {

broadcast use {vstd::std_specs::vec::axiom_vec_index_decreases, vstd::std_specs::vec::axiom_vec_decreases_to_view};

/// The character at position `i` of `t`, if any.
pub open spec fn next_at(t: Seq<char>, i: int) -> Option<char> {
    if 0 <= i < t.len() {
        Some(t[i])
    } else {
        None
    }
}

/// The bound on repetitions as a number, where there is one.
pub open spec fn count_bound(max: Option<u32>) -> Option<nat> {
    match max {
        Some(m) => Some(m as nat),
        None => None,
    }
}

/// A bound on repetitions, one lower; zero stays zero.
pub open spec fn one_less(max: Option<nat>) -> Option<nat> {
    match max {
        Some(m) => Some(if m > 0 { (m - 1) as nat } else { 0 }),
        None => None,
    }
}

/// The size of a bound on repetitions, for termination.
pub open spec fn bound_size(max: Option<nat>) -> nat {
    match max {
        Some(m) => m + 1,
        None => 0,
    }
}

/// The characters from position `i` up to `j` of the text `t` match `p`,
/// where characters come from `alphabet`; look-arounds see the whole text.
pub open spec fn pmatch(p: Pattern, alphabet: Seq<char>, t: Seq<char>, i: int, j: int) -> bool
    decreases p, 0nat, 0nat, 0int,
{
    &&& 0 <= i <= j <= t.len()
    &&& match p {
        Pattern::Empty => i == j,
        Pattern::Literal(bytes) => {
            let text = utf8_lossy(bytes@);
            &&& spelled_from(text, alphabet)
            &&& j == i + text.len()
            &&& t.subrange(i, j) == text
        },
        Pattern::Class(ranges) => j == i + 1 && alphabet.contains(t[i]) && in_ranges(ranges@, t[i]),
        Pattern::Look(look) => i == j && look_holds_spec(look, prev_at(t, i), next_at(t, i)),
        Pattern::Capture(sub) => pmatch(*sub, alphabet, t, i, j),
        Pattern::Concat(parts) => first_parts(parts@, parts@.len(), alphabet, t, i, j),
        Pattern::Alternation(parts) => some_part(parts@, parts@.len(), alphabet, t, i, j),
        Pattern::Repetition { min, max, sub } => copies(*sub, min as nat, count_bound(max), alphabet, t, i, j),
    }
}

/// One of the first `n` of `parts` matches from `i` up to `j`.
pub open spec fn some_part(parts: Seq<Pattern>, n: nat, alphabet: Seq<char>, t: Seq<char>, i: int, j: int) -> bool
    decreases parts, n, 0nat, 0int,
{
    &&& 0 < n <= parts.len()
    &&& (pmatch(parts[n - 1], alphabet, t, i, j) || some_part(parts, (n - 1) as nat, alphabet, t, i, j))
}

/// The first `n` of `parts`, one after another, match from `i` up to `j`.
pub open spec fn first_parts(parts: Seq<Pattern>, n: nat, alphabet: Seq<char>, t: Seq<char>, i: int, j: int) -> bool
    decreases parts, n, 1nat, 0int,
{
    if n == 0 {
        i == j
    } else {
        n <= parts.len() && i <= j && last_part_from(parts, n, alphabet, t, i, j, i)
    }
}

/// The first `n` of `parts` match from `i` up to `j`, the last of them
/// starting at `m` or later.
pub open spec fn last_part_from(parts: Seq<Pattern>, n: nat, alphabet: Seq<char>, t: Seq<char>, i: int, j: int, m: int) -> bool
    decreases parts, n, 0nat, j - m,
{
    &&& 0 < n <= parts.len()
    &&& m <= j
    &&& {
        ||| (first_parts(parts, (n - 1) as nat, alphabet, t, i, m) && pmatch(parts[n - 1], alphabet, t, m, j))
        ||| (m < j && last_part_from(parts, n, alphabet, t, i, j, m + 1))
    }
}

/// Between `min` and `max` copies of `sub` (at least `min` where `max` is
/// `None`, and exactly `min` where `max` is below it), one after another,
/// match from `i` up to `j`. Past the mandatory copies only copies that match
/// something count: an empty one changes nothing.
pub open spec fn copies(sub: Pattern, min: nat, max: Option<nat>, alphabet: Seq<char>, t: Seq<char>, i: int, j: int) -> bool
    decreases sub, min + 1, bound_size(max), 3 * (j - i) + 2,
{
    &&& i <= j
    &&& if min > 0 {
        first_copy_to(sub, min, max, alphabet, t, i, j, i)
    } else {
        i == j || (max != Some(0nat) && first_copy_to(sub, min, max, alphabet, t, i, j, i + 1))
    }
}

/// Copies as `copies` counts them match from `i` up to `j`, the first of
/// them ending at `m` or later.
pub open spec fn first_copy_to(sub: Pattern, min: nat, max: Option<nat>, alphabet: Seq<char>, t: Seq<char>, i: int, j: int, m: int) -> bool
    decreases sub, min + 1, bound_size(max), 3 * j - 2 * i + 1 - m,
{
    &&& i <= m <= j
    &&& {
        ||| ((min > 0 || i < m) && pmatch(sub, alphabet, t, i, m) && copies(
            sub,
            if min > 0 {
                (min - 1) as nat
            } else {
                0
            },
            one_less(max),
            alphabet,
            t,
            m,
            j,
        ))
        ||| (m < j && first_copy_to(sub, min, max, alphabet, t, i, j, m + 1))
    }
}

/// Exactly `n` copies of `sub`, one after another, match from `i` up to `j`.
pub open spec fn copies_n(sub: Pattern, n: nat, alphabet: Seq<char>, t: Seq<char>, i: int, j: int) -> bool
    decreases n,
{
    if n == 0 {
        i == j
    } else {
        exists|m: int| copies_n(sub, (n - 1) as nat, alphabet, t, i, m) && #[trigger] pmatch(sub, alphabet, t, m, j)
    }
}

/// A count of copies that a repetition between `min` and `max` allows:
/// at least `min`, and at most `max` unless `max` is below `min`.
pub open spec fn allowed_count(n: nat, min: nat, max: Option<nat>) -> bool {
    min <= n && (max matches Some(m) ==> (n <= m || n == min))
}

/// One copy in front of `n` copies makes `n + 1` copies.
pub proof fn lemma_copies_prepend(sub: Pattern, n: nat, alphabet: Seq<char>, t: Seq<char>, i: int, m: int, j: int)
    requires
        pmatch(sub, alphabet, t, i, m),
        copies_n(sub, n, alphabet, t, m, j),
    ensures
        copies_n(sub, n + 1, alphabet, t, i, j),
    decreases n,
{
    if n == 0 {
        assert(copies_n(sub, 0, alphabet, t, i, i));
        assert(pmatch(sub, alphabet, t, i, j));
    } else {
        let x = choose|x: int| copies_n(sub, (n - 1) as nat, alphabet, t, m, x) && #[trigger] pmatch(sub, alphabet, t, x, j);
        lemma_copies_prepend(sub, (n - 1) as nat, alphabet, t, i, m, x);
        assert(copies_n(sub, n, alphabet, t, i, x));
    }
}

/// What a repetition matches is an allowed count of copies.
pub proof fn lemma_copies_count(sub: Pattern, min: nat, max: Option<nat>, alphabet: Seq<char>, t: Seq<char>, i: int, j: int)
    requires
        copies(sub, min, max, alphabet, t, i, j),
    ensures
        exists|n: nat| allowed_count(n, min, max) && #[trigger] copies_n(sub, n, alphabet, t, i, j),
    decreases sub, min + 1, bound_size(max), 3 * (j - i) + 2,
{
    if min > 0 {
        lemma_first_copy_count(sub, min, max, alphabet, t, i, j, i);
    } else if i == j {
        assert(allowed_count(0, min, max) && copies_n(sub, 0, alphabet, t, i, j));
    } else {
        lemma_first_copy_count(sub, min, max, alphabet, t, i, j, i + 1);
    }
}

proof fn lemma_first_copy_count(
    sub: Pattern,
    min: nat,
    max: Option<nat>,
    alphabet: Seq<char>,
    t: Seq<char>,
    i: int,
    j: int,
    m: int,
)
    requires
        first_copy_to(sub, min, max, alphabet, t, i, j, m),
        min > 0 || max != Some(0nat),
    ensures
        exists|n: nat| allowed_count(n, min, max) && #[trigger] copies_n(sub, n, alphabet, t, i, j),
    decreases sub, min + 1, bound_size(max), 3 * j - 2 * i + 1 - m,
{
    let rest_min: nat = if min > 0 {
        (min - 1) as nat
    } else {
        0
    };
    if (min > 0 || i < m) && pmatch(sub, alphabet, t, i, m) && copies(sub, rest_min, one_less(max), alphabet, t, m, j) {
        lemma_copies_count(sub, rest_min, one_less(max), alphabet, t, m, j);
        let n = choose|n: nat| allowed_count(n, rest_min, one_less(max)) && #[trigger] copies_n(sub, n, alphabet, t, m, j);
        lemma_copies_prepend(sub, n, alphabet, t, i, m, j);
        assert(allowed_count(n + 1, min, max));
    } else {
        lemma_first_copy_count(sub, min, max, alphabet, t, i, j, m + 1);
    }
}

/// The last of the first `n` parts starts where the others end.
pub proof fn lemma_first_parts_last(parts: Seq<Pattern>, n: nat, alphabet: Seq<char>, t: Seq<char>, i: int, j: int)
    requires
        first_parts(parts, n, alphabet, t, i, j),
        n > 0,
    ensures
        exists|m: int| first_parts(parts, (n - 1) as nat, alphabet, t, i, m) && #[trigger] pmatch(parts[n - 1], alphabet, t, m, j),
{
    lemma_last_part(parts, n, alphabet, t, i, j, i);
}

proof fn lemma_last_part(parts: Seq<Pattern>, n: nat, alphabet: Seq<char>, t: Seq<char>, i: int, j: int, m: int)
    requires
        last_part_from(parts, n, alphabet, t, i, j, m),
    ensures
        exists|x: int| first_parts(parts, (n - 1) as nat, alphabet, t, i, x) && #[trigger] pmatch(parts[n - 1], alphabet, t, x, j),
    decreases j - m,
{
    if first_parts(parts, (n - 1) as nat, alphabet, t, i, m) && pmatch(parts[n - 1], alphabet, t, m, j) {
    } else {
        lemma_last_part(parts, n, alphabet, t, i, j, m + 1);
    }
}

/// What one of the first `n` parts matches, some one part matches.
pub proof fn lemma_some_part(parts: Seq<Pattern>, n: nat, alphabet: Seq<char>, t: Seq<char>, i: int, j: int)
    requires
        some_part(parts, n, alphabet, t, i, j),
    ensures
        exists|k: int| 0 <= k < n && #[trigger] pmatch(parts[k], alphabet, t, i, j),
    decreases n,
{
    if !pmatch(parts[n - 1], alphabet, t, i, j) {
        lemma_some_part(parts, (n - 1) as nat, alphabet, t, i, j);
    }
}

/// The first `n` parts, one after another, match a stretch when each part
/// matches its piece.
pub proof fn lemma_first_parts_intro(parts: Seq<Pattern>, n: nat, alphabet: Seq<char>, t: Seq<char>, i: int, m: int, j: int)
    requires
        0 < n <= parts.len(),
        first_parts(parts, (n - 1) as nat, alphabet, t, i, m),
        pmatch(parts[n - 1], alphabet, t, m, j),
    ensures
        first_parts(parts, n, alphabet, t, i, j),
{
    lemma_first_parts_order(parts, (n - 1) as nat, alphabet, t, i, m);
    lemma_last_part_intro(parts, n, alphabet, t, i, j, m, i);
}

proof fn lemma_first_parts_order(parts: Seq<Pattern>, n: nat, alphabet: Seq<char>, t: Seq<char>, i: int, j: int)
    requires
        first_parts(parts, n, alphabet, t, i, j),
    ensures
        i <= j,
{
}

proof fn lemma_last_part_intro(parts: Seq<Pattern>, n: nat, alphabet: Seq<char>, t: Seq<char>, i: int, j: int, m: int, x: int)
    requires
        0 < n <= parts.len(),
        first_parts(parts, (n - 1) as nat, alphabet, t, i, m),
        pmatch(parts[n - 1], alphabet, t, m, j),
        i <= x <= m,
    ensures
        last_part_from(parts, n, alphabet, t, i, j, x),
    decreases m - x,
{
    if x < m {
        lemma_last_part_intro(parts, n, alphabet, t, i, j, m, x + 1);
    }
}

/// `n + 1` copies are a first copy followed by `n` copies.
pub proof fn lemma_copies_split_first(sub: Pattern, n: nat, alphabet: Seq<char>, t: Seq<char>, i: int, j: int)
    requires
        copies_n(sub, n + 1, alphabet, t, i, j),
    ensures
        exists|m: int| #[trigger] pmatch(sub, alphabet, t, i, m) && copies_n(sub, n, alphabet, t, m, j),
    decreases n,
{
    let x = choose|x: int| copies_n(sub, n, alphabet, t, i, x) && #[trigger] pmatch(sub, alphabet, t, x, j);
    if n == 0 {
        assert(copies_n(sub, 0, alphabet, t, j, j));
        assert(pmatch(sub, alphabet, t, i, j));
    } else {
        lemma_copies_split_first(sub, (n - 1) as nat, alphabet, t, i, x);
        let m = choose|m: int| #[trigger] pmatch(sub, alphabet, t, i, m) && copies_n(sub, (n - 1) as nat, alphabet, t, m, x);
        assert(copies_n(sub, n, alphabet, t, m, j));
        assert(pmatch(sub, alphabet, t, i, m));
    }
}

/// Copies stay in order.
pub proof fn lemma_copies_order(sub: Pattern, n: nat, alphabet: Seq<char>, t: Seq<char>, i: int, j: int)
    requires
        copies_n(sub, n, alphabet, t, i, j),
    ensures
        i <= j,
    decreases n,
{
    if n > 0 {
        let x = choose|x: int| copies_n(sub, (n - 1) as nat, alphabet, t, i, x) && #[trigger] pmatch(sub, alphabet, t, x, j);
        lemma_copies_order(sub, (n - 1) as nat, alphabet, t, i, x);
    }
}

proof fn lemma_first_copy_intro(
    sub: Pattern,
    min: nat,
    max: Option<nat>,
    alphabet: Seq<char>,
    t: Seq<char>,
    i: int,
    j: int,
    m: int,
    x: int,
)
    requires
        pmatch(sub, alphabet, t, i, m),
        (min > 0 || i < m),
        copies(
            sub,
            if min > 0 {
                (min - 1) as nat
            } else {
                0
            },
            one_less(max),
            alphabet,
            t,
            m,
            j,
        ),
        i <= x <= m,
    ensures
        first_copy_to(sub, min, max, alphabet, t, i, j, x),
    decreases m - x,
{
    if x < m {
        lemma_first_copy_intro(sub, min, max, alphabet, t, i, j, m, x + 1);
    }
}

/// An allowed count of copies is what a repetition matches.
pub proof fn lemma_copies_from_count(sub: Pattern, n: nat, min: nat, max: Option<nat>, alphabet: Seq<char>, t: Seq<char>, i: int, j: int)
    requires
        copies_n(sub, n, alphabet, t, i, j),
        allowed_count(n, min, max),
    ensures
        copies(sub, min, max, alphabet, t, i, j),
    decreases n,
{
    lemma_copies_order(sub, n, alphabet, t, i, j);
    if n > 0 {
        lemma_copies_split_first(sub, (n - 1) as nat, alphabet, t, i, j);
        let m = choose|m: int| #[trigger] pmatch(sub, alphabet, t, i, m) && copies_n(sub, (n - 1) as nat, alphabet, t, m, j);
        lemma_copies_order(sub, (n - 1) as nat, alphabet, t, m, j);
        if min > 0 {
            lemma_copies_from_count(sub, (n - 1) as nat, (min - 1) as nat, one_less(max), alphabet, t, m, j);
            lemma_first_copy_intro(sub, min, max, alphabet, t, i, j, m, i);
        } else if m == i {
            lemma_copies_from_count(sub, (n - 1) as nat, min, max, alphabet, t, m, j);
        } else {
            lemma_copies_from_count(sub, (n - 1) as nat, 0, one_less(max), alphabet, t, m, j);
            lemma_first_copy_intro(sub, min, max, alphabet, t, i, j, m, i + 1);
        }
    }
}

/// A repetition of `sub` between `min` and `max` times matches a stretch
/// exactly where some allowed number of copies of `sub`, one after another,
/// match it: at least `min`, and at most `max` unless `max` is below `min`.
pub proof fn law_repetition_matches(sub: Pattern, min: u32, max: Option<u32>, alphabet: Seq<char>, t: Seq<char>, i: int, j: int)
    ensures
        pmatch(Pattern::Repetition { min, max, sub: Box::new(sub) }, alphabet, t, i, j) <==> (0 <= i <= j <= t.len() && exists|n: nat|
            allowed_count(n, min as nat, count_bound(max)) && #[trigger] copies_n(sub, n, alphabet, t, i, j)),
{
    if pmatch(Pattern::Repetition { min, max, sub: Box::new(sub) }, alphabet, t, i, j) {
        lemma_copies_count(sub, min as nat, count_bound(max), alphabet, t, i, j);
    }
    if 0 <= i <= j <= t.len() && exists|n: nat| allowed_count(n, min as nat, count_bound(max)) && #[trigger] copies_n(sub, n, alphabet, t, i, j) {
        let n = choose|n: nat| allowed_count(n, min as nat, count_bound(max)) && #[trigger] copies_n(sub, n, alphabet, t, i, j);
        lemma_copies_from_count(sub, n, min as nat, count_bound(max), alphabet, t, i, j);
    }
}

/// `p` holds no look-around: what it matches depends on the stretch alone.
pub open spec fn look_free(p: Pattern) -> bool
    decreases p, 0nat,
{
    match p {
        Pattern::Look(_) => false,
        Pattern::Capture(sub) => look_free(*sub),
        Pattern::Repetition { sub, .. } => look_free(*sub),
        Pattern::Concat(parts) => parts_look_free(parts@, parts@.len()),
        Pattern::Alternation(parts) => parts_look_free(parts@, parts@.len()),
        _ => true,
    }
}

/// None of the first `n` of `parts` holds a look-around.
pub open spec fn parts_look_free(parts: Seq<Pattern>, n: nat) -> bool
    decreases parts, n,
{
    n == 0 || (n <= parts.len() && look_free(parts[n - 1]) && parts_look_free(parts, (n - 1) as nat))
}

/// `u` is `t` followed by more characters.
pub open spec fn extends_text(u: Seq<char>, t: Seq<char>) -> bool {
    t.len() <= u.len() && u.subrange(0, t.len() as int) == t
}

/// A pattern without look-arounds still matches a stretch of a text once
/// more characters follow the text.
pub proof fn lemma_extend_match(p: Pattern, alphabet: Seq<char>, t: Seq<char>, u: Seq<char>, i: int, j: int)
    requires
        look_free(p),
        pmatch(p, alphabet, t, i, j),
        extends_text(u, t),
    ensures
        pmatch(p, alphabet, u, i, j),
    decreases p, 0nat, 0nat, 0int,
{
    assert forall|x: int| 0 <= x < t.len() implies u[x] == t[x] by {
        assert(u.subrange(0, t.len() as int)[x] == t[x]);
    }
    match p {
        Pattern::Literal(bytes) => {
            assert(u.subrange(i, j) =~= t.subrange(i, j));
        },
        Pattern::Capture(sub) => {
            lemma_extend_match(*sub, alphabet, t, u, i, j);
        },
        Pattern::Concat(parts) => {
            lemma_extend_first_parts(parts@, parts@.len(), alphabet, t, u, i, j);
        },
        Pattern::Alternation(parts) => {
            lemma_extend_some_part(parts@, parts@.len(), alphabet, t, u, i, j);
        },
        Pattern::Repetition { min, max, sub } => {
            lemma_extend_copies(*sub, min as nat, count_bound(max), alphabet, t, u, i, j);
        },
        _ => {},
    }
}

proof fn lemma_extend_some_part(parts: Seq<Pattern>, n: nat, alphabet: Seq<char>, t: Seq<char>, u: Seq<char>, i: int, j: int)
    requires
        parts_look_free(parts, n),
        some_part(parts, n, alphabet, t, i, j),
        extends_text(u, t),
    ensures
        some_part(parts, n, alphabet, u, i, j),
    decreases parts, n, 0nat, 0int,
{
    if pmatch(parts[n - 1], alphabet, t, i, j) {
        lemma_extend_match(parts[n - 1], alphabet, t, u, i, j);
    } else {
        lemma_extend_some_part(parts, (n - 1) as nat, alphabet, t, u, i, j);
    }
}

proof fn lemma_extend_first_parts(parts: Seq<Pattern>, n: nat, alphabet: Seq<char>, t: Seq<char>, u: Seq<char>, i: int, j: int)
    requires
        n <= parts.len(),
        parts_look_free(parts, n),
        first_parts(parts, n, alphabet, t, i, j),
        extends_text(u, t),
    ensures
        first_parts(parts, n, alphabet, u, i, j),
    decreases parts, n, 1nat, 0int,
{
    if n > 0 {
        lemma_extend_last_part(parts, n, alphabet, t, u, i, j, i);
    }
}

proof fn lemma_extend_last_part(parts: Seq<Pattern>, n: nat, alphabet: Seq<char>, t: Seq<char>, u: Seq<char>, i: int, j: int, m: int)
    requires
        parts_look_free(parts, n),
        last_part_from(parts, n, alphabet, t, i, j, m),
        extends_text(u, t),
    ensures
        last_part_from(parts, n, alphabet, u, i, j, m),
    decreases parts, n, 0nat, j - m,
{
    if first_parts(parts, (n - 1) as nat, alphabet, t, i, m) && pmatch(parts[n - 1], alphabet, t, m, j) {
        lemma_extend_first_parts(parts, (n - 1) as nat, alphabet, t, u, i, m);
        lemma_extend_match(parts[n - 1], alphabet, t, u, m, j);
    } else {
        lemma_extend_last_part(parts, n, alphabet, t, u, i, j, m + 1);
    }
}

proof fn lemma_extend_copies(
    sub: Pattern,
    min: nat,
    max: Option<nat>,
    alphabet: Seq<char>,
    t: Seq<char>,
    u: Seq<char>,
    i: int,
    j: int,
)
    requires
        look_free(sub),
        copies(sub, min, max, alphabet, t, i, j),
        extends_text(u, t),
    ensures
        copies(sub, min, max, alphabet, u, i, j),
    decreases sub, min + 1, bound_size(max), 3 * (j - i) + 2,
{
    if min > 0 {
        lemma_extend_first_copy(sub, min, max, alphabet, t, u, i, j, i);
    } else if i != j {
        lemma_extend_first_copy(sub, min, max, alphabet, t, u, i, j, i + 1);
    }
}

proof fn lemma_extend_first_copy(
    sub: Pattern,
    min: nat,
    max: Option<nat>,
    alphabet: Seq<char>,
    t: Seq<char>,
    u: Seq<char>,
    i: int,
    j: int,
    m: int,
)
    requires
        look_free(sub),
        first_copy_to(sub, min, max, alphabet, t, i, j, m),
        extends_text(u, t),
    ensures
        first_copy_to(sub, min, max, alphabet, u, i, j, m),
    decreases sub, min + 1, bound_size(max), 3 * j - 2 * i + 1 - m,
{
    let rest_min: nat = if min > 0 {
        (min - 1) as nat
    } else {
        0
    };
    if (min > 0 || i < m) && pmatch(sub, alphabet, t, i, m) && copies(sub, rest_min, one_less(max), alphabet, t, m, j) {
        lemma_extend_match(sub, alphabet, t, u, i, m);
        lemma_extend_copies(sub, rest_min, one_less(max), alphabet, t, u, m, j);
    } else {
        lemma_extend_first_copy(sub, min, max, alphabet, t, u, i, j, m + 1);
    }
}

/// `p` matches somewhere in `t`.
pub open spec fn matches_somewhere(p: Pattern, alphabet: Seq<char>, t: Seq<char>) -> bool {
    exists|i: int, j: int| #[trigger] pmatch(p, alphabet, t, i, j)
}

/// A character class matches exactly one character of the text, one from the
/// alphabet that lies inside any one of the class's ranges, whichever index
/// that range stands at.
pub proof fn law_class_matches(ranges: Vec<(char, char)>, alphabet: Seq<char>, t: Seq<char>, i: int, j: int)
    ensures
        pmatch(Pattern::Class(ranges), alphabet, t, i, j) <==> (0 <= i && j == i + 1 && j <= t.len()
            && alphabet.contains(t[i]) && exists|k: int|
            0 <= k < ranges@.len() && #[trigger] ranges@[k].0 <= t[i] && t[i] <= ranges@[k].1),
{
    if exists|k: int| 0 <= k < ranges@.len() && #[trigger] ranges@[k].0 <= t[i] && t[i] <= ranges@[k].1 {
        let k = choose|k: int| 0 <= k < ranges@.len() && #[trigger] ranges@[k].0 <= t[i] && t[i] <= ranges@[k].1;
        assert(ranges@[k].0 <= t[i] && t[i] <= ranges@[k].1);
    }
}

/// The text anchors and the line anchors of multi-line and CRLF mode hold
/// at a position of the text, and match nothing there, exactly as follows:
/// `\A` at the start, `\z` at the end; multi-line `^` at the start or after
/// a `\n`, `$` at the end or before a `\n`, whatever the other neighbour;
/// in CRLF mode `^` also after a `\r` not followed by `\n`, and `$` also
/// before a `\r`, and before a `\n` only where no `\r` precedes it.
pub proof fn law_line_anchors(alphabet: Seq<char>, t: Seq<char>, i: int, j: int)
    ensures
        pmatch(Pattern::Look(LOOK_START), alphabet, t, i, j) <==> i == 0 && j == 0,
        pmatch(Pattern::Look(LOOK_END), alphabet, t, i, j) <==> i == t.len() && j == t.len(),
        pmatch(Pattern::Look(LOOK_START_LF), alphabet, t, i, j) <==> (0 <= i && i == j && j <= t.len() && (i == 0
            || t[i - 1] == '\n')),
        pmatch(Pattern::Look(LOOK_END_LF), alphabet, t, i, j) <==> (0 <= i && i == j && j <= t.len() && (i == t.len()
            || t[i] == '\n')),
        pmatch(Pattern::Look(LOOK_START_CRLF), alphabet, t, i, j) <==> (0 <= i && i == j && j <= t.len() && (i == 0
            || t[i - 1] == '\n' || (t[i - 1] == '\r' && !(i < t.len() && t[i] == '\n')))),
        pmatch(Pattern::Look(LOOK_END_CRLF), alphabet, t, i, j) <==> (0 <= i && i == j && j <= t.len() && (i
            == t.len() || t[i] == '\r' || (t[i] == '\n' && !(0 < i && t[i - 1] == '\r')))),
{
}

/// The ASCII word-boundary assertions compare the characters on either side
/// of a position by whether each is an ASCII letter, an ASCII digit or `_`;
/// an end of the text counts as no such character.
pub proof fn law_ascii_word_boundaries(alphabet: Seq<char>, t: Seq<char>, i: int, j: int)
    ensures
        ({
            let at = 0 <= i && i == j && j <= t.len();
            let before = 0 < i && i <= t.len() && (t[i - 1] == '_' || ('0' <= t[i - 1] && t[i - 1] <= '9') || (
            'a' <= t[i - 1] && t[i - 1] <= 'z') || ('A' <= t[i - 1] && t[i - 1] <= 'Z'));
            let after = 0 <= i && i < t.len() && (t[i] == '_' || ('0' <= t[i] && t[i] <= '9') || ('a' <= t[i]
                && t[i] <= 'z') || ('A' <= t[i] && t[i] <= 'Z'));
            &&& pmatch(Pattern::Look(LOOK_WORD_ASCII), alphabet, t, i, j) <==> (at && before != after)
            &&& pmatch(Pattern::Look(LOOK_WORD_ASCII_NEGATE), alphabet, t, i, j) <==> (at && before == after)
            &&& pmatch(Pattern::Look(LOOK_WORD_START_ASCII), alphabet, t, i, j) <==> (at && !before && after)
            &&& pmatch(Pattern::Look(LOOK_WORD_END_ASCII), alphabet, t, i, j) <==> (at && before && !after)
            &&& pmatch(Pattern::Look(LOOK_WORD_START_HALF_ASCII), alphabet, t, i, j) <==> (at && !before)
            &&& pmatch(Pattern::Look(LOOK_WORD_END_HALF_ASCII), alphabet, t, i, j) <==> (at && !after)
        }),
{
}

/// The Unicode word-boundary assertions compare the characters on either
/// side of a position by `regex_syntax::is_word_character`, the same test on
/// both sides; an end of the text counts as no word character.
pub proof fn law_unicode_word_boundaries(alphabet: Seq<char>, t: Seq<char>, i: int, j: int)
    ensures
        ({
            let at = 0 <= i && i == j && j <= t.len();
            let before = 0 < i && i <= t.len() && unicode_word(t[i - 1]);
            let after = 0 <= i && i < t.len() && unicode_word(t[i]);
            &&& pmatch(Pattern::Look(LOOK_WORD_UNICODE), alphabet, t, i, j) <==> (at && before != after)
            &&& pmatch(Pattern::Look(LOOK_WORD_UNICODE_NEGATE), alphabet, t, i, j) <==> (at && before == after)
            &&& pmatch(Pattern::Look(LOOK_WORD_START_UNICODE), alphabet, t, i, j) <==> (at && !before && after)
            &&& pmatch(Pattern::Look(LOOK_WORD_END_UNICODE), alphabet, t, i, j) <==> (at && before && !after)
            &&& pmatch(Pattern::Look(LOOK_WORD_START_HALF_UNICODE), alphabet, t, i, j) <==> (at && !before)
            &&& pmatch(Pattern::Look(LOOK_WORD_END_HALF_UNICODE), alphabet, t, i, j) <==> (at && !after)
        }),
{
}

} // verus!
