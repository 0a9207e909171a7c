//! Lexicographic and shortest-first order on strings.

use vstd::prelude::*;

use crate::alphabet::strictly_increasing;

verus! {

/// `a` comes before `b` in dictionary order: they agree up to some position
/// where `a` has the smaller character.
pub open spec fn lex_lt(a: Seq<char>, b: Seq<char>) -> bool {
    exists|i: int| 0 <= i < a.len() && i < b.len() && a.take(i) == b.take(i) && #[trigger] a[i] < #[trigger] b[i]
}

/// `a` comes before `b` when words are ordered by length, then in dictionary
/// order.
pub open spec fn shortlex_lt(a: Seq<char>, b: Seq<char>) -> bool {
    a.len() < b.len() || (a.len() == b.len() && lex_lt(a, b))
}

/// Two words that agree on their first `j` characters agree on their first
/// `i <= j`.
proof fn lemma_take_shorter(a: Seq<char>, b: Seq<char>, i: int, j: int)
    requires
        0 <= i <= j <= a.len(),
        j <= b.len(),
        a.take(j) == b.take(j),
    ensures
        a.take(i) == b.take(i),
        forall|k: int| 0 <= k < j ==> a[k] == b[k],
{
    assert forall|k: int| 0 <= k < j implies a[k] == b[k] by {
        assert(a.take(j)[k] == a[k]);
        assert(b.take(j)[k] == b[k]);
        assert(a.take(j)[k] == b.take(j)[k]);
    }
    assert(a.take(i) =~= b.take(i));
}

/// Dictionary order is transitive.
pub proof fn lemma_lex_trans(a: Seq<char>, b: Seq<char>, c: Seq<char>)
    requires
        lex_lt(a, b),
        lex_lt(b, c),
    ensures
        lex_lt(a, c),
{
    let i = choose|i: int| 0 <= i < a.len() && i < b.len() && a.take(i) == b.take(i) && #[trigger] a[i] < #[trigger] b[i];
    let j = choose|j: int| 0 <= j < b.len() && j < c.len() && b.take(j) == c.take(j) && #[trigger] b[j] < #[trigger] c[j];
    if i < j {
        lemma_take_shorter(b, c, i, j);
        assert(a.take(i) =~= c.take(i));
        assert(a[i] < c[i]);
    } else if j < i {
        lemma_take_shorter(a, b, j, i);
        assert(a.take(j) =~= c.take(j));
        assert(a[j] < c[j]);
    } else {
        assert(a.take(i) =~= c.take(i));
        assert(a[i] < c[i]);
    }
}

/// No two words each come before the other in dictionary order.
pub proof fn lemma_lex_asym(a: Seq<char>, b: Seq<char>)
    requires
        lex_lt(a, b),
    ensures
        !lex_lt(b, a),
{
    let i = choose|i: int| 0 <= i < a.len() && i < b.len() && a.take(i) == b.take(i) && #[trigger] a[i] < #[trigger] b[i];
    if lex_lt(b, a) {
        let j = choose|j: int| 0 <= j < b.len() && j < a.len() && b.take(j) == a.take(j) && #[trigger] b[j] < #[trigger] a[j];
        if i < j {
            lemma_take_shorter(b, a, i, j);
        } else if j < i {
            lemma_take_shorter(a, b, j, i);
        }
    }
}

/// No word comes before itself in dictionary order.
pub proof fn lemma_lex_asym_self(a: Seq<char>)
    ensures
        !lex_lt(a, a),
{
}

/// Length-then-dictionary order is transitive.
pub proof fn lemma_shortlex_trans(a: Seq<char>, b: Seq<char>, c: Seq<char>)
    requires
        shortlex_lt(a, b),
        shortlex_lt(b, c),
    ensures
        shortlex_lt(a, c),
{
    if a.len() == b.len() && b.len() == c.len() {
        lemma_lex_trans(a, b, c);
    }
}

/// No two words each come before the other.
pub proof fn lemma_shortlex_asym(a: Seq<char>, b: Seq<char>)
    requires
        shortlex_lt(a, b),
    ensures
        !shortlex_lt(b, a),
        a != b,
{
    if a.len() == b.len() {
        lemma_lex_asym(a, b);
        if a == b {
            lemma_lex_asym(a, a);
        }
    }
}

/// Filtering a strictly increasing sequence keeps it strictly increasing,
/// keeps only its own elements, and does not lengthen it.
pub proof fn lemma_filter_increasing(s: Seq<char>, p: spec_fn(char) -> bool)
    requires
        strictly_increasing(s),
    ensures
        strictly_increasing(s.filter(p)),
        s.filter(p).len() <= s.len(),
        forall|i: int| 0 <= i < s.filter(p).len() ==> #[trigger] s.contains(s.filter(p)[i]),
    decreases s.len(),
{
    reveal(Seq::filter);
    if s.len() > 0 {
        let r = s.drop_last();
        assert(strictly_increasing(r));
        lemma_filter_increasing(r, p);
        let f = r.filter(p);
        assert forall|i: int| 0 <= i < f.len() implies f[i] < s.last() by {
            assert(r.contains(f[i]));
            let k = choose|k: int| 0 <= k < r.len() && r[k] == f[i];
            assert(s[k] == f[i]);
        }
        if p(s.last()) {
            let g = f.push(s.last());
            assert(s.filter(p) == g);
            assert forall|i: int| 0 <= i < g.len() implies #[trigger] s.contains(g[i]) by {
                if i < f.len() {
                    assert(r.contains(f[i]));
                    let k = choose|k: int| 0 <= k < r.len() && r[k] == f[i];
                    assert(s[k] == g[i]);
                } else {
                    assert(s[s.len() - 1] == g[i]);
                }
            }
        } else {
            assert(s.filter(p) == f);
            assert forall|i: int| 0 <= i < f.len() implies #[trigger] s.contains(f[i]) by {
                assert(r.contains(f[i]));
                let k = choose|k: int| 0 <= k < r.len() && r[k] == f[i];
                assert(s[k] == f[i]);
            }
        }
    }
}

/// Two different words of one length that agree on their first `i`
/// characters first differ at some position from `i` on.
pub proof fn lemma_first_diff(a: Seq<char>, b: Seq<char>, i: int) -> (j: int)
    requires
        a.len() == b.len(),
        0 <= i <= a.len(),
        a.take(i) == b.take(i),
        a != b,
    ensures
        i <= j < a.len(),
        a.take(j) == b.take(j),
        a[j] != b[j],
    decreases a.len() - i,
{
    if i == a.len() {
        assert(a.take(i) =~= a);
        assert(b.take(i) =~= b);
        i
    } else if a[i] != b[i] {
        i
    } else {
        let (a1, b1) = (a.take(i + 1), b.take(i + 1));
        assert forall|k: int| 0 <= k < i + 1 implies #[trigger] a1[k] == b1[k] by {
            if k < i {
                assert(a.take(i)[k] == b.take(i)[k]);
            }
        }
        assert(a1 =~= b1);
        lemma_first_diff(a, b, i + 1)
    }
}

/// Two different words are ordered one way or the other.
pub proof fn lemma_shortlex_total(a: Seq<char>, b: Seq<char>)
    requires
        a != b,
    ensures
        shortlex_lt(a, b) || shortlex_lt(b, a),
{
    if a.len() == b.len() {
        assert(a.take(0) =~= b.take(0));
        let i = lemma_first_diff(a, b, 0);
        if a[i] < b[i] {
            assert(lex_lt(a, b));
        } else {
            assert(b.take(i) == a.take(i));
            assert(lex_lt(b, a));
        }
    }
}

/// `b` to the power `e`.
pub open spec fn power(b: nat, e: nat) -> nat
    decreases e,
{
    if e == 0 {
        1
    } else {
        b * power(b, (e - 1) as nat)
    }
}

pub proof fn lemma_power_positive(b: nat, e: nat)
    requires
        b >= 1,
    ensures
        power(b, e) >= 1,
    decreases e,
{
    if e > 0 {
        lemma_power_positive(b, (e - 1) as nat);
        let p = power(b, (e - 1) as nat);
        assert(b * p >= 1) by (nonlinear_arith)
            requires
                b >= 1,
                p >= 1,
        ;
    }
}

} // verus!
