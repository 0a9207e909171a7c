//! Counting facts about sets of small numbers.

use vstd::prelude::*;

verus! {

/// The `usize` values below `n`.
pub open spec fn below(n: nat) -> Set<usize> {
    Set::new(|x: usize| x < n)
}

pub proof fn lemma_below_len(n: nat)
    requires
        n <= usize::MAX + 1,
    ensures
        below(n).finite(),
        below(n).len() == n,
    decreases n,
{
    if n == 0 {
        assert(below(n) =~= Set::empty());
    } else {
        lemma_below_len((n - 1) as nat);
        assert(below((n - 1) as nat).insert((n - 1) as usize) =~= below(n));
    }
}

/// A sequence of distinct values below `n` has at most `n` elements.
pub proof fn lemma_distinct_below(s: Seq<usize>, n: nat)
    requires
        s.no_duplicates(),
        forall|i: int| 0 <= i < s.len() ==> (#[trigger] s[i] as nat) < n,
    ensures
        s.len() <= n,
{
    s.unique_seq_to_set();
    if n > usize::MAX + 1 {
        lemma_below_len((usize::MAX + 1) as nat);
        assert(s.to_set().subset_of(below((usize::MAX + 1) as nat)));
        vstd::set_lib::lemma_len_subset(s.to_set(), below((usize::MAX + 1) as nat));
    } else {
        lemma_below_len(n);
        assert forall|x: usize| s.to_set().contains(x) implies below(n).contains(x) by {
            let i = choose|i: int| 0 <= i < s.len() && s[i] == x;
            assert(s[i] < n);
        }
        vstd::set_lib::lemma_len_subset(s.to_set(), below(n));
    }
}

/// A sequence of distinct integers in `[0, n)` has at most `n` elements.
pub proof fn lemma_distinct_ints_below(s: Seq<int>, n: int)
    requires
        s.no_duplicates(),
        0 <= n,
        forall|i: int| 0 <= i < s.len() ==> 0 <= #[trigger] s[i] < n,
    ensures
        s.len() <= n,
{
    s.unique_seq_to_set();
    vstd::set_lib::lemma_int_range(0, n);
    assert forall|x: int| s.to_set().contains(x) implies vstd::set_lib::set_int_range(0, n).contains(x) by {
        let i = choose|i: int| 0 <= i < s.len() && s[i] == x;
        assert(0 <= s[i] < n);
    }
    vstd::set_lib::lemma_len_subset(s.to_set(), vstd::set_lib::set_int_range(0, n));
}

} // verus!
