//! The finite set of characters that an enumeration may emit.

use vstd::prelude::*;

verus! {

/// The characters of `s` strictly increase from left to right.
pub open spec fn strictly_increasing(s: Seq<char>) -> bool {
    forall|i: int, j: int| 0 <= i < j < s.len() ==> s[i] < s[j]
}

/// The finite set of characters that an enumeration may emit, kept sorted and
/// free of repeats.
#[derive(Debug, PartialEq, Eq)]
pub struct Alphabet {
    chars: Vec<char>,
}

impl View for Alphabet {
    type V = Seq<char>;

    closed spec fn view(&self) -> Seq<char> {
        self.chars@
    }
}

impl Alphabet {
    /// The alphabet's characters are in strictly increasing order.
    #[verifier::type_invariant]
    pub closed spec fn wf(&self) -> bool {
        strictly_increasing(self.chars@)
    }

    /// Builds an alphabet, sorting and deduplicating its characters.
    pub fn new(characters: Vec<char>) -> (alphabet: Self)
        ensures
            strictly_increasing(alphabet@),
            forall|c: char| alphabet@.contains(c) <==> characters@.contains(c),
    {
        let mut out: Vec<char> = Vec::new();
        let mut i: usize = 0;
        while i < characters.len()
            invariant
                i <= characters.len(),
                strictly_increasing(out@),
                forall|k: int| 0 <= k < i ==> out@.contains(#[trigger] characters@[k]),
                forall|x: char| out@.contains(x) ==> exists|k: int| 0 <= k < i && #[trigger] characters@[k] == x,
            decreases characters.len() - i,
        {
            let c = characters[i];
            insert_sorted(&mut out, c);
            i = i + 1;
        }
        assert forall|c: char| out@.contains(c) <==> characters@.contains(c) by {
            if characters@.contains(c) {
                let k = choose|k: int| 0 <= k < characters@.len() && characters@[k] == c;
                assert(out@.contains(characters@[k]));
            }
        }
        Alphabet { chars: out }
    }

    /// Returns the alphabet's characters in enumeration order.
    pub fn as_slice(&self) -> (chars: &[char])
        ensures
            chars@ == self@,
            strictly_increasing(chars@),
    {
        proof {
            use_type_invariant(self);
        }
        self.chars.as_slice()
    }

    pub(crate) fn into_vec(self) -> (chars: Vec<char>)
        ensures
            chars@ == self@,
            strictly_increasing(chars@),
    {
        proof {
            use_type_invariant(&self);
        }
        self.chars
    }
}

impl Clone for Alphabet {
    fn clone(&self) -> (copy: Alphabet)
        ensures
            copy@ == self@,
    {
        proof {
            use_type_invariant(self);
        }
        let chars = self.chars.clone();
        assert(chars@ =~= self.chars@);
        Alphabet { chars }
    }
}

/// The characters of `text`, in order.
fn chars_of(text: &str) -> (chars: Vec<char>)
    ensures
        chars@ == text@,
{
    let n = text.unicode_len();
    let mut chars: Vec<char> = Vec::new();
    let mut i: usize = 0;
    while i < n
        invariant
            n == text@.len(),
            i <= n,
            chars@ == text@.take(i as int),
        decreases n - i,
    {
        chars.push(text.get_char(i));
        assert(chars@ =~= text@.take(i + 1));
        i = i + 1;
    }
    assert(chars@ =~= text@);
    chars
}

impl<'a> From<&'a str> for Alphabet {
    /// The alphabet of the characters of `text`.
    fn from(text: &'a str) -> (alphabet: Alphabet)
        ensures
            strictly_increasing(alphabet@),
            forall|c: char| alphabet@.contains(c) <==> text@.contains(c),
    {
        Alphabet::new(chars_of(text))
    }
}

impl<'a> vstd::std_specs::convert::FromSpecImpl<&'a str> for Alphabet {
    /// `from` is described by its own contract rather than by `from_spec`.
    open spec fn obeys_from_spec() -> bool {
        false
    }

    open spec fn from_spec(text: &'a str) -> Alphabet {
        arbitrary()
    }
}

impl From<String> for Alphabet {
    /// The alphabet of the characters of `text`.
    fn from(text: String) -> (alphabet: Alphabet)
        ensures
            strictly_increasing(alphabet@),
            forall|c: char| alphabet@.contains(c) <==> text@.contains(c),
    {
        Alphabet::new(chars_of(text.as_str()))
    }
}

impl vstd::std_specs::convert::FromSpecImpl<String> for Alphabet {
    /// `from` is described by its own contract rather than by `from_spec`.
    open spec fn obeys_from_spec() -> bool {
        false
    }

    open spec fn from_spec(text: String) -> Alphabet {
        arbitrary()
    }
}

impl<'a> From<&'a String> for Alphabet {
    /// The alphabet of the characters of `text`.
    fn from(text: &'a String) -> (alphabet: Alphabet)
        ensures
            strictly_increasing(alphabet@),
            forall|c: char| alphabet@.contains(c) <==> text@.contains(c),
    {
        Alphabet::new(chars_of(text.as_str()))
    }
}

impl<'a> vstd::std_specs::convert::FromSpecImpl<&'a String> for Alphabet {
    /// `from` is described by its own contract rather than by `from_spec`.
    open spec fn obeys_from_spec() -> bool {
        false
    }

    open spec fn from_spec(text: &'a String) -> Alphabet {
        arbitrary()
    }
}

impl From<Vec<char>> for Alphabet {
    /// The alphabet of `characters`, sorted and without repeats.
    fn from(characters: Vec<char>) -> (alphabet: Alphabet)
        ensures
            strictly_increasing(alphabet@),
            forall|c: char| alphabet@.contains(c) <==> characters@.contains(c),
    {
        Alphabet::new(characters)
    }
}

impl vstd::std_specs::convert::FromSpecImpl<Vec<char>> for Alphabet {
    /// `from` is described by its own contract rather than by `from_spec`.
    open spec fn obeys_from_spec() -> bool {
        false
    }

    open spec fn from_spec(characters: Vec<char>) -> Alphabet {
        arbitrary()
    }
}

/// Inserts `c` into a strictly increasing vector unless it is there already.
fn insert_sorted(v: &mut Vec<char>, c: char)
    requires
        strictly_increasing(old(v)@),
    ensures
        strictly_increasing(final(v)@),
        forall|x: char| final(v)@.contains(x) <==> (old(v)@.contains(x) || x == c),
{
    let mut p: usize = 0;
    while p < v.len() && v[p] < c
        invariant
            p <= v.len(),
            v@ == old(v)@,
            strictly_increasing(v@),
            forall|k: int| 0 <= k < p ==> v@[k] < c,
        decreases v.len() - p,
    {
        p = p + 1;
    }
    if p < v.len() && v[p] == c {
        assert(v@[p as int] == c);
        assert(v@.contains(c));
        return;
    }
    let ghost before = v@;
    assert(before == old(v)@);
    v.insert(p, c);
    assert(v@ == before.insert(p as int, c));
    assert forall|x: char| v@.contains(x) <==> (before.contains(x) || x == c) by {
        if v@.contains(x) {
            let k = choose|k: int| 0 <= k < v@.len() && v@[k] == x;
            if k < p {
                assert(before[k] == x);
            } else if k > p {
                assert(before[k - 1] == x);
            }
        }
        if before.contains(x) {
            let k = choose|k: int| 0 <= k < before.len() && before[k] == x;
            if k < p {
                assert(v@[k] == x);
            } else {
                assert(v@[k + 1] == x);
            }
        }
        if x == c {
            assert(v@[p as int] == c);
        }
    }
    assert forall|i: int, j: int| 0 <= i < j < v@.len() implies v@[i] < v@[j] by {
        if j < p {
            assert(v@[i] == before[i] && v@[j] == before[j]);
        } else if j == p {
            assert(v@[i] == before[i]);
        } else if i < p {
            assert(v@[i] == before[i] && v@[j] == before[j - 1]);
            assert(before[j - 1] >= before[p as int]);
            assert(before[p as int] != c);
        } else if i == p {
            assert(v@[j] == before[j - 1]);
            assert(before[j - 1] >= before[p as int]);
            assert(before[p as int] != c);
        } else {
            assert(v@[i] == before[i - 1] && v@[j] == before[j - 1]);
        }
    }
    assert(forall|x: char| v@.contains(x) <==> (old(v)@.contains(x) || x == c));
}

} // verus!
