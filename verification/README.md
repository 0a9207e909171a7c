# regex_strings

Enumerates the strings that a regular expression matches over a finite
alphabet, shortest first and in alphabet order within each length. The
enumeration is lazy: unanchored patterns match infinitely many strings.

The library is written in Verus and proved:

- `matching` defines what it means for a pattern tree to match a stretch of a
  text, look-arounds included.
- `compile` builds an epsilon-NFA fragment for each pattern and proves that it
  runs through exactly what the pattern matches; `Nfa::build` wraps the
  pattern for a search anywhere in the text, so the automaton accepts exactly
  the texts over the alphabet in which the pattern matches somewhere.
- `dfa`, `layers` and `lang` determinize the automaton lazily and prove that
  the pruned, determinized automaton accepts the same texts.
- `strings` walks the determinized automaton one length at a time;
  `Strings::next` is proved to hand out the first string still to come.
- `laws` states what follows for a whole enumeration: strictly increasing
  order, no repeats, nothing skipped, and that exactly the matches come out.

`dfa` finds an interned state through a `HashMap` keyed by a `u64` hash of
the state's key (its sorted set of NFA states and the previous character).
The index lists, under each hash, the states filed there; vstd specifies
`HashMap` lookups for integer keys, so the lookup is proved: a state that is
not found under its hash is new.

The regular expression is parsed by `regex-syntax`, and the Unicode
word-character table is its too; both are called through small trusted
wrappers in `pattern`. `generate` lists bounded output for a browser demo.

`app/` holds the command-line demo and the WebAssembly entry point.
