//! Regular expressions over bytes, compiled to a Thompson automaton of at
//! most 64 nodes and matched by stepping sets of nodes that are held in one
//! machine word.
//!
//! A pattern is made of literal bytes, `|` for alternation, `*` for
//! repetition and parentheses for grouping; there are no classes, escapes or
//! anchors. It goes through three stages. [`re`] reads its bytes as tokens
//! and makes concatenation explicit, [`yard`] says what the postfix order of
//! the tokens is, and [`nfa`] builds the automaton that [`thompson`]
//! describes. [`simulate`] steps the automaton over a byte and [`search`]
//! finds the matches of the pattern in a text, with [`ranges`] for what is
//! kept of overlapping candidates.
//!
//! The contracts speak of the model in [`automaton`]: an executable
//! automaton is viewed as a sequence of nodes, a word of bits from [`bits`]
//! as a set of node numbers. [`language`] says which words the edges of an
//! automaton spell and proves that stepping sets of nodes finds those;
//! [`regular`] says what the language of a pattern is and proves that the
//! automaton built from the pattern spells it.

pub mod automaton;
pub mod bits;
pub mod error;
pub mod language;
pub mod nfa;
pub mod ranges;
pub mod re;
pub mod regular;
pub mod search;
pub mod simulate;
pub mod thompson;
pub mod yard;
