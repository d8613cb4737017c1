//! Automaton-construction core of a regular-expression compiler.
//!
//! The library builds nondeterministic finite automata (NFAs) for single
//! symbols and symbol classes, composes them with Thompson-style operators
//! (union, concatenation, closures, zero-or-one), and determinizes the
//! result into a DFA by subset construction.  A table of character classes
//! supplies the integer identifiers that symbol-class edges refer to.

use vstd::prelude::*;

pub mod char_set;
pub mod dfa;
pub mod graph;
pub mod language;

verus! {

/// Errors that a single construction step can report.
///
/// Construction is deterministic, so none of these has retry semantics: a
/// caller must treat each as a hard failure of the step that produced it.
#[derive(Clone, Copy, PartialEq, Eq, Structural, Debug)]
pub enum ConstructionError {
    /// An operator precondition was violated: an input automaton has fewer
    /// than two states, or an empty graph was handed to determinization.
    InvalidGraph,
    /// A class identifier does not name any class in the table.
    UnknownSetId,
    /// Stepping a symbol past the edge of the representable symbol space
    /// while shrinking or splitting a class segment.
    SymbolRangeOverflow,
}

} // verus!
