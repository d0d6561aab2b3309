//! Basic index and precedence types shared by the grammar representation.

use vstd::prelude::*;

verus! {

/// Index of a nonterminal (rule) in a compiled grammar. Distinct from `TIdx`
/// and `PIdx` so the three kinds of table cannot be indexed with the wrong
/// handle.
#[derive(Clone, Copy, Debug, PartialEq, Eq, Structural)]
pub struct NTIdx(pub usize);

/// Index of a terminal in a compiled grammar.
#[derive(Clone, Copy, Debug, PartialEq, Eq, Structural)]
pub struct TIdx(pub usize);

/// Index of a production in a compiled grammar.
#[derive(Clone, Copy, Debug, PartialEq, Eq, Structural)]
pub struct PIdx(pub usize);

/// The numeric level of a precedence declaration: higher levels bind tighter.
pub type PrecedenceLevel = u64;

/// The associativity attached to a precedence level.
#[derive(Clone, Copy, Debug, PartialEq, Eq, Structural)]
pub enum AssocKind {
    Left,
    Right,
    Nonassoc,
}

/// A precedence: a level and an associativity.
#[derive(Clone, Copy, Debug, PartialEq, Eq, Structural)]
pub struct Precedence {
    pub level: PrecedenceLevel,
    pub kind: AssocKind,
}

/// Which dialect of Yacc input is being compiled. `Eco` enables the
/// `%implicit_tokens` rewriting.
#[derive(Clone, Copy, Debug, PartialEq, Eq, Structural)]
pub enum YaccKind {
    Original,
    Eco,
}

/// A symbol in a compiled production body, referring to other grammar items
/// by dense index.
#[derive(Clone, Copy, Debug, PartialEq, Eq, Structural)]
pub enum Symbol {
    Nonterm(NTIdx),
    Term(TIdx),
}

} // verus!
