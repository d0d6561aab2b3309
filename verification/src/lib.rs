//! The grammar compilation core of a Yacc-compatible parser generator: an AST
//! builder with validation, a compiler that lowers a validated AST to a dense
//! index-addressed grammar, and analyses of the sentences the grammar derives
//! (reachability between rules, minimum- and maximum-cost sentences).

mod costs;
mod defs;
mod grammar;
mod precmap;
mod reach;
mod rulemap;
mod sentence;
mod strutil;
mod tokset;

pub mod ast;
pub mod laws;

pub use costs::nonterm_max_costs;
pub use costs::nonterm_min_costs;
pub use defs::AssocKind;
pub use defs::NTIdx;
pub use defs::PIdx;
pub use defs::Precedence;
pub use defs::PrecedenceLevel;
pub use defs::Symbol;
pub use defs::TIdx;
pub use defs::YaccKind;
pub use grammar::YaccGrammar;
pub use grammar::YaccGrammarError;
pub use grammar::YaccParserError;
pub use precmap::PrecMap;
pub use sentence::SentenceGenerator;
pub use tokset::TokenSet;
