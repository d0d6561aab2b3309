//! The grammar AST: built up gradually by a surface parser, then sealed and
//! checked by `complete_and_validate` before compilation.

use vstd::prelude::*;
use vstd::string::StringExecFns;

use crate::defs::Precedence;
use crate::precmap::PrecMap;
use crate::rulemap::lemma_rules_find_key;
use crate::rulemap::rules_get;
use crate::rulemap::rules_get_index;
use crate::rulemap::rules_get_index_of;
use crate::rulemap::rules_has_key;
use crate::rulemap::rules_keys_distinct;
use crate::rulemap::rules_len;
use crate::rulemap::rules_new;
use crate::rulemap::rules_push_prod;
use crate::rulemap::rules_view;
use crate::tokset::TokenSet;

verus! {

/// A symbol of the grammar AST, naming a rule or a declared token.
#[derive(Clone, Debug, Hash, Eq, PartialEq)]
pub enum Symbol {
    Nonterm(String),
    Term(String),
}

/// The mathematical value of an AST symbol.
pub enum SymbolView {
    Nonterm(Seq<char>),
    Term(Seq<char>),
}

impl View for Symbol {
    type V = SymbolView;

    open spec fn view(&self) -> SymbolView {
        match self {
            Symbol::Nonterm(s) => SymbolView::Nonterm(s@),
            Symbol::Term(s) => SymbolView::Term(s@),
        }
    }
}

impl SymbolView {
    /// The name carried by the symbol, whichever variant it is.
    pub open spec fn name(self) -> Seq<char> {
        match self {
            SymbolView::Nonterm(s) => s,
            SymbolView::Term(s) => s,
        }
    }
}

pub open spec fn syms_view(s: Seq<Symbol>) -> Seq<SymbolView> {
    s.map_values(|x: Symbol| x@)
}

/// One alternative of a rule: a sequence of symbols and an optional `%prec`
/// override naming a token.
#[derive(Debug, Eq, PartialEq)]
pub struct Production {
    pub symbols: Vec<Symbol>,
    pub precedence: Option<String>,
}

/// The mathematical value of a production.
pub struct ProductionView {
    pub symbols: Seq<SymbolView>,
    pub precedence: Option<Seq<char>>,
}

impl View for Production {
    type V = ProductionView;

    open spec fn view(&self) -> ProductionView {
        ProductionView {
            symbols: syms_view(self.symbols@),
            precedence: match self.precedence {
                Some(ref s) => Some(s@),
                None => None,
            },
        }
    }
}

/// A rule as a named list of production indices.
#[derive(Debug)]
pub struct Rule {
    pub name: String,
    pub prod_idxs: Vec<usize>,
}

/// The kinds of error `complete_and_validate` can report.
#[derive(Clone, Copy, Debug, PartialEq, Eq, Structural)]
pub enum GrammarValidationErrorKind {
    NoStartRule,
    InvalidStartRule,
    UnknownRuleRef,
    UnknownToken,
    NoPrecForToken,
}

/// A validation error: its kind, and the offending symbol when there is one.
#[derive(Debug)]
pub struct GrammarValidationError {
    pub kind: GrammarValidationErrorKind,
    pub sym: Option<Symbol>,
}

/// The mathematical value of a validation error.
pub struct ErrView {
    pub kind: GrammarValidationErrorKind,
    pub sym: Option<SymbolView>,
}

/// An error value names an offending symbol whenever its kind calls for one.
pub open spec fn err_has_sym(e: ErrView) -> bool {
    !(e.kind is NoStartRule) ==> e.sym is Some
}

/// The diagnostic line an error renders to.
pub open spec fn err_message(e: ErrView) -> Seq<char> {
    match e.kind {
        GrammarValidationErrorKind::NoStartRule => "No start rule specified"@,
        GrammarValidationErrorKind::InvalidStartRule => "Start rule '"@ + e.sym.unwrap().name()
            + "' does not appear in grammar"@,
        GrammarValidationErrorKind::UnknownRuleRef => "Unknown reference to rule '"@
            + e.sym.unwrap().name() + "'"@,
        GrammarValidationErrorKind::UnknownToken => "Unknown token '"@ + e.sym.unwrap().name()
            + "'"@,
        GrammarValidationErrorKind::NoPrecForToken => "Token '"@ + e.sym.unwrap().name()
            + "' used in %prec has no precedence attached"@,
    }
}

impl GrammarValidationError {
    /// A human-readable description of the error, as a diagnostic line.
    pub fn message(&self) -> (r: String)
        requires
            err_has_sym(self@),
        ensures
            r@ == err_message(self@),
    {
        match self.kind {
            GrammarValidationErrorKind::NoStartRule => String::from_str("No start rule specified"),
            GrammarValidationErrorKind::InvalidStartRule => {
                let mut s = String::from_str("Start rule '");
                s.append(self.sym_name());
                s.append("' does not appear in grammar");
                s
            },
            GrammarValidationErrorKind::UnknownRuleRef => {
                let mut s = String::from_str("Unknown reference to rule '");
                s.append(self.sym_name());
                s.append("'");
                s
            },
            GrammarValidationErrorKind::UnknownToken => {
                let mut s = String::from_str("Unknown token '");
                s.append(self.sym_name());
                s.append("'");
                s
            },
            GrammarValidationErrorKind::NoPrecForToken => {
                let mut s = String::from_str("Token '");
                s.append(self.sym_name());
                s.append("' used in %prec has no precedence attached");
                s
            },
        }
    }

    /// The name of the offending symbol.
    fn sym_name(&self) -> (r: &str)
        requires
            self@.sym is Some,
        ensures
            r@ == self@.sym.unwrap().name(),
    {
        match &self.sym {
            Some(Symbol::Nonterm(n)) => n.as_str(),
            Some(Symbol::Term(n)) => n.as_str(),
            None => {
                proof {
                    assert(false);
                }
                ""
            },
        }
    }
}

impl View for GrammarValidationError {
    type V = ErrView;

    open spec fn view(&self) -> ErrView {
        ErrView {
            kind: self.kind,
            sym: match self.sym {
                Some(ref s) => Some(s@),
                None => None,
            },
        }
    }
}

/// An AST representing a grammar. It is built up gradually; when it is
/// finished, `complete_and_validate` must be called exactly once, and no
/// further mutation may follow it.
pub struct GrammarAST {
    pub start: Option<String>,
    /// Map from a rule name to indices into `prods`; iteration order is
    /// insertion order, which fixes the layout of the compiled grammar.
    pub rules: indexmap::IndexMap<String, Vec<usize>>,
    pub prods: Vec<Production>,
    pub tokens: TokenSet,
    pub precs: PrecMap,
    pub implicit_tokens: Option<TokenSet>,
}

/// The mathematical value of a grammar AST.
pub struct GrammarASTView {
    pub start: Option<Seq<char>>,
    pub rules: Seq<(Seq<char>, Seq<usize>)>,
    pub prods: Seq<ProductionView>,
    pub tokens: Seq<Seq<char>>,
    pub precs: Map<Seq<char>, Precedence>,
    pub implicit_tokens: Option<Seq<Seq<char>>>,
}

impl View for GrammarAST {
    type V = GrammarASTView;

    open spec fn view(&self) -> GrammarASTView {
        GrammarASTView {
            start: match self.start {
                Some(ref s) => Some(s@),
                None => None,
            },
            rules: rules_view(self.rules),
            prods: self.prods@.map_values(|p: Production| p@),
            tokens: self.tokens@,
            precs: self.precs@,
            implicit_tokens: match self.implicit_tokens {
                Some(ref t) => Some(t@),
                None => None,
            },
        }
    }
}

impl GrammarASTView {
    /// Position `j` of rule `i` holds a production index.
    pub open spec fn rule_slot(self, i: int, j: int) -> bool {
        0 <= i < self.rules.len() && 0 <= j < self.rules[i].1.len()
    }

    /// Some rule list mentions production `p`.
    pub open spec fn covers(self, p: int) -> bool {
        exists|i: int, j: int| self.rule_slot(i, j) && #[trigger] self.rules[i].1[j] == p
    }

    /// Structural well-formedness: rule names are distinct, and the rules'
    /// production lists partition the production vector.
    pub open spec fn wf(self) -> bool {
        &&& rules_keys_distinct(self.rules)
        &&& forall|i: int| 0 <= i < self.rules.len() ==> (#[trigger] self.rules[i]).1.len() >= 1
        &&& forall|i: int, j: int|
            self.rule_slot(i, j) ==> 0 <= #[trigger] self.rules[i].1[j] < self.prods.len()
        &&& forall|i: int, j: int, x: int, y: int|
            self.rule_slot(i, j) && self.rule_slot(x, y) && (i != x || j != y)
                ==> self.rules[i].1[j] != self.rules[x].1[y]
        &&& forall|p: int| 0 <= p < self.prods.len() ==> #[trigger] self.covers(p)
    }

    /// The semantic invariants that hold after validation succeeds.
    pub open spec fn valid(self) -> bool {
        &&& self.start is Some
        &&& rules_has_key(self.rules, self.start.unwrap())
        &&& forall|p: int|
            0 <= p < self.prods.len() ==> prod_valid(self, #[trigger] self.prods[p])
    }
}

/// Every reference inside a production resolves, and its `%prec` override, if
/// any, names a declared token with a precedence.
pub open spec fn prod_valid(v: GrammarASTView, p: ProductionView) -> bool {
    &&& forall|k: int| 0 <= k < p.symbols.len() ==> sym_valid(v, #[trigger] p.symbols[k])
    &&& match p.precedence {
        Some(n) => v.tokens.contains(n) && v.precs.contains_key(n),
        None => true,
    }
}

pub open spec fn sym_valid(v: GrammarASTView, s: SymbolView) -> bool {
    match s {
        SymbolView::Nonterm(n) => rules_has_key(v.rules, n),
        SymbolView::Term(n) => v.tokens.contains(n),
    }
}

/// The error a single symbol gives, if any.
pub open spec fn check_sym(v: GrammarASTView, s: SymbolView) -> Option<ErrView> {
    match s {
        SymbolView::Nonterm(n) => if rules_has_key(v.rules, n) {
            None
        } else {
            Some(ErrView { kind: GrammarValidationErrorKind::UnknownRuleRef, sym: Some(s) })
        },
        SymbolView::Term(n) => if v.tokens.contains(n) {
            None
        } else {
            Some(ErrView { kind: GrammarValidationErrorKind::UnknownToken, sym: Some(s) })
        },
    }
}

/// The first error among a production's symbols, scanned left to right.
pub open spec fn check_syms(v: GrammarASTView, syms: Seq<SymbolView>) -> Option<ErrView>
    decreases syms.len(),
{
    if syms.len() == 0 {
        None
    } else if check_sym(v, syms[0]) is Some {
        check_sym(v, syms[0])
    } else {
        check_syms(v, syms.drop_first())
    }
}

/// The first error of a production: its `%prec` override first, then its
/// symbols.
pub open spec fn check_prod(v: GrammarASTView, p: ProductionView) -> Option<ErrView> {
    match p.precedence {
        Some(n) => if !v.tokens.contains(n) {
            Some(
                ErrView {
                    kind: GrammarValidationErrorKind::UnknownToken,
                    sym: Some(SymbolView::Term(n)),
                },
            )
        } else if !v.precs.contains_key(n) {
            Some(
                ErrView {
                    kind: GrammarValidationErrorKind::NoPrecForToken,
                    sym: Some(SymbolView::Term(n)),
                },
            )
        } else {
            check_syms(v, p.symbols)
        },
        None => check_syms(v, p.symbols),
    }
}

/// The first error among the productions of one rule, in order.
pub open spec fn check_prod_list(v: GrammarASTView, list: Seq<usize>) -> Option<ErrView>
    decreases list.len(),
{
    if list.len() == 0 {
        None
    } else if check_prod(v, v.prods[list[0] as int]) is Some {
        check_prod(v, v.prods[list[0] as int])
    } else {
        check_prod_list(v, list.drop_first())
    }
}

/// The first error among the rules from position `i` on, in insertion order.
pub open spec fn check_rules_from(v: GrammarASTView, i: nat) -> Option<ErrView>
    decreases v.rules.len() - i,
{
    if i >= v.rules.len() {
        None
    } else if check_prod_list(v, v.rules[i as int].1) is Some {
        check_prod_list(v, v.rules[i as int].1)
    } else {
        check_rules_from(v, (i + 1) as nat)
    }
}

/// The first validation error of a grammar AST: a missing start rule, an
/// unknown start rule, then the first failing rule in insertion order.
pub open spec fn validate_spec(v: GrammarASTView) -> Option<ErrView> {
    match v.start {
        None => Some(ErrView { kind: GrammarValidationErrorKind::NoStartRule, sym: None }),
        Some(s) => if !rules_has_key(v.rules, s) {
            Some(
                ErrView {
                    kind: GrammarValidationErrorKind::InvalidStartRule,
                    sym: Some(SymbolView::Nonterm(s)),
                },
            )
        } else {
            check_rules_from(v, 0)
        },
    }
}

proof fn lemma_check_syms_clean(v: GrammarASTView, syms: Seq<SymbolView>)
    requires
        check_syms(v, syms) is None,
    ensures
        forall|k: int| 0 <= k < syms.len() ==> sym_valid(v, #[trigger] syms[k]),
    decreases syms.len(),
{
    if syms.len() > 0 {
        lemma_check_syms_clean(v, syms.drop_first());
        assert forall|k: int| 0 <= k < syms.len() implies sym_valid(v, #[trigger] syms[k]) by {
            if k > 0 {
                assert(syms.drop_first()[k - 1] == syms[k]);
            }
        }
    }
}

proof fn lemma_check_prod_clean(v: GrammarASTView, p: ProductionView)
    requires
        check_prod(v, p) is None,
    ensures
        prod_valid(v, p),
{
    lemma_check_syms_clean(v, p.symbols);
}

proof fn lemma_check_prod_list_clean(v: GrammarASTView, list: Seq<usize>, j: int)
    requires
        check_prod_list(v, list) is None,
        0 <= j < list.len(),
    ensures
        check_prod(v, v.prods[list[j] as int]) is None,
    decreases list.len(),
{
    if j > 0 {
        lemma_check_prod_list_clean(v, list.drop_first(), j - 1);
        assert(list.drop_first()[j - 1] == list[j]);
    }
}

proof fn lemma_check_rules_clean(v: GrammarASTView, i: int)
    requires
        check_rules_from(v, 0) is None,
        0 <= i < v.rules.len(),
    ensures
        check_prod_list(v, v.rules[i].1) is None,
    decreases i,
{
    lemma_check_rules_range(v, 0, i);
}

proof fn lemma_check_rules_range(v: GrammarASTView, lo: nat, i: int)
    requires
        check_rules_from(v, lo) is None,
        lo <= i < v.rules.len(),
    ensures
        check_prod_list(v, v.rules[i].1) is None,
    decreases i - lo,
{
    if i > lo {
        lemma_check_rules_range(v, (lo + 1) as nat, i);
    }
}

/// A grammar whose validation finds no error satisfies the semantic
/// invariants, given structural well-formedness.
pub proof fn lemma_validate_ok(v: GrammarASTView)
    requires
        v.wf(),
        validate_spec(v) is None,
    ensures
        v.valid(),
{
    assert forall|p: int| 0 <= p < v.prods.len() implies prod_valid(v, #[trigger] v.prods[p]) by {
        assert(v.covers(p));
        let (i, j) = choose|i: int, j: int| v.rule_slot(i, j) && #[trigger] v.rules[i].1[j] == p;
        lemma_check_rules_clean(v, i);
        lemma_check_prod_list_clean(v, v.rules[i].1, j);
        lemma_check_prod_clean(v, v.prods[p]);
    }
}

impl GrammarAST {
    pub fn new() -> (r: GrammarAST)
        ensures
            r@.start is None,
            r@.rules == Seq::<(Seq<char>, Seq<usize>)>::empty(),
            r@.prods == Seq::<ProductionView>::empty(),
            r@.tokens == Seq::<Seq<char>>::empty(),
            r@.precs == Map::<Seq<char>, Precedence>::empty(),
            r@.implicit_tokens is None,
            r@.wf(),
            r.collections_wf(),
    {
        GrammarAST {
            start: None,
            rules: rules_new(),
            prods: Vec::new(),
            tokens: TokenSet::new(),
            precs: PrecMap::new(),
            implicit_tokens: None,
        }
    }

    /// The well-formedness of the backing collections themselves.
    pub open spec fn collections_wf(&self) -> bool {
        &&& self.tokens.wf()
        &&& self.precs.wf()
        &&& match self.implicit_tokens {
            Some(ref t) => t.wf(),
            None => true,
        }
    }

    /// Append a production to the rule named `key`, creating the rule, last
    /// in order, when it is new.
    pub fn add_prod(&mut self, key: String, symbols: Vec<Symbol>, precedence: Option<String>)
        requires
            old(self)@.wf(),
        ensures
            final(self)@.wf(),
            final(self)@.prods == old(self)@.prods.push(
                ProductionView {
                    symbols: syms_view(symbols@),
                    precedence: match precedence {
                        Some(ref s) => Some(s@),
                        None => None,
                    },
                },
            ),
            rules_has_key(old(self)@.rules, key@) ==> {
                let i = crate::rulemap::rules_find_key(old(self)@.rules, key@);
                final(self)@.rules == old(self)@.rules.update(
                    i,
                    (key@, old(self)@.rules[i].1.push((old(self)@.prods.len()) as usize)),
                )
            },
            !rules_has_key(old(self)@.rules, key@) ==> final(self)@.rules == old(
                self,
            )@.rules.push((key@, seq![old(self)@.prods.len() as usize])),
            final(self)@.start == old(self)@.start,
            final(self)@.tokens == old(self)@.tokens,
            final(self)@.precs == old(self)@.precs,
            final(self)@.implicit_tokens == old(self)@.implicit_tokens,
            final(self).collections_wf() == old(self).collections_wf(),
    {
        let ghost v0 = self@;
        let ghost kv = key@;
        let ghost newp = ProductionView {
            symbols: syms_view(symbols@),
            precedence: match precedence {
                Some(ref s) => Some(s@),
                None => None,
            },
        };
        let p = self.prods.len();
        rules_push_prod(&mut self.rules, key, p);
        self.prods.push(Production { symbols, precedence });
        proof {
            assert(self@.prods =~= v0.prods.push(newp));
            lemma_add_prod_wf(v0, self@, kv, p);
        }
    }

    /// The productions of the rule named `key`, or `None` when no such rule
    /// exists.
    pub fn get_rule(&self, key: &str) -> (r: Option<&Vec<usize>>)
        ensures
            match r {
                Some(v) => rules_has_key(self@.rules, key@) && v@ == self@.rules[
                    crate::rulemap::rules_find_key(self@.rules, key@)
                ].1,
                None => !rules_has_key(self@.rules, key@),
            },
    {
        rules_get(&self.rules, key)
    }

    /// Whether `s` is a declared token.
    pub fn has_token(&self, s: &str) -> (r: bool)
        ensures
            r == self@.tokens.contains(s@),
    {
        self.tokens.contains(s)
    }

    /// After the AST has been populated, validate the grammar, checking that:
    /// the start rule references a rule; every nonterminal reference
    /// references a rule; every terminal reference references a declared
    /// token; and every `%prec` override names a declared token with a
    /// precedence. The first violation, in declaration order, is reported.
    #[verifier::loop_isolation(false)]
    pub fn complete_and_validate(&mut self) -> (r: Result<(), GrammarValidationError>)
        requires
            old(self)@.wf(),
            old(self).collections_wf(),
        ensures
            *final(self) == *old(self),
            match r {
                Ok(()) => validate_spec(old(self)@) is None && old(self)@.valid(),
                Err(e) => validate_spec(old(self)@) == Some(e@),
            },
    {
        let ghost v = self@;
        match self.start {
            None => {
                return Err(
                    GrammarValidationError {
                        kind: GrammarValidationErrorKind::NoStartRule,
                        sym: None,
                    },
                );
            },
            Some(ref s) => {
                if rules_get_index_of(&self.rules, s.as_str()).is_none() {
                    return Err(
                        GrammarValidationError {
                            kind: GrammarValidationErrorKind::InvalidStartRule,
                            sym: Some(Symbol::Nonterm(s.clone())),
                        },
                    );
                }
            },
        }
        let nrules = rules_len(&self.rules);
        let mut i: usize = 0;
        while i < nrules
            invariant
                self@ == v,
                v.wf(),
                self.collections_wf(),
                nrules == v.rules.len(),
                i <= nrules,
                check_rules_from(v, 0) == check_rules_from(v, i as nat),
            decreases nrules - i,
        {
            let (_name, prod_idxs) = rules_get_index(&self.rules, i);
            let mut j: usize = 0;
            proof {
                assert(v.rules[i as int].1.skip(0) =~= v.rules[i as int].1);
            }
            while j < prod_idxs.len()
                invariant
                    self@ == v,
                    v.wf(),
                    self.collections_wf(),
                    0 <= i < v.rules.len(),
                    prod_idxs@ == v.rules[i as int].1,
                    j <= prod_idxs@.len(),
                    check_prod_list(v, v.rules[i as int].1) == check_prod_list(
                        v,
                        v.rules[i as int].1.skip(j as int),
                    ),
                decreases prod_idxs@.len() - j,
            {
                let p = prod_idxs[j];
                assert(v.rule_slot(i as int, j as int));
                assert(v.rules[i as int].1[j as int] == p);
                let res = self.check_one_prod(p);
                proof {
                    let rest = v.rules[i as int].1.skip(j as int);
                    assert(rest[0] == p);
                    assert(rest.drop_first() =~= v.rules[i as int].1.skip(j as int + 1));
                }
                match res {
                    Some(e) => {
                        return Err(e);
                    },
                    None => {},
                }
                j = j + 1;
            }
            proof {
                assert(v.rules[i as int].1.skip(j as int) =~= Seq::<usize>::empty());
            }
            i = i + 1;
        }
        proof {
            lemma_validate_ok(v);
        }
        Ok(())
    }

    /// Check one production: its `%prec` override, then its symbols, left to
    /// right.
    #[verifier::loop_isolation(false)]
    fn check_one_prod(&self, p: usize) -> (r: Option<GrammarValidationError>)
        requires
            self@.wf(),
            self.collections_wf(),
            p < self@.prods.len(),
        ensures
            match r {
                Some(e) => check_prod(self@, self@.prods[p as int]) == Some(e@),
                None => check_prod(self@, self@.prods[p as int]) is None,
            },
    {
        let ghost v = self@;
        let prod = &self.prods[p];
        match prod.precedence {
            Some(ref n) => {
                if !self.tokens.contains(n.as_str()) {
                    return Some(
                        GrammarValidationError {
                            kind: GrammarValidationErrorKind::UnknownToken,
                            sym: Some(Symbol::Term(n.clone())),
                        },
                    );
                }
                if !self.precs.contains_key(n.as_str()) {
                    return Some(
                        GrammarValidationError {
                            kind: GrammarValidationErrorKind::NoPrecForToken,
                            sym: Some(Symbol::Term(n.clone())),
                        },
                    );
                }
            },
            None => {},
        }
        let mut k: usize = 0;
        proof {
            assert(v.prods[p as int].symbols.skip(0) =~= v.prods[p as int].symbols);
        }
        while k < prod.symbols.len()
            invariant
                self@ == v,
                v.wf(),
                self.collections_wf(),
                p < v.prods.len(),
                k <= prod.symbols@.len(),
                prod@ == v.prods[p as int],
                check_syms(v, v.prods[p as int].symbols) == check_syms(
                    v,
                    v.prods[p as int].symbols.skip(k as int),
                ),
            decreases prod.symbols@.len() - k,
        {
            let sym = &prod.symbols[k];
            proof {
                let rest = v.prods[p as int].symbols.skip(k as int);
                assert(rest[0] == sym@);
                assert(rest.drop_first() =~= v.prods[p as int].symbols.skip(k as int + 1));
            }
            match sym {
                Symbol::Nonterm(name) => {
                    if rules_get_index_of(&self.rules, name.as_str()).is_none() {
                        return Some(
                            GrammarValidationError {
                                kind: GrammarValidationErrorKind::UnknownRuleRef,
                                sym: Some(Symbol::Nonterm(name.clone())),
                            },
                        );
                    }
                },
                Symbol::Term(name) => {
                    if !self.tokens.contains(name.as_str()) {
                        return Some(
                            GrammarValidationError {
                                kind: GrammarValidationErrorKind::UnknownToken,
                                sym: Some(Symbol::Term(name.clone())),
                            },
                        );
                    }
                },
            }
            k = k + 1;
        }
        proof {
            assert(v.prods[p as int].symbols.skip(k as int) =~= Seq::<SymbolView>::empty());
        }
        None
    }
}

proof fn lemma_add_prod_wf(v0: GrammarASTView, v1: GrammarASTView, k: Seq<char>, p: usize)
    requires
        v0.wf(),
        p == v0.prods.len(),
        v1.prods.len() == v0.prods.len() + 1,
        rules_has_key(v0.rules, k) ==> {
            let i = crate::rulemap::rules_find_key(v0.rules, k);
            v1.rules == v0.rules.update(i, (k, v0.rules[i].1.push(p)))
        },
        !rules_has_key(v0.rules, k) ==> v1.rules == v0.rules.push((k, seq![p])),
    ensures
        v1.wf(),
{
    lemma_rules_find_key(v0.rules, k);
    if rules_has_key(v0.rules, k) {
        let i0 = crate::rulemap::rules_find_key(v0.rules, k);
        assert(v0.rules[i0].0 == k);
        // Every old slot keeps its value; one fresh slot holds `p`.
        assert forall|i: int, j: int| v0.rule_slot(i, j) implies v1.rules[i].1[j]
            == v0.rules[i].1[j] && v1.rule_slot(i, j) by {}
        assert forall|i: int, j: int| v1.rule_slot(i, j) implies (v0.rule_slot(i, j) || (i == i0 && j
            == v0.rules[i0].1.len() && #[trigger] v1.rules[i].1[j] == p)) by {}
        assert forall|i: int, j: int| 0 <= i < j < v1.rules.len() implies v1.rules[i].0
            != v1.rules[j].0 by {
            assert(v1.rules[i].0 == v0.rules[i].0);
            assert(v1.rules[j].0 == v0.rules[j].0);
        }
        assert forall|q: int| 0 <= q < v1.prods.len() implies #[trigger] v1.covers(q) by {
            if q < p {
                assert(v0.covers(q));
                let (i, j) = choose|i: int, j: int|
                    v0.rule_slot(i, j) && #[trigger] v0.rules[i].1[j] == q;
                assert(v1.rule_slot(i, j) && v1.rules[i].1[j] == q);
            } else {
                let j = v0.rules[i0].1.len() as int;
                assert(v1.rule_slot(i0, j) && v1.rules[i0].1[j] == q);
            }
        }
        assert(v1.wf());
    } else {
        let i0 = v0.rules.len() as int;
        assert forall|i: int, j: int| v0.rule_slot(i, j) implies v1.rules[i].1[j]
            == v0.rules[i].1[j] && v1.rule_slot(i, j) by {}
        assert forall|i: int, j: int| v1.rule_slot(i, j) implies (v0.rule_slot(i, j) || (i == i0 && j
            == 0 && #[trigger] v1.rules[i].1[j] == p)) by {}
        assert forall|i: int, j: int| 0 <= i < j < v1.rules.len() implies v1.rules[i].0
            != v1.rules[j].0 by {
            if j < i0 {
                assert(v1.rules[i].0 == v0.rules[i].0);
                assert(v1.rules[j].0 == v0.rules[j].0);
            } else {
                assert(v1.rules[i].0 == v0.rules[i].0);
                assert(v1.rules[j].0 == k);
                assert(!rules_has_key(v0.rules, k));
                assert(v0.rules[i].0 != k);
            }
        }
        assert forall|q: int| 0 <= q < v1.prods.len() implies #[trigger] v1.covers(q) by {
            if q < p {
                assert(v0.covers(q));
                let (i, j) = choose|i: int, j: int|
                    v0.rule_slot(i, j) && #[trigger] v0.rules[i].1[j] == q;
                assert(v1.rule_slot(i, j) && v1.rules[i].1[j] == q);
            } else {
                assert(v1.rule_slot(i0, 0) && v1.rules[i0].1[0] == q);
            }
        }
        assert(v1.wf());
    }
}

} // verus!
