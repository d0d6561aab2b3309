//! The compiled grammar: a dense, integer-indexed representation of a
//! validated grammar AST, with a synthesised start rule and, optionally, the
//! implicit-token rewriting.

use vstd::prelude::*;
use vstd::string::StringExecFns;
use vstd::set_lib::lemma_len_subset;

use crate::ast::GrammarAST;
use crate::ast::GrammarASTView;
use crate::ast::GrammarValidationError;
use crate::ast::Production;
use crate::ast::ProductionView;
use crate::ast::SymbolView;
use crate::defs::NTIdx;
use crate::defs::PIdx;
use crate::defs::Precedence;
use crate::defs::Symbol;
use crate::defs::TIdx;
use crate::defs::YaccKind;
use crate::precmap::PrecMap;
use crate::ast::prod_valid;
use crate::ast::sym_valid;
use crate::rulemap::rules_get_index;
use crate::rulemap::rules_get_index_of;
use crate::rulemap::rules_len;
use crate::rulemap::rules_has_key;
use crate::strutil::find_name_idx;
use crate::strutil::lemma_seq_find;
use crate::strutil::seq_find;
use crate::strutil::strs_view;

verus! {

/// The rule names of an AST, in insertion order.
pub open spec fn rule_names(av: GrammarASTView) -> Seq<Seq<char>> {
    av.rules.map_values(|e: (Seq<char>, Seq<usize>)| e.0)
}

/// `s` concatenated with itself `m` times.
pub open spec fn rep(s: Seq<char>, m: nat) -> Seq<char>
    decreases m,
{
    if m == 0 {
        Seq::empty()
    } else {
        rep(s, (m - 1) as nat) + s
    }
}

/// `name` is the shortest repetition of `sent` that is not one of `keys`.
pub open spec fn is_fresh_sentinel(keys: Seq<Seq<char>>, sent: Seq<char>, name: Seq<char>) -> bool {
    exists|m: nat|
        1 <= m && name == #[trigger] rep(sent, m) && !keys.contains(name) && (forall|m2: nat|
            1 <= m2 < m ==> keys.contains(#[trigger] rep(sent, m2)))
}

/// Whether the implicit-token rewriting is active.
pub open spec fn imp_active(av: GrammarASTView, kind: YaccKind) -> bool {
    kind is Eco && av.implicit_tokens is Some
}

/// A nonterminal reference lowered to its index among the compiled names, a
/// terminal reference to its position in the declared token order.
pub open spec fn lower_sym(s: SymbolView, nts: Seq<Seq<char>>, toks: Seq<Seq<char>>) -> Symbol {
    match s {
        SymbolView::Nonterm(n) => Symbol::Nonterm(NTIdx(seq_find(nts, n) as usize)),
        SymbolView::Term(n) => Symbol::Term(TIdx(seq_find(toks, n) as usize)),
    }
}

/// A production body lowered symbol by symbol.
pub open spec fn lower_body(syms: Seq<SymbolView>, nts: Seq<Seq<char>>, toks: Seq<Seq<char>>) -> Seq<
    Symbol,
> {
    syms.map_values(|s: SymbolView| lower_sym(s, nts, toks))
}

/// A production body lowered with the implicit nonterminal woven in after
/// every terminal.
pub open spec fn weave_body(
    syms: Seq<SymbolView>,
    nts: Seq<Seq<char>>,
    toks: Seq<Seq<char>>,
    imp: NTIdx,
) -> Seq<Symbol>
    decreases syms.len(),
{
    if syms.len() == 0 {
        Seq::empty()
    } else {
        let first = match syms[0] {
            SymbolView::Nonterm(_) => seq![lower_sym(syms[0], nts, toks)],
            SymbolView::Term(_) => seq![lower_sym(syms[0], nts, toks), Symbol::Nonterm(imp)],
        };
        first + weave_body(syms.drop_first(), nts, toks, imp)
    }
}

/// The precedence of the right-most terminal of a body, if that terminal has
/// one.
pub open spec fn rightmost_term_prec(
    precs: Map<Seq<char>, Precedence>,
    syms: Seq<SymbolView>,
) -> Option<Precedence>
    decreases syms.len(),
{
    if syms.len() == 0 {
        None
    } else {
        match syms.last() {
            SymbolView::Term(n) => if precs.contains_key(n) {
                Some(precs[n])
            } else {
                None
            },
            SymbolView::Nonterm(_) => rightmost_term_prec(precs, syms.drop_last()),
        }
    }
}

/// The effective precedence of a production: its `%prec` override when
/// present, else that of its right-most terminal.
pub open spec fn prec_of_prod(precs: Map<Seq<char>, Precedence>, p: ProductionView) -> Option<
    Precedence,
> {
    match p.precedence {
        Some(n) => if precs.contains_key(n) {
            Some(precs[n])
        } else {
            None
        },
        None => rightmost_term_prec(precs, p.symbols),
    }
}

proof fn lemma_rep_len(s: Seq<char>, m: nat)
    ensures
        rep(s, m).len() == m * s.len(),
    decreases m,
{
    if m == 0 {
        assert(rep(s, 0) == Seq::<char>::empty());
    } else {
        lemma_rep_len(s, (m - 1) as nat);
        assert(rep(s, m).len() == rep(s, (m - 1) as nat).len() + s.len());
        assert((m - 1) * s.len() + s.len() == m * s.len()) by (nonlinear_arith);
    }
}

/// If the repetitions `1..=n` of a non-empty sentinel are all members of
/// `keys`, then `n` is at most the number of keys.
proof fn lemma_rep_pigeonhole(keys: Seq<Seq<char>>, sent: Seq<char>, n: nat)
    requires
        sent.len() >= 1,
        forall|m: nat| 1 <= m <= n ==> keys.contains(#[trigger] rep(sent, m)),
    ensures
        n <= keys.len(),
{
    let reps = Seq::new(n, |j: int| rep(sent, (j + 1) as nat));
    assert forall|x: int, y: int| 0 <= x < y < n implies reps[x] != reps[y] by {
        lemma_rep_len(sent, (x + 1) as nat);
        lemma_rep_len(sent, (y + 1) as nat);
        assert((x + 1) * sent.len() < (y + 1) * sent.len()) by (nonlinear_arith)
            requires
                0 <= x < y && sent.len() >= 1,
        ;
    }
    assert(reps.no_duplicates());
    reps.unique_seq_to_set();
    assert forall|e: Seq<char>| reps.to_set().contains(e) implies keys.to_set().contains(e) by {
        let j = choose|j: int| 0 <= j < reps.len() && reps[j] == e;
        assert(keys.contains(rep(sent, (j + 1) as nat)));
    }
    keys.lemma_cardinality_of_set();
    lemma_len_subset(reps.to_set(), keys.to_set());
}

/// Pick the shortest repetition of `sentinel` that is not a rule name. The
/// sentinel-growing scheme is deterministic and collision-free.
#[verifier::loop_isolation(false)]
fn fresh_name(
    rules: &indexmap::IndexMap<String, Vec<usize>>,
    sentinel: &str,
    keys: Ghost<Seq<Seq<char>>>,
) -> (r: String)
    requires
        sentinel@.len() >= 1,
        keys@ == crate::rulemap::rules_view(*rules).map_values(
            |e: (Seq<char>, Seq<usize>)| e.0,
        ),
    ensures
        is_fresh_sentinel(keys@, sentinel@, r@),
{
    let mut name: String = String::from_str(sentinel);
    let ghost mut m: nat = 1;
    proof {
        assert(rep(sentinel@, 0) == Seq::<char>::empty());
        assert(rep(sentinel@, 1) =~= Seq::empty() + sentinel@);
        assert(name@ == rep(sentinel@, 1));
    }
    loop
        invariant
            1 <= m,
            name@ == rep(sentinel@, m),
            forall|m2: nat| 1 <= m2 < m ==> keys@.contains(#[trigger] rep(sentinel@, m2)),
            m <= keys@.len() + 1,
        decreases keys@.len() + 1 - m,
    {
        let present = rules_get_index_of(rules, name.as_str());
        match present {
            None => {
                proof {
                    assert forall|j: int| 0 <= j < keys@.len() implies keys@[j] != name@ by {
                        assert(crate::rulemap::rules_view(*rules)[j].0 == keys@[j]);
                    }
                    assert(!keys@.contains(name@));
                }
                return name;
            },
            Some(i) => {
                proof {
                    assert(keys@[i as int] == name@);
                    assert(keys@.contains(name@));
                    assert(forall|m2: nat| 1 <= m2 <= m ==> keys@.contains(
                        #[trigger] rep(sentinel@, m2),
                    ));
                    lemma_rep_pigeonhole(keys@, sentinel@, m);
                }
                name.append(sentinel);
                proof {
                    m = m + 1;
                }
            },
        }
    }
}

/// A symbol refers only to indices that exist.
pub open spec fn sym_idx_valid(s: Symbol, nts: nat, ts: nat) -> bool {
    match s {
        Symbol::Nonterm(n) => n.0 < nts,
        Symbol::Term(t) => t.0 < ts,
    }
}

/// A compiled grammar: dense vectors keyed by nonterminal, terminal and
/// production indices. The nonterminal at index 0 is always the synthesised
/// start rule, whose sole production is `start_prod`.
pub struct YaccGrammar {
    /// How many nonterminals this grammar has.
    nonterms_len: u32,
    /// A mapping from `NTIdx` to the rule name.
    nonterm_names: Vec<String>,
    /// A mapping from `TIdx` to the token name; terminals this crate
    /// synthesises (the EOF terminal) have none.
    term_names: Vec<Option<String>>,
    /// A mapping from `TIdx` to the declared precedence, if any.
    term_precs: Vec<Option<Precedence>>,
    /// How many terminals this grammar has.
    terms_len: u32,
    /// The index of the EOF terminal.
    eof_term_idx: TIdx,
    /// How many productions this grammar has.
    prods_len: u32,
    /// The sole production of the start rule.
    start_prod: PIdx,
    /// The body of each production.
    prods: Vec<Vec<Symbol>>,
    /// The productions of each rule, in attachment order.
    rules_prods: Vec<Vec<PIdx>>,
    /// The owning rule of each production.
    prods_rules: Vec<NTIdx>,
    /// The effective precedence of each production.
    prod_precs: Vec<Option<Precedence>>,
    /// The nonterminal added for implicit tokens, when they were given.
    implicit_nonterm: Option<NTIdx>,
}

impl YaccGrammar {
    /// The rule names, by nonterminal index.
    pub closed spec fn nt_names(&self) -> Seq<Seq<char>> {
        strs_view(self.nonterm_names@)
    }

    /// The token names, by terminal index; `None` for the EOF terminal.
    pub closed spec fn t_names(&self) -> Seq<Option<Seq<char>>> {
        self.term_names@.map_values(
            |s: Option<String>|
                match s {
                    Some(x) => Some(x@),
                    None => None,
                },
        )
    }

    /// The declared precedences, by terminal index.
    pub closed spec fn t_precs(&self) -> Seq<Option<Precedence>> {
        self.term_precs@
    }

    /// The production bodies, by production index.
    pub closed spec fn prod_bodies(&self) -> Seq<Seq<Symbol>> {
        self.prods@.map_values(|v: Vec<Symbol>| v@)
    }

    /// The production lists, by nonterminal index.
    pub closed spec fn rule_prod_lists(&self) -> Seq<Seq<PIdx>> {
        self.rules_prods@.map_values(|v: Vec<PIdx>| v@)
    }

    /// The owning rule of each production.
    pub closed spec fn prod_owners(&self) -> Seq<NTIdx> {
        self.prods_rules@
    }

    /// The effective precedences, by production index.
    pub closed spec fn prod_prec_list(&self) -> Seq<Option<Precedence>> {
        self.prod_precs@
    }

    pub closed spec fn spec_start_prod(&self) -> PIdx {
        self.start_prod
    }

    pub closed spec fn spec_eof(&self) -> TIdx {
        self.eof_term_idx
    }

    pub closed spec fn spec_implicit(&self) -> Option<NTIdx> {
        self.implicit_nonterm
    }

    /// The cached counts agree with the vectors.
    pub closed spec fn lens_ok(&self) -> bool {
        &&& self.nonterms_len as int == self.nt_names().len()
        &&& self.terms_len as int == self.t_names().len()
        &&& self.prods_len as int == self.prod_bodies().len()
    }

    /// Position `j` of the production list of rule `i` exists.
    pub open spec fn rp_slot(&self, i: int, j: int) -> bool {
        0 <= i < self.rule_prod_lists().len() && 0 <= j < self.rule_prod_lists()[i].len()
    }

    /// Some rule list mentions production `p`.
    pub open spec fn p_covered(&self, p: int) -> bool {
        exists|i: int, j: int|
            self.rp_slot(i, j) && (#[trigger] self.rule_prod_lists()[i][j]).0 == p
    }

    /// The global invariants of a compiled grammar: consistent lengths, the
    /// EOF terminal last and nameless, distinct names, every production owned
    /// by exactly one rule, every symbol in range, and the start rule at
    /// index 0 with a single one-symbol production.
    pub open spec fn wf(&self) -> bool {
        &&& 1 <= self.nt_names().len() < 0x1_0000_0000
        &&& 1 <= self.t_names().len() < 0x1_0000_0000
        &&& 1 <= self.prod_bodies().len() < 0x1_0000_0000
        &&& self.rule_prod_lists().len() == self.nt_names().len()
        &&& self.t_precs().len() == self.t_names().len()
        &&& self.prod_owners().len() == self.prod_bodies().len()
        &&& self.prod_prec_list().len() == self.prod_bodies().len()
        &&& forall|p: int|
            0 <= p < self.prod_bodies().len() ==> (#[trigger] self.prod_bodies()[p]).len()
                < 0x1_0000_0000
        &&& self.spec_eof().0 + 1 == self.t_names().len()
        &&& self.t_names().last() is None
        &&& self.t_precs().last() is None
        &&& forall|i: int| 0 <= i < self.t_names().len() - 1 ==> (#[trigger] self.t_names()[i]) is Some
        &&& forall|i: int, j: int|
            0 <= i < j < self.nt_names().len() ==> self.nt_names()[i] != self.nt_names()[j]
        &&& forall|i: int, j: int|
            0 <= i < j < self.t_names().len() && self.t_names()[i] is Some
                && self.t_names()[j] is Some ==> self.t_names()[i] != self.t_names()[j]
        &&& forall|i: int|
            0 <= i < self.rule_prod_lists().len() ==> (#[trigger] self.rule_prod_lists()[i]).len()
                >= 1
        &&& forall|i: int, j: int|
            self.rp_slot(i, j) ==> (#[trigger] self.rule_prod_lists()[i][j]).0
                < self.prod_bodies().len()
        &&& forall|i: int, j: int|
            self.rp_slot(i, j) ==> self.prod_owners()[(#[trigger] self.rule_prod_lists()[i][j]).0 as int]
                == NTIdx(i as usize)
        &&& forall|i: int, j: int, x: int, y: int|
            self.rp_slot(i, j) && self.rp_slot(x, y) && (i != x || j != y)
                ==> self.rule_prod_lists()[i][j] != self.rule_prod_lists()[x][y]
        &&& forall|p: int| 0 <= p < self.prod_bodies().len() ==> #[trigger] self.p_covered(p)
        &&& forall|p: int|
            0 <= p < self.prod_owners().len() ==> (#[trigger] self.prod_owners()[p]).0
                < self.nt_names().len()
        &&& forall|p: int, k: int|
            0 <= p < self.prod_bodies().len() && 0 <= k < self.prod_bodies()[p].len()
                ==> sym_idx_valid(
                #[trigger] self.prod_bodies()[p][k],
                self.nt_names().len(),
                self.t_names().len(),
            )
        &&& self.spec_start_prod().0 < self.prod_bodies().len()
        &&& self.prod_owners()[self.spec_start_prod().0 as int] == NTIdx(0)
        &&& self.rule_prod_lists()[0] == seq![self.spec_start_prod()]
        &&& self.prod_bodies()[self.spec_start_prod().0 as int].len() == 1
        &&& self.prod_bodies()[self.spec_start_prod().0 as int][0] is Nonterm
        &&& self.prod_prec_list()[self.spec_start_prod().0 as int] is None
        &&& self.lens_ok()
        &&& match self.spec_implicit() {
            Some(n) => n.0 < self.nt_names().len(),
            None => true,
        }
    }

    /// The index of the EOF terminal.
    pub fn eof_term_idx(&self) -> (r: TIdx)
        ensures
            r == self.spec_eof(),
    {
        self.eof_term_idx
    }

    /// The productions of nonterminal `i`.
    pub fn nonterm_to_prods(&self, i: NTIdx) -> (r: &Vec<PIdx>)
        requires
            self.wf(),
            i.0 < self.nt_names().len(),
        ensures
            r@ == self.rule_prod_lists()[i.0 as int],
    {
        &self.rules_prods[i.0]
    }

    /// The name of nonterminal `i`.
    pub fn nonterm_name(&self, i: NTIdx) -> (r: &str)
        requires
            self.wf(),
            i.0 < self.nt_names().len(),
        ensures
            r@ == self.nt_names()[i.0 as int],
    {
        self.nonterm_names[i.0].as_str()
    }

    /// All this grammar's valid nonterminal indices, in order.
    #[verifier::loop_isolation(false)]
    pub fn iter_nonterm_idxs(&self) -> (r: Vec<NTIdx>)
        requires
            self.wf(),
        ensures
            r@.len() == self.nt_names().len(),
            forall|i: int| 0 <= i < r@.len() ==> r@[i] == NTIdx(i as usize),
    {
        let mut out: Vec<NTIdx> = Vec::new();
        let n = self.nonterm_names.len();
        let mut i: usize = 0;
        while i < n
            invariant
                i <= n,
                out@.len() == i,
                forall|j: int| 0 <= j < i ==> out@[j] == NTIdx(j as usize),
            decreases n - i,
        {
            out.push(NTIdx(i));
            i = i + 1;
        }
        out
    }

    /// The body of production `i`.
    pub fn prod(&self, i: PIdx) -> (r: &Vec<Symbol>)
        requires
            self.wf(),
            i.0 < self.prod_bodies().len(),
        ensures
            r@ == self.prod_bodies()[i.0 as int],
    {
        &self.prods[i.0]
    }

    /// The rule that owns production `i`.
    pub fn prod_to_nonterm(&self, i: PIdx) -> (r: NTIdx)
        requires
            self.wf(),
            i.0 < self.prod_bodies().len(),
        ensures
            r == self.prod_owners()[i.0 as int],
    {
        self.prods_rules[i.0]
    }

    /// The effective precedence of production `i`, `None` meaning that none
    /// was declared or inferred.
    pub fn prod_precedence(&self, i: PIdx) -> (r: Option<Precedence>)
        requires
            self.wf(),
            i.0 < self.prod_bodies().len(),
        ensures
            r == self.prod_prec_list()[i.0 as int],
    {
        self.prod_precs[i.0]
    }

    /// The name of terminal `i`; `None` for the EOF terminal.
    pub fn term_name(&self, i: TIdx) -> (r: Option<&str>)
        requires
            self.wf(),
            i.0 < self.t_names().len(),
        ensures
            match r {
                Some(s) => self.t_names()[i.0 as int] == Some(s@),
                None => self.t_names()[i.0 as int] is None,
            },
    {
        match &self.term_names[i.0] {
            Some(s) => Some(s.as_str()),
            None => None,
        }
    }

    /// The declared precedence of terminal `i`, if any.
    pub fn term_precedence(&self, i: TIdx) -> (r: Option<Precedence>)
        requires
            self.wf(),
            i.0 < self.t_names().len(),
        ensures
            r == self.t_precs()[i.0 as int],
    {
        self.term_precs[i.0]
    }

    /// The named terminals with their indices: every token a lexer must be
    /// able to produce for this grammar.
    #[verifier::loop_isolation(false)]
    pub fn terms_map(&self) -> (r: Vec<(String, TIdx)>)
        requires
            self.wf(),
        ensures
            r@.len() + 1 == self.t_names().len(),
            forall|i: int|
                0 <= i < r@.len() ==> self.t_names()[i] == Some((#[trigger] r@[i]).0@) && r@[i].1
                    == TIdx(i as usize),
    {
        let mut out: Vec<(String, TIdx)> = Vec::new();
        let n = self.term_names.len() - 1;
        let mut i: usize = 0;
        while i < n
            invariant
                i <= n,
                out@.len() == i,
                forall|j: int|
                    0 <= j < i ==> self.t_names()[j] == Some((#[trigger] out@[j]).0@) && out@[j].1
                        == TIdx(j as usize),
            decreases n - i,
        {
            match &self.term_names[i] {
                Some(s) => {
                    out.push((s.clone(), TIdx(i)));
                },
                None => {
                    proof {
                        assert(self.t_names()[i as int] is None);
                        assert(self.t_names().last() is None);
                        assert(false);
                    }
                },
            }
            i = i + 1;
        }
        out
    }

    /// The production index of the start rule's sole production.
    pub fn start_prod(&self) -> (r: PIdx)
        ensures
            r == self.spec_start_prod(),
    {
        self.start_prod
    }

    /// The nonterminal added for implicit tokens, or `None`.
    pub fn implicit_nonterm(&self) -> (r: Option<NTIdx>)
        ensures
            r == self.spec_implicit(),
    {
        self.implicit_nonterm
    }

    /// The index of the nonterminal named `n`, or `None`.
    pub fn nonterm_idx(&self, n: &str) -> (r: Option<NTIdx>)
        requires
            self.wf(),
        ensures
            match r {
                Some(i) => i.0 as int == seq_find(self.nt_names(), n@) && i.0
                    < self.nt_names().len() && self.nt_names()[i.0 as int] == n@,
                None => !self.nt_names().contains(n@),
            },
    {
        match find_name_idx(&self.nonterm_names, n) {
            Some(i) => Some(NTIdx(i)),
            None => None,
        }
    }

    /// The index of the terminal named `n`, or `None`.
    #[verifier::loop_isolation(false)]
    pub fn term_idx(&self, n: &str) -> (r: Option<TIdx>)
        requires
            self.wf(),
        ensures
            match r {
                Some(i) => i.0 < self.t_names().len() && self.t_names()[i.0 as int] == Some(n@)
                    && (forall|j: int| 0 <= j < i.0 ==> self.t_names()[j] != Some(n@)),
                None => forall|j: int|
                    0 <= j < self.t_names().len() ==> self.t_names()[j] != Some(n@),
            },
    {
        let mut i: usize = 0;
        let len = self.term_names.len();
        while i < len
            invariant
                i <= len,
                forall|j: int| 0 <= j < i ==> self.t_names()[j] != Some(n@),
            decreases len - i,
        {
            match &self.term_names[i] {
                Some(s) => {
                    if crate::strutil::string_eq_str(s, n) {
                        proof {
                            assert(self.t_names()[i as int] == Some(n@));
                        }
                        return Some(TIdx(i));
                    }
                },
                None => {},
            }
            i = i + 1;
        }
        None
    }

    /// How many productions this grammar has.
    pub fn prods_len(&self) -> (r: u32)
        requires
            self.wf(),
        ensures
            r as int == self.prod_bodies().len(),
    {
        self.prods_len
    }

    /// How many terminals this grammar has.
    pub fn terms_len(&self) -> (r: u32)
        requires
            self.wf(),
        ensures
            r as int == self.t_names().len(),
    {
        self.terms_len
    }

    /// How many nonterminals this grammar has.
    pub fn nonterms_len(&self) -> (r: u32)
        requires
            self.wf(),
        ensures
            r as int == self.nt_names().len(),
    {
        self.nonterms_len
    }

    /// The index of the start rule: always 0, the owner of `start_prod`.
    pub fn start_rule_idx(&self) -> (r: NTIdx)
        requires
            self.wf(),
        ensures
            r == self.prod_owners()[self.spec_start_prod().0 as int],
            r == NTIdx(0),
    {
        self.prods_rules[self.start_prod.0]
    }
}

/// An error reported by the surface parser, carried through unchanged: the
/// surface syntax is handled outside this crate, which only stores the
/// message and position it was given.
#[derive(Debug)]
pub struct YaccParserError {
    pub message: String,
    pub line: usize,
    pub col: usize,
}

/// The union of the errors grammar construction can produce: an error from
/// the surface parser, or a validation error from this crate.
#[derive(Debug)]
pub enum YaccGrammarError {
    YaccParserError(YaccParserError),
    GrammarValidationError(GrammarValidationError),
}

impl YaccGrammarError {
    /// A human-readable description of the error, whichever side produced
    /// it: the stored message of a surface-parser error, or the rendering of
    /// a validation error.
    pub fn message(&self) -> (r: String)
        requires
            match self {
                YaccGrammarError::GrammarValidationError(e) => crate::ast::err_has_sym(e@),
                YaccGrammarError::YaccParserError(_) => true,
            },
        ensures
            match self {
                YaccGrammarError::GrammarValidationError(e) => r@ == crate::ast::err_message(e@),
                YaccGrammarError::YaccParserError(p) => r@ == p.message@,
            },
    {
        match self {
            YaccGrammarError::YaccParserError(p) => p.message.clone(),
            YaccGrammarError::GrammarValidationError(e) => e.message(),
        }
    }
}

impl From<YaccParserError> for YaccGrammarError {
    fn from(err: YaccParserError) -> (r: YaccGrammarError) {
        YaccGrammarError::YaccParserError(err)
    }
}

impl vstd::std_specs::convert::FromSpecImpl<YaccParserError> for YaccGrammarError {
    open spec fn obeys_from_spec() -> bool {
        true
    }

    open spec fn from_spec(err: YaccParserError) -> YaccGrammarError {
        YaccGrammarError::YaccParserError(err)
    }
}

impl From<GrammarValidationError> for YaccGrammarError {
    fn from(err: GrammarValidationError) -> (r: YaccGrammarError) {
        YaccGrammarError::GrammarValidationError(err)
    }
}

impl vstd::std_specs::convert::FromSpecImpl<GrammarValidationError> for YaccGrammarError {
    open spec fn obeys_from_spec() -> bool {
        true
    }

    open spec fn from_spec(err: GrammarValidationError) -> YaccGrammarError {
        YaccGrammarError::GrammarValidationError(err)
    }
}

impl YaccGrammar {
    /// The full relation between a compiled grammar and the validated AST it
    /// was compiled from, under a given mode: the nonterminal, terminal and
    /// production layout of the compilation.
    pub open spec fn matches_ast(&self, av: GrammarASTView, kind: YaccKind) -> bool {
        let imp = imp_active(av, kind);
        let off: int = if imp {
            3
        } else {
            1
        };
        let rn = rule_names(av);
        let p0 = av.prods.len() as int;
        let nts = self.nt_names();
        let toks = av.tokens;
        let nsynth: int = if imp {
            av.implicit_tokens.unwrap().len() as int + 3
        } else {
            1
        };
        &&& nts.len() == off + rn.len()
        &&& is_fresh_sentinel(rn, "^"@, nts[0])
        &&& imp ==> is_fresh_sentinel(rn, "~"@, nts[1]) && is_fresh_sentinel(rn, "^~"@, nts[2])
        &&& forall|i: int| 0 <= i < rn.len() ==> nts[off + i] == rn[i]
        &&& self.t_names().len() == toks.len() + 1
        &&& forall|i: int| 0 <= i < toks.len() ==> self.t_names()[i] == Some(toks[i])
        &&& self.t_names()[toks.len() as int] is None
        &&& self.t_precs().len() == toks.len() + 1
        &&& forall|i: int|
            0 <= i < toks.len() ==> self.t_precs()[i] == (if av.precs.contains_key(toks[i]) {
                Some(av.precs[toks[i]])
            } else {
                None
            })
        &&& self.t_precs()[toks.len() as int] is None
        &&& self.spec_eof() == TIdx(toks.len() as usize)
        &&& self.prod_bodies().len() == p0 + nsynth
        &&& forall|p: int|
            0 <= p < p0 ==> self.prod_bodies()[p] == (if imp {
                weave_body(av.prods[p].symbols, nts, toks, NTIdx(1))
            } else {
                lower_body(av.prods[p].symbols, nts, toks)
            })
        &&& self.prod_prec_list().len() == p0 + nsynth
        &&& forall|p: int| 0 <= p < p0 ==> self.prod_prec_list()[p] == prec_of_prod(av.precs, av.prods[p])
        &&& forall|p: int| p0 <= p < p0 + nsynth ==> self.prod_prec_list()[p] is None
        &&& self.spec_start_prod() == PIdx(p0 as usize)
        &&& if imp {
            let it = av.implicit_tokens.unwrap();
            let nimp = it.len() as int;
            &&& self.prod_bodies()[p0] == seq![Symbol::Nonterm(NTIdx(2))]
            &&& forall|q: int|
                0 <= q < nimp ==> self.prod_bodies()[p0 + 1 + q] == seq![
                    Symbol::Term(TIdx(seq_find(toks, it[q]) as usize)),
                    Symbol::Nonterm(NTIdx(1)),
                ]
            &&& self.prod_bodies()[p0 + 1 + nimp] == Seq::<Symbol>::empty()
            &&& self.prod_bodies()[p0 + 2 + nimp] == seq![
                Symbol::Nonterm(NTIdx(1)),
                Symbol::Nonterm(NTIdx(seq_find(nts, av.start.unwrap()) as usize)),
            ]
            &&& self.spec_implicit() == Some(NTIdx(1))
            &&& self.rule_prod_lists()[1] == Seq::new(
                (nimp + 1) as nat,
                |q: int| PIdx((p0 + 1 + q) as usize),
            )
            &&& self.rule_prod_lists()[2] == seq![PIdx((p0 + 2 + nimp) as usize)]
        } else {
            &&& self.prod_bodies()[p0] == seq![
                Symbol::Nonterm(NTIdx(seq_find(nts, av.start.unwrap()) as usize)),
            ]
            &&& self.spec_implicit() is None
        }
        &&& self.rule_prod_lists().len() == nts.len()
        &&& self.rule_prod_lists()[0] == seq![PIdx(p0 as usize)]
        &&& forall|i: int|
            0 <= i < rn.len() ==> self.rule_prod_lists()[off + i] == av.rules[i].1.map_values(
                |u: usize| PIdx(u),
            )
        &&& self.prod_owners().len() == p0 + nsynth
        &&& forall|i: int, j: int|
            av.rule_slot(i, j) ==> self.prod_owners()[av.rules[i].1[j] as int] == NTIdx(
                (off + i) as usize,
            )
        &&& self.prod_owners()[p0] == NTIdx(0)
        &&& imp ==> {
            let nimp = av.implicit_tokens.unwrap().len() as int;
            &&& forall|q: int|
                0 <= q <= nimp ==> #[trigger] self.prod_owners()[p0 + 1 + q] == NTIdx(1)
            &&& self.prod_owners()[p0 + 2 + nimp] == NTIdx(2)
        }
    }
}

proof fn lemma_weave_snoc(
    syms: Seq<SymbolView>,
    x: SymbolView,
    nts: Seq<Seq<char>>,
    toks: Seq<Seq<char>>,
    imp: NTIdx,
)
    ensures
        weave_body(syms.push(x), nts, toks, imp) == weave_body(syms, nts, toks, imp) + (match x {
            SymbolView::Nonterm(_) => seq![lower_sym(x, nts, toks)],
            SymbolView::Term(_) => seq![lower_sym(x, nts, toks), Symbol::Nonterm(imp)],
        }),
    decreases syms.len(),
{
    let unit = match x {
        SymbolView::Nonterm(_) => seq![lower_sym(x, nts, toks)],
        SymbolView::Term(_) => seq![lower_sym(x, nts, toks), Symbol::Nonterm(imp)],
    };
    if syms.len() == 0 {
        assert(syms.push(x)[0] == x);
        assert(syms.push(x).drop_first() =~= Seq::<SymbolView>::empty());
        assert(weave_body(Seq::<SymbolView>::empty(), nts, toks, imp) == Seq::<Symbol>::empty());
        assert(weave_body(syms.push(x), nts, toks, imp) =~= Seq::<Symbol>::empty() + unit);
        assert(weave_body(syms, nts, toks, imp) + unit =~= weave_body(
            syms.push(x),
            nts,
            toks,
            imp,
        ));
    } else {
        assert(syms.push(x)[0] == syms[0]);
        assert(syms.push(x).drop_first() =~= syms.drop_first().push(x));
        lemma_weave_snoc(syms.drop_first(), x, nts, toks, imp);
        let f = match syms[0] {
            SymbolView::Nonterm(_) => seq![lower_sym(syms[0], nts, toks)],
            SymbolView::Term(_) => seq![lower_sym(syms[0], nts, toks), Symbol::Nonterm(imp)],
        };
        assert(weave_body(syms.push(x), nts, toks, imp) == f + (weave_body(
            syms.drop_first(),
            nts,
            toks,
            imp,
        ) + unit));
        assert(f + (weave_body(syms.drop_first(), nts, toks, imp) + unit) =~= (f + weave_body(
            syms.drop_first(),
            nts,
            toks,
            imp,
        )) + unit);
    }
}

/// Lower one production body to compiled symbols; when `imp` is given, an
/// occurrence of that nonterminal is woven in after every terminal.
#[verifier::loop_isolation(false)]
fn lower_body_exec(
    prod: &Production,
    nonterm_names: &Vec<String>,
    tok_names: &Vec<String>,
    imp: Option<NTIdx>,
) -> (r: Vec<Symbol>)
    requires
        forall|k: int|
            0 <= k < prod@.symbols.len() ==> match #[trigger] prod@.symbols[k] {
                SymbolView::Nonterm(n) => strs_view(nonterm_names@).contains(n),
                SymbolView::Term(n) => strs_view(tok_names@).contains(n),
            },
    ensures
        match imp {
            Some(x) => r@ == weave_body(
                prod@.symbols,
                strs_view(nonterm_names@),
                strs_view(tok_names@),
                x,
            ),
            None => r@ == lower_body(prod@.symbols, strs_view(nonterm_names@), strs_view(tok_names@)),
        },
{
    let ghost nts = strs_view(nonterm_names@);
    let ghost toks = strs_view(tok_names@);
    let mut out: Vec<Symbol> = Vec::new();
    let mut k: usize = 0;
    let n = prod.symbols.len();
    proof {
        assert(prod@.symbols.take(0) =~= Seq::<SymbolView>::empty());
        if imp is Some {
            assert(weave_body(prod@.symbols.take(0), nts, toks, imp.unwrap())
                == Seq::<Symbol>::empty());
        } else {
            assert(lower_body(prod@.symbols.take(0), nts, toks) =~= Seq::<Symbol>::empty());
        }
    }
    while k < n
        invariant
            k <= n,
            n == prod@.symbols.len(),
            match imp {
                Some(x) => out@ == weave_body(prod@.symbols.take(k as int), nts, toks, x),
                None => out@ == lower_body(prod@.symbols.take(k as int), nts, toks),
            },
        decreases n - k,
    {
        let ghost pre = prod@.symbols.take(k as int);
        proof {
            assert(prod@.symbols.take(k as int + 1) =~= pre.push(prod@.symbols[k as int]));
        }
        let sym = &prod.symbols[k];
        let lowered: Symbol = match sym {
            crate::ast::Symbol::Nonterm(name) => {
                let i = find_name_idx(nonterm_names, name.as_str());
                match i {
                    Some(i) => Symbol::Nonterm(NTIdx(i)),
                    None => {
                        proof {
                            assert(false);
                        }
                        Symbol::Nonterm(NTIdx(0))
                    },
                }
            },
            crate::ast::Symbol::Term(name) => {
                let i = find_name_idx(tok_names, name.as_str());
                match i {
                    Some(i) => Symbol::Term(TIdx(i)),
                    None => {
                        proof {
                            assert(false);
                        }
                        Symbol::Term(TIdx(0))
                    },
                }
            },
        };
        proof {
            assert(lowered == lower_sym(prod@.symbols[k as int], nts, toks));
        }
        out.push(lowered);
        match imp {
            Some(x) => {
                match sym {
                    crate::ast::Symbol::Term(_) => {
                        out.push(Symbol::Nonterm(x));
                    },
                    crate::ast::Symbol::Nonterm(_) => {},
                }
                proof {
                    lemma_weave_snoc(pre, prod@.symbols[k as int], nts, toks, x);
                }
            },
            None => {
                proof {
                    assert(lower_body(pre.push(prod@.symbols[k as int]), nts, toks) =~= lower_body(
                        pre,
                        nts,
                        toks,
                    ).push(lowered));
                }
            },
        }
        k = k + 1;
    }
    proof {
        assert(prod@.symbols.take(n as int) =~= prod@.symbols);
    }
    out
}

/// The effective precedence of one production: the `%prec` override when it
/// is present, else that of the right-most terminal of the body.
#[verifier::loop_isolation(false)]
fn infer_prec(prod: &Production, precs: &PrecMap) -> (r: Option<Precedence>)
    requires
        precs.wf(),
        match prod@.precedence {
            Some(n) => precs@.contains_key(n),
            None => true,
        },
    ensures
        r == prec_of_prod(precs@, prod@),
{
    match &prod.precedence {
        Some(n) => {
            let p = precs.get(n.as_str());
            match p {
                Some(p) => Some(p),
                None => {
                    proof {
                        assert(false);
                    }
                    None
                },
            }
        },
        None => {
            let mut k = prod.symbols.len();
            proof {
                assert(prod@.symbols.take(k as int) =~= prod@.symbols);
            }
            while k > 0
                invariant
                    k <= prod@.symbols.len(),
                    rightmost_term_prec(precs@, prod@.symbols) == rightmost_term_prec(
                        precs@,
                        prod@.symbols.take(k as int),
                    ),
                decreases k,
            {
                let ghost cur = prod@.symbols.take(k as int);
                proof {
                    assert(cur.len() == k);
                    assert(cur.last() == prod@.symbols[k as int - 1]);
                    assert(cur.drop_last() =~= prod@.symbols.take(k as int - 1));
                }
                match &prod.symbols[k - 1] {
                    crate::ast::Symbol::Term(n) => {
                        return precs.get(n.as_str());
                    },
                    crate::ast::Symbol::Nonterm(_) => {},
                }
                k = k - 1;
            }
            proof {
                assert(prod@.symbols.take(0) =~= Seq::<SymbolView>::empty());
            }
            None
        },
    }
}

impl YaccGrammar {
    /// Translate a validated `GrammarAST` into a `YaccGrammar`, adding a new
    /// start rule (written `^` here, though the actual name is a fresh name
    /// guaranteed to be unique) that references the user's start rule, and,
    /// in `Eco` mode with `%implicit_tokens` given, the implicit-token
    /// rewriting.
    #[verifier::loop_isolation(false)]
    #[verifier::rlimit(100)]
    pub fn new(yacc_kind: YaccKind, ast: &GrammarAST) -> (r: YaccGrammar)
        requires
            ast@.wf(),
            ast.collections_wf(),
            ast@.valid(),
            ast@.rules.len() + 3 < 0x1_0000_0000,
            ast@.tokens.len() + 2 < 0x1_0000_0000,
            ast@.prods.len() + (match ast@.implicit_tokens {
                Some(t) => t.len() as int,
                None => 0,
            }) + 3 < 0x1_0000_0000,
            forall|p: int|
                0 <= p < ast@.prods.len() ==> (#[trigger] ast@.prods[p]).symbols.len()
                    < 0x4000_0000,
            imp_active(ast@, yacc_kind) ==> forall|q: int|
                0 <= q < ast@.implicit_tokens.unwrap().len() ==> ast@.tokens.contains(
                    #[trigger] ast@.implicit_tokens.unwrap()[q],
                ),
        ensures
            r.wf(),
            r.matches_ast(ast@, yacc_kind),
    {
        let ghost av = ast@;
        proof {
            reveal_strlit("^");
            reveal_strlit("~");
            reveal_strlit("^~");
        }
        let is_imp: bool = match yacc_kind {
            YaccKind::Original => false,
            YaccKind::Eco => ast.implicit_tokens.is_some(),
        };
        proof {
            assert(is_imp == imp_active(av, yacc_kind));
        }
        let off_e: usize = if is_imp {
            3
        } else {
            1
        };
        let ghost off: int = off_e as int;

        // Nonterminal names: the fresh start name, the fresh implicit names
        // when active, then the rule names in insertion order.
        let mut nonterm_names: Vec<String> = Vec::new();
        nonterm_names.push(fresh_name(&ast.rules, "^", Ghost(rule_names(av))));
        if is_imp {
            nonterm_names.push(fresh_name(&ast.rules, "~", Ghost(rule_names(av))));
            nonterm_names.push(fresh_name(&ast.rules, "^~", Ghost(rule_names(av))));
        }
        let ghost base = strs_view(nonterm_names@);
        proof {
            assert(base.len() == off);
        }
        let nrules = rules_len(&ast.rules);
        let mut i: usize = 0;
        proof {
            assert(strs_view(nonterm_names@) =~= base + rule_names(av).take(0));
        }
        while i < nrules
            invariant
                i <= nrules,
                strs_view(nonterm_names@) == base + rule_names(av).take(i as int),
            decreases nrules - i,
        {
            let (name, _) = rules_get_index(&ast.rules, i);
            proof {
                assert(name@ == rule_names(av)[i as int]);
            }
            let ghost pre = strs_view(nonterm_names@);
            nonterm_names.push(name);
            proof {
                assert(strs_view(nonterm_names@) =~= pre.push(rule_names(av)[i as int]));
                assert(pre.push(rule_names(av)[i as int]) =~= base + rule_names(av).take(
                    i as int + 1,
                ));
            }
            i = i + 1;
        }
        let ghost nts = strs_view(nonterm_names@);
        proof {
            assert(rule_names(av).take(nrules as int) =~= rule_names(av));
            assert(nts == base + rule_names(av));
            assert(nts.len() == off + av.rules.len());
            assert forall|j: int| 0 <= j < rule_names(av).len() implies nts[off + j] == rule_names(
                av,
            )[j] by {}
        }

        // Terminal names and precedences, in token declaration order, with
        // the EOF terminal appended last.
        let ntoks = ast.tokens.len();
        let mut tok_names: Vec<String> = Vec::new();
        let mut term_names: Vec<Option<String>> = Vec::new();
        let mut term_precs: Vec<Option<Precedence>> = Vec::new();
        let mut i: usize = 0;
        while i < ntoks
            invariant
                i <= ntoks,
                ntoks == av.tokens.len(),
                tok_names@.len() == i,
                term_names@.len() == i,
                term_precs@.len() == i,
                forall|j: int| 0 <= j < i ==> strs_view(tok_names@)[j] == av.tokens[j],
                forall|j: int|
                    0 <= j < i ==> term_names@[j] is Some && (#[trigger] term_names@[j]).unwrap()@
                        == av.tokens[j],
                forall|j: int|
                    0 <= j < i ==> term_precs@[j] == (if av.precs.contains_key(av.tokens[j]) {
                        Some(av.precs[av.tokens[j]])
                    } else {
                        None::<Precedence>
                    }),
            decreases ntoks - i,
        {
            let t = ast.tokens.get(i);
            tok_names.push(t.clone());
            term_names.push(Some(t.clone()));
            term_precs.push(ast.precs.get(t.as_str()));
            i = i + 1;
        }
        let ghost toks = strs_view(tok_names@);
        proof {
            assert(toks =~= av.tokens);
        }
        let eof_term_idx = TIdx(tok_names.len());
        term_names.push(None);
        term_precs.push(None);

        // Owners of the user productions, rule by rule.
        let nprods = ast.prods.len();
        let mut prods_rules: Vec<NTIdx> = Vec::new();
        let mut i: usize = 0;
        while i < nprods
            invariant
                prods_rules@.len() == i,
                i <= nprods,
            decreases nprods - i,
        {
            prods_rules.push(NTIdx(0));
            i = i + 1;
        }
        let mut i: usize = 0;
        while i < nrules
            invariant
                i <= nrules,
                nrules == av.rules.len(),
                prods_rules@.len() == nprods,
                nprods == av.prods.len(),
                forall|x: int, y: int|
                    av.rule_slot(x, y) && x < i ==> prods_rules@[av.rules[x].1[y] as int] == NTIdx(
                        (off + x) as usize,
                    ),
            decreases nrules - i,
        {
            let (_, prod_idxs) = rules_get_index(&ast.rules, i);
            let mut j: usize = 0;
            while j < prod_idxs.len()
                invariant
                    0 <= i < nrules,
                    j <= prod_idxs@.len(),
                    prod_idxs@ == av.rules[i as int].1,
                    prods_rules@.len() == nprods,
                    forall|x: int, y: int|
                        av.rule_slot(x, y) && (x < i || (x == i && y < j))
                            ==> prods_rules@[av.rules[x].1[y] as int] == NTIdx((off + x) as usize),
                decreases prod_idxs@.len() - j,
            {
                let p = prod_idxs[j];
                proof {
                    assert(av.rule_slot(i as int, j as int));
                    assert(av.rules[i as int].1[j as int] == p);
                }
                prods_rules.set(p, NTIdx(off_e + i));
                proof {
                    assert forall|x: int, y: int|
                        av.rule_slot(x, y) && (x < i || (x == i && y < j + 1))
                            implies prods_rules@[av.rules[x].1[y] as int] == NTIdx(
                        (off + x) as usize,
                    ) by {
                        if x != i as int || y != j as int {
                            assert(av.rules[x].1[y] != av.rules[i as int].1[j as int]);
                        }
                    }
                }
                j = j + 1;
            }
            i = i + 1;
        }

        // Bodies and effective precedences of the user productions.
        let imp_arg: Option<NTIdx> = if is_imp {
            Some(NTIdx(1))
        } else {
            None
        };
        let mut prods: Vec<Vec<Symbol>> = Vec::new();
        let mut prod_precs: Vec<Option<Precedence>> = Vec::new();
        let mut p: usize = 0;
        while p < nprods
            invariant
                p <= nprods,
                nprods == av.prods.len(),
                prods@.len() == p,
                prod_precs@.len() == p,
                forall|q: int|
                    0 <= q < p ==> (#[trigger] prods@[q])@ == (if is_imp {
                        weave_body(av.prods[q].symbols, nts, toks, NTIdx(1))
                    } else {
                        lower_body(av.prods[q].symbols, nts, toks)
                    }),
                forall|q: int|
                    0 <= q < p ==> prod_precs@[q] == prec_of_prod(av.precs, av.prods[q]),
            decreases nprods - p,
        {
            proof {
                assert(av.prods[p as int] == ast.prods@[p as int]@);
                assert(prod_valid(av, av.prods[p as int]));
                assert forall|k: int|
                    0 <= k < ast.prods@[p as int]@.symbols.len() implies match #[trigger] ast.prods@[p as int]@.symbols[k] {
                    crate::ast::SymbolView::Nonterm(n) => strs_view(nonterm_names@).contains(n),
                    crate::ast::SymbolView::Term(n) => strs_view(tok_names@).contains(n),
                } by {
                    match av.prods[p as int].symbols[k] {
                        crate::ast::SymbolView::Nonterm(n) => {
                            assert(sym_valid(av, av.prods[p as int].symbols[k]));
                            let x = choose|x: int|
                                0 <= x < av.rules.len() && av.rules[x].0 == n;
                            assert(rule_names(av)[x] == n);
                            assert(nts[off + x] == n);
                        },
                        crate::ast::SymbolView::Term(n) => {
                            assert(sym_valid(av, av.prods[p as int].symbols[k]));
                            let x = choose|x: int| 0 <= x < av.tokens.len() && av.tokens[x] == n;
                            assert(strs_view(tok_names@)[x] == n);
                        },
                    }
                }
            }
            let body = lower_body_exec(&ast.prods[p], &nonterm_names, &tok_names, imp_arg);
            prods.push(body);
            prod_precs.push(infer_prec(&ast.prods[p], &ast.precs));
            p = p + 1;
        }

        // The synthesised start production, and the implicit-token rules.
        let start_idx: usize = match &ast.start {
            Some(st) => {
                match find_name_idx(&nonterm_names, st.as_str()) {
                    Some(ix) => ix,
                    None => {
                        proof {
                            let x = choose|x: int|
                                0 <= x < av.rules.len() && av.rules[x].0 == av.start.unwrap();
                            assert(nts[off + x] == av.start.unwrap());
                            assert(false);
                        }
                        0
                    },
                }
            },
            None => {
                proof {
                    assert(false);
                }
                0
            },
        };
        proof {
            assert(start_idx as int == seq_find(nts, av.start.unwrap()));
        }
        let start_prod = PIdx(prods.len());
        let mut start_body: Vec<Symbol> = Vec::new();
        if is_imp {
            start_body.push(Symbol::Nonterm(NTIdx(2)));
        } else {
            start_body.push(Symbol::Nonterm(NTIdx(start_idx)));
        }
        prods.push(start_body);
        prod_precs.push(None);
        prods_rules.push(NTIdx(0));

        let mut rules_prods: Vec<Vec<PIdx>> = Vec::new();
        let mut start_list: Vec<PIdx> = Vec::new();
        start_list.push(start_prod);
        rules_prods.push(start_list);

        if is_imp {
            match &ast.implicit_tokens {
                Some(its) => {
                    let ghost itv = its@;
                    let ghost prods_base = prods@;
                    let ghost pp_base = prod_precs@;
                    let ghost pr_base = prods_rules@;
                    let nimp = its.len();
                    let mut l1: Vec<PIdx> = Vec::new();
                    let mut q: usize = 0;
                    while q < nimp
                        invariant
                            q <= nimp,
                            prods_base.len() == nprods + 1,
                            forall|x: int|
                                0 <= x < nprods + 1 ==> #[trigger] prods@[x] == prods_base[x],
                            forall|x: int|
                                0 <= x < nprods + 1 ==> #[trigger] prod_precs@[x] == pp_base[x],
                            forall|x: int|
                                0 <= x < nprods + 1 ==> #[trigger] prods_rules@[x] == pr_base[x],
                            nimp == itv.len(),
                            itv == av.implicit_tokens.unwrap(),
                            prods@.len() == nprods + 1 + q,
                            prod_precs@.len() == nprods + 1 + q,
                            prods_rules@.len() == nprods + 1 + q,
                            l1@.len() == q,
                            forall|x: int|
                                0 <= x < q ==> (#[trigger] prods@[nprods + 1 + x])@ == seq![
                                    Symbol::Term(TIdx(seq_find(toks, itv[x]) as usize)),
                                    Symbol::Nonterm(NTIdx(1)),
                                ],
                            forall|x: int|
                                0 <= x < q ==> (#[trigger] prod_precs@[nprods + 1 + x]) is None,
                            forall|x: int|
                                0 <= x < q ==> #[trigger] prods_rules@[nprods + 1 + x] == NTIdx(1),
                            forall|x: int| 0 <= x < q ==> l1@[x] == PIdx((nprods + 1 + x) as usize),
                        decreases nimp - q,
                    {
                        let t = its.get(q);
                        let ti: usize = match find_name_idx(&tok_names, t.as_str()) {
                            Some(ix) => ix,
                            None => {
                                proof {
                                    assert(av.tokens.contains(itv[q as int]));
                                    let x = choose|x: int|
                                        0 <= x < av.tokens.len() && av.tokens[x] == itv[q as int];
                                    assert(strs_view(tok_names@)[x] == itv[q as int]);
                                    assert(false);
                                }
                                0
                            },
                        };
                        let mut b: Vec<Symbol> = Vec::new();
                        b.push(Symbol::Term(TIdx(ti)));
                        b.push(Symbol::Nonterm(NTIdx(1)));
                        proof {
                            assert(b@ =~= seq![
                                Symbol::Term(TIdx(seq_find(toks, itv[q as int]) as usize)),
                                Symbol::Nonterm(NTIdx(1)),
                            ]);
                        }
                        l1.push(PIdx(prods.len()));
                        prods.push(b);
                        prod_precs.push(None);
                        prods_rules.push(NTIdx(1));
                        q = q + 1;
                    }
                    l1.push(PIdx(prods.len()));
                    prods.push(Vec::new());
                    prod_precs.push(None);
                    prods_rules.push(NTIdx(1));
                    rules_prods.push(l1);
                    let mut l2: Vec<PIdx> = Vec::new();
                    l2.push(PIdx(prods.len()));
                    let mut b2: Vec<Symbol> = Vec::new();
                    b2.push(Symbol::Nonterm(NTIdx(1)));
                    b2.push(Symbol::Nonterm(NTIdx(start_idx)));
                    prods.push(b2);
                    prod_precs.push(None);
                    prods_rules.push(NTIdx(2));
                    rules_prods.push(l2);
                },
                None => {
                    proof {
                        assert(false);
                    }
                },
            }
        }

        // The user rules' production lists, 1:1 with the AST.
        let ghost rp_base = rules_prods@;
        let mut i: usize = 0;
        while i < nrules
            invariant
                i <= nrules,
                nrules == av.rules.len(),
                rp_base.len() == off,
                rules_prods@.len() == off + i,
                forall|x: int|
                    0 <= x < i ==> (#[trigger] rules_prods@[off + x])@ == av.rules[x].1.map_values(
                        |u: usize| PIdx(u),
                    ),
                forall|x: int| 0 <= x < off ==> #[trigger] rules_prods@[x] == rp_base[x],
            decreases nrules - i,
        {
            let (_, prod_idxs) = rules_get_index(&ast.rules, i);
            let mut lst: Vec<PIdx> = Vec::new();
            let mut j: usize = 0;
            while j < prod_idxs.len()
                invariant
                    j <= prod_idxs@.len(),
                    prod_idxs@ == av.rules[i as int].1,
                    lst@.len() == j,
                    forall|y: int| 0 <= y < j ==> lst@[y] == PIdx(av.rules[i as int].1[y]),
                decreases prod_idxs@.len() - j,
            {
                lst.push(PIdx(prod_idxs[j]));
                j = j + 1;
            }
            proof {
                assert(lst@ =~= av.rules[i as int].1.map_values(|u: usize| PIdx(u)));
            }
            rules_prods.push(lst);
            i = i + 1;
        }

        let g = YaccGrammar {
            nonterms_len: nonterm_names.len() as u32,
            nonterm_names,
            term_names,
            term_precs,
            terms_len: (ntoks + 1) as u32,
            eof_term_idx,
            prods_len: prods.len() as u32,
            start_prod,
            prods,
            rules_prods,
            prods_rules,
            prod_precs,
            implicit_nonterm: if is_imp {
                Some(NTIdx(1))
            } else {
                None
            },
        };
        proof {
            let imp = imp_active(av, yacc_kind);
            let rn = rule_names(av);
            let p0 = av.prods.len() as int;
            let nimp: int = if imp {
                av.implicit_tokens.unwrap().len() as int
            } else {
                0
            };
            let nsynth: int = if imp {
                nimp + 3
            } else {
                1
            };
            assert(g.nt_names() == nts);
            assert(g.nt_names().len() == (if imp { 3int } else { 1int }) + rn.len());
            assert(is_fresh_sentinel(rn, "^"@, g.nt_names()[0]));
            assert(imp ==> is_fresh_sentinel(rn, "~"@, g.nt_names()[1]));
            assert(imp ==> is_fresh_sentinel(rn, "^~"@, g.nt_names()[2]));
            assert(forall|i: int| 0 <= i < rn.len() ==> g.nt_names()[off + i] == rn[i]);
            assert(g.t_names().len() == av.tokens.len() + 1);
            assert(forall|i: int| 0 <= i < av.tokens.len() ==> g.t_names()[i] == Some(av.tokens[i]));
            assert(g.t_names()[av.tokens.len() as int] is None);
            assert(g.t_precs().len() == av.tokens.len() + 1);
            assert(forall|i: int|
                0 <= i < av.tokens.len() ==> g.t_precs()[i] == (if av.precs.contains_key(
                    av.tokens[i],
                ) {
                    Some(av.precs[av.tokens[i]])
                } else {
                    None::<Precedence>
                }));
            assert(g.t_precs()[av.tokens.len() as int] is None);
            assert(g.spec_eof() == TIdx(av.tokens.len() as usize));
            assert(g.prod_bodies().len() == p0 + nsynth);
            assert(forall|p: int|
                0 <= p < p0 ==> g.prod_bodies()[p] == (if imp {
                    weave_body(av.prods[p].symbols, nts, toks, NTIdx(1))
                } else {
                    lower_body(av.prods[p].symbols, nts, toks)
                }));
            assert(g.prod_prec_list().len() == p0 + nsynth);
            assert(forall|p: int|
                0 <= p < p0 ==> g.prod_prec_list()[p] == prec_of_prod(av.precs, av.prods[p]));
            assert forall|p: int| p0 <= p < p0 + nsynth implies g.prod_prec_list()[p] is None by {
                assert(g.prod_prec_list()[p] == prod_precs@[p]);
                if imp {
                    if p == p0 {
                    } else if p < p0 + 1 + nimp {
                        let x = p - (p0 + 1);
                        assert(prod_precs@[p0 + 1 + x] is None);
                    } else if p == p0 + 1 + nimp {
                    } else {
                        assert(p == p0 + 2 + nimp);
                    }
                } else {
                    assert(p == p0);
                }
            }
            assert(g.spec_start_prod() == PIdx(p0 as usize));
            if imp {
                let it = av.implicit_tokens.unwrap();
                assert(g.prod_bodies()[p0] == seq![Symbol::Nonterm(NTIdx(2))]);
                assert(forall|q: int|
                    0 <= q < nimp ==> g.prod_bodies()[p0 + 1 + q] == seq![
                        Symbol::Term(TIdx(seq_find(toks, it[q]) as usize)),
                        Symbol::Nonterm(NTIdx(1)),
                    ]);
                assert(g.prod_bodies()[p0 + 1 + nimp] == Seq::<Symbol>::empty());
                assert(g.prod_bodies()[p0 + 2 + nimp] == seq![
                    Symbol::Nonterm(NTIdx(1)),
                    Symbol::Nonterm(NTIdx(seq_find(nts, av.start.unwrap()) as usize)),
                ]);
                assert(g.spec_implicit() == Some(NTIdx(1)));
                assert(g.rule_prod_lists()[1] == Seq::new(
                    (nimp + 1) as nat,
                    |q: int| PIdx((p0 + 1 + q) as usize),
                ));
                assert(g.rule_prod_lists()[2] == seq![PIdx((p0 + 2 + nimp) as usize)]);
            } else {
                assert(g.prod_bodies()[p0] == seq![
                    Symbol::Nonterm(NTIdx(seq_find(nts, av.start.unwrap()) as usize)),
                ]);
                assert(g.spec_implicit() is None);
            }
            assert(g.rule_prod_lists().len() == g.nt_names().len());
            assert(g.rule_prod_lists()[0] == seq![PIdx(p0 as usize)]);
            assert(forall|i: int|
                0 <= i < rn.len() ==> g.rule_prod_lists()[off + i] == av.rules[i].1.map_values(
                    |u: usize| PIdx(u),
                ));
            assert(g.prod_owners().len() == p0 + nsynth);
            assert(forall|i: int, j: int|
                av.rule_slot(i, j) ==> g.prod_owners()[av.rules[i].1[j] as int] == NTIdx(
                    (off + i) as usize,
                ));
            assert(g.prod_owners()[p0] == NTIdx(0));
            assert(imp ==> forall|q: int|
                0 <= q <= nimp ==> #[trigger] g.prod_owners()[p0 + 1 + q] == NTIdx(1));
            assert(imp ==> g.prod_owners()[p0 + 2 + nimp] == NTIdx(2));
            assert(g.matches_ast(av, yacc_kind));
            assert(g.lens_ok());
            lemma_new_wf(&g, av, yacc_kind);
        }
        g
    }
}

proof fn lemma_rep_prefix(s: Seq<char>, m: nat)
    requires
        1 <= m,
    ensures
        forall|i: int| 0 <= i < s.len() ==> rep(s, m)[i] == s[i],
        rep(s, m).len() >= s.len(),
    decreases m,
{
    lemma_rep_len(s, m);
    if m == 1 {
        assert(rep(s, 1) == rep(s, 0) + s);
        assert(rep(s, 0) == Seq::<char>::empty());
        assert(forall|i: int| 0 <= i < s.len() ==> rep(s, 1)[i] == s[i]);
    } else {
        lemma_rep_prefix(s, (m - 1) as nat);
        lemma_rep_len(s, (m - 1) as nat);
        assert(rep(s, m) == rep(s, (m - 1) as nat) + s);
        assert forall|i: int| 0 <= i < s.len() implies rep(s, m)[i] == s[i] by {
            assert(rep(s, m)[i] == rep(s, (m - 1) as nat)[i]);
        }
    }
}

proof fn lemma_rep_all(s: Seq<char>, m: nat)
    requires
        s.len() == 1,
    ensures
        forall|i: int| 0 <= i < rep(s, m).len() ==> rep(s, m)[i] == s[0],
    decreases m,
{
    if m == 0 {
        assert(rep(s, 0) == Seq::<char>::empty());
    } else {
        lemma_rep_all(s, (m - 1) as nat);
        lemma_rep_len(s, (m - 1) as nat);
        assert(rep(s, m) == rep(s, (m - 1) as nat) + s);
    }
}

/// The three sentinel families are pairwise disjoint: repetitions of `^`, of
/// `~`, and of `^~` can never coincide.
proof fn lemma_sentinels_distinct(a: nat, b: nat, c: nat)
    requires
        1 <= a,
        1 <= b,
        1 <= c,
    ensures
        rep("^"@, a) != rep("~"@, b),
        rep("^"@, a) != rep("^~"@, c),
        rep("~"@, b) != rep("^~"@, c),
{
    reveal_strlit("^");
    reveal_strlit("~");
    reveal_strlit("^~");
    assert("^"@.len() == 1);
    assert("~"@.len() == 1);
    assert("^~"@.len() == 2);
    assert("^"@[0] == '^');
    assert("~"@[0] == '~');
    assert("^~"@[0] == '^');
    assert("^~"@[1] == '~');
    lemma_rep_prefix("^"@, a);
    lemma_rep_prefix("~"@, b);
    lemma_rep_prefix("^~"@, c);
    lemma_rep_len("^"@, a);
    lemma_rep_len("~"@, b);
    lemma_rep_len("^~"@, c);
    assert(rep("^"@, a)[0] == '^');
    assert(rep("~"@, b)[0] == '~');
    assert(rep("^~"@, c)[0] == '^');
    if rep("^"@, a) == rep("^~"@, c) {
        assert(a == 2 * c) by (nonlinear_arith)
            requires
                rep("^"@, a).len() == a * 1 && rep("^~"@, c).len() == c * 2 && rep("^"@, a) == rep(
                    "^~"@,
                    c,
                ),
        ;
        lemma_rep_all("^"@, a);
        assert(rep("^"@, a)[1] == '^');
        assert(rep("^~"@, c)[1] == '~');
        assert(false);
    }
}

proof fn lemma_weave_len(syms: Seq<SymbolView>, nts: Seq<Seq<char>>, toks: Seq<Seq<char>>, imp: NTIdx)
    ensures
        weave_body(syms, nts, toks, imp).len() <= 2 * syms.len(),
    decreases syms.len(),
{
    if syms.len() > 0 {
        lemma_weave_len(syms.drop_first(), nts, toks, imp);
    }
}

proof fn lemma_weave_valid(
    syms: Seq<SymbolView>,
    nts: Seq<Seq<char>>,
    toks: Seq<Seq<char>>,
    imp: NTIdx,
)
    requires
        forall|k: int|
            0 <= k < syms.len() ==> match #[trigger] syms[k] {
                SymbolView::Nonterm(n) => nts.contains(n),
                SymbolView::Term(n) => toks.contains(n),
            },
        imp.0 < nts.len(),
    ensures
        forall|k: int|
            0 <= k < weave_body(syms, nts, toks, imp).len() ==> sym_idx_valid(
                #[trigger] weave_body(syms, nts, toks, imp)[k],
                nts.len(),
                toks.len() + 1,
            ),
    decreases syms.len(),
{
    broadcast use lemma_seq_find;

    if syms.len() > 0 {
        assert forall|k: int|
            0 <= k < syms.drop_first().len() implies match #[trigger] syms.drop_first()[k] {
            SymbolView::Nonterm(n) => nts.contains(n),
            SymbolView::Term(n) => toks.contains(n),
        } by {
            assert(syms.drop_first()[k] == syms[k + 1]);
        }
        lemma_weave_valid(syms.drop_first(), nts, toks, imp);
        let first = match syms[0] {
            SymbolView::Nonterm(_) => seq![lower_sym(syms[0], nts, toks)],
            SymbolView::Term(_) => seq![lower_sym(syms[0], nts, toks), Symbol::Nonterm(imp)],
        };
        assert(sym_idx_valid(lower_sym(syms[0], nts, toks), nts.len(), toks.len() + 1)) by {
            match syms[0] {
                SymbolView::Nonterm(n) => {
                    assert(nts.contains(n));
                },
                SymbolView::Term(n) => {
                    assert(toks.contains(n));
                },
            }
        }
        assert forall|k: int|
            0 <= k < weave_body(syms, nts, toks, imp).len() implies sym_idx_valid(
            #[trigger] weave_body(syms, nts, toks, imp)[k],
            nts.len(),
            toks.len() + 1,
        ) by {
            if k < first.len() {
                assert(weave_body(syms, nts, toks, imp)[k] == first[k]);
            } else {
                assert(weave_body(syms, nts, toks, imp)[k] == weave_body(
                    syms.drop_first(),
                    nts,
                    toks,
                    imp,
                )[k - first.len()]);
            }
        }
    }
}

proof fn lemma_lower_valid(syms: Seq<SymbolView>, nts: Seq<Seq<char>>, toks: Seq<Seq<char>>)
    requires
        forall|k: int|
            0 <= k < syms.len() ==> match #[trigger] syms[k] {
                SymbolView::Nonterm(n) => nts.contains(n),
                SymbolView::Term(n) => toks.contains(n),
            },
    ensures
        lower_body(syms, nts, toks).len() == syms.len(),
        forall|k: int|
            0 <= k < syms.len() ==> sym_idx_valid(
                #[trigger] lower_body(syms, nts, toks)[k],
                nts.len(),
                toks.len() + 1,
            ),
{
    broadcast use lemma_seq_find;

    assert forall|k: int|
        0 <= k < syms.len() implies sym_idx_valid(
        #[trigger] lower_body(syms, nts, toks)[k],
        nts.len(),
        toks.len() + 1,
    ) by {
        assert(lower_body(syms, nts, toks)[k] == lower_sym(syms[k], nts, toks));
        match syms[k] {
            SymbolView::Nonterm(n) => {
                assert(nts.contains(n));
            },
            SymbolView::Term(n) => {
                assert(toks.contains(n));
            },
        }
    }
}

/// A grammar that stands in the compilation relation to a well-formed,
/// validated AST satisfies the compiled grammar's global invariants.
#[verifier::rlimit(100)]
proof fn lemma_new_wf(g: &YaccGrammar, av: GrammarASTView, kind: YaccKind)
    requires
        g.matches_ast(av, kind),
        g.lens_ok(),
        av.wf(),
        av.valid(),
        forall|i: int, j: int| 0 <= i < j < av.tokens.len() ==> av.tokens[i] != av.tokens[j],
        av.rules.len() + 3 < 0x1_0000_0000,
        av.tokens.len() + 2 < 0x1_0000_0000,
        av.prods.len() + (match av.implicit_tokens {
            Some(t) => t.len() as int,
            None => 0,
        }) + 3 < 0x1_0000_0000,
        forall|p: int|
            0 <= p < av.prods.len() ==> (#[trigger] av.prods[p]).symbols.len() < 0x4000_0000,
        imp_active(av, kind) ==> forall|q: int|
            0 <= q < av.implicit_tokens.unwrap().len() ==> av.tokens.contains(
                #[trigger] av.implicit_tokens.unwrap()[q],
            ),
    ensures
        g.wf(),
{
    broadcast use lemma_seq_find;

    let imp = imp_active(av, kind);
    let off: int = if imp {
        3
    } else {
        1
    };
    let rn = rule_names(av);
    let p0 = av.prods.len() as int;
    let nts = g.nt_names();
    let toks = av.tokens;
    let nimp: int = if imp {
        av.implicit_tokens.unwrap().len() as int
    } else {
        0
    };
    let nsynth: int = if imp {
        nimp + 3
    } else {
        1
    };

    // Names that user symbols mention are among the compiled names.
    assert forall|p: int, k: int|
        0 <= p < p0 && 0 <= k < av.prods[p].symbols.len() implies match #[trigger] av.prods[p].symbols[k] {
        SymbolView::Nonterm(n) => nts.contains(n),
        SymbolView::Term(n) => toks.contains(n),
    } by {
        assert(prod_valid(av, av.prods[p]));
        assert(sym_valid(av, av.prods[p].symbols[k]));
        match av.prods[p].symbols[k] {
            SymbolView::Nonterm(n) => {
                let x = choose|x: int| 0 <= x < av.rules.len() && av.rules[x].0 == n;
                assert(rn[x] == n);
                assert(nts[off + x] == n);
            },
            SymbolView::Term(n) => {},
        }
    }

    // Bounded production bodies.
    assert forall|p: int|
        0 <= p < g.prod_bodies().len() implies (#[trigger] g.prod_bodies()[p]).len()
        < 0x1_0000_0000 by {
        if p < p0 {
            if imp {
                lemma_weave_len(av.prods[p].symbols, nts, toks, NTIdx(1));
            }
        } else if imp {
            if p0 + 1 <= p < p0 + 1 + nimp {
                let q = p - (p0 + 1);
                let it = av.implicit_tokens.unwrap();
                assert(g.prod_bodies()[p0 + 1 + q] == seq![
                    Symbol::Term(TIdx(seq_find(toks, it[q]) as usize)),
                    Symbol::Nonterm(NTIdx(1)),
                ]);
                assert(g.prod_bodies()[p0 + 1 + q].len() == 2);
            }
        }
    }

    // Distinct nonterminal names.
    let m0 = choose|m: nat|
        1 <= m && nts[0] == rep("^"@, m) && !rn.contains(nts[0]) && (forall|m2: nat|
            1 <= m2 < m ==> rn.contains(#[trigger] rep("^"@, m2)));
    assert forall|i: int, j: int| 0 <= i < j < nts.len() implies nts[i] != nts[j] by {
        if imp {
            let m1 = choose|m: nat|
                1 <= m && nts[1] == rep("~"@, m) && !rn.contains(nts[1]) && (forall|m2: nat|
                    1 <= m2 < m ==> rn.contains(#[trigger] rep("~"@, m2)));
            let m2 = choose|m: nat|
                1 <= m && nts[2] == rep("^~"@, m) && !rn.contains(nts[2]) && (forall|m3: nat|
                    1 <= m3 < m ==> rn.contains(#[trigger] rep("^~"@, m3)));
            lemma_sentinels_distinct(m0, m1, m2);
            if j >= off {
                assert(nts[j] == rn[j - off]);
                assert(rn.contains(nts[j]));
            }
            if i >= off {
                assert(nts[i] == rn[i - off]);
            }
            if off <= i && off <= j {
                assert(av.rules[i - off].0 != av.rules[j - off].0);
            }
        } else {
            if j >= off {
                assert(nts[j] == rn[j - off]);
                assert(rn.contains(nts[j]));
            }
            if i >= off {
                assert(nts[i] == rn[i - off]);
            }
            if off <= i && off <= j {
                assert(av.rules[i - off].0 != av.rules[j - off].0);
            }
        }
    }

    // Distinct named terminals.
    assert forall|i: int, j: int|
        0 <= i < j < g.t_names().len() && g.t_names()[i] is Some && g.t_names()[j] is Some
        implies g.t_names()[i] != g.t_names()[j] by {
        if j < toks.len() {
            assert(g.t_names()[i] == Some(toks[i]));
            assert(g.t_names()[j] == Some(toks[j]));
        }
    }

    // Terminals before the EOF terminal are named.
    assert forall|i: int| 0 <= i < g.t_names().len() - 1 implies (#[trigger] g.t_names()[i]) is Some by {
        assert(g.t_names()[i] == Some(toks[i]));
    }

    // Rule production lists: nonempty, in range, with matching owners, all
    // slots distinct, and every production covered.
    let lists = g.rule_prod_lists();
    assert forall|i: int| 0 <= i < lists.len() implies (#[trigger] lists[i]).len() >= 1 by {
        if i >= off {
            assert(lists[i] == av.rules[i - off].1.map_values(|u: usize| PIdx(u)));
            assert(av.rules[i - off].1.len() >= 1);
        } else if imp && i == 1 {
            assert(lists[1].len() == nimp + 1);
        }
    }
    assert forall|i: int, j: int| g.rp_slot(i, j) implies (#[trigger] lists[i][j]).0
        < g.prod_bodies().len() && g.prod_owners()[lists[i][j].0 as int] == NTIdx(i as usize) by {
        if i >= off {
            assert(lists[i] == av.rules[i - off].1.map_values(|u: usize| PIdx(u)));
            assert(lists[i][j] == PIdx(av.rules[i - off].1[j]));
            assert(av.rule_slot(i - off, j));
            assert(av.rules[i - off].1[j] < p0);
            assert(g.prod_owners()[av.rules[i - off].1[j] as int] == NTIdx(i as usize));
        } else if i == 0 {
            assert(lists[0] == seq![PIdx(p0 as usize)]);
            assert(lists[0][j] == PIdx(p0 as usize));
        } else if imp && i == 1 {
            assert(lists[1][j] == PIdx((p0 + 1 + j) as usize));
            assert(0 <= j <= nimp);
            assert(g.prod_owners()[p0 + 1 + j] == NTIdx(1));
        } else {
            assert(imp && i == 2);
            assert(lists[2][j] == PIdx((p0 + 2 + nimp) as usize));
        }
    }
    assert forall|i: int, j: int, x: int, y: int|
        g.rp_slot(i, j) && g.rp_slot(x, y) && (i != x || j != y) implies lists[i][j]
        != lists[x][y] by {
        let pv = spec_list_entry(g, av, kind, i, j);
        let qv = spec_list_entry(g, av, kind, x, y);
        assert(lists[i][j].0 == pv);
        assert(lists[x][y].0 == qv);
        if i >= off && x >= off {
            assert(av.rule_slot(i - off, j) && av.rule_slot(x - off, y));
            assert(av.rules[i - off].1[j] != av.rules[x - off].1[y]);
        }
    }
    assert forall|p: int| 0 <= p < g.prod_bodies().len() implies #[trigger] g.p_covered(p) by {
        if p < p0 {
            assert(av.covers(p));
            let (i, j) = choose|i: int, j: int|
                av.rule_slot(i, j) && #[trigger] av.rules[i].1[j] == p;
            assert(lists[off + i] == av.rules[i].1.map_values(|u: usize| PIdx(u)));
            assert(lists[off + i][j] == PIdx(p as usize));
            assert(g.rp_slot(off + i, j) && lists[off + i][j].0 == p);
        } else if p == p0 {
            assert(g.rp_slot(0, 0) && lists[0][0].0 == p);
        } else if imp && p <= p0 + 1 + nimp {
            let q = p - (p0 + 1);
            assert(lists[1][q] == PIdx((p0 + 1 + q) as usize));
            assert(g.rp_slot(1, q) && lists[1][q].0 == p);
        } else {
            assert(imp && p == p0 + 2 + nimp);
            assert(g.rp_slot(2, 0) && lists[2][0].0 == p);
        }
    }

    // Owners are in range.
    assert forall|p: int| 0 <= p < g.prod_owners().len() implies (#[trigger] g.prod_owners()[p]).0
        < nts.len() by {
        if p < p0 {
            assert(av.covers(p));
            let (i, j) = choose|i: int, j: int|
                av.rule_slot(i, j) && #[trigger] av.rules[i].1[j] == p;
            assert(g.prod_owners()[p] == NTIdx((off + i) as usize));
        } else if p == p0 {
        } else if imp && p <= p0 + 1 + nimp {
            let q = p - (p0 + 1);
            assert(g.prod_owners()[p0 + 1 + q] == NTIdx(1));
        } else {
            assert(imp && p == p0 + 2 + nimp);
        }
    }

    // Every symbol of every body is in range.
    assert forall|p: int, k: int|
        0 <= p < g.prod_bodies().len() && 0 <= k < g.prod_bodies()[p].len() implies sym_idx_valid(
        #[trigger] g.prod_bodies()[p][k],
        nts.len(),
        g.t_names().len(),
    ) by {
        let stn = av.start.unwrap();
        assert(rules_has_key(av.rules, stn));
        let sx = choose|x: int| 0 <= x < av.rules.len() && av.rules[x].0 == stn;
        assert(rn[sx] == stn);
        assert(nts[off + sx] == stn);
        assert(nts.contains(stn));
        assert(0 <= seq_find(nts, stn) < nts.len());
        if p < p0 {
            if imp {
                lemma_weave_valid(av.prods[p].symbols, nts, toks, NTIdx(1));
            } else {
                lemma_lower_valid(av.prods[p].symbols, nts, toks);
            }
        } else if p == p0 {
        } else if imp && p < p0 + 1 + nimp {
            let q = p - (p0 + 1);
            let it = av.implicit_tokens.unwrap();
            assert(g.prod_bodies()[p0 + 1 + q] == seq![
                Symbol::Term(TIdx(seq_find(toks, it[q]) as usize)),
                Symbol::Nonterm(NTIdx(1)),
            ]);
            assert(toks.contains(it[q]));
            assert(0 <= seq_find(toks, it[q]) < toks.len());
        } else if imp && p == p0 + 1 + nimp {
        } else {
            assert(imp && p == p0 + 2 + nimp);
        }
    }

    // The start production.
    assert(g.prod_bodies()[g.spec_start_prod().0 as int].len() == 1);
    assert(g.prod_bodies()[g.spec_start_prod().0 as int][0] is Nonterm);
}

/// The production index stored at position `j` of the production list of
/// compiled rule `i`.
spec fn spec_list_entry(g: &YaccGrammar, av: GrammarASTView, kind: YaccKind, i: int, j: int) -> int {
    let imp = imp_active(av, kind);
    let off: int = if imp {
        3
    } else {
        1
    };
    let p0 = av.prods.len() as int;
    let nimp: int = if imp {
        av.implicit_tokens.unwrap().len() as int
    } else {
        0
    };
    if i == 0 {
        p0
    } else if imp && i == 1 {
        p0 + 1 + j
    } else if imp && i == 2 {
        p0 + 2 + nimp
    } else {
        av.rules[i - off].1[j] as int
    }
}

} // verus!
