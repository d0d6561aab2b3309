//! The structural laws of a compiled grammar, stated and proved once for
//! every grammar that satisfies the invariants.

use vstd::prelude::*;

use crate::ast::GrammarASTView;
use crate::defs::NTIdx;
use crate::defs::Symbol;
use crate::defs::YaccKind;
use crate::grammar::imp_active;
use crate::grammar::lower_body;
use crate::grammar::lower_sym;
use crate::grammar::prec_of_prod;
use crate::grammar::weave_body;
use crate::grammar::YaccGrammar;
use crate::strutil::lemma_seq_find;
use crate::strutil::seq_find;

verus! {

/// Every production belongs to exactly one rule: its owner's production list
/// mentions it exactly once, and no other rule's list mentions it at all.
pub proof fn lemma_prod_ownership(g: &YaccGrammar, p: int)
    requires
        g.wf(),
        0 <= p < g.prod_bodies().len(),
    ensures
        exists|j: int|
            0 <= j < g.rule_prod_lists()[g.prod_owners()[p].0 as int].len() && (
            #[trigger] g.rule_prod_lists()[g.prod_owners()[p].0 as int][j]).0 == p,
        forall|i: int, j: int|
            g.rp_slot(i, j) && (#[trigger] g.rule_prod_lists()[i][j]).0 == p ==> i == g.prod_owners()[p].0 as int,
        forall|i: int, j1: int, j2: int|
            g.rp_slot(i, j1) && g.rp_slot(i, j2) && (#[trigger] g.rule_prod_lists()[i][j1]).0 == p
                && (#[trigger] g.rule_prod_lists()[i][j2]).0 == p ==> j1 == j2,
{
    assert(g.p_covered(p));
    let (x, y) = choose|x: int, y: int|
        g.rp_slot(x, y) && (#[trigger] g.rule_prod_lists()[x][y]).0 == p;
    assert(g.prod_owners()[p] == NTIdx(x as usize));
    assert(0 <= y < g.rule_prod_lists()[g.prod_owners()[p].0 as int].len() && (
    g.rule_prod_lists()[g.prod_owners()[p].0 as int][y]).0 == p);
    assert forall|i: int, j1: int, j2: int|
        g.rp_slot(i, j1) && g.rp_slot(i, j2) && (#[trigger] g.rule_prod_lists()[i][j1]).0 == p && (
        #[trigger] g.rule_prod_lists()[i][j2]).0 == p implies j1 == j2 by {
        if j1 != j2 {
            assert(g.rule_prod_lists()[i][j1] != g.rule_prod_lists()[i][j2]);
        }
    }
}

/// Looking a rule's name back up yields its own index.
pub proof fn lemma_nonterm_name_roundtrip(g: &YaccGrammar, i: int)
    requires
        g.wf(),
        0 <= i < g.nt_names().len(),
    ensures
        seq_find(g.nt_names(), g.nt_names()[i]) == i,
{
    broadcast use lemma_seq_find;

    assert(g.nt_names().contains(g.nt_names()[i]));
    let f = seq_find(g.nt_names(), g.nt_names()[i]);
    if f < i {
        assert(g.nt_names()[f] != g.nt_names()[i]);
    }
    if f > i {
        assert(g.nt_names()[i] != g.nt_names()[i]);
    }
}

/// Looking a named terminal's name back up yields its own index: no earlier
/// terminal carries the same name.
pub proof fn lemma_term_name_roundtrip(g: &YaccGrammar, i: int)
    requires
        g.wf(),
        0 <= i < g.t_names().len(),
        g.t_names()[i] is Some,
    ensures
        forall|j: int| 0 <= j < i ==> g.t_names()[j] != g.t_names()[i],
{
}

/// The synthesised start rule is nonterminal 0; its production list holds
/// exactly the start production, whose body is a single nonterminal.
pub proof fn lemma_start_rule(g: &YaccGrammar)
    requires
        g.wf(),
    ensures
        g.prod_owners()[g.spec_start_prod().0 as int] == NTIdx(0),
        g.rule_prod_lists()[0] == seq![g.spec_start_prod()],
        g.prod_bodies()[g.spec_start_prod().0 as int].len() == 1,
        g.prod_bodies()[g.spec_start_prod().0 as int][0] is Nonterm,
        g.prod_prec_list()[g.spec_start_prod().0 as int] is None,
{
}

/// With implicit rewriting off, compilation is a relabelling: every user
/// production body is the plain symbol-by-symbol lowering of its AST body,
/// and its precedence follows the AST's declarations.
pub proof fn lemma_original_mode_relabelling(g: &YaccGrammar, av: GrammarASTView, p: int)
    requires
        g.matches_ast(av, YaccKind::Original),
        0 <= p < av.prods.len(),
    ensures
        g.prod_bodies()[p] == lower_body(av.prods[p].symbols, g.nt_names(), av.tokens),
        g.prod_prec_list()[p] == prec_of_prod(av.precs, av.prods[p]),
{
}

/// Remove the implicit nonterminal woven in after each terminal.
pub open spec fn strip_implicit(s: Seq<Symbol>) -> Seq<Symbol>
    decreases s.len(),
{
    if s.len() == 0 {
        Seq::empty()
    } else {
        match s[0] {
            Symbol::Term(_) => if s.len() >= 2 {
                seq![s[0]] + strip_implicit(s.skip(2))
            } else {
                seq![s[0]]
            },
            Symbol::Nonterm(_) => seq![s[0]] + strip_implicit(s.drop_first()),
        }
    }
}

/// With implicit rewriting on, the symbols of a rewritten body at the
/// positions that were not inserted are exactly the plain lowering of the
/// AST body: stripping the inserted occurrence of the implicit
/// nonterminal after each terminal recovers it.
pub proof fn lemma_weave_strip(
    syms: Seq<crate::ast::SymbolView>,
    nts: Seq<Seq<char>>,
    toks: Seq<Seq<char>>,
    imp: NTIdx,
)
    ensures
        strip_implicit(weave_body(syms, nts, toks, imp)) == lower_body(syms, nts, toks),
    decreases syms.len(),
{
    let w = weave_body(syms, nts, toks, imp);
    if syms.len() == 0 {
        assert(w =~= Seq::<Symbol>::empty());
        assert(lower_body(syms, nts, toks) =~= Seq::<Symbol>::empty());
    } else {
        lemma_weave_strip(syms.drop_first(), nts, toks, imp);
        let rest = weave_body(syms.drop_first(), nts, toks, imp);
        match syms[0] {
            crate::ast::SymbolView::Nonterm(_) => {
                assert(w == seq![lower_sym(syms[0], nts, toks)] + rest);
                assert(w[0] == lower_sym(syms[0], nts, toks));
                assert(w[0] is Nonterm);
                assert(w.drop_first() =~= rest);
                assert(strip_implicit(w) == seq![w[0]] + strip_implicit(rest));
            },
            crate::ast::SymbolView::Term(_) => {
                assert(w == seq![lower_sym(syms[0], nts, toks), Symbol::Nonterm(imp)] + rest);
                assert(w[0] == lower_sym(syms[0], nts, toks));
                assert(w[0] is Term);
                assert(w.skip(2) =~= rest);
                assert(strip_implicit(w) == seq![w[0]] + strip_implicit(rest));
            },
        }
        assert(lower_body(syms, nts, toks) =~= seq![lower_sym(syms[0], nts, toks)] + lower_body(
            syms.drop_first(),
            nts,
            toks,
        ));
        assert(strip_implicit(w) =~= lower_body(syms, nts, toks));
    }
}

/// With implicit rewriting on, every user production of the compiled
/// grammar strips back to the plain lowering of its AST body.
pub proof fn lemma_implicit_rewrite(g: &YaccGrammar, av: GrammarASTView, p: int)
    requires
        g.matches_ast(av, YaccKind::Eco),
        imp_active(av, YaccKind::Eco),
        0 <= p < av.prods.len(),
    ensures
        strip_implicit(g.prod_bodies()[p]) == lower_body(
            av.prods[p].symbols,
            g.nt_names(),
            av.tokens,
        ),
{
    lemma_weave_strip(av.prods[p].symbols, g.nt_names(), av.tokens, NTIdx(1));
}

} // verus!
