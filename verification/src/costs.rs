//! Fixed-point cost analyses: the cost of a minimal and of a maximal
//! sentence derivable from each nonterminal, under a user-supplied cost per
//! terminal.

use vstd::prelude::*;
use vstd::pervasive::VecAdditionalExecFns;

use crate::defs::NTIdx;
use crate::defs::PIdx;
use crate::defs::Symbol;
use crate::defs::TIdx;
use crate::grammar::YaccGrammar;

verus! {

/// The cost one symbol contributes: a terminal's own cost, a rule's entry in
/// `costs`.
pub open spec fn sym_cost(tc: Seq<u8>, costs: Seq<int>, s: Symbol) -> int {
    match s {
        Symbol::Term(t) => tc[t.0 as int] as int,
        Symbol::Nonterm(m) => costs[m.0 as int],
    }
}

/// The summed cost of a production body at the given per-rule costs.
pub open spec fn body_cost(tc: Seq<u8>, costs: Seq<int>, body: Seq<Symbol>) -> int
    decreases body.len(),
{
    if body.len() == 0 {
        0
    } else {
        sym_cost(tc, costs, body[0]) + body_cost(tc, costs, body.drop_first())
    }
}

/// The summed cost of production `p` at the given per-rule costs.
pub open spec fn prod_cost(g: &YaccGrammar, tc: Seq<u8>, costs: Seq<int>, p: int) -> int {
    body_cost(tc, costs, g.prod_bodies()[p])
}

/// A trigger marker for the choice a derivation makes at a nonterminal: the
/// cost `c1` and production `p` of the sub-derivation.
pub open spec fn deriv_choice(c1: int, p: int) -> bool {
    true
}

/// A production body derives terminal strings of total cost `c`, each rule
/// in it by a derivation tree of height at most `h`.
pub open spec fn body_derives(g: &YaccGrammar, tc: Seq<u8>, body: Seq<Symbol>, c: int, h: nat) -> bool
    decreases h, body.len(),
{
    if body.len() == 0 {
        c == 0
    } else {
        match body[0] {
            Symbol::Term(t) => body_derives(g, tc, body.drop_first(), c - tc[t.0 as int], h),
            Symbol::Nonterm(m) => h > 0 && exists|c1: int, p: int|
                #[trigger] deriv_choice(c1, p) && 0 <= p < g.prod_bodies().len()
                    && (g.prod_owners()[p]).0 == m.0 as int && body_derives(
                    g,
                    tc,
                    g.prod_bodies()[p],
                    c1,
                    (h - 1) as nat,
                ) && body_derives(g, tc, body.drop_first(), c - c1, h),
        }
    }
}

/// Rule `n` derives some terminal string of total cost `c` by a derivation
/// tree of height at most `h`.
pub open spec fn derives_cost(g: &YaccGrammar, tc: Seq<u8>, n: int, c: int, h: nat) -> bool {
    h > 0 && exists|p: int|
        0 <= p < g.prod_bodies().len() && (#[trigger] g.prod_owners()[p]).0 == n && body_derives(
            g,
            tc,
            g.prod_bodies()[p],
            c,
            (h - 1) as nat,
        )
}

/// The per-rule cost entries as mathematical integers.
pub open spec fn costs_seq(r: Seq<u32>) -> Seq<int> {
    r.map_values(|x: u32| x as int)
}

/// A witness that every rule derives something of bounded cost: the
/// precondition under which minimum costs are defined and fit in a `u32`.
pub open spec fn productive_witness(g: &YaccGrammar, tc: Seq<u8>, cw: Seq<int>) -> bool {
    &&& cw.len() == g.nt_names().len()
    &&& forall|n: int|
        0 <= n < cw.len() ==> 0 <= #[trigger] cw[n] < 0xffff_ffff && exists|h: nat|
            derives_cost(g, tc, n, cw[n], h)
}

proof fn lemma_body_derives_mono(
    g: &YaccGrammar,
    tc: Seq<u8>,
    body: Seq<Symbol>,
    c: int,
    h1: nat,
    h2: nat,
)
    requires
        body_derives(g, tc, body, c, h1),
        h1 <= h2,
    ensures
        body_derives(g, tc, body, c, h2),
    decreases h1, body.len(),
{
    reveal_with_fuel(body_derives, 2);
    if body.len() > 0 {
        match body[0] {
            Symbol::Term(t) => {
                lemma_body_derives_mono(g, tc, body.drop_first(), c - tc[t.0 as int], h1, h2);
            },
            Symbol::Nonterm(m) => {
                let (c1, p) = choose|c1: int, p: int|
                    #[trigger] deriv_choice(c1, p) && 0 <= p < g.prod_bodies().len()
                        && (g.prod_owners()[p]).0 == m.0 as int && body_derives(
                        g,
                        tc,
                        g.prod_bodies()[p],
                        c1,
                        (h1 - 1) as nat,
                    ) && body_derives(g, tc, body.drop_first(), c - c1, h1);
                lemma_body_derives_mono(
                    g,
                    tc,
                    g.prod_bodies()[p],
                    c1,
                    (h1 - 1) as nat,
                    (h2 - 1) as nat,
                );
                lemma_body_derives_mono(g, tc, body.drop_first(), c - c1, h1, h2);
                assert(body_derives(g, tc, body, c, h2));
            },
        }
    }
}

proof fn lemma_body_derives_nonneg(g: &YaccGrammar, tc: Seq<u8>, body: Seq<Symbol>, c: int, h: nat)
    requires
        body_derives(g, tc, body, c, h),
    ensures
        c >= 0,
    decreases h, body.len(),
{
    reveal_with_fuel(body_derives, 2);
    if body.len() > 0 {
        match body[0] {
            Symbol::Term(t) => {
                lemma_body_derives_nonneg(g, tc, body.drop_first(), c - tc[t.0 as int], h);
            },
            Symbol::Nonterm(m) => {
                let (c1, p) = choose|c1: int, p: int|
                    #[trigger] deriv_choice(c1, p) && 0 <= p < g.prod_bodies().len()
                        && (g.prod_owners()[p]).0 == m.0 as int && body_derives(
                        g,
                        tc,
                        g.prod_bodies()[p],
                        c1,
                        (h - 1) as nat,
                    ) && body_derives(g, tc, body.drop_first(), c - c1, h);
                lemma_body_derives_nonneg(g, tc, g.prod_bodies()[p], c1, (h - 1) as nat);
                lemma_body_derives_nonneg(g, tc, body.drop_first(), c - c1, h);
            },
        }
    }
}

proof fn lemma_derives_nonneg(g: &YaccGrammar, tc: Seq<u8>, n: int, c: int, h: nat)
    requires
        derives_cost(g, tc, n, c, h),
    ensures
        c >= 0,
{
    let p = choose|p: int|
        0 <= p < g.prod_bodies().len() && (#[trigger] g.prod_owners()[p]).0 == n && body_derives(
            g,
            tc,
            g.prod_bodies()[p],
            c,
            (h - 1) as nat,
        );
    lemma_body_derives_nonneg(g, tc, g.prod_bodies()[p], c, (h - 1) as nat);
}

/// Body costs depend only on the entries of the rules the body mentions.
proof fn lemma_body_cost_congruence(
    tc: Seq<u8>,
    c1: Seq<int>,
    c2: Seq<int>,
    body: Seq<Symbol>,
)
    requires
        forall|k: int|
            0 <= k < body.len() ==> match #[trigger] body[k] {
                Symbol::Nonterm(m) => 0 <= m.0 < c1.len() && 0 <= m.0 < c2.len() && c1[m.0 as int]
                    == c2[m.0 as int],
                Symbol::Term(_) => true,
            },
    ensures
        body_cost(tc, c1, body) == body_cost(tc, c2, body),
    decreases body.len(),
{
    if body.len() > 0 {
        assert forall|k: int|
            0 <= k < body.drop_first().len() implies match #[trigger] body.drop_first()[k] {
            Symbol::Nonterm(m) => 0 <= m.0 < c1.len() && 0 <= m.0 < c2.len() && c1[m.0 as int]
                == c2[m.0 as int],
            Symbol::Term(_) => true,
        } by {
            assert(body.drop_first()[k] == body[k + 1]);
        }
        lemma_body_cost_congruence(tc, c1, c2, body.drop_first());
    }
}

/// With nonnegative entries, a body cost is nonnegative and bounded below by
/// the entry of any rule the body mentions.
proof fn lemma_body_cost_member(tc: Seq<u8>, costs: Seq<int>, body: Seq<Symbol>, k: int)
    requires
        forall|x: int| 0 <= x < costs.len() ==> #[trigger] costs[x] >= 0,
        forall|j: int|
            0 <= j < body.len() ==> match #[trigger] body[j] {
                Symbol::Nonterm(m) => 0 <= m.0 < costs.len(),
                Symbol::Term(t) => 0 <= t.0 < tc.len(),
            },
        0 <= k < body.len() || k == -1,
    ensures
        body_cost(tc, costs, body) >= 0,
        0 <= k < body.len() ==> body_cost(tc, costs, body) >= sym_cost(tc, costs, body[k]),
    decreases body.len(),
{
    if body.len() > 0 {
        assert forall|j: int|
            0 <= j < body.drop_first().len() implies match #[trigger] body.drop_first()[j] {
            Symbol::Nonterm(m) => 0 <= m.0 < costs.len(),
            Symbol::Term(t) => 0 <= t.0 < tc.len(),
        } by {
            assert(body.drop_first()[j] == body[j + 1]);
        }
        if k <= 0 {
            lemma_body_cost_member(tc, costs, body.drop_first(), -1);
        } else {
            lemma_body_cost_member(tc, costs, body.drop_first(), k - 1);
            assert(body.drop_first()[k - 1] == body[k]);
        }
        match body[0] {
            Symbol::Nonterm(m) => {
                assert(sym_cost(tc, costs, body[0]) >= 0);
            },
            Symbol::Term(_) => {},
        }
    }
}

/// An upper bound on a body cost from a uniform bound on the entries.
proof fn lemma_body_cost_bound(tc: Seq<u8>, costs: Seq<int>, body: Seq<Symbol>, bound: int)
    requires
        bound >= 0x100,
        forall|x: int| 0 <= x < costs.len() ==> 0 <= #[trigger] costs[x] < bound,
        forall|j: int|
            0 <= j < body.len() ==> match #[trigger] body[j] {
                Symbol::Nonterm(m) => 0 <= m.0 < costs.len(),
                Symbol::Term(t) => 0 <= t.0 < tc.len(),
            },
    ensures
        0 <= body_cost(tc, costs, body) <= body.len() * bound,
    decreases body.len(),
{
    if body.len() == 0 {
        assert(body.len() == 0);
        assert(0int * bound == 0) by (nonlinear_arith);
    } else {
        assert forall|j: int|
            0 <= j < body.drop_first().len() implies match #[trigger] body.drop_first()[j] {
            Symbol::Nonterm(m) => 0 <= m.0 < costs.len(),
            Symbol::Term(t) => 0 <= t.0 < tc.len(),
        } by {
            assert(body.drop_first()[j] == body[j + 1]);
        }
        lemma_body_cost_bound(tc, costs, body.drop_first(), bound);
        assert(sym_cost(tc, costs, body[0]) < bound);
        assert((body.len() - 1) * bound + bound == body.len() * bound) by (nonlinear_arith);
    }
}

/// Every nonterminal a production body mentions is done.
pub open spec fn complete_prod(g: &YaccGrammar, done: Seq<bool>, p: int) -> bool {
    forall|k: int|
        0 <= k < g.prod_bodies()[p].len() ==> match #[trigger] g.prod_bodies()[p][k] {
            Symbol::Nonterm(m) => 0 <= m.0 < done.len() && done[m.0 as int],
            Symbol::Term(_) => true,
        }
}

/// The facts the minimum-cost search maintains about finished rules: their
/// entries are nonnegative, derivable, and lower bounds on every derivable
/// cost.
pub open spec fn min_inv(g: &YaccGrammar, tc: Seq<u8>, costs: Seq<int>, done: Seq<bool>) -> bool {
    &&& costs.len() == g.nt_names().len()
    &&& done.len() == g.nt_names().len()
    &&& tc.len() == g.t_names().len()
    &&& forall|i: int| 0 <= i < costs.len() ==> #[trigger] costs[i] >= 0
    &&& forall|i: int, c: int, h: nat|
        0 <= i < done.len() && done[i] && #[trigger] derives_cost(g, tc, i, c, h) ==> costs[i] <= c
}

/// Every complete production of an unfinished rule costs at least `bc`.
pub open spec fn global_lb(
    g: &YaccGrammar,
    tc: Seq<u8>,
    costs: Seq<int>,
    done: Seq<bool>,
    bc: int,
) -> bool {
    forall|p: int|
        0 <= p < g.prod_bodies().len() && (g.prod_owners()[p]).0 < done.len()
            && !done[g.prod_owners()[p].0 as int] && #[trigger] complete_prod(g, done, p)
            ==> prod_cost(g, tc, costs, p) >= bc
}

pub(crate) proof fn lemma_body_cost_snoc(tc: Seq<u8>, costs: Seq<int>, body: Seq<Symbol>, x: Symbol)
    ensures
        body_cost(tc, costs, body.push(x)) == body_cost(tc, costs, body) + sym_cost(tc, costs, x),
    decreases body.len(),
{
    if body.len() == 0 {
        assert(body.push(x)[0] == x);
        assert(body.push(x).drop_first() =~= Seq::<Symbol>::empty());
        assert(body_cost(tc, costs, Seq::<Symbol>::empty()) == 0);
        assert(body_cost(tc, costs, body) == 0);
        assert(body_cost(tc, costs, body.push(x)) == sym_cost(tc, costs, x));
    } else {
        assert(body.push(x)[0] == body[0]);
        assert(body.push(x).drop_first() =~= body.drop_first().push(x));
        lemma_body_cost_snoc(tc, costs, body.drop_first(), x);
        assert(body_cost(tc, costs, body.push(x)) == sym_cost(tc, costs, body[0]) + body_cost(
            tc,
            costs,
            body.drop_first().push(x),
        ));
    }
}

/// Each nonterminal a derivable body mentions derives something itself.
proof fn lemma_body_derives_members(
    g: &YaccGrammar,
    tc: Seq<u8>,
    body: Seq<Symbol>,
    c: int,
    h: nat,
    k: int,
)
    requires
        body_derives(g, tc, body, c, h),
        0 <= k < body.len(),
        body[k] is Nonterm,
    ensures
        exists|c1: int| derives_cost(g, tc, body[k]->Nonterm_0.0 as int, c1, h),
    decreases h, body.len(),
{
    match body[0] {
        Symbol::Term(t) => {
            assert(body.drop_first()[k - 1] == body[k]);
            lemma_body_derives_members(g, tc, body.drop_first(), c - tc[t.0 as int], h, k - 1);
        },
        Symbol::Nonterm(m) => {
            let (c1, p) = choose|c1: int, p: int|
                #[trigger] deriv_choice(c1, p) && 0 <= p < g.prod_bodies().len()
                    && (g.prod_owners()[p]).0 == m.0 as int && body_derives(
                    g,
                    tc,
                    g.prod_bodies()[p],
                    c1,
                    (h - 1) as nat,
                ) && body_derives(g, tc, body.drop_first(), c - c1, h);
            if k == 0 {
                assert(derives_cost(g, tc, m.0 as int, c1, h));
            } else {
                assert(body.drop_first()[k - 1] == body[k]);
                lemma_body_derives_members(g, tc, body.drop_first(), c - c1, h, k - 1);
            }
        },
    }
}

/// A body whose rules are all done derives exactly its summed cost.
proof fn lemma_body_compose(
    g: &YaccGrammar,
    tc: Seq<u8>,
    costs: Seq<int>,
    done: Seq<bool>,
    body: Seq<Symbol>,
)
    requires
        costs.len() == g.nt_names().len(),
        done.len() == g.nt_names().len(),
        forall|k: int|
            0 <= k < body.len() ==> match #[trigger] body[k] {
                Symbol::Nonterm(m) => 0 <= m.0 < done.len() && done[m.0 as int],
                Symbol::Term(t) => 0 <= t.0 < tc.len(),
            },
        forall|i: int|
            0 <= i < done.len() && done[i] ==> exists|h: nat|
                #[trigger] derives_cost(g, tc, i, costs[i], h),
    ensures
        exists|h: nat| body_derives(g, tc, body, body_cost(tc, costs, body), h),
    decreases body.len(),
{
    if body.len() == 0 {
        assert(body_cost(tc, costs, body) == 0);
        assert(body_derives(g, tc, body, body_cost(tc, costs, body), 0));
    } else {
        assert forall|k: int|
            0 <= k < body.drop_first().len() implies match #[trigger] body.drop_first()[k] {
            Symbol::Nonterm(m) => 0 <= m.0 < done.len() && done[m.0 as int],
            Symbol::Term(t) => 0 <= t.0 < tc.len(),
        } by {
            assert(body.drop_first()[k] == body[k + 1]);
        }
        lemma_body_compose(g, tc, costs, done, body.drop_first());
        let hr = choose|h: nat|
            body_derives(g, tc, body.drop_first(), body_cost(tc, costs, body.drop_first()), h);
        match body[0] {
            Symbol::Term(t) => {
                assert(body_cost(tc, costs, body) == tc[t.0 as int] + body_cost(
                    tc,
                    costs,
                    body.drop_first(),
                ));
                assert(body_derives(g, tc, body, body_cost(tc, costs, body), hr));
            },
            Symbol::Nonterm(m) => {
                assert(done[m.0 as int]);
                let hm = choose|h: nat| #[trigger] derives_cost(g, tc, m.0 as int, costs[m.0 as int], h);
                let hh = if hm > hr + 1 {
                    hm
                } else {
                    hr + 1
                };
                let p = choose|p: int|
                    0 <= p < g.prod_bodies().len() && (#[trigger] g.prod_owners()[p]).0
                        == m.0 as int && body_derives(
                        g,
                        tc,
                        g.prod_bodies()[p],
                        costs[m.0 as int],
                        (hm - 1) as nat,
                    );
                lemma_body_derives_mono(
                    g,
                    tc,
                    g.prod_bodies()[p],
                    costs[m.0 as int],
                    (hm - 1) as nat,
                    (hh - 1) as nat,
                );
                lemma_body_derives_mono(
                    g,
                    tc,
                    body.drop_first(),
                    body_cost(tc, costs, body.drop_first()),
                    hr,
                    hh,
                );
                assert(deriv_choice(costs[m.0 as int], p));
                assert(body_cost(tc, costs, body) == costs[m.0 as int] + body_cost(
                    tc,
                    costs,
                    body.drop_first(),
                ));
                assert(body_derives(
                    g,
                    tc,
                    g.prod_bodies()[p],
                    costs[m.0 as int],
                    (hh - 1) as nat,
                ));
                assert(body_derives(
                    g,
                    tc,
                    body.drop_first(),
                    body_cost(tc, costs, body) - costs[m.0 as int],
                    hh,
                ));
                assert(body_derives(g, tc, body, body_cost(tc, costs, body), hh));
            },
        }
    }
}

/// Any cost an unfinished rule can derive is at least the best candidate.
proof fn lemma_candidate_min(
    g: &YaccGrammar,
    tc: Seq<u8>,
    costs: Seq<int>,
    done: Seq<bool>,
    bc: int,
    j: int,
    c: int,
    h: nat,
)
    requires
        g.wf(),
        min_inv(g, tc, costs, done),
        global_lb(g, tc, costs, done, bc),
        bc >= 0,
        0 <= j < done.len(),
        !done[j],
        derives_cost(g, tc, j, c, h),
    ensures
        c >= bc,
    decreases h, 0int,
{
    let p = choose|p: int|
        0 <= p < g.prod_bodies().len() && (#[trigger] g.prod_owners()[p]).0 == j && body_derives(
            g,
            tc,
            g.prod_bodies()[p],
            c,
            (h - 1) as nat,
        );
    lemma_candidate_min_body(g, tc, costs, done, bc, g.prod_bodies()[p], c, (h - 1) as nat);
    if complete_prod(g, done, p) {
        assert(prod_cost(g, tc, costs, p) >= bc);
        assert(c >= body_cost(tc, costs, g.prod_bodies()[p]));
    } else {
        let k = choose|k: int|
            0 <= k < g.prod_bodies()[p].len() && !(match #[trigger] g.prod_bodies()[p][k] {
                Symbol::Nonterm(m) => 0 <= m.0 < done.len() && done[m.0 as int],
                Symbol::Term(_) => true,
            });
        assert(c >= bc);
    }
}

proof fn lemma_candidate_min_body(
    g: &YaccGrammar,
    tc: Seq<u8>,
    costs: Seq<int>,
    done: Seq<bool>,
    bc: int,
    body: Seq<Symbol>,
    c: int,
    h: nat,
)
    requires
        g.wf(),
        min_inv(g, tc, costs, done),
        global_lb(g, tc, costs, done, bc),
        bc >= 0,
        body_derives(g, tc, body, c, h),
        forall|k: int|
            0 <= k < body.len() ==> match #[trigger] body[k] {
                Symbol::Nonterm(m) => 0 <= m.0 < done.len(),
                Symbol::Term(t) => 0 <= t.0 < tc.len(),
            },
    ensures
        c >= 0,
        (forall|k: int|
            0 <= k < body.len() ==> match #[trigger] body[k] {
                Symbol::Nonterm(m) => done[m.0 as int],
                Symbol::Term(_) => true,
            }) ==> c >= body_cost(tc, costs, body),
        (exists|k: int|
            0 <= k < body.len() && #[trigger] body[k] is Nonterm && !done[body[k]->Nonterm_0.0 as int])
            ==> c >= bc,
    decreases h, body.len() + 1,
{
    if body.len() == 0 {
    } else {
        assert forall|k: int|
            0 <= k < body.drop_first().len() implies match #[trigger] body.drop_first()[k] {
            Symbol::Nonterm(m) => 0 <= m.0 < done.len(),
            Symbol::Term(t) => 0 <= t.0 < tc.len(),
        } by {
            assert(body.drop_first()[k] == body[k + 1]);
        }
        match body[0] {
            Symbol::Term(t) => {
                lemma_candidate_min_body(
                    g,
                    tc,
                    costs,
                    done,
                    bc,
                    body.drop_first(),
                    c - tc[t.0 as int],
                    h,
                );
                lemma_split_first(g, tc, costs, done, bc, body, c);
            },
            Symbol::Nonterm(m) => {
                let (c1, p) = choose|c1: int, p: int|
                    #[trigger] deriv_choice(c1, p) && 0 <= p < g.prod_bodies().len()
                        && (g.prod_owners()[p]).0 == m.0 as int && body_derives(
                        g,
                        tc,
                        g.prod_bodies()[p],
                        c1,
                        (h - 1) as nat,
                    ) && body_derives(g, tc, body.drop_first(), c - c1, h);
                assert(derives_cost(g, tc, m.0 as int, c1, h));
                lemma_derives_nonneg(g, tc, m.0 as int, c1, h);
                if !done[m.0 as int] {
                    lemma_candidate_min(g, tc, costs, done, bc, m.0 as int, c1, h);
                }
                lemma_candidate_min_body(g, tc, costs, done, bc, body.drop_first(), c - c1, h);
                lemma_split_first(g, tc, costs, done, bc, body, c);
            },
        }
    }
}

/// Bookkeeping for `lemma_candidate_min_body`: relate the quantifiers over a
/// body to those over its tail.
proof fn lemma_split_first(
    g: &YaccGrammar,
    tc: Seq<u8>,
    costs: Seq<int>,
    done: Seq<bool>,
    bc: int,
    body: Seq<Symbol>,
    c: int,
)
    requires
        body.len() > 0,
    ensures
        (forall|k: int|
            0 <= k < body.len() ==> match #[trigger] body[k] {
                Symbol::Nonterm(m) => done[m.0 as int],
                Symbol::Term(_) => true,
            }) ==> (match body[0] {
            Symbol::Nonterm(m) => done[m.0 as int],
            Symbol::Term(_) => true,
        } && (forall|k: int|
            0 <= k < body.drop_first().len() ==> match #[trigger] body.drop_first()[k] {
                Symbol::Nonterm(m) => done[m.0 as int],
                Symbol::Term(_) => true,
            })),
        (exists|k: int|
            0 <= k < body.len() && #[trigger] body[k] is Nonterm && !done[body[k]->Nonterm_0.0 as int])
            ==> ((body[0] is Nonterm && !done[body[0]->Nonterm_0.0 as int]) || (exists|k: int|
            0 <= k < body.drop_first().len() && #[trigger] body.drop_first()[k] is Nonterm
                && !done[body.drop_first()[k]->Nonterm_0.0 as int])),
        (exists|k: int|
            0 <= k < body.drop_first().len() && #[trigger] body.drop_first()[k] is Nonterm
                && !done[body.drop_first()[k]->Nonterm_0.0 as int]) ==> (exists|k: int|
            0 <= k < body.len() && #[trigger] body[k] is Nonterm && !done[body[k]->Nonterm_0.0 as int]),
        body_cost(tc, costs, body) == sym_cost(tc, costs, body[0]) + body_cost(
            tc,
            costs,
            body.drop_first(),
        ),
{
    assert forall|k: int| 0 <= k < body.drop_first().len() implies body.drop_first()[k] == body[k
        + 1] by {}
    if (forall|k: int|
        0 <= k < body.len() ==> match #[trigger] body[k] {
            Symbol::Nonterm(m) => done[m.0 as int],
            Symbol::Term(_) => true,
        }) {
        assert forall|k: int|
            0 <= k < body.drop_first().len() implies match #[trigger] body.drop_first()[k] {
            Symbol::Nonterm(m) => done[m.0 as int],
            Symbol::Term(_) => true,
        } by {
            assert(body.drop_first()[k] == body[k + 1]);
        }
    }
    if exists|k: int|
        0 <= k < body.len() && #[trigger] body[k] is Nonterm && !done[body[k]->Nonterm_0.0 as int] {
        let k = choose|k: int|
            0 <= k < body.len() && #[trigger] body[k] is Nonterm && !done[body[k]->Nonterm_0.0 as int];
        if k > 0 {
            assert(body.drop_first()[k - 1] == body[k]);
            assert(body.drop_first()[k - 1] is Nonterm && !done[body.drop_first()[k
                - 1]->Nonterm_0.0 as int]);
        }
    }
    if exists|k: int|
        0 <= k < body.drop_first().len() && #[trigger] body.drop_first()[k] is Nonterm
            && !done[body.drop_first()[k]->Nonterm_0.0 as int] {
        let k = choose|k: int|
            0 <= k < body.drop_first().len() && #[trigger] body.drop_first()[k] is Nonterm
                && !done[body.drop_first()[k]->Nonterm_0.0 as int];
        assert(body[k + 1] is Nonterm && !done[body[k + 1]->Nonterm_0.0 as int]);
    }
}

/// While some rule is unfinished, some unfinished rule has a production all
/// of whose nonterminals are finished.
proof fn lemma_ready_exists(
    g: &YaccGrammar,
    tc: Seq<u8>,
    done: Seq<bool>,
    j: int,
    c: int,
    h: nat,
)
    requires
        g.wf(),
        done.len() == g.nt_names().len(),
        tc.len() == g.t_names().len(),
        0 <= j < done.len(),
        !done[j],
        derives_cost(g, tc, j, c, h),
    ensures
        exists|p: int|
            0 <= p < g.prod_bodies().len() && (g.prod_owners()[p]).0 < done.len()
                && !done[g.prod_owners()[p].0 as int] && #[trigger] complete_prod(g, done, p),
    decreases h,
{
    let p = choose|p: int|
        0 <= p < g.prod_bodies().len() && (#[trigger] g.prod_owners()[p]).0 == j && body_derives(
            g,
            tc,
            g.prod_bodies()[p],
            c,
            (h - 1) as nat,
        );
    if complete_prod(g, done, p) {
        assert(0 <= p < g.prod_bodies().len() && (g.prod_owners()[p]).0 < done.len()
            && !done[g.prod_owners()[p].0 as int] && complete_prod(g, done, p));
    } else {
        let k = choose|k: int|
            0 <= k < g.prod_bodies()[p].len() && !(match #[trigger] g.prod_bodies()[p][k] {
                Symbol::Nonterm(m) => 0 <= m.0 < done.len() && done[m.0 as int],
                Symbol::Term(_) => true,
            });
        let m = g.prod_bodies()[p][k]->Nonterm_0;
        assert(crate::grammar::sym_idx_valid(
            g.prod_bodies()[p][k],
            g.nt_names().len(),
            g.t_names().len(),
        ));
        assert(0 <= m.0 < done.len());
        assert(!done[m.0 as int]);
        lemma_body_derives_members(g, tc, g.prod_bodies()[p], c, (h - 1) as nat, k);
        let c1 = choose|c1: int| #[trigger] derives_cost(g, tc, m.0 as int, c1, (h - 1) as nat);
        lemma_ready_exists(g, tc, done, m.0 as int, c1, (h - 1) as nat);
    }
}

/// Entry `i` of a cost vector is a cost some derivation of rule `i` attains.
pub open spec fn entry_derivable(g: &YaccGrammar, tc: Seq<u8>, r: Seq<u32>, i: int) -> bool {
    exists|h: nat| derives_cost(g, tc, i, r[i] as int, h)
}

/// Entry `i` of a cost vector is attained by some production of rule `i` at
/// the vector's own values.
pub open spec fn entry_attained(g: &YaccGrammar, tc: Seq<u8>, r: Seq<u32>, i: int) -> bool {
    exists|p: int|
        0 <= p < g.prod_bodies().len() && (#[trigger] g.prod_owners()[p]).0 == i && prod_cost(
            g,
            tc,
            costs_seq(r),
            p,
        ) == r[i] as int
}

/// A boolean sequence that is not all set has an unset entry.
proof fn lemma_count_not_all(s: Seq<bool>)
    requires
        crate::reach::count_true(s) < s.len(),
    ensures
        exists|j: int| 0 <= j < s.len() && !s[j],
    decreases s.len(),
{
    crate::reach::lemma_count_true_bounds(s);
    if s.len() > 0 {
        if !s.last() {
            assert(!s[s.len() - 1]);
        } else {
            crate::reach::lemma_count_true_bounds(s.drop_last());
            lemma_count_not_all(s.drop_last());
            let j = choose|j: int| 0 <= j < s.drop_last().len() && !s.drop_last()[j];
            assert(!s[j]);
        }
    }
}

/// The summed cost of a sentence of terminals.
pub open spec fn sent_cost(tc: Seq<u8>, s: Seq<TIdx>) -> int
    decreases s.len(),
{
    if s.len() == 0 {
        0
    } else {
        tc[s[0].0 as int] + sent_cost(tc, s.drop_first())
    }
}

pub(crate) proof fn lemma_sent_cost_append(tc: Seq<u8>, a: Seq<TIdx>, b: Seq<TIdx>)
    ensures
        sent_cost(tc, a + b) == sent_cost(tc, a) + sent_cost(tc, b),
    decreases a.len(),
{
    if a.len() == 0 {
        assert(a + b =~= b);
    } else {
        assert((a + b).drop_first() =~= a.drop_first() + b);
        assert((a + b)[0] == a[0]);
        lemma_sent_cost_append(tc, a.drop_first(), b);
    }
}

/// The sentences stored for each rule, as sequences.
pub open spec fn sents_view(s: Seq<Vec<TIdx>>) -> Seq<Seq<TIdx>> {
    s.map_values(|v: Vec<TIdx>| v@)
}

/// The sentence a production body denotes once every rule it mentions has a
/// stored sentence: a terminal stands for itself, a rule for its stored
/// sentence.
pub open spec fn sent_of_body(body: Seq<Symbol>, sents: Seq<Seq<TIdx>>) -> Seq<TIdx>
    decreases body.len(),
{
    if body.len() == 0 {
        Seq::empty()
    } else {
        (match body[0] {
            Symbol::Term(t) => seq![t],
            Symbol::Nonterm(m) => sents[m.0 as int],
        }) + sent_of_body(body.drop_first(), sents)
    }
}

pub(crate) proof fn lemma_sent_of_body_snoc(body: Seq<Symbol>, x: Symbol, sents: Seq<Seq<TIdx>>)
    ensures
        sent_of_body(body.push(x), sents) == sent_of_body(body, sents) + (match x {
            Symbol::Term(t) => seq![t],
            Symbol::Nonterm(m) => sents[m.0 as int],
        }),
    decreases body.len(),
{
    let part = match x {
        Symbol::Term(t) => seq![t],
        Symbol::Nonterm(m) => sents[m.0 as int],
    };
    if body.len() == 0 {
        assert(body.push(x)[0] == x);
        assert(body.push(x).drop_first() =~= Seq::<Symbol>::empty());
        assert(sent_of_body(Seq::<Symbol>::empty(), sents) == Seq::<TIdx>::empty());
        assert(sent_of_body(body.push(x), sents) == part + Seq::<TIdx>::empty());
        assert(part + Seq::<TIdx>::empty() =~= Seq::<TIdx>::empty() + part);
        assert(sent_of_body(body, sents) == Seq::<TIdx>::empty());
    } else {
        assert(body.push(x)[0] == body[0]);
        assert(body.push(x).drop_first() =~= body.drop_first().push(x));
        lemma_sent_of_body_snoc(body.drop_first(), x, sents);
        let h = match body[0] {
            Symbol::Term(t) => seq![t],
            Symbol::Nonterm(m) => sents[m.0 as int],
        };
        assert(sent_of_body(body.push(x), sents) == h + (sent_of_body(body.drop_first(), sents)
            + part));
        assert(h + (sent_of_body(body.drop_first(), sents) + part) =~= (h + sent_of_body(
            body.drop_first(),
            sents,
        )) + part);
    }
}

/// The denoted sentence depends only on the stored sentences of the rules
/// the body mentions.
pub(crate) proof fn lemma_sent_of_body_congruence(
    body: Seq<Symbol>,
    s1: Seq<Seq<TIdx>>,
    s2: Seq<Seq<TIdx>>,
)
    requires
        forall|k: int|
            0 <= k < body.len() ==> match #[trigger] body[k] {
                Symbol::Nonterm(m) => 0 <= m.0 < s1.len() && 0 <= m.0 < s2.len() && s1[m.0 as int]
                    == s2[m.0 as int],
                Symbol::Term(_) => true,
            },
    ensures
        sent_of_body(body, s1) == sent_of_body(body, s2),
    decreases body.len(),
{
    if body.len() > 0 {
        assert forall|k: int|
            0 <= k < body.drop_first().len() implies match #[trigger] body.drop_first()[k] {
            Symbol::Nonterm(m) => 0 <= m.0 < s1.len() && 0 <= m.0 < s2.len() && s1[m.0 as int]
                == s2[m.0 as int],
            Symbol::Term(_) => true,
        } by {
            assert(body.drop_first()[k] == body[k + 1]);
        }
        lemma_sent_of_body_congruence(body.drop_first(), s1, s2);
    }
}

/// The stored sentence of each finished rule decomposes along one of its
/// cheapest productions into the stored sentences of the rules it mentions.
pub open spec fn sent_decomposes(
    g: &YaccGrammar,
    tc: Seq<u8>,
    costs: Seq<u32>,
    sents: Seq<Seq<TIdx>>,
    i: int,
) -> bool {
    exists|p: int|
        0 <= p < g.prod_bodies().len() && (#[trigger] g.prod_owners()[p]).0 == i && prod_cost(
            g,
            tc,
            costs_seq(costs),
            p,
        ) == costs[i] as int && sents[i] == sent_of_body(g.prod_bodies()[p], sents)
}

/// The cost of a minimal sentence for each rule, together with one such
/// sentence, built bottom-up as each rule is finished.
#[verifier::loop_isolation(false)]
#[verifier::rlimit(100)]
pub(crate) fn min_costs_build(grm: &YaccGrammar, term_costs: &Vec<u8>) -> (r: (
    Vec<u32>,
    Vec<Vec<TIdx>>,
))
    requires
        grm.wf(),
        term_costs@.len() == grm.t_names().len(),
        exists|cw: Seq<int>| productive_witness(grm, term_costs@, cw),
    ensures
        r.0@.len() == grm.nt_names().len(),
        forall|i: int| 0 <= i < r.0@.len() ==> #[trigger] entry_derivable(grm, term_costs@, r.0@, i),
        forall|i: int, c: int, h: nat|
            0 <= i < r.0@.len() && #[trigger] derives_cost(grm, term_costs@, i, c, h) ==> r.0@[i] as int
                <= c,
        forall|i: int| 0 <= i < r.0@.len() ==> #[trigger] entry_attained(grm, term_costs@, r.0@, i),
        forall|p: int|
            0 <= p < grm.prod_bodies().len() ==> prod_cost(grm, term_costs@, costs_seq(r.0@), p)
                >= r.0@[(#[trigger] grm.prod_owners()[p]).0 as int] as int,
        r.1@.len() == grm.nt_names().len(),
        forall|i: int|
            0 <= i < r.1@.len() ==> sent_cost(term_costs@, (#[trigger] r.1@[i])@) == r.0@[i] as int,
        forall|i: int, q: int|
            0 <= i < r.1@.len() && 0 <= q < r.1@[i]@.len() ==> (#[trigger] r.1@[i]@[q]).0
                < grm.t_names().len(),
        forall|i: int|
            0 <= i < r.1@.len() ==> #[trigger] sent_decomposes(
                grm,
                term_costs@,
                r.0@,
                sents_view(r.1@),
                i,
            ),
{
    let ghost tc = term_costs@;
    let ghost cw = choose|cw: Seq<int>| productive_witness(grm, tc, cw);
    let nn = grm.nonterms_len() as usize;
    let np = grm.prods_len() as usize;
    let mut costs: Vec<u32> = Vec::new();
    let mut done: Vec<bool> = Vec::new();
    let mut sents: Vec<Vec<TIdx>> = Vec::new();
    let mut z: usize = 0;
    while z < nn
        invariant
            z <= nn,
            costs@.len() == z,
            done@.len() == z,
            sents@.len() == z,
            forall|i: int| 0 <= i < z ==> costs@[i] == 0u32 && !done@[i],
            forall|i: int| 0 <= i < z ==> (#[trigger] sents@[i])@.len() == 0,
        decreases nn - z,
    {
        costs.push(0);
        done.push(false);
        sents.push(Vec::new());
        z = z + 1;
    }
    proof {
        crate::reach::lemma_count_true_bounds(done@);
        lemma_count_zero(done@);
    }
    let mut ndone: usize = 0;
    while ndone < nn
        invariant
            sents@.len() == nn,
            forall|i: int|
                0 <= i < nn && done@[i] ==> sent_cost(tc, (#[trigger] sents@[i])@) == costs@[i] as int,
            forall|i: int, q: int|
                0 <= i < nn && 0 <= q < sents@[i]@.len() ==> (#[trigger] sents@[i]@[q]).0
                    < grm.t_names().len(),
            forall|i: int|
                0 <= i < nn && done@[i] ==> exists|p: int|
                    0 <= p < np && (#[trigger] grm.prod_owners()[p]).0 == i && complete_prod(
                        grm,
                        done@,
                        p,
                    ) && prod_cost(grm, tc, costs_seq(costs@), p) == costs@[i] as int
                        && sents_view(sents@)[i] == sent_of_body(
                        grm.prod_bodies()[p],
                        sents_view(sents@),
                    ),
            costs@.len() == nn,
            done@.len() == nn,
            nn == grm.nt_names().len(),
            np == grm.prod_bodies().len(),
            tc.len() == grm.t_names().len(),
            tc == term_costs@,
            ndone as int == crate::reach::count_true(done@),
            ndone <= nn,
            productive_witness(grm, tc, cw),
            min_inv(grm, tc, costs_seq(costs@), done@),
            forall|i: int|
                0 <= i < nn && done@[i] ==> exists|h: nat|
                    #[trigger] derives_cost(grm, tc, i, costs@[i] as int, h),
            forall|i: int|
                0 <= i < nn && done@[i] ==> exists|p: int|
                    0 <= p < np && (#[trigger] grm.prod_owners()[p]).0 == i && complete_prod(
                        grm,
                        done@,
                        p,
                    ) && prod_cost(grm, tc, costs_seq(costs@), p) == costs@[i] as int,
            forall|p: int|
                0 <= p < np && (grm.prod_owners()[p]).0 < nn
                    && done@[grm.prod_owners()[p].0 as int] && #[trigger] complete_prod(
                    grm,
                    done@,
                    p,
                ) ==> prod_cost(grm, tc, costs_seq(costs@), p) >= costs@[grm.prod_owners()[p].0 as int] as int,
            forall|i: int, p: int|
                #![trigger complete_prod(grm, done@, p), done@[i]]
                0 <= i < nn && done@[i] && 0 <= p < np && (grm.prod_owners()[p]).0 < nn
                    && !done@[grm.prod_owners()[p].0 as int] && complete_prod(grm, done@, p)
                    ==> prod_cost(grm, tc, costs_seq(costs@), p) >= costs@[i] as int,
            forall|i: int| 0 <= i < nn && !done@[i] ==> costs@[i] == 0u32,
            forall|i: int| 0 <= i < nn && done@[i] ==> costs@[i] as int <= cw[i],
        decreases nn - ndone,
    {
        let mut have = false;
        let mut best_i: usize = 0;
        let mut best_p: usize = 0;
        let mut best_c: u64 = 0;
        let mut i: usize = 0;
        while i < nn
            invariant
                i <= nn,
                have ==> best_i < nn && !done@[best_i as int] && best_p < np
                    && (grm.prod_owners()[best_p as int]).0 == best_i && complete_prod(
                    grm,
                    done@,
                    best_p as int,
                ) && prod_cost(grm, tc, costs_seq(costs@), best_p as int) == best_c as int,
                forall|x: int, y: int|
                    0 <= x < i && !done@[x] && 0 <= y < grm.rule_prod_lists()[x].len()
                        && complete_prod(grm, done@, (#[trigger] grm.rule_prod_lists()[x][y]).0 as int)
                        ==> have && prod_cost(
                        grm,
                        tc,
                        costs_seq(costs@),
                        grm.rule_prod_lists()[x][y].0 as int,
                    ) >= best_c as int,
            decreases nn - i,
        {
            if !done[i] {
                let lists = grm.nonterm_to_prods(NTIdx(i));
                let nj = lists.len();
                let mut j: usize = 0;
                while j < nj
                    invariant
                        0 <= i < nn,
                        j <= nj,
                        !done@[i as int],
                        nj == grm.rule_prod_lists()[i as int].len(),
                        lists@ == grm.rule_prod_lists()[i as int],
                        have ==> best_i < nn && !done@[best_i as int] && best_p < np
                            && (grm.prod_owners()[best_p as int]).0 == best_i && complete_prod(
                            grm,
                            done@,
                            best_p as int,
                        ) && prod_cost(grm, tc, costs_seq(costs@), best_p as int) == best_c as int,
                        forall|x: int, y: int|
                            0 <= x < i && !done@[x] && 0 <= y < grm.rule_prod_lists()[x].len()
                                && complete_prod(
                                grm,
                                done@,
                                (#[trigger] grm.rule_prod_lists()[x][y]).0 as int,
                            ) ==> have && prod_cost(
                                grm,
                                tc,
                                costs_seq(costs@),
                                grm.rule_prod_lists()[x][y].0 as int,
                            ) >= best_c as int,
                        forall|y: int|
                            0 <= y < j && complete_prod(
                                grm,
                                done@,
                                (#[trigger] grm.rule_prod_lists()[i as int][y]).0 as int,
                            ) ==> have && prod_cost(
                                grm,
                                tc,
                                costs_seq(costs@),
                                grm.rule_prod_lists()[i as int][y].0 as int,
                            ) >= best_c as int,
                    decreases nj - j,
                {
                    let p = lists[j];
                    let body = grm.prod(p);
                    let nk = body.len();
                    let mut ok = true;
                    let mut sum: u64 = 0;
                    let mut k: usize = 0;
                    proof {
                        assert(body@.take(0) =~= Seq::<Symbol>::empty());
                    }
                    while k < nk && ok
                        invariant
                            k <= nk,
                            0 <= (p.0 as int) < np,
                            body@ == grm.prod_bodies()[p.0 as int],
                            nk == body@.len(),
                            ok ==> sum as int == body_cost(tc, costs_seq(costs@), body@.take(k as int)),
                            ok ==> forall|kk: int|
                                0 <= kk < k ==> match #[trigger] body@[kk] {
                                    Symbol::Nonterm(m) => 0 <= m.0 < nn && done@[m.0 as int],
                                    Symbol::Term(_) => true,
                                },
                            !ok ==> exists|kk: int|
                                0 <= kk < nk && #[trigger] body@[kk] is Nonterm
                                    && !done@[body@[kk]->Nonterm_0.0 as int],
                        decreases nk - k,
                    {
                        proof {
                            assert(crate::grammar::sym_idx_valid(
                                body@[k as int],
                                grm.nt_names().len(),
                                grm.t_names().len(),
                            ));
                            assert(body@.take(k as int + 1) =~= body@.take(k as int).push(
                                body@[k as int],
                            ));
                            lemma_body_cost_snoc(
                                tc,
                                costs_seq(costs@),
                                body@.take(k as int),
                                body@[k as int],
                            );
                            lemma_take_bound(grm, tc, costs_seq(costs@), body@, k as int + 1);
                        }
                        match body[k] {
                            Symbol::Term(t) => {
                                sum = sum + (term_costs[t.0] as u64);
                            },
                            Symbol::Nonterm(m) => {
                                if done[m.0] {
                                    sum = sum + (costs[m.0] as u64);
                                } else {
                                    ok = false;
                                }
                            },
                        }
                        k = k + 1;
                    }
                    if ok {
                        proof {
                            assert(body@.take(nk as int) =~= body@);
                            assert(complete_prod(grm, done@, p.0 as int));
                            assert(sum as int == prod_cost(grm, tc, costs_seq(costs@), p.0 as int));
                        }
                        if !have || sum < best_c {
                            have = true;
                            best_i = i;
                            best_p = p.0;
                            best_c = sum;
                        }
                    }
                    proof {
                        assert forall|y: int|
                            0 <= y < j + 1 && complete_prod(
                                grm,
                                done@,
                                (#[trigger] grm.rule_prod_lists()[i as int][y]).0 as int,
                            ) implies have && prod_cost(
                            grm,
                            tc,
                            costs_seq(costs@),
                            grm.rule_prod_lists()[i as int][y].0 as int,
                        ) >= best_c as int by {
                            if y == j {
                                assert(grm.rule_prod_lists()[i as int][y] == p);
                                if !(complete_prod(grm, done@, p.0 as int)) {
                                } else {
                                    assert(ok) by {
                                        if !ok {
                                            let kk = choose|kk: int|
                                                0 <= kk < nk && #[trigger] body@[kk] is Nonterm
                                                    && !done@[body@[kk]->Nonterm_0.0 as int];
                                            assert(false);
                                        }
                                    }
                                }
                            }
                        }
                    }
                    j = j + 1;
                }
            }
            i = i + 1;
        }
        // The scan covered every rule: its best candidate bounds every
        // complete production of every unfinished rule, and one must exist.
        proof {
            assert(crate::reach::count_true(done@) < nn);
            lemma_count_not_all(done@);
            let uj = choose|j: int| 0 <= j < done@.len() && !done@[j];
            assert(cw.len() == grm.nt_names().len());
            assert(0 <= uj < cw.len());
            assert(0 <= cw[uj] < 0xffff_ffff);
            assert(exists|h: nat| derives_cost(grm, tc, uj, cw[uj], h));
            let uh = choose|h: nat| derives_cost(grm, tc, uj, cw[uj], h);
            lemma_ready_exists(grm, tc, done@, uj, cw[uj], uh);
            let rp = choose|p: int|
                0 <= p < grm.prod_bodies().len() && (grm.prod_owners()[p]).0 < done@.len()
                    && !done@[grm.prod_owners()[p].0 as int] && #[trigger] complete_prod(
                    grm,
                    done@,
                    p,
                );
            let ri = grm.prod_owners()[rp].0 as int;
            assert(grm.p_covered(rp));
            let (rx, ry) = choose|x: int, y: int|
                grm.rp_slot(x, y) && (#[trigger] grm.rule_prod_lists()[x][y]).0 == rp;
            assert(rx == ri);
            assert(have);
            assert(global_lb(grm, tc, costs_seq(costs@), done@, best_c as int)) by {
                assert forall|p: int|
                    0 <= p < grm.prod_bodies().len() && (grm.prod_owners()[p]).0 < done@.len()
                        && !done@[grm.prod_owners()[p].0 as int] && #[trigger] complete_prod(
                        grm,
                        done@,
                        p,
                    ) implies prod_cost(grm, tc, costs_seq(costs@), p) >= best_c as int by {
                    assert(grm.p_covered(p));
                    let (x, y) = choose|x: int, y: int|
                        grm.rp_slot(x, y) && (#[trigger] grm.rule_prod_lists()[x][y]).0 == p;
                    assert(x == grm.prod_owners()[p].0 as int);
                }
            }
            // The chosen value is below the witness, so it fits in a `u32`.
            let bh = choose|h: nat| derives_cost(grm, tc, best_i as int, cw[best_i as int], h);
            lemma_candidate_min(
                grm,
                tc,
                costs_seq(costs@),
                done@,
                best_c as int,
                best_i as int,
                cw[best_i as int],
                bh,
            );
            assert(best_c as int <= cw[best_i as int]);
            assert(best_c < 0xffff_ffff);
        }
        let bc32: u32 = best_c as u32;
        // Build the minimal sentence for the finished rule from its cheapest
        // production and the sentences of the rules that production mentions.
        let bbody = grm.prod(PIdx(best_p));
        let bnk = bbody.len();
        let mut new_sent: Vec<TIdx> = Vec::new();
        let mut bk: usize = 0;
        proof {
            assert(bbody@.take(0) =~= Seq::<Symbol>::empty());
        }
        while bk < bnk
            invariant
                bk <= bnk,
                bbody@ == grm.prod_bodies()[best_p as int],
                bnk == bbody@.len(),
                complete_prod(grm, done@, best_p as int),
                sent_cost(tc, new_sent@) == body_cost(tc, costs_seq(costs@), bbody@.take(bk as int)),
                new_sent@ == sent_of_body(bbody@.take(bk as int), sents_view(sents@)),
                forall|q: int|
                    0 <= q < new_sent@.len() ==> (#[trigger] new_sent@[q]).0 < grm.t_names().len(),
            decreases bnk - bk,
        {
            let ghost pre = new_sent@;
            proof {
                assert(crate::grammar::sym_idx_valid(
                    bbody@[bk as int],
                    grm.nt_names().len(),
                    grm.t_names().len(),
                ));
                assert(bbody@.take(bk as int + 1) =~= bbody@.take(bk as int).push(
                    bbody@[bk as int],
                ));
                lemma_body_cost_snoc(tc, costs_seq(costs@), bbody@.take(bk as int), bbody@[bk as int]);
                lemma_sent_of_body_snoc(
                    bbody@.take(bk as int),
                    bbody@[bk as int],
                    sents_view(sents@),
                );
            }
            match bbody[bk] {
                Symbol::Term(t) => {
                    new_sent.push(t);
                    proof {
                        assert(new_sent@ =~= pre + seq![t]);
                        lemma_sent_cost_append(tc, pre, seq![t]);
                        assert(sent_cost(tc, seq![t]) == tc[t.0 as int]) by {
                            assert(seq![t].drop_first() =~= Seq::<TIdx>::empty());
                            assert(sent_cost(tc, Seq::<TIdx>::empty()) == 0);
                            assert(seq![t][0] == t);
                            assert(sent_cost(tc, seq![t]) == tc[seq![t][0].0 as int] + sent_cost(
                                tc,
                                seq![t].drop_first(),
                            ));
                        }
                    }
                },
                Symbol::Nonterm(m) => {
                    let sub = &sents[m.0];
                    let subn = sub.len();
                    let mut sq: usize = 0;
                    while sq < subn
                        invariant
                            sq <= subn,
                            subn == sents@[m.0 as int]@.len(),
                            sub@ == sents@[m.0 as int]@,
                            new_sent@ == pre + sents@[m.0 as int]@.take(sq as int),
                        decreases subn - sq,
                    {
                        let ghost pre2 = new_sent@;
                        new_sent.push(sub[sq]);
                        proof {
                            assert(new_sent@ =~= pre + sents@[m.0 as int]@.take(sq as int + 1));
                        }
                        sq = sq + 1;
                    }
                    proof {
                        assert(sents@[m.0 as int]@.take(subn as int) =~= sents@[m.0 as int]@);
                        assert(new_sent@ == pre + sents@[m.0 as int]@);
                        lemma_sent_cost_append(tc, pre, sents@[m.0 as int]@);
                        assert(done@[m.0 as int]);
                        assert(sent_cost(tc, sents@[m.0 as int]@) == costs@[m.0 as int] as int);
                    }
                },
            }
            bk = bk + 1;
        }
        proof {
            assert(bbody@.take(bnk as int) =~= bbody@);
            assert(sent_cost(tc, new_sent@) == prod_cost(grm, tc, costs_seq(costs@), best_p as int));
            assert(new_sent@ == sent_of_body(grm.prod_bodies()[best_p as int], sents_view(sents@)));
        }
        let ghost c0 = costs_seq(costs@);
        let ghost d0 = done@;
        let ghost bi = best_i as int;
        let ghost sv_pre = sents_view(sents@);
        let ghost ns_pre = new_sent@;
        costs.set(best_i, bc32);
        done.set(best_i, true);
        sents.set(best_i, new_sent);
        ndone = ndone + 1;
        proof {
            let c1 = costs_seq(costs@);
            let d1 = done@;
            assert(c1 =~= c0.update(bi, bc32 as int));
            crate::reach::lemma_count_true_update(d0, bi);
            lemma_min_step(grm, tc, cw, c0, d0, c1, d1, bi, best_p as int, bc32 as int);
            // The stored decompositions survive the update: each witness
            // production references only rules finished earlier, whose cost
            // and sentence entries are unchanged.
            let sv0 = sv_pre;
            let sv1 = sents_view(sents@);
            assert(sv1 =~= sv0.update(bi, ns_pre));
            assert forall|i: int|
                0 <= i < nn && done@[i] implies exists|p: int|
                0 <= p < np && (#[trigger] grm.prod_owners()[p]).0 == i && complete_prod(
                    grm,
                    done@,
                    p,
                ) && prod_cost(grm, tc, costs_seq(costs@), p) == costs@[i] as int && sents_view(
                    sents@,
                )[i] == sent_of_body(grm.prod_bodies()[p], sents_view(sents@)) by {
                if i == bi {
                    assert(complete_prod(grm, d0, best_p as int));
                    assert forall|k: int|
                        0 <= k < grm.prod_bodies()[best_p as int].len() implies match #[trigger] grm.prod_bodies()[best_p as int][k] {
                        Symbol::Nonterm(m) => 0 <= m.0 < sv0.len() && 0 <= m.0 < sv1.len() && sv0[
                        m.0 as int] == sv1[m.0 as int] && 0 <= m.0 < c0.len() && 0 <= m.0
                            < c1.len() && c0[m.0 as int] == c1[m.0 as int],
                        Symbol::Term(_) => true,
                    } by {
                        match grm.prod_bodies()[best_p as int][k] {
                            Symbol::Nonterm(m) => {
                                assert(d0[m.0 as int]);
                                assert(m.0 as int != bi);
                            },
                            Symbol::Term(_) => {},
                        }
                    }
                    lemma_sent_of_body_congruence(grm.prod_bodies()[best_p as int], sv0, sv1);
                    lemma_body_cost_congruence(tc, c0, c1, grm.prod_bodies()[best_p as int]);
                    assert(0 <= (best_p as int) && (best_p as int) < np && (
                    grm.prod_owners()[best_p as int]).0 == bi && complete_prod(
                        grm,
                        done@,
                        best_p as int,
                    ) && prod_cost(
                        grm,
                        tc,
                        costs_seq(costs@),
                        best_p as int,
                    ) == costs@[bi] as int && sents_view(sents@)[bi] == sent_of_body(
                        grm.prod_bodies()[best_p as int],
                        sents_view(sents@),
                    ));
                } else {
                    let p = choose|p: int|
                        0 <= p < np && (#[trigger] grm.prod_owners()[p]).0 == i && complete_prod(
                            grm,
                            d0,
                            p,
                        ) && prod_cost(grm, tc, c0, p) == c0[i] && sv0[i] == sent_of_body(
                            grm.prod_bodies()[p],
                            sv0,
                        );
                    assert forall|k: int|
                        0 <= k < grm.prod_bodies()[p].len() implies match #[trigger] grm.prod_bodies()[p][k] {
                        Symbol::Nonterm(m) => 0 <= m.0 < sv0.len() && 0 <= m.0 < sv1.len() && sv0[
                        m.0 as int] == sv1[m.0 as int] && 0 <= m.0 < c0.len() && 0 <= m.0
                            < c1.len() && c0[m.0 as int] == c1[m.0 as int],
                        Symbol::Term(_) => true,
                    } by {
                        match grm.prod_bodies()[p][k] {
                            Symbol::Nonterm(m) => {
                                assert(d0[m.0 as int]);
                                assert(m.0 as int != bi);
                            },
                            Symbol::Term(_) => {},
                        }
                    }
                    lemma_sent_of_body_congruence(grm.prod_bodies()[p], sv0, sv1);
                    lemma_body_cost_congruence(tc, c0, c1, grm.prod_bodies()[p]);
                    assert(0 <= p < np && (grm.prod_owners()[p]).0 == i && complete_prod(
                        grm,
                        done@,
                        p,
                    ) && prod_cost(grm, tc, costs_seq(costs@), p) == costs@[i] as int && sents_view(
                        sents@,
                    )[i] == sent_of_body(grm.prod_bodies()[p], sents_view(sents@)));
                }
            }
        }
    }
    proof {
        assert forall|p: int|
            0 <= p < grm.prod_bodies().len() implies #[trigger] complete_prod(grm, done@, p) by {
            assert forall|k: int|
                0 <= k < grm.prod_bodies()[p].len() implies match #[trigger] grm.prod_bodies()[p][k] {
                Symbol::Nonterm(m) => 0 <= m.0 < done@.len() && done@[m.0 as int],
                Symbol::Term(_) => true,
            } by {
                assert(crate::grammar::sym_idx_valid(
                    grm.prod_bodies()[p][k],
                    grm.nt_names().len(),
                    grm.t_names().len(),
                ));
                assert(crate::reach::count_true(done@) == done@.len());
                lemma_count_full(done@);
            }
        }
        assert(crate::reach::count_true(done@) == done@.len());
        lemma_count_full(done@);
        assert forall|i: int|
            0 <= i < costs@.len() implies #[trigger] entry_derivable(grm, tc, costs@, i) by {
            assert(done@[i]);
            let h = choose|h: nat| #[trigger] derives_cost(grm, tc, i, costs@[i] as int, h);
            assert(derives_cost(grm, tc, i, costs@[i] as int, h));
        }
        assert forall|i: int|
            0 <= i < sents@.len() implies #[trigger] sent_decomposes(
            grm,
            tc,
            costs@,
            sents_view(sents@),
            i,
        ) by {
            assert(done@[i]);
            let p = choose|p: int|
                0 <= p < np && (#[trigger] grm.prod_owners()[p]).0 == i && complete_prod(
                    grm,
                    done@,
                    p,
                ) && prod_cost(grm, tc, costs_seq(costs@), p) == costs@[i] as int && sents_view(
                    sents@,
                )[i] == sent_of_body(grm.prod_bodies()[p], sents_view(sents@));
            assert(0 <= p < grm.prod_bodies().len() && (grm.prod_owners()[p]).0 == i && prod_cost(
                grm,
                tc,
                costs_seq(costs@),
                p,
            ) == costs@[i] as int && sents_view(sents@)[i] == sent_of_body(
                grm.prod_bodies()[p],
                sents_view(sents@),
            ));
        }
        assert forall|i: int|
            0 <= i < costs@.len() implies #[trigger] entry_attained(grm, tc, costs@, i) by {
            assert(done@[i]);
            let p = choose|p: int|
                0 <= p < grm.prod_bodies().len() && (#[trigger] grm.prod_owners()[p]).0 == i
                    && complete_prod(grm, done@, p) && prod_cost(grm, tc, costs_seq(costs@), p)
                    == costs@[i] as int;
            assert(0 <= p < grm.prod_bodies().len() && (grm.prod_owners()[p]).0 == i && prod_cost(
                grm,
                tc,
                costs_seq(costs@),
                p,
            ) == costs@[i] as int);
        }
        assert forall|p: int|
            0 <= p < grm.prod_bodies().len() implies prod_cost(grm, tc, costs_seq(costs@), p)
            >= costs@[(#[trigger] grm.prod_owners()[p]).0 as int] as int by {
            assert(grm.prod_owners()[p].0 < grm.nt_names().len());
            assert(done@[grm.prod_owners()[p].0 as int]);
            assert(complete_prod(grm, done@, p));
        }
    }
    (costs, sents)
}

/// The cost of a minimal sentence for each rule in the grammar, where the
/// cost of a terminal is given by `term_costs`. The result is, per rule, the
/// least cost of any derivable terminal string; it is also a fixed point of
/// the per-production cost equations.
pub fn nonterm_min_costs(grm: &YaccGrammar, term_costs: &Vec<u8>) -> (r: Vec<u32>)
    requires
        grm.wf(),
        term_costs@.len() == grm.t_names().len(),
        exists|cw: Seq<int>| productive_witness(grm, term_costs@, cw),
    ensures
        r@.len() == grm.nt_names().len(),
        forall|i: int| 0 <= i < r@.len() ==> #[trigger] entry_derivable(grm, term_costs@, r@, i),
        forall|i: int, c: int, h: nat|
            0 <= i < r@.len() && #[trigger] derives_cost(grm, term_costs@, i, c, h) ==> r@[i] as int
                <= c,
        forall|i: int| 0 <= i < r@.len() ==> #[trigger] entry_attained(grm, term_costs@, r@, i),
        forall|p: int|
            0 <= p < grm.prod_bodies().len() ==> prod_cost(grm, term_costs@, costs_seq(r@), p)
                >= r@[(#[trigger] grm.prod_owners()[p]).0 as int] as int,
{
    let (costs, _sents) = min_costs_build(grm, term_costs);
    costs
}

/// A fresh all-false sequence counts zero set entries.
proof fn lemma_count_zero(s: Seq<bool>)
    requires
        forall|i: int| 0 <= i < s.len() ==> !s[i],
    ensures
        crate::reach::count_true(s) == 0,
    decreases s.len(),
{
    if s.len() > 0 {
        assert forall|i: int| 0 <= i < s.drop_last().len() implies !s.drop_last()[i] by {
            assert(s.drop_last()[i] == s[i]);
        }
        lemma_count_zero(s.drop_last());
    }
}

/// A fully counted sequence is all set.
proof fn lemma_count_full(s: Seq<bool>)
    requires
        crate::reach::count_true(s) == s.len(),
    ensures
        forall|i: int| 0 <= i < s.len() ==> s[i],
    decreases s.len(),
{
    if s.len() > 0 {
        crate::reach::lemma_count_true_bounds(s.drop_last());
        assert(s.last());
        lemma_count_full(s.drop_last());
        assert forall|i: int| 0 <= i < s.len() implies s[i] by {
            if i < s.len() - 1 {
                assert(s.drop_last()[i]);
            }
        }
    }
}

/// A prefix of a production body has a bounded cost when every entry is
/// below the `u32` range.
pub(crate) proof fn lemma_take_bound(g: &YaccGrammar, tc: Seq<u8>, costs: Seq<int>, body: Seq<Symbol>, k: int)
    requires
        g.wf(),
        tc.len() == g.t_names().len(),
        costs.len() == g.nt_names().len(),
        forall|x: int| 0 <= x < costs.len() ==> 0 <= #[trigger] costs[x] < 0x1_0000_0000,
        exists|p: int| 0 <= p < g.prod_bodies().len() && #[trigger] g.prod_bodies()[p] == body,
        0 <= k <= body.len(),
    ensures
        0 <= body_cost(tc, costs, body.take(k)) <= k * 0x1_0000_0000,
{
    let p = choose|p: int| 0 <= p < g.prod_bodies().len() && #[trigger] g.prod_bodies()[p] == body;
    assert forall|j: int|
        0 <= j < body.take(k).len() implies match #[trigger] body.take(k)[j] {
        Symbol::Nonterm(m) => 0 <= m.0 < costs.len(),
        Symbol::Term(t) => 0 <= t.0 < tc.len(),
    } by {
        assert(body.take(k)[j] == body[j]);
        assert(crate::grammar::sym_idx_valid(body[j], g.nt_names().len(), g.t_names().len()));
    }
    lemma_body_cost_bound(tc, costs, body.take(k), 0x1_0000_0000);
    assert(body.take(k).len() == k);
}

/// One finishing step of the minimum-cost search preserves its invariants.
#[verifier::rlimit(100)]
proof fn lemma_min_step(
    g: &YaccGrammar,
    tc: Seq<u8>,
    cw: Seq<int>,
    c0: Seq<int>,
    d0: Seq<bool>,
    c1: Seq<int>,
    d1: Seq<bool>,
    bi: int,
    bp: int,
    bc: int,
)
    requires
        g.wf(),
        tc.len() == g.t_names().len(),
        productive_witness(g, tc, cw),
        min_inv(g, tc, c0, d0),
        global_lb(g, tc, c0, d0, bc),
        c1 == c0.update(bi, bc),
        d1 == d0.update(bi, true),
        0 <= bi < d0.len(),
        !d0[bi],
        0 <= bp < g.prod_bodies().len(),
        (g.prod_owners()[bp]).0 == bi,
        complete_prod(g, d0, bp),
        prod_cost(g, tc, c0, bp) == bc,
        bc >= 0,
        bc <= cw[bi],
        forall|i: int|
            0 <= i < d0.len() && d0[i] ==> exists|h: nat|
                #[trigger] derives_cost(g, tc, i, c0[i], h),
        forall|i: int|
            0 <= i < d0.len() && d0[i] ==> exists|p: int|
                0 <= p < g.prod_bodies().len() && (#[trigger] g.prod_owners()[p]).0 == i
                    && complete_prod(g, d0, p) && prod_cost(g, tc, c0, p) == c0[i],
        forall|p: int|
            0 <= p < g.prod_bodies().len() && (g.prod_owners()[p]).0 < d0.len()
                && d0[g.prod_owners()[p].0 as int] && #[trigger] complete_prod(g, d0, p)
                ==> prod_cost(g, tc, c0, p) >= c0[g.prod_owners()[p].0 as int],
        forall|i: int, p: int|
            #![trigger complete_prod(g, d0, p), d0[i]]
            0 <= i < d0.len() && d0[i] && 0 <= p < g.prod_bodies().len()
                && (g.prod_owners()[p]).0 < d0.len() && !d0[g.prod_owners()[p].0 as int]
                && complete_prod(g, d0, p) ==> prod_cost(g, tc, c0, p) >= c0[i],
        forall|i: int| 0 <= i < d0.len() && !d0[i] ==> c0[i] == 0,
        forall|i: int| 0 <= i < d0.len() && d0[i] ==> c0[i] <= cw[i],
    ensures
        min_inv(g, tc, c1, d1),
        forall|i: int|
            0 <= i < d1.len() && d1[i] ==> exists|h: nat|
                #[trigger] derives_cost(g, tc, i, c1[i], h),
        forall|i: int|
            0 <= i < d1.len() && d1[i] ==> exists|p: int|
                0 <= p < g.prod_bodies().len() && (#[trigger] g.prod_owners()[p]).0 == i
                    && complete_prod(g, d1, p) && prod_cost(g, tc, c1, p) == c1[i],
        forall|p: int|
            0 <= p < g.prod_bodies().len() && (g.prod_owners()[p]).0 < d1.len()
                && d1[g.prod_owners()[p].0 as int] && #[trigger] complete_prod(g, d1, p)
                ==> prod_cost(g, tc, c1, p) >= c1[g.prod_owners()[p].0 as int],
        forall|i: int, p: int|
            #![trigger complete_prod(g, d1, p), d1[i]]
            0 <= i < d1.len() && d1[i] && 0 <= p < g.prod_bodies().len()
                && (g.prod_owners()[p]).0 < d1.len() && !d1[g.prod_owners()[p].0 as int]
                && complete_prod(g, d1, p) ==> prod_cost(g, tc, c1, p) >= c1[i],
        forall|i: int| 0 <= i < d1.len() && !d1[i] ==> c1[i] == 0,
        forall|i: int| 0 <= i < d1.len() && d1[i] ==> c1[i] <= cw[i],
{
    let nn = d0.len() as int;
    // Bodies of productions complete before the step keep their cost, and a
    // production complete after but not before the step mentions `bi`.
    assert forall|p: int|
        0 <= p < g.prod_bodies().len() && #[trigger] complete_prod(g, d0, p) implies prod_cost(
        g,
        tc,
        c1,
        p,
    ) == prod_cost(g, tc, c0, p) && complete_prod(g, d1, p) by {
        assert forall|k: int|
            0 <= k < g.prod_bodies()[p].len() implies match #[trigger] g.prod_bodies()[p][k] {
            Symbol::Nonterm(m) => 0 <= m.0 < c0.len() && 0 <= m.0 < c1.len() && c0[m.0 as int]
                == c1[m.0 as int],
            Symbol::Term(_) => true,
        } by {
            match g.prod_bodies()[p][k] {
                Symbol::Nonterm(m) => {
                    assert(d0[m.0 as int]);
                    assert(m.0 as int != bi);
                },
                Symbol::Term(_) => {},
            }
        }
        lemma_body_cost_congruence(tc, c1, c0, g.prod_bodies()[p]);
    }
    assert forall|p: int|
        0 <= p < g.prod_bodies().len() && #[trigger] complete_prod(g, d1, p) && !complete_prod(
        g,
        d0,
        p,
    ) implies prod_cost(g, tc, c1, p) >= bc by {
        let k = choose|k: int|
            0 <= k < g.prod_bodies()[p].len() && !(match #[trigger] g.prod_bodies()[p][k] {
                Symbol::Nonterm(m) => 0 <= m.0 < d0.len() && d0[m.0 as int],
                Symbol::Term(_) => true,
            });
        assert(g.prod_bodies()[p][k] is Nonterm);
        let m = g.prod_bodies()[p][k]->Nonterm_0;
        assert(crate::grammar::sym_idx_valid(
            g.prod_bodies()[p][k],
            g.nt_names().len(),
            g.t_names().len(),
        ));
        assert(m.0 as int == bi);
        assert forall|j: int|
            0 <= j < g.prod_bodies()[p].len() implies match #[trigger] g.prod_bodies()[p][j] {
            Symbol::Nonterm(mm) => 0 <= mm.0 < c1.len(),
            Symbol::Term(t) => 0 <= t.0 < tc.len(),
        } by {
            assert(crate::grammar::sym_idx_valid(
                g.prod_bodies()[p][j],
                g.nt_names().len(),
                g.t_names().len(),
            ));
        }
        lemma_body_cost_member(tc, c1, g.prod_bodies()[p], k);
        assert(sym_cost(tc, c1, g.prod_bodies()[p][k]) == bc);
    }
    // `bc` is at least every already-fixed value.
    assert forall|i: int| 0 <= i < nn && d0[i] implies c0[i] <= bc by {
        assert(complete_prod(g, d0, bp));
    }
    // Minimality at `bi`.
    assert forall|c: int, h: nat| #[trigger] derives_cost(g, tc, bi, c, h) implies bc <= c by {
        lemma_candidate_min(g, tc, c0, d0, bc, bi, c, h);
    }
    // Derivability at `bi`.
    assert forall|k: int|
        0 <= k < g.prod_bodies()[bp].len() implies match #[trigger] g.prod_bodies()[bp][k] {
        Symbol::Nonterm(m) => 0 <= m.0 < d0.len() && d0[m.0 as int],
        Symbol::Term(t) => 0 <= t.0 < tc.len(),
    } by {
        assert(crate::grammar::sym_idx_valid(
            g.prod_bodies()[bp][k],
            g.nt_names().len(),
            g.t_names().len(),
        ));
    }
    lemma_body_compose(g, tc, c0, d0, g.prod_bodies()[bp]);
    let hb = choose|h: nat|
        body_derives(g, tc, g.prod_bodies()[bp], body_cost(tc, c0, g.prod_bodies()[bp]), h);
    assert(derives_cost(g, tc, bi, bc, hb + 1));
    assert forall|i: int|
        0 <= i < d1.len() && d1[i] implies exists|h: nat|
        #[trigger] derives_cost(g, tc, i, c1[i], h) by {
        if i == bi {
            assert(derives_cost(g, tc, bi, c1[bi], hb + 1));
        } else {
            let h = choose|h: nat| #[trigger] derives_cost(g, tc, i, c0[i], h);
            assert(derives_cost(g, tc, i, c1[i], h));
        }
    }
    // The fixed-point facts.
    assert forall|i: int|
        0 <= i < d1.len() && d1[i] implies exists|p: int|
        0 <= p < g.prod_bodies().len() && (#[trigger] g.prod_owners()[p]).0 == i && complete_prod(
            g,
            d1,
            p,
        ) && prod_cost(g, tc, c1, p) == c1[i] by {
        if i == bi {
            assert(complete_prod(g, d1, bp) && prod_cost(g, tc, c1, bp) == c1[bi]);
        } else {
            let p = choose|p: int|
                0 <= p < g.prod_bodies().len() && (#[trigger] g.prod_owners()[p]).0 == i
                    && complete_prod(g, d0, p) && prod_cost(g, tc, c0, p) == c0[i];
            assert(complete_prod(g, d1, p) && prod_cost(g, tc, c1, p) == c1[i]);
        }
    }
}

/// Rule `n` has unbounded maximal sentences: it lies on a derivation cycle,
/// or derives something that does.
pub open spec fn inf_class(g: &YaccGrammar, n: int) -> bool {
    exists|m: int|
        0 <= m < g.nt_names().len() && (m == n || crate::reach::reachable(g, n, m))
            && #[trigger] crate::reach::reachable(g, m, m)
}

/// A witness bounding the finite maximal costs: a vector dominating the
/// per-production cost equations on every rule outside the infinite class.
pub open spec fn max_bound_witness(g: &YaccGrammar, tc: Seq<u8>, mx: Seq<int>) -> bool {
    &&& mx.len() == g.nt_names().len()
    &&& forall|n: int| 0 <= n < mx.len() ==> #[trigger] mx[n] >= 0
    &&& forall|n: int| 0 <= n < mx.len() && !inf_class(g, n) ==> #[trigger] mx[n] < 0xffff_ffff
    &&& forall|p: int|
        0 <= p < g.prod_bodies().len() && (g.prod_owners()[p]).0 < mx.len() && !inf_class(
            g,
            (#[trigger] g.prod_owners()[p]).0 as int,
        ) ==> prod_cost(g, tc, mx, p) <= mx[g.prod_owners()[p].0 as int]
}

/// A step into the infinite class puts the source in the infinite class.
proof fn lemma_inf_step(g: &YaccGrammar, i: int, m: int)
    requires
        g.wf(),
        crate::reach::step(g, i, m),
        inf_class(g, m),
    ensures
        inf_class(g, i),
{
    let w = choose|w: int|
        0 <= w < g.nt_names().len() && (w == m || crate::reach::reachable(g, m, w))
            && #[trigger] crate::reach::reachable(g, w, w);
    crate::reach::lemma_step_reachable(g, i, m);
    if w == m {
        assert(crate::reach::reachable(g, i, w));
    } else {
        crate::reach::lemma_has_path_trans(g, i, m, w);
    }
}

/// Body costs are monotone in the per-rule entries.
proof fn lemma_body_cost_mono(tc: Seq<u8>, ca: Seq<int>, cb: Seq<int>, body: Seq<Symbol>)
    requires
        forall|k: int|
            0 <= k < body.len() ==> match #[trigger] body[k] {
                Symbol::Nonterm(m) => 0 <= m.0 < ca.len() && 0 <= m.0 < cb.len() && ca[m.0 as int]
                    <= cb[m.0 as int],
                Symbol::Term(_) => true,
            },
    ensures
        body_cost(tc, ca, body) <= body_cost(tc, cb, body),
    decreases body.len(),
{
    if body.len() > 0 {
        assert forall|k: int|
            0 <= k < body.drop_first().len() implies match #[trigger] body.drop_first()[k] {
            Symbol::Nonterm(m) => 0 <= m.0 < ca.len() && 0 <= m.0 < cb.len() && ca[m.0 as int]
                <= cb[m.0 as int],
            Symbol::Term(_) => true,
        } by {
            assert(body.drop_first()[k] == body[k + 1]);
        }
        lemma_body_cost_mono(tc, ca, cb, body.drop_first());
    }
}

/// Build a chain of unfinished rules by repeatedly following a step to an
/// unfinished successor.
#[verifier::rlimit(100)]
proof fn lemma_build_chain(g: &YaccGrammar, done: Seq<bool>, j: int, steps: nat) -> (s: Seq<int>)
    requires
        g.wf(),
        done.len() == g.nt_names().len(),
        0 <= j < done.len(),
        !done[j],
        forall|x: int|
            0 <= x < done.len() && !done[x] ==> exists|y: int|
                0 <= y < done.len() && !done[y] && #[trigger] crate::reach::step(g, x, y),
    ensures
        s.len() == steps + 1,
        s[0] == j,
        forall|t: int| 0 <= t < steps ==> #[trigger] crate::reach::step(g, s[t], s[t + 1]),
        forall|t: int| 0 <= t <= steps ==> 0 <= #[trigger] s[t] < done.len() && !done[s[t]],
    decreases steps,
{
    if steps == 0 {
        let s = seq![j];
        s
    } else {
        let s0 = lemma_build_chain(g, done, j, (steps - 1) as nat);
        let last = s0[steps - 1];
        let y = choose|y: int|
            0 <= y < done.len() && !done[y] && #[trigger] crate::reach::step(g, last, y);
        let s = s0.push(y);
        assert forall|t: int| 0 <= t < steps implies #[trigger] crate::reach::step(g, s[t], s[t + 1]) by {
            if t < steps - 1 {
                assert(s[t] == s0[t] && s[t + 1] == s0[t + 1]);
            } else {
                assert(s[t] == last && s[t + 1] == y);
            }
        }
        s
    }
}

/// Following a chain of steps yields reachability between its ends.
proof fn lemma_chain_reach(g: &YaccGrammar, s: Seq<int>, t1: int, t2: int)
    requires
        g.wf(),
        0 <= t1 < t2 < s.len(),
        forall|t: int| 0 <= t < s.len() - 1 ==> #[trigger] crate::reach::step(g, s[t], s[t + 1]),
    ensures
        crate::reach::reachable(g, s[t1], s[t2]),
    decreases t2 - t1,
{
    if t1 + 1 == t2 {
        crate::reach::lemma_step_reachable(g, s[t1], s[t2]);
    } else {
        lemma_chain_reach(g, s, t1 + 1, t2);
        crate::reach::lemma_step_reachable(g, s[t1], s[t1 + 1]);
        crate::reach::lemma_has_path_trans(g, s[t1], s[t1 + 1], s[t2]);
    }
}

/// If every unfinished rule has an unfinished successor, some unfinished
/// rule lies on a cycle.
proof fn lemma_stuck_cycle(g: &YaccGrammar, done: Seq<bool>, j: int)
    requires
        g.wf(),
        done.len() == g.nt_names().len(),
        0 <= j < done.len(),
        !done[j],
        forall|x: int|
            0 <= x < done.len() && !done[x] ==> exists|y: int|
                0 <= y < done.len() && !done[y] && #[trigger] crate::reach::step(g, x, y),
    ensures
        exists|m: int|
            0 <= m < done.len() && !done[m] && #[trigger] crate::reach::reachable(g, m, m),
{
    let nn = done.len() as nat;
    let s = lemma_build_chain(g, done, j, nn);
    if !(exists|m: int|
        0 <= m < done.len() && !done[m] && #[trigger] crate::reach::reachable(g, m, m)) {
        assert(s.no_duplicates()) by {
            assert forall|x: int, y: int| 0 <= x < y < s.len() implies s[x] != s[y] by {
                if s[x] == s[y] {
                    lemma_chain_reach(g, s, x, y);
                    assert(0 <= s[x] < done.len() && !done[s[x]] && crate::reach::reachable(
                        g,
                        s[x],
                        s[x],
                    ));
                    assert(false);
                }
            }
        }
        s.unique_seq_to_set();
        vstd::set_lib::lemma_int_range(0, nn as int);
        assert forall|e: int| s.to_set().contains(e) implies vstd::set_lib::set_int_range(
            0,
            nn as int,
        ).contains(e) by {
            let t = choose|t: int| 0 <= t < s.len() && s[t] == e;
        }
        vstd::set_lib::lemma_len_subset(s.to_set(), vstd::set_lib::set_int_range(0, nn as int));
        assert(s.len() <= nn);
        assert(false);
    }
}

/// A trigger marker for a production slot: production `pp`, position `kk`.
pub open spec fn ref_slot(pp: int, kk: int) -> bool {
    true
}

/// Every rule a production body mentions is finished with a finite value.
pub open spec fn prod_refs_finite(
    g: &YaccGrammar,
    costs: Seq<u32>,
    done: Seq<bool>,
    p: int,
) -> bool {
    forall|k: int|
        0 <= k < g.prod_bodies()[p].len() ==> match #[trigger] g.prod_bodies()[p][k] {
            Symbol::Nonterm(m) => 0 <= m.0 < done.len() && done[m.0 as int] && costs[m.0 as int]
                != 0xffff_ffffu32,
            Symbol::Term(_) => true,
        }
}

/// Entry `i` of a cost vector is attained by some production of rule `i`.
pub open spec fn max_entry_attained(g: &YaccGrammar, tc: Seq<u8>, r: Seq<u32>, i: int) -> bool {
    exists|p: int|
        0 <= p < g.prod_bodies().len() && (#[trigger] g.prod_owners()[p]).0 == i && prod_cost(
            g,
            tc,
            costs_seq(r),
            p,
        ) == r[i] as int
}

/// A finished finite rule is outside the infinite class and below the
/// bounding witness.
pub open spec fn finite_ok(g: &YaccGrammar, mx: Seq<int>, costs: Seq<u32>, i: int) -> bool {
    !inf_class(g, i) && costs[i] as int <= mx[i]
}

/// The invariants of the maximum-cost search.
pub open spec fn max_inv(
    g: &YaccGrammar,
    tc: Seq<u8>,
    mx: Seq<int>,
    costs: Seq<u32>,
    done: Seq<bool>,
) -> bool {
    &&& costs.len() == g.nt_names().len()
    &&& done.len() == g.nt_names().len()
    &&& tc.len() == g.t_names().len()
    &&& max_bound_witness(g, tc, mx)
    // A rule marked infinite lies in the infinite class.
    &&& forall|i: int|
        0 <= i < done.len() && done[i] && costs[i] == 0xffff_ffffu32 ==> #[trigger] inf_class(g, i)
    // Every rule on a cycle is already marked infinite.
    &&& forall|i: int|
        0 <= i < done.len() && #[trigger] crate::reach::reachable(g, i, i) ==> done[i] && costs[i]
            == 0xffff_ffffu32
    // Finished finite rules reference only finished finite rules.
    &&& forall|p: int|
        0 <= p < g.prod_bodies().len() && (g.prod_owners()[p]).0 < done.len() && done[(
        g.prod_owners()[p]).0 as int] && costs[(g.prod_owners()[p]).0 as int] != 0xffff_ffffu32
            ==> #[trigger] prod_refs_finite(g, costs, done, p)
    // Their value is attained by one of their productions.
    &&& forall|i: int|
        0 <= i < done.len() && done[i] && costs[i] != 0xffff_ffffu32 ==> #[trigger] max_entry_attained(
            g,
            tc,
            costs,
            i,
        )
    // And bounds every production of theirs.
    &&& forall|p: int|
        0 <= p < g.prod_bodies().len() && (g.prod_owners()[p]).0 < done.len() && done[(
        g.prod_owners()[p]).0 as int] && costs[(g.prod_owners()[p]).0 as int] != 0xffff_ffffu32
            ==> #[trigger] prod_cost(g, tc, costs_seq(costs), p) <= costs[(g.prod_owners()[p]).0 as int] as int
    // Finished finite rules are outside the infinite class and below the witness.
    &&& forall|i: int|
        0 <= i < done.len() && done[i] && costs[i] != 0xffff_ffffu32 ==> #[trigger] finite_ok(
            g,
            mx,
            costs,
            i,
        )
    // Unfinished rules still hold zero.
    &&& forall|i: int| 0 <= i < done.len() && !done[i] ==> costs[i] == 0u32
}

/// A rule all of whose productions reference only finished finite rules is
/// outside the infinite class.
proof fn lemma_ready_not_inf(
    g: &YaccGrammar,
    tc: Seq<u8>,
    mx: Seq<int>,
    costs: Seq<u32>,
    done: Seq<bool>,
    i: int,
)
    requires
        g.wf(),
        max_inv(g, tc, mx, costs, done),
        0 <= i < done.len(),
        !done[i],
        forall|p: int|
            0 <= p < g.prod_bodies().len() && (#[trigger] g.prod_owners()[p]).0 == i
                ==> prod_refs_finite(g, costs, done, p),
    ensures
        !inf_class(g, i),
{
    if inf_class(g, i) {
        let m = choose|m: int|
            0 <= m < g.nt_names().len() && (m == i || crate::reach::reachable(g, i, m))
                && #[trigger] crate::reach::reachable(g, m, m);
        if m == i {
            assert(done[i]);
        } else {
            crate::reach::lemma_reachable_first_step(g, i, m);
            let b = choose|b: int|
                #[trigger] crate::reach::step(g, i, b) && 0 <= b < g.nt_names().len() && (b == m
                    || crate::reach::reachable(g, b, m));
            let (p, k) = choose|p: int, k: int|
                0 <= p < g.prod_bodies().len() && g.prod_owners()[p] == crate::defs::NTIdx(
                    i as usize,
                ) && 0 <= k < g.prod_bodies()[p].len() && #[trigger] g.prod_bodies()[p][k]
                    == Symbol::Nonterm(crate::defs::NTIdx(b as usize));
            assert(prod_refs_finite(g, costs, done, p));
            assert(done[b] && costs[b] != 0xffff_ffffu32);
            assert(finite_ok(g, mx, costs, b));
            if b == m {
                assert(inf_class(g, b));
            } else {
                assert(inf_class(g, b)) by {
                    assert(0 <= m < g.nt_names().len() && (m == b || crate::reach::reachable(
                        g,
                        b,
                        m,
                    )) && crate::reach::reachable(g, m, m));
                }
            }
            assert(!inf_class(g, b));
        }
    }
}

/// Finishing one rule preserves the maximum-cost invariants; `v` is the new
/// entry, either the infinity marker justified by a reference to an infinite
/// rule, or the finite maximum of the rule's production costs.
#[verifier::rlimit(100)]
proof fn lemma_max_step(
    g: &YaccGrammar,
    tc: Seq<u8>,
    mx: Seq<int>,
    c0: Seq<u32>,
    d0: Seq<bool>,
    c1: Seq<u32>,
    d1: Seq<bool>,
    bi: int,
    v: u32,
)
    requires
        g.wf(),
        max_inv(g, tc, mx, c0, d0),
        0 <= bi < d0.len(),
        !d0[bi],
        c1 == c0.update(bi, v),
        d1 == d0.update(bi, true),
        v == 0xffff_ffffu32 ==> inf_class(g, bi),
        v != 0xffff_ffffu32 ==> {
            &&& !inf_class(g, bi)
            &&& v as int <= mx[bi]
            &&& forall|p: int|
                0 <= p < g.prod_bodies().len() && (#[trigger] g.prod_owners()[p]).0 == bi
                    ==> prod_refs_finite(g, c0, d0, p) && prod_cost(g, tc, costs_seq(c0), p)
                    <= v as int
            &&& exists|p: int|
                0 <= p < g.prod_bodies().len() && (#[trigger] g.prod_owners()[p]).0 == bi
                    && prod_cost(g, tc, costs_seq(c0), p) == v as int
        },
    ensures
        max_inv(g, tc, mx, c1, d1),
{
    // Bodies referencing only old finished rules keep their cost.
    assert forall|p: int|
        0 <= p < g.prod_bodies().len() && #[trigger] prod_refs_finite(g, c0, d0, p) implies prod_cost(
        g,
        tc,
        costs_seq(c1),
        p,
    ) == prod_cost(g, tc, costs_seq(c0), p) && prod_refs_finite(g, c1, d1, p) by {
        assert forall|k: int|
            0 <= k < g.prod_bodies()[p].len() implies match #[trigger] g.prod_bodies()[p][k] {
            Symbol::Nonterm(m) => 0 <= m.0 < costs_seq(c0).len() && 0 <= m.0 < costs_seq(c1).len()
                && costs_seq(c0)[m.0 as int] == costs_seq(c1)[m.0 as int],
            Symbol::Term(_) => true,
        } by {
            match g.prod_bodies()[p][k] {
                Symbol::Nonterm(m) => {
                    assert(d0[m.0 as int]);
                    assert(m.0 as int != bi);
                },
                Symbol::Term(_) => {},
            }
        }
        lemma_body_cost_congruence(tc, costs_seq(c1), costs_seq(c0), g.prod_bodies()[p]);
    }
    assert forall|i: int|
        0 <= i < d1.len() && d1[i] && c1[i] != 0xffff_ffffu32 implies #[trigger] max_entry_attained(
        g,
        tc,
        c1,
        i,
    ) by {
        if i == bi {
            let p = choose|p: int|
                0 <= p < g.prod_bodies().len() && (#[trigger] g.prod_owners()[p]).0 == bi
                    && prod_cost(g, tc, costs_seq(c0), p) == v as int;
            assert(prod_refs_finite(g, c0, d0, p));
            assert(prod_cost(g, tc, costs_seq(c1), p) == c1[i] as int);
        } else {
            assert(max_entry_attained(g, tc, c0, i));
            let p = choose|p: int|
                0 <= p < g.prod_bodies().len() && (#[trigger] g.prod_owners()[p]).0 == i
                    && prod_cost(g, tc, costs_seq(c0), p) == c0[i] as int;
            assert(prod_refs_finite(g, c0, d0, p));
            assert(prod_cost(g, tc, costs_seq(c1), p) == c1[i] as int);
        }
    }
    assert forall|i: int|
        0 <= i < d1.len() && #[trigger] crate::reach::reachable(g, i, i) implies d1[i] && c1[i]
        == 0xffff_ffffu32 by {
        if i == bi {
            if v != 0xffff_ffffu32 {
                assert(inf_class(g, i)) by {
                    assert(0 <= i < g.nt_names().len() && (i == i) && crate::reach::reachable(
                        g,
                        i,
                        i,
                    ));
                }
            }
        }
    }
    assert forall|i: int|
        0 <= i < d1.len() && d1[i] && c1[i] == 0xffff_ffffu32 implies #[trigger] inf_class(
        g,
        i,
    ) by {
        if i != bi {
            assert(d0[i] && c0[i] == 0xffff_ffffu32);
        }
    }
    assert forall|p: int|
        0 <= p < g.prod_bodies().len() && (g.prod_owners()[p]).0 < d1.len() && d1[(
        g.prod_owners()[p]).0 as int] && c1[(g.prod_owners()[p]).0 as int] != 0xffff_ffffu32
        implies #[trigger] prod_refs_finite(g, c1, d1, p) by {
        let o = (g.prod_owners()[p]).0 as int;
        if o == bi {
            assert(prod_refs_finite(g, c0, d0, p));
        } else {
            assert(d0[o] && c0[o] != 0xffff_ffffu32);
            assert(prod_refs_finite(g, c0, d0, p));
        }
    }
    assert forall|p: int|
        0 <= p < g.prod_bodies().len() && (g.prod_owners()[p]).0 < d1.len() && d1[(
        g.prod_owners()[p]).0 as int] && c1[(g.prod_owners()[p]).0 as int] != 0xffff_ffffu32
        implies #[trigger] prod_cost(g, tc, costs_seq(c1), p) <= c1[(g.prod_owners()[p]).0 as int] as int by {
        let o = (g.prod_owners()[p]).0 as int;
        if o == bi {
            assert(prod_refs_finite(g, c0, d0, p));
            assert(prod_cost(g, tc, costs_seq(c0), p) <= v as int);
        } else {
            assert(d0[o] && c0[o] != 0xffff_ffffu32);
            assert(prod_refs_finite(g, c0, d0, p));
            assert(prod_cost(g, tc, costs_seq(c0), p) <= c0[o] as int);
        }
    }
    assert forall|i: int|
        0 <= i < d1.len() && d1[i] && c1[i] != 0xffff_ffffu32 implies #[trigger] finite_ok(
        g,
        mx,
        c1,
        i,
    ) by {
        if i != bi {
            assert(d0[i] && c0[i] != 0xffff_ffffu32);
            assert(finite_ok(g, mx, c0, i));
            assert(c1[i] == c0[i]);
        } else {
            assert(c1[i] == v);
            assert(v != 0xffff_ffffu32);
            assert(!inf_class(g, bi));
            assert(v as int <= mx[bi]);
        }
    }
    assert(c1.len() == g.nt_names().len());
    assert(d1.len() == g.nt_names().len());
    assert(max_bound_witness(g, tc, mx));
    assert(forall|i: int| 0 <= i < d1.len() && !d1[i] ==> c1[i] == 0u32);
    assert(max_inv(g, tc, mx, c1, d1));
}

/// The cost of the maximal sentence for each rule, `u32::MAX` standing for
/// "this rule can generate strings of unbounded length". A rule is unbounded
/// exactly when it lies on a derivation cycle or derives a rule that does;
/// the remaining rules satisfy the maximum-cost equations over their
/// productions.
#[verifier::loop_isolation(false)]
#[verifier::rlimit(100)]
pub fn nonterm_max_costs(grm: &YaccGrammar, term_costs: &Vec<u8>) -> (r: Vec<u32>)
    requires
        grm.wf(),
        term_costs@.len() == grm.t_names().len(),
        exists|mx: Seq<int>| max_bound_witness(grm, term_costs@, mx),
    ensures
        r@.len() == grm.nt_names().len(),
        forall|n: int|
            0 <= n < r@.len() ==> ((r@[n] == 0xffff_ffffu32) <==> #[trigger] inf_class(grm, n)),
        forall|n: int|
            0 <= n < r@.len() && r@[n] != 0xffff_ffffu32 ==> #[trigger] max_entry_attained(
                grm,
                term_costs@,
                r@,
                n,
            ),
        forall|p: int|
            0 <= p < grm.prod_bodies().len() && r@[(#[trigger] grm.prod_owners()[p]).0 as int]
                != 0xffff_ffffu32 ==> prod_cost(grm, term_costs@, costs_seq(r@), p) <= r@[(
            grm.prod_owners()[p]).0 as int] as int,
{
    let ghost tc = term_costs@;
    let ghost mx = choose|mx: Seq<int>| max_bound_witness(grm, tc, mx);
    let nn = grm.nonterms_len() as usize;
    let np = grm.prods_len() as usize;
    let mut costs: Vec<u32> = Vec::new();
    let mut done: Vec<bool> = Vec::new();
    let mut z: usize = 0;
    while z < nn
        invariant
            z <= nn,
            costs@.len() == z,
            done@.len() == z,
            forall|i: int| 0 <= i < z ==> costs@[i] == 0u32 && !done@[i],
        decreases nn - z,
    {
        costs.push(0);
        done.push(false);
        z = z + 1;
    }
    proof {
        lemma_count_zero(done@);
    }
    // First pass: every rule on a cycle is unbounded.
    let mut ndone: usize = 0;
    let mut i: usize = 0;
    while i < nn
        invariant
            i <= nn,
            costs@.len() == nn,
            done@.len() == nn,
            nn == grm.nt_names().len(),
            ndone as int == crate::reach::count_true(done@),
            forall|x: int|
                0 <= x < i ==> (done@[x] <==> crate::reach::reachable(grm, x, x)),
            forall|x: int| i <= x < nn ==> !done@[x],
            forall|x: int|
                0 <= x < nn ==> (done@[x] ==> costs@[x] == 0xffff_ffffu32) && (!done@[x]
                    ==> costs@[x] == 0u32),
        decreases nn - i,
    {
        if grm.has_path(NTIdx(i), NTIdx(i)) {
            proof {
                crate::reach::lemma_count_true_update(done@, i as int);
                crate::reach::lemma_count_true_bounds(done@.update(i as int, true));
            }
            costs.set(i, 0xffff_ffff);
            done.set(i, true);
            ndone = ndone + 1;
        }
        i = i + 1;
    }
    proof {
        assert(max_inv(grm, tc, mx, costs@, done@)) by {
            assert forall|x: int|
                0 <= x < done@.len() && done@[x] && costs@[x] == 0xffff_ffffu32
                implies #[trigger] inf_class(grm, x) by {
                assert(crate::reach::reachable(grm, x, x));
                assert(0 <= x < grm.nt_names().len() && (x == x) && crate::reach::reachable(
                    grm,
                    x,
                    x,
                ));
            }
        }
    }
    proof {
        crate::reach::lemma_count_true_bounds(done@);
    }
    // Second pass: propagate unboundedness and compute the finite maxima,
    // finishing one ready rule at a time.
    while ndone < nn
        invariant
            costs@.len() == nn,
            done@.len() == nn,
            nn == grm.nt_names().len(),
            np == grm.prod_bodies().len(),
            tc == term_costs@,
            ndone as int == crate::reach::count_true(done@),
            ndone <= nn,
            max_bound_witness(grm, tc, mx),
            max_inv(grm, tc, mx, costs@, done@),
        decreases nn - ndone,
    {
        let mut processed = false;
        let mut i: usize = 0;
        let ghost c_in = costs@;
        let ghost d_in = done@;
        let ghost nd_in = ndone as int;
        while i < nn && !processed
            invariant
                i <= nn,
                costs@.len() == nn,
                done@.len() == nn,
                ndone <= nn,
                ndone as int == crate::reach::count_true(done@),
                max_inv(grm, tc, mx, costs@, done@),
                !processed ==> costs@ == c_in && done@ == d_in && ndone as int == nd_in,
                processed ==> ndone as int == nd_in + 1,
                !processed ==> forall|x: int|
                    0 <= x < i && !done@[x] ==> exists|pp: int, kk: int|
                        #[trigger] ref_slot(pp, kk) && 0 <= pp < np && (grm.prod_owners()[pp]).0
                            == x && 0 <= kk < grm.prod_bodies()[pp].len()
                            && grm.prod_bodies()[pp][kk] is Nonterm && !done@[
                            grm.prod_bodies()[pp][kk]->Nonterm_0.0 as int],
            decreases nn - i,
        {
            if !done[i] {
                let lists = grm.nonterm_to_prods(NTIdx(i));
                let nj = lists.len();
                let mut found_inf = false;
                let ghost mut inf_wit: (int, int) = (0, 0);
                let mut all_fin = true;
                let ghost mut und_wit: (int, int) = (0, 0);
                let mut maxv: u64 = 0;
                let mut maxp: usize = 0;
                let mut any = false;
                let mut j: usize = 0;
                while j < nj && !found_inf
                    invariant
                        0 <= i < nn,
                        j <= nj,
                        costs@.len() == nn,
                        done@.len() == nn,
                        !done@[i as int],
                        nj == grm.rule_prod_lists()[i as int].len(),
                        lists@ == grm.rule_prod_lists()[i as int],
                        max_inv(grm, tc, mx, costs@, done@),
                        found_inf ==> 0 <= inf_wit.0 < np && (grm.prod_owners()[inf_wit.0]).0
                            == i && 0 <= inf_wit.1 < grm.prod_bodies()[inf_wit.0].len()
                            && grm.prod_bodies()[inf_wit.0][inf_wit.1] is Nonterm && done@[
                            grm.prod_bodies()[inf_wit.0][inf_wit.1]->Nonterm_0.0 as int] && costs@[
                            grm.prod_bodies()[inf_wit.0][inf_wit.1]->Nonterm_0.0 as int]
                            == 0xffff_ffffu32,
                        !all_fin ==> 0 <= und_wit.0 < np && (grm.prod_owners()[und_wit.0]).0 == i
                            && 0 <= und_wit.1 < grm.prod_bodies()[und_wit.0].len()
                            && grm.prod_bodies()[und_wit.0][und_wit.1] is Nonterm && !done@[
                            grm.prod_bodies()[und_wit.0][und_wit.1]->Nonterm_0.0 as int],
                        !found_inf && all_fin ==> forall|y: int|
                            0 <= y < j ==> prod_refs_finite(
                                grm,
                                costs@,
                                done@,
                                (#[trigger] grm.rule_prod_lists()[i as int][y]).0 as int,
                            ),
                        !found_inf && all_fin ==> forall|y: int|
                            0 <= y < j ==> prod_cost(
                                grm,
                                tc,
                                costs_seq(costs@),
                                (#[trigger] grm.rule_prod_lists()[i as int][y]).0 as int,
                            ) <= maxv as int,
                        any ==> maxp < np && (grm.prod_owners()[maxp as int]).0 == i && prod_cost(
                            grm,
                            tc,
                            costs_seq(costs@),
                            maxp as int,
                        ) == maxv as int && prod_refs_finite(grm, costs@, done@, maxp as int),
                        !found_inf && all_fin && j > 0 ==> any,
                        !any ==> maxv == 0,
                    decreases nj - j,
                {
                    let p = lists[j];
                    let body = grm.prod(p);
                    let nk = body.len();
                    let mut sum: u64 = 0;
                    let mut fin_p = true;
                    let mut k: usize = 0;
                    let ghost af0 = all_fin;
                    proof {
                        assert(body@.take(0) =~= Seq::<Symbol>::empty());
                    }
                    while k < nk && !found_inf
                        invariant
                            k <= nk,
                            all_fin ==> af0,
                            0 <= (p.0 as int) < np,
                            costs@.len() == nn,
                            done@.len() == nn,
                            body@ == grm.prod_bodies()[p.0 as int],
                            nk == body@.len(),
                            (grm.prod_owners()[p.0 as int]).0 == i,
                            sum as int == body_cost(tc, costs_seq(costs@), body@.take(k as int)),
                            fin_p && !found_inf ==> forall|kk: int|
                                0 <= kk < k ==> match #[trigger] body@[kk] {
                                    Symbol::Nonterm(m) => 0 <= m.0 < nn && done@[m.0 as int]
                                        && costs@[m.0 as int] != 0xffff_ffffu32,
                                    Symbol::Term(_) => true,
                                },
                            found_inf ==> 0 <= inf_wit.0 < np && (grm.prod_owners()[inf_wit.0]).0
                                == i && 0 <= inf_wit.1 < grm.prod_bodies()[inf_wit.0].len()
                                && grm.prod_bodies()[inf_wit.0][inf_wit.1] is Nonterm && done@[
                                grm.prod_bodies()[inf_wit.0][inf_wit.1]->Nonterm_0.0 as int]
                                && costs@[grm.prod_bodies()[inf_wit.0][inf_wit.1]->Nonterm_0.0 as int]
                                == 0xffff_ffffu32,
                            !all_fin ==> 0 <= und_wit.0 < np && (grm.prod_owners()[und_wit.0]).0
                                == i && 0 <= und_wit.1 < grm.prod_bodies()[und_wit.0].len()
                                && grm.prod_bodies()[und_wit.0][und_wit.1] is Nonterm && !done@[
                                grm.prod_bodies()[und_wit.0][und_wit.1]->Nonterm_0.0 as int],
                            !fin_p ==> !all_fin,
                        decreases nk - k,
                    {
                        proof {
                            assert(crate::grammar::sym_idx_valid(
                                body@[k as int],
                                grm.nt_names().len(),
                                grm.t_names().len(),
                            ));
                            assert(body@.take(k as int + 1) =~= body@.take(k as int).push(
                                body@[k as int],
                            ));
                            lemma_body_cost_snoc(
                                tc,
                                costs_seq(costs@),
                                body@.take(k as int),
                                body@[k as int],
                            );
                            lemma_take_bound(grm, tc, costs_seq(costs@), body@, k as int + 1);
                        }
                        match body[k] {
                            Symbol::Term(t) => {
                                sum = sum + (term_costs[t.0] as u64);
                            },
                            Symbol::Nonterm(m) => {
                                if done[m.0] {
                                    if costs[m.0] == 0xffff_ffff {
                                        found_inf = true;
                                        proof {
                                            inf_wit = (p.0 as int, k as int);
                                        }
                                    }
                                } else {
                                    fin_p = false;
                                    all_fin = false;
                                    proof {
                                        und_wit = (p.0 as int, k as int);
                                    }
                                }
                                sum = sum + (costs[m.0] as u64);
                            },
                        }
                        k = k + 1;
                    }
                    let ghost any0 = any;
                    let ghost mv0 = maxv;
                    if !found_inf {
                        proof {
                            assert(body@.take(nk as int) =~= body@);
                        }
                        if fin_p {
                            proof {
                                assert(prod_refs_finite(grm, costs@, done@, p.0 as int));
                                assert(sum as int == prod_cost(
                                    grm,
                                    tc,
                                    costs_seq(costs@),
                                    p.0 as int,
                                ));
                            }
                            if !any || sum > maxv {
                                any = true;
                                maxv = sum;
                                maxp = p.0;
                            }
                        }
                    }
                    proof {
                        if !found_inf && all_fin {
                            assert(fin_p);
                            if !any0 {
                                assert(j == 0);
                            } else {
                                assert(maxv >= mv0);
                            }
                            assert(prod_refs_finite(grm, costs@, done@, p.0 as int));
                            assert(prod_cost(grm, tc, costs_seq(costs@), p.0 as int)
                                <= maxv as int);
                            assert forall|y: int|
                                0 <= y < j + 1 implies prod_refs_finite(
                                grm,
                                costs@,
                                done@,
                                (#[trigger] grm.rule_prod_lists()[i as int][y]).0 as int,
                            ) by {
                                if y == j {
                                    assert(grm.rule_prod_lists()[i as int][y] == p);
                                }
                            }
                            assert forall|y: int|
                                0 <= y < j + 1 implies prod_cost(
                                grm,
                                tc,
                                costs_seq(costs@),
                                (#[trigger] grm.rule_prod_lists()[i as int][y]).0 as int,
                            ) <= maxv as int by {
                                if y == j {
                                    assert(grm.rule_prod_lists()[i as int][y] == p);
                                }
                            }
                        }
                    }
                    j = j + 1;
                }
                if found_inf {
                    proof {
                        crate::reach::lemma_count_true_update(done@, i as int);
                    }
                    let ghost c0 = costs@;
                    let ghost d0 = done@;
                    costs.set(i, 0xffff_ffff);
                    done.set(i, true);
                    ndone = ndone + 1;
                    processed = true;
                    proof {
                        let b = grm.prod_bodies()[inf_wit.0][inf_wit.1]->Nonterm_0.0 as int;
                        assert(crate::grammar::sym_idx_valid(
                            grm.prod_bodies()[inf_wit.0][inf_wit.1],
                            grm.nt_names().len(),
                            grm.t_names().len(),
                        ));
                        assert(crate::reach::step(grm, i as int, b)) by {
                            assert(grm.prod_bodies()[inf_wit.0][inf_wit.1] == Symbol::Nonterm(
                                NTIdx(b as usize),
                            ));
                            assert(grm.prod_owners()[inf_wit.0] == NTIdx(i));
                        }
                        assert(inf_class(grm, b));
                        lemma_inf_step(grm, i as int, b);
                        lemma_max_step(grm, tc, mx, c0, d0, costs@, done@, i as int, 0xffff_ffff);
                    }
                } else if all_fin {
                    proof {
                        assert forall|p: int|
                            0 <= p < np && (#[trigger] grm.prod_owners()[p]).0 == i
                            implies prod_refs_finite(grm, costs@, done@, p) && prod_cost(
                            grm,
                            tc,
                            costs_seq(costs@),
                            p,
                        ) <= maxv as int by {
                            assert(grm.p_covered(p));
                            let (x, y) = choose|x: int, y: int|
                                grm.rp_slot(x, y) && (#[trigger] grm.rule_prod_lists()[x][y]).0
                                    == p;
                            assert(x == i as int);
                        }
                        lemma_ready_not_inf(grm, tc, mx, costs@, done@, i as int);
                        assert(grm.rule_prod_lists()[i as int].len() >= 1);
                        assert(any);
                        // The finite maximum is below the bounding witness.
                        assert(maxv as int <= mx[i as int]) by {
                            assert forall|k: int|
                                0 <= k < grm.prod_bodies()[maxp as int].len() implies match #[trigger] grm.prod_bodies()[maxp as int][k] {
                                Symbol::Nonterm(m) => 0 <= m.0 < costs_seq(costs@).len() && 0
                                    <= m.0 < mx.len() && costs_seq(costs@)[m.0 as int] <= mx[m.0 as int],
                                Symbol::Term(_) => true,
                            } by {
                                match grm.prod_bodies()[maxp as int][k] {
                                    Symbol::Nonterm(m) => {
                                        assert(done@[m.0 as int] && costs@[m.0 as int]
                                            != 0xffff_ffffu32);
                                        assert(finite_ok(grm, mx, costs@, m.0 as int));
                                    },
                                    Symbol::Term(_) => {},
                                }
                            }
                            lemma_body_cost_mono(
                                tc,
                                costs_seq(costs@),
                                mx,
                                grm.prod_bodies()[maxp as int],
                            );
                            assert(prod_cost(grm, tc, mx, maxp as int) <= mx[i as int]);
                        }
                        assert(maxv < 0xffff_ffff);
                        crate::reach::lemma_count_true_update(done@, i as int);
                    }
                    let vfin: u32 = maxv as u32;
                    let ghost c0 = costs@;
                    let ghost d0 = done@;
                    costs.set(i, vfin);
                    done.set(i, true);
                    ndone = ndone + 1;
                    processed = true;
                    proof {
                        lemma_max_step(grm, tc, mx, c0, d0, costs@, done@, i as int, vfin);
                    }
                } else {
                    proof {
                        assert(ref_slot(und_wit.0, und_wit.1) && 0 <= und_wit.0 < np && (
                        grm.prod_owners()[und_wit.0]).0 == i && 0 <= und_wit.1
                            < grm.prod_bodies()[und_wit.0].len()
                            && grm.prod_bodies()[und_wit.0][und_wit.1] is Nonterm && !done@[
                            grm.prod_bodies()[und_wit.0][und_wit.1]->Nonterm_0.0 as int]);
                    }
                }
            }
            i = i + 1;
        }
        if !processed {
            proof {
                assert forall|x: int|
                    0 <= x < done@.len() && !done@[x] implies exists|y: int|
                    0 <= y < done@.len() && !done@[y] && #[trigger] crate::reach::step(
                    grm,
                    x,
                    y,
                ) by {
                    lemma_undone_successor(grm, done@, np as int, x);
                }
                lemma_max_no_progress(grm, done@, np as int);
                let m = choose|m: int|
                    0 <= m < done@.len() && !done@[m] && #[trigger] crate::reach::reachable(
                        grm,
                        m,
                        m,
                    );
                assert(done@[m]);
                assert(false);
            }
        }
    }
    proof {
        lemma_max_final(grm, tc, mx, costs@, done@);
    }
    costs
}

/// With every rule finished, the search invariants give the contract of the
/// maximum-cost analysis.
proof fn lemma_max_final(g: &YaccGrammar, tc: Seq<u8>, mx: Seq<int>, costs: Seq<u32>, done: Seq<bool>)
    requires
        g.wf(),
        max_inv(g, tc, mx, costs, done),
        crate::reach::count_true(done) == done.len(),
    ensures
        forall|n: int|
            0 <= n < costs.len() ==> ((costs[n] == 0xffff_ffffu32) <==> #[trigger] inf_class(g, n)),
        forall|n: int|
            0 <= n < costs.len() && costs[n] != 0xffff_ffffu32 ==> #[trigger] max_entry_attained(
                g,
                tc,
                costs,
                n,
            ),
        forall|p: int|
            0 <= p < g.prod_bodies().len() && costs[(#[trigger] g.prod_owners()[p]).0 as int]
                != 0xffff_ffffu32 ==> prod_cost(g, tc, costs_seq(costs), p) <= costs[(
            g.prod_owners()[p]).0 as int] as int,
{
    lemma_count_full(done);
    assert forall|n: int|
        0 <= n < costs.len() implies ((costs[n] == 0xffff_ffffu32) <==> #[trigger] inf_class(
        g,
        n,
    )) by {
        assert(done[n]);
        if costs[n] != 0xffff_ffffu32 {
            assert(finite_ok(g, mx, costs, n));
        }
    }
    assert forall|n: int|
        0 <= n < costs.len() && costs[n] != 0xffff_ffffu32 implies #[trigger] max_entry_attained(
        g,
        tc,
        costs,
        n,
    ) by {
        assert(done[n]);
    }
    assert forall|p: int|
        0 <= p < g.prod_bodies().len() && costs[(#[trigger] g.prod_owners()[p]).0 as int]
            != 0xffff_ffffu32 implies prod_cost(g, tc, costs_seq(costs), p) <= costs[(
        g.prod_owners()[p]).0 as int] as int by {
        assert((g.prod_owners()[p]).0 < g.nt_names().len());
        assert(done[(g.prod_owners()[p]).0 as int]);
    }
}

/// If every unfinished rule still has an unfinished reference, some
/// unfinished rule lies on a cycle.
#[verifier::rlimit(100)]
proof fn lemma_max_no_progress(g: &YaccGrammar, done: Seq<bool>, np: int)
    requires
        g.wf(),
        done.len() == g.nt_names().len(),
        np == g.prod_bodies().len(),
        crate::reach::count_true(done) < done.len(),
        forall|x: int|
            0 <= x < done.len() && !done[x] ==> exists|y: int|
                0 <= y < done.len() && !done[y] && #[trigger] crate::reach::step(g, x, y),
    ensures
        exists|m: int|
            0 <= m < done.len() && !done[m] && #[trigger] crate::reach::reachable(g, m, m),
{
    lemma_count_not_all(done);
    let uj = choose|j: int| 0 <= j < done.len() && !done[j];
    lemma_stuck_cycle(g, done, uj);
}

/// An unfinished rule with an unfinished reference steps to an unfinished
/// rule.
proof fn lemma_undone_successor(g: &YaccGrammar, done: Seq<bool>, np: int, x: int)
    requires
        g.wf(),
        done.len() == g.nt_names().len(),
        np == g.prod_bodies().len(),
        0 <= x < done.len(),
        exists|pp: int, kk: int|
            #[trigger] ref_slot(pp, kk) && 0 <= pp < np && (g.prod_owners()[pp]).0 == x && 0
                <= kk < g.prod_bodies()[pp].len() && g.prod_bodies()[pp][kk] is Nonterm && !done[
                g.prod_bodies()[pp][kk]->Nonterm_0.0 as int],
    ensures
        exists|y: int| 0 <= y < done.len() && !done[y] && #[trigger] crate::reach::step(g, x, y),
{
    let (pp, kk) = choose|pp: int, kk: int|
        #[trigger] ref_slot(pp, kk) && 0 <= pp < np && (g.prod_owners()[pp]).0 == x && 0 <= kk
            < g.prod_bodies()[pp].len() && g.prod_bodies()[pp][kk] is Nonterm && !done[
            g.prod_bodies()[pp][kk]->Nonterm_0.0 as int];
    let y = g.prod_bodies()[pp][kk]->Nonterm_0.0 as int;
    assert(crate::grammar::sym_idx_valid(
        g.prod_bodies()[pp][kk],
        g.nt_names().len(),
        g.t_names().len(),
    ));
    assert(crate::reach::step(g, x, y)) by {
        assert(g.prod_bodies()[pp][kk] == Symbol::Nonterm(NTIdx(y as usize)));
        assert(g.prod_owners()[pp] == NTIdx(x as usize));
    }
}

} // verus!
