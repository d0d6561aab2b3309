//! Generation of minimal sentences: for any rule, the cost of a minimal or
//! maximal sentence it derives, one minimal sentence, and the set of all
//! minimal sentences.

use vstd::prelude::*;

use crate::costs::costs_seq;
use crate::costs::derives_cost;
use crate::costs::entry_attained;
use crate::costs::inf_class;
use crate::costs::max_bound_witness;
use crate::costs::max_entry_attained;
use crate::costs::min_costs_build;
use crate::costs::nonterm_max_costs;
use crate::costs::productive_witness;
use crate::costs::prod_cost;
use crate::costs::sent_cost;
use crate::defs::NTIdx;
use crate::defs::Symbol;
use crate::defs::TIdx;
use crate::grammar::YaccGrammar;

verus! {

/// A trigger marker for quantifying over candidate terminal-cost vectors.
pub open spec fn cost_assignment(tc: Seq<u8>) -> bool {
    true
}

/// Generates minimal sentences for the rules of a grammar, under a
/// user-supplied cost for each terminal. All analyses are computed up front,
/// so the generator is immutable once built.
pub struct SentenceGenerator<'a> {
    grm: &'a YaccGrammar,
    term_costs: Vec<u8>,
    min_costs: Vec<u32>,
    min_sents: Vec<Vec<TIdx>>,
    max_costs: Vec<u32>,
}

impl<'a> SentenceGenerator<'a> {
    /// The grammar under analysis.
    pub closed spec fn spec_grm(&self) -> &'a YaccGrammar {
        self.grm
    }

    /// The terminal costs, by terminal index.
    pub closed spec fn tc(&self) -> Seq<u8> {
        self.term_costs@
    }

    /// The computed minimal cost of each rule.
    pub closed spec fn min_vec(&self) -> Seq<u32> {
        self.min_costs@
    }

    /// The computed maximal cost of each rule; `u32::MAX` stands for
    /// unbounded.
    pub closed spec fn max_vec(&self) -> Seq<u32> {
        self.max_costs@
    }

    /// The sentence stored for rule `i` at construction.
    pub closed spec fn stored_sentence(&self, i: int) -> Seq<TIdx> {
        self.min_sents@[i]@
    }

    /// Everything construction established: the minimum vector holds, per
    /// rule, the least derivable cost and is a fixed point of the production
    /// cost equations; the stored sentences attain it; the maximum vector
    /// marks exactly the rules that reach a derivation cycle as unbounded
    /// and satisfies the maximum equations elsewhere.
    pub closed spec fn wf(&self) -> bool {
        &&& self.grm.wf()
        &&& self.term_costs@.len() == self.grm.t_names().len()
        &&& self.min_costs@.len() == self.grm.nt_names().len()
        &&& self.max_costs@.len() == self.grm.nt_names().len()
        &&& self.min_sents@.len() == self.grm.nt_names().len()
        &&& forall|i: int|
            0 <= i < self.min_costs@.len() ==> #[trigger] crate::costs::entry_derivable(
                self.grm,
                self.term_costs@,
                self.min_costs@,
                i,
            )
        &&& forall|i: int, c: int, h: nat|
            0 <= i < self.min_costs@.len() && #[trigger] derives_cost(
                self.grm,
                self.term_costs@,
                i,
                c,
                h,
            ) ==> self.min_costs@[i] as int <= c
        &&& forall|i: int|
            0 <= i < self.min_costs@.len() ==> #[trigger] entry_attained(
                self.grm,
                self.term_costs@,
                self.min_costs@,
                i,
            )
        &&& forall|p: int|
            0 <= p < self.grm.prod_bodies().len() ==> prod_cost(
                self.grm,
                self.term_costs@,
                costs_seq(self.min_costs@),
                p,
            ) >= self.min_costs@[(#[trigger] self.grm.prod_owners()[p]).0 as int] as int
        &&& forall|i: int|
            0 <= i < self.min_sents@.len() ==> sent_cost(self.term_costs@, (#[trigger] self.min_sents@[i])@)
                == self.min_costs@[i] as int
        &&& forall|i: int, q: int|
            0 <= i < self.min_sents@.len() && 0 <= q < self.min_sents@[i]@.len() ==> (
            #[trigger] self.min_sents@[i]@[q]).0 < self.grm.t_names().len()
        &&& forall|i: int|
            0 <= i < self.min_sents@.len() ==> #[trigger] crate::costs::sent_decomposes(
                self.grm,
                self.term_costs@,
                self.min_costs@,
                crate::costs::sents_view(self.min_sents@),
                i,
            )
        &&& forall|n: int|
            0 <= n < self.max_costs@.len() ==> ((self.max_costs@[n] == 0xffff_ffffu32)
                <==> #[trigger] inf_class(self.grm, n))
        &&& forall|n: int|
            0 <= n < self.max_costs@.len() && self.max_costs@[n] != 0xffff_ffffu32
                ==> #[trigger] max_entry_attained(self.grm, self.term_costs@, self.max_costs@, n)
        &&& forall|p: int|
            0 <= p < self.grm.prod_bodies().len() && self.max_costs@[(
            #[trigger] self.grm.prod_owners()[p]).0 as int] != 0xffff_ffffu32 ==> prod_cost(
                self.grm,
                self.term_costs@,
                costs_seq(self.max_costs@),
                p,
            ) <= self.max_costs@[(self.grm.prod_owners()[p]).0 as int] as int
    }

    /// The cost of a minimal sentence for the rule `nonterm_idx`: the least
    /// cost of any terminal string the rule derives. Unlike `min_sentence`,
    /// this does not build a sentence.
    pub fn min_sentence_cost(&self, nonterm_idx: NTIdx) -> (r: u32)
        requires
            self.wf(),
            nonterm_idx.0 < self.spec_grm().nt_names().len(),
        ensures
            r == self.min_vec()[nonterm_idx.0 as int],
            exists|h: nat|
                #[trigger] derives_cost(
                    self.spec_grm(),
                    self.tc(),
                    nonterm_idx.0 as int,
                    r as int,
                    h,
                ),
            forall|c: int, h: nat|
                #[trigger] derives_cost(self.spec_grm(), self.tc(), nonterm_idx.0 as int, c, h)
                    ==> r as int <= c,
    {
        proof {
            assert(crate::costs::entry_derivable(
                self.grm,
                self.term_costs@,
                self.min_costs@,
                nonterm_idx.0 as int,
            ));
            let h = choose|h: nat|
                derives_cost(
                    self.grm,
                    self.term_costs@,
                    nonterm_idx.0 as int,
                    self.min_costs@[nonterm_idx.0 as int] as int,
                    h,
                );
            assert(derives_cost(
                self.spec_grm(),
                self.tc(),
                nonterm_idx.0 as int,
                self.min_costs@[nonterm_idx.0 as int] as int,
                h,
            ));
        }
        self.min_costs[nonterm_idx.0]
    }

    /// The cost of a maximal sentence for the rule `nonterm_idx`, or `None`
    /// when the rule can generate sentences of unbounded length: exactly
    /// when it lies on a derivation cycle or derives a rule that does.
    pub fn max_sentence_cost(&self, nonterm_idx: NTIdx) -> (r: Option<u32>)
        requires
            self.wf(),
            nonterm_idx.0 < self.spec_grm().nt_names().len(),
        ensures
            r is None <==> inf_class(self.spec_grm(), nonterm_idx.0 as int),
            r is Some ==> r.unwrap() == self.max_vec()[nonterm_idx.0 as int]
                && max_entry_attained(
                self.spec_grm(),
                self.tc(),
                self.max_vec(),
                nonterm_idx.0 as int,
            ),
    {
        let v = self.max_costs[nonterm_idx.0];
        if v == 0xffff_ffff {
            None
        } else {
            Some(v)
        }
    }

    /// One minimal sentence for the rule `nonterm_idx`: its cost equals
    /// `min_sentence_cost` of the same rule.
    #[verifier::loop_isolation(false)]
    pub fn min_sentence(&self, nonterm_idx: NTIdx) -> (r: Vec<TIdx>)
        requires
            self.wf(),
            nonterm_idx.0 < self.spec_grm().nt_names().len(),
        ensures
            r@ == self.stored_sentence(nonterm_idx.0 as int),
            sent_cost(self.tc(), r@) == self.min_vec()[nonterm_idx.0 as int] as int,
            forall|q: int| 0 <= q < r@.len() ==> (#[trigger] r@[q]).0 < self.spec_grm().t_names().len(),
    {
        let stored = &self.min_sents[nonterm_idx.0];
        let n = stored.len();
        let mut out: Vec<TIdx> = Vec::new();
        let mut q: usize = 0;
        while q < n
            invariant
                q <= n,
                n == stored@.len(),
                stored@ == self.min_sents@[nonterm_idx.0 as int]@,
                out@ == stored@.take(q as int),
            decreases n - q,
        {
            out.push(stored[q]);
            proof {
                assert(out@ =~= stored@.take(q as int + 1));
            }
            q = q + 1;
        }
        proof {
            assert(stored@.take(n as int) =~= stored@);
        }
        out
    }
}

impl YaccGrammar {
    /// A `SentenceGenerator` for this grammar under the given cost for each
    /// terminal; every cost must be greater than zero. All the underlying
    /// analyses are computed here, so the generator itself is immutable.
    #[verifier::loop_isolation(false)]
    pub fn sentence_generator<'a, F: Fn(TIdx) -> u8>(&'a self, term_cost: F) -> (r:
        SentenceGenerator<'a>)
        requires
            self.wf(),
            forall|t: TIdx|
                t.0 < self.t_names().len() ==> #[trigger] call_requires(term_cost, (t,)),
            forall|t: TIdx, c: u8| #[trigger] call_ensures(term_cost, (t,), c) ==> c > 0,
            forall|tc: Seq<u8>|
                #[trigger] cost_assignment(tc) && tc.len() == self.t_names().len() && (forall|
                    i: int,
                |
                    0 <= i < tc.len() ==> #[trigger] call_ensures(
                        term_cost,
                        (TIdx(i as usize),),
                        tc[i],
                    )) ==> (exists|cw: Seq<int>| #[trigger] productive_witness(self, tc, cw)) && (
                exists|mx: Seq<int>| #[trigger] max_bound_witness(self, tc, mx)),
        ensures
            r.wf(),
            r.spec_grm() == self,
    {
        let nt = self.terms_len() as usize;
        let mut tcv: Vec<u8> = Vec::new();
        let mut i: usize = 0;
        while i < nt
            invariant
                i <= nt,
                nt == self.t_names().len(),
                tcv@.len() == i,
                forall|j: int|
                    0 <= j < i ==> #[trigger] call_ensures(term_cost, (TIdx(j as usize),), tcv@[j]),
            decreases nt - i,
        {
            let c = term_cost(TIdx(i));
            tcv.push(c);
            i = i + 1;
        }
        proof {
            assert(cost_assignment(tcv@));
            assert(exists|cw: Seq<int>| #[trigger] productive_witness(self, tcv@, cw));
            assert(exists|mx: Seq<int>| #[trigger] max_bound_witness(self, tcv@, mx));
        }
        let (min_costs, min_sents) = min_costs_build(self, &tcv);
        let max_costs = nonterm_max_costs(self, &tcv);
        SentenceGenerator { grm: self, term_costs: tcv, min_costs, min_sents, max_costs }
    }
}

/// Some cheapest production of rule `a` mentions rule `b`: the recursion of
/// `min_sentences` follows exactly these edges.
pub open spec fn min_edge(g: &YaccGrammar, tc: Seq<u8>, costs: Seq<u32>, a: int, b: int) -> bool {
    exists|p: int, k: int|
        #[trigger] crate::costs::ref_slot(p, k) && 0 <= p < g.prod_bodies().len() && (
        g.prod_owners()[p]).0 == a && prod_cost(g, tc, costs_seq(costs), p) == costs[a] as int && 0
            <= k < g.prod_bodies()[p].len() && g.prod_bodies()[p][k] == Symbol::Nonterm(
            NTIdx(b as usize),
        )
}

/// A ranking witnessing that recursion through cheapest productions cannot
/// cycle: every minimal-production edge strictly decreases the rank.
pub open spec fn min_rank_ok(g: &YaccGrammar, tc: Seq<u8>, costs: Seq<u32>, rank: Seq<int>) -> bool {
    &&& rank.len() == g.nt_names().len()
    &&& forall|i: int| 0 <= i < rank.len() ==> #[trigger] rank[i] >= 0
    &&& forall|a: int, b: int|
        0 <= a < rank.len() && 0 <= b < rank.len() && #[trigger] min_edge(g, tc, costs, a, b)
            ==> rank[b] < rank[a]
}

/// Copy a sentence.
#[verifier::loop_isolation(false)]
fn copy_sent(v: &Vec<TIdx>) -> (r: Vec<TIdx>)
    ensures
        r@ == v@,
{
    let mut out: Vec<TIdx> = Vec::new();
    let n = v.len();
    let mut q: usize = 0;
    while q < n
        invariant
            q <= n,
            n == v@.len(),
            out@ == v@.take(q as int),
        decreases n - q,
    {
        out.push(v[q]);
        proof {
            assert(out@ =~= v@.take(q as int + 1));
        }
        q = q + 1;
    }
    proof {
        assert(v@.take(n as int) =~= v@);
    }
    out
}

/// Concatenate two sentences.
#[verifier::loop_isolation(false)]
fn concat_sent(a: &Vec<TIdx>, b: &Vec<TIdx>) -> (r: Vec<TIdx>)
    ensures
        r@ == a@ + b@,
{
    let mut out = copy_sent(a);
    let n = b.len();
    let mut q: usize = 0;
    while q < n
        invariant
            q <= n,
            n == b@.len(),
            out@ == a@ + b@.take(q as int),
        decreases n - q,
    {
        out.push(b[q]);
        proof {
            assert(out@ =~= a@ + b@.take(q as int + 1));
        }
        q = q + 1;
    }
    proof {
        assert(a@ + b@.take(0) =~= a@);
        assert(b@.take(n as int) =~= b@);
    }
    out
}

impl<'a> SentenceGenerator<'a> {
    /// All the minimal sentences of the rule `nonterm_idx`: each has the
    /// minimal cost, and there is at least one. The ranking argument makes
    /// explicit that no rule's cheapest production recurses into itself at
    /// equal cost, which is what lets the enumeration terminate.
    pub fn min_sentences(&self, nonterm_idx: NTIdx) -> (r: Vec<Vec<TIdx>>)
        requires
            self.wf(),
            nonterm_idx.0 < self.spec_grm().nt_names().len(),
            exists|rank: Seq<int>| #[trigger] min_rank_ok(self.spec_grm(), self.tc(), self.min_vec(), rank),
        ensures
            r@.len() >= 1,
            forall|x: int|
                0 <= x < r@.len() ==> sent_cost(self.tc(), (#[trigger] r@[x])@) == self.min_vec()[
                nonterm_idx.0 as int] as int,
            forall|x: int, q: int|
                0 <= x < r@.len() && 0 <= q < r@[x]@.len() ==> (#[trigger] r@[x]@[q]).0
                    < self.spec_grm().t_names().len(),
            exists|x: int|
                0 <= x < r@.len() && (#[trigger] r@[x])@ == self.stored_sentence(
                    nonterm_idx.0 as int,
                ),
    {
        let ghost rank = choose|rank: Seq<int>|
            #[trigger] min_rank_ok(self.spec_grm(), self.tc(), self.min_vec(), rank);
        self.min_sentences_w(nonterm_idx.0, Ghost(rank))
    }

    /// The worker for `min_sentences`: for each cheapest production, the
    /// product of the minimal sentences of its symbols.
    #[verifier::loop_isolation(false)]
    #[verifier::rlimit(100)]
    fn min_sentences_w(&self, i: usize, rank: Ghost<Seq<int>>) -> (r: Vec<Vec<TIdx>>)
        requires
            self.wf(),
            i < self.spec_grm().nt_names().len(),
            min_rank_ok(self.spec_grm(), self.tc(), self.min_vec(), rank@),
        ensures
            r@.len() >= 1,
            forall|x: int|
                0 <= x < r@.len() ==> sent_cost(self.tc(), (#[trigger] r@[x])@) == self.min_vec()[
                i as int] as int,
            forall|x: int, q: int|
                0 <= x < r@.len() && 0 <= q < r@[x]@.len() ==> (#[trigger] r@[x]@[q]).0
                    < self.spec_grm().t_names().len(),
            exists|x: int|
                0 <= x < r@.len() && (#[trigger] r@[x])@ == self.stored_sentence(i as int),
        decreases rank@[i as int],
    {
        let ghost g = self.spec_grm();
        let ghost tc = self.tc();
        let ghost mv = self.min_vec();
        let ghost sv = crate::costs::sents_view(self.min_sents@);
        proof {
            assert(crate::costs::sent_decomposes(g, tc, mv, sv, i as int));
        }
        let ghost p_star = choose|p: int|
            0 <= p < g.prod_bodies().len() && (#[trigger] g.prod_owners()[p]).0 == i && prod_cost(
                g,
                tc,
                costs_seq(mv),
                p,
            ) == mv[i as int] as int && sv[i as int] == crate::costs::sent_of_body(
                g.prod_bodies()[p],
                sv,
            );
        let lists = self.grm.nonterm_to_prods(NTIdx(i));
        let nj = lists.len();
        let mut out: Vec<Vec<TIdx>> = Vec::new();
        let mut j: usize = 0;
        while j < nj
            invariant
                j <= nj,
                i < g.nt_names().len(),
                nj == g.rule_prod_lists()[i as int].len(),
                lists@ == g.rule_prod_lists()[i as int],
                forall|x: int|
                    0 <= x < out@.len() ==> sent_cost(tc, (#[trigger] out@[x])@) == mv[i as int] as int,
                forall|x: int, q: int|
                    0 <= x < out@.len() && 0 <= q < out@[x]@.len() ==> (#[trigger] out@[x]@[q]).0
                        < g.t_names().len(),
                forall|y: int|
                    0 <= y < j && prod_cost(
                        g,
                        tc,
                        costs_seq(mv),
                        (#[trigger] g.rule_prod_lists()[i as int][y]).0 as int,
                    ) == mv[i as int] as int ==> out@.len() >= 1,
                (exists|y: int|
                    0 <= y < j && (#[trigger] g.rule_prod_lists()[i as int][y]).0 == p_star)
                    ==> exists|u: int|
                    0 <= u < out@.len() && (#[trigger] out@[u])@ == sv[i as int],
            decreases nj - j,
        {
            let p = lists[j];
            let ghost out_j = out@;
            let body = self.grm.prod(p);
            let nk = body.len();
            // The cost of this production at the minimal values.
            let mut sum: u64 = 0;
            let mut k: usize = 0;
            proof {
                assert(body@.take(0) =~= Seq::<Symbol>::empty());
            }
            while k < nk
                invariant
                    k <= nk,
                    0 <= (p.0 as int) < g.prod_bodies().len(),
                    body@ == g.prod_bodies()[p.0 as int],
                    nk == body@.len(),
                    sum as int == crate::costs::body_cost(tc, costs_seq(mv), body@.take(k as int)),
                decreases nk - k,
            {
                proof {
                    assert(crate::grammar::sym_idx_valid(
                        body@[k as int],
                        g.nt_names().len(),
                        g.t_names().len(),
                    ));
                    assert(body@.take(k as int + 1) =~= body@.take(k as int).push(body@[k as int]));
                    crate::costs::lemma_body_cost_snoc(
                        tc,
                        costs_seq(mv),
                        body@.take(k as int),
                        body@[k as int],
                    );
                    crate::costs::lemma_take_bound(g, tc, costs_seq(mv), body@, k as int + 1);
                }
                match body[k] {
                    Symbol::Term(t) => {
                        sum = sum + (self.term_costs[t.0] as u64);
                    },
                    Symbol::Nonterm(m) => {
                        sum = sum + (self.min_costs[m.0] as u64);
                    },
                }
                k = k + 1;
            }
            proof {
                assert(body@.take(nk as int) =~= body@);
            }
            if sum == self.min_costs[i] as u64 {
                // A cheapest production: fold the product of the minimal
                // sentences of its symbols.
                let mut acc: Vec<Vec<TIdx>> = Vec::new();
                acc.push(Vec::new());
                proof {
                    assert(acc@[0]@ =~= Seq::<TIdx>::empty());
                    assert(body@.take(0) =~= Seq::<Symbol>::empty());
                    assert(crate::costs::sent_of_body(body@.take(0), sv) == Seq::<TIdx>::empty());
                }
                let mut k: usize = 0;
                while k < nk
                    invariant
                        p.0 as int == p_star ==> exists|w: int|
                            0 <= w < acc@.len() && (#[trigger] acc@[w])@
                                == crate::costs::sent_of_body(body@.take(k as int), sv),
                        k <= nk,
                        0 <= (p.0 as int) < g.prod_bodies().len(),
                        (g.prod_owners()[p.0 as int]).0 == i,
                        prod_cost(g, tc, costs_seq(mv), p.0 as int) == mv[i as int] as int,
                        body@ == g.prod_bodies()[p.0 as int],
                        nk == body@.len(),
                        acc@.len() >= 1,
                        forall|x: int|
                            0 <= x < acc@.len() ==> sent_cost(tc, (#[trigger] acc@[x])@)
                                == crate::costs::body_cost(tc, costs_seq(mv), body@.take(k as int)),
                        forall|x: int, q: int|
                            0 <= x < acc@.len() && 0 <= q < acc@[x]@.len() ==> (
                            #[trigger] acc@[x]@[q]).0 < g.t_names().len(),
                    decreases nk - k,
                {
                    let ghost tgt = crate::costs::sent_of_body(body@.take(k as int), sv);
                    let ghost tgt1 = crate::costs::sent_of_body(body@.take(k as int + 1), sv);
                    proof {
                        assert(crate::grammar::sym_idx_valid(
                            body@[k as int],
                            g.nt_names().len(),
                            g.t_names().len(),
                        ));
                        assert(body@.take(k as int + 1) =~= body@.take(k as int).push(
                            body@[k as int],
                        ));
                        crate::costs::lemma_body_cost_snoc(
                            tc,
                            costs_seq(mv),
                            body@.take(k as int),
                            body@[k as int],
                        );
                        crate::costs::lemma_sent_of_body_snoc(
                            body@.take(k as int),
                            body@[k as int],
                            sv,
                        );
                    }
                    let mut next: Vec<Vec<TIdx>> = Vec::new();
                    match body[k] {
                        Symbol::Term(t) => {
                            let na = acc.len();
                            let mut x: usize = 0;
                            while x < na
                                invariant
                                    x <= na,
                                    na == acc@.len(),
                                    next@.len() == x,
                                    forall|y: int|
                                        0 <= y < x ==> (#[trigger] next@[y])@ == acc@[y]@ + seq![t],
                                decreases na - x,
                            {
                                let mut b = copy_sent(&acc[x]);
                                b.push(t);
                                proof {
                                    assert(b@ =~= acc@[x as int]@ + seq![t]);
                                }
                                next.push(b);
                                x = x + 1;
                            }
                            proof {
                                assert forall|y: int|
                                    0 <= y < next@.len() implies sent_cost(
                                    tc,
                                    (#[trigger] next@[y])@,
                                ) == crate::costs::body_cost(
                                    tc,
                                    costs_seq(mv),
                                    body@.take(k as int + 1),
                                ) by {
                                    crate::costs::lemma_sent_cost_append(tc, acc@[y]@, seq![t]);
                                    assert(sent_cost(tc, seq![t]) == tc[t.0 as int]) by {
                                        assert(seq![t].drop_first() =~= Seq::<TIdx>::empty());
                                        assert(sent_cost(tc, Seq::<TIdx>::empty()) == 0);
                                        assert(seq![t][0] == t);
                                        assert(sent_cost(tc, seq![t]) == tc[seq![t][0].0 as int]
                                            + sent_cost(tc, seq![t].drop_first()));
                                    }
                                }
                                if p.0 as int == p_star {
                                    let w = choose|w: int|
                                        0 <= w < acc@.len() && (#[trigger] acc@[w])@ == tgt;
                                    assert(next@[w]@ == acc@[w]@ + seq![t]);
                                    assert(next@[w]@ == tgt1);
                                }
                            }
                        },
                        Symbol::Nonterm(m) => {
                            proof {
                                assert(crate::costs::ref_slot(p.0 as int, k as int));
                                assert(min_edge(g, tc, mv, i as int, m.0 as int));
                                assert(rank@[m.0 as int] < rank@[i as int]);
                            }
                            let subs = self.min_sentences_w(m.0, rank);
                            proof {
                                assert(body@[k as int] == Symbol::Nonterm(m));
                                assert(tgt1 == tgt + sv[m.0 as int]);
                            }
                            let ghost svm = sv[m.0 as int];
                            let na = acc.len();
                            let nb = subs.len();
                            let mut x: usize = 0;
                            while x < na
                                invariant
                                    x <= na,
                                    na == acc@.len(),
                                    nb == subs@.len(),
                                    nb >= 1,
                                    exists|ws: int|
                                        0 <= ws < nb && (#[trigger] subs@[ws])@ == svm,
                                    (p.0 as int == p_star && exists|w: int|
                                        0 <= w < na && (#[trigger] acc@[w])@ == tgt) ==> ((exists|
                                        u: int,
                                    |
                                        0 <= u < next@.len() && (#[trigger] next@[u])@ == tgt1) || (
                                    exists|w: int|
                                        x <= w < na && (#[trigger] acc@[w])@ == tgt)),
                                    x >= 1 ==> next@.len() >= 1,
                                    forall|w: int|
                                        0 <= w < next@.len() ==> sent_cost(
                                            tc,
                                            (#[trigger] next@[w])@,
                                        ) == crate::costs::body_cost(
                                            tc,
                                            costs_seq(mv),
                                            body@.take(k as int + 1),
                                        ),
                                    forall|w: int, q: int|
                                        0 <= w < next@.len() && 0 <= q < next@[w]@.len() ==> (
                                        #[trigger] next@[w]@[q]).0 < g.t_names().len(),
                                decreases na - x,
                            {
                                let mut z: usize = 0;
                                while z < nb
                                    invariant
                                        z <= nb,
                                        x < na,
                                        na == acc@.len(),
                                        nb == subs@.len(),
                                        exists|ws: int|
                                            0 <= ws < nb && (#[trigger] subs@[ws])@ == svm,
                                        (p.0 as int == p_star && exists|w: int|
                                            0 <= w < na && (#[trigger] acc@[w])@ == tgt) ==> ((
                                        exists|u: int|
                                            0 <= u < next@.len() && (#[trigger] next@[u])@ == tgt1)
                                            || (exists|w: int|
                                            x + 1 <= w < na && (#[trigger] acc@[w])@ == tgt) || (
                                        acc@[x as int]@ == tgt && exists|ws: int|
                                            z <= ws < nb && (#[trigger] subs@[ws])@ == svm)),
                                        x >= 1 || z >= 1 ==> next@.len() >= 1,
                                        forall|w: int|
                                            0 <= w < next@.len() ==> sent_cost(
                                                tc,
                                                (#[trigger] next@[w])@,
                                            ) == crate::costs::body_cost(
                                                tc,
                                                costs_seq(mv),
                                                body@.take(k as int + 1),
                                            ),
                                        forall|w: int, q: int|
                                            0 <= w < next@.len() && 0 <= q < next@[w]@.len() ==> (
                                            #[trigger] next@[w]@[q]).0 < g.t_names().len(),
                                    decreases nb - z,
                                {
                                    let c = concat_sent(&acc[x], &subs[z]);
                                    proof {
                                        crate::costs::lemma_sent_cost_append(
                                            tc,
                                            acc@[x as int]@,
                                            subs@[z as int]@,
                                        );
                                        if acc@[x as int]@ == tgt && subs@[z as int]@ == svm {
                                            assert(c@ == tgt1);
                                        }
                                    }
                                    let ghost next_pre = next@;
                                    next.push(c);
                                    proof {
                                        assert forall|u: int|
                                            0 <= u < next_pre.len() implies #[trigger] next@[u]
                                            == next_pre[u] by {}
                                        if p.0 as int == p_star && (exists|w: int|
                                            0 <= w < na && (#[trigger] acc@[w])@ == tgt) {
                                            if exists|u: int|
                                                0 <= u < next_pre.len() && (#[trigger] next_pre[u])@
                                                    == tgt1 {
                                                let u = choose|u: int|
                                                    0 <= u < next_pre.len() && (
                                                    #[trigger] next_pre[u])@ == tgt1;
                                                assert(next@[u]@ == tgt1);
                                                assert(exists|u: int|
                                                    0 <= u < next@.len() && (#[trigger] next@[u])@
                                                        == tgt1);
                                            } else if exists|w: int|
                                                x + 1 <= w < na && (#[trigger] acc@[w])@ == tgt {
                                            } else {
                                                assert(acc@[x as int]@ == tgt);
                                                let ws = choose|ws: int|
                                                    z as int <= ws < nb && (#[trigger] subs@[ws])@
                                                        == svm;
                                                if ws == z as int {
                                                    assert(c@ == tgt + svm);
                                                    assert(next@[next@.len() - 1]@ == tgt1);
                                                    assert(exists|u: int|
                                                        0 <= u < next@.len() && (
                                                        #[trigger] next@[u])@ == tgt1);
                                                } else {
                                                    assert(z as int + 1 <= ws < nb && subs@[ws]@
                                                        == svm);
                                                }
                                            }
                                        }
                                    }
                                    z = z + 1;
                                }
                                x = x + 1;
                            }
                        },
                    }
                    acc = next;
                    k = k + 1;
                }
                proof {
                    assert(body@.take(nk as int) =~= body@);
                    if p.0 as int == p_star {
                        assert(crate::costs::sent_of_body(body@, sv) == sv[i as int]);
                        assert(exists|w: int|
                            0 <= w < acc@.len() && (#[trigger] acc@[w])@ == sv[i as int]);
                    }
                }
                // Add this production's sentences to the output.
                let ghost out0 = out@;
                let nacc = acc.len();
                let mut x: usize = 0;
                while x < nacc
                    invariant
                        x <= nacc,
                        nacc == acc@.len(),
                        nacc >= 1,
                        out@.len() == out0.len() + x,
                        forall|y: int| 0 <= y < out0.len() ==> #[trigger] out@[y] == out0[y],
                        forall|y: int|
                            0 <= y < x ==> (#[trigger] out@[out0.len() + y])@ == acc@[y]@,
                        out@.len() >= x,
                        forall|y: int|
                            0 <= y < out@.len() ==> sent_cost(tc, (#[trigger] out@[y])@) == mv[i as int] as int,
                        forall|y: int, q: int|
                            0 <= y < out@.len() && 0 <= q < out@[y]@.len() ==> (
                            #[trigger] out@[y]@[q]).0 < g.t_names().len(),
                        forall|y: int|
                            0 <= y < acc@.len() ==> sent_cost(tc, (#[trigger] acc@[y])@) == mv[i as int] as int,
                        forall|y: int, q: int|
                            0 <= y < acc@.len() && 0 <= q < acc@[y]@.len() ==> (
                            #[trigger] acc@[y]@[q]).0 < g.t_names().len(),
                    decreases nacc - x,
                {
                    let c = copy_sent(&acc[x]);
                    out.push(c);
                    x = x + 1;
                }
                proof {
                    if p.0 as int == p_star {
                        let w = choose|w: int|
                            0 <= w < acc@.len() && (#[trigger] acc@[w])@ == sv[i as int];
                        assert(out@[out0.len() + w]@ == sv[i as int]);
                    }
                }
            }
            proof {
                assert(out@.len() >= out_j.len());
                assert(forall|u: int| 0 <= u < out_j.len() ==> #[trigger] out@[u] == out_j[u]);
                if exists|y: int|
                    0 <= y < j + 1 && (#[trigger] g.rule_prod_lists()[i as int][y]).0 == p_star {
                    let y = choose|y: int|
                        0 <= y < j + 1 && (#[trigger] g.rule_prod_lists()[i as int][y]).0
                            == p_star;
                    if y == j {
                        assert(p == g.rule_prod_lists()[i as int][j as int]);
                        assert(p.0 as int == p_star);
                        assert(sum as int == prod_cost(g, tc, costs_seq(mv), p_star));
                        assert(sum == self.min_costs@[i as int] as u64);
                        assert(exists|u: int|
                            0 <= u < out@.len() && (#[trigger] out@[u])@ == sv[i as int]);
                    } else {
                        let u = choose|u: int|
                            0 <= u < out_j.len() && (#[trigger] out_j[u])@ == sv[i as int];
                        assert(out@[u] == out_j[u]);
                        assert(exists|u: int|
                            0 <= u < out@.len() && (#[trigger] out@[u])@ == sv[i as int]);
                    }
                }
            }
            j = j + 1;
        }
        // The minimal value is attained by some production, so at least one
        // production qualified and the output is nonempty.
        proof {
            assert(g.p_covered(p_star));
            let (xx, yy) = choose|x: int, y: int|
                g.rp_slot(x, y) && (#[trigger] g.rule_prod_lists()[x][y]).0 == p_star;
            assert(xx == i as int);
            assert(exists|u: int|
                0 <= u < out@.len() && (#[trigger] out@[u])@ == sv[i as int]);
            assert(out@.len() >= 1);
            assert(sv[i as int] == self.stored_sentence(i as int));
        }
        out
    }
}

} // verus!
