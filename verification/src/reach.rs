//! Reachability between nonterminals: whether one rule can appear in a
//! sentential form derived from another.

use vstd::prelude::*;
use vstd::pervasive::VecAdditionalExecFns;

use crate::defs::NTIdx;
use crate::defs::Symbol;
use crate::grammar::YaccGrammar;

verus! {

/// One derivation step: some production of rule `a` mentions rule `b`.
pub open spec fn step(g: &YaccGrammar, a: int, b: int) -> bool {
    &&& 0 <= a < g.nt_names().len()
    &&& 0 <= b < g.nt_names().len()
    &&& exists|p: int, k: int|
        0 <= p < g.prod_bodies().len() && g.prod_owners()[p] == NTIdx(a as usize) && 0 <= k
            < g.prod_bodies()[p].len() && #[trigger] g.prod_bodies()[p][k] == Symbol::Nonterm(
            NTIdx(b as usize),
        )
}

/// There is a derivation chain of at most `n` steps from `a` to `b`.
pub open spec fn reach_n(g: &YaccGrammar, a: int, b: int, n: nat) -> bool
    decreases n,
{
    if n == 0 {
        false
    } else {
        step(g, a, b) || exists|m: int|
            0 <= m < g.nt_names().len() && #[trigger] step(g, a, m) && reach_n(
                g,
                m,
                b,
                (n - 1) as nat,
            )
    }
}

/// There is a derivation chain, of any length, from `a` to `b`. A rule that
/// recurses through itself reaches itself.
pub open spec fn reachable(g: &YaccGrammar, a: int, b: int) -> bool {
    exists|n: nat| reach_n(g, a, b, n)
}

/// The ends of a step are valid nonterminal indices.
proof fn lemma_step_bounds(g: &YaccGrammar, a: int, b: int)
    requires
        step(g, a, b),
    ensures
        0 <= b < g.nt_names().len(),
        0 <= a < g.nt_names().len(),
{
}

proof fn lemma_step_reach(g: &YaccGrammar, a: int, b: int)
    requires
        step(g, a, b),
    ensures
        reach_n(g, a, b, 1),
{
}

/// A single step is a path.
pub proof fn lemma_step_reachable(g: &YaccGrammar, a: int, b: int)
    requires
        step(g, a, b),
    ensures
        reachable(g, a, b),
{
    lemma_step_reach(g, a, b);
}

proof fn lemma_reach_mono(g: &YaccGrammar, a: int, b: int, n1: nat, n2: nat)
    requires
        reach_n(g, a, b, n1),
        n1 <= n2,
    ensures
        reach_n(g, a, b, n2),
    decreases n1,
{
    if n1 > 0 && !step(g, a, b) {
        let m = choose|m: int|
            0 <= m < g.nt_names().len() && #[trigger] step(g, a, m) && reach_n(
                g,
                m,
                b,
                (n1 - 1) as nat,
            );
        lemma_reach_mono(g, m, b, (n1 - 1) as nat, (n2 - 1) as nat);
    }
}

proof fn lemma_reach_concat(g: &YaccGrammar, a: int, b: int, c: int, n1: nat, n2: nat)
    requires
        g.wf(),
        reach_n(g, a, b, n1),
        reach_n(g, b, c, n2),
    ensures
        reach_n(g, a, c, (n1 + n2) as nat),
    decreases n1,
{
    if step(g, a, b) {
        lemma_step_bounds(g, a, b);
        lemma_reach_mono(g, b, c, n2, n2);
        assert(reach_n(g, a, c, (n2 + 1) as nat));
        lemma_reach_mono(g, a, c, (n2 + 1) as nat, (n1 + n2) as nat);
    } else {
        let m = choose|m: int|
            0 <= m < g.nt_names().len() && #[trigger] step(g, a, m) && reach_n(
                g,
                m,
                b,
                (n1 - 1) as nat,
            );
        lemma_reach_concat(g, m, b, c, (n1 - 1) as nat, n2);
        assert(reach_n(g, a, c, ((n1 - 1) + n2 + 1) as nat));
    }
}

/// A path decomposes into a first step and a remainder.
pub proof fn lemma_reachable_first_step(g: &YaccGrammar, a: int, b: int)
    requires
        reachable(g, a, b),
    ensures
        exists|c: int|
            #[trigger] step(g, a, c) && 0 <= c < g.nt_names().len() && (c == b || reachable(
                g,
                c,
                b,
            )),
{
    let n = choose|n: nat| reach_n(g, a, b, n);
    if step(g, a, b) {
        assert(step(g, a, b) && 0 <= b < g.nt_names().len() && (b == b || reachable(g, b, b)));
    } else {
        let m = choose|m: int|
            0 <= m < g.nt_names().len() && #[trigger] step(g, a, m) && reach_n(
                g,
                m,
                b,
                (n - 1) as nat,
            );
        assert(reachable(g, m, b));
        assert(step(g, a, m) && 0 <= m < g.nt_names().len() && (m == b || reachable(g, m, b)));
    }
}

/// Reachability is transitive: a path from `a` to `b` and one from `b` to
/// `c` compose to a path from `a` to `c`.
pub proof fn lemma_has_path_trans(g: &YaccGrammar, a: int, b: int, c: int)
    requires
        g.wf(),
        reachable(g, a, b),
        reachable(g, b, c),
    ensures
        reachable(g, a, c),
{
    let n1 = choose|n: nat| reach_n(g, a, b, n);
    let n2 = choose|n: nat| reach_n(g, b, c, n);
    lemma_reach_concat(g, a, b, c, n1, n2);
}

/// How many entries of a boolean sequence are set.
pub open spec fn count_true(s: Seq<bool>) -> int
    decreases s.len(),
{
    if s.len() == 0 {
        0
    } else {
        count_true(s.drop_last()) + if s.last() {
            1int
        } else {
            0int
        }
    }
}

pub proof fn lemma_count_true_bounds(s: Seq<bool>)
    ensures
        0 <= count_true(s) <= s.len(),
    decreases s.len(),
{
    if s.len() > 0 {
        lemma_count_true_bounds(s.drop_last());
    }
}

pub proof fn lemma_count_true_update(s: Seq<bool>, i: int)
    requires
        0 <= i < s.len(),
        !s[i],
    ensures
        count_true(s.update(i, true)) == count_true(s) + 1,
    decreases s.len(),
{
    let t = s.update(i, true);
    if i == s.len() - 1 {
        assert(t.drop_last() =~= s.drop_last());
    } else {
        assert(t.drop_last() =~= s.drop_last().update(i, true));
        lemma_count_true_update(s.drop_last(), i);
        assert(t.last() == s.last());
    }
}

/// From a rule inside a step-closed set that avoids `to`, no chain leads to
/// `to`.
proof fn lemma_closed_unreachable(g: &YaccGrammar, from: int, to: int, seen: Seq<bool>, nn: nat)
    requires
        g.wf(),
        seen.len() == g.nt_names().len(),
        0 <= from < seen.len(),
        seen[from],
        forall|i: int, b: int|
            0 <= i < seen.len() && seen[i] && #[trigger] step(g, i, b) ==> b != to && (0 <= b
                < seen.len() && seen[b]),
    ensures
        !reach_n(g, from, to, nn),
    decreases nn,
{
    if reach_n(g, from, to, nn) {
        if step(g, from, to) {
            assert(to != to);
        } else {
            assert(nn > 0);
            let m = choose|m: int|
                0 <= m < g.nt_names().len() && #[trigger] step(g, from, m) && reach_n(
                    g,
                    m,
                    to,
                    (nn - 1) as nat,
                );
            assert(seen[m]);
            lemma_closed_unreachable(g, m, to, seen, (nn - 1) as nat);
        }
    }
}

impl YaccGrammar {
    /// Whether there is a derivation path from the `from` rule to the `to`
    /// rule. A rule that recurses through itself has a path from itself to
    /// itself.
    #[verifier::loop_isolation(false)]
    #[verifier::rlimit(100)]
    pub fn has_path(&self, from: NTIdx, to: NTIdx) -> (r: bool)
        requires
            self.wf(),
            from.0 < self.nt_names().len(),
            to.0 < self.nt_names().len(),
        ensures
            r == reachable(self, from.0 as int, to.0 as int),
    {
        let ghost fg = from.0 as int;
        let ghost tg = to.0 as int;
        let n = self.nonterms_len() as usize;
        let mut seen: Vec<bool> = Vec::new();
        let mut todo: Vec<bool> = Vec::new();
        let mut z: usize = 0;
        while z < n
            invariant
                z <= n,
                seen@.len() == z,
                todo@.len() == z,
                forall|i: int| 0 <= i < z ==> !seen@[i] && !todo@[i],
            decreases n - z,
        {
            seen.push(false);
            todo.push(false);
            z = z + 1;
        }
        todo.set(from.0, true);
        loop
            invariant
                seen@.len() == n,
                todo@.len() == n,
                n == self.nt_names().len(),
                forall|i: int|
                    0 <= i < n && (seen@[i] || todo@[i]) ==> i == fg || reachable(self, fg, i),
                forall|i: int| 0 <= i < n && todo@[i] ==> !seen@[i],
                forall|i: int, b: int|
                    0 <= i < n && seen@[i] && #[trigger] step(self, i, b) ==> b != tg && (seen@[b]
                        || todo@[b]),
                seen@[fg] || todo@[fg],
            decreases n - count_true(seen@),
        {
            let ghost seen0 = seen@;
            proof {
                lemma_count_true_bounds(seen@);
            }
            let mut empty = true;
            let ghost todo0 = todo@;
            let mut i: usize = 0;
            while i < n
                invariant
                    i <= n,
                    seen@.len() == n,
                    todo@.len() == n,
                    forall|x: int|
                        0 <= x < n && (seen@[x] || todo@[x]) ==> x == fg || reachable(self, fg, x),
                    forall|x: int| 0 <= x < n && todo@[x] ==> !seen@[x],
                    forall|x: int, b: int|
                        0 <= x < n && seen@[x] && #[trigger] step(self, x, b) ==> b != tg
                            && (seen@[b] || todo@[b]),
                    seen@[fg] || todo@[fg],
                    forall|x: int| 0 <= x < n && seen0[x] ==> seen@[x],
                    empty ==> seen@ == seen0 && todo@ == todo0,
                    empty ==> forall|x: int| 0 <= x < i ==> !todo@[x],
                    !empty ==> count_true(seen0) < count_true(seen@),
                decreases n - i,
            {
                if todo[i] {
                    proof {
                        lemma_count_true_bounds(seen0);
                        lemma_count_true_monotone(seen0, seen@);
                        lemma_count_true_update(seen@, i as int);
                    }
                    let ghost seen_pre = seen@;
                    let ghost todo_pre = todo@;
                    seen.set(i, true);
                    todo.set(i, false);
                    empty = false;
                    proof {
                        assert forall|x: int, b: int|
                            0 <= x < n && seen@[x] && x != i && #[trigger] step(self, x, b)
                            implies b != tg && (seen@[b] || todo@[b]) by {
                            assert(seen_pre[x]);
                            assert(b != tg && (seen_pre[b] || todo_pre[b]));
                            if b != i as int {
                                assert(seen@[b] == seen_pre[b] && todo@[b] == todo_pre[b]);
                            }
                        }
                    }
                    let prods_list = self.nonterm_to_prods(NTIdx(i));
                    let nj = prods_list.len();
                    let mut j: usize = 0;
                    while j < nj
                        invariant
                            0 <= i < n,
                            j <= nj,
                            seen@.len() == n,
                            todo@.len() == n,
                            nj == self.rule_prod_lists()[i as int].len(),
                            prods_list@ == self.rule_prod_lists()[i as int],
                            seen@[i as int],
                            forall|x: int|
                                0 <= x < n && (seen@[x] || todo@[x]) ==> x == fg || reachable(
                                    self,
                                    fg,
                                    x,
                                ),
                            forall|x: int| 0 <= x < n && todo@[x] ==> !seen@[x],
                            forall|x: int, b: int|
                                0 <= x < n && seen@[x] && x != i && #[trigger] step(self, x, b)
                                    ==> b != tg && (seen@[b] || todo@[b]),
                            forall|jj: int, k: int|
                                0 <= jj < j && 0 <= k < self.prod_bodies()[self.rule_prod_lists()[i as int][jj].0 as int].len()
                                    ==> tracked_sym(
                                    self,
                                    seen@,
                                    todo@,
                                    tg,
                                    #[trigger] self.prod_bodies()[self.rule_prod_lists()[i as int][jj].0 as int][k],
                                ),
                            seen@[fg] || todo@[fg],
                            count_true(seen0) < count_true(seen@),
                        decreases nj - j,
                    {
                        let p = prods_list[j];
                        let body = self.prod(p);
                        let nk = body.len();
                        let mut k: usize = 0;
                        while k < nk
                            invariant
                                0 <= i < n,
                                0 <= j < nj,
                                k <= nk,
                                seen@.len() == n,
                                todo@.len() == n,
                                nj == self.rule_prod_lists()[i as int].len(),
                                prods_list@ == self.rule_prod_lists()[i as int],
                                p == self.rule_prod_lists()[i as int][j as int],
                                body@ == self.prod_bodies()[p.0 as int],
                                nk == body@.len(),
                                seen@[i as int],
                                forall|x: int|
                                    0 <= x < n && (seen@[x] || todo@[x]) ==> x == fg || reachable(
                                        self,
                                        fg,
                                        x,
                                    ),
                                forall|x: int| 0 <= x < n && todo@[x] ==> !seen@[x],
                                forall|x: int, b: int|
                                    0 <= x < n && seen@[x] && x != i && #[trigger] step(self, x, b)
                                        ==> b != tg && (seen@[b] || todo@[b]),
                                forall|jj: int, kk: int|
                                    0 <= jj < j && 0 <= kk < self.prod_bodies()[self.rule_prod_lists()[i as int][jj].0 as int].len()
                                        ==> tracked_sym(
                                        self,
                                        seen@,
                                        todo@,
                                        tg,
                                        #[trigger] self.prod_bodies()[self.rule_prod_lists()[i as int][jj].0 as int][kk],
                                    ),
                                forall|kk: int|
                                    0 <= kk < k ==> tracked_sym(
                                        self,
                                        seen@,
                                        todo@,
                                        tg,
                                        #[trigger] self.prod_bodies()[p.0 as int][kk],
                                    ),
                                seen@[fg] || todo@[fg],
                                count_true(seen0) < count_true(seen@),
                            decreases nk - k,
                        {
                            match body[k] {
                                Symbol::Nonterm(nt) => {
                                    if nt.0 == to.0 {
                                        proof {
                                            assert(self.prod_bodies()[p.0 as int][k as int]
                                                == Symbol::Nonterm(NTIdx(tg as usize)));
                                            assert(self.prod_owners()[p.0 as int] == NTIdx(
                                                i as usize,
                                            ));
                                            assert(step(self, i as int, tg));
                                            lemma_step_reach(self, i as int, tg);
                                            if i as int != fg {
                                                assert(reachable(self, fg, i as int));
                                                let n1 = choose|nn: nat|
                                                    reach_n(self, fg, i as int, nn);
                                                lemma_reach_concat(
                                                    self,
                                                    fg,
                                                    i as int,
                                                    tg,
                                                    n1,
                                                    1,
                                                );
                                            }
                                            assert(reachable(self, fg, tg));
                                        }
                                        return true;
                                    }
                                    if !seen[nt.0] {
                                        let ghost todo_pre2 = todo@;
                                        todo.set(nt.0, true);
                                        proof {
                                            assert forall|x: int, b: int|
                                                0 <= x < n && seen@[x] && x != i
                                                    && #[trigger] step(self, x, b) implies b != tg
                                                && (seen@[b] || todo@[b]) by {
                                                assert(b != tg && (seen@[b] || todo_pre2[b]));
                                                if b != nt.0 as int {
                                                    assert(todo@[b] == todo_pre2[b]);
                                                }
                                            }
                                        }
                                    } else {
                                    }
                                    proof {
                                        assert(tracked_sym(
                                            self,
                                            seen@,
                                            todo@,
                                            tg,
                                            self.prod_bodies()[p.0 as int][k as int],
                                        )) by {
                                            assert(self.prod_bodies()[p.0 as int][k as int]
                                                == Symbol::Nonterm(nt));
                                        }
                                        assert(step(self, i as int, nt.0 as int)) by {
                                            assert(self.prod_bodies()[p.0 as int][k as int]
                                                == Symbol::Nonterm(NTIdx(nt.0)));
                                            assert(self.prod_owners()[p.0 as int] == NTIdx(
                                                i as usize,
                                            ));
                                        }
                                        lemma_step_reach(self, i as int, nt.0 as int);
                                        if i as int != fg {
                                            let n1 = choose|nn: nat|
                                                reach_n(self, fg, i as int, nn);
                                            lemma_reach_concat(
                                                self,
                                                fg,
                                                i as int,
                                                nt.0 as int,
                                                n1,
                                                1,
                                            );
                                        }
                                        assert(reachable(self, fg, nt.0 as int));
                                    }
                                },
                                Symbol::Term(_) => {},
                            }
                            k = k + 1;
                        }
                        j = j + 1;
                    }
                    proof {
                        assert forall|x: int, b: int|
                            0 <= x < n && seen@[x] && #[trigger] step(self, x, b) implies b != tg
                            && (seen@[b] || todo@[b]) by {
                            if x == i as int {
                                let (p, k) = choose|p: int, k: int|
                                    0 <= p < self.prod_bodies().len() && self.prod_owners()[p]
                                        == NTIdx(x as usize) && 0 <= k
                                        < self.prod_bodies()[p].len()
                                        && #[trigger] self.prod_bodies()[p][k] == Symbol::Nonterm(
                                        NTIdx(b as usize),
                                    );
                                assert(self.p_covered(p));
                                let (xx, yy) = choose|xx: int, yy: int|
                                    self.rp_slot(xx, yy)
                                        && (#[trigger] self.rule_prod_lists()[xx][yy]).0 == p;
                                assert(self.prod_owners()[p] == NTIdx(xx as usize));
                                assert(xx == i as int);
                                assert(tracked_sym(
                                    self,
                                    seen@,
                                    todo@,
                                    tg,
                                    self.prod_bodies()[self.rule_prod_lists()[i as int][yy].0 as int][k],
                                ));
                                lemma_step_bounds(self, x, b);
                            }
                        }
                    }
                }
                i = i + 1;
            }
            proof {
                lemma_count_true_bounds(seen@);
            }
            if empty {
                proof {
                    assert(forall|x: int| 0 <= x < n ==> !todo@[x]);
                    assert(seen@[fg]);
                    assert forall|x: int, b: int|
                        0 <= x < seen@.len() && seen@[x] && #[trigger] step(self, x, b) implies b
                        != tg && (0 <= b < seen@.len() && seen@[b]) by {
                        lemma_step_bounds(self, x, b);
                    }
                    assert forall|nn: nat| !#[trigger] reach_n(self, fg, tg, nn) by {
                        lemma_closed_unreachable(self, fg, tg, seen@, nn);
                    }
                    assert(!reachable(self, fg, tg));
                }
                return false;
            }
        }
    }
}

/// A symbol already taken account of by the search: a terminal, or a
/// nonterminal other than the target that is marked seen or pending.
pub open spec fn tracked_sym(
    g: &YaccGrammar,
    seen: Seq<bool>,
    todo: Seq<bool>,
    tg: int,
    s: Symbol,
) -> bool {
    match s {
        Symbol::Nonterm(nt) => nt.0 as int != tg && 0 <= nt.0 < seen.len() && (seen[nt.0 as int]
            || todo[nt.0 as int]),
        Symbol::Term(_) => true,
    }
}

proof fn lemma_count_true_monotone(s1: Seq<bool>, s2: Seq<bool>)
    requires
        s1.len() == s2.len(),
        forall|i: int| 0 <= i < s1.len() && s1[i] ==> s2[i],
    ensures
        count_true(s1) <= count_true(s2),
    decreases s1.len(),
{
    if s1.len() > 0 {
        assert forall|i: int| 0 <= i < s1.drop_last().len() && s1.drop_last()[i]
            implies s2.drop_last()[i] by {
            assert(s1[i]);
        }
        lemma_count_true_monotone(s1.drop_last(), s2.drop_last());
    }
}

} // verus!
