//! A map from token names to precedences, viewed as a mathematical
//! `Map<Seq<char>, Precedence>`.

use vstd::prelude::*;
use vstd::pervasive::VecAdditionalExecFns;

use crate::defs::Precedence;
use crate::strutil::string_eq_str;

verus! {

/// A map from token names to their declared precedences.
#[derive(Debug)]
pub struct PrecMap {
    items: Vec<(String, Precedence)>,
}

/// The stored keys of an association list are pairwise distinct.
pub open spec fn keys_distinct(s: Seq<(String, Precedence)>) -> bool {
    forall|x: int, y: int| 0 <= x < y < s.len() ==> s[x].0@ != s[y].0@
}

/// The mathematical map described by an association list; later entries win.
pub open spec fn assoc_map(s: Seq<(String, Precedence)>) -> Map<Seq<char>, Precedence>
    decreases s.len(),
{
    if s.len() == 0 {
        Map::empty()
    } else {
        assoc_map(s.drop_last()).insert(s.last().0@, s.last().1)
    }
}

impl View for PrecMap {
    type V = Map<Seq<char>, Precedence>;

    closed spec fn view(&self) -> Map<Seq<char>, Precedence> {
        assoc_map(self.items@)
    }
}

proof fn lemma_assoc_map_contains(s: Seq<(String, Precedence)>, k: Seq<char>)
    ensures
        assoc_map(s).contains_key(k) <==> exists|i: int| 0 <= i < s.len() && s[i].0@ == k,
    decreases s.len(),
{
    if s.len() > 0 {
        lemma_assoc_map_contains(s.drop_last(), k);
        if s.last().0@ == k {
            assert(s[s.len() - 1].0@ == k);
        } else if assoc_map(s).contains_key(k) {
            let i = choose|i: int| 0 <= i < s.drop_last().len() && s.drop_last()[i].0@ == k;
            assert(s[i].0@ == k);
        } else {
            assert forall|i: int| 0 <= i < s.len() implies s[i].0@ != k by {
                if i < s.len() - 1 {
                    assert(s.drop_last()[i] == s[i]);
                }
            }
        }
    }
}

proof fn lemma_assoc_map_at(s: Seq<(String, Precedence)>, i: int)
    requires
        keys_distinct(s),
        0 <= i < s.len(),
    ensures
        assoc_map(s).contains_key(s[i].0@),
        assoc_map(s)[s[i].0@] == s[i].1,
    decreases s.len(),
{
    if i == s.len() - 1 {
        lemma_assoc_map_contains(s, s[i].0@);
    } else {
        assert(s.drop_last()[i] == s[i]);
        assert(keys_distinct(s.drop_last())) by {
            assert forall|x: int, y: int|
                0 <= x < y < s.drop_last().len() implies s.drop_last()[x].0@ != s.drop_last()[y].0@ by {
                assert(s.drop_last()[x] == s[x]);
                assert(s.drop_last()[y] == s[y]);
            }
        }
        lemma_assoc_map_at(s.drop_last(), i);
        assert(s.last().0@ != s[i].0@);
    }
}

proof fn lemma_update_insert(s: Seq<(String, Precedence)>, t: Seq<(String, Precedence)>, i: int)
    requires
        keys_distinct(s),
        0 <= i < s.len(),
        t == s.update(i, t[i]),
        t[i].0@ == s[i].0@,
    ensures
        keys_distinct(t),
        assoc_map(t) == assoc_map(s).insert(t[i].0@, t[i].1),
    decreases s.len(),
{
    assert(t.len() == s.len());
    assert forall|x: int| 0 <= x < s.len() implies t[x].0@ == s[x].0@ by {}
    assert(keys_distinct(t));
    if i == s.len() - 1 {
        assert(t.drop_last() =~= s.drop_last());
        assert(assoc_map(t) =~= assoc_map(s).insert(t[i].0@, t[i].1));
    } else {
        let sd = s.drop_last();
        let td = t.drop_last();
        assert(keys_distinct(sd)) by {
            assert forall|x: int, y: int| 0 <= x < y < sd.len() implies sd[x].0@ != sd[y].0@ by {
                assert(sd[x] == s[x]);
                assert(sd[y] == s[y]);
            }
        }
        assert(td =~= sd.update(i, t[i]));
        assert(td[i] == t[i]);
        lemma_update_insert(sd, td, i);
        assert(t.last() == s.last());
        assert(s.last().0@ != s[i].0@);
        assert(assoc_map(t) =~= assoc_map(s).insert(t[i].0@, t[i].1));
    }
}

impl PrecMap {
    /// The stored keys are pairwise distinct.
    pub closed spec fn wf(&self) -> bool {
        keys_distinct(self.items@)
    }

    pub fn new() -> (r: PrecMap)
        ensures
            r@ == Map::<Seq<char>, Precedence>::empty(),
            r.wf(),
    {
        PrecMap { items: Vec::new() }
    }

    #[verifier::loop_isolation(false)]
    pub fn contains_key(&self, k: &str) -> (r: bool)
        ensures
            r == self@.contains_key(k@),
    {
        proof {
            lemma_assoc_map_contains(self.items@, k@);
        }
        let mut i: usize = 0;
        while i < self.items.len()
            invariant
                i <= self.items@.len(),
                forall|j: int| 0 <= j < i ==> self.items@[j].0@ != k@,
            decreases self.items@.len() - i,
        {
            if string_eq_str(&self.items[i].0, k) {
                proof {
                    let s = self.items@;
                    assert(0 <= (i as int) && (i as int) < s.len() && s[i as int].0@ == k@);
                    assert(exists|j: int| 0 <= j < s.len() && s[j].0@ == k@);
                }
                return true;
            }
            i = i + 1;
        }
        false
    }

    #[verifier::loop_isolation(false)]
    pub fn get(&self, k: &str) -> (r: Option<Precedence>)
        requires
            self.wf(),
        ensures
            r == if self@.contains_key(k@) {
                Some(self@[k@])
            } else {
                None::<Precedence>
            },
    {
        proof {
            lemma_assoc_map_contains(self.items@, k@);
        }
        let mut i: usize = 0;
        while i < self.items.len()
            invariant
                self.wf(),
                i <= self.items@.len(),
                forall|j: int| 0 <= j < i ==> self.items@[j].0@ != k@,
            decreases self.items@.len() - i,
        {
            if string_eq_str(&self.items[i].0, k) {
                proof {
                    assert(self.items@[i as int].0@ == k@);
                    lemma_assoc_map_at(self.items@, i as int);
                }
                return Some(self.items[i].1);
            }
            i = i + 1;
        }
        None
    }

    /// Add or replace the precedence of a token.
    #[verifier::loop_isolation(false)]
    pub fn insert(&mut self, k: String, v: Precedence)
        requires
            old(self).wf(),
        ensures
            final(self).wf(),
            final(self)@ == old(self)@.insert(k@, v),
    {
        let ghost s0 = self.items@;
        let ghost kv = k@;
        let mut i: usize = 0;
        while i < self.items.len()
            invariant
                self.items@ == s0,
                keys_distinct(s0),
                i <= s0.len(),
                forall|j: int| 0 <= j < i ==> s0[j].0@ != kv,
                kv == k@,
            decreases s0.len() - i,
        {
            if string_eq_str(&self.items[i].0, k.as_str()) {
                self.items.set(i, (k, v));
                proof {
                    let t = self.items@;
                    assert(t[i as int].0@ == kv);
                    assert(t[i as int].1 == v);
                    assert(t =~= s0.update(i as int, t[i as int]));
                    lemma_update_insert(s0, t, i as int);
                    assert(assoc_map(t) == assoc_map(s0).insert(t[i as int].0@, t[i as int].1));
                    assert(assoc_map(t) == assoc_map(s0).insert(kv, v));
                    assert(old(self).items@ == s0);
                    assert(self@ == old(self)@.insert(kv, v));
                }
                return ;
            }
            i = i + 1;
        }
        self.items.push((k, v));
        proof {
            assert(self.items@.drop_last() =~= s0);
            assert(keys_distinct(self.items@)) by {
                let t = self.items@;
                assert forall|x: int, y: int| 0 <= x < y < t.len() implies t[x].0@ != t[y].0@ by {
                    if y < t.len() - 1 {
                        assert(t[x] == s0[x]);
                        assert(t[y] == s0[y]);
                    } else {
                        assert(t[x] == s0[x]);
                        assert(t[y].0@ == kv);
                    }
                }
            }
        }
    }
}

} // verus!
