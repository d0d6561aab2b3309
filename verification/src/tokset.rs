//! An insertion-ordered set of token names. Compilation lays terminals out in
//! this set's iteration order, so the order is part of the model: the view is
//! the sequence of members in insertion order, without duplicates.

use vstd::prelude::*;

use crate::strutil::string_eq_str;

verus! {

/// An insertion-ordered set of strings, used for the declared tokens of a
/// grammar and for the `%implicit_tokens` set.
#[derive(Debug)]
pub struct TokenSet {
    items: Vec<String>,
}

impl View for TokenSet {
    type V = Seq<Seq<char>>;

    closed spec fn view(&self) -> Seq<Seq<char>> {
        self.items@.map_values(|s: String| s@)
    }
}

impl TokenSet {
    /// The members are pairwise distinct.
    pub open spec fn wf(&self) -> bool {
        forall|i: int, j: int| 0 <= i < j < self@.len() ==> self@[i] != self@[j]
    }

    pub fn new() -> (r: TokenSet)
        ensures
            r@ == Seq::<Seq<char>>::empty(),
            r.wf(),
    {
        TokenSet { items: Vec::new() }
    }

    pub fn len(&self) -> (r: usize)
        ensures
            r == self@.len(),
    {
        self.items.len()
    }

    pub fn get(&self, i: usize) -> (r: &String)
        requires
            i < self@.len(),
        ensures
            r@ == self@[i as int],
    {
        &self.items[i]
    }

    #[verifier::loop_isolation(false)]
    pub fn contains(&self, k: &str) -> (r: bool)
        ensures
            r == self@.contains(k@),
    {
        let mut i: usize = 0;
        while i < self.items.len()
            invariant
                i <= self@.len(),
                forall|j: int| 0 <= j < i ==> self@[j] != k@,
            decreases self@.len() - i,
        {
            if string_eq_str(&self.items[i], k) {
                proof {
                    assert(self@[i as int] == k@);
                }
                return true;
            }
            i = i + 1;
        }
        false
    }

    /// Add a member; adding one already present leaves the set unchanged.
    pub fn insert(&mut self, k: String)
        requires
            old(self).wf(),
        ensures
            final(self).wf(),
            old(self)@.contains(k@) ==> final(self)@ == old(self)@,
            !old(self)@.contains(k@) ==> final(self)@ == old(self)@.push(k@),
    {
        if !self.contains(k.as_str()) {
            let ghost v0 = self@;
            let ghost kv = k@;
            self.items.push(k);
            proof {
                assert(self@ =~= v0.push(kv));
            }
        }
    }
}

} // verus!
