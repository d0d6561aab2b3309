//! Small string helpers: the one fact about `str` equality the library
//! relies on, and comparison helpers built on it.

use vstd::prelude::*;

verus! {

/// Relies on `str`'s `PartialEq`: two string slices compare equal exactly
/// when their character sequences are equal.
pub assume_specification[ <str as PartialEq<str>>::eq ](a: &str, b: &str) -> (r: bool)
    ensures
        r == (a@ == b@),
;

/// Compare two string slices by contents.
pub fn str_eq(a: &str, b: &str) -> (r: bool)
    ensures
        r == (a@ == b@),
{
    str::eq(a, b)
}

/// Compare a `String` with a string slice by contents.
pub fn string_eq_str(a: &String, b: &str) -> (r: bool)
    ensures
        r == (a@ == b@),
{
    str::eq(a.as_str(), b)
}

/// The character sequences of a sequence of strings.
pub open spec fn strs_view(s: Seq<String>) -> Seq<Seq<char>> {
    s.map_values(|x: String| x@)
}

/// The first position of `n` in `names`, or `-1`.
pub open spec fn seq_find(names: Seq<Seq<char>>, n: Seq<char>) -> int
    decreases names.len(),
{
    if names.len() == 0 {
        -1
    } else if names[0] == n {
        0
    } else {
        let r = seq_find(names.drop_first(), n);
        if r == -1 {
            -1
        } else {
            r + 1
        }
    }
}

pub broadcast proof fn lemma_seq_find(names: Seq<Seq<char>>, n: Seq<char>)
    ensures
        #[trigger] seq_find(names, n) == -1 <==> !names.contains(n),
        names.contains(n) ==> {
            let i = seq_find(names, n);
            0 <= i < names.len() && names[i] == n && forall|j: int| 0 <= j < i ==> names[j] != n
        },
    decreases names.len(),
{
    if names.len() > 0 && names[0] != n {
        lemma_seq_find(names.drop_first(), n);
        let nd = names.drop_first();
        assert(forall|i: int| 0 <= i < nd.len() ==> nd[i] == names[i + 1]);
        if nd.contains(n) {
            let i = choose|i: int| 0 <= i < nd.len() && nd[i] == n;
            assert(names[i + 1] == n);
            let f = seq_find(nd, n);
            assert(seq_find(names, n) == f + 1);
            assert forall|j: int| 0 <= j < f + 1 implies names[j] != n by {
                if j > 0 {
                    assert(nd[j - 1] != n);
                }
            }
        }
        if names.contains(n) {
            let i = choose|i: int| 0 <= i < names.len() && names[i] == n;
            assert(nd[i - 1] == n);
        }
    }
}

/// Find a name in a vector of strings: the first position, or `None`.
#[verifier::loop_isolation(false)]
pub fn find_name_idx(names: &Vec<String>, n: &str) -> (r: Option<usize>)
    ensures
        match r {
            Some(i) => i as int == seq_find(strs_view(names@), n@) && i < names@.len()
                && names@[i as int]@ == n@,
            None => !strs_view(names@).contains(n@),
        },
{
    proof {
        lemma_seq_find(strs_view(names@), n@);
    }
    let mut i: usize = 0;
    while i < names.len()
        invariant
            i <= names@.len(),
            forall|j: int| 0 <= j < i ==> strs_view(names@)[j] != n@,
        decreases names@.len() - i,
    {
        if string_eq_str(&names[i], n) {
            proof {
                assert(strs_view(names@)[i as int] == n@);
                assert(strs_view(names@).contains(n@));
            }
            return Some(i);
        }
        i = i + 1;
    }
    proof {
        if strs_view(names@).contains(n@) {
            let j = choose|j: int| 0 <= j < strs_view(names@).len() && strs_view(names@)[j] == n@;
            assert(false);
        }
    }
    None
}

} // verus!
