//! The AST's rule table: an insertion-ordered map from rule names to the
//! indices of their productions, kept in an `indexmap::IndexMap`. Verus sees
//! the map through `rules_view`, the sequence of its entries in order, and
//! through the contracts of the small wrappers below.

use vstd::prelude::*;

verus! {

#[verifier::external_type_specification]
#[verifier::external_body]
#[verifier::reject_recursive_types(K)]
#[verifier::reject_recursive_types(V)]
#[verifier::reject_recursive_types(S)]
pub struct ExIndexMap<K, V, S>(indexmap::IndexMap<K, V, S>);

/// The entries of the rule table, in insertion order: each is a rule name and
/// the production indices attached to that rule.
pub uninterp spec fn rules_view(m: indexmap::IndexMap<String, Vec<usize>>) -> Seq<
    (Seq<char>, Seq<usize>),
>;

/// Some entry holds the key `k`.
pub open spec fn rules_has_key(v: Seq<(Seq<char>, Seq<usize>)>, k: Seq<char>) -> bool {
    exists|i: int| 0 <= i < v.len() && v[i].0 == k
}

/// The first entry holding the key `k`, or `-1`.
pub open spec fn rules_find_key(v: Seq<(Seq<char>, Seq<usize>)>, k: Seq<char>) -> int
    decreases v.len(),
{
    if v.len() == 0 {
        -1
    } else if v[0].0 == k {
        0
    } else {
        let r = rules_find_key(v.drop_first(), k);
        if r == -1 {
            -1
        } else {
            r + 1
        }
    }
}

/// The keys of the entries are pairwise distinct.
pub open spec fn rules_keys_distinct(v: Seq<(Seq<char>, Seq<usize>)>) -> bool {
    forall|i: int, j: int| 0 <= i < j < v.len() ==> v[i].0 != v[j].0
}

pub broadcast proof fn lemma_rules_find_key(v: Seq<(Seq<char>, Seq<usize>)>, k: Seq<char>)
    ensures
        #[trigger] rules_find_key(v, k) == -1 <==> !rules_has_key(v, k),
        rules_has_key(v, k) ==> {
            let i = rules_find_key(v, k);
            0 <= i < v.len() && v[i].0 == k && forall|j: int| 0 <= j < i ==> v[j].0 != k
        },
    decreases v.len(),
{
    if v.len() > 0 && v[0].0 != k {
        lemma_rules_find_key(v.drop_first(), k);
        let vd = v.drop_first();
        assert(forall|i: int| 0 <= i < vd.len() ==> vd[i] == v[i + 1]);
        if rules_has_key(vd, k) {
            let i = choose|i: int| 0 <= i < vd.len() && vd[i].0 == k;
            assert(v[i + 1].0 == k);
            let f = rules_find_key(vd, k);
            assert(rules_find_key(v, k) == f + 1);
            assert forall|j: int| 0 <= j < f + 1 implies v[j].0 != k by {
                if j > 0 {
                    assert(vd[j - 1].0 != k);
                }
            }
        }
        if rules_has_key(v, k) {
            let i = choose|i: int| 0 <= i < v.len() && v[i].0 == k;
            assert(vd[i - 1].0 == k);
        }
    }
}

/// Relies on `IndexMap::new`: makes an empty map.
#[verifier::external_body]
pub fn rules_new() -> (r: indexmap::IndexMap<String, Vec<usize>>)
    ensures
        rules_view(r) == Seq::<(Seq<char>, Seq<usize>)>::empty(),
{
    indexmap::IndexMap::new()
}

/// Relies on `IndexMap::len`: the number of entries.
#[verifier::external_body]
pub fn rules_len(m: &indexmap::IndexMap<String, Vec<usize>>) -> (r: usize)
    ensures
        r == rules_view(*m).len(),
{
    m.len()
}

/// Relies on `IndexMap::get_index_of`: the position of a key in insertion
/// order, or `None` when no entry holds it.
#[verifier::external_body]
pub fn rules_get_index_of(m: &indexmap::IndexMap<String, Vec<usize>>, k: &str) -> (r: Option<
    usize,
>)
    ensures
        match r {
            Some(i) => i < rules_view(*m).len() && rules_view(*m)[i as int].0 == k@,
            None => !rules_has_key(rules_view(*m), k@),
        },
{
    m.get_index_of(k)
}

/// Relies on `IndexMap::get_index`: the entry at a position in insertion
/// order. The key and the production list are handed out as clones.
#[verifier::external_body]
pub fn rules_get_index(m: &indexmap::IndexMap<String, Vec<usize>>, i: usize) -> (r: (
    String,
    Vec<usize>,
))
    requires
        i < rules_view(*m).len(),
    ensures
        r.0@ == rules_view(*m)[i as int].0,
        r.1@ == rules_view(*m)[i as int].1,
{
    let (k, v) = m.get_index(i).unwrap();
    (k.clone(), v.clone())
}

/// Relies on `IndexMap::get`: the value stored for a key.
#[verifier::external_body]
pub fn rules_get<'a>(m: &'a indexmap::IndexMap<String, Vec<usize>>, k: &str) -> (r: Option<
    &'a Vec<usize>,
>)
    ensures
        match r {
            Some(v) => rules_has_key(rules_view(*m), k@) && v@ == rules_view(*m)[rules_find_key(
                rules_view(*m),
                k@,
            )].1,
            None => !rules_has_key(rules_view(*m), k@),
        },
{
    m.get(k)
}

/// Relies on `IndexMap::entry`: appends `p` to the production list of `k`,
/// adding the entry, last in order, when `k` is new.
#[verifier::external_body]
pub fn rules_push_prod(m: &mut indexmap::IndexMap<String, Vec<usize>>, k: String, p: usize)
    ensures
        rules_has_key(rules_view(*old(m)), k@) ==> {
            let i = rules_find_key(rules_view(*old(m)), k@);
            rules_view(*final(m)) == rules_view(*old(m)).update(
                i,
                (k@, rules_view(*old(m))[i].1.push(p)),
            )
        },
        !rules_has_key(rules_view(*old(m)), k@) ==> rules_view(*final(m)) == rules_view(
            *old(m),
        ).push((k@, seq![p])),
{
    m.entry(k).or_default().push(p);
}

} // verus!
