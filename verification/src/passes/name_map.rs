//! A small map from names to indices, held as a list of pairs in which a
//! later pair for a name overrides an earlier one.
use vstd::prelude::*;

verus! {

/// The map held by a list of (name, index) pairs: a later pair for a name
/// overrides an earlier one.
pub open spec fn pmap(v: Seq<(String, usize)>) -> Map<Seq<char>, int>
    decreases v.len(),
{
    if v.len() == 0 {
        Map::empty()
    } else {
        pmap(v.drop_last()).insert(v.last().0@, v.last().1 as int)
    }
}

pub proof fn lemma_pmap_dom(v: Seq<(String, usize)>, k: Seq<char>)
    ensures
        pmap(v).dom().contains(k) <==> exists|i: int| 0 <= i < v.len() && #[trigger] v[i].0@ == k,
    decreases v.len(),
{
    if v.len() > 0 {
        lemma_pmap_dom(v.drop_last(), k);
        if exists|i: int| 0 <= i < v.len() && #[trigger] v[i].0@ == k {
            let i = choose|i: int| 0 <= i < v.len() && #[trigger] v[i].0@ == k;
            if i < v.len() - 1 {
                assert(v.drop_last()[i].0@ == k);
            }
        }
        if exists|i: int| 0 <= i < v.drop_last().len() && #[trigger] v.drop_last()[i].0@ == k {
            let i = choose|i: int| 0 <= i < v.drop_last().len() && #[trigger] v.drop_last()[i].0@ == k;
            assert(v[i].0@ == k);
        }
    }
}

pub proof fn lemma_pmap_last(v: Seq<(String, usize)>, k: Seq<char>, i: int)
    requires
        0 <= i < v.len(),
        v[i].0@ == k,
        forall|j: int| i < j < v.len() ==> (#[trigger] v[j]).0@ != k,
    ensures
        pmap(v).dom().contains(k),
        pmap(v)[k] == v[i].1,
    decreases v.len(),
{
    if i < v.len() - 1 {
        lemma_pmap_last(v.drop_last(), k, i);
        assert(v.last() == v[v.len() - 1]);
    }
}

pub fn pending_remove(v: &mut Vec<(String, usize)>, name: &String)
    ensures
        pmap(final(v)@) == pmap(old(v)@).remove(name@),
{
    let mut kept: Vec<(String, usize)> = Vec::new();
    let mut i: usize = 0;
    while i < v.len()
        invariant
            i <= v@.len(),
            pmap(kept@) == pmap(v@.take(i as int)).remove(name@),
        decreases v@.len() - i,
    {
        let ghost before = kept@;
        assert(v@.take(i + 1).drop_last() =~= v@.take(i as int));
        assert(v@.take(i + 1).last() == v@[i as int]);
        if v[i].0 != *name {
            let k = v[i].0.clone();
            let idx = v[i].1;
            kept.push((k, idx));
            assert(kept@.drop_last() =~= before);
            assert(pmap(kept@) =~= pmap(v@.take(i + 1)).remove(name@));
        } else {
            assert(pmap(kept@) =~= pmap(v@.take(i + 1)).remove(name@));
        }
        i += 1;
    }
    assert(v@.take(v@.len() as int) =~= v@);
    *v = kept;
}

pub fn pending_get(v: &Vec<(String, usize)>, name: &String) -> (r: Option<usize>)
    ensures
        r is Some <==> pmap(v@).dom().contains(name@),
        r matches Some(idx) ==> pmap(v@)[name@] == idx,
{
    let mut i: usize = v.len();
    while i > 0
        invariant
            i <= v@.len(),
            forall|b: int| i <= b < v@.len() ==> (#[trigger] v@[b]).0@ != name@,
        decreases i,
    {
        i -= 1;
        if v[i].0 == *name {
            proof {
                lemma_pmap_last(v@, name@, i as int);
            }
            return Some(v[i].1);
        }
    }
    proof {
        lemma_pmap_dom(v@, name@);
    }
    None
}

pub fn pending_insert(v: &mut Vec<(String, usize)>, name: String, idx: usize)
    ensures
        pmap(final(v)@) == pmap(old(v)@).insert(name@, idx as int),
{
    let ghost before = v@;
    v.push((name, idx));
    assert(v@.drop_last() =~= before);
}

} // verus!
