use vstd::prelude::*;

verus! {

/// The items of `v`, last first.
pub(crate) fn reversed<T: Copy>(v: &Vec<T>) -> (r: Vec<T>)
    ensures
        r@ == v@.reverse(),
{
    let mut r: Vec<T> = Vec::new();
    let mut k: usize = v.len();
    while k > 0
        invariant
            k <= v@.len(),
            r@.len() == v@.len() - k,
            forall|j: int| 0 <= j < r@.len() ==> r@[j] == v@[v@.len() - 1 - j],
        decreases k,
    {
        k = k - 1;
        r.push(v[k]);
    }
    assert(r@ =~= v@.reverse());
    r
}

/// Puts the items of `more` behind those of `words`.
pub(crate) fn append(words: &mut Vec<isize>, more: &Vec<isize>)
    ensures
        final(words)@ == old(words)@ + more@,
{
    let mut i: usize = 0;
    while i < more.len()
        invariant
            i <= more@.len(),
            words@ == old(words)@ + more@.subrange(0, i as int),
        decreases more@.len() - i,
    {
        words.push(more[i]);
        i = i + 1;
        assert(words@ =~= old(words)@ + more@.subrange(0, i as int));
    }
    assert(more@.subrange(0, more@.len() as int) =~= more@);
}

} // verus!
