//! Sums of integer sequences and how they change under single-element edits.

use vstd::prelude::*;

verus! {

/// The sum of `s`.
pub open spec fn sum(s: Seq<int>) -> int
    decreases s.len(),
{
    if s.len() == 0 {
        0
    } else {
        sum(s.drop_last()) + s.last()
    }
}

pub proof fn lemma_sum_push(s: Seq<int>, x: int)
    ensures
        sum(s.push(x)) == sum(s) + x,
{
    assert(s.push(x).drop_last() =~= s);
}

pub proof fn lemma_sum_insert(s: Seq<int>, k: int, x: int)
    requires
        0 <= k <= s.len(),
    ensures
        sum(s.insert(k, x)) == sum(s) + x,
    decreases s.len(),
{
    if k == s.len() {
        assert(s.insert(k, x) =~= s.push(x));
        lemma_sum_push(s, x);
    } else {
        let t = s.drop_last();
        lemma_sum_insert(t, k, x);
        assert(s.insert(k, x) =~= t.insert(k, x).push(s.last()));
        lemma_sum_push(t.insert(k, x), s.last());
    }
}

pub proof fn lemma_sum_remove(s: Seq<int>, k: int)
    requires
        0 <= k < s.len(),
    ensures
        sum(s.remove(k)) == sum(s) - s[k],
{
    let t = s.remove(k);
    assert(t.insert(k, s[k]) =~= s);
    lemma_sum_insert(t, k, s[k]);
}

pub proof fn lemma_sum_update(s: Seq<int>, k: int, x: int)
    requires
        0 <= k < s.len(),
    ensures
        sum(s.update(k, x)) == sum(s) - s[k] + x,
{
    lemma_sum_remove(s, k);
    assert(s.remove(k).insert(k, x) =~= s.update(k, x));
    lemma_sum_insert(s.remove(k), k, x);
}

} // verus!
