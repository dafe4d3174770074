//! All the subsets of a list of numbers.

use vstd::prelude::*;
use vstd::arithmetic::power2::{lemma2_to64, lemma_pow2_unfold, pow2};

verus! {

/// Each of `subsets` with `item` put at its end.
pub open spec fn extended(subsets: Seq<Seq<i32>>, item: i32) -> Seq<Seq<i32>> {
    Seq::new(subsets.len(), |i: int| subsets[i].push(item))
}

/// The subsets of a list: those of the list without its last item, and
/// then the same again with the last item added to each.
pub open spec fn subsets_spec(items: Seq<i32>) -> Seq<Seq<i32>>
    decreases items.len(),
{
    if items.len() == 0 {
        seq![Seq::<i32>::empty()]
    } else {
        let before = subsets_spec(items.drop_last());
        before + extended(before, items.last())
    }
}

/// The views of a list of lists.
pub open spec fn lists_view(lists: Seq<Vec<i32>>) -> Seq<Seq<i32>> {
    Seq::new(lists.len(), |i: int| lists[i]@)
}

/// A list of n items has 2^n subsets.
pub proof fn lemma_subsets_len(items: Seq<i32>)
    ensures
        subsets_spec(items).len() == pow2(items.len()),
    decreases items.len(),
{
    if items.len() == 0 {
        lemma2_to64();
    } else {
        lemma_pow2_unfold(items.len());
        lemma_subsets_len(items.drop_last());
    }
}

/// Whether `part` is made of items of `whole` in the order of `whole`:
/// `whole` with some of its places left out.
pub open spec fn is_sublist(part: Seq<i32>, whole: Seq<i32>) -> bool
    decreases whole.len(),
{
    if part.len() == 0 {
        true
    } else if whole.len() == 0 {
        false
    } else {
        (part.last() == whole.last() && is_sublist(part.drop_last(), whole.drop_last())) || is_sublist(
            part,
            whole.drop_last(),
        )
    }
}

/// Every subset listed is the list with some of its places left out.
pub proof fn lemma_subsets_are_sublists(items: Seq<i32>, k: int)
    requires
        0 <= k < subsets_spec(items).len(),
    ensures
        is_sublist(subsets_spec(items)[k], items),
    decreases items.len(),
{
    if items.len() > 0 {
        let before = subsets_spec(items.drop_last());
        if k < before.len() {
            lemma_subsets_are_sublists(items.drop_last(), k);
        } else {
            let j = k - before.len();
            lemma_subsets_are_sublists(items.drop_last(), j);
            let part = subsets_spec(items)[k];
            assert(part == before[j].push(items.last()));
            assert(part.drop_last() == before[j]);
        }
    }
}

/// Lists the subsets of `set`, the empty one first.
pub fn powerset(set: &Vec<i32>) -> (subsets: Vec<Vec<i32>>)
    ensures
        lists_view(subsets@) == subsets_spec(set@),
        subsets@.len() == pow2(set@.len()),
{
    proof {
        lemma_subsets_len(set@);
    }
    let mut subsets: Vec<Vec<i32>> = Vec::new();
    subsets.push(Vec::new());
    assert(lists_view(subsets@) == subsets_spec(set@.take(0)));
    let mut n: usize = 0;
    while n < set.len()
        invariant
            n <= set.len(),
            lists_view(subsets@) == subsets_spec(set@.take(n as int)),
        decreases set.len() - n,
    {
        let num = set[n];
        let ghost before = lists_view(subsets@);
        let count = subsets.len();
        let mut i: usize = 0;
        while i < count
            invariant
                i <= count,
                count == before.len(),
                subsets@.len() == count + i,
                lists_view(subsets@) == before + extended(before, num).take(i as int),
            decreases count - i,
        {
            let mut new_subset: Vec<i32> = Vec::new();
            let mut j: usize = 0;
            while j < subsets[i].len()
                invariant
                    i < subsets@.len(),
                    j <= subsets@[i as int].len(),
                    new_subset@ == subsets@[i as int]@.take(j as int),
                decreases subsets@[i as int].len() - j,
            {
                new_subset.push(subsets[i][j]);
                j += 1;
            }
            proof {
                assert(subsets@[i as int]@.take(j as int) == subsets@[i as int]@);
                assert(subsets@[i as int]@ == lists_view(subsets@)[i as int]);
                assert(lists_view(subsets@)[i as int] == before[i as int]);
            }
            new_subset.push(num);
            let ghost listed = lists_view(subsets@);
            subsets.push(new_subset);
            proof {
                let more = extended(before, num);
                assert(lists_view(subsets@) == listed.push(new_subset@));
                assert(more.take(i + 1) == more.take(i as int).push(more[i as int]));
            }
            i += 1;
        }
        proof {
            let more = extended(before, num);
            assert(more.take(count as int) == more);
            assert(set@.take(n + 1).drop_last() == set@.take(n as int));
            assert(set@.take(n + 1).last() == num);
        }
        n += 1;
    }
    assert(set@.take(n as int) == set@);
    subsets
}

} // verus!
