//! Laws of sorted-set intersection, stated over the model every kernel's
//! contract uses.
use vstd::prelude::*;
use crate::sets::{
    all_sorted, inter, inter_all, lemma_inter_contains, lemma_inter_sorted, lemma_sorted_eq, sorted,
};

verus! {

/// Intersecting a sorted set with itself gives the set back.
pub proof fn law_idempotent(a: Seq<i32>)
    requires
        sorted(a),
    ensures
        inter(a, a) == a,
{
    lemma_inter_contains(a, a);
    lemma_inter_sorted(a, a);
    lemma_sorted_eq(inter(a, a), a);
}

/// Intersecting with the empty set, on either side, gives the empty set.
pub proof fn law_empty(a: Seq<i32>)
    ensures
        inter(a, Seq::empty()) == Seq::<i32>::empty(),
        inter(Seq::empty(), a) == Seq::<i32>::empty(),
    decreases a.len(),
{
    if a.len() > 0 {
        law_empty(a.drop_last());
    }
}

/// Every element of the intersection occurs in both inputs.
pub proof fn law_subset(a: Seq<i32>, b: Seq<i32>)
    ensures
        forall|k: int|
            0 <= k < inter(a, b).len() ==> a.contains(#[trigger] inter(a, b)[k]) && b.contains(
                inter(a, b)[k],
            ),
{
    lemma_inter_contains(a, b);
    assert forall|k: int| 0 <= k < inter(a, b).len() implies a.contains(
        #[trigger] inter(a, b)[k],
    ) && b.contains(inter(a, b)[k]) by {
        assert(inter(a, b).contains(inter(a, b)[k]));
    }
}

/// The k-set intersection holds exactly the values present in every set,
/// in ascending order.
pub proof fn law_inter_all(sets: Seq<Seq<i32>>)
    requires
        sets.len() >= 1,
        all_sorted(sets),
    ensures
        sorted(inter_all(sets)),
        forall|v: i32|
            #[trigger] inter_all(sets).contains(v) <==> (forall|k: int|
                0 <= k < sets.len() ==> #[trigger] sets[k].contains(v)),
    decreases sets.len(),
{
    if sets.len() == 1 {
        assert(sorted(sets[0]));
    } else {
        let init = sets.drop_last();
        assert(all_sorted(init)) by {
            assert forall|k: int| 0 <= k < init.len() implies sorted(#[trigger] init[k]) by {
                assert(init[k] == sets[k]);
            }
        }
        law_inter_all(init);
        lemma_inter_contains(inter_all(init), sets.last());
        lemma_inter_sorted(inter_all(init), sets.last());
        assert forall|v: i32| #[trigger] inter_all(sets).contains(v) <==> (forall|k: int|
            0 <= k < sets.len() ==> #[trigger] sets[k].contains(v)) by {
            if inter_all(sets).contains(v) {
                assert forall|k: int| 0 <= k < sets.len() implies #[trigger] sets[k].contains(v) by {
                    if k < sets.len() - 1 {
                        assert(init[k] == sets[k]);
                    }
                }
            }
            if forall|k: int| 0 <= k < sets.len() ==> #[trigger] sets[k].contains(v) {
                assert forall|k: int| 0 <= k < init.len() implies #[trigger] init[k].contains(v) by {
                    assert(init[k] == sets[k]);
                    assert(sets[k].contains(v));
                }
                assert(sets[sets.len() - 1].contains(v));
            }
        }
    }
}

} // verus!
