//! Facts about filtered sequences.

use vstd::prelude::*;

verus! {

/// A filter that every item passes changes nothing; one that is applied
/// to items that all differ gives items that all differ, each of which
/// passes and was there before.
pub proof fn lemma_filter_items<A>(items: Seq<A>, pred: spec_fn(A) -> bool)
    ensures
        (forall|i: int| 0 <= i < items.len() ==> pred(items[i])) ==> items.filter(pred) == items,
        items.no_duplicates() ==> items.filter(pred).no_duplicates(),
        forall|x: A| #[trigger]
            items.filter(pred).contains(x) <==> items.contains(x) && pred(x),
    decreases items.len(),
{
    reveal(Seq::filter);
    if items.len() > 0 {
        let init = items.drop_last();
        let last = items.last();
        lemma_filter_items(init, pred);
        assert(items =~= init.push(last));
        let kept = init.filter(pred);
        assert forall|x: A| #[trigger]
            items.filter(pred).contains(x) <==> items.contains(x) && pred(x) by {
            if items.filter(pred).contains(x) {
                let i = choose|i: int|
                    0 <= i < items.filter(pred).len() && items.filter(pred)[i] == x;
                if i < kept.len() {
                    assert(kept[i] == x);
                    assert(kept.contains(x));
                    let j = choose|j: int| 0 <= j < init.len() && init[j] == x;
                    assert(items[j] == x);
                } else {
                    assert(items[items.len() - 1] == x);
                }
            }
            if items.contains(x) && pred(x) {
                let j = choose|j: int| 0 <= j < items.len() && items[j] == x;
                if j < init.len() {
                    assert(init[j] == x);
                    assert(kept.contains(x));
                    let i = choose|i: int| 0 <= i < kept.len() && kept[i] == x;
                    assert(items.filter(pred)[i] == x);
                } else {
                    assert(items.filter(pred)[kept.len() as int] == x);
                }
            }
        }
        if forall|i: int| 0 <= i < items.len() ==> pred(items[i]) {
            assert forall|i: int| 0 <= i < init.len() implies pred(init[i]) by {
                assert(init[i] == items[i]);
            }
            assert(items.filter(pred) =~= items);
        }
        if items.no_duplicates() {
            assert(init.no_duplicates());
            if pred(last) {
                if kept.contains(last) {
                    let j = choose|j: int| 0 <= j < init.len() && init[j] == last;
                    assert(items[j] == items[items.len() - 1]);
                }
                assert(kept.push(last).no_duplicates());
            }
        }
    }
}

} // verus!
