//! Small operations on vectors that the rest of the crate shares.
use vstd::prelude::*;

verus! {

/// The entries of `items` whose mark is set, in order.
pub open spec fn marked<T>(items: Seq<T>, keep: Seq<bool>) -> Seq<T>
    decreases items.len(),
{
    if items.len() == 0 {
        Seq::empty()
    } else if keep[items.len() - 1] {
        marked(items.drop_last(), keep).push(items.last())
    } else {
        marked(items.drop_last(), keep)
    }
}

/// The list back to front.
pub fn reversed<T>(items: Vec<T>) -> (r: Vec<T>)
    ensures
        r@ == items@.reverse(),
{
    let ghost all = items@;
    let mut rest = items;
    let mut out: Vec<T> = Vec::new();
    while rest.len() > 0
        invariant
            rest@.len() + out@.len() == all.len(),
            rest@ == all.take(rest@.len() as int),
            forall|k: int| 0 <= k < out@.len() ==> out@[k] == all[all.len() - 1 - k],
        decreases rest.len(),
    {
        match rest.pop() {
            Some(item) => {
                out.push(item);
            },
            None => {},
        }
        assert(rest@ =~= all.take(rest@.len() as int));
    }
    assert(out@ =~= all.reverse());
    out
}

/// Keeps the entries whose mark is set.
pub fn retain_marked<T>(items: Vec<T>, keep: &Vec<bool>) -> (r: Vec<T>)
    requires
        keep@.len() == items@.len(),
    ensures
        r@ == marked(items@, keep@),
{
    let ghost all = items@;
    let n: usize = items.len();
    let mut rest = reversed(items);
    let mut out: Vec<T> = Vec::new();
    let mut at: usize = 0;
    while rest.len() > 0
        invariant
            n == all.len(),
            keep@.len() == all.len(),
            at + rest@.len() == all.len(),
            forall|k: int| 0 <= k < rest@.len() ==> rest@[k] == all[all.len() - 1 - k],
            out@ == marked(all.take(at as int), keep@),
        decreases rest.len(),
    {
        match rest.pop() {
            Some(item) => {
                assert(item == all[at as int]);
                assert(all.take(at + 1).drop_last() =~= all.take(at as int));
                if keep[at] {
                    out.push(item);
                }
                at += 1;
            },
            None => {},
        }
    }
    assert(all.take(at as int) =~= all);
    out
}

/// Marks that follow a predicate keep what the predicate keeps.
pub proof fn lemma_marked_is_filter<T>(items: Seq<T>, keep: Seq<bool>, test: spec_fn(T) -> bool)
    requires
        keep.len() >= items.len(),
        forall|i: int| 0 <= i < items.len() ==> keep[i] == test(#[trigger] items[i]),
    ensures
        marked(items, keep) == items.filter(test),
    decreases items.len(),
{
    reveal(Seq::filter);
    if items.len() > 0 {
        let init = items.drop_last();
        assert forall|i: int| 0 <= i < init.len() implies keep[i] == test(
            #[trigger] init[i],
        ) by {
            assert(init[i] == items[i]);
        }
        lemma_marked_is_filter(init, keep, test);
        assert(keep[items.len() - 1] == test(items[items.len() - 1]));
    } else {
        assert(marked(items, keep) =~= items.filter(test));
    }
}

/// Whether a list of slots holds one.
pub fn holds_slot(list: &Vec<usize>, slot: usize) -> (r: bool)
    ensures
        r == list@.contains(slot),
{
    let mut i: usize = 0;
    while i < list.len()
        invariant
            i <= list@.len(),
            forall|k: int| 0 <= k < i ==> list@[k] != slot,
        decreases list.len() - i,
    {
        if list[i] == slot {
            return true;
        }
        i += 1;
    }
    false
}

/// A copy of a list of slots.
pub fn copy_slots(list: &Vec<usize>) -> (r: Vec<usize>)
    ensures
        r@ == list@,
{
    let mut out: Vec<usize> = Vec::new();
    let mut i: usize = 0;
    while i < list.len()
        invariant
            i <= list@.len(),
            out@ == list@.take(i as int),
        decreases list.len() - i,
    {
        out.push(list[i]);
        i += 1;
        assert(out@ =~= list@.take(i as int));
    }
    assert(list@.take(i as int) =~= list@);
    out
}

/// Whether every slot of `a` is one of `b`.
pub fn is_slot_subset(a: &Vec<usize>, b: &Vec<usize>) -> (r: bool)
    ensures
        r == a@.to_set().subset_of(b@.to_set()),
{
    let mut i: usize = 0;
    while i < a.len()
        invariant
            i <= a@.len(),
            forall|k: int| 0 <= k < i ==> b@.contains(#[trigger] a@[k]),
        decreases a.len() - i,
    {
        if !holds_slot(b, a[i]) {
            assert(a@.to_set().contains(a@[i as int]));
            assert(!b@.to_set().contains(a@[i as int]));
            return false;
        }
        i += 1;
    }
    assert forall|x: usize| a@.to_set().contains(x) implies b@.to_set().contains(x) by {
        let k = choose|k: int| 0 <= k < a@.len() && a@[k] == x;
        assert(b@.contains(a@[k]));
    }
    true
}

/// The places of the marks that are set, in order.
pub open spec fn true_places(marks: Seq<bool>) -> Seq<int>
    decreases marks.len(),
{
    if marks.len() == 0 {
        Seq::empty()
    } else if marks.last() {
        true_places(marks.drop_last()).push(marks.len() - 1)
    } else {
        true_places(marks.drop_last())
    }
}

/// The places of set marks ascend, and no other place is among them.
pub proof fn law_true_places_ascend(marks: Seq<bool>)
    ensures
        forall|i: int, j: int|
            #![trigger true_places(marks)[i], true_places(marks)[j]]
            0 <= i < j < true_places(marks).len() ==> true_places(marks)[i] < true_places(
                marks,
            )[j],
        forall|p: int| #[trigger]
            true_places(marks).contains(p) <==> 0 <= p < marks.len() && marks[p],
        forall|k: int|
            0 <= k < true_places(marks).len() ==> 0 <= (#[trigger] true_places(marks)[k])
                < marks.len() && marks[true_places(marks)[k]],
    decreases marks.len(),
{
    if marks.len() > 0 {
        let init = marks.drop_last();
        law_true_places_ascend(init);
        let before = true_places(init);
        let after = true_places(marks);
        let n = marks.len() - 1;
        assert forall|k: int| 0 <= k < after.len() implies 0 <= (#[trigger] after[k])
            < marks.len() && marks[after[k]] by {
            if k < before.len() {
                assert(after[k] == before[k]);
                assert(init[before[k]] == marks[before[k]]);
            }
        }
        assert forall|p: int| #[trigger] after.contains(p) <==> 0 <= p < marks.len()
            && marks[p] by {
            if 0 <= p < n {
                assert(init[p] == marks[p]);
                if marks[p] {
                    assert(before.contains(p));
                    let k = choose|k: int| 0 <= k < before.len() && before[k] == p;
                    assert(after[k] == p);
                }
            }
            if p == n && marks[n] {
                assert(after[before.len() as int] == n);
            }
            if after.contains(p) {
                let k = choose|k: int| 0 <= k < after.len() && after[k] == p;
                assert(0 <= after[k] < marks.len());
            }
        }
    }
}

/// What marks pick from a list are its entries at the set marks, in order.
pub proof fn law_marks_pick_in_order<T>(items: Seq<T>, keep: Seq<bool>)
    requires
        keep.len() == items.len(),
    ensures
        marked(items, keep).len() == true_places(keep).len(),
        forall|k: int|
            0 <= k < marked(items, keep).len() ==> #[trigger] marked(items, keep)[k]
                == items[true_places(keep)[k]],
    decreases items.len(),
{
    if items.len() > 0 {
        let init = items.drop_last();
        let some = keep.drop_last();
        law_marks_pick_in_order(init, some);
        lemma_marks_beyond(init, some, keep);
        law_true_places_ascend(some);
        let before = marked(init, some);
        let after = marked(items, keep);
        assert forall|k: int| 0 <= k < after.len() implies #[trigger] after[k]
            == items[true_places(keep)[k]] by {
            if k < before.len() {
                assert(after[k] == before[k]);
                assert(true_places(keep)[k] == true_places(some)[k]);
                assert(init[true_places(some)[k]] == items[true_places(some)[k]]);
            }
        }
    }
}

proof fn lemma_marks_beyond<T>(items: Seq<T>, a: Seq<bool>, b: Seq<bool>)
    requires
        forall|i: int| 0 <= i < items.len() ==> #[trigger] a[i] == b[i],
    ensures
        marked(items, a) == marked(items, b),
    decreases items.len(),
{
    if items.len() > 0 {
        lemma_marks_beyond(items.drop_last(), a, b);
        assert(a[items.len() - 1] == b[items.len() - 1]);
    }
}

/// `out` is what stands at those places of the list, in the order of the list.
pub open spec fn stands_at<T>(list: Seq<T>, out: Seq<T>, places: Seq<int>) -> bool {
    &&& out.len() == places.len()
    &&& forall|k: int|
        0 <= k < places.len() ==> 0 <= (#[trigger] places[k]) < list.len() && out[k]
            == list[places[k]]
    &&& forall|i: int, j: int|
        #![trigger places[i], places[j]]
        0 <= i < j < places.len() ==> places[i] < places[j]
}

/// What a test picks from a list stands in the order of the list, and nothing
/// that passes is left out.
pub proof fn law_filter_picks_in_order<T>(list: Seq<T>, test: spec_fn(T) -> bool) -> (places: Seq<
    int,
>)
    ensures
        stands_at(list, list.filter(test), places),
        forall|i: int| 0 <= i < list.len() ==> (places.contains(i) <==> test(#[trigger] list[i])),
{
    let keep = Seq::new(list.len(), |i: int| test(list[i]));
    lemma_marked_is_filter(list, keep, test);
    law_marks_pick_in_order(list, keep);
    law_true_places_ascend(keep);
    let places = true_places(keep);
    assert forall|i: int| 0 <= i < list.len() implies (places.contains(i) <==> test(
        #[trigger] list[i],
    )) by {
        assert(keep[i] == test(list[i]));
    }
    places
}

} // verus!
