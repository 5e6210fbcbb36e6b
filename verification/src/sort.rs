//! A stable sort over items that know which of two stands first.
use vstd::prelude::*;

verus! {

/// Items with an order of their own.
pub trait Ranked: Sized {
    /// `self` must stand before `other`.
    spec fn before(self, other: Self) -> bool;

    /// Whether `self` must stand before `other`.
    fn is_before(&self, other: &Self) -> (b: bool)
        ensures
            b == self.before(*other),
    ;
}

/// Where `item` goes in `list`: behind the last entry that it need not precede.
pub open spec fn insertion_point<T: Ranked>(list: Seq<T>, item: T) -> int
    decreases list.len(),
{
    if list.len() == 0 {
        0
    } else if item.before(list.last()) {
        insertion_point(list.drop_last(), item)
    } else {
        list.len() as int
    }
}

/// `list` in order, equal entries in the order in which they came.
pub open spec fn sorted<T: Ranked>(list: Seq<T>) -> Seq<T>
    decreases list.len(),
{
    if list.len() == 0 {
        list
    } else {
        let head = sorted(list.drop_last());
        head.insert(insertion_point(head, list.last()), list.last())
    }
}

/// The order of the items is a strict weak order: nothing precedes itself,
/// preceding is transitive, and so is being level.
pub open spec fn well_ranked<T: Ranked>(list: Seq<T>) -> bool {
    &&& forall|a: T, b: T|
        list.contains(a) && list.contains(b) && #[trigger] a.before(b) ==> !b.before(a)
    &&& forall|a: T, b: T, c: T|
        list.contains(a) && list.contains(b) && list.contains(c) && !(#[trigger] a.before(b))
            && !(#[trigger] b.before(c)) ==> !a.before(c)
}

/// No later entry precedes an earlier one.
pub open spec fn in_order<T: Ranked>(list: Seq<T>) -> bool {
    forall|i: int, j: int|
        #![trigger list[i], list[j]]
        0 <= i < j < list.len() ==> !list[j].before(list[i])
}

pub proof fn lemma_insertion_point<T: Ranked>(list: Seq<T>, item: T)
    ensures
        0 <= insertion_point(list, item) <= list.len(),
        forall|k: int|
            insertion_point(list, item) <= k < list.len() ==> item.before(#[trigger] list[k]),
        insertion_point(list, item) > 0 ==> !item.before(
            list[insertion_point(list, item) - 1],
        ),
    decreases list.len(),
{
    if list.len() > 0 && item.before(list.last()) {
        lemma_insertion_point(list.drop_last(), item);
        let p = insertion_point(list, item);
        assert forall|k: int| p <= k < list.len() implies item.before(#[trigger] list[k]) by {
            if k < list.len() - 1 {
                assert(list.drop_last()[k] == list[k]);
            }
        }
    }
}

/// Sorting neither loses nor invents an entry.
pub proof fn law_sorted_is_a_permutation<T: Ranked>(list: Seq<T>)
    ensures
        sorted(list).len() == list.len(),
        sorted(list).to_multiset() == list.to_multiset(),
        forall|x: T| sorted(list).contains(x) <==> list.contains(x),
    decreases list.len(),
{
    if list.len() > 0 {
        let init = list.drop_last();
        let head = sorted(init);
        let p = insertion_point(head, list.last());
        law_sorted_is_a_permutation(init);
        lemma_insertion_point(head, list.last());
        head.to_multiset_ensures();
        vstd::seq_lib::to_multiset_insert(head, p, list.last());
        vstd::seq_lib::to_multiset_build(init, list.last());
        assert(init.push(list.last()) =~= list);
        sorted(list).to_multiset_ensures();
        list.to_multiset_ensures();
        assert forall|x: T| sorted(list).contains(x) <==> list.contains(x) by {
            assert(sorted(list).contains(x) <==> sorted(list).to_multiset().count(x) > 0);
            assert(list.contains(x) <==> list.to_multiset().count(x) > 0);
        }
    } else {
        assert(sorted(list) =~= list);
    }
}

/// Under a strict weak order the sorted list is in order.
pub proof fn law_sorted_is_in_order<T: Ranked>(list: Seq<T>)
    requires
        well_ranked(list),
    ensures
        in_order(sorted(list)),
    decreases list.len(),
{
    if list.len() > 0 {
        let init = list.drop_last();
        let head = sorted(init);
        let item = list.last();
        let p = insertion_point(head, item);
        let out = sorted(list);
        assert forall|x: T| init.contains(x) implies list.contains(x) by {
            let k = choose|k: int| 0 <= k < init.len() && init[k] == x;
            assert(list[k] == x);
        }
        assert(list[list.len() - 1] == item);
        law_sorted_is_in_order(init);
        law_sorted_is_a_permutation(init);
        lemma_insertion_point(head, item);
        assert forall|i: int, j: int|
            #![trigger out[i], out[j]]
            0 <= i < j < out.len() implies !out[j].before(out[i]) by {
            let a = if i < p { head[i] } else if i == p { item } else { head[i - 1] };
            let b = if j < p { head[j] } else if j == p { item } else { head[j - 1] };
            assert(out[i] == a && out[j] == b);
            if i != p {
                assert(head.contains(a));
            }
            if j != p {
                assert(head.contains(b));
            }
            if j == p {
                let prev = head[p - 1];
                assert(head.contains(prev));
                assert(!item.before(prev));
                if i < p - 1 {
                    assert(!prev.before(a));
                }
            } else if i == p {
                assert(item.before(head[j - 1]));
            }
        }
    }
}

/// Every sorted entry's place in the list as it was.
pub open spec fn is_stable_arrangement<T: Ranked>(
    list: Seq<T>,
    out: Seq<T>,
    places: Seq<int>,
) -> bool {
    &&& places.len() == list.len()
    &&& out.len() == list.len()
    &&& forall|k: int|
        0 <= k < places.len() ==> 0 <= (#[trigger] places[k]) < list.len() && out[k]
            == list[places[k]]
    &&& forall|i: int, j: int|
        #![trigger places[i], places[j]]
        0 <= i < j < places.len() ==> places[i] != places[j]
    &&& forall|i: int, j: int|
        #![trigger places[i], places[j]]
        0 <= i < j < places.len() && !out[i].before(out[j]) ==> places[i] < places[j]
}

/// Under a strict weak order the sort is stable: each entry comes from one
/// place of the input, and of two level entries the earlier one stays first.
pub proof fn law_sorted_is_stable<T: Ranked>(list: Seq<T>) -> (places: Seq<int>)
    requires
        well_ranked(list),
    ensures
        is_stable_arrangement(list, sorted(list), places),
    decreases list.len(),
{
    if list.len() == 0 {
        Seq::empty()
    } else {
        let init = list.drop_last();
        let head = sorted(init);
        let item = list.last();
        let p = insertion_point(head, item);
        let out = sorted(list);
        assert forall|x: T| init.contains(x) implies list.contains(x) by {
            let k = choose|k: int| 0 <= k < init.len() && init[k] == x;
            assert(list[k] == x);
        }
        let before = law_sorted_is_stable(init);
        law_sorted_is_a_permutation(init);
        lemma_insertion_point(head, item);
        let n = list.len() - 1;
        let places = before.insert(p, n);
        assert forall|k: int| 0 <= k < places.len() implies 0 <= (#[trigger] places[k])
            < list.len() && out[k] == list[places[k]] by {
            if k < p {
                assert(places[k] == before[k]);
            } else if k > p {
                assert(places[k] == before[k - 1]);
            }
        }
        assert forall|i: int, j: int|
            #![trigger places[i], places[j]]
            0 <= i < j < places.len() implies places[i] != places[j] && (!out[i].before(out[j])
            ==> places[i] < places[j]) by {
            if i == p {
                assert(places[j] == before[j - 1]);
                assert(item.before(head[j - 1]));
            } else if j == p {
                assert(places[i] == before[i]);
            } else {
                let i0 = if i < p { i } else { i - 1 };
                let j0 = if j < p { j } else { j - 1 };
                assert(places[i] == before[i0] && places[j] == before[j0]);
                assert(out[i] == head[i0] && out[j] == head[j0]);
            }
        }
        places
    }
}

/// Sorts `items`, keeping level entries in the order in which they came.
pub fn stable_sort<T: Ranked>(items: Vec<T>) -> (r: Vec<T>)
    ensures
        r@ == sorted(items@),
{
    let ghost all = items@;
    let mut rest = items;
    let mut backwards: Vec<T> = Vec::new();
    while rest.len() > 0
        invariant
            rest@.len() + backwards@.len() == all.len(),
            rest@ == all.take(rest@.len() as int),
            forall|k: int|
                0 <= k < backwards@.len() ==> backwards@[k] == all[all.len() - 1 - k],
        decreases rest.len(),
    {
        let last = rest.pop();
        match last {
            Some(item) => {
                backwards.push(item);
            },
            None => {},
        }
        assert(rest@ =~= all.take(rest@.len() as int));
    }
    let mut out: Vec<T> = Vec::new();
    while backwards.len() > 0
        invariant
            out@.len() + backwards@.len() == all.len(),
            out@ == sorted(all.take(out@.len() as int)),
            forall|k: int|
                0 <= k < backwards@.len() ==> backwards@[k] == all[all.len() - 1 - k],
        decreases backwards.len(),
    {
        let next = backwards.pop();
        match next {
            Some(item) => {
                let ghost done: int = out@.len() as int;
                assert(all.take(done + 1).drop_last() =~= all.take(done));
                assert(all.take(done + 1).last() == item);
                let at: usize = insertion_index(&out, &item);
                proof {
                    law_sorted_is_a_permutation(all.take(done + 1));
                }
                out.insert(at, item);
            },
            None => {},
        }
    }
    assert(all.take(out@.len() as int) =~= all);
    out
}

fn insertion_index<T: Ranked>(list: &Vec<T>, item: &T) -> (at: usize)
    ensures
        at == insertion_point(list@, *item),
        at <= list@.len(),
{
    let mut at: usize = list.len();
    assert(list@.take(at as int) =~= list@);
    while at > 0
        invariant
            at <= list.len(),
            insertion_point(list@, *item) == insertion_point(list@.take(at as int), *item),
        decreases at,
    {
        assert(list@.take(at as int).last() == list@[at - 1]);
        assert(list@.take(at as int).drop_last() =~= list@.take(at - 1));
        if !item.is_before(&list[at - 1]) {
            return at;
        }
        at -= 1;
    }
    at
}

} // verus!
