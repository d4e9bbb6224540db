//! Sorting that keeps the order of equals.
use vstd::prelude::*;

verus! {

/// Things that have a rank among each other.
pub trait Ranked: Sized {
    /// This ranks no higher than `other`.
    spec fn at_most(&self, other: &Self) -> bool;

    /// Of two things, one ranks no higher than the other.
    proof fn ranks_are_total(a: &Self, b: &Self)
        ensures
            a.at_most(b) || b.at_most(a),
    ;

    /// What ranks no higher than the lower of two ranks no higher than the other.
    proof fn ranks_are_transitive(a: &Self, b: &Self, c: &Self)
        requires
            a.at_most(b),
            b.at_most(c),
        ensures
            a.at_most(c),
    ;

    /// Whether this ranks no higher than `other`.
    fn is_at_most(&self, other: &Self) -> (r: bool)
        ensures
            r == self.at_most(other),
    ;
}

/// `s` with `x` behind the last element that ranks no higher than it.
pub open spec fn placed<T: Ranked>(s: Seq<T>, x: T) -> Seq<T>
    decreases s.len(),
{
    if s.len() == 0 || s.last().at_most(&x) {
        s.push(x)
    } else {
        placed(s.drop_last(), x).push(s.last())
    }
}

/// The elements of `s` by rank, equals in the order that they had.
pub open spec fn sorted<T: Ranked>(s: Seq<T>) -> Seq<T>
    decreases s.len(),
{
    if s.len() == 0 {
        s
    } else {
        placed(sorted(s.drop_last()), s.last())
    }
}

/// The elements go up in rank.
pub open spec fn goes_up<T: Ranked>(s: Seq<T>) -> bool {
    forall|i: int, j: int| 0 <= i <= j < s.len() ==> (#[trigger] s[i]).at_most(#[trigger] &s[j])
}

proof fn lemma_placed<T: Ranked>(s: Seq<T>, x: T)
    ensures
        placed(s, x).len() == s.len() + 1,
        placed(s, x).to_multiset() == s.to_multiset().insert(x),
        goes_up(s) ==> goes_up(placed(s, x)),
        forall|y: T|
            (forall|i: int| 0 <= i < s.len() ==> (#[trigger] s[i]).at_most(&y)) && x.at_most(&y)
                ==> (forall|i: int|
                0 <= i < placed(s, x).len() ==> (#[trigger] placed(s, x)[i]).at_most(&y)),
    decreases s.len(),
{
    broadcast use vstd::seq_lib::group_to_multiset_ensures;

    T::ranks_are_total(&x, &x);
    if s.len() == 0 || s.last().at_most(&x) {
        if goes_up(s) {
            assert forall|i: int, j: int| 0 <= i <= j < s.push(x).len() implies (
            #[trigger] s.push(x)[i]).at_most(#[trigger] &s.push(x)[j]) by {
                if j == s.len() && i < s.len() {
                    assert(s[i].at_most(&s[s.len() - 1]));
                    T::ranks_are_transitive(&s[i], &s.last(), &x);
                }
            }
        }
    } else {
        let init = s.drop_last();
        lemma_placed(init, x);
        T::ranks_are_total(&s.last(), &x);
        let front = placed(init, x);
        assert(s =~= init.push(s.last()));
        assert(front.push(s.last()).to_multiset() =~= s.to_multiset().insert(x));
        if goes_up(s) {
            assert(goes_up(init)) by {
                assert forall|i: int, j: int| 0 <= i <= j < init.len() implies (
                #[trigger] init[i]).at_most(#[trigger] &init[j]) by {
                    assert(s[i].at_most(&s[j]));
                }
            }
            assert forall|i: int| 0 <= i < init.len() implies (#[trigger] init[i]).at_most(
                &s.last(),
            ) by {
                assert(s[i].at_most(&s[s.len() - 1]));
            }
            T::ranks_are_total(&s.last(), &s.last());
            assert forall|i: int, j: int| 0 <= i <= j < front.push(s.last()).len() implies (
            #[trigger] front.push(s.last())[i]).at_most(#[trigger] &front.push(s.last())[j]) by {
                if j < front.len() {
                    assert(front[i].at_most(&front[j]));
                } else if i < front.len() {
                    assert(front[i].at_most(&s.last()));
                }
            }
        }
        assert forall|y: T|
            (forall|i: int| 0 <= i < s.len() ==> (#[trigger] s[i]).at_most(&y)) && x.at_most(
                &y,
            ) implies (forall|i: int|
            0 <= i < placed(s, x).len() ==> (#[trigger] placed(s, x)[i]).at_most(&y)) by {
            assert forall|i: int| 0 <= i < init.len() implies (#[trigger] init[i]).at_most(&y) by {
                assert(s[i].at_most(&y));
            }
            assert(s[s.len() - 1].at_most(&y));
            assert forall|i: int| 0 <= i < placed(s, x).len() implies (#[trigger] placed(
                s,
                x,
            )[i]).at_most(&y) by {
                if i < front.len() {
                    assert(front[i].at_most(&y));
                }
            }
        }
    }
}

/// Sorting keeps every element, as often as it occurs, and puts them in order.
pub proof fn sorting_orders<T: Ranked>(s: Seq<T>)
    ensures
        sorted(s).len() == s.len(),
        sorted(s).to_multiset() == s.to_multiset(),
        goes_up(sorted(s)),
    decreases s.len(),
{
    broadcast use vstd::seq_lib::group_to_multiset_ensures;

    if s.len() > 0 {
        sorting_orders(s.drop_last());
        lemma_placed(sorted(s.drop_last()), s.last());
        assert(s =~= s.drop_last().push(s.last()));
    }
}

/// Where `x` is placed: behind everything that ranks no higher, and before everything else.
proof fn lemma_place_of<T: Ranked>(s: Seq<T>, x: T) -> (at: int)
    requires
        goes_up(s),
    ensures
        0 <= at <= s.len(),
        placed(s, x) == s.insert(at, x),
        forall|k: int| 0 <= k < at ==> (#[trigger] s[k]).at_most(&x),
        forall|k: int| at <= k < s.len() ==> !(#[trigger] s[k]).at_most(&x),
    decreases s.len(),
{
    if s.len() == 0 || s.last().at_most(&x) {
        assert(s.insert(s.len() as int, x) =~= s.push(x));
        assert forall|k: int| 0 <= k < s.len() implies (#[trigger] s[k]).at_most(&x) by {
            assert(s[k].at_most(&s[s.len() - 1]));
            T::ranks_are_transitive(&s[k], &s.last(), &x);
        }
        s.len() as int
    } else {
        let front = s.drop_last();
        assert forall|i: int, j: int| 0 <= i <= j < front.len() implies (
        #[trigger] front[i]).at_most(#[trigger] &front[j]) by {
            assert(s[i].at_most(&s[j]));
        }
        let at = lemma_place_of(front, x);
        assert(s.insert(at, x) =~= front.insert(at, x).push(s.last()));
        assert forall|k: int| 0 <= k < at implies (#[trigger] s[k]).at_most(&x) by {
            assert(front[k].at_most(&x));
        }
        assert forall|k: int| at <= k < s.len() implies !(#[trigger] s[k]).at_most(&x) by {
            if k < front.len() {
                assert(!front[k].at_most(&x));
            }
        }
        at
    }
}

/// What sorting does, by positions: `from[k]` is where the element at `k` stood before. Each
/// element comes from one place, none ranks higher than a later one, and those of one rank stand in
/// the order that they had.
pub proof fn sorting_is_stable<T: Ranked>(s: Seq<T>) -> (from: Seq<int>)
    ensures
        sorted(s).len() == s.len(),
        from.len() == s.len(),
        from.no_duplicates(),
        forall|k: int|
            0 <= k < s.len() ==> 0 <= #[trigger] from[k] < s.len() && sorted(s)[k] == s[from[k]],
        forall|i: int, j: int|
            0 <= i < j < s.len() ==> s[#[trigger] from[i]].at_most(&s[#[trigger] from[j]]),
        forall|i: int, j: int|
            0 <= i < j < s.len() && s[#[trigger] from[j]].at_most(&s[#[trigger] from[i]]) ==> from[i]
                < from[j],
    decreases s.len(),
{
    if s.len() == 0 {
        Seq::empty()
    } else {
        let front = s.drop_last();
        let x = s.last();
        let n = front.len() as int;
        let before = sorting_is_stable(front);
        let list = sorted(front);
        sorting_orders(front);
        let at = lemma_place_of(list, x);
        let from = before.insert(at, n);
        assert(sorted(s) == list.insert(at, x));
        assert forall|k: int| 0 <= k < s.len() implies 0 <= #[trigger] from[k] < s.len()
            && sorted(s)[k] == s[from[k]] by {
            if k < at {
                assert(from[k] == before[k]);
            } else if k > at {
                assert(from[k] == before[k - 1]);
            }
        }
        assert forall|i: int, j: int| 0 <= i < j < s.len() implies s[#[trigger] from[i]].at_most(
            &s[#[trigger] from[j]],
        ) && (s[from[j]].at_most(&s[from[i]]) ==> from[i] < from[j]) && from[i] != from[j] by {
            let a = if i < at {
                i
            } else {
                i - 1
            };
            let b = if j < at {
                j
            } else {
                j - 1
            };
            if i == at {
                assert(from[j] == before[b]);
                assert(list[b] == front[before[b]]);
                assert(!list[b].at_most(&x));
                T::ranks_are_total(&list[b], &x);
            } else if j == at {
                assert(from[i] == before[a]);
                assert(list[a] == front[before[a]]);
                assert(list[a].at_most(&x));
            } else {
                assert(from[i] == before[a] && from[j] == before[b]);
                assert(front[before[a]].at_most(&front[before[b]]));
            }
        }
        from
    }
}

proof fn lemma_placed_at<T: Ranked>(s: Seq<T>, x: T, at: int)
    requires
        0 <= at <= s.len(),
        at == 0 || s[at - 1].at_most(&x),
        forall|k: int| at <= k < s.len() ==> !(#[trigger] s[k]).at_most(&x),
    ensures
        placed(s, x) == s.insert(at, x),
    decreases s.len(),
{
    if at == s.len() {
        assert(s.insert(at, x) =~= s.push(x));
    } else {
        lemma_placed_at(s.drop_last(), x, at);
        assert(s.insert(at, x) =~= s.drop_last().insert(at, x).push(s.last()));
    }
}

/// Puts `x` behind the last element that ranks no higher than it.
fn place<T: Ranked>(list: &mut Vec<T>, x: T)
    ensures
        final(list)@ == placed(old(list)@, x),
{
    let mut at: usize = list.len();
    while at > 0 && !list[at - 1].is_at_most(&x)
        invariant
            at <= list@.len(),
            list@ == old(list)@,
            forall|k: int| at <= k < list@.len() ==> !(#[trigger] list@[k]).at_most(&x),
        decreases at,
    {
        at = at - 1;
    }
    proof {
        lemma_placed_at(list@, x, at as int);
    }
    list.insert(at, x);
}

/// Sorts by rank, and keeps the order of equals.
pub fn stable_sort<T: Ranked>(items: Vec<T>) -> (r: Vec<T>)
    ensures
        r@ == sorted(items@),
{
    let mut r: Vec<T> = Vec::new();
    let ghost all = items@;
    assert(all.take(0) =~= Seq::<T>::empty());
    assert(r@ =~= sorted(all.take(0)));
    for x in iter: items.into_iter()
        invariant
            iter.seq() == all,
            r@ == sorted(all.take(iter.index() as int)),
    {
        proof {
            let longer = all.take(iter.index() + 1);
            assert(longer.drop_last() =~= all.take(iter.index() as int));
            assert(longer.last() == x);
        }
        place(&mut r, x);
    }
    assert(all.take(all.len() as int) =~= all);
    r
}

} // verus!
