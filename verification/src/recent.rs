//! Ordering by time, latest first.

use vstd::prelude::*;

verus! {

/// A moment and the place where it stands in a list.
pub type Moment = (int, int);

/// Moments from latest to earliest with one more, after those that are as late.
pub open spec fn with_moment(sorted: Seq<Moment>, m: Moment) -> Seq<Moment>
    decreases sorted.len(),
{
    if sorted.len() > 0 && sorted.last().0 < m.0 {
        with_moment(sorted.drop_last(), m).push(sorted.last())
    } else {
        sorted.push(m)
    }
}

/// Moments with their places, from latest to earliest, equal ones in the order they came in.
pub open spec fn latest_first(times: Seq<i128>) -> Seq<Moment>
    decreases times.len(),
{
    if times.len() == 0 {
        Seq::empty()
    } else {
        with_moment(latest_first(times.drop_last()), (times.last() as int, times.len() - 1))
    }
}

/// The places of moments.
pub open spec fn places(sorted: Seq<Moment>) -> Seq<int> {
    sorted.map_values(|m: Moment| m.1)
}

/// Later moments stand first, and equal ones in the order of their places.
pub open spec fn in_order(sorted: Seq<Moment>) -> bool {
    forall|i: int, j: int|
        0 <= i < j < sorted.len() ==> (#[trigger] sorted[i]).0 > (#[trigger] sorted[j]).0 || (
        sorted[i].0 == sorted[j].0 && sorted[i].1 < sorted[j].1)
}

proof fn lemma_with_moment(sorted: Seq<Moment>, m: Moment)
    requires
        in_order(sorted),
        forall|i: int| 0 <= i < sorted.len() ==> (#[trigger] sorted[i]).1 < m.1,
    ensures
        in_order(with_moment(sorted, m)),
        with_moment(sorted, m).len() == sorted.len() + 1,
        with_moment(sorted, m).to_multiset() == sorted.to_multiset().insert(m),
        forall|i: int|
            0 <= i < with_moment(sorted, m).len() ==> {
                let x = #[trigger] with_moment(sorted, m)[i];
                x == m || sorted.contains(x)
            },
    decreases sorted.len(),
{
    broadcast use vstd::seq_lib::group_to_multiset_ensures;

    let w = with_moment(sorted, m);
    if sorted.len() > 0 && sorted.last().0 < m.0 {
        let rest = sorted.drop_last();
        let last = sorted.last();
        let wr = with_moment(rest, m);
        assert forall|i: int, j: int| 0 <= i < j < rest.len() implies (#[trigger] rest[i]).0
            > (#[trigger] rest[j]).0 || (rest[i].0 == rest[j].0 && rest[i].1 < rest[j].1) by {
            assert(rest[i] == sorted[i] && rest[j] == sorted[j]);
        }
        assert forall|i: int| 0 <= i < rest.len() implies (#[trigger] rest[i]).1 < m.1 by {
            assert(rest[i] == sorted[i]);
        }
        lemma_with_moment(rest, m);
        assert(rest.push(last) =~= sorted);
        assert forall|i: int| 0 <= i < wr.len() implies ({
            let x = #[trigger] wr[i];
            (x == m || sorted.contains(x)) && (x.0 > last.0 || (x.0 == last.0 && x.1 < last.1))
        }) by {
            let x = wr[i];
            if x != m {
                let k = choose|k: int| 0 <= k < rest.len() && rest[k] == x;
                assert(sorted[k] == x);
                assert(sorted[sorted.len() - 1] == last);
            }
        }
        assert forall|i: int, j: int| 0 <= i < j < w.len() implies (#[trigger] w[i]).0 > (
        #[trigger] w[j]).0 || (w[i].0 == w[j].0 && w[i].1 < w[j].1) by {
            assert(w[i] == wr[i]);
            if j < wr.len() {
                assert(w[j] == wr[j]);
            }
        }
        assert forall|i: int| 0 <= i < w.len() implies ({
            let x = #[trigger] w[i];
            x == m || sorted.contains(x)
        }) by {
            if i < wr.len() {
                assert(w[i] == wr[i]);
            } else {
                assert(sorted[sorted.len() - 1] == w[i]);
            }
        }
        assert(w.to_multiset() =~= sorted.to_multiset().insert(m));
    } else {
        assert forall|i: int, j: int| 0 <= i < j < w.len() implies (#[trigger] w[i]).0 > (
        #[trigger] w[j]).0 || (w[i].0 == w[j].0 && w[i].1 < w[j].1) by {
            assert(w[i] == sorted[i]);
            if j < sorted.len() {
                assert(w[j] == sorted[j]);
            } else {
                assert(sorted[i].1 < m.1);
                if i < sorted.len() - 1 {
                    assert(sorted[i].0 >= sorted[sorted.len() - 1].0);
                }
            }
        }
        assert forall|i: int| 0 <= i < w.len() implies ({
            let x = #[trigger] w[i];
            x == m || sorted.contains(x)
        }) by {
            if i < sorted.len() {
                assert(w[i] == sorted[i]);
            }
        }
    }
}

/// Sorting keeps every moment, and puts them from latest to earliest.
pub proof fn lemma_latest_first(times: Seq<i128>)
    ensures
        in_order(latest_first(times)),
        latest_first(times).len() == times.len(),
        latest_first(times).to_multiset() == Seq::new(
            times.len(),
            |i: int| (times[i] as int, i),
        ).to_multiset(),
        forall|i: int|
            0 <= i < times.len() ==> 0 <= (#[trigger] latest_first(times)[i]).1 < times.len(),
    decreases times.len(),
{
    broadcast use vstd::seq_lib::group_to_multiset_ensures;

    let all = Seq::new(times.len(), |i: int| (times[i] as int, i));
    if times.len() > 0 {
        let before = times.drop_last();
        let m = (times.last() as int, times.len() - 1);
        lemma_latest_first(before);
        lemma_with_moment(latest_first(before), m);
        let old_all = Seq::new(before.len(), |i: int| (before[i] as int, i));
        assert(all =~= old_all.push(m));
        assert forall|i: int| 0 <= i < times.len() implies 0 <= (#[trigger] latest_first(
            times,
        )[i]).1 < times.len() by {
            let x = latest_first(times)[i];
            if x != m {
                let k = choose|k: int|
                    0 <= k < latest_first(before).len() && latest_first(before)[k] == x;
                assert(0 <= latest_first(before)[k].1 < before.len());
            }
        }
    } else {
        assert(latest_first(times) =~= all);
    }
}

/// The views of places.
pub open spec fn place_views(v: Seq<usize>) -> Seq<int> {
    v.map_values(|i: usize| i as int)
}

/// The places of moments, from latest to earliest, equal ones in the order they came in.
pub fn newest_first(times: &Vec<i128>) -> (r: Vec<usize>)
    ensures
        place_views(r@) == places(latest_first(times@)),
        r@.len() == times@.len(),
        forall|i: int| 0 <= i < r@.len() ==> #[trigger] r@[i] < times@.len(),
{
    let mut r: Vec<usize> = Vec::new();
    let mut i: usize = 0;
    proof {
        assert(times@.take(0) =~= Seq::empty());
        assert(place_views(r@) =~= places(latest_first(times@.take(0))));
    }
    while i < times.len()
        invariant
            i <= times@.len(),
            r@.len() == i,
            forall|k: int| 0 <= k < r@.len() ==> #[trigger] r@[k] < i,
            latest_first(times@.take(i as int)) == r@.map_values(
                |p: usize| (times@[p as int] as int, p as int),
            ),
        decreases times@.len() - i,
    {
        let ghost part = times@.take(i + 1);
        let ghost sorted = latest_first(times@.take(i as int));
        let ghost m = (times@[i as int] as int, i as int);
        let ghost start = r@;
        let ghost f = |p: usize| (times@[p as int] as int, p as int);
        proof {
            assert(part.drop_last() =~= times@.take(i as int));
            assert(part.last() == times@[i as int]);
            assert(sorted.take(i as int) =~= sorted);
            assert(with_moment(sorted, m) + sorted.skip(i as int) =~= with_moment(sorted, m));
        }
        let mut j: usize = r.len();
        while j > 0 && times[r[j - 1]] < times[i]
            invariant
                i < times@.len(),
                j <= i,
                r@ == start,
                r@.len() == i,
                forall|k: int| 0 <= k < r@.len() ==> #[trigger] r@[k] < i,
                f == (|p: usize| (times@[p as int] as int, p as int)),
                sorted == r@.map_values(f),
                m == (times@[i as int] as int, i as int),
                with_moment(sorted, m) == with_moment(sorted.take(j as int), m) + sorted.skip(
                    j as int,
                ),
            decreases j,
        {
            proof {
                let p = sorted.take(j as int);
                assert(p.drop_last() =~= sorted.take(j - 1));
                assert(p.last() == sorted[j - 1]);
                let w = with_moment(sorted.take(j - 1), m);
                assert(w.push(p.last()) + sorted.skip(j as int) =~= w + sorted.skip(j - 1));
            }
            j = j - 1;
        }
        proof {
            if j > 0 {
                assert(sorted.take(j as int).last() == sorted[j - 1]);
            }
            assert(with_moment(sorted.take(j as int), m) == sorted.take(j as int).push(m));
        }
        r.insert(j, i);
        proof {
            assert(r@.map_values(f) =~= sorted.take(j as int).push(m) + sorted.skip(j as int));
            assert forall|k: int| 0 <= k < r@.len() implies #[trigger] r@[k] < i + 1 by {
                if k < j {
                    assert(r@[k] == start[k]);
                } else if k > j {
                    assert(r@[k] == start[k - 1]);
                }
            }
        }
        i = i + 1;
    }
    proof {
        assert(times@.take(i as int) =~= times@);
        assert(place_views(r@) =~= places(latest_first(times@)));
    }
    r
}

} // verus!
