//! What lies around a position: whether it is free, and whose plots are near.
//!
//! Each plot nearby is given by whether it is of the same district, and by how far it is.
use vstd::prelude::*;

use crate::folds::same_tests;

verus! {

/// Is a plot nearer than plots may be?
pub open spec fn collides(near: Seq<(bool, i64)>, sep: i64) -> bool {
    exists|i: int| 0 <= i < near.len() && (#[trigger] near[i]).1 < sep
}

/// How much a plot adds to the count of those nearer than the window.
pub open spec fn adds(plot: (bool, i64), own: bool, window: i64) -> nat {
    if plot.0 == own && plot.1 < window {
        1
    } else {
        0
    }
}

/// How many plots, of the same district or of others, are nearer than the window.
pub open spec fn beside(near: Seq<(bool, i64)>, own: bool, window: i64) -> nat
    decreases near.len(),
{
    if near.len() == 0 {
        0
    } else {
        beside(near.drop_last(), own, window) + adds(near.last(), own, window)
    }
}

/// Does a plot count: is it of the same district, where only those are asked for?
pub open spec fn counts(plot: (bool, i64), own_only: bool) -> bool {
    plot.0 || !own_only
}

/// Is it the nearest of the plots that count, the first where several are as near?
pub open spec fn is_nearest(near: Seq<(bool, i64)>, own_only: bool, r: Option<usize>) -> bool {
    match r {
        Some(i) => {
            &&& i < near.len()
            &&& counts(near[i as int], own_only)
            &&& forall|k: int|
                0 <= k < near.len() && counts(#[trigger] near[k], own_only) ==> near[i as int].1
                    < near[k].1 || (near[i as int].1 == near[k].1 && i <= k)
        },
        None => forall|k: int| 0 <= k < near.len() ==> !counts(#[trigger] near[k], own_only),
    }
}

/// What lies around a position that is free.
#[derive(Debug, Clone, Copy, PartialEq, Eq, Structural)]
pub struct Vicinity {
    /// The nearest plot.
    pub nearest: Option<usize>,
    /// The nearest of the same district.
    pub nearest_own: Option<usize>,
    /// Plots of the same district within the window.
    pub own: usize,
    /// Plots of others within the window.
    pub foreign: usize,
}

/// Looks around a position: nothing where a plot is too near.
pub fn look_around(near: &Vec<(bool, i64)>, sep: i64, window: i64) -> (r: Option<Vicinity>)
    ensures
        r is None <==> collides(near@, sep),
        r matches Some(v) ==> {
            &&& is_nearest(near@, false, v.nearest)
            &&& is_nearest(near@, true, v.nearest_own)
            &&& v.own == beside(near@, true, window)
            &&& v.foreign == beside(near@, false, window)
        },
        r is None <==> exists|i: int| 0 <= i < near@.len() && (#[trigger] near@[i]).1 < sep,
        r matches Some(v) ==> {
            &&& v.own == near@.filter(|p: (bool, i64)| p.0 && p.1 < window).len()
            &&& v.foreign == near@.filter(|p: (bool, i64)| !p.0 && p.1 < window).len()
            &&& v.nearest is None <==> near@.len() == 0
            &&& v.nearest is Some ==> {
                let i = v.nearest->0 as int;
                i < near@.len() && (forall|k: int|
                    0 <= k < near@.len() ==> near@[i].1 <= (#[trigger] near@[k]).1 && (near@[i].1
                        == near@[k].1 ==> i <= k))
            }
            &&& v.nearest_own is None <==> forall|k: int|
                0 <= k < near@.len() ==> !(#[trigger] near@[k]).0
            &&& v.nearest_own is Some ==> {
                let i = v.nearest_own->0 as int;
                i < near@.len() && near@[i].0 && (forall|k: int|
                    0 <= k < near@.len() && (#[trigger] near@[k]).0 ==> near@[i].1 <= near@[k].1
                        && (near@[i].1 == near@[k].1 ==> i <= k))
            }
        },
{
    let mut v = Vicinity { nearest: None, nearest_own: None, own: 0, foreign: 0 };
    let mut i: usize = 0;
    assert(near@.subrange(0, 0) =~= seq![]);
    while i < near.len()
        invariant
            i <= near@.len(),
            forall|k: int| 0 <= k < i ==> (#[trigger] near@[k]).1 >= sep,
            is_nearest(near@.subrange(0, i as int), false, v.nearest),
            is_nearest(near@.subrange(0, i as int), true, v.nearest_own),
            v.own == beside(near@.subrange(0, i as int), true, window),
            v.foreign == beside(near@.subrange(0, i as int), false, window),
            v.own <= i,
            v.foreign <= i,
        decreases near.len() - i,
    {
        let (own, distance): (bool, i64) = near[i];
        if distance < sep {
            assert(near@[i as int].1 < sep);
            return None;
        }
        let ghost before = near@.subrange(0, i as int);
        let ghost here = near@.subrange(0, i + 1);
        assert(here.drop_last() =~= before);
        assert(here.last() == near@[i as int]);
        assert(forall|k: int| 0 <= k < i ==> #[trigger] here[k] == before[k]);
        assert(forall|k: int| 0 <= k < i ==> #[trigger] before[k] == here[k]);
        if distance < window {
            if own {
                v.own = v.own + 1;
            } else {
                v.foreign = v.foreign + 1;
            }
        }
        let nearer: bool = match v.nearest {
            Some(b) => distance < near[b].1,
            None => true,
        };
        if nearer {
            v.nearest = Some(i);
        }
        let nearer_own: bool = own && match v.nearest_own {
            Some(b) => distance < near[b].1,
            None => true,
        };
        if nearer_own {
            v.nearest_own = Some(i);
        }
        i = i + 1;
    }
    assert(near@.subrange(0, i as int) =~= near@);
    proof {
        let all = near@;
        plots_beside_are_counted(all, true, window);
        plots_beside_are_counted(all, false, window);
        same_tests(
            all,
            |p: (bool, i64)| p.0 == true && p.1 < window,
            |p: (bool, i64)| p.0 && p.1 < window,
        );
        same_tests(
            all,
            |p: (bool, i64)| p.0 == false && p.1 < window,
            |p: (bool, i64)| !p.0 && p.1 < window,
        );
        assert forall|k: int| 0 <= k < all.len() implies counts(#[trigger] all[k], false) && (counts(
            all[k],
            true,
        ) <==> all[k].0) by {}
    }
    Some(v)
}

/// May a plot be settled at a position: does it reach the town, where there is one, and
/// touch its own district's ground, where that is asked?
pub fn is_admissible(first: bool, reaches: bool, asked: bool, touches: bool) -> (r: bool)
    ensures
        r == ((first || reaches) && (!asked || touches)),
{
    (first || reaches) && (!asked || touches)
}

proof fn beside_without(near: Seq<(bool, i64)>, j: int, own: bool, window: i64)
    requires
        0 <= j < near.len(),
    ensures
        beside(near, own, window) == beside(near.remove(j), own, window) + adds(
            near[j],
            own,
            window,
        ),
    decreases near.len(),
{
    if j < near.len() - 1 {
        beside_without(near.drop_last(), j, own, window);
        assert(near.remove(j).drop_last() =~= near.drop_last().remove(j));
    } else {
        assert(near.remove(j) =~= near.drop_last());
    }
}

proof fn beside_in_any_order(
    a: Seq<(bool, i64)>,
    b: Seq<(bool, i64)>,
    own: bool,
    window: i64,
)
    requires
        a.to_multiset() == b.to_multiset(),
    ensures
        beside(a, own, window) == beside(b, own, window),
    decreases a.len(),
{
    broadcast use vstd::seq_lib::group_to_multiset_ensures;

    assert(a.len() == a.to_multiset().len() && b.len() == b.to_multiset().len());
    if a.len() > 0 {
        let x = a.last();
        assert(a.contains(x));
        assert(a.to_multiset().count(x) > 0);
        assert(b.contains(x));
        let j = b.index_of(x);
        assert(a.remove(a.len() - 1) =~= a.drop_last());
        assert(a.drop_last().to_multiset() =~= a.to_multiset().remove(x));
        assert(b.remove(j).to_multiset() =~= b.to_multiset().remove(x));
        beside_in_any_order(a.drop_last(), b.remove(j), own, window);
        beside_without(b, j, own, window);
    }
}

/// The order in which plots are looked at changes nothing: the same position is free, the
/// nearest plots are as near, and as many are within the window.
pub proof fn looking_order_changes_nothing(
    a: Seq<(bool, i64)>,
    b: Seq<(bool, i64)>,
    own_only: bool,
    i: Option<usize>,
    j: Option<usize>,
    sep: i64,
    window: i64,
)
    requires
        a.to_multiset() == b.to_multiset(),
        is_nearest(a, own_only, i),
        is_nearest(b, own_only, j),
    ensures
        collides(a, sep) == collides(b, sep),
        beside(a, true, window) == beside(b, true, window),
        beside(a, false, window) == beside(b, false, window),
        i is Some <==> j is Some,
        i is Some ==> a[i->0 as int].1 == b[j->0 as int].1,
{
    broadcast use vstd::seq_lib::group_to_multiset_ensures;

    beside_in_any_order(a, b, true, window);
    beside_in_any_order(a, b, false, window);
    assert forall|k: int| 0 <= k < a.len() implies b.contains(#[trigger] a[k]) by {
        assert(a.contains(a[k]));
        assert(a.to_multiset().count(a[k]) > 0);
    }
    assert forall|k: int| 0 <= k < b.len() implies a.contains(#[trigger] b[k]) by {
        assert(b.contains(b[k]));
        assert(b.to_multiset().count(b[k]) > 0);
    }
    if collides(a, sep) {
        let k = choose|k: int| 0 <= k < a.len() && (#[trigger] a[k]).1 < sep;
        assert(b[b.index_of(a[k])].1 < sep);
    }
    if collides(b, sep) {
        let k = choose|k: int| 0 <= k < b.len() && (#[trigger] b[k]).1 < sep;
        assert(a[a.index_of(b[k])].1 < sep);
    }
    if let Some(x) = i {
        let k = b.index_of(a[x as int]);
        assert(counts(b[k], own_only));
    }
    if let Some(y) = j {
        let k = a.index_of(b[y as int]);
        assert(counts(a[k], own_only));
    }
}

/// The plots beside a position are those of the kind asked for that are nearer than the
/// window.
pub proof fn plots_beside_are_counted(near: Seq<(bool, i64)>, own: bool, window: i64)
    ensures
        beside(near, own, window) == near.filter(
            |p: (bool, i64)| p.0 == own && p.1 < window,
        ).len(),
    decreases near.len(),
{
    reveal(Seq::filter);
    if near.len() > 0 {
        plots_beside_are_counted(near.drop_last(), own, window);
    }
}

/// The first plot of a town is admissible without reaching any other; any other has to
/// reach one. Where touching is asked for, it has to touch.
pub proof fn plots_reach_the_town(first: bool, reaches: bool, asked: bool, touches: bool, r: bool)
    requires
        is_admissible.ensures((first, reaches, asked, touches), r),
    ensures
        !first && !reaches ==> !r,
        asked && !touches ==> !r,
        (first || reaches) && !asked ==> r,
        (first || reaches) && touches ==> r,
{
}

} // verus!
