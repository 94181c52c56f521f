//! Where new ground is looked for: the settled plots that a search starts from, in
//! what order they are tried, and which of the positions found is taken.
//!
//! How far a plot is, and how good a position, is given by numbers that are greater
//! where the distance or the score is.
use vstd::prelude::*;

use crate::folds::{filter_none, filter_step, take_all};
use crate::territory::Territory;

verus! {

/// How many plots a search tries at once.
pub const SEARCH_HOSTS: usize = 32;

/// How often a search widens.
pub const SEARCH_ROUNDS: usize = 4;

/// How many of a district's outermost plots a search starts from.
pub const ANCHOR_FRONTIER: usize = 6;

/// How many of the town's outermost plots a search starts from.
pub const TOWN_FRONTIER: usize = 24;

/// Does a plot stand ahead of another: the nearer one, or the further one where
/// that is asked, and the first settled where both are as far?
pub open spec fn stands_ahead(distance: Seq<i64>, far: bool, a: u32, b: u32) -> bool {
    let (x, y) = (distance[a as int], distance[b as int]);
    ||| x == y && a < b
    ||| if far {
        x > y
    } else {
        x < y
    }
}

fn is_ahead(distance: &Vec<i64>, far: bool, a: u32, b: u32) -> (r: bool)
    requires
        a < distance@.len(),
        b < distance@.len(),
    ensures
        r == stands_ahead(distance@, far, a, b),
{
    let (x, y): (i64, i64) = (distance[a as usize], distance[b as usize]);
    (x == y && a < b) || (far && x > y) || (!far && x < y)
}

/// Does every plot stand ahead of the later ones?
pub open spec fn by_distance(v: Seq<u32>, distance: Seq<i64>, far: bool) -> bool {
    forall|i: int, j: int|
        0 <= i < j < v.len() ==> stands_ahead(distance, far, #[trigger] v[i], #[trigger] v[j])
}

/// Do the numbers ascend?
pub open spec fn ascends(v: Seq<u32>) -> bool {
    forall|i: int, j: int| 0 <= i < j < v.len() ==> #[trigger] v[i] < #[trigger] v[j]
}

/// The same plots, each once, in order of their distance.
pub fn rank_by_distance(plots: &Vec<u32>, distance: &Vec<i64>, far: bool) -> (r: Vec<u32>)
    requires
        forall|i: int| 0 <= i < plots@.len() ==> (#[trigger] plots@[i]) < distance@.len(),
    ensures
        by_distance(r@, distance@, far),
        forall|x: u32| #[trigger] r@.contains(x) <==> plots@.contains(x),
        forall|i: int, j: int|
            0 <= i < j < r@.len() ==> {
                let (x, y) = (
                    distance@[(#[trigger] r@[i]) as int],
                    distance@[(#[trigger] r@[j]) as int],
                );
                &&& far ==> x >= y
                &&& !far ==> x <= y
                &&& x == y ==> r@[i] < r@[j]
            },
{
    let mut out: Vec<u32> = Vec::new();
    let mut i: usize = 0;
    while i < plots.len()
        invariant
            i <= plots@.len(),
            forall|k: int| 0 <= k < plots@.len() ==> (#[trigger] plots@[k]) < distance@.len(),
            by_distance(out@, distance@, far),
            forall|x: u32| #[trigger]
                out@.contains(x) <==> plots@.subrange(0, i as int).contains(x),
        decreases plots.len() - i,
    {
        let x: u32 = plots[i];
        let ghost was = out@;
        let mut p: usize = 0;
        proof {
            let more = plots@.subrange(0, i + 1);
            let less = plots@.subrange(0, i as int);
            assert(more =~= less.push(x));
            assert forall|y: u32| #[trigger] more.contains(y) <==> less.contains(y) || y == x by {
                if more.contains(y) && y != x {
                    assert(less[more.index_of(y)] == y);
                }
                if less.contains(y) {
                    assert(more[less.index_of(y)] == y);
                }
                assert(more[i as int] == x);
            }
            assert forall|k: int| 0 <= k < was.len() implies (#[trigger] was[k])
                < distance@.len() by {
                assert(was.contains(was[k]));
                let j = less.index_of(was[k]);
                assert(plots@[j] == was[k]);
            }
        }
        while p < out.len() && is_ahead(distance, far, out[p], x)
            invariant
                p <= out@.len(),
                out@ == was,
                x < distance@.len(),
                forall|k: int| 0 <= k < was.len() ==> (#[trigger] was[k]) < distance@.len(),
                forall|k: int| 0 <= k < p ==> stands_ahead(distance@, far, #[trigger] was[k], x),
            decreases out.len() - p,
        {
            p = p + 1;
        }
        let there: bool = p < out.len() && out[p] == x;
        if !there {
            out.insert(p, x);
            proof {
                assert(out@ =~= was.insert(p as int, x));
                if p < was.len() {
                    assert(stands_ahead(distance@, far, x, was[p as int]));
                }
                assert forall|k: int| p <= k < was.len() implies stands_ahead(
                    distance@,
                    far,
                    x,
                    #[trigger] was[k],
                ) by {
                    if k > p {
                        assert(stands_ahead(distance@, far, was[p as int], was[k]));
                    }
                }
                assert forall|a: int, b: int| 0 <= a < b < out@.len() implies stands_ahead(
                    distance@,
                    far,
                    #[trigger] out@[a],
                    #[trigger] out@[b],
                ) by {
                    let (s, t) = (
                        if a < p {
                            a
                        } else {
                            a - 1
                        },
                        if b < p {
                            b
                        } else {
                            b - 1
                        },
                    );
                    if a != p {
                        assert(out@[a] == was[s]);
                    }
                    if b != p {
                        assert(out@[b] == was[t]);
                    }
                }
                assert(out@[p as int] == x);
                assert forall|y: u32| #[trigger] out@.contains(y) <==> was.contains(y) || y == x by {
                    if out@.contains(y) && y != x {
                        let a = out@.index_of(y);
                        assert(was[if a < p {
                            a
                        } else {
                            a - 1
                        }] == y);
                    }
                    if was.contains(y) {
                        let s = was.index_of(y);
                        assert(out@[if s < p {
                            s
                        } else {
                            s + 1
                        }] == y);
                    }
                }
            }
        } else {
            assert(was[p as int] == x);
            assert(was.contains(x));
        }
        i = i + 1;
    }
    assert(plots@.subrange(0, plots@.len() as int) =~= plots@);
    out
}

/// The same numbers, each once, ascending.
pub fn ascending_plots(plots: &Vec<u32>) -> (r: Vec<u32>)
    ensures
        ascends(r@),
        forall|x: u32| #[trigger] r@.contains(x) <==> plots@.contains(x),
{
    let mut out: Vec<u32> = Vec::new();
    let mut i: usize = 0;
    while i < plots.len()
        invariant
            i <= plots@.len(),
            ascends(out@),
            forall|x: u32| #[trigger]
                out@.contains(x) <==> plots@.subrange(0, i as int).contains(x),
        decreases plots.len() - i,
    {
        let x: u32 = plots[i];
        let ghost was = out@;
        proof {
            let more = plots@.subrange(0, i + 1);
            let less = plots@.subrange(0, i as int);
            assert(more =~= less.push(x));
            assert forall|y: u32| #[trigger] more.contains(y) <==> less.contains(y) || y == x by {
                if more.contains(y) && y != x {
                    assert(less[more.index_of(y)] == y);
                }
                if less.contains(y) {
                    assert(more[less.index_of(y)] == y);
                }
                assert(more[i as int] == x);
            }
        }
        let mut p: usize = out.len();
        while p > 0 && out[p - 1] > x
            invariant
                p <= out@.len(),
                out@ == was,
                forall|k: int| p <= k < was.len() ==> (#[trigger] was[k]) > x,
            decreases p,
        {
            p = p - 1;
        }
        let there: bool = p > 0 && out[p - 1] == x;
        if !there {
            out.insert(p, x);
            proof {
                assert(out@ =~= was.insert(p as int, x));
                assert forall|k: int| 0 <= k < p implies (#[trigger] was[k]) < x by {
                    if k < p - 1 {
                        assert(was[k] < was[p - 1]);
                    }
                }
                assert forall|a: int, b: int| 0 <= a < b < out@.len() implies #[trigger] out@[a]
                    < #[trigger] out@[b] by {
                    let (s, t) = (
                        if a < p {
                            a
                        } else {
                            a - 1
                        },
                        if b < p {
                            b
                        } else {
                            b - 1
                        },
                    );
                    if a != p {
                        assert(out@[a] == was[s]);
                    }
                    if b != p {
                        assert(out@[b] == was[t]);
                    }
                }
                assert(out@[p as int] == x);
                assert forall|y: u32| #[trigger] out@.contains(y) <==> was.contains(y) || y == x by {
                    if out@.contains(y) && y != x {
                        let a = out@.index_of(y);
                        assert(was[if a < p {
                            a
                        } else {
                            a - 1
                        }] == y);
                    }
                    if was.contains(y) {
                        let s = was.index_of(y);
                        assert(out@[if s < p {
                            s
                        } else {
                            s + 1
                        }] == y);
                    }
                }
            }
        } else {
            assert(was[p - 1] == x);
            assert(was.contains(x));
        }
        i = i + 1;
    }
    assert(plots@.subrange(0, plots@.len() as int) =~= plots@);
    out
}

/// Are these the first so many of some plots in order of distance: all of them,
/// or as many as asked with none of the rest ahead of any?
pub open spec fn foremost(
    r: Seq<u32>,
    plots: Seq<u32>,
    distance: Seq<i64>,
    far: bool,
    most: int,
) -> bool {
    &&& r.len() <= most
    &&& forall|x: u32| #[trigger] r.contains(x) ==> plots.contains(x)
    &&& r.len() < most ==> forall|x: u32| #[trigger] plots.contains(x) ==> r.contains(x)
    &&& forall|x: u32, y: u32| #[trigger]
        r.contains(x) && #[trigger] plots.contains(y) && !r.contains(y) ==> stands_ahead(
            distance,
            far,
            x,
            y,
        )
}

/// The first so many of some plots in order of distance, in that order.
fn first_by_distance(plots: &Vec<u32>, distance: &Vec<i64>, far: bool, most: usize) -> (r: Vec<u32>)
    requires
        forall|i: int| 0 <= i < plots@.len() ==> (#[trigger] plots@[i]) < distance@.len(),
    ensures
        by_distance(r@, distance@, far),
        foremost(r@, plots@, distance@, far, most as int),
{
    let mut r: Vec<u32> = rank_by_distance(plots, distance, far);
    let ghost all = r@;
    if r.len() > most {
        r.truncate(most);
        proof {
            assert(r@ =~= all.subrange(0, most as int));
            assert forall|x: u32| #[trigger] r@.contains(x) implies plots@.contains(x) by {
                assert(all[r@.index_of(x)] == x);
                assert(all.contains(x));
            }
            assert forall|x: u32, y: u32| #[trigger]
                r@.contains(x) && #[trigger] plots@.contains(y) && !r@.contains(
                    y,
                ) implies stands_ahead(distance@, far, x, y) by {
                let i = r@.index_of(x);
                assert(all.contains(y));
                let j = all.index_of(y);
                if j < most {
                    assert(r@[j] == y);
                }
                assert(stands_ahead(distance@, far, all[i], all[j]));
            }
        }
    }
    r
}

/// The plots that a search near its anchors tries: those found near them, each
/// once, or the nearest where there are too many; by number.
pub fn near_hosts(found: &Vec<u32>, distance: &Vec<i64>) -> (r: Vec<u32>)
    requires
        forall|i: int| 0 <= i < found@.len() ==> (#[trigger] found@[i]) < distance@.len(),
    ensures
        ascends(r@),
        foremost(r@, found@, distance@, false, SEARCH_HOSTS as int),
        r@.len() <= 32,
        forall|i: int, j: int| 0 <= i < j < r@.len() ==> (#[trigger] r@[i]) < (#[trigger] r@[j]),
        forall|x: u32| #[trigger] r@.contains(x) ==> found@.contains(x),
        r@.len() < 32 ==> forall|x: u32| #[trigger] found@.contains(x) ==> r@.contains(x),
        forall|x: u32, y: u32| #[trigger]
            r@.contains(x) && #[trigger] found@.contains(y) && !r@.contains(y)
                ==> distance@[x as int] <= distance@[y as int] && (distance@[x as int]
                == distance@[y as int] ==> x < y),
{
    let near: Vec<u32> = ascending_plots(found);
    if near.len() <= SEARCH_HOSTS {
        return near;
    }
    let nearest: Vec<u32> = first_by_distance(found, distance, false, SEARCH_HOSTS);
    let r: Vec<u32> = ascending_plots(&nearest);
    proof {
        same_count(r@, nearest@, distance@);
        if r@.len() < SEARCH_HOSTS {
            assert forall|i: int| 0 <= i < nearest@.len() implies r@.contains(
                #[trigger] nearest@[i],
            ) by {
                assert(nearest@.contains(nearest@[i]));
            }
            assert forall|x: u32| #[trigger] found@.contains(x) implies r@.contains(x) by {
                assert(nearest@.contains(x));
            }
        }
    }
    r
}

/// Two lists of the same plots, each once, are as long.
proof fn same_count(a: Seq<u32>, b: Seq<u32>, distance: Seq<i64>)
    requires
        ascends(a),
        by_distance(b, distance, false),
        forall|x: u32| #[trigger] a.contains(x) <==> b.contains(x),
    ensures
        a.len() == b.len(),
{
    assert(a.no_duplicates()) by {
        assert forall|i: int, j: int| 0 <= i < j < a.len() implies a[i] != a[j] by {
            assert(a[i] < a[j]);
        }
    }
    assert(b.no_duplicates()) by {
        assert forall|i: int, j: int| 0 <= i < j < b.len() implies b[i] != b[j] by {
            assert(stands_ahead(distance, false, b[i], b[j]));
        }
    }
    a.unique_seq_to_set();
    b.unique_seq_to_set();
    assert(a.to_set() =~= b.to_set()) by {
        assert forall|x: u32| a.to_set().contains(x) <==> b.to_set().contains(x) by {
            assert(a.contains(x) <==> b.contains(x));
        }
    }
}

/// Is a plot one that a search further out may try: has it room beside it, and was
/// it not tried already?
pub open spec fn on_open_rim(open: Seq<bool>, tried: Seq<u32>, x: u32) -> bool {
    x < open.len() && open[x as int] && !tried.contains(x)
}

/// The plots with room beside them that were not tried already, the nearest first.
pub fn rim_hosts(open: &Vec<bool>, distance: &Vec<i64>, tried: &Vec<u32>) -> (r: Vec<u32>)
    requires
        open@.len() <= distance@.len(),
        open@.len() <= u32::MAX,
    ensures
        by_distance(r@, distance@, false),
        forall|x: u32| #[trigger] r@.contains(x) <==> on_open_rim(open@, tried@, x),
        forall|i: int, j: int|
            0 <= i < j < r@.len() ==> distance@[(#[trigger] r@[i]) as int] <= distance@[(
            #[trigger] r@[j]) as int] && (distance@[r@[i] as int] == distance@[r@[j] as int]
                ==> r@[i] < r@[j]),
        forall|x: u32| #[trigger]
            r@.contains(x) <==> x < open@.len() && open@[x as int] && !tried@.contains(x),
{
    let mut rim: Vec<u32> = Vec::new();
    let mut i: usize = 0;
    while i < open.len()
        invariant
            i <= open@.len() <= u32::MAX,
            open@.len() <= distance@.len(),
            forall|k: int| 0 <= k < rim@.len() ==> (#[trigger] rim@[k]) < i,
            forall|x: u32| #[trigger]
                rim@.contains(x) <==> x < i && on_open_rim(open@, tried@, x),
        decreases open.len() - i,
    {
        let x: u32 = i as u32;
        let ghost was = rim@;
        if open[i] && !was_tried(tried, x) {
            rim.push(x);
            proof {
                assert(rim@[was.len() as int] == x);
                assert forall|y: u32| #[trigger] rim@.contains(y) <==> was.contains(y) || y == x by {
                    if rim@.contains(y) && y != x {
                        assert(was[rim@.index_of(y)] == y);
                    }
                    if was.contains(y) {
                        assert(rim@[was.index_of(y)] == y);
                    }
                }
            }
        }
        i = i + 1;
    }
    rank_by_distance(&rim, distance, false)
}

fn was_tried(tried: &Vec<u32>, x: u32) -> (r: bool)
    ensures
        r == tried@.contains(x),
{
    let mut i: usize = 0;
    while i < tried.len()
        invariant
            i <= tried@.len(),
            forall|k: int| 0 <= k < i ==> (#[trigger] tried@[k]) != x,
        decreases tried.len() - i,
    {
        if tried[i] == x {
            return true;
        }
        i = i + 1;
    }
    false
}

/// How many of the first `n` plots lie within a limit; all where there is none.
pub open spec fn inside(
    ranked: Seq<u32>,
    distance: Seq<i64>,
    limit: Option<i64>,
    n: nat,
) -> nat
    decreases n,
{
    if n == 0 || n > ranked.len() {
        0
    } else {
        inside(ranked, distance, limit, (n - 1) as nat) + match limit {
            Some(l) => if distance[ranked[n - 1] as int] <= l {
                1nat
            } else {
                0nat
            },
            None => 1nat,
        }
    }
}

/// The stride through so many plots that tries no more of them than a search does
/// at once.
pub open spec fn stride_of(inside: int) -> int {
    if inside <= 0 {
        1
    } else {
        (inside + SEARCH_HOSTS - 1) / SEARCH_HOSTS as int
    }
}

/// Every so many-th of the first plots.
pub open spec fn strided(ranked: Seq<u32>, inside: int, stride: int, from: int) -> Seq<u32>
    decreases
            (if from < inside {
                inside - from
            } else {
                0
            }),
{
    if from < 0 || from >= inside || stride <= 0 || inside > ranked.len() {
        seq![]
    } else {
        seq![ranked[from]] + strided(ranked, inside, stride, from + stride)
    }
}

/// The plots that a round of the search tries: a stride through those within its
/// limit.
pub open spec fn round_hosts(ranked: Seq<u32>, distance: Seq<i64>, limit: Option<i64>) -> Seq<u32> {
    let n = inside(ranked, distance, limit, ranked.len()) as int;
    strided(ranked, n, stride_of(n), 0)
}

proof fn inside_bound(ranked: Seq<u32>, distance: Seq<i64>, limit: Option<i64>, n: nat)
    ensures
        inside(ranked, distance, limit, n) <= n,
        limit is None && n <= ranked.len() ==> inside(ranked, distance, limit, n) == n,
    decreases n,
{
    if n > 0 && n <= ranked.len() {
        inside_bound(ranked, distance, limit, (n - 1) as nat);
    }
}

/// The plots that a round of the search tries.
fn try_round(ranked: &Vec<u32>, distance: &Vec<i64>, limit: Option<i64>) -> (r: Vec<u32>)
    requires
        forall|i: int| 0 <= i < ranked@.len() ==> (#[trigger] ranked@[i]) < distance@.len(),
    ensures
        r@ == round_hosts(ranked@, distance@, limit),
{
    let mut n: usize = 0;
    let mut i: usize = 0;
    while i < ranked.len()
        invariant
            i <= ranked@.len(),
            n == inside(ranked@, distance@, limit, i as nat),
            n <= i,
            forall|k: int| 0 <= k < ranked@.len() ==> (#[trigger] ranked@[k]) < distance@.len(),
        decreases ranked.len() - i,
    {
        let within: bool = match limit {
            Some(l) => distance[ranked[i] as usize] <= l,
            None => true,
        };
        if within {
            n = n + 1;
        }
        i = i + 1;
    }
    let stride: usize = if n == 0 {
        1
    } else {
        (n - 1) / SEARCH_HOSTS + 1
    };
    proof {
        if n > 0 {
            assert((n + 31) / 32 == (n - 1) / 32 + 1);
        }
    }
    let mut out: Vec<u32> = Vec::new();
    let mut at: usize = 0;
    let ghost whole = strided(ranked@, n as int, stride as int, 0);
    assert(out@ + whole =~= whole);
    while at < n
        invariant
            n <= ranked@.len(),
            stride >= 1,
            out@ + strided(ranked@, n as int, stride as int, at as int) == whole,
        decreases n - at,
    {
        let ghost had = out@;
        out.push(ranked[at]);
        proof {
            let rest = strided(ranked@, n as int, stride as int, at + stride);
            assert(had + (seq![ranked@[at as int]] + rest) =~= out@ + rest);
        }
        if n - at <= stride {
            proof {
                assert(strided(ranked@, n as int, stride as int, at + stride) =~= Seq::<u32>::empty());
                assert(strided(ranked@, n as int, stride as int, n as int) =~= Seq::<u32>::empty());
            }
            at = n;
        } else {
            at = at + stride;
        }
    }
    assert(strided(ranked@, n as int, stride as int, at as int) =~= Seq::<u32>::empty());
    assert(out@ =~= whole);
    out
}

/// The limit of a round: none in the last.
pub open spec fn limit_of(limits: Seq<i64>, round: int) -> Option<i64> {
    if 0 <= round < limits.len() {
        Some(limits[round])
    } else {
        None
    }
}

/// What the first `n` rounds of a widening search try, one after the other, without
/// the rounds that have nothing to try.
pub open spec fn offers(ranked: Seq<u32>, distance: Seq<i64>, limits: Seq<i64>, n: nat) -> Seq<
    Seq<u32>,
>
    decreases n,
{
    if n == 0 {
        seq![]
    } else {
        let before = offers(ranked, distance, limits, (n - 1) as nat);
        let here = round_hosts(ranked, distance, limit_of(limits, n - 1));
        if here.len() == 0 {
            before
        } else {
            before.push(here)
        }
    }
}

/// Lists of plots as lists of numbers.
pub open spec fn lists(v: Seq<Vec<u32>>) -> Seq<Seq<u32>> {
    Seq::new(v.len(), |i: int| v[i]@)
}

/// What a widening search tries, one after the other, until it finds ground: a
/// stride through the plots within each limit, and at last through all of them.
pub fn far_offers(ranked: &Vec<u32>, distance: &Vec<i64>, limits: &Vec<i64>) -> (r: Vec<Vec<u32>>)
    requires
        forall|i: int| 0 <= i < ranked@.len() ==> (#[trigger] ranked@[i]) < distance@.len(),
        limits@.len() < usize::MAX,
    ensures
        lists(r@) == offers(ranked@, distance@, limits@, limits@.len() + 1),
{
    let mut out: Vec<Vec<u32>> = Vec::new();
    assert(lists(out@) =~= Seq::<Seq<u32>>::empty());
    let mut round: usize = 0;
    while round < limits.len() + 1
        invariant
            round <= limits@.len() + 1,
            limits@.len() < usize::MAX,
            forall|i: int| 0 <= i < ranked@.len() ==> (#[trigger] ranked@[i]) < distance@.len(),
            lists(out@) == offers(ranked@, distance@, limits@, round as nat),
        decreases limits.len() + 1 - round,
    {
        let limit: Option<i64> = if round < limits.len() {
            Some(limits[round])
        } else {
            None
        };
        let hosts: Vec<u32> = try_round(ranked, distance, limit);
        let ghost had = out@;
        let ghost here = hosts@;
        if hosts.len() > 0 {
            out.push(hosts);
            assert(lists(out@) =~= lists(had).push(here));
        }
        round = round + 1;
    }
    out
}

proof fn strided_count(ranked: Seq<u32>, inside: int, stride: int, from: int, left: nat)
    requires
        0 <= from,
        stride > 0,
        inside <= ranked.len(),
        inside - from <= stride * left,
    ensures
        strided(ranked, inside, stride, from).len() <= left,
        from < inside ==> strided(ranked, inside, stride, from).len() > 0,
        forall|x: u32| #[trigger]
            strided(ranked, inside, stride, from).contains(x) ==> ranked.contains(x),
    decreases left,
{
    let all = strided(ranked, inside, stride, from);
    if from < inside {
        assert(left > 0) by (nonlinear_arith)
            requires
                inside - from > 0,
                stride > 0,
                inside - from <= stride * left,
                left >= 0,
        ;
        assert(inside - (from + stride) <= stride * (left - 1)) by (nonlinear_arith)
            requires
                inside - from <= stride * left,
        ;
        strided_count(ranked, inside, stride, from + stride, (left - 1) as nat);
        let rest = strided(ranked, inside, stride, from + stride);
        assert forall|x: u32| #[trigger] all.contains(x) implies ranked.contains(x) by {
            let i = all.index_of(x);
            if i == 0 {
                assert(ranked[from] == x);
            } else {
                assert(rest[i - 1] == x);
                assert(rest.contains(x));
            }
        }
    }
}

/// No round tries more plots than a search does at once, a round that tries none
/// has none within its limit, and all that it tries are plots of the rim.
pub proof fn rounds_are_small(ranked: Seq<u32>, distance: Seq<i64>, limit: Option<i64>)
    ensures
        round_hosts(ranked, distance, limit).len() <= SEARCH_HOSTS,
        round_hosts(ranked, distance, limit).len() == 0 <==> inside(
            ranked,
            distance,
            limit,
            ranked.len(),
        ) == 0,
        forall|x: u32| #[trigger]
            round_hosts(ranked, distance, limit).contains(x) ==> ranked.contains(x),
{
    inside_bound(ranked, distance, limit, ranked.len());
    let n = inside(ranked, distance, limit, ranked.len()) as int;
    let stride = stride_of(n);
    if n > 0 {
        assert(stride == (n + 31) / 32);
        assert(n <= stride * 32);
        strided_count(ranked, n, stride, 0, 32);
    } else {
        assert(strided(ranked, n, stride, 0) =~= Seq::<u32>::empty());
    }
}

/// The outermost of some plots, as many as asked at most, the furthest first.
pub fn outermost(plots: &Vec<u32>, distance: &Vec<i64>, most: usize) -> (r: Vec<u32>)
    requires
        forall|i: int| 0 <= i < plots@.len() ==> (#[trigger] plots@[i]) < distance@.len(),
    ensures
        by_distance(r@, distance@, true),
        foremost(r@, plots@, distance@, true, most as int),
        r@.len() <= most,
        forall|i: int, j: int|
            0 <= i < j < r@.len() ==> distance@[(#[trigger] r@[i]) as int] >= distance@[(
            #[trigger] r@[j]) as int] && (distance@[r@[i] as int] == distance@[r@[j] as int]
                ==> r@[i] < r@[j]),
        forall|x: u32| #[trigger] r@.contains(x) ==> plots@.contains(x),
        r@.len() < most ==> forall|x: u32| #[trigger] plots@.contains(x) ==> r@.contains(x),
        forall|x: u32, y: u32| #[trigger]
            r@.contains(x) && #[trigger] plots@.contains(y) && !r@.contains(y)
                ==> distance@[x as int] >= distance@[y as int],
{
    first_by_distance(plots, distance, true, most)
}

/// The first directory with ground on the way up from one.
pub open spec fn ground_from(up: Seq<Option<u32>>, held: Seq<bool>, d: int) -> Option<u32>
    decreases d,
{
    if d < 0 || d >= up.len() || d >= held.len() {
        None
    } else if held[d] {
        Some(d as u32)
    } else {
        match up[d] {
            Some(p) => if p < d {
                ground_from(up, held, p as int)
            } else {
                None
            },
            None => None,
        }
    }
}

/// Which districts have ground.
pub open spec fn with_ground(ground: Seq<Vec<u32>>) -> Seq<bool> {
    Seq::new(ground.len(), |i: int| ground[i]@.len() > 0)
}

/// The nearest directory with ground, from one upwards; it may be that one.
pub fn district_seat(territory: &Territory, ground: &Vec<Vec<u32>>, did: u32) -> (r: Option<u32>)
    requires
        territory.wf(),
        ground@.len() == territory.nodes@.len(),
        did < ground@.len(),
    ensures
        r == ground_from(territory.up(), with_ground(ground@), did as int),
{
    let ghost up = territory.up();
    let ghost held = with_ground(ground@);
    let mut d: u32 = did;
    loop
        invariant
            territory.wf(),
            up == territory.up(),
            held == with_ground(ground@),
            ground@.len() == territory.nodes@.len(),
            d < ground@.len(),
            ground_from(up, held, d as int) == ground_from(up, held, did as int),
        decreases d,
    {
        assert(up[d as int] == territory.nodes@[d as int].parent);
        if ground[d as usize].len() > 0 {
            return Some(d);
        }
        match territory.nodes[d as usize].parent {
            Some(p) => {
                d = p;
            },
            None => {
                return None;
            },
        }
    }
}

/// A position found: how good it is, and where.
pub type Offer = (i64, (i64, i64));

/// Is an offer better than another: of a greater score, or further left, or further
/// down, where the scores are the same?
pub open spec fn better(a: Offer, b: Offer) -> bool {
    ||| a.0 > b.0
    ||| a.0 == b.0 && (a.1.0 < b.1.0 || (a.1.0 == b.1.0 && a.1.1 < b.1.1))
}

/// The best of the first `n` offers.
pub open spec fn best_of(v: Seq<Offer>, n: nat) -> Option<Offer>
    decreases n,
{
    if n == 0 || n > v.len() {
        None
    } else {
        match best_of(v, (n - 1) as nat) {
            Some(b) => Some(
                if better(v[n - 1], b) {
                    v[n - 1]
                } else {
                    b
                },
            ),
            None => Some(v[n - 1]),
        }
    }
}

/// Keeps the better of the best offer so far and a new one.
pub fn accept(best: &mut Option<Offer>, score: i64, at: (i64, i64))
    ensures
        *final(best) == match *old(best) {
            Some(b) => Some(
                if better((score, at), b) {
                    (score, at)
                } else {
                    b
                },
            ),
            None => Some((score, at)),
        },
        *final(best) == *old(best) || *final(best) == Some((score, at)),
        ({
            let b = (*final(best))->0;
            &&& *final(best) is Some
            &&& b.0 >= score
            &&& b.0 == score ==> b.1.0 <= at.0
            &&& b.0 == score && b.1.0 == at.0 ==> b.1.1 <= at.1
            &&& *old(best) is Some ==> {
                let had = (*old(best))->0;
                &&& b.0 >= had.0
                &&& b.0 == had.0 ==> b.1.0 <= had.1.0
                &&& b.0 == had.0 && b.1.0 == had.1.0 ==> b.1.1 <= had.1.1
            }
        }),
{
    let keep: bool = match *best {
        Some(b) => !(score > b.0 || (score == b.0 && (at.0 < (b.1).0 || (at.0 == (b.1).0 && at.1
            < (b.1).1)))),
        None => false,
    };
    if !keep {
        *best = Some((score, at));
    }
}

proof fn best_is_best(v: Seq<Offer>, n: nat)
    requires
        0 < n <= v.len(),
    ensures
        best_of(v, n) matches Some(b) && (exists|i: int| 0 <= i < n && #[trigger] v[i] == b) && (
        forall|i: int| 0 <= i < n ==> !better(#[trigger] v[i], b)),
    decreases n,
{
    if n > 1 {
        best_is_best(v, (n - 1) as nat);
        let b = best_of(v, (n - 1) as nat)->0;
        if better(v[n - 1], b) {
            assert(v[n - 1] == v[n - 1]);
        } else {
            let i = choose|i: int| 0 <= i < n - 1 && #[trigger] v[i] == b;
            assert(v[i] == b);
        }
    } else {
        assert(best_of(v, 0) is None);
        assert(v[0] == v[0]);
    }
}

/// Which offer is taken does not depend on the order in which they came.
pub proof fn the_best_offer_wins_in_any_order(a: Seq<Offer>, b: Seq<Offer>)
    requires
        a.to_multiset() == b.to_multiset(),
    ensures
        best_of(a, a.len()) == best_of(b, b.len()),
{
    broadcast use vstd::seq_lib::group_to_multiset_ensures;

    a.to_multiset_ensures();
    b.to_multiset_ensures();
    assert(a.len() == b.len());
    if a.len() > 0 {
        best_is_best(a, a.len());
        best_is_best(b, b.len());
        let x = best_of(a, a.len())->0;
        let y = best_of(b, b.len())->0;
        assert(a.contains(x) && b.contains(y));
        assert(b.to_multiset().count(x) > 0);
        assert(a.to_multiset().count(y) > 0);
        assert(b.contains(x) && a.contains(y));
        let i = b.index_of(x);
        let j = a.index_of(y);
        assert(!better(b[i], y));
        assert(!better(a[j], x));
    }
}

/// Looks again at which plots have room beside them, given which were looked at and
/// whether there was room. A plot that was enclosed stays so.
pub fn refresh_open(open: &mut Vec<bool>, touched: &Vec<u32>, room: &Vec<bool>)
    requires
        touched@.len() == room@.len(),
        forall|k: int| 0 <= k < touched@.len() ==> (#[trigger] touched@[k]) < old(open)@.len(),
    ensures
        final(open)@.len() == old(open)@.len(),
        forall|i: int|
            0 <= i < final(open)@.len() ==> (#[trigger] final(open)@[i] <==> old(open)@[i] && forall|
                k: int,
            |
                0 <= k < touched@.len() && #[trigger] touched@[k] == i ==> room@[k]),
{
    let ghost was = open@;
    let mut k: usize = 0;
    while k < touched.len()
        invariant
            k <= touched@.len() == room@.len(),
            open@.len() == was.len(),
            forall|j: int| 0 <= j < touched@.len() ==> (#[trigger] touched@[j]) < was.len(),
            forall|i: int|
                0 <= i < open@.len() ==> (#[trigger] open@[i] <==> was[i] && forall|j: int|
                    0 <= j < k && #[trigger] touched@[j] == i ==> room@[j]),
        decreases touched.len() - k,
    {
        let i: usize = touched[k] as usize;
        let ghost had = open@;
        assert(touched@[k as int] < was.len());
        if open[i] && !room[k] {
            open.set(i, false);
        }
        assert forall|x: int| 0 <= x < open@.len() implies (#[trigger] open@[x] <==> was[x] && forall|
            j: int,
        |
            0 <= j < k + 1 && #[trigger] touched@[j] == x ==> room@[j]) by {
            assert(had[x] <==> was[x] && forall|j: int|
                0 <= j < k && #[trigger] touched@[j] == x ==> room@[j]);
            if x == i && !room@[k as int] {
                assert(touched@[k as int] == x);
            }
        }
        k = k + 1;
    }
}

/// What the road out to a new quarter does next.
#[derive(Debug, Clone, Copy, PartialEq, Eq, Structural)]
pub enum Causeway {
    /// The site is in reach: the quarter is planted.
    Plant,
    /// The road gives up.
    GiveUp,
    /// The road goes one step further, and the step is the quarter itself where it
    /// closes the gap.
    Step {
        /// Does it close the gap?
        closing: bool,
    },
}

/// What the road out to a new quarter does next, given whether the site is in reach
/// of the town or would be after one more step, whether the town has come to the
/// site itself, and how many steps are left; a step takes one.
pub fn causeway_next(
    in_reach: bool,
    closing: bool,
    at_site: bool,
    budget: &mut usize,
) -> (r: Causeway)
    ensures
        r == if in_reach {
            Causeway::Plant
        } else if *old(budget) == 0 || at_site {
            Causeway::GiveUp
        } else {
            (Causeway::Step { closing })
        },
        r is Step ==> *final(budget) == *old(budget) - 1,
        !(r is Step) ==> *final(budget) == *old(budget),
{
    if in_reach {
        return Causeway::Plant;
    }
    if *budget == 0 || at_site {
        return Causeway::GiveUp;
    }
    *budget = *budget - 1;
    Causeway::Step { closing }
}

/// The growth index of the plot nearest to a point, the least where several are as
/// near, given how far each of the plots found is and its growth index.
pub fn nearest_birth(found: &Vec<(i64, u32)>) -> (r: Option<u32>)
    ensures
        found@.len() == 0 <==> r is None,
        r matches Some(b) ==> exists|i: int|
            0 <= i < found@.len() && (#[trigger] found@[i]).1 == b && forall|j: int|
                0 <= j < found@.len() ==> found@[i].0 < (#[trigger] found@[j]).0 || (found@[i].0
                    == found@[j].0 && b <= found@[j].1),
{
    if found.len() == 0 {
        return None;
    }
    let mut best: usize = 0;
    let mut i: usize = 1;
    while i < found.len()
        invariant
            best < i <= found@.len(),
            forall|j: int|
                0 <= j < i ==> found@[best as int].0 < (#[trigger] found@[j]).0 || (
                found@[best as int].0 == found@[j].0 && found@[best as int].1 <= found@[j].1),
        decreases found.len() - i,
    {
        if found[i].0 < found[best].0 || (found[i].0 == found[best].0 && found[i].1
            < found[best].1) {
            best = i;
        }
        i = i + 1;
    }
    Some(found[best].1)
}

proof fn inside_upto(ranked: Seq<u32>, distance: Seq<i64>, limit: Option<i64>, n: nat)
    requires
        n <= ranked.len(),
    ensures
        inside(ranked, distance, limit, n) == ranked.take(n as int).filter(
            |p: u32| limit is None || distance[p as int] <= limit->0,
        ).len(),
    decreases n,
{
    let test = |p: u32| limit is None || distance[p as int] <= limit->0;
    if n == 0 {
        filter_none(ranked, test);
    } else {
        inside_upto(ranked, distance, limit, (n - 1) as nat);
        filter_step(ranked, test, n);
    }
}

proof fn strided_at(ranked: Seq<u32>, inside: int, stride: int, from: int, k: int)
    requires
        0 <= from,
        stride > 0,
        0 <= k,
        inside <= ranked.len(),
    ensures
        k < strided(ranked, inside, stride, from).len() <==> from + k * stride < inside,
        from + k * stride < inside ==> strided(ranked, inside, stride, from)[k] == ranked[from + k
            * stride],
    decreases k,
{
    assert(0 <= k * stride) by (nonlinear_arith)
        requires
            0 <= k,
            stride > 0,
    ;
    if from < inside && k > 0 {
        assert(from + k * stride == from + stride + (k - 1) * stride) by (nonlinear_arith);
        strided_at(ranked, inside, stride, from + stride, k - 1);
        let rest = strided(ranked, inside, stride, from + stride);
        assert(strided(ranked, inside, stride, from) == seq![ranked[from]] + rest);
    } else if from < inside {
        assert(0 * stride == 0);
        assert(strided(ranked, inside, stride, from)[0] == ranked[from]);
    }
}

/// A round of the search steps evenly through as many of the ranked plots as lie within
/// its limit: it takes the first and then every so many-th, with the least stride by which
/// no more than thirty-two are tried.
pub proof fn a_round_strides_through_what_is_near(
    ranked: Seq<u32>,
    distance: Seq<i64>,
    limit: Option<i64>,
    k: int,
)
    requires
        0 <= k,
    ensures
        ({
            let near = ranked.filter(
                |p: u32| limit is None || distance[p as int] <= limit->0,
            ).len();
            let r = round_hosts(ranked, distance, limit);
            let stride = if near == 0 {
                1
            } else {
                (near + 31) / 32
            };
            &&& k < r.len() <==> k * stride < near
            &&& k * stride < near ==> r[k] == ranked[k * stride]
        }),
{
    inside_upto(ranked, distance, limit, ranked.len());
    take_all(ranked);
    inside_bound(ranked, distance, limit, ranked.len());
    let n = inside(ranked, distance, limit, ranked.len()) as int;
    let stride = stride_of(n);
    assert(stride > 0);
    strided_at(ranked, n, stride, 0, k);
}

/// The rounds of a search have the limits given, one after another, and a last one without;
/// a round with nothing to try is left out.
pub proof fn rounds_widen_to_the_whole(
    ranked: Seq<u32>,
    distance: Seq<i64>,
    limits: Seq<i64>,
    n: nat,
)
    ensures
        offers(ranked, distance, limits, 0).len() == 0,
        ({
            let here = round_hosts(
                ranked,
                distance,
                if n < limits.len() {
                    Some(limits[n as int])
                } else {
                    None
                },
            );
            let before = offers(ranked, distance, limits, n);
            offers(ranked, distance, limits, n + 1) == if here.len() > 0 {
                before.push(here)
            } else {
                before
            }
        }),
{
}

/// A directory with ground is its own seat; one without has the seat of the directory that
/// it lies in, and the root without ground has none.
pub proof fn a_seat_is_the_nearest_ground_above(up: Seq<Option<u32>>, ground: Seq<Vec<u32>>, d: int)
    requires
        crate::territory::parents_first(up),
        ground.len() == up.len() <= u32::MAX,
        0 <= d < up.len(),
    ensures
        ground[d]@.len() > 0 ==> ground_from(up, with_ground(ground), d) == Some(d as u32),
        ground[d]@.len() == 0 ==> ground_from(up, with_ground(ground), d) == match up[d] {
            Some(p) => ground_from(up, with_ground(ground), p as int),
            None => None,
        },
{
}

/// Of some offers the one with the highest score is taken, the furthest left of those, and
/// the furthest down of those.
pub proof fn no_offer_beats_the_best(v: Seq<Offer>)
    ensures
        v.len() == 0 ==> best_of(v, v.len()) is None,
        v.len() > 0 ==> {
            let b = best_of(v, v.len())->0;
            &&& best_of(v, v.len()) is Some
            &&& v.contains(b)
            &&& forall|i: int|
                0 <= i < v.len() ==> {
                    let a = #[trigger] v[i];
                    &&& a.0 <= b.0
                    &&& a.0 == b.0 ==> b.1.0 <= a.1.0
                    &&& a.0 == b.0 && a.1.0 == b.1.0 ==> b.1.1 <= a.1.1
                }
        },
{
    if v.len() > 0 {
        best_is_best(v, v.len());
        let b = best_of(v, v.len())->0;
        assert forall|i: int| 0 <= i < v.len() implies {
            let a = #[trigger] v[i];
            &&& a.0 <= b.0
            &&& a.0 == b.0 ==> b.1.0 <= a.1.0
            &&& a.0 == b.0 && a.1.0 == b.1.0 ==> b.1.1 <= a.1.1
        } by {
            assert(!better(v[i], b));
        }
    }
}

/// The nearest birth is that of a plot no further than any other, and the earliest of
/// those as near; there is one exactly where a plot was found.
pub proof fn the_nearest_birth_is_the_earliest_of_the_nearest(
    found: Vec<(i64, u32)>,
    r: Option<u32>,
    k: int,
)
    requires
        nearest_birth.ensures((&found,), r),
        0 <= k < found@.len(),
        forall|j: int|
            0 <= j < found@.len() ==> found@[k].0 < (#[trigger] found@[j]).0 || (found@[k].0
                == found@[j].0 && found@[k].1 <= found@[j].1),
    ensures
        r == Some(found@[k].1),
{
    let b = r->0;
    let i = choose|i: int|
        0 <= i < found@.len() && (#[trigger] found@[i]).1 == b && forall|j: int|
            0 <= j < found@.len() ==> found@[i].0 < (#[trigger] found@[j]).0 || (found@[i].0
                == found@[j].0 && b <= found@[j].1);
    assert(found@[i].1 == b);
    assert(found@[k].0 <= found@[i].0);
}

} // verus!
