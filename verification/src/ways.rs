//! The cheapest ways along a road network from one of its nodes to the others.
use vstd::prelude::*;

verus! {

/// What a road is.
#[derive(Debug, Clone, Copy, PartialEq, Eq, Structural)]
pub enum RoadClass {
    /// A main road.
    Arterial,
    /// A street.
    Street,
    /// An alley.
    Alley,
}

/// The share of its length that a road of a class costs, in hundredths.
pub open spec fn share_of(class: RoadClass) -> int {
    match class {
        RoadClass::Arterial => 72,
        RoadClass::Street => 88,
        RoadClass::Alley => 100,
    }
}

/// What a road of a length costs, in hundredths of the length's unit: a main road
/// is cheaper than a street, and a street than an alley.
pub fn toll_of(length: u64, class: RoadClass) -> (r: u64)
    requires
        length * 100 <= u64::MAX,
    ensures
        r == length * share_of(class),
        class == RoadClass::Arterial ==> r == length * 72,
        class == RoadClass::Street ==> r == length * 88,
        class == RoadClass::Alley ==> r == length * 100,
{
    match class {
        RoadClass::Arterial => length * 72,
        RoadClass::Street => length * 88,
        RoadClass::Alley => length * 100,
    }
}

/// A road network: the two ends of each road, the roads at each node in order, and
/// what each road costs.
#[derive(Debug)]
pub struct Roads {
    /// The two ends of each road.
    pub ends: Vec<(u32, u32)>,
    /// The roads at each node.
    pub at: Vec<Vec<u32>>,
    /// What each road costs.
    pub toll: Vec<u64>,
}

/// The other end of an edge.
pub open spec fn other_end(ends: Seq<(u32, u32)>, e: int, v: int) -> int {
    if ends[e].0 == v {
        ends[e].1 as int
    } else {
        ends[e].0 as int
    }
}

impl Roads {
    /// Every road has two ends and a toll, and is at the nodes that list it.
    pub open spec fn wf(self) -> bool {
        &&& self.at@.len() < u32::MAX
        &&& self.ends@.len() < u32::MAX
        &&& self.toll@.len() == self.ends@.len()
        &&& forall|e: int|
            0 <= e < self.ends@.len() ==> (#[trigger] self.ends@[e]).0 < self.at@.len()
                && self.ends@[e].1 < self.at@.len()
        &&& forall|u: int, k: int|
            0 <= u < self.at@.len() && 0 <= k < self.at@[u]@.len() ==> {
                let e = #[trigger] self.at@[u]@[k] as int;
                &&& e < self.ends@.len()
                &&& self.ends@[e].0 == u || self.ends@[e].1 == u
            }
    }

    /// Does a road lead from a node to another?
    pub open spec fn leads(self, u: int, e: int, v: int) -> bool {
        &&& 0 <= u < self.at@.len()
        &&& 0 <= e < self.ends@.len()
        &&& self.at@[u]@.contains(e as u32)
        &&& other_end(self.ends@, e, u) == v
    }

    /// Where a walk along roads from a node ends, if each road leads on.
    pub open spec fn arrives(self, from: int, walk: Seq<u32>) -> Option<int>
        decreases walk.len(),
    {
        if walk.len() == 0 {
            Some(from)
        } else {
            match self.arrives(from, walk.drop_last()) {
                Some(u) => if self.leads(
                    u,
                    walk.last() as int,
                    other_end(self.ends@, walk.last() as int, u),
                ) {
                    Some(other_end(self.ends@, walk.last() as int, u))
                } else {
                    None
                },
                None => None,
            }
        }
    }

    /// What a walk costs.
    pub open spec fn fare(self, walk: Seq<u32>) -> int
        decreases walk.len(),
    {
        if walk.len() == 0 {
            0
        } else {
            self.fare(walk.drop_last()) + self.toll@[walk.last() as int]
        }
    }

    /// Does every road cost something?
    pub open spec fn all_cost(self) -> bool {
        forall|e: int| 0 <= e < self.toll@.len() ==> (#[trigger] self.toll@[e]) > 0
    }

    /// Where a road stands in the list of a node.
    pub open spec fn rank(self, u: int, e: int) -> int {
        self.at@[u]@.index_of_first(e as u32)->0
    }
}

/// The cheapest ways from a node: what each node costs to reach, if it can be, and
/// the road by which it is reached.
#[derive(Debug)]
pub struct Ways {
    /// What each node costs to reach.
    pub cost: Vec<Option<u128>>,
    /// The road by which each is reached, or the largest number.
    pub by: Vec<u32>,
}

/// Does a node of a cost stand ahead of another: by cost, and by number where the
/// costs are the same?
pub open spec fn nearer(c: int, u: int, d: int, v: int) -> bool {
    c < d || (c == d && u < v)
}

/// Does the way back from a node lead to the source within so many steps?
pub open spec fn leads_back(
    by: Seq<u32>,
    ends: Seq<(u32, u32)>,
    source: int,
    at: int,
    steps: nat,
) -> bool
    decreases steps,
{
    ||| at == source
    ||| steps > 0 && 0 <= at < by.len() && by[at] < ends.len() && leads_back(
        by,
        ends,
        source,
        other_end(ends, by[at] as int, at),
        (steps - 1) as nat,
    )
}

/// The roads from the source to a node, along the road by which each was reached.
pub open spec fn way_in(
    by: Seq<u32>,
    ends: Seq<(u32, u32)>,
    source: int,
    at: int,
    steps: nat,
) -> Seq<u32>
    decreases steps,
{
    if at == source || steps == 0 || at < 0 || at >= by.len() || by[at] >= ends.len() {
        Seq::empty()
    } else {
        way_in(by, ends, source, other_end(ends, by[at] as int, at), (steps - 1) as nat).push(
            by[at],
        )
    }
}

/// Is the road by which a node is reached tight: does the node cost what the other
/// end costs and the road?
pub open spec fn tight(g: Roads, cost: Seq<Option<u128>>, e: int, v: int) -> bool {
    let u = other_end(g.ends@, e, v);
    &&& 0 <= e < g.ends@.len()
    &&& g.leads(u, e, v)
    &&& cost[u] is Some
    &&& cost[v] is Some
    &&& cost[v]->0 == cost[u]->0 + g.toll@[e]
}

/// Does something stand ahead of another in a list?
#[verifier::opaque]
pub open spec fn ahead(order: Seq<int>, u: int, w: int) -> bool {
    exists|i: int, j: int|
        0 <= i < j < order.len() && #[trigger] order[i] == u && #[trigger] order[j] == w
}

/// Does one road to a node come before another that would do as well, or is it the
/// same: does it come from a node that was reached earlier, or stand first in the list
/// of the one node?
pub open spec fn first_choice(g: Roads, order: Seq<int>, e: int, f: int, v: int) -> bool {
    let u = other_end(g.ends@, e, v);
    let w = other_end(g.ends@, f, v);
    ||| ahead(order, u, w)
    ||| u == w && g.rank(u, e) <= g.rank(w, f)
}

/// May a node be reached next after the first few: is it the source, or does a road
/// from one of them lead to it as cheaply as any?
pub open spec fn within_reach(
    g: Roads,
    source: int,
    cost: Seq<Option<u128>>,
    order: Seq<int>,
    i: int,
    v: int,
) -> bool {
    ||| v == source
    ||| exists|e: int| #[trigger]
        tight(g, cost, e, v) && order.subrange(0, i).contains(other_end(g.ends@, e, v))
}

/// Of all that may be reached next, is each node in the order the nearest: the cheapest,
/// and of those that cost the same the one with the lowest number?
#[verifier::opaque]
pub open spec fn nearest_next(
    g: Roads,
    source: int,
    cost: Seq<Option<u128>>,
    order: Seq<int>,
) -> bool {
    forall|i: int, v: int|
        0 <= i < order.len() && #[trigger] within_reach(g, source, cost, order, i, v)
            && !order.subrange(0, i).contains(v) ==> v == order[i] || nearer(
            cost[order[i]]->0 as int,
            order[i],
            cost[v]->0 as int,
            v,
        )
}

/// Is each node in the order reached by a road from one ahead of it?
#[verifier::opaque]
pub open spec fn reached_in_turn(g: Roads, source: int, by: Seq<u32>, order: Seq<int>) -> bool {
    forall|i: int|
        0 <= i < order.len() && #[trigger] order[i] != source ==> by[order[i]] < g.ends@.len()
            && order.subrange(0, i).contains(other_end(g.ends@, by[order[i]] as int, order[i]))
}

/// Is this the order in which the nodes are reached? It holds each that can be reached
/// once; the nearest comes next each time; and of all the roads to a node that would
/// do, the one taken comes from the node that was reached first, and is first in that
/// node's list.
pub open spec fn settled(
    g: Roads,
    source: int,
    cost: Seq<Option<u128>>,
    by: Seq<u32>,
    order: Seq<int>,
) -> bool {
    &&& order.no_duplicates()
    &&& forall|i: int| 0 <= i < order.len() ==> 0 <= #[trigger] order[i] < cost.len()
    &&& forall|v: int|
        0 <= v < cost.len() ==> ((#[trigger] cost[v]) is Some <==> order.contains(v))
    &&& reached_in_turn(g, source, by, order)
    &&& nearest_next(g, source, cost, order)
    &&& forall|v: int, e: int|
        0 <= v < cost.len() && v != source && #[trigger] tight(g, cost, e, v) ==> first_choice(
            g,
            order,
            by[v] as int,
            e,
            v,
        )
}

/// Are these the cheapest ways? The source costs nothing. No road leads anywhere
/// cheaper. Every other node that can be reached costs what the way by its road
/// does, and that way leads back to the source. Ways that cost the same are settled
/// by the order in which the nodes are reached.
pub open spec fn cheapest(g: Roads, source: int, cost: Seq<Option<u128>>, by: Seq<u32>) -> bool {
    &&& cost.len() == g.at@.len()
    &&& by.len() == g.at@.len()
    &&& cost[source] == Some(0u128)
    &&& by[source] == u32::MAX
    &&& forall|u: int, e: int, v: int| #[trigger]
        g.leads(u, e, v) && cost[u] is Some ==> cost[v] is Some && cost[v]->0 <= cost[u]->0
            + g.toll@[e]
    &&& forall|v: int|
        0 <= v < cost.len() && v != source && cost[v] is Some ==> tight(
            g,
            cost,
            #[trigger] by[v] as int,
            v,
        ) && leads_back(by, g.ends@, source, v, g.at@.len())
    &&& forall|v: int| 0 <= v < cost.len() && cost[v] is None ==> #[trigger] by[v] == u32::MAX
    &&& exists|order: Seq<int>| #[trigger] settled(g, source, cost, by, order)
}

/// Does a frontier entry stand ahead of another?
pub open spec fn entry_lt(a: (u128, u32), b: (u128, u32)) -> bool {
    nearer(a.0 as int, a.1 as int, b.0 as int, b.1 as int)
}

/// The frontier: what is still to be looked at, the nearest last.
spec fn queued(f: Seq<(u128, u32)>) -> bool {
    forall|i: int, j: int| 0 <= i < j < f.len() ==> entry_lt(#[trigger] f[j], #[trigger] f[i])
}

/// Puts an entry in its place.
fn enqueue(f: &mut Vec<(u128, u32)>, x: (u128, u32))
    requires
        queued(old(f)@),
        !old(f)@.contains(x),
    ensures
        queued(final(f)@),
        final(f)@.len() == old(f)@.len() + 1,
        final(f)@.contains(x),
        forall|y: (u128, u32)| #[trigger]
            final(f)@.contains(y) <==> old(f)@.contains(y) || y == x,
{
    let ghost was = f@;
    let mut p: usize = f.len();
    while p > 0 && !(x.0 < f[p - 1].0 || (x.0 == f[p - 1].0 && x.1 < f[p - 1].1))
        invariant
            p <= f@.len(),
            f@ == was,
            queued(was),
            !was.contains(x),
            forall|j: int| p <= j < was.len() ==> entry_lt(#[trigger] was[j], x),
        decreases p,
    {
        proof {
            assert(was.contains(was[p - 1]));
            assert(entry_lt(was[p - 1], x));
        }
        p = p - 1;
    }
    f.insert(p, x);
    proof {
        let now = f@;
        assert(now =~= was.insert(p as int, x));
        assert forall|j: int| 0 <= j < p implies entry_lt(x, #[trigger] was[j]) by {
            if j < p - 1 {
                assert(entry_lt(was[p - 1], was[j]));
            }
        }
        assert forall|i: int, j: int| 0 <= i < j < now.len() implies entry_lt(
            #[trigger] now[j],
            #[trigger] now[i],
        ) by {
            let a = if i < p {
                i
            } else {
                i - 1
            };
            let b = if j < p {
                j
            } else {
                j - 1
            };
            if i != p {
                assert(now[i] == was[a]);
            }
            if j != p {
                assert(now[j] == was[b]);
            }
        }
        assert(now[p as int] == x);
        assert forall|y: (u128, u32)| #[trigger] now.contains(y) <==> was.contains(y) || y == x by {
            if now.contains(y) && y != x {
                let i = now.index_of(y);
                let a = if i < p {
                    i
                } else {
                    i - 1
                };
                assert(was[a] == y);
            }
            if was.contains(y) {
                let a = was.index_of(y);
                let i = if a < p {
                    a
                } else {
                    a + 1
                };
                assert(now[i] == y);
            }
        }
    }
}

/// Has a road that leads from one node to another been looked at: is the node done,
/// and where it is the one at hand, is the road among the first `k` there?
spec fn taken(g: Roads, done: Seq<bool>, hand: int, k: int, w: int, f: int, v: int) -> bool {
    &&& g.leads(w, f, v)
    &&& done[w]
    &&& w == hand ==> g.at@[w]@.subrange(0, k).contains(f as u32)
}

/// What is known of the nodes reached so far.
spec fn reached_ok(
    g: Roads,
    source: int,
    cost: Seq<Option<u128>>,
    by: Seq<u32>,
    done: Seq<bool>,
) -> bool {
    &&& cost.len() == g.at@.len()
    &&& by.len() == g.at@.len()
    &&& done.len() == g.at@.len()
    &&& 0 <= source < cost.len()
    &&& cost[source] == Some(0u128)
    &&& by[source] == u32::MAX
    &&& forall|v: int| 0 <= v < done.len() && #[trigger] done[v] ==> cost[v] is Some
    &&& forall|v: int|
        0 <= v < cost.len() && v != source && cost[v] is Some ==> tight(
            g,
            cost,
            #[trigger] by[v] as int,
            v,
        )
    &&& forall|v: int| 0 <= v < cost.len() && cost[v] is None ==> #[trigger] by[v] == u32::MAX
}

/// What is known of the frontier.
spec fn frontier_ok(
    g: Roads,
    cost: Seq<Option<u128>>,
    done: Seq<bool>,
    f: Seq<(u128, u32)>,
) -> bool {
    &&& queued(f)
    &&& forall|x: (u128, u32)| #[trigger]
        f.contains(x) ==> x.1 < cost.len() && cost[x.1 as int] is Some && cost[x.1 as int]->0
            <= x.0
    &&& forall|v: int|
        0 <= v < cost.len() && (#[trigger] cost[v]) is Some && !done[v] ==> f.contains(
            (cost[v]->0, v as u32),
        )
    &&& forall|s: int, x: (u128, u32)|
        0 <= s < done.len() && #[trigger] done[s] && #[trigger] f.contains(x) ==> cost[s]->0 <= x.0
}

/// What is known of the roads looked at.
spec fn taken_ok(
    g: Roads,
    source: int,
    cost: Seq<Option<u128>>,
    by: Seq<u32>,
    done: Seq<bool>,
    order: Seq<int>,
    hand: int,
    k: int,
) -> bool {
    &&& forall|w: int, f: int, v: int| #[trigger]
        taken(g, done, hand, k, w, f, v) ==> cost[v] is Some && cost[v]->0 <= cost[w]->0
            + g.toll@[f]
    &&& forall|w: int, f: int, v: int| #[trigger]
        taken(g, done, hand, k, w, f, v) && v != source && cost[v]->0 == cost[w]->0 + g.toll@[f]
            ==> first_choice(g, order, by[v] as int, f, v)
    &&& forall|v: int|
        0 <= v < cost.len() && v != source && cost[v] is Some ==> taken(
            g,
            done,
            hand,
            k,
            other_end(g.ends@, by[v] as int, v),
            #[trigger] by[v] as int,
            v,
        )
}

/// What is known of the order in which the nodes were done.
spec fn order_ok(
    g: Roads,
    source: int,
    cost: Seq<Option<u128>>,
    by: Seq<u32>,
    done: Seq<bool>,
    order: Seq<int>,
) -> bool {
    &&& order.no_duplicates()
    &&& forall|i: int| 0 <= i < order.len() ==> 0 <= #[trigger] order[i] < done.len()
    &&& forall|v: int| 0 <= v < done.len() ==> (#[trigger] done[v] <==> order.contains(v))
    &&& reached_in_turn(g, source, by, order)
    &&& nearest_next(g, source, cost, order)
}

proof fn in_turn(g: Roads, source: int, by: Seq<u32>, order: Seq<int>, i: int)
    requires
        reached_in_turn(g, source, by, order),
        0 <= i < order.len(),
        order[i] != source,
    ensures
        by[order[i]] < g.ends@.len(),
        order.subrange(0, i).contains(other_end(g.ends@, by[order[i]] as int, order[i])),
{
    reveal(reached_in_turn);
}

proof fn next_is_nearest(
    g: Roads,
    source: int,
    cost: Seq<Option<u128>>,
    order: Seq<int>,
    i: int,
    v: int,
)
    requires
        nearest_next(g, source, cost, order),
        0 <= i < order.len(),
        within_reach(g, source, cost, order, i, v),
        !order.subrange(0, i).contains(v),
    ensures
        v == order[i] || nearer(cost[order[i]]->0 as int, order[i], cost[v]->0 as int, v),
{
    reveal(nearest_next);
}

proof fn stands_ahead(order: Seq<int>, i: int, j: int)
    requires
        0 <= i < j < order.len(),
    ensures
        ahead(order, order[i], order[j]),
{
    reveal(ahead);
}

/// Nothing stands ahead of itself, nor two things ahead of each other.
proof fn not_both_ahead(order: Seq<int>, u: int, w: int)
    requires
        order.no_duplicates(),
    ensures
        !(ahead(order, u, w) && ahead(order, w, u)),
        !ahead(order, u, u),
{
    reveal(ahead);
}

proof fn still_ahead(order: Seq<int>, u: int, w: int, x: int)
    requires
        ahead(order, u, w),
    ensures
        ahead(order.push(x), u, w),
{
    reveal(ahead);
    let (i, j) = choose|i: int, j: int|
        0 <= i < j < order.len() && #[trigger] order[i] == u && #[trigger] order[j] == w;
    assert(order.push(x)[i] == u && order.push(x)[j] == w);
}

/// The order of what was reached stands when a node that is not in it becomes cheaper
/// by a road from the last in it.
proof fn order_stands(
    g: Roads,
    source: int,
    was: Seq<Option<u128>>,
    was_by: Seq<u32>,
    done: Seq<bool>,
    order: Seq<int>,
    hand: int,
    k: int,
    v: int,
    c: u128,
    e: u32,
)
    requires
        g.wf(),
        reached_ok(g, source, was, was_by, done),
        order_ok(g, source, was, was_by, done, order),
        taken_ok(g, source, was, was_by, done, order, hand, k),
        order.len() > 0,
        order.last() == hand,
        0 <= v < was.len(),
        !done[v],
        v != source,
        was[v] matches Some(d) ==> c < d,
    ensures
        order_ok(g, source, was.update(v, Some(c)), was_by.update(v, e), done, order),
{
    let now = was.update(v, Some(c));
    let by = was_by.update(v, e);
    assert(reached_in_turn(g, source, by, order)) by {
        reveal(reached_in_turn);
        assert forall|i: int| 0 <= i < order.len() && #[trigger] order[i] != source implies by[order[i]]
            < g.ends@.len() && order.subrange(0, i).contains(
            other_end(g.ends@, by[order[i]] as int, order[i]),
        ) by {
            assert(order.contains(order[i]));
            assert(done[order[i]]);
            assert(order[i] != v);
            in_turn(g, source, was_by, order, i);
        }
    }
    assert(nearest_next(g, source, now, order)) by {
        reveal(nearest_next);
        assert forall|i: int, x: int|
            0 <= i < order.len() && #[trigger] within_reach(g, source, now, order, i, x)
                && !order.subrange(0, i).contains(x) implies x == order[i] || nearer(
            now[order[i]]->0 as int,
            order[i],
            now[x]->0 as int,
            x,
        ) by {
            assert(order.contains(order[i]));
            assert(done[order[i]]);
            if x != source {
                let f = choose|f: int| #[trigger]
                    tight(g, now, f, x) && order.subrange(0, i).contains(other_end(g.ends@, f, x));
                let y = other_end(g.ends@, f, x);
                let j = order.subrange(0, i).index_of(y);
                assert(order[j] == y);
                assert(order.contains(y));
                assert(done[y]);
                assert(y != hand) by {
                    assert(order[order.len() - 1] == hand);
                }
                assert(now[y] == was[y]);
                assert(taken(g, done, hand, k, y, f, x));
                assert(x != v);
                assert(tight(g, was, f, x));
            }
            assert(within_reach(g, source, was, order, i, x));
            next_is_nearest(g, source, was, order, i, x);
        }
    }
}

/// No cost is more than so many of the dearest roads.
spec fn cost_bound(cost: Seq<Option<u128>>, m: nat) -> bool {
    forall|v: int|
        0 <= v < cost.len() && (#[trigger] cost[v]) is Some ==> cost[v]->0 <= m * u64::MAX
}

/// There are no more different numbers below a bound than the bound.
pub(crate) proof fn few_nodes(order: Seq<int>, n: int)
    requires
        order.no_duplicates(),
        n >= 0,
        forall|i: int| 0 <= i < order.len() ==> 0 <= #[trigger] order[i] < n,
    ensures
        order.len() <= n,
{
    order.unique_seq_to_set();
    let all = vstd::set_lib::set_int_range(0, n);
    vstd::set_lib::lemma_int_range(0, n);
    assert(order.to_set().subset_of(all)) by {
        assert forall|x: int| order.to_set().contains(x) implies all.contains(x) by {
            assert(order.contains(x));
        }
    }
    vstd::set_lib::lemma_len_subset(order.to_set(), all);
}

proof fn leads_back_longer(
    by: Seq<u32>,
    ends: Seq<(u32, u32)>,
    source: int,
    at: int,
    steps: nat,
    more: nat,
)
    requires
        leads_back(by, ends, source, at, steps),
        steps <= more,
    ensures
        leads_back(by, ends, source, at, more),
    decreases steps,
{
    if at != source {
        leads_back_longer(
            by,
            ends,
            source,
            other_end(ends, by[at] as int, at),
            (steps - 1) as nat,
            (more - 1) as nat,
        );
    }
}

proof fn order_leads_back(
    g: Roads,
    source: int,
    by: Seq<u32>,
    order: Seq<int>,
    i: int,
)
    requires
        reached_in_turn(g, source, by, order),
        forall|j: int| 0 <= j < order.len() ==> 0 <= #[trigger] order[j] < by.len(),
        0 <= i < order.len(),
    ensures
        leads_back(by, g.ends@, source, order[i], i as nat),
    decreases i,
{
    if order[i] != source {
        let u = other_end(g.ends@, by[order[i]] as int, order[i]);
        in_turn(g, source, by, order, i);
        let before = order.subrange(0, i);
        assert(before.contains(u));
        let j = before.index_of(u);
        assert(order[j] == u);
        order_leads_back(g, source, by, order, j);
        leads_back_longer(by, g.ends@, source, u, j as nat, (i - 1) as nat);
    }
}

/// What is among the first of a list and one more is among the first, or the one.
proof fn same_or_last(list: Seq<u32>, k: int, f: u32)
    requires
        0 <= k < list.len(),
    ensures
        list.subrange(0, k + 1).contains(f) <==> list.subrange(0, k).contains(f) || list[k] == f,
{
    let more = list.subrange(0, k + 1);
    let less = list.subrange(0, k);
    if more.contains(f) {
        let i = more.index_of(f);
        if i < k {
            assert(less[i] == f);
        }
    }
    if less.contains(f) {
        assert(more[less.index_of(f)] == f);
    }
    if list[k] == f {
        assert(more[k] == f);
    }
}

/// Where something first stands in a list.
proof fn first_stand(list: Seq<u32>, k: int, f: u32)
    requires
        0 <= k <= list.len(),
    ensures
        list.subrange(0, k).contains(f) ==> list.index_of_first(f)->0 < k,
        k < list.len() && list[k] == f && !list.subrange(0, k).contains(f)
            ==> list.index_of_first(f)->0 == k,
{
    list.index_of_first_ensures(f);
    let less = list.subrange(0, k);
    if less.contains(f) {
        let i = less.index_of(f);
        assert(list[i] == f);
        assert(list.contains(f));
    } else if k < list.len() && list[k] == f {
        assert(list.contains(f));
        let i = list.index_of_first(f)->0;
        if i < k {
            assert(less[i] == f);
        }
    }
}

/// Looks at one road from the node at hand.
fn look(
    g: &Roads,
    source: u32,
    u: u32,
    du: u128,
    k: usize,
    cost: &mut Vec<Option<u128>>,
    by: &mut Vec<u32>,
    done: &Vec<bool>,
    frontier: &mut Vec<(u128, u32)>,
    Ghost(order): Ghost<Seq<int>>,
)
    requires
        g.wf(),
        u < g.at@.len(),
        k < g.at@[u as int]@.len(),
        reached_ok(*g, source as int, old(cost)@, old(by)@, done@),
        frontier_ok(*g, old(cost)@, done@, old(frontier)@),
        taken_ok(*g, source as int, old(cost)@, old(by)@, done@, order, u as int, k as int),
        order_ok(*g, source as int, old(cost)@, old(by)@, done@, order),
        done@[u as int],
        old(cost)@[u as int] == Some(du),
        forall|s: int|
            0 <= s < done@.len() && #[trigger] done@[s] ==> old(cost)@[s]->0 <= du,
        order.len() > 0,
        order.last() == u,
        cost_bound(old(cost)@, order.len()),
        du <= (order.len() - 1) * u64::MAX,
    ensures
        reached_ok(*g, source as int, final(cost)@, final(by)@, done@),
        frontier_ok(*g, final(cost)@, done@, final(frontier)@),
        taken_ok(*g, source as int, final(cost)@, final(by)@, done@, order, u as int, k + 1),
        order_ok(*g, source as int, final(cost)@, final(by)@, done@, order),
        forall|s: int|
            0 <= s < done@.len() && #[trigger] done@[s] ==> final(cost)@[s] == old(cost)@[s],
        cost_bound(final(cost)@, order.len()),
{
    let ghost was = cost@;
    let ghost was_by = by@;
    let ghost list = g.at@[u as int]@;
    let e: u32 = g.at[u as usize][k];
    let v: u32 = if g.ends[e as usize].0 == u {
        g.ends[e as usize].1
    } else {
        g.ends[e as usize].0
    };
    let w: u64 = g.toll[e as usize];
    proof {
        few_nodes(order, done@.len() as int);
        assert((order.len() - 1) * u64::MAX + u64::MAX == order.len() * u64::MAX)
            by (nonlinear_arith);
        assert(order.len() * u64::MAX <= 0xffff_ffff * u64::MAX) by (nonlinear_arith)
            requires
                order.len() <= 0xffff_ffff,
        ;
        assert(list[k as int] == e);
        assert(list.contains(e));
        assert(g.leads(u as int, e as int, v as int));
        assert(list.subrange(0, k + 1)[k as int] == e);
    }
    let nd: u128 = du + w as u128;
    let better: bool = match cost[v as usize] {
        Some(c) => nd < c,
        None => true,
    };
    if better {
        proof {
            assert(!done@[v as int]) by {
                if done@[v as int] {
                    assert(was[v as int]->0 <= du);
                }
            }
            assert(v != u);
            assert(v != source);
            if frontier@.contains((nd, v)) {
                assert(was[v as int]->0 <= nd);
            }
        }
        cost.set(v as usize, Some(nd));
        by.set(v as usize, e);
        let ghost had = frontier@;
        enqueue(frontier, (nd, v));
        proof {
            let now = cost@;
            assert(now == was.update(v as int, Some(nd)));
            assert(by@ == was_by.update(v as int, e));
            assert(other_end(g.ends@, e as int, v as int) == u);
            assert(tight(*g, now, e as int, v as int));
            assert forall|x: int|
                0 <= x < now.len() && x != source && now[x] is Some implies tight(
                *g,
                now,
                #[trigger] by@[x] as int,
                x,
            ) && taken(
                *g,
                done@,
                u as int,
                k + 1,
                other_end(g.ends@, by@[x] as int, x),
                by@[x] as int,
                x,
            ) by {
                if x != v {
                    assert(tight(*g, was, was_by[x] as int, x));
                    let y = other_end(g.ends@, was_by[x] as int, x);
                    assert(taken(*g, done@, u as int, k as int, y, was_by[x] as int, x));
                    assert(now[y] == was[y]);
                    same_or_last(list, k as int, was_by[x]);
                }
            }
            assert forall|x: int| 0 <= x < now.len() && now[x] is None implies #[trigger] by@[x]
                == u32::MAX by {
                assert(was_by[x] == u32::MAX);
            }
            assert forall|x: (u128, u32)| #[trigger] frontier@.contains(x) implies x.1 < now.len()
                && now[x.1 as int] is Some && now[x.1 as int]->0 <= x.0 by {
                if x != (nd, v) {
                    assert(had.contains(x));
                }
            }
            assert forall|x: int|
                0 <= x < now.len() && (#[trigger] now[x]) is Some && !done@[x] implies frontier@.contains(
                (now[x]->0, x as u32),
            ) by {
                if x != v {
                    assert(was[x] is Some);
                    assert(had.contains((was[x]->0, x as u32)));
                }
            }
            assert forall|s: int, x: (u128, u32)|
                0 <= s < done@.len() && #[trigger] done@[s] && #[trigger] frontier@.contains(
                    x,
                ) implies now[s]->0 <= x.0 by {
                assert(now[s] == was[s]);
                if x != (nd, v) {
                    assert(had.contains(x));
                }
            }
            assert forall|p: int, f: int, x: int| #[trigger]
                taken(*g, done@, u as int, k + 1, p, f, x) implies now[x] is Some && now[x]->0
                <= now[p]->0 + g.toll@[f] && (x != source && now[x]->0 == now[p]->0 + g.toll@[f]
                ==> first_choice(*g, order, by@[x] as int, f, x)) by {
                assert(now[p] == was[p]);
                same_or_last(list, k as int, f as u32);
                if p == u && f == e && !list.subrange(0, k as int).contains(e) {
                    assert(x == v);
                    first_stand(list, k as int, e);
                } else {
                    assert(taken(*g, done@, u as int, k as int, p, f, x));
                    if x != v && was[x] is Some && x != source {
                        let y = other_end(g.ends@, was_by[x] as int, x);
                        assert(tight(*g, was, was_by[x] as int, x));
                        assert(taken(*g, done@, u as int, k as int, y, was_by[x] as int, x));
                        assert(now[y] == was[y]);
                    }
                }
            }
            order_stands(
                *g,
                source as int,
                was,
                was_by,
                done@,
                order,
                u as int,
                k as int,
                v as int,
                nd,
                e,
            );
        }
    } else {
        proof {
            assert forall|p: int, f: int, x: int| #[trigger]
                taken(*g, done@, u as int, k + 1, p, f, x) implies was[x] is Some && was[x]->0
                <= was[p]->0 + g.toll@[f] && (x != source && was[x]->0 == was[p]->0 + g.toll@[f]
                ==> first_choice(*g, order, was_by[x] as int, f, x)) by {
                same_or_last(list, k as int, f as u32);
                if p == u && f == e && !list.subrange(0, k as int).contains(e) {
                    assert(x == v);
                    if x != source && was[x]->0 == was[p]->0 + g.toll@[f] {
                        let b = was_by[x] as int;
                        let y = other_end(g.ends@, b, x);
                        assert(tight(*g, was, b, x));
                        assert(taken(*g, done@, u as int, k as int, y, b, x));
                        if y == u {
                            first_stand(list, k as int, e);
                            first_stand(list, k as int, b as u32);
                        } else {
                            assert(order.contains(y));
                            let j = order.index_of(y);
                            assert(order[j] == y && order[order.len() - 1] == u);
                            stands_ahead(order, j, order.len() - 1);
                        }
                    }
                } else {
                    assert(taken(*g, done@, u as int, k as int, p, f, x));
                }
            }
            assert forall|x: int|
                0 <= x < was.len() && x != source && was[x] is Some implies taken(
                *g,
                done@,
                u as int,
                k + 1,
                other_end(g.ends@, was_by[x] as int, x),
                #[trigger] was_by[x] as int,
                x,
            ) by {
                let y = other_end(g.ends@, was_by[x] as int, x);
                assert(taken(*g, done@, u as int, k as int, y, was_by[x] as int, x));
                same_or_last(list, k as int, was_by[x]);
            }
        }
    }
}

/// Marks the nearest node of the frontier as done.
proof fn node_done(
    g: Roads,
    source: int,
    cost: Seq<Option<u128>>,
    by: Seq<u32>,
    done: Seq<bool>,
    frontier: Seq<(u128, u32)>,
    order: Seq<int>,
)
    requires
        g.wf(),
        frontier.len() > 0,
        !done[frontier.last().1 as int],
        reached_ok(g, source, cost, by, done),
        frontier_ok(g, cost, done, frontier),
        taken_ok(g, source, cost, by, done, order, -1, 0),
        order_ok(g, source, cost, by, done, order),
    ensures
        ({
            let (c, u) = frontier.last();
            let next = done.update(u as int, true);
            &&& u < g.at@.len()
            &&& cost[u as int] == Some(c)
            &&& reached_ok(g, source, cost, by, next)
            &&& frontier_ok(g, cost, next, frontier.drop_last())
            &&& taken_ok(g, source, cost, by, next, order.push(u as int), u as int, 0)
            &&& order_ok(g, source, cost, by, next, order.push(u as int))
            &&& forall|s: int| 0 <= s < next.len() && #[trigger] next[s] ==> cost[s]->0 <= c
        }),
{
    let x = frontier.last();
    let (c, u) = x;
    let rest = frontier.drop_last();
    let next = done.update(u as int, true);
    assert(frontier.contains(x));
    assert(cost[u as int] is Some);
    let own = (cost[u as int]->0, u);
    assert(frontier.contains(own));
    let i = frontier.index_of(own);
    if i < frontier.len() - 1 {
        assert(entry_lt(frontier[frontier.len() - 1], frontier[i]));
    }
    assert(cost[u as int] == Some(c));
    assert forall|y: (u128, u32)| #[trigger] rest.contains(y) implies frontier.contains(y)
        && entry_lt(x, y) by {
        let j = rest.index_of(y);
        assert(frontier[j] == y);
        assert(entry_lt(frontier[frontier.len() - 1], frontier[j]));
    }
    assert(queued(rest));
    assert forall|v: int|
        0 <= v < cost.len() && (#[trigger] cost[v]) is Some && !next[v] implies rest.contains(
        (cost[v]->0, v as u32),
    ) by {
        assert(frontier.contains((cost[v]->0, v as u32)));
        let j = frontier.index_of((cost[v]->0, v as u32));
        assert(rest[j] == (cost[v]->0, v as u32));
    }
    assert forall|s: int, y: (u128, u32)|
        0 <= s < next.len() && #[trigger] next[s] && #[trigger] rest.contains(y) implies cost[s]->0
        <= y.0 by {
        assert(frontier.contains(y));
        if s != u {
            assert(done[s]);
        }
    }
    assert forall|w: int, f: int, v: int| #[trigger]
        taken(g, next, u as int, 0, w, f, v) implies taken(g, done, -1, 0, w, f, v) by {
        if w == u {
            assert(g.at@[w]@.subrange(0, 0).len() == 0);
        }
    }
    assert forall|v: int| 0 <= v < cost.len() && v != source && cost[v] is Some implies taken(
        g,
        next,
        u as int,
        0,
        other_end(g.ends@, by[v] as int, v),
        #[trigger] by[v] as int,
        v,
    ) by {
        assert(taken(g, done, -1, 0, other_end(g.ends@, by[v] as int, v), by[v] as int, v));
    }
    let more = order.push(u as int);
    assert forall|w: int, f: int, v: int| #[trigger]
        taken(g, next, u as int, 0, w, f, v) && v != source && cost[v]->0 == cost[w]->0
            + g.toll@[f] implies first_choice(g, more, by[v] as int, f, v) by {
        assert(taken(g, done, -1, 0, w, f, v));
        assert(first_choice(g, order, by[v] as int, f, v));
        let y = other_end(g.ends@, by[v] as int, v);
        if ahead(order, y, w) {
            still_ahead(order, y, w, u as int);
        }
    }
    assert(!order.contains(u as int));
    assert forall|v: int| 0 <= v < next.len() implies (#[trigger] next[v] <==> more.contains(v)) by {
        if v == u {
            assert(more[order.len() as int] == v);
        } else {
            if more.contains(v) {
                let j = more.index_of(v);
                assert(order[j] == v);
            }
            if order.contains(v) {
                assert(more[order.index_of(v)] == v);
            }
            assert(done[v] == next[v]);
        }
    }
    assert(reached_in_turn(g, source, by, more)) by {
        reveal(reached_in_turn);
        assert forall|j: int| 0 <= j < more.len() && #[trigger] more[j] != source implies by[more[j]]
            < g.ends@.len() && more.subrange(0, j).contains(
            other_end(g.ends@, by[more[j]] as int, more[j]),
        ) by {
            assert(more.subrange(0, j) =~= order.subrange(0, j));
            if j < order.len() {
                assert(order[j] == more[j]);
                in_turn(g, source, by, order, j);
            } else {
                let y = other_end(g.ends@, by[u as int] as int, u as int);
                assert(taken(g, done, -1, 0, y, by[u as int] as int, u as int));
                assert(order.contains(y));
                assert(order.subrange(0, j) =~= order);
            }
        }
    }
    assert(nearest_next(g, source, cost, more)) by {
        reveal(nearest_next);
        assert forall|i: int, v: int|
            0 <= i < more.len() && #[trigger] within_reach(g, source, cost, more, i, v)
                && !more.subrange(0, i).contains(v) implies v == more[i] || nearer(
            cost[more[i]]->0 as int,
            more[i],
            cost[v]->0 as int,
            v,
        ) by {
            assert(more.subrange(0, i) =~= order.subrange(0, i));
            if i < order.len() {
                assert(within_reach(g, source, cost, order, i, v));
                assert(more[i] == order[i]);
                next_is_nearest(g, source, cost, order, i, v);
            } else {
                assert(order.subrange(0, i) =~= order);
                assert(0 <= v < cost.len() && cost[v] is Some) by {
                    if v != source {
                        let e = choose|e: int| #[trigger]
                            tight(g, cost, e, v) && more.subrange(0, i).contains(
                                other_end(g.ends@, e, v),
                            );
                        assert(0 <= e < g.ends@.len());
                        assert(g.ends@[e].0 < g.at@.len());
                        let y = other_end(g.ends@, e, v);
                        let k = g.at@[y]@.index_of(e as u32);
                        assert(g.at@[y]@[k] == e);
                    }
                }
                assert(!done[v]);
                assert(frontier.contains((cost[v]->0, v as u32)));
                let j = frontier.index_of((cost[v]->0, v as u32));
                if j < frontier.len() - 1 {
                    assert(entry_lt(frontier[frontier.len() - 1], frontier[j]));
                }
            }
        }
    }
    assert(more.no_duplicates()) by {
        assert forall|a: int, b: int| 0 <= a < b < more.len() implies more[a] != more[b] by {
            if b == order.len() {
                assert(order.contains(order[a]));
            }
        }
    }
}

/// The cheapest ways from a node to every node that can be reached.
pub fn cheapest_ways(g: &Roads, source: u32) -> (r: Ways)
    requires
        g.wf(),
        source < g.at@.len(),
    ensures
        cheapest(*g, source as int, r.cost@, r.by@),
{
    let n: usize = g.at.len();
    let mut cost: Vec<Option<u128>> = Vec::new();
    let mut by: Vec<u32> = Vec::new();
    let mut done: Vec<bool> = Vec::new();
    let mut i: usize = 0;
    while i < n
        invariant
            i <= n,
            cost@.len() == i,
            by@.len() == i,
            done@.len() == i,
            forall|v: int| 0 <= v < i ==> #[trigger] cost@[v] == None::<u128>,
            forall|v: int| 0 <= v < i ==> #[trigger] by@[v] == u32::MAX,
            forall|v: int| 0 <= v < i ==> !#[trigger] done@[v],
        decreases n - i,
    {
        cost.push(None);
        by.push(0xffff_ffff);
        done.push(false);
        i = i + 1;
    }
    cost.set(source as usize, Some(0));
    let mut frontier: Vec<(u128, u32)> = Vec::new();
    frontier.push((0, source));
    let ghost mut order: Seq<int> = Seq::empty();
    proof {
        assert(frontier@ =~= seq![(0u128, source)]);
        assert(frontier@[0] == (0u128, source));
        assert(frontier@.contains((0u128, source)));
        assert forall|v: int| 0 <= v < done@.len() implies (#[trigger] done@[v] <==> order.contains(
            v,
        )) by {}
        reveal(reached_in_turn);
        reveal(nearest_next);
    }
    while frontier.len() > 0
        invariant
            g.wf(),
            n == g.at@.len(),
            source < n,
            reached_ok(*g, source as int, cost@, by@, done@),
            frontier_ok(*g, cost@, done@, frontier@),
            taken_ok(*g, source as int, cost@, by@, done@, order, -1, 0),
            order_ok(*g, source as int, cost@, by@, done@, order),
            order.len() <= n,
            cost_bound(cost@, order.len()),
        decreases n - order.len(), frontier@.len(),
    {
        let ghost had = frontier@;
        let ghost was = order;
        let ghost was_done = done@;
        let (du, u): (u128, u32) = match frontier.pop() {
            Some(x) => x,
            None => (0, source),
        };
        assert((du, u) == had.last());
        assert(had.contains((du, u)));
        assert(frontier@ =~= had.drop_last());
        if done[u as usize] {
            proof {
                assert forall|x: (u128, u32)| #[trigger] frontier@.contains(x) implies had.contains(
                    x,
                ) by {
                    let j = frontier@.index_of(x);
                    assert(had[j] == x);
                }
                assert forall|v: int|
                    0 <= v < cost@.len() && (#[trigger] cost@[v]) is Some && !done@[v] implies frontier@.contains(
                (cost@[v]->0, v as u32)) by {
                    assert(had.contains((cost@[v]->0, v as u32)));
                    let j = had.index_of((cost@[v]->0, v as u32));
                    assert(frontier@[j] == (cost@[v]->0, v as u32));
                }
            }
            continue ;
        }
        proof {
            node_done(*g, source as int, cost@, by@, done@, had, order);
            order = order.push(u as int);
        }
        done.set(u as usize, true);
        proof {
            few_nodes(order, n as int);
            assert((order.len() - 1) * u64::MAX <= order.len() * u64::MAX) by (nonlinear_arith)
                requires
                    order.len() > 0,
            ;
        }
        let m: usize = g.at[u as usize].len();
        let mut k: usize = 0;
        while k < m
            invariant
                g.wf(),
                n == g.at@.len(),
                source < n,
                u < n,
                k <= m == g.at@[u as int]@.len(),
                reached_ok(*g, source as int, cost@, by@, done@),
                frontier_ok(*g, cost@, done@, frontier@),
                taken_ok(*g, source as int, cost@, by@, done@, order, u as int, k as int),
                order_ok(*g, source as int, cost@, by@, done@, order),
                done@[u as int],
                cost@[u as int] == Some(du),
                forall|s: int|
                    0 <= s < done@.len() && #[trigger] done@[s] ==> cost@[s]->0 <= du,
                0 < order.len() <= n,
                order.last() == u,
                cost_bound(cost@, order.len()),
                du <= (order.len() - 1) * u64::MAX,
            decreases m - k,
        {
            look(g, source, u, du, k, &mut cost, &mut by, &done, &mut frontier, Ghost(order));
            k = k + 1;
        }
        proof {
            let list = g.at@[u as int]@;
            assert(list.subrange(0, k as int) =~= list);
            assert forall|w: int, f: int, v: int| #[trigger]
                taken(*g, done@, -1, 0, w, f, v) implies taken(
                *g,
                done@,
                u as int,
                k as int,
                w,
                f,
                v,
            ) by {}
            assert forall|v: int|
                0 <= v < cost@.len() && v != source && cost@[v] is Some implies taken(
                *g,
                done@,
                -1,
                0,
                other_end(g.ends@, by@[v] as int, v),
                #[trigger] by@[v] as int,
                v,
            ) by {
                let y = other_end(g.ends@, by@[v] as int, v);
                assert(taken(*g, done@, u as int, k as int, y, by@[v] as int, v));
            }
        }
    }
    proof {
        let c = cost@;
        assert forall|v: int| 0 <= v < c.len() && (#[trigger] c[v]) is Some implies done@[v] by {
            if !done@[v] {
                assert(frontier@.contains((c[v]->0, v as u32)));
            }
        }
        assert forall|u: int, e: int, v: int| #[trigger]
            g.leads(u, e, v) && c[u] is Some implies c[v] is Some && c[v]->0 <= c[u]->0
            + g.toll@[e] by {
            assert(taken(*g, done@, -1, 0, u, e, v));
        }
        assert forall|v: int| 0 <= v < c.len() && v != source && c[v] is Some implies tight(
            *g,
            c,
            #[trigger] by@[v] as int,
            v,
        ) && leads_back(by@, g.ends@, source as int, v, g.at@.len()) by {
            assert(done@[v]);
            assert(order.contains(v));
            let i = order.index_of(v);
            order_leads_back(*g, source as int, by@, order, i);
            leads_back_longer(by@, g.ends@, source as int, v, i as nat, g.at@.len());
        }
        assert forall|v: int, e: int|
            0 <= v < c.len() && v != source && #[trigger] tight(*g, c, e, v) implies first_choice(
            *g,
            order,
            by@[v] as int,
            e,
            v,
        ) by {
            let w = other_end(g.ends@, e, v);
            assert(done@[w]);
            assert(taken(*g, done@, -1, 0, w, e, v));
        }
        assert(settled(*g, source as int, c, by@, order));
    }
    Ways { cost, by }
}

/// No walk along the roads is cheaper than the way found, and there is a way to
/// every node that a walk leads to.
pub proof fn no_walk_is_cheaper(
    g: Roads,
    source: int,
    cost: Seq<Option<u128>>,
    by: Seq<u32>,
    walk: Seq<u32>,
)
    requires
        g.wf(),
        0 <= source < g.at@.len(),
        cheapest(g, source, cost, by),
    ensures
        g.arrives(source, walk) matches Some(v) ==> {
            &&& 0 <= v < cost.len()
            &&& cost[v] is Some
            &&& cost[v]->0 <= g.fare(walk)
        },
    decreases walk.len(),
{
    if walk.len() > 0 && g.arrives(source, walk) is Some {
        no_walk_is_cheaper(g, source, cost, by, walk.drop_last());
        let u = g.arrives(source, walk.drop_last())->0;
        let e = walk.last() as int;
        assert(g.leads(u, e, other_end(g.ends@, e, u)));
        let i = g.at@[u]@.index_of(walk.last());
        assert(g.at@[u]@[i] == walk.last());
        assert(g.ends@[e].0 < g.at@.len());
    }
}

/// The way found to a node is a walk along the roads from the source to it, and
/// costs what is said.
pub proof fn the_way_is_a_walk(
    g: Roads,
    source: int,
    cost: Seq<Option<u128>>,
    by: Seq<u32>,
    v: int,
    steps: nat,
)
    requires
        g.wf(),
        0 <= source < g.at@.len(),
        cheapest(g, source, cost, by),
        0 <= v < cost.len(),
        cost[v] is Some,
        leads_back(by, g.ends@, source, v, steps),
    ensures
        g.arrives(source, way_in(by, g.ends@, source, v, steps)) == Some(v),
        g.fare(way_in(by, g.ends@, source, v, steps)) == cost[v]->0,
    decreases steps,
{
    if v != source {
        assert(tight(g, cost, by[v] as int, v));
        let u = other_end(g.ends@, by[v] as int, v);
        the_way_is_a_walk(g, source, cost, by, u, (steps - 1) as nat);
        let before = way_in(by, g.ends@, source, u, (steps - 1) as nat);
        let walk = way_in(by, g.ends@, source, v, steps);
        assert(walk == before.push(by[v]));
        assert(walk.drop_last() =~= before);
        assert(g.leads(u, by[v] as int, v));
    }
}

/// The nodes are reached in order of what they cost, and where every road costs
/// something in order of their numbers where the costs are the same.
pub proof fn nearest_come_first(
    g: Roads,
    source: int,
    cost: Seq<Option<u128>>,
    by: Seq<u32>,
    order: Seq<int>,
    i: int,
    j: int,
)
    requires
        g.wf(),
        0 <= source < g.at@.len(),
        cheapest(g, source, cost, by),
        settled(g, source, cost, by, order),
        0 <= i < j < order.len(),
    ensures
        cost[order[i]]->0 <= cost[order[j]]->0,
        g.all_cost() ==> nearer(
            cost[order[i]]->0 as int,
            order[i],
            cost[order[j]]->0 as int,
            order[j],
        ),
    decreases j,
{
    let v = order[j];
    let before = order.subrange(0, i);
    assert(!before.contains(v)) by {
        if before.contains(v) {
            assert(order[before.index_of(v)] == v);
        }
    }
    assert(order.contains(v));
    if v == source {
        assert(within_reach(g, source, cost, order, i, v));
        next_is_nearest(g, source, cost, order, i, v);
    } else {
        let e = by[v] as int;
        assert(tight(g, cost, e, v));
        let u = other_end(g.ends@, e, v);
        in_turn(g, source, by, order, j);
        let k = order.subrange(0, j).index_of(u);
        assert(order[k] == u);
        if k < i {
            assert(before[k] == u);
            assert(within_reach(g, source, cost, order, i, v));
            next_is_nearest(g, source, cost, order, i, v);
        } else {
            assert(g.toll@[e] >= 0);
            if i < k {
                nearest_come_first(g, source, cost, by, order, i, k);
            }
        }
    }
}

/// The order in which the nodes are reached is the same up to a place.
proof fn same_order(
    g: Roads,
    source: int,
    cost: Seq<Option<u128>>,
    by: Seq<u32>,
    by2: Seq<u32>,
    order: Seq<int>,
    order2: Seq<int>,
    i: int,
)
    requires
        g.wf(),
        0 <= source < g.at@.len(),
        cheapest(g, source, cost, by),
        cheapest(g, source, cost, by2),
        settled(g, source, cost, by, order),
        settled(g, source, cost, by2, order2),
        0 <= i <= order.len(),
    ensures
        i <= order2.len(),
        order.subrange(0, i) == order2.subrange(0, i),
    decreases i,
{
    if i > 0 {
        let k = i - 1;
        same_order(g, source, cost, by, by2, order, order2, k);
        let before = order.subrange(0, k);
        let v = order[k];
        assert(order.contains(v));
        assert(cost[v] is Some);
        assert(order2.contains(v));
        assert(!before.contains(v)) by {
            if before.contains(v) {
                assert(order[before.index_of(v)] == v);
            }
        }
        let at = order2.index_of(v);
        assert(order2[at] == v);
        assert(at >= k) by {
            if at < k {
                assert(order2.subrange(0, k)[at] == v);
            }
        }
        let w = order2[k];
        assert(order2.contains(w));
        assert(!before.contains(w)) by {
            if before.contains(w) {
                let j = before.index_of(w);
                assert(order2.subrange(0, k)[j] == w);
                assert(order2[j] == w);
            }
        }
        assert(within_reach(g, source, cost, order, k, w)) by {
            if w != source {
                assert(tight(g, cost, by2[w] as int, w));
                in_turn(g, source, by2, order2, k);
            }
        }
        assert(within_reach(g, source, cost, order2, k, v)) by {
            if v != source {
                assert(tight(g, cost, by[v] as int, v));
                in_turn(g, source, by, order, k);
            }
        }
        next_is_nearest(g, source, cost, order, k, w);
        next_is_nearest(g, source, cost, order2, k, v);
        assert(v == w);
        assert(order.subrange(0, i) =~= before.push(v));
        assert(order2.subrange(0, i) =~= order2.subrange(0, k).push(w));
    }
}

/// There is one answer to what each node costs to reach, and one to how it is reached:
/// ways of the same cost resolve the same way every time.
pub proof fn ways_are_settled(
    g: Roads,
    source: int,
    cost: Seq<Option<u128>>,
    by: Seq<u32>,
    cost2: Seq<Option<u128>>,
    by2: Seq<u32>,
)
    requires
        g.wf(),
        0 <= source < g.at@.len(),
        cheapest(g, source, cost, by),
        cheapest(g, source, cost2, by2),
    ensures
        cost == cost2,
        by == by2,
{
    let n = g.at@.len();
    assert forall|v: int| 0 <= v < cost.len() implies #[trigger] cost[v] == cost2[v] by {
        if cost[v] is Some {
            if v != source {
                assert(tight(g, cost, by[v] as int, v));
            }
            the_way_is_a_walk(g, source, cost, by, v, n);
            no_walk_is_cheaper(g, source, cost2, by2, way_in(by, g.ends@, source, v, n));
        }
        if cost2[v] is Some {
            if v != source {
                assert(tight(g, cost2, by2[v] as int, v));
            }
            the_way_is_a_walk(g, source, cost2, by2, v, n);
            no_walk_is_cheaper(g, source, cost, by, way_in(by2, g.ends@, source, v, n));
        }
    }
    assert(cost =~= cost2);
    let order = choose|order: Seq<int>| #[trigger] settled(g, source, cost, by, order);
    let order2 = choose|order: Seq<int>| #[trigger] settled(g, source, cost, by2, order);
    same_order(g, source, cost, by, by2, order, order2, order.len() as int);
    same_order(g, source, cost, by2, by, order2, order, order2.len() as int);
    assert(order.subrange(0, order.len() as int) =~= order);
    assert(order2.subrange(0, order2.len() as int) =~= order2);
    assert(order == order2);
    assert forall|v: int| 0 <= v < by.len() implies #[trigger] by[v] == by2[v] by {
        if v != source {
            if cost[v] is Some {
                let (e, f) = (by[v] as int, by2[v] as int);
                assert(tight(g, cost, e, v));
                assert(tight(g, cost, f, v));
                assert(first_choice(g, order, e, f, v));
                assert(first_choice(g, order, f, e, v));
                let u = other_end(g.ends@, e, v);
                let w = other_end(g.ends@, f, v);
                not_both_ahead(order, u, w);
                assert(u == w);
                g.at@[u]@.index_of_first_ensures(e as u32);
                g.at@[u]@.index_of_first_ensures(f as u32);
            } else {
                assert(by[v] == u32::MAX && by2[v] == u32::MAX);
            }
        }
    }
    assert(by =~= by2);
}

/// A road leads from a node that lists it to the end that is not that node, and a walk
/// arrives where its last road leads from where the walk before it arrived.
pub proof fn walks_go_road_by_road(g: Roads, from: int, walk: Seq<u32>, e: u32)
    ensures
        g.arrives(from, Seq::<u32>::empty()) == Some(from),
        g.fare(Seq::<u32>::empty()) == 0,
        g.fare(walk.push(e)) == g.fare(walk) + g.toll@[e as int],
        g.arrives(from, walk.push(e)) == match g.arrives(from, walk) {
            Some(u) => if 0 <= u < g.at@.len() && e < g.ends@.len() && g.at@[u]@.contains(e) {
                Some(
                    if g.ends@[e as int].0 == u {
                        g.ends@[e as int].1 as int
                    } else {
                        g.ends@[e as int].0 as int
                    },
                )
            } else {
                None
            },
            None => None,
        },
{
    assert(walk.push(e).drop_last() =~= walk);
}

/// What is reached next costs no more than anything else that a road leads to, as cheaply
/// as any, from a node that has been reached; and of those that cost the same it has
/// the lowest number.
pub proof fn the_nearest_is_reached_next(
    g: Roads,
    source: int,
    cost: Seq<Option<u128>>,
    by: Seq<u32>,
    order: Seq<int>,
    i: int,
    e: int,
    u: int,
    v: int,
)
    requires
        settled(g, source, cost, by, order),
        0 <= i < order.len(),
        0 <= e < g.ends@.len(),
        g.leads(u, e, v),
        u == other_end(g.ends@, e, v),
        cost[u] is Some,
        cost[v] is Some,
        cost[v]->0 == cost[u]->0 + g.toll@[e],
        order.subrange(0, i).contains(u),
        !order.subrange(0, i).contains(v),
    ensures
        cost[order[i]]->0 <= cost[v]->0,
        cost[order[i]]->0 == cost[v]->0 ==> order[i] <= v,
{
    assert(tight(g, cost, e, v));
    assert(within_reach(g, source, cost, order, i, v));
    next_is_nearest(g, source, cost, order, i, v);
}

/// Of two roads that lead to a node as cheaply, the one taken comes from the node that was
/// reached first; where both come from one node, it is the first in that node's list.
pub proof fn the_first_of_equal_roads_is_taken(
    g: Roads,
    source: int,
    cost: Seq<Option<u128>>,
    by: Seq<u32>,
    order: Seq<int>,
    e: int,
    u: int,
    v: int,
)
    requires
        cheapest(g, source, cost, by),
        settled(g, source, cost, by, order),
        0 <= v < cost.len(),
        v != source,
        0 <= e < g.ends@.len(),
        g.leads(u, e, v),
        u == other_end(g.ends@, e, v),
        cost[u] is Some,
        cost[v] is Some,
        cost[v]->0 == cost[u]->0 + g.toll@[e],
    ensures
        ({
            let w = other_end(g.ends@, by[v] as int, v);
            if w == u {
                g.at@[u]@.index_of_first(by[v])->0 <= g.at@[u]@.index_of_first(e as u32)->0
            } else {
                exists|i: int, j: int|
                    0 <= i < j < order.len() && #[trigger] order[i] == w && #[trigger] order[j] == u
            }
        }),
{
    assert(tight(g, cost, e, v));
    assert(first_choice(g, order, by[v] as int, e, v));
    reveal(ahead);
    let w = other_end(g.ends@, by[v] as int, v);
    if w == u && ahead(order, w, u) {
        assert(order.no_duplicates());
        let (i, j) = choose|i: int, j: int|
            0 <= i < j < order.len() && #[trigger] order[i] == w && #[trigger] order[j] == u;
        assert(order[i] == order[j]);
    }
}

} // verus!
