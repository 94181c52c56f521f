//! Streets: which districts import from which, what that says of them, and the way
//! that each street takes along the roads.
use vstd::prelude::*;

use crate::logical::LogicalPath;
use crate::ordered::{ascending_len, in_order, in_order_is, TextMap, TextSet};
use crate::text::{
    same_text, text_lt, text_lt_irreflexive, text_lt_total, text_lt_transitive,
};
use crate::ways::{
    cheapest, cheapest_ways, leads_back, no_walk_is_cheaper, other_end, the_way_is_a_walk, way_in,
    ways_are_settled, Roads, Ways,
};

verus! {

/// One district imports from another.
#[derive(Debug)]
pub struct Street {
    /// The district that imports.
    pub from: LogicalPath,
    /// The district that is imported from.
    pub to: LogicalPath,
    /// How many imports there are.
    pub edge_count: u32,
}

/// Does a pair of districts stand before another?
pub open spec fn pair_lt(a: (Seq<char>, Seq<char>), b: (Seq<char>, Seq<char>)) -> bool {
    text_lt(a.0, b.0) || (a.0 == b.0 && text_lt(a.1, b.1))
}

impl Street {
    /// The districts.
    pub open spec fn pair(self) -> (Seq<char>, Seq<char>) {
        (self.from@, self.to@)
    }
}

proof fn pair_lt_transitive(
    a: (Seq<char>, Seq<char>),
    b: (Seq<char>, Seq<char>),
    c: (Seq<char>, Seq<char>),
)
    requires
        pair_lt(a, b),
        pair_lt(b, c),
    ensures
        pair_lt(a, c),
{
    if text_lt(a.0, b.0) && text_lt(b.0, c.0) {
        text_lt_transitive(a.0, b.0, c.0);
    }
    if text_lt(a.1, b.1) && text_lt(b.1, c.1) {
        text_lt_transitive(a.1, b.1, c.1);
    }
}

proof fn pair_lt_total(a: (Seq<char>, Seq<char>), b: (Seq<char>, Seq<char>))
    ensures
        pair_lt(a, b) || a == b || pair_lt(b, a),
        !(pair_lt(a, b) && pair_lt(b, a)),
        !pair_lt(a, a),
{
    text_lt_total(a.0, b.0);
    text_lt_total(a.1, b.1);
    text_lt_irreflexive(a.0);
    text_lt_irreflexive(a.1);
    if text_lt(a.0, b.0) && text_lt(b.0, a.0) {
        text_lt_transitive(a.0, b.0, a.0);
    }
    if text_lt(a.1, b.1) && text_lt(b.1, a.1) {
        text_lt_transitive(a.1, b.1, a.1);
    }
}

/// The fewest imports that any of the first `n` relations between two districts has.
pub open spec fn fewest(v: Seq<Street>, p: (Seq<char>, Seq<char>), n: nat) -> Option<u32>
    decreases n,
{
    if n == 0 || n > v.len() {
        None
    } else {
        let before = fewest(v, p, (n - 1) as nat);
        if v[n - 1].pair() == p {
            match before {
                Some(e) => Some(
                    if v[n - 1].edge_count < e {
                        v[n - 1].edge_count
                    } else {
                        e
                    },
                ),
                None => Some(v[n - 1].edge_count),
            }
        } else {
            before
        }
    }
}

/// Is there to be a street between the two: are both on the map?
pub open spec fn drawable(known: Set<Seq<char>>, p: (Seq<char>, Seq<char>)) -> bool {
    known.contains(p.0) && known.contains(p.1)
}

fn pair_less(a: &Street, b: &Street) -> (r: bool)
    ensures
        r == pair_lt(a.pair(), b.pair()),
{
    a.from.less(&b.from) || (a.from.same(&b.from) && a.to.less(&b.to))
}

/// The streets to draw: one for each pair of districts on the map, in order of
/// their paths, whatever order the relations came in. Of several relations between
/// two districts the one with the fewest imports counts.
pub fn street_order(relations: &Vec<Street>, known: &TextSet) -> (r: Vec<Street>)
    requires
        known.wf(),
    ensures
        forall|i: int, j: int|
            0 <= i < j < r@.len() ==> pair_lt((#[trigger] r@[i]).pair(), (#[trigger] r@[j]).pair()),
        forall|i: int|
            0 <= i < r@.len() ==> drawable(known@, (#[trigger] r@[i]).pair()) && fewest(
                relations@,
                r@[i].pair(),
                relations@.len(),
            ) == Some(r@[i].edge_count),
        forall|p: (Seq<char>, Seq<char>)|
            drawable(known@, p) && (#[trigger] fewest(relations@, p, relations@.len())) is Some
                ==> exists|i: int| 0 <= i < r@.len() && (#[trigger] r@[i]).pair() == p,
{
    let mut out: Vec<Street> = Vec::new();
    let mut i: usize = 0;
    while i < relations.len()
        invariant
            i <= relations@.len(),
            known.wf(),
            forall|a: int, b: int|
                0 <= a < b < out@.len() ==> pair_lt(
                    (#[trigger] out@[a]).pair(),
                    (#[trigger] out@[b]).pair(),
                ),
            forall|k: int|
                0 <= k < out@.len() ==> drawable(known@, (#[trigger] out@[k]).pair()) && fewest(
                    relations@,
                    out@[k].pair(),
                    i as nat,
                ) == Some(out@[k].edge_count),
            forall|p: (Seq<char>, Seq<char>)|
                drawable(known@, p) && (#[trigger] fewest(relations@, p, i as nat)) is Some
                    ==> exists|k: int| 0 <= k < out@.len() && (#[trigger] out@[k]).pair() == p,
        decreases relations.len() - i,
    {
        let ghost had = out@;
        let s: &Street = &relations[i];
        let ghost q = relations@[i as int].pair();
        if known.contains(s.from.as_str()) && known.contains(s.to.as_str()) {
            let mut k: usize = 0;
            while k < out.len() && pair_less(&out[k], s)
                invariant
                    k <= out@.len(),
                    out@ == had,
                    q == s.pair(),
                    forall|a: int| 0 <= a < k ==> pair_lt((#[trigger] out@[a]).pair(), q),
                decreases out.len() - k,
            {
                k = k + 1;
            }
            if k < out.len() && out[k].from.same(&s.from) && out[k].to.same(&s.to) {
                if s.edge_count < out[k].edge_count {
                    let fewer: Street = Street {
                        from: s.from.copied(),
                        to: s.to.copied(),
                        edge_count: s.edge_count,
                    };
                    out[k] = fewer;
                }
                proof {
                    assert(had[k as int].pair() == q);
                    assert forall|a: int| 0 <= a < out@.len() implies (#[trigger] out@[a]).pair()
                        == had[a].pair() by {}
                    assert forall|a: int| 0 <= a < out@.len() implies drawable(
                        known@,
                        (#[trigger] out@[a]).pair(),
                    ) && fewest(relations@, out@[a].pair(), (i + 1) as nat) == Some(
                        out@[a].edge_count,
                    ) by {
                        assert(fewest(relations@, had[a].pair(), i as nat) == Some(
                            had[a].edge_count,
                        ));
                        if a != k {
                            pair_lt_total(had[a].pair(), q);
                            if a < k {
                                assert(pair_lt(had[a].pair(), had[k as int].pair()));
                            } else {
                                assert(pair_lt(had[k as int].pair(), had[a].pair()));
                            }
                        }
                    }
                    assert forall|p: (Seq<char>, Seq<char>)|
                        drawable(known@, p) && (#[trigger] fewest(
                            relations@,
                            p,
                            (i + 1) as nat,
                        )) is Some implies exists|a: int|
                        0 <= a < out@.len() && (#[trigger] out@[a]).pair() == p by {
                        if p == q {
                            assert(out@[k as int].pair() == q);
                        } else {
                            assert(fewest(relations@, p, i as nat) is Some);
                            let a = choose|a: int|
                                0 <= a < had.len() && (#[trigger] had[a]).pair() == p;
                            assert(out@[a].pair() == p);
                        }
                    }
                }
            } else {
                let one: Street = Street {
                    from: s.from.copied(),
                    to: s.to.copied(),
                    edge_count: s.edge_count,
                };
                out.insert(k, one);
                proof {
                    assert(out@ =~= had.insert(k as int, one));
                    assert(one.pair() == q);
                    assert forall|a: int| k <= a < had.len() implies pair_lt(
                        q,
                        (#[trigger] had[a]).pair(),
                    ) by {
                        pair_lt_total(had[k as int].pair(), q);
                        if a > k {
                            pair_lt_transitive(q, had[k as int].pair(), had[a].pair());
                        }
                    }
                    assert forall|a: int, b: int| 0 <= a < b < out@.len() implies pair_lt(
                        (#[trigger] out@[a]).pair(),
                        (#[trigger] out@[b]).pair(),
                    ) by {
                        let x = if a < k {
                            a
                        } else {
                            a - 1
                        };
                        let y = if b < k {
                            b
                        } else {
                            b - 1
                        };
                        if a != k {
                            assert(out@[a] == had[x]);
                        }
                        if b != k {
                            assert(out@[b] == had[y]);
                        }
                    }
                    assert(fewest(relations@, q, i as nat) is None) by {
                        if fewest(relations@, q, i as nat) is Some {
                            let a = choose|a: int|
                                0 <= a < had.len() && (#[trigger] had[a]).pair() == q;
                            pair_lt_total(q, q);
                            if a < k {
                                assert(pair_lt(had[a].pair(), q));
                            } else {
                                assert(pair_lt(q, had[a].pair()));
                            }
                        }
                    }
                    assert forall|a: int| 0 <= a < out@.len() implies drawable(
                        known@,
                        (#[trigger] out@[a]).pair(),
                    ) && fewest(relations@, out@[a].pair(), (i + 1) as nat) == Some(
                        out@[a].edge_count,
                    ) by {
                        if a != k {
                            let x = if a < k {
                                a
                            } else {
                                a - 1
                            };
                            assert(out@[a] == had[x]);
                            assert(fewest(relations@, had[x].pair(), i as nat) == Some(
                                had[x].edge_count,
                            ));
                            pair_lt_total(q, q);
                            if x < k {
                                assert(pair_lt(had[x].pair(), q));
                            } else {
                                assert(pair_lt(q, had[x].pair()));
                            }
                        }
                    }
                    assert forall|p: (Seq<char>, Seq<char>)|
                        drawable(known@, p) && (#[trigger] fewest(
                            relations@,
                            p,
                            (i + 1) as nat,
                        )) is Some implies exists|a: int|
                        0 <= a < out@.len() && (#[trigger] out@[a]).pair() == p by {
                        if p == q {
                            assert(out@[k as int].pair() == q);
                        } else {
                            assert(fewest(relations@, p, i as nat) is Some);
                            let x = choose|x: int|
                                0 <= x < had.len() && (#[trigger] had[x]).pair() == p;
                            let a = if x < k {
                                x
                            } else {
                                x + 1
                            };
                            assert(out@[a].pair() == p);
                        }
                    }
                }
            }
        } else {
            proof {
                assert(!drawable(known@, q));
                assert forall|a: int| 0 <= a < out@.len() implies drawable(
                    known@,
                    (#[trigger] out@[a]).pair(),
                ) && fewest(relations@, out@[a].pair(), (i + 1) as nat) == Some(
                    out@[a].edge_count,
                ) by {
                    assert(out@[a].pair() != q);
                }
                assert forall|p: (Seq<char>, Seq<char>)|
                    drawable(known@, p) && (#[trigger] fewest(
                        relations@,
                        p,
                        (i + 1) as nat,
                    )) is Some implies exists|a: int|
                    0 <= a < out@.len() && (#[trigger] out@[a]).pair() == p by {
                    assert(fewest(relations@, p, i as nat) is Some);
                }
            }
        }
        i = i + 1;
    }
    out
}

/// What the streets say of the districts.
#[derive(Debug, Clone, Copy, PartialEq, Eq, Structural)]
pub struct StreetDiagnostics {
    /// Districts with a street to at least a quarter of the others.
    pub hubs: usize,
    /// Districts without a street.
    pub isolated: usize,
    /// The imports on the widest street.
    pub widest: u32,
}

/// Is a district at an end of a street?
pub open spec fn ends_at(line: Street, d: Seq<char>) -> bool {
    line.from@ == d || line.to@ == d
}

/// The districts at the ends of the first `n` streets.
pub open spec fn streeted(v: Seq<Street>, n: nat) -> Set<Seq<char>>
    decreases n,
{
    if n == 0 || n > v.len() {
        Set::empty()
    } else {
        streeted(v, (n - 1) as nat).insert(v[n - 1].from@).insert(v[n - 1].to@)
    }
}

/// The other districts that a district has one of the first `n` streets to.
pub open spec fn others_of(v: Seq<Street>, d: Seq<char>, n: nat) -> Set<Seq<char>>
    decreases n,
{
    if n == 0 || n > v.len() {
        Set::empty()
    } else {
        let before = others_of(v, d, (n - 1) as nat);
        if !ends_at(v[n - 1], d) {
            before
        } else {
            before.insert(v[n - 1].from@).insert(v[n - 1].to@).remove(d)
        }
    }
}

/// The imports on the widest of the first `n` streets.
pub open spec fn widest_of(v: Seq<Street>, n: nat) -> u32
    decreases n,
{
    if n == 0 || n > v.len() {
        0
    } else {
        let before = widest_of(v, (n - 1) as nat);
        if v[n - 1].edge_count > before {
            v[n - 1].edge_count
        } else {
            before
        }
    }
}

/// Is a district a hub among so many: has it a street to at least a quarter of the
/// others?
pub open spec fn is_hub(v: Seq<Street>, d: Seq<char>, districts: int) -> bool {
    4 * others_of(v, d, v.len()).len() >= districts - 1
}

/// How many of some districts are hubs.
pub open spec fn hubs_among(v: Seq<Street>, keys: Seq<Seq<char>>, districts: int) -> nat
    decreases keys.len(),
{
    if keys.len() == 0 {
        0
    } else {
        hubs_among(v, keys.drop_last(), districts) + if is_hub(v, keys.last(), districts) {
            1nat
        } else {
            0nat
        }
    }
}

fn streeted_districts(streets: &Vec<Street>) -> (r: TextSet)
    ensures
        r.wf(),
        r@ == streeted(streets@, streets@.len()),
{
    let mut out: TextSet = TextSet::new();
    let mut i: usize = 0;
    while i < streets.len()
        invariant
            i <= streets@.len(),
            out.wf(),
            out@ == streeted(streets@, i as nat),
        decreases streets.len() - i,
    {
        out.insert(streets[i].from.text.clone());
        out.insert(streets[i].to.text.clone());
        i = i + 1;
    }
    out
}

fn count_others(streets: &Vec<Street>, d: &str) -> (r: usize)
    ensures
        r == others_of(streets@, d@, streets@.len()).len(),
{
    let mut out: TextSet = TextSet::new();
    let mut i: usize = 0;
    while i < streets.len()
        invariant
            i <= streets@.len(),
            out.wf(),
            out@ == others_of(streets@, d@, i as nat),
        decreases streets.len() - i,
    {
        let at_from: bool = same_text(streets[i].from.as_str(), d);
        let at_to: bool = same_text(streets[i].to.as_str(), d);
        if at_from || at_to {
            out.insert(streets[i].from.text.clone());
            out.insert(streets[i].to.text.clone());
            out.remove(d);
        }
        i = i + 1;
    }
    let n: usize = out.len();
    proof {
        ascending_len(out.order());
    }
    n
}

/// What the streets say of so many districts.
pub fn street_diagnostics(districts: usize, streets: &Vec<Street>) -> (r: StreetDiagnostics)
    requires
        streeted(streets@, streets@.len()).len() <= districts,
    ensures
        districts == 0 ==> r == (StreetDiagnostics { hubs: 0, isolated: 0, widest: 0 }),
        districts > 0 ==> r.widest == widest_of(streets@, streets@.len()) && r.isolated == districts
            - streeted(streets@, streets@.len()).len() && r.hubs == hubs_among(
            streets@,
            in_order(streeted(streets@, streets@.len())),
            districts as int,
        ),
{
    if districts == 0 {
        return StreetDiagnostics { hubs: 0, isolated: 0, widest: 0 };
    }
    let known: TextSet = streeted_districts(streets);
    let mut widest: u32 = 0;
    let mut i: usize = 0;
    while i < streets.len()
        invariant
            i <= streets@.len(),
            widest == widest_of(streets@, i as nat),
        decreases streets.len() - i,
    {
        if streets[i].edge_count > widest {
            widest = streets[i].edge_count;
        }
        i = i + 1;
    }
    let n: usize = known.len();
    let ghost keys = known.order();
    proof {
        ascending_len(keys);
        in_order_is(keys, streeted(streets@, streets@.len()));
    }
    let mut hubs: usize = 0;
    let mut i: usize = 0;
    assert(keys.subrange(0, 0) =~= seq![]);
    while i < n
        invariant
            i <= n == keys.len(),
            0 < districts,
            keys == known.order(),
            known.wf(),
            hubs == hubs_among(streets@, keys.subrange(0, i as int), districts as int),
            hubs <= i,
        decreases n - i,
    {
        assert(keys.subrange(0, i + 1).drop_last() =~= keys.subrange(0, i as int));
        let others: usize = count_others(streets, known.at(i).as_str());
        if others as u128 * 4 >= (districts - 1) as u128 {
            hubs = hubs + 1;
        }
        i = i + 1;
    }
    assert(keys.subrange(0, i as int) =~= keys);
    StreetDiagnostics { hubs, isolated: districts - n, widest }
}

/// The nodes on the way back from a node to a source, the node first: along the edge
/// by which each was reached, as far as there is one and for so many steps at most.
pub open spec fn way_back(
    prev: Seq<u32>,
    ends: Seq<(u32, u32)>,
    source: int,
    at: int,
    steps: nat,
) -> Seq<u32>
    decreases steps,
{
    if at == source || steps == 0 || at < 0 || at >= prev.len() || prev[at] == u32::MAX || prev[at]
        >= ends.len() {
        seq![source as u32]
    } else {
        seq![at as u32] + way_back(
            prev,
            ends,
            source,
            other_end(ends, prev[at] as int, at),
            (steps - 1) as nat,
        )
    }
}

/// The nodes of a street from its source to its target, given the edge by which each
/// node was reached.
pub fn trace(prev: &Vec<u32>, ends: &Vec<(u32, u32)>, source: u32, target: u32) -> (r: Vec<u32>)
    requires
        prev@.len() < u32::MAX,
        target < prev@.len(),
        forall|e: int|
            0 <= e < ends@.len() ==> (#[trigger] ends@[e]).0 < prev@.len() && ends@[e].1
                < prev@.len(),
    ensures
        r@ == way_back(
            prev@,
            ends@,
            source as int,
            target as int,
            prev@.len(),
        ).reverse(),
{
    let ghost n = prev@.len();
    let ghost whole = way_back(prev@, ends@, source as int, target as int, n);
    let mut back: Vec<u32> = Vec::new();
    let mut at: u32 = target;
    let mut left: usize = prev.len();
    assert(back@ + whole =~= whole);
    while at != source && left > 0 && prev[at as usize] != 0xffff_ffff && (prev[at as usize] as usize)
        < ends.len()
        invariant
            at < prev@.len(),
            left <= n == prev@.len(),
            n < u32::MAX,
            forall|e: int|
                0 <= e < ends@.len() ==> (#[trigger] ends@[e]).0 < prev@.len() && ends@[e].1
                    < prev@.len(),
            back@ + way_back(prev@, ends@, source as int, at as int, left as nat) == whole,
        decreases left,
    {
        let e: usize = prev[at as usize] as usize;
        let ghost had = back@;
        assert(ends@[e as int].0 < prev@.len());
        let next: u32 = if ends[e].0 == at {
            ends[e].1
        } else {
            ends[e].0
        };
        back.push(at);
        proof {
            let rest = way_back(prev@, ends@, source as int, next as int, (left - 1) as nat);
            assert(had.push(at) + rest =~= had + (seq![at] + rest));
        }
        at = next;
        left = left - 1;
    }
    let ghost had = back@;
    back.push(source);
    assert(back@ =~= whole) by {
        assert(had + seq![source] =~= back@);
    }
    let r: Vec<u32> = crate::sort::reversed(back);
    assert(r@ =~= whole.reverse());
    r
}

/// A street as it is drawn: two districts, how many imports there are, and the road
/// nodes that it passes.
#[derive(Debug)]
pub struct StreetLine {
    /// The district that imports.
    pub from: LogicalPath,
    /// The district that is imported from.
    pub to: LogicalPath,
    /// How many imports there are.
    pub edge_count: u32,
    /// The road nodes from the one to the other.
    pub nodes: Vec<u32>,
}

impl StreetLine {
    /// The districts.
    pub open spec fn pair(self) -> (Seq<char>, Seq<char>) {
        (self.from@, self.to@)
    }
}

/// Are these the nodes of the cheapest way between two?
pub open spec fn is_routed(g: Roads, from: int, to: int, nodes: Seq<u32>) -> bool {
    exists|cost: Seq<Option<u128>>, by: Seq<u32>| #[trigger]
        cheapest(g, from, cost, by) && cost[to] is Some && nodes == way_back(
            by,
            g.ends@,
            from,
            to,
            g.at@.len(),
        ).reverse()
}

/// Is there a walk from a node to another?
pub open spec fn connected(g: Roads, from: int, to: int) -> bool {
    exists|walk: Seq<u32>| #[trigger] g.arrives(from, walk) == Some(to)
}

/// Is there to be a street between two districts: are both on the map, is there an
/// import relation, do they stand at different nodes, and does a way lead from the
/// one to the other?
pub open spec fn has_street(
    g: Roads,
    relations: Seq<Street>,
    seats: Map<Seq<char>, u32>,
    p: (Seq<char>, Seq<char>),
) -> bool {
    &&& drawable(seats.dom(), p)
    &&& fewest(relations, p, relations.len()) is Some
    &&& seats[p.0] != seats[p.1]
    &&& connected(g, seats[p.0] as int, seats[p.1] as int)
}

/// The districts that stand somewhere.
fn seated(seats: &TextMap<u32>) -> (r: TextSet)
    requires
        seats.wf(),
    ensures
        r.wf(),
        r@ == seats@.dom(),
{
    let mut out: TextSet = TextSet::new();
    let n: usize = seats.len();
    let mut i: usize = 0;
    assert(seats.keys().subrange(0, 0).to_set() =~= Set::<Seq<char>>::empty());
    while i < n
        invariant
            seats.wf(),
            n == seats.keys().len(),
            i <= n,
            out.wf(),
            out@ == seats.keys().subrange(0, i as int).to_set(),
        decreases n - i,
    {
        out.insert(seats.key_at(i).clone());
        proof {
            let keys = seats.keys();
            assert(keys.subrange(0, i + 1) =~= keys.subrange(0, i as int).push(keys[i as int]));
            keys.subrange(0, i as int).lemma_push_to_set_commute(keys[i as int]);
        }
        i = i + 1;
    }
    assert(seats.keys().subrange(0, n as int) =~= seats.keys());
    out
}

/// Is it the street between its two districts: routed along the roads, and as wide as
/// their import relation says?
pub open spec fn is_street(
    line: StreetLine,
    roads: Roads,
    relations: Seq<Street>,
    seats: Map<Seq<char>, u32>,
) -> bool {
    let p = line.pair();
    &&& has_street(roads, relations, seats, p)
    &&& fewest(relations, p, relations.len()) == Some(line.edge_count)
    &&& is_routed(roads, seats[p.0] as int, seats[p.1] as int, line.nodes@)
}

/// Are these the streets: in order of their districts, each along the roads, and one for
/// each pair of districts that is to have one?
pub open spec fn are_streets(
    lines: Seq<StreetLine>,
    roads: Roads,
    relations: Seq<Street>,
    seats: Map<Seq<char>, u32>,
) -> bool {
    &&& forall|i: int, j: int|
        0 <= i < j < lines.len() ==> pair_lt(
            (#[trigger] lines[i]).pair(),
            (#[trigger] lines[j]).pair(),
        )
    &&& forall|i: int|
        0 <= i < lines.len() ==> is_street(#[trigger] lines[i], roads, relations, seats)
    &&& forall|p: (Seq<char>, Seq<char>)| #[trigger]
        has_street(roads, relations, seats, p) ==> exists|i: int|
            0 <= i < lines.len() && (#[trigger] lines[i]).pair() == p
}

/// The streets, in order of their districts: one along the roads for each pair of
/// districts with an import relation, where a way leads from the one to the other.
pub fn build_streets(relations: &Vec<Street>, seats: &TextMap<u32>, roads: &Roads) -> (r: Vec<
    StreetLine,
>)
    requires
        seats.wf(),
        roads.wf(),
        forall|k: Seq<char>| #[trigger]
            seats@.contains_key(k) ==> seats@[k] < roads.at@.len(),
    ensures
        are_streets(r@, *roads, relations@, seats@),
        forall|i: int|
            0 <= i < r@.len() ==> {
                let line = #[trigger] r@[i];
                &&& seats@.contains_key(line.from@)
                &&& seats@.contains_key(line.to@)
                &&& seats@[line.from@] != seats@[line.to@]
                &&& fewest(relations@, (line.from@, line.to@), relations@.len()) == Some(
                    line.edge_count,
                )
            },
        forall|k: int|
            0 <= k < relations@.len() && seats@.contains_key((#[trigger] relations@[k]).from@)
                && seats@.contains_key(relations@[k].to@) && seats@[relations@[k].from@]
                != seats@[relations@[k].to@] && (exists|walk: Seq<u32>| #[trigger]
                roads.arrives(seats@[relations@[k].from@] as int, walk) == Some(
                    seats@[relations@[k].to@] as int,
                )) ==> exists|i: int|
                0 <= i < r@.len() && (#[trigger] r@[i]).from@ == relations@[k].from@ && r@[i].to@
                    == relations@[k].to@,
        forall|i: int, j: int|
            0 <= i < j < r@.len() ==> text_lt((#[trigger] r@[i]).from@, (#[trigger] r@[j]).from@)
                || (r@[i].from@ == r@[j].from@ && text_lt(r@[i].to@, r@[j].to@)),
{
    let known: TextSet = seated(seats);
    let order: Vec<Street> = street_order(relations, &known);
    let mut out: Vec<StreetLine> = Vec::new();
    let mut from: Option<u32> = None;
    let mut ways: Ways = Ways { cost: Vec::new(), by: Vec::new() };
    let mut i: usize = 0;
    while i < order.len()
        invariant
            seats.wf(),
            roads.wf(),
            forall|k: Seq<char>| #[trigger]
                seats@.contains_key(k) ==> seats@[k] < roads.at@.len(),
            i <= order@.len(),
            forall|a: int, b: int|
                0 <= a < b < order@.len() ==> pair_lt(
                    (#[trigger] order@[a]).pair(),
                    (#[trigger] order@[b]).pair(),
                ),
            forall|a: int|
                0 <= a < order@.len() ==> drawable(seats@.dom(), (#[trigger] order@[a]).pair())
                    && fewest(relations@, order@[a].pair(), relations@.len()) == Some(
                    order@[a].edge_count,
                ),
            from matches Some(u) ==> u < roads.at@.len() && cheapest(
                *roads,
                u as int,
                ways.cost@,
                ways.by@,
            ),
            forall|a: int, b: int|
                0 <= a < b < out@.len() ==> pair_lt(
                    (#[trigger] out@[a]).pair(),
                    (#[trigger] out@[b]).pair(),
                ),
            forall|a: int|
                0 <= a < out@.len() ==> {
                    let p = (#[trigger] out@[a]).pair();
                    &&& has_street(*roads, relations@, seats@, p)
                    &&& fewest(relations@, p, relations@.len()) == Some(out@[a].edge_count)
                    &&& is_routed(*roads, seats@[p.0] as int, seats@[p.1] as int, out@[a].nodes@)
                },
            forall|a: int, b: int|
                0 <= a < out@.len() && i <= b < order@.len() ==> pair_lt(
                    (#[trigger] out@[a]).pair(),
                    (#[trigger] order@[b]).pair(),
                ),
            forall|a: int|
                0 <= a < i && #[trigger] has_street(
                    *roads,
                    relations@,
                    seats@,
                    order@[a].pair(),
                ) ==> exists|b: int|
                    0 <= b < out@.len() && (#[trigger] out@[b]).pair() == order@[a].pair(),
        decreases order.len() - i,
    {
        let s: &Street = &order[i];
        let ghost p = order@[i as int].pair();
        let ghost had = out@;
        assert(drawable(seats@.dom(), order@[i as int].pair()));
        if let (Some(a), Some(b)) = (seats.get(s.from.as_str()), seats.get(s.to.as_str())) {
            let (source, target): (u32, u32) = (*a, *b);
            let fresh: bool = match from {
                Some(u) => u != source,
                None => true,
            };
            if fresh {
                ways = cheapest_ways(roads, source);
                from = Some(source);
            }
            let reached: bool = ways.cost[target as usize].is_some();
            proof {
                if reached {
                    if target != source {
                        assert(crate::ways::tight(
                            *roads,
                            ways.cost@,
                            ways.by@[target as int] as int,
                            target as int,
                        ));
                    }
                    the_way_is_a_walk(
                        *roads,
                        source as int,
                        ways.cost@,
                        ways.by@,
                        target as int,
                        roads.at@.len(),
                    );
                    let walk = way_in(
                        ways.by@,
                        roads.ends@,
                        source as int,
                        target as int,
                        roads.at@.len(),
                    );
                    assert(roads.arrives(source as int, walk) == Some(target as int));
                } else {
                    assert(!connected(*roads, source as int, target as int)) by {
                        if connected(*roads, source as int, target as int) {
                            let walk = choose|walk: Seq<u32>| #[trigger]
                                roads.arrives(source as int, walk) == Some(target as int);
                            no_walk_is_cheaper(
                                *roads,
                                source as int,
                                ways.cost@,
                                ways.by@,
                                walk,
                            );
                        }
                    }
                }
            }
            if reached && target != source {
                let nodes: Vec<u32> = trace(&ways.by, &roads.ends, source, target);
                let line: StreetLine = StreetLine {
                    from: s.from.copied(),
                    to: s.to.copied(),
                    edge_count: s.edge_count,
                    nodes,
                };
                out.push(line);
                assert(out@[out@.len() - 1].pair() == p);
            }
        }
        proof {
            assert forall|a: int|
                0 <= a < i + 1 && #[trigger] has_street(
                    *roads,
                    relations@,
                    seats@,
                    order@[a].pair(),
                ) implies exists|b: int|
                0 <= b < out@.len() && (#[trigger] out@[b]).pair() == order@[a].pair() by {
                if a < i {
                    let b = choose|b: int|
                        0 <= b < had.len() && (#[trigger] had[b]).pair() == order@[a].pair();
                    assert(out@[b].pair() == order@[a].pair());
                }
            }
            assert forall|a: int, b: int|
                0 <= a < out@.len() && i + 1 <= b < order@.len() implies pair_lt(
                (#[trigger] out@[a]).pair(),
                (#[trigger] order@[b]).pair(),
            ) by {
                if a < had.len() {
                    assert(out@[a] == had[a]);
                } else {
                    assert(pair_lt(order@[i as int].pair(), order@[b].pair()));
                }
            }
        }
        i = i + 1;
    }
    proof {
        assert forall|p: (Seq<char>, Seq<char>)| #[trigger]
            has_street(*roads, relations@, seats@, p) implies exists|k: int|
            0 <= k < out@.len() && (#[trigger] out@[k]).pair() == p by {
            assert(fewest(relations@, p, relations@.len()) is Some);
            let a = choose|a: int| 0 <= a < order@.len() && (#[trigger] order@[a]).pair() == p;
            assert(has_street(*roads, relations@, seats@, order@[a].pair()));
        }
        assert forall|k: int|
            0 <= k < relations@.len() && seats@.contains_key((#[trigger] relations@[k]).from@)
                && seats@.contains_key(relations@[k].to@) && seats@[relations@[k].from@]
                != seats@[relations@[k].to@] && (exists|walk: Seq<u32>| #[trigger]
                roads.arrives(seats@[relations@[k].from@] as int, walk) == Some(
                    seats@[relations@[k].to@] as int,
                )) implies exists|i: int|
            0 <= i < out@.len() && (#[trigger] out@[i]).from@ == relations@[k].from@ && out@[i].to@
                == relations@[k].to@ by {
            let p = relations@[k].pair();
            the_least_relation_counts(relations@, p.0, p.1);
            assert(has_street(*roads, relations@, seats@, p));
            let i = choose|i: int| 0 <= i < out@.len() && (#[trigger] out@[i]).pair() == p;
            assert(out@[i].from@ == p.0);
        }
    }
    out
}

/// Does a road lead from a node to another?
pub open spec fn joined(g: Roads, a: int, b: int) -> bool {
    exists|e: int| #[trigger] g.leads(a, e, b)
}

proof fn way_back_follows(
    g: Roads,
    from: int,
    cost: Seq<Option<u128>>,
    by: Seq<u32>,
    at: int,
    steps: nat,
)
    requires
        g.wf(),
        0 <= from < g.at@.len(),
        cheapest(g, from, cost, by),
        0 <= at < g.at@.len(),
        cost[at] is Some,
        leads_back(by, g.ends@, from, at, steps),
    ensures
        ({
            let back = way_back(by, g.ends@, from, at, steps);
            &&& back.len() > 0
            &&& back[0] == at
            &&& back.last() == from
            &&& at != from ==> back.len() > 1
            &&& forall|i: int|
                0 <= i < back.len() - 1 ==> joined(
                    g,
                    back[i + 1] as int,
                    #[trigger] back[i] as int,
                )
        }),
    decreases steps,
{
    if at != from {
        assert(crate::ways::tight(g, cost, by[at] as int, at));
        let u = other_end(g.ends@, by[at] as int, at);
        way_back_follows(g, from, cost, by, u, (steps - 1) as nat);
        let rest = way_back(by, g.ends@, from, u, (steps - 1) as nat);
        let back = way_back(by, g.ends@, from, at, steps);
        assert(back =~= seq![at as u32] + rest);
        assert(g.leads(u, by[at] as int, at));
        assert forall|i: int| 0 <= i < back.len() - 1 implies joined(
            g,
            back[i + 1] as int,
            #[trigger] back[i] as int,
        ) by {
            if i == 0 {
                assert(back[1] == rest[0]);
                assert(g.leads(back[1] as int, by[at] as int, back[0] as int));
            } else {
                assert(back[i] == rest[i - 1]);
                assert(back[i + 1] == rest[i - 1 + 1]);
            }
        }
    }
}

/// No street is a chord across open ground: it begins at the node of the one
/// district and ends at that of the other, and a road leads from each of its nodes
/// to the next.
pub proof fn streets_follow_the_roads(g: Roads, from: int, to: int, nodes: Seq<u32>)
    requires
        g.wf(),
        0 <= from < g.at@.len(),
        0 <= to < g.at@.len(),
        from != to,
        is_routed(g, from, to, nodes),
    ensures
        nodes.len() >= 2,
        nodes[0] == from,
        nodes.last() == to,
        forall|i: int|
            0 <= i < nodes.len() - 1 ==> joined(g, #[trigger] nodes[i] as int, nodes[i + 1] as int),
{
    let (cost, by) = choose|cost: Seq<Option<u128>>, by: Seq<u32>| #[trigger]
        cheapest(g, from, cost, by) && cost[to] is Some && nodes == way_back(
            by,
            g.ends@,
            from,
            to,
            g.at@.len(),
        ).reverse();
    assert(crate::ways::tight(g, cost, by[to] as int, to));
    way_back_follows(g, from, cost, by, to, g.at@.len());
    let back = way_back(by, g.ends@, from, to, g.at@.len());
    assert forall|i: int| 0 <= i < nodes.len() - 1 implies joined(
        g,
        #[trigger] nodes[i] as int,
        nodes[i + 1] as int,
    ) by {
        let j = back.len() - 2 - i;
        assert(nodes[i] == back[j + 1]);
        assert(nodes[i + 1] == back[j]);
        assert(joined(g, back[j + 1] as int, back[j] as int));
    }
}

/// What an import relation says: the districts, and how many imports there are.
pub open spec fn told(r: Street) -> (Seq<char>, Seq<char>, u32) {
    (r.from@, r.to@, r.edge_count)
}

/// What import relations say, in their order.
pub open spec fn all_told(relations: Seq<Street>) -> Seq<(Seq<char>, Seq<char>, u32)> {
    relations.map_values(|r: Street| told(r))
}

/// The fewest imports between two districts are those of one of the relations between
/// them, and no other has fewer.
proof fn fewest_is_least(v: Seq<Street>, p: (Seq<char>, Seq<char>), n: nat)
    requires
        n <= v.len(),
    ensures
        fewest(v, p, n) matches Some(c) ==> exists|i: int|
            0 <= i < n && #[trigger] told(v[i]) == (p.0, p.1, c),
        forall|i: int|
            0 <= i < n && (#[trigger] v[i]).pair() == p ==> fewest(v, p, n) is Some && fewest(
                v,
                p,
                n,
            )->0 <= v[i].edge_count,
    decreases n,
{
    if n > 0 {
        let m = (n - 1) as nat;
        fewest_is_least(v, p, m);
        if let Some(c) = fewest(v, p, n) {
            if v[n - 1].pair() == p && v[n - 1].edge_count == c {
                assert(told(v[n - 1]) == (p.0, p.1, c));
            } else {
                let i = choose|i: int| 0 <= i < m && #[trigger] told(v[i]) == (p.0, p.1, c);
                assert(told(v[i]) == (p.0, p.1, c));
            }
        }
    }
}

proof fn fewest_no_more(a: Seq<Street>, b: Seq<Street>, p: (Seq<char>, Seq<char>))
    requires
        all_told(a).to_set().subset_of(all_told(b).to_set()),
    ensures
        fewest(a, p, a.len()) matches Some(c) ==> fewest(b, p, b.len()) is Some && fewest(
            b,
            p,
            b.len(),
        )->0 <= c,
{
    fewest_is_least(a, p, a.len());
    fewest_is_least(b, p, b.len());
    if let Some(c) = fewest(a, p, a.len()) {
        let i = choose|i: int| 0 <= i < a.len() && #[trigger] told(a[i]) == (p.0, p.1, c);
        assert(all_told(a)[i] == told(a[i]));
        assert(all_told(a).to_set().contains(told(a[i])));
        assert(all_told(b).contains(told(a[i])));
        let j = all_told(b).index_of(told(a[i]));
        assert(all_told(b)[j] == told(b[j]));
        assert(b[j].pair() == p);
    }
}

spec fn has_pair(lines: Seq<StreetLine>, p: (Seq<char>, Seq<char>)) -> bool {
    exists|i: int| 0 <= i < lines.len() && (#[trigger] lines[i]).pair() == p
}

/// Lines of streets in order of their districts, each pair of the one among the other,
/// have the same pairs in the same places up to one.
proof fn same_pairs(a: Seq<StreetLine>, b: Seq<StreetLine>, n: int)
    requires
        0 <= n <= a.len(),
        forall|i: int, j: int|
            0 <= i < j < a.len() ==> pair_lt((#[trigger] a[i]).pair(), (#[trigger] a[j]).pair()),
        forall|i: int, j: int|
            0 <= i < j < b.len() ==> pair_lt((#[trigger] b[i]).pair(), (#[trigger] b[j]).pair()),
        forall|i: int| 0 <= i < a.len() ==> #[trigger] has_pair(b, a[i].pair()),
        forall|j: int| 0 <= j < b.len() ==> #[trigger] has_pair(a, b[j].pair()),
    ensures
        n <= b.len(),
        forall|i: int| 0 <= i < n ==> (#[trigger] a[i]).pair() == b[i].pair(),
    decreases n,
{
    if n > 0 {
        let k = n - 1;
        same_pairs(a, b, k);
        assert(has_pair(b, a[k].pair()));
        let j = choose|j: int| 0 <= j < b.len() && (#[trigger] b[j]).pair() == a[k].pair();
        assert(j >= k) by {
            if j < k {
                assert(a[j].pair() == b[j].pair());
                assert(pair_lt(a[j].pair(), a[k].pair()));
                pair_lt_total(a[j].pair(), a[k].pair());
            }
        }
        if j > k {
            assert(has_pair(a, b[k].pair()));
            let i = choose|i: int| 0 <= i < a.len() && (#[trigger] a[i]).pair() == b[k].pair();
            assert(pair_lt(b[k].pair(), b[j].pair()));
            pair_lt_total(b[k].pair(), b[j].pair());
            if i < k {
                assert(a[i].pair() == b[i].pair());
                assert(pair_lt(b[i].pair(), b[k].pair()));
                pair_lt_total(b[i].pair(), b[k].pair());
            } else if i > k {
                assert(pair_lt(a[k].pair(), a[i].pair()));
            }
        }
    }
}

/// There is one way to route a street: streets that cost the same resolve the same way
/// every time.
pub proof fn routes_are_settled(g: Roads, from: int, to: int, nodes: Seq<u32>, nodes2: Seq<u32>)
    requires
        g.wf(),
        0 <= from < g.at@.len(),
        is_routed(g, from, to, nodes),
        is_routed(g, from, to, nodes2),
    ensures
        nodes == nodes2,
{
    let (cost, by) = choose|cost: Seq<Option<u128>>, by: Seq<u32>| #[trigger]
        cheapest(g, from, cost, by) && cost[to] is Some && nodes == way_back(
            by,
            g.ends@,
            from,
            to,
            g.at@.len(),
        ).reverse();
    let (cost2, by2) = choose|cost: Seq<Option<u128>>, by: Seq<u32>| #[trigger]
        cheapest(g, from, cost, by) && cost[to] is Some && nodes2 == way_back(
            by,
            g.ends@,
            from,
            to,
            g.at@.len(),
        ).reverse();
    ways_are_settled(g, from, cost, by, cost2, by2);
}

/// Are they the same streets: in the same order, each between the same districts, as wide,
/// and along the same nodes?
pub open spec fn same_lines(a: Seq<StreetLine>, b: Seq<StreetLine>) -> bool {
    &&& a.len() == b.len()
    &&& forall|i: int|
        0 <= i < a.len() ==> {
            &&& (#[trigger] a[i]).pair() == b[i].pair()
            &&& a[i].edge_count == b[i].edge_count
            &&& a[i].nodes@ == b[i].nodes@
        }
}

/// The order in which the import relations come does not reach the map, nor does one that
/// comes twice: the streets are the same, in the same order, each as wide, and along the
/// same nodes.
pub proof fn streets_have_one_answer(
    roads: Roads,
    seats: Map<Seq<char>, u32>,
    relations: Seq<Street>,
    shuffled: Seq<Street>,
    lines: Seq<StreetLine>,
    others: Seq<StreetLine>,
)
    requires
        roads.wf(),
        forall|k: Seq<char>| #[trigger] seats.contains_key(k) ==> seats[k] < roads.at@.len(),
        all_told(relations).to_set() == all_told(shuffled).to_set(),
        are_streets(lines, roads, relations, seats),
        are_streets(others, roads, shuffled, seats),
    ensures
        same_lines(lines, others),
{
    assert forall|p: (Seq<char>, Seq<char>)| #[trigger]
        fewest(relations, p, relations.len()) == fewest(shuffled, p, shuffled.len()) by {
        fewest_no_more(relations, shuffled, p);
        fewest_no_more(shuffled, relations, p);
    }
    assert forall|i: int| 0 <= i < lines.len() implies #[trigger] has_pair(
        others,
        lines[i].pair(),
    ) by {
        let p = lines[i].pair();
        assert(is_street(lines[i], roads, relations, seats));
        assert(fewest(relations, p, relations.len()) is Some);
        assert(has_street(roads, shuffled, seats, p));
    }
    assert forall|j: int| 0 <= j < others.len() implies #[trigger] has_pair(
        lines,
        others[j].pair(),
    ) by {
        let p = others[j].pair();
        assert(is_street(others[j], roads, shuffled, seats));
        assert(fewest(relations, p, relations.len()) == fewest(shuffled, p, shuffled.len()));
        assert(has_street(roads, relations, seats, p));
    }
    same_pairs(lines, others, lines.len() as int);
    same_pairs(others, lines, others.len() as int);
    assert forall|i: int| 0 <= i < lines.len() implies {
        &&& (#[trigger] lines[i]).pair() == others[i].pair()
        &&& lines[i].edge_count == others[i].edge_count
        &&& lines[i].nodes@ == others[i].nodes@
    } by {
        let p = lines[i].pair();
        assert(is_street(lines[i], roads, relations, seats));
        assert(is_street(others[i], roads, shuffled, seats));
        assert(fewest(relations, p, relations.len()) == fewest(shuffled, p, shuffled.len()));
        assert(seats.contains_key(p.0));
        routes_are_settled(
            roads,
            seats[p.0] as int,
            seats[p.1] as int,
            lines[i].nodes@,
            others[i].nodes@,
        );
    }
}

/// Every street joins two different districts of the map, from the node of the one to
/// that of the other, along at least one road and never off the roads.
pub proof fn every_street_is_a_way(
    roads: Roads,
    seats: Map<Seq<char>, u32>,
    relations: Seq<Street>,
    lines: Seq<StreetLine>,
    i: int,
)
    requires
        roads.wf(),
        forall|k: Seq<char>| #[trigger] seats.contains_key(k) ==> seats[k] < roads.at@.len(),
        are_streets(lines, roads, relations, seats),
        0 <= i < lines.len(),
    ensures
        seats.contains_key(lines[i].from@),
        seats.contains_key(lines[i].to@),
        lines[i].from@ != lines[i].to@,
        lines[i].nodes@.len() >= 2,
        lines[i].nodes@[0] == seats[lines[i].from@],
        lines[i].nodes@.last() == seats[lines[i].to@],
        forall|k: int|
            0 <= k < lines[i].nodes@.len() - 1 ==> joined(
                roads,
                #[trigger] lines[i].nodes@[k] as int,
                lines[i].nodes@[k + 1] as int,
            ),
{
    let p = lines[i].pair();
    assert(is_street(lines[i], roads, relations, seats));
    assert(seats.contains_key(p.0) && seats.contains_key(p.1));
    streets_follow_the_roads(roads, seats[p.0] as int, seats[p.1] as int, lines[i].nodes@);
}

proof fn fewest_upto(v: Seq<Street>, p: (Seq<char>, Seq<char>), n: nat)
    requires
        n <= v.len(),
    ensures
        match fewest(v, p, n) {
            Some(e) => (exists|i: int|
                0 <= i < n && (#[trigger] v[i]).from@ == p.0 && v[i].to@ == p.1 && v[i].edge_count
                    == e) && (forall|i: int|
                0 <= i < n && (#[trigger] v[i]).from@ == p.0 && v[i].to@ == p.1
                    ==> v[i].edge_count >= e),
            None => forall|i: int|
                0 <= i < n ==> !((#[trigger] v[i]).from@ == p.0 && v[i].to@ == p.1),
        },
    decreases n,
{
    if n > 0 {
        fewest_upto(v, p, (n - 1) as nat);
        let last = v[n - 1];
        if last.pair() == p {
            assert(last.from@ == p.0 && last.to@ == p.1);
        }
        match fewest(v, p, (n - 1) as nat) {
            Some(e) => {
                let i = choose|i: int|
                    0 <= i < n - 1 && (#[trigger] v[i]).from@ == p.0 && v[i].to@ == p.1
                        && v[i].edge_count == e;
                assert(v[i].edge_count == e);
            },
            None => {},
        }
    }
}

/// Of several import relations from one district to another the one with the fewest
/// imports counts, and there is a count exactly where there is a relation.
pub proof fn the_least_relation_counts(v: Seq<Street>, from: Seq<char>, to: Seq<char>)
    ensures
        match fewest(v, (from, to), v.len()) {
            Some(e) => (exists|i: int|
                0 <= i < v.len() && (#[trigger] v[i]).from@ == from && v[i].to@ == to
                    && v[i].edge_count == e) && (forall|i: int|
                0 <= i < v.len() && (#[trigger] v[i]).from@ == from && v[i].to@ == to
                    ==> v[i].edge_count >= e),
            None => forall|i: int|
                0 <= i < v.len() ==> !((#[trigger] v[i]).from@ == from && v[i].to@ == to),
        },
{
    fewest_upto(v, (from, to), v.len());
}

proof fn streeted_upto(v: Seq<Street>, n: nat)
    requires
        n <= v.len(),
    ensures
        forall|d: Seq<char>| #[trigger]
            streeted(v, n).contains(d) <==> exists|i: int|
                0 <= i < n && ((#[trigger] v[i]).from@ == d || v[i].to@ == d),
    decreases n,
{
    if n > 0 {
        streeted_upto(v, (n - 1) as nat);
        assert forall|d: Seq<char>| #[trigger] streeted(v, n).contains(d) <==> exists|i: int|
            0 <= i < n && ((#[trigger] v[i]).from@ == d || v[i].to@ == d) by {
            if streeted(v, (n - 1) as nat).contains(d) {
                let i = choose|i: int|
                    0 <= i < n - 1 && ((#[trigger] v[i]).from@ == d || v[i].to@ == d);
                assert(v[i].from@ == d || v[i].to@ == d);
            }
            assert(streeted(v, n).contains(v[n - 1].from@));
        }
    }
}

proof fn others_upto(v: Seq<Street>, d: Seq<char>, n: nat)
    requires
        n <= v.len(),
    ensures
        forall|x: Seq<char>| #[trigger]
            others_of(v, d, n).contains(x) <==> x != d && exists|i: int|
                0 <= i < n && (((#[trigger] v[i]).from@ == d && v[i].to@ == x) || (v[i].to@ == d
                    && v[i].from@ == x)),
    decreases n,
{
    if n > 0 {
        others_upto(v, d, (n - 1) as nat);
        assert forall|x: Seq<char>| #[trigger] others_of(v, d, n).contains(x) <==> x != d
            && exists|i: int|
            0 <= i < n && (((#[trigger] v[i]).from@ == d && v[i].to@ == x) || (v[i].to@ == d
                && v[i].from@ == x)) by {
            if others_of(v, d, (n - 1) as nat).contains(x) {
                let i = choose|i: int|
                    0 <= i < n - 1 && (((#[trigger] v[i]).from@ == d && v[i].to@ == x) || (
                    v[i].to@ == d && v[i].from@ == x));
                assert((v[i].from@ == d && v[i].to@ == x) || (v[i].to@ == d && v[i].from@ == x));
            }
            let last = v[n - 1];
            assert(ends_at(last, d) <==> last.from@ == d || last.to@ == d);
        }
    }
}

/// A district is at the end of a street exactly where a street says so, and its
/// neighbours are the other ends of its streets, never itself.
pub proof fn neighbours_are_the_other_ends(v: Seq<Street>, d: Seq<char>, x: Seq<char>)
    ensures
        streeted(v, v.len()).contains(d) <==> exists|i: int|
            0 <= i < v.len() && ((#[trigger] v[i]).from@ == d || v[i].to@ == d),
        others_of(v, d, v.len()).contains(x) <==> x != d && exists|i: int|
            0 <= i < v.len() && (((#[trigger] v[i]).from@ == d && v[i].to@ == x) || (v[i].to@ == d
                && v[i].from@ == x)),
        others_of(v, d, v.len()).contains(x) <==> others_of(v, x, v.len()).contains(d),
{
    streeted_upto(v, v.len());
    others_upto(v, d, v.len());
    others_upto(v, x, v.len());
}

proof fn widest_upto(v: Seq<Street>, n: nat)
    requires
        n <= v.len(),
    ensures
        forall|i: int| 0 <= i < n ==> (#[trigger] v[i]).edge_count <= widest_of(v, n),
        (n == 0 && widest_of(v, n) == 0) || exists|i: int|
            0 <= i < n && (#[trigger] v[i]).edge_count == widest_of(v, n),
    decreases n,
{
    if n > 0 {
        widest_upto(v, (n - 1) as nat);
        let before = widest_of(v, (n - 1) as nat);
        if v[n - 1].edge_count > before {
            assert(v[n - 1].edge_count == widest_of(v, n));
        } else if n > 1 {
            let i = choose|i: int| 0 <= i < n - 1 && (#[trigger] v[i]).edge_count == before;
            assert(v[i].edge_count == widest_of(v, n));
        } else {
            assert(v[0].edge_count == widest_of(v, n));
        }
    }
}

/// No street is wider than the widest, and where there is a street one is as wide.
pub proof fn the_widest_street_is_one_of_them(v: Seq<Street>)
    ensures
        forall|i: int| 0 <= i < v.len() ==> (#[trigger] v[i]).edge_count <= widest_of(v, v.len()),
        v.len() == 0 ==> widest_of(v, v.len()) == 0,
        v.len() > 0 ==> exists|i: int|
            0 <= i < v.len() && (#[trigger] v[i]).edge_count == widest_of(v, v.len()),
{
    widest_upto(v, v.len());
}

/// The hubs are the districts with a street to at least a quarter of all others.
pub proof fn hubs_reach_a_quarter(v: Seq<Street>, keys: Seq<Seq<char>>, districts: int)
    ensures
        hubs_among(v, keys, districts) == keys.filter(
            |d: Seq<char>| others_of(v, d, v.len()).len() * 4 + 1 >= districts,
        ).len(),
    decreases keys.len(),
{
    reveal(Seq::filter);
    if keys.len() > 0 {
        hubs_reach_a_quarter(v, keys.drop_last(), districts);
    }
}

/// The way back from a node is followed road by road: it begins at the node, each
/// next node is the other end of the road by which the one before was reached, and the
/// last is the source.
pub proof fn ways_back_go_road_by_road(
    prev: Seq<u32>,
    ends: Seq<(u32, u32)>,
    source: int,
    at: int,
    steps: nat,
)
    requires
        prev.len() <= u32::MAX,
        0 <= source < prev.len(),
        0 <= at < prev.len(),
        ends.len() < u32::MAX,
        forall|e: int|
            0 <= e < ends.len() ==> (#[trigger] ends[e]).0 < prev.len() && ends[e].1 < prev.len(),
    ensures
        ({
            let w = way_back(prev, ends, source, at, steps);
            &&& 1 <= w.len() <= steps + 1
            &&& w.last() == source
            &&& at == source ==> w.len() == 1
            &&& at != source && steps > 0 && prev[at] < ends.len() ==> w.len() >= 2 && w[0] == at
            &&& forall|k: int|
                0 <= k < w.len() - 1 ==> {
                    let v = #[trigger] w[k];
                    &&& v != source
                    &&& prev[v as int] < ends.len()
                    &&& k + 2 < w.len() ==> {
                        let e = ends[prev[v as int] as int];
                        w[k + 1] == if e.0 == v {
                            e.1
                        } else {
                            e.0
                        }
                    }
                }
        }),
    decreases steps,
{
    let w = way_back(prev, ends, source, at, steps);
    if !(at == source || steps == 0 || prev[at] >= ends.len()) {
        let e = ends[prev[at] as int];
        let next = other_end(ends, prev[at] as int, at);
        ways_back_go_road_by_road(prev, ends, source, next, (steps - 1) as nat);
        let rest = way_back(prev, ends, source, next, (steps - 1) as nat);
        assert(w == seq![at as u32] + rest);
        assert(rest.len() >= 2 ==> rest[0] == next) by {
            if rest.len() >= 2 {
                assert(rest[0] == rest[0]);
            }
        }
        assert forall|k: int| 0 <= k < w.len() - 1 implies {
            let v = #[trigger] w[k];
            &&& v != source
            &&& prev[v as int] < ends.len()
            &&& k + 2 < w.len() ==> {
                let e = ends[prev[v as int] as int];
                w[k + 1] == if e.0 == v {
                    e.1
                } else {
                    e.0
                }
            }
        } by {
            if k > 0 {
                assert(w[k] == rest[k - 1]);
                assert(w[k + 1] == rest[k]);
            } else if w.len() > 2 {
                assert(w[1] == rest[0]);
            }
        }
    }
}

/// Streets go in order of the districts that they leave, then of those that they reach.
/// Each joins two districts of the map at different nodes, as wide as their least import
/// relation. Every relation between two such districts that a walk joins has its street.
pub proof fn streets_join_related_districts(
    lines: Seq<StreetLine>,
    roads: Roads,
    relations: Seq<Street>,
    seats: Map<Seq<char>, u32>,
)
    requires
        are_streets(lines, roads, relations, seats),
    ensures
        forall|i: int, j: int|
            0 <= i < j < lines.len() ==> text_lt(
                (#[trigger] lines[i]).from@,
                (#[trigger] lines[j]).from@,
            ) || (lines[i].from@ == lines[j].from@ && text_lt(lines[i].to@, lines[j].to@)),
        forall|i: int|
            0 <= i < lines.len() ==> {
                let line = #[trigger] lines[i];
                &&& seats.contains_key(line.from@)
                &&& seats.contains_key(line.to@)
                &&& seats[line.from@] != seats[line.to@]
                &&& fewest(relations, (line.from@, line.to@), relations.len()) == Some(
                    line.edge_count,
                )
            },
        forall|k: int|
            0 <= k < relations.len() && seats.contains_key((#[trigger] relations[k]).from@)
                && seats.contains_key(relations[k].to@) && seats[relations[k].from@]
                != seats[relations[k].to@] && (exists|walk: Seq<u32>| #[trigger]
                roads.arrives(seats[relations[k].from@] as int, walk) == Some(
                    seats[relations[k].to@] as int,
                )) ==> exists|i: int|
                0 <= i < lines.len() && (#[trigger] lines[i]).from@ == relations[k].from@
                    && lines[i].to@ == relations[k].to@,
{
    assert forall|i: int, j: int| 0 <= i < j < lines.len() implies text_lt(
        (#[trigger] lines[i]).from@,
        (#[trigger] lines[j]).from@,
    ) || (lines[i].from@ == lines[j].from@ && text_lt(lines[i].to@, lines[j].to@)) by {
        assert(pair_lt(lines[i].pair(), lines[j].pair()));
    }
    assert forall|i: int| 0 <= i < lines.len() implies {
        let line = #[trigger] lines[i];
        &&& seats.contains_key(line.from@)
        &&& seats.contains_key(line.to@)
        &&& seats[line.from@] != seats[line.to@]
        &&& fewest(relations, (line.from@, line.to@), relations.len()) == Some(line.edge_count)
    } by {
        assert(is_street(lines[i], roads, relations, seats));
    }
    assert forall|k: int|
        0 <= k < relations.len() && seats.contains_key((#[trigger] relations[k]).from@)
            && seats.contains_key(relations[k].to@) && seats[relations[k].from@]
            != seats[relations[k].to@] && (exists|walk: Seq<u32>| #[trigger]
            roads.arrives(seats[relations[k].from@] as int, walk) == Some(
                seats[relations[k].to@] as int,
            )) implies exists|i: int|
        0 <= i < lines.len() && (#[trigger] lines[i]).from@ == relations[k].from@ && lines[i].to@
            == relations[k].to@ by {
        let p = relations[k].pair();
        the_least_relation_counts(relations, p.0, p.1);
        assert(has_street(roads, relations, seats, p));
        let i = choose|i: int| 0 <= i < lines.len() && (#[trigger] lines[i]).pair() == p;
        assert(lines[i].from@ == p.0);
    }
}

} // verus!
