//! Districts on the ground: which boundaries hold them together, and how many
//! pieces they come out in.
use vstd::prelude::*;

use crate::edges::{faces_at, touching_bounds, whole_all, EdgeTable};
use crate::folds::{filter_none, filter_step, take_all};
use crate::forest::{
    alone_sound, joined, joined_sound, linked, linked_back, linked_more, linked_on, linked_self,
    linked_step, linked_through, sets_are_connections, sound, DisjointSets,
};
use crate::sort::{in_rank, ranked, Ranked};
use crate::territory::{
    above, above_facts, common_depth, depth_of, depths_of, meeting, meeting_is_deepest, parents_first,
    shared_depth, Territory,
};

verus! {

/// The two cells that a boundary separates: the first two that list it.
pub open spec fn ends_of(lists: Seq<Seq<int>>, e: int) -> Option<(int, int)> {
    let f = faces_at(lists, e);
    if f.len() >= 2 {
        Some((f[0], f[1]))
    } else {
        None
    }
}

/// The cells, their districts, the directory tree and the lengths of the
/// boundaries, as mathematics.
pub ghost struct Ground {
    pub lists: Seq<Seq<int>>,
    pub district: Seq<u32>,
    pub up: Seq<Option<u32>>,
    pub length: Seq<i64>,
}

impl Ground {
    /// Does the boundary separate two cells that have a district?
    pub open spec fn is_link(self, e: int) -> bool {
        0 <= e < self.length.len() && match ends_of(self.lists, e) {
            Some(p) => p.0 < self.district.len() && p.1 < self.district.len(),
            None => false,
        }
    }

    /// How deep the directory is that both sides of a boundary share.
    pub open spec fn depth(self, e: int) -> u32 {
        let p = ends_of(self.lists, e)->0;
        shared_depth(self.up, self.district[p.0] as int, self.district[p.1] as int)
    }

    /// Is a boundary considered before another: the deeper shared directory
    /// first, then the longer, then the one listed first?
    pub open spec fn before(self, f: int, e: int) -> bool {
        ||| self.depth(f) > self.depth(e)
        ||| self.depth(f) == self.depth(e) && self.length[f] > self.length[e]
        ||| self.depth(f) == self.depth(e) && self.length[f] == self.length[e] && f < e
    }

    /// Is there a boundary between the two cells, considered before another?
    pub open spec fn earlier(self, e: int) -> spec_fn(int, int) -> bool {
        |x: int, y: int|
            exists|f: int|
                #[trigger] self.is_link(f) && self.before(f, e) && ends_of(self.lists, f) == Some(
                    (x, y),
                )
    }

    /// Is the boundary one that must stay: do no boundaries considered before it
    /// connect its two sides?
    pub open spec fn keeps(self, e: int) -> bool {
        &&& self.is_link(e)
        &&& match ends_of(self.lists, e) {
            Some(p) => !linked(self.earlier(e), p.0, p.1),
            None => false,
        }
    }

    /// Is there a boundary between the two cells?
    pub open spec fn touch(self) -> spec_fn(int, int) -> bool {
        |x: int, y: int|
            exists|f: int| #[trigger] self.is_link(f) && ends_of(self.lists, f) == Some((x, y))
    }

    /// Is there a boundary between the two cells that must stay?
    pub open spec fn held(self) -> spec_fn(int, int) -> bool {
        |x: int, y: int|
            exists|f: int| #[trigger] self.keeps(f) && ends_of(self.lists, f) == Some((x, y))
    }

    /// Does the cell belong to the subtree of a directory?
    pub open spec fn inside(self, s: int, x: int) -> bool {
        0 <= x < self.district.len() && above(self.up, s, self.district[x] as int)
    }

    /// Is there a boundary between two cells of one subtree?
    pub open spec fn touch_inside(self, s: int) -> spec_fn(int, int) -> bool {
        |x: int, y: int| self.touch()(x, y) && self.inside(s, x) && self.inside(s, y)
    }

    /// Is there a boundary between two cells of one subtree that must stay?
    pub open spec fn held_inside(self, s: int) -> spec_fn(int, int) -> bool {
        |x: int, y: int| self.held()(x, y) && self.inside(s, x) && self.inside(s, y)
    }

    /// The parts fit together.
    pub open spec fn wf(self) -> bool {
        &&& parents_first(self.up)
        &&& self.up.len() <= u32::MAX
        &&& forall|i: int|
            0 <= i < self.district.len() ==> (#[trigger] self.district[i]) < self.up.len()
    }

    /// The district of a cell, if it has one.
    pub open spec fn district_at(self, c: int) -> Option<u32> {
        if 0 <= c < self.district.len() {
            Some(self.district[c])
        } else {
            None
        }
    }

    /// Is there a boundary between two cells of one district?
    pub open spec fn own(self) -> spec_fn(int, int) -> bool {
        |x: int, y: int|
            exists|f: int|
                0 <= f < self.length.len() && #[trigger] ends_of(self.lists, f) == Some((x, y))
                    && self.district_at(x) == self.district_at(y)
    }

    /// Is the cell on the ground, in a district?
    pub open spec fn settled(self, c: int) -> bool {
        0 <= c < self.lists.len() && c < self.district.len() && self.lists[c].len() > 0
    }

    /// Is the cell the first of a district that its own boundaries leave in more
    /// than one piece?
    pub open spec fn heads_split(self, c: int) -> bool {
        &&& self.settled(c)
        &&& forall|k: int|
            0 <= k < c ==> !(#[trigger] self.settled(k) && self.district[k] == self.district[c])
        &&& exists|k: int|
            #[trigger] self.settled(k) && self.district[k] == self.district[c] && !linked(
                self.own(),
                c,
                k,
            )
    }

    /// How many districts with a first cell among the first `n` are split.
    pub open spec fn split_count(self, n: nat) -> nat
        decreases n,
    {
        if n == 0 {
            0
        } else {
            self.split_count((n - 1) as nat) + if self.heads_split(n - 1) {
                1nat
            } else {
                0nat
            }
        }
    }
}

/// A boundary to consider.
struct Link {
    depth: u32,
    length: i64,
    edge: usize,
    a: u32,
    b: u32,
}

impl Ranked for Link {
    closed spec fn ahead(self, other: Self) -> bool {
        ||| self.depth > other.depth
        ||| self.depth == other.depth && self.length > other.length
        ||| self.depth == other.depth && self.length == other.length && self.edge < other.edge
    }

    proof fn ahead_one_way(a: Self, b: Self) {
    }

    proof fn behind_carries(a: Self, b: Self, c: Self) {
    }

    fn is_ahead(&self, other: &Self) -> (r: bool) {
        self.depth > other.depth || (self.depth == other.depth && (self.length > other.length || (
        self.length == other.length && self.edge < other.edge)))
    }
}

spec fn is_link_of(g: Ground, l: Link) -> bool {
    &&& g.is_link(l.edge as int)
    &&& ends_of(g.lists, l.edge as int) == Some((l.a as int, l.b as int))
    &&& l.depth == g.depth(l.edge as int)
    &&& l.length == g.length[l.edge as int]
}

spec fn first_links(c: Seq<Link>, n: int) -> spec_fn(int, int) -> bool {
    |x: int, y: int| exists|i: int| 0 <= i < n && (#[trigger] c[i]).a == x && c[i].b == y
}

fn candidate_links(
    table: &EdgeTable,
    cell_district: &Vec<u32>,
    territory: &Territory,
    lengths: &Vec<i64>,
    Ghost(g): Ghost<Ground>,
) -> (r: Vec<Link>)
    requires
        territory.wf(),
        g.wf(),
        g.up == territory.up(),
        g.district == cell_district@,
        g.length == lengths@,
        g.lists.len() <= u32::MAX,
        forall|e: int| 0 <= e <= usize::MAX ==> #[trigger] table.faces(e) == faces_at(g.lists, e),
    ensures
        forall|i: int| 0 <= i < r@.len() ==> is_link_of(g, #[trigger] r@[i]),
        forall|i: int, j: int|
            0 <= i < j < r@.len() ==> (#[trigger] r@[i]).edge != (#[trigger] r@[j]).edge,
        forall|e: int| #[trigger]
            g.is_link(e) ==> exists|i: int| 0 <= i < r@.len() && (#[trigger] r@[i]).edge == e,
{
    let depth: Vec<u32> = territory.depths();
    let mut out: Vec<Link> = Vec::new();
    let mut e: usize = 0;
    while e < lengths.len()
        invariant
            e <= lengths.len(),
            territory.wf(),
            g.wf(),
            depth@ == depths_of(territory.up()),
            g.up == territory.up(),
            g.district == cell_district@,
            g.length == lengths@,
            g.lists.len() <= u32::MAX,
            forall|k: int|
                0 <= k <= usize::MAX ==> #[trigger] table.faces(k) == faces_at(g.lists, k),
            forall|i: int|
                0 <= i < out@.len() ==> is_link_of(g, #[trigger] out@[i]) && out@[i].edge < e,
            forall|i: int, j: int|
                0 <= i < j < out@.len() ==> (#[trigger] out@[i]).edge != (#[trigger] out@[j]).edge,
            forall|k: int|
                k < e && #[trigger] g.is_link(k) ==> exists|i: int|
                    0 <= i < out@.len() && (#[trigger] out@[i]).edge == k,
        decreases lengths.len() - e,
    {
        let ghost had = out@;
        assert(table.faces(e as int) == faces_at(g.lists, e as int));
        proof {
            touching_bounds(g.lists, e as int, g.lists.len());
        }
        let mut fresh: bool = false;
        if let Some((a, b, _)) = table.pair(e) {
            if (a as usize) < cell_district.len() && (b as usize) < cell_district.len() {
                let da: u32 = cell_district[a as usize];
                let db: u32 = cell_district[b as usize];
                assert(g.district[a as int] < g.up.len() && g.district[b as int] < g.up.len());
                let d: u32 = common_depth(territory, &depth, da, db);
                out.push(Link { depth: d, length: lengths[e], edge: e, a, b });
                fresh = true;
            }
        }
        proof {
            assert forall|k: int| k < e + 1 && #[trigger] g.is_link(k) implies exists|i: int|
                0 <= i < out@.len() && (#[trigger] out@[i]).edge == k by {
                if k < e {
                    let i = choose|i: int| 0 <= i < had.len() && (#[trigger] had[i]).edge == k;
                    assert(out@[i].edge == k);
                } else {
                    assert(fresh);
                    assert(out@[out@.len() - 1].edge == e);
                }
            }
        }
        e = e + 1;
    }
    out
}

proof fn sorted_links(g: Ground, raw: Seq<Link>, c: Seq<Link>)
    requires
        forall|i: int| 0 <= i < raw.len() ==> is_link_of(g, #[trigger] raw[i]),
        forall|i: int, j: int|
            0 <= i < j < raw.len() ==> (#[trigger] raw[i]).edge != (#[trigger] raw[j]).edge,
        forall|e: int| #[trigger]
            g.is_link(e) ==> exists|i: int| 0 <= i < raw.len() && (#[trigger] raw[i]).edge == e,
        in_rank(c),
        c.to_multiset() == raw.to_multiset(),
        c.len() == raw.len(),
    ensures
        forall|i: int| 0 <= i < c.len() ==> is_link_of(g, #[trigger] c[i]),
        forall|i: int, j: int|
            0 <= i < j < c.len() ==> (#[trigger] c[i]).edge != (#[trigger] c[j]).edge && g.before(
                c[i].edge as int,
                c[j].edge as int,
            ),
        forall|e: int| #[trigger]
            g.is_link(e) ==> exists|i: int| 0 <= i < c.len() && (#[trigger] c[i]).edge == e,
{
    broadcast use vstd::seq_lib::group_to_multiset_ensures;

    raw.to_multiset_ensures();
    c.to_multiset_ensures();
    assert forall|i: int| 0 <= i < c.len() implies is_link_of(g, #[trigger] c[i]) by {
        assert(c.contains(c[i]));
        assert(c.to_multiset().count(c[i]) > 0);
        assert(raw.contains(c[i]));
        let k = raw.index_of(c[i]);
        assert(is_link_of(g, raw[k]));
    }
    assert(raw.no_duplicates()) by {
        assert forall|i: int, j: int| 0 <= i < raw.len() && 0 <= j < raw.len() && i
            != j implies raw[i] != raw[j] by {
            if i < j {
                assert(raw[i].edge != raw[j].edge);
            } else {
                assert(raw[j].edge != raw[i].edge);
            }
        }
    }
    raw.lemma_multiset_has_no_duplicates();
    c.lemma_multiset_has_no_duplicates_conv();
    assert forall|i: int, j: int| 0 <= i < j < c.len() implies (#[trigger] c[i]).edge != (
    #[trigger] c[j]).edge && g.before(c[i].edge as int, c[j].edge as int) by {
        assert(is_link_of(g, c[i]) && is_link_of(g, c[j]));
        assert(c[i] != c[j]);
        if c[i].edge == c[j].edge {
            assert(c[i].a == c[j].a && c[i].b == c[j].b);
            assert(c[i].depth == c[j].depth && c[i].length == c[j].length);
            assert(c[i] == c[j]);
        }
        assert(!c[j].ahead(c[i]));
    }
    assert forall|e: int| #[trigger] g.is_link(e) implies exists|i: int|
        0 <= i < c.len() && (#[trigger] c[i]).edge == e by {
        let k = choose|k: int| 0 <= k < raw.len() && (#[trigger] raw[k]).edge == e;
        assert(raw.contains(raw[k]));
        assert(raw.to_multiset().count(raw[k]) > 0);
        assert(c.contains(raw[k]));
        let i = c.index_of(raw[k]);
        assert(c[i].edge == e);
    }
}

proof fn earlier_is_first(g: Ground, c: Seq<Link>, k: int)
    requires
        0 <= k < c.len(),
        forall|i: int| 0 <= i < c.len() ==> is_link_of(g, #[trigger] c[i]),
        forall|i: int, j: int|
            0 <= i < j < c.len() ==> (#[trigger] c[i]).edge != (#[trigger] c[j]).edge && g.before(
                c[i].edge as int,
                c[j].edge as int,
            ),
        forall|e: int| #[trigger]
            g.is_link(e) ==> exists|i: int| 0 <= i < c.len() && (#[trigger] c[i]).edge == e,
    ensures
        forall|x: int, y: int| #[trigger]
            g.earlier(c[k].edge as int)(x, y) == first_links(c, k)(x, y),
{
    let e = c[k].edge as int;
    assert forall|x: int, y: int| #[trigger] g.earlier(e)(x, y) == first_links(c, k)(x, y) by {
        if g.earlier(e)(x, y) {
            let f = choose|f: int|
                #[trigger] g.is_link(f) && g.before(f, e) && ends_of(g.lists, f) == Some((x, y));
            let i = choose|i: int| 0 <= i < c.len() && (#[trigger] c[i]).edge == f;
            assert(is_link_of(g, c[i]));
            if i >= k {
                if i > k {
                    assert(g.before(c[k].edge as int, c[i].edge as int));
                }
            }
            assert(c[i].a == x && c[i].b == y);
        }
        if first_links(c, k)(x, y) {
            let i = choose|i: int| 0 <= i < k && (#[trigger] c[i]).a == x && c[i].b == y;
            assert(is_link_of(g, c[i]));
            assert(g.before(c[i].edge as int, c[k].edge as int));
            assert(g.is_link(c[i].edge as int));
        }
    }
}

/// What the links that were considered so far connect, the sets hold.
spec fn sets_match(first: Seq<int>, rel: spec_fn(int, int) -> bool) -> bool {
    &&& sound(first, rel)
    &&& forall|x: int, y: int| #[trigger]
        rel(x, y) ==> 0 <= x < first.len() && 0 <= y < first.len() && first[x] == first[y]
}

proof fn one_more_link(first: Seq<int>, c: Seq<Link>, k: int)
    requires
        0 <= k < c.len(),
        sets_match(first, first_links(c, k)),
        c[k].a < first.len(),
        c[k].b < first.len(),
    ensures
        sets_match(joined(first, c[k].a as int, c[k].b as int), first_links(c, k + 1)),
        (first[c[k].a as int] == first[c[k].b as int]) == linked(
            first_links(c, k),
            c[k].a as int,
            c[k].b as int,
        ),
{
    let rel = first_links(c, k);
    let more = first_links(c, k + 1);
    let a = c[k].a as int;
    let b = c[k].b as int;
    sets_are_connections(first, rel);
    assert(more(a, b));
    linked_step(more, a, b);
    assert forall|x: int, y: int| #[trigger] rel(x, y) implies more(x, y) || more(y, x) by {
        let i = choose|i: int| 0 <= i < k && (#[trigger] c[i]).a == x && c[i].b == y;
        assert(c[i].a == x && c[i].b == y);
    }
    assert(sound(first, more)) by {
        assert forall|i: int| 0 <= i < first.len() implies 0 <= (#[trigger] first[i]) <= i
            && linked(more, first[i], i) && first[first[i]] == first[i] by {
            linked_more(rel, more, first[i], i);
        }
    }
    joined_sound(first, more, a, b);
    let after = joined(first, a, b);
    assert forall|x: int, y: int| #[trigger] more(x, y) implies 0 <= x < after.len() && 0 <= y
        < after.len() && after[x] == after[y] by {
        let i = choose|i: int| 0 <= i < k + 1 && (#[trigger] c[i]).a == x && c[i].b == y;
        if i < k {
            assert(rel(x, y)) by {
                assert(c[i].a == x && c[i].b == y);
            }
            assert(first[x] == first[y]);
        }
    }
}

/// The boundaries that must stay for every district, and every directory above
/// it, to stay in one piece; and how many districts were in more than one piece
/// before.
pub fn links_to_keep(
    cell_edges: &Vec<Vec<usize>>,
    cell_district: &Vec<u32>,
    territory: &Territory,
    lengths: &Vec<i64>,
) -> (r: (Vec<bool>, usize))
    requires
        territory.wf(),
        cell_edges@.len() <= u32::MAX,
        forall|i: int|
            0 <= i < cell_district@.len() ==> (#[trigger] cell_district@[i])
                < territory.nodes@.len(),
    ensures
        ({
            let g = Ground {
                lists: whole_all(cell_edges@),
                district: cell_district@,
                up: territory.up(),
                length: lengths@,
            };
            &&& r.0@.len() == lengths@.len()
            &&& forall|e: int| 0 <= e < lengths@.len() ==> (#[trigger] r.0@[e]) == g.keeps(e)
            &&& r.1 == g.split_count(cell_edges@.len())
        }),
{
    let ghost g = Ground {
        lists: whole_all(cell_edges@),
        district: cell_district@,
        up: territory.up(),
        length: lengths@,
    };
    let table: EdgeTable = EdgeTable::build(cell_edges, false);
    let raw: Vec<Link> = candidate_links(&table, cell_district, territory, lengths, Ghost(g));
    let ghost unsorted = raw@;
    let links: Vec<Link> = ranked(raw);
    let ghost c = links@;
    proof {
        sorted_links(g, unsorted, c);
    }
    let n: usize = cell_edges.len();
    let mut mask: Vec<bool> = Vec::new();
    let mut e: usize = 0;
    while e < lengths.len()
        invariant
            e <= lengths.len(),
            mask.len() == e,
            forall|k: int| 0 <= k < e ==> !(#[trigger] mask@[k]),
        decreases lengths.len() - e,
    {
        mask.push(false);
        e = e + 1;
    }
    let mut sets: DisjointSets = DisjointSets::new(n);
    proof {
        alone_sound(n as int, first_links(c, 0));
    }
    let mut k: usize = 0;
    while k < links.len()
        invariant
            k <= links.len(),
            c == links@,
            g.lists.len() == n,
            g.length == lengths@,
            mask.len() == lengths.len(),
            sets.wf(),
            sets@.len() == n,
            sets_match(sets@, first_links(c, k as int)),
            forall|i: int| 0 <= i < c.len() ==> is_link_of(g, #[trigger] c[i]),
            forall|i: int, j: int|
                0 <= i < j < c.len() ==> (#[trigger] c[i]).edge != (#[trigger] c[j]).edge
                    && g.before(c[i].edge as int, c[j].edge as int),
            forall|f: int| #[trigger]
                g.is_link(f) ==> exists|i: int| 0 <= i < c.len() && (#[trigger] c[i]).edge == f,
            forall|i: int|
                0 <= i < k ==> mask@[(#[trigger] c[i]).edge as int] == g.keeps(c[i].edge as int),
            forall|f: int|
                0 <= f < mask@.len() && (forall|i: int|
                    0 <= i < k ==> (#[trigger] c[i]).edge != f) ==> !(#[trigger] mask@[f]),
        decreases links.len() - k,
    {
        let ghost e = c[k as int].edge as int;
        let ghost had = mask@;
        proof {
            assert(is_link_of(g, c[k as int]));
            touching_bounds(g.lists, e, g.lists.len());
            one_more_link(sets@, c, k as int);
            earlier_is_first(g, c, k as int);
            let a = c[k as int].a as int;
            let b = c[k as int].b as int;
            if linked(first_links(c, k as int), a, b) {
                linked_more(first_links(c, k as int), g.earlier(e), a, b);
            }
            if linked(g.earlier(e), a, b) {
                linked_more(g.earlier(e), first_links(c, k as int), a, b);
            }
        }
        let fresh: bool = sets.join(links[k].a, links[k].b);
        mask[links[k].edge] = fresh;
        assert(fresh == g.keeps(e));
        proof {
            assert forall|i: int| 0 <= i < k + 1 implies mask@[(#[trigger] c[i]).edge as int]
                == g.keeps(c[i].edge as int) by {
                if i < k {
                    assert(c[i].edge != c[k as int].edge);
                    assert(mask@[c[i].edge as int] == had[c[i].edge as int]);
                }
            }
            assert forall|f: int|
                0 <= f < mask@.len() && (forall|i: int|
                    0 <= i < k + 1 ==> (#[trigger] c[i]).edge != f) implies !(
            #[trigger] mask@[f]) by {
                assert(c[k as int].edge != f);
                assert(!had[f]);
            }
        }
        k = k + 1;
    }
    proof {
        assert forall|f: int| 0 <= f < lengths@.len() implies (#[trigger] mask@[f])
            == g.keeps(f) by {
            if g.is_link(f) {
                let i = choose|i: int| 0 <= i < c.len() && (#[trigger] c[i]).edge == f;
                assert(mask@[c[i].edge as int] == g.keeps(c[i].edge as int));
            } else {
                assert forall|i: int| 0 <= i < c.len() implies (#[trigger] c[i]).edge != f by {
                    assert(is_link_of(g, c[i]));
                }
            }
        }
    }
    let split: usize = count_split(cell_edges, cell_district, lengths.len(), &table, Ghost(g));
    (mask, split)
}

spec fn own_so_far(g: Ground, n: int) -> spec_fn(int, int) -> bool {
    |x: int, y: int|
        exists|f: int|
            0 <= f < n && #[trigger] ends_of(g.lists, f) == Some((x, y)) && g.district_at(x)
                == g.district_at(y)
}

fn count_split(
    cell_edges: &Vec<Vec<usize>>,
    cell_district: &Vec<u32>,
    edges: usize,
    table: &EdgeTable,
    Ghost(g): Ghost<Ground>,
) -> (r: usize)
    requires
        cell_edges@.len() <= u32::MAX,
        g.lists == whole_all(cell_edges@),
        g.district == cell_district@,
        g.length.len() == edges,
        forall|e: int| 0 <= e <= usize::MAX ==> #[trigger] table.faces(e) == faces_at(g.lists, e),
    ensures
        r == g.split_count(cell_edges@.len()),
{
    let n: usize = cell_edges.len();
    let mut sets: DisjointSets = DisjointSets::new(n);
    proof {
        alone_sound(n as int, own_so_far(g, 0));
    }
    let mut e: usize = 0;
    while e < edges
        invariant
            e <= edges == g.length.len(),
            n == cell_edges@.len() == g.lists.len(),
            n <= u32::MAX,
            g.district == cell_district@,
            sets.wf(),
            sets@.len() == n,
            sets_match(sets@, own_so_far(g, e as int)),
            forall|k: int|
                0 <= k <= usize::MAX ==> #[trigger] table.faces(k) == faces_at(g.lists, k),
        decreases edges - e,
    {
        assert(table.faces(e as int) == faces_at(g.lists, e as int));
        let ghost rel = own_so_far(g, e as int);
        let ghost more = own_so_far(g, e + 1);
        let ghost first = sets@;
        proof {
            touching_bounds(g.lists, e as int, g.lists.len());
            assert forall|x: int, y: int| #[trigger] rel(x, y) implies more(x, y) || more(y, x) by {
                let f = choose|f: int|
                    0 <= f < e && #[trigger] ends_of(g.lists, f) == Some((x, y)) && g.district_at(x)
                        == g.district_at(y);
                assert(ends_of(g.lists, f) == Some((x, y)));
            }
            assert(sound(first, more)) by {
                assert forall|i: int| 0 <= i < first.len() implies 0 <= (#[trigger] first[i]) <= i
                    && linked(more, first[i], i) && first[first[i]] == first[i] by {
                    linked_more(rel, more, first[i], i);
                }
            }
        }
        let mut same: bool = false;
        if let Some((a, b, _)) = table.pair(e) {
            let ka: bool = (a as usize) < cell_district.len();
            let kb: bool = (b as usize) < cell_district.len();
            same = if ka && kb {
                cell_district[a as usize] == cell_district[b as usize]
            } else {
                ka == kb
            };
            if same {
                proof {
                    assert(ends_of(g.lists, e as int) == Some((a as int, b as int)));
                    assert(more(a as int, b as int));
                    linked_step(more, a as int, b as int);
                    joined_sound(first, more, a as int, b as int);
                }
                let _ = sets.join(a, b);
            }
        }
        proof {
            let after = sets@;
            assert forall|x: int, y: int| #[trigger] more(x, y) implies 0 <= x < after.len() && 0
                <= y < after.len() && after[x] == after[y] by {
                let f = choose|f: int|
                    0 <= f < e + 1 && #[trigger] ends_of(g.lists, f) == Some((x, y))
                        && g.district_at(x) == g.district_at(y);
                if f < e {
                    assert(rel(x, y)) by {
                        assert(ends_of(g.lists, f) == Some((x, y)));
                    }
                    assert(first[x] == first[y]);
                }
            }
        }
        e = e + 1;
    }
    proof {
        let rel = own_so_far(g, edges as int);
        sets_are_connections(sets@, rel);
        assert forall|x: int, y: int| linked(rel, x, y) == #[trigger] linked(g.own(), x, y) by {
            assert forall|p: int, q: int| #[trigger] rel(p, q) == g.own()(p, q) by {
                if rel(p, q) {
                    let f = choose|f: int|
                        0 <= f < edges && #[trigger] ends_of(g.lists, f) == Some((p, q))
                            && g.district_at(p) == g.district_at(q);
                    assert(ends_of(g.lists, f) == Some((p, q)));
                }
                if g.own()(p, q) {
                    let f = choose|f: int|
                        0 <= f < g.length.len() && #[trigger] ends_of(g.lists, f) == Some((p, q))
                            && g.district_at(p) == g.district_at(q);
                    assert(ends_of(g.lists, f) == Some((p, q)));
                }
            }
            if linked(rel, x, y) {
                linked_more(rel, g.own(), x, y);
            }
            if linked(g.own(), x, y) {
                linked_more(g.own(), rel, x, y);
            }
        }
    }
    let ghost first = sets@;
    let mut count: usize = 0;
    let mut c: usize = 0;
    while c < n
        invariant
            c <= n == cell_edges@.len(),
            n == g.lists.len(),
            g.lists == whole_all(cell_edges@),
            g.district == cell_district@,
            sets.wf(),
            sets@ == first,
            first.len() == n,
            n <= u32::MAX,
            count == g.split_count(c as nat),
            count <= c,
            forall|x: int, y: int|
                0 <= x < n && 0 <= y < n ==> (#[trigger] first[x] == #[trigger] first[y]
                    <==> linked(g.own(), x, y)),
        decreases n - c,
    {
        let mut heads: bool = false;
        if c < cell_district.len() && cell_edges[c].len() > 0 {
            assert(g.settled(c as int));
            let d: u32 = cell_district[c];
            let mut seen: bool = false;
            let mut k: usize = 0;
            while k < c
                invariant
                    k <= c < n == cell_edges@.len(),
                    c < cell_district@.len(),
                    g.lists == whole_all(cell_edges@),
                    g.district == cell_district@,
                    d == cell_district@[c as int],
                    seen == exists|j: int|
                        0 <= j < k && #[trigger] g.settled(j) && g.district[j] == d,
                decreases c - k,
            {
                if cell_edges[k].len() > 0 && cell_district[k] == d {
                    assert(g.settled(k as int));
                    seen = true;
                }
                k = k + 1;
            }
            let mut apart: bool = false;
            let rc: u32 = sets.find(c as u32);
            let mut k: usize = 0;
            while k < n
                invariant
                    k <= n == cell_edges@.len(),
                    n <= u32::MAX,
                    c < n,
                    g.lists == whole_all(cell_edges@),
                    g.district == cell_district@,
                    sets.wf(),
                    sets@ == first,
                    first.len() == n,
                    rc == first[c as int],
                    forall|x: int, y: int|
                        0 <= x < n && 0 <= y < n ==> (#[trigger] first[x] == #[trigger] first[y]
                            <==> linked(g.own(), x, y)),
                    apart == exists|j: int|
                        0 <= j < k && #[trigger] g.settled(j) && g.district[j] == d && !linked(
                            g.own(),
                            c as int,
                            j,
                        ),
                decreases n - k,
            {
                if k < cell_district.len() && cell_edges[k].len() > 0 && cell_district[k] == d {
                    assert(g.settled(k as int));
                    assert(first[c as int] == first[k as int] <==> linked(
                        g.own(),
                        c as int,
                        k as int,
                    ));
                    if sets.find(k as u32) != rc {
                        apart = true;
                    }
                }
                k = k + 1;
            }
            heads = !seen && apart;
        }
        assert(heads == g.heads_split(c as int));
        if heads {
            count = count + 1;
        }
        c = c + 1;
    }
    count
}

/// How many of the first `n` boundaries are considered before one.
spec fn rank_of(g: Ground, e: int, n: nat) -> nat
    decreases n,
{
    if n == 0 {
        0
    } else {
        rank_of(g, e, (n - 1) as nat) + if g.is_link(n - 1) && g.before(n - 1, e) {
            1nat
        } else {
            0nat
        }
    }
}

proof fn rank_drops(g: Ground, f: int, e: int, n: nat)
    requires
        g.is_link(f),
        g.before(f, e),
        n <= g.length.len(),
    ensures
        rank_of(g, f, n) <= rank_of(g, e, n),
        f < n ==> rank_of(g, f, n) < rank_of(g, e, n),
    decreases n,
{
    if n > 0 {
        rank_drops(g, f, e, (n - 1) as nat);
    }
}

proof fn link_is_held(g: Ground, e: int)
    requires
        g.is_link(e),
    ensures
        ends_of(g.lists, e) matches Some(p) && linked(g.held(), p.0, p.1),
    decreases rank_of(g, e, g.length.len()),
{
    let p = ends_of(g.lists, e)->0;
    if g.keeps(e) {
        assert(g.held()(p.0, p.1));
        linked_step(g.held(), p.0, p.1);
    } else {
        let rel = g.earlier(e);
        assert forall|x: int, y: int| #[trigger] rel(x, y) implies linked(g.held(), x, y) by {
            let f = choose|f: int|
                #[trigger] g.is_link(f) && g.before(f, e) && ends_of(g.lists, f) == Some((x, y));
            rank_drops(g, f, e, g.length.len());
            link_is_held(g, f);
        }
        linked_through(rel, g.held(), p.0, p.1);
    }
}

/// The boundaries that must stay connect whatever all boundaries connect.
pub proof fn held_links_span(g: Ground, a: int, b: int)
    requires
        linked(g.touch(), a, b),
    ensures
        linked(g.held(), a, b),
{
    assert forall|x: int, y: int| #[trigger] g.touch()(x, y) implies linked(g.held(), x, y) by {
        let f = choose|f: int| #[trigger] g.is_link(f) && ends_of(g.lists, f) == Some((x, y));
        link_is_held(g, f);
    }
    linked_through(g.touch(), g.held(), a, b);
}

/// No boundary that must stay is spare: those considered before it do not
/// connect its two sides, so the boundaries that must stay form a forest.
pub proof fn held_links_are_a_forest(g: Ground, e: int)
    requires
        g.keeps(e),
    ensures
        ends_of(g.lists, e) matches Some(p) && !linked(
            |x: int, y: int|
                exists|f: int|
                    #[trigger] g.keeps(f) && g.before(f, e) && ends_of(g.lists, f) == Some((x, y)),
            p.0,
            p.1,
        ),
{
    let p = ends_of(g.lists, e)->0;
    let kept = |x: int, y: int|
        exists|f: int|
            #[trigger] g.keeps(f) && g.before(f, e) && ends_of(g.lists, f) == Some((x, y));
    if linked(kept, p.0, p.1) {
        assert forall|x: int, y: int| #[trigger] kept(x, y) implies g.earlier(e)(x, y)
            || g.earlier(e)(y, x) by {
            let f = choose|f: int|
                #[trigger] g.keeps(f) && g.before(f, e) && ends_of(g.lists, f) == Some((x, y));
            assert(g.is_link(f));
        }
        linked_more(kept, g.earlier(e), p.0, p.1);
    }
}

/// Two directories that both stand above a third stand one above the other.
proof fn above_chain(up: Seq<Option<u32>>, a: int, b: int, x: int)
    requires
        parents_first(up),
        0 <= x < up.len(),
        above(up, a, x),
        above(up, b, x),
        depth_of(up, a) <= depth_of(up, b),
    ensures
        above(up, a, b),
    decreases x,
{
    above_facts(up, a, x);
    above_facts(up, b, x);
    if b != x {
        if a != x {
            above_chain(up, a, b, up[x]->0 as int);
        }
    }
}

proof fn above_joins(up: Seq<Option<u32>>, a: int, b: int, x: int)
    requires
        parents_first(up),
        0 <= x < up.len(),
        above(up, a, b),
        above(up, b, x),
    ensures
        above(up, a, x),
    decreases x,
{
    if b != x {
        above_joins(up, a, b, up[x]->0 as int);
    }
}

/// Of two cells on either side of a boundary that shares a directory as deep as
/// `s`, both are in the subtree of `s` or neither is.
proof fn deep_links_stay(g: Ground, s: int, x: int, y: int)
    requires
        g.wf(),
        forall|i: int| 0 <= i < g.up.len() ==> #[trigger] above(g.up, 0, i),
        g.inside(s, x),
        0 <= y < g.district.len(),
        depth_of(g.up, s) <= shared_depth(
            g.up,
            g.district[x] as int,
            g.district[y] as int,
        ),
    ensures
        g.inside(s, y),
{
    let dx = g.district[x] as int;
    let dy = g.district[y] as int;
    if dx != dy {
        assert(above(g.up, 0, dx) && above(g.up, 0, dy));
        meeting_is_deepest(g.up, dx, dy, 0);
        let m = meeting(g.up, dx, dy)->0;
        above_facts(g.up, m, dx);
        crate::territory::depth_bound(g.up, m);
        above_chain(g.up, s, m, dx);
        above_joins(g.up, s, m, dy);
    }
}

proof fn links_inside_are_deep(g: Ground, s: int, x: int, y: int)
    requires
        g.wf(),
        g.inside(s, x),
        g.inside(s, y),
    ensures
        depth_of(g.up, s) <= shared_depth(
            g.up,
            g.district[x] as int,
            g.district[y] as int,
        ),
{
    let dx = g.district[x] as int;
    let dy = g.district[y] as int;
    above_facts(g.up, s, dx);
    crate::territory::depth_bound(g.up, dx);
    if dx != dy {
        meeting_is_deepest(g.up, dx, dy, s);
        let m = meeting(g.up, dx, dy)->0;
        above_facts(g.up, s, m);
        above_facts(g.up, m, dx);
        crate::territory::depth_bound(g.up, m);
    }
}

proof fn path_stays_inside(g: Ground, s: int, e: int, p: Seq<int>, n: int)
    requires
        g.wf(),
        forall|i: int| 0 <= i < g.up.len() ==> #[trigger] above(g.up, 0, i),
        crate::forest::steps(g.earlier(e), p),
        0 <= n < p.len(),
        g.inside(s, p[0]),
        depth_of(g.up, s) <= g.depth(e),
        forall|f: int|
            #[trigger] g.is_link(f) && g.before(f, e) ==> match ends_of(g.lists, f) {
                Some(q) => g.inside(s, q.0) && g.inside(s, q.1) ==> linked(
                    g.held_inside(s),
                    q.0,
                    q.1,
                ),
                None => false,
            },
    ensures
        g.inside(s, p[n]),
        linked(g.held_inside(s), p[0], p[n]),
    decreases n,
{
    if n == 0 {
        linked_self(g.held_inside(s), p[0]);
    } else {
        path_stays_inside(g, s, e, p, n - 1);
        let x = p[n - 1];
        let y = p[n - 1 + 1];
        assert(g.earlier(e)(x, y) || g.earlier(e)(y, x));
        if g.earlier(e)(x, y) {
            let f = choose|f: int|
                #[trigger] g.is_link(f) && g.before(f, e) && ends_of(g.lists, f) == Some((x, y));
            touching_bounds(g.lists, f, g.lists.len());
            deep_links_stay(g, s, x, y);
            assert(linked(g.held_inside(s), x, y));
        } else {
            let f = choose|f: int|
                #[trigger] g.is_link(f) && g.before(f, e) && ends_of(g.lists, f) == Some((y, x));
            touching_bounds(g.lists, f, g.lists.len());
            shared_depth_either_way(g.up, g.district[x] as int, g.district[y] as int);
            deep_links_stay(g, s, x, y);
            assert(linked(g.held_inside(s), y, x));
            linked_back(g.held_inside(s), y, x);
        }
        linked_on(g.held_inside(s), p[0], x, y);
    }
}

proof fn shared_depth_either_way(up: Seq<Option<u32>>, x: int, y: int)
    requires
        parents_first(up),
        0 <= x < up.len(),
        0 <= y < up.len(),
    ensures
        shared_depth(up, x, y) == shared_depth(up, y, x),
{
    meeting_is_deepest(up, x, y, x);
    meeting_is_deepest(up, y, x, x);
    if meeting(up, x, y) is Some {
        meeting_is_deepest(up, y, x, meeting(up, x, y)->0);
    }
    if meeting(up, y, x) is Some {
        meeting_is_deepest(up, x, y, meeting(up, y, x)->0);
    }
    if meeting(up, x, y) is Some && meeting(up, y, x) is Some {
        let m = meeting(up, x, y)->0;
        let k = meeting(up, y, x)->0;
        above_facts(up, m, k);
        above_facts(up, k, m);
    }
}

proof fn link_is_held_inside(g: Ground, s: int, e: int)
    requires
        g.wf(),
        forall|i: int| 0 <= i < g.up.len() ==> #[trigger] above(g.up, 0, i),
        g.is_link(e),
        ends_of(g.lists, e) matches Some(p) && g.inside(s, p.0) && g.inside(s, p.1),
    ensures
        ends_of(g.lists, e) matches Some(p) && linked(g.held_inside(s), p.0, p.1),
    decreases rank_of(g, e, g.length.len()),
{
    let p = ends_of(g.lists, e)->0;
    if g.keeps(e) {
        assert(g.held()(p.0, p.1));
        assert(g.held_inside(s)(p.0, p.1));
        linked_step(g.held_inside(s), p.0, p.1);
    } else {
        links_inside_are_deep(g, s, p.0, p.1);
        assert forall|f: int| #[trigger] g.is_link(f) && g.before(f, e) implies match ends_of(
            g.lists,
            f,
        ) {
            Some(q) => g.inside(s, q.0) && g.inside(s, q.1) ==> linked(
                g.held_inside(s),
                q.0,
                q.1,
            ),
            None => false,
        } by {
            rank_drops(g, f, e, g.length.len());
            let q = ends_of(g.lists, f)->0;
            if g.inside(s, q.0) && g.inside(s, q.1) {
                link_is_held_inside(g, s, f);
            }
        }
        let path = choose|path: Seq<int>| crate::forest::leads(g.earlier(e), path, p.0, p.1);
        path_stays_inside(g, s, e, path, path.len() - 1);
    }
}

/// In every directory of the tree, at any depth, the boundaries that must stay
/// connect within its subtree whatever all boundaries connect within it: a
/// district stays one place, and so does everything above it.
pub proof fn held_links_span_every_subtree(g: Ground, s: int, a: int, b: int)
    requires
        g.wf(),
        forall|i: int| 0 <= i < g.up.len() ==> #[trigger] above(g.up, 0, i),
        linked(g.touch_inside(s), a, b),
    ensures
        linked(g.held_inside(s), a, b),
{
    assert forall|x: int, y: int| #[trigger] g.touch_inside(s)(x, y) implies linked(
        g.held_inside(s),
        x,
        y,
    ) by {
        let f = choose|f: int| #[trigger] g.is_link(f) && ends_of(g.lists, f) == Some((x, y));
        link_is_held_inside(g, s, f);
    }
    linked_through(g.touch_inside(s), g.held_inside(s), a, b);
}

/// A boundary lies between the first two cells that list it, where both have a district.
/// Of two boundaries the one whose sides share the deeper directory is considered first,
/// then the longer, then the first listed.
pub proof fn deeper_boundaries_are_considered_first(g: Ground, f: int, e: int)
    requires
        g.is_link(f),
        g.is_link(e),
    ensures
        faces_at(g.lists, e).len() >= 2,
        ends_of(g.lists, e) == Some((faces_at(g.lists, e)[0], faces_at(g.lists, e)[1])),
        faces_at(g.lists, e)[0] < g.district.len(),
        faces_at(g.lists, e)[1] < g.district.len(),
        ({
            let deep = |x: int|
                shared_depth(
                    g.up,
                    g.district[faces_at(g.lists, x)[0]] as int,
                    g.district[faces_at(g.lists, x)[1]] as int,
                );
            g.before(f, e) <==> if deep(f) != deep(e) {
                deep(f) > deep(e)
            } else if g.length[f] != g.length[e] {
                g.length[f] > g.length[e]
            } else {
                f < e
            }
        }),
{
}

/// A boundary is a link exactly where it is listed by two cells or more and the first two
/// have a district.
pub proof fn links_lie_between_two_districts(g: Ground, e: int)
    ensures
        g.is_link(e) <==> 0 <= e < g.length.len() && faces_at(g.lists, e).len() > 1 && faces_at(
            g.lists,
            e,
        )[0] < g.district.len() && faces_at(g.lists, e)[1] < g.district.len(),
{
}

/// A boundary stays where the ones considered before it do not connect its two sides, and
/// goes where they do.
pub proof fn a_boundary_stays_where_it_connects(g: Ground, e: int)
    ensures
        g.keeps(e) <==> g.is_link(e) && !linked(
            |x: int, y: int|
                exists|f: int|
                    #[trigger] g.is_link(f) && g.before(f, e) && faces_at(g.lists, f)[0] == x
                        && faces_at(g.lists, f)[1] == y,
            faces_at(g.lists, e)[0],
            faces_at(g.lists, e)[1],
        ),
{
    let other = |x: int, y: int|
        exists|f: int|
            #[trigger] g.is_link(f) && g.before(f, e) && faces_at(g.lists, f)[0] == x && faces_at(
                g.lists,
                f,
            )[1] == y;
    let own = g.earlier(e);
    assert forall|x: int, y: int| #[trigger] own(x, y) == other(x, y) by {
        if own(x, y) {
            let f = choose|f: int|
                #[trigger] g.is_link(f) && g.before(f, e) && ends_of(g.lists, f) == Some((x, y));
            assert(g.is_link(f) && faces_at(g.lists, f)[0] == x);
        }
        if other(x, y) {
            let f = choose|f: int|
                #[trigger] g.is_link(f) && g.before(f, e) && faces_at(g.lists, f)[0] == x
                    && faces_at(g.lists, f)[1] == y;
            assert(g.is_link(f) && ends_of(g.lists, f) == Some((x, y)));
        }
    }
    assert forall|x: int, y: int| #[trigger] other(x, y) == own(x, y) by {}
    let (a, b) = (faces_at(g.lists, e)[0], faces_at(g.lists, e)[1]);
    if linked(own, a, b) {
        let p = choose|p: Seq<int>| crate::forest::leads(own, p, a, b);
        same_steps(own, other, p);
        assert(crate::forest::leads(other, p, a, b));
    }
    if linked(other, a, b) {
        let p = choose|p: Seq<int>| crate::forest::leads(other, p, a, b);
        same_steps(other, own, p);
        assert(crate::forest::leads(own, p, a, b));
    }
}

proof fn same_steps(a: spec_fn(int, int) -> bool, b: spec_fn(int, int) -> bool, p: Seq<int>)
    requires
        crate::forest::steps(a, p),
        forall|x: int, y: int| #[trigger] a(x, y) ==> b(x, y),
    ensures
        crate::forest::steps(b, p),
{
    assert forall|i: int| 0 <= i < p.len() - 1 implies b(#[trigger] p[i], p[i + 1]) || b(
        p[i + 1],
        p[i],
    ) by {
        assert(a(p[i], p[i + 1]) || a(p[i + 1], p[i]));
    }
}

proof fn splits_upto(g: Ground, n: nat)
    ensures
        g.split_count(n) == Seq::new(n, |c: int| c).filter(|c: int| g.heads_split(c)).len(),
    decreases n,
{
    let all = Seq::new(n, |c: int| c);
    let test = |c: int| g.heads_split(c);
    if n == 0 {
        filter_none(all, test);
        take_all(all);
    } else {
        let m = (n - 1) as nat;
        splits_upto(g, m);
        filter_step(all, test, n);
        take_all(all);
        assert(all.take(n - 1) =~= Seq::new(m, |c: int| c));
    }
}

/// A district is split where two of its settled cells are not connected through boundaries
/// between its own cells, and counted once, at its first cell. A cell is settled where
/// it has sides and a district.
pub proof fn split_districts_are_counted_once(g: Ground, n: nat, c: int)
    requires
        0 <= c < g.lists.len(),
        c < g.district.len(),
    ensures
        g.split_count(n) == Seq::new(n, |c: int| c).filter(|c: int| g.heads_split(c)).len(),
        g.settled(c) <==> g.lists[c].len() > 0,
        g.heads_split(c) <==> g.settled(c) && (forall|k: int|
            0 <= k < c && #[trigger] g.settled(k) ==> g.district[k] != g.district[c]) && (exists|
            k: int,
        |
            #[trigger] g.settled(k) && g.district[k] == g.district[c] && !linked(g.own(), c, k)),
        forall|x: int, y: int|
            0 <= x < g.district.len() && 0 <= y < g.district.len() ==> (#[trigger] g.own()(x, y)
                <==> g.district[x] == g.district[y] && exists|f: int|
                0 <= f < g.length.len() && #[trigger] ends_of(g.lists, f) == Some((x, y))),
{
    splits_upto(g, n);
    assert forall|x: int, y: int| 0 <= x < g.district.len() && 0 <= y < g.district.len() implies (
    #[trigger] g.own()(x, y) <==> g.district[x] == g.district[y] && exists|f: int|
        0 <= f < g.length.len() && #[trigger] ends_of(g.lists, f) == Some((x, y))) by {
        assert(g.district_at(x) == Some(g.district[x]));
        assert(g.district_at(y) == Some(g.district[y]));
    }
}

} // verus!
