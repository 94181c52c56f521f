//! Blocks that share a whole edge, and the pieces that groups of blocks fall
//! into.
use vstd::prelude::*;

use crate::edges::{faces_at, halved_all, times, touching, touching_bounds, EdgeTable};
use crate::folds::{filter_none, filter_step, take_all};
use crate::forest::{
    alone_sound, joined_sound, linked, linked_step, sets_are_connections, sound, DisjointSets,
};
use crate::territory::{above, Territory};

verus! {

/// Do the two blocks share an edge that no other block and no third side of
/// either touches?
pub open spec fn neighbours(lists: Seq<Seq<int>>, x: int, y: int) -> bool {
    exists|e: int| #[trigger] faces_at(lists, e) == seq![x, y]
}

/// Do the two blocks share an edge, and belong to one group?
pub open spec fn kindred(lists: Seq<Seq<int>>, group: Seq<Option<u32>>) -> spec_fn(
    int,
    int,
) -> bool {
    |x: int, y: int|
        neighbours(lists, x, y) && 0 <= x < group.len() && 0 <= y < group.len() && group[x] is Some
            && group[x] == group[y]
}

/// Is the block the first of its piece: is no earlier block connected to it?
pub open spec fn heads_piece(lists: Seq<Seq<int>>, group: Seq<Option<u32>>, i: int) -> bool {
    forall|j: int| 0 <= j < i ==> !#[trigger] linked(kindred(lists, group), j, i)
}

/// How many pieces a group has among the first `n` blocks.
pub open spec fn piece_count(
    lists: Seq<Seq<int>>,
    group: Seq<Option<u32>>,
    g: u32,
    n: nat,
) -> nat
    decreases n,
{
    if n == 0 || n > group.len() {
        0
    } else {
        piece_count(lists, group, g, (n - 1) as nat) + if group[n - 1] == Some(g) && heads_piece(
            lists,
            group,
            n - 1,
        ) {
            1nat
        } else {
            0nat
        }
    }
}

proof fn listed(list: Seq<int>, e: int)
    requires
        times(list, e) > 0,
    ensures
        list.contains(e),
    decreases list.len(),
{
    if list.last() == e {
        assert(list[list.len() - 1] == e);
    } else {
        listed(list.drop_last(), e);
        let k = list.drop_last().index_of(e);
        assert(list[k] == e);
    }
}

proof fn touched_lists(lists: Seq<Seq<int>>, e: int, n: nat, k: int)
    requires
        n <= lists.len(),
        0 <= k < touching(lists, e, n).len(),
    ensures
        0 <= touching(lists, e, n)[k] < n,
        lists[touching(lists, e, n)[k]].contains(e),
    decreases n,
{
    if n > 0 {
        let before = touching(lists, e, (n - 1) as nat);
        if k < before.len() {
            touched_lists(lists, e, (n - 1) as nat, k);
            assert(touching(lists, e, n)[k] == before[k]);
        } else {
            assert(touching(lists, e, n)[k] == n - 1);
            assert(times(lists[n - 1], e) > 0);
            listed(lists[n - 1], e);
        }
    }
}

/// The pairs of blocks that share an edge.
pub fn neighbour_pairs(half_edges: &Vec<Vec<usize>>) -> (r: Vec<(u32, u32)>)
    requires
        half_edges@.len() <= u32::MAX,
    ensures
        forall|i: int|
            0 <= i < r@.len() ==> neighbours(
                halved_all(half_edges@),
                (#[trigger] r@[i]).0 as int,
                r@[i].1 as int,
            ) && r@[i].0 < half_edges@.len() && r@[i].1 < half_edges@.len(),
        forall|x: int, y: int| #[trigger]
            neighbours(halved_all(half_edges@), x, y) ==> exists|i: int|
                0 <= i < r@.len() && (#[trigger] r@[i]).0 == x && r@[i].1 == y,
{
    let ghost lists = halved_all(half_edges@);
    let table: EdgeTable = EdgeTable::build(half_edges, true);
    let mut out: Vec<(u32, u32)> = Vec::new();
    let mut b: usize = 0;
    while b < half_edges.len()
        invariant
            b <= half_edges.len() == lists.len(),
            lists == halved_all(half_edges@),
            forall|e: int|
                0 <= e <= usize::MAX ==> #[trigger] table.faces(e) == faces_at(lists, e),
            forall|i: int|
                0 <= i < out@.len() ==> neighbours(
                    lists,
                    (#[trigger] out@[i]).0 as int,
                    out@[i].1 as int,
                ) && out@[i].0 < lists.len() && out@[i].1 < lists.len(),
            forall|x: int, e: int|
                0 <= x < b && #[trigger] lists[x].contains(e) && #[trigger] faces_at(
                    lists,
                    e,
                ).len() == 2 ==> exists|i: int|
                    0 <= i < out@.len() && (#[trigger] out@[i]).0 == faces_at(lists, e)[0]
                        && out@[i].1 == faces_at(lists, e)[1],
        decreases half_edges.len() - b,
    {
        let ghost past = out@;
        let mut j: usize = 0;
        while j < half_edges[b].len()
            invariant
                b < half_edges.len() == lists.len(),
                j <= half_edges@[b as int]@.len(),
                lists == halved_all(half_edges@),
                past.len() <= out@.len(),
                forall|i: int| 0 <= i < past.len() ==> out@[i] == #[trigger] past[i],
                forall|e: int|
                    0 <= e <= usize::MAX ==> #[trigger] table.faces(e) == faces_at(lists, e),
                forall|i: int|
                    0 <= i < out@.len() ==> neighbours(
                        lists,
                        (#[trigger] out@[i]).0 as int,
                        out@[i].1 as int,
                    ) && out@[i].0 < lists.len() && out@[i].1 < lists.len(),
                forall|k: int|
                    0 <= k < j && faces_at(lists, #[trigger] lists[b as int][k]).len() == 2
                        ==> exists|i: int|
                        0 <= i < out@.len() && (#[trigger] out@[i]).0 == faces_at(
                            lists,
                            lists[b as int][k],
                        )[0] && out@[i].1 == faces_at(lists, lists[b as int][k])[1],
            decreases half_edges@[b as int]@.len() - j,
        {
            let e: usize = half_edges[b][j] / 2;
            assert(lists[b as int][j as int] == e);
            assert(table.faces(e as int) == faces_at(lists, e as int));
            let ghost had = out@;
            let mut told: bool = false;
            if let Some((x, y, more)) = table.pair(e) {
                if !more {
                    proof {
                        touching_bounds(lists, e as int, lists.len());
                        assert(faces_at(lists, e as int) =~= seq![x as int, y as int]);
                        assert(neighbours(lists, x as int, y as int));
                    }
                    out.push((x, y));
                    told = true;
                }
            }
            proof {
                assert forall|k: int|
                    0 <= k < j + 1 && faces_at(lists, #[trigger] lists[b as int][k]).len()
                        == 2 implies exists|i: int|
                    0 <= i < out@.len() && (#[trigger] out@[i]).0 == faces_at(
                        lists,
                        lists[b as int][k],
                    )[0] && out@[i].1 == faces_at(lists, lists[b as int][k])[1] by {
                    if k < j {
                        let i = choose|i: int|
                            0 <= i < had.len() && (#[trigger] had[i]).0 == faces_at(
                                lists,
                                lists[b as int][k],
                            )[0] && had[i].1 == faces_at(lists, lists[b as int][k])[1];
                        assert(out@[i] == had[i]);
                    } else {
                        assert(told);
                        assert(out@[out@.len() - 1].0 == faces_at(lists, lists[b as int][k])[0]);
                    }
                }
            }
            j = j + 1;
        }
        proof {
            assert forall|x: int, e: int|
                0 <= x < b + 1 && #[trigger] lists[x].contains(e) && #[trigger] faces_at(
                    lists,
                    e,
                ).len() == 2 implies exists|i: int|
                0 <= i < out@.len() && (#[trigger] out@[i]).0 == faces_at(lists, e)[0]
                    && out@[i].1 == faces_at(lists, e)[1] by {
                if x < b {
                    let i = choose|i: int|
                        0 <= i < past.len() && (#[trigger] past[i]).0 == faces_at(lists, e)[0]
                            && past[i].1 == faces_at(lists, e)[1];
                    assert(out@[i] == past[i]);
                } else {
                    let k = lists[x].index_of(e);
                    assert(lists[b as int][k] == e);
                }
            }
        }
        b = b + 1;
    }
    proof {
        assert forall|x: int, y: int| #[trigger] neighbours(lists, x, y) implies exists|i: int|
            0 <= i < out@.len() && (#[trigger] out@[i]).0 == x && out@[i].1 == y by {
            let e = choose|e: int| #[trigger] faces_at(lists, e) == seq![x, y];
            touched_lists(lists, e, lists.len(), 0);
            assert(faces_at(lists, e)[0] == x && faces_at(lists, e)[1] == y);
            assert(lists[x].contains(e));
        }
    }
    out
}

spec fn kindred_pairs(pairs: Seq<(u32, u32)>, group: Seq<Option<u32>>, n: int) -> spec_fn(
    int,
    int,
) -> bool {
    |x: int, y: int|
        exists|i: int|
            0 <= i < n && (#[trigger] pairs[i]).0 == x && pairs[i].1 == y && 0 <= x < group.len()
                && 0 <= y < group.len() && group[x] is Some && group[x] == group[y]
}

/// The first block of each block's piece, where blocks of one group that share
/// an edge are in one piece.
pub(crate) fn piece_heads(pairs: &Vec<(u32, u32)>, group: &Vec<Option<u32>>, lists: Ghost<
    Seq<Seq<int>>,
>) -> (r: Vec<u32>)
    requires
        group@.len() <= u32::MAX,
        group@.len() == lists@.len(),
        forall|i: int|
            0 <= i < pairs@.len() ==> neighbours(
                lists@,
                (#[trigger] pairs@[i]).0 as int,
                pairs@[i].1 as int,
            ) && pairs@[i].0 < lists@.len() && pairs@[i].1 < lists@.len(),
        forall|x: int, y: int| #[trigger]
            neighbours(lists@, x, y) ==> exists|i: int|
                0 <= i < pairs@.len() && (#[trigger] pairs@[i]).0 == x && pairs@[i].1 == y,
    ensures
        r@.len() == group@.len(),
        forall|i: int|
            0 <= i < r@.len() ==> (#[trigger] r@[i]) <= i && r@[r@[i] as int] == r@[i] && linked(
                kindred(lists@, group@),
                r@[i] as int,
                i,
            ),
        forall|i: int, j: int|
            0 <= i < r@.len() && 0 <= j < r@.len() ==> (#[trigger] r@[i] == #[trigger] r@[j]
                <==> linked(kindred(lists@, group@), i, j)),
{
    let n: usize = group.len();
    let ghost rel = kindred(lists@, group@);
    let mut sets: DisjointSets = DisjointSets::new(n);
    proof {
        alone_sound(n as int, rel);
    }
    let mut k: usize = 0;
    while k < pairs.len()
        invariant
            k <= pairs.len(),
            n == group@.len() == lists@.len(),
            rel == kindred(lists@, group@),
            sets.wf(),
            sets@.len() == n,
            sound(sets@, rel),
            forall|i: int|
                0 <= i < pairs@.len() ==> neighbours(
                    lists@,
                    (#[trigger] pairs@[i]).0 as int,
                    pairs@[i].1 as int,
                ) && pairs@[i].0 < lists@.len() && pairs@[i].1 < lists@.len(),
            forall|x: int, y: int| #[trigger]
                kindred_pairs(pairs@, group@, k as int)(x, y) ==> sets@[x] == sets@[y],
        decreases pairs.len() - k,
    {
        let x: u32 = pairs[k].0;
        let y: u32 = pairs[k].1;
        let same: bool = match (group[x as usize], group[y as usize]) {
            (Some(a), Some(b)) => a == b,
            _ => false,
        };
        let ghost first = sets@;
        if same {
            proof {
                assert(rel(x as int, y as int));
                linked_step(rel, x as int, y as int);
                joined_sound(first, rel, x as int, y as int);
            }
            let _ = sets.join(x, y);
        }
        proof {
            let now = sets@;
            assert forall|p: int, q: int| #[trigger]
                kindred_pairs(pairs@, group@, k + 1)(p, q) implies now[p] == now[q] by {
                let i = choose|i: int|
                    0 <= i < k + 1 && (#[trigger] pairs@[i]).0 == p && pairs@[i].1 == q && 0 <= p
                        < group@.len() && 0 <= q < group@.len() && group@[p] is Some && group@[p]
                        == group@[q];
                if i < k {
                    assert(kindred_pairs(pairs@, group@, k as int)(p, q)) by {
                        assert(pairs@[i].0 == p && pairs@[i].1 == q);
                    }
                    assert(first[p] == first[q]);
                }
            }
        }
        k = k + 1;
    }
    proof {
        let first = sets@;
        assert forall|x: int, y: int| #[trigger] rel(x, y) implies 0 <= x < first.len() && 0 <= y
            < first.len() && first[x] == first[y] by {
            assert(neighbours(lists@, x, y));
            let i = choose|i: int|
                0 <= i < pairs@.len() && (#[trigger] pairs@[i]).0 == x && pairs@[i].1 == y;
            assert(pairs@[i].0 == x && pairs@[i].1 == y);
            assert(kindred_pairs(pairs@, group@, pairs@.len() as int)(x, y));
        }
        sets_are_connections(first, rel);
    }
    let ghost first = sets@;
    let mut out: Vec<u32> = Vec::new();
    let mut i: usize = 0;
    while i < n
        invariant
            i <= n <= u32::MAX,
            sets.wf(),
            sets@ == first,
            first.len() == n,
            out.len() == i,
            forall|j: int| 0 <= j < i ==> (#[trigger] out@[j]) == first[j],
        decreases n - i,
    {
        out.push(sets.find(i as u32));
        i = i + 1;
    }
    proof {
        assert forall|i: int| 0 <= i < out@.len() implies (#[trigger] out@[i]) <= i
            && out@[out@[i] as int] == out@[i] && linked(rel, out@[i] as int, i) by {
            assert(0 <= first[i] <= i);
            assert(out@[first[i]] == first[first[i]]);
        }
        assert forall|i: int, j: int| 0 <= i < out@.len() && 0 <= j < out@.len() implies (
        #[trigger] out@[i] == #[trigger] out@[j] <==> linked(rel, i, j)) by {
            assert(first[i] == first[j] <==> linked(rel, i, j));
        }
    }
    out
}

/// A block heads its piece exactly where it is the first of it.
pub proof fn head_is_first(
    lists: Seq<Seq<int>>,
    group: Seq<Option<u32>>,
    heads: Seq<u32>,
    i: int,
)
    requires
        heads.len() == group.len(),
        0 <= i < heads.len(),
        forall|k: int|
            0 <= k < heads.len() ==> (#[trigger] heads[k]) <= k && heads[heads[k] as int]
                == heads[k] && linked(kindred(lists, group), heads[k] as int, k),
        forall|k: int, j: int|
            0 <= k < heads.len() && 0 <= j < heads.len() ==> (#[trigger] heads[k]
                == #[trigger] heads[j] <==> linked(kindred(lists, group), k, j)),
    ensures
        heads_piece(lists, group, i) == (heads[i] == i),
{
    if heads[i] == i {
        assert forall|j: int| 0 <= j < i implies !#[trigger] linked(
            kindred(lists, group),
            j,
            i,
        ) by {
            assert(heads[j] == heads[i] <==> linked(kindred(lists, group), j, i));
        }
    } else {
        assert(linked(kindred(lists, group), heads[i] as int, i));
    }
}

fn count_pieces(
    heads: &Vec<u32>,
    group: &Vec<Option<u32>>,
    g: u32,
    lists: Ghost<Seq<Seq<int>>>,
) -> (r: usize)
    requires
        heads@.len() == group@.len(),
        group@.len() <= u32::MAX,
        forall|k: int|
            0 <= k < heads@.len() ==> (#[trigger] heads@[k]) <= k && heads@[heads@[k] as int]
                == heads@[k] && linked(kindred(lists@, group@), heads@[k] as int, k),
        forall|k: int, j: int|
            0 <= k < heads@.len() && 0 <= j < heads@.len() ==> (#[trigger] heads@[k]
                == #[trigger] heads@[j] <==> linked(kindred(lists@, group@), k, j)),
    ensures
        r == piece_count(lists@, group@, g, group@.len()),
{
    let n: usize = group.len();
    let mut count: usize = 0;
    let mut i: usize = 0;
    while i < n
        invariant
            i <= n == group@.len(),
            heads@.len() == n <= u32::MAX,
            forall|k: int|
                0 <= k < heads@.len() ==> (#[trigger] heads@[k]) <= k && heads@[heads@[k] as int]
                    == heads@[k] && linked(kindred(lists@, group@), heads@[k] as int, k),
            forall|k: int, j: int|
                0 <= k < heads@.len() && 0 <= j < heads@.len() ==> (#[trigger] heads@[k]
                    == #[trigger] heads@[j] <==> linked(kindred(lists@, group@), k, j)),
            count == piece_count(lists@, group@, g, i as nat),
            count <= i,
        decreases n - i,
    {
        proof {
            head_is_first(lists@, group@, heads@, i as int);
        }
        let mine: bool = match group[i] {
            Some(x) => x == g,
            None => false,
        };
        if mine && heads[i] as usize == i {
            count = count + 1;
        }
        i = i + 1;
    }
    count
}

/// How many pieces there are of all groups among the first `n` blocks.
pub open spec fn all_pieces(lists: Seq<Seq<int>>, group: Seq<Option<u32>>, n: nat) -> nat
    decreases n,
{
    if n == 0 || n > group.len() {
        0
    } else {
        all_pieces(lists, group, (n - 1) as nat) + if group[n - 1] is Some && heads_piece(
            lists,
            group,
            n - 1,
        ) {
            1nat
        } else {
            0nat
        }
    }
}

/// How many pieces the first `m` groups have together, among the first `n` blocks.
pub open spec fn pieces_of_first(
    lists: Seq<Seq<int>>,
    group: Seq<Option<u32>>,
    m: nat,
    n: nat,
) -> nat
    decreases m,
{
    if m == 0 {
        0
    } else {
        pieces_of_first(lists, group, (m - 1) as nat, n) + piece_count(
            lists,
            group,
            (m - 1) as u32,
            n,
        )
    }
}

proof fn one_more_block(
    lists: Seq<Seq<int>>,
    group: Seq<Option<u32>>,
    m: nat,
    n: nat,
)
    requires
        0 < n <= group.len(),
        m <= u32::MAX,
    ensures
        pieces_of_first(lists, group, m, n) == pieces_of_first(lists, group, m, (n - 1) as nat)
            + if heads_piece(lists, group, n - 1) && (group[n - 1] matches Some(g) && g < m) {
            1nat
        } else {
            0nat
        },
    decreases m,
{
    if m > 0 {
        one_more_block(lists, group, (m - 1) as nat, n);
    }
}

proof fn no_blocks_no_pieces(lists: Seq<Seq<int>>, group: Seq<Option<u32>>, m: nat)
    ensures
        pieces_of_first(lists, group, m, 0) == 0,
    decreases m,
{
    if m > 0 {
        no_blocks_no_pieces(lists, group, (m - 1) as nat);
    }
}

/// All the pieces are those of each group, counted one group after another.
pub proof fn pieces_are_counted_by_group(
    lists: Seq<Seq<int>>,
    group: Seq<Option<u32>>,
    m: nat,
    n: nat,
)
    requires
        n <= group.len(),
        m <= u32::MAX,
        forall|i: int|
            0 <= i < group.len() ==> ((#[trigger] group[i]) matches Some(g) ==> g < m),
    ensures
        all_pieces(lists, group, n) == pieces_of_first(lists, group, m, n),
    decreases n,
{
    if n == 0 {
        no_blocks_no_pieces(lists, group, m);
    } else {
        pieces_are_counted_by_group(lists, group, m, (n - 1) as nat);
        one_more_block(lists, group, m, n);
        assert(group[n - 1] matches Some(g) ==> g < m);
    }
}

/// Is the group that of one of the blocks?
pub open spec fn has_group(group: Seq<Option<u32>>, g: u32) -> bool {
    group.contains(Some(g))
}

/// Where a group first occurs, in ascending order of groups: the listing of
/// groups.
pub open spec fn groups_ascend(r: Seq<(u32, usize)>) -> bool {
    forall|i: int, j: int| 0 <= i < j < r.len() ==> (#[trigger] r[i]).0 < (#[trigger] r[j]).0
}

/// How many pieces each group of blocks falls into, groups in order.
pub fn pieces(half_edges: &Vec<Vec<usize>>, group: &Vec<Option<u32>>) -> (r: Vec<(u32, usize)>)
    requires
        half_edges@.len() <= u32::MAX,
        group@.len() == half_edges@.len(),
    ensures
        groups_ascend(r@),
        forall|i: int|
            0 <= i < r@.len() ==> has_group(group@, (#[trigger] r@[i]).0) && r@[i].1
                == piece_count(halved_all(half_edges@), group@, r@[i].0, group@.len()),
        forall|g: u32| #[trigger]
            has_group(group@, g) ==> exists|i: int| 0 <= i < r@.len() && (#[trigger] r@[i]).0 == g,
{
    let ghost lists = halved_all(half_edges@);
    let pairs: Vec<(u32, u32)> = neighbour_pairs(half_edges);
    let heads: Vec<u32> = piece_heads(&pairs, group, Ghost(lists));
    let n: usize = group.len();
    let mut out: Vec<(u32, usize)> = Vec::new();
    let mut i: usize = 0;
    while i < n
        invariant
            i <= n == group@.len(),
            n <= u32::MAX,
            heads@.len() == n,
            forall|k: int|
                0 <= k < heads@.len() ==> (#[trigger] heads@[k]) <= k && heads@[heads@[k] as int]
                    == heads@[k] && linked(kindred(lists, group@), heads@[k] as int, k),
            forall|k: int, j: int|
                0 <= k < heads@.len() && 0 <= j < heads@.len() ==> (#[trigger] heads@[k]
                    == #[trigger] heads@[j] <==> linked(kindred(lists, group@), k, j)),
            groups_ascend(out@),
            forall|k: int|
                0 <= k < out@.len() ==> has_group(group@, (#[trigger] out@[k]).0) && out@[k].1
                    == piece_count(lists, group@, out@[k].0, group@.len()),
            forall|j: int|
                0 <= j < i ==> ((#[trigger] group@[j]) matches Some(g) ==> exists|k: int|
                    0 <= k < out@.len() && (#[trigger] out@[k]).0 == g),
        decreases n - i,
    {
        let ghost had = out@;
        if let Some(g) = group[i] {
            let mut p: usize = 0;
            while p < out.len() && out[p].0 < g
                invariant
                    p <= out.len(),
                    forall|k: int| 0 <= k < p ==> (#[trigger] out@[k]).0 < g,
                decreases out.len() - p,
            {
                p = p + 1;
            }
            if p < out.len() && out[p].0 == g {
                assert(out@[p as int].0 == g);
            } else {
                let count: usize = count_pieces(&heads, group, g, Ghost(lists));
                assert(group@[i as int] == Some(g));
                out.insert(p, (g, count));
                proof {
                    assert(out@ =~= had.insert(p as int, (g, count)));
                    assert forall|a: int, b: int| 0 <= a < b < out@.len() implies (
                    #[trigger] out@[a]).0 < (#[trigger] out@[b]).0 by {
                        let x = if a < p {
                            a
                        } else {
                            a - 1
                        };
                        let y = if b < p {
                            b
                        } else {
                            b - 1
                        };
                        if a != p {
                            assert(out@[a] == had[x]);
                        }
                        if b != p {
                            assert(out@[b] == had[y]);
                        }
                        if a == p && y > p {
                            assert(had[p as int].0 < had[y].0);
                        }
                    }
                    assert forall|k: int| 0 <= k < out@.len() implies has_group(
                        group@,
                        (#[trigger] out@[k]).0,
                    ) && out@[k].1 == piece_count(lists, group@, out@[k].0, group@.len()) by {
                        let x = if k < p {
                            k
                        } else {
                            k - 1
                        };
                        if k != p {
                            assert(out@[k] == had[x]);
                        }
                    }
                    assert(out@[p as int].0 == g);
                }
            }
            proof {
                assert forall|j: int| 0 <= j < i + 1 implies ((#[trigger] group@[j]) matches Some(
                    q,
                ) ==> exists|k: int| 0 <= k < out@.len() && (#[trigger] out@[k]).0 == q) by {
                    if j < i && group@[j] is Some {
                        let q = group@[j]->0;
                        let k = choose|k: int| 0 <= k < had.len() && (#[trigger] had[k]).0 == q;
                        if out@.len() == had.len() {
                            assert(out@[k].0 == q);
                        } else {
                            let x = if k < p {
                                k
                            } else {
                                k + 1
                            };
                            assert(out@[x].0 == q);
                        }
                    }
                }
            }
        }
        i = i + 1;
    }
    proof {
        assert forall|g: u32| #[trigger] has_group(group@, g) implies exists|k: int|
            0 <= k < out@.len() && (#[trigger] out@[k]).0 == g by {
            let j = group@.index_of(Some(g));
            assert(group@[j] == Some(g));
        }
    }
    out
}

/// Is the block the first of a group that is in more than one piece?
pub open spec fn heads_fragmented(
    lists: Seq<Seq<int>>,
    group: Seq<Option<u32>>,
    i: int,
) -> bool {
    match group[i] {
        Some(g) => (forall|j: int| 0 <= j < i ==> #[trigger] group[j] != Some(g)) && piece_count(
            lists,
            group,
            g,
            group.len(),
        ) > 1,
        None => false,
    }
}

/// How many of the groups that first occur among the first `n` blocks are in more
/// than one piece.
pub open spec fn fragmented_count(
    lists: Seq<Seq<int>>,
    group: Seq<Option<u32>>,
    n: nat,
) -> nat
    decreases n,
{
    if n == 0 || n > group.len() {
        0
    } else {
        fragmented_count(lists, group, (n - 1) as nat) + if heads_fragmented(lists, group, n - 1) {
            1nat
        } else {
            0nat
        }
    }
}

/// How many groups of blocks are in more than one piece.
pub fn fragmented(half_edges: &Vec<Vec<usize>>, group: &Vec<Option<u32>>) -> (r: usize)
    requires
        half_edges@.len() <= u32::MAX,
        group@.len() == half_edges@.len(),
    ensures
        r == fragmented_count(halved_all(half_edges@), group@, group@.len()),
{
    let ghost lists = halved_all(half_edges@);
    let pairs: Vec<(u32, u32)> = neighbour_pairs(half_edges);
    let heads: Vec<u32> = piece_heads(&pairs, group, Ghost(lists));
    let mut count: usize = 0;
    let mut i: usize = 0;
    while i < group.len()
        invariant
            i <= group@.len() <= u32::MAX,
            heads@.len() == group@.len(),
            forall|k: int|
                0 <= k < heads@.len() ==> (#[trigger] heads@[k]) <= k && heads@[heads@[k] as int]
                    == heads@[k] && linked(kindred(lists, group@), heads@[k] as int, k),
            forall|k: int, j: int|
                0 <= k < heads@.len() && 0 <= j < heads@.len() ==> (#[trigger] heads@[k]
                    == #[trigger] heads@[j] <==> linked(kindred(lists, group@), k, j)),
            count == fragmented_count(lists, group@, i as nat),
            count <= i,
        decreases group.len() - i,
    {
        let mut split: bool = false;
        if let Some(g) = group[i] {
            let mut seen: bool = false;
            let mut j: usize = 0;
            while j < i
                invariant
                    j <= i < group@.len(),
                    seen == exists|k: int| 0 <= k < j && #[trigger] group@[k] == Some(g),
                decreases i - j,
            {
                let same: bool = match group[j] {
                    Some(x) => x == g,
                    None => false,
                };
                if same {
                    assert(group@[j as int] == Some(g));
                    seen = true;
                }
                j = j + 1;
            }
            if !seen {
                split = count_pieces(&heads, group, g, Ghost(lists)) > 1;
            }
        }
        assert(split == heads_fragmented(lists, group@, i as int));
        if split {
            count = count + 1;
        }
        i = i + 1;
    }
    count
}

/// The blocks in the subtree of a directory, as one group.
pub open spec fn subtree_group(
    up: Seq<Option<u32>>,
    district: Seq<Option<u32>>,
    s: int,
) -> Seq<Option<u32>> {
    Seq::new(
        district.len(),
        |i: int|
            match district[i] {
                Some(d) => if above(up, s, d as int) {
                    Some(s as u32)
                } else {
                    None
                },
                None => None,
            },
    )
}

/// How many of the first `n` directories have a subtree in more than one piece.
pub open spec fn split_subtrees(
    lists: Seq<Seq<int>>,
    up: Seq<Option<u32>>,
    district: Seq<Option<u32>>,
    n: nat,
) -> nat
    decreases n,
{
    if n == 0 || n > up.len() {
        0
    } else {
        let s = n - 1;
        split_subtrees(lists, up, district, (n - 1) as nat) + if piece_count(
            lists,
            subtree_group(up, district, s),
            s as u32,
            district.len(),
        ) > 1 {
            1nat
        } else {
            0nat
        }
    }
}

pub(crate) fn is_above(territory: &Territory, a: u32, x: u32) -> (r: bool)
    requires
        territory.wf(),
        x < territory.nodes@.len(),
    ensures
        r == above(territory.up(), a as int, x as int),
{
    let ghost up = territory.up();
    let mut here: u32 = x;
    while here != a
        invariant
            territory.wf(),
            up == territory.up(),
            here < territory.nodes@.len() == up.len(),
            above(up, a as int, x as int) == above(up, a as int, here as int),
        decreases here,
    {
        assert(up[here as int] == territory.nodes@[here as int].parent);
        match territory.nodes[here as usize].parent {
            Some(p) => {
                here = p;
            },
            None => return false,
        }
    }
    true
}

/// How many directories, at any depth, have a subtree whose blocks are in more
/// than one piece.
pub fn fragmented_subtrees(
    half_edges: &Vec<Vec<usize>>,
    district: &Vec<Option<u32>>,
    territory: &Territory,
) -> (r: usize)
    requires
        territory.wf(),
        half_edges@.len() <= u32::MAX,
        district@.len() == half_edges@.len(),
        forall|i: int|
            0 <= i < district@.len() ==> ((#[trigger] district@[i]) matches Some(d) ==> d
                < territory.nodes@.len()),
    ensures
        r == split_subtrees(
            halved_all(half_edges@),
            territory.up(),
            district@,
            territory.nodes@.len(),
        ),
{
    let ghost lists = halved_all(half_edges@);
    let ghost up = territory.up();
    let pairs: Vec<(u32, u32)> = neighbour_pairs(half_edges);
    let mut count: usize = 0;
    let mut s: usize = 0;
    while s < territory.nodes.len()
        invariant
            s <= territory.nodes@.len() == up.len(),
            territory.wf(),
            up == territory.up(),
            lists.len() == district@.len() <= u32::MAX,
            forall|i: int|
                0 <= i < district@.len() ==> ((#[trigger] district@[i]) matches Some(d) ==> d
                    < territory.nodes@.len()),
            forall|i: int|
                0 <= i < pairs@.len() ==> neighbours(
                    lists,
                    (#[trigger] pairs@[i]).0 as int,
                    pairs@[i].1 as int,
                ) && pairs@[i].0 < lists.len() && pairs@[i].1 < lists.len(),
            forall|x: int, y: int| #[trigger]
                neighbours(lists, x, y) ==> exists|i: int|
                    0 <= i < pairs@.len() && (#[trigger] pairs@[i]).0 == x && pairs@[i].1 == y,
            count == split_subtrees(lists, up, district@, s as nat),
            count <= s,
        decreases territory.nodes.len() - s,
    {
        let mut group: Vec<Option<u32>> = Vec::new();
        let mut i: usize = 0;
        while i < district.len()
            invariant
                i <= district@.len(),
                s < territory.nodes@.len(),
                territory.wf(),
                up == territory.up(),
                forall|k: int|
                    0 <= k < district@.len() ==> ((#[trigger] district@[k]) matches Some(d) ==> d
                        < territory.nodes@.len()),
                group.len() == i,
                forall|k: int|
                    0 <= k < i ==> #[trigger] group@[k] == subtree_group(
                        up,
                        district@,
                        s as int,
                    )[k],
            decreases district.len() - i,
        {
            assert(district@[i as int] matches Some(d) ==> d < territory.nodes@.len());
            let within: bool = match district[i] {
                Some(d) => is_above(territory, s as u32, d),
                None => false,
            };
            if within {
                group.push(Some(s as u32));
            } else {
                group.push(None);
            }
            i = i + 1;
        }
        assert(group@ =~= subtree_group(up, district@, s as int));
        let heads: Vec<u32> = piece_heads(&pairs, &group, Ghost(lists));
        if count_pieces(&heads, &group, s as u32, Ghost(lists)) > 1 {
            count = count + 1;
        }
        s = s + 1;
    }
    count
}

proof fn pieces_upto(lists: Seq<Seq<int>>, group: Seq<Option<u32>>, g: u32, n: nat)
    requires
        n <= group.len(),
    ensures
        piece_count(lists, group, g, n) == Seq::new(group.len(), |i: int| i).take(n as int).filter(
            |i: int|
                group[i] == Some(g) && (forall|j: int|
                    0 <= j < i ==> !#[trigger] linked(kindred(lists, group), j, i)),
        ).len(),
    decreases n,
{
    let all = Seq::new(group.len(), |i: int| i);
    let test = |i: int|
        group[i] == Some(g) && (forall|j: int|
            0 <= j < i ==> !#[trigger] linked(kindred(lists, group), j, i));
    if n == 0 {
        filter_none(all, test);
    } else {
        pieces_upto(lists, group, g, (n - 1) as nat);
        filter_step(all, test, n);
        assert(test(n - 1) == (group[n - 1] == Some(g) && heads_piece(lists, group, n - 1)));
    }
}

/// A group has as many pieces as it has blocks that no earlier block is connected to.
pub proof fn pieces_are_counted_by_their_first_blocks(
    lists: Seq<Seq<int>>,
    group: Seq<Option<u32>>,
    g: u32,
)
    ensures
        piece_count(lists, group, g, group.len()) == Seq::new(group.len(), |i: int| i).filter(
            |i: int|
                group[i] == Some(g) && (forall|j: int|
                    0 <= j < i ==> !#[trigger] linked(kindred(lists, group), j, i)),
        ).len(),
{
    pieces_upto(lists, group, g, group.len());
    take_all(Seq::new(group.len(), |i: int| i));
}

/// Two blocks are of one piece from one to the next where they share an edge that no third
/// touches and are of one group; blocks without a group are of no piece.
pub proof fn pieces_are_of_one_group(
    lists: Seq<Seq<int>>,
    group: Seq<Option<u32>>,
    x: int,
    y: int,
)
    requires
        0 <= x < group.len(),
        0 <= y < group.len(),
    ensures
        kindred(lists, group)(x, y) <==> group[x] is Some && group[x] == group[y] && exists|e: int|
            (#[trigger] faces_at(lists, e)).len() == 2 && faces_at(lists, e)[0] == x && faces_at(
                lists,
                e,
            )[1] == y,
{
    if exists|e: int|
        (#[trigger] faces_at(lists, e)).len() == 2 && faces_at(lists, e)[0] == x && faces_at(
            lists,
            e,
        )[1] == y {
        let e = choose|e: int|
            (#[trigger] faces_at(lists, e)).len() == 2 && faces_at(lists, e)[0] == x && faces_at(
                lists,
                e,
            )[1] == y;
        assert(faces_at(lists, e) =~= seq![x, y]);
    }
    if neighbours(lists, x, y) {
        let e = choose|e: int| #[trigger] faces_at(lists, e) == seq![x, y];
        assert(faces_at(lists, e).len() == 2);
    }
}

proof fn fragmented_upto(lists: Seq<Seq<int>>, group: Seq<Option<u32>>, n: nat)
    requires
        n <= group.len(),
    ensures
        fragmented_count(lists, group, n) == Seq::new(group.len(), |i: int| i).take(n as int).filter(
            |i: int|
                group[i] is Some && !group.take(i).contains(group[i]) && piece_count(
                    lists,
                    group,
                    group[i]->0,
                    group.len(),
                ) >= 2,
        ).len(),
    decreases n,
{
    let all = Seq::new(group.len(), |i: int| i);
    let test = |i: int|
        group[i] is Some && !group.take(i).contains(group[i]) && piece_count(
            lists,
            group,
            group[i]->0,
            group.len(),
        ) >= 2;
    if n == 0 {
        filter_none(all, test);
    } else {
        fragmented_upto(lists, group, (n - 1) as nat);
        filter_step(all, test, n);
        let i = n - 1;
        let before = group.take(i);
        if before.contains(group[i]) {
            let j = before.index_of(group[i]);
            assert(group[j] == group[i]);
        }
        assert forall|j: int| 0 <= j < i && group[j] == group[i] implies before.contains(
            group[i],
        ) by {
            assert(before[j] == group[i]);
        }
        assert(test(i) == heads_fragmented(lists, group, i)) by {
            if group[i] is Some && !before.contains(group[i]) {
                assert forall|j: int| 0 <= j < i implies #[trigger] group[j] != Some(
                    group[i]->0,
                ) by {
                    if group[j] == group[i] {
                        assert(before.contains(group[i]));
                    }
                }
            }
        }
    }
}

/// The fragmented groups are those with two pieces or more, each counted once.
pub proof fn fragmented_groups_are_counted_once(lists: Seq<Seq<int>>, group: Seq<Option<u32>>)
    ensures
        fragmented_count(lists, group, group.len()) == Seq::new(group.len(), |i: int| i).filter(
            |i: int|
                group[i] is Some && !group.take(i).contains(group[i]) && piece_count(
                    lists,
                    group,
                    group[i]->0,
                    group.len(),
                ) >= 2,
        ).len(),
{
    fragmented_upto(lists, group, group.len());
    take_all(Seq::new(group.len(), |i: int| i));
}

proof fn split_upto(
    lists: Seq<Seq<int>>,
    up: Seq<Option<u32>>,
    district: Seq<Option<u32>>,
    n: nat,
)
    requires
        n <= up.len(),
    ensures
        split_subtrees(lists, up, district, n) == Seq::new(up.len(), |s: int| s).take(
            n as int,
        ).filter(
            |s: int|
                piece_count(lists, subtree_group(up, district, s), s as u32, district.len()) >= 2,
        ).len(),
    decreases n,
{
    let all = Seq::new(up.len(), |s: int| s);
    let test = |s: int|
        piece_count(lists, subtree_group(up, district, s), s as u32, district.len()) >= 2;
    if n == 0 {
        filter_none(all, test);
    } else {
        split_upto(lists, up, district, (n - 1) as nat);
        filter_step(all, test, n);
    }
}

/// The split subtrees are the directories whose blocks, with those of all that lies in
/// them, are in two pieces or more.
pub proof fn split_subtrees_are_counted(
    lists: Seq<Seq<int>>,
    up: Seq<Option<u32>>,
    district: Seq<Option<u32>>,
)
    ensures
        split_subtrees(lists, up, district, up.len()) == Seq::new(up.len(), |s: int| s).filter(
            |s: int|
                piece_count(lists, subtree_group(up, district, s), s as u32, district.len()) >= 2,
        ).len(),
        forall|s: int, i: int|
            #![trigger subtree_group(up, district, s)[i]]
            0 <= i < district.len() ==> subtree_group(up, district, s)[i] == if district[i] is Some
                && above(up, s, district[i]->0 as int) {
                Some(s as u32)
            } else {
                None
            },
{
    split_upto(lists, up, district, up.len());
    take_all(Seq::new(up.len(), |s: int| s));
}

} // verus!
