//! Which packages found a quarter of their own, and where in each the oldest
//! ground is.
use vstd::prelude::*;

use crate::folds::{filter_none, filter_step, take_all};
use crate::pieces::is_above;
use crate::sort::{strictly, strictly_unique};
use crate::territory::{above, parents, Node, Territory};

verus! {

/// Most quarters that a town has.
pub const MAX_QUARTERS: usize = 14;

/// Fewest files that a quarter has.
pub const QUARTER_FILES: u32 = 12;

/// Does a directory lie directly in another, and hold files?
pub open spec fn is_kid(nodes: Seq<Node>, d: int, c: int) -> bool {
    0 <= c < nodes.len() && nodes[c].parent == Some(d as u32) && nodes[c].subtree_files > 0
}

/// How many of the first `n` directories lie directly in one, and hold files.
pub open spec fn kid_count(nodes: Seq<Node>, d: int, n: nat) -> nat
    decreases n,
{
    if n == 0 || n > nodes.len() {
        0
    } else {
        kid_count(nodes, d, (n - 1) as nat) + if is_kid(nodes, d, n - 1) {
            1nat
        } else {
            0nat
        }
    }
}

/// How many of the first `n` are marked.
pub open spec fn marked(v: Seq<bool>, n: nat) -> nat
    decreases n,
{
    if n == 0 || n > v.len() {
        0
    } else {
        marked(v, (n - 1) as nat) + if v[n - 1] {
            1nat
        } else {
            0nat
        }
    }
}

/// The quarters so far, and the directories that were split already.
pub ghost struct Quarters {
    pub front: Seq<bool>,
    pub split: Seq<bool>,
}

/// Is a directory to be split: a quarter, not split yet, with more files than one
/// may have, and with at least two parts?
pub open spec fn splits(nodes: Seq<Node>, q: Quarters, ceiling: u32, d: int) -> bool {
    &&& 0 <= d < nodes.len()
    &&& q.front[d]
    &&& !q.split[d]
    &&& nodes[d].subtree_files > ceiling
    &&& kid_count(nodes, d, nodes.len()) >= 2
}

/// Is it the one to be split next: the one with the most files, the first where
/// several have as many?
pub open spec fn splits_next(nodes: Seq<Node>, q: Quarters, ceiling: u32, d: int) -> bool {
    &&& splits(nodes, q, ceiling, d)
    &&& forall|k: int|
        k != d && #[trigger] splits(nodes, q, ceiling, k) ==> nodes[d].subtree_files
            > nodes[k].subtree_files || (nodes[d].subtree_files == nodes[k].subtree_files && d < k)
}

/// The quarters after a directory was split: its parts are quarters, and it stays
/// one where it has files of its own.
pub open spec fn after_split(nodes: Seq<Node>, q: Quarters, d: int) -> Quarters {
    Quarters {
        front: Seq::new(
            nodes.len(),
            |c: int|
                is_kid(nodes, d, c) || (q.front[c] && (c != d || nodes[d].own_files > 0)),
        ),
        split: q.split.update(d, true),
    }
}

/// The quarters once no more are split: there are as many as there may be, or
/// none is left to split.
pub open spec fn final_quarters(nodes: Seq<Node>, q: Quarters, ceiling: u32) -> Seq<bool>
    decreases nodes.len() - marked(q.split, nodes.len()),
    when q.front.len() == nodes.len() && q.split.len() == nodes.len()
    via final_quarters_ends
{
    if marked(q.front, nodes.len()) >= MAX_QUARTERS {
        q.front
    } else if exists|d: int| splits_next(nodes, q, ceiling, d) {
        let d = choose|d: int| splits_next(nodes, q, ceiling, d);
        final_quarters(nodes, after_split(nodes, q, d), ceiling)
    } else {
        q.front
    }
}

#[via_fn]
proof fn final_quarters_ends(nodes: Seq<Node>, q: Quarters, ceiling: u32) {
    if exists|d: int| splits_next(nodes, q, ceiling, d) {
        let d = choose|d: int| splits_next(nodes, q, ceiling, d);
        assert(splits_next(nodes, q, ceiling, d));
        marked_update(q.split, d, nodes.len());
        marked_bound(q.split, nodes.len());
        marked_bound(q.split.update(d, true), nodes.len());
    }
}

proof fn marked_update(v: Seq<bool>, d: int, n: nat)
    requires
        0 <= d < v.len(),
        !v[d],
        n <= v.len(),
    ensures
        marked(v.update(d, true), n) == marked(v, n) + if d < n {
            1nat
        } else {
            0nat
        },
    decreases n,
{
    if n > 0 {
        marked_update(v, d, (n - 1) as nat);
    }
}

proof fn marked_bound(v: Seq<bool>, n: nat)
    ensures
        marked(v, n) <= n,
    decreases n,
{
    if n > 0 && n <= v.len() {
        marked_bound(v, (n - 1) as nat);
    }
}

/// The quarters to begin with: the packages at the top that hold files.
pub open spec fn first_quarters(nodes: Seq<Node>) -> Quarters {
    Quarters {
        front: Seq::new(nodes.len(), |c: int| is_kid(nodes, 0, c)),
        split: Seq::new(nodes.len(), |c: int| false),
    }
}

/// Does a quarter stand before another by size: more files, then older, then
/// listed first?
pub open spec fn bigger(nodes: Seq<Node>, a: int, b: int) -> bool {
    ||| nodes[a].subtree_files > nodes[b].subtree_files
    ||| nodes[a].subtree_files == nodes[b].subtree_files && nodes[a].oldest < nodes[b].oldest
    ||| nodes[a].subtree_files == nodes[b].subtree_files && nodes[a].oldest == nodes[b].oldest && a
        < b
}

/// Is the quarter large enough to be founded?
pub open spec fn large(nodes: Seq<Node>, front: Seq<bool>, floor: u32, c: int) -> bool {
    0 <= c < nodes.len() && front[c] && nodes[c].subtree_files >= floor
}

/// How many of the first `n` directories are founded before one, by size.
pub open spec fn bigger_count(
    nodes: Seq<Node>,
    front: Seq<bool>,
    floor: u32,
    c: int,
    n: nat,
) -> nat
    decreases n,
{
    if n == 0 || n > nodes.len() {
        0
    } else {
        bigger_count(nodes, front, floor, c, (n - 1) as nat) + if large(nodes, front, floor, n - 1)
            && bigger(nodes, n - 1, c) {
            1nat
        } else {
            0nat
        }
    }
}

/// Is the quarter founded: large enough, and among the largest that there may be?
pub open spec fn founded(nodes: Seq<Node>, front: Seq<bool>, floor: u32, c: int) -> bool {
    large(nodes, front, floor, c) && bigger_count(nodes, front, floor, c, nodes.len())
        < MAX_QUARTERS
}

/// Does a quarter stand before another by age: older, then listed first?
pub open spec fn older(nodes: Seq<Node>) -> spec_fn(u32, u32) -> bool {
    |a: u32, b: u32|
        nodes[a as int].oldest < nodes[b as int].oldest || (nodes[a as int].oldest
            == nodes[b as int].oldest && a < b)
}

/// Are these the founded quarters, oldest first?
pub open spec fn by_age(nodes: Seq<Node>, front: Seq<bool>, floor: u32, order: Seq<u32>) -> bool {
    &&& strictly(order, older(nodes))
    &&& forall|c: u32| #[trigger] order.contains(c) <==> founded(nodes, front, floor, c as int)
}

/// The founded quarters, oldest first.
pub open spec fn age_order(nodes: Seq<Node>, front: Seq<bool>, floor: u32) -> Seq<u32> {
    choose|order: Seq<u32>| by_age(nodes, front, floor, order)
}

/// Is a directory in a package a place for its oldest ground: one with files of
/// its own, or the package itself?
pub open spec fn could_seat(nodes: Seq<Node>, pkg: int, d: int) -> bool {
    0 <= d < nodes.len() && (d == pkg || (above(parents(nodes), pkg, d) && nodes[d].own_files > 0))
}

/// Is it the directory that holds the package's oldest file?
pub open spec fn is_seat(nodes: Seq<Node>, pkg: int, d: int) -> bool {
    &&& could_seat(nodes, pkg, d)
    &&& forall|k: int|
        k != d && #[trigger] could_seat(nodes, pkg, k) ==> nodes[d].own_oldest < nodes[k].own_oldest
            || (nodes[d].own_oldest == nodes[k].own_oldest && d < k)
}

/// The directory that holds a package's oldest file.
pub open spec fn seat_in(nodes: Seq<Node>, pkg: int) -> int {
    choose|d: int| is_seat(nodes, pkg, d)
}

/// The quarters of the first `n` in an order, each with its seat; one whose seat
/// is taken is left out.
pub open spec fn sited(nodes: Seq<Node>, order: Seq<u32>, n: nat) -> Seq<(u32, u32)>
    decreases n,
{
    if n == 0 || n > order.len() {
        seq![]
    } else {
        let before = sited(nodes, order, (n - 1) as nat);
        let c = order[n - 1];
        let seat = seat_in(nodes, c as int) as u32;
        if exists|i: int| 0 <= i < before.len() && (#[trigger] before[i]).1 == seat {
            before
        } else {
            before.push((c, seat))
        }
    }
}

proof fn seat_is_one(nodes: Seq<Node>, pkg: int, d: int)
    requires
        is_seat(nodes, pkg, d),
    ensures
        seat_in(nodes, pkg) == d,
{
    let s = seat_in(nodes, pkg);
    assert(is_seat(nodes, pkg, s));
    if s != d {
        assert(could_seat(nodes, pkg, s));
        assert(could_seat(nodes, pkg, d));
    }
}

/// The directory inside a package that holds its oldest file.
pub fn founding_district(territory: &Territory, pkg: u32) -> (r: u32)
    requires
        territory.wf(),
        pkg < territory.nodes@.len(),
    ensures
        r == seat_in(territory.nodes@, pkg as int),
        is_seat(territory.nodes@, pkg as int, r as int),
{
    let ghost nodes = territory.nodes@;
    let n: usize = territory.nodes.len();
    let mut best: u32 = pkg;
    let mut d: usize = 0;
    while d < n
        invariant
            d <= n == nodes.len(),
            n < u32::MAX,
            nodes == territory.nodes@,
            territory.wf(),
            pkg < n,
            best < n,
            could_seat(nodes, pkg as int, best as int),
            best == pkg || best < d,
            forall|k: int|
                0 <= k < d && k != best && #[trigger] could_seat(nodes, pkg as int, k)
                    ==> nodes[best as int].own_oldest < nodes[k].own_oldest || (
                nodes[best as int].own_oldest == nodes[k].own_oldest && best < k),
            pkg != best ==> nodes[best as int].own_oldest < nodes[pkg as int].own_oldest || (
            nodes[best as int].own_oldest == nodes[pkg as int].own_oldest && best < pkg),
        decreases n - d,
    {
        let id: u32 = d as u32;
        if territory.nodes[d].own_files > 0 && is_above(territory, pkg, id) {
            assert(could_seat(nodes, pkg as int, d as int));
            let x: u32 = territory.nodes[d].own_oldest;
            let y: u32 = territory.nodes[best as usize].own_oldest;
            if x < y || (x == y && id < best) {
                best = id;
            }
        }
        d = d + 1;
    }
    proof {
        assert(is_seat(nodes, pkg as int, best as int));
        seat_is_one(nodes, pkg as int, best as int);
    }
    best
}

fn count_kids(territory: &Territory, d: u32) -> (r: usize)
    ensures
        r == kid_count(territory.nodes@, d as int, territory.nodes@.len()),
{
    let mut count: usize = 0;
    let mut c: usize = 0;
    while c < territory.nodes.len()
        invariant
            c <= territory.nodes@.len(),
            count == kid_count(territory.nodes@, d as int, c as nat),
            count <= c,
        decreases territory.nodes.len() - c,
    {
        if kid(territory, d, c) {
            count = count + 1;
        }
        c = c + 1;
    }
    count
}

fn kid(territory: &Territory, d: u32, c: usize) -> (r: bool)
    requires
        c < territory.nodes@.len(),
    ensures
        r == is_kid(territory.nodes@, d as int, c as int),
{
    let mine: bool = match territory.nodes[c].parent {
        Some(p) => p == d,
        None => false,
    };
    mine && territory.nodes[c].subtree_files > 0
}

fn count_marked(v: &Vec<bool>) -> (r: usize)
    ensures
        r == marked(v@, v@.len()),
{
    let mut count: usize = 0;
    let mut i: usize = 0;
    while i < v.len()
        invariant
            i <= v@.len(),
            count == marked(v@, i as nat),
            count <= i,
        decreases v.len() - i,
    {
        if v[i] {
            count = count + 1;
        }
        i = i + 1;
    }
    count
}

fn next_split(territory: &Territory, front: &Vec<bool>, split: &Vec<bool>, ceiling: u32) -> (r:
    Option<u32>)
    requires
        territory.wf(),
        front@.len() == territory.nodes@.len(),
        split@.len() == territory.nodes@.len(),
    ensures
        match r {
            Some(d) => splits_next(
                territory.nodes@,
                Quarters { front: front@, split: split@ },
                ceiling,
                d as int,
            ),
            None => forall|d: int|
                !#[trigger] splits(
                    territory.nodes@,
                    Quarters { front: front@, split: split@ },
                    ceiling,
                    d,
                ),
        },
{
    let ghost nodes = territory.nodes@;
    let ghost q = Quarters { front: front@, split: split@ };
    let mut best: Option<u32> = None;
    let mut d: usize = 0;
    while d < territory.nodes.len()
        invariant
            d <= nodes.len(),
            nodes == territory.nodes@,
            nodes.len() < u32::MAX,
            front@.len() == nodes.len(),
            split@.len() == nodes.len(),
            q == (Quarters { front: front@, split: split@ }),
            match best {
                Some(b) => b < d && splits(nodes, q, ceiling, b as int) && forall|k: int|
                    0 <= k < d && k != b && #[trigger] splits(nodes, q, ceiling, k)
                        ==> nodes[b as int].subtree_files > nodes[k].subtree_files || (
                    nodes[b as int].subtree_files == nodes[k].subtree_files && b < k),
                None => forall|k: int| 0 <= k < d ==> !#[trigger] splits(nodes, q, ceiling, k),
            },
        decreases nodes.len() - d,
    {
        let ok: bool = front[d] && !split[d] && territory.nodes[d].subtree_files > ceiling
            && count_kids(territory, d as u32) >= 2;
        assert(ok == splits(nodes, q, ceiling, d as int));
        if ok {
            let better: bool = match best {
                Some(b) => territory.nodes[d].subtree_files
                    > territory.nodes[b as usize].subtree_files,
                None => true,
            };
            if better {
                best = Some(d as u32);
            }
        }
        d = d + 1;
    }
    best
}

fn quarters(territory: &Territory, ceiling: u32) -> (r: Vec<bool>)
    requires
        territory.wf(),
    ensures
        r@ == final_quarters(territory.nodes@, first_quarters(territory.nodes@), ceiling),
        r@.len() == territory.nodes@.len(),
{
    let ghost nodes = territory.nodes@;
    let n: usize = territory.nodes.len();
    let mut front: Vec<bool> = Vec::new();
    let mut split: Vec<bool> = Vec::new();
    let mut c: usize = 0;
    while c < n
        invariant
            c <= n == nodes.len(),
            nodes == territory.nodes@,
            front.len() == c,
            split.len() == c,
            forall|k: int| 0 <= k < c ==> #[trigger] front@[k] == is_kid(nodes, 0, k),
            forall|k: int| 0 <= k < c ==> !(#[trigger] split@[k]),
        decreases n - c,
    {
        let first: bool = kid(territory, 0, c);
        front.push(first);
        split.push(false);
        c = c + 1;
    }
    let ghost start = first_quarters(nodes);
    assert(front@ =~= start.front);
    assert(split@ =~= start.split);
    loop
        invariant
            n == nodes.len(),
            nodes == territory.nodes@,
            territory.wf(),
            front@.len() == n,
            split@.len() == n,
            start == first_quarters(nodes),
            final_quarters(nodes, start, ceiling) == final_quarters(
                nodes,
                Quarters { front: front@, split: split@ },
                ceiling,
            ),
        decreases n - marked(split@, n as nat),
    {
        let ghost q = Quarters { front: front@, split: split@ };
        if count_marked(&front) >= MAX_QUARTERS {
            return front;
        }
        let d: u32 = match next_split(territory, &front, &split, ceiling) {
            Some(d) => d,
            None => {
                assert forall|k: int| !#[trigger] splits_next(nodes, q, ceiling, k) by {
                    assert(!splits(nodes, q, ceiling, k));
                }
                return front;
            },
        };
        proof {
            let k = choose|k: int| splits_next(nodes, q, ceiling, k);
            assert(splits_next(nodes, q, ceiling, k));
            if k != d {
                assert(splits(nodes, q, ceiling, k));
                assert(splits(nodes, q, ceiling, d as int));
            }
            marked_update(q.split, d as int, n as nat);
            marked_bound(q.split.update(d as int, true), n as nat);
        }
        let keep: bool = territory.nodes[d as usize].own_files > 0;
        let mut next: Vec<bool> = Vec::new();
        let mut c: usize = 0;
        while c < n
            invariant
                c <= n == nodes.len(),
                nodes == territory.nodes@,
                front@.len() == n,
                q.front == front@,
                d < n,
                keep == (nodes[d as int].own_files > 0),
                next.len() == c,
                forall|k: int|
                    0 <= k < c ==> #[trigger] next@[k] == (is_kid(nodes, d as int, k) || (q.front[k]
                        && (k != d || nodes[d as int].own_files > 0))),
            decreases n - c,
        {
            let here: bool = kid(territory, d, c) || (front[c] && (c != d as usize || keep));
            next.push(here);
            c = c + 1;
        }
        front = next;
        split[d as usize] = true;
        proof {
            let after = after_split(nodes, q, d as int);
            assert(front@ =~= after.front);
            assert(split@ =~= after.split);
        }
    }
}

fn is_large(territory: &Territory, front: &Vec<bool>, floor: u32, c: usize) -> (r: bool)
    requires
        c < territory.nodes@.len(),
        front@.len() == territory.nodes@.len(),
    ensures
        r == large(territory.nodes@, front@, floor, c as int),
{
    front[c] && territory.nodes[c].subtree_files >= floor
}

fn is_bigger(territory: &Territory, a: usize, b: usize) -> (r: bool)
    requires
        a < territory.nodes@.len(),
        b < territory.nodes@.len(),
    ensures
        r == bigger(territory.nodes@, a as int, b as int),
{
    let x: &Node = &territory.nodes[a];
    let y: &Node = &territory.nodes[b];
    x.subtree_files > y.subtree_files || (x.subtree_files == y.subtree_files && (x.oldest < y.oldest
        || (x.oldest == y.oldest && a < b)))
}

fn is_founded(territory: &Territory, front: &Vec<bool>, floor: u32, c: usize) -> (r: bool)
    requires
        c < territory.nodes@.len(),
        front@.len() == territory.nodes@.len(),
    ensures
        r == founded(territory.nodes@, front@, floor, c as int),
{
    if !is_large(territory, front, floor, c) {
        return false;
    }
    let mut count: usize = 0;
    let mut i: usize = 0;
    while i < territory.nodes.len()
        invariant
            i <= territory.nodes@.len(),
            c < territory.nodes@.len(),
            front@.len() == territory.nodes@.len(),
            count == bigger_count(territory.nodes@, front@, floor, c as int, i as nat),
            count <= i,
        decreases territory.nodes.len() - i,
    {
        if is_large(territory, front, floor, i) && is_bigger(territory, i, c) {
            count = count + 1;
        }
        i = i + 1;
    }
    count < MAX_QUARTERS
}

/// How small a package of a repository may be that gets a quarter, and how large it
/// may be before it is split: twelve thousandths of the files, but no fewer than
/// a quarter has, and twenty-six hundredths of them, each to the nearest file.
pub fn quarter_bounds(files: u32) -> (r: (u32, u32))
    ensures
        ({
            let total = if files == 0 {
                1int
            } else {
                files as int
            };
            let share = (12 * total + 500) / 1000;
            &&& r.0 == if share < QUARTER_FILES {
                QUARTER_FILES as int
            } else {
                share
            }
            &&& r.1 == (26 * total + 50) / 100
        }),
        r.0 >= 12,
        r.0 > 12 ==> r.0 == (12 * files + 500) / 1000,
{
    let total: u64 = if files == 0 {
        1
    } else {
        files as u64
    };
    let share: u64 = (12 * total + 500) / 1000;
    let floor: u64 = if share < QUARTER_FILES as u64 {
        QUARTER_FILES as u64
    } else {
        share
    };
    (floor as u32, ((26 * total + 50) / 100) as u32)
}

/// The packages that get a quarter of their own, each with the directory that its oldest
/// file is in, oldest first. A package with more files than `ceiling` is split
/// into its parts; one with fewer than `floor` gets none.
pub fn founding_packages(territory: &Territory, floor: u32, ceiling: u32) -> (r: Vec<(u32, u32)>)
    requires
        territory.wf(),
    ensures
        ({
            let nodes = territory.nodes@;
            let front = final_quarters(nodes, first_quarters(nodes), ceiling);
            let order = age_order(nodes, front, floor);
            &&& by_age(nodes, front, floor, order)
            &&& r@ == sited(nodes, order, order.len())
        }),
{
    let ghost nodes = territory.nodes@;
    let n: usize = territory.nodes.len();
    let front: Vec<bool> = quarters(territory, ceiling);
    let mut order: Vec<u32> = Vec::new();
    let mut c: usize = 0;
    while c < n
        invariant
            c <= n == nodes.len(),
            n < u32::MAX,
            nodes == territory.nodes@,
            front@.len() == n,
            strictly(order@, older(nodes)),
            forall|i: int| 0 <= i < order@.len() ==> (#[trigger] order@[i]) < c,
            forall|k: u32|
                k < c ==> (#[trigger] order@.contains(k) <==> founded(
                    nodes,
                    front@,
                    floor,
                    k as int,
                )),
        decreases n - c,
    {
        let ghost had = order@;
        if is_founded(territory, &front, floor, c) {
            let mut p: usize = 0;
            while p < order.len() && territory.nodes[order[p] as usize].oldest
                <= territory.nodes[c].oldest
                invariant
                    p <= order@.len(),
                    c < n == nodes.len(),
                    nodes == territory.nodes@,
                    order@ == had,
                    forall|i: int| 0 <= i < order@.len() ==> (#[trigger] order@[i]) < c,
                    forall|i: int|
                        0 <= i < p ==> nodes[(#[trigger] order@[i]) as int].oldest
                            <= nodes[c as int].oldest,
                decreases order.len() - p,
            {
                p = p + 1;
            }
            order.insert(p, c as u32);
            proof {
                let lt = older(nodes);
                assert(order@ =~= had.insert(p as int, c as u32));
                assert forall|i: int, j: int| 0 <= i < j < order@.len() implies lt(
                    #[trigger] order@[i],
                    #[trigger] order@[j],
                ) by {
                    let a = if i < p {
                        i
                    } else {
                        i - 1
                    };
                    let b = if j < p {
                        j
                    } else {
                        j - 1
                    };
                    if i != p {
                        assert(order@[i] == had[a]);
                        assert(had[a] < c);
                    }
                    if j != p {
                        assert(order@[j] == had[b]);
                        assert(had[b] < c);
                    }
                    if i == p && b > p {
                        assert(lt(had[p as int], had[b]));
                    }
                }
                assert(order@[p as int] == c as u32);
            }
        }
        proof {
            assert forall|k: u32| k < c + 1 implies (#[trigger] order@.contains(k) <==> founded(
                nodes,
                front@,
                floor,
                k as int,
            )) by {
                if order@.len() > had.len() {
                    if order@.contains(k) && k < c {
                        let i = order@.index_of(k);
                        assert(order@[i] == k);
                        let p = order@.index_of(c as u32);
                        assert(order@.contains(c as u32));
                        assert(had.contains(k)) by {
                            assert(order@.to_set().contains(k));
                            insert_keeps(had, order@, c as u32, k);
                        }
                    }
                    if had.contains(k) {
                        insert_has(had, order@, c as u32, k);
                    }
                    if k == c {
                        assert(order@.contains(k));
                    }
                } else if k == c {
                    assert(!had.contains(k)) by {
                        if had.contains(k) {
                            let i = had.index_of(k);
                            assert(had[i] < c);
                        }
                    }
                }
            }
        }
        c = c + 1;
    }
    proof {
        assert forall|k: u32| #[trigger] order@.contains(k) <==> founded(
            nodes,
            front@,
            floor,
            k as int,
        ) by {
            if k >= n && order@.contains(k) {
                let i = order@.index_of(k);
                assert(order@[i] < n);
            }
        }
        assert(by_age(nodes, front@, floor, order@));
        let chosen = age_order(nodes, front@, floor);
        assert(by_age(nodes, front@, floor, chosen));
        assert forall|x: u32| #[trigger] order@.contains(x) <==> chosen.contains(x) by {
            assert(order@.contains(x) <==> founded(nodes, front@, floor, x as int));
            assert(chosen.contains(x) <==> founded(nodes, front@, floor, x as int));
        }
        strictly_unique(order@, chosen, older(nodes));
    }
    let mut out: Vec<(u32, u32)> = Vec::new();
    let mut i: usize = 0;
    while i < order.len()
        invariant
            i <= order@.len(),
            territory.wf(),
            nodes == territory.nodes@,
            forall|k: int| 0 <= k < order@.len() ==> (#[trigger] order@[k]) < nodes.len(),
            out@ == sited(nodes, order@, i as nat),
        decreases order.len() - i,
    {
        let c: u32 = order[i];
        assert(order@[i as int] < nodes.len());
        let seat: u32 = founding_district(territory, c);
        let mut held: bool = false;
        let mut k: usize = 0;
        while k < out.len()
            invariant
                k <= out@.len(),
                held == exists|j: int| 0 <= j < k && (#[trigger] out@[j]).1 == seat,
            decreases out.len() - k,
        {
            if out[k].1 == seat {
                assert(out@[k as int].1 == seat);
                held = true;
            }
            k = k + 1;
        }
        if !held {
            out.push((c, seat));
        }
        i = i + 1;
    }
    out
}

proof fn insert_keeps(a: Seq<u32>, b: Seq<u32>, x: u32, k: u32)
    requires
        exists|p: int| 0 <= p <= a.len() && b == #[trigger] a.insert(p, x),
        b.contains(k),
        k != x,
    ensures
        a.contains(k),
{
    let p = choose|p: int| 0 <= p <= a.len() && b == #[trigger] a.insert(p, x);
    let i = b.index_of(k);
    assert(b[i] == k);
    let j = if i < p {
        i
    } else {
        i - 1
    };
    assert(a[j] == k);
}

proof fn insert_has(a: Seq<u32>, b: Seq<u32>, x: u32, k: u32)
    requires
        exists|p: int| 0 <= p <= a.len() && b == #[trigger] a.insert(p, x),
        a.contains(k),
    ensures
        b.contains(k),
{
    let p = choose|p: int| 0 <= p <= a.len() && b == #[trigger] a.insert(p, x);
    let i = a.index_of(k);
    assert(a[i] == k);
    let j = if i < p {
        i
    } else {
        i + 1
    };
    assert(b[j] == k);
}

/// A quarter to found: its package, the directory that its age is read from, the
/// growth index of that, and the top-level package that it is drawn to.
#[derive(Debug, Clone, Copy, PartialEq, Eq, Structural)]
pub struct Quarter {
    /// The package.
    pub package: u32,
    /// The directory that its age is read from.
    pub seat: u32,
    /// The growth index of its ground.
    pub born: u32,
    /// The top-level package.
    pub kin: u32,
}

/// The quarter of a package.
pub open spec fn quarter_of(territory: Territory, kin: Seq<u32>, p: (u32, u32)) -> Quarter {
    Quarter {
        package: p.0,
        seat: p.1,
        born: territory.nodes@[p.1 as int].own_oldest,
        kin: kin[p.0 as int],
    }
}

/// The quarters to found, the oldest first; none where fewer than two packages
/// would have one, for a town with one quarter needs no plan.
pub fn founding_plan(territory: &Territory, packages: &Vec<(u32, u32)>, kin: &Vec<u32>) -> (r: Vec<
    Quarter,
>)
    requires
        kin@.len() == territory.nodes@.len(),
        forall|i: int|
            0 <= i < packages@.len() ==> (#[trigger] packages@[i]).0 < territory.nodes@.len()
                && packages@[i].1 < territory.nodes@.len(),
    ensures
        packages@.len() < 2 ==> r@.len() == 0,
        packages@.len() >= 2 ==> r@.len() == packages@.len() && forall|i: int|
            0 <= i < r@.len() ==> #[trigger] r@[i] == quarter_of(*territory, kin@, packages@[i]),
        forall|i: int|
            0 <= i < r@.len() ==> {
                &&& (#[trigger] r@[i]).package == packages@[i].0
                &&& r@[i].seat == packages@[i].1
                &&& r@[i].born == territory.nodes@[packages@[i].1 as int].own_oldest
                &&& r@[i].kin == kin@[packages@[i].0 as int]
            },
{
    let mut out: Vec<Quarter> = Vec::new();
    if packages.len() < 2 {
        return out;
    }
    let mut i: usize = 0;
    while i < packages.len()
        invariant
            i <= packages@.len(),
            kin@.len() == territory.nodes@.len(),
            forall|k: int|
                0 <= k < packages@.len() ==> (#[trigger] packages@[k]).0 < territory.nodes@.len()
                    && packages@[k].1 < territory.nodes@.len(),
            out@.len() == i,
            forall|k: int|
                0 <= k < i ==> #[trigger] out@[k] == quarter_of(*territory, kin@, packages@[k]),
        decreases packages.len() - i,
    {
        let (package, seat): (u32, u32) = packages[i];
        assert(packages@[i as int].0 < territory.nodes@.len());
        out.push(
            Quarter {
                package,
                seat,
                born: territory.nodes[seat as usize].own_oldest,
                kin: kin[package as usize],
            },
        );
        i = i + 1;
    }
    out
}

proof fn kids_upto(nodes: Seq<Node>, d: int, n: nat)
    requires
        n <= nodes.len(),
        0 <= d <= u32::MAX,
    ensures
        kid_count(nodes, d, n) == nodes.take(n as int).filter(
            |x: Node| x.parent == Some(d as u32) && x.subtree_files > 0,
        ).len(),
    decreases n,
{
    let test = |x: Node| x.parent == Some(d as u32) && x.subtree_files > 0;
    if n == 0 {
        filter_none(nodes, test);
    } else {
        kids_upto(nodes, d, (n - 1) as nat);
        filter_step(nodes, test, n);
    }
}

proof fn marks_upto(v: Seq<bool>, n: nat)
    requires
        n <= v.len(),
    ensures
        marked(v, n) == v.take(n as int).filter(|x: bool| x).len(),
    decreases n,
{
    let test = |x: bool| x;
    if n == 0 {
        filter_none(v, test);
    } else {
        marks_upto(v, (n - 1) as nat);
        filter_step(v, test, n);
    }
}

/// A quarter is split where it is one, was not split before, has more files than one may
/// have, and at least two directories with files lie directly in it.
pub proof fn large_quarters_with_parts_are_split(nodes: Seq<Node>, q: Quarters, ceiling: u32, d: int)
    requires
        0 <= d < nodes.len() <= u32::MAX,
    ensures
        splits(nodes, q, ceiling, d) <==> {
            &&& q.front[d] && !q.split[d]
            &&& nodes[d].subtree_files > ceiling
            &&& nodes.filter(|x: Node| x.parent == Some(d as u32) && x.subtree_files > 0).len() > 1
        },
{
    kids_upto(nodes, d, nodes.len());
    take_all(nodes);
}

/// The quarters to begin with are the directories with files directly below the root, none
/// of them split.
pub proof fn the_first_quarters_are_the_packages(nodes: Seq<Node>)
    ensures
        first_quarters(nodes).front.len() == nodes.len(),
        first_quarters(nodes).split.len() == nodes.len(),
        forall|c: int|
            0 <= c < nodes.len() ==> (#[trigger] first_quarters(nodes).front[c] <==> nodes[c].parent
                == Some(0u32) && nodes[c].subtree_files >= 1),
        forall|c: int| 0 <= c < nodes.len() ==> !(#[trigger] first_quarters(nodes).split[c]),
{
}

/// Splitting goes on from the largest quarter that may be split, the first listed where
/// several are as large: its parts become quarters and it stays one only where it
/// has files of its own. It ends once there are fourteen, or none is left to split.
pub proof fn the_largest_quarter_is_split_next(nodes: Seq<Node>, q: Quarters, ceiling: u32, d: int)
    requires
        q.front.len() == nodes.len(),
        q.split.len() == nodes.len(),
        0 <= d < nodes.len() <= u32::MAX,
    ensures
        q.front.filter(|x: bool| x).len() >= 14 ==> final_quarters(nodes, q, ceiling) == q.front,
        (forall|k: int| 0 <= k < nodes.len() ==> !(#[trigger] splits(nodes, q, ceiling, k)))
            ==> final_quarters(nodes, q, ceiling) == q.front,
        q.front.filter(|x: bool| x).len() < 14 && splits(nodes, q, ceiling, d) && (forall|k: int|
            0 <= k < nodes.len() && #[trigger] splits(nodes, q, ceiling, k)
                ==> nodes[d].subtree_files >= nodes[k].subtree_files && (nodes[d].subtree_files
                == nodes[k].subtree_files ==> d <= k)) ==> final_quarters(nodes, q, ceiling)
            == final_quarters(
            nodes,
            (Quarters {
                front: Seq::new(
                    nodes.len(),
                    |c: int|
                        (nodes[c].parent == Some(d as u32) && nodes[c].subtree_files > 0) || (
                        q.front[c] && (c != d || nodes[d].own_files > 0)),
                ),
                split: q.split.update(d, true),
            }),
            ceiling,
        ),
{
    marks_upto(q.front, nodes.len());
    take_all(q.front);
    if q.front.filter(|x: bool| x).len() < 14 && splits(nodes, q, ceiling, d) && (forall|k: int|
        0 <= k < nodes.len() && #[trigger] splits(nodes, q, ceiling, k) ==> nodes[d].subtree_files
            >= nodes[k].subtree_files && (nodes[d].subtree_files == nodes[k].subtree_files ==> d
            <= k)) {
        assert(splits_next(nodes, q, ceiling, d));
        let e = choose|e: int| splits_next(nodes, q, ceiling, e);
        assert(e == d) by {
            assert(splits(nodes, q, ceiling, e) && splits(nodes, q, ceiling, d));
        }
        let after = Seq::new(
            nodes.len(),
            |c: int|
                (nodes[c].parent == Some(d as u32) && nodes[c].subtree_files > 0) || (q.front[c]
                    && (c != d || nodes[d].own_files > 0)),
        );
        assert(after_split(nodes, q, d).front =~= after);
    }
    if forall|k: int| 0 <= k < nodes.len() ==> !(#[trigger] splits(nodes, q, ceiling, k)) {
        assert forall|e: int| !splits_next(nodes, q, ceiling, e) by {
            assert(!splits(nodes, q, ceiling, e));
        }
    }
}

proof fn bigger_upto(nodes: Seq<Node>, front: Seq<bool>, floor: u32, c: int, n: nat)
    requires
        n <= nodes.len(),
    ensures
        bigger_count(nodes, front, floor, c, n) == Seq::new(nodes.len(), |k: int| k).take(
            n as int,
        ).filter(
            |k: int|
                front[k] && nodes[k].subtree_files >= floor && (nodes[k].subtree_files
                    > nodes[c].subtree_files || (nodes[k].subtree_files == nodes[c].subtree_files
                    && (nodes[k].oldest < nodes[c].oldest || (nodes[k].oldest == nodes[c].oldest
                    && k < c)))),
        ).len(),
    decreases n,
{
    let all = Seq::new(nodes.len(), |k: int| k);
    let test = |k: int|
        front[k] && nodes[k].subtree_files >= floor && (nodes[k].subtree_files
            > nodes[c].subtree_files || (nodes[k].subtree_files == nodes[c].subtree_files && (
        nodes[k].oldest < nodes[c].oldest || (nodes[k].oldest == nodes[c].oldest && k < c))));
    if n == 0 {
        filter_none(all, test);
    } else {
        bigger_upto(nodes, front, floor, c, (n - 1) as nat);
        filter_step(all, test, n);
    }
}

/// A quarter is founded where it has as many files as one needs and fewer than fourteen
/// such quarters stand before it: those with more files, then the older, then those
/// listed first.
pub proof fn the_largest_quarters_are_founded(
    nodes: Seq<Node>,
    front: Seq<bool>,
    floor: u32,
    c: int,
)
    requires
        0 <= c < nodes.len(),
    ensures
        founded(nodes, front, floor, c) <==> {
            &&& front[c] && nodes[c].subtree_files >= floor
            &&& Seq::new(nodes.len(), |k: int| k).filter(
                |k: int|
                    front[k] && nodes[k].subtree_files >= floor && (nodes[k].subtree_files
                        > nodes[c].subtree_files || (nodes[k].subtree_files
                        == nodes[c].subtree_files && (nodes[k].oldest < nodes[c].oldest || (
                    nodes[k].oldest == nodes[c].oldest && k < c)))),
            ).len() < 14
        },
{
    bigger_upto(nodes, front, floor, c, nodes.len());
    take_all(Seq::new(nodes.len(), |k: int| k));
}

/// The founded quarters are listed each once, the oldest first, and of those as old the
/// first listed.
pub proof fn quarters_are_founded_by_age(
    nodes: Seq<Node>,
    front: Seq<bool>,
    floor: u32,
    order: Seq<u32>,
)
    requires
        by_age(nodes, front, floor, order),
    ensures
        forall|c: u32| #[trigger] order.contains(c) <==> founded(nodes, front, floor, c as int),
        forall|i: int, j: int|
            0 <= i < j < order.len() ==> {
                let (a, b) = (#[trigger] order[i], #[trigger] order[j]);
                nodes[a as int].oldest < nodes[b as int].oldest || (nodes[a as int].oldest
                    == nodes[b as int].oldest && a < b)
            },
{
    let first = older(nodes);
    assert forall|i: int, j: int| 0 <= i < j < order.len() implies {
        let (a, b) = (#[trigger] order[i], #[trigger] order[j]);
        nodes[a as int].oldest < nodes[b as int].oldest || (nodes[a as int].oldest
            == nodes[b as int].oldest && a < b)
    } by {
        assert(first(order[i], order[j]));
    }
}

/// A package's seat is the package or a directory in it with files of its own, none of
/// which has an older file, and the first listed where several are as old.
pub proof fn a_seat_holds_the_oldest_file(nodes: Seq<Node>, pkg: int, d: int)
    ensures
        is_seat(nodes, pkg, d) <==> {
            &&& 0 <= d < nodes.len()
            &&& d == pkg || (above(parents(nodes), pkg, d) && nodes[d].own_files > 0)
            &&& forall|k: int|
                0 <= k < nodes.len() && (k == pkg || (above(parents(nodes), pkg, k)
                    && nodes[k].own_files > 0)) ==> nodes[d].own_oldest <= (
                #[trigger] nodes[k]).own_oldest && (nodes[d].own_oldest == nodes[k].own_oldest
                    ==> d <= k)
        },
{
    if is_seat(nodes, pkg, d) {
        assert forall|k: int|
            0 <= k < nodes.len() && (k == pkg || (above(parents(nodes), pkg, k)
                && nodes[k].own_files > 0)) implies nodes[d].own_oldest <= (
        #[trigger] nodes[k]).own_oldest && (nodes[d].own_oldest == nodes[k].own_oldest ==> d
            <= k) by {
            if k != d {
                assert(could_seat(nodes, pkg, k));
            }
        }
    }
}

/// One more package gets its seat after the others, unless one of them has taken it.
pub proof fn a_seat_is_taken_once(nodes: Seq<Node>, order: Seq<u32>, n: nat)
    requires
        n < order.len(),
    ensures
        sited(nodes, order, 0).len() == 0,
        ({
            let had = sited(nodes, order, n);
            let seat = seat_in(nodes, order[n as int] as int) as u32;
            sited(nodes, order, n + 1) == if had.map_values(|x: (u32, u32)| x.1).contains(seat) {
                had
            } else {
                had.push((order[n as int], seat))
            }
        }),
{
    let had = sited(nodes, order, n);
    let seats = had.map_values(|x: (u32, u32)| x.1);
    let seat = seat_in(nodes, order[n as int] as int) as u32;
    if seats.contains(seat) {
        let i = seats.index_of(seat);
        assert(had[i].1 == seat);
    }
    if exists|i: int| 0 <= i < had.len() && (#[trigger] had[i]).1 == seat {
        let i = choose|i: int| 0 <= i < had.len() && (#[trigger] had[i]).1 == seat;
        assert(seats[i] == seat);
    }
}

/// A quarter has at least twelve files. The fewest that it has, and the most before it is
/// split, are nearest to twelve thousandths and to twenty-six hundredths of all files, and
/// neither is less in a larger repository.
pub proof fn quarters_grow_with_the_repository(
    files: u32,
    more: u32,
    a: (u32, u32),
    b: (u32, u32),
)
    requires
        quarter_bounds.ensures((files,), a),
        quarter_bounds.ensures((more,), b),
        0 < files <= more,
    ensures
        a.0 >= 12,
        a.0 > 12 ==> -500 <= 12 * files - 1000 * a.0 < 500,
        a.0 == 12 ==> 12 * files < 12_500,
        -50 <= 26 * files - 100 * a.1 < 50,
        a.0 <= b.0,
        a.1 <= b.1,
{
}

} // verus!
