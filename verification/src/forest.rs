//! Connectedness: paths over a relation, and the disjoint sets that find it.
use vstd::prelude::*;

verus! {

/// Is every step of the path one that the relation makes, in either direction?
pub open spec fn steps(rel: spec_fn(int, int) -> bool, p: Seq<int>) -> bool {
    forall|i: int|
        0 <= i < p.len() - 1 ==> rel(#[trigger] p[i], p[i + 1]) || rel(p[i + 1], p[i])
}

/// Does the path lead from one to the other?
pub open spec fn leads(rel: spec_fn(int, int) -> bool, p: Seq<int>, a: int, b: int) -> bool {
    p.len() > 0 && p[0] == a && p.last() == b && steps(rel, p)
}

/// Are the two connected?
pub open spec fn linked(rel: spec_fn(int, int) -> bool, a: int, b: int) -> bool {
    exists|p: Seq<int>| leads(rel, p, a, b)
}

/// Everything is connected to itself.
pub proof fn linked_self(rel: spec_fn(int, int) -> bool, a: int)
    ensures
        linked(rel, a, a),
{
    assert(leads(rel, seq![a], a, a));
}

/// One step connects.
pub proof fn linked_step(rel: spec_fn(int, int) -> bool, a: int, b: int)
    requires
        rel(a, b) || rel(b, a),
    ensures
        linked(rel, a, b),
{
    let p = seq![a, b];
    assert(leads(rel, p, a, b));
}

/// What is connected one way is connected the other.
pub proof fn linked_back(rel: spec_fn(int, int) -> bool, a: int, b: int)
    requires
        linked(rel, a, b),
    ensures
        linked(rel, b, a),
{
    let p = choose|p: Seq<int>| leads(rel, p, a, b);
    let q = p.reverse();
    assert forall|i: int| 0 <= i < q.len() - 1 implies rel(#[trigger] q[i], q[i + 1]) || rel(
        q[i + 1],
        q[i],
    ) by {
        let k = p.len() - 2 - i;
        assert(q[i] == p[k + 1] && q[i + 1] == p[k]);
        assert(rel(p[k], p[k + 1]) || rel(p[k + 1], p[k]));
    }
    assert(leads(rel, q, b, a));
}

/// Connections join up.
pub proof fn linked_on(rel: spec_fn(int, int) -> bool, a: int, b: int, c: int)
    requires
        linked(rel, a, b),
        linked(rel, b, c),
    ensures
        linked(rel, a, c),
{
    let p = choose|p: Seq<int>| leads(rel, p, a, b);
    let q = choose|q: Seq<int>| leads(rel, q, b, c);
    let r = p + q.drop_first();
    assert forall|i: int| 0 <= i < r.len() - 1 implies rel(#[trigger] r[i], r[i + 1]) || rel(
        r[i + 1],
        r[i],
    ) by {
        if i < p.len() - 1 {
            assert(r[i] == p[i] && r[i + 1] == p[i + 1]);
        } else {
            let k = i - p.len() + 1;
            assert(r[i + 1] == q[k + 1]);
            assert(r[i] == q[k]);
            assert(rel(q[k], q[k + 1]) || rel(q[k + 1], q[k]));
        }
    }
    assert(leads(rel, r, a, c));
}

/// More steps connect no less.
pub proof fn linked_more(
    rel: spec_fn(int, int) -> bool,
    wider: spec_fn(int, int) -> bool,
    a: int,
    b: int,
)
    requires
        linked(rel, a, b),
        forall|x: int, y: int| #[trigger] rel(x, y) ==> wider(x, y) || wider(y, x),
    ensures
        linked(wider, a, b),
{
    let p = choose|p: Seq<int>| leads(rel, p, a, b);
    assert forall|i: int| 0 <= i < p.len() - 1 implies wider(#[trigger] p[i], p[i + 1]) || wider(
        p[i + 1],
        p[i],
    ) by {
        assert(rel(p[i], p[i + 1]) || rel(p[i + 1], p[i]));
    }
    assert(leads(wider, p, a, b));
}

/// Where every step of one relation is a connection of another, so is every
/// connection.
pub proof fn linked_through(
    rel: spec_fn(int, int) -> bool,
    other: spec_fn(int, int) -> bool,
    a: int,
    b: int,
)
    requires
        linked(rel, a, b),
        forall|x: int, y: int| #[trigger] rel(x, y) ==> linked(other, x, y),
    ensures
        linked(other, a, b),
{
    let p = choose|p: Seq<int>| leads(rel, p, a, b);
    path_through(rel, other, p, p.len() - 1);
}

proof fn path_through(
    rel: spec_fn(int, int) -> bool,
    other: spec_fn(int, int) -> bool,
    p: Seq<int>,
    n: int,
)
    requires
        steps(rel, p),
        0 <= n < p.len(),
        forall|x: int, y: int| #[trigger] rel(x, y) ==> linked(other, x, y),
    ensures
        linked(other, p[0], p[n]),
    decreases n,
{
    if n == 0 {
        linked_self(other, p[0]);
    } else {
        path_through(rel, other, p, n - 1);
        let x = p[n - 1];
        let y = p[n - 1 + 1];
        assert(rel(x, y) || rel(y, x));
        if rel(y, x) {
            linked_back(other, y, x);
        }
        linked_on(other, p[0], x, y);
    }
}

/// What every step keeps, a connection keeps.
pub proof fn linked_keeps(
    rel: spec_fn(int, int) -> bool,
    same: spec_fn(int) -> int,
    a: int,
    b: int,
)
    requires
        linked(rel, a, b),
        forall|x: int, y: int| #[trigger] rel(x, y) ==> same(x) == same(y),
    ensures
        same(a) == same(b),
{
    let p = choose|p: Seq<int>| leads(rel, p, a, b);
    path_keeps(rel, same, p, p.len() - 1);
}

proof fn path_keeps(rel: spec_fn(int, int) -> bool, same: spec_fn(int) -> int, p: Seq<int>, n: int)
    requires
        steps(rel, p),
        0 <= n < p.len(),
        forall|x: int, y: int| #[trigger] rel(x, y) ==> same(x) == same(y),
    ensures
        same(p[n]) == same(p[0]),
    decreases n,
{
    if n > 0 {
        path_keeps(rel, same, p, n - 1);
        assert(rel(p[n - 1], p[n - 1 + 1]) || rel(p[n], p[n - 1]));
    }
}

/// A parent for each item, none behind the item itself.
pub open spec fn parents_ok(parent: Seq<u32>) -> bool {
    forall|i: int| 0 <= i < parent.len() ==> (#[trigger] parent[i]) <= i
}

/// The item at the end of the parents.
pub open spec fn root_of(parent: Seq<u32>, i: int) -> int
    decreases i,
{
    if i < 0 || i >= parent.len() || parent[i] >= i {
        i
    } else {
        root_of(parent, parent[i] as int)
    }
}

/// A root lies among the items, no further than what it is the root of, and is
/// its own parent.
pub proof fn root_of_bounds(parent: Seq<u32>, i: int)
    requires
        parents_ok(parent),
        0 <= i < parent.len(),
    ensures
        0 <= root_of(parent, i) <= i,
        parent[root_of(parent, i)] == root_of(parent, i),
        root_of(parent, root_of(parent, i)) == root_of(parent, i),
    decreases i,
{
    if parent[i] < i {
        root_of_bounds(parent, parent[i] as int);
    }
}

/// Disjoint sets: items joined so far, each set known by its first item.
#[derive(Debug)]
pub struct DisjointSets {
    parent: Vec<u32>,
}

/// The items that stand alone: each is its own set.
pub open spec fn alone(n: int) -> Seq<int> {
    Seq::new(n as nat, |i: int| i)
}

/// The sets with the sets of two items made one.
pub open spec fn joined(first: Seq<int>, a: int, b: int) -> Seq<int> {
    let low = if first[a] < first[b] {
        first[a]
    } else {
        first[b]
    };
    let high = if first[a] < first[b] {
        first[b]
    } else {
        first[a]
    };
    Seq::new(
        first.len(),
        |i: int|
            if first[i] == high {
                low
            } else {
                first[i]
            },
    )
}

/// Pointing an item at an item of the same set, not further back, keeps the sets.
proof fn shortcut_keeps(parent: Seq<u32>, x: int, y: u32, i: int)
    requires
        parents_ok(parent),
        0 <= x < parent.len(),
        y <= x,
        y < x || parent[x] == x,
        root_of(parent, y as int) == root_of(parent, x),
        0 <= i < parent.len(),
    ensures
        root_of(parent.update(x, y), i) == root_of(parent, i),
    decreases i,
{
    let q = parent.update(x, y);
    assert(parents_ok(q));
    if i == x {
        if y < x {
            shortcut_keeps(parent, x, y, y as int);
        }
    } else if parent[i] < i {
        shortcut_keeps(parent, x, y, parent[i] as int);
    }
}

/// Pointing one root at an earlier one joins their sets.
proof fn join_roots(parent: Seq<u32>, high: int, low: u32, i: int)
    requires
        parents_ok(parent),
        0 <= low < high < parent.len(),
        parent[high] == high,
        parent[low as int] == low,
        0 <= i < parent.len(),
    ensures
        root_of(parent.update(high, low), i) == if root_of(parent, i) == high {
            low as int
        } else {
            root_of(parent, i)
        },
    decreases i,
{
    let q = parent.update(high, low);
    if i == high {
        assert(root_of(q, low as int) == low);
    } else if parent[i] < i {
        join_roots(parent, high, low, parent[i] as int);
    }
}

impl DisjointSets {
    /// The parents run backwards.
    pub closed spec fn wf(self) -> bool {
        parents_ok(self.parent@) && self.parent@.len() <= u32::MAX
    }

    /// The first item of each item's set.
    pub closed spec fn view(self) -> Seq<int> {
        Seq::new(self.parent@.len(), |i: int| root_of(self.parent@, i))
    }

    /// Items that stand alone.
    pub fn new(n: usize) -> (r: Self)
        requires
            n <= u32::MAX,
        ensures
            r.wf(),
            r@ == alone(n as int),
    {
        let mut parent: Vec<u32> = Vec::new();
        let mut i: usize = 0;
        while i < n
            invariant
                i <= n <= u32::MAX,
                parent.len() == i,
                forall|k: int| 0 <= k < i ==> #[trigger] parent@[k] == k,
            decreases n - i,
        {
            parent.push(i as u32);
            i = i + 1;
        }
        let r: Self = DisjointSets { parent };
        assert(r@ =~= alone(n as int));
        r
    }

    /// The first item of an item's set. Shortens the way to it for later.
    pub fn find(&mut self, x: u32) -> (r: u32)
        requires
            old(self).wf(),
            x < old(self)@.len(),
        ensures
            final(self).wf(),
            final(self)@ == old(self)@,
            r == old(self)@[x as int],
            r <= x,
            final(self)@[r as int] == r,
    {
        let ghost start = self.parent@;
        let ghost n = start.len();
        let mut x: u32 = x;
        let ghost root = root_of(start, x as int);
        proof {
            root_of_bounds(start, x as int);
        }
        while self.parent[x as usize] != x
            invariant
                self.wf(),
                self.parent@.len() == n == start.len(),
                x < n,
                root <= x,
                root_of(self.parent@, x as int) == root,
                forall|i: int|
                    0 <= i < n ==> root_of(self.parent@, i) == #[trigger] root_of(start, i),
            decreases x,
        {
            let up: u32 = self.parent[x as usize];
            let over: u32 = self.parent[up as usize];
            let ghost before = self.parent@;
            proof {
                assert(before[x as int] < x);
                assert(before[up as int] <= up);
                assert(root_of(before, x as int) == root_of(before, up as int));
                assert(root_of(before, up as int) == root_of(before, over as int));
                assert(root_of(before, over as int) == root_of(start, over as int));
                assert forall|i: int| 0 <= i < n implies root_of(
                    before.update(x as int, over),
                    i,
                ) == #[trigger] root_of(start, i) by {
                    shortcut_keeps(before, x as int, over, i);
                }
            }
            self.parent[x as usize] = over;
            proof {
                root_of_bounds(self.parent@, over as int);
            }
            x = over;
        }
        assert(self@ =~= Seq::new(n, |i: int| root_of(start, i)));
        assert(self@[x as int] == x);
        x
    }

    /// Makes the sets of two items one; says whether they were two.
    pub fn join(&mut self, a: u32, b: u32) -> (r: bool)
        requires
            old(self).wf(),
            a < old(self)@.len(),
            b < old(self)@.len(),
        ensures
            final(self).wf(),
            final(self)@ == joined(old(self)@, a as int, b as int),
            r == (old(self)@[a as int] != old(self)@[b as int]),
    {
        let ra: u32 = self.find(a);
        let rb: u32 = self.find(b);
        let ghost before = self.parent@;
        let ghost first = self@;
        proof {
            root_of_bounds(before, a as int);
            root_of_bounds(before, b as int);
        }
        if ra == rb {
            assert(joined(first, a as int, b as int) =~= first);
            return false;
        }
        let low: u32 = if ra < rb {
            ra
        } else {
            rb
        };
        let high: u32 = if ra < rb {
            rb
        } else {
            ra
        };
        self.parent[high as usize] = low;
        proof {
            assert(self.parent@ =~= before.update(high as int, low));
            assert forall|i: int| 0 <= i < before.len() implies self@[i] == joined(
                first,
                a as int,
                b as int,
            )[i] by {
                join_roots(before, high as int, low, i);
            }
            assert(self@ =~= joined(first, a as int, b as int));
        }
        true
    }
}

/// The sets hold nothing but what the relation connects.
pub open spec fn sound(first: Seq<int>, rel: spec_fn(int, int) -> bool) -> bool {
    forall|i: int|
        0 <= i < first.len() ==> 0 <= (#[trigger] first[i]) <= i && linked(rel, first[i], i)
            && first[first[i]] == first[i]
}

/// Items that stand alone hold nothing that is not connected.
pub proof fn alone_sound(n: int, rel: spec_fn(int, int) -> bool)
    requires
        0 <= n,
    ensures
        sound(alone(n), rel),
{
    assert forall|i: int| 0 <= i < n implies linked(rel, alone(n)[i], i) by {
        linked_self(rel, i);
    }
}

/// Joining what the relation connects holds nothing that is not connected, and
/// keeps together what was together.
pub proof fn joined_sound(first: Seq<int>, rel: spec_fn(int, int) -> bool, a: int, b: int)
    requires
        sound(first, rel),
        0 <= a < first.len(),
        0 <= b < first.len(),
        linked(rel, a, b),
    ensures
        sound(joined(first, a, b), rel),
        joined(first, a, b)[a] == joined(first, a, b)[b],
        forall|i: int, j: int|
            0 <= i < first.len() && 0 <= j < first.len() && first[i] == first[j] ==> #[trigger]
                joined(first, a, b)[i] == #[trigger] joined(first, a, b)[j],
{
    let fa = first[a];
    let fb = first[b];
    linked_back(rel, fb, b);
    linked_on(rel, fa, a, b);
    linked_on(rel, fa, b, fb);
    linked_back(rel, fa, fb);
    let after = joined(first, a, b);
    let low = if fa < fb {
        fa
    } else {
        fb
    };
    let high = if fa < fb {
        fb
    } else {
        fa
    };
    assert(linked(rel, low, high));
    assert forall|i: int| 0 <= i < after.len() implies 0 <= (#[trigger] after[i]) <= i && linked(
        rel,
        after[i],
        i,
    ) && after[after[i]] == after[i] by {
        assert(0 <= first[i] <= i && linked(rel, first[i], i));
        assert(first[fa] == fa && first[fb] == fb);
        if first[i] == high {
            linked_on(rel, low, high, i);
        }
    }
}

/// Where the sets hold what the relation connects and every step lies within a
/// set, an item's set is known by the first item it is connected to: two items
/// are in one set exactly where they are connected.
pub proof fn sets_are_connections(first: Seq<int>, rel: spec_fn(int, int) -> bool)
    requires
        sound(first, rel),
        forall|x: int, y: int| #[trigger]
            rel(x, y) ==> 0 <= x < first.len() && 0 <= y < first.len() && first[x] == first[y],
    ensures
        forall|i: int, j: int|
            0 <= i < first.len() && 0 <= j < first.len() ==> (#[trigger] first[i]
                == #[trigger] first[j] <==> linked(rel, i, j)),
{
    let same = |i: int|
        if 0 <= i < first.len() {
            first[i]
        } else {
            -1
        };
    assert forall|i: int, j: int|
        0 <= i < first.len() && 0 <= j < first.len() implies (#[trigger] first[i]
        == #[trigger] first[j] <==> linked(rel, i, j)) by {
        if linked(rel, i, j) {
            assert forall|x: int, y: int| #[trigger] rel(x, y) implies same(x) == same(y) by {}
            linked_keeps(rel, same, i, j);
        }
        if first[i] == first[j] {
            linked_back(rel, first[i], i);
            linked_on(rel, i, first[i], j);
        }
    }
}

/// Joining makes one set of two and leaves all others as they are, and a set goes by its
/// first item.
pub proof fn joining_makes_one_set_of_two(first: Seq<int>, a: int, b: int, i: int, j: int)
    requires
        0 <= a < first.len(),
        0 <= b < first.len(),
        0 <= i < first.len(),
        0 <= j < first.len(),
    ensures
        ({
            let after = joined(first, a, b);
            let in_either = |x: int| first[x] == first[a] || first[x] == first[b];
            &&& after.len() == first.len()
            &&& after[i] == after[j] <==> first[i] == first[j] || (in_either(i) && in_either(j))
            &&& !in_either(i) ==> after[i] == first[i]
            &&& in_either(i) ==> after[i] <= first[a] && after[i] <= first[b] && (after[i]
                == first[a] || after[i] == first[b])
        }),
{
}

/// Items that stand alone are each a set of their own.
pub proof fn alone_are_sets_of_one(n: int, i: int)
    requires
        0 <= i < n,
    ensures
        alone(n).len() == n,
        alone(n)[i] == i,
{
}

} // verus!
