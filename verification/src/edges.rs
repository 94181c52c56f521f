//! Which two faces each edge separates, read off the faces' own lists of edges.
use vstd::prelude::*;
use std::collections::BTreeMap;

verus! {

/// How often an edge stands in a list.
pub open spec fn times(list: Seq<int>, e: int) -> nat
    decreases list.len(),
{
    if list.len() == 0 {
        0
    } else {
        times(list.drop_last(), e) + if list.last() == e {
            1nat
        } else {
            0nat
        }
    }
}

/// The first `n` lists that an edge stands in, each as often as it does.
pub open spec fn touching(lists: Seq<Seq<int>>, e: int, n: nat) -> Seq<int>
    decreases n,
{
    if n == 0 || n > lists.len() {
        seq![]
    } else {
        touching(lists, e, (n - 1) as nat) + Seq::new(times(lists[n - 1], e), |k: int| n - 1)
    }
}

/// The lists that an edge stands in, each as often as it does.
pub open spec fn faces_at(lists: Seq<Seq<int>>, e: int) -> Seq<int> {
    touching(lists, e, lists.len())
}

/// What is touched lies among the lists.
pub proof fn touching_bounds(lists: Seq<Seq<int>>, e: int, n: nat)
    requires
        n <= lists.len(),
    ensures
        forall|k: int|
            0 <= k < touching(lists, e, n).len() ==> 0 <= (#[trigger] touching(lists, e, n)[k]) < n,
    decreases n,
{
    if n > 0 {
        touching_bounds(lists, e, (n - 1) as nat);
        let before = touching(lists, e, (n - 1) as nat);
        let all = touching(lists, e, n);
        assert forall|k: int| 0 <= k < all.len() implies 0 <= (#[trigger] all[k]) < n by {
            if k < before.len() {
                assert(all[k] == before[k]);
            }
        }
    }
}

/// Each face's edges: the edge of a half-edge is half its number.
pub open spec fn halved(h: Seq<usize>) -> Seq<int> {
    Seq::new(h.len(), |i: int| h[i] as int / 2)
}

/// The edges of every face.
pub open spec fn halved_all(faces: Seq<Vec<usize>>) -> Seq<Seq<int>> {
    Seq::new(faces.len(), |i: int| halved(faces[i]@))
}

/// A list of edges, as mathematics.
pub open spec fn whole(h: Seq<usize>) -> Seq<int> {
    Seq::new(h.len(), |i: int| h[i] as int)
}

/// Lists of edges, as mathematics.
pub open spec fn whole_all(faces: Seq<Vec<usize>>) -> Seq<Seq<int>> {
    Seq::new(faces.len(), |i: int| whole(faces[i]@))
}

/// Places, as mathematics.
pub open spec fn places(v: Seq<u32>) -> Seq<int> {
    Seq::new(v.len(), |i: int| v[i] as int)
}

/// The lists that each edge stands in.
#[derive(Debug)]
pub struct EdgeTable {
    at: BTreeMap<usize, Vec<u32>>,
}

impl EdgeTable {
    /// What the table holds for an edge.
    pub closed spec fn faces(self, e: int) -> Seq<int> {
        if 0 <= e <= usize::MAX && self.at@.dom().contains(e as usize) {
            places(self.at@[e as usize]@)
        } else {
            seq![]
        }
    }

    fn empty() -> (r: Self)
        ensures
            forall|e: int| #[trigger] r.faces(e) == Seq::<int>::empty(),
    {
        let r: Self = EdgeTable { at: BTreeMap::new() };
        r
    }

    fn put(&mut self, e: usize, face: u32)
        ensures
            forall|k: int|
                0 <= k <= usize::MAX ==> #[trigger] final(self).faces(k) == if k == e {
                    old(self).faces(k).push(face as int)
                } else {
                    old(self).faces(k)
                },
    {
        let ghost before = *self;
        let mut list: Vec<u32> = match self.at.remove(&e) {
            Some(v) => v,
            None => Vec::new(),
        };
        let ghost had = list@;
        assert(places(had) =~= before.faces(e as int));
        list.push(face);
        assert(places(list@) =~= places(had).push(face as int));
        self.at.insert(e, list);
        assert forall|k: int| 0 <= k <= usize::MAX implies #[trigger] self.faces(k) == if k == e {
            before.faces(k).push(face as int)
        } else {
            before.faces(k)
        } by {
            if k != e {
                assert(k as usize != e);
            }
        }
    }

    fn put_list(&mut self, list: &Vec<usize>, half: bool, face: u32)
        ensures
            forall|k: int|
                0 <= k <= usize::MAX ==> #[trigger] final(self).faces(k) == old(self).faces(k)
                    + Seq::new(
                    times(
                        if half {
                            halved(list@)
                        } else {
                            whole(list@)
                        },
                        k,
                    ),
                    |m: int| face as int,
                ),
    {
        let ghost all = if half {
            halved(list@)
        } else {
            whole(list@)
        };
        let ghost before = *self;
        let mut i: usize = 0;
        assert forall|k: int| 0 <= k <= usize::MAX implies #[trigger] self.faces(k) == before.faces(
            k,
        ) + Seq::new(times(all.subrange(0, 0), k), |m: int| face as int) by {
            assert(self.faces(k) =~= before.faces(k) + Seq::new(
                times(all.subrange(0, 0), k),
                |m: int| face as int,
            ));
        }
        while i < list.len()
            invariant
                i <= list.len() == all.len(),
                all == (if half {
                    halved(list@)
                } else {
                    whole(list@)
                }),
                forall|k: int|
                    0 <= k <= usize::MAX ==> #[trigger] self.faces(k) == before.faces(k)
                        + Seq::new(times(all.subrange(0, i as int), k), |m: int| face as int),
            decreases list.len() - i,
        {
            let e: usize = if half {
                list[i] / 2
            } else {
                list[i]
            };
            let ghost mid = *self;
            self.put(e, face);
            proof {
                assert(all.subrange(0, i + 1).drop_last() =~= all.subrange(0, i as int));
                assert(all.subrange(0, i + 1).last() == e);
                assert forall|k: int| 0 <= k <= usize::MAX implies #[trigger] self.faces(k)
                    == before.faces(k) + Seq::new(
                    times(all.subrange(0, i + 1), k),
                    |m: int| face as int,
                ) by {
                    assert(mid.faces(k) == before.faces(k) + Seq::new(
                        times(all.subrange(0, i as int), k),
                        |m: int| face as int,
                    ));
                    assert(self.faces(k) =~= before.faces(k) + Seq::new(
                        times(all.subrange(0, i + 1), k),
                        |m: int| face as int,
                    ));
                }
            }
            i = i + 1;
        }
        assert(all.subrange(0, i as int) =~= all);
    }

    /// Reads the table off the lists of edges or half-edges.
    pub fn build(lists: &Vec<Vec<usize>>, half: bool) -> (r: Self)
        requires
            lists@.len() <= u32::MAX,
        ensures
            forall|e: int|
                0 <= e <= usize::MAX ==> #[trigger] r.faces(e) == faces_at(
                    if half {
                        halved_all(lists@)
                    } else {
                        whole_all(lists@)
                    },
                    e,
                ),
    {
        let ghost all = if half {
            halved_all(lists@)
        } else {
            whole_all(lists@)
        };
        let mut r: Self = EdgeTable::empty();
        let mut i: usize = 0;
        while i < lists.len()
            invariant
                i <= lists.len() == all.len(),
                lists@.len() <= u32::MAX,
                all == (if half {
                    halved_all(lists@)
                } else {
                    whole_all(lists@)
                }),
                forall|e: int|
                    0 <= e <= usize::MAX ==> #[trigger] r.faces(e) == touching(all, e, i as nat),
            decreases lists.len() - i,
        {
            let ghost mid = r;
            r.put_list(&lists[i], half, i as u32);
            proof {
                assert forall|e: int| 0 <= e <= usize::MAX implies #[trigger] r.faces(e)
                    == touching(all, e, (i + 1) as nat) by {
                    assert(mid.faces(e) == touching(all, e, i as nat));
                    assert(r.faces(e) =~= touching(all, e, (i + 1) as nat));
                }
            }
            i = i + 1;
        }
        r
    }

    /// The first two lists that an edge stands in, and whether there are more.
    pub fn pair(&self, e: usize) -> (r: Option<(u32, u32, bool)>)
        ensures
            r is Some <==> self.faces(e as int).len() >= 2,
            r matches Some(p) ==> p.0 == self.faces(e as int)[0] && p.1 == self.faces(e as int)[1]
                && p.2 == (self.faces(e as int).len() > 2),
    {
        match self.at.get(&e) {
            Some(list) => {
                assert(self.faces(e as int) == places(list@));
                if list.len() >= 2 {
                    Some((list[0], list[1], list.len() > 2))
                } else {
                    None
                }
            },
            None => None,
        }
    }
}

/// An edge stands in a list as often as the list holds it.
pub proof fn edges_are_counted(list: Seq<int>, e: int)
    ensures
        times(list, e) == list.filter(|x: int| x == e).len(),
    decreases list.len(),
{
    reveal(Seq::filter);
    if list.len() > 0 {
        edges_are_counted(list.drop_last(), e);
    }
}

/// The faces at an edge come in their order, each as often as its list holds the edge and
/// no other.
pub proof fn faces_come_in_order(lists: Seq<Seq<int>>, e: int, f: int)
    requires
        0 <= f < lists.len(),
    ensures
        forall|i: int, j: int|
            0 <= i < j < faces_at(lists, e).len() ==> (#[trigger] faces_at(lists, e)[i]) <= (
            #[trigger] faces_at(lists, e)[j]),
        faces_at(lists, e).filter(|x: int| x == f).len() == lists[f].filter(
            |x: int| x == e,
        ).len(),
        forall|i: int|
            0 <= i < faces_at(lists, e).len() ==> 0 <= (#[trigger] faces_at(lists, e)[i])
                < lists.len(),
{
    touching_bounds(lists, e, lists.len());
    edges_are_counted(lists[f], e);
    touching_counts(lists, e, f, lists.len());
}

proof fn touching_counts(lists: Seq<Seq<int>>, e: int, f: int, n: nat)
    requires
        n <= lists.len(),
    ensures
        forall|i: int, j: int|
            0 <= i < j < touching(lists, e, n).len() ==> (#[trigger] touching(lists, e, n)[i]) <= (
            #[trigger] touching(lists, e, n)[j]),
        touching(lists, e, n).filter(|x: int| x == f).len() == if 0 <= f < n {
            times(lists[f], e)
        } else {
            0
        },
    decreases n,
{
    let test = |x: int| x == f;
    let all = touching(lists, e, n);
    reveal(Seq::filter);
    if n > 0 {
        let m = (n - 1) as nat;
        let before = touching(lists, e, m);
        let more = Seq::new(times(lists[n - 1], e), |k: int| n - 1);
        touching_counts(lists, e, f, m);
        touching_bounds(lists, e, m);
        assert(all == before + more);
        Seq::filter_distributes_over_add(before, more, test);
        all_alike(more, n - 1, f);
        assert forall|i: int, j: int| 0 <= i < j < all.len() implies (#[trigger] all[i]) <= (
        #[trigger] all[j]) by {
            if j < before.len() {
                assert(all[i] == before[i] && all[j] == before[j]);
            } else if i < before.len() {
                assert(all[i] == before[i]);
            }
        }
    }
}

proof fn all_alike(v: Seq<int>, x: int, f: int)
    requires
        forall|i: int| 0 <= i < v.len() ==> #[trigger] v[i] == x,
    ensures
        v.filter(|y: int| y == f).len() == if x == f {
            v.len()
        } else {
            0
        },
    decreases v.len(),
{
    reveal(Seq::filter);
    if v.len() > 0 {
        let rest = v.drop_last();
        assert forall|i: int| 0 <= i < rest.len() implies #[trigger] rest[i] == x by {
            assert(rest[i] == v[i]);
        }
        all_alike(rest, x, f);
        assert(v[v.len() - 1] == x);
    }
}

/// A half-edge and its opposite are one edge: the edge is half of either's number.
pub proof fn opposite_half_edges_are_one_edge(faces: Seq<Vec<usize>>, f: int, i: int)
    requires
        0 <= f < faces.len(),
        0 <= i < faces[f]@.len(),
    ensures
        halved_all(faces).len() == faces.len(),
        halved_all(faces)[f].len() == faces[f]@.len(),
        ({
            let (h, e) = (faces[f]@[i] as int, halved_all(faces)[f][i]);
            h == 2 * e || h == 2 * e + 1
        }),
        whole_all(faces).len() == faces.len(),
        whole_all(faces)[f].len() == faces[f]@.len(),
        whole_all(faces)[f][i] == faces[f]@[i],
        forall|v: Seq<u32>, k: int|
            0 <= k < v.len() ==> #[trigger] places(v)[k] == v[k] && places(v).len() == v.len(),
{
}

} // verus!
