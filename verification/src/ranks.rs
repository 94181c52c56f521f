//! Ranks: what stands at a place when some things are put in order, and the middle
//! things of the oldest and of the newest ground.
//!
//! What is put in order has a key of two numbers; what has none is left out.
use vstd::prelude::*;

verus! {

/// Does a thing stand before another: by its key, and by its number where the keys
/// are the same?
pub open spec fn stands_before(keys: Seq<Option<(i64, i64)>>, i: int, j: int) -> bool {
    let (a, b) = (keys[i]->0, keys[j]->0);
    ||| a.0 < b.0
    ||| a.0 == b.0 && a.1 < b.1
    ||| a.0 == b.0 && a.1 == b.1 && i < j
}

/// Has a thing a key?
pub open spec fn has_key(keys: Seq<Option<(i64, i64)>>, i: int) -> bool {
    0 <= i < keys.len() && keys[i] is Some
}

/// The things that stand before one.
pub open spec fn ahead_of(keys: Seq<Option<(i64, i64)>>, i: int) -> Set<int> {
    Set::new(|j: int| has_key(keys, j) && stands_before(keys, j, i))
}

/// The things that have a key.
pub open spec fn keyed(keys: Seq<Option<(i64, i64)>>) -> Set<int> {
    Set::new(|j: int| has_key(keys, j))
}

/// Does a thing stand at a place: do so many stand before it?
pub open spec fn at_rank(keys: Seq<Option<(i64, i64)>>, i: int, p: int) -> bool {
    has_key(keys, i) && ahead_of(keys, i).len() == p
}

fn is_before(keys: &Vec<Option<(i64, i64)>>, i: usize, j: usize) -> (r: bool)
    requires
        has_key(keys@, i as int),
        has_key(keys@, j as int),
    ensures
        r == stands_before(keys@, i as int, j as int),
{
    match (keys[i], keys[j]) {
        (Some(a), Some(b)) => a.0 < b.0 || (a.0 == b.0 && a.1 < b.1) || (a.0 == b.0 && a.1 == b.1
            && i < j),
        _ => false,
    }
}

/// The things that have a key, in order.
pub fn in_order(keys: &Vec<Option<(i64, i64)>>) -> (r: Vec<usize>)
    ensures
        r@.len() == keyed(keys@).len(),
        keyed(keys@).finite(),
        forall|p: int| 0 <= p < r@.len() ==> at_rank(keys@, #[trigger] r@[p] as int, p),
        forall|i: int| #[trigger] has_key(keys@, i) ==> r@.contains(i as usize),
{
    let mut out: Vec<usize> = Vec::new();
    let mut i: usize = 0;
    while i < keys.len()
        invariant
            i <= keys@.len(),
            forall|a: int, b: int|
                0 <= a < b < out@.len() ==> stands_before(
                    keys@,
                    #[trigger] out@[a] as int,
                    #[trigger] out@[b] as int,
                ),
            forall|a: int|
                0 <= a < out@.len() ==> out@[a] < i && has_key(keys@, #[trigger] out@[a] as int),
            forall|j: int| j < i && #[trigger] has_key(keys@, j) ==> out@.contains(j as usize),
        decreases keys.len() - i,
    {
        if keys[i].is_some() {
            let ghost was = out@;
            let mut p: usize = 0;
            while p < out.len() && is_before(keys, out[p], i)
                invariant
                    p <= out@.len(),
                    out@ == was,
                    has_key(keys@, i as int),
                    forall|a: int|
                        0 <= a < was.len() ==> was[a] < i && has_key(
                            keys@,
                            #[trigger] was[a] as int,
                        ),
                    forall|a: int|
                        0 <= a < p ==> stands_before(keys@, #[trigger] was[a] as int, i as int),
                decreases out.len() - p,
            {
                p = p + 1;
            }
            out.insert(p, i);
            proof {
                assert(out@ =~= was.insert(p as int, i));
                assert forall|a: int| p <= a < was.len() implies stands_before(
                    keys@,
                    i as int,
                    #[trigger] was[a] as int,
                ) by {
                    if a > p {
                        assert(stands_before(keys@, was[p as int] as int, was[a] as int));
                    }
                }
                assert forall|a: int, b: int| 0 <= a < b < out@.len() implies stands_before(
                    keys@,
                    #[trigger] out@[a] as int,
                    #[trigger] out@[b] as int,
                ) by {
                    let (s, t) = (
                        if a < p {
                            a
                        } else {
                            a - 1
                        },
                        if b < p {
                            b
                        } else {
                            b - 1
                        },
                    );
                    if a != p {
                        assert(out@[a] == was[s]);
                    }
                    if b != p {
                        assert(out@[b] == was[t]);
                    }
                }
                assert forall|a: int| 0 <= a < out@.len() implies out@[a] < i + 1 && has_key(
                    keys@,
                    #[trigger] out@[a] as int,
                ) by {
                    if a != p {
                        let s = if a < p {
                            a
                        } else {
                            a - 1
                        };
                        assert(out@[a] == was[s]);
                        assert(has_key(keys@, was[s] as int));
                    }
                }
                assert(out@[p as int] == i);
                assert forall|j: int| j < i + 1 && #[trigger] has_key(
                    keys@,
                    j,
                ) implies out@.contains(j as usize) by {
                    if j < i {
                        assert(was.contains(j as usize));
                        let s = was.index_of(j as usize);
                        assert(out@[if s < p {
                            s
                        } else {
                            s + 1
                        }] == j);
                    }
                }
            }
        }
        i = i + 1;
    }
    proof {
        places(keys@, out@, 0);
        assert forall|p: int| 0 <= p < out@.len() implies at_rank(
            keys@,
            #[trigger] out@[p] as int,
            p,
        ) by {
            places(keys@, out@, p);
        }
    }
    out
}

proof fn places(keys: Seq<Option<(i64, i64)>>, order: Seq<usize>, p: int)
    requires
        keys.len() <= usize::MAX,
        0 <= p <= order.len(),
        forall|a: int, b: int|
            0 <= a < b < order.len() ==> stands_before(
                keys,
                #[trigger] order[a] as int,
                #[trigger] order[b] as int,
            ),
        forall|a: int| 0 <= a < order.len() ==> has_key(keys, #[trigger] order[a] as int),
        forall|j: int| #[trigger] has_key(keys, j) ==> order.contains(j as usize),
    ensures
        p < order.len() ==> at_rank(keys, order[p] as int, p),
        keyed(keys).len() == order.len(),
        keyed(keys).finite(),
{
    let ints = Seq::new(order.len(), |a: int| order[a] as int);
    assert(ints.no_duplicates()) by {
        assert forall|a: int, b: int| 0 <= a < b < ints.len() implies ints[a] != ints[b] by {
            assert(stands_before(keys, order[a] as int, order[b] as int));
        }
    }
    ints.unique_seq_to_set();
    assert(ints.to_set() =~= keyed(keys)) by {
        assert forall|j: int| ints.to_set().contains(j) <==> keyed(keys).contains(j) by {
            if ints.contains(j) {
                assert(has_key(keys, order[ints.index_of(j)] as int));
            }
            if has_key(keys, j) {
                assert(order.contains(j as usize));
                assert(ints[order.index_of(j as usize)] == j);
            }
        }
    }
    if p < order.len() {
        assert(has_key(keys, order[p] as int));
        let first = ints.subrange(0, p);
        assert(first.no_duplicates());
        first.unique_seq_to_set();
        let here = order[p] as int;
        assert(first.to_set() =~= ahead_of(keys, here)) by {
            assert forall|j: int| first.to_set().contains(j) <==> ahead_of(keys, here).contains(j) by {
                if first.contains(j) {
                    let a = first.index_of(j);
                    assert(stands_before(keys, order[a] as int, order[p] as int));
                    assert(has_key(keys, order[a] as int));
                }
                if has_key(keys, j) && stands_before(keys, j, here) {
                    assert(order.contains(j as usize));
                    let a = order.index_of(j as usize);
                    assert(order[a] == j);
                    if a > p {
                        assert(stands_before(keys, order[p] as int, order[a] as int));
                    }
                    assert(first[a] == j);
                }
            }
        }
    }
}

/// What stands so many hundredths of the way through, the last at most; nothing where
/// nothing has a key.
pub fn percentile(keys: &Vec<Option<(i64, i64)>>, hundredths: usize) -> (r: Option<usize>)
    requires
        hundredths <= 100,
        keys@.len() * 100 <= usize::MAX,
    ensures
        r is None <==> keyed(keys@).len() == 0,
        r matches Some(i) ==> ({
            let n = keyed(keys@).len();
            let p = n * hundredths / 100;
            at_rank(
                keys@,
                i as int,
                if p < n {
                    p as int
                } else {
                    n - 1
                },
            )
        }),
{
    let order: Vec<usize> = in_order(keys);
    let n: usize = order.len();
    if n == 0 {
        return None;
    }
    proof {
        let ints = Seq::new(order@.len(), |a: int| order@[a] as int);
        assert(ints.no_duplicates()) by {
            assert forall|a: int, b: int| 0 <= a < b < ints.len() implies ints[a] != ints[b] by {
                assert(at_rank(keys@, order@[a] as int, a));
                assert(at_rank(keys@, order@[b] as int, b));
            }
        }
        assert forall|a: int| 0 <= a < ints.len() implies 0 <= #[trigger] ints[a] < keys@.len() by {
            assert(at_rank(keys@, order@[a] as int, a));
        }
        crate::ways::few_nodes(ints, keys@.len() as int);
        assert(n * hundredths <= n * 100) by (nonlinear_arith)
            requires
                hundredths <= 100,
        ;
    }
    let p: usize = n * hundredths / 100;
    Some(
        order[if p < n {
            p
        } else {
            n - 1
        }],
    )
}

/// How old a block is and how large; nothing where it has no age.
pub open spec fn aged(births: Seq<u32>, areas: Seq<i64>) -> Seq<Option<(i64, i64)>> {
    Seq::new(
        births.len(),
        |i: int|
            if births[i] == u32::MAX {
                None
            } else {
                Some((births[i] as i64, areas[i]))
            },
    )
}

/// The sizes of the things that stand from one place to another.
pub open spec fn sized_between(
    keys: Seq<Option<(i64, i64)>>,
    areas: Seq<i64>,
    from: int,
    to: int,
) -> Seq<Option<(i64, i64)>> {
    Seq::new(
        keys.len(),
        |i: int|
            if has_key(keys, i) && from <= ahead_of(keys, i).len() < to {
                Some((areas[i], 0i64))
            } else {
                None
            },
    )
}

/// The blocks of the middle size on the oldest third of the ground and on the newest,
/// given each block's age and size; none where fewer than six blocks have an age.
pub fn age_medians(births: &Vec<u32>, areas: &Vec<i64>) -> (r: Option<(usize, usize)>)
    requires
        births@.len() == areas@.len(),
    ensures
        ({
            let keys = aged(births@, areas@);
            let n = keyed(keys).len() as int;
            let third = n / 3;
            &&& r is None <==> n < 6
            &&& r matches Some((core, rim)) ==> at_rank(
                sized_between(keys, areas@, 0, third),
                core as int,
                third / 2,
            ) && at_rank(sized_between(keys, areas@, n - third, n), rim as int, third / 2)
        }),
{
    let mut keys: Vec<Option<(i64, i64)>> = Vec::new();
    let mut i: usize = 0;
    while i < births.len()
        invariant
            i <= births@.len() == areas@.len(),
            keys@ == aged(births@, areas@).subrange(0, i as int),
        decreases births.len() - i,
    {
        let key: Option<(i64, i64)> = if births[i] == 0xffff_ffff {
            None
        } else {
            Some((births[i] as i64, areas[i]))
        };
        keys.push(key);
        assert(keys@ =~= aged(births@, areas@).subrange(0, i + 1));
        i = i + 1;
    }
    assert(keys@ =~= aged(births@, areas@));
    let order: Vec<usize> = in_order(&keys);
    let n: usize = order.len();
    if n < 6 {
        return None;
    }
    let third: usize = n / 3;
    let core: usize = middle_of(&keys, areas, &order, 0, third);
    let rim: usize = middle_of(&keys, areas, &order, n - third, n);
    Some((core, rim))
}

/// The thing of the middle size among those from one place to another.
fn middle_of(
    keys: &Vec<Option<(i64, i64)>>,
    areas: &Vec<i64>,
    order: &Vec<usize>,
    from: usize,
    to: usize,
) -> (r: usize)
    requires
        keys@.len() == areas@.len(),
        from < to <= order@.len(),
        order@.len() == keyed(keys@).len(),
        forall|p: int| 0 <= p < order@.len() ==> at_rank(keys@, #[trigger] order@[p] as int, p),
        forall|i: int| #[trigger] has_key(keys@, i) ==> order@.contains(i as usize),
    ensures
        at_rank(
            sized_between(keys@, areas@, from as int, to as int),
            r as int,
            (to - from) as int / 2,
        ),
{
    let mut sizes: Vec<Option<(i64, i64)>> = Vec::new();
    let mut i: usize = 0;
    while i < keys.len()
        invariant
            i <= keys@.len(),
            sizes@.len() == i,
            forall|k: int| 0 <= k < i ==> #[trigger] sizes@[k] == None::<(i64, i64)>,
        decreases keys.len() - i,
    {
        sizes.push(None);
        i = i + 1;
    }
    let ghost want = sized_between(keys@, areas@, from as int, to as int);
    let n: usize = keys.len();
    let mut p: usize = from;
    while p < to
        invariant
            keys@.len() == areas@.len(),
            from <= p <= to <= order@.len(),
            sizes@.len() == keys@.len() == n,
            forall|p: int| 0 <= p < order@.len() ==> at_rank(keys@, #[trigger] order@[p] as int, p),
            forall|k: int|
                0 <= k < sizes@.len() ==> #[trigger] sizes@[k] == if has_key(keys@, k) && from
                    <= ahead_of(keys@, k).len() < p {
                    Some((areas@[k], 0i64))
                } else {
                    None
                },
            forall|i: int| #[trigger] has_key(keys@, i) ==> order@.contains(i as usize),
        decreases to - p,
    {
        let at: usize = order[p];
        assert(at_rank(keys@, order@[p as int] as int, p as int));
        let ghost was = sizes@;
        sizes.set(at, Some((areas[at], 0)));
        proof {
            assert forall|k: int| 0 <= k < sizes@.len() implies #[trigger] sizes@[k] == if has_key(
                keys@,
                k,
            ) && from <= ahead_of(keys@, k).len() < p + 1 {
                Some((areas@[k], 0i64))
            } else {
                None
            } by {
                if k != at {
                    assert(sizes@[k] == was[k]);
                    if has_key(keys@, k) && ahead_of(keys@, k).len() == p {
                        assert(order@.contains(k as usize));
                        let q = order@.index_of(k as usize);
                        assert(order@[q] == k);
                        assert(at_rank(keys@, order@[q] as int, q));
                    }
                }
            }
        }
        p = p + 1;
    }
    assert(sizes@ =~= want);
    let ranked: Vec<usize> = in_order(&sizes);
    proof {
        count_between(keys@, areas@, order@, from as int, to as int);
    }
    let half: usize = (to - from) / 2;
    ranked[half]
}

/// As many things stand from one place to another as there are places.
proof fn count_between(
    keys: Seq<Option<(i64, i64)>>,
    areas: Seq<i64>,
    order: Seq<usize>,
    from: int,
    to: int,
)
    requires
        0 <= from <= to <= order.len(),
        keys.len() <= usize::MAX,
        forall|p: int| 0 <= p < order.len() ==> at_rank(keys, #[trigger] order[p] as int, p),
        forall|i: int| #[trigger] has_key(keys, i) ==> order.contains(i as usize),
    ensures
        keyed(sized_between(keys, areas, from, to)).len() == to - from,
{
    let part = Seq::new((to - from) as nat, |a: int| order[from + a] as int);
    assert(part.no_duplicates()) by {
        assert forall|a: int, b: int| 0 <= a < b < part.len() implies part[a] != part[b] by {
            assert(at_rank(keys, order[from + a] as int, from + a));
            assert(at_rank(keys, order[from + b] as int, from + b));
        }
    }
    part.unique_seq_to_set();
    let sizes = sized_between(keys, areas, from, to);
    assert(part.to_set() =~= keyed(sizes)) by {
        assert forall|j: int| part.to_set().contains(j) <==> keyed(sizes).contains(j) by {
            if part.contains(j) {
                let a = part.index_of(j);
                assert(at_rank(keys, order[from + a] as int, from + a));
                assert(sizes[j] is Some);
            }
            if has_key(sizes, j) {
                assert(has_key(keys, j));
                assert(order.contains(j as usize));
                let q = order.index_of(j as usize);
                assert(at_rank(keys, order[q] as int, q));
                assert(part[q - from] == j);
            }
        }
    }
}

/// The third of the things that stand first and the third that stand last, each in
/// order; none where fewer than six have a key.
pub fn outer_thirds(keys: &Vec<Option<(i64, i64)>>) -> (r: Option<(Vec<usize>, Vec<usize>)>)
    ensures
        ({
            let n = keyed(keys@).len() as int;
            &&& r is None <==> n < 6
            &&& r matches Some((first, last)) ==> {
                &&& first@.len() == n / 3
                &&& last@.len() == n / 3
                &&& forall|p: int|
                    0 <= p < n / 3 ==> at_rank(keys@, #[trigger] first@[p] as int, p)
                &&& forall|p: int|
                    0 <= p < n / 3 ==> at_rank(
                        keys@,
                        #[trigger] last@[p] as int,
                        n - n / 3 + p,
                    )
            }
        }),
{
    let order: Vec<usize> = in_order(keys);
    let n: usize = order.len();
    if n < 6 {
        return None;
    }
    let third: usize = n / 3;
    let mut first: Vec<usize> = Vec::new();
    let mut last: Vec<usize> = Vec::new();
    let mut p: usize = 0;
    while p < third
        invariant
            p <= third,
            third == n / 3,
            n == order@.len(),
            first@.len() == p,
            last@.len() == p,
            forall|k: int| 0 <= k < p ==> #[trigger] first@[k] == order@[k],
            forall|k: int| 0 <= k < p ==> #[trigger] last@[k] == order@[n - third + k],
        decreases third - p,
    {
        first.push(order[p]);
        last.push(order[n - third + p]);
        p = p + 1;
    }
    assert forall|k: int| 0 <= k < third implies at_rank(
        keys@,
        #[trigger] last@[k] as int,
        n - third + k,
    ) by {
        assert(at_rank(keys@, order@[n - third + k] as int, n - third + k));
    }
    assert forall|k: int| 0 <= k < third implies at_rank(keys@, #[trigger] first@[k] as int, k) by {
        assert(at_rank(keys@, order@[k] as int, k));
    }
    Some((first, last))
}

/// A thing stands before another by the first number of its key, then by the second, then
/// by its place in the list; what stands at a place has so many things before it.
pub proof fn things_are_ranked_by_their_keys(keys: Seq<Option<(i64, i64)>>, i: int, j: int, p: int)
    requires
        0 <= i < keys.len(),
        0 <= j < keys.len(),
    ensures
        keyed(keys).contains(i) <==> keys[i] is Some,
        keys[i] is Some && keys[j] is Some ==> (ahead_of(keys, i).contains(j) <==> {
            let (a, b) = (keys[j]->0, keys[i]->0);
            if a.0 != b.0 {
                a.0 < b.0
            } else if a.1 != b.1 {
                a.1 < b.1
            } else {
                j < i
            }
        }),
        keys[j] is None ==> !ahead_of(keys, i).contains(j),
        at_rank(keys, i, p) <==> keys[i] is Some && ahead_of(keys, i).len() == p,
{
}

/// Ground is ranked by its age and then by its size, and what has no age is left out; of
/// what stands between two places the sizes are what is ranked.
pub proof fn ground_is_ranked_by_age_and_size(
    births: Seq<u32>,
    areas: Seq<i64>,
    from: int,
    to: int,
    i: int,
)
    requires
        births.len() == areas.len(),
        0 <= i < births.len(),
    ensures
        aged(births, areas).len() == births.len(),
        births[i] == 0xffff_ffff ==> aged(births, areas)[i] is None,
        births[i] != 0xffff_ffff ==> aged(births, areas)[i] is Some && (aged(
            births,
            areas,
        )[i]->0).0 == births[i] && (aged(births, areas)[i]->0).1 == areas[i],
        ({
            let keys = aged(births, areas);
            let s = sized_between(keys, areas, from, to);
            &&& s.len() == births.len()
            &&& s[i] is Some <==> births[i] != 0xffff_ffff && from <= ahead_of(keys, i).len() < to
            &&& s[i] is Some ==> (s[i]->0).0 == areas[i] && (s[i]->0).1 == 0
        }),
{
}

} // verus!
