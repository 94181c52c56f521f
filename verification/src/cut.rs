//! A ring of corners cut by a line: which corners lie together on each side of it,
//! and the order in which they close into pieces.
//!
//! Every crossing of the line is a corner of the ring already. A corner's side is
//! negative, zero on the line, or positive, and its place along the line is a number
//! that is greater further along.
use vstd::prelude::*;

use crate::ways::few_nodes;

verus! {

/// Does a corner lie on the line?
pub open spec fn on_line(side: Seq<i8>, i: int) -> bool {
    0 <= i < side.len() && side[i] == 0
}

/// Does a corner stand before another along the line?
pub open spec fn before(along: Seq<i64>, i: int, j: int) -> bool {
    along[i] < along[j] || (along[i] == along[j] && i < j)
}

/// The corners on the line that stand before one.
pub open spec fn those_before(side: Seq<i8>, along: Seq<i64>, i: int) -> Set<int> {
    Set::new(|j: int| on_line(side, j) && before(along, j, i))
}

/// The corners on the line.
pub open spec fn those_on(side: Seq<i8>) -> Set<int> {
    Set::new(|j: int| on_line(side, j))
}

/// Do two corners bound one interval of the line that lies inside the ring: are they
/// the first and the second along it, or the third and the fourth, and so on?
pub open spec fn mates(side: Seq<i8>, along: Seq<i64>, i: int, j: int) -> bool {
    &&& on_line(side, i)
    &&& on_line(side, j)
    &&& i != j
    &&& those_before(side, along, i).len() / 2 == those_before(side, along, j).len() / 2
}

/// Are these the corners on the line, in order?
spec fn lined_up(side: Seq<i8>, along: Seq<i64>, order: Seq<usize>) -> bool {
    &&& forall|a: int, b: int|
        0 <= a < b < order.len() ==> before(
            along,
            #[trigger] order[a] as int,
            #[trigger] order[b] as int,
        )
    &&& forall|a: int| 0 <= a < order.len() ==> on_line(side, #[trigger] order[a] as int)
    &&& forall|i: int| #[trigger] on_line(side, i) ==> order.contains(i as usize)
}

fn is_before(along: &Vec<i64>, i: usize, j: usize) -> (r: bool)
    requires
        i < along@.len(),
        j < along@.len(),
    ensures
        r == before(along@, i as int, j as int),
{
    along[i] < along[j] || (along[i] == along[j] && i < j)
}

/// The corners on the line, in order.
fn line_up(side: &Vec<i8>, along: &Vec<i64>) -> (r: Vec<usize>)
    requires
        side@.len() == along@.len(),
    ensures
        lined_up(side@, along@, r@),
{
    let mut out: Vec<usize> = Vec::new();
    let mut i: usize = 0;
    while i < side.len()
        invariant
            i <= side@.len() == along@.len(),
            forall|a: int, b: int|
                0 <= a < b < out@.len() ==> before(
                    along@,
                    #[trigger] out@[a] as int,
                    #[trigger] out@[b] as int,
                ),
            forall|a: int|
                0 <= a < out@.len() ==> out@[a] < i && on_line(side@, #[trigger] out@[a] as int),
            forall|j: int| j < i && #[trigger] on_line(side@, j) ==> out@.contains(j as usize),
        decreases side.len() - i,
    {
        if side[i] == 0 {
            let ghost was = out@;
            let mut p: usize = 0;
            while p < out.len() && is_before(along, out[p], i)
                invariant
                    p <= out@.len(),
                    out@ == was,
                    i < along@.len(),
                    forall|a: int| 0 <= a < was.len() ==> (#[trigger] was[a]) < i,
                    forall|a: int| 0 <= a < p ==> before(along@, #[trigger] was[a] as int, i as int),
                decreases out.len() - p,
            {
                p = p + 1;
            }
            out.insert(p, i);
            proof {
                assert(out@ =~= was.insert(p as int, i));
                assert forall|a: int| p <= a < was.len() implies before(
                    along@,
                    i as int,
                    #[trigger] was[a] as int,
                ) by {
                    if a > p {
                        assert(before(along@, was[p as int] as int, was[a] as int));
                    }
                }
                assert forall|a: int, b: int| 0 <= a < b < out@.len() implies before(
                    along@,
                    #[trigger] out@[a] as int,
                    #[trigger] out@[b] as int,
                ) by {
                    let (s, t) = (
                        if a < p {
                            a
                        } else {
                            a - 1
                        },
                        if b < p {
                            b
                        } else {
                            b - 1
                        },
                    );
                    if a != p {
                        assert(out@[a] == was[s]);
                    }
                    if b != p {
                        assert(out@[b] == was[t]);
                    }
                }
                assert forall|a: int| 0 <= a < out@.len() implies out@[a] < i + 1 && on_line(
                    side@,
                    #[trigger] out@[a] as int,
                ) by {
                    if a != p {
                        let s = if a < p {
                            a
                        } else {
                            a - 1
                        };
                        assert(out@[a] == was[s]);
                        assert(on_line(side@, was[s] as int));
                    }
                }
                assert(out@[p as int] == i);
                assert forall|j: int| j < i + 1 && #[trigger] on_line(
                    side@,
                    j,
                ) implies out@.contains(j as usize) by {
                    if j < i {
                        assert(was.contains(j as usize));
                        let s = was.index_of(j as usize);
                        assert(out@[if s < p {
                            s
                        } else {
                            s + 1
                        }] == j);
                    }
                }
            }
        }
        i = i + 1;
    }
    out
}

/// The corners before one in the line are those listed before it.
proof fn place_in_line(side: Seq<i8>, along: Seq<i64>, order: Seq<usize>, p: int)
    requires
        side.len() <= usize::MAX,
        lined_up(side, along, order),
        0 <= p <= order.len(),
    ensures
        p < order.len() ==> those_before(side, along, order[p] as int).len() == p,
        those_on(side).len() == order.len(),
        those_on(side).finite(),
{
    let ints = Seq::new(order.len(), |a: int| order[a] as int);
    assert(ints.no_duplicates()) by {
        assert forall|a: int, b: int| 0 <= a < b < ints.len() implies ints[a] != ints[b] by {
            assert(before(along, order[a] as int, order[b] as int));
        }
    }
    ints.unique_seq_to_set();
    assert(ints.to_set() =~= those_on(side)) by {
        assert forall|j: int| ints.to_set().contains(j) <==> those_on(side).contains(j) by {
            if ints.contains(j) {
                let a = ints.index_of(j);
                assert(on_line(side, order[a] as int));
            }
            if on_line(side, j) {
                assert(order.contains(j as usize));
                let a = order.index_of(j as usize);
                assert(ints[a] == j);
            }
        }
    }
    if p < order.len() {
        let first = ints.subrange(0, p);
        assert(first.no_duplicates());
        first.unique_seq_to_set();
        let here = order[p] as int;
        assert(first.to_set() =~= those_before(side, along, here)) by {
            assert forall|j: int| first.to_set().contains(j) <==> those_before(
                side,
                along,
                here,
            ).contains(j) by {
                if first.contains(j) {
                    let a = first.index_of(j);
                    assert(before(along, order[a] as int, order[p] as int));
                    assert(on_line(side, order[a] as int));
                }
                if on_line(side, j) && before(along, j, here) {
                    assert(order.contains(j as usize));
                    let a = order.index_of(j as usize);
                    assert(order[a] == j);
                    if a > p {
                        assert(before(along, order[p] as int, order[a] as int));
                    }
                    assert(first[a] == j);
                }
            }
        }
    }
}

/// Where the mate of a place in the line is.
spec fn mate_place(a: int) -> int {
    if a % 2 == 0 {
        a + 1
    } else {
        a - 1
    }
}

/// No corner is listed twice.
proof fn listed_once(side: Seq<i8>, along: Seq<i64>, order: Seq<usize>, a: int, b: int)
    requires
        lined_up(side, along, order),
        0 <= a < order.len(),
        0 <= b < order.len(),
        order[a] == order[b],
    ensures
        a == b,
{
    if a < b {
        assert(before(along, order[a] as int, order[b] as int));
    } else if b < a {
        assert(before(along, order[b] as int, order[a] as int));
    }
}

/// The mate of a corner in the line is the one beside it.
proof fn mates_in_line(side: Seq<i8>, along: Seq<i64>, order: Seq<usize>, c: int, d: int)
    requires
        side.len() <= usize::MAX,
        lined_up(side, along, order),
        0 <= c < order.len(),
        0 <= d < order.len(),
    ensures
        mates(side, along, order[c] as int, order[d] as int) <==> d == mate_place(c),
{
    place_in_line(side, along, order, c);
    place_in_line(side, along, order, d);
    assert(on_line(side, order[c] as int));
    assert(on_line(side, order[d] as int));
    if order[c] == order[d] {
        listed_once(side, along, order, c, d);
    }
}

/// Has every corner been given its mate, if it stands among the first `p` of the
/// line, and no other corner one?
spec fn paired(side: Seq<i8>, order: Seq<usize>, out: Seq<Option<usize>>, p: int) -> bool {
    &&& out.len() == side.len()
    &&& forall|a: int|
        0 <= a < p ==> out[#[trigger] order[a] as int] == Some(order[mate_place(a)])
    &&& forall|i: int|
        0 <= i < out.len() && (#[trigger] out[i]) is Some ==> exists|a: int|
            0 <= a < p && #[trigger] order[a] == i
}

/// Two more corners of the line are mates.
proof fn pair_two(
    side: Seq<i8>,
    along: Seq<i64>,
    order: Seq<usize>,
    was: Seq<Option<usize>>,
    p: int,
)
    requires
        lined_up(side, along, order),
        paired(side, order, was, p),
        0 <= p,
        p % 2 == 0,
        p + 1 < order.len(),
    ensures
        paired(
            side,
            order,
            was.update(order[p] as int, Some(order[p + 1])).update(
                order[p + 1] as int,
                Some(order[p]),
            ),
            p + 2,
        ),
{
    let (a, b) = (order[p], order[p + 1]);
    assert(on_line(side, a as int) && on_line(side, b as int));
    if a == b {
        listed_once(side, along, order, p, p + 1);
    }
    let out = was.update(a as int, Some(b)).update(b as int, Some(a));
    assert forall|c: int| 0 <= c < p + 2 implies out[#[trigger] order[c] as int] == Some(
        order[mate_place(c)],
    ) by {
        if c < p {
            assert(was[order[c] as int] == Some(order[mate_place(c)]));
            assert(on_line(side, order[c] as int));
            if order[c] == a {
                listed_once(side, along, order, c, p);
            }
            if order[c] == b {
                listed_once(side, along, order, c, p + 1);
            }
        }
    }
    assert forall|i: int| 0 <= i < out.len() && (#[trigger] out[i]) is Some implies exists|c: int|
        0 <= c < p + 2 && #[trigger] order[c] == i by {
        if i == a {
            assert(order[p] == i);
        } else if i == b {
            assert(order[p + 1] == i);
        } else {
            assert(was[i] is Some);
            let c = choose|c: int| 0 <= c < p && #[trigger] order[c] == i;
            assert(order[c] == i);
        }
    }
}

proof fn pairing_is_complete(
    side: Seq<i8>,
    along: Seq<i64>,
    order: Seq<usize>,
    out: Seq<Option<usize>>,
    p: int,
    i: int,
    j: int,
)
    requires
        side.len() <= usize::MAX,
        lined_up(side, along, order),
        paired(side, order, out, p),
        0 <= p <= order.len() <= p + 1,
        p % 2 == 0,
        0 <= i < side.len(),
        0 <= j < side.len(),
    ensures
        mates(side, along, i, j) <==> out[i] == Some(j as usize),
        out[i] matches Some(m) ==> m < side.len(),
{
    if out[i] is Some {
        let a = choose|a: int| 0 <= a < p && #[trigger] order[a] == i;
        assert(out[order[a] as int] == Some(order[mate_place(a)]));
        assert(on_line(side, order[mate_place(a)] as int));
        mates_in_line(side, along, order, a, mate_place(a));
    }
    if on_line(side, i) && on_line(side, j) {
        assert(order.contains(i as usize) && order.contains(j as usize));
        let c = order.index_of(i as usize);
        let d = order.index_of(j as usize);
        assert(order[c] == i && order[d] == j);
        mates_in_line(side, along, order, c, d);
        if c < p {
            assert(out[order[c] as int] == Some(order[mate_place(c)]));
            if order[mate_place(c)] == order[d] {
                listed_once(side, along, order, mate_place(c), d);
            }
        } else {
            if out[i] is Some {
                let a = choose|a: int| 0 <= a < p && #[trigger] order[a] == i;
                listed_once(side, along, order, a, c);
            }
        }
    }
}

/// The mate of each corner on the line, where it has one.
fn mates_of(side: &Vec<i8>, order: &Vec<usize>, Ghost(along): Ghost<Seq<i64>>) -> (r: Vec<
    Option<usize>,
>)
    requires
        side@.len() == along.len(),
        lined_up(side@, along, order@),
    ensures
        r@.len() == side@.len(),
        forall|i: int, j: int|
            0 <= i < r@.len() && 0 <= j < r@.len() ==> (#[trigger] mates(side@, along, i, j)
                <==> r@[i] == Some(j as usize)),
        forall|i: int| 0 <= i < r@.len() ==> ((#[trigger] r@[i]) matches Some(j) ==> j < r@.len()),
{
    let k: usize = side.len();
    let mut out: Vec<Option<usize>> = Vec::new();
    let mut i: usize = 0;
    while i < k
        invariant
            i <= k,
            out@.len() == i,
            forall|a: int| 0 <= a < i ==> #[trigger] out@[a] == None::<usize>,
        decreases k - i,
    {
        out.push(None);
        i = i + 1;
    }
    let mut p: usize = 0;
    let n: usize = order.len();
    while p < n && n - p > 1
        invariant
            p <= n == order@.len(),
            p % 2 == 0,
            k == side@.len(),
            lined_up(side@, along, order@),
            paired(side@, order@, out@, p as int),
        decreases n - p,
    {
        let (a, b): (usize, usize) = (order[p], order[p + 1]);
        proof {
            assert(on_line(side@, order@[p as int] as int));
            assert(on_line(side@, order@[p + 1] as int));
            pair_two(side@, along, order@, out@, p as int);
        }
        out.set(a, Some(b));
        out.set(b, Some(a));
        p = p + 2;
    }
    proof {
        assert forall|i: int, j: int|
            0 <= i < k && 0 <= j < k implies (#[trigger] mates(side@, along, i, j) <==> out@[i]
            == Some(j as usize)) by {
            pairing_is_complete(side@, along, order@, out@, p as int, i, j);
        }
        assert forall|i: int| 0 <= i < k implies ((#[trigger] out@[i]) matches Some(j) ==> j < k) by {
            pairing_is_complete(side@, along, order@, out@, p as int, i, i);
        }
    }
    out
}

/// Does a corner lie on a side of the line, or on the line?
pub open spec fn within(side: Seq<i8>, below: bool, i: int) -> bool {
    if below {
        side[i] <= 0
    } else {
        side[i] >= 0
    }
}

/// The corner so many steps round the ring from one.
pub open spec fn turn(from: int, k: int, steps: int) -> int {
    if from + steps >= k {
        from + steps - k
    } else {
        from + steps
    }
}

/// Are these the runs of corners on a side, as steps round the ring from a corner that
/// is not: each as long as can be, in order, and all that there are?
pub open spec fn spans_ok(side: Seq<i8>, below: bool, from: int, spans: Seq<(int, int)>) -> bool {
    let k = side.len() as int;
    &&& forall|j: int|
        0 <= j < spans.len() ==> 1 <= (#[trigger] spans[j]).0 < spans[j].1 <= k && !within(
            side,
            below,
            turn(from, k, spans[j].0 - 1),
        ) && !within(side, below, turn(from, k, spans[j].1))
    &&& forall|j: int, t: int|
        0 <= j < spans.len() && spans[j].0 <= t < spans[j].1 ==> within(
            side,
            below,
            #[trigger] turn(from, k, t),
        ) && (#[trigger] spans[j]).0 <= t
    &&& forall|i: int, j: int|
        0 <= i < j < spans.len() ==> (#[trigger] spans[i]).1 < (#[trigger] spans[j]).0
    &&& forall|t: int|
        1 <= t < k && within(side, below, #[trigger] turn(from, k, t)) ==> spanned(spans, t)
}

/// Does a step lie in one of the runs?
pub open spec fn spanned(spans: Seq<(int, int)>, t: int) -> bool {
    exists|j: int| 0 <= j < spans.len() && (#[trigger] spans[j]).0 <= t < spans[j].1
}

/// The corners of a run.
pub open spec fn corners_of(from: int, k: int, span: (int, int)) -> Seq<usize> {
    Seq::new((span.1 - span.0) as nat, |t: int| turn(from, k, span.0 + t) as usize)
}

/// Does a run follow another: is its first corner the mate of the other's last?
pub open spec fn follows(
    side: Seq<i8>,
    along: Seq<i64>,
    from: int,
    a: (int, int),
    b: (int, int),
) -> bool {
    let k = side.len() as int;
    mates(side, along, turn(from, k, a.1 - 1), turn(from, k, b.0))
}

/// Is a run in one of the first `n` pieces?
pub open spec fn in_pieces(pieces: Seq<Seq<usize>>, n: int, c: int) -> bool {
    exists|a: int, i: int|
        0 <= a < n && 0 <= i < pieces[a].len() && #[trigger] pieces[a][i] == c
}

/// Do the pieces hold the runs: each run once, each after the one that it follows,
/// as far as that goes, the first of a piece the first run not in a piece before?
pub open spec fn pieces_ok(
    side: Seq<i8>,
    along: Seq<i64>,
    from: int,
    spans: Seq<(int, int)>,
    pieces: Seq<Seq<usize>>,
) -> bool {
    &&& forall|a: int| 0 <= a < pieces.len() ==> (#[trigger] pieces[a]).len() > 0
    &&& forall|a: int, i: int|
        0 <= a < pieces.len() && 0 <= i < pieces[a].len() ==> (#[trigger] pieces[a][i])
            < spans.len()
    &&& forall|c: int| 0 <= c < spans.len() ==> #[trigger] in_pieces(
        pieces,
        pieces.len() as int,
        c,
    )
    &&& forall|a: int, i: int, b: int, j: int|
        0 <= a < pieces.len() && 0 <= i < pieces[a].len() && 0 <= b < pieces.len() && 0 <= j
            < pieces[b].len() && #[trigger] pieces[a][i] == #[trigger] pieces[b][j] ==> a == b && i
            == j
    &&& forall|a: int, i: int|
        0 <= a < pieces.len() && 0 < i < pieces[a].len() ==> follows(
            side,
            along,
            from,
            spans[pieces[a][i - 1] as int],
            spans[#[trigger] pieces[a][i] as int],
        )
    &&& forall|a: int, d: int|
        0 <= a < pieces.len() && 0 <= d < spans.len() && #[trigger] follows(
            side,
            along,
            from,
            spans[(#[trigger] pieces[a]).last() as int],
            spans[d],
        ) ==> in_pieces(pieces, a + 1, d)
    &&& forall|a: int, c: int|
        0 <= a < pieces.len() && 0 <= c < (#[trigger] pieces[a])[0] ==> #[trigger] in_pieces(
            pieces,
            a,
            c,
        )
}

/// The corners of some runs, one run after the other.
pub open spec fn walked(from: int, k: int, spans: Seq<(int, int)>, piece: Seq<usize>) -> Seq<usize>
    decreases piece.len(),
{
    if piece.len() == 0 {
        seq![]
    } else {
        walked(from, k, spans, piece.drop_last()) + corners_of(from, k, spans[piece.last() as int])
    }
}

/// Are these the pieces on a side? All corners in order where none lies on the other
/// side. Else, from the first corner on the other side, the runs of corners on this
/// one, closed into pieces along the line.
pub open spec fn side_pieces(
    side: Seq<i8>,
    along: Seq<i64>,
    below: bool,
    r: Seq<Seq<usize>>,
) -> bool {
    let k = side.len() as int;
    if forall|i: int| 0 <= i < k ==> within(side, below, i) {
        r.len() == 1 && r[0] == Seq::new(side.len(), |i: int| i as usize)
    } else {
        exists|from: int, spans: Seq<(int, int)>, pieces: Seq<Seq<usize>>|
            0 <= from < k && !within(side, below, from) && (forall|i: int|
                0 <= i < from ==> #[trigger] within(side, below, i)) && #[trigger] spans_ok(
                side,
                below,
                from,
                spans,
            ) && #[trigger] pieces_ok(side, along, from, spans, pieces) && r.len() == pieces.len()
                && forall|a: int|
                0 <= a < r.len() ==> #[trigger] r[a] == walked(from, k, spans, pieces[a])
    }
}

fn is_within(side: &Vec<i8>, below: bool, i: usize) -> (r: bool)
    requires
        i < side@.len(),
    ensures
        r == within(side@, below, i as int),
{
    if below {
        side[i] <= 0
    } else {
        side[i] >= 0
    }
}

/// The runs of corners on a side, from a corner that is not on it.
fn runs(side: &Vec<i8>, below: bool, from: usize) -> (r: (Vec<Vec<usize>>, Ghost<Seq<(int, int)>>))
    requires
        from < side@.len(),
        side@.len() * 2 <= usize::MAX,
        !within(side@, below, from as int),
    ensures
        spans_ok(side@, below, from as int, r.1@),
        r.0@.len() == r.1@.len(),
        forall|j: int|
            0 <= j < r.0@.len() ==> (#[trigger] r.0@[j])@ == corners_of(
                from as int,
                side@.len() as int,
                r.1@[j],
            ),
{
    let k: usize = side.len();
    let mut chains: Vec<Vec<usize>> = Vec::new();
    let ghost mut spans: Seq<(int, int)> = Seq::empty();
    let mut current: Vec<usize> = Vec::new();
    let mut step: usize = 1;
    while step <= k
        invariant
            k == side@.len(),
            k * 2 <= usize::MAX,
            from < k,
            1 <= step <= k + 1,
            !within(side@, below, from as int),
            chains@.len() == spans.len(),
            forall|j: int|
                0 <= j < chains@.len() ==> (#[trigger] chains@[j])@ == corners_of(
                    from as int,
                    k as int,
                    spans[j],
                ),
            forall|j: int|
                0 <= j < spans.len() ==> 1 <= (#[trigger] spans[j]).0 < spans[j].1 < step && !within(
                    side@,
                    below,
                    turn(from as int, k as int, spans[j].0 - 1),
                ) && !within(side@, below, turn(from as int, k as int, spans[j].1)),
            forall|j: int, t: int|
                0 <= j < spans.len() && spans[j].0 <= t < spans[j].1 ==> within(
                    side@,
                    below,
                    #[trigger] turn(from as int, k as int, t),
                ) && (#[trigger] spans[j]).0 <= t,
            forall|i: int, j: int|
                0 <= i < j < spans.len() ==> (#[trigger] spans[i]).1 < (#[trigger] spans[j]).0,
            current@.len() < step,
            current@ == corners_of(from as int, k as int, (step - current@.len(), step as int)),
            !within(side@, below, turn(from as int, k as int, step - current@.len() - 1)),
            forall|t: int|
                step - current@.len() <= t < step ==> within(
                    side@,
                    below,
                    #[trigger] turn(from as int, k as int, t),
                ),
            forall|j: int| 0 <= j < spans.len() ==> (#[trigger] spans[j]).1 < step - current@.len(),
            forall|t: int|
                1 <= t < step - current@.len() && within(
                    side@,
                    below,
                    #[trigger] turn(from as int, k as int, t),
                ) ==> spanned(spans, t),
            step == k + 1 ==> current@.len() == 0,
        decreases k + 1 - step,
    {
        let ahead: usize = from + step;
        let i: usize = if ahead >= k {
            ahead - k
        } else {
            ahead
        };
        assert(i == turn(from as int, k as int, step as int));
        let ghost was = current@;
        if is_within(side, below, i) {
            current.push(i);
            proof {
                assert(current@ =~= corners_of(
                    from as int,
                    k as int,
                    (step + 1 - current@.len(), step + 1),
                ));
                if step == k {
                    assert(i == from);
                }
            }
        } else {
            if current.len() > 0 {
                let ghost span = (step - current@.len(), step as int);
                let ghost had = spans;
                proof {
                    spans = spans.push(span);
                }
                chains.push(current);
                current = Vec::new();
                proof {
                    assert forall|j: int, t: int|
                        0 <= j < spans.len() && spans[j].0 <= t < spans[j].1 implies within(
                        side@,
                        below,
                        #[trigger] turn(from as int, k as int, t),
                    ) && (#[trigger] spans[j]).0 <= t by {
                        if j < had.len() {
                            assert(had[j] == spans[j]);
                        }
                    }
                    assert forall|t: int|
                        1 <= t < step + 1 && within(
                            side@,
                            below,
                            #[trigger] turn(from as int, k as int, t),
                        ) implies spanned(spans, t) by {
                        if t < span.0 {
                            assert(spanned(had, t));
                            let j = choose|j: int|
                                0 <= j < had.len() && (#[trigger] had[j]).0 <= t < had[j].1;
                            assert(spans[j] == had[j]);
                        } else if t < step {
                            assert(spans[spans.len() - 1] == span);
                        }
                    }
                }
            }
            assert(current@ =~= corners_of(from as int, k as int, (step + 1, step + 1)));
        }
        step = step + 1;
    }
    (chains, Ghost(spans))
}

/// What is known of the runs when they are closed into pieces.
spec fn runs_known(
    side: Seq<i8>,
    along: Seq<i64>,
    below: bool,
    from: int,
    spans: Seq<(int, int)>,
    chains: Seq<Vec<usize>>,
    mate: Seq<Option<usize>>,
) -> bool {
    let k = side.len() as int;
    &&& 0 <= from < k <= usize::MAX
    &&& spans_ok(side, below, from, spans)
    &&& chains.len() == spans.len()
    &&& forall|j: int|
        0 <= j < chains.len() ==> (#[trigger] chains[j])@ == corners_of(from, k, spans[j])
    &&& mate.len() == k
    &&& forall|i: int, j: int|
        0 <= i < k && 0 <= j < k ==> (#[trigger] mates(side, along, i, j) <==> mate[i] == Some(
            j as usize,
        ))
}

/// The run that follows one.
fn next_run(
    chains: &Vec<Vec<usize>>,
    mate: &Vec<Option<usize>>,
    c: usize,
    Ghost(side): Ghost<Seq<i8>>,
    Ghost(along): Ghost<Seq<i64>>,
    Ghost(below): Ghost<bool>,
    Ghost(from): Ghost<int>,
    Ghost(spans): Ghost<Seq<(int, int)>>,
) -> (r: Option<usize>)
    requires
        runs_known(side, along, below, from, spans, chains@, mate@),
        c < chains@.len(),
    ensures
        r matches Some(d) ==> d < chains@.len(),
        forall|d: int|
            0 <= d < spans.len() ==> (#[trigger] follows(
                side,
                along,
                from,
                spans[c as int],
                spans[d],
            ) <==> r == Some(d as usize)),
{
    let ghost k = side.len() as int;
    assert(chains@[c as int]@ == corners_of(from, k, spans[c as int]));
    let m: usize = chains[c].len();
    let last: usize = chains[c][m - 1];
    assert(last == turn(from, k, spans[c as int].1 - 1));
    let p: usize = match mate[last] {
        Some(p) => p,
        None => {
            assert forall|d: int| 0 <= d < spans.len() implies !#[trigger] follows(
                side,
                along,
                from,
                spans[c as int],
                spans[d],
            ) by {
                let first = turn(from, k, spans[d].0);
                assert(mates(side, along, last as int, first) <==> mate@[last as int] == Some(
                    first as usize,
                ));
            }
            return None;
        },
    };
    let mut d: usize = 0;
    while d < chains.len()
        invariant
            runs_known(side, along, below, from, spans, chains@, mate@),
            k == side.len(),
            c < chains@.len(),
            d <= chains@.len(),
            last < mate@.len(),
            last == turn(from, k, spans[c as int].1 - 1),
            mate@[last as int] == Some(p),
            forall|x: int|
                0 <= x < d ==> !#[trigger] follows(side, along, from, spans[c as int], spans[x]),
        decreases chains.len() - d,
    {
        assert(chains@[d as int]@ == corners_of(from, k, spans[d as int]));
        let first: usize = chains[d][0];
        assert(first == turn(from, k, spans[d as int].0));
        assert(mates(side, along, last as int, first as int) <==> mate@[last as int] == Some(first));
        if first == p {
            proof {
                assert forall|x: int| 0 <= x < spans.len() implies (#[trigger] follows(
                    side,
                    along,
                    from,
                    spans[c as int],
                    spans[x],
                ) <==> x == d) by {
                    let f = turn(from, k, spans[x].0);
                    assert(mates(side, along, last as int, f) <==> mate@[last as int] == Some(
                        f as usize,
                    ));
                    if x < d {
                        assert(spans[x].1 < spans[d as int].0);
                    } else if x > d {
                        assert(spans[d as int].1 < spans[x].0);
                    }
                }
            }
            return Some(d);
        }
        d = d + 1;
    }
    None
}

/// Lists as sequences of numbers.
pub open spec fn lists(v: Seq<Vec<usize>>) -> Seq<Seq<usize>> {
    Seq::new(v.len(), |i: int| v[i]@)
}

/// The pieces so far, without that every run is in one.
spec fn pieces_so_far(
    side: Seq<i8>,
    along: Seq<i64>,
    from: int,
    spans: Seq<(int, int)>,
    pieces: Seq<Seq<usize>>,
) -> bool {
    &&& forall|a: int| 0 <= a < pieces.len() ==> (#[trigger] pieces[a]).len() > 0
    &&& forall|a: int, i: int|
        0 <= a < pieces.len() && 0 <= i < pieces[a].len() ==> (#[trigger] pieces[a][i])
            < spans.len()
    &&& forall|a: int, i: int, b: int, j: int|
        0 <= a < pieces.len() && 0 <= i < pieces[a].len() && 0 <= b < pieces.len() && 0 <= j
            < pieces[b].len() && #[trigger] pieces[a][i] == #[trigger] pieces[b][j] ==> a == b && i
            == j
    &&& forall|a: int, i: int|
        0 <= a < pieces.len() && 0 < i < pieces[a].len() ==> follows(
            side,
            along,
            from,
            spans[pieces[a][i - 1] as int],
            spans[#[trigger] pieces[a][i] as int],
        )
    &&& forall|a: int, d: int|
        0 <= a < pieces.len() && 0 <= d < spans.len() && #[trigger] follows(
            side,
            along,
            from,
            spans[(#[trigger] pieces[a]).last() as int],
            spans[d],
        ) ==> in_pieces(pieces, a + 1, d)
    &&& forall|a: int, c: int|
        0 <= a < pieces.len() && 0 <= c < (#[trigger] pieces[a])[0] ==> #[trigger] in_pieces(
            pieces,
            a,
            c,
        )
}

/// What is in the first pieces is in them when there is one more.
proof fn in_more_pieces(pieces: Seq<Seq<usize>>, one: Seq<usize>, n: int, c: int)
    requires
        0 <= n <= pieces.len(),
    ensures
        in_pieces(pieces.push(one), n, c) <==> in_pieces(pieces, n, c),
        in_pieces(pieces.push(one), pieces.len() as int + 1, c) <==> in_pieces(
            pieces,
            pieces.len() as int,
            c,
        ) || exists|i: int| 0 <= i < one.len() && #[trigger] one[i] == c,
{
    let more = pieces.push(one);
    assert forall|m: int| 0 <= m <= pieces.len() implies (#[trigger] in_pieces(more, m, c)
        <==> in_pieces(pieces, m, c)) by {
        if in_pieces(more, m, c) {
            let (a, i) = choose|a: int, i: int|
                0 <= a < m && 0 <= i < more[a].len() && #[trigger] more[a][i] == c;
            assert(pieces[a][i] == c);
        }
        if in_pieces(pieces, m, c) {
            let (a, i) = choose|a: int, i: int|
                0 <= a < m && 0 <= i < pieces[a].len() && #[trigger] pieces[a][i] == c;
            assert(more[a][i] == c);
        }
    }
    assert(in_pieces(more, n, c) <==> in_pieces(pieces, n, c));
    let all = pieces.len() as int;
    assert(in_pieces(more, all, c) <==> in_pieces(pieces, all, c));
    if in_pieces(more, all + 1, c) {
        let (a, i) = choose|a: int, i: int|
            0 <= a < all + 1 && 0 <= i < more[a].len() && #[trigger] more[a][i] == c;
        if a < all {
            assert(pieces[a][i] == c);
        } else {
            assert(one[i] == c);
        }
    }
    if in_pieces(pieces, all, c) {
        let (a, i) = choose|a: int, i: int|
            0 <= a < all && 0 <= i < pieces[a].len() && #[trigger] pieces[a][i] == c;
        assert(more[a][i] == c);
    }
    if exists|i: int| 0 <= i < one.len() && #[trigger] one[i] == c {
        let i = choose|i: int| 0 <= i < one.len() && #[trigger] one[i] == c;
        assert(more[all][i] == c);
    }
}

/// One more piece.
proof fn one_more_piece(
    side: Seq<i8>,
    along: Seq<i64>,
    from: int,
    spans: Seq<(int, int)>,
    pieces: Seq<Seq<usize>>,
    one: Seq<usize>,
)
    requires
        pieces_so_far(side, along, from, spans, pieces),
        one.len() > 0,
        forall|i: int| 0 <= i < one.len() ==> (#[trigger] one[i]) < spans.len(),
        forall|i: int, j: int|
            0 <= i < one.len() && 0 <= j < one.len() && #[trigger] one[i] == #[trigger] one[j] ==> i
                == j,
        forall|i: int|
            0 <= i < one.len() ==> !in_pieces(
                pieces,
                pieces.len() as int,
                #[trigger] one[i] as int,
            ),
        forall|i: int|
            0 < i < one.len() ==> follows(
                side,
                along,
                from,
                spans[one[i - 1] as int],
                spans[#[trigger] one[i] as int],
            ),
        forall|d: int|
            0 <= d < spans.len() && #[trigger] follows(
                side,
                along,
                from,
                spans[one.last() as int],
                spans[d],
            ) ==> in_pieces(pieces, pieces.len() as int, d) || exists|i: int|
                0 <= i < one.len() && #[trigger] one[i] == d,
        forall|c: int|
            0 <= c < one[0] ==> #[trigger] in_pieces(pieces, pieces.len() as int, c),
    ensures
        pieces_so_far(side, along, from, spans, pieces.push(one)),
{
    let more = pieces.push(one);
    let n = pieces.len() as int;
    assert forall|a: int, i: int, b: int, j: int|
        0 <= a < more.len() && 0 <= i < more[a].len() && 0 <= b < more.len() && 0 <= j
            < more[b].len() && #[trigger] more[a][i] == #[trigger] more[b][j] implies a == b && i
        == j by {
        if a < n && b < n {
            assert(pieces[a][i] == pieces[b][j]);
        } else if a < n {
            assert(pieces[a][i] == one[j]);
            assert(in_pieces(pieces, n, one[j] as int));
        } else if b < n {
            assert(pieces[b][j] == one[i]);
            assert(in_pieces(pieces, n, one[i] as int));
        }
    }
    assert forall|a: int, d: int|
        0 <= a < more.len() && 0 <= d < spans.len() && #[trigger] follows(
            side,
            along,
            from,
            spans[(#[trigger] more[a]).last() as int],
            spans[d],
        ) implies in_pieces(more, a + 1, d) by {
        if a < n {
            assert(more[a] == pieces[a]);
            in_more_pieces(pieces, one, a + 1, d);
        } else {
            in_more_pieces(pieces, one, n, d);
        }
    }
    assert forall|a: int, c: int|
        0 <= a < more.len() && 0 <= c < (#[trigger] more[a])[0] implies #[trigger] in_pieces(
        more,
        a,
        c,
    ) by {
        if a < n {
            assert(more[a] == pieces[a]);
            assert(in_pieces(pieces, a, c));
        } else {
            assert(in_pieces(pieces, n, c));
        }
        in_more_pieces(pieces, one, a, c);
    }
    assert forall|a: int, i: int| 0 <= a < more.len() && 0 < i < more[a].len() implies follows(
        side,
        along,
        from,
        spans[more[a][i - 1] as int],
        spans[#[trigger] more[a][i] as int],
    ) by {
        if a < n {
            assert(more[a][i] == pieces[a][i]);
        } else {
            assert(more[a][i] == one[i]);
        }
    }
    assert forall|a: int, i: int| 0 <= a < more.len() && 0 <= i < more[a].len() implies (
    #[trigger] more[a][i]) < spans.len() by {
        if a < n {
            assert(more[a][i] == pieces[a][i]);
        } else {
            assert(more[a][i] == one[i]);
        }
    }
}

/// Closes the runs into pieces.
fn stitch(
    chains: &Vec<Vec<usize>>,
    mate: &Vec<Option<usize>>,
    Ghost(side): Ghost<Seq<i8>>,
    Ghost(along): Ghost<Seq<i64>>,
    Ghost(below): Ghost<bool>,
    Ghost(from): Ghost<int>,
    Ghost(spans): Ghost<Seq<(int, int)>>,
) -> (r: Vec<Vec<usize>>)
    requires
        runs_known(side, along, below, from, spans, chains@, mate@),
    ensures
        pieces_ok(side, along, from, spans, lists(r@)),
{
    let n: usize = chains.len();
    let mut used: Vec<bool> = Vec::new();
    let mut i: usize = 0;
    while i < n
        invariant
            i <= n,
            used@.len() == i,
            forall|c: int| 0 <= c < i ==> !#[trigger] used@[c],
        decreases n - i,
    {
        used.push(false);
        i = i + 1;
    }
    let mut out: Vec<Vec<usize>> = Vec::new();
    let mut ci: usize = 0;
    while ci < n
        invariant
            runs_known(side, along, below, from, spans, chains@, mate@),
            n == chains@.len() == spans.len(),
            ci <= n,
            used@.len() == n,
            pieces_so_far(side, along, from, spans, lists(out@)),
            forall|c: int|
                0 <= c < n ==> (#[trigger] used@[c] <==> in_pieces(
                    lists(out@),
                    out@.len() as int,
                    c,
                )),
            forall|c: int| 0 <= c < ci ==> #[trigger] used@[c],
        decreases n - ci,
    {
        if !used[ci] {
            let ghost pieces = lists(out@);
            let ghost all = out@.len() as int;
            let ghost was_used = used@;
            let mut ring: Vec<usize> = Vec::new();
            ring.push(ci);
            used.set(ci, true);
            proof {
                assert(ring@[0] == ci);
                assert forall|c: int| 0 <= c < ci implies #[trigger] in_pieces(pieces, all, c) by {
                    assert(was_used[c]);
                }
                assert forall|c: int| 0 <= c < n implies (#[trigger] used@[c] <==> in_pieces(
                    pieces,
                    all,
                    c,
                ) || exists|i: int| 0 <= i < ring@.len() && #[trigger] ring@[i] == c) by {
                    assert(was_used[c] <==> in_pieces(pieces, all, c));
                    if exists|i: int| 0 <= i < ring@.len() && #[trigger] ring@[i] == c {
                        let i = choose|i: int| 0 <= i < ring@.len() && #[trigger] ring@[i] == c;
                        assert(i == 0);
                    }
                }
                assert(!was_used[ci as int]);
            }
            let mut cur: usize = ci;
            loop
                invariant
                    runs_known(side, along, below, from, spans, chains@, mate@),
                    n == chains@.len() == spans.len(),
                    used@.len() == n,
                    pieces == lists(out@),
                    all == out@.len(),
                    ring@.len() > 0,
                    ring@[0] == ci,
                    ring@[ring@.len() - 1] == cur,
                    cur < n,
                    forall|i: int| 0 <= i < ring@.len() ==> (#[trigger] ring@[i]) < n,
                    forall|i: int, j: int|
                        0 <= i < ring@.len() && 0 <= j < ring@.len() && #[trigger] ring@[i]
                            == #[trigger] ring@[j] ==> i == j,
                    forall|i: int|
                        0 <= i < ring@.len() ==> !in_pieces(
                            pieces,
                            all,
                            #[trigger] ring@[i] as int,
                        ),
                    forall|i: int|
                        0 < i < ring@.len() ==> follows(
                            side,
                            along,
                            from,
                            spans[ring@[i - 1] as int],
                            spans[#[trigger] ring@[i] as int],
                        ),
                    forall|c: int|
                        0 <= c < n ==> (#[trigger] used@[c] <==> in_pieces(pieces, all, c) || exists|
                            i: int,
                        |
                            0 <= i < ring@.len() && #[trigger] ring@[i] == c),
                    forall|c: int| 0 <= c < ci ==> #[trigger] used@[c],
                    forall|c: int| 0 <= c < ci ==> #[trigger] in_pieces(pieces, all, c),
                ensures
                    forall|d: int|
                        0 <= d < spans.len() && #[trigger] follows(
                            side,
                            along,
                            from,
                            spans[cur as int],
                            spans[d],
                        ) ==> used@[d],
                decreases n - ring@.len(),
            {
                let next: Option<usize> = next_run(
                    chains,
                    mate,
                    cur,
                    Ghost(side),
                    Ghost(along),
                    Ghost(below),
                    Ghost(from),
                    Ghost(spans),
                );
                let d: usize = match next {
                    Some(d) => d,
                    None => {
                        break;
                    },
                };
                if used[d] {
                    break;
                }
                let ghost was = ring@;
                let ghost was_used = used@;
                ring.push(d);
                used.set(d, true);
                proof {
                    assert forall|c: int| 0 <= c < n implies (#[trigger] used@[c] <==> in_pieces(
                        pieces,
                        all,
                        c,
                    ) || exists|i: int| 0 <= i < ring@.len() && #[trigger] ring@[i] == c) by {
                        if c == d {
                            assert(ring@[was.len() as int] == c);
                        } else {
                            assert(used@[c] == was_used[c]);
                            if exists|i: int| 0 <= i < was.len() && #[trigger] was[i] == c {
                                let i = choose|i: int| 0 <= i < was.len() && #[trigger] was[i] == c;
                                assert(ring@[i] == c);
                            }
                            if exists|i: int| 0 <= i < ring@.len() && #[trigger] ring@[i] == c {
                                let i = choose|i: int|
                                    0 <= i < ring@.len() && #[trigger] ring@[i] == c;
                                assert(was[i] == c);
                            }
                        }
                    }
                    assert forall|i: int, j: int|
                        0 <= i < ring@.len() && 0 <= j < ring@.len() && #[trigger] ring@[i]
                            == #[trigger] ring@[j] implies i == j by {
                        if i < was.len() && j < was.len() {
                            assert(was[i] == was[j]);
                        } else if i < was.len() {
                            assert(was[i] == d);
                            assert(was_used[d as int]);
                        } else if j < was.len() {
                            assert(was[j] == d);
                            assert(was_used[d as int]);
                        }
                    }
                    assert(follows(side, along, from, spans[cur as int], spans[d as int]));
                    assert forall|i: int| 0 < i < ring@.len() implies follows(
                        side,
                        along,
                        from,
                        spans[ring@[i - 1] as int],
                        spans[#[trigger] ring@[i] as int],
                    ) by {
                        if i < was.len() {
                            assert(was[i] == ring@[i]);
                        }
                    }
                    let ints = Seq::new(ring@.len(), |i: int| ring@[i] as int);
                    assert(ints.no_duplicates());
                    few_nodes(ints, n as int);
                }
                cur = d;
            }
            proof {
                one_more_piece(side, along, from, spans, pieces, ring@);
                assert forall|c: int| 0 <= c < n implies (#[trigger] used@[c] <==> in_pieces(
                    pieces.push(ring@),
                    all + 1,
                    c,
                )) by {
                    in_more_pieces(pieces, ring@, all, c);
                }
            }
            let ghost had = out@;
            let ghost one = ring@;
            out.push(ring);
            assert(lists(out@) =~= pieces.push(one));
        }
        ci = ci + 1;
    }
    proof {
        assert forall|c: int| 0 <= c < spans.len() implies #[trigger] in_pieces(
            lists(out@),
            lists(out@).len() as int,
            c,
        ) by {
            assert(used@[c]);
        }
    }
    out
}

/// The corners of some runs, one run after the other.
fn walk(
    chains: &Vec<Vec<usize>>,
    piece: &Vec<usize>,
    Ghost(from): Ghost<int>,
    Ghost(k): Ghost<int>,
    Ghost(spans): Ghost<Seq<(int, int)>>,
) -> (r: Vec<usize>)
    requires
        chains@.len() == spans.len(),
        forall|j: int|
            0 <= j < chains@.len() ==> (#[trigger] chains@[j])@ == corners_of(from, k, spans[j]),
        forall|i: int| 0 <= i < piece@.len() ==> (#[trigger] piece@[i]) < chains@.len(),
    ensures
        r@ == walked(from, k, spans, piece@),
{
    let mut out: Vec<usize> = Vec::new();
    let mut i: usize = 0;
    assert(piece@.subrange(0, 0) =~= Seq::<usize>::empty());
    while i < piece.len()
        invariant
            i <= piece@.len(),
            chains@.len() == spans.len(),
            forall|j: int|
                0 <= j < chains@.len() ==> (#[trigger] chains@[j])@ == corners_of(
                    from,
                    k,
                    spans[j],
                ),
            forall|j: int| 0 <= j < piece@.len() ==> (#[trigger] piece@[j]) < chains@.len(),
            out@ == walked(from, k, spans, piece@.subrange(0, i as int)),
        decreases piece.len() - i,
    {
        let c: usize = piece[i];
        assert(piece@[i as int] < chains@.len());
        let ghost had = out@;
        let chain: &Vec<usize> = &chains[c];
        let mut j: usize = 0;
        assert(had + chain@.subrange(0, 0) =~= had);
        while j < chain.len()
            invariant
                j <= chain@.len(),
                out@ == had + chain@.subrange(0, j as int),
            decreases chain.len() - j,
        {
            out.push(chain[j]);
            assert(out@ =~= had + chain@.subrange(0, j + 1));
            j = j + 1;
        }
        proof {
            assert(chain@.subrange(0, chain@.len() as int) =~= chain@);
            let more = piece@.subrange(0, i + 1);
            assert(more.drop_last() =~= piece@.subrange(0, i as int));
            assert(more.last() == c);
            assert(chain@ == corners_of(from, k, spans[c as int]));
        }
        i = i + 1;
    }
    assert(piece@.subrange(0, piece@.len() as int) =~= piece@);
    out
}

/// The pieces on a side of the line.
fn pieces_on(side: &Vec<i8>, mate: &Vec<Option<usize>>, below: bool, Ghost(along): Ghost<Seq<i64>>) -> (r:
    Vec<Vec<usize>>)
    requires
        side@.len() * 2 <= usize::MAX,
        mate@.len() == side@.len(),
        forall|i: int, j: int|
            0 <= i < mate@.len() && 0 <= j < mate@.len() ==> (#[trigger] mates(side@, along, i, j)
                <==> mate@[i] == Some(j as usize)),
    ensures
        side_pieces(side@, along, below, lists(r@)),
{
    let k: usize = side.len();
    let mut from: usize = 0;
    while from < k && is_within(side, below, from)
        invariant
            from <= k == side@.len(),
            forall|i: int| 0 <= i < from ==> #[trigger] within(side@, below, i),
        decreases k - from,
    {
        from = from + 1;
    }
    let mut out: Vec<Vec<usize>> = Vec::new();
    if from == k {
        let mut whole: Vec<usize> = Vec::new();
        let mut i: usize = 0;
        while i < k
            invariant
                i <= k,
                whole@ == Seq::new(i as nat, |j: int| j as usize),
            decreases k - i,
        {
            whole.push(i);
            assert(whole@ =~= Seq::new((i + 1) as nat, |j: int| j as usize));
            i = i + 1;
        }
        out.push(whole);
        return out;
    }
    let (chains, Ghost(spans)) = runs(side, below, from);
    let rings: Vec<Vec<usize>> = stitch(
        &chains,
        mate,
        Ghost(side@),
        Ghost(along),
        Ghost(below),
        Ghost(from as int),
        Ghost(spans),
    );
    let ghost pieces = lists(rings@);
    let mut a: usize = 0;
    while a < rings.len()
        invariant
            a <= rings@.len(),
            k == side@.len(),
            chains@.len() == spans.len(),
            forall|j: int|
                0 <= j < chains@.len() ==> (#[trigger] chains@[j])@ == corners_of(
                    from as int,
                    k as int,
                    spans[j],
                ),
            pieces == lists(rings@),
            pieces_ok(side@, along, from as int, spans, pieces),
            out@.len() == a,
            forall|b: int|
                0 <= b < a ==> (#[trigger] out@[b])@ == walked(
                    from as int,
                    k as int,
                    spans,
                    pieces[b],
                ),
        decreases rings.len() - a,
    {
        proof {
            assert forall|i: int| 0 <= i < rings@[a as int]@.len() implies (
            #[trigger] rings@[a as int]@[i]) < chains@.len() by {
                assert(pieces[a as int][i] < spans.len());
            }
        }
        let ring: Vec<usize> = walk(
            &chains,
            &rings[a],
            Ghost(from as int),
            Ghost(k as int),
            Ghost(spans),
        );
        out.push(ring);
        a = a + 1;
    }
    assert(spans_ok(side@, below, from as int, spans) && pieces_ok(
        side@,
        along,
        from as int,
        spans,
        pieces,
    ));
    out
}

/// The pieces on both sides of a line.
#[derive(Debug)]
pub struct Cut {
    /// The pieces on the negative side.
    pub below: Vec<Vec<usize>>,
    /// The pieces on the positive side.
    pub above: Vec<Vec<usize>>,
}

/// The corner behind one, round the ring.
pub open spec fn behind(k: int, i: int) -> int {
    if i == 0 {
        k - 1
    } else {
        i - 1
    }
}

/// The side of the nearest corner behind one that is off the line, within so many
/// steps round the ring; zero where there is none.
pub open spec fn side_behind(side: Seq<i8>, i: int, steps: nat) -> i8
    decreases steps,
{
    if steps == 0 {
        0
    } else {
        let j = behind(side.len() as int, i);
        if side[j] != 0 {
            side[j]
        } else {
            side_behind(side, j, (steps - 1) as nat)
        }
    }
}

/// The side of the nearest corner ahead of one that is off the line, within so many
/// steps round the ring; zero where there is none.
pub open spec fn side_ahead(side: Seq<i8>, i: int, steps: nat) -> i8
    decreases steps,
{
    if steps == 0 {
        0
    } else {
        let j = turn(i, side.len() as int, 1);
        if side[j] != 0 {
            side[j]
        } else {
            side_ahead(side, j, (steps - 1) as nat)
        }
    }
}

/// Are two sides opposite?
pub open spec fn opposite(a: i8, b: i8) -> bool {
    (a < 0 && b > 0) || (a > 0 && b < 0)
}

/// The side that a corner counts as: off the line its own. On the line it is a crossing,
/// and on it, where the ring passes from one side to the other and leaves the line right
/// after; any other corner on the line only touches it, and counts as what is behind it.
pub open spec fn side_taken(side: Seq<i8>, i: int) -> i8 {
    let from = side_behind(side, i, side.len());
    if side[i] != 0 {
        side[i]
    } else if opposite(from, side_ahead(side, i, side.len())) && side[turn(
        i,
        side.len() as int,
        1,
    )] != 0 {
        0
    } else {
        from
    }
}

/// The sides that the corners of a ring count as.
pub open spec fn sides_taken(side: Seq<i8>) -> Seq<i8> {
    Seq::new(side.len(), |i: int| side_taken(side, i))
}

/// Are a corner and the next one on opposite sides?
pub open spec fn jumps(side: Seq<i8>, i: int) -> bool {
    opposite(side[i], side[turn(i, side.len() as int, 1)])
}

/// Is every crossing of the line a corner: are no two corners in a row on opposite
/// sides?
pub open spec fn crossings_are_corners(side: Seq<i8>) -> bool {
    forall|i: int| 0 <= i < side.len() ==> !#[trigger] jumps(side, i)
}

/// Does the whole ring lie on the line?
pub open spec fn all_on_line(side: Seq<i8>) -> bool {
    forall|i: int| 0 <= i < side.len() ==> #[trigger] side[i] == 0
}

fn look_behind(side: &Vec<i8>, i: usize) -> (r: i8)
    requires
        i < side@.len(),
    ensures
        r == side_behind(side@, i as int, side@.len()),
{
    let k: usize = side.len();
    let mut at: usize = i;
    let mut left: usize = k;
    while left > 0
        invariant
            k == side@.len(),
            left <= k,
            at < k,
            side_behind(side@, i as int, k as nat) == side_behind(side@, at as int, left as nat),
        decreases left,
    {
        at = if at == 0 {
            k - 1
        } else {
            at - 1
        };
        if side[at] != 0 {
            return side[at];
        }
        left = left - 1;
    }
    0
}

fn look_ahead(side: &Vec<i8>, i: usize) -> (r: i8)
    requires
        i < side@.len(),
    ensures
        r == side_ahead(side@, i as int, side@.len()),
{
    let k: usize = side.len();
    let mut at: usize = i;
    let mut left: usize = k;
    while left > 0
        invariant
            k == side@.len(),
            left <= k,
            at < k,
            side_ahead(side@, i as int, k as nat) == side_ahead(side@, at as int, left as nat),
        decreases left,
    {
        at = if at == k - 1 {
            0
        } else {
            at + 1
        };
        if side[at] != 0 {
            return side[at];
        }
        left = left - 1;
    }
    0
}

/// The sides that the corners of a ring count as.
fn take_sides(side: &Vec<i8>) -> (r: Vec<i8>)
    ensures
        r@ == sides_taken(side@),
{
    let k: usize = side.len();
    let mut out: Vec<i8> = Vec::new();
    let mut i: usize = 0;
    while i < k
        invariant
            i <= k == side@.len(),
            out@ == sides_taken(side@).subrange(0, i as int),
        decreases k - i,
    {
        let next: usize = if i == k - 1 {
            0
        } else {
            i + 1
        };
        let from: i8 = look_behind(side, i);
        let to: i8 = look_ahead(side, i);
        let crosses: bool = (from < 0 && to > 0) || (from > 0 && to < 0);
        let taken: i8 = if side[i] != 0 {
            side[i]
        } else if crosses && side[next] != 0 {
            0
        } else {
            from
        };
        assert(taken == side_taken(side@, i as int));
        out.push(taken);
        i = i + 1;
        assert(out@ =~= sides_taken(side@).subrange(0, i as int));
    }
    assert(out@ =~= sides_taken(side@));
    out
}

/// The pieces that a ring falls into along a line, as its corners: those on the negative
/// side and those on the positive side. A ring that lies on one side is one piece of that
/// side, and one that lies on the line is on neither. Nothing where a crossing of the
/// line is no corner of the ring.
pub fn split_ring(side: &Vec<i8>, along: &Vec<i64>) -> (r: Option<Cut>)
    requires
        side@.len() == along@.len(),
        side@.len() * 2 <= usize::MAX,
    ensures
        r is Some <==> crossings_are_corners(side@),
        r is None <==> exists|i: int|
            0 <= i < side@.len() && {
                let next = if i + 1 == side@.len() {
                    0
                } else {
                    i + 1
                };
                ((#[trigger] side@[i]) < 0 && side@[next] > 0) || (side@[i] > 0 && side@[next] < 0)
            },
        r matches Some(c) ==> ((forall|i: int|
            0 <= i < side@.len() ==> #[trigger] side@[i] == 0) ==> c.below@.len() == 0
            && c.above@.len() == 0),
        r matches Some(c) ==> if all_on_line(side@) {
            c.below@.len() == 0 && c.above@.len() == 0
        } else {
            side_pieces(sides_taken(side@), along@, true, lists(c.below@)) && side_pieces(
                sides_taken(side@),
                along@,
                false,
                lists(c.above@),
            )
        },
{
    let k: usize = side.len();
    let mut flat: bool = true;
    let mut i: usize = 0;
    while i < k
        invariant
            i <= k == side@.len(),
            flat <==> forall|j: int| 0 <= j < i ==> #[trigger] side@[j] == 0,
            forall|j: int| 0 <= j < i ==> !#[trigger] jumps(side@, j),
        decreases k - i,
    {
        let next: usize = if i == k - 1 {
            0
        } else {
            i + 1
        };
        let (a, b): (i8, i8) = (side[i], side[next]);
        if (a < 0 && b > 0) || (a > 0 && b < 0) {
            assert(jumps(side@, i as int));
            return None;
        }
        if a != 0 {
            flat = false;
        }
        i = i + 1;
    }
    assert forall|j: int| 0 <= j < k implies !({
        let next = if j + 1 == k {
            0
        } else {
            j + 1
        };
        ((#[trigger] side@[j]) < 0 && side@[next] > 0) || (side@[j] > 0 && side@[next] < 0)
    }) by {
        assert(!jumps(side@, j));
    }
    if flat {
        return Some(Cut { below: Vec::new(), above: Vec::new() });
    }
    let taken: Vec<i8> = take_sides(side);
    let order: Vec<usize> = line_up(&taken, along);
    let mate: Vec<Option<usize>> = mates_of(&taken, &order, Ghost(along@));
    let below: Vec<Vec<usize>> = pieces_on(&taken, &mate, true, Ghost(along@));
    let above: Vec<Vec<usize>> = pieces_on(&taken, &mate, false, Ghost(along@));
    Some(Cut { below, above })
}

/// A ring that lies on one side of a line is one piece of that side, and none of the
/// other.
pub proof fn a_ring_on_one_side_stays_whole(
    side: Seq<i8>,
    along: Seq<i64>,
    below: bool,
    r: Seq<Seq<usize>>,
)
    requires
        side.len() <= usize::MAX,
        !all_on_line(side),
        forall|i: int| 0 <= i < side.len() ==> #[trigger] within(side, below, i),
    ensures
        side_pieces(sides_taken(side), along, below, r) ==> r == seq![
            Seq::new(side.len(), |i: int| i as usize),
        ],
        side_pieces(sides_taken(side), along, !below, r) ==> r.len() == 0,
{
    let t = sides_taken(side);
    let k = side.len() as int;
    let f = choose|f: int| 0 <= f < k && #[trigger] side[f] != 0;
    assert forall|i: int| 0 <= i < k implies #[trigger] side_taken(side, i) != 0 && within(
        t,
        below,
        i,
    ) by {
        let steps = if i > f {
            i - f
        } else {
            i - f + k
        };
        found_behind(side, f, i, steps as nat, side.len());
        behind_is_one_of(side, i, side.len());
        ahead_is_one_of(side, i, side.len());
        let j = choose|j: int| 0 <= j < k && #[trigger] side[j] == side_behind(side, i, side.len());
        assert(within(side, below, j));
        assert(within(side, below, i));
        if side_ahead(side, i, side.len()) != 0 {
            let m = choose|m: int|
                0 <= m < k && #[trigger] side[m] == side_ahead(side, i, side.len());
            assert(within(side, below, m));
        }
    }
    assert forall|i: int| 0 <= i < k implies #[trigger] within(t, below, i) by {
        assert(side_taken(side, i) != 0);
    }
    let other = !below;
    assert forall|i: int| 0 <= i < k implies !#[trigger] within(t, other, i) by {
        assert(within(t, below, i));
        assert(side_taken(side, i) != 0);
    }
    if side_pieces(t, along, below, r) {
        assert(r =~= seq![Seq::new(side.len(), |i: int| i as usize)]);
    }
    if side_pieces(t, along, other, r) {
        no_corner_no_piece(t, along, other, r);
    }
}

/// A side without corners has no pieces.
proof fn no_corner_no_piece(side: Seq<i8>, along: Seq<i64>, below: bool, r: Seq<Seq<usize>>)
    requires
        side.len() > 0,
        forall|i: int| 0 <= i < side.len() ==> !#[trigger] within(side, below, i),
        side_pieces(side, along, below, r),
    ensures
        r.len() == 0,
{
    let k = side.len() as int;
    assert(!within(side, below, 0));
    let (from, spans, pieces) = choose|
        from: int,
        spans: Seq<(int, int)>,
        pieces: Seq<Seq<usize>>,
    |
        0 <= from < k && !within(side, below, from) && (forall|i: int|
            0 <= i < from ==> #[trigger] within(side, below, i)) && #[trigger] spans_ok(
            side,
            below,
            from,
            spans,
        ) && #[trigger] pieces_ok(side, along, from, spans, pieces) && r.len() == pieces.len()
            && forall|a: int|
            0 <= a < r.len() ==> #[trigger] r[a] == walked(from, k, spans, pieces[a]);
    if pieces.len() > 0 {
        assert(pieces[0].len() > 0);
        let c = pieces[0][0] as int;
        assert(pieces[0][0] < spans.len());
        assert(within(side, below, turn(from, k, spans[c].0)));
    }
}

/// Where a corner so many steps behind is off the line, what lies behind is found within
/// those steps.
proof fn found_behind(side: Seq<i8>, f: int, i: int, steps: nat, n: nat)
    requires
        0 <= f < side.len(),
        0 <= i < side.len(),
        1 <= steps <= n,
        steps <= side.len(),
        side[f] != 0,
        i == turn(f, side.len() as int, steps as int),
    ensures
        side_behind(side, i, n) != 0,
        side_behind(side, i, n) == side_behind(side, i, steps),
    decreases steps,
{
    let k = side.len() as int;
    let j = behind(k, i);
    assert(j == turn(f, k, steps - 1));
    if steps == 1 {
        assert(j == f);
    } else if side[j] == 0 {
        found_behind(side, f, j, (steps - 1) as nat, (n - 1) as nat);
    }
}

proof fn behind_is_one_of(side: Seq<i8>, i: int, steps: nat)
    requires
        0 <= i < side.len(),
    ensures
        side_behind(side, i, steps) != 0 ==> exists|j: int|
            0 <= j < side.len() && #[trigger] side[j] == side_behind(side, i, steps),
    decreases steps,
{
    if steps > 0 {
        let j = behind(side.len() as int, i);
        if side[j] == 0 {
            behind_is_one_of(side, j, (steps - 1) as nat);
        }
    }
}

proof fn ahead_is_one_of(side: Seq<i8>, i: int, steps: nat)
    requires
        0 <= i < side.len(),
    ensures
        side_ahead(side, i, steps) != 0 ==> exists|j: int|
            0 <= j < side.len() && #[trigger] side[j] == side_ahead(side, i, steps),
    decreases steps,
{
    if steps > 0 {
        let j = turn(i, side.len() as int, 1);
        if side[j] == 0 {
            ahead_is_one_of(side, j, (steps - 1) as nat);
        }
    }
}

/// Those of the corners up to so many steps round the ring from one that are crossings.
spec fn crossed(side: Seq<i8>, f: int, steps: nat) -> Set<int>
    decreases steps,
{
    if steps == 0 {
        Set::empty()
    } else {
        let i = turn(f, side.len() as int, steps as int);
        let before = crossed(side, f, (steps - 1) as nat);
        if side_taken(side, i) == 0 {
            before.insert(i)
        } else {
            before
        }
    }
}

proof fn crossed_lie_behind(side: Seq<i8>, f: int, steps: nat)
    requires
        0 <= f < side.len(),
        steps <= side.len(),
    ensures
        crossed(side, f, steps).finite(),
        forall|i: int| #[trigger]
            crossed(side, f, steps).contains(i) <==> (0 <= i < side.len() && side_taken(side, i)
                == 0 && exists|s: int| 1 <= s <= steps && i == #[trigger] turn(
                f,
                side.len() as int,
                s,
            )),
    decreases steps,
{
    if steps > 0 {
        let k = side.len() as int;
        crossed_lie_behind(side, f, (steps - 1) as nat);
        let here = turn(f, k, steps as int);
        let before = crossed(side, f, (steps - 1) as nat);
        assert forall|i: int| #[trigger] crossed(side, f, steps).contains(i) <==> (0 <= i
            < side.len() && side_taken(side, i) == 0 && exists|s: int|
            1 <= s <= steps && i == #[trigger] turn(f, k, s)) by {
            if before.contains(i) {
                let s = choose|s: int| 1 <= s <= steps - 1 && i == #[trigger] turn(f, k, s);
                assert(1 <= s <= steps && i == turn(f, k, s));
            }
            if exists|s: int| 1 <= s <= steps && i == #[trigger] turn(f, k, s) {
                let s = choose|s: int| 1 <= s <= steps && i == #[trigger] turn(f, k, s);
                if s < steps {
                    assert(1 <= s <= steps - 1 && i == turn(f, k, s));
                } else {
                    assert(i == here);
                }
            }
            if i == here {
                assert(1 <= steps <= steps && i == turn(f, k, steps as int));
            }
        }
    }
}

/// Is a side the same as that of the corner where the walk began?
spec fn back_home(side: Seq<i8>, f: int, x: i8) -> bool {
    !opposite(side[f], x)
}

/// One more step round the ring: what lies behind, and what was crossed.
proof fn one_step_on(side: Seq<i8>, f: int, steps: nat)
    requires
        0 <= f < side.len(),
        side[f] != 0,
        1 <= steps <= side.len(),
    ensures
        ({
            let k = side.len() as int;
            let h = turn(f, k, steps - 1);
            let i = turn(f, k, steps as int);
            &&& 0 <= h < k && 0 <= i < k
            &&& i == turn(h, k, 1)
            &&& side_behind(side, i, side.len()) == if side[h] != 0 {
                side[h]
            } else {
                side_behind(side, h, side.len())
            }
            &&& side_behind(side, i, side.len()) != 0
            &&& side[i] != 0 ==> side_ahead(side, h, side.len()) == side[i]
            &&& crossed(side, f, steps).len() == crossed(side, f, (steps - 1) as nat).len()
                + if side_taken(side, i) == 0 {
                1nat
            } else {
                0nat
            }
        }),
{
    let k = side.len() as int;
    let m = (steps - 1) as nat;
    let h = turn(f, k, m as int);
    let i = turn(f, k, steps as int);
    assert(h == behind(k, i));
    found_behind(side, f, i, steps, side.len());
    if side[h] == 0 {
        assert(m > 0) by {
            if m == 0 {
                assert(h == f);
            }
        }
        found_behind(side, f, h, m, side.len());
        found_behind(side, f, h, m, (side.len() - 1) as nat);
    }
    crossed_lie_behind(side, f, m);
    assert(!crossed(side, f, m).contains(i)) by {
        if crossed(side, f, m).contains(i) {
            let s = choose|s: int| 1 <= s <= m && i == #[trigger] turn(f, k, s);
            assert(s != steps);
        }
    }
}

/// Is the number of crossings up to a corner even exactly where the walk is on the side
/// where it began? Right behind a crossing, the walk is on the side ahead.
spec fn turned_right(side: Seq<i8>, f: int, steps: nat) -> bool {
    let k = side.len() as int;
    let i = turn(f, k, steps as int);
    let now = if side[i] != 0 {
        side[i]
    } else if side_taken(side, i) == 0 {
        side[turn(i, k, 1)]
    } else {
        side_behind(side, i, side.len())
    };
    (crossed(side, f, steps).len() % 2 == 0) == back_home(side, f, now)
}

/// Each crossing takes the walk to the other side.
proof fn crossings_turn_sides(side: Seq<i8>, f: int, steps: nat)
    requires
        0 <= f < side.len(),
        side[f] != 0,
        steps <= side.len(),
        crossings_are_corners(side),
    ensures
        turned_right(side, f, steps),
    decreases steps,
{
    let k = side.len() as int;
    if steps > 0 {
        let m = (steps - 1) as nat;
        let h = turn(f, k, m as int);
        let i = turn(f, k, steps as int);
        crossings_turn_sides(side, f, m);
        one_step_on(side, f, steps);
        assert(!jumps(side, h));
        let from = side_behind(side, i, side.len());
        let was = crossed(side, f, m).len() % 2 == 0;
        let is = crossed(side, f, steps).len() % 2 == 0;
        assert(side[i] == 0 ==> was == back_home(side, f, from));
        if side[i] != 0 {
            assert(side_taken(side, i) != 0);
            assert(was == back_home(side, f, side[i]));
        } else if side_taken(side, i) == 0 {
            let next = side[turn(i, k, 1)];
            assert(next != 0);
            assert(side_ahead(side, i, side.len()) == next);
            assert(opposite(from, next));
            assert(is == !was);
        } else {
            assert(is == was);
        }
    } else {
        assert(crossed(side, f, 0).len() == 0);
    }
}

/// A line that crosses a ring crosses it an even number of times: the crossings pair up.
pub proof fn crossings_pair_up(side: Seq<i8>)
    requires
        crossings_are_corners(side),
        !all_on_line(side),
    ensures
        those_on(sides_taken(side)).finite(),
        those_on(sides_taken(side)).len() % 2 == 0,
{
    let k = side.len() as int;
    let f = choose|f: int| 0 <= f < k && #[trigger] side[f] != 0;
    crossings_turn_sides(side, f, side.len());
    crossed_lie_behind(side, f, side.len());
    assert(turn(f, k, k) == f);
    assert(turned_right(side, f, side.len()));
    let t = sides_taken(side);
    assert(those_on(t) =~= crossed(side, f, side.len())) by {
        assert forall|i: int| those_on(t).contains(i) <==> #[trigger] crossed(
            side,
            f,
            side.len(),
        ).contains(i) by {
            if 0 <= i < k {
                let s = if i > f {
                    i - f
                } else {
                    i - f + k
                };
                assert(1 <= s <= side.len() && i == turn(f, k, s));
            }
        }
    }
}

/// A corner off the line counts as what it is.
pub proof fn off_the_line_nothing_changes(side: Seq<i8>, i: int)
    requires
        0 <= i < side.len(),
        side[i] != 0,
    ensures
        sides_taken(side)[i] == side[i],
{
}

proof fn walked_holds(from: int, k: int, spans: Seq<(int, int)>, piece: Seq<usize>, v: usize)
    ensures
        walked(from, k, spans, piece).contains(v) <==> exists|t: int|
            0 <= t < piece.len() && corners_of(from, k, spans[#[trigger] piece[t] as int]).contains(v),
    decreases piece.len(),
{
    let all = walked(from, k, spans, piece);
    if piece.len() > 0 {
        let rest = piece.drop_last();
        walked_holds(from, k, spans, rest, v);
        let past = walked(from, k, spans, rest);
        let here = corners_of(from, k, spans[piece.last() as int]);
        if all.contains(v) {
            let i = all.index_of(v);
            if i < past.len() {
                assert(past[i] == v);
                assert(past.contains(v));
                let t = choose|t: int|
                    0 <= t < rest.len() && corners_of(
                        from,
                        k,
                        spans[#[trigger] rest[t] as int],
                    ).contains(v);
                assert(piece[t] == rest[t]);
            } else {
                assert(here[i - past.len()] == v);
                assert(here.contains(v));
                assert(piece[piece.len() - 1] == piece.last());
            }
        }
        if exists|t: int|
            0 <= t < piece.len() && corners_of(from, k, spans[#[trigger] piece[t] as int]).contains(
                v,
            ) {
            let t = choose|t: int|
                0 <= t < piece.len() && corners_of(
                    from,
                    k,
                    spans[#[trigger] piece[t] as int],
                ).contains(v);
            if t < rest.len() {
                assert(rest[t] == piece[t]);
                assert(past.contains(v));
                assert(all[past.index_of(v)] == v);
            } else {
                assert(all[past.len() + here.index_of(v)] == v);
            }
        }
    } else {
        assert(all =~= Seq::<usize>::empty());
    }
}

/// A corner is in one run at most.
proof fn one_run(
    side: Seq<i8>,
    below: bool,
    from: int,
    spans: Seq<(int, int)>,
    c: int,
    d: int,
    v: usize,
)
    requires
        side.len() <= usize::MAX,
        0 <= from < side.len(),
        spans_ok(side, below, from, spans),
        0 <= c < spans.len(),
        0 <= d < spans.len(),
        corners_of(from, side.len() as int, spans[c]).contains(v),
        corners_of(from, side.len() as int, spans[d]).contains(v),
    ensures
        c == d,
        v < side.len(),
        within(side, below, v as int),
{
    let k = side.len() as int;
    let x = corners_of(from, k, spans[c]);
    let y = corners_of(from, k, spans[d]);
    let i = x.index_of(v);
    let j = y.index_of(v);
    assert(x[i] == v && y[j] == v);
    let (s, t) = (spans[c].0 + i, spans[d].0 + j);
    assert(turn(from, k, s) as usize == v && turn(from, k, t) as usize == v);
    assert(within(side, below, turn(from, k, s)));
    assert(s == t);
    if c < d {
        assert(spans[c].1 < spans[d].0);
    } else if d < c {
        assert(spans[d].1 < spans[c].0);
    }
}

/// A corner on the side is in one of the pieces.
proof fn in_some_piece(
    side: Seq<i8>,
    along: Seq<i64>,
    below: bool,
    from: int,
    spans: Seq<(int, int)>,
    pieces: Seq<Seq<usize>>,
    v: usize,
) -> (a: int)
    requires
        side.len() <= usize::MAX,
        0 <= from < side.len(),
        !within(side, below, from),
        spans_ok(side, below, from, spans),
        pieces_ok(side, along, from, spans, pieces),
        v < side.len(),
        within(side, below, v as int),
    ensures
        0 <= a < pieces.len(),
        walked(from, side.len() as int, spans, pieces[a]).contains(v),
{
    let k = side.len() as int;
    let t = if v > from {
        v - from
    } else {
        v - from + k
    };
    assert(turn(from, k, t) == v);
    assert(1 <= t < k);
    assert(spanned(spans, t));
    let j = choose|j: int| 0 <= j < spans.len() && (#[trigger] spans[j]).0 <= t < spans[j].1;
    assert(in_pieces(pieces, pieces.len() as int, j));
    let (a, x) = choose|a: int, x: int|
        0 <= a < pieces.len() && 0 <= x < pieces[a].len() && #[trigger] pieces[a][x] == j;
    let run = corners_of(from, k, spans[j]);
    assert(run[t - spans[j].0] == v);
    assert(run.contains(v));
    walked_holds(from, k, spans, pieces[a], v);
    a
}

/// A corner is in no two pieces, and on the side.
proof fn in_one_piece(
    side: Seq<i8>,
    along: Seq<i64>,
    below: bool,
    from: int,
    spans: Seq<(int, int)>,
    pieces: Seq<Seq<usize>>,
    a: int,
    b: int,
    v: usize,
)
    requires
        side.len() <= usize::MAX,
        0 <= from < side.len(),
        spans_ok(side, below, from, spans),
        pieces_ok(side, along, from, spans, pieces),
        0 <= a < pieces.len(),
        0 <= b < pieces.len(),
        walked(from, side.len() as int, spans, pieces[a]).contains(v),
        walked(from, side.len() as int, spans, pieces[b]).contains(v),
    ensures
        a == b,
        v < side.len(),
        within(side, below, v as int),
{
    let k = side.len() as int;
    walked_holds(from, k, spans, pieces[a], v);
    walked_holds(from, k, spans, pieces[b], v);
    let x = choose|x: int|
        0 <= x < pieces[a].len() && corners_of(
            from,
            k,
            spans[#[trigger] pieces[a][x] as int],
        ).contains(v);
    let y = choose|y: int|
        0 <= y < pieces[b].len() && corners_of(
            from,
            k,
            spans[#[trigger] pieces[b][y] as int],
        ).contains(v);
    assert(pieces[a][x] < spans.len() && pieces[b][y] < spans.len());
    one_run(side, below, from, spans, pieces[a][x] as int, pieces[b][y] as int, v);
}

/// No corner is lost by a cut, and none is doubled: every corner on a side, or on the
/// line, is in one of the pieces of that side and in no other, and a piece holds no
/// corner of the other side.
pub proof fn every_corner_is_in_one_piece(
    side: Seq<i8>,
    along: Seq<i64>,
    below: bool,
    r: Seq<Seq<usize>>,
    v: usize,
)
    requires
        side.len() <= usize::MAX,
        side_pieces(side, along, below, r),
    ensures
        v < side.len() && within(side, below, v as int) ==> exists|a: int|
            0 <= a < r.len() && (#[trigger] r[a]).contains(v),
        forall|a: int, b: int|
            0 <= a < r.len() && 0 <= b < r.len() && (#[trigger] r[a]).contains(v) && (
            #[trigger] r[b]).contains(v) ==> a == b,
        forall|a: int|
            0 <= a < r.len() && (#[trigger] r[a]).contains(v) ==> v < side.len() && within(
                side,
                below,
                v as int,
            ),
{
    let k = side.len() as int;
    if forall|i: int| 0 <= i < k ==> within(side, below, i) {
        let whole = Seq::new(side.len(), |i: int| i as usize);
        assert(r[0] == whole);
        if v < k {
            assert(whole[v as int] == v);
            assert(r[0].contains(v));
        }
    } else {
        let (from, spans, pieces) = choose|
            from: int,
            spans: Seq<(int, int)>,
            pieces: Seq<Seq<usize>>,
        |
            0 <= from < k && !within(side, below, from) && (forall|i: int|
                0 <= i < from ==> #[trigger] within(side, below, i)) && #[trigger] spans_ok(
                side,
                below,
                from,
                spans,
            ) && #[trigger] pieces_ok(side, along, from, spans, pieces) && r.len() == pieces.len()
                && forall|a: int|
                0 <= a < r.len() ==> #[trigger] r[a] == walked(from, k, spans, pieces[a]);
        if v < k && within(side, below, v as int) {
            let a = in_some_piece(side, along, below, from, spans, pieces, v);
            assert(r[a] == walked(from, k, spans, pieces[a]));
        }
        assert forall|a: int, b: int|
            0 <= a < r.len() && 0 <= b < r.len() && (#[trigger] r[a]).contains(v) && (
            #[trigger] r[b]).contains(v) implies a == b && v < side.len() && within(
            side,
            below,
            v as int,
        ) by {
            assert(r[a] == walked(from, k, spans, pieces[a]));
            assert(r[b] == walked(from, k, spans, pieces[b]));
            in_one_piece(side, along, below, from, spans, pieces, a, b, v);
        }
    }
}

/// The edge that a parcel faces its street on, given a key for each edge that can be
/// faced: the one with the greatest key, and the first of those.
pub fn front_edge(keys: &Vec<Option<(i64, i64, i64, i64)>>) -> (r: Option<usize>)
    ensures
        r is None <==> forall|i: int| 0 <= i < keys@.len() ==> (#[trigger] keys@[i]) is None,
        r matches Some(b) ==> b < keys@.len() && keys@[b as int] is Some && (forall|i: int|
            0 <= i < keys@.len() && (#[trigger] keys@[i]) is Some ==> !key_gt(
                keys@[i]->0,
                keys@[b as int]->0,
            )) && (forall|i: int|
            0 <= i < b && (#[trigger] keys@[i]) is Some ==> key_gt(
                keys@[b as int]->0,
                keys@[i]->0,
            )),
        r matches Some(b) ==> forall|i: int|
            0 <= i < keys@.len() && (#[trigger] keys@[i]) is Some ==> {
                let (x, y) = (keys@[i]->0, keys@[b as int]->0);
                &&& x.0 <= y.0
                &&& x.0 == y.0 ==> x.1 <= y.1
                &&& x.0 == y.0 && x.1 == y.1 ==> x.2 <= y.2
                &&& x.0 == y.0 && x.1 == y.1 && x.2 == y.2 ==> x.3 <= y.3
                &&& x.0 == y.0 && x.1 == y.1 && x.2 == y.2 && x.3 == y.3 ==> b <= i
            },
{
    let mut best: Option<(usize, (i64, i64, i64, i64))> = None;
    let mut i: usize = 0;
    while i < keys.len()
        invariant
            i <= keys@.len(),
            match best {
                Some((b, key)) => b < i && keys@[b as int] == Some(key) && (forall|j: int|
                    0 <= j < i && (#[trigger] keys@[j]) is Some ==> !key_gt(keys@[j]->0, key)) && (
                forall|j: int|
                    0 <= j < b && (#[trigger] keys@[j]) is Some ==> key_gt(key, keys@[j]->0)),
                None => forall|j: int| 0 <= j < i ==> (#[trigger] keys@[j]) is None,
            },
        decreases keys.len() - i,
    {
        if let Some(key) = keys[i] {
            let better: bool = match best {
                Some((_, b)) => key.0 > b.0 || (key.0 == b.0 && (key.1 > b.1 || (key.1 == b.1 && (
                key.2 > b.2 || (key.2 == b.2 && key.3 > b.3))))),
                None => true,
            };
            if better {
                best = Some((i, key));
            }
        }
        i = i + 1;
    }
    match best {
        Some((b, _)) => Some(b),
        None => None,
    }
}

/// Is a key greater than another, place by place?
pub open spec fn key_gt(a: (i64, i64, i64, i64), b: (i64, i64, i64, i64)) -> bool {
    ||| a.0 > b.0
    ||| a.0 == b.0 && a.1 > b.1
    ||| a.0 == b.0 && a.1 == b.1 && a.2 > b.2
    ||| a.0 == b.0 && a.1 == b.1 && a.2 == b.2 && a.3 > b.3
}

/// Two corners on the line bound one interval inside the ring where, of the corners on the
/// line in order along it and of those at one place in order round the ring, they are
/// the first and second, the third and fourth, and so on.
pub proof fn corners_on_the_line_pair_up(side: Seq<i8>, along: Seq<i64>, i: int, j: int)
    requires
        0 <= i < side.len(),
        0 <= j < side.len(),
    ensures
        ({
            let rank = |c: int|
                Set::new(
                    |m: int|
                        0 <= m < side.len() && side[m] == 0 && (along[m] < along[c] || (along[m]
                            == along[c] && m < c)),
                ).len();
            mates(side, along, i, j) <==> i != j && side[i] == 0 && side[j] == 0 && rank(i) / 2
                == rank(j) / 2
        }),
        mates(side, along, i, j) == mates(side, along, j, i),
{
    let ahead = |c: int|
        Set::new(
            |m: int|
                0 <= m < side.len() && side[m] == 0 && (along[m] < along[c] || (along[m]
                    == along[c] && m < c)),
        );
    assert(ahead(i) =~= those_before(side, along, i));
    assert(ahead(j) =~= those_before(side, along, j));
}

/// Going round the ring comes to each corner in turn, and after the last to the first; a
/// corner is on a side where its sign says so, and on both where it is on the line.
pub proof fn a_ring_goes_round(side: Seq<i8>, i: int, steps: int)
    requires
        0 <= i < side.len(),
        0 <= steps <= side.len(),
    ensures
        turn(i, side.len() as int, steps) == (i + steps) % (side.len() as int),
        behind(side.len() as int, i) == (i + side.len() - 1) % (side.len() as int),
        within(side, true, i) <==> side[i] < 0 || side[i] == 0,
        within(side, false, i) <==> side[i] > 0 || side[i] == 0,
        jumps(side, i) <==> side[i] * side[(i + 1) % (side.len() as int)] < 0,
{
    let k = side.len() as int;
    if i + steps < k {
        vstd::arithmetic::div_mod::lemma_small_mod((i + steps) as nat, k as nat);
    } else if i + steps - k < k {
        vstd::arithmetic::div_mod::lemma_small_mod((i + steps - k) as nat, k as nat);
        vstd::arithmetic::div_mod::lemma_mod_add_multiples_vanish(i + steps - k, k);
    }
    if i == 0 {
        vstd::arithmetic::div_mod::lemma_small_mod((k - 1) as nat, k as nat);
    } else {
        vstd::arithmetic::div_mod::lemma_small_mod((i - 1) as nat, k as nat);
        vstd::arithmetic::div_mod::lemma_mod_add_multiples_vanish(i - 1, k);
    }
    if i + 1 < k {
        vstd::arithmetic::div_mod::lemma_small_mod((i + 1) as nat, k as nat);
    } else {
        assert(k % k == 0) by (nonlinear_arith)
            requires
                k > 0,
        ;
    }
    let (a, b) = (side[i] as int, side[turn(i, k, 1)] as int);
    assert(turn(i, k, 1) == (i + 1) % k);
    assert((a < 0 && b > 0) || (a > 0 && b < 0) <==> a * b < 0) by (nonlinear_arith);
}

/// Looking ahead round the ring finds the first corner off the line, and looking behind
/// the last; neither finds one only where all corners looked at are on it.
pub proof fn looking_round_finds_the_nearest(side: Seq<i8>, i: int, steps: nat)
    requires
        0 <= i < side.len(),
        steps <= side.len(),
    ensures
        ({
            let k = side.len() as int;
            let s = side_ahead(side, i, steps);
            (s == 0 && (forall|d: int|
                1 <= d <= steps ==> side[#[trigger] turn(i, k, d)] == 0)) || (s != 0 && exists|
                d: int,
            |
                1 <= d <= steps && side[#[trigger] turn(i, k, d)] == s && (forall|c: int|
                    1 <= c < d ==> side[#[trigger] turn(i, k, c)] == 0))
        }),
        ({
            let k = side.len() as int;
            let s = side_behind(side, i, steps);
            (s == 0 && (forall|d: int|
                1 <= d <= steps ==> side[#[trigger] turn(i, k, k - d)] == 0)) || (s != 0 && exists|
                d: int,
            |
                1 <= d <= steps && side[#[trigger] turn(i, k, k - d)] == s && (forall|c: int|
                    1 <= c < d ==> side[#[trigger] turn(i, k, k - c)] == 0))
        }),
    decreases steps,
{
    let k = side.len() as int;
    if steps > 0 {
        let less = (steps - 1) as nat;
        let ahead = turn(i, k, 1);
        let back = behind(k, i);
        assert(back == turn(i, k, k - 1));
        looking_round_finds_the_nearest(side, ahead, less);
        looking_round_finds_the_nearest(side, back, less);
        assert forall|d: int| 2 <= d <= steps implies #[trigger] turn(i, k, d) == turn(
            ahead,
            k,
            d - 1,
        ) by {}
        assert forall|d: int| 2 <= d <= steps implies #[trigger] turn(i, k, k - d) == turn(
            back,
            k,
            k - (d - 1),
        ) by {}
        if side[ahead] != 0 {
            assert(side[turn(i, k, 1)] == side_ahead(side, i, steps));
        } else {
            let s = side_ahead(side, ahead, less);
            assert(s == side_ahead(side, i, steps));
            if s != 0 {
                let d = choose|d: int|
                    1 <= d <= less && side[#[trigger] turn(ahead, k, d)] == s && (forall|c: int|
                        1 <= c < d ==> side[#[trigger] turn(ahead, k, c)] == 0);
                assert(side[turn(i, k, d + 1)] == s);
                assert forall|c: int| 1 <= c < d + 1 implies side[#[trigger] turn(i, k, c)]
                    == 0 by {
                    if c > 1 {
                        assert(turn(i, k, c) == turn(ahead, k, c - 1));
                    }
                }
            } else {
                assert forall|d: int| 1 <= d <= steps implies side[#[trigger] turn(i, k, d)]
                    == 0 by {
                    if d > 1 {
                        assert(turn(i, k, d) == turn(ahead, k, d - 1));
                    }
                }
            }
        }
        if side[back] != 0 {
            assert(side[turn(i, k, k - 1)] == side_behind(side, i, steps));
        } else {
            let s = side_behind(side, back, less);
            assert(s == side_behind(side, i, steps));
            if s != 0 {
                let d = choose|d: int|
                    1 <= d <= less && side[#[trigger] turn(back, k, k - d)] == s && (forall|c: int|
                        1 <= c < d ==> side[#[trigger] turn(back, k, k - c)] == 0);
                assert(side[turn(i, k, k - (d + 1))] == s);
                assert forall|c: int| 1 <= c < d + 1 implies side[#[trigger] turn(i, k, k - c)]
                    == 0 by {
                    if c > 1 {
                        assert(turn(i, k, k - c) == turn(back, k, k - (c - 1)));
                    }
                }
            } else {
                assert forall|d: int| 1 <= d <= steps implies side[#[trigger] turn(i, k, k - d)]
                    == 0 by {
                    if d > 1 {
                        assert(turn(i, k, k - d) == turn(back, k, k - (d - 1)));
                    }
                }
            }
        }
    }
}

/// A corner off the line counts as its own side. One on it is a crossing where the corners
/// off the line behind and ahead of it are on opposite sides and the next corner is off
/// the line; else it counts as the side behind it.
pub proof fn corners_that_touch_the_line_stay_on_their_side(side: Seq<i8>, i: int)
    requires
        0 <= i < side.len(),
    ensures
        sides_taken(side).len() == side.len(),
        ({
            let from = side_behind(side, i, side.len());
            let to = side_ahead(side, i, side.len());
            let next = if i + 1 == side.len() {
                0
            } else {
                i + 1
            };
            sides_taken(side)[i] == if side[i] != 0 {
                side[i]
            } else if ((from < 0 && to > 0) || (from > 0 && to < 0)) && side[next] != 0 {
                0i8
            } else {
                from
            }
        }),
{
}

proof fn walked_goes_on(
    side: Seq<i8>,
    along: Seq<i64>,
    from: int,
    spans: Seq<(int, int)>,
    piece: Seq<usize>,
)
    requires
        0 <= from < side.len() <= usize::MAX,
        forall|j: int|
            0 <= j < spans.len() ==> 1 <= (#[trigger] spans[j]).0 < spans[j].1 <= side.len(),
        forall|i: int| 0 <= i < piece.len() ==> (#[trigger] piece[i]) < spans.len(),
        forall|i: int|
            0 < i < piece.len() ==> follows(
                side,
                along,
                from,
                spans[piece[i - 1] as int],
                spans[#[trigger] piece[i] as int],
            ),
    ensures
        ({
            let k = side.len() as int;
            let w = walked(from, k, spans, piece);
            &&& piece.len() > 0 ==> w.len() > 0 && w.last() == turn(
                from,
                k,
                spans[piece.last() as int].1 - 1,
            )
            &&& forall|t: int|
                0 <= t < w.len() - 1 ==> w[t + 1] == turn((#[trigger] w[t]) as int, k, 1) || mates(
                    side,
                    along,
                    w[t] as int,
                    w[t + 1] as int,
                )
        }),
    decreases piece.len(),
{
    let k = side.len() as int;
    let w = walked(from, k, spans, piece);
    if piece.len() > 0 {
        let rest = piece.drop_last();
        assert forall|i: int| 0 < i < rest.len() implies follows(
            side,
            along,
            from,
            spans[rest[i - 1] as int],
            spans[#[trigger] rest[i] as int],
        ) by {
            assert(rest[i] == piece[i] && rest[i - 1] == piece[i - 1]);
        }
        assert forall|i: int| 0 <= i < rest.len() implies (#[trigger] rest[i]) < spans.len() by {
            assert(rest[i] == piece[i]);
        }
        walked_goes_on(side, along, from, spans, rest);
        let had = walked(from, k, spans, rest);
        assert(piece[piece.len() - 1] < spans.len());
        let span = spans[piece.last() as int];
        assert(1 <= span.0 < span.1 <= k);
        let more = corners_of(from, k, span);
        assert(w == had + more);
        assert(more.len() == span.1 - span.0);
        assert(more.last() == turn(from, k, span.1 - 1));
        assert(w.last() == more.last());
        assert forall|t: int| 0 <= t < w.len() - 1 implies w[t + 1] == turn(
            (#[trigger] w[t]) as int,
            k,
            1,
        ) || mates(side, along, w[t] as int, w[t + 1] as int) by {
            if t < had.len() - 1 {
                assert(w[t] == had[t] && w[t + 1] == had[t + 1]);
            } else if t == had.len() - 1 {
                assert(rest.len() > 0) by {
                    if rest.len() == 0 {
                        assert(had =~= seq![]);
                    }
                }
                let last = piece.len() - 1;
                assert(follows(
                    side,
                    along,
                    from,
                    spans[piece[last - 1] as int],
                    spans[piece[last] as int],
                ));
                assert(rest.last() == piece[last - 1]);
                assert(w[t] == had.last());
                assert(w[t + 1] == more[0]);
            } else {
                let s = t - had.len();
                assert(w[t] == more[s] && w[t + 1] == more[s + 1]);
                let x = turn(from, k, span.0 + s);
                assert(turn(from, k, span.0 + s + 1) == turn(x, k, 1));
            }
        }
    }
}

/// A piece is walked from each corner to the next one round the ring, or along the line to
/// the corner that bounds the same interval.
pub proof fn pieces_go_round_the_ring_or_along_the_line(
    side: Seq<i8>,
    along: Seq<i64>,
    below: bool,
    r: Seq<Seq<usize>>,
    a: int,
    t: int,
)
    requires
        side.len() <= usize::MAX,
        side_pieces(side, along, below, r),
        0 <= a < r.len(),
        0 <= t < r[a].len() - 1,
    ensures
        r[a][t + 1] == (if r[a][t] + 1 == side.len() {
            0
        } else {
            r[a][t] + 1
        }) || mates(side, along, r[a][t] as int, r[a][t + 1] as int),
{
    let k = side.len() as int;
    every_corner_is_in_one_piece(side, along, below, r, r[a][t]);
    assert(r[a].contains(r[a][t]));
    if forall|i: int| 0 <= i < k ==> within(side, below, i) {
        let whole = Seq::new(side.len(), |i: int| i as usize);
        assert(r[0] == whole);
    } else {
        let (from, spans, pieces) = choose|
            from: int,
            spans: Seq<(int, int)>,
            pieces: Seq<Seq<usize>>,
        |
            0 <= from < k && !within(side, below, from) && (forall|i: int|
                0 <= i < from ==> #[trigger] within(side, below, i)) && #[trigger] spans_ok(
                side,
                below,
                from,
                spans,
            ) && #[trigger] pieces_ok(side, along, from, spans, pieces) && r.len() == pieces.len()
                && forall|a: int|
                0 <= a < r.len() ==> #[trigger] r[a] == walked(from, k, spans, pieces[a]);
        assert(r[a] == walked(from, k, spans, pieces[a]));
        assert forall|i: int| 0 <= i < pieces[a].len() implies (#[trigger] pieces[a][i])
            < spans.len() by {}
        assert forall|j: int| 0 <= j < spans.len() implies 1 <= (#[trigger] spans[j]).0
            < spans[j].1 <= side.len() by {}
        walked_goes_on(side, along, from, spans, pieces[a]);
    }
}

} // verus!
