//! Blocks: the closed faces of the road graph, and whose ground each is.
use vstd::prelude::*;

use crate::folds::{filter_none, filter_step, take_all};
use crate::logical::LogicalPath;
use crate::ordered::TextMap;

verus! {

/// One block.
#[derive(Debug)]
pub struct BlockPlan {
    /// The district that owns it, if any.
    pub district: Option<u32>,
    /// The plots inside it.
    pub plots: Vec<u32>,
    /// Is no plot inside it?
    pub open: bool,
    /// Is it drawn as part of one mass?
    pub industrial: bool,
    /// The half-edges around it.
    pub half_edges: Vec<usize>,
    /// The growth step of the oldest plot inside it.
    pub birth: u32,
}

/// A settled plot, as far as whose ground it is on goes.
#[derive(Debug, Clone, Copy)]
pub struct PlotSeat {
    /// The district of its files.
    pub district: u32,
    /// The growth step at which it was settled.
    pub birth: u32,
    /// The block it was located in, if any.
    pub block: Option<u32>,
    /// Does it lie inside that block, and not only nearest to it?
    pub inside: bool,
    /// How far inside the block it lies, in thousandths.
    pub depth: i64,
    /// Does it hold a file that is drawn as part of one mass?
    pub industrial: bool,
}

/// What a plot's vote weighs: how far inside it lies, and at least one.
pub open spec fn weight(p: PlotSeat) -> int {
    if p.depth > 1 {
        p.depth as int
    } else {
        1
    }
}

/// Does the plot vote in a block for a district?
pub open spec fn votes_for(p: PlotSeat, b: int, d: u32) -> bool {
    p.district == d && (p.block matches Some(x) && x == b)
}

/// What the first `n` plots weigh in a block for a district.
pub open spec fn votes(plots: Seq<PlotSeat>, b: int, d: u32, n: nat) -> int
    decreases n,
{
    if n == 0 || n > plots.len() {
        0
    } else {
        votes(plots, b, d, (n - 1) as nat) + if votes_for(plots[n - 1], b, d) {
            weight(plots[n - 1])
        } else {
            0
        }
    }
}

/// What all plots weigh in a block for a district.
pub open spec fn poll(plots: Seq<PlotSeat>, b: int, d: u32) -> int {
    votes(plots, b, d, plots.len())
}

/// Does the district win the block: the heaviest vote, the lower number where two
/// are as heavy?
pub open spec fn wins(plots: Seq<PlotSeat>, b: int, d: u32) -> bool {
    &&& poll(plots, b, d) > 0
    &&& forall|f: u32|
        f != d && #[trigger] poll(plots, b, f) > 0 ==> poll(plots, b, d) > poll(plots, b, f) || (
        poll(plots, b, d) == poll(plots, b, f) && d < f)
}

/// The district that wins a block, if any plot votes in it.
pub open spec fn winner(plots: Seq<PlotSeat>, b: int) -> Option<u32> {
    if exists|d: u32| wins(plots, b, d) {
        Some(choose|d: u32| wins(plots, b, d))
    } else {
        None
    }
}

/// Only one district wins a block.
proof fn winner_is(plots: Seq<PlotSeat>, b: int, d: u32)
    requires
        wins(plots, b, d),
    ensures
        winner(plots, b) == Some(d),
{
    let w = choose|w: u32| wins(plots, b, w);
    assert(wins(plots, b, w));
    if w != d {
        assert(poll(plots, b, w) > 0 && poll(plots, b, d) > 0);
    }
}

proof fn votes_grow(plots: Seq<PlotSeat>, b: int, d: u32, n: nat, m: nat)
    requires
        n <= m <= plots.len(),
    ensures
        0 <= votes(plots, b, d, n) <= votes(plots, b, d, m),
    decreases m,
{
    if n < m {
        votes_grow(plots, b, d, n, (m - 1) as nat);
    } else if n > 0 {
        votes_grow(plots, b, d, (n - 1) as nat, (n - 1) as nat);
    }
}

fn poll_of(plots: &Vec<PlotSeat>, b: usize, d: u32) -> (r: i128)
    requires
        plots@.len() <= u32::MAX,
    ensures
        r == poll(plots@, b as int, d),
{
    let mut total: i128 = 0;
    let mut i: usize = 0;
    while i < plots.len()
        invariant
            i <= plots@.len() <= u32::MAX,
            total == votes(plots@, b as int, d, i as nat),
            0 <= total <= i * 0x7fff_ffff_ffff_ffff,
        decreases plots.len() - i,
    {
        let p: PlotSeat = plots[i];
        let here: bool = match p.block {
            Some(x) => x as usize == b,
            None => false,
        };
        if here && p.district == d {
            total = total + if p.depth > 1 {
                p.depth as i128
            } else {
                1
            };
        }
        i = i + 1;
    }
    total
}

fn winner_of(plots: &Vec<PlotSeat>, b: usize) -> (r: Option<u32>)
    requires
        plots@.len() <= u32::MAX,
    ensures
        r == winner(plots@, b as int),
{
    let mut best: Option<(i128, u32)> = None;
    let mut i: usize = 0;
    while i < plots.len()
        invariant
            i <= plots@.len() <= u32::MAX,
            match best {
                Some(p) => {
                    &&& p.0 == poll(plots@, b as int, p.1)
                    &&& p.0 > 0
                    &&& forall|k: int|
                        0 <= k < i && (#[trigger] plots@[k]).district != p.1 && votes_for(
                            plots@[k],
                            b as int,
                            plots@[k].district,
                        ) ==> p.0 > poll(plots@, b as int, plots@[k].district) || (p.0 == poll(
                            plots@,
                            b as int,
                            plots@[k].district,
                        ) && p.1 < plots@[k].district)
                },
                None => forall|k: int|
                    0 <= k < i ==> !votes_for(
                        #[trigger] plots@[k],
                        b as int,
                        plots@[k].district,
                    ),
            },
        decreases plots.len() - i,
    {
        let p: PlotSeat = plots[i];
        let here: bool = match p.block {
            Some(x) => x as usize == b,
            None => false,
        };
        if here {
            proof {
                votes_grow(plots@, b as int, p.district, i as nat, i as nat);
                votes_grow(plots@, b as int, p.district, (i + 1) as nat, plots@.len());
            }
            let t: i128 = poll_of(plots, b, p.district);
            let better: bool = match best {
                Some((bt, bd)) => t > bt || (t == bt && p.district < bd),
                None => true,
            };
            if better {
                best = Some((t, p.district));
            }
        }
        i = i + 1;
    }
    proof {
        match best {
            Some(p) => {
                assert forall|f: u32|
                    f != p.1 && #[trigger] poll(plots@, b as int, f) > 0 implies poll(
                    plots@,
                    b as int,
                    p.1,
                ) > poll(plots@, b as int, f) || (poll(plots@, b as int, p.1) == poll(
                    plots@,
                    b as int,
                    f,
                ) && p.1 < f) by {
                    let k = voter(plots@, b as int, f, plots@.len());
                    assert(plots@[k].district == f);
                }
                assert(wins(plots@, b as int, p.1));
                winner_is(plots@, b as int, p.1);
            },
            None => {
                assert forall|d: u32| !#[trigger] wins(plots@, b as int, d) by {
                    if poll(plots@, b as int, d) > 0 {
                        let k = voter(plots@, b as int, d, plots@.len());
                        assert(!votes_for(plots@[k], b as int, plots@[k].district));
                    }
                }
            },
        }
    }
    match best {
        Some((_, d)) => Some(d),
        None => None,
    }
}

proof fn voter(plots: Seq<PlotSeat>, b: int, d: u32, n: nat) -> (k: int)
    requires
        votes(plots, b, d, n) > 0,
        n <= plots.len(),
    ensures
        0 <= k < n,
        votes_for(plots[k], b, d),
    decreases n,
{
    if votes_for(plots[n - 1], b, d) {
        n - 1
    } else {
        voter(plots, b, d, (n - 1) as nat)
    }
}

/// The district that wins each face, every plot counting once.
pub fn face_districts(plot_face: &Vec<Option<u32>>, plot_district: &Vec<u32>, faces: usize) -> (r:
    Vec<Option<u32>>)
    requires
        plot_face@.len() == plot_district@.len(),
        plot_face@.len() <= u32::MAX,
    ensures
        r@.len() == faces,
        forall|b: int|
            0 <= b < faces ==> #[trigger] r@[b] == winner(
                heads(plot_face@, plot_district@),
                b,
            ),
{
    let mut plots: Vec<PlotSeat> = Vec::new();
    let mut i: usize = 0;
    while i < plot_face.len()
        invariant
            i <= plot_face@.len() == plot_district@.len(),
            plots.len() == i,
            forall|k: int|
                0 <= k < i ==> #[trigger] plots@[k] == heads(plot_face@, plot_district@)[k],
        decreases plot_face.len() - i,
    {
        plots.push(
            PlotSeat {
                district: plot_district[i],
                birth: 0,
                block: plot_face[i],
                inside: true,
                depth: 1,
                industrial: false,
            },
        );
        i = i + 1;
    }
    assert(plots@ =~= heads(plot_face@, plot_district@));
    let mut out: Vec<Option<u32>> = Vec::new();
    let mut b: usize = 0;
    while b < faces
        invariant
            b <= faces,
            plots@ == heads(plot_face@, plot_district@),
            plots@.len() <= u32::MAX,
            out.len() == b,
            forall|k: int| 0 <= k < b ==> #[trigger] out@[k] == winner(plots@, k),
        decreases faces - b,
    {
        out.push(winner_of(&plots, b));
        b = b + 1;
    }
    out
}

/// Plots that count once each.
pub open spec fn heads(plot_face: Seq<Option<u32>>, plot_district: Seq<u32>) -> Seq<PlotSeat> {
    Seq::new(
        plot_face.len(),
        |i: int|
            PlotSeat {
                district: plot_district[i],
                birth: 0,
                block: plot_face[i],
                inside: true,
                depth: 1,
                industrial: false,
            },
    )
}

/// How many of the first `n` blocks a district holds.
pub open spec fn held(cur: Seq<Option<u32>>, d: u32, n: nat) -> nat
    decreases n,
{
    if n == 0 || n > cur.len() {
        0
    } else {
        held(cur, d, (n - 1) as nat) + if cur[n - 1] == Some(d) {
            1nat
        } else {
            0nat
        }
    }
}

/// Does a district have plots, and no block at first?
pub open spec fn wanting(plots: Seq<PlotSeat>, first: Seq<Option<u32>>, d: u32) -> bool {
    &&& held(first, d, first.len()) == 0
    &&& exists|k: int| 0 <= k < plots.len() && (#[trigger] plots[k]).district == d
}

/// Could a district take a block: did its plots vote there, and does another
/// district own it that keeps at least one more?
pub open spec fn can_spare(plots: Seq<PlotSeat>, cur: Seq<Option<u32>>, d: u32, b: int) -> bool {
    &&& 0 <= b < cur.len()
    &&& poll(plots, b, d) > 0
    &&& match cur[b] {
        Some(o) => o != d && held(cur, o, cur.len()) >= 2,
        None => false,
    }
}

/// Is the block the one that a district takes: where its plots weigh most, the
/// first where several are as heavy?
pub open spec fn takes(plots: Seq<PlotSeat>, cur: Seq<Option<u32>>, d: u32, b: int) -> bool {
    &&& can_spare(plots, cur, d, b)
    &&& forall|k: int|
        k != b && #[trigger] can_spare(plots, cur, d, k) ==> poll(plots, b, d) > poll(plots, k, d)
            || (poll(plots, b, d) == poll(plots, k, d) && b < k)
}

/// The owners after a district has taken a block, if there is one to take.
pub open spec fn with_seat(plots: Seq<PlotSeat>, cur: Seq<Option<u32>>, d: u32) -> Seq<Option<u32>> {
    if exists|b: int| takes(plots, cur, d, b) {
        cur.update(choose|b: int| takes(plots, cur, d, b), Some(d))
    } else {
        cur
    }
}

/// The owners after the wanting among the first `n` districts have taken a block.
pub open spec fn seated(plots: Seq<PlotSeat>, first: Seq<Option<u32>>, n: nat) -> Seq<Option<u32>>
    decreases n,
{
    if n == 0 {
        first
    } else {
        let before = seated(plots, first, (n - 1) as nat);
        if wanting(plots, first, (n - 1) as u32) {
            with_seat(plots, before, (n - 1) as u32)
        } else {
            before
        }
    }
}

proof fn takes_one(plots: Seq<PlotSeat>, cur: Seq<Option<u32>>, d: u32, b: int)
    requires
        takes(plots, cur, d, b),
    ensures
        forall|k: int| #[trigger] takes(plots, cur, d, k) ==> k == b,
{
    assert forall|k: int| #[trigger] takes(plots, cur, d, k) implies k == b by {
        if k != b {
            assert(can_spare(plots, cur, d, k));
            assert(can_spare(plots, cur, d, b));
        }
    }
}

proof fn held_update(cur: Seq<Option<u32>>, b: int, v: Option<u32>, d: u32, n: nat)
    requires
        0 <= b < cur.len(),
        n <= cur.len(),
    ensures
        held(cur.update(b, v), d, n) == held(cur, d, n) + if b < n && v == Some(d) && cur[b] != Some(
            d,
        ) {
            1int
        } else if b < n && v != Some(d) && cur[b] == Some(d) {
            -1int
        } else {
            0int
        },
    decreases n,
{
    if n > 0 {
        held_update(cur, b, v, d, (n - 1) as nat);
    }
}

/// Taking a block empties no district, and gives the taker one.
pub proof fn seating_empties_no_district(
    plots: Seq<PlotSeat>,
    cur: Seq<Option<u32>>,
    d: u32,
    f: u32,
)
    ensures
        with_seat(plots, cur, d).len() == cur.len(),
        held(cur, f, cur.len()) > 0 ==> held(with_seat(plots, cur, d), f, cur.len()) > 0,
        (exists|b: int| takes(plots, cur, d, b)) ==> held(with_seat(plots, cur, d), d, cur.len())
            > 0,
{
    if exists|b: int| takes(plots, cur, d, b) {
        let b = choose|b: int| takes(plots, cur, d, b);
        held_update(cur, b, Some(d), f, cur.len());
        held_update(cur, b, Some(d), d, cur.len());
    }
}

fn held_of(cur: &Vec<Option<u32>>, d: u32) -> (r: usize)
    ensures
        r == held(cur@, d, cur@.len()),
{
    let mut count: usize = 0;
    let mut i: usize = 0;
    while i < cur.len()
        invariant
            i <= cur@.len(),
            count == held(cur@, d, i as nat),
            count <= i,
        decreases cur.len() - i,
    {
        let mine: bool = match cur[i] {
            Some(x) => x == d,
            None => false,
        };
        if mine {
            count = count + 1;
        }
        i = i + 1;
    }
    count
}

/// Gives every district that has plots but no block the block where its plots
/// weigh most, from an owner that keeps another. Districts in order.
pub fn seat_unseated_districts(cur: &mut Vec<Option<u32>>, plots: &Vec<PlotSeat>, districts: usize)
    requires
        plots@.len() <= u32::MAX,
        districts <= u32::MAX,
    ensures
        final(cur)@ == seated(plots@, old(cur)@, districts as nat),
        final(cur)@.len() == old(cur)@.len(),
{
    let ghost first = cur@;
    let mut wants: Vec<bool> = Vec::new();
    let mut d: usize = 0;
    while d < districts
        invariant
            d <= districts <= u32::MAX,
            cur@ == first,
            wants.len() == d,
            forall|k: int| 0 <= k < d ==> #[trigger] wants@[k] == wanting(plots@, first, k as u32),
        decreases districts - d,
    {
        let mut any: bool = false;
        let mut i: usize = 0;
        while i < plots.len()
            invariant
                i <= plots@.len(),
                any == exists|k: int| 0 <= k < i && (#[trigger] plots@[k]).district == d,
            decreases plots.len() - i,
        {
            if plots[i].district as usize == d {
                assert(plots@[i as int].district == d);
                any = true;
            }
            i = i + 1;
        }
        let none: bool = held_of(cur, d as u32) == 0;
        assert((any && none) == wanting(plots@, first, d as u32)) by {
            if wanting(plots@, first, d as u32) {
                let k = choose|k: int|
                    0 <= k < plots@.len() && (#[trigger] plots@[k]).district == d as u32;
                assert(plots@[k].district == d);
            }
            if any {
                let k = choose|k: int|
                    0 <= k < plots@.len() && (#[trigger] plots@[k]).district == d;
                assert(plots@[k].district == d as u32);
            }
        }
        wants.push(any && none);
        d = d + 1;
    }
    let mut d: usize = 0;
    while d < districts
        invariant
            d <= districts <= u32::MAX,
            plots@.len() <= u32::MAX,
            wants.len() == districts,
            forall|k: int|
                0 <= k < districts ==> #[trigger] wants@[k] == wanting(plots@, first, k as u32),
            cur@ == seated(plots@, first, d as nat),
            cur@.len() == first.len(),
        decreases districts - d,
    {
        if wants[d] {
            let ghost before = cur@;
            let mut best: Option<(i128, usize)> = None;
            let mut b: usize = 0;
            while b < cur.len()
                invariant
                    b <= cur@.len(),
                    cur@ == before,
                    d < districts <= u32::MAX,
                    plots@.len() <= u32::MAX,
                    match best {
                        Some(p) => {
                            &&& p.1 < b
                            &&& can_spare(plots@, before, d as u32, p.1 as int)
                            &&& p.0 == poll(plots@, p.1 as int, d as u32)
                            &&& forall|k: int|
                                0 <= k < b && k != p.1 && #[trigger] can_spare(
                                    plots@,
                                    before,
                                    d as u32,
                                    k,
                                ) ==> p.0 > poll(plots@, k, d as u32) || (p.0 == poll(
                                    plots@,
                                    k,
                                    d as u32,
                                ) && p.1 < k)
                        },
                        None => forall|k: int|
                            0 <= k < b ==> !#[trigger] can_spare(plots@, before, d as u32, k),
                    },
                decreases cur.len() - b,
            {
                let mine: i128 = poll_of(plots, b, d as u32);
                let spare: bool = match cur[b] {
                    Some(o) => mine > 0 && o != d as u32 && held_of(cur, o) >= 2,
                    None => false,
                };
                assert(spare == can_spare(plots@, before, d as u32, b as int));
                if spare {
                    let better: bool = match best {
                        Some((t, _)) => mine > t,
                        None => true,
                    };
                    if better {
                        best = Some((mine, b));
                    }
                }
                b = b + 1;
            }
            if let Some((_, at)) = best {
                proof {
                    assert(takes(plots@, before, d as u32, at as int));
                    takes_one(plots@, before, d as u32, at as int);
                }
                cur[at] = Some(d as u32);
                assert(cur@ =~= with_seat(plots@, before, d as u32));
            } else {
                assert(with_seat(plots@, before, d as u32) == before) by {
                    assert forall|k: int| !#[trigger] takes(plots@, before, d as u32, k) by {
                        if can_spare(plots@, before, d as u32, k) {
                            assert(0 <= k < before.len());
                        }
                    }
                }
            }
        }
        d = d + 1;
    }
}

/// The plots located in a block, among the first `n`.
pub open spec fn plots_in(plots: Seq<PlotSeat>, b: int, n: nat) -> Seq<u32>
    decreases n,
{
    if n == 0 || n > plots.len() {
        seq![]
    } else {
        let before = plots_in(plots, b, (n - 1) as nat);
        if plots[n - 1].block matches Some(x) && x == b {
            before.push((n - 1) as u32)
        } else {
            before
        }
    }
}

/// The growth step of the oldest of some plots; the largest number for none.
pub open spec fn oldest_birth(plots: Seq<PlotSeat>, in_block: Seq<u32>) -> u32
    decreases in_block.len(),
{
    if in_block.len() == 0 {
        u32::MAX
    } else {
        let before = oldest_birth(plots, in_block.drop_last());
        let here = plots[in_block.last() as int].birth;
        if here < before {
            here
        } else {
            before
        }
    }
}

/// How many of some plots hold a file that is drawn as part of one mass.
pub open spec fn industrial_among(plots: Seq<PlotSeat>, in_block: Seq<u32>) -> nat
    decreases in_block.len(),
{
    if in_block.len() == 0 {
        0
    } else {
        industrial_among(plots, in_block.drop_last())
            + if plots[in_block.last() as int].industrial {
            1nat
        } else {
            0nat
        }
    }
}

/// How many of the first `n` plots lie inside no block.
pub open spec fn off_face_count(plots: Seq<PlotSeat>, n: nat) -> nat
    decreases n,
{
    if n == 0 || n > plots.len() {
        0
    } else {
        off_face_count(plots, (n - 1) as nat) + if plots[n - 1].block is Some && !plots[n
            - 1].inside {
            1nat
        } else {
            0nat
        }
    }
}

/// The owners of the blocks: the winners of the votes, then a block for every
/// district that won none.
pub open spec fn owners(plots: Seq<PlotSeat>, blocks: nat, districts: nat) -> Seq<Option<u32>> {
    seated(plots, Seq::new(blocks, |b: int| winner(plots, b)), districts)
}

proof fn seated_in_range(plots: Seq<PlotSeat>, first: Seq<Option<u32>>, n: nat, districts: nat)
    requires
        n <= districts <= u32::MAX,
        forall|b: int|
            0 <= b < first.len() ==> ((#[trigger] first[b]) matches Some(d) ==> d < districts),
    ensures
        seated(plots, first, n).len() == first.len(),
        forall|b: int|
            0 <= b < first.len() ==> ((#[trigger] seated(plots, first, n)[b]) matches Some(d) ==> d
                < districts),
    decreases n,
{
    if n > 0 {
        seated_in_range(plots, first, (n - 1) as nat, districts);
    }
}

/// Where every plot is of a district, every owner of a block is one.
pub proof fn owners_are_districts(plots: Seq<PlotSeat>, blocks: nat, districts: nat)
    requires
        districts <= u32::MAX,
        forall|k: int| 0 <= k < plots.len() ==> (#[trigger] plots[k]).district < districts,
    ensures
        owners(plots, blocks, districts).len() == blocks,
        forall|b: int|
            0 <= b < blocks ==> ((#[trigger] owners(plots, blocks, districts)[b]) matches Some(d)
                ==> d < districts),
{
    let first = Seq::new(blocks, |b: int| winner(plots, b));
    assert forall|b: int| 0 <= b < first.len() implies ((#[trigger] first[b]) matches Some(d) ==> d
        < districts) by {
        if let Some(d) = first[b] {
            assert(wins(plots, b, d));
            let k = voter(plots, b, d, plots.len());
            assert(plots[k].district < districts);
        }
    }
    seated_in_range(plots, first, districts, districts);
}

/// The block with a number, as assigned.
pub open spec fn assigned(
    plots: Seq<PlotSeat>,
    mass: Seq<bool>,
    blocks: nat,
    b: int,
    plan: BlockPlan,
) -> bool {
    let within = plots_in(plots, b, plots.len());
    let owner = owners(plots, blocks, mass.len())[b];
    &&& plan.plots@ == within
    &&& plan.open == (within.len() == 0)
    &&& plan.birth == oldest_birth(plots, within)
    &&& plan.district == owner
    &&& plan.industrial == (within.len() > 0 && (industrial_among(plots, within) * 2
        > within.len() || (owner matches Some(d) && d < mass.len() && mass[d as int])))
}

/// The plots located in a block.
fn located(plots: &Vec<PlotSeat>, b: usize) -> (r: Vec<u32>)
    requires
        plots@.len() <= u32::MAX,
    ensures
        r@ == plots_in(plots@, b as int, plots@.len()),
        forall|k: int| 0 <= k < r@.len() ==> (#[trigger] r@[k]) < plots@.len(),
        r@.len() <= plots@.len(),
{
    let mut out: Vec<u32> = Vec::new();
    let mut i: usize = 0;
    while i < plots.len()
        invariant
            i <= plots@.len() <= u32::MAX,
            out@ == plots_in(plots@, b as int, i as nat),
            out@.len() <= i,
            forall|k: int| 0 <= k < out@.len() ==> (#[trigger] out@[k]) < i,
        decreases plots.len() - i,
    {
        let here: bool = match plots[i].block {
            Some(x) => x as usize == b,
            None => false,
        };
        if here {
            out.push(i as u32);
        }
        i = i + 1;
    }
    out
}

/// Turns faces into blocks: the plots in each, its age, its owner and whether it
/// is drawn as part of one mass. Also says how many plots lie inside no block.
pub fn assign(half_edges: Vec<Vec<usize>>, plots: &Vec<PlotSeat>, mass: &Vec<bool>) -> (r: (
    Vec<BlockPlan>,
    usize,
))
    requires
        plots@.len() <= u32::MAX,
        half_edges@.len() <= u32::MAX,
        mass@.len() <= u32::MAX,
    ensures
        r.0@.len() == half_edges@.len(),
        forall|b: int|
            0 <= b < half_edges@.len() ==> assigned(
                plots@,
                mass@,
                half_edges@.len(),
                b,
                #[trigger] r.0@[b],
            ) && r.0@[b].half_edges@ == half_edges@[b]@,
        r.1 == off_face_count(plots@, plots@.len()),
        r.1 == plots@.filter(|p: PlotSeat| p.block is Some && !p.inside).len(),
        forall|b: int|
            0 <= b < half_edges@.len() ==> {
                let plan = #[trigger] r.0@[b];
                let within = plan.plots@;
                &&& forall|i: int, j: int|
                    0 <= i < j < within.len() ==> #[trigger] within[i] < #[trigger] within[j]
                &&& forall|k: u32| #[trigger]
                    within.contains(k) <==> k < plots@.len() && plots@[k as int].block == Some(
                        b as u32,
                    )
                &&& plan.open <==> forall|k: int|
                    0 <= k < plots@.len() ==> (#[trigger] plots@[k]).block != Some(b as u32)
                &&& plan.open ==> plan.district is None && plan.birth == u32::MAX
                    && !plan.industrial
                &&& !plan.open ==> plan.district is Some
                &&& plan.district matches Some(d) ==> exists|k: int|
                    0 <= k < plots@.len() && (#[trigger] plots@[k]).block == Some(b as u32)
                        && plots@[k].district == d
                &&& forall|k: int|
                    0 <= k < plots@.len() && (#[trigger] plots@[k]).block == Some(b as u32)
                        ==> plan.birth <= plots@[k].birth
                &&& plan.birth < u32::MAX ==> exists|k: int|
                    0 <= k < plots@.len() && (#[trigger] plots@[k]).block == Some(b as u32)
                        && plots@[k].birth == plan.birth
                &&& !plan.open ==> plan.industrial == (within.filter(
                    |k: u32| plots@[k as int].industrial,
                ).len() * 2 > within.len() || (plan.district matches Some(d) && d < mass@.len()
                    && mass@[d as int]))
            },
{
    let n: usize = half_edges.len();
    let mut owner: Vec<Option<u32>> = Vec::new();
    let mut b: usize = 0;
    while b < n
        invariant
            b <= n,
            plots@.len() <= u32::MAX,
            owner.len() == b,
            forall|k: int| 0 <= k < b ==> #[trigger] owner@[k] == winner(plots@, k),
        decreases n - b,
    {
        owner.push(winner_of(plots, b));
        b = b + 1;
    }
    assert(owner@ =~= Seq::new(n as nat, |k: int| winner(plots@, k)));
    seat_unseated_districts(&mut owner, plots, mass.len());
    let ghost lists = half_edges@;
    let mut rest: Vec<Vec<usize>> = crate::sort::reversed(half_edges);
    let mut out: Vec<BlockPlan> = Vec::new();
    let mut b: usize = 0;
    while b < n
        invariant
            b <= n == lists.len(),
            plots@.len() <= u32::MAX,
            owner@ == owners(plots@, n as nat, mass@.len()),
            owner@.len() == n,
            rest.len() == n - b,
            forall|k: int| 0 <= k < rest.len() ==> #[trigger] rest@[k] == lists[n - 1 - k],
            out.len() == b,
            forall|k: int|
                0 <= k < b ==> assigned(plots@, mass@, n as nat, k, #[trigger] out@[k])
                    && out@[k].half_edges@ == lists[k]@,
        decreases n - b,
    {
        let edges: Vec<usize> = match rest.pop() {
            Some(v) => v,
            None => Vec::new(),
        };
        let within: Vec<u32> = located(plots, b);
        let mut birth: u32 = 0xffff_ffff;
        let mut massed: usize = 0;
        let mut i: usize = 0;
        assert(within@.subrange(0, 0) =~= seq![]);
        while i < within.len()
            invariant
                i <= within@.len() <= plots@.len(),
                plots@.len() <= u32::MAX,
                forall|k: int| 0 <= k < within@.len() ==> (#[trigger] within@[k]) < plots@.len(),
                birth == oldest_birth(plots@, within@.subrange(0, i as int)),
                massed == industrial_among(plots@, within@.subrange(0, i as int)),
                massed <= i,
            decreases within.len() - i,
        {
            assert(within@.subrange(0, i + 1).drop_last() =~= within@.subrange(0, i as int));
            let p: PlotSeat = plots[within[i] as usize];
            if p.birth < birth {
                birth = p.birth;
            }
            if p.industrial {
                massed = massed + 1;
            }
            i = i + 1;
        }
        assert(within@.subrange(0, i as int) =~= within@);
        let open: bool = within.len() == 0;
        let by_district: bool = match owner[b] {
            Some(d) => (d as usize) < mass.len() && mass[d as usize],
            None => false,
        };
        let industrial: bool = !open && (massed as u64 * 2 > within.len() as u64 || by_district);
        out.push(
            BlockPlan {
                district: owner[b],
                plots: within,
                open,
                industrial,
                half_edges: edges,
                birth,
            },
        );
        b = b + 1;
    }
    let mut off: usize = 0;
    let mut i: usize = 0;
    while i < plots.len()
        invariant
            i <= plots@.len(),
            off == off_face_count(plots@, i as nat),
            off <= i,
        decreases plots.len() - i,
    {
        if plots[i].block.is_some() && !plots[i].inside {
            off = off + 1;
        }
        i = i + 1;
    }
    proof {
        off_face_is(plots@, plots@.len());
        take_all(plots@);
        assert forall|b: int| 0 <= b < n implies block_is_plain(
            plots@,
            mass@,
            b,
            #[trigger] out@[b],
        ) by {
            assigned_is_plain(plots@, mass@, n as nat, b, out@[b]);
        }
    }
    (out, off)
}

/// What lies on one side of an edge.
#[derive(Debug, Clone, Copy, PartialEq, Eq, Structural)]
pub enum Side {
    /// No face.
    Nothing,
    /// A face that no district owns.
    Unowned,
    /// A face of a district.
    Owned(u32),
}

/// What the last of the first `n` faces to list a half-edge puts on its side.
pub open spec fn side_of(
    faces: Seq<Vec<usize>>,
    district: Seq<Option<u32>>,
    h: int,
    n: nat,
) -> Side
    decreases n,
{
    if n == 0 || n > faces.len() {
        Side::Nothing
    } else if exists|k: int| 0 <= k < faces[n - 1]@.len() && #[trigger] faces[n - 1]@[k] == h {
        match district[n - 1] {
            Some(d) => Side::Owned(d),
            None => Side::Unowned,
        }
    } else {
        side_of(faces, district, h, (n - 1) as nat)
    }
}

/// What lies on the side of a half-edge.
pub open spec fn side_at(faces: Seq<Vec<usize>>, district: Seq<Option<u32>>, h: int) -> Side {
    side_of(faces, district, h, faces.len())
}

fn sides(faces: &Vec<Vec<usize>>, district: &Vec<Option<u32>>, edges: usize) -> (r: (
    Vec<Side>,
    Vec<Side>,
))
    requires
        faces@.len() == district@.len(),
        edges <= usize::MAX / 2,
    ensures
        r.0@.len() == edges,
        r.1@.len() == edges,
        forall|e: int|
            0 <= e < edges ==> #[trigger] r.0@[e] == side_at(faces@, district@, 2 * e) && r.1@[e]
                == side_at(faces@, district@, 2 * e + 1),
{
    let mut even: Vec<Side> = Vec::new();
    let mut odd: Vec<Side> = Vec::new();
    let mut e: usize = 0;
    while e < edges
        invariant
            e <= edges,
            even.len() == e,
            odd.len() == e,
            forall|k: int| 0 <= k < e ==> #[trigger] even@[k] == Side::Nothing && odd@[k]
                == Side::Nothing,
        decreases edges - e,
    {
        even.push(Side::Nothing);
        odd.push(Side::Nothing);
        e = e + 1;
    }
    let mut f: usize = 0;
    while f < faces.len()
        invariant
            f <= faces@.len() == district@.len(),
            even@.len() == edges,
            odd@.len() == edges,
            forall|k: int|
                0 <= k < edges ==> #[trigger] even@[k] == side_of(
                    faces@,
                    district@,
                    2 * k,
                    f as nat,
                ) && odd@[k] == side_of(faces@, district@, 2 * k + 1, f as nat),
        decreases faces.len() - f,
    {
        let side: Side = match district[f] {
            Some(d) => Side::Owned(d),
            None => Side::Unowned,
        };
        let ghost even0 = even@;
        let ghost odd0 = odd@;
        let mut j: usize = 0;
        while j < faces[f].len()
            invariant
                f < faces@.len(),
                j <= faces@[f as int]@.len(),
                even@.len() == edges,
                odd@.len() == edges,
                even0.len() == edges,
                odd0.len() == edges,
                forall|k: int|
                    0 <= k < edges ==> #[trigger] even@[k] == if exists|i: int|
                        0 <= i < j && #[trigger] faces@[f as int]@[i] == 2 * k {
                        side
                    } else {
                        even0[k]
                    },
                forall|k: int|
                    0 <= k < edges ==> #[trigger] odd@[k] == if exists|i: int|
                        0 <= i < j && #[trigger] faces@[f as int]@[i] == 2 * k + 1 {
                        side
                    } else {
                        odd0[k]
                    },
            decreases faces@[f as int]@.len() - j,
        {
            let h: usize = faces[f][j];
            let e: usize = h / 2;
            let ghost list = faces@[f as int]@;
            let ghost even1 = even@;
            let ghost odd1 = odd@;
            assert(list[j as int] == h);
            if e < edges {
                if h % 2 == 0 {
                    even[e] = side;
                } else {
                    odd[e] = side;
                }
            }
            proof {
                assert forall|k: int| 0 <= k < edges implies #[trigger] even@[k] == if exists|
                    i: int,
                |
                    0 <= i < j + 1 && #[trigger] list[i] == 2 * k {
                    side
                } else {
                    even0[k]
                } by {
                    assert(even1[k] == if exists|i: int| 0 <= i < j && #[trigger] list[i] == 2 * k {
                        side
                    } else {
                        even0[k]
                    });
                    if h == 2 * k {
                        assert(list[j as int] == 2 * k);
                    }
                }
                assert forall|k: int| 0 <= k < edges implies #[trigger] odd@[k] == if exists|
                    i: int,
                |
                    0 <= i < j + 1 && #[trigger] list[i] == 2 * k + 1 {
                    side
                } else {
                    odd0[k]
                } by {
                    assert(odd1[k] == if exists|i: int|
                        0 <= i < j && #[trigger] list[i] == 2 * k + 1 {
                        side
                    } else {
                        odd0[k]
                    });
                    if h == 2 * k + 1 {
                        assert(list[j as int] == 2 * k + 1);
                    }
                }
            }
            j = j + 1;
        }
        proof {
            assert forall|k: int| 0 <= k < edges implies #[trigger] even@[k] == side_of(
                faces@,
                district@,
                2 * k,
                (f + 1) as nat,
            ) && odd@[k] == side_of(faces@, district@, 2 * k + 1, (f + 1) as nat) by {
                assert(even0[k] == side_of(faces@, district@, 2 * k, f as nat));
                assert(odd@[k] == odd@[k]);
            }
        }
        f = f + 1;
    }
    (even, odd)
}

/// Which edges have something else on one side than on the other.
pub fn border_edges(faces: &Vec<Vec<usize>>, districts: &Vec<Option<u32>>, edges: usize) -> (r: Vec<
    bool,
>)
    requires
        faces@.len() == districts@.len(),
        edges <= usize::MAX / 2,
    ensures
        r@.len() == edges,
        forall|e: int|
            0 <= e < edges ==> #[trigger] r@[e] == (side_at(faces@, districts@, 2 * e) != side_at(
                faces@,
                districts@,
                2 * e + 1,
            )),
{
    let (even, odd) = sides(faces, districts, edges);
    let mut out: Vec<bool> = Vec::new();
    let mut e: usize = 0;
    while e < edges
        invariant
            e <= edges,
            even@.len() == edges,
            odd@.len() == edges,
            out.len() == e,
            forall|k: int| 0 <= k < e ==> #[trigger] out@[k] == (even@[k] != odd@[k]),
        decreases edges - e,
    {
        out.push(even[e] != odd[e]);
        e = e + 1;
    }
    assert forall|e: int| 0 <= e < edges implies #[trigger] out@[e] == (side_at(
        faces@,
        districts@,
        2 * e,
    ) != side_at(faces@, districts@, 2 * e + 1)) by {
        assert(even@[e] == side_at(faces@, districts@, 2 * e));
    }
    out
}

/// Does a district end at the edge: is there another on the other side, or none?
pub open spec fn ends_district(a: Side, b: Side) -> bool {
    match (a, b) {
        (Side::Owned(x), Side::Owned(y)) => x != y,
        (Side::Owned(_), _) => true,
        (_, Side::Owned(_)) => true,
        _ => false,
    }
}

/// The edges among the first `n` at which a district ends, in order.
pub open spec fn district_ends(
    faces: Seq<Vec<usize>>,
    district: Seq<Option<u32>>,
    n: nat,
) -> Seq<usize>
    decreases n,
{
    if n == 0 {
        seq![]
    } else {
        let before = district_ends(faces, district, (n - 1) as nat);
        let e = n - 1;
        if ends_district(side_at(faces, district, 2 * e), side_at(faces, district, 2 * e + 1)) {
            before.push(e as usize)
        } else {
            before
        }
    }
}

proof fn side_by_lists(
    f: Seq<Vec<usize>>,
    g: Seq<Vec<usize>>,
    district: Seq<Option<u32>>,
    h: int,
    n: nat,
)
    requires
        f.len() == g.len(),
        forall|i: int| 0 <= i < f.len() ==> (#[trigger] f[i])@ == g[i]@,
    ensures
        side_of(f, district, h, n) == side_of(g, district, h, n),
    decreases n,
{
    if 0 < n <= f.len() {
        assert(f[n - 1]@ == g[n - 1]@);
        side_by_lists(f, g, district, h, (n - 1) as nat);
    }
}

/// Where districts end depends on the half-edges around the faces alone.
pub proof fn ends_by_lists(
    f: Seq<Vec<usize>>,
    g: Seq<Vec<usize>>,
    district: Seq<Option<u32>>,
    n: nat,
)
    requires
        f.len() == g.len(),
        forall|i: int| 0 <= i < f.len() ==> (#[trigger] f[i])@ == g[i]@,
    ensures
        district_ends(f, district, n) == district_ends(g, district, n),
    decreases n,
{
    if n > 0 {
        ends_by_lists(f, g, district, (n - 1) as nat);
        side_by_lists(f, g, district, 2 * (n - 1), f.len());
        side_by_lists(f, g, district, 2 * (n - 1) + 1, f.len());
    }
}

/// The edges at which a district ends, in order.
pub fn district_borders(faces: &Vec<Vec<usize>>, districts: &Vec<Option<u32>>, edges: usize) -> (r:
    Vec<usize>)
    requires
        faces@.len() == districts@.len(),
        edges <= usize::MAX / 2,
    ensures
        r@ == district_ends(faces@, districts@, edges as nat),
{
    let (even, odd) = sides(faces, districts, edges);
    let mut out: Vec<usize> = Vec::new();
    let mut e: usize = 0;
    while e < edges
        invariant
            e <= edges,
            even@.len() == edges,
            odd@.len() == edges,
            forall|k: int|
                0 <= k < edges ==> #[trigger] even@[k] == side_at(faces@, districts@, 2 * k)
                    && odd@[k] == side_at(faces@, districts@, 2 * k + 1),
            out@ == district_ends(faces@, districts@, e as nat),
        decreases edges - e,
    {
        assert(even@[e as int] == side_at(faces@, districts@, 2 * e));
        let border: bool = match (even[e], odd[e]) {
            (Side::Owned(x), Side::Owned(y)) => x != y,
            (Side::Owned(_), _) => true,
            (_, Side::Owned(_)) => true,
            _ => false,
        };
        if border {
            out.push(e);
        }
        e = e + 1;
    }
    out
}

/// A published block: its number and the district it is drawn for.
#[derive(Debug)]
pub struct Block {
    /// Its number.
    pub id: u32,
    /// Its district.
    pub district: LogicalPath,
}

/// The blocks as published: numbered in order, each with the path of its district,
/// or the root where it has none.
pub fn publish(blocks: &Vec<BlockPlan>, territory: &crate::territory::Territory) -> (r: Vec<Block>)
    requires
        blocks@.len() <= u32::MAX,
        forall|i: int|
            0 <= i < blocks@.len() ==> ((#[trigger] blocks@[i]).district matches Some(d) ==> d
                < territory.nodes@.len()),
    ensures
        r@.len() == blocks@.len(),
        forall|i: int|
            0 <= i < r@.len() ==> (#[trigger] r@[i]).id == i && r@[i].district@
                == match blocks@[i].district {
                Some(d) => territory.nodes@[d as int].path@,
                None => Seq::<char>::empty(),
            },
{
    let mut out: Vec<Block> = Vec::new();
    let mut i: usize = 0;
    while i < blocks.len()
        invariant
            i <= blocks@.len() <= u32::MAX,
            forall|k: int|
                0 <= k < blocks@.len() ==> ((#[trigger] blocks@[k]).district matches Some(d) ==> d
                    < territory.nodes@.len()),
            out.len() == i,
            forall|k: int|
                0 <= k < i ==> (#[trigger] out@[k]).id == k && out@[k].district@
                    == match blocks@[k].district {
                    Some(d) => territory.nodes@[d as int].path@,
                    None => Seq::<char>::empty(),
                },
        decreases blocks.len() - i,
    {
        assert(blocks@[i as int].district matches Some(d) ==> d < territory.nodes@.len());
        let district: LogicalPath = match blocks[i].district {
            Some(d) => territory.nodes[d as usize].path.copied(),
            None => LogicalPath::root(),
        };
        out.push(Block { id: i as u32, district });
        i = i + 1;
    }
    out
}

/// How many of the first `n` blocks of a district have a number.
pub open spec fn block_times(blocks: Seq<Block>, district: Seq<char>, id: u32, n: nat) -> nat
    decreases n,
{
    if n == 0 || n > blocks.len() {
        0
    } else {
        block_times(blocks, district, id, (n - 1) as nat) + if blocks[n - 1].district@ == district
            && blocks[n - 1].id == id {
            1nat
        } else {
            0nat
        }
    }
}

/// No number stands before a smaller one.
pub open spec fn numbers_ascend(v: Seq<u32>) -> bool {
    forall|i: int, j: int| 0 <= i < j < v.len() ==> #[trigger] v[i] <= #[trigger] v[j]
}

fn put_number(v: &Vec<u32>, x: u32) -> (r: Vec<u32>)
    requires
        numbers_ascend(v@),
    ensures
        numbers_ascend(r@),
        r@.to_multiset() == v@.to_multiset().insert(x),
{
    broadcast use vstd::seq_lib::group_to_multiset_ensures;

    let mut out: Vec<u32> = Vec::new();
    let mut i: usize = 0;
    while i < v.len()
        invariant
            i <= v@.len(),
            out@ == v@.subrange(0, i as int),
        decreases v.len() - i,
    {
        out.push(v[i]);
        i = i + 1;
        assert(out@ =~= v@.subrange(0, i as int));
    }
    assert(out@ =~= v@);
    let mut p: usize = 0;
    while p < out.len() && out[p] <= x
        invariant
            p <= out@.len(),
            forall|k: int| 0 <= k < p ==> (#[trigger] out@[k]) <= x,
        decreases out.len() - p,
    {
        p = p + 1;
    }
    out.insert(p, x);
    proof {
        assert(out@ =~= v@.insert(p as int, x));
        v@.to_multiset_ensures();
        assert forall|a: int, b: int| 0 <= a < b < out@.len() implies #[trigger] out@[a]
            <= #[trigger] out@[b] by {
            let i = if a < p {
                a
            } else {
                a - 1
            };
            let j = if b < p {
                b
            } else {
                b - 1
            };
            if a != p {
                assert(out@[a] == v@[i]);
            }
            if b != p {
                assert(out@[b] == v@[j]);
            }
            if a == p && j > p {
                assert(v@[p as int] <= v@[j]);
            }
        }
    }
    out
}

/// Is it the list of the numbers of a district's blocks, among the first `n`?
spec fn lists_blocks(list: Seq<u32>, blocks: Seq<Block>, d: Seq<char>, n: nat) -> bool {
    &&& numbers_ascend(list)
    &&& forall|id: u32|
        list.to_multiset().count(id) == #[trigger] block_times(blocks, d, id, n)
}

/// The numbers of each district's blocks, in order.
pub fn group_by_district(blocks: &Vec<Block>) -> (r: TextMap<Vec<u32>>)
    ensures
        r.wf(),
        forall|d: Seq<char>| #[trigger]
            r@.dom().contains(d) <==> exists|i: int|
                0 <= i < blocks@.len() && (#[trigger] blocks@[i]).district@ == d,
        forall|d: Seq<char>| #[trigger]
            r@.dom().contains(d) ==> numbers_ascend(r@[d]@) && (forall|id: u32|
                r@[d]@.to_multiset().count(id) == #[trigger] block_times(
                    blocks@,
                    d,
                    id,
                    blocks@.len(),
                )),
{
    broadcast use vstd::seq_lib::group_to_multiset_ensures;

    let mut out: TextMap<Vec<u32>> = TextMap::new();
    let mut i: usize = 0;
    while i < blocks.len()
        invariant
            i <= blocks@.len(),
            out.wf(),
            forall|d: Seq<char>| #[trigger]
                out@.dom().contains(d) <==> exists|k: int|
                    0 <= k < i && (#[trigger] blocks@[k]).district@ == d,
            forall|d: Seq<char>| #[trigger]
                out@.dom().contains(d) ==> lists_blocks(out@[d]@, blocks@, d, i as nat),
        decreases blocks.len() - i,
    {
        let ghost had = out@;
        let ghost name = blocks@[i as int].district@;
        let ghost number = blocks@[i as int].id;
        let list: Vec<u32> = match out.get(blocks[i].district.as_str()) {
            Some(v) => put_number(v, blocks[i].id),
            None => {
                let empty: Vec<u32> = Vec::new();
                proof {
                    assert forall|id: u32| #[trigger]
                        block_times(blocks@, name, id, i as nat) == 0 by {
                        never_listed(blocks@, name, id, i as nat);
                    }
                }
                put_number(&empty, blocks[i].id)
            },
        };
        proof {
            assert forall|id: u32| #[trigger] list@.to_multiset().count(id) == block_times(
                blocks@,
                name,
                id,
                i as nat,
            ) + if id == number {
                1nat
            } else {
                0nat
            } by {
                if had.dom().contains(name) {
                    assert(lists_blocks(had[name]@, blocks@, name, i as nat));
                    assert(had[name]@.to_multiset().count(id) == block_times(
                        blocks@,
                        name,
                        id,
                        i as nat,
                    ));
                } else {
                    never_listed(blocks@, name, id, i as nat);
                    Seq::<u32>::empty().to_multiset_ensures();
                    assert(!Seq::<u32>::empty().contains(id));
                }
            }
        }
        let ghost kept = list@;
        out.insert(blocks[i].district.text.clone(), list);
        assert(out@[name]@ == kept);
        proof {
            assert forall|d: Seq<char>| #[trigger] out@.dom().contains(d) <==> exists|k: int|
                0 <= k < i + 1 && (#[trigger] blocks@[k]).district@ == d by {
                if out@.dom().contains(d) {
                    if had.dom().contains(d) {
                        let k = choose|k: int|
                            0 <= k < i && (#[trigger] blocks@[k]).district@ == d;
                        assert(blocks@[k].district@ == d);
                    } else {
                        assert(blocks@[i as int].district@ == d);
                    }
                }
                if exists|k: int| 0 <= k < i + 1 && (#[trigger] blocks@[k]).district@ == d {
                    let k = choose|k: int|
                        0 <= k < i + 1 && (#[trigger] blocks@[k]).district@ == d;
                    if k < i {
                        assert(had.dom().contains(d));
                    }
                }
            }
            assert forall|d: Seq<char>| #[trigger] out@.dom().contains(d) implies lists_blocks(
                out@[d]@,
                blocks@,
                d,
                (i + 1) as nat,
            ) by {
                if d == name {
                    assert forall|id: u32|
                        out@[d]@.to_multiset().count(id) == #[trigger] block_times(
                            blocks@,
                            d,
                            id,
                            (i + 1) as nat,
                        ) by {
                        assert(block_times(blocks@, d, id, (i + 1) as nat) == block_times(
                            blocks@,
                            d,
                            id,
                            i as nat,
                        ) + if id == number {
                            1nat
                        } else {
                            0nat
                        });
                    }
                } else {
                    assert(had.dom().contains(d));
                    assert(lists_blocks(had[d]@, blocks@, d, i as nat));
                    assert forall|id: u32|
                        out@[d]@.to_multiset().count(id) == #[trigger] block_times(
                            blocks@,
                            d,
                            id,
                            (i + 1) as nat,
                        ) by {
                        assert(block_times(blocks@, d, id, i as nat) == had[d]@.to_multiset().count(
                            id,
                        ));
                    }
                }
            }
        }
        i = i + 1;
    }
    proof {
        assert forall|d: Seq<char>| #[trigger] out@.dom().contains(d) implies numbers_ascend(
            out@[d]@,
        ) && (forall|id: u32|
            out@[d]@.to_multiset().count(id) == #[trigger] block_times(
                blocks@,
                d,
                id,
                blocks@.len(),
            )) by {
            assert(lists_blocks(out@[d]@, blocks@, d, blocks@.len()));
        }
    }
    out
}

proof fn never_listed(blocks: Seq<Block>, d: Seq<char>, id: u32, n: nat)
    requires
        n <= blocks.len(),
        forall|k: int| 0 <= k < n ==> (#[trigger] blocks[k]).district@ != d,
    ensures
        block_times(blocks, d, id, n) == 0,
    decreases n,
{
    if n > 0 {
        never_listed(blocks, d, id, (n - 1) as nat);
    }
}

/// Is a block the one a point is in, or for want of one the nearest?
pub open spec fn is_located(
    near: Seq<u32>,
    holds: Seq<bool>,
    distance: Seq<Option<i64>>,
    r: Option<u32>,
) -> bool {
    if exists|k: int| 0 <= k < near.len() && holds[#[trigger] near[k] as int] {
        r matches Some(b) && holds[b as int] && near.contains(b) && forall|k: int|
            0 <= k < near.len() && holds[near[k] as int] ==> b <= #[trigger] near[k]
    } else {
        match r {
            Some(b) => b < distance.len() && distance[b as int] is Some && forall|k: int|
                0 <= k < distance.len() && k != b && (#[trigger] distance[k]) is Some
                    ==> distance[b as int]->0 < distance[k]->0 || (distance[b as int]->0
                    == distance[k]->0 && b < k),
            None => forall|k: int|
                0 <= k < distance.len() ==> (#[trigger] distance[k]) is None,
        }
    }
}

/// The block that a point is in: of the blocks near it the first whose ring holds it.
/// Where none does, the block whose middle is nearest, the first where several are
/// as near, of those that have a middle.
pub fn locate(near: &Vec<u32>, holds: &Vec<bool>, distance: &Vec<Option<i64>>) -> (r: Option<u32>)
    requires
        holds@.len() == distance@.len(),
        distance@.len() <= u32::MAX,
        forall|k: int| 0 <= k < near@.len() ==> (#[trigger] near@[k]) < holds@.len(),
    ensures
        is_located(near@, holds@, distance@, r),
{
    let mut best: Option<u32> = None;
    let mut k: usize = 0;
    while k < near.len()
        invariant
            k <= near@.len(),
            forall|j: int| 0 <= j < near@.len() ==> (#[trigger] near@[j]) < holds@.len(),
            match best {
                Some(b) => b < holds@.len() && holds@[b as int] && near@.contains(b) && forall|j: int|
                    0 <= j < k && holds@[near@[j] as int] ==> b <= #[trigger] near@[j],
                None => forall|j: int| 0 <= j < k ==> !holds@[#[trigger] near@[j] as int],
            },
        decreases near.len() - k,
    {
        let b: u32 = near[k];
        assert(near@[k as int] < holds@.len());
        let first: bool = match best {
            Some(a) => b < a,
            None => true,
        };
        if holds[b as usize] && first {
            best = Some(b);
        }
        k = k + 1;
    }
    if let Some(b) = best {
        proof {
            let j = near@.index_of(b);
            assert(holds@[near@[j] as int]);
        }
        return Some(b);
    }
    nearest_of(distance)
}

/// The nearest of some blocks, the first where several are as near.
fn nearest_of(distance: &Vec<Option<i64>>) -> (r: Option<u32>)
    requires
        distance@.len() <= u32::MAX,
    ensures
        match r {
            Some(b) => b < distance@.len() && distance@[b as int] is Some && forall|k: int|
                0 <= k < distance@.len() && k != b && (#[trigger] distance@[k]) is Some
                    ==> distance@[b as int]->0 < distance@[k]->0 || (distance@[b as int]->0
                    == distance@[k]->0 && b < k),
            None => forall|k: int|
                0 <= k < distance@.len() ==> (#[trigger] distance@[k]) is None,
        },
{
    let mut best: Option<(i64, u32)> = None;
    let mut i: usize = 0;
    while i < distance.len()
        invariant
            i <= distance@.len() <= u32::MAX,
            match best {
                Some((d, b)) => b < i && distance@[b as int] == Some(d) && forall|k: int|
                    0 <= k < i && k != b && (#[trigger] distance@[k]) is Some ==> d
                        < distance@[k]->0 || (d == distance@[k]->0 && b < k),
                None => forall|k: int| 0 <= k < i ==> (#[trigger] distance@[k]) is None,
            },
        decreases distance.len() - i,
    {
        if let Some(d) = distance[i] {
            let nearer: bool = match best {
                Some((e, _)) => d < e,
                None => true,
            };
            if nearer {
                best = Some((d, i as u32));
            }
        }
        i = i + 1;
    }
    match best {
        Some((_, b)) => Some(b),
        None => None,
    }
}

/// The block of the civic square: the first whose ring holds the reserved plot, else
/// the one whose middle is nearest to it, the first where several are as near.
pub fn civic_square(holds: &Vec<bool>, distance: &Vec<Option<i64>>) -> (r: Option<u32>)
    requires
        holds@.len() == distance@.len(),
        distance@.len() <= u32::MAX,
    ensures
        match r {
            Some(b) => {
                ||| b < holds@.len() && holds@[b as int] && forall|k: int|
                    0 <= k < b ==> !#[trigger] holds@[k]
                ||| (forall|k: int| 0 <= k < holds@.len() ==> !#[trigger] holds@[k])
                    && is_located(seq![], holds@, distance@, r)
            },
            None => (forall|k: int| 0 <= k < holds@.len() ==> !#[trigger] holds@[k]) && is_located(
                seq![],
                holds@,
                distance@,
                r,
            ),
        },
{
    let mut i: usize = 0;
    while i < holds.len()
        invariant
            i <= holds@.len() <= u32::MAX,
            forall|k: int| 0 <= k < i ==> !#[trigger] holds@[k],
        decreases holds.len() - i,
    {
        if holds[i] {
            return Some(i as u32);
        }
        i = i + 1;
    }
    nearest_of(distance)
}

/// The blocks of a district, among the first `n`.
pub open spec fn blocks_of(plans: Seq<BlockPlan>, d: u32, n: nat) -> Seq<u32>
    decreases n,
{
    if n == 0 || n > plans.len() {
        seq![]
    } else if plans[n - 1].district == Some(d) {
        blocks_of(plans, d, (n - 1) as nat).push((n - 1) as u32)
    } else {
        blocks_of(plans, d, (n - 1) as nat)
    }
}

/// The districts that have blocks, ascending, each with its blocks in order.
pub fn district_blocks(plans: &Vec<BlockPlan>) -> (r: Vec<(u32, Vec<u32>)>)
    requires
        plans@.len() <= u32::MAX,
    ensures
        forall|i: int, j: int|
            0 <= i < j < r@.len() ==> (#[trigger] r@[i]).0 < (#[trigger] r@[j]).0,
        forall|i: int|
            0 <= i < r@.len() ==> (#[trigger] r@[i]).1@ == blocks_of(
                plans@,
                r@[i].0,
                plans@.len(),
            ) && r@[i].1@.len() > 0,
        forall|b: int|
            0 <= b < plans@.len() ==> ((#[trigger] plans@[b]).district matches Some(d)
                ==> exists|i: int| 0 <= i < r@.len() && (#[trigger] r@[i]).0 == d),
{
    let mut out: Vec<(u32, Vec<u32>)> = Vec::new();
    let mut b: usize = 0;
    while b < plans.len()
        invariant
            b <= plans@.len() <= u32::MAX,
            forall|i: int, j: int|
                0 <= i < j < out@.len() ==> (#[trigger] out@[i]).0 < (#[trigger] out@[j]).0,
            forall|i: int|
                0 <= i < out@.len() ==> (#[trigger] out@[i]).1@ == blocks_of(
                    plans@,
                    out@[i].0,
                    b as nat,
                ) && out@[i].1@.len() > 0,
            forall|k: int|
                0 <= k < b ==> ((#[trigger] plans@[k]).district matches Some(d) ==> exists|i: int|
                    0 <= i < out@.len() && (#[trigger] out@[i]).0 == d),
        decreases plans.len() - b,
    {
        let ghost had = out@;
        if let Some(d) = plans[b].district {
            let mut p: usize = 0;
            while p < out.len() && out[p].0 < d
                invariant
                    p <= out@.len(),
                    out@ == had,
                    forall|k: int| 0 <= k < p ==> (#[trigger] had[k]).0 < d,
                decreases out.len() - p,
            {
                p = p + 1;
            }
            if p < out.len() && out[p].0 == d {
                let (_, mut list): (u32, Vec<u32>) = out.remove(p);
                list.push(b as u32);
                out.insert(p, (d, list));
                proof {
                    assert(out@ =~= had.update(p as int, out@[p as int]));
                    assert(out@[p as int].1@ =~= had[p as int].1@.push(b as u32));
                    assert forall|i: int| 0 <= i < out@.len() implies (#[trigger] out@[i]).1@
                        == blocks_of(plans@, out@[i].0, (b + 1) as nat) && out@[i].1@.len() > 0 by {
                        if i != p {
                            assert(out@[i] == had[i]);
                            if i < p {
                                assert(had[i].0 < had[p as int].0);
                            } else {
                                assert(had[p as int].0 < had[i].0);
                            }
                        } else {
                            assert(had[p as int].1@ == blocks_of(plans@, d, b as nat));
                        }
                    }
                    assert forall|k: int| 0 <= k < b + 1 implies ((
                    #[trigger] plans@[k]).district matches Some(x) ==> exists|i: int|
                        0 <= i < out@.len() && (#[trigger] out@[i]).0 == x) by {
                        if plans@[k].district is Some {
                            let x = plans@[k].district->0;
                            if x == d {
                                assert(out@[p as int].0 == d);
                            } else {
                                let i = choose|i: int|
                                    0 <= i < had.len() && (#[trigger] had[i]).0 == x;
                                assert(out@[i].0 == x);
                            }
                        }
                    }
                }
            } else {
                let mut list: Vec<u32> = Vec::new();
                list.push(b as u32);
                proof {
                    no_blocks_yet(plans@, d, b as nat, had);
                }
                out.insert(p, (d, list));
                proof {
                    assert(out@ =~= had.insert(p as int, out@[p as int]));
                    assert(out@[p as int].1@ =~= seq![b as u32]);
                    assert forall|i: int| p <= i < had.len() implies d < (#[trigger] had[i]).0 by {
                        if i > p {
                            assert(had[p as int].0 < had[i].0);
                        }
                    }
                    assert forall|i: int, j: int| 0 <= i < j < out@.len() implies (
                    #[trigger] out@[i]).0 < (#[trigger] out@[j]).0 by {
                        let (s, t) = (
                            if i < p {
                                i
                            } else {
                                i - 1
                            },
                            if j < p {
                                j
                            } else {
                                j - 1
                            },
                        );
                        if i != p {
                            assert(out@[i] == had[s]);
                        }
                        if j != p {
                            assert(out@[j] == had[t]);
                        }
                    }
                    assert forall|i: int| 0 <= i < out@.len() implies (#[trigger] out@[i]).1@
                        == blocks_of(plans@, out@[i].0, (b + 1) as nat) && out@[i].1@.len() > 0 by {
                        if i != p {
                            let s = if i < p {
                                i
                            } else {
                                i - 1
                            };
                            assert(out@[i] == had[s]);
                            assert(had[s].0 != d);
                        } else {
                            assert(blocks_of(plans@, d, b as nat).push(b as u32) =~= seq![b as u32]);
                        }
                    }
                    assert forall|k: int| 0 <= k < b + 1 implies ((
                    #[trigger] plans@[k]).district matches Some(x) ==> exists|i: int|
                        0 <= i < out@.len() && (#[trigger] out@[i]).0 == x) by {
                        if plans@[k].district is Some {
                            let x = plans@[k].district->0;
                            if x == d {
                                assert(out@[p as int].0 == d);
                            } else {
                                let i = choose|i: int|
                                    0 <= i < had.len() && (#[trigger] had[i]).0 == x;
                                assert(out@[if i < p {
                                    i
                                } else {
                                    i + 1
                                }].0 == x);
                            }
                        }
                    }
                }
            }
        }
        b = b + 1;
    }
    out
}

proof fn no_blocks_yet(plans: Seq<BlockPlan>, d: u32, n: nat, had: Seq<(u32, Vec<u32>)>)
    requires
        n <= plans.len(),
        forall|i: int| 0 <= i < had.len() ==> (#[trigger] had[i]).0 != d,
        forall|k: int|
            0 <= k < n ==> ((#[trigger] plans[k]).district matches Some(x) ==> exists|i: int|
                0 <= i < had.len() && (#[trigger] had[i]).0 == x),
    ensures
        blocks_of(plans, d, n) == Seq::<u32>::empty(),
    decreases n,
{
    if n > 0 {
        no_blocks_yet(plans, d, (n - 1) as nat, had);
        assert(plans[n - 1].district != Some(d)) by {
            if plans[n - 1].district == Some(d) {
                let i = choose|i: int| 0 <= i < had.len() && (#[trigger] had[i]).0 == d;
                assert(had[i].0 == d);
            }
        }
    }
}

/// What is plain of a block: which plots are in it, how old it is, whose it may be, and
/// whether it is drawn as part of one mass.
spec fn block_is_plain(plots: Seq<PlotSeat>, mass: Seq<bool>, b: int, plan: BlockPlan) -> bool {
    let within = plan.plots@;
    &&& forall|i: int, j: int|
        0 <= i < j < within.len() ==> #[trigger] within[i] < #[trigger] within[j]
    &&& forall|k: u32| #[trigger]
        within.contains(k) <==> k < plots.len() && plots[k as int].block == Some(b as u32)
    &&& plan.open <==> forall|k: int|
        0 <= k < plots.len() ==> (#[trigger] plots[k]).block != Some(b as u32)
    &&& plan.open ==> plan.district is None && plan.birth == u32::MAX && !plan.industrial
    &&& !plan.open ==> plan.district is Some
    &&& plan.district matches Some(d) ==> exists|k: int|
        0 <= k < plots.len() && (#[trigger] plots[k]).block == Some(b as u32) && plots[k].district
            == d
    &&& forall|k: int|
        0 <= k < plots.len() && (#[trigger] plots[k]).block == Some(b as u32) ==> plan.birth
            <= plots[k].birth
    &&& plan.birth < u32::MAX ==> exists|k: int|
        0 <= k < plots.len() && (#[trigger] plots[k]).block == Some(b as u32) && plots[k].birth
            == plan.birth
    &&& !plan.open ==> plan.industrial == (within.filter(
        |k: u32| plots[k as int].industrial,
    ).len() * 2 > within.len() || (plan.district matches Some(d) && d < mass.len()
        && mass[d as int]))
}

proof fn off_face_is(plots: Seq<PlotSeat>, n: nat)
    requires
        n <= plots.len(),
    ensures
        off_face_count(plots, n) == plots.take(n as int).filter(
            |p: PlotSeat| p.block is Some && !p.inside,
        ).len(),
    decreases n,
{
    let pred = |p: PlotSeat| p.block is Some && !p.inside;
    if n == 0 {
        filter_none(plots, pred);
    } else {
        off_face_is(plots, (n - 1) as nat);
        filter_step(plots, pred, n);
    }
}

proof fn plots_in_are(plots: Seq<PlotSeat>, b: int, n: nat)
    requires
        n <= plots.len() <= u32::MAX,
        0 <= b <= u32::MAX,
    ensures
        ({
            let within = plots_in(plots, b, n);
            &&& forall|i: int, j: int|
                0 <= i < j < within.len() ==> #[trigger] within[i] < #[trigger] within[j]
            &&& forall|k: u32| #[trigger]
                within.contains(k) <==> k < n && plots[k as int].block == Some(b as u32)
        }),
    decreases n,
{
    if n > 0 {
        plots_in_are(plots, b, (n - 1) as nat);
        let before = plots_in(plots, b, (n - 1) as nat);
        let within = plots_in(plots, b, n);
        assert forall|i: int, j: int| 0 <= i < j < within.len() implies #[trigger] within[i]
            < #[trigger] within[j] by {
            if j == before.len() {
                assert(before.contains(before[i]));
            }
        }
        assert forall|k: u32| #[trigger] within.contains(k) <==> k < n && plots[k as int].block
            == Some(b as u32) by {
            if within.contains(k) {
                let i = within.index_of(k);
                if i < before.len() {
                    assert(before[i] == k);
                    assert(before.contains(k));
                }
            }
            if before.contains(k) {
                let i = before.index_of(k);
                assert(within[i] == k);
            }
            if k == n - 1 && plots[k as int].block == Some(b as u32) {
                assert(within[before.len() as int] == k);
            }
        }
    }
}

proof fn oldest_birth_is(plots: Seq<PlotSeat>, within: Seq<u32>)
    ensures
        forall|i: int|
            0 <= i < within.len() ==> oldest_birth(plots, within) <= plots[#[trigger] within[i] as int].birth,
        oldest_birth(plots, within) < u32::MAX ==> exists|i: int|
            0 <= i < within.len() && plots[#[trigger] within[i] as int].birth == oldest_birth(
                plots,
                within,
            ),
    decreases within.len(),
{
    if within.len() > 0 {
        let rest = within.drop_last();
        oldest_birth_is(plots, rest);
        let last = within.len() - 1;
        assert forall|i: int| 0 <= i < within.len() implies oldest_birth(plots, within)
            <= plots[#[trigger] within[i] as int].birth by {
            if i < last {
                assert(rest[i] == within[i]);
            }
        }
        if oldest_birth(plots, within) < u32::MAX {
            if plots[within[last] as int].birth != oldest_birth(plots, within) {
                let i = choose|i: int|
                    0 <= i < rest.len() && plots[#[trigger] rest[i] as int].birth == oldest_birth(
                        plots,
                        rest,
                    );
                assert(within[i] == rest[i]);
            }
        }
    }
}

proof fn industrial_is(plots: Seq<PlotSeat>, within: Seq<u32>)
    ensures
        industrial_among(plots, within) == within.filter(
            |k: u32| plots[k as int].industrial,
        ).len(),
    decreases within.len(),
{
    reveal(Seq::filter);
    if within.len() > 0 {
        industrial_is(plots, within.drop_last());
    }
}

proof fn a_vote_counts(plots: Seq<PlotSeat>, b: int, k: int)
    requires
        0 <= k < plots.len(),
        plots[k].block matches Some(x) && x == b,
    ensures
        poll(plots, b, plots[k].district) > 0,
{
    let d = plots[k].district;
    votes_grow(plots, b, d, k as nat, k as nat);
    votes_grow(plots, b, d, (k + 1) as nat, plots.len());
}

/// Of what polls in a block at all, one district polls most.
proof fn someone_wins(plots: Seq<PlotSeat>, b: int, n: nat) -> (d: u32)
    requires
        n <= plots.len(),
        exists|k: int| 0 <= k < n && #[trigger] votes_for(plots[k], b, plots[k].district),
    ensures
        poll(plots, b, d) > 0,
        forall|k: int|
            0 <= k < n && #[trigger] votes_for(plots[k], b, plots[k].district)
                && plots[k].district != d ==> poll(plots, b, d) > poll(
                plots,
                b,
                plots[k].district,
            ) || (poll(plots, b, d) == poll(plots, b, plots[k].district) && d
                < plots[k].district),
    decreases n,
{
    let last = plots[n - 1];
    if !votes_for(last, b, last.district) {
        someone_wins(plots, b, (n - 1) as nat)
    } else {
        a_vote_counts(plots, b, n - 1);
        if exists|k: int| 0 <= k < n - 1 && #[trigger] votes_for(plots[k], b, plots[k].district) {
            let d = someone_wins(plots, b, (n - 1) as nat);
            let e = last.district;
            if poll(plots, b, d) > poll(plots, b, e) || (poll(plots, b, d) == poll(plots, b, e) && d
                < e) {
                d
            } else {
                e
            }
        } else {
            last.district
        }
    }
}

/// A block is won exactly where a plot lies in it, and by a district with a plot there that
/// no other polls more than: of two that poll the same, the lower number.
pub proof fn blocks_are_won_by_the_weightiest(plots: Seq<PlotSeat>, b: int, f: u32)
    requires
        0 <= b <= u32::MAX,
    ensures
        winner(plots, b) is Some <==> exists|k: int|
            0 <= k < plots.len() && (#[trigger] plots[k]).block == Some(b as u32),
        winner(plots, b) matches Some(d) ==> {
            &&& exists|k: int|
                0 <= k < plots.len() && (#[trigger] plots[k]).block == Some(b as u32)
                    && plots[k].district == d
            &&& poll(plots, b, d) >= poll(plots, b, f)
            &&& poll(plots, b, d) == poll(plots, b, f) ==> d <= f
        },
{
    if exists|k: int| 0 <= k < plots.len() && (#[trigger] plots[k]).block == Some(b as u32) {
        let k = choose|k: int|
            0 <= k < plots.len() && (#[trigger] plots[k]).block == Some(b as u32);
        assert(votes_for(plots[k], b, plots[k].district));
        let d = someone_wins(plots, b, plots.len());
        assert forall|g: u32| g != d && #[trigger] poll(plots, b, g) > 0 implies poll(plots, b, d)
            > poll(plots, b, g) || (poll(plots, b, d) == poll(plots, b, g) && d < g) by {
            let v = voter(plots, b, g, plots.len());
            assert(votes_for(plots[v], b, plots[v].district));
        }
        assert(wins(plots, b, d));
        winner_is(plots, b, d);
    }
    if let Some(d) = winner(plots, b) {
        assert(wins(plots, b, d));
        let v = voter(plots, b, d, plots.len());
        assert(plots[v].block == Some(b as u32) && plots[v].district == d);
        votes_grow(plots, b, f, plots.len(), plots.len());
        assert(poll(plots, b, f) >= 0);
    }
}

proof fn polls_add_up(plots: Seq<PlotSeat>, b: int, d: u32, n: nat)
    requires
        n <= plots.len(),
        0 <= b <= u32::MAX,
    ensures
        votes(plots, b, d, n) == plots.take(n as int).filter(
            |p: PlotSeat| p.block == Some(b as u32) && p.district == d,
        ).fold_left(
            0int,
            |sum: int, p: PlotSeat|
                sum + if p.depth > 1 {
                    p.depth as int
                } else {
                    1
                },
        ),
    decreases n,
{
    let pred = |p: PlotSeat| p.block == Some(b as u32) && p.district == d;
    if n == 0 {
        filter_none(plots, pred);
    } else {
        polls_add_up(plots, b, d, (n - 1) as nat);
        filter_step(plots, pred, n);
        let mine = plots.take(n as int).filter(pred);
        if pred(plots[n - 1]) {
            assert(mine.drop_last() =~= plots.take(n - 1).filter(pred));
        }
    }
}

/// What a district polls in a block is how far inside the block its plots lie, in
/// thousandths and added up, each plot at least one: not how many there are.
pub proof fn a_district_polls_the_depth_of_its_plots(plots: Seq<PlotSeat>, b: int, d: u32)
    requires
        0 <= b <= u32::MAX,
    ensures
        poll(plots, b, d) == plots.filter(
            |p: PlotSeat| p.block == Some(b as u32) && p.district == d,
        ).fold_left(
            0int,
            |sum: int, p: PlotSeat|
                sum + if p.depth > 1 {
                    p.depth as int
                } else {
                    1
                },
        ),
{
    take_all(plots);
    polls_add_up(plots, b, d, plots.len());
}

proof fn one_voter(plots: Seq<PlotSeat>, b: int, i: int, n: nat)
    requires
        0 <= i < plots.len(),
        n <= plots.len(),
        plots[i].block matches Some(x) && x == b,
        forall|k: int|
            0 <= k < plots.len() && k != i && (#[trigger] plots[k]).district == plots[i].district
                ==> !(plots[k].block matches Some(x) && x == b),
    ensures
        votes(plots, b, plots[i].district, n) == if i < n {
            if plots[i].depth > 1 {
                plots[i].depth as int
            } else {
                1
            }
        } else {
            0
        },
    decreases n,
{
    if n > 0 {
        one_voter(plots, b, i, (n - 1) as nat);
    }
}

/// Of two districts with one plot each in a block, the one whose plot lies deeper inside
/// wins it, as long as its plot lies more than one thousandth inside.
pub proof fn the_deeper_plot_wins_the_block(plots: Seq<PlotSeat>, b: int, i: int, j: int)
    requires
        0 <= b <= u32::MAX,
        0 <= i < plots.len(),
        0 <= j < plots.len(),
        plots[i].district != plots[j].district,
        plots[i].depth > plots[j].depth,
        plots[i].depth > 1,
        forall|k: int|
            0 <= k < plots.len() ==> ((#[trigger] plots[k]).block == Some(b as u32) <==> k == i
                || k == j),
    ensures
        winner(plots, b) == Some(plots[i].district),
{
    one_voter(plots, b, i, plots.len());
    one_voter(plots, b, j, plots.len());
    let d = plots[i].district;
    assert forall|f: u32| f != d && #[trigger] poll(plots, b, f) > 0 implies poll(plots, b, d)
        > poll(plots, b, f) || (poll(plots, b, d) == poll(plots, b, f) && d < f) by {
        let k = voter(plots, b, f, plots.len());
        assert(plots[k].block == Some(b as u32));
    }
    assert(wins(plots, b, d));
    winner_is(plots, b, d);
}

/// A district that won no block takes one where its own plots lie, from an owner that keeps
/// another: of those the one where it polls most, and the first of several. No other block
/// changes hands.
pub proof fn a_seat_is_taken_where_it_weighs_most(
    plots: Seq<PlotSeat>,
    cur: Seq<Option<u32>>,
    d: u32,
    b: int,
)
    requires
        cur.len() <= u32::MAX,
    ensures
        0 <= b < cur.len() && with_seat(plots, cur, d)[b] != cur[b] ==> {
            &&& with_seat(plots, cur, d)[b] == Some(d)
            &&& exists|k: int|
                0 <= k < plots.len() && (#[trigger] plots[k]).block == Some(b as u32)
                    && plots[k].district == d
            &&& cur[b] is Some
            &&& exists|o: int| 0 <= o < cur.len() && o != b && #[trigger] cur[o] == cur[b]
            &&& forall|c: int|
                0 <= c < cur.len() && c != b ==> #[trigger] with_seat(plots, cur, d)[c] == cur[c]
            &&& forall|c: int, o: int|
                0 <= c < cur.len() && 0 <= o < cur.len() && c != o && #[trigger] cur[c] is Some
                    && cur[c] != Some(d) && cur[c] == #[trigger] cur[o] ==> poll(plots, b, d)
                    >= poll(plots, c, d) && (poll(plots, b, d) == poll(plots, c, d) ==> b <= c)
        },
        with_seat(plots, cur, d) == cur ==> forall|c: int, o: int|
            0 <= c < cur.len() && 0 <= o < cur.len() && c != o && #[trigger] cur[c] is Some
                && cur[c] != Some(d) && cur[c] == #[trigger] cur[o] ==> poll(plots, c, d) == 0,
{
    if exists|x: int| takes(plots, cur, d, x) {
        let x = choose|x: int| takes(plots, cur, d, x);
        assert(can_spare(plots, cur, d, x));
        let k = voter(plots, x, d, plots.len());
        assert(plots[k].block == Some(x as u32));
        let o = another_held(cur, cur[x]->0, x, cur.len());
        assert(cur[o] == cur[x]);
        assert(with_seat(plots, cur, d)[x] == Some(d) && cur[x] != Some(d));
        assert forall|c: int, o: int|
            0 <= c < cur.len() && 0 <= o < cur.len() && c != o && #[trigger] cur[c] is Some
                && cur[c] != Some(d) && cur[c] == #[trigger] cur[o] implies poll(plots, x, d)
            >= poll(plots, c, d) && (poll(plots, x, d) == poll(plots, c, d) ==> x <= c) by {
            two_held(cur, cur[c]->0, c, o);
            votes_grow(plots, c, d, plots.len(), plots.len());
            if c != x && poll(plots, c, d) > 0 {
                assert(can_spare(plots, cur, d, c));
            }
        }
    } else {
        assert forall|c: int, o: int|
            0 <= c < cur.len() && 0 <= o < cur.len() && c != o && #[trigger] cur[c] is Some
                && cur[c] != Some(d) && cur[c] == #[trigger] cur[o] implies poll(plots, c, d)
            == 0 by {
            two_held(cur, cur[c]->0, c, o);
            votes_grow(plots, c, d, plots.len(), plots.len());
            if poll(plots, c, d) > 0 {
                assert(can_spare(plots, cur, d, c));
                let t = best_spare(plots, cur, d, c, cur.len());
                assert(takes(plots, cur, d, t));
            }
        }
    }
}

proof fn best_spare(plots: Seq<PlotSeat>, cur: Seq<Option<u32>>, d: u32, c: int, n: nat) -> (t: int)
    requires
        n <= cur.len(),
        can_spare(plots, cur, d, c),
    ensures
        can_spare(plots, cur, d, t),
        forall|k: int|
            (k < n || k == c) && k != t && #[trigger] can_spare(plots, cur, d, k) ==> poll(
                plots,
                t,
                d,
            ) > poll(plots, k, d) || (poll(plots, t, d) == poll(plots, k, d) && t < k),
    decreases n,
{
    if n == 0 {
        c
    } else {
        let t = best_spare(plots, cur, d, c, (n - 1) as nat);
        let k = n - 1;
        if can_spare(plots, cur, d, k) && (poll(plots, k, d) > poll(plots, t, d) || (poll(
            plots,
            k,
            d,
        ) == poll(plots, t, d) && k < t)) {
            k
        } else {
            t
        }
    }
}

proof fn held_counts(cur: Seq<Option<u32>>, d: u32, n: nat)
    requires
        n <= cur.len(),
    ensures
        held(cur, d, n) == cur.take(n as int).filter(|o: Option<u32>| o == Some(d)).len(),
    decreases n,
{
    let pred = |o: Option<u32>| o == Some(d);
    if n == 0 {
        filter_none(cur, pred);
    } else {
        held_counts(cur, d, (n - 1) as nat);
        filter_step(cur, pred, n);
    }
}

/// A district holds as many blocks as are owned by it.
pub proof fn what_a_district_holds(cur: Seq<Option<u32>>, d: u32)
    ensures
        held(cur, d, cur.len()) == cur.filter(|o: Option<u32>| o == Some(d)).len(),
{
    take_all(cur);
    held_counts(cur, d, cur.len());
}

proof fn another_held(cur: Seq<Option<u32>>, d: u32, b: int, n: nat) -> (o: int)
    requires
        n <= cur.len(),
        held(cur, d, n) >= if b < n {
            2int
        } else {
            1int
        },
    ensures
        0 <= o < n,
        o != b,
        cur[o] == Some(d),
    decreases n,
{
    if n - 1 != b && cur[n - 1] == Some(d) {
        n - 1
    } else {
        another_held(cur, d, b, (n - 1) as nat)
    }
}

proof fn held_at(cur: Seq<Option<u32>>, d: u32, i: int, n: nat)
    requires
        0 <= i < n <= cur.len(),
        cur[i] == Some(d),
    ensures
        held(cur, d, n) >= 1,
    decreases n,
{
    if i < n - 1 {
        held_at(cur, d, i, (n - 1) as nat);
    }
}

proof fn two_held(cur: Seq<Option<u32>>, d: u32, i: int, j: int)
    requires
        0 <= i < cur.len(),
        0 <= j < cur.len(),
        i != j,
        cur[i] == Some(d),
        cur[j] == Some(d),
    ensures
        held(cur, d, cur.len()) >= 2,
{
    let (a, b) = if i < j {
        (i, j)
    } else {
        (j, i)
    };
    held_at(cur, d, a, b as nat);
    two_held_upto(cur, d, b, cur.len());
}

proof fn two_held_upto(cur: Seq<Option<u32>>, d: u32, b: int, n: nat)
    requires
        0 <= b < n <= cur.len(),
        cur[b] == Some(d),
        held(cur, d, b as nat) >= 1,
    ensures
        held(cur, d, n) >= 2,
    decreases n,
{
    if b < n - 1 {
        two_held_upto(cur, d, b, (n - 1) as nat);
    }
}

proof fn seated_polls(plots: Seq<PlotSeat>, first: Seq<Option<u32>>, n: nat, b: int)
    requires
        0 <= b < first.len(),
        first[b] matches Some(d) ==> poll(plots, b, d) > 0,
    ensures
        seated(plots, first, n).len() == first.len(),
        seated(plots, first, n)[b] is Some <==> first[b] is Some,
        seated(plots, first, n)[b] matches Some(d) ==> poll(plots, b, d) > 0,
    decreases n,
{
    if n > 0 {
        seated_polls(plots, first, (n - 1) as nat, b);
        let cur = seated(plots, first, (n - 1) as nat);
        let d = (n - 1) as u32;
        if exists|x: int| takes(plots, cur, d, x) {
            let x = choose|x: int| takes(plots, cur, d, x);
            assert(can_spare(plots, cur, d, x));
        }
    }
}

proof fn assigned_is_plain(
    plots: Seq<PlotSeat>,
    mass: Seq<bool>,
    blocks: nat,
    b: int,
    plan: BlockPlan,
)
    requires
        plots.len() <= u32::MAX,
        blocks <= u32::MAX,
        0 <= b < blocks,
        assigned(plots, mass, blocks, b, plan),
    ensures
        block_is_plain(plots, mass, b, plan),
{
    let within = plan.plots@;
    plots_in_are(plots, b, plots.len());
    oldest_birth_is(plots, within);
    industrial_is(plots, within);
    let first = Seq::new(blocks, |k: int| winner(plots, k));
    blocks_are_won_by_the_weightiest(plots, b, 0);
    if let Some(d) = winner(plots, b) {
        assert(wins(plots, b, d));
    }
    assert(first[b] == winner(plots, b));
    seated_polls(plots, first, mass.len(), b);
    assert(plan.open <==> forall|k: int|
        0 <= k < plots.len() ==> (#[trigger] plots[k]).block != Some(b as u32)) by {
        if within.len() > 0 {
            assert(within.contains(within[0]));
            assert(plots[within[0] as int].block == Some(b as u32));
        } else {
            assert forall|k: int| 0 <= k < plots.len() implies (#[trigger] plots[k]).block != Some(
                b as u32,
            ) by {
                assert(!within.contains(k as u32));
            }
        }
    }
    if let Some(d) = plan.district {
        let v = voter(plots, b, d, plots.len());
        assert(plots[v].block == Some(b as u32) && plots[v].district == d);
    }
    assert forall|k: int|
        0 <= k < plots.len() && (#[trigger] plots[k]).block == Some(b as u32) implies plan.birth
        <= plots[k].birth by {
        assert(within.contains(k as u32));
        let i = within.index_of(k as u32);
        assert(within[i] == k as u32);
    }
    if plan.birth < u32::MAX {
        let i = choose|i: int|
            0 <= i < within.len() && plots[#[trigger] within[i] as int].birth == plan.birth;
        assert(within.contains(within[i]));
        assert(plots[within[i] as int].block == Some(b as u32));
    }
}

proof fn block_times_upto(blocks: Seq<Block>, d: Seq<char>, id: u32, n: nat)
    requires
        n <= blocks.len(),
    ensures
        block_times(blocks, d, id, n) == blocks.take(n as int).filter(
            |b: Block| b.district@ == d && b.id == id,
        ).len(),
    decreases n,
{
    let pred = |b: Block| b.district@ == d && b.id == id;
    if n == 0 {
        filter_none(blocks, pred);
    } else {
        block_times_upto(blocks, d, id, (n - 1) as nat);
        filter_step(blocks, pred, n);
    }
}

/// A district's list has a number as often as a block of the district has it.
pub proof fn every_block_is_in_its_districts_list(blocks: Seq<Block>, d: Seq<char>, id: u32)
    ensures
        block_times(blocks, d, id, blocks.len()) == blocks.filter(
            |b: Block| b.district@ == d && b.id == id,
        ).len(),
{
    take_all(blocks);
    block_times_upto(blocks, d, id, blocks.len());
}

proof fn blocks_of_are(plans: Seq<BlockPlan>, d: u32, n: nat)
    requires
        n <= plans.len() <= u32::MAX,
    ensures
        ({
            let mine = blocks_of(plans, d, n);
            &&& forall|i: int, j: int|
                0 <= i < j < mine.len() ==> #[trigger] mine[i] < #[trigger] mine[j]
            &&& forall|k: u32| #[trigger]
                mine.contains(k) <==> k < n && plans[k as int].district == Some(d)
        }),
    decreases n,
{
    if n > 0 {
        blocks_of_are(plans, d, (n - 1) as nat);
        let before = blocks_of(plans, d, (n - 1) as nat);
        let mine = blocks_of(plans, d, n);
        assert forall|i: int, j: int| 0 <= i < j < mine.len() implies #[trigger] mine[i]
            < #[trigger] mine[j] by {
            if j == before.len() {
                assert(before.contains(before[i]));
            }
        }
        assert forall|k: u32| #[trigger] mine.contains(k) <==> k < n && plans[k as int].district
            == Some(d) by {
            if mine.contains(k) {
                let i = mine.index_of(k);
                if i < before.len() {
                    assert(before[i] == k);
                    assert(before.contains(k));
                }
            }
            if before.contains(k) {
                let i = before.index_of(k);
                assert(mine[i] == k);
            }
            if k == n - 1 && plans[k as int].district == Some(d) {
                assert(mine[before.len() as int] == k);
            }
        }
    }
}

/// The blocks of a district are those that it owns, each once and in order.
pub proof fn a_districts_blocks_are_those_it_owns(plans: Seq<BlockPlan>, d: u32)
    requires
        plans.len() <= u32::MAX,
    ensures
        ({
            let mine = blocks_of(plans, d, plans.len());
            &&& forall|i: int, j: int|
                0 <= i < j < mine.len() ==> #[trigger] mine[i] < #[trigger] mine[j]
            &&& forall|k: u32| #[trigger]
                mine.contains(k) <==> k < plans.len() && plans[k as int].district == Some(d)
        }),
{
    blocks_of_are(plans, d, plans.len());
}

proof fn side_is(faces: Seq<Vec<usize>>, district: Seq<Option<u32>>, h: int, n: nat)
    requires
        n <= faces.len(),
    ensures
        side_of(faces, district, h, n) is Nothing <==> forall|f: int, k: int|
            0 <= f < n && 0 <= k < faces[f]@.len() ==> #[trigger] faces[f]@[k] != h,
        !(side_of(faces, district, h, n) is Nothing) ==> exists|f: int, k: int|
            0 <= f < n && 0 <= k < faces[f]@.len() && #[trigger] faces[f]@[k] == h && (
            forall|g: int, j: int|
                f < g < n && 0 <= j < faces[g]@.len() ==> #[trigger] faces[g]@[j] != h) && (
            district[f] matches Some(d) ==> side_of(faces, district, h, n) == Side::Owned(d)) && (
            district[f] is None ==> side_of(faces, district, h, n) == Side::Unowned),
    decreases n,
{
    if n > 0 {
        side_is(faces, district, h, (n - 1) as nat);
        if exists|k: int| 0 <= k < faces[n - 1]@.len() && #[trigger] faces[n - 1]@[k] == h {
            let k = choose|k: int| 0 <= k < faces[n - 1]@.len() && #[trigger] faces[n - 1]@[k] == h;
            assert(faces[n - 1]@[k] == h);
        } else if !(side_of(faces, district, h, n) is Nothing) {
            let (f, k) = choose|f: int, k: int|
                0 <= f < n - 1 && 0 <= k < faces[f]@.len() && #[trigger] faces[f]@[k] == h && (
                forall|g: int, j: int|
                    f < g < n - 1 && 0 <= j < faces[g]@.len() ==> #[trigger] faces[g]@[j] != h) && (
                district[f] matches Some(d) ==> side_of(faces, district, h, (n - 1) as nat)
                    == Side::Owned(d)) && (district[f] is None ==> side_of(
                    faces,
                    district,
                    h,
                    (n - 1) as nat,
                ) == Side::Unowned);
            assert(faces[f]@[k] == h);
        }
    }
}

/// What lies on the side of a half-edge is the face that lists it, the last of several, with
/// the district that owns it; nothing does where no face lists it.
pub proof fn a_side_is_the_face_that_lists_it(
    faces: Seq<Vec<usize>>,
    district: Seq<Option<u32>>,
    h: int,
)
    ensures
        side_at(faces, district, h) is Nothing <==> forall|f: int, k: int|
            0 <= f < faces.len() && 0 <= k < faces[f]@.len() ==> #[trigger] faces[f]@[k] != h,
        !(side_at(faces, district, h) is Nothing) ==> exists|f: int, k: int|
            0 <= f < faces.len() && 0 <= k < faces[f]@.len() && #[trigger] faces[f]@[k] == h && (
            forall|g: int, j: int|
                f < g < faces.len() && 0 <= j < faces[g]@.len() ==> #[trigger] faces[g]@[j] != h)
                && (district[f] matches Some(d) ==> side_at(faces, district, h) == Side::Owned(d))
                && (district[f] is None ==> side_at(faces, district, h) == Side::Unowned),
{
    side_is(faces, district, h, faces.len());
}

proof fn ends_are(faces: Seq<Vec<usize>>, district: Seq<Option<u32>>, n: nat)
    requires
        n <= usize::MAX,
    ensures
        ({
            let ends = district_ends(faces, district, n);
            &&& forall|i: int, j: int|
                0 <= i < j < ends.len() ==> #[trigger] ends[i] < #[trigger] ends[j]
            &&& forall|e: usize| #[trigger]
                ends.contains(e) <==> e < n && ({
                    let a = side_at(faces, district, 2 * e);
                    let b = side_at(faces, district, 2 * e + 1);
                    (a is Owned || b is Owned) && a != b
                })
        }),
    decreases n,
{
    if n > 0 {
        ends_are(faces, district, (n - 1) as nat);
        let before = district_ends(faces, district, (n - 1) as nat);
        let ends = district_ends(faces, district, n);
        assert forall|i: int, j: int| 0 <= i < j < ends.len() implies #[trigger] ends[i]
            < #[trigger] ends[j] by {
            if j == before.len() {
                assert(before.contains(before[i]));
            }
        }
        assert forall|e: usize| #[trigger] ends.contains(e) <==> e < n && ({
            let a = side_at(faces, district, 2 * e);
            let b = side_at(faces, district, 2 * e + 1);
            (a is Owned || b is Owned) && a != b
        }) by {
            if ends.contains(e) {
                let i = ends.index_of(e);
                if i < before.len() {
                    assert(before[i] == e);
                    assert(before.contains(e));
                }
            }
            if before.contains(e) {
                let i = before.index_of(e);
                assert(ends[i] == e);
            }
            if e == n - 1 && ends.len() > before.len() {
                assert(ends[before.len() as int] == e);
            }
        }
    }
}

/// A border is an edge with a district on one side and another, or none, on the other; the
/// borders are listed once each and in order.
pub proof fn borders_part_districts(faces: Seq<Vec<usize>>, district: Seq<Option<u32>>, edges: nat)
    requires
        edges <= usize::MAX,
    ensures
        ({
            let ends = district_ends(faces, district, edges);
            &&& forall|i: int, j: int|
                0 <= i < j < ends.len() ==> #[trigger] ends[i] < #[trigger] ends[j]
            &&& forall|e: usize| #[trigger]
                ends.contains(e) <==> e < edges && ({
                    let a = side_at(faces, district, 2 * e);
                    let b = side_at(faces, district, 2 * e + 1);
                    (a is Owned || b is Owned) && a != b
                })
        }),
{
    ends_are(faces, district, edges);
}

/// A point is in the first block whose ring holds it, of those near; where none does it is
/// at the block whose middle is nearest, and nowhere only where no block has a middle.
pub proof fn points_are_located(
    near: Seq<u32>,
    holds: Seq<bool>,
    distance: Seq<Option<i64>>,
    r: Option<u32>,
    k: int,
)
    requires
        holds.len() == distance.len() <= u32::MAX,
        is_located(near, holds, distance, r),
        forall|j: int| 0 <= j < near.len() ==> (#[trigger] near[j]) < holds.len(),
    ensures
        0 <= k < near.len() && holds[near[k] as int] ==> r is Some && r->0 <= near[k]
            && holds[r->0 as int] && near.contains(r->0),
        (forall|j: int| 0 <= j < near.len() ==> !holds[#[trigger] near[j] as int]) && 0 <= k
            < distance.len() && distance[k] is Some ==> r is Some && r->0 < distance.len()
            && distance[r->0 as int] is Some && distance[r->0 as int]->0 <= distance[k]->0 && (
        distance[r->0 as int]->0 == distance[k]->0 ==> r->0 <= k),
        r is Some ==> r->0 < distance.len() && (holds[r->0 as int] || distance[r->0 as int] is Some),
{
    if exists|j: int| 0 <= j < near.len() && holds[#[trigger] near[j] as int] {
        let b = r->0;
        let i = near.index_of(b);
        assert(near[i] < holds.len());
    }
}

/// Where every plot counts once, the face goes to the district with the most plots in it.
pub proof fn faces_go_to_the_most_plots(
    plot_face: Seq<Option<u32>>,
    plot_district: Seq<u32>,
    b: int,
    d: u32,
)
    requires
        plot_face.len() == plot_district.len(),
        0 <= b <= u32::MAX,
    ensures
        poll(heads(plot_face, plot_district), b, d) == Seq::new(
            plot_face.len(),
            |i: int| (plot_face[i], plot_district[i]),
        ).filter(|p: (Option<u32>, u32)| p == (Some(b as u32), d)).len(),
{
    let pairs = Seq::new(plot_face.len(), |i: int| (plot_face[i], plot_district[i]));
    take_all(pairs);
    heads_upto(plot_face, plot_district, b, d, plot_face.len());
}

proof fn heads_upto(
    plot_face: Seq<Option<u32>>,
    plot_district: Seq<u32>,
    b: int,
    d: u32,
    n: nat,
)
    requires
        n <= plot_face.len(),
        plot_face.len() == plot_district.len(),
        0 <= b <= u32::MAX,
    ensures
        votes(heads(plot_face, plot_district), b, d, n) == Seq::new(
            plot_face.len(),
            |i: int| (plot_face[i], plot_district[i]),
        ).take(n as int).filter(|p: (Option<u32>, u32)| p == (Some(b as u32), d)).len(),
    decreases n,
{
    let pairs = Seq::new(plot_face.len(), |i: int| (plot_face[i], plot_district[i]));
    let pred = |p: (Option<u32>, u32)| p == (Some(b as u32), d);
    if n == 0 {
        filter_none(pairs, pred);
    } else {
        heads_upto(plot_face, plot_district, b, d, (n - 1) as nat);
        filter_step(pairs, pred, n);
    }
}

/// Where every district with plots wins a block, every block is its winner's.
pub proof fn the_vote_stands_where_all_are_seated(
    plots: Seq<PlotSeat>,
    blocks: nat,
    districts: nat,
    b: int,
)
    requires
        0 <= b < blocks,
        districts <= u32::MAX,
        forall|k: int|
            0 <= k < plots.len() ==> exists|c: int|
                0 <= c < blocks && #[trigger] winner(plots, c) == Some(
                    (#[trigger] plots[k]).district,
                ),
    ensures
        owners(plots, blocks, districts)[b] == winner(plots, b),
{
    let first = Seq::new(blocks, |c: int| winner(plots, c));
    nobody_wants(plots, blocks, districts);
    assert(owners(plots, blocks, districts) == first);
}

proof fn nobody_wants(plots: Seq<PlotSeat>, blocks: nat, n: nat)
    requires
        n <= u32::MAX,
        forall|k: int|
            0 <= k < plots.len() ==> exists|c: int|
                0 <= c < blocks && #[trigger] winner(plots, c) == Some(
                    (#[trigger] plots[k]).district,
                ),
    ensures
        seated(plots, Seq::new(blocks, |c: int| winner(plots, c)), n) == Seq::new(
            blocks,
            |c: int| winner(plots, c),
        ),
    decreases n,
{
    let first = Seq::new(blocks, |c: int| winner(plots, c));
    if n > 0 {
        nobody_wants(plots, blocks, (n - 1) as nat);
        let d = (n - 1) as u32;
        if wanting(plots, first, d) {
            let k = choose|k: int| 0 <= k < plots.len() && (#[trigger] plots[k]).district == d;
            let c = choose|c: int|
                0 <= c < blocks && #[trigger] winner(plots, c) == Some(plots[k].district);
            assert(first[c] == Some(d));
            held_at(first, d, c, first.len());
        }
    }
}

/// A district that won a block has one in the end.
pub proof fn winners_keep_ground(plots: Seq<PlotSeat>, blocks: nat, districts: nat, c: int)
    requires
        0 <= c < blocks,
        districts <= u32::MAX,
        winner(plots, c) is Some,
    ensures
        exists|b: int|
            0 <= b < blocks && #[trigger] owners(plots, blocks, districts)[b] == winner(plots, c),
{
    let first = Seq::new(blocks, |k: int| winner(plots, k));
    let d = winner(plots, c)->0;
    assert(first[c] == Some(d));
    held_at(first, d, c, first.len());
    seating_keeps(plots, first, districts, d);
    let last = owners(plots, blocks, districts);
    let b = another_held(last, d, last.len() as int, last.len());
    assert(last[b] == Some(d));
}

proof fn seating_keeps(plots: Seq<PlotSeat>, first: Seq<Option<u32>>, n: nat, d: u32)
    requires
        held(first, d, first.len()) > 0,
    ensures
        seated(plots, first, n).len() == first.len(),
        held(seated(plots, first, n), d, first.len()) > 0,
    decreases n,
{
    if n > 0 {
        seating_keeps(plots, first, (n - 1) as nat, d);
        seating_empties_no_district(
            plots,
            seated(plots, first, (n - 1) as nat),
            (n - 1) as u32,
            d,
        );
    }
}

} // verus!
