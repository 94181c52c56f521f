//! The city, put together from the ground that was settled: its blocks, its lots and
//! who is on them, its districts, streets and landmarks, and the report.
//!
//! Where a stage waits for geometry, the next one takes what came of it.
use vstd::prelude::*;

use crate::age::{days_spanned, AgeRamp, AgeRampKind};
use crate::blocks::{
    assign, assigned, blocks_of, civic_square, district_blocks, district_borders, district_ends,
    ends_by_lists, is_located, off_face_count, owners_are_districts, publish, Block, BlockPlan,
    PlotSeat,
};
use crate::city::{
    count_unbuilt, count_vacant, lot_views, merge_seats, seats_to_compute, to_seat, unbuilt_among,
    vacant_among, vacant_lots_are_counted, what_has_to_be_seated, what_is_unbuilt, GrowthOutcome,
    LayoutInputs, Lot, Parcel, Seat,
};
use crate::delta::{canonical, RepoDelta};
use crate::edges::{halved, halved_all};
use crate::folds::{filter_none, filter_step, same_tests, take_all};
use crate::growth::{after_step, changed_paths, growing, step, Fit};
use crate::heal::{
    copied_edges, districts_of, heal_districts, in_range, sweeps_stay_in_range, town_of,
    HEAL_PASSES,
};
use crate::landmarks::{
    build_host_of, homes, host, industrial_masses, looked_at, mark_views, marks_of, mass_host,
    mass_totals, massed_files, monument_marks, Candidate, IndustrialMass, MonumentMark,
};
use crate::logical::{logical_views, LogicalPath};
use crate::ordered::{ascending, ascending_len, in_order_is, TextMap, TextSet};
use crate::pieces::{fragmented, fragmented_count, fragmented_subtrees, split_subtrees};
use crate::rng::FileClass;
use crate::settlement::{FileMeta, FileRec, Settlement};
use crate::streets::{
    are_streets, build_streets, same_lines, streets_have_one_answer, Street, StreetLine,
};
use crate::territory::{package_at, parents, Node, Territory};
use crate::text::text_lt;
use crate::ways::Roads;

verus! {

/// A parcel as surveyed: the block it lies in, and the file that it is for.
#[derive(Debug, Clone, Copy)]
pub struct Survey {
    /// The block.
    pub block: u32,
    /// The file, if there is one.
    pub occupant: Option<u32>,
}

/// A building that is asked for.
#[derive(Debug)]
pub struct SeatAsk {
    /// The file it stands for.
    pub path: LogicalPath,
    /// The lot it stands on.
    pub lot: u32,
    /// The size of the file.
    pub size_bytes: u64,
    /// Its uncommitted lines.
    pub diff_lines: u32,
    /// The size that it is measured against.
    pub median_bytes: u64,
    /// What is drawn for it.
    pub class: FileClass,
}

/// A building that is asked for, as mathematics.
pub ghost struct Ask {
    pub path: Seq<char>,
    pub lot: int,
    pub size_bytes: u64,
    pub diff_lines: u32,
    pub median_bytes: u64,
    pub class: FileClass,
}

impl SeatAsk {
    /// The building that is asked for.
    pub open spec fn view(self) -> Ask {
        Ask {
            path: self.path@,
            lot: self.lot as int,
            size_bytes: self.size_bytes,
            diff_lines: self.diff_lines,
            median_bytes: self.median_bytes,
            class: self.class,
        }
    }
}

/// The building that is asked for, if any.
pub open spec fn ask_view(a: Option<SeatAsk>) -> Option<Ask> {
    match a {
        Some(ask) => Some(ask@),
        None => None,
    }
}

/// The lot of a parcel: numbered in order, with the path of its file.
pub open spec fn lot_of(parcels: Seq<Survey>, files: Seq<FileRec>, i: int) -> Parcel {
    Parcel {
        id: i as u32,
        block: parcels[i].block,
        occupant: match parcels[i].occupant {
            Some(f) => Some(files[f as int].path@),
            None => None,
        },
    }
}

/// The building that a parcel asks for: one for its file, where the tree still has it,
/// a monument where the file was promoted to one.
pub open spec fn ask_of(
    parcels: Seq<Survey>,
    files: Seq<FileRec>,
    tree: Map<Seq<char>, FileClass>,
    diff: Map<Seq<char>, u32>,
    median: u64,
    i: int,
) -> Option<Ask> {
    match parcels[i].occupant {
        Some(f) => {
            let rec = files[f as int];
            if tree.dom().contains(rec.path@) {
                Some(
                    Ask {
                        path: rec.path@,
                        lot: i,
                        size_bytes: rec.size_bytes,
                        diff_lines: if diff.dom().contains(rec.path@) {
                            diff[rec.path@]
                        } else {
                            0
                        },
                        median_bytes: median,
                        class: if rec.monument {
                            FileClass::Monument
                        } else {
                            tree[rec.path@]
                        },
                    },
                )
            } else {
                None
            }
        },
        None => None,
    }
}

/// The lots of a city, one for each parcel, and the building that each asks for.
pub fn plan_lots(
    parcels: &Vec<Survey>,
    files: &Vec<FileRec>,
    tree: &TextMap<FileClass>,
    inputs: &LayoutInputs,
    median: u64,
) -> (r: (Vec<Lot>, Vec<Option<SeatAsk>>))
    requires
        parcels@.len() <= u32::MAX,
        tree.wf(),
        inputs.diff_lines.wf(),
        forall|i: int|
            0 <= i < parcels@.len() ==> ((#[trigger] parcels@[i]).occupant matches Some(f) ==> f
                < files@.len()),
    ensures
        r.0@.len() == parcels@.len(),
        r.1@.len() == parcels@.len(),
        forall|i: int|
            0 <= i < parcels@.len() ==> (#[trigger] r.0@[i])@ == lot_of(parcels@, files@, i),
        forall|i: int|
            0 <= i < parcels@.len() ==> ask_view(#[trigger] r.1@[i]) == ask_of(
                parcels@,
                files@,
                tree@,
                inputs.diff_lines@,
                median,
                i,
            ),
        forall|i: int|
            0 <= i < parcels@.len() ==> {
                &&& (#[trigger] r.0@[i]).id == i
                &&& r.0@[i].block == parcels@[i].block
                &&& r.0@[i].occupant is Some <==> parcels@[i].occupant is Some
                &&& r.0@[i].occupant matches Some(p) ==> p@
                    == files@[parcels@[i].occupant->0 as int].path@
            },
        forall|i: int|
            0 <= i < parcels@.len() ==> ((#[trigger] r.1@[i]) is Some <==> parcels@[i].occupant
                is Some && tree@.dom().contains(
                files@[parcels@[i].occupant->0 as int].path@,
            )),
        forall|i: int|
            0 <= i < parcels@.len() ==> ((#[trigger] r.1@[i]) matches Some(a) ==> {
                let file = files@[parcels@[i].occupant->0 as int];
                &&& a.path@ == file.path@
                &&& a.lot == i
                &&& a.size_bytes == file.size_bytes
                &&& a.median_bytes == median
                &&& inputs.diff_lines@.dom().contains(file.path@) ==> a.diff_lines
                    == inputs.diff_lines@[file.path@]
                &&& !inputs.diff_lines@.dom().contains(file.path@) ==> a.diff_lines == 0
                &&& file.monument ==> a.class == FileClass::Monument
                &&& !file.monument ==> a.class == tree@[file.path@]
            }),
{
    let mut lots: Vec<Lot> = Vec::new();
    let mut asks: Vec<Option<SeatAsk>> = Vec::new();
    let mut i: usize = 0;
    while i < parcels.len()
        invariant
            i <= parcels@.len() <= u32::MAX,
            tree.wf(),
            inputs.diff_lines.wf(),
            forall|k: int|
                0 <= k < parcels@.len() ==> ((#[trigger] parcels@[k]).occupant matches Some(f)
                    ==> f < files@.len()),
            lots@.len() == i,
            asks@.len() == i,
            forall|k: int| 0 <= k < i ==> (#[trigger] lots@[k])@ == lot_of(parcels@, files@, k),
            forall|k: int|
                0 <= k < i ==> ask_view(#[trigger] asks@[k]) == ask_of(
                    parcels@,
                    files@,
                    tree@,
                    inputs.diff_lines@,
                    median,
                    k,
                ),
            forall|k: int|
                0 <= k < i ==> (#[trigger] lots@[k]).id == k && lots@[k].block == parcels@[k].block
                    && (lots@[k].occupant is Some <==> parcels@[k].occupant is Some) && (
                lots@[k].occupant matches Some(p) ==> p@ == files@[parcels@[k].occupant->0 as int].path@),
            forall|k: int|
                0 <= k < i ==> ((#[trigger] asks@[k]) is Some <==> parcels@[k].occupant is Some
                    && tree@.dom().contains(files@[parcels@[k].occupant->0 as int].path@)),
            forall|k: int|
                0 <= k < i ==> ((#[trigger] asks@[k]) matches Some(a) ==> {
                    let file = files@[parcels@[k].occupant->0 as int];
                    &&& a.path@ == file.path@
                    &&& a.lot == k
                    &&& a.size_bytes == file.size_bytes
                    &&& a.median_bytes == median
                    &&& inputs.diff_lines@.dom().contains(file.path@) ==> a.diff_lines
                        == inputs.diff_lines@[file.path@]
                    &&& !inputs.diff_lines@.dom().contains(file.path@) ==> a.diff_lines == 0
                    &&& file.monument ==> a.class == FileClass::Monument
                    &&& !file.monument ==> a.class == tree@[file.path@]
                }),
        decreases parcels.len() - i,
    {
        let here: Survey = parcels[i];
        let mut occupant: Option<LogicalPath> = None;
        let mut ask: Option<SeatAsk> = None;
        if let Some(f) = here.occupant {
            let rec: &FileRec = &files[f as usize];
            occupant = Some(rec.path.copied());
            if let Some(class) = tree.get(rec.path.as_str()) {
                let drawn: FileClass = if rec.monument {
                    FileClass::Monument
                } else {
                    *class
                };
                ask =
                Some(
                    SeatAsk {
                        path: rec.path.copied(),
                        lot: i as u32,
                        size_bytes: rec.size_bytes,
                        diff_lines: inputs.diff_lines_of(&rec.path),
                        median_bytes: median,
                        class: drawn,
                    },
                );
            }
        }
        lots.push(Lot { id: i as u32, block: here.block, occupant });
        asks.push(ask);
        i = i + 1;
    }
    (lots, asks)
}

/// Which lots ask for a building.
pub open spec fn asked(asks: Seq<Option<SeatAsk>>) -> Seq<bool> {
    Seq::new(asks.len(), |i: int| asks[i] is Some)
}

/// Of which lots it is known from before whether a building stands.
pub open spec fn recalled(known: Seq<Option<bool>>) -> Seq<bool> {
    Seq::new(known.len(), |i: int| known[i] is Some)
}

fn asked_flags(asks: &Vec<Option<SeatAsk>>) -> (r: Vec<bool>)
    ensures
        r@ == asked(asks@),
{
    let mut out: Vec<bool> = Vec::new();
    let mut i: usize = 0;
    while i < asks.len()
        invariant
            i <= asks@.len(),
            out@ == asked(asks@).subrange(0, i as int),
        decreases asks.len() - i,
    {
        out.push(asks[i].is_some());
        i = i + 1;
        assert(out@ =~= asked(asks@).subrange(0, i as int));
    }
    assert(out@ =~= asked(asks@));
    out
}

fn recalled_flags(known: &Vec<Option<bool>>) -> (r: Vec<bool>)
    ensures
        r@ == recalled(known@),
{
    let mut out: Vec<bool> = Vec::new();
    let mut i: usize = 0;
    while i < known.len()
        invariant
            i <= known@.len(),
            out@ == recalled(known@).subrange(0, i as int),
        decreases known.len() - i,
    {
        out.push(known[i].is_some());
        i = i + 1;
        assert(out@ =~= recalled(known@).subrange(0, i as int));
    }
    assert(out@ =~= recalled(known@));
    out
}

/// The lots whose buildings have to be fitted, in order.
pub fn lots_to_fit(asks: &Vec<Option<SeatAsk>>, known: &Vec<Option<bool>>) -> (r: Vec<usize>)
    requires
        asks@.len() == known@.len(),
    ensures
        r@.len() == to_seat(asked(asks@), recalled(known@), asks@.len()),
        forall|i: nat|
            i < asks@.len() && asks@[i as int] is Some && known@[i as int] is None ==> (
            #[trigger] to_seat(asked(asks@), recalled(known@), i)) < r@.len() && r@[to_seat(
                asked(asks@),
                recalled(known@),
                i,
            ) as int] == i,
        forall|k: int|
            0 <= k < r@.len() ==> (#[trigger] r@[k]) < asks@.len() && asks@[r@[k] as int] is Some
                && known@[r@[k] as int] is None,
        forall|i: usize|
            i < asks@.len() && (#[trigger] asks@[i as int]) is Some && known@[i as int] is None
                ==> r@.contains(i),
{
    let want: Vec<bool> = asked_flags(asks);
    let have: Vec<bool> = recalled_flags(known);
    let out: Vec<usize> = seats_to_compute(&want, &have);
    assert forall|i: nat|
        i < asks@.len() && asks@[i as int] is Some && known@[i as int] is None implies (
    #[trigger] to_seat(asked(asks@), recalled(known@), i)) < out@.len() && out@[to_seat(
        asked(asks@),
        recalled(known@),
        i,
    ) as int] == i by {
        assert(want@[i as int] && !have@[i as int]);
    }
    assert forall|k: int| 0 <= k < out@.len() implies (#[trigger] out@[k]) < asks@.len()
        && asks@[out@[k] as int] is Some && known@[out@[k] as int] is None by {
        assert(want@[out@[k] as int] && !have@[out@[k] as int]);
    }
    assert forall|i: usize|
        i < asks@.len() && (#[trigger] asks@[i as int]) is Some && known@[i as int] is None implies out@.contains(
    i) by {
        let k = to_seat(asked(asks@), recalled(known@), i as nat) as int;
        assert(out@[k] == i);
    }
    out
}

/// Does a building stand on a lot: what is known from before, else what came of
/// fitting it now? On a lot that asks for none, none stands.
pub open spec fn stands(
    asks: Seq<Option<SeatAsk>>,
    known: Seq<Option<bool>>,
    fresh: Seq<bool>,
    i: int,
) -> bool {
    match known[i] {
        Some(b) => b,
        None => asks[i] is Some && fresh[to_seat(asked(asks), recalled(known), i as nat) as int],
    }
}

/// The files of the first `n` lots that have a building.
pub open spec fn files_built(
    asks: Seq<Option<SeatAsk>>,
    built: Seq<bool>,
    n: nat,
) -> Set<Seq<char>>
    decreases n,
{
    if n == 0 || n > asks.len() {
        Set::empty()
    } else {
        let before = files_built(asks, built, (n - 1) as nat);
        match asks[n - 1] {
            Some(ask) => if built[n - 1] {
                before.insert(ask.path@)
            } else {
                before
            },
            None => before,
        }
    }
}

/// What stands once every building was fitted.
#[derive(Debug)]
pub struct Standing {
    /// On which lots a building stands.
    pub built: Vec<bool>,
    /// The files that have one.
    pub files: TextSet,
    /// Lots that asked for one that does not stand.
    pub unbuilt: usize,
}

/// Is it what stands, from what is known from before and what came of fitting the rest?
pub open spec fn is_standing(
    s: Standing,
    asks: Seq<Option<SeatAsk>>,
    known: Seq<Option<bool>>,
    fresh: Seq<bool>,
) -> bool {
    &&& s.built@.len() == asks.len()
    &&& forall|i: int|
        0 <= i < asks.len() ==> (#[trigger] s.built@[i]) == stands(asks, known, fresh, i)
    &&& s.files.wf()
    &&& s.files@ == files_built(asks, s.built@, asks.len())
    &&& s.unbuilt == unbuilt_among(asked(asks), s.built@, asks.len())
}

/// Puts together what is known from before and what came of fitting the rest, in order.
pub fn raise_buildings(
    asks: &Vec<Option<SeatAsk>>,
    known: &Vec<Option<bool>>,
    fresh: &Vec<bool>,
) -> (r: Standing)
    requires
        asks@.len() == known@.len(),
        fresh@.len() == to_seat(asked(asks@), recalled(known@), asks@.len()),
    ensures
        is_standing(r, asks@, known@, fresh@),
        r.built@.len() == asks@.len(),
        forall|i: int|
            0 <= i < asks@.len() ==> ((#[trigger] known@[i]) matches Some(b) ==> r.built@[i] == b),
        forall|i: int|
            0 <= i < asks@.len() && (#[trigger] asks@[i]) is None && known@[i] is None
                ==> !r.built@[i],
        forall|i: int|
            0 <= i < asks@.len() && (#[trigger] asks@[i]) is Some && known@[i] is None
                ==> r.built@[i] == fresh@[Seq::new(i as nat, |j: int| j).filter(
                |j: int| asks@[j] is Some && known@[j] is None,
            ).len() as int],
        forall|p: Seq<char>| #[trigger]
            r.files@.contains(p) <==> exists|i: int|
                0 <= i < asks@.len() && r.built@[i] && ((#[trigger] asks@[i]) matches Some(a)
                    && a.path@ == p),
        r.unbuilt == Seq::new(asks@.len(), |i: int| i).filter(
            |i: int| asks@[i] is Some && !r.built@[i],
        ).len(),
{
    let todo: Vec<usize> = lots_to_fit(asks, known);
    let want: Vec<bool> = asked_flags(asks);
    let have: Vec<bool> = recalled_flags(known);
    let seats: Vec<Seat> = merge_seats(&want, &have);
    let mut built: Vec<bool> = Vec::new();
    let mut files: TextSet = TextSet::new();
    let mut i: usize = 0;
    assert(files@ =~= Set::<Seq<char>>::empty());
    while i < asks.len()
        invariant
            i <= asks@.len(),
            asks@.len() == known@.len() == seats@.len(),
            want@ == asked(asks@),
            have@ == recalled(known@),
            fresh@.len() == todo@.len(),
            forall|k: nat|
                k < asks@.len() && asks@[k as int] is Some && known@[k as int] is None ==> (
                #[trigger] to_seat(asked(asks@), recalled(known@), k)) < todo@.len(),
            forall|k: int|
                0 <= k < seats@.len() ==> (#[trigger] seats@[k]) == if have@[k] {
                    Seat::Known
                } else if want@[k] {
                    Seat::Computed(to_seat(want@, have@, k as nat) as usize)
                } else {
                    Seat::Unasked
                },
            built@.len() == i,
            forall|k: int|
                0 <= k < i ==> (#[trigger] built@[k]) == stands(asks@, known@, fresh@, k),
            files.wf(),
            files@ == files_built(asks@, built@, i as nat),
        decreases asks.len() - i,
    {
        let ghost before = built@;
        assert(asks@[i as int] is Some && known@[i as int] is None ==> to_seat(
            asked(asks@),
            recalled(known@),
            i as nat,
        ) < todo@.len());
        assert(want@[i as int] == asks@[i as int] is Some);
        assert(have@[i as int] == known@[i as int] is Some);
        let seat: Seat = seats[i];
        let before_now: Option<bool> = known[i];
        assert(fresh.len() <= usize::MAX);
        assert(!have@[i as int] && want@[i as int] ==> seat == Seat::Computed(
            to_seat(want@, have@, i as nat) as usize,
        ));
        let here: bool = match seat {
            Seat::Known => before_now.unwrap(),
            Seat::Computed(k) => fresh[k],
            Seat::Unasked => false,
        };
        assert(here == stands(asks@, known@, fresh@, i as int));
        built.push(here);
        if let Some(ask) = &asks[i] {
            if here {
                files.insert(ask.path.copied().text);
            }
        }
        i = i + 1;
        proof {
            files_built_prefix(asks@, before, built@, (i - 1) as nat);
        }
    }
    let unbuilt: usize = count_unbuilt(&want, &built);
    proof {
        files_built_are(asks@, built@, asks@.len());
        what_is_unbuilt(want@, built@);
        same_tests(
            Seq::new(asks@.len(), |i: int| i),
            |i: int| want@[i] && !built@[i],
            |i: int| asks@[i] is Some && !built@[i],
        );
        assert forall|i: int|
            0 <= i < asks@.len() && (#[trigger] asks@[i]) is Some && known@[i] is None implies built@[i]
            == fresh@[Seq::new(i as nat, |j: int| j).filter(
            |j: int| asks@[j] is Some && known@[j] is None,
        ).len() as int] by {
            what_has_to_be_seated(want@, have@, i as nat);
            same_tests(
                Seq::new(i as nat, |j: int| j),
                |j: int| want@[j] && !have@[j],
                |j: int| asks@[j] is Some && known@[j] is None,
            );
            assert(built@[i] == stands(asks@, known@, fresh@, i));
        }
        assert forall|i: int| 0 <= i < asks@.len() implies ((
        #[trigger] known@[i]) matches Some(b) ==> built@[i] == b) by {
            assert(built@[i] == stands(asks@, known@, fresh@, i));
        }
        assert forall|i: int|
            0 <= i < asks@.len() && (#[trigger] asks@[i]) is None && known@[i] is None implies !built@[i] by {
            assert(built@[i] == stands(asks@, known@, fresh@, i));
        }
    }
    Standing { built, files, unbuilt }
}

proof fn files_built_prefix(
    asks: Seq<Option<SeatAsk>>,
    a: Seq<bool>,
    b: Seq<bool>,
    n: nat,
)
    requires
        n <= asks.len(),
        n <= a.len(),
        n <= b.len(),
        forall|k: int| 0 <= k < n ==> a[k] == b[k],
    ensures
        files_built(asks, a, n) == files_built(asks, b, n),
    decreases n,
{
    if n > 0 {
        files_built_prefix(asks, a, b, (n - 1) as nat);
    }
}

/// Is every answer, remembered or fresh, the one that fitting the building gives?
pub open spec fn answers_are(
    asks: Seq<Option<SeatAsk>>,
    known: Seq<Option<bool>>,
    fresh: Seq<bool>,
    fits: Seq<bool>,
) -> bool {
    &&& asks.len() == known.len()
    &&& asks.len() == fits.len()
    &&& forall|i: int|
        0 <= i < asks.len() ==> ((#[trigger] known[i]) matches Some(b) ==> asks[i] is Some && b
            == fits[i])
    &&& forall|i: int|
        0 <= i < asks.len() && asks[i] is Some && known[i] is None ==> fresh[to_seat(
            asked(asks),
            recalled(known),
            i as nat,
        ) as int] == #[trigger] fits[i]
}

/// What is remembered moves nothing: as long as every remembered answer is the one that
/// fitting the building would give, the same buildings stand whatever was remembered.
pub proof fn memory_moves_nothing(
    asks: Seq<Option<SeatAsk>>,
    known: Seq<Option<bool>>,
    fresh: Seq<bool>,
    fits: Seq<bool>,
)
    requires
        answers_are(asks, known, fresh, fits),
    ensures
        forall|i: int|
            0 <= i < asks.len() ==> #[trigger] stands(asks, known, fresh, i) == (asks[i] is Some
                && fits[i]),
{
    assert forall|i: int| 0 <= i < asks.len() implies #[trigger] stands(asks, known, fresh, i) == (
    asks[i] is Some && fits[i]) by {
        assert(known[i] matches Some(b) ==> asks[i] is Some && b == fits[i]);
    }
}

/// The half-edges around each block.
pub open spec fn rings_of(plans: Seq<BlockPlan>) -> Seq<Vec<usize>> {
    Seq::new(plans.len(), |i: int| plans[i].half_edges)
}

/// Are they the blocks that the faces became?
pub open spec fn is_assigned(
    half_edges: Seq<Vec<usize>>,
    plots: Seq<PlotSeat>,
    mass: Seq<bool>,
    plans: Seq<BlockPlan>,
) -> bool {
    &&& plans.len() == half_edges.len()
    &&& forall|b: int|
        0 <= b < plans.len() ==> assigned(
            plots,
            mass,
            half_edges.len(),
            b,
            #[trigger] plans[b],
        ) && plans[b].half_edges@ == half_edges[b]@
}

/// Are they the same blocks, with every district put back together?
pub open spec fn is_healed(
    before: Seq<BlockPlan>,
    after: Seq<BlockPlan>,
    up: Seq<Option<u32>>,
) -> bool {
    &&& after.len() == before.len()
    &&& districts_of(after) == town_of(before, up).sweeps(
        districts_of(before),
        HEAL_PASSES as nat,
    )
    &&& forall|i: int|
        0 <= i < before.len() ==> #[trigger] after[i] == (BlockPlan {
            district: after[i].district,
            ..before[i]
        })
}

/// Is it the block of the civic square: the first that holds the reserved plot, else
/// the nearest?
pub open spec fn is_civic(
    holds: Seq<bool>,
    distance: Seq<Option<i64>>,
    civic: Option<u32>,
) -> bool {
    let none_holds = forall|k: int| 0 <= k < holds.len() ==> !#[trigger] holds[k];
    ||| (civic matches Some(b) && b < holds.len() && holds[b as int] && forall|k: int|
        0 <= k < b ==> !#[trigger] holds[k])
    ||| (none_holds && is_located(seq![], holds, distance, civic))
}

/// The blocks of a city, and what follows from whose they are.
#[derive(Debug)]
pub struct Raised {
    /// The blocks.
    pub plans: Vec<BlockPlan>,
    /// Plots that lie inside no block.
    pub off_face: usize,
    /// The block of the civic square.
    pub civic: Option<u32>,
    /// The edges at which a district ends.
    pub borders: Vec<usize>,
}

fn copied_rings(plans: &Vec<BlockPlan>) -> (r: Vec<Vec<usize>>)
    ensures
        r@.len() == plans@.len(),
        forall|i: int| 0 <= i < r@.len() ==> (#[trigger] r@[i])@ == plans@[i].half_edges@,
{
    let mut out: Vec<Vec<usize>> = Vec::new();
    let mut i: usize = 0;
    while i < plans.len()
        invariant
            i <= plans@.len(),
            out@.len() == i,
            forall|k: int| 0 <= k < i ==> (#[trigger] out@[k])@ == plans@[k].half_edges@,
        decreases plans.len() - i,
    {
        out.push(copied_edges(&plans[i].half_edges));
        i = i + 1;
    }
    out
}

fn copied_owners(plans: &Vec<BlockPlan>) -> (r: Vec<Option<u32>>)
    ensures
        r@ == districts_of(plans@),
{
    let mut out: Vec<Option<u32>> = Vec::new();
    let mut i: usize = 0;
    while i < plans.len()
        invariant
            i <= plans@.len(),
            out@ == districts_of(plans@).subrange(0, i as int),
        decreases plans.len() - i,
    {
        out.push(plans[i].district);
        i = i + 1;
        assert(out@ =~= districts_of(plans@).subrange(0, i as int));
    }
    assert(out@ =~= districts_of(plans@));
    out
}

/// Turns the faces of the road graph into the blocks of the city: who owns each, with
/// every district put back together, and where the districts end.
pub fn raise_blocks(
    half_edges: Vec<Vec<usize>>,
    plots: &Vec<PlotSeat>,
    mass: &Vec<bool>,
    territory: &Territory,
    holds: &Vec<bool>,
    distance: &Vec<Option<i64>>,
    edges: usize,
) -> (r: Raised)
    requires
        territory.wf(),
        mass@.len() == territory.nodes@.len(),
        plots@.len() <= u32::MAX,
        half_edges@.len() <= u32::MAX,
        forall|k: int| 0 <= k < plots@.len() ==> (#[trigger] plots@[k]).district < mass@.len(),
        holds@.len() == half_edges@.len(),
        distance@.len() == half_edges@.len(),
        edges <= usize::MAX / 2,
    ensures
        exists|a: Seq<BlockPlan>| #[trigger]
            is_assigned(half_edges@, plots@, mass@, a) && is_healed(
                a,
                r.plans@,
                territory.up(),
            ),
        r.plans@.len() == half_edges@.len(),
        in_range(districts_of(r.plans@), territory.nodes@.len()),
        r.off_face == off_face_count(plots@, plots@.len()),
        is_civic(holds@, distance@, r.civic),
        r.borders@ == district_ends(rings_of(r.plans@), districts_of(r.plans@), edges as nat),
        exists|a: Seq<BlockPlan>| #[trigger]
            is_assigned(half_edges@, plots@, mass@, a) && districts_of(r.plans@) == town_of(
                a,
                territory.up(),
            ).sweeps(districts_of(a), 4),
        forall|b: int|
            0 <= b < half_edges@.len() ==> (#[trigger] r.plans@[b]).half_edges@ == half_edges@[b]@
                && (r.plans@[b].open <==> forall|k: int|
                0 <= k < plots@.len() ==> (#[trigger] plots@[k]).block != Some(b as u32)) && (
            r.plans@[b].district is Some <==> !r.plans@[b].open),
        r.off_face == plots@.filter(|p: PlotSeat| p.block is Some && !p.inside).len(),
        forall|k: int|
            0 <= k < holds@.len() && #[trigger] holds@[k] ==> r.civic is Some && r.civic->0 <= k
                && holds@[r.civic->0 as int],
        (forall|k: int| 0 <= k < holds@.len() ==> !#[trigger] holds@[k]) ==> forall|k: int|
            0 <= k < distance@.len() && (#[trigger] distance@[k]) is Some ==> r.civic is Some
                && distance@[r.civic->0 as int] is Some && distance@[r.civic->0 as int]->0
                <= distance@[k]->0,
{
    let ghost faces = half_edges@;
    let (mut plans, off_face) = assign(half_edges, plots, mass);
    let ghost a = plans@;
    assert(is_assigned(faces, plots@, mass@, a));
    heal_districts(&mut plans, territory);
    assert(is_healed(a, plans@, territory.up()));
    proof {
        assert forall|b: int| 0 <= b < faces.len() implies (#[trigger] plans@[b]).half_edges@
            == faces[b]@ && (plans@[b].open <==> forall|k: int|
            0 <= k < plots@.len() ==> (#[trigger] plots@[k]).block != Some(b as u32)) && (
        plans@[b].district is Some <==> !plans@[b].open) by {
            assert(a[b].half_edges@ == faces[b]@);
            assert(plans@[b] == (BlockPlan { district: plans@[b].district, ..a[b] }));
            let w = town_of(a, territory.up());
            crate::heal::sweeps_keep_owned(w, districts_of(a), HEAL_PASSES as nat, b);
            assert(districts_of(plans@)[b] == plans@[b].district);
            assert(districts_of(a)[b] == a[b].district);
        }
    }
    proof {
        owners_are_districts(plots@, faces.len(), mass@.len());
        assert forall|i: int| 0 <= i < a.len() implies ((
        #[trigger] districts_of(a)[i]) matches Some(d) ==> d < territory.nodes@.len()) by {
            assert(assigned(plots@, mass@, faces.len(), i, a[i]));
        }
        sweeps_stay_in_range(town_of(a, territory.up()), districts_of(a), HEAL_PASSES as nat);
    }
    let rings: Vec<Vec<usize>> = copied_rings(&plans);
    let owners: Vec<Option<u32>> = copied_owners(&plans);
    let civic: Option<u32> = civic_square(holds, distance);
    let borders: Vec<usize> = district_borders(&rings, &owners, edges);
    proof {
        ends_by_lists(rings@, rings_of(plans@), owners@, edges as nat);
    }
    Raised { plans, off_face, civic, borders }
}

/// What is measured on the drawn map, or counted by stages that work on it.
#[derive(Debug, Clone, Copy, PartialEq, Eq, Structural)]
pub struct Measured {
    /// Blocks that are too thin or far too small.
    pub slivers: usize,
    /// Files without a lot because they are drawn as part of one mass.
    pub massed: usize,
    /// Files that had to share a parcel.
    pub overflow: usize,
    /// Road nodes.
    pub road_nodes: usize,
    /// Road segments.
    pub road_segments: usize,
    /// Connected components of the roads.
    pub components: usize,
    /// Independent cycles of the roads.
    pub cycles: usize,
    /// Nodes where other than two roads meet.
    pub junctions: usize,
    /// Nodes where four roads or more meet.
    pub complex_junctions: usize,
    /// Nodes where one road ends.
    pub dangling: usize,
    /// Crossings without a node.
    pub crossings: usize,
    /// Faces that districts share.
    pub shared_faces: usize,
    /// Districts without ground of their own.
    pub faceless_districts: usize,
    /// Districts in more than one piece before any road was laid.
    pub presplit_districts: usize,
    /// Files whose plot fell in no block.
    pub unhoused: usize,
    /// Plots without ground.
    pub empty_cells: usize,
    /// Block size on the newest ground over the oldest, in hundredths.
    pub age_gradient_x100: u32,
}

/// What a city came to, in numbers.
#[derive(Debug, Clone, Copy, PartialEq, Eq, Structural)]
pub struct CityReport {
    /// Files in the tree.
    pub files: usize,
    /// Buildings.
    pub buildings: usize,
    /// Blocks.
    pub blocks: usize,
    /// Blocks with no plot inside.
    pub open_blocks: usize,
    /// Lots.
    pub lots: usize,
    /// Lots that nobody is on.
    pub empty_lots: usize,
    /// Files with a lot and no building.
    pub unbuilt: usize,
    /// Settled plots.
    pub plots: usize,
    /// Districts with ground.
    pub districts: usize,
    /// Districts in more than one piece.
    pub fragmented_districts: usize,
    /// Directories, at any depth, whose subtree is in more than one piece.
    pub fragmented_subtrees: usize,
    /// Packages in more than one piece.
    pub fragmented_packages: usize,
    /// Plots away from their own district's ground.
    pub settled_nonadjacent: usize,
    /// Plots at the fringe of their own district.
    pub settled_on_fringe: usize,
    /// Plots in a district above their own.
    pub relaxed_to_ancestor: usize,
    /// Plots at the edge of the town.
    pub relaxed_to_anywhere: usize,
    /// Plots out of contact with the town.
    pub detached_placements: usize,
    /// Plots that lie inside no block.
    pub plots_off_face: usize,
    /// Monuments.
    pub monuments: usize,
    /// How the history is read.
    pub age_ramp: AgeRampKind,
    /// Days from the first file to the last.
    pub history_days: u32,
    /// Files of the first year.
    pub old_town_files: usize,
    /// What is measured on the map.
    pub measured: Measured,
}

/// A city, as far as it is not geometry.
#[derive(Debug)]
pub struct City {
    /// Its blocks.
    pub blocks: Vec<Block>,
    /// Its lots.
    pub lots: Vec<Lot>,
    /// The files whose buildings stand.
    pub standing: TextSet,
    /// The districts that have blocks, each with its blocks.
    pub districts: Vec<(u32, Vec<u32>)>,
    /// The paths of the districts that have blocks.
    pub ground: TextSet,
    /// Its streets.
    pub streets: Vec<StreetLine>,
    /// Its monuments, strongest first.
    pub monuments: Vec<MonumentMark>,
    /// The directory that each directory's files are drawn on.
    pub host_of: TextMap<LogicalPath>,
    /// Its masses.
    pub industrial: Vec<IndustrialMass>,
    /// What it came to.
    pub report: CityReport,
}

/// The paths of the districts that own one of the blocks.
pub open spec fn owned_paths(plans: Seq<BlockPlan>, nodes: Seq<Node>) -> Set<Seq<char>> {
    Set::new(|p: Seq<char>| exists|i: int| #[trigger] owns_as(plans, nodes, i, p))
}

/// Is a block owned by the district with a path?
pub open spec fn owns_as(
    plans: Seq<BlockPlan>,
    nodes: Seq<Node>,
    i: int,
    p: Seq<char>,
) -> bool {
    &&& 0 <= i < plans.len()
    &&& plans[i].district matches Some(d) && nodes[d as int].path@ == p
}

/// How many of the first `n` blocks have no plot inside.
pub open spec fn open_among(plans: Seq<BlockPlan>, n: nat) -> nat
    decreases n,
{
    if n == 0 || n > plans.len() {
        0
    } else {
        open_among(plans, (n - 1) as nat) + if plans[n - 1].open {
            1nat
        } else {
            0nat
        }
    }
}

/// The package of each block, by its district.
pub open spec fn packages_of(plans: Seq<BlockPlan>, nodes: Seq<Node>) -> Seq<Option<u32>> {
    Seq::new(
        plans.len(),
        |i: int|
            match plans[i].district {
                Some(d) => Some(package_at(nodes, d as int) as u32),
                None => None,
            },
    )
}

fn ground_of(plans: &Vec<BlockPlan>, territory: &Territory) -> (r: TextSet)
    requires
        in_range(districts_of(plans@), territory.nodes@.len()),
    ensures
        r.wf(),
        r@ == owned_paths(plans@, territory.nodes@),
{
    let ghost nodes = territory.nodes@;
    let mut out: TextSet = TextSet::new();
    let mut i: usize = 0;
    while i < plans.len()
        invariant
            i <= plans@.len(),
            nodes == territory.nodes@,
            in_range(districts_of(plans@), nodes.len()),
            out.wf(),
            forall|p: Seq<char>| #[trigger]
                out@.contains(p) <==> exists|k: int|
                    k < i && #[trigger] owns_as(plans@, nodes, k, p),
        decreases plans.len() - i,
    {
        let ghost before = out@;
        assert(districts_of(plans@)[i as int] == plans@[i as int].district);
        let ghost added = match plans@[i as int].district {
            Some(d) => before.insert(nodes[d as int].path@),
            None => before,
        };
        if let Some(d) = plans[i].district {
            out.insert(territory.nodes[d as usize].path.copied().text);
        }
        assert(out@ == added);
        assert forall|p: Seq<char>| #[trigger] out@.contains(p) <==> exists|k: int|
            k < i + 1 && #[trigger] owns_as(plans@, nodes, k, p) by {
            if before.contains(p) {
                let k = choose|k: int| k < i && #[trigger] owns_as(plans@, nodes, k, p);
                assert(k < i + 1 && owns_as(plans@, nodes, k, p));
            } else if out@.contains(p) {
                assert(owns_as(plans@, nodes, i as int, p));
            }
            if exists|k: int| k < i + 1 && #[trigger] owns_as(plans@, nodes, k, p) {
                let k = choose|k: int| k < i + 1 && #[trigger] owns_as(plans@, nodes, k, p);
                if k < i {
                    assert(before.contains(p));
                }
            }
        }
        i = i + 1;
    }
    assert(out@ =~= owned_paths(plans@, nodes));
    out
}

fn count_open(plans: &Vec<BlockPlan>) -> (r: usize)
    ensures
        r == open_among(plans@, plans@.len()),
{
    let mut count: usize = 0;
    let mut i: usize = 0;
    while i < plans.len()
        invariant
            i <= plans@.len(),
            count == open_among(plans@, i as nat),
            count <= i,
        decreases plans.len() - i,
    {
        if plans[i].open {
            count = count + 1;
        }
        i = i + 1;
    }
    count
}

fn block_packages(plans: &Vec<BlockPlan>, territory: &Territory) -> (r: Vec<Option<u32>>)
    requires
        territory.wf(),
        in_range(districts_of(plans@), territory.nodes@.len()),
    ensures
        r@ == packages_of(plans@, territory.nodes@),
{
    let kin: Vec<u32> = territory.package_of();
    let ghost want = packages_of(plans@, territory.nodes@);
    let mut out: Vec<Option<u32>> = Vec::new();
    let mut i: usize = 0;
    while i < plans.len()
        invariant
            i <= plans@.len(),
            kin@.len() == territory.nodes@.len(),
            forall|k: int|
                0 <= k < kin@.len() ==> (#[trigger] kin@[k]) == package_at(territory.nodes@, k),
            in_range(districts_of(plans@), territory.nodes@.len()),
            want == packages_of(plans@, territory.nodes@),
            out@ == want.subrange(0, i as int),
        decreases plans.len() - i,
    {
        assert(districts_of(plans@)[i as int] == plans@[i as int].district);
        let package: Option<u32> = match plans[i].district {
            Some(d) => Some(kin[d as usize]),
            None => None,
        };
        out.push(package);
        i = i + 1;
        assert(out@ =~= want.subrange(0, i as int));
    }
    assert(out@ =~= want);
    out
}

/// The edges of each block.
pub open spec fn edges_of(plans: Seq<BlockPlan>) -> Seq<Seq<int>> {
    Seq::new(plans.len(), |i: int| halved(plans[i].half_edges@))
}

/// What the city came to.
pub open spec fn is_reported(
    r: CityReport,
    city: City,
    plans: Seq<BlockPlan>,
    nodes: Seq<Node>,
    files: nat,
) -> bool {
    &&& r.files == files
    &&& r.buildings == city.standing@.len()
    &&& r.blocks == plans.len()
    &&& r.open_blocks == open_among(plans, plans.len())
    &&& r.lots == city.lots@.len()
    &&& r.empty_lots == vacant_among(lot_views(city.lots@), city.lots@.len())
    &&& r.districts == city.ground@.len()
    &&& r.fragmented_districts == fragmented_count(
        edges_of(plans),
        districts_of(plans),
        plans.len(),
    )
    &&& r.fragmented_packages == fragmented_count(
        edges_of(plans),
        packages_of(plans, nodes),
        plans.len(),
    )
    &&& r.fragmented_subtrees == split_subtrees(
        edges_of(plans),
        parents(nodes),
        districts_of(plans),
        nodes.len(),
    )
    &&& r.monuments == city.monuments@.len()
}

/// Are they the blocks as published: numbered in order, each with the path of its
/// district, or the root where it has none?
pub open spec fn are_blocks(blocks: Seq<Block>, plans: Seq<BlockPlan>, nodes: Seq<Node>) -> bool {
    &&& blocks.len() == plans.len()
    &&& forall|i: int|
        0 <= i < blocks.len() ==> (#[trigger] blocks[i]).id == i && blocks[i].district@
            == match plans[i].district {
            Some(d) => nodes[d as int].path@,
            None => Seq::<char>::empty(),
        }
}

/// Are they the districts that have blocks, ascending, each with its blocks?
pub open spec fn are_grounds(districts: Seq<(u32, Vec<u32>)>, plans: Seq<BlockPlan>) -> bool {
    &&& forall|i: int, j: int|
        0 <= i < j < districts.len() ==> (#[trigger] districts[i]).0 < (
        #[trigger] districts[j]).0
    &&& forall|i: int|
        0 <= i < districts.len() ==> (#[trigger] districts[i]).1@ == blocks_of(
            plans,
            districts[i].0,
            plans.len(),
        ) && districts[i].1@.len() > 0
    &&& forall|b: int|
        0 <= b < plans.len() ==> ((#[trigger] plans[b]).district matches Some(d) ==> exists|i: int|
            0 <= i < districts.len() && (#[trigger] districts[i]).0 == d)
}

/// Is it said, of each directory with a file, on whose ground its files are drawn?
pub open spec fn are_hosts(
    host_of: TextMap<LogicalPath>,
    files: Seq<FileMeta>,
    ground: Set<Seq<char>>,
) -> bool {
    &&& host_of.wf()
    &&& forall|d: Seq<char>| #[trigger]
        host_of@.dom().contains(d) <==> homes(files, d, files.len())
    &&& forall|d: Seq<char>| #[trigger]
        host_of@.dom().contains(d) ==> host_of@[d]@ == host(ground, d)
}

/// The directories of some masses.
pub open spec fn mass_districts(masses: Seq<IndustrialMass>) -> Seq<Seq<char>> {
    Seq::new(masses.len(), |i: int| masses[i].district@)
}

/// The district of the first block, if there is one.
pub open spec fn first_district(blocks: Seq<Block>) -> Option<Seq<char>> {
    if blocks.len() > 0 {
        Some(blocks[0].district@)
    } else {
        None
    }
}

/// Are they the masses: one for each directory with massed files, in order?
pub open spec fn are_masses(
    masses: Seq<IndustrialMass>,
    blocks: Seq<Block>,
    host_of: Map<Seq<char>, LogicalPath>,
    files: Seq<FileMeta>,
    ground: Set<Seq<char>>,
) -> bool {
    &&& ascending(mass_districts(masses))
    &&& forall|d: Seq<char>|
        (#[trigger] massed_files(files, d, files.len())) > 0 <==> mass_districts(
            masses,
        ).contains(d)
    &&& forall|i: int|
        0 <= i < masses.len() ==> ((#[trigger] masses[i]).files, masses[i].bytes) == mass_totals(
            files,
            masses[i].district@,
        ) && masses[i].host@ == mass_host(
            host_of,
            ground,
            first_district(blocks),
            masses[i].district@,
        )
}

/// Does the report carry what the earlier stages counted?
pub open spec fn is_carried(
    r: CityReport,
    raised: Raised,
    unbuilt: usize,
    settled: Settlement,
    ramp: AgeRamp,
    measured: Measured,
) -> bool {
    &&& r.unbuilt == unbuilt
    &&& r.plots == settled.plots@.len()
    &&& r.settled_nonadjacent == settled.relaxed.nonadjacent
    &&& r.settled_on_fringe == settled.relaxed.fringe
    &&& r.relaxed_to_ancestor == settled.relaxed.ancestor
    &&& r.relaxed_to_anywhere == settled.relaxed.anywhere
    &&& r.detached_placements == settled.relaxed.detached
    &&& r.plots_off_face == raised.off_face
    &&& r.age_ramp == ramp.kind
    &&& r.history_days == days_spanned(ramp.span_ms as int)
    &&& r.old_town_files == ramp.old_town
    &&& r.measured == measured
}

/// Is it the city that these make?
pub open spec fn is_city(
    city: City,
    raised: Raised,
    lots: Seq<Parcel>,
    standing: Standing,
    nodes: Seq<Node>,
    files: Seq<FileMeta>,
    candidates: Seq<Candidate>,
    relations: Seq<Street>,
    seats: Map<Seq<char>, u32>,
    roads: Roads,
    settled: Settlement,
    ramp: AgeRamp,
    measured: Measured,
) -> bool {
    &&& are_blocks(city.blocks@, raised.plans@, nodes)
    &&& lot_views(city.lots@) == lots
    &&& city.standing.wf()
    &&& city.standing@ == standing.files@
    &&& are_grounds(city.districts@, raised.plans@)
    &&& city.ground.wf()
    &&& city.ground@ == owned_paths(raised.plans@, nodes)
    &&& are_streets(city.streets@, roads, relations, seats)
    &&& mark_views(city.monuments@) == marks_of(
        candidates,
        standing.files@,
        looked_at(candidates.len()),
    )
    &&& are_hosts(city.host_of, files, city.ground@)
    &&& are_masses(city.industrial@, city.blocks@, city.host_of@, files, city.ground@)
    &&& is_reported(city.report, city, raised.plans@, nodes, files.len())
    &&& is_carried(city.report, raised, standing.unbuilt, settled, ramp, measured)
}

/// Puts the city together, once its blocks are raised, its buildings are fitted and its
/// roads are laid. `seats` says at which road node each district lies.
pub fn assemble(
    raised: &Raised,
    lots: Vec<Lot>,
    standing: Standing,
    territory: &Territory,
    files: &Vec<FileMeta>,
    candidates: &Vec<Candidate>,
    relations: &Vec<Street>,
    seats: &TextMap<u32>,
    roads: &Roads,
    settled: &Settlement,
    ramp: &AgeRamp,
    measured: Measured,
) -> (r: City)
    requires
        territory.wf(),
        raised.plans@.len() <= u32::MAX,
        in_range(districts_of(raised.plans@), territory.nodes@.len()),
        standing.files.wf(),
        seats.wf(),
        roads.wf(),
        forall|k: Seq<char>| #[trigger]
            seats@.contains_key(k) ==> seats@[k] < roads.at@.len(),
        ramp.span_ms >= 0,
    ensures
        r.lots == lots,
        r.standing == standing.files,
        is_city(
            r,
            *raised,
            lot_views(lots@),
            standing,
            territory.nodes@,
            files@,
            candidates@,
            relations@,
            seats@,
            *roads,
            *settled,
            *ramp,
            measured,
        ),
        r.blocks@.len() == raised.plans@.len(),
        forall|i: int|
            0 <= i < r.blocks@.len() ==> (#[trigger] r.blocks@[i]).id == i && match raised.plans@[i].district {
                Some(d) => r.blocks@[i].district@ == territory.nodes@[d as int].path@,
                None => r.blocks@[i].district@.len() == 0,
            },
        forall|i: int, j: int|
            0 <= i < j < r.districts@.len() ==> (#[trigger] r.districts@[i]).0 < (
            #[trigger] r.districts@[j]).0,
        forall|i: int, b: u32|
            0 <= i < r.districts@.len() ==> ((#[trigger] r.districts@[i]).1@.contains(b) <==> b
                < raised.plans@.len() && (#[trigger] raised.plans@[b as int]).district == Some(
                r.districts@[i].0,
            )),
        forall|b: int|
            0 <= b < raised.plans@.len() ==> ((#[trigger] raised.plans@[b]).district matches Some(d)
                ==> exists|i: int|
                0 <= i < r.districts@.len() && (#[trigger] r.districts@[i]).0 == d),
        forall|p: Seq<char>| #[trigger]
            r.ground@.contains(p) <==> exists|i: int|
                0 <= i < raised.plans@.len() && ((#[trigger] raised.plans@[i]).district matches Some(
                    d,
                ) && territory.nodes@[d as int].path@ == p),
        forall|i: int|
            0 <= i < r.monuments@.len() ==> (#[trigger] r.monuments@[i]).rank == i
                && standing.files@.contains(r.monuments@[i].path@),
        forall|d: Seq<char>| #[trigger]
            r.host_of@.dom().contains(d) <==> exists|i: int|
                0 <= i < files@.len() && crate::territory::home_of((#[trigger] files@[i]).path@)
                    == d,
        forall|d: Seq<char>| #[trigger]
            r.host_of@.dom().contains(d) && r.ground@.contains(d) ==> r.host_of@[d]@ == d,
        r.report.files == files@.len(),
        r.report.buildings == standing.files@.len(),
        r.report.blocks == raised.plans@.len(),
        r.report.open_blocks == raised.plans@.filter(|p: BlockPlan| p.open).len(),
        r.report.lots == lots@.len(),
        r.report.empty_lots == lot_views(lots@).filter(|p: Parcel| p.occupant is None).len(),
        r.report.districts == r.ground@.len(),
        r.report.monuments == r.monuments@.len(),
        r.report.unbuilt == standing.unbuilt,
        r.report.plots == settled.plots@.len(),
        r.report.settled_nonadjacent == settled.relaxed.nonadjacent,
        r.report.settled_on_fringe == settled.relaxed.fringe,
        r.report.relaxed_to_ancestor == settled.relaxed.ancestor,
        r.report.relaxed_to_anywhere == settled.relaxed.anywhere,
        r.report.detached_placements == settled.relaxed.detached,
        r.report.plots_off_face == raised.off_face,
        r.report.age_ramp == ramp.kind,
        r.report.history_days == if ramp.span_ms / 86_400_000 > u32::MAX {
            u32::MAX as int
        } else {
            ramp.span_ms as int / 86_400_000
        },
        r.report.old_town_files == ramp.old_town,
        r.report.measured == measured,
        r.report.fragmented_districts == fragmented_count(
            edges_of(raised.plans@),
            districts_of(raised.plans@),
            raised.plans@.len(),
        ),
        r.report.fragmented_packages == fragmented_count(
            edges_of(raised.plans@),
            packages_of(raised.plans@, territory.nodes@),
            raised.plans@.len(),
        ),
        r.report.fragmented_subtrees == split_subtrees(
            edges_of(raised.plans@),
            parents(territory.nodes@),
            districts_of(raised.plans@),
            territory.nodes@.len(),
        ),
{
    let plans: &Vec<BlockPlan> = &raised.plans;
    proof {
        assert forall|i: int| 0 <= i < plans@.len() implies ((
        #[trigger] plans@[i]).district matches Some(d) ==> d < territory.nodes@.len()) by {
            assert(districts_of(plans@)[i] == plans@[i].district);
        }
    }
    let blocks: Vec<Block> = publish(plans, territory);
    let districts: Vec<(u32, Vec<u32>)> = district_blocks(plans);
    let ground: TextSet = ground_of(plans, territory);
    let streets: Vec<StreetLine> = build_streets(relations, seats, roads);
    let monuments: Vec<MonumentMark> = monument_marks(candidates, &standing.files);
    let host_of: TextMap<LogicalPath> = build_host_of(files, &ground);
    let fallback: Option<LogicalPath> = if blocks.len() > 0 {
        Some(blocks[0].district.copied())
    } else {
        None
    };
    let industrial: Vec<IndustrialMass> = industrial_masses(files, &host_of, &ground, &fallback);
    assert forall|d: Seq<char>|
        (#[trigger] massed_files(files@, d, files@.len())) > 0 <==> mass_districts(
            industrial@,
        ).contains(d) by {
        let all = mass_districts(industrial@);
        if massed_files(files@, d, files@.len()) > 0 {
            let i = choose|i: int|
                0 <= i < industrial@.len() && (#[trigger] industrial@[i]).district@ == d;
            assert(all[i] == d);
        }
        if all.contains(d) {
            let i = all.index_of(d);
            assert(industrial@[i].district@ == d);
        }
    }
    let rings: Vec<Vec<usize>> = copied_rings(plans);
    let owners: Vec<Option<u32>> = copied_owners(plans);
    let packages: Vec<Option<u32>> = block_packages(plans, territory);
    assert(halved_all(rings@) =~= edges_of(plans@));
    let buildings: usize = standing.files.len();
    let held: usize = ground.len();
    proof {
        ascending_len(standing.files.order());
        ascending_len(ground.order());
    }
    let report = CityReport {
        files: files.len(),
        buildings,
        blocks: plans.len(),
        open_blocks: count_open(plans),
        lots: lots.len(),
        empty_lots: count_vacant(&lots),
        unbuilt: standing.unbuilt,
        plots: settled.plots.len(),
        districts: held,
        fragmented_districts: fragmented(&rings, &owners),
        fragmented_subtrees: fragmented_subtrees(&rings, &owners, territory),
        fragmented_packages: fragmented(&rings, &packages),
        settled_nonadjacent: settled.relaxed.nonadjacent,
        settled_on_fringe: settled.relaxed.fringe,
        relaxed_to_ancestor: settled.relaxed.ancestor,
        relaxed_to_anywhere: settled.relaxed.anywhere,
        detached_placements: settled.relaxed.detached,
        plots_off_face: raised.off_face,
        monuments: monuments.len(),
        age_ramp: ramp.kind,
        history_days: ramp.span_days(),
        old_town_files: ramp.old_town,
        measured,
    };
    let city = City {
        blocks,
        lots,
        standing: standing.files,
        districts,
        ground,
        streets,
        monuments,
        host_of,
        industrial,
        report,
    };
    proof {
        open_upto(plans@, plans@.len());
        take_all(plans@);
        vacant_lots_are_counted(lot_views(city.lots@));
        assert forall|i: int, b: u32|
            0 <= i < city.districts@.len() implies ((#[trigger] city.districts@[i]).1@.contains(b)
            <==> b < plans@.len() && (#[trigger] plans@[b as int]).district == Some(
            city.districts@[i].0,
        )) by {
            crate::blocks::a_districts_blocks_are_those_it_owns(plans@, city.districts@[i].0);
        }
        assert forall|p: Seq<char>| #[trigger] city.ground@.contains(p) <==> exists|i: int|
            0 <= i < plans@.len() && ((#[trigger] plans@[i]).district matches Some(d)
                && territory.nodes@[d as int].path@ == p) by {
            if city.ground@.contains(p) {
                let i = choose|i: int| #[trigger] owns_as(plans@, territory.nodes@, i, p);
                assert(plans@[i].district matches Some(d) && territory.nodes@[d as int].path@ == p);
            }
            if exists|i: int|
                0 <= i < plans@.len() && ((#[trigger] plans@[i]).district matches Some(d)
                    && territory.nodes@[d as int].path@ == p) {
                let i = choose|i: int|
                    0 <= i < plans@.len() && ((#[trigger] plans@[i]).district matches Some(d)
                        && territory.nodes@[d as int].path@ == p);
                assert(owns_as(plans@, territory.nodes@, i, p));
            }
        }
        assert forall|d: Seq<char>| #[trigger]
            city.host_of@.dom().contains(d) && city.ground@.contains(d) implies city.host_of@[d]@
            == d by {
            crate::landmarks::the_nearest_ground_is_the_deepest(city.ground@, d, d);
        }
        let kept = |c: Candidate| standing.files@.contains(c.path@);
        let first = if candidates@.len() < 24 {
            candidates@
        } else {
            candidates@.take(24)
        };
        assert forall|i: int| 0 <= i < city.monuments@.len() implies (
        #[trigger] city.monuments@[i]).rank == i && standing.files@.contains(
            city.monuments@[i].path@,
        ) by {
            crate::folds::filter_has(first, kept);
            assert(first.filter(kept).contains(first.filter(kept)[i]));
        }
    }
    city
}

/// Are they the same districts with the same blocks?
pub open spec fn same_grounds(a: Seq<(u32, Vec<u32>)>, b: Seq<(u32, Vec<u32>)>) -> bool {
    &&& a.len() == b.len()
    &&& forall|i: int| 0 <= i < a.len() ==> (#[trigger] a[i]).0 == b[i].0 && a[i].1@ == b[i].1@
}

/// Are they the same masses?
pub open spec fn same_masses(a: Seq<IndustrialMass>, b: Seq<IndustrialMass>) -> bool {
    &&& a.len() == b.len()
    &&& forall|i: int|
        0 <= i < a.len() ==> {
            &&& (#[trigger] a[i]).district@ == b[i].district@
            &&& a[i].host@ == b[i].host@
            &&& a[i].files == b[i].files
            &&& a[i].bytes == b[i].bytes
        }
}

/// Are two cities the same, to the last part?
pub open spec fn same_city(a: City, b: City) -> bool {
    &&& a.blocks@.len() == b.blocks@.len()
    &&& forall|i: int|
        0 <= i < a.blocks@.len() ==> (#[trigger] a.blocks@[i]).id == b.blocks@[i].id
            && a.blocks@[i].district@ == b.blocks@[i].district@
    &&& lot_views(a.lots@) == lot_views(b.lots@)
    &&& a.standing@ == b.standing@
    &&& same_grounds(a.districts@, b.districts@)
    &&& a.ground@ == b.ground@
    &&& same_lines(a.streets@, b.streets@)
    &&& mark_views(a.monuments@) == mark_views(b.monuments@)
    &&& a.host_of@.dom() == b.host_of@.dom()
    &&& forall|d: Seq<char>| #[trigger]
        a.host_of@.dom().contains(d) ==> a.host_of@[d]@ == b.host_of@[d]@
    &&& same_masses(a.industrial@, b.industrial@)
    &&& a.report == b.report
}

proof fn blocks_have_the_district(plans: Seq<BlockPlan>, d: u32, n: nat)
    requires
        n <= plans.len(),
        blocks_of(plans, d, n).len() > 0,
    ensures
        exists|b: int| 0 <= b < n && (#[trigger] plans[b]).district == Some(d),
    decreases n,
{
    if n > 0 {
        if plans[n - 1].district != Some(d) {
            blocks_have_the_district(plans, d, (n - 1) as nat);
        }
    }
}

spec fn has_ground(a: Seq<(u32, Vec<u32>)>, d: u32) -> bool {
    exists|i: int| 0 <= i < a.len() && (#[trigger] a[i]).0 == d
}

/// What has ground in the one list has it in the other.
proof fn ground_is_shared(
    a: Seq<(u32, Vec<u32>)>,
    b: Seq<(u32, Vec<u32>)>,
    plans: Seq<BlockPlan>,
)
    requires
        are_grounds(a, plans),
        are_grounds(b, plans),
    ensures
        forall|i: int| 0 <= i < a.len() ==> #[trigger] has_ground(b, a[i].0),
{
    assert forall|i: int| 0 <= i < a.len() implies #[trigger] has_ground(b, a[i].0) by {
        assert(a[i].1@.len() > 0);
        blocks_have_the_district(plans, a[i].0, plans.len());
        let k = choose|k: int|
            0 <= k < plans.len() && (#[trigger] plans[k]).district == Some(a[i].0);
        assert(plans[k].district == Some(a[i].0));
    }
}

/// Ascending lists with the same districts have them in the same places, up to one.
proof fn same_grounds_upto(a: Seq<(u32, Vec<u32>)>, b: Seq<(u32, Vec<u32>)>, n: int)
    requires
        0 <= n <= a.len(),
        forall|i: int, j: int| 0 <= i < j < a.len() ==> (#[trigger] a[i]).0 < (#[trigger] a[j]).0,
        forall|i: int, j: int| 0 <= i < j < b.len() ==> (#[trigger] b[i]).0 < (#[trigger] b[j]).0,
        forall|i: int| 0 <= i < a.len() ==> #[trigger] has_ground(b, a[i].0),
        forall|i: int| 0 <= i < b.len() ==> #[trigger] has_ground(a, b[i].0),
    ensures
        n <= b.len(),
        forall|i: int| 0 <= i < n ==> (#[trigger] a[i]).0 == b[i].0,
    decreases n,
{
    if n > 0 {
        let k = n - 1;
        same_grounds_upto(a, b, k);
        assert(has_ground(b, a[k].0));
        let j = choose|j: int| 0 <= j < b.len() && (#[trigger] b[j]).0 == a[k].0;
        assert(j >= k) by {
            if j < k {
                assert(a[j].0 == b[j].0);
            }
        }
        if j > k {
            assert(has_ground(a, b[k].0));
            let i = choose|i: int| 0 <= i < a.len() && (#[trigger] a[i]).0 == b[k].0;
            assert(b[k].0 < b[j].0);
            if i < k {
                assert(a[i].0 == b[i].0);
            }
        }
    }
}

proof fn grounds_have_one_answer(
    a: Seq<(u32, Vec<u32>)>,
    b: Seq<(u32, Vec<u32>)>,
    plans: Seq<BlockPlan>,
)
    requires
        are_grounds(a, plans),
        are_grounds(b, plans),
    ensures
        same_grounds(a, b),
{
    ground_is_shared(a, b, plans);
    ground_is_shared(b, a, plans);
    same_grounds_upto(a, b, a.len() as int);
    same_grounds_upto(b, a, b.len() as int);
}

proof fn masses_have_one_answer(a: City, b: City, files: Seq<FileMeta>)
    requires
        are_masses(a.industrial@, a.blocks@, a.host_of@, files, a.ground@),
        are_masses(b.industrial@, b.blocks@, b.host_of@, files, b.ground@),
        are_hosts(a.host_of, files, a.ground@),
        are_hosts(b.host_of, files, b.ground@),
        a.ground@ == b.ground@,
        first_district(a.blocks@) == first_district(b.blocks@),
    ensures
        same_masses(a.industrial@, b.industrial@),
{
    let (x, y) = (mass_districts(a.industrial@), mass_districts(b.industrial@));
    assert(x.to_set() =~= y.to_set()) by {
        assert forall|d: Seq<char>| #[trigger] x.contains(d) <==> y.contains(d) by {
            assert(massed_files(files, d, files.len()) > 0 <==> x.contains(d));
        }
    }
    in_order_is(x, x.to_set());
    in_order_is(y, x.to_set());
    assert(x == y);
    assert forall|i: int| 0 <= i < a.industrial@.len() implies {
        &&& (#[trigger] a.industrial@[i]).district@ == b.industrial@[i].district@
        &&& a.industrial@[i].host@ == b.industrial@[i].host@
        &&& a.industrial@[i].files == b.industrial@[i].files
        &&& a.industrial@[i].bytes == b.industrial@[i].bytes
    } by {
        assert(x[i] == y[i]);
        let d = x[i];
        assert(a.host_of@.dom().contains(d) <==> homes(files, d, files.len()));
        assert(b.host_of@.dom().contains(d) <==> homes(files, d, files.len()));
        assert(b.industrial@[i].district@ == d);
    }
}

/// There is one city to what stands and what else it is made from.
pub proof fn a_city_has_one_answer(
    a: City,
    b: City,
    raised: Raised,
    lots: Seq<Parcel>,
    standing: Standing,
    other: Standing,
    nodes: Seq<Node>,
    files: Seq<FileMeta>,
    candidates: Seq<Candidate>,
    relations: Seq<Street>,
    seats: Map<Seq<char>, u32>,
    roads: Roads,
    settled: Settlement,
    ramp: AgeRamp,
    measured: Measured,
)
    requires
        roads.wf(),
        forall|k: Seq<char>| #[trigger] seats.contains_key(k) ==> seats[k] < roads.at@.len(),
        standing.files@ == other.files@,
        standing.unbuilt == other.unbuilt,
        is_city(
            a,
            raised,
            lots,
            standing,
            nodes,
            files,
            candidates,
            relations,
            seats,
            roads,
            settled,
            ramp,
            measured,
        ),
        is_city(
            b,
            raised,
            lots,
            other,
            nodes,
            files,
            candidates,
            relations,
            seats,
            roads,
            settled,
            ramp,
            measured,
        ),
    ensures
        same_city(a, b),
{
    grounds_have_one_answer(a.districts@, b.districts@, raised.plans@);
    streets_have_one_answer(roads, seats, relations, relations, a.streets@, b.streets@);
    masses_have_one_answer(a, b, files);
    assert(lot_views(a.lots@).len() == a.lots@.len());
    assert(lot_views(b.lots@).len() == b.lots@.len());
    assert(mark_views(a.monuments@).len() == a.monuments@.len());
    assert(mark_views(b.monuments@).len() == b.monuments@.len());
    assert(a.host_of@.dom() =~= b.host_of@.dom()) by {
        assert forall|d: Seq<char>| #[trigger]
            a.host_of@.dom().contains(d) <==> b.host_of@.dom().contains(d) by {
            assert(a.host_of@.dom().contains(d) <==> homes(files, d, files.len()));
            assert(b.host_of@.dom().contains(d) <==> homes(files, d, files.len()));
        }
    }
    assert(a.report == b.report);
}

/// Whatever was remembered of the buildings, the city is the same, to the last part, as
/// one where nothing was: what is remembered can only save work.
pub proof fn memory_moves_no_city(
    asks: Seq<Option<SeatAsk>>,
    fits: Seq<bool>,
    known: Seq<Option<bool>>,
    fresh: Seq<bool>,
    known2: Seq<Option<bool>>,
    fresh2: Seq<bool>,
    a: City,
    b: City,
    raised: Raised,
    lots: Seq<Parcel>,
    standing: Standing,
    other: Standing,
    nodes: Seq<Node>,
    files: Seq<FileMeta>,
    candidates: Seq<Candidate>,
    relations: Seq<Street>,
    seats: Map<Seq<char>, u32>,
    roads: Roads,
    settled: Settlement,
    ramp: AgeRamp,
    measured: Measured,
)
    requires
        answers_are(asks, known, fresh, fits),
        answers_are(asks, known2, fresh2, fits),
        is_standing(standing, asks, known, fresh),
        is_standing(other, asks, known2, fresh2),
        roads.wf(),
        forall|k: Seq<char>| #[trigger] seats.contains_key(k) ==> seats[k] < roads.at@.len(),
        is_city(
            a,
            raised,
            lots,
            standing,
            nodes,
            files,
            candidates,
            relations,
            seats,
            roads,
            settled,
            ramp,
            measured,
        ),
        is_city(
            b,
            raised,
            lots,
            other,
            nodes,
            files,
            candidates,
            relations,
            seats,
            roads,
            settled,
            ramp,
            measured,
        ),
    ensures
        standing.built@ == other.built@,
        standing.files@ == other.files@,
        standing.unbuilt == other.unbuilt,
        same_city(a, b),
{
    memory_moves_nothing(asks, known, fresh, fits);
    memory_moves_nothing(asks, known2, fresh2, fits);
    assert(standing.built@ =~= other.built@) by {
        assert forall|i: int| 0 <= i < asks.len() implies standing.built@[i] == other.built@[i] by {
            assert(standing.built@[i] == stands(asks, known, fresh, i));
            assert(other.built@[i] == stands(asks, known2, fresh2, i));
        }
    }
    a_city_has_one_answer(
        a,
        b,
        raised,
        lots,
        standing,
        other,
        nodes,
        files,
        candidates,
        relations,
        seats,
        roads,
        settled,
        ramp,
        measured,
    );
}

impl City {
    /// Has a file a building?
    pub fn building(&self, path: &LogicalPath) -> (r: bool)
        requires
            self.standing.wf(),
        ensures
            r == self.standing@.contains(path@),
    {
        self.standing.contains(path.as_str())
    }

    /// Is a file one of the monuments?
    pub fn is_monument(&self, path: &LogicalPath) -> (r: bool)
        ensures
            r <==> exists|i: int|
                0 <= i < self.monuments@.len() && (#[trigger] self.monuments@[i]).path@ == path@,
    {
        let mut i: usize = 0;
        while i < self.monuments.len()
            invariant
                i <= self.monuments@.len(),
                forall|k: int| 0 <= k < i ==> (#[trigger] self.monuments@[k]).path@ != path@,
            decreases self.monuments.len() - i,
        {
            if self.monuments[i].path.same(path) {
                return true;
            }
            i = i + 1;
        }
        false
    }

    /// One growth step on the lots that there are, and the report brought up to date.
    pub fn grow(
        &mut self,
        delta: &RepoDelta,
        rebuilt: &Vec<Fit>,
        hosts: &Vec<Option<u32>>,
        built: &Vec<Fit>,
    ) -> (r: GrowthOutcome)
        requires
            old(self).standing.wf(),
            rebuilt@.len() == changed_paths(
                logical_views(delta.resized@),
                logical_views(delta.retouched@),
            ).len(),
            hosts@.len() == delta.added@.len(),
            built@.len() == delta.added@.len(),
        ensures
            final(self).standing.wf(),
            growing(lot_views(final(self).lots@), final(self).standing@, r) == after_step(
                old(self).blocks@,
                lot_views(old(self).lots@),
                old(self).standing@,
                canonical(logical_views(delta.removed@)),
                changed_paths(logical_views(delta.resized@), logical_views(delta.retouched@)),
                logical_views(delta.added@),
                rebuilt@,
                hosts@,
                built@,
            ),
            *final(self) == (City {
                lots: final(self).lots,
                standing: final(self).standing,
                report: final(self).report,
                ..*old(self)
            }),
            final(self).report == (CityReport {
                buildings: final(self).standing@.len() as usize,
                empty_lots: vacant_among(
                    lot_views(final(self).lots@),
                    final(self).lots@.len(),
                ) as usize,
                ..old(self).report
            }),
    {
        let outcome: GrowthOutcome = step(
            &self.blocks,
            &mut self.lots,
            &mut self.standing,
            delta,
            rebuilt,
            hosts,
            built,
        );
        let buildings: usize = self.standing.len();
        proof {
            ascending_len(self.standing.order());
        }
        self.report.buildings = buildings;
        self.report.empty_lots = count_vacant(&self.lots);
        outcome
    }
}

proof fn files_built_are(asks: Seq<Option<SeatAsk>>, built: Seq<bool>, n: nat)
    requires
        n <= asks.len(),
    ensures
        forall|p: Seq<char>| #[trigger]
            files_built(asks, built, n).contains(p) <==> exists|i: int|
                0 <= i < n && built[i] && ((#[trigger] asks[i]) matches Some(a) && a.path@ == p),
    decreases n,
{
    if n > 0 {
        files_built_are(asks, built, (n - 1) as nat);
        assert forall|p: Seq<char>| #[trigger]
            files_built(asks, built, n).contains(p) <==> exists|i: int|
                0 <= i < n && built[i] && ((#[trigger] asks[i]) matches Some(a) && a.path@ == p) by {
            if files_built(asks, built, (n - 1) as nat).contains(p) {
                let i = choose|i: int|
                    0 <= i < n - 1 && built[i] && ((#[trigger] asks[i]) matches Some(a) && a.path@
                        == p);
                assert(built[i] && (asks[i] matches Some(a) && a.path@ == p));
            }
            if built[n - 1] && (asks[n - 1] matches Some(a) && a.path@ == p) {
                assert(0 <= n - 1 < n);
            }
        }
    }
}

proof fn open_upto(plans: Seq<BlockPlan>, n: nat)
    requires
        n <= plans.len(),
    ensures
        open_among(plans, n) == plans.take(n as int).filter(|p: BlockPlan| p.open).len(),
    decreases n,
{
    let pred = |p: BlockPlan| p.open;
    if n == 0 {
        filter_none(plans, pred);
    } else {
        open_upto(plans, (n - 1) as nat);
        filter_step(plans, pred, n);
    }
}

/// A city has one mass for each directory with massed files, in path order, with their
/// number and size; where the directory's files are drawn on some ground, it stands there.
pub proof fn every_massed_directory_has_its_mass(
    masses: Seq<IndustrialMass>,
    blocks: Seq<Block>,
    host_of: Map<Seq<char>, LogicalPath>,
    files: Seq<FileMeta>,
    ground: Set<Seq<char>>,
)
    requires
        are_masses(masses, blocks, host_of, files, ground),
    ensures
        forall|i: int, j: int|
            0 <= i < j < masses.len() ==> text_lt(
                (#[trigger] masses[i]).district@,
                (#[trigger] masses[j]).district@,
            ),
        forall|i: int|
            0 <= i < masses.len() ==> {
                let m = #[trigger] masses[i];
                &&& massed_files(files, m.district@, files.len()) > 0
                &&& m.files == mass_totals(files, m.district@).0
                &&& m.bytes == mass_totals(files, m.district@).1
                &&& host_of.contains_key(m.district@) ==> m.host@ == host_of[m.district@]@
            },
        forall|d: Seq<char>|
            (#[trigger] massed_files(files, d, files.len())) > 0 ==> exists|i: int|
                0 <= i < masses.len() && (#[trigger] masses[i]).district@ == d,
{
    let names = mass_districts(masses);
    assert forall|i: int, j: int| 0 <= i < j < masses.len() implies text_lt(
        (#[trigger] masses[i]).district@,
        (#[trigger] masses[j]).district@,
    ) by {
        assert(text_lt(names[i], names[j]));
    }
    assert forall|i: int| 0 <= i < masses.len() implies {
        let m = #[trigger] masses[i];
        &&& massed_files(files, m.district@, files.len()) > 0
        &&& m.files == mass_totals(files, m.district@).0
        &&& m.bytes == mass_totals(files, m.district@).1
        &&& host_of.contains_key(m.district@) ==> m.host@ == host_of[m.district@]@
    } by {
        assert(names[i] == masses[i].district@);
        assert(names.contains(masses[i].district@));
        assert((masses[i].files, masses[i].bytes) == mass_totals(files, masses[i].district@));
    }
    assert forall|d: Seq<char>|
        (#[trigger] massed_files(files, d, files.len())) > 0 implies exists|i: int|
        0 <= i < masses.len() && (#[trigger] masses[i]).district@ == d by {
        assert(names.contains(d));
        let i = names.index_of(d);
        assert(masses[i].district@ == d);
    }
}

/// A city's streets are those of its roads and relations, its monuments those of the
/// candidates with a building, and its lots and buildings those that were raised.
pub proof fn a_city_is_what_was_raised(
    city: City,
    raised: Raised,
    lots: Seq<Parcel>,
    standing: Standing,
    nodes: Seq<Node>,
    files: Seq<FileMeta>,
    candidates: Seq<Candidate>,
    relations: Seq<Street>,
    seats: Map<Seq<char>, u32>,
    roads: Roads,
    settled: Settlement,
    ramp: AgeRamp,
    measured: Measured,
)
    requires
        is_city(
            city,
            raised,
            lots,
            standing,
            nodes,
            files,
            candidates,
            relations,
            seats,
            roads,
            settled,
            ramp,
            measured,
        ),
    ensures
        lot_views(city.lots@) == lots,
        city.standing@ == standing.files@,
        are_streets(city.streets@, roads, relations, seats),
        mark_views(city.monuments@) == marks_of(
            candidates,
            city.standing@,
            looked_at(candidates.len()),
        ),
        are_masses(city.industrial@, city.blocks@, city.host_of@, files, city.ground@),
        forall|d: Seq<char>| #[trigger]
            city.host_of@.contains_key(d) ==> city.host_of@[d]@ == host(city.ground@, d),
{
}

/// Blocks are grouped by the package that their district is in, and share the edges that
/// their half-edges are halves of.
pub proof fn blocks_are_grouped_by_package(plans: Seq<BlockPlan>, nodes: Seq<Node>, i: int)
    requires
        0 <= i < plans.len(),
    ensures
        packages_of(plans, nodes).len() == plans.len(),
        edges_of(plans).len() == plans.len(),
        plans[i].district is None ==> packages_of(plans, nodes)[i] is None,
        plans[i].district is Some ==> packages_of(plans, nodes)[i] == Some(
            package_at(nodes, plans[i].district->0 as int) as u32,
        ),
        edges_of(plans)[i].len() == plans[i].half_edges@.len(),
        forall|k: int|
            0 <= k < plans[i].half_edges@.len() ==> {
                let (h, e) = (plans[i].half_edges@[k], #[trigger] edges_of(plans)[i][k]);
                h == 2 * e || h == 2 * e + 1
            },
{
}

/// A lot asks for a building exactly where a file of the repository is on it, and asks for
/// it by that file: its path and its own size, its uncommitted lines or none, and its
/// class unless it is a monument.
pub proof fn a_building_is_asked_for_by_its_file(
    parcels: Seq<Survey>,
    files: Seq<FileRec>,
    tree: Map<Seq<char>, FileClass>,
    diff: Map<Seq<char>, u32>,
    median: u64,
    i: int,
)
    requires
        0 <= i < parcels.len(),
    ensures
        ({
            let ask = ask_of(parcels, files, tree, diff, median, i);
            match parcels[i].occupant {
                None => ask is None,
                Some(f) => {
                    let file = files[f as int];
                    &&& ask is Some <==> tree.contains_key(file.path@)
                    &&& ask matches Some(a) ==> {
                        &&& a.path == file.path@
                        &&& a.lot == i
                        &&& a.size_bytes == file.size_bytes
                        &&& a.median_bytes == median
                        &&& diff.contains_key(file.path@) ==> a.diff_lines == diff[file.path@]
                        &&& !diff.contains_key(file.path@) ==> a.diff_lines == 0
                        &&& file.monument ==> a.class == FileClass::Monument
                        &&& !file.monument ==> a.class == tree[file.path@]
                    }
                },
            }
        }),
{
}

/// Measured against another median a lot asks for the same building, of the same size; and
/// two files of different sizes are asked for at different sizes, whatever the median.
pub proof fn the_median_moves_no_size(
    parcels: Seq<Survey>,
    files: Seq<FileRec>,
    tree: Map<Seq<char>, FileClass>,
    diff: Map<Seq<char>, u32>,
    median: u64,
    other: u64,
    i: int,
    j: int,
)
    requires
        0 <= i < parcels.len(),
        0 <= j < parcels.len(),
        parcels[i].occupant is Some,
        parcels[j].occupant is Some,
    ensures
        match (
            ask_of(parcels, files, tree, diff, median, i),
            ask_of(parcels, files, tree, diff, other, i),
        ) {
            (Some(a), Some(b)) => a.size_bytes == b.size_bytes && a.path == b.path && a.diff_lines
                == b.diff_lines && a.class == b.class && a.median_bytes == median && b.median_bytes
                == other,
            (None, None) => true,
            _ => false,
        },
        match (
            ask_of(parcels, files, tree, diff, median, i),
            ask_of(parcels, files, tree, diff, other, j),
        ) {
            (Some(a), Some(b)) => a.size_bytes < b.size_bytes
                <==> files[parcels[i].occupant->0 as int].size_bytes
                < files[parcels[j].occupant->0 as int].size_bytes,
            _ => true,
        },
{
}

/// A lot has its number, its parcel's block, and the file of its parcel on it.
pub proof fn a_lot_is_its_parcel(parcels: Seq<Survey>, files: Seq<FileRec>, i: int)
    requires
        0 <= i < parcels.len() <= u32::MAX,
    ensures
        lot_of(parcels, files, i).id == i,
        lot_of(parcels, files, i).block == parcels[i].block,
        parcels[i].occupant is None ==> lot_of(parcels, files, i).occupant is None,
        parcels[i].occupant is Some ==> lot_of(parcels, files, i).occupant == Some(
            files[parcels[i].occupant->0 as int].path@,
        ),
{
}

} // verus!
