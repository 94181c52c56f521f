//! Lots and who is on them, what a growth step came to, the borders between districts,
//! the parcels whose buildings are still to be found, and the names that a snapshot uses.
use vstd::prelude::*;

use vstd::string::StrSliceExecFns;

use crate::blocks::Block;
use crate::folds::{filter_none, filter_step, take_all};
use crate::landmarks::{path_view, EntryPointKind};
use crate::logical::{
    logical_views, parent_is_shorter, parent_path, what_holds_a_path_holds_its_parent, LogicalPath,
};
use crate::ordered::TextMap;
use crate::rng::RoofForm;
use crate::ways::RoadClass;
use crate::text::{number_text, numeral, push_text};

verus! {

/// What the layout wants that the repository tree does not carry.
#[derive(Debug)]
pub struct LayoutInputs {
    /// Uncommitted lines of each file.
    pub diff_lines: TextMap<u32>,
}

impl LayoutInputs {
    /// Uncommitted lines of a file; none where it is not known.
    pub fn diff_lines_of(&self, path: &LogicalPath) -> (r: u32)
        requires
            self.diff_lines.wf(),
        ensures
            r == if self.diff_lines@.dom().contains(path@) {
                self.diff_lines@[path@]
            } else {
                0
            },
    {
        match self.diff_lines.get(path.as_str()) {
            Some(n) => *n,
            None => 0,
        }
    }
}

/// A lot, and the file on it.
#[derive(Debug)]
pub struct Lot {
    /// Its number.
    pub id: u32,
    /// The block it lies in.
    pub block: u32,
    /// The file on it, if any.
    pub occupant: Option<LogicalPath>,
}

/// A lot, as mathematics.
pub ghost struct Parcel {
    pub id: u32,
    pub block: u32,
    pub occupant: Option<Seq<char>>,
}

impl Lot {
    /// The lot.
    pub open spec fn view(self) -> Parcel {
        Parcel { id: self.id, block: self.block, occupant: path_view(self.occupant) }
    }

    /// Is no file on it?
    pub fn is_vacant(&self) -> (r: bool)
        ensures
            r == (self@.occupant is None),
    {
        self.occupant.is_none()
    }
}

/// Lots, as mathematics.
pub open spec fn lot_views(v: Seq<Lot>) -> Seq<Parcel> {
    Seq::new(v.len(), |i: int| v[i]@)
}

/// Where the first lot with a file on it stands.
pub open spec fn lot_with(lots: Seq<Parcel>, path: Seq<char>) -> Option<int>
    decreases lots.len(),
{
    if lots.len() == 0 {
        None
    } else {
        match lot_with(lots.drop_last(), path) {
            Some(i) => Some(i),
            None => if lots.last().occupant == Some(path) {
                Some(lots.len() - 1)
            } else {
                None
            },
        }
    }
}

proof fn lot_with_prefix(lots: Seq<Parcel>, path: Seq<char>, n: int)
    requires
        0 <= n <= lots.len(),
        lot_with(lots.subrange(0, n), path) is Some,
    ensures
        lot_with(lots, path) == lot_with(lots.subrange(0, n), path),
    decreases lots.len() - n,
{
    if n == lots.len() {
        assert(lots.subrange(0, n) =~= lots);
    } else {
        assert(lots.subrange(0, n + 1).drop_last() =~= lots.subrange(0, n));
        lot_with_prefix(lots, path, n + 1);
    }
}

/// A lot that is found by the file on it is one of the lots.
pub proof fn lot_with_bounds(lots: Seq<Parcel>, path: Seq<char>)
    ensures
        match lot_with(lots, path) {
            Some(i) => 0 <= i < lots.len() && lots[i].occupant == Some(path),
            None => true,
        },
    decreases lots.len(),
{
    if lots.len() > 0 {
        lot_with_bounds(lots.drop_last(), path);
    }
}

/// Where a file is on a lot, one is found for it.
pub proof fn lot_with_finds(lots: Seq<Parcel>, path: Seq<char>, i: int)
    requires
        0 <= i < lots.len(),
        lots[i].occupant == Some(path),
    ensures
        lot_with(lots, path) is Some,
    decreases lots.len(),
{
    if i < lots.len() - 1 {
        lot_with_finds(lots.drop_last(), path, i);
    }
}

/// The first lot with a file on it.
pub fn find_lot(lots: &Vec<Lot>, path: &LogicalPath) -> (r: Option<usize>)
    ensures
        match r {
            Some(i) => lot_with(lot_views(lots@), path@) == Some(i as int) && i < lots@.len()
                && lots@[i as int]@.occupant == Some(path@),
            None => lot_with(lot_views(lots@), path@) is None,
        },
{
    let ghost all = lot_views(lots@);
    let mut i: usize = 0;
    assert(all.subrange(0, 0) =~= seq![]);
    while i < lots.len()
        invariant
            i <= lots@.len(),
            all == lot_views(lots@),
            lot_with(all.subrange(0, i as int), path@) is None,
        decreases lots.len() - i,
    {
        let ghost here = all.subrange(0, i + 1);
        assert(here.drop_last() =~= all.subrange(0, i as int));
        assert(here.last() == lots@[i as int]@);
        if let Some(p) = &lots[i].occupant {
            if p.same(path) {
                proof {
                    lot_with_prefix(all, path@, i + 1);
                }
                return Some(i);
            }
        }
        i = i + 1;
    }
    assert(all.subrange(0, i as int) =~= all);
    None
}

/// Empties the lot that a file is on, and says which one it was. The lot stays.
pub fn vacate(lots: &mut Vec<Lot>, path: &LogicalPath) -> (r: Option<u32>)
    ensures
        match lot_with(lot_views(old(lots)@), path@) {
            Some(i) => r == Some(old(lots)@[i].id) && lot_views(final(lots)@) == lot_views(
                old(lots)@,
            ).update(i, Parcel { occupant: None, ..lot_views(old(lots)@)[i] }),
            None => r is None && final(lots)@ == old(lots)@,
        },
        final(lots)@.len() == old(lots)@.len(),
{
    let ghost before = lot_views(lots@);
    match find_lot(lots, path) {
        Some(i) => {
            let id: u32 = lots[i].id;
            lots[i].occupant = None;
            assert(lot_views(lots@) =~= before.update(
                i as int,
                Parcel { occupant: None, ..before[i as int] },
            ));
            Some(id)
        },
        None => None,
    }
}

/// Where the first lot with a number stands.
pub open spec fn lot_numbered(lots: Seq<Parcel>, id: u32) -> Option<int>
    decreases lots.len(),
{
    if lots.len() == 0 {
        None
    } else {
        match lot_numbered(lots.drop_last(), id) {
            Some(i) => Some(i),
            None => if lots.last().id == id {
                Some(lots.len() - 1)
            } else {
                None
            },
        }
    }
}

proof fn lot_numbered_prefix(lots: Seq<Parcel>, id: u32, n: int)
    requires
        0 <= n <= lots.len(),
        lot_numbered(lots.subrange(0, n), id) is Some,
    ensures
        lot_numbered(lots, id) == lot_numbered(lots.subrange(0, n), id),
    decreases lots.len() - n,
{
    if n == lots.len() {
        assert(lots.subrange(0, n) =~= lots);
    } else {
        assert(lots.subrange(0, n + 1).drop_last() =~= lots.subrange(0, n));
        lot_numbered_prefix(lots, id, n + 1);
    }
}

/// A lot that is found by its number is one of the lots.
pub proof fn lot_numbered_bounds(lots: Seq<Parcel>, id: u32)
    ensures
        match lot_numbered(lots, id) {
            Some(i) => 0 <= i < lots.len() && lots[i].id == id,
            None => true,
        },
    decreases lots.len(),
{
    if lots.len() > 0 {
        lot_numbered_bounds(lots.drop_last(), id);
    }
}

/// Puts a file on the lot with a number, where that is vacant; says whether it was.
pub fn occupy(lots: &mut Vec<Lot>, id: u32, path: &LogicalPath) -> (r: bool)
    ensures
        match lot_numbered(lot_views(old(lots)@), id) {
            Some(i) => {
                &&& r == (lot_views(old(lots)@)[i].occupant is None)
                &&& lot_views(final(lots)@) == if r {
                    lot_views(old(lots)@).update(
                        i,
                        Parcel { occupant: Some(path@), ..lot_views(old(lots)@)[i] },
                    )
                } else {
                    lot_views(old(lots)@)
                }
            },
            None => !r && lot_views(final(lots)@) == lot_views(old(lots)@),
        },
        final(lots)@.len() == old(lots)@.len(),
{
    let ghost all = lot_views(lots@);
    let mut i: usize = 0;
    assert(all.subrange(0, 0) =~= seq![]);
    while i < lots.len()
        invariant
            i <= lots@.len(),
            all == lot_views(lots@),
            all == lot_views(old(lots)@),
            old(lots)@.len() == lots@.len(),
            lot_numbered(all.subrange(0, i as int), id) is None,
        decreases lots.len() - i,
    {
        let ghost here = all.subrange(0, i + 1);
        assert(here.drop_last() =~= all.subrange(0, i as int));
        assert(here.last() == lots@[i as int]@);
        if lots[i].id == id {
            proof {
                lot_numbered_prefix(all, id, i + 1);
            }
            if !lots[i].is_vacant() {
                return false;
            }
            lots[i].occupant = Some(path.copied());
            assert(lot_views(lots@) =~= all.update(
                i as int,
                Parcel { occupant: Some(path@), ..all[i as int] },
            ));
            return true;
        }
        i = i + 1;
    }
    assert(all.subrange(0, i as int) =~= all);
    false
}

/// How many of the first `n` lots are vacant.
pub open spec fn vacant_among(lots: Seq<Parcel>, n: nat) -> nat
    decreases n,
{
    if n == 0 || n > lots.len() {
        0
    } else {
        vacant_among(lots, (n - 1) as nat) + if lots[n - 1].occupant is None {
            1nat
        } else {
            0nat
        }
    }
}

/// How many lots are vacant.
pub fn count_vacant(lots: &Vec<Lot>) -> (r: usize)
    ensures
        r == vacant_among(lot_views(lots@), lots@.len()),
{
    let mut count: usize = 0;
    let mut i: usize = 0;
    while i < lots.len()
        invariant
            i <= lots@.len(),
            count == vacant_among(lot_views(lots@), i as nat),
            count <= i,
        decreases lots.len() - i,
    {
        if lots[i].is_vacant() {
            count = count + 1;
        }
        i = i + 1;
    }
    count
}

/// The district of the last of the first `n` blocks with a number.
pub open spec fn block_district(blocks: Seq<Block>, id: u32, n: nat) -> Option<Seq<char>>
    decreases n,
{
    if n == 0 || n > blocks.len() {
        None
    } else if blocks[n - 1].id == id {
        Some(blocks[n - 1].district@)
    } else {
        block_district(blocks, id, (n - 1) as nat)
    }
}

/// The numbers of the first `n` lots that lie in blocks of a district.
pub open spec fn lots_in(
    blocks: Seq<Block>,
    lots: Seq<Parcel>,
    d: Seq<char>,
    n: nat,
) -> Seq<u32>
    decreases n,
{
    if n == 0 || n > lots.len() {
        seq![]
    } else {
        let before = lots_in(blocks, lots, d, (n - 1) as nat);
        if block_district(blocks, lots[n - 1].block, blocks.len()) == Some(d) {
            before.push(lots[n - 1].id)
        } else {
            before
        }
    }
}

fn find_district<'a>(blocks: &'a Vec<Block>, id: u32) -> (r: Option<&'a LogicalPath>)
    ensures
        match r {
            Some(p) => block_district(blocks@, id, blocks@.len()) == Some(p@),
            None => block_district(blocks@, id, blocks@.len()) is None,
        },
{
    let mut i: usize = blocks.len();
    while i > 0
        invariant
            i <= blocks@.len(),
            block_district(blocks@, id, blocks@.len()) == block_district(blocks@, id, i as nat),
        decreases i,
    {
        i = i - 1;
        if blocks[i].id == id {
            return Some(&blocks[i].district);
        }
    }
    None
}

/// The lots of each district, in the order of the lots.
pub fn lots_by_district(blocks: &Vec<Block>, lots: &Vec<Lot>) -> (r: TextMap<Vec<u32>>)
    ensures
        r.wf(),
        forall|d: Seq<char>| #[trigger]
            r@.dom().contains(d) <==> lots_in(
                blocks@,
                lot_views(lots@),
                d,
                lots@.len(),
            ).len() > 0,
        forall|d: Seq<char>| #[trigger]
            r@.dom().contains(d) ==> r@[d]@ == lots_in(
                blocks@,
                lot_views(lots@),
                d,
                lots@.len(),
            ),
{
    let ghost views = lot_views(lots@);
    let mut out: TextMap<Vec<u32>> = TextMap::new();
    let mut i: usize = 0;
    while i < lots.len()
        invariant
            i <= lots@.len(),
            views == lot_views(lots@),
            out.wf(),
            forall|d: Seq<char>| #[trigger]
                out@.dom().contains(d) <==> lots_in(blocks@, views, d, i as nat).len() > 0,
            forall|d: Seq<char>| #[trigger]
                out@.dom().contains(d) ==> out@[d]@ == lots_in(blocks@, views, d, i as nat),
        decreases lots.len() - i,
    {
        let ghost had = out@;
        if let Some(path) = find_district(blocks, lots[i].block) {
            let mut list: Vec<u32> = Vec::new();
            if let Some(v) = out.get(path.as_str()) {
                let mut k: usize = 0;
                while k < v.len()
                    invariant
                        k <= v@.len(),
                        list@ == v@.subrange(0, k as int),
                    decreases v.len() - k,
                {
                    list.push(v[k]);
                    k = k + 1;
                    assert(list@ =~= v@.subrange(0, k as int));
                }
                assert(list@ =~= v@);
            } else {
                assert(lots_in(blocks@, views, path@, i as nat) =~= seq![]);
            }
            assert(list@ =~= lots_in(blocks@, views, path@, i as nat));
            list.push(lots[i].id);
            let ghost grown = list@;
            out.insert(path.text.clone(), list);
            proof {
                assert forall|d: Seq<char>| #[trigger] out@.dom().contains(d) implies out@[d]@
                    == lots_in(blocks@, views, d, (i + 1) as nat) by {
                    if d != path@ {
                        assert(had.dom().contains(d));
                    } else {
                        assert(out@[d]@ == grown);
                    }
                }
                assert forall|d: Seq<char>| #[trigger] out@.dom().contains(d) <==> lots_in(
                    blocks@,
                    views,
                    d,
                    (i + 1) as nat,
                ).len() > 0 by {
                    assert(had.dom().contains(d) <==> lots_in(
                        blocks@,
                        views,
                        d,
                        i as nat,
                    ).len() > 0);
                }
            }
        }
        i = i + 1;
    }
    out
}

/// The lots of the nearest district at or above one that has any.
pub open spec fn candidates(by_district: Map<Seq<char>, Vec<u32>>, d: Seq<char>) -> Seq<u32>
    decreases d.len(),
    via candidates_end
{
    if by_district.dom().contains(d) {
        by_district[d]@
    } else {
        match parent_path(d) {
            Some(p) => candidates(by_district, p),
            None => seq![],
        }
    }
}

#[via_fn]
proof fn candidates_end(by_district: Map<Seq<char>, Vec<u32>>, d: Seq<char>) {
    parent_is_shorter(d);
}

/// The lots that a file of a district may go to: its own, else those of the nearest
/// above.
pub fn host_candidates(district: &LogicalPath, by_district: &TextMap<Vec<u32>>) -> (r: Vec<u32>)
    requires
        by_district.wf(),
    ensures
        r@ == candidates(by_district@, district@),
{
    let mut here: LogicalPath = district.copied();
    loop
        invariant
            by_district.wf(),
            candidates(by_district@, district@) == candidates(by_district@, here@),
        decreases here@.len(),
    {
        if let Some(v) = by_district.get(here.as_str()) {
            let mut out: Vec<u32> = Vec::new();
            let mut k: usize = 0;
            while k < v.len()
                invariant
                    k <= v@.len(),
                    out@ == v@.subrange(0, k as int),
                decreases v.len() - k,
            {
                out.push(v[k]);
                k = k + 1;
                assert(out@ =~= v@.subrange(0, k as int));
            }
            assert(out@ =~= v@);
            return out;
        }
        proof {
            parent_is_shorter(here@);
        }
        match here.parent() {
            Some(p) => {
                here = p;
            },
            None => {
                let none: Vec<u32> = Vec::new();
                assert(none@ =~= seq![]);
                return none;
            },
        }
    }
}

/// The lots of the nearest district at or above one that has any, among some lots.
pub open spec fn candidate_lots(
    blocks: Seq<Block>,
    lots: Seq<Parcel>,
    d: Seq<char>,
) -> Seq<u32>
    decreases d.len(),
    via candidate_lots_end
{
    if lots_in(blocks, lots, d, lots.len()).len() > 0 {
        lots_in(blocks, lots, d, lots.len())
    } else {
        match parent_path(d) {
            Some(p) => candidate_lots(blocks, lots, p),
            None => seq![],
        }
    }
}

#[via_fn]
proof fn candidate_lots_end(blocks: Seq<Block>, lots: Seq<Parcel>, d: Seq<char>) {
    parent_is_shorter(d);
}

/// The candidates in a list of every district's lots are those among the lots.
pub proof fn candidates_are_listed(
    blocks: Seq<Block>,
    lots: Seq<Parcel>,
    by_district: Map<Seq<char>, Vec<u32>>,
    d: Seq<char>,
)
    requires
        forall|e: Seq<char>| #[trigger]
            by_district.dom().contains(e) <==> lots_in(blocks, lots, e, lots.len()).len() > 0,
        forall|e: Seq<char>| #[trigger]
            by_district.dom().contains(e) ==> by_district[e]@ == lots_in(
                blocks,
                lots,
                e,
                lots.len(),
            ),
    ensures
        candidates(by_district, d) == candidate_lots(blocks, lots, d),
    decreases d.len(),
{
    parent_is_shorter(d);
    if !by_district.dom().contains(d) {
        if let Some(p) = parent_path(d) {
            candidates_are_listed(blocks, lots, by_district, p);
        }
    }
}

proof fn lot_is_listed(blocks: Seq<Block>, lots: Seq<Parcel>, d: Seq<char>, i: int, n: nat)
    requires
        0 <= i < n <= lots.len(),
        block_district(blocks, lots[i].block, blocks.len()) == Some(d),
    ensures
        lots_in(blocks, lots, d, n).contains(lots[i].id),
    decreases n,
{
    let all = lots_in(blocks, lots, d, n);
    if i == n - 1 {
        assert(all[all.len() - 1] == lots[i].id);
    } else {
        lot_is_listed(blocks, lots, d, i, (n - 1) as nat);
        let before = lots_in(blocks, lots, d, (n - 1) as nat);
        let k = before.index_of(lots[i].id);
        assert(all[k] == lots[i].id);
    }
}

/// A district offers its files every lot in its blocks.
pub proof fn a_district_offers_its_own_lots(
    blocks: Seq<Block>,
    lots: Seq<Parcel>,
    d: Seq<char>,
    i: int,
)
    requires
        0 <= i < lots.len(),
        block_district(blocks, lots[i].block, blocks.len()) == Some(d),
    ensures
        candidate_lots(blocks, lots, d).contains(lots[i].id),
{
    lot_is_listed(blocks, lots, d, i, lots.len());
    assert(lots_in(blocks, lots, d, lots.len()).len() > 0);
}

/// What a growth step did.
#[derive(Debug)]
pub struct GrowthOutcome {
    /// Files that got a lot and a building.
    pub placed: usize,
    /// Lots that were emptied.
    pub vacated: usize,
    /// Buildings that were built anew.
    pub updated: usize,
    /// Files with nowhere to go.
    pub unplaced: Vec<LogicalPath>,
    /// Does the city need new ground?
    pub rebuild_required: bool,
}

impl GrowthOutcome {
    /// Nothing done.
    pub fn new() -> (r: Self)
        ensures
            r.placed == 0,
            r.vacated == 0,
            r.updated == 0,
            r.unplaced@.len() == 0,
            !r.rebuild_required,
    {
        GrowthOutcome {
            placed: 0,
            vacated: 0,
            updated: 0,
            unplaced: Vec::new(),
            rebuild_required: false,
        }
    }

    /// Did nothing change?
    pub fn is_empty(&self) -> (r: bool)
        ensures
            r == (self.placed == 0 && self.vacated == 0 && self.updated == 0 && self.unplaced@.len()
                == 0),
    {
        self.placed == 0 && self.vacated == 0 && self.updated == 0 && self.unplaced.len() == 0
    }

    /// Notes what became of a file that appeared: it has a lot or not, and where it
    /// has one, a building or not.
    pub fn note_added(&mut self, path: &LogicalPath, settled: bool, built: bool)
        requires
            old(self).placed < usize::MAX,
        ensures
            final(self).vacated == old(self).vacated,
            final(self).updated == old(self).updated,
            final(self).placed == old(self).placed + if settled && built {
                1int
            } else {
                0
            },
            logical_views(final(self).unplaced@) == if settled {
                logical_views(old(self).unplaced@)
            } else {
                logical_views(old(self).unplaced@).push(path@)
            },
            final(self).rebuild_required == (old(self).rebuild_required || !settled),
    {
        if !settled {
            let ghost before = self.unplaced@;
            self.unplaced.push(path.copied());
            assert(logical_views(self.unplaced@) =~= logical_views(before).push(path@));
            self.rebuild_required = true;
        } else if built {
            self.placed = self.placed + 1;
        }
    }

    /// Notes whether a file that is gone left a lot behind.
    pub fn note_removed(&mut self, emptied: bool)
        requires
            old(self).vacated < usize::MAX,
        ensures
            *final(self) == (GrowthOutcome {
                vacated: (old(self).vacated + if emptied {
                    1int
                } else {
                    0
                }) as usize,
                ..*old(self)
            }),
    {
        if emptied {
            self.vacated = self.vacated + 1;
        }
    }

    /// Notes whether a file that changed got its building anew.
    pub fn note_changed(&mut self, built: bool)
        requires
            old(self).updated < usize::MAX,
        ensures
            *final(self) == (GrowthOutcome {
                updated: (old(self).updated + if built {
                    1int
                } else {
                    0
                }) as usize,
                ..*old(self)
            }),
    {
        if built {
            self.updated = self.updated + 1;
        }
    }
}

/// A side of a block: its two corners on the layout grid, the lower first.
pub type Segment = ((i64, i64), (i64, i64));

/// Does a corner stand before another?
pub open spec fn corner_le(a: (i64, i64), b: (i64, i64)) -> bool {
    a.0 < b.0 || (a.0 == b.0 && a.1 <= b.1)
}

/// The side between two corners, whichever comes first.
pub open spec fn side_between(a: (i64, i64), b: (i64, i64)) -> Segment {
    if corner_le(a, b) {
        (a, b)
    } else {
        (b, a)
    }
}

/// The sides of a ring of corners equal to one, among the first `n`.
pub open spec fn side_times(ring: Seq<(i64, i64)>, s: Segment, n: nat) -> nat
    decreases n,
{
    if n == 0 || n > ring.len() {
        0
    } else {
        let next = if n == ring.len() {
            ring[0]
        } else {
            ring[n as int]
        };
        side_times(ring, s, (n - 1) as nat) + if side_between(ring[n - 1], next) == s {
            1nat
        } else {
            0nat
        }
    }
}

/// The blocks that a side belongs to, among the first `n`, each as often as it does.
pub open spec fn side_owners(rings: Seq<Vec<(i64, i64)>>, s: Segment, n: nat) -> Seq<int>
    decreases n,
{
    if n == 0 || n > rings.len() {
        seq![]
    } else {
        side_owners(rings, s, (n - 1) as nat) + Seq::new(
            side_times(rings[n - 1]@, s, rings[n - 1]@.len()),
            |k: int| n - 1,
        )
    }
}

/// Is a road edge a border: does it separate exactly two blocks, of different
/// districts?
pub open spec fn is_border(
    rings: Seq<Vec<(i64, i64)>>,
    district: Seq<LogicalPath>,
    s: Segment,
) -> bool {
    let o = side_owners(rings, s, rings.len());
    o.len() == 2 && district[o[0]]@ != district[o[1]]@
}

fn segment(a: (i64, i64), b: (i64, i64)) -> (r: Segment)
    ensures
        r == side_between(a, b),
{
    if a.0 < b.0 || (a.0 == b.0 && a.1 <= b.1) {
        (a, b)
    } else {
        (b, a)
    }
}

fn same_segment(a: Segment, b: Segment) -> (r: bool)
    ensures
        r == (a == b),
{
    let ((p, q), (x, y)) = a;
    let ((s, t), (u, v)) = b;
    p == s && q == t && x == u && y == v
}

fn owners_of(rings: &Vec<Vec<(i64, i64)>>, s: Segment) -> (r: Vec<usize>)
    ensures
        r@.len() == side_owners(rings@, s, rings@.len()).len(),
        forall|k: int|
            0 <= k < r@.len() ==> (#[trigger] r@[k]) == side_owners(rings@, s, rings@.len())[k]
                && r@[k] < rings@.len(),
{
    let mut out: Vec<usize> = Vec::new();
    let mut b: usize = 0;
    while b < rings.len()
        invariant
            b <= rings@.len(),
            out@.len() == side_owners(rings@, s, b as nat).len(),
            forall|k: int|
                0 <= k < out@.len() ==> (#[trigger] out@[k]) == side_owners(rings@, s, b as nat)[k]
                    && out@[k] < rings@.len(),
        decreases rings.len() - b,
    {
        let ring: &Vec<(i64, i64)> = &rings[b];
        let n: usize = ring.len();
        let ghost past = side_owners(rings@, s, b as nat);
        let mut i: usize = 0;
        while i < n
            invariant
                i <= n == ring@.len(),
                b < rings@.len(),
                past == side_owners(rings@, s, b as nat),
                out@.len() == past.len() + side_times(ring@, s, i as nat),
                forall|k: int|
                    0 <= k < out@.len() ==> (#[trigger] out@[k]) == if k < past.len() {
                        past[k]
                    } else {
                        b as int
                    } && out@[k] < rings@.len(),
            decreases n - i,
        {
            let next: (i64, i64) = if i + 1 == n {
                ring[0]
            } else {
                ring[i + 1]
            };
            if same_segment(segment(ring[i], next), s) {
                out.push(b);
            }
            i = i + 1;
        }
        proof {
            let all = side_owners(rings@, s, (b + 1) as nat);
            assert forall|k: int| 0 <= k < out@.len() implies (#[trigger] out@[k]) == all[k]
                && out@[k] < rings@.len() by {
                if k < past.len() {
                    assert(all[k] == past[k]);
                }
            }
        }
        b = b + 1;
    }
    out
}

/// Which road edges separate two blocks of different districts, given the blocks'
/// corners and the edges' ends on the layout grid.
pub fn district_border_edges(
    rings: &Vec<Vec<(i64, i64)>>,
    district: &Vec<LogicalPath>,
    edges: &Vec<((i64, i64), (i64, i64))>,
) -> (r: Vec<bool>)
    requires
        rings@.len() == district@.len(),
    ensures
        r@.len() == edges@.len(),
        forall|e: int|
            0 <= e < edges@.len() ==> (#[trigger] r@[e]) == is_border(
                rings@,
                district@,
                side_between(edges@[e].0, edges@[e].1),
            ),
{
    let mut out: Vec<bool> = Vec::new();
    let mut e: usize = 0;
    while e < edges.len()
        invariant
            e <= edges@.len(),
            rings@.len() == district@.len(),
            out.len() == e,
            forall|k: int|
                0 <= k < e ==> (#[trigger] out@[k]) == is_border(
                    rings@,
                    district@,
                    side_between(edges@[k].0, edges@[k].1),
                ),
        decreases edges.len() - e,
    {
        let (a, b) = edges[e];
        let s: Segment = segment(a, b);
        let owners: Vec<usize> = owners_of(rings, s);
        let border: bool = if owners.len() == 2 {
            assert(owners@[0] == side_owners(rings@, s, rings@.len())[0]);
            assert(owners@[1] == side_owners(rings@, s, rings@.len())[1]);
            !district[owners[0]].same(&district[owners[1]])
        } else {
            false
        };
        out.push(border);
        e = e + 1;
    }
    out
}

/// How many of the first `n` parcels have to be seated: a building is asked for, and
/// none is known from before.
pub open spec fn to_seat(asked: Seq<bool>, known: Seq<bool>, n: nat) -> nat
    decreases n,
{
    if n == 0 || n > asked.len() {
        0
    } else {
        to_seat(asked, known, (n - 1) as nat) + if asked[n - 1] && !known[n - 1] {
            1nat
        } else {
            0nat
        }
    }
}

/// The parcels that have to be seated, in order.
pub fn seats_to_compute(asked: &Vec<bool>, known: &Vec<bool>) -> (r: Vec<usize>)
    requires
        asked@.len() == known@.len(),
    ensures
        r@.len() == to_seat(asked@, known@, asked@.len()),
        forall|i: nat|
            i < asked@.len() && asked@[i as int] && !known@[i as int] ==> (#[trigger] to_seat(
                asked@,
                known@,
                i,
            )) < r@.len() && r@[to_seat(asked@, known@, i) as int] == i,
        forall|k: int|
            0 <= k < r@.len() ==> (#[trigger] r@[k]) < asked@.len() && asked@[r@[k] as int]
                && !known@[r@[k] as int],
{
    let mut out: Vec<usize> = Vec::new();
    let mut i: usize = 0;
    while i < asked.len()
        invariant
            i <= asked@.len() == known@.len(),
            out@.len() == to_seat(asked@, known@, i as nat),
            forall|j: nat|
                j < i && asked@[j as int] && !known@[j as int] ==> (#[trigger] to_seat(
                    asked@,
                    known@,
                    j,
                )) < out@.len() && out@[to_seat(asked@, known@, j) as int] == j,
            forall|k: int|
                0 <= k < out@.len() ==> (#[trigger] out@[k]) < i && asked@[out@[k] as int]
                    && !known@[out@[k] as int],
        decreases asked.len() - i,
    {
        if asked[i] && !known[i] {
            out.push(i);
        }
        i = i + 1;
    }
    out
}

/// What became of a parcel.
#[derive(Debug, Clone, Copy, PartialEq, Eq, Structural)]
pub enum Seat {
    /// No building was asked for.
    Unasked,
    /// The building is the one known from before.
    Known,
    /// The building is the one computed now, at this place among them.
    Computed(usize),
}

/// What became of each parcel: what was known from before is kept, what was computed
/// is taken in order, and nothing else can come in.
pub fn merge_seats(asked: &Vec<bool>, known: &Vec<bool>) -> (r: Vec<Seat>)
    requires
        asked@.len() == known@.len(),
    ensures
        r@.len() == asked@.len(),
        forall|i: int|
            0 <= i < r@.len() ==> (#[trigger] r@[i]) == if known@[i] {
                Seat::Known
            } else if asked@[i] {
                Seat::Computed(to_seat(asked@, known@, i as nat) as usize)
            } else {
                Seat::Unasked
            },
{
    let mut out: Vec<Seat> = Vec::new();
    let mut next: usize = 0;
    let mut i: usize = 0;
    while i < asked.len()
        invariant
            i <= asked@.len() == known@.len(),
            next == to_seat(asked@, known@, i as nat),
            next <= i,
            out.len() == i,
            forall|k: int|
                0 <= k < i ==> (#[trigger] out@[k]) == if known@[k] {
                    Seat::Known
                } else if asked@[k] {
                    Seat::Computed(to_seat(asked@, known@, k as nat) as usize)
                } else {
                    Seat::Unasked
                },
        decreases asked.len() - i,
    {
        if known[i] {
            out.push(Seat::Known);
        } else if asked[i] {
            out.push(Seat::Computed(next));
            next = next + 1;
        } else {
            out.push(Seat::Unasked);
        }
        i = i + 1;
    }
    out
}

/// How many of the first `n` parcels were asked for a building that does not stand.
pub open spec fn unbuilt_among(asked: Seq<bool>, built: Seq<bool>, n: nat) -> nat
    decreases n,
{
    if n == 0 || n > asked.len() {
        0
    } else {
        unbuilt_among(asked, built, (n - 1) as nat) + if asked[n - 1] && !built[n - 1] {
            1nat
        } else {
            0nat
        }
    }
}

/// How many parcels were asked for a building that does not stand.
pub fn count_unbuilt(asked: &Vec<bool>, built: &Vec<bool>) -> (r: usize)
    requires
        asked@.len() == built@.len(),
    ensures
        r == unbuilt_among(asked@, built@, asked@.len()),
{
    let mut count: usize = 0;
    let mut i: usize = 0;
    while i < asked.len()
        invariant
            i <= asked@.len() == built@.len(),
            count == unbuilt_among(asked@, built@, i as nat),
            count <= i,
        decreases asked.len() - i,
    {
        if asked[i] && !built[i] {
            count = count + 1;
        }
        i = i + 1;
    }
    count
}

/// The name of a road class.
pub fn road_class_name(class: RoadClass) -> (r: &'static str)
    ensures
        r@ == match class {
            RoadClass::Arterial => "arterial"@,
            RoadClass::Street => "street"@,
            RoadClass::Alley => "alley"@,
        },
{
    match class {
        RoadClass::Arterial => "arterial",
        RoadClass::Street => "street",
        RoadClass::Alley => "alley",
    }
}

/// The name of a roof form.
pub fn roof_form_name(roof: RoofForm) -> (r: &'static str)
    ensures
        r@ == match roof {
            RoofForm::Flat => "flat"@,
            RoofForm::Stepped => "stepped"@,
            RoofForm::Pitched => "pitched"@,
        },
{
    match roof {
        RoofForm::Flat => "flat",
        RoofForm::Stepped => "stepped",
        RoofForm::Pitched => "pitched",
    }
}

/// The name of a kind of entry point.
pub fn entry_point_name(entry: EntryPointKind) -> (r: &'static str)
    ensures
        r@ == match entry {
            EntryPointKind::Main => "main"@,
            EntryPointKind::LibraryRoot => "library-root"@,
            EntryPointKind::Cli => "cli"@,
            EntryPointKind::Server => "server"@,
            EntryPointKind::Router => "router"@,
            EntryPointKind::Index => "index"@,
        },
{
    match entry {
        EntryPointKind::Main => "main",
        EntryPointKind::LibraryRoot => "library-root",
        EntryPointKind::Cli => "cli",
        EntryPointKind::Server => "server",
        EntryPointKind::Router => "router",
        EntryPointKind::Index => "index",
    }
}

/// So many zeros.
pub open spec fn zeros(n: int) -> Seq<char> {
    Seq::new(
        if n > 0 {
            n as nat
        } else {
            0
        },
        |i: int| '0',
    )
}

/// A word as sixteen hexadecimal digits.
pub open spec fn hex_word(value: u64) -> Seq<char> {
    "0x"@ + zeros(16 - numeral(value as nat, 16).len()) + numeral(value as nat, 16)
}

/// A word as sixteen hexadecimal digits.
pub fn hex64(value: u64) -> (r: String)
    ensures
        r@ == hex_word(value),
{
    let digits: String = number_text(value, 16);
    let n: usize = digits.as_str().unicode_len();
    let mut out: String = String::new();
    push_text(&mut out, "0x");
    let mut i: usize = n;
    assert(out@ =~= "0x"@ + zeros(0));
    assert(out@ =~= "0x"@ + zeros(i - n));
    while i < 16
        invariant
            n == numeral(value as nat, 16).len(),
            n <= i,
            i <= 16 || i == n,
            out@ == "0x"@ + zeros(i - n),
        decreases 16 - i,
    {
        let ghost had = out@;
        out.push('0');
        i = i + 1;
        assert(out@ =~= "0x"@ + zeros(i - n)) by {
            assert(zeros(i - n) =~= zeros(i - n - 1).push('0'));
        }
    }
    push_text(&mut out, digits.as_str());
    proof {
        assert(zeros(i - n) =~= zeros(16 - n));
        assert(out@ =~= hex_word(value));
    }
    out
}

/// Is a position among some?
fn holds_position(v: &Vec<(i64, i64)>, upto: usize, x: (i64, i64)) -> (r: bool)
    requires
        upto <= v@.len(),
    ensures
        r == v@.subrange(0, upto as int).contains(x),
{
    let mut i: usize = 0;
    while i < upto
        invariant
            i <= upto <= v@.len(),
            forall|k: int| 0 <= k < i ==> (#[trigger] v@[k]) != x,
        decreases upto - i,
    {
        if v[i].0 == x.0 && v[i].1 == x.1 {
            assert(v@.subrange(0, upto as int)[i as int] == x);
            return true;
        }
        i = i + 1;
    }
    false
}

/// How many different positions there are among some that are not among others.
fn count_gone(v: &Vec<(i64, i64)>, others: &Vec<(i64, i64)>) -> (r: usize)
    ensures
        r == v@.to_set().difference(others@.to_set()).len(),
        r <= v@.len(),
{
    let mut count: usize = 0;
    let mut i: usize = 0;
    let ghost there = others@.to_set();
    assert(v@.subrange(0, 0).to_set().difference(there) =~= Set::<(i64, i64)>::empty());
    assert(others@.subrange(0, others@.len() as int) =~= others@);
    while i < v.len()
        invariant
            i <= v@.len(),
            count <= i,
            there == others@.to_set(),
            others@.subrange(0, others@.len() as int) == others@,
            v@.subrange(0, i as int).to_set().difference(there).finite(),
            count == v@.subrange(0, i as int).to_set().difference(there).len(),
        decreases v.len() - i,
    {
        let x: (i64, i64) = v[i];
        let ghost past = v@.subrange(0, i as int);
        proof {
            assert(v@.subrange(0, i + 1) =~= past.push(x));
            past.lemma_push_to_set_commute(x);
            if there.contains(x) || past.contains(x) {
                assert(past.to_set().insert(x).difference(there) =~= past.to_set().difference(
                    there,
                ));
            } else {
                assert(past.to_set().insert(x).difference(there) =~= past.to_set().difference(
                    there,
                ).insert(x));
            }
        }
        if !holds_position(others, others.len(), x) && !holds_position(v, i, x) {
            count = count + 1;
        }
        i = i + 1;
    }
    assert(v@.subrange(0, v@.len() as int) =~= v@);
    count
}

/// How many road nodes a growth step moved: the positions that are there before it
/// or after it, and not both.
pub fn moved_nodes(before: &Vec<(i64, i64)>, after: &Vec<(i64, i64)>) -> (r: usize)
    requires
        before@.len() + after@.len() <= usize::MAX,
    ensures
        r == before@.to_set().difference(after@.to_set()).len() + after@.to_set().difference(
            before@.to_set(),
        ).len(),
{
    count_gone(before, after) + count_gone(after, before)
}

/// A lot is seen with its number, its block and who is on it.
pub proof fn a_lot_is_seen_whole(lot: Lot)
    ensures
        lot@.id == lot.id,
        lot@.block == lot.block,
        match lot.occupant {
            Some(p) => lot@.occupant == Some(p@),
            None => lot@.occupant is None,
        },
{
}

proof fn lot_with_first(lots: Seq<Parcel>, path: Seq<char>)
    ensures
        match lot_with(lots, path) {
            Some(i) => 0 <= i < lots.len() && lots[i].occupant == Some(path) && (forall|j: int|
                0 <= j < i ==> (#[trigger] lots[j]).occupant != Some(path)),
            None => forall|j: int| 0 <= j < lots.len() ==> (#[trigger] lots[j]).occupant != Some(path),
        },
    decreases lots.len(),
{
    if lots.len() > 0 {
        let rest = lots.drop_last();
        lot_with_first(rest, path);
        assert forall|j: int| 0 <= j < rest.len() implies rest[j] == #[trigger] lots[j] by {}
    }
}

/// A file is found on the first lot that it is on, and on none only where it is on none.
pub proof fn a_file_is_found_on_its_lot(lots: Seq<Parcel>, path: Seq<char>)
    ensures
        match lot_with(lots, path) {
            Some(i) => 0 <= i < lots.len() && lots[i].occupant == Some(path) && (forall|j: int|
                0 <= j < i ==> (#[trigger] lots[j]).occupant != Some(path)),
            None => forall|j: int| 0 <= j < lots.len() ==> (#[trigger] lots[j]).occupant != Some(path),
        },
{
    lot_with_first(lots, path);
}

/// A number finds the first lot that has it, and none only where none has.
pub proof fn a_number_finds_its_lot(lots: Seq<Parcel>, id: u32)
    ensures
        match lot_numbered(lots, id) {
            Some(i) => 0 <= i < lots.len() && lots[i].id == id && (forall|j: int|
                0 <= j < i ==> (#[trigger] lots[j]).id != id),
            None => forall|j: int| 0 <= j < lots.len() ==> (#[trigger] lots[j]).id != id,
        },
    decreases lots.len(),
{
    if lots.len() > 0 {
        let rest = lots.drop_last();
        a_number_finds_its_lot(rest, id);
        assert forall|j: int| 0 <= j < rest.len() implies rest[j] == #[trigger] lots[j] by {}
    }
}

proof fn vacant_upto(lots: Seq<Parcel>, n: nat)
    requires
        n <= lots.len(),
    ensures
        vacant_among(lots, n) == lots.take(n as int).filter(
            |p: Parcel| p.occupant is None,
        ).len(),
    decreases n,
{
    let pred = |p: Parcel| p.occupant is None;
    if n == 0 {
        filter_none(lots, pred);
    } else {
        vacant_upto(lots, (n - 1) as nat);
        filter_step(lots, pred, n);
    }
}

/// The vacant lots are those that nobody is on.
pub proof fn vacant_lots_are_counted(lots: Seq<Parcel>)
    ensures
        vacant_among(lots, lots.len()) == lots.filter(|p: Parcel| p.occupant is None).len(),
{
    take_all(lots);
    vacant_upto(lots, lots.len());
}

/// A block's district is that of the last block with its number.
pub proof fn a_block_number_names_its_district(blocks: Seq<Block>, id: u32, n: nat)
    requires
        n <= blocks.len(),
    ensures
        match block_district(blocks, id, n) {
            Some(d) => exists|i: int|
                0 <= i < n && (#[trigger] blocks[i]).id == id && blocks[i].district@ == d && (
                forall|j: int| i < j < n ==> (#[trigger] blocks[j]).id != id),
            None => forall|j: int| 0 <= j < n ==> (#[trigger] blocks[j]).id != id,
        },
    decreases n,
{
    if n > 0 {
        a_block_number_names_its_district(blocks, id, (n - 1) as nat);
        if blocks[n - 1].id == id {
            assert(0 <= n - 1 < n && blocks[n - 1].id == id);
        } else if let Some(d) = block_district(blocks, id, n) {
            let i = choose|i: int|
                0 <= i < n - 1 && (#[trigger] blocks[i]).id == id && blocks[i].district@ == d && (
                forall|j: int| i < j < n - 1 ==> (#[trigger] blocks[j]).id != id);
            assert(blocks[i].id == id);
        }
    }
}

proof fn lots_in_upto(blocks: Seq<Block>, lots: Seq<Parcel>, d: Seq<char>, n: nat)
    requires
        n <= lots.len(),
    ensures
        ({
            let mine = lots.take(n as int).filter(
                |p: Parcel| block_district(blocks, p.block, blocks.len()) == Some(d),
            );
            &&& lots_in(blocks, lots, d, n).len() == mine.len()
            &&& forall|i: int|
                0 <= i < mine.len() ==> lots_in(blocks, lots, d, n)[i] == (#[trigger] mine[i]).id
        }),
    decreases n,
{
    let pred = |p: Parcel| block_district(blocks, p.block, blocks.len()) == Some(d);
    if n == 0 {
        filter_none(lots, pred);
    } else {
        lots_in_upto(blocks, lots, d, (n - 1) as nat);
        filter_step(lots, pred, n);
        let before = lots.take(n - 1).filter(pred);
        let mine = lots.take(n as int).filter(pred);
        assert forall|i: int| 0 <= i < mine.len() implies lots_in(blocks, lots, d, n)[i] == (
        #[trigger] mine[i]).id by {
            if i < before.len() {
                assert(before[i] == mine[i]);
            }
        }
    }
}

/// The lots of a district are those that lie in its blocks, in order.
pub proof fn a_districts_lots_lie_in_its_blocks(
    blocks: Seq<Block>,
    lots: Seq<Parcel>,
    d: Seq<char>,
)
    ensures
        ({
            let mine = lots.filter(
                |p: Parcel| block_district(blocks, p.block, blocks.len()) == Some(d),
            );
            &&& lots_in(blocks, lots, d, lots.len()).len() == mine.len()
            &&& forall|i: int|
                0 <= i < mine.len() ==> lots_in(blocks, lots, d, lots.len())[i] == (
                #[trigger] mine[i]).id
        }),
{
    take_all(lots);
    lots_in_upto(blocks, lots, d, lots.len());
}

/// A file is offered the lots of the deepest directory at or above its own that has any.
pub proof fn the_nearest_lots_are_offered(
    blocks: Seq<Block>,
    lots: Seq<Parcel>,
    d: Seq<char>,
    q: Seq<char>,
)
    requires
        q.len() == 0 || d == q || (d.len() > q.len() && d.take(q.len() as int) == q
            && d[q.len() as int] == '/'),
        lots_in(blocks, lots, q, lots.len()).len() > 0,
    ensures
        exists|p: Seq<char>|
            candidate_lots(blocks, lots, d) == #[trigger] lots_in(blocks, lots, p, lots.len())
                && lots_in(blocks, lots, p, lots.len()).len() > 0 && q.len() <= p.len() && (p.len()
                == 0 || d == p || (d.len() > p.len() && d.take(p.len() as int) == p
                && d[p.len() as int] == '/')),
    decreases d.len(),
{
    parent_is_shorter(d);
    what_holds_a_path_holds_its_parent(d, q);
    if lots_in(blocks, lots, d, lots.len()).len() > 0 {
        assert(candidate_lots(blocks, lots, d) == lots_in(blocks, lots, d, lots.len()));
    } else {
        let up = parent_path(d)->0;
        the_nearest_lots_are_offered(blocks, lots, up, q);
        let p = choose|p: Seq<char>|
            candidate_lots(blocks, lots, up) == #[trigger] lots_in(blocks, lots, p, lots.len())
                && lots_in(blocks, lots, p, lots.len()).len() > 0 && q.len() <= p.len() && (p.len()
                == 0 || up == p || (up.len() > p.len() && up.take(p.len() as int) == p
                && up[p.len() as int] == '/'));
        what_holds_a_path_holds_its_parent(d, p);
        assert(candidate_lots(blocks, lots, d) == lots_in(blocks, lots, p, lots.len()));
    }
}

/// A side between two corners is the same whichever comes first, and two sides are the same
/// only between the same corners.
pub proof fn a_side_has_no_direction(
    a: (i64, i64),
    b: (i64, i64),
    x: (i64, i64),
    y: (i64, i64),
)
    ensures
        side_between(a, b) == side_between(b, a),
        side_between(a, b) == side_between(x, y) <==> (a == x && b == y) || (a == y && b == x),
{
}

proof fn sides_upto(ring: Seq<(i64, i64)>, s: Segment, n: nat)
    requires
        n <= ring.len(),
    ensures
        side_times(ring, s, n) == Seq::new(ring.len(), |i: int| i).take(n as int).filter(
            |i: int|
                side_between(
                    ring[i],
                    if i + 1 < ring.len() {
                        ring[i + 1]
                    } else {
                        ring[0]
                    },
                ) == s,
        ).len(),
    decreases n,
{
    let all = Seq::new(ring.len(), |i: int| i);
    let pred = |i: int|
        side_between(
            ring[i],
            if i + 1 < ring.len() {
                ring[i + 1]
            } else {
                ring[0]
            },
        ) == s;
    if n == 0 {
        filter_none(all, pred);
    } else {
        sides_upto(ring, s, (n - 1) as nat);
        filter_step(all, pred, n);
        assert(all[n - 1] == n - 1);
    }
}

/// A ring has a side as often as two corners of it, one behind the other round the ring, have
/// the side between them.
pub proof fn a_ring_has_its_sides(ring: Seq<(i64, i64)>, s: Segment)
    ensures
        side_times(ring, s, ring.len()) == Seq::new(ring.len(), |i: int| i).filter(
            |i: int|
                side_between(
                    ring[i],
                    if i + 1 < ring.len() {
                        ring[i + 1]
                    } else {
                        ring[0]
                    },
                ) == s,
        ).len(),
{
    take_all(Seq::new(ring.len(), |i: int| i));
    sides_upto(ring, s, ring.len());
}

proof fn owners_upto(rings: Seq<Vec<(i64, i64)>>, s: Segment, n: nat, b: int)
    requires
        n <= rings.len(),
    ensures
        forall|i: int|
            0 <= i < side_owners(rings, s, n).len() ==> 0 <= #[trigger] side_owners(rings, s, n)[i]
                < n,
        side_owners(rings, s, n).filter(|o: int| o == b).len() == if 0 <= b < n {
            side_times(rings[b]@, s, rings[b]@.len())
        } else {
            0
        },
    decreases n,
{
    reveal(Seq::filter);
    if n > 0 {
        owners_upto(rings, s, (n - 1) as nat, b);
        let before = side_owners(rings, s, (n - 1) as nat);
        let k = side_times(rings[n - 1]@, s, rings[n - 1]@.len());
        let here = Seq::new(k, |i: int| n - 1);
        Seq::filter_distributes_over_add(before, here, |o: int| o == b);
        same_filtered(n - 1, k, b);
        let all = side_owners(rings, s, n);
        assert forall|i: int| 0 <= i < all.len() implies 0 <= #[trigger] all[i] < n by {
            if i < before.len() {
                assert(all[i] == before[i]);
            }
        }
    }
}

proof fn same_filtered(v: int, k: nat, b: int)
    ensures
        Seq::new(k, |i: int| v).filter(|o: int| o == b).len() == if v == b {
            k
        } else {
            0
        },
    decreases k,
{
    reveal(Seq::filter);
    if k > 0 {
        same_filtered(v, (k - 1) as nat, b);
        assert(Seq::new(k, |i: int| v).drop_last() =~= Seq::new((k - 1) as nat, |i: int| v));
    }
}

/// A side belongs to a block as often as the block's ring has it, and to nothing else.
pub proof fn a_side_belongs_to_the_rings_that_have_it(
    rings: Seq<Vec<(i64, i64)>>,
    s: Segment,
    b: int,
)
    ensures
        side_owners(rings, s, rings.len()).filter(|o: int| o == b).len() == if 0 <= b
            < rings.len() {
            side_times(rings[b]@, s, rings[b]@.len())
        } else {
            0
        },
{
    owners_upto(rings, s, rings.len(), b);
}

/// A border is a side that belongs to two blocks of different districts, once each, and to no
/// other.
pub proof fn a_border_parts_two_districts(
    rings: Seq<Vec<(i64, i64)>>,
    district: Seq<LogicalPath>,
    s: Segment,
)
    requires
        rings.len() == district.len(),
    ensures
        is_border(rings, district, s) <==> side_owners(rings, s, rings.len()).len() == 2
            && district[side_owners(rings, s, rings.len())[0]]@ != district[side_owners(
            rings,
            s,
            rings.len(),
        )[1]]@,
        is_border(rings, district, s) ==> exists|a: int, b: int|
            0 <= a < rings.len() && 0 <= b < rings.len() && (#[trigger] district[a])@ != (
            #[trigger] district[b])@,
{
    owners_upto(rings, s, rings.len(), 0);
    if is_border(rings, district, s) {
        let o = side_owners(rings, s, rings.len());
        assert(0 <= o[0] < rings.len() && 0 <= o[1] < rings.len());
        assert(district[o[0]]@ != district[o[1]]@);
    }
}

proof fn to_seat_upto(asked: Seq<bool>, known: Seq<bool>, n: nat)
    requires
        n <= asked.len(),
    ensures
        to_seat(asked, known, n) == Seq::new(asked.len(), |i: int| i).take(n as int).filter(
            |i: int| asked[i] && !known[i],
        ).len(),
    decreases n,
{
    let all = Seq::new(asked.len(), |i: int| i);
    let pred = |i: int| asked[i] && !known[i];
    if n == 0 {
        filter_none(all, pred);
    } else {
        to_seat_upto(asked, known, (n - 1) as nat);
        filter_step(all, pred, n);
        assert(all[n - 1] == n - 1);
    }
}

/// What has to be seated before a parcel is what is asked for and not known.
pub proof fn what_has_to_be_seated(asked: Seq<bool>, known: Seq<bool>, n: nat)
    requires
        n <= asked.len(),
    ensures
        to_seat(asked, known, n) == Seq::new(n, |i: int| i).filter(
            |i: int| asked[i] && !known[i],
        ).len(),
{
    to_seat_upto(asked, known, n);
    assert(Seq::new(asked.len(), |i: int| i).take(n as int) =~= Seq::new(n, |i: int| i));
}

proof fn unbuilt_upto(asked: Seq<bool>, built: Seq<bool>, n: nat)
    requires
        n <= asked.len(),
    ensures
        unbuilt_among(asked, built, n) == Seq::new(asked.len(), |i: int| i).take(n as int).filter(
            |i: int| asked[i] && !built[i],
        ).len(),
    decreases n,
{
    let all = Seq::new(asked.len(), |i: int| i);
    let pred = |i: int| asked[i] && !built[i];
    if n == 0 {
        filter_none(all, pred);
    } else {
        unbuilt_upto(asked, built, (n - 1) as nat);
        filter_step(all, pred, n);
        assert(all[n - 1] == n - 1);
    }
}

/// What is unbuilt is what was asked for and does not stand.
pub proof fn what_is_unbuilt(asked: Seq<bool>, built: Seq<bool>)
    ensures
        unbuilt_among(asked, built, asked.len()) == Seq::new(asked.len(), |i: int| i).filter(
            |i: int| asked[i] && !built[i],
        ).len(),
{
    take_all(Seq::new(asked.len(), |i: int| i));
    unbuilt_upto(asked, built, asked.len());
}

/// A word is written with a `0x` and sixteen hexadecimal digits, zeros ahead of those
/// that its number has.
pub proof fn words_are_written_in_sixteen_digits(value: u64)
    ensures
        ({
            let w = hex_word(value);
            let n = numeral(value as nat, 16);
            &&& w.len() == 18
            &&& w[0] == '0' && w[1] == 'x'
            &&& forall|i: int| 2 <= i < 18 - n.len() ==> #[trigger] w[i] == '0'
            &&& w.skip(18 - n.len()) == n
        }),
{
    reveal_strlit("0x");
    let w = hex_word(value);
    let n = numeral(value as nat, 16);
    reveal_with_fuel(vstd::arithmetic::power::pow, 17);
    assert(vstd::arithmetic::power::pow(16, 16) == 0x1_0000_0000_0000_0000);
    numerals_are_short(value as nat, 16);
    assert(w.skip(18 - n.len()) =~= n);
}

proof fn numerals_are_short(n: nat, k: nat)
    requires
        n < vstd::arithmetic::power::pow(16, k),
        k > 0,
    ensures
        0 < numeral(n, 16).len() <= k,
    decreases k,
{
    if n >= 16 {
        reveal(vstd::arithmetic::power::pow);
        let less = (k - 1) as nat;
        assert(vstd::arithmetic::power::pow(16, k) == 16 * vstd::arithmetic::power::pow(16, less));
        if k == 1 {
            assert(vstd::arithmetic::power::pow(16, 0) == 1);
        }
        numerals_are_short(n / 16, less);
    }
}

/// The nodes that moved are counted the same from either side, and none has where both
/// sides have the same nodes.
pub proof fn moves_are_counted_from_either_side(
    before: Vec<(i64, i64)>,
    after: Vec<(i64, i64)>,
    there: usize,
    back: usize,
)
    requires
        moved_nodes.ensures((&before, &after), there),
        moved_nodes.ensures((&after, &before), back),
    ensures
        there == back,
        before@.to_set() == after@.to_set() ==> there == 0,
        before@.len() == 0 && after@.no_duplicates() ==> there == after@.len(),
{
    let (a, b) = (before@.to_set(), after@.to_set());
    if a == b {
        assert(a.difference(b) =~= Set::empty());
    }
    if before@.len() == 0 && after@.no_duplicates() {
        assert(a =~= Set::empty());
        assert(a.difference(b) =~= Set::empty());
        assert(b.difference(a) =~= b);
        after@.unique_seq_to_set();
    }
}

} // verus!
