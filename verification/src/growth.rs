//! A growth step: files that are gone, files that changed and files that appeared, on
//! the lots that there are.
//!
//! Which lot takes a new file, and whether a building fits on a lot, is found out
//! elsewhere; a step is exact for every answer.
use vstd::prelude::*;

use crate::blocks::Block;
use crate::city::{
    candidate_lots, candidates_are_listed, find_lot, host_candidates, lot_numbered,
    lot_numbered_bounds, lot_views, lot_with, lot_with_bounds, lot_with_finds, lots_by_district,
    lots_in, occupy, vacate, GrowthOutcome, Lot, Parcel,
};
use crate::delta::{canonical, canonical_order, RepoDelta};
use crate::folds::{fold_step, take_all};
use crate::logical::{logical_views, LogicalPath};
use crate::ordered::{ascending, TextMap, TextSet};
use crate::territory::{district_of, home_of};

verus! {

/// What came of fitting a file's building onto its lot.
#[derive(Debug, Clone, Copy, PartialEq, Eq, Structural)]
pub enum Fit {
    /// The file is not known.
    Unknown,
    /// The lot has no room for a building.
    Tight,
    /// There is a building.
    Built,
}

/// A city under growth: its lots, the files whose buildings stand, and what the step
/// has done so far.
pub ghost struct Growing {
    pub lots: Seq<Parcel>,
    pub standing: Set<Seq<char>>,
    pub placed: nat,
    pub vacated: nat,
    pub updated: nat,
    pub unplaced: Seq<Seq<char>>,
    pub rebuild_required: bool,
}

/// The lots, the buildings, and what an outcome says.
pub open spec fn growing(
    lots: Seq<Parcel>,
    standing: Set<Seq<char>>,
    outcome: GrowthOutcome,
) -> Growing {
    Growing {
        lots,
        standing,
        placed: outcome.placed as nat,
        vacated: outcome.vacated as nat,
        updated: outcome.updated as nat,
        unplaced: logical_views(outcome.unplaced@),
        rebuild_required: outcome.rebuild_required,
    }
}

/// Before the first file.
pub open spec fn at_rest(lots: Seq<Parcel>, standing: Set<Seq<char>>) -> Growing {
    Growing {
        lots,
        standing,
        placed: 0,
        vacated: 0,
        updated: 0,
        unplaced: seq![],
        rebuild_required: false,
    }
}

/// The buildings that stand once a file's was fitted.
pub open spec fn refitted(standing: Set<Seq<char>>, path: Seq<char>, fit: Fit) -> Set<Seq<char>> {
    match fit {
        Fit::Unknown => standing,
        Fit::Tight => standing.remove(path),
        Fit::Built => standing.insert(path),
    }
}

/// After a file is gone: its building too, and its lot, where it had one, is vacant.
pub open spec fn without_file(g: Growing, path: Seq<char>) -> Growing {
    let cleared = Growing { standing: g.standing.remove(path), ..g };
    match lot_with(g.lots, path) {
        Some(i) => Growing {
            lots: g.lots.update(i, Parcel { occupant: None, ..g.lots[i] }),
            vacated: g.vacated + 1,
            ..cleared
        },
        None => cleared,
    }
}

/// After a file changed: where it has a lot, its building is fitted anew.
pub open spec fn with_change(g: Growing, path: Seq<char>, fit: Fit) -> Growing {
    if lot_with(g.lots, path) is Some {
        Growing {
            standing: refitted(g.standing, path, fit),
            updated: g.updated + if fit == Fit::Built {
                1nat
            } else {
                0nat
            },
            ..g
        }
    } else {
        g
    }
}

/// May a file go to a lot: is it one of those that its district offers, and vacant?
pub open spec fn takes(lots: Seq<Parcel>, offered: Seq<u32>, host: Option<u32>) -> bool {
    match host {
        Some(id) => offered.contains(id) && match lot_numbered(lots, id) {
            Some(i) => lots[i].occupant is None,
            None => false,
        },
        None => false,
    }
}

/// The lots that are offered to each of some files: those of its district, else those of
/// the nearest above that has any.
pub open spec fn offers(
    blocks: Seq<Block>,
    lots: Seq<Parcel>,
    paths: Seq<Seq<char>>,
) -> Seq<Seq<u32>> {
    Seq::new(paths.len(), |i: int| candidate_lots(blocks, lots, home_of(paths[i])))
}

/// After a file appeared: it is on the lot that was chosen for it, with a building
/// where one fits; with no lot for it, the city needs new ground.
pub open spec fn with_file(
    g: Growing,
    path: Seq<char>,
    offered: Seq<u32>,
    host: Option<u32>,
    fit: Fit,
) -> Growing {
    if takes(g.lots, offered, host) {
        let i = lot_numbered(g.lots, host->0)->0;
        Growing {
            lots: g.lots.update(i, Parcel { occupant: Some(path), ..g.lots[i] }),
            standing: refitted(g.standing, path, fit),
            placed: g.placed + if fit == Fit::Built {
                1nat
            } else {
                0nat
            },
            ..g
        }
    } else {
        Growing { unplaced: g.unplaced.push(path), rebuild_required: true, ..g }
    }
}

/// After the first `n` files that are gone.
pub open spec fn after_removed(g: Growing, paths: Seq<Seq<char>>, n: nat) -> Growing
    decreases n,
{
    if n == 0 || n > paths.len() {
        g
    } else {
        without_file(after_removed(g, paths, (n - 1) as nat), paths[n - 1])
    }
}

/// After the first `n` files that changed.
pub open spec fn after_changed(
    g: Growing,
    paths: Seq<Seq<char>>,
    fits: Seq<Fit>,
    n: nat,
) -> Growing
    decreases n,
{
    if n == 0 || n > paths.len() {
        g
    } else {
        with_change(after_changed(g, paths, fits, (n - 1) as nat), paths[n - 1], fits[n - 1])
    }
}

/// After the first `n` files that appeared.
pub open spec fn after_added(
    g: Growing,
    paths: Seq<Seq<char>>,
    offered: Seq<Seq<u32>>,
    hosts: Seq<Option<u32>>,
    fits: Seq<Fit>,
    n: nat,
) -> Growing
    decreases n,
{
    if n == 0 || n > paths.len() {
        g
    } else {
        with_file(
            after_added(g, paths, offered, hosts, fits, (n - 1) as nat),
            paths[n - 1],
            offered[n - 1],
            hosts[n - 1],
            fits[n - 1],
        )
    }
}

/// The files of a change that want a new building: each once, in order.
pub open spec fn changed_paths(resized: Seq<Seq<char>>, retouched: Seq<Seq<char>>) -> Seq<
    Seq<char>,
> {
    canonical(resized + retouched)
}

/// After a whole step: what is gone first, then what changed, then what appeared.
pub open spec fn after_step(
    blocks: Seq<Block>,
    lots: Seq<Parcel>,
    standing: Set<Seq<char>>,
    removed: Seq<Seq<char>>,
    changed: Seq<Seq<char>>,
    added: Seq<Seq<char>>,
    rebuilt: Seq<Fit>,
    hosts: Seq<Option<u32>>,
    built: Seq<Fit>,
) -> Growing {
    let first = after_removed(at_rest(lots, standing), removed, removed.len());
    let second = after_changed(first, changed, rebuilt, changed.len());
    after_added(second, added, offers(blocks, second.lots, added), hosts, built, added.len())
}

/// Keeps the buildings that stand in step with what came of fitting one.
fn refit(standing: &mut TextSet, path: &LogicalPath, fit: Fit)
    requires
        old(standing).wf(),
    ensures
        final(standing).wf(),
        final(standing)@ == refitted(old(standing)@, path@, fit),
{
    match fit {
        Fit::Unknown => {},
        Fit::Tight => standing.remove(path.as_str()),
        Fit::Built => {
            standing.insert(path.copied().text);
        },
    }
}

/// Takes a file that is gone off its lot, and its building down.
pub fn take_away(
    lots: &mut Vec<Lot>,
    standing: &mut TextSet,
    outcome: &mut GrowthOutcome,
    path: &LogicalPath,
)
    requires
        old(standing).wf(),
        old(outcome).vacated < usize::MAX,
    ensures
        final(standing).wf(),
        growing(lot_views(final(lots)@), final(standing)@, *final(outcome)) == without_file(
            growing(lot_views(old(lots)@), old(standing)@, *old(outcome)),
            path@,
        ),
{
    standing.remove(path.as_str());
    let emptied: bool = vacate(lots, path).is_some();
    outcome.note_removed(emptied);
}

/// Notes a file that changed, and what came of fitting its building anew.
pub fn build_again(
    lots: &Vec<Lot>,
    standing: &mut TextSet,
    outcome: &mut GrowthOutcome,
    path: &LogicalPath,
    fit: Fit,
)
    requires
        old(standing).wf(),
        old(outcome).updated < usize::MAX,
    ensures
        final(standing).wf(),
        growing(lot_views(lots@), final(standing)@, *final(outcome)) == with_change(
            growing(lot_views(lots@), old(standing)@, *old(outcome)),
            path@,
            fit,
        ),
{
    let held: bool = find_lot(lots, path).is_some();
    if held {
        refit(standing, path, fit);
    }
    outcome.note_changed(held && fit == Fit::Built);
}

fn is_offered(offered: &Vec<u32>, id: u32) -> (r: bool)
    ensures
        r == offered@.contains(id),
{
    let mut i: usize = 0;
    while i < offered.len()
        invariant
            i <= offered@.len(),
            forall|k: int| 0 <= k < i ==> #[trigger] offered@[k] != id,
        decreases offered.len() - i,
    {
        if offered[i] == id {
            return true;
        }
        i = i + 1;
    }
    false
}

/// Puts a file that appeared on the lot chosen for it among those that are offered, and
/// notes what came of fitting its building there.
pub fn settle(
    lots: &mut Vec<Lot>,
    standing: &mut TextSet,
    outcome: &mut GrowthOutcome,
    path: &LogicalPath,
    offered: &Vec<u32>,
    host: Option<u32>,
    fit: Fit,
)
    requires
        old(standing).wf(),
        old(outcome).placed < usize::MAX,
    ensures
        final(standing).wf(),
        growing(lot_views(final(lots)@), final(standing)@, *final(outcome)) == with_file(
            growing(lot_views(old(lots)@), old(standing)@, *old(outcome)),
            path@,
            offered@,
            host,
            fit,
        ),
{
    let settled: bool = match host {
        Some(id) => is_offered(offered, id) && occupy(lots, id, path),
        None => false,
    };
    if settled {
        refit(standing, path, fit);
    }
    outcome.note_added(path, settled, fit == Fit::Built);
}

/// The files of a change that want a new building.
pub fn changed_files(delta: &RepoDelta) -> (r: Vec<LogicalPath>)
    ensures
        logical_views(r@) == changed_paths(
            logical_views(delta.resized@),
            logical_views(delta.retouched@),
        ),
        ascending(logical_views(r@)),
        forall|p: Seq<char>| #[trigger]
            logical_views(r@).contains(p) <==> logical_views(delta.resized@).contains(p)
                || logical_views(delta.retouched@).contains(p),
{
    let mut all: Vec<LogicalPath> = Vec::new();
    let mut i: usize = 0;
    while i < delta.resized.len()
        invariant
            i <= delta.resized@.len(),
            logical_views(all@) == logical_views(delta.resized@).subrange(0, i as int),
        decreases delta.resized.len() - i,
    {
        let ghost before = all@;
        all.push(delta.resized[i].copied());
        i = i + 1;
        assert(logical_views(all@) =~= logical_views(before).push(delta.resized@[i - 1]@));
        assert(logical_views(all@) =~= logical_views(delta.resized@).subrange(0, i as int));
    }
    let ghost first = logical_views(delta.resized@);
    assert(logical_views(all@) =~= first);
    assert(first =~= first + logical_views(delta.retouched@).subrange(0, 0));
    let mut k: usize = 0;
    while k < delta.retouched.len()
        invariant
            k <= delta.retouched@.len(),
            logical_views(all@) == first + logical_views(delta.retouched@).subrange(0, k as int),
        decreases delta.retouched.len() - k,
    {
        let ghost before = all@;
        all.push(delta.retouched[k].copied());
        k = k + 1;
        assert(logical_views(all@) =~= logical_views(before).push(delta.retouched@[k - 1]@));
        assert(logical_views(all@) =~= first + logical_views(delta.retouched@).subrange(
            0,
            k as int,
        ));
    }
    assert(logical_views(delta.retouched@).subrange(0, k as int) =~= logical_views(
        delta.retouched@,
    ));
    proof {
        let (a, b) = (first, logical_views(delta.retouched@));
        assert forall|p: Seq<char>| (a + b).contains(p) <==> a.contains(p) || b.contains(p) by {
            if a.contains(p) {
                assert((a + b)[a.index_of(p)] == p);
            }
            if b.contains(p) {
                assert((a + b)[a.len() + b.index_of(p)] == p);
            }
        }
    }
    let r: Vec<LogicalPath> = canonical_order(&all);
    assert forall|p: Seq<char>| #[trigger] logical_views(r@).contains(p) <==> logical_views(
        delta.resized@,
    ).contains(p) || logical_views(delta.retouched@).contains(p) by {
        assert(logical_views(r@).to_set().contains(p) <==> logical_views(all@).to_set().contains(
            p,
        ));
    }
    r
}

proof fn removed_counts(g: Growing, paths: Seq<Seq<char>>, n: nat)
    requires
        n <= paths.len(),
    ensures
        after_removed(g, paths, n).vacated <= g.vacated + n,
        after_removed(g, paths, n).updated == g.updated,
        after_removed(g, paths, n).placed == g.placed,
    decreases n,
{
    if n > 0 {
        removed_counts(g, paths, (n - 1) as nat);
    }
}

proof fn changed_counts(g: Growing, paths: Seq<Seq<char>>, fits: Seq<Fit>, n: nat)
    requires
        n <= paths.len(),
    ensures
        after_changed(g, paths, fits, n).updated <= g.updated + n,
        after_changed(g, paths, fits, n).placed == g.placed,
    decreases n,
{
    if n > 0 {
        changed_counts(g, paths, fits, (n - 1) as nat);
    }
}

proof fn added_counts(
    g: Growing,
    paths: Seq<Seq<char>>,
    offered: Seq<Seq<u32>>,
    hosts: Seq<Option<u32>>,
    fits: Seq<Fit>,
    n: nat,
)
    requires
        n <= paths.len(),
    ensures
        after_added(g, paths, offered, hosts, fits, n).placed <= g.placed + n,
    decreases n,
{
    if n > 0 {
        added_counts(g, paths, offered, hosts, fits, (n - 1) as nat);
    }
}

/// One growth step. For each file that changed `rebuilt` says what came of fitting its
/// building anew; for each that appeared `hosts` says which lot was chosen for it, if
/// any, and `built` what came of fitting its building there. Only a lot that the file's
/// district offers counts as chosen.
pub fn step(
    blocks: &Vec<Block>,
    lots: &mut Vec<Lot>,
    standing: &mut TextSet,
    delta: &RepoDelta,
    rebuilt: &Vec<Fit>,
    hosts: &Vec<Option<u32>>,
    built: &Vec<Fit>,
) -> (r: GrowthOutcome)
    requires
        old(standing).wf(),
        rebuilt@.len() == changed_paths(
            logical_views(delta.resized@),
            logical_views(delta.retouched@),
        ).len(),
        hosts@.len() == delta.added@.len(),
        built@.len() == delta.added@.len(),
    ensures
        final(standing).wf(),
        growing(lot_views(final(lots)@), final(standing)@, r) == after_step(
            blocks@,
            lot_views(old(lots)@),
            old(standing)@,
            canonical(logical_views(delta.removed@)),
            changed_paths(logical_views(delta.resized@), logical_views(delta.retouched@)),
            logical_views(delta.added@),
            rebuilt@,
            hosts@,
            built@,
        ),
{
    let mut outcome = GrowthOutcome::new();
    let ghost start = at_rest(lot_views(lots@), standing@);
    assert(logical_views(outcome.unplaced@) =~= seq![]);
    let removed = canonical_order(&delta.removed);
    let ghost gone = logical_views(removed@);
    let mut i: usize = 0;
    while i < removed.len()
        invariant
            i <= removed@.len(),
            gone == logical_views(removed@),
            start.placed == 0,
            start.vacated == 0,
            start.updated == 0,
            standing.wf(),
            growing(lot_views(lots@), standing@, outcome) == after_removed(start, gone, i as nat),
        decreases removed.len() - i,
    {
        proof {
            removed_counts(start, gone, i as nat);
        }
        take_away(lots, standing, &mut outcome, &removed[i]);
        i = i + 1;
    }
    proof {
        removed_counts(start, gone, gone.len());
    }
    let ghost first = after_removed(start, gone, gone.len());
    let changed = changed_files(delta);
    let ghost touched = logical_views(changed@);
    let mut k: usize = 0;
    while k < changed.len()
        invariant
            k <= changed@.len(),
            touched == logical_views(changed@),
            rebuilt@.len() == changed@.len(),
            first.placed == 0,
            first.updated == 0,
            standing.wf(),
            growing(lot_views(lots@), standing@, outcome) == after_changed(first, touched, rebuilt@, k as nat),
        decreases changed.len() - k,
    {
        proof {
            changed_counts(first, touched, rebuilt@, k as nat);
        }
        build_again(lots, standing, &mut outcome, &changed[k], rebuilt[k]);
        k = k + 1;
    }
    proof {
        changed_counts(first, touched, rebuilt@, touched.len());
    }
    let ghost second = after_changed(first, touched, rebuilt@, touched.len());
    let ghost fresh = logical_views(delta.added@);
    let by_district: TextMap<Vec<u32>> = lots_by_district(blocks, lots);
    let ghost offered = offers(blocks@, second.lots, fresh);
    let mut m: usize = 0;
    while m < delta.added.len()
        invariant
            m <= delta.added@.len(),
            fresh == logical_views(delta.added@),
            offered == offers(blocks@, second.lots, fresh),
            by_district.wf(),
            forall|d: Seq<char>| #[trigger]
                by_district@.dom().contains(d) <==> lots_in(
                    blocks@,
                    second.lots,
                    d,
                    second.lots.len(),
                ).len() > 0,
            forall|d: Seq<char>| #[trigger]
                by_district@.dom().contains(d) ==> by_district@[d]@ == lots_in(
                    blocks@,
                    second.lots,
                    d,
                    second.lots.len(),
                ),
            hosts@.len() == delta.added@.len(),
            built@.len() == delta.added@.len(),
            second.placed == 0,
            standing.wf(),
            growing(lot_views(lots@), standing@, outcome) == after_added(
                second,
                fresh,
                offered,
                hosts@,
                built@,
                m as nat,
            ),
        decreases delta.added.len() - m,
    {
        proof {
            added_counts(second, fresh, offered, hosts@, built@, m as nat);
            candidates_are_listed(
                blocks@,
                second.lots,
                by_district@,
                home_of(fresh[m as int]),
            );
        }
        let mine: Vec<u32> = host_candidates(&district_of(&delta.added[m]), &by_district);
        settle(lots, standing, &mut outcome, &delta.added[m], &mine, hosts[m], built[m]);
        m = m + 1;
    }
    outcome
}

proof fn removed_keeps(g: Growing, paths: Seq<Seq<char>>, n: nat)
    requires
        n <= paths.len(),
    ensures
        same_ground(g.lots, after_removed(g, paths, n).lots),
        after_removed(g, paths, n).unplaced == g.unplaced,
        after_removed(g, paths, n).rebuild_required == g.rebuild_required,
        forall|k: int|
            0 <= k < n ==> !after_removed(g, paths, n).standing.contains(#[trigger] paths[k]),
    decreases n,
{
    if n > 0 {
        removed_keeps(g, paths, (n - 1) as nat);
        lot_with_bounds(after_removed(g, paths, (n - 1) as nat).lots, paths[n - 1]);
    }
}

proof fn changed_keeps(g: Growing, paths: Seq<Seq<char>>, fits: Seq<Fit>, n: nat)
    requires
        n <= paths.len(),
    ensures
        after_changed(g, paths, fits, n).lots == g.lots,
        after_changed(g, paths, fits, n).unplaced == g.unplaced,
        after_changed(g, paths, fits, n).rebuild_required == g.rebuild_required,
    decreases n,
{
    if n > 0 {
        changed_keeps(g, paths, fits, (n - 1) as nat);
    }
}

proof fn added_keeps(
    g: Growing,
    paths: Seq<Seq<char>>,
    offered: Seq<Seq<u32>>,
    hosts: Seq<Option<u32>>,
    fits: Seq<Fit>,
    n: nat,
)
    requires
        n <= paths.len(),
        g.rebuild_required == (g.unplaced.len() > 0),
    ensures
        same_ground(g.lots, after_added(g, paths, offered, hosts, fits, n).lots),
        after_added(g, paths, offered, hosts, fits, n).rebuild_required == (after_added(
            g,
            paths,
            offered,
            hosts,
            fits,
            n,
        ).unplaced.len() > 0),
        after_added(g, paths, offered, hosts, fits, n).placed + after_added(
            g,
            paths,
            offered,
            hosts,
            fits,
            n,
        ).unplaced.len() <= g.placed + g.unplaced.len() + n,
        forall|k: int| 0 <= k < n && #[trigger] hosts[k] is None ==> after_added(
            g,
            paths,
            offered,
            hosts,
            fits,
            n,
        ).unplaced.contains(paths[k]),
    decreases n,
{
    if n > 0 {
        let m = (n - 1) as nat;
        added_keeps(g, paths, offered, hosts, fits, m);
        let before = after_added(g, paths, offered, hosts, fits, m);
        let after = after_added(g, paths, offered, hosts, fits, n);
        if let Some(id) = hosts[n - 1] {
            lot_numbered_bounds(before.lots, id);
        }
        assert forall|k: int| 0 <= k < n && #[trigger] hosts[k] is None implies after.unplaced.contains(
            paths[k],
        ) by {
            if k < m {
                let at = before.unplaced.index_of(paths[k]);
                assert(after.unplaced[at] == paths[k]);
            } else {
                assert(after.unplaced.last() == paths[k]);
            }
        }
    }
}

/// Are they the same lots of the same blocks, whoever is on them?
pub open spec fn same_ground(a: Seq<Parcel>, b: Seq<Parcel>) -> bool {
    a.len() == b.len() && forall|i: int|
        0 <= i < a.len() ==> (#[trigger] a[i]).id == b[i].id && a[i].block == b[i].block
}

/// No growth step makes a lot, takes one away, or moves one to another block: a file
/// that is gone leaves a vacant lot, not a hole.
pub proof fn a_step_keeps_the_ground(
    blocks: Seq<Block>,
    lots: Seq<Parcel>,
    standing: Set<Seq<char>>,
    removed: Seq<Seq<char>>,
    changed: Seq<Seq<char>>,
    added: Seq<Seq<char>>,
    rebuilt: Seq<Fit>,
    hosts: Seq<Option<u32>>,
    built: Seq<Fit>,
)
    ensures
        same_ground(
            lots,
            after_step(blocks, lots, standing, removed, changed, added, rebuilt, hosts, built).lots,
        ),
{
    let start = at_rest(lots, standing);
    removed_keeps(start, removed, removed.len());
    let first = after_removed(start, removed, removed.len());
    changed_keeps(first, changed, rebuilt, changed.len());
    let second = after_changed(first, changed, rebuilt, changed.len());
    added_keeps(
        second,
        added,
        offers(blocks, second.lots, added),
        hosts,
        built,
        added.len(),
    );
}

/// A growth step asks for new ground exactly where a file found none, it lists every
/// file that no lot was chosen for, and it places and lists no more files than appeared.
pub proof fn new_ground_is_asked_for(
    blocks: Seq<Block>,
    lots: Seq<Parcel>,
    standing: Set<Seq<char>>,
    removed: Seq<Seq<char>>,
    changed: Seq<Seq<char>>,
    added: Seq<Seq<char>>,
    rebuilt: Seq<Fit>,
    hosts: Seq<Option<u32>>,
    built: Seq<Fit>,
)
    ensures
        ({
            let g = after_step(blocks, lots, standing, removed, changed, added, rebuilt, hosts, built);
            &&& g.rebuild_required == (g.unplaced.len() > 0)
            &&& g.placed + g.unplaced.len() <= added.len()
            &&& forall|k: int|
                0 <= k < added.len() && #[trigger] hosts[k] is None ==> g.unplaced.contains(
                    added[k],
                )
        }),
{
    let start = at_rest(lots, standing);
    removed_keeps(start, removed, removed.len());
    removed_counts(start, removed, removed.len());
    let first = after_removed(start, removed, removed.len());
    changed_keeps(first, changed, rebuilt, changed.len());
    changed_counts(first, changed, rebuilt, changed.len());
    let second = after_changed(first, changed, rebuilt, changed.len());
    added_keeps(
        second,
        added,
        offers(blocks, second.lots, added),
        hosts,
        built,
        added.len(),
    );
}

/// Where a growth step only takes files away, none of them has a building after it.
pub proof fn what_is_gone_has_no_building(
    blocks: Seq<Block>,
    lots: Seq<Parcel>,
    standing: Set<Seq<char>>,
    removed: Seq<Seq<char>>,
)
    ensures
        forall|k: int|
            0 <= k < removed.len() ==> !after_step(
                blocks,
                lots,
                standing,
                removed,
                seq![],
                seq![],
                seq![],
                seq![],
                seq![],
            ).standing.contains(#[trigger] removed[k]),
{
    removed_keeps(at_rest(lots, standing), removed, removed.len());
}

proof fn removed_only_vacates(g: Growing, paths: Seq<Seq<char>>, n: nat)
    requires
        n <= paths.len(),
    ensures
        after_removed(g, paths, n).lots.len() == g.lots.len(),
        forall|j: int|
            0 <= j < g.lots.len() ==> {
                let now = #[trigger] after_removed(g, paths, n).lots[j];
                now == g.lots[j] || now == (Parcel { occupant: None, ..g.lots[j] })
            },
    decreases n,
{
    if n > 0 {
        removed_only_vacates(g, paths, (n - 1) as nat);
        lot_with_bounds(after_removed(g, paths, (n - 1) as nat).lots, paths[n - 1]);
    }
}

proof fn removed_frees(g: Growing, paths: Seq<Seq<char>>, n: nat, k: int, i: int)
    requires
        0 <= k < n <= paths.len(),
        0 <= i < g.lots.len(),
        g.lots[i].occupant == Some(paths[k]),
        forall|j: int|
            0 <= j < g.lots.len() && j != i ==> (#[trigger] g.lots[j]).occupant != Some(paths[k]),
    ensures
        after_removed(g, paths, n).lots[i].occupant is None,
    decreases n,
{
    let m = (n - 1) as nat;
    let before = after_removed(g, paths, m);
    removed_only_vacates(g, paths, m);
    lot_with_bounds(before.lots, paths[n - 1]);
    if k < n - 1 {
        removed_frees(g, paths, m, k, i);
    } else if before.lots[i].occupant is Some {
        assert(before.lots[i] == g.lots[i]);
        lot_with_finds(before.lots, paths[k], i);
        let q = lot_with(before.lots, paths[k])->0;
        assert(before.lots[q] == g.lots[q]);
    }
}

proof fn numbers_stay(a: Seq<Parcel>, b: Seq<Parcel>, id: u32)
    requires
        same_ground(a, b),
    ensures
        lot_numbered(a, id) == lot_numbered(b, id),
    decreases a.len(),
{
    if a.len() > 0 {
        let (x, y) = (a.drop_last(), b.drop_last());
        assert forall|i: int| 0 <= i < x.len() implies (#[trigger] x[i]).id == y[i].id
            && x[i].block == y[i].block by {
            assert(a[i].id == b[i].id);
        }
        numbers_stay(x, y, id);
        assert(a[a.len() - 1].id == b[b.len() - 1].id);
    }
}

/// The lot of a file that is gone may take a file that appeared in the same step, where it
/// is offered to it: that is how a renamed file keeps its ground.
pub proof fn freed_lots_may_be_taken(
    lots: Seq<Parcel>,
    standing: Set<Seq<char>>,
    removed: Seq<Seq<char>>,
    changed: Seq<Seq<char>>,
    rebuilt: Seq<Fit>,
    offered: Seq<u32>,
    k: int,
    i: int,
)
    requires
        0 <= k < removed.len(),
        0 <= i < lots.len(),
        lots[i].occupant == Some(removed[k]),
        forall|j: int|
            0 <= j < lots.len() && j != i ==> (#[trigger] lots[j]).occupant != Some(removed[k]),
        lot_numbered(lots, lots[i].id) == Some(i),
        offered.contains(lots[i].id),
    ensures
        takes(
            after_changed(
                after_removed(at_rest(lots, standing), removed, removed.len()),
                changed,
                rebuilt,
                changed.len(),
            ).lots,
            offered,
            Some(lots[i].id),
        ),
{
    let start = at_rest(lots, standing);
    removed_frees(start, removed, removed.len(), k, i);
    removed_keeps(start, removed, removed.len());
    let first = after_removed(start, removed, removed.len());
    changed_keeps(first, changed, rebuilt, changed.len());
    numbers_stay(lots, first.lots, lots[i].id);
}

/// A file that is gone has no building, and the first lot that it was on is vacant and
/// counted; every other building, lot and count is as it was.
pub proof fn a_removal_vacates_one_lot(g: Growing, path: Seq<char>)
    ensures
        ({
            let w = without_file(g, path);
            &&& !w.standing.contains(path)
            &&& forall|q: Seq<char>|
                q != path ==> (#[trigger] w.standing.contains(q) <==> g.standing.contains(q))
            &&& w.placed == g.placed && w.updated == g.updated && w.unplaced == g.unplaced
                && w.rebuild_required == g.rebuild_required
            &&& w.lots.len() == g.lots.len()
            &&& if exists|i: int|
                0 <= i < g.lots.len() && (#[trigger] g.lots[i]).occupant == Some(path) {
                &&& w.vacated == g.vacated + 1
                &&& exists|i: int|
                    {
                        &&& 0 <= i < g.lots.len()
                        &&& (#[trigger] g.lots[i]).occupant == Some(path)
                        &&& forall|j: int|
                            0 <= j < i ==> (#[trigger] g.lots[j]).occupant != Some(path)
                        &&& w.lots[i].occupant is None
                        &&& w.lots[i].id == g.lots[i].id && w.lots[i].block == g.lots[i].block
                        &&& forall|j: int|
                            0 <= j < g.lots.len() && j != i ==> #[trigger] w.lots[j] == g.lots[j]
                    }
            } else {
                w.vacated == g.vacated && w.lots == g.lots
            }
        }),
{
    crate::city::a_file_is_found_on_its_lot(g.lots, path);
    if let Some(i) = lot_with(g.lots, path) {
        assert(g.lots[i].occupant == Some(path));
    }
}

/// A file that changed is built anew only where it has a lot: it is counted where a
/// building fits, and loses its building where none does. A file without a lot, or one
/// that is not known, changes nothing, and no change moves a lot.
pub proof fn a_change_rebuilds_on_the_same_lot(g: Growing, path: Seq<char>, fit: Fit)
    ensures
        ({
            let w = with_change(g, path, fit);
            let housed = exists|i: int|
                0 <= i < g.lots.len() && (#[trigger] g.lots[i]).occupant == Some(path);
            &&& w.lots == g.lots && w.placed == g.placed && w.vacated == g.vacated && w.unplaced
                == g.unplaced && w.rebuild_required == g.rebuild_required
            &&& w.updated == if housed && fit == Fit::Built {
                (g.updated + 1) as nat
            } else {
                g.updated
            }
            &&& forall|q: Seq<char>|
                q != path ==> (#[trigger] w.standing.contains(q) <==> g.standing.contains(q))
            &&& w.standing.contains(path) <==> if housed && fit != Fit::Unknown {
                fit == Fit::Built
            } else {
                g.standing.contains(path)
            }
        }),
{
    crate::city::a_file_is_found_on_its_lot(g.lots, path);
    if let Some(i) = lot_with(g.lots, path) {
        assert(g.lots[i].occupant == Some(path));
    }
}

/// A file that appeared goes to the lot that was chosen for it where that is offered to
/// it and vacant, and to no other; it is counted as placed where a building fits. Where
/// it may not go there, it is listed and new ground is asked for, and the lots and
/// buildings stay.
pub proof fn an_arrival_takes_its_lot(
    g: Growing,
    path: Seq<char>,
    offered: Seq<u32>,
    host: Option<u32>,
    fit: Fit,
)
    ensures
        ({
            let w = with_file(g, path, offered, host, fit);
            let settles = exists|i: int|
                {
                    &&& 0 <= i < g.lots.len()
                    &&& host == Some((#[trigger] g.lots[i]).id)
                    &&& offered.contains(g.lots[i].id)
                    &&& g.lots[i].occupant is None
                    &&& forall|j: int| 0 <= j < i ==> (#[trigger] g.lots[j]).id != g.lots[i].id
                };
            &&& takes(g.lots, offered, host) == settles
            &&& w.vacated == g.vacated && w.updated == g.updated
            &&& w.lots.len() == g.lots.len()
            &&& forall|i: int|
                0 <= i < g.lots.len() ==> #[trigger] w.lots[i] == if settles && host == Some(g.lots[i].id)
                    && forall|j: int| 0 <= j < i ==> (#[trigger] g.lots[j]).id != g.lots[i].id {
                    Parcel { occupant: Some(path), ..g.lots[i] }
                } else {
                    g.lots[i]
                }
            &&& if settles {
                &&& w.unplaced == g.unplaced && w.rebuild_required == g.rebuild_required
                &&& w.placed == if fit == Fit::Built {
                    (g.placed + 1) as nat
                } else {
                    g.placed
                }
                &&& forall|q: Seq<char>| #[trigger]
                    w.standing.contains(q) <==> if q == path && fit != Fit::Unknown {
                        fit == Fit::Built
                    } else {
                        g.standing.contains(q)
                    }
            } else {
                &&& w.unplaced == g.unplaced.push(path) && w.rebuild_required
                &&& w.placed == g.placed && w.standing == g.standing
            }
        }),
{
    if let Some(id) = host {
        crate::city::a_number_finds_its_lot(g.lots, id);
        if let Some(i) = lot_numbered(g.lots, id) {
            assert(g.lots[i].id == id);
        }
    }
}

proof fn removed_folds(g: Growing, paths: Seq<Seq<char>>, n: nat)
    requires
        n <= paths.len(),
    ensures
        after_removed(g, paths, n) == paths.take(n as int).fold_left(
            g,
            |w: Growing, p: Seq<char>| without_file(w, p),
        ),
    decreases n,
{
    let f = |w: Growing, p: Seq<char>| without_file(w, p);
    if n > 0 {
        removed_folds(g, paths, (n - 1) as nat);
        fold_step(paths, g, f, n);
    }
}

/// A step with nothing to do leaves lots and buildings alone and counts nothing, and the
/// files that are gone are taken away one after another.
pub proof fn a_step_begins_with_what_is_gone(
    blocks: Seq<Block>,
    lots: Seq<Parcel>,
    standing: Set<Seq<char>>,
    removed: Seq<Seq<char>>,
)
    ensures
        after_step(blocks, lots, standing, removed, seq![], seq![], seq![], seq![], seq![])
            == removed.fold_left(
            (Growing {
                lots,
                standing,
                placed: 0,
                vacated: 0,
                updated: 0,
                unplaced: seq![],
                rebuild_required: false,
            }),
            |w: Growing, p: Seq<char>| without_file(w, p),
        ),
{
    removed_folds(at_rest(lots, standing), removed, removed.len());
    take_all(removed);
}

proof fn changed_so_far(
    g: Growing,
    paths: Seq<Seq<char>>,
    fits: Seq<Fit>,
    path: Seq<char>,
    fit: Fit,
    n: nat,
)
    requires
        n <= paths.len() == fits.len(),
    ensures
        after_changed(g, paths.push(path), fits.push(fit), n) == after_changed(g, paths, fits, n),
    decreases n,
{
    if n > 0 {
        changed_so_far(g, paths, fits, path, fit, (n - 1) as nat);
    }
}

/// One more changed file is fitted after the others have been.
pub proof fn changes_follow_one_another(
    blocks: Seq<Block>,
    lots: Seq<Parcel>,
    standing: Set<Seq<char>>,
    removed: Seq<Seq<char>>,
    changed: Seq<Seq<char>>,
    rebuilt: Seq<Fit>,
    path: Seq<char>,
    fit: Fit,
)
    requires
        rebuilt.len() == changed.len(),
    ensures
        after_step(
            blocks,
            lots,
            standing,
            removed,
            changed.push(path),
            seq![],
            rebuilt.push(fit),
            seq![],
            seq![],
        ) == with_change(
            after_step(
                blocks,
                lots,
                standing,
                removed,
                changed,
                seq![],
                rebuilt,
                seq![],
                seq![],
            ),
            path,
            fit,
        ),
{
    let g = after_removed(at_rest(lots, standing), removed, removed.len());
    changed_so_far(g, changed, rebuilt, path, fit, changed.len());
}

proof fn added_so_far(
    g: Growing,
    paths: Seq<Seq<char>>,
    offered: Seq<Seq<u32>>,
    hosts: Seq<Option<u32>>,
    fits: Seq<Fit>,
    more: Seq<Seq<char>>,
    lists: Seq<Seq<u32>>,
    ids: Seq<Option<u32>>,
    news: Seq<Fit>,
    n: nat,
)
    requires
        n <= paths.len() <= more.len(),
        forall|i: int|
            0 <= i < n ==> (#[trigger] more[i] == paths[i]) && lists[i] == offered[i] && ids[i]
                == hosts[i] && news[i] == fits[i],
    ensures
        after_added(g, more, lists, ids, news, n) == after_added(g, paths, offered, hosts, fits, n),
    decreases n,
{
    if n > 0 {
        added_so_far(g, paths, offered, hosts, fits, more, lists, ids, news, (n - 1) as nat);
        assert(more[n - 1] == paths[n - 1]);
    }
}

/// One more file that appeared is settled after the others, and what its district offers
/// is what was vacant there before any of them came.
pub proof fn arrivals_follow_one_another(
    blocks: Seq<Block>,
    lots: Seq<Parcel>,
    standing: Set<Seq<char>>,
    removed: Seq<Seq<char>>,
    changed: Seq<Seq<char>>,
    added: Seq<Seq<char>>,
    rebuilt: Seq<Fit>,
    hosts: Seq<Option<u32>>,
    built: Seq<Fit>,
    path: Seq<char>,
    host: Option<u32>,
    fit: Fit,
)
    requires
        hosts.len() == added.len() == built.len(),
    ensures
        after_step(
            blocks,
            lots,
            standing,
            removed,
            changed,
            added.push(path),
            rebuilt,
            hosts.push(host),
            built.push(fit),
        ) == with_file(
            after_step(blocks, lots, standing, removed, changed, added, rebuilt, hosts, built),
            path,
            candidate_lots(
                blocks,
                after_step(
                    blocks,
                    lots,
                    standing,
                    removed,
                    changed,
                    seq![],
                    rebuilt,
                    seq![],
                    seq![],
                ).lots,
                home_of(path),
            ),
            host,
            fit,
        ),
{
    let first = after_removed(at_rest(lots, standing), removed, removed.len());
    let second = after_changed(first, changed, rebuilt, changed.len());
    let some = offers(blocks, second.lots, added);
    let all = offers(blocks, second.lots, added.push(path));
    assert forall|i: int| 0 <= i < added.len() implies (#[trigger] added.push(path)[i] == added[i])
        && all[i] == some[i] && hosts.push(host)[i] == hosts[i] && built.push(fit)[i]
        == built[i] by {}
    added_so_far(
        second,
        added,
        some,
        hosts,
        built,
        added.push(path),
        all,
        hosts.push(host),
        built.push(fit),
        added.len(),
    );
}

/// A growth is shown as its lots, its buildings and what its outcome counts.
pub proof fn growth_is_shown_whole(lots: Seq<Parcel>, standing: Set<Seq<char>>, o: GrowthOutcome)
    ensures
        growing(lots, standing, o).lots == lots,
        growing(lots, standing, o).standing == standing,
        growing(lots, standing, o).placed == o.placed,
        growing(lots, standing, o).vacated == o.vacated,
        growing(lots, standing, o).updated == o.updated,
        growing(lots, standing, o).unplaced == logical_views(o.unplaced@),
        growing(lots, standing, o).rebuild_required == o.rebuild_required,
{
}

} // verus!
