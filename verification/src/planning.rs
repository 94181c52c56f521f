//! What a city is planned from: the files of the repository as the ground sees them,
//! how full its plots may get, how its history is read, and what its directories ask
//! for.
use vstd::prelude::*;

use crate::age::{is_calibrated, AgeRamp};
use crate::delta::{canonical, canonical_order};
use crate::folds::{filter_none, filter_step, take_all};
use crate::landmarks::{first_paths, looked_at, rank_monuments, Candidate};
use crate::logical::{logical_views, LogicalPath};
use crate::ordered::{TextMap, TextSet};
use crate::settlement::{
    caps_for_file_count, counter, demands, file_record, files_in, is_record, oldest_in, Caps,
    Demand, FileMeta, FileRec,
};
use crate::time::WallTime;

verus! {

/// A city as planned.
#[derive(Debug)]
pub struct Plan {
    /// The files, as far as the ground goes.
    pub files: Vec<FileRec>,
    /// How full plots may get.
    pub caps: Caps,
    /// How the history is read.
    pub ramp: AgeRamp,
    /// What every directory asks the ground for.
    pub demands: TextMap<Demand>,
}

/// Each file's place in the growth and its time.
pub open spec fn history(files: Seq<FileRec>) -> Seq<(u32, WallTime)> {
    Seq::new(files.len(), |i: int| (files[i].growth_index, files[i].added_at))
}

fn history_of(files: &Vec<FileRec>) -> (r: Vec<(u32, WallTime)>)
    ensures
        r@ == history(files@),
{
    let mut out: Vec<(u32, WallTime)> = Vec::new();
    let mut i: usize = 0;
    while i < files.len()
        invariant
            i <= files@.len(),
            out@ == history(files@).subrange(0, i as int),
        decreases files.len() - i,
    {
        out.push((files[i].growth_index, files[i].added_at));
        i = i + 1;
        assert(out@ =~= history(files@).subrange(0, i as int));
    }
    assert(out@ =~= history(files@));
    out
}

/// Plans a city: the strongest candidates are its monuments, and one reading of the
/// history serves all that follows.
pub fn plan_city(tree: &Vec<FileMeta>, candidates: &Vec<Candidate>) -> (r: Plan)
    ensures
        r.files@.len() == tree@.len(),
        forall|i: int|
            0 <= i < tree@.len() ==> is_record(
                tree@[i],
                first_paths(candidates@, looked_at(candidates@.len())).contains(tree@[i].path@),
                #[trigger] r.files@[i],
            ),
        r.caps == if tree@.len() < 400 {
            Caps { core: 1, rim: 2 }
        } else if tree@.len() < 2_000 {
            Caps { core: 2, rim: 5 }
        } else {
            Caps { core: 2, rim: 9 }
        },
        is_calibrated(history(r.files@), r.ramp),
        r.demands.wf(),
        forall|d: Seq<char>| #[trigger]
            r.demands@.dom().contains(d) <==> files_in(r.files@, d, r.files@.len()) > 0,
        forall|d: Seq<char>| #[trigger]
            r.demands@.dom().contains(d) ==> r.demands@[d] == (Demand {
                oldest: oldest_in(r.files@, d, r.files@.len()),
                files: counter(files_in(r.files@, d, r.files@.len())),
            }),
{
    let anchors: TextSet = rank_monuments(candidates);
    let mut files: Vec<FileRec> = Vec::new();
    let mut i: usize = 0;
    while i < tree.len()
        invariant
            i <= tree@.len(),
            anchors.wf(),
            files@.len() == i,
            forall|k: int|
                0 <= k < i ==> is_record(
                    tree@[k],
                    anchors@.contains(tree@[k].path@),
                    #[trigger] files@[k],
                ),
        decreases tree.len() - i,
    {
        let promoted: bool = anchors.contains(tree[i].path.as_str());
        files.push(file_record(&tree[i], promoted));
        i = i + 1;
    }
    let caps: Caps = caps_for_file_count(files.len());
    let ramp: AgeRamp = AgeRamp::calibrate(&history_of(&files));
    let wants: TextMap<Demand> = demands(&files);
    Plan { files, caps, ramp, demands: wants }
}

/// Where the first file with a path stands.
pub open spec fn file_at(tree: Seq<FileMeta>, path: Seq<char>, n: nat) -> Option<int>
    decreases n,
{
    if n == 0 || n > tree.len() {
        None
    } else {
        match file_at(tree, path, (n - 1) as nat) {
            Some(i) => Some(i),
            None => if tree[n - 1].path@ == path {
                Some(n - 1)
            } else {
                None
            },
        }
    }
}

proof fn file_stays(tree: Seq<FileMeta>, path: Seq<char>, n: nat, m: nat)
    requires
        n <= m <= tree.len(),
        file_at(tree, path, n) is Some,
    ensures
        file_at(tree, path, m) == file_at(tree, path, n),
    decreases m,
{
    if n < m {
        file_stays(tree, path, n, (m - 1) as nat);
    }
}

fn find_file(tree: &Vec<FileMeta>, path: &LogicalPath) -> (r: Option<usize>)
    ensures
        match r {
            Some(i) => i < tree@.len() && file_at(tree@, path@, tree@.len()) == Some(i as int),
            None => file_at(tree@, path@, tree@.len()) is None,
        },
{
    let mut i: usize = 0;
    while i < tree.len()
        invariant
            i <= tree@.len(),
            file_at(tree@, path@, i as nat) is None,
        decreases tree.len() - i,
    {
        if tree[i].path.same(path) {
            proof {
                file_stays(tree@, path@, (i + 1) as nat, tree@.len());
            }
            return Some(i);
        }
        i = i + 1;
    }
    None
}

/// Where the files of the first `n` paths stand, as far as the tree has them.
pub open spec fn files_at(tree: Seq<FileMeta>, paths: Seq<Seq<char>>, n: nat) -> Seq<int>
    decreases n,
{
    if n == 0 || n > paths.len() {
        seq![]
    } else {
        let before = files_at(tree, paths, (n - 1) as nat);
        match file_at(tree, paths[n - 1], tree.len()) {
            Some(i) => before.push(i),
            None => before,
        }
    }
}

/// The files that a city takes in, in the order in which it does: each path once, in
/// order, as far as the tree has it. None of them is a monument by rank.
pub fn newcomers(tree: &Vec<FileMeta>, added: &Vec<LogicalPath>) -> (r: Vec<FileRec>)
    ensures
        ({
            let paths = canonical(logical_views(added@));
            let at = files_at(tree@, paths, paths.len());
            &&& r@.len() == at.len()
            &&& forall|k: int|
                0 <= k < r@.len() ==> is_record(tree@[at[k]], false, #[trigger] r@[k])
        }),
{
    let order: Vec<LogicalPath> = canonical_order(added);
    let ghost paths = logical_views(order@);
    let mut out: Vec<FileRec> = Vec::new();
    let mut i: usize = 0;
    while i < order.len()
        invariant
            i <= order@.len(),
            paths == logical_views(order@),
            out@.len() == files_at(tree@, paths, i as nat).len(),
            forall|k: int|
                0 <= k < out@.len() ==> is_record(
                    tree@[files_at(tree@, paths, i as nat)[k]],
                    false,
                    #[trigger] out@[k],
                ),
        decreases order.len() - i,
    {
        if let Some(f) = find_file(tree, &order[i]) {
            out.push(file_record(&tree[f], false));
        }
        i = i + 1;
    }
    out
}

proof fn file_at_upto(tree: Seq<FileMeta>, path: Seq<char>, n: nat)
    requires
        n <= tree.len(),
    ensures
        match file_at(tree, path, n) {
            Some(i) => 0 <= i < n && tree[i].path@ == path && (forall|j: int|
                0 <= j < i ==> (#[trigger] tree[j]).path@ != path),
            None => forall|j: int| 0 <= j < n ==> (#[trigger] tree[j]).path@ != path,
        },
    decreases n,
{
    if n > 0 {
        file_at_upto(tree, path, (n - 1) as nat);
    }
}

/// A path finds the first file that has it, and none only where none has.
pub proof fn a_path_finds_its_file(tree: Seq<FileMeta>, path: Seq<char>)
    ensures
        match file_at(tree, path, tree.len()) {
            Some(i) => 0 <= i < tree.len() && tree[i].path@ == path && (forall|j: int|
                0 <= j < i ==> (#[trigger] tree[j]).path@ != path),
            None => forall|j: int| 0 <= j < tree.len() ==> (#[trigger] tree[j]).path@ != path,
        },
{
    file_at_upto(tree, path, tree.len());
}

proof fn files_at_upto(tree: Seq<FileMeta>, paths: Seq<Seq<char>>, n: nat)
    requires
        n <= paths.len(),
    ensures
        files_at(tree, paths, n) == paths.take(n as int).filter(
            |p: Seq<char>| exists|i: int| 0 <= i < tree.len() && (#[trigger] tree[i]).path@ == p,
        ).map_values(|p: Seq<char>| file_at(tree, p, tree.len())->0),
    decreases n,
{
    let known = |p: Seq<char>|
        exists|i: int| 0 <= i < tree.len() && (#[trigger] tree[i]).path@ == p;
    let place = |p: Seq<char>| file_at(tree, p, tree.len())->0;
    if n == 0 {
        filter_none(paths, known);
        assert(files_at(tree, paths, n) =~= paths.take(0).filter(known).map_values(place));
    } else {
        files_at_upto(tree, paths, (n - 1) as nat);
        filter_step(paths, known, n);
        file_at_upto(tree, paths[n - 1], tree.len());
        let before = paths.take(n - 1).filter(known);
        if file_at(tree, paths[n - 1], tree.len()) is Some {
            assert(tree[file_at(tree, paths[n - 1], tree.len())->0].path@ == paths[n - 1]);
        }
        assert(before.push(paths[n - 1]).map_values(place) =~= before.map_values(place).push(
            place(paths[n - 1]),
        ));
    }
}

/// The files of some paths are those that the tree has, in the order of the paths, each
/// where the tree has it.
pub proof fn unknown_newcomers_are_passed_over(tree: Seq<FileMeta>, paths: Seq<Seq<char>>)
    ensures
        files_at(tree, paths, paths.len()) == paths.filter(
            |p: Seq<char>| exists|i: int| 0 <= i < tree.len() && (#[trigger] tree[i]).path@ == p,
        ).map_values(|p: Seq<char>| file_at(tree, p, tree.len())->0),
{
    files_at_upto(tree, paths, paths.len());
    take_all(paths);
}

/// The history is each file's own growth index and time.
pub proof fn a_history_is_its_files(files: Seq<FileRec>)
    ensures
        history(files).len() == files.len(),
        forall|i: int|
            0 <= i < files.len() ==> (#[trigger] history(files)[i]).0 == files[i].growth_index
                && history(files)[i].1 == files[i].added_at,
{
}

} // verus!
