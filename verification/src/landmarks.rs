//! Landmarks: monuments, the masses that vendored trees are drawn as, and the
//! ground that directories without any are drawn on.
use vstd::prelude::*;

use crate::folds::{filter_none, filter_step, fold_step, take_all};
use crate::logical::{
    lies_in, parent_is_shorter, parent_path, what_holds_a_path_holds_its_parent, LogicalPath,
};
use crate::ordered::{TextMap, TextSet};
use crate::rng::FileClass;
use crate::settlement::{FileMeta, FileRec};
use crate::territory::{district_of, home_of};

verus! {

/// Most monuments that a city has.
pub const MAX_MONUMENTS: usize = 24;

/// The size that footprints are measured against where no file says otherwise.
pub const FOOTPRINT_REFERENCE_BYTES: u64 = 6_000;

/// What kind of entry point a file is.
#[derive(Debug, Clone, Copy, PartialEq, Eq, Structural)]
pub enum EntryPointKind {
    /// A program's main file.
    Main,
    /// A library's root.
    LibraryRoot,
    /// A command line.
    Cli,
    /// A server.
    Server,
    /// A router.
    Router,
    /// An index.
    Index,
}

/// A file that could be a monument.
#[derive(Debug)]
pub struct Candidate {
    /// The file.
    pub path: LogicalPath,
    /// The kind of entry point, if that is why.
    pub entry: Option<EntryPointKind>,
    /// How often it is imported.
    pub inbound: u32,
    /// Is it in the top decile of imports?
    pub top_decile: bool,
}

/// A monument.
#[derive(Debug)]
pub struct MonumentMark {
    /// The file.
    pub path: LogicalPath,
    /// Its rank, the strongest first.
    pub rank: u32,
    /// The kind of entry point, if that is why.
    pub entry: Option<EntryPointKind>,
    /// How often it is imported.
    pub inbound: u32,
    /// Is it in the top decile of imports?
    pub top_decile: bool,
}

/// A monument, as mathematics.
pub ghost struct Mark {
    pub path: Seq<char>,
    pub rank: int,
    pub entry: Option<EntryPointKind>,
    pub inbound: u32,
    pub top_decile: bool,
}

impl MonumentMark {
    /// The monument.
    pub open spec fn view(self) -> Mark {
        Mark {
            path: self.path@,
            rank: self.rank as int,
            entry: self.entry,
            inbound: self.inbound,
            top_decile: self.top_decile,
        }
    }
}

/// The monuments among the first `n` candidates: those with a building, ranked in
/// order.
pub open spec fn marks_of(c: Seq<Candidate>, placed: Set<Seq<char>>, n: nat) -> Seq<Mark>
    decreases n,
{
    if n == 0 || n > c.len() {
        seq![]
    } else {
        let before = marks_of(c, placed, (n - 1) as nat);
        let k = c[n - 1];
        if placed.contains(k.path@) {
            before.push(
                Mark {
                    path: k.path@,
                    rank: before.len() as int,
                    entry: k.entry,
                    inbound: k.inbound,
                    top_decile: k.top_decile,
                },
            )
        } else {
            before
        }
    }
}

/// How many candidates are looked at.
pub open spec fn looked_at(n: nat) -> nat {
    if n > MAX_MONUMENTS {
        MAX_MONUMENTS as nat
    } else {
        n
    }
}

/// Monuments, as mathematics.
pub open spec fn mark_views(v: Seq<MonumentMark>) -> Seq<Mark> {
    Seq::new(v.len(), |i: int| v[i]@)
}

/// The monuments, strongest first: of the first candidates those that got a
/// building.
pub fn monument_marks(candidates: &Vec<Candidate>, placed: &TextSet) -> (r: Vec<MonumentMark>)
    requires
        placed.wf(),
    ensures
        mark_views(r@) == marks_of(candidates@, placed@, looked_at(candidates@.len())),
        ({
            let first = if candidates@.len() < 24 {
                candidates@
            } else {
                candidates@.take(24)
            };
            let built = first.filter(|c: Candidate| placed@.contains(c.path@));
            &&& r@.len() == built.len()
            &&& forall|i: int|
                0 <= i < r@.len() ==> {
                    &&& (#[trigger] r@[i]).rank == i
                    &&& r@[i].path@ == built[i].path@
                    &&& r@[i].entry == built[i].entry
                    &&& r@[i].inbound == built[i].inbound
                    &&& r@[i].top_decile == built[i].top_decile
                }
        }),
{
    let ghost pred = |c: Candidate| placed@.contains(c.path@);
    let mut out: Vec<MonumentMark> = Vec::new();
    let mut i: usize = 0;
    assert(mark_views(out@) =~= seq![]);
    proof {
        filter_none(candidates@, pred);
    }
    while i < candidates.len() && i < MAX_MONUMENTS
        invariant
            i <= candidates@.len(),
            i <= MAX_MONUMENTS,
            placed.wf(),
            out@.len() <= i,
            mark_views(out@) == marks_of(candidates@, placed@, i as nat),
            pred == (|c: Candidate| placed@.contains(c.path@)),
            out@.len() == candidates@.take(i as int).filter(pred).len(),
            forall|k: int|
                0 <= k < out@.len() ==> {
                    let c = candidates@.take(i as int).filter(pred)[k];
                    &&& (#[trigger] out@[k]).rank == k
                    &&& out@[k].path@ == c.path@
                    &&& out@[k].entry == c.entry
                    &&& out@[k].inbound == c.inbound
                    &&& out@[k].top_decile == c.top_decile
                },
        decreases candidates.len() - i,
    {
        let c: &Candidate = &candidates[i];
        let ghost had = out@;
        proof {
            filter_step(candidates@, pred, (i + 1) as nat);
        }
        if placed.contains(c.path.as_str()) {
            let mark: MonumentMark = MonumentMark {
                path: c.path.copied(),
                rank: out.len() as u32,
                entry: c.entry,
                inbound: c.inbound,
                top_decile: c.top_decile,
            };
            out.push(mark);
            assert(mark_views(out@) =~= mark_views(had).push(mark@));
        }
        i = i + 1;
    }
    proof {
        take_all(candidates@);
    }
    out
}

/// The paths of the first `n` candidates.
pub open spec fn first_paths(c: Seq<Candidate>, n: nat) -> Set<Seq<char>>
    decreases n,
{
    if n == 0 || n > c.len() {
        Set::empty()
    } else {
        first_paths(c, (n - 1) as nat).insert(c[n - 1].path@)
    }
}

/// The files that are promoted to monuments: the first candidates, as many as a
/// city has.
pub fn rank_monuments(candidates: &Vec<Candidate>) -> (r: TextSet)
    ensures
        r.wf(),
        r@ == first_paths(candidates@, looked_at(candidates@.len())),
        forall|p: Seq<char>| #[trigger]
            r@.contains(p) <==> exists|i: int|
                0 <= i < candidates@.len() && i < 24 && (#[trigger] candidates@[i]).path@ == p,
{
    proof {
        first_paths_are(candidates@, looked_at(candidates@.len()));
    }
    let mut out: TextSet = TextSet::new();
    let mut i: usize = 0;
    while i < candidates.len() && i < MAX_MONUMENTS
        invariant
            i <= candidates@.len(),
            i <= MAX_MONUMENTS,
            out.wf(),
            out@ == first_paths(candidates@, i as nat),
        decreases candidates.len() - i,
    {
        let _ = out.insert(candidates[i].path.text.clone());
        i = i + 1;
    }
    out
}

/// The nearest directory at or above one that has ground.
pub open spec fn grounded(ground: Set<Seq<char>>, d: Seq<char>) -> Option<Seq<char>>
    decreases d.len(),
    via grounded_ends
{
    if ground.contains(d) {
        Some(d)
    } else {
        match parent_path(d) {
            Some(p) => grounded(ground, p),
            None => None,
        }
    }
}

#[via_fn]
proof fn grounded_ends(ground: Set<Seq<char>>, d: Seq<char>) {
    parent_is_shorter(d);
}

/// The nearest directory at or above one that has ground.
pub fn ancestor_with_ground(district: &LogicalPath, ground: &TextSet) -> (r: Option<LogicalPath>)
    requires
        ground.wf(),
    ensures
        match r {
            Some(p) => Some(p@),
            None => None,
        } == grounded(ground@, district@),
{
    let mut here: LogicalPath = district.copied();
    loop
        invariant
            ground.wf(),
            grounded(ground@, district@) == grounded(ground@, here@),
        decreases here@.len(),
    {
        if ground.contains(here.as_str()) {
            return Some(here);
        }
        proof {
            parent_is_shorter(here@);
        }
        match here.parent() {
            Some(p) => {
                here = p;
            },
            None => return None,
        }
    }
}

/// The directory that another's files are drawn on: the nearest above with ground,
/// else the first with ground, else the root.
pub open spec fn host(ground: Set<Seq<char>>, d: Seq<char>) -> Seq<char> {
    match grounded(ground, d) {
        Some(p) => p,
        None => {
            let order = crate::ordered::in_order(ground);
            if order.len() > 0 {
                order[0]
            } else {
                seq![]
            }
        },
    }
}

fn host_for(district: &LogicalPath, ground: &TextSet) -> (r: LogicalPath)
    requires
        ground.wf(),
    ensures
        r@ == host(ground@, district@),
{
    match ancestor_with_ground(district, ground) {
        Some(p) => p,
        None => {
            let n: usize = ground.len();
            proof {
                crate::ordered::in_order_is(ground.order(), ground@);
            }
            if n > 0 {
                LogicalPath { text: ground.at(0).clone() }
            } else {
                let r: LogicalPath = LogicalPath::root();
                assert(r@ =~= seq![]);
                r
            }
        },
    }
}

/// Does one of the first `n` files lie directly in a directory?
pub open spec fn homes(files: Seq<FileMeta>, d: Seq<char>, n: nat) -> bool {
    exists|i: int| 0 <= i < n && i < files.len() && home_of((#[trigger] files[i]).path@) == d
}

/// Which directory each directory's files are drawn on.
pub fn build_host_of(files: &Vec<FileMeta>, ground: &TextSet) -> (r: TextMap<LogicalPath>)
    requires
        ground.wf(),
    ensures
        r.wf(),
        forall|d: Seq<char>| #[trigger]
            r@.dom().contains(d) <==> homes(files@, d, files@.len()),
        forall|d: Seq<char>| #[trigger] r@.dom().contains(d) ==> r@[d]@ == host(ground@, d),
        forall|i: int|
            0 <= i < files@.len() ==> r@.dom().contains(home_of((#[trigger] files@[i]).path@)),
        forall|d: Seq<char>| #[trigger]
            r@.dom().contains(d) ==> exists|i: int|
                0 <= i < files@.len() && home_of((#[trigger] files@[i]).path@) == d,
{
    let mut out: TextMap<LogicalPath> = TextMap::new();
    let mut i: usize = 0;
    while i < files.len()
        invariant
            i <= files@.len(),
            ground.wf(),
            out.wf(),
            forall|d: Seq<char>| #[trigger]
                out@.dom().contains(d) <==> homes(files@, d, i as nat),
            forall|d: Seq<char>| #[trigger] out@.dom().contains(d) ==> out@[d]@ == host(ground@, d),
        decreases files.len() - i,
    {
        let home: LogicalPath = district_of(&files[i].path);
        let ghost had = out@;
        if !out.contains_key(home.as_str()) {
            let at: LogicalPath = host_for(&home, ground);
            out.insert(home.text.clone(), at);
        }
        proof {
            assert forall|d: Seq<char>| #[trigger] out@.dom().contains(d) <==> homes(
                files@,
                d,
                (i + 1) as nat,
            ) by {
                assert(had.dom().contains(d) <==> homes(files@, d, i as nat));
                if d == home@ {
                    assert(home_of(files@[i as int].path@) == d);
                }
                if homes(files@, d, i as nat) {
                    let k = choose|k: int|
                        0 <= k < i && k < files@.len() && home_of((#[trigger] files@[k]).path@)
                            == d;
                    assert(home_of(files@[k].path@) == d);
                }
                if homes(files@, d, (i + 1) as nat) && d != home@ {
                    let k = choose|k: int|
                        0 <= k < i + 1 && k < files@.len() && home_of(
                            (#[trigger] files@[k]).path@,
                        ) == d;
                    assert(k < i);
                    assert(homes(files@, d, i as nat));
                }
            }
        }
        i = i + 1;
    }
    out
}

/// One dull shape: how many files and bytes a vendored directory stands for.
#[derive(Debug)]
pub struct IndustrialMass {
    /// The directory.
    pub district: LogicalPath,
    /// The directory whose ground it is drawn on.
    pub host: LogicalPath,
    /// How many files, as far as a counter goes.
    pub files: u32,
    /// How many bytes, as far as a counter goes.
    pub bytes: u64,
}

/// How many of the first `n` files of a directory are massed.
pub open spec fn massed_files(files: Seq<FileMeta>, d: Seq<char>, n: nat) -> nat
    decreases n,
{
    if n == 0 || n > files.len() {
        0
    } else {
        massed_files(files, d, (n - 1) as nat) + if files[n - 1].class == FileClass::Industrial
            && home_of(files[n - 1].path@) == d {
            1nat
        } else {
            0nat
        }
    }
}

/// How many bytes the massed among the first `n` files of a directory have.
pub open spec fn massed_bytes(files: Seq<FileMeta>, d: Seq<char>, n: nat) -> nat
    decreases n,
{
    if n == 0 || n > files.len() {
        0
    } else {
        massed_bytes(files, d, (n - 1) as nat) + if files[n - 1].class == FileClass::Industrial
            && home_of(files[n - 1].path@) == d {
            files[n - 1].size_bytes as nat
        } else {
            0nat
        }
    }
}

/// The totals of a massed directory, as far as counters go.
pub open spec fn mass_totals(files: Seq<FileMeta>, d: Seq<char>) -> (u32, u64) {
    (
        crate::settlement::counter(massed_files(files, d, files.len())),
        crate::stats::saturated(massed_bytes(files, d, files.len()) as int),
    )
}

fn totals(files: &Vec<FileMeta>) -> (r: TextMap<(u32, u64)>)
    ensures
        r.wf(),
        forall|d: Seq<char>| #[trigger]
            r@.dom().contains(d) <==> massed_files(files@, d, files@.len()) > 0,
        forall|d: Seq<char>| #[trigger] r@.dom().contains(d) ==> r@[d] == mass_totals(files@, d),
{
    let mut out: TextMap<(u32, u64)> = TextMap::new();
    let mut i: usize = 0;
    while i < files.len()
        invariant
            i <= files@.len(),
            out.wf(),
            forall|d: Seq<char>| #[trigger]
                out@.dom().contains(d) <==> massed_files(files@, d, i as nat) > 0,
            forall|d: Seq<char>| #[trigger]
                out@.dom().contains(d) ==> out@[d] == (
                    crate::settlement::counter(massed_files(files@, d, i as nat)),
                    crate::stats::saturated(massed_bytes(files@, d, i as nat) as int),
                ),
        decreases files.len() - i,
    {
        if files[i].class.is_massed() {
            let home: LogicalPath = district_of(&files[i].path);
            let ghost had = out@;
            let (f, b) = match out.get(home.as_str()) {
                Some(t) => *t,
                None => (0u32, 0u64),
            };
            proof {
                if !had.dom().contains(home@) {
                    no_bytes(files@, home@, i as nat);
                }
            }
            out.insert(
                home.text.clone(),
                (f.saturating_add(1), b.saturating_add(files[i].size_bytes)),
            );
            proof {
                assert forall|d: Seq<char>| #[trigger] out@.dom().contains(d) <==> massed_files(
                    files@,
                    d,
                    (i + 1) as nat,
                ) > 0 by {
                    assert(had.dom().contains(d) <==> massed_files(files@, d, i as nat) > 0);
                }
                assert forall|d: Seq<char>| #[trigger] out@.dom().contains(d) implies out@[d] == (
                    crate::settlement::counter(massed_files(files@, d, (i + 1) as nat)),
                    crate::stats::saturated(massed_bytes(files@, d, (i + 1) as nat) as int),
                ) by {
                    if d != home@ {
                        assert(had.dom().contains(d));
                    }
                }
            }
        }
        i = i + 1;
    }
    out
}

proof fn no_bytes(files: Seq<FileMeta>, d: Seq<char>, n: nat)
    requires
        massed_files(files, d, n) == 0,
        n <= files.len(),
    ensures
        massed_bytes(files, d, n) == 0,
    decreases n,
{
    if n > 0 {
        no_bytes(files, d, (n - 1) as nat);
    }
}

/// The directory that a mass is drawn on: the one its files are drawn on, else the
/// nearest above with ground, else the first block's, else the root.
pub open spec fn mass_host(
    host_of: Map<Seq<char>, LogicalPath>,
    ground: Set<Seq<char>>,
    fallback: Option<Seq<char>>,
    d: Seq<char>,
) -> Seq<char> {
    if host_of.dom().contains(d) {
        host_of[d]@
    } else {
        match grounded(ground, d) {
            Some(p) => p,
            None => match fallback {
                Some(f) => f,
                None => seq![],
            },
        }
    }
}

/// An optional path, as mathematics.
pub open spec fn path_view(p: Option<LogicalPath>) -> Option<Seq<char>> {
    match p {
        Some(v) => Some(v@),
        None => None,
    }
}

/// The masses that vendored directories are drawn as, in path order.
pub fn industrial_masses(
    files: &Vec<FileMeta>,
    host_of: &TextMap<LogicalPath>,
    ground: &TextSet,
    fallback: &Option<LogicalPath>,
) -> (r: Vec<IndustrialMass>)
    requires
        host_of.wf(),
        ground.wf(),
    ensures
        crate::ordered::ascending(Seq::new(r@.len(), |i: int| r@[i].district@)),
        forall|d: Seq<char>|
            massed_files(files@, d, files@.len()) > 0 <==> exists|i: int|
                0 <= i < r@.len() && (#[trigger] r@[i]).district@ == d,
        forall|i: int|
            0 <= i < r@.len() ==> ((#[trigger] r@[i]).files, r@[i].bytes) == mass_totals(
                files@,
                r@[i].district@,
            ) && r@[i].host@ == mass_host(
                host_of@,
                ground@,
                path_view(*fallback),
                r@[i].district@,
            ),
{
    let t: TextMap<(u32, u64)> = totals(files);
    let n: usize = t.len();
    let ghost spare = path_view(*fallback);
    let mut out: Vec<IndustrialMass> = Vec::new();
    let mut i: usize = 0;
    while i < n
        invariant
            i <= n == t.keys().len(),
            t.wf(),
            host_of.wf(),
            ground.wf(),
            spare == path_view(*fallback),
            forall|d: Seq<char>| #[trigger] t@.dom().contains(d) ==> t@[d] == mass_totals(files@, d),
            out.len() == i,
            forall|k: int|
                0 <= k < i ==> (#[trigger] out@[k]).district@ == t.keys()[k] && (
                    out@[k].files,
                    out@[k].bytes,
                ) == mass_totals(files@, out@[k].district@) && out@[k].host@ == mass_host(
                    host_of@,
                    ground@,
                    spare,
                    out@[k].district@,
                ),
        decreases n - i,
    {
        let district: LogicalPath = LogicalPath { text: t.key_at(i).clone() };
        let (f, b) = *t.value_at(i);
        let at: LogicalPath = match host_of.get(district.as_str()) {
            Some(h) => h.copied(),
            None => match ancestor_with_ground(&district, ground) {
                Some(p) => p,
                None => match fallback {
                    Some(p) => p.copied(),
                    None => {
                        let r: LogicalPath = LogicalPath::root();
                        assert(r@ =~= seq![]);
                        r
                    },
                },
            },
        };
        out.push(IndustrialMass { district, host: at, files: f, bytes: b });
        i = i + 1;
    }
    proof {
        let keys = t.keys();
        assert(Seq::new(out@.len(), |i: int| out@[i].district@) =~= keys);
        assert forall|d: Seq<char>|
            massed_files(files@, d, files@.len()) > 0 <==> exists|i: int|
                0 <= i < out@.len() && (#[trigger] out@[i]).district@ == d by {
            assert(t@.dom().contains(d) <==> massed_files(files@, d, files@.len()) > 0);
            assert(keys.to_set().contains(d) <==> t@.dom().contains(d));
            if keys.contains(d) {
                let i = keys.index_of(d);
                assert(out@[i].district@ == d);
            }
            if exists|i: int| 0 <= i < out@.len() && (#[trigger] out@[i]).district@ == d {
                let i = choose|i: int| 0 <= i < out@.len() && (#[trigger] out@[i]).district@ == d;
                assert(keys[i] == d);
            }
        }
    }
    out
}

/// Is every file in a directory massed, and is there one? Never so of the root.
pub open spec fn all_massed(files: Seq<FileMeta>, d: Seq<char>) -> bool {
    &&& d.len() > 0
    &&& exists|i: int| 0 <= i < files.len() && lies_in((#[trigger] files[i]).path@, d)
    &&& forall|i: int|
        0 <= i < files.len() && lies_in((#[trigger] files[i]).path@, d) ==> files[i].class
            == FileClass::Industrial
}

/// Is every file in a directory massed, and is there one? Never so of the root.
pub fn is_industrial_district(files: &Vec<FileMeta>, district: &LogicalPath) -> (r: bool)
    ensures
        r == all_massed(files@, district@),
        r ==> district@.len() > 0,
        r ==> forall|i: int|
            0 <= i < files@.len() && (#[trigger] files@[i]).class != FileClass::Industrial
                ==> files@[i].path@ != district@ && !(files@[i].path@.len() > district@.len()
                && files@[i].path@.take(district@.len() as int) == district@
                && files@[i].path@[district@.len() as int] == '/'),
        !r && district@.len() > 0 ==> {
            ||| exists|i: int|
                0 <= i < files@.len() && (#[trigger] files@[i]).class != FileClass::Industrial && (
                files@[i].path@ == district@ || (files@[i].path@.len() > district@.len()
                    && files@[i].path@.take(district@.len() as int) == district@
                    && files@[i].path@[district@.len() as int] == '/'))
            ||| forall|i: int|
                0 <= i < files@.len() ==> (#[trigger] files@[i]).path@ != district@ && !(
                files@[i].path@.len() > district@.len() && files@[i].path@.take(
                    district@.len() as int,
                ) == district@ && files@[i].path@[district@.len() as int] == '/')
        },
{
    let mut any: bool = false;
    let mut i: usize = 0;
    while i < files.len()
        invariant
            i <= files@.len(),
            any == exists|k: int| 0 <= k < i && lies_in((#[trigger] files@[k]).path@, district@),
            forall|k: int|
                0 <= k < i && lies_in((#[trigger] files@[k]).path@, district@) ==> files@[k].class
                    == FileClass::Industrial,
        decreases files.len() - i,
    {
        if files[i].path.starts_with(district) {
            assert(lies_in(files@[i as int].path@, district@));
            if !files[i].class.is_massed() {
                return false;
            }
            any = true;
        }
        i = i + 1;
    }
    any && !district.is_root()
}

/// How many of the first `n` files that are not massed are smaller than a size.
pub open spec fn smaller(files: Seq<FileRec>, size: u64, n: nat) -> nat
    decreases n,
{
    if n == 0 || n > files.len() {
        0
    } else {
        smaller(files, size, (n - 1) as nat) + if !files[n - 1].industrial && files[n
            - 1].size_bytes < size {
            1nat
        } else {
            0nat
        }
    }
}

/// How many of the first `n` files that are not massed have a size.
pub open spec fn as_large(files: Seq<FileRec>, size: u64, n: nat) -> nat
    decreases n,
{
    if n == 0 || n > files.len() {
        0
    } else {
        as_large(files, size, (n - 1) as nat) + if !files[n - 1].industrial && files[n
            - 1].size_bytes == size {
            1nat
        } else {
            0nat
        }
    }
}

/// How many of the first `n` files are not massed.
pub open spec fn unmassed(files: Seq<FileRec>, n: nat) -> nat
    decreases n,
{
    if n == 0 || n > files.len() {
        0
    } else {
        unmassed(files, (n - 1) as nat) + if !files[n - 1].industrial {
            1nat
        } else {
            0nat
        }
    }
}

/// Is the size the lower median of the files that are not massed: would it stand in
/// the middle, the earlier of two, if they were put in order of size?
pub open spec fn is_median(files: Seq<FileRec>, size: u64) -> bool {
    let n = files.len();
    let middle = (unmassed(files, n) - 1) / 2;
    smaller(files, size, n) <= middle < smaller(files, size, n) + as_large(files, size, n)
}

fn count_below(files: &Vec<FileRec>, size: u64) -> (r: (usize, usize, usize))
    ensures
        r.0 == smaller(files@, size, files@.len()),
        r.1 == as_large(files@, size, files@.len()),
        r.2 == unmassed(files@, files@.len()),
{
    let mut a: usize = 0;
    let mut b: usize = 0;
    let mut c: usize = 0;
    let mut i: usize = 0;
    while i < files.len()
        invariant
            i <= files@.len(),
            a == smaller(files@, size, i as nat),
            b == as_large(files@, size, i as nat),
            c == unmassed(files@, i as nat),
            a <= i,
            b <= i,
            c <= i,
        decreases files.len() - i,
    {
        if !files[i].industrial {
            c = c + 1;
            if files[i].size_bytes < size {
                a = a + 1;
            }
            if files[i].size_bytes == size {
                b = b + 1;
            }
        }
        i = i + 1;
    }
    (a, b, c)
}

proof fn smaller_steps(files: Seq<FileRec>, a: u64, b: u64, n: nat)
    requires
        a < b,
        n <= files.len(),
    ensures
        smaller(files, a, n) + as_large(files, a, n) <= smaller(files, b, n),
        smaller(files, b, n) + as_large(files, b, n) <= unmassed(files, n),
    decreases n,
{
    if n > 0 {
        smaller_steps(files, a, b, (n - 1) as nat);
    }
}

/// There is a file of the median size.
proof fn median_exists(files: Seq<FileRec>, middle: int) -> (i: int)
    requires
        0 <= middle < unmassed(files, files.len()),
    ensures
        0 <= i < files.len(),
        !files[i].industrial,
        smaller(files, files[i].size_bytes, files.len()) <= middle < smaller(
            files,
            files[i].size_bytes,
            files.len(),
        ) + as_large(files, files[i].size_bytes, files.len()),
{
    let n = files.len();
    all_counted(files, n);
    let s = median_search(files, middle, u64::MAX);
    let k = as_large_witness(files, s, n);
    k
}

proof fn none_smaller(files: Seq<FileRec>, n: nat)
    requires
        n <= files.len(),
    ensures
        smaller(files, 0, n) == 0,
    decreases n,
{
    if n > 0 {
        none_smaller(files, (n - 1) as nat);
    }
}

proof fn all_counted(files: Seq<FileRec>, n: nat)
    requires
        n <= files.len(),
    ensures
        smaller(files, u64::MAX, n) + as_large(files, u64::MAX, n) == unmassed(files, n),
    decreases n,
{
    if n > 0 {
        all_counted(files, (n - 1) as nat);
    }
}

proof fn step_counts(files: Seq<FileRec>, s: u64, n: nat)
    requires
        n <= files.len(),
        s > 0,
    ensures
        smaller(files, s, n) == smaller(files, (s - 1) as u64, n) + as_large(
            files,
            (s - 1) as u64,
            n,
        ),
    decreases n,
{
    if n > 0 {
        step_counts(files, s, (n - 1) as nat);
    }
}

proof fn median_search(files: Seq<FileRec>, middle: int, top: u64) -> (s: u64)
    requires
        0 <= middle < smaller(files, top, files.len()) + as_large(files, top, files.len()),
    ensures
        smaller(files, s, files.len()) <= middle < smaller(files, s, files.len()) + as_large(
            files,
            s,
            files.len(),
        ),
    decreases top,
{
    if smaller(files, top, files.len()) <= middle {
        top
    } else if top == 0 {
        none_smaller(files, files.len());
        top
    } else {
        step_counts(files, top, files.len());
        median_search(files, middle, (top - 1) as u64)
    }
}

proof fn as_large_witness(files: Seq<FileRec>, s: u64, n: nat) -> (k: int)
    requires
        as_large(files, s, n) > 0,
        n <= files.len(),
    ensures
        0 <= k < n,
        !files[k].industrial,
        files[k].size_bytes == s,
    decreases n,
{
    if !files[n - 1].industrial && files[n - 1].size_bytes == s {
        n - 1
    } else {
        as_large_witness(files, s, (n - 1) as nat)
    }
}

/// The median size of the files that are not massed, at least one; the reference
/// size where all are.
pub fn median_file_size(files: &Vec<FileRec>) -> (r: u64)
    ensures
        unmassed(files@, files@.len()) == 0 ==> r == FOOTPRINT_REFERENCE_BYTES,
        unmassed(files@, files@.len()) > 0 ==> exists|m: u64| #[trigger]
            is_median(files@, m) && r == if m == 0 {
                1
            } else {
                m
            },
        ({
            let light = files@.filter(|f: FileRec| !f.industrial);
            &&& light.len() == 0 ==> r == 6_000
            &&& light.len() > 0 ==> r >= 1 && exists|m: u64| #[trigger]
                splits_evenly(light, m) && r == if m == 0 {
                    1
                } else {
                    m
                }
        }),
{
    proof {
        medians_split_evenly(files@);
    }
    let total: usize = count_below(files, 0).2;
    if total == 0 {
        return FOOTPRINT_REFERENCE_BYTES;
    }
    let middle: usize = (total - 1) / 2;
    let mut i: usize = 0;
    while i < files.len()
        invariant
            i <= files@.len(),
            total == unmassed(files@, files@.len()),
            total > 0,
            middle == (total - 1) / 2,
            forall|k: int|
                0 <= k < i && !(#[trigger] files@[k]).industrial ==> !is_median(
                    files@,
                    files@[k].size_bytes,
                ),
        decreases files.len() - i,
    {
        if !files[i].industrial {
            let size: u64 = files[i].size_bytes;
            let (a, b, _) = count_below(files, size);
            if a <= middle && (middle - a) < b {
                assert(is_median(files@, size));
                proof {
                    medians_split_evenly(files@);
                }
                return if size == 0 {
                    1
                } else {
                    size
                };
            }
        }
        i = i + 1;
    }
    proof {
        let k = median_exists(files@, middle as int);
        assert(is_median(files@, files@[k].size_bytes));
    }
    FOOTPRINT_REFERENCE_BYTES
}

/// Only one size is the median.
pub proof fn median_is_one(files: Seq<FileRec>, a: u64, b: u64)
    requires
        is_median(files, a),
        is_median(files, b),
    ensures
        a == b,
{
    if a < b {
        smaller_steps(files, a, b, files.len());
    } else if b < a {
        smaller_steps(files, b, a, files.len());
    }
}

/// Does a size stand in the middle of the sizes of some files, the earlier of two: are no
/// more than half of the others smaller, and are more than that no larger?
pub open spec fn splits_evenly(files: Seq<FileRec>, size: u64) -> bool {
    let middle = (files.len() - 1) / 2;
    &&& files.filter(|f: FileRec| f.size_bytes < size).len() <= middle
    &&& middle < files.filter(|f: FileRec| f.size_bytes <= size).len()
}

proof fn light_counts(files: Seq<FileRec>, size: u64, n: nat)
    requires
        n <= files.len(),
    ensures
        ({
            let light = files.take(n as int).filter(|f: FileRec| !f.industrial);
            &&& unmassed(files, n) == light.len()
            &&& smaller(files, size, n) == light.filter(|f: FileRec| f.size_bytes < size).len()
            &&& smaller(files, size, n) + as_large(files, size, n) == light.filter(
                |f: FileRec| f.size_bytes <= size,
            ).len()
        }),
    decreases n,
{
    reveal(Seq::filter);
    let pred = |f: FileRec| !f.industrial;
    if n == 0 {
        filter_none(files, pred);
    } else {
        light_counts(files, size, (n - 1) as nat);
        filter_step(files, pred, n);
        let light = files.take(n as int).filter(pred);
        let before = files.take(n - 1).filter(pred);
        if pred(files[n - 1]) {
            assert(light.drop_last() =~= before);
        }
    }
}

/// The median of the files that are not massed splits their sizes evenly.
pub proof fn medians_split_evenly(files: Seq<FileRec>)
    ensures
        ({
            let light = files.filter(|f: FileRec| !f.industrial);
            &&& unmassed(files, files.len()) == light.len()
            &&& forall|size: u64| #[trigger]
                is_median(files, size) <==> splits_evenly(light, size)
        }),
{
    take_all(files);
    light_counts(files, 0, files.len());
    let light = files.filter(|f: FileRec| !f.industrial);
    assert forall|size: u64| #[trigger] is_median(files, size) <==> splits_evenly(light, size) by {
        light_counts(files, size, files.len());
    }
}

proof fn first_paths_are(c: Seq<Candidate>, n: nat)
    requires
        n <= c.len(),
    ensures
        forall|p: Seq<char>| #[trigger]
            first_paths(c, n).contains(p) <==> exists|i: int|
                0 <= i < n && (#[trigger] c[i]).path@ == p,
    decreases n,
{
    if n > 0 {
        first_paths_are(c, (n - 1) as nat);
        assert forall|p: Seq<char>| #[trigger] first_paths(c, n).contains(p) <==> exists|i: int|
            0 <= i < n && (#[trigger] c[i]).path@ == p by {
            if first_paths(c, (n - 1) as nat).contains(p) {
                let i = choose|i: int| 0 <= i < n - 1 && (#[trigger] c[i]).path@ == p;
                assert(c[i].path@ == p);
            }
            if c[n - 1].path@ == p {
                assert(0 <= n - 1 < n);
            }
        }
    }
}

/// Of the directories at or above one, the nearest with ground is the longest that has
/// any; there is none only where none has.
pub proof fn the_nearest_ground_is_the_deepest(ground: Set<Seq<char>>, d: Seq<char>, q: Seq<char>)
    ensures
        grounded(ground, d) matches Some(p) ==> {
            &&& ground.contains(p)
            &&& p.len() == 0 || d == p || (d.len() > p.len() && d.take(p.len() as int) == p
                && d[p.len() as int] == '/')
        },
        ground.contains(q) && (q.len() == 0 || d == q || (d.len() > q.len() && d.take(
            q.len() as int,
        ) == q && d[q.len() as int] == '/')) ==> (grounded(ground, d) matches Some(p) && q.len()
            <= p.len()),
    decreases d.len(),
{
    parent_is_shorter(d);
    what_holds_a_path_holds_its_parent(d, q);
    if !ground.contains(d) {
        if let Some(p) = parent_path(d) {
            the_nearest_ground_is_the_deepest(ground, p, q);
            if let Some(g) = grounded(ground, p) {
                what_holds_a_path_holds_its_parent(d, g);
            }
        }
    }
}

/// A directory's files are drawn on its own ground where it has any, else on the nearest
/// ground above, and on ground at all where there is any.
pub proof fn files_are_drawn_on_ground(ground: Set<Seq<char>>, d: Seq<char>)
    requires
        ground.finite(),
    ensures
        ground.contains(d) ==> host(ground, d) == d,
        grounded(ground, d) matches Some(p) ==> host(ground, d) == p,
        grounded(ground, d) is None && ground.len() > 0 ==> ground.contains(host(ground, d))
            && forall|q: Seq<char>| #[trigger]
            ground.contains(q) ==> host(ground, d) == q || crate::text::text_lt(host(ground, d), q),
        ground.len() == 0 ==> host(ground, d).len() == 0,
{
    crate::ordered::in_order_exists(ground);
    let order = crate::ordered::in_order(ground);
    crate::ordered::ascending_len(order);
    if ground.len() == 0 {
        assert(!ground.contains(d)) by {
            if ground.contains(d) {
                assert(ground.remove(d).len() + 1 == ground.len());
            }
        }
        the_nearest_ground_is_the_deepest(ground, d, d);
        if let Some(p) = grounded(ground, d) {
            assert(ground.remove(p).len() + 1 == ground.len());
        }
    } else if grounded(ground, d) is None {
        assert(order.len() > 0);
        assert(order.to_set().contains(order[0]));
        assert forall|q: Seq<char>| #[trigger] ground.contains(q) implies order[0] == q
            || crate::text::text_lt(order[0], q) by {
            assert(order.to_set().contains(q));
            let i = order.index_of(q);
            assert(order[i] == q);
        }
    }
}

proof fn massed_counts(files: Seq<FileMeta>, d: Seq<char>, n: nat)
    requires
        n <= files.len(),
    ensures
        ({
            let mine = files.take(n as int).filter(
                |f: FileMeta| f.class == FileClass::Industrial && home_of(f.path@) == d,
            );
            &&& massed_files(files, d, n) == mine.len()
            &&& massed_bytes(files, d, n) == mine.fold_left(
                0int,
                |sum: int, f: FileMeta| sum + f.size_bytes,
            )
        }),
    decreases n,
{
    let pred = |f: FileMeta| f.class == FileClass::Industrial && home_of(f.path@) == d;
    if n == 0 {
        filter_none(files, pred);
    } else {
        massed_counts(files, d, (n - 1) as nat);
        filter_step(files, pred, n);
        let mine = files.take(n as int).filter(pred);
        if pred(files[n - 1]) {
            assert(mine.drop_last() =~= files.take(n - 1).filter(pred));
        }
    }
}

/// A mass stands for all the massed files that lie directly in its directory, and for all
/// their bytes, as far as a counter goes.
pub proof fn a_mass_stands_for_its_files(files: Seq<FileMeta>, d: Seq<char>)
    ensures
        ({
            let mine = files.filter(
                |f: FileMeta| f.class == FileClass::Industrial && home_of(f.path@) == d,
            );
            let bytes = mine.fold_left(0int, |sum: int, f: FileMeta| sum + f.size_bytes);
            &&& massed_files(files, d, files.len()) == mine.len()
            &&& mass_totals(files, d).0 == if mine.len() > 0xffff_ffff {
                0xffff_ffff
            } else {
                mine.len() as int
            }
            &&& mass_totals(files, d).1 == if bytes > 0xffff_ffff_ffff_ffff {
                0xffff_ffff_ffff_ffff
            } else {
                bytes
            }
        }),
{
    take_all(files);
    massed_counts(files, d, files.len());
}

proof fn marks_upto(c: Seq<Candidate>, placed: Set<Seq<char>>, n: nat)
    requires
        n <= c.len(),
        n <= u32::MAX,
    ensures
        ({
            let built = c.take(n as int).filter(|x: Candidate| placed.contains(x.path@));
            let m = marks_of(c, placed, n);
            &&& m.len() == built.len() <= n
            &&& forall|i: int|
                0 <= i < m.len() ==> {
                    &&& (#[trigger] m[i]).rank == i
                    &&& m[i].path == built[i].path@
                    &&& m[i].entry == built[i].entry
                    &&& m[i].inbound == built[i].inbound
                    &&& m[i].top_decile == built[i].top_decile
                }
        }),
    decreases n,
{
    let pred = |x: Candidate| placed.contains(x.path@);
    if n == 0 {
        filter_none(c, pred);
    } else {
        marks_upto(c, placed, (n - 1) as nat);
        filter_step(c, pred, n);
    }
}

/// The monuments are those of the first twenty-four candidates that have a building,
/// ranked from nought in the candidates' order, each with what is known of it.
pub proof fn monuments_are_ranked_in_order(c: Seq<Candidate>, placed: Set<Seq<char>>)
    ensures
        ({
            let first = if c.len() < 24 {
                c
            } else {
                c.take(24)
            };
            let built = first.filter(|x: Candidate| placed.contains(x.path@));
            let m = marks_of(c, placed, looked_at(c.len()));
            &&& m.len() == built.len()
            &&& forall|i: int|
                0 <= i < m.len() ==> {
                    &&& (#[trigger] m[i]).rank == i
                    &&& m[i].path == built[i].path@
                    &&& m[i].entry == built[i].entry
                    &&& m[i].inbound == built[i].inbound
                    &&& m[i].top_decile == built[i].top_decile
                }
        }),
{
    marks_upto(c, placed, looked_at(c.len()));
    take_all(c);
}

/// A mass stands where its directory's files are drawn, else on the nearest ground above
/// it, else with the first block, and on the root where there is none.
pub proof fn a_mass_stands_where_its_files_are_drawn(
    host_of: Map<Seq<char>, LogicalPath>,
    ground: Set<Seq<char>>,
    fallback: Option<Seq<char>>,
    d: Seq<char>,
)
    ensures
        ({
            let at = mass_host(host_of, ground, fallback, d);
            &&& host_of.contains_key(d) ==> at == host_of[d]@
            &&& !host_of.contains_key(d) && grounded(ground, d) is Some ==> at == grounded(
                ground,
                d,
            )->0
            &&& !host_of.contains_key(d) && grounded(ground, d) is None && fallback is Some ==> at
                == fallback->0
            &&& !host_of.contains_key(d) && grounded(ground, d) is None && fallback is None
                ==> at.len() == 0
        }),
{
}

/// A list of marks is shown mark by mark, each whole.
pub proof fn marks_are_shown_whole(v: Seq<MonumentMark>)
    ensures
        mark_views(v).len() == v.len(),
        forall|i: int|
            0 <= i < v.len() ==> {
                let m = #[trigger] mark_views(v)[i];
                &&& m.path == v[i].path@
                &&& m.rank == v[i].rank
                &&& m.entry == v[i].entry
                &&& m.inbound == v[i].inbound
                &&& m.top_decile == v[i].top_decile
            },
{
}

/// A directory has files exactly where one of the files lies directly in it.
pub proof fn a_directory_has_the_files_that_lie_in_it(files: Seq<FileMeta>, d: Seq<char>)
    ensures
        homes(files, d, files.len()) <==> files.map_values(
            |f: FileMeta| home_of(f.path@),
        ).contains(d),
{
    let all = files.map_values(|f: FileMeta| home_of(f.path@));
    if homes(files, d, files.len()) {
        let i = choose|i: int|
            0 <= i < files.len() && i < files.len() && home_of((#[trigger] files[i]).path@) == d;
        assert(all[i] == d);
    }
    if all.contains(d) {
        let i = all.index_of(d);
        assert(home_of(files[i].path@) == d);
    }
}

} // verus!
