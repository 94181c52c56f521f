//! The settled ground: which plot every file is on, and which plots every
//! district has.
use vstd::prelude::*;

use crate::folds::{filter_none, filter_step, take_all};
use crate::logical::LogicalPath;
use crate::ordered::TextMap;
use crate::rng::FileClass;
use crate::sort::Ranked;
use crate::territory::{district_of, home_of};
use crate::text::{text_lt, text_lt_irreflexive, text_lt_total, text_lt_transitive};
use crate::time::WallTime;

verus! {

/// One file, as far as the ground goes.
#[derive(Debug)]
pub struct FileRec {
    /// Where it stands in the repository.
    pub path: LogicalPath,
    /// Its size, at least one.
    pub size_bytes: u64,
    /// Its place in the growth of the repository.
    pub growth_index: u32,
    /// When it was added.
    pub added_at: WallTime,
    /// Is it drawn as part of one mass?
    pub industrial: bool,
    /// Is it an anchor of the map?
    pub monument: bool,
}

/// A file of the repository's index.
#[derive(Debug)]
pub struct FileMeta {
    /// Where it stands.
    pub path: LogicalPath,
    /// Its size.
    pub size_bytes: u64,
    /// Its place in the growth of the repository.
    pub growth_index: u32,
    /// When it was added.
    pub added_at: WallTime,
    /// How the landmark layer treats it.
    pub class: FileClass,
}

/// Is it the file as far as the ground goes?
pub open spec fn is_record(meta: FileMeta, monument: bool, r: FileRec) -> bool {
    &&& r.path == meta.path
    &&& r.size_bytes == if meta.size_bytes == 0 {
        1u64
    } else {
        meta.size_bytes
    }
    &&& r.growth_index == meta.growth_index
    &&& r.added_at == meta.added_at
    &&& r.industrial == (meta.class == FileClass::Industrial)
    &&& r.monument == (monument || meta.class == FileClass::Monument)
}

/// The file as far as the ground goes.
pub fn file_record(meta: &FileMeta, monument: bool) -> (r: FileRec)
    ensures
        is_record(*meta, monument, r),
        r.path == meta.path,
        r.size_bytes >= 1,
        meta.size_bytes >= 1 ==> r.size_bytes == meta.size_bytes,
        meta.size_bytes == 0 ==> r.size_bytes == 1,
        r.growth_index == meta.growth_index,
        r.added_at == meta.added_at,
        r.industrial <==> meta.class == FileClass::Industrial,
        r.monument <==> monument || meta.class == FileClass::Monument,
{
    FileRec {
        path: meta.path.copied(),
        size_bytes: if meta.size_bytes == 0 {
            1
        } else {
            meta.size_bytes
        },
        growth_index: meta.growth_index,
        added_at: meta.added_at,
        industrial: meta.class.is_massed(),
        monument: monument || meta.class == FileClass::Monument,
    }
}

/// Files are replayed by growth index, then by path.
impl Ranked for FileRec {
    open spec fn ahead(self, other: Self) -> bool {
        self.growth_index < other.growth_index || (self.growth_index == other.growth_index
            && text_lt(self.path@, other.path@))
    }

    proof fn ahead_one_way(a: Self, b: Self) {
        if b.ahead(a) {
            text_lt_transitive(a.path@, b.path@, a.path@);
            text_lt_irreflexive(a.path@);
        }
    }

    proof fn behind_carries(a: Self, b: Self, c: Self) {
        if a.ahead(c) && a.growth_index == c.growth_index && b.growth_index == a.growth_index {
            text_lt_total(a.path@, b.path@);
            text_lt_total(b.path@, c.path@);
            if text_lt(b.path@, a.path@) {
                text_lt_transitive(b.path@, a.path@, c.path@);
            }
        }
    }

    fn is_ahead(&self, other: &Self) -> (r: bool) {
        self.growth_index < other.growth_index || (self.growth_index == other.growth_index
            && self.path.less(&other.path))
    }
}

/// The files in the order they are replayed, whatever order they came in.
pub fn growth_order(files: Vec<FileRec>) -> (r: Vec<FileRec>)
    ensures
        crate::sort::in_rank(r@),
        r@.to_multiset() == files@.to_multiset(),
        r.len() == files.len(),
        forall|i: int, j: int|
            0 <= i < j < r@.len() ==> (#[trigger] r@[i]).growth_index < (
            #[trigger] r@[j]).growth_index || (r@[i].growth_index == r@[j].growth_index && (
            r@[i].path@ == r@[j].path@ || text_lt(r@[i].path@, r@[j].path@))),
{
    let r: Vec<FileRec> = crate::sort::ranked(files);
    proof {
        assert forall|i: int, j: int| 0 <= i < j < r@.len() implies (
        #[trigger] r@[i]).growth_index < (#[trigger] r@[j]).growth_index || (r@[i].growth_index
            == r@[j].growth_index && (r@[i].path@ == r@[j].path@ || text_lt(
            r@[i].path@,
            r@[j].path@,
        ))) by {
            assert(!r@[j].ahead(r@[i]));
            text_lt_total(r@[i].path@, r@[j].path@);
        }
    }
    r
}

/// What a directory asks the ground for.
#[derive(Debug, Clone, Copy, PartialEq, Eq, Structural)]
pub struct Demand {
    /// The growth index of its oldest file.
    pub oldest: u32,
    /// How many files it has, as far as a counter goes.
    pub files: u32,
}

/// How many of the first `n` files lie directly in a directory.
pub open spec fn files_in(files: Seq<FileRec>, d: Seq<char>, n: nat) -> nat
    decreases n,
{
    if n == 0 || n > files.len() {
        0
    } else {
        files_in(files, d, (n - 1) as nat) + if home_of(files[n - 1].path@) == d {
            1nat
        } else {
            0nat
        }
    }
}

/// The least growth index of the first `n` files that lie directly in a directory.
pub open spec fn oldest_in(files: Seq<FileRec>, d: Seq<char>, n: nat) -> u32
    decreases n,
{
    if n == 0 || n > files.len() {
        u32::MAX
    } else {
        let before = oldest_in(files, d, (n - 1) as nat);
        if home_of(files[n - 1].path@) == d && files[n - 1].growth_index < before {
            files[n - 1].growth_index
        } else {
            before
        }
    }
}

/// A count as far as a counter goes.
pub open spec fn counter(n: nat) -> u32 {
    if n > u32::MAX {
        u32::MAX
    } else {
        n as u32
    }
}

/// What every directory with files asks the ground for, in path order.
pub fn demands(files: &Vec<FileRec>) -> (r: TextMap<Demand>)
    ensures
        r.wf(),
        forall|d: Seq<char>| #[trigger]
            r@.dom().contains(d) <==> files_in(files@, d, files@.len()) > 0,
        forall|d: Seq<char>| #[trigger]
            r@.dom().contains(d) ==> r@[d] == (Demand {
                oldest: oldest_in(files@, d, files@.len()),
                files: counter(files_in(files@, d, files@.len())),
            }),
{
    let mut out: TextMap<Demand> = TextMap::new();
    let mut i: usize = 0;
    while i < files.len()
        invariant
            i <= files@.len(),
            out.wf(),
            forall|d: Seq<char>| #[trigger]
                out@.dom().contains(d) <==> files_in(files@, d, i as nat) > 0,
            forall|d: Seq<char>| #[trigger]
                out@.dom().contains(d) ==> out@[d] == (Demand {
                    oldest: oldest_in(files@, d, i as nat),
                    files: counter(files_in(files@, d, i as nat)),
                }),
        decreases files.len() - i,
    {
        let home: LogicalPath = district_of(&files[i].path);
        let ghost had = out@;
        let so_far: Demand = match out.get(home.as_str()) {
            Some(d) => *d,
            None => Demand { oldest: 0xffff_ffff, files: 0 },
        };
        proof {
            if !had.dom().contains(home@) {
                none_in(files@, home@, i as nat);
            }
        }
        let oldest: u32 = if files[i].growth_index < so_far.oldest {
            files[i].growth_index
        } else {
            so_far.oldest
        };
        out.insert(home.text.clone(), Demand { oldest, files: so_far.files.saturating_add(1) });
        proof {
            assert forall|d: Seq<char>| #[trigger] out@.dom().contains(d) <==> files_in(
                files@,
                d,
                (i + 1) as nat,
            ) > 0 by {
                assert(had.dom().contains(d) <==> files_in(files@, d, i as nat) > 0);
            }
            assert forall|d: Seq<char>| #[trigger] out@.dom().contains(d) implies out@[d] == (
            Demand {
                oldest: oldest_in(files@, d, (i + 1) as nat),
                files: counter(files_in(files@, d, (i + 1) as nat)),
            }) by {
                if d != home@ {
                    assert(had.dom().contains(d));
                }
            }
        }
        i = i + 1;
    }
    out
}

proof fn none_in(files: Seq<FileRec>, d: Seq<char>, n: nat)
    requires
        files_in(files, d, n) == 0,
        n <= files.len(),
    ensures
        oldest_in(files, d, n) == u32::MAX,
    decreases n,
{
    if n > 0 {
        none_in(files, d, (n - 1) as nat);
    }
}

proof fn prefix_counts(a: Seq<FileRec>, b: Seq<FileRec>, d: Seq<char>, n: nat)
    requires
        n <= a.len(),
        n <= b.len(),
        forall|i: int| 0 <= i < n ==> #[trigger] a[i] == b[i],
    ensures
        files_in(a, d, n) == files_in(b, d, n),
        oldest_in(a, d, n) == oldest_in(b, d, n),
    decreases n,
{
    if n > 0 {
        prefix_counts(a, b, d, (n - 1) as nat);
    }
}

proof fn without_one(s: Seq<FileRec>, d: Seq<char>, j: int)
    requires
        0 <= j < s.len(),
    ensures
        ({
            let rest = s.remove(j);
            let here = home_of(s[j].path@) == d;
            &&& files_in(s, d, s.len()) == files_in(rest, d, rest.len()) + if here {
                1nat
            } else {
                0nat
            }
            &&& oldest_in(s, d, s.len()) == if here && s[j].growth_index < oldest_in(
                rest,
                d,
                rest.len(),
            ) {
                s[j].growth_index
            } else {
                oldest_in(rest, d, rest.len())
            }
        }),
    decreases s.len(),
{
    let n = s.len();
    let rest = s.remove(j);
    let front = s.drop_last();
    prefix_counts(s, front, d, (n - 1) as nat);
    if j == n - 1 {
        assert(rest =~= front);
    } else {
        without_one(front, d, j);
        let less = front.remove(j);
        assert(rest =~= less.push(s.last()));
        prefix_counts(rest, less, d, less.len());
        assert(rest[rest.len() - 1] == s.last());
    }
}

/// What a directory asks for depends on its files alone, not on the order in which
/// they came.
pub proof fn demands_ignore_order(a: Seq<FileRec>, b: Seq<FileRec>, d: Seq<char>)
    requires
        a.to_multiset() == b.to_multiset(),
    ensures
        files_in(a, d, a.len()) == files_in(b, d, b.len()),
        oldest_in(a, d, a.len()) == oldest_in(b, d, b.len()),
    decreases a.len(),
{
    broadcast use vstd::seq_lib::group_to_multiset_ensures;

    a.to_multiset_ensures();
    b.to_multiset_ensures();
    assert(a.len() == b.len());
    if a.len() > 0 {
        let x = a.last();
        assert(a.to_multiset().count(x) > 0);
        assert(b.contains(x));
        let j = b.index_of(x);
        let a1 = a.remove(a.len() - 1);
        let b1 = b.remove(j);
        assert(a1.to_multiset() =~= b1.to_multiset());
        demands_ignore_order(a1, b1, d);
        without_one(a, d, a.len() - 1);
        without_one(b, d, j);
    }
}

/// How full plots may get, by the number of files.
#[derive(Debug, Clone, Copy, PartialEq, Eq, Structural)]
pub struct Caps {
    /// Files on a plot of the core.
    pub core: u32,
    /// Files on a plot of the rim.
    pub rim: u32,
}

/// How full plots may get in a repository of so many files.
pub fn caps_for_file_count(files: usize) -> (r: Caps)
    ensures
        r == if files < 400 {
            Caps { core: 1, rim: 2 }
        } else if files < 2_000 {
            Caps { core: 2, rim: 5 }
        } else {
            Caps { core: 2, rim: 9 }
        },
{
    if files < 400 {
        Caps { core: 1, rim: 2 }
    } else if files < 2_000 {
        Caps { core: 2, rim: 5 }
    } else {
        Caps { core: 2, rim: 9 }
    }
}

/// A settled plot.
#[derive(Debug)]
pub struct Plot {
    /// Its district.
    pub district: u32,
    /// The files on it.
    pub files: Vec<u32>,
    /// How many files it may hold.
    pub cap: u32,
    /// The growth index of its ground.
    pub birth: u32,
}

/// How a plot came to be where it is.
#[derive(Debug, Clone, Copy, PartialEq, Eq, Structural)]
pub enum Rung {
    /// Beside its own district's ground, or its district's first.
    Clean,
    /// Beside the town, but not beside its own district's ground.
    Nonadjacent,
    /// At the edge of the town.
    Anywhere,
    /// Nowhere that fits.
    Detached,
}

/// The plots by how they came to be.
#[derive(Debug, Clone, Copy, PartialEq, Eq, Structural)]
pub struct Relaxations {
    /// Beside their own district's ground.
    pub clean: usize,
    /// Beside the town only.
    pub nonadjacent: usize,
    /// At the fringe of their own district: none, since no plot is held to one.
    pub fringe: usize,
    /// In a district above their own: none, since no plot is held to one.
    pub ancestor: usize,
    /// At the edge of the town.
    pub anywhere: usize,
    /// Nowhere that fits.
    pub detached: usize,
}

impl Relaxations {
    /// How many plots are counted.
    pub open spec fn total(self) -> int {
        self.clean + self.nonadjacent + self.anywhere + self.detached
    }

    /// The counts with one more.
    pub open spec fn with(self, rung: Rung) -> Relaxations {
        match rung {
            Rung::Clean => Relaxations { clean: (self.clean + 1) as usize, ..self },
            Rung::Nonadjacent => Relaxations {
                nonadjacent: (self.nonadjacent + 1) as usize,
                ..self
            },
            Rung::Anywhere => Relaxations { anywhere: (self.anywhere + 1) as usize, ..self },
            Rung::Detached => Relaxations { detached: (self.detached + 1) as usize, ..self },
        }
    }
}

/// How a plot comes to be: beside its district's ground where that is asked and
/// found, else beside the town, else at its edge, else nowhere.
pub fn rung_of(rooted: bool, touching: bool, near: bool, edge: bool) -> (r: Rung)
    ensures
        r == if rooted && touching {
            Rung::Clean
        } else if near {
            if rooted {
                Rung::Nonadjacent
            } else {
                Rung::Clean
            }
        } else if edge {
            Rung::Anywhere
        } else {
            Rung::Detached
        },
{
    if rooted && touching {
        Rung::Clean
    } else if near {
        if rooted {
            Rung::Nonadjacent
        } else {
            Rung::Clean
        }
    } else if edge {
        Rung::Anywhere
    } else {
        Rung::Detached
    }
}

/// The settled ground.
#[derive(Debug)]
pub struct Settlement {
    /// The plots, in the order they were settled.
    pub plots: Vec<Plot>,
    /// The plots of each district.
    pub ground: Vec<Vec<u32>>,
    /// The plot of each file.
    pub file_plot: Vec<u32>,
    /// The plots by how they came to be.
    pub relaxed: Relaxations,
}

/// The plots of a district, among the first `n`.
pub open spec fn plots_of(plots: Seq<Plot>, d: int, n: nat) -> Seq<u32>
    decreases n,
{
    if n == 0 || n > plots.len() {
        seq![]
    } else if plots[n - 1].district == d {
        plots_of(plots, d, (n - 1) as nat).push((n - 1) as u32)
    } else {
        plots_of(plots, d, (n - 1) as nat)
    }
}

/// The files on a plot, among the first `n`.
pub open spec fn files_on(file_plot: Seq<u32>, p: int, n: nat) -> Seq<u32>
    decreases n,
{
    if n == 0 || n > file_plot.len() {
        seq![]
    } else if file_plot[n - 1] == p {
        files_on(file_plot, p, (n - 1) as nat).push((n - 1) as u32)
    } else {
        files_on(file_plot, p, (n - 1) as nat)
    }
}

proof fn plots_of_prefix(a: Seq<Plot>, b: Seq<Plot>, d: int, n: nat)
    requires
        n <= a.len(),
        n <= b.len(),
        forall|i: int| 0 <= i < n ==> (#[trigger] a[i]).district == b[i].district,
    ensures
        plots_of(a, d, n) == plots_of(b, d, n),
    decreases n,
{
    if n > 0 {
        plots_of_prefix(a, b, d, (n - 1) as nat);
    }
}

proof fn files_on_prefix(a: Seq<u32>, b: Seq<u32>, p: int, n: nat)
    requires
        n <= a.len(),
        n <= b.len(),
        forall|i: int| 0 <= i < n ==> #[trigger] a[i] == b[i],
    ensures
        files_on(a, p, n) == files_on(b, p, n),
    decreases n,
{
    if n > 0 {
        files_on_prefix(a, b, p, (n - 1) as nat);
    }
}

impl Settlement {
    /// Every list says what the others say: a district's plots are the plots of
    /// that district, a plot's files are the files on it, no plot holds more than
    /// it may, and every plot is counted.
    pub open spec fn wf(self) -> bool {
        &&& self.plots@.len() < u32::MAX
        &&& self.file_plot@.len() < u32::MAX
        &&& forall|p: int|
            0 <= p < self.plots@.len() ==> (#[trigger] self.plots@[p]).district < self.ground@.len()
        &&& forall|d: int|
            0 <= d < self.ground@.len() ==> (#[trigger] self.ground@[d])@ == plots_of(
                self.plots@,
                d,
                self.plots@.len(),
            )
        &&& forall|f: int|
            0 <= f < self.file_plot@.len() ==> (#[trigger] self.file_plot@[f]) < self.plots@.len()
        &&& forall|p: int|
            0 <= p < self.plots@.len() ==> (#[trigger] self.plots@[p]).files@ == files_on(
                self.file_plot@,
                p,
                self.file_plot@.len(),
            ) && self.plots@[p].files@.len() <= self.plots@[p].cap
        &&& self.relaxed.total() == self.plots@.len()
        &&& self.relaxed.fringe == 0
        &&& self.relaxed.ancestor == 0
    }

    /// No plot and no file yet.
    pub fn new(districts: usize) -> (r: Self)
        ensures
            r.wf(),
            r.plots@.len() == 0,
            r.file_plot@.len() == 0,
            r.ground@.len() == districts,
    {
        let mut ground: Vec<Vec<u32>> = Vec::new();
        let mut d: usize = 0;
        while d < districts
            invariant
                d <= districts,
                ground.len() == d,
                forall|k: int| 0 <= k < d ==> (#[trigger] ground@[k])@ == Seq::<u32>::empty(),
            decreases districts - d,
        {
            ground.push(Vec::new());
            d = d + 1;
        }
        let r: Self = Settlement {
            plots: Vec::new(),
            ground,
            file_plot: Vec::new(),
            relaxed: Relaxations {
                clean: 0,
                nonadjacent: 0,
                fringe: 0,
                ancestor: 0,
                anywhere: 0,
                detached: 0,
            },
        };
        proof {
            assert forall|d: int| 0 <= d < r.ground@.len() implies (#[trigger] r.ground@[d])@
                == plots_of(r.plots@, d, r.plots@.len()) by {
                assert(plots_of(r.plots@, d, 0) =~= Seq::<u32>::empty());
            }
        }
        r
    }

    /// Settles a plot of a district, and says its number.
    pub fn settle_born(&mut self, district: u32, cap: u32, birth: u32, rung: Rung) -> (r: u32)
        requires
            old(self).wf(),
            district < old(self).ground@.len(),
            old(self).plots@.len() + 1 < u32::MAX,
        ensures
            final(self).wf(),
            r == old(self).plots@.len(),
            final(self).plots@.len() == old(self).plots@.len() + 1,
            forall|p: int|
                0 <= p < old(self).plots@.len() ==> #[trigger] final(self).plots@[p] == old(
                    self,
                ).plots@[p],
            final(self).plots@[r as int].district == district,
            final(self).plots@[r as int].cap == cap,
            final(self).plots@[r as int].birth == birth,
            final(self).plots@[r as int].files@.len() == 0,
            final(self).file_plot == old(self).file_plot,
            final(self).ground@.len() == old(self).ground@.len(),
            final(self).relaxed == old(self).relaxed.with(rung),
    {
        let id: u32 = self.plots.len() as u32;
        let ghost plots0 = self.plots@;
        let ghost ground0 = self.ground@;
        let ghost n = plots0.len();
        self.plots.push(Plot { district, files: Vec::new(), cap, birth });
        self.ground[district as usize].push(id);
        match rung {
            Rung::Clean => {
                self.relaxed.clean = self.relaxed.clean + 1;
            },
            Rung::Nonadjacent => {
                self.relaxed.nonadjacent = self.relaxed.nonadjacent + 1;
            },
            Rung::Anywhere => {
                self.relaxed.anywhere = self.relaxed.anywhere + 1;
            },
            Rung::Detached => {
                self.relaxed.detached = self.relaxed.detached + 1;
            },
        }
        proof {
            let plots1 = self.plots@;
            assert forall|d: int| 0 <= d < self.ground@.len() implies (#[trigger] self.ground@[d])@
                == plots_of(plots1, d, plots1.len()) by {
                assert(ground0[d]@ == plots_of(plots0, d, n));
                plots_of_prefix(plots0, plots1, d, n);
                assert(plots_of(plots1, d, (n + 1) as nat) == if plots1[n as int].district == d {
                    plots_of(plots1, d, n).push(n as u32)
                } else {
                    plots_of(plots1, d, n)
                });
                if d == district {
                    assert(self.ground@[d]@ =~= ground0[d]@.push(id));
                } else {
                    assert(self.ground@[d] == ground0[d]);
                }
            }
            assert forall|p: int| 0 <= p < plots1.len() implies (#[trigger] plots1[p]).files@
                == files_on(self.file_plot@, p, self.file_plot@.len()) && plots1[p].files@.len()
                <= plots1[p].cap by {
                if p < n {
                    assert(plots1[p] == plots0[p]);
                } else {
                    nothing_on(self.file_plot@, p, self.file_plot@.len());
                    assert(plots1[p].files@ =~= Seq::<u32>::empty());
                }
            }
        }
        id
    }

    /// Reserves the open plot at the historic centre, where nothing is settled yet.
    pub fn reserve_civic(&mut self, birth: u32)
        requires
            old(self).wf(),
        ensures
            final(self).wf(),
            old(self).plots@.len() > 0 || old(self).ground@.len() == 0 ==> *final(self) == *old(
                self,
            ),
            old(self).plots@.len() == 0 && old(self).ground@.len() > 0 ==> final(self).plots@.len()
                == 1 && final(self).plots@[0].district == 0 && final(self).plots@[0].cap == 0
                && final(self).plots@[0].birth == birth && final(self).file_plot == old(
                self,
            ).file_plot && final(self).ground@.len() == old(self).ground@.len()
                && final(self).relaxed == old(self).relaxed.with(Rung::Clean),
    {
        if self.plots.len() > 0 || self.ground.len() == 0 {
            return;
        }
        let _ = self.settle_born(0, 0, birth, Rung::Clean);
    }

    /// Does a plot have room for one more file?
    pub open spec fn has_room(self, p: int) -> bool {
        0 <= p < self.plots@.len() && self.plots@[p].files@.len() < self.plots@[p].cap
    }

    /// Is it the plot that a file of a district goes to: the nearest of its plots
    /// with room, the first settled where several are as near?
    pub open spec fn is_pick(self, d: u32, distance: Seq<i64>, p: int) -> bool {
        &&& self.has_room(p)
        &&& self.plots@[p].district == d
        &&& forall|q: int|
            q != p && #[trigger] self.has_room(q) && self.plots@[q].district == d ==> distance[p]
                < distance[q] || (distance[p] == distance[q] && p < q)
    }

    /// The plot that a file of a district goes to, given how far each plot is from
    /// the district's centre; none where all are full.
    pub fn pick_plot(&self, d: u32, distance: &Vec<i64>) -> (r: Option<u32>)
        requires
            self.wf(),
            d < self.ground@.len(),
            distance@.len() == self.plots@.len(),
        ensures
            match r {
                Some(p) => self.is_pick(d, distance@, p as int),
                None => forall|p: int|
                    !(#[trigger] self.has_room(p) && self.plots@[p].district == d),
            },
            match r {
                Some(p) => p < self.plots@.len() && self.plots@[p as int].district == d
                    && self.plots@[p as int].files@.len() < self.plots@[p as int].cap && (forall|
                    q: int,
                |
                    0 <= q < self.plots@.len() && (#[trigger] self.plots@[q]).district == d
                        && self.plots@[q].files@.len() < self.plots@[q].cap ==> distance@[p as int]
                        <= distance@[q] && (distance@[p as int] == distance@[q] ==> p <= q)),
                None => forall|q: int|
                    0 <= q < self.plots@.len() && (#[trigger] self.plots@[q]).district == d
                        ==> self.plots@[q].files@.len() >= self.plots@[q].cap,
            },
    {
        let mut best: Option<u32> = None;
        let mut p: usize = 0;
        while p < self.plots.len()
            invariant
                p <= self.plots@.len() < u32::MAX,
                distance@.len() == self.plots@.len(),
                match best {
                    Some(b) => {
                        &&& b < p
                        &&& self.has_room(b as int)
                        &&& self.plots@[b as int].district == d
                        &&& forall|q: int|
                            0 <= q < p && q != b && #[trigger] self.has_room(q)
                                && self.plots@[q].district == d ==> distance@[b as int]
                                < distance@[q] || (distance@[b as int] == distance@[q] && b < q)
                    },
                    None => forall|q: int|
                        0 <= q < p ==> !(#[trigger] self.has_room(q) && self.plots@[q].district
                            == d),
                },
            decreases self.plots.len() - p,
        {
            let plot: &Plot = &self.plots[p];
            let room: bool = (plot.files.len() as u64) < plot.cap as u64;
            assert(room == self.has_room(p as int));
            if room && plot.district == d {
                let better: bool = match best {
                    Some(b) => distance[p] < distance[b as usize],
                    None => true,
                };
                if better {
                    best = Some(p as u32);
                }
            }
            p = p + 1;
        }
        proof {
            assert forall|q: int|
                0 <= q < self.plots@.len() && (#[trigger] self.plots@[q]).district == d
                    && self.plots@[q].files@.len() < self.plots@[q].cap implies self.has_room(
                q,
            ) by {}
        }
        best
    }

    /// Puts a file on a plot with room, and says the file's number.
    pub fn house(&mut self, plot: u32) -> (r: u32)
        requires
            old(self).wf(),
            old(self).has_room(plot as int),
            old(self).file_plot@.len() + 1 < u32::MAX,
        ensures
            final(self).wf(),
            r == old(self).file_plot@.len(),
            final(self).file_plot@ == old(self).file_plot@.push(plot),
            final(self).plots@.len() == old(self).plots@.len(),
            forall|p: int|
                0 <= p < old(self).plots@.len() && p != plot ==> #[trigger] final(self).plots@[p]
                    == old(self).plots@[p],
            final(self).plots@[plot as int].files@ == old(self).plots@[plot as int].files@.push(r),
            final(self).plots@[plot as int].district == old(self).plots@[plot as int].district,
            final(self).plots@[plot as int].cap == old(self).plots@[plot as int].cap,
            final(self).plots@[plot as int].birth == old(self).plots@[plot as int].birth,
            final(self).ground == old(self).ground,
            final(self).relaxed == old(self).relaxed,
    {
        let id: u32 = self.file_plot.len() as u32;
        let ghost plots0 = self.plots@;
        let ghost on0 = self.file_plot@;
        self.plots[plot as usize].files.push(id);
        self.file_plot.push(plot);
        proof {
            let plots1 = self.plots@;
            let on1 = self.file_plot@;
            assert forall|d: int| 0 <= d < self.ground@.len() implies (#[trigger] self.ground@[d])@
                == plots_of(plots1, d, plots1.len()) by {
                assert forall|i: int| 0 <= i < plots1.len() implies (#[trigger] plots0[i]).district
                    == plots1[i].district by {}
                plots_of_prefix(plots0, plots1, d, plots1.len());
            }
            assert forall|p: int| 0 <= p < plots1.len() implies (#[trigger] plots1[p]).files@
                == files_on(on1, p, on1.len()) && plots1[p].files@.len() <= plots1[p].cap by {
                assert(plots0[p].files@ == files_on(on0, p, on0.len()));
                files_on_prefix(on0, on1, p, on0.len());
                if p != plot {
                    assert(plots1[p] == plots0[p]);
                }
            }
        }
        id
    }
}

proof fn nothing_on(file_plot: Seq<u32>, p: int, n: nat)
    requires
        n <= file_plot.len(),
        forall|f: int| 0 <= f < n ==> (#[trigger] file_plot[f]) < p,
    ensures
        files_on(file_plot, p, n) == Seq::<u32>::empty(),
    decreases n,
{
    if n > 0 {
        nothing_on(file_plot, p, (n - 1) as nat);
        assert(file_plot[n - 1] < p);
    }
}

proof fn files_on_holds(file_plot: Seq<u32>, p: int, n: nat, f: int)
    requires
        n <= file_plot.len() <= u32::MAX,
        0 <= f < n,
    ensures
        files_on(file_plot, p, n).contains(f as u32) <==> file_plot[f] == p,
    decreases n,
{
    let all = files_on(file_plot, p, n);
    let before = files_on(file_plot, p, (n - 1) as nat);
    if f < n - 1 {
        files_on_holds(file_plot, p, (n - 1) as nat, f);
        if before.contains(f as u32) {
            let i = before.index_of(f as u32);
            assert(all[i] == f as u32);
        }
        if all.contains(f as u32) {
            let i = all.index_of(f as u32);
            assert(i < before.len());
            assert(before[i] == f as u32);
        }
    } else {
        if file_plot[f] == p {
            assert(all[all.len() - 1] == f as u32);
        } else {
            files_on_below(file_plot, p, (n - 1) as nat);
            if all.contains(f as u32) {
                let i = all.index_of(f as u32);
                assert(before[i] < n - 1);
            }
        }
    }
}

proof fn files_on_below(file_plot: Seq<u32>, p: int, n: nat)
    requires
        n <= file_plot.len() <= u32::MAX,
    ensures
        forall|i: int|
            0 <= i < files_on(file_plot, p, n).len() ==> (#[trigger] files_on(file_plot, p, n)[i])
                < n,
    decreases n,
{
    if n > 0 {
        files_on_below(file_plot, p, (n - 1) as nat);
        let before = files_on(file_plot, p, (n - 1) as nat);
        let all = files_on(file_plot, p, n);
        assert forall|i: int| 0 <= i < all.len() implies (#[trigger] all[i]) < n by {
            if i < before.len() {
                assert(all[i] == before[i]);
            }
        }
    }
}

impl Settlement {
    /// How many plots there are once the open plot at the historic centre is reserved.
    pub open spec fn reserved(self) -> int {
        if self.plots@.len() == 0 {
            1
        } else {
            self.plots@.len() as int
        }
    }

    /// The plots by how they came to be, once the open plot is reserved.
    pub open spec fn reserved_counts(self) -> Relaxations {
        if self.plots@.len() == 0 {
            self.relaxed.with(Rung::Clean)
        } else {
            self.relaxed
        }
    }

    /// Places one file of a district: on the nearest of the district's plots that has
    /// room, and where none has on a new plot. Says the file's number. Before the first
    /// file the open plot at the historic centre is reserved, on ground of growth index
    /// `origin`. `distance` is how far each plot is from the district's centre, the open
    /// plot among them.
    pub fn add_file(
        &mut self,
        did: u32,
        distance: &Vec<i64>,
        cap: u32,
        birth: u32,
        rung: Rung,
        origin: u32,
    ) -> (r: u32)
        requires
            old(self).wf(),
            did < old(self).ground@.len(),
            distance@.len() == old(self).reserved(),
            cap > 0,
            old(self).plots@.len() + 1 < u32::MAX,
            old(self).file_plot@.len() + 1 < u32::MAX,
        ensures
            final(self).wf(),
            r == old(self).file_plot@.len(),
            final(self).ground@.len() == old(self).ground@.len(),
            final(self).file_plot@ == old(self).file_plot@.push(final(self).file_plot@[r as int]),
            old(self).plots@.len() == 0 ==> {
                &&& final(self).plots@[0].district == 0
                &&& final(self).plots@[0].cap == 0
                &&& final(self).plots@[0].birth == origin
                &&& final(self).plots@[0].files@.len() == 0
            },
            ({
                let p = final(self).file_plot@[r as int] as int;
                &&& forall|q: int|
                    0 <= q < old(self).plots@.len() && q != p ==> #[trigger] final(self).plots@[q]
                        == old(self).plots@[q]
                &&& final(self).plots@[p].files@.last() == r
                &&& final(self).plots@[p].district == did
                &&& p < old(self).reserved() ==> {
                    &&& old(self).is_pick(did, distance@, p)
                    &&& final(self).plots@.len() == old(self).plots@.len()
                    &&& final(self).plots@[p].files@ == old(self).plots@[p].files@.push(r)
                    &&& final(self).plots@[p].cap == old(self).plots@[p].cap
                    &&& final(self).plots@[p].birth == old(self).plots@[p].birth
                    &&& final(self).relaxed == old(self).relaxed
                }
                &&& p >= old(self).reserved() ==> {
                    &&& p == old(self).reserved()
                    &&& forall|q: int|
                        !(#[trigger] old(self).has_room(q) && old(self).plots@[q].district == did)
                    &&& final(self).plots@.len() == old(self).reserved() + 1
                    &&& final(self).plots@[p].files@ == seq![r]
                    &&& final(self).plots@[p].cap == cap
                    &&& final(self).plots@[p].birth == birth
                    &&& final(self).relaxed == old(self).reserved_counts().with(rung)
                }
            }),
            old(self).plots@.len() == 0 ==> {
                &&& final(self).plots@.len() == 2
                &&& final(self).file_plot@[r as int] == 1
                &&& final(self).plots@[1].district == did
                &&& final(self).plots@[1].cap == cap
                &&& final(self).plots@[1].birth == birth
                &&& final(self).plots@[1].files@ == seq![r]
            },
            old(self).plots@.len() > 0 ==> {
                let p = final(self).file_plot@[r as int] as int;
                let open = |q: int|
                    old(self).plots@[q].district == did && old(self).plots@[q].files@.len() < old(
                        self,
                    ).plots@[q].cap;
                if p < old(self).plots@.len() {
                    &&& open(p)
                    &&& final(self).plots@.len() == old(self).plots@.len()
                    &&& forall|q: int|
                        0 <= q < old(self).plots@.len() && open(q) ==> distance@[p]
                            <= #[trigger] distance@[q] && (distance@[p] == distance@[q] ==> p <= q)
                } else {
                    &&& p == old(self).plots@.len()
                    &&& final(self).plots@.len() == p + 1
                    &&& final(self).plots@[p].cap == cap
                    &&& final(self).plots@[p].birth == birth
                    &&& forall|q: int|
                        0 <= q < old(self).plots@.len() ==> !((
                        #[trigger] old(self).plots@[q]).district == did && old(
                            self,
                        ).plots@[q].files@.len() < old(self).plots@[q].cap)
                }
            },
    {
        self.reserve_civic(origin);
        let ghost settled = *self;
        let plot: u32 = match self.pick_plot(did, distance) {
            Some(p) => p,
            None => self.settle_born(did, cap, birth, rung),
        };
        proof {
            if old(self).plots@.len() == 0 {
                assert(settled.plots@[0].files@.len() <= settled.plots@[0].cap);
                assert(!settled.has_room(plot as int) || plot == 1);
                assert(plot == 1);
            }
        }
        self.house(plot)
    }
}

/// Every file has ground, and only one plot: the plot that it is said to be on
/// lists it, and no other does.
pub proof fn every_file_has_one_plot(s: Settlement, f: int, p: int)
    requires
        s.wf(),
        0 <= f < s.file_plot@.len(),
        0 <= p < s.plots@.len(),
    ensures
        s.file_plot@[f] < s.plots@.len(),
        s.plots@[p].files@.contains(f as u32) <==> s.file_plot@[f] == p,
{
    files_on_holds(s.file_plot@, p, s.file_plot@.len(), f);
    assert(s.plots@[p].files@ == files_on(s.file_plot@, p, s.file_plot@.len()));
}

/// Every plot that was settled is counted once by how it came to be.
pub proof fn every_placement_is_counted_once(s: Settlement)
    requires
        s.wf(),
    ensures
        s.relaxed.clean + s.relaxed.nonadjacent + s.relaxed.anywhere + s.relaxed.detached
            == s.plots@.len(),
{
}

/// The plots with a district, among the first `n`, by their districts alone.
pub open spec fn plots_with(district: Seq<u32>, d: int, n: nat) -> Seq<u32>
    decreases n,
{
    if n == 0 || n > district.len() {
        seq![]
    } else if district[n - 1] == d {
        plots_with(district, d, (n - 1) as nat).push((n - 1) as u32)
    } else {
        plots_with(district, d, (n - 1) as nat)
    }
}

/// The plots of each district, once every plot has been given one.
pub fn reseated(district: &Vec<u32>, districts: usize) -> (r: Vec<Vec<u32>>)
    requires
        district@.len() <= u32::MAX,
        forall|p: int| 0 <= p < district@.len() ==> (#[trigger] district@[p]) < districts,
    ensures
        r@.len() == districts,
        forall|d: int|
            0 <= d < districts ==> (#[trigger] r@[d])@ == plots_with(
                district@,
                d,
                district@.len(),
            ),
{
    let mut out: Vec<Vec<u32>> = Vec::new();
    let mut d: usize = 0;
    while d < districts
        invariant
            d <= districts,
            out.len() == d,
            forall|k: int| 0 <= k < d ==> (#[trigger] out@[k])@ == Seq::<u32>::empty(),
        decreases districts - d,
    {
        out.push(Vec::new());
        d = d + 1;
    }
    let mut p: usize = 0;
    while p < district.len()
        invariant
            p <= district@.len() <= u32::MAX,
            out@.len() == districts,
            forall|q: int| 0 <= q < district@.len() ==> (#[trigger] district@[q]) < districts,
            forall|k: int|
                0 <= k < districts ==> (#[trigger] out@[k])@ == plots_with(
                    district@,
                    k,
                    p as nat,
                ),
        decreases district.len() - p,
    {
        let ghost had = out@;
        assert(district@[p as int] < districts);
        out[district[p] as usize].push(p as u32);
        proof {
            assert forall|k: int| 0 <= k < districts implies (#[trigger] out@[k])@ == plots_with(
                district@,
                k,
                (p + 1) as nat,
            ) by {
                assert(had[k]@ == plots_with(district@, k, p as nat));
            }
        }
        p = p + 1;
    }
    out
}

proof fn files_in_upto(files: Seq<FileRec>, d: Seq<char>, n: nat)
    requires
        n <= files.len(),
    ensures
        files_in(files, d, n) == files.take(n as int).filter(
            |f: FileRec| home_of(f.path@) == d,
        ).len(),
        forall|i: int|
            0 <= i < n && home_of((#[trigger] files[i]).path@) == d ==> oldest_in(files, d, n)
                <= files[i].growth_index,
        oldest_in(files, d, n) == u32::MAX || exists|i: int|
            0 <= i < n && home_of((#[trigger] files[i]).path@) == d && files[i].growth_index
                == oldest_in(files, d, n),
    decreases n,
{
    let test = |f: FileRec| home_of(f.path@) == d;
    if n == 0 {
        filter_none(files, test);
    } else {
        files_in_upto(files, d, (n - 1) as nat);
        filter_step(files, test, n);
        let before = oldest_in(files, d, (n - 1) as nat);
        if oldest_in(files, d, n) != before {
            assert(files[n - 1].growth_index == oldest_in(files, d, n));
        } else if before != u32::MAX {
            let i = choose|i: int|
                0 <= i < n - 1 && home_of((#[trigger] files[i]).path@) == d
                    && files[i].growth_index == before;
            assert(files[i].growth_index == before);
        }
    }
}

/// A directory asks for as much ground as files lie directly in it, from the time of the
/// oldest of them.
pub proof fn a_directory_asks_for_its_own_files(files: Seq<FileRec>, d: Seq<char>)
    ensures
        files_in(files, d, files.len()) == files.filter(
            |f: FileRec| home_of(f.path@) == d,
        ).len(),
        forall|i: int|
            0 <= i < files.len() && home_of((#[trigger] files[i]).path@) == d ==> oldest_in(
                files,
                d,
                files.len(),
            ) <= files[i].growth_index,
        oldest_in(files, d, files.len()) < u32::MAX ==> exists|i: int|
            0 <= i < files.len() && home_of((#[trigger] files[i]).path@) == d
                && files[i].growth_index == oldest_in(files, d, files.len()),
        forall|n: nat| n <= u32::MAX ==> #[trigger] counter(n) == n,
        forall|n: nat| n > u32::MAX ==> #[trigger] counter(n) == u32::MAX,
{
    files_in_upto(files, d, files.len());
    take_all(files);
}

proof fn plots_of_upto(plots: Seq<Plot>, d: int, n: nat)
    requires
        n <= plots.len() <= u32::MAX,
    ensures
        plots_of(plots, d, n) == Seq::new(plots.len(), |i: int| i as u32).take(n as int).filter(
            |i: u32| plots[i as int].district == d,
        ),
    decreases n,
{
    let all = Seq::new(plots.len(), |i: int| i as u32);
    let test = |i: u32| plots[i as int].district == d;
    if n == 0 {
        filter_none(all, test);
    } else {
        plots_of_upto(plots, d, (n - 1) as nat);
        filter_step(all, test, n);
    }
}

proof fn files_on_upto(file_plot: Seq<u32>, p: int, n: nat)
    requires
        n <= file_plot.len() <= u32::MAX,
    ensures
        files_on(file_plot, p, n) == Seq::new(file_plot.len(), |i: int| i as u32).take(
            n as int,
        ).filter(|i: u32| file_plot[i as int] == p),
        plots_with(file_plot, p, n) == files_on(file_plot, p, n),
    decreases n,
{
    let all = Seq::new(file_plot.len(), |i: int| i as u32);
    let test = |i: u32| file_plot[i as int] == p;
    if n == 0 {
        filter_none(all, test);
    } else {
        files_on_upto(file_plot, p, (n - 1) as nat);
        filter_step(all, test, n);
    }
}

/// In settled ground every district lists its plots, and every plot its files, in the
/// order in which they came and with none left out.
pub proof fn settled_lists_are_complete(s: Settlement, d: int, p: int)
    requires
        s.wf(),
    ensures
        0 <= d < s.ground@.len() ==> s.ground@[d]@ == Seq::new(
            s.plots@.len(),
            |i: int| i as u32,
        ).filter(|i: u32| s.plots@[i as int].district == d),
        0 <= p < s.plots@.len() ==> s.plots@[p].files@ == Seq::new(
            s.file_plot@.len(),
            |i: int| i as u32,
        ).filter(|i: u32| s.file_plot@[i as int] == p) && s.plots@[p].files@.len()
            <= s.plots@[p].cap,
{
    if 0 <= d < s.ground@.len() {
        plots_of_upto(s.plots@, d, s.plots@.len());
        take_all(Seq::new(s.plots@.len(), |i: int| i as u32));
        assert(s.ground@[d]@ == plots_of(s.plots@, d, s.plots@.len()));
    }
    if 0 <= p < s.plots@.len() {
        files_on_upto(s.file_plot@, p, s.file_plot@.len());
        take_all(Seq::new(s.file_plot@.len(), |i: int| i as u32));
        assert(s.plots@[p].files@ == files_on(s.file_plot@, p, s.file_plot@.len()));
    }
}

/// Plots that change hands are listed anew: each district has those that say so, in
/// order.
pub proof fn plots_are_listed_by_district(district: Seq<u32>, d: int)
    requires
        district.len() <= u32::MAX,
    ensures
        plots_with(district, d, district.len()) == Seq::new(
            district.len(),
            |i: int| i as u32,
        ).filter(|i: u32| district[i as int] == d),
{
    files_on_upto(district, d, district.len());
    take_all(Seq::new(district.len(), |i: int| i as u32));
}

/// A plot is counted under the rung that it came by and no other.
pub proof fn a_plot_counts_for_its_rung(c: Relaxations, rung: Rung)
    requires
        c.clean < usize::MAX,
        c.nonadjacent < usize::MAX,
        c.anywhere < usize::MAX,
        c.detached < usize::MAX,
    ensures
        ({
            let w = c.with(rung);
            let one = |x: Rung|
                if rung == x {
                    1int
                } else {
                    0
                };
            &&& w.clean == c.clean + one(Rung::Clean)
            &&& w.nonadjacent == c.nonadjacent + one(Rung::Nonadjacent)
            &&& w.anywhere == c.anywhere + one(Rung::Anywhere)
            &&& w.detached == c.detached + one(Rung::Detached)
            &&& w.fringe == c.fringe && w.ancestor == c.ancestor
            &&& w.total() == c.total() + 1
        }),
{
}

/// Plots of the core never hold more than those of the rim, and plots of a larger
/// repository never hold fewer; one or two files below four hundred, two or five below
/// two thousand, two or nine from there on.
pub proof fn larger_repositories_fill_plots_more(n: usize, m: usize, a: Caps, b: Caps)
    requires
        caps_for_file_count.ensures((n,), a),
        caps_for_file_count.ensures((m,), b),
        n <= m,
    ensures
        1 <= a.core < a.rim,
        a.core <= b.core && a.rim <= b.rim,
        a.core == 1 <==> n < 400,
        a.rim == 2 <==> n < 400,
        a.rim == 5 <==> 400 <= n < 2_000,
        a.rim == 9 <==> n >= 2_000,
        n >= 400 ==> a.core == 2,
{
}

/// A plot is clean where it is the district's first near the town, or touches its own
/// ground; one near the town but off its own ground is not adjacent, one at the edge is
/// anywhere, and any other is detached.
pub proof fn rungs_go_down_from_clean(
    rooted: bool,
    touching: bool,
    near: bool,
    edge: bool,
    r: Rung,
)
    requires
        rung_of.ensures((rooted, touching, near, edge), r),
    ensures
        rooted && touching ==> r == Rung::Clean,
        !rooted && near ==> r == Rung::Clean,
        rooted && !touching && near ==> r == Rung::Nonadjacent,
        !near && edge && !(rooted && touching) ==> r == Rung::Anywhere,
        !near && !edge && !(rooted && touching) ==> r == Rung::Detached,
{
}

} // verus!
