//! Following every session below a directory: when to look for new ones, what is
//! known of each, and how the watch is doing.
use vstd::prelude::*;

use crate::folds::{fold_step, take_all};
use crate::json::opt_text;
use crate::path::{path_lt, path_lt_irreflexive, path_lt_total, path_lt_transitive, FilePath};
use crate::session::{SessionTailer, StartAt, RESCAN_EVERY};
use crate::stats::{no_lines, seen, ParseStats, Tally};
use crate::text::push_text;

verus! {

/// Every session below a directory, in path order.
#[derive(Debug)]
pub struct ProjectsTailer {
    /// The directory.
    pub projects_dir: FilePath,
    /// The sessions, each under its directory.
    pub sessions: Vec<(FilePath, SessionTailer)>,
    /// Where the sessions found at first were started.
    pub initial_start: StartAt,
    /// Rounds so far.
    pub tick: u32,
}

/// The directories of some sessions.
pub open spec fn dirs_of(v: Seq<(FilePath, SessionTailer)>) -> Seq<Seq<Seq<char>>> {
    Seq::new(v.len(), |i: int| v[i].0@)
}

/// Every path stands strictly before every later one.
pub open spec fn paths_ascend(p: Seq<Seq<Seq<char>>>) -> bool {
    forall|i: int, j: int| 0 <= i < j < p.len() ==> path_lt(#[trigger] p[i], #[trigger] p[j])
}

/// How many of some paths stand before one.
pub open spec fn path_place(p: Seq<Seq<Seq<char>>>, q: Seq<Seq<char>>) -> int
    decreases p.len(),
{
    if p.len() > 0 && path_lt(p[0], q) {
        1 + path_place(p.drop_first(), q)
    } else {
        0
    }
}

/// The tally of the first `n` sessions together.
pub open spec fn tally_of(v: Seq<(FilePath, SessionTailer)>, n: nat) -> Tally
    decreases n,
{
    if n == 0 || n > v.len() {
        no_lines()
    } else {
        tally_of(v, (n - 1) as nat).merged(v[n - 1].1.ctx.stats@)
    }
}

/// Does every count of the two tallies together fit a counter?
pub open spec fn tallies_fit(a: Tally, b: Tally) -> bool {
    &&& a.ok + b.ok <= u64::MAX
    &&& a.blank + b.blank <= u64::MAX
    &&& a.bad_json + b.bad_json <= u64::MAX
    &&& a.bad_shape + b.bad_shape <= u64::MAX
    &&& a.unknown_type + b.unknown_type <= u64::MAX
    &&& a.oversize_lines + b.oversize_lines <= u64::MAX
    &&& a.truncations + b.truncations <= u64::MAX
    &&& forall|k: Seq<char>|
        #![trigger seen(a.types, k)]
        seen(a.types, k) + seen(b.types, k) <= u64::MAX
}

/// Do the counters of all sessions together fit?
pub open spec fn totals_fit(v: Seq<(FilePath, SessionTailer)>) -> bool {
    forall|n: nat|
        n < v.len() ==> tallies_fit(#[trigger] tally_of(v, n), v[n as int].1.ctx.stats@)
}

impl ProjectsTailer {
    /// The sessions are in order, and each is.
    pub open spec fn wf(self) -> bool {
        &&& paths_ascend(dirs_of(self.sessions@))
        &&& forall|i: int| 0 <= i < self.sessions@.len() ==> (#[trigger] self.sessions@[i]).1.wf()
    }

    /// No session yet.
    pub fn new(projects_dir: FilePath, initial_start: StartAt) -> (r: Self)
        ensures
            r.wf(),
            r.projects_dir == projects_dir,
            r.initial_start == initial_start,
            r.sessions@.len() == 0,
            r.tick == 0,
    {
        ProjectsTailer { projects_dir, sessions: Vec::new(), initial_start, tick: 0 }
    }

    fn place(&self, dir: &FilePath) -> (r: (bool, usize))
        requires
            self.wf(),
        ensures
            r.0 == dirs_of(self.sessions@).contains(dir@),
            r.1 <= self.sessions@.len(),
            !r.0 ==> r.1 == path_place(dirs_of(self.sessions@), dir@),
            !r.0 ==> forall|i: int|
                0 <= i < r.1 ==> path_lt(#[trigger] dirs_of(self.sessions@)[i], dir@),
            !r.0 ==> forall|i: int|
                r.1 <= i < self.sessions@.len() ==> path_lt(
                    dir@,
                    #[trigger] dirs_of(self.sessions@)[i],
                ),
    {
        let ghost d = dirs_of(self.sessions@);
        let mut p: usize = 0;
        assert(d.skip(0) =~= d);
        while p < self.sessions.len()
            invariant
                p <= self.sessions.len(),
                d == dirs_of(self.sessions@),
                paths_ascend(d),
                path_place(d, dir@) == p + path_place(d.skip(p as int), dir@),
                forall|i: int| 0 <= i < p ==> path_lt(#[trigger] d[i], dir@),
            decreases self.sessions.len() - p,
        {
            assert(d[p as int] == self.sessions@[p as int].0@);
            if self.sessions[p].0.same(dir) {
                assert(d[p as int] == dir@);
                return (true, p);
            }
            if !self.sessions[p].0.less(dir) {
                proof {
                    path_lt_total(d[p as int], dir@);
                    assert forall|i: int| p <= i < d.len() implies path_lt(
                        dir@,
                        #[trigger] d[i],
                    ) by {
                        if i > p {
                            path_lt_transitive(dir@, d[p as int], d[i]);
                        }
                    }
                    assert(!d.contains(dir@)) by {
                        path_lt_irreflexive(dir@);
                        if d.contains(dir@) {
                            let k = d.index_of(dir@);
                            assert(d[k] == dir@);
                        }
                    }
                }
                return (false, p);
            }
            assert(d.skip(p as int).drop_first() =~= d.skip(p + 1));
            p = p + 1;
        }
        proof {
            path_lt_irreflexive(dir@);
            if d.contains(dir@) {
                let k = d.index_of(dir@);
                assert(d[k] == dir@);
            }
        }
        (false, p)
    }

    /// Is the session in this directory followed?
    pub fn knows(&self, dir: &FilePath) -> (r: bool)
        requires
            self.wf(),
        ensures
            r == dirs_of(self.sessions@).contains(dir@),
    {
        self.place(dir).0
    }

    /// Takes in a session at its place, unless its directory is followed already;
    /// says whether it was taken in.
    pub fn take_in(&mut self, dir: FilePath, tailer: SessionTailer) -> (r: bool)
        requires
            old(self).wf(),
            tailer.wf(),
        ensures
            final(self).wf(),
            r == !dirs_of(old(self).sessions@).contains(dir@),
            final(self).sessions@ == if r {
                old(self).sessions@.insert(
                    path_place(dirs_of(old(self).sessions@), dir@),
                    (dir, tailer),
                )
            } else {
                old(self).sessions@
            },
            final(self).tick == old(self).tick,
            final(self).initial_start == old(self).initial_start,
            final(self).projects_dir == old(self).projects_dir,
    {
        let (known, p) = self.place(&dir);
        if known {
            return false;
        }
        let ghost d = dirs_of(self.sessions@);
        let ghost before = self.sessions@;
        let ghost q = dir@;
        self.sessions.insert(p, (dir, tailer));
        proof {
            let after = dirs_of(self.sessions@);
            assert(after =~= d.insert(p as int, q));
            assert forall|i: int, j: int| 0 <= i < j < after.len() implies path_lt(
                #[trigger] after[i],
                #[trigger] after[j],
            ) by {
                let a = if i < p {
                    i
                } else {
                    i - 1
                };
                let b = if j < p {
                    j
                } else {
                    j - 1
                };
                if i != p {
                    assert(after[i] == d[a]);
                }
                if j != p {
                    assert(after[j] == d[b]);
                }
            }
            assert forall|i: int| 0 <= i < self.sessions@.len() implies (
            #[trigger] self.sessions@[i]).1.wf() by {
                if i < p {
                    assert(self.sessions@[i] == before[i]);
                } else if i > p {
                    assert(self.sessions@[i] == before[i - 1]);
                }
            }
        }
        true
    }

    /// Begins a round: says whether it is one that looks for new sessions.
    pub fn due(&mut self) -> (r: bool)
        requires
            old(self).wf(),
        ensures
            final(self).wf(),
            r == (old(self).tick % RESCAN_EVERY == 0),
            r == (old(self).tick % 8 == 0),
            final(self).tick == if old(self).tick < 0xffff_ffff {
                (old(self).tick + 1) as u32
            } else {
                0u32
            },
            final(self).tick == next_tick(old(self).tick),
            final(self).sessions == old(self).sessions,
            final(self).initial_start == old(self).initial_start,
            final(self).projects_dir == old(self).projects_dir,
    {
        let due: bool = self.tick % RESCAN_EVERY == 0;
        self.tick = self.tick.wrapping_add(1);
        due
    }

    /// How many sessions are followed.
    pub fn len(&self) -> (r: usize)
        ensures
            r == self.sessions@.len(),
    {
        self.sessions.len()
    }

    /// Is no session followed?
    pub fn is_empty(&self) -> (r: bool)
        ensures
            r == (self.sessions@.len() == 0),
    {
        self.sessions.len() == 0
    }

    /// The directory.
    pub fn projects_dir(&self) -> (r: &FilePath)
        ensures
            *r == self.projects_dir,
    {
        &self.projects_dir
    }

    /// Where the sessions found at first were started.
    pub fn initial_start(&self) -> (r: StartAt)
        ensures
            r == self.initial_start,
    {
        self.initial_start
    }

    /// The counters of all sessions together.
    pub fn stats(&self) -> (r: ParseStats)
        requires
            self.wf(),
            totals_fit(self.sessions@),
        ensures
            r.wf(),
            r@ == tally_of(self.sessions@, self.sessions@.len()),
    {
        let mut out: ParseStats = ParseStats::new();
        let mut i: usize = 0;
        while i < self.sessions.len()
            invariant
                i <= self.sessions.len(),
                self.wf(),
                totals_fit(self.sessions@),
                out.wf(),
                out@ == tally_of(self.sessions@, i as nat),
            decreases self.sessions.len() - i,
        {
            assert(tallies_fit(
                tally_of(self.sessions@, i as nat),
                self.sessions@[i as int].1.ctx.stats@,
            ));
            assert(self.sessions@[i as int].1.wf());
            proof {
                let a = out.unknown_types_seen@;
                let b = self.sessions@[i as int].1.ctx.stats.unknown_types_seen@;
                assert forall|k: Seq<char>| #[trigger] seen(a, k) + seen(b, k) <= u64::MAX by {
                    assert(seen(tally_of(self.sessions@, i as nat).types, k) + seen(b, k)
                        <= u64::MAX);
                }
            }
            out.merge(self.sessions[i].1.stats());
            i = i + 1;
        }
        out
    }
}

/// The tick after one.
pub open spec fn next_tick(t: u32) -> u32 {
    if t == u32::MAX {
        0
    } else {
        (t + 1) as u32
    }
}

/// How a source of events is doing.
#[derive(Debug)]
pub enum SourceHealth {
    /// As it should.
    Running,
    /// With less than it could have.
    Degraded {
        /// Why.
        reason: String,
    },
    /// Not at all.
    Stopped {
        /// Why.
        reason: String,
    },
}

/// How a source is doing, as mathematics.
pub ghost enum Health {
    Running,
    Degraded(Seq<char>),
    Stopped(Seq<char>),
}

impl SourceHealth {
    /// How the source is doing.
    pub open spec fn view(self) -> Health {
        match self {
            SourceHealth::Running => Health::Running,
            SourceHealth::Degraded { reason } => Health::Degraded(reason@),
            SourceHealth::Stopped { reason } => Health::Stopped(reason@),
        }
    }
}

/// Puts a new state of health in the place of the last.
pub fn set_health(slot: &mut SourceHealth, health: SourceHealth)
    ensures
        *final(slot) == health,
{
    *slot = health;
}

/// What a round of the watch does.
#[derive(Debug, Clone, Copy, PartialEq, Eq, Structural)]
pub enum Round {
    /// Ends the watch.
    Stop,
    /// Looks for new sessions, then reads.
    RescanAndPoll,
    /// Reads.
    Poll,
}

/// The loop that follows transcripts: how many rounds it has made, and why it
/// has no news from the file system, if it has none.
#[derive(Debug)]
pub struct Watch {
    /// Rounds so far.
    pub ticks: u32,
    /// Why the file system sends no news.
    pub watcher_failed: Option<String>,
}

/// How a watch is doing before its first round.
pub open spec fn first_health(watcher_failed: Option<Seq<char>>) -> Health {
    match watcher_failed {
        Some(reason) => Health::Degraded("no filesystem watcher, polling only: "@ + reason),
        None => Health::Running,
    }
}

/// How a watch is doing after a search for sessions that went wrong or did not.
pub open spec fn later_health(
    error: Option<Seq<char>>,
    watcher_failed: Option<Seq<char>>,
) -> Health {
    match error {
        Some(reason) => Health::Degraded(reason),
        None => match watcher_failed {
            Some(reason) => Health::Degraded(reason),
            None => Health::Running,
        },
    }
}

impl Watch {
    /// Begins a watch.
    pub fn start(watcher_failed: Option<String>) -> (r: (Self, SourceHealth))
        ensures
            r.0.ticks == 0,
            r.0.watcher_failed == watcher_failed,
            r.1@ == first_health(opt_text(watcher_failed)),
            watcher_failed is None ==> r.1 is Running,
            watcher_failed is Some ==> (r.1 matches SourceHealth::Degraded { reason } && reason@
                == "no filesystem watcher, polling only: "@ + watcher_failed->0@),
    {
        let health: SourceHealth = match &watcher_failed {
            Some(why) => {
                let mut reason: String = String::new();
                push_text(&mut reason, "no filesystem watcher, polling only: ");
                push_text(&mut reason, why.as_str());
                assert(reason@ =~= "no filesystem watcher, polling only: "@ + why@);
                SourceHealth::Degraded { reason }
            },
            None => SourceHealth::Running,
        };
        (Watch { ticks: 0, watcher_failed }, health)
    }

    /// What the next round does, given whether the watch was asked to end. The
    /// first round looks for sessions, and every eighth after it.
    pub fn round(&mut self, stop: bool) -> (r: Round)
        ensures
            stop ==> r == Round::Stop && *final(self) == *old(self),
            !stop ==> r == if old(self).ticks % RESCAN_EVERY == 0 {
                Round::RescanAndPoll
            } else {
                Round::Poll
            },
            !stop ==> final(self).ticks == next_tick(old(self).ticks),
            !stop ==> (r == Round::RescanAndPoll <==> old(self).ticks % 8 == 0),
            !stop ==> (r == Round::Poll <==> old(self).ticks % 8 != 0),
            !stop ==> final(self).ticks == if old(self).ticks < 0xffff_ffff {
                (old(self).ticks + 1) as u32
            } else {
                0u32
            },
            final(self).watcher_failed == old(self).watcher_failed,
    {
        if stop {
            return Round::Stop;
        }
        let rescan: bool = self.ticks % RESCAN_EVERY == 0;
        self.ticks = self.ticks.wrapping_add(1);
        if rescan {
            Round::RescanAndPoll
        } else {
            Round::Poll
        }
    }

    /// How the watch is doing after a search for sessions.
    pub fn health(&self, error: &Option<String>) -> (r: SourceHealth)
        ensures
            r@ == later_health(opt_text(*error), opt_text(self.watcher_failed)),
            *error is None && self.watcher_failed is None ==> r is Running,
            *error is Some ==> (r matches SourceHealth::Degraded { reason } && reason@ == (
            *error)->0@),
            *error is None && self.watcher_failed is Some ==> (r matches SourceHealth::Degraded {
                reason,
            } && reason@ == self.watcher_failed->0@),
    {
        match error {
            Some(reason) => SourceHealth::Degraded { reason: reason.clone() },
            None => match &self.watcher_failed {
                Some(reason) => SourceHealth::Degraded { reason: reason.clone() },
                None => SourceHealth::Running,
            },
        }
    }

    /// How the watch is doing once it has ended.
    pub fn stopped() -> (r: SourceHealth)
        ensures
            r@ == Health::Stopped("shutdown requested"@),
            r matches SourceHealth::Stopped { reason } && reason@ == "shutdown requested"@,
    {
        SourceHealth::Stopped { reason: "shutdown requested".to_owned() }
    }
}

proof fn tally_fold(v: Seq<(FilePath, SessionTailer)>, n: nat)
    requires
        n <= v.len(),
    ensures
        tally_of(v, n) == v.take(n as int).fold_left(
            no_lines(),
            |t: Tally, x: (FilePath, SessionTailer)| t.merged(x.1.ctx.stats@),
        ),
    decreases n,
{
    if n > 0 {
        tally_fold(v, (n - 1) as nat);
        fold_step(
            v,
            no_lines(),
            |t: Tally, x: (FilePath, SessionTailer)| t.merged(x.1.ctx.stats@),
            n,
        );
    }
}

/// The tally of a watch is that of all its sessions together.
pub proof fn every_session_is_tallied(v: Seq<(FilePath, SessionTailer)>)
    ensures
        tally_of(v, v.len()) == v.fold_left(
            no_lines(),
            |t: Tally, x: (FilePath, SessionTailer)| t.merged(x.1.ctx.stats@),
        ),
{
    tally_fold(v, v.len());
    take_all(v);
}

/// The place of a path is behind those that stand before it and ahead of the first that
/// does not.
pub proof fn a_path_goes_behind_those_before_it(p: Seq<Seq<Seq<char>>>, q: Seq<Seq<char>>)
    ensures
        0 <= path_place(p, q) <= p.len(),
        forall|i: int| 0 <= i < path_place(p, q) ==> path_lt(#[trigger] p[i], q),
        path_place(p, q) < p.len() ==> !path_lt(p[path_place(p, q)], q),
    decreases p.len(),
{
    if p.len() > 0 && path_lt(p[0], q) {
        let rest = p.drop_first();
        a_path_goes_behind_those_before_it(rest, q);
        assert forall|i: int| 0 <= i < path_place(p, q) implies path_lt(#[trigger] p[i], q) by {
            if i > 0 {
                assert(rest[i - 1] == p[i]);
            }
        }
    }
}

/// The sessions of a watch are shown by their directories.
pub proof fn sessions_are_shown_by_their_directories(v: Seq<(FilePath, SessionTailer)>)
    ensures
        dirs_of(v).len() == v.len(),
        forall|i: int| 0 <= i < v.len() ==> #[trigger] dirs_of(v)[i] == v[i].0@,
{
}

} // verus!
