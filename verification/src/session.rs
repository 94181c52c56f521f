//! Following whole sessions: which files are followed, in which order, and when
//! to look for more.
use vstd::prelude::*;

use crate::event::{happenings, Event, SessionId};
use crate::folds::{fold_step, take_all};
use crate::path::{name_of, path_lt_irreflexive, path_lt_total, path_lt_transitive, FilePath};
use crate::sort::reversed;
use crate::source::{read_before, source_rank, Transcript, TranscriptFile};
use crate::stats::{no_lines, ParseStats};
use crate::tail::{
    absorbed, absorbed_news, advanced, begun, begun_news, cursor_in, feed_of, lines_of_piece,
    next_read, read_view, values_in, Aging, EmitCtx, FileTail,
};

verus! {

/// How many rounds pass between two searches for new sessions.
pub const RESCAN_EVERY: u32 = 8;

/// How long a round waits for news, in milliseconds.
pub const POLL_INTERVAL_MS: u64 = 250;

/// Where a newly opened reader starts.
#[derive(Debug, Clone, Copy, PartialEq, Eq, Structural)]
pub enum StartAt {
    /// At the first byte.
    Beginning,
    /// At the end: only what is appended.
    End,
}

/// The files of a session that are followed, in the order they are read.
#[derive(Debug)]
pub struct SessionTailer {
    /// The session's directory.
    pub session_dir: FilePath,
    /// The session.
    pub session: SessionId,
    /// The files.
    pub tails: Vec<FileTail>,
    /// What is kept while reading.
    pub ctx: EmitCtx,
}

/// The files of some tails, as mathematics.
pub open spec fn tail_views(v: Seq<FileTail>) -> Seq<Transcript> {
    Seq::new(v.len(), |i: int| v[i].file@)
}

/// Are the files in the order they are read, no two at the same place in it?
pub open spec fn in_reading_order(t: Seq<Transcript>) -> bool {
    forall|i: int, j: int| 0 <= i < j < t.len() ==> read_before(#[trigger] t[i], #[trigger] t[j])
}

/// Do the two stand at the same place: the same kind, the same path?
pub open spec fn same_place(a: Transcript, b: Transcript) -> bool {
    source_rank(a.source) == source_rank(b.source) && a.path == b.path
}

/// Is a file at this place followed?
pub open spec fn follows(t: Seq<Transcript>, f: Transcript) -> bool {
    exists|i: int| 0 <= i < t.len() && same_place(#[trigger] t[i], f)
}

/// How many of the files are read before one.
pub open spec fn place_of(t: Seq<Transcript>, f: Transcript) -> int
    decreases t.len(),
{
    if t.len() > 0 && read_before(t[0], f) {
        1 + place_of(t.drop_first(), f)
    } else {
        0
    }
}

/// The files with one more, at its place; a place that is taken stays as it is.
pub open spec fn with_file(t: Seq<Transcript>, f: Transcript) -> Seq<Transcript> {
    if follows(t, f) {
        t
    } else {
        t.insert(place_of(t, f), f)
    }
}

/// The files with the first `n` of some more.
pub open spec fn with_files(t: Seq<Transcript>, files: Seq<Transcript>, n: nat) -> Seq<Transcript>
    decreases n,
{
    if n == 0 || n > files.len() {
        t
    } else {
        with_file(with_files(t, files, (n - 1) as nat), files[n - 1])
    }
}

proof fn place_of_bounds(t: Seq<Transcript>, f: Transcript)
    ensures
        0 <= place_of(t, f) <= t.len(),
        forall|i: int| 0 <= i < place_of(t, f) ==> read_before(#[trigger] t[i], f),
        place_of(t, f) < t.len() ==> !read_before(t[place_of(t, f)], f),
    decreases t.len(),
{
    if t.len() > 0 && read_before(t[0], f) {
        place_of_bounds(t.drop_first(), f);
        assert forall|i: int| 0 <= i < place_of(t, f) implies read_before(#[trigger] t[i], f) by {
            if i > 0 {
                assert(t.drop_first()[i - 1] == t[i]);
            }
        }
    }
}

proof fn read_before_total(a: Transcript, b: Transcript)
    ensures
        read_before(a, b) || same_place(a, b) || read_before(b, a),
{
    path_lt_total(a.path, b.path);
}

proof fn read_before_transitive(a: Transcript, b: Transcript, c: Transcript)
    requires
        read_before(a, b),
        read_before(b, c),
    ensures
        read_before(a, c),
{
    if source_rank(a.source) == source_rank(b.source) && source_rank(b.source) == source_rank(
        c.source,
    ) {
        path_lt_transitive(a.path, b.path, c.path);
    }
}

/// Taking in a file keeps the reading order, keeps every file that was followed,
/// and follows the new one.
pub proof fn with_file_keeps_order(t: Seq<Transcript>, f: Transcript)
    requires
        in_reading_order(t),
    ensures
        in_reading_order(with_file(t, f)),
        follows(with_file(t, f), f),
        forall|i: int| 0 <= i < t.len() ==> with_file(t, f).contains(#[trigger] t[i]),
        t.len() <= with_file(t, f).len() <= t.len() + 1,
{
    place_of_bounds(t, f);
    let r = with_file(t, f);
    let p = place_of(t, f);
    if !follows(t, f) {
        assert forall|i: int| p <= i < t.len() implies read_before(f, #[trigger] t[i]) by {
            assert(!same_place(t[p], f));
            read_before_total(t[p], f);
            if i > p {
                read_before_transitive(f, t[p], t[i]);
            }
        }
        assert forall|i: int, j: int| 0 <= i < j < r.len() implies read_before(
            #[trigger] r[i],
            #[trigger] r[j],
        ) by {
            let a = if i < p {
                i
            } else {
                i - 1
            };
            let b = if j < p {
                j
            } else {
                j - 1
            };
            if i != p {
                assert(r[i] == t[a]);
            }
            if j != p {
                assert(r[j] == t[b]);
            }
        }
        assert forall|i: int| 0 <= i < t.len() implies r.contains(#[trigger] t[i]) by {
            let k = if i < p {
                i
            } else {
                i + 1
            };
            assert(r[k] == t[i]);
        }
        assert(same_place(r[p], f));
    } else {
        assert forall|i: int| 0 <= i < t.len() implies r.contains(#[trigger] t[i]) by {
            assert(r[i] == t[i]);
        }
    }
}

/// Taking in files keeps the reading order and never gives up a file that was
/// followed.
pub proof fn with_files_keeps_order(t: Seq<Transcript>, files: Seq<Transcript>, n: nat)
    requires
        in_reading_order(t),
        n <= files.len(),
    ensures
        in_reading_order(with_files(t, files, n)),
        forall|i: int| 0 <= i < t.len() ==> with_files(t, files, n).contains(#[trigger] t[i]),
        t.len() <= with_files(t, files, n).len() <= t.len() + n,
    decreases n,
{
    if n > 0 {
        with_files_keeps_order(t, files, (n - 1) as nat);
        let before = with_files(t, files, (n - 1) as nat);
        with_file_keeps_order(before, files[n - 1]);
        assert forall|i: int| 0 <= i < t.len() implies with_files(t, files, n).contains(
            #[trigger] t[i],
        ) by {
            let k = before.index_of(t[i]);
            assert(before[k] == t[i]);
        }
    } else {
        assert forall|i: int| 0 <= i < t.len() implies with_files(t, files, n).contains(
            #[trigger] t[i],
        ) by {
            assert(t[i] == with_files(t, files, n)[i]);
        }
    }
}

fn take_in(tails: &mut Vec<FileTail>, tail: FileTail) -> (r: bool)
    requires
        in_reading_order(tail_views(old(tails)@)),
    ensures
        tail_views(final(tails)@) == with_file(tail_views(old(tails)@), tail.file@),
        in_reading_order(tail_views(final(tails)@)),
        r == !follows(tail_views(old(tails)@), tail.file@),
{
    let ghost t = tail_views(tails@);
    let ghost f = tail.file@;
    proof {
        with_file_keeps_order(t, f);
        place_of_bounds(t, f);
    }
    let rank: u8 = tail.file.rank();
    let mut p: usize = 0;
    assert(t.skip(0) =~= t);
    while p < tails.len()
        invariant
            p <= tails.len(),
            t == tail_views(tails@),
            f == tail.file@,
            in_reading_order(t),
            rank == source_rank(f.source),
            place_of(t, f) == p + place_of(t.skip(p as int), f),
            forall|i: int| 0 <= i < p ==> !same_place(#[trigger] t[i], f),
        ensures
            p <= tails.len(),
            place_of(t, f) == p,
            forall|i: int| 0 <= i < t.len() ==> !same_place(#[trigger] t[i], f),
        decreases tails.len() - p,
    {
        assert(t[p as int] == tails@[p as int].file@);
        let here: u8 = tails[p].file.rank();
        if here == rank && tails[p].file.path.same(&tail.file.path) {
            assert(same_place(t[p as int], f));
            return false;
        }
        let before: bool = here < rank || (here == rank && tails[p].file.path.less(
            &tail.file.path,
        ));
        if !before {
            proof {
                read_before_total(t[p as int], f);
                assert forall|i: int| 0 <= i < t.len() implies !same_place(#[trigger] t[i], f) by {
                    if i > p && same_place(t[i], f) {
                        assert(read_before(t[p as int], t[i]));
                        read_before_transitive(f, t[p as int], t[i]);
                        path_lt_irreflexive(f.path);
                    }
                }
            }
            break;
        }
        assert(t.skip(p as int).drop_first() =~= t.skip(p + 1));
        proof {
            path_lt_irreflexive(f.path);
        }
        p = p + 1;
    }
    let ghost before = tails@;
    tails.insert(p, tail);
    assert(tail_views(tails@) =~= t.insert(p as int, f));
    true
}

/// A session that is opened: how long each of its files is, or nothing where
/// reading starts at the beginning.
pub open spec fn opened(files: Seq<(TranscriptFile, u64)>, start: StartAt) -> Seq<Transcript> {
    Seq::new(
        files.len(),
        |i: int|
            Transcript {
                consumed: if start is End {
                    files[i].1 as int
                } else {
                    0
                },
                ..files[i].0@
            },
    )
}

/// The offset saved for a path, the last one where there are several.
pub open spec fn saved_offset(saved: Seq<(FilePath, u64)>, path: Seq<Seq<char>>) -> Option<int>
    decreases saved.len(),
{
    if saved.len() == 0 {
        None
    } else if saved.last().0@ == path {
        Some(saved.last().1 as int)
    } else {
        saved_offset(saved.drop_last(), path)
    }
}

/// The files, each at the offset saved for it.
pub open spec fn resumed(t: Seq<Transcript>, saved: Seq<(FilePath, u64)>) -> Seq<Transcript> {
    Seq::new(
        t.len(),
        |i: int|
            match saved_offset(saved, t[i].path) {
                Some(o) => Transcript { consumed: o, ..t[i] },
                None => t[i],
            },
    )
}

fn find_saved(saved: &Vec<(FilePath, u64)>, path: &FilePath) -> (r: Option<u64>)
    ensures
        match r {
            Some(o) => saved_offset(saved@, path@) == Some(o as int),
            None => saved_offset(saved@, path@) is None,
        },
{
    let mut i: usize = saved.len();
    assert(saved@.subrange(0, i as int) =~= saved@);
    while i > 0
        invariant
            i <= saved.len(),
            saved_offset(saved@, path@) == saved_offset(saved@.subrange(0, i as int), path@),
        decreases i,
    {
        assert(saved@.subrange(0, i as int).drop_last() =~= saved@.subrange(0, i - 1));
        i = i - 1;
        if saved[i].0.same(path) {
            return Some(saved[i].1);
        }
    }
    None
}

impl SessionTailer {
    /// The parts are in order.
    pub open spec fn wf(self) -> bool {
        self.ctx.wf() && in_reading_order(tail_views(self.tails@))
    }

    /// Opens a session, given its files and how long each is.
    pub fn open(
        session_dir: &FilePath,
        files: Vec<(TranscriptFile, u64)>,
        start: StartAt,
        age: Aging,
    ) -> (r: Self)
        ensures
            r.wf(),
            r.session_dir@ == session_dir@,
            r.session@ == match name_of(session_dir@) {
                Some(n) => n,
                None => seq![],
            },
            tail_views(r.tails@) == with_files(
                seq![],
                opened(files@, start),
                files@.len(),
            ),
            r.ctx.stats@ == no_lines(),
            r.ctx.reported@ == Set::<Seq<char>>::empty(),
            r.ctx.age == age,
    {
        let session: String = match session_dir.file_name() {
            Some(n) => n.to_owned(),
            None => {
                let s: String = String::new();
                assert(s@ =~= seq![]);
                s
            },
        };
        let ghost all = files@;
        let ghost want = opened(all, start);
        let n: usize = files.len();
        let mut rest: Vec<(TranscriptFile, u64)> = reversed(files);
        let mut tails: Vec<FileTail> = Vec::new();
        let mut i: usize = 0;
        assert(tail_views(tails@) =~= seq![]);
        while i < n
            invariant
                i <= n == all.len(),
                want == opened(all, start),
                rest.len() == n - i,
                forall|k: int| 0 <= k < rest.len() ==> #[trigger] rest@[k] == all[n - 1 - k],
                in_reading_order(tail_views(tails@)),
                tail_views(tails@) == with_files(seq![], want, i as nat),
            decreases n - i,
        {
            if let Some((file, len)) = rest.pop() {
                assert((file, len) == all[i as int]);
                let mut file: TranscriptFile = file;
                file.consumed = 0;
                let tail: FileTail = match start {
                    StartAt::Beginning => FileTail::new(file),
                    StartAt::End => FileTail::at_end(file, len),
                };
                assert(tail.file@ == want[i as int]);
                let _ = take_in(&mut tails, tail);
            }
            i = i + 1;
        }
        SessionTailer {
            session_dir: session_dir.copied(),
            session,
            tails,
            ctx: EmitCtx::new(age),
        }
    }

    /// Goes on from saved offsets. A file without one stays where it is.
    pub fn resume_from(&mut self, saved: &Vec<(FilePath, u64)>)
        requires
            old(self).wf(),
        ensures
            final(self).wf(),
            tail_views(final(self).tails@) == resumed(tail_views(old(self).tails@), saved@),
            final(self).ctx == old(self).ctx,
            final(self).session == old(self).session,
            final(self).session_dir == old(self).session_dir,
    {
        let ghost t = tail_views(self.tails@);
        let ghost ctx = self.ctx;
        let ghost names = (self.session, self.session_dir);
        let mut i: usize = 0;
        while i < self.tails.len()
            invariant
                i <= self.tails.len() == t.len(),
                self.ctx == ctx,
                (self.session, self.session_dir) == names,
                forall|k: int|
                    0 <= k < i ==> (#[trigger] self.tails@[k]).file@ == resumed(t, saved@)[k],
                forall|k: int| i <= k < t.len() ==> (#[trigger] self.tails@[k]).file@ == t[k],
            decreases self.tails.len() - i,
        {
            assert(self.tails@[i as int].file@ == t[i as int]);
            if let Some(offset) = find_saved(saved, &self.tails[i].file.path) {
                self.tails[i].resume_at(offset);
            }
            i = i + 1;
        }
        proof {
            let after = tail_views(self.tails@);
            assert(after =~= resumed(t, saved@));
            assert forall|a: int, b: int| 0 <= a < b < after.len() implies read_before(
                #[trigger] after[a],
                #[trigger] after[b],
            ) by {
                assert(read_before(t[a], t[b]));
            }
        }
    }

    /// The session.
    pub fn session(&self) -> (r: &SessionId)
        ensures
            *r == self.session,
    {
        &self.session
    }

    /// The session's directory.
    pub fn session_dir(&self) -> (r: &FilePath)
        ensures
            *r == self.session_dir,
    {
        &self.session_dir
    }

    /// The counters.
    pub fn stats(&self) -> (r: &ParseStats)
        ensures
            *r == self.ctx.stats,
    {
        &self.ctx.stats
    }

    /// The files that are followed, in the order they are read.
    pub fn files(&self) -> (r: Vec<TranscriptFile>)
        ensures
            crate::source::file_views(r@) == tail_views(self.tails@),
    {
        let mut out: Vec<TranscriptFile> = Vec::new();
        let mut i: usize = 0;
        while i < self.tails.len()
            invariant
                i <= self.tails.len(),
                out.len() == i,
                forall|k: int| 0 <= k < i ==> (#[trigger] out@[k])@ == self.tails@[k].file@,
            decreases self.tails.len() - i,
        {
            out.push(self.tails[i].file().copied());
            i = i + 1;
        }
        assert(crate::source::file_views(out@) =~= tail_views(self.tails@));
        out
    }

    /// How far each file has been read, to go on from later.
    pub fn offsets(&self) -> (r: Vec<(FilePath, u64)>)
        ensures
            r.len() == self.tails.len(),
            forall|i: int|
                0 <= i < r.len() ==> (#[trigger] r@[i]).0@ == self.tails@[i].file@.path && r@[i].1
                    == self.tails@[i].file.consumed,
    {
        let mut out: Vec<(FilePath, u64)> = Vec::new();
        let mut i: usize = 0;
        while i < self.tails.len()
            invariant
                i <= self.tails.len(),
                out.len() == i,
                forall|k: int|
                    0 <= k < i ==> (#[trigger] out@[k]).0@ == self.tails@[k].file@.path && out@[k].1
                        == self.tails@[k].file.consumed,
            decreases self.tails.len() - i,
        {
            out.push((self.tails[i].file.path.copied(), self.tails[i].consumed()));
            i = i + 1;
        }
        out
    }

    /// Takes in files that were not followed yet, from their beginning; says how
    /// many there were.
    pub fn rescan(&mut self, files: Vec<TranscriptFile>) -> (r: usize)
        requires
            old(self).wf(),
        ensures
            final(self).wf(),
            tail_views(final(self).tails@) == with_files(
                tail_views(old(self).tails@),
                crate::source::file_views(files@),
                files@.len(),
            ),
            r == final(self).tails@.len() - old(self).tails@.len(),
            final(self).ctx == old(self).ctx,
            final(self).session == old(self).session,
            final(self).session_dir == old(self).session_dir,
    {
        let ghost t = tail_views(self.tails@);
        let ghost all = files@;
        let ghost want = crate::source::file_views(all);
        let n: usize = files.len();
        let mut rest: Vec<TranscriptFile> = reversed(files);
        let mut added: usize = 0;
        let mut i: usize = 0;
        let ghost kept = (self.ctx, self.session, self.session_dir);
        while i < n
            invariant
                i <= n == all.len(),
                want == crate::source::file_views(all),
                rest.len() == n - i,
                forall|k: int| 0 <= k < rest.len() ==> #[trigger] rest@[k] == all[n - 1 - k],
                in_reading_order(tail_views(self.tails@)),
                tail_views(self.tails@) == with_files(t, want, i as nat),
                added <= i,
                added == self.tails@.len() - t.len(),
                kept == (self.ctx, self.session, self.session_dir),
            decreases n - i,
        {
            if let Some(file) = rest.pop() {
                assert(file == all[i as int]);
                let ghost before = tail_views(self.tails@);
                let fresh: bool = take_in(&mut self.tails, FileTail::new(file));
                proof {
                    place_of_bounds(before, want[i as int]);
                    assert(tail_views(self.tails@).len() == self.tails@.len());
                }
                if fresh {
                    added = added + 1;
                }
            }
            i = i + 1;
        }
        added
    }

    /// What to read next from one of the files.
    pub fn begin(&mut self, i: usize, len: u64, received: i64, out: &mut Vec<Event>) -> (r: Option<
        (u64, u64),
    >)
        requires
            old(self).wf(),
            i < old(self).tails@.len(),
            old(self).ctx.stats.truncations < u64::MAX,
        ensures
            final(self).wf(),
            tail_views(final(self).tails@) == tail_views(old(self).tails@).update(
                i as int,
                Transcript {
                    consumed: cursor_in(tail_views(old(self).tails@)[i as int].consumed, len as int),
                    ..tail_views(old(self).tails@)[i as int]
                },
            ),
            final(self).ctx@ == begun(
                old(self).ctx@,
                tail_views(old(self).tails@)[i as int].consumed,
                len as int,
            ),
            happenings(final(out)@) == happenings(old(out)@) + begun_news(
                tail_views(old(self).tails@)[i as int],
                len as int,
                received as int,
            ),
            read_view(r) == next_read(
                tail_views(old(self).tails@)[i as int].consumed,
                len as int,
            ),
            final(self).session == old(self).session,
            final(self).session_dir == old(self).session_dir,
    {
        let ghost t = tail_views(self.tails@);
        let r: Option<(u64, u64)> = self.tails[i].begin(len, received, &mut self.ctx, out);
        proof {
            let after = tail_views(self.tails@);
            assert(after =~= t.update(i as int, self.tails@[i as int].file@));
            assert forall|a: int, b: int| 0 <= a < b < after.len() implies read_before(
                #[trigger] after[a],
                #[trigger] after[b],
            ) by {
                assert(read_before(t[a], t[b]));
            }
        }
        r
    }

    /// Takes in a piece of one of the files, and hands on its events.
    pub fn absorb(&mut self, i: usize, piece: &[u8], received: i64, out: &mut Vec<Event>) -> (r:
        usize)
        requires
            old(self).wf(),
            i < old(self).tails@.len(),
            old(self).ctx.stats.room(piece@.len() as int),
            old(self).ctx.stats.room(1),
            tail_views(old(self).tails@)[i as int].consumed + piece@.len() <= u64::MAX,
        ensures
            final(self).wf(),
            tail_views(final(self).tails@) == tail_views(old(self).tails@).update(
                i as int,
                Transcript {
                    consumed: advanced(
                        tail_views(old(self).tails@)[i as int].consumed,
                        piece@,
                    ),
                    ..tail_views(old(self).tails@)[i as int]
                },
            ),
            final(self).ctx@ == absorbed(
                old(self).ctx@,
                piece@,
                feed_of(tail_views(old(self).tails@)[i as int], received as int),
            ),
            happenings(final(out)@) == happenings(old(out)@) + absorbed_news(
                old(self).ctx@,
                piece@,
                feed_of(tail_views(old(self).tails@)[i as int], received as int),
            ),
            r == values_in(lines_of_piece(piece@), lines_of_piece(piece@).len()),
            final(self).session == old(self).session,
            final(self).session_dir == old(self).session_dir,
    {
        let ghost t = tail_views(self.tails@);
        let r: usize = self.tails[i].absorb(piece, received, &mut self.ctx, out);
        proof {
            let after = tail_views(self.tails@);
            assert(after =~= t.update(i as int, self.tails@[i as int].file@));
            assert forall|a: int, b: int| 0 <= a < b < after.len() implies read_before(
                #[trigger] after[a],
                #[trigger] after[b],
            ) by {
                assert(read_before(t[a], t[b]));
            }
        }
        r
    }

    /// Gives up a file that is gone.
    pub fn give_up(&mut self, i: usize)
        requires
            old(self).wf(),
            i < old(self).tails@.len(),
        ensures
            final(self).wf(),
            tail_views(final(self).tails@) == tail_views(old(self).tails@).remove(i as int),
            final(self).ctx == old(self).ctx,
            final(self).session == old(self).session,
            final(self).session_dir == old(self).session_dir,
    {
        let ghost t = tail_views(self.tails@);
        let _ = self.tails.remove(i);
        proof {
            let after = tail_views(self.tails@);
            assert(after =~= t.remove(i as int));
            assert forall|a: int, b: int| 0 <= a < b < after.len() implies read_before(
                #[trigger] after[a],
                #[trigger] after[b],
            ) by {
                let x = if a < i {
                    a
                } else {
                    a + 1
                };
                let y = if b < i {
                    b
                } else {
                    b + 1
                };
                assert(read_before(t[x], t[y]));
            }
        }
    }
}

/// Saved offsets, as the tails give them.
pub open spec fn saved_by(t: Seq<Transcript>, saved: Seq<(FilePath, u64)>) -> bool {
    &&& saved.len() == t.len()
    &&& forall|i: int|
        0 <= i < t.len() ==> (#[trigger] saved[i]).0@ == t[i].path && saved[i].1 == t[i].consumed
}

/// Do no two files share a path?
pub open spec fn paths_differ(t: Seq<Transcript>) -> bool {
    forall|i: int, j: int|
        0 <= i < j < t.len() ==> (#[trigger] t[i]).path != (#[trigger] t[j]).path
}

/// Going on later from saved offsets takes up reading where it stopped: the same
/// files, opened anew and resumed, are as they were when the offsets were saved.
pub proof fn resuming_takes_up(
    t: Seq<Transcript>,
    reopened: Seq<Transcript>,
    saved: Seq<(FilePath, u64)>,
)
    requires
        saved_by(t, saved),
        paths_differ(t),
        reopened.len() == t.len(),
        forall|i: int|
            0 <= i < t.len() ==> (#[trigger] reopened[i]) == (Transcript { consumed: 0, ..t[i] }),
    ensures
        resumed(reopened, saved) == t,
{
    assert forall|i: int| 0 <= i < t.len() implies resumed(reopened, saved)[i] == #[trigger] t[i] by {
        saved_offset_at(saved, t, saved.len(), i);
        assert(saved.take(saved.len() as int) =~= saved);
        assert(reopened[i].path == t[i].path);
    }
    assert(resumed(reopened, saved) =~= t);
}

proof fn saved_offset_at(saved: Seq<(FilePath, u64)>, t: Seq<Transcript>, n: nat, i: int)
    requires
        saved_by(t, saved),
        paths_differ(t),
        0 <= i < n <= saved.len(),
    ensures
        saved_offset(saved.take(n as int), t[i].path) == Some(t[i].consumed),
    decreases n,
{
    let s = saved.take(n as int);
    assert(s.last() == saved[n - 1]);
    assert(saved[i].1 == t[i].consumed);
    if i < n - 1 {
        assert(t[i].path != t[n - 1].path);
        saved_offset_at(saved, t, (n - 1) as nat, i);
        assert(s.drop_last() =~= saved.take(n - 1));
    }
}

/// A file is followed once: where one of its kind and path is, nothing changes; else it
/// goes in between the files that are read before it and those that are read after.
pub proof fn a_file_is_followed_once_in_its_place(t: Seq<Transcript>, f: Transcript)
    requires
        in_reading_order(t),
    ensures
        (exists|i: int|
            0 <= i < t.len() && source_rank((#[trigger] t[i]).source) == source_rank(f.source)
                && t[i].path == f.path) ==> with_file(t, f) == t,
        (forall|i: int|
            0 <= i < t.len() ==> source_rank((#[trigger] t[i]).source) != source_rank(f.source)
                || t[i].path != f.path) ==> exists|p: int|
            {
                &&& 0 <= p <= t.len()
                &&& with_file(t, f) == #[trigger] t.insert(p, f)
                &&& forall|i: int| 0 <= i < p ==> read_before(#[trigger] t[i], f)
                &&& forall|i: int| p <= i < t.len() ==> read_before(f, #[trigger] t[i])
            },
{
    if exists|i: int|
        0 <= i < t.len() && source_rank((#[trigger] t[i]).source) == source_rank(f.source)
            && t[i].path == f.path {
        let i = choose|i: int|
            0 <= i < t.len() && source_rank((#[trigger] t[i]).source) == source_rank(f.source)
                && t[i].path == f.path;
        assert(same_place(t[i], f));
    } else {
        assert(!follows(t, f));
        place_of_bounds(t, f);
        let p = place_of(t, f);
        assert forall|i: int| p <= i < t.len() implies read_before(f, #[trigger] t[i]) by {
            assert(!same_place(t[p], f));
            read_before_total(t[p], f);
            if i > p {
                assert(read_before(t[p], t[i]));
                read_before_transitive(f, t[p], t[i]);
            }
        }
        assert(with_file(t, f) == t.insert(p, f));
    }
}

proof fn files_fold(t: Seq<Transcript>, files: Seq<Transcript>, n: nat)
    requires
        n <= files.len(),
    ensures
        with_files(t, files, n) == files.take(n as int).fold_left(
            t,
            |w: Seq<Transcript>, f: Transcript| with_file(w, f),
        ),
    decreases n,
{
    if n > 0 {
        files_fold(t, files, (n - 1) as nat);
        fold_step(files, t, |w: Seq<Transcript>, f: Transcript| with_file(w, f), n);
    }
}

/// Files are taken in one after another, each as if it came alone.
pub proof fn files_are_taken_in_one_by_one(t: Seq<Transcript>, files: Seq<Transcript>)
    ensures
        with_files(t, files, files.len()) == files.fold_left(
            t,
            |w: Seq<Transcript>, f: Transcript| with_file(w, f),
        ),
{
    files_fold(t, files, files.len());
    take_all(files);
}

/// A session opened at the end of its files has read each to its length, and one opened at
/// the beginning none of them.
pub proof fn sessions_open_at_either_end(files: Seq<(TranscriptFile, u64)>, start: StartAt)
    ensures
        opened(files, start).len() == files.len(),
        forall|i: int|
            0 <= i < files.len() ==> {
                let t = #[trigger] opened(files, start)[i];
                &&& t.path == files[i].0@.path && t.session == files[i].0@.session && t.source
                    == files[i].0@.source
                &&& start == StartAt::End ==> t.consumed == files[i].1
                &&& start == StartAt::Beginning ==> t.consumed == 0
            },
{
}

/// The last offset that was saved for a path counts, and a path with none goes on where it
/// is; nothing else of a file changes.
pub proof fn the_last_saved_offset_counts(
    t: Seq<Transcript>,
    saved: Seq<(FilePath, u64)>,
    path: Seq<Seq<char>>,
)
    ensures
        match saved_offset(saved, path) {
            Some(o) => exists|i: int|
                {
                    &&& 0 <= i < saved.len()
                    &&& (#[trigger] saved[i]).0@ == path && saved[i].1 == o
                    &&& forall|j: int| i < j < saved.len() ==> (#[trigger] saved[j]).0@ != path
                },
            None => forall|j: int| 0 <= j < saved.len() ==> (#[trigger] saved[j]).0@ != path,
        },
        resumed(t, saved).len() == t.len(),
        forall|i: int|
            0 <= i < t.len() ==> {
                let r = #[trigger] resumed(t, saved)[i];
                &&& r.path == t[i].path && r.session == t[i].session && r.source == t[i].source
                &&& r.consumed == match saved_offset(saved, t[i].path) {
                    Some(o) => o,
                    None => t[i].consumed,
                }
            },
    decreases saved.len(),
{
    if saved.len() > 0 {
        let rest = saved.drop_last();
        the_last_saved_offset_counts(t, rest, path);
        assert forall|j: int| 0 <= j < rest.len() implies rest[j] == #[trigger] saved[j] by {}
        if saved.last().0@ == path {
            assert(saved[saved.len() - 1].0@ == path);
        } else if saved_offset(rest, path) is Some {
            let o = saved_offset(rest, path)->0;
            let i = choose|i: int|
                {
                    &&& 0 <= i < rest.len()
                    &&& (#[trigger] rest[i]).0@ == path && rest[i].1 == o
                    &&& forall|j: int| i < j < rest.len() ==> (#[trigger] rest[j]).0@ != path
                };
            assert(saved[i].0@ == path);
        }
    }
}

/// The files that are followed are shown one by one.
pub proof fn tails_are_shown_as_their_files(v: Seq<FileTail>)
    ensures
        tail_views(v).len() == v.len(),
        forall|i: int| 0 <= i < v.len() ==> #[trigger] tail_views(v)[i] == v[i].file@,
{
}

} // verus!
