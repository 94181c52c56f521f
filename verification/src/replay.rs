//! Reading a whole session at once, as a recording whose times never go back.
use vstd::prelude::*;

use crate::bytes::{line_views, lines_of, lines_with_offsets, lossy_text, text_from_bytes};
use crate::event::{Event, Happening};
use crate::folds::{fold_step, take_all};
use crate::line::{
    event_wall, line_tree, tallied, tallied_room, text_event, transcript_line_parts,
};
use crate::path::{stem_of, FilePath};
use crate::source::{
    attribute_to_file, file_views, source_of, transcript_source, unread, Transcript, TranscriptFile,
};
use crate::event::{Source, TranscriptSource};
use crate::sort::reversed;
use crate::stats::{no_lines, ParseStats, Tally};
use crate::time::{opt_millis, WallTime};

verus! {

/// The version of the recording format.
pub const RECORDING_FORMAT: u32 = 1;

/// What opens a recording.
#[derive(Debug)]
pub struct RecordingHeader {
    /// The version of the format.
    pub format: u32,
    /// The moment that offsets are counted from.
    pub wall_origin: WallTime,
    /// What made the recording.
    pub producer: String,
}

/// One event of a recording.
#[derive(Debug)]
pub struct RecordedEvent {
    /// When it happened; never before the event ahead of it.
    pub wall: WallTime,
    /// The same, in milliseconds since the recording's origin.
    pub monotonic_offset_ms: u64,
    /// The event.
    pub event: Event,
}

/// A session as a recording.
#[derive(Debug)]
pub struct Replay {
    /// What opens it.
    pub header: RecordingHeader,
    /// The events, file by file in byte order.
    pub events: Vec<RecordedEvent>,
    /// What was counted.
    pub stats: ParseStats,
    /// The files, in the order they were read.
    pub files: Vec<TranscriptFile>,
}

impl Replay {
    /// How many events there are.
    pub fn len(&self) -> (r: usize)
        ensures
            r == self.events@.len(),
    {
        self.events.len()
    }

    /// Are there no events?
    pub fn is_empty(&self) -> (r: bool)
        ensures
            r == (self.events@.len() == 0),
    {
        self.events.len() == 0
    }
}

/// Where an event of a recording lies on the process's own clock, in nanoseconds,
/// when the recording starts at a moment; as late as the clock goes at most.
pub open spec fn live_at(start: int, offset_ms: int) -> int {
    let at = start + offset_ms * 1_000_000;
    if at > i64::MAX {
        i64::MAX as int
    } else {
        at
    }
}

impl Replay {
    /// The events as if they happened now, with the gaps that they had.
    pub fn into_live(self, start: i64) -> (r: Vec<Event>)
        ensures
            r@.len() == self.events@.len(),
            forall|i: int|
                0 <= i < r@.len() ==> (#[trigger] r@[i])@ == (Happening {
                    observed: live_at(
                        start as int,
                        self.events@[i].monotonic_offset_ms as int,
                    ),
                    ..self.events@[i].event@
                }),
    {
        let ghost all = self.events@;
        let n: usize = self.events.len();
        let mut rest: Vec<RecordedEvent> = reversed(self.events);
        let mut out: Vec<Event> = Vec::new();
        let mut i: usize = 0;
        while i < n
            invariant
                i <= n == all.len(),
                rest.len() == n - i,
                forall|k: int| 0 <= k < rest.len() ==> #[trigger] rest@[k] == all[n - 1 - k],
                out.len() == i,
                forall|k: int|
                    0 <= k < i ==> (#[trigger] out@[k])@ == (Happening {
                        observed: live_at(start as int, all[k].monotonic_offset_ms as int),
                        ..all[k].event@
                    }),
            decreases n - i,
        {
            if let Some(e) = rest.pop() {
                assert(e == all[i as int]);
                let at: i128 = start as i128 + e.monotonic_offset_ms as i128 * 1_000_000;
                let mut event: Event = e.event;
                event.meta.observed = if at > 0x7fff_ffff_ffff_ffff {
                    0x7fff_ffff_ffff_ffff
                } else {
                    at as i64
                };
                out.push(event);
            }
            i = i + 1;
        }
        out
    }
}

/// Replayed events keep the gaps between them, as far as the clock goes.
pub proof fn replays_keep_their_gaps(start: int, a: int, b: int)
    requires
        start + a * 1_000_000 <= i64::MAX,
        start + b * 1_000_000 <= i64::MAX,
    ensures
        live_at(start, b) - live_at(start, a) == (b - a) * 1_000_000,
{
}

/// An event with the moment that its line gives for itself, as mathematics.
pub ghost struct Parsed {
    pub event: Happening,
    pub wall: Option<int>,
}

/// Parsed events, as mathematics.
pub open spec fn parsed_views(v: Seq<(Event, Option<WallTime>)>) -> Seq<Parsed> {
    Seq::new(v.len(), |i: int| Parsed { event: v[i].0@, wall: opt_millis(v[i].1) })
}

/// The event for a line of a file, put down to the file's session where the line
/// names none.
pub open spec fn parsed_line(line: (int, Seq<u8>), file: Transcript, observed: int) -> Option<Parsed> {
    let text = lossy_text(line.1);
    match text_event(text, file.source, line.0, observed) {
        Some(h) => Some(
            Parsed {
                event: Happening {
                    session: match h.session {
                        Some(s) => Some(s),
                        None => Some(file.session),
                    },
                    ..h
                },
                wall: event_wall(line_tree(text)),
            },
        ),
        None => None,
    }
}

/// The events for some lines of a file.
pub open spec fn parsed_lines(
    lines: Seq<(int, Seq<u8>)>,
    file: Transcript,
    observed: int,
) -> Seq<Parsed>
    decreases lines.len(),
{
    if lines.len() == 0 {
        seq![]
    } else {
        let before = parsed_lines(lines.drop_last(), file, observed);
        match parsed_line(lines.last(), file, observed) {
            Some(p) => before.push(p),
            None => before,
        }
    }
}

/// The tally after some lines.
pub open spec fn tallied_lines(s: Tally, lines: Seq<(int, Seq<u8>)>) -> Tally
    decreases lines.len(),
{
    if lines.len() == 0 {
        s
    } else {
        tallied(tallied_lines(s, lines.drop_last()), lossy_text(lines.last().1))
    }
}

/// The lines of a file; none where it was not there.
pub open spec fn lines_in(bytes: Option<Vec<u8>>) -> Seq<(int, Seq<u8>)> {
    match bytes {
        Some(b) => lines_of(b@),
        None => seq![],
    }
}

/// The events for the first `n` of some files.
pub open spec fn parsed_files(
    files: Seq<(TranscriptFile, Option<Vec<u8>>)>,
    observed: int,
    n: nat,
) -> Seq<Parsed>
    decreases n,
{
    if n == 0 || n > files.len() {
        seq![]
    } else {
        parsed_files(files, observed, (n - 1) as nat) + parsed_lines(
            lines_in(files[n - 1].1),
            files[n - 1].0@,
            observed,
        )
    }
}

/// The tally after the first `n` of some files.
pub open spec fn tallied_files(
    s: Tally,
    files: Seq<(TranscriptFile, Option<Vec<u8>>)>,
    n: nat,
) -> Tally
    decreases n,
{
    if n == 0 || n > files.len() {
        s
    } else {
        tallied_lines(tallied_files(s, files, (n - 1) as nat), lines_in(files[n - 1].1))
    }
}

/// How many lines the first `n` of some files have.
pub open spec fn line_total(files: Seq<(TranscriptFile, Option<Vec<u8>>)>, n: nat) -> nat
    decreases n,
{
    if n == 0 || n > files.len() {
        0
    } else {
        line_total(files, (n - 1) as nat) + lines_in(files[n - 1].1).len()
    }
}

proof fn line_total_grows(files: Seq<(TranscriptFile, Option<Vec<u8>>)>, n: nat, m: nat)
    requires
        n <= m <= files.len(),
    ensures
        line_total(files, n) <= line_total(files, m),
    decreases m,
{
    if n < m {
        line_total_grows(files, n, (m - 1) as nat);
    }
}

/// Every line of every file is counted once.
pub proof fn every_line_of_every_file_counts(
    s: Tally,
    files: Seq<(TranscriptFile, Option<Vec<u8>>)>,
    n: nat,
)
    requires
        n <= files.len(),
    ensures
        tallied_files(s, files, n).lines() == s.lines() + line_total(files, n),
    decreases n,
{
    if n > 0 {
        every_line_of_every_file_counts(s, files, (n - 1) as nat);
        every_line_counts(
            tallied_files(s, files, (n - 1) as nat),
            lines_in(files[n - 1].1),
        );
    }
}

/// Every one of some lines is counted once.
pub proof fn every_line_counts(s: Tally, lines: Seq<(int, Seq<u8>)>)
    ensures
        tallied_lines(s, lines).lines() == s.lines() + lines.len(),
    decreases lines.len(),
{
    if lines.len() > 0 {
        every_line_counts(s, lines.drop_last());
        let before = tallied_lines(s, lines.drop_last());
        crate::line::every_line_counts_once(before, line_tree(lossy_text(lines.last().1)));
    }
}

/// The earliest of some moments, if there are any.
pub open spec fn earliest(p: Seq<Parsed>) -> Option<int>
    decreases p.len(),
{
    if p.len() == 0 {
        None
    } else {
        match (earliest(p.drop_last()), p.last().wall) {
            (Some(a), Some(b)) => Some(
                if b < a {
                    b
                } else {
                    a
                },
            ),
            (None, w) => w,
            (e, None) => e,
        }
    }
}

/// The moment that offsets are counted from: the earliest that any event gives,
/// or the start of 1970.
pub open spec fn origin_of(p: Seq<Parsed>) -> int {
    match earliest(p) {
        Some(w) => w,
        None => 0,
    }
}

/// No event gives an earlier moment than the earliest.
pub proof fn earliest_is_earliest(p: Seq<Parsed>, i: int)
    requires
        0 <= i < p.len(),
        p[i].wall is Some,
    ensures
        earliest(p) is Some,
        earliest(p)->0 <= p[i].wall->0,
        origin_of(p) <= p[i].wall->0,
    decreases p.len(),
{
    if i < p.len() - 1 {
        earliest_is_earliest(p.drop_last(), i);
    }
}

/// The latest moment among the origin and the first `n` events.
pub open spec fn running(p: Seq<Parsed>, n: nat) -> int
    decreases n,
{
    if n == 0 || n > p.len() {
        origin_of(p)
    } else {
        let before = running(p, (n - 1) as nat);
        match p[n - 1].wall {
            Some(w) => if w > before {
                w
            } else {
                before
            },
            None => before,
        }
    }
}

/// A number of milliseconds, as far as a signed 64-bit count goes.
pub open spec fn capped(n: int) -> int {
    if n > i64::MAX {
        i64::MAX as int
    } else {
        n
    }
}

/// A recorded event, as mathematics.
pub ghost struct Recorded {
    pub event: Happening,
    pub wall: int,
    pub offset: int,
}

/// The recording of some events: in their order, each at the latest moment that
/// it or any event ahead of it gives.
pub open spec fn recorded(p: Seq<Parsed>) -> Seq<Recorded> {
    Seq::new(
        p.len(),
        |i: int|
            Recorded {
                event: p[i].event,
                wall: running(p, (i + 1) as nat),
                offset: capped(running(p, (i + 1) as nat) - origin_of(p)),
            },
    )
}

impl RecordedEvent {
    /// The recorded event.
    pub open spec fn view(self) -> Recorded {
        Recorded {
            event: self.event@,
            wall: self.wall.millis as int,
            offset: self.monotonic_offset_ms as int,
        }
    }
}

/// Recorded events, as mathematics.
pub open spec fn recorded_views(v: Seq<RecordedEvent>) -> Seq<Recorded> {
    Seq::new(v.len(), |i: int| v[i]@)
}

/// Going on in a recording never goes back in time.
pub proof fn running_grows(p: Seq<Parsed>, n: nat, m: nat)
    requires
        n <= m <= p.len(),
    ensures
        origin_of(p) <= running(p, n) <= running(p, m),
    decreases m,
{
    if n < m {
        running_grows(p, n, (m - 1) as nat);
    } else if n > 0 {
        running_grows(p, (n - 1) as nat, (n - 1) as nat);
    }
}

/// A recording keeps its events in their order, its times and its offsets never
/// go back, no offset is negative, no event is placed before its own moment, and
/// one event's time is past another's wherever its offset is.
pub proof fn recordings_go_forward(p: Seq<Parsed>)
    ensures
        recorded(p).len() == p.len(),
        forall|i: int| 0 <= i < p.len() ==> (#[trigger] recorded(p)[i]).event == p[i].event,
        forall|i: int, j: int|
            0 <= i <= j < p.len() ==> (#[trigger] recorded(p)[i]).wall <= (#[trigger] recorded(
                p,
            )[j]).wall && recorded(p)[i].offset <= recorded(p)[j].offset,
        forall|i: int| 0 <= i < p.len() ==> 0 <= (#[trigger] recorded(p)[i]).offset,
        forall|i: int|
            0 <= i < p.len() ==> (p[i].wall matches Some(w) ==> w <= (#[trigger] recorded(
                p,
            )[i]).wall),
        forall|i: int, j: int|
            0 <= i < p.len() && 0 <= j < p.len() && (#[trigger] recorded(p)[i]).offset
                < (#[trigger] recorded(p)[j]).offset ==> recorded(p)[i].wall < recorded(p)[j].wall,
{
    assert forall|i: int, j: int| 0 <= i <= j < p.len() implies (#[trigger] recorded(p)[i]).wall
        <= (#[trigger] recorded(p)[j]).wall && recorded(p)[i].offset <= recorded(p)[j].offset by {
        running_grows(p, (i + 1) as nat, (j + 1) as nat);
    }
    assert forall|i: int| 0 <= i < p.len() implies 0 <= (#[trigger] recorded(p)[i]).offset by {
        running_grows(p, (i + 1) as nat, p.len());
    }
}

fn earliest_of(parsed: &Vec<(Event, Option<WallTime>)>) -> (r: Option<WallTime>)
    ensures
        opt_millis(r) == earliest(parsed_views(parsed@)),
{
    let ghost p = parsed_views(parsed@);
    let mut best: Option<WallTime> = None;
    let mut i: usize = 0;
    assert(p.subrange(0, 0) =~= seq![]);
    while i < parsed.len()
        invariant
            i <= parsed.len(),
            p == parsed_views(parsed@),
            opt_millis(best) == earliest(p.subrange(0, i as int)),
        decreases parsed.len() - i,
    {
        let ghost here = p.subrange(0, i + 1);
        assert(here.drop_last() =~= p.subrange(0, i as int));
        assert(here.last() == p[i as int]);
        if let Some(w) = parsed[i].1 {
            best = match best {
                Some(b) => if w.millis < b.millis {
                    Some(w)
                } else {
                    Some(b)
                },
                None => Some(w),
            };
        }
        i = i + 1;
    }
    assert(p.subrange(0, i as int) =~= p);
    best
}

/// What opens the recording of some events.
pub fn recording_header(parsed: &Vec<(Event, Option<WallTime>)>, producer: String) -> (r:
    RecordingHeader)
    ensures
        r.format == RECORDING_FORMAT,
        r.format == 1,
        r.wall_origin.millis == origin_of(parsed_views(parsed@)),
        r.producer == producer,
{
    let wall_origin: WallTime = match earliest_of(parsed) {
        Some(w) => w,
        None => WallTime::from_unix_millis(0),
    };
    RecordingHeader { format: RECORDING_FORMAT, wall_origin, producer }
}

/// The recording of some events.
pub fn monotonise(parsed: Vec<(Event, Option<WallTime>)>) -> (r: Vec<RecordedEvent>)
    ensures
        recorded_views(r@) == recorded(parsed_views(parsed@)),
{
    let ghost p = parsed_views(parsed@);
    let origin: i64 = match earliest_of(&parsed) {
        Some(w) => w.millis,
        None => 0,
    };
    let n: usize = parsed.len();
    let ghost all = parsed@;
    let mut rest: Vec<(Event, Option<WallTime>)> = reversed(parsed);
    let mut latest: i64 = origin;
    let mut out: Vec<RecordedEvent> = Vec::new();
    let mut i: usize = 0;
    while i < n
        invariant
            i <= n == p.len(),
            p == parsed_views(all),
            rest.len() == n - i,
            forall|k: int| 0 <= k < rest.len() ==> #[trigger] rest@[k] == all[n - 1 - k],
            origin == origin_of(p),
            latest == running(p, i as nat),
            out.len() == i,
            forall|k: int| 0 <= k < i ==> (#[trigger] out@[k])@ == recorded(p)[k],
        decreases n - i,
    {
        proof {
            running_grows(p, i as nat, (i + 1) as nat);
        }
        let (event, wall) = match rest.pop() {
            Some(x) => x,
            None => return out,
        };
        assert((event, wall) == all[i as int]);
        if let Some(w) = wall {
            if w.millis > latest {
                latest = w.millis;
            }
        }
        assert(latest == running(p, (i + 1) as nat));
        let gap: i128 = latest as i128 - origin as i128;
        let offset: u64 = if gap > 0x7fff_ffff_ffff_ffff {
            0x7fff_ffff_ffff_ffff
        } else {
            gap as u64
        };
        out.push(
            RecordedEvent {
                wall: WallTime::from_unix_millis(latest),
                monotonic_offset_ms: offset,
                event,
            },
        );
        i = i + 1;
    }
    assert(recorded_views(out@) =~= recorded(p));
    out
}

/// The files of some inputs.
pub open spec fn files_in(files: Seq<(TranscriptFile, Option<Vec<u8>>)>) -> Seq<Transcript> {
    Seq::new(files.len(), |i: int| files[i].0@)
}

/// Reads some files at once, given their bytes; a file that is not there has none.
pub fn read_files(
    files: Vec<(TranscriptFile, Option<Vec<u8>>)>,
    observed: i64,
    producer: String,
) -> (r: Replay)
    requires
        line_total(files@, files@.len()) <= u64::MAX,
    ensures
        r.stats.wf(),
        r.stats@ == tallied_files(no_lines(), files@, files@.len()),
        r.stats@.lines() == line_total(files@, files@.len()),
        recorded_views(r.events@) == recorded(
            parsed_files(files@, observed as int, files@.len()),
        ),
        r.header.format == RECORDING_FORMAT,
        r.header.wall_origin.millis == origin_of(
            parsed_files(files@, observed as int, files@.len()),
        ),
        r.header.producer == producer,
        file_views(r.files@) == files_in(files@),
{
    let mut stats: ParseStats = ParseStats::new();
    let ghost zero = stats@;
    let mut parsed: Vec<(Event, Option<WallTime>)> = Vec::new();
    let mut kept: Vec<TranscriptFile> = Vec::new();
    let mut i: usize = 0;
    assert(parsed_views(parsed@) =~= seq![]);
    while i < files.len()
        invariant
            i <= files.len(),
            stats.wf(),
            stats@ == tallied_files(zero, files@, i as nat),
            line_total(files@, files@.len()) <= u64::MAX,
            stats.room(line_total(files@, files@.len()) - line_total(files@, i as nat)),
            parsed_views(parsed@) == parsed_files(files@, observed as int, i as nat),
            kept.len() == i,
            forall|k: int| 0 <= k < i ==> (#[trigger] kept@[k])@ == files@[k].0@,
        decreases files.len() - i,
    {
        let ghost lines = lines_in(files@[i as int].1);
        let ghost before = stats@;
        let ghost sofar = parsed_views(parsed@);
        let ghost all = line_total(files@, files@.len()) as int;
        let ghost past = line_total(files@, i as nat) as int;
        proof {
            line_total_grows(files@, (i + 1) as nat, files@.len());
            assert(sofar + parsed_lines(seq![], files@[i as int].0@, observed as int) =~= sofar);
        }
        let file: &TranscriptFile = &files[i].0;
        if let Some(bytes) = &files[i].1 {
            let found: Vec<(u64, &[u8])> = lines_with_offsets(bytes.as_slice());
            assert(line_views(found@) == lines);
            let mut k: usize = 0;
            assert(lines.subrange(0, 0) =~= seq![]);
            while k < found.len()
                invariant
                    k <= found.len(),
                    lines == line_views(found@),
                    stats.wf(),
                    stats@ == tallied_lines(before, lines.subrange(0, k as int)),
                    past + found.len() <= all <= u64::MAX,
                    0 <= past,
                    stats.room(all - past - k),
                    parsed_views(parsed@) == sofar + parsed_lines(
                        lines.subrange(0, k as int),
                        file@,
                        observed as int,
                    ),
                decreases found.len() - k,
            {
                let ghost here = lines.subrange(0, k + 1);
                let ghost told = parsed@;
                proof {
                    assert(here.drop_last() =~= lines.subrange(0, k as int));
                    assert(here.last() == (found@[k as int].0 as int, found@[k as int].1@));
                }
                let text: String = text_from_bytes(found[k].1);
                proof {
                    tallied_room(stats@, text@, all - past - k);
                }
                match transcript_line_parts(
                    text.as_str(),
                    &file.source,
                    found[k].0,
                    observed,
                    &mut stats,
                ) {
                    Some((event, wall)) => {
                        let mut event: Event = event;
                        attribute_to_file(&mut event, file);
                        parsed.push((event, wall));
                        assert(parsed_views(parsed@) =~= parsed_views(told).push(
                            Parsed { event: event@, wall: opt_millis(wall) },
                        ));
                    },
                    None => {},
                }
                assert(parsed_views(parsed@) =~= sofar + parsed_lines(
                    here,
                    file@,
                    observed as int,
                ));
                k = k + 1;
            }
            assert(lines.subrange(0, k as int) =~= lines);
        } else {
            assert(tallied_lines(before, lines) == before);
        }
        kept.push(file.copied());
        i = i + 1;
    }
    proof {
        every_line_of_every_file_counts(zero, files@, files@.len());
        assert(file_views(kept@) =~= files_in(files@));
    }
    Replay {
        header: recording_header(&parsed, producer),
        events: monotonise(parsed),
        stats,
        files: kept,
    }
}

/// The session that a transcript's name gives.
pub open spec fn session_in_name(path: Seq<Seq<char>>) -> Seq<char> {
    match stem_of(path) {
        Some(s) => s,
        None => seq![],
    }
}

/// A transcript on its own: its kind from its path, and its session from its name.
pub fn lone_transcript(path: &FilePath) -> (r: TranscriptFile)
    ensures
        r@ == unread(
            path@,
            session_in_name(path@),
            match source_of(path@) {
                Some(s) => s,
                None => Source::Main,
            },
        ),
{
    let source: TranscriptSource = match transcript_source(path) {
        Some(s) => s,
        None => TranscriptSource::Main,
    };
    let session: String = match path.split_name() {
        Some((stem, _)) => stem,
        None => {
            let s: String = String::new();
            assert(s@ =~= seq![]);
            s
        },
    };
    TranscriptFile { path: path.copied(), session, source, consumed: 0 }
}

/// Reads any bytes as a transcript, line by line, and says what was counted. No
/// line stops it, and every line is counted once.
pub fn fuzz_transcript_bytes(data: &[u8]) -> (r: ParseStats)
    ensures
        r.wf(),
        r@ == tallied_lines(no_lines(), lines_of(data@)),
        r@.lines() == lines_of(data@).len(),
{
    let mut stats: ParseStats = ParseStats::new();
    let lines: Vec<(u64, &[u8])> = lines_with_offsets(data);
    let ghost views = lines_of(data@);
    let mut i: usize = 0;
    assert(views.subrange(0, 0) =~= seq![]);
    while i < lines.len()
        invariant
            i <= lines@.len(),
            views == line_views(lines@),
            stats.wf(),
            stats.room(lines.len() - i),
            stats@ == tallied_lines(no_lines(), views.subrange(0, i as int)),
        decreases lines.len() - i,
    {
        let ghost here = views.subrange(0, i + 1);
        assert(here.drop_last() =~= views.subrange(0, i as int));
        assert(here.last() == (lines@[i as int].0 as int, lines@[i as int].1@));
        let text: String = text_from_bytes(lines[i].1);
        proof {
            tallied_room(stats@, text@, lines.len() - i);
        }
        let _ = transcript_line_parts(
            text.as_str(),
            &TranscriptSource::Main,
            lines[i].0,
            0,
            &mut stats,
        );
        i = i + 1;
    }
    proof {
        assert(views.subrange(0, i as int) =~= views);
        every_line_counts(no_lines(), views);
    }
    stats
}

/// An event of a replay lies as many million nanoseconds behind the start as its offset
/// has milliseconds, or at the end of the clock where that is past it.
pub proof fn replays_start_at_their_start(start: int, offset: int)
    requires
        start <= i64::MAX,
    ensures
        live_at(start, 0) == start,
        live_at(start, offset) <= 9_223_372_036_854_775_807,
        start + offset * 1_000_000 <= 9_223_372_036_854_775_807 ==> live_at(start, offset) == start
            + offset * 1_000_000,
        start + offset * 1_000_000 > 9_223_372_036_854_775_807 ==> live_at(start, offset)
            == 9_223_372_036_854_775_807,
{
}

/// A line of a file is the event that its text is at its place in the file, in the session
/// that it names or else the file's, with the moment that it gives.
pub proof fn a_read_line_is_its_event(line: (int, Seq<u8>), file: Transcript, observed: int)
    ensures
        match text_event(lossy_text(line.1), file.source, line.0, observed) {
            None => parsed_line(line, file, observed) is None,
            Some(h) => parsed_line(line, file, observed) matches Some(p) && p.event == (Happening {
                session: if h.session is Some {
                    h.session
                } else {
                    Some(file.session)
                },
                ..h
            }) && p.wall == event_wall(line_tree(lossy_text(line.1))),
        },
{
}

/// The events of a file are those of its lines, and each line is tallied, one line after
/// another; the same holds of the files. A file that was not there has no lines.
pub proof fn files_are_read_line_by_line(
    s: Tally,
    lines: Seq<(int, Seq<u8>)>,
    file: Transcript,
    files: Seq<(TranscriptFile, Option<Vec<u8>>)>,
    observed: int,
)
    ensures
        parsed_lines(lines, file, observed) == lines.fold_left(
            Seq::<Parsed>::empty(),
            |w: Seq<Parsed>, x: (int, Seq<u8>)|
                match parsed_line(x, file, observed) {
                    Some(p) => w.push(p),
                    None => w,
                },
        ),
        tallied_lines(s, lines) == lines.fold_left(
            s,
            |w: Tally, x: (int, Seq<u8>)| tallied(w, lossy_text(x.1)),
        ),
        parsed_files(files, observed, files.len()) == files.fold_left(
            Seq::<Parsed>::empty(),
            |w: Seq<Parsed>, x: (TranscriptFile, Option<Vec<u8>>)|
                match x.1 {
                    Some(b) => w + parsed_lines(lines_of(b@), x.0@, observed),
                    None => w,
                },
        ),
        tallied_files(s, files, files.len()) == files.fold_left(
            s,
            |w: Tally, x: (TranscriptFile, Option<Vec<u8>>)|
                match x.1 {
                    Some(b) => tallied_lines(w, lines_of(b@)),
                    None => w,
                },
        ),
        line_total(files, files.len()) == files.fold_left(
            0nat,
            |w: nat, x: (TranscriptFile, Option<Vec<u8>>)|
                match x.1 {
                    Some(b) => w + lines_of(b@).len(),
                    None => w,
                },
        ),
{
    lines_fold(s, lines, file, observed);
    files_fold(s, files, observed, files.len());
    take_all(files);
}

proof fn lines_fold(s: Tally, lines: Seq<(int, Seq<u8>)>, file: Transcript, observed: int)
    ensures
        parsed_lines(lines, file, observed) == lines.fold_left(
            Seq::<Parsed>::empty(),
            |w: Seq<Parsed>, x: (int, Seq<u8>)|
                match parsed_line(x, file, observed) {
                    Some(p) => w.push(p),
                    None => w,
                },
        ),
        tallied_lines(s, lines) == lines.fold_left(
            s,
            |w: Tally, x: (int, Seq<u8>)| tallied(w, lossy_text(x.1)),
        ),
    decreases lines.len(),
{
    if lines.len() > 0 {
        lines_fold(s, lines.drop_last(), file, observed);
    }
}

proof fn files_fold(
    s: Tally,
    files: Seq<(TranscriptFile, Option<Vec<u8>>)>,
    observed: int,
    n: nat,
)
    requires
        n <= files.len(),
    ensures
        parsed_files(files, observed, n) == files.take(n as int).fold_left(
            Seq::<Parsed>::empty(),
            |w: Seq<Parsed>, x: (TranscriptFile, Option<Vec<u8>>)|
                match x.1 {
                    Some(b) => w + parsed_lines(lines_of(b@), x.0@, observed),
                    None => w,
                },
        ),
        tallied_files(s, files, n) == files.take(n as int).fold_left(
            s,
            |w: Tally, x: (TranscriptFile, Option<Vec<u8>>)|
                match x.1 {
                    Some(b) => tallied_lines(w, lines_of(b@)),
                    None => w,
                },
        ),
        line_total(files, n) == files.take(n as int).fold_left(
            0nat,
            |w: nat, x: (TranscriptFile, Option<Vec<u8>>)|
                match x.1 {
                    Some(b) => w + lines_of(b@).len(),
                    None => w,
                },
        ),
    decreases n,
{
    if n > 0 {
        files_fold(s, files, observed, (n - 1) as nat);
        fold_step(
            files,
            Seq::<Parsed>::empty(),
            |w: Seq<Parsed>, x: (TranscriptFile, Option<Vec<u8>>)|
                match x.1 {
                    Some(b) => w + parsed_lines(lines_of(b@), x.0@, observed),
                    None => w,
                },
            n,
        );
        fold_step(
            files,
            s,
            |w: Tally, x: (TranscriptFile, Option<Vec<u8>>)|
                match x.1 {
                    Some(b) => tallied_lines(w, lines_of(b@)),
                    None => w,
                },
            n,
        );
        fold_step(
            files,
            0nat,
            |w: nat, x: (TranscriptFile, Option<Vec<u8>>)|
                match x.1 {
                    Some(b) => w + lines_of(b@).len(),
                    None => w,
                },
            n,
        );
        let before = parsed_files(files, observed, (n - 1) as nat);
        assert(before + Seq::<Parsed>::empty() =~= before);
        assert(parsed_lines(seq![], files[n - 1].0@, observed) =~= seq![]);
    }
}

proof fn earliest_is_given(p: Seq<Parsed>)
    ensures
        match earliest(p) {
            Some(w) => exists|i: int| 0 <= i < p.len() && (#[trigger] p[i]).wall == Some(w),
            None => forall|i: int| 0 <= i < p.len() ==> (#[trigger] p[i]).wall is None,
        },
    decreases p.len(),
{
    if p.len() > 0 {
        let rest = p.drop_last();
        earliest_is_given(rest);
        assert forall|i: int| 0 <= i < rest.len() implies rest[i] == #[trigger] p[i] by {}
        assert(p[p.len() - 1] == p.last());
        if earliest(rest) is Some {
            let w = earliest(rest)->0;
            let i = choose|i: int| 0 <= i < rest.len() && (#[trigger] rest[i]).wall == Some(w);
            assert(p[i].wall == Some(w));
        }
    }
}

/// A recording counts from the earliest moment that any of its events gives, or from the
/// start of 1970 where none gives one.
pub proof fn recordings_count_from_their_earliest(p: Seq<Parsed>)
    ensures
        (forall|i: int| 0 <= i < p.len() ==> (#[trigger] p[i]).wall is None) ==> origin_of(p) == 0,
        (exists|i: int| 0 <= i < p.len() && (#[trigger] p[i]).wall is Some) ==> exists|i: int|
            0 <= i < p.len() && (#[trigger] p[i]).wall == Some(origin_of(p)),
        forall|i: int|
            0 <= i < p.len() && (#[trigger] p[i]).wall is Some ==> origin_of(p) <= p[i].wall->0,
{
    earliest_is_given(p);
    if exists|i: int| 0 <= i < p.len() && (#[trigger] p[i]).wall is Some {
        assert(earliest(p) is Some);
    }
    assert forall|i: int| 0 <= i < p.len() && (#[trigger] p[i]).wall is Some implies origin_of(p)
        <= p[i].wall->0 by {
        earliest_is_earliest(p, i);
    }
}

proof fn running_is_given(p: Seq<Parsed>, n: nat)
    requires
        n <= p.len(),
    ensures
        forall|i: int|
            0 <= i < n && (#[trigger] p[i]).wall is Some ==> p[i].wall->0 <= running(p, n),
        running(p, n) == origin_of(p) || exists|i: int|
            0 <= i < n && (#[trigger] p[i]).wall == Some(running(p, n)),
    decreases n,
{
    if n > 0 {
        running_is_given(p, (n - 1) as nat);
        let before = running(p, (n - 1) as nat);
        if running(p, n) == before && before != origin_of(p) {
            let i = choose|i: int| 0 <= i < n - 1 && (#[trigger] p[i]).wall == Some(before);
            assert(p[i].wall == Some(running(p, n)));
        } else if running(p, n) != before {
            assert(p[n - 1].wall == Some(running(p, n)));
        }
    }
}

/// Each event of a recording stands at the latest moment that it or one before it gives,
/// and at the origin where none gives a later one; its offset is what lies between,
/// as far as its number goes.
pub proof fn recorded_events_stand_at_the_latest_moment(p: Seq<Parsed>, k: int)
    requires
        0 <= k < p.len(),
    ensures
        ({
            let r = recorded(p)[k];
            &&& forall|i: int| 0 <= i <= k && (#[trigger] p[i]).wall is Some ==> p[i].wall->0
                <= r.wall
            &&& r.wall == origin_of(p) || exists|i: int|
                0 <= i <= k && (#[trigger] p[i]).wall == Some(r.wall)
            &&& r.event == p[k].event
            &&& r.offset == if r.wall - origin_of(p) > 9_223_372_036_854_775_807 {
                9_223_372_036_854_775_807
            } else {
                r.wall - origin_of(p)
            }
        }),
{
    let n = (k + 1) as nat;
    running_is_given(p, n);
    let r = recorded(p)[k];
    if r.wall != origin_of(p) {
        let i = choose|i: int| 0 <= i < n && (#[trigger] p[i]).wall == Some(running(p, n));
        assert(p[i].wall == Some(r.wall));
    }
}

/// A transcript on its own belongs to the session that its name without the extension is.
pub proof fn a_lone_transcript_is_named_after_its_session(path: Seq<Seq<char>>)
    ensures
        match stem_of(path) {
            Some(s) => session_in_name(path) == s,
            None => session_in_name(path).len() == 0,
        },
{
}

/// Recorded events are shown one by one, each with its moment and its offset; so are
/// parsed ones, with the moment that their line gives.
pub proof fn recordings_are_shown_whole(
    v: Seq<RecordedEvent>,
    p: Seq<(Event, Option<WallTime>)>,
)
    ensures
        recorded_views(v).len() == v.len(),
        forall|i: int|
            0 <= i < v.len() ==> {
                let x = #[trigger] recorded_views(v)[i];
                x.event == v[i].event@ && x.wall == v[i].wall.millis && x.offset
                    == v[i].monotonic_offset_ms
            },
        parsed_views(p).len() == p.len(),
        forall|i: int|
            0 <= i < p.len() ==> {
                let x = #[trigger] parsed_views(p)[i];
                &&& x.event == p[i].0@
                &&& p[i].1 is None ==> x.wall is None
                &&& p[i].1 is Some ==> x.wall == Some(p[i].1->0.millis as int)
            },
{
}

} // verus!
