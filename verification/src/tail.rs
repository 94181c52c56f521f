//! Following a transcript as it grows: which bytes to read next, and the events
//! for what was read.
use vstd::prelude::*;

use crate::bytes::{
    break_from, break_from_bounds, line_views, lines_from, lines_in_pieces, lines_of,
    lines_with_offsets, lossy_text, shifted, text_from_bytes,
};
use crate::event::{copied_text, drift_at, happenings, happenings_push, Event, Happening, Source};
use crate::folds::{filter_none, filter_step, fold_step, take_all};
use crate::json::opt_text;
use crate::line::{
    event_wall, is_blank, line_tree, tallied, tallied_room, text_event, transcript_line_parts,
};
use crate::ordered::{ascending, ascending_len, greatest, in_order, in_order_is, TextSet};
use crate::path::path_text;
use crate::source::{attribute_to_file, Transcript, TranscriptFile};
use crate::stats::{no_lines, ParseStats, Tally};
use crate::text::push_text;
use crate::time::{opt_millis, WallTime};

verus! {

/// Most bytes read from one file at a time.
pub const MAX_POLL_BYTES: u64 = 8_388_608;

/// Puts an event's moment where its record was written, not where it was read.
#[derive(Debug)]
pub struct Aging {
    /// A moment of the process's own clock, in nanoseconds.
    pub mono_origin: i64,
    /// The same moment of the wall clock.
    pub wall_origin: WallTime,
    /// The latest moment given so far.
    pub running: Option<i64>,
}

/// The two clocks at one moment.
pub ghost struct Origin {
    pub mono: int,
    pub wall: int,
}

/// Where a wall-clock moment lies on the process's own clock: as long before the
/// pairing of the clocks as the wall clock says, and at the time of receipt for
/// what is no older than that or too old for the clock. Never after the time of receipt:
/// nothing is written after it was read.
pub open spec fn aged(origin: Origin, wall: int, received: int) -> int {
    let behind = origin.wall - wall;
    let at = origin.mono - behind * 1_000_000;
    if behind <= 0 || at < i64::MIN || at > received {
        received
    } else {
        at
    }
}

/// The moment given to an event: its own where it has one, never before one
/// given earlier.
pub open spec fn stamped(
    origin: Origin,
    running: Option<int>,
    wall: Option<int>,
    received: int,
) -> int {
    let at = match wall {
        Some(w) => aged(origin, w, received),
        None => received,
    };
    match running {
        Some(r) => if r > at {
            r
        } else {
            at
        },
        None => at,
    }
}

/// An optional moment, as a number.
pub open spec fn opt_moment(m: Option<i64>) -> Option<int> {
    match m {
        Some(v) => Some(v as int),
        None => None,
    }
}

impl Aging {
    /// The two clocks at one moment.
    pub open spec fn origin(self) -> Origin {
        Origin { mono: self.mono_origin as int, wall: self.wall_origin.millis as int }
    }

    /// Pairs the two clocks.
    pub fn start(mono: i64, wall: WallTime) -> (r: Self)
        ensures
            r.origin() == (Origin { mono: mono as int, wall: wall.millis as int }),
            r.mono_origin == mono,
            r.wall_origin == wall,
            r.running is None,
    {
        Aging { mono_origin: mono, wall_origin: wall, running: None }
    }

    /// The moment given to an event.
    pub fn stamp(&mut self, wall: Option<WallTime>, received: i64) -> (r: i64)
        ensures
            r == stamped(
                old(self).origin(),
                opt_moment(old(self).running),
                opt_millis(wall),
                received as int,
            ),
            final(self).running == Some(r),
            final(self).origin() == old(self).origin(),
    {
        let at: i64 = match wall {
            Some(w) => self.at(w, received),
            None => received,
        };
        let stamp: i64 = match self.running {
            Some(r) => if r > at {
                r
            } else {
                at
            },
            None => at,
        };
        self.running = Some(stamp);
        stamp
    }

    fn at(&self, wall: WallTime, received: i64) -> (r: i64)
        ensures
            r == aged(self.origin(), wall.millis as int, received as int),
    {
        let behind: i128 = self.wall_origin.millis as i128 - wall.millis as i128;
        if behind <= 0 {
            return received;
        }
        let at: i128 = self.mono_origin as i128 - behind * 1_000_000;
        if at < -0x8000_0000_0000_0000 || at > received as i128 {
            received
        } else {
            at as i64
        }
    }
}

/// Moments given one after another never go back.
pub proof fn stamps_never_go_back(
    origin: Origin,
    running: Option<int>,
    wall: Option<int>,
    received: int,
)
    ensures
        running matches Some(r) ==> r <= stamped(origin, running, wall, received),
{
}

/// A record is never placed after it was received, where nothing later was placed before.
pub proof fn stamp_is_not_after_receipt(
    origin: Origin,
    running: Option<int>,
    wall: Option<int>,
    received: int,
)
    requires
        running matches Some(r) ==> r <= received,
    ensures
        stamped(origin, running, wall, received) <= received,
{
}

/// What a reader of a session's files keeps while it hands on events.
#[derive(Debug)]
pub struct EmitCtx {
    /// The counters of the session.
    pub stats: ParseStats,
    /// The unmodelled types that were reported already.
    pub reported: TextSet,
    /// The session's two clocks.
    pub age: Aging,
}

/// What a reader keeps, as mathematics.
pub ghost struct Emitting {
    pub tally: Tally,
    pub reported: Set<Seq<char>>,
    pub running: Option<int>,
    pub origin: Origin,
}

/// The text that names an unmodelled type, quoted as `{:?}` writes a string.
pub uninterp spec fn quoted(text: Seq<char>) -> Seq<char>;

/// `{:?}` of a string, by `format!`: the text depends on the string alone. How
/// characters are escaped is not stated.
#[verifier::external_body]
fn quote(text: &str) -> (r: String)
    ensures
        r@ == quoted(text@),
{
    format!("{text:?}")
}

/// What is said of an unmodelled type.
pub open spec fn drift_detail(kind: Seq<char>) -> Seq<char> {
    "unmodelled transcript record type "@ + quoted(kind)
}

/// The news of the types among `keys` that were not reported yet.
pub open spec fn drift_news(
    keys: Seq<Seq<char>>,
    reported: Set<Seq<char>>,
    version: Option<Seq<char>>,
    received: int,
) -> Seq<Happening>
    decreases keys.len(),
{
    if keys.len() == 0 {
        seq![]
    } else {
        let before = drift_news(keys.drop_last(), reported, version, received);
        if reported.contains(keys.last()) {
            before
        } else {
            before.push(drift_at(version, drift_detail(keys.last()), received))
        }
    }
}

/// A line of a file, and when it was received.
pub ghost struct Incoming {
    pub text: Seq<char>,
    pub session: Seq<char>,
    pub source: Source,
    pub offset: int,
    pub received: int,
}

/// Where lines come from: the file's session and kind, the byte that the first
/// line's offset is counted from, and when they were received.
pub ghost struct Feed {
    pub session: Seq<char>,
    pub source: Source,
    pub base: int,
    pub received: int,
}

/// What comes from a file that has been read so far.
pub open spec fn feed_of(file: Transcript, received: int) -> Feed {
    Feed { session: file.session, source: file.source, base: file.consumed, received }
}

/// The event for a line, put down to its file's session where it names none, and
/// placed in time.
pub open spec fn placed(e: Emitting, l: Incoming) -> Option<Happening> {
    match text_event(l.text, l.source, l.offset, l.received) {
        Some(h) => Some(
            Happening {
                session: match h.session {
                    Some(s) => Some(s),
                    None => Some(l.session),
                },
                observed: stamped(e.origin, e.running, event_wall(line_tree(l.text)), l.received),
                ..h
            },
        ),
        None => None,
    }
}

/// Did the line bring a type that had not been seen?
pub open spec fn brings_type(e: Emitting, l: Incoming) -> bool {
    tallied(e.tally, l.text).types.dom() != e.tally.types.dom()
}

/// The events for a line: news of new types first, then its own.
pub open spec fn emitted(e: Emitting, l: Incoming) -> Seq<Happening> {
    match placed(e, l) {
        None => seq![],
        Some(h) => {
            let after = tallied(e.tally, l.text);
            let news = if brings_type(e, l) {
                drift_news(
                    in_order(after.types.dom()),
                    e.reported,
                    greatest(after.versions),
                    l.received,
                )
            } else {
                seq![]
            };
            news.push(h)
        },
    }
}

/// What is kept after a line.
pub open spec fn after_line(e: Emitting, l: Incoming) -> Emitting {
    let tally = tallied(e.tally, l.text);
    match placed(e, l) {
        None => Emitting { tally, ..e },
        Some(h) => Emitting {
            tally,
            reported: if brings_type(e, l) {
                e.reported.union(tally.types.dom())
            } else {
                e.reported
            },
            running: Some(h.observed),
            origin: e.origin,
        },
    }
}

impl EmitCtx {
    /// The parts are in order.
    pub open spec fn wf(self) -> bool {
        self.stats.wf() && self.reported.wf()
    }

    /// What is kept.
    pub open spec fn view(self) -> Emitting {
        Emitting {
            tally: self.stats@,
            reported: self.reported@,
            running: opt_moment(self.age.running),
            origin: self.age.origin(),
        }
    }

    /// Nothing read yet.
    pub fn new(age: Aging) -> (r: Self)
        ensures
            r.wf(),
            r.stats@ == no_lines(),
            r.stats.room(u64::MAX as int),
            r.reported@ == Set::<Seq<char>>::empty(),
            r.age == age,
    {
        EmitCtx { stats: ParseStats::new(), reported: TextSet::new(), age }
    }

    /// Hands on the events for a line; says how many records there were, one or
    /// none.
    pub fn emit(
        &mut self,
        line: &str,
        file: &TranscriptFile,
        offset: u64,
        received: i64,
        out: &mut Vec<Event>,
    ) -> (r: usize)
        requires
            old(self).wf(),
            old(self).stats.room(1),
        ensures
            final(self).wf(),
            final(self)@ == after_line(
                old(self)@,
                (Incoming {
                    text: line@,
                    session: file.session@,
                    source: file.source@,
                    offset: offset as int,
                    received: received as int,
                }),
            ),
            happenings(final(out)@) == happenings(old(out)@) + emitted(
                old(self)@,
                (Incoming {
                    text: line@,
                    session: file.session@,
                    source: file.source@,
                    offset: offset as int,
                    received: received as int,
                }),
            ),
            r == if text_event(line@, file.source@, offset as int, received as int) is Some {
                1int
            } else {
                0
            },
    {
        broadcast use happenings_push;

        let ghost l = Incoming {
            text: line@,
            session: file.session@,
            source: file.source@,
            offset: offset as int,
            received: received as int,
        };
        let ghost e = self@;
        let ghost start = happenings(out@);
        let before: usize = self.stats.unknown_types_seen.len();
        proof {
            ascending_len(self.stats.unknown_types_seen.keys());
            tallied_room(self.stats@, line@, 1);
        }
        let (event, wall) = match transcript_line_parts(
            line,
            &file.source,
            offset,
            received,
            &mut self.stats,
        ) {
            Some(p) => p,
            None => {
                assert(happenings(out@) =~= start + emitted(e, l));
                return 0;
            },
        };
        let mut event: Event = event;
        attribute_to_file(&mut event, file);
        event.meta.observed = self.age.stamp(wall, event.meta.observed);
        let after: usize = self.stats.unknown_types_seen.len();
        proof {
            ascending_len(self.stats.unknown_types_seen.keys());
            let a = e.tally.types.dom();
            let b = self.stats@.types.dom();
            assert(a.subset_of(b));
            if before == after {
                vstd::set_lib::lemma_subset_equality(a, b);
            }
            assert(placed(e, l) == Some(event@));
            assert((before != after) == brings_type(e, l));
        }
        if after != before {
            self.report_new_drift(received, out);
        } else {
            assert(happenings(out@) =~= start + Seq::<Happening>::empty());
        }
        let ghost told = happenings(out@);
        out.push(event);
        assert(happenings(out@) == told.push(event@));
        assert(happenings(out@) =~= start + emitted(e, l));
        1
    }

    fn report_new_drift(&mut self, received: i64, out: &mut Vec<Event>)
        requires
            old(self).wf(),
        ensures
            final(self).wf(),
            final(self).stats == old(self).stats,
            final(self).age == old(self).age,
            final(self).reported@ == old(self).reported@.union(old(self).stats@.types.dom()),
            happenings(final(out)@) == happenings(old(out)@) + drift_news(
                in_order(old(self).stats@.types.dom()),
                old(self).reported@,
                greatest(old(self).stats@.versions),
                received as int,
            ),
    {
        broadcast use happenings_push;

        let version: Option<String> = match self.stats.versions_seen.last() {
            Some(v) => Some(v.clone()),
            None => None,
        };
        let n: usize = self.stats.unknown_types_seen.len();
        let ghost keys = self.stats.unknown_types_seen.keys();
        let ghost known = self.reported@;
        let ghost start = happenings(out@);
        let ghost stats = self.stats;
        let ghost age = self.age;
        proof {
            in_order_is(keys, self.stats@.types.dom());
            assert(keys.subrange(0, 0) =~= seq![]);
            assert(known.union(keys.subrange(0, 0).to_set()) =~= known);
            assert(start + drift_news(
                keys.subrange(0, 0),
                known,
                opt_text(version),
                received as int,
            ) =~= start);
        }
        let mut i: usize = 0;
        while i < n
            invariant
                self.wf(),
                self.stats == stats,
                self.age == age,
                i <= n == keys.len(),
                keys == stats.unknown_types_seen.keys(),
                ascending(keys),
                self.reported@ == known.union(keys.subrange(0, i as int).to_set()),
                happenings(out@) == start + drift_news(
                    keys.subrange(0, i as int),
                    known,
                    opt_text(version),
                    received as int,
                ),
            decreases n - i,
        {
            let ghost past = keys.subrange(0, i as int);
            let ghost now = keys.subrange(0, i + 1);
            let kind: String = self.stats.unknown_types_seen.key_at(i).clone();
            proof {
                assert(now.drop_last() =~= past);
                assert(now =~= past.push(kind@));
                assert(now.to_set() =~= past.to_set().insert(kind@)) by {
                    assert(now[i as int] == kind@);
                    assert forall|k: Seq<char>| past.to_set().contains(k) implies
                        now.to_set().contains(k) by {
                        let a = past.index_of(k);
                        assert(now[a] == k);
                    }
                }
                if past.to_set().contains(kind@) {
                    let a = past.index_of(kind@);
                    assert(keys[a] == keys[i as int]);
                    crate::text::text_lt_irreflexive(kind@);
                }
            }
            let fresh: bool = self.reported.insert(kind.clone());
            assert(self.reported@ =~= known.union(now.to_set()));
            if fresh {
                let mut detail: String = String::new();
                push_text(&mut detail, "unmodelled transcript record type ");
                push_text(&mut detail, quote(kind.as_str()).as_str());
                assert(detail@ =~= drift_detail(kind@));
                let told = Event::drift(copied_text(&version), detail, received);
                let ghost sofar = happenings(out@);
                out.push(told);
                assert(happenings(out@) == sofar.push(told@));
            }
            assert(happenings(out@) =~= start + drift_news(
                now,
                known,
                opt_text(version),
                received as int,
            ));
            i = i + 1;
        }
        assert(keys.subrange(0, n as int) =~= keys);
    }
}

/// One transcript being followed.
#[derive(Debug)]
pub struct FileTail {
    /// The file, and how far it has been read.
    pub file: TranscriptFile,
}

/// What is said of a file that shrank.
pub open spec fn shrank_detail(path: Seq<Seq<char>>) -> Seq<char> {
    "transcript shrank below the read cursor, re-reading from 0: "@ + path_text(path)
}

/// Where reading goes on, in a file of so many bytes.
pub open spec fn cursor_in(consumed: int, len: int) -> int {
    if len < consumed {
        0
    } else {
        consumed
    }
}

/// How many bytes to read next.
pub open spec fn wanted(consumed: int, len: int) -> int {
    let left = len - cursor_in(consumed, len);
    if left > MAX_POLL_BYTES {
        MAX_POLL_BYTES as int
    } else {
        left
    }
}

/// How many bytes of a piece are whole lines: up to and with its last line break.
pub open spec fn whole_lines(data: Seq<u8>) -> int
    decreases data.len(),
{
    if data.len() == 0 || data.last() == 10 {
        data.len() as int
    } else {
        whole_lines(data.drop_last())
    }
}

/// Whole lines end with a line break, and nothing behind them holds one.
pub proof fn whole_lines_bounds(data: Seq<u8>)
    ensures
        0 <= whole_lines(data) <= data.len(),
        whole_lines(data) > 0 ==> data[whole_lines(data) - 1] == 10,
        forall|i: int| whole_lines(data) <= i < data.len() ==> data[i] != 10,
    decreases data.len(),
{
    if data.len() > 0 && data.last() != 10 {
        whole_lines_bounds(data.drop_last());
        assert forall|i: int| whole_lines(data) <= i < data.len() implies data[i] != 10 by {
            if i < data.len() - 1 {
                assert(data.drop_last()[i] == data[i]);
            }
        }
    }
}

/// How far reading has come after a piece: past its whole lines. A piece without
/// a line break is passed over where it is as long as a piece can be, and read
/// again where it is not.
pub open spec fn advanced(consumed: int, data: Seq<u8>) -> int {
    if whole_lines(data) > 0 {
        consumed + whole_lines(data)
    } else if data.len() >= MAX_POLL_BYTES {
        consumed + data.len()
    } else {
        consumed
    }
}

/// A line of a feed, as it comes in.
pub open spec fn incoming(line: (int, Seq<u8>), feed: Feed) -> Incoming {
    Incoming {
        text: lossy_text(line.1),
        session: feed.session,
        source: feed.source,
        offset: feed.base + line.0,
        received: feed.received,
    }
}

/// What is kept after the first `n` of some lines.
pub open spec fn after_lines(e: Emitting, lines: Seq<(int, Seq<u8>)>, feed: Feed, n: nat) -> Emitting
    decreases n,
{
    if n == 0 || n > lines.len() {
        e
    } else {
        after_line(after_lines(e, lines, feed, (n - 1) as nat), incoming(lines[n - 1], feed))
    }
}

/// The events for the first `n` of some lines.
pub open spec fn emitted_lines(
    e: Emitting,
    lines: Seq<(int, Seq<u8>)>,
    feed: Feed,
    n: nat,
) -> Seq<Happening>
    decreases n,
{
    if n == 0 || n > lines.len() {
        seq![]
    } else {
        emitted_lines(e, lines, feed, (n - 1) as nat) + emitted(
            after_lines(e, lines, feed, (n - 1) as nat),
            incoming(lines[n - 1], feed),
        )
    }
}

/// How many of the first `n` lines are JSON, records or not.
pub open spec fn values_in(lines: Seq<(int, Seq<u8>)>, n: nat) -> nat
    decreases n,
{
    if n == 0 || n > lines.len() {
        0
    } else {
        let text = lossy_text(lines[n - 1].1);
        values_in(lines, (n - 1) as nat) + if !is_blank(text) && line_tree(text) is Some {
            1nat
        } else {
            0nat
        }
    }
}

/// What is kept after looking at a file of so many bytes.
pub open spec fn begun(e: Emitting, consumed: int, len: int) -> Emitting {
    if len < consumed {
        Emitting { tally: Tally { truncations: e.tally.truncations + 1, ..e.tally }, ..e }
    } else {
        e
    }
}

/// The news of looking at a file of so many bytes.
pub open spec fn begun_news(file: Transcript, len: int, received: int) -> Seq<Happening> {
    if len < file.consumed {
        seq![drift_at(None, shrank_detail(file.path), received)]
    } else {
        seq![]
    }
}

/// What to read from a file of so many bytes: from where, and how much. Nothing
/// where all has been read.
pub open spec fn next_read(consumed: int, len: int) -> Option<(int, int)> {
    if cursor_in(consumed, len) == len {
        None
    } else {
        Some((cursor_in(consumed, len), wanted(consumed, len)))
    }
}

/// An optional read, as mathematics.
pub open spec fn read_view(r: Option<(u64, u64)>) -> Option<(int, int)> {
    match r {
        Some(p) => Some((p.0 as int, p.1 as int)),
        None => None,
    }
}

/// The whole lines of a piece.
pub open spec fn lines_of_piece(piece: Seq<u8>) -> Seq<(int, Seq<u8>)> {
    lines_of(piece.take(whole_lines(piece)))
}

/// What is kept after a piece.
pub open spec fn absorbed(e: Emitting, piece: Seq<u8>, feed: Feed) -> Emitting {
    let lines = lines_of_piece(piece);
    let after = after_lines(e, lines, feed, lines.len());
    if whole_lines(piece) == 0 && piece.len() >= MAX_POLL_BYTES {
        Emitting {
            tally: Tally { oversize_lines: after.tally.oversize_lines + 1, ..after.tally },
            ..after
        }
    } else {
        after
    }
}

/// The events for a piece.
pub open spec fn absorbed_news(e: Emitting, piece: Seq<u8>, feed: Feed) -> Seq<Happening> {
    let lines = lines_of_piece(piece);
    emitted_lines(e, lines, feed, lines.len())
}

impl FileTail {
    /// Follows a file from where it has been read to.
    pub fn new(file: TranscriptFile) -> (r: Self)
        ensures
            r.file == file,
    {
        FileTail { file }
    }

    /// Follows a file from its end, given how long it is.
    pub fn at_end(file: TranscriptFile, len: u64) -> (r: Self)
        ensures
            r.file@ == (Transcript { consumed: len as int, ..file@ }),
    {
        let mut file: TranscriptFile = file;
        file.consumed = len;
        FileTail { file }
    }

    /// The file.
    pub fn file(&self) -> (r: &TranscriptFile)
        ensures
            *r == self.file,
    {
        &self.file
    }

    /// Bytes read so far.
    pub fn consumed(&self) -> (r: u64)
        ensures
            r == self.file.consumed,
    {
        self.file.consumed
    }

    /// Goes on from an offset.
    pub fn resume_at(&mut self, offset: u64)
        ensures
            final(self).file@ == (Transcript { consumed: offset as int, ..old(self).file@ }),
    {
        self.file.consumed = offset;
    }

    /// What to read next, in a file of so many bytes: from where, and how much.
    /// Nothing where all has been read. A file that shrank is read from its
    /// beginning, and news of it is handed on.
    pub fn begin(
        &mut self,
        len: u64,
        received: i64,
        ctx: &mut EmitCtx,
        out: &mut Vec<Event>,
    ) -> (r: Option<(u64, u64)>)
        requires
            old(ctx).wf(),
            old(ctx).stats.truncations < u64::MAX,
        ensures
            final(ctx).wf(),
            final(self).file@ == (Transcript {
                consumed: cursor_in(old(self).file@.consumed, len as int),
                ..old(self).file@
            }),
            final(ctx)@ == begun(old(ctx)@, old(self).file@.consumed, len as int),
            happenings(final(out)@) == happenings(old(out)@) + begun_news(
                old(self).file@,
                len as int,
                received as int,
            ),
            read_view(r) == next_read(old(self).file@.consumed, len as int),
            match r {
                Some(p) => p.0 == final(self).file.consumed && p.1 > 0 && p.1 <= 8_388_608 && p.0
                    + p.1 <= len && (p.1 < 8_388_608 ==> p.0 + p.1 == len),
                None => final(self).file.consumed == len,
            },
            final(self).file.consumed == if len < old(self).file.consumed {
                0
            } else {
                old(self).file.consumed
            },
    {
        broadcast use happenings_push;

        if len < self.file.consumed {
            self.file.consumed = 0;
            ctx.stats.truncations = ctx.stats.truncations + 1;
            let mut detail: String = String::new();
            push_text(
                &mut detail,
                "transcript shrank below the read cursor, re-reading from 0: ",
            );
            push_text(&mut detail, self.file.path.display().as_str());
            assert(detail@ =~= shrank_detail(self.file.path@));
            let told: Event = Event::drift(None, detail, received);
            let ghost before = out@;
            out.push(told);
            assert(out@ == before.push(told));
            assert(happenings(out@) =~= happenings(before) + begun_news(
                old(self).file@,
                len as int,
                received as int,
            ));
        } else {
            assert(happenings(out@) =~= happenings(out@) + seq![]);
        }
        if len == self.file.consumed {
            return None;
        }
        let left: u64 = len - self.file.consumed;
        let want: u64 = if left > MAX_POLL_BYTES {
            MAX_POLL_BYTES
        } else {
            left
        };
        Some((self.file.consumed, want))
    }

    /// Hands on the events for the whole lines of a piece that was read, and
    /// moves on past them; says how many lines were JSON.
    pub fn absorb(
        &mut self,
        piece: &[u8],
        received: i64,
        ctx: &mut EmitCtx,
        out: &mut Vec<Event>,
    ) -> (r: usize)
        requires
            old(ctx).wf(),
            old(ctx).stats.room(piece@.len() as int),
            old(ctx).stats.room(1),
            old(self).file.consumed + piece@.len() <= u64::MAX,
        ensures
            final(ctx).wf(),
            final(self).file@ == (Transcript {
                consumed: advanced(old(self).file@.consumed, piece@),
                ..old(self).file@
            }),
            final(ctx)@ == absorbed(
                old(ctx)@,
                piece@,
                feed_of(old(self).file@, received as int),
            ),
            happenings(final(out)@) == happenings(old(out)@) + absorbed_news(
                old(ctx)@,
                piece@,
                feed_of(old(self).file@, received as int),
            ),
            r == values_in(lines_of_piece(piece@), lines_of_piece(piece@).len()),
    {
        let mut end: usize = piece.len();
        assert(piece@.take(end as int) =~= piece@);
        while end > 0 && piece[end - 1] != 10
            invariant
                end <= piece.len(),
                whole_lines(piece@) == whole_lines(piece@.take(end as int)),
            decreases end,
        {
            assert(piece@.take(end as int).drop_last() =~= piece@.take(end - 1));
            end = end - 1;
        }
        assert(whole_lines(piece@) == end);
        let ghost lines = lines_of(piece@.take(end as int));
        let ghost base = self.file@.consumed;
        let ghost file = self.file@;
        let ghost feed = feed_of(file, received as int);
        let ghost e = ctx@;
        let ghost start = happenings(out@);
        if end == 0 {
            assert(piece@.take(0).len() == 0);
            assert(lines =~= seq![]);
            assert(start + emitted_lines(e, lines, feed, 0) =~= start);
            if piece.len() as u64 >= MAX_POLL_BYTES {
                self.file.consumed = self.file.consumed + piece.len() as u64;
                ctx.stats.oversize_lines = ctx.stats.oversize_lines + 1;
            }
            return 0;
        }
        let whole: &[u8] = vstd::slice::slice_subrange(piece, 0, end);
        assert(whole@ =~= piece@.take(end as int));
        let found: Vec<(u64, &[u8])> = lines_with_offsets(whole);
        proof {
            lines_fit(whole@, 0);
            assert(start + emitted_lines(e, lines, feed, 0) =~= start);
        }
        let mut told: usize = 0;
        let mut i: usize = 0;
        while i < found.len()
            invariant
                ctx.wf(),
                i <= found.len(),
                lines == line_views(found@),
                lines.len() <= piece@.len(),
                forall|k: int|
                    0 <= k < lines.len() ==> 0 <= (#[trigger] lines[k]).0 <= piece@.len(),
                base + piece@.len() <= u64::MAX,
                self.file@ == file,
                base == file.consumed,
                feed == feed_of(file, received as int),
                ctx.stats.room(piece@.len() - i),
                ctx@ == after_lines(e, lines, feed, i as nat),
                happenings(out@) == start + emitted_lines(e, lines, feed, i as nat),
                told == values_in(lines, i as nat),
                told <= i,
            decreases found.len() - i,
        {
            let text: String = text_from_bytes(found[i].1);
            let ghost l = incoming(lines[i as int], feed);
            let ghost before = ctx@;
            let ghost sofar = emitted_lines(e, lines, feed, i as nat);
            assert(lines[i as int] == (found@[i as int].0 as int, found@[i as int].1@));
            assert(text@ == l.text);
            proof {
                tallied_room(ctx.stats@, text@, piece@.len() - i);
            }
            let offset: u64 = self.file.consumed + found[i].0;
            let n: usize = ctx.emit(text.as_str(), &self.file, offset, received, out);
            proof {
                assert(happenings(out@) =~= start + (sofar + emitted(before, l)));
            }
            told = told + n;
            i = i + 1;
        }
        self.file.consumed = self.file.consumed + end as u64;
        told
    }
}

proof fn lines_fit(data: Seq<u8>, i: int)
    requires
        0 <= i,
    ensures
        i <= data.len() ==> lines_from(data, i).len() <= data.len() - i,
        i > data.len() ==> lines_from(data, i).len() == 0,
        forall|k: int|
            0 <= k < lines_from(data, i).len() ==> 0 <= (#[trigger] lines_from(data, i)[k]).0
                <= data.len(),
    decreases data.len() + 1 - i,
{
    if i < data.len() {
        break_from_bounds(data, i);
        let e = break_from(data, i);
        lines_fit(data, e + 1);
        let all = lines_from(data, i);
        assert(all =~= seq![(i, data.subrange(i, e))] + lines_from(data, e + 1));
        assert forall|k: int| 0 <= k < all.len() implies 0 <= (#[trigger] all[k]).0 <= data.len() by {
            if k > 0 {
                assert(all[k] == lines_from(data, e + 1)[k - 1]);
            }
        }
    }
}

/// Lines after lines: what is kept and handed on for both is what is kept and
/// handed on for the first, and then for the second from there.
proof fn lines_then_lines(
    e: Emitting,
    a: Seq<(int, Seq<u8>)>,
    b: Seq<(int, Seq<u8>)>,
    by: int,
    feed: Feed,
    n: nat,
)
    requires
        n <= b.len(),
    ensures
        ({
            let both = a + shifted(b, by);
            let mid = after_lines(e, a, feed, a.len());
            let later = Feed { base: feed.base + by, ..feed };
            &&& after_lines(e, both, feed, (a.len() + n) as nat) == after_lines(mid, b, later, n)
            &&& emitted_lines(e, both, feed, (a.len() + n) as nat) == emitted_lines(
                e,
                a,
                feed,
                a.len(),
            ) + emitted_lines(mid, b, later, n)
        }),
    decreases n,
{
    let both = a + shifted(b, by);
    let mid = after_lines(e, a, feed, a.len());
    let later = Feed { base: feed.base + by, ..feed };
    if n == 0 {
        lines_prefix(e, a, shifted(b, by), feed, a.len());
        assert(emitted_lines(e, both, feed, a.len()) =~= emitted_lines(e, a, feed, a.len())
            + emitted_lines(mid, b, later, 0));
    } else {
        lines_then_lines(e, a, b, by, feed, (n - 1) as nat);
        let k = (a.len() + n) as nat;
        assert(both[k - 1] == (b[n - 1].0 + by, b[n - 1].1));
        assert(incoming(both[k - 1], feed) == incoming(b[n - 1], later));
        assert(emitted_lines(e, both, feed, k) =~= emitted_lines(e, a, feed, a.len())
            + emitted_lines(mid, b, later, n));
    }
}

proof fn lines_prefix(
    e: Emitting,
    a: Seq<(int, Seq<u8>)>,
    b: Seq<(int, Seq<u8>)>,
    feed: Feed,
    n: nat,
)
    requires
        n <= a.len(),
    ensures
        after_lines(e, a + b, feed, n) == after_lines(e, a, feed, n),
        emitted_lines(e, a + b, feed, n) == emitted_lines(e, a, feed, n),
    decreases n,
{
    if n > 0 {
        lines_prefix(e, a, b, feed, (n - 1) as nat);
        assert((a + b)[n - 1] == a[n - 1]);
    }
}

/// Reading in pieces is reading at once: where a first piece ends with a line
/// break, the events for it and then for what follows, counted from where it
/// ended, are the events for both in one.
pub proof fn pieces_emit_as_one(e: Emitting, a: Seq<u8>, b: Seq<u8>, feed: Feed)
    requires
        a.len() == 0 || a.last() == 10,
    ensures
        ({
            let whole = lines_of(a + b);
            let mid = after_lines(e, lines_of(a), feed, lines_of(a).len());
            let later = Feed { base: feed.base + a.len(), ..feed };
            &&& after_lines(e, whole, feed, whole.len()) == after_lines(
                mid,
                lines_of(b),
                later,
                lines_of(b).len(),
            )
            &&& emitted_lines(e, whole, feed, whole.len()) == emitted_lines(
                e,
                lines_of(a),
                feed,
                lines_of(a).len(),
            ) + emitted_lines(mid, lines_of(b), later, lines_of(b).len())
        }),
{
    lines_in_pieces(a, b, 0);
    lines_then_lines(e, lines_of(a), lines_of(b), a.len() as int, feed, lines_of(b).len());
}

/// Reading never goes back but where a file shrank, and never past what there
/// is to read.
pub proof fn cursor_moves_forward(consumed: int, len: int, piece: Seq<u8>)
    requires
        0 <= consumed,
        0 <= len,
        piece.len() <= wanted(consumed, len),
    ensures
        cursor_in(consumed, len) <= advanced(cursor_in(consumed, len), piece) <= len,
        consumed <= len ==> consumed <= advanced(cursor_in(consumed, len), piece),
{
    whole_lines_bounds(piece);
}

/// A line that is not finished is waited for: where a piece holds no line break
/// and is not as long as a piece can be, nothing is handed on and nothing is passed
/// over.
pub proof fn unfinished_lines_wait(e: Emitting, consumed: int, piece: Seq<u8>, feed: Feed)
    requires
        forall|i: int| 0 <= i < piece.len() ==> piece[i] != 10,
        piece.len() < MAX_POLL_BYTES,
    ensures
        advanced(consumed, piece) == consumed,
        absorbed(e, piece, feed) == e,
        absorbed_news(e, piece, feed) == Seq::<Happening>::empty(),
{
    whole_lines_bounds(piece);
    assert(piece.take(0) =~= seq![]);
    assert(lines_of_piece(piece) =~= seq![]);
}

/// A record that names its own session keeps it; only one that names none is put
/// down to the session of the file it stands in.
pub proof fn named_sessions_are_kept(e: Emitting, l: Incoming)
    ensures
        placed(e, l) is Some <==> text_event(l.text, l.source, l.offset, l.received) is Some,
        placed(e, l) matches Some(h) ==> h.session == match text_event(
            l.text,
            l.source,
            l.offset,
            l.received,
        )->0.session {
            Some(s) => Some(s),
            None => Some(l.session),
        },
{
}

/// Events handed on for a feed never go back in time: the last moment given only
/// grows.
pub proof fn feeds_never_go_back(e: Emitting, lines: Seq<(int, Seq<u8>)>, feed: Feed, n: nat)
    requires
        n <= lines.len(),
    ensures
        e.running matches Some(r) ==> (after_lines(e, lines, feed, n).running matches Some(q) && r
            <= q),
        after_lines(e, lines, feed, n).origin == e.origin,
    decreases n,
{
    if n > 0 {
        feeds_never_go_back(e, lines, feed, (n - 1) as nat);
    }
}

/// An event stands as long before the pairing of the clocks as the wall clock says, a
/// millisecond for a million nanoseconds, but never after it was received; what the
/// clock cannot place, or what is no older than the pairing, stands at its receipt.
/// It never stands before the one that came before it.
pub proof fn events_stand_where_they_were_written(
    origin: Origin,
    running: Option<int>,
    wall: Option<int>,
    received: int,
)
    ensures
        ({
            let at = stamped(origin, running, wall, received);
            let own = match wall {
                Some(w) => {
                    let written = origin.mono - (origin.wall - w) * 1_000_000;
                    if w < origin.wall && written >= -9_223_372_036_854_775_808 && written
                        <= received {
                        written
                    } else {
                        received
                    }
                },
                None => received,
            };
            match running {
                Some(before) => at >= before && at >= own && (at == before || at == own),
                None => at == own,
            }
        }),
{
}

/// Of the types that have been seen, each that was not reported yet is reported once, in
/// order, with its name in quotes.
pub proof fn new_types_are_told_by_name(
    keys: Seq<Seq<char>>,
    reported: Set<Seq<char>>,
    version: Option<Seq<char>>,
    received: int,
)
    ensures
        drift_news(keys, reported, version, received) == keys.filter(
            |k: Seq<char>| !reported.contains(k),
        ).map_values(
            |k: Seq<char>|
                drift_at(version, "unmodelled transcript record type "@ + quoted(k), received),
        ),
    decreases keys.len(),
{
    reveal(Seq::filter);
    let new = |k: Seq<char>| !reported.contains(k);
    let told = |k: Seq<char>|
        drift_at(version, "unmodelled transcript record type "@ + quoted(k), received);
    if keys.len() == 0 {
        assert(drift_news(keys, reported, version, received) =~= keys.filter(new).map_values(told));
    } else {
        let rest = keys.drop_last();
        new_types_are_told_by_name(rest, reported, version, received);
        assert(rest.filter(new).push(keys.last()).map_values(told) =~= rest.filter(new).map_values(
            told,
        ).push(told(keys.last())));
    }
}

/// A line with no event brings none and moves no clock. Any other brings its own event
/// last: in the session that it names or else its file's, at its place in time, and
/// as the line says in all else. Before it comes news of types, where the line is the
/// first of one.
pub proof fn a_line_brings_its_event_last(e: Emitting, l: Incoming)
    ensures
        match text_event(l.text, l.source, l.offset, l.received) {
            None => emitted(e, l).len() == 0 && after_line(e, l).running == e.running
                && after_line(e, l).reported == e.reported,
            Some(h) => {
                let now = emitted(e, l);
                let own = now.last();
                let types = tallied(e.tally, l.text).types.dom();
                &&& now.len() >= 1
                &&& own.session == if h.session is Some {
                    h.session
                } else {
                    Some(l.session)
                }
                &&& own.observed == stamped(
                    e.origin,
                    e.running,
                    event_wall(line_tree(l.text)),
                    l.received,
                )
                &&& own.thread == h.thread && own.worker == h.worker && own.agent_type
                    == h.agent_type && own.prompt == h.prompt && own.channel == h.channel
                    && own.cargo == h.cargo
                &&& after_line(e, l).running == Some(own.observed)
                &&& types == e.tally.types.dom() ==> now.len() == 1 && after_line(e, l).reported
                    == e.reported
                &&& types != e.tally.types.dom() ==> now.drop_last() == drift_news(
                    in_order(types),
                    e.reported,
                    greatest(tallied(e.tally, l.text).versions),
                    l.received,
                ) && after_line(e, l).reported == e.reported.union(types)
            },
        },
        after_line(e, l).tally == tallied(e.tally, l.text),
        after_line(e, l).origin == e.origin,
{
    if let Some(h) = placed(e, l) {
        let now = emitted(e, l);
        if brings_type(e, l) {
            assert(now.drop_last() =~= drift_news(
                in_order(tallied(e.tally, l.text).types.dom()),
                e.reported,
                greatest(tallied(e.tally, l.text).versions),
                l.received,
            ));
        }
    }
}

/// A file that shrank is counted, told of by its path and read from its beginning; any
/// other goes on where reading stopped. At most eight mebibytes are read at a time, and
/// nothing where all has been.
pub proof fn reading_goes_on_where_it_stopped(
    e: Emitting,
    file: Transcript,
    len: int,
    received: int,
)
    requires
        0 <= file.consumed,
        0 <= len,
    ensures
        ({
            let from = if len < file.consumed {
                0
            } else {
                file.consumed
            };
            &&& cursor_in(file.consumed, len) == from
            &&& next_read(file.consumed, len) == if len == from {
                None
            } else if len - from > 8_388_608 {
                Some((from, 8_388_608int))
            } else {
                Some((from, len - from))
            }
        }),
        len >= file.consumed ==> begun(e, file.consumed, len) == e && begun_news(
            file,
            len,
            received,
        ).len() == 0,
        len < file.consumed ==> {
            let b = begun(e, file.consumed, len);
            &&& b.tally == (Tally { truncations: e.tally.truncations + 1, ..e.tally })
            &&& b.reported == e.reported && b.running == e.running && b.origin == e.origin
            &&& begun_news(file, len, received) == seq![
                drift_at(
                    None,
                    "transcript shrank below the read cursor, re-reading from 0: "@ + path_text(
                        file.path,
                    ),
                    received,
                ),
            ]
        },
{
}

/// The whole lines of a piece end with its last line break.
pub proof fn whole_lines_end_with_a_break(data: Seq<u8>)
    ensures
        0 <= whole_lines(data) <= data.len(),
        whole_lines(data) > 0 ==> data[whole_lines(data) - 1] == 10,
        forall|i: int| whole_lines(data) <= i < data.len() ==> #[trigger] data[i] != 10,
    decreases data.len(),
{
    if data.len() > 0 && data.last() != 10 {
        let rest = data.drop_last();
        whole_lines_end_with_a_break(rest);
        assert forall|i: int| whole_lines(data) <= i < data.len() implies #[trigger] data[i]
            != 10 by {
            if i < rest.len() {
                assert(rest[i] == data[i]);
            }
        }
    }
}

/// Reading moves past whole lines. A piece of eight mebibytes or more without a break is
/// passed over and counted as an oversize line; a shorter one is left to be read again.
pub proof fn endless_lines_are_passed_over(e: Emitting, consumed: int, piece: Seq<u8>, feed: Feed)
    ensures
        piece.contains(10u8) ==> advanced(consumed, piece) == consumed + whole_lines(piece),
        !piece.contains(10u8) ==> {
            &&& lines_of_piece(piece).len() == 0
            &&& absorbed_news(e, piece, feed).len() == 0
            &&& piece.len() < 8_388_608 ==> advanced(consumed, piece) == consumed && absorbed(
                e,
                piece,
                feed,
            ) == e
            &&& piece.len() >= 8_388_608 ==> advanced(consumed, piece) == consumed + piece.len()
                && absorbed(e, piece, feed) == (Emitting {
                tally: Tally { oversize_lines: e.tally.oversize_lines + 1, ..e.tally },
                ..e
            })
        },
        piece.contains(10u8) ==> {
            let lines = lines_of(piece.take(whole_lines(piece)));
            absorbed(e, piece, feed) == lines.fold_left(
                e,
                |w: Emitting, x: (int, Seq<u8>)| after_line(w, incoming(x, feed)),
            )
        },
{
    whole_lines_end_with_a_break(piece);
    if piece.contains(10u8) {
        let i = piece.index_of(10u8);
        assert(piece[i] == 10);
        let lines = lines_of_piece(piece);
        lines_fold(e, lines, feed, lines.len());
        take_all(lines);
    } else {
        if whole_lines(piece) > 0 {
            assert(piece.contains(piece[whole_lines(piece) - 1]));
        }
        assert(piece.take(0).len() == 0);
        assert(lines_of_piece(piece) =~= seq![]);
    }
}

proof fn lines_fold(e: Emitting, lines: Seq<(int, Seq<u8>)>, feed: Feed, n: nat)
    requires
        n <= lines.len(),
    ensures
        after_lines(e, lines, feed, n) == lines.take(n as int).fold_left(
            e,
            |w: Emitting, x: (int, Seq<u8>)| after_line(w, incoming(x, feed)),
        ),
    decreases n,
{
    if n > 0 {
        lines_fold(e, lines, feed, (n - 1) as nat);
        fold_step(
            lines,
            e,
            |w: Emitting, x: (int, Seq<u8>)| after_line(w, incoming(x, feed)),
            n,
        );
    }
}

/// A line comes in as its text, with its file's session and source, at its own place in
/// the file; the events of a piece are those of its lines, one line after another.
pub proof fn lines_come_in_one_by_one(e: Emitting, lines: Seq<(int, Seq<u8>)>, feed: Feed, n: nat)
    requires
        n < lines.len(),
    ensures
        emitted_lines(e, lines, feed, 0).len() == 0,
        emitted_lines(e, lines, feed, n + 1) == emitted_lines(e, lines, feed, n) + emitted(
            lines.take(n as int).fold_left(
                e,
                |w: Emitting, x: (int, Seq<u8>)| after_line(w, incoming(x, feed)),
            ),
            incoming(lines[n as int], feed),
        ),
        incoming(lines[n as int], feed).text == lossy_text(lines[n as int].1),
        incoming(lines[n as int], feed).offset == feed.base + lines[n as int].0,
        incoming(lines[n as int], feed).session == feed.session,
        incoming(lines[n as int], feed).source == feed.source,
        incoming(lines[n as int], feed).received == feed.received,
{
    lines_fold(e, lines, feed, n);
}

/// What comes from a file comes in its session and from its source, from where reading
/// stopped.
pub proof fn a_feed_is_its_file(file: Transcript, received: int)
    ensures
        feed_of(file, received).session == file.session,
        feed_of(file, received).source == file.source,
        feed_of(file, received).base == file.consumed,
        feed_of(file, received).received == received,
{
}

proof fn values_upto(lines: Seq<(int, Seq<u8>)>, n: nat)
    requires
        n <= lines.len(),
    ensures
        values_in(lines, n) == lines.take(n as int).filter(
            |x: (int, Seq<u8>)| !is_blank(lossy_text(x.1)) && line_tree(lossy_text(x.1)) is Some,
        ).len(),
    decreases n,
{
    let test = |x: (int, Seq<u8>)|
        !is_blank(lossy_text(x.1)) && line_tree(lossy_text(x.1)) is Some;
    if n == 0 {
        filter_none(lines, test);
    } else {
        values_upto(lines, (n - 1) as nat);
        filter_step(lines, test, n);
    }
}

/// The values of a piece are the lines that are not blank and parse.
pub proof fn values_are_lines_that_parse(lines: Seq<(int, Seq<u8>)>)
    ensures
        values_in(lines, lines.len()) == lines.filter(
            |x: (int, Seq<u8>)| !is_blank(lossy_text(x.1)) && line_tree(lossy_text(x.1)) is Some,
        ).len(),
{
    values_upto(lines, lines.len());
    take_all(lines);
}

} // verus!
