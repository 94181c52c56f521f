use polis::event::{ControlEvent, Event, Payload};
use polis::json::Json;
use polis::path::FilePath;
use polis::replay::{lone_transcript, read_files, Replay, RECORDING_FORMAT};
use polis::session::{SessionTailer, StartAt};
use polis::source::{main_transcript, session_files, TranscriptFile};
use polis::tail::{Aging, EmitCtx, FileTail, MAX_POLL_BYTES};
use polis::time::{
    ascii_num, days_from_civil, fractional_millis, parse_timestamp, zone_offset_seconds, WallTime,
};
use polis::watch::{set_health, ProjectsTailer, Round, SourceHealth, Watch};

fn path(text: &str) -> FilePath {
    let mut parts: Vec<String> = Vec::new();
    if text.starts_with('/') {
        parts.push("/".to_owned());
    }
    for part in text.split('/') {
        if !part.is_empty() {
            parts.push(part.to_owned());
        }
    }
    FilePath { parts }
}

const START: i64 = 7_000_000_000_000;
const NOW_MS: i64 = 1_787_611_402_764;

fn aging() -> Aging {
    Aging::start(START, WallTime::from_unix_millis(NOW_MS))
}

/// Files by their paths, as a disk holds them.
struct Disk {
    files: Vec<(FilePath, Vec<u8>)>,
}

impl Disk {
    fn new() -> Self {
        Disk { files: Vec::new() }
    }

    fn read(&self, at: &FilePath) -> Option<&Vec<u8>> {
        self.files.iter().find(|(p, _)| p == at).map(|(_, b)| b)
    }

    fn write(&mut self, at: &FilePath, text: &str) {
        self.remove(at);
        self.files.push((at.copied(), text.as_bytes().to_vec()));
    }

    fn append(&mut self, at: &FilePath, text: &str) {
        let mut all = self.read(at).cloned().unwrap_or_default();
        all.extend_from_slice(text.as_bytes());
        self.remove(at);
        self.files.push((at.copied(), all));
    }

    fn remove(&mut self, at: &FilePath) {
        self.files.retain(|(p, _)| p != at);
    }

    fn session(&self, dir: &FilePath) -> Vec<TranscriptFile> {
        let exists = main_transcript(dir).is_some_and(|m| self.read(&m).is_some());
        let below: Vec<FilePath> = self
            .files
            .iter()
            .filter(|(p, _)| p.parts.len() > dir.parts.len() && p.parts.starts_with(&dir.parts))
            .map(|(p, _)| p.copied())
            .collect();
        session_files(dir, exists, &below)
    }

    fn open(&self, dir: &FilePath, start: StartAt) -> SessionTailer {
        let files: Vec<(TranscriptFile, u64)> = self
            .session(dir)
            .into_iter()
            .map(|f| {
                let len = self.read(&f.path).map_or(0, |b| b.len() as u64);
                (f, len)
            })
            .collect();
        SessionTailer::open(dir, files, start, aging())
    }

    /// Looks for new files, then reads what every file has gained.
    fn poll(&self, tailer: &mut SessionTailer) -> (usize, Vec<Event>) {
        let mut out = Vec::new();
        let dir = tailer.session_dir().copied();
        tailer.rescan(self.session(&dir));
        let mut emitted = 0;
        let mut i = 0;
        while i < tailer.tails.len() {
            let at = tailer.tails[i].file().path.copied();
            let Some(bytes) = self.read(&at) else {
                tailer.give_up(i);
                continue;
            };
            if let Some((from, want)) = tailer.begin(i, bytes.len() as u64, START, &mut out) {
                let piece = &bytes[from as usize..(from + want) as usize];
                emitted += tailer.absorb(i, piece, START, &mut out);
            }
            i += 1;
        }
        (emitted, out)
    }
}

#[test]
fn backfilled_history_is_stamped_as_old_as_it_is() {
    let mut age = aging();
    let received = START;
    let minute_ago = WallTime::from_unix_millis(NOW_MS - 60_000);
    let stamped = age.stamp(Some(minute_ago), received);
    assert!(
        received - stamped >= 55_000_000_000,
        "a record written a minute ago must read as a minute old, not as now"
    );
    assert_eq!(received - stamped, 60_000_000_000);
}

#[test]
fn a_backwards_timestamp_step_still_cannot_reorder_the_bus() {
    let mut age = aging();
    let received = START;
    let first = age.stamp(Some(WallTime::from_unix_millis(NOW_MS - 60_000)), received);
    let second = age.stamp(Some(WallTime::from_unix_millis(NOW_MS - 600_000)), received);
    assert_eq!(
        second, first,
        "a later record never lands before an earlier one"
    );
    let third = age.stamp(Some(WallTime::from_unix_millis(NOW_MS)), received);
    assert_eq!(third, received, "and a record written now is happening now");
}

#[test]
fn a_record_with_no_timestamp_keeps_the_receipt_clock() {
    let mut age = aging();
    assert_eq!(age.stamp(None, START + 5), START + 5);
}

#[test]
fn a_clock_with_nowhere_further_back_keeps_the_receipt_time() {
    let mut age = Aging::start(i64::MIN + 1_000, WallTime::from_unix_millis(NOW_MS));
    let stamped = age.stamp(Some(WallTime::from_unix_millis(NOW_MS - 60_000)), 9);
    assert_eq!(stamped, 9);
    let mut age = aging();
    let stamped = age.stamp(Some(WallTime::from_unix_millis(NOW_MS + 60_000)), START);
    assert_eq!(stamped, START, "a record was not written after it was read");
}

#[test]
fn a_half_written_final_line_is_waited_for_never_parsed() {
    let mut disk = Disk::new();
    let main = path("/t/p/sess.jsonl");
    disk.write(
        &main,
        "{\"type\":\"mode\",\"sessionId\":\"s\"}\n{\"type\":\"us",
    );
    let mut tailer = disk.open(&path("/t/p/sess"), StartAt::Beginning);
    assert_eq!(disk.poll(&mut tailer).0, 1, "only the complete record");
    assert_eq!(tailer.stats().bad_json, 0, "a torn tail is not corruption");

    disk.append(
        &main,
        "er\",\"sessionId\":\"s\",\"message\":{\"role\":\"user\",\"content\":\"x\"}}\n",
    );
    assert_eq!(disk.poll(&mut tailer).0, 1, "completed and then parsed");
    assert_eq!(tailer.stats().ok, 2);
    assert_eq!(tailer.stats().bad_json, 0);
}

#[test]
fn tailing_survives_truncation_and_rotation() {
    let mut disk = Disk::new();
    let main = path("/t/p/sess.jsonl");
    disk.write(
        &main,
        "{\"type\":\"mode\",\"sessionId\":\"s\",\"mode\":\"a\"}\n\
         {\"type\":\"mode\",\"sessionId\":\"s\",\"mode\":\"b\"}\n",
    );
    let mut tailer = disk.open(&path("/t/p/sess"), StartAt::Beginning);
    assert_eq!(disk.poll(&mut tailer).0, 2);

    // Rotation: the file is replaced by a shorter one.
    disk.write(
        &main,
        "{\"type\":\"mode\",\"sessionId\":\"s\",\"mode\":\"c\"}\n",
    );
    let (n, events) = disk.poll(&mut tailer);
    assert_eq!(n, 1, "the replacement is read from 0");
    assert_eq!(tailer.stats().truncations, 1);
    assert!(
        events.iter().any(|e| matches!(
            &e.payload,
            Payload::Control(ControlEvent::SchemaDrift { .. })
        )),
        "a truncation is visible, not silent"
    );
    let modes: Vec<String> = events
        .iter()
        .filter_map(|e| match &e.payload {
            Payload::Transcript(t) => t.record.get("mode").and_then(Json::as_str).map(ToOwned::to_owned),
            _ => None,
        })
        .collect();
    assert_eq!(modes, vec!["c".to_owned()]);
    let Payload::Control(ControlEvent::SchemaDrift { detail, .. }) = &events[0].payload else {
        panic!("the loss is told first");
    };
    assert_eq!(
        detail,
        "transcript shrank below the read cursor, re-reading from 0: /t/p/sess.jsonl"
    );
}

#[test]
fn a_subagent_file_that_appears_at_runtime_is_picked_up() {
    let mut disk = Disk::new();
    let dir = path("/t/p/sess");
    disk.write(&path("/t/p/sess.jsonl"), "{\"type\":\"mode\",\"sessionId\":\"s\"}\n");
    let mut tailer = disk.open(&dir, StartAt::Beginning);
    assert_eq!(disk.poll(&mut tailer).0, 1);
    assert_eq!(tailer.files().len(), 1);

    // The agent spawns: a whole new file appears under a directory that did
    // not exist when the tailer opened.
    disk.write(
        &path("/t/p/sess/subagents/workflows/wf_r1/agent-a7.jsonl"),
        "{\"type\":\"assistant\",\"sessionId\":\"s\",\"agentId\":\"a7\",\
         \"isSidechain\":true,\"uuid\":\"u\",\"parentUuid\":null,\
         \"message\":{\"role\":\"assistant\",\"content\":[]}}\n",
    );
    let (n, events) = disk.poll(&mut tailer);
    assert_eq!(n, 1, "the tailer watches the DIRECTORY, not just the file");
    assert_eq!(tailer.files().len(), 2);
    let worker = events
        .iter()
        .find_map(|e| e.meta.worker.as_ref())
        .expect("attributed");
    assert_eq!(worker.as_str(), "a7");
}

#[test]
fn a_deleted_transcript_drops_out_instead_of_killing_the_channel() {
    let mut disk = Disk::new();
    let main = path("/t/p/sess.jsonl");
    disk.write(&main, "{\"type\":\"mode\",\"sessionId\":\"s\"}\n");
    let mut tailer = disk.open(&path("/t/p/sess"), StartAt::Beginning);
    assert_eq!(disk.poll(&mut tailer).0, 1);
    disk.remove(&main);
    assert_eq!(disk.poll(&mut tailer).0, 0);
    assert_eq!(tailer.files().len(), 0, "dropped, not fatal");
}

#[test]
fn resume_reads_only_what_arrived_while_polis_was_down() {
    let mut disk = Disk::new();
    let main = path("/t/p/sess.jsonl");
    let dir = path("/t/p/sess");
    disk.write(&main, "{\"type\":\"mode\",\"sessionId\":\"s\"}\n");
    let mut tailer = disk.open(&dir, StartAt::Beginning);
    assert_eq!(disk.poll(&mut tailer).0, 1);
    let offsets = tailer.offsets();
    assert_eq!(offsets, vec![(path("/t/p/sess.jsonl"), 32)]);
    drop(tailer);

    disk.append(
        &main,
        "{\"type\":\"ai-title\",\"sessionId\":\"s\",\"aiTitle\":\"t\"}\n",
    );
    let mut resumed = disk.open(&dir, StartAt::Beginning);
    resumed.resume_from(&offsets);
    assert_eq!(disk.poll(&mut resumed).0, 1, "only the new record");
    // And starting at the end skips everything.
    let mut fresh = disk.open(&dir, StartAt::End);
    assert_eq!(disk.poll(&mut fresh).0, 0);
}

#[test]
fn the_projects_tailer_discovers_sessions_that_appear_later() {
    let mut disk = Disk::new();
    let mut tailer = ProjectsTailer::new(path("/t"), StartAt::Beginning);
    assert!(tailer.is_empty());
    assert_eq!(tailer.initial_start(), StartAt::Beginning);
    assert_eq!(tailer.projects_dir(), &path("/t"));

    disk.write(
        &path("/t/C--coding-x/aaa.jsonl"),
        "{\"type\":\"mode\",\"sessionId\":\"s\"}\n",
    );
    let dir = path("/t/C--coding-x/aaa");
    assert!(!tailer.knows(&dir));
    assert!(tailer.take_in(dir.copied(), disk.open(&dir, StartAt::Beginning)));
    assert!(tailer.knows(&dir));
    assert!(!tailer.take_in(dir.copied(), disk.open(&dir, StartAt::Beginning)));
    let mut emitted = 0;
    for (_, session) in &mut tailer.sessions {
        emitted += disk.poll(session).0;
    }
    assert_eq!(emitted, 1);
    assert_eq!(tailer.len(), 1);
    assert_eq!(tailer.stats().ok, 1);
}

#[test]
fn the_first_round_and_every_eighth_look_for_sessions() {
    let mut tailer = ProjectsTailer::new(path("/t"), StartAt::End);
    let due: Vec<bool> = (0..17).map(|_| tailer.due()).collect();
    let times: Vec<usize> = (0..17).filter(|i| due[*i]).collect();
    assert_eq!(times.len(), 3);
    assert_eq!(times[1] - times[0], 8);
    assert_eq!(times[2] - times[1], 8);
}

#[test]
fn a_watch_degrades_and_stops_but_never_dies() {
    let (mut watch, health) = Watch::start(None);
    assert!(matches!(health, SourceHealth::Running));
    assert!(matches!(watch.health(&None), SourceHealth::Running));
    let mut rounds = Vec::new();
    for _ in 0..9 {
        rounds.push(watch.round(false));
    }
    assert_eq!(rounds[0], Round::RescanAndPoll);
    assert_eq!(rounds[8], Round::RescanAndPoll);
    assert!(rounds[1..8].iter().all(|r| *r == Round::Poll));
    assert_eq!(watch.round(true), Round::Stop);
    let (watch, health) = Watch::start(Some("no inotify".to_owned()));
    assert!(matches!(&health, SourceHealth::Degraded { reason } if reason.contains("no inotify")));
    assert!(matches!(watch.health(&None), SourceHealth::Degraded { .. }));
    let mut slot = SourceHealth::Running;
    set_health(&mut slot, Watch::stopped());
    assert!(matches!(slot, SourceHealth::Stopped { .. }));
}

#[test]
fn new_drift_is_told_once_per_type() {
    let mut ctx = EmitCtx::new(aging());
    let file = lone_transcript(&path("/t/p/sess.jsonl"));
    let mut out = Vec::new();
    let line = "{\"type\":\"new\\tkind\",\"version\":\"2.1\"}";
    assert_eq!(ctx.emit(line, &file, 0, START, &mut out), 1);
    assert_eq!(out.len(), 2);
    let Payload::Control(ControlEvent::SchemaDrift { producer_version, detail, .. }) = &out[0].payload
    else {
        panic!("drift is told before its event");
    };
    assert_eq!(detail, "unmodelled transcript record type \"new\\tkind\"");
    assert_eq!(producer_version.as_deref(), Some("2.1"));
    assert_eq!(out[1].meta.session.as_deref(), Some("sess"), "the file names the session");
    assert_eq!(ctx.emit(line, &file, 40, START, &mut out), 1);
    assert_eq!(out.len(), 3);
    assert_eq!(ctx.emit("{", &file, 80, START, &mut out), 0);
    assert_eq!(out.len(), 3);
}

#[test]
fn pieces_are_read_as_one() {
    let whole = "{\"type\":\"mode\"}\n\n{oops\n{\"type\":\"mode\",\"x\":\"\u{e9}\"}\n{\"type\"";
    let file = || lone_transcript(&path("/t/p/sess.jsonl"));
    let mut ctx = EmitCtx::new(aging());
    let mut out = Vec::new();
    let mut tail = FileTail::new(file());
    assert_eq!(tail.begin(whole.len() as u64, START, &mut ctx, &mut out), Some((0, whole.len() as u64)));
    assert_eq!(tail.absorb(whole.as_bytes(), START, &mut ctx, &mut out), 2);
    let end = whole.rfind('\n').unwrap() as u64 + 1;
    assert_eq!(tail.consumed(), end);
    for cut in 0..whole.len() {
        let mut ctx = EmitCtx::new(aging());
        let mut out = Vec::new();
        let mut tail = FileTail::new(file());
        let mut emitted = 0;
        for len in [cut, whole.len()] {
            if let Some((from, want)) = tail.begin(len as u64, START, &mut ctx, &mut out) {
                let piece = &whole.as_bytes()[from as usize..(from + want) as usize];
                emitted += tail.absorb(piece, START, &mut ctx, &mut out);
            }
        }
        assert_eq!(emitted, 2, "cut at {cut}");
        assert_eq!(tail.consumed(), end);
        assert_eq!(ctx.stats.total(), 4);
        let offsets: Vec<u64> = out
            .iter()
            .filter_map(|e| match &e.payload {
                Payload::Transcript(t) => Some(t.byte_offset),
                _ => None,
            })
            .collect();
        assert_eq!(offsets, vec![0, 23]);
    }
}

#[test]
fn a_line_longer_than_a_poll_is_passed_over() {
    let mut ctx = EmitCtx::new(aging());
    let mut out = Vec::new();
    let mut tail = FileTail::new(lone_transcript(&path("/t/p/sess.jsonl")));
    let len = MAX_POLL_BYTES + 10;
    assert_eq!(tail.begin(len, START, &mut ctx, &mut out), Some((0, MAX_POLL_BYTES)));
    let piece = vec![b'x'; MAX_POLL_BYTES as usize];
    assert_eq!(tail.absorb(&piece, START, &mut ctx, &mut out), 0);
    assert_eq!(ctx.stats.oversize_lines, 1);
    assert_eq!(tail.consumed(), MAX_POLL_BYTES);
    assert_eq!(tail.begin(len, START, &mut ctx, &mut out), Some((MAX_POLL_BYTES, 10)));
    assert_eq!(tail.begin(MAX_POLL_BYTES, START, &mut ctx, &mut out), None);
    let at_end = FileTail::at_end(lone_transcript(&path("/t/p/sess.jsonl")), 77);
    assert_eq!(at_end.consumed(), 77);
    tail.resume_at(5);
    assert_eq!(tail.file().consumed, 5);
}

fn replay_of(text: &str) -> Replay {
    let file = lone_transcript(&path("/t/p/sess.jsonl"));
    read_files(
        vec![(file, Some(text.as_bytes().to_vec()))],
        START,
        "polis-ingest".to_owned(),
    )
}

#[test]
fn a_recording_sorts_the_same_by_wall_clock_and_by_offset() {
    let replay = replay_of(
        "{\"type\":\"user\",\"sessionId\":\"s\",\"timestamp\":\"2026-08-24T21:51:09.661Z\",\
         \"message\":{\"role\":\"user\",\"content\":\"a\"}}\n\
         {\"type\":\"user\",\"sessionId\":\"s\",\"timestamp\":\"2026-08-24T21:50:09.120Z\",\
         \"message\":{\"role\":\"user\",\"content\":\"b\"}}\n\
         {\"type\":\"mode\",\"sessionId\":\"s\",\"mode\":\"normal\"}\n\
         {\"type\":\"user\",\"sessionId\":\"s\",\"timestamp\":\"2026-08-24T21:52:00.000Z\",\
         \"message\":{\"role\":\"user\",\"content\":\"c\"}}\n",
    );
    assert_eq!(replay.len(), 4);
    assert!(!replay.is_empty());

    let walls: Vec<i64> = replay.events.iter().map(|e| e.wall.unix_millis()).collect();
    let offsets: Vec<u64> = replay
        .events
        .iter()
        .map(|e| e.monotonic_offset_ms)
        .collect();
    assert!(walls.windows(2).all(|w| w[0] <= w[1]), "{walls:?}");
    assert!(offsets.windows(2).all(|w| w[0] <= w[1]), "{offsets:?}");
    // The origin is the EARLIEST timestamp anywhere in the file — here the
    // *second* record, 60.541 s before the first — so no offset is negative.
    assert_eq!(
        replay.header.wall_origin,
        parse_timestamp("2026-08-24T21:50:09.120Z").unwrap()
    );
    assert_eq!(replay.header.format, RECORDING_FORMAT);
    assert_eq!(offsets[0], 60_541);
    assert_eq!(
        offsets[1], 60_541,
        "the backwards step is clamped, not reordered and not negative"
    );
    assert_eq!(
        offsets[2], 60_541,
        "a timestamp-free sidecar inherits the running clock"
    );
    assert_eq!(offsets[3], 110_880);
    // The verbatim, un-monotonised timestamp survives inside the record.
    let Payload::Transcript(second) = &replay.events[1].event.payload else {
        panic!()
    };
    assert_eq!(
        second.record.get("timestamp").and_then(Json::as_str),
        Some("2026-08-24T21:50:09.120Z")
    );
    // Byte order is preserved regardless of what the clocks said.
    let contents: Vec<String> = replay
        .events
        .iter()
        .filter_map(|e| match &e.event.payload {
            Payload::Transcript(t) => t
                .record
                .get("message")
                .and_then(|m| m.get("content"))
                .and_then(Json::as_str)
                .map(ToOwned::to_owned),
            _ => None,
        })
        .collect();
    assert_eq!(contents, vec!["a", "b", "c"]);
}

#[test]
fn replayed_events_keep_their_inter_arrival_gaps() {
    let replay = replay_of(
        "{\"type\":\"user\",\"sessionId\":\"s\",\"timestamp\":\"2026-08-24T10:00:00.000Z\",\
         \"message\":{\"role\":\"user\",\"content\":\"a\"}}\n\
         {\"type\":\"user\",\"sessionId\":\"s\",\"timestamp\":\"2026-08-24T10:00:00.860Z\",\
         \"message\":{\"role\":\"user\",\"content\":\"b\"}}\n",
    );
    assert_eq!(replay.events[1].monotonic_offset_ms, 860);
    let live = replay.into_live(START);
    assert_eq!(live[0].meta.observed, START);
    let gap = live[1].meta.observed - live[0].meta.observed;
    assert_eq!(gap, 860_000_000);
}

#[test]
fn a_file_that_is_gone_leaves_the_rest_of_the_recording() {
    let gone = lone_transcript(&path("/t/p/gone.jsonl"));
    let here = lone_transcript(&path("/t/p/here.jsonl"));
    let replay = read_files(
        vec![(gone, None), (here, Some(b"{\"type\":\"mode\"}\n{x\n".to_vec()))],
        START,
        "p".to_owned(),
    );
    assert_eq!(replay.len(), 1);
    assert_eq!(replay.stats.total(), 2);
    assert_eq!(replay.header.wall_origin, WallTime::from_unix_millis(0));
    assert_eq!(replay.events[0].event.meta.session.as_deref(), Some("here"));
}

#[test]
fn timestamps_parse_in_the_one_shape_the_corpus_uses() {
    let t = parse_timestamp("2026-08-24T22:43:22.764Z").unwrap();
    assert_eq!(t.unix_millis(), 1_787_611_402_764);
    assert_eq!(
        parse_timestamp("1970-01-01T00:00:00.000Z").unwrap(),
        WallTime::from_unix_millis(0)
    );
    // A leap day, because `days_from_civil` is written out rather than
    // pulled from a calendar crate.
    assert_eq!(
        parse_timestamp("2024-02-29T00:00:00.000Z")
            .unwrap()
            .unix_millis()
            / 1000,
        1_709_164_800
    );
    assert_eq!(
        parse_timestamp("2026-08-24T22:43:22+02:00")
            .unwrap()
            .unix_millis(),
        parse_timestamp("2026-08-24T20:43:22Z")
            .unwrap()
            .unix_millis()
    );
    for bad in [
        "",
        "2026-08-24",
        "not a timestamp at all!!",
        "2026-13-01T00:00:00.000Z",
        "20260824T224322Z",
        "2026-08-24T99:99:99.999Z",
        "999999999999-08-24T00:00:00Z",
    ] {
        assert!(parse_timestamp(bad).is_none(), "{bad}");
    }
}

#[test]
fn a_zone_is_spelled_in_one_of_four_ways() {
    for (zone, seconds) in [("", 0), ("Z", 0), ("z", 0), ("+0200", 7_200), ("+02:00", 7_200)] {
        assert_eq!(zone_offset_seconds(zone.as_bytes()), Some(seconds), "{zone}");
    }
    for bad in ["+02x00", "+02", "+2:00", "+02:0", "+02:000", "+0x:00", "Zulu", " 02:00"] {
        assert_eq!(zone_offset_seconds(bad.as_bytes()), None, "{bad}");
    }
    assert!(parse_timestamp("2026-08-24T22:43:22+02x00").is_none());
    assert_eq!(
        parse_timestamp("2026-08-24T22:43:22+0200").map(|t| t.unix_millis()),
        parse_timestamp("2026-08-24T20:43:22Z").map(|t| t.unix_millis())
    );
}

#[test]
fn dates_and_zones_are_counted_exactly() {
    assert_eq!(days_from_civil(1970, 1, 1), 0);
    assert_eq!(days_from_civil(2000, 3, 1), 11_017);
    assert_eq!(days_from_civil(1969, 12, 31), -1);
    assert_eq!(ascii_num(b"0042"), Some(42));
    assert_eq!(ascii_num(b"4x"), None);
    let (ms, rest) = fractional_millis(b".7649Z");
    assert_eq!((ms, rest), (764, &b"Z"[..]));
    let (ms, rest) = fractional_millis(b".5");
    assert_eq!((ms, rest), (500, &b""[..]));
    assert_eq!(zone_offset_seconds(b"Z"), Some(0));
    assert_eq!(zone_offset_seconds(b"-01:30"), Some(-5_400));
    assert_eq!(zone_offset_seconds(b"*01:30"), None);
    assert_eq!(days_from_civil(2000, 13, 1), days_from_civil(2001, 1, 1));
    assert_eq!(days_from_civil(i64::MAX, 1, 1), i64::MAX);
    assert_eq!(days_from_civil(i64::MIN, 1, 1), i64::MIN);
    assert_eq!(days_from_civil(1970, 1, i64::MAX), i64::MAX - 1);
}
