use polis::event::{Payload, TranscriptSource};
use polis::json::{read_json, Json, Number};
use polis::line::{
    classify, elide_long_strings, parse_line, scrub_pii, transcript_line, transcript_line_parts,
    value_event, LineOutcome, MAX_RECORD_STRING,
};
use polis::record::{record_kind, Content, Record, TranscriptRecordKind};
use polis::replay::fuzz_transcript_bytes;
use polis::source::{attribute_to_file, session_files, TranscriptFile};
use polis::path::FilePath;
use polis::stats::ParseStats;

fn path(text: &str) -> FilePath {
    let mut parts: Vec<String> = Vec::new();
    if text.starts_with('/') {
        parts.push("/".to_owned());
    }
    for part in text.split('/') {
        if !part.is_empty() {
            parts.push(part.to_owned());
        }
    }
    FilePath { parts }
}

fn record_of(line: &str) -> Box<Record> {
    let mut stats = ParseStats::default();
    let LineOutcome::Record { record, .. } = parse_line(line, &mut stats) else {
        panic!("must parse");
    };
    record
}

#[test]
fn the_two_session_id_spellings_are_kept_apart() {
    let line = r#"{"type":"user","sessionId":"self","session_id":"ancestor",
            "message":{"role":"user","content":"hi"}}"#;
    let record = record_of(line);
    let env = record.envelope().expect("threaded");
    assert_eq!(env.session_id.as_deref(), Some("self"));
    assert_eq!(
        env.ancestor_session_id.as_deref(),
        Some("ancestor"),
        "snake session_id is the resumed-from lineage, not a duplicate"
    );
}

#[test]
fn user_content_may_be_a_bare_string() {
    let line = r#"{"type":"user","sessionId":"s","message":{"role":"user","content":"hello"}}"#;
    let record = record_of(line);
    let content = record
        .threaded()
        .and_then(|t| t.message.as_ref())
        .and_then(|m| m.content.as_ref());
    assert!(matches!(content, Some(Content::Text(t)) if t == "hello"));
    assert!(record.blocks().is_empty());
}

#[test]
fn an_unknown_type_still_produces_an_event_because_unknown_is_drift_not_failure() {
    let line = r#"{"type":"quantum-latch","sessionId":"s","x":1}"#;
    let event = transcript_line(line, &TranscriptSource::Main, 42, 0).expect("drift still emits");
    let Payload::Transcript(t) = &event.payload else {
        panic!("wrong payload");
    };
    assert_eq!(t.kind, TranscriptRecordKind::Unknown);
    assert_eq!(t.byte_offset, 42);
    assert_eq!(t.record.get("x"), Some(&Json::Num(Number::Pos(1))));
    assert_eq!(event.meta.session.as_deref(), Some("s"));
}

#[test]
fn corrupt_and_blank_lines_produce_no_event() {
    assert!(transcript_line("", &TranscriptSource::Main, 0, 0).is_none());
    assert!(transcript_line("   \t ", &TranscriptSource::Main, 0, 0).is_none());
    assert!(transcript_line("{oops", &TranscriptSource::Main, 0, 0).is_none());
}

#[test]
fn parse_line_is_total_over_awkward_input() {
    let mut stats = ParseStats::default();
    for line in [
        "",
        " ",
        "\u{0}",
        "null",
        "123",
        "\"a string\"",
        "[]",
        "{}",
        r#"{"type":null}"#,
        r#"{"type":{"nested":true}}"#,
        r#"{"type":"user","message":5}"#,
        r#"{"type":"user","message":{"content":[{"type":"tool_use"}]}}"#,
        r#"{"type":"assistant","uuid":"\ud800"}"#,
    ] {
        let _ = parse_line(line, &mut stats);
    }
    assert_eq!(stats.total(), 13, "every line was accounted for: {stats:?}");
}

#[test]
fn any_bytes_are_read_to_the_end() {
    assert_eq!(fuzz_transcript_bytes(b"").total(), 0);
    assert_eq!(fuzz_transcript_bytes(b"\n\n\n").blank, 3);
    assert_eq!(fuzz_transcript_bytes(&[0xff, 0xfe, b'\n', 0x00]).bad_json, 2);
    let torn = "{\"type\":\"user\",\"sessionId\":\"é\"}".as_bytes();
    for cut in 0..torn.len() {
        let stats = fuzz_transcript_bytes(&torn[..cut]);
        assert_eq!(stats.total(), u64::from(cut > 0));
        assert_eq!(stats.ok, 0);
    }
    assert_eq!(fuzz_transcript_bytes(torn).ok, 1);
}

#[test]
fn every_fate_of_a_line_has_its_counter() {
    let mut stats = ParseStats::default();
    assert!(matches!(parse_line("  ", &mut stats), LineOutcome::Blank));
    assert!(matches!(parse_line("{", &mut stats), LineOutcome::Corrupt));
    assert!(matches!(
        parse_line("[1]", &mut stats),
        LineOutcome::Drift { raw_type: None, raw } if raw == Json::Arr(vec![Json::Num(Number::Pos(1))])
    ));
    assert!(matches!(
        parse_line(r#"{"x":1,"version":"2.1.0"}"#, &mut stats),
        LineOutcome::Drift { raw_type: None, .. }
    ));
    assert!(matches!(
        parse_line(r#"{"type":"brand-new"}"#, &mut stats),
        LineOutcome::Drift { raw_type: Some(t), .. } if t == "brand-new"
    ));
    assert!(matches!(
        parse_line(r#"{"type":"user","isMeta":"yes"}"#, &mut stats),
        LineOutcome::Drift { raw_type: Some(t), .. } if t == "user"
    ));
    assert!(matches!(
        parse_line(r#"{"type":"mode","mode":"normal"}"#, &mut stats),
        LineOutcome::Record { .. }
    ));
    assert_eq!(
        (stats.ok, stats.blank, stats.bad_json, stats.bad_shape, stats.unknown_type),
        (1, 1, 1, 1, 3)
    );
    assert_eq!(stats.drift(), 5);
    assert_eq!(stats.total(), 7);
    assert_eq!(stats.unknown_types_seen.get("<no type>"), Some(&2));
    assert_eq!(stats.unknown_types_seen.get("brand-new"), Some(&1));
    assert_eq!(stats.versions_seen.last().map(String::as_str), Some("2.1.0"));
}

#[test]
fn merged_counters_are_sums() {
    let mut a = ParseStats::default();
    let mut b = ParseStats::default();
    let _ = parse_line(r#"{"type":"new-a","version":"1"}"#, &mut a);
    let _ = parse_line(r#"{"type":"new-a","version":"2"}"#, &mut b);
    let _ = parse_line(r#"{"type":"new-b"}"#, &mut b);
    let _ = parse_line("", &mut b);
    a.merge(&b);
    assert_eq!(a.total(), 4);
    assert_eq!(a.unknown_type, 3);
    assert_eq!(a.unknown_types_seen.get("new-a"), Some(&2));
    assert_eq!(a.unknown_types_seen.get("new-b"), Some(&1));
    assert_eq!(a.versions_seen.len(), 2);
    assert_eq!(a.versions_seen.last().map(String::as_str), Some("2"));
}

#[test]
fn every_tag_names_its_kind() {
    let kinds = [
        ("user", TranscriptRecordKind::User),
        ("assistant", TranscriptRecordKind::Assistant),
        ("attachment", TranscriptRecordKind::Attachment),
        ("system", TranscriptRecordKind::System),
        ("mode", TranscriptRecordKind::Mode),
        ("last-prompt", TranscriptRecordKind::LastPrompt),
        ("bridge-session", TranscriptRecordKind::BridgeSession),
        ("permission-mode", TranscriptRecordKind::PermissionMode),
        ("ai-title", TranscriptRecordKind::AiTitle),
        ("custom-title", TranscriptRecordKind::CustomTitle),
        ("agent-name", TranscriptRecordKind::AgentName),
        ("queue-operation", TranscriptRecordKind::QueueOperation),
        ("file-history-delta", TranscriptRecordKind::FileHistoryDelta),
        ("file-history-snapshot", TranscriptRecordKind::FileHistorySnapshot),
        ("started", TranscriptRecordKind::Started),
        ("result", TranscriptRecordKind::Result),
        ("atis-latch", TranscriptRecordKind::AtisLatch),
        ("frame-link", TranscriptRecordKind::FrameLink),
        ("cost-state", TranscriptRecordKind::CostState),
        ("", TranscriptRecordKind::Unknown),
        ("User", TranscriptRecordKind::Unknown),
    ];
    for (tag, kind) in kinds {
        assert_eq!(record_kind(tag), kind, "{tag}");
        let line = format!("{{\"type\":\"{tag}\"}}");
        let mut stats = ParseStats::default();
        match parse_line(&line, &mut stats) {
            LineOutcome::Record { record, .. } => assert_eq!(record.kind(), kind),
            LineOutcome::Drift { .. } => assert_eq!(kind, TranscriptRecordKind::Unknown),
            _ => panic!("an object is a record or drift"),
        }
    }
}

#[test]
fn thread_records_hold_every_member() {
    let line = r#"{"type":"assistant","uuid":"u","parentUuid":"p","logicalParentUuid":"l",
        "isSidechain":true,"timestamp":"t","sessionId":"s","cwd":"/c","gitBranch":"g",
        "version":"v","userType":"x","entrypoint":"e","agentId":"a","slug":"sl",
        "subtype":"st","toolUseResult":{"agentId":"z"},"promptId":"pr","requestId":"rq",
        "sourceToolAssistantUUID":"p","attributionAgent":"general-purpose",
        "attributionSkill":"k","isMeta":false,"durationMs":18446744073709551615,
        "messageCount":3,"compactMetadata":[1],"effort":"high","isApiErrorMessage":false,
        "toolDenialKind":"d","origin":"o","message":{"role":"assistant","model":"m","id":"i",
        "stop_reason":"end","usage":{"n":1},"content":[{"type":"tool_use","id":"c1",
        "name":"Agent","input":{"q":1},"is_error":false},["text",null,null,null,"hi",null,
        null,null,true]],"kept":1},"attachment":{"type":"file","name":"n"},"other":null}"#;
    let record = record_of(line);
    let t = record.threaded().expect("threaded");
    let e = &t.envelope;
    assert_eq!(e.uuid.as_deref(), Some("u"));
    assert_eq!(e.parent_uuid.as_deref(), Some("p"));
    assert_eq!(e.logical_parent_uuid.as_deref(), Some("l"));
    assert_eq!(e.is_sidechain, Some(true));
    assert_eq!(e.cwd.as_deref(), Some("/c"));
    assert_eq!(e.git_branch.as_deref(), Some("g"));
    assert_eq!(e.user_type.as_deref(), Some("x"));
    assert_eq!(e.entrypoint.as_deref(), Some("e"));
    assert_eq!(e.slug.as_deref(), Some("sl"));
    assert_eq!(record.version(), Some("v"));
    assert_eq!(record.agent_id(), Some("a"));
    assert_eq!(record.prompt_id(), Some("pr"));
    assert_eq!(record.timestamp(), Some("t"));
    assert_eq!(t.source_tool_assistant_uuid.as_deref(), Some("p"));
    assert_eq!(t.duration_ms, Some(u64::MAX));
    assert_eq!(t.message_count, Some(3));
    assert_eq!(t.is_meta, Some(false));
    assert_eq!(t.effort.as_deref(), Some("high"));
    assert_eq!(t.origin, Some(Json::Str("o".to_owned())));
    assert_eq!(t.extra.len(), 2, "the tag and the member that nothing names: {:?}", t.extra);
    let m = t.message.as_ref().expect("a message");
    assert_eq!(m.stop_reason.as_deref(), Some("end"));
    assert_eq!(m.extra, vec![("kept".to_owned(), Json::Num(Number::Pos(1)))]);
    assert_eq!(record.blocks().len(), 2);
    assert_eq!(record.blocks()[0].name.as_deref(), Some("Agent"));
    assert_eq!(record.blocks()[1].text.as_deref(), Some("hi"));
    assert_eq!(record.blocks()[1].is_error, Some(true));
    let a = t.attachment.as_ref().expect("an attachment");
    assert_eq!(a.kind.as_deref(), Some("file"));
    assert_eq!(a.fields.len(), 1);
}

#[test]
fn content_that_is_not_all_blocks_is_kept_as_it_stands() {
    let record = record_of(r#"{"type":"user","message":{"content":[{"type":"text"},7]}}"#);
    assert!(record.blocks().is_empty());
    let content = record.threaded().unwrap().message.as_ref().unwrap().content.as_ref();
    assert!(matches!(content, Some(Content::Other(Json::Arr(items))) if items.len() == 2));
    let record = record_of(r#"{"type":"user","message":{"content":null}}"#);
    assert!(record.threaded().unwrap().message.as_ref().unwrap().content.is_none());
}

#[test]
fn side_records_and_journals_hold_their_members() {
    let record = record_of(
        r#"{"type":"cost-state","sessionId":"s","totalCostUSD":0.25,"totalLinesAdded":-3,
        "totalLinesRemoved":9223372036854775807,"timestamp":"2024-02-29T00:00:00Z"}"#,
    );
    assert_eq!(record.session_id(), Some("s"));
    assert_eq!(record.timestamp(), Some("2024-02-29T00:00:00Z"));
    assert!(record.envelope().is_none());
    let Record::Sidecar { body, .. } = &*record else {
        panic!("beside the thread");
    };
    assert_eq!(body.total_cost_usd, Some(Number::Float("0.25".to_owned())));
    assert_eq!(body.total_lines_added, Some(-3));
    assert_eq!(body.total_lines_removed, Some(i64::MAX));
    let record = record_of(r#"{"type":"started","key":"v2:aa","agentId":"a1","sessionId":"s"}"#);
    assert_eq!(record.session_id(), None);
    assert_eq!(record.agent_id(), Some("a1"));
    let mut stats = ParseStats::default();
    let line = r#"{"type":"cost-state","totalLinesAdded":9223372036854775808}"#;
    assert!(matches!(parse_line(line, &mut stats), LineOutcome::Drift { .. }));
    assert_eq!(stats.bad_shape, 1);
}

#[test]
fn a_value_can_be_classified_without_its_text() {
    let mut stats = ParseStats::default();
    let tag = || ("type".to_owned(), Json::Str("mode".to_owned()));
    let fine = Json::Obj(vec![tag()]);
    assert!(matches!(classify(Some(fine), &mut stats), LineOutcome::Record { .. }));
    let misfit = Json::Obj(vec![tag(), ("mode".to_owned(), Json::Bool(true))]);
    assert!(matches!(classify(Some(misfit), &mut stats), LineOutcome::Drift { .. }));
    assert!(matches!(classify(None, &mut stats), LineOutcome::Corrupt));
    assert!(matches!(
        classify(Some(Json::Null), &mut stats),
        LineOutcome::Drift { raw_type: None, raw: Json::Null }
    ));
    let named = Json::Obj(vec![tag(), ("sessionId".to_owned(), Json::Str("s".to_owned()))]);
    let (event, wall) = value_event(Some(named), &TranscriptSource::Main, 3, 9, &mut stats)
        .expect("an object is handed on");
    assert_eq!(event.meta.session.as_deref(), Some("s"));
    assert_eq!(event.meta.observed, 9);
    assert!(wall.is_none());
    assert_eq!((stats.ok, stats.bad_shape, stats.bad_json), (2, 1, 1));
    assert_eq!(stats.unknown_type, 1);
}

#[test]
fn json_is_read_member_by_member() {
    assert_eq!(read_json("[1,"), None);
    let value = read_json(r#" {"b":[null,true,-2,1.5,"x"],"a":{}} "#).expect("one value");
    let Json::Obj(members) = &value else {
        panic!("an object");
    };
    assert_eq!(members[0].0, "a");
    assert_eq!(
        value.get("b"),
        Some(&Json::Arr(vec![
            Json::Null,
            Json::Bool(true),
            Json::Num(Number::Neg(-2)),
            Json::Num(Number::Float("1.5".to_owned())),
            Json::Str("x".to_owned()),
        ]))
    );
}

#[test]
fn account_identifiers_never_reach_the_bus() {
    let line = r#"{"type":"bridge-session","sessionId":"s","bridgeSessionId":"cse_1",
            "lastSequenceNum":0,"ownerAccountUuid":"11111111-1111-1111-1111-111111111111",
            "ownerOrganizationUuid":"22222222-2222-2222-2222-222222222222"}"#;
    let event = transcript_line(line, &TranscriptSource::Main, 0, 0).unwrap();
    let Payload::Transcript(t) = &event.payload else {
        panic!()
    };
    assert!(t.record.get("ownerAccountUuid").is_none());
    assert!(t.record.get("ownerOrganizationUuid").is_none());
    assert_eq!(
        t.record.get("bridgeSessionId").and_then(Json::as_str),
        Some("cse_1"),
        "only the identity document is dropped, not the record"
    );
}

#[test]
fn scrubbing_takes_five_members_and_no_more() {
    let mut value = read_json(
        r#"{"user.email":1,"user.account_uuid":2,"user.account_id":3,"ownerAccountUuid":4,
        "ownerOrganizationUuid":5,"user":{"user.email":6},"email":7}"#,
    )
    .unwrap();
    scrub_pii(&mut value);
    assert_eq!(value, read_json(r#"{"user":{"user.email":6},"email":7}"#).unwrap());
    let mut list = read_json(r#"[{"user.email":1}]"#).unwrap();
    scrub_pii(&mut list);
    assert_eq!(list, read_json(r#"[{"user.email":1}]"#).unwrap());
}

#[test]
fn very_long_strings_are_elided_with_their_counts_kept() {
    let long = format!("{}\n{}", "x".repeat(4000), "y".repeat(4000));
    let mut value = Json::Obj(vec![
        ("content".to_owned(), Json::Str(long)),
        ("n".to_owned(), Json::Num(Number::Pos(1))),
    ]);
    assert_eq!(elide_long_strings(&mut value, MAX_RECORD_STRING), 1);
    let out = value.get("content").and_then(Json::as_str).unwrap();
    assert!(out.len() < 4000 + 200);
    assert!(out.ends_with("chars, 2 lines elided]"), "{out}");
    // Opting out is possible and exact.
    let mut untouched = Json::Obj(vec![("content".to_owned(), Json::Str("z".repeat(9000)))]);
    assert_eq!(elide_long_strings(&mut untouched, usize::MAX), 0);
    assert_eq!(untouched.get("content").and_then(Json::as_str).unwrap().len(), 9000);
}

#[test]
fn an_elided_string_says_what_is_gone() {
    let mut value = Json::Arr(vec![
        Json::Str("abc".to_owned()),
        Json::Str("äbcd\nef\n".to_owned()),
    ]);
    assert_eq!(elide_long_strings(&mut value, 3), 1);
    assert_eq!(
        value,
        Json::Arr(vec![
            Json::Str("abc".to_owned()),
            Json::Str("äbc…[5 chars, 2 lines elided]".to_owned()),
        ])
    );
}

#[test]
fn elision_is_safe_on_a_spread_of_strings() {
    for s in ["", "short", "0123456789", "0123456789a", "日本語のパスは十一文字以上です", "\n\n\n\n\n\n\n\n\n\n\n\n"] {
        let mut v = Json::Str(s.to_owned());
        let n = elide_long_strings(&mut v, 10);
        let out = v.as_str().unwrap();
        assert_eq!(n > 0, s.chars().count() > 10);
        assert!(out.starts_with(&s.chars().take(10).collect::<String>()));
    }
}

#[test]
fn a_subagent_record_is_attributed_even_when_its_agent_id_is_missing() {
    let source = TranscriptSource::Subagent {
        agent: "a1".to_owned(),
        workflow_run: None,
    };
    // No `agentId` on the record — the file's own path still attributes it.
    let line = r#"{"type":"user","sessionId":"s","message":{"role":"user","content":"x"}}"#;
    let event = transcript_line(line, &source, 0, 0).unwrap();
    assert!(event.meta.is_worker());
    assert_eq!(event.meta.worker.as_deref(), Some("a1"));
    // And the thread key is the SESSION, never the agent (a subagent file
    // records the parent's session id).
    assert_eq!(event.meta.thread.as_deref(), Some("s"));
}

#[test]
fn a_journal_line_carries_the_session_of_the_directory_it_was_read_from() {
    let line = "{\"type\":\"started\",\"key\":\"v2:aa\",\"agentId\":\"a1234\"}\n";
    let files = session_files(
        &path("/t/proj/sess"),
        true,
        &vec![path("/t/proj/sess/subagents/workflows/wf_run_2026/journal.jsonl")],
    );
    let journal = files
        .iter()
        .find(|f| matches!(f.source, TranscriptSource::WorkflowJournal { .. }))
        .expect("the journal");
    let mut stats = ParseStats::default();
    let (mut event, _) =
        transcript_line_parts(line.trim_end(), &journal.source, 0, 0, &mut stats).expect("parsed");
    assert!(
        event.meta.session.is_none(),
        "the record itself names no session — that is the whole problem"
    );
    attribute_to_file(&mut event, journal);
    assert_eq!(
        event.meta.session.as_deref(),
        Some("sess"),
        "so the directory it was read out of says it instead"
    );
}

#[test]
fn a_record_that_names_its_own_session_is_never_overridden_by_the_path() {
    let line = "{\"type\":\"assistant\",\"sessionId\":\"inner\",\"message\":{\"content\":[]}}";
    let files = session_files(
        &path("/t/proj/outer"),
        true,
        &vec![path("/t/proj/outer/subagents/agent-a1234.jsonl")],
    );
    let sub: &TranscriptFile = files
        .iter()
        .find(|f| matches!(f.source, TranscriptSource::Subagent { .. }))
        .expect("the subagent file");
    let mut stats = ParseStats::default();
    let (mut event, _) =
        transcript_line_parts(line, &sub.source, 0, 0, &mut stats).expect("parsed");
    attribute_to_file(&mut event, sub);
    assert_eq!(
        event.meta.session.as_deref(),
        Some("inner"),
        "the record's own word wins"
    );
}

#[test]
fn a_value_that_is_no_object_is_kept_as_drift() {
    for (line, value) in [
        ("123", Json::Num(Number::Pos(123))),
        ("null", Json::Null),
        ("\"text\"", Json::Str("text".to_owned())),
    ] {
        let mut stats = ParseStats::default();
        let LineOutcome::Drift { raw_type, raw } = parse_line(line, &mut stats) else {
            panic!("{line} is JSON of no known type");
        };
        assert_eq!((raw_type, raw), (None, value));
        assert_eq!((stats.unknown_type, stats.bad_json), (1, 0));
        assert_eq!(stats.unknown_types_seen.get("<no type>"), Some(&1));
    }
    let event = transcript_line("123", &TranscriptSource::Main, 0, 0).expect("handed on");
    let Payload::Transcript(t) = &event.payload else {
        panic!("a transcript event");
    };
    assert_eq!(t.kind, TranscriptRecordKind::Unknown);
    assert_eq!(t.record, Json::Num(Number::Pos(123)));
}

#[test]
fn the_counts_by_type_add_up_to_the_unknown_lines() {
    let mut stats = ParseStats::default();
    for line in ["{\"type\":\"x\"}", "{\"type\":\"y\"}", "{\"type\":\"x\"}", "[]", "{}", "{", ""] {
        parse_line(line, &mut stats);
        let mut sum = 0;
        for i in 0..stats.unknown_types_seen.len() {
            let key = stats.unknown_types_seen.key_at(i).clone();
            sum += stats.unknown_types_seen.get(&key).copied().expect("listed");
        }
        assert_eq!(sum, stats.unknown_type);
    }
    assert_eq!(stats.unknown_type, 5);
}
