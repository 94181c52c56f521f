use polis::event::TranscriptSource;
use polis::index::ToolUseIndex;
use polis::json::Json;
use polis::path::FilePath;
use polis::project::{
    discover_project_dirs, head_cwd, index_projects, js_hash, jsonl_files, project_dir_cwd,
    project_dir_for_cwd, project_key, sessions_in, to_base36, utf16_of, value_cwd, ProjectDir,
};
use polis::record::AgentMeta;
use polis::source::{
    main_transcript, meta_path_for, resolve_parent, resolve_parent_link, session_files,
    transcript_source, workflow_run_of, ParentLink, TranscriptFile,
};

fn path(text: &str) -> FilePath {
    let mut parts: Vec<String> = Vec::new();
    if text.starts_with('/') {
        parts.push("/".to_owned());
    }
    for part in text.split('/') {
        if !part.is_empty() {
            parts.push(part.to_owned());
        }
    }
    FilePath { parts }
}

const REAL_PROJECT_DIRS: &[(&str, &str)] = &[
    (r"C:\coding\agentolis", "C--coding-agentolis"),
    (r"C:\coding", "C--coding"),
    (r"C:\coding\biwt", "C--coding-biwt"),
    (r"C:\Users\konka", "C--Users-konka"),
    (r"C:\coding\qurio-toolset", "C--coding-qurio-toolset"),
    (
        r"C:\coding\stickingplacebooks",
        "C--coding-stickingplacebooks",
    ),
    (
        r"C:\Users\konka\AppData\Local\Temp\agents\C--coding-agentolis",
        "C--Users-konka-AppData-Local-Temp-agents-C--coding-agentolis",
    ),
];

#[test]
fn project_key_reproduces_the_real_directory_names() {
    for (cwd, dir) in REAL_PROJECT_DIRS {
        assert_eq!(&project_key(cwd), dir, "cwd {cwd}");
        assert!(project_key(cwd).len() <= 200, "short paths get no suffix");
    }
}

#[test]
fn project_key_gives_a_long_directory_its_hashed_suffix() {
    let cwd = [
        r"C:\Users\konka\AppData\Local\Temp\agents\C--coding-agentolis",
        r"\6f51089f-1ec0-4e78-9bc9-8ff6864e0100\scratchpad",
        r"\aaaaaaaaaa\bbbbbbbbbb\cccccccccc\dddddddddd\eeeeeeeeee",
        r"\ffffffffff\gggggggggg\hhhhhhhhhh\iiiiiiiiii\jjjjjjjjjj",
    ]
    .concat();
    assert_eq!(cwd.chars().count(), 218);
    assert_eq!(js_hash(&cwd), 1_779_142_855);
    let key = project_key(&cwd);
    assert_eq!(key.len(), 207);
    assert!(key.ends_with("-tf97ev"), "{key}");
    assert!(
        key.starts_with("C--Users-konka-AppData-Local-Temp-agents-C--coding-agentolis-"),
        "{key}"
    );
    // The hash is over the directory as it is, not as it is spelled in the name.
    let munged: String =
        cwd.chars().map(|c| if c.is_ascii_alphanumeric() { c } else { '-' }).collect();
    assert_ne!(js_hash(&cwd), js_hash(&munged));
}

#[test]
fn the_hash_widens_to_i64_because_abs_of_i32_min_does_not_fit() {
    let cwd = [
        r"C:\deep\segment01\segment02\segment03\segment04\segment05\segment06",
        r"\segment07\segment08\segment09\segment10\segment11\segment12",
        r"\segment13\segment14\segment15\segment16\segment17\segment18",
        r"\segment19\segment20\segment21\segment22\1B;G4K8",
    ]
    .concat();
    assert_eq!(js_hash(&cwd), i32::MIN, "the solved-for input");
    assert!(cwd.chars().count() > 200, "long enough to need a suffix");
    let key = project_key(&cwd);
    // 2 147 483 648 in base 36.
    assert!(key.ends_with("-zik0zk"), "{key}");
    assert_eq!(key.len(), 207);
}

#[test]
fn the_hash_is_over_utf16_code_units_not_chars() {
    // U+1F600 is one `char` and two UTF-16 code units, so a `chars()`-based
    // hash disagrees here and only here.
    let with_astral = "C:\\a\u{1F600}b";
    let mut chars_hash: i32 = 0;
    for c in with_astral.chars() {
        chars_hash = chars_hash
            .wrapping_shl(5)
            .wrapping_sub(chars_hash)
            .wrapping_add(c as i32);
    }
    assert_ne!(js_hash(with_astral), chars_hash);
    // And the astral char munges to two dashes, one per code unit.
    assert_eq!(project_key(with_astral), "C--a--b");
}

#[test]
fn project_key_is_total() {
    for cwd in ["", "/", "a", "\u{0}", &"x".repeat(5000), "日本語のパス"] {
        let key = project_key(cwd);
        assert!(key.chars().all(|c| c.is_ascii_alphanumeric() || c == '-'));
        assert!(key.len() <= 200 + 1 + 13);
    }
}

#[test]
fn code_units_and_digits_are_as_written_out() {
    let text = "aé\u{FFFF}\u{10000}\u{1F600}";
    let expected: Vec<u16> = text.encode_utf16().collect();
    assert_eq!(utf16_of(text), expected);
    assert_eq!(js_hash(""), 0);
    assert_eq!(js_hash("ab"), 97 * 31 + 98);
    assert_eq!(to_base36(0), "0");
    assert_eq!(to_base36(35), "z");
    assert_eq!(to_base36(36), "10");
    assert_eq!(to_base36(u64::MAX), "3w5e11264sgsf");
}

#[test]
fn keys_keep_their_length_up_to_the_limit() {
    assert_eq!(project_key(&"x".repeat(200)), "x".repeat(200));
    let key = project_key(&"x".repeat(201));
    assert!(key.starts_with(&format!("{}-", "x".repeat(200))));
    assert!(key.len() > 201);
}

#[test]
fn discovery_finds_directories_the_computed_key_would_miss() {
    let projects = path("/projects");
    // One directory whose name is what `project_key` computes...
    let computed = projects.join(&project_key(r"C:\coding\agentolis"));
    let first = "{\"type\":\"mode\",\"mode\":\"normal\",\"sessionId\":\"s\"}\n\
         {\"type\":\"user\",\"sessionId\":\"s\",\"cwd\":\"C:\\\\coding\\\\agentolis\",\
         \"message\":{\"role\":\"user\",\"content\":\"hi\"}}\n";
    // ...and one the CLI overrode, which no amount of computing will find.
    let overridden = projects.join("my-custom-key");
    let second = "{\"type\":\"user\",\"sessionId\":\"t\",\"cwd\":\"C:\\\\elsewhere\",\
         \"message\":{\"role\":\"user\",\"content\":\"hi\"}}\n";

    let found = discover_project_dirs(vec![
        (overridden.copied(), true),
        (projects.join("notes.txt"), false),
        (computed.copied(), true),
    ]);
    let mut with_cwd = Vec::new();
    for dir in found {
        let text = if dir == computed { first } else { second };
        let cwd = project_dir_cwd(&vec![None, Some(text.as_bytes().to_vec())]);
        with_cwd.push((dir, cwd));
    }
    let dirs = index_projects(&with_cwd);
    assert_eq!(dirs.len(), 2);
    assert_eq!(dirs[0].path, computed, "sorted, so deterministic");
    assert!(dirs[0].is_computed());

    let overridden_entry = dirs.iter().find(|d| d.key == "my-custom-key").unwrap();
    assert_eq!(overridden_entry.cwd.as_deref(), Some(r"C:\elsewhere"));
    assert!(
        !overridden_entry.is_computed(),
        "an overridden key is not derivable from cwd"
    );

    // And the reverse lookup works for both.
    let is_dir = |cwd: &str| {
        let at = projects.join(&project_key(cwd));
        at == computed || at == overridden
    };
    let lookup = |cwd: &str| project_dir_for_cwd(&projects, cwd, is_dir(cwd), &dirs);
    assert_eq!(lookup(r"C:\coding\agentolis"), Some(computed.copied()));
    assert_eq!(
        lookup(r"C:\elsewhere"),
        Some(overridden.copied()),
        "found only by reading cwd out of the records"
    );
    assert_eq!(lookup(r"C:\nowhere"), None);
}

#[test]
fn a_working_directory_is_read_out_of_the_first_record_that_names_one() {
    assert_eq!(head_cwd(b""), None);
    assert_eq!(head_cwd(b"{\"cwd\":\"\"}\n{\"cwd\":\"/b\"}"), Some(String::new()));
    assert_eq!(head_cwd(b"{\"cwd\":1}\nnot json\n{\"cwd\":\"/b\"}\n"), Some("/b".to_owned()));
    assert_eq!(head_cwd(b"{\"cwd\":\"/a"), None);
    let heads = vec![None, Some(b"{}".to_vec()), Some(b"{\"cwd\":\"/c\"}".to_vec())];
    assert_eq!(project_dir_cwd(&heads), Some("/c".to_owned()));
    assert_eq!(project_dir_cwd(&vec![None]), None);
    let named = Json::Obj(vec![("cwd".to_owned(), Json::Str("/d".to_owned()))]);
    assert_eq!(value_cwd(&Some(named)), Some("/d".to_owned()));
    assert_eq!(value_cwd(&Some(Json::Null)), None);
    assert_eq!(value_cwd(&None), None);
}

#[test]
fn transcripts_name_their_sessions() {
    let files = jsonl_files(vec![
        path("/p/b.jsonl"),
        path("/p/a.meta.json"),
        path("/p/.jsonl"),
        path("/p/a.jsonl"),
    ]);
    assert_eq!(files, vec![path("/p/a.jsonl"), path("/p/b.jsonl")]);
    assert_eq!(sessions_in(&path("/p"), &files), vec![path("/p/a"), path("/p/b")]);
    let dir = ProjectDir { path: path("/p"), key: "p".to_owned(), cwd: None };
    assert!(!dir.is_computed());
}

/// The files of a session with one subagent, as they lie on disk.
fn build_session() -> (FilePath, String, Vec<FilePath>) {
    let sid = "005d9938-2b44-45f6-87ac-4cddac3b0d6b".to_owned();
    let session_dir = path("/t/C--coding-demo").join(&sid);
    let agents = session_dir.join("subagents");
    let found = vec![agents.join("agent-a96cf8a57447af436.jsonl")];
    (session_dir, sid, found)
}

#[test]
fn session_files_finds_the_forest_not_just_the_tree() {
    let (session_dir, sid, found) = build_session();
    let files = session_files(&session_dir, true, &found);
    assert_eq!(files.len(), 2);
    assert_eq!(files[0].source, TranscriptSource::Main, "main sorts first");
    assert_eq!(files[0].session.as_str(), sid);
    assert_eq!(
        files[1].source,
        TranscriptSource::Subagent {
            agent: "a96cf8a57447af436".to_owned(),
            workflow_run: None,
        }
    );
    assert_eq!(
        files[1].session.as_str(),
        sid,
        "a subagent file records the PARENT's session id"
    );
    assert_eq!(
        files[1].meta_path().unwrap(),
        session_dir.join("subagents").join("agent-a96cf8a57447af436.meta.json")
    );
    assert!(files[0].meta_path().is_none());
}

#[test]
fn a_session_with_no_subagents_still_yields_its_main_transcript() {
    let files = session_files(&path("/t/proj/abc"), true, &vec![]);
    assert_eq!(files.len(), 1);
    assert_eq!(files[0].source, TranscriptSource::Main);
    assert_eq!(files[0].path, path("/t/proj/abc.jsonl"));
    assert_eq!(main_transcript(&path("/t/proj/abc")), Some(path("/t/proj/abc.jsonl")));
    // And a session that does not exist at all is empty, not an error.
    assert!(session_files(&path("/t/proj/nope"), false, &vec![]).is_empty());
}

#[test]
fn workflow_subagents_keep_the_run_id_that_is_their_only_parent_link() {
    let run_dir = path("/t/proj/sess/subagents/workflows/wf_run_2026");
    let found = vec![run_dir.join("journal.jsonl"), run_dir.join("agent-a1234.jsonl")];
    let files = session_files(&path("/t/proj/sess"), true, &found);
    assert_eq!(files.len(), 3);
    assert_eq!(
        files[1].source,
        TranscriptSource::Subagent {
            agent: "a1234".to_owned(),
            workflow_run: Some("run_2026".to_owned()),
        },
        "dropping the run id orphans four out of five subagents"
    );
    assert_eq!(
        files[2].source,
        TranscriptSource::WorkflowJournal {
            run: "run_2026".to_owned()
        }
    );
}

#[test]
fn transcript_source_never_assumes_a_fixed_depth() {
    let deep = path("/x/sid/subagents/workflows/wf_r/nested/agent-abc.jsonl");
    assert_eq!(
        transcript_source(&deep),
        Some(TranscriptSource::Subagent {
            agent: "abc".to_owned(),
            workflow_run: Some("r".to_owned()),
        })
    );
    assert_eq!(
        transcript_source(&path("/x/sid.jsonl")),
        Some(TranscriptSource::Main)
    );
    assert_eq!(transcript_source(&path("/x/sid.meta.json")), None);
    assert_eq!(
        transcript_source(&path("/x/journal.jsonl")),
        None,
        "a journal outside a wf_ directory has no run id to name it by"
    );
}

#[test]
fn a_run_is_named_by_the_nearest_run_directory() {
    assert_eq!(workflow_run_of(&path("/wf_a/wf_b/agent-x.jsonl")), Some("b".to_owned()));
    assert_eq!(workflow_run_of(&path("/x/agent-x.jsonl")), None);
    assert_eq!(workflow_run_of(&path("/x/wf_abc/wf_notes.jsonl")), Some("abc".to_owned()));
    assert_eq!(workflow_run_of(&path("/x/wf_notes.jsonl")), None);
    assert_eq!(
        meta_path_for(&path("/x/agent-a.jsonl")),
        path("/x/agent-a.meta.json")
    );
    assert_eq!(
        meta_path_for(&path("/x/agent-a.meta.json")),
        path("/x/agent-a.meta.json")
    );
}

fn meta(tool_use_id: Option<&str>, parent_agent_id: Option<&str>) -> Option<AgentMeta> {
    Some(AgentMeta {
        agent_type: Some("Explore".to_owned()),
        description: None,
        tool_use_id: tool_use_id.map(ToOwned::to_owned),
        spawn_depth: Some(2),
        parent_agent_id: parent_agent_id.map(ToOwned::to_owned),
        model: None,
        extra: Vec::new(),
    })
}

const NESTED: &str = "{\"type\":\"assistant\",\"sessionId\":\"s\",\"agentId\":\"aparent\",\
     \"uuid\":\"u1\",\"parentUuid\":null,\"isSidechain\":true,\
     \"message\":{\"role\":\"assistant\",\"content\":[{\"type\":\"tool_use\",\
     \"id\":\"toolu_nested\",\"name\":\"Agent\",\"input\":{}}]}}\n";

#[test]
fn a_nested_subagent_resolves_to_the_worker_that_spawned_it() {
    let session_dir = path("/t/p/s");
    let agents = session_dir.join("subagents");
    let found = vec![agents.join("agent-aparent.jsonl"), agents.join("agent-achild.jsonl")];
    let files = session_files(&session_dir, true, &found);
    // A depth-1 agent whose transcript issues the `Agent` call...
    let mut read: Vec<(TranscriptFile, Vec<u8>)> = Vec::new();
    for file in &files {
        let text = if file.path.file_name() == Some("agent-aparent.jsonl") {
            NESTED
        } else {
            "{\"type\":\"mode\"}\n"
        };
        read.push((file.copied(), text.as_bytes().to_vec()));
    }
    let mut index = ToolUseIndex::default();
    assert_eq!(index.index_session(&read), 1);

    // ...and the depth-2 agent it spawned.
    let child = files
        .iter()
        .find(|f| f.path.file_name() == Some("agent-achild.jsonl"))
        .unwrap();
    let child_meta = meta(Some("toolu_nested"), Some("aparent"));
    assert_eq!(
        resolve_parent_link(&child.path, &child_meta, &index),
        ParentLink::Worker("aparent".to_owned()),
        "per-file indexing would miss this — the spawning call is in a SUBAGENT file"
    );
    assert_eq!(
        resolve_parent(&child.meta_path().unwrap(), &child_meta, &index),
        Some("aparent".to_owned())
    );
}

#[test]
fn a_workflow_subagent_with_no_meta_file_links_by_its_run_directory() {
    let at = path("/t/subagents/workflows/wf_abc123/agent-a9.jsonl");
    assert_eq!(
        resolve_parent_link(&at, &None, &ToolUseIndex::default()),
        ParentLink::Workflow {
            run: "abc123".to_owned()
        }
    );
    // No meta, no run directory: unattributed, but never an error.
    let orphan = path("/t/subagents/agent-a8.jsonl");
    assert_eq!(
        resolve_parent_link(&orphan, &None, &ToolUseIndex::default()),
        ParentLink::Unattributed
    );
}

#[test]
fn a_meta_file_decides_before_the_directory_does() {
    let at = path("/t/subagents/workflows/wf_w/agent-a9.jsonl");
    let index = ToolUseIndex::default();
    assert_eq!(
        resolve_parent_link(&at, &meta(Some("unseen"), Some("a2")), &index),
        ParentLink::Worker("a2".to_owned())
    );
    assert_eq!(
        resolve_parent_link(&at, &meta(None, None), &index),
        ParentLink::Workflow { run: "w".to_owned() }
    );
    let plain = path("/t/subagents/agent-a8.jsonl");
    assert_eq!(resolve_parent_link(&plain, &meta(None, None), &index), ParentLink::Main);
    assert_eq!(resolve_parent(&plain, &meta(None, None), &index), None);
}

#[test]
fn calls_are_found_by_their_answers() {
    let dir = path("/t/p/s");
    let main = session_files(&dir, true, &vec![]).remove(0);
    let text = "{\"type\":\"assistant\",\"uuid\":\"u1\",\"message\":{\"content\":[\
        {\"type\":\"text\",\"id\":\"not-a-call\"},\
        {\"type\":\"tool_use\",\"id\":\"t1\",\"name\":\"Agent\"},\
        {\"type\":\"tool_use\",\"id\":\"t2\",\"name\":\"Workflow\"}]}}\n\
        {\"type\":\"user\",\"toolUseResult\":{\"agentId\":\"a1\"},\"message\":{\"content\":[\
        {\"type\":\"tool_result\",\"tool_use_id\":\"t1\"}]}}\n\
        {\"type\":\"user\",\"toolUseResult\":{\"runId\":\"r1\"},\
        \"sourceToolAssistantUUID\":\"t2\"}\n";
    let mut index = ToolUseIndex::default();
    assert!(index.is_empty());
    assert_eq!(index.index_file(text.as_bytes(), &main), 2);
    assert_eq!(index.len(), 2);
    let site = index.site("t1").expect("indexed");
    assert_eq!(site.tool_name.as_deref(), Some("Agent"));
    assert_eq!(site.record_uuid.as_deref(), Some("u1"));
    assert!(site.agent.is_none(), "the main transcript has no agentId");
    assert_eq!(site.byte_offset, 0);
    assert_eq!(index.lookup("t2"), Some(&path("/t/p/s.jsonl")));
    assert!(index.lookup("not-a-call").is_none());
    assert_eq!(index.spawn_of_agent("a1").unwrap().tool_name.as_deref(), Some("Agent"));
    assert_eq!(
        index.spawn_of_workflow_run("r1").unwrap().tool_name.as_deref(),
        Some("Workflow")
    );
    assert!(index.spawn_of_agent("a2").is_none());
    let found = session_files(&dir, false, &vec![dir.join("subagents").join("agent-a3.jsonl")]);
    assert_eq!(index.index_file(text.as_bytes(), &found[0]), 2);
    assert_eq!(index.site("t1").unwrap().agent.as_deref(), Some("a3"));
    assert_eq!(index.len(), 2, "the same calls, seen again");
}
