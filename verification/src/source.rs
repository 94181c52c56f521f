//! Transcript files: which kind each is, and the files of a session in the order
//! they are read.
use vstd::prelude::*;

use crate::event::{Event, Happening, SessionId, Source, TranscriptSource, WorkerId};
use crate::index::ToolUseIndex;
use crate::json::opt_text;
use crate::path::{
    extension_of, name_of, path_lt, path_lt_irreflexive, path_lt_total, path_lt_transitive, renamed,
    FilePath,
};
use crate::record::AgentMeta;
use crate::sort::{in_rank, ranked, same_views, Ranked};
use crate::text::{
    push_text, same_text, strip_prefix, strip_suffix, without_prefix, without_suffix,
};

verus! {

/// How many directories deep subagent transcripts are looked for.
pub const MAX_SUBAGENT_DEPTH: usize = 8;

/// A transcript file, and how far it has been read.
#[derive(Debug)]
pub struct TranscriptFile {
    /// Where it is.
    pub path: FilePath,
    /// The session it belongs to.
    pub session: SessionId,
    /// Which kind it is.
    pub source: TranscriptSource,
    /// Bytes read so far.
    pub consumed: u64,
}

/// A transcript file, as mathematics.
pub ghost struct Transcript {
    pub path: Seq<Seq<char>>,
    pub session: Seq<char>,
    pub source: Source,
    pub consumed: int,
}

/// Where a kind of transcript stands: the main one, then subagents, then journals.
pub open spec fn source_rank(s: Source) -> int {
    match s {
        Source::Main => 0,
        Source::Subagent(_, _) => 1,
        Source::Journal(_) => 2,
    }
}

/// The path of what is noted beside a transcript.
pub open spec fn meta_path(p: Seq<Seq<char>>) -> Seq<Seq<char>> {
    let name = match name_of(p) {
        Some(n) => n,
        None => seq![],
    };
    let stem = match without_suffix(name, ".jsonl"@) {
        Some(s) => s,
        None => name,
    };
    if without_suffix(name, ".meta.json"@) is Some {
        p
    } else {
        renamed(p, stem + ".meta.json"@)
    }
}

/// The path of what is noted beside a transcript.
pub fn meta_path_for(transcript: &FilePath) -> (r: FilePath)
    ensures
        r@ == meta_path(transcript@),
{
    let name: String = match transcript.file_name() {
        Some(n) => n.to_owned(),
        None => String::new(),
    };
    if strip_suffix(name.as_str(), ".meta.json").is_some() {
        return transcript.copied();
    }
    let mut stem: String = match strip_suffix(name.as_str(), ".jsonl") {
        Some(s) => s,
        None => name,
    };
    push_text(&mut stem, ".meta.json");
    transcript.with_file_name(stem.as_str())
}

/// The workflow run that the innermost component named after one gives.
pub open spec fn run_in(p: Seq<Seq<char>>) -> Option<Seq<char>>
    decreases p.len(),
{
    if p.len() == 0 {
        None
    } else {
        match name_of(p) {
            Some(name) => match without_prefix(name, "wf_"@) {
                Some(run) => Some(run),
                None => run_in(p.drop_last()),
            },
            None => run_in(p.drop_last()),
        }
    }
}

/// The workflow run that a path lies in: the nearest directory above it that is named
/// after one. The path's own name says nothing.
pub open spec fn run_of(p: Seq<Seq<char>>) -> Option<Seq<char>> {
    if p.len() == 0 {
        None
    } else {
        run_in(p.drop_last())
    }
}

/// The workflow run that a path lies in.
pub fn workflow_run_of(path: &FilePath) -> (r: Option<String>)
    ensures
        opt_text(r) == run_of(path@),
{
    let mut here: FilePath = path.copied();
    if here.parts.len() == 0 {
        return None;
    }
    here.parts.pop();
    assert(here@ =~= path@.drop_last());
    while here.parts.len() > 0
        invariant
            run_of(path@) == run_in(here@),
        decreases here.parts.len(),
    {
        let ghost at = here@;
        if let Some(name) = here.file_name() {
            let run: Option<String> = strip_prefix(name, "wf_");
            if run.is_some() {
                return run;
            }
        }
        here.parts.pop();
        assert(here@ =~= at.drop_last());
    }
    None
}

/// Which kind of transcript a path names, if it names one.
pub open spec fn source_of(p: Seq<Seq<char>>) -> Option<Source> {
    if extension_of(p) != Some("jsonl"@) {
        None
    } else {
        let name = name_of(p)->0;
        if name == "journal.jsonl"@ {
            match run_of(p) {
                Some(run) => Some(Source::Journal(run)),
                None => None,
            }
        } else {
            match agent_in(name) {
                Some(id) => Some(Source::Subagent(id, run_of(p))),
                None => Some(Source::Main),
            }
        }
    }
}

/// The agent that a transcript's name gives.
pub open spec fn agent_in(name: Seq<char>) -> Option<Seq<char>> {
    match without_prefix(name, "agent-"@) {
        Some(rest) => without_suffix(rest, ".jsonl"@),
        None => None,
    }
}

/// An optional source, as mathematics.
pub open spec fn source_view(s: Option<TranscriptSource>) -> Option<Source> {
    match s {
        Some(v) => Some(v@),
        None => None,
    }
}

/// Which kind of transcript a path names, if it names one.
pub fn transcript_source(path: &FilePath) -> (r: Option<TranscriptSource>)
    ensures
        source_view(r) == source_of(path@),
{
    if !path.has_extension("jsonl") {
        return None;
    }
    let name: &str = match path.file_name() {
        Some(n) => n,
        None => return None,
    };
    let run: Option<String> = workflow_run_of(path);
    if same_text(name, "journal.jsonl") {
        return match run {
            Some(run) => Some(TranscriptSource::WorkflowJournal { run }),
            None => None,
        };
    }
    if let Some(rest) = strip_prefix(name, "agent-") {
        if let Some(agent) = strip_suffix(rest.as_str(), ".jsonl") {
            return Some(TranscriptSource::Subagent { agent, workflow_run: run });
        }
    }
    Some(TranscriptSource::Main)
}

impl TranscriptFile {
    /// The file.
    pub open spec fn view(self) -> Transcript {
        Transcript {
            path: self.path@,
            session: self.session@,
            source: self.source@,
            consumed: self.consumed as int,
        }
    }

    /// An equal file.
    pub fn copied(&self) -> (r: TranscriptFile)
        ensures
            r@ == self@,
    {
        TranscriptFile {
            path: self.path.copied(),
            session: self.session.clone(),
            source: self.source.copied(),
            consumed: self.consumed,
        }
    }

    /// The path of what is noted beside it; only a subagent has such a note.
    pub fn meta_path(&self) -> (r: Option<FilePath>)
        ensures
            match r {
                Some(p) => Some(p@),
                None => None,
            } == if self.source@ is Subagent {
                Some(meta_path(self.path@))
            } else {
                None
            },
    {
        match self.source {
            TranscriptSource::Subagent { .. } => Some(meta_path_for(&self.path)),
            _ => None,
        }
    }

    /// Where its kind stands.
    pub fn rank(&self) -> (r: u8)
        ensures
            r == source_rank(self.source@),
    {
        match self.source {
            TranscriptSource::Main => 0,
            TranscriptSource::Subagent { .. } => 1,
            TranscriptSource::WorkflowJournal { .. } => 2,
        }
    }
}

/// Puts an event down to the session of the file that its record stands in, where
/// the record names none.
pub fn attribute_to_file(event: &mut Event, file: &TranscriptFile)
    ensures
        final(event)@ == (Happening {
            session: match old(event)@.session {
                Some(s) => Some(s),
                None => Some(file.session@),
            },
            ..old(event)@
        }),
{
    if event.meta.session.is_none() {
        event.meta.session = Some(file.session.clone());
    }
}

/// The order in which a session's files are read: by kind, then by path.
pub open spec fn read_before(a: Transcript, b: Transcript) -> bool {
    source_rank(a.source) < source_rank(b.source) || (source_rank(a.source) == source_rank(b.source)
        && path_lt(a.path, b.path))
}

impl Ranked for TranscriptFile {
    open spec fn ahead(self, other: Self) -> bool {
        read_before(self@, other@)
    }

    proof fn ahead_one_way(a: Self, b: Self) {
        if b.ahead(a) {
            path_lt_transitive(a.path@, b.path@, a.path@);
            path_lt_irreflexive(a.path@);
        }
    }

    proof fn behind_carries(a: Self, b: Self, c: Self) {
        if a.ahead(c) && source_rank(a.source@) == source_rank(c.source@) {
            path_lt_total(a.path@, b.path@);
            path_lt_total(b.path@, c.path@);
            if path_lt(b.path@, a.path@) {
                path_lt_transitive(b.path@, a.path@, c.path@);
            }
        }
    }

    fn is_ahead(&self, other: &Self) -> (r: bool) {
        let a: u8 = self.rank();
        let b: u8 = other.rank();
        a < b || (a == b && self.path.less(&other.path))
    }
}

/// Files, as mathematics.
pub open spec fn file_views(v: Seq<TranscriptFile>) -> Seq<Transcript> {
    Seq::new(v.len(), |i: int| v[i]@)
}

/// A file of a session, not yet read.
pub open spec fn unread(path: Seq<Seq<char>>, session: Seq<char>, source: Source) -> Transcript {
    Transcript { path, session, source, consumed: 0 }
}

/// The subagent transcripts and journals among some paths.
pub open spec fn side_files(session: Seq<char>, found: Seq<FilePath>) -> Seq<Transcript>
    decreases found.len(),
{
    if found.len() == 0 {
        seq![]
    } else {
        let before = side_files(session, found.drop_last());
        match source_of(found.last()@) {
            Some(Source::Main) => before,
            Some(s) => before.push(unread(found.last()@, session, s)),
            None => before,
        }
    }
}

/// The path of a session's main transcript.
pub open spec fn main_path(session_dir: Seq<Seq<char>>) -> Seq<Seq<char>> {
    renamed(session_dir, name_of(session_dir)->0 + ".jsonl"@)
}

/// The files of a session: its main transcript where that is there, and what was
/// found below its directory.
pub open spec fn files_of_session(
    session_dir: Seq<Seq<char>>,
    main_exists: bool,
    found: Seq<FilePath>,
) -> Seq<Transcript> {
    match name_of(session_dir) {
        None => seq![],
        Some(session) => {
            let main = if main_exists {
                seq![unread(main_path(session_dir), session, Source::Main)]
            } else {
                seq![]
            };
            main + side_files(session, found)
        },
    }
}

/// The path of a session's main transcript; none where the directory has no name.
pub fn main_transcript(session_dir: &FilePath) -> (r: Option<FilePath>)
    ensures
        match r {
            Some(p) => name_of(session_dir@) is Some && p@ == main_path(session_dir@)
                && p@.len() > 0 && p@.last() == name_of(session_dir@)->0 + ".jsonl"@,
            None => name_of(session_dir@) is None,
        },
{
    match session_dir.file_name() {
        Some(name) => {
            let mut file: String = name.to_owned();
            push_text(&mut file, ".jsonl");
            Some(session_dir.with_file_name(file.as_str()))
        },
        None => None,
    }
}

/// The files of a session in the order they are read, given whether its main
/// transcript is there and the files found below its directory.
pub fn session_files(session_dir: &FilePath, main_exists: bool, found: &Vec<FilePath>) -> (r: Vec<
    TranscriptFile,
>)
    ensures
        in_rank(r@),
        file_views(r@).to_multiset() == files_of_session(
            session_dir@,
            main_exists,
            found@,
        ).to_multiset(),
{
    let session: String = match session_dir.file_name() {
        Some(n) => n.to_owned(),
        None => {
            let none: Vec<TranscriptFile> = Vec::new();
            assert(file_views(none@) =~= seq![]);
            return none;
        },
    };
    let mut out: Vec<TranscriptFile> = Vec::new();
    if main_exists {
        if let Some(path) = main_transcript(session_dir) {
            out.push(
                TranscriptFile {
                    path,
                    session: session.clone(),
                    source: TranscriptSource::Main,
                    consumed: 0,
                },
            );
        }
    }
    let ghost main = file_views(out@);
    let mut i: usize = 0;
    assert(main + side_files(session@, found@.subrange(0, 0)) =~= main);
    while i < found.len()
        invariant
            i <= found.len(),
            file_views(out@) == main + side_files(session@, found@.subrange(0, i as int)),
        decreases found.len() - i,
    {
        let ghost before = out@;
        assert(found@.subrange(0, i + 1).drop_last() =~= found@.subrange(0, i as int));
        match transcript_source(&found[i]) {
            Some(TranscriptSource::Main) => {},
            Some(source) => {
                let f: TranscriptFile = TranscriptFile {
                    path: found[i].copied(),
                    session: session.clone(),
                    source,
                    consumed: 0,
                };
                out.push(f);
                assert(file_views(out@) =~= file_views(before).push(f@));
                assert(file_views(out@) =~= main + side_files(
                    session@,
                    found@.subrange(0, i + 1),
                ));
            },
            None => {},
        }
        i = i + 1;
    }
    proof {
        assert(found@.subrange(0, i as int) =~= found@);
        assert(file_views(out@) =~= files_of_session(session_dir@, main_exists, found@));
    }
    let ghost unsorted = out@;
    let sorted: Vec<TranscriptFile> = ranked(out);
    proof {
        same_views(sorted@, unsorted, |f: TranscriptFile| f@);
        assert(file_views(sorted@) =~= sorted@.map_values(|f: TranscriptFile| f@));
        assert(file_views(unsorted) =~= unsorted.map_values(|f: TranscriptFile| f@));
    }
    sorted
}

/// Who started an agent.
#[derive(Debug, PartialEq, Eq)]
pub enum ParentLink {
    /// The main agent.
    Main,
    /// Another agent.
    Worker(WorkerId),
    /// A workflow.
    Workflow {
        /// The run.
        run: String,
    },
    /// Nobody that is known.
    Unattributed,
}

/// Who started an agent, as mathematics.
pub ghost enum Parent {
    Main,
    Worker(Seq<char>),
    Workflow(Seq<char>),
    Unattributed,
}

impl ParentLink {
    /// Who it is.
    pub open spec fn view(self) -> Parent {
        match self {
            ParentLink::Main => Parent::Main,
            ParentLink::Worker(w) => Parent::Worker(w@),
            ParentLink::Workflow { run } => Parent::Workflow(run@),
            ParentLink::Unattributed => Parent::Unattributed,
        }
    }
}

/// Who started an agent: whoever made the tool call that its note names; else the
/// agent that its note names; else the workflow that its path lies in; else the
/// main agent, where there is a note at all.
pub open spec fn parent_of(
    path: Seq<Seq<char>>,
    meta: Option<AgentMeta>,
    index: ToolUseIndex,
) -> Parent {
    let by_path = match run_of(path) {
        Some(run) => Parent::Workflow(run),
        None => if meta is Some {
            Parent::Main
        } else {
            Parent::Unattributed
        },
    };
    match meta {
        Some(m) => {
            let by_name = match opt_text(m.parent_agent_id) {
                Some(parent) => Parent::Worker(parent),
                None => by_path,
            };
            match opt_text(m.tool_use_id) {
                Some(id) => if index@.sites.dom().contains(id) {
                    match index@.sites[id].agent {
                        Some(agent) => Parent::Worker(agent),
                        None => Parent::Main,
                    }
                } else {
                    by_name
                },
                None => by_name,
            }
        },
        None => by_path,
    }
}

/// Who started an agent, given what is noted beside its transcript.
pub fn resolve_parent_link(
    transcript_or_meta: &FilePath,
    meta: &Option<AgentMeta>,
    index: &ToolUseIndex,
) -> (r: ParentLink)
    requires
        index.wf(),
    ensures
        r@ == parent_of(transcript_or_meta@, *meta, *index),
        meta is None ==> r is Workflow || r is Unattributed,
        meta is Some ==> !(r is Unattributed),
        match *meta {
            Some(m) => match m.tool_use_id {
                Some(id) => index@.sites.dom().contains(id@) ==> match index@.sites[id@].agent {
                    Some(agent) => r matches ParentLink::Worker(w) && w@ == agent,
                    None => r is Main,
                },
                None => true,
            },
            None => true,
        },
        match *meta {
            Some(m) => match m.parent_agent_id {
                Some(parent) => (match m.tool_use_id {
                    Some(id) => !index@.sites.dom().contains(id@),
                    None => true,
                }) ==> (r matches ParentLink::Worker(w) && w@ == parent@),
                None => true,
            },
            None => true,
        },
        (match *meta {
            Some(m) => m.parent_agent_id is None && (match m.tool_use_id {
                Some(id) => !index@.sites.dom().contains(id@),
                None => true,
            }),
            None => true,
        }) ==> match run_of(transcript_or_meta@) {
            Some(run) => r matches ParentLink::Workflow { run: named } && named@ == run,
            None => if meta is Some {
                r is Main
            } else {
                r is Unattributed
            },
        },
{
    if let Some(m) = meta {
        if let Some(id) = &m.tool_use_id {
            if let Some(site) = index.site(id.as_str()) {
                return match &site.agent {
                    Some(agent) => ParentLink::Worker(agent.clone()),
                    None => ParentLink::Main,
                };
            }
        }
        if let Some(parent) = &m.parent_agent_id {
            return ParentLink::Worker(parent.clone());
        }
    }
    match workflow_run_of(transcript_or_meta) {
        Some(run) => ParentLink::Workflow { run },
        None => if meta.is_some() {
            ParentLink::Main
        } else {
            ParentLink::Unattributed
        },
    }
}

/// The agent that started an agent, where another agent did.
pub fn resolve_parent(
    meta_json: &FilePath,
    meta: &Option<AgentMeta>,
    session_index: &ToolUseIndex,
) -> (r: Option<WorkerId>)
    requires
        session_index.wf(),
    ensures
        opt_text(r) == match parent_of(meta_json@, *meta, *session_index) {
            Parent::Worker(w) => Some(w),
            _ => None,
        },
        meta is None ==> r is None,
        match *meta {
            Some(m) => match m.tool_use_id {
                Some(id) => if session_index@.sites.dom().contains(id@) {
                    match r {
                        Some(w) => session_index@.sites[id@].agent == Some(w@),
                        None => session_index@.sites[id@].agent is None,
                    }
                } else {
                    opt_text(r) == opt_text(m.parent_agent_id)
                },
                None => opt_text(r) == opt_text(m.parent_agent_id),
            },
            None => true,
        },
{
    match resolve_parent_link(meta_json, meta, session_index) {
        ParentLink::Worker(w) => Some(w),
        _ => None,
    }
}

proof fn run_in_is(p: Seq<Seq<char>>)
    ensures
        match run_in(p) {
            Some(run) => exists|i: int|
                0 <= i < p.len() && #[trigger] p[i] == "wf_"@ + run && (forall|j: int|
                    i < j < p.len() ==> !(#[trigger] p[j].len() >= 3 && p[j].take(3) == "wf_"@)),
            None => forall|j: int|
                0 <= j < p.len() ==> !(#[trigger] p[j].len() >= 3 && p[j].take(3) == "wf_"@),
        },
    decreases p.len(),
{
    reveal_strlit("wf_");
    reveal_strlit("/");
    reveal_strlit(".");
    reveal_strlit("..");
    if p.len() > 0 {
        let rest = p.drop_last();
        let last = p.len() - 1;
        run_in_is(rest);
        if p[last].len() >= 3 && p[last].take(3) == "wf_"@ {
            assert(name_of(p) == Some(p[last]));
            assert(p[last] =~= "wf_"@ + p[last].skip(3));
        } else {
            assert forall|j: int| 0 <= j < rest.len() implies rest[j] == #[trigger] p[j] by {}
            if let Some(run) = run_in(p) {
                let i = choose|i: int|
                    0 <= i < rest.len() && #[trigger] rest[i] == "wf_"@ + run && (forall|j: int|
                        i < j < rest.len() ==> !(#[trigger] rest[j].len() >= 3 && rest[j].take(3)
                            == "wf_"@));
                assert(p[i] == "wf_"@ + run);
                assert forall|j: int| i < j < p.len() implies !(#[trigger] p[j].len() >= 3
                    && p[j].take(3) == "wf_"@) by {
                    if j < last {
                        assert(rest[j] == p[j]);
                    }
                }
            }
        }
    }
}

/// The workflow run that a path lies in is named by the innermost directory above it that
/// starts with `wf_`; without one it lies in none. The path's own name says nothing.
pub proof fn a_run_is_the_nearest_directory_named_after_one(p: Seq<Seq<char>>)
    ensures
        match run_of(p) {
            Some(run) => exists|i: int|
                0 <= i < p.len() - 1 && #[trigger] p[i] == "wf_"@ + run && (forall|j: int|
                    i < j < p.len() - 1 ==> !(#[trigger] p[j].len() >= 3 && p[j].take(3)
                        == "wf_"@)),
            None => forall|j: int|
                0 <= j < p.len() - 1 ==> !(#[trigger] p[j].len() >= 3 && p[j].take(3) == "wf_"@),
        },
{
    if p.len() > 0 {
        let above = p.drop_last();
        run_in_is(above);
        assert forall|j: int| 0 <= j < above.len() implies above[j] == #[trigger] p[j] by {}
        if let Some(run) = run_of(p) {
            let i = choose|i: int|
                0 <= i < above.len() && #[trigger] above[i] == "wf_"@ + run && (forall|j: int|
                    i < j < above.len() ==> !(#[trigger] above[j].len() >= 3 && above[j].take(3)
                        == "wf_"@));
            assert(p[i] == "wf_"@ + run);
            assert forall|j: int| i < j < p.len() - 1 implies !(#[trigger] p[j].len() >= 3
                && p[j].take(3) == "wf_"@) by {
                assert(above[j] == p[j]);
            }
        }
    }
}

/// `agent-<id>.jsonl` is the transcript of the agent, of the workflow run that it lies in if
/// it lies in one.
pub proof fn agent_transcripts_name_their_agent(dir: Seq<Seq<char>>, agent: Seq<char>)
    ensures
        source_of(dir.push("agent-"@ + agent + ".jsonl"@)) == Some(
            Source::Subagent(agent, run_of(dir.push("agent-"@ + agent + ".jsonl"@))),
        ),
{
    reveal_strlit("agent-");
    reveal_strlit(".jsonl");
    reveal_strlit("jsonl");
    reveal_strlit("journal.jsonl");
    reveal_strlit("/");
    reveal_strlit(".");
    reveal_strlit("..");
    let name = "agent-"@ + agent + ".jsonl"@;
    let p = dir.push(name);
    assert(name[0] == 'a' && name.len() >= 12);
    assert("/"@.len() == 1 && "."@.len() == 1 && ".."@.len() == 2);
    assert(name_of(p) == Some(name));
    let stem = "agent-"@ + agent;
    assert(name =~= stem + seq!['.'] + "jsonl"@);
    assert(!"jsonl"@.contains('.'));
    crate::path::a_name_is_its_stem_and_its_extension(p, stem, "jsonl"@);
    assert(name[1] == 'g' && "journal.jsonl"@[1] == 'o');
    assert(name.take(6) =~= "agent-"@);
    let rest = name.skip(6);
    assert(rest =~= agent + ".jsonl"@);
    assert(rest.skip(rest.len() - 6) =~= ".jsonl"@);
    assert(rest.take(rest.len() - 6) =~= agent);
}

/// `journal.jsonl` is the journal of the workflow run that it lies in, and nothing where it
/// lies in none.
pub proof fn journals_belong_to_their_run(dir: Seq<Seq<char>>)
    ensures
        source_of(dir.push("journal.jsonl"@)) == match run_of(dir.push("journal.jsonl"@)) {
            Some(run) => Some(Source::Journal(run)),
            None => None,
        },
{
    reveal_strlit("journal.jsonl");
    reveal_strlit("jsonl");
    reveal_strlit("journal");
    reveal_strlit("/");
    reveal_strlit(".");
    reveal_strlit("..");
    let name = "journal.jsonl"@;
    let p = dir.push(name);
    assert("/"@.len() == 1 && "."@.len() == 1 && ".."@.len() == 2);
    assert(name_of(p) == Some(name));
    assert(name =~= "journal"@ + seq!['.'] + "jsonl"@);
    assert(!"jsonl"@.contains('.'));
    crate::path::a_name_is_its_stem_and_its_extension(p, "journal"@, "jsonl"@);
}

/// Any other file whose extension is `jsonl` is a main transcript, and a file with another
/// extension or none is no transcript.
pub proof fn other_transcripts_are_main(p: Seq<Seq<char>>)
    ensures
        source_of(p) is Some ==> extension_of(p) == Some("jsonl"@),
        extension_of(p) == Some("jsonl"@) && name_of(p)->0 != "journal.jsonl"@ && !(exists|
            agent: Seq<char>,
        | name_of(p)->0 == #[trigger] ("agent-"@ + agent + ".jsonl"@)) ==> source_of(p) == Some(
            Source::Main,
        ),
{
    reveal_strlit("agent-");
    reveal_strlit(".jsonl");
    if extension_of(p) == Some("jsonl"@) {
        let name = name_of(p)->0;
        if let Some(agent) = agent_in(name) {
            let rest = name.skip(6);
            assert(rest =~= agent + ".jsonl"@) by {
                assert(rest.take(rest.len() - 6) == agent);
                assert(rest.skip(rest.len() - 6) == ".jsonl"@);
            }
            assert(name =~= "agent-"@ + agent + ".jsonl"@) by {
                assert(name.take(6) == "agent-"@);
                assert(name =~= name.take(6) + rest);
            }
        }
    }
}

/// The note on an agent lies beside its transcript, and what is noted on a note is the note.
pub proof fn notes_lie_beside_their_transcripts(dir: Seq<Seq<char>>, stem: Seq<char>)
    requires
        stem.len() > 0,
    ensures
        meta_path(dir.push(stem + ".jsonl"@)) == dir.push(stem + ".meta.json"@),
        meta_path(dir.push(stem + ".meta.json"@)) == dir.push(stem + ".meta.json"@),
{
    reveal_strlit(".jsonl");
    reveal_strlit(".meta.json");
    reveal_strlit("/");
    reveal_strlit(".");
    reveal_strlit("..");
    assert("/"@.len() == 1 && "."@.len() == 1 && ".."@.len() == 2);
    let a = stem + ".jsonl"@;
    let b = stem + ".meta.json"@;
    assert(a.skip(a.len() - 6) =~= ".jsonl"@);
    assert(a.take(a.len() - 6) =~= stem);
    assert(b.skip(b.len() - 10) =~= ".meta.json"@);
    assert(without_suffix(a, ".meta.json"@) is None) by {
        assert(a[a.len() - 1] == 'l');
        if a.len() >= 10 {
            assert(a.skip(a.len() - 10)[9] == 'l');
            assert(".meta.json"@[9] == 'n');
        }
    }
    assert(dir.push(a).drop_last() =~= dir);
}

proof fn side_files_are(session: Seq<char>, found: Seq<FilePath>)
    ensures
        side_files(session, found).len() == found.filter(
            |p: FilePath| source_of(p@) is Some && source_of(p@) != Some(Source::Main),
        ).len(),
        forall|i: int|
            0 <= i < side_files(session, found).len() ==> {
                let f = #[trigger] side_files(session, found)[i];
                let p = found.filter(
                    |p: FilePath| source_of(p@) is Some && source_of(p@) != Some(Source::Main),
                )[i];
                f.path == p@ && Some(f.source) == source_of(p@) && f.session == session
                    && f.consumed == 0
            },
    decreases found.len(),
{
    reveal(Seq::filter);
    if found.len() > 0 {
        side_files_are(session, found.drop_last());
    }
}

/// The files beside a session's main transcript are the agents' transcripts and journals
/// found, each once for each time it was found, of the session, and unread.
pub proof fn a_sessions_side_files_are_those_found(session: Seq<char>, found: Seq<FilePath>)
    ensures
        ({
            let of_agents = found.filter(
                |p: FilePath| source_of(p@) is Some && source_of(p@) != Some(Source::Main),
            );
            let all = side_files(session, found);
            &&& all.len() == of_agents.len()
            &&& forall|i: int|
                0 <= i < all.len() ==> (#[trigger] all[i]).path == of_agents[i]@ && Some(
                    all[i].source,
                ) == source_of(of_agents[i]@) && all[i].session == session && all[i].consumed == 0
        }),
{
    side_files_are(session, found);
}

/// A session's files are its main transcript, where that is there, beside the directory with
/// its name, and those found below the directory; without a name there are none.
pub proof fn a_sessions_files_are_its_own(
    dir: Seq<Seq<char>>,
    session: Seq<char>,
    main_exists: bool,
    found: Seq<FilePath>,
)
    requires
        session != "/"@,
        session != "."@,
        session != ".."@,
    ensures
        ({
            let files = files_of_session(dir.push(session), main_exists, found);
            let side = side_files(session, found);
            &&& files.len() == side.len() + if main_exists {
                1int
            } else {
                0int
            }
            &&& main_exists ==> files[0].path == dir.push(session + ".jsonl"@) && files[0].session
                == session && files[0].source == Source::Main && files[0].consumed == 0
            &&& files.skip(files.len() - side.len()) == side
        }),
        files_of_session(Seq::empty(), main_exists, found).len() == 0,
{
    let at = dir.push(session);
    assert(name_of(at) == Some(session));
    assert(at.drop_last() =~= dir);
    let files = files_of_session(at, main_exists, found);
    let side = side_files(session, found);
    assert(files.skip(files.len() - side.len()) =~= side);
}

/// A session's main transcript is read first, then its agents' transcripts, then journals,
/// and of one kind in order of their paths.
pub proof fn main_transcripts_are_read_first(a: Transcript, b: Transcript)
    ensures
        a.source is Main && !(b.source is Main) ==> read_before(a, b) && !read_before(b, a),
        a.source is Subagent && b.source is Journal ==> read_before(a, b) && !read_before(b, a),
        (a.source is Main <==> b.source is Main) && (a.source is Subagent <==> b.source is Subagent)
            ==> (read_before(a, b) <==> path_lt(a.path, b.path)),
{
}

/// An agent whose note names a call that a record of the main transcript made, and the record
/// names no agent, was started by the main agent; a call of a record in another agent's
/// transcript was that agent's.
pub proof fn a_call_in_the_main_transcript_is_the_main_agents(
    path: Seq<Seq<char>>,
    meta: Option<AgentMeta>,
    before: crate::index::Calls,
    f: crate::index::Facts,
    file: Transcript,
    offset: int,
    i: int,
    index: ToolUseIndex,
)
    requires
        index@ == before.with_record(f, file, offset),
        0 <= i < f.blocks.len(),
        f.blocks[i].kind == Some("tool_use"@),
        forall|j: int|
            i < j < f.blocks.len() && (#[trigger] f.blocks[j]).kind == Some("tool_use"@)
                ==> f.blocks[j].id != f.blocks[i].id,
        meta matches Some(m) && m.tool_use_id matches Some(id) && f.blocks[i].id == Some(id@),
    ensures
        f.agent is None && file.source is Main ==> parent_of(path, meta, index) == Parent::Main,
        f.agent matches Some(agent) ==> parent_of(path, meta, index) == Parent::Worker(agent),
        f.agent is None ==> (file.source matches Source::Subagent(agent, _) ==> parent_of(
            path,
            meta,
            index,
        ) == Parent::Worker(agent)),
{
    crate::index::every_call_is_found_where_it_was_made(before, f, file, offset, i);
}

/// A transcript file is shown as its path, its session, its source and how far it was
/// read, and a list of them file by file.
pub proof fn files_are_shown_whole(v: Seq<TranscriptFile>)
    ensures
        file_views(v).len() == v.len(),
        forall|i: int|
            0 <= i < v.len() ==> {
                let t = #[trigger] file_views(v)[i];
                &&& t.path == v[i].path@
                &&& t.session == v[i].session@
                &&& t.source == v[i].source@
                &&& t.consumed == v[i].consumed
            },
{
}

/// A link to who started an agent is shown as what it is.
pub proof fn parents_are_shown_as_they_are(p: ParentLink)
    ensures
        p is Main <==> p@ == Parent::Main,
        p is Unattributed <==> p@ == Parent::Unattributed,
        p matches ParentLink::Worker(w) ==> p@ == Parent::Worker(w@),
        p matches ParentLink::Workflow { run } ==> p@ == Parent::Workflow(run@),
{
}

/// An agent without a note, outside any workflow run, is nobody's; with a note it is the
/// main agent's there, unless the note says otherwise. In a run it is the run's. An
/// agent that the note names comes before both, and a known call that it names before
/// all: that call's agent, or the main agent where the call has none.
pub proof fn who_started_an_agent(
    path: Seq<Seq<char>>,
    meta: Option<AgentMeta>,
    index: ToolUseIndex,
)
    ensures
        ({
            let parent = parent_of(path, meta, index);
            let run = run_of(path);
            match meta {
                None => {
                    &&& run is None ==> parent == Parent::Unattributed
                    &&& run is Some ==> parent == Parent::Workflow(run->0)
                },
                Some(m) => if m.tool_use_id is Some && index@.sites.contains_key(
                    m.tool_use_id->0@,
                ) {
                    let agent = index@.sites[m.tool_use_id->0@].agent;
                    &&& agent is Some ==> parent == Parent::Worker(agent->0)
                    &&& agent is None ==> parent == Parent::Main
                } else {
                    &&& m.parent_agent_id is Some ==> parent == Parent::Worker(
                        m.parent_agent_id->0@,
                    )
                    &&& m.parent_agent_id is None && run is Some ==> parent == Parent::Workflow(
                        run->0,
                    )
                    &&& m.parent_agent_id is None && run is None ==> parent == Parent::Main
                },
            }
        }),
        meta is Some ==> parent_of(path, meta, index) != Parent::Unattributed,
{
}

} // verus!
