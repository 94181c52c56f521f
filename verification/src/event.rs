//! Events: what the reading of transcripts hands on.
use vstd::prelude::*;

use crate::json::{opt_text, Json, Tree};
use crate::record::TranscriptRecordKind;

verus! {

/// A session's id.
pub type SessionId = String;

/// A thread's id.
pub type ThreadId = String;

/// An agent's id.
pub type WorkerId = String;

/// A kind of agent.
pub type AgentType = String;

/// A prompt's id.
pub type PromptId = String;

/// A tool call's id.
pub type ToolUseId = String;

/// Where events come from.
#[derive(Debug, Clone, Copy, PartialEq, Eq, Structural)]
pub enum Channel {
    /// The transcript files.
    Transcript,
}

/// Which kind of transcript a record stands in.
#[derive(Debug, PartialEq, Eq)]
pub enum TranscriptSource {
    /// The session's main transcript.
    Main,
    /// A subagent's transcript.
    Subagent {
        /// The subagent.
        agent: WorkerId,
        /// The workflow run it belongs to, if any.
        workflow_run: Option<String>,
    },
    /// A workflow's journal.
    WorkflowJournal {
        /// The workflow run.
        run: String,
    },
}

/// Which kind of transcript, as mathematics.
pub ghost enum Source {
    Main,
    Subagent(Seq<char>, Option<Seq<char>>),
    Journal(Seq<char>),
}

impl TranscriptSource {
    /// Which kind of transcript.
    pub open spec fn view(self) -> Source {
        match self {
            TranscriptSource::Main => Source::Main,
            TranscriptSource::Subagent { agent, workflow_run } => Source::Subagent(
                agent@,
                opt_text(workflow_run),
            ),
            TranscriptSource::WorkflowJournal { run } => Source::Journal(run@),
        }
    }

    /// An equal source.
    pub fn copied(&self) -> (r: TranscriptSource)
        ensures
            r@ == self@,
    {
        match self {
            TranscriptSource::Main => TranscriptSource::Main,
            TranscriptSource::Subagent { agent, workflow_run } => TranscriptSource::Subagent {
                agent: agent.clone(),
                workflow_run: copied_text(workflow_run),
            },
            TranscriptSource::WorkflowJournal { run } => TranscriptSource::WorkflowJournal {
                run: run.clone(),
            },
        }
    }
}

/// An equal optional text.
pub fn copied_text(s: &Option<String>) -> (r: Option<String>)
    ensures
        r == *s,
{
    match s {
        Some(v) => Some(v.clone()),
        None => None,
    }
}

/// An owned copy of a borrowed text.
pub fn owned_text(s: Option<&str>) -> (r: Option<String>)
    ensures
        opt_text(r) == crate::json::opt_str(s),
{
    match s {
        Some(v) => Some(v.to_owned()),
        None => None,
    }
}

/// Who and when: what an event says about itself.
#[derive(Debug)]
pub struct EventMeta {
    /// Where it came from.
    pub channel: Channel,
    /// The session, if known.
    pub session: Option<SessionId>,
    /// The thread of work: the session that the record itself names.
    pub thread: Option<ThreadId>,
    /// The agent, if it is not the main one.
    pub worker: Option<WorkerId>,
    /// The kind of agent.
    pub agent_type: Option<AgentType>,
    /// The prompt.
    pub prompt: Option<PromptId>,
    /// When it was observed, in nanoseconds of the process's own clock.
    pub observed: i64,
}

impl EventMeta {
    /// Is the event put down to an agent other than the main one?
    pub fn is_worker(&self) -> (r: bool)
        ensures
            r == (self.worker is Some),
    {
        self.worker.is_some()
    }
}

/// A transcript record, as handed on.
#[derive(Debug)]
pub struct TranscriptEvent {
    /// Its kind.
    pub kind: TranscriptRecordKind,
    /// The transcript it stands in.
    pub source: TranscriptSource,
    /// Where in that transcript it begins.
    pub byte_offset: u64,
    /// The record itself, scrubbed and shortened.
    pub record: Json,
}

/// News about the reading itself.
#[derive(Debug)]
pub enum ControlEvent {
    /// The transcripts do not look as expected.
    SchemaDrift {
        /// Where it was seen.
        channel: Channel,
        /// The producer's version, if known.
        producer_version: Option<String>,
        /// What was seen.
        detail: String,
    },
}

/// What an event carries.
#[derive(Debug)]
pub enum Payload {
    /// A transcript record.
    Transcript(Box<TranscriptEvent>),
    /// News about the reading itself.
    Control(ControlEvent),
}

/// One event.
#[derive(Debug)]
pub struct Event {
    /// Who and when.
    pub meta: EventMeta,
    /// What.
    pub payload: Payload,
}

/// What an event carries, as mathematics.
pub ghost enum Cargo {
    Record(TranscriptRecordKind, Source, int, Tree),
    Drift(Channel, Option<Seq<char>>, Seq<char>),
}

/// An event, as mathematics.
pub ghost struct Happening {
    pub session: Option<Seq<char>>,
    pub thread: Option<Seq<char>>,
    pub worker: Option<Seq<char>>,
    pub agent_type: Option<Seq<char>>,
    pub prompt: Option<Seq<char>>,
    pub observed: int,
    pub channel: Channel,
    pub cargo: Cargo,
}

impl Event {
    /// The event.
    pub open spec fn view(self) -> Happening {
        Happening {
            session: opt_text(self.meta.session),
            thread: opt_text(self.meta.thread),
            worker: opt_text(self.meta.worker),
            agent_type: opt_text(self.meta.agent_type),
            prompt: opt_text(self.meta.prompt),
            observed: self.meta.observed as int,
            channel: self.meta.channel,
            cargo: match self.payload {
                Payload::Transcript(t) => Cargo::Record(
                    t.kind,
                    t.source@,
                    t.byte_offset as int,
                    t.record.tree(),
                ),
                Payload::Control(ControlEvent::SchemaDrift { channel, producer_version, detail }) =>
                    Cargo::Drift(channel, opt_text(producer_version), detail@),
            },
        }
    }

    /// News that the transcripts do not look as expected.
    pub fn drift(producer_version: Option<String>, detail: String, observed: i64) -> (r: Event)
        ensures
            r@ == drift_at(opt_text(producer_version), detail@, observed as int),
            r.meta.channel == Channel::Transcript,
            r.meta.session is None && r.meta.thread is None && r.meta.worker is None,
            r.meta.agent_type is None && r.meta.prompt is None,
            r.meta.observed == observed,
            r.payload == Payload::Control(
                ControlEvent::SchemaDrift { channel: Channel::Transcript, producer_version, detail },
            ),
    {
        Event {
            meta: EventMeta {
                channel: Channel::Transcript,
                session: None,
                thread: None,
                worker: None,
                agent_type: None,
                prompt: None,
                observed,
            },
            payload: Payload::Control(
                ControlEvent::SchemaDrift { channel: Channel::Transcript, producer_version, detail },
            ),
        }
    }
}

/// News that the transcripts do not look as expected.
pub open spec fn drift_at(
    version: Option<Seq<char>>,
    detail: Seq<char>,
    observed: int,
) -> Happening {
    Happening {
        session: None,
        thread: None,
        worker: None,
        agent_type: None,
        prompt: None,
        observed,
        channel: Channel::Transcript,
        cargo: Cargo::Drift(Channel::Transcript, version, detail),
    }
}

/// The events of a list.
pub open spec fn happenings(events: Seq<Event>) -> Seq<Happening> {
    Seq::new(events.len(), |i: int| events[i]@)
}

/// One more event is one more happening.
pub broadcast proof fn happenings_push(events: Seq<Event>, e: Event)
    ensures
        #[trigger] happenings(events.push(e)) == happenings(events).push(e@),
{
    assert(happenings(events.push(e)) =~= happenings(events).push(e@));
}

/// An event shows each thing that it says of itself under its own name, and what it
/// carries.
pub proof fn an_event_shows_what_it_carries(e: Event)
    ensures
        match e.meta.session {
            Some(s) => e@.session == Some(s@),
            None => e@.session is None,
        },
        match e.meta.thread {
            Some(s) => e@.thread == Some(s@),
            None => e@.thread is None,
        },
        match e.meta.worker {
            Some(s) => e@.worker == Some(s@),
            None => e@.worker is None,
        },
        match e.meta.agent_type {
            Some(s) => e@.agent_type == Some(s@),
            None => e@.agent_type is None,
        },
        match e.meta.prompt {
            Some(s) => e@.prompt == Some(s@),
            None => e@.prompt is None,
        },
        e@.observed == e.meta.observed,
        e@.channel == e.meta.channel,
        e.payload matches Payload::Transcript(t) ==> e@.cargo == Cargo::Record(
            t.kind,
            t.source@,
            t.byte_offset as int,
            t.record.tree(),
        ),
        e.payload matches Payload::Control(ControlEvent::SchemaDrift {
            channel,
            producer_version,
            detail,
        }) ==> e@.cargo == Cargo::Drift(channel, opt_text(producer_version), detail@),
{
}

/// A transcript's source shows the agent or the run that it names.
pub proof fn a_source_shows_whose_it_is(s: TranscriptSource)
    ensures
        s is Main <==> s@ == Source::Main,
        s matches TranscriptSource::Subagent { agent, workflow_run } ==> s@ == Source::Subagent(
            agent@,
            match workflow_run {
                Some(run) => Some(run@),
                None => None,
            },
        ),
        s matches TranscriptSource::WorkflowJournal { run } ==> s@ == Source::Journal(run@),
{
}

/// News of drift belongs to no session, worker or prompt, and says what it was given.
pub proof fn drift_is_nobodys(version: Option<Seq<char>>, detail: Seq<char>, observed: int)
    ensures
        ({
            let d = drift_at(version, detail, observed);
            &&& d.session is None && d.thread is None && d.worker is None && d.agent_type is None
                && d.prompt is None
            &&& d.observed == observed && d.channel == Channel::Transcript
            &&& d.cargo == Cargo::Drift(Channel::Transcript, version, detail)
        }),
{
}

/// A list of events is shown event by event.
pub proof fn events_are_shown_one_by_one(v: Seq<Event>)
    ensures
        happenings(v).len() == v.len(),
        forall|i: int| 0 <= i < v.len() ==> #[trigger] happenings(v)[i] == v[i]@,
{
}

} // verus!
