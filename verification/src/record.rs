//! Transcript records: the shapes a line can take, and how a JSON object becomes
//! one.
//!
//! Every member is optional. A member that is missing or `null` is absent; a
//! member of the wrong type makes the whole record fail to fit. A shape that
//! keeps the rest holds, in order, the members that none of its names claims.
use vstd::prelude::*;

use crate::json::{
    any_at, count_at, field, find_member, flag_at, kept_by, members, members_push, number_at, opt_number,
    opt_str, opt_text, opt_tree, read_any, read_count, read_flag, read_number, read_signed,
    read_text, signed_at, slot_tree, text_at, tree_of_array, tree_of_object,
    trees, Json, Members, Number, Tree,
};
use crate::json::{count_fits, flag_fits, number_fits, signed_fits, text_fits};
use crate::text::same_text;

verus! {

/// What kind of record a line is.
#[derive(Debug, Clone, Copy, PartialEq, Eq, Structural)]
pub enum TranscriptRecordKind {
    /// A message from the operator or a tool result.
    User,
    /// A message from the model.
    Assistant,
    /// An attachment.
    Attachment,
    /// A system notice.
    System,
    /// The session's mode.
    Mode,
    /// The last prompt.
    LastPrompt,
    /// A bridged session.
    BridgeSession,
    /// The permission mode.
    PermissionMode,
    /// A title that the model chose.
    AiTitle,
    /// A title that the operator chose.
    CustomTitle,
    /// An agent's name.
    AgentName,
    /// An operation on the prompt queue.
    QueueOperation,
    /// A change of the file history.
    FileHistoryDelta,
    /// A state of the file history.
    FileHistorySnapshot,
    /// A workflow step that started.
    Started,
    /// A workflow step that ended.
    Result,
    /// An atis latch.
    AtisLatch,
    /// A link to a frame.
    FrameLink,
    /// What the session has cost.
    CostState,
    /// A type that no shape models.
    Unknown,
}

/// The kind that a `type` tag names.
pub open spec fn kind_of_tag(tag: Seq<char>) -> TranscriptRecordKind {
    if tag == "user"@ {
        TranscriptRecordKind::User
    } else if tag == "assistant"@ {
        TranscriptRecordKind::Assistant
    } else if tag == "attachment"@ {
        TranscriptRecordKind::Attachment
    } else if tag == "system"@ {
        TranscriptRecordKind::System
    } else if tag == "mode"@ {
        TranscriptRecordKind::Mode
    } else if tag == "last-prompt"@ {
        TranscriptRecordKind::LastPrompt
    } else if tag == "bridge-session"@ {
        TranscriptRecordKind::BridgeSession
    } else if tag == "permission-mode"@ {
        TranscriptRecordKind::PermissionMode
    } else if tag == "ai-title"@ {
        TranscriptRecordKind::AiTitle
    } else if tag == "custom-title"@ {
        TranscriptRecordKind::CustomTitle
    } else if tag == "agent-name"@ {
        TranscriptRecordKind::AgentName
    } else if tag == "queue-operation"@ {
        TranscriptRecordKind::QueueOperation
    } else if tag == "file-history-delta"@ {
        TranscriptRecordKind::FileHistoryDelta
    } else if tag == "file-history-snapshot"@ {
        TranscriptRecordKind::FileHistorySnapshot
    } else if tag == "started"@ {
        TranscriptRecordKind::Started
    } else if tag == "result"@ {
        TranscriptRecordKind::Result
    } else if tag == "atis-latch"@ {
        TranscriptRecordKind::AtisLatch
    } else if tag == "frame-link"@ {
        TranscriptRecordKind::FrameLink
    } else if tag == "cost-state"@ {
        TranscriptRecordKind::CostState
    } else {
        TranscriptRecordKind::Unknown
    }
}

/// The kind that a `type` tag names.
pub fn record_kind(raw_type: &str) -> (r: TranscriptRecordKind)
    ensures
        r == kind_of_tag(raw_type@),
{
    if same_text(raw_type, "user") {
        TranscriptRecordKind::User
    } else if same_text(raw_type, "assistant") {
        TranscriptRecordKind::Assistant
    } else if same_text(raw_type, "attachment") {
        TranscriptRecordKind::Attachment
    } else if same_text(raw_type, "system") {
        TranscriptRecordKind::System
    } else if same_text(raw_type, "mode") {
        TranscriptRecordKind::Mode
    } else if same_text(raw_type, "last-prompt") {
        TranscriptRecordKind::LastPrompt
    } else if same_text(raw_type, "bridge-session") {
        TranscriptRecordKind::BridgeSession
    } else if same_text(raw_type, "permission-mode") {
        TranscriptRecordKind::PermissionMode
    } else if same_text(raw_type, "ai-title") {
        TranscriptRecordKind::AiTitle
    } else if same_text(raw_type, "custom-title") {
        TranscriptRecordKind::CustomTitle
    } else if same_text(raw_type, "agent-name") {
        TranscriptRecordKind::AgentName
    } else if same_text(raw_type, "queue-operation") {
        TranscriptRecordKind::QueueOperation
    } else if same_text(raw_type, "file-history-delta") {
        TranscriptRecordKind::FileHistoryDelta
    } else if same_text(raw_type, "file-history-snapshot") {
        TranscriptRecordKind::FileHistorySnapshot
    } else if same_text(raw_type, "started") {
        TranscriptRecordKind::Started
    } else if same_text(raw_type, "result") {
        TranscriptRecordKind::Result
    } else if same_text(raw_type, "atis-latch") {
        TranscriptRecordKind::AtisLatch
    } else if same_text(raw_type, "frame-link") {
        TranscriptRecordKind::FrameLink
    } else if same_text(raw_type, "cost-state") {
        TranscriptRecordKind::CostState
    } else {
        TranscriptRecordKind::Unknown
    }
}

/// A shape that keeps the members it does not name.
#[derive(Debug, Clone, Copy, PartialEq, Eq, Structural)]
pub enum Shape {
    /// A record of the thread, with its envelope.
    Threaded,
    /// A message.
    Message,
    /// An attachment.
    Attachment,
    /// A record beside the thread.
    Sidecar,
    /// A workflow journal entry.
    Journal,
}

impl Shape {
    /// Is a member of this name one that the shape names?
    pub open spec fn names(self, key: Seq<char>) -> bool {
        match self {
            Shape::Threaded => key == "uuid"@
                || key == "parentUuid"@
                || key == "logicalParentUuid"@
                || key == "isSidechain"@
                || key == "timestamp"@
                || key == "sessionId"@
                || key == "session_id"@
                || key == "cwd"@
                || key == "gitBranch"@
                || key == "version"@
                || key == "userType"@
                || key == "entrypoint"@
                || key == "agentId"@
                || key == "slug"@
                || key == "message"@
                || key == "attachment"@
                || key == "subtype"@
                || key == "toolUseResult"@
                || key == "promptId"@
                || key == "requestId"@
                || key == "sourceToolAssistantUUID"@
                || key == "attributionAgent"@
                || key == "attributionSkill"@
                || key == "isMeta"@
                || key == "durationMs"@
                || key == "messageCount"@
                || key == "compactMetadata"@
                || key == "effort"@
                || key == "isApiErrorMessage"@
                || key == "toolDenialKind"@
                || key == "origin"@,
            Shape::Message => key == "role"@
                || key == "model"@
                || key == "id"@
                || key == "stop_reason"@
                || key == "usage"@
                || key == "content"@,
            Shape::Attachment => key == "type"@,
            Shape::Sidecar => key == "sessionId"@
                || key == "mode"@
                || key == "permissionMode"@
                || key == "aiTitle"@
                || key == "customTitle"@
                || key == "agentName"@
                || key == "atis"@
                || key == "leafUuid"@
                || key == "lastPrompt"@
                || key == "operation"@
                || key == "timestamp"@
                || key == "content"@
                || key == "bridgeSessionId"@
                || key == "lastSequenceNum"@
                || key == "frameUrl"@
                || key == "path"@
                || key == "title"@
                || key == "totalCostUSD"@
                || key == "totalLinesAdded"@
                || key == "totalLinesRemoved"@
                || key == "messageId"@
                || key == "snapshotMessageId"@
                || key == "trackingPath"@
                || key == "snapshot"@
                || key == "backup"@,
            Shape::Journal => key == "key"@
                || key == "agentId"@
                || key == "result"@,
        }
    }

    /// Is a member of this name one that the shape names?
    pub fn names_key(self, key: &str) -> (r: bool)
        ensures
            r == self.names(key@),
    {
        match self {
            Shape::Threaded => same_text(key, "uuid")
                || same_text(key, "parentUuid")
                || same_text(key, "logicalParentUuid")
                || same_text(key, "isSidechain")
                || same_text(key, "timestamp")
                || same_text(key, "sessionId")
                || same_text(key, "session_id")
                || same_text(key, "cwd")
                || same_text(key, "gitBranch")
                || same_text(key, "version")
                || same_text(key, "userType")
                || same_text(key, "entrypoint")
                || same_text(key, "agentId")
                || same_text(key, "slug")
                || same_text(key, "message")
                || same_text(key, "attachment")
                || same_text(key, "subtype")
                || same_text(key, "toolUseResult")
                || same_text(key, "promptId")
                || same_text(key, "requestId")
                || same_text(key, "sourceToolAssistantUUID")
                || same_text(key, "attributionAgent")
                || same_text(key, "attributionSkill")
                || same_text(key, "isMeta")
                || same_text(key, "durationMs")
                || same_text(key, "messageCount")
                || same_text(key, "compactMetadata")
                || same_text(key, "effort")
                || same_text(key, "isApiErrorMessage")
                || same_text(key, "toolDenialKind")
                || same_text(key, "origin"),
            Shape::Message => same_text(key, "role")
                || same_text(key, "model")
                || same_text(key, "id")
                || same_text(key, "stop_reason")
                || same_text(key, "usage")
                || same_text(key, "content"),
            Shape::Attachment => same_text(key, "type"),
            Shape::Sidecar => same_text(key, "sessionId")
                || same_text(key, "mode")
                || same_text(key, "permissionMode")
                || same_text(key, "aiTitle")
                || same_text(key, "customTitle")
                || same_text(key, "agentName")
                || same_text(key, "atis")
                || same_text(key, "leafUuid")
                || same_text(key, "lastPrompt")
                || same_text(key, "operation")
                || same_text(key, "timestamp")
                || same_text(key, "content")
                || same_text(key, "bridgeSessionId")
                || same_text(key, "lastSequenceNum")
                || same_text(key, "frameUrl")
                || same_text(key, "path")
                || same_text(key, "title")
                || same_text(key, "totalCostUSD")
                || same_text(key, "totalLinesAdded")
                || same_text(key, "totalLinesRemoved")
                || same_text(key, "messageId")
                || same_text(key, "snapshotMessageId")
                || same_text(key, "trackingPath")
                || same_text(key, "snapshot")
                || same_text(key, "backup"),
            Shape::Journal => same_text(key, "key")
                || same_text(key, "agentId")
                || same_text(key, "result"),
        }
    }

    /// The members that the shape does not name, in order.
    pub open spec fn rest(self, o: Members) -> Members {
        kept_by(o, |key: Seq<char>| !self.names(key))
    }

    /// The members that the shape does not name, in order.
    fn read_rest(self, o: &Vec<(String, Json)>) -> (r: Vec<(String, Json)>)
        ensures
            members(r@) == self.rest(members(o@)),
    {
        broadcast use members_push;

        let ghost keep = |key: Seq<char>| !self.names(key);
        let mut out: Vec<(String, Json)> = Vec::new();
        let mut i: usize = 0;
        assert(members(out@) =~= kept_by(members(o@).subrange(0, 0), keep));
        while i < o.len()
            invariant
                i <= o.len(),
                keep == (|key: Seq<char>| !self.names(key)),
                members(out@) == kept_by(members(o@).subrange(0, i as int), keep),
            decreases o.len() - i,
        {
            assert(members(o@).subrange(0, i + 1).drop_last() =~= members(o@).subrange(0, i as int));
            if !self.names_key(o[i].0.as_str()) {
                let ghost before = out@;
                let name: String = o[i].0.clone();
                let value: Json = o[i].1.copied();
                out.push((name, value));
                assert(out@ == before.push((name, value)));
            }
            i = i + 1;
        }
        assert(members(o@).subrange(0, i as int) =~= members(o@));
        out
    }
}

/// What every record of the thread carries.
#[derive(Debug)]
pub struct Envelope {
    /// The record's own id.
    pub uuid: Option<String>,
    /// The record before it in the thread.
    pub parent_uuid: Option<String>,
    /// The record before it across a compaction.
    pub logical_parent_uuid: Option<String>,
    /// Is it off the main thread?
    pub is_sidechain: Option<bool>,
    /// When it was written.
    pub timestamp: Option<String>,
    /// The session it belongs to.
    pub session_id: Option<String>,
    /// The session it was carried over from.
    pub ancestor_session_id: Option<String>,
    /// The directory it was written in.
    pub cwd: Option<String>,
    /// The branch checked out.
    pub git_branch: Option<String>,
    /// The producer's version.
    pub version: Option<String>,
    /// The kind of user.
    pub user_type: Option<String>,
    /// How the session was started.
    pub entrypoint: Option<String>,
    /// The agent that wrote it.
    pub agent_id: Option<String>,
    /// The session's slug.
    pub slug: Option<String>,
}

impl Envelope {
    /// Does every member that the envelope names have its type?
    pub open spec fn fits(o: Members) -> bool {
        &&& text_fits(field(o, "uuid"@))
        &&& text_fits(field(o, "parentUuid"@))
        &&& text_fits(field(o, "logicalParentUuid"@))
        &&& flag_fits(field(o, "isSidechain"@))
        &&& text_fits(field(o, "timestamp"@))
        &&& text_fits(field(o, "sessionId"@))
        &&& text_fits(field(o, "session_id"@))
        &&& text_fits(field(o, "cwd"@))
        &&& text_fits(field(o, "gitBranch"@))
        &&& text_fits(field(o, "version"@))
        &&& text_fits(field(o, "userType"@))
        &&& text_fits(field(o, "entrypoint"@))
        &&& text_fits(field(o, "agentId"@))
        &&& text_fits(field(o, "slug"@))
    }

    /// The envelope holds exactly what the members say.
    pub open spec fn holds(self, o: Members) -> bool {
        &&& opt_text(self.uuid) == text_at(field(o, "uuid"@))
        &&& opt_text(self.parent_uuid) == text_at(field(o, "parentUuid"@))
        &&& opt_text(self.logical_parent_uuid) == text_at(field(o, "logicalParentUuid"@))
        &&& self.is_sidechain == flag_at(field(o, "isSidechain"@))
        &&& opt_text(self.timestamp) == text_at(field(o, "timestamp"@))
        &&& opt_text(self.session_id) == text_at(field(o, "sessionId"@))
        &&& opt_text(self.ancestor_session_id) == text_at(field(o, "session_id"@))
        &&& opt_text(self.cwd) == text_at(field(o, "cwd"@))
        &&& opt_text(self.git_branch) == text_at(field(o, "gitBranch"@))
        &&& opt_text(self.version) == text_at(field(o, "version"@))
        &&& opt_text(self.user_type) == text_at(field(o, "userType"@))
        &&& opt_text(self.entrypoint) == text_at(field(o, "entrypoint"@))
        &&& opt_text(self.agent_id) == text_at(field(o, "agentId"@))
        &&& opt_text(self.slug) == text_at(field(o, "slug"@))
    }

    /// Reads the envelope off an object's members.
    pub fn read(o: &Vec<(String, Json)>) -> (r: Result<Envelope, ()>)
        ensures
            r is Ok <==> Envelope::fits(members(o@)),
            r matches Ok(e) ==> e.holds(members(o@)),
            ({
                let x = members(o@);
                r is Ok <==> {
                &&& text_fits(field(x, "uuid"@))
                &&& text_fits(field(x, "parentUuid"@))
                &&& text_fits(field(x, "logicalParentUuid"@))
                &&& flag_fits(field(x, "isSidechain"@))
                &&& text_fits(field(x, "timestamp"@))
                &&& text_fits(field(x, "sessionId"@))
                &&& text_fits(field(x, "session_id"@))
                &&& text_fits(field(x, "cwd"@))
                &&& text_fits(field(x, "gitBranch"@))
                &&& text_fits(field(x, "version"@))
                &&& text_fits(field(x, "userType"@))
                &&& text_fits(field(x, "entrypoint"@))
                &&& text_fits(field(x, "agentId"@))
                &&& text_fits(field(x, "slug"@))
                }
            }),
            ({
                let x = members(o@);
                match r {
                    Ok(e) => {
                    &&& opt_text(e.uuid) == text_at(field(x, "uuid"@))
                    &&& opt_text(e.parent_uuid) == text_at(field(x, "parentUuid"@))
                    &&& opt_text(e.logical_parent_uuid) == text_at(field(x, "logicalParentUuid"@))
                    &&& e.is_sidechain == flag_at(field(x, "isSidechain"@))
                    &&& opt_text(e.timestamp) == text_at(field(x, "timestamp"@))
                    &&& opt_text(e.session_id) == text_at(field(x, "sessionId"@))
                    &&& opt_text(e.ancestor_session_id) == text_at(field(x, "session_id"@))
                    &&& opt_text(e.cwd) == text_at(field(x, "cwd"@))
                    &&& opt_text(e.git_branch) == text_at(field(x, "gitBranch"@))
                    &&& opt_text(e.version) == text_at(field(x, "version"@))
                    &&& opt_text(e.user_type) == text_at(field(x, "userType"@))
                    &&& opt_text(e.entrypoint) == text_at(field(x, "entrypoint"@))
                    &&& opt_text(e.agent_id) == text_at(field(x, "agentId"@))
                    &&& opt_text(e.slug) == text_at(field(x, "slug"@))
                    },
                    Err(_) => true,
                }
            }),
    {
        let uuid: Option<String> = match read_text(find_member(o, "uuid")) {
            Ok(v) => v,
            Err(_) => return Err(()),
        };
        let parent_uuid: Option<String> = match read_text(find_member(o, "parentUuid")) {
            Ok(v) => v,
            Err(_) => return Err(()),
        };
        let logical_parent_uuid: Option<String> = match read_text(find_member(o, "logicalParentUuid")) {
            Ok(v) => v,
            Err(_) => return Err(()),
        };
        let is_sidechain: Option<bool> = match read_flag(find_member(o, "isSidechain")) {
            Ok(v) => v,
            Err(_) => return Err(()),
        };
        let timestamp: Option<String> = match read_text(find_member(o, "timestamp")) {
            Ok(v) => v,
            Err(_) => return Err(()),
        };
        let session_id: Option<String> = match read_text(find_member(o, "sessionId")) {
            Ok(v) => v,
            Err(_) => return Err(()),
        };
        let ancestor_session_id: Option<String> = match read_text(find_member(o, "session_id")) {
            Ok(v) => v,
            Err(_) => return Err(()),
        };
        let cwd: Option<String> = match read_text(find_member(o, "cwd")) {
            Ok(v) => v,
            Err(_) => return Err(()),
        };
        let git_branch: Option<String> = match read_text(find_member(o, "gitBranch")) {
            Ok(v) => v,
            Err(_) => return Err(()),
        };
        let version: Option<String> = match read_text(find_member(o, "version")) {
            Ok(v) => v,
            Err(_) => return Err(()),
        };
        let user_type: Option<String> = match read_text(find_member(o, "userType")) {
            Ok(v) => v,
            Err(_) => return Err(()),
        };
        let entrypoint: Option<String> = match read_text(find_member(o, "entrypoint")) {
            Ok(v) => v,
            Err(_) => return Err(()),
        };
        let agent_id: Option<String> = match read_text(find_member(o, "agentId")) {
            Ok(v) => v,
            Err(_) => return Err(()),
        };
        let slug: Option<String> = match read_text(find_member(o, "slug")) {
            Ok(v) => v,
            Err(_) => return Err(()),
        };
        Ok(Envelope { uuid, parent_uuid, logical_parent_uuid, is_sidechain, timestamp, session_id, ancestor_session_id, cwd, git_branch, version, user_type, entrypoint, agent_id, slug })
    }
}

/// One block of a message's content.
#[derive(Debug)]
pub struct Block {
    /// What kind of block it is.
    pub kind: Option<String>,
    /// The id of a tool call.
    pub id: Option<String>,
    /// The tool that is called.
    pub name: Option<String>,
    /// What the tool is given.
    pub input: Option<Json>,
    /// Plain text.
    pub text: Option<String>,
    /// Reasoning text.
    pub thinking: Option<String>,
    /// The tool call that is answered.
    pub tool_use_id: Option<String>,
    /// What the tool answered.
    pub content: Option<Json>,
    /// Did the tool fail?
    pub is_error: Option<bool>,
}

impl Block {
    /// The name of the block's member at a position.
    pub open spec fn name_at(i: int) -> Seq<char> {
        if i == 0 {
            "type"@
        } else if i == 1 {
            "id"@
        } else if i == 2 {
            "name"@
        } else if i == 3 {
            "input"@
        } else if i == 4 {
            "text"@
        } else if i == 5 {
            "thinking"@
        } else if i == 6 {
            "tool_use_id"@
        } else if i == 7 {
            "content"@
        } else if i == 8 {
            "is_error"@
        } else {
            seq![]
        }
    }

    /// What stands in the block's member at a position: a block is written as an
    /// object, or as an array of its nine members.
    pub open spec fn slot(t: Tree, i: int) -> Option<Tree> {
        match t {
            Tree::Obj(o) => field(o, Block::name_at(i)),
            Tree::Arr(a) => if 0 <= i < a.len() {
                Some(a[i])
            } else {
                None
            },
            _ => None,
        }
    }

    /// Is the value a block?
    pub open spec fn fits(t: Tree) -> bool {
        &&& t is Obj || (t matches Tree::Arr(a) && a.len() == 9)
        &&& text_fits(Block::slot(t, 0))
        &&& text_fits(Block::slot(t, 1))
        &&& text_fits(Block::slot(t, 2))
        &&& text_fits(Block::slot(t, 4))
        &&& text_fits(Block::slot(t, 5))
        &&& text_fits(Block::slot(t, 6))
        &&& flag_fits(Block::slot(t, 8))
    }

    /// The block holds exactly what the value says.
    pub open spec fn holds(self, t: Tree) -> bool {
        &&& opt_text(self.kind) == text_at(Block::slot(t, 0))
        &&& opt_text(self.id) == text_at(Block::slot(t, 1))
        &&& opt_text(self.name) == text_at(Block::slot(t, 2))
        &&& opt_tree(self.input) == any_at(Block::slot(t, 3))
        &&& opt_text(self.text) == text_at(Block::slot(t, 4))
        &&& opt_text(self.thinking) == text_at(Block::slot(t, 5))
        &&& opt_text(self.tool_use_id) == text_at(Block::slot(t, 6))
        &&& opt_tree(self.content) == any_at(Block::slot(t, 7))
        &&& self.is_error == flag_at(Block::slot(t, 8))
    }

    fn slot_of<'a>(j: &'a Json, i: usize, name: &str) -> (r: Option<&'a Json>)
        requires
            i < 9,
            name@ == Block::name_at(i as int),
        ensures
            slot_tree(r) == Block::slot(j.tree(), i as int),
    {
        broadcast use {tree_of_array, tree_of_object};

        match j {
            Json::Obj(o) => find_member(o, name),
            Json::Arr(a) => if i < a.len() {
                Some(&a[i])
            } else {
                None
            },
            _ => None,
        }
    }

    /// Reads a block.
    pub fn read(j: &Json) -> (r: Result<Block, ()>)
        ensures
            r is Ok <==> Block::fits(j.tree()),
            r matches Ok(b) ==> b.holds(j.tree()),
            ({
                let x = j.tree();
                r is Ok <==> {
                &&& x is Obj || (x matches Tree::Arr(a) && a.len() == 9)
                &&& text_fits(Block::slot(x, 0))
                &&& text_fits(Block::slot(x, 1))
                &&& text_fits(Block::slot(x, 2))
                &&& text_fits(Block::slot(x, 4))
                &&& text_fits(Block::slot(x, 5))
                &&& text_fits(Block::slot(x, 6))
                &&& flag_fits(Block::slot(x, 8))
                }
            }),
            ({
                let x = j.tree();
                match r {
                    Ok(e) => {
                    &&& opt_text(e.kind) == text_at(Block::slot(x, 0))
                    &&& opt_text(e.id) == text_at(Block::slot(x, 1))
                    &&& opt_text(e.name) == text_at(Block::slot(x, 2))
                    &&& opt_tree(e.input) == any_at(Block::slot(x, 3))
                    &&& opt_text(e.text) == text_at(Block::slot(x, 4))
                    &&& opt_text(e.thinking) == text_at(Block::slot(x, 5))
                    &&& opt_text(e.tool_use_id) == text_at(Block::slot(x, 6))
                    &&& opt_tree(e.content) == any_at(Block::slot(x, 7))
                    &&& e.is_error == flag_at(Block::slot(x, 8))
                    },
                    Err(_) => true,
                }
            }),
    {
        broadcast use {tree_of_array, tree_of_object};

        let shaped: bool = match j {
            Json::Obj(_) => true,
            Json::Arr(a) => a.len() == 9,
            _ => false,
        };
        if !shaped {
            return Err(());
        }
        let kind: Option<String> = match read_text(Block::slot_of(j, 0, "type")) {
            Ok(v) => v,
            Err(_) => return Err(()),
        };
        let id: Option<String> = match read_text(Block::slot_of(j, 1, "id")) {
            Ok(v) => v,
            Err(_) => return Err(()),
        };
        let name: Option<String> = match read_text(Block::slot_of(j, 2, "name")) {
            Ok(v) => v,
            Err(_) => return Err(()),
        };
        let input: Option<Json> = read_any(Block::slot_of(j, 3, "input"));
        let text: Option<String> = match read_text(Block::slot_of(j, 4, "text")) {
            Ok(v) => v,
            Err(_) => return Err(()),
        };
        let thinking: Option<String> = match read_text(Block::slot_of(j, 5, "thinking")) {
            Ok(v) => v,
            Err(_) => return Err(()),
        };
        let tool_use_id: Option<String> = match read_text(Block::slot_of(j, 6, "tool_use_id")) {
            Ok(v) => v,
            Err(_) => return Err(()),
        };
        let content: Option<Json> = read_any(Block::slot_of(j, 7, "content"));
        let is_error: Option<bool> = match read_flag(Block::slot_of(j, 8, "is_error")) {
            Ok(v) => v,
            Err(_) => return Err(()),
        };
        Ok(Block { kind, id, name, input, text, thinking, tool_use_id, content, is_error })
    }
}

/// What a message says.
#[derive(Debug)]
pub enum Content {
    /// Plain text.
    Text(String),
    /// A list of blocks.
    Blocks(Vec<Block>),
    /// Anything else, as it stands.
    Other(Json),
}

/// Is every item a block?
pub open spec fn all_blocks(a: Seq<Tree>) -> bool {
    forall|i: int| 0 <= i < a.len() ==> Block::fits(#[trigger] a[i])
}

impl Content {
    /// The content holds exactly what the value says: a string is text, an array
    /// of blocks is blocks, anything else is kept as it stands.
    pub open spec fn holds(self, t: Tree) -> bool {
        match t {
            Tree::Str(s) => self matches Content::Text(x) && x@ == s,
            Tree::Arr(a) => if all_blocks(a) {
                self matches Content::Blocks(b) && b@.len() == a.len() && (forall|i: int|
                    0 <= i < a.len() ==> (#[trigger] b@[i]).holds(a[i]))
            } else {
                self matches Content::Other(j) && j.tree() == t
            },
            _ => self matches Content::Other(j) && j.tree() == t,
        }
    }

    /// Reads a message's content.
    pub fn read(j: &Json) -> (r: Content)
        ensures
            r.holds(j.tree()),
            match j.tree() {
                Tree::Str(s) => r matches Content::Text(x) && x@ == s,
                Tree::Arr(a) => if (forall|i: int|
                    0 <= i < a.len() ==> Block::fits(#[trigger] a[i])) {
                    r matches Content::Blocks(b) && b@.len() == a.len() && (forall|i: int|
                        0 <= i < a.len() ==> (#[trigger] b@[i]).holds(a[i]))
                } else {
                    r matches Content::Other(x) && x.tree() == j.tree()
                },
                _ => r matches Content::Other(x) && x.tree() == j.tree(),
            },
    {
        broadcast use {tree_of_array, tree_of_object};

        match j {
            Json::Str(s) => Content::Text(s.clone()),
            Json::Arr(a) => {
                let mut blocks: Vec<Block> = Vec::new();
                let mut i: usize = 0;
                while i < a.len()
                    invariant
                        i <= a.len(),
                        blocks.len() == i,
                        j.tree() == Tree::Arr(trees(a@)),
                        forall|k: int| 0 <= k < i ==> Block::fits(#[trigger] trees(a@)[k]),
                        forall|k: int| 0 <= k < i ==> (#[trigger] blocks@[k]).holds(trees(a@)[k]),
                    decreases a.len() - i,
                {
                    match Block::read(&a[i]) {
                        Ok(b) => {
                            assert(trees(a@)[i as int] == a@[i as int].tree());
                            blocks.push(b);
                        },
                        Err(_) => {
                            assert(!Block::fits(trees(a@)[i as int]));
                            return Content::Other(j.copied());
                        },
                    }
                    i = i + 1;
                }
                Content::Blocks(blocks)
            },
            _ => Content::Other(j.copied()),
        }
    }
}

/// Content that is there unless the slot is empty or `null`.
pub open spec fn content_holds(c: Option<Content>, t: Option<Tree>) -> bool {
    match any_at(t) {
        Some(v) => c matches Some(x) && x.holds(v),
        None => c is None,
    }
}

/// A message of the thread.
#[derive(Debug)]
pub struct Message {
    /// Who speaks.
    pub role: Option<String>,
    /// Which model answered.
    pub model: Option<String>,
    /// The message's id.
    pub id: Option<String>,
    /// Why the answer ended.
    pub stop_reason: Option<String>,
    /// What the answer used.
    pub usage: Option<Json>,
    /// What it says.
    pub content: Option<Content>,
    /// The members that no other field holds.
    pub extra: Vec<(String, Json)>,
}

impl Message {
    /// Does every member that the shape names have its type?
    pub open spec fn fits(o: Members) -> bool {
        &&& text_fits(field(o, "role"@))
        &&& text_fits(field(o, "model"@))
        &&& text_fits(field(o, "id"@))
        &&& text_fits(field(o, "stop_reason"@))
    }

    /// The record holds exactly what the members say.
    pub open spec fn holds(self, o: Members) -> bool {
        &&& opt_text(self.role) == text_at(field(o, "role"@))
        &&& opt_text(self.model) == text_at(field(o, "model"@))
        &&& opt_text(self.id) == text_at(field(o, "id"@))
        &&& opt_text(self.stop_reason) == text_at(field(o, "stop_reason"@))
        &&& opt_tree(self.usage) == any_at(field(o, "usage"@))
        &&& content_holds(self.content, field(o, "content"@))
        &&& members(self.extra@) == Shape::Message.rest(o)
    }

    /// Reads the record off an object's members.
    pub fn read(o: &Vec<(String, Json)>) -> (r: Result<Message, ()>)
        ensures
            r is Ok <==> Message::fits(members(o@)),
            r matches Ok(e) ==> e.holds(members(o@)),
            ({
                let x = members(o@);
                r is Ok <==> {
                &&& text_fits(field(x, "role"@))
                &&& text_fits(field(x, "model"@))
                &&& text_fits(field(x, "id"@))
                &&& text_fits(field(x, "stop_reason"@))
                }
            }),
            ({
                let x = members(o@);
                match r {
                    Ok(e) => {
                    &&& opt_text(e.role) == text_at(field(x, "role"@))
                    &&& opt_text(e.model) == text_at(field(x, "model"@))
                    &&& opt_text(e.id) == text_at(field(x, "id"@))
                    &&& opt_text(e.stop_reason) == text_at(field(x, "stop_reason"@))
                    &&& opt_tree(e.usage) == any_at(field(x, "usage"@))
                    &&& content_holds(e.content, field(x, "content"@))
                    },
                    Err(_) => true,
                }
            }),
    {
        let role: Option<String> = match read_text(find_member(o, "role")) {
            Ok(v) => v,
            Err(_) => return Err(()),
        };
        let model: Option<String> = match read_text(find_member(o, "model")) {
            Ok(v) => v,
            Err(_) => return Err(()),
        };
        let id: Option<String> = match read_text(find_member(o, "id")) {
            Ok(v) => v,
            Err(_) => return Err(()),
        };
        let stop_reason: Option<String> = match read_text(find_member(o, "stop_reason")) {
            Ok(v) => v,
            Err(_) => return Err(()),
        };
        let usage: Option<Json> = read_any(find_member(o, "usage"));
        let content: Option<Content> = match find_member(o, "content") {
            Some(Json::Null) => None,
            Some(j) => Some(Content::read(j)),
            None => None,
        };
        let extra: Vec<(String, Json)> = Shape::Message.read_rest(o);
        Ok(Message { role, model, id, stop_reason, usage, content, extra })
    }
}

/// An attachment of the thread.
#[derive(Debug)]
pub struct Attachment {
    /// What kind of attachment it is.
    pub kind: Option<String>,
    /// The members that no other field holds.
    pub fields: Vec<(String, Json)>,
}

impl Attachment {
    /// Does every member that the shape names have its type?
    pub open spec fn fits(o: Members) -> bool {
        &&& text_fits(field(o, "type"@))
    }

    /// The record holds exactly what the members say.
    pub open spec fn holds(self, o: Members) -> bool {
        &&& opt_text(self.kind) == text_at(field(o, "type"@))
        &&& members(self.fields@) == Shape::Attachment.rest(o)
    }

    /// Reads the record off an object's members.
    pub fn read(o: &Vec<(String, Json)>) -> (r: Result<Attachment, ()>)
        ensures
            r is Ok <==> Attachment::fits(members(o@)),
            r matches Ok(e) ==> e.holds(members(o@)),
            ({
                let x = members(o@);
                r is Ok <==> {
                &&& text_fits(field(x, "type"@))
                }
            }),
            ({
                let x = members(o@);
                match r {
                    Ok(e) => {
                    &&& opt_text(e.kind) == text_at(field(x, "type"@))
                    },
                    Err(_) => true,
                }
            }),
    {
        let kind: Option<String> = match read_text(find_member(o, "type")) {
            Ok(v) => v,
            Err(_) => return Err(()),
        };
        let fields: Vec<(String, Json)> = Shape::Attachment.read_rest(o);
        Ok(Attachment { kind, fields })
    }
}

/// Is the slot empty, or does it hold an object that fits?
pub open spec fn message_fits(t: Option<Tree>) -> bool {
    match any_at(t) {
        Some(Tree::Obj(o)) => Message::fits(o),
        Some(_) => false,
        None => true,
    }
}

/// What the slot holds, read.
pub open spec fn message_holds(m: Option<Message>, t: Option<Tree>) -> bool {
    match any_at(t) {
        Some(Tree::Obj(o)) => m matches Some(x) && x.holds(o),
        _ => m is None,
    }
}

fn read_message(j: Option<&Json>) -> (r: Result<Option<Message>, ()>)
    ensures
        r is Ok <==> message_fits(slot_tree(j)),
        r matches Ok(m) ==> message_holds(m, slot_tree(j)),
{
    broadcast use {tree_of_array, tree_of_object};

    match j {
        None => Ok(None),
        Some(Json::Null) => Ok(None),
        Some(Json::Obj(o)) => match Message::read(o) {
            Ok(m) => Ok(Some(m)),
            Err(_) => Err(()),
        },
        Some(_) => Err(()),
    }
}

/// Is the slot empty, or does it hold an object that fits?
pub open spec fn attachment_fits(t: Option<Tree>) -> bool {
    match any_at(t) {
        Some(Tree::Obj(o)) => Attachment::fits(o),
        Some(_) => false,
        None => true,
    }
}

/// What the slot holds, read.
pub open spec fn attachment_holds(m: Option<Attachment>, t: Option<Tree>) -> bool {
    match any_at(t) {
        Some(Tree::Obj(o)) => m matches Some(x) && x.holds(o),
        _ => m is None,
    }
}

fn read_attachment(j: Option<&Json>) -> (r: Result<Option<Attachment>, ()>)
    ensures
        r is Ok <==> attachment_fits(slot_tree(j)),
        r matches Ok(m) ==> attachment_holds(m, slot_tree(j)),
{
    broadcast use {tree_of_array, tree_of_object};

    match j {
        None => Ok(None),
        Some(Json::Null) => Ok(None),
        Some(Json::Obj(o)) => match Attachment::read(o) {
            Ok(m) => Ok(Some(m)),
            Err(_) => Err(()),
        },
        Some(_) => Err(()),
    }
}

/// A record of the thread.
#[derive(Debug)]
pub struct ThreadedRecord {
    /// What kind of system notice it is.
    pub subtype: Option<String>,
    /// What a tool gave back.
    pub tool_use_result: Option<Json>,
    /// The prompt it answers.
    pub prompt_id: Option<String>,
    /// The request it came from.
    pub request_id: Option<String>,
    /// The record that called the tool.
    pub source_tool_assistant_uuid: Option<String>,
    /// The type of the agent it is put down to.
    pub attribution_agent: Option<String>,
    /// The skill it is put down to.
    pub attribution_skill: Option<String>,
    /// Is it about the session itself?
    pub is_meta: Option<bool>,
    /// How long it took, in milliseconds.
    pub duration_ms: Option<u64>,
    /// How many messages it covers.
    pub message_count: Option<u64>,
    /// What a compaction left behind.
    pub compact_metadata: Option<Json>,
    /// The effort setting.
    pub effort: Option<String>,
    /// Is it an error of the service?
    pub is_api_error_message: Option<bool>,
    /// Why a tool was refused.
    pub tool_denial_kind: Option<String>,
    /// Where it came from.
    pub origin: Option<Json>,
    /// What every record of the thread carries.
    pub envelope: Envelope,
    /// The message, if it is one.
    pub message: Option<Message>,
    /// The attachment, if it is one.
    pub attachment: Option<Attachment>,
    /// The members that no other field holds.
    pub extra: Vec<(String, Json)>,
}

impl ThreadedRecord {
    /// Does every member that the shape names have its type?
    pub open spec fn fits(o: Members) -> bool {
        &&& text_fits(field(o, "subtype"@))
        &&& text_fits(field(o, "promptId"@))
        &&& text_fits(field(o, "requestId"@))
        &&& text_fits(field(o, "sourceToolAssistantUUID"@))
        &&& text_fits(field(o, "attributionAgent"@))
        &&& text_fits(field(o, "attributionSkill"@))
        &&& flag_fits(field(o, "isMeta"@))
        &&& count_fits(field(o, "durationMs"@))
        &&& count_fits(field(o, "messageCount"@))
        &&& text_fits(field(o, "effort"@))
        &&& flag_fits(field(o, "isApiErrorMessage"@))
        &&& text_fits(field(o, "toolDenialKind"@))
        &&& Envelope::fits(o)
        &&& message_fits(field(o, "message"@))
        &&& attachment_fits(field(o, "attachment"@))
    }

    /// The record holds exactly what the members say.
    pub open spec fn holds(self, o: Members) -> bool {
        &&& opt_text(self.subtype) == text_at(field(o, "subtype"@))
        &&& opt_tree(self.tool_use_result) == any_at(field(o, "toolUseResult"@))
        &&& opt_text(self.prompt_id) == text_at(field(o, "promptId"@))
        &&& opt_text(self.request_id) == text_at(field(o, "requestId"@))
        &&& opt_text(self.source_tool_assistant_uuid) == text_at(field(o, "sourceToolAssistantUUID"@))
        &&& opt_text(self.attribution_agent) == text_at(field(o, "attributionAgent"@))
        &&& opt_text(self.attribution_skill) == text_at(field(o, "attributionSkill"@))
        &&& self.is_meta == flag_at(field(o, "isMeta"@))
        &&& self.duration_ms == count_at(field(o, "durationMs"@))
        &&& self.message_count == count_at(field(o, "messageCount"@))
        &&& opt_tree(self.compact_metadata) == any_at(field(o, "compactMetadata"@))
        &&& opt_text(self.effort) == text_at(field(o, "effort"@))
        &&& self.is_api_error_message == flag_at(field(o, "isApiErrorMessage"@))
        &&& opt_text(self.tool_denial_kind) == text_at(field(o, "toolDenialKind"@))
        &&& opt_tree(self.origin) == any_at(field(o, "origin"@))
        &&& self.envelope.holds(o)
        &&& message_holds(self.message, field(o, "message"@))
        &&& attachment_holds(self.attachment, field(o, "attachment"@))
        &&& members(self.extra@) == Shape::Threaded.rest(o)
    }

    /// Reads the record off an object's members.
    pub fn read(o: &Vec<(String, Json)>) -> (r: Result<ThreadedRecord, ()>)
        ensures
            r is Ok <==> ThreadedRecord::fits(members(o@)),
            r matches Ok(e) ==> e.holds(members(o@)),
            ({
                let x = members(o@);
                r is Ok <==> {
                &&& text_fits(field(x, "subtype"@))
                &&& text_fits(field(x, "promptId"@))
                &&& text_fits(field(x, "requestId"@))
                &&& text_fits(field(x, "sourceToolAssistantUUID"@))
                &&& text_fits(field(x, "attributionAgent"@))
                &&& text_fits(field(x, "attributionSkill"@))
                &&& flag_fits(field(x, "isMeta"@))
                &&& count_fits(field(x, "durationMs"@))
                &&& count_fits(field(x, "messageCount"@))
                &&& text_fits(field(x, "effort"@))
                &&& flag_fits(field(x, "isApiErrorMessage"@))
                &&& text_fits(field(x, "toolDenialKind"@))
                &&& Envelope::fits(x)
                &&& message_fits(field(x, "message"@))
                &&& attachment_fits(field(x, "attachment"@))
                }
            }),
            ({
                let x = members(o@);
                match r {
                    Ok(e) => {
                    &&& opt_text(e.subtype) == text_at(field(x, "subtype"@))
                    &&& opt_tree(e.tool_use_result) == any_at(field(x, "toolUseResult"@))
                    &&& opt_text(e.prompt_id) == text_at(field(x, "promptId"@))
                    &&& opt_text(e.request_id) == text_at(field(x, "requestId"@))
                    &&& opt_text(e.source_tool_assistant_uuid) == text_at(field(x, "sourceToolAssistantUUID"@))
                    &&& opt_text(e.attribution_agent) == text_at(field(x, "attributionAgent"@))
                    &&& opt_text(e.attribution_skill) == text_at(field(x, "attributionSkill"@))
                    &&& e.is_meta == flag_at(field(x, "isMeta"@))
                    &&& e.duration_ms == count_at(field(x, "durationMs"@))
                    &&& e.message_count == count_at(field(x, "messageCount"@))
                    &&& opt_tree(e.compact_metadata) == any_at(field(x, "compactMetadata"@))
                    &&& opt_text(e.effort) == text_at(field(x, "effort"@))
                    &&& e.is_api_error_message == flag_at(field(x, "isApiErrorMessage"@))
                    &&& opt_text(e.tool_denial_kind) == text_at(field(x, "toolDenialKind"@))
                    &&& opt_tree(e.origin) == any_at(field(x, "origin"@))
                    &&& e.envelope.holds(x)
                    &&& message_holds(e.message, field(x, "message"@))
                    &&& attachment_holds(e.attachment, field(x, "attachment"@))
                    },
                    Err(_) => true,
                }
            }),
    {
        let subtype: Option<String> = match read_text(find_member(o, "subtype")) {
            Ok(v) => v,
            Err(_) => return Err(()),
        };
        let tool_use_result: Option<Json> = read_any(find_member(o, "toolUseResult"));
        let prompt_id: Option<String> = match read_text(find_member(o, "promptId")) {
            Ok(v) => v,
            Err(_) => return Err(()),
        };
        let request_id: Option<String> = match read_text(find_member(o, "requestId")) {
            Ok(v) => v,
            Err(_) => return Err(()),
        };
        let source_tool_assistant_uuid: Option<String> = match read_text(find_member(o, "sourceToolAssistantUUID")) {
            Ok(v) => v,
            Err(_) => return Err(()),
        };
        let attribution_agent: Option<String> = match read_text(find_member(o, "attributionAgent")) {
            Ok(v) => v,
            Err(_) => return Err(()),
        };
        let attribution_skill: Option<String> = match read_text(find_member(o, "attributionSkill")) {
            Ok(v) => v,
            Err(_) => return Err(()),
        };
        let is_meta: Option<bool> = match read_flag(find_member(o, "isMeta")) {
            Ok(v) => v,
            Err(_) => return Err(()),
        };
        let duration_ms: Option<u64> = match read_count(find_member(o, "durationMs")) {
            Ok(v) => v,
            Err(_) => return Err(()),
        };
        let message_count: Option<u64> = match read_count(find_member(o, "messageCount")) {
            Ok(v) => v,
            Err(_) => return Err(()),
        };
        let compact_metadata: Option<Json> = read_any(find_member(o, "compactMetadata"));
        let effort: Option<String> = match read_text(find_member(o, "effort")) {
            Ok(v) => v,
            Err(_) => return Err(()),
        };
        let is_api_error_message: Option<bool> = match read_flag(find_member(o, "isApiErrorMessage")) {
            Ok(v) => v,
            Err(_) => return Err(()),
        };
        let tool_denial_kind: Option<String> = match read_text(find_member(o, "toolDenialKind")) {
            Ok(v) => v,
            Err(_) => return Err(()),
        };
        let origin: Option<Json> = read_any(find_member(o, "origin"));
        let envelope: Envelope = match Envelope::read(o) {
            Ok(v) => v,
            Err(_) => return Err(()),
        };
        let message: Option<Message> = match read_message(find_member(o, "message")) {
            Ok(v) => v,
            Err(_) => return Err(()),
        };
        let attachment: Option<Attachment> = match read_attachment(find_member(o, "attachment")) {
            Ok(v) => v,
            Err(_) => return Err(()),
        };
        let extra: Vec<(String, Json)> = Shape::Threaded.read_rest(o);
        Ok(ThreadedRecord { subtype, tool_use_result, prompt_id, request_id, source_tool_assistant_uuid, attribution_agent, attribution_skill, is_meta, duration_ms, message_count, compact_metadata, effort, is_api_error_message, tool_denial_kind, origin, envelope, message, attachment, extra })
    }
}

/// A record beside the thread.
#[derive(Debug)]
pub struct SidecarRecord {
    /// The session it belongs to.
    pub session_id: Option<String>,
    /// The session's mode.
    pub mode: Option<String>,
    /// The permission mode.
    pub permission_mode: Option<String>,
    /// The title that the model chose.
    pub ai_title: Option<String>,
    /// The title that the operator chose.
    pub custom_title: Option<String>,
    /// The agent's name.
    pub agent_name: Option<String>,
    /// The latched value.
    pub atis: Option<Json>,
    /// The last record of the thread.
    pub leaf_uuid: Option<String>,
    /// The last prompt.
    pub last_prompt: Option<Json>,
    /// The queue operation.
    pub operation: Option<String>,
    /// When it was written.
    pub timestamp: Option<String>,
    /// What was queued.
    pub content: Option<Json>,
    /// The bridged session.
    pub bridge_session_id: Option<String>,
    /// The bridge's last sequence number.
    pub last_sequence_num: Option<i64>,
    /// The frame's address.
    pub frame_url: Option<String>,
    /// The frame's path.
    pub path: Option<String>,
    /// The frame's title.
    pub title: Option<String>,
    /// The cost so far.
    pub total_cost_usd: Option<Number>,
    /// Lines added so far.
    pub total_lines_added: Option<i64>,
    /// Lines removed so far.
    pub total_lines_removed: Option<i64>,
    /// The message it belongs to.
    pub message_id: Option<String>,
    /// The message of the state it changes.
    pub snapshot_message_id: Option<String>,
    /// The file it tracks.
    pub tracking_path: Option<String>,
    /// The state of the files.
    pub snapshot: Option<Json>,
    /// The backup of a file.
    pub backup: Option<Json>,
    /// The members that no other field holds.
    pub extra: Vec<(String, Json)>,
}

impl SidecarRecord {
    /// Does every member that the shape names have its type?
    pub open spec fn fits(o: Members) -> bool {
        &&& text_fits(field(o, "sessionId"@))
        &&& text_fits(field(o, "mode"@))
        &&& text_fits(field(o, "permissionMode"@))
        &&& text_fits(field(o, "aiTitle"@))
        &&& text_fits(field(o, "customTitle"@))
        &&& text_fits(field(o, "agentName"@))
        &&& text_fits(field(o, "leafUuid"@))
        &&& text_fits(field(o, "operation"@))
        &&& text_fits(field(o, "timestamp"@))
        &&& text_fits(field(o, "bridgeSessionId"@))
        &&& signed_fits(field(o, "lastSequenceNum"@))
        &&& text_fits(field(o, "frameUrl"@))
        &&& text_fits(field(o, "path"@))
        &&& text_fits(field(o, "title"@))
        &&& number_fits(field(o, "totalCostUSD"@))
        &&& signed_fits(field(o, "totalLinesAdded"@))
        &&& signed_fits(field(o, "totalLinesRemoved"@))
        &&& text_fits(field(o, "messageId"@))
        &&& text_fits(field(o, "snapshotMessageId"@))
        &&& text_fits(field(o, "trackingPath"@))
    }

    /// The record holds exactly what the members say.
    pub open spec fn holds(self, o: Members) -> bool {
        &&& opt_text(self.session_id) == text_at(field(o, "sessionId"@))
        &&& opt_text(self.mode) == text_at(field(o, "mode"@))
        &&& opt_text(self.permission_mode) == text_at(field(o, "permissionMode"@))
        &&& opt_text(self.ai_title) == text_at(field(o, "aiTitle"@))
        &&& opt_text(self.custom_title) == text_at(field(o, "customTitle"@))
        &&& opt_text(self.agent_name) == text_at(field(o, "agentName"@))
        &&& opt_tree(self.atis) == any_at(field(o, "atis"@))
        &&& opt_text(self.leaf_uuid) == text_at(field(o, "leafUuid"@))
        &&& opt_tree(self.last_prompt) == any_at(field(o, "lastPrompt"@))
        &&& opt_text(self.operation) == text_at(field(o, "operation"@))
        &&& opt_text(self.timestamp) == text_at(field(o, "timestamp"@))
        &&& opt_tree(self.content) == any_at(field(o, "content"@))
        &&& opt_text(self.bridge_session_id) == text_at(field(o, "bridgeSessionId"@))
        &&& self.last_sequence_num == signed_at(field(o, "lastSequenceNum"@))
        &&& opt_text(self.frame_url) == text_at(field(o, "frameUrl"@))
        &&& opt_text(self.path) == text_at(field(o, "path"@))
        &&& opt_text(self.title) == text_at(field(o, "title"@))
        &&& opt_number(self.total_cost_usd) == number_at(field(o, "totalCostUSD"@))
        &&& self.total_lines_added == signed_at(field(o, "totalLinesAdded"@))
        &&& self.total_lines_removed == signed_at(field(o, "totalLinesRemoved"@))
        &&& opt_text(self.message_id) == text_at(field(o, "messageId"@))
        &&& opt_text(self.snapshot_message_id) == text_at(field(o, "snapshotMessageId"@))
        &&& opt_text(self.tracking_path) == text_at(field(o, "trackingPath"@))
        &&& opt_tree(self.snapshot) == any_at(field(o, "snapshot"@))
        &&& opt_tree(self.backup) == any_at(field(o, "backup"@))
        &&& members(self.extra@) == Shape::Sidecar.rest(o)
    }

    /// Reads the record off an object's members.
    pub fn read(o: &Vec<(String, Json)>) -> (r: Result<SidecarRecord, ()>)
        ensures
            r is Ok <==> SidecarRecord::fits(members(o@)),
            r matches Ok(e) ==> e.holds(members(o@)),
            ({
                let x = members(o@);
                r is Ok <==> {
                &&& text_fits(field(x, "sessionId"@))
                &&& text_fits(field(x, "mode"@))
                &&& text_fits(field(x, "permissionMode"@))
                &&& text_fits(field(x, "aiTitle"@))
                &&& text_fits(field(x, "customTitle"@))
                &&& text_fits(field(x, "agentName"@))
                &&& text_fits(field(x, "leafUuid"@))
                &&& text_fits(field(x, "operation"@))
                &&& text_fits(field(x, "timestamp"@))
                &&& text_fits(field(x, "bridgeSessionId"@))
                &&& signed_fits(field(x, "lastSequenceNum"@))
                &&& text_fits(field(x, "frameUrl"@))
                &&& text_fits(field(x, "path"@))
                &&& text_fits(field(x, "title"@))
                &&& number_fits(field(x, "totalCostUSD"@))
                &&& signed_fits(field(x, "totalLinesAdded"@))
                &&& signed_fits(field(x, "totalLinesRemoved"@))
                &&& text_fits(field(x, "messageId"@))
                &&& text_fits(field(x, "snapshotMessageId"@))
                &&& text_fits(field(x, "trackingPath"@))
                }
            }),
            ({
                let x = members(o@);
                match r {
                    Ok(e) => {
                    &&& opt_text(e.session_id) == text_at(field(x, "sessionId"@))
                    &&& opt_text(e.mode) == text_at(field(x, "mode"@))
                    &&& opt_text(e.permission_mode) == text_at(field(x, "permissionMode"@))
                    &&& opt_text(e.ai_title) == text_at(field(x, "aiTitle"@))
                    &&& opt_text(e.custom_title) == text_at(field(x, "customTitle"@))
                    &&& opt_text(e.agent_name) == text_at(field(x, "agentName"@))
                    &&& opt_tree(e.atis) == any_at(field(x, "atis"@))
                    &&& opt_text(e.leaf_uuid) == text_at(field(x, "leafUuid"@))
                    &&& opt_tree(e.last_prompt) == any_at(field(x, "lastPrompt"@))
                    &&& opt_text(e.operation) == text_at(field(x, "operation"@))
                    &&& opt_text(e.timestamp) == text_at(field(x, "timestamp"@))
                    &&& opt_tree(e.content) == any_at(field(x, "content"@))
                    &&& opt_text(e.bridge_session_id) == text_at(field(x, "bridgeSessionId"@))
                    &&& e.last_sequence_num == signed_at(field(x, "lastSequenceNum"@))
                    &&& opt_text(e.frame_url) == text_at(field(x, "frameUrl"@))
                    &&& opt_text(e.path) == text_at(field(x, "path"@))
                    &&& opt_text(e.title) == text_at(field(x, "title"@))
                    &&& opt_number(e.total_cost_usd) == number_at(field(x, "totalCostUSD"@))
                    &&& e.total_lines_added == signed_at(field(x, "totalLinesAdded"@))
                    &&& e.total_lines_removed == signed_at(field(x, "totalLinesRemoved"@))
                    &&& opt_text(e.message_id) == text_at(field(x, "messageId"@))
                    &&& opt_text(e.snapshot_message_id) == text_at(field(x, "snapshotMessageId"@))
                    &&& opt_text(e.tracking_path) == text_at(field(x, "trackingPath"@))
                    &&& opt_tree(e.snapshot) == any_at(field(x, "snapshot"@))
                    &&& opt_tree(e.backup) == any_at(field(x, "backup"@))
                    },
                    Err(_) => true,
                }
            }),
    {
        let session_id: Option<String> = match read_text(find_member(o, "sessionId")) {
            Ok(v) => v,
            Err(_) => return Err(()),
        };
        let mode: Option<String> = match read_text(find_member(o, "mode")) {
            Ok(v) => v,
            Err(_) => return Err(()),
        };
        let permission_mode: Option<String> = match read_text(find_member(o, "permissionMode")) {
            Ok(v) => v,
            Err(_) => return Err(()),
        };
        let ai_title: Option<String> = match read_text(find_member(o, "aiTitle")) {
            Ok(v) => v,
            Err(_) => return Err(()),
        };
        let custom_title: Option<String> = match read_text(find_member(o, "customTitle")) {
            Ok(v) => v,
            Err(_) => return Err(()),
        };
        let agent_name: Option<String> = match read_text(find_member(o, "agentName")) {
            Ok(v) => v,
            Err(_) => return Err(()),
        };
        let atis: Option<Json> = read_any(find_member(o, "atis"));
        let leaf_uuid: Option<String> = match read_text(find_member(o, "leafUuid")) {
            Ok(v) => v,
            Err(_) => return Err(()),
        };
        let last_prompt: Option<Json> = read_any(find_member(o, "lastPrompt"));
        let operation: Option<String> = match read_text(find_member(o, "operation")) {
            Ok(v) => v,
            Err(_) => return Err(()),
        };
        let timestamp: Option<String> = match read_text(find_member(o, "timestamp")) {
            Ok(v) => v,
            Err(_) => return Err(()),
        };
        let content: Option<Json> = read_any(find_member(o, "content"));
        let bridge_session_id: Option<String> = match read_text(find_member(o, "bridgeSessionId")) {
            Ok(v) => v,
            Err(_) => return Err(()),
        };
        let last_sequence_num: Option<i64> = match read_signed(find_member(o, "lastSequenceNum")) {
            Ok(v) => v,
            Err(_) => return Err(()),
        };
        let frame_url: Option<String> = match read_text(find_member(o, "frameUrl")) {
            Ok(v) => v,
            Err(_) => return Err(()),
        };
        let path: Option<String> = match read_text(find_member(o, "path")) {
            Ok(v) => v,
            Err(_) => return Err(()),
        };
        let title: Option<String> = match read_text(find_member(o, "title")) {
            Ok(v) => v,
            Err(_) => return Err(()),
        };
        let total_cost_usd: Option<Number> = match read_number(find_member(o, "totalCostUSD")) {
            Ok(v) => v,
            Err(_) => return Err(()),
        };
        let total_lines_added: Option<i64> = match read_signed(find_member(o, "totalLinesAdded")) {
            Ok(v) => v,
            Err(_) => return Err(()),
        };
        let total_lines_removed: Option<i64> = match read_signed(find_member(o, "totalLinesRemoved")) {
            Ok(v) => v,
            Err(_) => return Err(()),
        };
        let message_id: Option<String> = match read_text(find_member(o, "messageId")) {
            Ok(v) => v,
            Err(_) => return Err(()),
        };
        let snapshot_message_id: Option<String> = match read_text(find_member(o, "snapshotMessageId")) {
            Ok(v) => v,
            Err(_) => return Err(()),
        };
        let tracking_path: Option<String> = match read_text(find_member(o, "trackingPath")) {
            Ok(v) => v,
            Err(_) => return Err(()),
        };
        let snapshot: Option<Json> = read_any(find_member(o, "snapshot"));
        let backup: Option<Json> = read_any(find_member(o, "backup"));
        let extra: Vec<(String, Json)> = Shape::Sidecar.read_rest(o);
        Ok(SidecarRecord { session_id, mode, permission_mode, ai_title, custom_title, agent_name, atis, leaf_uuid, last_prompt, operation, timestamp, content, bridge_session_id, last_sequence_num, frame_url, path, title, total_cost_usd, total_lines_added, total_lines_removed, message_id, snapshot_message_id, tracking_path, snapshot, backup, extra })
    }
}

/// An entry of a workflow's journal.
#[derive(Debug)]
pub struct JournalRecord {
    /// The step's key.
    pub key: Option<String>,
    /// The agent that ran the step.
    pub agent_id: Option<String>,
    /// What the step gave back.
    pub result: Option<Json>,
    /// The members that no other field holds.
    pub extra: Vec<(String, Json)>,
}

impl JournalRecord {
    /// Does every member that the shape names have its type?
    pub open spec fn fits(o: Members) -> bool {
        &&& text_fits(field(o, "key"@))
        &&& text_fits(field(o, "agentId"@))
    }

    /// The record holds exactly what the members say.
    pub open spec fn holds(self, o: Members) -> bool {
        &&& opt_text(self.key) == text_at(field(o, "key"@))
        &&& opt_text(self.agent_id) == text_at(field(o, "agentId"@))
        &&& opt_tree(self.result) == any_at(field(o, "result"@))
        &&& members(self.extra@) == Shape::Journal.rest(o)
    }

    /// Reads the record off an object's members.
    pub fn read(o: &Vec<(String, Json)>) -> (r: Result<JournalRecord, ()>)
        ensures
            r is Ok <==> JournalRecord::fits(members(o@)),
            r matches Ok(e) ==> e.holds(members(o@)),
            ({
                let x = members(o@);
                r is Ok <==> {
                &&& text_fits(field(x, "key"@))
                &&& text_fits(field(x, "agentId"@))
                }
            }),
            ({
                let x = members(o@);
                match r {
                    Ok(e) => {
                    &&& opt_text(e.key) == text_at(field(x, "key"@))
                    &&& opt_text(e.agent_id) == text_at(field(x, "agentId"@))
                    &&& opt_tree(e.result) == any_at(field(x, "result"@))
                    },
                    Err(_) => true,
                }
            }),
    {
        let key: Option<String> = match read_text(find_member(o, "key")) {
            Ok(v) => v,
            Err(_) => return Err(()),
        };
        let agent_id: Option<String> = match read_text(find_member(o, "agentId")) {
            Ok(v) => v,
            Err(_) => return Err(()),
        };
        let result: Option<Json> = read_any(find_member(o, "result"));
        let extra: Vec<(String, Json)> = Shape::Journal.read_rest(o);
        Ok(JournalRecord { key, agent_id, result, extra })
    }
}

/// What is noted beside a subagent's transcript.
#[derive(Debug)]
pub struct AgentMeta {
    /// The kind of agent.
    pub agent_type: Option<String>,
    /// What it was asked.
    pub description: Option<String>,
    /// The tool call that started it.
    pub tool_use_id: Option<String>,
    /// How deep in the tree of agents it stands.
    pub spawn_depth: Option<u32>,
    /// The agent that started it.
    pub parent_agent_id: Option<String>,
    /// The model it runs on.
    pub model: Option<String>,
    /// The members that no other field holds.
    pub extra: Vec<(String, Json)>,
}

/// One line of a transcript, understood.
#[derive(Debug)]
#[allow(inconsistent_fields)]
pub enum Record {
    /// From the operator, or a tool result.
    User(Box<ThreadedRecord>),
    /// From the model.
    Assistant(Box<ThreadedRecord>),
    /// An attachment.
    Attachment(Box<ThreadedRecord>),
    /// A system notice.
    System(Box<ThreadedRecord>),
    /// A record beside the thread.
    Sidecar {
        /// Which one.
        kind: TranscriptRecordKind,
        /// What it holds.
        body: Box<SidecarRecord>,
    },
    /// An entry of a workflow's journal.
    Journal {
        /// Which one.
        kind: TranscriptRecordKind,
        /// What it holds.
        body: Box<JournalRecord>,
    },
    /// A type that no shape models.
    Unknown {
        /// The tag, if there was one.
        raw_type: Option<String>,
    },
}

impl Record {
    /// The record's kind.
    pub open spec fn spec_kind(self) -> TranscriptRecordKind {
        match self {
            Record::User(_) => TranscriptRecordKind::User,
            Record::Assistant(_) => TranscriptRecordKind::Assistant,
            Record::Attachment(_) => TranscriptRecordKind::Attachment,
            Record::System(_) => TranscriptRecordKind::System,
            Record::Sidecar { kind, .. } => kind,
            Record::Journal { kind, .. } => kind,
            Record::Unknown { .. } => TranscriptRecordKind::Unknown,
        }
    }

    /// The thread record inside, if it is one of the thread.
    pub open spec fn spec_threaded(self) -> Option<ThreadedRecord> {
        match self {
            Record::User(r) => Some(*r),
            Record::Assistant(r) => Some(*r),
            Record::Attachment(r) => Some(*r),
            Record::System(r) => Some(*r),
            _ => None,
        }
    }

    /// The session that the record itself names.
    pub open spec fn named_session(self) -> Option<Seq<char>> {
        match self {
            Record::Sidecar { body, .. } => opt_text(body.session_id),
            _ => match self.spec_threaded() {
                Some(r) => opt_text(r.envelope.session_id),
                None => None,
            },
        }
    }

    /// The agent that the record itself names.
    pub open spec fn named_agent(self) -> Option<Seq<char>> {
        match self {
            Record::Journal { body, .. } => opt_text(body.agent_id),
            _ => match self.spec_threaded() {
                Some(r) => opt_text(r.envelope.agent_id),
                None => None,
            },
        }
    }

    /// The time that the record itself gives, as text.
    pub open spec fn named_time(self) -> Option<Seq<char>> {
        match self {
            Record::Sidecar { body, .. } => opt_text(body.timestamp),
            _ => match self.spec_threaded() {
                Some(r) => opt_text(r.envelope.timestamp),
                None => None,
            },
        }
    }

    /// The blocks of the record's message.
    pub open spec fn spec_blocks(self) -> Seq<Block> {
        match self.spec_threaded() {
            Some(r) => match r.message {
                Some(m) => match m.content {
                    Some(Content::Blocks(b)) => b@,
                    _ => seq![],
                },
                None => seq![],
            },
            None => seq![],
        }
    }

    /// The record's kind.
    pub fn kind(&self) -> (r: TranscriptRecordKind)
        ensures
            r == self.spec_kind(),
            r == match *self {
                Record::User(_) => TranscriptRecordKind::User,
                Record::Assistant(_) => TranscriptRecordKind::Assistant,
                Record::Attachment(_) => TranscriptRecordKind::Attachment,
                Record::System(_) => TranscriptRecordKind::System,
                Record::Sidecar { kind, .. } => kind,
                Record::Journal { kind, .. } => kind,
                Record::Unknown { .. } => TranscriptRecordKind::Unknown,
            },
    {
        match self {
            Record::User(_) => TranscriptRecordKind::User,
            Record::Assistant(_) => TranscriptRecordKind::Assistant,
            Record::Attachment(_) => TranscriptRecordKind::Attachment,
            Record::System(_) => TranscriptRecordKind::System,
            Record::Sidecar { kind, .. } => *kind,
            Record::Journal { kind, .. } => *kind,
            Record::Unknown { .. } => TranscriptRecordKind::Unknown,
        }
    }

    /// The thread record inside, if it is one of the thread.
    pub fn threaded(&self) -> (r: Option<&ThreadedRecord>)
        ensures
            r is Some <==> self.spec_threaded() is Some,
            r matches Some(t) ==> self.spec_threaded() == Some(*t),
            match *self {
                Record::User(t) => r == Some(&*t),
                Record::Assistant(t) => r == Some(&*t),
                Record::Attachment(t) => r == Some(&*t),
                Record::System(t) => r == Some(&*t),
                _ => r is None,
            },
    {
        match self {
            Record::User(r) => Some(r),
            Record::Assistant(r) => Some(r),
            Record::Attachment(r) => Some(r),
            Record::System(r) => Some(r),
            _ => None,
        }
    }

    /// The envelope, if the record is one of the thread.
    pub fn envelope(&self) -> (r: Option<&Envelope>)
        ensures
            r is Some <==> self.spec_threaded() is Some,
            r matches Some(e) ==> self.spec_threaded()->0.envelope == *e,
    {
        match self.threaded() {
            Some(t) => Some(&t.envelope),
            None => None,
        }
    }

    /// The session that the record itself names.
    pub fn session_id(&self) -> (r: Option<&str>)
        ensures
            opt_str(r) == self.named_session(),
            opt_str(r) == match *self {
                Record::User(t) => opt_text(t.envelope.session_id),
                Record::Assistant(t) => opt_text(t.envelope.session_id),
                Record::Attachment(t) => opt_text(t.envelope.session_id),
                Record::System(t) => opt_text(t.envelope.session_id),
                Record::Sidecar { body, .. } => opt_text(body.session_id),
                _ => None,
            },
    {
        match self {
            Record::Sidecar { body, .. } => text_ref(&body.session_id),
            _ => match self.envelope() {
                Some(e) => text_ref(&e.session_id),
                None => None,
            },
        }
    }

    /// The agent that the record itself names.
    pub fn agent_id(&self) -> (r: Option<&str>)
        ensures
            opt_str(r) == self.named_agent(),
            opt_str(r) == match *self {
                Record::User(t) => opt_text(t.envelope.agent_id),
                Record::Assistant(t) => opt_text(t.envelope.agent_id),
                Record::Attachment(t) => opt_text(t.envelope.agent_id),
                Record::System(t) => opt_text(t.envelope.agent_id),
                Record::Journal { body, .. } => opt_text(body.agent_id),
                _ => None,
            },
    {
        match self {
            Record::Journal { body, .. } => text_ref(&body.agent_id),
            _ => match self.envelope() {
                Some(e) => text_ref(&e.agent_id),
                None => None,
            },
        }
    }

    /// The prompt that the record answers.
    pub fn prompt_id(&self) -> (r: Option<&str>)
        ensures
            opt_str(r) == match self.spec_threaded() {
                Some(t) => opt_text(t.prompt_id),
                None => None,
            },
    {
        match self.threaded() {
            Some(t) => text_ref(&t.prompt_id),
            None => None,
        }
    }

    /// The producer's version, as the record gives it.
    pub fn version(&self) -> (r: Option<&str>)
        ensures
            opt_str(r) == match self.spec_threaded() {
                Some(t) => opt_text(t.envelope.version),
                None => None,
            },
    {
        match self.envelope() {
            Some(e) => text_ref(&e.version),
            None => None,
        }
    }

    /// When the record says it was written.
    pub fn timestamp(&self) -> (r: Option<&str>)
        ensures
            opt_str(r) == self.named_time(),
            opt_str(r) == match *self {
                Record::User(t) => opt_text(t.envelope.timestamp),
                Record::Assistant(t) => opt_text(t.envelope.timestamp),
                Record::Attachment(t) => opt_text(t.envelope.timestamp),
                Record::System(t) => opt_text(t.envelope.timestamp),
                Record::Sidecar { body, .. } => opt_text(body.timestamp),
                _ => None,
            },
    {
        match self {
            Record::Sidecar { body, .. } => text_ref(&body.timestamp),
            _ => match self.envelope() {
                Some(e) => text_ref(&e.timestamp),
                None => None,
            },
        }
    }

    /// The blocks of the record's message; none where it has no blocks.
    pub fn blocks(&self) -> (r: &[Block])
        ensures
            r@ == self.spec_blocks(),
    {
        match self.threaded() {
            Some(t) => match &t.message {
                Some(m) => match &m.content {
                    Some(Content::Blocks(b)) => b.as_slice(),
                    _ => no_blocks(),
                },
                None => no_blocks(),
            },
            None => no_blocks(),
        }
    }
}

fn no_blocks() -> (r: &'static [Block])
    ensures
        r@ == Seq::<Block>::empty(),
{
    let r: &'static [Block; 0] = &[];
    let s: &'static [Block] = r;
    assert(s@ =~= Seq::<Block>::empty());
    s
}

/// Borrows an optional text.
pub fn text_ref(s: &Option<String>) -> (r: Option<&str>)
    ensures
        opt_str(r) == opt_text(*s),
{
    match s {
        Some(v) => Some(v.as_str()),
        None => None,
    }
}

/// What a tagged object is read as.
#[derive(Debug, Clone, Copy, PartialEq, Eq, Structural)]
pub enum Reading {
    /// A record of the thread.
    Threaded,
    /// An entry of a workflow's journal.
    Journal,
    /// A record beside the thread.
    Sidecar,
    /// Nothing: no shape models the tag.
    Nothing,
}

/// What a record of a kind is read as.
pub open spec fn reading_of(kind: TranscriptRecordKind) -> Reading {
    match kind {
        TranscriptRecordKind::User => Reading::Threaded,
        TranscriptRecordKind::Assistant => Reading::Threaded,
        TranscriptRecordKind::Attachment => Reading::Threaded,
        TranscriptRecordKind::System => Reading::Threaded,
        TranscriptRecordKind::Started => Reading::Journal,
        TranscriptRecordKind::Result => Reading::Journal,
        TranscriptRecordKind::Unknown => Reading::Nothing,
        _ => Reading::Sidecar,
    }
}

/// Does an object fit the shape of its kind?
pub open spec fn record_fits(kind: TranscriptRecordKind, o: Members) -> bool {
    match reading_of(kind) {
        Reading::Threaded => ThreadedRecord::fits(o),
        Reading::Journal => JournalRecord::fits(o),
        Reading::Sidecar => SidecarRecord::fits(o),
        Reading::Nothing => true,
    }
}

/// The record is of the kind, and holds exactly what the members say.
pub open spec fn record_holds(r: Record, kind: TranscriptRecordKind, o: Members) -> bool {
    &&& r.spec_kind() == kind
    &&& match r {
        Record::Sidecar { body, .. } => reading_of(kind) == Reading::Sidecar && body.holds(o),
        Record::Journal { body, .. } => reading_of(kind) == Reading::Journal && body.holds(o),
        Record::Unknown { .. } => false,
        _ => r.spec_threaded() matches Some(t) && t.holds(o),
    }
}

/// Reads a tagged object: an error where it does not fit its shape, nothing
/// where no shape models its tag.
pub fn build_record(tag: &str, o: &Vec<(String, Json)>) -> (r: Result<Option<Record>, ()>)
    ensures
        r is Ok <==> record_fits(kind_of_tag(tag@), members(o@)),
        r matches Ok(None) ==> kind_of_tag(tag@) is Unknown,
        r matches Ok(Some(x)) ==> record_holds(x, kind_of_tag(tag@), members(o@)),
        r matches Ok(v) ==> (v is None <==> kind_of_tag(tag@) == TranscriptRecordKind::Unknown),
        r matches Ok(Some(x)) ==> match x {
            Record::User(t) => tag@ == "user"@ && t.holds(members(o@)),
            Record::Assistant(t) => tag@ == "assistant"@ && t.holds(members(o@)),
            Record::Attachment(t) => tag@ == "attachment"@ && t.holds(members(o@)),
            Record::System(t) => tag@ == "system"@ && t.holds(members(o@)),
            Record::Journal { kind, body } => kind == kind_of_tag(tag@) && body.holds(members(o@)) && (
            tag@ == "started"@ || tag@ == "result"@),
            Record::Sidecar { kind, body } => kind == kind_of_tag(tag@) && body.holds(members(o@))
                && tag@ != "started"@ && tag@ != "result"@ && tag@ != "user"@ && tag@
                != "assistant"@ && tag@ != "attachment"@ && tag@ != "system"@,
            Record::Unknown { .. } => false,
        },
{
    let kind: TranscriptRecordKind = record_kind(tag);
    proof {
        tags_name_their_kinds();
    }
    match kind {
        TranscriptRecordKind::User
        | TranscriptRecordKind::Assistant
        | TranscriptRecordKind::Attachment
        | TranscriptRecordKind::System => {
            let body: Box<ThreadedRecord> = match ThreadedRecord::read(o) {
                Ok(b) => Box::new(b),
                Err(_) => return Err(()),
            };
            Ok(
                Some(
                    match kind {
                        TranscriptRecordKind::User => Record::User(body),
                        TranscriptRecordKind::Assistant => Record::Assistant(body),
                        TranscriptRecordKind::Attachment => Record::Attachment(body),
                        _ => Record::System(body),
                    },
                ),
            )
        },
        TranscriptRecordKind::Started | TranscriptRecordKind::Result => match JournalRecord::read(
            o,
        ) {
            Ok(b) => Ok(Some(Record::Journal { kind, body: Box::new(b) })),
            Err(_) => Err(()),
        },
        TranscriptRecordKind::Unknown => Ok(None),
        _ => match SidecarRecord::read(o) {
            Ok(b) => Ok(Some(Record::Sidecar { kind, body: Box::new(b) })),
            Err(_) => Err(()),
        },
    }
}

/// Each tag is read as the kind with its name, and a tag that is none of these as none.
pub proof fn tags_name_their_kinds()
    ensures
        kind_of_tag("user"@) == TranscriptRecordKind::User,
        kind_of_tag("assistant"@) == TranscriptRecordKind::Assistant,
        kind_of_tag("attachment"@) == TranscriptRecordKind::Attachment,
        kind_of_tag("system"@) == TranscriptRecordKind::System,
        kind_of_tag("mode"@) == TranscriptRecordKind::Mode,
        kind_of_tag("last-prompt"@) == TranscriptRecordKind::LastPrompt,
        kind_of_tag("bridge-session"@) == TranscriptRecordKind::BridgeSession,
        kind_of_tag("permission-mode"@) == TranscriptRecordKind::PermissionMode,
        kind_of_tag("ai-title"@) == TranscriptRecordKind::AiTitle,
        kind_of_tag("custom-title"@) == TranscriptRecordKind::CustomTitle,
        kind_of_tag("agent-name"@) == TranscriptRecordKind::AgentName,
        kind_of_tag("queue-operation"@) == TranscriptRecordKind::QueueOperation,
        kind_of_tag("file-history-delta"@) == TranscriptRecordKind::FileHistoryDelta,
        kind_of_tag("file-history-snapshot"@) == TranscriptRecordKind::FileHistorySnapshot,
        kind_of_tag("started"@) == TranscriptRecordKind::Started,
        kind_of_tag("result"@) == TranscriptRecordKind::Result,
        kind_of_tag("atis-latch"@) == TranscriptRecordKind::AtisLatch,
        kind_of_tag("frame-link"@) == TranscriptRecordKind::FrameLink,
        kind_of_tag("cost-state"@) == TranscriptRecordKind::CostState,
        forall|tag: Seq<char>|
            tag != "user"@ && tag != "assistant"@ && tag != "attachment"@ && tag != "system"@ && tag
                != "mode"@ && tag != "last-prompt"@ && tag != "bridge-session"@ && tag
                != "permission-mode"@ && tag != "ai-title"@ && tag != "custom-title"@ && tag
                != "agent-name"@ && tag != "queue-operation"@ && tag != "file-history-delta"@ && tag
                != "file-history-snapshot"@ && tag != "started"@ && tag != "result"@ && tag
                != "atis-latch"@ && tag != "frame-link"@ && tag != "cost-state"@
                ==> #[trigger] kind_of_tag(tag) == TranscriptRecordKind::Unknown,
{
    reveal_strlit("user");
    reveal_strlit("assistant");
    reveal_strlit("attachment");
    reveal_strlit("system");
    reveal_strlit("mode");
    reveal_strlit("last-prompt");
    reveal_strlit("bridge-session");
    reveal_strlit("permission-mode");
    reveal_strlit("ai-title");
    reveal_strlit("custom-title");
    reveal_strlit("agent-name");
    reveal_strlit("queue-operation");
    reveal_strlit("file-history-delta");
    reveal_strlit("file-history-snapshot");
    reveal_strlit("started");
    reveal_strlit("result");
    reveal_strlit("atis-latch");
    reveal_strlit("frame-link");
    reveal_strlit("cost-state");
    assert("user"@.len() == 4);
    assert("assistant"@.len() == 9);
    assert("attachment"@.len() == 10);
    assert("system"@.len() == 6);
    assert("mode"@.len() == 4);
    assert("last-prompt"@.len() == 11);
    assert("bridge-session"@.len() == 14);
    assert("permission-mode"@.len() == 15);
    assert("ai-title"@.len() == 8);
    assert("custom-title"@.len() == 12);
    assert("agent-name"@.len() == 10);
    assert("queue-operation"@.len() == 15);
    assert("file-history-delta"@.len() == 18);
    assert("file-history-snapshot"@.len() == 21);
    assert("started"@.len() == 7);
    assert("result"@.len() == 6);
    assert("atis-latch"@.len() == 10);
    assert("frame-link"@.len() == 10);
    assert("cost-state"@.len() == 10);
    // Tags of one length differ in a character.
    assert("system"@[0] == 's' && "result"@[0] == 'r');
    assert("assistant"@[1] == 's');
    assert("attachment"@[1] == 't' && "agent-name"@[1] == 'g' && "atis-latch"@[2] == 'i'
        && "attachment"@[2] == 't' && "frame-link"@[0] == 'f' && "cost-state"@[0] == 'c');
    assert("started"@[0] == 's');
    assert("user"@[0] == 'u' && "mode"@[0] == 'm');
    assert("queue-operation"@[0] == 'q' && "permission-mode"@[0] == 'p');
    assert("last-prompt"@[0] == 'l');
    assert("custom-title"@[0] == 'c');
    assert("agent-name"@[0] == 'a' && "atis-latch"@[0] == 'a' && "atis-latch"@[1] == 't');
}

/// How a record is read is in its tag: the thread's four, the journal's two, the rest beside
/// the thread.
pub proof fn tags_tell_how_a_record_is_read(tag: Seq<char>)
    ensures
        reading_of(kind_of_tag(tag)) is Threaded <==> tag == "user"@ || tag == "assistant"@ || tag
            == "attachment"@ || tag == "system"@,
        reading_of(kind_of_tag(tag)) is Journal <==> tag == "started"@ || tag == "result"@,
        reading_of(kind_of_tag(tag)) is Nothing <==> kind_of_tag(tag)
            == TranscriptRecordKind::Unknown,
{
    tags_name_their_kinds();
}

/// What records of the thread keep besides their own members are the members of other names, in order.
pub proof fn records_of_the_thread_keep_what_they_do_not_name(o: Members)
    ensures
        Shape::Threaded.rest(o) == o.filter(
            |m: (Seq<char>, Tree)|
                m.0 != "uuid"@
                && m.0 != "parentUuid"@
                && m.0 != "logicalParentUuid"@
                && m.0 != "isSidechain"@
                && m.0 != "timestamp"@
                && m.0 != "sessionId"@
                && m.0 != "session_id"@
                && m.0 != "cwd"@
                && m.0 != "gitBranch"@
                && m.0 != "version"@
                && m.0 != "userType"@
                && m.0 != "entrypoint"@
                && m.0 != "agentId"@
                && m.0 != "slug"@
                && m.0 != "message"@
                && m.0 != "attachment"@
                && m.0 != "subtype"@
                && m.0 != "toolUseResult"@
                && m.0 != "promptId"@
                && m.0 != "requestId"@
                && m.0 != "sourceToolAssistantUUID"@
                && m.0 != "attributionAgent"@
                && m.0 != "attributionSkill"@
                && m.0 != "isMeta"@
                && m.0 != "durationMs"@
                && m.0 != "messageCount"@
                && m.0 != "compactMetadata"@
                && m.0 != "effort"@
                && m.0 != "isApiErrorMessage"@
                && m.0 != "toolDenialKind"@
                && m.0 != "origin"@,
        ),
{
    let keep = |key: Seq<char>| !Shape::Threaded.names(key);
    crate::json::kept_members_are_those_to_keep(o, keep);
    crate::folds::same_tests(
        o,
        |m: (Seq<char>, Tree)| keep(m.0),
        |m: (Seq<char>, Tree)|
            m.0 != "uuid"@
                && m.0 != "parentUuid"@
                && m.0 != "logicalParentUuid"@
                && m.0 != "isSidechain"@
                && m.0 != "timestamp"@
                && m.0 != "sessionId"@
                && m.0 != "session_id"@
                && m.0 != "cwd"@
                && m.0 != "gitBranch"@
                && m.0 != "version"@
                && m.0 != "userType"@
                && m.0 != "entrypoint"@
                && m.0 != "agentId"@
                && m.0 != "slug"@
                && m.0 != "message"@
                && m.0 != "attachment"@
                && m.0 != "subtype"@
                && m.0 != "toolUseResult"@
                && m.0 != "promptId"@
                && m.0 != "requestId"@
                && m.0 != "sourceToolAssistantUUID"@
                && m.0 != "attributionAgent"@
                && m.0 != "attributionSkill"@
                && m.0 != "isMeta"@
                && m.0 != "durationMs"@
                && m.0 != "messageCount"@
                && m.0 != "compactMetadata"@
                && m.0 != "effort"@
                && m.0 != "isApiErrorMessage"@
                && m.0 != "toolDenialKind"@
                && m.0 != "origin"@,
    );
}

/// What messages keep besides their own members are the members of other names, in order.
pub proof fn messages_keep_what_they_do_not_name(o: Members)
    ensures
        Shape::Message.rest(o) == o.filter(
            |m: (Seq<char>, Tree)|
                m.0 != "role"@
                && m.0 != "model"@
                && m.0 != "id"@
                && m.0 != "stop_reason"@
                && m.0 != "usage"@
                && m.0 != "content"@,
        ),
{
    let keep = |key: Seq<char>| !Shape::Message.names(key);
    crate::json::kept_members_are_those_to_keep(o, keep);
    crate::folds::same_tests(
        o,
        |m: (Seq<char>, Tree)| keep(m.0),
        |m: (Seq<char>, Tree)|
            m.0 != "role"@
                && m.0 != "model"@
                && m.0 != "id"@
                && m.0 != "stop_reason"@
                && m.0 != "usage"@
                && m.0 != "content"@,
    );
}

/// What attachments keep besides their own members are the members of other names, in order.
pub proof fn attachments_keep_what_they_do_not_name(o: Members)
    ensures
        Shape::Attachment.rest(o) == o.filter(
            |m: (Seq<char>, Tree)|
                m.0 != "type"@,
        ),
{
    let keep = |key: Seq<char>| !Shape::Attachment.names(key);
    crate::json::kept_members_are_those_to_keep(o, keep);
    crate::folds::same_tests(
        o,
        |m: (Seq<char>, Tree)| keep(m.0),
        |m: (Seq<char>, Tree)|
            m.0 != "type"@,
    );
}

/// What records beside the thread keep besides their own members are the members of other names, in order.
pub proof fn records_beside_the_thread_keep_what_they_do_not_name(o: Members)
    ensures
        Shape::Sidecar.rest(o) == o.filter(
            |m: (Seq<char>, Tree)|
                m.0 != "sessionId"@
                && m.0 != "mode"@
                && m.0 != "permissionMode"@
                && m.0 != "aiTitle"@
                && m.0 != "customTitle"@
                && m.0 != "agentName"@
                && m.0 != "atis"@
                && m.0 != "leafUuid"@
                && m.0 != "lastPrompt"@
                && m.0 != "operation"@
                && m.0 != "timestamp"@
                && m.0 != "content"@
                && m.0 != "bridgeSessionId"@
                && m.0 != "lastSequenceNum"@
                && m.0 != "frameUrl"@
                && m.0 != "path"@
                && m.0 != "title"@
                && m.0 != "totalCostUSD"@
                && m.0 != "totalLinesAdded"@
                && m.0 != "totalLinesRemoved"@
                && m.0 != "messageId"@
                && m.0 != "snapshotMessageId"@
                && m.0 != "trackingPath"@
                && m.0 != "snapshot"@
                && m.0 != "backup"@,
        ),
{
    let keep = |key: Seq<char>| !Shape::Sidecar.names(key);
    crate::json::kept_members_are_those_to_keep(o, keep);
    crate::folds::same_tests(
        o,
        |m: (Seq<char>, Tree)| keep(m.0),
        |m: (Seq<char>, Tree)|
            m.0 != "sessionId"@
                && m.0 != "mode"@
                && m.0 != "permissionMode"@
                && m.0 != "aiTitle"@
                && m.0 != "customTitle"@
                && m.0 != "agentName"@
                && m.0 != "atis"@
                && m.0 != "leafUuid"@
                && m.0 != "lastPrompt"@
                && m.0 != "operation"@
                && m.0 != "timestamp"@
                && m.0 != "content"@
                && m.0 != "bridgeSessionId"@
                && m.0 != "lastSequenceNum"@
                && m.0 != "frameUrl"@
                && m.0 != "path"@
                && m.0 != "title"@
                && m.0 != "totalCostUSD"@
                && m.0 != "totalLinesAdded"@
                && m.0 != "totalLinesRemoved"@
                && m.0 != "messageId"@
                && m.0 != "snapshotMessageId"@
                && m.0 != "trackingPath"@
                && m.0 != "snapshot"@
                && m.0 != "backup"@,
    );
}

/// What journal entries keep besides their own members are the members of other names, in order.
pub proof fn journal_entries_keep_what_they_do_not_name(o: Members)
    ensures
        Shape::Journal.rest(o) == o.filter(
            |m: (Seq<char>, Tree)|
                m.0 != "key"@
                && m.0 != "agentId"@
                && m.0 != "result"@,
        ),
{
    let keep = |key: Seq<char>| !Shape::Journal.names(key);
    crate::json::kept_members_are_those_to_keep(o, keep);
    crate::folds::same_tests(
        o,
        |m: (Seq<char>, Tree)| keep(m.0),
        |m: (Seq<char>, Tree)|
            m.0 != "key"@
                && m.0 != "agentId"@
                && m.0 != "result"@,
    );
}

/// A block's members are named `type`, `id`, `name`, `input`, `text`, `thinking`,
/// `tool_use_id`, `content` and `is_error`, in this order where it is an array.
pub proof fn a_blocks_members_have_their_names(t: Tree)
    ensures
        t is Obj ==> {
            &&& Block::slot(t, 0) == crate::json::member(t, "type"@)
            &&& Block::slot(t, 1) == crate::json::member(t, "id"@)
            &&& Block::slot(t, 2) == crate::json::member(t, "name"@)
            &&& Block::slot(t, 3) == crate::json::member(t, "input"@)
            &&& Block::slot(t, 4) == crate::json::member(t, "text"@)
            &&& Block::slot(t, 5) == crate::json::member(t, "thinking"@)
            &&& Block::slot(t, 6) == crate::json::member(t, "tool_use_id"@)
            &&& Block::slot(t, 7) == crate::json::member(t, "content"@)
            &&& Block::slot(t, 8) == crate::json::member(t, "is_error"@)
        },
        t matches Tree::Arr(a) ==> forall|i: int|
            0 <= i < a.len() ==> #[trigger] Block::slot(t, i) == Some(a[i]),
{
}

} // verus!
