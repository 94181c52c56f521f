//! Where every tool call was made, and which call started which agent.
use vstd::prelude::*;

use crate::bytes::{line_views, lines_of, lines_with_offsets, lossy_text, text_from_bytes};
use crate::event::{copied_text, Source, TranscriptSource, WorkerId};
use crate::folds::{filter_none, filter_step, take_all};
use crate::json::{any_at, field, member, opt_text, opt_tree, text_at, Tree};
use crate::line::{
    at, fate, is_blank, line_tree, parse_line, reading, tallied_room, Fate, LineOutcome,
};
use crate::ordered::TextMap;
use crate::path::FilePath;
use crate::record::{
    all_blocks, content_holds, kind_of_tag, message_holds, record_holds, Block, Record,
};
use crate::source::{Transcript, TranscriptFile};
use crate::stats::ParseStats;
use crate::text::same_text;

verus! {

/// Where a tool call was made.
#[derive(Debug)]
pub struct ToolUseSite {
    /// The transcript.
    pub file: FilePath,
    /// The record.
    pub record_uuid: Option<String>,
    /// The agent that made it; none for the main one.
    pub agent: Option<WorkerId>,
    /// The tool.
    pub tool_name: Option<String>,
    /// Where the record begins.
    pub byte_offset: u64,
}

/// Where a tool call was made, as mathematics.
pub ghost struct Site {
    pub file: Seq<Seq<char>>,
    pub record_uuid: Option<Seq<char>>,
    pub agent: Option<Seq<char>>,
    pub tool_name: Option<Seq<char>>,
    pub byte_offset: int,
}

impl ToolUseSite {
    /// Where the call was made.
    pub open spec fn view(self) -> Site {
        Site {
            file: self.file@,
            record_uuid: opt_text(self.record_uuid),
            agent: opt_text(self.agent),
            tool_name: opt_text(self.tool_name),
            byte_offset: self.byte_offset as int,
        }
    }
}

/// Every tool call of a session, and what it started.
#[derive(Debug)]
pub struct ToolUseIndex {
    sites: TextMap<ToolUseSite>,
    agent_spawns: TextMap<String>,
    workflow_runs: TextMap<String>,
}

/// The index, as mathematics: calls by id, and the call behind each agent and
/// each workflow run.
pub ghost struct Calls {
    pub sites: Map<Seq<char>, Site>,
    pub agent_spawns: Map<Seq<char>, Seq<char>>,
    pub workflow_runs: Map<Seq<char>, Seq<char>>,
}

/// What the index reads off a block.
pub ghost struct BlockFacts {
    pub kind: Option<Seq<char>>,
    pub id: Option<Seq<char>>,
    pub name: Option<Seq<char>>,
    pub answers: Option<Seq<char>>,
}

/// What the index reads off a record.
pub ghost struct Facts {
    pub agent: Option<Seq<char>>,
    pub uuid: Option<Seq<char>>,
    pub blocks: Seq<BlockFacts>,
    pub result: Option<Tree>,
    pub source: Option<Seq<char>>,
}

/// What the index reads off a block.
pub open spec fn block_facts(b: Block) -> BlockFacts {
    BlockFacts {
        kind: opt_text(b.kind),
        id: opt_text(b.id),
        name: opt_text(b.name),
        answers: opt_text(b.tool_use_id),
    }
}

/// The first of two that is there.
pub open spec fn either(a: Option<Seq<char>>, b: Option<Seq<char>>) -> Option<Seq<char>> {
    match a {
        Some(_) => a,
        None => b,
    }
}

/// What the index reads off a record.
pub open spec fn facts_of(r: Record) -> Facts {
    Facts {
        agent: r.named_agent(),
        uuid: match r.spec_threaded() {
            Some(t) => opt_text(t.envelope.uuid),
            None => None,
        },
        blocks: Seq::new(r.spec_blocks().len(), |i: int| block_facts(r.spec_blocks()[i])),
        result: match r.spec_threaded() {
            Some(t) => opt_tree(t.tool_use_result),
            None => None,
        },
        source: match r.spec_threaded() {
            Some(t) => either(
                opt_text(t.source_tool_assistant_uuid),
                opt_text(t.envelope.parent_uuid),
            ),
            None => None,
        },
    }
}

/// The blocks that a message's content lists.
pub open spec fn content_blocks(message: Option<Tree>) -> Seq<Tree> {
    match at(any_at(message), "content"@) {
        Some(Tree::Arr(a)) => if all_blocks(a) {
            a
        } else {
            seq![]
        },
        _ => seq![],
    }
}

/// What the index reads off a line, given what the JSON reader made of it.
pub open spec fn facts_on(t: Option<Tree>) -> Facts {
    let threaded = reading(t) is Threaded;
    Facts {
        agent: if threaded || reading(t) is Journal {
            text_at(at(t, "agentId"@))
        } else {
            None
        },
        uuid: if threaded {
            text_at(at(t, "uuid"@))
        } else {
            None
        },
        blocks: if threaded {
            let blocks = content_blocks(at(t, "message"@));
            Seq::new(
                blocks.len(),
                |i: int|
                    BlockFacts {
                        kind: text_at(Block::slot(blocks[i], 0)),
                        id: text_at(Block::slot(blocks[i], 1)),
                        name: text_at(Block::slot(blocks[i], 2)),
                        answers: text_at(Block::slot(blocks[i], 6)),
                    },
            )
        } else {
            seq![]
        },
        result: if threaded {
            any_at(at(t, "toolUseResult"@))
        } else {
            None
        },
        source: if threaded {
            either(text_at(at(t, "sourceToolAssistantUUID"@)), text_at(at(t, "parentUuid"@)))
        } else {
            None
        },
    }
}

/// A record has the facts of the line it was read from.
proof fn facts_agree(r: Record, t: Option<Tree>, tag: Seq<char>)
    requires
        fate(t) == Fate::Fine(tag),
        record_holds(r, kind_of_tag(tag), t->0->Obj_0),
    ensures
        facts_of(r) == facts_on(t),
{
    let a = facts_of(r);
    let b = facts_on(t);
    assert(a.blocks =~= b.blocks) by {
        if reading(t) is Threaded {
            let body = r.spec_threaded()->0;
            let message = at(t, "message"@);
            assert(message_holds(body.message, message));
            match any_at(message) {
                Some(Tree::Obj(o)) => {
                    let m = body.message->0;
                    assert(content_holds(m.content, field(o, "content"@)));
                },
                _ => {},
            }
        }
    }
}

/// The agent that a record is put down to: the one it names, or else the one
/// whose transcript it stands in.
pub open spec fn caller_of(f: Facts, source: Source) -> Option<Seq<char>> {
    either(
        f.agent,
        match source {
            Source::Subagent(agent, _) => Some(agent),
            _ => None,
        },
    )
}

/// Is the block a tool call with an id?
pub open spec fn is_call(b: BlockFacts) -> bool {
    b.kind == Some("tool_use"@) && b.id is Some
}

/// The calls with those of the first `n` blocks of a record.
pub open spec fn with_calls(
    sites: Map<Seq<char>, Site>,
    f: Facts,
    file: Transcript,
    offset: int,
    n: nat,
) -> Map<Seq<char>, Site>
    decreases n,
{
    if n == 0 || n > f.blocks.len() {
        sites
    } else {
        let before = with_calls(sites, f, file, offset, (n - 1) as nat);
        let b = f.blocks[n - 1];
        if is_call(b) {
            before.insert(
                b.id->0,
                Site {
                    file: file.path,
                    record_uuid: f.uuid,
                    agent: caller_of(f, file.source),
                    tool_name: b.name,
                    byte_offset: offset,
                },
            )
        } else {
            before
        }
    }
}

/// How many of the first `n` blocks are calls.
pub open spec fn calls_in(blocks: Seq<BlockFacts>, n: nat) -> nat
    decreases n,
{
    if n == 0 || n > blocks.len() {
        0
    } else {
        calls_in(blocks, (n - 1) as nat) + if is_call(blocks[n - 1]) {
            1nat
        } else {
            0nat
        }
    }
}

/// The call that the first of some blocks to answer one answers.
pub open spec fn first_answered(blocks: Seq<BlockFacts>) -> Option<Seq<char>>
    decreases blocks.len(),
{
    if blocks.len() == 0 {
        None
    } else {
        either(blocks[0].answers, first_answered(blocks.drop_first()))
    }
}

/// What a record's result is filed under.
pub open spec fn result_key(f: Facts) -> Option<Seq<char>> {
    either(first_answered(f.blocks), f.source)
}

/// The links with the one that a record's result gives at a name.
pub open spec fn with_link(
    links: Map<Seq<char>, Seq<char>>,
    f: Facts,
    name: Seq<char>,
) -> Map<Seq<char>, Seq<char>> {
    match (f.result, result_key(f)) {
        (Some(result), Some(key)) => match text_at(member(result, name)) {
            Some(started) => links.insert(started, key),
            None => links,
        },
        _ => links,
    }
}

impl Calls {
    /// The index with one more record.
    pub open spec fn with_record(self, f: Facts, file: Transcript, offset: int) -> Calls {
        Calls {
            sites: with_calls(self.sites, f, file, offset, f.blocks.len()),
            agent_spawns: with_link(self.agent_spawns, f, "agentId"@),
            workflow_runs: with_link(self.workflow_runs, f, "runId"@),
        }
    }

    /// The index with the records among some lines.
    pub open spec fn with_lines(self, lines: Seq<(int, Seq<u8>)>, file: Transcript) -> Calls
        decreases lines.len(),
    {
        if lines.len() == 0 {
            self
        } else {
            let before = self.with_lines(lines.drop_last(), file);
            let text = lossy_text(lines.last().1);
            if !is_blank(text) && fate(line_tree(text)) is Fine {
                before.with_record(facts_on(line_tree(text)), file, lines.last().0)
            } else {
                before
            }
        }
    }
}

impl Calls {
    /// The index with the records of the first `n` of some transcripts.
    pub open spec fn with_files(self, files: Seq<(TranscriptFile, Vec<u8>)>, n: nat) -> Calls
        decreases n,
    {
        if n == 0 || n > files.len() {
            self
        } else {
            self.with_files(files, (n - 1) as nat).with_lines(
                lines_of(files[n - 1].1@),
                files[n - 1].0@,
            )
        }
    }
}

/// How many calls stand in the first `n` of some transcripts.
pub open spec fn calls_in_files(files: Seq<(TranscriptFile, Vec<u8>)>, n: nat) -> nat
    decreases n,
{
    if n == 0 || n > files.len() {
        0
    } else {
        calls_in_files(files, (n - 1) as nat) + calls_on_lines(lines_of(files[n - 1].1@))
    }
}

/// How many calls stand in some lines.
pub open spec fn calls_on_lines(lines: Seq<(int, Seq<u8>)>) -> nat
    decreases lines.len(),
{
    if lines.len() == 0 {
        0
    } else {
        let text = lossy_text(lines.last().1);
        let blocks = facts_on(line_tree(text)).blocks;
        calls_on_lines(lines.drop_last()) + if !is_blank(text) && fate(line_tree(text)) is Fine {
            calls_in(blocks, blocks.len())
        } else {
            0nat
        }
    }
}

/// The smaller of a count and the largest that a machine word holds.
pub open spec fn word(n: nat) -> usize {
    if n > usize::MAX {
        usize::MAX
    } else {
        n as usize
    }
}

proof fn sites_insert(m: Map<Seq<char>, ToolUseSite>, k: Seq<char>, v: ToolUseSite)
    ensures
        m.insert(k, v).map_values(|s: ToolUseSite| s@) == m.map_values(
            |s: ToolUseSite| s@,
        ).insert(k, v@),
{
    assert(m.insert(k, v).map_values(|s: ToolUseSite| s@) =~= m.map_values(
        |s: ToolUseSite| s@,
    ).insert(k, v@));
}

proof fn texts_insert(m: Map<Seq<char>, String>, k: Seq<char>, v: String)
    ensures
        m.insert(k, v).map_values(|s: String| s@) == m.map_values(|s: String| s@).insert(k, v@),
{
    assert(m.insert(k, v).map_values(|s: String| s@) =~= m.map_values(|s: String| s@).insert(
        k,
        v@,
    ));
}

/// An optional site, as mathematics.
pub open spec fn site_view(s: Option<&ToolUseSite>) -> Option<Site> {
    match s {
        Some(v) => Some(v@),
        None => None,
    }
}

/// The call with an id.
pub open spec fn site_in(c: Calls, id: Seq<char>) -> Option<Site> {
    if c.sites.dom().contains(id) {
        Some(c.sites[id])
    } else {
        None
    }
}

/// The call behind a key of some links.
pub open spec fn site_behind(
    c: Calls,
    links: Map<Seq<char>, Seq<char>>,
    key: Seq<char>,
) -> Option<Site> {
    if links.dom().contains(key) {
        site_in(c, links[key])
    } else {
        None
    }
}

impl ToolUseIndex {
    /// The maps are in order.
    pub closed spec fn wf(self) -> bool {
        self.sites.wf() && self.agent_spawns.wf() && self.workflow_runs.wf()
    }

    /// The index.
    pub closed spec fn view(self) -> Calls {
        Calls {
            sites: self.sites@.map_values(|s: ToolUseSite| s@),
            agent_spawns: self.agent_spawns@.map_values(|s: String| s@),
            workflow_runs: self.workflow_runs@.map_values(|s: String| s@),
        }
    }

    /// An index of nothing.
    pub fn new() -> (r: Self)
        ensures
            r.wf(),
            r@ == (Calls {
                sites: Map::empty(),
                agent_spawns: Map::empty(),
                workflow_runs: Map::empty(),
            }),
    {
        let r: Self = ToolUseIndex {
            sites: TextMap::new(),
            agent_spawns: TextMap::new(),
            workflow_runs: TextMap::new(),
        };
        proof {
            assert(r@.sites =~= Map::<Seq<char>, Site>::empty());
            assert(r@.agent_spawns =~= Map::<Seq<char>, Seq<char>>::empty());
            assert(r@.workflow_runs =~= Map::<Seq<char>, Seq<char>>::empty());
        }
        r
    }

    /// Takes a record into the index, and says how many calls it made.
    pub fn index_record(&mut self, record: &Record, file: &TranscriptFile, offset: u64) -> (r: usize)
        requires
            old(self).wf(),
        ensures
            final(self).wf(),
            final(self)@ == old(self)@.with_record(facts_of(*record), file@, offset as int),
            r == calls_in(facts_of(*record).blocks, facts_of(*record).blocks.len()),
    {
        let ghost f = facts_of(*record);
        let agent: Option<String> = match record.agent_id() {
            Some(a) => Some(a.to_owned()),
            None => match &file.source {
                TranscriptSource::Subagent { agent, .. } => Some(agent.clone()),
                _ => None,
            },
        };
        let uuid: Option<String> = match record.envelope() {
            Some(e) => copied_text(&e.uuid),
            None => None,
        };
        let blocks: &[Block] = record.blocks();
        let ghost start = self@;
        let mut added: usize = 0;
        let mut i: usize = 0;
        while i < blocks.len()
            invariant
                self.wf(),
                i <= blocks.len() == f.blocks.len(),
                f == facts_of(*record),
                blocks@ == record.spec_blocks(),
                opt_text(agent) == caller_of(f, file.source@),
                opt_text(uuid) == f.uuid,
                added == calls_in(f.blocks, i as nat),
                added <= i,
                self@ == (Calls {
                    sites: with_calls(start.sites, f, file@, offset as int, i as nat),
                    ..start
                }),
            decreases blocks.len() - i,
        {
            let b: &Block = &blocks[i];
            assert(f.blocks[i as int] == block_facts(*b));
            let called: bool = match &b.kind {
                Some(k) => same_text(k.as_str(), "tool_use"),
                None => false,
            };
            if called {
                if let Some(id) = &b.id {
                    let site: ToolUseSite = ToolUseSite {
                        file: file.path.copied(),
                        record_uuid: copied_text(&uuid),
                        agent: copied_text(&agent),
                        tool_name: copied_text(&b.name),
                        byte_offset: offset,
                    };
                    proof {
                        sites_insert(self.sites@, id@, site);
                    }
                    self.sites.insert(id.clone(), site);
                    added = added + 1;
                }
            }
            i = i + 1;
        }
        self.index_back_links(record);
        added
    }

    fn index_back_links(&mut self, record: &Record)
        requires
            old(self).wf(),
        ensures
            final(self).wf(),
            final(self)@ == (Calls {
                agent_spawns: with_link(
                    old(self)@.agent_spawns,
                    facts_of(*record),
                    "agentId"@,
                ),
                workflow_runs: with_link(old(self)@.workflow_runs, facts_of(*record), "runId"@),
                ..old(self)@
            }),
    {
        let ghost f = facts_of(*record);
        let body = match record.threaded() {
            Some(t) => t,
            None => return,
        };
        let result = match &body.tool_use_result {
            Some(v) => v,
            None => return,
        };
        let source: Option<String> = match &body.source_tool_assistant_uuid {
            Some(s) => Some(s.clone()),
            None => copied_text(&body.envelope.parent_uuid),
        };
        let key: String = match first_answer(record.blocks()) {
            Some(k) => k,
            None => match source {
                Some(s) => s,
                None => return,
            },
        };
        if let Some(agent) = result.text_of("agentId") {
            let k: String = key.clone();
            proof {
                texts_insert(self.agent_spawns@, agent@, k);
            }
            self.agent_spawns.insert(agent.to_owned(), k);
        }
        if let Some(run) = result.text_of("runId") {
            proof {
                texts_insert(self.workflow_runs@, run@, key);
            }
            self.workflow_runs.insert(run.to_owned(), key);
        }
    }

    /// Takes the records of a transcript into the index, and says how many calls
    /// they made.
    pub fn index_file(&mut self, bytes: &[u8], file: &TranscriptFile) -> (r: usize)
        requires
            old(self).wf(),
        ensures
            final(self).wf(),
            final(self)@ == old(self)@.with_lines(lines_of(bytes@), file@),
            r == word(calls_on_lines(lines_of(bytes@))),
    {
        let mut stats: ParseStats = ParseStats::new();
        let lines: Vec<(u64, &[u8])> = lines_with_offsets(bytes);
        let ghost views = lines_of(bytes@);
        let ghost start = self@;
        let mut added: usize = 0;
        let mut i: usize = 0;
        assert(views.subrange(0, 0) =~= seq![]);
        while i < lines.len()
            invariant
                self.wf(),
                stats.wf(),
                i <= lines.len(),
                views == line_views(lines@),
                stats.room(lines.len() - i),
                self@ == start.with_lines(views.subrange(0, i as int), file@),
                added == word(calls_on_lines(views.subrange(0, i as int))),
            decreases lines.len() - i,
        {
            let ghost here = views.subrange(0, i + 1);
            assert(here.drop_last() =~= views.subrange(0, i as int));
            assert(here.last() == (lines@[i as int].0 as int, lines@[i as int].1@));
            let text: String = text_from_bytes(lines[i].1);
            proof {
                tallied_room(stats@, text@, lines.len() - i);
            }
            match parse_line(text.as_str(), &mut stats) {
                LineOutcome::Record { record, .. } => {
                    proof {
                        let t = line_tree(text@);
                        facts_agree(*record, t, fate(t)->Fine_0);
                    }
                    let n: usize = self.index_record(&record, file, lines[i].0);
                    added = added.saturating_add(n);
                },
                _ => {},
            }
            i = i + 1;
        }
        assert(views.subrange(0, i as int) =~= views);
        added
    }

    /// Takes the records of a session's transcripts into the index, and says how many
    /// calls they made.
    pub fn index_session(&mut self, files: &Vec<(TranscriptFile, Vec<u8>)>) -> (r: usize)
        requires
            old(self).wf(),
        ensures
            final(self).wf(),
            final(self)@ == old(self)@.with_files(files@, files@.len()),
            r == word(calls_in_files(files@, files@.len())),
    {
        let ghost start = self@;
        let mut added: usize = 0;
        let mut i: usize = 0;
        while i < files.len()
            invariant
                i <= files@.len(),
                self.wf(),
                self@ == start.with_files(files@, i as nat),
                added == word(calls_in_files(files@, i as nat)),
            decreases files.len() - i,
        {
            let n: usize = self.index_file(files[i].1.as_slice(), &files[i].0);
            added = added.saturating_add(n);
            i = i + 1;
        }
        added
    }

    /// The call with an id.
    pub fn site(&self, tool_use_id: &str) -> (r: Option<&ToolUseSite>)
        requires
            self.wf(),
        ensures
            site_view(r) == site_in(self@, tool_use_id@),
    {
        self.sites.get(tool_use_id)
    }

    /// The transcript in which the call with an id was made.
    pub fn lookup(&self, tool_use_id: &str) -> (r: Option<&FilePath>)
        requires
            self.wf(),
        ensures
            match r {
                Some(p) => Some(p@),
                None => None,
            } == match site_in(self@, tool_use_id@) {
                Some(s) => Some(s.file),
                None => None,
            },
    {
        match self.site(tool_use_id) {
            Some(s) => Some(&s.file),
            None => None,
        }
    }

    /// The call that started an agent.
    pub fn spawn_of_agent(&self, agent: &str) -> (r: Option<&ToolUseSite>)
        requires
            self.wf(),
        ensures
            site_view(r) == site_behind(self@, self@.agent_spawns, agent@),
    {
        match self.agent_spawns.get(agent) {
            Some(id) => self.sites.get(id.as_str()),
            None => None,
        }
    }

    /// The call that started a workflow run.
    pub fn spawn_of_workflow_run(&self, run: &str) -> (r: Option<&ToolUseSite>)
        requires
            self.wf(),
        ensures
            site_view(r) == site_behind(self@, self@.workflow_runs, run@),
    {
        match self.workflow_runs.get(run) {
            Some(id) => self.sites.get(id.as_str()),
            None => None,
        }
    }

    /// How many calls are in the index.
    pub fn len(&self) -> (r: usize)
        requires
            self.wf(),
        ensures
            r == self@.sites.dom().len(),
    {
        let n: usize = self.sites.len();
        proof {
            assert(self@.sites.dom() =~= self.sites@.dom());
            crate::ordered::ascending_len(self.sites.keys());
        }
        n
    }

    /// Is nothing in the index?
    pub fn is_empty(&self) -> (r: bool)
        requires
            self.wf(),
        ensures
            r == (self@.sites == Map::<Seq<char>, Site>::empty()),
    {
        proof {
            assert(self@.sites.dom() =~= self.sites@.dom());
            if self.sites@ == Map::<Seq<char>, ToolUseSite>::empty() {
                assert(self@.sites =~= Map::<Seq<char>, Site>::empty());
            }
            if self@.sites == Map::<Seq<char>, Site>::empty() {
                assert(self.sites@ =~= Map::<Seq<char>, ToolUseSite>::empty());
            }
        }
        self.sites.is_empty()
    }
}

impl Default for ToolUseIndex {
    fn default() -> (r: Self)
        ensures
            r.wf(),
            r@ == (Calls {
                sites: Map::empty(),
                agent_spawns: Map::empty(),
                workflow_runs: Map::empty(),
            }),
    {
        ToolUseIndex::new()
    }
}

fn first_answer(blocks: &[Block]) -> (r: Option<String>)
    ensures
        opt_text(r) == first_answered(Seq::new(blocks@.len(), |i: int| block_facts(blocks@[i]))),
{
    let ghost facts = Seq::new(blocks@.len(), |i: int| block_facts(blocks@[i]));
    let mut i: usize = 0;
    assert(facts.skip(0) =~= facts);
    while i < blocks.len()
        invariant
            i <= blocks.len(),
            facts == Seq::new(blocks@.len(), |i: int| block_facts(blocks@[i])),
            first_answered(facts) == first_answered(facts.skip(i as int)),
        decreases blocks.len() - i,
    {
        assert(facts.skip(i as int).drop_first() =~= facts.skip(i + 1));
        assert(facts.skip(i as int)[0] == block_facts(blocks@[i as int]));
        if let Some(id) = &blocks[i].tool_use_id {
            return Some(id.clone());
        }
        i = i + 1;
    }
    None
}

proof fn calls_are(
    sites: Map<Seq<char>, Site>,
    f: Facts,
    file: Transcript,
    offset: int,
    n: nat,
    id: Seq<char>,
)
    requires
        n <= f.blocks.len(),
    ensures
        ({
            let after = with_calls(sites, f, file, offset, n);
            let made = exists|i: int|
                0 <= i < n && (#[trigger] f.blocks[i]).kind == Some("tool_use"@) && f.blocks[i].id
                    == Some(id);
            &&& after.dom().contains(id) <==> sites.dom().contains(id) || made
            &&& !made && sites.dom().contains(id) ==> after[id] == sites[id]
            &&& made ==> exists|i: int|
                0 <= i < n && (#[trigger] f.blocks[i]).kind == Some("tool_use"@) && f.blocks[i].id
                    == Some(id) && after[id] == (Site {
                    file: file.path,
                    record_uuid: f.uuid,
                    agent: caller_of(f, file.source),
                    tool_name: f.blocks[i].name,
                    byte_offset: offset,
                }) && (forall|j: int|
                    i < j < n && (#[trigger] f.blocks[j]).kind == Some("tool_use"@)
                        ==> f.blocks[j].id != Some(id))
        }),
    decreases n,
{
    if n > 0 {
        calls_are(sites, f, file, offset, (n - 1) as nat, id);
        let last = f.blocks[n - 1];
        if last.kind == Some("tool_use"@) && last.id == Some(id) {
            assert(0 <= n - 1 < n && f.blocks[n - 1].id == Some(id));
        } else if exists|i: int|
            0 <= i < n - 1 && (#[trigger] f.blocks[i]).kind == Some("tool_use"@) && f.blocks[i].id
                == Some(id) {
            let before = with_calls(sites, f, file, offset, (n - 1) as nat);
            let i = choose|i: int|
                0 <= i < n - 1 && (#[trigger] f.blocks[i]).kind == Some("tool_use"@)
                    && f.blocks[i].id == Some(id) && before[id] == (Site {
                    file: file.path,
                    record_uuid: f.uuid,
                    agent: caller_of(f, file.source),
                    tool_name: f.blocks[i].name,
                    byte_offset: offset,
                }) && (forall|j: int|
                    i < j < n - 1 && (#[trigger] f.blocks[j]).kind == Some("tool_use"@)
                        ==> f.blocks[j].id != Some(id));
            assert(f.blocks[i].id == Some(id));
        }
    }
}

/// A record adds its tool calls to the index and takes none away: a call is found under its
/// id with the file, the record, the tool and the place that it stands at, the last of
/// several in one record.
pub proof fn every_call_is_found_where_it_was_made(
    c: Calls,
    f: Facts,
    file: Transcript,
    offset: int,
    i: int,
)
    requires
        0 <= i < f.blocks.len(),
        f.blocks[i].kind == Some("tool_use"@),
        f.blocks[i].id is Some,
        forall|j: int|
            i < j < f.blocks.len() && (#[trigger] f.blocks[j]).kind == Some("tool_use"@)
                ==> f.blocks[j].id != f.blocks[i].id,
    ensures
        ({
            let after = c.with_record(f, file, offset).sites;
            let id = f.blocks[i].id->0;
            &&& after.dom().contains(id)
            &&& after[id].file == file.path
            &&& after[id].record_uuid == f.uuid
            &&& after[id].tool_name == f.blocks[i].name
            &&& after[id].byte_offset == offset
            &&& f.agent is Some ==> after[id].agent == f.agent
            &&& f.agent is None && !(file.source is Subagent) ==> after[id].agent is None
            &&& f.agent is None ==> (file.source matches Source::Subagent(agent, _)
                ==> after[id].agent == Some(agent))
        }),
{
    let id = f.blocks[i].id->0;
    calls_are(c.sites, f, file, offset, f.blocks.len(), id);
    let after = c.with_record(f, file, offset).sites;
    let k = choose|k: int|
        0 <= k < f.blocks.len() && (#[trigger] f.blocks[k]).kind == Some("tool_use"@)
            && f.blocks[k].id == Some(id) && after[id] == (Site {
            file: file.path,
            record_uuid: f.uuid,
            agent: caller_of(f, file.source),
            tool_name: f.blocks[k].name,
            byte_offset: offset,
        }) && (forall|j: int|
            k < j < f.blocks.len() && (#[trigger] f.blocks[j]).kind == Some("tool_use"@)
                ==> f.blocks[j].id != Some(id));
    if k < i {
        assert(f.blocks[i].id != Some(id));
    } else if i < k {
        assert(f.blocks[k].id != f.blocks[i].id);
    }
}

/// What is not called in a record stays as it was in the index.
pub proof fn other_calls_stay(c: Calls, f: Facts, file: Transcript, offset: int, id: Seq<char>)
    requires
        forall|j: int|
            0 <= j < f.blocks.len() && (#[trigger] f.blocks[j]).kind == Some("tool_use"@)
                ==> f.blocks[j].id != Some(id),
    ensures
        ({
            let after = c.with_record(f, file, offset).sites;
            &&& after.dom().contains(id) <==> c.sites.dom().contains(id)
            &&& c.sites.dom().contains(id) ==> after[id] == c.sites[id]
        }),
{
    calls_are(c.sites, f, file, offset, f.blocks.len(), id);
}

proof fn calls_counted(blocks: Seq<BlockFacts>, n: nat)
    requires
        n <= blocks.len(),
    ensures
        calls_in(blocks, n) == blocks.take(n as int).filter(
            |b: BlockFacts| b.kind == Some("tool_use"@) && b.id is Some,
        ).len(),
    decreases n,
{
    let pred = |b: BlockFacts| b.kind == Some("tool_use"@) && b.id is Some;
    if n == 0 {
        filter_none(blocks, pred);
    } else {
        calls_counted(blocks, (n - 1) as nat);
        filter_step(blocks, pred, n);
    }
}

/// A record's calls are its blocks of type `tool_use` with an id.
pub proof fn a_records_calls_are_counted(blocks: Seq<BlockFacts>)
    ensures
        calls_in(blocks, blocks.len()) == blocks.filter(
            |b: BlockFacts| b.kind == Some("tool_use"@) && b.id is Some,
        ).len(),
{
    take_all(blocks);
    calls_counted(blocks, blocks.len());
}

proof fn first_answered_is(blocks: Seq<BlockFacts>)
    ensures
        match first_answered(blocks) {
            Some(id) => exists|i: int|
                0 <= i < blocks.len() && (#[trigger] blocks[i]).answers == Some(id) && (forall|
                    j: int,
                |
                    0 <= j < i ==> (#[trigger] blocks[j]).answers is None),
            None => forall|j: int| 0 <= j < blocks.len() ==> (#[trigger] blocks[j]).answers is None,
        },
    decreases blocks.len(),
{
    if blocks.len() > 0 {
        let rest = blocks.drop_first();
        first_answered_is(rest);
        if blocks[0].answers is None {
            assert forall|j: int| 0 < j < blocks.len() implies rest[j - 1] == #[trigger] blocks[j] by {}
            if let Some(id) = first_answered(blocks) {
                let i = choose|i: int|
                    0 <= i < rest.len() && (#[trigger] rest[i]).answers == Some(id) && (forall|
                        j: int,
                    |
                        0 <= j < i ==> (#[trigger] rest[j]).answers is None);
                assert(blocks[i + 1].answers == Some(id));
                assert forall|j: int| 0 <= j < i + 1 implies (#[trigger] blocks[j]).answers is None by {
                    if j > 0 {
                        assert(rest[j - 1] == blocks[j]);
                    }
                }
            } else {
                assert forall|j: int| 0 <= j < blocks.len() implies (
                #[trigger] blocks[j]).answers is None by {
                    if j > 0 {
                        assert(rest[j - 1] == blocks[j]);
                    }
                }
            }
        }
    }
}

/// A result that names an agent or a run links it to the call that the record's first
/// answering block answers, else to the record that it names as its source, else to its
/// parent record; nothing else is linked anew.
pub proof fn results_link_back_to_their_calls(
    links: Map<Seq<char>, Seq<char>>,
    f: Facts,
    name: Seq<char>,
    other: Seq<char>,
)
    ensures
        f.result is Some && text_at(member(f.result->0, name)) is Some ==> {
            let started = text_at(member(f.result->0, name))->0;
            &&& forall|i: int|
                0 <= i < f.blocks.len() && (#[trigger] f.blocks[i]).answers is Some && (forall|
                    j: int,
                |
                    0 <= j < i ==> (#[trigger] f.blocks[j]).answers is None) ==> with_link(
                    links,
                    f,
                    name,
                ) == links.insert(started, f.blocks[i].answers->0)
            &&& (forall|j: int| 0 <= j < f.blocks.len() ==> (#[trigger] f.blocks[j]).answers is None)
                ==> match f.source {
                Some(source) => with_link(links, f, name) == links.insert(started, source),
                None => with_link(links, f, name) == links,
            }
        },
        f.result is None || text_at(member(f.result->0, name)) is None ==> with_link(
            links,
            f,
            name,
        ) == links,
{
    first_answered_is(f.blocks);
    if f.result is Some && text_at(member(f.result->0, name)) is Some {
        let started = text_at(member(f.result->0, name))->0;
        assert forall|i: int|
            0 <= i < f.blocks.len() && (#[trigger] f.blocks[i]).answers is Some && (forall|j: int|
                0 <= j < i ==> (#[trigger] f.blocks[j]).answers is None) implies with_link(
            links,
            f,
            name,
        ) == links.insert(started, f.blocks[i].answers->0) by {
            if let Some(id) = first_answered(f.blocks) {
                let k = choose|k: int|
                    0 <= k < f.blocks.len() && (#[trigger] f.blocks[k]).answers == Some(id) && (
                    forall|j: int| 0 <= j < k ==> (#[trigger] f.blocks[j]).answers is None);
                if k < i {
                    assert(f.blocks[k].answers is None);
                } else if i < k {
                    assert(f.blocks[i].answers is None);
                }
            }
        }
    }
}

/// A record of an index is read off the members with the names that it is written with: the
/// agent, the record's own id, the blocks of its message, the result, and the record that
/// the result answers to.
pub proof fn a_lines_facts_are_its_members(t: Option<Tree>)
    ensures
        reading(t) is Threaded ==> {
            let f = facts_on(t);
            let blocks = match at(any_at(at(t, "message"@)), "content"@) {
                Some(Tree::Arr(a)) => if all_blocks(a) {
                    a
                } else {
                    Seq::<Tree>::empty()
                },
                _ => Seq::<Tree>::empty(),
            };
            &&& f.agent == text_at(at(t, "agentId"@))
            &&& f.uuid == text_at(at(t, "uuid"@))
            &&& f.result == any_at(at(t, "toolUseResult"@))
            &&& f.source == match text_at(at(t, "sourceToolAssistantUUID"@)) {
                Some(u) => Some(u),
                None => text_at(at(t, "parentUuid"@)),
            }
            &&& f.blocks.len() == blocks.len()
            &&& forall|i: int|
                0 <= i < blocks.len() && blocks[i] is Obj ==> {
                    &&& (#[trigger] f.blocks[i]).kind == text_at(member(blocks[i], "type"@))
                    &&& f.blocks[i].id == text_at(member(blocks[i], "id"@))
                    &&& f.blocks[i].name == text_at(member(blocks[i], "name"@))
                    &&& f.blocks[i].answers == text_at(member(blocks[i], "tool_use_id"@))
                }
        },
        !(reading(t) is Threaded) ==> facts_on(t).blocks.len() == 0 && facts_on(t).result is None,
{
}

/// The index of some lines with one more is the index of the lines, with the record on the
/// last where it is one.
pub proof fn lines_are_indexed_one_by_one(
    c: Calls,
    lines: Seq<(int, Seq<u8>)>,
    file: Transcript,
    offset: int,
    bytes: Seq<u8>,
)
    ensures
        c.with_lines(Seq::empty(), file) == c,
        ({
            let text = lossy_text(bytes);
            c.with_lines(lines.push((offset, bytes)), file) == if !is_blank(text) && fate(
                line_tree(text),
            ) is Fine {
                c.with_lines(lines, file).with_record(facts_on(line_tree(text)), file, offset)
            } else {
                c.with_lines(lines, file)
            }
        }),
{
    let more = lines.push((offset, bytes));
    assert(more.drop_last() =~= lines);
}

/// What is found behind a link is the call under the id that it links to.
pub proof fn links_lead_to_calls(
    c: Calls,
    links: Map<Seq<char>, Seq<char>>,
    key: Seq<char>,
    id: Seq<char>,
)
    ensures
        links.dom().contains(key) && links[key] == id && c.sites.dom().contains(id) ==> site_behind(
            c,
            links,
            key,
        ) == Some(c.sites[id]),
        !links.dom().contains(key) || !c.sites.dom().contains(links[key]) ==> site_behind(
            c,
            links,
            key,
        ) is None,
{
}

/// A call is shown as its file, its record, its agent, its tool and its place.
pub proof fn calls_are_shown_whole(s: ToolUseSite)
    ensures
        s@.file == s.file@,
        s@.byte_offset == s.byte_offset,
        s.record_uuid is None ==> s@.record_uuid is None,
        s.record_uuid is Some ==> s@.record_uuid == Some(s.record_uuid->0@),
        s.agent is None ==> s@.agent is None,
        s.agent is Some ==> s@.agent == Some(s.agent->0@),
        s.tool_name is None ==> s@.tool_name is None,
        s.tool_name is Some ==> s@.tool_name == Some(s.tool_name->0@),
{
}

} // verus!
