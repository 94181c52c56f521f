//! One line of a transcript: what it is, what is counted, and the event that is
//! handed on for it.
use vstd::prelude::*;
use vstd::string::StrSliceExecFns;

use crate::event::{
    copied_text, owned_text, Cargo, Channel, Event, EventMeta, Happening, Payload, Source,
    TranscriptEvent, TranscriptSource,
};
use crate::folds::{fold_step, same_tests, take_all};
use crate::json::{
    field, json_tree, kept_by, member, members, members_push, opt_text, opt_tree, read_json,
    text_at, tree_of_array, tree_of_object, trees, trees_push, Json, Members, Tree,
};
use crate::record::{
    build_record, kind_of_tag, reading_of, record_fits, record_holds, Reading, Record,
    TranscriptRecordKind,
};
use crate::stats::{seen, total_with, ParseStats, Tally};
use crate::text::{
    chars_of, number_text, numeral, push_text, same_text, text_between, trim, trimmed,
};
use crate::time::{opt_millis, parse_timestamp, stamp_of, WallTime};

verus! {

/// Longest string that a handed-on record may hold, in characters.
pub const MAX_RECORD_STRING: usize = 2048;

/// What reading a line came to.
#[derive(Debug)]
#[allow(inconsistent_fields)]
pub enum LineOutcome {
    /// A record, and the object it was read from.
    Record {
        /// The record.
        record: Box<Record>,
        /// The object.
        raw: Json,
    },
    /// A value that is no record.
    Drift {
        /// Its tag, if it has one.
        raw_type: Option<String>,
        /// The value.
        raw: Json,
    },
    /// Nothing on the line.
    Blank,
    /// No JSON on the line.
    Corrupt,
}

/// What becomes of a parsed line.
pub ghost enum Fate {
    /// No JSON.
    Corrupt,
    /// A value without a tag.
    Untagged,
    /// An object whose tag no shape models.
    Unmodelled(Seq<char>),
    /// An object that does not fit the shape of its tag.
    Misfit(Seq<char>),
    /// A record.
    Fine(Seq<char>),
}

/// What becomes of a line, given what the JSON reader made of it.
pub open spec fn fate(t: Option<Tree>) -> Fate {
    match t {
        Some(Tree::Obj(o)) => match text_at(field(o, "type"@)) {
            None => Fate::Untagged,
            Some(tag) => if !record_fits(kind_of_tag(tag), o) {
                Fate::Misfit(tag)
            } else if kind_of_tag(tag) is Unknown {
                Fate::Unmodelled(tag)
            } else {
                Fate::Fine(tag)
            },
        },
        Some(_) => Fate::Untagged,
        None => Fate::Corrupt,
    }
}

/// The tally after a line that is not blank.
pub open spec fn counted(s: Tally, t: Option<Tree>) -> Tally {
    let noted = match t {
        Some(v) => s.noting(text_at(member(v, "version"@))),
        None => s,
    };
    match fate(t) {
        Fate::Corrupt => Tally { bad_json: s.bad_json + 1, ..s },
        Fate::Untagged => noted.with_unknown("<no type>"@),
        Fate::Unmodelled(tag) => noted.with_unknown(tag),
        Fate::Misfit(_) => Tally { bad_shape: noted.bad_shape + 1, ..noted },
        Fate::Fine(_) => Tally { ok: noted.ok + 1, ..noted },
    }
}

/// The outcome is the one that the line's fate asks for.
pub open spec fn outcome_holds(out: LineOutcome, t: Option<Tree>) -> bool {
    match fate(t) {
        Fate::Corrupt => out is Corrupt,
        Fate::Untagged => out matches LineOutcome::Drift { raw_type, raw } && raw_type is None
            && Some(raw.tree()) == t,
        Fate::Unmodelled(tag) => out matches LineOutcome::Drift { raw_type, raw } && opt_text(
            raw_type,
        ) == Some(tag) && Some(raw.tree()) == t,
        Fate::Misfit(tag) => out matches LineOutcome::Drift { raw_type, raw } && opt_text(raw_type)
            == Some(tag) && Some(raw.tree()) == t,
        Fate::Fine(tag) => out matches LineOutcome::Record { record, raw } && record_holds(
            *record,
            kind_of_tag(tag),
            t->0->Obj_0,
        ) && Some(raw.tree()) == t,
    }
}

/// Every line that is not blank is counted once, whatever it holds.
pub proof fn every_line_counts_once(s: Tally, t: Option<Tree>)
    ensures
        counted(s, t).lines() == s.lines() + 1,
        counted(s, t).blank == s.blank,
        counted(s, t).truncations == s.truncations,
        counted(s, t).oversize_lines == s.oversize_lines,
        counted(s, t).ok == s.ok + if fate(t) is Fine {
            1int
        } else {
            0
        },
{
}

/// Counting a line keeps the counts by type adding up to the count of unmodelled types.
/// No type and no version that was seen is forgotten, and a type that is new is the
/// line's own, or the word for none.
pub proof fn counts_by_type_add_up(s: Tally, t: Option<Tree>)
    requires
        s.adds_up(),
        s.room(1),
    ensures
        counted(s, t).adds_up(),
        forall|k: Seq<char>| #[trigger]
            s.types.dom().contains(k) ==> counted(s, t).types.dom().contains(k)
                && s.types[k] <= counted(s, t).types[k],
        s.versions.subset_of(counted(s, t).versions),
        forall|k: Seq<char>| #[trigger]
            counted(s, t).types.dom().contains(k) && !s.types.dom().contains(k) ==> k
                == match text_at(at(t, "type"@)) {
                Some(tag) => tag,
                None => "<no type>"@,
            },
{
    let key = match text_at(at(t, "type"@)) {
        Some(tag) => tag,
        None => "<no type>"@,
    };
    total_with(s.types, key, (seen(s.types, key) + 1) as u64);
    if s.types.dom().contains(key) {
        assert(s.types[key] + 1 <= u64::MAX);
    }
    assert(s.types.insert(key, (seen(s.types, key) + 1) as u64).dom() =~= s.types.dom().insert(key));
}

/// The same holds of a line of text, blank or not.
pub proof fn counts_by_type_add_up_over_lines(s: Tally, line: Seq<char>)
    requires
        s.adds_up(),
        s.room(1),
    ensures
        tallied(s, line).adds_up(),
        forall|k: Seq<char>| #[trigger]
            s.types.dom().contains(k) ==> tallied(s, line).types.dom().contains(k) && s.types[k]
                <= tallied(s, line).types[k],
        s.versions.subset_of(tallied(s, line).versions),
        forall|k: Seq<char>| #[trigger]
            tallied(s, line).types.dom().contains(k) && !s.types.dom().contains(k) ==> k
                == match text_at(at(line_tree(line), "type"@)) {
                Some(tag) => tag,
                None => "<no type>"@,
            },
{
    counts_by_type_add_up(s, line_tree(line));
}

/// Reads what the JSON reader made of a line, and counts it.
pub fn classify(value: Option<Json>, stats: &mut ParseStats) -> (r: LineOutcome)
    requires
        old(stats).wf(),
        old(stats).room(1),
    ensures
        final(stats).wf(),
        outcome_holds(r, opt_tree(value)),
        final(stats)@ == counted(old(stats)@, opt_tree(value)),
        value is None ==> r is Corrupt && final(stats).bad_json == old(stats).bad_json + 1,
        value matches Some(v) ==> match r {
            LineOutcome::Record { raw, .. } => raw.tree() == v.tree(),
            LineOutcome::Drift { raw_type, raw } => raw.tree() == v.tree() && opt_text(raw_type)
                == text_at(member(v.tree(), "type"@)),
            _ => false,
        },
        value is Some ==> final(stats).bad_json == old(stats).bad_json,
        r is Record ==> final(stats).ok == old(stats).ok + 1,
        !(r is Record) ==> final(stats).ok == old(stats).ok,
        value matches Some(v) && text_at(member(v.tree(), "type"@)) is None ==> (
        r matches LineOutcome::Drift { raw_type, .. } && raw_type is None) && final(stats).unknown_type
            == old(stats).unknown_type + 1,
{
    broadcast use tree_of_object;

    let ghost tree = opt_tree(value);
    let raw: Json = match value {
        Some(v) => v,
        None => {
            stats.bad_json = stats.bad_json + 1;
            return LineOutcome::Corrupt;
        },
    };
    let raw_type: Option<String> = owned_text(raw.text_of("type"));
    if let Some(v) = raw.text_of("version") {
        stats.note_version(v);
    }
    let tag: &str = match &raw_type {
        Some(t) => t.as_str(),
        None => {
            stats.note_unknown("<no type>");
            return LineOutcome::Drift { raw_type, raw };
        },
    };
    let built: Result<Option<Record>, ()> = match &raw {
        Json::Obj(o) => build_record(tag, o),
        _ => Err(()),
    };
    match built {
        Ok(Some(record)) => {
            stats.ok = stats.ok + 1;
            LineOutcome::Record { record: Box::new(record), raw }
        },
        Ok(None) => {
            stats.note_unknown(tag);
            LineOutcome::Drift { raw_type, raw }
        },
        Err(_) => {
            stats.bad_shape = stats.bad_shape + 1;
            LineOutcome::Drift { raw_type, raw }
        },
    }
}

/// Is there nothing but white space on the line?
pub open spec fn is_blank(line: Seq<char>) -> bool {
    trim(line).len() == 0
}

/// The value that the JSON reader finds on a line.
pub open spec fn line_tree(line: Seq<char>) -> Option<Tree> {
    json_tree(trim(line))
}

/// The tally after a line.
pub open spec fn tallied(s: Tally, line: Seq<char>) -> Tally {
    if is_blank(line) {
        Tally { blank: s.blank + 1, ..s }
    } else {
        counted(s, line_tree(line))
    }
}

/// One line takes up at most one step of any counter.
pub proof fn tallied_room(s: Tally, line: Seq<char>, n: int)
    requires
        s.room(n),
        1 <= n <= u64::MAX,
    ensures
        tallied(s, line).room(n - 1),
        s.types.dom().subset_of(tallied(s, line).types.dom()),
{
    let after = tallied(s, line);
    assert forall|k: Seq<char>| #[trigger] after.types.dom().contains(k) implies after.types[k] + (n
        - 1) <= u64::MAX by {
        if s.types.dom().contains(k) {
            assert(s.types[k] + n <= u64::MAX);
        }
    }
}

/// Reads one line, and counts it.
pub fn parse_line(line: &str, stats: &mut ParseStats) -> (r: LineOutcome)
    requires
        old(stats).wf(),
        old(stats).room(1),
    ensures
        final(stats).wf(),
        final(stats)@ == tallied(old(stats)@, line@),
        final(stats)@.lines() == old(stats)@.lines() + 1,
        old(stats)@.adds_up() ==> final(stats)@.adds_up(),
        is_blank(line@) ==> r is Blank,
        !is_blank(line@) ==> outcome_holds(r, line_tree(line@)),
{
    proof {
        if stats@.adds_up() {
            counts_by_type_add_up_over_lines(stats@, line@);
        }
        every_line_counts_once(stats@, line_tree(line@));
    }
    let text: String = trimmed(line);
    if text.as_str().is_empty() {
        stats.blank = stats.blank + 1;
        return LineOutcome::Blank;
    }
    classify(read_json(text.as_str()), stats)
}

/// How many lines a text has: a line break ends one, and what follows the last
/// break is one more unless nothing does.
pub open spec fn line_count(s: Seq<char>) -> nat
    decreases s.len(),
{
    if s.len() == 0 {
        0
    } else if s.last() == '\n' || s.len() == 1 || s[s.len() - 2] == '\n' {
        line_count(s.drop_last()) + if s.last() == '\n' && s.len() > 1 && s[s.len() - 2] != '\n' {
            0nat
        } else {
            1nat
        }
    } else {
        line_count(s.drop_last())
    }
}

fn count_lines(chars: &Vec<char>) -> (r: usize)
    ensures
        r == line_count(chars@),
        r <= chars.len(),
{
    let mut n: usize = 0;
    let mut i: usize = 0;
    assert(chars@.subrange(0, 0).len() == 0);
    while i < chars.len()
        invariant
            i <= chars.len(),
            n == line_count(chars@.subrange(0, i as int)),
            n <= i,
        decreases chars.len() - i,
    {
        let ghost s = chars@.subrange(0, i + 1);
        assert(s.drop_last() =~= chars@.subrange(0, i as int));
        let fresh: bool = i == 0 || chars[i - 1] == '\n';
        if fresh {
            n = n + 1;
        }
        i = i + 1;
    }
    assert(chars@.subrange(0, i as int) =~= chars@);
    n
}

/// What stands in for the part of a string that was left out.
pub open spec fn elision_note(s: Seq<char>, max: nat) -> Seq<char> {
    "…["@ + numeral((s.len() - max) as nat, 10) + " chars, "@ + numeral(line_count(s), 10)
        + " lines elided]"@
}

/// A string no longer than `max` as it is; of a longer one the first `max`
/// characters and a note on the rest.
pub open spec fn shortened(s: Seq<char>, max: nat) -> Seq<char> {
    if s.len() <= max {
        s
    } else {
        s.take(max as int) + elision_note(s, max)
    }
}

/// A value with every string in it shortened. Member names stay.
pub open spec fn elided(t: Tree, max: nat) -> Tree
    decreases t,
{
    match t {
        Tree::Str(s) => Tree::Str(shortened(s, max)),
        Tree::Arr(a) => Tree::Arr(
            Seq::new(
                a.len(),
                |i: int|
                    if 0 <= i < a.len() {
                        elided(a[i], max)
                    } else {
                        Tree::Null
                    },
            ),
        ),
        Tree::Obj(o) => Tree::Obj(
            Seq::new(
                o.len(),
                |i: int|
                    if 0 <= i < o.len() {
                        (o[i].0, elided(o[i].1, max))
                    } else {
                        (seq![], Tree::Null)
                    },
            ),
        ),
        _ => t,
    }
}

/// How many strings in a value are longer than `max`.
pub open spec fn long_strings(t: Tree, max: nat) -> nat
    decreases t, 0nat,
{
    match t {
        Tree::Str(s) => if s.len() > max {
            1
        } else {
            0
        },
        Tree::Arr(a) => long_in_items(a, a.len(), max),
        Tree::Obj(o) => long_in_members(o, o.len(), max),
        _ => 0,
    }
}

/// How many strings in the first `n` items are longer than `max`.
pub open spec fn long_in_items(a: Seq<Tree>, n: nat, max: nat) -> nat
    decreases a, n,
{
    if n == 0 || n > a.len() {
        0
    } else {
        long_in_items(a, (n - 1) as nat, max) + long_strings(a[n - 1], max)
    }
}

/// How many strings in the first `n` members are longer than `max`.
pub open spec fn long_in_members(o: Members, n: nat, max: nat) -> nat
    decreases o, n,
{
    if n == 0 || n > o.len() {
        0
    } else {
        long_in_members(o, (n - 1) as nat, max) + long_strings(o[n - 1].1, max)
    }
}

proof fn long_in_items_grows(a: Seq<Tree>, n: nat, m: nat, max: nat)
    requires
        n <= m <= a.len(),
    ensures
        long_in_items(a, n, max) <= long_in_items(a, m, max),
    decreases m,
{
    if n < m {
        long_in_items_grows(a, n, (m - 1) as nat, max);
    }
}

proof fn long_in_members_grows(o: Members, n: nat, m: nat, max: nat)
    requires
        n <= m <= o.len(),
    ensures
        long_in_members(o, n, max) <= long_in_members(o, m, max),
    decreases m,
{
    if n < m {
        long_in_members_grows(o, n, (m - 1) as nat, max);
    }
}

/// A value with every string in it shortened.
pub fn shorten(value: &Json, max_chars: usize) -> (r: Json)
    ensures
        r.tree() == elided(value.tree(), max_chars as nat),
    decreases value,
{
    broadcast use {tree_of_array, tree_of_object, trees_push, members_push};

    let ghost max = max_chars as nat;
    match value {
        Json::Str(s) => {
            let chars: Vec<char> = chars_of(s.as_str());
            if chars.len() <= max_chars {
                return Json::Str(s.clone());
            }
            let lines: usize = count_lines(&chars);
            let gone: usize = chars.len() - max_chars;
            let mut out: String = text_between(&chars, 0, max_chars);
            push_text(&mut out, "…[");
            push_text(&mut out, number_text(gone as u64, 10).as_str());
            push_text(&mut out, " chars, ");
            push_text(&mut out, number_text(lines as u64, 10).as_str());
            push_text(&mut out, " lines elided]");
            assert(out@ =~= shortened(s@, max));
            Json::Str(out)
        },
        Json::Arr(v) => {
            let ghost a = trees(v@);
            assert(value.tree() == Tree::Arr(a));
            let mut out: Vec<Json> = Vec::new();
            let mut i: usize = 0;
            while i < v.len()
                invariant
                    value is Arr && value->Arr_0 == *v,
                    a == trees(v@),
                    max == max_chars,
                    i <= v.len(),
                    out.len() == i,
                    forall|k: int| 0 <= k < i ==> (#[trigger] out@[k]).tree() == elided(a[k], max),
                decreases v.len() - i,
            {
                assert(decreases_to!(*value => value->Arr_0));
                assert(decreases_to!(*v => v[i as int]));
                proof {
                    assert(a[i as int] == v@[i as int].tree());
                }
                let item: Json = shorten(&v[i], max_chars);
                out.push(item);
                i = i + 1;
            }
            assert(trees(out@) =~= elided(Tree::Arr(a), max)->Arr_0);
            Json::Arr(out)
        },
        Json::Obj(v) => {
            let ghost o = members(v@);
            assert(value.tree() == Tree::Obj(o));
            let mut out: Vec<(String, Json)> = Vec::new();
            let mut i: usize = 0;
            while i < v.len()
                invariant
                    value is Obj && value->Obj_0 == *v,
                    o == members(v@),
                    max == max_chars,
                    i <= v.len(),
                    out.len() == i,
                    forall|k: int|
                        0 <= k < i ==> (#[trigger] out@[k]).0@ == o[k].0 && out@[k].1.tree()
                            == elided(o[k].1, max),
                decreases v.len() - i,
            {
                assert(decreases_to!(*value => value->Obj_0));
                assert(decreases_to!(*v => v[i as int]));
                proof {
                    assert(o[i as int] == (v@[i as int].0@, v@[i as int].1.tree()));
                }
                let item: Json = shorten(&v[i].1, max_chars);
                out.push((v[i].0.clone(), item));
                i = i + 1;
            }
            assert(members(out@) =~= elided(Tree::Obj(o), max)->Obj_0);
            Json::Obj(out)
        },
        _ => value.copied(),
    }
}

/// How many strings in a value are longer than `max_chars`.
pub fn count_long(value: &Json, max_chars: usize) -> (r: u32)
    requires
        long_strings(value.tree(), max_chars as nat) <= u32::MAX,
    ensures
        r == long_strings(value.tree(), max_chars as nat),
    decreases value,
{
    broadcast use {tree_of_array, tree_of_object};

    let ghost max = max_chars as nat;
    match value {
        Json::Str(s) => if s.as_str().unicode_len() > max_chars {
            1
        } else {
            0
        },
        Json::Arr(v) => {
            let ghost a = trees(v@);
            assert(value.tree() == Tree::Arr(a));
            let mut n: u32 = 0;
            let mut i: usize = 0;
            while i < v.len()
                invariant
                    value is Arr && value->Arr_0 == *v,
                    a == trees(v@),
                    max == max_chars,
                    i <= v.len(),
                    n == long_in_items(a, i as nat, max),
                    long_in_items(a, a.len(), max) <= u32::MAX,
                decreases v.len() - i,
            {
                assert(decreases_to!(*value => value->Arr_0));
                assert(decreases_to!(*v => v[i as int]));
                proof {
                    long_in_items_grows(a, (i + 1) as nat, a.len(), max);
                    assert(a[i as int] == v@[i as int].tree());
                }
                n = n + count_long(&v[i], max_chars);
                i = i + 1;
            }
            n
        },
        Json::Obj(v) => {
            let ghost o = members(v@);
            assert(value.tree() == Tree::Obj(o));
            let mut n: u32 = 0;
            let mut i: usize = 0;
            while i < v.len()
                invariant
                    value is Obj && value->Obj_0 == *v,
                    o == members(v@),
                    max == max_chars,
                    i <= v.len(),
                    n == long_in_members(o, i as nat, max),
                    long_in_members(o, o.len(), max) <= u32::MAX,
                decreases v.len() - i,
            {
                assert(decreases_to!(*value => value->Obj_0));
                assert(decreases_to!(*v => v[i as int]));
                proof {
                    long_in_members_grows(o, (i + 1) as nat, o.len(), max);
                    assert(o[i as int] == (v@[i as int].0@, v@[i as int].1.tree()));
                }
                n = n + count_long(&v[i].1, max_chars);
                i = i + 1;
            }
            n
        },
        _ => 0,
    }
}

/// Shortens every string in a value, and says how many were too long.
pub fn elide_long_strings(value: &mut Json, max_chars: usize) -> (r: u32)
    requires
        long_strings(old(value).tree(), max_chars as nat) <= u32::MAX,
    ensures
        final(value).tree() == elided(old(value).tree(), max_chars as nat),
        r == long_strings(old(value).tree(), max_chars as nat),
{
    let n: u32 = count_long(value, max_chars);
    let out: Json = shorten(value, max_chars);
    *value = out;
    n
}

/// Is a member of this name one that identifies the operator?
pub open spec fn is_personal(key: Seq<char>) -> bool {
    key == "ownerAccountUuid"@ || key == "ownerOrganizationUuid"@ || key == "user.email"@ || key
        == "user.account_uuid"@ || key == "user.account_id"@
}

fn personal(key: &str) -> (r: bool)
    ensures
        r == is_personal(key@),
{
    same_text(key, "ownerAccountUuid") || same_text(key, "ownerOrganizationUuid") || same_text(
        key,
        "user.email",
    ) || same_text(key, "user.account_uuid") || same_text(key, "user.account_id")
}

/// An object without the members that identify the operator; anything else as
/// it is.
pub open spec fn scrubbed(t: Tree) -> Tree {
    match t {
        Tree::Obj(o) => Tree::Obj(kept_by(o, |key: Seq<char>| !is_personal(key))),
        _ => t,
    }
}

/// Takes the members that identify the operator out of an object.
pub fn scrub_pii(raw: &mut Json)
    ensures
        final(raw).tree() == scrubbed(old(raw).tree()),
{
    broadcast use {tree_of_object, members_push};

    let ghost keep = |key: Seq<char>| !is_personal(key);
    let kept: Vec<(String, Json)> = match raw {
        Json::Obj(o) => {
            let mut out: Vec<(String, Json)> = Vec::new();
            let mut i: usize = 0;
            assert(members(out@) =~= kept_by(members(o@).subrange(0, 0), keep));
            while i < o.len()
                invariant
                    i <= o.len(),
                    keep == (|key: Seq<char>| !is_personal(key)),
                    members(out@) == kept_by(members(o@).subrange(0, i as int), keep),
                decreases o.len() - i,
            {
                assert(members(o@).subrange(0, i + 1).drop_last() =~= members(o@).subrange(
                    0,
                    i as int,
                ));
                if !personal(o[i].0.as_str()) {
                    let ghost before = out@;
                    let name: String = o[i].0.clone();
                    let value: Json = o[i].1.copied();
                    out.push((name, value));
                    assert(out@ == before.push((name, value)));
                }
                i = i + 1;
            }
            assert(members(o@).subrange(0, i as int) =~= members(o@));
            out
        },
        _ => {
            return;
        },
    };
    *raw = Json::Obj(kept);
}

/// The value at a name of a parsed object.
pub open spec fn at(t: Option<Tree>, key: Seq<char>) -> Option<Tree> {
    match t {
        Some(v) => member(v, key),
        None => None,
    }
}

/// How a line that became a record is read.
pub open spec fn reading(t: Option<Tree>) -> Reading {
    match fate(t) {
        Fate::Fine(tag) => reading_of(kind_of_tag(tag)),
        _ => Reading::Nothing,
    }
}

/// The kind that an event gives a line.
pub open spec fn event_kind(t: Option<Tree>) -> TranscriptRecordKind {
    match fate(t) {
        Fate::Fine(tag) => kind_of_tag(tag),
        _ => TranscriptRecordKind::Unknown,
    }
}

/// The moment that a line gives for itself. A journal entry gives none.
pub open spec fn event_wall(t: Option<Tree>) -> Option<int> {
    if reading(t) is Journal {
        None
    } else {
        match text_at(at(t, "timestamp"@)) {
            Some(s) => stamp_of(s),
            None => None,
        }
    }
}

/// The session that a line names. A journal entry names none.
pub open spec fn event_session(t: Option<Tree>) -> Option<Seq<char>> {
    if reading(t) is Journal {
        None
    } else {
        text_at(at(t, "sessionId"@))
    }
}

/// The agent that a record names, or else the one whose transcript it is in.
/// A line that is no record has none.
pub open spec fn event_worker(t: Option<Tree>, source: Source) -> Option<Seq<char>> {
    let named = match reading(t) {
        Reading::Threaded => text_at(at(t, "agentId"@)),
        Reading::Journal => text_at(at(t, "agentId"@)),
        _ => None,
    };
    if !(fate(t) is Fine) {
        None
    } else if named is Some {
        named
    } else {
        match source {
            Source::Subagent(agent, _) => Some(agent),
            _ => None,
        }
    }
}

/// What a record of the thread says at a name; nothing for any other line.
pub open spec fn threaded_text(t: Option<Tree>, key: Seq<char>) -> Option<Seq<char>> {
    if reading(t) is Threaded {
        text_at(at(t, key))
    } else {
        None
    }
}

/// The event that is handed on for a line, given what the JSON reader made of
/// it: none unless it is JSON.
pub open spec fn line_event(
    t: Option<Tree>,
    source: Source,
    offset: int,
    observed: int,
) -> Option<Happening> {
    match t {
        Some(v) => Some(
            Happening {
                session: event_session(t),
                thread: event_session(t),
                worker: event_worker(t, source),
                agent_type: threaded_text(t, "attributionAgent"@),
                prompt: threaded_text(t, "promptId"@),
                observed,
                channel: Channel::Transcript,
                cargo: Cargo::Record(
                    event_kind(t),
                    source,
                    offset,
                    elided(scrubbed(v), MAX_RECORD_STRING as nat),
                ),
            },
        ),
        None => None,
    }
}

/// The event that is handed on for a line.
pub open spec fn text_event(
    line: Seq<char>,
    source: Source,
    offset: int,
    observed: int,
) -> Option<Happening> {
    if is_blank(line) {
        None
    } else {
        line_event(line_tree(line), source, offset, observed)
    }
}

/// An optional event with its moment, as mathematics.
pub open spec fn event_view(r: Option<(Event, Option<WallTime>)>) -> Option<Happening> {
    match r {
        Some(p) => Some(p.0@),
        None => None,
    }
}

/// What an event says about itself, for a record in a transcript.
pub fn meta_for(record: &Record, source: &TranscriptSource, observed: i64) -> (r: EventMeta)
    ensures
        opt_text(r.session) == record.named_session(),
        opt_text(r.thread) == record.named_session(),
        opt_text(r.worker) == if record.named_agent() is Some {
            record.named_agent()
        } else {
            match source@ {
                Source::Subagent(agent, _) => Some(agent),
                _ => None,
            }
        },
        opt_text(r.agent_type) == match record.spec_threaded() {
            Some(t) => opt_text(t.attribution_agent),
            None => None,
        },
        opt_text(r.prompt) == match record.spec_threaded() {
            Some(t) => opt_text(t.prompt_id),
            None => None,
        },
        r.observed == observed,
{
    let worker: Option<String> = match record.agent_id() {
        Some(a) => Some(a.to_owned()),
        None => match source {
            TranscriptSource::Subagent { agent, .. } => Some(agent.clone()),
            _ => None,
        },
    };
    let agent_type: Option<String> = match record.threaded() {
        Some(t) => copied_text(&t.attribution_agent),
        None => None,
    };
    EventMeta {
        channel: Channel::Transcript,
        session: owned_text(record.session_id()),
        thread: owned_text(record.session_id()),
        worker,
        agent_type,
        prompt: owned_text(record.prompt_id()),
        observed,
    }
}

fn outcome_event(
    outcome: LineOutcome,
    source: &TranscriptSource,
    byte_offset: u64,
    observed: i64,
    Ghost(t): Ghost<Option<Tree>>,
) -> (r: Option<(Event, Option<WallTime>)>)
    requires
        outcome is Blank || outcome_holds(outcome, t),
    ensures
        outcome is Blank ==> r is None,
        !(outcome is Blank) ==> event_view(r) == line_event(
            t,
            source@,
            byte_offset as int,
            observed as int,
        ),
        r matches Some(p) ==> opt_millis(p.1) == event_wall(t),
{
    broadcast use tree_of_object;

    let (kind, raw, wall, meta) = match outcome {
        LineOutcome::Record { record, raw } => {
            let wall: Option<WallTime> = match record.timestamp() {
                Some(s) => parse_timestamp(s),
                None => None,
            };
            let meta: EventMeta = meta_for(&record, source, observed);
            (record.kind(), raw, wall, meta)
        },
        LineOutcome::Drift { raw, .. } => {
            let wall: Option<WallTime> = match raw.text_of("timestamp") {
                Some(s) => parse_timestamp(s),
                None => None,
            };
            let meta: EventMeta = EventMeta {
                channel: Channel::Transcript,
                session: owned_text(raw.text_of("sessionId")),
                thread: owned_text(raw.text_of("sessionId")),
                worker: None,
                agent_type: None,
                prompt: None,
                observed,
            };
            (TranscriptRecordKind::Unknown, raw, wall, meta)
        },
        LineOutcome::Blank => return None,
        LineOutcome::Corrupt => return None,
    };
    let mut record: Json = raw;
    scrub_pii(&mut record);
    let record: Json = shorten(&record, MAX_RECORD_STRING);
    let event: Event = Event {
        meta,
        payload: Payload::Transcript(
            Box::new(TranscriptEvent { kind, source: source.copied(), byte_offset, record }),
        ),
    };
    Some((event, wall))
}

/// Counts what the JSON reader made of a line, and gives the event for it with
/// the moment that the line gives for itself.
pub fn value_event(
    value: Option<Json>,
    source: &TranscriptSource,
    byte_offset: u64,
    observed: i64,
    stats: &mut ParseStats,
) -> (r: Option<(Event, Option<WallTime>)>)
    requires
        old(stats).wf(),
        old(stats).room(1),
    ensures
        final(stats).wf(),
        final(stats)@ == counted(old(stats)@, opt_tree(value)),
        event_view(r) == line_event(
            opt_tree(value),
            source@,
            byte_offset as int,
            observed as int,
        ),
        r matches Some(p) ==> opt_millis(p.1) == event_wall(opt_tree(value)),
{
    let ghost tree = opt_tree(value);
    let outcome: LineOutcome = classify(value, stats);
    outcome_event(outcome, source, byte_offset, observed, Ghost(tree))
}

/// Reads one line, counts it, and gives the event for it with the moment that
/// the line gives for itself.
pub fn transcript_line_parts(
    line: &str,
    source: &TranscriptSource,
    byte_offset: u64,
    observed: i64,
    stats: &mut ParseStats,
) -> (r: Option<(Event, Option<WallTime>)>)
    requires
        old(stats).wf(),
        old(stats).room(1),
    ensures
        final(stats).wf(),
        final(stats)@ == tallied(old(stats)@, line@),
        event_view(r) == text_event(line@, source@, byte_offset as int, observed as int),
        r matches Some(p) ==> opt_millis(p.1) == event_wall(line_tree(line@)),
{
    let outcome: LineOutcome = parse_line(line, stats);
    outcome_event(outcome, source, byte_offset, observed, Ghost(line_tree(line@)))
}

/// The event for one line on its own.
pub fn transcript_line(
    line: &str,
    source: &TranscriptSource,
    byte_offset: u64,
    observed: i64,
) -> (r: Option<Event>)
    ensures
        match r {
            Some(e) => Some(e@),
            None => None,
        } == text_event(line@, source@, byte_offset as int, observed as int),
{
    let mut stats: ParseStats = ParseStats::new();
    match transcript_line_parts(line, source, byte_offset, observed, &mut stats) {
        Some((event, _)) => Some(event),
        None => None,
    }
}

proof fn kept_has_only_kept(o: Members, keep: spec_fn(Seq<char>) -> bool, key: Seq<char>)
    requires
        !keep(key),
    ensures
        field(kept_by(o, keep), key) is None,
    decreases o.len(),
{
    if o.len() > 0 {
        kept_has_only_kept(o.drop_last(), keep, key);
        if keep(o.last().0) {
            field_push(kept_by(o.drop_last(), keep), o.last(), key);
        }
    }
}

proof fn field_push(o: Members, m: (Seq<char>, Tree), key: Seq<char>)
    ensures
        field(o.push(m), key) == match field(o, key) {
            Some(t) => Some(t),
            None => if m.0 == key {
                Some(m.1)
            } else {
                None
            },
        },
    decreases o.len(),
{
    if o.len() == 0 {
        assert(o.push(m).drop_first() =~= o);
        assert(field(o.push(m).drop_first(), key) is None);
    } else {
        field_push(o.drop_first(), m, key);
        assert(o.push(m).drop_first() =~= o.drop_first().push(m));
    }
}

proof fn kept_keeps(o: Members, keep: spec_fn(Seq<char>) -> bool, key: Seq<char>)
    requires
        keep(key),
    ensures
        field(kept_by(o, keep), key) == field(o, key),
    decreases o.len(),
{
    if o.len() > 0 {
        kept_keeps(o.drop_last(), keep, key);
        field_push(o.drop_last(), o.last(), key);
        assert(o.drop_last().push(o.last()) =~= o);
        if keep(o.last().0) {
            field_push(kept_by(o.drop_last(), keep), o.last(), key);
        }
    }
}

/// Scrubbing takes every member that identifies the operator, and no other.
pub proof fn scrubbing_takes_only_what_identifies(t: Tree, key: Seq<char>)
    requires
        t is Obj,
    ensures
        is_personal(key) ==> member(scrubbed(t), key) is None,
        !is_personal(key) ==> member(scrubbed(t), key) == member(t, key),
{
    let keep = |k: Seq<char>| !is_personal(k);
    let o = t->Obj_0;
    if is_personal(key) {
        kept_has_only_kept(o, keep, key);
    } else {
        kept_keeps(o, keep, key);
    }
}

proof fn elided_members(o: Members, max: nat, key: Seq<char>, n: int)
    requires
        0 <= n <= o.len(),
    ensures
        ({
            let after = elided(Tree::Obj(o), max)->Obj_0;
            field(after.skip(n), key) == match field(o.skip(n), key) {
                Some(v) => Some(elided(v, max)),
                None => None,
            }
        }),
    decreases o.len() - n,
{
    let after = elided(Tree::Obj(o), max)->Obj_0;
    if n < o.len() {
        elided_members(o, max, key, n + 1);
        assert(after.skip(n).drop_first() =~= after.skip(n + 1));
        assert(o.skip(n).drop_first() =~= o.skip(n + 1));
        assert(after.skip(n)[0] == (o[n].0, elided(o[n].1, max)));
    }
}

/// Shortening the strings of an object leaves every member where it is.
pub proof fn eliding_keeps_members(o: Members, max: nat, key: Seq<char>)
    ensures
        member(elided(Tree::Obj(o), max), key) == match field(o, key) {
            Some(v) => Some(elided(v, max)),
            None => None,
        },
{
    elided_members(o, max, key, 0);
    assert(o.skip(0) =~= o);
    assert(elided(Tree::Obj(o), max)->Obj_0.skip(0) =~= elided(Tree::Obj(o), max)->Obj_0);
}

/// No event carries a member that identifies the operator.
pub proof fn events_carry_no_account_identifier(
    t: Option<Tree>,
    source: Source,
    offset: int,
    observed: int,
    key: Seq<char>,
)
    requires
        is_personal(key),
    ensures
        line_event(t, source, offset, observed) matches Some(h) ==> (h.cargo matches Cargo::Record(
            _,
            _,
            _,
            record,
        ) && member(record, key) is None),
{
    match t {
        Some(Tree::Obj(o)) => {
            scrubbing_takes_only_what_identifies(Tree::Obj(o), key);
            eliding_keeps_members(
                scrubbed(Tree::Obj(o))->Obj_0,
                MAX_RECORD_STRING as nat,
                key,
            );
        },
        _ => {},
    }
}

/// A string that is not too long is left alone; of one that is, the beginning
/// stays and the note behind it tells how much is gone.
pub proof fn shortening_keeps_the_beginning(s: Seq<char>, max: nat)
    ensures
        s.len() <= max ==> shortened(s, max) == s,
        s.len() > max ==> shortened(s, max).len() > max && shortened(s, max).take(max as int)
            == s.take(max as int) && shortened(s, max).skip(max as int) == elision_note(s, max),
{
    if s.len() > max {
        assert(s.take(max as int).len() == max);
        reveal_strlit("…[");
        assert(elision_note(s, max).len() > 0);
        assert(shortened(s, max).take(max as int) =~= s.take(max as int));
        assert(shortened(s, max).skip(max as int) =~= elision_note(s, max));
    }
}

/// A value without a string that is too long is left as it is.
pub proof fn eliding_leaves_short_values(t: Tree, max: nat)
    requires
        long_strings(t, max) == 0,
    ensures
        elided(t, max) == t,
    decreases t,
{
    match t {
        Tree::Arr(a) => {
            assert forall|i: int| 0 <= i < a.len() implies elided(#[trigger] a[i], max)
                == a[i] by {
                long_in_items_grows(a, (i + 1) as nat, a.len(), max);
                eliding_leaves_short_values(a[i], max);
            }
            assert(elided(t, max)->Arr_0 =~= a);
        },
        Tree::Obj(o) => {
            assert forall|i: int| 0 <= i < o.len() implies elided((#[trigger] o[i]).1, max)
                == o[i].1 by {
                long_in_members_grows(o, (i + 1) as nat, o.len(), max);
                assert(decreases_to!(o => o[i]));
                eliding_leaves_short_values(o[i].1, max);
            }
            assert(elided(t, max)->Obj_0 =~= o);
        },
        _ => {},
    }
}

/// A step into a value: to an item of an array, or to the value of a member of an object.
pub ghost enum Step {
    Item(int),
    Member(int),
}

/// What stands at the end of some steps into a value.
pub open spec fn reached(t: Tree, steps: Seq<Step>) -> Option<Tree>
    decreases steps.len(),
{
    if steps.len() == 0 {
        Some(t)
    } else {
        match (steps[0], t) {
            (Step::Item(i), Tree::Arr(a)) => if 0 <= i < a.len() {
                reached(a[i], steps.drop_first())
            } else {
                None
            },
            (Step::Member(i), Tree::Obj(o)) => if 0 <= i < o.len() {
                reached(o[i].1, steps.drop_first())
            } else {
                None
            },
            _ => None,
        }
    }
}

/// Shortening reaches every string of a value, however deep in arrays and objects it stands:
/// what stood there is there still, shortened if it is a string, and as it was if it is a
/// number, a truth value or nothing; and there is nothing else.
pub proof fn shortening_reaches_every_string(t: Tree, max: nat, steps: Seq<Step>)
    ensures
        reached(t, steps) is Some <==> reached(elided(t, max), steps) is Some,
        reached(t, steps) matches Some(leaf) ==> match leaf {
            Tree::Str(s) => reached(elided(t, max), steps) == Some(Tree::Str(shortened(s, max))),
            Tree::Arr(a) => reached(elided(t, max), steps) matches Some(Tree::Arr(b)) && b.len()
                == a.len(),
            Tree::Obj(o) => reached(elided(t, max), steps) matches Some(Tree::Obj(p)) && p.len()
                == o.len() && forall|i: int| 0 <= i < o.len() ==> (#[trigger] p[i]).0 == o[i].0,
            _ => reached(elided(t, max), steps) == Some(leaf),
        },
    decreases steps.len(),
{
    let e = elided(t, max);
    if steps.len() > 0 {
        match (steps[0], t) {
            (Step::Item(i), Tree::Arr(a)) => {
                if 0 <= i < a.len() {
                    assert(e->Arr_0[i] == elided(a[i], max));
                    shortening_reaches_every_string(a[i], max, steps.drop_first());
                }
            },
            (Step::Member(i), Tree::Obj(o)) => {
                if 0 <= i < o.len() {
                    assert(e->Obj_0[i] == (o[i].0, elided(o[i].1, max)));
                    shortening_reaches_every_string(o[i].1, max, steps.drop_first());
                }
            },
            _ => {},
        }
    }
}

/// An array is shortened item by item and an object member by member.
pub proof fn shortening_goes_item_by_item(t: Tree, max: nat)
    ensures
        match t {
            Tree::Str(s) => elided(t, max) == Tree::Str(shortened(s, max)),
            Tree::Arr(a) => elided(t, max) matches Tree::Arr(b) && b.len() == a.len() && forall|
                i: int,
            |
                0 <= i < a.len() ==> #[trigger] b[i] == elided(a[i], max),
            Tree::Obj(o) => elided(t, max) matches Tree::Obj(p) && p.len() == o.len() && forall|
                i: int,
            |
                0 <= i < o.len() ==> #[trigger] p[i] == (o[i].0, elided(o[i].1, max)),
            _ => elided(t, max) == t,
        },
{
}

proof fn lines_upto(s: Seq<char>)
    ensures
        line_count(s) == s.filter(|c: char| c == '\n').len() + if s.len() > 0 && s.last() != '\n' {
            1int
        } else {
            0int
        },
    decreases s.len(),
{
    reveal(Seq::filter);
    if s.len() > 0 {
        let rest = s.drop_last();
        lines_upto(rest);
        if s.len() > 1 {
            assert(rest.last() == s[s.len() - 2]);
        }
    }
}

/// A string is cut behind its first characters, as many as are allowed, and the note behind
/// them says how many characters are gone and how many lines the string had: one for each
/// line break, and one for what follows the last.
pub proof fn a_cut_string_says_what_is_gone(s: Seq<char>, max: nat)
    ensures
        s.len() <= max ==> shortened(s, max) == s,
        s.len() > max ==> ({
            let lines = s.filter(|c: char| c == '\n').len() + if s.last() != '\n' {
                1int
            } else {
                0int
            };
            shortened(s, max) == s.take(max as int) + ("…["@ + numeral((s.len() - max) as nat, 10)
                + " chars, "@ + numeral(lines as nat, 10) + " lines elided]"@)
        }),
{
    lines_upto(s);
}

proof fn long_items_add_up(a: Seq<Tree>, n: nat, max: nat)
    requires
        n <= a.len(),
    ensures
        long_in_items(a, n, max) == a.take(n as int).fold_left(
            0int,
            |sum: int, t: Tree| sum + long_strings(t, max),
        ),
    decreases n,
{
    let f = |sum: int, t: Tree| sum + long_strings(t, max);
    if n > 0 {
        long_items_add_up(a, (n - 1) as nat, max);
        fold_step(a, 0int, f, n);
    }
}

proof fn long_members_add_up(o: Members, n: nat, max: nat)
    requires
        n <= o.len(),
    ensures
        long_in_members(o, n, max) == o.take(n as int).fold_left(
            0int,
            |sum: int, m: (Seq<char>, Tree)| sum + long_strings(m.1, max),
        ),
    decreases n,
{
    let f = |sum: int, m: (Seq<char>, Tree)| sum + long_strings(m.1, max);
    if n > 0 {
        long_members_add_up(o, (n - 1) as nat, max);
        fold_step(o, 0int, f, n);
    }
}

/// Every string that is too long is counted, wherever it stands.
pub proof fn long_strings_are_counted_everywhere(t: Tree, max: nat)
    ensures
        long_strings(t, max) == match t {
            Tree::Str(s) => if s.len() > max {
                1int
            } else {
                0int
            },
            Tree::Arr(a) => a.fold_left(0int, |sum: int, t: Tree| sum + long_strings(t, max)),
            Tree::Obj(o) => o.fold_left(
                0int,
                |sum: int, m: (Seq<char>, Tree)| sum + long_strings(m.1, max),
            ),
            _ => 0int,
        },
{
    match t {
        Tree::Arr(a) => {
            take_all(a);
            long_items_add_up(a, a.len(), max);
        },
        Tree::Obj(o) => {
            take_all(o);
            long_members_add_up(o, o.len(), max);
        },
        _ => {},
    }
}

/// Scrubbing leaves out the members that name the operator's account, and no others; what is
/// no object stays as it is.
pub proof fn scrubbing_leaves_out_the_account(t: Tree)
    ensures
        t matches Tree::Obj(o) ==> scrubbed(t) == Tree::Obj(
            o.filter(
                |m: (Seq<char>, Tree)|
                    m.0 != "ownerAccountUuid"@ && m.0 != "ownerOrganizationUuid"@ && m.0
                        != "user.email"@ && m.0 != "user.account_uuid"@ && m.0
                        != "user.account_id"@,
            ),
        ),
        !(t is Obj) ==> scrubbed(t) == t,
{
    if let Tree::Obj(o) = t {
        let keep = |key: Seq<char>| !is_personal(key);
        crate::json::kept_members_are_those_to_keep(o, keep);
        same_tests(
            o,
            |m: (Seq<char>, Tree)| keep(m.0),
            |m: (Seq<char>, Tree)|
                m.0 != "ownerAccountUuid"@ && m.0 != "ownerOrganizationUuid"@ && m.0
                    != "user.email"@ && m.0 != "user.account_uuid"@ && m.0 != "user.account_id"@,
        );
    }
}

/// A line is a record exactly where it is an object with a known tag whose members fit; its
/// tag is its member `type`. Without JSON it is corrupt, without a tag it is untagged.
pub proof fn a_lines_fate_is_in_its_tag(t: Option<Tree>)
    ensures
        fate(t) is Corrupt <==> t is None,
        t is Some && text_at(at(t, "type"@)) is None <==> fate(t) is Untagged,
        forall|tag: Seq<char>|
            t is Some && text_at(at(t, "type"@)) == Some(tag) ==> #[trigger] fate_of(tag, t)
                == fate(t),
{
}

/// What becomes of an object with a tag.
pub open spec fn fate_of(tag: Seq<char>, t: Option<Tree>) -> Fate {
    if !record_fits(kind_of_tag(tag), t->0->Obj_0) {
        Fate::Misfit(tag)
    } else if kind_of_tag(tag) == TranscriptRecordKind::Unknown {
        Fate::Unmodelled(tag)
    } else {
        Fate::Fine(tag)
    }
}

/// The event for a line of JSON is in the place and of the moment given, carries the value
/// without what names the account and with no string of more than 2048 characters whole, and
/// names the session, the agent, its type and the prompt that the line names.
pub proof fn an_event_says_what_its_line_says(
    t: Option<Tree>,
    source: Source,
    offset: int,
    observed: int,
)
    ensures
        t is None <==> line_event(t, source, offset, observed) is None,
        line_event(t, source, offset, observed) matches Some(h) ==> {
            let journal = fate(t) is Fine && (text_at(at(t, "type"@)) == Some("started"@) || text_at(
                at(t, "type"@),
            ) == Some("result"@));
            let threaded = fate(t) is Fine && (text_at(at(t, "type"@)) == Some("user"@) || text_at(
                at(t, "type"@),
            ) == Some("assistant"@) || text_at(at(t, "type"@)) == Some("attachment"@) || text_at(
                at(t, "type"@),
            ) == Some("system"@));
            &&& h.observed == observed
            &&& h.channel == Channel::Transcript
            &&& h.cargo matches Cargo::Record(kind, from, place, record) && from == source && place
                == offset && record == elided(scrubbed(t->0), 2048) && (fate(t) is Fine ==> kind
                == kind_of_tag(text_at(at(t, "type"@))->0)) && (!(fate(t) is Fine) ==> kind
                == TranscriptRecordKind::Unknown)
            &&& journal ==> h.session is None && h.thread is None
            &&& !journal ==> h.session == text_at(at(t, "sessionId"@)) && h.thread == h.session
            &&& threaded ==> h.agent_type == text_at(at(t, "attributionAgent"@)) && h.prompt
                == text_at(at(t, "promptId"@))
            &&& !threaded ==> h.agent_type is None && h.prompt is None
            &&& !(fate(t) is Fine) ==> h.worker is None
            &&& (threaded || journal) && text_at(at(t, "agentId"@)) is Some ==> h.worker == text_at(
                at(t, "agentId"@),
            )
            &&& fate(t) is Fine && !((threaded || journal) && text_at(at(t, "agentId"@)) is Some)
                ==> h.worker == match source {
                Source::Subagent(agent, _) => Some(agent),
                _ => None,
            }
        },
{
    crate::record::tags_tell_how_a_record_is_read(
        match text_at(at(t, "type"@)) {
            Some(tag) => tag,
            None => seq![],
        },
    );
}

/// The moment that a line gives is its member `timestamp`, unless it is a journal's.
pub proof fn a_lines_moment_is_its_timestamp(t: Option<Tree>)
    ensures
        ({
            let journal = fate(t) is Fine && (text_at(at(t, "type"@)) == Some("started"@) || text_at(
                at(t, "type"@),
            ) == Some("result"@));
            &&& journal ==> event_wall(t) is None
            &&& !journal && text_at(at(t, "timestamp"@)) is None ==> event_wall(t) is None
            &&& !journal && text_at(at(t, "timestamp"@)) is Some ==> event_wall(t) == stamp_of(
                text_at(at(t, "timestamp"@))->0,
            )
        }),
{
    crate::record::tags_tell_how_a_record_is_read(
        match text_at(at(t, "type"@)) {
            Some(tag) => tag,
            None => seq![],
        },
    );
}

} // verus!
