//! Project directories: the key that a working directory is filed under, and
//! finding a project again.
use vstd::prelude::*;

use crate::bytes::{line_views, lines_of, lines_with_offsets, lossy_text, text_from_bytes};
use crate::event::owned_text;
use crate::folds::{filter_none, take_all};
use crate::json::{json_tree, member, opt_text, read_json, text_at, Json, Tree};
use crate::path::{extension_of, name_of, stem_of, FilePath};
use crate::sort::{in_rank, ranked};
use crate::text::{
    chars_of, digit_char, number_text, numeral, push_text, same_text, text_between, text_of, trim,
    trimmed,
};

verus! {

/// How many UTF-16 units of a working directory a key keeps as they are.
pub const PROJECT_KEY_LIMIT: usize = 200;

/// How much of a transcript is looked at for a working directory.
pub const CWD_PROBE_BYTES: u64 = 262_144;

/// The UTF-16 units of one character.
pub open spec fn units_of(c: char) -> Seq<u16> {
    let u = c as u32;
    if u < 0x1_0000 {
        seq![u as u16]
    } else {
        seq![
            (0xd800 + (u - 0x1_0000) / 0x400) as u16,
            (0xdc00 + (u - 0x1_0000) % 0x400) as u16,
        ]
    }
}

/// The UTF-16 units of a text.
pub open spec fn utf16(s: Seq<char>) -> Seq<u16>
    decreases s.len(),
{
    if s.len() == 0 {
        seq![]
    } else {
        utf16(s.drop_last()) + units_of(s.last())
    }
}

/// An integer brought into the range of 32 bits with a sign.
pub open spec fn wrapped(n: int) -> int {
    let m = n % 0x1_0000_0000;
    if m >= 0x8000_0000 {
        m - 0x1_0000_0000
    } else {
        m
    }
}

/// The hash of some UTF-16 units: each step takes thirty-one times the hash so
/// far and adds the unit, within 32 bits.
pub open spec fn units_hash(u: Seq<u16>) -> int
    decreases u.len(),
{
    if u.len() == 0 {
        0
    } else {
        wrapped(31 * units_hash(u.drop_last()) + u.last())
    }
}

/// The UTF-16 units of a text.
pub fn utf16_of(text: &str) -> (r: Vec<u16>)
    ensures
        r@ == utf16(text@),
{
    let chars: Vec<char> = chars_of(text);
    let mut out: Vec<u16> = Vec::new();
    let mut i: usize = 0;
    assert(chars@.subrange(0, 0).len() == 0);
    while i < chars.len()
        invariant
            i <= chars.len(),
            out@ == utf16(chars@.subrange(0, i as int)),
        decreases chars.len() - i,
    {
        let ghost before = out@;
        assert(chars@.subrange(0, i + 1).drop_last() =~= chars@.subrange(0, i as int));
        let c: char = chars[i];
        let u: u32 = c as u32;
        if u < 0x1_0000 {
            out.push(u as u16);
        } else {
            out.push((0xd800 + (u - 0x1_0000) / 0x400) as u16);
            out.push((0xdc00 + (u - 0x1_0000) % 0x400) as u16);
        }
        assert(out@ =~= before + units_of(c));
        i = i + 1;
    }
    assert(chars@.subrange(0, i as int) =~= chars@);
    out
}

fn hash_step(h: i32, unit: u16) -> (r: i32)
    ensures
        r == wrapped(31 * h + unit),
{
    h.wrapping_mul(31).wrapping_add(unit as i32)
}

/// The hash of a text, over its UTF-16 units.
pub fn js_hash(text: &str) -> (r: i32)
    ensures
        r == units_hash(utf16(text@)),
{
    let units: Vec<u16> = utf16_of(text);
    let mut h: i32 = 0;
    let mut i: usize = 0;
    assert(units@.subrange(0, 0).len() == 0);
    while i < units.len()
        invariant
            i <= units.len(),
            h == units_hash(units@.subrange(0, i as int)),
        decreases units.len() - i,
    {
        assert(units@.subrange(0, i + 1).drop_last() =~= units@.subrange(0, i as int));
        h = hash_step(h, units[i]);
        i = i + 1;
    }
    assert(units@.subrange(0, i as int) =~= units@);
    h
}

/// A number written in base thirty-six.
pub fn to_base36(n: u64) -> (r: String)
    ensures
        r@ == numeral(n as nat, 36),
{
    number_text(n, 36)
}

/// Is the unit an ASCII letter or digit?
pub open spec fn plain_unit(u: u16) -> bool {
    0x30 <= u <= 0x39 || 0x41 <= u <= 0x5a || 0x61 <= u <= 0x7a
}

/// What a key holds for a unit: letters and digits as they are, a dash for the rest.
pub open spec fn key_char(u: u16) -> char {
    if plain_unit(u) {
        (u as u8) as char
    } else {
        '-'
    }
}

/// The key's characters for some units.
pub open spec fn munged(u: Seq<u16>) -> Seq<char> {
    Seq::new(u.len(), |i: int| key_char(u[i]))
}

/// A number without its sign.
pub open spec fn magnitude(n: int) -> nat {
    if n < 0 {
        (-n) as nat
    } else {
        n as nat
    }
}

/// The key that a working directory is filed under: its letters and digits with
/// dashes between them, cut and marked with a hash where it is long.
pub open spec fn key_of(cwd: Seq<char>) -> Seq<char> {
    let u = utf16(cwd);
    if u.len() <= PROJECT_KEY_LIMIT {
        munged(u)
    } else {
        munged(u).take(PROJECT_KEY_LIMIT as int) + "-"@ + numeral(magnitude(units_hash(u)), 36)
    }
}

/// The key that a working directory is filed under.
pub fn project_key(cwd: &str) -> (r: String)
    ensures
        r@ == key_of(cwd@),
{
    let units: Vec<u16> = utf16_of(cwd);
    let mut chars: Vec<char> = Vec::new();
    let mut i: usize = 0;
    while i < units.len()
        invariant
            i <= units.len(),
            chars.len() == i,
            forall|k: int| 0 <= k < i ==> #[trigger] chars@[k] == key_char(units@[k]),
        decreases units.len() - i,
    {
        let u: u16 = units[i];
        let plain: bool = (0x30 <= u && u <= 0x39) || (0x41 <= u && u <= 0x5a) || (0x61 <= u && u
            <= 0x7a);
        if plain {
            chars.push((u as u8) as char);
        } else {
            chars.push('-');
        }
        i = i + 1;
    }
    assert(chars@ =~= munged(units@));
    if units.len() <= PROJECT_KEY_LIMIT {
        return text_of(&chars);
    }
    let h: i64 = js_hash(cwd) as i64;
    let size: u64 = if h < 0 {
        (-h) as u64
    } else {
        h as u64
    };
    let mut key: String = text_between(&chars, 0, PROJECT_KEY_LIMIT);
    push_text(&mut key, "-");
    push_text(&mut key, to_base36(size).as_str());
    assert(key@ =~= key_of(cwd@));
    key
}

/// Is the character an ASCII letter, a digit or a dash?
pub open spec fn key_safe(c: char) -> bool {
    let u = c as u32;
    0x30 <= u <= 0x39 || 0x41 <= u <= 0x5a || 0x61 <= u <= 0x7a || c == '-'
}

proof fn numeral_short(n: nat, k: nat)
    requires
        n < pow36(k),
        k > 0,
    ensures
        0 < numeral(n, 36).len() <= k,
        forall|i: int| 0 <= i < numeral(n, 36).len() ==> key_safe(#[trigger] numeral(n, 36)[i]),
    decreases k,
{
    if n < 36 {
        assert(numeral(n, 36) =~= seq![digit_char(n as int)]);
    } else {
        let d = digit_char((n % 36) as int);
        assert(key_safe(d));
        assert(n / 36 < pow36((k - 1) as nat));
        if k == 1 {
            assert(pow36(0) == 1);
        }
        numeral_short(n / 36, (k - 1) as nat);
        let head = numeral(n / 36, 36);
        assert(numeral(n, 36) == head.push(d));
        assert forall|i: int| 0 <= i < numeral(n, 36).len() implies key_safe(
            #[trigger] numeral(n, 36)[i],
        ) by {
            if i < head.len() {
                assert(numeral(n, 36)[i] == head[i]);
            }
        }
    }
}

spec fn pow36(k: nat) -> nat
    decreases k,
{
    if k == 0 {
        1
    } else {
        36 * pow36((k - 1) as nat)
    }
}

/// A key holds only ASCII letters, digits and dashes, and is at most two hundred
/// and seven characters long.
pub proof fn key_is_a_safe_name(cwd: Seq<char>)
    ensures
        key_of(cwd).len() <= 207,
        forall|i: int| 0 <= i < key_of(cwd).len() ==> key_safe(#[trigger] key_of(cwd)[i]),
{
    let u = utf16(cwd);
    let m = munged(u);
    assert forall|i: int| 0 <= i < m.len() implies key_safe(#[trigger] m[i]) by {
        assert(m[i] == key_char(u[i]));
    }
    if u.len() > PROJECT_KEY_LIMIT {
        let h = magnitude(units_hash(u));
        reveal_with_fuel(pow36, 8);
        assert(units_hash(u) == wrapped(31 * units_hash(u.drop_last()) + u.last()));
        numeral_short(h, 6);
        reveal_strlit("-");
        assert("-"@ =~= seq!['-']);
        let key = key_of(cwd);
        assert forall|i: int| 0 <= i < key.len() implies key_safe(#[trigger] key[i]) by {
            if i < PROJECT_KEY_LIMIT {
                assert(key[i] == m[i]);
            } else if i > PROJECT_KEY_LIMIT {
                assert(key[i] == numeral(h, 36)[i - PROJECT_KEY_LIMIT - 1]);
            }
        }
    }
}

/// A short working directory has a key as long as its UTF-16 form.
pub proof fn short_key_keeps_its_length(cwd: Seq<char>)
    requires
        utf16(cwd).len() <= PROJECT_KEY_LIMIT,
    ensures
        key_of(cwd).len() == utf16(cwd).len(),
{
}

/// A project directory.
#[derive(Debug)]
pub struct ProjectDir {
    /// Where it is.
    pub path: FilePath,
    /// The key it is filed under.
    pub key: String,
    /// The working directory that its transcripts name.
    pub cwd: Option<String>,
}

impl ProjectDir {
    /// Is the directory's key the one that its working directory gives?
    pub fn is_computed(&self) -> (r: bool)
        ensures
            r == (self.cwd matches Some(c) && key_of(c@) == self.key@),
    {
        match &self.cwd {
            Some(c) => same_text(project_key(c.as_str()).as_str(), self.key.as_str()),
            None => false,
        }
    }
}

/// Paths, as mathematics.
pub open spec fn path_views(v: Seq<FilePath>) -> Seq<Seq<Seq<char>>> {
    Seq::new(v.len(), |i: int| v[i]@)
}

/// The directories among some entries of a directory, in order.
pub fn discover_project_dirs(entries: Vec<(FilePath, bool)>) -> (r: Vec<FilePath>)
    ensures
        in_rank(r@),
        r@.to_multiset() == directories(entries@).to_multiset(),
{
    let mut rest: Vec<(FilePath, bool)> = entries;
    let mut out: Vec<FilePath> = Vec::new();
    let ghost all = rest@;
    assert(out@ + directories(rest@) =~= directories(all));
    while rest.len() > 0
        invariant
            out@ + directories(rest@) == directories(all),
        decreases rest.len(),
    {
        let ghost left = rest@;
        let ghost done = out@;
        let (path, is_dir) = rest.remove(0);
        assert(rest@ =~= left.drop_first());
        if is_dir {
            out.push(path);
        }
        assert(out@ + directories(rest@) =~= done + directories(left));
    }
    assert(out@ =~= directories(all));
    ranked(out)
}

/// The directories among some entries, in the order given.
pub open spec fn directories(entries: Seq<(FilePath, bool)>) -> Seq<FilePath>
    decreases entries.len(),
{
    if entries.len() == 0 {
        seq![]
    } else if entries[0].1 {
        seq![entries[0].0] + directories(entries.drop_first())
    } else {
        directories(entries.drop_first())
    }
}

/// A project directory, as mathematics.
pub ghost struct Project {
    pub path: Seq<Seq<char>>,
    pub key: Seq<char>,
    pub cwd: Option<Seq<char>>,
}

impl ProjectDir {
    /// The project directory.
    pub open spec fn view(self) -> Project {
        Project { path: self.path@, key: self.key@, cwd: opt_text(self.cwd) }
    }
}

/// The projects that some directories are: those with a name, under it.
pub open spec fn projects_of(dirs: Seq<(FilePath, Option<String>)>) -> Seq<Project>
    decreases dirs.len(),
{
    if dirs.len() == 0 {
        seq![]
    } else {
        let before = projects_of(dirs.drop_last());
        let (path, cwd) = dirs.last();
        match name_of(path@) {
            Some(name) => before.push(Project { path: path@, key: name, cwd: opt_text(cwd) }),
            None => before,
        }
    }
}

/// Projects, as mathematics.
pub open spec fn project_views(v: Seq<ProjectDir>) -> Seq<Project> {
    Seq::new(v.len(), |i: int| v[i]@)
}

/// The projects that some directories are, each with the working directory that
/// its transcripts name.
pub fn index_projects(dirs: &Vec<(FilePath, Option<String>)>) -> (r: Vec<ProjectDir>)
    ensures
        project_views(r@) == projects_of(dirs@),
{
    let mut out: Vec<ProjectDir> = Vec::new();
    let mut i: usize = 0;
    assert(project_views(out@) =~= projects_of(dirs@.subrange(0, 0)));
    while i < dirs.len()
        invariant
            i <= dirs.len(),
            project_views(out@) == projects_of(dirs@.subrange(0, i as int)),
        decreases dirs.len() - i,
    {
        assert(dirs@.subrange(0, i + 1).drop_last() =~= dirs@.subrange(0, i as int));
        let ghost before = out@;
        if let Some(name) = dirs[i].0.file_name() {
            let p: ProjectDir = ProjectDir {
                path: dirs[i].0.copied(),
                key: name.to_owned(),
                cwd: crate::event::copied_text(&dirs[i].1),
            };
            out.push(p);
            assert(project_views(out@) =~= project_views(before).push(p@));
        }
        i = i + 1;
    }
    assert(dirs@.subrange(0, i as int) =~= dirs@);
    out
}

/// The working directory that the first of some lines to name one names.
pub open spec fn first_cwd(lines: Seq<(int, Seq<u8>)>) -> Option<Seq<char>>
    decreases lines.len(),
{
    if lines.len() == 0 {
        None
    } else {
        match cwd_on(json_tree(trim(lossy_text(lines[0].1)))) {
            Some(c) => Some(c),
            None => first_cwd(lines.drop_first()),
        }
    }
}

/// The working directory that a parsed line names.
pub open spec fn cwd_on(t: Option<Tree>) -> Option<Seq<char>> {
    match t {
        Some(v) => text_at(member(v, "cwd"@)),
        None => None,
    }
}

/// The working directory that a parsed line names.
pub fn value_cwd(value: &Option<Json>) -> (r: Option<String>)
    ensures
        opt_text(r) == cwd_on(crate::json::opt_tree(*value)),
{
    match value {
        Some(v) => owned_text(v.text_of("cwd")),
        None => None,
    }
}

/// The working directory that the beginning of a transcript names.
pub fn head_cwd(head: &[u8]) -> (r: Option<String>)
    ensures
        opt_text(r) == first_cwd(lines_of(head@)),
{
    let lines: Vec<(u64, &[u8])> = lines_with_offsets(head);
    let ghost views = line_views(lines@);
    let mut i: usize = 0;
    assert(views.skip(0) =~= views);
    while i < lines.len()
        invariant
            i <= lines.len(),
            views == line_views(lines@),
            views == lines_of(head@),
            first_cwd(views) == first_cwd(views.skip(i as int)),
        decreases lines.len() - i,
    {
        assert(views.skip(i as int).drop_first() =~= views.skip(i + 1));
        assert(views.skip(i as int)[0] == views[i as int]);
        let text: String = text_from_bytes(lines[i].1);
        let value: Option<Json> = read_json(trimmed(text.as_str()).as_str());
        let found: Option<String> = value_cwd(&value);
        if found.is_some() {
            return found;
        }
        i = i + 1;
    }
    None
}

/// The working directory that the first of some transcripts to name one names.
/// A transcript that could not be read has no beginning.
pub open spec fn first_cwd_of(heads: Seq<Option<Vec<u8>>>) -> Option<Seq<char>>
    decreases heads.len(),
{
    if heads.len() == 0 {
        None
    } else {
        let here = match heads[0] {
            Some(h) => first_cwd(lines_of(h@)),
            None => None,
        };
        match here {
            Some(c) => Some(c),
            None => first_cwd_of(heads.drop_first()),
        }
    }
}

/// The working directory of a project, given the beginnings of its transcripts
/// in order.
pub fn project_dir_cwd(heads: &Vec<Option<Vec<u8>>>) -> (r: Option<String>)
    ensures
        opt_text(r) == first_cwd_of(heads@),
{
    let mut i: usize = 0;
    assert(heads@.skip(0) =~= heads@);
    while i < heads.len()
        invariant
            i <= heads.len(),
            first_cwd_of(heads@) == first_cwd_of(heads@.skip(i as int)),
        decreases heads.len() - i,
    {
        assert(heads@.skip(i as int).drop_first() =~= heads@.skip(i + 1));
        if let Some(head) = &heads[i] {
            let found: Option<String> = head_cwd(head.as_slice());
            if found.is_some() {
                return found;
            }
        }
        i = i + 1;
    }
    None
}

/// The first project with a working directory.
pub open spec fn project_with(projects: Seq<Project>, cwd: Seq<char>) -> Option<Seq<Seq<char>>>
    decreases projects.len(),
{
    if projects.len() == 0 {
        None
    } else if projects[0].cwd == Some(cwd) {
        Some(projects[0].path)
    } else {
        project_with(projects.drop_first(), cwd)
    }
}

/// The directory of a working directory: the one that its key names where that
/// is there, else the first project that names it.
pub fn project_dir_for_cwd(
    projects_dir: &FilePath,
    cwd: &str,
    computed_is_dir: bool,
    projects: &Vec<ProjectDir>,
) -> (r: Option<FilePath>)
    ensures
        match r {
            Some(p) => Some(p@),
            None => None,
        } == if computed_is_dir {
            Some(projects_dir@.push(key_of(cwd@)))
        } else {
            project_with(project_views(projects@), cwd@)
        },
{
    if computed_is_dir {
        return Some(projects_dir.join(project_key(cwd).as_str()));
    }
    let ghost views = project_views(projects@);
    let mut i: usize = 0;
    assert(views.skip(0) =~= views);
    while i < projects.len()
        invariant
            i <= projects.len(),
            views == project_views(projects@),
            !computed_is_dir,
            project_with(views, cwd@) == project_with(views.skip(i as int), cwd@),
        decreases projects.len() - i,
    {
        assert(views.skip(i as int).drop_first() =~= views.skip(i + 1));
        assert(views.skip(i as int)[0] == projects@[i as int]@);
        if let Some(c) = &projects[i].cwd {
            if same_text(c.as_str(), cwd) {
                return Some(projects[i].path.copied());
            }
        }
        i = i + 1;
    }
    None
}

/// The transcripts among some files, in the order given.
pub open spec fn transcripts_among(files: Seq<FilePath>) -> Seq<FilePath>
    decreases files.len(),
{
    if files.len() == 0 {
        seq![]
    } else if extension_of(files.last()@) == Some("jsonl"@) {
        transcripts_among(files.drop_last()).push(files.last())
    } else {
        transcripts_among(files.drop_last())
    }
}

/// The transcripts among some files, in path order.
pub fn jsonl_files(files: Vec<FilePath>) -> (r: Vec<FilePath>)
    ensures
        in_rank(r@),
        path_views(r@).to_multiset() == path_views(transcripts_among(files@)).to_multiset(),
{
    let mut out: Vec<FilePath> = Vec::new();
    let mut i: usize = 0;
    assert(path_views(out@) =~= path_views(transcripts_among(files@.subrange(0, 0))));
    while i < files.len()
        invariant
            i <= files.len(),
            path_views(out@) == path_views(transcripts_among(files@.subrange(0, i as int))),
        decreases files.len() - i,
    {
        let ghost before = out@;
        let ghost kept = transcripts_among(files@.subrange(0, i as int));
        assert(files@.subrange(0, i + 1).drop_last() =~= files@.subrange(0, i as int));
        if files[i].has_extension("jsonl") {
            let p: FilePath = files[i].copied();
            out.push(p);
            assert(path_views(out@) =~= path_views(before).push(p@));
            assert(path_views(kept.push(files@[i as int])) =~= path_views(kept).push(p@));
        }
        i = i + 1;
    }
    assert(files@.subrange(0, i as int) =~= files@);
    let ghost unsorted = out@;
    let sorted: Vec<FilePath> = ranked(out);
    proof {
        crate::sort::same_views(sorted@, unsorted, |p: FilePath| p@);
        assert(path_views(sorted@) =~= sorted@.map_values(|p: FilePath| p@));
        assert(path_views(unsorted) =~= unsorted.map_values(|p: FilePath| p@));
    }
    sorted
}

/// The session directories that the transcripts among some files stand for, in
/// the order given.
pub open spec fn session_dirs(dir: Seq<Seq<char>>, files: Seq<FilePath>) -> Seq<Seq<Seq<char>>>
    decreases files.len(),
{
    if files.len() == 0 {
        seq![]
    } else if extension_of(files.last()@) == Some("jsonl"@) {
        session_dirs(dir, files.drop_last()).push(dir.push(stem_of(files.last()@)->0))
    } else {
        session_dirs(dir, files.drop_last())
    }
}

/// The sessions of a project: one for each transcript among its files, named
/// after it, in path order.
pub fn sessions_in(project_dir: &FilePath, files: &Vec<FilePath>) -> (r: Vec<FilePath>)
    ensures
        in_rank(r@),
        path_views(r@).to_multiset() == session_dirs(project_dir@, files@).to_multiset(),
{
    let mut out: Vec<FilePath> = Vec::new();
    let mut i: usize = 0;
    assert(path_views(out@) =~= session_dirs(project_dir@, files@.subrange(0, 0)));
    while i < files.len()
        invariant
            i <= files.len(),
            path_views(out@) == session_dirs(project_dir@, files@.subrange(0, i as int)),
        decreases files.len() - i,
    {
        let ghost before = out@;
        assert(files@.subrange(0, i + 1).drop_last() =~= files@.subrange(0, i as int));
        if let Some((stem, Some(ext))) = files[i].split_name() {
            if same_text(ext.as_str(), "jsonl") {
                let p: FilePath = project_dir.join(stem.as_str());
                out.push(p);
                assert(path_views(out@) =~= path_views(before).push(p@));
            }
        }
        i = i + 1;
    }
    assert(files@.subrange(0, i as int) =~= files@);
    let ghost unsorted = out@;
    let sorted: Vec<FilePath> = ranked(out);
    proof {
        crate::sort::same_views(sorted@, unsorted, |p: FilePath| p@);
        assert(path_views(sorted@) =~= sorted@.map_values(|p: FilePath| p@));
        assert(path_views(unsorted) =~= unsorted.map_values(|p: FilePath| p@));
    }
    sorted
}

/// A character below the first 65536 is one unit; any other is a high and a low surrogate
/// that together say how far beyond them it lies.
pub proof fn units_say_their_character(c: char)
    ensures
        (c as u32) < 0x1_0000 ==> units_of(c).len() == 1 && units_of(c)[0] == c as u32,
        (c as u32) >= 0x1_0000 ==> {
            let u = units_of(c);
            &&& u.len() == 2
            &&& 0xd800 <= u[0] < 0xdc00
            &&& 0xdc00 <= u[1] < 0xe000
            &&& (u[0] - 0xd800) * 0x400 + (u[1] - 0xdc00) + 0x1_0000 == c as u32
        },
{
    let n = c as u32;
    if n >= 0x1_0000 {
        assert(n <= 0x10_ffff);
        let (hi, lo) = ((n - 0x1_0000) / 0x400, (n - 0x1_0000) % 0x400);
        assert(hi < 0x400 && lo < 0x400);
        assert((0xd800 + hi) as u16 == 0xd800 + hi);
        assert((0xdc00 + lo) as u16 == 0xdc00 + lo);
    }
}

/// The units of a text are those of its characters, one after another.
pub proof fn units_follow_the_characters(s: Seq<char>)
    ensures
        utf16(s) == s.fold_left(Seq::<u16>::empty(), |w: Seq<u16>, c: char| w + units_of(c)),
    decreases s.len(),
{
    if s.len() > 0 {
        units_follow_the_characters(s.drop_last());
    }
}

/// The hash begins at zero, takes thirty-one times what came before and the unit each time,
/// and stays within 32 bits with a sign by leaving out multiples of two to the 32.
pub proof fn hashes_step_by_thirty_one(u: Seq<u16>, x: u16)
    ensures
        units_hash(Seq::<u16>::empty()) == 0,
        ({
            let (h, k) = (units_hash(u), units_hash(u.push(x)));
            &&& -0x8000_0000 <= k < 0x8000_0000
            &&& (31 * h + x - k) % 0x1_0000_0000 == 0
        }),
{
    assert(u.push(x).drop_last() =~= u);
    let n = 31 * units_hash(u) + x;
    let m = n % 0x1_0000_0000;
    vstd::arithmetic::div_mod::lemma_fundamental_div_mod(n, 0x1_0000_0000);
    let q = n / 0x1_0000_0000;
    if m >= 0x8000_0000 {
        vstd::arithmetic::div_mod::lemma_mod_multiples_basic(q + 1, 0x1_0000_0000);
        assert(n - (m - 0x1_0000_0000) == (q + 1) * 0x1_0000_0000) by (nonlinear_arith)
            requires
                n == 0x1_0000_0000 * q + m,
        ;
    } else {
        vstd::arithmetic::div_mod::lemma_mod_multiples_basic(q, 0x1_0000_0000);
        assert(n - m == q * 0x1_0000_0000) by (nonlinear_arith)
            requires
                n == 0x1_0000_0000 * q + m,
        ;
    }
}

/// A key keeps ASCII letters and digits and has a dash for every other unit. Up to two
/// hundred units that is all; a longer key is cut there, and a dash and the hash
/// without its sign, in base 36, follow.
pub proof fn keys_keep_letters_and_digits(cwd: Seq<char>)
    ensures
        ({
            let u = utf16(cwd);
            let k = key_of(cwd);
            let kept = if u.len() <= 200 {
                u.len() as int
            } else {
                200
            };
            &&& u.len() <= 200 ==> k.len() == u.len()
            &&& u.len() > 200 ==> k.skip(200) == seq!['-'] + numeral(
                if units_hash(u) < 0 {
                    (0 - units_hash(u)) as nat
                } else {
                    units_hash(u) as nat
                },
                36,
            )
            &&& k.len() >= kept
            &&& forall|i: int|
                0 <= i < kept ==> {
                    let plain = (48 <= u[i] <= 57) || (65 <= u[i] <= 90) || (97 <= u[i] <= 122);
                    &&& plain ==> (#[trigger] k[i]) as u32 == u[i]
                    &&& !plain ==> k[i] == '-'
                }
        }),
{
    let u = utf16(cwd);
    let k = key_of(cwd);
    reveal_strlit("-");
    if u.len() > 200 {
        let tail = numeral(magnitude(units_hash(u)), 36);
        assert("-"@ =~= seq!['-']);
        assert(k.skip(200) =~= seq!['-'] + tail);
    }
    assert forall|i: int| 0 <= i < u.len() && i < 200 implies {
        let plain = (48 <= u[i] <= 57) || (65 <= u[i] <= 90) || (97 <= u[i] <= 122);
        &&& plain ==> (#[trigger] k[i]) as u32 == u[i]
        &&& !plain ==> k[i] == '-'
    } by {
        assert(k[i] == key_char(u[i]));
    }
}

/// The project directories among some entries are the directories, in the order given.
pub proof fn only_directories_are_projects(entries: Seq<(FilePath, bool)>)
    ensures
        directories(entries) == entries.filter(|x: (FilePath, bool)| x.1).map_values(
            |x: (FilePath, bool)| x.0,
        ),
    decreases entries.len(),
{
    let test = |x: (FilePath, bool)| x.1;
    let path = |x: (FilePath, bool)| x.0;
    if entries.len() == 0 {
        filter_none(entries, test);
        take_all(entries);
        assert(directories(entries) =~= entries.filter(test).map_values(path));
    } else {
        let rest = entries.drop_first();
        only_directories_are_projects(rest);
        let head = seq![entries[0]];
        assert(entries =~= head + rest);
        Seq::filter_distributes_over_add(head, rest, test);
        reveal(Seq::filter);
        assert(head.drop_last().filter(test) =~= Seq::empty());
        assert(head.filter(test) =~= if entries[0].1 {
            head
        } else {
            Seq::empty()
        });
        assert(directories(entries) =~= entries.filter(test).map_values(path));
    }
}

/// The projects are the directories with a name, in the order given, each under its name
/// and with the working directory found for it.
pub proof fn projects_go_by_their_names(dirs: Seq<(FilePath, Option<String>)>)
    ensures
        projects_of(dirs) == dirs.filter(
            |x: (FilePath, Option<String>)| name_of(x.0@) is Some,
        ).map_values(
            |x: (FilePath, Option<String>)|
                Project { path: x.0@, key: name_of(x.0@)->0, cwd: opt_text(x.1) },
        ),
    decreases dirs.len(),
{
    reveal(Seq::filter);
    let named = |x: (FilePath, Option<String>)| name_of(x.0@) is Some;
    let project = |x: (FilePath, Option<String>)|
        Project { path: x.0@, key: name_of(x.0@)->0, cwd: opt_text(x.1) };
    if dirs.len() == 0 {
        assert(projects_of(dirs) =~= dirs.filter(named).map_values(project));
    } else {
        let rest = dirs.drop_last();
        projects_go_by_their_names(rest);
        assert(rest.filter(named).push(dirs.last()).map_values(project) =~= rest.filter(
            named,
        ).map_values(project).push(project(dirs.last())));
    }
}

/// A transcript's working directory is the one that its first line with a text under `cwd`
/// gives; there is none only where no line has one.
pub proof fn the_first_line_to_name_a_directory_counts(lines: Seq<(int, Seq<u8>)>)
    ensures
        ({
            let on = |i: int|
                match json_tree(trim(lossy_text(lines[i].1))) {
                    Some(v) => text_at(member(v, "cwd"@)),
                    None => None,
                };
            match first_cwd(lines) {
                Some(c) => exists|i: int|
                    {
                        &&& 0 <= i < lines.len()
                        &&& #[trigger] on(i) == Some(c)
                        &&& forall|j: int| 0 <= j < i ==> (#[trigger] on(j)) is None
                    },
                None => forall|j: int| 0 <= j < lines.len() ==> (#[trigger] on(j)) is None,
            }
        }),
    decreases lines.len(),
{
    let on = |i: int|
        match json_tree(trim(lossy_text(lines[i].1))) {
            Some(v) => text_at(member(v, "cwd"@)),
            None => None,
        };
    if lines.len() > 0 {
        let rest = lines.drop_first();
        let later = |i: int|
            match json_tree(trim(lossy_text(rest[i].1))) {
                Some(v) => text_at(member(v, "cwd"@)),
                None => None,
            };
        the_first_line_to_name_a_directory_counts(rest);
        assert forall|j: int| 1 <= j < lines.len() implies #[trigger] on(j) == later(j - 1) by {
            assert(rest[j - 1] == lines[j]);
        }
        if on(0) is Some {
            assert(first_cwd(lines) == on(0));
        } else {
            assert(first_cwd(lines) == first_cwd(rest));
            if first_cwd(rest) is Some {
                let c = first_cwd(rest)->0;
                let i = choose|i: int|
                    {
                        &&& 0 <= i < rest.len()
                        &&& #[trigger] later(i) == Some(c)
                        &&& forall|j: int| 0 <= j < i ==> (#[trigger] later(j)) is None
                    };
                assert(on(i + 1) == Some(c));
                assert forall|j: int| 0 <= j < i + 1 implies (#[trigger] on(j)) is None by {
                    if j > 0 {
                        assert(later(j - 1) is None);
                    }
                }
            } else {
                assert forall|j: int| 0 <= j < lines.len() implies (#[trigger] on(j)) is None by {
                    if j > 0 {
                        assert(later(j - 1) is None);
                    }
                }
            }
        }
    }
}

/// A project's working directory is the one that the first of its transcripts with one
/// gives; what could not be read is passed over.
pub proof fn the_first_transcript_to_name_a_directory_counts(heads: Seq<Option<Vec<u8>>>)
    ensures
        match first_cwd_of(heads) {
            Some(c) => exists|i: int|
                {
                    &&& 0 <= i < heads.len()
                    &&& (#[trigger] heads[i]) is Some
                    &&& first_cwd(lines_of(heads[i]->0@)) == Some(c)
                    &&& forall|j: int|
                        0 <= j < i && (#[trigger] heads[j]) is Some ==> first_cwd(
                            lines_of(heads[j]->0@),
                        ) is None
                },
            None => forall|j: int|
                0 <= j < heads.len() && (#[trigger] heads[j]) is Some ==> first_cwd(
                    lines_of(heads[j]->0@),
                ) is None,
        },
    decreases heads.len(),
{
    if heads.len() > 0 {
        let rest = heads.drop_first();
        the_first_transcript_to_name_a_directory_counts(rest);
        assert forall|j: int| 1 <= j < heads.len() implies #[trigger] heads[j] == rest[j - 1] by {}
        let here = match heads[0] {
            Some(h) => first_cwd(lines_of(h@)),
            None => None,
        };
        if here is Some {
            assert(heads[0] is Some);
        } else if first_cwd_of(rest) is Some {
            let c = first_cwd_of(rest)->0;
            let i = choose|i: int|
                {
                    &&& 0 <= i < rest.len()
                    &&& (#[trigger] rest[i]) is Some
                    &&& first_cwd(lines_of(rest[i]->0@)) == Some(c)
                    &&& forall|j: int|
                        0 <= j < i && (#[trigger] rest[j]) is Some ==> first_cwd(
                            lines_of(rest[j]->0@),
                        ) is None
                };
            assert(heads[i + 1] is Some);
            assert forall|j: int| 0 <= j < i + 1 && (#[trigger] heads[j]) is Some implies first_cwd(
                lines_of(heads[j]->0@),
            ) is None by {
                if j > 0 {
                    assert(rest[j - 1] is Some);
                }
            }
        } else {
            assert forall|j: int|
                0 <= j < heads.len() && (#[trigger] heads[j]) is Some implies first_cwd(
                lines_of(heads[j]->0@),
            ) is None by {
                if j > 0 {
                    assert(rest[j - 1] is Some);
                }
            }
        }
    }
}

/// A working directory finds the first project that has it, and none only where none has.
pub proof fn a_directory_finds_its_project(projects: Seq<Project>, cwd: Seq<char>)
    ensures
        match project_with(projects, cwd) {
            Some(p) => exists|i: int|
                {
                    &&& 0 <= i < projects.len()
                    &&& (#[trigger] projects[i]).cwd == Some(cwd) && projects[i].path == p
                    &&& forall|j: int| 0 <= j < i ==> (#[trigger] projects[j]).cwd != Some(cwd)
                },
            None => forall|j: int|
                0 <= j < projects.len() ==> (#[trigger] projects[j]).cwd != Some(cwd),
        },
    decreases projects.len(),
{
    if projects.len() > 0 {
        let rest = projects.drop_first();
        a_directory_finds_its_project(rest, cwd);
        assert forall|j: int| 1 <= j < projects.len() implies #[trigger] projects[j] == rest[j
            - 1] by {}
        if projects[0].cwd == Some(cwd) {
            assert(projects[0].path == project_with(projects, cwd)->0);
        } else if project_with(rest, cwd) is Some {
            let p = project_with(rest, cwd)->0;
            let i = choose|i: int|
                {
                    &&& 0 <= i < rest.len()
                    &&& (#[trigger] rest[i]).cwd == Some(cwd) && rest[i].path == p
                    &&& forall|j: int| 0 <= j < i ==> (#[trigger] rest[j]).cwd != Some(cwd)
                };
            assert(projects[i + 1].path == p);
            assert forall|j: int| 0 <= j < i + 1 implies (#[trigger] projects[j]).cwd != Some(
                cwd,
            ) by {
                if j > 0 {
                    assert(rest[j - 1].cwd != Some(cwd));
                }
            }
        } else {
            assert forall|j: int| 0 <= j < projects.len() implies (#[trigger] projects[j]).cwd
                != Some(cwd) by {
                if j > 0 {
                    assert(rest[j - 1].cwd != Some(cwd));
                }
            }
        }
    }
}

/// The transcripts among some files are those with the extension `jsonl`, and each stands
/// for the session directory that has its name without it, below the project.
pub proof fn transcripts_stand_for_sessions(dir: Seq<Seq<char>>, files: Seq<FilePath>)
    ensures
        transcripts_among(files) == files.filter(
            |f: FilePath| extension_of(f@) == Some(seq!['j', 's', 'o', 'n', 'l']),
        ),
        session_dirs(dir, files) == transcripts_among(files).map_values(
            |f: FilePath| dir.push(stem_of(f@)->0),
        ),
    decreases files.len(),
{
    reveal(Seq::filter);
    reveal_strlit("jsonl");
    assert("jsonl"@ =~= seq!['j', 's', 'o', 'n', 'l']);
    let test = |f: FilePath| extension_of(f@) == Some(seq!['j', 's', 'o', 'n', 'l']);
    let home = |f: FilePath| dir.push(stem_of(f@)->0);
    if files.len() == 0 {
        assert(transcripts_among(files) =~= files.filter(test));
        assert(session_dirs(dir, files) =~= transcripts_among(files).map_values(home));
    } else {
        let rest = files.drop_last();
        transcripts_stand_for_sessions(dir, rest);
        assert(transcripts_among(rest).push(files.last()).map_values(home) =~= transcripts_among(
            rest,
        ).map_values(home).push(home(files.last())));
    }
}

/// Paths and projects are shown one by one, a project with its path, its key and its
/// working directory.
pub proof fn projects_are_shown_whole(v: Seq<ProjectDir>, p: Seq<FilePath>)
    ensures
        path_views(p).len() == p.len(),
        forall|i: int| 0 <= i < p.len() ==> #[trigger] path_views(p)[i] == p[i]@,
        project_views(v).len() == v.len(),
        forall|i: int|
            0 <= i < v.len() ==> {
                let x = #[trigger] project_views(v)[i];
                &&& x.path == v[i].path@
                &&& x.key == v[i].key@
                &&& v[i].cwd is None ==> x.cwd is None
                &&& v[i].cwd is Some ==> x.cwd == Some(v[i].cwd->0@)
            },
{
}

} // verus!
