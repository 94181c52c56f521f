//! Logical paths: where a file stands in its repository, as text with `/`
//! between the components. The root is the empty text.
use vstd::prelude::*;

use crate::sort::Ranked;
use crate::text::{
    chars_of, same_text, text_between, text_less, text_lt, text_lt_irreflexive, text_lt_total,
    text_lt_transitive,
};

verus! {

/// A path within a repository.
#[derive(Debug, PartialEq, Eq)]
pub struct LogicalPath {
    /// The path; empty for the root.
    pub text: String,
}

/// Where the last `/` stands; -1 where there is none.
pub open spec fn last_slash(p: Seq<char>) -> int
    decreases p.len(),
{
    if p.len() == 0 {
        -1
    } else if p.last() == '/' {
        p.len() - 1
    } else {
        last_slash(p.drop_last())
    }
}

/// A `/` lies within its text.
pub proof fn last_slash_bounds(p: Seq<char>)
    ensures
        -1 <= last_slash(p) < p.len() || p.len() == 0 && last_slash(p) == -1,
        last_slash(p) >= 0 ==> p[last_slash(p)] == '/',
    decreases p.len(),
{
    if p.len() > 0 && p.last() != '/' {
        last_slash_bounds(p.drop_last());
    }
}

/// The directory that a path lies in: the root has none, and what has no `/`
/// lies in the root.
pub open spec fn parent_path(p: Seq<char>) -> Option<Seq<char>> {
    if p.len() == 0 {
        None
    } else if last_slash(p) >= 0 {
        Some(p.take(last_slash(p)))
    } else {
        Some(seq![])
    }
}

/// A parent is shorter.
pub proof fn parent_is_shorter(p: Seq<char>)
    ensures
        parent_path(p) matches Some(q) ==> q.len() < p.len(),
{
    last_slash_bounds(p);
}

/// How many characters precede the first `/`.
pub open spec fn first_part_len(p: Seq<char>) -> int
    decreases p.len(),
{
    if p.len() == 0 || p[0] == '/' {
        0
    } else {
        1 + first_part_len(p.drop_first())
    }
}

/// The first component; nothing for the root.
pub open spec fn first_part(p: Seq<char>) -> Seq<char> {
    p.take(first_part_len(p))
}

/// Does a path lie in a directory, or is it that directory? All lie in the root.
pub open spec fn lies_in(p: Seq<char>, dir: Seq<char>) -> bool {
    ||| dir.len() == 0
    ||| p == dir
    ||| p.len() > dir.len() && p.take(dir.len() as int) == dir && p[dir.len() as int] == '/'
}

/// Has every component at least one character, and is there one?
pub open spec fn well_formed(p: Seq<char>) -> bool {
    &&& p.len() > 0
    &&& p[0] != '/'
    &&& p.last() != '/'
    &&& forall|i: int| 0 <= i < p.len() - 1 ==> !(p[i] == '/' && #[trigger] p[i + 1] == '/')
}

impl LogicalPath {
    /// The path.
    pub open spec fn view(self) -> Seq<char> {
        self.text@
    }

    /// The path that a text names; none where a component would be empty.
    pub fn new(text: &str) -> (r: Option<LogicalPath>)
        ensures
            r is Some <==> well_formed(text@),
            r matches Some(p) ==> p@ == text@,
            r is None <==> text@.len() == 0 || text@[0] == '/' || text@[text@.len() - 1] == '/'
                || exists|i: int|
                0 < i < text@.len() && text@[i - 1] == '/' && (#[trigger] text@[i]) == '/',
    {
        let chars: Vec<char> = chars_of(text);
        let n: usize = chars.len();
        if n == 0 || chars[0] == '/' || chars[n - 1] == '/' {
            return None;
        }
        let mut i: usize = 1;
        while i < n
            invariant
                1 <= i <= n == chars.len(),
                chars@ == text@,
                forall|k: int|
                    0 <= k < i - 1 ==> !(chars@[k] == '/' && #[trigger] chars@[k + 1] == '/'),
            decreases n - i,
        {
            if chars[i - 1] == '/' && chars[i] == '/' {
                assert(text@[(i - 1) + 1] == '/');
                return None;
            }
            i = i + 1;
        }
        assert forall|k: int| 0 < k < n implies !(text@[k - 1] == '/' && (#[trigger] text@[k])
            == '/') by {
            assert(!(chars@[k - 1] == '/' && chars@[(k - 1) + 1] == '/'));
        }
        Some(LogicalPath { text: text.to_owned() })
    }

    /// The root.
    pub fn root() -> (r: LogicalPath)
        ensures
            r@ == Seq::<char>::empty(),
    {
        LogicalPath { text: String::new() }
    }

    /// An equal path.
    pub fn copied(&self) -> (r: LogicalPath)
        ensures
            r == *self,
    {
        LogicalPath { text: self.text.clone() }
    }

    /// The path as text.
    pub fn as_str(&self) -> (r: &str)
        ensures
            r@ == self@,
    {
        self.text.as_str()
    }

    /// Is it the root?
    pub fn is_root(&self) -> (r: bool)
        ensures
            r == (self@.len() == 0),
    {
        self.text.as_str().is_empty()
    }

    /// Are the two the same?
    pub fn same(&self, other: &LogicalPath) -> (r: bool)
        ensures
            r == (self@ == other@),
    {
        same_text(self.text.as_str(), other.text.as_str())
    }

    /// The directory that it lies in; the root has none.
    pub fn parent(&self) -> (r: Option<LogicalPath>)
        ensures
            match r {
                Some(p) => Some(p@),
                None => None,
            } == parent_path(self@),
    {
        let chars: Vec<char> = chars_of(self.text.as_str());
        if chars.len() == 0 {
            return None;
        }
        let mut i: usize = chars.len();
        assert(chars@.subrange(0, i as int) =~= chars@);
        while i > 0 && chars[i - 1] != '/'
            invariant
                i <= chars.len(),
                last_slash(chars@) == last_slash(chars@.subrange(0, i as int)),
            decreases i,
        {
            assert(chars@.subrange(0, i as int).drop_last() =~= chars@.subrange(0, i - 1));
            i = i - 1;
        }
        if i == 0 {
            let r: LogicalPath = LogicalPath::root();
            assert(r@ =~= seq![]);
            return Some(r);
        }
        let text: String = text_between(&chars, 0, i - 1);
        assert(text@ =~= chars@.take(i - 1));
        Some(LogicalPath { text })
    }

    /// The first component; nothing for the root.
    pub fn first_component(&self) -> (r: String)
        ensures
            r@ == first_part(self@),
    {
        let chars: Vec<char> = chars_of(self.text.as_str());
        let mut i: usize = 0;
        assert(chars@.skip(0) =~= chars@);
        while i < chars.len() && chars[i] != '/'
            invariant
                i <= chars.len(),
                first_part_len(chars@) == i + first_part_len(chars@.skip(i as int)),
            decreases chars.len() - i,
        {
            assert(chars@.skip(i as int).drop_first() =~= chars@.skip(i + 1));
            i = i + 1;
        }
        let r: String = text_between(&chars, 0, i);
        assert(r@ =~= first_part(self@));
        r
    }

    /// Does the path lie in a directory, or is it that directory?
    pub fn starts_with(&self, dir: &LogicalPath) -> (r: bool)
        ensures
            r == lies_in(self@, dir@),
    {
        if dir.is_root() || self.same(dir) {
            return true;
        }
        let a: Vec<char> = chars_of(self.text.as_str());
        let b: Vec<char> = chars_of(dir.text.as_str());
        if a.len() <= b.len() || a[b.len()] != '/' {
            return false;
        }
        let head: String = text_between(&a, 0, b.len());
        assert(head@ =~= self@.take(dir@.len() as int));
        same_text(head.as_str(), dir.text.as_str())
    }

    /// Does this path stand strictly before the other?
    pub fn less(&self, other: &LogicalPath) -> (r: bool)
        ensures
            r == text_lt(self@, other@),
    {
        text_less(self.text.as_str(), other.text.as_str())
    }
}

impl Ranked for LogicalPath {
    open spec fn ahead(self, other: Self) -> bool {
        text_lt(self@, other@)
    }

    proof fn ahead_one_way(a: Self, b: Self) {
        if b.ahead(a) {
            text_lt_transitive(a@, b@, a@);
            text_lt_irreflexive(a@);
        }
    }

    proof fn behind_carries(a: Self, b: Self, c: Self) {
        if a.ahead(c) {
            text_lt_total(a@, b@);
            text_lt_total(b@, c@);
            if text_lt(b@, a@) {
                text_lt_transitive(b@, a@, c@);
            }
        }
    }

    fn is_ahead(&self, other: &Self) -> (r: bool) {
        self.less(other)
    }
}

/// Paths, as mathematics.
pub open spec fn logical_views(v: Seq<LogicalPath>) -> Seq<Seq<char>> {
    Seq::new(v.len(), |i: int| v[i]@)
}

/// Is the path among these?
pub fn holds_path(v: &Vec<LogicalPath>, path: &LogicalPath) -> (r: bool)
    ensures
        r == logical_views(v@).contains(path@),
{
    find_path(v, path).is_some()
}

/// Where a path first stands among these.
pub fn find_path(v: &Vec<LogicalPath>, path: &LogicalPath) -> (r: Option<usize>)
    ensures
        r is Some <==> logical_views(v@).contains(path@),
        r matches Some(i) ==> i < v@.len() && v@[i as int]@ == path@ && (forall|k: int|
            0 <= k < i ==> (#[trigger] v@[k])@ != path@),
{
    let mut i: usize = 0;
    while i < v.len()
        invariant
            i <= v.len(),
            forall|k: int| 0 <= k < i ==> (#[trigger] v@[k])@ != path@,
        decreases v.len() - i,
    {
        if v[i].same(path) {
            assert(logical_views(v@)[i as int] == path@);
            return Some(i);
        }
        i = i + 1;
    }
    proof {
        if logical_views(v@).contains(path@) {
            let k = logical_views(v@).index_of(path@);
            assert(v@[k]@ == path@);
        }
    }
    None
}

/// A path lies in its parent, with one component more: the parent is what stands before
/// the last `/`, and the root where there is none.
pub proof fn a_parent_is_one_component_shorter(p: Seq<char>)
    ensures
        parent_path(p) is None <==> p.len() == 0,
        parent_path(p) matches Some(q) ==> {
            let rest = if q.len() == 0 && p[0] != '/' {
                p
            } else {
                p.skip(q.len() as int + 1)
            };
            &&& q.len() < p.len()
            &&& p.take(q.len() as int) == q
            &&& q.len() > 0 ==> p[q.len() as int] == '/'
            &&& !rest.contains('/')
        },
{
    last_slash_bounds(p);
    last_slash_is_last(p);
    if let Some(q) = parent_path(p) {
        assert(p.take(q.len() as int) =~= q);
        let rest = if q.len() == 0 && p[0] != '/' {
            p
        } else {
            p.skip(q.len() as int + 1)
        };
        if rest.contains('/') {
            let i = rest.index_of('/');
            assert(rest[i] == '/');
            if q.len() == 0 && p[0] != '/' {
                assert(p[i] == '/');
            } else {
                assert(p[i + q.len() + 1] == '/');
            }
        }
    }
}

proof fn last_slash_is_last(p: Seq<char>)
    ensures
        forall|i: int| 0 <= i < p.len() && #[trigger] p[i] == '/' ==> i <= last_slash(p),
    decreases p.len(),
{
    if p.len() > 0 && p.last() != '/' {
        let rest = p.drop_last();
        last_slash_is_last(rest);
        assert forall|i: int| 0 <= i < p.len() && #[trigger] p[i] == '/' implies i <= last_slash(
            p,
        ) by {
            assert(rest[i] == '/');
        }
    }
}

/// What a path lies in is the path itself and what its parent lies in.
pub proof fn what_holds_a_path_holds_its_parent(p: Seq<char>, dir: Seq<char>)
    ensures
        (dir.len() == 0 || p == dir || (p.len() > dir.len() && p.take(dir.len() as int) == dir
            && p[dir.len() as int] == '/')) <==> p == dir || (parent_path(p) matches Some(q) && (
        dir.len() == 0 || q == dir || (q.len() > dir.len() && q.take(dir.len() as int) == dir
            && q[dir.len() as int] == '/'))),
{
    last_slash_bounds(p);
    last_slash_is_last(p);
    if p.len() == 0 && dir.len() == 0 {
        assert(p =~= dir);
    }
    if let Some(q) = parent_path(p) {
        if dir.len() > 0 && p.len() > dir.len() && p.take(dir.len() as int) == dir
            && p[dir.len() as int] == '/' {
            assert(dir.len() <= last_slash(p));
            assert(q.take(dir.len() as int) =~= dir);
        }
        if dir.len() > 0 && q == dir {
            assert(p.take(dir.len() as int) =~= dir);
        }
        if q.len() > dir.len() && q.take(dir.len() as int) == dir && q[dir.len() as int] == '/' {
            assert(p.take(dir.len() as int) =~= dir);
        }
    }
}

/// A path lies in a directory where it is that directory or goes on from it with a `/`,
/// and everything lies in the root.
pub proof fn lying_in_a_directory_is_going_on_from_it(p: Seq<char>, dir: Seq<char>)
    ensures
        lies_in(p, dir) <==> (dir.len() == 0 || p == dir || exists|rest: Seq<char>|
            p == #[trigger] (dir + seq!['/'] + rest)),
{
    if p.len() > dir.len() && p.take(dir.len() as int) == dir && p[dir.len() as int] == '/' {
        let rest = p.skip(dir.len() as int + 1);
        assert(p =~= dir + seq!['/'] + rest);
    }
    if exists|rest: Seq<char>| p == #[trigger] (dir + seq!['/'] + rest) {
        let rest = choose|rest: Seq<char>| p == #[trigger] (dir + seq!['/'] + rest);
        assert(p.take(dir.len() as int) =~= dir);
    }
}

proof fn first_part_bounds(p: Seq<char>)
    ensures
        0 <= first_part_len(p) <= p.len(),
    decreases p.len(),
{
    if p.len() > 0 && p[0] != '/' {
        first_part_bounds(p.drop_first());
    }
}

/// The first component is what stands before the first `/`, and all of it where there is
/// none.
pub proof fn the_first_component_has_no_slash(p: Seq<char>)
    ensures
        first_part(p).len() <= p.len(),
        first_part(p) == p.take(first_part(p).len() as int),
        !first_part(p).contains('/'),
        first_part(p).len() < p.len() ==> p[first_part(p).len() as int] == '/',
    decreases p.len(),
{
    if p.len() > 0 && p[0] != '/' {
        let rest = p.drop_first();
        the_first_component_has_no_slash(rest);
        first_part_bounds(rest);
        assert(first_part(p) =~= seq![p[0]] + first_part(rest));
        if first_part(p).contains('/') {
            let i = first_part(p).index_of('/');
            assert(first_part(rest)[i - 1] == '/');
        }
    }
}

/// A list of paths is shown path by path, each as its text.
pub proof fn paths_are_shown_as_their_texts(v: Seq<LogicalPath>)
    ensures
        logical_views(v).len() == v.len(),
        forall|i: int| 0 <= i < v.len() ==> #[trigger] logical_views(v)[i] == v[i].text@,
{
}

} // verus!
