//! File paths as the list of their components.
use vstd::prelude::*;

use crate::json::opt_text;
use crate::sort::Ranked;
use crate::text::{
    chars_of, push_text, same_text, text_between, text_less, text_lt, text_lt_irreflexive,
    text_lt_total, text_lt_transitive,
};

verus! {

/// A file path, component by component. The root is the component `/`.
#[derive(Debug, PartialEq, Eq)]
pub struct FilePath {
    /// The components, outermost first.
    pub parts: Vec<String>,
}

/// The components of a path.
pub open spec fn parts_of(p: Seq<String>) -> Seq<Seq<char>> {
    Seq::new(p.len(), |i: int| p[i]@)
}

/// Where a component stands before its text counts: the root, this directory,
/// the parent directory, then every name.
pub open spec fn part_rank(part: Seq<char>) -> int {
    if part == "/"@ {
        0
    } else if part == "."@ {
        1
    } else if part == ".."@ {
        2
    } else {
        3
    }
}

/// The order of components.
pub open spec fn part_lt(a: Seq<char>, b: Seq<char>) -> bool {
    part_rank(a) < part_rank(b) || (part_rank(a) == part_rank(b) && text_lt(a, b))
}

/// The order of paths: component by component.
pub open spec fn path_lt(a: Seq<Seq<char>>, b: Seq<Seq<char>>) -> bool
    decreases a.len(),
{
    if b.len() == 0 {
        false
    } else if a.len() == 0 {
        true
    } else if a[0] != b[0] {
        part_lt(a[0], b[0])
    } else {
        path_lt(a.drop_first(), b.drop_first())
    }
}

/// No path stands before itself.
pub proof fn path_lt_irreflexive(a: Seq<Seq<char>>)
    ensures
        !path_lt(a, a),
    decreases a.len(),
{
    if a.len() > 0 {
        path_lt_irreflexive(a.drop_first());
    }
}

/// The order of paths is transitive.
pub proof fn path_lt_transitive(a: Seq<Seq<char>>, b: Seq<Seq<char>>, c: Seq<Seq<char>>)
    requires
        path_lt(a, b),
        path_lt(b, c),
    ensures
        path_lt(a, c),
    decreases a.len(),
{
    if a.len() > 0 && b.len() > 0 && c.len() > 0 {
        if a[0] == b[0] && b[0] == c[0] {
            path_lt_transitive(a.drop_first(), b.drop_first(), c.drop_first());
        } else if a[0] != b[0] && b[0] != c[0] {
            if part_rank(a[0]) == part_rank(b[0]) && part_rank(b[0]) == part_rank(c[0]) {
                text_lt_transitive(a[0], b[0], c[0]);
            }
            if a[0] == c[0] {
                text_lt_irreflexive(a[0]);
            }
        }
    }
}

/// Of two different paths, one stands before the other.
pub proof fn path_lt_total(a: Seq<Seq<char>>, b: Seq<Seq<char>>)
    ensures
        path_lt(a, b) || a == b || path_lt(b, a),
    decreases a.len(),
{
    if a.len() == 0 || b.len() == 0 {
        if a.len() == 0 && b.len() == 0 {
            assert(a =~= b);
        }
    } else if a[0] == b[0] {
        path_lt_total(a.drop_first(), b.drop_first());
        if a.drop_first() == b.drop_first() {
            assert(a =~= seq![a[0]] + a.drop_first());
            assert(b =~= seq![b[0]] + b.drop_first());
        }
    } else {
        text_lt_total(a[0], b[0]);
    }
}

/// The last component, where it is a name.
pub open spec fn name_of(p: Seq<Seq<char>>) -> Option<Seq<char>> {
    if p.len() > 0 && part_rank(p.last()) == 3 {
        Some(p.last())
    } else {
        None
    }
}

/// Where the last point of a name stands; -1 where it has none.
pub open spec fn last_point(name: Seq<char>) -> int
    decreases name.len(),
{
    if name.len() == 0 {
        -1
    } else if name.last() == '.' {
        name.len() - 1
    } else {
        last_point(name.drop_last())
    }
}

/// What follows the last point of a name, unless the name starts with it.
pub open spec fn extension_of(p: Seq<Seq<char>>) -> Option<Seq<char>> {
    match name_of(p) {
        Some(name) => if last_point(name) > 0 {
            Some(name.skip(last_point(name) + 1))
        } else {
            None
        },
        None => None,
    }
}

/// A name without its extension.
pub open spec fn stem_of(p: Seq<Seq<char>>) -> Option<Seq<char>> {
    match name_of(p) {
        Some(name) => if last_point(name) > 0 {
            Some(name.take(last_point(name)))
        } else {
            Some(name)
        },
        None => None,
    }
}

/// The path with another name in the place of its own.
pub open spec fn renamed(p: Seq<Seq<char>>, name: Seq<char>) -> Seq<Seq<char>> {
    match name_of(p) {
        Some(_) => p.drop_last().push(name),
        None => p.push(name),
    }
}

/// The path as text, its components joined by `/`.
pub open spec fn path_text(p: Seq<Seq<char>>) -> Seq<char>
    decreases p.len(),
{
    if p.len() == 0 {
        seq![]
    } else if p.len() == 1 {
        p[0]
    } else if p.len() == 2 && p[0] == "/"@ {
        "/"@ + p[1]
    } else {
        path_text(p.drop_last()) + "/"@ + p.last()
    }
}

proof fn last_point_bounds(name: Seq<char>)
    ensures
        -1 <= last_point(name) < name.len(),
    decreases name.len(),
{
    if name.len() > 0 && name.last() != '.' {
        last_point_bounds(name.drop_last());
    }
}

fn rank_of(part: &str) -> (r: u8)
    ensures
        r == part_rank(part@),
{
    if same_text(part, "/") {
        0
    } else if same_text(part, ".") {
        1
    } else if same_text(part, "..") {
        2
    } else {
        3
    }
}

impl FilePath {
    /// The components.
    pub open spec fn view(self) -> Seq<Seq<char>> {
        parts_of(self.parts@)
    }

    /// An equal path.
    pub fn copied(&self) -> (r: FilePath)
        ensures
            r@ == self@,
    {
        let mut parts: Vec<String> = Vec::new();
        let mut i: usize = 0;
        while i < self.parts.len()
            invariant
                i <= self.parts.len(),
                parts.len() == i,
                forall|k: int| 0 <= k < i ==> parts@[k] == #[trigger] self.parts@[k],
            decreases self.parts.len() - i,
        {
            parts.push(self.parts[i].clone());
            i = i + 1;
        }
        let r: FilePath = FilePath { parts };
        assert(r@ =~= self@);
        r
    }

    /// Are the two paths the same?
    pub fn same(&self, other: &FilePath) -> (r: bool)
        ensures
            r == (self@ == other@),
    {
        if self.parts.len() != other.parts.len() {
            assert(self@.len() != other@.len());
            return false;
        }
        let mut i: usize = 0;
        while i < self.parts.len()
            invariant
                self.parts.len() == other.parts.len(),
                i <= self.parts.len(),
                forall|k: int| 0 <= k < i ==> #[trigger] self@[k] == other@[k],
            decreases self.parts.len() - i,
        {
            if !same_text(self.parts[i].as_str(), other.parts[i].as_str()) {
                assert(self@[i as int] != other@[i as int]);
                return false;
            }
            i = i + 1;
        }
        assert(self@ =~= other@);
        true
    }

    /// Does this path stand strictly before the other?
    pub fn less(&self, other: &FilePath) -> (r: bool)
        ensures
            r == path_lt(self@, other@),
    {
        let ghost a = self@;
        let ghost b = other@;
        let n: usize = self.parts.len();
        let m: usize = other.parts.len();
        let mut i: usize = 0;
        assert(a.skip(0) =~= a);
        assert(b.skip(0) =~= b);
        while i < n && i < m
            invariant
                a == self@,
                b == other@,
                n == self.parts.len(),
                m == other.parts.len(),
                i <= n,
                i <= m,
                path_lt(a, b) == path_lt(a.skip(i as int), b.skip(i as int)),
            decreases n - i,
        {
            let x: &str = self.parts[i].as_str();
            let y: &str = other.parts[i].as_str();
            assert(x@ == a[i as int] && y@ == b[i as int]);
            if !same_text(x, y) {
                let p: u8 = rank_of(x);
                let q: u8 = rank_of(y);
                return p < q || (p == q && text_less(x, y));
            }
            assert(a.skip(i as int).drop_first() =~= a.skip(i + 1));
            assert(b.skip(i as int).drop_first() =~= b.skip(i + 1));
            i = i + 1;
        }
        i < m
    }

    /// The last component, where it is a name.
    pub fn file_name(&self) -> (r: Option<&str>)
        ensures
            crate::json::opt_str(r) == name_of(self@),
    {
        let n: usize = self.parts.len();
        if n == 0 {
            return None;
        }
        let last: &str = self.parts[n - 1].as_str();
        assert(last@ == self@.last());
        if rank_of(last) == 3 {
            Some(last)
        } else {
            None
        }
    }

    /// The name without its extension, and the extension.
    pub fn split_name(&self) -> (r: Option<(String, Option<String>)>)
        ensures
            match r {
                Some(p) => stem_of(self@) == Some(p.0@) && opt_text(p.1) == extension_of(self@),
                None => name_of(self@) is None,
            },
    {
        let name: &str = match self.file_name() {
            Some(n) => n,
            None => return None,
        };
        let chars: Vec<char> = chars_of(name);
        proof {
            last_point_bounds(chars@);
        }
        let mut i: usize = chars.len();
        assert(chars@.subrange(0, i as int) =~= chars@);
        while i > 0 && chars[i - 1] != '.'
            invariant
                i <= chars.len(),
                last_point(chars@) == last_point(chars@.subrange(0, i as int)),
            decreases i,
        {
            assert(chars@.subrange(0, i as int).drop_last() =~= chars@.subrange(0, i - 1));
            i = i - 1;
        }
        assert(last_point(chars@) == i - 1);
        if i > 1 {
            let stem: String = text_between(&chars, 0, i - 1);
            let ext: String = text_between(&chars, i, chars.len());
            assert(stem@ =~= chars@.take(i - 1));
            assert(ext@ =~= chars@.skip(i as int));
            Some((stem, Some(ext)))
        } else {
            Some((name.to_owned(), None))
        }
    }

    /// Is the extension this one?
    pub fn has_extension(&self, ext: &str) -> (r: bool)
        ensures
            r == (extension_of(self@) == Some(ext@)),
    {
        match self.split_name() {
            Some((_, Some(e))) => same_text(e.as_str(), ext),
            _ => false,
        }
    }

    /// The path with another name in the place of its own.
    pub fn with_file_name(&self, name: &str) -> (r: FilePath)
        ensures
            r@ == renamed(self@, name@),
    {
        let mut r: FilePath = self.copied();
        if self.file_name().is_some() {
            r.parts.pop();
        }
        r.parts.push(name.to_owned());
        assert(r@ =~= renamed(self@, name@));
        r
    }

    /// The path one component further in.
    pub fn join(&self, name: &str) -> (r: FilePath)
        ensures
            r@ == self@.push(name@),
    {
        let mut r: FilePath = self.copied();
        r.parts.push(name.to_owned());
        assert(r@ =~= self@.push(name@));
        r
    }

    /// The path as text.
    pub fn display(&self) -> (r: String)
        ensures
            r@ == path_text(self@),
    {
        let n: usize = self.parts.len();
        let mut out: String = String::new();
        if n == 0 {
            return out;
        }
        push_text(&mut out, self.parts[0].as_str());
        let ghost p = self@;
        assert(out@ =~= path_text(p.subrange(0, 1)));
        let rooted: bool = same_text(self.parts[0].as_str(), "/");
        let mut i: usize = 1;
        while i < n
            invariant
                1 <= i <= n == self.parts.len(),
                p == self@,
                rooted == (p[0] == "/"@),
                out@ == path_text(p.subrange(0, i as int)),
            decreases n - i,
        {
            let ghost s = p.subrange(0, i + 1);
            assert(s.drop_last() =~= p.subrange(0, i as int));
            if !(rooted && i == 1) {
                push_text(&mut out, "/");
            }
            push_text(&mut out, self.parts[i].as_str());
            assert(out@ =~= path_text(s));
            i = i + 1;
        }
        assert(p.subrange(0, n as int) =~= p);
        out
    }
}

impl Ranked for FilePath {
    open spec fn ahead(self, other: Self) -> bool {
        path_lt(self@, other@)
    }

    proof fn ahead_one_way(a: Self, b: Self) {
        if b.ahead(a) {
            path_lt_transitive(a@, b@, a@);
            path_lt_irreflexive(a@);
        }
    }

    proof fn behind_carries(a: Self, b: Self, c: Self) {
        if a.ahead(c) {
            path_lt_total(a@, b@);
            path_lt_total(b@, c@);
            if path_lt(b@, a@) {
                path_lt_transitive(b@, a@, c@);
            }
        }
    }

    fn is_ahead(&self, other: &Self) -> (r: bool) {
        self.less(other)
    }
}

proof fn last_point_is(name: Seq<char>)
    ensures
        -1 <= last_point(name) < name.len() || name.len() == 0 && last_point(name) == -1,
        last_point(name) >= 0 ==> name[last_point(name)] == '.',
        forall|i: int| last_point(name) < i < name.len() ==> #[trigger] name[i] != '.',
    decreases name.len(),
{
    if name.len() > 0 && name.last() != '.' {
        let rest = name.drop_last();
        last_point_is(rest);
        assert forall|i: int| last_point(name) < i < name.len() implies #[trigger] name[i]
            != '.' by {
            if i < rest.len() {
                assert(rest[i] == name[i]);
            }
        }
    }
}

/// The name of a path is its last component, unless that is the root, `.` or `..`.
pub proof fn the_name_is_the_last_component(p: Seq<Seq<char>>)
    ensures
        p.len() == 0 ==> name_of(p) is None,
        p.len() > 0 && (p.last() == "/"@ || p.last() == "."@ || p.last() == ".."@) ==> name_of(
            p,
        ) is None,
        p.len() > 0 && p.last() != "/"@ && p.last() != "."@ && p.last() != ".."@ ==> name_of(p)
            == Some(p.last()),
{
}

/// An extension is what follows the last point of a name that does not start with it, and
/// the stem what precedes it; without such a point the stem is the name.
pub proof fn a_name_is_its_stem_and_its_extension(
    p: Seq<Seq<char>>,
    stem: Seq<char>,
    ext: Seq<char>,
)
    ensures
        name_of(p) == Some(stem + seq!['.'] + ext) && stem.len() > 0 && !ext.contains('.')
            ==> extension_of(p) == Some(ext) && stem_of(p) == Some(stem),
        (extension_of(p) is Some ==> name_of(p) == Some(
            stem_of(p)->0 + seq!['.'] + extension_of(p)->0,
        ) && stem_of(p)->0.len() > 0 && !extension_of(p)->0.contains('.')),
        extension_of(p) is None ==> stem_of(p) == name_of(p),
{
    if let Some(name) = name_of(p) {
        last_point_is(name);
        let at = last_point(name);
        if name == stem + seq!['.'] + ext && stem.len() > 0 && !ext.contains('.') {
            assert(name[stem.len() as int] == '.');
            if at > stem.len() {
                assert(ext[at - stem.len() - 1] == '.');
            }
            assert(name.skip(at + 1) =~= ext);
            assert(name.take(at) =~= stem);
        }
        if at > 0 {
            let s = name.take(at);
            let e = name.skip(at + 1);
            assert(name =~= s + seq!['.'] + e);
            if e.contains('.') {
                let i = e.index_of('.');
                assert(name[at + 1 + i] == '.');
            }
        }
    }
}

/// Renaming a path keeps what it lies in, and gives it the name.
pub proof fn renaming_keeps_the_directory(p: Seq<Seq<char>>, name: Seq<char>)
    ensures
        renamed(p, name).last() == name,
        renamed(p, name).drop_last() == if name_of(p) is Some {
            p.drop_last()
        } else {
            p
        },
{
    assert(renamed(p, name).drop_last() =~= if name_of(p) is Some {
        p.drop_last()
    } else {
        p
    });
}

/// What lies in a directory stands behind it, and of two paths the one with the earlier
/// component stands first where they first differ.
pub proof fn paths_are_ordered_component_by_component(
    a: Seq<Seq<char>>,
    b: Seq<Seq<char>>,
    k: int,
)
    requires
        0 <= k <= a.len(),
        k <= b.len(),
        a.take(k) == b.take(k),
    ensures
        a.len() == k ==> (path_lt(a, b) <==> k < b.len()),
        k < a.len() && k < b.len() && a[k] != b[k] ==> (path_lt(a, b) <==> part_lt(a[k], b[k])),
    decreases k,
{
    if k > 0 {
        assert(a[0] == a.take(k)[0] && b[0] == b.take(k)[0]);
        let (x, y) = (a.drop_first(), b.drop_first());
        assert(x.take(k - 1) =~= a.take(k).drop_first());
        assert(y.take(k - 1) =~= b.take(k).drop_first());
        paths_are_ordered_component_by_component(x, y, k - 1);
    }
}

/// A path is written with one `/` between its components, and none behind the root.
pub proof fn a_path_is_written_component_by_component(p: Seq<Seq<char>>, name: Seq<char>)
    ensures
        path_text(seq![name]) == name,
        path_text(Seq::<Seq<char>>::empty()).len() == 0,
        p.len() > 0 && !(p.len() == 1 && p[0] == "/"@) ==> path_text(p.push(name)) == path_text(p)
            + "/"@ + name,
        p.len() == 1 && p[0] == "/"@ ==> path_text(p.push(name)) == "/"@ + name,
{
    let q = p.push(name);
    assert(q.drop_last() =~= p);
    if p.len() > 0 {
        assert(q[0] == p[0]);
    }
}

/// A path is shown component by component.
pub proof fn paths_are_shown_by_their_components(p: FilePath)
    ensures
        p@.len() == p.parts@.len(),
        forall|i: int| 0 <= i < p@.len() ==> #[trigger] p@[i] == p.parts@[i]@,
{
}

} // verus!
