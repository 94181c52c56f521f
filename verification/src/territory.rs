//! The directory tree of a repository, as the districts of a city.
use vstd::prelude::*;

use crate::logical::{first_part, parent_is_shorter, parent_path, LogicalPath};
use crate::text::same_text;

verus! {

/// One directory.
#[derive(Debug)]
pub struct Node {
    /// Where it stands.
    pub path: LogicalPath,
    /// The directory it lies in; none for the root.
    pub parent: Option<u32>,
    /// The directories that lie in it.
    pub children: Vec<u32>,
    /// Files directly in it.
    pub own_files: u32,
    /// Files in it at any depth.
    pub subtree_files: u32,
    /// The growth index of its own oldest file.
    pub own_oldest: u32,
    /// The growth index of the oldest file in it at any depth.
    pub oldest: u32,
    /// Is it drawn as one mass?
    pub industrial: bool,
}

/// The directory tree. A directory stands behind the one that it lies in.
#[derive(Debug)]
pub struct Territory {
    /// The directories.
    pub nodes: Vec<Node>,
}

/// The parent of each directory.
pub open spec fn parents(nodes: Seq<Node>) -> Seq<Option<u32>> {
    Seq::new(nodes.len(), |i: int| nodes[i].parent)
}

/// Does every directory stand behind its parent?
pub open spec fn parents_first(up: Seq<Option<u32>>) -> bool {
    forall|i: int| 0 <= i < up.len() ==> ((#[trigger] up[i]) matches Some(p) ==> p < i)
}

/// How deep a directory stands: the root at zero.
pub open spec fn depth_of(up: Seq<Option<u32>>, i: int) -> nat
    decreases i,
{
    if 0 <= i < up.len() {
        match up[i] {
            Some(p) => if p < i {
                1 + depth_of(up, p as int)
            } else {
                0
            },
            None => 0,
        }
    } else {
        0
    }
}

/// Is the first directory the second, or does the second lie in it?
pub open spec fn above(up: Seq<Option<u32>>, a: int, x: int) -> bool
    decreases x,
{
    a == x || (0 <= x < up.len() && match up[x] {
        Some(p) => p < x && above(up, a, p as int),
        None => false,
    })
}

/// No directory is deeper than its place.
pub proof fn depth_bound(up: Seq<Option<u32>>, i: int)
    requires
        0 <= i,
    ensures
        depth_of(up, i) <= i,
    decreases i,
{
    if i < up.len() {
        match up[i] {
            Some(p) => if p < i {
                depth_bound(up, p as int);
            },
            None => {},
        }
    }
}

/// The deepest directory that both lie in, if there is one.
pub open spec fn meeting(up: Seq<Option<u32>>, x: int, y: int) -> Option<int>
    decreases x + y,
    via meeting_ends
{
    if x == y {
        Some(x)
    } else if x < 0 || y < 0 || x >= up.len() || y >= up.len() {
        None
    } else if depth_of(up, x) > depth_of(up, y) {
        match up[x] {
            Some(p) => if p < x {
                meeting(up, p as int, y)
            } else {
                None
            },
            None => None,
        }
    } else if depth_of(up, y) > depth_of(up, x) {
        match up[y] {
            Some(p) => if p < y {
                meeting(up, x, p as int)
            } else {
                None
            },
            None => None,
        }
    } else {
        match (up[x], up[y]) {
            (Some(p), Some(q)) => if p < x && q < y {
                meeting(up, p as int, q as int)
            } else {
                None
            },
            _ => None,
        }
    }
}

#[via_fn]
proof fn meeting_ends(up: Seq<Option<u32>>, x: int, y: int) {
}

/// What stands above a directory stands above what lies in it, and is less deep
/// unless it is the same.
pub proof fn above_facts(up: Seq<Option<u32>>, a: int, x: int)
    requires
        parents_first(up),
        above(up, a, x),
        0 <= x < up.len(),
    ensures
        0 <= a <= x,
        depth_of(up, a) <= depth_of(up, x),
        a != x ==> depth_of(up, a) < depth_of(up, x),
    decreases x,
{
    if a != x {
        above_facts(up, a, up[x]->0 as int);
    }
}

/// What both lie in, and nothing deeper is: the meeting stands above both, and
/// whatever stands above both stands above it.
pub proof fn meeting_is_deepest(up: Seq<Option<u32>>, x: int, y: int, a: int)
    requires
        parents_first(up),
        0 <= x < up.len(),
        0 <= y < up.len(),
    ensures
        meeting(up, x, y) matches Some(m) ==> above(up, m, x) && above(up, m, y) && 0 <= m
            < up.len(),
        above(up, a, x) && above(up, a, y) ==> (meeting(up, x, y) matches Some(m) && above(
            up,
            a,
            m,
        )),
    decreases x + y,
{
    if x != y {
        if above(up, a, x) {
            above_facts(up, a, x);
        }
        if above(up, a, y) {
            above_facts(up, a, y);
        }
        if depth_of(up, x) > depth_of(up, y) {
            meeting_is_deepest(up, up[x]->0 as int, y, a);
        } else if depth_of(up, y) > depth_of(up, x) {
            meeting_is_deepest(up, x, up[y]->0 as int, a);
        } else {
            match (up[x], up[y]) {
                (Some(p), Some(q)) => {
                    meeting_is_deepest(up, p as int, q as int, a);
                },
                _ => {},
            }
        }
    }
}

/// The depth of the deepest directory that both lie in: the largest number for a
/// directory and itself, zero where there is none.
pub open spec fn shared_depth(up: Seq<Option<u32>>, x: int, y: int) -> u32 {
    if x == y {
        u32::MAX
    } else {
        match meeting(up, x, y) {
            Some(m) => depth_of(up, m) as u32,
            None => 0,
        }
    }
}

/// The depth of each directory.
pub open spec fn depths_of(up: Seq<Option<u32>>) -> Seq<u32> {
    Seq::new(up.len(), |i: int| depth_of(up, i) as u32)
}

/// The first directory whose path starts with the same component.
pub open spec fn first_kin(nodes: Seq<Node>, name: Seq<char>, i: int) -> int
    decreases nodes.len() - i,
{
    if i < 0 || i >= nodes.len() || first_part(nodes[i].path@) == name {
        i
    } else {
        first_kin(nodes, name, i + 1)
    }
}

/// The top-level package of a directory: the first directory whose path starts
/// with the same component.
pub open spec fn package_at(nodes: Seq<Node>, i: int) -> int {
    first_kin(nodes, first_part(nodes[i].path@), 0)
}

/// Where a path first stands among some directories.
pub open spec fn node_at(nodes: Seq<Node>, path: Seq<char>) -> Option<int>
    decreases nodes.len(),
{
    if nodes.len() == 0 {
        None
    } else {
        match node_at(nodes.drop_last(), path) {
            Some(i) => Some(i),
            None => if nodes.last().path@ == path {
                Some(nodes.len() - 1)
            } else {
                None
            },
        }
    }
}

/// The nearest directory at or above a path that the tree knows.
pub open spec fn nearest_known(nodes: Seq<Node>, path: Seq<char>) -> Option<int>
    decreases path.len(),
    via nearest_known_ends
{
    match node_at(nodes, path) {
        Some(i) => Some(i),
        None => match parent_path(path) {
            Some(p) => nearest_known(nodes, p),
            None => None,
        },
    }
}

#[via_fn]
proof fn nearest_known_ends(nodes: Seq<Node>, path: Seq<char>) {
    parent_is_shorter(path);
}

/// The directory that a file lies in, or the root.
pub open spec fn home_of(path: Seq<char>) -> Seq<char> {
    match parent_path(path) {
        Some(p) => p,
        None => seq![],
    }
}

/// The directory that a file belongs to.
pub fn district_of(path: &LogicalPath) -> (r: LogicalPath)
    ensures
        r@ == home_of(path@),
{
    match path.parent() {
        Some(p) => p,
        None => LogicalPath::root(),
    }
}

impl Territory {
    /// Parents stand first, and a directory's children are those whose parent it is.
    pub open spec fn wf(self) -> bool {
        &&& self.nodes@.len() < u32::MAX
        &&& parents_first(parents(self.nodes@))
        &&& forall|i: int, c: int|
            0 <= i < self.nodes@.len() && 0 <= c < self.nodes@.len() ==> (
            #[trigger] self.nodes@[i].children@.contains(c as u32) <==> (#[trigger] self.nodes@[c]).parent
                == Some(i as u32))
    }

    /// The parent of each directory.
    pub open spec fn up(self) -> Seq<Option<u32>> {
        parents(self.nodes@)
    }

    /// The depth of each directory.
    pub fn depths(&self) -> (r: Vec<u32>)
        requires
            self.wf(),
        ensures
            r@ == depths_of(self.up()),
            r@.len() == self.nodes@.len(),
            forall|i: int|
                0 <= i < r@.len() ==> match self.nodes@[i].parent {
                    Some(p) => #[trigger] r@[i] == r@[p as int] + 1,
                    None => r@[i] == 0,
                },
    {
        let ghost up = self.up();
        let mut out: Vec<u32> = Vec::new();
        let mut i: usize = 0;
        while i < self.nodes.len()
            invariant
                self.wf(),
                up == self.up(),
                i <= self.nodes.len(),
                out.len() == i,
                forall|k: int| 0 <= k < i ==> #[trigger] out@[k] == depth_of(up, k),
            decreases self.nodes.len() - i,
        {
            assert(up[i as int] == self.nodes@[i as int].parent);
            proof {
                depth_bound(up, i as int);
            }
            let d: u32 = match self.nodes[i].parent {
                Some(p) => {
                    proof {
                        depth_bound(up, p as int);
                    }
                    out[p as usize] + 1
                },
                None => 0,
            };
            out.push(d);
            i = i + 1;
        }
        assert(out@ =~= depths_of(up));
        out
    }

    /// The place of the directory with a path.
    pub fn get(&self, path: &LogicalPath) -> (r: Option<u32>)
        requires
            self.wf(),
        ensures
            match r {
                Some(i) => node_at(self.nodes@, path@) == Some(i as int) && i < self.nodes@.len(),
                None => node_at(self.nodes@, path@) is None,
            },
    {
        let mut i: usize = 0;
        assert(self.nodes@.subrange(0, 0) =~= seq![]);
        while i < self.nodes.len()
            invariant
                self.wf(),
                i <= self.nodes.len(),
                node_at(self.nodes@.subrange(0, i as int), path@) is None,
            decreases self.nodes.len() - i,
        {
            let ghost here = self.nodes@.subrange(0, i + 1);
            assert(here.drop_last() =~= self.nodes@.subrange(0, i as int));
            if self.nodes[i].path.same(path) {
                proof {
                    node_at_prefix(self.nodes@, path@, i + 1);
                }
                return Some(i as u32);
            }
            i = i + 1;
        }
        assert(self.nodes@.subrange(0, i as int) =~= self.nodes@);
        None
    }

    /// The district that a file belongs to: its directory, or the nearest above it
    /// that the tree knows; the first where it knows none.
    pub fn district_of(&self, path: &LogicalPath) -> (r: u32)
        requires
            self.wf(),
        ensures
            r == match nearest_known(self.nodes@, home_of(path@)) {
                Some(i) => i,
                None => 0,
            },
    {
        let mut here: LogicalPath = district_of(path);
        loop
            invariant
                self.wf(),
                nearest_known(self.nodes@, home_of(path@)) == nearest_known(self.nodes@, here@),
            decreases here@.len(),
        {
            if let Some(id) = self.get(&here) {
                return id;
            }
            proof {
                parent_is_shorter(here@);
            }
            match here.parent() {
                Some(p) => {
                    here = p;
                },
                None => return 0,
            }
        }
    }

    /// The top-level package of every directory.
    pub fn package_of(&self) -> (r: Vec<u32>)
        requires
            self.wf(),
        ensures
            r.len() == self.nodes@.len(),
            forall|i: int| 0 <= i < r.len() ==> (#[trigger] r@[i]) == package_at(self.nodes@, i),
    {
        let mut out: Vec<u32> = Vec::new();
        let mut i: usize = 0;
        while i < self.nodes.len()
            invariant
                self.wf(),
                i <= self.nodes.len(),
                out.len() == i,
                forall|k: int| 0 <= k < i ==> (#[trigger] out@[k]) == package_at(self.nodes@, k),
            decreases self.nodes.len() - i,
        {
            let name: String = self.nodes[i].path.first_component();
            let mut j: usize = 0;
            while j < i && !same_text(self.nodes[j].path.first_component().as_str(), name.as_str())
                invariant
                    j <= i < self.nodes.len(),
                    name@ == first_part(self.nodes@[i as int].path@),
                    first_kin(self.nodes@, name@, 0) == first_kin(self.nodes@, name@, j as int),
                decreases i - j,
            {
                j = j + 1;
            }
            out.push(j as u32);
            i = i + 1;
        }
        out
    }
}

proof fn node_at_prefix(nodes: Seq<Node>, path: Seq<char>, n: int)
    requires
        0 <= n <= nodes.len(),
        node_at(nodes.subrange(0, n), path) is Some,
    ensures
        node_at(nodes, path) == node_at(nodes.subrange(0, n), path),
    decreases nodes.len() - n,
{
    if n == nodes.len() {
        assert(nodes.subrange(0, n) =~= nodes);
    } else {
        assert(nodes.subrange(0, n + 1).drop_last() =~= nodes.subrange(0, n));
        node_at_prefix(nodes, path, n + 1);
    }
}

/// The depth of the deepest directory that both lie in.
pub fn common_depth(territory: &Territory, depth: &Vec<u32>, first: u32, second: u32) -> (r: u32)
    requires
        territory.wf(),
        depth@ == depths_of(territory.up()),
        first < territory.nodes@.len(),
        second < territory.nodes@.len(),
    ensures
        r == shared_depth(territory.up(), first as int, second as int),
{
    if first == second {
        return 0xffff_ffff;
    }
    let ghost up = territory.up();
    let mut x: u32 = first;
    let mut y: u32 = second;
    while x != y
        invariant
            territory.wf(),
            up == territory.up(),
            depth@ == depths_of(up),
            x < up.len() == territory.nodes@.len(),
            y < up.len(),
            first != second,
            meeting(up, first as int, second as int) == meeting(up, x as int, y as int),
        decreases x + y,
    {
        let ghost px = up[x as int];
        let ghost py = up[y as int];
        let dx: u32 = depth[x as usize];
        let dy: u32 = depth[y as usize];
        proof {
            depth_bound(up, x as int);
            depth_bound(up, y as int);
            assert(px == territory.nodes@[x as int].parent);
            assert(py == territory.nodes@[y as int].parent);
            assert(dx == depth_of(up, x as int) && dy == depth_of(up, y as int));
        }
        if dx > dy {
            match territory.nodes[x as usize].parent {
                Some(p) => {
                    x = p;
                },
                None => return 0,
            }
        } else if dy > dx {
            match territory.nodes[y as usize].parent {
                Some(p) => {
                    y = p;
                },
                None => return 0,
            }
        } else {
            match (territory.nodes[x as usize].parent, territory.nodes[y as usize].parent) {
                (Some(p), Some(q)) => {
                    x = p;
                    y = q;
                },
                _ => return 0,
            }
        }
    }
    proof {
        depth_bound(up, x as int);
    }
    depth[x as usize]
}

/// The root is at no depth and every other directory one deeper than the one that it
/// lies in; what stands above a directory is the directory itself and what stands
/// above the one that it lies in.
pub proof fn a_directory_is_one_below_its_parent(up: Seq<Option<u32>>, x: int)
    requires
        parents_first(up),
        0 <= x < up.len(),
    ensures
        match up[x] {
            Some(p) => depth_of(up, x) == depth_of(up, p as int) + 1 && forall|a: int| #[trigger]
                above(up, a, x) <==> a == x || above(up, a, p as int),
            None => depth_of(up, x) == 0 && forall|a: int| #[trigger] above(up, a, x) <==> a == x,
        },
{
}

/// What two different directories share is as deep as the deepest that both lie in, and no
/// deeper; they share nothing below the root where only the root, or nothing, holds
/// both.
pub proof fn the_meeting_is_the_deepest_shared(up: Seq<Option<u32>>, x: int, y: int)
    requires
        parents_first(up),
        up.len() <= u32::MAX,
        0 <= x < up.len(),
        0 <= y < up.len(),
    ensures
        x == y ==> shared_depth(up, x, y) == u32::MAX,
        x != y ==> forall|a: int| #[trigger]
            above(up, a, x) && above(up, a, y) ==> depth_of(up, a) <= shared_depth(up, x, y),
        x != y && shared_depth(up, x, y) > 0 ==> exists|a: int| #[trigger]
            above(up, a, x) && above(up, a, y) && depth_of(up, a) == shared_depth(up, x, y),
{
    meeting_is_deepest(up, x, y, x);
    if let Some(m) = meeting(up, x, y) {
        depth_bound(up, m);
        assert(above(up, m, x));
    }
    assert forall|a: int| x != y && #[trigger] above(up, a, x) && above(up, a, y) implies depth_of(
        up,
        a,
    ) <= shared_depth(up, x, y) by {
        meeting_is_deepest(up, x, y, a);
        above_facts(up, a, meeting(up, x, y)->0);
    }
}

proof fn kin_from(nodes: Seq<Node>, name: Seq<char>, i: int)
    requires
        0 <= i <= nodes.len(),
    ensures
        ({
            let k = first_kin(nodes, name, i);
            &&& i <= k <= nodes.len()
            &&& forall|j: int| i <= j < k ==> first_part((#[trigger] nodes[j]).path@) != name
            &&& k < nodes.len() ==> first_part(nodes[k].path@) == name
        }),
    decreases nodes.len() - i,
{
    if i < nodes.len() && first_part(nodes[i].path@) != name {
        kin_from(nodes, name, i + 1);
    }
}

/// The package of a directory is the first directory whose path starts with the same
/// component; so two directories are in one package exactly where their paths start
/// with the same one.
pub proof fn a_package_is_a_first_component(nodes: Seq<Node>, i: int, j: int)
    requires
        0 <= i < nodes.len(),
        0 <= j < nodes.len(),
    ensures
        0 <= package_at(nodes, i) <= i,
        first_part(nodes[package_at(nodes, i)].path@) == first_part(nodes[i].path@),
        forall|k: int|
            0 <= k < package_at(nodes, i) ==> first_part((#[trigger] nodes[k]).path@) != first_part(
                nodes[i].path@,
            ),
        package_at(nodes, i) == package_at(nodes, j) <==> first_part(nodes[i].path@) == first_part(
            nodes[j].path@,
        ),
{
    kin_from(nodes, first_part(nodes[i].path@), 0);
    kin_from(nodes, first_part(nodes[j].path@), 0);
}

/// A path stands where it first does, and nowhere only where no directory has it.
pub proof fn a_path_finds_its_directory(nodes: Seq<Node>, path: Seq<char>)
    ensures
        match node_at(nodes, path) {
            Some(i) => 0 <= i < nodes.len() && nodes[i].path@ == path && (forall|j: int|
                0 <= j < i ==> (#[trigger] nodes[j]).path@ != path),
            None => forall|j: int| 0 <= j < nodes.len() ==> (#[trigger] nodes[j]).path@ != path,
        },
    decreases nodes.len(),
{
    if nodes.len() > 0 {
        let rest = nodes.drop_last();
        a_path_finds_its_directory(rest, path);
        assert forall|j: int| 0 <= j < rest.len() implies rest[j] == #[trigger] nodes[j] by {}
    }
}

/// A directory that is known is the nearest to its own path, and a path that is not known
/// is as near as the one above it.
pub proof fn unknown_paths_go_up(nodes: Seq<Node>, path: Seq<char>)
    ensures
        (exists|i: int| 0 <= i < nodes.len() && (#[trigger] nodes[i]).path@ == path)
            ==> nearest_known(nodes, path) is Some && nodes[nearest_known(nodes, path)->0].path@
            == path,
        (forall|i: int| 0 <= i < nodes.len() ==> (#[trigger] nodes[i]).path@ != path)
            ==> nearest_known(nodes, path) == match parent_path(path) {
            Some(p) => nearest_known(nodes, p),
            None => None,
        },
        home_of(path) == match parent_path(path) {
            Some(p) => p,
            None => Seq::empty(),
        },
{
    a_path_finds_its_directory(nodes, path);
}

} // verus!
