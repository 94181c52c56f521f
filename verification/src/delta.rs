//! Changes to a repository, batched so that the map does not move under the eye.
use vstd::prelude::*;

use crate::folds::{fold_step, take_all};
use crate::logical::{find_path, holds_path, logical_views, LogicalPath};
use crate::ordered::{ascending, in_order, in_order_is, TextSet};

verus! {

/// Shortest tween, in milliseconds.
pub const MIN_TWEEN_MS: u64 = 800;

/// Longest tween, in milliseconds.
pub const MAX_TWEEN_MS: u64 = 4_000;

/// Milliseconds of tween for each changed file.
pub const TWEEN_MS_PER_CHANGE: u64 = 20;

/// How long the camera must be still before the map moves, in milliseconds.
pub const CAMERA_STILL_MS: u64 = 250;

/// How often a batch may be put off.
pub const MAX_DEFERRALS: u32 = 32;

/// How many changes a batch may hold before it is applied whatever the camera does.
pub const MAX_DEFERRED_CHANGES: usize = 64;

/// What changed in a repository.
#[derive(Debug)]
pub struct RepoDelta {
    /// Files that appeared, in growth order.
    pub added: Vec<LogicalPath>,
    /// Files that are gone.
    pub removed: Vec<LogicalPath>,
    /// Files of another size.
    pub resized: Vec<LogicalPath>,
    /// Files with other uncommitted work.
    pub retouched: Vec<LogicalPath>,
}

/// What changed, as mathematics.
pub ghost struct Changes {
    pub added: Seq<Seq<char>>,
    pub removed: Seq<Seq<char>>,
    pub resized: Seq<Seq<char>>,
    pub retouched: Seq<Seq<char>>,
}

/// Nothing changed.
pub open spec fn no_changes() -> Changes {
    Changes { added: seq![], removed: seq![], resized: seq![], retouched: seq![] }
}

impl Changes {
    /// How many changes there are.
    pub open spec fn count(self) -> nat {
        self.added.len() + self.removed.len() + self.resized.len() + self.retouched.len()
    }
}

impl RepoDelta {
    /// What changed.
    pub open spec fn view(self) -> Changes {
        Changes {
            added: logical_views(self.added@),
            removed: logical_views(self.removed@),
            resized: logical_views(self.resized@),
            retouched: logical_views(self.retouched@),
        }
    }

    /// Nothing changed.
    pub fn new() -> (r: Self)
        ensures
            r@ == no_changes(),
    {
        let r: Self = RepoDelta {
            added: Vec::new(),
            removed: Vec::new(),
            resized: Vec::new(),
            retouched: Vec::new(),
        };
        proof {
            assert(r@.added =~= seq![]);
            assert(r@.removed =~= seq![]);
            assert(r@.resized =~= seq![]);
            assert(r@.retouched =~= seq![]);
        }
        r
    }

    /// How many changes there are, as far as a machine word goes.
    pub fn len(&self) -> (r: usize)
        ensures
            r == crate::index::word(self@.count()),
            ({
                let n = self.added@.len() + self.removed@.len() + self.resized@.len()
                    + self.retouched@.len();
                r == if n > usize::MAX {
                    usize::MAX as int
                } else {
                    n as int
                }
            }),
    {
        self.added.len().saturating_add(self.removed.len()).saturating_add(
            self.resized.len(),
        ).saturating_add(self.retouched.len())
    }

    /// Did nothing change?
    pub fn is_empty(&self) -> (r: bool)
        ensures
            r == (self@.count() == 0),
            r == (self.added@.len() == 0 && self.removed@.len() == 0 && self.resized@.len() == 0
                && self.retouched@.len() == 0),
    {
        self.added.len() == 0 && self.removed.len() == 0 && self.resized.len() == 0
            && self.retouched.len() == 0
    }
}

impl Default for RepoDelta {
    fn default() -> (r: Self)
        ensures
            r@ == no_changes(),
    {
        RepoDelta::new()
    }
}

/// Paths in order, each once.
pub open spec fn canonical(p: Seq<Seq<char>>) -> Seq<Seq<char>> {
    in_order(p.to_set())
}

/// Paths in order, each once.
pub fn canonical_order(paths: &Vec<LogicalPath>) -> (r: Vec<LogicalPath>)
    ensures
        logical_views(r@) == canonical(logical_views(paths@)),
        ascending(logical_views(r@)),
        logical_views(r@).to_set() == logical_views(paths@).to_set(),
{
    let ghost p = logical_views(paths@);
    let mut set: TextSet = TextSet::new();
    let mut i: usize = 0;
    assert(p.subrange(0, 0).to_set() =~= Set::<Seq<char>>::empty());
    while i < paths.len()
        invariant
            i <= paths@.len(),
            p == logical_views(paths@),
            set.wf(),
            set@ == p.subrange(0, i as int).to_set(),
        decreases paths.len() - i,
    {
        let _ = set.insert(paths[i].text.clone());
        proof {
            let past = p.subrange(0, i as int);
            let now = p.subrange(0, i + 1);
            assert(now =~= past.push(p[i as int]));
            assert(now.to_set() =~= past.to_set().insert(p[i as int])) by {
                assert(now[i as int] == p[i as int]);
                assert forall|k: Seq<char>| past.to_set().contains(k) implies now.to_set().contains(
                    k,
                ) by {
                    let a = past.index_of(k);
                    assert(now[a] == k);
                }
            }
        }
        i = i + 1;
    }
    assert(p.subrange(0, i as int) =~= p);
    let n: usize = set.len();
    let mut out: Vec<LogicalPath> = Vec::new();
    let mut j: usize = 0;
    while j < n
        invariant
            j <= n == set.order().len(),
            set.wf(),
            out.len() == j,
            forall|k: int| 0 <= k < j ==> (#[trigger] out@[k])@ == set.order()[k],
        decreases n - j,
    {
        out.push(LogicalPath { text: set.at(j).clone() });
        j = j + 1;
    }
    proof {
        assert(logical_views(out@) =~= set.order());
        in_order_is(set.order(), set@);
    }
    out
}

/// The place where a path first stands.
pub open spec fn place_in(v: Seq<Seq<char>>, p: Seq<char>) -> int
    decreases v.len(),
{
    if v.len() == 0 || v[0] == p {
        0
    } else {
        1 + place_in(v.drop_first(), p)
    }
}

proof fn place_in_is(v: Seq<Seq<char>>, p: Seq<char>, i: int)
    requires
        0 <= i < v.len(),
        v[i] == p,
        forall|k: int| 0 <= k < i ==> #[trigger] v[k] != p,
    ensures
        place_in(v, p) == i,
    decreases v.len(),
{
    if i > 0 {
        assert forall|k: int| 0 <= k < i - 1 implies #[trigger] v.drop_first()[k] != p by {
            assert(v[k + 1] != p);
        }
        assert(v[0] != p);
        place_in_is(v.drop_first(), p, i - 1);
    }
}

/// A batch with a file that is gone: one that appeared within the batch never
/// was.
pub open spec fn with_removed(c: Changes, p: Seq<char>) -> Changes {
    if c.added.contains(p) {
        Changes { added: c.added.remove(place_in(c.added, p)), ..c }
    } else {
        Changes { removed: c.removed.push(p), ..c }
    }
}

/// A batch with a file that appeared: one that was gone within the batch is back,
/// with another size.
pub open spec fn with_added(c: Changes, p: Seq<char>) -> Changes {
    if c.removed.contains(p) {
        Changes {
            removed: c.removed.remove(place_in(c.removed, p)),
            resized: c.resized.push(p),
            ..c
        }
    } else if c.added.contains(p) {
        c
    } else {
        Changes { added: c.added.push(p), ..c }
    }
}

/// A batch with the first `n` of some files that are gone.
pub open spec fn with_all_removed(c: Changes, p: Seq<Seq<char>>, n: nat) -> Changes
    decreases n,
{
    if n == 0 || n > p.len() {
        c
    } else {
        with_removed(with_all_removed(c, p, (n - 1) as nat), p[n - 1])
    }
}

/// A batch with the first `n` of some files that appeared.
pub open spec fn with_all_added(c: Changes, p: Seq<Seq<char>>, n: nat) -> Changes
    decreases n,
{
    if n == 0 || n > p.len() {
        c
    } else {
        with_added(with_all_added(c, p, (n - 1) as nat), p[n - 1])
    }
}

/// The paths that are in none of three lists, in the order given.
pub open spec fn outside(
    p: Seq<Seq<char>>,
    a: Seq<Seq<char>>,
    b: Seq<Seq<char>>,
    c: Seq<Seq<char>>,
) -> Seq<Seq<char>>
    decreases p.len(),
{
    if p.len() == 0 {
        seq![]
    } else {
        let before = outside(p.drop_last(), a, b, c);
        if a.contains(p.last()) || b.contains(p.last()) || c.contains(p.last()) {
            before
        } else {
            before.push(p.last())
        }
    }
}

/// A batch with a change put in order: what is gone, what has another size and
/// what has other work are in path order, and each file is in one list only.
pub open spec fn settled(c: Changes) -> Changes {
    let removed = canonical(c.removed);
    let resized = canonical(outside(c.resized, c.added, removed, seq![]));
    let retouched = canonical(outside(c.retouched, c.added, removed, resized));
    Changes { added: c.added, removed, resized, retouched }
}

/// Two changes, one after the other.
pub open spec fn merged(c: Changes, d: Changes) -> Changes {
    let gone = with_all_removed(c, d.removed, d.removed.len());
    let back = with_all_added(gone, d.added, d.added.len());
    settled(
        Changes {
            resized: back.resized + d.resized,
            retouched: back.retouched + d.retouched,
            ..back
        },
    )
}

fn drop_path(v: &mut Vec<LogicalPath>, i: usize)
    requires
        i < old(v)@.len(),
    ensures
        logical_views(final(v)@) == logical_views(old(v)@).remove(i as int),
{
    let ghost before = v@;
    let _ = v.remove(i);
    assert(logical_views(v@) =~= logical_views(before).remove(i as int));
}

fn push_path(v: &mut Vec<LogicalPath>, p: LogicalPath)
    ensures
        logical_views(final(v)@) == logical_views(old(v)@).push(p@),
{
    let ghost before = v@;
    v.push(p);
    assert(logical_views(v@) =~= logical_views(before).push(p@));
}

fn keep_outside(
    p: &Vec<LogicalPath>,
    a: &Vec<LogicalPath>,
    b: &Vec<LogicalPath>,
    c: &Vec<LogicalPath>,
) -> (r: Vec<LogicalPath>)
    ensures
        logical_views(r@) == outside(
            logical_views(p@),
            logical_views(a@),
            logical_views(b@),
            logical_views(c@),
        ),
{
    let ghost all = logical_views(p@);
    let mut out: Vec<LogicalPath> = Vec::new();
    let mut i: usize = 0;
    assert(all.subrange(0, 0) =~= seq![]);
    assert(logical_views(out@) =~= seq![]);
    while i < p.len()
        invariant
            i <= p@.len(),
            all == logical_views(p@),
            logical_views(out@) == outside(
                all.subrange(0, i as int),
                logical_views(a@),
                logical_views(b@),
                logical_views(c@),
            ),
        decreases p.len() - i,
    {
        assert(all.subrange(0, i + 1).drop_last() =~= all.subrange(0, i as int));
        assert(all.subrange(0, i + 1).last() == p@[i as int]@);
        if !(holds_path(a, &p[i]) || holds_path(b, &p[i]) || holds_path(c, &p[i])) {
            push_path(&mut out, p[i].copied());
        }
        i = i + 1;
    }
    assert(all.subrange(0, i as int) =~= all);
    out
}

/// Merges a change into a batch, cancelling a file that appeared and vanished.
pub fn merge_delta(into: &mut RepoDelta, from: RepoDelta)
    ensures
        final(into)@ == merged(old(into)@, from@),
{
    let ghost start = into@;
    let ghost d = from@;
    let RepoDelta { added, removed, resized, retouched } = from;
    let mut i: usize = 0;
    while i < removed.len()
        invariant
            i <= removed@.len(),
            logical_views(removed@) == d.removed,
            into@ == with_all_removed(start, d.removed, i as nat),
        decreases removed.len() - i,
    {
        let ghost before = into@;
        assert(d.removed[i as int] == removed@[i as int]@);
        match find_path(&into.added, &removed[i]) {
            Some(k) => {
                proof {
                    assert forall|j: int| 0 <= j < k implies #[trigger] before.added[j]
                        != removed@[i as int]@ by {
                        assert(into.added@[j]@ != removed@[i as int]@);
                    }
                    place_in_is(before.added, removed@[i as int]@, k as int);
                }
                drop_path(&mut into.added, k);
            },
            None => {
                push_path(&mut into.removed, removed[i].copied());
            },
        }
        i = i + 1;
    }
    let ghost gone = into@;
    let mut i: usize = 0;
    while i < added.len()
        invariant
            i <= added@.len(),
            logical_views(added@) == d.added,
            into@ == with_all_added(gone, d.added, i as nat),
        decreases added.len() - i,
    {
        let ghost before = into@;
        assert(d.added[i as int] == added@[i as int]@);
        match find_path(&into.removed, &added[i]) {
            Some(k) => {
                proof {
                    assert forall|j: int| 0 <= j < k implies #[trigger] before.removed[j]
                        != added@[i as int]@ by {
                        assert(into.removed@[j]@ != added@[i as int]@);
                    }
                    place_in_is(before.removed, added@[i as int]@, k as int);
                }
                drop_path(&mut into.removed, k);
                push_path(&mut into.resized, added[i].copied());
            },
            None => {
                if !holds_path(&into.added, &added[i]) {
                    push_path(&mut into.added, added[i].copied());
                }
            },
        }
        i = i + 1;
    }
    let ghost back = into@;
    let mut i: usize = 0;
    assert(back.resized + d.resized.subrange(0, 0) =~= back.resized);
    while i < resized.len()
        invariant
            i <= resized@.len(),
            logical_views(resized@) == d.resized,
            into@ == (Changes { resized: back.resized + d.resized.subrange(0, i as int), ..back }),
        decreases resized.len() - i,
    {
        push_path(&mut into.resized, resized[i].copied());
        proof {
            assert((back.resized + d.resized.subrange(0, i as int)).push(d.resized[i as int])
                =~= back.resized + d.resized.subrange(0, i + 1));
        }
        i = i + 1;
    }
    assert(d.resized.subrange(0, i as int) =~= d.resized);
    let ghost grown = into@;
    let mut i: usize = 0;
    assert(grown.retouched + d.retouched.subrange(0, 0) =~= grown.retouched);
    while i < retouched.len()
        invariant
            i <= retouched@.len(),
            logical_views(retouched@) == d.retouched,
            into@ == (Changes {
                retouched: grown.retouched + d.retouched.subrange(0, i as int),
                ..grown
            }),
        decreases retouched.len() - i,
    {
        push_path(&mut into.retouched, retouched[i].copied());
        proof {
            assert((grown.retouched + d.retouched.subrange(0, i as int)).push(
                d.retouched[i as int],
            ) =~= grown.retouched + d.retouched.subrange(0, i + 1));
        }
        i = i + 1;
    }
    assert(d.retouched.subrange(0, i as int) =~= d.retouched);
    let none: Vec<LogicalPath> = Vec::new();
    assert(logical_views(none@) =~= seq![]);
    into.removed = canonical_order(&into.removed);
    let kept: Vec<LogicalPath> = keep_outside(&into.resized, &into.added, &into.removed, &none);
    into.resized = canonical_order(&kept);
    let kept: Vec<LogicalPath> = keep_outside(
        &into.retouched,
        &into.added,
        &into.removed,
        &into.resized,
    );
    into.retouched = canonical_order(&kept);
}

/// Batches changes until the map may move.
#[derive(Debug)]
pub struct DeformationLimiter {
    /// The batch.
    pub pending: RepoDelta,
    /// How often it has been put off.
    pub deferrals: u32,
}

/// May a batch be applied: has the camera been still, has it been put off often
/// enough, or is it large?
pub open spec fn may_apply(c: Changes, deferrals: u32, camera_still_ms: u64) -> bool {
    &&& c.count() > 0
    &&& camera_still_ms >= CAMERA_STILL_MS || deferrals >= MAX_DEFERRALS || c.count()
        >= MAX_DEFERRED_CHANGES
}

/// How long the tween of so many changes takes, in milliseconds.
pub open spec fn tween_of(count: nat) -> int {
    let ms = MIN_TWEEN_MS + count * TWEEN_MS_PER_CHANGE;
    if ms > MAX_TWEEN_MS {
        MAX_TWEEN_MS as int
    } else {
        ms
    }
}

impl DeformationLimiter {
    /// Nothing batched.
    pub fn new() -> (r: Self)
        ensures
            r.pending@ == no_changes(),
            r.deferrals == 0,
    {
        DeformationLimiter { pending: RepoDelta::new(), deferrals: 0 }
    }

    /// Takes in a change, and says whether the batch may be applied now. It stays
    /// until it is taken.
    pub fn submit(&mut self, delta: RepoDelta, camera_still_ms: u64) -> (r: bool)
        ensures
            final(self).pending@ == merged(old(self).pending@, delta@),
            r == may_apply(final(self).pending@, old(self).deferrals, camera_still_ms),
            final(self).deferrals == if r || final(self).pending@.count() == 0 {
                old(self).deferrals as int
            } else {
                old(self).deferrals + 1
            },
            ({
                let n = final(self).pending.added@.len() + final(self).pending.removed@.len()
                    + final(self).pending.resized@.len() + final(self).pending.retouched@.len();
                r == (n >= 1 && (camera_still_ms >= 250 || old(self).deferrals >= 32 || n >= 64))
            }),
    {
        merge_delta(&mut self.pending, delta);
        if self.pending.is_empty() {
            return false;
        }
        if camera_still_ms >= CAMERA_STILL_MS || self.deferrals >= MAX_DEFERRALS
            || self.pending.len() >= MAX_DEFERRED_CHANGES {
            return true;
        }
        self.deferrals = self.deferrals.saturating_add(1);
        false
    }

    /// Takes the batch, and begins a new one.
    pub fn take_pending(&mut self) -> (r: RepoDelta)
        ensures
            r@ == old(self).pending@,
            final(self).pending@ == no_changes(),
            final(self).deferrals == 0,
    {
        self.deferrals = 0;
        let mut out: RepoDelta = RepoDelta::new();
        std::mem::swap(&mut out, &mut self.pending);
        out
    }

    /// The batch.
    pub fn pending(&self) -> (r: &RepoDelta)
        ensures
            *r == self.pending,
    {
        &self.pending
    }

    /// Is nothing batched?
    pub fn is_empty(&self) -> (r: bool)
        ensures
            r == (self.pending@.count() == 0),
    {
        self.pending.is_empty()
    }

    /// How often the batch has been put off.
    pub fn deferrals(&self) -> (r: u32)
        ensures
            r == self.deferrals,
    {
        self.deferrals
    }

    /// How long the tween of the batch takes, in milliseconds.
    pub fn tween(&self) -> (r: u64)
        ensures
            r == tween_of(self.pending@.count()),
            ({
                let n = self.pending.added@.len() + self.pending.removed@.len()
                    + self.pending.resized@.len() + self.pending.retouched@.len();
                r == if n >= 160 {
                    4_000
                } else {
                    800 + 20 * n
                }
            }),
    {
        let changes: u64 = self.pending.len() as u64;
        if changes >= 160 {
            MAX_TWEEN_MS
        } else {
            MIN_TWEEN_MS + changes * TWEEN_MS_PER_CHANGE
        }
    }
}

/// A batch that has been put off as often as one may be is applied, whatever the
/// camera does.
pub proof fn no_batch_waits_forever(c: Changes, deferrals: u32, camera_still_ms: u64)
    requires
        c.count() > 0,
        deferrals >= MAX_DEFERRALS,
    ensures
        may_apply(c, deferrals, camera_still_ms),
{
}

/// A tween is never shorter than the shortest nor longer than the longest, and
/// more changes never move faster.
pub proof fn tweens_are_bounded(a: nat, b: nat)
    requires
        a <= b,
    ensures
        MIN_TWEEN_MS <= tween_of(a) <= tween_of(b) <= MAX_TWEEN_MS,
{
    assert(a * TWEEN_MS_PER_CHANGE <= b * TWEEN_MS_PER_CHANGE) by (nonlinear_arith)
        requires
            a <= b,
    ;
}

proof fn in_order_members(s: Seq<Seq<char>>)
    ensures
        ascending(canonical(s)),
        canonical(s).to_set() == s.to_set(),
{
    let keys = ordered_of(s);
    in_order_is(keys, s.to_set());
}

proof fn ordered_of(s: Seq<Seq<char>>) -> (keys: Seq<Seq<char>>)
    ensures
        ascending(keys),
        keys.to_set() == s.to_set(),
    decreases s.len(),
{
    if s.len() == 0 {
        assert(Seq::<Seq<char>>::empty().to_set() =~= s.to_set());
        seq![]
    } else {
        let before = ordered_of(s.drop_last());
        let x = s.last();
        let after = crate::ordered::put_in_order(before, x);
        assert(s.to_set() =~= s.drop_last().to_set().insert(x)) by {
            assert forall|k: Seq<char>| s.to_set().contains(k) <==> s.drop_last().to_set().insert(
                x,
            ).contains(k) by {
                if s.contains(k) && k != x {
                    let i = s.index_of(k);
                    assert(s.drop_last()[i] == k);
                }
                if s.drop_last().contains(k) {
                    let i = s.drop_last().index_of(k);
                    assert(s[i] == k);
                }
                assert(s[s.len() - 1] == x);
            }
        }
        after
    }
}

proof fn outside_members(
    p: Seq<Seq<char>>,
    a: Seq<Seq<char>>,
    b: Seq<Seq<char>>,
    c: Seq<Seq<char>>,
    x: Seq<char>,
)
    ensures
        outside(p, a, b, c).contains(x) <==> p.contains(x) && !a.contains(x) && !b.contains(x)
            && !c.contains(x),
    decreases p.len(),
{
    if p.len() > 0 {
        outside_members(p.drop_last(), a, b, c, x);
        let before = outside(p.drop_last(), a, b, c);
        if p.contains(x) {
            let i = p.index_of(x);
            if i < p.len() - 1 {
                assert(p.drop_last()[i] == x);
            }
        }
        if p.drop_last().contains(x) {
            let i = p.drop_last().index_of(x);
            assert(p[i] == x);
        }
        assert(p[p.len() - 1] == p.last());
        let all = outside(p, a, b, c);
        if before.contains(x) {
            let i = before.index_of(x);
            assert(all[i] == x);
        }
        if all.contains(x) {
            let i = all.index_of(x);
            if i < before.len() {
                assert(before[i] == x);
            }
        }
        if all.len() > before.len() {
            assert(all[all.len() - 1] == p.last());
        }
    }
}

/// A batch in order holds each file in one list only, and the three lists without
/// a growth order are in path order.
pub proof fn batches_are_in_order(c: Changes, x: Seq<char>)
    ensures
        ascending(settled(c).removed),
        ascending(settled(c).resized),
        ascending(settled(c).retouched),
        settled(c).removed.contains(x) <==> c.removed.contains(x),
        settled(c).resized.contains(x) ==> !settled(c).added.contains(x)
            && !settled(c).removed.contains(x),
        settled(c).retouched.contains(x) ==> !settled(c).added.contains(x)
            && !settled(c).removed.contains(x) && !settled(c).resized.contains(x),
{
    let s = settled(c);
    in_order_members(c.removed);
    let kept = outside(c.resized, c.added, s.removed, seq![]);
    in_order_members(kept);
    outside_members(c.resized, c.added, s.removed, seq![], x);
    let left = outside(c.retouched, c.added, s.removed, s.resized);
    in_order_members(left);
    outside_members(c.retouched, c.added, s.removed, s.resized, x);
    assert(s.removed.contains(x) <==> s.removed.to_set().contains(x));
    assert(c.removed.contains(x) <==> c.removed.to_set().contains(x));
    assert(s.resized.contains(x) <==> s.resized.to_set().contains(x));
    assert(kept.contains(x) <==> kept.to_set().contains(x));
    assert(s.retouched.contains(x) <==> s.retouched.to_set().contains(x));
    assert(left.contains(x) <==> left.to_set().contains(x));
}

/// A file that appears and vanishes within a batch leaves no trace.
pub proof fn appearing_and_vanishing_cancels(p: Seq<char>)
    ensures
        merged(
            merged(no_changes(), (Changes { added: seq![p], ..no_changes() })),
            (Changes { removed: seq![p], ..no_changes() }),
        ) == no_changes(),
{
    let none = no_changes();
    let came = Changes { added: seq![p], ..none };
    let left = Changes { removed: seq![p], ..none };
    let empty = Seq::<Seq<char>>::empty();
    assert(empty.to_set() =~= Set::<Seq<char>>::empty());
    in_order_is(empty, empty.to_set());
    reveal_with_fuel(with_all_added, 2);
    reveal_with_fuel(with_all_removed, 2);
    assert(empty.push(p) =~= seq![p]);
    assert(empty + empty =~= empty);
    let once = merged(none, came);
    assert(once.added =~= seq![p]);
    assert(once == came);
    assert(seq![p].contains(p)) by {
        assert(seq![p][0] == p);
    }
    assert(seq![p].remove(0) =~= empty);
    assert(place_in(seq![p], p) == 0);
    let twice = merged(once, left);
    assert(twice == none);
}

/// A file that is gone takes the first mention of it off the list of those that appeared;
/// where it is not on that list, it joins those that are gone. The other lists stay.
pub proof fn what_appeared_and_went_never_was(c: Changes, p: Seq<char>)
    ensures
        ({
            let w = with_removed(c, p);
            &&& w.resized == c.resized && w.retouched == c.retouched
            &&& if c.added.contains(p) {
                &&& w.removed == c.removed
                &&& exists|i: int|
                    {
                        &&& 0 <= i < c.added.len()
                        &&& #[trigger] c.added[i] == p
                        &&& !c.added.take(i).contains(p)
                        &&& w.added == c.added.take(i) + c.added.skip(i + 1)
                    }
            } else {
                w.added == c.added && w.removed == c.removed.push(p)
            }
        }),
{
    if c.added.contains(p) {
        let i = first_place(c.added, p);
        assert(c.added.remove(i) =~= c.added.take(i) + c.added.skip(i + 1));
        assert(c.added[i] == p);
    }
}

proof fn first_place(v: Seq<Seq<char>>, p: Seq<char>) -> (i: int)
    requires
        v.contains(p),
    ensures
        0 <= i < v.len(),
        v[i] == p,
        !v.take(i).contains(p),
        place_in(v, p) == i,
    decreases v.len(),
{
    let rest = v.drop_first();
    if v[0] == p {
        assert(!v.take(0).contains(p));
        0
    } else {
        let at = v.index_of(p);
        assert(rest[at - 1] == p);
        let i = first_place(rest, p);
        assert forall|k: int| 0 <= k < i + 1 implies #[trigger] v.take(i + 1)[k] != p by {
            if k > 0 {
                assert(rest.take(i)[k - 1] == v[k]);
            }
        }
        i + 1
    }
}

/// A file that appeared where it was listed as gone is back: the first such mention goes,
/// and the file counts as one of another size. One that is listed as new is not listed
/// twice, and any other joins those that appeared. Work in files stays as listed.
pub proof fn what_went_and_came_back_was_resized(c: Changes, p: Seq<char>)
    ensures
        ({
            let w = with_added(c, p);
            &&& w.retouched == c.retouched
            &&& if c.removed.contains(p) {
                &&& w.added == c.added
                &&& w.resized == c.resized.push(p)
                &&& exists|i: int|
                    {
                        &&& 0 <= i < c.removed.len()
                        &&& #[trigger] c.removed[i] == p
                        &&& !c.removed.take(i).contains(p)
                        &&& w.removed == c.removed.take(i) + c.removed.skip(i + 1)
                    }
            } else {
                &&& w.removed == c.removed && w.resized == c.resized
                &&& w.added == if c.added.contains(p) {
                    c.added
                } else {
                    c.added.push(p)
                }
            }
        }),
{
    if c.removed.contains(p) {
        let i = first_place(c.removed, p);
        assert(c.removed.remove(i) =~= c.removed.take(i) + c.removed.skip(i + 1));
        assert(c.removed[i] == p);
    }
}

proof fn removals_fold(c: Changes, p: Seq<Seq<char>>, n: nat)
    requires
        n <= p.len(),
    ensures
        with_all_removed(c, p, n) == p.take(n as int).fold_left(
            c,
            |w: Changes, x: Seq<char>| with_removed(w, x),
        ),
    decreases n,
{
    if n > 0 {
        removals_fold(c, p, (n - 1) as nat);
        fold_step(p, c, |w: Changes, x: Seq<char>| with_removed(w, x), n);
    }
}

proof fn arrivals_fold(c: Changes, p: Seq<Seq<char>>, n: nat)
    requires
        n <= p.len(),
    ensures
        with_all_added(c, p, n) == p.take(n as int).fold_left(
            c,
            |w: Changes, x: Seq<char>| with_added(w, x),
        ),
    decreases n,
{
    if n > 0 {
        arrivals_fold(c, p, (n - 1) as nat);
        fold_step(p, c, |w: Changes, x: Seq<char>| with_added(w, x), n);
    }
}

/// Two changes together: what the second has gone is taken in first, then what appeared,
/// one file after another. A file is of another size where either change, or its coming
/// back, says so and it is neither new nor gone; it has other work where either change
/// says so and it is on no other list.
pub proof fn a_merged_batch_holds_both(c: Changes, d: Changes)
    ensures
        ({
            let gone = d.removed.fold_left(c, |w: Changes, x: Seq<char>| with_removed(w, x));
            let back = d.added.fold_left(gone, |w: Changes, x: Seq<char>| with_added(w, x));
            let m = merged(c, d);
            &&& m.added == back.added
            &&& ascending(m.removed) && ascending(m.resized) && ascending(m.retouched)
            &&& forall|x: Seq<char>| #[trigger]
                m.removed.contains(x) <==> back.removed.contains(x)
            &&& forall|x: Seq<char>| #[trigger]
                m.resized.contains(x) <==> (back.resized.contains(x) || d.resized.contains(x))
                    && !m.added.contains(x) && !m.removed.contains(x)
            &&& forall|x: Seq<char>| #[trigger]
                m.retouched.contains(x) <==> (back.retouched.contains(x) || d.retouched.contains(
                    x,
                )) && !m.added.contains(x) && !m.removed.contains(x) && !m.resized.contains(x)
        }),
{
    removals_fold(c, d.removed, d.removed.len());
    take_all(d.removed);
    let gone = with_all_removed(c, d.removed, d.removed.len());
    arrivals_fold(gone, d.added, d.added.len());
    take_all(d.added);
    let back = with_all_added(gone, d.added, d.added.len());
    let both = Changes {
        resized: back.resized + d.resized,
        retouched: back.retouched + d.retouched,
        ..back
    };
    let m = merged(c, d);
    batches_are_in_order(both, seq![]);
    assert forall|x: Seq<char>| #[trigger] m.removed.contains(x) <==> back.removed.contains(x) by {
        batches_are_in_order(both, x);
    }
    assert forall|x: Seq<char>| #[trigger]
        m.resized.contains(x) <==> (back.resized.contains(x) || d.resized.contains(x))
            && !m.added.contains(x) && !m.removed.contains(x) by {
        let kept = outside(both.resized, both.added, m.removed, seq![]);
        in_order_members(kept);
        outside_members(both.resized, both.added, m.removed, seq![], x);
        in_both(back.resized, d.resized, x);
        assert(m.resized.contains(x) <==> m.resized.to_set().contains(x));
        assert(kept.contains(x) <==> kept.to_set().contains(x));
    }
    assert forall|x: Seq<char>| #[trigger]
        m.retouched.contains(x) <==> (back.retouched.contains(x) || d.retouched.contains(x))
            && !m.added.contains(x) && !m.removed.contains(x) && !m.resized.contains(x) by {
        let left = outside(both.retouched, both.added, m.removed, m.resized);
        in_order_members(left);
        outside_members(both.retouched, both.added, m.removed, m.resized, x);
        in_both(back.retouched, d.retouched, x);
        assert(m.retouched.contains(x) <==> m.retouched.to_set().contains(x));
        assert(left.contains(x) <==> left.to_set().contains(x));
    }
}

proof fn in_both(a: Seq<Seq<char>>, b: Seq<Seq<char>>, x: Seq<char>)
    ensures
        (a + b).contains(x) <==> a.contains(x) || b.contains(x),
{
    if a.contains(x) {
        assert((a + b)[a.index_of(x)] == x);
    }
    if b.contains(x) {
        assert((a + b)[a.len() + b.index_of(x)] == x);
    }
}

/// A change is shown list by list.
pub proof fn changes_are_shown_list_by_list(d: RepoDelta)
    ensures
        d@.added == logical_views(d.added@),
        d@.removed == logical_views(d.removed@),
        d@.resized == logical_views(d.resized@),
        d@.retouched == logical_views(d.retouched@),
        d@.count() == d.added@.len() + d.removed@.len() + d.resized@.len() + d.retouched@.len(),
        no_changes().count() == 0,
{
}

} // verus!
