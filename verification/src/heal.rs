//! Putting districts that came out in more than one piece back together.
use vstd::prelude::*;

use crate::blocks::BlockPlan;
use crate::edges::halved_all;
use crate::folds::{filter_none, filter_step, fold_step, take_all};
use crate::forest::{linked, linked_back, linked_more, linked_on, linked_self, linked_step};
use crate::pieces::{
    all_pieces, head_is_first, heads_piece, kindred, neighbour_pairs, neighbours, piece_heads,
};
use crate::territory::{above, common_depth, depth_of, depths_of, shared_depth, Territory};

verus! {

/// How many times the districts are swept.
pub const HEAL_PASSES: usize = 4;

/// The blocks and the directory tree, as mathematics: each block's edges, the
/// growth step of its oldest plot, and each directory's parent.
pub ghost struct Town {
    pub lists: Seq<Seq<int>>,
    pub birth: Seq<u32>,
    pub up: Seq<Option<u32>>,
}

impl Town {
    /// Do the two blocks share an edge?
    pub open spec fn near(self, b: int, v: int) -> bool {
        neighbours(self.lists, b, v) || neighbours(self.lists, v, b)
    }

    /// Is the first block older than the second, or as old and listed first?
    pub open spec fn older(self, i: int, j: int) -> bool {
        self.birth[i] < self.birth[j] || (self.birth[i] == self.birth[j] && i < j)
    }

    /// Is the block the oldest of its district?
    pub open spec fn is_oldest(self, start: Seq<Option<u32>>, d: u32, i: int) -> bool {
        &&& 0 <= i < start.len()
        &&& start[i] == Some(d)
        &&& forall|j: int|
            0 <= j < start.len() && j != i && #[trigger] start[j] == Some(d) ==> self.older(i, j)
    }

    /// Are the two blocks in one piece of a district?
    pub open spec fn together(self, start: Seq<Option<u32>>, i: int, j: int) -> bool {
        linked(kindred(self.lists, start), i, j)
    }

    /// Does the block head a stray piece of a district: one without the
    /// district's oldest block?
    pub open spec fn heads_stray(self, start: Seq<Option<u32>>, d: u32, c: int) -> bool {
        &&& 0 <= c < start.len()
        &&& start[c] == Some(d)
        &&& heads_piece(self.lists, start, c)
        &&& forall|i: int| #[trigger] self.is_oldest(start, d, i) ==> !self.together(start, c, i)
    }

    /// How many of the first `n` blocks share an edge with a block and belong to
    /// a district.
    pub open spec fn row(self, cur: Seq<Option<u32>>, b: int, e: u32, n: nat) -> nat
        decreases n,
    {
        if n == 0 || n > cur.len() {
            0
        } else {
            self.row(cur, b, e, (n - 1) as nat) + if self.near(b, n - 1) && cur[n - 1] == Some(e) {
                1nat
            } else {
                0nat
            }
        }
    }

    /// How often the first `n` blocks, as far as they are in the piece of a block,
    /// share an edge with a block of a district.
    pub open spec fn contacts(
        self,
        start: Seq<Option<u32>>,
        cur: Seq<Option<u32>>,
        c: int,
        e: u32,
        n: nat,
    ) -> nat
        decreases n,
    {
        if n == 0 || n > cur.len() {
            0
        } else {
            self.contacts(start, cur, c, e, (n - 1) as nat) + if self.together(start, c, n - 1) {
                self.row(cur, n - 1, e, cur.len())
            } else {
                0nat
            }
        }
    }

    /// How often a piece borders a district.
    pub open spec fn border(
        self,
        start: Seq<Option<u32>>,
        cur: Seq<Option<u32>>,
        c: int,
        e: u32,
    ) -> nat {
        self.contacts(start, cur, c, e, cur.len())
    }

    /// Are two districts in one top-level package: do they share a directory below the
    /// root?
    pub open spec fn kin(self, d: u32, e: u32) -> bool {
        shared_depth(self.up, d as int, e as int) > 0
    }

    /// Does a stray of district `d` go to `t` rather than to `f`: to one in its own
    /// top-level package first, then to the one that it borders most, then to the one
    /// listed first?
    pub open spec fn outranks(
        self,
        start: Seq<Option<u32>>,
        cur: Seq<Option<u32>>,
        d: u32,
        c: int,
        t: u32,
        f: u32,
    ) -> bool {
        let kt = self.kin(d, t);
        let kf = self.kin(d, f);
        let bt = self.border(start, cur, c, t);
        let bf = self.border(start, cur, c, f);
        (kt && !kf) || (kt == kf && (bt > bf || (bt == bf && t < f)))
    }

    /// Could a stray go to the district: is it another one that it borders?
    pub open spec fn could_take(
        self,
        start: Seq<Option<u32>>,
        cur: Seq<Option<u32>>,
        d: u32,
        c: int,
        t: u32,
    ) -> bool {
        t != d && t < self.up.len() && self.border(start, cur, c, t) > 0
    }

    /// Does a stray go to the district?
    pub open spec fn is_heir(
        self,
        start: Seq<Option<u32>>,
        cur: Seq<Option<u32>>,
        d: u32,
        c: int,
        t: u32,
    ) -> bool {
        &&& self.could_take(start, cur, d, c, t)
        &&& forall|f: u32|
            f != t && #[trigger] self.could_take(start, cur, d, c, f) ==> self.outranks(
                start,
                cur,
                d,
                c,
                t,
                f,
            )
    }

    /// The districts after a stray has gone to its heir, if it has one.
    pub open spec fn given(
        self,
        start: Seq<Option<u32>>,
        cur: Seq<Option<u32>>,
        d: u32,
        c: int,
    ) -> Seq<Option<u32>> {
        if exists|t: u32| self.is_heir(start, cur, d, c, t) {
            let t = choose|t: u32| self.is_heir(start, cur, d, c, t);
            Seq::new(
                cur.len(),
                |b: int|
                    if self.together(start, c, b) {
                        Some(t)
                    } else {
                        cur[b]
                    },
            )
        } else {
            cur
        }
    }

    /// The districts after the strays of one that are headed by the first `n`
    /// blocks have gone.
    pub open spec fn mended(
        self,
        start: Seq<Option<u32>>,
        cur: Seq<Option<u32>>,
        d: u32,
        n: nat,
    ) -> Seq<Option<u32>>
        decreases n,
    {
        if n == 0 {
            cur
        } else {
            let before = self.mended(start, cur, d, (n - 1) as nat);
            if self.heads_stray(start, d, n - 1) {
                self.given(start, before, d, n - 1)
            } else {
                before
            }
        }
    }

    /// The districts after the strays of the first `n` districts have gone.
    pub open spec fn swept(self, start: Seq<Option<u32>>, n: nat) -> Seq<Option<u32>>
        decreases n,
    {
        if n == 0 {
            start
        } else {
            self.mended(
                start,
                self.swept(start, (n - 1) as nat),
                (n - 1) as u32,
                start.len(),
            )
        }
    }

    /// The districts after one sweep.
    pub open spec fn sweep(self, start: Seq<Option<u32>>) -> Seq<Option<u32>> {
        self.swept(start, self.up.len())
    }

    /// The districts after so many sweeps.
    pub open spec fn sweeps(self, start: Seq<Option<u32>>, k: nat) -> Seq<Option<u32>>
        decreases k,
    {
        if k == 0 {
            start
        } else {
            self.sweep(self.sweeps(start, (k - 1) as nat))
        }
    }
}

proof fn heir_is_one(
    w: Town,
    start: Seq<Option<u32>>,
    cur: Seq<Option<u32>>,
    d: u32,
    c: int,
    t: u32,
)
    requires
        w.is_heir(start, cur, d, c, t),
    ensures
        forall|f: u32| #[trigger] w.is_heir(start, cur, d, c, f) ==> f == t,
{
    assert forall|f: u32| #[trigger] w.is_heir(start, cur, d, c, f) implies f == t by {
        if f != t {
            assert(w.could_take(start, cur, d, c, f));
            assert(w.could_take(start, cur, d, c, t));
            assert(w.outranks(start, cur, d, c, t, f));
            assert(w.outranks(start, cur, d, c, f, t));
        }
    }
}

proof fn mended_len(w: Town, start: Seq<Option<u32>>, cur: Seq<Option<u32>>, d: u32, n: nat)
    ensures
        w.mended(start, cur, d, n).len() == cur.len(),
    decreases n,
{
    if n > 0 {
        mended_len(w, start, cur, d, (n - 1) as nat);
    }
}

proof fn swept_len(w: Town, start: Seq<Option<u32>>, n: nat)
    ensures
        w.swept(start, n).len() == start.len(),
    decreases n,
{
    if n > 0 {
        swept_len(w, start, (n - 1) as nat);
        mended_len(w, start, w.swept(start, (n - 1) as nat), (n - 1) as u32, start.len());
    }
}

proof fn mended_in_range(w: Town, start: Seq<Option<u32>>, cur: Seq<Option<u32>>, d: u32, n: nat)
    requires
        in_range(cur, w.up.len()),
    ensures
        in_range(w.mended(start, cur, d, n), w.up.len()),
    decreases n,
{
    if n > 0 {
        mended_in_range(w, start, cur, d, (n - 1) as nat);
        let before = w.mended(start, cur, d, (n - 1) as nat);
        let c = n - 1;
        if w.heads_stray(start, d, c) && exists|t: u32| w.is_heir(start, before, d, c, t) {
            let t = choose|t: u32| w.is_heir(start, before, d, c, t);
            assert(w.could_take(start, before, d, c, t));
        }
    }
}

proof fn swept_in_range(w: Town, start: Seq<Option<u32>>, n: nat)
    requires
        in_range(start, w.up.len()),
    ensures
        in_range(w.swept(start, n), w.up.len()),
    decreases n,
{
    if n > 0 {
        swept_in_range(w, start, (n - 1) as nat);
        mended_in_range(w, start, w.swept(start, (n - 1) as nat), (n - 1) as u32, start.len());
    }
}

/// Is every owner a directory of the tree?
pub open spec fn in_range(owners: Seq<Option<u32>>, directories: nat) -> bool {
    forall|i: int|
        0 <= i < owners.len() ==> ((#[trigger] owners[i]) matches Some(d) ==> d < directories)
}

/// Sweeping gives no block to what is not a directory.
pub proof fn sweeps_stay_in_range(w: Town, start: Seq<Option<u32>>, k: nat)
    requires
        in_range(start, w.up.len()),
    ensures
        in_range(w.sweeps(start, k), w.up.len()),
    decreases k,
{
    if k > 0 {
        sweeps_stay_in_range(w, start, (k - 1) as nat);
        swept_in_range(w, w.sweeps(start, (k - 1) as nat), w.up.len());
    }
}

/// What is known of the pairs of blocks that share an edge.
spec fn pairs_ok(pairs: Seq<(u32, u32)>, lists: Seq<Seq<int>>) -> bool {
    &&& forall|i: int|
        0 <= i < pairs.len() ==> neighbours(
            lists,
            (#[trigger] pairs[i]).0 as int,
            pairs[i].1 as int,
        ) && pairs[i].0 < lists.len() && pairs[i].1 < lists.len()
    &&& forall|x: int, y: int| #[trigger]
        neighbours(lists, x, y) ==> exists|i: int|
            0 <= i < pairs.len() && (#[trigger] pairs[i]).0 == x && pairs[i].1 == y
}

/// What is known of the heads of pieces.
spec fn heads_ok(heads: Seq<u32>, lists: Seq<Seq<int>>, start: Seq<Option<u32>>) -> bool {
    &&& heads.len() == start.len()
    &&& forall|k: int|
        0 <= k < heads.len() ==> (#[trigger] heads[k]) <= k && heads[heads[k] as int] == heads[k]
            && linked(kindred(lists, start), heads[k] as int, k)
    &&& forall|k: int, j: int|
        0 <= k < heads.len() && 0 <= j < heads.len() ==> (#[trigger] heads[k]
            == #[trigger] heads[j] <==> linked(kindred(lists, start), k, j))
}

fn near_row(pairs: &Vec<(u32, u32)>, b: usize, n: usize, Ghost(w): Ghost<Town>) -> (r: Vec<bool>)
    requires
        pairs_ok(pairs@, w.lists),
        w.lists.len() == n,
        b < n,
    ensures
        r@.len() == n,
        forall|v: int| 0 <= v < n ==> (#[trigger] r@[v]) == w.near(b as int, v),
{
    let mut out: Vec<bool> = Vec::new();
    let mut v: usize = 0;
    while v < n
        invariant
            v <= n,
            out.len() == v,
            forall|k: int| 0 <= k < v ==> !(#[trigger] out@[k]),
        decreases n - v,
    {
        out.push(false);
        v = v + 1;
    }
    let mut i: usize = 0;
    while i < pairs.len()
        invariant
            i <= pairs.len(),
            out.len() == n == w.lists.len(),
            pairs_ok(pairs@, w.lists),
            forall|k: int| 0 <= k < n && #[trigger] out@[k] ==> w.near(b as int, k),
            forall|k: int, j: int|
                0 <= j < i && ((#[trigger] pairs@[j]).0 == b && pairs@[j].1 == k || pairs@[j].0 == k
                    && pairs@[j].1 == b) && 0 <= k < n ==> #[trigger] out@[k],
        decreases pairs.len() - i,
    {
        let (x, y) = pairs[i];
        if x as usize == b {
            out[y as usize] = true;
        }
        if y as usize == b {
            out[x as usize] = true;
        }
        i = i + 1;
    }
    proof {
        assert forall|v: int| 0 <= v < n implies (#[trigger] out@[v]) == w.near(b as int, v) by {
            if neighbours(w.lists, b as int, v) {
                let j = choose|j: int|
                    0 <= j < pairs@.len() && (#[trigger] pairs@[j]).0 == b && pairs@[j].1 == v;
                assert(pairs@[j].0 == b && pairs@[j].1 == v);
            }
            if neighbours(w.lists, v, b as int) {
                let j = choose|j: int|
                    0 <= j < pairs@.len() && (#[trigger] pairs@[j]).0 == v && pairs@[j].1 == b;
                assert(pairs@[j].0 == v && pairs@[j].1 == b);
            }
        }
    }
    out
}

fn border_of(
    pairs: &Vec<(u32, u32)>,
    heads: &Vec<u32>,
    cur: &Vec<Option<u32>>,
    c: usize,
    e: u32,
    Ghost(w): Ghost<Town>,
    Ghost(start): Ghost<Seq<Option<u32>>>,
) -> (r: u64)
    requires
        pairs_ok(pairs@, w.lists),
        heads_ok(heads@, w.lists, start),
        w.lists.len() == cur@.len() == start.len(),
        cur@.len() <= u32::MAX,
        c < cur@.len(),
    ensures
        r == w.border(start, cur@, c as int, e),
{
    let n: usize = cur.len();
    let mut total: u64 = 0;
    let mut b: usize = 0;
    while b < n
        invariant
            b <= n == cur@.len(),
            n <= u32::MAX,
            c < n,
            pairs_ok(pairs@, w.lists),
            heads_ok(heads@, w.lists, start),
            w.lists.len() == cur@.len() == start.len(),
            total == w.contacts(start, cur@, c as int, e, b as nat),
            total <= b * n,
        decreases n - b,
    {
        assert(heads@[c as int] == heads@[b as int] <==> w.together(start, c as int, b as int));
        assert(b * n + n <= u64::MAX) by (nonlinear_arith)
            requires
                b < n,
                n <= u32::MAX,
        ;
        assert((b + 1) * n == b * n + n) by (nonlinear_arith);
        if heads[b] == heads[c] {
            let near: Vec<bool> = near_row(pairs, b, n, Ghost(w));
            let mut count: u64 = 0;
            let mut v: usize = 0;
            while v < n
                invariant
                    v <= n == cur@.len(),
                    near@.len() == n,
                    forall|k: int| 0 <= k < n ==> (#[trigger] near@[k]) == w.near(b as int, k),
                    count == w.row(cur@, b as int, e, v as nat),
                    count <= v,
                decreases n - v,
            {
                let mine: bool = match cur[v] {
                    Some(x) => x == e,
                    None => false,
                };
                if near[v] && mine {
                    count = count + 1;
                }
                v = v + 1;
            }
            total = total + count;
        }
        b = b + 1;
    }
    total
}

fn heir_of(
    pairs: &Vec<(u32, u32)>,
    heads: &Vec<u32>,
    cur: &Vec<Option<u32>>,
    territory: &Territory,
    depth: &Vec<u32>,
    d: u32,
    c: usize,
    Ghost(w): Ghost<Town>,
    Ghost(start): Ghost<Seq<Option<u32>>>,
) -> (r: Option<u32>)
    requires
        pairs_ok(pairs@, w.lists),
        heads_ok(heads@, w.lists, start),
        w.lists.len() == cur@.len() == start.len(),
        cur@.len() <= u32::MAX,
        c < cur@.len(),
        territory.wf(),
        w.up == territory.up(),
        depth@ == depths_of(w.up),
        d < w.up.len(),
    ensures
        match r {
            Some(t) => w.is_heir(start, cur@, d, c as int, t),
            None => forall|t: u32| !#[trigger] w.could_take(start, cur@, d, c as int, t),
        },
{
    let m: usize = territory.nodes.len();
    let mut best: Option<(bool, u64, u32)> = None;
    let mut e: usize = 0;
    while e < m
        invariant
            e <= m == w.up.len(),
            m < u32::MAX,
            pairs_ok(pairs@, w.lists),
            heads_ok(heads@, w.lists, start),
            w.lists.len() == cur@.len() == start.len(),
            cur@.len() <= u32::MAX,
            c < cur@.len(),
            territory.wf(),
            w.up == territory.up(),
            depth@ == depths_of(w.up),
            d < w.up.len(),
            match best {
                Some(p) => {
                    &&& w.could_take(start, cur@, d, c as int, p.2)
                    &&& p.2 < e
                    &&& p.0 == w.kin(d, p.2)
                    &&& p.1 == w.border(start, cur@, c as int, p.2)
                    &&& forall|f: u32|
                        f < e && f != p.2 && #[trigger] w.could_take(start, cur@, d, c as int, f)
                            ==> w.outranks(start, cur@, d, c as int, p.2, f)
                },
                None => forall|f: u32|
                    f < e ==> !#[trigger] w.could_take(start, cur@, d, c as int, f),
            },
        decreases m - e,
    {
        let x: u32 = e as u32;
        if x != d {
            let border: u64 = border_of(pairs, heads, cur, c, x, Ghost(w), Ghost(start));
            if border > 0 {
                let kin: bool = common_depth(territory, depth, d, x) > 0;
                let better: bool = match best {
                    Some((bk, bb, _)) => (kin && !bk) || (kin == bk && border > bb),
                    None => true,
                };
                if better {
                    best = Some((kin, border, x));
                }
            }
        }
        e = e + 1;
    }
    match best {
        Some((_, _, t)) => Some(t),
        None => None,
    }
}

/// The block that is the oldest of a district, if it has blocks.
fn oldest_of(start: &Vec<Option<u32>>, birth: &Vec<u32>, d: u32, Ghost(w): Ghost<Town>) -> (r:
    Option<usize>)
    requires
        birth@ == w.birth,
        birth@.len() == start@.len(),
    ensures
        match r {
            Some(i) => w.is_oldest(start@, d, i as int),
            None => forall|i: int| 0 <= i < start@.len() ==> #[trigger] start@[i] != Some(d),
        },
{
    let mut best: Option<usize> = None;
    let mut i: usize = 0;
    while i < start.len()
        invariant
            i <= start.len(),
            birth@ == w.birth,
            birth@.len() == start@.len(),
            match best {
                Some(k) => {
                    &&& k < i
                    &&& start@[k as int] == Some(d)
                    &&& forall|j: int|
                        0 <= j < i && j != k && #[trigger] start@[j] == Some(d) ==> w.older(
                            k as int,
                            j,
                        )
                },
                None => forall|j: int| 0 <= j < i ==> #[trigger] start@[j] != Some(d),
            },
        decreases start.len() - i,
    {
        let mine: bool = match start[i] {
            Some(x) => x == d,
            None => false,
        };
        if mine {
            let better: bool = match best {
                Some(k) => birth[i] < birth[k],
                None => true,
            };
            if better {
                best = Some(i);
            }
        }
        i = i + 1;
    }
    best
}

fn mend(
    pairs: &Vec<(u32, u32)>,
    heads: &Vec<u32>,
    start: &Vec<Option<u32>>,
    birth: &Vec<u32>,
    territory: &Territory,
    depth: &Vec<u32>,
    d: u32,
    cur: &mut Vec<Option<u32>>,
    Ghost(w): Ghost<Town>,
)
    requires
        pairs_ok(pairs@, w.lists),
        heads_ok(heads@, w.lists, start@),
        w.lists.len() == old(cur)@.len() == start@.len(),
        start@.len() <= u32::MAX,
        birth@ == w.birth,
        birth@.len() == start@.len(),
        territory.wf(),
        w.up == territory.up(),
        depth@ == depths_of(w.up),
        d < w.up.len(),
    ensures
        final(cur)@ == w.mended(start@, old(cur)@, d, start@.len()),
        final(cur)@.len() == start@.len(),
{
    let ghost first = cur@;
    let n: usize = start.len();
    let oldest: usize = match oldest_of(start, birth, d, Ghost(w)) {
        Some(i) => i,
        None => {
            proof {
                no_strays(w, start@, first, d, start@.len());
            }
            return;
        },
    };
    let mut c: usize = 0;
    while c < n
        invariant
            c <= n == start@.len(),
            pairs_ok(pairs@, w.lists),
            heads_ok(heads@, w.lists, start@),
            w.lists.len() == cur@.len() == start@.len(),
            start@.len() <= u32::MAX,
            birth@ == w.birth,
            birth@.len() == start@.len(),
            territory.wf(),
            w.up == territory.up(),
            depth@ == depths_of(w.up),
            d < w.up.len(),
            w.is_oldest(start@, d, oldest as int),
            cur@ == w.mended(start@, first, d, c as nat),
        decreases n - c,
    {
        let mine: bool = match start[c] {
            Some(x) => x == d,
            None => false,
        };
        proof {
            head_is_first(w.lists, start@, heads@, c as int);
            assert(heads@[c as int] == heads@[oldest as int] <==> w.together(
                start@,
                c as int,
                oldest as int,
            ));
        }
        let stray: bool = mine && heads[c] as usize == c && heads[c] != heads[oldest];
        proof {
            assert(stray == w.heads_stray(start@, d, c as int)) by {
                assert(w.is_oldest(start@, d, oldest as int));
                assert forall|i: int| #[trigger] w.is_oldest(start@, d, i) implies i == oldest by {
                    if i != oldest {
                        assert(w.older(i, oldest as int));
                        assert(w.older(oldest as int, i));
                    }
                }
            }
        }
        if stray {
            let ghost before = cur@;
            if let Some(t) = heir_of(
                pairs,
                heads,
                cur,
                territory,
                depth,
                d,
                c,
                Ghost(w),
                Ghost(start@),
            ) {
                proof {
                    heir_is_one(w, start@, before, d, c as int, t);
                }
                let mut b: usize = 0;
                while b < n
                    invariant
                        b <= n == start@.len(),
                        c < n,
                        before.len() == n,
                        cur@.len() == n,
                        heads_ok(heads@, w.lists, start@),
                        forall|k: int|
                            0 <= k < n ==> #[trigger] cur@[k] == if k < b && w.together(
                                start@,
                                c as int,
                                k,
                            ) {
                                Some(t)
                            } else {
                                before[k]
                            },
                    decreases n - b,
                {
                    assert(heads@[c as int] == heads@[b as int] <==> w.together(
                        start@,
                        c as int,
                        b as int,
                    ));
                    if heads[b] == heads[c] {
                        cur[b] = Some(t);
                    }
                    b = b + 1;
                }
                assert(cur@ =~= w.given(start@, before, d, c as int));
            } else {
                assert(w.given(start@, before, d, c as int) == before);
            }
        }
        c = c + 1;
    }
}

proof fn no_strays(w: Town, start: Seq<Option<u32>>, cur: Seq<Option<u32>>, d: u32, n: nat)
    requires
        forall|i: int| 0 <= i < start.len() ==> #[trigger] start[i] != Some(d),
    ensures
        w.mended(start, cur, d, n) == cur,
    decreases n,
{
    if n > 0 {
        no_strays(w, start, cur, d, (n - 1) as nat);
    }
}

proof fn sweeps_settle(w: Town, start: Seq<Option<u32>>, j: nat, k: nat)
    requires
        j <= k,
        w.sweep(w.sweeps(start, j)) == w.sweeps(start, j),
    ensures
        w.sweeps(start, k) == w.sweeps(start, j),
    decreases k,
{
    if j < k {
        sweeps_settle(w, start, j, (k - 1) as nat);
    }
}

/// The districts of blocks, put back together.
pub fn healed(
    half_edges: &Vec<Vec<usize>>,
    birth: &Vec<u32>,
    district: &Vec<Option<u32>>,
    territory: &Territory,
) -> (r: Vec<Option<u32>>)
    requires
        territory.wf(),
        half_edges@.len() <= u32::MAX,
        birth@.len() == half_edges@.len(),
        district@.len() == half_edges@.len(),
    ensures
        r@ == (Town {
            lists: halved_all(half_edges@),
            birth: birth@,
            up: territory.up(),
        }).sweeps(district@, HEAL_PASSES as nat),
        r@ == (Town {
            lists: halved_all(half_edges@),
            birth: birth@,
            up: territory.up(),
        }).sweeps(district@, 4),
        r@.len() == district@.len(),
{
    let ghost w = Town { lists: halved_all(half_edges@), birth: birth@, up: territory.up() };
    let n: usize = district.len();
    let m: usize = territory.nodes.len();
    let depth: Vec<u32> = territory.depths();
    let pairs: Vec<(u32, u32)> = neighbour_pairs(half_edges);
    let mut cur: Vec<Option<u32>> = copied_districts(district);
    let mut pass: usize = 0;
    while pass < HEAL_PASSES
        invariant
            pass <= HEAL_PASSES,
            n == district@.len() == half_edges@.len(),
            n <= u32::MAX,
            m == territory.nodes@.len(),
            territory.wf(),
            w.lists == halved_all(half_edges@),
            w.lists.len() == n,
            w.birth == birth@,
            birth@.len() == n,
            w.up == territory.up(),
            depth@ == depths_of(w.up),
            pairs_ok(pairs@, w.lists),
            cur@.len() == n,
            cur@ == w.sweeps(district@, pass as nat),
        decreases HEAL_PASSES - pass,
    {
        let start: Vec<Option<u32>> = copied_districts(&cur);
        let heads: Vec<u32> = piece_heads(&pairs, &start, Ghost(w.lists));
        let mut d: usize = 0;
        while d < m
            invariant
                d <= m == territory.nodes@.len(),
                m < u32::MAX,
                m == w.up.len(),
                start@.len() == n <= u32::MAX,
                territory.wf(),
                w.lists.len() == n,
                w.birth == birth@,
                birth@.len() == n,
                w.up == territory.up(),
                depth@ == depths_of(w.up),
                pairs_ok(pairs@, w.lists),
                heads_ok(heads@, w.lists, start@),
                cur@.len() == n,
                cur@ == w.swept(start@, d as nat),
            decreases m - d,
        {
            mend(
                &pairs,
                &heads,
                &start,
                birth,
                territory,
                &depth,
                d as u32,
                &mut cur,
                Ghost(w),
            );
            d = d + 1;
        }
        if same_districts(&start, &cur) {
            proof {
                sweeps_settle(w, district@, pass as nat, HEAL_PASSES as nat);
            }
            return cur;
        }
        pass = pass + 1;
    }
    cur
}

fn copied_districts(v: &Vec<Option<u32>>) -> (r: Vec<Option<u32>>)
    ensures
        r@ == v@,
{
    let mut out: Vec<Option<u32>> = Vec::new();
    let mut i: usize = 0;
    while i < v.len()
        invariant
            i <= v.len(),
            out@ == v@.subrange(0, i as int),
        decreases v.len() - i,
    {
        out.push(v[i]);
        i = i + 1;
        assert(out@ =~= v@.subrange(0, i as int));
    }
    assert(out@ =~= v@);
    out
}

fn same_districts(a: &Vec<Option<u32>>, b: &Vec<Option<u32>>) -> (r: bool)
    requires
        a@.len() == b@.len(),
    ensures
        r == (a@ == b@),
{
    let mut i: usize = 0;
    while i < a.len()
        invariant
            i <= a@.len() == b@.len(),
            forall|k: int| 0 <= k < i ==> #[trigger] a@[k] == b@[k],
        decreases a.len() - i,
    {
        let same: bool = match (a[i], b[i]) {
            (Some(x), Some(y)) => x == y,
            (None, None) => true,
            _ => false,
        };
        if !same {
            assert(a@[i as int] != b@[i as int]);
            return false;
        }
        i = i + 1;
    }
    assert(a@ =~= b@);
    true
}

/// The districts of some blocks.
pub open spec fn districts_of(v: Seq<BlockPlan>) -> Seq<Option<u32>> {
    Seq::new(v.len(), |i: int| v[i].district)
}

/// The edges, births and directories of some blocks.
pub open spec fn town_of(v: Seq<BlockPlan>, up: Seq<Option<u32>>) -> Town {
    Town {
        lists: Seq::new(v.len(), |i: int| crate::edges::halved(v[i].half_edges@)),
        birth: Seq::new(v.len(), |i: int| v[i].birth),
        up,
    }
}

/// Puts every district that came out in more than one piece back together: it
/// keeps the piece with its oldest block, and every other piece goes to the neighbour
/// that it borders most, one in its own top-level package first.
pub fn heal_districts(blocks: &mut Vec<BlockPlan>, territory: &Territory)
    requires
        territory.wf(),
        old(blocks)@.len() <= u32::MAX,
    ensures
        final(blocks)@.len() == old(blocks)@.len(),
        districts_of(final(blocks)@) == town_of(old(blocks)@, territory.up()).sweeps(
            districts_of(old(blocks)@),
            HEAL_PASSES as nat,
        ),
        districts_of(final(blocks)@) == town_of(old(blocks)@, territory.up()).sweeps(
            districts_of(old(blocks)@),
            4,
        ),
        forall|i: int|
            0 <= i < old(blocks)@.len() ==> #[trigger] final(blocks)@[i] == (BlockPlan {
                district: final(blocks)@[i].district,
                ..old(blocks)@[i]
            }),
{
    let ghost first = blocks@;
    let n: usize = blocks.len();
    let mut half_edges: Vec<Vec<usize>> = Vec::new();
    let mut birth: Vec<u32> = Vec::new();
    let mut district: Vec<Option<u32>> = Vec::new();
    let mut i: usize = 0;
    while i < n
        invariant
            i <= n == first.len(),
            blocks@ == first,
            half_edges.len() == i,
            birth.len() == i,
            district.len() == i,
            forall|k: int|
                0 <= k < i ==> (#[trigger] half_edges@[k])@ == first[k].half_edges@ && birth@[k]
                    == first[k].birth && district@[k] == first[k].district,
        decreases n - i,
    {
        half_edges.push(copied_edges(&blocks[i].half_edges));
        birth.push(blocks[i].birth);
        district.push(blocks[i].district);
        i = i + 1;
    }
    let after: Vec<Option<u32>> = healed(&half_edges, &birth, &district, territory);
    proof {
        let w = town_of(first, territory.up());
        assert(halved_all(half_edges@) =~= w.lists) by {
            assert forall|k: int| 0 <= k < n implies #[trigger] halved_all(half_edges@)[k]
                == w.lists[k] by {
                assert(half_edges@[k]@ == first[k].half_edges@);
            }
        }
        assert(birth@ =~= w.birth) by {
            assert forall|k: int| 0 <= k < n implies #[trigger] birth@[k] == w.birth[k] by {
                assert(half_edges@[k]@ == first[k].half_edges@);
            }
        }
        assert(district@ =~= districts_of(first)) by {
            assert forall|k: int| 0 <= k < n implies #[trigger] district@[k] == districts_of(
                first,
            )[k] by {
                assert(half_edges@[k]@ == first[k].half_edges@);
            }
        }
    }
    let mut i: usize = 0;
    while i < n
        invariant
            i <= n == first.len(),
            after@.len() == n,
            blocks@.len() == n,
            forall|k: int|
                0 <= k < n ==> #[trigger] blocks@[k] == if k < i {
                    BlockPlan { district: after@[k], ..first[k] }
                } else {
                    first[k]
                },
        decreases n - i,
    {
        blocks[i].district = after[i];
        i = i + 1;
    }
    assert(districts_of(blocks@) =~= after@);
}

pub(crate) fn copied_edges(v: &Vec<usize>) -> (r: Vec<usize>)
    ensures
        r@ == v@,
{
    let mut out: Vec<usize> = Vec::new();
    let mut i: usize = 0;
    while i < v.len()
        invariant
            i <= v.len(),
            out@ == v@.subrange(0, i as int),
        decreases v.len() - i,
    {
        out.push(v[i]);
        i = i + 1;
        assert(out@ =~= v@.subrange(0, i as int));
    }
    assert(out@ =~= v@);
    out
}

/// A piece lies within one district.
proof fn piece_in_one_district(w: Town, start: Seq<Option<u32>>, c: int, b: int, d: u32)
    requires
        w.together(start, c, b),
        0 <= c < start.len(),
        start[c] == Some(d),
    ensures
        0 <= b < start.len(),
        start[b] == Some(d),
{
    let rel = kindred(w.lists, start);
    let same = |i: int|
        if 0 <= i < start.len() {
            match start[i] {
                Some(x) => x as int,
                None => -1,
            }
        } else {
            -2
        };
    assert forall|x: int, y: int| #[trigger] rel(x, y) implies same(x) == same(y) by {}
    crate::forest::linked_keeps(rel, same, c, b);
}

proof fn given_changes_strays(
    w: Town,
    start: Seq<Option<u32>>,
    cur: Seq<Option<u32>>,
    d: u32,
    c: int,
    i: int,
)
    requires
        w.heads_stray(start, d, c),
        cur.len() == start.len(),
        0 <= i < cur.len(),
    ensures
        w.given(start, cur, d, c)[i] != cur[i] ==> start[i] == Some(d) && w.together(start, c, i),
        w.given(start, cur, d, c)[i] is Some || w.given(start, cur, d, c)[i] == cur[i],
        w.given(start, cur, d, c).len() == cur.len(),
{
    if w.together(start, c, i) {
        piece_in_one_district(w, start, c, i, d);
    }
}

proof fn mended_keeps(
    w: Town,
    start: Seq<Option<u32>>,
    cur: Seq<Option<u32>>,
    d: u32,
    n: nat,
    i: int,
)
    requires
        cur.len() == start.len(),
        0 <= i < cur.len(),
        cur[i] is Some <==> start[i] is Some,
    ensures
        w.mended(start, cur, d, n)[i] is Some <==> start[i] is Some,
        start[i] != Some(d) ==> w.mended(start, cur, d, n)[i] == cur[i],
        (forall|o: int| #[trigger] w.is_oldest(start, d, o) ==> w.together(start, i, o)) && (exists|
            o: int,
        | w.is_oldest(start, d, o)) ==> w.mended(start, cur, d, n)[i] == cur[i],
    decreases n,
{
    if n > 0 {
        mended_keeps(w, start, cur, d, (n - 1) as nat, i);
        let before = w.mended(start, cur, d, (n - 1) as nat);
        mended_len(w, start, cur, d, (n - 1) as nat);
        if w.heads_stray(start, d, n - 1) {
            given_changes_strays(w, start, before, d, n - 1, i);
            if w.given(start, before, d, n - 1)[i] != before[i] {
                assert(w.together(start, n - 1, i));
                assert forall|o: int| #[trigger] w.is_oldest(start, d, o) implies !w.together(
                    start,
                    i,
                    o,
                ) by {
                    if w.together(start, i, o) {
                        linked_on(kindred(w.lists, start), n - 1, i, o);
                    }
                }
            }
        }
    }
}

proof fn swept_keeps(w: Town, start: Seq<Option<u32>>, n: nat, i: int)
    requires
        0 <= i < start.len(),
        n <= w.up.len() <= u32::MAX,
    ensures
        w.swept(start, n)[i] is Some <==> start[i] is Some,
        (start[i] matches Some(d) && exists|o: int|
            w.is_oldest(start, d, o) && w.together(start, i, o)) ==> w.swept(start, n)[i]
            == start[i],
    decreases n,
{
    if n > 0 {
        swept_keeps(w, start, (n - 1) as nat, i);
        swept_len(w, start, (n - 1) as nat);
        let cur = w.swept(start, (n - 1) as nat);
        let d = (n - 1) as u32;
        mended_keeps(w, start, cur, d, start.len(), i);
        if start[i] == Some(d) && exists|o: int|
            w.is_oldest(start, d, o) && w.together(start, i, o) {
            let o = choose|o: int| w.is_oldest(start, d, o) && w.together(start, i, o);
            assert forall|q: int| #[trigger] w.is_oldest(start, d, q) implies w.together(
                start,
                i,
                q,
            ) by {
                if q != o {
                    assert(w.older(q, o) && w.older(o, q));
                }
            }
        }
    }
}

/// A sweep takes no block's district away and gives none to a block without one,
/// and a district keeps the piece with its oldest block.
pub proof fn sweep_keeps_the_oldest_piece(w: Town, start: Seq<Option<u32>>, i: int)
    requires
        0 <= i < start.len(),
        w.up.len() <= u32::MAX,
    ensures
        w.sweep(start).len() == start.len(),
        w.sweep(start)[i] is Some <==> start[i] is Some,
        (start[i] matches Some(d) && exists|o: int|
            w.is_oldest(start, d, o) && w.together(start, i, o)) ==> w.sweep(start)[i]
            == start[i],
{
    swept_keeps(w, start, w.up.len(), i);
    swept_len(w, start, w.up.len());
}

proof fn contact_found(
    w: Town,
    start: Seq<Option<u32>>,
    cur: Seq<Option<u32>>,
    c: int,
    e: u32,
    n: nat,
) -> (r: (int, int))
    requires
        w.contacts(start, cur, c, e, n) > 0,
        n <= cur.len(),
    ensures
        0 <= r.0 < cur.len(),
        0 <= r.1 < cur.len(),
        w.together(start, c, r.0),
        w.near(r.0, r.1),
        cur[r.1] == Some(e),
    decreases n,
{
    if w.together(start, c, n - 1) && w.row(cur, n - 1, e, cur.len()) > 0 {
        let v = row_found(w, cur, n - 1, e, cur.len());
        (n - 1, v)
    } else {
        contact_found(w, start, cur, c, e, (n - 1) as nat)
    }
}

proof fn row_found(w: Town, cur: Seq<Option<u32>>, b: int, e: u32, n: nat) -> (v: int)
    requires
        w.row(cur, b, e, n) > 0,
        n <= cur.len(),
    ensures
        0 <= v < cur.len(),
        w.near(b, v),
        cur[v] == Some(e),
    decreases n,
{
    if w.near(b, n - 1) && cur[n - 1] == Some(e) {
        n - 1
    } else {
        row_found(w, cur, b, e, (n - 1) as nat)
    }
}

/// A stray piece that is given away is connected, in its new district, to ground
/// that the district already had.
pub proof fn strays_join_their_new_district(
    w: Town,
    start: Seq<Option<u32>>,
    cur: Seq<Option<u32>>,
    d: u32,
    c: int,
    t: u32,
)
    requires
        w.heads_stray(start, d, c),
        cur.len() == start.len(),
        w.is_heir(start, cur, d, c, t),
    ensures
        exists|v: int|
            0 <= v < cur.len() && cur[v] == Some(t) && w.together(w.given(start, cur, d, c), c, v),
{
    heir_is_one(w, start, cur, d, c, t);
    let after = w.given(start, cur, d, c);
    let (b, v) = contact_found(w, start, cur, c, t, cur.len());
    let rel = kindred(w.lists, start);
    let now = kindred(w.lists, after);
    let p = choose|p: Seq<int>| crate::forest::leads(rel, p, c, b);
    assert forall|i: int| 0 <= i < p.len() implies w.together(start, c, #[trigger] p[i]) by {
        let q = p.subrange(0, i + 1);
        assert forall|k: int| 0 <= k < q.len() - 1 implies rel(#[trigger] q[k], q[k + 1]) || rel(
            q[k + 1],
            q[k],
        ) by {
            assert(rel(p[k], p[k + 1]) || rel(p[k + 1], p[k]));
        }
        assert(crate::forest::leads(rel, q, c, p[i]));
    }
    assert forall|i: int| 0 <= i < p.len() - 1 implies now(#[trigger] p[i], p[i + 1]) || now(
        p[i + 1],
        p[i],
    ) by {
        assert(rel(p[i], p[i + 1]) || rel(p[i + 1], p[i]));
        piece_in_one_district(w, start, c, p[i], d);
        piece_in_one_district(w, start, c, p[i + 1], d);
        assert(after[p[i]] == Some(t) && after[p[i + 1]] == Some(t));
    }
    assert(crate::forest::leads(now, p, c, b));
    assert(after[b] == Some(t));
    assert(after[v] == Some(t));
    assert(now(b, v) || now(v, b));
    linked_step(now, b, v);
    linked_on(now, c, b, v);
    assert(w.together(after, c, v));
}

/// Does every piece lie in one district still?
spec fn pieces_whole(w: Town, start: Seq<Option<u32>>, cur: Seq<Option<u32>>) -> bool {
    forall|i: int, j: int| #[trigger]
        w.together(start, i, j) && 0 <= i < start.len() && 0 <= j < start.len() ==> cur[i]
            == cur[j]
}

/// Have two pieces that share an edge come to lie in one district?
spec fn pieces_met(w: Town, start: Seq<Option<u32>>, cur: Seq<Option<u32>>) -> bool {
    exists|b: int, v: int|
        0 <= b < cur.len() && 0 <= v < cur.len() && !#[trigger] w.together(start, b, v) && w.near(
            b,
            v,
        ) && cur[b] is Some && cur[b] == cur[v]
}

proof fn pieces_begin_whole(w: Town, start: Seq<Option<u32>>)
    ensures
        pieces_whole(w, start, start),
{
    let rel = kindred(w.lists, start);
    assert forall|i: int, j: int| #[trigger]
        w.together(start, i, j) && 0 <= i < start.len() && 0 <= j < start.len() implies start[i]
        == start[j] by {
        let same = |k: int|
            if 0 <= k < start.len() {
                match start[k] {
                    Some(x) => x as int,
                    None => -1,
                }
            } else {
                -2
            };
        assert forall|x: int, y: int| #[trigger] rel(x, y) implies same(x) == same(y) by {}
        crate::forest::linked_keeps(rel, same, i, j);
    }
}

proof fn given_stays_whole(
    w: Town,
    start: Seq<Option<u32>>,
    cur: Seq<Option<u32>>,
    d: u32,
    c: int,
)
    requires
        cur.len() == start.len(),
        pieces_whole(w, start, cur),
    ensures
        pieces_whole(w, start, w.given(start, cur, d, c)),
        w.given(start, cur, d, c).len() == start.len(),
{
    let rel = kindred(w.lists, start);
    let after = w.given(start, cur, d, c);
    assert forall|i: int, j: int| #[trigger]
        w.together(start, i, j) && 0 <= i < start.len() && 0 <= j < start.len() implies after[i]
        == after[j] by {
        assert(cur[i] == cur[j]);
        if w.together(start, c, i) {
            linked_on(rel, c, i, j);
        }
        if w.together(start, c, j) {
            linked_back(rel, i, j);
            linked_on(rel, c, j, i);
        }
    }
}

/// A piece keeps its district until its turn comes.
proof fn strays_wait(
    w: Town,
    start: Seq<Option<u32>>,
    cur: Seq<Option<u32>>,
    d: u32,
    n: nat,
    c: int,
)
    requires
        cur.len() == start.len(),
        0 <= c < start.len(),
        n <= c,
        heads_piece(w.lists, start, c),
    ensures
        w.mended(start, cur, d, n)[c] == cur[c],
    decreases n,
{
    if n > 0 {
        strays_wait(w, start, cur, d, (n - 1) as nat, c);
        mended_len(w, start, cur, d, (n - 1) as nat);
        assert(!linked(kindred(w.lists, start), n - 1, c));
    }
}

/// Giving a stray away brings it together with ground of its new district.
proof fn given_meets(
    w: Town,
    start: Seq<Option<u32>>,
    cur: Seq<Option<u32>>,
    d: u32,
    c: int,
)
    requires
        cur.len() == start.len(),
        pieces_whole(w, start, cur),
        w.heads_stray(start, d, c),
        cur[c] == Some(d),
    ensures
        w.given(start, cur, d, c) == cur || pieces_met(w, start, w.given(start, cur, d, c)),
{
    if exists|t: u32| w.is_heir(start, cur, d, c, t) {
        let t = choose|t: u32| w.is_heir(start, cur, d, c, t);
        assert(w.could_take(start, cur, d, c, t));
        let rel = kindred(w.lists, start);
        let after = w.given(start, cur, d, c);
        let (b, v) = contact_found(w, start, cur, c, t, cur.len());
        assert(!w.together(start, c, v));
        assert(!w.together(start, b, v)) by {
            if w.together(start, b, v) {
                linked_on(rel, c, b, v);
            }
        }
        assert(after[b] == Some(t) && after[v] == Some(t));
    }
}

proof fn mended_meets(w: Town, start: Seq<Option<u32>>, cur: Seq<Option<u32>>, d: u32, n: nat)
    requires
        cur.len() == start.len(),
        n <= start.len(),
        pieces_whole(w, start, cur),
        forall|i: int| 0 <= i < start.len() && #[trigger] start[i] == Some(d) ==> cur[i] == Some(d),
    ensures
        w.mended(start, cur, d, n).len() == start.len(),
        pieces_whole(w, start, w.mended(start, cur, d, n)),
        w.mended(start, cur, d, n) == cur || pieces_met(w, start, w.mended(start, cur, d, n)),
    decreases n,
{
    if n > 0 {
        let c = n - 1;
        mended_meets(w, start, cur, d, (n - 1) as nat);
        let before = w.mended(start, cur, d, (n - 1) as nat);
        if w.heads_stray(start, d, c) {
            strays_wait(w, start, cur, d, (n - 1) as nat, c);
            given_stays_whole(w, start, before, d, c);
            given_meets(w, start, before, d, c);
        }
    }
}

/// A district that has not had its turn has its own ground still.
proof fn districts_wait(w: Town, start: Seq<Option<u32>>, n: nat, i: int, d: u32)
    requires
        0 <= i < start.len(),
        n <= d,
        start[i] == Some(d),
    ensures
        w.swept(start, n)[i] == Some(d),
    decreases n,
{
    if n > 0 {
        districts_wait(w, start, (n - 1) as nat, i, d);
        swept_len(w, start, (n - 1) as nat);
        mended_keeps(
            w,
            start,
            w.swept(start, (n - 1) as nat),
            (n - 1) as u32,
            start.len(),
            i,
        );
    }
}

proof fn swept_meets(w: Town, start: Seq<Option<u32>>, n: nat)
    requires
        n <= w.up.len() <= u32::MAX,
    ensures
        w.swept(start, n).len() == start.len(),
        pieces_whole(w, start, w.swept(start, n)),
        w.swept(start, n) == start || pieces_met(w, start, w.swept(start, n)),
    decreases n,
{
    if n == 0 {
        pieces_begin_whole(w, start);
    } else {
        swept_meets(w, start, (n - 1) as nat);
        let cur = w.swept(start, (n - 1) as nat);
        let d = (n - 1) as u32;
        assert forall|i: int| 0 <= i < start.len() && #[trigger] start[i] == Some(d) implies cur[i]
            == Some(d) by {
            districts_wait(w, start, (n - 1) as nat, i, d);
        }
        mended_meets(w, start, cur, d, start.len());
    }
}

/// What was in one piece is in one piece where no piece was divided.
proof fn pieces_hold(w: Town, start: Seq<Option<u32>>, cur: Seq<Option<u32>>, i: int, j: int)
    requires
        cur.len() == start.len(),
        pieces_whole(w, start, cur),
        forall|k: int| 0 <= k < start.len() ==> (#[trigger] cur[k] is Some <==> start[k] is Some),
        w.together(start, i, j),
    ensures
        w.together(cur, i, j),
{
    let rel = kindred(w.lists, start);
    let now = kindred(w.lists, cur);
    assert forall|x: int, y: int| #[trigger] rel(x, y) implies now(x, y) || now(y, x) by {
        linked_step(rel, x, y);
        assert(w.together(start, x, y));
        assert(cur[x] is Some);
    }
    linked_more(rel, now, i, j);
}

/// The first block of a piece.
proof fn head_found(w: Town, start: Seq<Option<u32>>, i: int, k: int) -> (h: int)
    requires
        0 <= k <= i < start.len(),
        w.together(start, k, i),
    ensures
        0 <= h <= k,
        w.together(start, h, i),
        heads_piece(w.lists, start, h),
    decreases k,
{
    let rel = kindred(w.lists, start);
    if heads_piece(w.lists, start, k) {
        k
    } else {
        let j = choose|j: int| 0 <= j < k && #[trigger] linked(rel, j, k);
        linked_on(rel, j, k, i);
        head_found(w, start, i, j)
    }
}

proof fn fewer_heads(
    w: Town,
    start: Seq<Option<u32>>,
    cur: Seq<Option<u32>>,
    n: nat,
    h: int,
)
    requires
        cur.len() == start.len(),
        n <= start.len(),
        forall|k: int| 0 <= k < start.len() ==> (#[trigger] cur[k] is Some <==> start[k] is Some),
        forall|k: int|
            0 <= k < start.len() && #[trigger] heads_piece(w.lists, cur, k) ==> heads_piece(
                w.lists,
                start,
                k,
            ),
    ensures
        all_pieces(w.lists, cur, n) <= all_pieces(w.lists, start, n),
        0 <= h < n && start[h] is Some && heads_piece(w.lists, start, h) && !heads_piece(
            w.lists,
            cur,
            h,
        ) ==> all_pieces(w.lists, cur, n) < all_pieces(w.lists, start, n),
    decreases n,
{
    if n > 0 {
        fewer_heads(w, start, cur, (n - 1) as nat, h);
        let k = n - 1;
        assert(cur[k] is Some <==> start[k] is Some);
        assert(heads_piece(w.lists, cur, k) ==> heads_piece(w.lists, start, k));
    }
}

/// A sweep that moves anything leaves fewer pieces than there were, and none leaves more.
pub proof fn sweeps_leave_fewer_pieces(w: Town, start: Seq<Option<u32>>)
    requires
        w.up.len() <= u32::MAX,
    ensures
        w.sweep(start).len() == start.len(),
        all_pieces(w.lists, w.sweep(start), start.len()) <= all_pieces(
            w.lists,
            start,
            start.len(),
        ),
        w.sweep(start) != start ==> all_pieces(w.lists, w.sweep(start), start.len()) < all_pieces(
            w.lists,
            start,
            start.len(),
        ),
{
    let after = w.sweep(start);
    let n = start.len();
    swept_meets(w, start, w.up.len());
    assert forall|k: int| 0 <= k < n implies (#[trigger] after[k] is Some <==> start[k] is Some) by {
        swept_keeps(w, start, w.up.len(), k);
    }
    assert forall|k: int| 0 <= k < n && #[trigger] heads_piece(w.lists, after, k) implies heads_piece(
        w.lists,
        start,
        k,
    ) by {
        assert forall|j: int| 0 <= j < k implies !#[trigger] linked(
            kindred(w.lists, start),
            j,
            k,
        ) by {
            if linked(kindred(w.lists, start), j, k) {
                assert(w.together(start, j, k));
                pieces_hold(w, start, after, j, k);
                assert(linked(kindred(w.lists, after), j, k));
            }
        }
    }
    fewer_heads(w, start, after, n, 0);
    if after != start {
        let (b, v) = choose|b: int, v: int|
            0 <= b < after.len() && 0 <= v < after.len() && !#[trigger] w.together(start, b, v)
                && w.near(b, v) && after[b] is Some && after[b] == after[v];
        let rel = kindred(w.lists, start);
        let now = kindred(w.lists, after);
        linked_self(rel, b);
        linked_self(rel, v);
        let g = head_found(w, start, b, b);
        let h = head_found(w, start, v, v);
        assert(w.together(after, g, h)) by {
            pieces_hold(w, start, after, g, b);
            pieces_hold(w, start, after, h, v);
            linked_back(now, h, v);
            assert(now(b, v) || now(v, b));
            linked_step(now, b, v);
            linked_on(now, g, b, v);
            linked_on(now, g, v, h);
        }
        assert(g != h) by {
            if g == h {
                linked_back(rel, g, b);
                linked_on(rel, b, g, v);
            }
        }
        assert(start[b] is Some && start[v] is Some);
        assert(start[g] == start[b] && start[h] == start[v]) by {
            pieces_begin_whole(w, start);
            assert(w.together(start, g, b) && w.together(start, h, v));
        }
        if g < h {
            assert(!heads_piece(w.lists, after, h));
            fewer_heads(w, start, after, n, h);
        } else {
            linked_back(now, g, h);
            assert(linked(now, h, g));
            assert(!heads_piece(w.lists, after, g));
            fewer_heads(w, start, after, n, g);
        }
    }
}

/// However often the districts are swept, there are never more pieces than there were,
/// and fewer by at least one for each sweep up to the last that moved anything.
pub proof fn healing_leaves_fewer_pieces(w: Town, start: Seq<Option<u32>>, k: nat)
    requires
        w.up.len() <= u32::MAX,
    ensures
        w.sweeps(start, k).len() == start.len(),
        all_pieces(w.lists, w.sweeps(start, k), start.len()) <= all_pieces(
            w.lists,
            start,
            start.len(),
        ),
        k > 0 && w.sweeps(start, k) != w.sweeps(start, (k - 1) as nat) ==> all_pieces(
            w.lists,
            w.sweeps(start, k),
            start.len(),
        ) + k <= all_pieces(w.lists, start, start.len()),
    decreases k,
{
    if k > 0 {
        let before = w.sweeps(start, (k - 1) as nat);
        healing_leaves_fewer_pieces(w, start, (k - 1) as nat);
        sweeps_leave_fewer_pieces(w, before);
        swept_len(w, before, w.up.len());
        if w.sweeps(start, k) != before && k > 1 {
            let earlier = w.sweeps(start, (k - 2) as nat);
            if before == earlier {
                assert(w.sweeps(start, k) == w.sweep(before));
                assert(before == w.sweep(earlier));
            }
        }
    }
}

/// However often the districts are swept, a block is owned exactly where it was.
pub proof fn sweeps_keep_owned(w: Town, start: Seq<Option<u32>>, k: nat, i: int)
    requires
        0 <= i < start.len(),
        w.up.len() <= u32::MAX,
    ensures
        w.sweeps(start, k).len() == start.len(),
        w.sweeps(start, k)[i] is Some <==> start[i] is Some,
    decreases k,
{
    if k > 0 {
        sweeps_keep_owned(w, start, (k - 1) as nat, i);
        sweep_keeps_the_oldest_piece(w, w.sweeps(start, (k - 1) as nat), i);
    }
}

/// The oldest block of a district is one of its blocks, born no later than any other, and
/// listed before all that were born with it; nothing else is its oldest block.
pub proof fn the_oldest_block_is_born_first(w: Town, start: Seq<Option<u32>>, d: u32, i: int)
    ensures
        w.is_oldest(start, d, i) <==> {
            &&& 0 <= i < start.len() && start[i] == Some(d)
            &&& forall|j: int|
                0 <= j < start.len() && #[trigger] start[j] == Some(d) ==> w.birth[i] <= w.birth[j]
                    && (w.birth[i] == w.birth[j] ==> i <= j)
        },
{
}

proof fn row_upto(w: Town, cur: Seq<Option<u32>>, b: int, e: u32, n: nat)
    requires
        n <= cur.len(),
    ensures
        w.row(cur, b, e, n) == Seq::new(cur.len(), |v: int| v).take(n as int).filter(
            |v: int| w.near(b, v) && cur[v] == Some(e),
        ).len(),
    decreases n,
{
    let all = Seq::new(cur.len(), |v: int| v);
    let test = |v: int| w.near(b, v) && cur[v] == Some(e);
    if n == 0 {
        filter_none(all, test);
    } else {
        row_upto(w, cur, b, e, (n - 1) as nat);
        filter_step(all, test, n);
    }
}

proof fn contacts_upto(
    w: Town,
    start: Seq<Option<u32>>,
    cur: Seq<Option<u32>>,
    c: int,
    e: u32,
    n: nat,
)
    requires
        n <= cur.len(),
    ensures
        w.contacts(start, cur, c, e, n) == Seq::new(cur.len(), |b: int| b).take(n as int).fold_left(
            0nat,
            |sum: nat, b: int|
                if w.together(start, c, b) {
                    sum + Seq::new(cur.len(), |v: int| v).filter(
                        |v: int| w.near(b, v) && cur[v] == Some(e),
                    ).len()
                } else {
                    sum
                },
        ),
    decreases n,
{
    let all = Seq::new(cur.len(), |b: int| b);
    let f = |sum: nat, b: int|
        if w.together(start, c, b) {
            sum + Seq::new(cur.len(), |v: int| v).filter(
                |v: int| w.near(b, v) && cur[v] == Some(e),
            ).len()
        } else {
            sum
        };
    if n > 0 {
        contacts_upto(w, start, cur, c, e, (n - 1) as nat);
        fold_step(all, 0nat, f, n);
        row_upto(w, cur, n - 1, e, cur.len());
        take_all(Seq::new(cur.len(), |v: int| v));
        let sum = all.take(n - 1).fold_left(0nat, f);
        assert(f(sum, n - 1) == if w.together(start, c, n - 1) {
            sum + w.row(cur, n - 1, e, cur.len())
        } else {
            sum
        });
    }
}

/// A piece borders a district as often as one of its blocks shares an edge with one of
/// that district's blocks.
pub proof fn a_border_is_counted_edge_by_edge(
    w: Town,
    start: Seq<Option<u32>>,
    cur: Seq<Option<u32>>,
    c: int,
    e: u32,
)
    ensures
        w.border(start, cur, c, e) == Seq::new(cur.len(), |b: int| b).fold_left(
            0nat,
            |sum: nat, b: int|
                if w.together(start, c, b) {
                    sum + Seq::new(cur.len(), |v: int| v).filter(
                        |v: int| w.near(b, v) && cur[v] == Some(e),
                    ).len()
                } else {
                    sum
                },
        ),
{
    contacts_upto(w, start, cur, c, e, cur.len());
    take_all(Seq::new(cur.len(), |b: int| b));
}

/// Two blocks share an edge where either lists the other's, whichever is asked.
pub proof fn blocks_share_edges_both_ways(w: Town, b: int, v: int)
    ensures
        w.near(b, v) == w.near(v, b),
        neighbours(w.lists, b, v) ==> w.near(b, v),
        w.near(b, v) ==> neighbours(w.lists, b, v) || neighbours(w.lists, v, b),
{
}

/// Two districts are kin where they are the same, or lie in one directory below the root.
pub proof fn kin_share_a_package(w: Town, d: u32, e: u32)
    requires
        crate::territory::parents_first(w.up),
        w.up.len() <= u32::MAX,
        d < w.up.len(),
        e < w.up.len(),
    ensures
        w.kin(d, e) <==> d == e || exists|a: int| #[trigger]
            above(w.up, a, d as int) && above(w.up, a, e as int) && depth_of(w.up, a) > 0,
{
    crate::territory::the_meeting_is_the_deepest_shared(w.up, d as int, e as int);
}

/// A stray goes to a district that it borders, other than its own. It goes to one of its
/// own package wherever it borders one, then to one that no other borders it more
/// than, then to the first listed; and wherever it borders another district, it goes
/// to one.
pub proof fn strays_go_to_kin_then_along_their_longest_border(
    w: Town,
    start: Seq<Option<u32>>,
    cur: Seq<Option<u32>>,
    d: u32,
    c: int,
    t: u32,
)
    ensures
        w.is_heir(start, cur, d, c, t) <==> {
            &&& t != d && t < w.up.len() && w.border(start, cur, c, t) >= 1
            &&& forall|f: u32|
                f != d && f < w.up.len() && #[trigger] w.border(start, cur, c, f) >= 1 ==> {
                    &&& w.kin(d, f) ==> w.kin(d, t)
                    &&& w.kin(d, f) == w.kin(d, t) ==> w.border(start, cur, c, t) >= w.border(
                        start,
                        cur,
                        c,
                        f,
                    )
                    &&& w.kin(d, f) == w.kin(d, t) && w.border(start, cur, c, t) == w.border(
                        start,
                        cur,
                        c,
                        f,
                    ) ==> t <= f
                }
        },
{
    if w.is_heir(start, cur, d, c, t) {
        assert forall|f: u32|
            f != d && f < w.up.len() && #[trigger] w.border(start, cur, c, f) >= 1 implies {
            &&& w.kin(d, f) ==> w.kin(d, t)
            &&& w.kin(d, f) == w.kin(d, t) ==> w.border(start, cur, c, t) >= w.border(
                start,
                cur,
                c,
                f,
            )
            &&& w.kin(d, f) == w.kin(d, t) && w.border(start, cur, c, t) == w.border(
                start,
                cur,
                c,
                f,
            ) ==> t <= f
        } by {
            if f != t {
                assert(w.could_take(start, cur, d, c, f));
            }
        }
    }
}

/// Where a stray has an heir, all blocks of its piece go to it and no other block moves;
/// where it has none, nothing does.
pub proof fn a_piece_goes_whole(
    w: Town,
    start: Seq<Option<u32>>,
    cur: Seq<Option<u32>>,
    d: u32,
    c: int,
)
    ensures
        w.given(start, cur, d, c).len() == cur.len(),
        forall|t: u32, b: int|
            #![trigger w.is_heir(start, cur, d, c, t), w.given(start, cur, d, c)[b]]
            w.is_heir(start, cur, d, c, t) && 0 <= b < cur.len() ==> w.given(start, cur, d, c)[b]
                == if w.together(start, c, b) {
                Some(t)
            } else {
                cur[b]
            },
        (forall|t: u32| !w.is_heir(start, cur, d, c, t)) ==> w.given(start, cur, d, c) == cur,
{
    assert forall|t: u32, s: u32|
        w.is_heir(start, cur, d, c, t) && w.is_heir(start, cur, d, c, s) implies t == s by {
        if t != s {
            assert(w.could_take(start, cur, d, c, t));
            assert(w.could_take(start, cur, d, c, s));
        }
    }
}

/// A sweep takes up the districts in their order, and in each the blocks in theirs: a
/// block of the district that is the first of its piece gives the piece away where the
/// district's oldest block is not in it. What a piece is, and which is the oldest, is
/// settled before the sweep. Sweeps follow one another.
pub proof fn a_sweep_goes_district_by_district(
    w: Town,
    start: Seq<Option<u32>>,
    cur: Seq<Option<u32>>,
    d: u32,
    n: nat,
)
    ensures
        w.mended(start, cur, d, 0) == cur,
        w.mended(start, cur, d, n + 1) == if n < start.len() && start[n as int] == Some(d)
            && heads_piece(w.lists, start, n as int) && (forall|i: int| #[trigger]
            w.is_oldest(start, d, i) ==> !linked(kindred(w.lists, start), n as int, i)) {
            w.given(start, w.mended(start, cur, d, n), d, n as int)
        } else {
            w.mended(start, cur, d, n)
        },
        w.swept(start, 0) == start,
        w.swept(start, n + 1) == w.mended(start, w.swept(start, n), n as u32, start.len()),
        w.sweeps(start, 0) == start,
        w.sweeps(start, n + 1) == w.swept(w.sweeps(start, n), w.up.len()),
{
    assert(w.heads_stray(start, d, n as int) <==> n < start.len() && start[n as int] == Some(d)
        && heads_piece(w.lists, start, n as int) && (forall|i: int| #[trigger]
        w.is_oldest(start, d, i) ==> !linked(kindred(w.lists, start), n as int, i))) by {
        assert forall|i: int| w.together(start, n as int, i) == linked(
            kindred(w.lists, start),
            n as int,
            i,
        ) by {}
    }
}

/// A town is its blocks: their districts, births and edges, each in its place.
pub proof fn a_town_is_its_blocks(v: Seq<BlockPlan>, up: Seq<Option<u32>>)
    ensures
        districts_of(v).len() == v.len(),
        town_of(v, up).up == up,
        town_of(v, up).birth.len() == v.len(),
        town_of(v, up).lists.len() == v.len(),
        forall|i: int|
            0 <= i < v.len() ==> {
                &&& #[trigger] districts_of(v)[i] == v[i].district
                &&& town_of(v, up).birth[i] == v[i].birth
                &&& town_of(v, up).lists[i] == crate::edges::halved(v[i].half_edges@)
            },
{
}

} // verus!
