//! A hash table from grid cells to the plots in them.
use vstd::prelude::*;

use crate::rng::{mix64, mixed, times64};

use crate::search::{ascending_plots, ascends};

verus! {

/// Open addressing over grid cells: a cell stands in the first free slot from
/// the one its hash names.
#[derive(Debug)]
pub struct CellMap {
    keys: Vec<Option<(i32, i32)>>,
    vals: Vec<Vec<u32>>,
    len: usize,
}

/// The hash of a cell.
pub open spec fn cell_hash(k: (i32, i32)) -> u64 {
    let x = times64((k.0 as i64) as u64, 0x9E37_79B9_7F4A_7C15);
    let y = times64((k.1 as i64) as u64, 0xC2B2_AE3D_27D4_EB4F);
    mixed(x ^ ((y << 31) | (y >> 33)))
}

/// Is a number a power of two?
pub open spec fn is_power_of_two(n: nat) -> bool
    decreases n,
{
    n == 1 || (n > 1 && n % 2 == 0 && is_power_of_two(n / 2))
}

/// The slot that a cell's hash names.
#[verifier::opaque]
pub open spec fn home(k: (i32, i32), n: int) -> int {
    cell_hash(k) as int % n
}

/// The slot so many steps on.
#[verifier::opaque]
pub open spec fn nth(k: (i32, i32), n: int, j: int) -> int {
    (home(k, n) + j) % n
}

/// Does a cell stand `j` steps from its home, with no free slot before it?
spec fn stands(keys: Seq<Option<(i32, i32)>>, k: (i32, i32), j: int) -> bool {
    &&& 0 <= j < keys.len()
    &&& keys[nth(k, keys.len() as int, j)] == Some(k)
    &&& forall|m: int|
        0 <= m < j ==> (#[trigger] keys[nth(k, keys.len() as int, m)]) is Some
}

/// How many of the first `n` slots are taken.
spec fn taken(keys: Seq<Option<(i32, i32)>>, n: nat) -> nat
    decreases n,
{
    if n == 0 || n > keys.len() {
        0
    } else {
        taken(keys, (n - 1) as nat) + if keys[n - 1] is Some {
            1nat
        } else {
            0nat
        }
    }
}

proof fn taken_bound(keys: Seq<Option<(i32, i32)>>, n: nat)
    requires
        n <= keys.len(),
    ensures
        taken(keys, n) <= n,
        taken(keys, n) == n ==> forall|i: int| 0 <= i < n ==> (#[trigger] keys[i]) is Some,
    decreases n,
{
    if n > 0 {
        taken_bound(keys, (n - 1) as nat);
    }
}

proof fn taken_update(keys: Seq<Option<(i32, i32)>>, at: int, k: (i32, i32), n: nat)
    requires
        0 <= at < keys.len(),
        keys[at] is None,
        n <= keys.len(),
    ensures
        taken(keys.update(at, Some(k)), n) == taken(keys, n) + if at < n {
            1nat
        } else {
            0nat
        },
    decreases n,
{
    if n > 0 {
        taken_update(keys, at, k, (n - 1) as nat);
    }
}

/// Where a cell stands, if it does.
spec fn place(keys: Seq<Option<(i32, i32)>>, k: (i32, i32)) -> int {
    choose|i: int| 0 <= i < keys.len() && keys[i] == Some(k)
}

proof fn nth_reaches(h: int, n: int, i: int) -> (j: int)
    requires
        n > 0,
        0 <= h < n,
        0 <= i < n,
    ensures
        0 <= j < n,
        (h + j) % n == i,
{
    let j = if i >= h {
        i - h
    } else {
        i - h + n
    };
    assert((h + j) % n == i) by (nonlinear_arith)
        requires
            n > 0,
            0 <= i < n,
            h + j == i || h + j == i + n,
    ;
    j
}

proof fn nth_next(h: int, n: int, j: int)
    requires
        n > 0,
        0 <= h < n,
        0 <= j,
    ensures
        ((h + j) % n + 1) % n == (h + j + 1) % n,
        0 <= (h + j) % n < n,
{
    assert(((h + j) % n + 1) % n == (h + j + 1) % n) by (nonlinear_arith)
        requires
            n > 0,
            h + j >= 0,
    ;
    assert(0 <= (h + j) % n < n) by (nonlinear_arith)
        requires
            n > 0,
            h + j >= 0,
    ;
}

proof fn home_bounds(k: (i32, i32), n: int)
    requires
        n > 0,
    ensures
        0 <= home(k, n) < n,
{
    reveal(home);
    assert(0 <= cell_hash(k) as int % n < n) by (nonlinear_arith)
        requires
            n > 0,
            cell_hash(k) as int >= 0,
    ;
}

proof fn nth_bounds(k: (i32, i32), n: int, j: int)
    requires
        n > 0,
        0 <= j,
    ensures
        0 <= nth(k, n, j) < n,
{
    reveal(nth);
    home_bounds(k, n);
    nth_next(home(k, n), n, j);
}

/// The contents of a table: each cell's plots.
spec fn contents(keys: Seq<Option<(i32, i32)>>, vals: Seq<Vec<u32>>) -> Map<(i32, i32), Seq<u32>> {
    Map::new(
        |k: (i32, i32)| keys.contains(Some(k)),
        |k: (i32, i32)| vals[place(keys, k)]@,
    )
}

/// No cell stands twice, and each can be found from its home.
spec fn table_ok(keys: Seq<Option<(i32, i32)>>) -> bool {
    &&& keys.len() > 0
    &&& forall|i: int, j: int|
        0 <= i < keys.len() && 0 <= j < keys.len() && #[trigger] keys[i] is Some && keys[i]
            == #[trigger] keys[j] ==> i == j
    &&& forall|i: int|
        0 <= i < keys.len() && #[trigger] keys[i] is Some ==> exists|s: int|
            #[trigger] stands(keys, keys[i]->0, s)
}

impl CellMap {
    /// The table is at most half full, its slots are a power of two, and every cell can be
    /// found.
    pub closed spec fn wf(self) -> bool {
        &&& table_ok(self.keys@)
        &&& self.vals@.len() == self.keys@.len()
        &&& self.len == taken(self.keys@, self.keys@.len())
        &&& self.len * 2 <= self.keys@.len()
        &&& self.keys@.len() >= 2
        &&& is_power_of_two(self.keys@.len())
        &&& forall|i: int|
            0 <= i < self.keys@.len() && (#[trigger] self.keys@[i]) is None ==> self.vals@[i]@.len()
                == 0
    }

    /// Each cell's plots.
    pub closed spec fn view(self) -> Map<(i32, i32), Seq<u32>> {
        contents(self.keys@, self.vals@)
    }

    /// How many slots there are.
    pub closed spec fn slots(self) -> nat {
        self.keys@.len()
    }

    /// How many cells there are.
    pub closed spec fn count(self) -> nat {
        self.len as nat
    }

    fn blank(n: usize) -> (r: CellMap)
        requires
            n >= 2,
            is_power_of_two(n as nat),
        ensures
            r.wf(),
            r.keys@.len() == n,
            r.len == 0,
            forall|i: int| 0 <= i < n ==> (#[trigger] r.keys@[i]) is None,
            forall|i: int| 0 <= i < n ==> (#[trigger] r.vals@[i])@.len() == 0,
    {
        let mut keys: Vec<Option<(i32, i32)>> = Vec::new();
        let mut vals: Vec<Vec<u32>> = Vec::new();
        let mut i: usize = 0;
        while i < n
            invariant
                i <= n,
                keys.len() == i,
                vals.len() == i,
                forall|j: int| 0 <= j < i ==> (#[trigger] keys@[j]) is None,
                forall|j: int| 0 <= j < i ==> (#[trigger] vals@[j])@.len() == 0,
            decreases n - i,
        {
            keys.push(None);
            vals.push(Vec::new());
            i = i + 1;
        }
        let r: CellMap = CellMap { keys, vals, len: 0 };
        proof {
            none_taken(r.keys@, r.keys@.len());
        }
        r
    }

    /// A table without cells.
    pub fn new() -> (r: CellMap)
        ensures
            r.wf(),
            r@ == Map::<(i32, i32), Seq<u32>>::empty(),
            r.slots() == 64,
            r.count() == 0,
    {
        assert(is_power_of_two(64)) by {
            reveal_with_fuel(is_power_of_two, 8);
        }
        let r: CellMap = CellMap::blank(64);
        assert(r@ =~= Map::<(i32, i32), Seq<u32>>::empty());
        r
    }

    /// The hash of a cell.
    pub fn hash(k: (i32, i32)) -> (r: u64)
        ensures
            r == cell_hash(k),
            ({
                let x = times64((k.0 as i64) as u64, 11_400_714_819_323_198_485);
                let y = times64((k.1 as i64) as u64, 14_029_467_366_897_019_727);
                r == mixed(x ^ ((y << 31u64) | (y >> 33u64)))
            }),
    {
        let x: u64 = ((k.0 as i64) as u64).wrapping_mul(0x9E37_79B9_7F4A_7C15);
        let y: u64 = ((k.1 as i64) as u64).wrapping_mul(0xC2B2_AE3D_27D4_EB4F);
        mix64(x ^ ((y << 31) | (y >> 33)))
    }

    /// The slot that a cell stands in, or the free one it would go to.
    fn slot(&self, k: (i32, i32)) -> (r: usize)
        requires
            table_ok(self.keys@),
            taken(self.keys@, self.keys@.len()) < self.keys@.len(),
        ensures
            r < self.keys@.len(),
            self.keys@[r as int] is Some ==> self.keys@[r as int] == Some(k),
            self.keys@[r as int] is None ==> !self.keys@.contains(Some(k)) && exists|j: int|
                0 <= j < self.keys@.len() && r == nth(k, self.keys@.len() as int, j) && (forall|
                    m: int,
                |
                    0 <= m < j ==> (#[trigger] self.keys@[nth(
                        k,
                        self.keys@.len() as int,
                        m,
                    )]) is Some),
    {
        let n: usize = self.keys.len();
        let ghost keys = self.keys@;
        let ghost h = home(k, n as int);
        proof {
            home_bounds(k, n as int);
            reveal(nth);
            reveal(home);
            assert(h % (n as int) == h) by (nonlinear_arith)
                requires
                    0 <= h < n,
            ;
        }
        let mut i: usize = (CellMap::hash(k) % (n as u64)) as usize;
        assert(i == h);
        let ghost mut j: int = 0;
        loop
            invariant
                n == keys.len(),
                keys == self.keys@,
                h == home(k, n as int),
                0 <= h < n,
                table_ok(keys),
                taken(keys, keys.len()) < keys.len(),
                i < n,
                0 <= j < n,
                i == nth(k, n as int, j),
                forall|m: int| 0 <= m < j ==> (#[trigger] keys[nth(k, n as int, m)]) is Some,
                forall|m: int| 0 <= m < j ==> (#[trigger] keys[nth(k, n as int, m)]) != Some(k),
            decreases n - j,
        {
            match self.keys[i] {
                None => {
                    proof {
                        if keys.contains(Some(k)) {
                            let p = keys.index_of(Some(k));
                            assert(keys[p] == Some(k));
                            let s = choose|s: int| #[trigger] stands(keys, k, s);
                            if s > j {
                                assert(keys[nth(k, n as int, j)] is Some);
                            } else if s < j {
                                assert(keys[nth(k, n as int, s)] != Some(k));
                            }
                        }
                    }
                    return i;
                },
                Some(other) => {
                    if other.0 == k.0 && other.1 == k.1 {
                        return i;
                    }
                },
            }
            proof {
                reveal(nth);
                nth_next(h, n as int, j);
                if j + 1 == n {
                    assert forall|p: int| 0 <= p < n implies (#[trigger] keys[p]) is Some by {
                        let m = nth_reaches(h, n as int, p);
                        assert(keys[nth(k, n as int, m)] is Some);
                    }
                    all_taken(keys, keys.len());
                }
            }
            i = if i + 1 == n {
                0
            } else {
                i + 1
            };
            proof {
                assert((nth(k, n as int, j) + 1) % (n as int) == i) by {
                    let q = nth(k, n as int, j);
                    if q + 1 == n {
                        assert((q + 1) % (n as int) == 0) by (nonlinear_arith)
                            requires
                                q + 1 == n,
                                n > 0,
                        ;
                    } else {
                        assert((q + 1) % (n as int) == q + 1) by (nonlinear_arith)
                            requires
                                0 <= q,
                                q + 1 < n,
                        ;
                    }
                }
                j = j + 1;
            }
        }
    }

    /// Puts a plot into a cell, behind those that are there.
    pub fn push(&mut self, k: (i32, i32), id: u32)
        requires
            old(self).wf(),
            (old(self).count() + 1) * 2 > old(self).slots() ==> old(self).slots() <= usize::MAX / 2,
        ensures
            final(self).wf(),
            final(self)@ == old(self)@.insert(
                k,
                if old(self)@.dom().contains(k) {
                    old(self)@[k].push(id)
                } else {
                    seq![id]
                },
            ),
            final(self).count() == old(self).count() + if old(self)@.dom().contains(k) {
                0int
            } else {
                1int
            },
            final(self).slots() == if (old(self).count() + 1) * 2 > old(self).slots() {
                old(self).slots() * 2
            } else {
                old(self).slots()
            },
    {
        let ghost before = self@;
        let n: usize = self.keys.len();
        if self.len + 1 > n / 2 {
            self.grow();
        }
        let ghost keys0 = self.keys@;
        let ghost vals0 = self.vals@;
        let i: usize = self.slot(k);
        if self.keys[i].is_none() {
            proof {
                taken_update(keys0, i as int, k, keys0.len());
                put_ok(keys0, k, i as int);
            }
            self.keys[i] = Some(k);
            self.len = self.len + 1;
        }
        let ghost had = self.vals@[i as int]@;
        self.vals[i].push(id);
        proof {
            let keys1 = self.keys@;
            let vals1 = self.vals@;
            assert(keys1[i as int] == Some(k));
            let want = before.insert(
                k,
                if before.dom().contains(k) {
                    before[k].push(id)
                } else {
                    seq![id]
                },
            );
            contents_at(keys1, vals1, i as int);
            if keys0[i as int] is Some {
                contents_at(keys0, vals0, i as int);
                assert(keys1 =~= keys0);
            } else {
                assert(had =~= seq![]);
                assert(!before.dom().contains(k));
            }
            assert forall|c: (i32, i32)| #[trigger] contents(keys1, vals1).dom().contains(c)
                <==> want.dom().contains(c) by {
                if keys1.contains(Some(c)) {
                    let p = keys1.index_of(Some(c));
                    if p != i {
                        assert(keys0[p] == Some(c));
                    }
                }
                if keys0.contains(Some(c)) {
                    let p = keys0.index_of(Some(c));
                    assert(keys1[p] == Some(c));
                }
            }
            assert forall|c: (i32, i32)| #[trigger] contents(keys1, vals1).dom().contains(
                c,
            ) implies contents(keys1, vals1)[c] == want[c] by {
                if c != k {
                    let p = keys1.index_of(Some(c));
                    assert(keys1[p] == Some(c));
                    assert(p != i);
                    contents_at(keys1, vals1, p);
                    assert(keys0[p] == Some(c));
                    contents_at(keys0, vals0, p);
                }
            }
            assert(contents(keys1, vals1) =~= want);
        }
    }

    /// Moves the cells to a table with twice as many slots.
    pub fn grow(&mut self)
        requires
            old(self).wf(),
            old(self).slots() <= usize::MAX / 2,
        ensures
            final(self).wf(),
            final(self)@ == old(self)@,
            final(self).slots() == old(self).slots() * 2,
            final(self).count() == old(self).count(),
            (final(self).count() + 1) * 2 <= final(self).slots(),
    {
        let n: usize = self.keys.len();
        assert(is_power_of_two((n * 2) as nat));
        let ghost keys0 = self.keys@;
        let ghost vals0 = self.vals@;
        let ghost count = self.len as nat;
        let mut fresh: CellMap = CellMap::blank(n * 2);
        assert(keys0.subrange(0, n as int) =~= keys0);
        while self.keys.len() > 0
            invariant
                self.keys@.len() == self.vals@.len() <= n,
                n == keys0.len() == vals0.len(),
                n >= 2,
                table_ok(keys0),
                count == taken(keys0, n as nat),
                count * 2 <= n,
                forall|i: int| 0 <= i < self.keys@.len() ==> #[trigger] self.keys@[i] == keys0[i],
                forall|i: int| 0 <= i < self.vals@.len() ==> #[trigger] self.vals@[i] == vals0[i],
                fresh.keys@.len() == n * 2,
                fresh.vals@.len() == n * 2,
                table_ok(fresh.keys@),
                fresh.len == taken(fresh.keys@, fresh.keys@.len()),
                fresh.len + taken(keys0, self.keys@.len()) == count,
                forall|i: int|
                    0 <= i < fresh.keys@.len() && (#[trigger] fresh.keys@[i]) is None
                        ==> fresh.vals@[i]@.len() == 0,
                forall|p: int|
                    self.keys@.len() <= p < n && #[trigger] keys0[p] is Some
                        ==> fresh.keys@.contains(keys0[p]),
                forall|i: int|
                    0 <= i < fresh.keys@.len() && #[trigger] fresh.keys@[i] is Some ==> exists|
                        p: int,
                    |
                        self.keys@.len() <= p < n && #[trigger] keys0[p] == fresh.keys@[i]
                            && fresh.vals@[i]@ == vals0[p]@,
            decreases self.keys.len(),
        {
            let ghost m = self.keys@.len() - 1;
            let ghost fk = fresh.keys@;
            let ghost fv = fresh.vals@;
            let key: Option<(i32, i32)> = match self.keys.pop() {
                Some(k) => k,
                None => None,
            };
            let val: Vec<u32> = match self.vals.pop() {
                Some(v) => v,
                None => Vec::new(),
            };
            assert(key == keys0[m] && val == vals0[m]);
            proof {
                taken_bound(fk, fk.len());
            }
            if let Some(k) = key {
                let i: usize = fresh.slot(k);
                proof {
                    if fk[i as int] is Some {
                        let p = choose|p: int|
                            m + 1 <= p < n && #[trigger] keys0[p] == fk[i as int]
                                && fv[i as int]@ == vals0[p]@;
                        assert(keys0[p] == keys0[m]);
                    }
                    taken_update(fk, i as int, k, fk.len());
                    put_ok(fk, k, i as int);
                }
                fresh.keys[i] = Some(k);
                fresh.vals[i] = val;
                fresh.len = fresh.len + 1;
                proof {
                    assert(fresh.keys@[i as int] == keys0[m]);
                    assert forall|p: int| m <= p < n && #[trigger] keys0[p] is Some implies
                        fresh.keys@.contains(keys0[p]) by {
                        if p > m {
                            assert(fk.contains(keys0[p]));
                            let q = fk.index_of(keys0[p]);
                            assert(fk[q] == keys0[p]);
                            assert(fresh.keys@[q] == keys0[p]);
                        }
                    }
                    assert forall|q: int|
                        0 <= q < fresh.keys@.len() && #[trigger] fresh.keys@[q] is Some implies exists|
                        p: int,
                    |
                        m <= p < n && #[trigger] keys0[p] == fresh.keys@[q] && fresh.vals@[q]@
                            == vals0[p]@ by {
                        if q == i {
                            assert(keys0[m] == fresh.keys@[q]);
                        } else {
                            let p = choose|p: int|
                                m + 1 <= p < n && #[trigger] keys0[p] == fk[q] && fv[q]@
                                    == vals0[p]@;
                            assert(keys0[p] == fresh.keys@[q]);
                        }
                    }
                }
            } else {
                proof {
                    assert forall|q: int|
                        0 <= q < fresh.keys@.len() && #[trigger] fresh.keys@[q] is Some implies exists|
                        p: int,
                    |
                        m <= p < n && #[trigger] keys0[p] == fresh.keys@[q] && fresh.vals@[q]@
                            == vals0[p]@ by {
                        let p = choose|p: int|
                            m + 1 <= p < n && #[trigger] keys0[p] == fk[q] && fv[q]@ == vals0[p]@;
                        assert(keys0[p] == fresh.keys@[q]);
                    }
                }
            }
        }
        proof {
            let a = contents(keys0, vals0);
            let b = contents(fresh.keys@, fresh.vals@);
            assert forall|c: (i32, i32)| #[trigger] a.dom().contains(c) <==> b.dom().contains(
                c,
            ) by {
                if keys0.contains(Some(c)) {
                    let p = keys0.index_of(Some(c));
                    assert(keys0[p] == Some(c));
                }
                if fresh.keys@.contains(Some(c)) {
                    let q = fresh.keys@.index_of(Some(c));
                    assert(fresh.keys@[q] == Some(c));
                    let p = choose|p: int|
                        0 <= p < n && #[trigger] keys0[p] == fresh.keys@[q] && fresh.vals@[q]@
                            == vals0[p]@;
                    assert(keys0[p] == Some(c));
                }
            }
            assert forall|c: (i32, i32)| #[trigger] a.dom().contains(c) implies a[c] == b[c] by {
                assert(b.dom().contains(c));
                let q = fresh.keys@.index_of(Some(c));
                assert(fresh.keys@[q] == Some(c));
                let p = choose|p: int|
                    0 <= p < n && #[trigger] keys0[p] == fresh.keys@[q] && fresh.vals@[q]@
                        == vals0[p]@;
                contents_at(keys0, vals0, p);
                contents_at(fresh.keys@, fresh.vals@, q);
            }
            assert(a =~= b);
        }
        *self = fresh;
    }

    /// The plots in a cell.
    pub fn get(&self, k: (i32, i32)) -> (r: Option<&Vec<u32>>)
        requires
            self.wf(),
        ensures
            r is Some <==> self@.dom().contains(k),
            r matches Some(v) ==> v@ == self@[k],
    {
        let i: usize = self.slot(k);
        if self.keys[i].is_some() {
            proof {
                contents_at(self.keys@, self.vals@, i as int);
            }
            Some(&self.vals[i])
        } else {
            None
        }
    }
}

/// The cells that stand in the first `n` slots.
spec fn cells_in(keys: Seq<Option<(i32, i32)>>, n: nat) -> Set<(i32, i32)>
    decreases n,
{
    if n == 0 || n > keys.len() {
        Set::empty()
    } else {
        match keys[n - 1] {
            Some(k) => cells_in(keys, (n - 1) as nat).insert(k),
            None => cells_in(keys, (n - 1) as nat),
        }
    }
}

proof fn cells_in_slots(keys: Seq<Option<(i32, i32)>>, n: nat)
    requires
        table_ok(keys),
        n <= keys.len(),
    ensures
        cells_in(keys, n).finite(),
        cells_in(keys, n).len() == taken(keys, n),
        forall|k: (i32, i32)| #[trigger]
            cells_in(keys, n).contains(k) <==> exists|i: int|
                0 <= i < n && #[trigger] keys[i] == Some(k),
    decreases n,
{
    if n > 0 {
        cells_in_slots(keys, (n - 1) as nat);
        if let Some(k) = keys[n - 1] {
            if cells_in(keys, (n - 1) as nat).contains(k) {
                let i = choose|i: int| 0 <= i < n - 1 && #[trigger] keys[i] == Some(k);
                assert(i == n - 1);
            }
        }
        assert forall|k: (i32, i32)| #[trigger] cells_in(keys, n).contains(k) <==> exists|i: int|
            0 <= i < n && #[trigger] keys[i] == Some(k) by {
            if cells_in(keys, (n - 1) as nat).contains(k) {
                let i = choose|i: int| 0 <= i < n - 1 && #[trigger] keys[i] == Some(k);
                assert(0 <= i < n && keys[i] == Some(k));
            }
            if keys[n - 1] == Some(k) {
                assert(0 <= n - 1 < n && keys[n - 1] == Some(k));
            }
        }
    }
}

/// However plots were put in, the table counts its cells, has a power of two of slots,
/// and is at most half full: a probe always ends.
pub proof fn cells_are_counted(m: CellMap)
    requires
        m.wf(),
    ensures
        m@.dom().finite(),
        m.count() == m@.dom().len(),
        m.count() * 2 <= m.slots(),
        is_power_of_two(m.slots()),
{
    cells_in_slots(m.keys@, m.keys@.len());
    assert(m@.dom() =~= cells_in(m.keys@, m.keys@.len())) by {
        assert forall|k: (i32, i32)| m@.dom().contains(k) <==> #[trigger] cells_in(
            m.keys@,
            m.keys@.len(),
        ).contains(k) by {
            if m.keys@.contains(Some(k)) {
                let i = m.keys@.index_of(Some(k));
                assert(m.keys@[i] == Some(k));
            }
        }
    }
}

proof fn none_taken(keys: Seq<Option<(i32, i32)>>, n: nat)
    requires
        n <= keys.len(),
        forall|i: int| 0 <= i < n ==> (#[trigger] keys[i]) is None,
    ensures
        taken(keys, n) == 0,
    decreases n,
{
    if n > 0 {
        none_taken(keys, (n - 1) as nat);
    }
}

proof fn all_taken(keys: Seq<Option<(i32, i32)>>, n: nat)
    requires
        n <= keys.len(),
        forall|i: int| 0 <= i < n ==> (#[trigger] keys[i]) is Some,
    ensures
        taken(keys, n) == n,
    decreases n,
{
    if n > 0 {
        all_taken(keys, (n - 1) as nat);
    }
}

proof fn contents_at(keys: Seq<Option<(i32, i32)>>, vals: Seq<Vec<u32>>, i: int)
    requires
        table_ok(keys),
        0 <= i < keys.len(),
        keys[i] is Some,
    ensures
        contents(keys, vals).dom().contains(keys[i]->0),
        contents(keys, vals)[keys[i]->0] == vals[i]@,
{
    let k = keys[i]->0;
    assert(keys[i] == Some(k));
    assert(keys.contains(Some(k)));
    let p = place(keys, k);
    assert(0 <= p < keys.len() && keys[p] == Some(k));
    assert(p == i);
}

/// Putting a cell into the first free slot from its home keeps the table in order.
proof fn put_ok(keys: Seq<Option<(i32, i32)>>, k: (i32, i32), at: int)
    requires
        table_ok(keys),
        0 <= at < keys.len(),
        keys[at] is None,
        !keys.contains(Some(k)),
        exists|j: int|
            0 <= j < keys.len() && at == nth(k, keys.len() as int, j) && (forall|m: int|
                0 <= m < j ==> (#[trigger] keys[nth(k, keys.len() as int, m)]) is Some),
    ensures
        table_ok(keys.update(at, Some(k))),
{
    let n = keys.len() as int;
    let after = keys.update(at, Some(k));
    assert forall|i: int, j: int|
        0 <= i < n && 0 <= j < n && #[trigger] after[i] is Some && after[i]
            == #[trigger] after[j] implies i == j by {
        if i != at && j == at {
            assert(keys[i] == Some(k));
        }
        if j != at && i == at {
            assert(keys[j] == Some(k));
        }
    }
    assert forall|i: int| 0 <= i < n && #[trigger] after[i] is Some implies exists|s: int|
        #[trigger] stands(after, after[i]->0, s) by {
        if i == at {
            let j = choose|j: int|
                0 <= j < keys.len() && at == nth(k, keys.len() as int, j) && (forall|m: int|
                    0 <= m < j ==> (#[trigger] keys[nth(k, keys.len() as int, m)]) is Some);
            assert forall|m: int| 0 <= m < j implies (#[trigger] after[nth(k, n, m)]) is Some by {
                nth_bounds(k, n, m);
                assert(keys[nth(k, n, m)] is Some);
            }
            assert(after[i]->0 == k);
            assert(stands(after, after[i]->0, j));
        } else {
            let c = keys[i]->0;
            assert(after[i] == keys[i]);
            assert(keys[i] is Some);
            let s = choose|s: int| #[trigger] stands(keys, keys[i]->0, s);
            assert forall|m: int| 0 <= m < s implies (#[trigger] after[nth(c, n, m)]) is Some by {
                nth_bounds(c, n, m);
                assert(keys[nth(c, n, m)] is Some);
            }
            nth_bounds(c, n, s);
            assert(keys[nth(c, n, s)] == Some(c));
            assert(stands(after, after[i]->0, s));
        }
    }
}

/// Is a plot in one of the cells around one?
pub open spec fn around(m: Map<(i32, i32), Seq<u32>>, k: (i32, i32), n: int, id: u32) -> bool {
    exists|x: i32, y: i32|
        k.0 - n <= x <= k.0 + n && k.1 - n <= y <= k.1 + n && #[trigger] m.dom().contains((x, y))
            && m[(x, y)].contains(id)
}

impl CellMap {
    /// The plots in the cells around one, so many to each side, by number.
    pub fn query(&self, k: (i32, i32), n: i32) -> (r: Vec<u32>)
        requires
            self.wf(),
            n >= 0,
            i32::MIN <= k.0 - n,
            k.0 + n < i32::MAX,
            i32::MIN <= k.1 - n,
            k.1 + n < i32::MAX,
        ensures
            ascends(r@),
            forall|id: u32| #[trigger] r@.contains(id) <==> around(self@, k, n as int, id),
            forall|i: int, j: int| 0 <= i < j < r@.len() ==> (#[trigger] r@[i]) < (#[trigger] r@[j]),
            forall|id: u32| #[trigger]
                r@.contains(id) <==> exists|x: i32, y: i32|
                    #[trigger] self@.contains_key((x, y)) && self@[(x, y)].contains(id) && -n <= x
                        - k.0 <= n && -n <= y - k.1 <= n,
    {
        let mut out: Vec<u32> = Vec::new();
        let (x0, y0): (i32, i32) = (k.0 - n, k.1 - n);
        let (x1, y1): (i32, i32) = (k.0 + n, k.1 + n);
        let mut y: i32 = y0;
        while y <= y1
            invariant
                self.wf(),
                x0 == k.0 - n,
                x1 == k.0 + n,
                y0 == k.1 - n,
                y1 == k.1 + n,
                n >= 0,
                x1 < i32::MAX,
                y0 <= y <= y1 + 1,
                y1 < i32::MAX,
                forall|id: u32| #[trigger]
                    out@.contains(id) <==> exists|a: i32, b: i32|
                        x0 <= a <= x1 && y0 <= b < y && #[trigger] self@.dom().contains((a, b))
                            && self@[(a, b)].contains(id),
            decreases y1 + 1 - y,
        {
            let mut x: i32 = x0;
            while x <= x1
                invariant
                    self.wf(),
                    x0 <= x <= x1 + 1,
                    x1 < i32::MAX,
                    y0 <= y <= y1,
                    y1 < i32::MAX,
                    forall|id: u32| #[trigger]
                        out@.contains(id) <==> exists|a: i32, b: i32|
                            x0 <= a <= x1 && y0 <= b <= y && (b < y || a < x)
                                && #[trigger] self@.dom().contains((a, b)) && self@[(
                                a,
                                b,
                            )].contains(id),
                decreases x1 + 1 - x,
            {
                let ghost had = out@;
                match self.get((x, y)) {
                    Some(v) => {
                        push_all(&mut out, v);
                        proof {
                            assert forall|id: u32| #[trigger]
                                out@.contains(id) <==> exists|a: i32, b: i32|
                                    x0 <= a <= x1 && y0 <= b <= y && (b < y || a < x + 1)
                                        && #[trigger] self@.dom().contains((a, b)) && self@[(
                                        a,
                                        b,
                                    )].contains(id) by {
                                if had.contains(id) {
                                    let (a, b) = choose|a: i32, b: i32|
                                        x0 <= a <= x1 && y0 <= b <= y && (b < y || a < x)
                                            && #[trigger] self@.dom().contains((a, b)) && self@[(
                                            a,
                                            b,
                                        )].contains(id);
                                    assert(self@.dom().contains((a, b)));
                                }
                                if v@.contains(id) {
                                    assert(self@.dom().contains((x, y)));
                                }
                            }
                        }
                    },
                    None => {},
                }
                x = x + 1;
            }
            y = y + 1;
        }
        let r: Vec<u32> = ascending_plots(&out);
        r
    }
}

/// Puts all of some plots behind others.
fn push_all(out: &mut Vec<u32>, v: &Vec<u32>)
    ensures
        final(out)@ == old(out)@ + v@,
        forall|id: u32| #[trigger]
            final(out)@.contains(id) <==> old(out)@.contains(id) || v@.contains(id),
{
    let ghost had = out@;
    let mut i: usize = 0;
    while i < v.len()
        invariant
            i <= v@.len(),
            out@ == had + v@.subrange(0, i as int),
        decreases v.len() - i,
    {
        out.push(v[i]);
        assert(out@ =~= had + v@.subrange(0, i + 1));
        i = i + 1;
    }
    proof {
        assert(v@.subrange(0, v@.len() as int) =~= v@);
        let all = had + v@;
        assert(out@ =~= all);
        assert forall|id: u32| #[trigger] out@.contains(id) <==> had.contains(id) || v@.contains(
            id,
        ) by {
            if out@.contains(id) {
                let j = out@.index_of(id);
                if j < had.len() {
                    assert(had[j] == id);
                } else {
                    assert(v@[j - had.len()] == id);
                }
            }
            if had.contains(id) {
                assert(out@[had.index_of(id)] == id);
            }
            if v@.contains(id) {
                assert(out@[had.len() + v@.index_of(id)] == id);
            }
        }
    }
}

} // verus!
