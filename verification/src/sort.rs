//! Sorting by an order of one's own.
use vstd::prelude::*;

verus! {

/// Items that stand one ahead of another, or level.
pub trait Ranked: Sized {
    /// Does this item stand strictly ahead of the other?
    spec fn ahead(self, other: Self) -> bool;

    /// No two items stand ahead of each other.
    proof fn ahead_one_way(a: Self, b: Self)
        requires
            a.ahead(b),
        ensures
            !b.ahead(a),
    ;

    /// Not standing ahead carries over.
    proof fn behind_carries(a: Self, b: Self, c: Self)
        requires
            !a.ahead(b),
            !b.ahead(c),
        ensures
            !a.ahead(c),
    ;

    /// Does this item stand strictly ahead of the other?
    fn is_ahead(&self, other: &Self) -> (r: bool)
        ensures
            r == self.ahead(*other),
    ;
}

/// No item stands ahead of an earlier one.
pub open spec fn in_rank<T: Ranked>(v: Seq<T>) -> bool {
    forall|i: int, j: int| 0 <= i < j < v.len() ==> !(#[trigger] v[j]).ahead(#[trigger] v[i])
}

/// Puts an item behind those that it does not stand ahead of.
fn put_in_rank<T: Ranked>(v: &mut Vec<T>, x: T)
    requires
        in_rank(old(v)@),
    ensures
        in_rank(final(v)@),
        final(v)@.to_multiset() == old(v)@.to_multiset().insert(x),
        final(v)@.len() == old(v)@.len() + 1,
{
    broadcast use vstd::seq_lib::group_to_multiset_ensures;

    let mut p: usize = 0;
    while p < v.len() && !x.is_ahead(&v[p])
        invariant
            p <= v.len(),
            forall|j: int| 0 <= j < p ==> !x.ahead(#[trigger] v@[j]),
        decreases v.len() - p,
    {
        p = p + 1;
    }
    let ghost before = v@;
    proof {
        if p < v.len() {
            T::ahead_one_way(x, before[p as int]);
            assert forall|j: int| p <= j < before.len() implies !(#[trigger] before[j]).ahead(x) by {
                if j > p {
                    T::behind_carries(before[j], before[p as int], x);
                }
            }
        }
    }
    v.insert(p, x);
    proof {
        let after = v@;
        assert(after =~= before.insert(p as int, x));
        assert forall|i: int, j: int| 0 <= i < j < after.len() implies !(#[trigger] after[j]).ahead(
            #[trigger] after[i],
        ) by {
            let a = if i < p {
                i
            } else {
                i - 1
            };
            let b = if j < p {
                j
            } else {
                j - 1
            };
            if i != p {
                assert(after[i] == before[a]);
            }
            if j != p {
                assert(after[j] == before[b]);
            }
        }
        before.to_multiset_ensures();
    }
}

/// The same items, none ahead of an earlier one.
pub fn ranked<T: Ranked>(items: Vec<T>) -> (r: Vec<T>)
    ensures
        in_rank(r@),
        forall|i: int, j: int|
            0 <= i < j < r@.len() ==> !(#[trigger] r@[j]).ahead(#[trigger] r@[i]),
        r@.to_multiset() == items@.to_multiset(),
        r.len() == items.len(),
{
    broadcast use vstd::seq_lib::group_to_multiset_ensures;

    let ghost all = items@;
    let mut rest: Vec<T> = items;
    let mut out: Vec<T> = Vec::new();
    assert(all.to_multiset() =~= out@.to_multiset().add(rest@.to_multiset()));
    while rest.len() > 0
        invariant
            in_rank(out@),
            out.len() + rest.len() == all.len(),
            all.to_multiset() == out@.to_multiset().add(rest@.to_multiset()),
        decreases rest.len(),
    {
        let ghost left = rest@;
        let ghost done = out@;
        proof {
            left.to_multiset_ensures();
        }
        let x: T = rest.remove(0);
        put_in_rank(&mut out, x);
        proof {
            assert(rest@ =~= left.remove(0));
            assert(left.to_multiset() =~= rest@.to_multiset().insert(x));
            assert(all.to_multiset() =~= out@.to_multiset().add(rest@.to_multiset()));
        }
    }
    proof {
        assert(rest@ =~= Seq::<T>::empty());
        assert(all.to_multiset() =~= out@.to_multiset());
    }
    out
}

/// Does every item stand strictly before every later one?
pub open spec fn strictly<T>(v: Seq<T>, lt: spec_fn(T, T) -> bool) -> bool {
    forall|i: int, j: int| 0 <= i < j < v.len() ==> lt(#[trigger] v[i], #[trigger] v[j])
}

/// Two lists of the same items, both strictly in order, are the same list.
pub proof fn strictly_unique<T>(a: Seq<T>, b: Seq<T>, lt: spec_fn(T, T) -> bool)
    requires
        strictly(a, lt),
        strictly(b, lt),
        forall|x: T, y: T| #[trigger] lt(x, y) ==> !lt(y, x),
        forall|x: T| #[trigger] a.contains(x) <==> b.contains(x),
    ensures
        a == b,
    decreases a.len(),
{
    if a.len() == 0 {
        if b.len() > 0 {
            assert(b.contains(b[0]));
            assert(a.contains(b[0]));
        }
        assert(a =~= b);
    } else {
        assert(a.contains(a.last()));
        assert(b.contains(a.last()));
        assert(b.len() > 0);
        assert(b.contains(b.last()));
        assert(a.contains(b.last()));
        let i = b.index_of(a.last());
        let j = a.index_of(b.last());
        assert(b[i] == a.last() && a[j] == b.last());
        if a.last() != b.last() {
            assert(lt(a.last(), b.last()));
            assert(lt(b.last(), a.last()));
        }
        let a1 = a.drop_last();
        let b1 = b.drop_last();
        assert forall|x: T| #[trigger] a1.contains(x) <==> b1.contains(x) by {
            if a1.contains(x) {
                let k = a1.index_of(x);
                assert(a[k] == x);
                assert(lt(a[k], a.last()));
                assert(a.contains(x));
                let m = b.index_of(x);
                assert(b[m] == x);
                if m == b.len() - 1 {
                    assert(lt(x, x));
                }
                assert(b1[m] == x);
            }
            if b1.contains(x) {
                let k = b1.index_of(x);
                assert(b[k] == x);
                assert(lt(b[k], b.last()));
                assert(b.contains(x));
                assert(a.contains(x));
                let m = a.index_of(x);
                assert(a[m] == x);
                if m == a.len() - 1 {
                    assert(lt(x, x));
                }
                assert(a1[m] == x);
            }
        }
        strictly_unique(a1, b1, lt);
        assert(a =~= a1.push(a.last()));
        assert(b =~= b1.push(b.last()));
    }
}

/// The same items, the other way round.
pub fn reversed<T>(items: Vec<T>) -> (r: Vec<T>)
    ensures
        r.len() == items.len(),
        forall|i: int| 0 <= i < r.len() ==> #[trigger] r@[i] == items@[items.len() - 1 - i],
{
    let ghost all = items@;
    let mut rest: Vec<T> = items;
    let mut out: Vec<T> = Vec::new();
    while rest.len() > 0
        invariant
            out.len() + rest.len() == all.len(),
            forall|i: int| 0 <= i < rest.len() ==> #[trigger] rest@[i] == all[i],
            forall|i: int| 0 <= i < out.len() ==> #[trigger] out@[i] == all[all.len() - 1 - i],
        decreases rest.len(),
    {
        if let Some(x) = rest.pop() {
            out.push(x);
        }
    }
    out
}

/// The same items, seen through a function, are the same views.
pub proof fn same_views<A, B>(a: Seq<A>, b: Seq<A>, f: spec_fn(A) -> B)
    requires
        a.to_multiset() == b.to_multiset(),
    ensures
        a.map_values(f).to_multiset() == b.map_values(f).to_multiset(),
    decreases a.len(),
{
    broadcast use vstd::seq_lib::group_to_multiset_ensures;

    a.to_multiset_ensures();
    b.to_multiset_ensures();
    assert(a.len() == b.len());
    if a.len() == 0 {
        assert(a.map_values(f) =~= b.map_values(f));
    } else {
        let x = a.last();
        assert(a.to_multiset().count(x) > 0);
        assert(b.contains(x));
        let j = b.index_of(x);
        let a1 = a.drop_last();
        let b1 = b.remove(j);
        assert(a =~= a1.push(x));
        a1.to_multiset_ensures();
        assert(a1.to_multiset().insert(x) =~= a.to_multiset());
        assert(b1.to_multiset() =~= b.to_multiset().remove(x));
        assert(a1.to_multiset() =~= b1.to_multiset());
        same_views(a1, b1, f);
        assert(a.map_values(f) =~= a1.map_values(f).push(f(x)));
        assert(b.map_values(f).remove(j) =~= b1.map_values(f));
        b.map_values(f).to_multiset_ensures();
        a1.map_values(f).to_multiset_ensures();
        assert(b.map_values(f)[j] == f(x));
        assert(b.map_values(f).to_multiset().count(f(x)) > 0) by {
            assert(b.map_values(f).contains(f(x)));
        }
        assert(b.map_values(f).to_multiset() =~= b1.map_values(f).to_multiset().insert(f(x)));
    }
}

} // verus!
