//! Counting and adding up along a list, one element after another.
use vstd::prelude::*;

verus! {

/// What passes a test among the first elements, one more taken.
pub(crate) proof fn filter_step<A>(s: Seq<A>, pred: spec_fn(A) -> bool, n: nat)
    requires
        0 < n <= s.len(),
    ensures
        s.take(n as int).filter(pred) == if pred(s[n - 1]) {
            s.take(n - 1).filter(pred).push(s[n - 1])
        } else {
            s.take(n - 1).filter(pred)
        },
{
    reveal(Seq::filter);
    assert(s.take(n as int).drop_last() =~= s.take(n - 1));
}

/// Nothing passes a test among no elements.
pub(crate) proof fn filter_none<A>(s: Seq<A>, pred: spec_fn(A) -> bool)
    ensures
        s.take(0).filter(pred) == Seq::<A>::empty(),
{
    reveal(Seq::filter);
    assert(s.take(0).filter(pred) =~= Seq::<A>::empty());
}

/// What the first elements fold to, one more taken.
pub(crate) proof fn fold_step<A, B>(s: Seq<A>, b: B, f: spec_fn(B, A) -> B, n: nat)
    requires
        0 < n <= s.len(),
    ensures
        s.take(n as int).fold_left(b, f) == f(s.take(n - 1).fold_left(b, f), s[n - 1]),
{
    assert(s.take(n as int).drop_last() =~= s.take(n - 1));
}

/// The first elements are all of them where as many are taken.
pub(crate) proof fn take_all<A>(s: Seq<A>)
    ensures
        s.take(s.len() as int) == s,
{
    assert(s.take(s.len() as int) =~= s);
}

/// What passes a test does pass it, and everything that does is there.
pub(crate) proof fn filter_has<A>(s: Seq<A>, pred: spec_fn(A) -> bool)
    ensures
        forall|x: A| #[trigger] s.filter(pred).contains(x) <==> s.contains(x) && pred(x),
    decreases s.len(),
{
    reveal(Seq::filter);
    let kept = s.filter(pred);
    if s.len() > 0 {
        let rest = s.drop_last();
        filter_has(rest, pred);
        assert forall|x: A| #[trigger] kept.contains(x) <==> s.contains(x) && pred(x) by {
            if s.contains(x) && x != s.last() {
                let i = s.index_of(x);
                assert(rest[i] == x);
            }
            if rest.contains(x) {
                let i = rest.index_of(x);
                assert(s[i] == x);
            }
            assert(s[s.len() - 1] == s.last());
            if rest.filter(pred).contains(x) {
                let i = rest.filter(pred).index_of(x);
                assert(kept[i] == x);
            }
            if pred(s.last()) {
                assert(kept[kept.len() - 1] == s.last());
                if kept.contains(x) {
                    let i = kept.index_of(x);
                    if i < kept.len() - 1 {
                        assert(rest.filter(pred)[i] == x);
                    }
                }
            }
        }
    }
}

/// Tests that agree on every element let the same elements pass.
pub(crate) proof fn same_tests<A>(s: Seq<A>, a: spec_fn(A) -> bool, b: spec_fn(A) -> bool)
    requires
        forall|i: int| 0 <= i < s.len() ==> a(#[trigger] s[i]) == b(s[i]),
    ensures
        s.filter(a) == s.filter(b),
    decreases s.len(),
{
    reveal(Seq::filter);
    if s.len() > 0 {
        let rest = s.drop_last();
        assert forall|i: int| 0 <= i < rest.len() implies a(#[trigger] rest[i]) == b(rest[i]) by {
            assert(rest[i] == s[i]);
        }
        same_tests(rest, a, b);
        assert(a(s[s.len() - 1]) == b(s[s.len() - 1]));
    }
}

} // verus!
