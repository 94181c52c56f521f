//! Maps and sets keyed by text, held in code-point order.
use vstd::prelude::*;

use crate::text::{
    same_text, text_less, text_lt, text_lt_irreflexive, text_lt_total, text_lt_transitive,
};

verus! {

/// A map from text, its entries in code-point order of their keys.
#[derive(Debug)]
pub struct TextMap<V> {
    entries: Vec<(String, V)>,
}

/// Every key stands strictly before every later one.
pub open spec fn ascending(keys: Seq<Seq<char>>) -> bool {
    forall|i: int, j: int| 0 <= i < j < keys.len() ==> text_lt(#[trigger] keys[i], #[trigger] keys[j])
}

/// The keys of a list of entries.
pub open spec fn keys_of<V>(s: Seq<(String, V)>) -> Seq<Seq<char>> {
    Seq::new(s.len(), |i: int| s[i].0@)
}

/// The map that a list of entries stands for.
pub open spec fn map_of<V>(s: Seq<(String, V)>) -> Map<Seq<char>, V> {
    Map::new(
        |k: Seq<char>| keys_of(s).contains(k),
        |k: Seq<char>| s[keys_of(s).index_of(k)].1,
    )
}

proof fn map_of_at<V>(s: Seq<(String, V)>, i: int)
    requires
        ascending(keys_of(s)),
        0 <= i < s.len(),
    ensures
        map_of(s).dom().contains(s[i].0@),
        map_of(s)[s[i].0@] == s[i].1,
{
    let ks = keys_of(s);
    let k = s[i].0@;
    assert(ks[i] == k);
    assert(ks.contains(k));
    let j = ks.index_of(k);
    assert(ks[j] == k);
    if j != i {
        text_lt_irreflexive(k);
    }
}

/// Ascending keys are all different: there are as many as they make a set.
pub proof fn ascending_len(keys: Seq<Seq<char>>)
    requires
        ascending(keys),
    ensures
        keys.to_set().len() == keys.len(),
        keys.to_set().finite(),
{
    assert(keys.no_duplicates()) by {
        assert forall|i: int, j: int| 0 <= i < keys.len() && 0 <= j < keys.len() && i
            != j implies keys[i] != keys[j] by {
            if i < j {
                text_lt_irreflexive(keys[i]);
            } else {
                text_lt_irreflexive(keys[j]);
            }
        }
    }
    keys.unique_seq_to_set();
}

impl<V> TextMap<V> {
    /// The keys ascend: every map made here does, and every operation keeps it.
    pub closed spec fn wf(self) -> bool {
        ascending(keys_of(self.entries@))
    }

    /// The entries as a map.
    pub closed spec fn view(self) -> Map<Seq<char>, V> {
        map_of(self.entries@)
    }

    /// The keys, in order.
    pub closed spec fn keys(self) -> Seq<Seq<char>> {
        keys_of(self.entries@)
    }

    /// A map without entries.
    pub fn new() -> (r: Self)
        ensures
            r.wf(),
            r@ == Map::<Seq<char>, V>::empty(),
            r.keys() == Seq::<Seq<char>>::empty(),
    {
        let r: Self = TextMap { entries: Vec::new() };
        assert(r@ =~= Map::<Seq<char>, V>::empty());
        assert(r.keys() =~= Seq::<Seq<char>>::empty());
        r
    }

    /// Where a key stands, or would stand.
    fn position(&self, key: &str) -> (r: (bool, usize))
        requires
            self.wf(),
        ensures
            r.1 <= self.entries@.len(),
            forall|j: int| 0 <= j < r.1 ==> text_lt(#[trigger] self.keys()[j], key@),
            r.0 ==> r.1 < self.entries@.len() && self.keys()[r.1 as int] == key@,
            !r.0 && r.1 < self.entries@.len() ==> text_lt(key@, self.keys()[r.1 as int]),
            r.0 == self@.dom().contains(key@),
    {
        let mut i: usize = 0;
        while i < self.entries.len()
            invariant
                i <= self.entries@.len(),
                ascending(self.keys()),
                forall|j: int| 0 <= j < i ==> text_lt(#[trigger] self.keys()[j], key@),
            decreases self.entries@.len() - i,
        {
            let here: &str = self.entries[i].0.as_str();
            if same_text(here, key) {
                assert(self.keys()[i as int] == key@);
                return (true, i);
            }
            if !text_less(here, key) {
                proof {
                    text_lt_total(self.keys()[i as int], key@);
                    assert forall|j: int| 0 <= j < self.keys().len() implies self.keys()[j]
                        != key@ by {
                        text_lt_irreflexive(key@);
                        if j > i {
                            text_lt_transitive(key@, self.keys()[i as int], self.keys()[j]);
                        }
                    }
                }
                return (false, i);
            }
            i = i + 1;
        }
        proof {
            text_lt_irreflexive(key@);
        }
        (false, i)
    }

    /// The value at a key.
    pub fn get(&self, key: &str) -> (r: Option<&V>)
        requires
            self.wf(),
        ensures
            r is Some <==> self@.dom().contains(key@),
            r matches Some(v) ==> *v == self@[key@],
    {
        let (found, i) = self.position(key);
        if found {
            proof {
                map_of_at(self.entries@, i as int);
            }
            Some(&self.entries[i].1)
        } else {
            None
        }
    }

    /// Is there a value at the key?
    pub fn contains_key(&self, key: &str) -> (r: bool)
        requires
            self.wf(),
        ensures
            r == self@.dom().contains(key@),
    {
        self.position(key).0
    }

    /// Puts a value at a key, over any that was there.
    pub fn insert(&mut self, key: String, value: V)
        requires
            old(self).wf(),
        ensures
            final(self).wf(),
            final(self)@ == old(self)@.insert(key@, value),
            final(self).keys().len() == old(self).keys().len() + if old(self)@.dom().contains(key@) {
                0int
            } else {
                1int
            },
    {
        let (found, i) = self.position(key.as_str());
        let ghost before = self.entries@;
        let ghost name = key@;
        assert(keys_of(before) == self.keys());
        assert(forall|j: int| 0 <= j < i ==> text_lt(#[trigger] keys_of(before)[j], name));
        if found {
            self.entries[i] = (key, value);
        } else {
            self.entries.insert(i, (key, value));
        }
        proof {
            let after = self.entries@;
            if found {
                assert(keys_of(after) =~= keys_of(before));
            } else {
                assert forall|a: int, b: int| 0 <= a < b < after.len() implies text_lt(
                    #[trigger] keys_of(after)[a],
                    #[trigger] keys_of(after)[b],
                ) by {
                    let old_a = if a < i { a } else { a - 1 };
                    let old_b = if b < i { b } else { b - 1 };
                    if a != i {
                        assert(keys_of(after)[a] == keys_of(before)[old_a]);
                    }
                    if b != i {
                        assert(keys_of(after)[b] == keys_of(before)[old_b]);
                    }
                    if a == i {
                        assert(keys_of(after)[a] == name);
                    }
                    if b == i {
                        assert(keys_of(after)[b] == name);
                    }
                    if a == i && old_b > i {
                        text_lt_transitive(name, keys_of(before)[i as int], keys_of(before)[old_b]);
                    }
                }
            }
            assert forall|k: Seq<char>| #[trigger] map_of(after).dom().contains(k) <==> map_of(
                before,
            ).insert(name, value).dom().contains(k) by {
                if map_of(after).dom().contains(k) {
                    let j = keys_of(after).index_of(k);
                    if j != i {
                        let o = if found || j < i { j } else { j - 1 };
                        assert(keys_of(before)[o] == k);
                    }
                }
                if map_of(before).dom().contains(k) {
                    let o = keys_of(before).index_of(k);
                    let j = if found || o < i { o } else { o + 1 };
                    assert(keys_of(after)[j] == k);
                }
                assert(keys_of(after)[i as int] == name);
            }
            assert forall|k: Seq<char>| #[trigger] map_of(after).dom().contains(k) implies map_of(
                after,
            )[k] == map_of(before).insert(name, value)[k] by {
                let j = keys_of(after).index_of(k);
                assert(keys_of(after)[j] == k);
                map_of_at(after, j);
                if j != i {
                    let o = if found || j < i { j } else { j - 1 };
                    assert(keys_of(before)[o] == k);
                    map_of_at(before, o);
                    assert(keys_of(after)[i as int] == name);
                    text_lt_irreflexive(name);
                }
            }
            assert(map_of(after) =~= map_of(before).insert(name, value));
        }
    }

    /// How many entries there are. The keys ascend, and are those of the map.
    pub fn len(&self) -> (r: usize)
        requires
            self.wf(),
        ensures
            r == self.keys().len(),
            ascending(self.keys()),
            self.keys().to_set() == self@.dom(),
    {
        proof {
            assert(self.keys().to_set() =~= self@.dom());
        }
        self.entries.len()
    }

    /// Are there no entries?
    pub fn is_empty(&self) -> (r: bool)
        requires
            self.wf(),
        ensures
            r == (self.keys().len() == 0),
            r == (self@ == Map::<Seq<char>, V>::empty()),
    {
        proof {
            if self.entries@.len() == 0 {
                assert(self@ =~= Map::<Seq<char>, V>::empty());
            } else {
                map_of_at(self.entries@, 0);
            }
        }
        self.entries.len() == 0
    }

    /// The key at a place in the order.
    pub fn key_at(&self, i: usize) -> (r: &String)
        requires
            self.wf(),
            i < self.keys().len(),
        ensures
            r@ == self.keys()[i as int],
            self@.dom().contains(r@),
    {
        proof {
            map_of_at(self.entries@, i as int);
        }
        &self.entries[i].0
    }

    /// The value at a place in the order.
    pub fn value_at(&self, i: usize) -> (r: &V)
        requires
            self.wf(),
            i < self.keys().len(),
        ensures
            self@.dom().contains(self.keys()[i as int]),
            *r == self@[self.keys()[i as int]],
    {
        proof {
            map_of_at(self.entries@, i as int);
        }
        &self.entries[i].1
    }
}

/// The members of a set of texts, in code-point order.
pub open spec fn in_order(s: Set<Seq<char>>) -> Seq<Seq<char>> {
    choose|keys: Seq<Seq<char>>| ascending(keys) && keys.to_set() == s
}

proof fn ascending_unique(a: Seq<Seq<char>>, b: Seq<Seq<char>>)
    requires
        ascending(a),
        ascending(b),
        a.to_set() == b.to_set(),
    ensures
        a == b,
    decreases a.len(),
{
    ascending_len(a);
    ascending_len(b);
    if a.len() == 0 {
        assert(a =~= b);
    } else {
        let x = a.last();
        let y = b.last();
        assert(a.to_set().contains(x));
        assert(b.to_set().contains(y));
        let i = b.index_of(x);
        let j = a.index_of(y);
        assert(b[i] == x && a[j] == y);
        if x != y {
            assert(text_lt(x, y) && text_lt(y, x));
            text_lt_transitive(x, y, x);
            text_lt_irreflexive(x);
        }
        let a1 = a.drop_last();
        let b1 = b.drop_last();
        assert(a1.to_set() =~= a.to_set().remove(x)) by {
            assert forall|k: Seq<char>| a1.to_set().contains(k) == a.to_set().remove(x).contains(
                k,
            ) by {
                if a1.contains(k) {
                    let p = a1.index_of(k);
                    assert(a[p] == k);
                    text_lt_irreflexive(x);
                }
                if a.contains(k) && k != x {
                    let p = a.index_of(k);
                    assert(a1[p] == k);
                }
            }
        }
        assert(b1.to_set() =~= b.to_set().remove(y)) by {
            assert forall|k: Seq<char>| b1.to_set().contains(k) == b.to_set().remove(y).contains(
                k,
            ) by {
                if b1.contains(k) {
                    let p = b1.index_of(k);
                    assert(b[p] == k);
                    text_lt_irreflexive(y);
                }
                if b.contains(k) && k != y {
                    let p = b.index_of(k);
                    assert(b1[p] == k);
                }
            }
        }
        ascending_unique(a1, b1);
        assert(a =~= a1.push(x));
        assert(b =~= b1.push(y));
    }
}

/// Ascending keys with one more, ascending.
pub proof fn put_in_order(keys: Seq<Seq<char>>, x: Seq<char>) -> (r: Seq<Seq<char>>)
    requires
        ascending(keys),
    ensures
        ascending(r),
        r.to_set() == keys.to_set().insert(x),
    decreases keys.len(),
{
    if keys.len() == 0 {
        let r = seq![x];
        assert(r.to_set() =~= keys.to_set().insert(x)) by {
            assert(r[0] == x);
        }
        r
    } else {
        let last = keys.last();
        let rest = keys.drop_last();
        text_lt_total(last, x);
        if last == x {
            assert(keys[keys.len() - 1] == x);
            assert(keys.to_set().insert(x) =~= keys.to_set());
            keys
        } else if text_lt(last, x) {
            let r = keys.push(x);
            assert forall|i: int, j: int| 0 <= i < j < r.len() implies text_lt(
                #[trigger] r[i],
                #[trigger] r[j],
            ) by {
                if j == r.len() - 1 && i < keys.len() - 1 {
                    text_lt_transitive(keys[i], last, x);
                }
            }
            assert(r.to_set() =~= keys.to_set().insert(x)) by {
                assert(r[r.len() - 1] == x);
                assert forall|k: Seq<char>| keys.to_set().contains(k) implies r.to_set().contains(
                    k,
                ) by {
                    let i = keys.index_of(k);
                    assert(r[i] == k);
                }
            }
            r
        } else {
            let before = put_in_order(rest, x);
            let r = before.push(last);
            assert forall|i: int, j: int| 0 <= i < j < r.len() implies text_lt(
                #[trigger] r[i],
                #[trigger] r[j],
            ) by {
                if j == r.len() - 1 {
                    assert(before.to_set().contains(before[i]));
                    assert(rest.to_set().insert(x).contains(before[i]));
                    if before[i] != x {
                        let k = rest.index_of(before[i]);
                        assert(keys[k] == before[i]);
                    }
                }
            }
            assert(r.to_set() =~= keys.to_set().insert(x)) by {
                assert forall|k: Seq<char>| r.to_set().contains(k) <==> keys.to_set().insert(
                    x,
                ).contains(k) by {
                    assert(r[r.len() - 1] == last);
                    assert(keys[keys.len() - 1] == last);
                    if r.contains(k) && k != last {
                        let i = r.index_of(k);
                        assert(before[i] == k);
                        assert(before.to_set().contains(k));
                        if k != x {
                            let m = rest.index_of(k);
                            assert(keys[m] == k);
                        }
                    }
                    if keys.contains(k) && k != last {
                        let i = keys.index_of(k);
                        assert(rest[i] == k);
                        assert(before.to_set().contains(k));
                        let m = before.index_of(k);
                        assert(r[m] == k);
                    }
                    if k == x {
                        assert(before.to_set().contains(x));
                        let m = before.index_of(x);
                        assert(r[m] == x);
                    }
                }
            }
            r
        }
    }
}

/// Ascending keys are the members of their set, in order.
pub proof fn in_order_is(keys: Seq<Seq<char>>, s: Set<Seq<char>>)
    requires
        ascending(keys),
        keys.to_set() == s,
    ensures
        in_order(s) == keys,
{
    ascending_unique(keys, in_order(s));
}

/// A set of texts, held in code-point order.
#[derive(Debug)]
pub struct TextSet {
    members: TextMap<()>,
}

impl TextSet {
    /// The members ascend: every set made here does, and every operation keeps it.
    pub closed spec fn wf(self) -> bool {
        self.members.wf()
    }

    /// The members.
    pub closed spec fn view(self) -> Set<Seq<char>> {
        self.members@.dom()
    }

    /// The members, in order.
    pub closed spec fn order(self) -> Seq<Seq<char>> {
        self.members.keys()
    }

    /// A set without members.
    pub fn new() -> (r: Self)
        ensures
            r.wf(),
            r@ == Set::<Seq<char>>::empty(),
            r.order() == Seq::<Seq<char>>::empty(),
    {
        let r: Self = TextSet { members: TextMap::new() };
        assert(r@ =~= Set::<Seq<char>>::empty());
        r
    }

    /// Is the text a member?
    pub fn contains(&self, text: &str) -> (r: bool)
        requires
            self.wf(),
        ensures
            r == self@.contains(text@),
    {
        self.members.contains_key(text)
    }

    /// Makes the text a member; says whether it was none before.
    pub fn insert(&mut self, text: String) -> (r: bool)
        requires
            old(self).wf(),
        ensures
            final(self).wf(),
            final(self)@ == old(self)@.insert(text@),
            r == !old(self)@.contains(text@),
            r ==> final(self).order().len() == old(self).order().len() + 1,
            !r ==> final(self).order().len() == old(self).order().len(),
    {
        let fresh: bool = !self.members.contains_key(text.as_str());
        let ghost before = self.members@;
        let ghost name = text@;
        self.members.insert(text, ());
        assert(self.members@.dom() =~= before.dom().insert(name));
        fresh
    }

    /// Takes a text out of the set.
    pub fn remove(&mut self, text: &str)
        requires
            old(self).wf(),
        ensures
            final(self).wf(),
            final(self)@ == old(self)@.remove(text@),
    {
        let mut kept: TextSet = TextSet::new();
        let ghost all = self.order();
        let n: usize = self.len();
        let mut i: usize = 0;
        assert(all.subrange(0, 0).to_set() =~= Set::<Seq<char>>::empty());
        assert(kept@ =~= all.subrange(0, 0).to_set().remove(text@));
        while i < n
            invariant
                i <= n,
                n == all.len(),
                self.wf(),
                all == self.order(),
                kept.wf(),
                kept@ == all.subrange(0, i as int).to_set().remove(text@),
            decreases n - i,
        {
            let member: &String = self.at(i);
            let other: bool = !same_text(member.as_str(), text);
            let ghost before = all.subrange(0, i as int);
            let ghost here = all.subrange(0, i + 1);
            assert(here =~= before.push(all[i as int]));
            assert(here.to_set() =~= before.to_set().insert(all[i as int])) by {
                assert(here[i as int] == all[i as int]);
                assert forall|x: Seq<char>| before.contains(x) implies here.contains(x) by {
                    let k = before.index_of(x);
                    assert(here[k] == x);
                }
            }
            if other {
                kept.insert(member.clone());
            }
            i = i + 1;
            assert(kept@ =~= all.subrange(0, i as int).to_set().remove(text@));
        }
        assert(all.subrange(0, n as int) =~= all);
        *self = kept;
    }

    /// How many members there are. They ascend, and are those of the set.
    pub fn len(&self) -> (r: usize)
        requires
            self.wf(),
        ensures
            r == self.order().len(),
            ascending(self.order()),
            self.order().to_set() == self@,
    {
        self.members.len()
    }

    /// The member at a place in the order.
    pub fn at(&self, i: usize) -> (r: &String)
        requires
            self.wf(),
            i < self.order().len(),
        ensures
            r@ == self.order()[i as int],
            self@.contains(r@),
    {
        self.members.key_at(i)
    }

    /// The member that stands last, if there is one.
    pub fn last(&self) -> (r: Option<&String>)
        requires
            self.wf(),
        ensures
            match r {
                Some(t) => greatest(self@) == Some(t@),
                None => greatest(self@) is None,
            },
    {
        let n: usize = self.members.len();
        if n == 0 {
            proof {
                assert forall|k: Seq<char>| !self@.contains(k) by {
                    if self@.contains(k) {
                        assert(self.order().to_set().contains(k));
                    }
                }
            }
            None
        } else {
            let t: &String = self.members.key_at(n - 1);
            proof {
                let keys = self.order();
                assert forall|k: Seq<char>| self@.contains(k) implies k == t@ || text_lt(k, t@) by {
                    assert(keys.to_set().contains(k));
                    let i = keys.index_of(k);
                    assert(keys[i] == k);
                }
                greatest_is(self@, t@);
            }
            Some(t)
        }
    }
}

/// Is the text a member that no other member stands behind?
pub open spec fn is_greatest(s: Set<Seq<char>>, t: Seq<char>) -> bool {
    s.contains(t) && forall|k: Seq<char>| #[trigger] s.contains(k) ==> k == t || text_lt(k, t)
}

/// The member that stands last, if there is one.
pub open spec fn greatest(s: Set<Seq<char>>) -> Option<Seq<char>> {
    if exists|t: Seq<char>| is_greatest(s, t) {
        Some(choose|t: Seq<char>| is_greatest(s, t))
    } else {
        None
    }
}

/// Only one member stands last.
pub proof fn greatest_is(s: Set<Seq<char>>, t: Seq<char>)
    requires
        is_greatest(s, t),
    ensures
        greatest(s) == Some(t),
{
    let g = choose|g: Seq<char>| is_greatest(s, g);
    assert(is_greatest(s, g));
    if g != t {
        assert(text_lt(g, t) && text_lt(t, g));
        text_lt_transitive(g, t, g);
        text_lt_irreflexive(g);
    }
}

/// Every finite set of texts can be put in order.
pub proof fn in_order_exists(s: Set<Seq<char>>)
    requires
        s.finite(),
    ensures
        ascending(in_order(s)),
        in_order(s).to_set() == s,
{
    let keys = ordered_members(s);
    assert(ascending(keys) && keys.to_set() == s);
}

proof fn ordered_members(s: Set<Seq<char>>) -> (keys: Seq<Seq<char>>)
    requires
        s.finite(),
    ensures
        ascending(keys),
        keys.to_set() == s,
    decreases s.len(),
{
    if s.len() == 0 {
        assert(Seq::<Seq<char>>::empty().to_set() =~= s);
        seq![]
    } else {
        let x = s.choose();
        let before = ordered_members(s.remove(x));
        let after = put_in_order(before, x);
        assert(s.remove(x).insert(x) =~= s);
        after
    }
}

/// The last member stands behind every other; a set without members has none.
pub proof fn the_last_member_stands_behind_all(s: Set<Seq<char>>)
    ensures
        match greatest(s) {
            Some(t) => s.contains(t) && forall|k: Seq<char>| #[trigger]
                s.contains(k) && k != t ==> text_lt(k, t),
            None => forall|t: Seq<char>| #[trigger]
                s.contains(t) ==> exists|k: Seq<char>| #[trigger]
                    s.contains(k) && k != t && !text_lt(k, t),
        },
{
    if greatest(s) is None {
        assert forall|t: Seq<char>| #[trigger] s.contains(t) implies exists|k: Seq<char>|
            #[trigger] s.contains(k) && k != t && !text_lt(k, t) by {
            assert(!is_greatest(s, t));
        }
    }
}

/// A list ascends where each text stands before every later one.
pub proof fn ascending_texts_stand_in_order(keys: Seq<Seq<char>>, i: int, j: int)
    requires
        ascending(keys),
        0 <= i < j < keys.len(),
    ensures
        text_lt(keys[i], keys[j]),
        keys[i] != keys[j],
{
    crate::text::text_lt_irreflexive(keys[i]);
}

} // verus!
