//! What the reading of a transcript has come to, counted.
use vstd::prelude::*;

use crate::ordered::{TextMap, TextSet};

verus! {

/// What became of every line, and what was seen on the way.
#[derive(Debug)]
pub struct ParseStats {
    /// Lines that became a record.
    pub ok: u64,
    /// Lines with nothing on them.
    pub blank: u64,
    /// Lines that are no JSON.
    pub bad_json: u64,
    /// Objects with a known type that do not fit its shape.
    pub bad_shape: u64,
    /// Values whose type no shape models.
    pub unknown_type: u64,
    /// Lines too long to be read.
    pub oversize_lines: u64,
    /// Files that shrank under the reader.
    pub truncations: u64,
    /// How often each unmodelled type was seen.
    pub unknown_types_seen: TextMap<u64>,
    /// The producer versions seen.
    pub versions_seen: TextSet,
}

/// The counters, as mathematics.
pub ghost struct Tally {
    pub ok: int,
    pub blank: int,
    pub bad_json: int,
    pub bad_shape: int,
    pub unknown_type: int,
    pub oversize_lines: int,
    pub truncations: int,
    pub types: Map<Seq<char>, u64>,
    pub versions: Set<Seq<char>>,
}

/// Nothing counted.
pub open spec fn no_lines() -> Tally {
    Tally {
        ok: 0,
        blank: 0,
        bad_json: 0,
        bad_shape: 0,
        unknown_type: 0,
        oversize_lines: 0,
        truncations: 0,
        types: Map::empty(),
        versions: Set::empty(),
    }
}

/// How often a type was seen.
pub open spec fn seen(types: Map<Seq<char>, u64>, key: Seq<char>) -> int {
    if types.dom().contains(key) {
        types[key] as int
    } else {
        0
    }
}

/// One more sighting of a type.
pub open spec fn seen_again(types: Map<Seq<char>, u64>, key: Seq<char>) -> Map<Seq<char>, u64> {
    types.insert(key, (seen(types, key) + 1) as u64)
}

/// The smaller of a sum and the largest count.
pub open spec fn saturated(n: int) -> u64 {
    if n > u64::MAX {
        u64::MAX
    } else {
        n as u64
    }
}

impl Tally {
    /// Lines that could not be read as a record.
    pub open spec fn drifted(self) -> int {
        self.bad_json + self.bad_shape + self.unknown_type + self.oversize_lines
    }

    /// Every line that was looked at.
    pub open spec fn lines(self) -> int {
        self.ok + self.blank + self.drifted()
    }

    /// No counter is within `n` of what a counter can hold.
    pub open spec fn room(self, n: int) -> bool {
        &&& self.ok + n <= u64::MAX
        &&& self.blank + n <= u64::MAX
        &&& self.bad_json + n <= u64::MAX
        &&& self.bad_shape + n <= u64::MAX
        &&& self.unknown_type + n <= u64::MAX
        &&& self.oversize_lines + n <= u64::MAX
        &&& self.truncations + n <= u64::MAX
        &&& forall|k: Seq<char>| #[trigger]
            self.types.dom().contains(k) ==> self.types[k] + n <= u64::MAX
    }

    /// The tally with a version noted.
    pub open spec fn noting(self, version: Option<Seq<char>>) -> Tally {
        match version {
            Some(v) => Tally { versions: self.versions.insert(v), ..self },
            None => self,
        }
    }

    /// The tally with one more object of an unmodelled type.
    pub open spec fn with_unknown(self, key: Seq<char>) -> Tally {
        Tally { unknown_type: self.unknown_type + 1, types: seen_again(self.types, key), ..self }
    }
}

impl ParseStats {
    /// The maps are in order.
    pub open spec fn wf(self) -> bool {
        self.unknown_types_seen.wf() && self.versions_seen.wf()
    }

    /// The counters.
    pub open spec fn view(self) -> Tally {
        Tally {
            ok: self.ok as int,
            blank: self.blank as int,
            bad_json: self.bad_json as int,
            bad_shape: self.bad_shape as int,
            unknown_type: self.unknown_type as int,
            oversize_lines: self.oversize_lines as int,
            truncations: self.truncations as int,
            types: self.unknown_types_seen@,
            versions: self.versions_seen@,
        }
    }

    /// No counter is within `n` of its limit.
    pub open spec fn room(self, n: int) -> bool {
        self@.room(n)
    }

    /// Counters at zero.
    pub fn new() -> (r: Self)
        ensures
            r.wf(),
            r@ == no_lines(),
            r@.adds_up(),
    {
        ParseStats {
            ok: 0,
            blank: 0,
            bad_json: 0,
            bad_shape: 0,
            unknown_type: 0,
            oversize_lines: 0,
            truncations: 0,
            unknown_types_seen: TextMap::new(),
            versions_seen: TextSet::new(),
        }
    }

    /// Lines that could not be read as a record, as far as a counter goes.
    pub fn drift(&self) -> (r: u64)
        ensures
            r == saturated(self@.drifted()),
            r == if self.bad_json + self.bad_shape + self.unknown_type + self.oversize_lines
                > u64::MAX {
                u64::MAX as int
            } else {
                self.bad_json + self.bad_shape + self.unknown_type + self.oversize_lines
            },
    {
        self.bad_json.saturating_add(self.bad_shape).saturating_add(
            self.unknown_type,
        ).saturating_add(self.oversize_lines)
    }

    /// Every line that was looked at, as far as a counter goes.
    pub fn total(&self) -> (r: u64)
        ensures
            r == saturated(self@.lines()),
            r == if self.ok + self.blank + self.bad_json + self.bad_shape + self.unknown_type
                + self.oversize_lines > u64::MAX {
                u64::MAX as int
            } else {
                self.ok + self.blank + self.bad_json + self.bad_shape + self.unknown_type
                    + self.oversize_lines
            },
    {
        self.ok.saturating_add(self.blank).saturating_add(self.drift())
    }

    /// One more object of an unmodelled type.
    pub fn note_unknown(&mut self, key: &str)
        requires
            old(self).wf(),
            old(self).unknown_type < u64::MAX,
            seen(old(self).unknown_types_seen@, key@) < u64::MAX,
        ensures
            final(self).wf(),
            final(self)@ == old(self)@.with_unknown(key@),
            final(self).unknown_type == old(self).unknown_type + 1,
            final(self).unknown_types_seen@.dom() == old(self).unknown_types_seen@.dom().insert(
                key@,
            ),
            final(self).unknown_types_seen@[key@] == if old(self).unknown_types_seen@.dom().contains(key@) {
                old(self).unknown_types_seen@[key@] + 1
            } else {
                1
            },
            forall|k: Seq<char>|
                k != key@ && old(self).unknown_types_seen@.dom().contains(k) ==> #[trigger] final(self).unknown_types_seen@[k] == old(self).unknown_types_seen@[k],
    {
        self.unknown_type = self.unknown_type + 1;
        let so_far: u64 = match self.unknown_types_seen.get(key) {
            Some(n) => *n,
            None => 0,
        };
        self.unknown_types_seen.insert(key.to_owned(), so_far + 1);
    }

    /// Notes a producer version.
    pub fn note_version(&mut self, version: &str)
        requires
            old(self).wf(),
        ensures
            final(self).wf(),
            final(self)@ == old(self)@.noting(Some(version@)),
            final(self).versions_seen@ == old(self).versions_seen@.insert(version@),
    {
        if !self.versions_seen.contains(version) {
            self.versions_seen.insert(version.to_owned());
        } else {
            assert(self.versions_seen@.insert(version@) =~= self.versions_seen@);
        }
    }

    /// Can the counters of the two be added?
    pub open spec fn addable(self, other: ParseStats) -> bool {
        &&& self.ok + other.ok <= u64::MAX
        &&& self.blank + other.blank <= u64::MAX
        &&& self.bad_json + other.bad_json <= u64::MAX
        &&& self.bad_shape + other.bad_shape <= u64::MAX
        &&& self.unknown_type + other.unknown_type <= u64::MAX
        &&& self.oversize_lines + other.oversize_lines <= u64::MAX
        &&& self.truncations + other.truncations <= u64::MAX
        &&& forall|k: Seq<char>|
            #![trigger seen(self.unknown_types_seen@, k)]
            seen(self.unknown_types_seen@, k) + seen(other.unknown_types_seen@, k) <= u64::MAX
    }

    /// Adds another's counters to these.
    pub fn merge(&mut self, other: &Self)
        requires
            old(self).wf(),
            other.wf(),
            old(self).addable(*other),
        ensures
            final(self).wf(),
            final(self)@ == old(self)@.merged(other@),
            final(self).ok == old(self).ok + other.ok,
            final(self).blank == old(self).blank + other.blank,
            final(self).bad_json == old(self).bad_json + other.bad_json,
            final(self).bad_shape == old(self).bad_shape + other.bad_shape,
            final(self).unknown_type == old(self).unknown_type + other.unknown_type,
            final(self).oversize_lines == old(self).oversize_lines + other.oversize_lines,
            final(self).truncations == old(self).truncations + other.truncations,
            final(self).versions_seen@ == old(self).versions_seen@.union(other.versions_seen@),
            forall|k: Seq<char>| #[trigger]
                final(self).unknown_types_seen@.dom().contains(k) <==> old(self).unknown_types_seen@.dom().contains(k) || other.unknown_types_seen@.dom().contains(
                    k,
                ),
            forall|k: Seq<char>| #[trigger]
                final(self).unknown_types_seen@.dom().contains(k) ==> final(self).unknown_types_seen@[k] == (if old(self).unknown_types_seen@.dom().contains(k) {
                    old(self).unknown_types_seen@[k] as int
                } else {
                    0
                }) + (if other.unknown_types_seen@.dom().contains(k) {
                    other.unknown_types_seen@[k] as int
                } else {
                    0
                }),
    {
        let ghost before = self@;
        self.ok = self.ok + other.ok;
        self.blank = self.blank + other.blank;
        self.bad_json = self.bad_json + other.bad_json;
        self.bad_shape = self.bad_shape + other.bad_shape;
        self.unknown_type = self.unknown_type + other.unknown_type;
        self.oversize_lines = self.oversize_lines + other.oversize_lines;
        self.truncations = self.truncations + other.truncations;
        let n: usize = other.unknown_types_seen.len();
        let ghost keys = other.unknown_types_seen.keys();
        let ghost theirs = other.unknown_types_seen@;
        let mut i: usize = 0;
        proof {
            assert(summed(before.types, theirs, keys.subrange(0, 0).to_set()) =~= before.types);
        }
        let ghost counted = self@;
        while i < n
            invariant
                i <= n == keys.len(),
                other.wf(),
                keys == other.unknown_types_seen.keys(),
                theirs == other.unknown_types_seen@,
                crate::ordered::ascending(keys),
                keys.to_set() == theirs.dom(),
                self.wf(),
                self@ == (Tally {
                    types: summed(before.types, theirs, keys.subrange(0, i as int).to_set()),
                    ..counted
                }),
                forall|k: Seq<char>|
                    #![trigger seen(before.types, k)]
                    seen(before.types, k) + seen(theirs, k) <= u64::MAX,
            decreases n - i,
        {
            let key: &String = other.unknown_types_seen.key_at(i);
            let add: u64 = *other.unknown_types_seen.value_at(i);
            let so_far: u64 = match self.unknown_types_seen.get(key.as_str()) {
                Some(v) => *v,
                None => 0,
            };
            let ghost past = keys.subrange(0, i as int).to_set();
            let ghost now = keys.subrange(0, i + 1).to_set();
            proof {
                if past.contains(key@) {
                    let j = keys.subrange(0, i as int).index_of(key@);
                    assert(keys[j] == keys[i as int]);
                    crate::text::text_lt_irreflexive(key@);
                }
                assert(so_far == seen(before.types, key@));
                assert(now =~= past.insert(key@)) by {
                    assert(keys.subrange(0, i + 1) =~= keys.subrange(0, i as int).push(key@));
                    assert(keys.subrange(0, i + 1)[i as int] == key@);
                    assert forall|k: Seq<char>| past.contains(k) implies now.contains(k) by {
                        let j = keys.subrange(0, i as int).index_of(k);
                        assert(keys.subrange(0, i + 1)[j] == k);
                    }
                }
            }
            self.unknown_types_seen.insert(key.clone(), so_far + add);
            assert(self.unknown_types_seen@ =~= summed(before.types, theirs, now));
            i = i + 1;
        }
        assert(keys.subrange(0, n as int) =~= keys);
        let ghost after_types = self.unknown_types_seen@;
        assert(after_types =~= sum_of(before.types, theirs));
        let m: usize = other.versions_seen.len();
        let ghost names = other.versions_seen.order();
        let mut j: usize = 0;
        assert(before.versions.union(names.subrange(0, 0).to_set()) =~= before.versions);
        while j < m
            invariant
                j <= m == names.len(),
                other.wf(),
                names == other.versions_seen.order(),
                self.wf(),
                self@ == (Tally {
                    types: after_types,
                    versions: before.versions.union(names.subrange(0, j as int).to_set()),
                    ..counted
                }),
            decreases m - j,
        {
            let name: &String = other.versions_seen.at(j);
            let _ = self.versions_seen.insert(name.clone());
            proof {
                let past = names.subrange(0, j as int);
                let now = names.subrange(0, j + 1);
                assert(now =~= past.push(name@));
                assert(now.to_set() =~= past.to_set().insert(name@)) by {
                    assert(now[j as int] == name@);
                    assert forall|k: Seq<char>| past.to_set().contains(k) implies
                        now.to_set().contains(k) by {
                        let a = past.index_of(k);
                        assert(now[a] == k);
                    }
                }
                assert(self.versions_seen@ =~= before.versions.union(now.to_set()));
            }
            j = j + 1;
        }
        assert(names.subrange(0, m as int) =~= names);
    }
}

impl Default for ParseStats {
    fn default() -> (r: Self)
        ensures
            r.wf(),
            r@ == no_lines(),
    {
        ParseStats::new()
    }
}

/// Sums at the keys in `keys`, the first map's own count elsewhere.
pub open spec fn summed(
    a: Map<Seq<char>, u64>,
    b: Map<Seq<char>, u64>,
    keys: Set<Seq<char>>,
) -> Map<Seq<char>, u64> {
    Map::new(
        |k: Seq<char>| a.dom().contains(k) || keys.contains(k),
        |k: Seq<char>|
            if keys.contains(k) {
                (seen(a, k) + seen(b, k)) as u64
            } else {
                a[k]
            },
    )
}

/// Both maps' counts, key by key.
pub open spec fn sum_of(a: Map<Seq<char>, u64>, b: Map<Seq<char>, u64>) -> Map<Seq<char>, u64> {
    Map::new(
        |k: Seq<char>| a.dom().contains(k) || b.dom().contains(k),
        |k: Seq<char>| (seen(a, k) + seen(b, k)) as u64,
    )
}

/// All counts of a map together.
pub open spec fn total_of(m: Map<Seq<char>, u64>) -> nat
    decreases m.dom().len(),
    when m.dom().finite()
{
    if m.dom().len() == 0 {
        0
    } else {
        let k = m.dom().choose();
        m[k] as nat + total_of(m.remove(k))
    }
}

/// Any count can be taken out first.
proof fn total_without(m: Map<Seq<char>, u64>, k: Seq<char>)
    requires
        m.dom().finite(),
        m.dom().contains(k),
    ensures
        total_of(m) == m[k] + total_of(m.remove(k)),
    decreases m.dom().len(),
{
    let c = m.dom().choose();
    assert(m.dom().len() > 0);
    assert(m.dom().contains(c));
    if c != k {
        let rest = m.remove(c);
        assert(rest.dom() =~= m.dom().remove(c));
        total_without(rest, k);
        let fewer = m.remove(k);
        assert(fewer.dom() =~= m.dom().remove(k));
        total_without(fewer, c);
        assert(rest.remove(k) =~= fewer.remove(c));
    }
}

/// One count more or less changes the total by as much.
pub proof fn total_with(m: Map<Seq<char>, u64>, k: Seq<char>, v: u64)
    requires
        m.dom().finite(),
    ensures
        total_of(m.insert(k, v)) == total_of(m) + v - seen(m, k),
{
    let more = m.insert(k, v);
    assert(more.dom() =~= m.dom().insert(k));
    total_without(more, k);
    if m.dom().contains(k) {
        total_without(m, k);
        assert(more.remove(k) =~= m.remove(k));
    } else {
        assert(more.remove(k) =~= m);
    }
}

impl Tally {
    /// Do the counts by type add up to the count of unmodelled types?
    pub open spec fn adds_up(self) -> bool {
        self.types.dom().finite() && total_of(self.types) == self.unknown_type
    }

    /// Both tallies together.
    pub open spec fn merged(self, other: Tally) -> Tally {
        Tally {
            ok: self.ok + other.ok,
            blank: self.blank + other.blank,
            bad_json: self.bad_json + other.bad_json,
            bad_shape: self.bad_shape + other.bad_shape,
            unknown_type: self.unknown_type + other.unknown_type,
            oversize_lines: self.oversize_lines + other.oversize_lines,
            truncations: self.truncations + other.truncations,
            types: sum_of(self.types, other.types),
            versions: self.versions.union(other.versions),
        }
    }
}

/// Merging loses no line: the merged tally has looked at the lines of both.
pub proof fn merge_keeps_lines(a: Tally, b: Tally)
    ensures
        a.merged(b).lines() == a.lines() + b.lines(),
        a.merged(b).drifted() == a.drifted() + b.drifted(),
{
}

proof fn sum_adds_up(a: Map<Seq<char>, u64>, b: Map<Seq<char>, u64>)
    requires
        a.dom().finite(),
        b.dom().finite(),
        forall|k: Seq<char>| #![trigger seen(a, k)] seen(a, k) + seen(b, k) <= u64::MAX,
    ensures
        sum_of(a, b).dom().finite(),
        total_of(sum_of(a, b)) == total_of(a) + total_of(b),
    decreases b.dom().len(),
{
    if b.dom().len() == 0 {
        assert(b.dom() =~= Set::empty());
        assert(sum_of(a, b) =~= a) by {
            assert forall|k: Seq<char>| a.dom().contains(k) implies sum_of(a, b)[k] == a[k] by {
                assert(seen(a, k) == a[k]);
            }
        }
    } else {
        let k = b.dom().choose();
        let rest = b.remove(k);
        assert(rest.dom() =~= b.dom().remove(k));
        assert forall|j: Seq<char>| #![trigger seen(a, j)] seen(a, j) + seen(rest, j)
            <= u64::MAX by {
            assert(seen(a, j) + seen(b, j) <= u64::MAX);
        }
        sum_adds_up(a, rest);
        total_without(b, k);
        let both = (seen(a, k) + seen(b, k)) as u64;
        assert(seen(a, k) + seen(b, k) <= u64::MAX);
        assert(sum_of(a, b) =~= sum_of(a, rest).insert(k, both)) by {
            assert forall|j: Seq<char>| #[trigger] sum_of(a, b).dom().contains(j) implies sum_of(
                a,
                b,
            )[j] == sum_of(a, rest).insert(k, both)[j] by {
                assert(seen(a, j) + seen(b, j) <= u64::MAX);
            }
        }
        total_with(sum_of(a, rest), k, both);
        assert(seen(sum_of(a, rest), k) == seen(a, k));
    }
}

/// Merging keeps the counts by type adding up.
pub proof fn merge_adds_up(a: ParseStats, b: ParseStats)
    requires
        a@.adds_up(),
        b@.adds_up(),
        a.addable(b),
    ensures
        a@.merged(b@).adds_up(),
{
    sum_adds_up(a@.types, b@.types);
}

/// Merging does not depend on which of the two comes first.
pub proof fn merge_commutes(a: Tally, b: Tally)
    ensures
        a.merged(b) == b.merged(a),
{
    assert(sum_of(a.types, b.types) =~= sum_of(b.types, a.types));
    assert(a.versions.union(b.versions) =~= b.versions.union(a.versions));
}

/// A tally is shown count by count.
pub proof fn tallies_are_shown_whole(s: ParseStats)
    ensures
        s@.ok == s.ok,
        s@.blank == s.blank,
        s@.bad_json == s.bad_json,
        s@.bad_shape == s.bad_shape,
        s@.unknown_type == s.unknown_type,
        s@.oversize_lines == s.oversize_lines,
        s@.truncations == s.truncations,
        s@.types == s.unknown_types_seen@,
        s@.versions == s.versions_seen@,
{
}

} // verus!
