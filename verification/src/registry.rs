//! The in-memory gauge family: a table of per-device gauge values,
//! kept sorted by device identifier so that serialization is
//! deterministic regardless of insertion order.

use vstd::prelude::*;

use crate::text::{lex_lt, lemma_lex_lt_connected, lemma_lex_lt_irreflexive,
    lemma_lex_lt_transitive, str_eq, str_lt};

verus! {

/// One gauge sample: a device identifier and its last known numeric
/// state (1 for active, 0 for standby).
#[derive(Debug)]
pub struct GaugeEntry {
    pub name: String,
    pub value: u64,
}

impl GaugeEntry {
    /// The mathematical content of an entry.
    pub open spec fn view_pair(&self) -> (Seq<char>, u64) {
        (self.name@, self.value)
    }
}

/// The entries are strictly sorted by name in lexicographic order;
/// in particular every name occurs at most once.
pub open spec fn sorted_entries(s: Seq<(Seq<char>, u64)>) -> bool {
    forall|i: int, j: int|
        0 <= i < j < s.len() ==> lex_lt(#[trigger] s[i].0, #[trigger] s[j].0)
}

/// The map from device identifier to gauge value that a sequence of
/// entries denotes. Meaningful when the names are unique, as
/// [`sorted_entries`] guarantees.
pub open spec fn entries_map(s: Seq<(Seq<char>, u64)>) -> Map<Seq<char>, u64> {
    Map::new(
        |k: Seq<char>| exists|i: int| 0 <= i < s.len() && (#[trigger] s[i]).0 == k,
        |k: Seq<char>| s[choose|i: int| 0 <= i < s.len() && (#[trigger] s[i]).0 == k].1,
    )
}

/// In a strictly sorted sequence every name occurs at most once.
pub proof fn lemma_sorted_unique(s: Seq<(Seq<char>, u64)>)
    requires
        sorted_entries(s),
    ensures
        forall|i: int, j: int|
            0 <= i < s.len() && 0 <= j < s.len() && (#[trigger] s[i]).0 == (#[trigger] s[j]).0
                ==> i == j,
{
    assert forall|i: int, j: int|
        0 <= i < s.len() && 0 <= j < s.len() && (#[trigger] s[i]).0 == (#[trigger] s[j]).0
        implies i == j by {
        if i < j {
            assert(lex_lt(s[i].0, s[j].0));
            lemma_lex_lt_irreflexive(s[i].0);
        }
        if j < i {
            assert(lex_lt(s[j].0, s[i].0));
            lemma_lex_lt_irreflexive(s[i].0);
        }
    }
}

/// In a sorted sequence, the denoted map contains exactly the names
/// of the entries, each bound to its entry's value.
pub proof fn lemma_entries_map_characterizes(s: Seq<(Seq<char>, u64)>)
    requires
        sorted_entries(s),
    ensures
        forall|k: Seq<char>|
            entries_map(s).contains_key(k) <==> exists|i: int|
                0 <= i < s.len() && (#[trigger] s[i]).0 == k,
        forall|i: int|
            0 <= i < s.len() ==> entries_map(s).contains_key((#[trigger] s[i]).0) && entries_map(
                s,
            )[s[i].0] == s[i].1,
{
    lemma_sorted_unique(s);
    assert forall|i: int| 0 <= i < s.len() implies entries_map(s).contains_key(
        (#[trigger] s[i]).0,
    ) && entries_map(s)[s[i].0] == s[i].1 by {
        let k = s[i].0;
        assert(entries_map(s).contains_key(k));
        let j = choose|j: int| 0 <= j < s.len() && (#[trigger] s[j]).0 == k;
        assert(j == i);
    }
}

/// Insertion into a sorted entry sequence: an existing entry for the
/// same name is overwritten in place, a new name enters at the unique
/// position that keeps the sequence sorted.
pub open spec fn spec_set(s: Seq<(Seq<char>, u64)>, name: Seq<char>, value: u64) -> Seq<
    (Seq<char>, u64),
>
    decreases s.len(),
{
    if s.len() == 0 {
        seq![(name, value)]
    } else if lex_lt(name, s[0].0) {
        seq![(name, value)] + s
    } else if name == s[0].0 {
        seq![(name, value)] + s.skip(1)
    } else {
        seq![s[0]] + spec_set(s.skip(1), name, value)
    }
}

/// The position at which [`spec_set`] places `name`: the number of
/// leading entries whose names come strictly before it.
pub open spec fn set_position(s: Seq<(Seq<char>, u64)>, name: Seq<char>) -> int
    decreases s.len(),
{
    if s.len() == 0 {
        0
    } else if lex_lt(s[0].0, name) {
        1 + set_position(s.skip(1), name)
    } else {
        0
    }
}

/// Basic bounds and meaning of [`set_position`].
pub proof fn lemma_set_position(s: Seq<(Seq<char>, u64)>, name: Seq<char>)
    ensures
        0 <= set_position(s, name) <= s.len(),
        forall|k: int| 0 <= k < set_position(s, name) ==> lex_lt(#[trigger] s[k].0, name),
        set_position(s, name) < s.len() ==> !lex_lt(s[set_position(s, name)].0, name),
    decreases s.len(),
{
    if s.len() > 0 && lex_lt(s[0].0, name) {
        lemma_set_position(s.skip(1), name);
        assert forall|k: int| 0 <= k < set_position(s, name) implies lex_lt(
            #[trigger] s[k].0,
            name,
        ) by {
            if k > 0 {
                assert(s.skip(1)[k - 1] == s[k]);
                assert(lex_lt(s.skip(1)[k - 1].0, name));
            }
        }
        if set_position(s, name) < s.len() {
            assert(s.skip(1)[set_position(s.skip(1), name)] == s[set_position(s, name)]);
        }
    }
}

/// If the first `i` names of `s` all come before `name`, insertion
/// leaves them in place and works on the remainder.
proof fn lemma_spec_set_split(s: Seq<(Seq<char>, u64)>, name: Seq<char>, value: u64, i: int)
    requires
        0 <= i <= s.len(),
        forall|k: int| 0 <= k < i ==> lex_lt(#[trigger] s[k].0, name),
    ensures
        spec_set(s, name, value) == s.take(i) + spec_set(s.skip(i), name, value),
    decreases i,
{
    if i == 0 {
        assert(s.skip(0) =~= s);
        assert(s.take(0) + spec_set(s, name, value) =~= spec_set(s, name, value));
    } else {
        assert(lex_lt(s[0].0, name));
        if lex_lt(name, s[0].0) {
            lemma_lex_lt_transitive(s[0].0, name, s[0].0);
            lemma_lex_lt_irreflexive(s[0].0);
        }
        assert(name != s[0].0);
        lemma_spec_set_split(s.skip(1), name, value, i - 1);
        assert(s.skip(1).skip(i - 1) =~= s.skip(i));
        assert(s.skip(1).take(i - 1) =~= s.take(i).skip(1));
        assert(spec_set(s, name, value) == seq![s[0]] + spec_set(s.skip(1), name, value));
        assert(seq![s[0]] + (s.skip(1).take(i - 1) + spec_set(s.skip(i), name, value)) =~= s.take(
            i,
        ) + spec_set(s.skip(i), name, value));
    }
}

/// What insertion looks like at its position: an overwrite in place
/// when the name is present, a splice when it is new.
pub proof fn lemma_spec_set_explicit(s: Seq<(Seq<char>, u64)>, name: Seq<char>, value: u64)
    requires
        sorted_entries(s),
    ensures
        ({
            let i = set_position(s, name);
            if i < s.len() && s[i].0 == name {
                spec_set(s, name, value) == s.update(i, (name, value))
            } else {
                spec_set(s, name, value) == s.take(i) + seq![(name, value)] + s.skip(i)
            }
        }),
{
    let i = set_position(s, name);
    lemma_set_position(s, name);
    lemma_spec_set_split(s, name, value, i);
    let tail = s.skip(i);
    if i < s.len() && s[i].0 == name {
        assert(tail[0] == s[i]);
        assert(!lex_lt(name, tail[0].0)) by {
            if lex_lt(name, tail[0].0) {
                lemma_lex_lt_irreflexive(name);
            }
        }
        assert(spec_set(tail, name, value) == seq![(name, value)] + tail.skip(1));
        assert(s.take(i) + (seq![(name, value)] + tail.skip(1)) =~= s.update(i, (name, value)));
    } else {
        if i == s.len() {
            assert(tail.len() == 0);
            assert(spec_set(tail, name, value) == seq![(name, value)]);
        } else {
            assert(tail[0] == s[i]);
            assert(name != tail[0].0);
            if !lex_lt(name, tail[0].0) {
                lemma_lex_lt_connected(name, tail[0].0);
            }
            assert(lex_lt(name, tail[0].0));
            assert(spec_set(tail, name, value) == seq![(name, value)] + tail);
        }
        assert(s.take(i) + spec_set(tail, name, value) =~= s.take(i) + seq![(name, value)]
            + s.skip(i));
    }
}

/// Insertion preserves sortedness.
pub proof fn lemma_spec_set_sorted(s: Seq<(Seq<char>, u64)>, name: Seq<char>, value: u64)
    requires
        sorted_entries(s),
    ensures
        sorted_entries(spec_set(s, name, value)),
{
    let i = set_position(s, name);
    lemma_set_position(s, name);
    lemma_spec_set_explicit(s, name, value);
    let r = spec_set(s, name, value);
    if i < s.len() && s[i].0 == name {
        assert forall|a: int, b: int| 0 <= a < b < r.len() implies lex_lt(
            #[trigger] r[a].0,
            #[trigger] r[b].0,
        ) by {
            assert(r[a].0 == s[a].0 && r[b].0 == s[b].0);
        }
    } else {
        assert(i < s.len() ==> lex_lt(name, s[i].0)) by {
            if i < s.len() && !lex_lt(name, s[i].0) {
                lemma_lex_lt_connected(name, s[i].0);
            }
        }
        assert forall|a: int, b: int| 0 <= a < b < r.len() implies lex_lt(
            #[trigger] r[a].0,
            #[trigger] r[b].0,
        ) by {
            if a < i {
                assert(r[a] == s[a]);
            } else if a == i {
                assert(r[a] == (name, value));
            } else {
                assert(r[a] == s[a - 1]);
            }
            if b < i {
                assert(r[b] == s[b]);
            } else if b == i {
                assert(r[b] == (name, value));
            } else {
                assert(r[b] == s[b - 1]);
            }
            if b == i {
                assert(lex_lt(r[a].0, name));
            } else if a == i && b > i {
                if b - 1 == i {
                    assert(lex_lt(name, s[i].0));
                } else {
                    assert(lex_lt(name, s[i].0));
                    assert(lex_lt(s[i].0, s[b - 1].0));
                    lemma_lex_lt_transitive(name, s[i].0, s[b - 1].0);
                }
            } else if a < i && b > i {
                if b - 1 == a {
                    assert(lex_lt(s[a].0, name));
                    assert(lex_lt(name, s[b - 1].0)) by {
                        assert(b - 1 >= i);
                        if b - 1 == i {
                        } else {
                            lemma_lex_lt_transitive(name, s[i].0, s[b - 1].0);
                        }
                    }
                    lemma_lex_lt_transitive(s[a].0, name, s[b - 1].0);
                }
            }
        }
    }
}

/// Insertion acts on the denoted map as `Map::insert`.
pub proof fn lemma_spec_set_map(s: Seq<(Seq<char>, u64)>, name: Seq<char>, value: u64)
    requires
        sorted_entries(s),
    ensures
        entries_map(spec_set(s, name, value)) == entries_map(s).insert(name, value),
{
    let i = set_position(s, name);
    let r = spec_set(s, name, value);
    lemma_set_position(s, name);
    lemma_spec_set_explicit(s, name, value);
    lemma_spec_set_sorted(s, name, value);
    lemma_entries_map_characterizes(s);
    lemma_entries_map_characterizes(r);
    lemma_sorted_unique(s);
    lemma_sorted_unique(r);
    let mr = entries_map(r);
    let ms = entries_map(s).insert(name, value);
    let overwrite = i < s.len() && s[i].0 == name;
    assert forall|k: Seq<char>| mr.contains_key(k) implies ms.contains_key(k) && mr[k]
        == ms[k] by {
        let a = choose|a: int| 0 <= a < r.len() && (#[trigger] r[a]).0 == k;
        if overwrite {
            if a == i {
                assert(r[a] == (name, value));
            } else {
                assert(r[a] == s[a]);
                assert(k != name);
            }
        } else {
            if a == i {
                assert(r[a] == (name, value));
            } else if a < i {
                assert(r[a] == s[a]);
                assert(lex_lt(k, name));
                assert(k != name) by {
                    lemma_lex_lt_irreflexive(name);
                }
            } else {
                assert(r[a] == s[a - 1]);
                assert(lex_lt(r[i].0, r[a].0));
                assert(r[i].0 == name);
                assert(k != name) by {
                    lemma_lex_lt_irreflexive(name);
                }
            }
        }
    }
    assert forall|k: Seq<char>| ms.contains_key(k) implies mr.contains_key(k) by {
        if k == name {
            if overwrite {
                assert(r[i] == (name, value));
                assert(r[i].0 == k);
            } else {
                assert(r[i] == (name, value));
                assert(r[i].0 == k);
            }
        } else {
            let a = choose|a: int| 0 <= a < s.len() && (#[trigger] s[a]).0 == k;
            if overwrite {
                assert(a != i);
                assert(r[a] == s[a]);
                assert(r[a].0 == k);
            } else {
                if a < i {
                    assert(r[a] == s[a]);
                    assert(r[a].0 == k);
                } else {
                    assert(r[a + 1] == s[a]);
                    assert(r[a + 1].0 == k);
                }
            }
        }
    }
    assert(mr =~= ms);
}

/// The boundary conditions determine [`set_position`] uniquely.
proof fn lemma_set_position_of(s: Seq<(Seq<char>, u64)>, name: Seq<char>, i: int)
    requires
        0 <= i <= s.len(),
        forall|k: int| 0 <= k < i ==> lex_lt(#[trigger] s[k].0, name),
        i < s.len() ==> !lex_lt(s[i as int].0, name),
    ensures
        set_position(s, name) == i,
    decreases i,
{
    if i == 0 {
        if s.len() > 0 {
            assert(!lex_lt(s[0].0, name));
        }
    } else {
        assert(lex_lt(s[0].0, name));
        lemma_set_position_of(s.skip(1), name, i - 1);
        assert(forall|k: int| 0 <= k < s.skip(1).len() ==> #[trigger] s.skip(1)[k] == s[k + 1]);
    }
}

/// Setting the same device to the same value twice is the same as
/// setting it once.
pub proof fn lemma_spec_set_idempotent(s: Seq<(Seq<char>, u64)>, name: Seq<char>, value: u64)
    requires
        sorted_entries(s),
    ensures
        spec_set(spec_set(s, name, value), name, value) == spec_set(s, name, value),
{
    let i = set_position(s, name);
    lemma_set_position(s, name);
    lemma_spec_set_explicit(s, name, value);
    lemma_spec_set_sorted(s, name, value);
    let r = spec_set(s, name, value);
    lemma_lex_lt_irreflexive(name);
    if i < s.len() && s[i].0 == name {
        assert(forall|k: int| 0 <= k < i ==> #[trigger] r[k] == s[k]);
        assert(r[i] == (name, value));
        lemma_set_position_of(r, name, i);
        lemma_spec_set_explicit(r, name, value);
        assert(spec_set(r, name, value) == r.update(i, (name, value)));
        assert(r.update(i, (name, value)) =~= r);
    } else {
        assert(forall|k: int| 0 <= k < i ==> #[trigger] r[k] == s[k]);
        assert(r[i] == (name, value));
        lemma_set_position_of(r, name, i);
        lemma_spec_set_explicit(r, name, value);
        assert(spec_set(r, name, value) == r.update(i, (name, value)));
        assert(r.update(i, (name, value)) =~= r);
    }
}

/// A sorted entry sequence is determined by the map it denotes.
pub proof fn lemma_sorted_entries_map_injective(s1: Seq<(Seq<char>, u64)>, s2: Seq<
    (Seq<char>, u64),
>)
    requires
        sorted_entries(s1),
        sorted_entries(s2),
        entries_map(s1) == entries_map(s2),
    ensures
        s1 == s2,
    decreases s1.len(),
{
    lemma_entries_map_characterizes(s1);
    lemma_entries_map_characterizes(s2);
    if s1.len() == 0 {
        if s2.len() > 0 {
            assert(entries_map(s2).contains_key(s2[0].0));
            assert(entries_map(s1).contains_key(s2[0].0));
            let i = choose|i: int| 0 <= i < s1.len() && (#[trigger] s1[i]).0 == s2[0].0;
            assert(false);
        }
        assert(s1 =~= s2);
    } else if s2.len() == 0 {
        assert(entries_map(s1).contains_key(s1[0].0));
        assert(entries_map(s2).contains_key(s1[0].0));
        let i = choose|i: int| 0 <= i < s2.len() && (#[trigger] s2[i]).0 == s1[0].0;
        assert(false);
    } else {
        assert(s1[0].0 == s2[0].0) by {
            assert(entries_map(s2).contains_key(s1[0].0));
            let i = choose|i: int| 0 <= i < s2.len() && (#[trigger] s2[i]).0 == s1[0].0;
            assert(entries_map(s1).contains_key(s2[0].0));
            let j = choose|j: int| 0 <= j < s1.len() && (#[trigger] s1[j]).0 == s2[0].0;
            if i > 0 {
                assert(lex_lt(s2[0].0, s2[i].0));
                if j > 0 {
                    assert(lex_lt(s1[0].0, s1[j].0));
                    lemma_lex_lt_transitive(s1[0].0, s1[j].0, s2[i].0);
                    lemma_lex_lt_irreflexive(s1[0].0);
                } else {
                    lemma_lex_lt_irreflexive(s1[0].0);
                }
            }
        }
        assert(s1[0].1 == s2[0].1) by {
            assert(entries_map(s1)[s1[0].0] == s1[0].1);
            assert(entries_map(s2)[s2[0].0] == s2[0].1);
        }
        let t1 = s1.skip(1);
        let t2 = s2.skip(1);
        assert(forall|k: int| 0 <= k < t1.len() ==> #[trigger] t1[k] == s1[k + 1]);
        assert(forall|k: int| 0 <= k < t2.len() ==> #[trigger] t2[k] == s2[k + 1]);
        assert(sorted_entries(t1));
        assert(sorted_entries(t2));
        lemma_entries_map_characterizes(t1);
        lemma_entries_map_characterizes(t2);
        assert(entries_map(t1) =~= entries_map(t2)) by {
            assert forall|k: Seq<char>| entries_map(t1).contains_key(k) implies entries_map(
                t2,
            ).contains_key(k) && entries_map(t1)[k] == entries_map(t2)[k] by {
                let a = choose|a: int| 0 <= a < t1.len() && (#[trigger] t1[a]).0 == k;
                assert(s1[a + 1].0 == k);
                assert(k != s1[0].0) by {
                    assert(lex_lt(s1[0].0, s1[a + 1].0));
                    lemma_lex_lt_irreflexive(s1[0].0);
                }
                assert(entries_map(s1).contains_key(k));
                assert(entries_map(s2).contains_key(k));
                let b = choose|b: int| 0 <= b < s2.len() && (#[trigger] s2[b]).0 == k;
                assert(b != 0);
                assert(t2[b - 1].0 == k);
                assert(entries_map(t1)[k] == t1[a].1);
                assert(entries_map(s1)[k] == s1[a + 1].1);
                lemma_sorted_unique(s1);
                lemma_sorted_unique(s2);
                assert(entries_map(t2)[k] == t2[b - 1].1);
                assert(entries_map(s2)[k] == s2[b].1);
            }
            assert forall|k: Seq<char>| entries_map(t2).contains_key(k) implies entries_map(
                t1,
            ).contains_key(k) by {
                let b = choose|b: int| 0 <= b < t2.len() && (#[trigger] t2[b]).0 == k;
                assert(s2[b + 1].0 == k);
                assert(k != s2[0].0) by {
                    assert(lex_lt(s2[0].0, s2[b + 1].0));
                    lemma_lex_lt_irreflexive(s2[0].0);
                }
                assert(entries_map(s2).contains_key(k));
                assert(entries_map(s1).contains_key(k));
                let a = choose|a: int| 0 <= a < s1.len() && (#[trigger] s1[a]).0 == k;
                assert(a != 0);
                assert(t1[a - 1].0 == k);
            }
        }
        lemma_sorted_entries_map_injective(t1, t2);
        assert forall|k: int| 0 <= k < s1.len() implies s1[k] == s2[k] by {
            if k > 0 {
                assert(t1[k - 1] == s1[k]);
                assert(t2[k - 1] == s2[k]);
            }
        }
        assert(s1 =~= s2);
    }
}

/// Updates for two distinct devices commute: the resulting entry
/// sequences are identical, whichever update is applied first.
pub proof fn lemma_spec_set_commutes(
    s: Seq<(Seq<char>, u64)>,
    n1: Seq<char>,
    v1: u64,
    n2: Seq<char>,
    v2: u64,
)
    requires
        sorted_entries(s),
        n1 != n2,
    ensures
        spec_set(spec_set(s, n1, v1), n2, v2) == spec_set(spec_set(s, n2, v2), n1, v1),
{
    lemma_spec_set_sorted(s, n1, v1);
    lemma_spec_set_sorted(s, n2, v2);
    lemma_spec_set_sorted(spec_set(s, n1, v1), n2, v2);
    lemma_spec_set_sorted(spec_set(s, n2, v2), n1, v1);
    lemma_spec_set_map(s, n1, v1);
    lemma_spec_set_map(s, n2, v2);
    lemma_spec_set_map(spec_set(s, n1, v1), n2, v2);
    lemma_spec_set_map(spec_set(s, n2, v2), n1, v1);
    let m = entries_map(s);
    assert(m.insert(n1, v1).insert(n2, v2) =~= m.insert(n2, v2).insert(n1, v1));
    lemma_sorted_entries_map_injective(
        spec_set(spec_set(s, n1, v1), n2, v2),
        spec_set(spec_set(s, n2, v2), n1, v1),
    );
}

/// A gauge family keyed by device identifier. Entries are created
/// lazily on the first known observation and never removed.
pub struct GaugeFamily {
    entries: Vec<GaugeEntry>,
}

impl View for GaugeFamily {
    type V = Seq<(Seq<char>, u64)>;

    closed spec fn view(&self) -> Seq<(Seq<char>, u64)> {
        Seq::new(self.entries@.len(), |i: int| self.entries@[i].view_pair())
    }
}

impl GaugeFamily {
    /// The family's sortedness invariant.
    pub open spec fn wf(&self) -> bool {
        sorted_entries(self@)
    }

    /// The map this family denotes.
    pub open spec fn as_map(&self) -> Map<Seq<char>, u64> {
        entries_map(self@)
    }

    /// Creates an empty family.
    pub fn new() -> (r: GaugeFamily)
        ensures
            r.wf(),
            r@ == Seq::<(Seq<char>, u64)>::empty(),
    {
        let r = GaugeFamily { entries: Vec::new() };
        proof {
            assert(r@ =~= Seq::<(Seq<char>, u64)>::empty());
        }
        r
    }

    /// The number of entries.
    pub fn len(&self) -> (r: usize)
        ensures
            r == self@.len(),
    {
        self.entries.len()
    }

    /// The entry at a position, as a pair of device identifier and
    /// gauge value.
    pub fn entry_at(&self, i: usize) -> (r: (&String, u64))
        requires
            i < self@.len(),
        ensures
            r.0@ == self@[i as int].0,
            r.1 == self@[i as int].1,
    {
        (&self.entries[i].name, self.entries[i].value)
    }

    /// Sets the gauge for `name` to `value`, creating the entry if it
    /// is absent.
    pub fn set(&mut self, name: &str, value: u64)
        requires
            old(self).wf(),
        ensures
            final(self).wf(),
            final(self)@ == spec_set(old(self)@, name@, value),
            final(self).as_map() == old(self).as_map().insert(name@, value),
    {
        let ghost orig = self@;
        let mut i: usize = 0;
        loop
            invariant
                self.wf(),
                self@ == orig,
                i <= self@.len(),
                self.entries@.len() == self@.len(),
                forall|k: int| 0 <= k < i ==> lex_lt(#[trigger] self@[k].0, name@),
            ensures
                self@ == orig,
                self.entries@.len() == self@.len(),
                i <= self@.len(),
                forall|k: int| 0 <= k < i ==> lex_lt(#[trigger] self@[k].0, name@),
                i < self@.len() ==> !lex_lt(self@[i as int].0, name@),
            decreases self@.len() - i,
        {
            if i >= self.entries.len() {
                break;
            }
            if !str_lt(self.entries[i].name.as_str(), name) {
                break;
            }
            i = i + 1;
        }
        proof {
            lemma_spec_set_split(orig, name@, value, i as int);
        }
        if i < self.entries.len() && str_eq(self.entries[i].name.as_str(), name) {
            let entry = GaugeEntry { name: name.to_owned(), value };
            self.entries[i] = entry;
            proof {
                let tail = orig.skip(i as int);
                assert(tail[0] == orig[i as int]);
                assert(!lex_lt(name@, tail[0].0)) by {
                    if lex_lt(name@, tail[0].0) {
                        lemma_lex_lt_irreflexive(name@);
                    }
                }
                assert(spec_set(tail, name@, value) == seq![(name@, value)] + tail.skip(1));
                assert(self@ =~= orig.take(i as int) + (seq![(name@, value)] + tail.skip(1)));
            }
        } else {
            let entry = GaugeEntry { name: name.to_owned(), value };
            self.entries.insert(i, entry);
            proof {
                let tail = orig.skip(i as int);
                if i < orig.len() {
                    assert(tail[0] == orig[i as int]);
                    assert(lex_lt(name@, tail[0].0)) by {
                        if !lex_lt(name@, tail[0].0) {
                            lemma_lex_lt_connected(name@, tail[0].0);
                        }
                    }
                    assert(spec_set(tail, name@, value) == seq![(name@, value)] + tail);
                } else {
                    assert(tail.len() == 0);
                    assert(spec_set(tail, name@, value) == seq![(name@, value)]);
                    assert(seq![(name@, value)] =~= seq![(name@, value)] + tail);
                }
                assert(self@ =~= orig.take(i as int) + (seq![(name@, value)] + tail));
            }
        }
        proof {
            lemma_spec_set_sorted(orig, name@, value);
            lemma_spec_set_map(orig, name@, value);
        }
    }
}

} // verus!
