//! The executable per-species counter.

use crate::tally::{bump, count_of, counts_fit, Counts, Name};
use vstd::prelude::*;

verus! {

/// One row of the counter: a creature name and how often it was recorded.
#[derive(Debug)]
struct MonCount {
    name: String,
    count: u32,
}

/// Running per-species occurrence counter. No name occurs in two rows; the
/// order of the rows carries no meaning.
#[derive(Debug)]
pub struct MonStats {
    rows: Vec<MonCount>,
}

/// The rows as mathematical pairs.
spec fn pairs_of(rows: Seq<MonCount>) -> Seq<(Name, nat)> {
    rows.map_values(|row: MonCount| (row.name@, row.count as nat))
}

/// Rows handed in or out as plain values, as mathematical pairs.
pub open spec fn entry_pairs(entries: Seq<(String, u32)>) -> Seq<(Name, nat)> {
    entries.map_values(|entry: (String, u32)| (entry.0@, entry.1 as nat))
}

/// No name occurs twice among the pairs.
pub open spec fn distinct_names(pairs: Seq<(Name, nat)>) -> bool {
    forall|i: int, j: int|
        0 <= i < j < pairs.len() ==> (#[trigger] pairs[i]).0 != (#[trigger] pairs[j]).0
}

/// The counter that a sequence of pairs stands for: each name with the count
/// beside it (with the last one, should a name occur twice).
pub open spec fn counts_of(pairs: Seq<(Name, nat)>) -> Counts
    decreases pairs.len(),
{
    if pairs.len() == 0 {
        Map::empty()
    } else {
        counts_of(pairs.drop_last()).insert(pairs.last().0, pairs.last().1)
    }
}

/// The counter of a sequence of pairs is finite, a name is counted exactly
/// if some pair holds it, and its count is the count of such a pair.
pub proof fn lemma_counts_domain(pairs: Seq<(Name, nat)>)
    ensures
        counts_of(pairs).dom().finite(),
        forall|name: Name|
            counts_of(pairs).contains_key(name) <==> exists|i: int|
                0 <= i < pairs.len() && (#[trigger] pairs[i]).0 == name,
        forall|name: Name|
            counts_of(pairs).contains_key(name) ==> exists|i: int|
                0 <= i < pairs.len() && #[trigger] pairs[i] == (name, counts_of(pairs)[name]),
    decreases pairs.len(),
{
    if pairs.len() > 0 {
        let front = pairs.drop_last();
        lemma_counts_domain(front);
        assert forall|name: Name|
            counts_of(pairs).contains_key(name) <==> exists|i: int|
                0 <= i < pairs.len() && (#[trigger] pairs[i]).0 == name by {
            if counts_of(pairs).contains_key(name) {
                if name == pairs.last().0 {
                    assert(pairs[pairs.len() - 1].0 == name);
                } else {
                    let i = choose|i: int| 0 <= i < front.len() && (#[trigger] front[i]).0 == name;
                    assert(pairs[i].0 == name);
                }
            }
            if exists|i: int| 0 <= i < pairs.len() && (#[trigger] pairs[i]).0 == name {
                let i = choose|i: int| 0 <= i < pairs.len() && (#[trigger] pairs[i]).0 == name;
                if i < front.len() {
                    assert(front[i].0 == name);
                }
            }
        }
        assert forall|name: Name| counts_of(pairs).contains_key(name) implies exists|i: int|
            0 <= i < pairs.len() && #[trigger] pairs[i] == (name, counts_of(pairs)[name]) by {
            if name == pairs.last().0 {
                assert(pairs[pairs.len() - 1] == (name, counts_of(pairs)[name]));
            } else {
                let i = choose|i: int|
                    0 <= i < front.len() && #[trigger] front[i] == (name, counts_of(front)[name]);
                assert(pairs[i] == (name, counts_of(pairs)[name]));
            }
        }
    }
}

/// Where no name occurs twice among the pairs, none does among all but the
/// last of them.
pub proof fn lemma_distinct_front(pairs: Seq<(Name, nat)>)
    requires
        distinct_names(pairs),
        pairs.len() > 0,
    ensures
        distinct_names(pairs.drop_last()),
{
    let front = pairs.drop_last();
    assert forall|i: int, j: int| 0 <= i < j < front.len() implies (#[trigger] front[i]).0 != (
    #[trigger] front[j]).0 by {
        assert(pairs[i].0 != pairs[j].0);
    }
}

/// Where no name occurs twice, each pair's count is the count of its name.
pub proof fn lemma_counts_lookup(pairs: Seq<(Name, nat)>, at: int)
    requires
        distinct_names(pairs),
        0 <= at < pairs.len(),
    ensures
        counts_of(pairs).contains_key(pairs[at].0),
        counts_of(pairs)[pairs[at].0] == pairs[at].1,
    decreases pairs.len(),
{
    if at < pairs.len() - 1 {
        let front = pairs.drop_last();
        lemma_distinct_front(pairs);
        lemma_counts_lookup(front, at);
        assert(pairs[at].0 != pairs[pairs.len() - 1].0);
    }
}

/// Where no name occurs twice, changing the count of one pair changes the
/// counter at that pair's name and nowhere else.
pub proof fn lemma_counts_update(pairs: Seq<(Name, nat)>, at: int, count: nat)
    requires
        distinct_names(pairs),
        0 <= at < pairs.len(),
    ensures
        counts_of(pairs.update(at, (pairs[at].0, count))) == counts_of(pairs).insert(
            pairs[at].0,
            count,
        ),
        distinct_names(pairs.update(at, (pairs[at].0, count))),
    decreases pairs.len(),
{
    let name = pairs[at].0;
    let changed = pairs.update(at, (name, count));
    let front = pairs.drop_last();
    assert(distinct_names(changed)) by {
        assert forall|i: int, j: int| 0 <= i < j < changed.len() implies (#[trigger] changed[i]).0
            != (#[trigger] changed[j]).0 by {
            assert(pairs[i].0 != pairs[j].0);
        }
    }
    if at == pairs.len() - 1 {
        assert(changed.drop_last() =~= front);
        assert(counts_of(changed) =~= counts_of(pairs).insert(name, count));
    } else {
        lemma_distinct_front(pairs);
        lemma_counts_update(front, at, count);
        assert(changed.drop_last() =~= front.update(at, (name, count)));
        assert(pairs[at].0 != pairs[pairs.len() - 1].0);
        assert(counts_of(changed) =~= counts_of(pairs).insert(name, count));
    }
}

/// Where no name occurs twice, the counter holds as many names as there
/// are pairs.
pub proof fn lemma_counts_len(pairs: Seq<(Name, nat)>)
    requires
        distinct_names(pairs),
    ensures
        counts_of(pairs).dom().len() == pairs.len(),
    decreases pairs.len(),
{
    if pairs.len() > 0 {
        let front = pairs.drop_last();
        lemma_distinct_front(pairs);
        lemma_counts_len(front);
        lemma_counts_domain(front);
        assert(!counts_of(front).contains_key(pairs.last().0)) by {
            if counts_of(front).contains_key(pairs.last().0) {
                let i = choose|i: int|
                    0 <= i < front.len() && (#[trigger] front[i]).0 == pairs.last().0;
                assert(pairs[i].0 != pairs[pairs.len() - 1].0);
            }
        }
    } else {
        assert(counts_of(pairs).dom() =~= Set::<Name>::empty());
    }
}

/// Adding a pair at the end adds its name and count to the counter.
pub proof fn lemma_counts_push(pairs: Seq<(Name, nat)>, name: Name, count: nat)
    ensures
        counts_of(pairs.push((name, count))) == counts_of(pairs).insert(name, count),
{
    assert(pairs.push((name, count)).drop_last() =~= pairs);
}

impl View for MonStats {
    type V = Counts;

    /// The counter as a map from each recorded name to its count.
    closed spec fn view(&self) -> Counts {
        counts_of(pairs_of(self.rows@))
    }
}

impl Clone for MonStats {
    /// A counter with the same rows.
    fn clone(&self) -> (copy: MonStats)
        ensures
            copy@ == self@,
            copy.pairs() == self.pairs(),
    {
        proof {
            use_type_invariant(self);
        }
        let mut rows: Vec<MonCount> = Vec::new();
        let mut at: usize = 0;
        while at < self.rows.len()
            invariant
                at <= self.rows.len(),
                rows.len() == at,
                pairs_of(rows@) == pairs_of(self.rows@).take(at as int),
            decreases self.rows.len() - at,
        {
            let ghost copied = rows@;
            rows.push(MonCount { name: self.rows[at].name.clone(), count: self.rows[at].count });
            assert forall|i: int| 0 <= i <= at implies pairs_of(rows@)[i] == pairs_of(
                self.rows@,
            )[i] by {
                if i < at {
                    assert(pairs_of(copied)[i] == pairs_of(self.rows@).take(at as int)[i]);
                }
            }
            assert(pairs_of(rows@) =~= pairs_of(self.rows@).take(at + 1));
            at += 1;
        }
        assert(pairs_of(self.rows@).take(at as int) =~= pairs_of(self.rows@));
        MonStats { rows }
    }
}

impl MonStats {
    #[verifier::type_invariant]
    spec fn well_formed(self) -> bool {
        distinct_names(pairs_of(self.rows@))
    }

    /// The rows of the counter, in the order in which the names were first
    /// recorded.
    pub closed spec fn pairs(&self) -> Seq<(Name, nat)> {
        pairs_of(self.rows@)
    }

    /// What holds of every counter: it is the map of its rows, it is finite,
    /// and every count fits the counter width.
    pub proof fn lemma_shape(&self)
        ensures
            self@ == counts_of(self.pairs()),
            self@.dom().finite(),
            counts_fit(self@),
    {
        let pairs = self.pairs();
        lemma_counts_domain(pairs);
        assert forall|name: Name| self@.contains_key(name) implies #[trigger] self@[name]
            <= u32::MAX by {
            let i = choose|i: int|
                0 <= i < pairs.len() && #[trigger] pairs[i] == (name, counts_of(pairs)[name]);
            assert(pairs[i].1 == self.rows[i].count);
        }
    }

    /// An empty counter.
    pub fn new() -> (stats: MonStats)
        ensures
            stats@ == Map::<Name, nat>::empty(),
            stats.pairs() == Seq::<(Name, nat)>::empty(),
    {
        let stats = MonStats { rows: Vec::new() };
        assert(pairs_of(stats.rows@) =~= Seq::<(Name, nat)>::empty());
        stats
    }

    /// The row that holds `name`, if any.
    fn position(&self, name: &String) -> (found: Option<usize>)
        ensures
            match found {
                Some(at) => at < self.rows.len() && self.rows[at as int].name@ == name@,
                None => forall|i: int| 0 <= i < self.rows.len() ==> self.rows[i].name@ != name@,
            },
    {
        let mut at: usize = 0;
        while at < self.rows.len()
            invariant
                at <= self.rows.len(),
                forall|i: int| 0 <= i < at ==> self.rows[i].name@ != name@,
            decreases self.rows.len() - at,
        {
            if self.rows[at].name == *name {
                return Some(at);
            }
            at += 1;
        }
        None
    }

    /// The count recorded for `name`, or `None` where it was never recorded.
    pub fn get(&self, name: &str) -> (count: Option<u32>)
        ensures
            match count {
                Some(c) => self@.contains_key(name@) && self@[name@] == c,
                None => !self@.contains_key(name@),
            },
    {
        proof {
            use_type_invariant(self);
            lemma_counts_domain(pairs_of(self.rows@));
        }
        let key = name.to_owned();
        match self.position(&key) {
            Some(at) => {
                proof {
                    lemma_counts_lookup(pairs_of(self.rows@), at as int);
                }
                Some(self.rows[at].count)
            },
            None => {
                let ghost pairs = pairs_of(self.rows@);
                assert forall|i: int| 0 <= i < pairs.len() implies (#[trigger] pairs[i]).0
                    != name@ by {
                    assert(self.rows[i].name@ != name@);
                }
                None
            },
        }
    }

    /// The number of distinct names recorded.
    pub fn len(&self) -> (n: usize)
        ensures
            n == self@.dom().len(),
            n == self.pairs().len(),
    {
        proof {
            use_type_invariant(self);
            lemma_counts_len(pairs_of(self.rows@));
        }
        self.rows.len()
    }

    /// The rows of the counter as plain values: each recorded name once,
    /// with its count.
    pub fn entries(&self) -> (entries: Vec<(String, u32)>)
        ensures
            entry_pairs(entries@) == self.pairs(),
            distinct_names(self.pairs()),
            self@ == counts_of(self.pairs()),
    {
        proof {
            use_type_invariant(self);
        }
        let mut entries: Vec<(String, u32)> = Vec::new();
        let mut at: usize = 0;
        while at < self.rows.len()
            invariant
                at <= self.rows.len(),
                entries.len() == at,
                entry_pairs(entries@) == pairs_of(self.rows@).take(at as int),
            decreases self.rows.len() - at,
        {
            let ghost copied = entries@;
            entries.push((self.rows[at].name.clone(), self.rows[at].count));
            assert forall|i: int| 0 <= i <= at implies entry_pairs(entries@)[i] == pairs_of(
                self.rows@,
            )[i] by {
                if i < at {
                    assert(entry_pairs(copied)[i] == pairs_of(self.rows@).take(at as int)[i]);
                }
            }
            assert(entry_pairs(entries@) =~= pairs_of(self.rows@).take(at + 1));
            at += 1;
        }
        assert(pairs_of(self.rows@).take(at as int) =~= pairs_of(self.rows@));
        entries
    }

    /// The counter of the given rows. There is none exactly where a name
    /// occurs in two rows.
    pub fn from_entries(entries: Vec<(String, u32)>) -> (stats: Option<MonStats>)
        ensures
            stats is Some <==> distinct_names(entry_pairs(entries@)),
            stats matches Some(made) ==> made.pairs() == entry_pairs(entries@) && made@
                == counts_of(entry_pairs(entries@)),
    {
        let ghost wanted = entry_pairs(entries@);
        let mut made = MonStats::new();
        let mut at: usize = 0;
        while at < entries.len()
            invariant
                at <= entries.len(),
                wanted == entry_pairs(entries@),
                made.rows.len() == at,
                pairs_of(made.rows@) == wanted.take(at as int),
                distinct_names(wanted.take(at as int)),
            decreases entries.len() - at,
        {
            let ghost before = pairs_of(made.rows@);
            let name = entries[at].0.clone();
            match made.position(&name) {
                Some(twin) => {
                    proof {
                        assert(wanted[twin as int] == before[twin as int]);
                        assert(wanted[twin as int].0 == wanted[at as int].0);
                    }
                    return None;
                },
                None => {
                    let mut rows: Vec<MonCount> = Vec::new();
                    core::mem::swap(&mut rows, &mut made.rows);
                    rows.push(MonCount { name, count: entries[at].1 });
                    proof {
                        assert forall|i: int| 0 <= i <= at implies pairs_of(rows@)[i]
                            == wanted[i] by {
                            if i < at {
                                assert(before[i] == wanted.take(at as int)[i]);
                            }
                        }
                        assert(pairs_of(rows@) =~= wanted.take(at + 1));
                        let ghost grown = wanted.take(at + 1);
                        assert forall|i: int, j: int| 0 <= i < j < grown.len() implies (
                            #[trigger] grown[i]).0 != (#[trigger] grown[j]).0 by {
                            if j < at {
                                assert(wanted.take(at as int)[i].0 != wanted.take(at as int)[j].0);
                            } else {
                                assert(before[i].0 != name@);
                            }
                        }
                    }
                    made.rows = rows;
                },
            }
            at += 1;
        }
        proof {
            assert(wanted.take(at as int) =~= wanted);
        }
        Some(made)
    }

    /// Records one sighting of `name`. Fails, and changes nothing, exactly
    /// where the count of `name` is already the largest the counter can hold.
    pub fn record(&mut self, name: &str) -> (recorded: bool)
        ensures
            recorded <==> count_of(old(self)@, name@) < u32::MAX,
            recorded ==> final(self)@ == bump(old(self)@, name@),
            !recorded ==> *final(self) == *old(self),
    {
        proof {
            use_type_invariant(&*self);
            lemma_counts_domain(pairs_of(self.rows@));
        }
        let ghost before = pairs_of(self.rows@);
        let key = name.to_owned();
        match self.position(&key) {
            Some(at) => {
                proof {
                    lemma_counts_lookup(before, at as int);
                }
                let count = self.rows[at].count;
                if count == u32::MAX {
                    return false;
                }
                let mut rows: Vec<MonCount> = Vec::new();
                core::mem::swap(&mut rows, &mut self.rows);
                rows.set(at, MonCount { name: key, count: count + 1 });
                proof {
                    lemma_counts_update(before, at as int, (count + 1) as nat);
                    assert(pairs_of(rows@) =~= before.update(
                        at as int,
                        (before[at as int].0, (count + 1) as nat),
                    ));
                }
                self.rows = rows;
                true
            },
            None => {
                assert forall|i: int| 0 <= i < before.len() implies (#[trigger] before[i]).0
                    != name@ by {
                    assert(old(self).rows[i].name@ != name@);
                }
                let mut rows: Vec<MonCount> = Vec::new();
                core::mem::swap(&mut rows, &mut self.rows);
                rows.push(MonCount { name: key, count: 1 });
                proof {
                    lemma_counts_push(before, name@, 1);
                    assert(pairs_of(rows@) =~= before.push((name@, 1nat)));
                }
                self.rows = rows;
                true
            },
        }
    }
}

/// Rows in which no name occurs twice stand for one counter, whatever
/// their order: a name's count is the count of its row.
pub proof fn lemma_rows_fix_counter(pairs: Seq<(Name, nat)>, other: Seq<(Name, nat)>)
    requires
        distinct_names(pairs),
        distinct_names(other),
        forall|i: int| 0 <= i < pairs.len() ==> other.contains(#[trigger] pairs[i]),
        forall|i: int| 0 <= i < other.len() ==> pairs.contains(#[trigger] other[i]),
    ensures
        counts_of(pairs) == counts_of(other),
{
    lemma_counts_domain(pairs);
    lemma_counts_domain(other);
    assert forall|name: Name| counts_of(pairs).contains_key(name) implies counts_of(
        other,
    ).contains_key(name) && counts_of(other)[name] == counts_of(pairs)[name] by {
        let i = choose|i: int| 0 <= i < pairs.len() && (#[trigger] pairs[i]).0 == name;
        lemma_counts_lookup(pairs, i);
        assert(other.contains(pairs[i]));
        let j = choose|j: int| 0 <= j < other.len() && other[j] == pairs[i];
        lemma_counts_lookup(other, j);
    }
    assert forall|name: Name| counts_of(other).contains_key(name) implies counts_of(
        pairs,
    ).contains_key(name) by {
        let j = choose|j: int| 0 <= j < other.len() && (#[trigger] other[j]).0 == name;
        assert(pairs.contains(other[j]));
        let i = choose|i: int| 0 <= i < pairs.len() && pairs[i] == other[j];
        lemma_counts_lookup(pairs, i);
    }
    assert(counts_of(pairs) =~= counts_of(other));
}

} // verus!
