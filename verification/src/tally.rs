//! The mathematics of per-species counting: a counter is a finite map from
//! a creature name to the number of times it was recorded.

use vstd::prelude::*;

verus! {

/// A creature name, as the sequence of its characters.
pub type Name = Seq<char>;

/// The abstract per-species counter.
pub type Counts = Map<Name, nat>;

/// How often `name` was recorded in `counts`; a name never recorded counts 0.
pub open spec fn count_of(counts: Counts, name: Name) -> nat {
    if counts.contains_key(name) {
        counts[name]
    } else {
        0
    }
}

/// `counts` after one more sighting of `name`.
pub open spec fn bump(counts: Counts, name: Name) -> Counts {
    counts.insert(name, count_of(counts, name) + 1)
}

/// `counts` after one sighting of every entry of `names`, in order. A name
/// that occurs twice in `names` is counted twice.
pub open spec fn tally(counts: Counts, names: Seq<Name>) -> Counts
    decreases names.len(),
{
    if names.len() == 0 {
        counts
    } else {
        bump(tally(counts, names.drop_last()), names.last())
    }
}

/// The sum of all counts of a finite counter.
pub open spec fn sum_counts(counts: Counts) -> nat
    decreases counts.dom().len(),
    when counts.dom().finite()
{
    if counts.dom().len() == 0 {
        0
    } else {
        let name = counts.dom().choose();
        counts[name] + sum_counts(counts.remove(name))
    }
}

/// Every count of `counts` fits the machine's counter width.
pub open spec fn counts_fit(counts: Counts) -> bool {
    forall|name: Name| counts.contains_key(name) ==> #[trigger] counts[name] <= u32::MAX
}

/// The sum of a finite counter can be taken with any of its names first.
pub proof fn lemma_sum_split(counts: Counts, name: Name)
    requires
        counts.dom().finite(),
        counts.contains_key(name),
    ensures
        sum_counts(counts) == counts[name] + sum_counts(counts.remove(name)),
    decreases counts.dom().len(),
{
    let first = counts.dom().choose();
    if first != name {
        let without_first = counts.remove(first);
        let without_name = counts.remove(name);
        lemma_sum_split(without_first, name);
        lemma_sum_split(without_name, first);
        assert(without_first.remove(name) =~= without_name.remove(first));
    }
}

/// Recording a name never seen before adds its count to the sum.
pub proof fn lemma_sum_insert_fresh(counts: Counts, name: Name, count: nat)
    requires
        counts.dom().finite(),
        !counts.contains_key(name),
    ensures
        sum_counts(counts.insert(name, count)) == sum_counts(counts) + count,
{
    lemma_sum_split(counts.insert(name, count), name);
    assert(counts.insert(name, count).remove(name) =~= counts);
}

/// Replacing the count of a known name changes the sum by the difference.
pub proof fn lemma_sum_insert_known(counts: Counts, name: Name, count: nat)
    requires
        counts.dom().finite(),
        counts.contains_key(name),
    ensures
        sum_counts(counts.insert(name, count)) + counts[name] == sum_counts(counts) + count,
{
    lemma_sum_split(counts.insert(name, count), name);
    lemma_sum_split(counts, name);
    assert(counts.insert(name, count).remove(name) =~= counts.remove(name));
}

/// One sighting raises the sum of the counter by exactly one, and changes
/// no other name's count.
pub proof fn lemma_bump(counts: Counts, name: Name)
    requires
        counts.dom().finite(),
    ensures
        bump(counts, name).dom().finite(),
        sum_counts(bump(counts, name)) == sum_counts(counts) + 1,
        count_of(bump(counts, name), name) == count_of(counts, name) + 1,
        forall|other: Name|
            other != name ==> #[trigger] count_of(bump(counts, name), other) == count_of(
                counts,
                other,
            ),
{
    if counts.contains_key(name) {
        lemma_sum_insert_known(counts, name, counts[name] + 1);
    } else {
        lemma_sum_insert_fresh(counts, name, 1);
    }
}

/// Tallying a sequence of names raises the sum of the counter by the
/// length of the sequence: every entry is counted, repeated ones too.
pub proof fn lemma_tally_sum(counts: Counts, names: Seq<Name>)
    requires
        counts.dom().finite(),
    ensures
        tally(counts, names).dom().finite(),
        sum_counts(tally(counts, names)) == sum_counts(counts) + names.len(),
    decreases names.len(),
{
    if names.len() > 0 {
        lemma_tally_sum(counts, names.drop_last());
        lemma_bump(tally(counts, names.drop_last()), names.last());
    }
}

/// Tallying never lowers the count of any name, and tallying more names
/// never gives less than tallying a prefix of them.
pub proof fn lemma_tally_grows(counts: Counts, names: Seq<Name>, prefix: int, name: Name)
    requires
        0 <= prefix <= names.len(),
    ensures
        count_of(counts, name) <= count_of(tally(counts, names.take(prefix)), name),
        count_of(tally(counts, names.take(prefix)), name) <= count_of(tally(counts, names), name),
    decreases names.len(),
{
    if names.len() == 0 {
        assert(names.take(prefix) =~= names);
    } else if prefix == names.len() {
        assert(names.take(prefix) =~= names);
        lemma_tally_grows(counts, names.drop_last(), 0, name);
        assert(names.drop_last().take(0) =~= Seq::<Name>::empty());
    } else {
        lemma_tally_grows(counts, names.drop_last(), prefix, name);
        assert(names.drop_last().take(prefix) =~= names.take(prefix));
    }
}

/// Tallying one more name is tallying the names before it, then one bump.
pub proof fn lemma_tally_step(counts: Counts, names: Seq<Name>, done: int)
    requires
        0 <= done < names.len(),
    ensures
        tally(counts, names.take(done + 1)) == bump(tally(counts, names.take(done)), names[done]),
{
    assert(names.take(done + 1).drop_last() =~= names.take(done));
}

} // verus!
