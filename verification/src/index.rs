//! The feature-value index: for every feature name seen in training, the
//! values seen for it, in ascending order and with their repetitions.
//!
//! Names stand in the order in which they were first seen, so a position in
//! the index means the same name in every run that ingests the same samples.

use vstd::prelude::*;
use vstd::multiset::Multiset;
use crate::feature::{Reading, Sample};

verus! {

/// The values of one feature.
pub type Uint64Vec = Vec<u64>;

/// One feature of the index, as the contracts see it.
pub struct Column {
    pub name: Seq<char>,
    pub values: Seq<u64>,
}

/// The values seen for one feature name.
#[derive(Debug, PartialEq, Eq)]
pub struct FeatureValues {
    pub name: String,
    pub values: Uint64Vec,
}

impl View for FeatureValues {
    type V = Column;

    open spec fn view(&self) -> Column {
        Column { name: self.name@, values: self.values@ }
    }
}

/// Maps each feature name to all the values that the training set has for it.
#[derive(Debug, PartialEq, Eq)]
pub struct FeatureNameToValuesMap {
    pub entries: Vec<FeatureValues>,
}

impl View for FeatureNameToValuesMap {
    type V = Seq<Column>;

    open spec fn view(&self) -> Seq<Column> {
        Seq::new(self.entries@.len(), |i: int| self.entries@[i]@)
    }
}

/// Whether `values` ascends; equal neighbours are in order.
pub open spec fn ascending(values: Seq<u64>) -> bool {
    forall|i: int, j: int| 0 <= i <= j < values.len() ==> values[i] <= values[j]
}

/// Whether no two columns of `index` share a name.
pub open spec fn distinct_names(index: Seq<Column>) -> bool {
    forall|i: int, j: int|
        0 <= i < index.len() && 0 <= j < index.len() && i != j ==> index[i].name != index[j].name
}

/// What holds of every index that ingestion builds: one column for each
/// name, and each column's values in ascending order.
pub open spec fn well_formed(index: Seq<Column>) -> bool {
    &&& distinct_names(index)
    &&& forall|i: int| 0 <= i < index.len() ==> ascending(#[trigger] index[i].values)
}

/// The position of the first column called `name`, or the length of `index`
/// where there is none.
pub open spec fn position(index: Seq<Column>, name: Seq<char>) -> int
    decreases index.len(),
{
    if index.len() == 0 {
        0
    } else if index[0].name == name {
        0
    } else {
        1 + position(index.drop_first(), name)
    }
}

/// The values that `index` has for `name`; none where it has no such column.
pub open spec fn values_of(index: Seq<Column>, name: Seq<char>) -> Seq<u64> {
    let at = position(index, name);
    if at < index.len() {
        index[at].values
    } else {
        Seq::empty()
    }
}

/// The number of leading values that are not above `value`: where `value`
/// goes into an ascending sequence, behind its equals.
pub open spec fn slot(values: Seq<u64>, value: u64) -> int
    decreases values.len(),
{
    if values.len() == 0 || values[0] > value {
        0
    } else {
        1 + slot(values.drop_first(), value)
    }
}

/// `values` with `value` put in its place.
pub open spec fn inserted(values: Seq<u64>, value: u64) -> Seq<u64> {
    values.insert(slot(values, value), value)
}

/// `index` after one reading: the reading's value joins the column of its
/// name, and a name not seen before gets a column of its own, at the end.
pub open spec fn ingest_one(index: Seq<Column>, reading: Reading) -> Seq<Column> {
    let at = position(index, reading.name);
    if at < index.len() {
        index.update(
            at,
            Column { name: index[at].name, values: inserted(index[at].values, reading.value) },
        )
    } else {
        index.push(Column { name: reading.name, values: seq![reading.value] })
    }
}

/// `index` after the readings of one sample, taken in order.
pub open spec fn ingest(index: Seq<Column>, sample: Seq<Reading>) -> Seq<Column>
    decreases sample.len(),
{
    if sample.len() == 0 {
        index
    } else {
        ingest_one(ingest(index, sample.drop_last()), sample.last())
    }
}

/// The values that the readings of `sample` give for `name`, each as often
/// as it comes.
pub open spec fn named(sample: Seq<Reading>, name: Seq<char>) -> Multiset<u64>
    decreases sample.len(),
{
    if sample.len() == 0 {
        Multiset::empty()
    } else if sample.last().name == name {
        named(sample.drop_last(), name).insert(sample.last().value)
    } else {
        named(sample.drop_last(), name)
    }
}

/// `index` with the values of column `feature` replaced.
pub open spec fn with_values(index: Seq<Column>, feature: int, values: Seq<u64>) -> Seq<Column> {
    index.update(feature, Column { name: index[feature].name, values })
}

impl FeatureNameToValuesMap {
    /// An index with no feature in it.
    pub fn new() -> (index: FeatureNameToValuesMap)
        ensures
            index@ == Seq::<Column>::empty(),
    {
        let index = FeatureNameToValuesMap { entries: Vec::new() };
        assert(index@ =~= Seq::<Column>::empty());
        index
    }

    /// The number of feature names.
    pub fn len(&self) -> (n: usize)
        ensures
            n == self@.len(),
    {
        self.entries.len()
    }

    /// The position of the column called `name`, or the length of the index
    /// where there is none.
    pub fn find(&self, name: &String) -> (at: usize)
        ensures
            at == position(self@, name@),
    {
        let mut i: usize = 0;
        assert(self@.skip(0) =~= self@);
        while i < self.entries.len()
            invariant
                i <= self.entries.len(),
                position(self@, name@) == i + position(self@.skip(i as int), name@),
            decreases self.entries.len() - i,
        {
            assert(self@.skip(i as int)[0] == self@[i as int]);
            if self.entries[i].name == *name {
                return i;
            }
            proof {
                assert(self@.skip(i as int).drop_first() =~= self@.skip(i as int + 1));
            }
            i += 1;
        }
        i
    }

    /// Adds one value for the feature called `name`.
    pub fn add(&mut self, name: &String, value: u64)
        ensures
            final(self)@ == ingest_one(old(self)@, Reading { name: name@, value }),
    {
        let at = self.find(name);
        proof {
            lemma_position_bounds(self@, name@);
        }
        if at < self.entries.len() {
            let ghost before = self.entries@[at as int].values@;
            let place = place_of(&self.entries[at].values, value);
            proof {
                lemma_slot_bounds(before, value);
            }
            self.entries[at].values.insert(place, value);
            assert(self@ =~= ingest_one(old(self)@, Reading { name: name@, value }));
        } else {
            let mut values: Uint64Vec = Vec::new();
            values.push(value);
            self.entries.push(FeatureValues { name: name.clone(), values });
            assert(self@ =~= ingest_one(old(self)@, Reading { name: name@, value }));
        }
    }

    /// Adds every reading of `sample`, in order.
    pub fn add_all(&mut self, sample: &Sample)
        ensures
            final(self)@ == ingest(old(self)@, sample@),
    {
        let mut i: usize = 0;
        assert(sample@.take(0) =~= Seq::<Reading>::empty());
        while i < sample.features.len()
            invariant
                i <= sample.features.len(),
                self@ == ingest(old(self)@, sample@.take(i as int)),
            decreases sample.features.len() - i,
        {
            self.add(&sample.features[i].name, sample.features[i].value);
            proof {
                assert(sample@.take(i as int + 1).drop_last() =~= sample@.take(i as int));
                assert(sample@.take(i as int + 1).last() == sample.features@[i as int]@);
            }
            i += 1;
        }
        assert(sample@.take(i as int) =~= sample@);
    }

    /// Two copies of the index that share out the values of column
    /// `feature`: the first has those before position `at`, the second the
    /// others. Every other column is whole in both.
    pub fn split(&self, feature: usize, at: usize) -> (halves: (
        FeatureNameToValuesMap,
        FeatureNameToValuesMap,
    ))
        requires
            feature < self@.len(),
            at <= self@[feature as int].values.len(),
        ensures
            halves.0@ == with_values(
                self@,
                feature as int,
                self@[feature as int].values.take(at as int),
            ),
            halves.1@ == with_values(
                self@,
                feature as int,
                self@[feature as int].values.skip(at as int),
            ),
    {
        let mut left: Vec<FeatureValues> = Vec::new();
        let mut right: Vec<FeatureValues> = Vec::new();
        let ghost values = self@[feature as int].values;
        let ghost want_left = with_values(self@, feature as int, values.take(at as int));
        let ghost want_right = with_values(self@, feature as int, values.skip(at as int));
        let mut k: usize = 0;
        while k < self.entries.len()
            invariant
                k <= self.entries.len(),
                feature < self@.len(),
                at <= self@[feature as int].values.len(),
                values == self@[feature as int].values,
                want_left == with_values(self@, feature as int, values.take(at as int)),
                want_right == with_values(self@, feature as int, values.skip(at as int)),
                left@.len() == k,
                right@.len() == k,
                forall|i: int| 0 <= i < k ==> (#[trigger] left@[i])@ == want_left[i],
                forall|i: int| 0 <= i < k ==> (#[trigger] right@[i])@ == want_right[i],
            decreases self.entries.len() - k,
        {
            let entry = &self.entries[k];
            assert(entry@ == self@[k as int]);
            let n = entry.values.len();
            let cut = if k == feature {
                at
            } else {
                0
            };
            let before = if k == feature {
                copy_range(&entry.values, 0, at)
            } else {
                copy_range(&entry.values, 0, n)
            };
            let after = copy_range(&entry.values, cut, n);
            proof {
                let all = entry.values@;
                assert(all.subrange(0, n as int) =~= all);
                assert(all.subrange(0, at as int) =~= all.take(at as int));
                assert(all.subrange(at as int, n as int) =~= all.skip(at as int));
                if k != feature {
                    assert(want_left[k as int] == self@[k as int]);
                    assert(want_right[k as int] == self@[k as int]);
                }
            }
            left.push(FeatureValues { name: entry.name.clone(), values: before });
            right.push(FeatureValues { name: entry.name.clone(), values: after });
            k += 1;
        }
        let halves = (
            FeatureNameToValuesMap { entries: left },
            FeatureNameToValuesMap { entries: right },
        );
        assert(halves.0@ =~= want_left);
        assert(halves.1@ =~= want_right);
        halves
    }

    /// Whether no two columns share a name.
    pub fn has_distinct_names(&self) -> (yes: bool)
        ensures
            yes == distinct_names(self@),
    {
        let mut i: usize = 0;
        while i < self.entries.len()
            invariant
                i <= self.entries.len(),
                forall|a: int, b: int| 0 <= a < b < i ==> self@[a].name != self@[b].name,
            decreases self.entries.len() - i,
        {
            let mut j: usize = 0;
            while j < i
                invariant
                    j <= i < self.entries.len(),
                    forall|a: int| 0 <= a < j ==> self@[a].name != self@[i as int].name,
                decreases i - j,
            {
                if self.entries[j].name == self.entries[i].name {
                    assert(self@[j as int].name == self@[i as int].name);
                    return false;
                }
                j += 1;
            }
            i += 1;
        }
        assert forall|a: int, b: int|
            0 <= a < self@.len() && 0 <= b < self@.len() && a != b implies self@[a].name
            != self@[b].name by {
            if a < b {
            } else {
                assert(self@[b].name != self@[a].name);
            }
        }
        true
    }

    /// Whether every column's values ascend.
    pub fn has_ascending_values(&self) -> (yes: bool)
        ensures
            yes == (forall|i: int| 0 <= i < self@.len() ==> ascending(#[trigger] self@[i].values)),
    {
        let mut i: usize = 0;
        while i < self.entries.len()
            invariant
                i <= self.entries.len(),
                forall|a: int| 0 <= a < i ==> ascending(#[trigger] self@[a].values),
            decreases self.entries.len() - i,
        {
            if !is_ascending(&self.entries[i].values) {
                assert(!ascending(self@[i as int].values));
                return false;
            }
            i += 1;
        }
        true
    }
}

impl Clone for FeatureNameToValuesMap {
    fn clone(&self) -> (copy: FeatureNameToValuesMap)
        ensures
            copy@ == self@,
    {
        let mut entries: Vec<FeatureValues> = Vec::new();
        let mut k: usize = 0;
        while k < self.entries.len()
            invariant
                k <= self.entries.len(),
                entries@.len() == k,
                forall|i: int| 0 <= i < k ==> (#[trigger] entries@[i])@ == self@[i],
            decreases self.entries.len() - k,
        {
            let entry = &self.entries[k];
            let values = copy_range(&entry.values, 0, entry.values.len());
            assert(values@ =~= entry.values@);
            entries.push(FeatureValues { name: entry.name.clone(), values });
            k += 1;
        }
        let copy = FeatureNameToValuesMap { entries };
        assert(copy@ =~= self@);
        copy
    }
}

/// The place of `value` in `values`: behind every leading value that is not
/// above it.
pub fn place_of(values: &Uint64Vec, value: u64) -> (place: usize)
    ensures
        place == slot(values@, value),
{
    let mut i: usize = 0;
    assert(values@.skip(0) =~= values@);
    while i < values.len()
        invariant
            i <= values.len(),
            slot(values@, value) == i + slot(values@.skip(i as int), value),
        decreases values.len() - i,
    {
        assert(values@.skip(i as int)[0] == values@[i as int]);
        if values[i] > value {
            return i;
        }
        proof {
            assert(values@.skip(i as int).drop_first() =~= values@.skip(i as int + 1));
        }
        i += 1;
    }
    i
}

/// A copy of the values of `values` from position `from` up to `to`.
pub fn copy_range(values: &Uint64Vec, from: usize, to: usize) -> (copy: Uint64Vec)
    requires
        from <= to <= values@.len(),
    ensures
        copy@ == values@.subrange(from as int, to as int),
{
    let mut copy: Uint64Vec = Vec::new();
    let mut i: usize = from;
    while i < to
        invariant
            from <= i <= to <= values@.len(),
            copy@ == values@.subrange(from as int, i as int),
        decreases to - i,
    {
        copy.push(values[i]);
        assert(copy@ =~= values@.subrange(from as int, i as int + 1));
        i += 1;
    }
    assert(copy@ =~= values@.subrange(from as int, to as int));
    copy
}

/// Whether `values` ascends.
pub fn is_ascending(values: &Uint64Vec) -> (yes: bool)
    ensures
        yes == ascending(values@),
{
    let mut i: usize = 1;
    while i < values.len()
        invariant
            1 <= i,
            forall|a: int, b: int| 0 <= a <= b < i && b < values@.len() ==> values@[a] <= values@[b],
        decreases values.len() - i,
    {
        if values[i - 1] > values[i] {
            return false;
        }
        assert forall|a: int, b: int| 0 <= a <= b < i + 1 && b < values@.len() implies values@[a]
            <= values@[b] by {
            if b == i && a < i {
                assert(values@[a] <= values@[i - 1]);
            }
        }
        i += 1;
    }
    true
}

/// The position of a name is within the index or at its end, the column at
/// the position has the name, and no column before it has.
pub proof fn lemma_position_bounds(index: Seq<Column>, name: Seq<char>)
    ensures
        0 <= position(index, name) <= index.len(),
        position(index, name) < index.len() ==> index[position(index, name)].name == name,
        forall|k: int| 0 <= k < position(index, name) ==> index[k].name != name,
    decreases index.len(),
{
    if index.len() > 0 && index[0].name != name {
        let rest = index.drop_first();
        lemma_position_bounds(rest, name);
        assert forall|k: int| 0 <= k < position(index, name) implies index[k].name != name by {
            if k > 0 {
                assert(index[k] == rest[k - 1]);
            }
        }
    }
}

/// Where a name stands depends on the names alone.
pub proof fn lemma_position_by_names(a: Seq<Column>, b: Seq<Column>, name: Seq<char>)
    requires
        a.len() == b.len(),
        forall|i: int| 0 <= i < a.len() ==> a[i].name == b[i].name,
    ensures
        position(a, name) == position(b, name),
    decreases a.len(),
{
    if a.len() > 0 && a[0].name != name {
        lemma_position_by_names(a.drop_first(), b.drop_first(), name);
    }
}

/// Where a name stands after one more column.
pub proof fn lemma_position_push(index: Seq<Column>, column: Column, name: Seq<char>)
    ensures
        position(index.push(column), name) == if position(index, name) < index.len() {
            position(index, name)
        } else if column.name == name {
            index.len() as int
        } else {
            index.len() as int + 1
        },
    decreases index.len(),
{
    lemma_position_bounds(index, name);
    let longer = index.push(column);
    if index.len() == 0 {
        assert(longer[0] == column);
        assert(longer.drop_first() =~= Seq::<Column>::empty());
        assert(position(longer.drop_first(), name) == 0);
    } else if index[0].name != name {
        assert(longer[0] == index[0]);
        lemma_position_bounds(index.drop_first(), name);
        lemma_position_push(index.drop_first(), column, name);
        assert(longer.drop_first() =~= index.drop_first().push(column));
    } else {
        assert(longer[0] == index[0]);
    }
}

/// The slot of a value is within the values or at their end, no value
/// before it is above the value, and the value at the slot is.
pub proof fn lemma_slot_bounds(values: Seq<u64>, value: u64)
    ensures
        0 <= slot(values, value) <= values.len(),
        forall|k: int| 0 <= k < slot(values, value) ==> values[k] <= value,
        slot(values, value) < values.len() ==> values[slot(values, value)] > value,
    decreases values.len(),
{
    if values.len() > 0 && values[0] <= value {
        let rest = values.drop_first();
        lemma_slot_bounds(rest, value);
        assert forall|k: int| 0 <= k < slot(values, value) implies values[k] <= value by {
            if k > 0 {
                assert(values[k] == rest[k - 1]);
            }
        }
    }
}

/// Putting a value in its place keeps an ascending sequence ascending, and
/// keeps every value that was there.
pub proof fn lemma_inserted_ascending(values: Seq<u64>, value: u64)
    requires
        ascending(values),
    ensures
        ascending(inserted(values, value)),
        inserted(values, value).len() == values.len() + 1,
        inserted(values, value).to_multiset() == values.to_multiset().insert(value),
{
    lemma_slot_bounds(values, value);
    let at = slot(values, value);
    let after = inserted(values, value);
    assert forall|i: int, j: int| 0 <= i <= j < after.len() implies after[i] <= after[j] by {
        if i < at && j > at {
            assert(after[i] == values[i]);
            assert(after[j] == values[j - 1]);
        } else if i == at && j > at {
            assert(after[j] == values[j - 1]);
            assert(values[at] <= values[j - 1]);
        }
    }
    vstd::seq_lib::to_multiset_insert(values, at, value);
}

/// One reading leaves a well-formed index well-formed.
pub proof fn lemma_ingest_one_well_formed(index: Seq<Column>, reading: Reading)
    requires
        well_formed(index),
    ensures
        well_formed(ingest_one(index, reading)),
{
    lemma_position_bounds(index, reading.name);
    let at = position(index, reading.name);
    let after = ingest_one(index, reading);
    if at < index.len() {
        lemma_inserted_ascending(index[at].values, reading.value);
        assert forall|i: int| 0 <= i < after.len() implies ascending(
            #[trigger] after[i].values,
        ) by {
            if i != at {
                assert(after[i] == index[i]);
            }
        }
        assert forall|i: int, j: int|
            0 <= i < after.len() && 0 <= j < after.len() && i != j implies after[i].name
            != after[j].name by {
            assert(after[i].name == index[i].name);
            assert(after[j].name == index[j].name);
        }
    } else {
        assert forall|i: int| 0 <= i < after.len() implies ascending(
            #[trigger] after[i].values,
        ) by {
            if i < index.len() {
                assert(after[i] == index[i]);
            }
        }
        assert forall|i: int, j: int|
            0 <= i < after.len() && 0 <= j < after.len() && i != j implies after[i].name
            != after[j].name by {
            if i < index.len() {
                assert(after[i] == index[i]);
            }
            if j < index.len() {
                assert(after[j] == index[j]);
            }
        }
    }
}

/// The readings of a sample leave a well-formed index well-formed.
pub proof fn lemma_ingest_well_formed(index: Seq<Column>, sample: Seq<Reading>)
    requires
        well_formed(index),
    ensures
        well_formed(ingest(index, sample)),
    decreases sample.len(),
{
    if sample.len() > 0 {
        lemma_ingest_well_formed(index, sample.drop_last());
        lemma_ingest_one_well_formed(ingest(index, sample.drop_last()), sample.last());
    }
}

/// One reading adds its value to the values of its name and leaves every
/// other name's values alone.
pub proof fn lemma_ingest_one_retains(index: Seq<Column>, reading: Reading, name: Seq<char>)
    ensures
        values_of(ingest_one(index, reading), name).to_multiset() == if reading.name == name {
            values_of(index, name).to_multiset().insert(reading.value)
        } else {
            values_of(index, name).to_multiset()
        },
{
    broadcast use vstd::seq_lib::group_to_multiset_ensures;

    lemma_position_bounds(index, reading.name);
    lemma_position_bounds(index, name);
    let at = position(index, reading.name);
    let after = ingest_one(index, reading);
    if at < index.len() {
        lemma_position_by_names(index, after, name);
        lemma_slot_bounds(index[at].values, reading.value);
        if reading.name == name {
            vstd::seq_lib::to_multiset_insert(
                index[at].values,
                slot(index[at].values, reading.value),
                reading.value,
            );
        }
    } else {
        lemma_position_push(
            index,
            Column { name: reading.name, values: seq![reading.value] },
            name,
        );
        if reading.name == name {
            assert(seq![reading.value] =~= Seq::<u64>::empty().push(reading.value));
            assert(Seq::<u64>::empty().to_multiset() =~= Multiset::<u64>::empty());
        }
    }
}

/// Every value that ingestion adds is retained: after a sample, the index
/// has for each name the values that it had, and those that the sample's
/// readings give for the name, each as often as it comes.
pub proof fn lemma_ingest_retains(index: Seq<Column>, sample: Seq<Reading>, name: Seq<char>)
    ensures
        values_of(ingest(index, sample), name).to_multiset() == values_of(
            index,
            name,
        ).to_multiset().add(named(sample, name)),
    decreases sample.len(),
{
    if sample.len() == 0 {
        assert(values_of(index, name).to_multiset().add(Multiset::empty()) =~= values_of(
            index,
            name,
        ).to_multiset());
    } else {
        let before = ingest(index, sample.drop_last());
        lemma_ingest_retains(index, sample.drop_last(), name);
        lemma_ingest_one_retains(before, sample.last(), name);
        let had = values_of(index, name).to_multiset();
        let came = named(sample.drop_last(), name);
        if sample.last().name == name {
            assert(had.add(came).insert(sample.last().value) =~= had.add(
                came.insert(sample.last().value),
            ));
        }
    }
}

/// Sharing out the values of one column of a well-formed index at a
/// position gives two well-formed indexes. No value of the first is above
/// the value at the position, and none of the second is below it.
pub proof fn lemma_shared_out(index: Seq<Column>, feature: int, at: int)
    requires
        well_formed(index),
        0 <= feature < index.len(),
        0 <= at < index[feature].values.len(),
    ensures
        well_formed(with_values(index, feature, index[feature].values.take(at))),
        well_formed(with_values(index, feature, index[feature].values.skip(at))),
        forall|k: int|
            0 <= k < at ==> #[trigger] index[feature].values.take(at)[k]
                <= index[feature].values[at],
        forall|k: int|
            0 <= k < index[feature].values.len() - at ==> #[trigger] index[feature].values.skip(
                at,
            )[k] >= index[feature].values[at],
{
    let values = index[feature].values;
    let left = with_values(index, feature, values.take(at));
    let right = with_values(index, feature, values.skip(at));
    assert(ascending(values));
    assert forall|i: int| 0 <= i < left.len() implies ascending(#[trigger] left[i].values) by {
        if i != feature {
            assert(left[i] == index[i]);
        }
    }
    assert forall|i: int| 0 <= i < right.len() implies ascending(#[trigger] right[i].values) by {
        if i != feature {
            assert(right[i] == index[i]);
        }
    }
    assert forall|i: int, j: int|
        0 <= i < left.len() && 0 <= j < left.len() && i != j implies left[i].name
        != left[j].name by {
        assert(left[i].name == index[i].name);
        assert(left[j].name == index[j].name);
    }
    assert forall|i: int, j: int|
        0 <= i < right.len() && 0 <= j < right.len() && i != j implies right[i].name
        != right[j].name by {
        assert(right[i].name == index[i].name);
        assert(right[j].name == index[j].name);
    }
}

} // verus!
