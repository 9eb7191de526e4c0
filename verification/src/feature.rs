//! Features and samples: the data that a forest is trained on and scores.

use vstd::prelude::*;

verus! {

/// A named reading, as the contracts see a [`Feature`].
pub struct Reading {
    pub name: Seq<char>,
    pub value: u64,
}

/// Each feature has a name and value.
#[derive(Debug, PartialEq, Eq)]
pub struct Feature {
    pub name: String,
    pub value: u64,
}

/// The features of a sample, in the order in which they were added.
pub type FeatureList = Vec<Feature>;

impl View for Feature {
    type V = Reading;

    open spec fn view(&self) -> Reading {
        Reading { name: self.name@, value: self.value }
    }
}

/// This class represents a sample.
/// Each sample has a name and list of features.
#[derive(Debug, PartialEq, Eq)]
pub struct Sample {
    pub name: String,
    pub features: FeatureList,
}

impl View for Sample {
    type V = Seq<Reading>;

    open spec fn view(&self) -> Seq<Reading> {
        readings(self.features@)
    }
}

/// The readings of a list of features, in order.
pub open spec fn readings(features: Seq<Feature>) -> Seq<Reading> {
    Seq::new(features.len(), |i: int| features[i]@)
}

/// The value of the first reading called `name`, if there is one.
pub open spec fn lookup(sample: Seq<Reading>, name: Seq<char>) -> Option<u64>
    decreases sample.len(),
{
    if sample.len() == 0 {
        None
    } else if sample[0].name == name {
        Some(sample[0].value)
    } else {
        lookup(sample.drop_first(), name)
    }
}

/// Whether no two readings of `sample` share a name.
pub open spec fn distinct_readings(sample: Seq<Reading>) -> bool {
    forall|i: int, j: int|
        0 <= i < sample.len() && 0 <= j < sample.len() && i != j ==> sample[i].name
            != sample[j].name
}

/// Whether two samples have the same readings, in whatever order.
pub open spec fn same_readings(first: Seq<Reading>, second: Seq<Reading>) -> bool {
    forall|reading: Reading| first.contains(reading) <==> second.contains(reading)
}

impl Feature {
    /// A feature called `name` with the value `value`.
    pub fn new(name: &str, value: u64) -> (feature: Feature)
        ensures
            feature@ == (Reading { name: name@, value }),
    {
        Feature { name: name.to_owned(), value }
    }

    /// Gives the feature another name.
    pub fn set_name(&mut self, name: String)
        ensures
            final(self)@ == (Reading { name: name@, value: old(self).value }),
    {
        self.name = name;
    }

    /// The feature's name.
    pub fn get_name(&self) -> (name: String)
        ensures
            name@ == self@.name,
    {
        self.name.clone()
    }

    /// Gives the feature another value.
    pub fn set_value(&mut self, value: u64)
        ensures
            final(self)@ == (Reading { name: old(self).name@, value }),
    {
        self.value = value;
    }

    /// The feature's value.
    pub fn get_value(&self) -> (value: u64)
        ensures
            value == self@.value,
    {
        self.value
    }
}

impl Clone for Feature {
    fn clone(&self) -> (copy: Feature)
        ensures
            copy@ == self@,
    {
        Feature { name: self.name.clone(), value: self.value }
    }
}

impl Sample {
    /// A sample called `sample_name`, without features. The name is a
    /// label: it counts for nothing in training and scoring.
    pub fn new(sample_name: &str) -> (sample: Sample)
        ensures
            sample.name@ == sample_name@,
            sample@ == Seq::<Reading>::empty(),
    {
        let sample = Sample { name: sample_name.to_owned(), features: Sample::create_feature_list() };
        assert(sample@ =~= Seq::<Reading>::empty());
        sample
    }

    /// A list of no features.
    pub fn create_feature_list() -> (list: FeatureList)
        ensures
            list@.len() == 0,
    {
        let v: FeatureList = vec![];
        v
    }

    /// Moves every feature of `features` to the end of the sample.
    pub fn add_features(&mut self, features: &mut FeatureList)
        ensures
            final(self)@ == old(self)@ + readings(old(features)@),
            final(self).name == old(self).name,
            final(features)@.len() == 0,
    {
        self.features.append(features);
        assert(self@ =~= old(self)@ + readings(old(features)@));
    }

    /// Puts `feature` at the end of the sample.
    pub fn add_feature(&mut self, feature: Feature)
        ensures
            final(self)@ == old(self)@.push(feature@),
            final(self).name == old(self).name,
    {
        self.features.push(feature);
        assert(self@ =~= old(self)@.push(feature@));
    }

    /// A copy of the sample's features.
    pub fn features(&self) -> (list: FeatureList)
        ensures
            readings(list@) == self@,
    {
        copy_features(&self.features)
    }

    /// The value of the first feature called `name`, if the sample has one.
    pub fn value_of(&self, name: &String) -> (found: Option<u64>)
        ensures
            found == lookup(self@, name@),
    {
        let mut i: usize = 0;
        assert(self@.skip(0) =~= self@);
        while i < self.features.len()
            invariant
                i <= self.features.len(),
                lookup(self@, name@) == lookup(self@.skip(i as int), name@),
            decreases self.features.len() - i,
        {
            if self.features[i].name == *name {
                return Some(self.features[i].value);
            }
            proof {
                assert(self@.skip(i as int).drop_first() =~= self@.skip(i as int + 1));
            }
            i += 1;
        }
        None
    }
}

impl Clone for Sample {
    fn clone(&self) -> (copy: Sample)
        ensures
            copy@ == self@,
            copy.name@ == self.name@,
    {
        Sample { name: self.name.clone(), features: copy_features(&self.features) }
    }
}

/// A copy of `features`, reading for reading.
pub fn copy_features(features: &FeatureList) -> (copy: FeatureList)
    ensures
        readings(copy@) == readings(features@),
{
    let mut copy: FeatureList = Vec::new();
    let mut i: usize = 0;
    while i < features.len()
        invariant
            i <= features.len(),
            copy@.len() == i,
            forall|k: int| 0 <= k < i ==> copy@[k]@ == features@[k]@,
        decreases features.len() - i,
    {
        copy.push(features[i].clone());
        i += 1;
    }
    assert(readings(copy@) =~= readings(features@));
    copy
}

/// What is looked up is the value of the first reading of the name, and
/// nothing is found only where no reading has the name.
pub proof fn lemma_lookup_finds(sample: Seq<Reading>, name: Seq<char>)
    ensures
        match lookup(sample, name) {
            Some(value) => exists|i: int|
                {
                    &&& 0 <= i < sample.len()
                    &&& #[trigger] sample[i] == (Reading { name, value })
                    &&& forall|k: int| 0 <= k < i ==> sample[k].name != name
                },
            None => forall|i: int| 0 <= i < sample.len() ==> sample[i].name != name,
        },
    decreases sample.len(),
{
    if sample.len() > 0 {
        if sample[0].name != name {
            let rest = sample.drop_first();
            lemma_lookup_finds(rest, name);
            match lookup(rest, name) {
                Some(value) => {
                    let at = choose|i: int|
                        {
                            &&& 0 <= i < rest.len()
                            &&& #[trigger] rest[i] == (Reading { name, value })
                            &&& forall|k: int| 0 <= k < i ==> rest[k].name != name
                        };
                    assert(sample[at + 1] == rest[at]);
                    assert forall|k: int| 0 <= k < at + 1 implies sample[k].name != name by {
                        if k > 0 {
                            assert(sample[k] == rest[k - 1]);
                        }
                    }
                },
                None => {
                    assert forall|i: int| 0 <= i < sample.len() implies sample[i].name
                        != name by {
                        if i > 0 {
                            assert(sample[i] == rest[i - 1]);
                        }
                    }
                },
            }
        } else {
            assert(sample[0] == (Reading { name, value: sample[0].value }));
        }
    }
}

/// Where no name comes twice, the order of the readings does not count.
pub proof fn lemma_lookup_ignores_order(
    first: Seq<Reading>,
    second: Seq<Reading>,
    name: Seq<char>,
)
    requires
        distinct_readings(first),
        distinct_readings(second),
        same_readings(first, second),
    ensures
        lookup(first, name) == lookup(second, name),
{
    lemma_lookup_finds(first, name);
    lemma_lookup_finds(second, name);
    match lookup(first, name) {
        Some(value) => {
            let reading = Reading { name, value };
            assert(first.contains(reading));
            assert(second.contains(reading));
            let at = choose|i: int| 0 <= i < second.len() && second[i] == reading;
            match lookup(second, name) {
                Some(other) => {
                    let found = choose|i: int|
                        {
                            &&& 0 <= i < second.len()
                            &&& #[trigger] second[i] == (Reading { name, value: other })
                            &&& forall|k: int| 0 <= k < i ==> second[k].name != name
                        };
                    assert(found == at);
                },
                None => {
                    assert(second[at].name == name);
                },
            }
        },
        None => {
            match lookup(second, name) {
                Some(other) => {
                    let reading = Reading { name, value: other };
                    assert(second.contains(reading));
                    assert(first.contains(reading));
                    let at = choose|i: int| 0 <= i < first.len() && first[i] == reading;
                    assert(first[at].name == name);
                },
                None => {},
            }
        },
    }
}

} // verus!
