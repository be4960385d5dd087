//! Named counters.

use vstd::prelude::*;
use vstd::string::*;

verus! {

/// A set of counters, each under a name of its own. A counter comes into
/// being with its first increment.
pub struct MetricsRegistry {
    names: Vec<String>,
    values: Vec<u64>,
}

// The value under `name` among the first `n` counters.
spec fn lookup(names: Seq<String>, values: Seq<u64>, name: Seq<char>, n: int) -> Option<u64>
    decreases n,
{
    if n <= 0 {
        None
    } else if names[n - 1]@ == name {
        Some(values[n - 1])
    } else {
        lookup(names, values, name, n - 1)
    }
}

// A name that is not among the first `n` has no value there.
proof fn lemma_lookup_absent(names: Seq<String>, values: Seq<u64>, name: Seq<char>, n: int)
    requires
        n <= names.len(),
        forall|i: int| 0 <= i < n ==> (#[trigger] names[i])@ != name,
    ensures
        lookup(names, values, name, n) is None,
    decreases n,
{
    if n > 0 {
        lemma_lookup_absent(names, values, name, n - 1);
    }
}

// Where no name occurs twice, the value under the name at `at` is the value
// at `at`.
proof fn lemma_lookup_at(names: Seq<String>, values: Seq<u64>, at: int, n: int)
    requires
        0 <= at < n <= names.len(),
        forall|i: int, j: int|
            0 <= i < j < names.len() ==> (#[trigger] names[i])@ != (#[trigger] names[j])@,
    ensures
        lookup(names, values, names[at]@, n) == Some(values[at]),
    decreases n,
{
    if n - 1 > at {
        assert(names[at]@ != names[n - 1]@);
        lemma_lookup_at(names, values, at, n - 1);
    }
}

// A change of the value at `at` is not seen under another name.
proof fn lemma_lookup_elsewhere(
    names: Seq<String>,
    values: Seq<u64>,
    changed: Seq<u64>,
    at: int,
    name: Seq<char>,
    n: int,
)
    requires
        0 <= at < names.len(),
        n <= names.len(),
        names[at]@ != name,
        changed.len() == values.len(),
        forall|i: int| 0 <= i < values.len() && i != at ==> changed[i] == values[i],
        values.len() == names.len(),
    ensures
        lookup(names, changed, name, n) == lookup(names, values, name, n),
    decreases n,
{
    if n > 0 {
        lemma_lookup_elsewhere(names, values, changed, at, name, n - 1);
    }
}

impl MetricsRegistry {
    /// There is a value for every name, and no name occurs twice.
    pub closed spec fn wf(&self) -> bool {
        &&& self.names@.len() == self.values@.len()
        &&& forall|i: int, j: int|
            0 <= i < j < self.names@.len() ==> (#[trigger] self.names@[i])@
                != (#[trigger] self.names@[j])@
    }

    /// The value of the counter `name`, if there is one.
    pub closed spec fn counter(&self, name: Seq<char>) -> Option<u64> {
        lookup(self.names@, self.values@, name, self.names@.len() as int)
    }

    /// A registry without counters.
    pub fn new() -> (registry: Self)
        ensures
            registry.wf(),
            forall|name: Seq<char>| registry.counter(name) is None,
    {
        MetricsRegistry { names: Vec::new(), values: Vec::new() }
    }

    // The place of the counter `name`, if there is one.
    fn find(&self, name: &str) -> (place: Option<usize>)
        requires
            self.wf(),
        ensures
            match place {
                Some(at) => at < self.names@.len() && self.names@[at as int]@ == name@,
                None => forall|i: int| 0 <= i < self.names@.len() ==> (#[trigger] self.names@[i])@ != name@,
            },
    {
        let wanted: String = name.to_owned();
        let mut index: usize = 0;
        while index < self.names.len()
            invariant
                index <= self.names@.len(),
                wanted@ == name@,
                forall|i: int| 0 <= i < index ==> (#[trigger] self.names@[i])@ != name@,
            decreases self.names@.len() - index,
        {
            if self.names[index] == wanted {
                return Some(index);
            }
            index += 1;
        }
        None
    }

    /// Adds one to the counter `name`, which starts at zero if it is new.
    /// No other counter changes.
    pub fn increment_counter(&mut self, name: &str)
        requires
            old(self).wf(),
            old(self).counter(name@) != Some(u64::MAX),
        ensures
            final(self).wf(),
            final(self).counter(name@) == Some(
                (match old(self).counter(name@) {
                    Some(value) => value + 1,
                    None => 1,
                }) as u64,
            ),
            forall|other: Seq<char>|
                other != name@ ==> final(self).counter(other) == old(self).counter(other),
    {
        let ghost names = self.names@;
        let ghost values = self.values@;
        match self.find(name) {
            Some(at) => {
                proof {
                    lemma_lookup_at(names, values, at as int, names.len() as int);
                }
                let value: u64 = self.values[at];
                self.values[at] = value + 1;
                proof {
                    lemma_lookup_at(names, self.values@, at as int, names.len() as int);
                    assert forall|other: Seq<char>| other != name@ implies self.counter(other)
                        == lookup(names, values, other, names.len() as int) by {
                        lemma_lookup_elsewhere(
                            names,
                            values,
                            self.values@,
                            at as int,
                            other,
                            names.len() as int,
                        );
                    }
                }
            },
            None => {
                proof {
                    lemma_lookup_absent(names, values, name@, names.len() as int);
                }
                self.names.push(name.to_owned());
                self.values.push(1);
                proof {
                    assert forall|other: Seq<char>| other != name@ implies self.counter(other)
                        == lookup(names, values, other, names.len() as int) by {
                        lemma_lookup_prefix(
                            names,
                            values,
                            self.names@,
                            self.values@,
                            other,
                            names.len() as int,
                        );
                    }
                }
            },
        }
    }

    /// The value of the counter `name`, if there is one.
    pub fn get_counter_value(&self, name: &str) -> (value: Option<u64>)
        requires
            self.wf(),
        ensures
            value == self.counter(name@),
    {
        match self.find(name) {
            Some(at) => {
                proof {
                    lemma_lookup_at(
                        self.names@,
                        self.values@,
                        at as int,
                        self.names@.len() as int,
                    );
                }
                Some(self.values[at])
            },
            None => {
                proof {
                    lemma_lookup_absent(
                        self.names@,
                        self.values@,
                        name@,
                        self.names@.len() as int,
                    );
                }
                None
            },
        }
    }
}

// Counters added behind the first `n` do not change what is found there.
proof fn lemma_lookup_prefix(
    names: Seq<String>,
    values: Seq<u64>,
    longer_names: Seq<String>,
    longer_values: Seq<u64>,
    name: Seq<char>,
    n: int,
)
    requires
        n <= names.len() <= longer_names.len(),
        names.len() == values.len(),
        longer_names.len() == longer_values.len(),
        forall|i: int| 0 <= i < names.len() ==> longer_names[i] == names[i],
        forall|i: int| 0 <= i < values.len() ==> longer_values[i] == values[i],
    ensures
        lookup(longer_names, longer_values, name, n) == lookup(names, values, name, n),
    decreases n,
{
    if n > 0 {
        lemma_lookup_prefix(names, values, longer_names, longer_values, name, n - 1);
    }
}

} // verus!
