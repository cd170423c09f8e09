use crate::text::str_eq;
use vstd::prelude::*;

verus! {

/// A name with the values that were given for it, in the order in which they came.
pub type Entries = Seq<(Seq<char>, Seq<Seq<char>>)>;

/// The names of `entries`, in their order.
pub open spec fn keys(entries: Entries) -> Seq<Seq<char>> {
    entries.map_values(|e: (Seq<char>, Seq<Seq<char>>)| e.0)
}

/// The values that `entries` holds for `key`, if it holds the name.
pub open spec fn lookup(entries: Entries, key: Seq<char>) -> Option<Seq<Seq<char>>> {
    match keys(entries).index_of_first(key) {
        Some(i) => Some(entries[i].1),
        None => None,
    }
}

/// `entries` with one more value for `key`: last among the values of the name
/// where it is there already, else as a new name at the end.
pub open spec fn put(entries: Entries, key: Seq<char>, value: Seq<char>) -> Entries {
    match keys(entries).index_of_first(key) {
        Some(i) => entries.update(i, (key, entries[i].1.push(value))),
        None => entries.push((key, seq![value])),
    }
}

/// `entries` with `value` as the one value of `key`: in the place of the name
/// where it is there already, else as a new name at the end.
pub open spec fn replace(entries: Entries, key: Seq<char>, value: Seq<char>) -> Entries {
    match keys(entries).index_of_first(key) {
        Some(i) => entries.update(i, (key, seq![value])),
        None => entries.push((key, seq![value])),
    }
}

/// No name occurs twice, and every name has at least one value.
pub open spec fn well_formed(entries: Entries) -> bool {
    &&& keys(entries).no_duplicates()
    &&& forall|i: int| 0 <= i < entries.len() ==> (#[trigger] entries[i]).1.len() > 0
}

/// `entries` as a mapping from each name to its values.
pub open spec fn as_map(entries: Entries) -> Map<Seq<char>, Seq<Seq<char>>> {
    Map::new(|k: Seq<char>| keys(entries).contains(k), |k: Seq<char>| lookup(entries, k)->0)
}

/// Whether a pair has the name `key`.
pub open spec fn has_key(key: Seq<char>) -> spec_fn((Seq<char>, Seq<char>)) -> bool {
    |p: (Seq<char>, Seq<char>)| p.0 == key
}

/// The values that `pairs` gives for `key`, in the order of the pairs.
pub open spec fn values_of(pairs: Seq<(Seq<char>, Seq<char>)>, key: Seq<char>) -> Seq<Seq<char>> {
    pairs.filter(has_key(key)).map_values(|p: (Seq<char>, Seq<char>)| p.1)
}

/// The names of `pairs`, each once, in the order in which they first occur.
pub open spec fn first_keys(pairs: Seq<(Seq<char>, Seq<char>)>) -> Seq<Seq<char>>
    decreases pairs.len(),
{
    if pairs.len() == 0 {
        Seq::empty()
    } else {
        let before = first_keys(pairs.drop_last());
        if before.contains(pairs.last().0) {
            before
        } else {
            before.push(pairs.last().0)
        }
    }
}

/// What a list of name-value pairs comes to: each name once, in the order of
/// first occurrence, with all the values that the pairs give for it, in the
/// order of the pairs.
pub open spec fn collect(pairs: Seq<(Seq<char>, Seq<char>)>) -> Entries {
    first_keys(pairs).map_values(|k: Seq<char>| (k, values_of(pairs, k)))
}

/// The names of `pairs` are listed once each, and they are the names that occur.
pub proof fn lemma_first_keys(pairs: Seq<(Seq<char>, Seq<char>)>)
    ensures
        first_keys(pairs).no_duplicates(),
        forall|k: Seq<char>| #[trigger]
            first_keys(pairs).contains(k) <==> exists|i: int|
                0 <= i < pairs.len() && (#[trigger] pairs[i]).0 == k,
    decreases pairs.len(),
{
    if pairs.len() > 0 {
        let init = pairs.drop_last();
        let before = first_keys(init);
        lemma_first_keys(init);
        let last = pairs.last().0;
        assert forall|k: Seq<char>| #[trigger]
            first_keys(pairs).contains(k) <==> exists|i: int|
                0 <= i < pairs.len() && (#[trigger] pairs[i]).0 == k by {
            if first_keys(pairs).contains(k) {
                if before.contains(k) {
                    let i = choose|i: int| 0 <= i < init.len() && (#[trigger] init[i]).0 == k;
                    assert(pairs[i].0 == k);
                } else {
                    let j = choose|j: int|
                        0 <= j < first_keys(pairs).len() && first_keys(pairs)[j] == k;
                    assert(k == last);
                    assert(pairs[pairs.len() - 1].0 == k);
                }
            }
            if exists|i: int| 0 <= i < pairs.len() && (#[trigger] pairs[i]).0 == k {
                let i = choose|i: int| 0 <= i < pairs.len() && (#[trigger] pairs[i]).0 == k;
                if i < init.len() {
                    assert(init[i].0 == k);
                    assert(before.contains(k));
                    let j = choose|j: int| 0 <= j < before.len() && before[j] == k;
                    assert(first_keys(pairs)[j] == k);
                } else {
                    assert(k == last);
                    if !before.contains(k) {
                        assert(first_keys(pairs)[before.len() as int] == k);
                    }
                }
            }
        }
    }
}

/// One more pair adds its value to the values of its own name, and to no other.
pub proof fn lemma_values_of_push(
    pairs: Seq<(Seq<char>, Seq<char>)>,
    pair: (Seq<char>, Seq<char>),
    key: Seq<char>,
)
    ensures
        values_of(pairs.push(pair), key) == if pair.0 == key {
            values_of(pairs, key).push(pair.1)
        } else {
            values_of(pairs, key)
        },
{
    pairs.lemma_filter_push(pair, has_key(key));
    if pair.0 == key {
        pairs.filter(has_key(key)).lemma_push_map_commute(|p: (Seq<char>, Seq<char>)| p.1, pair);
    }
}

/// A name that no pair has gets no values.
pub proof fn lemma_values_of_absent(pairs: Seq<(Seq<char>, Seq<char>)>, key: Seq<char>)
    requires
        forall|i: int| 0 <= i < pairs.len() ==> (#[trigger] pairs[i]).0 != key,
    ensures
        values_of(pairs, key) == Seq::<Seq<char>>::empty(),
    decreases pairs.len(),
{
    reveal(Seq::filter);
    if pairs.len() > 0 {
        lemma_values_of_absent(pairs.drop_last(), key);
        assert(!has_key(key)(pairs.last()));
    }
    assert(values_of(pairs, key) =~= Seq::<Seq<char>>::empty());
}

/// The names of what `pairs` comes to are its names in order of first occurrence.
pub proof fn lemma_collect_keys(pairs: Seq<(Seq<char>, Seq<char>)>)
    ensures
        keys(collect(pairs)) == first_keys(pairs),
        collect(pairs).len() == first_keys(pairs).len(),
{
    assert(keys(collect(pairs)) =~= first_keys(pairs));
}

/// Collecting one more pair is putting its value under its name.
pub proof fn lemma_collect_push(pairs: Seq<(Seq<char>, Seq<char>)>, key: Seq<char>, value: Seq<char>)
    ensures
        collect(pairs.push((key, value))) == put(collect(pairs), key, value),
{
    let more = pairs.push((key, value));
    let ks = first_keys(pairs);
    assert(more.drop_last() =~= pairs);
    assert(more.last() == (key, value));
    lemma_first_keys(pairs);
    lemma_collect_keys(pairs);
    ks.index_of_first_ensures(key);
    assert forall|k: Seq<char>|
        values_of(more, k) == if k == key {
            values_of(pairs, k).push(value)
        } else {
            values_of(pairs, k)
        } by {
        lemma_values_of_push(pairs, (key, value), k);
    }
    if ks.contains(key) {
        let i = ks.index_of_first(key)->0;
        assert(first_keys(more) == ks);
        assert forall|j: int| 0 <= j < ks.len() implies #[trigger] collect(more)[j] == put(
            collect(pairs),
            key,
            value,
        )[j] by {
            if j != i {
                assert(ks[j] != ks[i]);
            }
        }
        assert(collect(more) =~= put(collect(pairs), key, value));
    } else {
        assert(first_keys(more) == ks.push(key));
        assert forall|i: int| 0 <= i < pairs.len() implies (#[trigger] pairs[i]).0 != key by {
            if pairs[i].0 == key {
                assert(ks.contains(key));
            }
        }
        lemma_values_of_absent(pairs, key);
        assert(values_of(pairs, key).push(value) =~= seq![value]);
        assert forall|j: int| 0 <= j < ks.len() implies ks[j] != key by {
            assert(ks.contains(ks[j]));
        }
        assert(collect(more) =~= put(collect(pairs), key, value));
    }
}

/// Nothing collected is nothing.
pub proof fn lemma_collect_empty()
    ensures
        collect(Seq::<(Seq<char>, Seq<char>)>::empty()) == Seq::<(Seq<char>, Seq<Seq<char>>)>::empty(),
{
    assert(collect(Seq::<(Seq<char>, Seq<char>)>::empty()) =~= Seq::<
        (Seq<char>, Seq<Seq<char>>),
    >::empty());
}

/// Whether some pair of `pairs` has the name `key`.
pub open spec fn occurs(pairs: Seq<(Seq<char>, Seq<char>)>, key: Seq<char>) -> bool {
    exists|i: int| 0 <= i < pairs.len() && (#[trigger] pairs[i]).0 == key
}

/// A name that some pair has gets at least one value.
pub proof fn lemma_values_of_present(pairs: Seq<(Seq<char>, Seq<char>)>, key: Seq<char>)
    requires
        occurs(pairs, key),
    ensures
        values_of(pairs, key).len() > 0,
{
    let i = choose|i: int| 0 <= i < pairs.len() && (#[trigger] pairs[i]).0 == key;
    assert(has_key(key)(pairs[i]));
    pairs.lemma_filter_contains(has_key(key), i);
}

/// Repeated names keep the order of their values. What a list of pairs comes
/// to is well formed; it holds exactly the names that occur in the pairs; and
/// under each name it holds the values that the pairs give for that name, in
/// the order of the pairs.
pub proof fn lemma_collect_lookup(pairs: Seq<(Seq<char>, Seq<char>)>, key: Seq<char>)
    ensures
        well_formed(collect(pairs)),
        lookup(collect(pairs), key) == if occurs(pairs, key) {
            Some(values_of(pairs, key))
        } else {
            None
        },
        as_map(collect(pairs)).contains_key(key) <==> occurs(pairs, key),
        occurs(pairs, key) ==> as_map(collect(pairs))[key] == values_of(pairs, key),
{
    let ks = first_keys(pairs);
    lemma_first_keys(pairs);
    lemma_collect_keys(pairs);
    ks.index_of_first_ensures(key);
    assert forall|i: int| 0 <= i < collect(pairs).len() implies (#[trigger] collect(pairs)[i]).1.len()
        > 0 by {
        assert(ks.contains(ks[i]));
        lemma_values_of_present(pairs, ks[i]);
    }
    assert(ks.contains(key) <==> occurs(pairs, key));
}

/// `entries` with `values` as the values of `key`: in the place of the name
/// where it is there already, else as a new name at the end.
pub open spec fn with_values(entries: Entries, key: Seq<char>, values: Seq<Seq<char>>) -> Entries {
    match keys(entries).index_of_first(key) {
        Some(i) => entries.update(i, (key, values)),
        None => entries.push((key, values)),
    }
}

/// Values given to a name are the values of the name afterwards, and every
/// other name is left as it is.
pub proof fn lemma_with_values_lookup(
    entries: Entries,
    key: Seq<char>,
    values: Seq<Seq<char>>,
    other: Seq<char>,
)
    ensures
        lookup(with_values(entries, key, values), key) == Some(values),
        other != key ==> lookup(with_values(entries, key, values), other) == lookup(entries, other),
        well_formed(entries) && values.len() > 0 ==> well_formed(with_values(entries, key, values)),
        with_values(entries, key, values).len() > 0,
{
    let ks = keys(entries);
    let after = with_values(entries, key, values);
    let ks2 = keys(after);
    ks.index_of_first_ensures(key);
    ks.index_of_first_ensures(other);
    ks2.index_of_first_ensures(key);
    ks2.index_of_first_ensures(other);
    match ks.index_of_first(key) {
        Some(i) => {
            assert(ks[i] == key);
            assert(ks2 =~= ks);
            if other != key && ks.contains(other) {
                let j = ks.index_of_first(other)->0;
                assert(ks2[j] == other);
            }
        },
        None => {
            assert(ks2 =~= ks.push(key));
            assert(ks2[ks.len() as int] == key);
            if ks2.index_of_first(key) is Some {
                let j = ks2.index_of_first(key)->0;
                if j < ks.len() {
                    assert(ks[j] == key);
                    assert(ks.contains(key));
                }
            }
            if other != key {
                if ks2.index_of_first(other) is Some {
                    let j = ks2.index_of_first(other)->0;
                    assert(j < ks.len());
                    assert(ks[j] == other);
                    assert(ks.contains(other));
                }
                if ks.contains(other) {
                    let j = ks.index_of_first(other)->0;
                    assert(ks2[j] == other);
                }
            }
            if well_formed(entries) {
                assert forall|i: int, j: int|
                    0 <= i < ks2.len() && 0 <= j < ks2.len() && i != j implies ks2[i] != ks2[j] by {
                    if i < ks.len() && j < ks.len() {
                    } else if i < ks.len() {
                        assert(ks.contains(ks[i]));
                    } else {
                        assert(ks.contains(ks[j]));
                    }
                }
            }
        },
    }
    if well_formed(entries) && values.len() > 0 {
        assert forall|i: int| 0 <= i < after.len() implies (#[trigger] after[i]).1.len() > 0 by {
            if i < entries.len() {
                assert(entries[i].1.len() > 0);
            }
        }
    }
}

/// One more value for a name goes behind the values that the name has, and
/// leaves every other name as it is.
pub proof fn lemma_put_lookup(entries: Entries, key: Seq<char>, value: Seq<char>, other: Seq<char>)
    ensures
        lookup(put(entries, key, value), key) == Some(
            match lookup(entries, key) {
                Some(values) => values.push(value),
                None => seq![value],
            },
        ),
        other != key ==> lookup(put(entries, key, value), other) == lookup(entries, other),
        well_formed(entries) ==> well_formed(put(entries, key, value)),
{
    let values = match lookup(entries, key) {
        Some(values) => values.push(value),
        None => seq![value],
    };
    assert(put(entries, key, value) == with_values(entries, key, values));
    lemma_with_values_lookup(entries, key, values, other);
}

/// A value set for a name is the one value of the name afterwards, and leaves
/// every other name as it is.
pub proof fn lemma_replace_lookup(
    entries: Entries,
    key: Seq<char>,
    value: Seq<char>,
    other: Seq<char>,
)
    ensures
        lookup(replace(entries, key, value), key) == Some(seq![value]),
        other != key ==> lookup(replace(entries, key, value), other) == lookup(entries, other),
        well_formed(entries) ==> well_formed(replace(entries, key, value)),
        replace(entries, key, value).len() > 0,
{
    assert(replace(entries, key, value) == with_values(entries, key, seq![value]));
    lemma_with_values_lookup(entries, key, seq![value], other);
}

struct Entry {
    key: String,
    values: Vec<String>,
}

/// Names with one or more values each. The names keep the order in which they
/// first came, the values of a name the order in which they were added.
pub struct MultiMap {
    entries: Vec<Entry>,
}

impl View for MultiMap {
    type V = Entries;

    closed spec fn view(&self) -> Entries {
        Seq::new(
            self.entries.len() as nat,
            |i: int| (self.entries[i].key@, self.entries[i].values.deep_view()),
        )
    }
}

impl MultiMap {
    /// The mapping from each name to its values.
    pub open spec fn map(&self) -> Map<Seq<char>, Seq<Seq<char>>> {
        as_map(self@)
    }

    pub fn new() -> (r: Self)
        ensures
            r@ == Seq::<(Seq<char>, Seq<Seq<char>>)>::empty(),
    {
        let r = MultiMap { entries: Vec::new() };
        assert(r@ =~= Seq::<(Seq<char>, Seq<Seq<char>>)>::empty());
        r
    }

    /// The number of names.
    pub fn len(&self) -> (r: usize)
        ensures
            r == self@.len(),
    {
        self.entries.len()
    }

    pub fn is_empty(&self) -> (r: bool)
        ensures
            r == (self@.len() == 0),
    {
        self.entries.len() == 0
    }

    fn position(&self, key: &str) -> (r: Option<usize>)
        ensures
            match r {
                Some(i) => i < self@.len() && keys(self@).index_of_first(key@) == Some(i as int),
                None => keys(self@).index_of_first(key@) is None,
            },
    {
        let ghost ks = keys(self@);
        let mut i: usize = 0;
        while i < self.entries.len()
            invariant
                i <= self.entries.len(),
                ks == keys(self@),
                forall|j: int| 0 <= j < i ==> ks[j] != key@,
            decreases self.entries.len() - i,
        {
            if str_eq(self.entries[i].key.as_str(), key) {
                proof {
                    ks.index_of_first_ensures(key@);
                    assert(ks[i as int] == key@);
                }
                return Some(i);
            }
            i = i + 1;
        }
        proof {
            ks.index_of_first_ensures(key@);
            if ks.contains(key@) {
                let k = ks.index_of_first(key@)->0;
                assert(ks[k] == key@);
            }
        }
        None
    }

    /// The values of `key`, oldest first, if the name is there.
    pub fn get(&self, key: &str) -> (r: Option<&Vec<String>>)
        ensures
            match r {
                Some(values) => lookup(self@, key@) == Some(values.deep_view()),
                None => lookup(self@, key@) is None,
            },
    {
        match self.position(key) {
            Some(i) => Some(&self.entries[i].values),
            None => None,
        }
    }

    pub fn contains_key(&self, key: &str) -> (r: bool)
        ensures
            r == lookup(self@, key@) is Some,
            r == keys(self@).contains(key@),
    {
        proof {
            keys(self@).index_of_first_ensures(key@);
        }
        self.position(key).is_some()
    }

    /// The name at place `index`, counting names in the order in which they first came.
    pub fn key_at(&self, index: usize) -> (r: Option<&str>)
        ensures
            match r {
                Some(key) => index < self@.len() && key@ == self@[index as int].0,
                None => index >= self@.len(),
            },
    {
        if index < self.entries.len() {
            Some(self.entries[index].key.as_str())
        } else {
            None
        }
    }

    /// The values of the name at place `index`.
    pub fn values_at(&self, index: usize) -> (r: Option<&Vec<String>>)
        ensures
            match r {
                Some(values) => index < self@.len() && values.deep_view() == self@[index as int].1,
                None => index >= self@.len(),
            },
    {
        if index < self.entries.len() {
            Some(&self.entries[index].values)
        } else {
            None
        }
    }

    /// Adds `value` to the values of `key`.
    pub fn append(&mut self, key: String, value: String)
        ensures
            final(self)@ == put(old(self)@, key@, value@),
    {
        match self.position(key.as_str()) {
            Some(i) => {
                let ghost before = self.entries[i as int].values.deep_view();
                self.entries[i].values.push(value);
                proof {
                    keys(old(self)@).index_of_first_ensures(key@);
                    assert(keys(old(self)@)[i as int] == old(self)@[i as int].0);
                    assert(self.entries[i as int].values.deep_view() =~= before.push(value@));
                    assert(self@[i as int] == (key@, before.push(value@)));
                    assert(self@ =~= put(old(self)@, key@, value@));
                }
            },
            None => {
                let mut values: Vec<String> = Vec::new();
                values.push(value);
                self.entries.push(Entry { key, values });
                proof {
                    assert(values.deep_view() =~= seq![value@]);
                    assert(self@ =~= put(old(self)@, key@, value@));
                }
            },
        }
    }

    /// Makes `value` the one value of `key`.
    pub fn set(&mut self, key: String, value: String)
        ensures
            final(self)@ == replace(old(self)@, key@, value@),
    {
        let mut values: Vec<String> = Vec::new();
        values.push(value);
        assert(values.deep_view() =~= seq![value@]);
        match self.position(key.as_str()) {
            Some(i) => {
                self.entries[i].values = values;
                proof {
                    keys(old(self)@).index_of_first_ensures(key@);
                    assert(keys(old(self)@)[i as int] == old(self)@[i as int].0);
                    assert(self@[i as int] == (key@, seq![value@]));
                    assert(self@ =~= replace(old(self)@, key@, value@));
                }
            },
            None => {
                self.entries.push(Entry { key, values });
                proof {
                    assert(self@ =~= replace(old(self)@, key@, value@));
                }
            },
        }
    }
}

} // verus!
