//! Indexes over files, and the filters that query them.

use crate::pool::strings_view;
use crate::store::File;
use crate::string_map::StringMap;
use vstd::prelude::*;

verus! {

/// One element of an index value.
pub enum IndexValueElement {
    Bytes(Vec<u8>),
    Bool(bool),
}

/// The name of an index.
pub type IndexKey = String;

/// The value of one index of one file.
pub type IndexValue = Vec<IndexValueElement>;

/// Index values by the names of their indexes.
pub type IndexDict = StringMap<IndexValue>;

/// The dictionary that maps each of `keys` to the value at its place in
/// `values`, a later place replacing an earlier one with the same key.
pub open spec fn index_map(keys: Seq<Seq<char>>, values: Seq<Seq<IndexValueElement>>) -> Map<
    Seq<char>,
    Seq<IndexValueElement>,
>
    decreases keys.len(),
{
    if keys.len() == 0 {
        Map::empty()
    } else {
        index_map(keys.drop_last(), values).insert(keys.last(), values[keys.len() - 1])
    }
}

/// The keys of `index_map` are the keys that it was made from.
pub proof fn lemma_index_map_dom(keys: Seq<Seq<char>>, values: Seq<Seq<IndexValueElement>>)
    ensures
        index_map(keys, values).dom() == keys.to_set(),
    decreases keys.len(),
{
    if keys.len() == 0 {
        assert(index_map(keys, values).dom() =~= keys.to_set());
    } else {
        let init = keys.drop_last();
        lemma_index_map_dom(init, values);
        assert forall|key: Seq<char>| keys.contains(key) <==> (init.contains(key) || key
            == keys.last()) by {
            if keys.contains(key) {
                let j = choose|j: int| 0 <= j < keys.len() && keys[j] == key;
                if j < init.len() {
                    assert(init[j] == key);
                }
            }
            if init.contains(key) {
                let j = choose|j: int| 0 <= j < init.len() && init[j] == key;
                assert(keys[j] == key);
            }
            if key == keys.last() {
                assert(keys[keys.len() - 1] == key);
            }
        }
        assert(index_map(keys, values).dom() =~= keys.to_set());
    }
}

/// The keys of `keys` in the order in which each occurs first.
pub open spec fn first_occurrences(keys: Seq<Seq<char>>) -> Seq<Seq<char>>
    decreases keys.len(),
{
    if keys.len() == 0 {
        Seq::empty()
    } else if keys.drop_last().contains(keys.last()) {
        first_occurrences(keys.drop_last())
    } else {
        first_occurrences(keys.drop_last()).push(keys.last())
    }
}

/// What `values` hold, value by value.
pub open spec fn values_view(values: Seq<IndexValue>) -> Seq<Seq<IndexValueElement>> {
    values.map_values(|value: IndexValue| value@)
}

/// Collects index values under their keys: `values[i]` is the value of the
/// index `keys[i]`.
pub fn collect_indexes(keys: Vec<IndexKey>, values: Vec<IndexValue>) -> (indexes: IndexDict)
    requires
        keys.len() == values.len(),
    ensures
        indexes@ == index_map(strings_view(keys@), values_view(values@)),
        indexes@.dom() == strings_view(keys@).to_set(),
        indexes.keys() == first_occurrences(strings_view(keys@)),
{
    let ghost names = strings_view(keys@);
    let ghost all = values_view(values@);
    let mut keys = keys;
    let mut values = values;
    let mut indexes: IndexDict = StringMap::new();
    let mut pairs: Vec<(IndexKey, IndexValue)> = Vec::new();
    while keys.len() > 0
        invariant
            keys.len() == values.len(),
            keys.len() + pairs.len() == names.len(),
            names.len() == all.len(),
            strings_view(keys@) == names.take(keys.len() as int),
            values_view(values@) == all.take(values.len() as int),
            forall|j: int|
                0 <= j < pairs.len() ==> (#[trigger] pairs[j]).0@ == names[names.len() - 1 - j]
                    && pairs[j].1@ == all[names.len() - 1 - j],
        decreases keys.len(),
    {
        let ghost n = keys.len() as int;
        assert(strings_view(keys@)[n - 1] == keys@[n - 1]@);
        assert(values_view(values@)[n - 1] == values@[n - 1]@);
        let key = keys.pop().unwrap();
        let value = values.pop().unwrap();
        pairs.push((key, value));
        assert(strings_view(keys@) =~= names.take(n - 1));
        assert(values_view(values@) =~= all.take(n - 1));
    }
    assert(names.take(0) == Seq::<Seq<char>>::empty());
    while pairs.len() > 0
        invariant
            pairs.len() <= names.len(),
            names.len() == all.len(),
            forall|j: int|
                0 <= j < pairs.len() ==> (#[trigger] pairs[j]).0@ == names[names.len() - 1 - j]
                    && pairs[j].1@ == all[names.len() - 1 - j],
            indexes@ == index_map(names.take(names.len() - pairs.len()), all),
            indexes.keys() == first_occurrences(names.take(names.len() - pairs.len())),
        decreases pairs.len(),
    {
        let ghost done = names.len() - pairs.len();
        let pair = pairs.pop().unwrap();
        assert(names.take(done + 1).drop_last() == names.take(done));
        assert(names.take(done + 1).last() == names[done]);
        proof {
            lemma_index_map_dom(names.take(done), all);
        }
        indexes.insert(pair.0, pair.1);
    }
    assert(names.take(names.len() as int) == names);
    proof {
        lemma_index_map_dom(names, all);
    }
    indexes
}

/// A file that offers indexes over its contents.
pub trait IndexableFile: File {
    /// Obtain the index `key` for this file: its values, in order.
    fn get_index(&self, key: &IndexKey) -> IndexValue;

    /// Obtain indexes for this file: a dictionary that maps each of `keys` to
    /// what `get_index` gives for it.
    fn get_indexes(&self, keys: Vec<IndexKey>) -> (indexes: IndexDict)
        ensures
            indexes@.dom() == strings_view(keys@).to_set(),
            indexes.keys() == first_occurrences(strings_view(keys@)),
    {
        let mut values: Vec<IndexValue> = Vec::new();
        let mut i: usize = 0;
        while i < keys.len()
            invariant
                i <= keys.len(),
                values.len() == i,
            decreases keys.len() - i,
        {
            values.push(self.get_index(&keys[i]));
            i = i + 1;
        }
        collect_indexes(keys, values)
    }
}

/// A filter that can be used to query for certain resources.
///
/// Filters are often resource-type specific.
pub trait Filter {
    /// The content type that this filter applies to.
    fn content_type() -> &'static str;

    /// Check if this filter applies to the resource `resource` named `name`.
    fn check(&self, name: &str, resource: &dyn File) -> bool;

    /// Returns a list of indexes that could be used to apply this filter: an
    /// AND-list of OR-options.
    fn index_keys(&self) -> Vec<IndexKey>;

    /// Check from a set of indexes whether the resource named `name`
    /// matches.
    fn check_from_indexes(&self, name: &str, indexes: IndexDict) -> bool;
}

} // verus!
