//! One row of the table: column names with the values found for them.

use crate::json::Json;
use crate::text::{
    bytes_of, compare, lemma_bytes_determine_name, lemma_precedes_asymmetric,
    lemma_precedes_total, lemma_precedes_transitive, precedes, Order,
};
use vstd::prelude::*;

verus! {

/// A row: for each of its columns the value in the tree that the column
/// stands for. The columns are kept in ascending order of their names, and no
/// name occurs twice.
#[derive(Debug, PartialEq)]
pub struct Row<'a> {
    entries: Vec<(String, &'a Json)>,
}

/// Each name precedes those that come after it.
pub open spec fn ascending(names: Seq<Seq<char>>) -> bool {
    forall|i: int, j: int|
        0 <= i < j < names.len() ==> precedes(bytes_of(#[trigger] names[i]), bytes_of(#[trigger] names[j]))
}

/// Where `name` stands among `names`, if it is one of them.
pub open spec fn position(names: Seq<Seq<char>>, name: Seq<char>) -> int {
    choose|i: int| 0 <= i < names.len() && names[i] == name
}

/// In an ascending sequence a name is found at one place only.
pub proof fn lemma_position_unique(names: Seq<Seq<char>>, i: int)
    requires
        ascending(names),
        0 <= i < names.len(),
    ensures
        position(names, names[i]) == i,
{
    let p = position(names, names[i]);
    if p < i {
        lemma_precedes_asymmetric(bytes_of(names[p]), bytes_of(names[i]));
    } else if i < p {
        lemma_precedes_asymmetric(bytes_of(names[i]), bytes_of(names[p]));
    }
}

/// The mapping that gives each of `names` the value at the same place in
/// `values`.
pub open spec fn table(names: Seq<Seq<char>>, values: Seq<Json>) -> Map<Seq<char>, Json> {
    Map::new(
        |name: Seq<char>| names.contains(name),
        |name: Seq<char>| values[position(names, name)],
    )
}

/// What `table` holds for the name at place `i`.
pub proof fn lemma_table_at(names: Seq<Seq<char>>, values: Seq<Json>, i: int)
    requires
        ascending(names),
        0 <= i < names.len(),
    ensures
        table(names, values).contains_key(names[i]),
        table(names, values)[names[i]] == values[i],
{
    lemma_position_unique(names, i);
    assert(names.contains(names[i]));
}

/// A new value at place `p` is a new value for the name at that place.
pub proof fn lemma_table_update(names: Seq<Seq<char>>, values: Seq<Json>, p: int, value: Json)
    requires
        ascending(names),
        names.len() == values.len(),
        0 <= p < names.len(),
    ensures
        table(names, values.update(p, value)) == table(names, values).insert(names[p], value),
{
    let before = table(names, values);
    let after = table(names, values.update(p, value));
    assert forall|name: Seq<char>| after.contains_key(name) implies #[trigger] after[name]
        == before.insert(names[p], value)[name] by {
        let i = position(names, name);
        lemma_position_unique(names, i);
        lemma_position_unique(names, p);
    }
    assert(names.contains(names[p]));
    assert(after =~= before.insert(names[p], value));
}

/// A name and a value put in at place `p`, where the name keeps the order,
/// are a new column.
pub proof fn lemma_table_insert(
    names: Seq<Seq<char>>,
    values: Seq<Json>,
    p: int,
    name: Seq<char>,
    value: Json,
)
    requires
        ascending(names),
        names.len() == values.len(),
        0 <= p <= names.len(),
        forall|j: int| 0 <= j < p ==> precedes(bytes_of(#[trigger] names[j]), bytes_of(name)),
        forall|j: int| p <= j < names.len() ==> precedes(bytes_of(name), bytes_of(#[trigger] names[j])),
    ensures
        ascending(names.insert(p, name)),
        table(names.insert(p, name), values.insert(p, value)) == table(names, values).insert(
            name,
            value,
        ),
{
    let wider = names.insert(p, name);
    let filled = values.insert(p, value);
    assert forall|i: int, j: int| 0 <= i < j < wider.len() implies precedes(
        bytes_of(#[trigger] wider[i]),
        bytes_of(#[trigger] wider[j]),
    ) by {
        let x = if i < p { names[i] } else if i == p { name } else { names[i - 1] };
        let y = if j < p { names[j] } else if j == p { name } else { names[j - 1] };
        assert(wider[i] == x && wider[j] == y);
    }
    let before = table(names, values);
    let after = table(wider, filled);
    assert forall|other: Seq<char>| after.contains_key(other) == before.insert(
        name,
        value,
    ).contains_key(other) by {
        if wider.contains(other) {
            let i = choose|i: int| 0 <= i < wider.len() && wider[i] == other;
            if i < p {
                assert(names[i] == other);
            } else if i > p {
                assert(names[i - 1] == other);
            }
        }
        if names.contains(other) {
            let i = choose|i: int| 0 <= i < names.len() && names[i] == other;
            if i < p {
                assert(wider[i] == other);
            } else {
                assert(wider[i + 1] == other);
            }
        }
        if other == name {
            assert(wider[p] == other);
        }
    }
    assert forall|other: Seq<char>| after.contains_key(other) implies #[trigger] after[other]
        == before.insert(name, value)[other] by {
        let i = position(wider, other);
        lemma_position_unique(wider, i);
        if i < p {
            lemma_position_unique(names, i);
        } else if i > p {
            lemma_position_unique(names, i - 1);
            lemma_precedes_asymmetric(bytes_of(name), bytes_of(names[i - 1]));
        }
    }
    assert(after =~= before.insert(name, value));
}

/// `table` has as many entries as there are names.
pub proof fn lemma_table_len(names: Seq<Seq<char>>, values: Seq<Json>)
    requires
        ascending(names),
        names.len() == values.len(),
    ensures
        table(names, values).dom().finite(),
        table(names, values).dom().len() == names.len(),
    decreases names.len(),
{
    if names.len() == 0 {
        assert(table(names, values).dom() =~= Set::<Seq<char>>::empty());
    } else {
        let p = names.len() - 1;
        let fewer = names.drop_last();
        let rest = values.drop_last();
        assert forall|i: int, j: int| 0 <= i < j < fewer.len() implies precedes(
            bytes_of(#[trigger] fewer[i]),
            bytes_of(#[trigger] fewer[j]),
        ) by {
            assert(fewer[i] == names[i] && fewer[j] == names[j]);
        }
        lemma_table_len(fewer, rest);
        assert forall|j: int| 0 <= j < p implies precedes(
            bytes_of(#[trigger] fewer[j]),
            bytes_of(names[p]),
        ) by {
            assert(fewer[j] == names[j]);
        }
        lemma_table_insert(fewer, rest, p, names[p], values[p]);
        assert(fewer.insert(p, names[p]) =~= names);
        assert(rest.insert(p, values[p]) =~= values);
        if fewer.contains(names[p]) {
            let i = choose|i: int| 0 <= i < fewer.len() && fewer[i] == names[p];
            assert(fewer[i] == names[i]);
            lemma_precedes_asymmetric(bytes_of(names[i]), bytes_of(names[p]));
        }
        assert(table(names, values).dom() =~= table(fewer, rest).dom().insert(names[p]));
    }
}

impl<'a> Row<'a> {
    /// The names of the columns, in the order in which the row keeps them.
    pub closed spec fn names(&self) -> Seq<Seq<char>> {
        Seq::new(self.entries@.len(), |i: int| self.entries@[i].0@)
    }

    /// The values of the columns, in the same order.
    pub closed spec fn values(&self) -> Seq<Json> {
        Seq::new(self.entries@.len(), |i: int| *self.entries@[i].1)
    }

    #[verifier::type_invariant]
    spec fn well_formed(&self) -> bool {
        ascending(self.names())
    }
}

impl<'a> View for Row<'a> {
    type V = Map<Seq<char>, Json>;

    /// The row as a mapping from column name to value.
    open spec fn view(&self) -> Map<Seq<char>, Json> {
        table(self.names(), self.values())
    }
}

impl<'a> Row<'a> {
    /// A row without columns.
    pub fn new() -> (row: Row<'a>)
        ensures
            row@ == Map::<Seq<char>, Json>::empty(),
    {
        let row = Row { entries: Vec::new() };
        assert(row@ =~= Map::<Seq<char>, Json>::empty());
        row
    }

    /// The place of `name` among the columns, and whether it stands there:
    /// where it does not, the place is the one at which it keeps the order.
    fn locate(&self, name: &str) -> (found: (usize, bool))
        ensures
            found.0 <= self.names().len(),
            forall|j: int|
                0 <= j < found.0 ==> precedes(bytes_of(#[trigger] self.names()[j]), bytes_of(name@)),
            found.1 ==> found.0 < self.names().len() && self.names()[found.0 as int] == name@,
            !found.1 ==> forall|j: int|
                found.0 <= j < self.names().len() ==> precedes(
                    bytes_of(name@),
                    bytes_of(#[trigger] self.names()[j]),
                ),
    {
        proof {
            use_type_invariant(self);
        }
        let mut i: usize = 0;
        while i < self.entries.len()
            invariant
                i <= self.entries@.len(),
                ascending(self.names()),
                forall|j: int|
                    0 <= j < i ==> precedes(bytes_of(#[trigger] self.names()[j]), bytes_of(name@)),
            decreases self.entries@.len() - i,
        {
            match compare(self.entries[i].0.as_str(), name) {
                Order::Before => {
                    assert(self.names()[i as int] == self.entries@[i as int].0@);
                    i += 1;
                },
                Order::Same => {
                    assert(self.names()[i as int] == self.entries@[i as int].0@);
                    return (i, true);
                },
                Order::After => {
                    assert(self.names()[i as int] == self.entries@[i as int].0@);
                    proof {
                        lemma_precedes_total(bytes_of(name@), bytes_of(self.names()[i as int]));
                        if bytes_of(name@) == bytes_of(self.names()[i as int]) {
                            lemma_bytes_determine_name(name@, self.names()[i as int]);
                        }
                        assert forall|j: int| i <= j < self.names().len() implies precedes(
                            bytes_of(name@),
                            bytes_of(#[trigger] self.names()[j]),
                        ) by {
                            if i < j {
                                lemma_precedes_transitive(
                                    bytes_of(name@),
                                    bytes_of(self.names()[i as int]),
                                    bytes_of(self.names()[j]),
                                );
                            }
                        }
                    }
                    return (i, false);
                },
            }
        }
        (i, false)
    }

    /// The value of the column `name`, if the row has that column.
    pub fn get(&self, name: &str) -> (value: Option<&'a Json>)
        ensures
            match value {
                Some(found) => self@.contains_key(name@) && self@[name@] == *found,
                None => !self@.contains_key(name@),
            },
    {
        proof {
            use_type_invariant(self);
        }
        let (place, found) = self.locate(name);
        if found {
            proof {
                lemma_table_at(self.names(), self.values(), place as int);
            }
            Some(self.entries[place].1)
        } else {
            proof {
                if self.names().contains(name@) {
                    let i = choose|i: int| 0 <= i < self.names().len() && self.names()[i] == name@;
                    if i < place {
                        lemma_precedes_asymmetric(bytes_of(self.names()[i]), bytes_of(name@));
                    } else {
                        lemma_precedes_asymmetric(bytes_of(name@), bytes_of(self.names()[i]));
                    }
                }
            }
            None
        }
    }

    /// Writes the column `name`: a column of that name gets the new value,
    /// the other columns keep theirs.
    pub fn insert(&mut self, name: String, value: &'a Json)
        ensures
            final(self)@ == old(self)@.insert(name@, *value),
    {
        proof {
            use_type_invariant(&*self);
        }
        let (place, found) = self.locate(name.as_str());
        let ghost names = self.names();
        let ghost values = self.values();
        let mut entries: Vec<(String, &'a Json)> = Vec::new();
        core::mem::swap(&mut self.entries, &mut entries);
        if found {
            proof {
                lemma_table_update(names, values, place as int, *value);
            }
            entries.set(place, (name, value));
            assert(Seq::new(entries@.len(), |i: int| entries@[i].0@) =~= names);
            assert(Seq::new(entries@.len(), |i: int| *entries@[i].1) =~= values.update(
                place as int,
                *value,
            ));
        } else {
            proof {
                lemma_table_insert(names, values, place as int, name@, *value);
            }
            entries.insert(place, (name, value));
            assert(Seq::new(entries@.len(), |i: int| entries@[i].0@) =~= names.insert(
                place as int,
                name@,
            ));
            assert(Seq::new(entries@.len(), |i: int| *entries@[i].1) =~= values.insert(
                place as int,
                *value,
            ));
        }
        core::mem::swap(&mut self.entries, &mut entries);
    }

    /// Takes every column out of the row.
    pub fn clear(&mut self)
        ensures
            final(self)@ == Map::<Seq<char>, Json>::empty(),
    {
        let mut entries: Vec<(String, &'a Json)> = Vec::new();
        core::mem::swap(&mut self.entries, &mut entries);
        assert(self@ =~= Map::<Seq<char>, Json>::empty());
    }

    /// A copy of the row as it stands: what is written to the row afterwards
    /// does not reach the copy.
    pub fn snapshot(&self) -> (copy: Row<'a>)
        ensures
            copy@ == self@,
            copy.names() == self.names(),
            copy.values() == self.values(),
    {
        proof {
            use_type_invariant(self);
        }
        let mut entries: Vec<(String, &'a Json)> = Vec::new();
        let mut i: usize = 0;
        while i < self.entries.len()
            invariant
                i <= self.entries@.len(),
                entries@ == self.entries@.take(i as int),
            decreases self.entries@.len() - i,
        {
            let name = self.entries[i].0.clone();
            entries.push((name, self.entries[i].1));
            assert(entries@ =~= self.entries@.take(i + 1));
            i += 1;
        }
        assert(entries@ =~= self.entries@);
        let copy = Row { entries };
        assert(copy.names() =~= self.names());
        assert(copy.values() =~= self.values());
        copy
    }

    /// The number of columns.
    pub fn len(&self) -> (count: usize)
        ensures
            self@.dom().finite(),
            count == self@.dom().len(),
            count == self.names().len(),
            count == self.values().len(),
    {
        proof {
            use_type_invariant(self);
            lemma_table_len(self.names(), self.values());
        }
        self.entries.len()
    }

    /// Whether the row has no column.
    pub fn is_empty(&self) -> (empty: bool)
        ensures
            empty == (self@ == Map::<Seq<char>, Json>::empty()),
    {
        proof {
            use_type_invariant(self);
            if self.names().len() > 0 {
                lemma_table_at(self.names(), self.values(), 0);
            } else {
                assert(self@ =~= Map::<Seq<char>, Json>::empty());
            }
        }
        self.entries.len() == 0
    }

    /// The column at place `index`, counted from 0 in ascending order of the
    /// names: its name and its value.
    pub fn column(&self, index: usize) -> (column: Option<(&str, &'a Json)>)
        ensures
            ascending(self.names()),
            match column {
                Some((name, value)) => {
                    &&& index < self.names().len()
                    &&& name@ == self.names()[index as int]
                    &&& *value == self.values()[index as int]
                    &&& self@.contains_key(name@)
                    &&& self@[name@] == *value
                },
                None => index >= self.names().len(),
            },
    {
        proof {
            use_type_invariant(self);
        }
        if index < self.entries.len() {
            proof {
                lemma_table_at(self.names(), self.values(), index as int);
            }
            Some((self.entries[index].0.as_str(), self.entries[index].1))
        } else {
            None
        }
    }
}

} // verus!
