//! Keyfile type.

use crate::assoc::index_of;
use crate::assoc::keys_distinct;
use crate::assoc::lemma_index_of;
use crate::assoc::lemma_put_distinct;
use crate::assoc::lemma_put_to_map;
use crate::assoc::lemma_to_map_lookup;
use crate::assoc::lookup;
use crate::assoc::put;
use crate::assoc::to_map;
use crate::value::Value;
use crate::value::ValueView;
use vstd::prelude::*;

verus! {

/// The keys of a group with their values, in the order in which the keys
/// first came.
pub type Entries = Seq<(Seq<char>, ValueView)>;

/// The groups of a document with their entries, in the order in which the
/// groups first came.
pub type Layout = Seq<(Seq<char>, Entries)>;

/// Whether no group occurs twice, and no key twice in a group.
pub open spec fn well_formed(groups: Layout) -> bool {
    &&& keys_distinct(groups)
    &&& forall|i: int| 0 <= i < groups.len() ==> keys_distinct(#[trigger] groups[i].1)
}

/// The entries of `group`; none if there is no such group.
pub open spec fn entries_of(groups: Layout, group: Seq<char>) -> Entries {
    match lookup(groups, group) {
        Some(entries) => entries,
        None => Seq::empty(),
    }
}

/// The value of `key` in `group`, if there is one.
pub open spec fn value_at(groups: Layout, group: Seq<char>, key: Seq<char>) -> Option<ValueView> {
    lookup(entries_of(groups, group), key)
}

/// `groups` with `group` in it: as it is if the group is there already,
/// else with the group, empty, at the end.
pub open spec fn with_group(groups: Layout, group: Seq<char>) -> Layout {
    match index_of(groups, group) {
        Some(_) => groups,
        None => groups.push((group, Seq::empty())),
    }
}

/// `groups` with `key` standing for `value` in `group`. A value that the
/// key had is replaced; a new key goes to the end of its group, and a new
/// group to the end of the document.
pub open spec fn with_entry(
    groups: Layout,
    group: Seq<char>,
    key: Seq<char>,
    value: ValueView,
) -> Layout {
    put(groups, group, put(entries_of(groups, group), key, value))
}

/// The mapping that a document denotes: from the name of each group to the
/// mapping from each of its keys to the key's value.
pub open spec fn document(groups: Layout) -> Map<Seq<char>, Map<Seq<char>, ValueView>> {
    to_map(groups).map_values(|entries: Entries| to_map(entries))
}

/// The mapping from a group to the mapping of its entries; a group that is
/// missing has none.
pub open spec fn entries_at(
    doc: Map<Seq<char>, Map<Seq<char>, ValueView>>,
    group: Seq<char>,
) -> Map<Seq<char>, ValueView> {
    if doc.contains_key(group) {
        doc[group]
    } else {
        Map::empty()
    }
}

/// The group's entries denote what the document maps the group to.
pub proof fn lemma_entries_of_document(groups: Layout, group: Seq<char>)
    requires
        well_formed(groups),
    ensures
        document(groups).contains_key(group) <==> index_of(groups, group) is Some,
        to_map(entries_of(groups, group)) == entries_at(document(groups), group),
        keys_distinct(entries_of(groups, group)),
{
    lemma_index_of(groups, group);
    lemma_to_map_lookup(groups, group);
}

/// On the mappings, adding an entry inserts the key into the mapping of
/// its group: the value that the key had there is replaced, and nothing
/// else changes.
pub proof fn lemma_with_entry_document(
    groups: Layout,
    group: Seq<char>,
    key: Seq<char>,
    value: ValueView,
)
    requires
        well_formed(groups),
    ensures
        document(with_entry(groups, group, key, value)) == document(groups).insert(
            group,
            entries_at(document(groups), group).insert(key, value),
        ),
{
    let entries = entries_of(groups, group);
    lemma_entries_of_document(groups, group);
    lemma_put_to_map(entries, key, value);
    lemma_put_to_map(groups, group, put(entries, key, value));
    assert(document(with_entry(groups, group, key, value)) =~= document(groups).insert(
        group,
        entries_at(document(groups), group).insert(key, value),
    ));
}

/// On the mappings, adding a group maps it to no entries if it is new, and
/// changes nothing if it is there.
pub proof fn lemma_with_group_document(groups: Layout, group: Seq<char>)
    requires
        well_formed(groups),
    ensures
        document(with_group(groups, group)) == if document(groups).contains_key(group) {
            document(groups)
        } else {
            document(groups).insert(group, Map::empty())
        },
{
    lemma_entries_of_document(groups, group);
    if index_of(groups, group) is None {
        let none = Seq::<(Seq<char>, ValueView)>::empty();
        assert(groups.push((group, none)).drop_last() =~= groups);
        assert(document(with_group(groups, group)) =~= document(groups).insert(
            group,
            Map::empty(),
        ));
    }
}

/// The value of a key in a group is what the mappings give for the group
/// and the key.
pub proof fn lemma_value_at_document(groups: Layout, group: Seq<char>, key: Seq<char>)
    requires
        well_formed(groups),
    ensures
        value_at(groups, group, key) == if entries_at(document(groups), group).contains_key(key) {
            Some(document(groups)[group][key])
        } else {
            None
        },
{
    lemma_entries_of_document(groups, group);
    lemma_to_map_lookup(entries_of(groups, group), key);
}

/// Adding an entry keeps groups and keys distinct.
pub proof fn lemma_with_entry_well_formed(
    groups: Layout,
    group: Seq<char>,
    key: Seq<char>,
    value: ValueView,
)
    requires
        well_formed(groups),
    ensures
        well_formed(with_entry(groups, group, key, value)),
{
    lemma_index_of(groups, group);
    let entries = entries_of(groups, group);
    assert(keys_distinct(entries));
    lemma_put_distinct(entries, key, value);
    lemma_put_distinct(groups, group, put(entries, key, value));
}

/// Adding a group keeps groups and keys distinct.
pub proof fn lemma_with_group_well_formed(groups: Layout, group: Seq<char>)
    requires
        well_formed(groups),
    ensures
        well_formed(with_group(groups, group)),
{
    lemma_index_of(groups, group);
}

/// A key with its value.
#[derive(Debug)]
struct Entry {
    key: String,
    value: Value,
}

/// A group with its entries.
#[derive(Debug)]
struct Group {
    label: String,
    entries: Vec<Entry>,
}

/// Groups of key-value pairs.
///
/// Groups and keys are kept in the order in which they first came, and
/// are searched one after the other.
#[derive(Debug)]
pub struct Keyfile {
    groups: Vec<Group>,
}

spec fn entries_view(entries: Seq<Entry>) -> Entries {
    Seq::new(entries.len(), |j: int| (entries[j].key@, entries[j].value@))
}

spec fn groups_view(groups: Seq<Group>) -> Layout {
    Seq::new(groups.len(), |i: int| (groups[i].label@, entries_view(groups[i].entries@)))
}

impl View for Keyfile {
    type V = Layout;

    closed spec fn view(&self) -> Layout {
        groups_view(self.groups@)
    }
}

/// The index of the entry with the given key, if there is one.
fn find_entry(entries: &Vec<Entry>, key: &String) -> (r: Option<usize>)
    ensures
        match r {
            Some(j) => j < entries.len() && index_of(entries_view(entries@), key@) == Some(
                j as int,
            ),
            None => index_of(entries_view(entries@), key@) is None,
        },
{
    let ghost pairs = entries_view(entries@);
    let mut j: usize = 0;
    while j < entries.len()
        invariant
            j <= entries.len(),
            pairs == entries_view(entries@),
            forall|k: int| 0 <= k < j ==> pairs[k].0 != key@,
        decreases entries.len() - j,
    {
        if entries[j].key == *key {
            proof {
                assert(pairs[j as int].0 == key@);
                lemma_index_of(pairs, key@);
            }
            return Some(j);
        }
        j += 1;
    }
    proof {
        lemma_index_of(pairs, key@);
    }
    None
}

/// The index of the group with the given label, if there is one.
fn find_group(groups: &Vec<Group>, label: &String) -> (r: Option<usize>)
    ensures
        match r {
            Some(i) => i < groups.len() && index_of(groups_view(groups@), label@) == Some(i as int),
            None => index_of(groups_view(groups@), label@) is None,
        },
{
    let ghost pairs = groups_view(groups@);
    let mut i: usize = 0;
    while i < groups.len()
        invariant
            i <= groups.len(),
            pairs == groups_view(groups@),
            forall|k: int| 0 <= k < i ==> pairs[k].0 != label@,
        decreases groups.len() - i,
    {
        if groups[i].label == *label {
            proof {
                assert(pairs[i as int].0 == label@);
                lemma_index_of(pairs, label@);
            }
            return Some(i);
        }
        i += 1;
    }
    proof {
        lemma_index_of(pairs, label@);
    }
    None
}

impl Keyfile {
    #[verifier::type_invariant]
    spec fn inv(&self) -> bool {
        well_formed(self@)
    }

    /// Return a new empty keyfile.
    pub fn new() -> (r: Self)
        ensures
            r@ == Seq::<(Seq<char>, Entries)>::empty(),
            document(r@) == Map::<Seq<char>, Map<Seq<char>, ValueView>>::empty(),
    {
        assert(document(Seq::<(Seq<char>, Entries)>::empty()) =~= Map::<
            Seq<char>,
            Map<Seq<char>, ValueView>,
        >::empty());
        let r = Self { groups: Vec::new() };
        assert(r@ =~= Seq::<(Seq<char>, Entries)>::empty());
        r
    }

    /// Add a key-value pair into a given group. A value that the key had in
    /// that group is replaced.
    pub fn insert(&mut self, group: String, key: String, value: Value)
        ensures
            final(self)@ == with_entry(old(self)@, group@, key@, value@),
            document(final(self)@) == document(old(self)@).insert(
                group@,
                entries_at(document(old(self)@), group@).insert(key@, value@),
            ),
    {
        proof {
            use_type_invariant(&*self);
        }
        let ghost before = self@;
        let mut groups = self.take_groups();
        match find_group(&groups, &group) {
            Some(i) => {
                let ghost entries = before[i as int].1;
                proof {
                    lemma_index_of(before, group@);
                    lemma_index_of(entries, key@);
                }
                match find_entry(&groups[i].entries, &key) {
                    Some(j) => {
                        groups[i].entries[j].value = value;
                    },
                    None => {
                        groups[i].entries.push(Entry { key, value });
                    },
                }
            },
            None => {
                proof {
                    lemma_index_of(before, group@);
                }
                let mut entries: Vec<Entry> = Vec::new();
                entries.push(Entry { key, value });
                groups.push(Group { label: group, entries });
            },
        }
        proof {
            let after = with_entry(before, group@, key@, value@);
            assert(groups_view(groups@) =~~= after);
            lemma_with_entry_well_formed(before, group@, key@, value@);
            lemma_with_entry_document(before, group@, key@, value@);
        }
        self.groups = groups;
    }

    /// Makes sure that a group is there: a group that is missing is added,
    /// empty, and one that is there stays as it is.
    pub fn add_group(&mut self, group: String)
        ensures
            final(self)@ == with_group(old(self)@, group@),
            document(final(self)@) == if document(old(self)@).contains_key(group@) {
                document(old(self)@)
            } else {
                document(old(self)@).insert(group@, Map::empty())
            },
    {
        proof {
            use_type_invariant(&*self);
        }
        let ghost before = self@;
        let mut groups = self.take_groups();
        if find_group(&groups, &group).is_none() {
            groups.push(Group { label: group, entries: Vec::new() });
        }
        proof {
            lemma_index_of(before, group@);
            assert(groups_view(groups@) =~~= with_group(before, group@));
            lemma_with_group_well_formed(before, group@);
            lemma_with_group_document(before, group@);
        }
        self.groups = groups;
    }

    /// Return the group labels, in the order in which the groups first came.
    pub fn groups_labels(&self) -> (r: Vec<&str>)
        ensures
            r.len() == self@.len(),
            forall|i: int| 0 <= i < r.len() ==> r[i]@ == self@[i].0,
    {
        let mut r: Vec<&str> = Vec::new();
        let mut i: usize = 0;
        while i < self.groups.len()
            invariant
                i <= self.groups.len(),
                r.len() == i,
                forall|k: int| 0 <= k < i ==> r[k]@ == self@[k].0,
            decreases self.groups.len() - i,
        {
            r.push(self.groups[i].label.as_str());
            i += 1;
        }
        r
    }

    /// The value of `key` in `group`, if there is one.
    pub fn get(&self, group: &str, key: &str) -> (r: Option<&Value>)
        ensures
            match r {
                Some(v) => value_at(self@, group@, key@) == Some(v@),
                None => value_at(self@, group@, key@) is None,
            },
            r is Some <==> entries_at(document(self@), group@).contains_key(key@),
            r is Some ==> r.unwrap()@ == document(self@)[group@][key@],
    {
        proof {
            use_type_invariant(self);
            lemma_value_at_document(self@, group@, key@);
        }
        let label = String::from_str(group);
        match find_group(&self.groups, &label) {
            Some(i) => {
                let name = String::from_str(key);
                match find_entry(&self.groups[i].entries, &name) {
                    Some(j) => Some(&self.groups[i].entries[j].value),
                    None => None,
                }
            },
            None => {
                proof {
                    lemma_index_of(Seq::<(Seq<char>, ValueView)>::empty(), key@);
                }
                None
            },
        }
    }

    /// Whether there is a group with the given label.
    pub fn has_group(&self, group: &str) -> (r: bool)
        ensures
            r == index_of(self@, group@).is_some(),
            r == document(self@).contains_key(group@),
    {
        proof {
            use_type_invariant(self);
            lemma_entries_of_document(self@, group@);
        }
        let label = String::from_str(group);
        find_group(&self.groups, &label).is_some()
    }

    /// The number of groups.
    pub fn len(&self) -> (r: usize)
        ensures
            r == self@.len(),
            well_formed(self@),
    {
        proof {
            use_type_invariant(self);
        }
        self.groups.len()
    }

    /// The label of the group at `index`.
    pub fn label(&self, index: usize) -> (r: &str)
        requires
            index < self@.len(),
        ensures
            r@ == self@[index as int].0,
    {
        self.groups[index].label.as_str()
    }

    /// The number of entries of the group at `index`.
    pub fn entries_len(&self, index: usize) -> (r: usize)
        requires
            index < self@.len(),
        ensures
            r == self@[index as int].1.len(),
    {
        self.groups[index].entries.len()
    }

    /// The key and the value of the entry at `position` in the group at
    /// `index`.
    pub fn entry(&self, index: usize, position: usize) -> (r: (&str, &Value))
        requires
            index < self@.len(),
            position < self@[index as int].1.len(),
        ensures
            (r.0@, r.1@) == self@[index as int].1[position as int],
    {
        let entry = &self.groups[index].entries[position];
        (entry.key.as_str(), &entry.value)
    }

    /// Moves the groups out and leaves none.
    fn take_groups(&mut self) -> (groups: Vec<Group>)
        ensures
            groups == old(self).groups,
            final(self).groups@ == Seq::<Group>::empty(),
    {
        let mut groups: Vec<Group> = Vec::new();
        core::mem::swap(&mut self.groups, &mut groups);
        groups
    }
}

impl Default for Keyfile {
    fn default() -> (r: Self)
        ensures
            r@ == Seq::<(Seq<char>, Entries)>::empty(),
    {
        Keyfile::new()
    }
}

} // verus!
