//! The values of one parsed file.

use crate::table::{
    listed_key, listed_value, lists, no_entries, table_entries, table_insert, table_into_entries,
    table_new, Entries, KeyView, Table,
};
use crate::text::same_text;
use vstd::prelude::*;

verus! {

/// What identifies a value: a section and a property within it.
///
/// The section is a name held by the interner of the parse session. Two
/// keys are the same key when their sections have the same name and their
/// properties are the same string, whichever interners hold the names.
#[derive(Debug, Clone, Hash)]
pub struct Key<'a> {
    pub section: &'a str,
    pub property: String,
}

impl<'a> View for Key<'a> {
    type V = KeyView;

    open spec fn view(&self) -> KeyView {
        (self.section@, self.property@)
    }
}

impl<'a> PartialEq for Key<'a> {
    fn eq(&self, other: &Self) -> (same: bool) {
        same_text(self.section, other.section) && self.property == other.property
    }
}

impl<'a> Eq for Key<'a> {

}

impl<'a> vstd::std_specs::cmp::PartialEqSpecImpl for Key<'a> {
    open spec fn obeys_eq_spec() -> bool {
        true
    }

    open spec fn eq_spec(&self, other: &Self) -> bool {
        self@ == other@
    }
}

/// A key as it is shown: the section, a dot, the property.
pub open spec fn key_text(key: KeyView) -> Seq<char> {
    key.0 + seq!['.'] + key.1
}

impl<'a> Key<'a> {
    /// The key as it is shown.
    pub fn to_string(&self) -> (shown: String)
        ensures
            shown@ == key_text(self@),
    {
        let mut shown = String::new();
        shown.append(self.section);
        shown.push('.');
        shown.append(self.property.as_str());
        proof {
            assert(shown@ =~= key_text(self@));
        }
        shown
    }
}

/// The values of one file, each under its key.
pub struct ConfigMap<'a> {
    table: Table<'a>,
}

impl<'a> View for ConfigMap<'a> {
    type V = Entries;

    closed spec fn view(&self) -> Entries {
        table_entries(&self.table)
    }
}

/// `list` names every entry of `entries`, each of them once, and nothing
/// else. It says nothing of the order.
pub open spec fn is_listing(list: Seq<(Key, String)>, entries: Entries) -> bool {
    &&& forall|i: int|
        0 <= i < list.len() ==> entries.contains_pair((#[trigger] list[i]).0@, list[i].1@)
    &&& forall|key: KeyView|
        entries.contains_key(key) ==> exists|i: int|
            0 <= i < list.len() && (#[trigger] list[i]).0@ == key
    &&& forall|i: int, j: int|
        0 <= i < j < list.len() ==> (#[trigger] list[i]).0@ != (#[trigger] list[j]).0@
}

impl<'a> ConfigMap<'a> {
    /// A map without values.
    pub fn new() -> (map: Self)
        ensures
            map@ == no_entries(),
    {
        ConfigMap { table: table_new() }
    }

    /// Files `value` under `key`. A value that the key had before is
    /// replaced.
    pub fn insert(&mut self, key: Key<'a>, value: String)
        ensures
            final(self)@ == old(self)@.insert(key@, value@),
    {
        table_insert(&mut self.table, key.section, key.property, value);
    }

    /// The values with their keys, each once, in no particular order.
    pub fn into_entries(self) -> (list: Vec<(Key<'a>, String)>)
        ensures
            is_listing(list@, self@),
    {
        let ghost entries = self@;
        let mut raw = table_into_entries(self.table);
        let ghost all = raw@;
        let mut list: Vec<(Key<'a>, String)> = Vec::new();
        while raw.len() > 0
            invariant
                lists(all, entries),
                raw@ == all.take(raw.len() as int),
                list.len() + raw.len() == all.len(),
                forall|k: int|
                    0 <= k < list.len() ==> (#[trigger] list[k]).0@ == listed_key(
                        all[all.len() - 1 - k],
                    ) && list[k].1@ == listed_value(all[all.len() - 1 - k]),
            decreases raw.len(),
        {
            let ghost n = raw.len() - 1;
            let (key, value) = raw.pop().unwrap();
            let (section, property) = key;
            proof {
                assert(all[n] == all.take(n + 1)[n]);
                assert(raw@ =~= all.take(n));
            }
            list.push((Key { section, property }, value));
        }
        proof {
            assert forall|i: int| 0 <= i < list.len() implies entries.contains_pair(
                (#[trigger] list[i]).0@,
                list[i].1@,
            ) by {
                assert(entries.contains_pair(
                    listed_key(all[all.len() - 1 - i]),
                    listed_value(all[all.len() - 1 - i]),
                ));
            }
            assert forall|key: KeyView| entries.contains_key(key) implies exists|i: int|
                0 <= i < list.len() && (#[trigger] list[i]).0@ == key by {
                let j = choose|j: int| 0 <= j < all.len() && listed_key(all[j]) == key;
                assert(list[all.len() - 1 - j].0@ == key);
            }
            assert forall|i: int, j: int| 0 <= i < j < list.len() implies (#[trigger] list[i]).0@
                != (#[trigger] list[j]).0@ by {
                assert(listed_key(all[all.len() - 1 - j]) != listed_key(all[all.len() - 1 - i]));
            }
        }
        list
    }

    /// Gives up the map for its table.
    pub(crate) fn into_table(self) -> (table: Table<'a>)
        ensures
            table_entries(&table) == self@,
    {
        self.table
    }
}

} // verus!
