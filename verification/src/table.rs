//! The hash tables that hold a parsed file, the ignore list and the file
//! names of a tree.
//!
//! All three are `hashbrown` collections. Nothing in this module is proved:
//! each function makes one call into `hashbrown` and states what that call
//! does to the table's contents, which stand here as a mathematical map or
//! set. The keys are strings, pairs of strings and byte vectors, for which
//! the standard library defines equality and hashing by content.

use vstd::prelude::*;

verus! {

/// `hashbrown::hash_map::DefaultHashBuilder`, an opaque value.
#[verifier::external_type_specification]
#[verifier::external_body]
pub struct ExHashBuilder(hashbrown::hash_map::DefaultHashBuilder);

/// `hashbrown::HashMap`, an opaque value.
#[verifier::external_type_specification]
#[verifier::external_body]
#[verifier::reject_recursive_types(K)]
#[verifier::reject_recursive_types(V)]
#[verifier::reject_recursive_types(S)]
pub struct ExHashMap<K, V, S>(hashbrown::HashMap<K, V, S>);

/// `hashbrown::HashSet`, an opaque value.
#[verifier::external_type_specification]
#[verifier::external_body]
#[verifier::reject_recursive_types(T)]
#[verifier::reject_recursive_types(S)]
pub struct ExHashSet<T, S>(hashbrown::HashSet<T, S>);

/// What identifies a value: the name of its section and its property.
pub type KeyView = (Seq<char>, Seq<char>);

/// The values of a file, by key.
pub type Entries = Map<KeyView, Seq<char>>;

/// A store of values keyed by section and property.
pub type Table<'a> = hashbrown::HashMap<(&'a str, String), String>;

/// A set of strings.
pub type Tokens = hashbrown::HashSet<String>;

/// No values at all.
pub open spec fn no_entries() -> Entries {
    Map::empty()
}

/// What a table holds.
pub uninterp spec fn table_entries(table: &hashbrown::HashMap<(&str, String), String>) -> Map<(Seq<char>, Seq<char>), Seq<char>>;

/// What a set of strings holds.
pub uninterp spec fn set_members(set: &hashbrown::HashSet<String>) -> Set<Seq<char>>;

/// The key of a listed entry.
pub open spec fn listed_key(entry: ((&str, String), String)) -> KeyView {
    let (key, _) = entry;
    let (section, property) = key;
    (section@, property@)
}

/// The value of a listed entry.
pub open spec fn listed_value(entry: ((&str, String), String)) -> Seq<char> {
    let (_, value) = entry;
    value@
}

/// `list` names every entry of `entries`, each of them once, and nothing
/// else. It says nothing of the order.
pub open spec fn lists(list: Seq<((&str, String), String)>, entries: Entries) -> bool {
    &&& forall|i: int|
        0 <= i < list.len() ==> entries.contains_pair(
            #[trigger] listed_key(list[i]),
            listed_value(list[i]),
        )
    &&& forall|k: KeyView|
        entries.contains_key(k) ==> exists|i: int|
            0 <= i < list.len() && #[trigger] listed_key(list[i]) == k
    &&& forall|i: int, j: int|
        0 <= i < j < list.len() ==> #[trigger] listed_key(list[i]) != #[trigger] listed_key(
            list[j],
        )
}

/// `HashMap::new`: a table that holds nothing.
#[verifier::external_body]
pub(crate) fn table_new<'a>() -> (table: Table<'a>)
    ensures
        table_entries(&table) == no_entries(),
{
    hashbrown::HashMap::new()
}

/// `HashMap::insert`: afterwards the key maps to the new value, whether or
/// not it was present, and every other key is as before.
#[verifier::external_body]
pub(crate) fn table_insert<'a>(
    table: &mut Table<'a>,
    section: &'a str,
    property: String,
    value: String,
)
    ensures
        table_entries(final(table)) == table_entries(old(table)).insert(
            (section@, property@),
            value@,
        ),
{
    table.insert((section, property), value);
}

/// `HashMap::remove`: takes the key out and hands back the value it had,
/// or `None` where the key was absent and the table stays as it was.
#[verifier::external_body]
pub(crate) fn table_remove<'a>(table: &mut Table<'a>, key: &(&'a str, String)) -> (found: Option<
    String,
>)
    ensures
        table_entries(final(table)) == table_entries(old(table)).remove((key.0@, key.1@)),
        found is Some == table_entries(old(table)).contains_key((key.0@, key.1@)),
        found is Some ==> found->0@ == table_entries(old(table))[(key.0@, key.1@)],
{
    table.remove(key)
}

/// `HashMap::into_iter`: hands out every entry once, in an order that is
/// not specified.
#[verifier::external_body]
pub(crate) fn table_into_entries<'a>(table: Table<'a>) -> (list: Vec<((&'a str, String), String)>)
    ensures
        lists(list@, table_entries(&table)),
{
    table.into_iter().collect()
}

/// `HashSet::new`: a set that holds nothing.
#[verifier::external_body]
pub(crate) fn set_new() -> (set: Tokens)
    ensures
        set_members(&set) == Set::<Seq<char>>::empty(),
{
    hashbrown::HashSet::new()
}

/// `HashSet::insert`: afterwards the set holds the string besides what it
/// held.
#[verifier::external_body]
pub(crate) fn set_insert(set: &mut Tokens, token: String)
    ensures
        set_members(final(set)) == set_members(old(set)).insert(token@),
{
    set.insert(token);
}

/// `HashSet::is_empty`: whether the set holds nothing.
#[verifier::external_body]
pub(crate) fn set_is_empty(set: &Tokens) -> (empty: bool)
    ensures
        empty == (set_members(set) == Set::<Seq<char>>::empty()),
{
    set.is_empty()
}

/// `HashSet::contains`: whether the set holds the string.
#[verifier::external_body]
pub(crate) fn set_contains(set: &Tokens, token: &str) -> (held: bool)
    ensures
        held == set_members(set).contains(token@),
{
    set.contains(token)
}

/// An index of file names: for each name, a position.
pub type NameIndex = hashbrown::HashMap<Vec<u8>, usize>;

/// The positions of an index, by name.
pub type Positions = Map<Seq<u8>, usize>;

/// No positions at all.
pub open spec fn no_positions() -> Positions {
    Map::empty()
}

/// What an index holds.
pub uninterp spec fn index_entries(index: &hashbrown::HashMap<Vec<u8>, usize>) -> Map<Seq<u8>, usize>;

/// `list` names every entry of `positions`, each of them once, and nothing
/// else. It says nothing of the order.
pub open spec fn lists_positions(list: Seq<(Vec<u8>, usize)>, positions: Positions) -> bool {
    &&& forall|i: int|
        0 <= i < list.len() ==> positions.contains_pair((#[trigger] list[i]).0@, list[i].1)
    &&& forall|name: Seq<u8>|
        positions.contains_key(name) ==> exists|i: int|
            0 <= i < list.len() && (#[trigger] list[i]).0@ == name
    &&& forall|i: int, j: int|
        0 <= i < j < list.len() ==> (#[trigger] list[i]).0@ != (#[trigger] list[j]).0@
}

/// `HashMap::new`: an index that holds nothing.
#[verifier::external_body]
pub(crate) fn index_new() -> (index: NameIndex)
    ensures
        index_entries(&index) == no_positions(),
{
    hashbrown::HashMap::new()
}

/// `HashMap::insert`: afterwards the name maps to the new position, whether
/// or not it was present, and every other name is as before.
#[verifier::external_body]
pub(crate) fn index_insert(index: &mut NameIndex, name: Vec<u8>, at: usize)
    ensures
        index_entries(final(index)) == index_entries(old(index)).insert(name@, at),
{
    index.insert(name, at);
}

/// `HashMap::remove`: takes the name out and hands back the position it
/// had, or `None` where the name was absent and the index stays as it was.
#[verifier::external_body]
pub(crate) fn index_remove(index: &mut NameIndex, name: &Vec<u8>) -> (found: Option<usize>)
    ensures
        index_entries(final(index)) == index_entries(old(index)).remove(name@),
        found is Some == index_entries(old(index)).contains_key(name@),
        found is Some ==> found->0 == index_entries(old(index))[name@],
{
    index.remove(name)
}

/// `HashMap::into_iter`: hands out every entry once, in an order that is
/// not specified.
#[verifier::external_body]
pub(crate) fn index_into_entries(index: NameIndex) -> (list: Vec<(Vec<u8>, usize)>)
    ensures
        lists_positions(list@, index_entries(&index)),
{
    index.into_iter().collect()
}

} // verus!
