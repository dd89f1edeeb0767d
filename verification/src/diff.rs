//! The diff engine: which values of two files differ.

use crate::config::{ConfigMap, Key};
use crate::reader::{document, read_to_map};
use crate::interner::Interner;
use crate::table::{
    listed_key, listed_value, lists, table_entries, table_into_entries, table_remove, Entries,
    KeyView,
};
use vstd::prelude::*;

verus! {

/// A key that both files have, with the value of each, which are not the
/// same.
#[derive(Debug, Clone, PartialEq, Eq)]
pub struct Difference<'a> {
    pub key: Key<'a>,
    pub left: String,
    pub right: String,
}

/// Whether `key` has a value on both sides and the two values differ.
pub open spec fn drifts(left: Entries, right: Entries, key: KeyView) -> bool {
    left.contains_key(key) && right.contains_key(key) && left[key] != right[key]
}

/// Whether `difference` reports a key that drifts, with the value of each
/// side.
pub open spec fn reports(difference: Difference, left: Entries, right: Entries) -> bool {
    &&& drifts(left, right, difference.key@)
    &&& difference.left@ == left[difference.key@]
    &&& difference.right@ == right[difference.key@]
}

/// Whether `differences` is the diff of `left` and `right`: it reports
/// every key that drifts, each of them once, and nothing else. A key that
/// only one side has is not reported. The order is left open.
pub open spec fn is_diff(differences: Seq<Difference>, left: Entries, right: Entries) -> bool {
    &&& forall|i: int|
        0 <= i < differences.len() ==> reports(#[trigger] differences[i], left, right)
    &&& forall|key: KeyView| #[trigger]
        drifts(left, right, key) ==> exists|i: int|
            0 <= i < differences.len() && (#[trigger] differences[i]).key@ == key
    &&& forall|i: int, j: int|
        0 <= i < j < differences.len() ==> (#[trigger] differences[i]).key@ != (
        #[trigger] differences[j]).key@
}

/// Whether two differences report the same key with the same values.
pub open spec fn same_report(a: Difference, b: Difference) -> bool {
    a.key@ == b.key@ && a.left@ == b.left@ && a.right@ == b.right@
}

/// Whether `differences` has a report of the same key with the same values
/// as `difference`.
pub open spec fn holds(differences: Seq<Difference>, difference: Difference) -> bool {
    exists|j: int|
        0 <= j < differences.len() && same_report(#[trigger] differences[j], difference)
}

/// The keys that `differences` reports, in its order.
pub open spec fn reported_keys(differences: Seq<Difference>) -> Seq<KeyView> {
    Seq::new(differences.len(), |i: int| differences[i].key@)
}

/// A diff reports exactly the keys that drift, none of them twice.
pub proof fn lemma_diff_reports_drift(differences: Seq<Difference>, left: Entries, right: Entries)
    requires
        is_diff(differences, left, right),
    ensures
        reported_keys(differences).no_duplicates(),
        reported_keys(differences).to_set() == Set::new(|key: KeyView| drifts(left, right, key)),
{
    let keys = reported_keys(differences);
    let drifting = Set::new(|key: KeyView| drifts(left, right, key));
    assert forall|key: KeyView| keys.to_set().contains(key) == drifting.contains(key) by {
        if keys.contains(key) {
            let i = choose|i: int| 0 <= i < keys.len() && keys[i] == key;
            assert(reports(differences[i], left, right));
        }
        if drifts(left, right, key) {
            let i = choose|i: int| 0 <= i < differences.len() && differences[i].key@ == key;
            assert(keys[i] == key);
        }
    }
    assert(keys.to_set() =~= drifting);
}

/// The diff of two maps is determined but for its order: two diffs of the
/// same maps have the same length, and what one reports the other reports
/// too.
pub proof fn lemma_diff_unique_up_to_order(
    one: Seq<Difference>,
    other: Seq<Difference>,
    left: Entries,
    right: Entries,
)
    requires
        is_diff(one, left, right),
        is_diff(other, left, right),
    ensures
        one.len() == other.len(),
        forall|i: int| 0 <= i < one.len() ==> holds(other, #[trigger] one[i]),
{
    lemma_diff_reports_drift(one, left, right);
    lemma_diff_reports_drift(other, left, right);
    reported_keys(one).unique_seq_to_set();
    reported_keys(other).unique_seq_to_set();
    assert forall|i: int| 0 <= i < one.len() implies holds(other, #[trigger] one[i]) by {
        assert(reports(one[i], left, right));
        let key = one[i].key@;
        assert(drifts(left, right, key));
        let j = choose|j: int| 0 <= j < other.len() && other[j].key@ == key;
        assert(reports(other[j], left, right));
        assert(same_report(other[j], one[i]));
    }
}

/// Nothing differs between a map and itself.
pub proof fn lemma_diff_of_same_is_empty(differences: Seq<Difference>, entries: Entries)
    requires
        is_diff(differences, entries, entries),
    ensures
        differences.len() == 0,
{
    if differences.len() > 0 {
        assert(reports(differences[0], entries, entries));
    }
}

/// A key that one side lacks is not reported, whatever the other side says
/// of it.
pub proof fn lemma_one_sided_key_is_not_reported(
    differences: Seq<Difference>,
    left: Entries,
    right: Entries,
    key: KeyView,
)
    requires
        is_diff(differences, left, right),
        !left.contains_key(key) || !right.contains_key(key),
    ensures
        forall|i: int| 0 <= i < differences.len() ==> (#[trigger] differences[i]).key@ != key,
{
    assert forall|i: int| 0 <= i < differences.len() implies (#[trigger] differences[i]).key@
        != key by {
        assert(reports(differences[i], left, right));
    }
}

/// Whether `a` and `b` say the same of `key`.
spec fn agree(a: Entries, b: Entries, key: KeyView) -> bool {
    a.contains_key(key) == b.contains_key(key) && (a.contains_key(key) ==> a[key] == b[key])
}

/// Compares two maps: the keys that both have with different values.
pub fn diff_maps<'a>(left: ConfigMap<'a>, right: ConfigMap<'a>) -> (differences: Vec<
    Difference<'a>,
>)
    ensures
        is_diff(differences@, left@, right@),
{
    let ghost l = left@;
    let ghost r = right@;
    let mut entries = table_into_entries(left.into_table());
    let mut others = right.into_table();
    let mut differences: Vec<Difference<'a>> = Vec::new();
    let ghost all = entries@;
    let ghost mut source: Seq<int> = Seq::empty();
    while entries.len() > 0
        invariant
            lists(all, l),
            entries.len() <= all.len(),
            entries@ == all.take(entries.len() as int),
            forall|key: KeyView|
                (forall|j: int| entries.len() <= j < all.len() ==> listed_key(all[j]) != key)
                    ==> #[trigger] agree(table_entries(&others), r, key),
            forall|i: int| 0 <= i < differences.len() ==> reports(#[trigger] differences[i], l, r),
            source.len() == differences.len(),
            forall|i: int|
                0 <= i < source.len() ==> entries.len() <= #[trigger] source[i] < all.len()
                    && listed_key(all[source[i]]) == differences[i].key@,
            forall|i: int, j: int|
                0 <= i < j < source.len() ==> #[trigger] source[i] > #[trigger] source[j],
            forall|j: int|
                entries.len() <= j < all.len() && drifts(l, r, #[trigger] listed_key(all[j]))
                    ==> exists|i: int| 0 <= i < source.len() && #[trigger] source[i] == j,
        decreases entries.len(),
    {
        let ghost n = entries.len() - 1;
        let ghost before = table_entries(&others);
        let (key, value) = entries.pop().unwrap();
        let ghost k = listed_key(all[n]);
        proof {
            assert(all[n] == all.take(n + 1)[n]);
            assert(l.contains_pair(listed_key(all[n]), listed_value(all[n])));
            assert forall|j: int| n + 1 <= j < all.len() implies listed_key(all[j]) != k by {
                assert(listed_key(all[n]) != listed_key(all[j]));
            }
            assert(agree(before, r, k));
            assert(entries@ =~= all.take(n));
        }
        let found = table_remove(&mut others, &key);
        proof {
            assert forall|key: KeyView|
                (forall|j: int| n <= j < all.len() ==> listed_key(all[j]) != key) implies #[trigger] agree(
                table_entries(&others),
                r,
                key,
            ) by {
                assert(listed_key(all[n]) != key);
                assert(agree(before, r, key));
            }
        }
        let ghost old_source = source;
        match found {
            Some(other) => {
                if value != other {
                    let (section, property) = key;
                    differences.push(
                        Difference { key: Key { section, property }, left: value, right: other },
                    );
                    proof {
                        source = source.push(n);
                    }
                }
            },
            None => {},
        }
        proof {
            assert forall|j: int|
                n <= j < all.len() && drifts(l, r, #[trigger] listed_key(all[j])) implies exists|
                i: int,
            |
                0 <= i < source.len() && #[trigger] source[i] == j by {
                if j > n {
                    let i = choose|i: int| 0 <= i < old_source.len() && old_source[i] == j;
                    assert(source[i] == j);
                } else {
                    assert(source[source.len() - 1] == n);
                }
            }
        }
    }
    proof {
        assert forall|key: KeyView| #[trigger] drifts(l, r, key) implies exists|i: int|
            0 <= i < differences.len() && (#[trigger] differences[i]).key@ == key by {
            let j = choose|j: int| 0 <= j < all.len() && listed_key(all[j]) == key;
            assert(drifts(l, r, listed_key(all[j])));
            let i = choose|i: int| 0 <= i < source.len() && source[i] == j;
            assert(differences[i].key@ == key);
        }
        assert forall|i: int, j: int| 0 <= i < j < differences.len() implies (
        #[trigger] differences[i]).key@ != (#[trigger] differences[j]).key@ by {
            assert(source[i] > source[j]);
            assert(listed_key(all[source[j]]) != listed_key(all[source[i]]));
        }
    }
    differences
}

/// Compares two configuration files, given as bytes: the keys that both
/// assign, with different values. The section names are held by `store`.
pub fn diff<'a>(left: &[u8], right: &[u8], store: &'a Interner) -> (differences: Vec<
    Difference<'a>,
>)
    ensures
        is_diff(differences@, document(left@), document(right@)),
{
    let left = read_to_map(left, store);
    let right = read_to_map(right, store);
    diff_maps(left, right)
}

} // verus!
