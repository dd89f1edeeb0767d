//! Pairing the files of two trees by name.

use crate::table::{
    index_entries, index_insert, index_into_entries, index_new, index_remove, lists_positions,
    no_positions, NameIndex, Positions,
};
use crate::text::same_text;
use vstd::prelude::*;

verus! {

/// Whether a file with this extension is a configuration file: the
/// extension is `cfg`, in lower case or in upper case.
pub fn is_config_extension(extension: &str) -> (config: bool)
    ensures
        config == (extension@ == "cfg"@ || extension@ == "CFG"@),
{
    same_text(extension, "cfg") || same_text(extension, "CFG")
}

/// For each name among `names`, the position at which it stands. Where a
/// name stands at several positions, the last of them counts.
pub open spec fn name_index(names: Seq<Vec<u8>>) -> Positions
    decreases names.len(),
{
    if names.len() == 0 {
        no_positions()
    } else {
        name_index(names.drop_last()).insert(names.last()@, (names.len() - 1) as usize)
    }
}

/// Whether `pair` holds the positions that one name has on the two sides.
pub open spec fn pairs_a_name(left: Positions, right: Positions, pair: (usize, usize)) -> bool {
    exists|name: Seq<u8>|
        #![trigger left.contains_key(name)]
        left.contains_key(name) && right.contains_key(name) && left[name] == pair.0 && right[name]
            == pair.1
}

/// Whether `pairs` pairs the files of two trees, given by their names: for
/// each name that both sides have there is one pair, of the position that
/// the name has on the left and the one it has on the right, and there is
/// no other pair. The order is left open.
pub open spec fn is_pairing(pairs: Seq<(usize, usize)>, left: Seq<Vec<u8>>, right: Seq<Vec<u8>>) -> bool {
    let l = name_index(left);
    let r = name_index(right);
    &&& forall|k: int| 0 <= k < pairs.len() ==> pairs_a_name(l, r, #[trigger] pairs[k])
    &&& forall|name: Seq<u8>|
        #![trigger l.contains_key(name)]
        l.contains_key(name) && r.contains_key(name) ==> pairs.contains((l[name], r[name]))
    &&& pairs.no_duplicates()
}

/// A name has a position exactly when it stands among the names; the
/// position is then the last at which it stands.
pub proof fn lemma_name_index(names: Seq<Vec<u8>>, name: Seq<u8>)
    requires
        names.len() <= usize::MAX,
    ensures
        name_index(names).contains_key(name) <==> exists|i: int|
            0 <= i < names.len() && (#[trigger] names[i])@ == name,
        name_index(names).contains_key(name) ==> {
            let at = name_index(names)[name];
            &&& at < names.len()
            &&& names[at as int]@ == name
            &&& forall|i: int| at < i < names.len() ==> (#[trigger] names[i])@ != name
        },
    decreases names.len(),
{
    if names.len() > 0 {
        let front = names.drop_last();
        lemma_name_index(front, name);
        if names.last()@ == name {
            assert(names[names.len() - 1]@ == name);
        } else {
            if name_index(front).contains_key(name) {
                let i = choose|i: int| 0 <= i < front.len() && (#[trigger] front[i])@ == name;
                assert(names[i]@ == name);
                let at = name_index(front)[name];
                assert(names[at as int] == front[at as int]);
                assert forall|i: int| at < i < names.len() implies (#[trigger] names[i])@
                    != name by {
                    if i < front.len() {
                        assert(names[i] == front[i]);
                    }
                }
            }
            if exists|i: int| 0 <= i < names.len() && (#[trigger] names[i])@ == name {
                let i = choose|i: int| 0 <= i < names.len() && (#[trigger] names[i])@ == name;
                assert(front[i] == names[i]);
            }
        }
    }
}

/// The index of `names`.
fn index_names(names: Vec<Vec<u8>>) -> (index: NameIndex)
    ensures
        index_entries(&index) == name_index(names@),
{
    let mut index = index_new();
    let ghost all = names@;
    let mut at: usize = 0;
    proof {
        assert(names.len() == all.len());
    }
    for name in it: names
        invariant
            all.len() <= usize::MAX,
            it.seq() == all,
            at == it.index(),
            index_entries(&index) == name_index(all.take(at as int)),
    {
        proof {
            let upto = all.take(at + 1);
            assert(upto.drop_last() =~= all.take(at as int));
            assert(upto.last() == name);
        }
        index_insert(&mut index, name, at);
        at += 1;
    }
    proof {
        assert(all.take(all.len() as int) =~= all);
    }
    index
}

/// Whether `a` and `b` say the same of `name`.
spec fn agree(a: Positions, b: Positions, name: Seq<u8>) -> bool {
    a.contains_key(name) == b.contains_key(name) && (a.contains_key(name) ==> a[name] == b[name])
}

/// Pairs the files of two trees by name.
///
/// Each side is given as the names of its files, in the order in which they
/// were found. A pair holds the position of a file on the left and that of
/// the file of the same name on the right.
pub fn pair_names(left: Vec<Vec<u8>>, right: Vec<Vec<u8>>) -> (pairs: Vec<(usize, usize)>)
    ensures
        is_pairing(pairs@, left@, right@),
        forall|k: int|
            0 <= k < pairs.len() ==> (#[trigger] pairs[k]).0 < left.len() && pairs[k].1
                < right.len() && left[pairs[k].0 as int]@ == right[pairs[k].1 as int]@,
{
    let ghost l = name_index(left@);
    let ghost r = name_index(right@);
    let ghost left_names = left@;
    let ghost right_names = right@;
    proof {
        assert(left.len() == left_names.len());
        assert(right.len() == right_names.len());
    }
    let mut entries = index_into_entries(index_names(left));
    let mut others = index_names(right);
    let mut pairs: Vec<(usize, usize)> = Vec::new();
    let ghost all = entries@;
    let ghost mut source: Seq<int> = Seq::empty();
    while entries.len() > 0
        invariant
            lists_positions(all, l),
            entries.len() <= all.len(),
            entries@ == all.take(entries.len() as int),
            forall|name: Seq<u8>|
                (forall|j: int| entries.len() <= j < all.len() ==> all[j].0@ != name)
                    ==> #[trigger] agree(index_entries(&others), r, name),
            source.len() == pairs.len(),
            forall|k: int|
                0 <= k < source.len() ==> entries.len() <= #[trigger] source[k] < all.len() && {
                    let name = all[source[k]].0@;
                    l.contains_key(name) && r.contains_key(name) && pairs[k] == (l[name], r[name])
                },
            forall|i: int, j: int|
                0 <= i < j < source.len() ==> #[trigger] source[i] > #[trigger] source[j],
            forall|j: int|
                entries.len() <= j < all.len() && r.contains_key((#[trigger] all[j]).0@)
                    ==> exists|k: int| 0 <= k < source.len() && #[trigger] source[k] == j,
        decreases entries.len(),
    {
        let ghost n = entries.len() - 1;
        let ghost before = index_entries(&others);
        let (name, at) = entries.pop().unwrap();
        proof {
            assert(all[n] == all.take(n + 1)[n]);
            assert(l.contains_pair(all[n].0@, all[n].1));
            assert forall|j: int| n + 1 <= j < all.len() implies all[j].0@ != name@ by {
                assert(all[n].0@ != all[j].0@);
            }
            assert(agree(before, r, name@));
            assert(entries@ =~= all.take(n));
        }
        let found = index_remove(&mut others, &name);
        proof {
            assert forall|other: Seq<u8>|
                (forall|j: int| n <= j < all.len() ==> all[j].0@ != other) implies #[trigger] agree(
                index_entries(&others),
                r,
                other,
            ) by {
                assert(all[n].0@ != other);
                assert(agree(before, r, other));
            }
        }
        let ghost old_source = source;
        match found {
            Some(other) => {
                pairs.push((at, other));
                proof {
                    source = source.push(n);
                }
            },
            None => {},
        }
        proof {
            assert forall|j: int|
                n <= j < all.len() && r.contains_key((#[trigger] all[j]).0@) implies exists|
                k: int,
            |
                0 <= k < source.len() && #[trigger] source[k] == j by {
                if j > n {
                    let k = choose|k: int| 0 <= k < old_source.len() && old_source[k] == j;
                    assert(source[k] == j);
                } else {
                    assert(source[source.len() - 1] == n);
                }
            }
        }
    }
    proof {
        assert forall|k: int| 0 <= k < pairs.len() implies pairs_a_name(
            l,
            r,
            #[trigger] pairs[k],
        ) by {
            let name = all[source[k]].0@;
            assert(l.contains_key(name));
        }
        assert forall|name: Seq<u8>|
            #![trigger l.contains_key(name)]
            l.contains_key(name) && r.contains_key(name) implies pairs@.contains(
            (l[name], r[name]),
        ) by {
            let j = choose|j: int| 0 <= j < all.len() && (#[trigger] all[j]).0@ == name;
            let k = choose|k: int| 0 <= k < source.len() && source[k] == j;
            assert(pairs@[k] == (l[name], r[name]));
        }
        assert forall|i: int, j: int| 0 <= i < j < pairs.len() implies pairs@[i] != pairs@[j] by {
            assert(source[i] > source[j]);
            let a = all[source[i]].0@;
            let b = all[source[j]].0@;
            assert(all[source[j]].0@ != all[source[i]].0@);
            lemma_name_index(left_names, a);
            lemma_name_index(left_names, b);
        }
        assert forall|k: int| 0 <= k < pairs.len() implies (#[trigger] pairs[k]).0 < left_names.len()
            && pairs[k].1 < right_names.len() && left_names[pairs[k].0 as int]@
            == right_names[pairs[k].1 as int]@ by {
            let name = all[source[k]].0@;
            lemma_name_index(left_names, name);
            lemma_name_index(right_names, name);
        }
    }
    pairs
}

} // verus!
