//! The ignore filter: keys whose differences are not reported.

use crate::config::Key;
use crate::diff::Difference;
use crate::table::{set_contains, set_insert, set_is_empty, set_members, set_new, KeyView, Tokens};
use crate::text::{collect, find_in, split_lines, strip_cr, to_chars};
use vstd::prelude::*;

verus! {

/// A set of names, of sections and of properties, that are to be ignored.
#[derive(Debug)]
pub struct Ignored {
    set: Tokens,
}

impl View for Ignored {
    type V = Set<Seq<char>>;

    closed spec fn view(&self) -> Set<Seq<char>> {
        set_members(&self.set)
    }
}

/// The lines of a text.
pub open spec fn text_lines(text: Seq<char>) -> Seq<Seq<char>> {
    split_lines(text, '\n', '\r')
}

/// Whether `names` has the section of `key` or its property. A name counts
/// only as a whole, and with no names nothing is ignored.
pub open spec fn ignores(names: Set<Seq<char>>, key: KeyView) -> bool {
    names.contains(key.0) || names.contains(key.1)
}

/// With no names, no key is ignored.
pub proof fn lemma_no_names_ignore_nothing(key: KeyView)
    ensures
        !ignores(Set::<Seq<char>>::empty(), key),
{
}

/// A sequence that starts with `first` holds `first` and what the rest
/// holds.
proof fn lemma_to_set_first<A>(first: A, rest: Seq<A>)
    ensures
        (seq![first] + rest).to_set() == rest.to_set().insert(first),
{
    let all = seq![first] + rest;
    assert forall|a: A| all.to_set().contains(a) == rest.to_set().insert(first).contains(a) by {
        if all.contains(a) {
            let i = choose|i: int| 0 <= i < all.len() && all[i] == a;
            if i > 0 {
                assert(rest[i - 1] == a);
            }
        }
        if rest.contains(a) {
            let i = choose|i: int| 0 <= i < rest.len() && rest[i] == a;
            assert(all[i + 1] == a);
        }
        if a == first {
            assert(all[0] == a);
        }
    }
    assert(all.to_set() =~= rest.to_set().insert(first));
}

impl Ignored {
    /// A set without names.
    pub fn new() -> (ignored: Self)
        ensures
            ignored@ == Set::<Seq<char>>::empty(),
    {
        Ignored { set: set_new() }
    }

    /// Adds the names that `config` lists, one on each line. A line is a
    /// name as it stands, untrimmed; an empty line is the empty name.
    pub fn initialize(&mut self, config: &str)
        ensures
            final(self)@ == old(self)@.union(text_lines(config@).to_set()),
    {
        let chars = to_chars(config);
        let mut pos: usize = 0;
        proof {
            assert(chars@.skip(0) =~= config@);
        }
        while pos < chars.len()
            invariant
                pos <= chars.len(),
                chars@ == config@,
                self@.union(text_lines(chars@.skip(pos as int)).to_set()) == old(self)@.union(
                    text_lines(config@).to_set(),
                ),
            decreases chars.len() - pos,
        {
            let ghost rest = chars@.skip(pos as int);
            let ghost held = self@;
            let end: usize = find_in(&chars, pos, chars.len(), '\n');
            let mut stop: usize = end;
            let mut next: usize = end;
            if end < chars.len() {
                next = end + 1;
                if end > pos && chars[end - 1] == '\r' {
                    stop = end - 1;
                }
            }
            let name = collect(&chars, pos, stop);
            proof {
                let tail = text_lines(chars@.skip(next as int));
                assert(chars@.subrange(pos as int, chars@.len() as int) =~= rest);
                if end < chars.len() {
                    assert(rest.take(end - pos) =~= chars@.subrange(pos as int, end as int));
                    assert(strip_cr(rest.take(end - pos), '\r') =~= name@);
                    assert(rest.skip(end - pos + 1) =~= chars@.skip(next as int));
                    assert(text_lines(rest) == seq![name@] + tail);
                } else {
                    assert(rest =~= name@);
                    assert(tail =~= Seq::<Seq<char>>::empty());
                    assert(text_lines(rest) =~= seq![name@] + tail);
                }
                lemma_to_set_first(name@, tail);
                assert(held.insert(name@).union(tail.to_set()) =~= held.union(
                    tail.to_set().insert(name@),
                ));
            }
            set_insert(&mut self.set, name);
            pos = next;
        }
        proof {
            assert(chars@.skip(pos as int) =~= Seq::<char>::empty());
            assert(text_lines(Seq::<char>::empty()).to_set() =~= Set::<Seq<char>>::empty());
            assert(self@.union(Set::<Seq<char>>::empty()) =~= self@);
        }
    }

    /// Whether differences at `key` are to be left out: whether the set has
    /// the name of its section or its property.
    pub fn is_ignored(&self, key: &Key) -> (ignored: bool)
        ensures
            ignored == ignores(self@, key@),
    {
        if set_is_empty(&self.set) {
            return false;
        }
        set_contains(&self.set, key.section) || set_contains(&self.set, key.property.as_str())
    }

    /// The differences that are not ignored, in the order in which they
    /// came.
    pub fn retain<'a>(&self, differences: Vec<Difference<'a>>) -> (kept: Vec<Difference<'a>>)
        ensures
            kept@ == differences@.filter(|d: Difference| !ignores(self@, d.key@)),
    {
        let ghost wanted = |d: Difference| !ignores(self@, d.key@);
        let ghost all = differences@;
        let mut kept: Vec<Difference<'a>> = Vec::new();
        for difference in it: differences
            invariant
                it.seq() == all,
                wanted == |d: Difference| !ignores(self@, d.key@),
                kept@ == all.take(it.index() as int).filter(wanted),
        {
            proof {
                reveal(Seq::filter);
                let upto = all.take(it.index() as int + 1);
                assert(upto.drop_last() =~= all.take(it.index() as int));
                assert(upto.last() == difference);
            }
            if !self.is_ignored(&difference.key) {
                kept.push(difference);
            }
        }
        proof {
            assert(all.take(all.len() as int) =~= all);
        }
        kept
    }
}

impl Default for Ignored {
    fn default() -> (ignored: Self)
        ensures
            ignored@ == Set::<Seq<char>>::empty(),
    {
        Ignored::new()
    }
}

} // verus!
