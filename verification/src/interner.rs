//! The section interner: where the section names of a parse session live.

use vstd::prelude::*;

verus! {

/// `bumpalo::Bump`, an opaque value.
#[verifier::external_type_specification]
#[verifier::external_body]
pub struct ExBump<const MIN_ALIGN: usize>(bumpalo::Bump<MIN_ALIGN>);

/// The allocation limit that an arena was given, if it was given one.
pub uninterp spec fn arena_limit(arena: &bumpalo::Bump) -> Option<nat>;

/// `Bump::new`: an arena without an allocation limit.
#[verifier::external_body]
fn arena_new() -> (arena: bumpalo::Bump)
    ensures
        arena_limit(&arena) is None,
{
    bumpalo::Bump::new()
}

/// `Bump::alloc_str`: a copy of the string that lives as long as the arena.
/// With an allocation limit the call may panic, so it is made only without
/// one.
#[verifier::external_body]
fn arena_alloc_str<'a>(arena: &'a bumpalo::Bump, text: &str) -> (copy: &'a str)
    requires
        arena_limit(arena) is None,
    ensures
        copy@ == text@,
{
    arena.alloc_str(text)
}

/// Holds the section names of a parse session, so that a key carries a
/// reference to the name of its section and no copy of it.
///
/// A name that is interned twice is held twice; keys compare their sections
/// by name, so that this makes no difference to them.
pub struct Interner {
    arena: bumpalo::Bump,
}

impl Interner {
    #[verifier::type_invariant]
    spec fn unlimited(self) -> bool {
        self.takes_any_name()
    }

    /// An interner that holds no names yet and takes any name.
    pub fn new() -> (interner: Self)
        ensures
            interner.takes_any_name(),
    {
        Interner { arena: arena_new() }
    }

    /// Takes a name in and hands back a reference to it that is good for as
    /// long as the interner is.
    pub fn intern<'a>(&'a self, name: &str) -> (held: &'a str)
        ensures
            held@ == name@,
    {
        proof {
            use_type_invariant(self);
        }
        arena_alloc_str(&self.arena, name)
    }

    /// Whether the interner takes every name that it is given: its arena
    /// was made without an allocation limit, so that no name is refused for
    /// want of room. Every interner is made so, and stays so.
    pub closed spec fn takes_any_name(&self) -> bool {
        arena_limit(&self.arena) is None
    }
}

} // verus!
