//! The arena that holds the vertices of a search.

use bumpalo::Bump;
use vstd::prelude::*;

verus! {

/// `bumpalo::Bump`, an arena. Nothing is claimed of what it holds.
#[verifier::external_type_specification]
#[verifier::external_body]
pub struct ExBump(bumpalo::Bump);

/// `bumpalo::Bump::new` makes an arena. Nothing is claimed of it.
pub assume_specification[ bumpalo::Bump::new ]() -> (arena: bumpalo::Bump)
;

/// Calls `bumpalo::Bump::alloc`, which moves a value into the arena and hands out
/// a reference to it there: the reference is to a value equal to the one moved in.
/// As with a `Vec`, nothing is said of what happens when memory runs out.
#[verifier::external_body]
pub(crate) fn store<'b, T>(arena: &'b Bump, value: T) -> (stored: &'b T)
    ensures
        *stored == value,
{
    arena.alloc(value)
}

} // verus!
