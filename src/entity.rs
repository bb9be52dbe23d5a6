use vstd::prelude::*;

verus! {

/// An opaque, copyable, totally ordered handle naming one object of the scene.
///
/// Handles are handed out in increasing order by the entity store and never reused, so a
/// handle that outlived its entity can be told apart from every live one.
#[derive(Clone, Copy, Debug, PartialEq, Eq, Structural, PartialOrd, Ord, Hash)]
pub struct LunaEntityId(pub u64);

} // verus!
