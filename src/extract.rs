use vstd::prelude::*;

verus! {

/// Something that a `T` can be read off.
pub trait Extract<T> {
    fn extract(&self) -> T;
}

/// Something that holds a `T` that can be borrowed.
pub trait ExtractRef<T> {
    fn extract_ref(&self) -> &T;
}

/// Something that holds a `T` that can be borrowed mutably.
pub trait ExtractMut<T> {
    fn extract_mut(&mut self) -> &mut T;
}

/// Something that a `T` can be read off, given a `K`.
pub trait ExtractFrom<T, K> {
    fn extract_from(&self, from: &K) -> T;
}

/// Something that a `T` can be read off together with a `K`.
pub trait ExtractWith<T, K> {
    fn extract_with(&self, other: &K) -> T;
}

/// What is known of the functions that a document describes.
pub trait ContextFnKnowledge {}

} // verus!
