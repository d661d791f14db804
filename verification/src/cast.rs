//! Type tests on nodes.
//!
//! A node reaches a visitor as a value of its own type; the visitors built from
//! closures act only on nodes of one chosen type. These items ask the runtime
//! whether a node has that type (through `core::any::Any` and `TypeId`). Which
//! type a generic parameter stands for cannot be named in a contract, so none of
//! them states more than what holds of every outcome; the code that uses them
//! is verified for every outcome.

use core::marker::PhantomData;
use vstd::prelude::*;

verus! {

/// Evidence that the types `A` and `B` are one and the same type.
///
/// A value of it is made only by [`same_type`], after comparing the two types.
pub struct SameType<A, B> {
    a: PhantomData<A>,
    b: PhantomData<B>,
}

/// Compares `core::any::TypeId::of::<A>()` with `core::any::TypeId::of::<B>()`
/// and returns evidence of equality when they are equal, `None` otherwise.
/// Not stated: which outcome comes, since a contract cannot speak of types.
#[verifier::external_body]
pub(crate) fn same_type<A: 'static, B: 'static>() -> (r: Option<SameType<A, B>>) {
    if core::any::TypeId::of::<A>() == core::any::TypeId::of::<B>() {
        Some(SameType { a: PhantomData, b: PhantomData })
    } else {
        None
    }
}

impl<A: 'static, B: 'static> SameType<A, B> {
    /// Moves `x` from type `A` to type `B`, one type, through
    /// `Box<dyn Any>::downcast`; the evidence makes the downcast succeed.
    /// Not stated: that the value is kept, since `A` and `B` cannot be compared
    /// in a contract.
    #[verifier::external_body]
    pub(crate) fn cast(&self, x: A) -> (r: B) {
        let boxed: std::boxed::Box<dyn core::any::Any> = std::boxed::Box::new(x);
        *boxed.downcast::<B>().ok().unwrap()
    }

    /// Moves `x` back from type `B` to type `A`, through `Box<dyn Any>::downcast`;
    /// the evidence makes the downcast succeed.
    /// Not stated: that the value is kept, since `A` and `B` cannot be compared
    /// in a contract.
    #[verifier::external_body]
    pub(crate) fn cast_back(&self, x: B) -> (r: A) {
        let boxed: std::boxed::Box<dyn core::any::Any> = std::boxed::Box::new(x);
        *boxed.downcast::<A>().ok().unwrap()
    }
}

/// Views `node` as a `T` through `<dyn Any>::downcast_ref`: `Some` exactly when
/// the node's type is `T`.
/// Not stated: which outcome comes, and that the view is the node itself,
/// since a contract cannot speak of types.
#[verifier::external_body]
pub(crate) fn downcast_ref<N: 'static, T: 'static>(node: &N) -> (r: Option<&T>) {
    (node as &dyn core::any::Any).downcast_ref::<T>()
}

/// Views `node` as a mutable `T` through `<dyn Any>::downcast_mut`: `Some`
/// exactly when the node's type is `T`, and then the view is the node itself.
/// Stated: `None` borrows nothing, so the node stays as it was; with `Some`, the
/// node stays as it was when the view does.
/// Not stated: which outcome comes, and that the view's value is the node's
/// value, since a contract cannot compare values of two type parameters.
#[verifier::external_body]
pub(crate) fn downcast_mut<N: 'static, T: 'static>(node: &mut N) -> (r: Option<&mut T>)
    ensures
        r is None ==> *final(node) == *old(node),
        r matches Some(x) ==> (*final(x) == *x ==> *final(node) == *old(node)),
{
    (node as &mut dyn core::any::Any).downcast_mut::<T>()
}

} // verus!
