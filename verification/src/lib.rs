//! # Traversable
//!
//! A visitor pattern for traversing data structures, with the discipline of a
//! traversal stated and proved.
//!
//! A traversal walks a data structure and reports, in order, an `Enter` and a
//! `Leave` event for every node it passes through (see [`walk::Event`]). A
//! visitor answers each event with `Continue`, or with `Break` to stop the walk
//! at once; the walk then hands that break value back to its caller and reports
//! no further event.
//!
//! Every visitor type describes its own behaviour by two relations (what an
//! `enter` and a `leave` may do to its state and answer), and every traversable
//! type describes the events that its traversal reports. The contract of
//! [`Traversable::traverse`] ties the two together: the visitor ends in the
//! state, with the answer, that running its relations along those events,
//! stopping at the first break, allows. Mutable traversals and folds are
//! described in the same way, together with what they do to the value.
//!
//! A node reaches a visitor as a value of its own type: the visitor methods are
//! generic over `T: 'static`, so a visitor can compare the node's type with the
//! types it cares about (for instance through `core::any::Any`).

use core::ops::ControlFlow;
use vstd::prelude::*;

pub mod cast;
pub mod combinator;
pub mod function;
pub mod impls;
pub mod walk;

use crate::walk::Event;
use crate::walk::erase;
use crate::walk::fold_step;
use crate::walk::folded;
use crate::walk::reachable;
use crate::walk::visit_mut_step;
use crate::walk::visit_step;
use crate::walk::walk;

verus! {

/// A visitor that can be used to traverse a data structure.
///
/// Implement this trait to define custom logic that executes when
/// [`Traversable`] items are visited: `enter` runs before a node's children
/// are processed and `leave` after them. The node is handed over as a value of
/// its own type `T`; a visitor that cares about one type only can compare
/// types (for instance through `core::any::Any`) and ignore the others.
///
/// Returning `ControlFlow::Break` stops the traversal early.
///
/// The spec functions describe the visitor to the verifier: `wf` is the
/// invariant under which it may be called, and `enter_rel` / `leave_rel` relate
/// its state before a call to its state after the call and to the call's answer.
/// They do not mention the node, for the reason given at [`VisitorMut`].
///
/// Each method may also do what its default does, nothing and continue: the
/// default bodies cannot know the relations that an implementation chooses,
/// so the contracts allow that step besides the relations.
pub trait Visitor: Sized {
    /// The type that can be used to break traversal early.
    type Break;

    /// The invariant under which the visitor may be called (by default, none).
    open spec fn wf(&self) -> bool {
        true
    }

    /// What a call of `enter` may do: `post` is the visitor afterwards, `r` its
    /// answer (by default, anything).
    open spec fn enter_rel(&self, post: Self, r: ControlFlow<Self::Break>) -> bool {
        true
    }

    /// What a call of `leave` may do: `post` is the visitor afterwards, `r` its
    /// answer (by default, anything).
    open spec fn leave_rel(&self, post: Self, r: ControlFlow<Self::Break>) -> bool {
        true
    }

    /// Called when the visitor is entering a node.
    ///
    /// Default implementation does nothing and continues traversal.
    fn enter<T: 'static>(&mut self, this: &T) -> (r: ControlFlow<Self::Break>)
        requires
            old(self).wf(),
        ensures
            final(self).wf(),
            old(self).enter_rel(*final(self), r) || (*final(self) == *old(self) && r
                == ControlFlow::<Self::Break, ()>::Continue(())),
    {
        ControlFlow::Continue(())
    }

    /// Called when the visitor is leaving a node.
    ///
    /// Default implementation does nothing and continues traversal.
    fn leave<T: 'static>(&mut self, this: &T) -> (r: ControlFlow<Self::Break>)
        requires
            old(self).wf(),
        ensures
            final(self).wf(),
            old(self).leave_rel(*final(self), r) || (*final(self) == *old(self) && r
                == ControlFlow::<Self::Break, ()>::Continue(())),
    {
        ControlFlow::Continue(())
    }
}

/// A visitor that can be used to traverse a mutable data structure.
///
/// Implement this trait to define custom logic that executes when
/// [`TraversableMut`] items are visited. `enter_mut` runs before a node's
/// children are processed and `leave_mut` after them; both may change the node.
///
/// The relations speak of the visitor and its answer, not of the node: the node
/// has a type parameter of the method, and a spec function of the trait generic
/// over that type cannot be overridden by an implementation in this verifier
/// (it stops with an internal error). An implementation may state more of the
/// node in its own `ensures`, as the visitors built from closures do.
pub trait VisitorMut: Sized {
    /// The type that can be used to break traversal early.
    type Break;

    /// The invariant under which the visitor may be called (by default, none).
    open spec fn wf_mut(&self) -> bool {
        true
    }

    /// What a call of `enter_mut` may do to the visitor and answer (by default, anything).
    open spec fn enter_mut_rel(&self, post: Self, r: ControlFlow<Self::Break>) -> bool {
        true
    }

    /// What a call of `leave_mut` may do to the visitor and answer (by default, anything).
    open spec fn leave_mut_rel(&self, post: Self, r: ControlFlow<Self::Break>) -> bool {
        true
    }

    /// Called when the visitor is entering a mutable node.
    ///
    /// Default implementation does nothing and continues traversal.
    fn enter_mut<T: 'static>(&mut self, this: &mut T) -> (r: ControlFlow<Self::Break>)
        requires
            old(self).wf_mut(),
        ensures
            final(self).wf_mut(),
            old(self).enter_mut_rel(*final(self), r) || (*final(self) == *old(self) && r
                == ControlFlow::<Self::Break, ()>::Continue(()) && *final(this) == *old(this)),
    {
        ControlFlow::Continue(())
    }

    /// Called when the visitor is leaving a mutable node.
    ///
    /// Default implementation does nothing and continues traversal.
    fn leave_mut<T: 'static>(&mut self, this: &mut T) -> (r: ControlFlow<Self::Break>)
        requires
            old(self).wf_mut(),
        ensures
            final(self).wf_mut(),
            old(self).leave_mut_rel(*final(self), r) || (*final(self) == *old(self) && r
                == ControlFlow::<Self::Break, ()>::Continue(()) && *final(this) == *old(this)),
    {
        ControlFlow::Continue(())
    }
}

/// A folder that can transform an owned data structure while traversing it.
///
/// [`TraversableFold`] calls [`Folder::enter`] before folding a node's children
/// and [`Folder::leave`] after folding them. Each call receives the node by value
/// and hands back the node that continues through the traversal, or breaks.
///
/// The relations leave out the node handed back (`erase`), for the reason given
/// at [`VisitorMut`].
pub trait Folder: Sized {
    /// The type that can be used to break traversal early.
    type Break;

    /// The invariant under which the folder may be called (by default, none).
    open spec fn wf_fold(&self) -> bool {
        true
    }

    /// What a call of `enter` may do to the folder and answer, the node handed
    /// back left out of the answer (by default, anything).
    open spec fn fold_enter_rel(&self, post: Self, r: ControlFlow<Self::Break>) -> bool {
        true
    }

    /// What a call of `leave` may do to the folder and answer, the node handed
    /// back left out of the answer (by default, anything).
    open spec fn fold_leave_rel(&self, post: Self, r: ControlFlow<Self::Break>) -> bool {
        true
    }

    /// Called when the folder is entering an owned node.
    ///
    /// Default implementation returns the node unchanged and continues traversal.
    fn enter<T: 'static>(&mut self, this: T) -> (r: ControlFlow<Self::Break, T>)
        requires
            old(self).wf_fold(),
        ensures
            final(self).wf_fold(),
            old(self).fold_enter_rel(*final(self), erase(r)) || (*final(self) == *old(self) && r
                == ControlFlow::<Self::Break, T>::Continue(this)),
    {
        ControlFlow::Continue(this)
    }

    /// Called when the folder is leaving an owned node.
    ///
    /// Default implementation returns the node unchanged and continues traversal.
    fn leave<T: 'static>(&mut self, this: T) -> (r: ControlFlow<Self::Break, T>)
        requires
            old(self).wf_fold(),
        ensures
            final(self).wf_fold(),
            old(self).fold_leave_rel(*final(self), erase(r)) || (*final(self) == *old(self) && r
                == ControlFlow::<Self::Break, T>::Continue(this)),
    {
        ControlFlow::Continue(this)
    }
}

/// A trait for types that can be traversed by a visitor.
///
/// `events` is the sequence of enter and leave events that a traversal of the
/// value reports, in order. For a type whose `reports_events` holds, the
/// contract of `traverse` says that the visitor sees exactly these events, one
/// after the other, until one of its answers is a break, which the traversal
/// returns. A type that does not describe its events (the default) makes no
/// such claim. In any case the visitor ends where some walk of its own steps
/// leads it.
pub trait Traversable {
    /// Whether `events` describes the traversal of values of this type (by default, not).
    open spec fn reports_events() -> bool {
        false
    }

    /// The events that a traversal of this value reports, in order.
    open spec fn events(&self) -> Seq<Event> {
        Seq::empty()
    }

    /// Traverse the data structure with the given visitor.
    fn traverse<V: Visitor>(&self, visitor: &mut V) -> (r: ControlFlow<V::Break>)
        requires
            old(visitor).wf(),
        ensures
            final(visitor).wf(),
            reachable(visit_step::<V>(), *old(visitor), *final(visitor), r),
            Self::reports_events() ==> walk(
                visit_step::<V>(),
                self.events(),
                *old(visitor),
                *final(visitor),
                r,
            ),
    ;
}

/// A trait for types that can be traversed mutably by a visitor.
///
/// A visitor may reshape a node before its children are visited, so the events
/// of a mutable traversal are not fixed by the value beforehand. `mut_steps`
/// relates the value before a traversal, the value after it, and the events
/// reported; `done` tells whether the traversal went through to the end (it
/// did not when a visitor's answer broke it, at the last event reported). For a
/// type whose `reports_mut_steps` holds, the contract of `traverse_mut` says
/// that the value changed and the visitor was walked along such events. In any
/// case the visitor ends where some walk of its own steps leads it.
pub trait TraversableMut {
    /// Whether `mut_steps` describes the mutable traversals of values of this type (by default, not).
    open spec fn reports_mut_steps() -> bool {
        false
    }

    /// A mutable traversal may turn `self` into `post` while reporting `es`;
    /// `done`: it went through to the end (by default, anything).
    open spec fn mut_steps(&self, post: &Self, es: Seq<Event>, done: bool) -> bool {
        true
    }

    /// Traverse the mutable data structure with the given visitor.
    fn traverse_mut<V: VisitorMut>(&mut self, visitor: &mut V) -> (r: ControlFlow<V::Break>)
        requires
            old(visitor).wf_mut(),
        ensures
            final(visitor).wf_mut(),
            reachable(visit_mut_step::<V>(), *old(visitor), *final(visitor), r),
            Self::reports_mut_steps() ==> exists|es: Seq<Event>|
                old(self).mut_steps(final(self), es, r is Continue) && #[trigger] walk(
                    visit_mut_step::<V>(),
                    es,
                    *old(visitor),
                    *final(visitor),
                    r,
                ),
    ;
}

/// A trait for types that can be traversed and transformed by a folder.
///
/// This trait consumes `self`, folds its children, and returns the rebuilt value.
/// `fold_steps` relates the value folded, the value handed back (`None` when a
/// folder's answer broke the fold), and the events reported. For a type whose
/// `reports_fold_steps` holds, the contract of `traverse_fold` says that the
/// fold went so and the folder was walked along those events. In any case the
/// folder ends where some walk of its own steps leads it.
pub trait TraversableFold: Sized {
    /// Whether `fold_steps` describes the folds of values of this type (by default, not).
    open spec fn reports_fold_steps() -> bool {
        false
    }

    /// A fold of `self` may hand back `out` (`None`: it stopped at a break)
    /// while reporting `es` (by default, anything).
    open spec fn fold_steps(&self, out: Option<Self>, es: Seq<Event>) -> bool {
        true
    }

    /// Traverse and transform the data structure with the given folder.
    fn traverse_fold<V: Folder>(self, folder: &mut V) -> (r: ControlFlow<V::Break, Self>)
        requires
            old(folder).wf_fold(),
        ensures
            final(folder).wf_fold(),
            reachable(fold_step::<V>(), *old(folder), *final(folder), erase(r)),
            Self::reports_fold_steps() ==> exists|es: Seq<Event>|
                self.fold_steps(folded(r), es) && #[trigger] walk(
                    fold_step::<V>(),
                    es,
                    *old(folder),
                    *final(folder),
                    erase(r),
                ),
    ;
}

} // verus!
