//! Visitors and folders from functions or closures.
//!
//! A visitor built here acts only on nodes of one type `T`, which it finds by a
//! runtime type test (see [`crate::cast`]). What the contracts say:
//!
//! - `enter_item`, `leave_item`, `enter_item_mut`, `leave_item_mut` take the
//!   outcome of the type test as an argument and are exact: no node of type `T`
//!   gives `Continue` and leaves the node as it was; a node `x` of type `T` is
//!   handed to the closure, whose answer is the visitor's answer and whose
//!   change to `x` stays in `x`. For folders, `enter_node` and `leave_node` hand
//!   a node of another type back as it came, and otherwise answer as the
//!   closure does; the node they hand back then is the closure's, moved back to
//!   the node's type, which a contract cannot relate to the closure's result.
//! - `enter`, `leave`, `enter_mut`, `leave_mut` state what holds whatever the
//!   type test finds: the visitor value is unchanged; the answer is `Continue`
//!   or an answer of the closure; a closure that always continues makes the
//!   visitor always continue, and a closure that never changes its node makes
//!   the visitor leave every node as it was. That the closure receives this
//!   very node, and which nodes have type `T`, is not stated: a contract cannot
//!   compare the node's type with `T`.

use core::marker::PhantomData;
use core::ops::ControlFlow;
use vstd::prelude::*;

use crate::Folder;
use crate::Traversable;
use crate::Visitor;
use crate::VisitorMut;
use crate::cast::SameType;
use crate::cast::downcast_mut;
use crate::cast::downcast_ref;
use crate::cast::same_type;
use crate::walk::Event;
use crate::walk::erase;
use crate::walk::fold_step;
use crate::walk::reachable;
use crate::walk::visit_mut_step;
use crate::walk::visit_step;
use crate::walk::walk;
use crate::walk::walk_keeps_state;

verus! {

/// Type returned by the `visitor` factories.
pub struct FnVisitor<T, B, F1, F2> {
    enter: F1,
    leave: F2,
    marker_type: PhantomData<T>,
    marker_break: PhantomData<B>,
}

impl<T, B, F1, F2> FnVisitor<T, B, F1, F2> {
    /// The closure called on entering a node of type `T`.
    pub closed spec fn enter_fn(&self) -> F1 {
        self.enter
    }

    /// The closure called on leaving a node of type `T`.
    pub closed spec fn leave_fn(&self) -> F2 {
        self.leave
    }
}

impl<T: 'static, B, F1, F2> FnVisitor<T, B, F1, F2> where
    F1: FnMut(&T) -> ControlFlow<B>,
    F2: FnMut(&T) -> ControlFlow<B>,
 {
    /// Answers an entered node that, seen as a `T`, is `item` (`None`: the node is not a `T`).
    pub fn enter_item(&mut self, item: Option<&T>) -> (r: ControlFlow<B>)
        requires
            old(self).wf(),
        ensures
            *final(self) == *old(self),
            item is None ==> r == ControlFlow::<B, ()>::Continue(()),
            item matches Some(x) ==> call_ensures(old(self).enter_fn(), (x,), r),
    {
        match item {
            Some(x) => {
                assert(call_requires(self.enter_fn(), (x,)));
                (self.enter)(x)
            },
            None => ControlFlow::Continue(()),
        }
    }

    /// Answers a node being left that, seen as a `T`, is `item` (`None`: the node is not a `T`).
    pub fn leave_item(&mut self, item: Option<&T>) -> (r: ControlFlow<B>)
        requires
            old(self).wf(),
        ensures
            *final(self) == *old(self),
            item is None ==> r == ControlFlow::<B, ()>::Continue(()),
            item matches Some(x) ==> call_ensures(old(self).leave_fn(), (x,), r),
    {
        match item {
            Some(x) => {
                assert(call_requires(self.leave_fn(), (x,)));
                (self.leave)(x)
            },
            None => ControlFlow::Continue(()),
        }
    }
}

impl<T: 'static, B, F1, F2> Visitor for FnVisitor<T, B, F1, F2> where
    F1: FnMut(&T) -> ControlFlow<B>,
    F2: FnMut(&T) -> ControlFlow<B>,
 {
    type Break = B;

    /// Both closures accept every node of type `T`.
    open spec fn wf(&self) -> bool {
        &&& forall|x: &T| call_requires(self.enter_fn(), (x,))
        &&& forall|x: &T| call_requires(self.leave_fn(), (x,))
    }

    /// The visitor stays as it is, and answers `Continue` (a node of another
    /// type) or what the enter closure answers for some node of type `T`.
    open spec fn enter_rel(&self, post: Self, r: ControlFlow<B>) -> bool {
        &&& post == *self
        &&& (r == ControlFlow::<B, ()>::Continue(()) || exists|x: &T|
            call_ensures(self.enter_fn(), (x,), r))
    }

    /// The visitor stays as it is, and answers `Continue` (a node of another
    /// type) or what the leave closure answers for some node of type `T`.
    open spec fn leave_rel(&self, post: Self, r: ControlFlow<B>) -> bool {
        &&& post == *self
        &&& (r == ControlFlow::<B, ()>::Continue(()) || exists|x: &T|
            call_ensures(self.leave_fn(), (x,), r))
    }

    fn enter<N: 'static>(&mut self, this: &N) -> (r: ControlFlow<B>)
        ensures
            *final(self) == *old(self),
            r == ControlFlow::<B, ()>::Continue(()) || exists|x: &T|
                call_ensures(old(self).enter_fn(), (x,), r),
            (forall|x: &T, o: ControlFlow<B>|
                #[trigger] call_ensures(old(self).enter_fn(), (x,), o) ==> o
                    == ControlFlow::<B, ()>::Continue(())) ==> r == ControlFlow::<B, ()>::Continue(()),
    {
        let item = downcast_ref::<N, T>(this);
        self.enter_item(item)
    }

    fn leave<N: 'static>(&mut self, this: &N) -> (r: ControlFlow<B>)
        ensures
            *final(self) == *old(self),
            r == ControlFlow::<B, ()>::Continue(()) || exists|x: &T|
                call_ensures(old(self).leave_fn(), (x,), r),
            (forall|x: &T, o: ControlFlow<B>|
                #[trigger] call_ensures(old(self).leave_fn(), (x,), o) ==> o
                    == ControlFlow::<B, ()>::Continue(())) ==> r == ControlFlow::<B, ()>::Continue(()),
    {
        let item = downcast_ref::<N, T>(this);
        self.leave_item(item)
    }
}

impl<T: 'static, B, F1, F2> FnVisitor<T, B, F1, F2> where
    F1: FnMut(&mut T) -> ControlFlow<B>,
    F2: FnMut(&mut T) -> ControlFlow<B>,
 {
    /// The invariant of a mutable visitor built from closures: both accept every node.
    pub proof fn lemma_wf_mut(&self)
        ensures
            self.wf_mut() <==> (forall|x: &mut T| call_requires(self.enter_fn(), (x,))) && (forall|
                x: &mut T,
            | call_requires(self.leave_fn(), (x,))),
    {
    }

    /// Answers an entered node that, seen as a `T`, is `item` (`None`: the node is not a `T`).
    pub fn enter_item_mut(&mut self, item: Option<&mut T>) -> (r: ControlFlow<B>)
        requires
            old(self).wf_mut(),
        ensures
            *final(self) == *old(self),
            item is None ==> r == ControlFlow::<B, ()>::Continue(()),
            item matches Some(x) ==> exists|y: &mut T|
                *y == *x && *final(y) == *final(x) && call_ensures(old(self).enter_fn(), (y,), r),
    {
        match item {
            Some(x) => {
                assert(call_requires(self.enter_fn(), (x,)));
                (self.enter)(x)
            },
            None => ControlFlow::Continue(()),
        }
    }

    /// Answers a node being left that, seen as a `T`, is `item` (`None`: the node is not a `T`).
    pub fn leave_item_mut(&mut self, item: Option<&mut T>) -> (r: ControlFlow<B>)
        requires
            old(self).wf_mut(),
        ensures
            *final(self) == *old(self),
            item is None ==> r == ControlFlow::<B, ()>::Continue(()),
            item matches Some(x) ==> exists|y: &mut T|
                *y == *x && *final(y) == *final(x) && call_ensures(old(self).leave_fn(), (y,), r),
    {
        match item {
            Some(x) => {
                assert(call_requires(self.leave_fn(), (x,)));
                (self.leave)(x)
            },
            None => ControlFlow::Continue(()),
        }
    }
}

impl<T: 'static, B, F1, F2> VisitorMut for FnVisitor<T, B, F1, F2> where
    F1: FnMut(&mut T) -> ControlFlow<B>,
    F2: FnMut(&mut T) -> ControlFlow<B>,
 {
    type Break = B;

    /// Both closures accept every node of type `T`.
    open spec fn wf_mut(&self) -> bool {
        &&& forall|x: &mut T| call_requires(self.enter_fn(), (x,))
        &&& forall|x: &mut T| call_requires(self.leave_fn(), (x,))
    }

    /// The visitor stays as it is, and answers `Continue` (a node of another
    /// type) or what the enter closure answers for some node of type `T`.
    open spec fn enter_mut_rel(&self, post: Self, r: ControlFlow<B>) -> bool {
        &&& post == *self
        &&& (r == ControlFlow::<B, ()>::Continue(()) || exists|x: &mut T|
            call_ensures(self.enter_fn(), (x,), r))
    }

    /// The visitor stays as it is, and answers `Continue` (a node of another
    /// type) or what the leave closure answers for some node of type `T`.
    open spec fn leave_mut_rel(&self, post: Self, r: ControlFlow<B>) -> bool {
        &&& post == *self
        &&& (r == ControlFlow::<B, ()>::Continue(()) || exists|x: &mut T|
            call_ensures(self.leave_fn(), (x,), r))
    }

    /// A node that is not a `T` is left as it was and answered with `Continue`;
    /// otherwise the answer is one of the closure's. A closure that never
    /// changes the node it is given leaves every node as it was.
    fn enter_mut<N: 'static>(&mut self, this: &mut N) -> (r: ControlFlow<B>)
        ensures
            *final(self) == *old(self),
            (forall|y: &mut T, o: ControlFlow<B>|
                #[trigger] call_ensures(old(self).enter_fn(), (y,), o) ==> *final(y) == *y)
                ==> *final(this) == *old(this),
            (r == ControlFlow::<B, ()>::Continue(()) && *final(this) == *old(this)) || exists|
                y: &mut T,
            | call_ensures(old(self).enter_fn(), (y,), r),
            (forall|y: &mut T, o: ControlFlow<B>|
                #[trigger] call_ensures(old(self).enter_fn(), (y,), o) ==> o
                    == ControlFlow::<B, ()>::Continue(())) ==> r == ControlFlow::<B, ()>::Continue(()),
    {
        let item = downcast_mut::<N, T>(this);
        self.enter_item_mut(item)
    }

    /// A node that is not a `T` is left as it was and answered with `Continue`;
    /// otherwise the answer is one of the closure's. A closure that never
    /// changes the node it is given leaves every node as it was.
    fn leave_mut<N: 'static>(&mut self, this: &mut N) -> (r: ControlFlow<B>)
        ensures
            *final(self) == *old(self),
            (forall|y: &mut T, o: ControlFlow<B>|
                #[trigger] call_ensures(old(self).leave_fn(), (y,), o) ==> *final(y) == *y)
                ==> *final(this) == *old(this),
            (r == ControlFlow::<B, ()>::Continue(()) && *final(this) == *old(this)) || exists|
                y: &mut T,
            | call_ensures(old(self).leave_fn(), (y,), r),
            (forall|y: &mut T, o: ControlFlow<B>|
                #[trigger] call_ensures(old(self).leave_fn(), (y,), o) ==> o
                    == ControlFlow::<B, ()>::Continue(())) ==> r == ControlFlow::<B, ()>::Continue(()),
    {
        let item = downcast_mut::<N, T>(this);
        self.leave_item_mut(item)
    }
}

/// Create a visitor that only visits items of a specific type from `enter` and `leave` closures.
///
/// This is a convenience function for creating simple visitors without defining
/// a new struct and implementing the [`Visitor`] trait manually.
pub fn visitor<T, B, F1, F2>(enter: F1, leave: F2) -> (v: FnVisitor<T, B, F1, F2>) where
    T: 'static,
    F1: FnMut(&T) -> ControlFlow<B>,
    F2: FnMut(&T) -> ControlFlow<B>,

    ensures
        v.enter_fn() == enter,
        v.leave_fn() == leave,
        v.wf() <==> (forall|x: &T| call_requires(enter, (x,))) && (forall|x: &T|
            call_requires(leave, (x,))),
{
    FnVisitor { enter, leave, marker_type: PhantomData, marker_break: PhantomData }
}

/// Similar to [`visitor`], but the closure will only be called on entering.
pub fn visitor_enter<T, B, F>(
    enter: F,
) -> (v: FnVisitor<T, B, F, impl FnMut(&T) -> ControlFlow<B>>) where
    T: 'static,
    F: FnMut(&T) -> ControlFlow<B>,

    ensures
        v.enter_fn() == enter,
        v.wf() <==> forall|x: &T| call_requires(enter, (x,)),
        forall|x: &T| call_requires(v.leave_fn(), (x,)),
        forall|x: &T, o: ControlFlow<B>|
            call_ensures(v.leave_fn(), (x,), o) ==> o == ControlFlow::<B, ()>::Continue(()),
{
    let leave = |_x: &T| -> (o: ControlFlow<B>)
        ensures
            o == ControlFlow::<B, ()>::Continue(()),
        { ControlFlow::Continue(()) };
    FnVisitor {
        enter,
        leave,
        marker_type: PhantomData,
        marker_break: PhantomData,
    }
}

/// Similar to [`visitor`], but the closure will only be called on leaving.
pub fn visitor_leave<T, B, F>(
    leave: F,
) -> (v: FnVisitor<T, B, impl FnMut(&T) -> ControlFlow<B>, F>) where
    T: 'static,
    F: FnMut(&T) -> ControlFlow<B>,

    ensures
        v.leave_fn() == leave,
        v.wf() <==> forall|x: &T| call_requires(leave, (x,)),
        forall|x: &T| call_requires(v.enter_fn(), (x,)),
        forall|x: &T, o: ControlFlow<B>|
            call_ensures(v.enter_fn(), (x,), o) ==> o == ControlFlow::<B, ()>::Continue(()),
{
    let enter = |_x: &T| -> (o: ControlFlow<B>)
        ensures
            o == ControlFlow::<B, ()>::Continue(()),
        { ControlFlow::Continue(()) };
    FnVisitor {
        enter,
        leave,
        marker_type: PhantomData,
        marker_break: PhantomData,
    }
}

/// Create a visitor that only visits mutable items of a specific type from `enter` and `leave`
/// closures.
pub fn visitor_mut<T, B, F1, F2>(enter: F1, leave: F2) -> (v: FnVisitor<T, B, F1, F2>) where
    T: 'static,
    F1: FnMut(&mut T) -> ControlFlow<B>,
    F2: FnMut(&mut T) -> ControlFlow<B>,

    ensures
        v.enter_fn() == enter,
        v.leave_fn() == leave,
        v.wf_mut() <==> (forall|x: &mut T| call_requires(enter, (x,))) && (forall|x: &mut T|
            call_requires(leave, (x,))),
{
    FnVisitor { enter, leave, marker_type: PhantomData, marker_break: PhantomData }
}

/// Similar to [`visitor_mut`], but the closure will only be called on entering.
pub fn visitor_enter_mut<T, B, F>(
    enter: F,
) -> (v: FnVisitor<T, B, F, impl FnMut(&mut T) -> ControlFlow<B>>) where
    T: 'static,
    F: FnMut(&mut T) -> ControlFlow<B>,

    ensures
        v.enter_fn() == enter,
        v.wf_mut() <==> forall|x: &mut T| call_requires(enter, (x,)),
        forall|x: &mut T| call_requires(v.leave_fn(), (x,)),
        forall|x: &mut T, o: ControlFlow<B>|
            call_ensures(v.leave_fn(), (x,), o) ==> o == ControlFlow::<B, ()>::Continue(())
                && *final(x) == *x,
{
    let leave = |x: &mut T| -> (o: ControlFlow<B>)
        ensures
            *final(x) == *old(x),
            o == ControlFlow::<B, ()>::Continue(()),
        { ControlFlow::Continue(()) };
    let v = FnVisitor { enter, leave, marker_type: PhantomData, marker_break: PhantomData };
    proof {
        v.lemma_wf_mut();
        assert(forall|x: &mut T| call_requires(v.leave_fn(), (x,)));
        assert(v.wf_mut() <==> forall|x: &mut T| call_requires(v.enter_fn(), (x,)));
    }
    v
}

/// Similar to [`visitor_mut`], but the closure will only be called on leaving.
pub fn visitor_leave_mut<T, B, F>(
    leave: F,
) -> (v: FnVisitor<T, B, impl FnMut(&mut T) -> ControlFlow<B>, F>) where
    T: 'static,
    F: FnMut(&mut T) -> ControlFlow<B>,

    ensures
        v.leave_fn() == leave,
        v.wf_mut() <==> forall|x: &mut T| call_requires(leave, (x,)),
        forall|x: &mut T| call_requires(v.enter_fn(), (x,)),
        forall|x: &mut T, o: ControlFlow<B>|
            call_ensures(v.enter_fn(), (x,), o) ==> o == ControlFlow::<B, ()>::Continue(())
                && *final(x) == *x,
{
    let enter = |x: &mut T| -> (o: ControlFlow<B>)
        ensures
            *final(x) == *old(x),
            o == ControlFlow::<B, ()>::Continue(()),
        { ControlFlow::Continue(()) };
    FnVisitor {
        enter,
        leave,
        marker_type: PhantomData,
        marker_break: PhantomData,
    }
}

/// Type returned by the `folder` factories.
pub struct FnFolder<T, B, F1, F2> {
    enter: F1,
    leave: F2,
    marker_type: PhantomData<T>,
    marker_break: PhantomData<B>,
}

impl<T, B, F1, F2> FnFolder<T, B, F1, F2> {
    /// The closure called on entering a node of type `T`.
    pub closed spec fn enter_fn(&self) -> F1 {
        self.enter
    }

    /// The closure called on leaving a node of type `T`.
    pub closed spec fn leave_fn(&self) -> F2 {
        self.leave
    }
}

impl<T: 'static, B, F1, F2> FnFolder<T, B, F1, F2> where
    F1: FnMut(T) -> ControlFlow<B, T>,
    F2: FnMut(T) -> ControlFlow<B, T>,
 {
    /// Folds an entered node, given evidence that its type is `T` or `None` when it is not.
    pub fn enter_node<N: 'static>(&mut self, same: Option<SameType<N, T>>, this: N) -> (r: ControlFlow<
        B,
        N,
    >)
        requires
            old(self).wf_fold(),
        ensures
            *final(self) == *old(self),
            same is None ==> r == ControlFlow::<B, N>::Continue(this),
            same is Some ==> exists|x: T, o: ControlFlow<B, T>|
                call_ensures(old(self).enter_fn(), (x,), o) && erase(r) == erase(o),
    {
        match same {
            Some(w) => {
                let item = w.cast(this);
                assert(call_requires(self.enter_fn(), (item,)));
                match (self.enter)(item) {
                    ControlFlow::Break(b) => ControlFlow::Break(b),
                    ControlFlow::Continue(folded) => ControlFlow::Continue(w.cast_back(folded)),
                }
            },
            None => ControlFlow::Continue(this),
        }
    }

    /// Folds a node being left, given evidence that its type is `T` or `None` when it is not.
    pub fn leave_node<N: 'static>(&mut self, same: Option<SameType<N, T>>, this: N) -> (r: ControlFlow<
        B,
        N,
    >)
        requires
            old(self).wf_fold(),
        ensures
            *final(self) == *old(self),
            same is None ==> r == ControlFlow::<B, N>::Continue(this),
            same is Some ==> exists|x: T, o: ControlFlow<B, T>|
                call_ensures(old(self).leave_fn(), (x,), o) && erase(r) == erase(o),
    {
        match same {
            Some(w) => {
                let item = w.cast(this);
                assert(call_requires(self.leave_fn(), (item,)));
                match (self.leave)(item) {
                    ControlFlow::Break(b) => ControlFlow::Break(b),
                    ControlFlow::Continue(folded) => ControlFlow::Continue(w.cast_back(folded)),
                }
            },
            None => ControlFlow::Continue(this),
        }
    }
}

impl<T: 'static, B, F1, F2> Folder for FnFolder<T, B, F1, F2> where
    F1: FnMut(T) -> ControlFlow<B, T>,
    F2: FnMut(T) -> ControlFlow<B, T>,
 {
    type Break = B;

    /// Both closures accept every node of type `T`.
    open spec fn wf_fold(&self) -> bool {
        &&& forall|x: T| call_requires(self.enter_fn(), (x,))
        &&& forall|x: T| call_requires(self.leave_fn(), (x,))
    }

    /// The folder stays as it is, and continues (a node of another type, handed
    /// back as it came) or answers as the enter closure does for some node of type `T`.
    open spec fn fold_enter_rel(&self, post: Self, r: ControlFlow<B>) -> bool {
        &&& post == *self
        &&& (r == ControlFlow::<B, ()>::Continue(()) || exists|x: T, o: ControlFlow<B, T>|
            call_ensures(self.enter_fn(), (x,), o) && r == erase(o))
    }

    /// The folder stays as it is, and continues (a node of another type, handed
    /// back as it came) or answers as the leave closure does for some node of type `T`.
    open spec fn fold_leave_rel(&self, post: Self, r: ControlFlow<B>) -> bool {
        &&& post == *self
        &&& (r == ControlFlow::<B, ()>::Continue(()) || exists|x: T, o: ControlFlow<B, T>|
            call_ensures(self.leave_fn(), (x,), o) && r == erase(o))
    }

    fn enter<N: 'static>(&mut self, this: N) -> (r: ControlFlow<B, N>) {
        let same = same_type::<N, T>();
        self.enter_node(same, this)
    }

    fn leave<N: 'static>(&mut self, this: N) -> (r: ControlFlow<B, N>) {
        let same = same_type::<N, T>();
        self.leave_node(same, this)
    }
}

/// Create a folder that only folds items of a specific type with `enter` and `leave` closures.
///
/// Each closure receives a node of type `T` by value and returns the node that
/// continues through the traversal; nodes of other types pass unchanged.
pub fn folder<T, B, F1, F2>(enter: F1, leave: F2) -> (f: FnFolder<T, B, F1, F2>) where
    T: 'static,
    F1: FnMut(T) -> ControlFlow<B, T>,
    F2: FnMut(T) -> ControlFlow<B, T>,

    ensures
        f.enter_fn() == enter,
        f.leave_fn() == leave,
        f.wf_fold() <==> (forall|x: T| call_requires(enter, (x,))) && (forall|x: T|
            call_requires(leave, (x,))),
{
    FnFolder { enter, leave, marker_type: PhantomData, marker_break: PhantomData }
}

/// Similar to [`folder`], but the closure will only be called on entering.
pub fn folder_enter<T, B, F>(
    enter: F,
) -> (f: FnFolder<T, B, F, impl FnMut(T) -> ControlFlow<B, T>>) where
    T: 'static,
    F: FnMut(T) -> ControlFlow<B, T>,

    ensures
        f.enter_fn() == enter,
        f.wf_fold() <==> forall|x: T| call_requires(enter, (x,)),
        forall|x: T| call_requires(f.leave_fn(), (x,)),
        forall|x: T, o: ControlFlow<B, T>|
            call_ensures(f.leave_fn(), (x,), o) ==> o == ControlFlow::<B, T>::Continue(x),
{
    let leave = |x: T| -> (o: ControlFlow<B, T>)
        ensures
            o == ControlFlow::<B, T>::Continue(x),
        { ControlFlow::Continue(x) };
    FnFolder {
        enter,
        leave,
        marker_type: PhantomData,
        marker_break: PhantomData,
    }
}

/// Similar to [`folder`], but the closure will only be called on leaving.
pub fn folder_leave<T, B, F>(
    leave: F,
) -> (f: FnFolder<T, B, impl FnMut(T) -> ControlFlow<B, T>, F>) where
    T: 'static,
    F: FnMut(T) -> ControlFlow<B, T>,

    ensures
        f.leave_fn() == leave,
        f.wf_fold() <==> forall|x: T| call_requires(leave, (x,)),
        forall|x: T| call_requires(f.enter_fn(), (x,)),
        forall|x: T, o: ControlFlow<B, T>|
            call_ensures(f.enter_fn(), (x,), o) ==> o == ControlFlow::<B, T>::Continue(x),
{
    let enter = |x: T| -> (o: ControlFlow<B, T>)
        ensures
            o == ControlFlow::<B, T>::Continue(x),
        { ControlFlow::Continue(x) };
    FnFolder {
        enter,
        leave,
        marker_type: PhantomData,
        marker_break: PhantomData,
    }
}

/// Along a walk of a visitor built from closures, a break that ends the walk is
/// an answer of one of its two closures.
proof fn lemma_fn_visitor_break<T, B, F1, F2>(
    es: Seq<Event>,
    v: FnVisitor<T, B, F1, F2>,
    post: FnVisitor<T, B, F1, F2>,
    r: ControlFlow<B>,
) where T: 'static, F1: FnMut(&T) -> ControlFlow<B>, F2: FnMut(&T) -> ControlFlow<B>
    requires
        walk(visit_step::<FnVisitor<T, B, F1, F2>>(), es, v, post, r),
    ensures
        r == ControlFlow::<B, ()>::Continue(()) || exists|x: &T|
            call_ensures(v.enter_fn(), (x,), r) || call_ensures(v.leave_fn(), (x,), r),
    decreases es.len(),
{
    if es.len() > 0 {
        let (m1, r1) = choose|m1: FnVisitor<T, B, F1, F2>, r1: ControlFlow<B>|
            {
                &&& #[trigger] visit_step::<FnVisitor<T, B, F1, F2>>()(v, es[0], m1, r1)
                &&& match r1 {
                    ControlFlow::Break(_) => post == m1 && r == r1,
                    ControlFlow::Continue(_) => walk(
                        visit_step::<FnVisitor<T, B, F1, F2>>(),
                        es.drop_first(),
                        m1,
                        post,
                        r,
                    ),
                }
            };
        assert(m1 == v);
        if r1 is Continue {
            lemma_fn_visitor_break(es.drop_first(), m1, post, r);
        }
    }
}

/// Traverses `node` with a visitor built from `enter` and `leave` (see
/// [`visitor`]) and returns the traversal's answer: `Continue`, or a break that
/// one of the closures answered for some node of type `T`. When both closures
/// always continue, so does the traversal.
///
/// A caller with concrete closure types can use this contract; the verifier
/// does not apply the contract of `traverse` at a call whose visitor type holds
/// concrete closure types, but does through this generic function.
pub fn traverse_with<N, T, B, F1, F2>(node: &N, enter: F1, leave: F2) -> (r: ControlFlow<B>) where
    N: Traversable,
    T: 'static,
    F1: FnMut(&T) -> ControlFlow<B>,
    F2: FnMut(&T) -> ControlFlow<B>,

    requires
        forall|x: &T| call_requires(enter, (x,)),
        forall|x: &T| call_requires(leave, (x,)),
    ensures
        r == ControlFlow::<B, ()>::Continue(()) || exists|x: &T|
            call_ensures(enter, (x,), r) || call_ensures(leave, (x,), r),
        (forall|x: &T, o: ControlFlow<B>|
            #[trigger] call_ensures(enter, (x,), o) ==> o == ControlFlow::<B, ()>::Continue(()))
            && (forall|x: &T, o: ControlFlow<B>|
            #[trigger] call_ensures(leave, (x,), o) ==> o == ControlFlow::<B, ()>::Continue(()))
            ==> r == ControlFlow::<B, ()>::Continue(()),
{
    let mut v = visitor::<T, B, F1, F2>(enter, leave);
    let ghost v0 = v;
    let r = node.traverse(&mut v);
    proof {
        let (es, post) = choose|es: Seq<Event>, post: FnVisitor<T, B, F1, F2>|
            #[trigger] walk(visit_step::<FnVisitor<T, B, F1, F2>>(), es, v0, post, r);
        lemma_fn_visitor_break(es, v0, post, r);
        if r != ControlFlow::<B, ()>::Continue(()) {
            let x = choose|x: &T|
                call_ensures(v0.enter_fn(), (x,), r) || call_ensures(v0.leave_fn(), (x,), r);
            assert(call_ensures(enter, (x,), r) || call_ensures(leave, (x,), r));
        }
    }
    r
}

/// Law: a traversal leaves a visitor built from closures as it was: the visitor
/// value is its two closures, which are never replaced. (What the closures
/// reach through captured references lies outside the visitor value and is
/// not described by its relations.)
pub proof fn fn_visitor_traversal_keeps_visitor<T, B, F1, F2>(
    v: FnVisitor<T, B, F1, F2>,
    post: FnVisitor<T, B, F1, F2>,
    r: ControlFlow<B>,
) where T: 'static, F1: FnMut(&T) -> ControlFlow<B>, F2: FnMut(&T) -> ControlFlow<B>
    requires
        reachable(visit_step::<FnVisitor<T, B, F1, F2>>(), v, post, r),
    ensures
        post == v,
{
    let es = choose|es: Seq<Event>|
        #[trigger] walk(visit_step::<FnVisitor<T, B, F1, F2>>(), es, v, post, r);
    walk_keeps_state(visit_step::<FnVisitor<T, B, F1, F2>>(), es, v, post, r);
}

/// Law: a mutable traversal leaves a visitor built from closures as it was.
pub proof fn fn_visitor_mut_traversal_keeps_visitor<T, B, F1, F2>(
    v: FnVisitor<T, B, F1, F2>,
    post: FnVisitor<T, B, F1, F2>,
    r: ControlFlow<B>,
) where T: 'static, F1: FnMut(&mut T) -> ControlFlow<B>, F2: FnMut(&mut T) -> ControlFlow<B>
    requires
        reachable(visit_mut_step::<FnVisitor<T, B, F1, F2>>(), v, post, r),
    ensures
        post == v,
{
    let es = choose|es: Seq<Event>|
        #[trigger] walk(visit_mut_step::<FnVisitor<T, B, F1, F2>>(), es, v, post, r);
    walk_keeps_state(visit_mut_step::<FnVisitor<T, B, F1, F2>>(), es, v, post, r);
}

/// Law: a fold leaves a folder built from closures as it was.
pub proof fn fn_folder_traversal_keeps_folder<T, B, F1, F2>(
    f: FnFolder<T, B, F1, F2>,
    post: FnFolder<T, B, F1, F2>,
    r: ControlFlow<B>,
) where T: 'static, F1: FnMut(T) -> ControlFlow<B, T>, F2: FnMut(T) -> ControlFlow<B, T>
    requires
        reachable(fold_step::<FnFolder<T, B, F1, F2>>(), f, post, r),
    ensures
        post == f,
{
    let es = choose|es: Seq<Event>|
        #[trigger] walk(fold_step::<FnFolder<T, B, F1, F2>>(), es, f, post, r);
    walk_keeps_state(fold_step::<FnFolder<T, B, F1, F2>>(), es, f, post, r);
}

} // verus!
