//! Primitive values: leaves that a traversal passes over without a visit.

use core::ops::ControlFlow;
use vstd::prelude::*;

use crate::Folder;
use crate::Traversable;
use crate::TraversableFold;
use crate::TraversableMut;
use crate::Visitor;
use crate::VisitorMut;
use crate::walk::Event;
use crate::walk::fold_step;
use crate::walk::lemma_reachable_refl;
use crate::walk::visit_mut_step;
use crate::walk::visit_step;
use crate::walk::walk;

verus! {

impl Traversable for () {
    open spec fn reports_events() -> bool {
        true
    }

    /// A value of this type reports no event.
    open spec fn events(&self) -> Seq<Event> {
        Seq::empty()
    }

    fn traverse<V: Visitor>(&self, visitor: &mut V) -> (r: ControlFlow<V::Break>) {
        proof {
            lemma_reachable_refl(visit_step::<V>(), *visitor);
        }
        ControlFlow::Continue(())
    }
}

impl TraversableMut for () {
    open spec fn reports_mut_steps() -> bool {
        true
    }

    /// The value stays as it is and no event is reported.
    open spec fn mut_steps(&self, post: &Self, es: Seq<Event>, done: bool) -> bool {
        *post == *self && es.len() == 0 && done
    }

    fn traverse_mut<V: VisitorMut>(&mut self, visitor: &mut V) -> (r: ControlFlow<V::Break>)
        ensures
            *final(self) == *old(self),
            *final(visitor) == *old(visitor),
            r == ControlFlow::<V::Break, ()>::Continue(()),
    {
        proof {
            lemma_reachable_refl(visit_mut_step::<V>(), *visitor);
            assert(walk(visit_mut_step::<V>(), Seq::empty(), *visitor, *visitor, ControlFlow::Continue(())));
        }
        ControlFlow::Continue(())
    }
}

impl TraversableFold for () {
    open spec fn reports_fold_steps() -> bool {
        true
    }

    /// The value is handed back as it is and no event is reported.
    open spec fn fold_steps(&self, out: Option<Self>, es: Seq<Event>) -> bool {
        out == Some(*self) && es.len() == 0
    }

    fn traverse_fold<V: Folder>(self, folder: &mut V) -> (r: ControlFlow<V::Break, Self>)
        ensures
            *final(folder) == *old(folder),
            r == ControlFlow::<V::Break, Self>::Continue(self),
    {
        proof {
            lemma_reachable_refl(fold_step::<V>(), *folder);
            assert(walk(fold_step::<V>(), Seq::empty(), *folder, *folder, ControlFlow::Continue(())));
        }
        ControlFlow::Continue(self)
    }
}

impl Traversable for u8 {
    open spec fn reports_events() -> bool {
        true
    }

    /// A value of this type reports no event.
    open spec fn events(&self) -> Seq<Event> {
        Seq::empty()
    }

    fn traverse<V: Visitor>(&self, visitor: &mut V) -> (r: ControlFlow<V::Break>) {
        proof {
            lemma_reachable_refl(visit_step::<V>(), *visitor);
        }
        ControlFlow::Continue(())
    }
}

impl TraversableMut for u8 {
    open spec fn reports_mut_steps() -> bool {
        true
    }

    /// The value stays as it is and no event is reported.
    open spec fn mut_steps(&self, post: &Self, es: Seq<Event>, done: bool) -> bool {
        *post == *self && es.len() == 0 && done
    }

    fn traverse_mut<V: VisitorMut>(&mut self, visitor: &mut V) -> (r: ControlFlow<V::Break>)
        ensures
            *final(self) == *old(self),
            *final(visitor) == *old(visitor),
            r == ControlFlow::<V::Break, ()>::Continue(()),
    {
        proof {
            lemma_reachable_refl(visit_mut_step::<V>(), *visitor);
            assert(walk(visit_mut_step::<V>(), Seq::empty(), *visitor, *visitor, ControlFlow::Continue(())));
        }
        ControlFlow::Continue(())
    }
}

impl TraversableFold for u8 {
    open spec fn reports_fold_steps() -> bool {
        true
    }

    /// The value is handed back as it is and no event is reported.
    open spec fn fold_steps(&self, out: Option<Self>, es: Seq<Event>) -> bool {
        out == Some(*self) && es.len() == 0
    }

    fn traverse_fold<V: Folder>(self, folder: &mut V) -> (r: ControlFlow<V::Break, Self>)
        ensures
            *final(folder) == *old(folder),
            r == ControlFlow::<V::Break, Self>::Continue(self),
    {
        proof {
            lemma_reachable_refl(fold_step::<V>(), *folder);
            assert(walk(fold_step::<V>(), Seq::empty(), *folder, *folder, ControlFlow::Continue(())));
        }
        ControlFlow::Continue(self)
    }
}

impl Traversable for u16 {
    open spec fn reports_events() -> bool {
        true
    }

    /// A value of this type reports no event.
    open spec fn events(&self) -> Seq<Event> {
        Seq::empty()
    }

    fn traverse<V: Visitor>(&self, visitor: &mut V) -> (r: ControlFlow<V::Break>) {
        proof {
            lemma_reachable_refl(visit_step::<V>(), *visitor);
        }
        ControlFlow::Continue(())
    }
}

impl TraversableMut for u16 {
    open spec fn reports_mut_steps() -> bool {
        true
    }

    /// The value stays as it is and no event is reported.
    open spec fn mut_steps(&self, post: &Self, es: Seq<Event>, done: bool) -> bool {
        *post == *self && es.len() == 0 && done
    }

    fn traverse_mut<V: VisitorMut>(&mut self, visitor: &mut V) -> (r: ControlFlow<V::Break>)
        ensures
            *final(self) == *old(self),
            *final(visitor) == *old(visitor),
            r == ControlFlow::<V::Break, ()>::Continue(()),
    {
        proof {
            lemma_reachable_refl(visit_mut_step::<V>(), *visitor);
            assert(walk(visit_mut_step::<V>(), Seq::empty(), *visitor, *visitor, ControlFlow::Continue(())));
        }
        ControlFlow::Continue(())
    }
}

impl TraversableFold for u16 {
    open spec fn reports_fold_steps() -> bool {
        true
    }

    /// The value is handed back as it is and no event is reported.
    open spec fn fold_steps(&self, out: Option<Self>, es: Seq<Event>) -> bool {
        out == Some(*self) && es.len() == 0
    }

    fn traverse_fold<V: Folder>(self, folder: &mut V) -> (r: ControlFlow<V::Break, Self>)
        ensures
            *final(folder) == *old(folder),
            r == ControlFlow::<V::Break, Self>::Continue(self),
    {
        proof {
            lemma_reachable_refl(fold_step::<V>(), *folder);
            assert(walk(fold_step::<V>(), Seq::empty(), *folder, *folder, ControlFlow::Continue(())));
        }
        ControlFlow::Continue(self)
    }
}

impl Traversable for u32 {
    open spec fn reports_events() -> bool {
        true
    }

    /// A value of this type reports no event.
    open spec fn events(&self) -> Seq<Event> {
        Seq::empty()
    }

    fn traverse<V: Visitor>(&self, visitor: &mut V) -> (r: ControlFlow<V::Break>) {
        proof {
            lemma_reachable_refl(visit_step::<V>(), *visitor);
        }
        ControlFlow::Continue(())
    }
}

impl TraversableMut for u32 {
    open spec fn reports_mut_steps() -> bool {
        true
    }

    /// The value stays as it is and no event is reported.
    open spec fn mut_steps(&self, post: &Self, es: Seq<Event>, done: bool) -> bool {
        *post == *self && es.len() == 0 && done
    }

    fn traverse_mut<V: VisitorMut>(&mut self, visitor: &mut V) -> (r: ControlFlow<V::Break>)
        ensures
            *final(self) == *old(self),
            *final(visitor) == *old(visitor),
            r == ControlFlow::<V::Break, ()>::Continue(()),
    {
        proof {
            lemma_reachable_refl(visit_mut_step::<V>(), *visitor);
            assert(walk(visit_mut_step::<V>(), Seq::empty(), *visitor, *visitor, ControlFlow::Continue(())));
        }
        ControlFlow::Continue(())
    }
}

impl TraversableFold for u32 {
    open spec fn reports_fold_steps() -> bool {
        true
    }

    /// The value is handed back as it is and no event is reported.
    open spec fn fold_steps(&self, out: Option<Self>, es: Seq<Event>) -> bool {
        out == Some(*self) && es.len() == 0
    }

    fn traverse_fold<V: Folder>(self, folder: &mut V) -> (r: ControlFlow<V::Break, Self>)
        ensures
            *final(folder) == *old(folder),
            r == ControlFlow::<V::Break, Self>::Continue(self),
    {
        proof {
            lemma_reachable_refl(fold_step::<V>(), *folder);
            assert(walk(fold_step::<V>(), Seq::empty(), *folder, *folder, ControlFlow::Continue(())));
        }
        ControlFlow::Continue(self)
    }
}

impl Traversable for u64 {
    open spec fn reports_events() -> bool {
        true
    }

    /// A value of this type reports no event.
    open spec fn events(&self) -> Seq<Event> {
        Seq::empty()
    }

    fn traverse<V: Visitor>(&self, visitor: &mut V) -> (r: ControlFlow<V::Break>) {
        proof {
            lemma_reachable_refl(visit_step::<V>(), *visitor);
        }
        ControlFlow::Continue(())
    }
}

impl TraversableMut for u64 {
    open spec fn reports_mut_steps() -> bool {
        true
    }

    /// The value stays as it is and no event is reported.
    open spec fn mut_steps(&self, post: &Self, es: Seq<Event>, done: bool) -> bool {
        *post == *self && es.len() == 0 && done
    }

    fn traverse_mut<V: VisitorMut>(&mut self, visitor: &mut V) -> (r: ControlFlow<V::Break>)
        ensures
            *final(self) == *old(self),
            *final(visitor) == *old(visitor),
            r == ControlFlow::<V::Break, ()>::Continue(()),
    {
        proof {
            lemma_reachable_refl(visit_mut_step::<V>(), *visitor);
            assert(walk(visit_mut_step::<V>(), Seq::empty(), *visitor, *visitor, ControlFlow::Continue(())));
        }
        ControlFlow::Continue(())
    }
}

impl TraversableFold for u64 {
    open spec fn reports_fold_steps() -> bool {
        true
    }

    /// The value is handed back as it is and no event is reported.
    open spec fn fold_steps(&self, out: Option<Self>, es: Seq<Event>) -> bool {
        out == Some(*self) && es.len() == 0
    }

    fn traverse_fold<V: Folder>(self, folder: &mut V) -> (r: ControlFlow<V::Break, Self>)
        ensures
            *final(folder) == *old(folder),
            r == ControlFlow::<V::Break, Self>::Continue(self),
    {
        proof {
            lemma_reachable_refl(fold_step::<V>(), *folder);
            assert(walk(fold_step::<V>(), Seq::empty(), *folder, *folder, ControlFlow::Continue(())));
        }
        ControlFlow::Continue(self)
    }
}

impl Traversable for u128 {
    open spec fn reports_events() -> bool {
        true
    }

    /// A value of this type reports no event.
    open spec fn events(&self) -> Seq<Event> {
        Seq::empty()
    }

    fn traverse<V: Visitor>(&self, visitor: &mut V) -> (r: ControlFlow<V::Break>) {
        proof {
            lemma_reachable_refl(visit_step::<V>(), *visitor);
        }
        ControlFlow::Continue(())
    }
}

impl TraversableMut for u128 {
    open spec fn reports_mut_steps() -> bool {
        true
    }

    /// The value stays as it is and no event is reported.
    open spec fn mut_steps(&self, post: &Self, es: Seq<Event>, done: bool) -> bool {
        *post == *self && es.len() == 0 && done
    }

    fn traverse_mut<V: VisitorMut>(&mut self, visitor: &mut V) -> (r: ControlFlow<V::Break>)
        ensures
            *final(self) == *old(self),
            *final(visitor) == *old(visitor),
            r == ControlFlow::<V::Break, ()>::Continue(()),
    {
        proof {
            lemma_reachable_refl(visit_mut_step::<V>(), *visitor);
            assert(walk(visit_mut_step::<V>(), Seq::empty(), *visitor, *visitor, ControlFlow::Continue(())));
        }
        ControlFlow::Continue(())
    }
}

impl TraversableFold for u128 {
    open spec fn reports_fold_steps() -> bool {
        true
    }

    /// The value is handed back as it is and no event is reported.
    open spec fn fold_steps(&self, out: Option<Self>, es: Seq<Event>) -> bool {
        out == Some(*self) && es.len() == 0
    }

    fn traverse_fold<V: Folder>(self, folder: &mut V) -> (r: ControlFlow<V::Break, Self>)
        ensures
            *final(folder) == *old(folder),
            r == ControlFlow::<V::Break, Self>::Continue(self),
    {
        proof {
            lemma_reachable_refl(fold_step::<V>(), *folder);
            assert(walk(fold_step::<V>(), Seq::empty(), *folder, *folder, ControlFlow::Continue(())));
        }
        ControlFlow::Continue(self)
    }
}

impl Traversable for usize {
    open spec fn reports_events() -> bool {
        true
    }

    /// A value of this type reports no event.
    open spec fn events(&self) -> Seq<Event> {
        Seq::empty()
    }

    fn traverse<V: Visitor>(&self, visitor: &mut V) -> (r: ControlFlow<V::Break>) {
        proof {
            lemma_reachable_refl(visit_step::<V>(), *visitor);
        }
        ControlFlow::Continue(())
    }
}

impl TraversableMut for usize {
    open spec fn reports_mut_steps() -> bool {
        true
    }

    /// The value stays as it is and no event is reported.
    open spec fn mut_steps(&self, post: &Self, es: Seq<Event>, done: bool) -> bool {
        *post == *self && es.len() == 0 && done
    }

    fn traverse_mut<V: VisitorMut>(&mut self, visitor: &mut V) -> (r: ControlFlow<V::Break>)
        ensures
            *final(self) == *old(self),
            *final(visitor) == *old(visitor),
            r == ControlFlow::<V::Break, ()>::Continue(()),
    {
        proof {
            lemma_reachable_refl(visit_mut_step::<V>(), *visitor);
            assert(walk(visit_mut_step::<V>(), Seq::empty(), *visitor, *visitor, ControlFlow::Continue(())));
        }
        ControlFlow::Continue(())
    }
}

impl TraversableFold for usize {
    open spec fn reports_fold_steps() -> bool {
        true
    }

    /// The value is handed back as it is and no event is reported.
    open spec fn fold_steps(&self, out: Option<Self>, es: Seq<Event>) -> bool {
        out == Some(*self) && es.len() == 0
    }

    fn traverse_fold<V: Folder>(self, folder: &mut V) -> (r: ControlFlow<V::Break, Self>)
        ensures
            *final(folder) == *old(folder),
            r == ControlFlow::<V::Break, Self>::Continue(self),
    {
        proof {
            lemma_reachable_refl(fold_step::<V>(), *folder);
            assert(walk(fold_step::<V>(), Seq::empty(), *folder, *folder, ControlFlow::Continue(())));
        }
        ControlFlow::Continue(self)
    }
}

impl Traversable for i8 {
    open spec fn reports_events() -> bool {
        true
    }

    /// A value of this type reports no event.
    open spec fn events(&self) -> Seq<Event> {
        Seq::empty()
    }

    fn traverse<V: Visitor>(&self, visitor: &mut V) -> (r: ControlFlow<V::Break>) {
        proof {
            lemma_reachable_refl(visit_step::<V>(), *visitor);
        }
        ControlFlow::Continue(())
    }
}

impl TraversableMut for i8 {
    open spec fn reports_mut_steps() -> bool {
        true
    }

    /// The value stays as it is and no event is reported.
    open spec fn mut_steps(&self, post: &Self, es: Seq<Event>, done: bool) -> bool {
        *post == *self && es.len() == 0 && done
    }

    fn traverse_mut<V: VisitorMut>(&mut self, visitor: &mut V) -> (r: ControlFlow<V::Break>)
        ensures
            *final(self) == *old(self),
            *final(visitor) == *old(visitor),
            r == ControlFlow::<V::Break, ()>::Continue(()),
    {
        proof {
            lemma_reachable_refl(visit_mut_step::<V>(), *visitor);
            assert(walk(visit_mut_step::<V>(), Seq::empty(), *visitor, *visitor, ControlFlow::Continue(())));
        }
        ControlFlow::Continue(())
    }
}

impl TraversableFold for i8 {
    open spec fn reports_fold_steps() -> bool {
        true
    }

    /// The value is handed back as it is and no event is reported.
    open spec fn fold_steps(&self, out: Option<Self>, es: Seq<Event>) -> bool {
        out == Some(*self) && es.len() == 0
    }

    fn traverse_fold<V: Folder>(self, folder: &mut V) -> (r: ControlFlow<V::Break, Self>)
        ensures
            *final(folder) == *old(folder),
            r == ControlFlow::<V::Break, Self>::Continue(self),
    {
        proof {
            lemma_reachable_refl(fold_step::<V>(), *folder);
            assert(walk(fold_step::<V>(), Seq::empty(), *folder, *folder, ControlFlow::Continue(())));
        }
        ControlFlow::Continue(self)
    }
}

impl Traversable for i16 {
    open spec fn reports_events() -> bool {
        true
    }

    /// A value of this type reports no event.
    open spec fn events(&self) -> Seq<Event> {
        Seq::empty()
    }

    fn traverse<V: Visitor>(&self, visitor: &mut V) -> (r: ControlFlow<V::Break>) {
        proof {
            lemma_reachable_refl(visit_step::<V>(), *visitor);
        }
        ControlFlow::Continue(())
    }
}

impl TraversableMut for i16 {
    open spec fn reports_mut_steps() -> bool {
        true
    }

    /// The value stays as it is and no event is reported.
    open spec fn mut_steps(&self, post: &Self, es: Seq<Event>, done: bool) -> bool {
        *post == *self && es.len() == 0 && done
    }

    fn traverse_mut<V: VisitorMut>(&mut self, visitor: &mut V) -> (r: ControlFlow<V::Break>)
        ensures
            *final(self) == *old(self),
            *final(visitor) == *old(visitor),
            r == ControlFlow::<V::Break, ()>::Continue(()),
    {
        proof {
            lemma_reachable_refl(visit_mut_step::<V>(), *visitor);
            assert(walk(visit_mut_step::<V>(), Seq::empty(), *visitor, *visitor, ControlFlow::Continue(())));
        }
        ControlFlow::Continue(())
    }
}

impl TraversableFold for i16 {
    open spec fn reports_fold_steps() -> bool {
        true
    }

    /// The value is handed back as it is and no event is reported.
    open spec fn fold_steps(&self, out: Option<Self>, es: Seq<Event>) -> bool {
        out == Some(*self) && es.len() == 0
    }

    fn traverse_fold<V: Folder>(self, folder: &mut V) -> (r: ControlFlow<V::Break, Self>)
        ensures
            *final(folder) == *old(folder),
            r == ControlFlow::<V::Break, Self>::Continue(self),
    {
        proof {
            lemma_reachable_refl(fold_step::<V>(), *folder);
            assert(walk(fold_step::<V>(), Seq::empty(), *folder, *folder, ControlFlow::Continue(())));
        }
        ControlFlow::Continue(self)
    }
}

impl Traversable for i32 {
    open spec fn reports_events() -> bool {
        true
    }

    /// A value of this type reports no event.
    open spec fn events(&self) -> Seq<Event> {
        Seq::empty()
    }

    fn traverse<V: Visitor>(&self, visitor: &mut V) -> (r: ControlFlow<V::Break>) {
        proof {
            lemma_reachable_refl(visit_step::<V>(), *visitor);
        }
        ControlFlow::Continue(())
    }
}

impl TraversableMut for i32 {
    open spec fn reports_mut_steps() -> bool {
        true
    }

    /// The value stays as it is and no event is reported.
    open spec fn mut_steps(&self, post: &Self, es: Seq<Event>, done: bool) -> bool {
        *post == *self && es.len() == 0 && done
    }

    fn traverse_mut<V: VisitorMut>(&mut self, visitor: &mut V) -> (r: ControlFlow<V::Break>)
        ensures
            *final(self) == *old(self),
            *final(visitor) == *old(visitor),
            r == ControlFlow::<V::Break, ()>::Continue(()),
    {
        proof {
            lemma_reachable_refl(visit_mut_step::<V>(), *visitor);
            assert(walk(visit_mut_step::<V>(), Seq::empty(), *visitor, *visitor, ControlFlow::Continue(())));
        }
        ControlFlow::Continue(())
    }
}

impl TraversableFold for i32 {
    open spec fn reports_fold_steps() -> bool {
        true
    }

    /// The value is handed back as it is and no event is reported.
    open spec fn fold_steps(&self, out: Option<Self>, es: Seq<Event>) -> bool {
        out == Some(*self) && es.len() == 0
    }

    fn traverse_fold<V: Folder>(self, folder: &mut V) -> (r: ControlFlow<V::Break, Self>)
        ensures
            *final(folder) == *old(folder),
            r == ControlFlow::<V::Break, Self>::Continue(self),
    {
        proof {
            lemma_reachable_refl(fold_step::<V>(), *folder);
            assert(walk(fold_step::<V>(), Seq::empty(), *folder, *folder, ControlFlow::Continue(())));
        }
        ControlFlow::Continue(self)
    }
}

impl Traversable for i64 {
    open spec fn reports_events() -> bool {
        true
    }

    /// A value of this type reports no event.
    open spec fn events(&self) -> Seq<Event> {
        Seq::empty()
    }

    fn traverse<V: Visitor>(&self, visitor: &mut V) -> (r: ControlFlow<V::Break>) {
        proof {
            lemma_reachable_refl(visit_step::<V>(), *visitor);
        }
        ControlFlow::Continue(())
    }
}

impl TraversableMut for i64 {
    open spec fn reports_mut_steps() -> bool {
        true
    }

    /// The value stays as it is and no event is reported.
    open spec fn mut_steps(&self, post: &Self, es: Seq<Event>, done: bool) -> bool {
        *post == *self && es.len() == 0 && done
    }

    fn traverse_mut<V: VisitorMut>(&mut self, visitor: &mut V) -> (r: ControlFlow<V::Break>)
        ensures
            *final(self) == *old(self),
            *final(visitor) == *old(visitor),
            r == ControlFlow::<V::Break, ()>::Continue(()),
    {
        proof {
            lemma_reachable_refl(visit_mut_step::<V>(), *visitor);
            assert(walk(visit_mut_step::<V>(), Seq::empty(), *visitor, *visitor, ControlFlow::Continue(())));
        }
        ControlFlow::Continue(())
    }
}

impl TraversableFold for i64 {
    open spec fn reports_fold_steps() -> bool {
        true
    }

    /// The value is handed back as it is and no event is reported.
    open spec fn fold_steps(&self, out: Option<Self>, es: Seq<Event>) -> bool {
        out == Some(*self) && es.len() == 0
    }

    fn traverse_fold<V: Folder>(self, folder: &mut V) -> (r: ControlFlow<V::Break, Self>)
        ensures
            *final(folder) == *old(folder),
            r == ControlFlow::<V::Break, Self>::Continue(self),
    {
        proof {
            lemma_reachable_refl(fold_step::<V>(), *folder);
            assert(walk(fold_step::<V>(), Seq::empty(), *folder, *folder, ControlFlow::Continue(())));
        }
        ControlFlow::Continue(self)
    }
}

impl Traversable for i128 {
    open spec fn reports_events() -> bool {
        true
    }

    /// A value of this type reports no event.
    open spec fn events(&self) -> Seq<Event> {
        Seq::empty()
    }

    fn traverse<V: Visitor>(&self, visitor: &mut V) -> (r: ControlFlow<V::Break>) {
        proof {
            lemma_reachable_refl(visit_step::<V>(), *visitor);
        }
        ControlFlow::Continue(())
    }
}

impl TraversableMut for i128 {
    open spec fn reports_mut_steps() -> bool {
        true
    }

    /// The value stays as it is and no event is reported.
    open spec fn mut_steps(&self, post: &Self, es: Seq<Event>, done: bool) -> bool {
        *post == *self && es.len() == 0 && done
    }

    fn traverse_mut<V: VisitorMut>(&mut self, visitor: &mut V) -> (r: ControlFlow<V::Break>)
        ensures
            *final(self) == *old(self),
            *final(visitor) == *old(visitor),
            r == ControlFlow::<V::Break, ()>::Continue(()),
    {
        proof {
            lemma_reachable_refl(visit_mut_step::<V>(), *visitor);
            assert(walk(visit_mut_step::<V>(), Seq::empty(), *visitor, *visitor, ControlFlow::Continue(())));
        }
        ControlFlow::Continue(())
    }
}

impl TraversableFold for i128 {
    open spec fn reports_fold_steps() -> bool {
        true
    }

    /// The value is handed back as it is and no event is reported.
    open spec fn fold_steps(&self, out: Option<Self>, es: Seq<Event>) -> bool {
        out == Some(*self) && es.len() == 0
    }

    fn traverse_fold<V: Folder>(self, folder: &mut V) -> (r: ControlFlow<V::Break, Self>)
        ensures
            *final(folder) == *old(folder),
            r == ControlFlow::<V::Break, Self>::Continue(self),
    {
        proof {
            lemma_reachable_refl(fold_step::<V>(), *folder);
            assert(walk(fold_step::<V>(), Seq::empty(), *folder, *folder, ControlFlow::Continue(())));
        }
        ControlFlow::Continue(self)
    }
}

impl Traversable for isize {
    open spec fn reports_events() -> bool {
        true
    }

    /// A value of this type reports no event.
    open spec fn events(&self) -> Seq<Event> {
        Seq::empty()
    }

    fn traverse<V: Visitor>(&self, visitor: &mut V) -> (r: ControlFlow<V::Break>) {
        proof {
            lemma_reachable_refl(visit_step::<V>(), *visitor);
        }
        ControlFlow::Continue(())
    }
}

impl TraversableMut for isize {
    open spec fn reports_mut_steps() -> bool {
        true
    }

    /// The value stays as it is and no event is reported.
    open spec fn mut_steps(&self, post: &Self, es: Seq<Event>, done: bool) -> bool {
        *post == *self && es.len() == 0 && done
    }

    fn traverse_mut<V: VisitorMut>(&mut self, visitor: &mut V) -> (r: ControlFlow<V::Break>)
        ensures
            *final(self) == *old(self),
            *final(visitor) == *old(visitor),
            r == ControlFlow::<V::Break, ()>::Continue(()),
    {
        proof {
            lemma_reachable_refl(visit_mut_step::<V>(), *visitor);
            assert(walk(visit_mut_step::<V>(), Seq::empty(), *visitor, *visitor, ControlFlow::Continue(())));
        }
        ControlFlow::Continue(())
    }
}

impl TraversableFold for isize {
    open spec fn reports_fold_steps() -> bool {
        true
    }

    /// The value is handed back as it is and no event is reported.
    open spec fn fold_steps(&self, out: Option<Self>, es: Seq<Event>) -> bool {
        out == Some(*self) && es.len() == 0
    }

    fn traverse_fold<V: Folder>(self, folder: &mut V) -> (r: ControlFlow<V::Break, Self>)
        ensures
            *final(folder) == *old(folder),
            r == ControlFlow::<V::Break, Self>::Continue(self),
    {
        proof {
            lemma_reachable_refl(fold_step::<V>(), *folder);
            assert(walk(fold_step::<V>(), Seq::empty(), *folder, *folder, ControlFlow::Continue(())));
        }
        ControlFlow::Continue(self)
    }
}

impl Traversable for char {
    open spec fn reports_events() -> bool {
        true
    }

    /// A value of this type reports no event.
    open spec fn events(&self) -> Seq<Event> {
        Seq::empty()
    }

    fn traverse<V: Visitor>(&self, visitor: &mut V) -> (r: ControlFlow<V::Break>) {
        proof {
            lemma_reachable_refl(visit_step::<V>(), *visitor);
        }
        ControlFlow::Continue(())
    }
}

impl TraversableMut for char {
    open spec fn reports_mut_steps() -> bool {
        true
    }

    /// The value stays as it is and no event is reported.
    open spec fn mut_steps(&self, post: &Self, es: Seq<Event>, done: bool) -> bool {
        *post == *self && es.len() == 0 && done
    }

    fn traverse_mut<V: VisitorMut>(&mut self, visitor: &mut V) -> (r: ControlFlow<V::Break>)
        ensures
            *final(self) == *old(self),
            *final(visitor) == *old(visitor),
            r == ControlFlow::<V::Break, ()>::Continue(()),
    {
        proof {
            lemma_reachable_refl(visit_mut_step::<V>(), *visitor);
            assert(walk(visit_mut_step::<V>(), Seq::empty(), *visitor, *visitor, ControlFlow::Continue(())));
        }
        ControlFlow::Continue(())
    }
}

impl TraversableFold for char {
    open spec fn reports_fold_steps() -> bool {
        true
    }

    /// The value is handed back as it is and no event is reported.
    open spec fn fold_steps(&self, out: Option<Self>, es: Seq<Event>) -> bool {
        out == Some(*self) && es.len() == 0
    }

    fn traverse_fold<V: Folder>(self, folder: &mut V) -> (r: ControlFlow<V::Break, Self>)
        ensures
            *final(folder) == *old(folder),
            r == ControlFlow::<V::Break, Self>::Continue(self),
    {
        proof {
            lemma_reachable_refl(fold_step::<V>(), *folder);
            assert(walk(fold_step::<V>(), Seq::empty(), *folder, *folder, ControlFlow::Continue(())));
        }
        ControlFlow::Continue(self)
    }
}

impl Traversable for bool {
    open spec fn reports_events() -> bool {
        true
    }

    /// A value of this type reports no event.
    open spec fn events(&self) -> Seq<Event> {
        Seq::empty()
    }

    fn traverse<V: Visitor>(&self, visitor: &mut V) -> (r: ControlFlow<V::Break>) {
        proof {
            lemma_reachable_refl(visit_step::<V>(), *visitor);
        }
        ControlFlow::Continue(())
    }
}

impl TraversableMut for bool {
    open spec fn reports_mut_steps() -> bool {
        true
    }

    /// The value stays as it is and no event is reported.
    open spec fn mut_steps(&self, post: &Self, es: Seq<Event>, done: bool) -> bool {
        *post == *self && es.len() == 0 && done
    }

    fn traverse_mut<V: VisitorMut>(&mut self, visitor: &mut V) -> (r: ControlFlow<V::Break>)
        ensures
            *final(self) == *old(self),
            *final(visitor) == *old(visitor),
            r == ControlFlow::<V::Break, ()>::Continue(()),
    {
        proof {
            lemma_reachable_refl(visit_mut_step::<V>(), *visitor);
            assert(walk(visit_mut_step::<V>(), Seq::empty(), *visitor, *visitor, ControlFlow::Continue(())));
        }
        ControlFlow::Continue(())
    }
}

impl TraversableFold for bool {
    open spec fn reports_fold_steps() -> bool {
        true
    }

    /// The value is handed back as it is and no event is reported.
    open spec fn fold_steps(&self, out: Option<Self>, es: Seq<Event>) -> bool {
        out == Some(*self) && es.len() == 0
    }

    fn traverse_fold<V: Folder>(self, folder: &mut V) -> (r: ControlFlow<V::Break, Self>)
        ensures
            *final(folder) == *old(folder),
            r == ControlFlow::<V::Break, Self>::Continue(self),
    {
        proof {
            lemma_reachable_refl(fold_step::<V>(), *folder);
            assert(walk(fold_step::<V>(), Seq::empty(), *folder, *folder, ControlFlow::Continue(())));
        }
        ControlFlow::Continue(self)
    }
}

} // verus!
