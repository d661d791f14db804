//! Strings: leaves that a traversal passes over without a visit.

use core::ops::ControlFlow;
use vstd::prelude::*;

use crate::Folder;
use crate::Traversable;
use crate::TraversableFold;
use crate::TraversableMut;
use crate::Visitor;
use crate::VisitorMut;
use crate::walk::Event;
use crate::walk::fold_step;
use crate::walk::lemma_reachable_refl;
use crate::walk::visit_mut_step;
use crate::walk::visit_step;
use crate::walk::walk;
use std::string::String;

verus! {

impl Traversable for String {
    open spec fn reports_events() -> bool {
        true
    }

    /// A value of this type reports no event.
    open spec fn events(&self) -> Seq<Event> {
        Seq::empty()
    }

    fn traverse<V: Visitor>(&self, visitor: &mut V) -> (r: ControlFlow<V::Break>) {
        proof {
            lemma_reachable_refl(visit_step::<V>(), *visitor);
        }
        ControlFlow::Continue(())
    }
}

impl TraversableMut for String {
    open spec fn reports_mut_steps() -> bool {
        true
    }

    /// The value stays as it is and no event is reported.
    open spec fn mut_steps(&self, post: &Self, es: Seq<Event>, done: bool) -> bool {
        *post == *self && es.len() == 0 && done
    }

    fn traverse_mut<V: VisitorMut>(&mut self, visitor: &mut V) -> (r: ControlFlow<V::Break>)
        ensures
            *final(self) == *old(self),
            *final(visitor) == *old(visitor),
            r == ControlFlow::<V::Break, ()>::Continue(()),
    {
        proof {
            lemma_reachable_refl(visit_mut_step::<V>(), *visitor);
            assert(walk(visit_mut_step::<V>(), Seq::empty(), *visitor, *visitor, ControlFlow::Continue(())));
        }
        ControlFlow::Continue(())
    }
}

impl TraversableFold for String {
    open spec fn reports_fold_steps() -> bool {
        true
    }

    /// The value is handed back as it is and no event is reported.
    open spec fn fold_steps(&self, out: Option<Self>, es: Seq<Event>) -> bool {
        out == Some(*self) && es.len() == 0
    }

    fn traverse_fold<V: Folder>(self, folder: &mut V) -> (r: ControlFlow<V::Break, Self>)
        ensures
            *final(folder) == *old(folder),
            r == ControlFlow::<V::Break, Self>::Continue(self),
    {
        proof {
            lemma_reachable_refl(fold_step::<V>(), *folder);
            assert(walk(fold_step::<V>(), Seq::empty(), *folder, *folder, ControlFlow::Continue(())));
        }
        ControlFlow::Continue(self)
    }
}

} // verus!
