//! Containers: each traverses the values it holds, in order, and nothing of its own.

use core::ops::ControlFlow;
use std::boxed::Box;
use std::collections::BTreeMap;
use std::collections::BTreeSet;
use std::collections::HashMap;
use std::collections::HashSet;
use std::collections::VecDeque;
use std::sync::Arc;
use std::vec::Vec;
use vstd::prelude::*;
use vstd::std_specs::btree::key_obeys_cmp_spec;
use vstd::std_specs::btree::spec_btree_keys_iter;
use vstd::std_specs::btree::spec_btree_map_iter;
use vstd::std_specs::hash::obeys_key_model;
use vstd::std_specs::hash::spec_hash_keys_iter;
use vstd::std_specs::hash::spec_hash_map_iter;
use vstd::std_specs::iter::IteratorSpec;
use vstd::std_specs::iter::VerusForLoopWrapper;

use crate::Folder;
use crate::Traversable;
use crate::TraversableFold;
use crate::TraversableMut;
use crate::Visitor;
use crate::VisitorMut;
use crate::walk::Event;
use crate::walk::concat;
use crate::walk::items_folded;
use crate::walk::lemma_concat_push;
use crate::walk::lemma_items_next;
use crate::walk::lemma_seq_mut_steps_append;
use crate::walk::lemma_seq_mut_steps_stop;
use crate::walk::lemma_concat_two;
use crate::walk::lemma_items_folded_next;
use crate::walk::in_order_upto;
use crate::walk::items_kept;
use crate::walk::items_mut_steps;
use crate::walk::lemma_in_order_go;
use crate::walk::lemma_in_order_start;
use crate::walk::lemma_in_order_stop;
use crate::walk::seq_fold_steps;
use crate::walk::seq_mut_steps;
use crate::walk::erase;
use crate::walk::fold_step;
use crate::walk::folded;
use crate::walk::lemma_reachable_refl;
use crate::walk::lemma_reachable_then;
use crate::walk::lemma_walk_append;
use crate::walk::lemma_walk_break;
use crate::walk::reachable;
use crate::walk::seq_events;
use crate::walk::visit_mut_step;
use crate::walk::visit_step;
use crate::walk::walk;

verus! {

/// Traverses the items of a slice in order, stopping at the first break.
fn traverse_items<T: Traversable, V: Visitor>(items: &[T], visitor: &mut V) -> (r: ControlFlow<
    V::Break,
>)
    requires
        old(visitor).wf(),
    ensures
        final(visitor).wf(),
        reachable(visit_step::<V>(), *old(visitor), *final(visitor), r),
        T::reports_events() ==> walk(visit_step::<V>(), seq_events(items@), *old(visitor), *final(visitor), r),
{
    let ghost v0 = *visitor;
    let n = items.len();
    let mut i: usize = 0;
    assert(items@.take(0) =~= Seq::<T>::empty());
    proof {
        lemma_reachable_refl(visit_step::<V>(), v0);
    }
    while i < n
        invariant
            n == items@.len(),
            i <= n,
            v0 == *old(visitor),
            visitor.wf(),
            reachable(visit_step::<V>(), v0, *visitor, ControlFlow::Continue(())),
            T::reports_events() ==> walk(
                visit_step::<V>(),
                seq_events(items@.take(i as int)),
                v0,
                *visitor,
                ControlFlow::Continue(()),
            ),
        decreases n - i,
    {
        let ghost mid = *visitor;
        let r = items[i].traverse(visitor);
        proof {
            lemma_reachable_then(visit_step::<V>(), v0, mid, *visitor, r);
        }
        proof {
            if T::reports_events() {
                lemma_items_next(visit_step::<V>(), items@, i as int, v0, mid, *visitor, r);
            }
        }
        match r {
            ControlFlow::Break(b) => {
                return ControlFlow::Break(b);
            },
            ControlFlow::Continue(u) => {
                assert(u == ());
            },
        }
        i = i + 1;
    }
    assert(items@.take(n as int) =~= items@);
    ControlFlow::Continue(())
}

/// Traverses the items of a mutable slice in order, stopping at the first break.
fn traverse_items_mut<T: TraversableMut, V: VisitorMut>(items: &mut [T], visitor: &mut V) -> (r:
    ControlFlow<V::Break>)
    requires
        old(visitor).wf_mut(),
    ensures
        final(visitor).wf_mut(),
        final(items)@.len() == old(items)@.len(),
        reachable(visit_mut_step::<V>(), *old(visitor), *final(visitor), r),
        T::reports_mut_steps() ==> exists|es: Seq<Event>|
            seq_mut_steps(old(items)@, final(items)@, es, r is Continue) && #[trigger] walk(
                visit_mut_step::<V>(),
                es,
                *old(visitor),
                *final(visitor),
                r,
            ),
{
    let ghost v0 = *visitor;
    let ghost pre = items@;
    let ghost mut parts: Seq<Seq<Event>> = Seq::empty();
    let ghost mut es: Seq<Event> = Seq::empty();
    proof {
        lemma_reachable_refl(visit_mut_step::<V>(), v0);
        lemma_in_order_start(items_mut_steps(pre, pre), items_kept(pre, pre));
    }
    let n = items.len();
    let mut i: usize = 0;
    while i < n
        invariant
            n == items@.len(),
            pre == old(items)@,
            pre.len() == n,
            i <= n,
            v0 == *old(visitor),
            visitor.wf_mut(),
            reachable(visit_mut_step::<V>(), v0, *visitor, ControlFlow::Continue(())),
            items@.skip(i as int) == pre.skip(i as int),
            T::reports_mut_steps() ==> {
                &&& in_order_upto(
                    i as int,
                    items_mut_steps(pre, items@),
                    items_kept(pre, items@),
                    parts,
                    Seq::empty(),
                    es,
                    true,
                )
                &&& walk(visit_mut_step::<V>(), es, v0, *visitor, ControlFlow::Continue(()))
            },
        decreases n - i,
    {
        let ghost mid = *visitor;
        let ghost cur = items@;
        let r = items[i].traverse_mut(visitor);
        proof {
            lemma_reachable_then(visit_mut_step::<V>(), v0, mid, *visitor, r);
            assert(pre[i as int] == cur[i as int]) by {
                assert(pre[i as int] == pre.skip(i as int)[0]);
                assert(cur[i as int] == cur.skip(i as int)[0]);
            }
            assert(items@ =~= cur.update(i as int, items@[i as int]));
            assert(items@.skip(i + 1) =~= pre.skip(i + 1)) by {
                assert(pre.skip(i + 1) =~= pre.skip(i as int).skip(1));
                assert(cur.skip(i + 1) =~= cur.skip(i as int).skip(1));
            }
            if T::reports_mut_steps() {
                let e = choose|e: Seq<Event>|
                    cur[i as int].mut_steps(&items@[i as int], e, r is Continue) && #[trigger] walk(
                        visit_mut_step::<V>(),
                        e,
                        mid,
                        *visitor,
                        r,
                    );
                lemma_walk_append(visit_mut_step::<V>(), es, e, v0, mid, *visitor, r);
                lemma_in_order_go(
                    i as int,
                    items_mut_steps(pre, cur),
                    items_mut_steps(pre, items@),
                    items_kept(pre, items@),
                    parts,
                    Seq::empty(),
                    es,
                    e,
                    r is Continue,
                );
                if r is Continue {
                    parts = parts.push(e);
                } else {
                    assert forall|j: int| i + 1 <= j < n implies #[trigger] items_kept(
                        pre,
                        items@,
                    )(j) by {
                        assert(items@[j] == items@.skip(i + 1)[j - i - 1]);
                        assert(pre[j] == pre.skip(i + 1)[j - i - 1]);
                    }
                    lemma_in_order_stop(
                        i + 1,
                        n as int,
                        items_mut_steps(pre, items@),
                        items_kept(pre, items@),
                        parts,
                        e,
                        es + e,
                    );
                }
                es = es + e;
            }
        }
        match r {
            ControlFlow::Break(b) => {
                return ControlFlow::Break(b);
            },
            ControlFlow::Continue(u) => {
                assert(u == ());
            },
        }
        i = i + 1;
    }
    ControlFlow::Continue(())
}

impl<T: Traversable> Traversable for [T] {
    open spec fn reports_events() -> bool {
        T::reports_events()
    }

    /// The events of the items, item by item, in order.
    open spec fn events(&self) -> Seq<Event> {
        seq_events(self@)
    }

    fn traverse<V: Visitor>(&self, visitor: &mut V) -> (r: ControlFlow<V::Break>) {
        traverse_items(self, visitor)
    }
}

impl<T: TraversableMut> TraversableMut for [T] {
    open spec fn reports_mut_steps() -> bool {
        T::reports_mut_steps()
    }

    /// The items are traversed one by one, in order.
    open spec fn mut_steps(&self, post: &Self, es: Seq<Event>, done: bool) -> bool {
        seq_mut_steps(self@, post@, es, done)
    }

    fn traverse_mut<V: VisitorMut>(&mut self, visitor: &mut V) -> (r: ControlFlow<V::Break>)
        ensures
            final(self)@.len() == old(self)@.len(),
    {
        traverse_items_mut(self, visitor)
    }
}

impl<T: Traversable, const N: usize> Traversable for [T; N] {
    open spec fn reports_events() -> bool {
        T::reports_events()
    }

    /// The events of the items, item by item, in order.
    open spec fn events(&self) -> Seq<Event> {
        seq_events(self@)
    }

    fn traverse<V: Visitor>(&self, visitor: &mut V) -> (r: ControlFlow<V::Break>) {
        traverse_items(self.as_slice(), visitor)
    }
}

impl<T: TraversableMut, const N: usize> TraversableMut for [T; N] {
    open spec fn reports_mut_steps() -> bool {
        T::reports_mut_steps()
    }

    /// The items are traversed one by one, in order.
    open spec fn mut_steps(&self, post: &Self, es: Seq<Event>, done: bool) -> bool {
        seq_mut_steps(self@, post@, es, done)
    }

    fn traverse_mut<V: VisitorMut>(&mut self, visitor: &mut V) -> (r: ControlFlow<V::Break>) {
        traverse_items_mut(self, visitor)
    }
}

impl<T: Traversable> Traversable for Vec<T> {
    open spec fn reports_events() -> bool {
        T::reports_events()
    }

    /// The events of the items, item by item, in order.
    open spec fn events(&self) -> Seq<Event> {
        seq_events(self@)
    }

    fn traverse<V: Visitor>(&self, visitor: &mut V) -> (r: ControlFlow<V::Break>) {
        traverse_items(self.as_slice(), visitor)
    }
}

impl<T: TraversableMut> TraversableMut for Vec<T> {
    open spec fn reports_mut_steps() -> bool {
        T::reports_mut_steps()
    }

    /// The items are traversed one by one, in order.
    open spec fn mut_steps(&self, post: &Self, es: Seq<Event>, done: bool) -> bool {
        seq_mut_steps(self@, post@, es, done)
    }

    fn traverse_mut<V: VisitorMut>(&mut self, visitor: &mut V) -> (r: ControlFlow<V::Break>)
        ensures
            final(self).len() == old(self).len(),
    {
        traverse_items_mut(self.as_mut_slice(), visitor)
    }
}

impl<T: TraversableFold> TraversableFold for Vec<T> {
    open spec fn reports_fold_steps() -> bool {
        T::reports_fold_steps()
    }

    /// The items are folded one by one, in order, into a vector of the results.
    open spec fn fold_steps(&self, out: Option<Self>, es: Seq<Event>) -> bool {
        seq_fold_steps(
            self@,
            match out {
                Some(v) => Some(v@),
                None => None,
            },
            es,
        )
    }

    fn traverse_fold<V: Folder>(self, folder: &mut V) -> (r: ControlFlow<V::Break, Self>)
        ensures
            r matches ControlFlow::Continue(out) ==> out.len() == self.len(),
    {
        let ghost f0 = *folder;
        let ghost pre = self@;
        let ghost mut parts: Seq<Seq<Event>> = Seq::empty();
        proof {
            lemma_reachable_refl(fold_step::<V>(), f0);
        }
        let mut out: Vec<T> = Vec::new();
        proof {
            assert(items_folded(pre, out@, parts));
        }
        for item in iter: self
            invariant
                pre == iter.seq(),
                out.len() == iter.index(),
                f0 == *old(folder),
                folder.wf_fold(),
                reachable(fold_step::<V>(), f0, *folder, ControlFlow::Continue(())),
                T::reports_fold_steps() ==> {
                    &&& items_folded(pre, out@, parts)
                    &&& walk(fold_step::<V>(), concat(parts), f0, *folder, ControlFlow::Continue(()))
                },
        {
            let ghost mid = *folder;
            let ghost i = out.len() as int;
            assert(item == pre[i]);
            let r = item.traverse_fold(folder);
            proof {
                lemma_reachable_then(fold_step::<V>(), f0, mid, *folder, erase(r));
            }
            proof {
                if T::reports_fold_steps() {
                    let e = choose|e: Seq<Event>|
                        pre[i].fold_steps(folded(r), e) && #[trigger] walk(
                            fold_step::<V>(),
                            e,
                            mid,
                            *folder,
                            erase(r),
                        );
                    lemma_walk_append(fold_step::<V>(), concat(parts), e, f0, mid, *folder, erase(r));
                    if let Some(y) = folded(r) {
                        lemma_items_folded_next(pre, out@, parts, y, e);
                        lemma_concat_push(parts, e);
                        parts = parts.push(e);
                    } else {
                        let c = concat(parts);
                        assert((c + e).subrange(0, c.len() as int) =~= c);
                        assert((c + e).skip(c.len() as int) =~= e);
                        assert(seq_fold_steps(pre, None, c + e));
                        assert(walk(fold_step::<V>(), c + e, f0, *folder, erase(r)));
                    }
                }
            }
            match r {
                ControlFlow::Break(b) => {
                    return ControlFlow::Break(b);
                },
                ControlFlow::Continue(folded) => {
                    out.push(folded);
                },
            }
        }
        proof {
            if T::reports_fold_steps() {
                assert(items_folded(pre, out@, parts));
                assert(seq_fold_steps(pre, Some(out@), concat(parts)));
                assert(walk(fold_step::<V>(), concat(parts), f0, *folder, ControlFlow::Continue(())));
            }
        }
        ControlFlow::Continue(out)
    }
}

impl<T: Traversable> Traversable for Option<T> {
    open spec fn reports_events() -> bool {
        T::reports_events()
    }

    /// The events of the value held, if any.
    open spec fn events(&self) -> Seq<Event> {
        match self {
            Some(x) => x.events(),
            None => Seq::empty(),
        }
    }

    fn traverse<V: Visitor>(&self, visitor: &mut V) -> (r: ControlFlow<V::Break>) {
        match self {
            Some(x) => x.traverse(visitor),
            None => {
                proof {
                    lemma_reachable_refl(visit_step::<V>(), *visitor);
                }
                ControlFlow::Continue(())
            },
        }
    }
}

impl<T: TraversableMut> TraversableMut for Option<T> {
    open spec fn reports_mut_steps() -> bool {
        T::reports_mut_steps()
    }

    /// The value held, if any, is traversed; the option stays `Some` or `None`.
    open spec fn mut_steps(&self, post: &Self, es: Seq<Event>, done: bool) -> bool {
        match (*self, *post) {
            (Some(x), Some(y)) => x.mut_steps(&y, es, done),
            (None, None) => es.len() == 0 && done,
            _ => false,
        }
    }

    fn traverse_mut<V: VisitorMut>(&mut self, visitor: &mut V) -> (r: ControlFlow<V::Break>)
        ensures
            final(self).is_some() == old(self).is_some(),
    {
        let ghost v0 = *visitor;
        match self {
            Some(x) => {
                let ghost x0 = *x;
                let r = x.traverse_mut(visitor);
                proof {
                    if T::reports_mut_steps() {
                        let es = choose|es: Seq<Event>|
                            x0.mut_steps(x, es, r is Continue) && #[trigger] walk(
                                visit_mut_step::<V>(),
                                es,
                                v0,
                                *visitor,
                                r,
                            );
                        assert(walk(visit_mut_step::<V>(), es, v0, *visitor, r));
                    }
                }
                r
            },
            None => {
                proof {
                    lemma_reachable_refl(visit_mut_step::<V>(), *visitor);
                    assert(walk(visit_mut_step::<V>(), Seq::empty(), v0, v0, ControlFlow::Continue(())));
                }
                ControlFlow::Continue(())
            },
        }
    }
}

impl<T: TraversableFold> TraversableFold for Option<T> {
    open spec fn reports_fold_steps() -> bool {
        T::reports_fold_steps()
    }

    /// The value held, if any, is folded; `None` is handed back as it is.
    open spec fn fold_steps(&self, out: Option<Self>, es: Seq<Event>) -> bool {
        match (*self, out) {
            (Some(x), None) => x.fold_steps(None, es),
            (Some(x), Some(Some(y))) => x.fold_steps(Some(y), es),
            (None, Some(None)) => es.len() == 0,
            _ => false,
        }
    }

    fn traverse_fold<V: Folder>(self, folder: &mut V) -> (r: ControlFlow<V::Break, Self>)
        ensures
            r matches ControlFlow::Continue(out) ==> out.is_some() == self.is_some(),
    {
        let ghost f0 = *folder;
        match self {
            Some(x) => {
                let ghost x0 = x;
                let r1 = x.traverse_fold(folder);
                let ghost es = choose|es: Seq<Event>|
                    x0.fold_steps(folded(r1), es) && #[trigger] walk(
                        fold_step::<V>(),
                        es,
                        f0,
                        *folder,
                        erase(r1),
                    );
                let r = match r1 {
                    ControlFlow::Break(b) => ControlFlow::Break(b),
                    ControlFlow::Continue(x) => ControlFlow::Continue(Some(x)),
                };
                proof {
                    if T::reports_fold_steps() {
                        assert(walk(fold_step::<V>(), es, f0, *folder, erase(r)));
                    }
                }
                r
            },
            None => {
                proof {
                    lemma_reachable_refl(fold_step::<V>(), *folder);
                    assert(walk(fold_step::<V>(), Seq::empty(), f0, f0, ControlFlow::Continue(())));
                }
                ControlFlow::Continue(None)
            },
        }
    }
}

impl<T: Traversable, U> Traversable for Result<T, U> {
    open spec fn reports_events() -> bool {
        T::reports_events()
    }

    /// The events of the `Ok` value; an `Err` value is not traversed.
    open spec fn events(&self) -> Seq<Event> {
        match self {
            Ok(x) => x.events(),
            Err(_) => Seq::empty(),
        }
    }

    fn traverse<V: Visitor>(&self, visitor: &mut V) -> (r: ControlFlow<V::Break>) {
        match self {
            Ok(x) => x.traverse(visitor),
            Err(_) => {
                proof {
                    lemma_reachable_refl(visit_step::<V>(), *visitor);
                }
                ControlFlow::Continue(())
            },
        }
    }
}

impl<T: TraversableMut, U> TraversableMut for Result<T, U> {
    open spec fn reports_mut_steps() -> bool {
        T::reports_mut_steps()
    }

    /// The `Ok` value is traversed; an `Err` value stays as it is.
    open spec fn mut_steps(&self, post: &Self, es: Seq<Event>, done: bool) -> bool {
        match (*self, *post) {
            (Ok(x), Ok(y)) => x.mut_steps(&y, es, done),
            (Err(a), Err(b)) => a == b && es.len() == 0 && done,
            _ => false,
        }
    }

    fn traverse_mut<V: VisitorMut>(&mut self, visitor: &mut V) -> (r: ControlFlow<V::Break>)
        ensures
            final(self).is_ok() == old(self).is_ok(),
            old(self).is_err() ==> *final(self) == *old(self) && *final(visitor) == *old(visitor)
                && r == ControlFlow::<V::Break, ()>::Continue(()),
    {
        let ghost v0 = *visitor;
        match self {
            Ok(x) => {
                let ghost x0 = *x;
                let r = x.traverse_mut(visitor);
                proof {
                    if T::reports_mut_steps() {
                        let es = choose|es: Seq<Event>|
                            x0.mut_steps(x, es, r is Continue) && #[trigger] walk(
                                visit_mut_step::<V>(),
                                es,
                                v0,
                                *visitor,
                                r,
                            );
                        assert(walk(visit_mut_step::<V>(), es, v0, *visitor, r));
                    }
                }
                r
            },
            Err(_) => {
                proof {
                    lemma_reachable_refl(visit_mut_step::<V>(), *visitor);
                    assert(walk(visit_mut_step::<V>(), Seq::empty(), v0, v0, ControlFlow::Continue(())));
                }
                ControlFlow::Continue(())
            },
        }
    }
}

impl<T: TraversableFold, U> TraversableFold for Result<T, U> {
    open spec fn reports_fold_steps() -> bool {
        T::reports_fold_steps()
    }

    /// The `Ok` value is folded; an `Err` value is handed back as it is.
    open spec fn fold_steps(&self, out: Option<Self>, es: Seq<Event>) -> bool {
        match (*self, out) {
            (Ok(x), None) => x.fold_steps(None, es),
            (Ok(x), Some(Ok(y))) => x.fold_steps(Some(y), es),
            (Err(a), Some(Err(b))) => a == b && es.len() == 0,
            _ => false,
        }
    }

    fn traverse_fold<V: Folder>(self, folder: &mut V) -> (r: ControlFlow<V::Break, Self>)
        ensures
            r matches ControlFlow::Continue(out) ==> out.is_ok() == self.is_ok(),
            self is Err ==> r == ControlFlow::<V::Break, Self>::Continue(self) && *final(folder)
                == *old(folder),
    {
        let ghost f0 = *folder;
        match self {
            Ok(x) => {
                let ghost x0 = x;
                let r1 = x.traverse_fold(folder);
                let ghost es = choose|es: Seq<Event>|
                    x0.fold_steps(folded(r1), es) && #[trigger] walk(
                        fold_step::<V>(),
                        es,
                        f0,
                        *folder,
                        erase(r1),
                    );
                let r = match r1 {
                    ControlFlow::Break(b) => ControlFlow::Break(b),
                    ControlFlow::Continue(x) => ControlFlow::Continue(Ok(x)),
                };
                proof {
                    if T::reports_fold_steps() {
                        assert(walk(fold_step::<V>(), es, f0, *folder, erase(r)));
                    }
                }
                r
            },
            Err(e) => {
                proof {
                    lemma_reachable_refl(fold_step::<V>(), *folder);
                    assert(walk(fold_step::<V>(), Seq::empty(), f0, f0, ControlFlow::Continue(())));
                }
                ControlFlow::Continue(Err(e))
            },
        }
    }
}

impl<T: Traversable> Traversable for Box<T> {
    open spec fn reports_events() -> bool {
        T::reports_events()
    }

    /// The events of the boxed value.
    open spec fn events(&self) -> Seq<Event> {
        (**self).events()
    }

    fn traverse<V: Visitor>(&self, visitor: &mut V) -> (r: ControlFlow<V::Break>) {
        (**self).traverse(visitor)
    }
}

impl<T: TraversableMut> TraversableMut for Box<T> {
    open spec fn reports_mut_steps() -> bool {
        T::reports_mut_steps()
    }

    /// The boxed value is traversed.
    open spec fn mut_steps(&self, post: &Self, es: Seq<Event>, done: bool) -> bool {
        (**self).mut_steps(&**post, es, done)
    }

    fn traverse_mut<V: VisitorMut>(&mut self, visitor: &mut V) -> (r: ControlFlow<V::Break>) {
        (**self).traverse_mut(visitor)
    }
}

impl<T: TraversableFold> TraversableFold for Box<T> {
    open spec fn reports_fold_steps() -> bool {
        T::reports_fold_steps()
    }

    /// The boxed value is folded and boxed again.
    open spec fn fold_steps(&self, out: Option<Self>, es: Seq<Event>) -> bool {
        match out {
            Some(b) => (**self).fold_steps(Some(*b), es),
            None => (**self).fold_steps(None, es),
        }
    }

    fn traverse_fold<V: Folder>(self, folder: &mut V) -> (r: ControlFlow<V::Break, Self>) {
        match (*self).traverse_fold(folder) {
            ControlFlow::Break(b) => ControlFlow::Break(b),
            ControlFlow::Continue(x) => ControlFlow::Continue(Box::new(x)),
        }
    }
}

impl<T: Traversable> Traversable for Arc<T> {
    open spec fn reports_events() -> bool {
        T::reports_events()
    }

    /// The events of the shared value.
    open spec fn events(&self) -> Seq<Event> {
        (**self).events()
    }

    fn traverse<V: Visitor>(&self, visitor: &mut V) -> (r: ControlFlow<V::Break>) {
        (**self).traverse(visitor)
    }
}

/// Calls `VecDeque::as_mut_slices`, which returns the deque's items as two
/// mutable slices that hold, in order, its contents (std documentation): the
/// first slice and then the second hold the items front to back, and the deque
/// afterwards holds what the two slices hold, in the same order, at the end of
/// the borrow. The deque's layout is not changed.
#[verifier::external_body]
fn halves<T>(deque: &mut VecDeque<T>) -> (r: (&mut [T], &mut [T]))
    ensures
        r.0@ + r.1@ == old(deque)@,
        final(deque)@ == final(r.0)@ + final(r.1)@,
{
    deque.as_mut_slices()
}

impl<T: TraversableMut> TraversableMut for VecDeque<T> {
    open spec fn reports_mut_steps() -> bool {
        T::reports_mut_steps()
    }

    /// The items are traversed one by one, front to back.
    open spec fn mut_steps(&self, post: &Self, es: Seq<Event>, done: bool) -> bool {
        seq_mut_steps(self@, post@, es, done)
    }

    fn traverse_mut<V: VisitorMut>(&mut self, visitor: &mut V) -> (r: ControlFlow<V::Break>)
        ensures
            final(self)@.len() == old(self)@.len(),
    {
        let ghost v0 = *visitor;
        let (front, back) = halves(self);
        let ghost front0 = front@;
        let ghost back0 = back@;
        let r = traverse_items_mut(front, visitor);
        match r {
            ControlFlow::Break(b) => {
                proof {
                    if T::reports_mut_steps() {
                        let es = choose|es: Seq<Event>|
                            seq_mut_steps(front0, front@, es, false) && #[trigger] walk(
                                visit_mut_step::<V>(),
                                es,
                                v0,
                                *visitor,
                                r,
                            );
                        lemma_seq_mut_steps_stop(front0, front@, back0, es);
                        assert(walk(visit_mut_step::<V>(), es, v0, *visitor, r));
                    }
                }
                return ControlFlow::Break(b);
            },
            ControlFlow::Continue(u) => {
                assert(u == ());
            },
        }
        let ghost mid = *visitor;
        let r = traverse_items_mut(back, visitor);
        proof {
            lemma_reachable_then(visit_mut_step::<V>(), v0, mid, *visitor, r);
            if T::reports_mut_steps() {
                let e1 = choose|es: Seq<Event>|
                    seq_mut_steps(front0, front@, es, true) && #[trigger] walk(
                        visit_mut_step::<V>(),
                        es,
                        v0,
                        mid,
                        ControlFlow::Continue(()),
                    );
                let e2 = choose|es: Seq<Event>|
                    seq_mut_steps(back0, back@, es, r is Continue) && #[trigger] walk(
                        visit_mut_step::<V>(),
                        es,
                        mid,
                        *visitor,
                        r,
                    );
                lemma_seq_mut_steps_append(front0, front@, back0, back@, e1, e2, r is Continue);
                lemma_walk_append(visit_mut_step::<V>(), e1, e2, v0, mid, *visitor, r);
            }
        }
        r
    }
}

impl<T: Traversable> Traversable for VecDeque<T> {
    open spec fn reports_events() -> bool {
        T::reports_events()
    }

    /// The events of the items, front to back.
    open spec fn events(&self) -> Seq<Event> {
        seq_events(self@)
    }

    fn traverse<V: Visitor>(&self, visitor: &mut V) -> (r: ControlFlow<V::Break>) {
        let ghost v0 = *visitor;
        let n = self.len();
        let mut i: usize = 0;
        assert(self@.take(0) =~= Seq::<T>::empty());
        proof {
            lemma_reachable_refl(visit_step::<V>(), v0);
        }
        while i < n
            invariant
                n == self@.len(),
                i <= n,
                v0 == *old(visitor),
                visitor.wf(),
                reachable(visit_step::<V>(), v0, *visitor, ControlFlow::Continue(())),
                T::reports_events() ==> walk(
                    visit_step::<V>(),
                    seq_events(self@.take(i as int)),
                    v0,
                    *visitor,
                    ControlFlow::Continue(()),
                ),
            decreases n - i,
        {
            let ghost mid = *visitor;
            let r = self[i].traverse(visitor);
            proof {
                lemma_reachable_then(visit_step::<V>(), v0, mid, *visitor, r);
            }
            proof {
                if T::reports_events() {
                    lemma_items_next(visit_step::<V>(), self@, i as int, v0, mid, *visitor, r);
                }
            }
            match r {
                ControlFlow::Break(b) => {
                    return ControlFlow::Break(b);
                },
                ControlFlow::Continue(u) => {
                    assert(u == ());
                },
            }
            i = i + 1;
        }
        assert(self@.take(n as int) =~= self@);
        ControlFlow::Continue(())
    }
}

/// Traverses a key and then its value.
fn traverse_entry<K: Traversable, U: Traversable, V: Visitor>(
    key: &K,
    value: &U,
    visitor: &mut V,
) -> (r: ControlFlow<V::Break>)
    requires
        old(visitor).wf(),
    ensures
        final(visitor).wf(),
        reachable(visit_step::<V>(), *old(visitor), *final(visitor), r),
        K::reports_events() && U::reports_events() ==> walk(
            visit_step::<V>(),
            (*key, *value).events(),
            *old(visitor),
            *final(visitor),
            r,
        ),
{
    let ghost v0 = *visitor;
    let r = key.traverse(visitor);
    match r {
        ControlFlow::Break(b) => {
            proof {
                if K::reports_events() && U::reports_events() {
                    lemma_walk_break(visit_step::<V>(), key.events(), value.events(), v0, *visitor, r);
                    lemma_concat_two(key.events(), value.events());
                }
            }
            return ControlFlow::Break(b);
        },
        ControlFlow::Continue(u) => {
            assert(u == ());
        },
    }
    let ghost mid = *visitor;
    let r = value.traverse(visitor);
    proof {
        lemma_reachable_then(visit_step::<V>(), v0, mid, *visitor, r);
        if K::reports_events() && U::reports_events() {
            lemma_walk_append(visit_step::<V>(), key.events(), value.events(), v0, mid, *visitor, r);
            lemma_concat_two(key.events(), value.events());
        }
    }
    r
}

impl<T: Traversable + 'static, U: Traversable + 'static> Traversable for HashMap<T, U> {
    open spec fn reports_events() -> bool {
        &&& T::reports_events()
        &&& U::reports_events()
        &&& obeys_key_model::<T>()
    }

    /// The events of the entries in the map's order of iteration: for each
    /// entry, those of its key and then those of its value.
    open spec fn events(&self) -> Seq<Event> {
        seq_events(vstd::std_specs::hash::into_iter(spec_hash_map_iter(self)))
    }

    fn traverse<V: Visitor>(&self, visitor: &mut V) -> (r: ControlFlow<V::Break>) {
        let ghost v0 = *visitor;
        let ghost entries = vstd::std_specs::hash::into_iter(spec_hash_map_iter(self));
        let n = self.len();
        let it = self.iter();
        proof {
            if Self::reports_events() {
                assert(it.remaining().len() == self@.dom().len());
                assert(entries == it.remaining().unref());
                assert(n == entries.len());
            }
        }
        let mut entries_left = VerusForLoopWrapper::new(it, Ghost(None));
        proof {
            assert(entries.take(0) =~= Seq::<(T, U)>::empty());
        }
        let mut i: usize = 0;
        proof {
            lemma_reachable_refl(visit_step::<V>(), v0);
        }
        while i < n
            invariant
                i <= n,
                v0 == *old(visitor),
                visitor.wf(),
                reachable(visit_step::<V>(), v0, *visitor, ControlFlow::Continue(())),
                entries == vstd::std_specs::hash::into_iter(spec_hash_map_iter(self)),
                entries_left.wf(),
                entries_left.index() == i,
                Self::reports_events() ==> {
                    &&& n == entries.len()
                    &&& entries_left.seq().unref() == entries
                    &&& walk(
                        visit_step::<V>(),
                        seq_events(entries.take(i as int)),
                        v0,
                        *visitor,
                        ControlFlow::Continue(()),
                    )
                },
            decreases n - i,
        {
            let next = entries_left.next();
            match next {
                Some(kv) => {
                    let (key, value) = kv;
                    let ghost mid = *visitor;
                    let r = traverse_entry(key, value, visitor);
                    proof {
                        lemma_reachable_then(visit_step::<V>(), v0, mid, *visitor, r);
                    }
                    proof {
                        if Self::reports_events() {
                            assert(entries[i as int] == (*key, *value));
                            lemma_items_next(visit_step::<V>(), entries, i as int, v0, mid, *visitor, r);
                        }
                    }
                    match r {
                        ControlFlow::Break(b) => {
                            return ControlFlow::Break(b);
                        },
                        ControlFlow::Continue(u) => {
                            assert(u == ());
                        },
                    }
                },
                None => {
                    assert(!Self::reports_events());
                    return ControlFlow::Continue(());
                },
            }
            i = i + 1;
        }
        proof {
            if Self::reports_events() {
                assert(entries.take(entries.len() as int) =~= entries);
            }
        }
        ControlFlow::Continue(())
    }
}

impl<T: Traversable + 'static, U: Traversable + 'static> Traversable for BTreeMap<T, U> {
    open spec fn reports_events() -> bool {
        &&& T::reports_events()
        &&& U::reports_events()
        &&& key_obeys_cmp_spec::<T>()
    }

    /// The events of the entries in the order of their keys: for each
    /// entry, those of its key and then those of its value.
    open spec fn events(&self) -> Seq<Event> {
        seq_events(vstd::std_specs::btree::into_iter(spec_btree_map_iter(self)))
    }

    fn traverse<V: Visitor>(&self, visitor: &mut V) -> (r: ControlFlow<V::Break>) {
        let ghost v0 = *visitor;
        let ghost entries = vstd::std_specs::btree::into_iter(spec_btree_map_iter(self));
        let n = self.len();
        let it = self.iter();
        proof {
            if Self::reports_events() {
                assert(it.remaining().len() == self@.dom().len());
                assert(entries == it.remaining().unref());
                assert(n == entries.len());
            }
        }
        let mut entries_left = VerusForLoopWrapper::new(it, Ghost(None));
        proof {
            assert(entries.take(0) =~= Seq::<(T, U)>::empty());
        }
        let mut i: usize = 0;
        proof {
            lemma_reachable_refl(visit_step::<V>(), v0);
        }
        while i < n
            invariant
                i <= n,
                v0 == *old(visitor),
                visitor.wf(),
                reachable(visit_step::<V>(), v0, *visitor, ControlFlow::Continue(())),
                entries == vstd::std_specs::btree::into_iter(spec_btree_map_iter(self)),
                entries_left.wf(),
                entries_left.index() == i,
                Self::reports_events() ==> {
                    &&& n == entries.len()
                    &&& entries_left.seq().unref() == entries
                    &&& walk(
                        visit_step::<V>(),
                        seq_events(entries.take(i as int)),
                        v0,
                        *visitor,
                        ControlFlow::Continue(()),
                    )
                },
            decreases n - i,
        {
            let next = entries_left.next();
            match next {
                Some(kv) => {
                    let (key, value) = kv;
                    let ghost mid = *visitor;
                    let r = traverse_entry(key, value, visitor);
                    proof {
                        lemma_reachable_then(visit_step::<V>(), v0, mid, *visitor, r);
                    }
                    proof {
                        if Self::reports_events() {
                            assert(entries[i as int] == (*key, *value));
                            lemma_items_next(visit_step::<V>(), entries, i as int, v0, mid, *visitor, r);
                        }
                    }
                    match r {
                        ControlFlow::Break(b) => {
                            return ControlFlow::Break(b);
                        },
                        ControlFlow::Continue(u) => {
                            assert(u == ());
                        },
                    }
                },
                None => {
                    assert(!Self::reports_events());
                    return ControlFlow::Continue(());
                },
            }
            i = i + 1;
        }
        proof {
            if Self::reports_events() {
                assert(entries.take(entries.len() as int) =~= entries);
            }
        }
        ControlFlow::Continue(())
    }
}

impl<T: Traversable + 'static> Traversable for HashSet<T> {
    open spec fn reports_events() -> bool {
        &&& T::reports_events()
        &&& obeys_key_model::<T>()
    }

    /// The events of the items, in the set's order of iteration.
    open spec fn events(&self) -> Seq<Event> {
        seq_events(vstd::std_specs::hash::into_iter_hash_keys(spec_hash_keys_iter(self)))
    }

    fn traverse<V: Visitor>(&self, visitor: &mut V) -> (r: ControlFlow<V::Break>) {
        let ghost v0 = *visitor;
        let ghost entries = vstd::std_specs::hash::into_iter_hash_keys(spec_hash_keys_iter(self));
        let n = self.len();
        let it = self.iter();
        proof {
            if Self::reports_events() {
                assert(it.remaining().len() == self@.len());
                assert(entries == it.remaining().unref());
                assert(n == entries.len());
            }
        }
        let mut entries_left = VerusForLoopWrapper::new(it, Ghost(None));
        proof {
            assert(entries.take(0) =~= Seq::<T>::empty());
        }
        let mut i: usize = 0;
        proof {
            lemma_reachable_refl(visit_step::<V>(), v0);
        }
        while i < n
            invariant
                i <= n,
                v0 == *old(visitor),
                visitor.wf(),
                reachable(visit_step::<V>(), v0, *visitor, ControlFlow::Continue(())),
                entries == vstd::std_specs::hash::into_iter_hash_keys(spec_hash_keys_iter(self)),
                entries_left.wf(),
                entries_left.index() == i,
                Self::reports_events() ==> {
                    &&& n == entries.len()
                    &&& entries_left.seq().unref() == entries
                    &&& walk(
                        visit_step::<V>(),
                        seq_events(entries.take(i as int)),
                        v0,
                        *visitor,
                        ControlFlow::Continue(()),
                    )
                },
            decreases n - i,
        {
            let next = entries_left.next();
            match next {
                Some(item) => {
                    let ghost mid = *visitor;
                    let r = item.traverse(visitor);
                    proof {
                        lemma_reachable_then(visit_step::<V>(), v0, mid, *visitor, r);
                    }
                    proof {
                        if Self::reports_events() {
                            assert(entries[i as int] == *item);
                            lemma_items_next(visit_step::<V>(), entries, i as int, v0, mid, *visitor, r);
                        }
                    }
                    match r {
                        ControlFlow::Break(b) => {
                            return ControlFlow::Break(b);
                        },
                        ControlFlow::Continue(u) => {
                            assert(u == ());
                        },
                    }
                },
                None => {
                    assert(!Self::reports_events());
                    return ControlFlow::Continue(());
                },
            }
            i = i + 1;
        }
        proof {
            if Self::reports_events() {
                assert(entries.take(entries.len() as int) =~= entries);
            }
        }
        ControlFlow::Continue(())
    }
}

impl<T: Traversable + 'static> Traversable for BTreeSet<T> {
    open spec fn reports_events() -> bool {
        &&& T::reports_events()
        &&& key_obeys_cmp_spec::<T>()
    }

    /// The events of the items, in their order.
    open spec fn events(&self) -> Seq<Event> {
        seq_events(vstd::std_specs::btree::into_iter_btree_keys(spec_btree_keys_iter(self)))
    }

    fn traverse<V: Visitor>(&self, visitor: &mut V) -> (r: ControlFlow<V::Break>) {
        let ghost v0 = *visitor;
        let ghost entries = vstd::std_specs::btree::into_iter_btree_keys(spec_btree_keys_iter(self));
        let n = self.len();
        let it = self.iter();
        proof {
            if Self::reports_events() {
                assert(it.remaining().len() == self@.len());
                assert(entries == it.remaining().unref());
                assert(n == entries.len());
            }
        }
        let mut entries_left = VerusForLoopWrapper::new(it, Ghost(None));
        proof {
            assert(entries.take(0) =~= Seq::<T>::empty());
        }
        let mut i: usize = 0;
        proof {
            lemma_reachable_refl(visit_step::<V>(), v0);
        }
        while i < n
            invariant
                i <= n,
                v0 == *old(visitor),
                visitor.wf(),
                reachable(visit_step::<V>(), v0, *visitor, ControlFlow::Continue(())),
                entries == vstd::std_specs::btree::into_iter_btree_keys(spec_btree_keys_iter(self)),
                entries_left.wf(),
                entries_left.index() == i,
                Self::reports_events() ==> {
                    &&& n == entries.len()
                    &&& entries_left.seq().unref() == entries
                    &&& walk(
                        visit_step::<V>(),
                        seq_events(entries.take(i as int)),
                        v0,
                        *visitor,
                        ControlFlow::Continue(()),
                    )
                },
            decreases n - i,
        {
            let next = entries_left.next();
            match next {
                Some(item) => {
                    let ghost mid = *visitor;
                    let r = item.traverse(visitor);
                    proof {
                        lemma_reachable_then(visit_step::<V>(), v0, mid, *visitor, r);
                    }
                    proof {
                        if Self::reports_events() {
                            assert(entries[i as int] == *item);
                            lemma_items_next(visit_step::<V>(), entries, i as int, v0, mid, *visitor, r);
                        }
                    }
                    match r {
                        ControlFlow::Break(b) => {
                            return ControlFlow::Break(b);
                        },
                        ControlFlow::Continue(u) => {
                            assert(u == ());
                        },
                    }
                },
                None => {
                    assert(!Self::reports_events());
                    return ControlFlow::Continue(());
                },
            }
            i = i + 1;
        }
        proof {
            if Self::reports_events() {
                assert(entries.take(entries.len() as int) =~= entries);
            }
        }
        ControlFlow::Continue(())
    }
}

} // verus!
