//! Tuples: each traverses its fields, in order.

use core::ops::ControlFlow;
use vstd::prelude::*;

use crate::Traversable;
use crate::TraversableMut;
use crate::Visitor;
use crate::VisitorMut;
use crate::walk::Event;
use crate::walk::concat;
use crate::walk::in_order;
use crate::walk::lemma_in_order_go;
use crate::walk::lemma_in_order_start;
use crate::walk::lemma_in_order_stop;
use crate::walk::lemma_reachable_refl;
use crate::walk::lemma_reachable_then;
use crate::walk::lemma_walk_append;
use crate::walk::lemma_walk_parts_next;
use crate::walk::lemma_walk_parts_start;
use crate::walk::visit_mut_step;
use crate::walk::visit_step;
use crate::walk::walk;

verus! {

impl<T0: Traversable> Traversable for (T0,) {
    open spec fn reports_events() -> bool {
        T0::reports_events()
    }

    /// The events of the fields, in order.
    open spec fn events(&self) -> Seq<Event> {
        concat(seq![self.0.events()])
    }

    fn traverse<V: Visitor>(&self, visitor: &mut V) -> (r: ControlFlow<V::Break>) {
        let ghost v0 = *visitor;
        let ghost parts = seq![self.0.events()];
        proof {
            lemma_reachable_refl(visit_step::<V>(), v0);
            lemma_walk_parts_start(visit_step::<V>(), parts, v0);
        }
        let ghost mid = *visitor;
        let r = self.0.traverse(visitor);
        proof {
            lemma_reachable_then(visit_step::<V>(), v0, mid, *visitor, r);
            if Self::reports_events() {
                lemma_walk_parts_next(visit_step::<V>(), parts, 0, v0, mid, *visitor, r);
            }
        }
        r
    }
}

/// What a mutable traversal may do to the field of a one-element tuple (`i` is 0):
/// field `i` of `pre` may become field `i` of `post`, reporting `e`, going
/// through when `d`.
pub open spec fn fields1_mut_steps<T0: TraversableMut>(
    pre: (T0,),
    post: (T0,),
) -> spec_fn(int, Seq<Event>, bool) -> bool {
    |i: int, e: Seq<Event>, d: bool|
        pre.0.mut_steps(&post.0, e, d)
}

/// Whether field `j` of `post` is as in `pre`.
pub open spec fn fields1_kept<T0>(pre: (T0,), post: (T0,)) -> spec_fn(int) -> bool {
    |j: int|
        post.0 == pre.0
}

impl<T0: TraversableMut> TraversableMut for (T0,) {
    open spec fn reports_mut_steps() -> bool {
        T0::reports_mut_steps()
    }

    /// The fields are traversed one by one, in order; after a break, the later
    /// fields are left as they were.
    open spec fn mut_steps(&self, post: &Self, es: Seq<Event>, done: bool) -> bool {
        in_order(1, fields1_mut_steps(*self, *post), fields1_kept(*self, *post), es, done)
    }

    fn traverse_mut<V: VisitorMut>(&mut self, visitor: &mut V) -> (r: ControlFlow<V::Break>) {
        let ghost v0 = *visitor;
        let ghost pre = *self;
        let ghost mut parts: Seq<Seq<Event>> = Seq::empty();
        let ghost mut last: Seq<Event> = Seq::empty();
        let ghost mut es: Seq<Event> = Seq::empty();
        proof {
            lemma_reachable_refl(visit_mut_step::<V>(), v0);
            lemma_in_order_start(fields1_mut_steps(pre, pre), fields1_kept(pre, pre));
        }
        let ghost before = *self;
        let ghost mid = *visitor;
        let r = self.0.traverse_mut(visitor);
        proof {
            lemma_reachable_then(visit_mut_step::<V>(), v0, mid, *visitor, r);
            if Self::reports_mut_steps() {
                let e = choose|e: Seq<Event>|
                    pre.0.mut_steps(&self.0, e, r is Continue) && #[trigger] walk(
                        visit_mut_step::<V>(),
                        e,
                        mid,
                        *visitor,
                        r,
                    );
                lemma_walk_append(visit_mut_step::<V>(), es, e, v0, mid, *visitor, r);
                lemma_in_order_go(
                    0,
                    fields1_mut_steps(pre, before),
                    fields1_mut_steps(pre, *self),
                    fields1_kept(pre, *self),
                    parts,
                    last,
                    es,
                    e,
                    r is Continue,
                );
                if r is Continue {
                    parts = parts.push(e);
                } else {
                    last = e;
                }
                es = es + e;
            }
        }
        r
    }
}

impl<T0: Traversable, T1: Traversable> Traversable for (T0, T1) {
    open spec fn reports_events() -> bool {
        T0::reports_events() && T1::reports_events()
    }

    /// The events of the fields, in order.
    open spec fn events(&self) -> Seq<Event> {
        concat(seq![self.0.events(), self.1.events()])
    }

    fn traverse<V: Visitor>(&self, visitor: &mut V) -> (r: ControlFlow<V::Break>) {
        let ghost v0 = *visitor;
        let ghost parts = seq![self.0.events(), self.1.events()];
        proof {
            lemma_reachable_refl(visit_step::<V>(), v0);
            lemma_walk_parts_start(visit_step::<V>(), parts, v0);
        }
        let ghost mid = *visitor;
        let r = self.0.traverse(visitor);
        proof {
            lemma_reachable_then(visit_step::<V>(), v0, mid, *visitor, r);
            if Self::reports_events() {
                lemma_walk_parts_next(visit_step::<V>(), parts, 0, v0, mid, *visitor, r);
            }
        }
        match r {
            ControlFlow::Break(b) => {
                return ControlFlow::Break(b);
            },
            ControlFlow::Continue(u) => {
                assert(u == ());
            },
        }
        let ghost mid = *visitor;
        let r = self.1.traverse(visitor);
        proof {
            lemma_reachable_then(visit_step::<V>(), v0, mid, *visitor, r);
            if Self::reports_events() {
                lemma_walk_parts_next(visit_step::<V>(), parts, 1, v0, mid, *visitor, r);
            }
        }
        r
    }
}

/// What a mutable traversal may do to each field of a pair:
/// field `i` of `pre` may become field `i` of `post`, reporting `e`, going
/// through when `d`.
pub open spec fn fields2_mut_steps<T0: TraversableMut, T1: TraversableMut>(
    pre: (T0, T1),
    post: (T0, T1),
) -> spec_fn(int, Seq<Event>, bool) -> bool {
    |i: int, e: Seq<Event>, d: bool|
        if i == 0 {
            pre.0.mut_steps(&post.0, e, d)
        } else {
            pre.1.mut_steps(&post.1, e, d)
        }
}

/// Whether field `j` of `post` is as in `pre`.
pub open spec fn fields2_kept<T0, T1>(pre: (T0, T1), post: (T0, T1)) -> spec_fn(int) -> bool {
    |j: int|
        if j == 0 {
            post.0 == pre.0
        } else {
            post.1 == pre.1
        }
}

impl<T0: TraversableMut, T1: TraversableMut> TraversableMut for (T0, T1) {
    open spec fn reports_mut_steps() -> bool {
        T0::reports_mut_steps() && T1::reports_mut_steps()
    }

    /// The fields are traversed one by one, in order; after a break, the later
    /// fields are left as they were.
    open spec fn mut_steps(&self, post: &Self, es: Seq<Event>, done: bool) -> bool {
        in_order(2, fields2_mut_steps(*self, *post), fields2_kept(*self, *post), es, done)
    }

    fn traverse_mut<V: VisitorMut>(&mut self, visitor: &mut V) -> (r: ControlFlow<V::Break>) {
        let ghost v0 = *visitor;
        let ghost pre = *self;
        let ghost mut parts: Seq<Seq<Event>> = Seq::empty();
        let ghost mut last: Seq<Event> = Seq::empty();
        let ghost mut es: Seq<Event> = Seq::empty();
        proof {
            lemma_reachable_refl(visit_mut_step::<V>(), v0);
            lemma_in_order_start(fields2_mut_steps(pre, pre), fields2_kept(pre, pre));
        }
        let ghost before = *self;
        let ghost mid = *visitor;
        let r = self.0.traverse_mut(visitor);
        proof {
            lemma_reachable_then(visit_mut_step::<V>(), v0, mid, *visitor, r);
            if Self::reports_mut_steps() {
                let e = choose|e: Seq<Event>|
                    pre.0.mut_steps(&self.0, e, r is Continue) && #[trigger] walk(
                        visit_mut_step::<V>(),
                        e,
                        mid,
                        *visitor,
                        r,
                    );
                lemma_walk_append(visit_mut_step::<V>(), es, e, v0, mid, *visitor, r);
                lemma_in_order_go(
                    0,
                    fields2_mut_steps(pre, before),
                    fields2_mut_steps(pre, *self),
                    fields2_kept(pre, *self),
                    parts,
                    last,
                    es,
                    e,
                    r is Continue,
                );
                if r is Continue {
                    parts = parts.push(e);
                } else {
                    last = e;
                }
                es = es + e;
            }
        }
        match r {
            ControlFlow::Break(b) => {
                proof {
                    if Self::reports_mut_steps() {
                        lemma_in_order_stop(
                            1,
                            2,
                            fields2_mut_steps(pre, *self),
                            fields2_kept(pre, *self),
                            parts,
                            last,
                            es,
                        );
                    }
                }
                return ControlFlow::Break(b);
            },
            ControlFlow::Continue(u) => {
                assert(u == ());
            },
        }
        let ghost before = *self;
        let ghost mid = *visitor;
        let r = self.1.traverse_mut(visitor);
        proof {
            lemma_reachable_then(visit_mut_step::<V>(), v0, mid, *visitor, r);
            if Self::reports_mut_steps() {
                let e = choose|e: Seq<Event>|
                    pre.1.mut_steps(&self.1, e, r is Continue) && #[trigger] walk(
                        visit_mut_step::<V>(),
                        e,
                        mid,
                        *visitor,
                        r,
                    );
                lemma_walk_append(visit_mut_step::<V>(), es, e, v0, mid, *visitor, r);
                lemma_in_order_go(
                    1,
                    fields2_mut_steps(pre, before),
                    fields2_mut_steps(pre, *self),
                    fields2_kept(pre, *self),
                    parts,
                    last,
                    es,
                    e,
                    r is Continue,
                );
                if r is Continue {
                    parts = parts.push(e);
                } else {
                    last = e;
                }
                es = es + e;
            }
        }
        r
    }
}

impl<T0: Traversable, T1: Traversable, T2: Traversable> Traversable for (T0, T1, T2) {
    open spec fn reports_events() -> bool {
        T0::reports_events() && T1::reports_events() && T2::reports_events()
    }

    /// The events of the fields, in order.
    open spec fn events(&self) -> Seq<Event> {
        concat(seq![self.0.events(), self.1.events(), self.2.events()])
    }

    fn traverse<V: Visitor>(&self, visitor: &mut V) -> (r: ControlFlow<V::Break>) {
        let ghost v0 = *visitor;
        let ghost parts = seq![self.0.events(), self.1.events(), self.2.events()];
        proof {
            lemma_reachable_refl(visit_step::<V>(), v0);
            lemma_walk_parts_start(visit_step::<V>(), parts, v0);
        }
        let ghost mid = *visitor;
        let r = self.0.traverse(visitor);
        proof {
            lemma_reachable_then(visit_step::<V>(), v0, mid, *visitor, r);
            if Self::reports_events() {
                lemma_walk_parts_next(visit_step::<V>(), parts, 0, v0, mid, *visitor, r);
            }
        }
        match r {
            ControlFlow::Break(b) => {
                return ControlFlow::Break(b);
            },
            ControlFlow::Continue(u) => {
                assert(u == ());
            },
        }
        let ghost mid = *visitor;
        let r = self.1.traverse(visitor);
        proof {
            lemma_reachable_then(visit_step::<V>(), v0, mid, *visitor, r);
            if Self::reports_events() {
                lemma_walk_parts_next(visit_step::<V>(), parts, 1, v0, mid, *visitor, r);
            }
        }
        match r {
            ControlFlow::Break(b) => {
                return ControlFlow::Break(b);
            },
            ControlFlow::Continue(u) => {
                assert(u == ());
            },
        }
        let ghost mid = *visitor;
        let r = self.2.traverse(visitor);
        proof {
            lemma_reachable_then(visit_step::<V>(), v0, mid, *visitor, r);
            if Self::reports_events() {
                lemma_walk_parts_next(visit_step::<V>(), parts, 2, v0, mid, *visitor, r);
            }
        }
        r
    }
}

/// What a mutable traversal may do to each field of a tuple of 3:
/// field `i` of `pre` may become field `i` of `post`, reporting `e`, going
/// through when `d`.
pub open spec fn fields3_mut_steps<T0: TraversableMut, T1: TraversableMut, T2: TraversableMut>(
    pre: (T0, T1, T2),
    post: (T0, T1, T2),
) -> spec_fn(int, Seq<Event>, bool) -> bool {
    |i: int, e: Seq<Event>, d: bool|
        if i == 0 {
            pre.0.mut_steps(&post.0, e, d)
        } else if i == 1 {
            pre.1.mut_steps(&post.1, e, d)
        } else {
            pre.2.mut_steps(&post.2, e, d)
        }
}

/// Whether field `j` of `post` is as in `pre`.
pub open spec fn fields3_kept<T0, T1, T2>(
    pre: (T0, T1, T2),
    post: (T0, T1, T2),
) -> spec_fn(int) -> bool {
    |j: int|
        if j == 0 {
            post.0 == pre.0
        } else if j == 1 {
            post.1 == pre.1
        } else {
            post.2 == pre.2
        }
}

impl<T0: TraversableMut, T1: TraversableMut, T2: TraversableMut> TraversableMut for (T0, T1, T2) {
    open spec fn reports_mut_steps() -> bool {
        T0::reports_mut_steps() && T1::reports_mut_steps() && T2::reports_mut_steps()
    }

    /// The fields are traversed one by one, in order; after a break, the later
    /// fields are left as they were.
    open spec fn mut_steps(&self, post: &Self, es: Seq<Event>, done: bool) -> bool {
        in_order(3, fields3_mut_steps(*self, *post), fields3_kept(*self, *post), es, done)
    }

    fn traverse_mut<V: VisitorMut>(&mut self, visitor: &mut V) -> (r: ControlFlow<V::Break>) {
        let ghost v0 = *visitor;
        let ghost pre = *self;
        let ghost mut parts: Seq<Seq<Event>> = Seq::empty();
        let ghost mut last: Seq<Event> = Seq::empty();
        let ghost mut es: Seq<Event> = Seq::empty();
        proof {
            lemma_reachable_refl(visit_mut_step::<V>(), v0);
            lemma_in_order_start(fields3_mut_steps(pre, pre), fields3_kept(pre, pre));
        }
        let ghost before = *self;
        let ghost mid = *visitor;
        let r = self.0.traverse_mut(visitor);
        proof {
            lemma_reachable_then(visit_mut_step::<V>(), v0, mid, *visitor, r);
            if Self::reports_mut_steps() {
                let e = choose|e: Seq<Event>|
                    pre.0.mut_steps(&self.0, e, r is Continue) && #[trigger] walk(
                        visit_mut_step::<V>(),
                        e,
                        mid,
                        *visitor,
                        r,
                    );
                lemma_walk_append(visit_mut_step::<V>(), es, e, v0, mid, *visitor, r);
                lemma_in_order_go(
                    0,
                    fields3_mut_steps(pre, before),
                    fields3_mut_steps(pre, *self),
                    fields3_kept(pre, *self),
                    parts,
                    last,
                    es,
                    e,
                    r is Continue,
                );
                if r is Continue {
                    parts = parts.push(e);
                } else {
                    last = e;
                }
                es = es + e;
            }
        }
        match r {
            ControlFlow::Break(b) => {
                proof {
                    if Self::reports_mut_steps() {
                        lemma_in_order_stop(
                            1,
                            3,
                            fields3_mut_steps(pre, *self),
                            fields3_kept(pre, *self),
                            parts,
                            last,
                            es,
                        );
                    }
                }
                return ControlFlow::Break(b);
            },
            ControlFlow::Continue(u) => {
                assert(u == ());
            },
        }
        let ghost before = *self;
        let ghost mid = *visitor;
        let r = self.1.traverse_mut(visitor);
        proof {
            lemma_reachable_then(visit_mut_step::<V>(), v0, mid, *visitor, r);
            if Self::reports_mut_steps() {
                let e = choose|e: Seq<Event>|
                    pre.1.mut_steps(&self.1, e, r is Continue) && #[trigger] walk(
                        visit_mut_step::<V>(),
                        e,
                        mid,
                        *visitor,
                        r,
                    );
                lemma_walk_append(visit_mut_step::<V>(), es, e, v0, mid, *visitor, r);
                lemma_in_order_go(
                    1,
                    fields3_mut_steps(pre, before),
                    fields3_mut_steps(pre, *self),
                    fields3_kept(pre, *self),
                    parts,
                    last,
                    es,
                    e,
                    r is Continue,
                );
                if r is Continue {
                    parts = parts.push(e);
                } else {
                    last = e;
                }
                es = es + e;
            }
        }
        match r {
            ControlFlow::Break(b) => {
                proof {
                    if Self::reports_mut_steps() {
                        lemma_in_order_stop(
                            2,
                            3,
                            fields3_mut_steps(pre, *self),
                            fields3_kept(pre, *self),
                            parts,
                            last,
                            es,
                        );
                    }
                }
                return ControlFlow::Break(b);
            },
            ControlFlow::Continue(u) => {
                assert(u == ());
            },
        }
        let ghost before = *self;
        let ghost mid = *visitor;
        let r = self.2.traverse_mut(visitor);
        proof {
            lemma_reachable_then(visit_mut_step::<V>(), v0, mid, *visitor, r);
            if Self::reports_mut_steps() {
                let e = choose|e: Seq<Event>|
                    pre.2.mut_steps(&self.2, e, r is Continue) && #[trigger] walk(
                        visit_mut_step::<V>(),
                        e,
                        mid,
                        *visitor,
                        r,
                    );
                lemma_walk_append(visit_mut_step::<V>(), es, e, v0, mid, *visitor, r);
                lemma_in_order_go(
                    2,
                    fields3_mut_steps(pre, before),
                    fields3_mut_steps(pre, *self),
                    fields3_kept(pre, *self),
                    parts,
                    last,
                    es,
                    e,
                    r is Continue,
                );
                if r is Continue {
                    parts = parts.push(e);
                } else {
                    last = e;
                }
                es = es + e;
            }
        }
        r
    }
}

impl<
    T0: Traversable,
    T1: Traversable,
    T2: Traversable,
    T3: Traversable,
> Traversable for (T0, T1, T2, T3) {
    open spec fn reports_events() -> bool {
        &&& T0::reports_events()
        &&& T1::reports_events()
        &&& T2::reports_events()
        &&& T3::reports_events()
    }

    /// The events of the fields, in order.
    open spec fn events(&self) -> Seq<Event> {
        concat(seq![
            self.0.events(),
            self.1.events(),
            self.2.events(),
            self.3.events(),
        ])
    }

    fn traverse<V: Visitor>(&self, visitor: &mut V) -> (r: ControlFlow<V::Break>) {
        let ghost v0 = *visitor;
        let ghost parts = seq![
            self.0.events(),
            self.1.events(),
            self.2.events(),
            self.3.events(),
        ];
        proof {
            lemma_reachable_refl(visit_step::<V>(), v0);
            lemma_walk_parts_start(visit_step::<V>(), parts, v0);
        }
        let ghost mid = *visitor;
        let r = self.0.traverse(visitor);
        proof {
            lemma_reachable_then(visit_step::<V>(), v0, mid, *visitor, r);
            if Self::reports_events() {
                lemma_walk_parts_next(visit_step::<V>(), parts, 0, v0, mid, *visitor, r);
            }
        }
        match r {
            ControlFlow::Break(b) => {
                return ControlFlow::Break(b);
            },
            ControlFlow::Continue(u) => {
                assert(u == ());
            },
        }
        let ghost mid = *visitor;
        let r = self.1.traverse(visitor);
        proof {
            lemma_reachable_then(visit_step::<V>(), v0, mid, *visitor, r);
            if Self::reports_events() {
                lemma_walk_parts_next(visit_step::<V>(), parts, 1, v0, mid, *visitor, r);
            }
        }
        match r {
            ControlFlow::Break(b) => {
                return ControlFlow::Break(b);
            },
            ControlFlow::Continue(u) => {
                assert(u == ());
            },
        }
        let ghost mid = *visitor;
        let r = self.2.traverse(visitor);
        proof {
            lemma_reachable_then(visit_step::<V>(), v0, mid, *visitor, r);
            if Self::reports_events() {
                lemma_walk_parts_next(visit_step::<V>(), parts, 2, v0, mid, *visitor, r);
            }
        }
        match r {
            ControlFlow::Break(b) => {
                return ControlFlow::Break(b);
            },
            ControlFlow::Continue(u) => {
                assert(u == ());
            },
        }
        let ghost mid = *visitor;
        let r = self.3.traverse(visitor);
        proof {
            lemma_reachable_then(visit_step::<V>(), v0, mid, *visitor, r);
            if Self::reports_events() {
                lemma_walk_parts_next(visit_step::<V>(), parts, 3, v0, mid, *visitor, r);
            }
        }
        r
    }
}

/// What a mutable traversal may do to each field of a tuple of 4:
/// field `i` of `pre` may become field `i` of `post`, reporting `e`, going
/// through when `d`.
pub open spec fn fields4_mut_steps<
    T0: TraversableMut,
    T1: TraversableMut,
    T2: TraversableMut,
    T3: TraversableMut,
>(
    pre: (T0, T1, T2, T3),
    post: (T0, T1, T2, T3),
) -> spec_fn(int, Seq<Event>, bool) -> bool {
    |i: int, e: Seq<Event>, d: bool|
        if i == 0 {
            pre.0.mut_steps(&post.0, e, d)
        } else if i == 1 {
            pre.1.mut_steps(&post.1, e, d)
        } else if i == 2 {
            pre.2.mut_steps(&post.2, e, d)
        } else {
            pre.3.mut_steps(&post.3, e, d)
        }
}

/// Whether field `j` of `post` is as in `pre`.
pub open spec fn fields4_kept<T0, T1, T2, T3>(
    pre: (T0, T1, T2, T3),
    post: (T0, T1, T2, T3),
) -> spec_fn(int) -> bool {
    |j: int|
        if j == 0 {
            post.0 == pre.0
        } else if j == 1 {
            post.1 == pre.1
        } else if j == 2 {
            post.2 == pre.2
        } else {
            post.3 == pre.3
        }
}

impl<
    T0: TraversableMut,
    T1: TraversableMut,
    T2: TraversableMut,
    T3: TraversableMut,
> TraversableMut for (T0, T1, T2, T3) {
    open spec fn reports_mut_steps() -> bool {
        &&& T0::reports_mut_steps()
        &&& T1::reports_mut_steps()
        &&& T2::reports_mut_steps()
        &&& T3::reports_mut_steps()
    }

    /// The fields are traversed one by one, in order; after a break, the later
    /// fields are left as they were.
    open spec fn mut_steps(&self, post: &Self, es: Seq<Event>, done: bool) -> bool {
        in_order(4, fields4_mut_steps(*self, *post), fields4_kept(*self, *post), es, done)
    }

    fn traverse_mut<V: VisitorMut>(&mut self, visitor: &mut V) -> (r: ControlFlow<V::Break>) {
        let ghost v0 = *visitor;
        let ghost pre = *self;
        let ghost mut parts: Seq<Seq<Event>> = Seq::empty();
        let ghost mut last: Seq<Event> = Seq::empty();
        let ghost mut es: Seq<Event> = Seq::empty();
        proof {
            lemma_reachable_refl(visit_mut_step::<V>(), v0);
            lemma_in_order_start(fields4_mut_steps(pre, pre), fields4_kept(pre, pre));
        }
        let ghost before = *self;
        let ghost mid = *visitor;
        let r = self.0.traverse_mut(visitor);
        proof {
            lemma_reachable_then(visit_mut_step::<V>(), v0, mid, *visitor, r);
            if Self::reports_mut_steps() {
                let e = choose|e: Seq<Event>|
                    pre.0.mut_steps(&self.0, e, r is Continue) && #[trigger] walk(
                        visit_mut_step::<V>(),
                        e,
                        mid,
                        *visitor,
                        r,
                    );
                lemma_walk_append(visit_mut_step::<V>(), es, e, v0, mid, *visitor, r);
                lemma_in_order_go(
                    0,
                    fields4_mut_steps(pre, before),
                    fields4_mut_steps(pre, *self),
                    fields4_kept(pre, *self),
                    parts,
                    last,
                    es,
                    e,
                    r is Continue,
                );
                if r is Continue {
                    parts = parts.push(e);
                } else {
                    last = e;
                }
                es = es + e;
            }
        }
        match r {
            ControlFlow::Break(b) => {
                proof {
                    if Self::reports_mut_steps() {
                        lemma_in_order_stop(
                            1,
                            4,
                            fields4_mut_steps(pre, *self),
                            fields4_kept(pre, *self),
                            parts,
                            last,
                            es,
                        );
                    }
                }
                return ControlFlow::Break(b);
            },
            ControlFlow::Continue(u) => {
                assert(u == ());
            },
        }
        let ghost before = *self;
        let ghost mid = *visitor;
        let r = self.1.traverse_mut(visitor);
        proof {
            lemma_reachable_then(visit_mut_step::<V>(), v0, mid, *visitor, r);
            if Self::reports_mut_steps() {
                let e = choose|e: Seq<Event>|
                    pre.1.mut_steps(&self.1, e, r is Continue) && #[trigger] walk(
                        visit_mut_step::<V>(),
                        e,
                        mid,
                        *visitor,
                        r,
                    );
                lemma_walk_append(visit_mut_step::<V>(), es, e, v0, mid, *visitor, r);
                lemma_in_order_go(
                    1,
                    fields4_mut_steps(pre, before),
                    fields4_mut_steps(pre, *self),
                    fields4_kept(pre, *self),
                    parts,
                    last,
                    es,
                    e,
                    r is Continue,
                );
                if r is Continue {
                    parts = parts.push(e);
                } else {
                    last = e;
                }
                es = es + e;
            }
        }
        match r {
            ControlFlow::Break(b) => {
                proof {
                    if Self::reports_mut_steps() {
                        lemma_in_order_stop(
                            2,
                            4,
                            fields4_mut_steps(pre, *self),
                            fields4_kept(pre, *self),
                            parts,
                            last,
                            es,
                        );
                    }
                }
                return ControlFlow::Break(b);
            },
            ControlFlow::Continue(u) => {
                assert(u == ());
            },
        }
        let ghost before = *self;
        let ghost mid = *visitor;
        let r = self.2.traverse_mut(visitor);
        proof {
            lemma_reachable_then(visit_mut_step::<V>(), v0, mid, *visitor, r);
            if Self::reports_mut_steps() {
                let e = choose|e: Seq<Event>|
                    pre.2.mut_steps(&self.2, e, r is Continue) && #[trigger] walk(
                        visit_mut_step::<V>(),
                        e,
                        mid,
                        *visitor,
                        r,
                    );
                lemma_walk_append(visit_mut_step::<V>(), es, e, v0, mid, *visitor, r);
                lemma_in_order_go(
                    2,
                    fields4_mut_steps(pre, before),
                    fields4_mut_steps(pre, *self),
                    fields4_kept(pre, *self),
                    parts,
                    last,
                    es,
                    e,
                    r is Continue,
                );
                if r is Continue {
                    parts = parts.push(e);
                } else {
                    last = e;
                }
                es = es + e;
            }
        }
        match r {
            ControlFlow::Break(b) => {
                proof {
                    if Self::reports_mut_steps() {
                        lemma_in_order_stop(
                            3,
                            4,
                            fields4_mut_steps(pre, *self),
                            fields4_kept(pre, *self),
                            parts,
                            last,
                            es,
                        );
                    }
                }
                return ControlFlow::Break(b);
            },
            ControlFlow::Continue(u) => {
                assert(u == ());
            },
        }
        let ghost before = *self;
        let ghost mid = *visitor;
        let r = self.3.traverse_mut(visitor);
        proof {
            lemma_reachable_then(visit_mut_step::<V>(), v0, mid, *visitor, r);
            if Self::reports_mut_steps() {
                let e = choose|e: Seq<Event>|
                    pre.3.mut_steps(&self.3, e, r is Continue) && #[trigger] walk(
                        visit_mut_step::<V>(),
                        e,
                        mid,
                        *visitor,
                        r,
                    );
                lemma_walk_append(visit_mut_step::<V>(), es, e, v0, mid, *visitor, r);
                lemma_in_order_go(
                    3,
                    fields4_mut_steps(pre, before),
                    fields4_mut_steps(pre, *self),
                    fields4_kept(pre, *self),
                    parts,
                    last,
                    es,
                    e,
                    r is Continue,
                );
                if r is Continue {
                    parts = parts.push(e);
                } else {
                    last = e;
                }
                es = es + e;
            }
        }
        r
    }
}

impl<
    T0: Traversable,
    T1: Traversable,
    T2: Traversable,
    T3: Traversable,
    T4: Traversable,
> Traversable for (T0, T1, T2, T3, T4) {
    open spec fn reports_events() -> bool {
        &&& T0::reports_events()
        &&& T1::reports_events()
        &&& T2::reports_events()
        &&& T3::reports_events()
        &&& T4::reports_events()
    }

    /// The events of the fields, in order.
    open spec fn events(&self) -> Seq<Event> {
        concat(seq![
            self.0.events(),
            self.1.events(),
            self.2.events(),
            self.3.events(),
            self.4.events(),
        ])
    }

    fn traverse<V: Visitor>(&self, visitor: &mut V) -> (r: ControlFlow<V::Break>) {
        let ghost v0 = *visitor;
        let ghost parts = seq![
            self.0.events(),
            self.1.events(),
            self.2.events(),
            self.3.events(),
            self.4.events(),
        ];
        proof {
            lemma_reachable_refl(visit_step::<V>(), v0);
            lemma_walk_parts_start(visit_step::<V>(), parts, v0);
        }
        let ghost mid = *visitor;
        let r = self.0.traverse(visitor);
        proof {
            lemma_reachable_then(visit_step::<V>(), v0, mid, *visitor, r);
            if Self::reports_events() {
                lemma_walk_parts_next(visit_step::<V>(), parts, 0, v0, mid, *visitor, r);
            }
        }
        match r {
            ControlFlow::Break(b) => {
                return ControlFlow::Break(b);
            },
            ControlFlow::Continue(u) => {
                assert(u == ());
            },
        }
        let ghost mid = *visitor;
        let r = self.1.traverse(visitor);
        proof {
            lemma_reachable_then(visit_step::<V>(), v0, mid, *visitor, r);
            if Self::reports_events() {
                lemma_walk_parts_next(visit_step::<V>(), parts, 1, v0, mid, *visitor, r);
            }
        }
        match r {
            ControlFlow::Break(b) => {
                return ControlFlow::Break(b);
            },
            ControlFlow::Continue(u) => {
                assert(u == ());
            },
        }
        let ghost mid = *visitor;
        let r = self.2.traverse(visitor);
        proof {
            lemma_reachable_then(visit_step::<V>(), v0, mid, *visitor, r);
            if Self::reports_events() {
                lemma_walk_parts_next(visit_step::<V>(), parts, 2, v0, mid, *visitor, r);
            }
        }
        match r {
            ControlFlow::Break(b) => {
                return ControlFlow::Break(b);
            },
            ControlFlow::Continue(u) => {
                assert(u == ());
            },
        }
        let ghost mid = *visitor;
        let r = self.3.traverse(visitor);
        proof {
            lemma_reachable_then(visit_step::<V>(), v0, mid, *visitor, r);
            if Self::reports_events() {
                lemma_walk_parts_next(visit_step::<V>(), parts, 3, v0, mid, *visitor, r);
            }
        }
        match r {
            ControlFlow::Break(b) => {
                return ControlFlow::Break(b);
            },
            ControlFlow::Continue(u) => {
                assert(u == ());
            },
        }
        let ghost mid = *visitor;
        let r = self.4.traverse(visitor);
        proof {
            lemma_reachable_then(visit_step::<V>(), v0, mid, *visitor, r);
            if Self::reports_events() {
                lemma_walk_parts_next(visit_step::<V>(), parts, 4, v0, mid, *visitor, r);
            }
        }
        r
    }
}

/// What a mutable traversal may do to each field of a tuple of 5:
/// field `i` of `pre` may become field `i` of `post`, reporting `e`, going
/// through when `d`.
pub open spec fn fields5_mut_steps<
    T0: TraversableMut,
    T1: TraversableMut,
    T2: TraversableMut,
    T3: TraversableMut,
    T4: TraversableMut,
>(
    pre: (T0, T1, T2, T3, T4),
    post: (T0, T1, T2, T3, T4),
) -> spec_fn(int, Seq<Event>, bool) -> bool {
    |i: int, e: Seq<Event>, d: bool|
        if i == 0 {
            pre.0.mut_steps(&post.0, e, d)
        } else if i == 1 {
            pre.1.mut_steps(&post.1, e, d)
        } else if i == 2 {
            pre.2.mut_steps(&post.2, e, d)
        } else if i == 3 {
            pre.3.mut_steps(&post.3, e, d)
        } else {
            pre.4.mut_steps(&post.4, e, d)
        }
}

/// Whether field `j` of `post` is as in `pre`.
pub open spec fn fields5_kept<T0, T1, T2, T3, T4>(
    pre: (T0, T1, T2, T3, T4),
    post: (T0, T1, T2, T3, T4),
) -> spec_fn(int) -> bool {
    |j: int|
        if j == 0 {
            post.0 == pre.0
        } else if j == 1 {
            post.1 == pre.1
        } else if j == 2 {
            post.2 == pre.2
        } else if j == 3 {
            post.3 == pre.3
        } else {
            post.4 == pre.4
        }
}

impl<
    T0: TraversableMut,
    T1: TraversableMut,
    T2: TraversableMut,
    T3: TraversableMut,
    T4: TraversableMut,
> TraversableMut for (T0, T1, T2, T3, T4) {
    open spec fn reports_mut_steps() -> bool {
        &&& T0::reports_mut_steps()
        &&& T1::reports_mut_steps()
        &&& T2::reports_mut_steps()
        &&& T3::reports_mut_steps()
        &&& T4::reports_mut_steps()
    }

    /// The fields are traversed one by one, in order; after a break, the later
    /// fields are left as they were.
    open spec fn mut_steps(&self, post: &Self, es: Seq<Event>, done: bool) -> bool {
        in_order(5, fields5_mut_steps(*self, *post), fields5_kept(*self, *post), es, done)
    }

    fn traverse_mut<V: VisitorMut>(&mut self, visitor: &mut V) -> (r: ControlFlow<V::Break>) {
        let ghost v0 = *visitor;
        let ghost pre = *self;
        let ghost mut parts: Seq<Seq<Event>> = Seq::empty();
        let ghost mut last: Seq<Event> = Seq::empty();
        let ghost mut es: Seq<Event> = Seq::empty();
        proof {
            lemma_reachable_refl(visit_mut_step::<V>(), v0);
            lemma_in_order_start(fields5_mut_steps(pre, pre), fields5_kept(pre, pre));
        }
        let ghost before = *self;
        let ghost mid = *visitor;
        let r = self.0.traverse_mut(visitor);
        proof {
            lemma_reachable_then(visit_mut_step::<V>(), v0, mid, *visitor, r);
            if Self::reports_mut_steps() {
                let e = choose|e: Seq<Event>|
                    pre.0.mut_steps(&self.0, e, r is Continue) && #[trigger] walk(
                        visit_mut_step::<V>(),
                        e,
                        mid,
                        *visitor,
                        r,
                    );
                lemma_walk_append(visit_mut_step::<V>(), es, e, v0, mid, *visitor, r);
                lemma_in_order_go(
                    0,
                    fields5_mut_steps(pre, before),
                    fields5_mut_steps(pre, *self),
                    fields5_kept(pre, *self),
                    parts,
                    last,
                    es,
                    e,
                    r is Continue,
                );
                if r is Continue {
                    parts = parts.push(e);
                } else {
                    last = e;
                }
                es = es + e;
            }
        }
        match r {
            ControlFlow::Break(b) => {
                proof {
                    if Self::reports_mut_steps() {
                        lemma_in_order_stop(
                            1,
                            5,
                            fields5_mut_steps(pre, *self),
                            fields5_kept(pre, *self),
                            parts,
                            last,
                            es,
                        );
                    }
                }
                return ControlFlow::Break(b);
            },
            ControlFlow::Continue(u) => {
                assert(u == ());
            },
        }
        let ghost before = *self;
        let ghost mid = *visitor;
        let r = self.1.traverse_mut(visitor);
        proof {
            lemma_reachable_then(visit_mut_step::<V>(), v0, mid, *visitor, r);
            if Self::reports_mut_steps() {
                let e = choose|e: Seq<Event>|
                    pre.1.mut_steps(&self.1, e, r is Continue) && #[trigger] walk(
                        visit_mut_step::<V>(),
                        e,
                        mid,
                        *visitor,
                        r,
                    );
                lemma_walk_append(visit_mut_step::<V>(), es, e, v0, mid, *visitor, r);
                lemma_in_order_go(
                    1,
                    fields5_mut_steps(pre, before),
                    fields5_mut_steps(pre, *self),
                    fields5_kept(pre, *self),
                    parts,
                    last,
                    es,
                    e,
                    r is Continue,
                );
                if r is Continue {
                    parts = parts.push(e);
                } else {
                    last = e;
                }
                es = es + e;
            }
        }
        match r {
            ControlFlow::Break(b) => {
                proof {
                    if Self::reports_mut_steps() {
                        lemma_in_order_stop(
                            2,
                            5,
                            fields5_mut_steps(pre, *self),
                            fields5_kept(pre, *self),
                            parts,
                            last,
                            es,
                        );
                    }
                }
                return ControlFlow::Break(b);
            },
            ControlFlow::Continue(u) => {
                assert(u == ());
            },
        }
        let ghost before = *self;
        let ghost mid = *visitor;
        let r = self.2.traverse_mut(visitor);
        proof {
            lemma_reachable_then(visit_mut_step::<V>(), v0, mid, *visitor, r);
            if Self::reports_mut_steps() {
                let e = choose|e: Seq<Event>|
                    pre.2.mut_steps(&self.2, e, r is Continue) && #[trigger] walk(
                        visit_mut_step::<V>(),
                        e,
                        mid,
                        *visitor,
                        r,
                    );
                lemma_walk_append(visit_mut_step::<V>(), es, e, v0, mid, *visitor, r);
                lemma_in_order_go(
                    2,
                    fields5_mut_steps(pre, before),
                    fields5_mut_steps(pre, *self),
                    fields5_kept(pre, *self),
                    parts,
                    last,
                    es,
                    e,
                    r is Continue,
                );
                if r is Continue {
                    parts = parts.push(e);
                } else {
                    last = e;
                }
                es = es + e;
            }
        }
        match r {
            ControlFlow::Break(b) => {
                proof {
                    if Self::reports_mut_steps() {
                        lemma_in_order_stop(
                            3,
                            5,
                            fields5_mut_steps(pre, *self),
                            fields5_kept(pre, *self),
                            parts,
                            last,
                            es,
                        );
                    }
                }
                return ControlFlow::Break(b);
            },
            ControlFlow::Continue(u) => {
                assert(u == ());
            },
        }
        let ghost before = *self;
        let ghost mid = *visitor;
        let r = self.3.traverse_mut(visitor);
        proof {
            lemma_reachable_then(visit_mut_step::<V>(), v0, mid, *visitor, r);
            if Self::reports_mut_steps() {
                let e = choose|e: Seq<Event>|
                    pre.3.mut_steps(&self.3, e, r is Continue) && #[trigger] walk(
                        visit_mut_step::<V>(),
                        e,
                        mid,
                        *visitor,
                        r,
                    );
                lemma_walk_append(visit_mut_step::<V>(), es, e, v0, mid, *visitor, r);
                lemma_in_order_go(
                    3,
                    fields5_mut_steps(pre, before),
                    fields5_mut_steps(pre, *self),
                    fields5_kept(pre, *self),
                    parts,
                    last,
                    es,
                    e,
                    r is Continue,
                );
                if r is Continue {
                    parts = parts.push(e);
                } else {
                    last = e;
                }
                es = es + e;
            }
        }
        match r {
            ControlFlow::Break(b) => {
                proof {
                    if Self::reports_mut_steps() {
                        lemma_in_order_stop(
                            4,
                            5,
                            fields5_mut_steps(pre, *self),
                            fields5_kept(pre, *self),
                            parts,
                            last,
                            es,
                        );
                    }
                }
                return ControlFlow::Break(b);
            },
            ControlFlow::Continue(u) => {
                assert(u == ());
            },
        }
        let ghost before = *self;
        let ghost mid = *visitor;
        let r = self.4.traverse_mut(visitor);
        proof {
            lemma_reachable_then(visit_mut_step::<V>(), v0, mid, *visitor, r);
            if Self::reports_mut_steps() {
                let e = choose|e: Seq<Event>|
                    pre.4.mut_steps(&self.4, e, r is Continue) && #[trigger] walk(
                        visit_mut_step::<V>(),
                        e,
                        mid,
                        *visitor,
                        r,
                    );
                lemma_walk_append(visit_mut_step::<V>(), es, e, v0, mid, *visitor, r);
                lemma_in_order_go(
                    4,
                    fields5_mut_steps(pre, before),
                    fields5_mut_steps(pre, *self),
                    fields5_kept(pre, *self),
                    parts,
                    last,
                    es,
                    e,
                    r is Continue,
                );
                if r is Continue {
                    parts = parts.push(e);
                } else {
                    last = e;
                }
                es = es + e;
            }
        }
        r
    }
}

impl<
    T0: Traversable,
    T1: Traversable,
    T2: Traversable,
    T3: Traversable,
    T4: Traversable,
    T5: Traversable,
> Traversable for (T0, T1, T2, T3, T4, T5) {
    open spec fn reports_events() -> bool {
        &&& T0::reports_events()
        &&& T1::reports_events()
        &&& T2::reports_events()
        &&& T3::reports_events()
        &&& T4::reports_events()
        &&& T5::reports_events()
    }

    /// The events of the fields, in order.
    open spec fn events(&self) -> Seq<Event> {
        concat(seq![
            self.0.events(),
            self.1.events(),
            self.2.events(),
            self.3.events(),
            self.4.events(),
            self.5.events(),
        ])
    }

    fn traverse<V: Visitor>(&self, visitor: &mut V) -> (r: ControlFlow<V::Break>) {
        let ghost v0 = *visitor;
        let ghost parts = seq![
            self.0.events(),
            self.1.events(),
            self.2.events(),
            self.3.events(),
            self.4.events(),
            self.5.events(),
        ];
        proof {
            lemma_reachable_refl(visit_step::<V>(), v0);
            lemma_walk_parts_start(visit_step::<V>(), parts, v0);
        }
        let ghost mid = *visitor;
        let r = self.0.traverse(visitor);
        proof {
            lemma_reachable_then(visit_step::<V>(), v0, mid, *visitor, r);
            if Self::reports_events() {
                lemma_walk_parts_next(visit_step::<V>(), parts, 0, v0, mid, *visitor, r);
            }
        }
        match r {
            ControlFlow::Break(b) => {
                return ControlFlow::Break(b);
            },
            ControlFlow::Continue(u) => {
                assert(u == ());
            },
        }
        let ghost mid = *visitor;
        let r = self.1.traverse(visitor);
        proof {
            lemma_reachable_then(visit_step::<V>(), v0, mid, *visitor, r);
            if Self::reports_events() {
                lemma_walk_parts_next(visit_step::<V>(), parts, 1, v0, mid, *visitor, r);
            }
        }
        match r {
            ControlFlow::Break(b) => {
                return ControlFlow::Break(b);
            },
            ControlFlow::Continue(u) => {
                assert(u == ());
            },
        }
        let ghost mid = *visitor;
        let r = self.2.traverse(visitor);
        proof {
            lemma_reachable_then(visit_step::<V>(), v0, mid, *visitor, r);
            if Self::reports_events() {
                lemma_walk_parts_next(visit_step::<V>(), parts, 2, v0, mid, *visitor, r);
            }
        }
        match r {
            ControlFlow::Break(b) => {
                return ControlFlow::Break(b);
            },
            ControlFlow::Continue(u) => {
                assert(u == ());
            },
        }
        let ghost mid = *visitor;
        let r = self.3.traverse(visitor);
        proof {
            lemma_reachable_then(visit_step::<V>(), v0, mid, *visitor, r);
            if Self::reports_events() {
                lemma_walk_parts_next(visit_step::<V>(), parts, 3, v0, mid, *visitor, r);
            }
        }
        match r {
            ControlFlow::Break(b) => {
                return ControlFlow::Break(b);
            },
            ControlFlow::Continue(u) => {
                assert(u == ());
            },
        }
        let ghost mid = *visitor;
        let r = self.4.traverse(visitor);
        proof {
            lemma_reachable_then(visit_step::<V>(), v0, mid, *visitor, r);
            if Self::reports_events() {
                lemma_walk_parts_next(visit_step::<V>(), parts, 4, v0, mid, *visitor, r);
            }
        }
        match r {
            ControlFlow::Break(b) => {
                return ControlFlow::Break(b);
            },
            ControlFlow::Continue(u) => {
                assert(u == ());
            },
        }
        let ghost mid = *visitor;
        let r = self.5.traverse(visitor);
        proof {
            lemma_reachable_then(visit_step::<V>(), v0, mid, *visitor, r);
            if Self::reports_events() {
                lemma_walk_parts_next(visit_step::<V>(), parts, 5, v0, mid, *visitor, r);
            }
        }
        r
    }
}

/// What a mutable traversal may do to each field of a tuple of 6:
/// field `i` of `pre` may become field `i` of `post`, reporting `e`, going
/// through when `d`.
pub open spec fn fields6_mut_steps<
    T0: TraversableMut,
    T1: TraversableMut,
    T2: TraversableMut,
    T3: TraversableMut,
    T4: TraversableMut,
    T5: TraversableMut,
>(
    pre: (T0, T1, T2, T3, T4, T5),
    post: (T0, T1, T2, T3, T4, T5),
) -> spec_fn(int, Seq<Event>, bool) -> bool {
    |i: int, e: Seq<Event>, d: bool|
        if i == 0 {
            pre.0.mut_steps(&post.0, e, d)
        } else if i == 1 {
            pre.1.mut_steps(&post.1, e, d)
        } else if i == 2 {
            pre.2.mut_steps(&post.2, e, d)
        } else if i == 3 {
            pre.3.mut_steps(&post.3, e, d)
        } else if i == 4 {
            pre.4.mut_steps(&post.4, e, d)
        } else {
            pre.5.mut_steps(&post.5, e, d)
        }
}

/// Whether field `j` of `post` is as in `pre`.
pub open spec fn fields6_kept<T0, T1, T2, T3, T4, T5>(
    pre: (T0, T1, T2, T3, T4, T5),
    post: (T0, T1, T2, T3, T4, T5),
) -> spec_fn(int) -> bool {
    |j: int|
        if j == 0 {
            post.0 == pre.0
        } else if j == 1 {
            post.1 == pre.1
        } else if j == 2 {
            post.2 == pre.2
        } else if j == 3 {
            post.3 == pre.3
        } else if j == 4 {
            post.4 == pre.4
        } else {
            post.5 == pre.5
        }
}

impl<
    T0: TraversableMut,
    T1: TraversableMut,
    T2: TraversableMut,
    T3: TraversableMut,
    T4: TraversableMut,
    T5: TraversableMut,
> TraversableMut for (T0, T1, T2, T3, T4, T5) {
    open spec fn reports_mut_steps() -> bool {
        &&& T0::reports_mut_steps()
        &&& T1::reports_mut_steps()
        &&& T2::reports_mut_steps()
        &&& T3::reports_mut_steps()
        &&& T4::reports_mut_steps()
        &&& T5::reports_mut_steps()
    }

    /// The fields are traversed one by one, in order; after a break, the later
    /// fields are left as they were.
    open spec fn mut_steps(&self, post: &Self, es: Seq<Event>, done: bool) -> bool {
        in_order(6, fields6_mut_steps(*self, *post), fields6_kept(*self, *post), es, done)
    }

    fn traverse_mut<V: VisitorMut>(&mut self, visitor: &mut V) -> (r: ControlFlow<V::Break>) {
        let ghost v0 = *visitor;
        let ghost pre = *self;
        let ghost mut parts: Seq<Seq<Event>> = Seq::empty();
        let ghost mut last: Seq<Event> = Seq::empty();
        let ghost mut es: Seq<Event> = Seq::empty();
        proof {
            lemma_reachable_refl(visit_mut_step::<V>(), v0);
            lemma_in_order_start(fields6_mut_steps(pre, pre), fields6_kept(pre, pre));
        }
        let ghost before = *self;
        let ghost mid = *visitor;
        let r = self.0.traverse_mut(visitor);
        proof {
            lemma_reachable_then(visit_mut_step::<V>(), v0, mid, *visitor, r);
            if Self::reports_mut_steps() {
                let e = choose|e: Seq<Event>|
                    pre.0.mut_steps(&self.0, e, r is Continue) && #[trigger] walk(
                        visit_mut_step::<V>(),
                        e,
                        mid,
                        *visitor,
                        r,
                    );
                lemma_walk_append(visit_mut_step::<V>(), es, e, v0, mid, *visitor, r);
                lemma_in_order_go(
                    0,
                    fields6_mut_steps(pre, before),
                    fields6_mut_steps(pre, *self),
                    fields6_kept(pre, *self),
                    parts,
                    last,
                    es,
                    e,
                    r is Continue,
                );
                if r is Continue {
                    parts = parts.push(e);
                } else {
                    last = e;
                }
                es = es + e;
            }
        }
        match r {
            ControlFlow::Break(b) => {
                proof {
                    if Self::reports_mut_steps() {
                        lemma_in_order_stop(
                            1,
                            6,
                            fields6_mut_steps(pre, *self),
                            fields6_kept(pre, *self),
                            parts,
                            last,
                            es,
                        );
                    }
                }
                return ControlFlow::Break(b);
            },
            ControlFlow::Continue(u) => {
                assert(u == ());
            },
        }
        let ghost before = *self;
        let ghost mid = *visitor;
        let r = self.1.traverse_mut(visitor);
        proof {
            lemma_reachable_then(visit_mut_step::<V>(), v0, mid, *visitor, r);
            if Self::reports_mut_steps() {
                let e = choose|e: Seq<Event>|
                    pre.1.mut_steps(&self.1, e, r is Continue) && #[trigger] walk(
                        visit_mut_step::<V>(),
                        e,
                        mid,
                        *visitor,
                        r,
                    );
                lemma_walk_append(visit_mut_step::<V>(), es, e, v0, mid, *visitor, r);
                lemma_in_order_go(
                    1,
                    fields6_mut_steps(pre, before),
                    fields6_mut_steps(pre, *self),
                    fields6_kept(pre, *self),
                    parts,
                    last,
                    es,
                    e,
                    r is Continue,
                );
                if r is Continue {
                    parts = parts.push(e);
                } else {
                    last = e;
                }
                es = es + e;
            }
        }
        match r {
            ControlFlow::Break(b) => {
                proof {
                    if Self::reports_mut_steps() {
                        lemma_in_order_stop(
                            2,
                            6,
                            fields6_mut_steps(pre, *self),
                            fields6_kept(pre, *self),
                            parts,
                            last,
                            es,
                        );
                    }
                }
                return ControlFlow::Break(b);
            },
            ControlFlow::Continue(u) => {
                assert(u == ());
            },
        }
        let ghost before = *self;
        let ghost mid = *visitor;
        let r = self.2.traverse_mut(visitor);
        proof {
            lemma_reachable_then(visit_mut_step::<V>(), v0, mid, *visitor, r);
            if Self::reports_mut_steps() {
                let e = choose|e: Seq<Event>|
                    pre.2.mut_steps(&self.2, e, r is Continue) && #[trigger] walk(
                        visit_mut_step::<V>(),
                        e,
                        mid,
                        *visitor,
                        r,
                    );
                lemma_walk_append(visit_mut_step::<V>(), es, e, v0, mid, *visitor, r);
                lemma_in_order_go(
                    2,
                    fields6_mut_steps(pre, before),
                    fields6_mut_steps(pre, *self),
                    fields6_kept(pre, *self),
                    parts,
                    last,
                    es,
                    e,
                    r is Continue,
                );
                if r is Continue {
                    parts = parts.push(e);
                } else {
                    last = e;
                }
                es = es + e;
            }
        }
        match r {
            ControlFlow::Break(b) => {
                proof {
                    if Self::reports_mut_steps() {
                        lemma_in_order_stop(
                            3,
                            6,
                            fields6_mut_steps(pre, *self),
                            fields6_kept(pre, *self),
                            parts,
                            last,
                            es,
                        );
                    }
                }
                return ControlFlow::Break(b);
            },
            ControlFlow::Continue(u) => {
                assert(u == ());
            },
        }
        let ghost before = *self;
        let ghost mid = *visitor;
        let r = self.3.traverse_mut(visitor);
        proof {
            lemma_reachable_then(visit_mut_step::<V>(), v0, mid, *visitor, r);
            if Self::reports_mut_steps() {
                let e = choose|e: Seq<Event>|
                    pre.3.mut_steps(&self.3, e, r is Continue) && #[trigger] walk(
                        visit_mut_step::<V>(),
                        e,
                        mid,
                        *visitor,
                        r,
                    );
                lemma_walk_append(visit_mut_step::<V>(), es, e, v0, mid, *visitor, r);
                lemma_in_order_go(
                    3,
                    fields6_mut_steps(pre, before),
                    fields6_mut_steps(pre, *self),
                    fields6_kept(pre, *self),
                    parts,
                    last,
                    es,
                    e,
                    r is Continue,
                );
                if r is Continue {
                    parts = parts.push(e);
                } else {
                    last = e;
                }
                es = es + e;
            }
        }
        match r {
            ControlFlow::Break(b) => {
                proof {
                    if Self::reports_mut_steps() {
                        lemma_in_order_stop(
                            4,
                            6,
                            fields6_mut_steps(pre, *self),
                            fields6_kept(pre, *self),
                            parts,
                            last,
                            es,
                        );
                    }
                }
                return ControlFlow::Break(b);
            },
            ControlFlow::Continue(u) => {
                assert(u == ());
            },
        }
        let ghost before = *self;
        let ghost mid = *visitor;
        let r = self.4.traverse_mut(visitor);
        proof {
            lemma_reachable_then(visit_mut_step::<V>(), v0, mid, *visitor, r);
            if Self::reports_mut_steps() {
                let e = choose|e: Seq<Event>|
                    pre.4.mut_steps(&self.4, e, r is Continue) && #[trigger] walk(
                        visit_mut_step::<V>(),
                        e,
                        mid,
                        *visitor,
                        r,
                    );
                lemma_walk_append(visit_mut_step::<V>(), es, e, v0, mid, *visitor, r);
                lemma_in_order_go(
                    4,
                    fields6_mut_steps(pre, before),
                    fields6_mut_steps(pre, *self),
                    fields6_kept(pre, *self),
                    parts,
                    last,
                    es,
                    e,
                    r is Continue,
                );
                if r is Continue {
                    parts = parts.push(e);
                } else {
                    last = e;
                }
                es = es + e;
            }
        }
        match r {
            ControlFlow::Break(b) => {
                proof {
                    if Self::reports_mut_steps() {
                        lemma_in_order_stop(
                            5,
                            6,
                            fields6_mut_steps(pre, *self),
                            fields6_kept(pre, *self),
                            parts,
                            last,
                            es,
                        );
                    }
                }
                return ControlFlow::Break(b);
            },
            ControlFlow::Continue(u) => {
                assert(u == ());
            },
        }
        let ghost before = *self;
        let ghost mid = *visitor;
        let r = self.5.traverse_mut(visitor);
        proof {
            lemma_reachable_then(visit_mut_step::<V>(), v0, mid, *visitor, r);
            if Self::reports_mut_steps() {
                let e = choose|e: Seq<Event>|
                    pre.5.mut_steps(&self.5, e, r is Continue) && #[trigger] walk(
                        visit_mut_step::<V>(),
                        e,
                        mid,
                        *visitor,
                        r,
                    );
                lemma_walk_append(visit_mut_step::<V>(), es, e, v0, mid, *visitor, r);
                lemma_in_order_go(
                    5,
                    fields6_mut_steps(pre, before),
                    fields6_mut_steps(pre, *self),
                    fields6_kept(pre, *self),
                    parts,
                    last,
                    es,
                    e,
                    r is Continue,
                );
                if r is Continue {
                    parts = parts.push(e);
                } else {
                    last = e;
                }
                es = es + e;
            }
        }
        r
    }
}

impl<
    T0: Traversable,
    T1: Traversable,
    T2: Traversable,
    T3: Traversable,
    T4: Traversable,
    T5: Traversable,
    T6: Traversable,
> Traversable for (T0, T1, T2, T3, T4, T5, T6) {
    open spec fn reports_events() -> bool {
        &&& T0::reports_events()
        &&& T1::reports_events()
        &&& T2::reports_events()
        &&& T3::reports_events()
        &&& T4::reports_events()
        &&& T5::reports_events()
        &&& T6::reports_events()
    }

    /// The events of the fields, in order.
    open spec fn events(&self) -> Seq<Event> {
        concat(seq![
            self.0.events(),
            self.1.events(),
            self.2.events(),
            self.3.events(),
            self.4.events(),
            self.5.events(),
            self.6.events(),
        ])
    }

    fn traverse<V: Visitor>(&self, visitor: &mut V) -> (r: ControlFlow<V::Break>) {
        let ghost v0 = *visitor;
        let ghost parts = seq![
            self.0.events(),
            self.1.events(),
            self.2.events(),
            self.3.events(),
            self.4.events(),
            self.5.events(),
            self.6.events(),
        ];
        proof {
            lemma_reachable_refl(visit_step::<V>(), v0);
            lemma_walk_parts_start(visit_step::<V>(), parts, v0);
        }
        let ghost mid = *visitor;
        let r = self.0.traverse(visitor);
        proof {
            lemma_reachable_then(visit_step::<V>(), v0, mid, *visitor, r);
            if Self::reports_events() {
                lemma_walk_parts_next(visit_step::<V>(), parts, 0, v0, mid, *visitor, r);
            }
        }
        match r {
            ControlFlow::Break(b) => {
                return ControlFlow::Break(b);
            },
            ControlFlow::Continue(u) => {
                assert(u == ());
            },
        }
        let ghost mid = *visitor;
        let r = self.1.traverse(visitor);
        proof {
            lemma_reachable_then(visit_step::<V>(), v0, mid, *visitor, r);
            if Self::reports_events() {
                lemma_walk_parts_next(visit_step::<V>(), parts, 1, v0, mid, *visitor, r);
            }
        }
        match r {
            ControlFlow::Break(b) => {
                return ControlFlow::Break(b);
            },
            ControlFlow::Continue(u) => {
                assert(u == ());
            },
        }
        let ghost mid = *visitor;
        let r = self.2.traverse(visitor);
        proof {
            lemma_reachable_then(visit_step::<V>(), v0, mid, *visitor, r);
            if Self::reports_events() {
                lemma_walk_parts_next(visit_step::<V>(), parts, 2, v0, mid, *visitor, r);
            }
        }
        match r {
            ControlFlow::Break(b) => {
                return ControlFlow::Break(b);
            },
            ControlFlow::Continue(u) => {
                assert(u == ());
            },
        }
        let ghost mid = *visitor;
        let r = self.3.traverse(visitor);
        proof {
            lemma_reachable_then(visit_step::<V>(), v0, mid, *visitor, r);
            if Self::reports_events() {
                lemma_walk_parts_next(visit_step::<V>(), parts, 3, v0, mid, *visitor, r);
            }
        }
        match r {
            ControlFlow::Break(b) => {
                return ControlFlow::Break(b);
            },
            ControlFlow::Continue(u) => {
                assert(u == ());
            },
        }
        let ghost mid = *visitor;
        let r = self.4.traverse(visitor);
        proof {
            lemma_reachable_then(visit_step::<V>(), v0, mid, *visitor, r);
            if Self::reports_events() {
                lemma_walk_parts_next(visit_step::<V>(), parts, 4, v0, mid, *visitor, r);
            }
        }
        match r {
            ControlFlow::Break(b) => {
                return ControlFlow::Break(b);
            },
            ControlFlow::Continue(u) => {
                assert(u == ());
            },
        }
        let ghost mid = *visitor;
        let r = self.5.traverse(visitor);
        proof {
            lemma_reachable_then(visit_step::<V>(), v0, mid, *visitor, r);
            if Self::reports_events() {
                lemma_walk_parts_next(visit_step::<V>(), parts, 5, v0, mid, *visitor, r);
            }
        }
        match r {
            ControlFlow::Break(b) => {
                return ControlFlow::Break(b);
            },
            ControlFlow::Continue(u) => {
                assert(u == ());
            },
        }
        let ghost mid = *visitor;
        let r = self.6.traverse(visitor);
        proof {
            lemma_reachable_then(visit_step::<V>(), v0, mid, *visitor, r);
            if Self::reports_events() {
                lemma_walk_parts_next(visit_step::<V>(), parts, 6, v0, mid, *visitor, r);
            }
        }
        r
    }
}

/// What a mutable traversal may do to each field of a tuple of 7:
/// field `i` of `pre` may become field `i` of `post`, reporting `e`, going
/// through when `d`.
pub open spec fn fields7_mut_steps<
    T0: TraversableMut,
    T1: TraversableMut,
    T2: TraversableMut,
    T3: TraversableMut,
    T4: TraversableMut,
    T5: TraversableMut,
    T6: TraversableMut,
>(
    pre: (T0, T1, T2, T3, T4, T5, T6),
    post: (T0, T1, T2, T3, T4, T5, T6),
) -> spec_fn(int, Seq<Event>, bool) -> bool {
    |i: int, e: Seq<Event>, d: bool|
        if i == 0 {
            pre.0.mut_steps(&post.0, e, d)
        } else if i == 1 {
            pre.1.mut_steps(&post.1, e, d)
        } else if i == 2 {
            pre.2.mut_steps(&post.2, e, d)
        } else if i == 3 {
            pre.3.mut_steps(&post.3, e, d)
        } else if i == 4 {
            pre.4.mut_steps(&post.4, e, d)
        } else if i == 5 {
            pre.5.mut_steps(&post.5, e, d)
        } else {
            pre.6.mut_steps(&post.6, e, d)
        }
}

/// Whether field `j` of `post` is as in `pre`.
pub open spec fn fields7_kept<T0, T1, T2, T3, T4, T5, T6>(
    pre: (T0, T1, T2, T3, T4, T5, T6),
    post: (T0, T1, T2, T3, T4, T5, T6),
) -> spec_fn(int) -> bool {
    |j: int|
        if j == 0 {
            post.0 == pre.0
        } else if j == 1 {
            post.1 == pre.1
        } else if j == 2 {
            post.2 == pre.2
        } else if j == 3 {
            post.3 == pre.3
        } else if j == 4 {
            post.4 == pre.4
        } else if j == 5 {
            post.5 == pre.5
        } else {
            post.6 == pre.6
        }
}

impl<
    T0: TraversableMut,
    T1: TraversableMut,
    T2: TraversableMut,
    T3: TraversableMut,
    T4: TraversableMut,
    T5: TraversableMut,
    T6: TraversableMut,
> TraversableMut for (T0, T1, T2, T3, T4, T5, T6) {
    open spec fn reports_mut_steps() -> bool {
        &&& T0::reports_mut_steps()
        &&& T1::reports_mut_steps()
        &&& T2::reports_mut_steps()
        &&& T3::reports_mut_steps()
        &&& T4::reports_mut_steps()
        &&& T5::reports_mut_steps()
        &&& T6::reports_mut_steps()
    }

    /// The fields are traversed one by one, in order; after a break, the later
    /// fields are left as they were.
    open spec fn mut_steps(&self, post: &Self, es: Seq<Event>, done: bool) -> bool {
        in_order(7, fields7_mut_steps(*self, *post), fields7_kept(*self, *post), es, done)
    }

    fn traverse_mut<V: VisitorMut>(&mut self, visitor: &mut V) -> (r: ControlFlow<V::Break>) {
        let ghost v0 = *visitor;
        let ghost pre = *self;
        let ghost mut parts: Seq<Seq<Event>> = Seq::empty();
        let ghost mut last: Seq<Event> = Seq::empty();
        let ghost mut es: Seq<Event> = Seq::empty();
        proof {
            lemma_reachable_refl(visit_mut_step::<V>(), v0);
            lemma_in_order_start(fields7_mut_steps(pre, pre), fields7_kept(pre, pre));
        }
        let ghost before = *self;
        let ghost mid = *visitor;
        let r = self.0.traverse_mut(visitor);
        proof {
            lemma_reachable_then(visit_mut_step::<V>(), v0, mid, *visitor, r);
            if Self::reports_mut_steps() {
                let e = choose|e: Seq<Event>|
                    pre.0.mut_steps(&self.0, e, r is Continue) && #[trigger] walk(
                        visit_mut_step::<V>(),
                        e,
                        mid,
                        *visitor,
                        r,
                    );
                lemma_walk_append(visit_mut_step::<V>(), es, e, v0, mid, *visitor, r);
                lemma_in_order_go(
                    0,
                    fields7_mut_steps(pre, before),
                    fields7_mut_steps(pre, *self),
                    fields7_kept(pre, *self),
                    parts,
                    last,
                    es,
                    e,
                    r is Continue,
                );
                if r is Continue {
                    parts = parts.push(e);
                } else {
                    last = e;
                }
                es = es + e;
            }
        }
        match r {
            ControlFlow::Break(b) => {
                proof {
                    if Self::reports_mut_steps() {
                        lemma_in_order_stop(
                            1,
                            7,
                            fields7_mut_steps(pre, *self),
                            fields7_kept(pre, *self),
                            parts,
                            last,
                            es,
                        );
                    }
                }
                return ControlFlow::Break(b);
            },
            ControlFlow::Continue(u) => {
                assert(u == ());
            },
        }
        let ghost before = *self;
        let ghost mid = *visitor;
        let r = self.1.traverse_mut(visitor);
        proof {
            lemma_reachable_then(visit_mut_step::<V>(), v0, mid, *visitor, r);
            if Self::reports_mut_steps() {
                let e = choose|e: Seq<Event>|
                    pre.1.mut_steps(&self.1, e, r is Continue) && #[trigger] walk(
                        visit_mut_step::<V>(),
                        e,
                        mid,
                        *visitor,
                        r,
                    );
                lemma_walk_append(visit_mut_step::<V>(), es, e, v0, mid, *visitor, r);
                lemma_in_order_go(
                    1,
                    fields7_mut_steps(pre, before),
                    fields7_mut_steps(pre, *self),
                    fields7_kept(pre, *self),
                    parts,
                    last,
                    es,
                    e,
                    r is Continue,
                );
                if r is Continue {
                    parts = parts.push(e);
                } else {
                    last = e;
                }
                es = es + e;
            }
        }
        match r {
            ControlFlow::Break(b) => {
                proof {
                    if Self::reports_mut_steps() {
                        lemma_in_order_stop(
                            2,
                            7,
                            fields7_mut_steps(pre, *self),
                            fields7_kept(pre, *self),
                            parts,
                            last,
                            es,
                        );
                    }
                }
                return ControlFlow::Break(b);
            },
            ControlFlow::Continue(u) => {
                assert(u == ());
            },
        }
        let ghost before = *self;
        let ghost mid = *visitor;
        let r = self.2.traverse_mut(visitor);
        proof {
            lemma_reachable_then(visit_mut_step::<V>(), v0, mid, *visitor, r);
            if Self::reports_mut_steps() {
                let e = choose|e: Seq<Event>|
                    pre.2.mut_steps(&self.2, e, r is Continue) && #[trigger] walk(
                        visit_mut_step::<V>(),
                        e,
                        mid,
                        *visitor,
                        r,
                    );
                lemma_walk_append(visit_mut_step::<V>(), es, e, v0, mid, *visitor, r);
                lemma_in_order_go(
                    2,
                    fields7_mut_steps(pre, before),
                    fields7_mut_steps(pre, *self),
                    fields7_kept(pre, *self),
                    parts,
                    last,
                    es,
                    e,
                    r is Continue,
                );
                if r is Continue {
                    parts = parts.push(e);
                } else {
                    last = e;
                }
                es = es + e;
            }
        }
        match r {
            ControlFlow::Break(b) => {
                proof {
                    if Self::reports_mut_steps() {
                        lemma_in_order_stop(
                            3,
                            7,
                            fields7_mut_steps(pre, *self),
                            fields7_kept(pre, *self),
                            parts,
                            last,
                            es,
                        );
                    }
                }
                return ControlFlow::Break(b);
            },
            ControlFlow::Continue(u) => {
                assert(u == ());
            },
        }
        let ghost before = *self;
        let ghost mid = *visitor;
        let r = self.3.traverse_mut(visitor);
        proof {
            lemma_reachable_then(visit_mut_step::<V>(), v0, mid, *visitor, r);
            if Self::reports_mut_steps() {
                let e = choose|e: Seq<Event>|
                    pre.3.mut_steps(&self.3, e, r is Continue) && #[trigger] walk(
                        visit_mut_step::<V>(),
                        e,
                        mid,
                        *visitor,
                        r,
                    );
                lemma_walk_append(visit_mut_step::<V>(), es, e, v0, mid, *visitor, r);
                lemma_in_order_go(
                    3,
                    fields7_mut_steps(pre, before),
                    fields7_mut_steps(pre, *self),
                    fields7_kept(pre, *self),
                    parts,
                    last,
                    es,
                    e,
                    r is Continue,
                );
                if r is Continue {
                    parts = parts.push(e);
                } else {
                    last = e;
                }
                es = es + e;
            }
        }
        match r {
            ControlFlow::Break(b) => {
                proof {
                    if Self::reports_mut_steps() {
                        lemma_in_order_stop(
                            4,
                            7,
                            fields7_mut_steps(pre, *self),
                            fields7_kept(pre, *self),
                            parts,
                            last,
                            es,
                        );
                    }
                }
                return ControlFlow::Break(b);
            },
            ControlFlow::Continue(u) => {
                assert(u == ());
            },
        }
        let ghost before = *self;
        let ghost mid = *visitor;
        let r = self.4.traverse_mut(visitor);
        proof {
            lemma_reachable_then(visit_mut_step::<V>(), v0, mid, *visitor, r);
            if Self::reports_mut_steps() {
                let e = choose|e: Seq<Event>|
                    pre.4.mut_steps(&self.4, e, r is Continue) && #[trigger] walk(
                        visit_mut_step::<V>(),
                        e,
                        mid,
                        *visitor,
                        r,
                    );
                lemma_walk_append(visit_mut_step::<V>(), es, e, v0, mid, *visitor, r);
                lemma_in_order_go(
                    4,
                    fields7_mut_steps(pre, before),
                    fields7_mut_steps(pre, *self),
                    fields7_kept(pre, *self),
                    parts,
                    last,
                    es,
                    e,
                    r is Continue,
                );
                if r is Continue {
                    parts = parts.push(e);
                } else {
                    last = e;
                }
                es = es + e;
            }
        }
        match r {
            ControlFlow::Break(b) => {
                proof {
                    if Self::reports_mut_steps() {
                        lemma_in_order_stop(
                            5,
                            7,
                            fields7_mut_steps(pre, *self),
                            fields7_kept(pre, *self),
                            parts,
                            last,
                            es,
                        );
                    }
                }
                return ControlFlow::Break(b);
            },
            ControlFlow::Continue(u) => {
                assert(u == ());
            },
        }
        let ghost before = *self;
        let ghost mid = *visitor;
        let r = self.5.traverse_mut(visitor);
        proof {
            lemma_reachable_then(visit_mut_step::<V>(), v0, mid, *visitor, r);
            if Self::reports_mut_steps() {
                let e = choose|e: Seq<Event>|
                    pre.5.mut_steps(&self.5, e, r is Continue) && #[trigger] walk(
                        visit_mut_step::<V>(),
                        e,
                        mid,
                        *visitor,
                        r,
                    );
                lemma_walk_append(visit_mut_step::<V>(), es, e, v0, mid, *visitor, r);
                lemma_in_order_go(
                    5,
                    fields7_mut_steps(pre, before),
                    fields7_mut_steps(pre, *self),
                    fields7_kept(pre, *self),
                    parts,
                    last,
                    es,
                    e,
                    r is Continue,
                );
                if r is Continue {
                    parts = parts.push(e);
                } else {
                    last = e;
                }
                es = es + e;
            }
        }
        match r {
            ControlFlow::Break(b) => {
                proof {
                    if Self::reports_mut_steps() {
                        lemma_in_order_stop(
                            6,
                            7,
                            fields7_mut_steps(pre, *self),
                            fields7_kept(pre, *self),
                            parts,
                            last,
                            es,
                        );
                    }
                }
                return ControlFlow::Break(b);
            },
            ControlFlow::Continue(u) => {
                assert(u == ());
            },
        }
        let ghost before = *self;
        let ghost mid = *visitor;
        let r = self.6.traverse_mut(visitor);
        proof {
            lemma_reachable_then(visit_mut_step::<V>(), v0, mid, *visitor, r);
            if Self::reports_mut_steps() {
                let e = choose|e: Seq<Event>|
                    pre.6.mut_steps(&self.6, e, r is Continue) && #[trigger] walk(
                        visit_mut_step::<V>(),
                        e,
                        mid,
                        *visitor,
                        r,
                    );
                lemma_walk_append(visit_mut_step::<V>(), es, e, v0, mid, *visitor, r);
                lemma_in_order_go(
                    6,
                    fields7_mut_steps(pre, before),
                    fields7_mut_steps(pre, *self),
                    fields7_kept(pre, *self),
                    parts,
                    last,
                    es,
                    e,
                    r is Continue,
                );
                if r is Continue {
                    parts = parts.push(e);
                } else {
                    last = e;
                }
                es = es + e;
            }
        }
        r
    }
}

impl<
    T0: Traversable,
    T1: Traversable,
    T2: Traversable,
    T3: Traversable,
    T4: Traversable,
    T5: Traversable,
    T6: Traversable,
    T7: Traversable,
> Traversable for (T0, T1, T2, T3, T4, T5, T6, T7) {
    open spec fn reports_events() -> bool {
        &&& T0::reports_events()
        &&& T1::reports_events()
        &&& T2::reports_events()
        &&& T3::reports_events()
        &&& T4::reports_events()
        &&& T5::reports_events()
        &&& T6::reports_events()
        &&& T7::reports_events()
    }

    /// The events of the fields, in order.
    open spec fn events(&self) -> Seq<Event> {
        concat(seq![
            self.0.events(),
            self.1.events(),
            self.2.events(),
            self.3.events(),
            self.4.events(),
            self.5.events(),
            self.6.events(),
            self.7.events(),
        ])
    }

    fn traverse<V: Visitor>(&self, visitor: &mut V) -> (r: ControlFlow<V::Break>) {
        let ghost v0 = *visitor;
        let ghost parts = seq![
            self.0.events(),
            self.1.events(),
            self.2.events(),
            self.3.events(),
            self.4.events(),
            self.5.events(),
            self.6.events(),
            self.7.events(),
        ];
        proof {
            lemma_reachable_refl(visit_step::<V>(), v0);
            lemma_walk_parts_start(visit_step::<V>(), parts, v0);
        }
        let ghost mid = *visitor;
        let r = self.0.traverse(visitor);
        proof {
            lemma_reachable_then(visit_step::<V>(), v0, mid, *visitor, r);
            if Self::reports_events() {
                lemma_walk_parts_next(visit_step::<V>(), parts, 0, v0, mid, *visitor, r);
            }
        }
        match r {
            ControlFlow::Break(b) => {
                return ControlFlow::Break(b);
            },
            ControlFlow::Continue(u) => {
                assert(u == ());
            },
        }
        let ghost mid = *visitor;
        let r = self.1.traverse(visitor);
        proof {
            lemma_reachable_then(visit_step::<V>(), v0, mid, *visitor, r);
            if Self::reports_events() {
                lemma_walk_parts_next(visit_step::<V>(), parts, 1, v0, mid, *visitor, r);
            }
        }
        match r {
            ControlFlow::Break(b) => {
                return ControlFlow::Break(b);
            },
            ControlFlow::Continue(u) => {
                assert(u == ());
            },
        }
        let ghost mid = *visitor;
        let r = self.2.traverse(visitor);
        proof {
            lemma_reachable_then(visit_step::<V>(), v0, mid, *visitor, r);
            if Self::reports_events() {
                lemma_walk_parts_next(visit_step::<V>(), parts, 2, v0, mid, *visitor, r);
            }
        }
        match r {
            ControlFlow::Break(b) => {
                return ControlFlow::Break(b);
            },
            ControlFlow::Continue(u) => {
                assert(u == ());
            },
        }
        let ghost mid = *visitor;
        let r = self.3.traverse(visitor);
        proof {
            lemma_reachable_then(visit_step::<V>(), v0, mid, *visitor, r);
            if Self::reports_events() {
                lemma_walk_parts_next(visit_step::<V>(), parts, 3, v0, mid, *visitor, r);
            }
        }
        match r {
            ControlFlow::Break(b) => {
                return ControlFlow::Break(b);
            },
            ControlFlow::Continue(u) => {
                assert(u == ());
            },
        }
        let ghost mid = *visitor;
        let r = self.4.traverse(visitor);
        proof {
            lemma_reachable_then(visit_step::<V>(), v0, mid, *visitor, r);
            if Self::reports_events() {
                lemma_walk_parts_next(visit_step::<V>(), parts, 4, v0, mid, *visitor, r);
            }
        }
        match r {
            ControlFlow::Break(b) => {
                return ControlFlow::Break(b);
            },
            ControlFlow::Continue(u) => {
                assert(u == ());
            },
        }
        let ghost mid = *visitor;
        let r = self.5.traverse(visitor);
        proof {
            lemma_reachable_then(visit_step::<V>(), v0, mid, *visitor, r);
            if Self::reports_events() {
                lemma_walk_parts_next(visit_step::<V>(), parts, 5, v0, mid, *visitor, r);
            }
        }
        match r {
            ControlFlow::Break(b) => {
                return ControlFlow::Break(b);
            },
            ControlFlow::Continue(u) => {
                assert(u == ());
            },
        }
        let ghost mid = *visitor;
        let r = self.6.traverse(visitor);
        proof {
            lemma_reachable_then(visit_step::<V>(), v0, mid, *visitor, r);
            if Self::reports_events() {
                lemma_walk_parts_next(visit_step::<V>(), parts, 6, v0, mid, *visitor, r);
            }
        }
        match r {
            ControlFlow::Break(b) => {
                return ControlFlow::Break(b);
            },
            ControlFlow::Continue(u) => {
                assert(u == ());
            },
        }
        let ghost mid = *visitor;
        let r = self.7.traverse(visitor);
        proof {
            lemma_reachable_then(visit_step::<V>(), v0, mid, *visitor, r);
            if Self::reports_events() {
                lemma_walk_parts_next(visit_step::<V>(), parts, 7, v0, mid, *visitor, r);
            }
        }
        r
    }
}

/// What a mutable traversal may do to each field of a tuple of 8:
/// field `i` of `pre` may become field `i` of `post`, reporting `e`, going
/// through when `d`.
pub open spec fn fields8_mut_steps<
    T0: TraversableMut,
    T1: TraversableMut,
    T2: TraversableMut,
    T3: TraversableMut,
    T4: TraversableMut,
    T5: TraversableMut,
    T6: TraversableMut,
    T7: TraversableMut,
>(
    pre: (T0, T1, T2, T3, T4, T5, T6, T7),
    post: (T0, T1, T2, T3, T4, T5, T6, T7),
) -> spec_fn(int, Seq<Event>, bool) -> bool {
    |i: int, e: Seq<Event>, d: bool|
        if i == 0 {
            pre.0.mut_steps(&post.0, e, d)
        } else if i == 1 {
            pre.1.mut_steps(&post.1, e, d)
        } else if i == 2 {
            pre.2.mut_steps(&post.2, e, d)
        } else if i == 3 {
            pre.3.mut_steps(&post.3, e, d)
        } else if i == 4 {
            pre.4.mut_steps(&post.4, e, d)
        } else if i == 5 {
            pre.5.mut_steps(&post.5, e, d)
        } else if i == 6 {
            pre.6.mut_steps(&post.6, e, d)
        } else {
            pre.7.mut_steps(&post.7, e, d)
        }
}

/// Whether field `j` of `post` is as in `pre`.
pub open spec fn fields8_kept<T0, T1, T2, T3, T4, T5, T6, T7>(
    pre: (T0, T1, T2, T3, T4, T5, T6, T7),
    post: (T0, T1, T2, T3, T4, T5, T6, T7),
) -> spec_fn(int) -> bool {
    |j: int|
        if j == 0 {
            post.0 == pre.0
        } else if j == 1 {
            post.1 == pre.1
        } else if j == 2 {
            post.2 == pre.2
        } else if j == 3 {
            post.3 == pre.3
        } else if j == 4 {
            post.4 == pre.4
        } else if j == 5 {
            post.5 == pre.5
        } else if j == 6 {
            post.6 == pre.6
        } else {
            post.7 == pre.7
        }
}

impl<
    T0: TraversableMut,
    T1: TraversableMut,
    T2: TraversableMut,
    T3: TraversableMut,
    T4: TraversableMut,
    T5: TraversableMut,
    T6: TraversableMut,
    T7: TraversableMut,
> TraversableMut for (T0, T1, T2, T3, T4, T5, T6, T7) {
    open spec fn reports_mut_steps() -> bool {
        &&& T0::reports_mut_steps()
        &&& T1::reports_mut_steps()
        &&& T2::reports_mut_steps()
        &&& T3::reports_mut_steps()
        &&& T4::reports_mut_steps()
        &&& T5::reports_mut_steps()
        &&& T6::reports_mut_steps()
        &&& T7::reports_mut_steps()
    }

    /// The fields are traversed one by one, in order; after a break, the later
    /// fields are left as they were.
    open spec fn mut_steps(&self, post: &Self, es: Seq<Event>, done: bool) -> bool {
        in_order(8, fields8_mut_steps(*self, *post), fields8_kept(*self, *post), es, done)
    }

    fn traverse_mut<V: VisitorMut>(&mut self, visitor: &mut V) -> (r: ControlFlow<V::Break>) {
        let ghost v0 = *visitor;
        let ghost pre = *self;
        let ghost mut parts: Seq<Seq<Event>> = Seq::empty();
        let ghost mut last: Seq<Event> = Seq::empty();
        let ghost mut es: Seq<Event> = Seq::empty();
        proof {
            lemma_reachable_refl(visit_mut_step::<V>(), v0);
            lemma_in_order_start(fields8_mut_steps(pre, pre), fields8_kept(pre, pre));
        }
        let ghost before = *self;
        let ghost mid = *visitor;
        let r = self.0.traverse_mut(visitor);
        proof {
            lemma_reachable_then(visit_mut_step::<V>(), v0, mid, *visitor, r);
            if Self::reports_mut_steps() {
                let e = choose|e: Seq<Event>|
                    pre.0.mut_steps(&self.0, e, r is Continue) && #[trigger] walk(
                        visit_mut_step::<V>(),
                        e,
                        mid,
                        *visitor,
                        r,
                    );
                lemma_walk_append(visit_mut_step::<V>(), es, e, v0, mid, *visitor, r);
                lemma_in_order_go(
                    0,
                    fields8_mut_steps(pre, before),
                    fields8_mut_steps(pre, *self),
                    fields8_kept(pre, *self),
                    parts,
                    last,
                    es,
                    e,
                    r is Continue,
                );
                if r is Continue {
                    parts = parts.push(e);
                } else {
                    last = e;
                }
                es = es + e;
            }
        }
        match r {
            ControlFlow::Break(b) => {
                proof {
                    if Self::reports_mut_steps() {
                        lemma_in_order_stop(
                            1,
                            8,
                            fields8_mut_steps(pre, *self),
                            fields8_kept(pre, *self),
                            parts,
                            last,
                            es,
                        );
                    }
                }
                return ControlFlow::Break(b);
            },
            ControlFlow::Continue(u) => {
                assert(u == ());
            },
        }
        let ghost before = *self;
        let ghost mid = *visitor;
        let r = self.1.traverse_mut(visitor);
        proof {
            lemma_reachable_then(visit_mut_step::<V>(), v0, mid, *visitor, r);
            if Self::reports_mut_steps() {
                let e = choose|e: Seq<Event>|
                    pre.1.mut_steps(&self.1, e, r is Continue) && #[trigger] walk(
                        visit_mut_step::<V>(),
                        e,
                        mid,
                        *visitor,
                        r,
                    );
                lemma_walk_append(visit_mut_step::<V>(), es, e, v0, mid, *visitor, r);
                lemma_in_order_go(
                    1,
                    fields8_mut_steps(pre, before),
                    fields8_mut_steps(pre, *self),
                    fields8_kept(pre, *self),
                    parts,
                    last,
                    es,
                    e,
                    r is Continue,
                );
                if r is Continue {
                    parts = parts.push(e);
                } else {
                    last = e;
                }
                es = es + e;
            }
        }
        match r {
            ControlFlow::Break(b) => {
                proof {
                    if Self::reports_mut_steps() {
                        lemma_in_order_stop(
                            2,
                            8,
                            fields8_mut_steps(pre, *self),
                            fields8_kept(pre, *self),
                            parts,
                            last,
                            es,
                        );
                    }
                }
                return ControlFlow::Break(b);
            },
            ControlFlow::Continue(u) => {
                assert(u == ());
            },
        }
        let ghost before = *self;
        let ghost mid = *visitor;
        let r = self.2.traverse_mut(visitor);
        proof {
            lemma_reachable_then(visit_mut_step::<V>(), v0, mid, *visitor, r);
            if Self::reports_mut_steps() {
                let e = choose|e: Seq<Event>|
                    pre.2.mut_steps(&self.2, e, r is Continue) && #[trigger] walk(
                        visit_mut_step::<V>(),
                        e,
                        mid,
                        *visitor,
                        r,
                    );
                lemma_walk_append(visit_mut_step::<V>(), es, e, v0, mid, *visitor, r);
                lemma_in_order_go(
                    2,
                    fields8_mut_steps(pre, before),
                    fields8_mut_steps(pre, *self),
                    fields8_kept(pre, *self),
                    parts,
                    last,
                    es,
                    e,
                    r is Continue,
                );
                if r is Continue {
                    parts = parts.push(e);
                } else {
                    last = e;
                }
                es = es + e;
            }
        }
        match r {
            ControlFlow::Break(b) => {
                proof {
                    if Self::reports_mut_steps() {
                        lemma_in_order_stop(
                            3,
                            8,
                            fields8_mut_steps(pre, *self),
                            fields8_kept(pre, *self),
                            parts,
                            last,
                            es,
                        );
                    }
                }
                return ControlFlow::Break(b);
            },
            ControlFlow::Continue(u) => {
                assert(u == ());
            },
        }
        let ghost before = *self;
        let ghost mid = *visitor;
        let r = self.3.traverse_mut(visitor);
        proof {
            lemma_reachable_then(visit_mut_step::<V>(), v0, mid, *visitor, r);
            if Self::reports_mut_steps() {
                let e = choose|e: Seq<Event>|
                    pre.3.mut_steps(&self.3, e, r is Continue) && #[trigger] walk(
                        visit_mut_step::<V>(),
                        e,
                        mid,
                        *visitor,
                        r,
                    );
                lemma_walk_append(visit_mut_step::<V>(), es, e, v0, mid, *visitor, r);
                lemma_in_order_go(
                    3,
                    fields8_mut_steps(pre, before),
                    fields8_mut_steps(pre, *self),
                    fields8_kept(pre, *self),
                    parts,
                    last,
                    es,
                    e,
                    r is Continue,
                );
                if r is Continue {
                    parts = parts.push(e);
                } else {
                    last = e;
                }
                es = es + e;
            }
        }
        match r {
            ControlFlow::Break(b) => {
                proof {
                    if Self::reports_mut_steps() {
                        lemma_in_order_stop(
                            4,
                            8,
                            fields8_mut_steps(pre, *self),
                            fields8_kept(pre, *self),
                            parts,
                            last,
                            es,
                        );
                    }
                }
                return ControlFlow::Break(b);
            },
            ControlFlow::Continue(u) => {
                assert(u == ());
            },
        }
        let ghost before = *self;
        let ghost mid = *visitor;
        let r = self.4.traverse_mut(visitor);
        proof {
            lemma_reachable_then(visit_mut_step::<V>(), v0, mid, *visitor, r);
            if Self::reports_mut_steps() {
                let e = choose|e: Seq<Event>|
                    pre.4.mut_steps(&self.4, e, r is Continue) && #[trigger] walk(
                        visit_mut_step::<V>(),
                        e,
                        mid,
                        *visitor,
                        r,
                    );
                lemma_walk_append(visit_mut_step::<V>(), es, e, v0, mid, *visitor, r);
                lemma_in_order_go(
                    4,
                    fields8_mut_steps(pre, before),
                    fields8_mut_steps(pre, *self),
                    fields8_kept(pre, *self),
                    parts,
                    last,
                    es,
                    e,
                    r is Continue,
                );
                if r is Continue {
                    parts = parts.push(e);
                } else {
                    last = e;
                }
                es = es + e;
            }
        }
        match r {
            ControlFlow::Break(b) => {
                proof {
                    if Self::reports_mut_steps() {
                        lemma_in_order_stop(
                            5,
                            8,
                            fields8_mut_steps(pre, *self),
                            fields8_kept(pre, *self),
                            parts,
                            last,
                            es,
                        );
                    }
                }
                return ControlFlow::Break(b);
            },
            ControlFlow::Continue(u) => {
                assert(u == ());
            },
        }
        let ghost before = *self;
        let ghost mid = *visitor;
        let r = self.5.traverse_mut(visitor);
        proof {
            lemma_reachable_then(visit_mut_step::<V>(), v0, mid, *visitor, r);
            if Self::reports_mut_steps() {
                let e = choose|e: Seq<Event>|
                    pre.5.mut_steps(&self.5, e, r is Continue) && #[trigger] walk(
                        visit_mut_step::<V>(),
                        e,
                        mid,
                        *visitor,
                        r,
                    );
                lemma_walk_append(visit_mut_step::<V>(), es, e, v0, mid, *visitor, r);
                lemma_in_order_go(
                    5,
                    fields8_mut_steps(pre, before),
                    fields8_mut_steps(pre, *self),
                    fields8_kept(pre, *self),
                    parts,
                    last,
                    es,
                    e,
                    r is Continue,
                );
                if r is Continue {
                    parts = parts.push(e);
                } else {
                    last = e;
                }
                es = es + e;
            }
        }
        match r {
            ControlFlow::Break(b) => {
                proof {
                    if Self::reports_mut_steps() {
                        lemma_in_order_stop(
                            6,
                            8,
                            fields8_mut_steps(pre, *self),
                            fields8_kept(pre, *self),
                            parts,
                            last,
                            es,
                        );
                    }
                }
                return ControlFlow::Break(b);
            },
            ControlFlow::Continue(u) => {
                assert(u == ());
            },
        }
        let ghost before = *self;
        let ghost mid = *visitor;
        let r = self.6.traverse_mut(visitor);
        proof {
            lemma_reachable_then(visit_mut_step::<V>(), v0, mid, *visitor, r);
            if Self::reports_mut_steps() {
                let e = choose|e: Seq<Event>|
                    pre.6.mut_steps(&self.6, e, r is Continue) && #[trigger] walk(
                        visit_mut_step::<V>(),
                        e,
                        mid,
                        *visitor,
                        r,
                    );
                lemma_walk_append(visit_mut_step::<V>(), es, e, v0, mid, *visitor, r);
                lemma_in_order_go(
                    6,
                    fields8_mut_steps(pre, before),
                    fields8_mut_steps(pre, *self),
                    fields8_kept(pre, *self),
                    parts,
                    last,
                    es,
                    e,
                    r is Continue,
                );
                if r is Continue {
                    parts = parts.push(e);
                } else {
                    last = e;
                }
                es = es + e;
            }
        }
        match r {
            ControlFlow::Break(b) => {
                proof {
                    if Self::reports_mut_steps() {
                        lemma_in_order_stop(
                            7,
                            8,
                            fields8_mut_steps(pre, *self),
                            fields8_kept(pre, *self),
                            parts,
                            last,
                            es,
                        );
                    }
                }
                return ControlFlow::Break(b);
            },
            ControlFlow::Continue(u) => {
                assert(u == ());
            },
        }
        let ghost before = *self;
        let ghost mid = *visitor;
        let r = self.7.traverse_mut(visitor);
        proof {
            lemma_reachable_then(visit_mut_step::<V>(), v0, mid, *visitor, r);
            if Self::reports_mut_steps() {
                let e = choose|e: Seq<Event>|
                    pre.7.mut_steps(&self.7, e, r is Continue) && #[trigger] walk(
                        visit_mut_step::<V>(),
                        e,
                        mid,
                        *visitor,
                        r,
                    );
                lemma_walk_append(visit_mut_step::<V>(), es, e, v0, mid, *visitor, r);
                lemma_in_order_go(
                    7,
                    fields8_mut_steps(pre, before),
                    fields8_mut_steps(pre, *self),
                    fields8_kept(pre, *self),
                    parts,
                    last,
                    es,
                    e,
                    r is Continue,
                );
                if r is Continue {
                    parts = parts.push(e);
                } else {
                    last = e;
                }
                es = es + e;
            }
        }
        r
    }
}

impl<
    T0: Traversable,
    T1: Traversable,
    T2: Traversable,
    T3: Traversable,
    T4: Traversable,
    T5: Traversable,
    T6: Traversable,
    T7: Traversable,
    T8: Traversable,
> Traversable for (T0, T1, T2, T3, T4, T5, T6, T7, T8) {
    open spec fn reports_events() -> bool {
        &&& T0::reports_events()
        &&& T1::reports_events()
        &&& T2::reports_events()
        &&& T3::reports_events()
        &&& T4::reports_events()
        &&& T5::reports_events()
        &&& T6::reports_events()
        &&& T7::reports_events()
        &&& T8::reports_events()
    }

    /// The events of the fields, in order.
    open spec fn events(&self) -> Seq<Event> {
        concat(seq![
            self.0.events(),
            self.1.events(),
            self.2.events(),
            self.3.events(),
            self.4.events(),
            self.5.events(),
            self.6.events(),
            self.7.events(),
            self.8.events(),
        ])
    }

    fn traverse<V: Visitor>(&self, visitor: &mut V) -> (r: ControlFlow<V::Break>) {
        let ghost v0 = *visitor;
        let ghost parts = seq![
            self.0.events(),
            self.1.events(),
            self.2.events(),
            self.3.events(),
            self.4.events(),
            self.5.events(),
            self.6.events(),
            self.7.events(),
            self.8.events(),
        ];
        proof {
            lemma_reachable_refl(visit_step::<V>(), v0);
            lemma_walk_parts_start(visit_step::<V>(), parts, v0);
        }
        let ghost mid = *visitor;
        let r = self.0.traverse(visitor);
        proof {
            lemma_reachable_then(visit_step::<V>(), v0, mid, *visitor, r);
            if Self::reports_events() {
                lemma_walk_parts_next(visit_step::<V>(), parts, 0, v0, mid, *visitor, r);
            }
        }
        match r {
            ControlFlow::Break(b) => {
                return ControlFlow::Break(b);
            },
            ControlFlow::Continue(u) => {
                assert(u == ());
            },
        }
        let ghost mid = *visitor;
        let r = self.1.traverse(visitor);
        proof {
            lemma_reachable_then(visit_step::<V>(), v0, mid, *visitor, r);
            if Self::reports_events() {
                lemma_walk_parts_next(visit_step::<V>(), parts, 1, v0, mid, *visitor, r);
            }
        }
        match r {
            ControlFlow::Break(b) => {
                return ControlFlow::Break(b);
            },
            ControlFlow::Continue(u) => {
                assert(u == ());
            },
        }
        let ghost mid = *visitor;
        let r = self.2.traverse(visitor);
        proof {
            lemma_reachable_then(visit_step::<V>(), v0, mid, *visitor, r);
            if Self::reports_events() {
                lemma_walk_parts_next(visit_step::<V>(), parts, 2, v0, mid, *visitor, r);
            }
        }
        match r {
            ControlFlow::Break(b) => {
                return ControlFlow::Break(b);
            },
            ControlFlow::Continue(u) => {
                assert(u == ());
            },
        }
        let ghost mid = *visitor;
        let r = self.3.traverse(visitor);
        proof {
            lemma_reachable_then(visit_step::<V>(), v0, mid, *visitor, r);
            if Self::reports_events() {
                lemma_walk_parts_next(visit_step::<V>(), parts, 3, v0, mid, *visitor, r);
            }
        }
        match r {
            ControlFlow::Break(b) => {
                return ControlFlow::Break(b);
            },
            ControlFlow::Continue(u) => {
                assert(u == ());
            },
        }
        let ghost mid = *visitor;
        let r = self.4.traverse(visitor);
        proof {
            lemma_reachable_then(visit_step::<V>(), v0, mid, *visitor, r);
            if Self::reports_events() {
                lemma_walk_parts_next(visit_step::<V>(), parts, 4, v0, mid, *visitor, r);
            }
        }
        match r {
            ControlFlow::Break(b) => {
                return ControlFlow::Break(b);
            },
            ControlFlow::Continue(u) => {
                assert(u == ());
            },
        }
        let ghost mid = *visitor;
        let r = self.5.traverse(visitor);
        proof {
            lemma_reachable_then(visit_step::<V>(), v0, mid, *visitor, r);
            if Self::reports_events() {
                lemma_walk_parts_next(visit_step::<V>(), parts, 5, v0, mid, *visitor, r);
            }
        }
        match r {
            ControlFlow::Break(b) => {
                return ControlFlow::Break(b);
            },
            ControlFlow::Continue(u) => {
                assert(u == ());
            },
        }
        let ghost mid = *visitor;
        let r = self.6.traverse(visitor);
        proof {
            lemma_reachable_then(visit_step::<V>(), v0, mid, *visitor, r);
            if Self::reports_events() {
                lemma_walk_parts_next(visit_step::<V>(), parts, 6, v0, mid, *visitor, r);
            }
        }
        match r {
            ControlFlow::Break(b) => {
                return ControlFlow::Break(b);
            },
            ControlFlow::Continue(u) => {
                assert(u == ());
            },
        }
        let ghost mid = *visitor;
        let r = self.7.traverse(visitor);
        proof {
            lemma_reachable_then(visit_step::<V>(), v0, mid, *visitor, r);
            if Self::reports_events() {
                lemma_walk_parts_next(visit_step::<V>(), parts, 7, v0, mid, *visitor, r);
            }
        }
        match r {
            ControlFlow::Break(b) => {
                return ControlFlow::Break(b);
            },
            ControlFlow::Continue(u) => {
                assert(u == ());
            },
        }
        let ghost mid = *visitor;
        let r = self.8.traverse(visitor);
        proof {
            lemma_reachable_then(visit_step::<V>(), v0, mid, *visitor, r);
            if Self::reports_events() {
                lemma_walk_parts_next(visit_step::<V>(), parts, 8, v0, mid, *visitor, r);
            }
        }
        r
    }
}

/// What a mutable traversal may do to each field of a tuple of 9:
/// field `i` of `pre` may become field `i` of `post`, reporting `e`, going
/// through when `d`.
pub open spec fn fields9_mut_steps<
    T0: TraversableMut,
    T1: TraversableMut,
    T2: TraversableMut,
    T3: TraversableMut,
    T4: TraversableMut,
    T5: TraversableMut,
    T6: TraversableMut,
    T7: TraversableMut,
    T8: TraversableMut,
>(
    pre: (T0, T1, T2, T3, T4, T5, T6, T7, T8),
    post: (T0, T1, T2, T3, T4, T5, T6, T7, T8),
) -> spec_fn(int, Seq<Event>, bool) -> bool {
    |i: int, e: Seq<Event>, d: bool|
        if i == 0 {
            pre.0.mut_steps(&post.0, e, d)
        } else if i == 1 {
            pre.1.mut_steps(&post.1, e, d)
        } else if i == 2 {
            pre.2.mut_steps(&post.2, e, d)
        } else if i == 3 {
            pre.3.mut_steps(&post.3, e, d)
        } else if i == 4 {
            pre.4.mut_steps(&post.4, e, d)
        } else if i == 5 {
            pre.5.mut_steps(&post.5, e, d)
        } else if i == 6 {
            pre.6.mut_steps(&post.6, e, d)
        } else if i == 7 {
            pre.7.mut_steps(&post.7, e, d)
        } else {
            pre.8.mut_steps(&post.8, e, d)
        }
}

/// Whether field `j` of `post` is as in `pre`.
pub open spec fn fields9_kept<T0, T1, T2, T3, T4, T5, T6, T7, T8>(
    pre: (T0, T1, T2, T3, T4, T5, T6, T7, T8),
    post: (T0, T1, T2, T3, T4, T5, T6, T7, T8),
) -> spec_fn(int) -> bool {
    |j: int|
        if j == 0 {
            post.0 == pre.0
        } else if j == 1 {
            post.1 == pre.1
        } else if j == 2 {
            post.2 == pre.2
        } else if j == 3 {
            post.3 == pre.3
        } else if j == 4 {
            post.4 == pre.4
        } else if j == 5 {
            post.5 == pre.5
        } else if j == 6 {
            post.6 == pre.6
        } else if j == 7 {
            post.7 == pre.7
        } else {
            post.8 == pre.8
        }
}

impl<
    T0: TraversableMut,
    T1: TraversableMut,
    T2: TraversableMut,
    T3: TraversableMut,
    T4: TraversableMut,
    T5: TraversableMut,
    T6: TraversableMut,
    T7: TraversableMut,
    T8: TraversableMut,
> TraversableMut for (T0, T1, T2, T3, T4, T5, T6, T7, T8) {
    open spec fn reports_mut_steps() -> bool {
        &&& T0::reports_mut_steps()
        &&& T1::reports_mut_steps()
        &&& T2::reports_mut_steps()
        &&& T3::reports_mut_steps()
        &&& T4::reports_mut_steps()
        &&& T5::reports_mut_steps()
        &&& T6::reports_mut_steps()
        &&& T7::reports_mut_steps()
        &&& T8::reports_mut_steps()
    }

    /// The fields are traversed one by one, in order; after a break, the later
    /// fields are left as they were.
    open spec fn mut_steps(&self, post: &Self, es: Seq<Event>, done: bool) -> bool {
        in_order(9, fields9_mut_steps(*self, *post), fields9_kept(*self, *post), es, done)
    }

    fn traverse_mut<V: VisitorMut>(&mut self, visitor: &mut V) -> (r: ControlFlow<V::Break>) {
        let ghost v0 = *visitor;
        let ghost pre = *self;
        let ghost mut parts: Seq<Seq<Event>> = Seq::empty();
        let ghost mut last: Seq<Event> = Seq::empty();
        let ghost mut es: Seq<Event> = Seq::empty();
        proof {
            lemma_reachable_refl(visit_mut_step::<V>(), v0);
            lemma_in_order_start(fields9_mut_steps(pre, pre), fields9_kept(pre, pre));
        }
        let ghost before = *self;
        let ghost mid = *visitor;
        let r = self.0.traverse_mut(visitor);
        proof {
            lemma_reachable_then(visit_mut_step::<V>(), v0, mid, *visitor, r);
            if Self::reports_mut_steps() {
                let e = choose|e: Seq<Event>|
                    pre.0.mut_steps(&self.0, e, r is Continue) && #[trigger] walk(
                        visit_mut_step::<V>(),
                        e,
                        mid,
                        *visitor,
                        r,
                    );
                lemma_walk_append(visit_mut_step::<V>(), es, e, v0, mid, *visitor, r);
                lemma_in_order_go(
                    0,
                    fields9_mut_steps(pre, before),
                    fields9_mut_steps(pre, *self),
                    fields9_kept(pre, *self),
                    parts,
                    last,
                    es,
                    e,
                    r is Continue,
                );
                if r is Continue {
                    parts = parts.push(e);
                } else {
                    last = e;
                }
                es = es + e;
            }
        }
        match r {
            ControlFlow::Break(b) => {
                proof {
                    if Self::reports_mut_steps() {
                        lemma_in_order_stop(
                            1,
                            9,
                            fields9_mut_steps(pre, *self),
                            fields9_kept(pre, *self),
                            parts,
                            last,
                            es,
                        );
                    }
                }
                return ControlFlow::Break(b);
            },
            ControlFlow::Continue(u) => {
                assert(u == ());
            },
        }
        let ghost before = *self;
        let ghost mid = *visitor;
        let r = self.1.traverse_mut(visitor);
        proof {
            lemma_reachable_then(visit_mut_step::<V>(), v0, mid, *visitor, r);
            if Self::reports_mut_steps() {
                let e = choose|e: Seq<Event>|
                    pre.1.mut_steps(&self.1, e, r is Continue) && #[trigger] walk(
                        visit_mut_step::<V>(),
                        e,
                        mid,
                        *visitor,
                        r,
                    );
                lemma_walk_append(visit_mut_step::<V>(), es, e, v0, mid, *visitor, r);
                lemma_in_order_go(
                    1,
                    fields9_mut_steps(pre, before),
                    fields9_mut_steps(pre, *self),
                    fields9_kept(pre, *self),
                    parts,
                    last,
                    es,
                    e,
                    r is Continue,
                );
                if r is Continue {
                    parts = parts.push(e);
                } else {
                    last = e;
                }
                es = es + e;
            }
        }
        match r {
            ControlFlow::Break(b) => {
                proof {
                    if Self::reports_mut_steps() {
                        lemma_in_order_stop(
                            2,
                            9,
                            fields9_mut_steps(pre, *self),
                            fields9_kept(pre, *self),
                            parts,
                            last,
                            es,
                        );
                    }
                }
                return ControlFlow::Break(b);
            },
            ControlFlow::Continue(u) => {
                assert(u == ());
            },
        }
        let ghost before = *self;
        let ghost mid = *visitor;
        let r = self.2.traverse_mut(visitor);
        proof {
            lemma_reachable_then(visit_mut_step::<V>(), v0, mid, *visitor, r);
            if Self::reports_mut_steps() {
                let e = choose|e: Seq<Event>|
                    pre.2.mut_steps(&self.2, e, r is Continue) && #[trigger] walk(
                        visit_mut_step::<V>(),
                        e,
                        mid,
                        *visitor,
                        r,
                    );
                lemma_walk_append(visit_mut_step::<V>(), es, e, v0, mid, *visitor, r);
                lemma_in_order_go(
                    2,
                    fields9_mut_steps(pre, before),
                    fields9_mut_steps(pre, *self),
                    fields9_kept(pre, *self),
                    parts,
                    last,
                    es,
                    e,
                    r is Continue,
                );
                if r is Continue {
                    parts = parts.push(e);
                } else {
                    last = e;
                }
                es = es + e;
            }
        }
        match r {
            ControlFlow::Break(b) => {
                proof {
                    if Self::reports_mut_steps() {
                        lemma_in_order_stop(
                            3,
                            9,
                            fields9_mut_steps(pre, *self),
                            fields9_kept(pre, *self),
                            parts,
                            last,
                            es,
                        );
                    }
                }
                return ControlFlow::Break(b);
            },
            ControlFlow::Continue(u) => {
                assert(u == ());
            },
        }
        let ghost before = *self;
        let ghost mid = *visitor;
        let r = self.3.traverse_mut(visitor);
        proof {
            lemma_reachable_then(visit_mut_step::<V>(), v0, mid, *visitor, r);
            if Self::reports_mut_steps() {
                let e = choose|e: Seq<Event>|
                    pre.3.mut_steps(&self.3, e, r is Continue) && #[trigger] walk(
                        visit_mut_step::<V>(),
                        e,
                        mid,
                        *visitor,
                        r,
                    );
                lemma_walk_append(visit_mut_step::<V>(), es, e, v0, mid, *visitor, r);
                lemma_in_order_go(
                    3,
                    fields9_mut_steps(pre, before),
                    fields9_mut_steps(pre, *self),
                    fields9_kept(pre, *self),
                    parts,
                    last,
                    es,
                    e,
                    r is Continue,
                );
                if r is Continue {
                    parts = parts.push(e);
                } else {
                    last = e;
                }
                es = es + e;
            }
        }
        match r {
            ControlFlow::Break(b) => {
                proof {
                    if Self::reports_mut_steps() {
                        lemma_in_order_stop(
                            4,
                            9,
                            fields9_mut_steps(pre, *self),
                            fields9_kept(pre, *self),
                            parts,
                            last,
                            es,
                        );
                    }
                }
                return ControlFlow::Break(b);
            },
            ControlFlow::Continue(u) => {
                assert(u == ());
            },
        }
        let ghost before = *self;
        let ghost mid = *visitor;
        let r = self.4.traverse_mut(visitor);
        proof {
            lemma_reachable_then(visit_mut_step::<V>(), v0, mid, *visitor, r);
            if Self::reports_mut_steps() {
                let e = choose|e: Seq<Event>|
                    pre.4.mut_steps(&self.4, e, r is Continue) && #[trigger] walk(
                        visit_mut_step::<V>(),
                        e,
                        mid,
                        *visitor,
                        r,
                    );
                lemma_walk_append(visit_mut_step::<V>(), es, e, v0, mid, *visitor, r);
                lemma_in_order_go(
                    4,
                    fields9_mut_steps(pre, before),
                    fields9_mut_steps(pre, *self),
                    fields9_kept(pre, *self),
                    parts,
                    last,
                    es,
                    e,
                    r is Continue,
                );
                if r is Continue {
                    parts = parts.push(e);
                } else {
                    last = e;
                }
                es = es + e;
            }
        }
        match r {
            ControlFlow::Break(b) => {
                proof {
                    if Self::reports_mut_steps() {
                        lemma_in_order_stop(
                            5,
                            9,
                            fields9_mut_steps(pre, *self),
                            fields9_kept(pre, *self),
                            parts,
                            last,
                            es,
                        );
                    }
                }
                return ControlFlow::Break(b);
            },
            ControlFlow::Continue(u) => {
                assert(u == ());
            },
        }
        let ghost before = *self;
        let ghost mid = *visitor;
        let r = self.5.traverse_mut(visitor);
        proof {
            lemma_reachable_then(visit_mut_step::<V>(), v0, mid, *visitor, r);
            if Self::reports_mut_steps() {
                let e = choose|e: Seq<Event>|
                    pre.5.mut_steps(&self.5, e, r is Continue) && #[trigger] walk(
                        visit_mut_step::<V>(),
                        e,
                        mid,
                        *visitor,
                        r,
                    );
                lemma_walk_append(visit_mut_step::<V>(), es, e, v0, mid, *visitor, r);
                lemma_in_order_go(
                    5,
                    fields9_mut_steps(pre, before),
                    fields9_mut_steps(pre, *self),
                    fields9_kept(pre, *self),
                    parts,
                    last,
                    es,
                    e,
                    r is Continue,
                );
                if r is Continue {
                    parts = parts.push(e);
                } else {
                    last = e;
                }
                es = es + e;
            }
        }
        match r {
            ControlFlow::Break(b) => {
                proof {
                    if Self::reports_mut_steps() {
                        lemma_in_order_stop(
                            6,
                            9,
                            fields9_mut_steps(pre, *self),
                            fields9_kept(pre, *self),
                            parts,
                            last,
                            es,
                        );
                    }
                }
                return ControlFlow::Break(b);
            },
            ControlFlow::Continue(u) => {
                assert(u == ());
            },
        }
        let ghost before = *self;
        let ghost mid = *visitor;
        let r = self.6.traverse_mut(visitor);
        proof {
            lemma_reachable_then(visit_mut_step::<V>(), v0, mid, *visitor, r);
            if Self::reports_mut_steps() {
                let e = choose|e: Seq<Event>|
                    pre.6.mut_steps(&self.6, e, r is Continue) && #[trigger] walk(
                        visit_mut_step::<V>(),
                        e,
                        mid,
                        *visitor,
                        r,
                    );
                lemma_walk_append(visit_mut_step::<V>(), es, e, v0, mid, *visitor, r);
                lemma_in_order_go(
                    6,
                    fields9_mut_steps(pre, before),
                    fields9_mut_steps(pre, *self),
                    fields9_kept(pre, *self),
                    parts,
                    last,
                    es,
                    e,
                    r is Continue,
                );
                if r is Continue {
                    parts = parts.push(e);
                } else {
                    last = e;
                }
                es = es + e;
            }
        }
        match r {
            ControlFlow::Break(b) => {
                proof {
                    if Self::reports_mut_steps() {
                        lemma_in_order_stop(
                            7,
                            9,
                            fields9_mut_steps(pre, *self),
                            fields9_kept(pre, *self),
                            parts,
                            last,
                            es,
                        );
                    }
                }
                return ControlFlow::Break(b);
            },
            ControlFlow::Continue(u) => {
                assert(u == ());
            },
        }
        let ghost before = *self;
        let ghost mid = *visitor;
        let r = self.7.traverse_mut(visitor);
        proof {
            lemma_reachable_then(visit_mut_step::<V>(), v0, mid, *visitor, r);
            if Self::reports_mut_steps() {
                let e = choose|e: Seq<Event>|
                    pre.7.mut_steps(&self.7, e, r is Continue) && #[trigger] walk(
                        visit_mut_step::<V>(),
                        e,
                        mid,
                        *visitor,
                        r,
                    );
                lemma_walk_append(visit_mut_step::<V>(), es, e, v0, mid, *visitor, r);
                lemma_in_order_go(
                    7,
                    fields9_mut_steps(pre, before),
                    fields9_mut_steps(pre, *self),
                    fields9_kept(pre, *self),
                    parts,
                    last,
                    es,
                    e,
                    r is Continue,
                );
                if r is Continue {
                    parts = parts.push(e);
                } else {
                    last = e;
                }
                es = es + e;
            }
        }
        match r {
            ControlFlow::Break(b) => {
                proof {
                    if Self::reports_mut_steps() {
                        lemma_in_order_stop(
                            8,
                            9,
                            fields9_mut_steps(pre, *self),
                            fields9_kept(pre, *self),
                            parts,
                            last,
                            es,
                        );
                    }
                }
                return ControlFlow::Break(b);
            },
            ControlFlow::Continue(u) => {
                assert(u == ());
            },
        }
        let ghost before = *self;
        let ghost mid = *visitor;
        let r = self.8.traverse_mut(visitor);
        proof {
            lemma_reachable_then(visit_mut_step::<V>(), v0, mid, *visitor, r);
            if Self::reports_mut_steps() {
                let e = choose|e: Seq<Event>|
                    pre.8.mut_steps(&self.8, e, r is Continue) && #[trigger] walk(
                        visit_mut_step::<V>(),
                        e,
                        mid,
                        *visitor,
                        r,
                    );
                lemma_walk_append(visit_mut_step::<V>(), es, e, v0, mid, *visitor, r);
                lemma_in_order_go(
                    8,
                    fields9_mut_steps(pre, before),
                    fields9_mut_steps(pre, *self),
                    fields9_kept(pre, *self),
                    parts,
                    last,
                    es,
                    e,
                    r is Continue,
                );
                if r is Continue {
                    parts = parts.push(e);
                } else {
                    last = e;
                }
                es = es + e;
            }
        }
        r
    }
}

impl<
    T0: Traversable,
    T1: Traversable,
    T2: Traversable,
    T3: Traversable,
    T4: Traversable,
    T5: Traversable,
    T6: Traversable,
    T7: Traversable,
    T8: Traversable,
    T9: Traversable,
> Traversable for (T0, T1, T2, T3, T4, T5, T6, T7, T8, T9) {
    open spec fn reports_events() -> bool {
        &&& T0::reports_events()
        &&& T1::reports_events()
        &&& T2::reports_events()
        &&& T3::reports_events()
        &&& T4::reports_events()
        &&& T5::reports_events()
        &&& T6::reports_events()
        &&& T7::reports_events()
        &&& T8::reports_events()
        &&& T9::reports_events()
    }

    /// The events of the fields, in order.
    open spec fn events(&self) -> Seq<Event> {
        concat(seq![
            self.0.events(),
            self.1.events(),
            self.2.events(),
            self.3.events(),
            self.4.events(),
            self.5.events(),
            self.6.events(),
            self.7.events(),
            self.8.events(),
            self.9.events(),
        ])
    }

    fn traverse<V: Visitor>(&self, visitor: &mut V) -> (r: ControlFlow<V::Break>) {
        let ghost v0 = *visitor;
        let ghost parts = seq![
            self.0.events(),
            self.1.events(),
            self.2.events(),
            self.3.events(),
            self.4.events(),
            self.5.events(),
            self.6.events(),
            self.7.events(),
            self.8.events(),
            self.9.events(),
        ];
        proof {
            lemma_reachable_refl(visit_step::<V>(), v0);
            lemma_walk_parts_start(visit_step::<V>(), parts, v0);
        }
        let ghost mid = *visitor;
        let r = self.0.traverse(visitor);
        proof {
            lemma_reachable_then(visit_step::<V>(), v0, mid, *visitor, r);
            if Self::reports_events() {
                lemma_walk_parts_next(visit_step::<V>(), parts, 0, v0, mid, *visitor, r);
            }
        }
        match r {
            ControlFlow::Break(b) => {
                return ControlFlow::Break(b);
            },
            ControlFlow::Continue(u) => {
                assert(u == ());
            },
        }
        let ghost mid = *visitor;
        let r = self.1.traverse(visitor);
        proof {
            lemma_reachable_then(visit_step::<V>(), v0, mid, *visitor, r);
            if Self::reports_events() {
                lemma_walk_parts_next(visit_step::<V>(), parts, 1, v0, mid, *visitor, r);
            }
        }
        match r {
            ControlFlow::Break(b) => {
                return ControlFlow::Break(b);
            },
            ControlFlow::Continue(u) => {
                assert(u == ());
            },
        }
        let ghost mid = *visitor;
        let r = self.2.traverse(visitor);
        proof {
            lemma_reachable_then(visit_step::<V>(), v0, mid, *visitor, r);
            if Self::reports_events() {
                lemma_walk_parts_next(visit_step::<V>(), parts, 2, v0, mid, *visitor, r);
            }
        }
        match r {
            ControlFlow::Break(b) => {
                return ControlFlow::Break(b);
            },
            ControlFlow::Continue(u) => {
                assert(u == ());
            },
        }
        let ghost mid = *visitor;
        let r = self.3.traverse(visitor);
        proof {
            lemma_reachable_then(visit_step::<V>(), v0, mid, *visitor, r);
            if Self::reports_events() {
                lemma_walk_parts_next(visit_step::<V>(), parts, 3, v0, mid, *visitor, r);
            }
        }
        match r {
            ControlFlow::Break(b) => {
                return ControlFlow::Break(b);
            },
            ControlFlow::Continue(u) => {
                assert(u == ());
            },
        }
        let ghost mid = *visitor;
        let r = self.4.traverse(visitor);
        proof {
            lemma_reachable_then(visit_step::<V>(), v0, mid, *visitor, r);
            if Self::reports_events() {
                lemma_walk_parts_next(visit_step::<V>(), parts, 4, v0, mid, *visitor, r);
            }
        }
        match r {
            ControlFlow::Break(b) => {
                return ControlFlow::Break(b);
            },
            ControlFlow::Continue(u) => {
                assert(u == ());
            },
        }
        let ghost mid = *visitor;
        let r = self.5.traverse(visitor);
        proof {
            lemma_reachable_then(visit_step::<V>(), v0, mid, *visitor, r);
            if Self::reports_events() {
                lemma_walk_parts_next(visit_step::<V>(), parts, 5, v0, mid, *visitor, r);
            }
        }
        match r {
            ControlFlow::Break(b) => {
                return ControlFlow::Break(b);
            },
            ControlFlow::Continue(u) => {
                assert(u == ());
            },
        }
        let ghost mid = *visitor;
        let r = self.6.traverse(visitor);
        proof {
            lemma_reachable_then(visit_step::<V>(), v0, mid, *visitor, r);
            if Self::reports_events() {
                lemma_walk_parts_next(visit_step::<V>(), parts, 6, v0, mid, *visitor, r);
            }
        }
        match r {
            ControlFlow::Break(b) => {
                return ControlFlow::Break(b);
            },
            ControlFlow::Continue(u) => {
                assert(u == ());
            },
        }
        let ghost mid = *visitor;
        let r = self.7.traverse(visitor);
        proof {
            lemma_reachable_then(visit_step::<V>(), v0, mid, *visitor, r);
            if Self::reports_events() {
                lemma_walk_parts_next(visit_step::<V>(), parts, 7, v0, mid, *visitor, r);
            }
        }
        match r {
            ControlFlow::Break(b) => {
                return ControlFlow::Break(b);
            },
            ControlFlow::Continue(u) => {
                assert(u == ());
            },
        }
        let ghost mid = *visitor;
        let r = self.8.traverse(visitor);
        proof {
            lemma_reachable_then(visit_step::<V>(), v0, mid, *visitor, r);
            if Self::reports_events() {
                lemma_walk_parts_next(visit_step::<V>(), parts, 8, v0, mid, *visitor, r);
            }
        }
        match r {
            ControlFlow::Break(b) => {
                return ControlFlow::Break(b);
            },
            ControlFlow::Continue(u) => {
                assert(u == ());
            },
        }
        let ghost mid = *visitor;
        let r = self.9.traverse(visitor);
        proof {
            lemma_reachable_then(visit_step::<V>(), v0, mid, *visitor, r);
            if Self::reports_events() {
                lemma_walk_parts_next(visit_step::<V>(), parts, 9, v0, mid, *visitor, r);
            }
        }
        r
    }
}

/// What a mutable traversal may do to each field of a tuple of 10:
/// field `i` of `pre` may become field `i` of `post`, reporting `e`, going
/// through when `d`.
pub open spec fn fields10_mut_steps<
    T0: TraversableMut,
    T1: TraversableMut,
    T2: TraversableMut,
    T3: TraversableMut,
    T4: TraversableMut,
    T5: TraversableMut,
    T6: TraversableMut,
    T7: TraversableMut,
    T8: TraversableMut,
    T9: TraversableMut,
>(
    pre: (T0, T1, T2, T3, T4, T5, T6, T7, T8, T9),
    post: (T0, T1, T2, T3, T4, T5, T6, T7, T8, T9),
) -> spec_fn(int, Seq<Event>, bool) -> bool {
    |i: int, e: Seq<Event>, d: bool|
        if i == 0 {
            pre.0.mut_steps(&post.0, e, d)
        } else if i == 1 {
            pre.1.mut_steps(&post.1, e, d)
        } else if i == 2 {
            pre.2.mut_steps(&post.2, e, d)
        } else if i == 3 {
            pre.3.mut_steps(&post.3, e, d)
        } else if i == 4 {
            pre.4.mut_steps(&post.4, e, d)
        } else if i == 5 {
            pre.5.mut_steps(&post.5, e, d)
        } else if i == 6 {
            pre.6.mut_steps(&post.6, e, d)
        } else if i == 7 {
            pre.7.mut_steps(&post.7, e, d)
        } else if i == 8 {
            pre.8.mut_steps(&post.8, e, d)
        } else {
            pre.9.mut_steps(&post.9, e, d)
        }
}

/// Whether field `j` of `post` is as in `pre`.
pub open spec fn fields10_kept<T0, T1, T2, T3, T4, T5, T6, T7, T8, T9>(
    pre: (T0, T1, T2, T3, T4, T5, T6, T7, T8, T9),
    post: (T0, T1, T2, T3, T4, T5, T6, T7, T8, T9),
) -> spec_fn(int) -> bool {
    |j: int|
        if j == 0 {
            post.0 == pre.0
        } else if j == 1 {
            post.1 == pre.1
        } else if j == 2 {
            post.2 == pre.2
        } else if j == 3 {
            post.3 == pre.3
        } else if j == 4 {
            post.4 == pre.4
        } else if j == 5 {
            post.5 == pre.5
        } else if j == 6 {
            post.6 == pre.6
        } else if j == 7 {
            post.7 == pre.7
        } else if j == 8 {
            post.8 == pre.8
        } else {
            post.9 == pre.9
        }
}

impl<
    T0: TraversableMut,
    T1: TraversableMut,
    T2: TraversableMut,
    T3: TraversableMut,
    T4: TraversableMut,
    T5: TraversableMut,
    T6: TraversableMut,
    T7: TraversableMut,
    T8: TraversableMut,
    T9: TraversableMut,
> TraversableMut for (T0, T1, T2, T3, T4, T5, T6, T7, T8, T9) {
    open spec fn reports_mut_steps() -> bool {
        &&& T0::reports_mut_steps()
        &&& T1::reports_mut_steps()
        &&& T2::reports_mut_steps()
        &&& T3::reports_mut_steps()
        &&& T4::reports_mut_steps()
        &&& T5::reports_mut_steps()
        &&& T6::reports_mut_steps()
        &&& T7::reports_mut_steps()
        &&& T8::reports_mut_steps()
        &&& T9::reports_mut_steps()
    }

    /// The fields are traversed one by one, in order; after a break, the later
    /// fields are left as they were.
    open spec fn mut_steps(&self, post: &Self, es: Seq<Event>, done: bool) -> bool {
        in_order(10, fields10_mut_steps(*self, *post), fields10_kept(*self, *post), es, done)
    }

    fn traverse_mut<V: VisitorMut>(&mut self, visitor: &mut V) -> (r: ControlFlow<V::Break>) {
        let ghost v0 = *visitor;
        let ghost pre = *self;
        let ghost mut parts: Seq<Seq<Event>> = Seq::empty();
        let ghost mut last: Seq<Event> = Seq::empty();
        let ghost mut es: Seq<Event> = Seq::empty();
        proof {
            lemma_reachable_refl(visit_mut_step::<V>(), v0);
            lemma_in_order_start(fields10_mut_steps(pre, pre), fields10_kept(pre, pre));
        }
        let ghost before = *self;
        let ghost mid = *visitor;
        let r = self.0.traverse_mut(visitor);
        proof {
            lemma_reachable_then(visit_mut_step::<V>(), v0, mid, *visitor, r);
            if Self::reports_mut_steps() {
                let e = choose|e: Seq<Event>|
                    pre.0.mut_steps(&self.0, e, r is Continue) && #[trigger] walk(
                        visit_mut_step::<V>(),
                        e,
                        mid,
                        *visitor,
                        r,
                    );
                lemma_walk_append(visit_mut_step::<V>(), es, e, v0, mid, *visitor, r);
                lemma_in_order_go(
                    0,
                    fields10_mut_steps(pre, before),
                    fields10_mut_steps(pre, *self),
                    fields10_kept(pre, *self),
                    parts,
                    last,
                    es,
                    e,
                    r is Continue,
                );
                if r is Continue {
                    parts = parts.push(e);
                } else {
                    last = e;
                }
                es = es + e;
            }
        }
        match r {
            ControlFlow::Break(b) => {
                proof {
                    if Self::reports_mut_steps() {
                        lemma_in_order_stop(
                            1,
                            10,
                            fields10_mut_steps(pre, *self),
                            fields10_kept(pre, *self),
                            parts,
                            last,
                            es,
                        );
                    }
                }
                return ControlFlow::Break(b);
            },
            ControlFlow::Continue(u) => {
                assert(u == ());
            },
        }
        let ghost before = *self;
        let ghost mid = *visitor;
        let r = self.1.traverse_mut(visitor);
        proof {
            lemma_reachable_then(visit_mut_step::<V>(), v0, mid, *visitor, r);
            if Self::reports_mut_steps() {
                let e = choose|e: Seq<Event>|
                    pre.1.mut_steps(&self.1, e, r is Continue) && #[trigger] walk(
                        visit_mut_step::<V>(),
                        e,
                        mid,
                        *visitor,
                        r,
                    );
                lemma_walk_append(visit_mut_step::<V>(), es, e, v0, mid, *visitor, r);
                lemma_in_order_go(
                    1,
                    fields10_mut_steps(pre, before),
                    fields10_mut_steps(pre, *self),
                    fields10_kept(pre, *self),
                    parts,
                    last,
                    es,
                    e,
                    r is Continue,
                );
                if r is Continue {
                    parts = parts.push(e);
                } else {
                    last = e;
                }
                es = es + e;
            }
        }
        match r {
            ControlFlow::Break(b) => {
                proof {
                    if Self::reports_mut_steps() {
                        lemma_in_order_stop(
                            2,
                            10,
                            fields10_mut_steps(pre, *self),
                            fields10_kept(pre, *self),
                            parts,
                            last,
                            es,
                        );
                    }
                }
                return ControlFlow::Break(b);
            },
            ControlFlow::Continue(u) => {
                assert(u == ());
            },
        }
        let ghost before = *self;
        let ghost mid = *visitor;
        let r = self.2.traverse_mut(visitor);
        proof {
            lemma_reachable_then(visit_mut_step::<V>(), v0, mid, *visitor, r);
            if Self::reports_mut_steps() {
                let e = choose|e: Seq<Event>|
                    pre.2.mut_steps(&self.2, e, r is Continue) && #[trigger] walk(
                        visit_mut_step::<V>(),
                        e,
                        mid,
                        *visitor,
                        r,
                    );
                lemma_walk_append(visit_mut_step::<V>(), es, e, v0, mid, *visitor, r);
                lemma_in_order_go(
                    2,
                    fields10_mut_steps(pre, before),
                    fields10_mut_steps(pre, *self),
                    fields10_kept(pre, *self),
                    parts,
                    last,
                    es,
                    e,
                    r is Continue,
                );
                if r is Continue {
                    parts = parts.push(e);
                } else {
                    last = e;
                }
                es = es + e;
            }
        }
        match r {
            ControlFlow::Break(b) => {
                proof {
                    if Self::reports_mut_steps() {
                        lemma_in_order_stop(
                            3,
                            10,
                            fields10_mut_steps(pre, *self),
                            fields10_kept(pre, *self),
                            parts,
                            last,
                            es,
                        );
                    }
                }
                return ControlFlow::Break(b);
            },
            ControlFlow::Continue(u) => {
                assert(u == ());
            },
        }
        let ghost before = *self;
        let ghost mid = *visitor;
        let r = self.3.traverse_mut(visitor);
        proof {
            lemma_reachable_then(visit_mut_step::<V>(), v0, mid, *visitor, r);
            if Self::reports_mut_steps() {
                let e = choose|e: Seq<Event>|
                    pre.3.mut_steps(&self.3, e, r is Continue) && #[trigger] walk(
                        visit_mut_step::<V>(),
                        e,
                        mid,
                        *visitor,
                        r,
                    );
                lemma_walk_append(visit_mut_step::<V>(), es, e, v0, mid, *visitor, r);
                lemma_in_order_go(
                    3,
                    fields10_mut_steps(pre, before),
                    fields10_mut_steps(pre, *self),
                    fields10_kept(pre, *self),
                    parts,
                    last,
                    es,
                    e,
                    r is Continue,
                );
                if r is Continue {
                    parts = parts.push(e);
                } else {
                    last = e;
                }
                es = es + e;
            }
        }
        match r {
            ControlFlow::Break(b) => {
                proof {
                    if Self::reports_mut_steps() {
                        lemma_in_order_stop(
                            4,
                            10,
                            fields10_mut_steps(pre, *self),
                            fields10_kept(pre, *self),
                            parts,
                            last,
                            es,
                        );
                    }
                }
                return ControlFlow::Break(b);
            },
            ControlFlow::Continue(u) => {
                assert(u == ());
            },
        }
        let ghost before = *self;
        let ghost mid = *visitor;
        let r = self.4.traverse_mut(visitor);
        proof {
            lemma_reachable_then(visit_mut_step::<V>(), v0, mid, *visitor, r);
            if Self::reports_mut_steps() {
                let e = choose|e: Seq<Event>|
                    pre.4.mut_steps(&self.4, e, r is Continue) && #[trigger] walk(
                        visit_mut_step::<V>(),
                        e,
                        mid,
                        *visitor,
                        r,
                    );
                lemma_walk_append(visit_mut_step::<V>(), es, e, v0, mid, *visitor, r);
                lemma_in_order_go(
                    4,
                    fields10_mut_steps(pre, before),
                    fields10_mut_steps(pre, *self),
                    fields10_kept(pre, *self),
                    parts,
                    last,
                    es,
                    e,
                    r is Continue,
                );
                if r is Continue {
                    parts = parts.push(e);
                } else {
                    last = e;
                }
                es = es + e;
            }
        }
        match r {
            ControlFlow::Break(b) => {
                proof {
                    if Self::reports_mut_steps() {
                        lemma_in_order_stop(
                            5,
                            10,
                            fields10_mut_steps(pre, *self),
                            fields10_kept(pre, *self),
                            parts,
                            last,
                            es,
                        );
                    }
                }
                return ControlFlow::Break(b);
            },
            ControlFlow::Continue(u) => {
                assert(u == ());
            },
        }
        let ghost before = *self;
        let ghost mid = *visitor;
        let r = self.5.traverse_mut(visitor);
        proof {
            lemma_reachable_then(visit_mut_step::<V>(), v0, mid, *visitor, r);
            if Self::reports_mut_steps() {
                let e = choose|e: Seq<Event>|
                    pre.5.mut_steps(&self.5, e, r is Continue) && #[trigger] walk(
                        visit_mut_step::<V>(),
                        e,
                        mid,
                        *visitor,
                        r,
                    );
                lemma_walk_append(visit_mut_step::<V>(), es, e, v0, mid, *visitor, r);
                lemma_in_order_go(
                    5,
                    fields10_mut_steps(pre, before),
                    fields10_mut_steps(pre, *self),
                    fields10_kept(pre, *self),
                    parts,
                    last,
                    es,
                    e,
                    r is Continue,
                );
                if r is Continue {
                    parts = parts.push(e);
                } else {
                    last = e;
                }
                es = es + e;
            }
        }
        match r {
            ControlFlow::Break(b) => {
                proof {
                    if Self::reports_mut_steps() {
                        lemma_in_order_stop(
                            6,
                            10,
                            fields10_mut_steps(pre, *self),
                            fields10_kept(pre, *self),
                            parts,
                            last,
                            es,
                        );
                    }
                }
                return ControlFlow::Break(b);
            },
            ControlFlow::Continue(u) => {
                assert(u == ());
            },
        }
        let ghost before = *self;
        let ghost mid = *visitor;
        let r = self.6.traverse_mut(visitor);
        proof {
            lemma_reachable_then(visit_mut_step::<V>(), v0, mid, *visitor, r);
            if Self::reports_mut_steps() {
                let e = choose|e: Seq<Event>|
                    pre.6.mut_steps(&self.6, e, r is Continue) && #[trigger] walk(
                        visit_mut_step::<V>(),
                        e,
                        mid,
                        *visitor,
                        r,
                    );
                lemma_walk_append(visit_mut_step::<V>(), es, e, v0, mid, *visitor, r);
                lemma_in_order_go(
                    6,
                    fields10_mut_steps(pre, before),
                    fields10_mut_steps(pre, *self),
                    fields10_kept(pre, *self),
                    parts,
                    last,
                    es,
                    e,
                    r is Continue,
                );
                if r is Continue {
                    parts = parts.push(e);
                } else {
                    last = e;
                }
                es = es + e;
            }
        }
        match r {
            ControlFlow::Break(b) => {
                proof {
                    if Self::reports_mut_steps() {
                        lemma_in_order_stop(
                            7,
                            10,
                            fields10_mut_steps(pre, *self),
                            fields10_kept(pre, *self),
                            parts,
                            last,
                            es,
                        );
                    }
                }
                return ControlFlow::Break(b);
            },
            ControlFlow::Continue(u) => {
                assert(u == ());
            },
        }
        let ghost before = *self;
        let ghost mid = *visitor;
        let r = self.7.traverse_mut(visitor);
        proof {
            lemma_reachable_then(visit_mut_step::<V>(), v0, mid, *visitor, r);
            if Self::reports_mut_steps() {
                let e = choose|e: Seq<Event>|
                    pre.7.mut_steps(&self.7, e, r is Continue) && #[trigger] walk(
                        visit_mut_step::<V>(),
                        e,
                        mid,
                        *visitor,
                        r,
                    );
                lemma_walk_append(visit_mut_step::<V>(), es, e, v0, mid, *visitor, r);
                lemma_in_order_go(
                    7,
                    fields10_mut_steps(pre, before),
                    fields10_mut_steps(pre, *self),
                    fields10_kept(pre, *self),
                    parts,
                    last,
                    es,
                    e,
                    r is Continue,
                );
                if r is Continue {
                    parts = parts.push(e);
                } else {
                    last = e;
                }
                es = es + e;
            }
        }
        match r {
            ControlFlow::Break(b) => {
                proof {
                    if Self::reports_mut_steps() {
                        lemma_in_order_stop(
                            8,
                            10,
                            fields10_mut_steps(pre, *self),
                            fields10_kept(pre, *self),
                            parts,
                            last,
                            es,
                        );
                    }
                }
                return ControlFlow::Break(b);
            },
            ControlFlow::Continue(u) => {
                assert(u == ());
            },
        }
        let ghost before = *self;
        let ghost mid = *visitor;
        let r = self.8.traverse_mut(visitor);
        proof {
            lemma_reachable_then(visit_mut_step::<V>(), v0, mid, *visitor, r);
            if Self::reports_mut_steps() {
                let e = choose|e: Seq<Event>|
                    pre.8.mut_steps(&self.8, e, r is Continue) && #[trigger] walk(
                        visit_mut_step::<V>(),
                        e,
                        mid,
                        *visitor,
                        r,
                    );
                lemma_walk_append(visit_mut_step::<V>(), es, e, v0, mid, *visitor, r);
                lemma_in_order_go(
                    8,
                    fields10_mut_steps(pre, before),
                    fields10_mut_steps(pre, *self),
                    fields10_kept(pre, *self),
                    parts,
                    last,
                    es,
                    e,
                    r is Continue,
                );
                if r is Continue {
                    parts = parts.push(e);
                } else {
                    last = e;
                }
                es = es + e;
            }
        }
        match r {
            ControlFlow::Break(b) => {
                proof {
                    if Self::reports_mut_steps() {
                        lemma_in_order_stop(
                            9,
                            10,
                            fields10_mut_steps(pre, *self),
                            fields10_kept(pre, *self),
                            parts,
                            last,
                            es,
                        );
                    }
                }
                return ControlFlow::Break(b);
            },
            ControlFlow::Continue(u) => {
                assert(u == ());
            },
        }
        let ghost before = *self;
        let ghost mid = *visitor;
        let r = self.9.traverse_mut(visitor);
        proof {
            lemma_reachable_then(visit_mut_step::<V>(), v0, mid, *visitor, r);
            if Self::reports_mut_steps() {
                let e = choose|e: Seq<Event>|
                    pre.9.mut_steps(&self.9, e, r is Continue) && #[trigger] walk(
                        visit_mut_step::<V>(),
                        e,
                        mid,
                        *visitor,
                        r,
                    );
                lemma_walk_append(visit_mut_step::<V>(), es, e, v0, mid, *visitor, r);
                lemma_in_order_go(
                    9,
                    fields10_mut_steps(pre, before),
                    fields10_mut_steps(pre, *self),
                    fields10_kept(pre, *self),
                    parts,
                    last,
                    es,
                    e,
                    r is Continue,
                );
                if r is Continue {
                    parts = parts.push(e);
                } else {
                    last = e;
                }
                es = es + e;
            }
        }
        r
    }
}

impl<
    T0: Traversable,
    T1: Traversable,
    T2: Traversable,
    T3: Traversable,
    T4: Traversable,
    T5: Traversable,
    T6: Traversable,
    T7: Traversable,
    T8: Traversable,
    T9: Traversable,
    T10: Traversable,
> Traversable for (T0, T1, T2, T3, T4, T5, T6, T7, T8, T9, T10) {
    open spec fn reports_events() -> bool {
        &&& T0::reports_events()
        &&& T1::reports_events()
        &&& T2::reports_events()
        &&& T3::reports_events()
        &&& T4::reports_events()
        &&& T5::reports_events()
        &&& T6::reports_events()
        &&& T7::reports_events()
        &&& T8::reports_events()
        &&& T9::reports_events()
        &&& T10::reports_events()
    }

    /// The events of the fields, in order.
    open spec fn events(&self) -> Seq<Event> {
        concat(seq![
            self.0.events(),
            self.1.events(),
            self.2.events(),
            self.3.events(),
            self.4.events(),
            self.5.events(),
            self.6.events(),
            self.7.events(),
            self.8.events(),
            self.9.events(),
            self.10.events(),
        ])
    }

    fn traverse<V: Visitor>(&self, visitor: &mut V) -> (r: ControlFlow<V::Break>) {
        let ghost v0 = *visitor;
        let ghost parts = seq![
            self.0.events(),
            self.1.events(),
            self.2.events(),
            self.3.events(),
            self.4.events(),
            self.5.events(),
            self.6.events(),
            self.7.events(),
            self.8.events(),
            self.9.events(),
            self.10.events(),
        ];
        proof {
            lemma_reachable_refl(visit_step::<V>(), v0);
            lemma_walk_parts_start(visit_step::<V>(), parts, v0);
        }
        let ghost mid = *visitor;
        let r = self.0.traverse(visitor);
        proof {
            lemma_reachable_then(visit_step::<V>(), v0, mid, *visitor, r);
            if Self::reports_events() {
                lemma_walk_parts_next(visit_step::<V>(), parts, 0, v0, mid, *visitor, r);
            }
        }
        match r {
            ControlFlow::Break(b) => {
                return ControlFlow::Break(b);
            },
            ControlFlow::Continue(u) => {
                assert(u == ());
            },
        }
        let ghost mid = *visitor;
        let r = self.1.traverse(visitor);
        proof {
            lemma_reachable_then(visit_step::<V>(), v0, mid, *visitor, r);
            if Self::reports_events() {
                lemma_walk_parts_next(visit_step::<V>(), parts, 1, v0, mid, *visitor, r);
            }
        }
        match r {
            ControlFlow::Break(b) => {
                return ControlFlow::Break(b);
            },
            ControlFlow::Continue(u) => {
                assert(u == ());
            },
        }
        let ghost mid = *visitor;
        let r = self.2.traverse(visitor);
        proof {
            lemma_reachable_then(visit_step::<V>(), v0, mid, *visitor, r);
            if Self::reports_events() {
                lemma_walk_parts_next(visit_step::<V>(), parts, 2, v0, mid, *visitor, r);
            }
        }
        match r {
            ControlFlow::Break(b) => {
                return ControlFlow::Break(b);
            },
            ControlFlow::Continue(u) => {
                assert(u == ());
            },
        }
        let ghost mid = *visitor;
        let r = self.3.traverse(visitor);
        proof {
            lemma_reachable_then(visit_step::<V>(), v0, mid, *visitor, r);
            if Self::reports_events() {
                lemma_walk_parts_next(visit_step::<V>(), parts, 3, v0, mid, *visitor, r);
            }
        }
        match r {
            ControlFlow::Break(b) => {
                return ControlFlow::Break(b);
            },
            ControlFlow::Continue(u) => {
                assert(u == ());
            },
        }
        let ghost mid = *visitor;
        let r = self.4.traverse(visitor);
        proof {
            lemma_reachable_then(visit_step::<V>(), v0, mid, *visitor, r);
            if Self::reports_events() {
                lemma_walk_parts_next(visit_step::<V>(), parts, 4, v0, mid, *visitor, r);
            }
        }
        match r {
            ControlFlow::Break(b) => {
                return ControlFlow::Break(b);
            },
            ControlFlow::Continue(u) => {
                assert(u == ());
            },
        }
        let ghost mid = *visitor;
        let r = self.5.traverse(visitor);
        proof {
            lemma_reachable_then(visit_step::<V>(), v0, mid, *visitor, r);
            if Self::reports_events() {
                lemma_walk_parts_next(visit_step::<V>(), parts, 5, v0, mid, *visitor, r);
            }
        }
        match r {
            ControlFlow::Break(b) => {
                return ControlFlow::Break(b);
            },
            ControlFlow::Continue(u) => {
                assert(u == ());
            },
        }
        let ghost mid = *visitor;
        let r = self.6.traverse(visitor);
        proof {
            lemma_reachable_then(visit_step::<V>(), v0, mid, *visitor, r);
            if Self::reports_events() {
                lemma_walk_parts_next(visit_step::<V>(), parts, 6, v0, mid, *visitor, r);
            }
        }
        match r {
            ControlFlow::Break(b) => {
                return ControlFlow::Break(b);
            },
            ControlFlow::Continue(u) => {
                assert(u == ());
            },
        }
        let ghost mid = *visitor;
        let r = self.7.traverse(visitor);
        proof {
            lemma_reachable_then(visit_step::<V>(), v0, mid, *visitor, r);
            if Self::reports_events() {
                lemma_walk_parts_next(visit_step::<V>(), parts, 7, v0, mid, *visitor, r);
            }
        }
        match r {
            ControlFlow::Break(b) => {
                return ControlFlow::Break(b);
            },
            ControlFlow::Continue(u) => {
                assert(u == ());
            },
        }
        let ghost mid = *visitor;
        let r = self.8.traverse(visitor);
        proof {
            lemma_reachable_then(visit_step::<V>(), v0, mid, *visitor, r);
            if Self::reports_events() {
                lemma_walk_parts_next(visit_step::<V>(), parts, 8, v0, mid, *visitor, r);
            }
        }
        match r {
            ControlFlow::Break(b) => {
                return ControlFlow::Break(b);
            },
            ControlFlow::Continue(u) => {
                assert(u == ());
            },
        }
        let ghost mid = *visitor;
        let r = self.9.traverse(visitor);
        proof {
            lemma_reachable_then(visit_step::<V>(), v0, mid, *visitor, r);
            if Self::reports_events() {
                lemma_walk_parts_next(visit_step::<V>(), parts, 9, v0, mid, *visitor, r);
            }
        }
        match r {
            ControlFlow::Break(b) => {
                return ControlFlow::Break(b);
            },
            ControlFlow::Continue(u) => {
                assert(u == ());
            },
        }
        let ghost mid = *visitor;
        let r = self.10.traverse(visitor);
        proof {
            lemma_reachable_then(visit_step::<V>(), v0, mid, *visitor, r);
            if Self::reports_events() {
                lemma_walk_parts_next(visit_step::<V>(), parts, 10, v0, mid, *visitor, r);
            }
        }
        r
    }
}

/// What a mutable traversal may do to each field of a tuple of 11:
/// field `i` of `pre` may become field `i` of `post`, reporting `e`, going
/// through when `d`.
pub open spec fn fields11_mut_steps<
    T0: TraversableMut,
    T1: TraversableMut,
    T2: TraversableMut,
    T3: TraversableMut,
    T4: TraversableMut,
    T5: TraversableMut,
    T6: TraversableMut,
    T7: TraversableMut,
    T8: TraversableMut,
    T9: TraversableMut,
    T10: TraversableMut,
>(
    pre: (T0, T1, T2, T3, T4, T5, T6, T7, T8, T9, T10),
    post: (T0, T1, T2, T3, T4, T5, T6, T7, T8, T9, T10),
) -> spec_fn(int, Seq<Event>, bool) -> bool {
    |i: int, e: Seq<Event>, d: bool|
        if i == 0 {
            pre.0.mut_steps(&post.0, e, d)
        } else if i == 1 {
            pre.1.mut_steps(&post.1, e, d)
        } else if i == 2 {
            pre.2.mut_steps(&post.2, e, d)
        } else if i == 3 {
            pre.3.mut_steps(&post.3, e, d)
        } else if i == 4 {
            pre.4.mut_steps(&post.4, e, d)
        } else if i == 5 {
            pre.5.mut_steps(&post.5, e, d)
        } else if i == 6 {
            pre.6.mut_steps(&post.6, e, d)
        } else if i == 7 {
            pre.7.mut_steps(&post.7, e, d)
        } else if i == 8 {
            pre.8.mut_steps(&post.8, e, d)
        } else if i == 9 {
            pre.9.mut_steps(&post.9, e, d)
        } else {
            pre.10.mut_steps(&post.10, e, d)
        }
}

/// Whether field `j` of `post` is as in `pre`.
pub open spec fn fields11_kept<T0, T1, T2, T3, T4, T5, T6, T7, T8, T9, T10>(
    pre: (T0, T1, T2, T3, T4, T5, T6, T7, T8, T9, T10),
    post: (T0, T1, T2, T3, T4, T5, T6, T7, T8, T9, T10),
) -> spec_fn(int) -> bool {
    |j: int|
        if j == 0 {
            post.0 == pre.0
        } else if j == 1 {
            post.1 == pre.1
        } else if j == 2 {
            post.2 == pre.2
        } else if j == 3 {
            post.3 == pre.3
        } else if j == 4 {
            post.4 == pre.4
        } else if j == 5 {
            post.5 == pre.5
        } else if j == 6 {
            post.6 == pre.6
        } else if j == 7 {
            post.7 == pre.7
        } else if j == 8 {
            post.8 == pre.8
        } else if j == 9 {
            post.9 == pre.9
        } else {
            post.10 == pre.10
        }
}

impl<
    T0: TraversableMut,
    T1: TraversableMut,
    T2: TraversableMut,
    T3: TraversableMut,
    T4: TraversableMut,
    T5: TraversableMut,
    T6: TraversableMut,
    T7: TraversableMut,
    T8: TraversableMut,
    T9: TraversableMut,
    T10: TraversableMut,
> TraversableMut for (T0, T1, T2, T3, T4, T5, T6, T7, T8, T9, T10) {
    open spec fn reports_mut_steps() -> bool {
        &&& T0::reports_mut_steps()
        &&& T1::reports_mut_steps()
        &&& T2::reports_mut_steps()
        &&& T3::reports_mut_steps()
        &&& T4::reports_mut_steps()
        &&& T5::reports_mut_steps()
        &&& T6::reports_mut_steps()
        &&& T7::reports_mut_steps()
        &&& T8::reports_mut_steps()
        &&& T9::reports_mut_steps()
        &&& T10::reports_mut_steps()
    }

    /// The fields are traversed one by one, in order; after a break, the later
    /// fields are left as they were.
    open spec fn mut_steps(&self, post: &Self, es: Seq<Event>, done: bool) -> bool {
        in_order(11, fields11_mut_steps(*self, *post), fields11_kept(*self, *post), es, done)
    }

    fn traverse_mut<V: VisitorMut>(&mut self, visitor: &mut V) -> (r: ControlFlow<V::Break>) {
        let ghost v0 = *visitor;
        let ghost pre = *self;
        let ghost mut parts: Seq<Seq<Event>> = Seq::empty();
        let ghost mut last: Seq<Event> = Seq::empty();
        let ghost mut es: Seq<Event> = Seq::empty();
        proof {
            lemma_reachable_refl(visit_mut_step::<V>(), v0);
            lemma_in_order_start(fields11_mut_steps(pre, pre), fields11_kept(pre, pre));
        }
        let ghost before = *self;
        let ghost mid = *visitor;
        let r = self.0.traverse_mut(visitor);
        proof {
            lemma_reachable_then(visit_mut_step::<V>(), v0, mid, *visitor, r);
            if Self::reports_mut_steps() {
                let e = choose|e: Seq<Event>|
                    pre.0.mut_steps(&self.0, e, r is Continue) && #[trigger] walk(
                        visit_mut_step::<V>(),
                        e,
                        mid,
                        *visitor,
                        r,
                    );
                lemma_walk_append(visit_mut_step::<V>(), es, e, v0, mid, *visitor, r);
                lemma_in_order_go(
                    0,
                    fields11_mut_steps(pre, before),
                    fields11_mut_steps(pre, *self),
                    fields11_kept(pre, *self),
                    parts,
                    last,
                    es,
                    e,
                    r is Continue,
                );
                if r is Continue {
                    parts = parts.push(e);
                } else {
                    last = e;
                }
                es = es + e;
            }
        }
        match r {
            ControlFlow::Break(b) => {
                proof {
                    if Self::reports_mut_steps() {
                        lemma_in_order_stop(
                            1,
                            11,
                            fields11_mut_steps(pre, *self),
                            fields11_kept(pre, *self),
                            parts,
                            last,
                            es,
                        );
                    }
                }
                return ControlFlow::Break(b);
            },
            ControlFlow::Continue(u) => {
                assert(u == ());
            },
        }
        let ghost before = *self;
        let ghost mid = *visitor;
        let r = self.1.traverse_mut(visitor);
        proof {
            lemma_reachable_then(visit_mut_step::<V>(), v0, mid, *visitor, r);
            if Self::reports_mut_steps() {
                let e = choose|e: Seq<Event>|
                    pre.1.mut_steps(&self.1, e, r is Continue) && #[trigger] walk(
                        visit_mut_step::<V>(),
                        e,
                        mid,
                        *visitor,
                        r,
                    );
                lemma_walk_append(visit_mut_step::<V>(), es, e, v0, mid, *visitor, r);
                lemma_in_order_go(
                    1,
                    fields11_mut_steps(pre, before),
                    fields11_mut_steps(pre, *self),
                    fields11_kept(pre, *self),
                    parts,
                    last,
                    es,
                    e,
                    r is Continue,
                );
                if r is Continue {
                    parts = parts.push(e);
                } else {
                    last = e;
                }
                es = es + e;
            }
        }
        match r {
            ControlFlow::Break(b) => {
                proof {
                    if Self::reports_mut_steps() {
                        lemma_in_order_stop(
                            2,
                            11,
                            fields11_mut_steps(pre, *self),
                            fields11_kept(pre, *self),
                            parts,
                            last,
                            es,
                        );
                    }
                }
                return ControlFlow::Break(b);
            },
            ControlFlow::Continue(u) => {
                assert(u == ());
            },
        }
        let ghost before = *self;
        let ghost mid = *visitor;
        let r = self.2.traverse_mut(visitor);
        proof {
            lemma_reachable_then(visit_mut_step::<V>(), v0, mid, *visitor, r);
            if Self::reports_mut_steps() {
                let e = choose|e: Seq<Event>|
                    pre.2.mut_steps(&self.2, e, r is Continue) && #[trigger] walk(
                        visit_mut_step::<V>(),
                        e,
                        mid,
                        *visitor,
                        r,
                    );
                lemma_walk_append(visit_mut_step::<V>(), es, e, v0, mid, *visitor, r);
                lemma_in_order_go(
                    2,
                    fields11_mut_steps(pre, before),
                    fields11_mut_steps(pre, *self),
                    fields11_kept(pre, *self),
                    parts,
                    last,
                    es,
                    e,
                    r is Continue,
                );
                if r is Continue {
                    parts = parts.push(e);
                } else {
                    last = e;
                }
                es = es + e;
            }
        }
        match r {
            ControlFlow::Break(b) => {
                proof {
                    if Self::reports_mut_steps() {
                        lemma_in_order_stop(
                            3,
                            11,
                            fields11_mut_steps(pre, *self),
                            fields11_kept(pre, *self),
                            parts,
                            last,
                            es,
                        );
                    }
                }
                return ControlFlow::Break(b);
            },
            ControlFlow::Continue(u) => {
                assert(u == ());
            },
        }
        let ghost before = *self;
        let ghost mid = *visitor;
        let r = self.3.traverse_mut(visitor);
        proof {
            lemma_reachable_then(visit_mut_step::<V>(), v0, mid, *visitor, r);
            if Self::reports_mut_steps() {
                let e = choose|e: Seq<Event>|
                    pre.3.mut_steps(&self.3, e, r is Continue) && #[trigger] walk(
                        visit_mut_step::<V>(),
                        e,
                        mid,
                        *visitor,
                        r,
                    );
                lemma_walk_append(visit_mut_step::<V>(), es, e, v0, mid, *visitor, r);
                lemma_in_order_go(
                    3,
                    fields11_mut_steps(pre, before),
                    fields11_mut_steps(pre, *self),
                    fields11_kept(pre, *self),
                    parts,
                    last,
                    es,
                    e,
                    r is Continue,
                );
                if r is Continue {
                    parts = parts.push(e);
                } else {
                    last = e;
                }
                es = es + e;
            }
        }
        match r {
            ControlFlow::Break(b) => {
                proof {
                    if Self::reports_mut_steps() {
                        lemma_in_order_stop(
                            4,
                            11,
                            fields11_mut_steps(pre, *self),
                            fields11_kept(pre, *self),
                            parts,
                            last,
                            es,
                        );
                    }
                }
                return ControlFlow::Break(b);
            },
            ControlFlow::Continue(u) => {
                assert(u == ());
            },
        }
        let ghost before = *self;
        let ghost mid = *visitor;
        let r = self.4.traverse_mut(visitor);
        proof {
            lemma_reachable_then(visit_mut_step::<V>(), v0, mid, *visitor, r);
            if Self::reports_mut_steps() {
                let e = choose|e: Seq<Event>|
                    pre.4.mut_steps(&self.4, e, r is Continue) && #[trigger] walk(
                        visit_mut_step::<V>(),
                        e,
                        mid,
                        *visitor,
                        r,
                    );
                lemma_walk_append(visit_mut_step::<V>(), es, e, v0, mid, *visitor, r);
                lemma_in_order_go(
                    4,
                    fields11_mut_steps(pre, before),
                    fields11_mut_steps(pre, *self),
                    fields11_kept(pre, *self),
                    parts,
                    last,
                    es,
                    e,
                    r is Continue,
                );
                if r is Continue {
                    parts = parts.push(e);
                } else {
                    last = e;
                }
                es = es + e;
            }
        }
        match r {
            ControlFlow::Break(b) => {
                proof {
                    if Self::reports_mut_steps() {
                        lemma_in_order_stop(
                            5,
                            11,
                            fields11_mut_steps(pre, *self),
                            fields11_kept(pre, *self),
                            parts,
                            last,
                            es,
                        );
                    }
                }
                return ControlFlow::Break(b);
            },
            ControlFlow::Continue(u) => {
                assert(u == ());
            },
        }
        let ghost before = *self;
        let ghost mid = *visitor;
        let r = self.5.traverse_mut(visitor);
        proof {
            lemma_reachable_then(visit_mut_step::<V>(), v0, mid, *visitor, r);
            if Self::reports_mut_steps() {
                let e = choose|e: Seq<Event>|
                    pre.5.mut_steps(&self.5, e, r is Continue) && #[trigger] walk(
                        visit_mut_step::<V>(),
                        e,
                        mid,
                        *visitor,
                        r,
                    );
                lemma_walk_append(visit_mut_step::<V>(), es, e, v0, mid, *visitor, r);
                lemma_in_order_go(
                    5,
                    fields11_mut_steps(pre, before),
                    fields11_mut_steps(pre, *self),
                    fields11_kept(pre, *self),
                    parts,
                    last,
                    es,
                    e,
                    r is Continue,
                );
                if r is Continue {
                    parts = parts.push(e);
                } else {
                    last = e;
                }
                es = es + e;
            }
        }
        match r {
            ControlFlow::Break(b) => {
                proof {
                    if Self::reports_mut_steps() {
                        lemma_in_order_stop(
                            6,
                            11,
                            fields11_mut_steps(pre, *self),
                            fields11_kept(pre, *self),
                            parts,
                            last,
                            es,
                        );
                    }
                }
                return ControlFlow::Break(b);
            },
            ControlFlow::Continue(u) => {
                assert(u == ());
            },
        }
        let ghost before = *self;
        let ghost mid = *visitor;
        let r = self.6.traverse_mut(visitor);
        proof {
            lemma_reachable_then(visit_mut_step::<V>(), v0, mid, *visitor, r);
            if Self::reports_mut_steps() {
                let e = choose|e: Seq<Event>|
                    pre.6.mut_steps(&self.6, e, r is Continue) && #[trigger] walk(
                        visit_mut_step::<V>(),
                        e,
                        mid,
                        *visitor,
                        r,
                    );
                lemma_walk_append(visit_mut_step::<V>(), es, e, v0, mid, *visitor, r);
                lemma_in_order_go(
                    6,
                    fields11_mut_steps(pre, before),
                    fields11_mut_steps(pre, *self),
                    fields11_kept(pre, *self),
                    parts,
                    last,
                    es,
                    e,
                    r is Continue,
                );
                if r is Continue {
                    parts = parts.push(e);
                } else {
                    last = e;
                }
                es = es + e;
            }
        }
        match r {
            ControlFlow::Break(b) => {
                proof {
                    if Self::reports_mut_steps() {
                        lemma_in_order_stop(
                            7,
                            11,
                            fields11_mut_steps(pre, *self),
                            fields11_kept(pre, *self),
                            parts,
                            last,
                            es,
                        );
                    }
                }
                return ControlFlow::Break(b);
            },
            ControlFlow::Continue(u) => {
                assert(u == ());
            },
        }
        let ghost before = *self;
        let ghost mid = *visitor;
        let r = self.7.traverse_mut(visitor);
        proof {
            lemma_reachable_then(visit_mut_step::<V>(), v0, mid, *visitor, r);
            if Self::reports_mut_steps() {
                let e = choose|e: Seq<Event>|
                    pre.7.mut_steps(&self.7, e, r is Continue) && #[trigger] walk(
                        visit_mut_step::<V>(),
                        e,
                        mid,
                        *visitor,
                        r,
                    );
                lemma_walk_append(visit_mut_step::<V>(), es, e, v0, mid, *visitor, r);
                lemma_in_order_go(
                    7,
                    fields11_mut_steps(pre, before),
                    fields11_mut_steps(pre, *self),
                    fields11_kept(pre, *self),
                    parts,
                    last,
                    es,
                    e,
                    r is Continue,
                );
                if r is Continue {
                    parts = parts.push(e);
                } else {
                    last = e;
                }
                es = es + e;
            }
        }
        match r {
            ControlFlow::Break(b) => {
                proof {
                    if Self::reports_mut_steps() {
                        lemma_in_order_stop(
                            8,
                            11,
                            fields11_mut_steps(pre, *self),
                            fields11_kept(pre, *self),
                            parts,
                            last,
                            es,
                        );
                    }
                }
                return ControlFlow::Break(b);
            },
            ControlFlow::Continue(u) => {
                assert(u == ());
            },
        }
        let ghost before = *self;
        let ghost mid = *visitor;
        let r = self.8.traverse_mut(visitor);
        proof {
            lemma_reachable_then(visit_mut_step::<V>(), v0, mid, *visitor, r);
            if Self::reports_mut_steps() {
                let e = choose|e: Seq<Event>|
                    pre.8.mut_steps(&self.8, e, r is Continue) && #[trigger] walk(
                        visit_mut_step::<V>(),
                        e,
                        mid,
                        *visitor,
                        r,
                    );
                lemma_walk_append(visit_mut_step::<V>(), es, e, v0, mid, *visitor, r);
                lemma_in_order_go(
                    8,
                    fields11_mut_steps(pre, before),
                    fields11_mut_steps(pre, *self),
                    fields11_kept(pre, *self),
                    parts,
                    last,
                    es,
                    e,
                    r is Continue,
                );
                if r is Continue {
                    parts = parts.push(e);
                } else {
                    last = e;
                }
                es = es + e;
            }
        }
        match r {
            ControlFlow::Break(b) => {
                proof {
                    if Self::reports_mut_steps() {
                        lemma_in_order_stop(
                            9,
                            11,
                            fields11_mut_steps(pre, *self),
                            fields11_kept(pre, *self),
                            parts,
                            last,
                            es,
                        );
                    }
                }
                return ControlFlow::Break(b);
            },
            ControlFlow::Continue(u) => {
                assert(u == ());
            },
        }
        let ghost before = *self;
        let ghost mid = *visitor;
        let r = self.9.traverse_mut(visitor);
        proof {
            lemma_reachable_then(visit_mut_step::<V>(), v0, mid, *visitor, r);
            if Self::reports_mut_steps() {
                let e = choose|e: Seq<Event>|
                    pre.9.mut_steps(&self.9, e, r is Continue) && #[trigger] walk(
                        visit_mut_step::<V>(),
                        e,
                        mid,
                        *visitor,
                        r,
                    );
                lemma_walk_append(visit_mut_step::<V>(), es, e, v0, mid, *visitor, r);
                lemma_in_order_go(
                    9,
                    fields11_mut_steps(pre, before),
                    fields11_mut_steps(pre, *self),
                    fields11_kept(pre, *self),
                    parts,
                    last,
                    es,
                    e,
                    r is Continue,
                );
                if r is Continue {
                    parts = parts.push(e);
                } else {
                    last = e;
                }
                es = es + e;
            }
        }
        match r {
            ControlFlow::Break(b) => {
                proof {
                    if Self::reports_mut_steps() {
                        lemma_in_order_stop(
                            10,
                            11,
                            fields11_mut_steps(pre, *self),
                            fields11_kept(pre, *self),
                            parts,
                            last,
                            es,
                        );
                    }
                }
                return ControlFlow::Break(b);
            },
            ControlFlow::Continue(u) => {
                assert(u == ());
            },
        }
        let ghost before = *self;
        let ghost mid = *visitor;
        let r = self.10.traverse_mut(visitor);
        proof {
            lemma_reachable_then(visit_mut_step::<V>(), v0, mid, *visitor, r);
            if Self::reports_mut_steps() {
                let e = choose|e: Seq<Event>|
                    pre.10.mut_steps(&self.10, e, r is Continue) && #[trigger] walk(
                        visit_mut_step::<V>(),
                        e,
                        mid,
                        *visitor,
                        r,
                    );
                lemma_walk_append(visit_mut_step::<V>(), es, e, v0, mid, *visitor, r);
                lemma_in_order_go(
                    10,
                    fields11_mut_steps(pre, before),
                    fields11_mut_steps(pre, *self),
                    fields11_kept(pre, *self),
                    parts,
                    last,
                    es,
                    e,
                    r is Continue,
                );
                if r is Continue {
                    parts = parts.push(e);
                } else {
                    last = e;
                }
                es = es + e;
            }
        }
        r
    }
}

impl<
    T0: Traversable,
    T1: Traversable,
    T2: Traversable,
    T3: Traversable,
    T4: Traversable,
    T5: Traversable,
    T6: Traversable,
    T7: Traversable,
    T8: Traversable,
    T9: Traversable,
    T10: Traversable,
    T11: Traversable,
> Traversable for (T0, T1, T2, T3, T4, T5, T6, T7, T8, T9, T10, T11) {
    open spec fn reports_events() -> bool {
        &&& T0::reports_events()
        &&& T1::reports_events()
        &&& T2::reports_events()
        &&& T3::reports_events()
        &&& T4::reports_events()
        &&& T5::reports_events()
        &&& T6::reports_events()
        &&& T7::reports_events()
        &&& T8::reports_events()
        &&& T9::reports_events()
        &&& T10::reports_events()
        &&& T11::reports_events()
    }

    /// The events of the fields, in order.
    open spec fn events(&self) -> Seq<Event> {
        concat(seq![
            self.0.events(),
            self.1.events(),
            self.2.events(),
            self.3.events(),
            self.4.events(),
            self.5.events(),
            self.6.events(),
            self.7.events(),
            self.8.events(),
            self.9.events(),
            self.10.events(),
            self.11.events(),
        ])
    }

    fn traverse<V: Visitor>(&self, visitor: &mut V) -> (r: ControlFlow<V::Break>) {
        let ghost v0 = *visitor;
        let ghost parts = seq![
            self.0.events(),
            self.1.events(),
            self.2.events(),
            self.3.events(),
            self.4.events(),
            self.5.events(),
            self.6.events(),
            self.7.events(),
            self.8.events(),
            self.9.events(),
            self.10.events(),
            self.11.events(),
        ];
        proof {
            lemma_reachable_refl(visit_step::<V>(), v0);
            lemma_walk_parts_start(visit_step::<V>(), parts, v0);
        }
        let ghost mid = *visitor;
        let r = self.0.traverse(visitor);
        proof {
            lemma_reachable_then(visit_step::<V>(), v0, mid, *visitor, r);
            if Self::reports_events() {
                lemma_walk_parts_next(visit_step::<V>(), parts, 0, v0, mid, *visitor, r);
            }
        }
        match r {
            ControlFlow::Break(b) => {
                return ControlFlow::Break(b);
            },
            ControlFlow::Continue(u) => {
                assert(u == ());
            },
        }
        let ghost mid = *visitor;
        let r = self.1.traverse(visitor);
        proof {
            lemma_reachable_then(visit_step::<V>(), v0, mid, *visitor, r);
            if Self::reports_events() {
                lemma_walk_parts_next(visit_step::<V>(), parts, 1, v0, mid, *visitor, r);
            }
        }
        match r {
            ControlFlow::Break(b) => {
                return ControlFlow::Break(b);
            },
            ControlFlow::Continue(u) => {
                assert(u == ());
            },
        }
        let ghost mid = *visitor;
        let r = self.2.traverse(visitor);
        proof {
            lemma_reachable_then(visit_step::<V>(), v0, mid, *visitor, r);
            if Self::reports_events() {
                lemma_walk_parts_next(visit_step::<V>(), parts, 2, v0, mid, *visitor, r);
            }
        }
        match r {
            ControlFlow::Break(b) => {
                return ControlFlow::Break(b);
            },
            ControlFlow::Continue(u) => {
                assert(u == ());
            },
        }
        let ghost mid = *visitor;
        let r = self.3.traverse(visitor);
        proof {
            lemma_reachable_then(visit_step::<V>(), v0, mid, *visitor, r);
            if Self::reports_events() {
                lemma_walk_parts_next(visit_step::<V>(), parts, 3, v0, mid, *visitor, r);
            }
        }
        match r {
            ControlFlow::Break(b) => {
                return ControlFlow::Break(b);
            },
            ControlFlow::Continue(u) => {
                assert(u == ());
            },
        }
        let ghost mid = *visitor;
        let r = self.4.traverse(visitor);
        proof {
            lemma_reachable_then(visit_step::<V>(), v0, mid, *visitor, r);
            if Self::reports_events() {
                lemma_walk_parts_next(visit_step::<V>(), parts, 4, v0, mid, *visitor, r);
            }
        }
        match r {
            ControlFlow::Break(b) => {
                return ControlFlow::Break(b);
            },
            ControlFlow::Continue(u) => {
                assert(u == ());
            },
        }
        let ghost mid = *visitor;
        let r = self.5.traverse(visitor);
        proof {
            lemma_reachable_then(visit_step::<V>(), v0, mid, *visitor, r);
            if Self::reports_events() {
                lemma_walk_parts_next(visit_step::<V>(), parts, 5, v0, mid, *visitor, r);
            }
        }
        match r {
            ControlFlow::Break(b) => {
                return ControlFlow::Break(b);
            },
            ControlFlow::Continue(u) => {
                assert(u == ());
            },
        }
        let ghost mid = *visitor;
        let r = self.6.traverse(visitor);
        proof {
            lemma_reachable_then(visit_step::<V>(), v0, mid, *visitor, r);
            if Self::reports_events() {
                lemma_walk_parts_next(visit_step::<V>(), parts, 6, v0, mid, *visitor, r);
            }
        }
        match r {
            ControlFlow::Break(b) => {
                return ControlFlow::Break(b);
            },
            ControlFlow::Continue(u) => {
                assert(u == ());
            },
        }
        let ghost mid = *visitor;
        let r = self.7.traverse(visitor);
        proof {
            lemma_reachable_then(visit_step::<V>(), v0, mid, *visitor, r);
            if Self::reports_events() {
                lemma_walk_parts_next(visit_step::<V>(), parts, 7, v0, mid, *visitor, r);
            }
        }
        match r {
            ControlFlow::Break(b) => {
                return ControlFlow::Break(b);
            },
            ControlFlow::Continue(u) => {
                assert(u == ());
            },
        }
        let ghost mid = *visitor;
        let r = self.8.traverse(visitor);
        proof {
            lemma_reachable_then(visit_step::<V>(), v0, mid, *visitor, r);
            if Self::reports_events() {
                lemma_walk_parts_next(visit_step::<V>(), parts, 8, v0, mid, *visitor, r);
            }
        }
        match r {
            ControlFlow::Break(b) => {
                return ControlFlow::Break(b);
            },
            ControlFlow::Continue(u) => {
                assert(u == ());
            },
        }
        let ghost mid = *visitor;
        let r = self.9.traverse(visitor);
        proof {
            lemma_reachable_then(visit_step::<V>(), v0, mid, *visitor, r);
            if Self::reports_events() {
                lemma_walk_parts_next(visit_step::<V>(), parts, 9, v0, mid, *visitor, r);
            }
        }
        match r {
            ControlFlow::Break(b) => {
                return ControlFlow::Break(b);
            },
            ControlFlow::Continue(u) => {
                assert(u == ());
            },
        }
        let ghost mid = *visitor;
        let r = self.10.traverse(visitor);
        proof {
            lemma_reachable_then(visit_step::<V>(), v0, mid, *visitor, r);
            if Self::reports_events() {
                lemma_walk_parts_next(visit_step::<V>(), parts, 10, v0, mid, *visitor, r);
            }
        }
        match r {
            ControlFlow::Break(b) => {
                return ControlFlow::Break(b);
            },
            ControlFlow::Continue(u) => {
                assert(u == ());
            },
        }
        let ghost mid = *visitor;
        let r = self.11.traverse(visitor);
        proof {
            lemma_reachable_then(visit_step::<V>(), v0, mid, *visitor, r);
            if Self::reports_events() {
                lemma_walk_parts_next(visit_step::<V>(), parts, 11, v0, mid, *visitor, r);
            }
        }
        r
    }
}

/// What a mutable traversal may do to each field of a tuple of 12:
/// field `i` of `pre` may become field `i` of `post`, reporting `e`, going
/// through when `d`.
pub open spec fn fields12_mut_steps<
    T0: TraversableMut,
    T1: TraversableMut,
    T2: TraversableMut,
    T3: TraversableMut,
    T4: TraversableMut,
    T5: TraversableMut,
    T6: TraversableMut,
    T7: TraversableMut,
    T8: TraversableMut,
    T9: TraversableMut,
    T10: TraversableMut,
    T11: TraversableMut,
>(
    pre: (T0, T1, T2, T3, T4, T5, T6, T7, T8, T9, T10, T11),
    post: (T0, T1, T2, T3, T4, T5, T6, T7, T8, T9, T10, T11),
) -> spec_fn(int, Seq<Event>, bool) -> bool {
    |i: int, e: Seq<Event>, d: bool|
        if i == 0 {
            pre.0.mut_steps(&post.0, e, d)
        } else if i == 1 {
            pre.1.mut_steps(&post.1, e, d)
        } else if i == 2 {
            pre.2.mut_steps(&post.2, e, d)
        } else if i == 3 {
            pre.3.mut_steps(&post.3, e, d)
        } else if i == 4 {
            pre.4.mut_steps(&post.4, e, d)
        } else if i == 5 {
            pre.5.mut_steps(&post.5, e, d)
        } else if i == 6 {
            pre.6.mut_steps(&post.6, e, d)
        } else if i == 7 {
            pre.7.mut_steps(&post.7, e, d)
        } else if i == 8 {
            pre.8.mut_steps(&post.8, e, d)
        } else if i == 9 {
            pre.9.mut_steps(&post.9, e, d)
        } else if i == 10 {
            pre.10.mut_steps(&post.10, e, d)
        } else {
            pre.11.mut_steps(&post.11, e, d)
        }
}

/// Whether field `j` of `post` is as in `pre`.
pub open spec fn fields12_kept<T0, T1, T2, T3, T4, T5, T6, T7, T8, T9, T10, T11>(
    pre: (T0, T1, T2, T3, T4, T5, T6, T7, T8, T9, T10, T11),
    post: (T0, T1, T2, T3, T4, T5, T6, T7, T8, T9, T10, T11),
) -> spec_fn(int) -> bool {
    |j: int|
        if j == 0 {
            post.0 == pre.0
        } else if j == 1 {
            post.1 == pre.1
        } else if j == 2 {
            post.2 == pre.2
        } else if j == 3 {
            post.3 == pre.3
        } else if j == 4 {
            post.4 == pre.4
        } else if j == 5 {
            post.5 == pre.5
        } else if j == 6 {
            post.6 == pre.6
        } else if j == 7 {
            post.7 == pre.7
        } else if j == 8 {
            post.8 == pre.8
        } else if j == 9 {
            post.9 == pre.9
        } else if j == 10 {
            post.10 == pre.10
        } else {
            post.11 == pre.11
        }
}

impl<
    T0: TraversableMut,
    T1: TraversableMut,
    T2: TraversableMut,
    T3: TraversableMut,
    T4: TraversableMut,
    T5: TraversableMut,
    T6: TraversableMut,
    T7: TraversableMut,
    T8: TraversableMut,
    T9: TraversableMut,
    T10: TraversableMut,
    T11: TraversableMut,
> TraversableMut for (T0, T1, T2, T3, T4, T5, T6, T7, T8, T9, T10, T11) {
    open spec fn reports_mut_steps() -> bool {
        &&& T0::reports_mut_steps()
        &&& T1::reports_mut_steps()
        &&& T2::reports_mut_steps()
        &&& T3::reports_mut_steps()
        &&& T4::reports_mut_steps()
        &&& T5::reports_mut_steps()
        &&& T6::reports_mut_steps()
        &&& T7::reports_mut_steps()
        &&& T8::reports_mut_steps()
        &&& T9::reports_mut_steps()
        &&& T10::reports_mut_steps()
        &&& T11::reports_mut_steps()
    }

    /// The fields are traversed one by one, in order; after a break, the later
    /// fields are left as they were.
    open spec fn mut_steps(&self, post: &Self, es: Seq<Event>, done: bool) -> bool {
        in_order(12, fields12_mut_steps(*self, *post), fields12_kept(*self, *post), es, done)
    }

    fn traverse_mut<V: VisitorMut>(&mut self, visitor: &mut V) -> (r: ControlFlow<V::Break>) {
        let ghost v0 = *visitor;
        let ghost pre = *self;
        let ghost mut parts: Seq<Seq<Event>> = Seq::empty();
        let ghost mut last: Seq<Event> = Seq::empty();
        let ghost mut es: Seq<Event> = Seq::empty();
        proof {
            lemma_reachable_refl(visit_mut_step::<V>(), v0);
            lemma_in_order_start(fields12_mut_steps(pre, pre), fields12_kept(pre, pre));
        }
        let ghost before = *self;
        let ghost mid = *visitor;
        let r = self.0.traverse_mut(visitor);
        proof {
            lemma_reachable_then(visit_mut_step::<V>(), v0, mid, *visitor, r);
            if Self::reports_mut_steps() {
                let e = choose|e: Seq<Event>|
                    pre.0.mut_steps(&self.0, e, r is Continue) && #[trigger] walk(
                        visit_mut_step::<V>(),
                        e,
                        mid,
                        *visitor,
                        r,
                    );
                lemma_walk_append(visit_mut_step::<V>(), es, e, v0, mid, *visitor, r);
                lemma_in_order_go(
                    0,
                    fields12_mut_steps(pre, before),
                    fields12_mut_steps(pre, *self),
                    fields12_kept(pre, *self),
                    parts,
                    last,
                    es,
                    e,
                    r is Continue,
                );
                if r is Continue {
                    parts = parts.push(e);
                } else {
                    last = e;
                }
                es = es + e;
            }
        }
        match r {
            ControlFlow::Break(b) => {
                proof {
                    if Self::reports_mut_steps() {
                        lemma_in_order_stop(
                            1,
                            12,
                            fields12_mut_steps(pre, *self),
                            fields12_kept(pre, *self),
                            parts,
                            last,
                            es,
                        );
                    }
                }
                return ControlFlow::Break(b);
            },
            ControlFlow::Continue(u) => {
                assert(u == ());
            },
        }
        let ghost before = *self;
        let ghost mid = *visitor;
        let r = self.1.traverse_mut(visitor);
        proof {
            lemma_reachable_then(visit_mut_step::<V>(), v0, mid, *visitor, r);
            if Self::reports_mut_steps() {
                let e = choose|e: Seq<Event>|
                    pre.1.mut_steps(&self.1, e, r is Continue) && #[trigger] walk(
                        visit_mut_step::<V>(),
                        e,
                        mid,
                        *visitor,
                        r,
                    );
                lemma_walk_append(visit_mut_step::<V>(), es, e, v0, mid, *visitor, r);
                lemma_in_order_go(
                    1,
                    fields12_mut_steps(pre, before),
                    fields12_mut_steps(pre, *self),
                    fields12_kept(pre, *self),
                    parts,
                    last,
                    es,
                    e,
                    r is Continue,
                );
                if r is Continue {
                    parts = parts.push(e);
                } else {
                    last = e;
                }
                es = es + e;
            }
        }
        match r {
            ControlFlow::Break(b) => {
                proof {
                    if Self::reports_mut_steps() {
                        lemma_in_order_stop(
                            2,
                            12,
                            fields12_mut_steps(pre, *self),
                            fields12_kept(pre, *self),
                            parts,
                            last,
                            es,
                        );
                    }
                }
                return ControlFlow::Break(b);
            },
            ControlFlow::Continue(u) => {
                assert(u == ());
            },
        }
        let ghost before = *self;
        let ghost mid = *visitor;
        let r = self.2.traverse_mut(visitor);
        proof {
            lemma_reachable_then(visit_mut_step::<V>(), v0, mid, *visitor, r);
            if Self::reports_mut_steps() {
                let e = choose|e: Seq<Event>|
                    pre.2.mut_steps(&self.2, e, r is Continue) && #[trigger] walk(
                        visit_mut_step::<V>(),
                        e,
                        mid,
                        *visitor,
                        r,
                    );
                lemma_walk_append(visit_mut_step::<V>(), es, e, v0, mid, *visitor, r);
                lemma_in_order_go(
                    2,
                    fields12_mut_steps(pre, before),
                    fields12_mut_steps(pre, *self),
                    fields12_kept(pre, *self),
                    parts,
                    last,
                    es,
                    e,
                    r is Continue,
                );
                if r is Continue {
                    parts = parts.push(e);
                } else {
                    last = e;
                }
                es = es + e;
            }
        }
        match r {
            ControlFlow::Break(b) => {
                proof {
                    if Self::reports_mut_steps() {
                        lemma_in_order_stop(
                            3,
                            12,
                            fields12_mut_steps(pre, *self),
                            fields12_kept(pre, *self),
                            parts,
                            last,
                            es,
                        );
                    }
                }
                return ControlFlow::Break(b);
            },
            ControlFlow::Continue(u) => {
                assert(u == ());
            },
        }
        let ghost before = *self;
        let ghost mid = *visitor;
        let r = self.3.traverse_mut(visitor);
        proof {
            lemma_reachable_then(visit_mut_step::<V>(), v0, mid, *visitor, r);
            if Self::reports_mut_steps() {
                let e = choose|e: Seq<Event>|
                    pre.3.mut_steps(&self.3, e, r is Continue) && #[trigger] walk(
                        visit_mut_step::<V>(),
                        e,
                        mid,
                        *visitor,
                        r,
                    );
                lemma_walk_append(visit_mut_step::<V>(), es, e, v0, mid, *visitor, r);
                lemma_in_order_go(
                    3,
                    fields12_mut_steps(pre, before),
                    fields12_mut_steps(pre, *self),
                    fields12_kept(pre, *self),
                    parts,
                    last,
                    es,
                    e,
                    r is Continue,
                );
                if r is Continue {
                    parts = parts.push(e);
                } else {
                    last = e;
                }
                es = es + e;
            }
        }
        match r {
            ControlFlow::Break(b) => {
                proof {
                    if Self::reports_mut_steps() {
                        lemma_in_order_stop(
                            4,
                            12,
                            fields12_mut_steps(pre, *self),
                            fields12_kept(pre, *self),
                            parts,
                            last,
                            es,
                        );
                    }
                }
                return ControlFlow::Break(b);
            },
            ControlFlow::Continue(u) => {
                assert(u == ());
            },
        }
        let ghost before = *self;
        let ghost mid = *visitor;
        let r = self.4.traverse_mut(visitor);
        proof {
            lemma_reachable_then(visit_mut_step::<V>(), v0, mid, *visitor, r);
            if Self::reports_mut_steps() {
                let e = choose|e: Seq<Event>|
                    pre.4.mut_steps(&self.4, e, r is Continue) && #[trigger] walk(
                        visit_mut_step::<V>(),
                        e,
                        mid,
                        *visitor,
                        r,
                    );
                lemma_walk_append(visit_mut_step::<V>(), es, e, v0, mid, *visitor, r);
                lemma_in_order_go(
                    4,
                    fields12_mut_steps(pre, before),
                    fields12_mut_steps(pre, *self),
                    fields12_kept(pre, *self),
                    parts,
                    last,
                    es,
                    e,
                    r is Continue,
                );
                if r is Continue {
                    parts = parts.push(e);
                } else {
                    last = e;
                }
                es = es + e;
            }
        }
        match r {
            ControlFlow::Break(b) => {
                proof {
                    if Self::reports_mut_steps() {
                        lemma_in_order_stop(
                            5,
                            12,
                            fields12_mut_steps(pre, *self),
                            fields12_kept(pre, *self),
                            parts,
                            last,
                            es,
                        );
                    }
                }
                return ControlFlow::Break(b);
            },
            ControlFlow::Continue(u) => {
                assert(u == ());
            },
        }
        let ghost before = *self;
        let ghost mid = *visitor;
        let r = self.5.traverse_mut(visitor);
        proof {
            lemma_reachable_then(visit_mut_step::<V>(), v0, mid, *visitor, r);
            if Self::reports_mut_steps() {
                let e = choose|e: Seq<Event>|
                    pre.5.mut_steps(&self.5, e, r is Continue) && #[trigger] walk(
                        visit_mut_step::<V>(),
                        e,
                        mid,
                        *visitor,
                        r,
                    );
                lemma_walk_append(visit_mut_step::<V>(), es, e, v0, mid, *visitor, r);
                lemma_in_order_go(
                    5,
                    fields12_mut_steps(pre, before),
                    fields12_mut_steps(pre, *self),
                    fields12_kept(pre, *self),
                    parts,
                    last,
                    es,
                    e,
                    r is Continue,
                );
                if r is Continue {
                    parts = parts.push(e);
                } else {
                    last = e;
                }
                es = es + e;
            }
        }
        match r {
            ControlFlow::Break(b) => {
                proof {
                    if Self::reports_mut_steps() {
                        lemma_in_order_stop(
                            6,
                            12,
                            fields12_mut_steps(pre, *self),
                            fields12_kept(pre, *self),
                            parts,
                            last,
                            es,
                        );
                    }
                }
                return ControlFlow::Break(b);
            },
            ControlFlow::Continue(u) => {
                assert(u == ());
            },
        }
        let ghost before = *self;
        let ghost mid = *visitor;
        let r = self.6.traverse_mut(visitor);
        proof {
            lemma_reachable_then(visit_mut_step::<V>(), v0, mid, *visitor, r);
            if Self::reports_mut_steps() {
                let e = choose|e: Seq<Event>|
                    pre.6.mut_steps(&self.6, e, r is Continue) && #[trigger] walk(
                        visit_mut_step::<V>(),
                        e,
                        mid,
                        *visitor,
                        r,
                    );
                lemma_walk_append(visit_mut_step::<V>(), es, e, v0, mid, *visitor, r);
                lemma_in_order_go(
                    6,
                    fields12_mut_steps(pre, before),
                    fields12_mut_steps(pre, *self),
                    fields12_kept(pre, *self),
                    parts,
                    last,
                    es,
                    e,
                    r is Continue,
                );
                if r is Continue {
                    parts = parts.push(e);
                } else {
                    last = e;
                }
                es = es + e;
            }
        }
        match r {
            ControlFlow::Break(b) => {
                proof {
                    if Self::reports_mut_steps() {
                        lemma_in_order_stop(
                            7,
                            12,
                            fields12_mut_steps(pre, *self),
                            fields12_kept(pre, *self),
                            parts,
                            last,
                            es,
                        );
                    }
                }
                return ControlFlow::Break(b);
            },
            ControlFlow::Continue(u) => {
                assert(u == ());
            },
        }
        let ghost before = *self;
        let ghost mid = *visitor;
        let r = self.7.traverse_mut(visitor);
        proof {
            lemma_reachable_then(visit_mut_step::<V>(), v0, mid, *visitor, r);
            if Self::reports_mut_steps() {
                let e = choose|e: Seq<Event>|
                    pre.7.mut_steps(&self.7, e, r is Continue) && #[trigger] walk(
                        visit_mut_step::<V>(),
                        e,
                        mid,
                        *visitor,
                        r,
                    );
                lemma_walk_append(visit_mut_step::<V>(), es, e, v0, mid, *visitor, r);
                lemma_in_order_go(
                    7,
                    fields12_mut_steps(pre, before),
                    fields12_mut_steps(pre, *self),
                    fields12_kept(pre, *self),
                    parts,
                    last,
                    es,
                    e,
                    r is Continue,
                );
                if r is Continue {
                    parts = parts.push(e);
                } else {
                    last = e;
                }
                es = es + e;
            }
        }
        match r {
            ControlFlow::Break(b) => {
                proof {
                    if Self::reports_mut_steps() {
                        lemma_in_order_stop(
                            8,
                            12,
                            fields12_mut_steps(pre, *self),
                            fields12_kept(pre, *self),
                            parts,
                            last,
                            es,
                        );
                    }
                }
                return ControlFlow::Break(b);
            },
            ControlFlow::Continue(u) => {
                assert(u == ());
            },
        }
        let ghost before = *self;
        let ghost mid = *visitor;
        let r = self.8.traverse_mut(visitor);
        proof {
            lemma_reachable_then(visit_mut_step::<V>(), v0, mid, *visitor, r);
            if Self::reports_mut_steps() {
                let e = choose|e: Seq<Event>|
                    pre.8.mut_steps(&self.8, e, r is Continue) && #[trigger] walk(
                        visit_mut_step::<V>(),
                        e,
                        mid,
                        *visitor,
                        r,
                    );
                lemma_walk_append(visit_mut_step::<V>(), es, e, v0, mid, *visitor, r);
                lemma_in_order_go(
                    8,
                    fields12_mut_steps(pre, before),
                    fields12_mut_steps(pre, *self),
                    fields12_kept(pre, *self),
                    parts,
                    last,
                    es,
                    e,
                    r is Continue,
                );
                if r is Continue {
                    parts = parts.push(e);
                } else {
                    last = e;
                }
                es = es + e;
            }
        }
        match r {
            ControlFlow::Break(b) => {
                proof {
                    if Self::reports_mut_steps() {
                        lemma_in_order_stop(
                            9,
                            12,
                            fields12_mut_steps(pre, *self),
                            fields12_kept(pre, *self),
                            parts,
                            last,
                            es,
                        );
                    }
                }
                return ControlFlow::Break(b);
            },
            ControlFlow::Continue(u) => {
                assert(u == ());
            },
        }
        let ghost before = *self;
        let ghost mid = *visitor;
        let r = self.9.traverse_mut(visitor);
        proof {
            lemma_reachable_then(visit_mut_step::<V>(), v0, mid, *visitor, r);
            if Self::reports_mut_steps() {
                let e = choose|e: Seq<Event>|
                    pre.9.mut_steps(&self.9, e, r is Continue) && #[trigger] walk(
                        visit_mut_step::<V>(),
                        e,
                        mid,
                        *visitor,
                        r,
                    );
                lemma_walk_append(visit_mut_step::<V>(), es, e, v0, mid, *visitor, r);
                lemma_in_order_go(
                    9,
                    fields12_mut_steps(pre, before),
                    fields12_mut_steps(pre, *self),
                    fields12_kept(pre, *self),
                    parts,
                    last,
                    es,
                    e,
                    r is Continue,
                );
                if r is Continue {
                    parts = parts.push(e);
                } else {
                    last = e;
                }
                es = es + e;
            }
        }
        match r {
            ControlFlow::Break(b) => {
                proof {
                    if Self::reports_mut_steps() {
                        lemma_in_order_stop(
                            10,
                            12,
                            fields12_mut_steps(pre, *self),
                            fields12_kept(pre, *self),
                            parts,
                            last,
                            es,
                        );
                    }
                }
                return ControlFlow::Break(b);
            },
            ControlFlow::Continue(u) => {
                assert(u == ());
            },
        }
        let ghost before = *self;
        let ghost mid = *visitor;
        let r = self.10.traverse_mut(visitor);
        proof {
            lemma_reachable_then(visit_mut_step::<V>(), v0, mid, *visitor, r);
            if Self::reports_mut_steps() {
                let e = choose|e: Seq<Event>|
                    pre.10.mut_steps(&self.10, e, r is Continue) && #[trigger] walk(
                        visit_mut_step::<V>(),
                        e,
                        mid,
                        *visitor,
                        r,
                    );
                lemma_walk_append(visit_mut_step::<V>(), es, e, v0, mid, *visitor, r);
                lemma_in_order_go(
                    10,
                    fields12_mut_steps(pre, before),
                    fields12_mut_steps(pre, *self),
                    fields12_kept(pre, *self),
                    parts,
                    last,
                    es,
                    e,
                    r is Continue,
                );
                if r is Continue {
                    parts = parts.push(e);
                } else {
                    last = e;
                }
                es = es + e;
            }
        }
        match r {
            ControlFlow::Break(b) => {
                proof {
                    if Self::reports_mut_steps() {
                        lemma_in_order_stop(
                            11,
                            12,
                            fields12_mut_steps(pre, *self),
                            fields12_kept(pre, *self),
                            parts,
                            last,
                            es,
                        );
                    }
                }
                return ControlFlow::Break(b);
            },
            ControlFlow::Continue(u) => {
                assert(u == ());
            },
        }
        let ghost before = *self;
        let ghost mid = *visitor;
        let r = self.11.traverse_mut(visitor);
        proof {
            lemma_reachable_then(visit_mut_step::<V>(), v0, mid, *visitor, r);
            if Self::reports_mut_steps() {
                let e = choose|e: Seq<Event>|
                    pre.11.mut_steps(&self.11, e, r is Continue) && #[trigger] walk(
                        visit_mut_step::<V>(),
                        e,
                        mid,
                        *visitor,
                        r,
                    );
                lemma_walk_append(visit_mut_step::<V>(), es, e, v0, mid, *visitor, r);
                lemma_in_order_go(
                    11,
                    fields12_mut_steps(pre, before),
                    fields12_mut_steps(pre, *self),
                    fields12_kept(pre, *self),
                    parts,
                    last,
                    es,
                    e,
                    r is Continue,
                );
                if r is Continue {
                    parts = parts.push(e);
                } else {
                    last = e;
                }
                es = es + e;
            }
        }
        r
    }
}

} // verus!
