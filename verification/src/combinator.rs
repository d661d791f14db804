//! Combinators for visitors.

use core::ops::ControlFlow;
use vstd::prelude::*;

use crate::Visitor;
use crate::VisitorMut;
use crate::walk::Event;
use crate::walk::first_then_second;
use crate::walk::lemma_walk_pair;
use crate::walk::pair_broke_at;
use crate::walk::visit_mut_step;
use crate::walk::visit_step;
use crate::walk::walk;

verus! {

/// Extension methods for every [`Visitor`].
pub trait VisitorExt: Visitor {
    /// Combines this visitor with `other`: on every event this visitor is asked
    /// first, and `other` is asked only when this one continues.
    fn or<V>(self, other: V) -> (r: OrVisitor<Self, V>) where
        Self: Sized,
        V: Visitor<Break = Self::Break>,

        ensures
            r.first() == self,
            r.second() == other,
    {
        OrVisitor { visitor1: self, visitor2: other }
    }
}

impl<V: Visitor> VisitorExt for V {

}

/// Extension methods for every [`VisitorMut`].
pub trait VisitorMutExt: VisitorMut {
    /// Combines this visitor with `other`: on every event this visitor is asked
    /// first, and `other` is asked only when this one continues.
    fn or<V>(self, other: V) -> (r: OrVisitor<Self, V>) where
        Self: Sized,
        V: VisitorMut<Break = Self::Break>,

        ensures
            r.first() == self,
            r.second() == other,
    {
        OrVisitor { visitor1: self, visitor2: other }
    }
}

impl<V: VisitorMut> VisitorMutExt for V {

}

/// Two visitors asked one after the other; built by `or`.
pub struct OrVisitor<V1, V2> {
    visitor1: V1,
    visitor2: V2,
}

impl<V1, V2> OrVisitor<V1, V2> {
    /// The visitor asked first.
    pub closed spec fn first(&self) -> V1 {
        self.visitor1
    }

    /// The visitor asked second.
    pub closed spec fn second(&self) -> V2 {
        self.visitor2
    }
}

impl<V1, V2> Visitor for OrVisitor<V1, V2> where V1: Visitor, V2: Visitor<Break = V1::Break> {
    type Break = V1::Break;

    open spec fn wf(&self) -> bool {
        self.first().wf() && self.second().wf()
    }

    /// The first visitor enters; if it breaks, that is the answer and the second
    /// is left as it was; otherwise the second enters and gives the answer.
    open spec fn enter_rel(&self, post: Self, r: ControlFlow<Self::Break>) -> bool {
        exists|mid: V1, r1: ControlFlow<V1::Break>|
            {
                &&& #[trigger] visit_step::<V1>()(self.first(), Event::Enter, mid, r1)
                &&& post.first() == mid
                &&& match r1 {
                    ControlFlow::Break(_) => post.second() == self.second() && r == r1,
                    ControlFlow::Continue(_) => visit_step::<V2>()(
                        self.second(),
                        Event::Enter,
                        post.second(),
                        r,
                    ),
                }
            }
    }

    /// The first visitor leaves; if it breaks, that is the answer and the second
    /// is left as it was; otherwise the second leaves and gives the answer.
    open spec fn leave_rel(&self, post: Self, r: ControlFlow<Self::Break>) -> bool {
        exists|mid: V1, r1: ControlFlow<V1::Break>|
            {
                &&& #[trigger] visit_step::<V1>()(self.first(), Event::Leave, mid, r1)
                &&& post.first() == mid
                &&& match r1 {
                    ControlFlow::Break(_) => post.second() == self.second() && r == r1,
                    ControlFlow::Continue(_) => visit_step::<V2>()(
                        self.second(),
                        Event::Leave,
                        post.second(),
                        r,
                    ),
                }
            }
    }

    fn enter<T: 'static>(&mut self, this: &T) -> (r: ControlFlow<Self::Break>) {
        let ghost v1 = self.visitor1;
        let ghost v2 = self.visitor2;
        let r1 = self.visitor1.enter(this);
        assert(visit_step::<V1>()(v1, Event::Enter, self.visitor1, r1));
        match r1 {
            ControlFlow::Break(b) => ControlFlow::Break(b),
            ControlFlow::Continue(_) => {
                let r = self.visitor2.enter(this);
                assert(visit_step::<V2>()(v2, Event::Enter, self.visitor2, r));
                r
            },
        }
    }

    fn leave<T: 'static>(&mut self, this: &T) -> (r: ControlFlow<Self::Break>) {
        let ghost v1 = self.visitor1;
        let ghost v2 = self.visitor2;
        let r1 = self.visitor1.leave(this);
        assert(visit_step::<V1>()(v1, Event::Leave, self.visitor1, r1));
        match r1 {
            ControlFlow::Break(b) => ControlFlow::Break(b),
            ControlFlow::Continue(_) => {
                let r = self.visitor2.leave(this);
                assert(visit_step::<V2>()(v2, Event::Leave, self.visitor2, r));
                r
            },
        }
    }
}

impl<V1, V2> VisitorMut for OrVisitor<V1, V2> where
    V1: VisitorMut,
    V2: VisitorMut<Break = V1::Break>,
 {
    type Break = V1::Break;

    open spec fn wf_mut(&self) -> bool {
        self.first().wf_mut() && self.second().wf_mut()
    }

    /// The first visitor enters; if it breaks, that is the answer and the second
    /// is left as it was; otherwise the second enters and gives the answer.
    open spec fn enter_mut_rel(&self, post: Self, r: ControlFlow<Self::Break>) -> bool {
        exists|mid: V1, r1: ControlFlow<V1::Break>|
            {
                &&& #[trigger] visit_mut_step::<V1>()(self.first(), Event::Enter, mid, r1)
                &&& post.first() == mid
                &&& match r1 {
                    ControlFlow::Break(_) => post.second() == self.second() && r == r1,
                    ControlFlow::Continue(_) => visit_mut_step::<V2>()(
                        self.second(),
                        Event::Enter,
                        post.second(),
                        r,
                    ),
                }
            }
    }

    /// The first visitor leaves; if it breaks, that is the answer and the second
    /// is left as it was; otherwise the second leaves and gives the answer.
    open spec fn leave_mut_rel(&self, post: Self, r: ControlFlow<Self::Break>) -> bool {
        exists|mid: V1, r1: ControlFlow<V1::Break>|
            {
                &&& #[trigger] visit_mut_step::<V1>()(self.first(), Event::Leave, mid, r1)
                &&& post.first() == mid
                &&& match r1 {
                    ControlFlow::Break(_) => post.second() == self.second() && r == r1,
                    ControlFlow::Continue(_) => visit_mut_step::<V2>()(
                        self.second(),
                        Event::Leave,
                        post.second(),
                        r,
                    ),
                }
            }
    }

    fn enter_mut<T: 'static>(&mut self, this: &mut T) -> (r: ControlFlow<Self::Break>) {
        let ghost v1 = self.visitor1;
        let ghost v2 = self.visitor2;
        let r1 = self.visitor1.enter_mut(this);
        assert(visit_mut_step::<V1>()(v1, Event::Enter, self.visitor1, r1));
        match r1 {
            ControlFlow::Break(b) => ControlFlow::Break(b),
            ControlFlow::Continue(_) => {
                let r = self.visitor2.enter_mut(this);
                assert(visit_mut_step::<V2>()(v2, Event::Enter, self.visitor2, r));
                r
            },
        }
    }

    fn leave_mut<T: 'static>(&mut self, this: &mut T) -> (r: ControlFlow<Self::Break>) {
        let ghost v1 = self.visitor1;
        let ghost v2 = self.visitor2;
        let r1 = self.visitor1.leave_mut(this);
        assert(visit_mut_step::<V1>()(v1, Event::Leave, self.visitor1, r1));
        match r1 {
            ControlFlow::Break(b) => ControlFlow::Break(b),
            ControlFlow::Continue(_) => {
                let r = self.visitor2.leave_mut(this);
                assert(visit_mut_step::<V2>()(v2, Event::Leave, self.visitor2, r));
                r
            },
        }
    }
}


/// Law: both visitors combined by `or` are asked about every event. When a
/// traversal with the combined visitor goes through, each of the two visitors
/// was walked along all the events; when it breaks at some event, either the
/// first visitor broke there, the second having been walked along the events
/// before it, or the first was walked through it and the second broke there.
pub proof fn or_walk_asks_both<V1, V2>(
    es: Seq<Event>,
    v: OrVisitor<V1, V2>,
    post: OrVisitor<V1, V2>,
    r: ControlFlow<V1::Break>,
) where V1: Visitor, V2: Visitor<Break = V1::Break>
    requires
        walk(visit_step::<OrVisitor<V1, V2>>(), es, v, post, r),
    ensures
        r is Continue ==> walk(visit_step::<V1>(), es, v.first(), post.first(), r) && walk(
            visit_step::<V2>(),
            es,
            v.second(),
            post.second(),
            r,
        ),
        r is Break ==> exists|k: int|
            0 < k <= es.len() && #[trigger] pair_broke_at(
                visit_step::<V1>(),
                visit_step::<V2>(),
                es,
                v.first(),
                post.first(),
                v.second(),
                post.second(),
                r,
                k,
            ),
{
    let first = |o: OrVisitor<V1, V2>| o.first();
    let second = |o: OrVisitor<V1, V2>| o.second();
    assert forall|a: OrVisitor<V1, V2>, e: Event, b: OrVisitor<V1, V2>, q: ControlFlow<V1::Break>|
        #[trigger] visit_step::<OrVisitor<V1, V2>>()(a, e, b, q) implies first_then_second(
        visit_step::<V1>(),
        visit_step::<V2>(),
        first,
        second,
        a,
        e,
        b,
        q,
    ) by {
        if b == a && q == ControlFlow::<V1::Break, ()>::Continue(()) {
            assert(visit_step::<V1>()(first(a), e, first(b), q));
            assert(visit_step::<V2>()(second(a), e, second(b), q));
        } else {
            let (mid, r1) = choose|mid: V1, r1: ControlFlow<V1::Break>|
                {
                    &&& #[trigger] visit_step::<V1>()(a.first(), e, mid, r1)
                    &&& b.first() == mid
                    &&& match r1 {
                        ControlFlow::Break(_) => b.second() == a.second() && q == r1,
                        ControlFlow::Continue(_) => visit_step::<V2>()(a.second(), e, b.second(), q),
                    }
                };
            assert(visit_step::<V1>()(first(a), e, first(b), r1));
        }
    }
    lemma_walk_pair(
        visit_step::<OrVisitor<V1, V2>>(),
        visit_step::<V1>(),
        visit_step::<V2>(),
        first,
        second,
        es,
        v,
        post,
        r,
    );
}

/// Law: both mutable visitors combined by `or` are asked about every event, as
/// for [`or_walk_asks_both`].
pub proof fn or_mut_walk_asks_both<V1, V2>(
    es: Seq<Event>,
    v: OrVisitor<V1, V2>,
    post: OrVisitor<V1, V2>,
    r: ControlFlow<V1::Break>,
) where V1: VisitorMut, V2: VisitorMut<Break = V1::Break>
    requires
        walk(visit_mut_step::<OrVisitor<V1, V2>>(), es, v, post, r),
    ensures
        r is Continue ==> walk(visit_mut_step::<V1>(), es, v.first(), post.first(), r) && walk(
            visit_mut_step::<V2>(),
            es,
            v.second(),
            post.second(),
            r,
        ),
        r is Break ==> exists|k: int|
            0 < k <= es.len() && #[trigger] pair_broke_at(
                visit_mut_step::<V1>(),
                visit_mut_step::<V2>(),
                es,
                v.first(),
                post.first(),
                v.second(),
                post.second(),
                r,
                k,
            ),
{
    let first = |o: OrVisitor<V1, V2>| o.first();
    let second = |o: OrVisitor<V1, V2>| o.second();
    assert forall|a: OrVisitor<V1, V2>, e: Event, b: OrVisitor<V1, V2>, q: ControlFlow<V1::Break>|
        #[trigger] visit_mut_step::<OrVisitor<V1, V2>>()(a, e, b, q) implies first_then_second(
        visit_mut_step::<V1>(),
        visit_mut_step::<V2>(),
        first,
        second,
        a,
        e,
        b,
        q,
    ) by {
        if b == a && q == ControlFlow::<V1::Break, ()>::Continue(()) {
            assert(visit_mut_step::<V1>()(first(a), e, first(b), q));
            assert(visit_mut_step::<V2>()(second(a), e, second(b), q));
        } else {
            let (mid, r1) = choose|mid: V1, r1: ControlFlow<V1::Break>|
                {
                    &&& #[trigger] visit_mut_step::<V1>()(a.first(), e, mid, r1)
                    &&& b.first() == mid
                    &&& match r1 {
                        ControlFlow::Break(_) => b.second() == a.second() && q == r1,
                        ControlFlow::Continue(_) => visit_mut_step::<V2>()(a.second(), e, b.second(), q),
                    }
                };
            assert(visit_mut_step::<V1>()(first(a), e, first(b), r1));
        }
    }
    lemma_walk_pair(
        visit_mut_step::<OrVisitor<V1, V2>>(),
        visit_mut_step::<V1>(),
        visit_mut_step::<V2>(),
        first,
        second,
        es,
        v,
        post,
        r,
    );
}


/// One step of three visitors asked in turn: `a` answers, and `b` is asked
/// only when `a` continues, and `c` only when `b` continues too; a visitor not
/// asked stays as it was.
pub open spec fn three_in_turn<A, B, C>(
    a: A,
    b: B,
    c: C,
    pa: A,
    pb: B,
    pc: C,
    e: Event,
    r: ControlFlow<A::Break>,
) -> bool where A: Visitor, B: Visitor<Break = A::Break>, C: Visitor<Break = A::Break> {
    exists|ra: ControlFlow<A::Break>|
        {
            &&& #[trigger] visit_step::<A>()(a, e, pa, ra)
            &&& match ra {
                ControlFlow::Break(_) => pb == b && pc == c && r == ra,
                ControlFlow::Continue(_) => exists|rb: ControlFlow<A::Break>|
                    {
                        &&& #[trigger] visit_step::<B>()(b, e, pb, rb)
                        &&& match rb {
                            ControlFlow::Break(_) => pc == c && r == rb,
                            ControlFlow::Continue(_) => visit_step::<C>()(c, e, pc, r),
                        }
                    },
            }
        }
}

/// A step of `(a or b) or c` is a step of the three visitors asked in turn.
proof fn lemma_left_nested<A, B, C>(
    x: OrVisitor<OrVisitor<A, B>, C>,
    px: OrVisitor<OrVisitor<A, B>, C>,
    e: Event,
    r: ControlFlow<A::Break>,
) where A: Visitor, B: Visitor<Break = A::Break>, C: Visitor<Break = A::Break>
    ensures
        visit_step::<OrVisitor<OrVisitor<A, B>, C>>()(x, e, px, r) <==> three_in_turn(
            x.first().first(),
            x.first().second(),
            x.second(),
            px.first().first(),
            px.first().second(),
            px.second(),
            e,
            r,
        ),
{
    let a = x.first().first();
    let b = x.first().second();
    let c = x.second();
    let pa = px.first().first();
    let pb = px.first().second();
    let pc = px.second();
    let cont = ControlFlow::<A::Break, ()>::Continue(());
    if visit_step::<OrVisitor<OrVisitor<A, B>, C>>()(x, e, px, r) {
        if px == x && r == cont {
            assert(visit_step::<A>()(a, e, pa, cont));
            assert(visit_step::<B>()(b, e, pb, cont));
        } else {
            let (m1, r1) = choose|m1: OrVisitor<A, B>, r1: ControlFlow<A::Break>|
                {
                    &&& #[trigger] visit_step::<OrVisitor<A, B>>()(x.first(), e, m1, r1)
                    &&& px.first() == m1
                    &&& match r1 {
                        ControlFlow::Break(_) => px.second() == x.second() && r == r1,
                        ControlFlow::Continue(_) => visit_step::<C>()(x.second(), e, px.second(), r),
                    }
                };
            if m1 == x.first() && r1 == cont {
                assert(visit_step::<A>()(a, e, pa, cont));
                assert(visit_step::<B>()(b, e, pb, cont));
            } else {
                let (ma, ra) = choose|ma: A, ra: ControlFlow<A::Break>|
                    {
                        &&& #[trigger] visit_step::<A>()(a, e, ma, ra)
                        &&& m1.first() == ma
                        &&& match ra {
                            ControlFlow::Break(_) => m1.second() == b && r1 == ra,
                            ControlFlow::Continue(_) => visit_step::<B>()(b, e, m1.second(), r1),
                        }
                    };
                assert(visit_step::<A>()(a, e, pa, ra));
                if ra is Continue {
                    assert(visit_step::<B>()(b, e, pb, r1));
                }
            }
        }
    }
    if three_in_turn(a, b, c, pa, pb, pc, e, r) {
        let ra = choose|ra: ControlFlow<A::Break>|
            {
                &&& #[trigger] visit_step::<A>()(a, e, pa, ra)
                &&& match ra {
                    ControlFlow::Break(_) => pb == b && pc == c && r == ra,
                    ControlFlow::Continue(_) => exists|rb: ControlFlow<A::Break>|
                        {
                            &&& #[trigger] visit_step::<B>()(b, e, pb, rb)
                            &&& match rb {
                                ControlFlow::Break(_) => pc == c && r == rb,
                                ControlFlow::Continue(_) => visit_step::<C>()(c, e, pc, r),
                            }
                        },
                }
            };
        if ra is Break {
            assert(visit_step::<OrVisitor<A, B>>()(x.first(), e, px.first(), ra));
        } else {
            let rb = choose|rb: ControlFlow<A::Break>|
                {
                    &&& #[trigger] visit_step::<B>()(b, e, pb, rb)
                    &&& match rb {
                        ControlFlow::Break(_) => pc == c && r == rb,
                        ControlFlow::Continue(_) => visit_step::<C>()(c, e, pc, r),
                    }
                };
            assert(visit_step::<OrVisitor<A, B>>()(x.first(), e, px.first(), rb));
        }
    }
}

/// A step of `a or (b or c)` is a step of the three visitors asked in turn.
proof fn lemma_right_nested<A, B, C>(
    y: OrVisitor<A, OrVisitor<B, C>>,
    py: OrVisitor<A, OrVisitor<B, C>>,
    e: Event,
    r: ControlFlow<A::Break>,
) where A: Visitor, B: Visitor<Break = A::Break>, C: Visitor<Break = A::Break>
    ensures
        visit_step::<OrVisitor<A, OrVisitor<B, C>>>()(y, e, py, r) <==> three_in_turn(
            y.first(),
            y.second().first(),
            y.second().second(),
            py.first(),
            py.second().first(),
            py.second().second(),
            e,
            r,
        ),
{
    let a = y.first();
    let b = y.second().first();
    let c = y.second().second();
    let pa = py.first();
    let pb = py.second().first();
    let pc = py.second().second();
    let cont = ControlFlow::<A::Break, ()>::Continue(());
    if visit_step::<OrVisitor<A, OrVisitor<B, C>>>()(y, e, py, r) {
        if py == y && r == cont {
            assert(visit_step::<A>()(a, e, pa, cont));
            assert(visit_step::<B>()(b, e, pb, cont));
        } else {
            let (ma, ra) = choose|ma: A, ra: ControlFlow<A::Break>|
                {
                    &&& #[trigger] visit_step::<A>()(a, e, ma, ra)
                    &&& py.first() == ma
                    &&& match ra {
                        ControlFlow::Break(_) => py.second() == y.second() && r == ra,
                        ControlFlow::Continue(_) => visit_step::<OrVisitor<B, C>>()(
                            y.second(),
                            e,
                            py.second(),
                            r,
                        ),
                    }
                };
            assert(visit_step::<A>()(a, e, pa, ra));
            if ra is Continue {
                if py.second() == y.second() && r == cont {
                    assert(visit_step::<B>()(b, e, pb, cont));
                } else {
                    let (mb, rb) = choose|mb: B, rb: ControlFlow<A::Break>|
                        {
                            &&& #[trigger] visit_step::<B>()(b, e, mb, rb)
                            &&& py.second().first() == mb
                            &&& match rb {
                                ControlFlow::Break(_) => py.second().second() == c && r == rb,
                                ControlFlow::Continue(_) => visit_step::<C>()(c, e, pc, r),
                            }
                        };
                    assert(visit_step::<B>()(b, e, pb, rb));
                }
            }
        }
    }
    if three_in_turn(a, b, c, pa, pb, pc, e, r) {
        let ra = choose|ra: ControlFlow<A::Break>|
            {
                &&& #[trigger] visit_step::<A>()(a, e, pa, ra)
                &&& match ra {
                    ControlFlow::Break(_) => pb == b && pc == c && r == ra,
                    ControlFlow::Continue(_) => exists|rb: ControlFlow<A::Break>|
                        {
                            &&& #[trigger] visit_step::<B>()(b, e, pb, rb)
                            &&& match rb {
                                ControlFlow::Break(_) => pc == c && r == rb,
                                ControlFlow::Continue(_) => visit_step::<C>()(c, e, pc, r),
                            }
                        },
                }
            };
        if ra is Break {
            assert(py.second() == y.second());
            assert(visit_step::<A>()(y.first(), e, py.first(), ra));
        } else {
            let rb = choose|rb: ControlFlow<A::Break>|
                {
                    &&& #[trigger] visit_step::<B>()(b, e, pb, rb)
                    &&& match rb {
                        ControlFlow::Break(_) => pc == c && r == rb,
                        ControlFlow::Continue(_) => visit_step::<C>()(c, e, pc, r),
                    }
                };
            assert(visit_step::<OrVisitor<B, C>>()(y.second(), e, py.second(), r));
            assert(visit_step::<A>()(y.first(), e, py.first(), ra));
        }
    }
}

/// Law: `or` is associative. Combining `a` with `b`, and the result with `c`,
/// takes each step as combining `a` with the combination of `b` and `c` does:
/// the same answer, with each of the three visitors ending in the same state.
pub proof fn or_is_associative<A, B, C>(
    x: OrVisitor<OrVisitor<A, B>, C>,
    y: OrVisitor<A, OrVisitor<B, C>>,
    px: OrVisitor<OrVisitor<A, B>, C>,
    py: OrVisitor<A, OrVisitor<B, C>>,
    e: Event,
    r: ControlFlow<A::Break>,
) where A: Visitor, B: Visitor<Break = A::Break>, C: Visitor<Break = A::Break>
    requires
        x.first().first() == y.first(),
        x.first().second() == y.second().first(),
        x.second() == y.second().second(),
        px.first().first() == py.first(),
        px.first().second() == py.second().first(),
        px.second() == py.second().second(),
    ensures
        visit_step::<OrVisitor<OrVisitor<A, B>, C>>()(x, e, px, r) <==> visit_step::<
            OrVisitor<A, OrVisitor<B, C>>,
        >()(y, e, py, r),
{
    lemma_left_nested(x, px, e, r);
    lemma_right_nested(y, py, e, r);
}

} // verus!
