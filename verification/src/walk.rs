//! The traversal discipline: events, walks, and the laws they obey.
//!
//! A traversal reports a sequence of [`Event`]s. A walk runs a visitor's step
//! relation along such a sequence: each event is answered by one step; a step
//! that answers `Break` ends the walk with that answer, and when every step
//! answers `Continue` the walk ends with `Continue` after the last event.
//!
//! A value made of parts (the fields of a tuple, the items of a sequence) is
//! traversed part by part, in order ([`in_order`]): the events of the whole are
//! those of the parts one after the other, and a break in one part leaves the
//! later parts untraversed.

use core::ops::ControlFlow;
use vstd::prelude::*;

use crate::Folder;
use crate::Traversable;
use crate::TraversableFold;
use crate::TraversableMut;
use crate::Visitor;
use crate::VisitorMut;

verus! {

/// One call that a traversal makes on its visitor.
pub enum Event {
    /// The visitor is entering a node (`enter`).
    Enter,
    /// The visitor is leaving a node (`leave`).
    Leave,
}

/// The answer of a fold step with the node it hands back left out.
pub open spec fn erase<B, C>(r: ControlFlow<B, C>) -> ControlFlow<B> {
    match r {
        ControlFlow::Break(b) => ControlFlow::Break(b),
        ControlFlow::Continue(_) => ControlFlow::Continue(()),
    }
}

/// The value a fold hands back: `None` when it broke.
pub open spec fn folded<B, T>(r: ControlFlow<B, T>) -> Option<T> {
    match r {
        ControlFlow::Break(_) => None,
        ControlFlow::Continue(v) => Some(v),
    }
}

/// The step relation of a [`Visitor`]: an event answered by `enter` or `leave`,
/// as their relations allow or as the default methods do (nothing, and continue).
pub open spec fn visit_step<V: Visitor>() -> spec_fn(V, Event, V, ControlFlow<V::Break>) -> bool {
    |v: V, e: Event, post: V, r: ControlFlow<V::Break>|
        (post == v && r == ControlFlow::<V::Break, ()>::Continue(())) || match e {
            Event::Enter => v.enter_rel(post, r),
            Event::Leave => v.leave_rel(post, r),
        }
}

/// The step relation of a [`VisitorMut`]: an event answered by `enter_mut` or
/// `leave_mut`, as their relations allow or as the default methods do.
pub open spec fn visit_mut_step<V: VisitorMut>() -> spec_fn(V, Event, V, ControlFlow<V::Break>) -> bool {
    |v: V, e: Event, post: V, r: ControlFlow<V::Break>|
        (post == v && r == ControlFlow::<V::Break, ()>::Continue(())) || match e {
            Event::Enter => v.enter_mut_rel(post, r),
            Event::Leave => v.leave_mut_rel(post, r),
        }
}

/// The step relation of a [`Folder`]: an event answered by its `enter` or
/// `leave`, as their relations allow or as the default methods do.
pub open spec fn fold_step<V: Folder>() -> spec_fn(V, Event, V, ControlFlow<V::Break>) -> bool {
    |v: V, e: Event, post: V, r: ControlFlow<V::Break>|
        (post == v && r == ControlFlow::<V::Break, ()>::Continue(())) || match e {
            Event::Enter => v.fold_enter_rel(post, r),
            Event::Leave => v.fold_leave_rel(post, r),
        }
}

/// Running `step` along `es` from state `pre` may end in state `post` with answer `r`:
/// the events are answered one by one, and the first `Break` ends the walk.
pub open spec fn walk<S, B>(
    step: spec_fn(S, Event, S, ControlFlow<B>) -> bool,
    es: Seq<Event>,
    pre: S,
    post: S,
    r: ControlFlow<B>,
) -> bool
    decreases es.len(),
{
    if es.len() == 0 {
        post == pre && r == ControlFlow::<B, ()>::Continue(())
    } else {
        exists|mid: S, r1: ControlFlow<B>|
            {
                &&& #[trigger] step(pre, es[0], mid, r1)
                &&& match r1 {
                    ControlFlow::Break(_) => post == mid && r == r1,
                    ControlFlow::Continue(_) => walk(step, es.drop_first(), mid, post, r),
                }
            }
    }
}

/// Some sequence of events, walked from `pre`, may end in `post` with answer `r`.
pub open spec fn reachable<S, B>(
    step: spec_fn(S, Event, S, ControlFlow<B>) -> bool,
    pre: S,
    post: S,
    r: ControlFlow<B>,
) -> bool {
    exists|es: Seq<Event>| #[trigger] walk(step, es, pre, post, r)
}

/// The events of a sequence of traversable values, one after the other.
pub open spec fn seq_events<T: Traversable>(s: Seq<T>) -> Seq<Event>
    decreases s.len(),
{
    if s.len() == 0 {
        Seq::empty()
    } else {
        seq_events(s.drop_last()) + s.last().events()
    }
}

/// Event sequences one after the other.
pub open spec fn concat(parts: Seq<Seq<Event>>) -> Seq<Event>
    decreases parts.len(),
{
    if parts.len() == 0 {
        Seq::empty()
    } else {
        concat(parts.drop_last()) + parts.last()
    }
}

/// The first `parts.len()` items were folded: item `i` became `outs[i]`,
/// reporting `parts[i]`.
pub open spec fn items_folded<T: TraversableFold>(
    pre: Seq<T>,
    outs: Seq<T>,
    parts: Seq<Seq<Event>>,
) -> bool {
    &&& outs.len() == parts.len()
    &&& parts.len() <= pre.len()
    &&& forall|i: int| 0 <= i < parts.len() ==> #[trigger] pre[i].fold_steps(Some(outs[i]), parts[i])
}

/// A fold of a sequence of values, item by item, may hand back `out` (`None`:
/// it stopped at a break) while reporting `es`.
pub open spec fn seq_fold_steps<T: TraversableFold>(
    pre: Seq<T>,
    out: Option<Seq<T>>,
    es: Seq<Event>,
) -> bool {
    exists|outs: Seq<T>, parts: Seq<Seq<Event>>|
        {
            &&& #[trigger] items_folded(pre, outs, parts)
            &&& match out {
                Some(s) => s == outs && parts.len() == pre.len() && es == concat(parts),
                None => {
                    let k = parts.len() as int;
                    let c = concat(parts);
                    &&& k < pre.len()
                    &&& c.len() <= es.len()
                    &&& es.subrange(0, c.len() as int) == c
                    &&& pre[k].fold_steps(None, es.skip(c.len() as int))
                },
            }
        }
}

/// The first `parts.len()` parts of a traversal in order went through: part
/// `i` reported `parts[i]`.
pub open spec fn parts_through(
    steps: spec_fn(int, Seq<Event>, bool) -> bool,
    parts: Seq<Seq<Event>>,
) -> bool {
    forall|i: int| 0 <= i < parts.len() ==> #[trigger] steps(i, parts[i], true)
}

/// Parts `0 .. k` of a traversal in order have been dealt with, reporting `es`:
/// either each went through (`done`), part `i` reporting `parts[i]`; or the
/// parts before part `parts.len()` went through, that part stopped at a break
/// reporting `last`, and the parts after it, up to `k`, are as they were.
pub open spec fn in_order_upto(
    k: int,
    steps: spec_fn(int, Seq<Event>, bool) -> bool,
    kept: spec_fn(int) -> bool,
    parts: Seq<Seq<Event>>,
    last: Seq<Event>,
    es: Seq<Event>,
    done: bool,
) -> bool {
    &&& parts_through(steps, parts)
    &&& if done {
        parts.len() == k && es == concat(parts)
    } else {
        &&& parts.len() < k
        &&& es == concat(parts) + last
        &&& steps(parts.len() as int, last, false)
        &&& forall|j: int| parts.len() < j < k ==> #[trigger] kept(j)
    }
}

/// A traversal of `n` parts, one after the other, may report `es`; `done`: it
/// went through. `steps(i, e, d)`: part `i` may report `e`, going through when
/// `d`; `kept(j)`: part `j` is as it was. The parts after one that stops at a
/// break are not traversed and are kept as they were.
pub open spec fn in_order(
    n: int,
    steps: spec_fn(int, Seq<Event>, bool) -> bool,
    kept: spec_fn(int) -> bool,
    es: Seq<Event>,
    done: bool,
) -> bool {
    exists|parts: Seq<Seq<Event>>, last: Seq<Event>|
        #[trigger] in_order_upto(n, steps, kept, parts, last, es, done)
}

/// What a mutable traversal may do to each item of a sequence: item `i` of
/// `pre` may become item `i` of `post`, reporting `e`, going through when `d`.
pub open spec fn items_mut_steps<T: TraversableMut>(pre: Seq<T>, post: Seq<T>) -> spec_fn(
    int,
    Seq<Event>,
    bool,
) -> bool {
    |i: int, e: Seq<Event>, d: bool| pre[i].mut_steps(&post[i], e, d)
}

/// Whether item `j` of `post` is as in `pre`.
pub open spec fn items_kept<T>(pre: Seq<T>, post: Seq<T>) -> spec_fn(int) -> bool {
    |j: int| post[j] == pre[j]
}

/// A mutable traversal of a sequence of values, item by item, in order, may
/// turn `pre` into `post` while reporting `es`; `done`: it went through. When an
/// item's traversal stops at a break, the later items are left as they were.
pub open spec fn seq_mut_steps<T: TraversableMut>(
    pre: Seq<T>,
    post: Seq<T>,
    es: Seq<Event>,
    done: bool,
) -> bool {
    &&& pre.len() == post.len()
    &&& in_order(pre.len() as int, items_mut_steps(pre, post), items_kept(pre, post), es, done)
}

/// A mutable traversal of `a` that went through, followed by one of `b`, is a
/// mutable traversal of `a + b`.
pub proof fn lemma_seq_mut_steps_append<T: TraversableMut>(
    a: Seq<T>,
    a2: Seq<T>,
    b: Seq<T>,
    b2: Seq<T>,
    e1: Seq<Event>,
    e2: Seq<Event>,
    d: bool,
)
    requires
        seq_mut_steps(a, a2, e1, true),
        seq_mut_steps(b, b2, e2, d),
    ensures
        seq_mut_steps(a + b, a2 + b2, e1 + e2, d),
{
    let (p1, l1) = choose|p: Seq<Seq<Event>>, l: Seq<Event>|
        #[trigger] in_order_upto(
            a.len() as int,
            items_mut_steps(a, a2),
            items_kept(a, a2),
            p,
            l,
            e1,
            true,
        );
    let (p2, l2) = choose|p: Seq<Seq<Event>>, l: Seq<Event>|
        #[trigger] in_order_upto(b.len() as int, items_mut_steps(b, b2), items_kept(b, b2), p, l, e2, d);
    let steps = items_mut_steps(a + b, a2 + b2);
    let kept = items_kept(a + b, a2 + b2);
    let parts = p1 + p2;
    let n1 = a.len() as int;
    assert(parts.take(n1) =~= p1);
    assert(parts.skip(n1) =~= p2);
    lemma_concat_split(parts, n1);
    assert forall|i: int| 0 <= i < parts.len() implies #[trigger] steps(i, parts[i], true) by {
        if i < n1 {
            assert(items_mut_steps(a, a2)(i, p1[i], true));
        } else {
            assert(items_mut_steps(b, b2)(i - n1, p2[i - n1], true));
            assert((a + b)[i] == b[i - n1]);
            assert((a2 + b2)[i] == b2[i - n1]);
        }
    }
    if !d {
        let k = parts.len() as int;
        assert(items_mut_steps(b, b2)(p2.len() as int, l2, false));
        assert((a + b)[k] == b[k - n1]);
        assert((a2 + b2)[k] == b2[k - n1]);
        assert forall|j: int| k < j < (a + b).len() implies #[trigger] kept(j) by {
            assert(items_kept(b, b2)(j - n1));
            assert((a + b)[j] == b[j - n1]);
            assert((a2 + b2)[j] == b2[j - n1]);
        }
        assert(e1 + e2 =~= concat(parts) + l2);
    }
    assert(in_order_upto((a + b).len() as int, steps, kept, parts, l2, e1 + e2, d));
}

/// A mutable traversal of `a` that stopped at a break leaves `b` after it as it
/// was: it is a mutable traversal of `a + b` that stopped there.
pub proof fn lemma_seq_mut_steps_stop<T: TraversableMut>(
    a: Seq<T>,
    a2: Seq<T>,
    b: Seq<T>,
    e1: Seq<Event>,
)
    requires
        seq_mut_steps(a, a2, e1, false),
    ensures
        seq_mut_steps(a + b, a2 + b, e1, false),
{
    let (p1, l1) = choose|p: Seq<Seq<Event>>, l: Seq<Event>|
        #[trigger] in_order_upto(
            a.len() as int,
            items_mut_steps(a, a2),
            items_kept(a, a2),
            p,
            l,
            e1,
            false,
        );
    let steps = items_mut_steps(a + b, a2 + b);
    let kept = items_kept(a + b, a2 + b);
    let k = p1.len() as int;
    assert forall|i: int| 0 <= i < p1.len() implies #[trigger] steps(i, p1[i], true) by {
        assert(items_mut_steps(a, a2)(i, p1[i], true));
    }
    assert(items_mut_steps(a, a2)(k, l1, false));
    assert forall|j: int| k < j < (a + b).len() implies #[trigger] kept(j) by {
        if j < a.len() {
            assert(items_kept(a, a2)(j));
        }
    }
    assert(in_order_upto((a + b).len() as int, steps, kept, p1, l1, e1, false));
}

/// Walking `a` to a `Continue` and then `b` is walking `a + b`.
pub proof fn lemma_walk_append<S, B>(
    step: spec_fn(S, Event, S, ControlFlow<B>) -> bool,
    a: Seq<Event>,
    b: Seq<Event>,
    pre: S,
    mid: S,
    post: S,
    r: ControlFlow<B>,
)
    requires
        walk(step, a, pre, mid, ControlFlow::Continue(())),
        walk(step, b, mid, post, r),
    ensures
        walk(step, a + b, pre, post, r),
    decreases a.len(),
{
    if a.len() == 0 {
        assert(a + b =~= b);
    } else {
        let (m1, r1) = choose|m1: S, r1: ControlFlow<B>|
            {
                &&& #[trigger] step(pre, a[0], m1, r1)
                &&& match r1 {
                    ControlFlow::Break(_) => mid == m1 && ControlFlow::<B, ()>::Continue(()) == r1,
                    ControlFlow::Continue(_) => walk(
                        step,
                        a.drop_first(),
                        m1,
                        mid,
                        ControlFlow::Continue(()),
                    ),
                }
            };
        lemma_walk_append(step, a.drop_first(), b, m1, mid, post, r);
        assert((a + b).drop_first() =~= a.drop_first() + b);
        assert((a + b)[0] == a[0]);
    }
}

/// A walk along `a` that breaks is also a walk along `a + b`: what follows a break is never reported.
pub proof fn lemma_walk_break<S, B>(
    step: spec_fn(S, Event, S, ControlFlow<B>) -> bool,
    a: Seq<Event>,
    b: Seq<Event>,
    pre: S,
    post: S,
    r: ControlFlow<B>,
)
    requires
        walk(step, a, pre, post, r),
        r is Break,
    ensures
        walk(step, a + b, pre, post, r),
    decreases a.len(),
{
    if a.len() == 0 {
    } else {
        let (m1, r1) = choose|m1: S, r1: ControlFlow<B>|
            {
                &&& #[trigger] step(pre, a[0], m1, r1)
                &&& match r1 {
                    ControlFlow::Break(_) => post == m1 && r == r1,
                    ControlFlow::Continue(_) => walk(step, a.drop_first(), m1, post, r),
                }
            };
        assert((a + b).drop_first() =~= a.drop_first() + b);
        assert((a + b)[0] == a[0]);
        if r1 is Continue {
            lemma_walk_break(step, a.drop_first(), b, m1, post, r);
        }
    }
}

/// The empty walk stays where it starts and continues.
pub proof fn lemma_reachable_refl<S, B>(step: spec_fn(S, Event, S, ControlFlow<B>) -> bool, pre: S)
    ensures
        reachable(step, pre, pre, ControlFlow::Continue(())),
{
    assert(walk(step, Seq::<Event>::empty(), pre, pre, ControlFlow::Continue(())));
}

/// Reaching `mid` with a `Continue` and then `post` from `mid` is reaching `post`.
pub proof fn lemma_reachable_then<S, B>(
    step: spec_fn(S, Event, S, ControlFlow<B>) -> bool,
    pre: S,
    mid: S,
    post: S,
    r: ControlFlow<B>,
)
    requires
        reachable(step, pre, mid, ControlFlow::Continue(())),
        reachable(step, mid, post, r),
    ensures
        reachable(step, pre, post, r),
{
    let a = choose|es: Seq<Event>| #[trigger] walk(step, es, pre, mid, ControlFlow::Continue(()));
    let b = choose|es: Seq<Event>| #[trigger] walk(step, es, mid, post, r);
    lemma_walk_append(step, a, b, pre, mid, post, r);
}

/// The events of a sequence split at any index into the events of the two parts.
pub proof fn lemma_seq_events_split<T: Traversable>(s: Seq<T>, k: int)
    requires
        0 <= k <= s.len(),
    ensures
        seq_events(s) == seq_events(s.take(k)) + seq_events(s.skip(k)),
    decreases s.len(),
{
    if k == s.len() {
        assert(s.take(k) =~= s);
        assert(s.skip(k) =~= Seq::<T>::empty());
        assert(seq_events(s) + Seq::<Event>::empty() =~= seq_events(s));
    } else {
        let d = s.drop_last();
        lemma_seq_events_split(d, k);
        assert(d.take(k) =~= s.take(k));
        assert(s.skip(k).drop_last() =~= d.skip(k));
        assert(s.skip(k).last() == s.last());
        assert(seq_events(d.take(k)) + seq_events(d.skip(k)) + s.last().events()
            =~= seq_events(d.take(k)) + (seq_events(d.skip(k)) + s.last().events()));
    }
}

/// The events of the first `k + 1` values are those of the first `k` followed by those of value `k`.
pub proof fn lemma_seq_events_take<T: Traversable>(s: Seq<T>, k: int)
    requires
        0 <= k < s.len(),
    ensures
        seq_events(s.take(k + 1)) == seq_events(s.take(k)) + s[k].events(),
{
    assert(s.take(k + 1).drop_last() =~= s.take(k));
    assert(s.take(k + 1).last() == s[k]);
}

/// The concatenation of the first `k` parts and of the rest is the concatenation of all parts.
pub proof fn lemma_concat_split(parts: Seq<Seq<Event>>, k: int)
    requires
        0 <= k <= parts.len(),
    ensures
        concat(parts) == concat(parts.take(k)) + concat(parts.skip(k)),
    decreases parts.len(),
{
    if k == parts.len() {
        assert(parts.take(k) =~= parts);
        assert(parts.skip(k) =~= Seq::<Seq<Event>>::empty());
        assert(concat(parts) + Seq::<Event>::empty() =~= concat(parts));
    } else {
        let d = parts.drop_last();
        lemma_concat_split(d, k);
        assert(d.take(k) =~= parts.take(k));
        assert(parts.skip(k).drop_last() =~= d.skip(k));
        assert(parts.skip(k).last() == parts.last());
        assert(concat(d.take(k)) + concat(d.skip(k)) + parts.last() =~= concat(d.take(k)) + (
        concat(d.skip(k)) + parts.last()));
    }
}

/// Before any part is walked, the walk along no part has continued in place.
pub proof fn lemma_walk_parts_start<S, B>(
    step: spec_fn(S, Event, S, ControlFlow<B>) -> bool,
    parts: Seq<Seq<Event>>,
    pre: S,
)
    ensures
        walk(step, concat(parts.take(0)), pre, pre, ControlFlow::Continue(())),
{
    assert(parts.take(0) =~= Seq::<Seq<Event>>::empty());
}

/// Having walked the first `i` parts to a `Continue`, walking part `i` extends the walk by one
/// part; when that part breaks, or is the last, the walk along all the parts is done.
pub proof fn lemma_walk_parts_next<S, B>(
    step: spec_fn(S, Event, S, ControlFlow<B>) -> bool,
    parts: Seq<Seq<Event>>,
    i: int,
    pre: S,
    mid: S,
    post: S,
    r: ControlFlow<B>,
)
    requires
        0 <= i < parts.len(),
        walk(step, concat(parts.take(i)), pre, mid, ControlFlow::Continue(())),
        walk(step, parts[i], mid, post, r),
    ensures
        walk(step, concat(parts.take(i + 1)), pre, post, r),
        r is Break ==> walk(step, concat(parts), pre, post, r),
        i + 1 == parts.len() ==> walk(step, concat(parts), pre, post, r),
{
    assert(parts.take(i + 1).drop_last() =~= parts.take(i));
    assert(parts.take(i + 1).last() == parts[i]);
    lemma_walk_append(step, concat(parts.take(i)), parts[i], pre, mid, post, r);
    if r is Break {
        lemma_concat_split(parts, i + 1);
        lemma_walk_break(step, concat(parts.take(i + 1)), concat(parts.skip(i + 1)), pre, post, r);
    }
    if i + 1 == parts.len() {
        assert(parts.take(i + 1) =~= parts);
    }
}

/// Having walked the events of the first `i` items to a `Continue`, walking
/// those of item `i` extends the walk by one item; when that item breaks, or
/// is the last, the walk along the events of all the items is done.
pub proof fn lemma_items_next<S, B, T: Traversable>(
    step: spec_fn(S, Event, S, ControlFlow<B>) -> bool,
    items: Seq<T>,
    i: int,
    pre: S,
    mid: S,
    post: S,
    r: ControlFlow<B>,
)
    requires
        0 <= i < items.len(),
        walk(step, seq_events(items.take(i)), pre, mid, ControlFlow::Continue(())),
        walk(step, items[i].events(), mid, post, r),
    ensures
        walk(step, seq_events(items.take(i + 1)), pre, post, r),
        r is Break ==> walk(step, seq_events(items), pre, post, r),
        i + 1 == items.len() ==> walk(step, seq_events(items), pre, post, r),
{
    lemma_seq_events_take(items, i);
    lemma_walk_append(step, seq_events(items.take(i)), items[i].events(), pre, mid, post, r);
    if r is Break {
        lemma_seq_events_split(items, i + 1);
        lemma_walk_break(step, seq_events(items.take(i + 1)), seq_events(items.skip(i + 1)), pre, post, r);
    }
    if i + 1 == items.len() {
        assert(items.take(i + 1) =~= items);
    }
}

/// Law: a walk along `a + b` either breaks while walking `a`, with `b` never
/// reported, or walks `a` to a `Continue` and then walks `b` from where `a` ended.
pub proof fn walk_split<S, B>(
    step: spec_fn(S, Event, S, ControlFlow<B>) -> bool,
    a: Seq<Event>,
    b: Seq<Event>,
    pre: S,
    post: S,
    r: ControlFlow<B>,
)
    requires
        walk(step, a + b, pre, post, r),
    ensures
        (r is Break && walk(step, a, pre, post, r)) || exists|mid: S|
            walk(step, a, pre, mid, ControlFlow::Continue(())) && #[trigger] walk(step, b, mid, post, r),
    decreases a.len(),
{
    if a.len() == 0 {
        assert(a + b =~= b);
        assert(walk(step, a, pre, pre, ControlFlow::Continue(())));
        assert(walk(step, b, pre, post, r));
    } else {
        assert((a + b).drop_first() =~= a.drop_first() + b);
        assert((a + b)[0] == a[0]);
        let (m1, r1) = choose|m1: S, r1: ControlFlow<B>|
            {
                &&& #[trigger] step(pre, (a + b)[0], m1, r1)
                &&& match r1 {
                    ControlFlow::Break(_) => post == m1 && r == r1,
                    ControlFlow::Continue(_) => walk(step, (a + b).drop_first(), m1, post, r),
                }
            };
        if r1 is Continue {
            walk_split(step, a.drop_first(), b, m1, post, r);
            if r is Break && walk(step, a.drop_first(), m1, post, r) {
                assert(walk(step, a, pre, post, r));
            } else {
                let mid = choose|mid: S|
                    walk(step, a.drop_first(), m1, mid, ControlFlow::Continue(()))
                        && #[trigger] walk(step, b, mid, post, r);
                assert(walk(step, a, pre, mid, ControlFlow::Continue(())));
            }
        }
    }
}

/// Law: a walk ends in a break only when a step answered that very break.
pub proof fn walk_break_reported<S, B>(
    step: spec_fn(S, Event, S, ControlFlow<B>) -> bool,
    es: Seq<Event>,
    pre: S,
    post: S,
    b: B,
)
    requires
        walk(step, es, pre, post, ControlFlow::Break(b)),
    ensures
        exists|i: int, s: S, p: S| 0 <= i < es.len() && #[trigger] step(s, es[i], p, ControlFlow::Break(b)),
    decreases es.len(),
{
    if es.len() > 0 {
        let (m1, r1) = choose|m1: S, r1: ControlFlow<B>|
            {
                &&& #[trigger] step(pre, es[0], m1, r1)
                &&& match r1 {
                    ControlFlow::Break(_) => post == m1 && ControlFlow::<B, ()>::Break(b) == r1,
                    ControlFlow::Continue(_) => walk(step, es.drop_first(), m1, post, ControlFlow::Break(b)),
                }
            };
        if r1 is Break {
            assert(step(pre, es[0], m1, ControlFlow::Break(b)));
        } else {
            walk_break_reported(step, es.drop_first(), m1, post, b);
            let (i, s, p) = choose|i: int, s: S, p: S|
                0 <= i < es.drop_first().len() && #[trigger] step(s, es.drop_first()[i], p, ControlFlow::Break(b));
            assert(es.drop_first()[i] == es[i + 1]);
            assert(step(s, es[i + 1], p, ControlFlow::Break(b)));
        }
    }
}

/// Law: with a visitor none of whose steps ever breaks, every walk continues to the end.
pub proof fn walk_without_breaks_continues<S, B>(
    step: spec_fn(S, Event, S, ControlFlow<B>) -> bool,
    es: Seq<Event>,
    pre: S,
    post: S,
    r: ControlFlow<B>,
)
    requires
        walk(step, es, pre, post, r),
        forall|s: S, e: Event, p: S, q: ControlFlow<B>| #[trigger] step(s, e, p, q) ==> q is Continue,
    ensures
        r == ControlFlow::<B, ()>::Continue(()),
    decreases es.len(),
{
    if es.len() > 0 {
        let (m1, r1) = choose|m1: S, r1: ControlFlow<B>|
            {
                &&& #[trigger] step(pre, es[0], m1, r1)
                &&& match r1 {
                    ControlFlow::Break(_) => post == m1 && r == r1,
                    ControlFlow::Continue(_) => walk(step, es.drop_first(), m1, post, r),
                }
            };
        walk_without_breaks_continues(step, es.drop_first(), m1, post, r);
    }
}

/// Law: a visitor whose every step has one outcome walks every event sequence to one outcome.
pub proof fn walk_deterministic<S, B>(
    step: spec_fn(S, Event, S, ControlFlow<B>) -> bool,
    es: Seq<Event>,
    pre: S,
    post1: S,
    r1: ControlFlow<B>,
    post2: S,
    r2: ControlFlow<B>,
)
    requires
        walk(step, es, pre, post1, r1),
        walk(step, es, pre, post2, r2),
        forall|s: S, e: Event, p1: S, q1: ControlFlow<B>, p2: S, q2: ControlFlow<B>|
            #[trigger] step(s, e, p1, q1) && #[trigger] step(s, e, p2, q2) ==> p1 == p2 && q1 == q2,
    ensures
        post1 == post2,
        r1 == r2,
    decreases es.len(),
{
    if es.len() > 0 {
        let (m1, a1) = choose|m1: S, a1: ControlFlow<B>|
            {
                &&& #[trigger] step(pre, es[0], m1, a1)
                &&& match a1 {
                    ControlFlow::Break(_) => post1 == m1 && r1 == a1,
                    ControlFlow::Continue(_) => walk(step, es.drop_first(), m1, post1, r1),
                }
            };
        let (m2, a2) = choose|m2: S, a2: ControlFlow<B>|
            {
                &&& #[trigger] step(pre, es[0], m2, a2)
                &&& match a2 {
                    ControlFlow::Break(_) => post2 == m2 && r2 == a2,
                    ControlFlow::Continue(_) => walk(step, es.drop_first(), m2, post2, r2),
                }
            };
        assert(m1 == m2 && a1 == a2);
        if a1 is Continue {
            walk_deterministic(step, es.drop_first(), m1, post1, r1, post2, r2);
        }
    }
}

/// Law: with a visitor none of whose steps changes its state, every walk ends where it started.
pub proof fn walk_keeps_state<S, B>(
    step: spec_fn(S, Event, S, ControlFlow<B>) -> bool,
    es: Seq<Event>,
    pre: S,
    post: S,
    r: ControlFlow<B>,
)
    requires
        walk(step, es, pre, post, r),
        forall|s: S, e: Event, p: S, q: ControlFlow<B>| #[trigger] step(s, e, p, q) ==> p == s,
    ensures
        post == pre,
    decreases es.len(),
{
    if es.len() > 0 {
        let (m1, r1) = choose|m1: S, r1: ControlFlow<B>|
            {
                &&& #[trigger] step(pre, es[0], m1, r1)
                &&& match r1 {
                    ControlFlow::Break(_) => post == m1 && r == r1,
                    ControlFlow::Continue(_) => walk(step, es.drop_first(), m1, post, r),
                }
            };
        if r1 is Continue {
            walk_keeps_state(step, es.drop_first(), m1, post, r);
        }
    }
}

/// A step of a visitor made of two parts: the first part takes the step, and
/// the second takes it only when the first continues (otherwise it is left as
/// it was and the first part's break is the answer).
pub open spec fn first_then_second<S, S1, S2, B>(
    step1: spec_fn(S1, Event, S1, ControlFlow<B>) -> bool,
    step2: spec_fn(S2, Event, S2, ControlFlow<B>) -> bool,
    first: spec_fn(S) -> S1,
    second: spec_fn(S) -> S2,
    pre: S,
    e: Event,
    post: S,
    r: ControlFlow<B>,
) -> bool {
    exists|r1: ControlFlow<B>|
        {
            &&& #[trigger] step1(first(pre), e, first(post), r1)
            &&& match r1 {
                ControlFlow::Break(_) => second(post) == second(pre) && r == r1,
                ControlFlow::Continue(_) => step2(second(pre), e, second(post), r),
            }
        }
}

/// The walk of a two-part visitor broke at event `k - 1`: either the first part
/// broke there, the second having walked the events before it, or the first
/// walked through it and the second broke there.
pub open spec fn pair_broke_at<S1, S2, B>(
    step1: spec_fn(S1, Event, S1, ControlFlow<B>) -> bool,
    step2: spec_fn(S2, Event, S2, ControlFlow<B>) -> bool,
    es: Seq<Event>,
    pre1: S1,
    post1: S1,
    pre2: S2,
    post2: S2,
    r: ControlFlow<B>,
    k: int,
) -> bool {
    ||| walk(step1, es.take(k), pre1, post1, r) && walk(
        step2,
        es.take(k - 1),
        pre2,
        post2,
        ControlFlow::Continue(()),
    )
    ||| walk(step1, es.take(k), pre1, post1, ControlFlow::Continue(())) && walk(
        step2,
        es.take(k),
        pre2,
        post2,
        r,
    )
}

/// A walk of a two-part visitor is a walk of each part: when it goes through,
/// both parts were walked along all the events; when it breaks at some event,
/// the part that broke was walked up to that event and the other as far as it was asked.
pub proof fn lemma_walk_pair<S, S1, S2, B>(
    step: spec_fn(S, Event, S, ControlFlow<B>) -> bool,
    step1: spec_fn(S1, Event, S1, ControlFlow<B>) -> bool,
    step2: spec_fn(S2, Event, S2, ControlFlow<B>) -> bool,
    first: spec_fn(S) -> S1,
    second: spec_fn(S) -> S2,
    es: Seq<Event>,
    pre: S,
    post: S,
    r: ControlFlow<B>,
)
    requires
        walk(step, es, pre, post, r),
        forall|a: S, e: Event, b: S, q: ControlFlow<B>| #[trigger] step(a, e, b, q)
            ==> first_then_second(step1, step2, first, second, a, e, b, q),
    ensures
        r is Continue ==> walk(step1, es, first(pre), first(post), r) && walk(
            step2,
            es,
            second(pre),
            second(post),
            r,
        ),
        r is Break ==> exists|k: int|
            0 < k <= es.len() && #[trigger] pair_broke_at(
                step1,
                step2,
                es,
                first(pre),
                first(post),
                second(pre),
                second(post),
                r,
                k,
            ),
    decreases es.len(),
{
    if es.len() > 0 {
        let (mid, q) = choose|mid: S, q: ControlFlow<B>|
            {
                &&& #[trigger] step(pre, es[0], mid, q)
                &&& match q {
                    ControlFlow::Break(_) => post == mid && r == q,
                    ControlFlow::Continue(_) => walk(step, es.drop_first(), mid, post, r),
                }
            };
        assert(first_then_second(step1, step2, first, second, pre, es[0], mid, q));
        let q1 = choose|q1: ControlFlow<B>|
            {
                &&& #[trigger] step1(first(pre), es[0], first(mid), q1)
                &&& match q1 {
                    ControlFlow::Break(_) => second(mid) == second(pre) && q == q1,
                    ControlFlow::Continue(_) => step2(second(pre), es[0], second(mid), q),
                }
            };
        let one = es.take(1);
        assert(one[0] == es[0]);
        assert(one.drop_first() =~= Seq::<Event>::empty());
        assert(es.take(0) =~= Seq::<Event>::empty());
        if q1 is Break {
            assert(step1(first(pre), one[0], first(mid), q1));
            assert(walk(step1, one, first(pre), first(post), r));
            assert(walk(step2, es.take(0), second(pre), second(post), ControlFlow::Continue(())));
            assert(pair_broke_at(
                step1,
                step2,
                es,
                first(pre),
                first(post),
                second(pre),
                second(post),
                r,
                1,
            ));
        } else if q is Break {
            assert(step1(first(pre), one[0], first(mid), q1));
            assert(walk(step1, one.drop_first(), first(mid), first(post), ControlFlow::Continue(())));
            assert(walk(step1, one, first(pre), first(post), ControlFlow::Continue(())));
            assert(step2(second(pre), one[0], second(mid), q));
            assert(walk(step2, one, second(pre), second(post), r));
            assert(pair_broke_at(
                step1,
                step2,
                es,
                first(pre),
                first(post),
                second(pre),
                second(post),
                r,
                1,
            ));
        } else {
            let t = es.drop_first();
            lemma_walk_pair(step, step1, step2, first, second, t, mid, post, r);
            assert(step2(second(pre), es[0], second(mid), q));
            if r is Break {
                let k = choose|k: int|
                    0 < k <= t.len() && #[trigger] pair_broke_at(
                        step1,
                        step2,
                        t,
                        first(mid),
                        first(post),
                        second(mid),
                        second(post),
                        r,
                        k,
                    );
                let long = es.take(k + 1);
                let short = es.take(k);
                assert(long[0] == es[0]);
                assert(long.drop_first() =~= t.take(k));
                assert(short[0] == es[0]);
                assert(short.drop_first() =~= t.take(k - 1));
                assert(step1(first(pre), long[0], first(mid), q1));
                assert(step2(second(pre), long[0], second(mid), q));
                assert(step2(second(pre), short[0], second(mid), q));
                assert(pair_broke_at(
                    step1,
                    step2,
                    es,
                    first(pre),
                    first(post),
                    second(pre),
                    second(post),
                    r,
                    k + 1,
                ));
            }
        }
    }
}

/// Two parts concatenate to the first followed by the second.
pub proof fn lemma_concat_two(a: Seq<Event>, b: Seq<Event>)
    ensures
        concat(seq![a, b]) == a + b,
{
    let one = seq![a];
    let two = seq![a, b];
    assert(two.drop_last() =~= one);
    assert(two.last() == b);
    assert(one.drop_last() =~= Seq::<Seq<Event>>::empty());
    assert(one.last() == a);
    assert(concat(Seq::<Seq<Event>>::empty()) == Seq::<Event>::empty());
    assert(concat(one) =~= a);
    assert(concat(two) == concat(one) + b);
}

/// Concatenating one more part.
pub proof fn lemma_concat_push(parts: Seq<Seq<Event>>, e: Seq<Event>)
    ensures
        concat(parts.push(e)) == concat(parts) + e,
{
    assert(parts.push(e).drop_last() =~= parts);
}

/// One more item was folded.
pub proof fn lemma_items_folded_next<T: TraversableFold>(
    pre: Seq<T>,
    outs: Seq<T>,
    parts: Seq<Seq<Event>>,
    y: T,
    e: Seq<Event>,
)
    requires
        items_folded(pre, outs, parts),
        parts.len() < pre.len(),
        pre[parts.len() as int].fold_steps(Some(y), e),
    ensures
        items_folded(pre, outs.push(y), parts.push(e)),
{
    assert forall|i: int| 0 <= i < parts.push(e).len() implies #[trigger] pre[i].fold_steps(
        Some(outs.push(y)[i]),
        parts.push(e)[i],
    ) by {
        if i < parts.len() {
            assert(parts.push(e)[i] == parts[i]);
            assert(outs.push(y)[i] == outs[i]);
        }
    }
}

/// Before any part is traversed, nothing has been reported.
pub proof fn lemma_in_order_start(
    steps: spec_fn(int, Seq<Event>, bool) -> bool,
    kept: spec_fn(int) -> bool,
)
    ensures
        in_order_upto(0, steps, kept, Seq::empty(), Seq::empty(), Seq::empty(), true),
{
    assert(concat(Seq::<Seq<Event>>::empty()) == Seq::<Event>::empty());
}

/// Parts `0 .. k` went through and part `k` is traversed, reporting `e`: parts
/// `0 .. k + 1` have been dealt with. `steps` may differ from `old_steps`, the
/// description before part `k` was traversed, on part `k` only.
pub proof fn lemma_in_order_go(
    k: int,
    old_steps: spec_fn(int, Seq<Event>, bool) -> bool,
    steps: spec_fn(int, Seq<Event>, bool) -> bool,
    kept: spec_fn(int) -> bool,
    parts: Seq<Seq<Event>>,
    last: Seq<Event>,
    es: Seq<Event>,
    e: Seq<Event>,
    d: bool,
)
    requires
        in_order_upto(k, old_steps, kept, parts, last, es, true),
        forall|i: int, x: Seq<Event>, b: bool|
            0 <= i < k ==> #[trigger] steps(i, x, b) == old_steps(i, x, b),
        steps(k, e, d),
    ensures
        d ==> in_order_upto(k + 1, steps, kept, parts.push(e), last, es + e, true),
        !d ==> in_order_upto(k + 1, steps, kept, parts, e, es + e, false),
{
    assert forall|i: int| 0 <= i < parts.len() implies #[trigger] steps(i, parts[i], true) by {
        assert(old_steps(i, parts[i], true));
    }
    if d {
        lemma_concat_push(parts, e);
        assert forall|i: int| 0 <= i < parts.push(e).len() implies #[trigger] steps(
            i,
            parts.push(e)[i],
            true,
        ) by {
            if i < parts.len() {
                assert(parts.push(e)[i] == parts[i]);
            }
        }
    }
}

/// Parts `k .. n` are as they were after a break in an earlier part: all `n`
/// parts have been dealt with.
pub proof fn lemma_in_order_stop(
    k: int,
    n: int,
    steps: spec_fn(int, Seq<Event>, bool) -> bool,
    kept: spec_fn(int) -> bool,
    parts: Seq<Seq<Event>>,
    last: Seq<Event>,
    es: Seq<Event>,
)
    requires
        in_order_upto(k, steps, kept, parts, last, es, false),
        k <= n,
        forall|j: int| k <= j < n ==> #[trigger] kept(j),
    ensures
        in_order_upto(n, steps, kept, parts, last, es, false),
{
}

/// Parts that report nothing concatenate to nothing.
pub proof fn lemma_concat_of_empty_parts(parts: Seq<Seq<Event>>)
    requires
        forall|i: int| 0 <= i < parts.len() ==> (#[trigger] parts[i]).len() == 0,
    ensures
        concat(parts).len() == 0,
    decreases parts.len(),
{
    if parts.len() > 0 {
        assert forall|i: int| 0 <= i < parts.drop_last().len() implies (
        #[trigger] parts.drop_last()[i]).len() == 0 by {
            assert(parts.drop_last()[i] == parts[i]);
        }
        lemma_concat_of_empty_parts(parts.drop_last());
    }
}

/// Law: when no item of a sequence is changed by its own mutable traversal, which reports
/// nothing and goes through (as with primitive values), a mutable traversal of the sequence
/// leaves it as it was, reports nothing, and goes through.
pub proof fn seq_mut_steps_of_untouched_items<T: TraversableMut>(
    pre: Seq<T>,
    post: Seq<T>,
    es: Seq<Event>,
    done: bool,
)
    requires
        seq_mut_steps(pre, post, es, done),
        forall|x: T, p: T, e: Seq<Event>, d: bool| #[trigger] x.mut_steps(&p, e, d) ==> p == x
            && e.len() == 0 && d,
    ensures
        post == pre,
        es.len() == 0,
        done,
{
    let steps = items_mut_steps(pre, post);
    let kept = items_kept(pre, post);
    let (parts, last) = choose|parts: Seq<Seq<Event>>, last: Seq<Event>|
        #[trigger] in_order_upto(pre.len() as int, steps, kept, parts, last, es, done);
    if !done {
        assert(steps(parts.len() as int, last, false));
        assert(pre[parts.len() as int].mut_steps(&post[parts.len() as int], last, false));
    }
    assert forall|i: int| 0 <= i < parts.len() implies (#[trigger] parts[i]).len() == 0 && post[i]
        == pre[i] by {
        assert(steps(i, parts[i], true));
        assert(pre[i].mut_steps(&post[i], parts[i], true));
    }
    lemma_concat_of_empty_parts(parts);
    assert forall|i: int| 0 <= i < pre.len() implies post[i] == pre[i] by {
        assert((#[trigger] parts[i]).len() == 0 && post[i] == pre[i]);
    }
    assert(post =~= pre);
}

/// Law: when every item of a sequence is handed back as it is by its own fold, which reports
/// nothing (as with primitive values), a fold of the sequence hands it back as it was and
/// reports nothing.
pub proof fn seq_fold_steps_of_untouched_items<T: TraversableFold>(
    pre: Seq<T>,
    out: Option<Seq<T>>,
    es: Seq<Event>,
)
    requires
        seq_fold_steps(pre, out, es),
        forall|x: T, o: Option<T>, e: Seq<Event>| #[trigger] x.fold_steps(o, e) ==> o == Some(x)
            && e.len() == 0,
    ensures
        out == Some(pre),
        es.len() == 0,
{
    let (outs, parts) = choose|outs: Seq<T>, parts: Seq<Seq<Event>>|
        {
            &&& #[trigger] items_folded(pre, outs, parts)
            &&& match out {
                Some(s) => s == outs && parts.len() == pre.len() && es == concat(parts),
                None => {
                    let k = parts.len() as int;
                    let c = concat(parts);
                    &&& k < pre.len()
                    &&& c.len() <= es.len()
                    &&& es.subrange(0, c.len() as int) == c
                    &&& pre[k].fold_steps(None, es.skip(c.len() as int))
                },
            }
        };
    if out is None {
        let k = parts.len() as int;
        let c = concat(parts);
        assert(pre[k].fold_steps(None, es.skip(c.len() as int)));
    }
    assert forall|i: int| 0 <= i < parts.len() implies (#[trigger] parts[i]).len() == 0 && outs[i]
        == pre[i] by {
        assert(pre[i].fold_steps(Some(outs[i]), parts[i]));
    }
    lemma_concat_of_empty_parts(parts);
    assert(out is Some);
    assert(parts.len() == pre.len());
    assert forall|i: int| 0 <= i < pre.len() implies outs[i] == pre[i] by {
        assert((#[trigger] parts[i]).len() == 0 && outs[i] == pre[i]);
    }
    assert(outs =~= pre);
}

} // verus!
