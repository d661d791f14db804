use std::any::Any;
use std::ops::ControlFlow;

use traversable::Traversable;
use traversable::TraversableMut;
use traversable::Visitor;
use traversable::VisitorMut;

struct Child {
    value: u64,
}

impl Traversable for Child {
    fn traverse<V: Visitor>(&self, visitor: &mut V) -> ControlFlow<V::Break> {
        visitor.enter(self)?;
        self.value.traverse(visitor)?;
        visitor.leave(self)?;
        ControlFlow::Continue(())
    }
}

impl TraversableMut for Child {
    fn traverse_mut<V: VisitorMut>(&mut self, visitor: &mut V) -> ControlFlow<V::Break> {
        visitor.enter_mut(self)?;
        self.value.traverse_mut(visitor)?;
        visitor.leave_mut(self)?;
        ControlFlow::Continue(())
    }
}

struct Parent {
    child: Child,
}

impl Traversable for Parent {
    fn traverse<V: Visitor>(&self, visitor: &mut V) -> ControlFlow<V::Break> {
        visitor.enter(self)?;
        self.child.traverse(visitor)?;
        visitor.leave(self)?;
        ControlFlow::Continue(())
    }
}

impl TraversableMut for Parent {
    fn traverse_mut<V: VisitorMut>(&mut self, visitor: &mut V) -> ControlFlow<V::Break> {
        visitor.enter_mut(self)?;
        self.child.traverse_mut(visitor)?;
        visitor.leave_mut(self)?;
        ControlFlow::Continue(())
    }
}

// `skip_self`: the children are traversed, the parent itself is not visited.
struct SkipSelfParent {
    child: Child,
}

impl Traversable for SkipSelfParent {
    fn traverse<V: Visitor>(&self, visitor: &mut V) -> ControlFlow<V::Break> {
        self.child.traverse(visitor)?;
        ControlFlow::Continue(())
    }
}

impl TraversableMut for SkipSelfParent {
    fn traverse_mut<V: VisitorMut>(&mut self, visitor: &mut V) -> ControlFlow<V::Break> {
        self.child.traverse_mut(visitor)?;
        ControlFlow::Continue(())
    }
}

// `skip_children`: the parent is visited, its children are not traversed.
#[allow(dead_code)]
struct SkipChildrenParent {
    child: Child,
}

impl Traversable for SkipChildrenParent {
    fn traverse<V: Visitor>(&self, visitor: &mut V) -> ControlFlow<V::Break> {
        visitor.enter(self)?;
        visitor.leave(self)?;
        ControlFlow::Continue(())
    }
}

impl TraversableMut for SkipChildrenParent {
    fn traverse_mut<V: VisitorMut>(&mut self, visitor: &mut V) -> ControlFlow<V::Break> {
        visitor.enter_mut(self)?;
        visitor.leave_mut(self)?;
        ControlFlow::Continue(())
    }
}

// `skip_self` and `skip_children`: nothing is visited.
#[allow(dead_code)]
struct SkipSelfAndChildrenParent {
    child: Child,
}

impl Traversable for SkipSelfAndChildrenParent {
    fn traverse<V: Visitor>(&self, _visitor: &mut V) -> ControlFlow<V::Break> {
        ControlFlow::Continue(())
    }
}

impl TraversableMut for SkipSelfAndChildrenParent {
    fn traverse_mut<V: VisitorMut>(&mut self, _visitor: &mut V) -> ControlFlow<V::Break> {
        ControlFlow::Continue(())
    }
}

// `skip_children` on an enum: the enum is visited, its variants' fields are not.
#[allow(dead_code)]
enum SkipChildrenEnum {
    Child(Child),
}

impl Traversable for SkipChildrenEnum {
    fn traverse<V: Visitor>(&self, visitor: &mut V) -> ControlFlow<V::Break> {
        visitor.enter(self)?;
        visitor.leave(self)?;
        ControlFlow::Continue(())
    }
}

#[derive(Default)]
struct Counts {
    parent_enter: usize,
    parent_leave: usize,
    child_enter: usize,
    child_leave: usize,
    skip_self_parent_enter: usize,
    skip_self_parent_leave: usize,
    skip_children_parent_enter: usize,
    skip_children_parent_leave: usize,
    skip_self_and_children_parent_enter: usize,
    skip_self_and_children_parent_leave: usize,
    skip_children_enum_enter: usize,
    skip_children_enum_leave: usize,
}

impl Visitor for Counts {
    type Break = ();

    fn enter<T: 'static>(&mut self, this: &T) -> ControlFlow<Self::Break> {
        let this: &dyn Any = this;
        if this.is::<Parent>() {
            self.parent_enter += 1;
        } else if this.is::<Child>() {
            self.child_enter += 1;
        } else if this.is::<SkipSelfParent>() {
            self.skip_self_parent_enter += 1;
        } else if this.is::<SkipChildrenParent>() {
            self.skip_children_parent_enter += 1;
        } else if this.is::<SkipSelfAndChildrenParent>() {
            self.skip_self_and_children_parent_enter += 1;
        } else if this.is::<SkipChildrenEnum>() {
            self.skip_children_enum_enter += 1;
        }

        ControlFlow::Continue(())
    }

    fn leave<T: 'static>(&mut self, this: &T) -> ControlFlow<Self::Break> {
        let this: &dyn Any = this;
        if this.is::<Parent>() {
            self.parent_leave += 1;
        } else if this.is::<Child>() {
            self.child_leave += 1;
        } else if this.is::<SkipSelfParent>() {
            self.skip_self_parent_leave += 1;
        } else if this.is::<SkipChildrenParent>() {
            self.skip_children_parent_leave += 1;
        } else if this.is::<SkipSelfAndChildrenParent>() {
            self.skip_self_and_children_parent_leave += 1;
        } else if this.is::<SkipChildrenEnum>() {
            self.skip_children_enum_leave += 1;
        }

        ControlFlow::Continue(())
    }
}

impl VisitorMut for Counts {
    type Break = ();

    fn enter_mut<T: 'static>(&mut self, this: &mut T) -> ControlFlow<Self::Break> {
        let this: &dyn Any = this;
        if this.is::<Parent>() {
            self.parent_enter += 1;
        } else if this.is::<Child>() {
            self.child_enter += 1;
        } else if this.is::<SkipSelfParent>() {
            self.skip_self_parent_enter += 1;
        } else if this.is::<SkipChildrenParent>() {
            self.skip_children_parent_enter += 1;
        } else if this.is::<SkipSelfAndChildrenParent>() {
            self.skip_self_and_children_parent_enter += 1;
        }

        ControlFlow::Continue(())
    }

    fn leave_mut<T: 'static>(&mut self, this: &mut T) -> ControlFlow<Self::Break> {
        let this: &dyn Any = this;
        if this.is::<Parent>() {
            self.parent_leave += 1;
        } else if this.is::<Child>() {
            self.child_leave += 1;
        } else if this.is::<SkipSelfParent>() {
            self.skip_self_parent_leave += 1;
        } else if this.is::<SkipChildrenParent>() {
            self.skip_children_parent_leave += 1;
        } else if this.is::<SkipSelfAndChildrenParent>() {
            self.skip_self_and_children_parent_leave += 1;
        }

        ControlFlow::Continue(())
    }
}

#[test]
fn traversable_visits_self_and_children_by_default() {
    let parent = Parent {
        child: Child { value: 1 },
    };
    let mut counts = Counts::default();

    let result = parent.traverse(&mut counts);

    assert!(result.is_continue());
    assert_eq!(counts.parent_enter, 1);
    assert_eq!(counts.parent_leave, 1);
    assert_eq!(counts.child_enter, 1);
    assert_eq!(counts.child_leave, 1);
}

#[test]
fn skip_self_visits_children_only() {
    let parent = SkipSelfParent {
        child: Child { value: 1 },
    };
    let mut counts = Counts::default();

    let result = parent.traverse(&mut counts);

    assert!(result.is_continue());
    assert_eq!(counts.skip_self_parent_enter, 0);
    assert_eq!(counts.skip_self_parent_leave, 0);
    assert_eq!(counts.child_enter, 1);
    assert_eq!(counts.child_leave, 1);
}

#[test]
fn skip_children_visits_self_only() {
    let parent = SkipChildrenParent {
        child: Child { value: 1 },
    };
    let mut counts = Counts::default();

    let result = parent.traverse(&mut counts);

    assert!(result.is_continue());
    assert_eq!(counts.skip_children_parent_enter, 1);
    assert_eq!(counts.skip_children_parent_leave, 1);
    assert_eq!(counts.child_enter, 0);
    assert_eq!(counts.child_leave, 0);
}

#[test]
fn skip_self_and_children_visits_nothing() {
    let parent = SkipSelfAndChildrenParent {
        child: Child { value: 1 },
    };
    let mut counts = Counts::default();

    let result = parent.traverse(&mut counts);

    assert!(result.is_continue());
    assert_eq!(counts.skip_self_and_children_parent_enter, 0);
    assert_eq!(counts.skip_self_and_children_parent_leave, 0);
    assert_eq!(counts.child_enter, 0);
    assert_eq!(counts.child_leave, 0);
}

#[test]
fn skip_children_visits_enum_self_only() {
    let item = SkipChildrenEnum::Child(Child { value: 1 });
    let mut counts = Counts::default();

    let result = item.traverse(&mut counts);

    assert!(result.is_continue());
    assert_eq!(counts.skip_children_enum_enter, 1);
    assert_eq!(counts.skip_children_enum_leave, 1);
    assert_eq!(counts.child_enter, 0);
    assert_eq!(counts.child_leave, 0);
}

#[test]
fn traversable_mut_honors_type_level_attributes() {
    let mut skip_self = SkipSelfParent {
        child: Child { value: 1 },
    };
    let mut counts = Counts::default();

    let result = skip_self.traverse_mut(&mut counts);

    assert!(result.is_continue());
    assert_eq!(counts.skip_self_parent_enter, 0);
    assert_eq!(counts.skip_self_parent_leave, 0);
    assert_eq!(counts.child_enter, 1);
    assert_eq!(counts.child_leave, 1);

    let mut skip_children = SkipChildrenParent {
        child: Child { value: 1 },
    };
    let mut counts = Counts::default();

    let result = skip_children.traverse_mut(&mut counts);

    assert!(result.is_continue());
    assert_eq!(counts.skip_children_parent_enter, 1);
    assert_eq!(counts.skip_children_parent_leave, 1);
    assert_eq!(counts.child_enter, 0);
    assert_eq!(counts.child_leave, 0);
}
