use std::any::Any;
use std::cell::RefCell;
use std::collections::BTreeMap;
use std::collections::BTreeSet;
use std::collections::HashMap;
use std::collections::HashSet;
use std::collections::VecDeque;
use std::ops::ControlFlow;
use std::rc::Rc;
use std::sync::Arc;

use traversable::Folder;
use traversable::Traversable;
use traversable::TraversableFold;
use traversable::TraversableMut;
use traversable::Visitor;
use traversable::VisitorMut;
use traversable::cast::SameType;
use traversable::combinator::VisitorExt;
use traversable::function::folder;
use traversable::function::folder_enter;
use traversable::function::folder_leave;
use traversable::function::visitor;
use traversable::function::visitor_enter;
use traversable::function::visitor_enter_mut;
use traversable::function::visitor_leave;
use traversable::function::visitor_leave_mut;
use traversable::function::traverse_with;
use traversable::function::visitor_mut;

#[derive(Debug, PartialEq, Eq, PartialOrd, Ord, Hash)]
struct Leaf {
    id: u32,
}

impl Traversable for Leaf {
    fn traverse<V: Visitor>(&self, visitor: &mut V) -> ControlFlow<V::Break> {
        visitor.enter(self)?;
        visitor.leave(self)?;
        ControlFlow::Continue(())
    }
}

impl TraversableMut for Leaf {
    fn traverse_mut<V: VisitorMut>(&mut self, visitor: &mut V) -> ControlFlow<V::Break> {
        visitor.enter_mut(self)?;
        visitor.leave_mut(self)?;
        ControlFlow::Continue(())
    }
}

impl TraversableFold for Leaf {
    fn traverse_fold<V: Folder>(self, folder: &mut V) -> ControlFlow<V::Break, Self> {
        let this = folder.enter(self)?;
        let this = folder.leave(this)?;
        ControlFlow::Continue(this)
    }
}

/// Records every event as ("enter" | "leave", id) and breaks on entering `stop`.
struct Log {
    events: Vec<(&'static str, u32)>,
    stop: Option<u32>,
}

impl Log {
    fn new(stop: Option<u32>) -> Self {
        Log {
            events: Vec::new(),
            stop,
        }
    }
}

impl Visitor for Log {
    type Break = u32;

    fn enter<T: 'static>(&mut self, this: &T) -> ControlFlow<u32> {
        let this: &dyn Any = this;
        if let Some(leaf) = this.downcast_ref::<Leaf>() {
            self.events.push(("enter", leaf.id));
            if Some(leaf.id) == self.stop {
                return ControlFlow::Break(leaf.id);
            }
        }
        ControlFlow::Continue(())
    }

    fn leave<T: 'static>(&mut self, this: &T) -> ControlFlow<u32> {
        let this: &dyn Any = this;
        if let Some(leaf) = this.downcast_ref::<Leaf>() {
            self.events.push(("leave", leaf.id));
        }
        ControlFlow::Continue(())
    }
}

#[test]
fn vec_reports_items_in_order() {
    let items = vec![Leaf { id: 1 }, Leaf { id: 2 }, Leaf { id: 3 }];
    let mut log = Log::new(None);
    assert_eq!(items.traverse(&mut log), ControlFlow::Continue(()));
    assert_eq!(
        log.events,
        vec![
            ("enter", 1),
            ("leave", 1),
            ("enter", 2),
            ("leave", 2),
            ("enter", 3),
            ("leave", 3)
        ]
    );
}

#[test]
fn break_stops_the_traversal_and_is_returned() {
    let items = vec![Leaf { id: 1 }, Leaf { id: 2 }, Leaf { id: 3 }];
    let mut log = Log::new(Some(2));
    assert_eq!(items.traverse(&mut log), ControlFlow::Break(2));
    assert_eq!(log.events, vec![("enter", 1), ("leave", 1), ("enter", 2)]);
}

#[test]
fn empty_containers_report_nothing() {
    let mut log = Log::new(Some(0));
    let empty: Vec<Leaf> = Vec::new();
    assert_eq!(empty.traverse(&mut log), ControlFlow::Continue(()));
    assert_eq!(None::<Leaf>.traverse(&mut log), ControlFlow::Continue(()));
    assert_eq!(
        Err::<Leaf, u8>(7).traverse(&mut log),
        ControlFlow::Continue(())
    );
    assert!(log.events.is_empty());
}

#[test]
fn primitives_and_strings_are_not_visited() {
    let mut log = Log::new(Some(0));
    assert!(5u64.traverse(&mut log).is_continue());
    assert!((-3i8).traverse(&mut log).is_continue());
    assert!('x'.traverse(&mut log).is_continue());
    assert!(true.traverse(&mut log).is_continue());
    assert!(().traverse(&mut log).is_continue());
    assert!(String::from("text").traverse(&mut log).is_continue());
    assert!(log.events.is_empty());
}

#[test]
fn wrappers_and_tuples_report_their_contents_in_order() {
    let mut log = Log::new(None);
    let value = (
        Leaf { id: 1 },
        Some(Box::new(Leaf { id: 2 })),
        Ok::<Leaf, Leaf>(Leaf { id: 3 }),
        Arc::new(Leaf { id: 4 }),
        [Leaf { id: 5 }, Leaf { id: 6 }],
        VecDeque::from(vec![Leaf { id: 7 }]),
    );
    assert!(value.traverse(&mut log).is_continue());
    let entered: Vec<u32> = log
        .events
        .iter()
        .filter(|(kind, _)| *kind == "enter")
        .map(|(_, id)| *id)
        .collect();
    assert_eq!(entered, vec![1, 2, 3, 4, 5, 6, 7]);
    assert_eq!(log.events.len(), 14);
}

#[test]
fn result_err_is_not_traversed() {
    let mut log = Log::new(None);
    let value: Result<Leaf, Leaf> = Err(Leaf { id: 9 });
    assert!(value.traverse(&mut log).is_continue());
    assert!(log.events.is_empty());
}

#[test]
fn slices_break_in_the_middle() {
    let items = [Leaf { id: 1 }, Leaf { id: 2 }, Leaf { id: 3 }];
    let slice: &[Leaf] = &items;
    let mut log = Log::new(Some(3));
    assert_eq!(slice.traverse(&mut log), ControlFlow::Break(3));
    assert_eq!(log.events.len(), 5);
}

#[test]
fn or_asks_second_only_when_first_continues() {
    let items = vec![Leaf { id: 1 }, Leaf { id: 2 }];
    let mut both = Log::new(Some(1)).or(Log::new(None));
    assert_eq!(items.traverse(&mut both), ControlFlow::Break(1));
}

#[test]
fn fn_visitor_only_sees_its_type() {
    let items = (Leaf { id: 4 }, 10u64, vec![Leaf { id: 6 }]);
    let mut sum = 0;
    let mut count_leave = 0;
    {
        let mut v = visitor::<Leaf, (), _, _>(
            |leaf: &Leaf| {
                sum += leaf.id;
                ControlFlow::Continue(())
            },
            |_leaf: &Leaf| {
                count_leave += 1;
                ControlFlow::Continue(())
            },
        );
        assert!(items.traverse(&mut v).is_continue());
    }
    assert_eq!(sum, 10);
    assert_eq!(count_leave, 2);
}

#[test]
fn fn_visitor_for_another_type_sees_nothing() {
    let items = vec![Leaf { id: 4 }];
    let mut calls = 0;
    {
        let mut v = visitor_enter::<u64, (), _>(|_n: &u64| {
            calls += 1;
            ControlFlow::Break(())
        });
        assert!(items.traverse(&mut v).is_continue());
    }
    assert_eq!(calls, 0);
}

#[test]
fn fn_visitor_break_ends_traversal() {
    let items = vec![Leaf { id: 1 }, Leaf { id: 2 }, Leaf { id: 3 }];
    let mut seen = Vec::new();
    {
        let mut v = visitor_leave::<Leaf, u32, _>(|leaf: &Leaf| {
            seen.push(leaf.id);
            if leaf.id == 2 {
                ControlFlow::Break(leaf.id * 10)
            } else {
                ControlFlow::Continue(())
            }
        });
        assert_eq!(items.traverse(&mut v), ControlFlow::Break(20));
    }
    assert_eq!(seen, vec![1, 2]);
}

#[test]
fn fn_visitor_mut_changes_nodes_of_its_type() {
    let mut items = vec![Leaf { id: 1 }, Leaf { id: 2 }];
    let mut v = visitor_mut::<Leaf, (), _, _>(
        |leaf: &mut Leaf| {
            leaf.id += 10;
            ControlFlow::Continue(())
        },
        |leaf: &mut Leaf| {
            leaf.id *= 2;
            ControlFlow::Continue(())
        },
    );
    assert!(items.traverse_mut(&mut v).is_continue());
    assert_eq!(items, vec![Leaf { id: 22 }, Leaf { id: 24 }]);

    let mut v = visitor_enter_mut::<Leaf, (), _>(|leaf: &mut Leaf| {
        leaf.id = 0;
        ControlFlow::Continue(())
    });
    let mut one = Some(Leaf { id: 5 });
    assert!(one.traverse_mut(&mut v).is_continue());
    assert_eq!(one, Some(Leaf { id: 0 }));

    let mut v = visitor_leave_mut::<Leaf, u32, _>(|leaf: &mut Leaf| ControlFlow::Break(leaf.id));
    let mut pair = (Leaf { id: 8 }, Leaf { id: 9 });
    assert_eq!(pair.traverse_mut(&mut v), ControlFlow::Break(8));
}

#[test]
fn mutable_traversal_keeps_shape() {
    let mut v = visitor_enter_mut::<u64, (), _>(|n: &mut u64| {
        *n += 1;
        ControlFlow::Continue(())
    });
    let mut numbers = vec![1u64, 2, 3];
    assert!(numbers.traverse_mut(&mut v).is_continue());
    // u64 values are leaves that are not visited: unchanged.
    assert_eq!(numbers, vec![1, 2, 3]);
    let mut err: Result<Leaf, u8> = Err(3);
    assert!(err.traverse_mut(&mut v).is_continue());
    assert_eq!(err, Err(3));
}

#[test]
fn folder_maps_nodes_of_its_type_and_keeps_others() {
    let mut f = folder::<Leaf, (), _, _>(
        |leaf: Leaf| ControlFlow::Continue(Leaf { id: leaf.id + 1 }),
        |leaf: Leaf| ControlFlow::Continue(Leaf { id: leaf.id * 3 }),
    );
    let value = (vec![Leaf { id: 1 }, Leaf { id: 2 }], 7u64);
    let folded = match value.0.traverse_fold(&mut f) {
        ControlFlow::Continue(v) => v,
        ControlFlow::Break(()) => unreachable!(),
    };
    assert_eq!(folded, vec![Leaf { id: 6 }, Leaf { id: 9 }]);
    assert_eq!(value.1.traverse_fold(&mut f), ControlFlow::Continue(7u64));
}

#[test]
fn folder_break_is_returned() {
    let mut f = folder_enter::<Leaf, u32, _>(|leaf: Leaf| {
        if leaf.id == 2 {
            ControlFlow::Break(2)
        } else {
            ControlFlow::Continue(leaf)
        }
    });
    let values = vec![Leaf { id: 1 }, Leaf { id: 2 }, Leaf { id: 3 }];
    assert!(matches!(values.traverse_fold(&mut f), ControlFlow::Break(2)));

    let err: Result<Leaf, Leaf> = Err(Leaf { id: 2 });
    assert!(matches!(
        err.traverse_fold(&mut f),
        ControlFlow::Continue(Err(Leaf { id: 2 }))
    ));

    let boxed = Box::new(Leaf { id: 5 });
    assert!(matches!(boxed.traverse_fold(&mut f), ControlFlow::Continue(b) if b.id == 5));
}

#[test]
fn fn_visitor_answers_by_the_type_test() {
    let mut calls = Vec::new();
    {
        let mut v = visitor::<Leaf, u32, _, _>(
            |leaf: &Leaf| {
                calls.push(leaf.id);
                ControlFlow::Break(leaf.id)
            },
            |_leaf: &Leaf| ControlFlow::Continue(()),
        );
        assert_eq!(v.enter_item(None), ControlFlow::Continue(()));
        assert_eq!(v.enter_item(Some(&Leaf { id: 3 })), ControlFlow::Break(3));
        assert_eq!(v.leave_item(Some(&Leaf { id: 4 })), ControlFlow::Continue(()));
        assert_eq!(v.leave_item(None), ControlFlow::Continue(()));
    }
    assert_eq!(calls, vec![3]);
}

#[test]
fn fn_visitor_mut_answers_by_the_type_test() {
    let mut v = visitor_mut::<Leaf, (), _, _>(
        |leaf: &mut Leaf| {
            leaf.id += 1;
            ControlFlow::Continue(())
        },
        |_leaf: &mut Leaf| ControlFlow::Break(()),
    );
    let mut leaf = Leaf { id: 1 };
    assert_eq!(v.enter_item_mut(Some(&mut leaf)), ControlFlow::Continue(()));
    assert_eq!(leaf, Leaf { id: 2 });
    assert_eq!(v.enter_item_mut(None), ControlFlow::Continue(()));
    assert_eq!(v.leave_item_mut(Some(&mut leaf)), ControlFlow::Break(()));
    assert_eq!(v.leave_item_mut(None), ControlFlow::Continue(()));
}

#[test]
fn fn_folder_without_evidence_hands_node_back() {
    let mut f = folder_leave::<Leaf, (), _>(|_leaf: Leaf| ControlFlow::Break(()));
    let none: Option<SameType<u64, Leaf>> = None;
    assert_eq!(f.leave_node(none, 7u64), ControlFlow::Continue(7u64));
    let none: Option<SameType<String, Leaf>> = None;
    assert_eq!(
        f.enter_node(none, String::from("kept")),
        ControlFlow::Continue(String::from("kept"))
    );
    // Through the trait, a node of another type passes unchanged as well.
    assert_eq!(Folder::leave(&mut f, 9i32), ControlFlow::Continue(9i32));
    assert!(matches!(
        Folder::leave(&mut f, Leaf { id: 1 }),
        ControlFlow::Break(())
    ));
}

#[test]
fn mutable_traversal_stops_and_leaves_the_rest() {
    let mut v = visitor_enter_mut::<Leaf, u32, _>(|leaf: &mut Leaf| {
        if leaf.id == 2 {
            return ControlFlow::Break(2);
        }
        leaf.id *= 10;
        ControlFlow::Continue(())
    });
    let mut items = vec![Leaf { id: 1 }, Leaf { id: 2 }, Leaf { id: 3 }];
    assert_eq!(items.traverse_mut(&mut v), ControlFlow::Break(2));
    assert_eq!(items, vec![Leaf { id: 10 }, Leaf { id: 2 }, Leaf { id: 3 }]);

    let mut triple = (Leaf { id: 1 }, Leaf { id: 2 }, Leaf { id: 3 });
    assert_eq!(triple.traverse_mut(&mut v), ControlFlow::Break(2));
    assert_eq!(triple, (Leaf { id: 10 }, Leaf { id: 2 }, Leaf { id: 3 }));
}

#[test]
fn maps_report_key_then_value_for_every_entry() {
    let mut map = BTreeMap::new();
    map.insert(Leaf { id: 3 }, Leaf { id: 30 });
    map.insert(Leaf { id: 1 }, Leaf { id: 10 });
    let mut log = Log::new(None);
    assert!(map.traverse(&mut log).is_continue());
    let entered: Vec<u32> = log
        .events
        .iter()
        .filter(|(kind, _)| *kind == "enter")
        .map(|(_, id)| *id)
        .collect();
    assert_eq!(entered, vec![1, 10, 3, 30]);

    let mut hashed = HashMap::new();
    hashed.insert(Leaf { id: 5 }, Leaf { id: 50 });
    let mut log = Log::new(None);
    assert!(hashed.traverse(&mut log).is_continue());
    assert_eq!(
        log.events,
        vec![("enter", 5), ("leave", 5), ("enter", 50), ("leave", 50)]
    );

    let mut log = Log::new(Some(50));
    assert_eq!(hashed.traverse(&mut log), ControlFlow::Break(50));
    assert_eq!(log.events.len(), 3);
}

#[test]
fn sets_report_every_item() {
    let set: BTreeSet<Leaf> = vec![Leaf { id: 2 }, Leaf { id: 1 }].into_iter().collect();
    let mut log = Log::new(None);
    assert!(set.traverse(&mut log).is_continue());
    assert_eq!(
        log.events,
        vec![("enter", 1), ("leave", 1), ("enter", 2), ("leave", 2)]
    );

    let hashed: HashSet<Leaf> = vec![Leaf { id: 7 }].into_iter().collect();
    let mut log = Log::new(Some(7));
    assert_eq!(hashed.traverse(&mut log), ControlFlow::Break(7));
}

#[test]
fn deques_traverse_mutably_front_to_back() {
    let mut deque = VecDeque::new();
    deque.push_back(Leaf { id: 2 });
    deque.push_front(Leaf { id: 1 });
    deque.push_back(Leaf { id: 3 });
    let mut seen = Vec::new();
    {
        let mut v = visitor_enter_mut::<Leaf, (), _>(|leaf: &mut Leaf| {
            seen.push(leaf.id);
            leaf.id += 100;
            ControlFlow::Continue(())
        });
        assert!(deque.traverse_mut(&mut v).is_continue());
    }
    assert_eq!(seen, vec![1, 2, 3]);
    assert_eq!(
        deque.into_iter().collect::<Vec<_>>(),
        vec![Leaf { id: 101 }, Leaf { id: 102 }, Leaf { id: 103 }]
    );
}

#[test]
fn fn_visitor_mut_changes_only_nodes_of_its_type() {
    let mut v = visitor_mut::<i32, (), _, _>(
        |x: &mut i32| {
            *x += 1;
            ControlFlow::Continue(())
        },
        |x: &mut i32| {
            *x *= 10;
            ControlFlow::Continue(())
        },
    );
    let mut x = 2i32;
    assert_eq!(VisitorMut::leave_mut(&mut v, &mut x), ControlFlow::Continue(()));
    assert_eq!(x, 20);
    assert_eq!(VisitorMut::enter_mut(&mut v, &mut x), ControlFlow::Continue(()));
    assert_eq!(x, 21);
    let mut other = 2u8;
    assert_eq!(VisitorMut::enter_mut(&mut v, &mut other), ControlFlow::Continue(()));
    assert_eq!(other, 2);
    let mut y = 3i32;
    assert_eq!(v.leave_item_mut(Some(&mut y)), ControlFlow::Continue(()));
    assert_eq!(y, 30);
}

#[test]
fn one_sided_mutable_visitors_leave_the_other_side_alone() {
    let mut v = visitor_enter_mut::<i32, (), _>(|x: &mut i32| {
        *x += 1;
        ControlFlow::Continue(())
    });
    let mut x = 5i32;
    assert_eq!(VisitorMut::leave_mut(&mut v, &mut x), ControlFlow::Continue(()));
    assert_eq!(x, 5);

    let mut v = visitor_leave_mut::<i32, (), _>(|x: &mut i32| {
        *x += 1;
        ControlFlow::Continue(())
    });
    assert_eq!(VisitorMut::enter_mut(&mut v, &mut x), ControlFlow::Continue(()));
    assert_eq!(x, 5);
}

#[test]
fn or_of_mutable_visitors_changes_the_node_in_order() {
    let v1 = visitor_enter_mut::<i32, (), _>(|x: &mut i32| {
        *x += 1;
        ControlFlow::Continue(())
    });
    let v2 = visitor_enter_mut::<i32, (), _>(|x: &mut i32| {
        *x *= 2;
        ControlFlow::Continue(())
    });
    let mut both = traversable::combinator::VisitorMutExt::or(v1, v2);
    let mut x = 1i32;
    assert_eq!(VisitorMut::enter_mut(&mut both, &mut x), ControlFlow::Continue(()));
    assert_eq!(x, 4);
}

#[test]
fn or_is_associative_on_a_traversal() {
    let run = |nested_left: bool| {
        let log = Rc::new(RefCell::new(Vec::new()));
        let mk = |name: &'static str, stop: u32| {
            let log = log.clone();
            visitor_enter::<Leaf, u32, _>(move |leaf: &Leaf| {
                log.borrow_mut().push((name, leaf.id));
                if leaf.id == stop {
                    ControlFlow::Break(leaf.id)
                } else {
                    ControlFlow::Continue(())
                }
            })
        };
        let items = vec![Leaf { id: 1 }, Leaf { id: 2 }, Leaf { id: 3 }];
        let r = if nested_left {
            let mut v = mk("a", 9).or(mk("b", 9)).or(mk("c", 2));
            items.traverse(&mut v)
        } else {
            let mut v = mk("a", 9).or(mk("b", 9).or(mk("c", 2)));
            items.traverse(&mut v)
        };
        let events = log.borrow().clone();
        (r, events)
    };
    let (r1, log1) = run(true);
    let (r2, log2) = run(false);
    assert_eq!(r1, ControlFlow::Break(2));
    assert_eq!(r1, r2);
    assert_eq!(log1, log2);
    assert_eq!(
        log1,
        vec![("a", 1), ("b", 1), ("c", 1), ("a", 2), ("b", 2), ("c", 2)]
    );
}

/// A folder that implements only `leave`: its `enter` is the default.
struct DoubleLeaves {
    entered: usize,
}

impl Folder for DoubleLeaves {
    type Break = ();

    fn leave<T: 'static>(&mut self, this: T) -> ControlFlow<(), T> {
        let mut this = this;
        let node: &mut dyn Any = &mut this;
        if let Some(leaf) = node.downcast_mut::<Leaf>() {
            leaf.id *= 2;
            self.entered += 1;
        }
        ControlFlow::Continue(this)
    }
}

#[test]
fn default_methods_do_nothing_and_continue() {
    let mut f = DoubleLeaves { entered: 0 };
    let items = vec![Leaf { id: 1 }, Leaf { id: 2 }];
    match items.traverse_fold(&mut f) {
        ControlFlow::Continue(out) => assert_eq!(out, vec![Leaf { id: 2 }, Leaf { id: 4 }]),
        ControlFlow::Break(()) => unreachable!(),
    }
    assert_eq!(f.entered, 2);
    assert_eq!(Folder::enter(&mut f, Leaf { id: 7 }), ControlFlow::Continue(Leaf { id: 7 }));
}

#[test]
fn traverse_with_closures_returns_the_closure_break() {
    let items = vec![Leaf { id: 1 }, Leaf { id: 2 }, Leaf { id: 3 }];
    let r = traverse_with(
        &items,
        |leaf: &Leaf| {
            if leaf.id == 2 {
                ControlFlow::Break(leaf.id * 10)
            } else {
                ControlFlow::Continue(())
            }
        },
        |_leaf: &Leaf| ControlFlow::Continue(()),
    );
    assert_eq!(r, ControlFlow::Break(20));
    let r = traverse_with(
        &items,
        |_leaf: &Leaf| ControlFlow::<u32>::Continue(()),
        |_leaf: &Leaf| ControlFlow::Continue(()),
    );
    assert_eq!(r, ControlFlow::Continue(()));
}
