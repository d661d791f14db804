use std::any::Any;
use std::ops::ControlFlow;

use traversable::Traversable;
use traversable::TraversableMut;
use traversable::Visitor;
use traversable::VisitorMut;
use traversable::function::visitor;
use traversable::function::visitor_enter;
use traversable::function::visitor_enter_mut;
use traversable::function::visitor_leave;
use traversable::function::visitor_leave_mut;
use traversable::function::visitor_mut;

// A directory of files; `cache_id` is skipped by the traversal.
struct Directory {
    name: String,
    files: Vec<File>,
    #[allow(dead_code)]
    cache_id: u64,
}

impl Traversable for Directory {
    fn traverse<V: Visitor>(&self, visitor: &mut V) -> ControlFlow<V::Break> {
        visitor.enter(self)?;
        self.name.traverse(visitor)?;
        self.files.traverse(visitor)?;
        visitor.leave(self)?;
        ControlFlow::Continue(())
    }
}

struct File {
    name: String,
    size: u64,
}

impl Traversable for File {
    fn traverse<V: Visitor>(&self, visitor: &mut V) -> ControlFlow<V::Break> {
        visitor.enter(self)?;
        self.name.traverse(visitor)?;
        self.size.traverse(visitor)?;
        visitor.leave(self)?;
        ControlFlow::Continue(())
    }
}

struct FileCounter {
    count: usize,
    total_size: u64,
}

impl Visitor for FileCounter {
    type Break = ();

    fn enter<T: 'static>(&mut self, node: &T) -> ControlFlow<Self::Break> {
        let node: &dyn Any = node;
        if let Some(file) = node.downcast_ref::<File>() {
            self.count += 1;
            self.total_size += file.size;
        }
        ControlFlow::Continue(())
    }
}

#[test]
fn file_counter_counts_files_and_sizes() {
    let root = Directory {
        name: "root".to_string(),
        files: vec![
            File {
                name: "a.txt".to_string(),
                size: 100,
            },
            File {
                name: "b.rs".to_string(),
                size: 200,
            },
        ],
        cache_id: 12345,
    };

    let mut counter = FileCounter {
        count: 0,
        total_size: 0,
    };
    assert!(root.traverse(&mut counter).is_continue());

    assert_eq!(counter.count, 2);
    assert_eq!(counter.total_size, 300);
}

// A node whose `id` is skipped by the traversal.
struct Node {
    value: i32,
    #[allow(dead_code)]
    id: u32,
}

impl TraversableMut for Node {
    fn traverse_mut<V: VisitorMut>(&mut self, visitor: &mut V) -> ControlFlow<V::Break> {
        visitor.enter_mut(self)?;
        self.value.traverse_mut(visitor)?;
        visitor.leave_mut(self)?;
        ControlFlow::Continue(())
    }
}

struct Incrementer;

impl VisitorMut for Incrementer {
    type Break = ();

    fn enter_mut<T: 'static>(&mut self, node: &mut T) -> ControlFlow<Self::Break> {
        let node: &mut dyn Any = node;
        if let Some(n) = node.downcast_mut::<Node>() {
            n.value += 1;
        }
        ControlFlow::Continue(())
    }
}

#[test]
fn incrementer_increments_node_value() {
    let mut node = Node { value: 10, id: 1 };
    assert!(node.traverse_mut(&mut Incrementer).is_continue());
    assert_eq!(node.value, 11);
}

struct Item {
    value: i32,
}

impl Traversable for Item {
    fn traverse<V: Visitor>(&self, visitor: &mut V) -> ControlFlow<V::Break> {
        visitor.enter(self)?;
        self.value.traverse(visitor)?;
        visitor.leave(self)?;
        ControlFlow::Continue(())
    }
}

impl TraversableMut for Item {
    fn traverse_mut<V: VisitorMut>(&mut self, visitor: &mut V) -> ControlFlow<V::Break> {
        visitor.enter_mut(self)?;
        self.value.traverse_mut(visitor)?;
        visitor.leave_mut(self)?;
        ControlFlow::Continue(())
    }
}

#[test]
fn visitor_from_closures_sums_values() {
    let item = Item { value: 10 };
    let mut total_value = 0;
    {
        let mut visitor = visitor::<Item, (), _, _>(
            |node: &Item| {
                total_value += node.value;
                ControlFlow::Continue(())
            },
            |_node: &Item| ControlFlow::Continue(()),
        );
        assert!(item.traverse(&mut visitor).is_continue());
    }
    assert_eq!(total_value, 10);
}

#[test]
fn visitor_enter_counts_entries() {
    let item = Item { value: 20 };
    let mut count = 0;
    {
        let mut visitor = visitor_enter::<Item, (), _>(|_node: &Item| {
            count += 1;
            ControlFlow::Continue(())
        });
        assert!(item.traverse(&mut visitor).is_continue());
    }
    assert_eq!(count, 1);
}

#[test]
fn visitor_leave_sees_the_node_left() {
    let item = Item { value: 30 };
    let mut visited_leave = false;
    {
        let mut visitor = visitor_leave::<Item, (), _>(|_node: &Item| {
            visited_leave = true;
            ControlFlow::Continue(())
        });
        assert!(item.traverse(&mut visitor).is_continue());
    }
    assert!(visited_leave);
}

#[test]
fn visitor_mut_from_closures_changes_the_node() {
    let mut item = Item { value: 10 };
    let mut visitor = visitor_mut::<Item, (), _, _>(
        |node: &mut Item| {
            node.value += 1;
            ControlFlow::Continue(())
        },
        |_node: &mut Item| ControlFlow::Continue(()),
    );
    assert!(item.traverse_mut(&mut visitor).is_continue());
    assert_eq!(item.value, 11);
}

#[test]
fn visitor_enter_mut_counts_entries() {
    let mut item = Item { value: 20 };
    let mut count = 0;
    {
        let mut visitor = visitor_enter_mut::<Item, (), _>(|_node: &mut Item| {
            count += 1;
            ControlFlow::Continue(())
        });
        assert!(item.traverse_mut(&mut visitor).is_continue());
    }
    assert_eq!(count, 1);
}

#[test]
fn visitor_leave_mut_sees_the_node_left() {
    let mut item = Item { value: 30 };
    let mut visited_leave = false;
    {
        let mut visitor = visitor_leave_mut::<Item, (), _>(|_node: &mut Item| {
            visited_leave = true;
            ControlFlow::Continue(())
        });
        assert!(item.traverse_mut(&mut visitor).is_continue());
    }
    assert!(visited_leave);
}

// A user whose name is traversed through a custom function: its length.
struct User {
    name: String,
}

fn traverse_string_len<V: Visitor>(s: &String, visitor: &mut V) -> ControlFlow<V::Break> {
    s.len().traverse(visitor)
}

impl Traversable for User {
    fn traverse<V: Visitor>(&self, visitor: &mut V) -> ControlFlow<V::Break> {
        visitor.enter(self)?;
        traverse_string_len(&self.name, visitor)?;
        visitor.leave(self)?;
        ControlFlow::Continue(())
    }
}

#[test]
fn custom_traversal_function_is_used_for_the_field() {
    let user = User {
        name: "ada".to_string(),
    };
    let mut users = 0;
    let mut lengths = 0;
    {
        let mut v = visitor_enter::<User, (), _>(|_u: &User| {
            users += 1;
            ControlFlow::Continue(())
        });
        assert!(user.traverse(&mut v).is_continue());
    }
    {
        // A length is a primitive value: the traversal passes over it.
        let mut v = visitor_enter::<usize, (), _>(|_n: &usize| {
            lengths += 1;
            ControlFlow::Continue(())
        });
        assert!(user.traverse(&mut v).is_continue());
    }
    assert_eq!(users, 1);
    assert_eq!(lengths, 0);
}
