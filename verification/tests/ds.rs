use rand::Rng;
use warehouse::ds::avl::Node;
use warehouse::ds::{BTree, LinkedList, Stack, AVL};

#[test]
fn add_peek() {
    let mut stack: Stack<u32> = Stack::new();

    let value: u32 = 1;

    stack.add(value);

    let last_element = stack.peek().unwrap();

    assert_eq!(&value, last_element);

    // add more and test
    let value: u32 = 2;

    stack.add(value);

    let last_element = stack.peek().unwrap();

    assert_eq!(&value, last_element);
}

#[test]
fn take_is_empty() {
    let mut stack: Stack<u32> = Stack::new();
    let value1: u32 = 1;
    let value2: u32 = 2;

    stack.add(value1);
    stack.add(value2);
    stack.take();

    let last_element = stack.peek().unwrap();

    assert_eq!(&value1, last_element);
    assert!(!stack.is_empty());
    stack.take();
    assert!(stack.is_empty());
}

#[test]
fn stack_is_last_in_first_out() {
    let mut stack: Stack<u8> = Stack::new();
    assert!(stack.is_empty());
    assert_eq!(stack.peek(), None);
    assert_eq!(stack.take(), None);

    stack.add(1);
    stack.add(2);
    stack.add(3);
    assert_eq!(stack.len(), 3);

    assert_eq!(stack.take(), Some(3));
    assert_eq!(stack.take(), Some(2));
    assert_eq!(stack.peek(), Some(&1));
    assert_eq!(stack.take(), Some(1));
    assert_eq!(stack.take(), None);
    assert!(stack.is_empty());
}

#[test]
fn linked_list_add() {
    let mut ll: LinkedList<u8> = LinkedList::new();
    let mut values: Vec<u8> = Vec::new();
    let random_len = rand::thread_rng().gen_range(0..100) as usize;

    for _ in 0..random_len {
        values.push(rand::thread_rng().gen_range(0..255))
    }

    for index in 0..random_len {
        ll.add(values[index]);
    }

    let ll_to_vec = ll.collect();

    assert_eq!(ll_to_vec.len(), random_len);

    for index in 0..random_len {
        assert_eq!(ll_to_vec[random_len - index - 1], values[index]);
    }
}

#[test]
fn linked_list_remove() {
    let mut ll: LinkedList<u8> = LinkedList::new();
    let first: u8 = 1;
    let middle: u8 = 128;
    let last: u8 = 255;
    let values: Vec<u8> = vec![first, 10, 10, 10, middle, 10, 10, 10, last];

    for index in 0..values.len() {
        ll.add(values[index]);
    }

    ll.remove(first);
    ll.remove(middle);
    ll.remove(last);

    let to_vec = ll.collect();

    assert_eq!(to_vec.len(), values.len() - 3);

    for value in to_vec {
        assert_eq!(value, 10)
    }
}

#[test]
fn linked_list_removes_first_match_only() {
    let mut ll: LinkedList<u32> = LinkedList::new();
    assert!(ll.is_empty());
    assert_eq!(ll.collect(), Vec::<u32>::new());

    for value in [1, 2, 3, 2, 1] {
        ll.add(value);
    }
    assert!(!ll.is_empty());
    assert_eq!(ll.collect(), vec![1, 2, 3, 2, 1]);

    ll.remove(2);
    assert_eq!(ll.collect(), vec![1, 3, 2, 1]);

    ll.remove(7);
    assert_eq!(ll.collect(), vec![1, 3, 2, 1]);

    ll.remove(1);
    ll.remove(1);
    ll.remove(3);
    ll.remove(2);
    assert!(ll.is_empty());
    ll.remove(2);
    assert!(ll.is_empty());
}

#[test]
fn btree_add() {
    let mut btree: BTree<u64, u32> = BTree::new();
    let key: u64 = 1;
    let values: Vec<u32> = vec![10, 20, 2, 3];

    for value in values.clone() {
        btree.add(key, value);
    }

    let get_values = btree.collect(key);

    assert_eq!(get_values.len(), values.len());

    btree.remove(key, 2);

    let get_values = btree.collect(key);

    assert_eq!(get_values.len(), values.len() - 1);
}

#[test]
fn btree_files_values_under_their_keys() {
    let mut btree: BTree<u64, u32> = BTree::new();
    assert_eq!(btree.collect(5), Vec::<u32>::new());

    btree.add(5, 50);
    btree.add(3, 30);
    btree.add(5, 51);

    assert_eq!(btree.collect(5), vec![51, 50]);
    assert_eq!(btree.collect(3), vec![30]);
    assert_eq!(btree.collect(4), Vec::<u32>::new());

    btree.remove(4, 30);
    btree.remove(3, 31);
    assert_eq!(btree.collect(3), vec![30]);

    btree.remove(5, 50);
    assert_eq!(btree.collect(5), vec![51]);
    btree.remove(5, 51);
    assert_eq!(btree.collect(5), Vec::<u32>::new());
}

#[test]
fn avl_add() {
    let nodes: Vec<i32> = vec![21, 26, 30, 9, 4, 14, 28, 18, 15, 10, 2, 3, 7];
    let mut root: Option<Box<Node<i32>>> = Some(Box::new(Node::new(nodes[0])));

    for index in 1..nodes.len() {
        let val = nodes[index];

        root = root.unwrap().add(val);
    }

    assert_eq!(root.unwrap().get_value(), 14);
}

#[test]
fn avl_remove() {
    let nodes: Vec<i32> = vec![21, 26, 30, 9, 4, 14, 28, 18, 15, 10, 2, 3, 7];
    let mut root: Option<Box<Node<i32>>> = Some(Box::new(Node::new(nodes[0])));

    for index in 1..nodes.len() {
        let val = nodes[index];

        root = root.unwrap().add(val);
    }

    root = root.unwrap().remove(14);
    root = root.unwrap().remove(18);
    root = root.unwrap().remove(21);
    root = root.unwrap().remove(26);
    root = root.unwrap().remove(28);
    root = root.unwrap().remove(2);
    root = root.unwrap().remove(9);
    root = root.unwrap().remove(10);
    root = root.unwrap().remove(15);

    assert_eq!(root.unwrap().get_value(), 4);
}

#[test]
fn avl_keeps_a_set_in_balance() {
    let mut tree: AVL<u32> = AVL::new();
    assert!(tree.is_empty());
    assert_eq!(tree.get_root(), None);

    // values in rising order: without turning, the root would stay the first
    for value in 1..=7 {
        tree.add(value);
    }
    assert!(!tree.is_empty());
    assert_eq!(tree.get_root(), Some(&4));

    // a value that is there is not added again
    tree.add(4);
    tree.remove(4);
    assert_eq!(tree.get_root(), Some(&5));
    tree.remove(4);
    assert_eq!(tree.get_root(), Some(&5));

    for value in [1, 2, 3, 5, 6] {
        tree.remove(value);
    }
    assert_eq!(tree.get_root(), Some(&7));
    tree.remove(7);
    assert!(tree.is_empty());
    assert_eq!(tree.get_root(), None);
    tree.remove(7);
    assert!(tree.is_empty());
}

#[test]
fn avl_turns_twice_where_a_subtree_leans_inward() {
    // 3, 1, 2: the left subtree leans to the right
    let mut tree: AVL<i64> = AVL::new();
    for value in [3, 1, 2] {
        tree.add(value);
    }
    assert_eq!(tree.get_root(), Some(&2));

    // 1, 3, 2: the right subtree leans to the left
    let mut tree: AVL<i64> = AVL::new();
    for value in [1, 3, 2] {
        tree.add(value);
    }
    assert_eq!(tree.get_root(), Some(&2));

    // taking from the short side turns the tall one
    let mut tree: AVL<i64> = AVL::new();
    for value in [5, 3, 8, 2, 4, 9, 1] {
        tree.add(value);
    }
    assert_eq!(tree.get_root(), Some(&5));
    tree.remove(9);
    tree.remove(8);
    assert_eq!(tree.get_root(), Some(&3));
}
