use buddy_system::LinkedList;
use buddy_system::Node;

fn make_nodes(count: usize) -> Vec<Node<usize>> {
    let mut objs: Vec<Node<usize>> = Vec::new();
    for _ in 0..count {
        objs.push(Node::new(0usize));
    }
    objs
}

#[test]
fn test_push_front() {
    let mut objs = make_nodes(1024);

    let mut list = LinkedList::new();
    list.push_front(&mut objs, 0);
    assert_eq!(list.len(&objs), 1);
    assert_eq!(list.back(&objs), Some(&0usize));
    assert_eq!(list.front(&objs), Some(&0usize));
}

#[test]
fn test_push_back() {
    let mut objs = make_nodes(1024);

    let mut list = LinkedList::new();
    list.push_back(&mut objs, 1);
    assert_eq!(list.len(&objs), 1);
    assert_eq!(list.back(&objs), Some(&0usize));
    assert_eq!(list.front(&objs), Some(&0usize));
}

#[test]
fn test_pop_front() {
    let mut objs = make_nodes(128);
    let total = objs.len();

    let mut list = LinkedList::new();
    for i in 0..total {
        objs[i].element = i;
        list.push_front(&mut objs, i);
    }

    assert_eq!(list.len(&objs), total);
    assert_eq!(list.back(&objs), Some(&0usize));
    assert_eq!(list.front(&objs), Some(&(total - 1)));

    for i in (0..total).rev() {
        let n = list.pop_front(&mut objs).unwrap();
        assert_eq!(i, objs[n].element);
    }
    assert_eq!(list.len(&objs), 0);
}

#[test]
fn test_accessors() {
    let mut objs = make_nodes(128);
    let total = objs.len();

    let mut list = LinkedList::new();
    for i in 0..total {
        objs[i].element = i;
        list.push_front(&mut objs, i);
    }

    assert_eq!(list.len(&objs), total);
    assert_eq!(list.back(&objs), Some(&0usize));
    assert_eq!(list.pop_back(&mut objs), Some(0));

    objs[total - 1].element = 10;
    assert_eq!(list.front(&objs), Some(&10usize));
    let n = list.pop_front(&mut objs).unwrap();
    assert_eq!(objs[n].element, 10);
    assert_eq!(list.len(&objs), total - 2);

    list.detach(&mut objs, 1);
    assert_eq!(list.len(&objs), total - 3);
    assert_eq!(list.front(&objs), Some(&(total - 2)));
    assert_eq!(list.back(&objs), Some(&2usize));
}

#[test]
fn test_detach_middle() {
    let mut objs = make_nodes(8);
    let total = objs.len();

    let mut list = LinkedList::new();
    for i in 0..total {
        objs[i].element = i;
        list.push_back(&mut objs, i);
    }

    list.detach(&mut objs, 4);
    assert_eq!(list.len(&objs), total - 1);

    let mut seen: Vec<usize> = Vec::new();
    while let Some(n) = list.pop_front(&mut objs) {
        seen.push(objs[n].element);
    }
    assert_eq!(seen, vec![0, 1, 2, 3, 5, 6, 7]);
}

#[test]
fn test_pop_on_empty() {
    let mut objs = make_nodes(4);
    let mut list = LinkedList::new();
    assert_eq!(list.pop_front(&mut objs), None);
    assert_eq!(list.pop_back(&mut objs), None);
    assert_eq!(list.front(&objs), None);
    assert_eq!(list.back(&objs), None);
    assert_eq!(list.len(&objs), 0);
}
