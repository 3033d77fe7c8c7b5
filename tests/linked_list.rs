use comet::linked_list::{deref_node, LinkedList, Node};
use std::rc::Rc;

#[test]
fn test_doubly_linked_list() {
    {
        let mut list = LinkedList::new();
        let ptr1 = list.push_back(1);
        println!("len= {}, ptr1= {:?}", list.len(), ptr1);
        assert_eq!(list.len(), 1);
    }
    {
        let mut list = LinkedList::new();
        let ptr1 = list.push_front(2);
        let ptr2 = list.push_front(3);
        println!("len= {}, ptr1= {:?}, ptr2= {:?}", list.len(), ptr1, ptr2);

        println!("{:?}", list.remove(ptr1));
        println!("{:?}", list.remove(ptr2));
        println!("len= {}, ptr1= {:?}, ptr2= {:?}", list.len(), ptr1, ptr2);
        assert!(list.is_empty());
    }

    // test drop node
    {
        let mut list = LinkedList::new();
        let obj = Rc::new(Node::new(1));
        assert_eq!(Rc::strong_count(&obj), 1);

        let ptr1 = list.push_front(Rc::clone(&obj));
        assert_eq!(Rc::strong_count(&obj), 2);

        list.remove(ptr1);
        assert_eq!(Rc::strong_count(&obj), 1)
    }
}

fn values(list: &LinkedList<u32>) -> Vec<u32> {
    let mut out = Vec::new();
    let mut cur = list.front();
    while let Some(p) = cur {
        out.push(*deref_node(list, p));
        cur = list.next(p);
    }
    out
}

#[test]
fn move_and_remove_keep_order() {
    let mut list = LinkedList::new();
    let a = list.push_back(1);
    let b = list.push_back(2);
    let c = list.push_back(3);
    assert_eq!(values(&list), vec![1, 2, 3]);
    list.move_to_back(a);
    assert_eq!(values(&list), vec![2, 3, 1]);
    assert_eq!(list.len(), 3);
    list.move_to_front(c);
    assert_eq!(values(&list), vec![3, 2, 1]);
    assert_eq!(list.front(), Some(c));
    assert_eq!(list.back(), Some(a));
    assert_eq!(list.remove(b), Some(2));
    assert_eq!(list.remove(b), None);
    assert_eq!(values(&list), vec![3, 1]);
    let d = list.push_back(4);
    assert_eq!(d, b);
    assert_eq!(values(&list), vec![3, 1, 4]);
    list.set(d, 5);
    assert_eq!(values(&list), vec![3, 1, 5]);
    assert_eq!(list.next(d), None);
}

#[test]
fn empty_list_has_no_ends() {
    let list: LinkedList<u8> = LinkedList::new();
    assert!(list.is_empty());
    assert_eq!(list.front(), None);
    assert_eq!(list.back(), None);
    let n: Node<u8> = Node::null();
    drop(n);
}
