use exercises::linkedlist::{render_chain, LinkedList};

fn list_of(values: &[i32]) -> LinkedList<i32> {
    let mut list = LinkedList::new();
    for v in values {
        list.append(*v);
    }
    list
}

fn contents(list: &LinkedList<i32>) -> Vec<i32> {
    let mut out = Vec::new();
    let mut i = 0usize;
    while let Some(v) = list.find_value(i) {
        out.push(v);
        i += 1;
    }
    out
}

fn forward(list: &LinkedList<i32>) -> Vec<usize> {
    let mut out = Vec::new();
    let mut current = list.head();
    while let Some(slot) = current {
        out.push(slot);
        assert!(out.len() <= 1000);
        current = list.next(slot);
    }
    out
}

fn backward(list: &LinkedList<i32>) -> Vec<usize> {
    let mut out = Vec::new();
    let mut current = list.tail();
    while let Some(slot) = current {
        out.push(slot);
        assert!(out.len() <= 1000);
        current = list.prev(slot);
    }
    out
}

fn check_links(list: &LinkedList<i32>) {
    let fwd = forward(list);
    let mut bwd = backward(list);
    assert_eq!(fwd.len(), bwd.len());
    bwd.reverse();
    assert_eq!(fwd, bwd);
    assert_eq!(fwd.len(), contents(list).len());
    assert_eq!(list.head().is_none(), list.tail().is_none());
    assert_eq!(list.head().is_none(), fwd.is_empty());
    if let Some(h) = list.head() {
        assert_eq!(list.prev(h), None);
    }
    if let Some(t) = list.tail() {
        assert_eq!(list.next(t), None);
    }
    for (i, slot) in fwd.iter().enumerate() {
        if let Some(n) = list.next(*slot) {
            assert_eq!(list.prev(n), Some(*slot));
            assert_eq!(n, fwd[i + 1]);
        }
        if let Some(p) = list.prev(*slot) {
            assert_eq!(list.next(p), Some(*slot));
        }
        for other in fwd.iter().skip(i + 1) {
            assert_ne!(slot, other);
        }
    }
}

#[test]
fn new_list_is_empty() {
    let list: LinkedList<i32> = LinkedList::new();
    assert_eq!(list.head(), None);
    assert_eq!(list.tail(), None);
    assert_eq!(list.find_value(0), None);
    assert_eq!(list.find_index(&1), None);
    check_links(&list);
}

#[test]
fn append_then_find() {
    let list = list_of(&[1, 2, 3]);
    assert_eq!(list.find_index(&2), Some(1));
    assert_eq!(list.find_value(1), Some(2));
    assert_eq!(contents(&list), vec![1, 2, 3]);
    check_links(&list);
}

#[test]
fn delete_middle_value_joins_neighbours() {
    let mut list = list_of(&[1, 2, 3]);
    list.delete_val(2);
    assert_eq!(contents(&list), vec![1, 3]);
    let head = list.head().unwrap();
    assert_eq!(list.next(head), list.tail());
    assert_eq!(list.prev(list.tail().unwrap()), Some(head));
    check_links(&list);
}

#[test]
fn delete_index_on_empty_list_does_nothing() {
    let mut list: LinkedList<i32> = LinkedList::new();
    list.delete_index(0);
    assert_eq!(contents(&list), Vec::<i32>::new());
    assert_eq!(list.head(), None);
    assert_eq!(list.tail(), None);
}

#[test]
fn append_after_index_inserts_behind() {
    let mut list = list_of(&[1, 3]);
    list.append_after_index(0, 2);
    assert_eq!(contents(&list), vec![1, 2, 3]);
    check_links(&list);
}

#[test]
fn delete_tail_by_index() {
    let mut list = list_of(&[1, 2, 3]);
    list.delete_index(2);
    assert_eq!(contents(&list), vec![1, 2]);
    let tail = list.tail().unwrap();
    assert_eq!(list.next(tail), None);
    assert_eq!(list.find_value(1), Some(2));
    check_links(&list);
}

#[test]
fn delete_only_value_empties_list() {
    let mut list = list_of(&[5]);
    list.delete_val(5);
    assert_eq!(contents(&list), Vec::<i32>::new());
    assert_eq!(list.head(), None);
    assert_eq!(list.tail(), None);
}

#[test]
fn single_node_is_head_and_tail() {
    let list = list_of(&[7]);
    assert!(list.head().is_some());
    assert_eq!(list.head(), list.tail());
    let slot = list.head().unwrap();
    assert_eq!(list.next(slot), None);
    assert_eq!(list.prev(slot), None);
}

#[test]
fn find_index_gives_first_of_equal_values() {
    let list = list_of(&[4, 9, 4, 9]);
    assert_eq!(list.find_index(&9), Some(1));
    assert_eq!(list.find_index(&4), Some(0));
    assert_eq!(list.find_index(&5), None);
}

#[test]
fn find_value_past_the_end_is_none() {
    let list = list_of(&[1, 2, 3]);
    assert_eq!(list.find_value(2), Some(3));
    assert_eq!(list.find_value(3), None);
    assert_eq!(list.find_value(usize::MAX), None);
}

#[test]
fn find_round_trip_on_every_value() {
    let list = list_of(&[10, 20, 30, 40]);
    for v in [10, 20, 30, 40] {
        let index = list.find_index(&v).unwrap();
        assert_eq!(list.find_value(index), Some(v));
    }
}

#[test]
fn delete_val_removes_only_first_match() {
    let mut list = list_of(&[1, 2, 1, 2]);
    list.delete_val(2);
    assert_eq!(contents(&list), vec![1, 1, 2]);
    check_links(&list);
}

#[test]
fn delete_val_of_absent_value_does_nothing() {
    let mut list = list_of(&[1, 2, 3]);
    let before = forward(&list);
    list.delete_val(9);
    assert_eq!(contents(&list), vec![1, 2, 3]);
    assert_eq!(forward(&list), before);
}

#[test]
fn delete_head_by_value_moves_head() {
    let mut list = list_of(&[1, 2, 3]);
    let second = list.next(list.head().unwrap());
    list.delete_val(1);
    assert_eq!(contents(&list), vec![2, 3]);
    assert_eq!(list.head(), second);
    assert_eq!(list.prev(list.head().unwrap()), None);
    check_links(&list);
}

#[test]
fn delete_index_head_middle_and_out_of_range() {
    let mut list = list_of(&[1, 2, 3, 4]);
    list.delete_index(4);
    assert_eq!(contents(&list), vec![1, 2, 3, 4]);
    list.delete_index(0);
    assert_eq!(contents(&list), vec![2, 3, 4]);
    check_links(&list);
    list.delete_index(1);
    assert_eq!(contents(&list), vec![2, 4]);
    check_links(&list);
}

#[test]
fn append_after_tail_moves_tail() {
    let mut list = list_of(&[1, 2]);
    list.append_after_index(1, 3);
    assert_eq!(contents(&list), vec![1, 2, 3]);
    assert_eq!(list.find_value(2), Some(3));
    let tail = list.tail().unwrap();
    assert_eq!(list.next(tail), None);
    check_links(&list);
}

#[test]
fn append_before_head_moves_head() {
    let mut list = list_of(&[2, 3]);
    list.append_before_index(0, 1);
    assert_eq!(contents(&list), vec![1, 2, 3]);
    let head = list.head().unwrap();
    assert_eq!(list.prev(head), None);
    check_links(&list);
}

#[test]
fn append_before_middle() {
    let mut list = list_of(&[1, 3]);
    list.append_before_index(1, 2);
    assert_eq!(contents(&list), vec![1, 2, 3]);
    check_links(&list);
}

#[test]
fn insertion_past_the_end_does_nothing() {
    let mut list = list_of(&[1, 2]);
    list.append_after_index(2, 9);
    list.append_before_index(2, 9);
    list.append_after_index(usize::MAX, 9);
    assert_eq!(contents(&list), vec![1, 2]);
    let mut empty: LinkedList<i32> = LinkedList::new();
    empty.append_after_index(0, 1);
    empty.append_before_index(0, 1);
    assert_eq!(contents(&empty), Vec::<i32>::new());
    assert_eq!(empty.head(), None);
}

#[test]
fn slots_of_remaining_nodes_stay() {
    let mut list = list_of(&[1, 2, 3]);
    let before = forward(&list);
    list.delete_index(1);
    assert_eq!(forward(&list), vec![before[0], before[2]]);
    list.append(4);
    let after = forward(&list);
    assert_eq!(after[0], before[0]);
    assert_eq!(after[1], before[2]);
    assert_eq!(contents(&list), vec![1, 3, 4]);
    check_links(&list);
}

#[test]
fn mixed_operations_keep_the_chain_consistent() {
    let mut list: LinkedList<i32> = LinkedList::new();
    let mut model: Vec<i32> = Vec::new();
    for step in 0..200i32 {
        let k = ((step * 7 + 3) % 11) as usize;
        match step % 5 {
            0 => {
                list.append(step);
                model.push(step);
            }
            1 => {
                list.append_after_index(k, step);
                if k < model.len() {
                    model.insert(k + 1, step);
                }
            }
            2 => {
                list.append_before_index(k, step);
                if k < model.len() {
                    model.insert(k, step);
                }
            }
            3 => {
                list.delete_index(k);
                if k < model.len() {
                    model.remove(k);
                }
            }
            _ => {
                let v = step - 4;
                list.delete_val(v);
                if let Some(p) = model.iter().position(|x| *x == v) {
                    model.remove(p);
                }
            }
        }
        assert_eq!(contents(&list), model);
        check_links(&list);
    }
}

#[test]
fn print_list_of_numbers() {
    let list = list_of(&[1, 2, 3]);
    assert_eq!(list.print_list(), "\n1 -> 2 -> 3 -> None\n");
}

#[test]
fn print_list_of_empty_list() {
    let list: LinkedList<i32> = LinkedList::new();
    assert_eq!(list.print_list(), "\nNone\n");
}

#[test]
fn print_list_of_strings_uses_debug_form() {
    let mut list: LinkedList<String> = LinkedList::new();
    list.append(String::from("a"));
    list.append(String::from("b c"));
    assert_eq!(list.print_list(), "\n\"a\" -> \"b c\" -> None\n");
}

#[test]
fn print_list_twice_gives_the_same_text() {
    let list = list_of(&[4, 5]);
    let first = list.print_list();
    let second = list.print_list();
    assert_eq!(first, second);
    assert_eq!(contents(&list), vec![4, 5]);
}

#[test]
fn render_chain_joins_parts() {
    let parts = vec![String::from("x"), String::from("yz")];
    assert_eq!(render_chain(&parts), "\nx -> yz -> None\n");
    assert_eq!(render_chain(&Vec::new()), "\nNone\n");
}

#[test]
fn list_of_strings_finds_and_deletes() {
    let mut list: LinkedList<String> = LinkedList::new();
    list.append(String::from("one"));
    list.append(String::from("two"));
    list.append(String::from("three"));
    assert_eq!(list.find_index(&String::from("two")), Some(1));
    list.delete_val(String::from("two"));
    assert_eq!(list.find_value(1), Some(String::from("three")));
    assert_eq!(list.find_value(2), None);
}

#[test]
fn print_texts_quotes_and_escapes_strings() {
    let mut list: LinkedList<String> = LinkedList::new();
    list.append(String::from("a"));
    list.append(String::from("say \"hi\""));
    list.append(String::from("tab\there"));
    assert_eq!(
        list.print_texts(),
        "\n\"a\" -> \"say \\\"hi\\\"\" -> \"tab\\there\" -> None\n"
    );
    assert_eq!(list.print_texts(), list.print_list());
}

#[test]
fn print_texts_twice_gives_the_same_text() {
    let mut list: LinkedList<String> = LinkedList::new();
    list.append(String::from("x"));
    list.append(String::from("y"));
    let first = list.print_texts();
    let second = list.print_texts();
    assert_eq!(first, second);
    assert_eq!(first, "\n\"x\" -> \"y\" -> None\n");
}
