use garfeo::list::List;

fn letters() -> List<char> {
    List::new(vec!['a', 'b', 'c', 'd'])
}

#[test]
fn ends_are_positional() {
    let list = letters();
    assert_eq!(list.len(), 4);
    assert_eq!(*list.first(), 'a');
    assert_eq!(*list.last(), 'd');
    assert_eq!(list.first_ref().index(), 0);
    assert_eq!(list.last_ref().index(), 3);
    let ends = list.list_ends();
    assert_eq!((*ends.first, *ends.last), ('a', 'd'));
    let single = List::new(vec![7]);
    assert_eq!(single.first(), single.last());
    assert_eq!(single.first_ref().index(), single.last_ref().index());
}

#[test]
fn handles_resolve_to_their_items() {
    let list = letters();
    let found: Vec<(usize, char)> = list.refs().iter().map(|item| (item.index(), *item.get())).collect();
    assert_eq!(found, vec![(0, 'a'), (1, 'b'), (2, 'c'), (3, 'd')]);
    assert_eq!(*list.get_ref(2).unwrap().get(), 'c');
    assert!(list.get_ref(4).is_none());
    assert_eq!(list.get_ref(1).unwrap().list().len(), 4);
}

#[test]
fn neighbours_are_one_step_away() {
    let list = letters();
    for item in list.refs() {
        let at = item.index();
        let before = if at > 0 { Some("abcd".chars().nth(at - 1).unwrap()) } else { None };
        let after = "abcd".chars().nth(at + 1);
        assert_eq!(item.prev().copied(), before);
        assert_eq!(item.next().copied(), after);
        assert_eq!(item.prev_ref().map(|other| *other.get()), before);
        assert_eq!(item.next_ref().map(|other| *other.get()), after);
        assert_eq!(item.prev_ref().map(|other| other.index()), at.checked_sub(1));
        let around = item.neighbors();
        assert_eq!(*around.item, *item.get());
        assert_eq!(around.prev.copied(), before);
        assert_eq!(around.next.copied(), after);
    }
}

#[test]
fn handles_chain() {
    let list = letters();
    let third = list.first_ref().next_ref().unwrap().next_ref().unwrap();
    assert_eq!(*third.get(), 'c');
    assert_eq!(*third.prev_ref().unwrap().prev_ref().unwrap().get(), 'a');
    assert!(list.first_ref().prev_ref().is_none());
    assert!(list.last_ref().next_ref().is_none());
    assert!(list.first_ref().prev().is_none());
    assert!(list.last_ref().next().is_none());
}
