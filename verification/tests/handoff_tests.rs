use nvim_bridge::handoff::Handoff;

#[test]
fn items_leave_in_the_order_in_which_they_came() {
    let mut q: Handoff<u32> = Handoff::new(4);
    assert!(q.is_empty());
    assert_eq!(q.take(), None);
    for i in 0..4 {
        assert_eq!(q.offer(i), Ok(()));
    }
    assert_eq!(q.len(), 4);
    for i in 0..4 {
        assert_eq!(q.take(), Some(i));
    }
    assert_eq!(q.take(), None);
    assert!(q.is_empty());
}

#[test]
fn a_full_queue_hands_the_item_back() {
    let mut q: Handoff<&str> = Handoff::new(2);
    assert_eq!(q.offer("a"), Ok(()));
    assert!(!q.is_full());
    assert_eq!(q.offer("b"), Ok(()));
    assert!(q.is_full());
    assert_eq!(q.offer("c"), Err("c"));
    assert_eq!(q.len(), 2);
    assert_eq!(q.take(), Some("a"));
    assert!(!q.is_full());
    assert_eq!(q.offer("c"), Ok(()));
    assert_eq!(q.take(), Some("b"));
    assert_eq!(q.take(), Some("c"));
}

#[test]
fn a_queue_without_room_takes_nothing() {
    let mut q: Handoff<u8> = Handoff::new(0);
    assert!(q.is_full());
    assert!(q.is_empty());
    assert_eq!(q.offer(1), Err(1));
    assert_eq!(q.take(), None);
}

#[test]
fn what_waits_can_be_dropped() {
    let mut q: Handoff<u8> = Handoff::new(8);
    for i in 0..5 {
        q.offer(i).unwrap();
    }
    assert_eq!(q.discard(), 5);
    assert!(q.is_empty());
    assert_eq!(q.discard(), 0);
    assert_eq!(q.offer(9), Ok(()));
    assert_eq!(q.take(), Some(9));
}
