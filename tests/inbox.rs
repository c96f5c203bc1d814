use swirl_runtime::inbox::Inbox;

#[test]
fn arrivals_are_taken_once_by_key() {
    let mut inbox: Inbox<u32> = Inbox::new();
    inbox.insert(0, "p1".to_string(), 10);
    inbox.insert(1, "p1".to_string(), 11);
    inbox.insert(0, "p2".to_string(), 12);
    assert!(inbox.contains(0, &"p1".to_string()));
    assert!(!inbox.contains(2, &"p1".to_string()));
    assert_eq!(inbox.take(1, &"p1".to_string()), Some(11));
    assert_eq!(inbox.take(1, &"p1".to_string()), None);
    assert_eq!(inbox.take(0, &"p2".to_string()), Some(12));
    assert_eq!(inbox.take(0, &"p1".to_string()), Some(10));
}

#[test]
fn a_second_arrival_under_one_key_replaces_the_first() {
    let mut inbox: Inbox<&str> = Inbox::new();
    inbox.insert(3, "m".to_string(), "first");
    inbox.insert(3, "m".to_string(), "second");
    assert_eq!(inbox.take(3, &"m".to_string()), Some("second"));
    assert!(!inbox.contains(3, &"m".to_string()));
}
