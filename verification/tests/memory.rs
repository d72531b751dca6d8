use worterbuch::ls::{same_path, LsSubscribers};
use worterbuch::memory::Memory;
use worterbuch::subscribers::{LsSubscriber, Selection, SubscriptionId};

fn path(key: &str) -> Vec<String> {
    key.split('/').map(|s| s.to_owned()).collect()
}

#[test]
fn a_value_is_new_until_it_was_seen() {
    let mut memory = Memory::new();
    let id = SubscriptionId::new(1, 1);
    let other = SubscriptionId::new(1, 2);
    assert_eq!(None, memory.last(id, &path("a")));
    assert!(memory.observe(id, &path("a"), &"1".to_owned()));
    assert!(!memory.observe(id, &path("a"), &"1".to_owned()));
    assert!(memory.observe(other, &path("a"), &"1".to_owned()));
    assert!(memory.observe(id, &path("a/b"), &"1".to_owned()));
    assert!(memory.observe(id, &path("a"), &"2".to_owned()));
    assert_eq!(Some(&"2".to_owned()), memory.last(id, &path("a")));
    assert!(memory.observe(id, &path("a"), &"1".to_owned()));
}

#[test]
fn what_is_forgotten_is_new_again() {
    let mut memory = Memory::new();
    let id = SubscriptionId::new(1, 1);
    let other = SubscriptionId::new(2, 1);
    for key in ["a", "b"] {
        memory.observe(id, &path(key), &"1".to_owned());
        memory.observe(other, &path(key), &"1".to_owned());
    }
    memory.forget(id, &path("a"));
    assert_eq!(None, memory.last(id, &path("a")));
    assert_eq!(Some(&"1".to_owned()), memory.last(id, &path("b")));
    assert_eq!(Some(&"1".to_owned()), memory.last(other, &path("a")));
    memory.forget_selected(&Selection::Client(2));
    assert_eq!(None, memory.last(other, &path("a")));
    assert_eq!(None, memory.last(other, &path("b")));
    assert_eq!(Some(&"1".to_owned()), memory.last(id, &path("b")));
    memory.forget_selected(&Selection::Subscription(id));
    assert_eq!(None, memory.last(id, &path("b")));
}

#[test]
fn the_watchers_of_a_parent_are_found_in_their_order() {
    let mut index = LsSubscribers::new();
    index.add(LsSubscriber::new(SubscriptionId::new(1, 1), path("a/b")));
    index.add(LsSubscriber::new(SubscriptionId::new(2, 1), vec![]));
    index.add(LsSubscriber::new(SubscriptionId::new(1, 2), path("a/b")));
    index.add(LsSubscriber::new(SubscriptionId::new(1, 3), path("a")));
    assert_eq!(
        vec![SubscriptionId::new(1, 1), SubscriptionId::new(1, 2)],
        index.subscribers_of(&path("a/b"))
    );
    assert_eq!(vec![SubscriptionId::new(2, 1)], index.subscribers_of(&vec![]));
    assert_eq!(
        Vec::<SubscriptionId>::new(),
        index.subscribers_of(&path("b"))
    );
    assert!(index.remove_selected(&Selection::Subscription(SubscriptionId::new(1, 1))));
    assert!(!index.remove_selected(&Selection::Subscription(SubscriptionId::new(1, 1))));
    assert_eq!(
        vec![SubscriptionId::new(1, 2)],
        index.subscribers_of(&path("a/b"))
    );
    assert!(index.remove_selected(&Selection::Client(1)));
    assert_eq!(
        Vec::<SubscriptionId>::new(),
        index.subscribers_of(&path("a"))
    );
    assert_eq!(vec![SubscriptionId::new(2, 1)], index.subscribers_of(&vec![]));
    assert!(same_path(&path("a/b"), &path("a/b")));
    assert!(!same_path(&path("a/b"), &path("a/c")));
    assert!(!same_path(&path("a/b"), &path("a")));
}
