use wrpc_verified::{nats, nats_next, zenoh};

#[test]
fn nats_subjects() {
    assert_eq!(nats::param_subject("p"), "p.params");
    assert_eq!(nats::result_subject("p"), "p.results");
    assert_eq!(nats::index_path("", &[42, 0]), "42.0");
    assert_eq!(nats::index_path("res", &[1, 23]), "res.1.23");
    assert_eq!(nats::index_path("res", &[]), "res");
    assert_eq!(nats::subscribe_path("", &[Some(1), None, Some(10)]), "1.*.10");
    assert_eq!(nats::invocation_subject("", "", "foo"), "wrpc.0.0.1.foo");
    assert_eq!(nats::invocation_subject("lattice", "wasi:http/handler", "handle"), "lattice.wrpc.0.0.1.wasi:http/handler.handle");
}

#[test]
fn nats_inbox() {
    let a = nats::new_inbox("_INBOX.");
    let b = nats::new_inbox("_INBOX.");
    assert_eq!(a.len(), 7 + 22);
    assert!(a.starts_with("_INBOX."));
    assert!(a[7..].chars().all(|c| c.is_ascii_alphanumeric()));
    assert_ne!(a, b);
}

#[test]
fn nats_subscription_trie() {
    let mut t = nats::IndexTrie::from(&[Some(0), Some(1)], "a");
    assert!(!t.is_empty());
    assert!(t.insert(&[Some(2)], "b"));
    assert!(!t.insert(&[Some(0), Some(1)], "c"));
    assert!(t.insert(&[Some(3), None], "w"));
    assert_eq!(t.take(&[0, 1]), Some("a"));
    assert_eq!(t.take(&[0, 1]), None);
    assert_eq!(t.take(&[3]), None);
    assert_eq!(t.take(&[2]), Some("b"));
    let mut e: nats::IndexTrie<u8> = nats::IndexTrie::Empty;
    assert!(e.is_empty());
    assert_eq!(e.take(&[]), None);
}

#[test]
fn nats_next_subjects() {
    assert_eq!(nats_next::error_subject("x"), "x.error");
    assert_eq!(nats_next::param_subject("x"), "x.params");
    assert_eq!(nats_next::result_subject("x"), "x.results");
    assert_eq!(nats_next::index_path("ignored", &[3, 4]), "3.4");
    assert_eq!(nats_next::subsribe_path("ignored", &[None, Some(7)]), "*.7");
    assert_eq!(nats_next::invocation_subject("pre", "inst", "f"), "pre.wrpc.0.0.1.inst.f");
}

#[test]
fn nats_next_subscriber_tree() {
    let mut t = nats_next::SubscriberTree::from(&[Some(1)], 10u32);
    assert!(t.insert(&[Some(0)], 20));
    assert_eq!(t.take(&[1]), Some(10));
    assert_eq!(t.take(&[0]), Some(20));
    assert_eq!(t.take(&[0]), None);
}

#[test]
fn zenoh_subjects() {
    assert_eq!(zenoh::param_subject("p"), "p/params");
    assert_eq!(zenoh::result_subject("p"), "p/results");
    assert_eq!(zenoh::index_path("p", &[1, 2]), "p/1/2");
    assert_eq!(zenoh::subscribe_path("", &[None]), "*");
    assert_eq!(zenoh::invocation_subject("", "i", "f"), "wrpc.0.0.1/i/f");
    let c = zenoh::child_inbox("base/");
    assert_eq!(c.len(), 5 + 22);
    assert!(c.starts_with("base/"));
    let d = zenoh::child_inbox("base");
    assert!(d.starts_with("base/"));
    assert_eq!(d.len(), 5 + 22);
}

#[test]
fn subscription_trie_from_iter() {
    let mut t = nats::IndexTrie::from_iter(vec![(vec![Some(0)], "a"), (vec![Some(1), Some(2)], "b")]);
    assert!(!t.is_empty());
    assert_eq!(t.take(&[1, 2]), Some("b"));
    assert_eq!(t.take(&[0]), Some("a"));
    assert!(nats::IndexTrie::from_iter(vec![(vec![None], 1), (vec![Some(0)], 2)]).is_empty());
    assert!(nats::IndexTrie::<u8>::from_iter(vec![]).is_empty());
    let mut z = zenoh::IndexTrie::from_iter(vec![(vec![None, Some(3)], 9u8)]);
    assert_eq!(z.take(&[0, 3]), None);
    assert!(!z.insert(&[Some(0)], 1));
}

#[test]
fn subscriber_tree_from_iter() {
    let mut t = nats_next::SubscriberTree::from_iter(vec![
        (vec![Some(2)], 'a'),
        (vec![Some(0), None], 'b'),
        (vec![Some(1)], 'c'),
    ]);
    assert!(!t.is_empty());
    assert_eq!(t.take(&[2]), Some('a'));
    assert_eq!(t.take(&[1]), Some('c'));
    assert_eq!(t.take(&[0]), None);
    assert!(nats_next::SubscriberTree::from_iter(vec![(vec![Some(0)], 1), (vec![Some(0)], 2)]).is_empty());
    assert!(nats_next::SubscriberTree::<u8>::from_iter(vec![]).is_empty());
}
