use wrpc_verified::registry::{Command, Subscriptions};

#[test]
fn registry_commands() {
    let mut subs: Subscriptions<u32> = Subscriptions::new();
    assert_eq!(subs.get("a"), None);
    subs.handle_command(Command::Subscribe("a".to_string(), 1));
    subs.handle_command(Command::Batch(vec![
        Command::Subscribe("b".to_string(), 2),
        Command::Subscribe("a".to_string(), 3),
        Command::Batch(vec![Command::Subscribe("c".to_string(), 4), Command::Unsubscribe("b".to_string())]),
    ]));
    assert_eq!(subs.get("a"), Some(&3));
    assert_eq!(subs.get("b"), None);
    assert_eq!(subs.get("c"), Some(&4));
    subs.unsubscribe("a");
    assert_eq!(subs.get("a"), None);
    subs.unsubscribe("missing");
    assert_eq!(subs.get("c"), Some(&4));
    subs.subscribe("c".to_string(), 5);
    assert_eq!(subs.get("c"), Some(&5));
    subs.handle_command(Command::Batch(vec![Command::Unsubscribe("c".to_string()), Command::Subscribe("c".to_string(), 6)]));
    assert_eq!(subs.get("c"), Some(&6));
}
