use irc_relay::BroadcastRelay;
use irc_relay::IrcMessage;

#[test]
fn broadcast_reaches_every_registered_client() {
    let mut relay = BroadcastRelay::new();
    relay.register(1);
    relay.register(2);
    relay.register(3);

    let msg = IrcMessage::new(Some("alice"), "PRIVMSG", vec!["#room"], Some("hello"));
    let copies = relay.broadcast(&msg);

    let ids: Vec<u64> = copies.iter().map(|(id, _)| *id).collect();
    assert_eq!(ids, vec![1, 2, 3]);
    for (_, copy) in &copies {
        assert_eq!(copy.to_string(), ":alice PRIVMSG #room :hello");
    }
}

#[test]
fn late_joiner_misses_earlier_broadcast() {
    let mut relay = BroadcastRelay::new();
    relay.register(1);
    relay.register(2);

    let msg = IrcMessage::new(Some("alice"), "PRIVMSG", vec!["#room"], Some("first"));
    let copies = relay.broadcast(&msg);
    assert!(copies.iter().all(|(id, _)| *id != 3));

    relay.register(3);
    let msg = IrcMessage::new(Some("alice"), "PRIVMSG", vec!["#room"], Some("second"));
    let copies = relay.broadcast(&msg);
    assert!(copies.iter().any(|(id, _)| *id == 3));
}

#[test]
fn sender_receives_own_broadcast() {
    let mut relay = BroadcastRelay::new();
    relay.register(7);
    let msg = IrcMessage::new(Some("bob"), "PRIVMSG", vec!["#room"], Some("echo"));
    let copies = relay.broadcast(&msg);
    assert_eq!(copies.len(), 1);
    assert_eq!(copies[0].0, 7);
}

#[test]
fn deregister_drops_stale_entry_and_keeps_others() {
    let mut relay = BroadcastRelay::new();
    relay.register(1);
    relay.register(2);
    relay.register(3);
    relay.deregister(2);
    assert_eq!(relay.registry, vec![1, 3]);

    let msg = IrcMessage::new(None, "NOTICE", vec!["*"], Some("bye"));
    let copies = relay.broadcast(&msg);
    let ids: Vec<u64> = copies.iter().map(|(id, _)| *id).collect();
    assert_eq!(ids, vec![1, 3]);
}

#[test]
fn deregister_on_empty_registry_is_harmless() {
    let mut relay = BroadcastRelay::new();
    relay.deregister(9);
    assert!(relay.registry.is_empty());
}
