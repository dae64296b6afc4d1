use yachat::chat::{Appearance, Chat};
use yachat::node_id::NodeId;
use yachat::protocol::{ChatError, DeliverLater, NewLine, NewUser, SendText, TextMessage};

fn id(hex40: &str) -> NodeId {
    let mut text = String::from("0x");
    text.push_str(hex40);
    NodeId::parse(&text).unwrap()
}

fn bob_id() -> NodeId {
    id("b0b0000000000000000000000000000000000000")
}

fn text(user: &str, content: &str, timestamp: i64) -> SendText {
    SendText {
        user: String::from(user),
        messages: vec![TextMessage {
            content: String::from(content),
            timestamp,
        }],
    }
}

#[test]
fn first_appearance_registers_then_reappearance_changes_nothing() {
    let mut chat = Chat::new(String::from("alice"), String::from("g1"));
    let first = chat.handle_new_user(NewUser {
        user: String::from("bob"),
        address: bob_id(),
        group: String::from("g1"),
    });
    assert!(matches!(first, Appearance::Appeared));
    assert_eq!(chat.registry.len(), 1);

    let again = chat.handle_new_user(NewUser {
        user: String::from("bob"),
        address: bob_id(),
        group: String::from("g1"),
    });
    assert!(matches!(again, Appearance::Reappeared { pending: None }));
    assert_eq!(chat.registry.len(), 1);

    let third = chat.handle_new_user(NewUser {
        user: String::from("bob"),
        address: bob_id(),
        group: String::from("g1"),
    });
    assert!(matches!(third, Appearance::Reappeared { pending: None }));
    assert_eq!(chat.registry.len(), 1);
}

#[test]
fn own_name_never_produces_an_appearance() {
    let mut chat = Chat::new(String::from("alice"), String::from("g1"));
    let r = chat.handle_new_user(NewUser {
        user: String::from("alice"),
        address: bob_id(),
        group: String::from("g1"),
    });
    assert!(matches!(r, Appearance::SelfIgnored));
    assert_eq!(chat.registry.len(), 0);
}

#[test]
fn failed_sends_queue_and_delivered_sends_do_not() {
    let mut chat = Chat::new(String::from("alice"), String::from("g1"));
    chat.settle_send(bob_id(), text("alice", "one", 1000), true);
    assert_eq!(chat.delivery.len(), 0);
    chat.settle_send(bob_id(), text("alice", "two", 2000), false);
    assert_eq!(chat.delivery.len(), 1);
}

#[test]
fn three_failures_queue_in_order_and_drain_as_one_batch() {
    let mut chat = Chat::new(String::from("alice"), String::from("g1"));
    let appeared = chat.handle_new_user(NewUser {
        user: String::from("bob"),
        address: bob_id(),
        group: String::from("g1"),
    });
    assert!(matches!(appeared, Appearance::Appeared));

    chat.settle_send(bob_id(), text("alice", "one", 1000), false);
    chat.settle_send(bob_id(), text("alice", "two", 2000), false);
    chat.settle_send(bob_id(), text("alice", "three", 3000), false);
    assert_eq!(chat.delivery.len(), 1);

    let r = chat.handle_new_user(NewUser {
        user: String::from("bob"),
        address: bob_id(),
        group: String::from("g1"),
    });
    match r {
        Appearance::Reappeared {
            pending: Some(batch),
        } => {
            let contents: Vec<&str> = batch.iter().map(|m| m.content.as_str()).collect();
            assert_eq!(contents, vec!["one", "two", "three"]);
        }
        _ => panic!("expected a drained buffer"),
    }
    assert_eq!(chat.delivery.len(), 0);
}

#[test]
fn a_failed_resend_requeues_the_whole_batch() {
    let mut chat = Chat::new(String::from("alice"), String::from("g1"));
    chat.settle_send(bob_id(), text("alice", "one", 1000), false);
    let drained = chat.delivery.take(&bob_id()).unwrap();
    assert_eq!(chat.delivery.len(), 0);
    chat.handle_deliver_later(DeliverLater {
        address: bob_id(),
        messages: SendText {
            user: String::from("alice"),
            messages: drained,
        },
    });
    assert_eq!(chat.delivery.len(), 1);
    let back = chat.delivery.take(&bob_id()).unwrap();
    assert_eq!(back.len(), 1);
    assert_eq!(back[0].content, "one");
}

#[test]
fn unknown_caller_renders_under_claimed_name_and_registry_stays() {
    let chat = Chat::new(String::from("alice"), String::from("g1"));
    let caller = "0xca401000000000000000000000000000000000ca";
    let lines = chat.receive(caller, text("carol", "hi", 0)).unwrap();
    assert_eq!(lines.len(), 1);
    assert!(lines[0].ends_with(" carol > hi"));
    assert_eq!(chat.registry.len(), 0);
}

#[test]
fn known_caller_renders_under_registered_name() {
    let mut chat = Chat::new(String::from("alice"), String::from("g1"));
    chat.handle_new_user(NewUser {
        user: String::from("bob"),
        address: bob_id(),
        group: String::from("g1"),
    });
    let caller = "0xb0b0000000000000000000000000000000000000";
    let lines = chat.receive(caller, text("impostor", "hey", 0)).unwrap();
    assert!(lines[0].ends_with(" bob > hey"));
}

#[test]
fn malformed_caller_is_invalid_node_id() {
    let chat = Chat::new(String::from("alice"), String::from("g1"));
    let r = chat.receive("not-an-identity", text("carol", "hi", 0));
    assert!(matches!(r, Err(ChatError::InvalidNodeId)));
}

#[test]
fn a_typed_line_fans_out_to_every_known_peer() {
    let mut chat = Chat::new(String::from("alice"), String::from("g1"));
    chat.handle_new_user(NewUser {
        user: String::from("bob"),
        address: bob_id(),
        group: String::from("g1"),
    });
    chat.handle_new_user(NewUser {
        user: String::from("carol"),
        address: id("ca401000000000000000000000000000000000ca"),
        group: String::from("g1"),
    });
    let (envelope, addresses) = chat.handle_new_line(NewLine(String::from("hello")));
    assert_eq!(envelope.user, "alice");
    assert_eq!(envelope.messages.len(), 1);
    assert_eq!(envelope.messages[0].content, "hello");
    assert_eq!(addresses.len(), 2);
    assert!(addresses[0] == bob_id());
    assert!(addresses[1] == id("ca401000000000000000000000000000000000ca"));
}

#[test]
fn inbound_batch_renders_every_item_in_arrival_order() {
    let chat = Chat::new(String::from("alice"), String::from("g1"));
    let caller = "0xca401000000000000000000000000000000000ca";
    let envelope = SendText {
        user: String::from("carol"),
        messages: vec![
            TextMessage {
                content: String::from("first"),
                timestamp: 0,
            },
            TextMessage {
                content: String::from("second"),
                timestamp: 1000,
            },
        ],
    };
    let lines = chat.receive(caller, envelope).unwrap();
    assert_eq!(lines.len(), 2);
    assert!(lines[0].ends_with(" carol > first"));
    assert!(lines[1].ends_with(" carol > second"));
}
