use yachat::delivery::DeliveryQueue;
use yachat::node_id::NodeId;
use yachat::protocol::TextMessage;
use yachat::registry::Registry;

fn bob() -> NodeId {
    NodeId::parse("0xb0b0000000000000000000000000000000000000").unwrap()
}

fn msg(content: &str) -> TextMessage {
    TextMessage {
        content: String::from(content),
        timestamp: 0,
    }
}

#[test]
fn record_appearance_inserts_once_and_resolves() {
    let mut r = Registry::new();
    assert_eq!(r.resolve(&bob()), None);
    assert!(!r.record_appearance(String::from("bob"), bob()));
    assert!(r.record_appearance(String::from("bob"), bob()));
    assert_eq!(r.len(), 1);
    assert_eq!(r.resolve(&bob()).as_deref(), Some("bob"));
}

#[test]
fn all_peers_snapshots_in_registration_order() {
    let mut r = Registry::new();
    r.record_appearance(
        String::from("bob"),
        NodeId::parse("0xb0b0000000000000000000000000000000000000").unwrap(),
    );
    r.record_appearance(
        String::from("carol"),
        NodeId::parse("0xca401000000000000000000000000000000000ca").unwrap(),
    );
    let peers = r.all_peers();
    assert_eq!(peers.len(), 2);
    assert_eq!(peers[0].name, "bob");
    assert_eq!(peers[1].name, "carol");
}

#[test]
fn an_empty_batch_creates_no_buffer() {
    let mut q = DeliveryQueue::new();
    q.queue(bob(), Vec::new());
    assert_eq!(q.len(), 0);
    assert_eq!(q.take(&bob()).map(|v| v.len()), None);
}

#[test]
fn batches_accumulate_in_order_and_drain_whole() {
    let mut q = DeliveryQueue::new();
    q.queue(bob(), vec![msg("one")]);
    q.queue(bob(), vec![msg("two"), msg("three")]);
    assert_eq!(q.len(), 1);
    let drained = q.take(&bob()).unwrap();
    let contents: Vec<&str> = drained.iter().map(|m| m.content.as_str()).collect();
    assert_eq!(contents, vec!["one", "two", "three"]);
    assert!(q.take(&bob()).is_none());
}
