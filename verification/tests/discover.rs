use yachat::discover::{
    discovery_properties, process_batch, Discovery, PollAction, Proposal, SubscriptionState,
    POLL_BACKOFF_SECS,
};
use yachat::protocol::DiscoveryError;

fn proposal(issuer: &str, name: Option<&str>) -> Proposal {
    Proposal {
        issuer: String::from(issuer),
        display_name: name.map(String::from),
    }
}

const BOB: &str = "0xb0b0000000000000000000000000000000000000";
const CAROL: &str = "0xca401000000000000000000000000000000000ca";

#[test]
fn join_with_both_publishes_becomes_active() {
    let mut d = Discovery::new();
    d.begin_join(String::from("alice"), String::from("g1"));
    assert!(matches!(d.subs[0].state, SubscriptionState::Requested));
    let r = d.complete_join(
        "g1",
        Some(String::from("offer-1")),
        Some(String::from("demand-1")),
    );
    assert!(r.is_ok());
    assert_eq!(d.subs.len(), 1);
    assert!(matches!(d.subs[0].state, SubscriptionState::Active));
    assert_eq!(d.subs[0].offer_id.as_deref(), Some("offer-1"));
    assert_eq!(d.subs[0].demand_id.as_deref(), Some("demand-1"));
}

#[test]
fn join_with_one_failed_publish_retains_nothing() {
    let mut d = Discovery::new();
    d.begin_join(String::from("alice"), String::from("g1"));
    d.complete_join(
        "g1",
        Some(String::from("offer-1")),
        Some(String::from("demand-1")),
    )
    .unwrap();
    d.begin_join(String::from("alice"), String::from("g2"));
    let r = d.complete_join("g2", Some(String::from("offer-2")), None);
    assert!(matches!(r, Err(DiscoveryError::PublishFailed)));
    assert_eq!(d.subs.len(), 1);
    assert_eq!(d.subs[0].group, "g1");
}

#[test]
fn a_poll_error_means_backoff_and_the_subscription_stays() {
    let mut d = Discovery::new();
    d.begin_join(String::from("alice"), String::from("g1"));
    d.complete_join(
        "g1",
        Some(String::from("offer-1")),
        Some(String::from("demand-1")),
    )
    .unwrap();
    let action = d.handle_poll(0, Err(DiscoveryError::PublishFailed));
    match action {
        PollAction::Backoff(secs) => assert_eq!(secs, POLL_BACKOFF_SECS),
        _ => panic!("expected a backoff"),
    }
    assert_eq!(d.subs.len(), 1);
    assert!(matches!(d.subs[0].state, SubscriptionState::Active));
}

#[test]
fn a_malformed_proposal_does_not_block_the_rest_of_the_batch() {
    let batch = vec![
        proposal(BOB, Some("bob")),
        proposal(BOB, None),
        proposal("0xnothex", Some("dave")),
        proposal(CAROL, Some("alice")),
        proposal(CAROL, Some("carol")),
    ];
    let events = process_batch("alice", "g1", batch);
    let names: Vec<&str> = events.iter().map(|e| e.user.as_str()).collect();
    assert_eq!(names, vec!["bob", "carol"]);
    assert_eq!(events[0].group, "g1");
}

#[test]
fn own_name_produces_no_event() {
    let events = process_batch("alice", "g1", vec![proposal(BOB, Some("alice"))]);
    assert!(events.is_empty());
}

#[test]
fn a_successful_poll_dispatches_the_batch_events() {
    let mut d = Discovery::new();
    d.begin_join(String::from("alice"), String::from("g1"));
    d.complete_join(
        "g1",
        Some(String::from("offer-1")),
        Some(String::from("demand-1")),
    )
    .unwrap();
    let action = d.handle_poll(0, Ok(vec![proposal(BOB, Some("bob"))]));
    match action {
        PollAction::Dispatch(events) => {
            assert_eq!(events.len(), 1);
            assert_eq!(events[0].user, "bob");
        }
        _ => panic!("expected a dispatch"),
    }
}

#[test]
fn shutdown_releases_both_legs_then_closes() {
    let mut d = Discovery::new();
    d.begin_join(String::from("alice"), String::from("g1"));
    d.complete_join(
        "g1",
        Some(String::from("offer-1")),
        Some(String::from("demand-1")),
    )
    .unwrap();
    let (offers, demands) = d.begin_shutdown();
    assert_eq!(offers, vec![String::from("offer-1")]);
    assert_eq!(demands, vec![String::from("demand-1")]);
    assert!(matches!(d.subs[0].state, SubscriptionState::Closing));
    d.finish_shutdown();
    assert!(matches!(d.subs[0].state, SubscriptionState::Closed));
}

#[test]
fn properties_and_constraints_encode_the_names() {
    let (props, cons) = discovery_properties("alice", "g1");
    assert_eq!(
        props,
        "{\"yachat.talk.me\":\"alice\",\"yachat.talk.group\":\"g1\"}"
    );
    assert_eq!(cons, "(yachat.talk.group=g1)");
}

#[test]
fn properties_escape_what_json_demands() {
    let (props, _) = discovery_properties("a\"b\\c", "g\n1");
    assert_eq!(
        props,
        "{\"yachat.talk.me\":\"a\\\"b\\\\c\",\"yachat.talk.group\":\"g\\n1\"}"
    );
}
