use yachat::node_id::NodeId;
use yachat::protocol::ChatError;

#[test]
fn parse_lower_case_round_trips() {
    let text = "0xbabe000000000000000000000000000000000000";
    let id = NodeId::parse(text).unwrap();
    assert_eq!(id.to_hex_string(), text);
}

#[test]
fn parse_upper_case_prints_lower() {
    let id = NodeId::parse("0xBABE0000000000000000000000000000000000FF").unwrap();
    assert_eq!(
        id.to_hex_string(),
        "0xbabe0000000000000000000000000000000000ff"
    );
}

#[test]
fn parse_without_prefix_is_rejected() {
    let r = NodeId::parse("012345678901234567890123456789012345678912");
    assert!(matches!(r, Err(ChatError::InvalidNodeId)));
}

#[test]
fn parse_wrong_length_is_rejected() {
    assert!(matches!(
        NodeId::parse("0xbabe"),
        Err(ChatError::InvalidNodeId)
    ));
    assert!(matches!(NodeId::parse(""), Err(ChatError::InvalidNodeId)));
}

#[test]
fn parse_non_hex_character_is_rejected() {
    let r = NodeId::parse("0xx000000000000000000000000000000000000000");
    assert!(matches!(r, Err(ChatError::InvalidNodeId)));
}

#[test]
fn parse_non_ascii_is_rejected() {
    let r = NodeId::parse("0xé0000000000000000000000000000000000000é");
    assert!(matches!(r, Err(ChatError::InvalidNodeId)));
}

#[test]
fn equal_identities_compare_equal() {
    let a = NodeId::parse("0x0123456789abcdef0123456789abcdef01234567").unwrap();
    let b = NodeId::parse("0x0123456789ABCDEF0123456789ABCDEF01234567").unwrap();
    let c = NodeId::parse("0x0123456789abcdef0123456789abcdef01234568").unwrap();
    assert!(a == b);
    assert!(a != c);
}
