//! The textual wire form of identifiers.

use things_server::errors::ListError;
use things_server::id::Id;

#[test]
fn id_text_form() {
    let id = Id::new(1, 2);
    assert_eq!(id.text(), "1:2");
}

#[test]
fn id_text_round_trip() {
    for &(agent, local) in &[
        (0u32, 0u32),
        (1, 2),
        (10, 305),
        (4294967295, 4294967295),
        (1000000, 7),
    ] {
        let id = Id::new(agent, local);
        let parsed = Id::parse(id.text().as_str()).unwrap();
        assert_eq!(parsed, id);
    }
}

#[test]
fn parse_accepts_leading_zeros() {
    assert_eq!(Id::parse("01:002").unwrap(), Id::new(1, 2));
}

#[test]
fn parse_rejects_malformed_text() {
    for text in [
        "", ":", "1:", ":2", "12", "abc", "1:2:3", "a:2", "1:b", "-1:2", "1: 2",
    ] {
        assert_eq!(Id::parse(text), Err(ListError::InvalidId));
    }
}

#[test]
fn parse_rejects_values_past_u32() {
    assert_eq!(Id::parse("4294967296:1"), Err(ListError::InvalidId));
    assert_eq!(Id::parse("1:99999999999999999999"), Err(ListError::InvalidId));
}
