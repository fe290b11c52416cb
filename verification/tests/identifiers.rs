//! Tests of identifier formatting and parsing.

use norp::ids::{format_uuid, parse_id, parse_uuid_canonical};
use norp::location::Location;
use std::collections::HashSet;

const SAMPLE: u128 = 0x123e4567_e89b_12d3_a456_426614174000;

#[test]
fn format_uuid_is_canonical_text() {
    assert_eq!(
        format_uuid(SAMPLE),
        b"123e4567-e89b-12d3-a456-426614174000".to_vec()
    );
    assert_eq!(
        format_uuid(0),
        b"00000000-0000-0000-0000-000000000000".to_vec()
    );
    assert_eq!(
        format_uuid(u128::MAX),
        b"ffffffff-ffff-ffff-ffff-ffffffffffff".to_vec()
    );
}

#[test]
fn canonical_parse_inverts_format() {
    for v in [0u128, 1, SAMPLE, u128::MAX, 0x8000_0000_0000_0000_0000_0000_0000_0001] {
        assert_eq!(parse_uuid_canonical(&format_uuid(v)), Some(v));
    }
}

#[test]
fn canonical_parse_rejects_malformed_text() {
    assert_eq!(parse_uuid_canonical(&b"".to_vec()), None);
    assert_eq!(parse_uuid_canonical(&b"123e4567".to_vec()), None);
    assert_eq!(
        parse_uuid_canonical(&b"123e4567ae89ba12d3aa456a426614174000".to_vec()),
        None
    );
    assert_eq!(
        parse_uuid_canonical(&b"123e4567-e89b-12d3-a456-42661417400g".to_vec()),
        None
    );
}

#[test]
fn tolerant_parse_accepts_other_representations() {
    // The simple (unhyphenated) form is no canonical text, so this
    // reaches the tolerant parser and must still yield the value.
    assert_eq!(
        parse_id(&b"123e4567e89b12d3a456426614174000".to_vec()),
        Some(SAMPLE)
    );
    assert_eq!(
        parse_id(&b"urn:uuid:123e4567-e89b-12d3-a456-426614174000".to_vec()),
        Some(SAMPLE)
    );
    assert_eq!(parse_id(&b"not-a-uuid".to_vec()), None);
}

#[test]
fn fresh_identifiers_are_distinct() {
    let mut seen: HashSet<u128> = HashSet::new();
    for _ in 0..10_000 {
        let l = Location::new(b"somewhere".to_vec(), None).unwrap();
        assert!(seen.insert(l.id), "identifier generated twice");
    }
}
