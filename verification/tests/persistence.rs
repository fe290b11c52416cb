//! Tests of the world-file codec: the save/load round trip and the
//! error taxonomy of loading.

use norp::codec::{parse_world, serialize_world};
use norp::error::ProjectError;
use norp::location::Location;
use norp::world::WorldMap;

const A_ID: u128 = 0x123e4567_e89b_12d3_a456_426614174000;
const B_ID: u128 = 0x00000000_0000_0000_0000_000000000007;

fn loc(id: u128, name: &[u8], description: &[u8]) -> Location {
    Location { id, name: name.to_vec(), description: description.to_vec() }
}

#[test]
fn serialize_one_location_exactly() {
    let mut w = WorldMap::new();
    w.insert(loc(A_ID, b"Kitchen", b"A room."));
    let bytes = serialize_world(&w);
    let expected = b"{\"123e4567-e89b-12d3-a456-426614174000\":{\"id\":\"123e4567-e89b-12d3-a456-426614174000\",\"name\":\"Kitchen\",\"description\":\"A room.\"}}";
    assert_eq!(bytes, expected.to_vec());
}

#[test]
fn save_then_load_round_trip() {
    let mut w = WorldMap::new();
    w.insert(loc(A_ID, b"Kitchen", b"A room."));
    w.insert(loc(B_ID, b"Garden", b"Green."));
    let bytes = serialize_world(&w);
    let w2 = parse_world(&bytes).expect("round trip must parse");
    assert_eq!(w2.locations.len(), 2);
    for (a, b) in w.locations.iter().zip(w2.locations.iter()) {
        assert_eq!(a.id, b.id);
        assert_eq!(a.name, b.name);
        assert_eq!(a.description, b.description);
    }
}

#[test]
fn round_trip_keeps_escaped_and_raw_bytes() {
    let mut w = WorldMap::new();
    w.insert(loc(B_ID, b"a\"b\\c", b"line one\nline two\ttabbed"));
    let bytes = serialize_world(&w);
    let w2 = parse_world(&bytes).expect("escaped text must parse");
    assert_eq!(w2.locations[0].name, b"a\"b\\c".to_vec());
    assert_eq!(
        w2.locations[0].description,
        b"line one\nline two\ttabbed".to_vec()
    );
}

#[test]
fn empty_object_loads_as_empty_world() {
    let w = parse_world(&b"{}".to_vec()).expect("{} is well formed");
    assert_eq!(w.locations.len(), 0);
}

#[test]
fn whitespace_around_the_object_is_tolerated() {
    let w = parse_world(&b" \n{}\n".to_vec()).expect("padded {} is well formed");
    assert_eq!(w.locations.len(), 0);
    let mut src = WorldMap::new();
    src.insert(loc(B_ID, b"Garden", b"Green."));
    let mut bytes = serialize_world(&src);
    bytes.insert(0, b'\n');
    bytes.push(b'\n');
    let w2 = parse_world(&bytes).expect("padded entry list is well formed");
    assert_eq!(w2.locations[0].name, b"Garden".to_vec());
    // Whitespace inside the object is not part of the saved shape.
    assert!(parse_world(&b"{ }".to_vec()).is_err());
}

#[test]
fn malformed_bytes_fail_with_deserialize_error() {
    for bad in [
        &b""[..],
        b"garbage",
        b"{",
        b"{}x",
        b"{\"no-uuid\":{\"id\":\"x\",\"name\":\"a\",\"description\":\"b\"}}",
    ] {
        match parse_world(&bad.to_vec()) {
            Err(ProjectError::LocationsFileDeserializeError) => {}
            other => panic!("expected deserialize failure, got {:?}", other.is_ok()),
        }
    }
}

#[test]
fn empty_name_is_rejected_on_load() {
    let mut w = WorldMap::new();
    w.insert(loc(B_ID, b"x", b"d"));
    let mut bytes = serialize_world(&w);
    // Blank out the one-byte name, leaving an empty name field.
    let pos = bytes.windows(9).position(|s| s == b"\"name\":\"x").unwrap();
    bytes.remove(pos + 8);
    match parse_world(&bytes) {
        Err(ProjectError::LocationsFileDeserializeError) => {}
        _ => panic!("empty name must be rejected"),
    }
}

#[test]
fn insert_overwrites_shared_identifier() {
    let mut w = WorldMap::new();
    w.insert(loc(A_ID, b"Old", b"d1"));
    w.insert(loc(A_ID, b"New", b"d2"));
    assert_eq!(w.locations.len(), 1);
    assert_eq!(w.locations[0].name, b"New".to_vec());
}
