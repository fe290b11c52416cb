//! Tests of the session state, the command parser and command
//! execution.

use norp::codec::serialize_world;
use norp::command::Command;
use norp::config::Config;
use norp::error::ProjectError;
use norp::location::Location;
use norp::state::State;
use norp::world::WorldMap;

const A_ID: u128 = 0x123e4567_e89b_12d3_a456_426614174000;
const B_ID: u128 = 0x00000000_0000_0000_0000_000000000007;

fn loc(id: u128, name: &[u8], description: &[u8]) -> Location {
    Location { id, name: name.to_vec(), description: description.to_vec() }
}

fn world_bytes(locs: Vec<Location>) -> Vec<u8> {
    let mut w = WorldMap::new();
    for l in locs {
        w.insert(l);
    }
    serialize_world(&w)
}

fn config() -> Config {
    Config::new(String::from("./data/locations.json"))
}

#[test]
fn config_default_path() {
    assert_eq!(Config::config_file_default(), "./data/norp.config.toml");
    assert_eq!(config().locations_file, "./data/locations.json");
}

#[test]
fn empty_world_fails_construction() {
    match State::new(config(), &b"{}".to_vec()) {
        Err(ProjectError::HashMapFirstKeyError) => {}
        _ => panic!("empty world must fail with the first-key kind"),
    }
}

#[test]
fn malformed_world_fails_construction() {
    match State::new(config(), &b"not json".to_vec()) {
        Err(ProjectError::LocationsFileDeserializeError) => {}
        _ => panic!("malformed file must fail with the deserialize kind"),
    }
}

#[test]
fn starting_location_is_smallest_identifier() {
    let data = world_bytes(vec![loc(A_ID, b"A", b"da"), loc(B_ID, b"B", b"db")]);
    let state = State::new(config(), &data).unwrap();
    assert_eq!(state.get_current_location().unwrap().id, B_ID);
}

#[test]
fn navigation_validity() {
    let data = world_bytes(vec![loc(A_ID, b"A", b"da"), loc(B_ID, b"B", b"db")]);
    let mut state = State::new(config(), &data).unwrap();
    assert!(state.check_location_exists(A_ID));
    assert!(!state.check_location_exists(42));
    assert!(state.set_current_location(A_ID).is_ok());
    assert_eq!(state.get_current_location().unwrap().id, A_ID);
    match state.set_current_location(42) {
        Err(ProjectError::LocationNotFoundError) => {}
        _ => panic!("absent key must fail with the not-found kind"),
    }
    // No partial mutation on failure: still at A.
    assert_eq!(state.get_current_location().unwrap().id, A_ID);
    assert_eq!(state.get_location(B_ID).unwrap().name, b"B".to_vec());
    match state.get_location(42) {
        Err(ProjectError::HashMapGetError(t)) => {
            assert_eq!(t, b"00000000-0000-0000-0000-00000000002a".to_vec());
        }
        _ => panic!("absent key must fail the lookup"),
    }
}

#[test]
fn parser_tokenization() {
    match Command::new(&b"move 123e4567-e89b-12d3-a456-426614174000".to_vec()) {
        Ok(Command::Move(args)) => {
            assert_eq!(
                args,
                vec![b"123e4567-e89b-12d3-a456-426614174000".to_vec()]
            );
        }
        _ => panic!("expected a move command"),
    }
    match Command::new(&b"".to_vec()) {
        Err(ProjectError::CommandNotGivenError) => {}
        _ => panic!("empty line must fail with the empty-input kind"),
    }
    match Command::new(&b"fly north".to_vec()) {
        Err(ProjectError::CommandUnrecognizedError(t)) => {
            assert_eq!(t, b"fly".to_vec());
        }
        _ => panic!("unknown command must fail with the unrecognized kind"),
    }
}

#[test]
fn parser_keeps_empty_tokens() {
    // Splitting is strict: consecutive spaces yield empty tokens.
    match Command::new(&b"move  x".to_vec()) {
        Ok(Command::Move(args)) => {
            assert_eq!(args, vec![b"".to_vec(), b"x".to_vec()]);
        }
        _ => panic!("expected a move command"),
    }
    match Command::new(&b"add_location Garden very nice".to_vec()) {
        Ok(Command::AddLocation(args)) => {
            assert_eq!(
                args,
                vec![b"Garden".to_vec(), b"very".to_vec(), b"nice".to_vec()]
            );
        }
        _ => panic!("expected an add_location command"),
    }
}

#[test]
fn execution_moves_and_rejects() {
    let data = world_bytes(vec![loc(A_ID, b"A", b"da")]);
    let mut state = State::new(config(), &data).unwrap();
    // Add location B through the command pipeline.
    let add = Command::new(&b"add_location B somewhere green".to_vec()).unwrap();
    add.execute(&mut state).unwrap();
    let b_id = state
        .locations
        .locations
        .iter()
        .find(|l| l.name == b"B".to_vec())
        .expect("B was inserted")
        .id;
    assert_eq!(
        state
            .locations
            .locations
            .iter()
            .find(|l| l.name == b"B".to_vec())
            .unwrap()
            .description,
        b"somewhere green".to_vec()
    );
    // An invalid identifier is rejected and the position is unchanged.
    let bad = Command::Move(vec![b"not-a-uuid".to_vec()]);
    match bad.execute(&mut state) {
        Err(ProjectError::LocationInvalidIdError) => {}
        _ => panic!("malformed identifier must fail with the invalid-id kind"),
    }
    assert_eq!(state.get_current_location().unwrap().id, A_ID);
    // Moving to B by its canonical text succeeds.
    let mv = Command::Move(vec![norp::ids::format_uuid(b_id)]);
    mv.execute(&mut state).unwrap();
    assert_eq!(state.get_current_location().unwrap().id, b_id);
    assert_eq!(state.get_current_location().unwrap().name, b"B".to_vec());
}

#[test]
fn execution_argument_errors() {
    let data = world_bytes(vec![loc(A_ID, b"A", b"da")]);
    let mut state = State::new(config(), &data).unwrap();
    match Command::Move(vec![]).execute(&mut state) {
        Err(ProjectError::MoveNoLocationError) => {}
        _ => panic!("missing destination must fail"),
    }
    match Command::Move(vec![norp::ids::format_uuid(99)]).execute(&mut state) {
        Err(ProjectError::LocationNotFoundError) => {}
        _ => panic!("unknown destination must fail"),
    }
    match Command::AddLocation(vec![]).execute(&mut state) {
        Err(ProjectError::StandardError) => {}
        _ => panic!("add_location without a name must fail"),
    }
    match Command::AddLocation(vec![b"".to_vec()]).execute(&mut state) {
        Err(ProjectError::StandardError) => {}
        _ => panic!("add_location with an empty name must fail"),
    }
    assert_eq!(state.get_current_location().unwrap().id, A_ID);
}

#[test]
fn state_save_round_trips_through_new() {
    let data = world_bytes(vec![loc(A_ID, b"A", b"da"), loc(B_ID, b"B", b"db")]);
    let state = State::new(config(), &data).unwrap();
    let saved = state.save();
    let reloaded = State::new(config(), &saved).unwrap();
    assert_eq!(reloaded.locations.locations.len(), 2);
    assert_eq!(reloaded.get_location(A_ID).unwrap().name, b"A".to_vec());
    assert_eq!(reloaded.get_location(B_ID).unwrap().description, b"db".to_vec());
}

#[test]
fn location_defaults_and_render() {
    let l = Location::new(b"X".to_vec(), None).unwrap();
    assert_eq!(l.description, b"A new location.".to_vec());
    let given = Location::new(b"X".to_vec(), Some(b"dusty".to_vec())).unwrap();
    assert_eq!(given.description, b"dusty".to_vec());
    let fixed = loc(A_ID, b"X", b"A new location.");
    assert_eq!(fixed.render(), b"<---X--->\nA new location.".to_vec());
}

#[test]
fn error_classification() {
    assert!(ProjectError::StandardError.is_recoverable());
    assert!(ProjectError::CommandNotGivenError.is_recoverable());
    assert!(ProjectError::CommandUnrecognizedError(b"fly".to_vec()).is_recoverable());
    assert!(ProjectError::MoveNoLocationError.is_recoverable());
    assert!(ProjectError::LocationInvalidIdError.is_recoverable());
    assert!(ProjectError::LocationNotFoundError.is_recoverable());
    assert!(!ProjectError::LocationsFileReadError.is_recoverable());
    assert!(!ProjectError::LocationsFileWriteError.is_recoverable());
    assert!(!ProjectError::LocationsFileDeserializeError.is_recoverable());
    assert!(!ProjectError::LocationsFileSerializeError.is_recoverable());
    assert!(!ProjectError::HashMapGetError(b"k".to_vec()).is_recoverable());
    assert!(!ProjectError::HashMapFirstKeyError.is_recoverable());
    assert!(!ProjectError::LocationNotFoundError.message().is_empty());
}
