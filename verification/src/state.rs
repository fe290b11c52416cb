//! The session state: the world graph plus the current location.
//!
//! The invariant of a well-formed state is that the current location
//! identifier always resolves in the world graph; every operation
//! preserves it.

use crate::codec::{parse_world, pworld, ser_world, serialize_world, wm_insert_all};
use crate::config::Config;
use crate::error::ProjectError;
use crate::ids::{format_uuid, uuid_hyphenated};
use crate::location::{spec_wf_location, Location};
use crate::world::{spec_wm_insert, WorldMap};
use vstd::prelude::*;

verus! {

/// The live state of a run: configuration, world graph, and the
/// identifier of the current location.
pub struct State {
    /// The configuration this state was constructed from.
    pub config: Config,
    /// Identifier of the current location; always a key of the graph
    /// while the state is well formed.
    pub id_current_location: u128,
    /// The world graph.
    pub locations: WorldMap,
}

impl State {
    /// Well-formedness: the graph is well formed and the current
    /// location resolves.
    pub open spec fn wf(self) -> bool {
        &&& self.locations.wf()
        &&& self.locations.as_map().contains_key(self.id_current_location)
    }

    /// Constructs the state from the configuration and the raw bytes
    /// of the world file. Fails with the deserialize error on
    /// malformed bytes, and with the first-key error when the loaded
    /// graph is empty (no current location could be chosen). The
    /// starting location is the smallest identifier of the graph, a
    /// deterministic choice.
    pub fn new(config: Config, locations_data: &Vec<u8>) -> (r: Result<State, ProjectError>)
        ensures
            pworld(locations_data@) is None ==> (r matches Err(e)
                && e is LocationsFileDeserializeError),
            pworld(locations_data@) matches Some(raw) ==> {
                let es = wm_insert_all(Seq::empty(), raw);
                &&& (es.len() == 0 ==> (r matches Err(e) && e is HashMapFirstKeyError))
                &&& (es.len() > 0 ==> (r matches Ok(s) && {
                    &&& s.wf()
                    &&& s.locations.entries() == es
                    &&& s.config == config
                    &&& forall|j: int|
                        0 <= j < es.len() ==> s.id_current_location <= (#[trigger] es[j]).id
                }))
            },
    {
        let locations = match parse_world(locations_data) {
            Ok(w) => w,
            Err(e) => {
                return Err(e);
            },
        };
        let id_current_location = match locations.min_id() {
            Some(m) => m,
            None => {
                return Err(ProjectError::HashMapFirstKeyError);
            },
        };
        Ok(State { config, id_current_location, locations })
    }

    /// Serializes the world graph to the bytes of the world file; the
    /// caller writes them out.
    pub fn save(&self) -> (out: Vec<u8>)
        ensures
            out@ == ser_world(self.locations.entries()),
    {
        serialize_world(&self.locations)
    }

    /// Inserts a location into the graph under its own identifier,
    /// overwriting a prior entry that shares it.
    pub fn add_location(&mut self, location: Location) -> (r: Result<(), ProjectError>)
        requires
            old(self).wf(),
            spec_wf_location(location@),
        ensures
            r is Ok,
            final(self).locations.entries() == spec_wm_insert(
                old(self).locations.entries(),
                location@,
            ),
            final(self).locations.as_map() == old(self).locations.as_map().insert(
                location@.id,
                location@,
            ),
            final(self).id_current_location == old(self).id_current_location,
            final(self).config == old(self).config,
            final(self).wf(),
    {
        self.locations.insert(location);
        Ok(())
    }

    /// Makes `id` the current location if it resolves; fails with the
    /// not-found error, leaving the state unchanged, if it does not.
    pub fn set_current_location(&mut self, id: u128) -> (r: Result<(), ProjectError>)
        requires
            old(self).wf(),
        ensures
            r is Ok <==> old(self).locations.as_map().contains_key(id),
            r is Ok ==> final(self).id_current_location == id,
            r matches Err(e) ==> (e is LocationNotFoundError && *final(self) == *old(self)),
            final(self).locations == old(self).locations,
            final(self).config == old(self).config,
            final(self).wf(),
    {
        if self.locations.contains(id) {
            self.id_current_location = id;
            Ok(())
        } else {
            Err(ProjectError::LocationNotFoundError)
        }
    }

    /// Whether `id` resolves in the world graph.
    pub fn check_location_exists(&self, id: u128) -> (r: bool)
        ensures
            r == self.locations.as_map().contains_key(id),
    {
        self.locations.contains(id)
    }

    /// The current location. The dangling-reference failure is
    /// impossible while the state is well formed, but is checked
    /// defensively; the error carries the canonical text of the
    /// identifier that did not resolve.
    pub fn get_current_location(&self) -> (r: Result<&Location, ProjectError>)
        ensures
            r is Ok <==> self.locations.as_map().contains_key(self.id_current_location),
            r matches Ok(l) ==> l@ == self.locations.as_map()[self.id_current_location],
            r matches Err(e) ==> (e matches ProjectError::HashMapGetError(t) && t@
                == uuid_hyphenated(self.id_current_location)),
    {
        match self.locations.get(self.id_current_location) {
            Some(l) => Ok(l),
            None => Err(ProjectError::HashMapGetError(format_uuid(self.id_current_location))),
        }
    }

    /// The location registered under an arbitrary identifier, with
    /// the same lookup contract.
    pub fn get_location(&self, id: u128) -> (r: Result<&Location, ProjectError>)
        ensures
            r is Ok <==> self.locations.as_map().contains_key(id),
            r matches Ok(l) ==> l@ == self.locations.as_map()[id],
            r matches Err(e) ==> (e matches ProjectError::HashMapGetError(t) && t@
                == uuid_hyphenated(id)),
    {
        match self.locations.get(id) {
            Some(l) => Ok(l),
            None => Err(ProjectError::HashMapGetError(format_uuid(id))),
        }
    }
}

} // verus!
