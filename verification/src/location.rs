//! A location: one node of the world graph.

use crate::error::ProjectError;
use crate::ids::uuid_new_v4;
use vstd::prelude::*;

verus! {

/// One place in the world: a unique identifier, a non-empty display
/// name, and free descriptive text. The identifier is assigned exactly
/// once, at construction, and never mutated afterwards.
pub struct Location {
    /// The globally unique 128-bit identifier of this location.
    pub id: u128,
    /// The display name (UTF-8 bytes, never empty).
    pub name: Vec<u8>,
    /// The descriptive text (UTF-8 bytes, may be empty).
    pub description: Vec<u8>,
}

/// The mathematical model of a location.
pub ghost struct LocationModel {
    pub id: u128,
    pub name: Seq<u8>,
    pub description: Seq<u8>,
}

impl View for Location {
    type V = LocationModel;

    open spec fn view(&self) -> LocationModel {
        LocationModel { id: self.id, name: self.name@, description: self.description@ }
    }
}

/// A location is well formed when its name is non-empty.
pub open spec fn spec_wf_location(l: LocationModel) -> bool {
    l.name.len() > 0
}

/// The placeholder description, the bytes of "A new location.".
pub open spec fn default_description() -> Seq<u8> {
    seq![65u8, 32u8, 110u8, 101u8, 119u8, 32u8, 108u8, 111u8, 99u8, 97u8, 116u8, 105u8, 111u8, 110u8, 46u8]
}

/// The two-line rendered form of a location: a bracketed header line
/// holding the name, then the description line.
pub open spec fn spec_render(l: LocationModel) -> Seq<u8> {
    seq![60u8, 45u8, 45u8, 45u8] + l.name + seq![45u8, 45u8, 45u8, 62u8, 10u8] + l.description
}

impl Location {
    /// Builds a location with a freshly generated random identifier.
    /// When no description is given, the fixed placeholder text
    /// "A new location." is stored.
    pub fn new(name: Vec<u8>, description: Option<Vec<u8>>) -> (r: Result<Location, ProjectError>)
        requires
            name@.len() > 0,
        ensures
            r matches Ok(l) ==> {
                &&& l@.name == name@
                &&& (description matches Some(d) ==> l@.description == d@)
                &&& (description is None ==> l@.description == default_description())
                &&& spec_wf_location(l@)
            },
            r is Ok,
    {
        let id = uuid_new_v4();
        let description = match description {
            Some(d) => d,
            None => {
                let d: Vec<u8> = vec![65u8, 32u8, 110u8, 101u8, 119u8, 32u8, 108u8, 111u8, 99u8, 97u8, 116u8, 105u8, 111u8, 110u8, 46u8];
                proof {
                    assert(d@ =~= default_description());
                }
                d
            },
        };
        Ok(Location { id, name, description })
    }

    /// The rendered textual form, `<---name--->` then the description.
    pub fn render(&self) -> (out: Vec<u8>)
        ensures
            out@ == spec_render(self@),
    {
        let mut out: Vec<u8> = Vec::new();
        out.push(60);
        out.push(45);
        out.push(45);
        out.push(45);
        out.extend_from_slice(self.name.as_slice());
        out.push(45);
        out.push(45);
        out.push(45);
        out.push(62);
        out.push(10);
        out.extend_from_slice(self.description.as_slice());
        proof {
            assert(out@ =~= spec_render(self@));
        }
        out
    }
}

} // verus!
