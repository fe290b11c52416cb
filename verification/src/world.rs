//! The world graph: a mapping from location identifier to location.
//!
//! The mapping is held as a vector of locations whose identifiers are
//! pairwise distinct; its mathematical view is the finite map from
//! identifier to location model. Insertion overwrites the entry that
//! shares the identifier, so identifier collisions are accepted
//! silently.

use crate::location::{spec_wf_location, Location, LocationModel};
use vstd::prelude::*;

verus! {

/// Index of the first entry of `es` whose identifier is `id`, or -1.
pub open spec fn find_idx(es: Seq<LocationModel>, id: u128) -> int
    decreases es.len(),
{
    if es.len() == 0 {
        -1
    } else if es[0].id == id {
        0
    } else {
        let r = find_idx(es.skip(1), id);
        if r < 0 {
            -1
        } else {
            r + 1
        }
    }
}

/// What `find_idx` returns: -1 exactly when no entry carries `id`,
/// else the position of the first entry that does.
pub proof fn lemma_find_idx(es: Seq<LocationModel>, id: u128)
    ensures
        find_idx(es, id) == -1 <==> (forall|j: int| 0 <= j < es.len() ==> (#[trigger] es[j]).id != id),
        find_idx(es, id) >= 0 ==> {
            &&& find_idx(es, id) < es.len()
            &&& es[find_idx(es, id)].id == id
            &&& forall|j: int| 0 <= j < find_idx(es, id) ==> (#[trigger] es[j]).id != id
        },
    decreases es.len(),
{
    if es.len() > 0 && es[0].id != id {
        lemma_find_idx(es.skip(1), id);
        let r = find_idx(es.skip(1), id);
        if r == -1 {
            assert forall|j: int| 0 <= j < es.len() implies (#[trigger] es[j]).id != id by {
                if j > 0 {
                    assert(es.skip(1)[j - 1] == es[j]);
                }
            }
        } else {
            assert(es[r + 1] == es.skip(1)[r]);
            assert forall|j: int| 0 <= j < r + 1 implies (#[trigger] es[j]).id != id by {
                if j > 0 {
                    assert(es.skip(1)[j - 1] == es[j]);
                }
            }
        }
        if forall|j: int| 0 <= j < es.len() ==> (#[trigger] es[j]).id != id {
            assert forall|j: int|
                0 <= j < es.skip(1).len() implies (#[trigger] es.skip(1)[j]).id != id by {
                assert(es.skip(1)[j] == es[j + 1]);
            }
        }
    }
}

/// The entries after inserting `l`: overwrite the first entry sharing
/// its identifier, else append.
pub open spec fn spec_wm_insert(es: Seq<LocationModel>, l: LocationModel) -> Seq<LocationModel> {
    if find_idx(es, l.id) >= 0 {
        es.update(find_idx(es, l.id), l)
    } else {
        es.push(l)
    }
}

/// Identifiers of the entries are pairwise distinct.
pub open spec fn unique_ids(es: Seq<LocationModel>) -> bool {
    forall|i: int, j: int|
        0 <= i < j < es.len() ==> (#[trigger] es[i]).id != (#[trigger] es[j]).id
}

/// The finite map an entry sequence denotes.
pub open spec fn map_of(es: Seq<LocationModel>) -> Map<u128, LocationModel> {
    Map::new(|id: u128| find_idx(es, id) >= 0, |id: u128| es[find_idx(es, id)])
}

/// `find_idx` on a sequence with one entry appended.
pub proof fn lemma_find_idx_push(es: Seq<LocationModel>, l: LocationModel, id: u128)
    ensures
        find_idx(es.push(l), id) == if find_idx(es, id) >= 0 {
            find_idx(es, id)
        } else if l.id == id {
            es.len() as int
        } else {
            -1
        },
    decreases es.len(),
{
    if es.len() == 0 {
        assert(es.push(l)[0] == l);
        assert(es.push(l).len() == 1);
        if l.id != id {
            assert(find_idx(es.push(l).skip(1), id) == -1);
        }
    } else {
        lemma_find_idx_push(es.skip(1), l, id);
        assert(es.push(l).skip(1) =~= es.skip(1).push(l));
    }
}

/// `find_idx` on a sequence whose first entry for `l.id` was replaced
/// by `l`.
pub proof fn lemma_find_idx_update(es: Seq<LocationModel>, i: int, l: LocationModel, id: u128)
    requires
        0 <= i < es.len(),
        es[i].id == l.id,
        forall|j: int| 0 <= j < i ==> (#[trigger] es[j]).id != l.id,
    ensures
        find_idx(es.update(i, l), id) == if id == l.id {
            i
        } else {
            find_idx(es, id)
        },
    decreases es.len(),
{
    lemma_find_idx(es, id);
    lemma_find_idx(es.update(i, l), id);
    if i == 0 {
        if id != l.id {
            assert(es.update(0, l).skip(1) =~= es.skip(1));
            if es[0].id == id {
                assert(find_idx(es, id) == 0);
            }
        }
    } else {
        lemma_find_idx_update(es.skip(1), i - 1, l, id);
        assert(es.update(i, l).skip(1) =~= es.skip(1).update(i - 1, l));
        assert(es.update(i, l)[0] == es[0]);
    }
}

/// Inserting `l` turns the denoted map into `map_of(es).insert(l.id, l)`.
pub proof fn lemma_map_of_insert(es: Seq<LocationModel>, l: LocationModel)
    ensures
        map_of(spec_wm_insert(es, l)) =~= map_of(es).insert(l.id, l),
{
    let i = find_idx(es, l.id);
    lemma_find_idx(es, l.id);
    if i >= 0 {
        let es2 = es.update(i, l);
        assert forall|id: u128| true implies find_idx(es2, id) == if id == l.id {
            i
        } else {
            find_idx(es, id)
        } by {
            lemma_find_idx_update(es, i, l, id);
        }
        assert forall|id: u128| find_idx(es, id) >= 0 && id != l.id implies es2[find_idx(
            es2,
            id,
        )] == es[find_idx(es, id)] by {
            lemma_find_idx(es, id);
        }
    } else {
        let es2 = es.push(l);
        assert forall|id: u128| true implies find_idx(es2, id) == if find_idx(es, id) >= 0 {
            find_idx(es, id)
        } else if id == l.id {
            es.len() as int
        } else {
            -1
        } by {
            lemma_find_idx_push(es, l, id);
        }
        assert forall|id: u128| find_idx(es, id) >= 0 implies es2[find_idx(es2, id)] == es[find_idx(
            es,
            id,
        )] by {
            lemma_find_idx(es, id);
        }
    }
}

/// Inserting a well-formed location keeps identifiers distinct and
/// entries well formed.
pub proof fn lemma_wm_insert_wf(es: Seq<LocationModel>, l: LocationModel)
    requires
        unique_ids(es),
        forall|j: int| 0 <= j < es.len() ==> spec_wf_location(#[trigger] es[j]),
        spec_wf_location(l),
    ensures
        unique_ids(spec_wm_insert(es, l)),
        forall|j: int|
            0 <= j < spec_wm_insert(es, l).len() ==> spec_wf_location(
                #[trigger] spec_wm_insert(es, l)[j],
            ),
{
    lemma_find_idx(es, l.id);
}

/// The world graph.
pub struct WorldMap {
    /// The stored locations; use `insert` to keep identifiers distinct.
    pub locations: Vec<Location>,
}

impl WorldMap {
    /// The entry models, in storage order.
    pub open spec fn entries(self) -> Seq<LocationModel> {
        self.locations@.map_values(|loc: Location| loc@)
    }

    /// The identifier-to-location mapping this graph denotes.
    pub open spec fn as_map(self) -> Map<u128, LocationModel> {
        map_of(self.entries())
    }

    /// Well-formedness: distinct identifiers, well-formed entries.
    pub open spec fn wf(self) -> bool {
        &&& unique_ids(self.entries())
        &&& forall|j: int| 0 <= j < self.entries().len() ==> spec_wf_location(#[trigger] self.entries()[j])
    }

    /// An empty world graph.
    pub fn new() -> (r: WorldMap)
        ensures
            r.entries() =~= Seq::<LocationModel>::empty(),
            r.wf(),
    {
        WorldMap { locations: Vec::new() }
    }

    /// How many locations the graph holds.
    pub fn len(&self) -> (r: usize)
        ensures
            r == self.entries().len(),
    {
        self.locations.len()
    }

    /// Position of the entry carrying `id`, if any.
    fn index_of(&self, id: u128) -> (r: Option<usize>)
        ensures
            r matches Some(i) ==> i as int == find_idx(self.entries(), id),
            r is None ==> find_idx(self.entries(), id) == -1,
    {
        let mut i: usize = 0;
        proof {
            lemma_find_idx(self.entries(), id);
        }
        while i < self.locations.len()
            invariant
                0 <= i <= self.locations.len(),
                forall|j: int| 0 <= j < i ==> (#[trigger] self.entries()[j]).id != id,
                find_idx(self.entries(), id) == -1 || find_idx(self.entries(), id) >= i,
            decreases self.locations.len() - i,
        {
            if self.locations[i].id == id {
                proof {
                    lemma_find_idx(self.entries(), id);
                    assert(self.entries()[i as int].id == id);
                }
                return Some(i);
            }
            i = i + 1;
            proof {
                lemma_find_idx(self.entries(), id);
            }
        }
        None
    }

    /// Whether `id` is a key of the mapping.
    pub fn contains(&self, id: u128) -> (r: bool)
        ensures
            r == self.as_map().contains_key(id),
    {
        match self.index_of(id) {
            Some(_) => true,
            None => false,
        }
    }

    /// The location registered under `id`, if any.
    pub fn get(&self, id: u128) -> (r: Option<&Location>)
        ensures
            r is Some <==> self.as_map().contains_key(id),
            r matches Some(l) ==> l@ == self.as_map()[id],
    {
        match self.index_of(id) {
            Some(i) => {
                proof {
                    lemma_find_idx(self.entries(), id);
                    assert(self.entries()[i as int] == self.locations@[i as int]@);
                }
                Some(&self.locations[i])
            },
            None => None,
        }
    }

    /// Inserts `l` under its own identifier, overwriting any prior
    /// entry that shares it.
    pub fn insert(&mut self, l: Location)
        requires
            old(self).wf(),
            spec_wf_location(l@),
        ensures
            final(self).entries() == spec_wm_insert(old(self).entries(), l@),
            final(self).as_map() == old(self).as_map().insert(l@.id, l@),
            final(self).wf(),
    {
        proof {
            lemma_map_of_insert(old(self).entries(), l@);
            lemma_wm_insert_wf(old(self).entries(), l@);
            lemma_find_idx(old(self).entries(), l@.id);
        }
        match self.index_of(l.id) {
            Some(i) => {
                self.locations.set(i, l);
                proof {
                    assert(self.entries() =~= spec_wm_insert(old(self).entries(), l@));
                }
            },
            None => {
                self.locations.push(l);
                proof {
                    assert(self.entries() =~= spec_wm_insert(old(self).entries(), l@));
                }
            },
        }
    }

    /// The smallest identifier of the graph, if any: the deterministic
    /// choice of a starting location.
    pub fn min_id(&self) -> (r: Option<u128>)
        ensures
            r is Some <==> self.entries().len() > 0,
            r matches Some(m) ==> {
                &&& self.as_map().contains_key(m)
                &&& forall|j: int| 0 <= j < self.entries().len() ==> m <= (#[trigger] self.entries()[j]).id
            },
    {
        if self.locations.len() == 0 {
            return None;
        }
        let mut m: u128 = self.locations[0].id;
        let mut i: usize = 1;
        proof {
            assert(self.entries()[0].id == m);
        }
        while i < self.locations.len()
            invariant
                1 <= i <= self.locations.len(),
                self.locations.len() > 0,
                exists|j: int| 0 <= j < i && (#[trigger] self.entries()[j]).id == m,
                forall|j: int| 0 <= j < i ==> m <= (#[trigger] self.entries()[j]).id,
            decreases self.locations.len() - i,
        {
            if self.locations[i].id < m {
                m = self.locations[i].id;
                proof {
                    assert(self.entries()[i as int].id == m);
                }
            }
            i = i + 1;
        }
        proof {
            let j = choose|j: int| 0 <= j < self.entries().len() && (#[trigger] self.entries()[j]).id == m;
            lemma_find_idx(self.entries(), m);
        }
        Some(m)
    }
}

} // verus!
