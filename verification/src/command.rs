//! The command language: one command per input line.
//!
//! A line is split on single spaces (consecutive spaces yield empty
//! tokens; the splitting is strict, not collapsing). The first token
//! selects the command; the remaining tokens are its arguments.
//!
//! - `move <identifier>` makes the named location current.
//! - `add_location <name> [<description words...>]` inserts a fresh
//!   location; the first argument is the name, any further tokens are
//!   joined with single spaces into the description.

use crate::error::ProjectError;
use crate::ids::{parse_id, spec_parse_id};
use crate::location::{default_description, Location, LocationModel};
use crate::state::State;
use crate::world::spec_wm_insert;
use vstd::prelude::*;

verus! {

/// The views of a token list.
pub open spec fn views_of(v: Seq<Vec<u8>>) -> Seq<Seq<u8>> {
    v.map_values(|x: Vec<u8>| x@)
}

/// Index of the first occurrence of `b` in `s`, or -1.
pub open spec fn find_byte(s: Seq<u8>, b: u8) -> int
    decreases s.len(),
{
    if s.len() == 0 {
        -1
    } else if s[0] == b {
        0
    } else {
        let r = find_byte(s.skip(1), b);
        if r < 0 {
            -1
        } else {
            r + 1
        }
    }
}

/// What `find_byte` returns: -1 exactly when `b` does not occur, else
/// the position of its first occurrence.
pub proof fn lemma_find_byte(s: Seq<u8>, b: u8)
    ensures
        find_byte(s, b) == -1 <==> (forall|j: int| 0 <= j < s.len() ==> #[trigger] s[j] != b),
        find_byte(s, b) >= 0 ==> {
            &&& find_byte(s, b) < s.len()
            &&& s[find_byte(s, b)] == b
            &&& forall|j: int| 0 <= j < find_byte(s, b) ==> #[trigger] s[j] != b
        },
    decreases s.len(),
{
    if s.len() > 0 && s[0] != b {
        lemma_find_byte(s.skip(1), b);
        let r = find_byte(s.skip(1), b);
        if r == -1 {
            assert forall|j: int| 0 <= j < s.len() implies #[trigger] s[j] != b by {
                if j > 0 {
                    assert(s.skip(1)[j - 1] == s[j]);
                }
            }
        } else {
            assert(s[r + 1] == s.skip(1)[r]);
            assert forall|j: int| 0 <= j < r + 1 implies #[trigger] s[j] != b by {
                if j > 0 {
                    assert(s.skip(1)[j - 1] == s[j]);
                }
            }
        }
        if forall|j: int| 0 <= j < s.len() ==> #[trigger] s[j] != b {
            assert forall|j: int| 0 <= j < s.skip(1).len() implies #[trigger] s.skip(1)[j] != b by {
                assert(s.skip(1)[j] == s[j + 1]);
            }
        }
    }
}

/// The tokens of a line: split on every single space byte. An empty
/// line yields one empty token; consecutive spaces yield empty tokens.
pub open spec fn spec_tokens(s: Seq<u8>) -> Seq<Seq<u8>>
    decreases s.len(),
{
    let i = find_byte(s, 32);
    if i < 0 || i >= s.len() {
        seq![s]
    } else {
        seq![s.take(i)] + spec_tokens(s.skip(i + 1))
    }
}

/// The tokens joined back with single spaces.
pub open spec fn join_tokens(ts: Seq<Seq<u8>>) -> Seq<u8>
    decreases ts.len(),
{
    if ts.len() == 0 {
        Seq::empty()
    } else if ts.len() == 1 {
        ts[0]
    } else {
        ts[0] + seq![32u8] + join_tokens(ts.skip(1))
    }
}

/// The model of the location an `add_location` command with argument
/// views `vs` inserts, given the generated identifier `id`: the first
/// token is the name, further tokens joined with spaces are the
/// description, the placeholder text standing in when there are none.
pub open spec fn added_location(id: u128, vs: Seq<Seq<u8>>) -> LocationModel {
    LocationModel {
        id,
        name: vs[0],
        description: if vs.len() >= 2 {
            join_tokens(vs.skip(1))
        } else {
            default_description()
        },
    }
}

/// The bytes of the keyword `move`.
pub open spec fn kw_move() -> Seq<u8> {
    seq![109u8, 111u8, 118u8, 101u8]
}

/// The bytes of the keyword `add_location`.
pub open spec fn kw_add_location() -> Seq<u8> {
    seq![97u8, 100u8, 100u8, 95u8, 108u8, 111u8, 99u8, 97u8, 116u8, 105u8, 111u8, 110u8]
}

/// A copy of the byte range `[a, b)` of `s`.
fn sub_vec(s: &Vec<u8>, a: usize, b: usize) -> (r: Vec<u8>)
    requires
        a <= b <= s@.len(),
    ensures
        r@ == s@.subrange(a as int, b as int),
{
    let mut r: Vec<u8> = Vec::new();
    let mut k: usize = a;
    while k < b
        invariant
            a <= k <= b <= s@.len(),
            r@ =~= s@.subrange(a as int, k as int),
        decreases b - k,
    {
        r.push(*s.get(k).unwrap());
        proof {
            assert(r@ =~= s@.subrange(a as int, k + 1));
        }
        k = k + 1;
    }
    proof {
        assert(r@ =~= s@.subrange(a as int, b as int));
    }
    r
}

/// Whether two byte vectors hold the same bytes.
fn bytes_eq(a: &Vec<u8>, b: &Vec<u8>) -> (r: bool)
    ensures
        r == (a@ == b@),
{
    if a.len() != b.len() {
        return false;
    }
    let mut k: usize = 0;
    while k < a.len()
        invariant
            0 <= k <= a@.len(),
            a@.len() == b@.len(),
            forall|j: int| 0 <= j < k ==> a@[j] == b@[j],
        decreases a.len() - k,
    {
        if *a.get(k).unwrap() != *b.get(k).unwrap() {
            return false;
        }
        k = k + 1;
    }
    proof {
        assert(a@ =~= b@);
    }
    true
}

/// Splits the suffix of `s` starting at `i` into tokens.
fn tokenize_from(s: &Vec<u8>, i: usize) -> (r: Vec<Vec<u8>>)
    requires
        i <= s@.len(),
    ensures
        views_of(r@) == spec_tokens(s@.skip(i as int)),
        r@.len() >= 1,
    decreases s@.len() - i,
{
    let t = Ghost(s@.skip(i as int));
    let mut j: usize = i;
    while j < s.len() && *s.get(j).unwrap() != 32
        invariant
            i <= j <= s@.len(),
            forall|k: int| i <= k < j ==> s@[k] != 32,
        decreases s@.len() - j,
    {
        j = j + 1;
    }
    let tok = sub_vec(s, i, j);
    proof {
        lemma_find_byte(t@, 32);
        assert(tok@ =~= t@.take(j - i));
    }
    if j == s.len() {
        proof {
            assert forall|k: int| 0 <= k < t@.len() implies #[trigger] t@[k] != 32 by {
                assert(t@[k] == s@[i + k]);
            }
            assert(find_byte(t@, 32) == -1);
            assert(tok@ =~= t@);
        }
        let mut r: Vec<Vec<u8>> = Vec::new();
        r.push(tok);
        proof {
            assert(views_of(r@) =~= seq![t@]);
        }
        r
    } else {
        proof {
            assert(t@[j - i] == s@[j as int]);
            assert(t@[j - i] == 32);
            assert forall|k: int| 0 <= k < j - i implies #[trigger] t@[k] != 32 by {
                assert(t@[k] == s@[i + k]);
            }
            assert(find_byte(t@, 32) == j - i);
            assert(t@.skip(j - i + 1) =~= s@.skip(j + 1));
        }
        let rest = tokenize_from(s, j + 1);
        let ghost restpre = rest@;
        let mut r = rest;
        r.insert(0, tok);
        proof {
            assert(r@ =~= restpre.insert(0, tok));
            assert forall|m: int| 0 <= m < r@.len() implies views_of(r@)[m] == (seq![tok@]
                + views_of(restpre))[m] by {
                if m > 0 {
                    assert(r@[m] == restpre[m - 1]);
                }
            }
            assert(views_of(r@) =~= seq![tok@] + views_of(restpre));
            assert(views_of(r@) =~= spec_tokens(t@));
        }
        r
    }
}

/// Joins the argument tokens from position `i` on with single spaces.
fn join_from(args: &Vec<Vec<u8>>, i: usize) -> (r: Vec<u8>)
    requires
        i <= args@.len(),
    ensures
        r@ == join_tokens(views_of(args@).skip(i as int)),
    decreases args@.len() - i,
{
    let mut out: Vec<u8> = Vec::new();
    if i >= args.len() {
        proof {
            assert(views_of(args@).skip(i as int) =~= Seq::<Seq<u8>>::empty());
            assert(out@ =~= join_tokens(views_of(args@).skip(i as int)));
        }
        return out;
    }
    out.extend_from_slice(args.get(i).unwrap().as_slice());
    proof {
        assert(views_of(args@).skip(i as int)[0] == args@[i as int]@);
    }
    if i + 1 < args.len() {
        out.push(32);
        let rest = join_from(args, i + 1);
        out.extend_from_slice(rest.as_slice());
        proof {
            let vs = views_of(args@).skip(i as int);
            assert(vs.skip(1) =~= views_of(args@).skip(i + 1));
            assert(vs.len() >= 2);
            assert(out@ =~= vs[0] + seq![32u8] + join_tokens(vs.skip(1)));
        }
    } else {
        proof {
            let vs = views_of(args@).skip(i as int);
            assert(vs.len() == 1);
            assert(out@ =~= vs[0]);
        }
    }
    out
}

/// One parsed command: the kind selected by the first token, carrying
/// the remaining tokens as arguments.
pub enum Command {
    /// `move <identifier>`: relocate the current position.
    Move(Vec<Vec<u8>>),
    /// `add_location <name> [<description words...>]`: insert a fresh
    /// location.
    AddLocation(Vec<Vec<u8>>),
}

impl Command {
    /// Parses one input line. An empty line fails with the
    /// empty-input error; a line whose first token is no known
    /// keyword fails with the unrecognized-command error carrying
    /// that token.
    pub fn new(input: &Vec<u8>) -> (r: Result<Command, ProjectError>)
        ensures
            input@.len() == 0 ==> (r matches Err(e) && e is CommandNotGivenError),
            input@.len() > 0 ==> {
                let toks = spec_tokens(input@);
                &&& (toks[0] == kw_move() ==> (r matches Ok(c) && c matches Command::Move(args)
                    && views_of(args@) == toks.skip(1)))
                &&& (toks[0] == kw_add_location() ==> (r matches Ok(c) && c matches
                    Command::AddLocation(args) && views_of(args@) == toks.skip(1)))
                &&& (toks[0] != kw_move() && toks[0] != kw_add_location() ==> (r matches Err(e)
                    && e matches ProjectError::CommandUnrecognizedError(t) && t@ == toks[0]))
            },
    {
        if input.len() == 0 {
            return Err(ProjectError::CommandNotGivenError);
        }
        proof {
            assert(input@.skip(0) =~= input@);
        }
        let mut toks = tokenize_from(input, 0);
        let ghost tokspre = toks@;
        let first = toks.remove(0);
        proof {
            assert(first@ == views_of(tokspre)[0]);
            assert(toks@ =~= tokspre.skip(1));
            assert forall|m: int| 0 <= m < toks@.len() implies views_of(toks@)[m] == views_of(
                tokspre,
            ).skip(1)[m] by {
                assert(toks@[m] == tokspre[m + 1]);
            }
            assert(views_of(toks@) =~= views_of(tokspre).skip(1));
        }
        let mv: Vec<u8> = vec![109u8, 111u8, 118u8, 101u8];
        proof {
            assert(mv@ =~= kw_move());
        }
        if bytes_eq(&first, &mv) {
            return Ok(Command::Move(toks));
        }
        let al: Vec<u8> = vec![
            97u8,
            100u8,
            100u8,
            95u8,
            108u8,
            111u8,
            99u8,
            97u8,
            116u8,
            105u8,
            111u8,
            110u8,
        ];
        proof {
            assert(al@ =~= kw_add_location());
        }
        if bytes_eq(&first, &al) {
            return Ok(Command::AddLocation(toks));
        }
        Err(ProjectError::CommandUnrecognizedError(first))
    }

    /// Applies this command to the session state: either the one
    /// intended mutation happens, or a typed recoverable failure is
    /// returned and the state is unchanged. No save is implied.
    pub fn execute(&self, state: &mut State) -> (r: Result<(), ProjectError>)
        requires
            old(state).wf(),
        ensures
            final(state).wf(),
            final(state).config == old(state).config,
            self matches Command::Move(args) ==> {
                let vs = views_of(args@);
                &&& final(state).locations == old(state).locations
                &&& (vs.len() == 0 ==> (r matches Err(e) && e is MoveNoLocationError
                    && *final(state) == *old(state)))
                &&& (vs.len() > 0 && spec_parse_id(vs[0]) is None ==> (r matches Err(e)
                    && e is LocationInvalidIdError && *final(state) == *old(state)))
                &&& (vs.len() > 0 ==> (spec_parse_id(vs[0]) matches Some(id) ==> {
                    &&& (old(state).locations.as_map().contains_key(id) ==> r is Ok
                        && final(state).id_current_location == id)
                    &&& (!old(state).locations.as_map().contains_key(id) ==> (r matches Err(e)
                        && e is LocationNotFoundError && *final(state) == *old(state)))
                }))
            },
            self matches Command::AddLocation(args) ==> {
                let vs = views_of(args@);
                &&& final(state).id_current_location == old(state).id_current_location
                &&& ((vs.len() == 0 || vs[0].len() == 0) ==> (r matches Err(e)
                    && e is StandardError && *final(state) == *old(state)))
                &&& (vs.len() > 0 && vs[0].len() > 0 ==> r is Ok && exists|id: u128|
                    final(state).locations.entries() == #[trigger] spec_wm_insert(
                        old(state).locations.entries(),
                        added_location(id, vs),
                    ))
            },
    {
        match self {
            Command::Move(args) => {
                if args.len() == 0 {
                    return Err(ProjectError::MoveNoLocationError);
                }
                proof {
                    assert(views_of(args@)[0] == args@[0]@);
                }
                match parse_id(args.get(0).unwrap()) {
                    None => Err(ProjectError::LocationInvalidIdError),
                    Some(id) => state.set_current_location(id),
                }
            },
            Command::AddLocation(args) => {
                if args.len() == 0 {
                    return Err(ProjectError::StandardError);
                }
                proof {
                    assert(views_of(args@)[0] == args@[0]@);
                }
                let ghost vs = views_of(args@);
                let mut name: Vec<u8> = Vec::new();
                name.extend_from_slice(args.get(0).unwrap().as_slice());
                proof {
                    assert(name@ =~= vs[0]);
                }
                if name.len() == 0 {
                    return Err(ProjectError::StandardError);
                }
                let ghost namev = name@;
                if args.len() > 1 {
                    let d = join_from(args, 1);
                    let ghost dv = d@;
                    match Location::new(name, Some(d)) {
                        Ok(l) => {
                            let ghost fresh = l@.id;
                            let ghost model = l@;
                            let r = state.add_location(l);
                            proof {
                                assert(model.name == namev && model.description == dv);
                                assert(model == added_location(fresh, vs));
                                assert(state.locations.entries() == spec_wm_insert(
                                    old(state).locations.entries(),
                                    added_location(fresh, vs),
                                ));
                            }
                            r
                        },
                        Err(e) => Err(e),
                    }
                } else {
                    match Location::new(name, None) {
                        Ok(l) => {
                            let ghost fresh = l@.id;
                            let ghost model = l@;
                            let r = state.add_location(l);
                            proof {
                                assert(model.name == namev && model.description
                                    == default_description());
                                assert(model == added_location(fresh, vs));
                                assert(state.locations.entries() == spec_wm_insert(
                                    old(state).locations.entries(),
                                    added_location(fresh, vs),
                                ));
                            }
                            r
                        },
                        Err(e) => Err(e),
                    }
                }
            },
        }
    }
}

} // verus!
