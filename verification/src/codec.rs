//! The persistence codec for the world file.
//!
//! The persisted form is a JSON object: each key is the canonical text
//! of a location identifier, each value an object with the fields
//! `id`, `name` and `description` in that order. `save` emits the
//! compact encoding with no space between tokens; the loader reads
//! exactly that shape back, allowing whitespace only around the
//! object itself (string escapes understood: a backslash quotes the
//! next byte, with `\n`, `\r` and `\t` for the control bytes). Key
//! text is read tolerantly: any accepted identifier representation is
//! taken, canonical or not.

use crate::error::ProjectError;
use crate::ids::{
    format_uuid, lemma_hyphenated_plain, lemma_uuid_canonical_round_trip, parse_id, spec_parse_id,
    uuid_hyphenated,
};
use crate::location::{spec_wf_location, Location, LocationModel};
use crate::world::{
    find_idx, lemma_find_idx, map_of, spec_wm_insert, unique_ids, WorldMap,
};
use vstd::prelude::*;

verus! {

/// Byte value of `"`.
pub const QUOTE: u8 = 34;

/// Byte value of `\`.
pub const BACKSLASH: u8 = 92;

/// Byte value of `{`.
pub const LBRACE: u8 = 123;

/// Byte value of `}`.
pub const RBRACE: u8 = 125;

/// Byte value of `:`.
pub const COLON: u8 = 58;

/// Byte value of `,`.
pub const COMMA: u8 = 44;

/// The escaped form of one string byte.
pub open spec fn esc_byte(c: u8) -> Seq<u8> {
    if c == QUOTE || c == BACKSLASH {
        seq![BACKSLASH, c]
    } else {
        seq![c]
    }
}

/// The escaped form of a whole string.
pub open spec fn esc(s: Seq<u8>) -> Seq<u8>
    decreases s.len(),
{
    if s.len() == 0 {
        Seq::empty()
    } else {
        esc_byte(s[0]) + esc(s.skip(1))
    }
}

/// A quoted, escaped JSON string.
pub open spec fn ser_string(s: Seq<u8>) -> Seq<u8> {
    seq![QUOTE] + esc(s) + seq![QUOTE]
}

/// The bytes of `"id":`.
pub open spec fn lit_id() -> Seq<u8> {
    seq![34u8, 105u8, 100u8, 34u8, 58u8]
}

/// The bytes of `"name":`.
pub open spec fn lit_name() -> Seq<u8> {
    seq![34u8, 110u8, 97u8, 109u8, 101u8, 34u8, 58u8]
}

/// The bytes of `"description":`.
pub open spec fn lit_description() -> Seq<u8> {
    seq![34u8, 100u8, 101u8, 115u8, 99u8, 114u8, 105u8, 112u8, 116u8, 105u8, 111u8, 110u8, 34u8, 58u8]
}

/// The serialized form of one mapping entry.
pub open spec fn ser_entry(l: LocationModel) -> Seq<u8> {
    ser_string(uuid_hyphenated(l.id)) + seq![COLON, LBRACE] + lit_id() + ser_string(
        uuid_hyphenated(l.id),
    ) + seq![COMMA] + lit_name() + ser_string(l.name) + seq![COMMA] + lit_description()
        + ser_string(l.description) + seq![RBRACE]
}

/// The serialized entries, separated by commas.
pub open spec fn ser_entries(es: Seq<LocationModel>) -> Seq<u8>
    decreases es.len(),
{
    if es.len() == 0 {
        Seq::empty()
    } else if es.len() == 1 {
        ser_entry(es[0])
    } else {
        ser_entry(es[0]) + seq![COMMA] + ser_entries(es.skip(1))
    }
}

/// The serialized form of a whole entry sequence.
pub open spec fn ser_world(es: Seq<LocationModel>) -> Seq<u8> {
    seq![LBRACE] + ser_entries(es) + seq![RBRACE]
}

/// Escaping distributes over concatenation.
pub proof fn lemma_esc_append(a: Seq<u8>, b: Seq<u8>)
    ensures
        esc(a + b) == esc(a) + esc(b),
    decreases a.len(),
{
    if a.len() == 0 {
        assert(a + b =~= b);
        assert(esc(a) + esc(b) =~= esc(b));
    } else {
        lemma_esc_append(a.skip(1), b);
        assert((a + b).skip(1) =~= a.skip(1) + b);
        assert(esc(a + b) =~= esc_byte(a[0]) + (esc(a.skip(1)) + esc(b)));
        assert(esc(a) + esc(b) =~= esc_byte(a[0]) + (esc(a.skip(1)) + esc(b)));
    }
}

/// Escaping one more byte appends its escaped form.
pub proof fn lemma_esc_take_step(s: Seq<u8>, i: int)
    requires
        0 <= i < s.len(),
    ensures
        esc(s.take(i + 1)) == esc(s.take(i)) + esc_byte(s[i]),
{
    let one = seq![s[i]];
    assert(s.take(i + 1) =~= s.take(i) + one);
    lemma_esc_append(s.take(i), one);
    assert(one.skip(1) =~= Seq::<u8>::empty());
    assert(one[0] == s[i]);
    assert(esc(Seq::<u8>::empty()) =~= Seq::<u8>::empty());
    assert(esc(one) =~= esc_byte(s[i]) + esc(one.skip(1)));
    assert(esc_byte(s[i]) + Seq::<u8>::empty() =~= esc_byte(s[i]));
}

/// A string of bytes that need no escaping is its own escaped form.
pub proof fn lemma_esc_plain(s: Seq<u8>)
    requires
        forall|i: int| 0 <= i < s.len() ==> #[trigger] s[i] != QUOTE && s[i] != BACKSLASH,
    ensures
        esc(s) == s,
    decreases s.len(),
{
    if s.len() > 0 {
        lemma_esc_plain(s.skip(1));
        assert(esc(s) =~= seq![s[0]] + s.skip(1));
        assert(seq![s[0]] + s.skip(1) =~= s);
    }
}

/// Writes the quoted, escaped form of `s`.
fn write_string(out: &mut Vec<u8>, s: &Vec<u8>)
    ensures
        final(out)@ == old(out)@ + ser_string(s@),
{
    out.push(QUOTE);
    let mut i: usize = 0;
    while i < s.len()
        invariant
            0 <= i <= s.len(),
            out@ =~= old(out)@ + seq![QUOTE] + esc(s@.take(i as int)),
        decreases s.len() - i,
    {
        let c = *s.get(i).unwrap();
        if c == QUOTE || c == BACKSLASH {
            out.push(BACKSLASH);
            out.push(c);
        } else {
            out.push(c);
        }
        proof {
            lemma_esc_take_step(s@, i as int);
            assert(out@ =~= old(out)@ + seq![QUOTE] + esc(s@.take(i + 1)));
        }
        i = i + 1;
    }
    out.push(QUOTE);
    proof {
        assert(s@.take(s@.len() as int) =~= s@);
        assert(out@ =~= old(out)@ + ser_string(s@));
    }
}

/// Writes the serialized form of one entry.
fn write_entry(out: &mut Vec<u8>, l: &Location)
    ensures
        final(out)@ == old(out)@ + ser_entry(l@),
{
    let idtext = format_uuid(l.id);
    write_string(out, &idtext);
    out.push(COLON);
    out.push(LBRACE);
    out.push(34);
    out.push(105);
    out.push(100);
    out.push(34);
    out.push(58);
    write_string(out, &idtext);
    out.push(COMMA);
    out.push(34);
    out.push(110);
    out.push(97);
    out.push(109);
    out.push(101);
    out.push(34);
    out.push(58);
    write_string(out, &l.name);
    out.push(COMMA);
    out.push(34);
    out.push(100);
    out.push(101);
    out.push(115);
    out.push(99);
    out.push(114);
    out.push(105);
    out.push(112);
    out.push(116);
    out.push(105);
    out.push(111);
    out.push(110);
    out.push(34);
    out.push(58);
    write_string(out, &l.description);
    out.push(RBRACE);
    proof {
        assert(out@ =~= old(out)@ + ser_entry(l@));
    }
}

/// Appending one entry to the serialized sequence.
pub proof fn lemma_ser_entries_push(es: Seq<LocationModel>, l: LocationModel)
    ensures
        ser_entries(es.push(l)) == if es.len() == 0 {
            ser_entry(l)
        } else {
            ser_entries(es) + seq![COMMA] + ser_entry(l)
        },
    decreases es.len(),
{
    if es.len() == 0 {
        assert(es.push(l)[0] == l);
        assert(es.push(l).len() == 1);
    } else {
        lemma_ser_entries_push(es.skip(1), l);
        assert(es.push(l).skip(1) =~= es.skip(1).push(l));
        assert(es.push(l)[0] == es[0]);
        if es.len() == 1 {
            assert(es.skip(1).len() == 0);
            assert(ser_entries(es.push(l)) =~= ser_entry(es[0]) + seq![COMMA] + ser_entry(l));
            assert(ser_entries(es) + seq![COMMA] + ser_entry(l) =~= ser_entry(es[0]) + seq![COMMA]
                + ser_entry(l));
        } else {
            assert(ser_entries(es.push(l)) =~= ser_entry(es[0]) + seq![COMMA] + (ser_entries(
                es.skip(1),
            ) + seq![COMMA] + ser_entry(l)));
            assert(ser_entries(es) + seq![COMMA] + ser_entry(l) =~= ser_entry(es[0]) + seq![COMMA]
                + (ser_entries(es.skip(1)) + seq![COMMA] + ser_entry(l)));
        }
    }
}

/// Serializes the whole world graph to its persisted byte form.
pub fn serialize_world(w: &WorldMap) -> (out: Vec<u8>)
    ensures
        out@ == ser_world(w.entries()),
{
    let mut out: Vec<u8> = Vec::new();
    out.push(LBRACE);
    let mut i: usize = 0;
    while i < w.locations.len()
        invariant
            0 <= i <= w.locations.len(),
            out@ =~= seq![LBRACE] + ser_entries(w.entries().take(i as int)),
        decreases w.locations.len() - i,
    {
        if i > 0 {
            out.push(COMMA);
        }
        write_entry(&mut out, &w.locations[i]);
        proof {
            let es = w.entries();
            assert(es.take(i + 1) =~= es.take(i as int).push(es[i as int]));
            lemma_ser_entries_push(es.take(i as int), es[i as int]);
            assert(w.locations@[i as int]@ == es[i as int]);
            assert(out@ =~= seq![LBRACE] + ser_entries(es.take(i + 1)));
        }
        i = i + 1;
    }
    out.push(RBRACE);
    proof {
        assert(w.entries().take(w.entries().len() as int) =~= w.entries());
        assert(out@ =~= ser_world(w.entries()));
    }
    out
}

/// The byte an escape pair denotes: `\n`, `\r` and `\t` give the
/// control bytes, any other byte stands for itself.
pub open spec fn unesc_byte(c: u8) -> u8 {
    if c == 110 {
        10
    } else if c == 114 {
        13
    } else if c == 116 {
        9
    } else {
        c
    }
}

/// Reads string content from position `i` (just after the opening
/// quote) up to the closing quote: the unescaped text and the position
/// after the quote.
pub open spec fn pstr(s: Seq<u8>, i: int) -> Option<(Seq<u8>, int)>
    decreases s.len() - i,
        when 0 <= i
{
    if i >= s.len() {
        None
    } else if s[i] == QUOTE {
        Some((Seq::empty(), i + 1))
    } else if s[i] == BACKSLASH {
        if i + 1 < s.len() {
            match pstr(s, i + 2) {
                Some((t, e)) => Some((seq![unesc_byte(s[i + 1])] + t, e)),
                None => None,
            }
        } else {
            None
        }
    } else {
        match pstr(s, i + 1) {
            Some((t, e)) => Some((seq![s[i]] + t, e)),
            None => None,
        }
    }
}

/// Reads a quoted string at position `i`: the quote must stand there.
pub open spec fn pkey(s: Seq<u8>, i: int) -> Option<(Seq<u8>, int)> {
    if 0 <= i < s.len() && s[i] == QUOTE {
        pstr(s, i + 1)
    } else {
        None
    }
}

/// Whether `lit` stands verbatim at position `i` of `s`.
pub open spec fn matches_at(s: Seq<u8>, i: int, lit: Seq<u8>) -> bool {
    &&& 0 <= i
    &&& i + lit.len() <= s.len()
    &&& s.subrange(i, i + lit.len() as int) == lit
}

/// Reads one mapping entry at position `i`: quoted identifier key,
/// then an object with the fields `id`, `name` and `description` in
/// that order. The `id` field must denote the same identifier as the
/// key, and the name must be non-empty.
pub open spec fn pentry(s: Seq<u8>, i: int) -> Option<(LocationModel, int)> {
    match pkey(s, i) {
        None => None,
        Some((ktext, j1)) => match spec_parse_id(ktext) {
            None => None,
            Some(id) => if matches_at(s, j1, seq![COLON, LBRACE] + lit_id()) {
                match pkey(s, j1 + 7) {
                    None => None,
                    Some((idtext, j3)) => if spec_parse_id(idtext) == Some(id) && matches_at(
                        s,
                        j3,
                        seq![COMMA] + lit_name(),
                    ) {
                        match pkey(s, j3 + 8) {
                            None => None,
                            Some((name, j5)) => if name.len() > 0 && matches_at(
                                s,
                                j5,
                                seq![COMMA] + lit_description(),
                            ) {
                                match pkey(s, j5 + 15) {
                                    None => None,
                                    Some((desc, j7)) => if j7 < s.len() && s[j7] == RBRACE {
                                        Some(
                                            (
                                                LocationModel { id, name, description: desc },
                                                j7 + 1,
                                            ),
                                        )
                                    } else {
                                        None
                                    },
                                }
                            } else {
                                None
                            },
                        }
                    } else {
                        None
                    },
                }
            } else {
                None
            },
        },
    }
}

/// Reads entries separated by commas until the closing brace, which is
/// consumed.
pub open spec fn pentries(s: Seq<u8>, i: int) -> Option<(Seq<LocationModel>, int)>
    decreases s.len() - i,
        when 0 <= i
{
    match pentry(s, i) {
        None => None,
        Some((l, j)) => if j <= i || j >= s.len() {
            None
        } else if s[j] == COMMA {
            match pentries(s, j + 1) {
                None => None,
                Some((ls, e)) => Some((seq![l] + ls, e)),
            }
        } else if s[j] == RBRACE {
            Some((seq![l], j + 1))
        } else {
            None
        },
    }
}

/// Whether a byte is JSON whitespace.
pub open spec fn is_ws(c: u8) -> bool {
    c == 32 || c == 9 || c == 10 || c == 13
}

/// First position at or after `i` that holds no whitespace byte, or
/// the end of `s`.
pub open spec fn ws_end(s: Seq<u8>, i: int) -> int
    decreases s.len() - i,
        when 0 <= i <= s.len()
{
    if i >= s.len() {
        i
    } else if is_ws(s[i]) {
        ws_end(s, i + 1)
    } else {
        i
    }
}

/// Reads a whole world file: `{}` or a braced entry list, with only
/// whitespace allowed before the opening and after the closing brace.
pub open spec fn pworld(s: Seq<u8>) -> Option<Seq<LocationModel>> {
    let b = ws_end(s, 0);
    if b + 2 > s.len() || s[b] != LBRACE {
        None
    } else if s[b + 1] == RBRACE {
        if ws_end(s, b + 2) == s.len() {
            Some(Seq::empty())
        } else {
            None
        }
    } else {
        match pentries(s, b + 1) {
            None => None,
            Some((ls, e)) => if ws_end(s, e) == s.len() {
                Some(ls)
            } else {
                None
            },
        }
    }
}

/// The models of a location sequence.
pub open spec fn models_of(v: Seq<Location>) -> Seq<LocationModel> {
    v.map_values(|l: Location| l@)
}

/// Folding a raw entry sequence into a world graph, later entries
/// overwriting earlier ones that share an identifier.
pub open spec fn wm_insert_all(acc: Seq<LocationModel>, ls: Seq<LocationModel>) -> Seq<
    LocationModel,
>
    decreases ls.len(),
{
    if ls.len() == 0 {
        acc
    } else {
        wm_insert_all(spec_wm_insert(acc, ls[0]), ls.skip(1))
    }
}

/// Folding one more entry.
pub proof fn lemma_wm_insert_all_push(acc: Seq<LocationModel>, ls: Seq<LocationModel>, l: LocationModel)
    ensures
        wm_insert_all(acc, ls.push(l)) == spec_wm_insert(wm_insert_all(acc, ls), l),
    decreases ls.len(),
{
    if ls.len() == 0 {
        assert(ls.push(l)[0] == l);
        assert(ls.push(l).skip(1) =~= Seq::<LocationModel>::empty());
        assert(wm_insert_all(spec_wm_insert(acc, l), Seq::<LocationModel>::empty())
            == spec_wm_insert(acc, l));
        assert(wm_insert_all(acc, ls) == acc);
    } else {
        assert(ls.push(l)[0] == ls[0]);
        assert(ls.push(l).skip(1) =~= ls.skip(1).push(l));
        lemma_wm_insert_all_push(spec_wm_insert(acc, ls[0]), ls.skip(1), l);
        assert(wm_insert_all(acc, ls.push(l)) == wm_insert_all(
            spec_wm_insert(acc, ls[0]),
            ls.skip(1).push(l),
        ));
        assert(wm_insert_all(acc, ls) == wm_insert_all(spec_wm_insert(acc, ls[0]), ls.skip(1)));
    }
}

/// The escape pair byte, executable form.
fn unesc_of(c: u8) -> (r: u8)
    ensures
        r == unesc_byte(c),
{
    if c == 110 {
        10
    } else if c == 114 {
        13
    } else if c == 116 {
        9
    } else {
        c
    }
}

/// Reads string content from `i` up to the closing quote.
fn parse_string(s: &Vec<u8>, i: usize) -> (r: Option<(Vec<u8>, usize)>)
    ensures
        r is Some <==> pstr(s@, i as int) is Some,
        r matches Some((t, e)) ==> pstr(s@, i as int) == Some((t@, e as int)) && i < e <= s.len(),
    decreases s@.len() - i,
{
    if i >= s.len() {
        return None;
    }
    let c = *s.get(i).unwrap();
    if c == QUOTE {
        let t: Vec<u8> = Vec::new();
        proof {
            assert(t@ =~= Seq::<u8>::empty());
        }
        return Some((t, i + 1));
    }
    if c == BACKSLASH {
        if i + 1 < s.len() {
            let u = unesc_of(*s.get(i + 1).unwrap());
            match parse_string(s, i + 2) {
                Some((t, e)) => {
                    let mut t2 = t;
                    t2.insert(0, u);
                    proof {
                        assert(t2@ =~= seq![unesc_byte(s@[i + 1])] + pstr(s@, i + 2).unwrap().0);
                    }
                    Some((t2, e))
                },
                None => None,
            }
        } else {
            None
        }
    } else {
        match parse_string(s, i + 1) {
            Some((t, e)) => {
                let mut t2 = t;
                t2.insert(0, c);
                proof {
                    assert(t2@ =~= seq![s@[i as int]] + pstr(s@, i + 1).unwrap().0);
                }
                Some((t2, e))
            },
            None => None,
        }
    }
}

/// Reads a quoted string at `i`.
fn parse_key(s: &Vec<u8>, i: usize) -> (r: Option<(Vec<u8>, usize)>)
    ensures
        r is Some <==> pkey(s@, i as int) is Some,
        r matches Some((t, e)) ==> pkey(s@, i as int) == Some((t@, e as int)) && i < e <= s.len(),
{
    if i < s.len() && *s.get(i).unwrap() == QUOTE {
        parse_string(s, i + 1)
    } else {
        None
    }
}

/// Whether `lit` stands verbatim at position `i`.
fn match_at(s: &Vec<u8>, i: usize, lit: &Vec<u8>) -> (r: bool)
    ensures
        r == matches_at(s@, i as int, lit@),
{
    if i > s.len() || lit.len() > s.len() - i {
        return false;
    }
    let end: usize = i + lit.len();
    let mut k: usize = 0;
    while k < lit.len()
        invariant
            0 <= k <= lit@.len(),
            end == i + lit@.len(),
            i + lit@.len() <= s@.len(),
            forall|j: int| 0 <= j < k ==> s@[i + j] == lit@[j],
        decreases lit.len() - k,
    {
        if *s.get(i + k).unwrap() != *lit.get(k).unwrap() {
            proof {
                assert(s@.subrange(i as int, i + lit@.len() as int)[k as int] != lit@[k as int]);
            }
            return false;
        }
        k = k + 1;
    }
    proof {
        assert(s@.subrange(i as int, i + lit@.len() as int) =~= lit@);
    }
    true
}

/// Reads one mapping entry at `i`.
fn parse_entry(s: &Vec<u8>, i: usize) -> (r: Option<(Location, usize)>)
    ensures
        r is Some <==> pentry(s@, i as int) is Some,
        r matches Some((l, e)) ==> pentry(s@, i as int) == Some((l@, e as int)) && i < e
            <= s.len() && spec_wf_location(l@),
{
    let key = match parse_key(s, i) {
        Some(p) => p,
        None => {
            return None;
        },
    };
    let (ktext, j1) = key;
    let id = match parse_id(&ktext) {
        Some(id) => id,
        None => {
            return None;
        },
    };
    let lit_open: Vec<u8> = vec![58u8, 123u8, 34u8, 105u8, 100u8, 34u8, 58u8];
    proof {
        assert(lit_open@ =~= seq![COLON, LBRACE] + lit_id());
    }
    if !match_at(s, j1, &lit_open) {
        return None;
    }
    let idfield = match parse_key(s, j1 + 7) {
        Some(p) => p,
        None => {
            return None;
        },
    };
    let (idtext, j3) = idfield;
    let id2 = parse_id(&idtext);
    let idsame = match id2 {
        Some(v) => v == id,
        None => false,
    };
    if !idsame {
        return None;
    }
    let lit_nm: Vec<u8> = vec![44u8, 34u8, 110u8, 97u8, 109u8, 101u8, 34u8, 58u8];
    proof {
        assert(lit_nm@ =~= seq![COMMA] + lit_name());
    }
    if !match_at(s, j3, &lit_nm) {
        return None;
    }
    let namefield = match parse_key(s, j3 + 8) {
        Some(p) => p,
        None => {
            return None;
        },
    };
    let (name, j5) = namefield;
    let lit_ds: Vec<u8> = vec![
        44u8,
        34u8,
        100u8,
        101u8,
        115u8,
        99u8,
        114u8,
        105u8,
        112u8,
        116u8,
        105u8,
        111u8,
        110u8,
        34u8,
        58u8,
    ];
    proof {
        assert(lit_ds@ =~= seq![COMMA] + lit_description());
    }
    if name.len() == 0 || !match_at(s, j5, &lit_ds) {
        return None;
    }
    let descfield = match parse_key(s, j5 + 15) {
        Some(p) => p,
        None => {
            return None;
        },
    };
    let (desc, j7) = descfield;
    if j7 < s.len() && *s.get(j7).unwrap() == RBRACE {
        Some((Location { id, name, description: desc }, j7 + 1))
    } else {
        None
    }
}

/// Reads comma-separated entries up to and including the closing brace.
fn parse_entries(s: &Vec<u8>, i: usize) -> (r: Option<(Vec<Location>, usize)>)
    ensures
        r is Some <==> pentries(s@, i as int) is Some,
        r matches Some((v, e)) ==> pentries(s@, i as int) == Some((models_of(v@), e as int)) && i
            < e <= s.len() && forall|j: int|
            0 <= j < v@.len() ==> spec_wf_location(#[trigger] models_of(v@)[j]),
    decreases s@.len() - i,
{
    let ent = match parse_entry(s, i) {
        Some(p) => p,
        None => {
            return None;
        },
    };
    let (l, j) = ent;
    if j >= s.len() {
        return None;
    }
    let c = *s.get(j).unwrap();
    if c == COMMA {
        match parse_entries(s, j + 1) {
            Some(p) => {
                let (mut v, e) = p;
                let ghost vpre = v@;
                v.insert(0, l);
                proof {
                    assert(v@ =~= vpre.insert(0, l));
                    assert forall|j: int| 0 <= j < v@.len() implies models_of(v@)[j] == (seq![l@]
                        + models_of(vpre))[j] by {
                        if j > 0 {
                            assert(v@[j] == vpre[j - 1]);
                        }
                    }
                    assert(models_of(v@) =~= seq![l@] + pentries(s@, j as int + 1).unwrap().0);
                }
                Some((v, e))
            },
            None => None,
        }
    } else if c == RBRACE {
        let mut v: Vec<Location> = Vec::new();
        v.push(l);
        proof {
            assert(models_of(v@) =~= seq![l@]);
        }
        Some((v, j + 1))
    } else {
        None
    }
}

/// Skips whitespace bytes from position `i` on.
fn skip_ws(s: &Vec<u8>, i: usize) -> (r: usize)
    requires
        i <= s@.len(),
    ensures
        r as int == ws_end(s@, i as int),
        i <= r <= s@.len(),
{
    let mut j = i;
    while j < s.len() && (*s.get(j).unwrap() == 32 || *s.get(j).unwrap() == 9 || *s.get(j).unwrap()
        == 10 || *s.get(j).unwrap() == 13)
        invariant
            i <= j <= s@.len(),
            ws_end(s@, i as int) == ws_end(s@, j as int),
        decreases s@.len() - j,
    {
        j = j + 1;
    }
    j
}

/// Loads a world graph from its persisted byte form. Fails with the
/// deserialize error exactly when the bytes are not a well-formed
/// world file.
pub fn parse_world(data: &Vec<u8>) -> (r: Result<WorldMap, ProjectError>)
    ensures
        r is Ok <==> pworld(data@) is Some,
        r matches Err(e) ==> e is LocationsFileDeserializeError,
        r matches Ok(w) ==> {
            &&& w.entries() == wm_insert_all(Seq::empty(), pworld(data@).unwrap())
            &&& w.wf()
        },
{
    let b = skip_ws(data, 0);
    if data.len() < 2 || b > data.len() - 2 || *data.get(b).unwrap() != LBRACE {
        return Err(ProjectError::LocationsFileDeserializeError);
    }
    if *data.get(b + 1).unwrap() == RBRACE {
        if skip_ws(data, b + 2) == data.len() {
            let w = WorldMap::new();
            proof {
                assert(wm_insert_all(Seq::empty(), Seq::<LocationModel>::empty())
                    =~= Seq::<LocationModel>::empty());
            }
            return Ok(w);
        } else {
            return Err(ProjectError::LocationsFileDeserializeError);
        }
    }
    let parsed = match parse_entries(data, b + 1) {
        Some(p) => p,
        None => {
            return Err(ProjectError::LocationsFileDeserializeError);
        },
    };
    let (mut v, e) = parsed;
    if skip_ws(data, e) != data.len() {
        return Err(ProjectError::LocationsFileDeserializeError);
    }
    let ghost raw = models_of(v@);
    let mut w = WorldMap::new();
    let total: usize = v.len();
    let mut k: usize = 0;
    proof {
        assert(raw.take(0) =~= Seq::<LocationModel>::empty());
    }
    while v.len() > 0
        invariant
            0 <= k,
            k + v@.len() == total,
            raw.len() == total,
            models_of(v@) =~= raw.skip(k as int),
            forall|j: int| 0 <= j < raw.len() ==> spec_wf_location(#[trigger] raw[j]),
            w.entries() == wm_insert_all(Seq::empty(), raw.take(k as int)),
            w.wf(),
        decreases v@.len(),
    {
        let ghost vpre = v@;
        let l = v.remove(0);
        proof {
            assert(vpre[0]@ == l@);
            assert(models_of(vpre)[0] == l@);
            assert(raw.skip(k as int)[0] == raw[k as int]);
            assert(raw[k as int] == l@);
            assert(spec_wf_location(l@));
        }
        w.insert(l);
        proof {
            assert(raw.take(k + 1) =~= raw.take(k as int).push(raw[k as int]));
            lemma_wm_insert_all_push(Seq::empty(), raw.take(k as int), raw[k as int]);
            assert(v@ =~= vpre.skip(1));
            assert forall|j: int| 0 <= j < v@.len() implies models_of(v@)[j] == raw.skip(k + 1)[j] by {
                assert(v@[j] == vpre[j + 1]);
                assert(models_of(vpre)[j + 1] == vpre[j + 1]@);
                assert(models_of(vpre) =~= raw.skip(k as int));
                assert(raw.skip(k as int)[j + 1] == raw[k + 1 + j]);
            }
            assert(models_of(v@) =~= raw.skip(k + 1));
        }
        k = k + 1;
    }
    proof {
        assert(raw.take(total as int) =~= raw);
        assert(pworld(data@).unwrap() == raw);
    }
    Ok(w)
}

/// A subrange of an established subrange.
proof fn lemma_sub_at(s: Seq<u8>, i: int, whole: Seq<u8>, off: int, part: Seq<u8>)
    requires
        0 <= i,
        i + whole.len() <= s.len(),
        s.subrange(i, i + whole.len() as int) == whole,
        0 <= off,
        off + part.len() <= whole.len(),
        whole.subrange(off, off + part.len() as int) == part,
    ensures
        s.subrange(i + off, i + off + part.len() as int) == part,
{
    assert forall|j: int| 0 <= j < part.len() implies s.subrange(
        i + off,
        i + off + part.len() as int,
    )[j] == part[j] by {
        assert(s.subrange(i, i + whole.len() as int)[off + j] == whole[off + j]);
        assert(whole.subrange(off, off + part.len() as int)[j] == whole[off + j]);
    }
    assert(s.subrange(i + off, i + off + part.len() as int) =~= part);
}

/// Reading a serialized string body back yields the original text.
proof fn lemma_pstr_of_esc(s: Seq<u8>, i: int, t: Seq<u8>)
    requires
        0 <= i,
        i + esc(t).len() + 1 <= s.len(),
        s.subrange(i, i + esc(t).len() + 1) == esc(t) + seq![QUOTE],
    ensures
        pstr(s, i) == Some((t, i + esc(t).len() + 1)),
    decreases t.len(),
{
    let e1 = esc(t);
    let big = e1 + seq![QUOTE];
    if t.len() == 0 {
        assert(e1 =~= Seq::<u8>::empty());
        assert(s[i] == big[0]) by {
            assert(s.subrange(i, i + 1)[0] == s[i]);
        }
        assert(s[i] == QUOTE);
    } else {
        let c = t[0];
        let rest = esc(t.skip(1));
        assert(e1 == esc_byte(c) + rest);
        assert(s[i] == big[0]) by {
            assert(s.subrange(i, i + e1.len() + 1)[0] == s[i]);
        }
        if c == QUOTE || c == BACKSLASH {
            assert(e1.len() == 2 + rest.len());
            assert(big[0] == BACKSLASH && big[1] == c);
            assert(s[i + 1] == big[1]) by {
                assert(s.subrange(i, i + e1.len() + 1)[1] == s[i + 1]);
            }
            assert(s.subrange(i + 2, i + 2 + rest.len() + 1) =~= rest + seq![QUOTE]) by {
                assert forall|j: int| 0 <= j < rest.len() + 1 implies s.subrange(
                    i + 2,
                    i + 2 + rest.len() + 1,
                )[j] == (rest + seq![QUOTE])[j] by {
                    assert(s.subrange(i, i + e1.len() + 1)[2 + j] == s[i + 2 + j]);
                    assert(big[2 + j] == (rest + seq![QUOTE])[j]);
                }
            }
            lemma_pstr_of_esc(s, i + 2, t.skip(1));
            assert(unesc_byte(c) == c);
            assert(seq![c] + t.skip(1) =~= t);
            assert(s[i] == BACKSLASH && s[i] != QUOTE);
            assert(pstr(s, i) == Some((t, i + e1.len() + 1)));
        } else {
            assert(e1.len() == 1 + rest.len());
            assert(big[0] == c);
            assert(s[i] == c && c != QUOTE && c != BACKSLASH);
            assert(s.subrange(i + 1, i + 1 + rest.len() + 1) =~= rest + seq![QUOTE]) by {
                assert forall|j: int| 0 <= j < rest.len() + 1 implies s.subrange(
                    i + 1,
                    i + 1 + rest.len() + 1,
                )[j] == (rest + seq![QUOTE])[j] by {
                    assert(s.subrange(i, i + e1.len() + 1)[1 + j] == s[i + 1 + j]);
                    assert(big[1 + j] == (rest + seq![QUOTE])[j]);
                }
            }
            lemma_pstr_of_esc(s, i + 1, t.skip(1));
            assert(seq![c] + t.skip(1) =~= t);
            assert(pstr(s, i) == Some((t, i + e1.len() + 1)));
        }
    }
}

/// Reading a serialized string (with its quotes) back yields the text.
proof fn lemma_pkey_of_ser(s: Seq<u8>, i: int, t: Seq<u8>)
    requires
        0 <= i,
        i + ser_string(t).len() <= s.len(),
        s.subrange(i, i + ser_string(t).len() as int) == ser_string(t),
    ensures
        pkey(s, i) == Some((t, i + ser_string(t).len())),
{
    let w = ser_string(t);
    assert(s[i] == w[0]) by {
        assert(s.subrange(i, i + w.len() as int)[0] == s[i]);
    }
    assert(w[0] == QUOTE);
    assert(s.subrange(i + 1, i + 1 + esc(t).len() + 1) =~= esc(t) + seq![QUOTE]) by {
        assert forall|j: int| 0 <= j < esc(t).len() + 1 implies s.subrange(
            i + 1,
            i + 1 + esc(t).len() + 1,
        )[j] == (esc(t) + seq![QUOTE])[j] by {
            assert(s.subrange(i, i + w.len() as int)[1 + j] == s[i + 1 + j]);
            assert(w[1 + j] == (esc(t) + seq![QUOTE])[j]);
        }
    }
    lemma_pstr_of_esc(s, i + 1, t);
}

/// Reading a serialized entry back yields the entry.
proof fn lemma_pentry_of_ser(s: Seq<u8>, i: int, l: LocationModel)
    requires
        0 <= i,
        i + ser_entry(l).len() <= s.len(),
        s.subrange(i, i + ser_entry(l).len() as int) == ser_entry(l),
        spec_wf_location(l),
    ensures
        pentry(s, i) == Some((l, i + ser_entry(l).len())),
{
    let whole = ser_entry(l);
    let hy = uuid_hyphenated(l.id);
    lemma_hyphenated_plain(l.id);
    lemma_esc_plain(hy);
    lemma_uuid_canonical_round_trip(l.id);
    let k = ser_string(hy);
    let kl = k.len() as int;
    let nm = ser_string(l.name);
    let nl = nm.len() as int;
    let ds = ser_string(l.description);
    let dl = ds.len() as int;
    let open = seq![COLON, LBRACE] + lit_id();
    let sepn = seq![COMMA] + lit_name();
    let sepd = seq![COMMA] + lit_description();
    assert(whole.subrange(0, kl) =~= k);
    lemma_sub_at(s, i, whole, 0, k);
    lemma_pkey_of_ser(s, i, hy);
    assert(spec_parse_id(hy) == Some(l.id));
    let j1 = i + kl;
    assert(whole.subrange(kl, kl + 7) =~= open);
    lemma_sub_at(s, i, whole, kl, open);
    assert(matches_at(s, j1, open));
    assert(whole.subrange(kl + 7, kl + 7 + kl) =~= k);
    lemma_sub_at(s, i, whole, kl + 7, k);
    lemma_pkey_of_ser(s, j1 + 7, hy);
    let j3 = j1 + 7 + kl;
    assert(whole.subrange(kl + 7 + kl, kl + 7 + kl + 8) =~= sepn);
    lemma_sub_at(s, i, whole, kl + 7 + kl, sepn);
    assert(matches_at(s, j3, sepn));
    assert(whole.subrange(kl + 7 + kl + 8, kl + 7 + kl + 8 + nl) =~= nm);
    lemma_sub_at(s, i, whole, kl + 7 + kl + 8, nm);
    lemma_pkey_of_ser(s, j3 + 8, l.name);
    let j5 = j3 + 8 + nl;
    assert(whole.subrange(kl + 7 + kl + 8 + nl, kl + 7 + kl + 8 + nl + 15) =~= sepd);
    lemma_sub_at(s, i, whole, kl + 7 + kl + 8 + nl, sepd);
    assert(matches_at(s, j5, sepd));
    assert(whole.subrange(kl + 7 + kl + 8 + nl + 15, kl + 7 + kl + 8 + nl + 15 + dl) =~= ds);
    lemma_sub_at(s, i, whole, kl + 7 + kl + 8 + nl + 15, ds);
    lemma_pkey_of_ser(s, j5 + 15, l.description);
    let j7 = j5 + 15 + dl;
    assert(whole.len() == kl + 7 + kl + 8 + nl + 15 + dl + 1);
    assert(s[j7] == RBRACE) by {
        assert(s.subrange(i, i + whole.len() as int)[whole.len() - 1] == s[i + whole.len() - 1]);
        assert(whole[whole.len() - 1] == RBRACE);
    }
    assert(pentry(s, i) == Some(
        (LocationModel { id: l.id, name: l.name, description: l.description }, j7 + 1),
    ));
    assert(LocationModel { id: l.id, name: l.name, description: l.description } == l);
}

/// Reading serialized entries (with the closing brace) back yields
/// the entry sequence.
proof fn lemma_pentries_of_ser(s: Seq<u8>, i: int, es: Seq<LocationModel>)
    requires
        0 <= i,
        es.len() >= 1,
        forall|j: int| 0 <= j < es.len() ==> spec_wf_location(#[trigger] es[j]),
        i + ser_entries(es).len() + 1 <= s.len(),
        s.subrange(i, i + ser_entries(es).len() + 1) == ser_entries(es) + seq![RBRACE],
    ensures
        pentries(s, i) == Some((es, i + ser_entries(es).len() + 1)),
    decreases es.len(),
{
    let whole = ser_entries(es) + seq![RBRACE];
    let el = ser_entry(es[0]).len() as int;
    if es.len() == 1 {
        assert(ser_entries(es) == ser_entry(es[0]));
        assert(whole.subrange(0, el) =~= ser_entry(es[0]));
        lemma_sub_at(s, i, whole, 0, ser_entry(es[0]));
        lemma_pentry_of_ser(s, i, es[0]);
        let j = i + el;
        assert(s[j] == RBRACE) by {
            assert(s.subrange(i, i + whole.len() as int)[el] == s[i + el]);
            assert(whole[el] == RBRACE);
        }
        assert(seq![es[0]] =~= es);
        assert(el >= 1);
    } else {
        let tail = ser_entries(es.skip(1));
        assert(ser_entries(es) == ser_entry(es[0]) + seq![COMMA] + tail);
        assert(whole.subrange(0, el) =~= ser_entry(es[0]));
        lemma_sub_at(s, i, whole, 0, ser_entry(es[0]));
        lemma_pentry_of_ser(s, i, es[0]);
        let j = i + el;
        assert(s[j] == COMMA) by {
            assert(s.subrange(i, i + whole.len() as int)[el] == s[i + el]);
            assert(whole[el] == COMMA);
        }
        assert(COMMA != RBRACE);
        assert(whole.subrange(el + 1, el + 1 + tail.len() + 1) =~= tail + seq![RBRACE]);
        lemma_sub_at(s, i, whole, el + 1, tail + seq![RBRACE]);
        assert(s.subrange(i + el + 1, i + el + 1 + tail.len() + 1) == tail + seq![RBRACE]);
        assert forall|j2: int| 0 <= j2 < es.skip(1).len() implies spec_wf_location(
            #[trigger] es.skip(1)[j2],
        ) by {
            assert(es.skip(1)[j2] == es[j2 + 1]);
        }
        lemma_pentries_of_ser(s, j + 1, es.skip(1));
        assert(el >= 1);
        assert(seq![es[0]] + es.skip(1) =~= es);
    }
}

/// Folding entries with pairwise distinct identifiers appends each in
/// turn.
proof fn lemma_insert_all_app(acc: Seq<LocationModel>, ls: Seq<LocationModel>)
    requires
        unique_ids(acc + ls),
    ensures
        wm_insert_all(acc, ls) == acc + ls,
    decreases ls.len(),
{
    if ls.len() == 0 {
        assert(acc + ls =~= acc);
    } else {
        let l = ls[0];
        assert(acc + ls =~= (acc.push(l)) + ls.skip(1)) by {
            assert forall|j: int| 0 <= j < acc.len() + ls.len() implies (acc + ls)[j] == ((
            acc.push(l)) + ls.skip(1))[j] by {
                if j > acc.len() {
                    assert((acc + ls)[j] == ls[j - acc.len()]);
                    assert(ls.skip(1)[j - acc.len() - 1] == ls[j - acc.len()]);
                }
            }
        }
        lemma_find_idx(acc, l.id);
        assert(find_idx(acc, l.id) == -1) by {
            if find_idx(acc, l.id) >= 0 {
                let j = find_idx(acc, l.id);
                assert((acc + ls)[j].id == l.id);
                assert((acc + ls)[acc.len() as int].id == l.id);
            }
        }
        assert(spec_wm_insert(acc, l) == acc.push(l));
        lemma_insert_all_app(acc.push(l), ls.skip(1));
    }
}

/// Law: saving a well-formed world graph and loading the bytes back
/// yields the same entries, in the same order, hence the same mapping.
pub proof fn lemma_save_load_round_trip(w: WorldMap)
    requires
        w.wf(),
    ensures
        pworld(ser_world(w.entries())) == Some(w.entries()),
        wm_insert_all(Seq::empty(), pworld(ser_world(w.entries())).unwrap()) == w.entries(),
        map_of(wm_insert_all(Seq::empty(), pworld(ser_world(w.entries())).unwrap()))
            == w.as_map(),
{
    let es = w.entries();
    let s = ser_world(es);
    if es.len() == 0 {
        assert(ser_entries(es) =~= Seq::<u8>::empty());
        assert(s =~= seq![LBRACE, RBRACE]);
        assert(s[0] == LBRACE && s[1] == RBRACE && s.len() == 2);
        assert(ws_end(s, 0) == 0);
        assert(ws_end(s, 2) == 2);
        assert(pworld(s) == Some(Seq::<LocationModel>::empty()));
        assert(Seq::<LocationModel>::empty() =~= es);
        assert(wm_insert_all(Seq::empty(), es) == es);
    } else {
        assert(s[0] == LBRACE);
        assert(s[1] == QUOTE) by {
            let first = ser_entry(es[0]);
            assert(ser_entries(es)[0] == first[0]);
            assert(first[0] == QUOTE);
            assert(s[1] == ser_entries(es)[0]);
        }
        assert(s.len() == ser_entries(es).len() + 2);
        assert(s.subrange(1, 1 + ser_entries(es).len() as int + 1) =~= ser_entries(es) + seq![RBRACE]);
        lemma_pentries_of_ser(s, 1, es);
        assert(pentries(s, 1) == Some((es, s.len() as int)));
        assert(ws_end(s, 0) == 0);
        assert(ws_end(s, s.len() as int) == s.len());
        assert(pworld(s) == Some(es));
        assert(Seq::<LocationModel>::empty() + es =~= es);
        lemma_insert_all_app(Seq::empty(), es);
    }
}

} // verus!
