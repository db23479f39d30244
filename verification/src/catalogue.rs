//! The character catalogue: hero ids with their names and skin names, built from the
//! catalogue file's raw entries, whose ids are decimal strings.
use vstd::prelude::*;
use std::collections::HashMap;
use crate::heroes::{all_digits, digits_value, is_digit, lemma_digits_value_prefix};
use crate::scan::pair_views;
use crate::text::chars_of;

verus! {

/// A catalogue entry as read from the file: ids are still strings.
#[derive(Clone, Debug)]
pub struct RawCharacter {
    pub name: String,
    pub skins: Vec<(String, String)>,
}

/// The catalogue file's content.
#[derive(Clone, Debug)]
pub struct RawCatalogue {
    pub generated_at: Option<String>,
    pub source: Option<String>,
    pub characters: Vec<(String, RawCharacter)>,
}

/// A hero of the catalogue with its skin names by skin id.
#[derive(Clone, Debug)]
pub struct Character {
    pub name: String,
    pub skins: HashMap<u32, String>,
}

/// The catalogue in use: heroes by id.
#[derive(Clone, Debug)]
pub struct CatalogueData {
    pub characters: HashMap<u32, Character>,
    pub generated_at: Option<String>,
    pub source: Option<String>,
    /// `"bundled"` or the disk path the data came from.
    pub origin: String,
}

/// A hero's name and its skin names by skin id.
pub type CharModel = (Seq<char>, Map<u32, Seq<char>>);

/// The map that a list of distinct keys stands for.
pub open spec fn assoc_map<K, V>(v: Seq<(K, V)>) -> Map<K, V>
    decreases v.len(),
{
    if v.len() == 0 {
        Map::empty()
    } else {
        assoc_map(v.drop_last()).insert(v.last().0, v.last().1)
    }
}

pub open spec fn keys_unique<K, V>(v: Seq<(K, V)>) -> bool {
    forall|i: int, j: int| 0 <= i < j < v.len() ==> (#[trigger] v[i]).0 != (#[trigger] v[j]).0
}

pub proof fn lemma_assoc_map<K, V>(v: Seq<(K, V)>)
    requires
        keys_unique(v),
    ensures
        forall|k: K|
            assoc_map(v).dom().contains(k) ==> exists|i: int| 0 <= i < v.len() && (#[trigger] v[i]).0 == k,
        forall|i: int|
            0 <= i < v.len() ==> assoc_map(v).dom().contains((#[trigger] v[i]).0) && assoc_map(v)[v[i].0]
                == v[i].1,
    decreases v.len(),
{
    if v.len() > 0 {
        let p = v.drop_last();
        let n = v.len() - 1;
        assert(keys_unique(p)) by {
            assert forall|i: int, j: int| 0 <= i < j < p.len() implies (#[trigger] p[i]).0 != (#[trigger] p[j]).0 by {
                assert(p[i] == v[i]);
                assert(p[j] == v[j]);
            }
        }
        lemma_assoc_map(p);
        assert forall|k: K| assoc_map(v).dom().contains(k) implies exists|i: int|
            0 <= i < v.len() && (#[trigger] v[i]).0 == k by {
            if k == v[n].0 {
                assert(v[n].0 == k);
            } else {
                assert(assoc_map(p).dom().contains(k));
                let i = choose|i: int| 0 <= i < p.len() && (#[trigger] p[i]).0 == k;
                assert(v[i] == p[i]);
            }
        }
        assert forall|i: int| 0 <= i < v.len() implies assoc_map(v).dom().contains((#[trigger] v[i]).0)
            && assoc_map(v)[v[i].0] == v[i].1 by {
            if i < n {
                assert(p[i] == v[i]);
                assert(v[i].0 != v[n].0);
                assert(assoc_map(p).dom().contains(p[i].0));
            }
        }
    }
}

pub proof fn lemma_assoc_update<K, V>(v: Seq<(K, V)>, i: int, x: V)
    requires
        keys_unique(v),
        0 <= i < v.len(),
    ensures
        keys_unique(v.update(i, (v[i].0, x))),
        assoc_map(v.update(i, (v[i].0, x))) == assoc_map(v).insert(v[i].0, x),
{
    let w = v.update(i, (v[i].0, x));
    assert(keys_unique(w)) by {
        assert forall|a: int, b: int| 0 <= a < b < w.len() implies (#[trigger] w[a]).0 != (#[trigger] w[b]).0 by {
            assert(v[a].0 != v[b].0);
        }
    }
    lemma_assoc_map(v);
    lemma_assoc_map(w);
    assert forall|k: K| #[trigger] assoc_map(w).dom().contains(k) == assoc_map(v).insert(v[i].0, x).dom().contains(k) by {
        if assoc_map(v).dom().contains(k) {
            let j = choose|j: int| 0 <= j < v.len() && (#[trigger] v[j]).0 == k;
            assert(w[j].0 == k);
            assert(assoc_map(w).dom().contains(w[j].0));
        }
        if assoc_map(w).dom().contains(k) {
            let j = choose|j: int| 0 <= j < w.len() && (#[trigger] w[j]).0 == k;
            assert(v[j].0 == k);
            assert(assoc_map(v).dom().contains(v[j].0));
        }
        assert(assoc_map(w).dom().contains(w[i].0));
    }
    assert forall|k: K| assoc_map(w).dom().contains(k) implies assoc_map(w)[k] == assoc_map(v).insert(v[i].0, x)[k] by {
        let j = choose|j: int| 0 <= j < w.len() && (#[trigger] w[j]).0 == k;
        if j != i {
            assert(w[j] == v[j]);
            assert(v[j].0 != v[i].0);
        }
    }
    assert(assoc_map(w) =~= assoc_map(v).insert(v[i].0, x));
}

pub proof fn lemma_assoc_push<K, V>(v: Seq<(K, V)>, k: K, x: V)
    requires
        keys_unique(v),
        forall|i: int| 0 <= i < v.len() ==> (#[trigger] v[i]).0 != k,
    ensures
        keys_unique(v.push((k, x))),
        assoc_map(v.push((k, x))) == assoc_map(v).insert(k, x),
{
    let w = v.push((k, x));
    assert(w.drop_last() =~= v);
    assert(keys_unique(w)) by {
        assert forall|a: int, b: int| 0 <= a < b < w.len() implies (#[trigger] w[a]).0 != (#[trigger] w[b]).0 by {
            if b == v.len() {
                assert(w[a] == v[a]);
            } else {
                assert(w[a] == v[a] && w[b] == v[b]);
            }
        }
    }
}

/// `s` as Rust's `u32` parsing reads it: an optional `+`, then one or more ASCII digits
/// whose value fits.
pub open spec fn parse_u32(s: Seq<char>) -> Option<u32> {
    let d = if s.len() > 0 && s[0] == '+' {
        s.drop_first()
    } else {
        s
    };
    if d.len() > 0 && all_digits(d) && digits_value(d) <= u32::MAX {
        Some(digits_value(d) as u32)
    } else {
        None
    }
}

/// Parse a decimal id.
pub fn parse_id(s: &str) -> (r: Option<u32>)
    ensures
        r == parse_u32(s@),
{
    let c = chars_of(s);
    let start: usize = if c.len() > 0 && c[0] == '+' {
        1
    } else {
        0
    };
    let ghost d = c@.subrange(start as int, c@.len() as int);
    proof {
        if start == 1 {
            assert(d =~= s@.drop_first());
        } else {
            assert(d =~= s@);
        }
    }
    if start >= c.len() {
        proof {
            assert(d.len() == 0);
        }
        return None;
    }
    let mut v: u64 = 0;
    let mut i: usize = start;
    while i < c.len()
        invariant
            start <= i <= c@.len(),
            c@ == s@,
            d == c@.subrange(start as int, c@.len() as int),
            d == (if s@.len() > 0 && s@[0] == '+' {
                s@.drop_first()
            } else {
                s@
            }),
            all_digits(c@.subrange(start as int, i as int)),
            v == digits_value(c@.subrange(start as int, i as int)),
            v <= u32::MAX,
        decreases c@.len() - i,
    {
        let ch = c[i];
        if !('0' <= ch && ch <= '9') {
            proof {
                assert(!is_digit(d[i - start]));
            }
            return None;
        }
        let digit = (ch as u32 - 48) as u64;
        let nv = v * 10 + digit;
        proof {
            let t = c@.subrange(start as int, i + 1);
            assert(t.drop_last() =~= c@.subrange(start as int, i as int));
            assert(t.last() == ch);
            assert(digits_value(t) == nv);
        }
        if nv > 0xFFFF_FFFF {
            proof {
                lemma_digits_value_prefix(d, i + 1 - start);
                assert(d.take(i + 1 - start) =~= c@.subrange(start as int, i + 1));
            }
            return None;
        }
        v = nv;
        i = i + 1;
    }
    proof {
        assert(c@.subrange(start as int, i as int) =~= d);
    }
    Some(v as u32)
}

/// The skin names of a raw entry, by parsed skin id; ids that do not parse are dropped
/// and a later entry for the same id replaces an earlier one.
pub open spec fn raw_skins_map(skins: Seq<(Seq<char>, Seq<char>)>) -> Map<u32, Seq<char>>
    decreases skins.len(),
{
    if skins.len() == 0 {
        Map::empty()
    } else {
        let m = raw_skins_map(skins.drop_last());
        match parse_u32(skins.last().0) {
            Some(id) => m.insert(id, skins.last().1),
            None => m,
        }
    }
}

pub type RawCharModel = (Seq<char>, (Seq<char>, Seq<(Seq<char>, Seq<char>)>));

pub open spec fn raw_char_model(e: (String, RawCharacter)) -> RawCharModel {
    (e.0@, (e.1.name@, pair_views(e.1.skins@)))
}

/// The heroes of the raw entries by parsed id, as the catalogue holds them.
pub open spec fn raw_chars_map(cs: Seq<RawCharModel>) -> Map<u32, CharModel>
    decreases cs.len(),
{
    if cs.len() == 0 {
        Map::empty()
    } else {
        let m = raw_chars_map(cs.drop_last());
        match parse_u32(cs.last().0) {
            Some(id) => m.insert(id, (cs.last().1.0, raw_skins_map(cs.last().1.1))),
            None => m,
        }
    }
}

/// A hero's name and skin names, as character sequences.
pub open spec fn char_model(c: Character) -> CharModel {
    (c.name@, c.skins@.map_values(|s: String| s@))
}

impl CatalogueData {
    /// The heroes by id.
    pub open spec fn heroes(&self) -> Map<u32, CharModel> {
        self.characters@.map_values(|c: Character| char_model(c))
    }
}

fn skins_from_raw(raw: &Vec<(String, String)>) -> (r: HashMap<u32, String>)
    ensures
        r@.map_values(|s: String| s@) == raw_skins_map(pair_views(raw@)),
{
    broadcast use vstd::std_specs::hash::group_hash_axioms;

    let ghost rv = pair_views(raw@);
    let mut out: HashMap<u32, String> = HashMap::new();
    let mut i: usize = 0;
    proof {
        assert(rv.take(0) =~= Seq::<(Seq<char>, Seq<char>)>::empty());
        assert(out@.map_values(|s: String| s@) =~= raw_skins_map(rv.take(0)));
    }
    while i < raw.len()
        invariant
            rv == pair_views(raw@),
            i <= raw@.len(),
            out@.map_values(|s: String| s@) == raw_skins_map(rv.take(i as int)),
        decreases raw@.len() - i,
    {
        let ghost before = out@;
        proof {
            assert(rv.take(i + 1).drop_last() =~= rv.take(i as int));
            assert(rv.take(i + 1).last() == rv[i as int]);
            assert(rv[i as int] == (raw@[i as int].0@, raw@[i as int].1@));
        }
        match parse_id(raw[i].0.as_str()) {
            Some(id) => {
                let name = raw[i].1.clone();
                out.insert(id, name);
                proof {
                    assert(out@.map_values(|s: String| s@) =~= before.map_values(|s: String| s@).insert(
                        id,
                        raw@[i as int].1@,
                    ));
                }
            },
            None => {},
        }
        i = i + 1;
    }
    proof {
        assert(rv.take(raw@.len() as int) =~= rv);
    }
    out
}

/// The catalogue the raw entries describe: ids that do not parse as `u32` are dropped,
/// and a later entry for an id replaces an earlier one.
pub fn catalogue_from_raw(raw: RawCatalogue, origin: String) -> (r: CatalogueData)
    ensures
        r.heroes() == raw_chars_map(raw.characters@.map_values(|e: (String, RawCharacter)| raw_char_model(e))),
        r.generated_at == raw.generated_at,
        r.source == raw.source,
        r.origin == origin,
{
    broadcast use vstd::std_specs::hash::group_hash_axioms;

    let ghost rv = raw.characters@.map_values(|e: (String, RawCharacter)| raw_char_model(e));
    let mut out: HashMap<u32, Character> = HashMap::new();
    let mut i: usize = 0;
    proof {
        assert(rv.take(0) =~= Seq::<RawCharModel>::empty());
        assert(out@.map_values(|c: Character| char_model(c)) =~= raw_chars_map(rv.take(0)));
    }
    while i < raw.characters.len()
        invariant
            rv == raw.characters@.map_values(|e: (String, RawCharacter)| raw_char_model(e)),
            i <= raw.characters@.len(),
            out@.map_values(|c: Character| char_model(c)) == raw_chars_map(rv.take(i as int)),
        decreases raw.characters@.len() - i,
    {
        let ghost before = out@;
        proof {
            assert(rv.take(i + 1).drop_last() =~= rv.take(i as int));
            assert(rv.take(i + 1).last() == rv[i as int]);
        }
        let entry = &raw.characters[i];
        match parse_id(entry.0.as_str()) {
            Some(id) => {
                let skins = skins_from_raw(&entry.1.skins);
                let c = Character { name: entry.1.name.clone(), skins };
                let ghost cm = char_model(c);
                out.insert(id, c);
                proof {
                    assert(out@.map_values(|c: Character| char_model(c)) =~= before.map_values(
                        |c: Character| char_model(c),
                    ).insert(id, cm));
                }
            },
            None => {},
        }
        i = i + 1;
    }
    proof {
        assert(rv.take(raw.characters@.len() as int) =~= rv);
    }
    CatalogueData { characters: out, generated_at: raw.generated_at, source: raw.source, origin }
}

/// Hero `id` of the catalogue, if it is there.
pub fn find_character(cat: &CatalogueData, id: u32) -> (r: Option<&Character>)
    ensures
        match r {
            Some(c) => cat.heroes().dom().contains(id) && cat.heroes()[id] == char_model(*c),
            None => !cat.heroes().dom().contains(id),
        },
{
    broadcast use vstd::std_specs::hash::group_hash_axioms;

    cat.characters.get(&id)
}

/// The name of skin `sid` of a hero, if the catalogue has one.
pub fn find_skin(c: &Character, sid: u32) -> (r: Option<&String>)
    ensures
        match r {
            Some(n) => char_model(*c).1.dom().contains(sid) && char_model(*c).1[sid] == n@,
            None => !char_model(*c).1.dom().contains(sid),
        },
{
    broadcast use vstd::std_specs::hash::group_hash_axioms;

    c.skins.get(&sid)
}

} // verus!
