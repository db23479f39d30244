//! Which heroes and skins a mod targets: the hits of all its asset paths gathered per
//! hero, named from the catalogue, and listed by hero name.
use vstd::prelude::*;
use std::collections::HashSet;
use crate::catalogue::{
    char_model, find_character, find_skin, CatalogueData, CharModel, Character,
};
use crate::heroes::{detect_in_path, path_hits, Hit};
use crate::order::{is_stable_sort, law_sorted_is_reordering, permuted, sorted_by_keys, stable_order};
use vstd::std_specs::hash::spec_hash_map_iter;
use vstd::std_specs::iter::IteratorSpec;
use crate::text::{chars_of, decimal, decimal_digits, ends_with, string_of_range, views};

verus! {

/// A hero a mod targets, with the skins it touches (ascending) and their names.
#[derive(Clone, Debug)]
pub struct HeroMatch {
    pub character_id: u32,
    pub character_name: String,
    pub skin_ids: Vec<u32>,
    pub skin_names: Vec<String>,
}

/// A hero of the catalogue, for listing.
#[derive(Clone, Debug)]
pub struct CharacterSummary {
    pub id: u32,
    pub name: String,
}

pub type HeroView = (u32, Seq<char>, Seq<u32>, Seq<Seq<char>>);

pub open spec fn hero_view(h: HeroMatch) -> HeroView {
    (h.character_id, h.character_name@, h.skin_ids@, views(h.skin_names@))
}

pub open spec fn hero_views(v: Seq<HeroMatch>) -> Seq<HeroView> {
    v.map_values(|h: HeroMatch| hero_view(h))
}

/// The hits of all `paths`, path by path.
pub open spec fn all_hits(paths: Seq<Seq<char>>, known: Set<u32>) -> Seq<Hit>
    decreases paths.len(),
{
    if paths.len() == 0 {
        Seq::empty()
    } else {
        all_hits(paths.drop_last(), known) + path_hits(paths.last(), known)
    }
}

/// The known heroes among `hs`, each once, in the order of their first hit.
pub open spec fn hero_order(hs: Seq<Hit>, known: Set<u32>) -> Seq<u32>
    decreases hs.len(),
{
    if hs.len() == 0 {
        Seq::empty()
    } else {
        let o = hero_order(hs.drop_last(), known);
        let c = hs.last().0;
        if known.contains(c) && !o.contains(c) {
            o.push(c)
        } else {
            o
        }
    }
}

/// Index of the first element of `s` that is at least `x`, or `s.len()`.
pub open spec fn first_at_least(s: Seq<u32>, x: u32) -> int
    decreases s.len(),
{
    if s.len() == 0 {
        0
    } else if s[0] >= x {
        0
    } else {
        1 + first_at_least(s.drop_first(), x)
    }
}

/// `x` added to the ascending list `s` unless already there.
pub open spec fn ins_sorted(s: Seq<u32>, x: u32) -> Seq<u32> {
    if s.contains(x) {
        s
    } else {
        s.insert(first_at_least(s, x), x)
    }
}

/// The skins of hero `c` among `hs`, ascending.
pub open spec fn skin_list(hs: Seq<Hit>, c: u32) -> Seq<u32>
    decreases hs.len(),
{
    if hs.len() == 0 {
        Seq::empty()
    } else {
        let p = skin_list(hs.drop_last(), c);
        let h = hs.last();
        if h.0 == c && h.1 is Some {
            ins_sorted(p, h.1->0)
        } else {
            p
        }
    }
}

/// A skin's catalogue name, or `Skin {id}` when the catalogue has none.
pub open spec fn skin_label(skins: Map<u32, Seq<char>>, sid: u32) -> Seq<char> {
    if skins.dom().contains(sid) {
        skins[sid]
    } else {
        "Skin "@ + decimal(sid as nat)
    }
}

/// What the match for hero `c` holds.
pub open spec fn hero_entry(cat: Map<u32, CharModel>, hs: Seq<Hit>, c: u32) -> HeroView {
    let sk = skin_list(hs, c);
    (c, cat[c].0, sk, sk.map_values(|sid: u32| skin_label(cat[c].1, sid)))
}

/// The matches for the hits `hs`, in the order of each hero's first hit.
pub open spec fn hero_entries(cat: Map<u32, CharModel>, hs: Seq<Hit>) -> Seq<HeroView> {
    hero_order(hs, cat.dom()).map_values(|c: u32| hero_entry(cat, hs, c))
}

/// The matches for the asset `paths` of a mod, before ordering by name.
pub open spec fn detected(cat: CatalogueData, paths: Seq<Seq<char>>) -> Seq<HeroView> {
    hero_entries(cat.heroes(), all_hits(paths, cat.heroes().dom()))
}

pub open spec fn strictly_ascending(s: Seq<u32>) -> bool {
    forall|i: int, j: int| 0 <= i < j < s.len() ==> s[i] < s[j]
}

proof fn lemma_first_at_least(s: Seq<u32>, x: u32)
    requires
        strictly_ascending(s),
    ensures
        0 <= first_at_least(s, x) <= s.len(),
        forall|i: int| 0 <= i < first_at_least(s, x) ==> s[i] < x,
        forall|i: int| first_at_least(s, x) <= i < s.len() ==> s[i] >= x,
    decreases s.len(),
{
    if s.len() > 0 && s[0] < x {
        let t = s.drop_first();
        assert(strictly_ascending(t)) by {
            assert forall|i: int, j: int| 0 <= i < j < t.len() implies t[i] < t[j] by {
                assert(t[i] == s[i + 1] && t[j] == s[j + 1]);
            }
        }
        lemma_first_at_least(t, x);
        assert forall|i: int| first_at_least(s, x) <= i < s.len() implies s[i] >= x by {
            assert(s[i] == t[i - 1]);
        }
        assert forall|i: int| 0 <= i < first_at_least(s, x) implies s[i] < x by {
            if i > 0 {
                assert(s[i] == t[i - 1]);
            }
        }
    } else if s.len() > 0 {
        assert forall|i: int| 0 <= i < s.len() implies s[i] >= x by {
            if i > 0 {
                assert(s[0] < s[i]);
            }
        }
    }
}

/// The skin list of a hero is ascending without repeats and holds exactly the skins hit
/// for that hero.
pub proof fn law_skin_list(hs: Seq<Hit>, c: u32)
    ensures
        strictly_ascending(skin_list(hs, c)),
        forall|s: u32|
            #![trigger skin_list(hs, c).contains(s)]
            skin_list(hs, c).contains(s) <==> exists|i: int|
                0 <= i < hs.len() && #[trigger] hs[i] == (c, Some(s)),
    decreases hs.len(),
{
    if hs.len() > 0 {
        let pre = hs.drop_last();
        let p = skin_list(pre, c);
        let h = hs.last();
        law_skin_list(pre, c);
        if h.0 == c && h.1 is Some {
            let x = h.1->0;
            if !p.contains(x) {
                lemma_first_at_least(p, x);
                let j = first_at_least(p, x);
                let q = p.insert(j, x);
                assert(strictly_ascending(q)) by {
                    assert forall|a: int, b: int| 0 <= a < b < q.len() implies q[a] < q[b] by {
                        if b < j {
                        } else if b == j {
                            assert(q[a] == p[a]);
                        } else if a < j {
                            assert(q[a] == p[a] && q[b] == p[b - 1]);
                            assert(p[b - 1] != x);
                        } else if a == j {
                            assert(q[b] == p[b - 1]);
                            assert(p[b - 1] != x);
                        } else {
                            assert(q[a] == p[a - 1] && q[b] == p[b - 1]);
                        }
                    }
                }
            }
        }
        assert forall|s: u32|
            #![trigger skin_list(hs, c).contains(s)]
            skin_list(hs, c).contains(s) <==> exists|i: int| 0 <= i < hs.len() && #[trigger] hs[i] == (c, Some(s)) by {
            if skin_list(hs, c).contains(s) {
                if h == (c, Some(s)) {
                    assert(hs[hs.len() - 1] == (c, Some(s)));
                } else {
                    assert(p.contains(s)) by {
                        if h.0 == c && h.1 is Some && !p.contains(h.1->0) {
                            let q = p.insert(first_at_least(p, h.1->0), h.1->0);
                            let k = choose|k: int| 0 <= k < q.len() && q[k] == s;
                            lemma_first_at_least(p, h.1->0);
                            let j = first_at_least(p, h.1->0);
                            if k < j {
                                assert(p[k] == s);
                            } else if k > j {
                                assert(p[k - 1] == s);
                            }
                        }
                    }
                    let i = choose|i: int| 0 <= i < pre.len() && #[trigger] pre[i] == (c, Some(s));
                    assert(hs[i] == pre[i]);
                }
            }
            if exists|i: int| 0 <= i < hs.len() && #[trigger] hs[i] == (c, Some(s)) {
                let i = choose|i: int| 0 <= i < hs.len() && #[trigger] hs[i] == (c, Some(s));
                if i == hs.len() - 1 {
                    if !p.contains(s) {
                        lemma_first_at_least(p, s);
                        assert(p.insert(first_at_least(p, s), s)[first_at_least(p, s)] == s);
                    }
                } else {
                    assert(pre[i] == hs[i]);
                    assert(p.contains(s));
                    if h.0 == c && h.1 is Some && !p.contains(h.1->0) {
                        let x = h.1->0;
                        lemma_first_at_least(p, x);
                        let j = first_at_least(p, x);
                        let k = choose|k: int| 0 <= k < p.len() && p[k] == s;
                        let q = p.insert(j, x);
                        if k < j {
                            assert(q[k] == s);
                        } else {
                            assert(q[k + 1] == s);
                        }
                    }
                }
            }
        }
    }
}

/// Each hero of the order is known, hit, and listed once.
pub proof fn law_hero_order(hs: Seq<Hit>, known: Set<u32>)
    ensures
        forall|i: int, j: int|
            0 <= i < j < hero_order(hs, known).len() ==> hero_order(hs, known)[i] != hero_order(
                hs,
                known,
            )[j],
        forall|c: u32|
            #![trigger hero_order(hs, known).contains(c)]
            hero_order(hs, known).contains(c) <==> (known.contains(c) && exists|i: int|
                0 <= i < hs.len() && (#[trigger] hs[i]).0 == c),
    decreases hs.len(),
{
    if hs.len() > 0 {
        let pre = hs.drop_last();
        law_hero_order(pre, known);
        let o = hero_order(pre, known);
        assert forall|c: u32|
            #![trigger hero_order(hs, known).contains(c)]
            hero_order(hs, known).contains(c) <==> (known.contains(c) && exists|i: int| 0 <= i < hs.len() && (#[trigger] hs[i]).0 == c) by {
            if hero_order(hs, known).contains(c) {
                if o.contains(c) {
                    let i = choose|i: int| 0 <= i < pre.len() && (#[trigger] pre[i]).0 == c;
                    assert(hs[i] == pre[i]);
                } else {
                    let k = choose|k: int| 0 <= k < hero_order(hs, known).len() && hero_order(hs, known)[k] == c;
                    assert(k == o.len());
                    assert(hs[hs.len() - 1].0 == c);
                }
            }
            if known.contains(c) && exists|i: int| 0 <= i < hs.len() && (#[trigger] hs[i]).0 == c {
                let i = choose|i: int| 0 <= i < hs.len() && (#[trigger] hs[i]).0 == c;
                if i < hs.len() - 1 {
                    assert(pre[i] == hs[i]);
                    assert(o.contains(c));
                    let k = choose|k: int| 0 <= k < o.len() && o[k] == c;
                    assert(hero_order(hs, known)[k] == c);
                } else if !o.contains(c) {
                    assert(hero_order(hs, known)[o.len() as int] == c);
                } else {
                    let k = choose|k: int| 0 <= k < o.len() && o[k] == c;
                    assert(hero_order(hs, known)[k] == c);
                }
            }
        }
    }
}

proof fn lemma_no_skins_before_first_hit(hs: Seq<Hit>, known: Set<u32>, c: u32)
    requires
        known.contains(c),
        !hero_order(hs, known).contains(c),
    ensures
        skin_list(hs, c) == Seq::<u32>::empty(),
    decreases hs.len(),
{
    if hs.len() > 0 {
        let pre = hs.drop_last();
        law_hero_order(hs, known);
        law_hero_order(pre, known);
        if hero_order(pre, known).contains(c) {
            let i = choose|i: int| 0 <= i < pre.len() && (#[trigger] pre[i]).0 == c;
            assert(hs[i] == pre[i]);
        }
        lemma_no_skins_before_first_hit(pre, known, c);
        if hs.last().0 == c {
            assert(hs[hs.len() - 1].0 == c);
        }
    }
}

fn contains_u32(v: &Vec<u32>, x: u32) -> (r: bool)
    ensures
        r == v@.contains(x),
{
    let mut i: usize = 0;
    while i < v.len()
        invariant
            i <= v@.len(),
            forall|q: int| 0 <= q < i ==> v@[q] != x,
        decreases v@.len() - i,
    {
        if v[i] == x {
            return true;
        }
        i = i + 1;
    }
    false
}

fn insert_sorted(v: &mut Vec<u32>, x: u32)
    ensures
        final(v)@ == ins_sorted(old(v)@, x),
{
    if contains_u32(v, x) {
        return;
    }
    let ghost s = v@;
    let mut j: usize = 0;
    proof {
        assert(s.skip(0) =~= s);
    }
    while j < v.len() && v[j] < x
        invariant
            s == v@,
            j <= s.len(),
            first_at_least(s, x) == j + first_at_least(s.skip(j as int), x),
        decreases s.len() - j,
    {
        proof {
            assert(s.skip(j as int)[0] == s[j as int]);
            assert(s.skip(j as int).drop_first() =~= s.skip(j + 1));
        }
        j = j + 1;
    }
    proof {
        if j < s.len() {
            assert(s.skip(j as int)[0] == s[j as int]);
        }
    }
    v.insert(j, x);
}

/// The heroes of the catalogue as id and name, in the order the map walks them: each
/// hero once, with its catalogue name.
pub open spec fn is_listing(cat: CatalogueData, l: Seq<(u32, Seq<char>)>) -> bool {
    &&& forall|i: int, j: int| 0 <= i < j < l.len() ==> (#[trigger] l[i]).0 != (#[trigger] l[j]).0
    &&& forall|i: int|
        0 <= i < l.len() ==> cat.heroes().dom().contains((#[trigger] l[i]).0) && cat.heroes()[l[i].0].0
            == l[i].1
    &&& forall|id: u32| #[trigger] cat.heroes().dom().contains(id) ==> exists|i: int| 0 <= i < l.len() && l[i].0 == id
}

/// The catalogue's heroes as summaries, in the order the map walks them.
fn catalogue_summaries(cat: &CatalogueData) -> (r: Vec<CharacterSummary>)
    ensures
        is_listing(*cat, summary_views(r@)),
{
    broadcast use vstd::std_specs::hash::group_hash_axioms;

    let mut out: Vec<CharacterSummary> = Vec::new();
    let ghost all = spec_hash_map_iter(&cat.characters).remaining();
    for (id, c) in it: cat.characters.iter()
        invariant
            all == spec_hash_map_iter(&cat.characters).remaining(),
            it.seq() == all,
            out@.len() == it.index(),
            forall|q: int|
                0 <= q < it.index() ==> summary_view(#[trigger] out@[q]) == (*all[q].0, all[q].1.name@),
    {
        out.push(CharacterSummary { id: *id, name: c.name.clone() });
    }
    proof {
        let l = summary_views(out@);
        assert(all.no_duplicates());
        assert forall|i: int, j: int| 0 <= i < j < l.len() implies (#[trigger] l[i]).0 != (#[trigger] l[j]).0 by {
            if l[i].0 == l[j].0 {
                assert(cat.characters@.contains_key(*all[i].0));
                assert(cat.characters@[*all[i].0] == *all[i].1);
                assert(cat.characters@[*all[j].0] == *all[j].1);
                assert(all[i] == all[j]);
            }
        }
        assert forall|i: int| 0 <= i < l.len() implies cat.heroes().dom().contains((#[trigger] l[i]).0)
            && cat.heroes()[l[i].0].0 == l[i].1 by {
            assert(cat.characters@.contains_key(*all[i].0));
            assert(cat.characters@[*all[i].0] == *all[i].1);
        }
        assert forall|id: u32| #[trigger] cat.heroes().dom().contains(id) implies exists|i: int|
            0 <= i < l.len() && l[i].0 == id by {
            assert(cat.characters@.contains_key(id));
            assert(all.contains((&id, &cat.characters@[id])));
            let i = choose|i: int| 0 <= i < all.len() && all[i] == (&id, &cat.characters@[id]);
            assert(l[i].0 == id);
        }
    }
    out
}

/// The heroes of the catalogue, as a set for the per-path detector.
fn known_ids(cat: &CatalogueData) -> (r: HashSet<u32>)
    ensures
        r@ == cat.heroes().dom(),
{
    broadcast use vstd::std_specs::hash::group_hash_axioms;

    let list = catalogue_summaries(cat);
    let ghost l = summary_views(list@);
    let mut s: HashSet<u32> = HashSet::new();
    let mut i: usize = 0;
    while i < list.len()
        invariant
            l == summary_views(list@),
            is_listing(*cat, l),
            i <= list@.len(),
            forall|k: u32| #[trigger] s@.contains(k) <==> exists|q: int| 0 <= q < i && l[q].0 == k,
        decreases list@.len() - i,
    {
        s.insert(list[i].id);
        proof {
            assert(l[i as int].0 == list@[i as int].id);
            assert forall|k: u32| #[trigger] s@.contains(k) <==> exists|q: int| 0 <= q < i + 1 && l[q].0 == k by {
                if k == l[i as int].0 {
                    assert(l[i as int].0 == k);
                }
            }
        }
        i = i + 1;
    }
    proof {
        assert forall|k: u32| #[trigger] s@.contains(k) == cat.heroes().dom().contains(k) by {
            if s@.contains(k) {
                let q = choose|q: int| 0 <= q < i && l[q].0 == k;
                assert(cat.heroes().dom().contains(l[q].0));
            }
        }
        assert(s@ =~= cat.heroes().dom());
    }
    s
}

fn copy_u32s(v: &Vec<u32>) -> (r: Vec<u32>)
    ensures
        r@ == v@,
{
    let mut r: Vec<u32> = Vec::new();
    let mut i: usize = 0;
    while i < v.len()
        invariant
            i <= v@.len(),
            r@ == v@.take(i as int),
        decreases v@.len() - i,
    {
        r.push(v[i]);
        i = i + 1;
        proof {
            assert(r@ =~= v@.take(i as int));
        }
    }
    proof {
        assert(v@.take(v@.len() as int) =~= v@);
    }
    r
}

fn copy_strings(v: &Vec<String>) -> (r: Vec<String>)
    ensures
        r@ == v@,
{
    let mut r: Vec<String> = Vec::new();
    let mut i: usize = 0;
    while i < v.len()
        invariant
            i <= v@.len(),
            r@ == v@.take(i as int),
        decreases v@.len() - i,
    {
        r.push(v[i].clone());
        i = i + 1;
        proof {
            assert(r@ =~= v@.take(i as int));
        }
    }
    proof {
        assert(v@.take(v@.len() as int) =~= v@);
    }
    r
}

pub(crate) fn copy_hero(h: &HeroMatch) -> (r: HeroMatch)
    ensures
        hero_view(r) == hero_view(*h),
{
    HeroMatch {
        character_id: h.character_id,
        character_name: h.character_name.clone(),
        skin_ids: copy_u32s(&h.skin_ids),
        skin_names: copy_strings(&h.skin_names),
    }
}

/// A copy of a list of matches.
pub(crate) fn copy_heroes(v: &Vec<HeroMatch>) -> (r: Vec<HeroMatch>)
    ensures
        hero_views(r@) == hero_views(v@),
{
    let mut r: Vec<HeroMatch> = Vec::new();
    let mut i: usize = 0;
    while i < v.len()
        invariant
            i <= v@.len(),
            r@.len() == i,
            forall|q: int| 0 <= q < i ==> hero_view(#[trigger] r@[q]) == hero_view(v@[q]),
        decreases v@.len() - i,
    {
        r.push(copy_hero(&v[i]));
        i = i + 1;
    }
    proof {
        assert(hero_views(r@) =~= hero_views(v@));
    }
    r
}

/// `Skin {sid}`.
fn fallback_skin_name(sid: u32) -> (r: String)
    ensures
        r@ == "Skin "@ + decimal(sid as nat),
{
    let digits = decimal_digits(sid as usize);
    let mut m = String::from_str("Skin ");
    m.append(string_of_range(digits.as_slice(), 0, digits.len()).as_str());
    proof {
        assert(digits@.subrange(0, digits@.len() as int) =~= digits@);
    }
    m
}

/// The match for hero `c` from its ascending skin ids.
fn build_match(cat: &CatalogueData, c: u32, skins: &Vec<u32>, Ghost(hs): Ghost<Seq<Hit>>) -> (r: HeroMatch)
    requires
        cat.heroes().dom().contains(c),
        skins@ == skin_list(hs, c),
    ensures
        hero_view(r) == hero_entry(cat.heroes(), hs, c),
{
    let ch: &Character = find_character(cat, c).unwrap();
    let ghost cm: CharModel = cat.heroes()[c];
    proof {
        assert(cm == char_model(*ch));
    }
    let mut names: Vec<String> = Vec::new();
    let mut j: usize = 0;
    while j < skins.len()
        invariant
            cm == char_model(*ch),
            j <= skins@.len(),
            names@.len() == j,
            forall|q: int| 0 <= q < j ==> (#[trigger] names@[q])@ == skin_label(cm.1, skins@[q]),
        decreases skins@.len() - j,
    {
        let sid = skins[j];
        match find_skin(ch, sid) {
            Some(n) => {
                names.push(n.clone());
            },
            None => {
                names.push(fallback_skin_name(sid));
            },
        }
        j = j + 1;
    }
    let r = HeroMatch {
        character_id: c,
        character_name: ch.name.clone(),
        skin_ids: copy_u32s(skins),
        skin_names: names,
    };
    proof {
        let e = hero_entry(cat.heroes(), hs, c);
        assert(views(r.skin_names@) =~= e.3);
    }
    r
}

/// The heroes and skins that the asset `paths` of a mod hit, each hero once, in the
/// order of its first hit; hits on ids the catalogue does not know are dropped.
pub fn aggregate_heroes(paths: &Vec<String>, cat: &CatalogueData) -> (r: Vec<HeroMatch>)
    ensures
        hero_views(r@) == detected(*cat, views(paths@)),
{
    let known = known_ids(cat);
    let ghost dom = cat.heroes().dom();
    let ghost pv = views(paths@);
    let mut ids: Vec<u32> = Vec::new();
    let mut skins: Vec<Vec<u32>> = Vec::new();
    let mut pi: usize = 0;
    proof {
        assert(pv.take(0) =~= Seq::<Seq<char>>::empty());
    }
    while pi < paths.len()
        invariant
            known@ == dom,
            dom == cat.heroes().dom(),
            pv == views(paths@),
            pi <= paths@.len(),
            ids@ == hero_order(all_hits(pv.take(pi as int), dom), dom),
            skins@.len() == ids@.len(),
            forall|k: int| 0 <= k < ids@.len() ==> dom.contains(#[trigger] ids@[k]),
            forall|k: int|
                0 <= k < ids@.len() ==> (#[trigger] skins@[k])@ == skin_list(
                    all_hits(pv.take(pi as int), dom),
                    ids@[k],
                ),
        decreases paths@.len() - pi,
    {
        let hits = detect_in_path(paths[pi].as_str(), &known);
        let ghost before = all_hits(pv.take(pi as int), dom);
        proof {
            assert(pv.take(pi + 1).drop_last() =~= pv.take(pi as int));
            assert(pv.take(pi + 1).last() == paths@[pi as int]@);
            assert(all_hits(pv.take(pi + 1), dom) == before + hits@);
            assert(before + hits@.take(0) =~= before);
        }
        let mut hi: usize = 0;
        while hi < hits.len()
            invariant
                known@ == dom,
                dom == cat.heroes().dom(),
                hi <= hits@.len(),
                ids@ == hero_order(before + hits@.take(hi as int), dom),
                skins@.len() == ids@.len(),
                forall|k: int| 0 <= k < ids@.len() ==> dom.contains(#[trigger] ids@[k]),
                forall|k: int|
                    0 <= k < ids@.len() ==> (#[trigger] skins@[k])@ == skin_list(
                        before + hits@.take(hi as int),
                        ids@[k],
                    ),
            decreases hits@.len() - hi,
        {
            let (c, s) = hits[hi];
            let ghost hs0 = before + hits@.take(hi as int);
            let ghost hs1 = before + hits@.take(hi + 1);
            proof {
                assert(hs1.drop_last() =~= hs0);
                assert(hs1.last() == (c, s));
                law_hero_order(hs0, dom);
            }
            if known.contains(&c) {
                let mut k: usize = 0;
                while k < ids.len() && ids[k] != c
                    invariant
                        k <= ids@.len(),
                        forall|q: int| 0 <= q < k ==> ids@[q] != c,
                    decreases ids@.len() - k,
                {
                    k = k + 1;
                }
                if k == ids.len() {
                    proof {
                        assert(!hero_order(hs0, dom).contains(c));
                        lemma_no_skins_before_first_hit(hs0, dom, c);
                    }
                    ids.push(c);
                    skins.push(Vec::new());
                }
                let ghost ids1 = ids@;
                let ghost skins1 = skins@;
                proof {
                    assert(ids@ == hero_order(hs1, dom));
                    assert(ids@[k as int] == c);
                    assert forall|q: int| 0 <= q < ids@.len() && q != k implies ids@[q] != c by {
                        assert(hero_order(hs0, dom)[q] != hero_order(hs0, dom)[k as int] || k
                            == hero_order(hs0, dom).len());
                    }
                    assert(skins@[k as int]@ == skin_list(hs0, c));
                }
                match s {
                    Some(sid) => {
                        let mut cur: Vec<u32> = Vec::new();
                        skins.set_and_swap(k, &mut cur);
                        insert_sorted(&mut cur, sid);
                        skins.set(k, cur);
                    },
                    None => {},
                }
                proof {
                    assert forall|q: int| 0 <= q < ids@.len() implies (#[trigger] skins@[q])@ == skin_list(hs1, ids@[q]) by {
                        if q != k {
                            assert(skins@[q] == skins1[q]);
                        }
                    }
                }
            } else {
                proof {
                    assert(ids@ == hero_order(hs1, dom));
                    assert forall|q: int| 0 <= q < ids@.len() implies (#[trigger] skins@[q])@ == skin_list(hs1, ids@[q]) by {
                        assert(ids@[q] != c);
                    }
                }
            }
            hi = hi + 1;
        }
        proof {
            assert(hits@.take(hits@.len() as int) =~= hits@);
        }
        pi = pi + 1;
    }
    let ghost hs = all_hits(pv.take(pi as int), dom);
    proof {
        assert(pv.take(pi as int) =~= pv);
    }
    let mut out: Vec<HeroMatch> = Vec::new();
    let mut k: usize = 0;
    while k < ids.len()
        invariant
            dom == cat.heroes().dom(),
            hs == all_hits(pv, dom),
            ids@ == hero_order(hs, dom),
            skins@.len() == ids@.len(),
            forall|q: int| 0 <= q < ids@.len() ==> dom.contains(#[trigger] ids@[q]),
            forall|q: int| 0 <= q < ids@.len() ==> (#[trigger] skins@[q])@ == skin_list(hs, ids@[q]),
            k <= ids@.len(),
            out@.len() == k,
            forall|q: int| 0 <= q < k ==> hero_view(#[trigger] out@[q]) == hero_entry(cat.heroes(), hs, ids@[q]),
        decreases ids@.len() - k,
    {
        out.push(build_match(cat, ids[k], &skins[k], Ghost(hs)));
        k = k + 1;
    }
    proof {
        assert(hero_views(out@) =~= hero_entries(cat.heroes(), hs));
    }
    out
}

/// Lowercase of a text by Unicode's full case mapping, as `str::to_lowercase` gives it.
pub uninterp spec fn unicode_lower(s: Seq<char>) -> Seq<char>;

/// `str::to_lowercase`: the text with each character replaced by its Unicode lowercase
/// mapping. Its result is a fixed function of the text, named `unicode_lower`; nothing
/// more of it is stated.
#[verifier::external_body]
fn unicode_lowercase(s: &str) -> (r: String)
    ensures
        r@ == unicode_lower(s@),
{
    s.to_lowercase()
}

pub open spec fn key_views(keys: Seq<Vec<char>>) -> Seq<Seq<char>> {
    keys.map_values(|k: Vec<char>| k@)
}

/// What a match says of hero `v.0` given the catalogue `cat` and the hits `hs`: the
/// hero is known, the match is the catalogue's name with the hero's skins (ascending,
/// exactly those hit for the hero) and each skin's catalogue name or `Skin {id}`.
pub open spec fn match_law(cat: Map<u32, CharModel>, hs: Seq<Hit>, v: HeroView) -> bool {
    &&& cat.dom().contains(v.0)
    &&& v == hero_entry(cat, hs, v.0)
    &&& strictly_ascending(v.2)
    &&& forall|s: u32|
        #![trigger v.2.contains(s)]
        v.2.contains(s) <==> exists|j: int| 0 <= j < hs.len() && #[trigger] hs[j] == (v.0, Some(s))
}

/// The matches detected from a mod's paths, before ordering: one per known hero that was
/// hit, and nothing else; each holds the catalogue's name, the hero's hit skins in
/// ascending order, and their names.
pub proof fn law_detected_heroes(cat: CatalogueData, paths: Seq<Seq<char>>)
    ensures
        ({
            let k = cat.heroes();
            let hs = all_hits(paths, k.dom());
            let d = detected(cat, paths);
            &&& forall|i: int| 0 <= i < d.len() ==> match_law(k, hs, #[trigger] d[i])
            &&& forall|i: int, j: int| 0 <= i < j < d.len() ==> (#[trigger] d[i]).0 != (#[trigger] d[j]).0
            &&& forall|c: u32|
                (exists|i: int| 0 <= i < d.len() && (#[trigger] d[i]).0 == c) <==> (k.dom().contains(c)
                    && exists|j: int| 0 <= j < hs.len() && (#[trigger] hs[j]).0 == c)
        }),
{
    let k = cat.heroes();
    let hs = all_hits(paths, k.dom());
    let d = detected(cat, paths);
    let o = hero_order(hs, k.dom());
    law_hero_order(hs, k.dom());
    assert(d.len() == o.len());
    assert forall|i: int| 0 <= i < d.len() implies match_law(k, hs, #[trigger] d[i]) by {
        assert(d[i] == hero_entry(k, hs, o[i]));
        assert(o.contains(o[i]));
        law_skin_list(hs, o[i]);
    }
    assert forall|i: int, j: int| 0 <= i < j < d.len() implies (#[trigger] d[i]).0 != (#[trigger] d[j]).0 by {
        assert(d[i].0 == o[i] && d[j].0 == o[j]);
    }
    assert forall|c: u32|
        (exists|i: int| 0 <= i < d.len() && (#[trigger] d[i]).0 == c) <==> (k.dom().contains(c)
            && exists|j: int| 0 <= j < hs.len() && (#[trigger] hs[j]).0 == c) by {
        if exists|i: int| 0 <= i < d.len() && (#[trigger] d[i]).0 == c {
            let i = choose|i: int| 0 <= i < d.len() && (#[trigger] d[i]).0 == c;
            assert(d[i].0 == o[i]);
            assert(o.contains(c));
        }
        if k.dom().contains(c) && exists|j: int| 0 <= j < hs.len() && (#[trigger] hs[j]).0 == c {
            assert(o.contains(c));
            let i = choose|i: int| 0 <= i < o.len() && o[i] == c;
            assert(d[i].0 == o[i]);
        }
    }
}

/// `heroes` listed by `keys` (one per hero), stable for equal keys.
pub fn order_heroes(heroes: &Vec<HeroMatch>, keys: &Vec<Vec<char>>) -> (r: Vec<HeroMatch>)
    requires
        keys@.len() == heroes@.len(),
    ensures
        sorted_by_keys(hero_views(heroes@), key_views(keys@), hero_views(r@)),
{
    let p = stable_order(keys);
    let mut out: Vec<HeroMatch> = Vec::new();
    let mut k: usize = 0;
    while k < p.len()
        invariant
            is_stable_sort(key_views(keys@), p@),
            keys@.len() == heroes@.len(),
            k <= p@.len(),
            out@.len() == k,
            forall|q: int| 0 <= q < k ==> hero_view(#[trigger] out@[q]) == hero_view(heroes@[p@[q] as int]),
        decreases p@.len() - k,
    {
        out.push(copy_hero(&heroes[p[k]]));
        k = k + 1;
    }
    proof {
        assert(permuted(hero_views(heroes@), p@, hero_views(out@)));
    }
    out
}

/// The hero matches of a mod from its asset paths, listed by lowercase hero name.
pub fn detect_heroes_from_paths(paths: &Vec<String>, cat: &CatalogueData) -> (r: Vec<HeroMatch>)
    ensures
        sorted_by_keys(
            detected(*cat, views(paths@)),
            detected(*cat, views(paths@)).map_values(|e: HeroView| unicode_lower(e.1)),
            hero_views(r@),
        ),
        ({
            let k = cat.heroes();
            let hs = all_hits(views(paths@), k.dom());
            let out = hero_views(r@);
            &&& forall|i: int| 0 <= i < out.len() ==> match_law(k, hs, #[trigger] out[i])
            &&& forall|i: int, j: int| 0 <= i < j < out.len() ==> (#[trigger] out[i]).0 != (#[trigger] out[j]).0
            &&& forall|c: u32|
                (exists|i: int| 0 <= i < out.len() && (#[trigger] out[i]).0 == c) <==> (k.dom().contains(c)
                    && exists|j: int| 0 <= j < hs.len() && (#[trigger] hs[j]).0 == c)
        }),
{
    let agg = aggregate_heroes(paths, cat);
    let ghost d = detected(*cat, views(paths@));
    let mut keys: Vec<Vec<char>> = Vec::new();
    let mut i: usize = 0;
    while i < agg.len()
        invariant
            hero_views(agg@) == d,
            i <= agg@.len(),
            keys@.len() == i,
            forall|q: int| 0 <= q < i ==> (#[trigger] keys@[q])@ == unicode_lower(agg@[q].character_name@),
        decreases agg@.len() - i,
    {
        let low = unicode_lowercase(agg[i].character_name.as_str());
        keys.push(chars_of(low.as_str()));
        i = i + 1;
    }
    proof {
        assert(key_views(keys@) =~= d.map_values(|e: HeroView| unicode_lower(e.1)));
    }
    let r = order_heroes(&agg, &keys);
    proof {
        let k = cat.heroes();
        let hs = all_hits(views(paths@), k.dom());
        let out = hero_views(r@);
        law_detected_heroes(*cat, views(paths@));
        law_sorted_is_reordering(d, d.map_values(|e: HeroView| unicode_lower(e.1)), out);
        assert forall|i: int| 0 <= i < out.len() implies match_law(k, hs, #[trigger] out[i]) by {
            assert(d.contains(out[i]));
            let q = choose|q: int| 0 <= q < d.len() && d[q] == out[i];
            assert(match_law(k, hs, d[q]));
        }
        assert(forall|i: int, j: int| 0 <= i < j < d.len() ==> d[i] != d[j]) by {
            assert forall|i: int, j: int| 0 <= i < j < d.len() implies d[i] != d[j] by {
                assert(d[i].0 != d[j].0);
            }
        }
        assert forall|i: int, j: int| 0 <= i < j < out.len() implies (#[trigger] out[i]).0 != (#[trigger] out[j]).0 by {
            assert(out[i] != out[j]);
            assert(match_law(k, hs, out[i]) && match_law(k, hs, out[j]));
        }
        assert forall|c: u32|
            (exists|i: int| 0 <= i < out.len() && (#[trigger] out[i]).0 == c) <==> (k.dom().contains(c)
                && exists|j: int| 0 <= j < hs.len() && (#[trigger] hs[j]).0 == c) by {
            if exists|i: int| 0 <= i < out.len() && (#[trigger] out[i]).0 == c {
                let i = choose|i: int| 0 <= i < out.len() && (#[trigger] out[i]).0 == c;
                assert(d.contains(out[i]));
                let q = choose|q: int| 0 <= q < d.len() && d[q] == out[i];
                assert(d[q].0 == c);
            }
            if k.dom().contains(c) && exists|j: int| 0 <= j < hs.len() && (#[trigger] hs[j]).0 == c {
                let i = choose|i: int| 0 <= i < d.len() && (#[trigger] d[i]).0 == c;
                assert(out.contains(d[i]));
                let q = choose|q: int| 0 <= q < out.len() && out[q] == d[i];
                assert(out[q].0 == c);
            }
        }
    }
    r
}

pub open spec fn summary_view(s: CharacterSummary) -> (u32, Seq<char>) {
    (s.id, s.name@)
}

pub open spec fn summary_views(v: Seq<CharacterSummary>) -> Seq<(u32, Seq<char>)> {
    v.map_values(|s: CharacterSummary| summary_view(s))
}

/// `entries` listed by `keys` (one per entry), stable for equal keys.
pub fn summaries_in_order(entries: &Vec<CharacterSummary>, keys: &Vec<Vec<char>>) -> (r: Vec<CharacterSummary>)
    requires
        keys@.len() == entries@.len(),
    ensures
        sorted_by_keys(summary_views(entries@), key_views(keys@), summary_views(r@)),
{
    let p = stable_order(keys);
    let mut out: Vec<CharacterSummary> = Vec::new();
    let mut k: usize = 0;
    while k < p.len()
        invariant
            is_stable_sort(key_views(keys@), p@),
            keys@.len() == entries@.len(),
            k <= p@.len(),
            out@.len() == k,
            forall|q: int| 0 <= q < k ==> summary_view(#[trigger] out@[q]) == summary_views(entries@)[p@[q] as int],
        decreases p@.len() - k,
    {
        let c = &entries[p[k]];
        out.push(CharacterSummary { id: c.id, name: c.name.clone() });
        k = k + 1;
    }
    proof {
        assert(permuted(summary_views(entries@), p@, summary_views(out@)));
    }
    out
}

/// The catalogue's heroes, listed by lowercase name; heroes whose lowercase names are
/// equal come in the order the map walks them, which is not fixed.
pub fn list_known_characters(cat: &CatalogueData) -> (r: Vec<CharacterSummary>)
    ensures
        exists|l: Seq<(u32, Seq<char>)>|
            #[trigger] is_listing(*cat, l) && sorted_by_keys(
                l,
                l.map_values(|e: (u32, Seq<char>)| unicode_lower(e.1)),
                summary_views(r@),
            ),
{
    let entries = catalogue_summaries(cat);
    let ghost l = summary_views(entries@);
    let mut keys: Vec<Vec<char>> = Vec::new();
    let mut i: usize = 0;
    while i < entries.len()
        invariant
            i <= entries@.len(),
            keys@.len() == i,
            forall|q: int| 0 <= q < i ==> (#[trigger] keys@[q])@ == unicode_lower(entries@[q].name@),
        decreases entries@.len() - i,
    {
        let low = unicode_lowercase(entries[i].name.as_str());
        keys.push(chars_of(low.as_str()));
        i = i + 1;
    }
    proof {
        assert(key_views(keys@) =~= l.map_values(|e: (u32, Seq<char>)| unicode_lower(e.1)));
    }
    summaries_in_order(&entries, &keys)
}

/// `s` without the suffix `suf`, when it ends with it.
pub open spec fn without_suffix(s: Seq<char>, suf: Seq<char>) -> Option<Seq<char>> {
    if ends_with(s, suf) {
        Some(s.subrange(0, s.len() - suf.len()))
    } else {
        None
    }
}

/// A mod file's name without `.pak.disabled` or, failing that, `.pak`.
pub open spec fn pak_stem(name: Seq<char>) -> Seq<char> {
    match without_suffix(name, ".pak.disabled"@) {
        Some(t) => t,
        None => match without_suffix(name, ".pak"@) {
            Some(t) => t,
            None => name,
        },
    }
}

fn ends_with_chars(c: &Vec<char>, suf: &[char]) -> (r: bool)
    ensures
        r == ends_with(c@, suf@),
{
    if suf.len() > c.len() {
        return false;
    }
    let off = c.len() - suf.len();
    let mut i: usize = 0;
    while i < suf.len()
        invariant
            off + suf@.len() == c@.len(),
            c@.len() == c.len(),
            i <= suf@.len(),
            forall|q: int| 0 <= q < i ==> c@[off + q] == suf@[q],
        decreases suf@.len() - i,
    {
        assert(off + i < c@.len());
        if c[off + i] != suf[i] {
            proof {
                assert(c@.subrange(off as int, c@.len() as int)[i as int] == c@[off + i]);
            }
            return false;
        }
        i = i + 1;
    }
    proof {
        assert(c@.subrange(off as int, c@.len() as int) =~= suf@);
    }
    true
}

/// A mod file's name without its `.pak.disabled` or `.pak` suffix.
pub fn strip_pak_suffix(name: &str) -> (r: String)
    ensures
        r@ == pak_stem(name@),
{
    let c = chars_of(name);
    let disabled = ['.', 'p', 'a', 'k', '.', 'd', 'i', 's', 'a', 'b', 'l', 'e', 'd'];
    let pak = ['.', 'p', 'a', 'k'];
    proof {
        reveal_strlit(".pak.disabled");
        reveal_strlit(".pak");
        assert(disabled@ =~= ".pak.disabled"@);
        assert(pak@ =~= ".pak"@);
    }
    if ends_with_chars(&c, &disabled) {
        return string_of_range(c.as_slice(), 0, c.len() - 13);
    }
    if ends_with_chars(&c, &pak) {
        return string_of_range(c.as_slice(), 0, c.len() - 4);
    }
    proof {
        assert(c@.subrange(0, c@.len() as int) =~= c@);
    }
    string_of_range(c.as_slice(), 0, c.len())
}

/// The names of a mod's IoStore table of contents, enabled and disabled.
pub fn companion_utoc_names(stem_file: &str) -> (r: (String, String))
    ensures
        r.0@ == stem_file@ + ".utoc"@,
        r.1@ == stem_file@ + ".utoc.disabled"@,
{
    let mut a = String::from_str(stem_file);
    a.append(".utoc");
    let mut b = String::from_str(stem_file);
    b.append(".utoc.disabled");
    (a, b)
}

/// Outcome of detecting heroes for one mod: `Heroes` (possibly empty, for mods that
/// touch no character) when every container read succeeded, so the result may be
/// cached; `Failed` when a read failed and the result must not be cached.
pub enum DetectionOutcome {
    Heroes(Vec<HeroMatch>),
    Failed,
}

/// What a detection leaves for the cache: the heroes found, or nothing when a read failed.
pub fn cacheable_heroes(outcome: &DetectionOutcome) -> (r: Option<Vec<HeroMatch>>)
    ensures
        match outcome {
            DetectionOutcome::Heroes(h) => r matches Some(v) && hero_views(v@) == hero_views(h@),
            DetectionOutcome::Failed => r is None,
        },
{
    match outcome {
        DetectionOutcome::Heroes(h) => Some(copy_heroes(h)),
        DetectionOutcome::Failed => None,
    }
}

/// The heroes each detected mod is shown with, by its slot: those found, none when a read
/// failed; nothing is handed back when the detections were not committed (a catalogue
/// sync overtook them).
pub fn heroes_to_show(committed: bool, outcomes: &Vec<(usize, DetectionOutcome)>) -> (r: Vec<(usize, Vec<HeroMatch>)>)
    ensures
        !committed ==> r@.len() == 0,
        committed ==> r@.len() == outcomes@.len(),
        committed ==> forall|i: int|
            0 <= i < r@.len() ==> (#[trigger] r@[i]).0 == outcomes@[i].0 && match outcomes@[i].1 {
                DetectionOutcome::Heroes(h) => hero_views(r@[i].1@) == hero_views(h@),
                DetectionOutcome::Failed => r@[i].1@.len() == 0,
            },
{
    let mut out: Vec<(usize, Vec<HeroMatch>)> = Vec::new();
    if !committed {
        return out;
    }
    let mut i: usize = 0;
    while i < outcomes.len()
        invariant
            i <= outcomes@.len(),
            out@.len() == i,
            forall|k: int|
                0 <= k < i ==> (#[trigger] out@[k]).0 == outcomes@[k].0 && match outcomes@[k].1 {
                    DetectionOutcome::Heroes(h) => hero_views(out@[k].1@) == hero_views(h@),
                    DetectionOutcome::Failed => out@[k].1@.len() == 0,
                },
        decreases outcomes@.len() - i,
    {
        let heroes = match &outcomes[i].1 {
            DetectionOutcome::Heroes(h) => copy_heroes(h),
            DetectionOutcome::Failed => Vec::new(),
        };
        out.push((outcomes[i].0, heroes));
        i = i + 1;
    }
    out
}

/// The outcome for a mod whose containers listed `paths`, `any_failed` telling whether
/// reading one of them failed.
pub fn detection_outcome(paths: &Vec<String>, any_failed: bool, cat: &CatalogueData) -> (r: DetectionOutcome)
    ensures
        any_failed ==> r is Failed,
        !any_failed ==> (r matches DetectionOutcome::Heroes(v) && sorted_by_keys(
            detected(*cat, views(paths@)),
            detected(*cat, views(paths@)).map_values(|e: HeroView| unicode_lower(e.1)),
            hero_views(v@),
        )),
{
    if any_failed {
        DetectionOutcome::Failed
    } else {
        DetectionOutcome::Heroes(detect_heroes_from_paths(paths, cat))
    }
}

/// The error reported when a rescan could not read a mod's containers.
pub fn rescan_failure_message(display_name: &str) -> (r: String)
    ensures
        r@ == "Failed to read mod containers for "@ + display_name@ + "; cache cleared, will retry"@,
{
    let mut m = String::from_str("Failed to read mod containers for ");
    m.append(display_name);
    m.append("; cache cleared, will retry");
    m
}

} // verus!
