//! The per-mod cache of detected heroes: when a cached result may be served, and how
//! the cache changes as mods are scanned, rescanned, removed, or the format moves on.
use vstd::prelude::*;
use crate::catalogue::{assoc_map, keys_unique, lemma_assoc_map, lemma_assoc_push, lemma_assoc_update};
use crate::hero_match::{copy_heroes, hero_views, HeroMatch, HeroView};
use crate::text::{chars_eq, chars_of};

verus! {

/// Bumped when matching logic or the entry shape changes, so stale entries are dropped
/// on load.
pub const MOD_HERO_CACHE_VERSION: u32 = 4;

/// Cached detection result for a mod, keyed by its display name. It is valid while the
/// mod's total size and the catalogue stamp it was computed against are unchanged.
#[derive(Clone, Debug)]
pub struct ModHeroCacheEntry {
    pub size_bytes: u64,
    /// The catalogue sync stamp this entry was computed against.
    pub catalogue_stamp: u64,
    pub heroes: Vec<HeroMatch>,
}

/// The cache file's content.
#[derive(Clone, Debug)]
pub struct HeroCache {
    pub last_character_data_sync: u64,
    pub version: u32,
    pub entries: Vec<(String, ModHeroCacheEntry)>,
}

/// Size, catalogue stamp and heroes of a cache entry.
pub type CacheEntryView = (u64, u64, Seq<HeroView>);

pub open spec fn cache_entry_view(e: ModHeroCacheEntry) -> CacheEntryView {
    (e.size_bytes, e.catalogue_stamp, hero_views(e.heroes@))
}

pub open spec fn cache_entries(v: Seq<(String, ModHeroCacheEntry)>) -> Seq<(Seq<char>, CacheEntryView)> {
    v.map_values(|p: (String, ModHeroCacheEntry)| (p.0@, cache_entry_view(p.1)))
}

/// The heroes cached for `name` that may be served for a mod of `size` bytes while the
/// catalogue stamp is `stamp`.
pub open spec fn cache_hit(m: Map<Seq<char>, CacheEntryView>, name: Seq<char>, size: u64, stamp: u64) -> Option<
    Seq<HeroView>,
> {
    if m.dom().contains(name) && m[name].0 == size && m[name].1 == stamp {
        Some(m[name].2)
    } else {
        None
    }
}

/// The display names of the mods present.
pub open spec fn live_set(live: Seq<String>) -> Set<Seq<char>> {
    Set::new(|k: Seq<char>| exists|i: int| 0 <= i < live.len() && (#[trigger] live[i])@ == k)
}

/// Outcomes of a detection pass: display name, size, and the heroes found, or `None`
/// when a container could not be read.
pub type ResultView = (Seq<char>, u64, Option<Seq<HeroView>>);

pub open spec fn result_view(t: (String, u64, Option<Vec<HeroMatch>>)) -> ResultView {
    (
        t.0@,
        t.1,
        match t.2 {
            Some(v) => Some(hero_views(v@)),
            None => None,
        },
    )
}

pub open spec fn result_views(v: Seq<(String, u64, Option<Vec<HeroMatch>>)>) -> Seq<ResultView> {
    v.map_values(|t: (String, u64, Option<Vec<HeroMatch>>)| result_view(t))
}

/// The cache after recording each successful outcome under `stamp`, in order.
pub open spec fn record_results(m: Map<Seq<char>, CacheEntryView>, rs: Seq<ResultView>, stamp: u64) -> Map<
    Seq<char>,
    CacheEntryView,
>
    decreases rs.len(),
{
    if rs.len() == 0 {
        m
    } else {
        let p = record_results(m, rs.drop_last(), stamp);
        match rs.last().2 {
            Some(h) => p.insert(rs.last().0, (rs.last().1, stamp, h)),
            None => p,
        }
    }
}

pub proof fn lemma_assoc_remove<K, V>(v: Seq<(K, V)>, i: int)
    requires
        keys_unique(v),
        0 <= i < v.len(),
    ensures
        keys_unique(v.remove(i)),
        assoc_map(v.remove(i)) == assoc_map(v).remove(v[i].0),
{
    let w = v.remove(i);
    assert(keys_unique(w)) by {
        assert forall|a: int, b: int| 0 <= a < b < w.len() implies (#[trigger] w[a]).0 != (#[trigger] w[b]).0 by {
            let a2 = if a < i { a } else { a + 1 };
            let b2 = if b < i { b } else { b + 1 };
            assert(w[a] == v[a2] && w[b] == v[b2]);
        }
    }
    lemma_assoc_map(v);
    lemma_assoc_map(w);
    assert forall|k: K| #[trigger] assoc_map(w).dom().contains(k) == assoc_map(v).remove(v[i].0).dom().contains(k) by {
        if assoc_map(w).dom().contains(k) {
            let j = choose|j: int| 0 <= j < w.len() && (#[trigger] w[j]).0 == k;
            let j2 = if j < i { j } else { j + 1 };
            assert(w[j] == v[j2]);
            assert(assoc_map(v).dom().contains(v[j2].0));
        }
        if assoc_map(v).remove(v[i].0).dom().contains(k) {
            let j = choose|j: int| 0 <= j < v.len() && (#[trigger] v[j]).0 == k;
            assert(j != i);
            let j2 = if j < i { j } else { j - 1 };
            assert(w[j2] == v[j]);
            assert(assoc_map(w).dom().contains(w[j2].0));
        }
    }
    assert forall|k: K| assoc_map(w).dom().contains(k) implies assoc_map(w)[k] == assoc_map(v).remove(v[i].0)[k] by {
        let j = choose|j: int| 0 <= j < w.len() && (#[trigger] w[j]).0 == k;
        let j2 = if j < i { j } else { j + 1 };
        assert(w[j] == v[j2]);
        assert(v[j2].0 != v[i].0);
    }
    assert(assoc_map(w) =~= assoc_map(v).remove(v[i].0));
}

fn copy_entry(e: &ModHeroCacheEntry) -> (r: ModHeroCacheEntry)
    ensures
        cache_entry_view(r) == cache_entry_view(*e),
{
    ModHeroCacheEntry {
        size_bytes: e.size_bytes,
        catalogue_stamp: e.catalogue_stamp,
        heroes: copy_heroes(&e.heroes),
    }
}

impl HeroCache {
    /// Each display name once.
    pub open spec fn wf(&self) -> bool {
        keys_unique(cache_entries(self.entries@))
    }

    /// The cached entries by display name.
    pub open spec fn cached(&self) -> Map<Seq<char>, CacheEntryView> {
        assoc_map(cache_entries(self.entries@))
    }

    /// An empty cache of the current format.
    pub fn new() -> (r: HeroCache)
        ensures
            r.wf(),
            r.cached() == Map::<Seq<char>, CacheEntryView>::empty(),
            r.version == MOD_HERO_CACHE_VERSION,
            r.last_character_data_sync == 0,
    {
        let r = HeroCache { last_character_data_sync: 0, version: MOD_HERO_CACHE_VERSION, entries: Vec::new() };
        proof {
            assert(cache_entries(r.entries@) =~= Seq::<(Seq<char>, CacheEntryView)>::empty());
        }
        r
    }

    /// A cache holding `entries`; a later entry for a display name replaces an earlier one.
    pub fn from_entries(
        last_character_data_sync: u64,
        version: u32,
        entries: &Vec<(String, ModHeroCacheEntry)>,
    ) -> (r: HeroCache)
        ensures
            r.wf(),
            r.cached() == assoc_map(cache_entries(entries@)),
            r.last_character_data_sync == last_character_data_sync,
            r.version == version,
    {
        let ghost es = cache_entries(entries@);
        let mut c = HeroCache { last_character_data_sync, version, entries: Vec::new() };
        let mut i: usize = 0;
        proof {
            assert(cache_entries(c.entries@) =~= Seq::<(Seq<char>, CacheEntryView)>::empty());
            assert(es.take(0) =~= Seq::<(Seq<char>, CacheEntryView)>::empty());
        }
        while i < entries.len()
            invariant
                es == cache_entries(entries@),
                i <= entries@.len(),
                c.wf(),
                c.cached() == assoc_map(es.take(i as int)),
                c.last_character_data_sync == last_character_data_sync,
                c.version == version,
            decreases entries@.len() - i,
        {
            let e = &entries[i].1;
            proof {
                assert(es.take(i + 1).drop_last() =~= es.take(i as int));
                assert(es.take(i + 1).last() == es[i as int]);
                assert(es[i as int] == (entries@[i as int].0@, cache_entry_view(*e)));
            }
            c.store(entries[i].0.clone(), e.size_bytes, e.catalogue_stamp, copy_heroes(&e.heroes));
            i = i + 1;
        }
        proof {
            assert(es.take(entries@.len() as int) =~= es);
        }
        c
    }

    /// A cache read from disk in another format loses its entries and takes the current
    /// format.
    pub fn reset_if_stale(&mut self)
        ensures
            final(self).version == MOD_HERO_CACHE_VERSION,
            final(self).last_character_data_sync == old(self).last_character_data_sync,
            old(self).version != MOD_HERO_CACHE_VERSION ==> final(self).entries@.len() == 0,
            old(self).version == MOD_HERO_CACHE_VERSION ==> final(self).entries@ == old(self).entries@,
            old(self).wf() ==> final(self).wf(),
            old(self).version != MOD_HERO_CACHE_VERSION ==> final(self).wf() && final(self).cached()
                == Map::<Seq<char>, CacheEntryView>::empty(),
    {
        if self.version != MOD_HERO_CACHE_VERSION {
            self.entries = Vec::new();
            self.version = MOD_HERO_CACHE_VERSION;
            proof {
                assert(cache_entries(self.entries@) =~= Seq::<(Seq<char>, CacheEntryView)>::empty());
            }
        }
    }

    fn position(&self, name: &str) -> (r: Option<usize>)
        ensures
            match r {
                Some(i) => i < self.entries@.len() && self.entries@[i as int].0@ == name@,
                None => forall|i: int| 0 <= i < self.entries@.len() ==> (#[trigger] self.entries@[i]).0@ != name@,
            },
    {
        let target = chars_of(name);
        let mut i: usize = 0;
        while i < self.entries.len()
            invariant
                target@ == name@,
                i <= self.entries@.len(),
                forall|q: int| 0 <= q < i ==> (#[trigger] self.entries@[q]).0@ != name@,
            decreases self.entries@.len() - i,
        {
            let k = chars_of(self.entries[i].0.as_str());
            if chars_eq(&k, &target) {
                return Some(i);
            }
            i = i + 1;
        }
        None
    }

    /// The heroes cached for a mod, when they were computed for its current size
    /// against the current catalogue.
    pub fn cached_heroes(&self, name: &str, size_bytes: u64) -> (r: Option<Vec<HeroMatch>>)
        requires
            self.wf(),
        ensures
            match r {
                Some(v) => cache_hit(self.cached(), name@, size_bytes, self.last_character_data_sync)
                    == Some(hero_views(v@)),
                None => cache_hit(self.cached(), name@, size_bytes, self.last_character_data_sync) is None,
            },
    {
        let ghost es = cache_entries(self.entries@);
        proof {
            lemma_assoc_map(es);
        }
        match self.position(name) {
            Some(i) => {
                let e = &self.entries[i].1;
                proof {
                    assert(es[i as int] == (name@, cache_entry_view(*e)));
                }
                if e.size_bytes == size_bytes && e.catalogue_stamp == self.last_character_data_sync {
                    Some(copy_heroes(&e.heroes))
                } else {
                    None
                }
            },
            None => {
                proof {
                    if self.cached().dom().contains(name@) {
                        let j = choose|j: int| 0 <= j < es.len() && (#[trigger] es[j]).0 == name@;
                        assert(self.entries@[j].0@ == name@);
                    }
                }
                None
            },
        }
    }

    /// Record the heroes detected for a mod of `size_bytes` against catalogue stamp
    /// `catalogue_stamp`, replacing what was cached for it.
    pub fn store(&mut self, name: String, size_bytes: u64, catalogue_stamp: u64, heroes: Vec<HeroMatch>)
        requires
            old(self).wf(),
        ensures
            final(self).wf(),
            final(self).cached() == old(self).cached().insert(
                name@,
                (size_bytes, catalogue_stamp, hero_views(heroes@)),
            ),
            final(self).last_character_data_sync == old(self).last_character_data_sync,
            final(self).version == old(self).version,
    {
        let ghost es = cache_entries(self.entries@);
        let ghost ev: CacheEntryView = (size_bytes, catalogue_stamp, hero_views(heroes@));
        let entry = ModHeroCacheEntry { size_bytes, catalogue_stamp, heroes };
        match self.position(name.as_str()) {
            Some(i) => {
                proof {
                    assert(es[i as int].0 == name@);
                    lemma_assoc_update(es, i as int, ev);
                }
                self.entries.set(i, (name, entry));
                proof {
                    assert(cache_entries(self.entries@) =~= es.update(i as int, (es[i as int].0, ev)));
                }
            },
            None => {
                proof {
                    assert forall|q: int| 0 <= q < es.len() implies (#[trigger] es[q]).0 != name@ by {
                        assert(es[q].0 == self.entries@[q].0@);
                    }
                    lemma_assoc_push(es, name@, ev);
                }
                self.entries.push((name, entry));
                proof {
                    assert(cache_entries(self.entries@) =~= es.push((name@, ev)));
                }
            },
        }
    }

    /// Drop what is cached for a mod.
    pub fn forget(&mut self, name: &str)
        requires
            old(self).wf(),
        ensures
            final(self).wf(),
            final(self).cached() == old(self).cached().remove(name@),
            final(self).last_character_data_sync == old(self).last_character_data_sync,
            final(self).version == old(self).version,
    {
        let ghost es = cache_entries(self.entries@);
        match self.position(name) {
            Some(i) => {
                proof {
                    assert(es[i as int].0 == name@);
                    lemma_assoc_remove(es, i as int);
                }
                self.entries.remove(i);
                proof {
                    assert(cache_entries(self.entries@) =~= es.remove(i as int));
                }
            },
            None => {
                proof {
                    lemma_assoc_map(es);
                    if self.cached().dom().contains(name@) {
                        let j = choose|j: int| 0 <= j < es.len() && (#[trigger] es[j]).0 == name@;
                        assert(self.entries@[j].0@ == name@);
                    }
                    assert(self.cached() =~= self.cached().remove(name@));
                }
            },
        }
    }

    /// Keep only the entries of mods that are still present; reports whether any entry
    /// was dropped.
    pub fn retain_live(&mut self, live: &Vec<String>) -> (changed: bool)
        requires
            old(self).wf(),
        ensures
            final(self).wf(),
            final(self).cached() == old(self).cached().restrict(live_set(live@)),
            changed == exists|i: int|
                0 <= i < old(self).entries@.len() && !live_set(live@).contains(
                    (#[trigger] old(self).entries@[i]).0@,
                ),
            final(self).last_character_data_sync == old(self).last_character_data_sync,
            final(self).version == old(self).version,
    {
        let ghost es = cache_entries(self.entries@);
        let ghost s = live_set(live@);
        let mut kept: Vec<(String, ModHeroCacheEntry)> = Vec::new();
        let mut changed = false;
        let mut i: usize = 0;
        proof {
            assert(cache_entries(kept@) =~= Seq::<(Seq<char>, CacheEntryView)>::empty());
            assert(es.take(0) =~= Seq::<(Seq<char>, CacheEntryView)>::empty());
            assert(assoc_map(es.take(0)).restrict(s) =~= Map::<Seq<char>, CacheEntryView>::empty());
        }
        while i < self.entries.len()
            invariant
                es == cache_entries(self.entries@),
                keys_unique(es),
                s == live_set(live@),
                i <= self.entries@.len(),
                keys_unique(cache_entries(kept@)),
                forall|q: int|
                    0 <= q < kept@.len() ==> exists|j: int|
                        0 <= j < i && (#[trigger] es[j]).0 == (#[trigger] kept@[q]).0@,
                assoc_map(cache_entries(kept@)) == assoc_map(es.take(i as int)).restrict(s),
                changed == exists|j: int| 0 <= j < i && !s.contains((#[trigger] self.entries@[j]).0@),
            decreases self.entries@.len() - i,
        {
            let ghost ks = cache_entries(kept@);
            let ghost m0 = assoc_map(es.take(i as int));
            proof {
                assert(es.take(i + 1).drop_last() =~= es.take(i as int));
                assert(es.take(i + 1).last() == es[i as int]);
                assert(es[i as int].0 == self.entries@[i as int].0@);
            }
            let name = &self.entries[i].0;
            let mut live_here = false;
            let mut q: usize = 0;
            while q < live.len()
                invariant
                    q <= live@.len(),
                    live_here == exists|t: int| 0 <= t < q && (#[trigger] live@[t])@ == name@,
                decreases live@.len() - q,
            {
                if !live_here {
                    let a = chars_of(live[q].as_str());
                    let b = chars_of(name.as_str());
                    if chars_eq(&a, &b) {
                        live_here = true;
                    }
                }
                q = q + 1;
            }
            proof {
                assert(live_here == s.contains(name@));
            }
            if live_here {
                let ghost ev = es[i as int].1;
                proof {
                    assert forall|t: int| 0 <= t < ks.len() implies (#[trigger] ks[t]).0 != name@ by {
                        let j = choose|j: int| 0 <= j < i && (#[trigger] es[j]).0 == (#[trigger] kept@[t]).0@;
                        assert(es[j].0 != es[i as int].0);
                    }
                    lemma_assoc_push(ks, name@, ev);
                    assert(m0.insert(name@, ev).restrict(s) =~= m0.restrict(s).insert(name@, ev));
                }
                kept.push((name.clone(), copy_entry(&self.entries[i].1)));
                proof {
                    assert(cache_entries(kept@) =~= ks.push((name@, ev)));
                    assert forall|t: int| 0 <= t < kept@.len() implies exists|j: int|
                        0 <= j < i + 1 && (#[trigger] es[j]).0 == (#[trigger] kept@[t]).0@ by {
                        if t < ks.len() {
                            let j = choose|j: int| 0 <= j < i && (#[trigger] es[j]).0 == (#[trigger] kept@[t]).0@;
                        } else {
                            assert(es[i as int].0 == kept@[t].0@);
                        }
                    }
                }
            } else {
                changed = true;
                proof {
                    assert(m0.insert(name@, es[i as int].1).restrict(s) =~= m0.restrict(s));
                }
            }
            i = i + 1;
        }
        proof {
            assert(es.take(self.entries@.len() as int) =~= es);
        }
        self.entries = kept;
        changed
    }

    /// After a detection pass started when the catalogue stamp was `stamp_at_start`:
    /// when the catalogue has moved on since, nothing is recorded (the results belong to
    /// the old catalogue) and false is returned; otherwise each successful outcome is
    /// recorded under that stamp, the entries of mods no longer present are dropped, and
    /// true is returned.
    pub fn commit_detections(
        &mut self,
        stamp_at_start: u64,
        results: &Vec<(String, u64, Option<Vec<HeroMatch>>)>,
        live: &Vec<String>,
    ) -> (committed: bool)
        requires
            old(self).wf(),
        ensures
            final(self).wf(),
            committed == (old(self).last_character_data_sync == stamp_at_start),
            !committed ==> final(self).cached() == old(self).cached(),
            committed ==> final(self).cached() == record_results(
                old(self).cached(),
                result_views(results@),
                stamp_at_start,
            ).restrict(live_set(live@)),
            final(self).last_character_data_sync == old(self).last_character_data_sync,
            final(self).version == old(self).version,
    {
        if self.last_character_data_sync != stamp_at_start {
            return false;
        }
        let ghost m0 = self.cached();
        let ghost rv = result_views(results@);
        let mut i: usize = 0;
        proof {
            assert(rv.take(0) =~= Seq::<ResultView>::empty());
        }
        while i < results.len()
            invariant
                self.wf(),
                rv == result_views(results@),
                i <= results@.len(),
                self.cached() == record_results(m0, rv.take(i as int), stamp_at_start),
                self.last_character_data_sync == stamp_at_start,
                self.version == old(self).version,
            decreases results@.len() - i,
        {
            proof {
                assert(rv.take(i + 1).drop_last() =~= rv.take(i as int));
                assert(rv.take(i + 1).last() == rv[i as int]);
                assert(rv[i as int] == result_view(results@[i as int]));
            }
            match &results[i].2 {
                Some(h) => {
                    let hs = copy_heroes(h);
                    self.store(results[i].0.clone(), results[i].1, stamp_at_start, hs);
                },
                None => {},
            }
            i = i + 1;
        }
        proof {
            assert(rv.take(results@.len() as int) =~= rv);
        }
        self.retain_live(live);
        true
    }
}

/// What a cache read gives back after a store: the heroes stored, as long as the size
/// asked for is the one stored and the stamp is the one stored under; any other mod's
/// entry is unaffected.
pub proof fn law_read_after_store(
    m: Map<Seq<char>, CacheEntryView>,
    name: Seq<char>,
    size: u64,
    stamp: u64,
    heroes: Seq<HeroView>,
    other: Seq<char>,
    other_size: u64,
    now: u64,
)
    requires
        other != name,
    ensures
        cache_hit(m.insert(name, (size, stamp, heroes)), name, size, stamp) == Some(heroes),
        cache_hit(m.insert(name, (size, stamp, heroes)), other, other_size, now) == cache_hit(
            m,
            other,
            other_size,
            now,
        ),
        forall|s2: u64| s2 != size ==> cache_hit(m.insert(name, (size, stamp, heroes)), name, s2, stamp) is None,
        forall|t2: u64| t2 != stamp ==> cache_hit(m.insert(name, (size, stamp, heroes)), name, size, t2) is None,
{
}

/// Nothing is served for a mod after it is forgotten.
pub proof fn law_forget_clears(m: Map<Seq<char>, CacheEntryView>, name: Seq<char>, size: u64, stamp: u64)
    ensures
        cache_hit(m.remove(name), name, size, stamp) is None,
{
}

/// Recording detections: a mod whose last result in the pass is a success holds that
/// result under the stamp, and a mod with no successful result keeps its entry (or its
/// absence) as it was.
proof fn lemma_record_results(m: Map<Seq<char>, CacheEntryView>, rs: Seq<ResultView>, stamp: u64)
    ensures
        forall|i: int|
            0 <= i < rs.len() && (#[trigger] rs[i]).2 is Some && (forall|j: int|
                i < j < rs.len() ==> rs[j].0 != rs[i].0) ==> record_results(m, rs, stamp).dom().contains(
                rs[i].0,
            ) && record_results(m, rs, stamp)[rs[i].0] == (rs[i].1, stamp, rs[i].2->0),
        forall|k: Seq<char>|
            (forall|j: int| 0 <= j < rs.len() && rs[j].0 == k ==> (#[trigger] rs[j]).2 is None) ==> (
            #[trigger] record_results(m, rs, stamp).dom().contains(k) == m.dom().contains(k) && (
            m.dom().contains(k) ==> record_results(m, rs, stamp)[k] == m[k])),
    decreases rs.len(),
{
    if rs.len() > 0 {
        let pre = rs.drop_last();
        lemma_record_results(m, pre, stamp);
        assert forall|i: int|
            0 <= i < rs.len() && (#[trigger] rs[i]).2 is Some && (forall|j: int|
                i < j < rs.len() ==> rs[j].0 != rs[i].0) implies record_results(m, rs, stamp).dom().contains(
            rs[i].0,
        ) && record_results(m, rs, stamp)[rs[i].0] == (rs[i].1, stamp, rs[i].2->0) by {
            if i < rs.len() - 1 {
                assert(rs[rs.len() - 1].0 != rs[i].0);
                assert(pre[i] == rs[i]);
                assert forall|j: int| i < j < pre.len() implies pre[j].0 != pre[i].0 by {
                    assert(pre[j] == rs[j]);
                }
            }
        }
        assert forall|k: Seq<char>|
            (forall|j: int| 0 <= j < rs.len() && rs[j].0 == k ==> (#[trigger] rs[j]).2 is None) implies (
        #[trigger] record_results(m, rs, stamp).dom().contains(k) == m.dom().contains(k) && (
        m.dom().contains(k) ==> record_results(m, rs, stamp)[k] == m[k])) by {
            assert forall|j: int| 0 <= j < pre.len() && pre[j].0 == k implies (#[trigger] pre[j]).2 is None by {
                assert(pre[j] == rs[j]);
            }
            if rs.last().0 == k {
                assert(rs[rs.len() - 1].2 is None);
            }
            let p = record_results(m, pre, stamp);
            assert(p.dom().contains(k) == m.dom().contains(k));
        }
    }
}

/// A detection pass committed under the current stamp: every mod whose last result in
/// the pass is a success is then served that result for its size while the stamp holds,
/// as long as it is still installed; a mod without a successful result keeps what it had
/// (a failed read writes nothing); and only installed mods stay in the cache.
pub proof fn law_committed_detections_are_served(
    m: Map<Seq<char>, CacheEntryView>,
    rs: Seq<ResultView>,
    stamp: u64,
    live: Set<Seq<char>>,
)
    ensures
        ({
            let after = record_results(m, rs, stamp).restrict(live);
            &&& forall|i: int|
                0 <= i < rs.len() && (#[trigger] rs[i]).2 is Some && live.contains(rs[i].0) && (forall|j: int|
                    i < j < rs.len() ==> rs[j].0 != rs[i].0) ==> cache_hit(after, rs[i].0, rs[i].1, stamp)
                    == rs[i].2
            &&& forall|k: Seq<char>|
                live.contains(k) && (forall|j: int| 0 <= j < rs.len() && rs[j].0 == k ==> (#[trigger] rs[j]).2 is None)
                    ==> #[trigger] after.dom().contains(k) == m.dom().contains(k) && (m.dom().contains(k)
                    ==> after[k] == m[k])
            &&& forall|k: Seq<char>| #[trigger] after.dom().contains(k) ==> live.contains(k)
        }),
{
    lemma_record_results(m, rs, stamp);
}

} // verus!
