//! Reading the tweak values a pak sets: its INI layers in priority order, the merge of
//! their CVars (a higher layer overrides a lower one), and listing paks by name.
use vstd::prelude::*;
use crate::cvars::{console_vars, parse_console_vars};
use crate::order::{is_stable_sort, permuted, sorted_by_keys, stable_order};
use crate::pak_ini::{listing_model, listing_models, opt_view, PakIniInfo, PakIniListing, PakTweakState};
use crate::text::{chars_eq, chars_of, lower, lower_vec, push_char};

verus! {

/// A CVar as key, value and the label of the file it came from.
pub type Tweak = (Seq<char>, Seq<char>, Seq<char>);

pub open spec fn tweak_model(s: PakTweakState) -> Tweak {
    (s.key@, s.value@, s.source@)
}

pub open spec fn tweak_models(v: Seq<PakTweakState>) -> Seq<Tweak> {
    v.map_values(|s: PakTweakState| tweak_model(s))
}

pub open spec fn pair_views(v: Seq<(String, String)>) -> Seq<(Seq<char>, Seq<char>)> {
    v.map_values(|p: (String, String)| (p.0@, p.1@))
}

pub open spec fn no_ini_files_message() -> Seq<char> {
    "No INI config files found in this pak."@
}

pub open spec fn opt_layer(entry: Option<Seq<char>>, label: Seq<char>) -> Seq<(Seq<char>, Seq<char>)> {
    match entry {
        Some(e) => seq![(e, label)],
        None => Seq::empty(),
    }
}

/// The INI entries of a pak with their labels, in runtime priority order, lowest first:
/// BaseEngine, DefaultEngine, WindowsEngine, DeviceProfiles.
pub open spec fn layer_entries(info: PakIniInfo) -> Seq<(Seq<char>, Seq<char>)> {
    opt_layer(opt_view(info.base_engine_entry), "BaseEngine.ini"@) + opt_layer(
        opt_view(info.engine_ini_entry),
        "DefaultEngine.ini"@,
    ) + opt_layer(opt_view(info.windows_engine_entry), "WindowsEngine.ini"@) + opt_layer(
        opt_view(info.device_profiles_entry),
        "DefaultDeviceProfiles.ini"@,
    )
}

fn push_layer(v: &mut Vec<(String, String)>, entry: &Option<String>, label: &str)
    ensures
        pair_views(final(v)@) == pair_views(old(v)@) + opt_layer(opt_view(*entry), label@),
{
    let ghost before = pair_views(v@);
    match entry {
        Some(e) => {
            v.push((e.clone(), String::from_str(label)));
            proof {
                assert(pair_views(v@) =~= before + opt_layer(opt_view(*entry), label@));
            }
        },
        None => {
            proof {
                assert(pair_views(v@) =~= before + opt_layer(opt_view(*entry), label@));
            }
        },
    }
}

/// The INI entries to read from a pak, each with the label its values are reported
/// under, lowest priority first; an error when the pak holds no tweakable INI file.
pub fn pak_tweak_layers(info: Option<&PakIniInfo>) -> (r: Result<Vec<(String, String)>, String>)
    ensures
        match info {
            None => r matches Err(m) && m@ == no_ini_files_message(),
            Some(i) => r matches Ok(v) && pair_views(v@) == layer_entries(*i),
        },
{
    match info {
        None => Err(String::from_str("No INI config files found in this pak.")),
        Some(i) => {
            let mut v: Vec<(String, String)> = Vec::new();
            proof {
                assert(pair_views(v@) =~= Seq::<(Seq<char>, Seq<char>)>::empty());
            }
            push_layer(&mut v, &i.base_engine_entry, "BaseEngine.ini");
            push_layer(&mut v, &i.engine_ini_entry, "DefaultEngine.ini");
            push_layer(&mut v, &i.windows_engine_entry, "WindowsEngine.ini");
            push_layer(&mut v, &i.device_profiles_entry, "DefaultDeviceProfiles.ini");
            proof {
                assert(pair_views(v@) =~= layer_entries(*i));
            }
            Ok(v)
        },
    }
}

/// The CVars of one layer, labelled with it.
pub open spec fn layer_vars(content: Seq<char>, label: Seq<char>) -> Seq<Tweak> {
    console_vars(content, label).map_values(|kv: (Seq<char>, Seq<char>)| (kv.0, kv.1, label))
}

/// The CVars of all layers, `layers` holding each layer's content and label.
pub open spec fn layers_vars(layers: Seq<(Seq<char>, Seq<char>)>) -> Seq<Tweak>
    decreases layers.len(),
{
    if layers.len() == 0 {
        Seq::empty()
    } else {
        layers_vars(layers.drop_last()) + layer_vars(layers.last().0, layers.last().1)
    }
}

/// The last position in `vs` whose key is `kl` after ASCII lowercasing, or -1.
pub open spec fn last_slot(vs: Seq<Tweak>, kl: Seq<char>) -> int
    decreases vs.len(),
{
    if vs.len() == 0 {
        -1
    } else if lower(vs.last().0) == kl {
        vs.len() - 1
    } else {
        last_slot(vs.drop_last(), kl)
    }
}

/// Adds `v` to the merge: it replaces the entry with the same key, if any.
pub open spec fn merge_one(acc: Seq<Tweak>, v: Tweak) -> Seq<Tweak> {
    let i = last_slot(acc, lower(v.0));
    if i >= 0 {
        acc.update(i, v)
    } else {
        acc.push(v)
    }
}

/// `vs` merged in order, later values overriding earlier ones with the same key.
pub open spec fn merge_vars(vs: Seq<Tweak>) -> Seq<Tweak>
    decreases vs.len(),
{
    if vs.len() == 0 {
        Seq::empty()
    } else {
        merge_one(merge_vars(vs.drop_last()), vs.last())
    }
}

pub proof fn lemma_last_slot(vs: Seq<Tweak>, kl: Seq<char>)
    ensures
        -1 <= last_slot(vs, kl) < vs.len(),
        last_slot(vs, kl) >= 0 ==> lower(vs[last_slot(vs, kl)].0) == kl,
        forall|i: int| last_slot(vs, kl) < i < vs.len() ==> lower(#[trigger] vs[i].0) != kl,
    decreases vs.len(),
{
    if vs.len() > 0 {
        lemma_last_slot(vs.drop_last(), kl);
        if lower(vs.last().0) != kl {
            assert forall|i: int| last_slot(vs, kl) < i < vs.len() implies lower(
                #[trigger] vs[i].0,
            ) != kl by {
                if i < vs.len() - 1 {
                    assert(vs[i] == vs.drop_last()[i]);
                }
            }
        }
    }
}

/// The merge holds each key once, ignoring ASCII case.
pub open spec fn keys_distinct(m: Seq<Tweak>) -> bool {
    forall|i: int, j: int| 0 <= i < j < m.len() ==> lower(#[trigger] m[i].0) != lower(#[trigger] m[j].0)
}

/// Merging keeps one entry per key (ASCII case ignored), holds every key that occurs in
/// the input, and gives each key the value and label of its last occurrence.
pub proof fn law_merge_last_wins(vs: Seq<Tweak>)
    ensures
        keys_distinct(merge_vars(vs)),
        forall|i: int|
            0 <= i < merge_vars(vs).len() ==> {
                let k = lower((#[trigger] merge_vars(vs)[i]).0);
                &&& last_slot(vs, k) >= 0
                &&& merge_vars(vs)[i] == vs[last_slot(vs, k)]
            },
        forall|j: int| 0 <= j < vs.len() ==> last_slot(merge_vars(vs), lower(#[trigger] vs[j].0)) >= 0,
    decreases vs.len(),
{
    if vs.len() > 0 {
        let pre = vs.drop_last();
        let v = vs.last();
        let kl = lower(v.0);
        let mp = merge_vars(pre);
        let m = merge_vars(vs);
        law_merge_last_wins(pre);
        lemma_last_slot(mp, kl);
        lemma_last_slot(vs, kl);
        let s = last_slot(mp, kl);
        assert(m == merge_one(mp, v));
        assert(last_slot(vs, kl) == vs.len() - 1);
        assert forall|i: int, j: int| 0 <= i < j < m.len() implies lower(#[trigger] m[i].0) != lower(
            #[trigger] m[j].0,
        ) by {
            if s >= 0 {
                if i == s {
                    assert(lower(mp[j].0) != lower(mp[s].0));
                } else if j == s {
                    assert(lower(mp[i].0) != lower(mp[s].0));
                } else {
                    assert(lower(mp[i].0) != lower(mp[j].0));
                }
            } else {
                if j == mp.len() {
                    assert(lower(mp[i].0) != kl);
                } else {
                    assert(lower(mp[i].0) != lower(mp[j].0));
                }
            }
        }
        assert forall|i: int| 0 <= i < m.len() implies {
            let k = lower((#[trigger] m[i]).0);
            &&& last_slot(vs, k) >= 0
            &&& m[i] == vs[last_slot(vs, k)]
        } by {
            let k = lower(m[i].0);
            if (s >= 0 && i == s) || (s < 0 && i == mp.len()) {
                assert(m[i] == v);
            } else {
                assert(m[i] == mp[i]);
                assert(last_slot(pre, lower(mp[i].0)) >= 0);
                assert(mp[i] == pre[last_slot(pre, lower(mp[i].0))]);
                lemma_last_slot(pre, k);
                if s >= 0 {
                    assert(lower(mp[i].0) != lower(mp[s].0));
                } else {
                    assert(lower(mp[i].0) != kl);
                }
                assert(k != kl);
                assert(last_slot(vs, k) == last_slot(pre, k));
                assert(pre[last_slot(pre, k)] == vs[last_slot(pre, k)]);
            }
        }
        assert forall|j: int| 0 <= j < vs.len() implies last_slot(m, lower(#[trigger] vs[j].0)) >= 0 by {
            let k = lower(vs[j].0);
            lemma_last_slot(m, k);
            if j == vs.len() - 1 {
                if s >= 0 {
                    assert(lower(m[s].0) == k);
                } else {
                    assert(lower(m[mp.len() as int].0) == k);
                }
            } else {
                assert(vs[j] == pre[j]);
                lemma_last_slot(mp, k);
                let t = last_slot(mp, k);
                assert(t >= 0);
                if s >= 0 && t == s {
                    assert(lower(m[t].0) == k);
                } else {
                    assert(m[t] == mp[t]);
                    assert(lower(m[t].0) == k);
                }
            }
        }
    }
}

/// What reading a pak's tweaks yields, `layers` holding each layer's content and label.
pub open spec fn merged_tweaks(layers: Seq<(Seq<char>, Seq<char>)>) -> Seq<Tweak> {
    merge_vars(layers_vars(layers))
}

fn copy_state(s: &PakTweakState) -> (r: PakTweakState)
    ensures
        r == *s,
{
    PakTweakState { key: s.key.clone(), value: s.value.clone(), source: s.source.clone() }
}

/// Read CVar values from the INI layers of a pak, given as `(content, label)` lowest
/// priority first (BaseEngine, DefaultEngine, WindowsEngine, DeviceProfiles), merged by
/// ASCII-lowercased key so that a higher layer overrides a lower one: one state per key,
/// holding the value and label of the key's last occurrence, for every key of any layer.
pub fn read_pak_tweaks(layers: &Vec<(String, String)>) -> (r: Vec<PakTweakState>)
    ensures
        tweak_models(r@) == merged_tweaks(pair_views(layers@)),
        keys_distinct(tweak_models(r@)),
        forall|i: int|
            0 <= i < r@.len() ==> {
                let vs = layers_vars(pair_views(layers@));
                let k = lower((#[trigger] r@[i]).key@);
                &&& last_slot(vs, k) >= 0
                &&& tweak_model(r@[i]) == vs[last_slot(vs, k)]
            },
        forall|j: int|
            0 <= j < layers_vars(pair_views(layers@)).len() ==> last_slot(
                tweak_models(r@),
                lower(#[trigger] layers_vars(pair_views(layers@))[j].0),
            ) >= 0,
{
    let ghost ls = pair_views(layers@);
    let mut acc: Vec<PakTweakState> = Vec::new();
    let mut lows: Vec<Vec<char>> = Vec::new();
    let mut li: usize = 0;
    proof {
        assert(ls.take(0) =~= Seq::<(Seq<char>, Seq<char>)>::empty());
        assert(tweak_models(acc@) =~= Seq::<Tweak>::empty());
    }
    while li < layers.len()
        invariant
            ls == pair_views(layers@),
            li <= layers@.len(),
            tweak_models(acc@) == merge_vars(layers_vars(ls.take(li as int))),
            lows@.len() == acc@.len(),
            forall|k: int| 0 <= k < acc@.len() ==> (#[trigger] lows@[k])@ == lower(acc@[k].key@),
        decreases layers@.len() - li,
    {
        let content = &layers[li].0;
        let label = &layers[li].1;
        let vars = parse_console_vars(content.as_str(), label.as_str());
        let ghost before = layers_vars(ls.take(li as int));
        let ghost lv = layer_vars(content@, label@);
        proof {
            assert(ls[li as int] == (content@, label@));
            assert(ls.take(li + 1).drop_last() =~= ls.take(li as int));
            assert(layers_vars(ls.take(li + 1)) == before + lv);
            assert(tweak_models(vars@) =~= lv) by {
                assert forall|j: int| 0 <= j < vars@.len() implies tweak_models(vars@)[j] == lv[j] by {
                    assert(crate::pak_ini::state_kvs(vars@)[j] == console_vars(content@, label@)[j]);
                }
            }
        }
        let mut j: usize = 0;
        proof {
            assert((before + lv.take(0)) =~= before);
        }
        while j < vars.len()
            invariant
                ls == pair_views(layers@),
                li < layers@.len(),
                before == layers_vars(ls.take(li as int)),
                tweak_models(vars@) == lv,
                j <= vars@.len(),
                tweak_models(acc@) == merge_vars(before + lv.take(j as int)),
                lows@.len() == acc@.len(),
                forall|k: int| 0 <= k < acc@.len() ==> (#[trigger] lows@[k])@ == lower(acc@[k].key@),
            decreases vars@.len() - j,
        {
            let v = &vars[j];
            let kc = chars_of(v.key.as_str());
            let kl = lower_vec(kc.as_slice());
            let ghost am = tweak_models(acc@);
            let mut k: usize = acc.len();
            proof {
                assert(am.take(k as int) =~= am);
            }
            while k > 0 && !chars_eq(&lows[k - 1], &kl)
                invariant
                    k <= acc@.len(),
                    lows@.len() == acc@.len(),
                    am == tweak_models(acc@),
                    forall|q: int| 0 <= q < acc@.len() ==> (#[trigger] lows@[q])@ == lower(acc@[q].key@),
                    forall|q: int| k <= q < acc@.len() ==> lower(am[q].0) != kl@,
                    last_slot(am, kl@) == last_slot(am.take(k as int), kl@),
                decreases k,
            {
                proof {
                    assert(am.take(k as int).drop_last() =~= am.take(k - 1));
                    assert(am.take(k as int).last() == am[k - 1]);
                }
                k = k - 1;
            }
            proof {
                assert(v.key@ == lv[j as int].0);
                if k > 0 {
                    assert(am.take(k as int).last() == am[k - 1]);
                    assert(last_slot(am, kl@) == k - 1);
                } else {
                    assert(am.take(0) =~= Seq::<Tweak>::empty());
                    assert(last_slot(am, kl@) == -1);
                }
                assert((before + lv.take(j + 1)).drop_last() =~= before + lv.take(j as int));
                assert((before + lv.take(j + 1)).last() == lv[j as int]);
            }
            let s = copy_state(v);
            if k > 0 {
                acc.set(k - 1, s);
                proof {
                    assert(tweak_models(acc@) =~= am.update(k - 1, lv[j as int]));
                }
            } else {
                acc.push(s);
                lows.push(kl);
                proof {
                    assert(tweak_models(acc@) =~= am.push(lv[j as int]));
                }
            }
            j = j + 1;
        }
        proof {
            assert(lv.take(vars@.len() as int) =~= lv);
        }
        li = li + 1;
    }
    proof {
        assert(ls.take(layers@.len() as int) =~= ls);
        let vs = layers_vars(ls);
        law_merge_last_wins(vs);
        assert forall|i: int| 0 <= i < acc@.len() implies {
            let k = lower((#[trigger] acc@[i]).key@);
            &&& last_slot(vs, k) >= 0
            &&& tweak_model(acc@[i]) == vs[last_slot(vs, k)]
        } by {
            assert(tweak_models(acc@)[i] == tweak_model(acc@[i]));
        }
    }
    acc
}

/// `name` has the extension `pak`: the text after its last dot is `pak`, and something
/// comes before that dot.
pub open spec fn is_pak_name(name: Seq<char>) -> bool {
    name.len() >= 5 && name.subrange(name.len() - 4, name.len() as int) == ".pak"@
}

/// Whether a file name has the `pak` extension.
pub fn has_pak_extension(file_name: &str) -> (r: bool)
    ensures
        r == is_pak_name(file_name@),
{
    let c = chars_of(file_name);
    let n = c.len();
    proof {
        reveal_strlit(".pak");
    }
    if n < 5 {
        return false;
    }
    let r = c[n - 4] == '.' && c[n - 3] == 'p' && c[n - 2] == 'a' && c[n - 1] == 'k';
    proof {
        let t = c@.subrange(n - 4, n as int);
        if r {
            assert(t =~= ".pak"@);
        } else if t == ".pak"@ {
            assert(t[0] == '.' && t[1] == 'p' && t[2] == 'a' && t[3] == 'k');
        }
    }
    r
}

/// The names of `infos`, the keys they are listed by.
pub open spec fn pak_names(infos: Seq<PakIniInfo>) -> Seq<Seq<char>> {
    infos.map_values(|i: PakIniInfo| i.pak_name@)
}

fn opt_copy(o: &Option<String>) -> (r: Option<String>)
    ensures
        r == *o,
{
    match o {
        Some(s) => Some(s.clone()),
        None => None,
    }
}

fn copy_info(i: &PakIniInfo) -> (r: PakIniInfo)
    ensures
        r == *i,
{
    PakIniInfo {
        pak_name: i.pak_name.clone(),
        has_engine_ini: i.has_engine_ini,
        has_device_profiles: i.has_device_profiles,
        engine_ini_entry: opt_copy(&i.engine_ini_entry),
        device_profiles_entry: opt_copy(&i.device_profiles_entry),
        base_engine_entry: opt_copy(&i.base_engine_entry),
        windows_engine_entry: opt_copy(&i.windows_engine_entry),
    }
}

/// The paks found with tweakable INI files, listed by name (stable for equal names).
pub fn scan_mod_paks(found: &Vec<PakIniInfo>) -> (r: Vec<PakIniInfo>)
    ensures
        sorted_by_keys(found@, pak_names(found@), r@),
{
    let mut keys: Vec<Vec<char>> = Vec::new();
    let mut i: usize = 0;
    while i < found.len()
        invariant
            i <= found@.len(),
            keys@.len() == i,
            forall|k: int| 0 <= k < i ==> (#[trigger] keys@[k])@ == found@[k].pak_name@,
        decreases found@.len() - i,
    {
        keys.push(chars_of(found[i].pak_name.as_str()));
        i = i + 1;
    }
    proof {
        assert(keys@.map_values(|k: Vec<char>| k@) =~= pak_names(found@));
    }
    let p = stable_order(&keys);
    let mut out: Vec<PakIniInfo> = Vec::new();
    let mut k: usize = 0;
    while k < p.len()
        invariant
            is_stable_sort(pak_names(found@), p@),
            k <= p@.len(),
            out@.len() == k,
            forall|q: int| 0 <= q < k ==> #[trigger] out@[q] == found@[p@[q] as int],
        decreases p@.len() - k,
    {
        out.push(copy_info(&found[p[k]]));
        k = k + 1;
    }
    proof {
        assert(permuted(found@, p@, out@));
    }
    out
}

fn copy_listing(l: &PakIniListing) -> (r: PakIniListing)
    ensures
        listing_model(r) == listing_model(*l),
{
    let mut entries: Vec<String> = Vec::new();
    let mut i: usize = 0;
    while i < l.ini_entries.len()
        invariant
            i <= l.ini_entries@.len(),
            entries@.len() == i,
            forall|k: int| 0 <= k < i ==> (#[trigger] entries@[k])@ == l.ini_entries@[k]@,
        decreases l.ini_entries@.len() - i,
    {
        entries.push(l.ini_entries[i].clone());
        i = i + 1;
    }
    let r = PakIniListing { pak_name: l.pak_name.clone(), ini_entries: entries };
    proof {
        assert(r.ini_entries@.map_values(|s: String| s@) =~= l.ini_entries@.map_values(|s: String| s@));
    }
    r
}

/// The names of `listings`, the keys they are listed by.
pub open spec fn listing_names(listings: Seq<PakIniListing>) -> Seq<Seq<char>> {
    listings.map_values(|l: PakIniListing| l.pak_name@)
}

/// The paks found with any `.ini` file, listed by name (stable for equal names).
pub fn scan_mod_paks_any_ini(found: &Vec<PakIniListing>) -> (r: Vec<PakIniListing>)
    ensures
        sorted_by_keys(listing_models(found@), listing_names(found@), listing_models(r@)),
{
    let mut keys: Vec<Vec<char>> = Vec::new();
    let mut i: usize = 0;
    while i < found.len()
        invariant
            i <= found@.len(),
            keys@.len() == i,
            forall|k: int| 0 <= k < i ==> (#[trigger] keys@[k])@ == found@[k].pak_name@,
        decreases found@.len() - i,
    {
        keys.push(chars_of(found[i].pak_name.as_str()));
        i = i + 1;
    }
    proof {
        assert(keys@.map_values(|k: Vec<char>| k@) =~= listing_names(found@));
    }
    let p = stable_order(&keys);
    let mut out: Vec<PakIniListing> = Vec::new();
    let mut k: usize = 0;
    while k < p.len()
        invariant
            is_stable_sort(listing_names(found@), p@),
            k <= p@.len(),
            out@.len() == k,
            forall|q: int| 0 <= q < k ==> listing_model(#[trigger] out@[q]) == listing_model(found@[p@[q] as int]),
        decreases p@.len() - k,
    {
        out.push(copy_listing(&found[p[k]]));
        k = k + 1;
    }
    proof {
        assert(permuted(listing_models(found@), p@, listing_models(out@)));
    }
    out
}

/// `key=value` for each merged CVar, one per line.
pub open spec fn assignment_lines(v: Seq<Tweak>) -> Seq<char>
    decreases v.len(),
{
    if v.len() == 0 {
        Seq::empty()
    } else if v.len() == 1 {
        v[0].0 + "="@ + v[0].1
    } else {
        assignment_lines(v.drop_last()) + "\n"@ + v.last().0 + "="@ + v.last().1
    }
}

fn push_str_chars(s: &mut String, t: &str)
    ensures
        final(s)@ == old(s)@ + t@,
{
    s.append(t);
}

/// The text handed to the tweak detector for a pak: its merged CVars as `key=value`
/// lines joined by newlines.
pub fn synthetic_tweak_text(merged: &Vec<PakTweakState>) -> (r: String)
    ensures
        r@ == assignment_lines(tweak_models(merged@)),
{
    let ghost m = tweak_models(merged@);
    let mut out = String::new();
    let mut i: usize = 0;
    proof {
        reveal_strlit("=");
        reveal_strlit("\n");
    }
    while i < merged.len()
        invariant
            m == tweak_models(merged@),
            i <= merged@.len(),
            out@ == assignment_lines(m.take(i as int)),
        decreases merged@.len() - i,
    {
        if i > 0 {
            push_char(&mut out, '\n');
        }
        let ghost pre = out@;
        push_str_chars(&mut out, merged[i].key.as_str());
        push_char(&mut out, '=');
        push_str_chars(&mut out, merged[i].value.as_str());
        proof {
            reveal_strlit("=");
            reveal_strlit("\n");
            let t = m.take(i + 1);
            assert(m[i as int] == tweak_model(merged@[i as int]));
            assert(t.drop_last() =~= m.take(i as int));
            assert(t.last() == m[i as int]);
            assert(out@ =~= pre + m[i as int].0 + "="@ + m[i as int].1);
            if i == 0 {
                assert(t.len() == 1 && t[0] == m[0]);
                assert(m.take(0) =~= Seq::<Tweak>::empty());
                assert(pre =~= Seq::<char>::empty());
                assert(out@ =~= assignment_lines(t));
            } else {
                assert(out@ =~= assignment_lines(t));
            }
        }
        i = i + 1;
    }
    proof {
        assert(m.take(merged@.len() as int) =~= m);
    }
    out
}

} // verus!
