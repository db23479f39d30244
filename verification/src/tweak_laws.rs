//! What reading a pak's tweaks gives back after an edit was applied to it.
use vstd::prelude::*;

use crate::apply::{
    key_present, spec_entry, spec_label, spec_sibling, text_of, tweak_files, FilesModel,
};
use crate::apply_laws::law_apply_keeps_files_consistent;
use crate::cvars::console_vars;
use crate::cvars_laws::{at_most_one_wdp, lacks, lemma_labels, reads_as};
use crate::cvars_many::{distinct_plain_edits, edit_reads_back};
use crate::pak_ini::{EditModel, PakIniInfo, PakIniTarget};
use crate::scan::{
    last_slot, law_merge_last_wins, layer_vars, layers_vars, lemma_last_slot, merge_vars,
    merged_tweaks, Tweak,
};
use crate::text::{lines_of, lower};

verus! {

/// The last position of a key in two lists one after the other.
pub proof fn lemma_last_slot_concat(xs: Seq<Tweak>, ys: Seq<Tweak>, kl: Seq<char>)
    ensures
        last_slot(xs + ys, kl) == (if last_slot(ys, kl) >= 0 {
            xs.len() + last_slot(ys, kl)
        } else {
            last_slot(xs, kl)
        }),
    decreases ys.len(),
{
    if ys.len() == 0 {
        assert(xs + ys =~= xs);
    } else {
        assert((xs + ys).drop_last() =~= xs + ys.drop_last());
        assert((xs + ys).last() == ys.last());
        lemma_last_slot_concat(xs, ys.drop_last(), kl);
    }
}

/// A layer holds the key exactly when its CVars do; the last occurrence carries the
/// layer's label.
proof fn lemma_layer_slot(content: Seq<char>, label: Seq<char>, kl: Seq<char>)
    ensures
        (last_slot(layer_vars(content, label), kl) >= 0) == key_present(console_vars(content, label), kl),
        last_slot(layer_vars(content, label), kl) >= 0 ==> {
            let i = last_slot(layer_vars(content, label), kl);
            &&& i < console_vars(content, label).len()
            &&& layer_vars(content, label)[i] == (
                console_vars(content, label)[i].0,
                console_vars(content, label)[i].1,
                label,
            )
            &&& lower(console_vars(content, label)[i].0) == kl
        },
{
    let lv = layer_vars(content, label);
    let cv = console_vars(content, label);
    lemma_last_slot(lv, kl);
    if key_present(cv, kl) {
        let j = choose|j: int| 0 <= j < cv.len() && lower((#[trigger] cv[j]).0) == kl;
        assert(lower(lv[j].0) == kl);
    }
    if last_slot(lv, kl) >= 0 {
        let i = last_slot(lv, kl);
        assert(lower(cv[i].0) == kl);
    }
}

/// When every CVar of the key in a layer has value `v` and the layer holds the key, the
/// layer's last occurrence of the key has value `v`.
proof fn lemma_layer_value(content: Seq<char>, label: Seq<char>, key: Seq<char>, v: Seq<char>)
    requires
        console_vars(content, label).contains((key, v)),
        forall|i: int|
            #![trigger console_vars(content, label)[i]]
            0 <= i < console_vars(content, label).len() && lower(console_vars(content, label)[i].0)
                == lower(key) ==> console_vars(content, label)[i].1 == v,
    ensures
        last_slot(layer_vars(content, label), lower(key)) >= 0,
        layer_vars(content, label)[last_slot(layer_vars(content, label), lower(key))].1 == v,
{
    let cv = console_vars(content, label);
    let j = choose|j: int| 0 <= j < cv.len() && cv[j] == (key, v);
    assert(lower(cv[j].0) == lower(key));
    lemma_layer_slot(content, label, lower(key));
}

/// The four INI layers of a pak in priority order, lowest first.
pub open spec fn four_layers(
    base: Seq<char>,
    engine: Seq<char>,
    windows: Seq<char>,
    dp: Seq<char>,
) -> Seq<(Seq<char>, Seq<char>)> {
    seq![
        (base, "BaseEngine.ini"@),
        (engine, "DefaultEngine.ini"@),
        (windows, "WindowsEngine.ini"@),
        (dp, "DefaultDeviceProfiles.ini"@),
    ]
}

/// One plain setting of a batch, read back through the four merged layers.
proof fn lemma_merge_reads_one(
    info: PakIniInfo,
    es: Seq<EditModel>,
    t: PakIniTarget,
    base: Seq<char>,
    engine: Seq<char>,
    windows: Seq<char>,
    dp: Seq<char>,
    i: int,
)
    requires
        distinct_plain_edits(es),
        at_most_one_wdp(lines_of(dp)),
        spec_entry(info, PakIniTarget::Engine) is Some,
        spec_entry(info, PakIniTarget::DeviceProfiles) is Some,
        0 <= i < es.len(),
        es[i].section is None,
        es[i].value is Some,
        !key_present(console_vars(windows, "WindowsEngine.ini"@), lower(es[i].key)),
    ensures
        ({
            let st = tweak_files(
                info,
                es,
                t,
                FilesModel { engine, dp, engine_written: false, dp_written: false },
            );
            let m = merged_tweaks(four_layers(base, st.engine, windows, st.dp));
            &&& last_slot(m, lower(es[i].key)) >= 0
            &&& m[last_slot(m, lower(es[i].key))].1 == es[i].value->0
        }),
{
    let e = es[i];
    let v = e.value->0;
    let kl = lower(e.key);
    let st0 = FilesModel { engine, dp, engine_written: false, dp_written: false };
    let st = tweak_files(info, es, t, st0);
    lemma_labels();
    let el = spec_label(PakIniTarget::Engine);
    let dl = spec_label(PakIniTarget::DeviceProfiles);
    assert(el == "DefaultEngine.ini"@);
    assert(dl == "DefaultDeviceProfiles.ini"@);
    law_apply_keeps_files_consistent(info, es, t, engine, dp);
    assert(edit_reads_back(console_vars(text_of(st, t), spec_label(t)), es[i]));
    let dp_had = key_present(console_vars(dp, dl), kl);
    let dp_has = (t == PakIniTarget::DeviceProfiles) || dp_had;
    if dp_has {
        if t == PakIniTarget::Engine {
            assert(spec_sibling(t) == PakIniTarget::DeviceProfiles);
            assert(edit_reads_back(console_vars(text_of(st, spec_sibling(t)), dl), es[i]));
        }
        assert(reads_as(console_vars(st.dp, dl), e.key, v));
        lemma_layer_value(st.dp, dl, e.key, v);
    } else {
        assert(t == PakIniTarget::Engine);
        assert(spec_sibling(t) == PakIniTarget::DeviceProfiles);
        assert(lacks(console_vars(text_of(st, spec_sibling(t)), dl), lower(es[i].key)));
        lemma_layer_value(st.engine, el, e.key, v);
        lemma_layer_slot(st.dp, dl, kl);
        let cd = console_vars(st.dp, dl);
        if key_present(cd, kl) {
            let j = choose|j: int| 0 <= j < cd.len() && lower((#[trigger] cd[j]).0) == kl;
            assert(lower(cd[j].0) != kl);
        }
    }
    lemma_layer_slot(windows, "WindowsEngine.ini"@, kl);
    // The merged layers.
    let ls = four_layers(base, st.engine, windows, st.dp);
    let l3 = ls.drop_last();
    let l2 = l3.drop_last();
    let l1 = l2.drop_last();
    assert(l3 =~= seq![ls[0], ls[1], ls[2]]);
    assert(l2 =~= seq![ls[0], ls[1]]);
    assert(l1 =~= seq![ls[0]]);
    assert(l1.drop_last() =~= Seq::<(Seq<char>, Seq<char>)>::empty());
    let a = layer_vars(base, "BaseEngine.ini"@);
    let b = layer_vars(st.engine, el);
    let c = layer_vars(windows, "WindowsEngine.ini"@);
    let d = layer_vars(st.dp, dl);
    assert(layers_vars(l1.drop_last()) =~= Seq::<Tweak>::empty());
    assert(l1.last() == ls[0]);
    assert(layers_vars(l1) =~= a);
    assert(layers_vars(l2) =~= a + b);
    assert(layers_vars(l3) =~= a + b + c);
    let lvs = layers_vars(ls);
    assert(lvs =~= a + b + c + d);
    lemma_last_slot(b, kl);
    lemma_last_slot(d, kl);
    lemma_last_slot_concat(a + b + c, d, kl);
    lemma_last_slot_concat(a + b, c, kl);
    lemma_last_slot_concat(a, b, kl);
    let j = last_slot(lvs, kl);
    if dp_has {
        assert(j == (a + b + c).len() + last_slot(d, kl));
        assert(lvs[j] == d[last_slot(d, kl)]);
    } else {
        assert(last_slot(d, kl) < 0);
        assert(j == a.len() + last_slot(b, kl));
        assert(lvs[j] == b[last_slot(b, kl)]);
    }
    lemma_last_slot(lvs, kl);
    assert(lower(lvs[j].0) == kl);
    let m = merge_vars(lvs);
    law_merge_last_wins(lvs);
    assert(last_slot(m, lower(lvs[j].0)) >= 0);
    let k = last_slot(m, kl);
    lemma_last_slot(m, kl);
    assert(lower(m[k].0) == kl);
    assert(m[k] == lvs[last_slot(lvs, lower(m[k].0))]);
    assert(merged_tweaks(ls) == m);
}

/// Applying a batch of plain CVar edits of distinct keys (ASCII case ignored) to a pak
/// that has both an Engine.ini and a DeviceProfiles file (the latter with at most one
/// `[Windows DeviceProfile]` header), then reading the pak's merged tweaks, gives back
/// the new value of each setting of the batch, whichever file was the target, as long as
/// the WindowsEngine layer (applied between them and never edited) does not set that key.
pub proof fn law_set_reads_back_through_merge(
    info: PakIniInfo,
    es: Seq<EditModel>,
    t: PakIniTarget,
    base: Seq<char>,
    engine: Seq<char>,
    windows: Seq<char>,
    dp: Seq<char>,
)
    requires
        distinct_plain_edits(es),
        at_most_one_wdp(lines_of(dp)),
        spec_entry(info, PakIniTarget::Engine) is Some,
        spec_entry(info, PakIniTarget::DeviceProfiles) is Some,
    ensures
        ({
            let st = tweak_files(
                info,
                es,
                t,
                FilesModel { engine, dp, engine_written: false, dp_written: false },
            );
            let m = merged_tweaks(four_layers(base, st.engine, windows, st.dp));
            forall|i: int|
                0 <= i < es.len() && (#[trigger] es[i]).section is None && es[i].value is Some
                    && !key_present(console_vars(windows, "WindowsEngine.ini"@), lower(es[i].key))
                    ==> {
                    &&& last_slot(m, lower(es[i].key)) >= 0
                    &&& m[last_slot(m, lower(es[i].key))].1 == es[i].value->0
                }
        }),
{
    assert forall|i: int|
        0 <= i < es.len() && (#[trigger] es[i]).section is None && es[i].value is Some
            && !key_present(console_vars(windows, "WindowsEngine.ini"@), lower(es[i].key)) implies ({
        let st = tweak_files(
            info,
            es,
            t,
            FilesModel { engine, dp, engine_written: false, dp_written: false },
        );
        let m = merged_tweaks(four_layers(base, st.engine, windows, st.dp));
        &&& last_slot(m, lower(es[i].key)) >= 0
        &&& m[last_slot(m, lower(es[i].key))].1 == es[i].value->0
    }) by {
        lemma_merge_reads_one(info, es, t, base, engine, windows, dp, i);
    }
}

/// One removal of a batch, read back through the four merged layers.
proof fn lemma_merge_removed_one(
    info: PakIniInfo,
    es: Seq<EditModel>,
    t: PakIniTarget,
    base: Seq<char>,
    engine: Seq<char>,
    windows: Seq<char>,
    dp: Seq<char>,
    i: int,
)
    requires
        distinct_plain_edits(es),
        at_most_one_wdp(lines_of(dp)),
        spec_entry(info, PakIniTarget::Engine) is Some,
        spec_entry(info, PakIniTarget::DeviceProfiles) is Some,
        0 <= i < es.len(),
        es[i].section is None,
        es[i].value is None,
    ensures
        ({
            let st = tweak_files(
                info,
                es,
                t,
                FilesModel { engine, dp, engine_written: false, dp_written: false },
            );
            let m = merged_tweaks(four_layers(base, st.engine, windows, st.dp));
            let kl = lower(es[i].key);
            let in_windows = key_present(console_vars(windows, "WindowsEngine.ini"@), kl);
            let in_base = key_present(console_vars(base, "BaseEngine.ini"@), kl);
            &&& (last_slot(m, kl) >= 0) == (in_windows || in_base)
            &&& last_slot(m, kl) >= 0 ==> m[last_slot(m, kl)].2 == (if in_windows {
                "WindowsEngine.ini"@
            } else {
                "BaseEngine.ini"@
            })
        }),
{
    let e = es[i];
    let kl = lower(e.key);
    let st0 = FilesModel { engine, dp, engine_written: false, dp_written: false };
    let st = tweak_files(info, es, t, st0);
    lemma_labels();
    let el = spec_label(PakIniTarget::Engine);
    let dl = spec_label(PakIniTarget::DeviceProfiles);
    assert(el == "DefaultEngine.ini"@);
    assert(dl == "DefaultDeviceProfiles.ini"@);
    law_apply_keeps_files_consistent(info, es, t, engine, dp);
    assert(edit_reads_back(console_vars(text_of(st, t), spec_label(t)), es[i]));
    let s = spec_sibling(t);
    assert(lacks(console_vars(text_of(st, s), spec_label(s)), kl));
    assert(lacks(console_vars(text_of(st, t), spec_label(t)), kl));
    assert(lacks(console_vars(st.engine, el), kl));
    assert(lacks(console_vars(st.dp, dl), kl));
    let ce = console_vars(st.engine, el);
    let cd = console_vars(st.dp, dl);
    if key_present(ce, kl) {
        let j = choose|j: int| 0 <= j < ce.len() && lower((#[trigger] ce[j]).0) == kl;
        assert(lower(ce[j].0) != kl);
    }
    if key_present(cd, kl) {
        let j = choose|j: int| 0 <= j < cd.len() && lower((#[trigger] cd[j]).0) == kl;
        assert(lower(cd[j].0) != kl);
    }
    lemma_layer_slot(st.engine, el, kl);
    lemma_layer_slot(st.dp, dl, kl);
    lemma_layer_slot(windows, "WindowsEngine.ini"@, kl);
    lemma_layer_slot(base, "BaseEngine.ini"@, kl);
    let in_windows = key_present(console_vars(windows, "WindowsEngine.ini"@), kl);
    let in_base = key_present(console_vars(base, "BaseEngine.ini"@), kl);
    // The merged layers.
    let ls = four_layers(base, st.engine, windows, st.dp);
    let l3 = ls.drop_last();
    let l2 = l3.drop_last();
    let l1 = l2.drop_last();
    assert(l3 =~= seq![ls[0], ls[1], ls[2]]);
    assert(l2 =~= seq![ls[0], ls[1]]);
    assert(l1 =~= seq![ls[0]]);
    assert(l1.drop_last() =~= Seq::<(Seq<char>, Seq<char>)>::empty());
    let a = layer_vars(base, "BaseEngine.ini"@);
    let b = layer_vars(st.engine, el);
    let c = layer_vars(windows, "WindowsEngine.ini"@);
    let d = layer_vars(st.dp, dl);
    assert(layers_vars(l1.drop_last()) =~= Seq::<Tweak>::empty());
    assert(l1.last() == ls[0]);
    assert(layers_vars(l1) =~= a);
    assert(layers_vars(l2) =~= a + b);
    assert(layers_vars(l3) =~= a + b + c);
    let lvs = layers_vars(ls);
    assert(lvs =~= a + b + c + d);
    lemma_last_slot_concat(a + b + c, d, kl);
    lemma_last_slot_concat(a + b, c, kl);
    lemma_last_slot_concat(a, b, kl);
    let j = last_slot(lvs, kl);
    if in_windows {
        assert(j == (a + b).len() + last_slot(c, kl));
        assert(lvs[j] == c[last_slot(c, kl)]);
        assert(lvs[j].2 == "WindowsEngine.ini"@);
    } else if in_base {
        assert(j == last_slot(a, kl));
        assert(lvs[j] == a[last_slot(a, kl)]);
        assert(lvs[j].2 == "BaseEngine.ini"@);
    } else {
        assert(j < 0);
    }
    lemma_last_slot(lvs, kl);
    let m = merge_vars(lvs);
    law_merge_last_wins(lvs);
    lemma_last_slot(m, kl);
    let k = last_slot(m, kl);
    if j >= 0 {
        assert(lower(lvs[j].0) == kl);
        assert(last_slot(m, lower(lvs[j].0)) >= 0);
        assert(lower(m[k].0) == kl);
        assert(m[k] == lvs[last_slot(lvs, lower(m[k].0))]);
    }
    if k >= 0 {
        assert(lower(m[k].0) == kl);
        assert(last_slot(lvs, lower(m[k].0)) >= 0);
    }
    assert(merged_tweaks(ls) == m);
}

/// Removing keys from a pak that has both an Engine.ini and a DeviceProfiles file (the
/// latter with at most one `[Windows DeviceProfile]` header), with a batch of plain CVar
/// edits of distinct keys, is a true reset: the merged read of the pak then holds a
/// removed key only when the BaseEngine or WindowsEngine layer (never edited) sets it,
/// and takes it from WindowsEngine when that layer does.
pub proof fn law_remove_falls_back_through_merge(
    info: PakIniInfo,
    es: Seq<EditModel>,
    t: PakIniTarget,
    base: Seq<char>,
    engine: Seq<char>,
    windows: Seq<char>,
    dp: Seq<char>,
)
    requires
        distinct_plain_edits(es),
        at_most_one_wdp(lines_of(dp)),
        spec_entry(info, PakIniTarget::Engine) is Some,
        spec_entry(info, PakIniTarget::DeviceProfiles) is Some,
    ensures
        ({
            let st = tweak_files(
                info,
                es,
                t,
                FilesModel { engine, dp, engine_written: false, dp_written: false },
            );
            let m = merged_tweaks(four_layers(base, st.engine, windows, st.dp));
            forall|i: int|
                0 <= i < es.len() && (#[trigger] es[i]).section is None && es[i].value is None
                    ==> {
                    let kl = lower(es[i].key);
                    let in_windows = key_present(console_vars(windows, "WindowsEngine.ini"@), kl);
                    let in_base = key_present(console_vars(base, "BaseEngine.ini"@), kl);
                    &&& (last_slot(m, kl) >= 0) == (in_windows || in_base)
                    &&& last_slot(m, kl) >= 0 ==> m[last_slot(m, kl)].2 == (if in_windows {
                        "WindowsEngine.ini"@
                    } else {
                        "BaseEngine.ini"@
                    })
                }
        }),
{
    assert forall|i: int|
        0 <= i < es.len() && (#[trigger] es[i]).section is None && es[i].value is None implies ({
        let st = tweak_files(
            info,
            es,
            t,
            FilesModel { engine, dp, engine_written: false, dp_written: false },
        );
        let m = merged_tweaks(four_layers(base, st.engine, windows, st.dp));
        let kl = lower(es[i].key);
        let in_windows = key_present(console_vars(windows, "WindowsEngine.ini"@), kl);
        let in_base = key_present(console_vars(base, "BaseEngine.ini"@), kl);
        &&& (last_slot(m, kl) >= 0) == (in_windows || in_base)
        &&& last_slot(m, kl) >= 0 ==> m[last_slot(m, kl)].2 == (if in_windows {
            "WindowsEngine.ini"@
        } else {
            "BaseEngine.ini"@
        })
    }) by {
        lemma_merge_removed_one(info, es, t, base, engine, windows, dp, i);
    }
}

} // verus!
