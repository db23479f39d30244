//! Decides how catalogue-driven edits are spread over a pak's INI files: plain CVar
//! edits go to the chosen target, engine-section settings to Engine.ini, and an existing
//! copy of an edited key in the sibling file is kept in sync.
use vstd::prelude::*;

use crate::cvars::{IniType, apply_edits_to_ini, console_vars, ini_text, parse_console_vars};
use crate::pak_ini::{
    EditModel, PakIniInfo, PakIniTarget, PakTweakEdit, PakTweakState, edit_model, edit_models,
    opt_view, state_kvs,
};
use crate::text::{chars_eq, chars_of, decimal, decimal_digits, lower, lower_vec, string_of_range};

verus! {

/// `No INI config files found in this pak.`
pub open spec fn no_ini_message() -> Seq<char> {
    "No INI config files found in this pak."@
}

/// `Target INI entry missing despite target resolution`
pub open spec fn missing_entry_message() -> Seq<char> {
    "Target INI entry missing despite target resolution"@
}

pub open spec fn target_present(info: PakIniInfo, t: PakIniTarget) -> bool {
    match t {
        PakIniTarget::Engine => info.has_engine_ini,
        PakIniTarget::DeviceProfiles => info.has_device_profiles,
    }
}

/// The target edits go to: the requested one when the pak has it, else DeviceProfiles
/// when present (it overrides Engine CVars at runtime), else Engine; none when the pak
/// has neither.
pub open spec fn resolved_target(info: PakIniInfo, target: Option<PakIniTarget>) -> Option<PakIniTarget> {
    match target {
        Some(t) if target_present(info, t) => Some(t),
        _ => if info.has_device_profiles {
            Some(PakIniTarget::DeviceProfiles)
        } else if info.has_engine_ini {
            Some(PakIniTarget::Engine)
        } else {
            None
        },
    }
}

pub open spec fn spec_sibling(t: PakIniTarget) -> PakIniTarget {
    match t {
        PakIniTarget::Engine => PakIniTarget::DeviceProfiles,
        PakIniTarget::DeviceProfiles => PakIniTarget::Engine,
    }
}

pub open spec fn spec_ini_type(t: PakIniTarget) -> IniType {
    match t {
        PakIniTarget::Engine => IniType::Engine,
        PakIniTarget::DeviceProfiles => IniType::DeviceProfiles,
    }
}

pub open spec fn spec_entry(info: PakIniInfo, t: PakIniTarget) -> Option<String> {
    match t {
        PakIniTarget::Engine => info.engine_ini_entry,
        PakIniTarget::DeviceProfiles => info.device_profiles_entry,
    }
}

pub open spec fn spec_label(t: PakIniTarget) -> Seq<char> {
    match t {
        PakIniTarget::Engine => "DefaultEngine.ini"@,
        PakIniTarget::DeviceProfiles => "DefaultDeviceProfiles.ini"@,
    }
}

/// Resolve the requested target to one the pak actually contains, falling back to
/// DeviceProfiles when present (it overrides Engine CVars at runtime), else Engine.
pub fn resolve_target(info: &PakIniInfo, target: Option<PakIniTarget>) -> (r: Result<
    PakIniTarget,
    String,
>)
    ensures
        match resolved_target(*info, target) {
            Some(t) => r == Ok::<PakIniTarget, String>(t),
            None => r matches Err(m) && m@ == no_ini_message(),
        },
{
    let requested_present = match target {
        Some(PakIniTarget::Engine) => info.has_engine_ini,
        Some(PakIniTarget::DeviceProfiles) => info.has_device_profiles,
        None => false,
    };
    if requested_present {
        match target {
            Some(t) => {
                return Ok(t);
            },
            None => {},
        }
    }
    if info.has_device_profiles {
        Ok(PakIniTarget::DeviceProfiles)
    } else if info.has_engine_ini {
        Ok(PakIniTarget::Engine)
    } else {
        Err(String::from_str("No INI config files found in this pak."))
    }
}

pub fn sibling_of(target: PakIniTarget) -> (r: PakIniTarget)
    ensures
        r == spec_sibling(target),
{
    match target {
        PakIniTarget::Engine => PakIniTarget::DeviceProfiles,
        PakIniTarget::DeviceProfiles => PakIniTarget::Engine,
    }
}

pub fn entry_for(info: &PakIniInfo, target: PakIniTarget) -> (r: Option<&String>)
    ensures
        match spec_entry(*info, target) {
            Some(s) => r matches Some(x) && *x == s,
            None => r is None,
        },
{
    match target {
        PakIniTarget::Engine => info.engine_ini_entry.as_ref(),
        PakIniTarget::DeviceProfiles => info.device_profiles_entry.as_ref(),
    }
}

pub fn ini_type_for(target: PakIniTarget) -> (r: IniType)
    ensures
        r == spec_ini_type(target),
{
    match target {
        PakIniTarget::Engine => IniType::Engine,
        PakIniTarget::DeviceProfiles => IniType::DeviceProfiles,
    }
}

/// `parse_console_vars` switches parsing rules based on whether the source name
/// contains "DeviceProfiles", so the label must reflect the file kind.
pub fn source_label(target: PakIniTarget) -> (r: &'static str)
    ensures
        r@ == spec_label(target),
{
    match target {
        PakIniTarget::Engine => "DefaultEngine.ini",
        PakIniTarget::DeviceProfiles => "DefaultDeviceProfiles.ini",
    }
}

// ---------------------------------------------------------------------------
/// Some key of `vars` equals `kl` after ASCII lowercasing.
pub open spec fn key_present(vars: Seq<(Seq<char>, Seq<char>)>, kl: Seq<char>) -> bool {
    exists|j: int| 0 <= j < vars.len() && lower((#[trigger] vars[j]).0) == kl
}

/// The edits whose key is already present among `vars`.
pub open spec fn shared_edits(es: Seq<EditModel>, vars: Seq<(Seq<char>, Seq<char>)>) -> Seq<EditModel> {
    es.filter(|m: EditModel| key_present(vars, lower(m.key)))
}

/// New text of a file the edits are written to; none when there is nothing to write.
pub open spec fn file_edit_result(content: Seq<char>, ini_type: IniType, es: Seq<EditModel>) -> Option<Seq<char>> {
    if es.len() == 0 {
        None
    } else {
        Some(ini_text(content, es, ini_type))
    }
}

/// New text of the sibling file: only the edits whose key it already holds are applied;
/// none when there is nothing to write.
pub open spec fn sync_result(
    content: Seq<char>,
    ini_type: IniType,
    label: Seq<char>,
    es: Seq<EditModel>,
) -> Option<Seq<char>> {
    if es.len() == 0 {
        None
    } else {
        let f = shared_edits(es, console_vars(content, label));
        if f.len() == 0 {
            None
        } else {
            Some(ini_text(content, f, ini_type))
        }
    }
}

/// A copy of an edit.
pub fn copy_edit(e: &PakTweakEdit) -> (r: PakTweakEdit)
    ensures
        edit_model(r) == edit_model(*e),
{
    let value = match &e.value {
        Some(v) => Some(v.clone()),
        None => None,
    };
    let engine_section = match &e.engine_section {
        Some(v) => Some(v.clone()),
        None => None,
    };
    PakTweakEdit { key: e.key.clone(), value, engine_section }
}

/// Whether some parsed key equals `kl` after ASCII lowercasing.
fn has_key(vars: &Vec<PakTweakState>, kl: &Vec<char>) -> (r: bool)
    ensures
        r == key_present(state_kvs(vars@), kl@),
{
    let ghost kv = state_kvs(vars@);
    let mut j: usize = 0;
    while j < vars.len()
        invariant
            kv == state_kvs(vars@),
            j <= vars@.len(),
            forall|i: int| 0 <= i < j ==> lower((#[trigger] kv[i]).0) != kl@,
        decreases vars@.len() - j,
    {
        let k = chars_of(vars[j].key.as_str());
        let lk = lower_vec(k.as_slice());
        if chars_eq(&lk, kl) {
            proof {
                assert(kv[j as int].0 == vars@[j as int].key@);
            }
            return true;
        }
        proof {
            assert(kv[j as int].0 == vars@[j as int].key@);
        }
        j = j + 1;
    }
    false
}

/// Apply `edits` to a file's content; `None` when there are no edits, so nothing is written.
pub fn apply_edits_to_file(content: &str, ini_type: IniType, edits: &[PakTweakEdit]) -> (r: Option<String>)
    ensures
        opt_view(r) == file_edit_result(content@, ini_type, edit_models(edits@)),
{
    if edits.len() == 0 {
        return None;
    }
    Some(apply_edits_to_ini(content, edits, ini_type))
}

/// Apply only the edits whose key already exists in the sibling file, so the two
/// INIs stay consistent without injecting keys the sibling never had.
pub fn sync_existing_keys(
    content: &str,
    ini_type: IniType,
    source_label: &str,
    edits: &[PakTweakEdit],
) -> (r: Option<String>)
    ensures
        opt_view(r) == sync_result(content@, ini_type, source_label@, edit_models(edits@)),
{
    if edits.len() == 0 {
        return None;
    }
    let present = parse_console_vars(content, source_label);
    let ghost vars = console_vars(content@, source_label@);
    let ghost es = edit_models(edits@);
    let ghost pred = |m: EditModel| key_present(vars, lower(m.key));
    let mut filtered: Vec<PakTweakEdit> = Vec::new();
    let mut i: usize = 0;
    while i < edits.len()
        invariant
            i <= edits@.len(),
            es == edit_models(edits@),
            state_kvs(present@) == vars,
            pred == (|m: EditModel| key_present(vars, lower(m.key))),
            edit_models(filtered@) == es.take(i as int).filter(pred),
            filtered@.len() <= i,
        decreases edits@.len() - i,
    {
        let k = chars_of(edits[i].key.as_str());
        let kl = lower_vec(k.as_slice());
        let keep = has_key(&present, &kl);
        proof {
            reveal(Seq::filter);
            assert(es.take(i + 1).drop_last() =~= es.take(i as int));
            assert(es.take(i + 1).last() == es[i as int]);
            assert(keep == pred(es[i as int]));
        }
        if keep {
            let c = copy_edit(&edits[i]);
            proof {
                assert(edit_models(filtered@.push(c)) =~= edit_models(filtered@).push(
                    edit_model(c),
                ));
            }
            filtered.push(c);
        }
        i = i + 1;
    }
    proof {
        assert(es.take(i as int) =~= es);
    }
    if filtered.len() == 0 {
        return None;
    }
    Some(apply_edits_to_ini(content, filtered.as_slice(), ini_type))
}

// ---------------------------------------------------------------------------
/// The Engine.ini and DeviceProfiles texts while edits are applied, and which of them
/// have been rewritten.
pub struct FilesModel {
    pub engine: Seq<char>,
    pub dp: Seq<char>,
    pub engine_written: bool,
    pub dp_written: bool,
}

pub open spec fn text_of(st: FilesModel, t: PakIniTarget) -> Seq<char> {
    match t {
        PakIniTarget::Engine => st.engine,
        PakIniTarget::DeviceProfiles => st.dp,
    }
}

/// Writes `new` to file `t` when there is something to write.
pub open spec fn write_file(st: FilesModel, t: PakIniTarget, new: Option<Seq<char>>) -> FilesModel {
    match new {
        None => st,
        Some(x) => match t {
            PakIniTarget::Engine => FilesModel { engine: x, engine_written: true, ..st },
            PakIniTarget::DeviceProfiles => FilesModel { dp: x, dp_written: true, ..st },
        },
    }
}

pub open spec fn section_edits(es: Seq<EditModel>) -> Seq<EditModel> {
    es.filter(|m: EditModel| m.section is Some)
}

pub open spec fn plain_edits(es: Seq<EditModel>) -> Seq<EditModel> {
    es.filter(|m: EditModel| m.section is None)
}

/// The three writes: plain CVar edits to the target; engine-section settings to
/// Engine.ini when the pak has one; the sibling's existing keys kept in sync.
pub open spec fn tweak_files(
    info: PakIniInfo,
    es: Seq<EditModel>,
    t: PakIniTarget,
    st0: FilesModel,
) -> FilesModel {
    let sec = section_edits(es);
    let plain = plain_edits(es);
    let st1 = write_file(st0, t, file_edit_result(text_of(st0, t), spec_ini_type(t), plain));
    let st2 = if sec.len() > 0 && info.engine_ini_entry is Some {
        write_file(
            st1,
            PakIniTarget::Engine,
            file_edit_result(st1.engine, IniType::Engine, sec),
        )
    } else {
        st1
    };
    let s = spec_sibling(t);
    if spec_entry(info, s) is Some {
        write_file(st2, s, sync_result(text_of(st2, s), spec_ini_type(s), spec_label(s), plain))
    } else {
        st2
    }
}

/// `Applied {n} change(s) to {pak}`, singular for one edit.
pub open spec fn applied_message(n: nat, pak: Seq<char>) -> Seq<char> {
    "Applied "@ + decimal(n) + (if n == 1 {
        " change"@
    } else {
        " changes"@
    }) + " to "@ + pak
}

/// What applying tweaks to a pak writes back: the new Engine.ini and DeviceProfiles
/// texts (only those rewritten) and the summary message.
#[derive(Clone, Debug)]
pub struct PakTweakOutcome {
    pub engine_ini: Option<String>,
    pub device_profiles: Option<String>,
    pub message: String,
}

pub open spec fn outcome_matches(o: PakTweakOutcome, st: FilesModel, msg: Seq<char>) -> bool {
    &&& opt_view(o.engine_ini) == (if st.engine_written {
        Some(st.engine)
    } else {
        None
    })
    &&& opt_view(o.device_profiles) == (if st.dp_written {
        Some(st.dp)
    } else {
        None
    })
    &&& o.message@ == msg
}

fn split_edits(edits: &[PakTweakEdit]) -> (r: (Vec<PakTweakEdit>, Vec<PakTweakEdit>))
    ensures
        edit_models(r.0@) == section_edits(edit_models(edits@)),
        edit_models(r.1@) == plain_edits(edit_models(edits@)),
{
    let ghost es = edit_models(edits@);
    let mut sec: Vec<PakTweakEdit> = Vec::new();
    let mut plain: Vec<PakTweakEdit> = Vec::new();
    let mut i: usize = 0;
    while i < edits.len()
        invariant
            i <= edits@.len(),
            es == edit_models(edits@),
            edit_models(sec@) == section_edits(es.take(i as int)),
            edit_models(plain@) == plain_edits(es.take(i as int)),
        decreases edits@.len() - i,
    {
        let c = copy_edit(&edits[i]);
        proof {
            reveal(Seq::filter);
            assert(es.take(i + 1).drop_last() =~= es.take(i as int));
            assert(es.take(i + 1).last() == es[i as int]);
        }
        if edits[i].engine_section.is_some() {
            proof {
                assert(edit_models(sec@.push(c)) =~= edit_models(sec@).push(edit_model(c)));
            }
            sec.push(c);
        } else {
            proof {
                assert(edit_models(plain@.push(c)) =~= edit_models(plain@).push(edit_model(c)));
            }
            plain.push(c);
        }
        i = i + 1;
    }
    proof {
        assert(es.take(i as int) =~= es);
    }
    (sec, plain)
}

/// Apply catalogue-driven edits to the INI texts of a pak.
///
/// All plain CVar edits are written to `target` (defaulting to DeviceProfiles when
/// present, else Engine). Engine-section settings can only live in Engine.ini, so
/// they always go there. An existing copy of an edited key in the sibling file is
/// kept in sync so neither file shadows the other; keys absent from the sibling are
/// never injected. `engine_text` and `device_profiles_text` are the current contents
/// of the pak's Engine.ini and DeviceProfiles entries.
pub fn apply_pak_tweaks(
    info: &PakIniInfo,
    edits: &[PakTweakEdit],
    target: Option<PakIniTarget>,
    engine_text: &str,
    device_profiles_text: &str,
) -> (r: Result<PakTweakOutcome, String>)
    ensures
        match resolved_target(*info, target) {
            None => r matches Err(m) && m@ == no_ini_message(),
            Some(t) => if spec_entry(*info, t) is None {
                r matches Err(m) && m@ == missing_entry_message()
            } else {
                r matches Ok(o) && outcome_matches(
                    o,
                    tweak_files(
                        *info,
                        edit_models(edits@),
                        t,
                        FilesModel {
                            engine: engine_text@,
                            dp: device_profiles_text@,
                            engine_written: false,
                            dp_written: false,
                        },
                    ),
                    applied_message(edits@.len(), info.pak_name@),
                )
            },
        },
{
    let resolved = resolve_target(info, target)?;
    let sibling = sibling_of(resolved);
    if entry_for(info, resolved).is_none() {
        return Err(String::from_str("Target INI entry missing despite target resolution"));
    }
    let ghost es = edit_models(edits@);
    let ghost st0 = FilesModel {
        engine: engine_text@,
        dp: device_profiles_text@,
        engine_written: false,
        dp_written: false,
    };
    // Engine-section settings (e.g. ApplicationScale, MaxClientRate) are not
    // console variables and can only live in Engine.ini.
    let (engine_section_edits, plain) = split_edits(edits);
    let mut engine = String::from_str(engine_text);
    let mut dp = String::from_str(device_profiles_text);
    let mut engine_written = false;
    let mut dp_written = false;

    let target_text = match resolved {
        PakIniTarget::Engine => engine.clone(),
        PakIniTarget::DeviceProfiles => dp.clone(),
    };
    match apply_edits_to_file(target_text.as_str(), ini_type_for(resolved), plain.as_slice()) {
        Some(x) => match resolved {
            PakIniTarget::Engine => {
                engine = x;
                engine_written = true;
            },
            PakIniTarget::DeviceProfiles => {
                dp = x;
                dp_written = true;
            },
        },
        None => {},
    }
    let ghost st1 = FilesModel { engine: engine@, dp: dp@, engine_written, dp_written };
    assert(st1 == write_file(
        st0,
        resolved,
        file_edit_result(text_of(st0, resolved), spec_ini_type(resolved), plain_edits(es)),
    ));
    if engine_section_edits.len() > 0 && info.engine_ini_entry.is_some() {
        match apply_edits_to_file(engine.as_str(), IniType::Engine, engine_section_edits.as_slice()) {
            Some(x) => {
                engine = x;
                engine_written = true;
            },
            None => {},
        }
    }
    let ghost st2 = FilesModel { engine: engine@, dp: dp@, engine_written, dp_written };
    // Keep an existing copy of each edited CVar consistent in the sibling file.
    if entry_for(info, sibling).is_some() {
        let sib_text = match sibling {
            PakIniTarget::Engine => engine.clone(),
            PakIniTarget::DeviceProfiles => dp.clone(),
        };
        match sync_existing_keys(
            sib_text.as_str(),
            ini_type_for(sibling),
            source_label(sibling),
            plain.as_slice(),
        ) {
            Some(x) => match sibling {
                PakIniTarget::Engine => {
                    engine = x;
                    engine_written = true;
                },
                PakIniTarget::DeviceProfiles => {
                    dp = x;
                    dp_written = true;
                },
            },
            None => {},
        }
    }
    let digits = decimal_digits(edits.len());
    let mut message = String::from_str("Applied ");
    message.append(crate::text::string_of_range(digits.as_slice(), 0, digits.len()).as_str());
    if edits.len() == 1 {
        message.append(" change");
    } else {
        message.append(" changes");
    }
    message.append(" to ");
    message.append(info.pak_name.as_str());
    proof {
        assert(digits@.subrange(0, digits@.len() as int) =~= digits@);
        assert(message@ =~= applied_message(edits@.len(), info.pak_name@));
    }
    Ok(
        PakTweakOutcome {
            engine_ini: if engine_written {
                Some(engine)
            } else {
                None
            },
            device_profiles: if dp_written {
                Some(dp)
            } else {
                None
            },
            message,
        },
    )
}

/// Keys the sibling does not hold are never written into it: when none of the edits
/// names a key the sibling file holds, the sync step leaves the sibling untouched.
pub proof fn law_sync_skips_unshared(
    content: Seq<char>,
    ini_type: IniType,
    label: Seq<char>,
    es: Seq<EditModel>,
)
    requires
        forall|i: int|
            0 <= i < es.len() ==> !key_present(console_vars(content, label), lower(#[trigger] es[i].key)),
    ensures
        sync_result(content, ini_type, label, es) is None,
{
    let vars = console_vars(content, label);
    let pred = |m: EditModel| key_present(vars, lower(m.key));
    let f = es.filter(pred);
    if f.len() > 0 {
        es.lemma_filter_pred(pred, 0);
        assert(f.contains(f[0]));
        es.lemma_filter_contains_rev(pred, f[0]);
        let k = choose|k: int| 0 <= k < es.len() && es[k] == f[0];
        assert(!key_present(vars, lower(es[k].key)));
    }
}

/// `Saved {n} file(s) to {pak}`, reported after raw INI contents are written back.
pub fn saved_files_message(file_count: usize, pak_name: &str) -> (r: String)
    ensures
        r@ == "Saved "@ + decimal(file_count as nat) + " file(s) to "@ + pak_name@,
{
    let digits = decimal_digits(file_count);
    let mut m = String::from_str("Saved ");
    m.append(string_of_range(digits.as_slice(), 0, digits.len()).as_str());
    m.append(" file(s) to ");
    m.append(pak_name);
    proof {
        assert(digits@.subrange(0, digits@.len() as int) =~= digits@);
    }
    m
}

/// Target resolution succeeds exactly when the pak has a DeviceProfiles file or an
/// Engine.ini file; it always names a file the pak has; it keeps the requested target
/// whenever the pak has that file; and when the requested file is absent (or none is
/// requested) it falls back to DeviceProfiles when the pak has it, else to Engine.ini.
pub proof fn law_resolved_target_falls_back(info: PakIniInfo, target: Option<PakIniTarget>)
    ensures
        resolved_target(info, target) is Some <==> (info.has_device_profiles || info.has_engine_ini),
        resolved_target(info, target) matches Some(t) ==> (t == PakIniTarget::Engine
            ==> info.has_engine_ini) && (t == PakIniTarget::DeviceProfiles ==> info.has_device_profiles),
        target == Some(PakIniTarget::Engine) && info.has_engine_ini ==> resolved_target(info, target)
            == Some(PakIniTarget::Engine),
        target == Some(PakIniTarget::DeviceProfiles) && info.has_device_profiles ==> resolved_target(
            info,
            target,
        ) == Some(PakIniTarget::DeviceProfiles),
        !(target == Some(PakIniTarget::Engine) && info.has_engine_ini) && !(target == Some(
            PakIniTarget::DeviceProfiles,
        ) && info.has_device_profiles) ==> resolved_target(info, target) == (if info.has_device_profiles {
            Some(PakIniTarget::DeviceProfiles)
        } else if info.has_engine_ini {
            Some(PakIniTarget::Engine)
        } else {
            None
        }),
{
}

} // verus!
