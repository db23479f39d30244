use std::collections::HashSet;

use rivals_toolkit::cvars::{apply_edits_to_ini, parse_console_vars, IniType};
use rivals_toolkit::pak_ini::{PakIniTarget, PakTweakEdit};

/// Applies edits to an Engine/DeviceProfiles pair the way a pak apply does: plain
/// edits to the target, section edits to Engine, and existing sibling copies synced.
fn apply_to_pair(
    engine: &str,
    dp: &str,
    edits: &[PakTweakEdit],
    target: PakIniTarget,
) -> (String, String) {
    let (engine_section_edits, plain_edits): (Vec<_>, Vec<_>) = edits
        .iter()
        .cloned()
        .partition(|e| e.engine_section.is_some());

    let mut engine_after = engine.to_string();
    let mut dp_after = dp.to_string();

    match target {
        PakIniTarget::Engine => {
            engine_after = apply_edits_to_ini(&engine_after, &plain_edits, IniType::Engine);
        }
        PakIniTarget::DeviceProfiles => {
            dp_after = apply_edits_to_ini(&dp_after, &plain_edits, IniType::DeviceProfiles);
        }
    }

    if !engine_section_edits.is_empty() {
        engine_after = apply_edits_to_ini(&engine_after, &engine_section_edits, IniType::Engine);
    }

    let sibling_is_engine = matches!(target, PakIniTarget::DeviceProfiles);
    let (sibling_content, sibling_label, sibling_type) = if sibling_is_engine {
        (&engine_after, "DefaultEngine.ini", IniType::Engine)
    } else {
        (&dp_after, "DefaultDeviceProfiles.ini", IniType::DeviceProfiles)
    };
    let present: HashSet<String> = parse_console_vars(sibling_content, sibling_label)
        .into_iter()
        .map(|s| s.key.to_ascii_lowercase())
        .collect();
    let filtered: Vec<PakTweakEdit> = plain_edits
        .iter()
        .filter(|e| present.contains(&e.key.to_ascii_lowercase()))
        .cloned()
        .collect();
    if sibling_is_engine {
        engine_after = apply_edits_to_ini(&engine_after, &filtered, sibling_type);
    } else {
        dp_after = apply_edits_to_ini(&dp_after, &filtered, sibling_type);
    }

    (engine_after, dp_after)
}

fn cvar_edit(key: &str, value: Option<&str>) -> PakTweakEdit {
    PakTweakEdit {
        key: key.into(),
        value: value.map(str::to_string),
        engine_section: None,
    }
}

#[test]
fn target_engine_syncs_existing_key_in_device_profiles() {
    let engine = "[ConsoleVariables]\nr.Foo=0\n";
    let dp = "[Windows DeviceProfile]\n+CVars=r.Foo=0\n";
    let (engine_after, dp_after) = apply_to_pair(
        engine,
        dp,
        &[cvar_edit("r.Foo", Some("1"))],
        PakIniTarget::Engine,
    );
    assert!(engine_after.contains("r.Foo=1"), "engine target:\n{engine_after}");
    assert!(
        dp_after.contains("+CVars=r.Foo=1"),
        "sibling DeviceProfiles copy should update so it doesn't shadow:\n{dp_after}"
    );
}

#[test]
fn target_device_profiles_syncs_existing_key_in_engine() {
    let engine = "[ConsoleVariables]\nr.Foo=0\n";
    let dp = "[Windows DeviceProfile]\n+CVars=r.Foo=0\n";
    let (engine_after, dp_after) = apply_to_pair(
        engine,
        dp,
        &[cvar_edit("r.Foo", Some("1"))],
        PakIniTarget::DeviceProfiles,
    );
    assert!(dp_after.contains("+CVars=r.Foo=1"), "dp target:\n{dp_after}");
    assert!(
        engine_after.contains("r.Foo=1"),
        "sibling Engine copy should stay consistent:\n{engine_after}"
    );
}

#[test]
fn removal_clears_key_from_both_files() {
    let engine = "[ConsoleVariables]\nr.Foo=0\n";
    let dp = "[Windows DeviceProfile]\n+CVars=r.Foo=0\n";
    let (engine_after, dp_after) = apply_to_pair(
        engine,
        dp,
        &[cvar_edit("r.Foo", None)],
        PakIniTarget::DeviceProfiles,
    );
    assert!(
        !engine_after.to_ascii_lowercase().contains("r.foo"),
        "engine copy should be removed for a true reset:\n{engine_after}"
    );
    assert!(
        !dp_after.to_ascii_lowercase().contains("r.foo"),
        "dp copy should be removed:\n{dp_after}"
    );
}

#[test]
fn sibling_without_key_is_not_injected() {
    let engine = "[ConsoleVariables]\n";
    let dp = "[Windows DeviceProfile]\n";
    let (engine_after, dp_after) = apply_to_pair(
        engine,
        dp,
        &[cvar_edit("r.Foo", Some("1"))],
        PakIniTarget::DeviceProfiles,
    );
    assert!(dp_after.contains("+CVars=r.Foo=1"), "target dp gets the key:\n{dp_after}");
    assert!(
        !engine_after.to_ascii_lowercase().contains("r.foo"),
        "engine never had the key, so it must not be injected:\n{engine_after}"
    );
}

#[test]
fn device_profiles_section_created_when_missing() {
    let dp = "; device profiles file with no windows section\n";
    let out = apply_edits_to_ini(dp, &[cvar_edit("r.Foo", Some("1"))], IniType::DeviceProfiles);
    assert!(out.contains("[Windows DeviceProfile]"), "missing section should be created:\n{out}");
    assert!(out.contains("+CVars=r.Foo=1"), "cvar should be inserted:\n{out}");
}

/// The edits that switch the custom-depth fix on: two lines removed, one value replaced.
#[test]
fn custom_depth_fix_edits_read_back_from_both_targets() {
    let engine = "[ConsoleVariables]\nr.PostProcessing.DisableMaterials=1\nr.CustomDepth=0\nr.LightTile.Enable=0\n";
    let dp = "[Windows DeviceProfile]\n";
    let edits = [
        cvar_edit("r.PostProcessing.DisableMaterials", None),
        cvar_edit("r.CustomDepth", Some("3")),
        cvar_edit("r.LightTile.Enable", None),
    ];
    for target in [PakIniTarget::DeviceProfiles, PakIniTarget::Engine] {
        let (engine_after, dp_after) = apply_to_pair(engine, dp, &edits, target);
        let mut merged: Vec<(String, String)> = Vec::new();
        for (text, label) in [(&engine_after, "DefaultEngine.ini"), (&dp_after, "DefaultDeviceProfiles.ini")] {
            for v in parse_console_vars(text, label) {
                merged.retain(|(k, _)| !k.eq_ignore_ascii_case(&v.key));
                merged.push((v.key, v.value));
            }
        }
        assert_eq!(merged, vec![("r.CustomDepth".to_string(), "3".to_string())], "{target:?}");
    }
}
