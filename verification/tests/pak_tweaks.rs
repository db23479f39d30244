use rivals_toolkit::apply::{apply_pak_tweaks, entry_for, ini_type_for, resolve_target, sibling_of, source_label};
use rivals_toolkit::concurrency::pool_thread_count;
use rivals_toolkit::cvars::IniType;
use rivals_toolkit::pak_ini::{PakIniInfo, PakIniListing, PakIniTarget, PakTweakEdit, PakTweakState};
use rivals_toolkit::scan::{
    has_pak_extension, pak_tweak_layers, read_pak_tweaks, scan_mod_paks, scan_mod_paks_any_ini,
    synthetic_tweak_text,
};

fn info(name: &str, engine: bool, dp: bool) -> PakIniInfo {
    PakIniInfo {
        pak_name: name.to_string(),
        has_engine_ini: engine,
        has_device_profiles: dp,
        engine_ini_entry: if engine { Some("Marvel/Config/DefaultEngine.ini".to_string()) } else { None },
        device_profiles_entry: if dp {
            Some("Marvel/Config/DefaultDeviceProfiles.ini".to_string())
        } else {
            None
        },
        base_engine_entry: None,
        windows_engine_entry: None,
    }
}

fn edit(key: &str, value: Option<&str>) -> PakTweakEdit {
    PakTweakEdit { key: key.to_string(), value: value.map(str::to_string), engine_section: None }
}

fn triples(v: &[PakTweakState]) -> Vec<(String, String, String)> {
    v.iter().map(|s| (s.key.clone(), s.value.clone(), s.source.clone())).collect()
}

#[test]
fn target_resolution_prefers_requested_then_device_profiles() {
    let both = info("a.pak", true, true);
    assert_eq!(resolve_target(&both, Some(PakIniTarget::Engine)), Ok(PakIniTarget::Engine));
    assert_eq!(resolve_target(&both, None), Ok(PakIniTarget::DeviceProfiles));
    let engine_only = info("a.pak", true, false);
    assert_eq!(
        resolve_target(&engine_only, Some(PakIniTarget::DeviceProfiles)),
        Ok(PakIniTarget::Engine)
    );
    let neither = info("a.pak", false, false);
    assert_eq!(
        resolve_target(&neither, None),
        Err("No INI config files found in this pak.".to_string())
    );
}

#[test]
fn target_helpers() {
    assert_eq!(sibling_of(PakIniTarget::Engine), PakIniTarget::DeviceProfiles);
    assert_eq!(sibling_of(PakIniTarget::DeviceProfiles), PakIniTarget::Engine);
    assert_eq!(ini_type_for(PakIniTarget::Engine), IniType::Engine);
    assert_eq!(ini_type_for(PakIniTarget::DeviceProfiles), IniType::DeviceProfiles);
    assert_eq!(source_label(PakIniTarget::Engine), "DefaultEngine.ini");
    assert_eq!(source_label(PakIniTarget::DeviceProfiles), "DefaultDeviceProfiles.ini");
    let i = info("a.pak", true, false);
    assert_eq!(entry_for(&i, PakIniTarget::Engine).map(String::as_str), Some("Marvel/Config/DefaultEngine.ini"));
    assert_eq!(entry_for(&i, PakIniTarget::DeviceProfiles), None);
}

#[test]
fn apply_writes_target_and_syncs_sibling() {
    let out = apply_pak_tweaks(
        &info("Mod.pak", true, true),
        &[edit("r.Foo", Some("1"))],
        Some(PakIniTarget::Engine),
        "[ConsoleVariables]\nr.Foo=0\n",
        "[Windows DeviceProfile]\n+CVars=r.Foo=0\n",
    )
    .unwrap();
    assert_eq!(out.engine_ini.as_deref(), Some("[ConsoleVariables]\r\nr.Foo=1\r\n"));
    assert_eq!(out.device_profiles.as_deref(), Some("[Windows DeviceProfile]\r\n+CVars=r.Foo=1\r\n"));
    assert_eq!(out.message, "Applied 1 change to Mod.pak");
}

#[test]
fn apply_leaves_sibling_without_key_untouched() {
    let out = apply_pak_tweaks(
        &info("Mod.pak", true, true),
        &[edit("r.Foo", Some("1")), edit("r.Bar", None)],
        None,
        "[ConsoleVariables]\nr.Other=0\n",
        "[Windows DeviceProfile]\n",
    )
    .unwrap();
    assert_eq!(out.device_profiles.as_deref(), Some("[Windows DeviceProfile]\r\n+CVars=r.Foo=1\r\n"));
    assert_eq!(out.engine_ini, None);
    assert_eq!(out.message, "Applied 2 changes to Mod.pak");
}

#[test]
fn apply_without_ini_files_fails() {
    let r = apply_pak_tweaks(&info("Mod.pak", false, false), &[edit("r.Foo", Some("1"))], None, "", "");
    assert_eq!(r.err(), Some("No INI config files found in this pak.".to_string()));
}

#[test]
fn apply_with_missing_entry_fails() {
    let mut i = info("Mod.pak", true, false);
    i.engine_ini_entry = None;
    let r = apply_pak_tweaks(&i, &[edit("r.Foo", Some("1"))], None, "", "");
    assert_eq!(r.err(), Some("Target INI entry missing despite target resolution".to_string()));
}

#[test]
fn layers_listed_lowest_priority_first() {
    assert_eq!(pak_tweak_layers(None), Err("No INI config files found in this pak.".to_string()));
    let mut i = info("a.pak", true, true);
    i.base_engine_entry = Some("Base.ini".to_string());
    i.windows_engine_entry = Some("Win.ini".to_string());
    let layers = pak_tweak_layers(Some(&i)).unwrap();
    let expect: Vec<(String, String)> = vec![
        ("Base.ini".into(), "BaseEngine.ini".into()),
        ("Marvel/Config/DefaultEngine.ini".into(), "DefaultEngine.ini".into()),
        ("Win.ini".into(), "WindowsEngine.ini".into()),
        ("Marvel/Config/DefaultDeviceProfiles.ini".into(), "DefaultDeviceProfiles.ini".into()),
    ];
    assert_eq!(layers, expect);
}

#[test]
fn higher_layer_overrides_case_insensitively() {
    let layers = vec![
        ("[ConsoleVariables]\nr.A=1\nr.B=2\n".to_string(), "BaseEngine.ini".to_string()),
        ("[Windows DeviceProfile]\n+CVars=R.a=9\n".to_string(), "DefaultDeviceProfiles.ini".to_string()),
    ];
    let merged = read_pak_tweaks(&layers);
    assert_eq!(
        triples(&merged),
        vec![
            ("R.a".to_string(), "9".to_string(), "DefaultDeviceProfiles.ini".to_string()),
            ("r.B".to_string(), "2".to_string(), "BaseEngine.ini".to_string()),
        ]
    );
}

#[test]
fn duplicate_key_within_layer_keeps_last() {
    let layers = vec![("[S]\nk=1\nK=2\n".to_string(), "DefaultEngine.ini".to_string())];
    assert_eq!(
        triples(&read_pak_tweaks(&layers)),
        vec![("K".to_string(), "2".to_string(), "DefaultEngine.ini".to_string())]
    );
}

#[test]
fn paks_listed_by_name() {
    let found = vec![info("b.pak", true, false), info("A.pak", true, false), info("a.pak", false, true)];
    let names: Vec<String> = scan_mod_paks(&found).into_iter().map(|i| i.pak_name).collect();
    assert_eq!(names, vec!["A.pak", "a.pak", "b.pak"]);
}

#[test]
fn ini_listings_listed_by_name_keeping_entries() {
    let listing = |name: &str, entries: &[&str]| PakIniListing {
        pak_name: name.to_string(),
        ini_entries: entries.iter().map(|e| e.to_string()).collect(),
    };
    let found = vec![
        listing("z.pak", &["Marvel/Config/DefaultGame.ini"]),
        listing("m.pak", &["a.ini", "b.ini"]),
        listing("m.pak", &[]),
    ];
    let out = scan_mod_paks_any_ini(&found);
    let got: Vec<(String, Vec<String>)> = out.into_iter().map(|l| (l.pak_name, l.ini_entries)).collect();
    assert_eq!(
        got,
        vec![
            ("m.pak".to_string(), vec!["a.ini".to_string(), "b.ini".to_string()]),
            ("m.pak".to_string(), Vec::new()),
            ("z.pak".to_string(), vec!["Marvel/Config/DefaultGame.ini".to_string()]),
        ]
    );
}

#[test]
fn pak_extension_check() {
    assert!(has_pak_extension("x.pak"));
    assert!(has_pak_extension("my.mod_P.pak"));
    assert!(!has_pak_extension(".pak"));
    assert!(!has_pak_extension("x.PAK"));
    assert!(!has_pak_extension("x.pak.disabled"));
    assert!(!has_pak_extension("x.utoc"));
}

#[test]
fn synthetic_text_lists_assignments() {
    let merged = vec![
        PakTweakState { key: "r.A".into(), value: "1".into(), source: "x".into() },
        PakTweakState { key: "r.B".into(), value: "".into(), source: "y".into() },
    ];
    assert_eq!(synthetic_tweak_text(&merged), "r.A=1\nr.B=");
    assert_eq!(synthetic_tweak_text(&Vec::new()), "");
}

#[test]
fn saved_message_counts_files() {
    assert_eq!(rivals_toolkit::apply::saved_files_message(3, "Mod.pak"), "Saved 3 file(s) to Mod.pak");
    assert_eq!(rivals_toolkit::apply::saved_files_message(0, "x"), "Saved 0 file(s) to x");
}

#[test]
fn pool_uses_half_the_cores() {
    assert_eq!(pool_thread_count(Some(8)), 4);
    assert_eq!(pool_thread_count(Some(3)), 1);
    assert_eq!(pool_thread_count(Some(1)), 1);
    assert_eq!(pool_thread_count(Some(0)), 1);
    assert_eq!(pool_thread_count(None), 2);
}

fn layers(base: &str, engine: &str, windows: &str, dp: &str) -> Vec<(String, String)> {
    vec![
        (base.to_string(), "BaseEngine.ini".to_string()),
        (engine.to_string(), "DefaultEngine.ini".to_string()),
        (windows.to_string(), "WindowsEngine.ini".to_string()),
        (dp.to_string(), "DefaultDeviceProfiles.ini".to_string()),
    ]
}

fn value_of(merged: &[PakTweakState], key: &str) -> Option<String> {
    merged
        .iter()
        .find(|s| s.key.eq_ignore_ascii_case(key))
        .map(|s| s.value.clone())
}

#[test]
fn applied_value_is_read_back_through_layers() {
    let engine = "[ConsoleVariables]\nr.Foo=0\n";
    let dp = "[Windows DeviceProfile]\n";
    let base = "[ConsoleVariables]\nr.Foo=5\n";
    for target in [PakIniTarget::Engine, PakIniTarget::DeviceProfiles] {
        let out = apply_pak_tweaks(&info("Mod.pak", true, true), &[edit("r.Foo", Some("1"))], Some(target), engine, dp)
            .unwrap();
        let engine_after = out.engine_ini.unwrap_or_else(|| engine.to_string());
        let dp_after = out.device_profiles.unwrap_or_else(|| dp.to_string());
        let merged = read_pak_tweaks(&layers(base, &engine_after, "", &dp_after));
        assert_eq!(value_of(&merged, "r.foo").as_deref(), Some("1"), "target {target:?}");
    }
}

#[test]
fn windows_engine_layer_still_overrides_default_engine() {
    let out = apply_pak_tweaks(
        &info("Mod.pak", true, true),
        &[edit("r.Foo", Some("1"))],
        Some(PakIniTarget::Engine),
        "[ConsoleVariables]\nr.Foo=0\n",
        "[Windows DeviceProfile]\n",
    )
    .unwrap();
    let merged = read_pak_tweaks(&layers("", &out.engine_ini.unwrap(), "[S]\nr.Foo=7\n", "[Windows DeviceProfile]\n"));
    assert_eq!(value_of(&merged, "r.Foo").as_deref(), Some("7"));
}

#[test]
fn batch_of_edits_reads_back_from_both_files_and_the_merge() {
    let engine = "[ConsoleVariables]\nr.Foo=0\nr.Gone=1\n";
    let dp = "[Windows DeviceProfile]\n+CVars=r.Gone=1\n+CVars=r.Keep=3\n";
    let edits = [
        edit("r.Foo", Some("1")),
        edit("R.Bar", Some("2")),
        edit("r.gone", None),
        PakTweakEdit {
            key: "bSmoothFrameRate".to_string(),
            value: Some("False".to_string()),
            engine_section: Some("/Script/Engine.Engine".to_string()),
        },
    ];
    for target in [PakIniTarget::Engine, PakIniTarget::DeviceProfiles] {
        let out = apply_pak_tweaks(&info("Mod.pak", true, true), &edits, Some(target), engine, dp).unwrap();
        let engine_after = out.engine_ini.unwrap_or_else(|| engine.to_string());
        let dp_after = out.device_profiles.unwrap_or_else(|| dp.to_string());
        let eng_vars = rivals_toolkit::cvars::parse_console_vars(&engine_after, "DefaultEngine.ini");
        let dp_vars = rivals_toolkit::cvars::parse_console_vars(&dp_after, "DefaultDeviceProfiles.ini");
        assert!(eng_vars.iter().all(|v| !v.key.eq_ignore_ascii_case("r.gone")), "{target:?}:\n{engine_after}");
        assert!(dp_vars.iter().all(|v| !v.key.eq_ignore_ascii_case("r.gone")), "{target:?}:\n{dp_after}");
        assert!(eng_vars.iter().any(|v| v.key == "bSmoothFrameRate" && v.value == "False"), "{engine_after}");
        let merged = read_pak_tweaks(&layers("", &engine_after, "", &dp_after));
        assert_eq!(value_of(&merged, "r.foo").as_deref(), Some("1"), "{target:?}");
        assert_eq!(value_of(&merged, "r.bar").as_deref(), Some("2"), "{target:?}");
        assert_eq!(value_of(&merged, "r.keep").as_deref(), Some("3"), "{target:?}");
        assert_eq!(value_of(&merged, "r.gone"), None, "{target:?}");
    }
}

#[test]
fn removed_key_falls_back_to_base_and_windows_layers() {
    let engine = "[ConsoleVariables]\nr.Foo=0\n";
    let dp = "[Windows DeviceProfile]\n+CVars=r.Foo=0\n";
    for target in [PakIniTarget::Engine, PakIniTarget::DeviceProfiles] {
        let out = apply_pak_tweaks(&info("Mod.pak", true, true), &[edit("R.FOO", None)], Some(target), engine, dp)
            .unwrap();
        let engine_after = out.engine_ini.unwrap_or_else(|| engine.to_string());
        let dp_after = out.device_profiles.unwrap_or_else(|| dp.to_string());
        let source_of = |merged: &[PakTweakState]| {
            merged.iter().find(|s| s.key.eq_ignore_ascii_case("r.foo")).map(|s| (s.value.clone(), s.source.clone()))
        };
        let none = read_pak_tweaks(&layers("", &engine_after, "", &dp_after));
        assert_eq!(source_of(&none), None, "{target:?}");
        let base = read_pak_tweaks(&layers("[S]\nr.Foo=5\n", &engine_after, "", &dp_after));
        assert_eq!(source_of(&base), Some(("5".to_string(), "BaseEngine.ini".to_string())));
        let both = read_pak_tweaks(&layers("[S]\nr.Foo=5\n", &engine_after, "[S]\nr.foo=7\n", &dp_after));
        assert_eq!(source_of(&both), Some(("7".to_string(), "WindowsEngine.ini".to_string())));
    }
}
