use rivals_toolkit::bypass::{
    bypass_install_kind, bypass_paths, install_success_message, is_signature_bypass_installed,
    plan_bypass_install, removal_message, BypassInstall, BypassKind,
};
use rivals_toolkit::settings::{default_true, stored_game_path, Settings};

#[test]
fn bypass_files_named() {
    let p = bypass_paths();
    assert_eq!(p.dsound, vec!["dsound.dll".to_string()]);
    assert_eq!(
        p.asi,
        vec!["plugins".to_string(), "MarvelRivalsUTOCSignatureBypass.asi".to_string()]
    );
    assert_eq!(p.version_dll, vec!["version.dll".to_string()]);
}

#[test]
fn bypass_kind_detection() {
    assert_eq!(bypass_install_kind(true, false, false), BypassKind::Modern);
    assert_eq!(bypass_install_kind(true, true, true), BypassKind::Modern);
    assert_eq!(bypass_install_kind(false, true, true), BypassKind::Legacy);
    assert_eq!(bypass_install_kind(false, true, false), BypassKind::NotInstalled);
    assert_eq!(bypass_install_kind(false, false, true), BypassKind::NotInstalled);
    assert!(is_signature_bypass_installed(BypassKind::Legacy));
    assert!(is_signature_bypass_installed(BypassKind::Modern));
    assert!(!is_signature_bypass_installed(BypassKind::NotInstalled));
}

#[test]
fn bypass_install_plans() {
    let dll = b"MZ\x90\x00".to_vec();
    assert_eq!(
        plan_bypass_install(b"placeholder", true, "C:/Game/Bin", BypassKind::NotInstalled),
        Err("Bundled version.dll is a placeholder. Build oZanderr/rivals-sigbypass (proxy branch) and copy the produced version.dll into src-tauri/resources/bypass/, then rebuild the app.".to_string())
    );
    assert_eq!(
        plan_bypass_install(&dll, false, "C:/Game/Bin", BypassKind::NotInstalled),
        Err("Binaries directory not found: C:/Game/Bin\nMake sure the game root path is correct.".to_string())
    );
    assert_eq!(
        plan_bypass_install(&dll, true, "C:/Game/Bin", BypassKind::Legacy),
        Err("Legacy bypass is installed. Remove it first to install the new version.dll proxy.".to_string())
    );
    assert_eq!(
        plan_bypass_install(&dll, true, "C:/Game/Bin", BypassKind::Modern),
        Ok(BypassInstall::AlreadyInstalled)
    );
    assert_eq!(
        plan_bypass_install(&dll, true, "C:/Game/Bin", BypassKind::NotInstalled),
        Ok(BypassInstall::WriteVersionDll)
    );
    assert!(plan_bypass_install(b"M", true, "x", BypassKind::Modern).is_err());
}

#[test]
fn bypass_messages() {
    assert_eq!(
        install_success_message(BypassInstall::AlreadyInstalled),
        "Signature bypass already installed (version.dll)."
    );
    assert_eq!(install_success_message(BypassInstall::WriteVersionDll), "Bypass installed successfully!");
    assert_eq!(removal_message(0), "Bypass files were not present!");
    assert_eq!(removal_message(2), "Removed 2 bypass file(s)");
    assert_eq!(removal_message(10), "Removed 10 bypass file(s)");
}

#[test]
fn settings_defaults() {
    assert!(default_true());
    let s = Settings::default();
    assert!(s.auto_check_updates);
    assert!(s.recursive_mod_scan);
    assert!(s.auto_sync_character_data);
    assert!(!s.show_hero_icons);
    assert!(s.game_path.is_none());
    assert!(s.mod_profiles.is_empty());
}

#[test]
fn empty_game_path_is_cleared() {
    assert_eq!(stored_game_path(Some(String::new())), None);
    assert_eq!(stored_game_path(None), None);
    assert_eq!(stored_game_path(Some("D:/Games/Rivals".into())), Some("D:/Games/Rivals".to_string()));
    let mut s = Settings::default();
    s.set_game_path(Some("E:/x".into()));
    assert_eq!(s.game_path.as_deref(), Some("E:/x"));
    s.set_game_path(Some(String::new()));
    assert_eq!(s.game_path, None);
    assert!(s.recursive_mod_scan);
}
