use rivals_toolkit::cvars::{
    apply_device_profiles_edits, apply_edits_to_ini, apply_engine_edits, find_section_end,
    find_section_insert_point, format_cvar_line, is_windows_device_profile_header,
    parse_console_vars, parse_cvar_line, remove_cvar_key, remove_cvar_key_in_section, IniType,
};
use rivals_toolkit::pak_ini::PakTweakEdit;

fn lines(v: &[&str]) -> Vec<String> {
    v.iter().map(|s| s.to_string()).collect()
}

fn edit(key: &str, value: Option<&str>, section: Option<&str>) -> PakTweakEdit {
    PakTweakEdit {
        key: key.to_string(),
        value: value.map(str::to_string),
        engine_section: section.map(str::to_string),
    }
}

fn kv(v: &[rivals_toolkit::pak_ini::PakTweakState]) -> Vec<(String, String)> {
    v.iter().map(|s| (s.key.clone(), s.value.clone())).collect()
}

#[test]
fn cvar_line_with_prefix_and_spaces() {
    assert_eq!(
        parse_cvar_line("+CVars=r.Foo = 1"),
        Some(("r.Foo".to_string(), "1".to_string()))
    );
    assert_eq!(
        parse_cvar_line("+cvars=a=b=c"),
        Some(("a".to_string(), "b=c".to_string()))
    );
}

#[test]
fn cvar_line_rejects_missing_key_or_equals() {
    assert_eq!(parse_cvar_line("  = x"), None);
    assert_eq!(parse_cvar_line("noequals"), None);
    assert_eq!(parse_cvar_line("+CVars=novalue"), None);
}

#[test]
fn cvar_line_formats_with_and_without_prefix() {
    assert_eq!(format_cvar_line("r.X", "2", true), "+CVars=r.X=2");
    assert_eq!(format_cvar_line("r.X", "2", false), "r.X=2");
}

#[test]
fn device_profile_header_ignores_case_and_space() {
    assert!(is_windows_device_profile_header("  [windows deviceprofile] "));
    assert!(!is_windows_device_profile_header("[Windows DeviceProfile2]"));
    assert!(!is_windows_device_profile_header("[Android DeviceProfile]"));
}

#[test]
fn section_end_and_insert_point() {
    let l = lines(&["[A]", "x=1", "", "", "[B]", "y=2"]);
    assert_eq!(find_section_end(&l, 0), 4);
    assert_eq!(find_section_insert_point(&l, 0), 2);
    assert_eq!(find_section_end(&l, 4), 6);
    assert_eq!(find_section_insert_point(&lines(&["[A]", ""]), 0), 1);
}

#[test]
fn remove_key_everywhere_keeps_comments() {
    let mut l = lines(&["[S]", "A=1", ";A=2", "b=3", "a=4"]);
    remove_cvar_key(&mut l, "a");
    assert_eq!(l, lines(&["[S]", ";A=2", "b=3"]));
}

#[test]
fn remove_key_only_inside_section() {
    let mut l = lines(&["[S]", "a=1", "", "+CVars=A=5", "[T]", "a=2"]);
    remove_cvar_key_in_section(&mut l, 0, "a");
    assert_eq!(l, lines(&["[S]", "", "[T]", "a=2"]));
}

#[test]
fn engine_parse_skips_lines_before_first_section() {
    let vars = parse_console_vars("x=1\n[S]\nK = V\n;c=1\n\n[T]\n+CVars=m=n\n", "DefaultEngine.ini");
    assert_eq!(
        kv(&vars),
        vec![("K".to_string(), "V".to_string()), ("m".to_string(), "n".to_string())]
    );
    assert!(vars.iter().all(|v| v.source == "DefaultEngine.ini"));
}

#[test]
fn device_profiles_parse_reads_only_windows_section() {
    let vars = parse_console_vars(
        "[Windows DeviceProfile]\n+CVars=a=1\n[Other]\nb=2\n[windows deviceprofile]\nc=3\n",
        "DefaultDeviceProfiles.ini",
    );
    assert_eq!(
        kv(&vars),
        vec![("a".to_string(), "1".to_string()), ("c".to_string(), "3".to_string())]
    );
}

#[test]
fn engine_edit_updates_every_copy() {
    let mut l = lines(&["[A]", "r.K=0", "[B]", "R.k=5", ";r.K=9"]);
    apply_engine_edits(&mut l, &[edit("r.K", Some("1"), None)]);
    assert_eq!(l, lines(&["[A]", "r.K=1", "[B]", "r.K=1", ";r.K=9"]));
}

#[test]
fn engine_edit_inserts_into_console_variables() {
    let mut l = lines(&["[ConsoleVariables]", "r.A=0", "", "[Other]"]);
    apply_engine_edits(&mut l, &[edit("r.New", Some("5"), None)]);
    assert_eq!(l, lines(&["[ConsoleVariables]", "r.A=0", "r.New=5", "", "[Other]"]));
}

#[test]
fn engine_edit_creates_named_section() {
    let mut l = lines(&["[ConsoleVariables]", "r.A=0"]);
    apply_engine_edits(
        &mut l,
        &[edit("ApplicationScale", Some("1.0"), Some("/Script/Engine.UserInterfaceSettings"))],
    );
    assert_eq!(
        l,
        lines(&[
            "[ConsoleVariables]",
            "r.A=0",
            "",
            "[/Script/Engine.UserInterfaceSettings]",
            "ApplicationScale=1.0"
        ])
    );
}

#[test]
fn device_profiles_edit_keeps_prefix_style() {
    let mut l = lines(&["[Windows DeviceProfile]", "+CVars=r.A=0", "r.B=0", "[Next]", "r.A=7"]);
    apply_device_profiles_edits(
        &mut l,
        &[edit("r.A", Some("1"), None), edit("r.B", Some("2"), None)],
    );
    assert_eq!(
        l,
        lines(&["[Windows DeviceProfile]", "+CVars=r.A=1", "r.B=2", "[Next]", "r.A=7"])
    );
}

#[test]
fn device_profiles_pure_removal_creates_nothing() {
    let mut l = lines(&["; nothing here"]);
    apply_device_profiles_edits(&mut l, &[edit("r.A", None, None)]);
    assert_eq!(l, lines(&["; nothing here"]));
}

#[test]
fn ini_output_joined_with_crlf() {
    let out = apply_edits_to_ini(
        "[ConsoleVariables]\nr.A=0",
        &[edit("r.A", Some("1"), None)],
        IniType::Engine,
    );
    assert_eq!(out, "[ConsoleVariables]\r\nr.A=1\r\n");
}

#[test]
fn engine_set_then_read_back() {
    let out = apply_edits_to_ini("[ConsoleVariables]\n", &[edit("r.Z", Some("3"), None)], IniType::Engine);
    let vars = parse_console_vars(&out, "DefaultEngine.ini");
    assert_eq!(kv(&vars), vec![("r.Z".to_string(), "3".to_string())]);
}

#[test]
fn device_profiles_remove_then_read_back() {
    let out = apply_edits_to_ini(
        "[Windows DeviceProfile]\n+CVars=r.Z=3\n+CVars=r.Y=1\n",
        &[edit("R.z", None, None)],
        IniType::DeviceProfiles,
    );
    let vars = parse_console_vars(&out, "DefaultDeviceProfiles.ini");
    assert_eq!(kv(&vars), vec![("r.Y".to_string(), "1".to_string())]);
}

#[test]
fn device_profiles_edits_stay_in_section_after_it_shrinks() {
    let mut l = lines(&[
        "[Windows DeviceProfile]",
        "+CVars=r.A=0",
        "+CVars=r.A=1",
        "+CVars=r.B=0",
        "[Other]",
        "+CVars=r.B=5",
    ]);
    apply_device_profiles_edits(&mut l, &[edit("r.A", None, None), edit("r.B", Some("1"), None)]);
    assert_eq!(l, lines(&["[Windows DeviceProfile]", "+CVars=r.B=1", "[Other]", "+CVars=r.B=5"]));
}

#[test]
fn device_profiles_update_finds_key_inserted_by_earlier_edit() {
    let mut l = lines(&["[Windows DeviceProfile]", "+CVars=r.A=0"]);
    apply_device_profiles_edits(&mut l, &[edit("r.X", Some("1"), None), edit("r.X", Some("2"), None)]);
    assert_eq!(l, lines(&["[Windows DeviceProfile]", "+CVars=r.A=0", "+CVars=r.X=2"]));
}

#[test]
fn written_text_ends_every_line_with_crlf() {
    let edits = [edit("r.A", Some("1"), None), edit("r.B", None, None), edit("r.C", Some("3"), Some("/Script/Engine.Engine"))];
    for (content, ini_type) in [
        ("[ConsoleVariables]\nr.B=0\r\nr.X=2\n", IniType::Engine),
        ("[Windows DeviceProfile]\n+CVars=r.B=0\n", IniType::DeviceProfiles),
    ] {
        let out = apply_edits_to_ini(content, &edits, ini_type);
        let bytes = out.as_bytes();
        for (i, b) in bytes.iter().enumerate() {
            if *b == b'\n' {
                assert!(i > 0 && bytes[i - 1] == b'\r', "{out:?}");
            }
        }
    }
}

#[test]
fn device_profiles_edits_applied_twice_change_nothing_more() {
    let edits = [edit("r.A", Some("1"), None), edit("r.B", None, None), edit("r.C", Some("3"), None)];
    let mut once = lines(&["[Windows DeviceProfile]", "+CVars=R.A=0", "r.a=5", "+CVars=r.B=2", "", "[Other]", "r.C=9"]);
    apply_device_profiles_edits(&mut once, &edits);
    assert_eq!(
        once,
        lines(&["[Windows DeviceProfile]", "+CVars=r.A=1", "r.A=1", "+CVars=r.C=3", "", "[Other]", "r.C=9"])
    );
    let mut twice = once.clone();
    apply_device_profiles_edits(&mut twice, &edits);
    assert_eq!(twice, once);
}

#[test]
fn device_profiles_edits_keep_every_other_line_in_order() {
    let edits = [edit("r.A", Some("1"), None), edit("r.B", None, None), edit("r.New", Some("7"), None)];
    let mut out = lines(&[
        "; top comment",
        "[Windows DeviceProfile]",
        "; r.A=old comment",
        "+CVars=r.Keep=4",
        "+CVars=r.A=0",
        "r.B=2",
        "",
        "[Other]",
        "r.A=9",
    ]);
    apply_device_profiles_edits(&mut out, &edits);
    assert_eq!(
        out,
        lines(&[
            "; top comment",
            "[Windows DeviceProfile]",
            "; r.A=old comment",
            "+CVars=r.Keep=4",
            "+CVars=r.A=1",
            "+CVars=r.New=7",
            "",
            "[Other]",
            "r.A=9",
        ])
    );
    let is_edited_key = |l: &String| {
        let t = l.trim();
        !t.starts_with(';')
            && parse_cvar_line(t)
                .map(|(k, _)| ["r.a", "r.b", "r.new"].contains(&k.to_ascii_lowercase().as_str()))
                .unwrap_or(false)
    };
    let kept: Vec<&String> = out.iter().filter(|l| !is_edited_key(l)).collect();
    assert_eq!(
        kept,
        vec!["; top comment", "[Windows DeviceProfile]", "; r.A=old comment", "+CVars=r.Keep=4", "", "[Other]"]
    );
}

#[test]
fn engine_edits_applied_twice_change_nothing_more() {
    let edits = [edit("r.A", Some("1"), None), edit("r.B", None, None), edit("r.New", Some("3"), Some("Extra"))];
    let mut once = lines(&["[ConsoleVariables]", "r.a=0", "r.B=2", "", "[Other]", "x=1"]);
    apply_engine_edits(&mut once, &edits);
    assert_eq!(
        once,
        lines(&["[ConsoleVariables]", "r.A=1", "", "[Other]", "x=1", "", "[Extra]", "r.New=3"])
    );
    let mut twice = once.clone();
    apply_engine_edits(&mut twice, &edits);
    assert_eq!(twice, once);
}

#[test]
fn ini_text_edited_again_is_the_same_up_to_trailing_line_breaks() {
    let edits = [edit("r.A", Some("1"), None), edit("r.B", None, None), edit("r.New", Some("3"), None)];
    let content = "[ConsoleVariables]\r\nr.a=0\r\nr.B=2\r\n\r\n\r\n";
    let once = apply_edits_to_ini(content, &edits, IniType::Engine);
    assert_eq!(once, "[ConsoleVariables]\r\nr.A=1\r\nr.New=3\r\n\r\n");
    let twice = apply_edits_to_ini(&once, &edits, IniType::Engine);
    assert_eq!(twice, "[ConsoleVariables]\r\nr.A=1\r\nr.New=3\r\n");
    assert_eq!(twice.trim_end_matches("\r\n"), once.trim_end_matches("\r\n"));

    let dp = "; profiles\r\n[Windows DeviceProfile]\r\n+CVars=r.A=0\r\nr.B=2\r\n";
    let once = apply_edits_to_ini(dp, &edits, IniType::DeviceProfiles);
    assert_eq!(once, "; profiles\r\n[Windows DeviceProfile]\r\n+CVars=r.A=1\r\n+CVars=r.New=3\r\n");
    let twice = apply_edits_to_ini(&once, &edits, IniType::DeviceProfiles);
    assert_eq!(twice, once);
}

#[test]
fn written_ini_text_splits_back_into_the_edited_lines() {
    let edits = [edit("r.New", Some("3"), None)];
    let content = "[ConsoleVariables]\r\nr.a=0\r\n\r\n";
    let mut edited = lines(&["[ConsoleVariables]", "r.a=0", ""]);
    apply_engine_edits(&mut edited, &edits);
    assert_eq!(edited, lines(&["[ConsoleVariables]", "r.a=0", "r.New=3", ""]));
    let text = apply_edits_to_ini(content, &edits, IniType::Engine);
    let back: Vec<String> = text.lines().map(str::to_string).collect();
    assert_eq!(back, edited[..edited.len() - 1].to_vec());

    let text = apply_edits_to_ini("", &[edit("r.Gone", None, None)], IniType::Engine);
    assert_eq!(text, "\r\n");
    let back: Vec<String> = text.lines().map(str::to_string).collect();
    assert_eq!(back, lines(&[""]));
}

#[test]
fn engine_edits_keep_other_lines_and_only_add_new_sections() {
    let edits = [edit("r.A", Some("1"), None), edit("r.B", None, None), edit("r.New", Some("3"), Some("Extra"))];
    let before = lines(&["; engine", "[ConsoleVariables]", "r.a=0", "r.Keep=5", "r.B=2", "", "[Other]", "x=1"]);
    let mut after = before.clone();
    apply_engine_edits(&mut after, &edits);
    let is_edited_key = |l: &String| {
        let t = l.trim();
        !t.starts_with(';')
            && parse_cvar_line(t)
                .map(|(k, _)| ["r.a", "r.b", "r.new"].contains(&k.to_ascii_lowercase().as_str()))
                .unwrap_or(false)
    };
    let kept_before: Vec<&String> = before.iter().filter(|l| !is_edited_key(l)).collect();
    let kept_after: Vec<&String> = after.iter().filter(|l| !is_edited_key(l)).collect();
    assert_eq!(kept_after[..kept_before.len()], kept_before[..]);
    assert_eq!(kept_after[kept_before.len()..].to_vec(), vec!["", "[Extra]"]);
}

#[test]
fn device_profiles_set_key_lines_keep_their_prefix() {
    let edits = [edit("r.A", Some("1"), None), edit("r.Other", Some("2"), None)];
    let mut out = lines(&["[Windows DeviceProfile]", "R.a=0", "; r.A=comment", "+cvars=r.A=7", "r.B=3"]);
    apply_device_profiles_edits(&mut out, &edits);
    assert_eq!(
        out,
        lines(&["[Windows DeviceProfile]", "r.A=1", "; r.A=comment", "+CVars=r.A=1", "r.B=3", "+CVars=r.Other=2"])
    );
}
