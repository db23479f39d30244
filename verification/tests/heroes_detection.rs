use std::collections::HashSet;

use rivals_toolkit::catalogue::{catalogue_from_raw, CatalogueData, RawCatalogue, RawCharacter};
use rivals_toolkit::hero_match::detect_heroes_from_paths;
use rivals_toolkit::heroes::detect_in_path;

fn known() -> HashSet<u32> {
    [
        1011, 1015, 1016, 1026, 1032, 1033, 1047, 1051, 1054, 1055, 1056, 1065,
    ]
    .into_iter()
    .collect()
}

/// A catalogue holding the heroes of `known()`.
fn catalogue() -> CatalogueData {
    let names = [
        (1011, "Bruce Banner"),
        (1015, "Storm"),
        (1016, "Loki"),
        (1026, "Black Panther"),
        (1032, "Squirrel Girl"),
        (1033, "Black Widow"),
        (1047, "Jeff the Land Shark"),
        (1051, "The Thing"),
        (1054, "Punisher"),
        (1055, "Iron Man"),
        (1056, "Magik"),
        (1065, "Invisible Woman"),
    ];
    let characters = names
        .iter()
        .map(|(id, name)| {
            (
                id.to_string(),
                RawCharacter { name: name.to_string(), skins: Vec::new() },
            )
        })
        .collect();
    catalogue_from_raw(
        RawCatalogue { generated_at: None, source: None, characters },
        "bundled".to_string(),
    )
}

#[test]
fn matches_characters_anchor_with_skin() {
    let hits = detect_in_path("Marvel/Content/Marvel/Characters/1054/1054001/Mesh.uasset", &known());
    assert!(hits.contains(&(1054, Some(1_054_001))));
}

#[test]
fn matches_characters_anchor_without_skin() {
    let hits = detect_in_path("Marvel/Content/Marvel/Characters/1011/Shared/foo.uasset", &known());
    assert!(hits.contains(&(1011, None)));
}

#[test]
fn matches_abilitysystem_anchor() {
    let hits = detect_in_path("Marvel/Content/Marvel/AbilitySystem/1033/Skills/Foo.uasset", &known());
    assert!(hits.contains(&(1033, None)));
}

#[test]
fn matches_embedded_skin_id_in_filename() {
    let hits = detect_in_path("WwiseAudio/Media/bnk_vo_1054001.bnk", &known());
    assert!(hits.contains(&(1054, Some(1_054_001))));
}

#[test]
fn matches_embedded_skin_id_in_split_path() {
    let hits = detect_in_path(
        "Marvel/Content/Marvel/VFX/Materials/Characters/1033/Materials/1033502/Mat.uasset",
        &known(),
    );
    assert!(hits.contains(&(1033, Some(1_033_502))));
}

#[test]
fn anchor_suppresses_unrelated_filename_skin_token() {
    let hits = detect_in_path(
        "Marvel/Content/Marvel/VFX/Particles/Characters/1036/MVP/1036300/NS_1034300_CameraParticle_01.uasset",
        &known(),
    );
    let chars: Vec<u32> = hits.iter().map(|(c, _)| *c).collect();
    assert!(chars.contains(&1036));
    assert!(!chars.contains(&1034));
}

#[test]
fn rejects_environment_paths() {
    let hits = detect_in_path(
        "Marvel/Content/Marvel/Environment/IPAsset/Characters/1026/1026300/Mesh.uasset",
        &known(),
    );
    assert!(hits.is_empty());
}

#[test]
fn handles_backslash_separators() {
    let hits = detect_in_path(
        "Marvel\\Content\\Marvel\\Characters\\1011\\1011502\\foo.uasset",
        &known(),
    );
    assert!(hits.contains(&(1011, Some(1_011_502))));
}

#[test]
fn aggregates_skins_per_char() {
    let paths = vec![
        "Marvel/Content/Marvel/Characters/1054/1054001/A.uasset".to_string(),
        "Marvel/Content/Marvel/Characters/1054/1054300/B.uasset".to_string(),
    ];
    let matches = detect_heroes_from_paths(&paths, &catalogue());
    assert_eq!(matches.len(), 1);
    assert_eq!(matches[0].character_id, 1054);
    assert_eq!(matches[0].skin_ids, vec![1_054_001, 1_054_300]);
}

#[test]
fn unknown_char_id_dropped() {
    let paths = vec!["Marvel/Content/Marvel/Characters/9000/9000100/x.uasset".to_string()];
    assert!(detect_heroes_from_paths(&paths, &catalogue()).is_empty());
}

#[test]
fn random_7digit_token_dropped_when_not_in_catalogue() {
    let paths = vec!["Marvel/Content/Marvel/Some/Asset/2103312_thing.uasset".to_string()];
    assert!(detect_heroes_from_paths(&paths, &catalogue()).is_empty());
}

#[test]
fn matches_square_hero_head_anchor() {
    let hits = detect_in_path(
        "Marvel/Content/Marvel/UI/Textures/HeroPortrait/SquareHeroHead/img_squarehead_10110010_avatar.uasset",
        &known(),
    );
    assert!(hits.contains(&(1011, None)));
}

#[test]
fn matches_square_hero_head_proficiency() {
    let hits = detect_in_path(
        "Marvel/Content/Marvel/UI/Textures/HeroPortrait/SquareHeroHead/Proficiency/img_squarehead_21047020_avatar.uasset",
        &known(),
    );
    assert!(hits.contains(&(1047, None)));
}

#[test]
fn square_head_aggregates_with_catalogue_filter() {
    let paths = vec![
        "Marvel/Content/Marvel/UI/Textures/HeroPortrait/SquareHeroHead/img_squarehead_10110010_avatar.uasset".to_string(),
        "Marvel/Content/Marvel/UI/Textures/HeroPortrait/SquareHeroHead/Proficiency/img_squarehead_21065020_avatar.uasset".to_string(),
    ];
    let matches = detect_heroes_from_paths(&paths, &catalogue());
    let ids: Vec<u32> = matches.iter().map(|m| m.character_id).collect();
    assert!(ids.contains(&1011));
    assert!(ids.contains(&1065));
}

#[test]
fn matches_ui_textures_charid_folder_segment() {
    let hits = detect_in_path(
        "Marvel/Content/Marvel/UI/Textures/Ability/1055/icon_105501.uasset",
        &known(),
    );
    assert!(hits.contains(&(1055, None)));
}

#[test]
fn matches_ui_textures_short_filename_token() {
    let hits = detect_in_path(
        "Marvel/Content/Marvel/UI/Textures/HeroLogo/img_herologo_1055_logo.uasset",
        &known(),
    );
    assert!(hits.contains(&(1055, None)));
}

#[test]
fn matches_ui_textures_8digit_with_item_prefix() {
    let hits = detect_in_path(
        "Marvel/Content/Marvel/UI/Textures/Show/Nameplate/img_nameplate_31055001.uasset",
        &known(),
    );
    assert!(hits.contains(&(1055, None)));
}

#[test]
fn matches_ui_textures_pendant_with_3digit_prefix() {
    let hits = detect_in_path(
        "Marvel/Content/Marvel/UI/Textures/Item/Pendant/item_pandant_03810550001.uasset",
        &known(),
    );
    assert!(hits.contains(&(1055, None)));
}

#[test]
fn matches_ui_textures_mall_multi_id() {
    let hits = detect_in_path(
        "Marvel/Content/Marvel/UI/Textures/Mall/SkinCard/img_mall_10515040and10558000_skin.uasset",
        &known(),
    );
    let ids: Vec<u32> = hits.iter().map(|(c, _)| *c).collect();
    assert!(ids.contains(&1051));
    assert!(ids.contains(&1055));
}

#[test]
fn ui_segment_anchor_suppresses_filename_window() {
    let hits = detect_in_path(
        "Marvel/Content/Marvel/UI/Textures/Mastery/Reduce/1011/fb_mastery21055022_bg_03.uasset",
        &known(),
    );
    let ids: Vec<u32> = hits.iter().map(|(c, _)| *c).collect();
    assert!(ids.contains(&1011));
    assert!(!ids.contains(&1055));
}

#[test]
fn ui_window_scan_takes_first_catalogue_match_per_token() {
    let hits = detect_in_path(
        "Marvel/Content/Marvel/UI/Textures/Item/Emote/item_emote_1055103205.uasset",
        &known(),
    );
    let ids: Vec<u32> = hits.iter().map(|(c, _)| *c).collect();
    assert!(ids.contains(&1055));
    assert!(!ids.contains(&1032));
}

#[test]
fn ui_window_scan_skipped_outside_ui_textures() {
    let hits = detect_in_path("Marvel/Content/Marvel/Some/Asset/2103312_thing.uasset", &known());
    assert!(hits.iter().all(|(c, _)| *c != 1033));
}

#[test]
fn ui_career_path_suppressed() {
    let hits = detect_in_path(
        "Marvel/Content/Marvel/UI/Textures/Career/Career_Achievement/Career_Achvement_Badge/img_hero_copper_1011001.uasset",
        &known(),
    );
    assert!(hits.is_empty());
}

#[test]
fn ui_depot_path_suppressed() {
    let hits = detect_in_path(
        "Marvel/Content/Marvel/UI/Textures/Depot/MCNTheme/icon_mcntheme_2001011.uasset",
        &known(),
    );
    assert!(hits.is_empty());
}
