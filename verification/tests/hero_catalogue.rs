use rivals_toolkit::catalogue::{catalogue_from_raw, parse_id, CatalogueData, RawCatalogue, RawCharacter};
use rivals_toolkit::hero_cache::{HeroCache, ModHeroCacheEntry, MOD_HERO_CACHE_VERSION};
use rivals_toolkit::hero_match::{
    aggregate_heroes, cacheable_heroes, companion_utoc_names, detect_heroes_from_paths,
    detection_outcome, heroes_to_show, list_known_characters, rescan_failure_message, strip_pak_suffix, DetectionOutcome, HeroMatch,
};
use rivals_toolkit::heroes::parse_digits;

fn raw(entries: &[(&str, &str, &[(&str, &str)])]) -> RawCatalogue {
    RawCatalogue {
        generated_at: Some("2025-01-01".into()),
        source: Some("test".into()),
        characters: entries
            .iter()
            .map(|(id, name, skins)| {
                (
                    id.to_string(),
                    RawCharacter {
                        name: name.to_string(),
                        skins: skins.iter().map(|(a, b)| (a.to_string(), b.to_string())).collect(),
                    },
                )
            })
            .collect(),
    }
}

fn catalogue() -> CatalogueData {
    catalogue_from_raw(
        raw(&[
            ("1054", "punisher", &[("1054001", "Default"), ("1054300", "Bad Skin")]),
            ("1011", "Bruce Banner", &[]),
            ("1033", "Black Widow", &[("1033502", "Widow Suit")]),
        ]),
        "bundled".into(),
    )
}

fn hero(character_id: u32, skin_ids: Vec<u32>) -> HeroMatch {
    HeroMatch { character_id, character_name: String::new(), skin_ids, skin_names: Vec::new() }
}

#[test]
fn ids_parse_like_u32() {
    assert_eq!(parse_id("1011"), Some(1011));
    assert_eq!(parse_id("+12"), Some(12));
    assert_eq!(parse_id("0012"), Some(12));
    assert_eq!(parse_id("4294967295"), Some(u32::MAX));
    assert_eq!(parse_id("4294967296"), None);
    assert_eq!(parse_id("-1"), None);
    assert_eq!(parse_id("+"), None);
    assert_eq!(parse_id(""), None);
    assert_eq!(parse_id("10a"), None);
    assert_eq!(parse_id(" 1"), None);
}

#[test]
fn fixed_width_digits() {
    assert_eq!(parse_digits("1054", 4), Some(1054));
    assert_eq!(parse_digits("105", 4), None);
    assert_eq!(parse_digits("10a4", 4), None);
    assert_eq!(parse_digits("1054001", 7), Some(1_054_001));
}

#[test]
fn catalogue_drops_bad_ids_and_keeps_last_duplicate() {
    let cat = catalogue_from_raw(
        raw(&[
            ("1011", "Hulk", &[("x", "bad"), ("1011001", "A"), ("1011001", "B")]),
            ("abc", "Nobody", &[]),
            ("+1011", "Bruce Banner", &[("1011002", "C")]),
        ]),
        "disk".into(),
    );
    assert_eq!(cat.characters.len(), 1);
    assert_eq!(cat.characters[&1011].name, "Bruce Banner");
    assert_eq!(cat.characters[&1011].skins.len(), 1);
    assert_eq!(cat.characters[&1011].skins[&1_011_002], "C");
    assert_eq!(cat.origin, "disk");
    assert_eq!(cat.generated_at.as_deref(), Some("2025-01-01"));
    assert_eq!(cat.source.as_deref(), Some("test"));
}

#[test]
fn heroes_named_and_sorted_by_lowercase_name() {
    let paths = vec![
        "Marvel/Content/Marvel/Characters/1054/1054300/B.uasset".to_string(),
        "WwiseAudio/Media/bnk_vo_1054777.bnk".to_string(),
        "Marvel/Content/Marvel/Characters/1054/1054300/C.uasset".to_string(),
        "Marvel/Content/Marvel/VFX/Materials/Characters/1033/Materials/1033502/Mat.uasset".to_string(),
        "Marvel/Content/Marvel/Characters/1011/Shared/foo.uasset".to_string(),
    ];
    let m = detect_heroes_from_paths(&paths, &catalogue());
    let ids: Vec<u32> = m.iter().map(|h| h.character_id).collect();
    assert_eq!(ids, vec![1033, 1011, 1054]);
    assert_eq!(m[0].character_name, "Black Widow");
    assert_eq!(m[0].skin_ids, vec![1_033_502]);
    assert_eq!(m[0].skin_names, vec!["Widow Suit".to_string()]);
    assert!(m[1].skin_ids.is_empty());
    assert_eq!(m[2].skin_ids, vec![1_054_300, 1_054_777]);
    assert_eq!(m[2].skin_names, vec!["Bad Skin".to_string(), "Skin 1054777".to_string()]);
}

#[test]
fn aggregation_keeps_first_hit_order() {
    let paths = vec![
        "Marvel/Content/Marvel/Characters/1054/1054300/B.uasset".to_string(),
        "Marvel/Content/Marvel/Characters/1011/Shared/foo.uasset".to_string(),
        "Marvel/Content/Marvel/Characters/1054/1054001/A.uasset".to_string(),
    ];
    let m = aggregate_heroes(&paths, &catalogue());
    let ids: Vec<u32> = m.iter().map(|h| h.character_id).collect();
    assert_eq!(ids, vec![1054, 1011]);
    assert_eq!(m[0].skin_ids, vec![1_054_001, 1_054_300]);
    assert_eq!(m[0].skin_names, vec!["Default".to_string(), "Bad Skin".to_string()]);
}

#[test]
fn known_characters_listed_by_lowercase_name() {
    let list = list_known_characters(&catalogue());
    let names: Vec<String> = list.iter().map(|c| c.name.clone()).collect();
    assert_eq!(names, vec!["Black Widow", "Bruce Banner", "punisher"]);
    assert_eq!(list[2].id, 1054);
}

#[test]
fn detection_outcome_failed_or_heroes() {
    let paths = vec!["Marvel/Content/Marvel/Characters/1011/Shared/foo.uasset".to_string()];
    assert!(matches!(detection_outcome(&paths, true, &catalogue()), DetectionOutcome::Failed));
    match detection_outcome(&paths, false, &catalogue()) {
        DetectionOutcome::Heroes(h) => assert_eq!(h.len(), 1),
        DetectionOutcome::Failed => panic!("expected heroes"),
    }
    match detection_outcome(&Vec::new(), false, &catalogue()) {
        DetectionOutcome::Heroes(h) => assert!(h.is_empty()),
        DetectionOutcome::Failed => panic!("expected heroes"),
    }
}

#[test]
fn pak_suffix_stripped() {
    assert_eq!(strip_pak_suffix("Mod_P.pak.disabled"), "Mod_P");
    assert_eq!(strip_pak_suffix("Mod_P.pak"), "Mod_P");
    assert_eq!(strip_pak_suffix("Mod_P.utoc"), "Mod_P.utoc");
    assert_eq!(strip_pak_suffix("sub/dir/x.pak"), "sub/dir/x");
    let (a, b) = companion_utoc_names("Mod_P");
    assert_eq!(a, "Mod_P.utoc");
    assert_eq!(b, "Mod_P.utoc.disabled");
    assert_eq!(
        rescan_failure_message("Cool Mod"),
        "Failed to read mod containers for Cool Mod; cache cleared, will retry"
    );
}

#[test]
fn cache_serves_only_matching_size_and_stamp() {
    let mut c = HeroCache::new();
    c.last_character_data_sync = 7;
    c.store("Mod.pak".into(), 100, 7, vec![hero(1011, vec![1])]);
    let hit = c.cached_heroes("Mod.pak", 100).unwrap();
    assert_eq!(hit.len(), 1);
    assert_eq!(hit[0].character_id, 1011);
    assert!(c.cached_heroes("Mod.pak", 101).is_none());
    assert!(c.cached_heroes("Other.pak", 100).is_none());
    c.store("Mod.pak".into(), 100, 6, vec![hero(1054, vec![])]);
    assert!(c.cached_heroes("Mod.pak", 100).is_none());
    assert_eq!(c.entries.len(), 1);
    c.store("Mod.pak".into(), 100, 7, Vec::new());
    assert_eq!(c.cached_heroes("Mod.pak", 100).map(|v| v.len()), Some(0));
    c.forget("Mod.pak");
    assert!(c.cached_heroes("Mod.pak", 100).is_none());
    assert!(c.entries.is_empty());
}

#[test]
fn cache_prunes_removed_mods() {
    let mut c = HeroCache::new();
    c.store("A".into(), 1, 0, Vec::new());
    c.store("B".into(), 2, 0, Vec::new());
    assert!(!c.retain_live(&vec!["A".to_string(), "B".to_string(), "C".to_string()]));
    assert!(c.retain_live(&vec!["B".to_string()]));
    let names: Vec<String> = c.entries.iter().map(|e| e.0.clone()).collect();
    assert_eq!(names, vec!["B"]);
}

#[test]
fn cache_commit_respects_catalogue_race() {
    let mut c = HeroCache::new();
    c.last_character_data_sync = 5;
    let results = vec![
        ("A".to_string(), 10u64, Some(vec![hero(1011, vec![])])),
        ("B".to_string(), 20u64, None),
    ];
    let live = vec!["A".to_string(), "B".to_string()];
    assert!(!c.commit_detections(4, &results, &live));
    assert!(c.entries.is_empty());
    assert!(c.commit_detections(5, &results, &live));
    assert_eq!(c.cached_heroes("A", 10).map(|v| v[0].character_id), Some(1011));
    assert!(c.cached_heroes("B", 20).is_none());
}

#[test]
fn stale_cache_version_is_cleared() {
    let mut c = HeroCache {
        last_character_data_sync: 3,
        version: 2,
        entries: vec![(
            "A".to_string(),
            ModHeroCacheEntry { size_bytes: 1, catalogue_stamp: 3, heroes: Vec::new() },
        )],
    };
    c.reset_if_stale();
    assert_eq!(c.version, MOD_HERO_CACHE_VERSION);
    assert!(c.entries.is_empty());
    assert_eq!(c.last_character_data_sync, 3);
    c.store("A".into(), 1, 3, Vec::new());
    c.reset_if_stale();
    assert_eq!(c.entries.len(), 1);
}

#[test]
fn listing_order_folds_case() {
    let cat = catalogue_from_raw(
        raw(&[("1", "Banana", &[]), ("2", "apple", &[]), ("3", "Éclair", &[]), ("4", "éclair", &[])]),
        "bundled".into(),
    );
    let names: Vec<String> = list_known_characters(&cat).iter().map(|c| c.name.clone()).collect();
    assert_eq!(names[..2], ["apple", "Banana"]);
    // The two names with the same lowercase form come in the order the map walks them.
    let mut rest = names[2..].to_vec();
    rest.sort();
    assert_eq!(rest, vec!["Éclair", "éclair"]);
}

#[test]
fn cache_built_from_entries_keeps_last_duplicate() {
    let entry = |size: u64| ModHeroCacheEntry { size_bytes: size, catalogue_stamp: 9, heroes: vec![hero(1011, vec![])] };
    let c = HeroCache::from_entries(9, 4, &vec![("A".to_string(), entry(1)), ("A".to_string(), entry(2)), ("B".to_string(), entry(3))]);
    assert_eq!(c.entries.len(), 2);
    assert!(c.cached_heroes("A", 1).is_none());
    assert_eq!(c.cached_heroes("A", 2).map(|v| v.len()), Some(1));
    assert_eq!(c.cached_heroes("B", 3).map(|v| v[0].character_id), Some(1011));
}

#[test]
fn detection_outcomes_shown_and_cached() {
    let outcomes = vec![
        (2usize, DetectionOutcome::Heroes(vec![hero(1011, vec![])])),
        (0usize, DetectionOutcome::Failed),
    ];
    assert!(heroes_to_show(false, &outcomes).is_empty());
    let shown: Vec<(usize, Vec<u32>)> = heroes_to_show(true, &outcomes)
        .into_iter()
        .map(|(i, h)| (i, h.iter().map(|m| m.character_id).collect()))
        .collect();
    assert_eq!(shown, vec![(2, vec![1011]), (0, vec![])]);
    assert_eq!(cacheable_heroes(&outcomes[0].1).map(|v| v[0].character_id), Some(1011));
    assert!(cacheable_heroes(&outcomes[1].1).is_none());
}
