use toposaic::paths::{
    artifact_slug, flag_file_stem, folder_slug, free_directory, free_directory_candidate, is_plain_file_name, job_dir,
    piece_file_name, setup_name, source_artifact_path, tray_file_stem,
};

#[test]
fn folder_names_stay_inside_the_folder_the_user_picked() {
    assert_eq!(folder_slug("Mount Rainier"), "Mount-Rainier");
    assert_eq!(folder_slug("  Zürich / Üetliberg  "), "Zürich-Üetliberg");
    assert_eq!(folder_slug("富士山"), "富士山");
    // A name that would otherwise walk out of the chosen folder, and
    // one that would leave nothing behind at all.
    assert_eq!(folder_slug("../../etc"), "etc");
    assert_eq!(folder_slug("/"), "toposaic");
    assert_eq!(folder_slug(""), "toposaic");
    assert!(!folder_slug(&"x".repeat(200)).contains('/'));
    assert_eq!(folder_slug(&"x".repeat(200)).chars().count(), 48);
    // Cutting a long name to length must count characters, not bytes:
    // this name puts a byte-48 cut inside a character.
    let long_kanji = format!("a{}", "富".repeat(60));
    assert_eq!(folder_slug(&long_kanji).chars().count(), 48);
}

#[test]
fn folder_slug_drops_a_dash_left_at_the_cut() {
    // 47 letters, a separator, then more letters: the cut at 48 lands on the dash.
    let name = format!("{} tail", "a".repeat(47));
    assert_eq!(folder_slug(&name), "a".repeat(47));
}

#[test]
fn free_directory_takes_the_first_free_candidate() {
    assert_eq!(free_directory("/saves", "Mount-Rainier", &vec![false]).unwrap(), "/saves/Mount-Rainier");
    assert_eq!(
        free_directory("/saves/", "Mount-Rainier", &vec![true, true, false]).unwrap(),
        "/saves/Mount-Rainier-2"
    );
    assert_eq!(free_directory_candidate("", "job", 12), "job-12");
}

#[test]
fn free_directory_gives_up_after_a_thousand_names() {
    assert_eq!(free_directory("/saves", "x", &vec![true; 1000]).unwrap_err(), "Could not find a free folder name.");
    assert_eq!(free_directory("/saves", "x", &vec![true; 1200]).unwrap_err(), "Could not find a free folder name.");
    assert!(free_directory("/saves", "x", &Vec::new()).is_err());
}

#[test]
fn job_folders_use_the_canonical_hyphenated_uuid() {
    let dir = job_dir("/data", "67E5504410B1426F9247BB680E5FE0C8").unwrap();
    assert_eq!(dir, "/data/jobs/67e55044-10b1-426f-9247-bb680e5fe0c8");
    assert_eq!(job_dir("/data", "not-a-uuid").unwrap_err(), "The job ID is not valid.");
}

#[test]
fn artifact_paths_stay_inside_the_job_folder() {
    let id = "67e55044-10b1-426f-9247-bb680e5fe0c8";
    assert_eq!(
        source_artifact_path("/data", id, "terrain.3mf").unwrap(),
        "/data/jobs/67e55044-10b1-426f-9247-bb680e5fe0c8/terrain.3mf"
    );
    assert_eq!(
        source_artifact_path("/data", id, "../terrain.3mf").unwrap_err(),
        "The requested print file does not exist."
    );
    assert_eq!(source_artifact_path("/data", "nope", "terrain.3mf").unwrap_err(), "The job ID is not valid.");
    assert!(!is_plain_file_name(".."));
    assert!(!is_plain_file_name("."));
    assert!(!is_plain_file_name(""));
    assert!(is_plain_file_name("..."));
}

#[test]
fn artifact_slugs_are_lowercase_ascii() {
    assert_eq!(artifact_slug("Camp Muir (10,188 ft)"), "camp-muir-10-188-ft");
    assert_eq!(artifact_slug("富士山"), "label");
    assert_eq!(artifact_slug(&"Ab".repeat(30)).len(), 40);
}

#[test]
fn artifact_file_names_count_from_one() {
    assert_eq!(piece_file_name(false, 0, 2), "piece-1-3.stl");
    assert_eq!(piece_file_name(true, 4, 4), "terrain-solid.stl");
    assert_eq!(tray_file_stem(1, 0, 1), "terrain-tray");
    assert_eq!(tray_file_stem(6, 4, 3), "terrain-tray-r02-c02");
    assert_eq!(tray_file_stem(24, 23, 12), "terrain-tray-r02-c12");
    assert_eq!(flag_file_stem(true, 1, 0, "Summit"), "marker-flag-template");
    assert_eq!(flag_file_stem(true, 2, 1, "Summit Hut"), "marker-flag-blank-02-summit-hut");
    assert_eq!(flag_file_stem(false, 0, 9, "Base"), "marker-flag-10-base");
}

#[test]
fn project_archives_are_named_by_kind() {
    assert_eq!(toposaic::paths::project_file_name(true), "terrain-solid.3mf");
    assert_eq!(toposaic::paths::project_file_name(false), "toposaic.3mf");
}

#[test]
fn saved_setups_are_named_after_the_trimmed_place() {
    assert_eq!(setup_name(Some("  Mount Rainier\t")), "Mount Rainier");
    assert_eq!(setup_name(Some("\u{3000}富士山\u{a0}")), "富士山");
    assert_eq!(setup_name(Some(" \n ")), "TopoSaic setup");
    assert_eq!(setup_name(Some("")), "TopoSaic setup");
    assert_eq!(setup_name(None), "TopoSaic setup");
    assert_eq!(setup_name(Some("a b")), "a b");
}

#[test]
fn setup_names_trim_as_std_trims() {
    for c in (0u32..=0x10FFFF).filter_map(char::from_u32) {
        let text = format!("{c}a{c}b{c}");
        assert_eq!(setup_name(Some(&text)), text.trim(), "{:?}", c);
    }
}
