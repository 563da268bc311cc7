use toposaic::generation::{GenerationSettings, MapMarker, TrailRoute};
use toposaic::settings::{MarkerKind, SuperTileAnchor};
use toposaic::validation::{check_label, piece_batch_size, valid_hex_color};

#[test]
fn hex_colors_need_a_hash_and_six_digits() {
    assert!(valid_hex_color("#E24A33"));
    assert!(valid_hex_color("#abcdef"));
    assert!(!valid_hex_color("E24A33"));
    assert!(!valid_hex_color("#E24A3"));
    assert!(!valid_hex_color("#E24A3G"));
    assert!(!valid_hex_color("#E24A3é"));
    assert!(!valid_hex_color("magenta"));
}

#[test]
fn piece_grids_run_from_two_to_sixteen() {
    let mut spec = GenerationSettings::default();
    assert!(spec.validate_piece_grid().is_ok());
    spec.rows = 16;
    spec.columns = 2;
    assert!(spec.validate_piece_grid().is_ok());
    spec.rows = 17;
    assert_eq!(
        spec.validate_piece_grid().unwrap_err(),
        "piece rows and columns must each be between 2 and 16"
    );
    spec.rows = 1;
    assert!(spec.validate_piece_grid().is_err());
}

#[test]
fn accepts_super_tile_grids_up_to_twelve_by_twelve() {
    let mut spec = GenerationSettings::default();
    spec.adjacent_columns = 12;
    spec.adjacent_rows = 12;
    spec.adjacent_tile_column = 11;
    spec.adjacent_tile_row = 11;
    assert!(spec.validate_super_tile().is_ok());
    spec.adjacent_columns = 13;
    assert_eq!(
        spec.validate_super_tile().unwrap_err(),
        "super-tile grid columns and rows must each be between 1 and 12"
    );
    spec.adjacent_columns = 11;
    assert_eq!(spec.validate_super_tile().unwrap_err(), "super-tile position must be inside its grid");
}

#[test]
fn center_anchored_super_tiles_require_odd_dimensions() {
    let mut spec = GenerationSettings::default();
    spec.adjacent_columns = 5;
    spec.adjacent_rows = 3;
    spec.super_tile_anchor = SuperTileAnchor::Center;
    assert!(spec.validate_super_tile().is_ok());
    spec.adjacent_columns = 4;
    assert!(spec.validate_super_tile().unwrap_err().contains("require odd column and row counts"));
}

#[test]
fn puzzle_positions_stay_within_a_million_tiles() {
    let mut spec = GenerationSettings::default();
    spec.puzzle_tile_column = -1_000_000;
    spec.puzzle_tile_row = 1_000_000;
    assert!(spec.validate_super_tile().is_ok());
    spec.puzzle_tile_column = i32::MIN;
    assert_eq!(
        spec.validate_super_tile().unwrap_err(),
        "puzzle tile row and column must each be between -1000000 and 1000000"
    );
}

#[test]
fn sample_counts_stay_in_their_ranges() {
    let mut spec = GenerationSettings::default();
    assert!(spec.validate_sampling().is_ok());
    spec.samples_per_piece = 161;
    assert_eq!(spec.validate_sampling().unwrap_err(), "samples per piece must be between 16 and 160");
    spec.samples_per_piece = 16;
    spec.overlay_samples_per_piece = 31;
    assert_eq!(spec.validate_sampling().unwrap_err(), "overlay samples per piece must be between 32 and 192");
    spec.overlay_samples_per_piece = 192;
    spec.mesh_samples_across = Some(255);
    assert_eq!(spec.validate_sampling().unwrap_err(), "assembled mesh samples must be between 256 and 2048");
    spec.mesh_samples_across = Some(2_048);
    spec.overlay_samples_across = Some(4_096);
    assert_eq!(spec.validate_sampling().unwrap_err(), "assembled overlay samples must be between 256 and 2048");
}

#[test]
fn place_labels_are_short_printable_text() {
    let mut spec = GenerationSettings::default();
    assert!(spec.validate_place_name().is_ok());
    spec.place_name = "   ".to_string();
    assert_eq!(
        spec.validate_place_name().unwrap_err(),
        "place label must contain between 1 and 48 characters"
    );
    spec.place_name = "富".repeat(48);
    assert!(spec.validate_place_name().is_ok());
    spec.place_name = "富".repeat(49);
    assert!(spec.validate_place_name().is_err());
    spec.place_name = "Peak\u{7}".to_string();
    assert_eq!(spec.validate_place_name().unwrap_err(), "place label cannot contain control characters");
}

#[test]
fn trails_validate_names_and_point_counts() {
    let mut trail = TrailRoute { name: "Wonderland".to_string(), point_count: 2 };
    assert!(trail.validate().is_ok());
    trail.point_count = 1;
    assert!(trail.validate().unwrap_err().contains("must be between 2 and"));
    trail.point_count = 20_001;
    assert_eq!(trail.validate().unwrap_err(), "trail point counts must be between 2 and 20000");
    trail.point_count = 20_000;
    trail.name = "  ".to_string();
    assert!(trail.validate().unwrap_err().contains("trail names"));
    trail.name = "a\nb".to_string();
    assert_eq!(trail.validate().unwrap_err(), "trail names cannot contain control characters");
}

#[test]
fn collections_and_markers_are_capped() {
    let mut spec = GenerationSettings::default();
    spec.trails = (0..21).map(|_| TrailRoute { name: "T".to_string(), point_count: 2 }).collect();
    assert_eq!(spec.validate_trail_count().unwrap_err(), "imported trail count must be at most 20");
    spec.trails.truncate(20);
    assert!(spec.validate_trail_count().is_ok());
    spec.markers = (0..51).map(|_| MapMarker { name: "M".to_string(), kind: MarkerKind::Dot }).collect();
    assert_eq!(spec.validate_marker_count().unwrap_err(), "map marker count must be at most 50");
    spec.markers.truncate(50);
    assert!(spec.validate_marker_count().is_ok());
    let marker = MapMarker { name: "x".repeat(81), kind: MarkerKind::Dot };
    assert_eq!(marker.validate().unwrap_err(), "marker names must contain between 1 and 80 characters");
    spec.marker_color = "red".to_string();
    assert_eq!(spec.validate_marker_color().unwrap_err(), "marker color must be a #RRGGBB value");
}

#[test]
fn color_checks_report_the_first_bad_color() {
    let mut spec = GenerationSettings::default();
    assert!(spec.color.validate_colors().is_ok());
    spec.color.trail_color = "magenta".to_string();
    spec.color.aerial_color = "violet".to_string();
    assert_eq!(spec.color.validate_colors().unwrap_err(), "trail color must use #RRGGBB");
    spec.color.trail_color = "#D6336C".to_string();
    assert_eq!(spec.color.validate_colors().unwrap_err(), "aerialway color must use #RRGGBB");
    assert!(spec.tray.validate_colors().is_ok());
    spec.tray.label_color = "white".to_string();
    assert_eq!(spec.tray.validate_colors().unwrap_err(), "tray label color must use #RRGGBB");
    assert!(spec.tray.validate_counts().is_ok());
    spec.tray.contour_count = 61;
    assert_eq!(spec.tray.validate_counts().unwrap_err(), "tray contour count must be between 5 and 60");
    spec.tray.contour_count = 5;
    spec.tray.segment_rows = 13;
    assert_eq!(
        spec.tray.validate_counts().unwrap_err(),
        "tray segment columns and rows must each be between 1 and 12"
    );
}

#[test]
fn drawing_needs_surface_data() {
    let mut spec = GenerationSettings::default();
    assert!(spec.check_surface_requirements(false).is_ok());
    spec.markers = vec![MapMarker { name: "Hut".to_string(), kind: MarkerKind::Building }];
    assert_eq!(
        spec.check_surface_requirements(false).unwrap_err(),
        "building markers require OpenStreetMap building data"
    );
    spec.trails = vec![TrailRoute { name: "T".to_string(), point_count: 2 }];
    assert_eq!(spec.check_surface_requirements(false).unwrap_err(), "imported trails require surface data to draw on");
    spec.color.enabled = true;
    assert_eq!(
        spec.check_surface_requirements(false).unwrap_err(),
        "color output requires ESA WorldCover surface data"
    );
    assert!(spec.check_surface_requirements(true).is_ok());
    assert_eq!(piece_batch_size(9, 16), 8);
    assert_eq!(piece_batch_size(3, 16), 3);
    assert_eq!(piece_batch_size(9, 2), 2);
    assert_eq!(piece_batch_size(0, 4), 1);
}

#[test]
fn labels_use_the_unicode_whitespace_and_control_sets() {
    assert_eq!(check_label("\u{3000}\u{2003}\u{85}", 20), 1);
    assert_eq!(check_label("Rainier", 20), 0);
    assert_eq!(check_label("Rain\u{9f}ier", 20), 2);
    assert_eq!(check_label("Rain\u{7f}", 20), 2);
    assert_eq!(check_label("Rain\u{a0}ier", 20), 0);
    assert_eq!(check_label("\u{200b}", 20), 0);
    assert_eq!(check_label("abc", 2), 1);
}

#[test]
fn label_character_classes_agree_with_std_for_every_char() {
    for c in (0u32..=0x10FFFF).filter_map(char::from_u32) {
        let expected = if c.is_whitespace() {
            1
        } else if c.is_control() {
            2
        } else {
            0
        };
        assert_eq!(check_label(&c.to_string(), 5), expected, "{:?}", c);
    }
}
