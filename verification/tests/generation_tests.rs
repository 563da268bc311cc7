use toposaic::classes::SurfaceClass;
use toposaic::generation::{
    detail_samples_from_scaled, model_preview_spec, samples_per_piece_for_total, GenerationSettings, MapMarker,
    TrailRoute,
};
use toposaic::settings::{AerialStyle, MarkerKind, PreviewDetail, RailLifecycle, RailStyle, ResolvedRoadDetail};
use toposaic::settings::{
    puzzle_retention_active, valid_wall_mount_pin_count, wall_mount_cuts_terrain, wall_mount_cuts_tray,
    WallMountStyle, WallMountTarget,
};
use toposaic::surface::SurfaceField;

fn trail() -> TrailRoute {
    TrailRoute { name: "Wonderland".to_string(), point_count: 2 }
}

#[test]
fn color_output_draws_both_rail_layers_in_their_own_slots() {
    let mut spec = GenerationSettings::default();
    spec.color.enabled = true;
    assert!(spec.uses_rail());
    assert!(spec.uses_aerial());
    assert!(spec.uses_separate_rail());
    assert!(spec.uses_separate_aerial());
    assert_eq!(spec.rail_line_class(), SurfaceClass::Rail);
    assert_eq!(spec.aerial_line_class(), SurfaceClass::Aerial);
    let palette = spec.material_palette(None);
    assert_eq!(palette.len(), 8);
    assert_eq!(palette.slot(SurfaceClass::Trail), None);
    assert_eq!(palette.slot(SurfaceClass::Rail), Some(6));
    assert_eq!(palette.slot(SurfaceClass::Aerial), Some(7));

    let mut off = GenerationSettings::default();
    assert!(!off.uses_rail());
    assert!(!off.uses_aerial());
    assert_eq!(off.material_palette(None).len(), 6);
    off.color.enabled = true;
    assert!(off.uses_rail_or_aerial());
}

#[test]
fn merged_rail_styles_keep_six_slots() {
    let mut spec = GenerationSettings::default();
    spec.color.enabled = true;
    spec.color.rail_style = RailStyle::WithRoads;
    spec.color.aerial_style = AerialStyle::WithRail;
    assert!(!spec.uses_separate_rail());
    assert!(!spec.uses_separate_aerial());
    assert_eq!(spec.rail_line_class(), SurfaceClass::Road);
    assert_eq!(spec.aerial_line_class(), SurfaceClass::Road);
    assert_eq!(spec.material_palette(None).len(), 6);
    spec.color.aerial_style = AerialStyle::WithRoads;
    assert_eq!(spec.material_palette(None).len(), 6);
}

#[test]
fn palette_slots_follow_class_order_without_gaps() {
    let mut spec = GenerationSettings::default();
    spec.color.enabled = true;
    spec.color.rail_style = RailStyle::WithRoads;
    spec.color.aerial_style = AerialStyle::Separate;
    let palette = spec.material_palette(None);
    assert_eq!(palette.len(), 7);
    assert_eq!(palette.colors()[6], "#6C4CB6");
    assert_eq!(palette.slot(SurfaceClass::Rail), None);
    assert_eq!(palette.slot(SurfaceClass::Aerial), Some(6));
    assert_eq!(palette.slot(SurfaceClass::Building), Some(5));

    spec.trails = vec![trail()];
    let palette = spec.material_palette(None);
    assert_eq!(palette.len(), 8);
    assert_eq!(palette.slot(SurfaceClass::Trail), Some(6));
    assert_eq!(palette.slot(SurfaceClass::Aerial), Some(7));
    assert_eq!(palette.colors()[0], "#7C7468");
    assert_eq!(palette.colors()[1], "#28543A");
}

#[test]
fn aerial_lines_follow_a_switched_off_railway_to_the_roads() {
    let mut spec = GenerationSettings::default();
    spec.color.enabled = true;
    spec.color.aerial_style = AerialStyle::WithRail;
    assert_eq!(spec.aerial_line_class(), SurfaceClass::Rail);
    spec.color.rail_enabled = false;
    assert_eq!(spec.aerial_line_class(), SurfaceClass::Road);
    assert!(!spec.uses_separate_aerial());
    assert_eq!(spec.material_palette(None).slot(SurfaceClass::Rail), None);
}

#[test]
fn surface_data_trims_optional_layers_from_the_palette() {
    let mut spec = GenerationSettings::default();
    spec.color.enabled = true;
    let mut field = SurfaceField::new(2, 2, vec![SurfaceClass::Rock; 4], "t".to_string()).unwrap();
    field.record_vector_line(SurfaceClass::Aerial);
    let palette = spec.material_palette(Some(&field));
    assert_eq!(palette.len(), 7);
    assert_eq!(palette.slot(SurfaceClass::Rail), None);
    assert_eq!(palette.slot(SurfaceClass::Aerial), Some(6));
    assert_eq!(palette.slot(SurfaceClass::Water), Some(3));
}

#[test]
fn markers_and_trails_switch_color_materials_on() {
    let mut spec = GenerationSettings::default();
    assert!(!spec.uses_color_materials());
    spec.trails = vec![trail()];
    assert!(spec.uses_trails());
    assert!(spec.uses_color_materials());
    spec.trails.clear();
    spec.markers = vec![MapMarker { name: "Hole".to_string(), kind: MarkerKind::FlagHole }];
    assert!(spec.uses_markers());
    assert!(spec.uses_flag_holes());
    assert!(!spec.uses_colored_markers());
    assert!(!spec.uses_color_materials());
    spec.markers.push(MapMarker { name: "Hut".to_string(), kind: MarkerKind::Building });
    assert!(spec.uses_building_markers());
    assert!(spec.uses_color_materials());
    assert_eq!(spec.material_palette(None).slot(SurfaceClass::Marker), Some(6));
    assert_eq!(spec.material_palette(None).colors()[6], "#E24A33");
}

#[test]
fn tray_archives_paint_only_tray_colors() {
    let mut spec = GenerationSettings::default();
    spec.color.enabled = true;
    spec.trails = vec![trail()];
    spec.for_tray_archive();
    let palette = spec.material_palette(None);
    assert_eq!(palette.len(), 6);
    for color in palette.colors() {
        assert!(color == "#252822" || color == "#E7E4D8" || color == "#F4F3EC");
    }
}

#[test]
fn sample_budgets_round_and_split() {
    assert_eq!(samples_per_piece_for_total(1_024, 3), 342);
    assert_eq!(samples_per_piece_for_total(1_024, 0), 1_024);
    assert_eq!(samples_per_piece_for_total(0, 5), 0);
    assert_eq!(detail_samples_from_scaled(193, 64, 1_024), 200);
    assert_eq!(detail_samples_from_scaled(10, 64, 1_024), 64);
    assert_eq!(detail_samples_from_scaled(5_000, 64, 1_024), 1_024);
    assert_eq!(detail_samples_from_scaled(u32::MAX, 64, u32::MAX), u32::MAX);
    let spec = GenerationSettings::default();
    assert_eq!(spec.mesh_piece_count(), 3);
    assert_eq!(spec.base_detail_total(64), 192);
    assert_eq!(spec.assembled_samples(u32::MAX), u32::MAX);
    assert_eq!(spec.sample_grid_dimensions(64), (193, 193));
    assert_eq!(spec.preview_sample_count(64), 193);
    assert_eq!(spec.preview_sample_count(10), 96);
    assert_eq!(spec.preview_sample_count(200), 384);
}

fn preview_source() -> GenerationSettings {
    let mut spec = GenerationSettings::default();
    spec.color.enabled = true;
    spec.color.roads_enabled = true;
    spec.buildings_enabled = true;
    spec.tray.enabled = true;
    spec.mesh_samples_across = Some(2_048);
    spec.overlay_samples_across = Some(2_048);
    spec.fine_dem_detail = true;
    spec
}

fn preview_of(detail: PreviewDetail) -> GenerationSettings {
    let mut draft = preview_source();
    model_preview_spec(&mut draft, detail);
    draft
}

#[test]
fn model_preview_spec_keeps_features_and_lowers_only_detail() {
    let draft = preview_of(PreviewDetail::Fast);
    assert!(draft.color.enabled);
    assert!(draft.color.roads_enabled);
    assert!(draft.buildings_enabled);
    assert!(draft.tray.enabled);
    assert_eq!(draft.samples_per_piece, 16);
    assert_eq!(draft.overlay_samples_per_piece, 32);
    assert_eq!(draft.mesh_samples_across, None);
    assert_eq!(draft.overlay_samples_across, None);
    assert!(!draft.fine_dem_detail);

    let detailed = preview_of(PreviewDetail::Detailed);
    assert_eq!(detailed.samples_per_piece, 32);
    assert_eq!(detailed.overlay_samples_per_piece, 64);
    assert_eq!(detailed.mesh_samples_across, None);
    assert_eq!(detailed.overlay_samples_across, None);
    assert!(!detailed.fine_dem_detail);

    let high = preview_of(PreviewDetail::High);
    assert_eq!(high.samples_per_piece, 48);
    assert_eq!(high.overlay_samples_per_piece, 96);
    assert_eq!(high.mesh_samples_across, None);
    assert_eq!(high.overlay_samples_across, None);
    assert!(!high.fine_dem_detail);
    assert_eq!(PreviewDetail::Fast.sample_grid(), 128);
    assert_eq!(PreviewDetail::Detailed.sample_grid(), 192);
    assert_eq!(PreviewDetail::High.sample_grid(), 256);
}

#[test]
fn lifecycle_names_and_order() {
    assert_eq!(RailLifecycle::default(), RailLifecycle::Operational);
    assert!(RailLifecycle::Disused > RailLifecycle::Operational);
    assert!(RailLifecycle::Abandoned > RailLifecycle::Disused);
    assert_eq!(RailLifecycle::Operational.name(), "operational");
    assert_eq!(RailLifecycle::Disused.name(), "disused");
    assert_eq!(RailLifecycle::Abandoned.name(), "abandoned");
    assert_eq!(ResolvedRoadDetail::Major.name(), "major");
}

#[test]
fn class_indices_round_trip() {
    let all = SurfaceClass::all();
    assert_eq!(all.len(), 10);
    for (index, class) in all.iter().enumerate() {
        assert_eq!(class.material_index() as usize, index);
        assert_eq!(SurfaceClass::from_material_index(index as u32), Some(*class));
    }
    assert_eq!(SurfaceClass::from_material_index(10), None);
}

#[test]
fn wall_mounts_cut_one_target_at_most() {
    assert!(!wall_mount_cuts_terrain(WallMountStyle::NoMount, WallMountTarget::Terrain));
    assert!(wall_mount_cuts_terrain(WallMountStyle::StraightPin, WallMountTarget::Terrain));
    assert!(!wall_mount_cuts_tray(WallMountStyle::StraightPin, WallMountTarget::Terrain));
    assert!(wall_mount_cuts_tray(WallMountStyle::FrenchCleat, WallMountTarget::Tray));
    assert!(!puzzle_retention_active(true, false));
    assert!(puzzle_retention_active(true, true));
    assert!(valid_wall_mount_pin_count(2));
    assert!(!valid_wall_mount_pin_count(0));
    assert!(!valid_wall_mount_pin_count(3));
}

fn wonderland() -> TrailRoute {
    TrailRoute { name: "Wonderland Trail".to_string(), point_count: 2 }
}

#[test]
fn trails_activate_color_materials_on_their_own() {
    let mut spec = GenerationSettings::default();
    spec.color.enabled = false;
    assert!(!spec.uses_color_materials());
    spec.trails = vec![wonderland()];
    assert!(spec.uses_color_materials());
}

#[test]
fn each_rail_layer_toggles_and_colors_on_its_own() {
    let mut spec = GenerationSettings::default();
    spec.color.enabled = true;
    spec.color.rail_style = RailStyle::WithRoads;
    spec.color.aerial_style = AerialStyle::WithRail;

    spec.color.rail_enabled = false;
    assert!(!spec.uses_rail());
    assert!(spec.uses_aerial(), "lifts survive switching off trains");
    spec.color.rail_enabled = true;
    spec.color.aerial_enabled = false;
    assert!(spec.uses_rail(), "trains survive switching off lifts");
    assert!(!spec.uses_aerial());
    spec.color.aerial_enabled = true;

    spec.color.rail_style = RailStyle::Separate;
    assert!(spec.uses_separate_rail());
    assert!(!spec.uses_separate_aerial(), "an aerial layer left on with_rail shares the rail slot");
    let palette = spec.material_palette(None);
    assert_eq!(palette.len(), 7);
    assert_eq!(palette.colors()[6], "#C43D3D");
    assert_eq!(palette.slot(SurfaceClass::Rail), Some(6));
    assert_eq!(palette.slot(SurfaceClass::Trail), None);
    assert_eq!(palette.slot(SurfaceClass::Building), Some(5));

    spec.color.aerial_style = AerialStyle::Separate;
    assert!(spec.uses_separate_aerial());
    let palette = spec.material_palette(None);
    assert_eq!(palette.len(), 8);
    assert_eq!(palette.colors()[7], "#6C4CB6");
    assert_eq!(palette.slot(SurfaceClass::Aerial), Some(7));
    assert_eq!(palette.slot(SurfaceClass::Trail), None);

    spec.color.rail_style = RailStyle::WithRoads;
    let palette = spec.material_palette(None);
    assert_eq!(palette.len(), 7);
    assert_eq!(palette.colors()[6], "#6C4CB6");
    assert_eq!(palette.slot(SurfaceClass::Rail), None);
    assert_eq!(palette.slot(SurfaceClass::Aerial), Some(6));

    spec.trails = vec![wonderland()];
    let palette = spec.material_palette(None);
    assert_eq!(palette.len(), 8);
    assert_eq!(palette.slot(SurfaceClass::Trail), Some(6));
    assert_eq!(palette.slot(SurfaceClass::Aerial), Some(7));

    spec.trails.clear();
    spec.color.aerial_enabled = false;
    spec.color.rail_enabled = false;
    assert_eq!(spec.material_palette(None).len(), 6);
}
