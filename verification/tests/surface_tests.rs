use toposaic::classes::SurfaceClass;
use toposaic::surface::{check_native_grid_shape, SampleSlope, SurfaceError, SurfaceField, VectorAreaClass};

fn minimum_patch_cells(print_width_mm: f32, minimum_patch_mm: f32, width: usize) -> usize {
    let cells_across = minimum_patch_mm / print_width_mm.max(f32::EPSILON) * (width - 1) as f32;
    (std::f32::consts::PI * (cells_across * 0.5).powi(2)).ceil().max(2.0) as usize
}

#[test]
fn surface_filter_removes_tiny_color_islands() {
    let mut classes = vec![SurfaceClass::Forest; 25];
    classes[12] = SurfaceClass::Snow;
    let mut field = SurfaceField::new(5, 5, classes, "test".to_string()).unwrap();
    field.filter_small_patches_cells(minimum_patch_cells(10.0, 4.0, 5));
    assert_eq!(field.classes[12], SurfaceClass::Forest);
}

#[test]
fn restoring_raster_edges_keeps_tile_local_changes_inside() {
    let classes = (0_usize..25)
        .map(|index| if index % 2 == 0 { SurfaceClass::Forest } else { SurfaceClass::Rock })
        .collect::<Vec<_>>();
    let mut field = SurfaceField::new(5, 5, classes.clone(), "test".to_string()).unwrap();
    let edges = field.raster_edge_classes();
    field.classes.fill(SurfaceClass::Snow);
    field.base_classes.fill(SurfaceClass::Snow);

    field.restore_raster_edge_classes(&edges).unwrap();

    assert_eq!(field.classes[2 * 5 + 2], SurfaceClass::Snow);
    for column in 0..5 {
        assert_eq!(field.classes[column], classes[column]);
        assert_eq!(field.classes[4 * 5 + column], classes[4 * 5 + column]);
    }
    for row in 1..4 {
        assert_eq!(field.classes[row * 5], classes[row * 5]);
        assert_eq!(field.classes[row * 5 + 4], classes[row * 5 + 4]);
    }
    assert_eq!(field.classes, field.base_classes);
}

#[test]
fn surface_fields_reject_bad_dimensions() {
    let too_small = SurfaceField::new(1, 5, vec![SurfaceClass::Rock; 5], "t".to_string());
    assert_eq!(too_small.err(), Some(SurfaceError::TooSmall));
    let mismatch = SurfaceField::new(3, 3, vec![SurfaceClass::Rock; 8], "t".to_string());
    assert_eq!(mismatch.err(), Some(SurfaceError::DimensionMismatch));
    assert_eq!(SurfaceError::TooSmall.message(), "surface field must be at least 2 by 2");
    assert_eq!(SurfaceError::DimensionMismatch.message(), "surface field dimensions do not match its values");
}

#[test]
fn edge_ring_walks_clockwise_from_the_first_cell() {
    let classes = vec![
        SurfaceClass::Rock, SurfaceClass::Forest, SurfaceClass::Snow,
        SurfaceClass::Water, SurfaceClass::Road, SurfaceClass::Building,
        SurfaceClass::Trail, SurfaceClass::Rail, SurfaceClass::Aerial,
    ];
    let field = SurfaceField::new(3, 3, classes, "t".to_string()).unwrap();
    assert_eq!(
        field.raster_edge_classes(),
        vec![
            SurfaceClass::Rock, SurfaceClass::Forest, SurfaceClass::Snow,
            SurfaceClass::Building,
            SurfaceClass::Aerial, SurfaceClass::Rail, SurfaceClass::Trail,
            SurfaceClass::Water,
        ]
    );
}

#[test]
fn restoring_a_short_ring_changes_nothing() {
    let mut field = SurfaceField::new(3, 3, vec![SurfaceClass::Rock; 9], "t".to_string()).unwrap();
    let error = field.restore_raster_edge_classes(&vec![SurfaceClass::Snow; 7]).unwrap_err();
    assert_eq!(error, SurfaceError::EdgeRingMismatch);
    assert_eq!(error.message(), "surface edge ring does not match field dimensions");
    assert_eq!(field.classes, vec![SurfaceClass::Rock; 9]);
}

#[test]
fn capturing_then_restoring_the_ring_keeps_the_raster() {
    let classes = (0_usize..20)
        .map(|index| if index % 3 == 0 { SurfaceClass::Water } else { SurfaceClass::Forest })
        .collect::<Vec<_>>();
    let mut field = SurfaceField::new(5, 4, classes.clone(), "t".to_string()).unwrap();
    let ring = field.raster_edge_classes();
    assert_eq!(ring.len(), 2 * 5 + 2 * 2);
    field.restore_raster_edge_classes(&ring).unwrap();
    assert_eq!(field.classes, classes);
}

#[test]
fn small_patches_take_the_commonest_bordering_class() {
    // A two-cell snow patch bordered by water on three sides and forest elsewhere.
    let f = SurfaceClass::Forest;
    let w = SurfaceClass::Water;
    let s = SurfaceClass::Snow;
    let classes = vec![
        f, w, w, f,
        w, s, s, w,
        f, f, f, f,
        f, f, f, f,
    ];
    let mut field = SurfaceField::new(4, 4, classes, "t".to_string()).unwrap();
    field.filter_components_smaller_than(3);
    assert_eq!(field.classes[5], SurfaceClass::Water);
    assert_eq!(field.classes[6], SurfaceClass::Water);
    // Lone forest corners bordered only by water become water too; the big
    // forest region stays.
    assert_eq!(field.classes[0], SurfaceClass::Water);
    assert_eq!(field.classes[3], SurfaceClass::Water);
    assert_eq!(field.classes[12], SurfaceClass::Forest);
}

#[test]
fn filtering_ties_go_to_the_earlier_class() {
    // One cell bordered twice by rock and twice by forest: rock comes first.
    let r = SurfaceClass::Rock;
    let f = SurfaceClass::Forest;
    let s = SurfaceClass::Snow;
    let classes = vec![
        r, r, f,
        r, s, f,
        f, f, f,
    ];
    let mut field = SurfaceField::new(3, 3, classes, "t".to_string()).unwrap();
    field.filter_components_smaller_than(2);
    assert_eq!(field.classes[4], SurfaceClass::Rock);
}

#[test]
fn a_minimum_of_one_cell_changes_nothing() {
    let classes = (0_usize..12)
        .map(|index| if index % 2 == 0 { SurfaceClass::Snow } else { SurfaceClass::Road })
        .collect::<Vec<_>>();
    let mut field = SurfaceField::new(4, 3, classes.clone(), "t".to_string()).unwrap();
    field.filter_components_smaller_than(1);
    assert_eq!(field.classes, classes);
}

#[test]
fn contained_classes_cover_rasters_lines_and_areas() {
    let mut field = SurfaceField::new(2, 2, vec![SurfaceClass::Rock; 4], "t".to_string()).unwrap();
    field.base_classes[0] = SurfaceClass::Snow;
    field.record_vector_line(SurfaceClass::Rail);
    field.record_vector_area(VectorAreaClass { class: Some(SurfaceClass::Water), building: false });
    field.record_vector_area(VectorAreaClass { class: None, building: true });
    let present = field.contained_classes();
    let expected = vec![true, false, true, true, false, true, false, true, false, false];
    assert_eq!(present, expected);
}

#[test]
fn steep_gates_split_forest_at_the_snowline_and_regate_snow() {
    let mut field = SurfaceField::new(
        2,
        2,
        vec![SurfaceClass::Forest, SurfaceClass::Forest, SurfaceClass::Forest, SurfaceClass::Snow],
        "t".to_string(),
    )
    .unwrap();
    let slopes = vec![
        SampleSlope { forest_too_steep: true, snow_too_steep: false, above_snowline: false },
        SampleSlope { forest_too_steep: true, snow_too_steep: false, above_snowline: true },
        SampleSlope { forest_too_steep: true, snow_too_steep: true, above_snowline: true },
        SampleSlope { forest_too_steep: false, snow_too_steep: false, above_snowline: true },
    ];
    let demoted = field.demote_steep_samples(&slopes);
    assert_eq!(
        field.classes,
        vec![SurfaceClass::Rock, SurfaceClass::Snow, SurfaceClass::Rock, SurfaceClass::Snow]
    );
    assert_eq!(demoted.forest_to_rock, 1);
    assert_eq!(demoted.forest_to_snow, 2);
    assert_eq!(demoted.snow_to_rock, 1);
    assert_eq!(demoted.total(), 4);
    assert_eq!(field.base_classes, field.classes);
}

#[test]
fn gentle_slopes_leave_the_rasters_alone() {
    let mut field = SurfaceField::new(2, 2, vec![SurfaceClass::Forest; 4], "t".to_string()).unwrap();
    field.base_classes[0] = SurfaceClass::Water;
    let gentle = SampleSlope { forest_too_steep: false, snow_too_steep: false, above_snowline: true };
    let demoted = field.demote_steep_samples(&vec![gentle; 4]);
    assert_eq!(demoted.total(), 0);
    assert_eq!(field.classes, vec![SurfaceClass::Forest; 4]);
    assert_eq!(field.base_classes[0], SurfaceClass::Water);
}

#[test]
fn native_grids_need_two_by_two_and_matching_classes() {
    assert_eq!(check_native_grid_shape(2, 3, 6), Ok(()));
    assert_eq!(check_native_grid_shape(1, 3, 3), Err("native class grid must be at least 2 by 2".to_string()));
    assert_eq!(
        check_native_grid_shape(3, 3, 8),
        Err("native class grid dimensions do not match its values".to_string())
    );
    assert_eq!(
        check_native_grid_shape(usize::MAX, 2, 4),
        Err("native class grid dimensions do not match its values".to_string())
    );
}
