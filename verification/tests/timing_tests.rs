use toposaic::classes::SurfaceClass;
use toposaic::surface::{SurfaceField, VectorAreaClass};
use toposaic::timing::{
    slowest_pieces, summarize_geometry_timing, summarize_piece_timings, BuildingTiming, PieceTiming, RoadTiming,
};

fn pieces() -> Vec<PieceTiming> {
    vec![
        PieceTiming {
            row: 0,
            column: 1,
            samples: 32,
            terrain_us: 1_000,
            total_us: 9_000,
            vertices: 100,
            triangles: 200,
            ..PieceTiming::default()
        },
        PieceTiming {
            row: 2,
            column: 3,
            samples: 48,
            terrain_us: 2_000,
            total_us: 12_000,
            vertices: 300,
            triangles: 500,
            ..PieceTiming::default()
        },
    ]
}

#[test]
fn piece_timings_add_up_and_bound_their_samples() {
    let totals = summarize_piece_timings(&pieces());
    assert_eq!(totals.piece_count, 2);
    assert_eq!(totals.work_us, 21_000);
    assert_eq!(totals.terrain_us, 3_000);
    assert_eq!(totals.minimum_samples, 32);
    assert_eq!(totals.maximum_samples, 48);
    assert_eq!(totals.vertices, 400);
    assert_eq!(totals.triangles, 700);
    let empty = summarize_piece_timings(&Vec::new());
    assert_eq!(empty.minimum_samples, 0);
    assert_eq!(empty.maximum_samples, 0);
}

#[test]
fn slowest_pieces_come_first() {
    let picked = slowest_pieces(&pieces(), 8);
    assert_eq!(picked, vec![1, 0]);
    let many = (0..20)
        .map(|index| PieceTiming { total_us: (index * 7 % 20) as u64, ..PieceTiming::default() })
        .collect::<Vec<_>>();
    let picked = slowest_pieces(&many, 8);
    assert_eq!(picked.len(), 8);
    let totals = picked.iter().map(|&index| many[index].total_us).collect::<Vec<_>>();
    assert_eq!(totals, vec![19, 18, 17, 16, 15, 14, 13, 12]);
}

fn ms(microseconds: u128) -> f64 {
    microseconds as f64 / 1_000.0
}

#[test]
fn sums_parallel_work_and_sorts_slow_pieces() {
    let pieces = vec![
        PieceTiming {
            row: 0,
            column: 1,
            samples: 32,
            terrain_us: 1_000,
            buildings: Some(BuildingTiming {
                candidate_count: 4,
                clipped_count: 3,
                component_count: 2,
                total_us: 3_000,
                ..BuildingTiming::default()
            }),
            roads: Some(RoadTiming {
                line_count: 6,
                ribbon_clip_count: 5,
                total_us: 4_000,
                ..RoadTiming::default()
            }),
            total_us: 9_000,
            vertices: 100,
            triangles: 200,
            ..PieceTiming::default()
        },
        PieceTiming {
            row: 2,
            column: 3,
            samples: 48,
            terrain_us: 2_000,
            total_us: 12_000,
            vertices: 300,
            triangles: 500,
            ..PieceTiming::default()
        },
    ];

    let summary = summarize_geometry_timing(&pieces, None, 10_000, 2_000, 500);

    assert_eq!(ms(summary.wall_us.into()), 10.0);
    assert_eq!(ms(summary.totals.work_us), 21.0);
    assert_eq!(ms(summary.totals.terrain_us), 3.0);
    assert_eq!(ms(summary.totals.buildings_us), 3.0);
    assert_eq!(ms(summary.totals.roads_us), 4.0);
    assert_eq!(summary.totals.minimum_samples, 32);
    assert_eq!(summary.totals.maximum_samples, 48);
    assert_eq!(summary.totals.building_candidates, 4);
    assert_eq!(summary.totals.line_candidates, 6);
    assert_eq!(summary.totals.ribbon_clips, 5);
    assert_eq!(summary.totals.vertices, 400);
    assert_eq!(summary.totals.triangles, 700);
    assert_eq!(summary.slowest_pieces[0].row, 3);
    assert_eq!(summary.slowest_pieces[0].column, 4);
}

#[test]
fn stage_counts_and_cache_hits_add_up() {
    let piece = |hit: bool| PieceTiming {
        buildings: Some(BuildingTiming { cache_hit: hit, shell_us: 7, ..BuildingTiming::default() }),
        roads: Some(RoadTiming { cache_hit: !hit, aviation_us: 5, obstacle_cutback_count: 2, ..RoadTiming::default() }),
        ..PieceTiming::default()
    };
    let pieces = vec![piece(true), piece(true), piece(false), PieceTiming::default()];
    let summary = summarize_geometry_timing(&pieces, None, 0, 0, 0);
    assert_eq!(summary.totals.building_cache_hits, 2);
    assert_eq!(summary.totals.road_cache_hits, 1);
    assert_eq!(summary.totals.building_shell_us, 21);
    assert_eq!(summary.totals.aviation_us, 15);
    assert_eq!(summary.totals.obstacle_cutbacks, 6);
    assert_eq!(summary.source_building_count, 0);
    assert_eq!(summary.slowest_pieces.len(), 4);
    assert_eq!(summary.slowest_pieces[3].buildings_us, 0);
}

#[test]
fn source_counts_come_from_the_surface_field() {
    let mut field = SurfaceField::new(2, 2, vec![SurfaceClass::Rock; 4], "test".to_string()).unwrap();
    field.record_vector_line(SurfaceClass::Road);
    field.record_vector_area(VectorAreaClass { class: Some(SurfaceClass::Water), building: false });
    field.record_vector_area(VectorAreaClass { class: None, building: true });
    field.record_vector_area(VectorAreaClass { class: Some(SurfaceClass::Building), building: true });
    let summary = summarize_geometry_timing(&Vec::new(), Some(&field), 1, 2, 3);
    assert_eq!(summary.source_line_count, 1);
    assert_eq!(summary.source_area_count, 3);
    assert_eq!(summary.source_building_count, 2);
    assert_eq!((summary.wall_us, summary.tray_us, summary.serialization_us), (1, 2, 3));
    assert!(summary.slowest_pieces.is_empty());
}
