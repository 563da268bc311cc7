//! Build timing: elapsed microseconds, per-piece totals and the slowest pieces.
use vstd::prelude::*;
use std::time::Instant;
use crate::surface::{SurfaceField, VectorAreaClass};

verus! {

/// `std::time::Instant`, a reading of the monotonic clock.
#[verifier::external_type_specification]
#[verifier::external_body]
pub struct ExInstant(Instant);

/// `Instant::elapsed` followed by `Duration::as_micros`: microseconds since
/// `started`. It reads the clock, so nothing is claimed of the value.
#[verifier::external_body]
fn micros_since(started: &Instant) -> u128 {
    started.elapsed().as_micros()
}

/// A microsecond count as `u64`, saturating at `u64::MAX`.
pub fn micros_as_u64(micros: u128) -> (us: u64)
    ensures
        us == if micros > u64::MAX { u64::MAX as int } else { micros as int },
{
    if micros > u64::MAX as u128 {
        u64::MAX
    } else {
        micros as u64
    }
}

/// Whole microseconds since `started`, saturating at `u64::MAX`.
pub fn elapsed_us(started: Instant) -> u64 {
    micros_as_u64(micros_since(&started))
}

/// What one piece's building stage reports, when it ran.
#[derive(Debug, Clone, Copy, PartialEq, Eq, Default, Structural)]
pub struct BuildingTiming {
    pub candidate_count: usize,
    pub clipped_count: usize,
    pub component_count: usize,
    pub selection_us: u64,
    pub clipping_us: u64,
    pub union_us: u64,
    pub obstacle_us: u64,
    pub assignment_us: u64,
    pub shell_us: u64,
    pub total_us: u64,
    pub cache_hit: bool,
}

/// What one piece's road stage reports, when it ran.
#[derive(Debug, Clone, Copy, PartialEq, Eq, Default, Structural)]
pub struct RoadTiming {
    pub line_count: usize,
    pub ribbon_clip_count: usize,
    pub obstacle_cutback_count: usize,
    pub obstacle_us: u64,
    pub ribbon_clip_work_us: u64,
    pub building_cutback_work_us: u64,
    pub aviation_us: u64,
    pub total_us: u64,
    pub cache_hit: bool,
}

/// The timings and sizes one piece's geometry build reports.
#[derive(Debug, Clone, Copy, PartialEq, Eq, Default, Structural)]
pub struct PieceTiming {
    pub row: u32,
    pub column: u32,
    pub samples: usize,
    pub terrain_us: u64,
    pub buildings: Option<BuildingTiming>,
    pub roads: Option<RoadTiming>,
    pub markers_us: u64,
    pub labels_us: u64,
    pub weld_us: u64,
    pub total_us: u64,
    pub vertices: usize,
    pub triangles: usize,
}

/// Sums and extremes over all pieces of a build. Times are microseconds
/// of work summed over pieces, counts are summed over pieces.
#[derive(Debug, Clone, Copy, PartialEq, Eq, Structural)]
pub struct TimingTotals {
    pub piece_count: usize,
    pub work_us: u128,
    pub terrain_us: u128,
    pub buildings_us: u128,
    pub building_selection_us: u128,
    pub building_clipping_us: u128,
    pub building_union_us: u128,
    pub building_obstacle_us: u128,
    pub building_assignment_us: u128,
    pub building_shell_us: u128,
    pub building_cache_hits: u128,
    pub roads_us: u128,
    pub road_obstacle_us: u128,
    pub road_ribbon_clip_us: u128,
    pub road_building_cutback_us: u128,
    pub road_cache_hits: u128,
    pub aviation_us: u128,
    pub markers_us: u128,
    pub labels_us: u128,
    pub weld_us: u128,
    pub minimum_samples: usize,
    pub maximum_samples: usize,
    pub building_candidates: u128,
    pub clipped_buildings: u128,
    pub building_components: u128,
    pub line_candidates: u128,
    pub ribbon_clips: u128,
    pub obstacle_cutbacks: u128,
    pub vertices: u128,
    pub triangles: u128,
}

/// A per-piece quantity that the totals add up.
#[derive(Debug, Clone, Copy, PartialEq, Eq, Structural)]
pub enum TimingField {
    Work,
    Terrain,
    Markers,
    Labels,
    Weld,
    Vertices,
    Triangles,
    Buildings,
    BuildingSelection,
    BuildingClipping,
    BuildingUnion,
    BuildingObstacle,
    BuildingAssignment,
    BuildingShell,
    BuildingCacheHits,
    BuildingCandidates,
    ClippedBuildings,
    BuildingComponents,
    Roads,
    RoadObstacle,
    RoadRibbonClip,
    RoadBuildingCutback,
    RoadCacheHits,
    Aviation,
    LineCandidates,
    RibbonClips,
    ObstacleCutbacks,
}

/// The reading of a building-stage `field`: 0 when the stage did not run
/// or the field is not one of its own; a cache hit counts as 1.
pub open spec fn building_value(stage: Option<BuildingTiming>, field: TimingField) -> int {
    match stage {
        None => 0,
        Some(b) => match field {
            TimingField::Buildings => b.total_us as int,
            TimingField::BuildingSelection => b.selection_us as int,
            TimingField::BuildingClipping => b.clipping_us as int,
            TimingField::BuildingUnion => b.union_us as int,
            TimingField::BuildingObstacle => b.obstacle_us as int,
            TimingField::BuildingAssignment => b.assignment_us as int,
            TimingField::BuildingShell => b.shell_us as int,
            TimingField::BuildingCacheHits => if b.cache_hit { 1 } else { 0 },
            TimingField::BuildingCandidates => b.candidate_count as int,
            TimingField::ClippedBuildings => b.clipped_count as int,
            TimingField::BuildingComponents => b.component_count as int,
            _ => 0,
        },
    }
}

/// The reading of a road-stage `field`: 0 when the stage did not run or the
/// field is not one of its own; a cache hit counts as 1.
pub open spec fn road_value(stage: Option<RoadTiming>, field: TimingField) -> int {
    match stage {
        None => 0,
        Some(r) => match field {
            TimingField::Roads => r.total_us as int,
            TimingField::RoadObstacle => r.obstacle_us as int,
            TimingField::RoadRibbonClip => r.ribbon_clip_work_us as int,
            TimingField::RoadBuildingCutback => r.building_cutback_work_us as int,
            TimingField::RoadCacheHits => if r.cache_hit { 1 } else { 0 },
            TimingField::Aviation => r.aviation_us as int,
            TimingField::LineCandidates => r.line_count as int,
            TimingField::RibbonClips => r.ribbon_clip_count as int,
            TimingField::ObstacleCutbacks => r.obstacle_cutback_count as int,
            _ => 0,
        },
    }
}

/// The value of `field` for one piece.
pub open spec fn field_value(t: PieceTiming, field: TimingField) -> int {
    match field {
        TimingField::Work => t.total_us as int,
        TimingField::Terrain => t.terrain_us as int,
        TimingField::Markers => t.markers_us as int,
        TimingField::Labels => t.labels_us as int,
        TimingField::Weld => t.weld_us as int,
        TimingField::Vertices => t.vertices as int,
        TimingField::Triangles => t.triangles as int,
        _ => building_value(t.buildings, field) + road_value(t.roads, field),
    }
}

/// Sum of `field` over the first `n` pieces.
pub open spec fn total_of(p: Seq<PieceTiming>, field: TimingField, n: int) -> int
    decreases n,
{
    if n <= 0 {
        0
    } else {
        total_of(p, field, n - 1) + field_value(p[n - 1], field)
    }
}

/// Fewest samples among the first `n` pieces (0 for none).
pub open spec fn min_samples(p: Seq<PieceTiming>, n: int) -> int
    decreases n,
{
    if n <= 0 {
        0
    } else if n == 1 {
        p[0].samples as int
    } else {
        let rest = min_samples(p, n - 1);
        if (p[n - 1].samples as int) < rest { p[n - 1].samples as int } else { rest }
    }
}

/// Most samples among the first `n` pieces (0 for none).
pub open spec fn max_samples(p: Seq<PieceTiming>, n: int) -> int
    decreases n,
{
    if n <= 0 {
        0
    } else {
        let rest = max_samples(p, n - 1);
        if (p[n - 1].samples as int) > rest { p[n - 1].samples as int } else { rest }
    }
}

/// One piece's reading never exceeds `u64::MAX`.
proof fn lemma_field_bounded(t: PieceTiming, field: TimingField)
    ensures
        0 <= field_value(t, field) <= u64::MAX,
{
}

/// The sum over `n` timings fits in `n` times the range of one.
proof fn lemma_total_bounded(p: Seq<PieceTiming>, field: TimingField, n: int)
    requires
        0 <= n <= p.len(),
    ensures
        0 <= total_of(p, field, n) <= n * 0xffff_ffff_ffff_ffff,
    decreases n,
{
    if n > 0 {
        lemma_total_bounded(p, field, n - 1);
        lemma_field_bounded(p[n - 1], field);
        assert((n - 1) * 0xffff_ffff_ffff_ffff + 0xffff_ffff_ffff_ffff == n * 0xffff_ffff_ffff_ffff)
            by (nonlinear_arith);
    }
}

/// A building-stage reading of one piece.
fn building_reading(stage: Option<BuildingTiming>, field: TimingField) -> (v: u64)
    ensures
        v == building_value(stage, field),
{
    match stage {
        None => 0,
        Some(b) => match field {
            TimingField::Buildings => b.total_us,
            TimingField::BuildingSelection => b.selection_us,
            TimingField::BuildingClipping => b.clipping_us,
            TimingField::BuildingUnion => b.union_us,
            TimingField::BuildingObstacle => b.obstacle_us,
            TimingField::BuildingAssignment => b.assignment_us,
            TimingField::BuildingShell => b.shell_us,
            TimingField::BuildingCacheHits => if b.cache_hit { 1 } else { 0 },
            TimingField::BuildingCandidates => b.candidate_count as u64,
            TimingField::ClippedBuildings => b.clipped_count as u64,
            TimingField::BuildingComponents => b.component_count as u64,
            _ => 0,
        },
    }
}

/// A road-stage reading of one piece.
fn road_reading(stage: Option<RoadTiming>, field: TimingField) -> (v: u64)
    ensures
        v == road_value(stage, field),
{
    match stage {
        None => 0,
        Some(r) => match field {
            TimingField::Roads => r.total_us,
            TimingField::RoadObstacle => r.obstacle_us,
            TimingField::RoadRibbonClip => r.ribbon_clip_work_us,
            TimingField::RoadBuildingCutback => r.building_cutback_work_us,
            TimingField::RoadCacheHits => if r.cache_hit { 1 } else { 0 },
            TimingField::Aviation => r.aviation_us,
            TimingField::LineCandidates => r.line_count as u64,
            TimingField::RibbonClips => r.ribbon_clip_count as u64,
            TimingField::ObstacleCutbacks => r.obstacle_cutback_count as u64,
            _ => 0,
        },
    }
}

/// The value of `field` for one piece.
pub fn piece_reading(t: &PieceTiming, field: TimingField) -> (v: u64)
    ensures
        v == field_value(*t, field),
{
    match field {
        TimingField::Work => t.total_us,
        TimingField::Terrain => t.terrain_us,
        TimingField::Markers => t.markers_us,
        TimingField::Labels => t.labels_us,
        TimingField::Weld => t.weld_us,
        TimingField::Vertices => t.vertices as u64,
        TimingField::Triangles => t.triangles as u64,
        _ => {
            let b = building_reading(t.buildings, field);
            let r = road_reading(t.roads, field);
            proof {
                lemma_field_bounded(*t, field);
            }
            b + r
        },
    }
}

/// The sum of `field` over all pieces.
pub fn field_total(pieces: &Vec<PieceTiming>, field: TimingField) -> (total: u128)
    ensures
        total == total_of(pieces@, field, pieces@.len() as int),
{
    let mut total: u128 = 0;
    let mut i: usize = 0;
    while i < pieces.len()
        invariant
            i <= pieces@.len(),
            total == total_of(pieces@, field, i as int),
        decreases pieces@.len() - i,
    {
        proof {
            let n = i + 1;
            lemma_total_bounded(pieces@, field, n);
            assert(n * 0xffff_ffff_ffff_ffff <= 0xffff_ffff_ffff_ffff * 0xffff_ffff_ffff_ffff) by (nonlinear_arith)
                requires
                    n <= 0xffff_ffff_ffff_ffff,
            ;
        }
        total = total + piece_reading(&pieces[i], field) as u128;
        i = i + 1;
    }
    total
}

/// The fewest and most samples any piece used (both 0 for no pieces).
pub fn sample_extremes(pieces: &Vec<PieceTiming>) -> (extremes: (usize, usize))
    ensures
        extremes.0 == min_samples(pieces@, pieces@.len() as int),
        extremes.1 == max_samples(pieces@, pieces@.len() as int),
{
    let mut minimum: usize = 0;
    let mut maximum: usize = 0;
    let mut i: usize = 0;
    while i < pieces.len()
        invariant
            i <= pieces@.len(),
            minimum == min_samples(pieces@, i as int),
            maximum == max_samples(pieces@, i as int),
        decreases pieces@.len() - i,
    {
        let samples = pieces[i].samples;
        if i == 0 || samples < minimum {
            minimum = samples;
        }
        if samples > maximum {
            maximum = samples;
        }
        i = i + 1;
    }
    (minimum, maximum)
}

/// The totals agree with summing each quantity over `p`.
pub open spec fn totals_of(p: Seq<PieceTiming>, t: TimingTotals) -> bool {
    let n = p.len() as int;
    &&& t.piece_count == n
    &&& t.work_us == total_of(p, TimingField::Work, n)
    &&& t.terrain_us == total_of(p, TimingField::Terrain, n)
    &&& t.buildings_us == total_of(p, TimingField::Buildings, n)
    &&& t.building_selection_us == total_of(p, TimingField::BuildingSelection, n)
    &&& t.building_clipping_us == total_of(p, TimingField::BuildingClipping, n)
    &&& t.building_union_us == total_of(p, TimingField::BuildingUnion, n)
    &&& t.building_obstacle_us == total_of(p, TimingField::BuildingObstacle, n)
    &&& t.building_assignment_us == total_of(p, TimingField::BuildingAssignment, n)
    &&& t.building_shell_us == total_of(p, TimingField::BuildingShell, n)
    &&& t.building_cache_hits == total_of(p, TimingField::BuildingCacheHits, n)
    &&& t.roads_us == total_of(p, TimingField::Roads, n)
    &&& t.road_obstacle_us == total_of(p, TimingField::RoadObstacle, n)
    &&& t.road_ribbon_clip_us == total_of(p, TimingField::RoadRibbonClip, n)
    &&& t.road_building_cutback_us == total_of(p, TimingField::RoadBuildingCutback, n)
    &&& t.road_cache_hits == total_of(p, TimingField::RoadCacheHits, n)
    &&& t.aviation_us == total_of(p, TimingField::Aviation, n)
    &&& t.markers_us == total_of(p, TimingField::Markers, n)
    &&& t.labels_us == total_of(p, TimingField::Labels, n)
    &&& t.weld_us == total_of(p, TimingField::Weld, n)
    &&& t.minimum_samples == min_samples(p, n)
    &&& t.maximum_samples == max_samples(p, n)
    &&& t.building_candidates == total_of(p, TimingField::BuildingCandidates, n)
    &&& t.clipped_buildings == total_of(p, TimingField::ClippedBuildings, n)
    &&& t.building_components == total_of(p, TimingField::BuildingComponents, n)
    &&& t.line_candidates == total_of(p, TimingField::LineCandidates, n)
    &&& t.ribbon_clips == total_of(p, TimingField::RibbonClips, n)
    &&& t.obstacle_cutbacks == total_of(p, TimingField::ObstacleCutbacks, n)
    &&& t.vertices == total_of(p, TimingField::Vertices, n)
    &&& t.triangles == total_of(p, TimingField::Triangles, n)
}

/// Sums over a prefix do not look past it.
proof fn lemma_prefix_sums(p: Seq<PieceTiming>, t: PieceTiming, k: int)
    requires
        0 <= k <= p.len(),
    ensures
        forall|f: TimingField| #[trigger] total_of(p.push(t), f, k) == total_of(p, f, k),
        min_samples(p.push(t), k) == min_samples(p, k),
        max_samples(p.push(t), k) == max_samples(p, k),
    decreases k,
{
    if k > 0 {
        lemma_prefix_sums(p, t, k - 1);
        assert(p.push(t)[k - 1] == p[k - 1]);
        assert forall|f: TimingField| #[trigger] total_of(p.push(t), f, k) == total_of(p, f, k) by {
            assert(total_of(p.push(t), f, k - 1) == total_of(p, f, k - 1));
        }
    }
}

/// The stage time or count a piece adds, 0 when the stage did not run.
pub open spec fn building_part(t: PieceTiming, read: spec_fn(BuildingTiming) -> int) -> int {
    match t.buildings {
        Some(b) => read(b),
        None => 0,
    }
}

/// The stage time or count a piece adds, 0 when the stage did not run.
pub open spec fn road_part(t: PieceTiming, read: spec_fn(RoadTiming) -> int) -> int {
    match t.roads {
        Some(r) => read(r),
        None => 0,
    }
}

/// One more piece adds its own readings to the summary: its `total_us` to
/// the work, its `terrain_us`, `markers_us`, `labels_us` and `weld_us` to
/// the totals of the same names, its sizes to the size totals, its building
/// and road stage readings (when those stages ran) to theirs, a cache hit
/// as one, and its samples to the extremes.
pub proof fn law_one_more_piece(p: Seq<PieceTiming>, t: PieceTiming, a: TimingTotals, b: TimingTotals)
    requires
        totals_of(p, a),
        totals_of(p.push(t), b),
    ensures
        b.piece_count == a.piece_count + 1,
        b.work_us == a.work_us + t.total_us,
        b.terrain_us == a.terrain_us + t.terrain_us,
        b.markers_us == a.markers_us + t.markers_us,
        b.labels_us == a.labels_us + t.labels_us,
        b.weld_us == a.weld_us + t.weld_us,
        b.vertices == a.vertices + t.vertices,
        b.triangles == a.triangles + t.triangles,
        b.buildings_us == a.buildings_us + building_part(t, |x: BuildingTiming| x.total_us as int),
        b.building_selection_us == a.building_selection_us + building_part(t, |x: BuildingTiming| x.selection_us as int),
        b.building_clipping_us == a.building_clipping_us + building_part(t, |x: BuildingTiming| x.clipping_us as int),
        b.building_union_us == a.building_union_us + building_part(t, |x: BuildingTiming| x.union_us as int),
        b.building_obstacle_us == a.building_obstacle_us + building_part(t, |x: BuildingTiming| x.obstacle_us as int),
        b.building_assignment_us == a.building_assignment_us + building_part(
            t,
            |x: BuildingTiming| x.assignment_us as int,
        ),
        b.building_shell_us == a.building_shell_us + building_part(t, |x: BuildingTiming| x.shell_us as int),
        b.building_cache_hits == a.building_cache_hits + building_part(
            t,
            |x: BuildingTiming| if x.cache_hit { 1int } else { 0int },
        ),
        b.building_candidates == a.building_candidates + building_part(t, |x: BuildingTiming| x.candidate_count as int),
        b.clipped_buildings == a.clipped_buildings + building_part(t, |x: BuildingTiming| x.clipped_count as int),
        b.building_components == a.building_components + building_part(t, |x: BuildingTiming| x.component_count as int),
        b.roads_us == a.roads_us + road_part(t, |x: RoadTiming| x.total_us as int),
        b.road_obstacle_us == a.road_obstacle_us + road_part(t, |x: RoadTiming| x.obstacle_us as int),
        b.road_ribbon_clip_us == a.road_ribbon_clip_us + road_part(t, |x: RoadTiming| x.ribbon_clip_work_us as int),
        b.road_building_cutback_us == a.road_building_cutback_us + road_part(
            t,
            |x: RoadTiming| x.building_cutback_work_us as int,
        ),
        b.road_cache_hits == a.road_cache_hits + road_part(t, |x: RoadTiming| if x.cache_hit { 1int } else { 0int }),
        b.aviation_us == a.aviation_us + road_part(t, |x: RoadTiming| x.aviation_us as int),
        b.line_candidates == a.line_candidates + road_part(t, |x: RoadTiming| x.line_count as int),
        b.ribbon_clips == a.ribbon_clips + road_part(t, |x: RoadTiming| x.ribbon_clip_count as int),
        b.obstacle_cutbacks == a.obstacle_cutbacks + road_part(t, |x: RoadTiming| x.obstacle_cutback_count as int),
        b.maximum_samples == if t.samples > a.maximum_samples { t.samples } else { a.maximum_samples },
        b.minimum_samples == if p.len() == 0 || t.samples < a.minimum_samples {
            t.samples
        } else {
            a.minimum_samples
        },
{
    let n = p.len() as int;
    lemma_prefix_sums(p, t, n);
    assert(p.push(t)[n] == t);
    assert forall|f: TimingField| #[trigger] total_of(p.push(t), f, n + 1) == total_of(p, f, n) + field_value(t, f) by {
        assert(total_of(p.push(t), f, n) == total_of(p, f, n));
    }
    assert(p.push(t).len() == n + 1);
}

/// Adds up the per-piece timings and counts and finds the sample extremes.
pub fn summarize_piece_timings(pieces: &Vec<PieceTiming>) -> (totals: TimingTotals)
    ensures
        totals_of(pieces@, totals),
{
    let (minimum_samples, maximum_samples) = sample_extremes(pieces);
    TimingTotals {
        piece_count: pieces.len(),
        work_us: field_total(pieces, TimingField::Work),
        terrain_us: field_total(pieces, TimingField::Terrain),
        buildings_us: field_total(pieces, TimingField::Buildings),
        building_selection_us: field_total(pieces, TimingField::BuildingSelection),
        building_clipping_us: field_total(pieces, TimingField::BuildingClipping),
        building_union_us: field_total(pieces, TimingField::BuildingUnion),
        building_obstacle_us: field_total(pieces, TimingField::BuildingObstacle),
        building_assignment_us: field_total(pieces, TimingField::BuildingAssignment),
        building_shell_us: field_total(pieces, TimingField::BuildingShell),
        building_cache_hits: field_total(pieces, TimingField::BuildingCacheHits),
        roads_us: field_total(pieces, TimingField::Roads),
        road_obstacle_us: field_total(pieces, TimingField::RoadObstacle),
        road_ribbon_clip_us: field_total(pieces, TimingField::RoadRibbonClip),
        road_building_cutback_us: field_total(pieces, TimingField::RoadBuildingCutback),
        road_cache_hits: field_total(pieces, TimingField::RoadCacheHits),
        aviation_us: field_total(pieces, TimingField::Aviation),
        markers_us: field_total(pieces, TimingField::Markers),
        labels_us: field_total(pieces, TimingField::Labels),
        weld_us: field_total(pieces, TimingField::Weld),
        minimum_samples,
        maximum_samples,
        building_candidates: field_total(pieces, TimingField::BuildingCandidates),
        clipped_buildings: field_total(pieces, TimingField::ClippedBuildings),
        building_components: field_total(pieces, TimingField::BuildingComponents),
        line_candidates: field_total(pieces, TimingField::LineCandidates),
        ribbon_clips: field_total(pieces, TimingField::RibbonClips),
        obstacle_cutbacks: field_total(pieces, TimingField::ObstacleCutbacks),
        vertices: field_total(pieces, TimingField::Vertices),
        triangles: field_total(pieces, TimingField::Triangles),
    }
}

/// `picked` lists up to `limit` slowest pieces of `p`, slowest first:
/// `min(limit, |p|)` distinct indices, in non-increasing total time, and no
/// piece left out is slower than any piece taken. Ties may go either way.
pub open spec fn is_slowest_pick(p: Seq<PieceTiming>, picked: Seq<usize>, limit: int) -> bool {
    &&& picked.len() == if p.len() < limit { p.len() as int } else { limit }
    &&& forall|a: int| 0 <= a < picked.len() ==> #[trigger] picked[a] < p.len()
    &&& forall|a: int, b: int| 0 <= a < b < picked.len() ==> #[trigger] picked[a] != #[trigger] picked[b]
    &&& forall|a: int, b: int|
        0 <= a < b < picked.len() ==> p[#[trigger] picked[a] as int].total_us >= p[#[trigger] picked[b] as int].total_us
    &&& forall|j: int, a: int|
        #![trigger p[j], picked[a]]
        0 <= j < p.len() && 0 <= a < picked.len() && !picked.contains(j as usize) ==> p[j].total_us
            <= p[picked[a] as int].total_us
}

/// Indices of up to `limit` slowest pieces, slowest first.
pub fn slowest_pieces(pieces: &Vec<PieceTiming>, limit: usize) -> (picked: Vec<usize>)
    ensures
        is_slowest_pick(pieces@, picked@, limit as int),
{
    let n = pieces.len();
    let target = if n < limit { n } else { limit };
    let mut taken: Vec<bool> = Vec::new();
    let mut k: usize = 0;
    while k < n
        invariant
            n == pieces@.len(),
            k <= n,
            taken@.len() == k,
            forall|j: int| 0 <= j < k ==> !#[trigger] taken@[j],
        decreases n - k,
    {
        taken.push(false);
        k = k + 1;
    }
    let mut picked: Vec<usize> = Vec::new();
    while picked.len() < target
        invariant
            n == pieces@.len(),
            target <= n,
            picked@.len() <= target,
            taken@.len() == n,
            forall|a: int| 0 <= a < picked@.len() ==> #[trigger] picked@[a] < n,
            forall|j: int| 0 <= j < n ==> (#[trigger] taken@[j] <==> picked@.contains(j as usize)),
            forall|a: int, b: int| 0 <= a < b < picked@.len() ==> #[trigger] picked@[a] != #[trigger] picked@[b],
            forall|a: int, b: int|
                0 <= a < b < picked@.len() ==> pieces@[#[trigger] picked@[a] as int].total_us >= pieces@[#[trigger] picked@[b] as int].total_us,
            forall|j: int, a: int|
                #![trigger taken@[j], picked@[a]]
                0 <= j < n && 0 <= a < picked@.len() && !taken@[j] ==> pieces@[j].total_us <= pieces@[picked@[a] as int].total_us,
        decreases target - picked@.len(),
    {
        // Some piece is still free: fewer are picked than there are pieces.
        proof {
            if forall|j: int| 0 <= j < n ==> #[trigger] taken@[j] {
                assert forall|x: usize| x < n implies #[trigger] picked@.contains(x) by {
                    assert(taken@[x as int]);
                }
                lemma_free_index_exists(picked@, n);
            }
        }
        let mut best: usize = n;
        let mut j: usize = 0;
        while j < n
            invariant
                n == pieces@.len(),
                taken@.len() == n,
                j <= n,
                best == n || (best < j && !taken@[best as int]),
                best == n ==> forall|q: int| 0 <= q < j ==> #[trigger] taken@[q],
                best < n ==> forall|q: int| 0 <= q < j && !taken@[q] ==> pieces@[q].total_us <= pieces@[best as int].total_us,
            decreases n - j,
        {
            if !taken[j] {
                if best == n || pieces[j].total_us > pieces[best].total_us {
                    best = j;
                }
            }
            j = j + 1;
        }
        proof {
            if best == n {
                assert(exists|q: int| 0 <= q < n && !taken@[q]);
            }
        }
        let ghost before = picked@;
        taken.set(best, true);
        picked.push(best);
        proof {
            assert forall|q: int| 0 <= q < n implies (#[trigger] taken@[q] <==> picked@.contains(q as usize)) by {
                if q == best as int {
                    assert(picked@[picked@.len() - 1] == best);
                } else {
                    if before.contains(q as usize) {
                        let u = choose|u: int| 0 <= u < before.len() && before[u] == q as usize;
                        assert(picked@[u] == q as usize);
                    }
                    if picked@.contains(q as usize) {
                        let u = choose|u: int| 0 <= u < picked@.len() && picked@[u] == q as usize;
                        if u < before.len() {
                            assert(before[u] == q as usize);
                        }
                    }
                }
            }
            assert forall|a: int, b: int| 0 <= a < b < picked@.len() implies #[trigger] picked@[a] != #[trigger] picked@[b] by {
                if b == picked@.len() - 1 {
                    assert(before.contains(picked@[a]));
                    assert(taken@[picked@[a] as int] || picked@[a] == best);
                }
            }
        }
    }
    proof {
        assert forall|j: int, a: int|
            #![trigger pieces@[j], picked@[a]]
            0 <= j < pieces@.len() && 0 <= a < picked@.len() && !picked@.contains(j as usize) implies pieces@[j].total_us
                <= pieces@[picked@[a] as int].total_us by {
            assert(!taken@[j]);
        }
    }
    picked
}

/// A duplicate-free list that holds every index below `n` has at least
/// `n` entries.
proof fn lemma_free_index_exists(picked: Seq<usize>, n: usize)
    requires
        forall|x: usize| x < n ==> #[trigger] picked.contains(x),
        picked.no_duplicates(),
    ensures
        picked.len() >= n,
{
    let pi = picked.map_values(|x: usize| x as int);
    assert(pi.no_duplicates()) by {
        assert forall|a: int, b: int| 0 <= a < b < pi.len() implies pi[a] != pi[b] by {
            assert(picked[a] != picked[b]);
        }
    }
    let range = vstd::set_lib::set_int_range(0, n as int);
    assert(range.subset_of(pi.to_set())) by {
        assert forall|j: int| range.contains(j) implies pi.to_set().contains(j) by {
            let x = j as usize;
            assert(picked.contains(x));
            let u = choose|u: int| 0 <= u < picked.len() && picked[u] == x;
            assert(pi[u] == j);
        }
    }
    vstd::set_lib::lemma_int_range(0, n as int);
    pi.unique_seq_to_set();
    vstd::set_lib::lemma_len_subset(range, pi.to_set());
}


/// How many of the slowest pieces a summary lists.
pub const SLOWEST_PIECE_COUNT: usize = 8;

/// One of the slowest pieces, with its one-based display row and column.
#[derive(Debug, Clone, Copy, PartialEq, Eq, Structural)]
pub struct SlowPiece {
    pub row: u64,
    pub column: u64,
    pub total_us: u64,
    pub terrain_us: u64,
    pub buildings_us: u64,
    pub roads_us: u64,
    pub weld_us: u64,
}

/// The slow-piece line of `t`: rows and columns counted from one, the stage
/// times 0 where a stage did not run.
pub open spec fn slow_entry(t: PieceTiming) -> SlowPiece {
    SlowPiece {
        row: (t.row + 1) as u64,
        column: (t.column + 1) as u64,
        total_us: t.total_us,
        terrain_us: t.terrain_us,
        buildings_us: building_value(t.buildings, TimingField::Buildings) as u64,
        roads_us: road_value(t.roads, TimingField::Roads) as u64,
        weld_us: t.weld_us,
    }
}

/// The slow-piece lines of the pieces at `picked`, in that order.
pub fn slow_piece_entries(pieces: &Vec<PieceTiming>, picked: &Vec<usize>) -> (entries: Vec<SlowPiece>)
    requires
        forall|a: int| 0 <= a < picked@.len() ==> #[trigger] picked@[a] < pieces@.len(),
    ensures
        entries@.len() == picked@.len(),
        forall|a: int| 0 <= a < picked@.len() ==> #[trigger] entries@[a] == slow_entry(pieces@[picked@[a] as int]),
{
    let mut entries: Vec<SlowPiece> = Vec::new();
    let mut a: usize = 0;
    while a < picked.len()
        invariant
            a <= picked@.len(),
            forall|k: int| 0 <= k < picked@.len() ==> #[trigger] picked@[k] < pieces@.len(),
            entries@.len() == a,
            forall|k: int| 0 <= k < a ==> #[trigger] entries@[k] == slow_entry(pieces@[picked@[k] as int]),
        decreases picked@.len() - a,
    {
        let t = pieces[picked[a]];
        entries.push(SlowPiece {
            row: t.row as u64 + 1,
            column: t.column as u64 + 1,
            total_us: t.total_us,
            terrain_us: t.terrain_us,
            buildings_us: building_reading(t.buildings, TimingField::Buildings),
            roads_us: road_reading(t.roads, TimingField::Roads),
            weld_us: t.weld_us,
        });
        a = a + 1;
    }
    entries
}

/// The number of vector areas among the first `n` that carry a building.
pub open spec fn building_area_count(areas: Seq<VectorAreaClass>, n: int) -> int
    decreases n,
{
    if n <= 0 {
        0
    } else {
        building_area_count(areas, n - 1) + if areas[n - 1].building { 1int } else { 0int }
    }
}

/// The vector areas that carry a building.
pub fn count_building_areas(areas: &Vec<VectorAreaClass>) -> (count: usize)
    ensures
        count == building_area_count(areas@, areas@.len() as int),
{
    let mut count: usize = 0;
    let mut i: usize = 0;
    while i < areas.len()
        invariant
            i <= areas@.len(),
            count == building_area_count(areas@, i as int),
            count <= i,
        decreases areas@.len() - i,
    {
        if areas[i].building {
            count = count + 1;
        }
        i = i + 1;
    }
    count
}

/// A build's geometry timing: the phase times the caller measured, the
/// per-piece totals, the source feature counts and the slowest pieces.
pub struct GeometryTimingSummary {
    pub wall_us: u64,
    pub tray_us: u64,
    pub serialization_us: u64,
    pub totals: TimingTotals,
    pub source_building_count: usize,
    pub source_line_count: usize,
    pub source_area_count: usize,
    pub slowest_pieces: Vec<SlowPiece>,
}

/// Summarises a build: the caller's phase times as given, the piece totals,
/// the features of `surface` (none without one), and the
/// `SLOWEST_PIECE_COUNT` slowest pieces, slowest first.
pub fn summarize_geometry_timing(
    pieces: &Vec<PieceTiming>,
    surface: Option<&SurfaceField>,
    wall_us: u64,
    tray_us: u64,
    serialization_us: u64,
) -> (summary: GeometryTimingSummary)
    ensures
        summary.wall_us == wall_us,
        summary.tray_us == tray_us,
        summary.serialization_us == serialization_us,
        totals_of(pieces@, summary.totals),
        summary.source_building_count == match surface {
            Some(f) => building_area_count(f.vector_areas@, f.vector_areas@.len() as int),
            None => 0,
        },
        summary.source_line_count == match surface {
            Some(f) => f.vector_line_classes@.len() as int,
            None => 0,
        },
        summary.source_area_count == match surface {
            Some(f) => f.vector_areas@.len() as int,
            None => 0,
        },
        exists|picked: Seq<usize>|
            #![trigger is_slowest_pick(pieces@, picked, SLOWEST_PIECE_COUNT as int)]
            is_slowest_pick(pieces@, picked, SLOWEST_PIECE_COUNT as int) && summary.slowest_pieces@.len() == picked.len()
                && forall|a: int|
                0 <= a < picked.len() ==> #[trigger] summary.slowest_pieces@[a] == slow_entry(pieces@[picked[a] as int]),
{
    let picked = slowest_pieces(pieces, SLOWEST_PIECE_COUNT);
    let slowest = slow_piece_entries(pieces, &picked);
    let (source_building_count, source_line_count, source_area_count) = match surface {
        Some(f) => (count_building_areas(&f.vector_areas), f.vector_line_classes.len(), f.vector_areas.len()),
        None => (0, 0, 0),
    };
    let summary = GeometryTimingSummary {
        wall_us,
        tray_us,
        serialization_us,
        totals: summarize_piece_timings(pieces),
        source_building_count,
        source_line_count,
        source_area_count,
        slowest_pieces: slowest,
    };
    assert(is_slowest_pick(pieces@, picked@, SLOWEST_PIECE_COUNT as int));
    summary
}

} // verus!
