//! The switches and styles of a generation spec, their defaults and their
//! stable names.
use vstd::prelude::*;

verus! {

/// What a user-placed map marker does.
#[derive(Debug, Clone, Copy, PartialEq, Eq, Structural)]
pub enum MarkerKind {
    Building,
    Dot,
    FlagHole,
}

/// Where elevation tiles come from.
#[derive(Debug, Clone, Copy, PartialEq, Eq, Structural)]
pub enum ElevationSource {
    Mapzen,
    Mapterhorn,
}

impl Default for ElevationSource {
    fn default() -> (source: Self)
        ensures
            source == ElevationSource::Mapzen,
    {
        ElevationSource::Mapzen
    }
}

/// Which tile of a super-tile grid the center coordinate names.
#[derive(Debug, Clone, Copy, PartialEq, Eq, Structural)]
pub enum SuperTileAnchor {
    TopLeft,
    Center,
}

impl Default for SuperTileAnchor {
    fn default() -> (anchor: Self)
        ensures
            anchor == SuperTileAnchor::TopLeft,
    {
        SuperTileAnchor::TopLeft
    }
}

/// Font of the embossed display-base label.
#[derive(Debug, Clone, Copy, PartialEq, Eq, Structural)]
pub enum TrayLabelFont {
    AtkinsonHyperlegible,
    NotoSans,
    B612Mono,
}

impl Default for TrayLabelFont {
    fn default() -> (font: Self)
        ensures
            font == TrayLabelFont::AtkinsonHyperlegible,
    {
        TrayLabelFont::AtkinsonHyperlegible
    }
}

/// Horizontal placement of the display-base label.
#[derive(Debug, Clone, Copy, PartialEq, Eq, Structural)]
pub enum TrayLabelPosition {
    Left,
    Center,
    Right,
}

impl Default for TrayLabelPosition {
    fn default() -> (position: Self)
        ensures
            position == TrayLabelPosition::Center,
    {
        TrayLabelPosition::Center
    }
}

/// Blind mounting cut style in the flat back of the terrain or tray.
#[derive(Debug, Clone, Copy, PartialEq, Eq, Structural)]
pub enum WallMountStyle {
    /// No wall mount (serialized as `none`).
    NoMount,
    StraightPin,
    AngledPin,
    FrenchCleat,
}

impl Default for WallMountStyle {
    fn default() -> (style: Self)
        ensures
            style == WallMountStyle::NoMount,
    {
        WallMountStyle::NoMount
    }
}

/// Which part carries the wall-mount cuts.
#[derive(Debug, Clone, Copy, PartialEq, Eq, Structural)]
pub enum WallMountTarget {
    Terrain,
    Tray,
}

impl Default for WallMountTarget {
    fn default() -> (target: Self)
        ensures
            target == WallMountTarget::Terrain,
    {
        WallMountTarget::Terrain
    }
}

/// How a mapped bridge deck is printed.
#[derive(Debug, Clone, Copy, PartialEq, Eq, Structural)]
pub enum BridgeStructure {
    Floating,
    Supported,
}

impl Default for BridgeStructure {
    fn default() -> (structure: Self)
        ensures
            structure == BridgeStructure::Floating,
    {
        BridgeStructure::Floating
    }
}

/// Road detail level, `Automatic` resolving against the map span.
#[derive(Debug, Clone, Copy, PartialEq, Eq, Structural)]
pub enum RoadDetail {
    Automatic,
    Major,
    Minor,
    Streets,
    All,
}

impl Default for RoadDetail {
    fn default() -> (detail: Self)
        ensures
            detail == RoadDetail::Automatic,
    {
        RoadDetail::Automatic
    }
}

/// How drawn railways are colored.
#[derive(Debug, Clone, Copy, PartialEq, Eq, Structural)]
pub enum RailStyle {
    /// Railways get their own class, color, and filament slot.
    Separate,
    /// Railways paint as roads, in the road color and at the road width.
    WithRoads,
}

impl Default for RailStyle {
    fn default() -> (style: Self)
        ensures
            style == RailStyle::Separate,
    {
        RailStyle::Separate
    }
}

/// How drawn aerialways are colored.
#[derive(Debug, Clone, Copy, PartialEq, Eq, Structural)]
pub enum AerialStyle {
    /// Aerialways get their own class, color, and filament slot.
    Separate,
    /// Aerialways follow the railway layer's style.
    WithRail,
    /// Aerialways paint as roads, in the road color and at the road width.
    WithRoads,
}

impl Default for AerialStyle {
    fn default() -> (style: Self)
        ensures
            style == AerialStyle::Separate,
    {
        AerialStyle::Separate
    }
}

/// Which lifecycle states of railway and aerialway line the map draws.
/// The settings are cumulative, in declaration order.
#[derive(Debug, Clone, Copy, PartialEq, Eq, PartialOrd, Ord, Structural)]
pub enum RailLifecycle {
    /// In service only.
    Operational,
    /// Adds lines still in place but out of use.
    Disused,
    /// Adds `disused`, plus lifted track whose formation is still visible.
    Abandoned,
}

impl Default for RailLifecycle {
    fn default() -> (lifecycle: Self)
        ensures
            lifecycle == RailLifecycle::Operational,
    {
        RailLifecycle::Operational
    }
}

/// The stable short name of a lifecycle setting.
pub open spec fn lifecycle_name(lifecycle: RailLifecycle) -> Seq<char> {
    match lifecycle {
        RailLifecycle::Operational => "operational"@,
        RailLifecycle::Disused => "disused"@,
        RailLifecycle::Abandoned => "abandoned"@,
    }
}

impl RailLifecycle {
    /// Stable short name, part of the fetch cache key.
    pub fn name(self) -> (name: &'static str)
        ensures
            name@ == lifecycle_name(self),
    {
        match self {
            RailLifecycle::Operational => "operational",
            RailLifecycle::Disused => "disused",
            RailLifecycle::Abandoned => "abandoned",
        }
    }
}

/// A road detail level with `Automatic` already resolved.
#[derive(Debug, Clone, Copy, PartialEq, Eq, Structural)]
pub enum ResolvedRoadDetail {
    Major,
    Minor,
    Streets,
    All,
}

/// The stable short name of a resolved road detail level.
pub open spec fn road_detail_name(detail: ResolvedRoadDetail) -> Seq<char> {
    match detail {
        ResolvedRoadDetail::Major => "major"@,
        ResolvedRoadDetail::Minor => "minor"@,
        ResolvedRoadDetail::Streets => "streets"@,
        ResolvedRoadDetail::All => "all"@,
    }
}

impl ResolvedRoadDetail {
    /// The lower-case name of this road detail level.
    pub fn name(self) -> (name: &'static str)
        ensures
            name@ == road_detail_name(self),
    {
        match self {
            ResolvedRoadDetail::Major => "major",
            ResolvedRoadDetail::Minor => "minor",
            ResolvedRoadDetail::Streets => "streets",
            ResolvedRoadDetail::All => "all",
        }
    }
}

/// How raster land-cover class borders are drawn.
#[derive(Debug, Clone, Copy, PartialEq, Eq, Structural)]
pub enum ClassBorders {
    Blocky,
    Smooth,
}

impl Default for ClassBorders {
    fn default() -> (borders: Self)
        ensures
            borders == ClassBorders::Smooth,
    {
        ClassBorders::Smooth
    }
}

/// What steep forest demoted by the slope gate becomes.
#[derive(Debug, Clone, Copy, PartialEq, Eq, Structural)]
pub enum SteepForestTarget {
    Rock,
    Snow,
}

impl Default for SteepForestTarget {
    fn default() -> (target: Self)
        ensures
            target == SteepForestTarget::Rock,
    {
        SteepForestTarget::Rock
    }
}

/// What the color 3MF carries beyond core-spec geometry.
#[derive(Debug, Clone, Copy, PartialEq, Eq, Structural)]
pub enum ThreeMfStyle {
    /// Color group plus slicer face-paint codes; no embedded settings.
    Painted,
    /// Paint codes plus embedded project settings.
    Project,
    /// Core-spec color group only.
    Geometry,
}

impl Default for ThreeMfStyle {
    fn default() -> (style: Self)
        ensures
            style == ThreeMfStyle::Project,
    {
        ThreeMfStyle::Project
    }
}

/// Sample budget of the live model preview.
#[derive(Debug, Clone, Copy, PartialEq, Eq, Structural)]
pub enum PreviewDetail {
    Fast,
    Detailed,
    High,
}

/// Samples across the preview height grid at each detail level.
pub open spec fn preview_grid(detail: PreviewDetail) -> nat {
    match detail {
        PreviewDetail::Fast => 128,
        PreviewDetail::Detailed => 192,
        PreviewDetail::High => 256,
    }
}

impl PreviewDetail {
    /// The number of samples along each side of a preview piece.
    pub fn sample_grid(self) -> (samples: usize)
        ensures
            samples == preview_grid(self),
    {
        match self {
            PreviewDetail::Fast => 128,
            PreviewDetail::Detailed => 192,
            PreviewDetail::High => 256,
        }
    }
}

/// Whether a wall mount of `style` aimed at `target` cuts the terrain back.
pub fn wall_mount_cuts_terrain(style: WallMountStyle, target: WallMountTarget) -> (b: bool)
    ensures
        b == (style != WallMountStyle::NoMount && target == WallMountTarget::Terrain),
{
    style != WallMountStyle::NoMount && target == WallMountTarget::Terrain
}

/// Whether a wall mount of `style` aimed at `target` cuts the tray floor.
pub fn wall_mount_cuts_tray(style: WallMountStyle, target: WallMountTarget) -> (b: bool)
    ensures
        b == (style != WallMountStyle::NoMount && target == WallMountTarget::Tray),
{
    style != WallMountStyle::NoMount && target == WallMountTarget::Tray
}

/// Whether tray-retention pins are cut: they need both the setting and a tray.
pub fn puzzle_retention_active(enabled: bool, tray_enabled: bool) -> (b: bool)
    ensures
        b == (enabled && tray_enabled),
{
    enabled && tray_enabled
}

/// A wall mount has one or two pins.
pub fn valid_wall_mount_pin_count(pin_count: u32) -> (b: bool)
    ensures
        b == (1 <= pin_count <= 2),
{
    1 <= pin_count && pin_count <= 2
}

/// The terrain and the tray are never both cut: at most one of the two
/// mounting targets takes cuts.
pub proof fn law_one_wall_mount_target(style: WallMountStyle, target: WallMountTarget)
    ensures
        !((style != WallMountStyle::NoMount && target == WallMountTarget::Terrain) && (style != WallMountStyle::NoMount
            && target == WallMountTarget::Tray)),
{
}

} // verus!
