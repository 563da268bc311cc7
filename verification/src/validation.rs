//! The integer, text and color checks of a generation's settings. Each
//! check reports the first rule its input breaks, with the rule's message.
use vstd::prelude::*;
use crate::generation::{GenerationSettings, ColorSettings, TraySettings, TrailRoute, MapMarker};
use crate::settings::SuperTileAnchor;
use crate::text::{chars_of, is_control, is_whitespace, unicode_control, unicode_whitespace};

verus! {

/// Largest super-tile grid side.
pub const MAX_ADJACENT_GRID_SIDE: u32 = 12;
/// Largest distance of a puzzle tile from the origin, per axis.
pub const MAX_PUZZLE_TILE_COORDINATE: i64 = 1_000_000;
/// Most imported trails.
pub const MAX_TRAILS: usize = 20;
/// Most points per trail.
pub const MAX_TRAIL_POINTS: usize = 20_000;
/// Longest trail name, in characters.
pub const MAX_TRAIL_NAME_CHARS: usize = 80;
/// Most map markers.
pub const MAX_MAP_MARKERS: usize = 50;
/// Longest marker name, in characters.
pub const MAX_MARKER_NAME_CHARS: usize = 80;
/// Longest place label, in characters.
pub const MAX_PLACE_NAME_CHARS: usize = 48;

/// An ASCII hexadecimal digit.
pub open spec fn hex_digit(c: char) -> bool {
    ('0' <= c <= '9') || ('a' <= c <= 'f') || ('A' <= c <= 'F')
}

/// A `#RRGGBB` color: a hash and six hexadecimal digits.
pub open spec fn hex_color(s: Seq<char>) -> bool {
    &&& s.len() == 7
    &&& s[0] == '#'
    &&& forall|i: int| 1 <= i < 7 ==> hex_digit(#[trigger] s[i])
}

/// Whether `color` is a `#RRGGBB` value.
pub fn valid_hex_color(color: &str) -> (b: bool)
    ensures
        b == hex_color(color@),
{
    let chars = chars_of(color);
    if chars.len() != 7 || chars[0] != '#' {
        return false;
    }
    let mut i: usize = 1;
    while i < 7
        invariant
            chars@ == color@,
            chars@.len() == 7,
            1 <= i <= 7,
            forall|j: int| 1 <= j < i ==> hex_digit(#[trigger] chars@[j]),
        decreases 7 - i,
    {
        let c = chars[i];
        if !(('0' <= c && c <= '9') || ('a' <= c && c <= 'f') || ('A' <= c && c <= 'F')) {
            assert(!hex_digit(chars@[i as int]));
            return false;
        }
        i = i + 1;
    }
    true
}

/// Every character is whitespace, so trimming leaves nothing.
pub open spec fn blank(s: Seq<char>) -> bool {
    forall|i: int| 0 <= i < s.len() ==> unicode_whitespace(#[trigger] s[i])
}

/// Some character is a control character.
pub open spec fn has_control(s: Seq<char>) -> bool {
    exists|i: int| 0 <= i < s.len() && unicode_control(#[trigger] s[i])
}

/// What a user-typed label breaks: 1 when it is blank or longer than `max`
/// characters, 2 when it holds a control character, 0 when it is fine.
pub open spec fn label_fault(s: Seq<char>, max: int) -> int {
    if blank(s) || s.len() > max {
        1
    } else if has_control(s) {
        2
    } else {
        0
    }
}

/// Checks a user-typed label; see `label_fault`.
pub fn check_label(label: &str, max: usize) -> (fault: u8)
    ensures
        fault == label_fault(label@, max as int),
{
    let chars = chars_of(label);
    let mut all_blank = true;
    let mut control = false;
    let mut i: usize = 0;
    while i < chars.len()
        invariant
            chars@ == label@,
            i <= chars@.len(),
            all_blank == forall|j: int| 0 <= j < i ==> unicode_whitespace(#[trigger] chars@[j]),
            control == exists|j: int| 0 <= j < i && unicode_control(#[trigger] chars@[j]),
        decreases chars@.len() - i,
    {
        let c = chars[i];
        if !is_whitespace(c) {
            all_blank = false;
        }
        if is_control(c) {
            control = true;
        }
        i = i + 1;
    }
    if all_blank || chars.len() > max {
        1
    } else if control {
        2
    } else {
        0
    }
}

/// The first rule the piece grid breaks.
pub open spec fn piece_grid_error(rows: u32, columns: u32) -> Option<Seq<char>> {
    if !(2 <= rows <= 16) || !(2 <= columns <= 16) {
        Some("piece rows and columns must each be between 2 and 16"@)
    } else {
        None
    }
}

/// Absolute value of a puzzle coordinate.
pub open spec fn abs_coordinate(x: i32) -> int {
    if x < 0 {
        -x
    } else {
        x as int
    }
}

/// The first rule the super-tile grid and puzzle position break.
pub open spec fn super_tile_error(s: &GenerationSettings) -> Option<Seq<char>> {
    if !(1 <= s.adjacent_columns <= 12) || !(1 <= s.adjacent_rows <= 12) {
        Some("super-tile grid columns and rows must each be between 1 and 12"@)
    } else if s.adjacent_tile_column >= s.adjacent_columns || s.adjacent_tile_row >= s.adjacent_rows {
        Some("super-tile position must be inside its grid"@)
    } else if abs_coordinate(s.puzzle_tile_column) > 1_000_000 || abs_coordinate(s.puzzle_tile_row) > 1_000_000 {
        Some("puzzle tile row and column must each be between -1000000 and 1000000"@)
    } else if s.super_tile_anchor == SuperTileAnchor::Center && (s.adjacent_columns % 2 == 0 || s.adjacent_rows % 2
        == 0) {
        Some("center-anchored super-tile grids require odd column and row counts"@)
    } else {
        None
    }
}

/// The first rule the sample counts break.
pub open spec fn sampling_error(s: &GenerationSettings) -> Option<Seq<char>> {
    if !(16 <= s.samples_per_piece <= 160) {
        Some("samples per piece must be between 16 and 160"@)
    } else if !(32 <= s.overlay_samples_per_piece <= 192) {
        Some("overlay samples per piece must be between 32 and 192"@)
    } else if s.mesh_samples_across matches Some(n) && !(256 <= n <= 2048) {
        Some("assembled mesh samples must be between 256 and 2048"@)
    } else if s.overlay_samples_across matches Some(n) && !(256 <= n <= 2048) {
        Some("assembled overlay samples must be between 256 and 2048"@)
    } else {
        None
    }
}

/// The first rule the place label breaks.
pub open spec fn place_name_error(name: Seq<char>) -> Option<Seq<char>> {
    let fault = label_fault(name, 48);
    if fault == 1 {
        Some("place label must contain between 1 and 48 characters"@)
    } else if fault == 2 {
        Some("place label cannot contain control characters"@)
    } else {
        None
    }
}


/// Turns a rule's outcome into the check's result.
fn outcome(error: Option<&str>) -> (r: Result<(), String>)
    ensures
        r is Ok <==> error is None,
        r matches Err(m) ==> error matches Some(e) && m@ == e@,
{
    match error {
        None => Ok(()),
        Some(e) => Err(e.to_owned()),
    }
}

impl GenerationSettings {
    /// Rows and columns of pieces must each be 2 to 16.
    pub fn validate_piece_grid(&self) -> (r: Result<(), String>)
        ensures
            r is Ok <==> piece_grid_error(self.rows, self.columns) is None,
            r matches Err(m) ==> piece_grid_error(self.rows, self.columns) == Some(m@),
    {
        if !(2 <= self.rows && self.rows <= 16) || !(2 <= self.columns && self.columns <= 16) {
            return outcome(Some("piece rows and columns must each be between 2 and 16"));
        }
        Ok(())
    }

    /// The super-tile grid is 1 to 12 tiles a side, the tile lies inside
    /// it, the puzzle position is within a million tiles of the origin, and a
    /// centre-anchored grid has odd sides.
    pub fn validate_super_tile(&self) -> (r: Result<(), String>)
        ensures
            r is Ok <==> super_tile_error(self) is None,
            r matches Err(m) ==> super_tile_error(self) == Some(m@),
    {
        if !(1 <= self.adjacent_columns && self.adjacent_columns <= MAX_ADJACENT_GRID_SIDE) || !(1
            <= self.adjacent_rows && self.adjacent_rows <= MAX_ADJACENT_GRID_SIDE) {
            return outcome(Some("super-tile grid columns and rows must each be between 1 and 12"));
        }
        if self.adjacent_tile_column >= self.adjacent_columns || self.adjacent_tile_row >= self.adjacent_rows {
            return outcome(Some("super-tile position must be inside its grid"));
        }
        let column = self.puzzle_tile_column as i64;
        let row = self.puzzle_tile_row as i64;
        let column_abs = if column < 0 { -column } else { column };
        let row_abs = if row < 0 { -row } else { row };
        if column_abs > MAX_PUZZLE_TILE_COORDINATE || row_abs > MAX_PUZZLE_TILE_COORDINATE {
            return outcome(Some("puzzle tile row and column must each be between -1000000 and 1000000"));
        }
        if self.super_tile_anchor == SuperTileAnchor::Center && (self.adjacent_columns % 2 == 0
            || self.adjacent_rows % 2 == 0) {
            return outcome(Some("center-anchored super-tile grids require odd column and row counts"));
        }
        Ok(())
    }

    /// Samples per piece are 16 to 160, overlay samples 32 to 192, and
    /// explicit assembled counts 256 to 2048.
    pub fn validate_sampling(&self) -> (r: Result<(), String>)
        ensures
            r is Ok <==> sampling_error(self) is None,
            r matches Err(m) ==> sampling_error(self) == Some(m@),
    {
        if !(16 <= self.samples_per_piece && self.samples_per_piece <= 160) {
            return outcome(Some("samples per piece must be between 16 and 160"));
        }
        if !(32 <= self.overlay_samples_per_piece && self.overlay_samples_per_piece <= 192) {
            return outcome(Some("overlay samples per piece must be between 32 and 192"));
        }
        match self.mesh_samples_across {
            Some(n) => {
                if !(256 <= n && n <= 2048) {
                    return outcome(Some("assembled mesh samples must be between 256 and 2048"));
                }
            },
            None => {},
        }
        match self.overlay_samples_across {
            Some(n) => {
                if !(256 <= n && n <= 2048) {
                    return outcome(Some("assembled overlay samples must be between 256 and 2048"));
                }
            },
            None => {},
        }
        Ok(())
    }

    /// The place label holds 1 to 48 characters, not all blank, and no
    /// control character.
    pub fn validate_place_name(&self) -> (r: Result<(), String>)
        ensures
            r is Ok <==> place_name_error(self.place_name@) is None,
            r matches Err(m) ==> place_name_error(self.place_name@) == Some(m@),
    {
        let fault = check_label(self.place_name.as_str(), MAX_PLACE_NAME_CHARS);
        if fault == 1 {
            return outcome(Some("place label must contain between 1 and 48 characters"));
        }
        if fault == 2 {
            return outcome(Some("place label cannot contain control characters"));
        }
        Ok(())
    }

    /// At most 20 trails.
    pub fn validate_trail_count(&self) -> (r: Result<(), String>)
        ensures
            r is Ok <==> self.trails@.len() <= 20,
            r matches Err(m) ==> m@ == "imported trail count must be at most 20"@,
    {
        if self.trails.len() > MAX_TRAILS {
            return outcome(Some("imported trail count must be at most 20"));
        }
        Ok(())
    }

    /// At most 50 markers.
    pub fn validate_marker_count(&self) -> (r: Result<(), String>)
        ensures
            r is Ok <==> self.markers@.len() <= 50,
            r matches Err(m) ==> m@ == "map marker count must be at most 50"@,
    {
        if self.markers.len() > MAX_MAP_MARKERS {
            return outcome(Some("map marker count must be at most 50"));
        }
        Ok(())
    }

    /// The marker color is a `#RRGGBB` value.
    pub fn validate_marker_color(&self) -> (r: Result<(), String>)
        ensures
            r is Ok <==> hex_color(self.marker_color@),
            r matches Err(m) ==> m@ == "marker color must be a #RRGGBB value"@,
    {
        if !valid_hex_color(self.marker_color.as_str()) {
            return outcome(Some("marker color must be a #RRGGBB value"));
        }
        Ok(())
    }
}

/// The first color of the color output that is not `#RRGGBB`.
pub open spec fn color_settings_error(c: &ColorSettings) -> Option<Seq<char>> {
    if !hex_color(c.forest_color@) {
        Some("forest color must use #RRGGBB"@)
    } else if !hex_color(c.rock_color@) {
        Some("rock color must use #RRGGBB"@)
    } else if !hex_color(c.snow_color@) {
        Some("snow color must use #RRGGBB"@)
    } else if !hex_color(c.water_color@) {
        Some("water color must use #RRGGBB"@)
    } else if !hex_color(c.road_color@) {
        Some("road color must use #RRGGBB"@)
    } else if !hex_color(c.building_color@) {
        Some("building color must use #RRGGBB"@)
    } else if !hex_color(c.trail_color@) {
        Some("trail color must use #RRGGBB"@)
    } else if !hex_color(c.rail_color@) {
        Some("rail color must use #RRGGBB"@)
    } else if !hex_color(c.aerial_color@) {
        Some("aerialway color must use #RRGGBB"@)
    } else {
        None
    }
}

impl ColorSettings {
    /// Every class color is a `#RRGGBB` value, checked in class-list order.
    pub fn validate_colors(&self) -> (r: Result<(), String>)
        ensures
            r is Ok <==> color_settings_error(self) is None,
            r matches Err(m) ==> color_settings_error(self) == Some(m@),
    {
        if !valid_hex_color(self.forest_color.as_str()) {
            return outcome(Some("forest color must use #RRGGBB"));
        }
        if !valid_hex_color(self.rock_color.as_str()) {
            return outcome(Some("rock color must use #RRGGBB"));
        }
        if !valid_hex_color(self.snow_color.as_str()) {
            return outcome(Some("snow color must use #RRGGBB"));
        }
        if !valid_hex_color(self.water_color.as_str()) {
            return outcome(Some("water color must use #RRGGBB"));
        }
        if !valid_hex_color(self.road_color.as_str()) {
            return outcome(Some("road color must use #RRGGBB"));
        }
        if !valid_hex_color(self.building_color.as_str()) {
            return outcome(Some("building color must use #RRGGBB"));
        }
        if !valid_hex_color(self.trail_color.as_str()) {
            return outcome(Some("trail color must use #RRGGBB"));
        }
        if !valid_hex_color(self.rail_color.as_str()) {
            return outcome(Some("rail color must use #RRGGBB"));
        }
        if !valid_hex_color(self.aerial_color.as_str()) {
            return outcome(Some("aerialway color must use #RRGGBB"));
        }
        Ok(())
    }
}

/// The first tray color that is not `#RRGGBB`.
pub open spec fn tray_color_error(t: &TraySettings) -> Option<Seq<char>> {
    if !hex_color(t.tray_color@) {
        Some("tray color must use #RRGGBB"@)
    } else if !hex_color(t.contour_color@) {
        Some("contour color must use #RRGGBB"@)
    } else if !hex_color(t.label_color@) {
        Some("tray label color must use #RRGGBB"@)
    } else {
        None
    }
}

/// The first tray count out of range.
pub open spec fn tray_count_error(t: &TraySettings) -> Option<Seq<char>> {
    if !(5 <= t.contour_count <= 60) {
        Some("tray contour count must be between 5 and 60"@)
    } else if !(1 <= t.segment_columns <= 12) || !(1 <= t.segment_rows <= 12) {
        Some("tray segment columns and rows must each be between 1 and 12"@)
    } else {
        None
    }
}

impl TraySettings {
    /// The tray, contour and label colors are `#RRGGBB` values.
    pub fn validate_colors(&self) -> (r: Result<(), String>)
        ensures
            r is Ok <==> tray_color_error(self) is None,
            r matches Err(m) ==> tray_color_error(self) == Some(m@),
    {
        if !valid_hex_color(self.tray_color.as_str()) {
            return outcome(Some("tray color must use #RRGGBB"));
        }
        if !valid_hex_color(self.contour_color.as_str()) {
            return outcome(Some("contour color must use #RRGGBB"));
        }
        if !valid_hex_color(self.label_color.as_str()) {
            return outcome(Some("tray label color must use #RRGGBB"));
        }
        Ok(())
    }

    /// 5 to 60 contours and 1 to 12 segments a side.
    pub fn validate_counts(&self) -> (r: Result<(), String>)
        ensures
            r is Ok <==> tray_count_error(self) is None,
            r matches Err(m) ==> tray_count_error(self) == Some(m@),
    {
        if !(5 <= self.contour_count && self.contour_count <= 60) {
            return outcome(Some("tray contour count must be between 5 and 60"));
        }
        if !(1 <= self.segment_columns && self.segment_columns <= MAX_ADJACENT_GRID_SIDE) || !(1
            <= self.segment_rows && self.segment_rows <= MAX_ADJACENT_GRID_SIDE) {
            return outcome(Some("tray segment columns and rows must each be between 1 and 12"));
        }
        Ok(())
    }
}

/// The first rule a trail's name and point count break.
pub open spec fn trail_error(t: &TrailRoute) -> Option<Seq<char>> {
    let fault = label_fault(t.name@, 80);
    if fault == 1 {
        Some("trail names must contain between 1 and 80 characters"@)
    } else if fault == 2 {
        Some("trail names cannot contain control characters"@)
    } else if t.point_count < 2 || t.point_count > 20_000 {
        Some("trail point counts must be between 2 and 20000"@)
    } else {
        None
    }
}

impl TrailRoute {
    /// The name holds 1 to 80 characters, not blank, no control character,
    /// and the trail has 2 to 20000 points.
    pub fn validate(&self) -> (r: Result<(), String>)
        ensures
            r is Ok <==> trail_error(self) is None,
            r matches Err(m) ==> trail_error(self) == Some(m@),
    {
        let fault = check_label(self.name.as_str(), MAX_TRAIL_NAME_CHARS);
        if fault == 1 {
            return outcome(Some("trail names must contain between 1 and 80 characters"));
        }
        if fault == 2 {
            return outcome(Some("trail names cannot contain control characters"));
        }
        if self.point_count < 2 || self.point_count > MAX_TRAIL_POINTS {
            return outcome(Some("trail point counts must be between 2 and 20000"));
        }
        Ok(())
    }
}

/// The first rule a marker's name breaks.
pub open spec fn marker_error(m: &MapMarker) -> Option<Seq<char>> {
    let fault = label_fault(m.name@, 80);
    if fault == 1 {
        Some("marker names must contain between 1 and 80 characters"@)
    } else if fault == 2 {
        Some("marker names cannot contain control characters"@)
    } else {
        None
    }
}

impl MapMarker {
    /// The name holds 1 to 80 characters, not blank, no control character.
    pub fn validate(&self) -> (r: Result<(), String>)
        ensures
            r is Ok <==> marker_error(self) is None,
            r matches Err(m) ==> marker_error(self) == Some(m@),
    {
        let fault = check_label(self.name.as_str(), MAX_MARKER_NAME_CHARS);
        if fault == 1 {
            return outcome(Some("marker names must contain between 1 and 80 characters"));
        }
        if fault == 2 {
            return outcome(Some("marker names cannot contain control characters"));
        }
        Ok(())
    }
}

/// The first piece of source data a generation needs but lacks.
pub open spec fn surface_requirement_error(s: &GenerationSettings, has_surface: bool) -> Option<Seq<char>> {
    if has_surface {
        None
    } else if s.color.enabled {
        Some("color output requires ESA WorldCover surface data"@)
    } else if s.buildings_enabled {
        Some("building output requires OpenStreetMap building data"@)
    } else if s.trails@.len() > 0 {
        Some("imported trails require surface data to draw on"@)
    } else if s.has_marker_kind(crate::settings::MarkerKind::Building) {
        Some("building markers require OpenStreetMap building data"@)
    } else {
        None
    }
}

impl GenerationSettings {
    /// Color output, buildings, trails and building markers all draw on
    /// surface data; without it a generation is refused.
    pub fn check_surface_requirements(&self, has_surface: bool) -> (r: Result<(), String>)
        ensures
            r is Ok <==> surface_requirement_error(self, has_surface) is None,
            r matches Err(m) ==> surface_requirement_error(self, has_surface) == Some(m@),
    {
        if !has_surface {
            if self.color.enabled {
                return outcome(Some("color output requires ESA WorldCover surface data"));
            }
            if self.buildings_enabled {
                return outcome(Some("building output requires OpenStreetMap building data"));
            }
            if self.uses_trails() {
                return outcome(Some("imported trails require surface data to draw on"));
            }
            if self.uses_building_markers() {
                return outcome(Some("building markers require OpenStreetMap building data"));
            }
        }
        Ok(())
    }
}

/// Most pieces built at once.
pub const MAX_PARALLEL_PIECES: usize = 8;

/// How many pieces a generation builds at once: as many as there are
/// workers, but at least one and at most eight, and never more than there
/// are pieces unless there are none.
pub fn piece_batch_size(object_count: usize, workers: usize) -> (size: usize)
    ensures
        size == {
            let m = if object_count <= workers { object_count } else { workers };
            if m < 1 { 1 } else if m > 8 { 8 } else { m }
        },
{
    let m = if object_count <= workers { object_count } else { workers };
    if m < 1 {
        1
    } else if m > MAX_PARALLEL_PIECES {
        MAX_PARALLEL_PIECES
    } else {
        m
    }
}

} // verus!
