//! The generation settings the core reads as plain values, what they switch
//! on, and the dense filament palette of one archive.
use vstd::prelude::*;
use crate::classes::{SurfaceClass, CLASS_COUNT, class_index, class_at_index, lemma_class_index_bijection};
use crate::settings::{MarkerKind, RailStyle, AerialStyle, SuperTileAnchor, PreviewDetail};
use crate::surface::{SurfaceField, field_holds_class};

verus! {

/// Colors and layer switches of the color output.
pub struct ColorSettings {
    pub enabled: bool,
    pub roads_enabled: bool,
    pub rail_enabled: bool,
    pub aerial_enabled: bool,
    pub rail_style: RailStyle,
    pub aerial_style: AerialStyle,
    pub forest_color: String,
    pub rock_color: String,
    pub snow_color: String,
    pub water_color: String,
    pub road_color: String,
    pub building_color: String,
    pub trail_color: String,
    pub rail_color: String,
    pub aerial_color: String,
}

/// An imported hiker trail as the core sees it: its name and how many
/// points it has.
pub struct TrailRoute {
    pub name: String,
    pub point_count: usize,
}

/// A user-placed marker as the core sees it: its name and what it does.
pub struct MapMarker {
    pub name: String,
    pub kind: MarkerKind,
}

/// The tray's colors and counts.
pub struct TraySettings {
    pub enabled: bool,
    pub tray_color: String,
    pub contour_color: String,
    pub label_color: String,
    pub contour_count: u32,
    pub segment_columns: u32,
    pub segment_rows: u32,
}

/// The integer, switch and text settings of one generation.
pub struct GenerationSettings {
    pub rows: u32,
    pub columns: u32,
    pub adjacent_columns: u32,
    pub adjacent_rows: u32,
    pub adjacent_tile_column: u32,
    pub adjacent_tile_row: u32,
    pub super_tile_anchor: SuperTileAnchor,
    pub puzzle_tile_column: i32,
    pub puzzle_tile_row: i32,
    pub samples_per_piece: u32,
    pub overlay_samples_per_piece: u32,
    pub mesh_samples_across: Option<u32>,
    pub overlay_samples_across: Option<u32>,
    pub fine_dem_detail: bool,
    pub place_name: String,
    pub tray: TraySettings,
    pub solid_model: bool,
    pub buildings_enabled: bool,
    pub marker_color: String,
    pub color: ColorSettings,
    pub trails: Vec<TrailRoute>,
    pub markers: Vec<MapMarker>,
}

/// The class a drawn line paints with.
pub open spec fn rail_class_of(style: RailStyle) -> SurfaceClass {
    match style {
        RailStyle::Separate => SurfaceClass::Rail,
        RailStyle::WithRoads => SurfaceClass::Road,
    }
}

/// The six classes every archive carries.
pub open spec fn base_class(c: SurfaceClass) -> bool {
    class_index(c) < 6
}

impl GenerationSettings {
    /// Whether any marker is of a kind that is painted in its own colour.
    pub open spec fn has_colored_marker(&self) -> bool {
        exists|i: int| 0 <= i < self.markers@.len() && #[trigger] self.markers@[i].kind != MarkerKind::FlagHole
    }

    /// Whether any marker is of the given kind.
    pub open spec fn has_marker_kind(&self, kind: MarkerKind) -> bool {
        exists|i: int| 0 <= i < self.markers@.len() && #[trigger] self.markers@[i].kind == kind
    }

    /// Whether colour is on and railways are drawn.
    pub open spec fn draws_rail(&self) -> bool {
        self.color.enabled && self.color.rail_enabled
    }

    /// Whether colour is on and aerialways are drawn.
    pub open spec fn draws_aerial(&self) -> bool {
        self.color.enabled && self.color.aerial_enabled
    }

    /// The class railways paint with, whether or not they are drawn.
    pub open spec fn rail_class(&self) -> SurfaceClass {
        rail_class_of(self.color.rail_style)
    }

    /// The class aerialways paint with: their own, the road class, or
    /// whatever railways resolve to when the railway layer is on (roads when
    /// it is off).
    pub open spec fn aerial_class(&self) -> SurfaceClass {
        match self.color.aerial_style {
            AerialStyle::Separate => SurfaceClass::Aerial,
            AerialStyle::WithRoads => SurfaceClass::Road,
            AerialStyle::WithRail => if self.color.rail_enabled {
                self.rail_class()
            } else {
                SurfaceClass::Road
            },
        }
    }

    /// Whether railways are drawn in their own colour.
    pub open spec fn draws_separate_rail(&self) -> bool {
        self.draws_rail() && self.color.rail_style == RailStyle::Separate
    }

    /// Whether aerialways are drawn in their own colour.
    pub open spec fn draws_separate_aerial(&self) -> bool {
        self.draws_aerial() && self.aerial_class() == SurfaceClass::Aerial
    }

    /// Whether the settings draw `class` at all.
    pub open spec fn emits(&self, class: SurfaceClass) -> bool {
        match class {
            SurfaceClass::Trail => self.trails@.len() > 0,
            SurfaceClass::Rail => self.draws_separate_rail(),
            SurfaceClass::Aerial => self.draws_separate_aerial(),
            SurfaceClass::Marker => self.has_colored_marker(),
            _ => true,
        }
    }

    /// The configured color of `class`.
    pub open spec fn color_of(&self, class: SurfaceClass) -> Seq<char> {
        match class {
            SurfaceClass::Rock => self.color.rock_color@,
            SurfaceClass::Forest => self.color.forest_color@,
            SurfaceClass::Snow => self.color.snow_color@,
            SurfaceClass::Water => self.color.water_color@,
            SurfaceClass::Road => self.color.road_color@,
            SurfaceClass::Building => self.color.building_color@,
            SurfaceClass::Trail => self.color.trail_color@,
            SurfaceClass::Rail => self.color.rail_color@,
            SurfaceClass::Aerial => self.color.aerial_color@,
            SurfaceClass::Marker => self.marker_color@,
        }
    }

    /// Whether the palette built against `surface` carries `class`: the
    /// settings must draw it, and, beyond the base six, the surface data
    /// must hold it when there is surface data.
    pub open spec fn in_palette(&self, surface: Option<&SurfaceField>, class: SurfaceClass) -> bool {
        &&& self.emits(class)
        &&& (base_class(class) || match surface {
            None => true,
            Some(f) => field_holds_class(f, class),
        })
    }

    /// How many of the classes before index `k` the palette carries.
    pub open spec fn slots_before(&self, surface: Option<&SurfaceField>, k: int) -> nat
        decreases k,
    {
        if k <= 0 {
            0
        } else {
            self.slots_before(surface, k - 1) + if self.in_palette(surface, class_at_index(k - 1)) {
                1nat
            } else {
                0nat
            }
        }
    }

    /// Whether the spec carries imported hiker trails.
    pub fn uses_trails(&self) -> (b: bool)
        ensures
            b == (self.trails@.len() > 0),
    {
        self.trails.len() > 0
    }

    /// Whether the spec carries map markers.
    pub fn uses_markers(&self) -> (b: bool)
        ensures
            b == (self.markers@.len() > 0),
    {
        self.markers.len() > 0
    }

    /// Whether some marker's kind is (`equal`) or is not (`!equal`) the given kind.
    fn any_marker(&self, kind: MarkerKind, equal: bool) -> (b: bool)
        ensures
            b == exists|i: int| 0 <= i < self.markers@.len() && (#[trigger] self.markers@[i].kind == kind) == equal,
    {
        let mut i: usize = 0;
        while i < self.markers.len()
            invariant
                i <= self.markers@.len(),
                forall|j: int| 0 <= j < i ==> (#[trigger] self.markers@[j].kind == kind) != equal,
            decreases self.markers@.len() - i,
        {
            if (self.markers[i].kind == kind) == equal {
                return true;
            }
            i = i + 1;
        }
        false
    }

    /// Whether any marker paints a colored dot or building.
    pub fn uses_colored_markers(&self) -> (b: bool)
        ensures
            b == self.has_colored_marker(),
    {
        self.any_marker(MarkerKind::FlagHole, false)
    }

    /// Whether any marker highlights a building.
    pub fn uses_building_markers(&self) -> (b: bool)
        ensures
            b == self.has_marker_kind(MarkerKind::Building),
    {
        self.any_marker(MarkerKind::Building, true)
    }

    /// Whether any marker cuts a flag socket.
    pub fn uses_flag_holes(&self) -> (b: bool)
        ensures
            b == self.has_marker_kind(MarkerKind::FlagHole),
    {
        self.any_marker(MarkerKind::FlagHole, true)
    }

    /// Whether the railway layer is drawn at all.
    pub fn uses_rail(&self) -> (b: bool)
        ensures
            b == self.draws_rail(),
    {
        self.color.enabled && self.color.rail_enabled
    }

    /// Whether the aerialway layer is drawn at all.
    pub fn uses_aerial(&self) -> (b: bool)
        ensures
            b == self.draws_aerial(),
    {
        self.color.enabled && self.color.aerial_enabled
    }

    /// Whether either rail-family layer is drawn.
    pub fn uses_rail_or_aerial(&self) -> (b: bool)
        ensures
            b == (self.draws_rail() || self.draws_aerial()),
    {
        self.uses_rail() || self.uses_aerial()
    }

    /// The class railways paint with; it ignores whether they are drawn.
    pub fn rail_line_class(&self) -> (class: SurfaceClass)
        ensures
            class == self.rail_class(),
    {
        match self.color.rail_style {
            RailStyle::Separate => SurfaceClass::Rail,
            RailStyle::WithRoads => SurfaceClass::Road,
        }
    }

    /// The class aerialways paint with. Following a switched-off railway
    /// layer falls through to roads rather than drawing nothing or borrowing
    /// the Rail class.
    pub fn aerial_line_class(&self) -> (class: SurfaceClass)
        ensures
            class == self.aerial_class(),
    {
        match self.color.aerial_style {
            AerialStyle::Separate => SurfaceClass::Aerial,
            AerialStyle::WithRoads => SurfaceClass::Road,
            AerialStyle::WithRail => {
                if self.color.rail_enabled {
                    self.rail_line_class()
                } else {
                    SurfaceClass::Road
                }
            },
        }
    }

    /// Whether drawn railways get their own class, color and slot.
    pub fn uses_separate_rail(&self) -> (b: bool)
        ensures
            b == self.draws_separate_rail(),
    {
        self.uses_rail() && self.color.rail_style == RailStyle::Separate
    }

    /// Whether drawn aerialways get their own class, color and slot.
    pub fn uses_separate_aerial(&self) -> (b: bool)
        ensures
            b == self.draws_separate_aerial(),
    {
        self.uses_aerial() && self.aerial_line_class() == SurfaceClass::Aerial
    }

    /// Whether the archive carries color materials at all.
    pub fn uses_color_materials(&self) -> (b: bool)
        ensures
            b == (self.color.enabled || self.buildings_enabled || self.trails@.len() > 0 || self.has_colored_marker()),
    {
        self.color.enabled || self.buildings_enabled || self.uses_trails() || self.uses_colored_markers()
    }

    /// Whether the settings draw `class` at all.
    pub fn emits_class(&self, class: SurfaceClass) -> (b: bool)
        ensures
            b == self.emits(class),
    {
        match class {
            SurfaceClass::Trail => self.uses_trails(),
            SurfaceClass::Rail => self.uses_separate_rail(),
            SurfaceClass::Aerial => self.uses_separate_aerial(),
            SurfaceClass::Marker => self.uses_colored_markers(),
            _ => true,
        }
    }

    /// The configured color of `class`.
    pub fn class_color(&self, class: SurfaceClass) -> (color: &String)
        ensures
            color@ == self.color_of(class),
    {
        match class {
            SurfaceClass::Rock => &self.color.rock_color,
            SurfaceClass::Forest => &self.color.forest_color,
            SurfaceClass::Snow => &self.color.snow_color,
            SurfaceClass::Water => &self.color.water_color,
            SurfaceClass::Road => &self.color.road_color,
            SurfaceClass::Building => &self.color.building_color,
            SurfaceClass::Trail => &self.color.trail_color,
            SurfaceClass::Rail => &self.color.rail_color,
            SurfaceClass::Aerial => &self.color.aerial_color,
            SurfaceClass::Marker => &self.marker_color,
        }
    }

    /// How many pieces meshes are split into along the longer side.
    pub fn mesh_piece_count(&self) -> (count: u32)
        ensures
            count == if self.solid_model {
                1
            } else if self.rows >= self.columns {
                self.rows
            } else {
                self.columns
            },
    {
        if self.solid_model {
            1
        } else if self.rows >= self.columns {
            self.rows
        } else {
            self.columns
        }
    }
}

/// One archive's dense filament palette: the colors it emits, in slot order,
/// and the slot each class, by class index, was packed into.
pub struct MaterialPalette {
    colors: Vec<String>,
    slots: Vec<Option<u32>>,
}

impl MaterialPalette {
    /// The palette colours, as text.
    pub closed spec fn color_texts(&self) -> Seq<Seq<char>> {
        self.colors@.map_values(|s: String| s@)
    }

    /// The palette slot a class is painted with, if it has one.
    pub closed spec fn slot_of(&self, class: SurfaceClass) -> Option<u32> {
        self.slots@[class_index(class) as int]
    }

    /// The slot table has one entry per surface class.
    pub closed spec fn wf(&self) -> bool {
        self.slots@.len() == CLASS_COUNT
    }

    /// The emitted colors, indexed by slot.
    pub fn colors(&self) -> (colors: &Vec<String>)
        ensures
            colors@.map_values(|s: String| s@) == self.color_texts(),
    {
        &self.colors
    }

    /// How many slots the palette has.
    pub fn len(&self) -> (n: usize)
        ensures
            n == self.color_texts().len(),
    {
        self.colors.len()
    }

    /// The slot a class paints into, or `None` when the palette does not
    /// carry it.
    pub fn slot(&self, class: SurfaceClass) -> (slot: Option<u32>)
        requires
            self.wf(),
        ensures
            slot == self.slot_of(class),
    {
        self.slots[class.material_index() as usize]
    }
}

impl GenerationSettings {
    /// The filament palette of one archive: every class it can emit, in
    /// class order, packed into consecutive slots. A class beyond the base
    /// six needs the settings to draw it and, when `surface` is given, the
    /// surface data to hold it.
    pub fn material_palette(&self, surface: Option<&SurfaceField>) -> (palette: MaterialPalette)
        ensures
            palette.wf(),
            palette.color_texts().len() == self.slots_before(surface, 10),
            forall|k: int|
                0 <= k < 10 ==> #[trigger] palette.slot_of(class_at_index(k)) == if self.in_palette(
                    surface,
                    class_at_index(k),
                ) {
                    Some(self.slots_before(surface, k) as u32)
                } else {
                    None
                },
            forall|k: int|
                0 <= k < 10 && self.in_palette(surface, class_at_index(k)) ==> #[trigger] palette.color_texts()[self.slots_before(
                    surface,
                    k,
                ) as int] == self.color_of(class_at_index(k)),
    {
        let contained: Option<Vec<bool>> = match surface {
            Some(field) => Some(field.contained_classes()),
            None => None,
        };
        let all = SurfaceClass::all();
        let mut colors: Vec<String> = Vec::new();
        let mut slots: Vec<Option<u32>> = Vec::new();
        let mut k: usize = 0;
        while k < CLASS_COUNT
            invariant
                k <= CLASS_COUNT,
                all@.len() == CLASS_COUNT,
                forall|i: int| 0 <= i < 10 ==> #[trigger] all@[i] == class_at_index(i),
                contained matches Some(present) ==> surface matches Some(f) && present@.len() == CLASS_COUNT && forall|j: int|
                    0 <= j < 10 ==> (#[trigger] present@[j] <==> field_holds_class(f, class_at_index(j))),
                contained is None <==> surface is None,
                slots@.len() == k,
                colors@.len() == self.slots_before(surface, k as int),
                self.slots_before(surface, k as int) <= k,
                forall|j: int|
                    0 <= j < k ==> #[trigger] slots@[j] == if self.in_palette(surface, class_at_index(j)) {
                        Some(self.slots_before(surface, j) as u32)
                    } else {
                        None
                    },
                forall|j: int|
                    0 <= j < k && self.in_palette(surface, class_at_index(j)) ==> #[trigger] colors@[self.slots_before(
                        surface,
                        j,
                    ) as int]@ == self.color_of(class_at_index(j)),
            decreases CLASS_COUNT - k,
        {
            let class = all[k];
            proof {
                lemma_class_index_bijection(class, k as int);
            }
            let in_data = k < 6 || match &contained {
                None => true,
                Some(present) => present[k],
            };
            let ghost before = colors@;
            if self.emits_class(class) && in_data {
                let slot = colors.len() as u32;
                slots.push(Some(slot));
                let color = self.class_color(class).clone();
                colors.push(color);
            } else {
                slots.push(None);
            }
            proof {
                assert forall|j: int|
                    0 <= j < k + 1 && self.in_palette(surface, class_at_index(j)) implies #[trigger] colors@[self.slots_before(
                        surface,
                        j,
                    ) as int]@ == self.color_of(class_at_index(j)) by {
                    if j < k {
                        lemma_slots_before_monotone(self, surface, j + 1, k as int);
                        assert(colors@[self.slots_before(surface, j) as int] == before[self.slots_before(surface, j) as int]);
                    }
                }
            }
            k = k + 1;
        }
        let palette = MaterialPalette { colors, slots };
        proof {
            assert forall|k: int| 0 <= k < 10 implies #[trigger] palette.slot_of(class_at_index(k)) == slots@[k] by {
                lemma_class_index_bijection(class_at_index(k), k);
            }
            assert forall|k: int|
                0 <= k < 10 && self.in_palette(surface, class_at_index(k)) implies #[trigger] palette.color_texts()[self.slots_before(
                    surface,
                    k,
                ) as int] == self.color_of(class_at_index(k)) by {
                lemma_slots_before_bounded(self, surface, k);
            }
        }
        palette
    }
}

/// A class in the palette takes a slot below the palette length.
proof fn lemma_slots_before_bounded(settings: &GenerationSettings, surface: Option<&SurfaceField>, k: int)
    requires
        0 <= k < 10,
        settings.in_palette(surface, class_at_index(k)),
    ensures
        settings.slots_before(surface, k) < settings.slots_before(surface, 10),
    decreases 10 - k,
{
    if k < 9 {
        lemma_slots_before_monotone(settings, surface, k + 1, 10);
    }
}

/// The number of slots handed out never shrinks along the class order.
proof fn lemma_slots_before_monotone(settings: &GenerationSettings, surface: Option<&SurfaceField>, a: int, b: int)
    requires
        0 <= a <= b,
    ensures
        settings.slots_before(surface, a) <= settings.slots_before(surface, b),
    decreases b - a,
{
    if a < b {
        lemma_slots_before_monotone(settings, surface, a, b - 1);
    }
}

/// Dots and highlighted buildings are painted in the marker colour, flag
/// sockets are not: a marker of any kind but `FlagHole` puts the marker
/// class in a palette built without surface data and switches colour
/// materials on, and when every marker is a flag socket the marker class
/// is in no palette.
pub proof fn law_non_flag_markers_are_colored(settings: &GenerationSettings, surface: Option<&SurfaceField>, i: int)
    ensures
        0 <= i < settings.markers@.len() && settings.markers@[i].kind != MarkerKind::FlagHole ==> {
            &&& settings.has_colored_marker()
            &&& settings.in_palette(None, SurfaceClass::Marker)
            &&& (settings.color.enabled || settings.buildings_enabled || settings.trails@.len() > 0
                || settings.has_colored_marker())
        },
        0 <= i < settings.markers@.len() && settings.markers@[i].kind == MarkerKind::Dot ==> settings.in_palette(
            None,
            SurfaceClass::Marker,
        ),
        0 <= i < settings.markers@.len() && settings.markers@[i].kind == MarkerKind::Building
            ==> settings.in_palette(None, SurfaceClass::Marker),
        (forall|j: int| 0 <= j < settings.markers@.len() ==> #[trigger] settings.markers@[j].kind == MarkerKind::FlagHole)
            ==> !settings.has_colored_marker() && !settings.in_palette(surface, SurfaceClass::Marker),
{
    if 0 <= i < settings.markers@.len() {
        let k = settings.markers@[i].kind;
        assert(k == settings.markers@[i].kind);
    }
    if forall|j: int| 0 <= j < settings.markers@.len() ==> #[trigger] settings.markers@[j].kind == MarkerKind::FlagHole {
        if settings.has_colored_marker() {
            let j = choose|j: int| 0 <= j < settings.markers@.len() && #[trigger] settings.markers@[j].kind != MarkerKind::FlagHole;
            assert(settings.markers@[j].kind == MarkerKind::FlagHole);
        }
    }
}

/// The six base classes are always in the palette, in slots 0 to 5 in
/// class order.
pub proof fn law_base_six_lead_the_palette(settings: &GenerationSettings, surface: Option<&SurfaceField>)
    ensures
        forall|k: int|
            0 <= k < 6 ==> #[trigger] settings.in_palette(surface, class_at_index(k)) && settings.slots_before(surface, k)
                == k,
{
    assert forall|k: int| 0 <= k < 6 implies #[trigger] settings.in_palette(surface, class_at_index(k))
        && settings.slots_before(surface, k) == k by {
        lemma_base_slots(settings, surface, k);
    }
}

/// The first `k` base classes take exactly the first `k` slots.
proof fn lemma_base_slots(settings: &GenerationSettings, surface: Option<&SurfaceField>, k: int)
    requires
        0 <= k <= 6,
    ensures
        settings.slots_before(surface, k) == k,
        k < 6 ==> settings.in_palette(surface, class_at_index(k)),
    decreases k,
{
    if k > 0 {
        lemma_base_slots(settings, surface, k - 1);
    }
}

/// Two classes of the palette never share a slot, and every slot is below
/// the palette's length.
pub proof fn law_palette_slots_distinct(settings: &GenerationSettings, surface: Option<&SurfaceField>, j: int, k: int)
    requires
        0 <= j < k < 10,
        settings.in_palette(surface, class_at_index(j)),
        settings.in_palette(surface, class_at_index(k)),
    ensures
        settings.slots_before(surface, j) < settings.slots_before(surface, k),
        settings.slots_before(surface, k) < settings.slots_before(surface, 10),
{
    lemma_slots_before_monotone(settings, surface, j + 1, k);
    lemma_slots_before_bounded(settings, surface, k);
}

/// A palette built without surface data carries every class a palette built
/// with surface data carries: skipping the data test only adds slots.
pub proof fn law_palette_without_data_is_a_superset(
    settings: &GenerationSettings,
    field: &SurfaceField,
    class: SurfaceClass,
)
    ensures
        settings.in_palette(Some(field), class) ==> settings.in_palette(None, class),
{
}

// ---------------------------------------------------------------------------
// Sample budgets.

/// Step that automatic assembled sample counts are rounded up to.
pub const DETAIL_SAMPLE_STEP: u32 = 8;

/// `a * b`, or `u32::MAX` when the product does not fit.
pub fn saturating_product(a: u32, b: u32) -> (p: u32)
    ensures
        p == if a * b > u32::MAX { u32::MAX as int } else { a * b },
{
    match a.checked_mul(b) {
        Some(product) => product,
        None => u32::MAX,
    }
}

/// `a` divided by `b`, rounded up.
pub open spec fn div_ceil(a: int, b: int) -> int {
    (a + b - 1) / b
}

/// Samples per piece that cover `total` samples across `piece_count`
/// pieces: the total divided by the count (at least one), rounded up.
pub fn samples_per_piece_for_total(total: u32, piece_count: u32) -> (samples: u32)
    ensures
        samples == div_ceil(total as int, if piece_count >= 1 { piece_count as int } else { 1 }),
{
    let pieces = if piece_count >= 1 { piece_count } else { 1 };
    let whole = total / pieces;
    proof {
        vstd::arithmetic::div_mod::lemma_fundamental_div_mod(total as int, pieces as int);
    }
    if total % pieces == 0 {
        proof {
            assert(div_ceil(total as int, pieces as int) == whole) by (nonlinear_arith)
                requires
                    pieces >= 1,
                    total == pieces * whole + total % pieces,
                    total % pieces == 0,
            ;
        }
        whole
    } else {
        proof {
            assert(div_ceil(total as int, pieces as int) == whole + 1) by (nonlinear_arith)
                requires
                    pieces >= 1,
                    total == pieces * whole + total % pieces,
                    0 < total % pieces < pieces,
            ;
            assert(whole < u32::MAX) by (nonlinear_arith)
                requires
                    pieces >= 1,
                    total == pieces * whole + total % pieces,
                    0 < total % pieces < pieces,
                    total <= u32::MAX,
            ;
        }
        whole + 1
    }
}

/// The automatic assembled sample count from a span-scaled count: rounded
/// up to the sample step (saturating), never below `base`, then capped at
/// `maximum`.
pub open spec fn detail_samples(scaled: u32, base: u32, maximum: u32) -> int {
    let stepped = div_ceil(scaled as int, 8) * 8;
    let saturated = if stepped > u32::MAX { u32::MAX as int } else { stepped };
    let raised = if saturated >= base { saturated } else { base as int };
    if raised <= maximum { raised } else { maximum as int }
}

/// Rounds a span-scaled sample count; see `detail_samples`.
pub fn detail_samples_from_scaled(scaled: u32, base: u32, maximum: u32) -> (samples: u32)
    ensures
        samples == detail_samples(scaled, base, maximum),
{
    let steps = scaled / DETAIL_SAMPLE_STEP + if scaled % DETAIL_SAMPLE_STEP == 0 { 0 } else { 1 };
    proof {
        assert(steps == div_ceil(scaled as int, 8)) by (nonlinear_arith)
            requires
                scaled == (scaled / 8) * 8 + scaled % 8,
                0 <= scaled % 8 < 8,
                steps == scaled / 8 + if scaled % 8 == 0 { 0int } else { 1int },
        ;
    }
    let stepped = saturating_product(steps, DETAIL_SAMPLE_STEP);
    let raised = if stepped >= base { stepped } else { base };
    if raised <= maximum { raised } else { maximum }
}

impl GenerationSettings {
    /// Samples across the assembled raster before span scaling: four pieces'
    /// worth for a solid model, one per piece otherwise, saturating.
    pub fn base_detail_total(&self, per_piece: u32) -> (total: u32)
        ensures
            total == {
                let product = if self.solid_model {
                    per_piece * 4
                } else {
                    per_piece * (if self.rows >= self.columns { self.rows } else { self.columns })
                };
                if product > u32::MAX { u32::MAX as int } else { product }
            },
    {
        if self.solid_model {
            saturating_product(per_piece, 4)
        } else {
            saturating_product(per_piece, self.mesh_piece_count())
        }
    }

    /// Samples across all pieces together, saturating.
    pub fn assembled_samples(&self, per_piece: u32) -> (total: u32)
        ensures
            total == {
                let count = if self.solid_model {
                    1
                } else if self.rows >= self.columns {
                    self.rows
                } else {
                    self.columns
                };
                if per_piece * count > u32::MAX { u32::MAX as int } else { per_piece * count }
            },
    {
        saturating_product(per_piece, self.mesh_piece_count())
    }

    /// The sample raster of the whole model: one more sample than pieces
    /// times samples along each side, or a single piece for a solid model.
    pub fn sample_grid_dimensions(&self, samples_per_piece: u32) -> (dims: (usize, usize))
        requires
            (if self.solid_model { 1 } else { self.columns as int }) * samples_per_piece + 1 <= u32::MAX,
            (if self.solid_model { 1 } else { self.rows as int }) * samples_per_piece + 1 <= u32::MAX,
        ensures
            dims.0 == (if self.solid_model { 1 } else { self.columns as int }) * samples_per_piece + 1,
            dims.1 == (if self.solid_model { 1 } else { self.rows as int }) * samples_per_piece + 1,
    {
        let columns = if self.solid_model { 1 } else { self.columns };
        let rows = if self.solid_model { 1 } else { self.rows };
        ((columns * samples_per_piece + 1) as usize, (rows * samples_per_piece + 1) as usize)
    }

    /// Samples across the live height preview: the longer side's pieces
    /// times the effective samples per piece, plus one, kept within 96 to
    /// 384.
    pub fn preview_sample_count(&self, effective_samples_per_piece: u32) -> (count: usize)
        requires
            (if self.rows >= self.columns { self.rows as int } else { self.columns as int })
                * effective_samples_per_piece + 1 <= u32::MAX,
        ensures
            count == {
                let raw = (if self.rows >= self.columns { self.rows as int } else { self.columns as int })
                    * effective_samples_per_piece + 1;
                if raw < 96 { 96 } else if raw > 384 { 384 } else { raw }
            },
    {
        let longer = if self.rows >= self.columns { self.rows } else { self.columns };
        let raw = longer * effective_samples_per_piece + 1;
        let clamped = if raw < 96 { 96 } else if raw > 384 { 384 } else { raw };
        clamped as usize
    }
}

/// Terrain and overlay samples per piece of a model preview at a detail level.
pub open spec fn preview_samples(detail: PreviewDetail) -> (u32, u32) {
    match detail {
        PreviewDetail::Fast => (16, 32),
        PreviewDetail::Detailed => (32, 64),
        PreviewDetail::High => (48, 96),
    }
}

/// Turns settings into the draft a model preview builds: the preview's
/// per-piece sample counts, no explicit assembled counts and no fine
/// elevation detail. Every feature switch stays as it was.
pub fn model_preview_spec(settings: &mut GenerationSettings, detail: PreviewDetail)
    ensures
        *final(settings) == (GenerationSettings {
            samples_per_piece: preview_samples(detail).0,
            overlay_samples_per_piece: preview_samples(detail).1,
            mesh_samples_across: None,
            overlay_samples_across: None,
            fine_dem_detail: false,
            ..*old(settings)
        }),
{
    let (terrain, overlay) = match detail {
        PreviewDetail::Fast => (16u32, 32u32),
        PreviewDetail::Detailed => (32u32, 64u32),
        PreviewDetail::High => (48u32, 96u32),
    };
    settings.samples_per_piece = terrain;
    settings.overlay_samples_per_piece = overlay;
    settings.mesh_samples_across = None;
    settings.overlay_samples_across = None;
    settings.fine_dem_detail = false;
}

// ---------------------------------------------------------------------------
// Tray archives.

impl GenerationSettings {
    /// Turns settings into those a tray archive is written with: a solid
    /// model in color whose rock, water, road, building, trail, rail and
    /// aerial colors are the tray color, forest the contour color and snow
    /// the label color, with no trails and no railway or aerialway layer.
    pub fn for_tray_archive(&mut self)
        ensures
            final(self).solid_model,
            final(self).color.enabled,
            final(self).color.rock_color@ == old(self).tray.tray_color@,
            final(self).color.forest_color@ == old(self).tray.contour_color@,
            final(self).color.snow_color@ == old(self).tray.label_color@,
            final(self).color.water_color@ == old(self).tray.tray_color@,
            final(self).color.road_color@ == old(self).tray.tray_color@,
            final(self).color.building_color@ == old(self).tray.tray_color@,
            final(self).color.trail_color@ == old(self).tray.tray_color@,
            final(self).color.rail_color@ == old(self).tray.tray_color@,
            final(self).color.aerial_color@ == old(self).tray.tray_color@,
            final(self).trails@.len() == 0,
            !final(self).color.rail_enabled,
            !final(self).color.aerial_enabled,
            *final(self) == (GenerationSettings {
                solid_model: true,
                color: final(self).color,
                trails: final(self).trails,
                ..*old(self)
            }),
            final(self).color == (ColorSettings {
                enabled: true,
                rail_enabled: false,
                aerial_enabled: false,
                forest_color: final(self).color.forest_color,
                rock_color: final(self).color.rock_color,
                snow_color: final(self).color.snow_color,
                water_color: final(self).color.water_color,
                road_color: final(self).color.road_color,
                building_color: final(self).color.building_color,
                trail_color: final(self).color.trail_color,
                rail_color: final(self).color.rail_color,
                aerial_color: final(self).color.aerial_color,
                ..old(self).color
            }),
    {
        self.solid_model = true;
        self.color.enabled = true;
        self.color.rock_color = self.tray.tray_color.clone();
        self.color.forest_color = self.tray.contour_color.clone();
        self.color.snow_color = self.tray.label_color.clone();
        self.color.water_color = self.tray.tray_color.clone();
        self.color.road_color = self.tray.tray_color.clone();
        self.color.building_color = self.tray.tray_color.clone();
        self.color.trail_color = self.tray.tray_color.clone();
        self.color.rail_color = self.tray.tray_color.clone();
        self.color.aerial_color = self.tray.tray_color.clone();
        self.trails = Vec::new();
        self.color.rail_enabled = false;
        self.color.aerial_enabled = false;
    }
}

/// A tray archive without colored markers asks only for the tray, contour
/// and label colors: every class in its palette paints in one of them.
pub proof fn law_tray_palette_uses_tray_colors(settings: &GenerationSettings, class: SurfaceClass)
    requires
        settings.color.rock_color@ == settings.tray.tray_color@,
        settings.color.forest_color@ == settings.tray.contour_color@,
        settings.color.snow_color@ == settings.tray.label_color@,
        settings.color.water_color@ == settings.tray.tray_color@,
        settings.color.road_color@ == settings.tray.tray_color@,
        settings.color.building_color@ == settings.tray.tray_color@,
        settings.trails@.len() == 0,
        !settings.color.rail_enabled,
        !settings.color.aerial_enabled,
        !settings.has_colored_marker(),
        settings.in_palette(None, class),
    ensures
        settings.color_of(class) == settings.tray.tray_color@ || settings.color_of(class)
            == settings.tray.contour_color@ || settings.color_of(class) == settings.tray.label_color@,
{
}

// ---------------------------------------------------------------------------
// Defaults.

impl Default for ColorSettings {
    /// Color output off; both rail-family layers on, each in its own color.
    fn default() -> (c: Self)
        ensures
            !c.enabled,
            c.roads_enabled,
            c.rail_enabled,
            c.aerial_enabled,
            c.rail_style == RailStyle::Separate,
            c.aerial_style == AerialStyle::Separate,
            c.forest_color@ == "#28543A"@,
            c.rock_color@ == "#7C7468"@,
            c.snow_color@ == "#F4F3EC"@,
            c.water_color@ == "#2F76B5"@,
            c.road_color@ == "#D8A33C"@,
            c.building_color@ == "#B8A890"@,
            c.trail_color@ == "#D6336C"@,
            c.rail_color@ == "#C43D3D"@,
            c.aerial_color@ == "#6C4CB6"@,
    {
        ColorSettings {
            enabled: false,
            roads_enabled: true,
            rail_enabled: true,
            aerial_enabled: true,
            rail_style: RailStyle::Separate,
            aerial_style: AerialStyle::Separate,
            forest_color: "#28543A".to_owned(),
            rock_color: "#7C7468".to_owned(),
            snow_color: "#F4F3EC".to_owned(),
            water_color: "#2F76B5".to_owned(),
            road_color: "#D8A33C".to_owned(),
            building_color: "#B8A890".to_owned(),
            trail_color: "#D6336C".to_owned(),
            rail_color: "#C43D3D".to_owned(),
            aerial_color: "#6C4CB6".to_owned(),
        }
    }
}

impl Default for TraySettings {
    /// No tray; dark rim, light contours and label, 18 contours, one segment.
    fn default() -> (t: Self)
        ensures
            !t.enabled,
            t.tray_color@ == "#252822"@,
            t.contour_color@ == "#E7E4D8"@,
            t.label_color@ == "#F4F3EC"@,
            t.contour_count == 18,
            t.segment_columns == 1,
            t.segment_rows == 1,
    {
        TraySettings {
            enabled: false,
            tray_color: "#252822".to_owned(),
            contour_color: "#E7E4D8".to_owned(),
            label_color: "#F4F3EC".to_owned(),
            contour_count: 18,
            segment_columns: 1,
            segment_rows: 1,
        }
    }
}

impl Default for GenerationSettings {
    /// Three by three pieces of 64 terrain and 112 overlay samples, one
    /// tile, "Mount Rainier", no buildings, trails or markers.
    fn default() -> (s: Self)
        ensures
            s.rows == 3 && s.columns == 3,
            s.adjacent_columns == 1 && s.adjacent_rows == 1,
            s.adjacent_tile_column == 0 && s.adjacent_tile_row == 0,
            s.super_tile_anchor == SuperTileAnchor::TopLeft,
            s.puzzle_tile_column == 0 && s.puzzle_tile_row == 0,
            s.samples_per_piece == 64 && s.overlay_samples_per_piece == 112,
            s.mesh_samples_across is None && s.overlay_samples_across is None,
            !s.fine_dem_detail,
            s.place_name@ == "Mount Rainier"@,
            !s.solid_model,
            !s.buildings_enabled,
            s.marker_color@ == "#E24A33"@,
            s.trails@.len() == 0 && s.markers@.len() == 0,
            !s.color.enabled && s.color.rail_enabled && s.color.aerial_enabled,
            s.color.rail_style == RailStyle::Separate && s.color.aerial_style == AerialStyle::Separate,
            !s.tray.enabled,
    {
        GenerationSettings {
            rows: 3,
            columns: 3,
            adjacent_columns: 1,
            adjacent_rows: 1,
            adjacent_tile_column: 0,
            adjacent_tile_row: 0,
            super_tile_anchor: SuperTileAnchor::TopLeft,
            puzzle_tile_column: 0,
            puzzle_tile_row: 0,
            samples_per_piece: 64,
            overlay_samples_per_piece: 112,
            mesh_samples_across: None,
            overlay_samples_across: None,
            fine_dem_detail: false,
            place_name: "Mount Rainier".to_owned(),
            tray: TraySettings::default(),
            solid_model: false,
            buildings_enabled: false,
            marker_color: "#E24A33".to_owned(),
            color: ColorSettings::default(),
            trails: Vec::new(),
            markers: Vec::new(),
        }
    }
}

} // verus!
