//! The raster land-cover field: per-sample surface classes, the tile-edge
//! ring, small-patch filtering and the steep-slope reclassification.
use vstd::prelude::*;
use crate::classes::{SurfaceClass, CLASS_COUNT, class_index, class_at_index, lemma_class_index_bijection};
use crate::grid::{
    grid_adjacent, grid_shape, connected, component, lemma_adjacent_symmetric, lemma_connected_in_bounds,
    lemma_connected_step, lemma_connected_symmetric, lemma_connected_transitive,
    lemma_closed_set_holds_component, lemma_component_finite, lemma_component_shared,
    lemma_connected_refl, lemma_cell_coordinates, lemma_cell_index,
};

verus! {

/// Why a surface field could not be built or restored.
#[derive(Debug, Clone, Copy, PartialEq, Eq, Structural)]
pub enum SurfaceError {
    /// Either side has fewer than two samples.
    TooSmall,
    /// The class count is not `width * height`.
    DimensionMismatch,
    /// A restored edge ring has the wrong length.
    EdgeRingMismatch,
}

impl SurfaceError {
    /// The message this error reads as.
    pub fn message(self) -> (text: &'static str)
        ensures
            text@ == surface_error_text(self),
    {
        match self {
            SurfaceError::TooSmall => "surface field must be at least 2 by 2",
            SurfaceError::DimensionMismatch => "surface field dimensions do not match its values",
            SurfaceError::EdgeRingMismatch => "surface edge ring does not match field dimensions",
        }
    }
}

/// The message text of each surface error.
pub open spec fn surface_error_text(error: SurfaceError) -> Seq<char> {
    match error {
        SurfaceError::TooSmall => "surface field must be at least 2 by 2"@,
        SurfaceError::DimensionMismatch => "surface field dimensions do not match its values"@,
        SurfaceError::EdgeRingMismatch => "surface edge ring does not match field dimensions"@,
    }
}

/// What the field records of one painted vector area: the class it carries,
/// if any, and whether it is a building footprint with a positive height.
#[derive(Debug, Clone, Copy, PartialEq, Eq, Structural)]
pub struct VectorAreaClass {
    pub class: Option<SurfaceClass>,
    pub building: bool,
}

/// A `width` by `height` row-major raster of surface classes. `classes` is
/// the working raster; `base_classes` the raster before vector overlays.
pub struct SurfaceField {
    pub width: usize,
    pub height: usize,
    pub classes: Vec<SurfaceClass>,
    pub source: String,
    pub base_classes: Vec<SurfaceClass>,
    /// Classes of the vector lines painted onto the field, in paint order.
    pub vector_line_classes: Vec<SurfaceClass>,
    /// The vector areas painted onto the field, in paint order.
    pub vector_areas: Vec<VectorAreaClass>,
}

impl SurfaceField {
    /// The raster shape invariant every constructor establishes.
    pub open spec fn wf(&self) -> bool {
        &&& self.width >= 2
        &&& self.height >= 2
        &&& self.classes@.len() == self.width * self.height
        &&& self.base_classes@.len() == self.classes@.len()
    }
}

// ---------------------------------------------------------------------------
// Small-patch filtering.

/// 1 when the neighbour at `nb` exists, differs from `own` and carries `k`.
pub open spec fn side_tally(g: Seq<SurfaceClass>, present: bool, nb: int, own: SurfaceClass, k: SurfaceClass) -> nat {
    if present && g[nb] != own && g[nb] == k { 1nat } else { 0nat }
}

/// How many edge neighbours of cell `i` carry class `k`, counting only
/// neighbours whose class differs from `own`.
pub open spec fn neighbour_tally_at(
    g: Seq<SurfaceClass>,
    w: int,
    h: int,
    i: int,
    own: SurfaceClass,
    k: SurfaceClass,
) -> nat {
    side_tally(g, i % w > 0, i - 1, own, k) + side_tally(g, i % w + 1 < w, i + 1, own, k)
        + side_tally(g, i / w > 0, i - w, own, k) + side_tally(g, i / w + 1 < h, i + w, own, k)
}

/// Sum of `neighbour_tally_at` over the members of `s` below `n`.
pub open spec fn region_tally(
    g: Seq<SurfaceClass>,
    w: int,
    h: int,
    s: Set<int>,
    own: SurfaceClass,
    k: SurfaceClass,
    n: int,
) -> nat
    decreases n,
{
    if n <= 0 {
        0
    } else {
        region_tally(g, w, h, s, own, k, n - 1) + if s.contains(n - 1) {
            neighbour_tally_at(g, w, h, n - 1, own, k)
        } else {
            0
        }
    }
}

/// How often each class borders the region, in class-index order.
pub open spec fn region_border_counts(g: Seq<SurfaceClass>, w: int, h: int, s: Set<int>, own: SurfaceClass) -> Seq<nat> {
    Seq::new(10, |k: int| region_tally(g, w, h, s, own, class_at_index(k), g.len() as int))
}

/// Index of the largest of the first `n` counts; ties go to the lower index.
pub open spec fn best_index(c: Seq<nat>, n: int) -> int
    decreases n,
{
    if n <= 1 {
        0
    } else {
        let b = best_index(c, n - 1);
        if c[n - 1] > c[b] {
            n - 1
        } else {
            b
        }
    }
}

/// The class a too-small region takes: the class bordering it most often,
/// ties to the earlier class, Rock when nothing borders it.
pub open spec fn replacement_class(g: Seq<SurfaceClass>, w: int, h: int, s: Set<int>, own: SurfaceClass) -> SurfaceClass {
    class_at_index(best_index(region_border_counts(g, w, h, s, own), 10))
}

/// The class cell `i` ends with after one filtering pass with `minimum` cells.
pub open spec fn filtered_class(g: Seq<SurfaceClass>, w: int, h: int, minimum: int, i: int) -> SurfaceClass {
    let region = component(g, w, h, i);
    if region.len() < minimum {
        replacement_class(g, w, h, region, g[i])
    } else {
        g[i]
    }
}

/// One whole filtering pass.
pub open spec fn filter_pass(g: Seq<SurfaceClass>, w: int, h: int, minimum: int) -> Seq<SurfaceClass> {
    Seq::new(g.len(), |i: int| filtered_class(g, w, h, minimum, i))
}

/// Some cell below `start` reaches `j`.
pub open spec fn seen_before(g: Seq<SurfaceClass>, w: int, h: int, start: int, j: int) -> bool {
    exists|s: int| 0 <= s < start && #[trigger] connected(g, w, h, s, j)
}

/// The counts as mathematical integers.
pub open spec fn as_ints(s: Seq<usize>) -> Seq<int> {
    s.map_values(|x: usize| x as int)
}

/// The breadth-first search state while exploring the region of `start`.
pub open spec fn bfs_state(
    g: Seq<SurfaceClass>,
    w: int,
    h: int,
    start: int,
    visited: Seq<bool>,
    list: Seq<int>,
) -> bool {
    &&& visited.len() == g.len()
    &&& list.len() >= 1
    &&& list[0] == start
    &&& list.no_duplicates()
    &&& forall|t: int| 0 <= t < list.len() ==> 0 <= #[trigger] list[t] < g.len()
    &&& forall|t: int| 0 <= t < list.len() ==> connected(g, w, h, start, #[trigger] list[t])
    &&& forall|j: int|
        0 <= j < g.len() ==> (#[trigger] visited[j] <==> (seen_before(g, w, h, start, j) || list.contains(j)))
}

/// Every member below `head` has its same-class neighbours in the list.
pub open spec fn bfs_closed(g: Seq<SurfaceClass>, w: int, h: int, list: Seq<int>, head: int) -> bool {
    forall|t: int, b: int|
        #![trigger list[t], grid_adjacent(w, h, list[t], b)]
        0 <= t < head && grid_adjacent(w, h, list[t], b) && g[b] == g[list[t]] ==> list.contains(b)
}

/// Sum of `neighbour_tally_at` over the first `n` list entries.
pub open spec fn list_tally(
    g: Seq<SurfaceClass>,
    w: int,
    h: int,
    list: Seq<int>,
    own: SurfaceClass,
    k: SurfaceClass,
    n: int,
) -> nat
    decreases n,
{
    if n <= 0 {
        0
    } else {
        list_tally(g, w, h, list, own, k, n - 1) + neighbour_tally_at(g, w, h, list[n - 1], own, k)
    }
}

/// Adding one cell to a region adds its class to the neighbour tally.
proof fn lemma_region_tally_insert(
    g: Seq<SurfaceClass>,
    w: int,
    h: int,
    s: Set<int>,
    x: int,
    own: SurfaceClass,
    k: SurfaceClass,
    n: int,
)
    requires
        !s.contains(x),
        0 <= x,
    ensures
        region_tally(g, w, h, s.insert(x), own, k, n) == region_tally(g, w, h, s, own, k, n) + if x < n {
            neighbour_tally_at(g, w, h, x, own, k)
        } else {
            0
        },
    decreases n,
{
    if n > 0 {
        lemma_region_tally_insert(g, w, h, s, x, own, k, n - 1);
    }
}

/// Tallying a list of distinct cells equals tallying the set they form.
proof fn lemma_list_tally_is_region_tally(
    g: Seq<SurfaceClass>,
    w: int,
    h: int,
    list: Seq<int>,
    own: SurfaceClass,
    k: SurfaceClass,
    n: int,
)
    requires
        list.no_duplicates(),
        0 <= n <= list.len(),
        forall|t: int| 0 <= t < list.len() ==> 0 <= #[trigger] list[t] < g.len(),
    ensures
        list_tally(g, w, h, list, own, k, n) == region_tally(g, w, h, list.subrange(0, n).to_set(), own, k, g.len() as int),
    decreases n,
{
    if n == 0 {
        assert(list.subrange(0, 0).to_set() =~= Set::empty());
        lemma_region_tally_empty(g, w, h, own, k, g.len() as int);
    } else {
        lemma_list_tally_is_region_tally(g, w, h, list, own, k, n - 1);
        let prev = list.subrange(0, n - 1);
        let cur = list.subrange(0, n);
        assert forall|x: int| cur.to_set().contains(x) <==> prev.to_set().insert(list[n - 1]).contains(x) by {
            if cur.contains(x) {
                let t = choose|t: int| 0 <= t < cur.len() && cur[t] == x;
                if t < n - 1 {
                    assert(prev[t] == x);
                }
            }
            if prev.contains(x) {
                let t = choose|t: int| 0 <= t < prev.len() && prev[t] == x;
                assert(cur[t] == x);
            }
            if x == list[n - 1] {
                assert(cur[n - 1] == x);
            }
        }
        assert(cur.to_set() =~= prev.to_set().insert(list[n - 1]));
        assert(!prev.to_set().contains(list[n - 1])) by {
            if prev.to_set().contains(list[n - 1]) {
                let t = choose|t: int| 0 <= t < prev.len() && prev[t] == list[n - 1];
                assert(list[t] == list[n - 1]);
            }
        }
        lemma_region_tally_insert(g, w, h, prev.to_set(), list[n - 1], own, k, g.len() as int);
    }
}

/// The empty region has an empty tally.
proof fn lemma_region_tally_empty(
    g: Seq<SurfaceClass>,
    w: int,
    h: int,
    own: SurfaceClass,
    k: SurfaceClass,
    n: int,
)
    ensures
        region_tally(g, w, h, Set::empty(), own, k, n) == 0,
    decreases n,
{
    if n > 0 {
        lemma_region_tally_empty(g, w, h, own, k, n - 1);
    }
}

/// Adds cell `nb` to the search when it carries the region's class and has
/// not been visited yet.
fn enqueue_same_class(
    snapshot: &Vec<SurfaceClass>,
    w: usize,
    h: usize,
    start: usize,
    c: usize,
    nb: usize,
    visited: &mut Vec<bool>,
    list: &mut Vec<usize>,
)
    requires
        grid_shape(snapshot@, w as int, h as int),
        bfs_state(snapshot@, w as int, h as int, start as int, old(visited)@, as_ints(old(list)@)),
        !seen_before(snapshot@, w as int, h as int, start as int, start as int),
        connected(snapshot@, w as int, h as int, start as int, c as int),
        grid_adjacent(w as int, h as int, c as int, nb as int),
    ensures
        bfs_state(snapshot@, w as int, h as int, start as int, final(visited)@, as_ints(final(list)@)),
        as_ints(old(list)@).is_prefix_of(as_ints(final(list)@)),
        snapshot@[nb as int] == snapshot@[c as int] ==> as_ints(final(list)@).contains(nb as int),
{
    let ghost g = snapshot@;
    let ghost wi = w as int;
    let ghost hi = h as int;
    let ghost si = start as int;
    proof {
        lemma_adjacent_symmetric(wi, hi, c as int, nb as int);
        lemma_connected_in_bounds(g, wi, hi, si, c as int);
    }
    let ghost old_list = as_ints(list@);
    let ghost old_visited = visited@;
    if snapshot[nb] == snapshot[c] {
        if !visited[nb] {
            proof {
                lemma_connected_step(g, wi, hi, si, c as int, nb as int);
                assert(!old_list.contains(nb as int));
            }
            visited.set(nb, true);
            list.push(nb);
            proof {
                let new_list = as_ints(list@);
                assert(new_list =~= old_list.push(nb as int));
                assert forall|j: int| 0 <= j < g.len() implies (#[trigger] visited@[j] <==> (
                    seen_before(g, wi, hi, si, j) || new_list.contains(j))) by {
                    if j == nb as int {
                        assert(new_list[new_list.len() - 1] == j);
                    } else {
                        assert(visited@[j] == old_visited[j]);
                        if old_list.contains(j) {
                            let t = choose|t: int| 0 <= t < old_list.len() && old_list[t] == j;
                            assert(new_list[t] == j);
                        }
                        if new_list.contains(j) {
                            let t = choose|t: int| 0 <= t < new_list.len() && new_list[t] == j;
                            assert(old_list[t] == j);
                        }
                    }
                }
                assert(new_list.no_duplicates()) by {
                    assert forall|a: int, b: int| 0 <= a < b < new_list.len() implies new_list[a] != new_list[b] by {
                        if b == new_list.len() - 1 {
                            assert(old_list[a] == new_list[a]);
                        } else {
                            assert(old_list[a] == new_list[a] && old_list[b] == new_list[b]);
                        }
                    }
                }
                assert forall|t: int| 0 <= t < new_list.len() implies connected(g, wi, hi, si, #[trigger] new_list[t]) by {
                    if t < old_list.len() {
                        assert(new_list[t] == old_list[t]);
                    }
                }
                assert forall|t: int| 0 <= t < new_list.len() implies 0 <= #[trigger] new_list[t] < g.len() by {
                    if t < old_list.len() {
                        assert(new_list[t] == old_list[t]);
                    }
                }
                assert(new_list[new_list.len() - 1] == nb as int);
            }
        } else {
            proof {
                // A visited same-class neighbour is in this search: had an
                // earlier cell reached it, that cell would reach `start` too.
                if !old_list.contains(nb as int) {
                    assert(seen_before(g, wi, hi, si, nb as int));
                    let s = choose|s: int| 0 <= s < si && #[trigger] connected(g, wi, hi, s, nb as int);
                    lemma_connected_step(g, wi, hi, si, c as int, nb as int);
                    lemma_connected_symmetric(g, wi, hi, si, nb as int);
                    lemma_connected_transitive(g, wi, hi, s, nb as int, si);
                    assert(seen_before(g, wi, hi, si, si));
                }
            }
        }
    }
}


/// Whatever a prefix holds, the longer sequence holds too.
proof fn lemma_prefix_contains(a: Seq<int>, b: Seq<int>, x: int)
    requires
        a.is_prefix_of(b),
        a.contains(x),
    ensures
        b.contains(x),
{
    let u = choose|u: int| 0 <= u < a.len() && a[u] == x;
    assert(b[u] == x);
}

/// Enqueues every same-class edge neighbour of cell `c` not yet visited.
fn expand_cell(
    snapshot: &Vec<SurfaceClass>,
    w: usize,
    h: usize,
    start: usize,
    c: usize,
    visited: &mut Vec<bool>,
    list: &mut Vec<usize>,
)
    requires
        grid_shape(snapshot@, w as int, h as int),
        bfs_state(snapshot@, w as int, h as int, start as int, old(visited)@, as_ints(old(list)@)),
        !seen_before(snapshot@, w as int, h as int, start as int, start as int),
        connected(snapshot@, w as int, h as int, start as int, c as int),
    ensures
        bfs_state(snapshot@, w as int, h as int, start as int, final(visited)@, as_ints(final(list)@)),
        as_ints(old(list)@).is_prefix_of(as_ints(final(list)@)),
        forall|b: int|
            grid_adjacent(w as int, h as int, c as int, b) && snapshot@[b] == snapshot@[c as int]
                ==> #[trigger] as_ints(final(list)@).contains(b),
{
    let ghost g = snapshot@;
    let ghost wi = w as int;
    let ghost hi = h as int;
    let ghost ci = c as int;
    let ghost l0 = as_ints(list@);
    proof {
        lemma_connected_in_bounds(g, wi, hi, start as int, ci);
        lemma_cell_coordinates(wi, hi, ci);
    }
    let cells = snapshot.len();
    let x = c % w;
    let y = c / w;
    proof {
        assert(cells == wi * hi);
        assert(ci == (y as int) * wi + x as int);
    }
    if x > 0 {
        enqueue_same_class(snapshot, w, h, start, c, c - 1, visited, list);
    }
    let ghost l1 = as_ints(list@);
    if x + 1 < w {
        proof {
            lemma_cell_index(wi, hi, y as int, x as int + 1);
        }
        enqueue_same_class(snapshot, w, h, start, c, c + 1, visited, list);
    }
    let ghost l2 = as_ints(list@);
    if y > 0 {
        proof {
            assert(ci >= wi) by (nonlinear_arith)
                requires
                    ci == (ci / wi) * wi + (ci % wi),
                    ci / wi >= 1,
                    ci % wi >= 0,
                    wi > 0,
            ;
        }
        enqueue_same_class(snapshot, w, h, start, c, c - w, visited, list);
    }
    let ghost l3 = as_ints(list@);
    if y + 1 < h {
        proof {
            lemma_cell_index(wi, hi, y as int + 1, x as int);
            assert((y as int + 1) * wi == (y as int) * wi + wi) by (nonlinear_arith);
        }
        enqueue_same_class(snapshot, w, h, start, c, c + w, visited, list);
    }
    proof {
        let l4 = as_ints(list@);
        assert(l0.is_prefix_of(l4));
        assert forall|b: int|
            grid_adjacent(wi, hi, ci, b) && g[b] == g[ci] implies #[trigger] l4.contains(b) by {
            if x > 0 && b == ci - 1 {
                lemma_prefix_contains(l1, l4, b);
            } else if x + 1 < w && b == ci + 1 {
                lemma_prefix_contains(l2, l4, b);
            } else if y > 0 && b == ci - wi {
                lemma_prefix_contains(l3, l4, b);
            }
        }
    }
}

/// A duplicate-free list of indices below `n` holds at most `n` entries.
proof fn lemma_unique_indices_bounded(list: Seq<int>, n: int)
    requires
        list.no_duplicates(),
        0 <= n,
        forall|t: int| 0 <= t < list.len() ==> 0 <= #[trigger] list[t] < n,
    ensures
        list.len() <= n,
{
    list.unique_seq_to_set();
    assert(list.to_set().subset_of(vstd::set_lib::set_int_range(0, n)));
    vstd::set_lib::lemma_int_range(0, n);
    vstd::set_lib::lemma_len_subset(list.to_set(), vstd::set_lib::set_int_range(0, n));
}

/// Breadth-first search of the same-class region holding `start`. Returns
/// the region's cells in discovery order and marks them visited.
fn explore_region(
    snapshot: &Vec<SurfaceClass>,
    w: usize,
    h: usize,
    start: usize,
    visited: &mut Vec<bool>,
) -> (list: Vec<usize>)
    requires
        grid_shape(snapshot@, w as int, h as int),
        start < snapshot@.len(),
        old(visited)@.len() == snapshot@.len(),
        forall|j: int|
            0 <= j < snapshot@.len() ==> (#[trigger] old(visited)@[j] <==> seen_before(
                snapshot@,
                w as int,
                h as int,
                start as int,
                j,
            )),
        !old(visited)@[start as int],
    ensures
        as_ints(list@).no_duplicates(),
        list@.len() >= 1,
        list@[0] == start,
        forall|t: int| 0 <= t < list@.len() ==> #[trigger] list@[t] < snapshot@.len(),
        forall|j: int|
            0 <= j < snapshot@.len() ==> (as_ints(list@).contains(j) <==> component(
                snapshot@,
                w as int,
                h as int,
                start as int,
            ).contains(j)),
        list@.len() == component(snapshot@, w as int, h as int, start as int).len(),
        final(visited)@.len() == snapshot@.len(),
        forall|j: int|
            0 <= j < snapshot@.len() ==> (#[trigger] final(visited)@[j] <==> (seen_before(
                snapshot@,
                w as int,
                h as int,
                start as int,
                j,
            ) || component(snapshot@, w as int, h as int, start as int).contains(j))),
{
    let ghost g = snapshot@;
    let ghost wi = w as int;
    let ghost hi = h as int;
    let ghost si = start as int;
    let ghost n = g.len() as int;
    let ghost initial_visited = visited@;
    proof {
        lemma_connected_refl(g, wi, hi, si);
    }
    visited.set(start, true);
    let mut list: Vec<usize> = Vec::new();
    list.push(start);
    proof {
        let l = as_ints(list@);
        assert(l =~= seq![si]);
        assert forall|j: int| 0 <= j < g.len() implies (#[trigger] visited@[j] <==> (seen_before(g, wi, hi, si, j) || l.contains(j))) by {
            if j == si {
                assert(l[0] == j);
            } else {
                assert(visited@[j] == initial_visited[j]);
            }
        }
        assert(bfs_state(g, wi, hi, si, visited@, l));
    }
    let mut head: usize = 0;
    while head < list.len()
        invariant
            grid_shape(g, wi, hi),
            g == snapshot@,
            wi == w,
            hi == h,
            si == start,
            n == g.len(),
            0 <= si < n,
            !seen_before(g, wi, hi, si, si),
            bfs_state(g, wi, hi, si, visited@, as_ints(list@)),
            head <= list@.len(),
            list@.len() <= n,
            bfs_closed(g, wi, hi, as_ints(list@), head as int),
        decreases n - head,
    {
        let c = list[head];
        let ghost before = as_ints(list@);
        proof {
            assert(before[head as int] == c as int);
        }
        expand_cell(snapshot, w, h, start, c, visited, &mut list);
        head = head + 1;
        proof {
            let l = as_ints(list@);
            assert forall|t: int, b: int|
                #![trigger l[t], grid_adjacent(wi, hi, l[t], b)]
                0 <= t < head && grid_adjacent(wi, hi, l[t], b) && g[b] == g[l[t]] implies l.contains(b) by {
                assert(l[t] == before[t]);
                if t < head - 1 {
                    assert(grid_adjacent(wi, hi, before[t], b));
                    lemma_prefix_contains(before, l, b);
                }
            }
            lemma_unique_indices_bounded(l, n);
        }
    }
    proof {
        let l = as_ints(list@);
        let region = component(g, wi, hi, si);
        let t_set = l.to_set();
        assert forall|a: int, b: int|
            #![trigger t_set.contains(a), grid_adjacent(wi, hi, a, b)]
            t_set.contains(a) && grid_adjacent(wi, hi, a, b) && g[b] == g[a] implies t_set.contains(b) by {
            let u = choose|u: int| 0 <= u < l.len() && l[u] == a;
            assert(grid_adjacent(wi, hi, l[u], b));
        }
        assert(t_set.contains(si)) by {
            assert(l[0] == si);
        }
        assert forall|j: int| 0 <= j < g.len() implies (l.contains(j) <==> region.contains(j)) by {
            if region.contains(j) {
                lemma_closed_set_holds_component(g, wi, hi, si, t_set, j);
            }
            if l.contains(j) {
                let u = choose|u: int| 0 <= u < l.len() && l[u] == j;
                assert(connected(g, wi, hi, si, l[u]));
            }
        }
        lemma_component_finite(g, wi, hi, si);
        assert forall|j: int| region.contains(j) <==> t_set.contains(j) by {
            if region.contains(j) {
                lemma_connected_in_bounds(g, wi, hi, si, j);
            }
            if t_set.contains(j) {
                let u = choose|u: int| 0 <= u < l.len() && l[u] == j;
            }
        }
        assert(region =~= t_set);
        l.unique_seq_to_set();
        assert forall|t: int| 0 <= t < list@.len() implies #[trigger] list@[t] < snapshot@.len() by {
            assert(l[t] == list@[t] as int);
        }
        assert forall|j: int| 0 <= j < snapshot@.len() implies (#[trigger] visited@[j] <==> (seen_before(g, wi, hi, si, j) || region.contains(j))) by {
            assert(visited@[j] <==> (seen_before(g, wi, hi, si, j) || l.contains(j)));
        }
        assert(list@[0] as int == l[0]);
    }
    list
}

/// Counts neighbour `nb` toward its class when it differs from `own`.
fn bump_neighbour(snapshot: &Vec<SurfaceClass>, nb: usize, own: SurfaceClass, counts: &mut Vec<u128>)
    requires
        nb < snapshot@.len(),
        old(counts)@.len() == CLASS_COUNT,
        forall|k: int| 0 <= k < 10 ==> #[trigger] old(counts)@[k] < u128::MAX,
    ensures
        final(counts)@.len() == CLASS_COUNT,
        forall|k: int|
            0 <= k < 10 ==> #[trigger] final(counts)@[k] == old(counts)@[k] + side_tally(
                snapshot@,
                true,
                nb as int,
                own,
                class_at_index(k),
            ),
{
    let class = snapshot[nb];
    if class != own {
        let k = class.material_index() as usize;
        proof {
            lemma_class_index_bijection(class, 0);
        }
        let bumped = counts[k] + 1;
        counts.set(k, bumped);
        proof {
            assert forall|j: int| 0 <= j < 10 && j != k implies class_at_index(j) != class by {
                lemma_class_index_bijection(class, j);
            }
        }
    }
}

/// Adds the border tallies of cell `c` of a region of class `own`.
#[verifier::rlimit(30)]
fn tally_cell(
    snapshot: &Vec<SurfaceClass>,
    w: usize,
    h: usize,
    c: usize,
    own: SurfaceClass,
    counts: &mut Vec<u128>,
)
    requires
        grid_shape(snapshot@, w as int, h as int),
        c < snapshot@.len(),
        old(counts)@.len() == CLASS_COUNT,
        forall|k: int| 0 <= k < 10 ==> #[trigger] old(counts)@[k] + 4 <= u128::MAX,
    ensures
        final(counts)@.len() == CLASS_COUNT,
        forall|k: int|
            0 <= k < 10 ==> #[trigger] final(counts)@[k] == old(counts)@[k] + neighbour_tally_at(
                snapshot@,
                w as int,
                h as int,
                c as int,
                own,
                class_at_index(k),
            ),
{
    let ghost g = snapshot@;
    let ghost wi = w as int;
    let ghost hi = h as int;
    let ghost ci = c as int;
    let ghost c0 = counts@;
    proof {
        lemma_cell_coordinates(wi, hi, ci);
    }
    let cells = snapshot.len();
    let x = c % w;
    let y = c / w;
    proof {
        assert(cells == wi * hi);
        assert(ci == (y as int) * wi + x as int);
    }
    if x > 0 {
        bump_neighbour(snapshot, c - 1, own, counts);
    }
    let ghost c1 = counts@;
    assert(forall|k: int| 0 <= k < 10 ==> #[trigger] c1[k] <= c0[k] + 1);
    if x + 1 < w {
        proof {
            lemma_cell_index(wi, hi, y as int, x as int + 1);
        }
        bump_neighbour(snapshot, c + 1, own, counts);
    }
    let ghost c2 = counts@;
    assert(forall|k: int| 0 <= k < 10 ==> #[trigger] c2[k] <= c1[k] + 1);
    if y > 0 {
        proof {
            assert(ci >= wi) by (nonlinear_arith)
                requires
                    ci == (ci / wi) * wi + (ci % wi),
                    ci / wi >= 1,
                    ci % wi >= 0,
                    wi > 0,
            ;
        }
        bump_neighbour(snapshot, c - w, own, counts);
    }
    let ghost c3 = counts@;
    assert(forall|k: int| 0 <= k < 10 ==> #[trigger] c3[k] <= c2[k] + 1);
    if y + 1 < h {
        proof {
            lemma_cell_index(wi, hi, y as int + 1, x as int);
            assert((y as int + 1) * wi == (y as int) * wi + wi) by (nonlinear_arith);
        }
        bump_neighbour(snapshot, c + w, own, counts);
    }
    proof {
        assert forall|k: int| 0 <= k < 10 implies #[trigger] counts@[k] == c0[k] + neighbour_tally_at(
            g, wi, hi, ci, own, class_at_index(k),
        ) by {
            assert(c1[k] == c0[k] + side_tally(g, x > 0, ci - 1, own, class_at_index(k)));
            assert(c2[k] == c1[k] + side_tally(g, x + 1 < w, ci + 1, own, class_at_index(k)));
            assert(c3[k] == c2[k] + side_tally(g, y > 0, ci - wi, own, class_at_index(k)));
        }
    }
}

/// The border tallies of the regions listed in `list`, per class index.
pub open spec fn list_border_counts(
    g: Seq<SurfaceClass>,
    w: int,
    h: int,
    list: Seq<int>,
    own: SurfaceClass,
) -> Seq<nat> {
    Seq::new(10, |k: int| list_tally(g, w, h, list, own, class_at_index(k), list.len() as int))
}

/// The counts kept while exploring match the tally of the explored region.
proof fn lemma_list_counts_match_region(
    g: Seq<SurfaceClass>,
    w: int,
    h: int,
    list: Seq<int>,
    own: SurfaceClass,
    region: Set<int>,
)
    requires
        list.no_duplicates(),
        forall|t: int| 0 <= t < list.len() ==> 0 <= #[trigger] list[t] < g.len(),
        forall|x: int| region.contains(x) <==> list.contains(x),
    ensures
        list_border_counts(g, w, h, list, own) == region_border_counts(g, w, h, region, own),
{
    assert(list.subrange(0, list.len() as int) =~= list);
    assert(list.to_set() =~= region);
    assert forall|k: int| 0 <= k < 10 implies #[trigger] list_border_counts(g, w, h, list, own)[k]
        == region_border_counts(g, w, h, region, own)[k] by {
        lemma_list_tally_is_region_tally(g, w, h, list, own, class_at_index(k), list.len() as int);
    }
    assert(list_border_counts(g, w, h, list, own) =~= region_border_counts(g, w, h, region, own));
}

/// The class replacing a too-small region listed in `list`: the class that
/// borders it most often, ties to the lower class index.
fn region_replacement(
    snapshot: &Vec<SurfaceClass>,
    w: usize,
    h: usize,
    list: &Vec<usize>,
    own: SurfaceClass,
) -> (class: SurfaceClass)
    requires
        grid_shape(snapshot@, w as int, h as int),
        forall|t: int| 0 <= t < list@.len() ==> #[trigger] list@[t] < snapshot@.len(),
    ensures
        class == class_at_index(best_index(list_border_counts(snapshot@, w as int, h as int, as_ints(list@), own), 10)),
{
    let ghost g = snapshot@;
    let ghost l = as_ints(list@);
    let mut counts: Vec<u128> = Vec::new();
    let mut k: usize = 0;
    while k < CLASS_COUNT
        invariant
            k <= CLASS_COUNT,
            counts@.len() == k,
            forall|j: int| 0 <= j < k ==> #[trigger] counts@[j] == 0,
        decreases CLASS_COUNT - k,
    {
        counts.push(0);
        k = k + 1;
    }
    let mut t: usize = 0;
    while t < list.len()
        invariant
            grid_shape(g, w as int, h as int),
            g == snapshot@,
            l == as_ints(list@),
            forall|u: int| 0 <= u < list@.len() ==> #[trigger] list@[u] < g.len(),
            t <= list@.len(),
            counts@.len() == CLASS_COUNT,
            forall|j: int|
                0 <= j < 10 ==> #[trigger] counts@[j] == list_tally(g, w as int, h as int, l, own, class_at_index(j), t as int),
            forall|j: int| 0 <= j < 10 ==> #[trigger] counts@[j] <= 4 * t,
        decreases list@.len() - t,
    {
        let ghost before = counts@;
        tally_cell(snapshot, w, h, list[t], own, &mut counts);
        proof {
            assert forall|j: int| 0 <= j < 10 implies #[trigger] counts@[j] == list_tally(
                g, w as int, h as int, l, own, class_at_index(j), t + 1,
            ) && counts@[j] <= 4 * (t + 1) by {
                assert(l[t as int] == list@[t as int] as int);
                assert(before[j] == list_tally(g, w as int, h as int, l, own, class_at_index(j), t as int));
            }
        }
        t = t + 1;
    }
    let ghost cs = list_border_counts(g, w as int, h as int, l, own);
    assert(t == list@.len());
    assert(l.len() == list@.len());
    let mut best: usize = 0;
    let mut k: usize = 1;
    while k < CLASS_COUNT
        invariant
            1 <= k <= CLASS_COUNT,
            counts@.len() == CLASS_COUNT,
            forall|j: int| 0 <= j < 10 ==> #[trigger] counts@[j] == cs[j],
            best == best_index(cs, k as int),
            best < k,
        decreases CLASS_COUNT - k,
    {
        if counts[k] > counts[best] {
            best = k;
        }
        k = k + 1;
    }
    match SurfaceClass::from_material_index(best as u32) {
        Some(class) => class,
        None => SurfaceClass::Rock,
    }
}

/// Sets every cell listed in `cells` to `class`.
fn paint_cells(classes: &mut Vec<SurfaceClass>, cells: &Vec<usize>, class: SurfaceClass)
    requires
        forall|t: int| 0 <= t < cells@.len() ==> #[trigger] cells@[t] < old(classes)@.len(),
    ensures
        final(classes)@.len() == old(classes)@.len(),
        forall|j: int|
            0 <= j < old(classes)@.len() ==> #[trigger] final(classes)@[j] == if as_ints(cells@).contains(j) {
                class
            } else {
                old(classes)@[j]
            },
{
    let ghost initial = classes@;
    let ghost l = as_ints(cells@);
    let mut t: usize = 0;
    while t < cells.len()
        invariant
            l == as_ints(cells@),
            forall|u: int| 0 <= u < cells@.len() ==> #[trigger] cells@[u] < initial.len(),
            t <= cells@.len(),
            classes@.len() == initial.len(),
            forall|j: int|
                0 <= j < initial.len() ==> #[trigger] classes@[j] == if l.subrange(0, t as int).contains(j) {
                    class
                } else {
                    initial[j]
                },
        decreases cells@.len() - t,
    {
        let cell = cells[t];
        classes.set(cell, class);
        proof {
            assert forall|j: int| 0 <= j < initial.len() implies #[trigger] classes@[j] == if l.subrange(0, t + 1).contains(j) {
                class
            } else {
                initial[j]
            } by {
                let prev = l.subrange(0, t as int);
                let cur = l.subrange(0, t + 1);
                if prev.contains(j) {
                    let u = choose|u: int| 0 <= u < prev.len() && prev[u] == j;
                    assert(cur[u] == j);
                }
                if j == cell as int {
                    assert(cur[t as int] == j);
                } else if cur.contains(j) {
                    let u = choose|u: int| 0 <= u < cur.len() && cur[u] == j;
                    assert(u < t);
                    assert(prev[u] == j);
                }
            }
        }
        t = t + 1;
    }
    assert(l.subrange(0, t as int) =~= l);
}

/// A cell of the region of `start` ends with the region's filtering outcome.
proof fn lemma_region_member_filtered(g: Seq<SurfaceClass>, w: int, h: int, minimum: int, start: int, j: int)
    requires
        grid_shape(g, w, h),
        connected(g, w, h, start, j),
    ensures
        g[j] == g[start],
        filtered_class(g, w, h, minimum, j) == if component(g, w, h, start).len() < minimum {
            replacement_class(g, w, h, component(g, w, h, start), g[start])
        } else {
            g[j]
        },
{
    lemma_connected_in_bounds(g, w, h, start, j);
    lemma_component_shared(g, w, h, start, j);
}

/// Cells reached from below `start + 1` are those reached from below
/// `start` and those `start` reaches.
proof fn lemma_seen_step(g: Seq<SurfaceClass>, w: int, h: int, start: int, j: int)
    requires
        0 <= start,
    ensures
        seen_before(g, w, h, start + 1, j) <==> (seen_before(g, w, h, start, j) || connected(g, w, h, start, j)),
{
    if seen_before(g, w, h, start + 1, j) {
        let s = choose|s: int| 0 <= s < start + 1 && #[trigger] connected(g, w, h, s, j);
        if s < start {
            assert(seen_before(g, w, h, start, j));
        }
    }
    if seen_before(g, w, h, start, j) {
        let s = choose|s: int| 0 <= s < start && #[trigger] connected(g, w, h, s, j);
        assert(connected(g, w, h, s, j));
    }
    if connected(g, w, h, start, j) {
        assert(0 <= start < start + 1);
    }
}

/// When an earlier cell reaches `start`, it reaches all of `start`'s region.
proof fn lemma_seen_region(g: Seq<SurfaceClass>, w: int, h: int, start: int, j: int)
    requires
        grid_shape(g, w, h),
        seen_before(g, w, h, start, start),
        connected(g, w, h, start, j),
    ensures
        seen_before(g, w, h, start, j),
{
    let s = choose|s: int| 0 <= s < start && #[trigger] connected(g, w, h, s, start);
    lemma_connected_transitive(g, w, h, s, start, j);
}

/// When no earlier cell reaches `start`, none reaches its region.
proof fn lemma_unseen_region(g: Seq<SurfaceClass>, w: int, h: int, start: int, j: int)
    requires
        grid_shape(g, w, h),
        !seen_before(g, w, h, start, start),
        connected(g, w, h, start, j),
    ensures
        !seen_before(g, w, h, start, j),
{
    if seen_before(g, w, h, start, j) {
        let s = choose|s: int| 0 <= s < start && #[trigger] connected(g, w, h, s, j);
        lemma_connected_symmetric(g, w, h, start, j);
        lemma_connected_transitive(g, w, h, s, j, start);
        assert(seen_before(g, w, h, start, start));
    }
}

/// A copy of the class grid.
fn copy_classes(v: &Vec<SurfaceClass>) -> (r: Vec<SurfaceClass>)
    ensures
        r@ == v@,
{
    let mut r: Vec<SurfaceClass> = Vec::new();
    let mut i: usize = 0;
    while i < v.len()
        invariant
            i <= v@.len(),
            r@ == v@.subrange(0, i as int),
        decreases v@.len() - i,
    {
        r.push(v[i]);
        i = i + 1;
        assert(r@ =~= v@.subrange(0, i as int));
    }
    assert(v@.subrange(0, i as int) =~= v@);
    r
}

/// A visit table of `n` cells, none of them visited.
fn unvisited(n: usize) -> (v: Vec<bool>)
    ensures
        v@.len() == n,
        forall|j: int| 0 <= j < n ==> !#[trigger] v@[j],
{
    let mut v: Vec<bool> = Vec::new();
    let mut i: usize = 0;
    while i < n
        invariant
            i <= n,
            v@.len() == i,
            forall|j: int| 0 <= j < i ==> !#[trigger] v@[j],
        decreases n - i,
    {
        v.push(false);
        i = i + 1;
    }
    v
}

impl SurfaceField {
    /// One filtering pass: every same-class, edge-connected region with
    /// fewer than `minimum_cells` cells takes the class that borders it most
    /// often (ties to the lower class index; Rock when nothing borders it).
    /// Regions and border tallies are read from the raster as it was before
    /// the pass.
    pub fn filter_components_smaller_than(&mut self, minimum_cells: usize)
        requires
            old(self).wf(),
        ensures
            final(self).wf(),
            final(self).classes@ == filter_pass(
                old(self).classes@,
                old(self).width as int,
                old(self).height as int,
                minimum_cells as int,
            ),
            final(self).width == old(self).width,
            final(self).height == old(self).height,
            final(self).base_classes@ == old(self).base_classes@,
            final(self).source@ == old(self).source@,
            final(self).vector_line_classes@ == old(self).vector_line_classes@,
            final(self).vector_areas@ == old(self).vector_areas@,
    {
        let snapshot = copy_classes(&self.classes);
        let w = self.width;
        let h = self.height;
        let n = snapshot.len();
        let ghost g = snapshot@;
        let ghost wi = w as int;
        let ghost hi = h as int;
        let ghost mi = minimum_cells as int;
        let mut visited = unvisited(n);
        proof {
            assert forall|j: int| 0 <= j < n implies (#[trigger] visited@[j] <==> seen_before(g, wi, hi, 0, j)) by {}
        }
        let mut start: usize = 0;
        while start < n
            invariant
                grid_shape(g, wi, hi),
                g == snapshot@,
                n == g.len(),
                wi == w,
                hi == h,
                mi == minimum_cells,
                w == self.width,
                h == self.height,
                self.wf(),
                start <= n,
                visited@.len() == n,
                forall|j: int| 0 <= j < n ==> (#[trigger] visited@[j] <==> seen_before(g, wi, hi, start as int, j)),
                forall|j: int|
                    0 <= j < n ==> #[trigger] self.classes@[j] == if seen_before(g, wi, hi, start as int, j) {
                        filtered_class(g, wi, hi, mi, j)
                    } else {
                        g[j]
                    },
                self.base_classes@ == old(self).base_classes@,
                self.source@ == old(self).source@,
                self.vector_line_classes@ == old(self).vector_line_classes@,
                self.vector_areas@ == old(self).vector_areas@,
                old(self).width == w,
                old(self).height == h,
                old(self).classes@ == g,
            decreases n - start,
        {
            let ghost si = start as int;
            if visited[start] {
                proof {
                    assert forall|j: int| 0 <= j < n implies seen_before(g, wi, hi, si + 1, j) == seen_before(g, wi, hi, si, j) by {
                        lemma_seen_step(g, wi, hi, si, j);
                        if connected(g, wi, hi, si, j) {
                            lemma_seen_region(g, wi, hi, si, j);
                        }
                    }
                }
            } else {
                let own = snapshot[start];
                let list = explore_region(&snapshot, w, h, start, &mut visited);
                let ghost region = component(g, wi, hi, si);
                let ghost before = self.classes@;
                if list.len() < minimum_cells {
                    let replacement = region_replacement(&snapshot, w, h, &list, own);
                    proof {
                        assert forall|x: int| region.contains(x) <==> as_ints(list@).contains(x) by {
                            if region.contains(x) {
                                lemma_connected_in_bounds(g, wi, hi, si, x);
                            }
                            if as_ints(list@).contains(x) {
                                let u = choose|u: int| 0 <= u < list@.len() && as_ints(list@)[u] == x;
                                assert(list@[u] < n);
                            }
                        }
                        lemma_list_counts_match_region(g, wi, hi, as_ints(list@), own, region);
                    }
                    paint_cells(&mut self.classes, &list, replacement);
                }
                proof {
                    assert forall|j: int| 0 <= j < n implies #[trigger] self.classes@[j] == if seen_before(g, wi, hi, si + 1, j) {
                        filtered_class(g, wi, hi, mi, j)
                    } else {
                        g[j]
                    } by {
                        lemma_seen_step(g, wi, hi, si, j);
                        if region.contains(j) {
                            lemma_region_member_filtered(g, wi, hi, mi, si, j);
                            lemma_unseen_region(g, wi, hi, si, j);
                        }
                    }
                    assert forall|j: int| 0 <= j < n implies (#[trigger] visited@[j] <==> seen_before(g, wi, hi, si + 1, j)) by {
                        lemma_seen_step(g, wi, hi, si, j);
                    }
                }
            }
            start = start + 1;
        }
        proof {
            assert forall|j: int| 0 <= j < n implies #[trigger] self.classes@[j] == filter_pass(g, wi, hi, mi)[j] by {
                lemma_connected_refl(g, wi, hi, j);
                assert(seen_before(g, wi, hi, n as int, j));
            }
            assert(self.classes@ =~= filter_pass(g, wi, hi, mi));
        }
    }
}

// ---------------------------------------------------------------------------
// The outer raster ring.

/// Number of cells on the outer ring of a `w` by `h` raster.
pub open spec fn ring_len(w: int, h: int) -> int {
    2 * w + 2 * (h - 2)
}

/// Row of the `t`-th ring cell, walking clockwise from the first cell of
/// row 0: row 0 left to right, the last column downward, the last row right
/// to left, then the first column back up.
pub open spec fn ring_row(w: int, h: int, t: int) -> int {
    if t < w {
        0
    } else if t < w + (h - 2) {
        t - w + 1
    } else if t < 2 * w + (h - 2) {
        h - 1
    } else {
        h - 2 - (t - 2 * w - (h - 2))
    }
}

/// Column of the `t`-th ring cell.
pub open spec fn ring_col(w: int, h: int, t: int) -> int {
    if t < w {
        t
    } else if t < w + (h - 2) {
        w - 1
    } else if t < 2 * w + (h - 2) {
        w - 1 - (t - w - (h - 2))
    } else {
        0
    }
}

/// Raster index of the `t`-th ring cell.
pub open spec fn ring_index(w: int, h: int, t: int) -> int {
    ring_row(w, h, t) * w + ring_col(w, h, t)
}

/// The classes along the outer ring, in ring order.
pub open spec fn edge_ring(g: Seq<SurfaceClass>, w: int, h: int) -> Seq<SurfaceClass> {
    Seq::new(ring_len(w, h) as nat, |t: int| g[ring_index(w, h, t)])
}

/// Cell `j` lies in the first or last row or column.
pub open spec fn on_ring(w: int, h: int, j: int) -> bool {
    j / w == 0 || j / w == h - 1 || j % w == 0 || j % w == w - 1
}

/// Ring cells lie on the ring and inside the raster, at the row and column
/// `ring_row` and `ring_col` give.
pub proof fn lemma_ring_cells(w: int, h: int, t: int)
    requires
        w >= 2,
        h >= 2,
        0 <= t < ring_len(w, h),
    ensures
        0 <= ring_row(w, h, t) < h,
        0 <= ring_col(w, h, t) < w,
        0 <= ring_index(w, h, t) < w * h,
        ring_index(w, h, t) / w == ring_row(w, h, t),
        ring_index(w, h, t) % w == ring_col(w, h, t),
        on_ring(w, h, ring_index(w, h, t)),
        ring_len(w, h) <= w * h,
{
    lemma_cell_index(w, h, ring_row(w, h, t), ring_col(w, h, t));
    assert((w - 2) * (h - 2) >= 0) by (nonlinear_arith)
        requires
            w >= 2,
            h >= 2,
    ;
    assert(w * h == (w - 2) * (h - 2) + 2 * w + 2 * h - 4) by (nonlinear_arith);
}

impl SurfaceField {
    /// Captures the outer raster ring in clockwise order, starting at the
    /// first cell of row 0.
    pub fn raster_edge_classes(&self) -> (edges: Vec<SurfaceClass>)
        requires
            self.wf(),
        ensures
            edges@ == edge_ring(self.classes@, self.width as int, self.height as int),
    {
        let w = self.width;
        let h = self.height;
        let ghost wi = w as int;
        let ghost hi = h as int;
        let ghost g = self.classes@;
        let cells = self.classes.len();
        let mut edges: Vec<SurfaceClass> = Vec::new();
        proof {
            lemma_ring_cells(wi, hi, 0);
        }
        let mut column: usize = 0;
        while column < w
            invariant
                self.wf(),
                w == self.width,
                h == self.height,
                g == self.classes@,
                cells == g.len(),
                wi == w,
                hi == h,
                column <= w,
                edges@.len() == column,
                forall|t: int| 0 <= t < edges@.len() ==> #[trigger] edges@[t] == g[ring_index(wi, hi, t)],
            decreases w - column,
        {
            proof {
                lemma_ring_cells(wi, hi, column as int);
                assert(ring_index(wi, hi, column as int) == 0 * wi + column);
            }
            edges.push(self.classes[column]);
            column = column + 1;
        }
        let mut row: usize = 1;
        while row < h - 1
            invariant
                self.wf(),
                w == self.width,
                h == self.height,
                g == self.classes@,
                cells == g.len(),
                wi == w,
                hi == h,
                1 <= row <= h - 1,
                edges@.len() == w + row - 1,
                forall|t: int| 0 <= t < edges@.len() ==> #[trigger] edges@[t] == g[ring_index(wi, hi, t)],
            decreases h - row,
        {
            let ghost t = edges@.len() as int;
            proof {
                lemma_ring_cells(wi, hi, t);
                assert(ring_row(wi, hi, t) == row);
                assert(ring_index(wi, hi, t) == row * wi + (wi - 1));
            }
            edges.push(self.classes[row * w + (w - 1)]);
            row = row + 1;
        }
        let mut column: usize = w;
        while column > 0
            invariant
                self.wf(),
                w == self.width,
                h == self.height,
                g == self.classes@,
                cells == g.len(),
                wi == w,
                hi == h,
                column <= w,
                edges@.len() == w + (h - 2) + (w - column),
                forall|t: int| 0 <= t < edges@.len() ==> #[trigger] edges@[t] == g[ring_index(wi, hi, t)],
            decreases column,
        {
            column = column - 1;
            let ghost t = edges@.len() as int;
            proof {
                lemma_ring_cells(wi, hi, t);
                assert(ring_col(wi, hi, t) == column);
                assert(ring_index(wi, hi, t) == (hi - 1) * wi + column);
            }
            edges.push(self.classes[(h - 1) * w + column]);
        }
        let mut row: usize = h - 1;
        while row > 1
            invariant
                self.wf(),
                w == self.width,
                h == self.height,
                g == self.classes@,
                cells == g.len(),
                wi == w,
                hi == h,
                1 <= row <= h - 1,
                edges@.len() == 2 * w + (h - 2) + (h - 1 - row),
                forall|t: int| 0 <= t < edges@.len() ==> #[trigger] edges@[t] == g[ring_index(wi, hi, t)],
            decreases row,
        {
            row = row - 1;
            let ghost t = edges@.len() as int;
            proof {
                lemma_ring_cells(wi, hi, t);
                assert(ring_row(wi, hi, t) == row);
                assert(ring_index(wi, hi, t) == row * wi + 0);
            }
            edges.push(self.classes[row * w]);
        }
        assert(edges@ =~= edge_ring(g, wi, hi));
        edges
    }
}

/// Position on the ring of an on-ring cell `j`; the inverse of `ring_index`.
pub open spec fn ring_position(w: int, h: int, j: int) -> int {
    let r = j / w;
    let c = j % w;
    if r == 0 {
        c
    } else if c == w - 1 && r < h - 1 {
        w + r - 1
    } else if r == h - 1 {
        w + (h - 2) + (w - 1 - c)
    } else {
        2 * w + (h - 2) + (h - 2 - r)
    }
}

/// The raster `g` with its outer ring replaced by `edges`, in ring order.
pub open spec fn ring_restored(g: Seq<SurfaceClass>, w: int, h: int, edges: Seq<SurfaceClass>) -> Seq<SurfaceClass> {
    Seq::new(g.len(), |j: int| if on_ring(w, h, j) { edges[ring_position(w, h, j)] } else { g[j] })
}

/// A cell on the ring has a position on it, and that position leads back to the cell.
pub proof fn lemma_ring_position(w: int, h: int, j: int)
    requires
        w >= 2,
        h >= 2,
        0 <= j < w * h,
        on_ring(w, h, j),
    ensures
        0 <= ring_position(w, h, j) < ring_len(w, h),
        ring_index(w, h, ring_position(w, h, j)) == j,
{
    lemma_cell_coordinates(w, h, j);
}

/// Going from a ring position to its cell and back gives the same position.
pub proof fn lemma_ring_index_position(w: int, h: int, t: int)
    requires
        w >= 2,
        h >= 2,
        0 <= t < ring_len(w, h),
    ensures
        ring_position(w, h, ring_index(w, h, t)) == t,
{
    lemma_ring_cells(w, h, t);
}

/// Capturing the ring after restoring `edges` gives `edges` back.
pub proof fn law_restore_then_capture(g: Seq<SurfaceClass>, w: int, h: int, edges: Seq<SurfaceClass>)
    requires
        w >= 2,
        h >= 2,
        g.len() == w * h,
        edges.len() == ring_len(w, h),
    ensures
        edge_ring(ring_restored(g, w, h, edges), w, h) == edges,
{
    assert forall|t: int| 0 <= t < ring_len(w, h) implies #[trigger] edge_ring(ring_restored(g, w, h, edges), w, h)[t]
        == edges[t] by {
        lemma_ring_cells(w, h, t);
        lemma_ring_index_position(w, h, t);
    }
    assert(edge_ring(ring_restored(g, w, h, edges), w, h) =~= edges);
}

/// Restoring the ring just captured leaves the raster unchanged.
pub proof fn law_capture_then_restore(g: Seq<SurfaceClass>, w: int, h: int)
    requires
        w >= 2,
        h >= 2,
        g.len() == w * h,
    ensures
        ring_restored(g, w, h, edge_ring(g, w, h)) == g,
{
    assert forall|j: int| 0 <= j < g.len() implies #[trigger] ring_restored(g, w, h, edge_ring(g, w, h))[j] == g[j] by {
        if on_ring(w, h, j) {
            lemma_ring_position(w, h, j);
        }
    }
    assert(ring_restored(g, w, h, edge_ring(g, w, h)) =~= g);
}

/// `cur` is `orig` with the ring cells at positions below `cursor` set
/// from `edges`.
pub open spec fn partly_restored(
    cur: Seq<SurfaceClass>,
    orig: Seq<SurfaceClass>,
    w: int,
    h: int,
    edges: Seq<SurfaceClass>,
    cursor: int,
) -> bool {
    &&& cur.len() == orig.len()
    &&& forall|j: int|
        0 <= j < orig.len() ==> #[trigger] cur[j] == if on_ring(w, h, j) && ring_position(w, h, j) < cursor {
            edges[ring_position(w, h, j)]
        } else {
            orig[j]
        }
}

/// Writing the next ring class keeps the restoration in step.
proof fn lemma_partly_restored_step(
    cur: Seq<SurfaceClass>,
    orig: Seq<SurfaceClass>,
    w: int,
    h: int,
    edges: Seq<SurfaceClass>,
    cursor: int,
    index: int,
)
    requires
        partly_restored(cur, orig, w, h, edges, cursor),
        0 <= index < orig.len(),
        on_ring(w, h, index),
        ring_position(w, h, index) == cursor,
        0 <= cursor < edges.len(),
        forall|j: int|
            0 <= j < orig.len() && on_ring(w, h, j) && ring_position(w, h, j) == cursor ==> j == index,
    ensures
        partly_restored(cur.update(index, edges[cursor]), orig, w, h, edges, cursor + 1),
{
}

/// Once the whole ring is written, the grid is the restored one.
proof fn lemma_partly_restored_done(
    cur: Seq<SurfaceClass>,
    orig: Seq<SurfaceClass>,
    w: int,
    h: int,
    edges: Seq<SurfaceClass>,
)
    requires
        w >= 2,
        h >= 2,
        orig.len() == w * h,
        partly_restored(cur, orig, w, h, edges, ring_len(w, h)),
    ensures
        cur == ring_restored(orig, w, h, edges),
{
    assert forall|j: int| 0 <= j < orig.len() implies #[trigger] cur[j] == ring_restored(orig, w, h, edges)[j] by {
        if on_ring(w, h, j) {
            lemma_ring_position(w, h, j);
        }
    }
    assert(cur =~= ring_restored(orig, w, h, edges));
}

impl SurfaceField {
    /// Repaints one raster cell, leaving every other cell and the vectors alone.
    fn set_raster_class(&mut self, column: usize, row: usize, class: SurfaceClass)
        requires
            old(self).wf(),
            column < old(self).width,
            row < old(self).height,
        ensures
            final(self).wf(),
            final(self).width == old(self).width,
            final(self).height == old(self).height,
            final(self).source@ == old(self).source@,
            final(self).vector_line_classes@ == old(self).vector_line_classes@,
            final(self).vector_areas@ == old(self).vector_areas@,
            final(self).classes@ == old(self).classes@.update(row * old(self).width + column, class),
            final(self).base_classes@ == old(self).base_classes@.update(row * old(self).width + column, class),
    {
        let cells = self.classes.len();
        proof {
            lemma_cell_index(self.width as int, self.height as int, row as int, column as int);
        }
        let index = row * self.width + column;
        self.classes.set(index, class);
        self.base_classes.set(index, class);
    }

    /// Writes `edges` back onto the outer ring, in the order
    /// `raster_edge_classes` captures it, into both rasters. Fails without
    /// change when `edges` does not hold one class per ring cell.
    pub fn restore_raster_edge_classes(&mut self, edges: &Vec<SurfaceClass>) -> (r: Result<(), SurfaceError>)
        requires
            old(self).wf(),
        ensures
            final(self).wf(),
            final(self).width == old(self).width,
            final(self).height == old(self).height,
            final(self).source@ == old(self).source@,
            final(self).vector_line_classes@ == old(self).vector_line_classes@,
            final(self).vector_areas@ == old(self).vector_areas@,
            r is Ok <==> edges@.len() == ring_len(old(self).width as int, old(self).height as int),
            r is Err ==> r == Err::<(), SurfaceError>(SurfaceError::EdgeRingMismatch)
                && final(self).classes@ == old(self).classes@
                && final(self).base_classes@ == old(self).base_classes@,
            r is Ok ==> final(self).classes@ == ring_restored(
                old(self).classes@,
                old(self).width as int,
                old(self).height as int,
                edges@,
            ) && final(self).base_classes@ == ring_restored(
                old(self).base_classes@,
                old(self).width as int,
                old(self).height as int,
                edges@,
            ),
    {
        let w = self.width;
        let h = self.height;
        let ghost wi = w as int;
        let ghost hi = h as int;
        let ghost g0 = self.classes@;
        let ghost b0 = self.base_classes@;
        let ghost e = edges@;
        let cells = self.classes.len();
        proof {
            lemma_ring_cells(wi, hi, 0);
        }
        let expected = w * 2 + (h - 2) * 2;
        if edges.len() != expected {
            return Err(SurfaceError::EdgeRingMismatch);
        }
        proof {
            assert forall|j: int| 0 <= j < g0.len() && on_ring(wi, hi, j) implies ring_position(wi, hi, j) >= 0 by {
                lemma_ring_position(wi, hi, j);
            }
            assert(partly_restored(self.classes@, g0, wi, hi, e, 0));
            assert(partly_restored(self.base_classes@, b0, wi, hi, e, 0));
        }
        let mut cursor: usize = 0;
        let mut column: usize = 0;
        while column < w
            invariant
                self.wf(),
                w == self.width,
                h == self.height,
                wi == w,
                hi == h,
                cells == g0.len(),
                e == edges@,
                e.len() == ring_len(wi, hi),
                g0.len() == wi * hi,
                b0.len() == g0.len(),
                ring_len(wi, hi) <= cells,
                partly_restored(self.classes@, g0, wi, hi, e, cursor as int),
                partly_restored(self.base_classes@, b0, wi, hi, e, cursor as int),
                self.source@ == old(self).source@,
                self.vector_line_classes@ == old(self).vector_line_classes@,
                self.vector_areas@ == old(self).vector_areas@,
                column <= w,
                cursor == column,
            decreases w - column,
        {
            proof {
                self.lemma_ring_write(cursor as int, 0, column as int);
            }
            let ghost (c0, bb0) = (self.classes@, self.base_classes@);
            self.set_raster_class(column, 0, edges[cursor]);
            proof {
                lemma_partly_restored_step(c0, g0, wi, hi, e, cursor as int, 0 * wi + column);
                lemma_partly_restored_step(bb0, b0, wi, hi, e, cursor as int, 0 * wi + column);
            }
            cursor = cursor + 1;
            column = column + 1;
        }
        let mut row: usize = 1;
        while row < h - 1
            invariant
                self.wf(),
                w == self.width,
                h == self.height,
                wi == w,
                hi == h,
                cells == g0.len(),
                e == edges@,
                e.len() == ring_len(wi, hi),
                g0.len() == wi * hi,
                b0.len() == g0.len(),
                ring_len(wi, hi) <= cells,
                partly_restored(self.classes@, g0, wi, hi, e, cursor as int),
                partly_restored(self.base_classes@, b0, wi, hi, e, cursor as int),
                self.source@ == old(self).source@,
                self.vector_line_classes@ == old(self).vector_line_classes@,
                self.vector_areas@ == old(self).vector_areas@,
                1 <= row <= h - 1,
                cursor == w + row - 1,
            decreases h - row,
        {
            proof {
                self.lemma_ring_write(cursor as int, row as int, wi - 1);
            }
            let ghost (c0, bb0) = (self.classes@, self.base_classes@);
            self.set_raster_class(w - 1, row, edges[cursor]);
            proof {
                lemma_partly_restored_step(c0, g0, wi, hi, e, cursor as int, row * wi + (wi - 1));
                lemma_partly_restored_step(bb0, b0, wi, hi, e, cursor as int, row * wi + (wi - 1));
            }
            cursor = cursor + 1;
            row = row + 1;
        }
        let mut column: usize = w;
        while column > 0
            invariant
                self.wf(),
                w == self.width,
                h == self.height,
                wi == w,
                hi == h,
                cells == g0.len(),
                e == edges@,
                e.len() == ring_len(wi, hi),
                g0.len() == wi * hi,
                b0.len() == g0.len(),
                ring_len(wi, hi) <= cells,
                partly_restored(self.classes@, g0, wi, hi, e, cursor as int),
                partly_restored(self.base_classes@, b0, wi, hi, e, cursor as int),
                self.source@ == old(self).source@,
                self.vector_line_classes@ == old(self).vector_line_classes@,
                self.vector_areas@ == old(self).vector_areas@,
                column <= w,
                cursor == w + (h - 2) + (w - column),
            decreases column,
        {
            column = column - 1;
            proof {
                self.lemma_ring_write(cursor as int, hi - 1, column as int);
            }
            let ghost (c0, bb0) = (self.classes@, self.base_classes@);
            self.set_raster_class(column, h - 1, edges[cursor]);
            proof {
                lemma_partly_restored_step(c0, g0, wi, hi, e, cursor as int, (hi - 1) * wi + column);
                lemma_partly_restored_step(bb0, b0, wi, hi, e, cursor as int, (hi - 1) * wi + column);
            }
            cursor = cursor + 1;
        }
        let mut row: usize = h - 1;
        while row > 1
            invariant
                self.wf(),
                w == self.width,
                h == self.height,
                wi == w,
                hi == h,
                cells == g0.len(),
                e == edges@,
                e.len() == ring_len(wi, hi),
                g0.len() == wi * hi,
                b0.len() == g0.len(),
                ring_len(wi, hi) <= cells,
                partly_restored(self.classes@, g0, wi, hi, e, cursor as int),
                partly_restored(self.base_classes@, b0, wi, hi, e, cursor as int),
                self.source@ == old(self).source@,
                self.vector_line_classes@ == old(self).vector_line_classes@,
                self.vector_areas@ == old(self).vector_areas@,
                1 <= row <= h - 1,
                cursor == 2 * w + (h - 2) + (h - 1 - row),
            decreases row,
        {
            row = row - 1;
            proof {
                self.lemma_ring_write(cursor as int, row as int, 0);
            }
            let ghost (c0, bb0) = (self.classes@, self.base_classes@);
            self.set_raster_class(0, row, edges[cursor]);
            proof {
                lemma_partly_restored_step(c0, g0, wi, hi, e, cursor as int, row * wi + 0);
                lemma_partly_restored_step(bb0, b0, wi, hi, e, cursor as int, row * wi + 0);
            }
            cursor = cursor + 1;
        }
        proof {
            lemma_partly_restored_done(self.classes@, g0, wi, hi, e);
            lemma_partly_restored_done(self.base_classes@, b0, wi, hi, e);
        }
        Ok(())
    }

    /// The write of ring position `t` at (`row`, `column`) updates exactly
    /// the cell whose ring position is `t`.
    proof fn lemma_ring_write(&self, t: int, row: int, column: int)
        requires
            self.wf(),
            0 <= t < ring_len(self.width as int, self.height as int),
            row == ring_row(self.width as int, self.height as int, t),
            column == ring_col(self.width as int, self.height as int, t),
        ensures
            row * self.width + column == ring_index(self.width as int, self.height as int, t),
            on_ring(self.width as int, self.height as int, row * self.width + column),
            ring_position(self.width as int, self.height as int, row * self.width + column) == t,
            forall|j: int|
                0 <= j < self.classes@.len() && on_ring(self.width as int, self.height as int, j)
                    && ring_position(self.width as int, self.height as int, j) == t
                    ==> j == row * self.width + column,
            0 <= row * self.width + column < self.classes@.len(),
    {
        let w = self.width as int;
        let h = self.height as int;
        lemma_ring_cells(w, h, t);
        lemma_ring_index_position(w, h, t);
        assert forall|j: int|
            0 <= j < self.classes@.len() && on_ring(w, h, j) && ring_position(w, h, j) == t implies j == row
                * self.width + column by {
            lemma_ring_position(w, h, j);
        }
    }
}

/// The first shape rule a native class grid breaks: it is at least 2 by 2
/// and holds exactly `width * height` classes.
pub open spec fn native_grid_shape_error(width: int, height: int, class_count: int) -> Option<Seq<char>> {
    if width < 2 || height < 2 {
        Some("native class grid must be at least 2 by 2"@)
    } else if class_count != width * height {
        Some("native class grid dimensions do not match its values"@)
    } else {
        None
    }
}

/// Checks the shape of a native class grid; see `native_grid_shape_error`.
pub fn check_native_grid_shape(width: usize, height: usize, class_count: usize) -> (r: Result<(), String>)
    ensures
        r is Ok <==> native_grid_shape_error(width as int, height as int, class_count as int) is None,
        r matches Err(m) ==> native_grid_shape_error(width as int, height as int, class_count as int) == Some(m@),
{
    if width < 2 || height < 2 {
        return Err("native class grid must be at least 2 by 2".to_owned());
    }
    let matches = match width.checked_mul(height) {
        Some(cells) => cells == class_count,
        None => false,
    };
    if !matches {
        return Err("native class grid dimensions do not match its values".to_owned());
    }
    Ok(())
}

impl SurfaceField {
    /// A field over `classes`, read row-major, `width` samples per row.
    /// The base raster starts as a copy of the working raster.
    pub fn new(width: usize, height: usize, classes: Vec<SurfaceClass>, source: String) -> (r: Result<
        SurfaceField,
        SurfaceError,
    >)
        ensures
            (width < 2 || height < 2) ==> r == Err::<SurfaceField, SurfaceError>(SurfaceError::TooSmall),
            (width >= 2 && height >= 2 && classes@.len() != width * height) ==> r == Err::<
                SurfaceField,
                SurfaceError,
            >(SurfaceError::DimensionMismatch),
            r is Ok <==> (width >= 2 && height >= 2 && classes@.len() == width * height),
            r matches Ok(f) ==> {
                &&& f.wf()
                &&& f.width == width
                &&& f.height == height
                &&& f.classes@ == classes@
                &&& f.base_classes@ == classes@
                &&& f.source@ == source@
                &&& f.vector_line_classes@.len() == 0
                &&& f.vector_areas@.len() == 0
            },
    {
        if width < 2 || height < 2 {
            return Err(SurfaceError::TooSmall);
        }
        let count = classes.len();
        match width.checked_mul(height) {
            Some(cells) => {
                if count != cells {
                    return Err(SurfaceError::DimensionMismatch);
                }
            },
            None => {
                return Err(SurfaceError::DimensionMismatch);
            },
        }
        let base_classes = copy_classes(&classes);
        Ok(SurfaceField {
            width,
            height,
            classes,
            source,
            base_classes,
            vector_line_classes: Vec::new(),
            vector_areas: Vec::new(),
        })
    }

    /// Removes small same-class patches: two filtering passes with regions
    /// of fewer than `minimum_cells` cells taking their commonest bordering
    /// class, after which the base raster takes the filtered classes.
    pub fn filter_small_patches_cells(&mut self, minimum_cells: usize)
        requires
            old(self).wf(),
        ensures
            final(self).wf(),
            final(self).classes@ == filter_pass(
                filter_pass(old(self).classes@, old(self).width as int, old(self).height as int, minimum_cells as int),
                old(self).width as int,
                old(self).height as int,
                minimum_cells as int,
            ),
            final(self).base_classes@ == final(self).classes@,
            final(self).width == old(self).width,
            final(self).height == old(self).height,
            final(self).source@ == old(self).source@,
            final(self).vector_line_classes@ == old(self).vector_line_classes@,
            final(self).vector_areas@ == old(self).vector_areas@,
    {
        self.filter_components_smaller_than(minimum_cells);
        self.filter_components_smaller_than(minimum_cells);
        self.base_classes = copy_classes(&self.classes);
    }

    /// Records a vector line of `class` painted over the field.
    pub fn record_vector_line(&mut self, class: SurfaceClass)
        ensures
            final(self).vector_line_classes@ == old(self).vector_line_classes@.push(class),
            final(self).width == old(self).width,
            final(self).height == old(self).height,
            final(self).classes@ == old(self).classes@,
            final(self).base_classes@ == old(self).base_classes@,
            final(self).source@ == old(self).source@,
            final(self).vector_areas@ == old(self).vector_areas@,
    {
        self.vector_line_classes.push(class);
    }

    /// Records a vector area painted over the field.
    pub fn record_vector_area(&mut self, area: VectorAreaClass)
        ensures
            final(self).vector_areas@ == old(self).vector_areas@.push(area),
            final(self).width == old(self).width,
            final(self).height == old(self).height,
            final(self).classes@ == old(self).classes@,
            final(self).base_classes@ == old(self).base_classes@,
            final(self).source@ == old(self).source@,
            final(self).vector_line_classes@ == old(self).vector_line_classes@,
    {
        self.vector_areas.push(area);
    }
}

// ---------------------------------------------------------------------------
// Which classes a field holds.

/// The field holds `class` somewhere: in either raster, in a painted vector
/// line, as a painted area's class, or, for Building, as a building footprint.
pub open spec fn field_holds_class(f: &SurfaceField, class: SurfaceClass) -> bool {
    ||| f.classes@.contains(class)
    ||| f.base_classes@.contains(class)
    ||| f.vector_line_classes@.contains(class)
    ||| exists|i: int| 0 <= i < f.vector_areas@.len() && #[trigger] f.vector_areas@[i].class == Some(class)
    ||| (class == SurfaceClass::Building && exists|i: int|
        0 <= i < f.vector_areas@.len() && #[trigger] f.vector_areas@[i].building)
}

/// Marks the class of every entry of `v`.
fn mark_classes(present: &mut Vec<bool>, v: &Vec<SurfaceClass>)
    requires
        old(present)@.len() == CLASS_COUNT,
    ensures
        final(present)@.len() == CLASS_COUNT,
        forall|k: int|
            0 <= k < 10 ==> (#[trigger] final(present)@[k] <==> (old(present)@[k] || v@.contains(class_at_index(k)))),
{
    let ghost p0 = present@;
    let mut i: usize = 0;
    while i < v.len()
        invariant
            present@.len() == CLASS_COUNT,
            i <= v@.len(),
            forall|k: int|
                0 <= k < 10 ==> (#[trigger] present@[k] <==> (p0[k] || v@.subrange(0, i as int).contains(class_at_index(k)))),
        decreases v@.len() - i,
    {
        let class = v[i];
        let k = class.material_index() as usize;
        present.set(k, true);
        proof {
            lemma_class_index_bijection(class, 0);
            assert forall|j: int| 0 <= j < 10 implies (#[trigger] present@[j] <==> (p0[j] || v@.subrange(0, i + 1).contains(
                class_at_index(j),
            ))) by {
                lemma_class_index_bijection(class, j);
                let prev = v@.subrange(0, i as int);
                let cur = v@.subrange(0, i + 1);
                assert(cur[i as int] == class);
                if prev.contains(class_at_index(j)) {
                    let u = choose|u: int| 0 <= u < prev.len() && prev[u] == class_at_index(j);
                    assert(cur[u] == class_at_index(j));
                }
                if cur.contains(class_at_index(j)) {
                    let u = choose|u: int| 0 <= u < cur.len() && cur[u] == class_at_index(j);
                    if u < i {
                        assert(prev[u] == class_at_index(j));
                    }
                }
            }
        }
        i = i + 1;
    }
    assert(v@.subrange(0, i as int) =~= v@);
}

impl SurfaceField {
    /// Which classes, by class index, the field holds anywhere. A class held
    /// only where no piece samples still counts.
    pub fn contained_classes(&self) -> (present: Vec<bool>)
        ensures
            present@.len() == CLASS_COUNT,
            forall|k: int| 0 <= k < 10 ==> (#[trigger] present@[k] <==> field_holds_class(self, class_at_index(k))),
    {
        let mut present: Vec<bool> = Vec::new();
        let mut k: usize = 0;
        while k < CLASS_COUNT
            invariant
                k <= CLASS_COUNT,
                present@.len() == k,
                forall|j: int| 0 <= j < k ==> !#[trigger] present@[j],
            decreases CLASS_COUNT - k,
        {
            present.push(false);
            k = k + 1;
        }
        mark_classes(&mut present, &self.classes);
        mark_classes(&mut present, &self.base_classes);
        mark_classes(&mut present, &self.vector_line_classes);
        let ghost p0 = present@;
        let areas = &self.vector_areas;
        let mut i: usize = 0;
        while i < areas.len()
            invariant
                areas@ == self.vector_areas@,
                present@.len() == CLASS_COUNT,
                i <= areas@.len(),
                forall|j: int|
                    0 <= j < 10 ==> (#[trigger] present@[j] <==> (p0[j] || (exists|a: int|
                        0 <= a < i && #[trigger] areas@[a].class == Some(class_at_index(j))) || (j == 5 && exists|a: int|
                        0 <= a < i && #[trigger] areas@[a].building))),
            decreases areas@.len() - i,
        {
            let area = areas[i];
            let ghost before = present@;
            match area.class {
                Some(class) => {
                    let m = class.material_index() as usize;
                    present.set(m, true);
                },
                None => {},
            }
            if area.building {
                let m = SurfaceClass::Building.material_index() as usize;
                present.set(m, true);
            }
            proof {
                assert forall|j: int| 0 <= j < 10 implies (#[trigger] present@[j] <==> (p0[j] || (exists|a: int|
                    0 <= a < i + 1 && #[trigger] areas@[a].class == Some(class_at_index(j))) || (j == 5 && exists|a: int|
                    0 <= a < i + 1 && #[trigger] areas@[a].building))) by {
                    match area.class {
                        Some(class) => {
                            lemma_class_index_bijection(class, j);
                        },
                        None => {},
                    }
                    if exists|a: int| 0 <= a < i + 1 && #[trigger] areas@[a].class == Some(class_at_index(j)) {
                        let a = choose|a: int| 0 <= a < i + 1 && #[trigger] areas@[a].class == Some(class_at_index(j));
                        if a == i {
                            lemma_class_index_bijection(class_at_index(j), j);
                        }
                    }
                }
            }
            i = i + 1;
        }
        proof {
            assert forall|k: int| 0 <= k < 10 implies (#[trigger] present@[k] <==> field_holds_class(self, class_at_index(k))) by {
                lemma_class_index_bijection(SurfaceClass::Building, k);
            }
        }
        present
    }
}

// ---------------------------------------------------------------------------
// Steep-slope reclassification.

/// How many samples the steep-slope gates reclassified, split by the class
/// they left and the class they became.
#[derive(Debug, Clone, Copy, PartialEq, Eq, Structural)]
pub struct SlopeGateDemotion {
    pub forest_to_rock: usize,
    pub forest_to_snow: usize,
    pub snow_to_rock: usize,
}

impl Default for SlopeGateDemotion {
    fn default() -> (d: Self)
        ensures
            d.forest_to_rock == 0 && d.forest_to_snow == 0 && d.snow_to_rock == 0,
    {
        SlopeGateDemotion { forest_to_rock: 0, forest_to_snow: 0, snow_to_rock: 0 }
    }
}

impl SlopeGateDemotion {
    /// All reclassifications together.
    pub fn total(self) -> (sum: usize)
        requires
            self.forest_to_rock + self.forest_to_snow + self.snow_to_rock <= usize::MAX,
        ensures
            sum == self.forest_to_rock + self.forest_to_snow + self.snow_to_rock,
    {
        self.forest_to_rock + self.forest_to_snow + self.snow_to_rock
    }
}

/// What the slope gates found at one sample: whether it is steeper than the
/// forest limit (false when that gate is off), steeper than the snow limit
/// (false when that gate is off), and at or above the snowline (false when
/// steep forest goes to rock or the scene has no snowline).
#[derive(Debug, Clone, Copy, PartialEq, Eq, Structural)]
pub struct SampleSlope {
    pub forest_too_steep: bool,
    pub snow_too_steep: bool,
    pub above_snowline: bool,
}

/// The class after the forest gate.
pub open spec fn after_forest_gate(class: SurfaceClass, s: SampleSlope) -> SurfaceClass {
    if class == SurfaceClass::Forest && s.forest_too_steep {
        if s.above_snowline { SurfaceClass::Snow } else { SurfaceClass::Rock }
    } else {
        class
    }
}

/// The class after both gates: the snow gate runs on the forest gate's result.
pub open spec fn demoted_class(class: SurfaceClass, s: SampleSlope) -> SurfaceClass {
    let c = after_forest_gate(class, s);
    if c == SurfaceClass::Snow && s.snow_too_steep { SurfaceClass::Rock } else { c }
}

/// Forest-to-rock, forest-to-snow and snow-to-rock steps over the first `n`
/// samples.
pub open spec fn demotion_counts(g: Seq<SurfaceClass>, slopes: Seq<SampleSlope>, n: int) -> (nat, nat, nat)
    decreases n,
{
    if n <= 0 {
        (0, 0, 0)
    } else {
        let prev = demotion_counts(g, slopes, n - 1);
        let c = g[n - 1];
        let s = slopes[n - 1];
        let f = after_forest_gate(c, s);
        (
            prev.0 + if c == SurfaceClass::Forest && f == SurfaceClass::Rock { 1nat } else { 0nat },
            prev.1 + if c == SurfaceClass::Forest && f == SurfaceClass::Snow { 1nat } else { 0nat },
            prev.2 + if f == SurfaceClass::Snow && demoted_class(c, s) == SurfaceClass::Rock { 1nat } else { 0nat },
        )
    }
}

/// No more samples are demoted than were looked at.
proof fn lemma_demotion_counts_bounded(g: Seq<SurfaceClass>, slopes: Seq<SampleSlope>, n: int)
    requires
        n >= 0,
    ensures
        demotion_counts(g, slopes, n).0 <= n,
        demotion_counts(g, slopes, n).1 <= n,
        demotion_counts(g, slopes, n).2 <= n,
    decreases n,
{
    if n > 0 {
        lemma_demotion_counts_bounded(g, slopes, n - 1);
    }
}

impl SurfaceField {
    /// Reclassifies steep forest and snow sample by sample. Steep forest
    /// becomes snow at or above the snowline and rock elsewhere; steep snow,
    /// including forest just turned to snow, becomes rock. When anything
    /// changed, the base raster takes the new classes. Returns the counts.
    pub fn demote_steep_samples(&mut self, slopes: &Vec<SampleSlope>) -> (d: SlopeGateDemotion)
        requires
            old(self).wf(),
            slopes@.len() == old(self).classes@.len(),
        ensures
            final(self).wf(),
            final(self).classes@ == Seq::new(
                old(self).classes@.len(),
                |j: int| demoted_class(old(self).classes@[j], slopes@[j]),
            ),
            d.forest_to_rock == demotion_counts(old(self).classes@, slopes@, old(self).classes@.len() as int).0,
            d.forest_to_snow == demotion_counts(old(self).classes@, slopes@, old(self).classes@.len() as int).1,
            d.snow_to_rock == demotion_counts(old(self).classes@, slopes@, old(self).classes@.len() as int).2,
            final(self).base_classes@ == if d.forest_to_rock + d.forest_to_snow + d.snow_to_rock > 0 {
                final(self).classes@
            } else {
                old(self).base_classes@
            },
            final(self).width == old(self).width,
            final(self).height == old(self).height,
            final(self).source@ == old(self).source@,
            final(self).vector_line_classes@ == old(self).vector_line_classes@,
            final(self).vector_areas@ == old(self).vector_areas@,
    {
        let ghost g = self.classes@;
        let n = self.classes.len();
        let mut d = SlopeGateDemotion { forest_to_rock: 0, forest_to_snow: 0, snow_to_rock: 0 };
        let mut i: usize = 0;
        while i < n
            invariant
                self.wf(),
                n == g.len(),
                slopes@.len() == n,
                i <= n,
                self.classes@.len() == n,
                self.width == old(self).width,
                self.height == old(self).height,
                self.base_classes@ == old(self).base_classes@,
                self.source@ == old(self).source@,
                self.vector_line_classes@ == old(self).vector_line_classes@,
                self.vector_areas@ == old(self).vector_areas@,
                g == old(self).classes@,
                forall|j: int| 0 <= j < i ==> #[trigger] self.classes@[j] == demoted_class(g[j], slopes@[j]),
                forall|j: int| i <= j < n ==> #[trigger] self.classes@[j] == g[j],
                d.forest_to_rock == demotion_counts(g, slopes@, i as int).0,
                d.forest_to_snow == demotion_counts(g, slopes@, i as int).1,
                d.snow_to_rock == demotion_counts(g, slopes@, i as int).2,
            decreases n - i,
        {
            proof {
                lemma_demotion_counts_bounded(g, slopes@, i as int);
            }
            let class = self.classes[i];
            let s = slopes[i];
            let mut c = class;
            if c == SurfaceClass::Forest && s.forest_too_steep {
                if s.above_snowline {
                    d.forest_to_snow = d.forest_to_snow + 1;
                    c = SurfaceClass::Snow;
                } else {
                    d.forest_to_rock = d.forest_to_rock + 1;
                    c = SurfaceClass::Rock;
                }
            }
            if c == SurfaceClass::Snow && s.snow_too_steep {
                d.snow_to_rock = d.snow_to_rock + 1;
                c = SurfaceClass::Rock;
            }
            self.classes.set(i, c);
            i = i + 1;
        }
        assert(self.classes@ =~= Seq::new(g.len(), |j: int| demoted_class(g[j], slopes@[j])));
        proof {
            lemma_demotion_counts_bounded(g, slopes@, n as int);
        }
        if d.forest_to_rock > 0 || d.forest_to_snow > 0 || d.snow_to_rock > 0 {
            self.base_classes = copy_classes(&self.classes);
        }
        d
    }
}

// ---------------------------------------------------------------------------
// Laws.

/// A filtering pass whose minimum is at most one cell changes nothing:
/// every region holds at least the cell it was found from.
pub proof fn law_filter_with_minimum_one_is_identity(g: Seq<SurfaceClass>, w: int, h: int, minimum: int)
    requires
        grid_shape(g, w, h),
        minimum <= 1,
    ensures
        filter_pass(g, w, h, minimum) == g,
{
    assert forall|i: int| 0 <= i < g.len() implies #[trigger] filter_pass(g, w, h, minimum)[i] == g[i] by {
        lemma_connected_refl(g, w, h, i);
        lemma_component_finite(g, w, h, i);
        assert(component(g, w, h, i).contains(i));
        vstd::set::axiom_set_contains_len(component(g, w, h, i), i);
    }
    assert(filter_pass(g, w, h, minimum) =~= g);
}

/// What the slope gates do to one sample: steep forest becomes snow at or
/// above the snowline and rock below it; steep snow becomes rock, whether it
/// was snow before the gates or forest the forest gate just turned to snow;
/// every other sample keeps its class.
pub proof fn law_steep_samples_are_demoted(class: SurfaceClass, s: SampleSlope)
    ensures
        class == SurfaceClass::Snow && s.snow_too_steep ==> demoted_class(class, s) == SurfaceClass::Rock,
        class == SurfaceClass::Snow && !s.snow_too_steep ==> demoted_class(class, s) == SurfaceClass::Snow,
        class == SurfaceClass::Forest && s.forest_too_steep && !s.above_snowline ==> demoted_class(class, s)
            == SurfaceClass::Rock,
        class == SurfaceClass::Forest && s.forest_too_steep && s.above_snowline ==> demoted_class(class, s) == if s.snow_too_steep {
            SurfaceClass::Rock
        } else {
            SurfaceClass::Snow
        },
        class == SurfaceClass::Forest && !s.forest_too_steep ==> demoted_class(class, s) == SurfaceClass::Forest,
        class != SurfaceClass::Forest && class != SurfaceClass::Snow ==> demoted_class(class, s) == class,
{
}

/// How the demotion counts grow by one sample: forest-to-rock counts steep
/// forest below the snowline; forest-to-snow counts steep forest at or above
/// it; snow-to-rock counts steep-for-snow samples that are snow after the
/// forest gate, whether snow before it or forest turned to snow.
pub proof fn law_demotion_counts_step(g: Seq<SurfaceClass>, slopes: Seq<SampleSlope>, n: int)
    requires
        0 <= n,
    ensures
        demotion_counts(g, slopes, n + 1).0 == demotion_counts(g, slopes, n).0 + if g[n] == SurfaceClass::Forest
            && slopes[n].forest_too_steep && !slopes[n].above_snowline {
            1nat
        } else {
            0nat
        },
        demotion_counts(g, slopes, n + 1).1 == demotion_counts(g, slopes, n).1 + if g[n] == SurfaceClass::Forest
            && slopes[n].forest_too_steep && slopes[n].above_snowline {
            1nat
        } else {
            0nat
        },
        demotion_counts(g, slopes, n + 1).2 == demotion_counts(g, slopes, n).2 + if slopes[n].snow_too_steep && (
        g[n] == SurfaceClass::Snow || (g[n] == SurfaceClass::Forest && slopes[n].forest_too_steep
            && slopes[n].above_snowline)) {
            1nat
        } else {
            0nat
        },
{
}

/// With no sample steeper than either limit, the gates change no class and
/// count nothing.
pub proof fn law_gentle_slopes_change_nothing(g: Seq<SurfaceClass>, slopes: Seq<SampleSlope>)
    requires
        slopes.len() == g.len(),
        forall|j: int| 0 <= j < slopes.len() ==> !(#[trigger] slopes[j]).forest_too_steep && !slopes[j].snow_too_steep,
    ensures
        Seq::new(g.len(), |j: int| demoted_class(g[j], slopes[j])) == g,
        demotion_counts(g, slopes, g.len() as int) == (0nat, 0nat, 0nat),
{
    assert(Seq::new(g.len(), |j: int| demoted_class(g[j], slopes[j])) =~= g) by {
        assert forall|j: int| 0 <= j < g.len() implies demoted_class(g[j], slopes[j]) == g[j] by {
            assert(!slopes[j].forest_too_steep);
        }
    }
    lemma_no_demotions(g, slopes, g.len() as int);
}

/// Gentle slopes demote nothing.
proof fn lemma_no_demotions(g: Seq<SurfaceClass>, slopes: Seq<SampleSlope>, n: int)
    requires
        0 <= n <= slopes.len(),
        forall|j: int| 0 <= j < slopes.len() ==> !(#[trigger] slopes[j]).forest_too_steep && !slopes[j].snow_too_steep,
    ensures
        demotion_counts(g, slopes, n) == (0nat, 0nat, 0nat),
    decreases n,
{
    if n > 0 {
        lemma_no_demotions(g, slopes, n - 1);
        assert(!slopes[n - 1].forest_too_steep);
    }
}

} // verus!
