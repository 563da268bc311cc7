//! Row-major raster grids: 4-neighbour adjacency, same-class paths and the
//! connected components they span.
use vstd::prelude::*;
use vstd::arithmetic::div_mod::{
    lemma_fundamental_div_mod, lemma_fundamental_div_mod_converse_div,
    lemma_fundamental_div_mod_converse_mod,
};
use vstd::arithmetic::mul::lemma_mul_inequality;

verus! {

/// Cell `j` is one of the up to four edge neighbours of cell `i` in a
/// row-major grid of `w` columns and `h` rows.
pub open spec fn grid_adjacent(w: int, h: int, i: int, j: int) -> bool {
    &&& 0 <= i < w * h
    &&& {
        ||| (i % w > 0 && j == i - 1)
        ||| (i % w + 1 < w && j == i + 1)
        ||| (i / w > 0 && j == i - w)
        ||| (i / w + 1 < h && j == i + w)
    }
}

/// Coordinates of a cell index.
pub proof fn lemma_cell_coordinates(w: int, h: int, i: int)
    requires
        w > 0,
        h > 0,
        0 <= i < w * h,
    ensures
        i == (i / w) * w + i % w,
        0 <= i % w < w,
        0 <= i / w < h,
{
    lemma_fundamental_div_mod(i, w);
    assert(w * (i / w) == (i / w) * w) by (nonlinear_arith);
    if i / w >= h {
        lemma_mul_inequality(h, i / w, w);
        assert(h * w == w * h) by (nonlinear_arith);
    }
    if i / w < 0 {
        lemma_mul_inequality(i / w, -1, w);
    }
}

/// The cell at a row and column.
pub proof fn lemma_cell_index(w: int, h: int, y: int, x: int)
    requires
        w > 0,
        h > 0,
        0 <= x < w,
        0 <= y < h,
    ensures
        (y * w + x) / w == y,
        (y * w + x) % w == x,
        0 <= y * w + x < w * h,
{
    lemma_fundamental_div_mod_converse_div(y * w + x, w, y, x);
    lemma_fundamental_div_mod_converse_mod(y * w + x, w, y, x);
    lemma_mul_inequality(y + 1, h, w);
    assert((y + 1) * w == y * w + w) by (nonlinear_arith);
    assert(h * w == w * h) by (nonlinear_arith);
    assert(y * w >= 0) by (nonlinear_arith)
        requires
            y >= 0,
            w > 0,
    ;
}

/// Adjacency is symmetric and stays inside the grid.
pub proof fn lemma_adjacent_symmetric(w: int, h: int, i: int, j: int)
    requires
        w > 0,
        h > 0,
        grid_adjacent(w, h, i, j),
    ensures
        grid_adjacent(w, h, j, i),
        0 <= j < w * h,
{
    lemma_cell_coordinates(w, h, i);
    let x = i % w;
    let y = i / w;
    if x > 0 && j == i - 1 {
        lemma_cell_index(w, h, y, x - 1);
        assert(j == y * w + (x - 1));
    } else if x + 1 < w && j == i + 1 {
        lemma_cell_index(w, h, y, x + 1);
        assert(j == y * w + (x + 1));
    } else if y > 0 && j == i - w {
        lemma_cell_index(w, h, y - 1, x);
        assert((y - 1) * w == y * w - w) by (nonlinear_arith);
        assert(j == (y - 1) * w + x);
    } else {
        lemma_cell_index(w, h, y + 1, x);
        assert((y + 1) * w == y * w + w) by (nonlinear_arith);
        assert(j == (y + 1) * w + x);
    }
}

/// A walk through edge-adjacent cells that all share the first cell's class.
pub open spec fn class_path<T>(g: Seq<T>, w: int, h: int, p: Seq<int>) -> bool {
    &&& p.len() >= 1
    &&& forall|m: int| 0 <= m < p.len() ==> 0 <= #[trigger] p[m] < g.len()
    &&& forall|m: int| 0 <= m < p.len() ==> g[#[trigger] p[m]] == g[p[0]]
    &&& forall|m: int| 0 <= m < p.len() - 1 ==> grid_adjacent(w, h, #[trigger] p[m], p[m + 1])
}

/// Cells `i` and `j` lie in one same-class, edge-connected region.
pub open spec fn connected<T>(g: Seq<T>, w: int, h: int, i: int, j: int) -> bool {
    exists|p: Seq<int>| #[trigger] class_path(g, w, h, p) && p[0] == i && p.last() == j
}

/// The same-class, edge-connected region holding cell `i`.
pub open spec fn component<T>(g: Seq<T>, w: int, h: int, i: int) -> Set<int> {
    Set::new(|j: int| connected(g, w, h, i, j))
}

/// A non-empty `w` by `h` grid stored row by row.
pub open spec fn grid_shape<T>(g: Seq<T>, w: int, h: int) -> bool {
    &&& w > 0
    &&& h > 0
    &&& g.len() == w * h
}

/// Every cell is connected to itself.
pub proof fn lemma_connected_refl<T>(g: Seq<T>, w: int, h: int, i: int)
    requires
        0 <= i < g.len(),
    ensures
        connected(g, w, h, i, i),
{
    let p = seq![i];
    assert(class_path(g, w, h, p));
}

/// Connected cells lie in the grid and share a class.
pub proof fn lemma_connected_in_bounds<T>(g: Seq<T>, w: int, h: int, i: int, j: int)
    requires
        connected(g, w, h, i, j),
    ensures
        0 <= i < g.len(),
        0 <= j < g.len(),
        g[j] == g[i],
{
    let p = choose|p: Seq<int>| #[trigger] class_path(g, w, h, p) && p[0] == i && p.last() == j;
    assert(0 <= p[0] < g.len());
    assert(0 <= p[p.len() - 1] < g.len());
    assert(g[p[p.len() - 1]] == g[p[0]]);
}

/// One more step to a same-class neighbour keeps cells connected.
pub proof fn lemma_connected_step<T>(g: Seq<T>, w: int, h: int, i: int, j: int, k: int)
    requires
        grid_shape(g, w, h),
        connected(g, w, h, i, j),
        grid_adjacent(w, h, j, k),
        g[k] == g[j],
    ensures
        connected(g, w, h, i, k),
{
    lemma_adjacent_symmetric(w, h, j, k);
    let p = choose|p: Seq<int>| #[trigger] class_path(g, w, h, p) && p[0] == i && p.last() == j;
    let q = p.push(k);
    assert(q[q.len() - 2] == j);
    assert forall|m: int| 0 <= m < q.len() implies 0 <= #[trigger] q[m] < g.len() by {
        if m < p.len() {
            assert(q[m] == p[m]);
        }
    }
    assert forall|m: int| 0 <= m < q.len() implies g[#[trigger] q[m]] == g[q[0]] by {
        if m < p.len() {
            assert(q[m] == p[m]);
            assert(g[p[m]] == g[p[0]]);
        } else {
            assert(g[p[p.len() - 1]] == g[p[0]]);
        }
    }
    assert forall|m: int| 0 <= m < q.len() - 1 implies grid_adjacent(w, h, #[trigger] q[m], q[m + 1]) by {
        if m < p.len() - 1 {
            assert(q[m] == p[m] && q[m + 1] == p[m + 1]);
            assert(grid_adjacent(w, h, p[m], p[m + 1]));
        } else {
            assert(q[m] == j && q[m + 1] == k);
        }
    }
    assert(class_path(g, w, h, q));
}

/// Connection runs both ways.
pub proof fn lemma_connected_symmetric<T>(g: Seq<T>, w: int, h: int, i: int, j: int)
    requires
        grid_shape(g, w, h),
        connected(g, w, h, i, j),
    ensures
        connected(g, w, h, j, i),
{
    let p = choose|p: Seq<int>| #[trigger] class_path(g, w, h, p) && p[0] == i && p.last() == j;
    let q = p.reverse();
    let n = p.len();
    assert forall|m: int| 0 <= m < q.len() implies 0 <= #[trigger] q[m] < g.len() by {
        assert(q[m] == p[n - 1 - m]);
    }
    assert(g[p[n - 1]] == g[p[0]]);
    assert forall|m: int| 0 <= m < q.len() implies g[#[trigger] q[m]] == g[q[0]] by {
        assert(q[m] == p[n - 1 - m]);
        assert(q[0] == p[n - 1]);
        assert(g[p[n - 1 - m]] == g[p[0]]);
    }
    assert forall|m: int| 0 <= m < q.len() - 1 implies grid_adjacent(w, h, #[trigger] q[m], q[m + 1]) by {
        assert(q[m] == p[n - 1 - m]);
        assert(q[m + 1] == p[n - 2 - m]);
        assert(grid_adjacent(w, h, p[n - 2 - m], p[n - 2 - m + 1]));
        lemma_adjacent_symmetric(w, h, p[n - 2 - m], p[n - 1 - m]);
    }
    assert(class_path(g, w, h, q));
    assert(q[0] == j && q.last() == i);
}

/// Connection is transitive.
pub proof fn lemma_connected_transitive<T>(g: Seq<T>, w: int, h: int, i: int, j: int, k: int)
    requires
        grid_shape(g, w, h),
        connected(g, w, h, i, j),
        connected(g, w, h, j, k),
    ensures
        connected(g, w, h, i, k),
{
    let q = choose|q: Seq<int>| #[trigger] class_path(g, w, h, q) && q[0] == j && q.last() == k;
    lemma_connected_along(g, w, h, i, q, q.len() as int);
}

/// Walking a prefix of a same-class path from a connected start stays connected.
proof fn lemma_connected_along<T>(g: Seq<T>, w: int, h: int, i: int, q: Seq<int>, n: int)
    requires
        grid_shape(g, w, h),
        class_path(g, w, h, q),
        connected(g, w, h, i, q[0]),
        1 <= n <= q.len(),
    ensures
        connected(g, w, h, i, q[n - 1]),
    decreases n,
{
    if n > 1 {
        lemma_connected_along(g, w, h, i, q, n - 1);
        assert(grid_adjacent(w, h, q[n - 2], q[n - 2 + 1]));
        assert(g[q[n - 1]] == g[q[0]]);
        assert(g[q[n - 2]] == g[q[0]]);
        lemma_connected_step(g, w, h, i, q[n - 2], q[n - 1]);
    }
}

/// A set that holds `s` and every same-class neighbour of each of its members
/// holds the whole region of `s`.
pub proof fn lemma_closed_set_holds_component<T>(
    g: Seq<T>,
    w: int,
    h: int,
    s: int,
    t: Set<int>,
    j: int,
)
    requires
        grid_shape(g, w, h),
        t.contains(s),
        forall|a: int, b: int|
            #![trigger t.contains(a), grid_adjacent(w, h, a, b)]
            t.contains(a) && grid_adjacent(w, h, a, b) && g[b] == g[a] ==> t.contains(b),
        connected(g, w, h, s, j),
    ensures
        t.contains(j),
{
    let p = choose|p: Seq<int>| #[trigger] class_path(g, w, h, p) && p[0] == s && p.last() == j;
    lemma_path_in_closed_set(g, w, h, t, p, p.len() as int);
}

/// A same-class path that starts in a set closed under same-class steps stays in it.
proof fn lemma_path_in_closed_set<T>(g: Seq<T>, w: int, h: int, t: Set<int>, p: Seq<int>, n: int)
    requires
        grid_shape(g, w, h),
        class_path(g, w, h, p),
        t.contains(p[0]),
        forall|a: int, b: int|
            #![trigger t.contains(a), grid_adjacent(w, h, a, b)]
            t.contains(a) && grid_adjacent(w, h, a, b) && g[b] == g[a] ==> t.contains(b),
        1 <= n <= p.len(),
    ensures
        t.contains(p[n - 1]),
    decreases n,
{
    if n > 1 {
        lemma_path_in_closed_set(g, w, h, t, p, n - 1);
        assert(grid_adjacent(w, h, p[n - 2], p[n - 2 + 1]));
        assert(g[p[n - 1]] == g[p[0]]);
        assert(g[p[n - 2]] == g[p[0]]);
    }
}

/// Components are finite subsets of the grid.
pub proof fn lemma_component_finite<T>(g: Seq<T>, w: int, h: int, i: int)
    ensures
        component(g, w, h, i).finite(),
        component(g, w, h, i).subset_of(vstd::set_lib::set_int_range(0, g.len() as int)),
        component(g, w, h, i).len() <= g.len(),
{
    assert forall|j: int| component(g, w, h, i).contains(j) implies vstd::set_lib::set_int_range(0, g.len() as int).contains(j) by {
        lemma_connected_in_bounds(g, w, h, i, j);
    }
    vstd::set_lib::lemma_int_range(0, g.len() as int);
    vstd::set_lib::lemma_len_subset(component(g, w, h, i), vstd::set_lib::set_int_range(0, g.len() as int));
}

/// Connected cells share one component.
pub proof fn lemma_component_shared<T>(g: Seq<T>, w: int, h: int, i: int, j: int)
    requires
        grid_shape(g, w, h),
        connected(g, w, h, i, j),
    ensures
        component(g, w, h, i) == component(g, w, h, j),
{
    assert forall|k: int| component(g, w, h, i).contains(k) <==> component(g, w, h, j).contains(k) by {
        lemma_connected_symmetric(g, w, h, i, j);
        if connected(g, w, h, i, k) {
            lemma_connected_transitive(g, w, h, j, i, k);
        }
        if connected(g, w, h, j, k) {
            lemma_connected_transitive(g, w, h, i, j, k);
        }
    }
    assert(component(g, w, h, i) =~= component(g, w, h, j));
}

} // verus!
