//! What holds of every sort, proved from the definition of the sorted grid.

use vstd::prelude::*;
use crate::color_helpers::{in_gate, scalar_of};
use crate::effects::line::{
    is_run,
    lemma_line_idempotent,
    lemma_line_run_multiset,
    lemma_line_run_ordered,
    lemma_line_run_stable,
    lemma_line_run_strictly_ordered,
    scalar_level_with,
    sorted_line,
};
use crate::effects::order::precedes;
use crate::effects::sort::{line_count, line_len, sorted_grid, sorted_pixel};
use crate::grid::Grid;
use crate::options::{SortDirection, SortKind, SortMethod, Threshold};
use crate::pixel::Rgba8;
use crate::scalar::Scalar;

verus! {

/// Dimension preservation: the sorted grid has the width and the height of the grid it
/// was made from, and all its rows are complete.
pub proof fn lemma_dimensions_kept(
    grid: Grid,
    gate: Threshold,
    kind: SortKind,
    direction: SortDirection,
    method: SortMethod,
)
    ensures
        sorted_grid(grid, gate, kind, direction, method).width == grid.width,
        sorted_grid(grid, gate, kind, direction, method).height() == grid.height(),
        sorted_grid(grid, gate, kind, direction, method).wf(),
{
}

/// Scan lines do not interact: each sorted scan line of the sorted grid is the scan line
/// of the grid, sorted.
pub proof fn lemma_sorted_lines(
    grid: Grid,
    gate: Threshold,
    kind: SortKind,
    direction: SortDirection,
    method: SortMethod,
    index: int,
)
    requires
        0 <= index < line_count(grid, direction),
    ensures
        sorted_grid(grid, gate, kind, direction, method).line(
            direction,
            index,
            line_len(grid, direction),
        ) == sorted_line(
            grid.line(direction, index, line_len(grid, direction)),
            gate,
            kind,
            method,
        ),
{
    let len = line_len(grid, direction);
    let after = sorted_grid(grid, gate, kind, direction, method);
    assert forall|k: int| 0 <= k < len implies after.on(direction, index, k) == sorted_line(
        grid.line(direction, index, len),
        gate,
        kind,
        method,
    )[k] by {
        match direction {
            SortDirection::Horizontal => {
                assert(after.rows[index][k] == sorted_pixel(
                    grid,
                    gate,
                    kind,
                    direction,
                    method,
                    k,
                    index,
                ));
            },
            SortDirection::Vertical => {
                assert(after.rows[k][index] == sorted_pixel(
                    grid,
                    gate,
                    kind,
                    direction,
                    method,
                    index,
                    k,
                ));
            },
        }
    }
    assert(after.line(direction, index, len) =~= sorted_line(
        grid.line(direction, index, len),
        gate,
        kind,
        method,
    ));
}

/// Pass-through: a pixel whose luminance lies outside the band is found unchanged at the
/// same place. For a vertical sort this is said of the places that the scan reaches,
/// which leaves out the last row and the last column.
pub proof fn lemma_pass_through(
    grid: Grid,
    gate: Threshold,
    kind: SortKind,
    direction: SortDirection,
    method: SortMethod,
    x: int,
    y: int,
)
    requires
        grid.contains(x, y),
        !in_gate(gate, grid.at(x, y)),
        direction == SortDirection::Vertical ==> x < grid.width - 1 && y < grid.height() - 1,
    ensures
        sorted_grid(grid, gate, kind, direction, method).at(x, y) == grid.at(x, y),
{
}

/// The edge of a vertical sort: its last row and its last column are transparent black,
/// whatever the grid held there, because no scan reaches them.
pub proof fn lemma_vertical_edge(
    grid: Grid,
    gate: Threshold,
    kind: SortKind,
    method: SortMethod,
    x: int,
    y: int,
)
    requires
        grid.contains(x, y),
        x == grid.width - 1 || y == grid.height() - 1,
    ensures
        sorted_grid(grid, gate, kind, SortDirection::Vertical, method).at(x, y)
            == Rgba8::transparent(),
{
}

/// Band emptiness: with `min > max` a horizontal sort returns the grid as it was, and a
/// vertical sort returns it with the last row and the last column transparent black.
pub proof fn lemma_empty_band(grid: Grid, gate: Threshold, kind: SortKind, method: SortMethod)
    requires
        grid.wf(),
        gate.min > gate.max,
    ensures
        sorted_grid(grid, gate, kind, SortDirection::Horizontal, method) == grid,
        forall|x: int, y: int|
            grid.contains(x, y) ==> #[trigger] sorted_grid(
                grid,
                gate,
                kind,
                SortDirection::Vertical,
                method,
            ).at(x, y) == (if x < grid.width - 1 && y < grid.height() - 1 {
                grid.at(x, y)
            } else {
                Rgba8::transparent()
            }),
{
    let across = sorted_grid(grid, gate, kind, SortDirection::Horizontal, method);
    assert forall|y: int| 0 <= y < grid.rows.len() implies #[trigger] across.rows[y]
        =~= grid.rows[y] by {
        assert(grid.rows[y].len() == grid.width);
        assert forall|x: int| 0 <= x < grid.width implies across.rows[y][x] == grid.rows[y][x] by {
            assert(!in_gate(gate, grid.at(x, y)));
        }
    }
    assert(across.rows =~= grid.rows);
    let down = sorted_grid(grid, gate, kind, SortDirection::Vertical, method);
    assert forall|x: int, y: int| grid.contains(x, y) implies #[trigger] down.at(x, y) == (if x
        < grid.width - 1 && y < grid.height() - 1 {
        grid.at(x, y)
    } else {
        Rgba8::transparent()
    }) by {
        assert(!in_gate(gate, grid.at(x, y)));
    }
}

/// Run conservation: over any run of any sorted scan line, the sorted grid holds every
/// pixel as often as the grid did.
pub proof fn lemma_run_conservation(
    grid: Grid,
    gate: Threshold,
    kind: SortKind,
    direction: SortDirection,
    method: SortMethod,
    index: int,
    a: int,
    b: int,
)
    requires
        0 <= index < line_count(grid, direction),
        is_run(grid.line(direction, index, line_len(grid, direction)), gate, a, b),
    ensures
        sorted_grid(grid, gate, kind, direction, method).line(
            direction,
            index,
            line_len(grid, direction),
        ).subrange(a, b).to_multiset() == grid.line(
            direction,
            index,
            line_len(grid, direction),
        ).subrange(a, b).to_multiset(),
{
    lemma_sorted_lines(grid, gate, kind, direction, method, index);
    lemma_line_run_multiset(
        grid.line(direction, index, line_len(grid, direction)),
        gate,
        kind,
        method,
        a,
        b,
    );
}

/// Idempotence: sorting a sorted grid again, with the same band, order, axis and method,
/// changes nothing.
pub proof fn lemma_sort_idempotent(
    grid: Grid,
    gate: Threshold,
    kind: SortKind,
    direction: SortDirection,
    method: SortMethod,
)
    ensures
        sorted_grid(
            sorted_grid(grid, gate, kind, direction, method),
            gate,
            kind,
            direction,
            method,
        ) == sorted_grid(grid, gate, kind, direction, method),
{
    let once = sorted_grid(grid, gate, kind, direction, method);
    let twice = sorted_grid(once, gate, kind, direction, method);
    let len = line_len(grid, direction);
    assert forall|y: int| 0 <= y < once.rows.len() implies #[trigger] twice.rows[y]
        =~= once.rows[y] by {
        assert forall|x: int| 0 <= x < grid.width implies twice.rows[y][x] == once.rows[y][x] by {
            let (index, k) = match direction {
                SortDirection::Horizontal => (y, x),
                SortDirection::Vertical => (x, y),
            };
            if index < line_count(grid, direction) && k < len {
                lemma_sorted_lines(grid, gate, kind, direction, method, index);
                lemma_line_idempotent(grid.line(direction, index, len), gate, kind, method);
                let line = grid.line(direction, index, len);
                assert(sorted_line(sorted_line(line, gate, kind, method), gate, kind, method)[k]
                    == sorted_line(line, gate, kind, method)[k]);
            }
        }
    }
    assert(twice.rows =~= once.rows);
}

/// Order correctness: within a run of a sorted scan line no pixel has to come before an
/// earlier one. In ascending order the scalars never fall along the run, in descending
/// order they never rise.
pub proof fn lemma_run_ordered(
    grid: Grid,
    gate: Threshold,
    kind: SortKind,
    direction: SortDirection,
    method: SortMethod,
    index: int,
    a: int,
    b: int,
    i: int,
    j: int,
)
    requires
        0 <= index < line_count(grid, direction),
        is_run(grid.line(direction, index, line_len(grid, direction)), gate, a, b),
        a <= i < j < b,
    ensures
        !precedes(
            kind,
            scalar_of(method, sorted_grid(grid, gate, kind, direction, method).on(direction, index, j)),
            scalar_of(method, sorted_grid(grid, gate, kind, direction, method).on(direction, index, i)),
        ),
{
    let len = line_len(grid, direction);
    let after = sorted_grid(grid, gate, kind, direction, method);
    lemma_sorted_lines(grid, gate, kind, direction, method, index);
    assert(after.line(direction, index, len)[i] == after.on(direction, index, i));
    assert(after.line(direction, index, len)[j] == after.on(direction, index, j));
    lemma_line_run_ordered(grid.line(direction, index, len), gate, kind, method, a, b, i, j);
}

/// Order correctness under the red method: a run whose pixels all differ in red comes
/// out with red strictly rising along the run in ascending order, strictly falling in
/// descending order.
pub proof fn lemma_red_order(
    grid: Grid,
    gate: Threshold,
    kind: SortKind,
    direction: SortDirection,
    index: int,
    a: int,
    b: int,
    i: int,
    j: int,
)
    requires
        0 <= index < line_count(grid, direction),
        is_run(grid.line(direction, index, line_len(grid, direction)), gate, a, b),
        a <= i < j < b,
        forall|u: int, v: int|
            a <= u < v < b ==> grid.on(direction, index, u).r != grid.on(direction, index, v).r,
    ensures
        kind == SortKind::LeftToRight ==> sorted_grid(
            grid,
            gate,
            kind,
            direction,
            SortMethod::Red,
        ).on(direction, index, i).r < sorted_grid(grid, gate, kind, direction, SortMethod::Red).on(
            direction,
            index,
            j,
        ).r,
        kind == SortKind::RightToLeft ==> sorted_grid(
            grid,
            gate,
            kind,
            direction,
            SortMethod::Red,
        ).on(direction, index, i).r > sorted_grid(grid, gate, kind, direction, SortMethod::Red).on(
            direction,
            index,
            j,
        ).r,
{
    let len = line_len(grid, direction);
    let line = grid.line(direction, index, len);
    let after = sorted_grid(grid, gate, kind, direction, SortMethod::Red);
    lemma_sorted_lines(grid, gate, kind, direction, SortMethod::Red, index);
    assert(after.line(direction, index, len)[i] == after.on(direction, index, i));
    assert(after.line(direction, index, len)[j] == after.on(direction, index, j));
    reveal(Scalar::lt);
    assert forall|u: int, v: int| a <= u < v < b implies !scalar_of(
        SortMethod::Red,
        #[trigger] line[u],
    ).level(scalar_of(SortMethod::Red, #[trigger] line[v])) by {
        assert(grid.on(direction, index, u).r != grid.on(direction, index, v).r);
    }
    lemma_line_run_strictly_ordered(line, gate, kind, SortMethod::Red, a, b, i, j);
}

/// Ties keep their order: within a run, the pixels whose scalars are level with any one
/// scalar stand in the sorted grid in the order they had in the grid, in ascending and in
/// descending order alike.
pub proof fn lemma_ties_keep_order(
    grid: Grid,
    gate: Threshold,
    kind: SortKind,
    direction: SortDirection,
    method: SortMethod,
    index: int,
    a: int,
    b: int,
    v: Scalar,
)
    requires
        0 <= index < line_count(grid, direction),
        is_run(grid.line(direction, index, line_len(grid, direction)), gate, a, b),
    ensures
        sorted_grid(grid, gate, kind, direction, method).line(
            direction,
            index,
            line_len(grid, direction),
        ).subrange(a, b).filter(scalar_level_with(method, v)) == grid.line(
            direction,
            index,
            line_len(grid, direction),
        ).subrange(a, b).filter(scalar_level_with(method, v)),
{
    lemma_sorted_lines(grid, gate, kind, direction, method, index);
    lemma_line_run_stable(
        grid.line(direction, index, line_len(grid, direction)),
        gate,
        kind,
        method,
        a,
        b,
        v,
    );
}

} // verus!
