//! The mathematical picture of a raster: a width and a sequence of rows.

use vstd::prelude::*;
use crate::options::SortDirection;
use crate::pixel::Rgba8;

verus! {

/// A raster as contracts see it. The origin is the top-left corner; `rows[y][x]` is the
/// pixel in column `x` of row `y`.
pub struct Grid {
    pub width: nat,
    pub rows: Seq<Seq<Rgba8>>,
}

impl Grid {
    pub open spec fn height(self) -> nat {
        self.rows.len()
    }

    /// Every row has `width` pixels.
    pub open spec fn wf(self) -> bool {
        forall|y: int| 0 <= y < self.rows.len() ==> (#[trigger] self.rows[y]).len() == self.width
    }

    pub open spec fn contains(self, x: int, y: int) -> bool {
        0 <= x < self.width && 0 <= y < self.rows.len()
    }

    pub open spec fn at(self, x: int, y: int) -> Rgba8 {
        self.rows[y][x]
    }

    /// The grid with the pixel at `(x, y)` replaced.
    pub open spec fn put(self, x: int, y: int, p: Rgba8) -> Grid {
        Grid { width: self.width, rows: self.rows.update(y, self.rows[y].update(x, p)) }
    }

    /// A grid of the given size that is transparent black everywhere.
    pub open spec fn blank(width: nat, height: nat) -> Grid {
        Grid {
            width,
            rows: Seq::new(height, |y: int| Seq::new(width, |x: int| Rgba8::transparent())),
        }
    }

    /// The `k`-th pixel on scan line `index`.
    pub open spec fn on(self, direction: SortDirection, index: int, k: int) -> Rgba8 {
        let (x, y) = place(direction, index, k);
        self.at(x, y)
    }

    /// The first `len` pixels of scan line `index`: of row `index` from the left, or of
    /// column `index` from the top.
    pub open spec fn line(self, direction: SortDirection, index: int, len: nat) -> Seq<Rgba8> {
        Seq::new(len, |k: int| self.on(direction, index, k))
    }
}

/// Column and row of the `k`-th position on scan line `index`.
pub open spec fn place(direction: SortDirection, index: int, k: int) -> (int, int) {
    match direction {
        SortDirection::Horizontal => (k, index),
        SortDirection::Vertical => (index, k),
    }
}

/// `(x, y)` is one of the first `len` positions of scan line `index`.
pub open spec fn on_line(direction: SortDirection, index: int, len: int, x: int, y: int) -> bool {
    match direction {
        SortDirection::Horizontal => y == index && 0 <= x < len,
        SortDirection::Vertical => x == index && 0 <= y < len,
    }
}

/// Replacing one pixel leaves the shape and every other pixel alone.
pub proof fn lemma_put(grid: Grid, x: int, y: int, p: Rgba8)
    requires
        grid.wf(),
        grid.contains(x, y),
    ensures
        grid.put(x, y, p).wf(),
        grid.put(x, y, p).width == grid.width,
        grid.put(x, y, p).height() == grid.height(),
        grid.put(x, y, p).at(x, y) == p,
        forall|u: int, v: int|
            grid.contains(u, v) && (u, v) != (x, y) ==> #[trigger] grid.put(x, y, p).at(u, v)
                == grid.at(u, v),
{
    let after = grid.put(x, y, p);
    assert forall|v: int| 0 <= v < after.rows.len() implies (#[trigger] after.rows[v]).len()
        == after.width by {
        assert(grid.rows[v].len() == grid.width);
    }
    assert(grid.rows[y].len() == grid.width);
}

} // verus!
