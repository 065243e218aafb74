//! The axis sorter: every run of every scan line, sorted in place.

use vstd::prelude::*;
use image::DynamicImage;
use crate::color_helpers::{
    hue_of_rgb,
    in_gate,
    lightness_of_rgb,
    luminance,
    saturation_of_rgb,
    scalar_of,
};
use crate::effects::line::{is_run, lemma_run_bounds, sorted_at, sorted_run, tagged, untagged};
use crate::effects::order::{lemma_sort_len, sort_tagged, stable_sort, Tagged};
use crate::grid::{lemma_put, on_line, place, Grid};
use crate::options::{SortDirection, SortKind, SortMethod, Threshold};
use crate::pixel::Rgba8;
use crate::raster::{
    decoded,
    dimensions,
    get_pixel,
    holds_rgba8,
    into_dynamic,
    into_raster,
    is_rgba8,
    new_raster,
    put_pixel,
    raster_grid,
    Raster,
};
use crate::scalar::Scalar;

verus! {

/// How many scan lines are sorted: every row, but not the last column.
pub open spec fn line_count(grid: Grid, direction: SortDirection) -> nat {
    match direction {
        SortDirection::Horizontal => grid.height(),
        SortDirection::Vertical => if grid.width > 0 {
            (grid.width - 1) as nat
        } else {
            0
        },
    }
}

/// How much of a scan line is sorted: a whole row, but a column without its last pixel.
pub open spec fn line_len(grid: Grid, direction: SortDirection) -> nat {
    match direction {
        SortDirection::Horizontal => grid.width,
        SortDirection::Vertical => if grid.height() > 0 {
            (grid.height() - 1) as nat
        } else {
            0
        },
    }
}

/// The pixel that sorting puts at `(x, y)`. Where no scan reaches, which is the last row
/// and the last column of a vertical sort, the pixel is transparent black.
pub open spec fn sorted_pixel(
    grid: Grid,
    gate: Threshold,
    kind: SortKind,
    direction: SortDirection,
    method: SortMethod,
    x: int,
    y: int,
) -> Rgba8 {
    let (index, k) = match direction {
        SortDirection::Horizontal => (y, x),
        SortDirection::Vertical => (x, y),
    };
    if index < line_count(grid, direction) && k < line_len(grid, direction) {
        sorted_at(
            grid.line(direction, index, line_len(grid, direction)),
            gate,
            kind,
            method,
            k,
        )
    } else {
        Rgba8::transparent()
    }
}

/// The grid that sorting makes of `grid`.
pub open spec fn sorted_grid(
    grid: Grid,
    gate: Threshold,
    kind: SortKind,
    direction: SortDirection,
    method: SortMethod,
) -> Grid {
    Grid {
        width: grid.width,
        rows: Seq::new(
            grid.height(),
            |y: int|
                Seq::new(
                    grid.width,
                    |x: int| sorted_pixel(grid, gate, kind, direction, method, x, y),
                ),
        ),
    }
}

/// Column and row of a stored position.
pub open spec fn spot(pos: (u32, u32)) -> (int, int) {
    (pos.0 as int, pos.1 as int)
}

/// `after` is `before` with `pixels[j]` written to `positions[j]` for every `j`, and
/// nothing else changed.
pub open spec fn written(
    before: Grid,
    after: Grid,
    positions: Seq<(u32, u32)>,
    pixels: Seq<Rgba8>,
) -> bool {
    &&& after.width == before.width
    &&& after.height() == before.height()
    &&& after.wf()
    &&& forall|j: int|
        0 <= j < positions.len() ==> after.at(
            (#[trigger] positions[j]).0 as int,
            positions[j].1 as int,
        ) == pixels[j]
    &&& forall|x: int, y: int|
        before.contains(x, y) && !on_some(positions, x, y) ==> #[trigger] after.at(x, y)
            == before.at(x, y)
}

/// `(x, y)` is one of `positions`.
pub open spec fn on_some(positions: Seq<(u32, u32)>, x: int, y: int) -> bool {
    exists|j: int| 0 <= j < positions.len() && spot(#[trigger] positions[j]) == (x, y)
}

/// The positions lie inside the grid, and no two of them are the same.
pub open spec fn writable(grid: Grid, positions: Seq<(u32, u32)>) -> bool {
    &&& forall|j: int|
        0 <= j < positions.len() ==> grid.contains(
            (#[trigger] positions[j]).0 as int,
            positions[j].1 as int,
        )
    &&& forall|i: int, j: int|
        0 <= i < j < positions.len() ==> spot(#[trigger] positions[i]) != spot(
            #[trigger] positions[j],
        )
}

/// The scalar extractor that `method` selects, applied to one pixel.
pub fn calculate_method(method: SortMethod, rgba: &Rgba8) -> (scalar: Scalar)
    ensures
        scalar == scalar_of(method, *rgba),
{
    match method {
        SortMethod::Default => Scalar::whole(rgba.r as u16 + rgba.g as u16 + rgba.b as u16),
        SortMethod::Red => Scalar::whole(rgba.r as u16),
        SortMethod::Green => Scalar::whole(rgba.g as u16),
        SortMethod::Blue => Scalar::whole(rgba.b as u16),
        SortMethod::Alpha => Scalar::whole(rgba.a as u16),
        SortMethod::Hue => hue_of_rgb(rgba),
        SortMethod::Saturation => saturation_of_rgb(rgba),
        SortMethod::Lightness => lightness_of_rgb(rgba),
    }
}

/// Decides [`in_gate`].
pub fn passes_gate(gate: Threshold, rgba: &Rgba8) -> (inside: bool)
    ensures
        inside == in_gate(gate, *rgba),
{
    let lum = luminance(rgba) as i64;
    gate.min <= lum && lum <= gate.max
}

/// Flushes the pending run: sorts it, writes the pixels back to the positions they came
/// from in position order, and leaves the run empty.
pub fn sort_and_put_remaining_pixels(
    ret_img_buffer: &mut Raster,
    pxs: &mut Vec<Tagged>,
    positions: &mut Vec<(u32, u32)>,
    kind: SortKind,
)
    requires
        old(pxs).len() == old(positions).len(),
        raster_grid(*old(ret_img_buffer)).wf(),
        writable(raster_grid(*old(ret_img_buffer)), old(positions)@),
    ensures
        final(pxs)@.len() == 0,
        final(positions)@.len() == 0,
        written(
            raster_grid(*old(ret_img_buffer)),
            raster_grid(*final(ret_img_buffer)),
            old(positions)@,
            untagged(stable_sort(old(pxs)@, kind)),
        ),
{
    let ghost before = raster_grid(*ret_img_buffer);
    let ghost unsorted = pxs@;
    sort_tagged(pxs, kind);
    proof {
        lemma_sort_len(unsorted, kind);
    }
    let ghost pixels = untagged(pxs@);
    let n = pxs.len();
    let mut idx: usize = 0;
    while idx < n
        invariant
            idx <= n,
            n == pxs.len(),
            n == positions.len(),
            pixels == untagged(pxs@),
            before.wf(),
            writable(before, positions@),
            written(
                before,
                raster_grid(*ret_img_buffer),
                positions@.take(idx as int),
                pixels.take(idx as int),
            ),
        decreases n - idx,
    {
        let (col, row) = positions[idx];
        let (_, rgba) = pxs[idx];
        let ghost prev = raster_grid(*ret_img_buffer);
        put_pixel(ret_img_buffer, col, row, rgba);
        proof {
            let now = raster_grid(*ret_img_buffer);
            let earlier = positions@.take(idx as int);
            let upto = positions@.take(idx + 1);
            assert(prev.contains(col as int, row as int)) by {
                assert(before.contains(positions@[idx as int].0 as int, positions@[idx as int].1 as int));
            }
            lemma_put(prev, col as int, row as int, rgba);
            assert(now == prev.put(col as int, row as int, rgba));
            assert forall|j: int| 0 <= j < upto.len() implies now.at(
                (#[trigger] upto[j]).0 as int,
                upto[j].1 as int,
            ) == pixels.take(idx + 1)[j] by {
                if j < idx {
                    assert(earlier[j] == positions@[j]);
                    assert(spot(positions@[j]) != spot(positions@[idx as int]));
                    assert(before.contains(positions@[j].0 as int, positions@[j].1 as int));
                    assert(prev.at(earlier[j].0 as int, earlier[j].1 as int) == pixels.take(
                        idx as int,
                    )[j]);
                }
            }
            assert forall|x: int, y: int|
                before.contains(x, y) && !on_some(upto, x, y) implies #[trigger] now.at(x, y)
                    == before.at(x, y) by {
                assert(spot(upto[idx as int]) != (x, y));
                if on_some(earlier, x, y) {
                    let j = choose|j: int|
                        0 <= j < earlier.len() && spot(#[trigger] earlier[j]) == (x, y);
                    assert(spot(upto[j]) == (x, y));
                }
            }
        }
        idx += 1;
    }
    proof {
        assert(positions@.take(n as int) =~= positions@);
        assert(pixels.take(n as int) =~= pixels);
    }
    pxs.clear();
    positions.clear();
}

/// One step along a scan line. A pixel inside the band joins the pending run with its
/// scalar and its position. A pixel outside ends the run: the run is flushed, and the
/// pixel goes to its own position unchanged.
pub fn calc_luminance(
    rgba: Rgba8,
    pxs: &mut Vec<Tagged>,
    positions: &mut Vec<(u32, u32)>,
    ret_img_buffer: &mut Raster,
    luminance_threshold: Threshold,
    kind: SortKind,
    method: SortMethod,
    pos: (u32, u32),
)
    requires
        old(pxs).len() == old(positions).len(),
        raster_grid(*old(ret_img_buffer)).wf(),
        writable(raster_grid(*old(ret_img_buffer)), old(positions)@.push(pos)),
    ensures
        in_gate(luminance_threshold, rgba) ==> {
            &&& final(pxs)@ == old(pxs)@.push((scalar_of(method, rgba), rgba))
            &&& final(positions)@ == old(positions)@.push(pos)
            &&& raster_grid(*final(ret_img_buffer)) == raster_grid(*old(ret_img_buffer))
        },
        !in_gate(luminance_threshold, rgba) ==> {
            &&& final(pxs)@.len() == 0
            &&& final(positions)@.len() == 0
            &&& written(
                raster_grid(*old(ret_img_buffer)),
                raster_grid(*final(ret_img_buffer)),
                old(positions)@.push(pos),
                untagged(stable_sort(old(pxs)@, kind)).push(rgba),
            )
            &&& raster_grid(*final(ret_img_buffer)).at(pos.0 as int, pos.1 as int) == rgba
            &&& forall|x: int, y: int|
                #![trigger raster_grid(*final(ret_img_buffer)).at(x, y)]
                #![trigger raster_grid(*final(ret_img_buffer)).rows[y][x]]
                raster_grid(*old(ret_img_buffer)).contains(x, y) && (x, y) != spot(pos)
                    && !on_some(old(positions)@, x, y) ==> raster_grid(
                    *final(ret_img_buffer),
                ).at(x, y) == raster_grid(*old(ret_img_buffer)).at(x, y)
        },
{
    let sortable_data = calculate_method(method, &rgba);

    if passes_gate(luminance_threshold, &rgba) {
        positions.push(pos);
        pxs.push((sortable_data, rgba));
        return ;
    }
    let ghost before = raster_grid(*ret_img_buffer);
    let ghost run = positions@;
    let ghost pixels = untagged(stable_sort(pxs@, kind));
    proof {
        lemma_sort_len(pxs@, kind);
        assert forall|j: int| 0 <= j < run.len() implies before.contains(
            (#[trigger] run[j]).0 as int,
            run[j].1 as int,
        ) by {
            assert(run.push(pos)[j] == run[j]);
        }
        assert forall|i: int, j: int| 0 <= i < j < run.len() implies spot(#[trigger] run[i])
            != spot(#[trigger] run[j]) by {
            assert(run.push(pos)[i] == run[i] && run.push(pos)[j] == run[j]);
        }
    }
    sort_and_put_remaining_pixels(ret_img_buffer, pxs, positions, kind);
    let ghost flushed = raster_grid(*ret_img_buffer);
    proof {
        assert(run.push(pos)[run.len() as int] == pos);
        assert(before.contains(pos.0 as int, pos.1 as int));
    }
    put_pixel(ret_img_buffer, pos.0, pos.1, rgba);
    proof {
        let now = raster_grid(*ret_img_buffer);
        let all = run.push(pos);
        lemma_put(flushed, pos.0 as int, pos.1 as int, rgba);
        assert(now == flushed.put(pos.0 as int, pos.1 as int, rgba));
        assert forall|j: int| 0 <= j < all.len() implies now.at(
            (#[trigger] all[j]).0 as int,
            all[j].1 as int,
        ) == pixels.push(rgba)[j] by {
            if j < run.len() {
                assert(all[j] == run[j]);
                assert(spot(all[j]) != spot(all[run.len() as int]));
                assert(before.contains(run[j].0 as int, run[j].1 as int));
            }
        }
        assert forall|x: int, y: int|
            before.contains(x, y) && !on_some(all, x, y) implies #[trigger] now.at(x, y)
                == before.at(x, y) by {
            assert(spot(all[run.len() as int]) != (x, y));
            if on_some(run, x, y) {
                let j = choose|j: int| 0 <= j < run.len() && spot(#[trigger] run[j]) == (x, y);
                assert(spot(all[j]) == (x, y));
            }
        }
        assert forall|x: int, y: int|
            before.contains(x, y) && (x, y) != spot(pos) && !on_some(
                run,
                x,
                y,
            ) implies #[trigger] now.at(x, y) == before.at(x, y) by {
            if on_some(all, x, y) {
                let j = choose|j: int| 0 <= j < all.len() && spot(#[trigger] all[j]) == (x, y);
                if j < run.len() {
                    assert(all[j] == run[j]);
                }
            }
        }
    }
}

/// The state between two steps along a scan line, `k` pixels in: the pending run holds
/// exactly the pixels since the last one outside the band, with the places they came from.
pub open spec fn pending(
    line: Seq<Rgba8>,
    gate: Threshold,
    method: SortMethod,
    direction: SortDirection,
    index: int,
    pxs: Seq<Tagged>,
    positions: Seq<(u32, u32)>,
    k: int,
) -> bool {
    let start = k - pxs.len();
    &&& pxs.len() == positions.len()
    &&& 0 <= start <= k <= line.len()
    &&& pxs == tagged(line.subrange(start, k), method)
    &&& forall|j: int|
        0 <= j < positions.len() ==> spot(#[trigger] positions[j]) == place(
            direction,
            index,
            start + j,
        )
    &&& forall|j: int| start <= j < k ==> in_gate(gate, #[trigger] line[j])
    &&& (start == 0 || !in_gate(gate, line[start - 1]))
}

/// A pending run that can grow no further is a run of the line, so its stable sort is
/// what the sorted line holds there.
proof fn lemma_pending_is_run(
    line: Seq<Rgba8>,
    gate: Threshold,
    kind: SortKind,
    method: SortMethod,
    direction: SortDirection,
    index: int,
    pxs: Seq<Tagged>,
    positions: Seq<(u32, u32)>,
    k: int,
    j: int,
)
    requires
        pending(line, gate, method, direction, index, pxs, positions, k),
        k == line.len() || !in_gate(gate, line[k]),
        k - pxs.len() <= j < k,
    ensures
        untagged(stable_sort(pxs, kind))[j - (k - pxs.len())] == sorted_at(
            line,
            gate,
            kind,
            method,
            j,
        ),
{
    let start = k - pxs.len();
    assert(is_run(line, gate, start, k));
    lemma_run_bounds(line, gate, start, k, j);
    assert(sorted_run(line, kind, method, start, k) == untagged(stable_sort(pxs, kind)));
}

/// After a flush the line is settled up to `upto`: the places before the run held their
/// sorted pixels already, the run's places have just received theirs, and nothing off
/// the line has changed.
proof fn lemma_flushed(
    line: Seq<Rgba8>,
    gate: Threshold,
    kind: SortKind,
    method: SortMethod,
    direction: SortDirection,
    index: int,
    grid: Grid,
    before: Grid,
    prev: Grid,
    now: Grid,
    places: Seq<(u32, u32)>,
    pixels: Seq<Rgba8>,
    start: int,
    upto: int,
)
    requires
        0 <= start <= upto <= line.len(),
        places.len() == upto - start,
        pixels.len() == upto - start,
        prev.width == grid.width,
        prev.height() == grid.height(),
        match direction {
            SortDirection::Horizontal => 0 <= index < grid.height() && line.len() <= grid.width,
            SortDirection::Vertical => 0 <= index < grid.width && line.len() <= grid.height(),
        },
        forall|j: int|
            0 <= j < places.len() ==> spot(#[trigger] places[j]) == place(
                direction,
                index,
                start + j,
            ),
        forall|j: int|
            start <= j < upto ==> #[trigger] pixels[j - start] == sorted_at(
                line,
                gate,
                kind,
                method,
                j,
            ),
        written(prev, now, places, pixels),
        forall|j: int|
            0 <= j < start ==> #[trigger] prev.on(direction, index, j) == sorted_at(
                line,
                gate,
                kind,
                method,
                j,
            ),
        forall|x: int, y: int|
            grid.contains(x, y) && !on_line(direction, index, line.len() as int, x, y)
                ==> #[trigger] prev.at(x, y) == before.at(x, y),
    ensures
        forall|j: int|
            0 <= j < upto ==> #[trigger] now.on(direction, index, j) == sorted_at(
                line,
                gate,
                kind,
                method,
                j,
            ),
        forall|x: int, y: int|
            grid.contains(x, y) && !on_line(direction, index, line.len() as int, x, y)
                ==> #[trigger] now.at(x, y) == before.at(x, y),
{
    assert forall|j: int| 0 <= j < upto implies #[trigger] now.on(direction, index, j)
        == sorted_at(line, gate, kind, method, j) by {
        let (x, y) = place(direction, index, j);
        if j < start {
            assert(!on_some(places, x, y));
            assert(prev.on(direction, index, j) == prev.at(x, y));
        } else {
            assert(spot(places[j - start]) == (x, y));
            assert(now.at(places[j - start].0 as int, places[j - start].1 as int) == pixels[j
                - start]);
        }
    }
    assert forall|x: int, y: int|
        grid.contains(x, y) && !on_line(
            direction,
            index,
            line.len() as int,
            x,
            y,
        ) implies #[trigger] now.at(x, y) == before.at(x, y) by {
        assert(!on_some(places, x, y));
        assert(prev.at(x, y) == before.at(x, y));
    }
}

/// Sorts the first `len` pixels of one scan line of `src` into `ret_img_buffer`.
fn scan_line(
    src: &Raster,
    ret_img_buffer: &mut Raster,
    luminance_threshold: Threshold,
    kind: SortKind,
    method: SortMethod,
    direction: SortDirection,
    index: u32,
    len: u32,
)
    requires
        raster_grid(*src).wf(),
        raster_grid(*old(ret_img_buffer)).wf(),
        raster_grid(*old(ret_img_buffer)).width == raster_grid(*src).width,
        raster_grid(*old(ret_img_buffer)).height() == raster_grid(*src).height(),
        match direction {
            SortDirection::Horizontal => index < raster_grid(*src).height() && len
                <= raster_grid(*src).width,
            SortDirection::Vertical => index < raster_grid(*src).width && len <= raster_grid(
                *src,
            ).height(),
        },
    ensures
        raster_grid(*final(ret_img_buffer)).wf(),
        raster_grid(*final(ret_img_buffer)).width == raster_grid(*src).width,
        raster_grid(*final(ret_img_buffer)).height() == raster_grid(*src).height(),
        forall|k: int|
            0 <= k < len ==> #[trigger] raster_grid(*final(ret_img_buffer)).on(
                direction,
                index as int,
                k,
            ) == sorted_at(
                raster_grid(*src).line(direction, index as int, len as nat),
                luminance_threshold,
                kind,
                method,
                k,
            ),
        forall|x: int, y: int|
            raster_grid(*src).contains(x, y) && !on_line(direction, index as int, len as int, x, y)
                ==> #[trigger] raster_grid(*final(ret_img_buffer)).at(x, y) == raster_grid(
                *old(ret_img_buffer),
            ).at(x, y),
{
    let ghost grid = raster_grid(*src);
    let ghost line = grid.line(direction, index as int, len as nat);
    let ghost before = raster_grid(*ret_img_buffer);
    let mut pxs: Vec<Tagged> = Vec::new();
    let mut positions: Vec<(u32, u32)> = Vec::new();

    let mut k: u32 = 0;
    assert(pxs@ =~= tagged(line.subrange(0, 0), method));
    while k < len
        invariant
            k <= len,
            grid == raster_grid(*src),
            line == grid.line(direction, index as int, len as nat),
            grid.wf(),
            raster_grid(*ret_img_buffer).wf(),
            raster_grid(*ret_img_buffer).width == grid.width,
            raster_grid(*ret_img_buffer).height() == grid.height(),
            match direction {
                SortDirection::Horizontal => index < grid.height() && len <= grid.width,
                SortDirection::Vertical => index < grid.width && len <= grid.height(),
            },
            pending(
                line,
                luminance_threshold,
                method,
                direction,
                index as int,
                pxs@,
                positions@,
                k as int,
            ),
            forall|j: int|
                0 <= j < k - pxs.len() ==> #[trigger] raster_grid(*ret_img_buffer).on(
                    direction,
                    index as int,
                    j,
                ) == sorted_at(line, luminance_threshold, kind, method, j),
            forall|x: int, y: int|
                grid.contains(x, y) && !on_line(direction, index as int, len as int, x, y)
                    ==> #[trigger] raster_grid(*ret_img_buffer).at(x, y) == before.at(x, y),
        decreases len - k,
    {
        let pos: (u32, u32) = match direction {
            SortDirection::Horizontal => (k, index),
            SortDirection::Vertical => (index, k),
        };
        let ghost prev = raster_grid(*ret_img_buffer);
        let ghost run = pxs@;
        let ghost places = positions@;
        let ghost start = k - pxs.len();
        assert(spot(pos) == place(direction, index as int, k as int));
        let rgba = get_pixel(src, pos.0, pos.1);
        assert(rgba == line[k as int]);
        proof {
            let all = places.push(pos);
            assert forall|j: int| 0 <= j < all.len() implies spot(#[trigger] all[j]) == place(
                direction,
                index as int,
                start + j,
            ) by {
                if j < places.len() {
                    assert(all[j] == places[j]);
                }
            }
            assert(writable(prev, all));
        }
        calc_luminance(
            rgba,
            &mut pxs,
            &mut positions,
            ret_img_buffer,
            luminance_threshold,
            kind,
            method,
            pos,
        );
        proof {
            if in_gate(luminance_threshold, rgba) {
                assert(pxs@ =~= tagged(line.subrange(start, k + 1), method));
            } else {
                let pixels = untagged(stable_sort(run, kind)).push(rgba);
                lemma_sort_len(run, kind);
                assert(pxs@ =~= tagged(line.subrange(k + 1, k + 1), method));
                assert forall|j: int| start <= j < k + 1 implies #[trigger] pixels[j - start]
                    == sorted_at(line, luminance_threshold, kind, method, j) by {
                    if j < k {
                        lemma_pending_is_run(
                            line,
                            luminance_threshold,
                            kind,
                            method,
                            direction,
                            index as int,
                            run,
                            places,
                            k as int,
                            j,
                        );
                    }
                }
                lemma_flushed(
                    line,
                    luminance_threshold,
                    kind,
                    method,
                    direction,
                    index as int,
                    grid,
                    before,
                    prev,
                    raster_grid(*ret_img_buffer),
                    places.push(pos),
                    pixels,
                    start,
                    k + 1,
                );
            }
        }
        k += 1;
    }
    let ghost prev = raster_grid(*ret_img_buffer);
    let ghost run = pxs@;
    let ghost places = positions@;
    let ghost start = k - pxs.len();
    proof {
        assert(writable(prev, places));
    }
    sort_and_put_remaining_pixels(ret_img_buffer, &mut pxs, &mut positions, kind);
    proof {
        let pixels = untagged(stable_sort(run, kind));
        lemma_sort_len(run, kind);
        assert forall|j: int| start <= j < k implies #[trigger] pixels[j - start] == sorted_at(
            line,
            luminance_threshold,
            kind,
            method,
            j,
        ) by {
            lemma_pending_is_run(
                line,
                luminance_threshold,
                kind,
                method,
                direction,
                index as int,
                run,
                places,
                k as int,
                j,
            );
        }
        lemma_flushed(
            line,
            luminance_threshold,
            kind,
            method,
            direction,
            index as int,
            grid,
            before,
            prev,
            raster_grid(*ret_img_buffer),
            places,
            pixels,
            start,
            k as int,
        );
    }
}

/// Sorts every row of `src` into `ret_img_buffer`.
pub fn sort_horizontal(
    src: &Raster,
    ret_img_buffer: &mut Raster,
    luminance_threshold: Threshold,
    kind: SortKind,
    method: SortMethod,
)
    requires
        raster_grid(*src).wf(),
        raster_grid(*old(ret_img_buffer)).wf(),
        raster_grid(*old(ret_img_buffer)).width == raster_grid(*src).width,
        raster_grid(*old(ret_img_buffer)).height() == raster_grid(*src).height(),
    ensures
        raster_grid(*final(ret_img_buffer)).wf(),
        raster_grid(*final(ret_img_buffer)).width == raster_grid(*src).width,
        raster_grid(*final(ret_img_buffer)).height() == raster_grid(*src).height(),
        forall|x: int, y: int|
            #![trigger raster_grid(*final(ret_img_buffer)).at(x, y)]
            #![trigger raster_grid(*final(ret_img_buffer)).rows[y][x]]
            raster_grid(*src).contains(x, y) ==> raster_grid(*final(ret_img_buffer)).at(x, y)
                == sorted_pixel(
                raster_grid(*src),
                luminance_threshold,
                kind,
                SortDirection::Horizontal,
                method,
                x,
                y,
            ),
{
    let ghost grid = raster_grid(*src);
    let (width, height) = dimensions(src);

    let mut row: u32 = 0;
    while row < height
        invariant
            row <= height,
            grid == raster_grid(*src),
            grid.wf(),
            width == grid.width,
            height == grid.height(),
            raster_grid(*ret_img_buffer).wf(),
            raster_grid(*ret_img_buffer).width == grid.width,
            raster_grid(*ret_img_buffer).height() == grid.height(),
            forall|x: int, y: int|
                grid.contains(x, y) && y < row ==> #[trigger] raster_grid(*ret_img_buffer).at(x, y)
                    == sorted_pixel(
                    grid,
                    luminance_threshold,
                    kind,
                    SortDirection::Horizontal,
                    method,
                    x,
                    y,
                ),
        decreases height - row,
    {
        let ghost prev = raster_grid(*ret_img_buffer);
        scan_line(
            src,
            ret_img_buffer,
            luminance_threshold,
            kind,
            method,
            SortDirection::Horizontal,
            row,
            width,
        );
        proof {
            let now = raster_grid(*ret_img_buffer);
            assert forall|x: int, y: int| grid.contains(x, y) && y < row + 1 implies #[trigger] now.at(
                x,
                y,
            ) == sorted_pixel(
                grid,
                luminance_threshold,
                kind,
                SortDirection::Horizontal,
                method,
                x,
                y,
            ) by {
                if y == row {
                    assert(now.on(SortDirection::Horizontal, row as int, x) == now.at(x, y));
                } else {
                    assert(prev.at(x, y) == sorted_pixel(
                        grid,
                        luminance_threshold,
                        kind,
                        SortDirection::Horizontal,
                        method,
                        x,
                        y,
                    ));
                }
            }
        }
        row += 1;
    }
}

/// Sorts the columns of `src` into `ret_img_buffer`, all but the last column and each
/// without its last pixel. The last row and the last column of `ret_img_buffer` stay as
/// they were.
pub fn sort_vertical(
    src: &Raster,
    ret_img_buffer: &mut Raster,
    luminance_threshold: Threshold,
    kind: SortKind,
    method: SortMethod,
)
    requires
        raster_grid(*src).wf(),
        raster_grid(*old(ret_img_buffer)).wf(),
        raster_grid(*old(ret_img_buffer)).width == raster_grid(*src).width,
        raster_grid(*old(ret_img_buffer)).height() == raster_grid(*src).height(),
    ensures
        raster_grid(*final(ret_img_buffer)).wf(),
        raster_grid(*final(ret_img_buffer)).width == raster_grid(*src).width,
        raster_grid(*final(ret_img_buffer)).height() == raster_grid(*src).height(),
        forall|x: int, y: int|
            #![trigger raster_grid(*final(ret_img_buffer)).at(x, y)]
            #![trigger raster_grid(*final(ret_img_buffer)).rows[y][x]]
            raster_grid(*src).contains(x, y) ==> raster_grid(*final(ret_img_buffer)).at(x, y) == (if x
                < raster_grid(*src).width - 1 && y < raster_grid(*src).height() - 1 {
                sorted_pixel(
                    raster_grid(*src),
                    luminance_threshold,
                    kind,
                    SortDirection::Vertical,
                    method,
                    x,
                    y,
                )
            } else {
                raster_grid(*old(ret_img_buffer)).at(x, y)
            }),
{
    let ghost grid = raster_grid(*src);
    let ghost before = raster_grid(*ret_img_buffer);
    let (width, height) = dimensions(src);
    let columns: u32 = if width > 0 {
        width - 1
    } else {
        0
    };
    let rows: u32 = if height > 0 {
        height - 1
    } else {
        0
    };

    let mut col_idx: u32 = 0;
    while col_idx < columns
        invariant
            col_idx <= columns,
            grid == raster_grid(*src),
            grid.wf(),
            width == grid.width,
            height == grid.height(),
            columns == line_count(grid, SortDirection::Vertical),
            rows == line_len(grid, SortDirection::Vertical),
            raster_grid(*ret_img_buffer).wf(),
            raster_grid(*ret_img_buffer).width == grid.width,
            raster_grid(*ret_img_buffer).height() == grid.height(),
            forall|x: int, y: int|
                grid.contains(x, y) ==> #[trigger] raster_grid(*ret_img_buffer).at(x, y) == (if x
                    < col_idx && y < rows {
                    sorted_pixel(
                        grid,
                        luminance_threshold,
                        kind,
                        SortDirection::Vertical,
                        method,
                        x,
                        y,
                    )
                } else {
                    before.at(x, y)
                }),
        decreases columns - col_idx,
    {
        let ghost prev = raster_grid(*ret_img_buffer);
        scan_line(
            src,
            ret_img_buffer,
            luminance_threshold,
            kind,
            method,
            SortDirection::Vertical,
            col_idx,
            rows,
        );
        proof {
            let now = raster_grid(*ret_img_buffer);
            assert forall|x: int, y: int| grid.contains(x, y) implies #[trigger] now.at(x, y) == (if x
                < col_idx + 1 && y < rows {
                sorted_pixel(grid, luminance_threshold, kind, SortDirection::Vertical, method, x, y)
            } else {
                before.at(x, y)
            }) by {
                if x == col_idx && y < rows {
                    assert(now.on(SortDirection::Vertical, col_idx as int, y) == now.at(x, y));
                } else {
                    assert(now.at(x, y) == prev.at(x, y));
                }
            }
        }
        col_idx += 1;
    }
}

/// Sorts the pixels of `img` within each run of each scan line.
///
/// The image has to hold its pixels as RGBA with eight bits per channel; [`try_sort`]
/// asks nothing and tests this itself. Scan lines are the rows for `Horizontal`, the
/// columns for `Vertical`. Along a scan line, a run is a stretch of neighbouring pixels
/// whose luminance lies in `luminance_threshold`, bounds included, and that no neighbour
/// extends. Each run is sorted by the scalar that `method` gives: ascending for
/// `LeftToRight`, descending for `RightToLeft`, pixels with level scalars keeping their
/// order in both. Pixels outside the band stay where they are.
///
/// A vertical sort leaves out the last column, and the last pixel of every other
/// column; the result is transparent black there.
pub fn sort(
    img: DynamicImage,
    luminance_threshold: Threshold,
    kind: SortKind,
    direction: SortDirection,
    method: SortMethod,
) -> (ret: DynamicImage)
    requires
        is_rgba8(img),
    ensures
        is_rgba8(ret),
        decoded(ret).width == decoded(img).width,
        decoded(ret).height() == decoded(img).height(),
        decoded(ret) == sorted_grid(decoded(img), luminance_threshold, kind, direction, method),
{
    match into_raster(img) {
        Ok(src) => {
            let (width, height) = dimensions(&src);
            let ghost grid = raster_grid(src);

            let mut ret = new_raster(width, height);
            let ghost blank = raster_grid(ret);
            match direction {
                SortDirection::Horizontal => sort_horizontal(
                    &src,
                    &mut ret,
                    luminance_threshold,
                    kind,
                    method,
                ),
                SortDirection::Vertical => sort_vertical(
                    &src,
                    &mut ret,
                    luminance_threshold,
                    kind,
                    method,
                ),
            }
            proof {
                let now = raster_grid(ret);
                let goal = sorted_grid(grid, luminance_threshold, kind, direction, method);
                assert forall|y: int| 0 <= y < now.rows.len() implies #[trigger] now.rows[y]
                    =~= goal.rows[y] by {
                    assert forall|x: int| 0 <= x < grid.width implies now.rows[y][x]
                        == goal.rows[y][x] by {
                        assert(grid.contains(x, y));
                        assert(now.at(x, y) == now.rows[y][x]);
                        assert(blank.at(x, y) == Rgba8::transparent());
                    }
                }
                assert(now.rows =~= goal.rows);
            }

            into_dynamic(ret)
        },
        // Never taken: an image that holds RGBA with eight bits comes apart.
        Err(back) => back,
    }
}

/// [`sort`] for any image: sorts one that holds its pixels as RGBA with eight bits per
/// channel, and returns `None` for every other, which it does not touch.
pub fn try_sort(
    img: DynamicImage,
    luminance_threshold: Threshold,
    kind: SortKind,
    direction: SortDirection,
    method: SortMethod,
) -> (ret: Option<DynamicImage>)
    ensures
        ret is Some <==> is_rgba8(img),
        ret matches Some(out) ==> is_rgba8(out) && decoded(out) == sorted_grid(
            decoded(img),
            luminance_threshold,
            kind,
            direction,
            method,
        ),
{
    if holds_rgba8(&img) {
        Some(sort(img, luminance_threshold, kind, direction, method))
    } else {
        None
    }
}

} // verus!
