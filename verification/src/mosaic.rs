//! The mosaic: a Web Mercator raster of backscatter, cut into tiles.

use vstd::prelude::*;

use crate::frame;
use crate::frame::{unframe, FrameError};
use crate::grid;
use crate::grid::{cell_index, quotient, two_to};

pub mod image;
pub mod level;
pub mod style;

verus! {

pub const MAGIC: [u8; 8] = [83, 87, 84, 77, 79, 83, 48, 49];

/// How a file said what it was before the application was renamed. Only ever
/// read.
pub const MAGIC_LEGACY: [u8; 8] = [87, 80, 65, 77, 79, 83, 48, 49];

/// Pixels along each side of a tile.
pub const TILE: usize = 256;

/// Which painter drew a mosaic, part of its cache key. To be raised on any
/// change to what is put on the ground.
pub const PAINTER: u32 = 8;

/// Cells in a raster before the build is refused.
pub const MAX_CELLS: u64 = 400_000_000;

/// A painted raster.
#[derive(Debug)]
pub struct Raster {
    /// Origin in Web Mercator pixels at `base_zoom`.
    pub x0: i64,
    pub y0: i64,
    pub width: usize,
    pub height: usize,
    pub base_zoom: u32,
    /// Row-major backscatter.
    pub value: Vec<u8>,
    /// Row-major coverage: 0 where nothing was painted.
    pub cover: Vec<u8>,
}

impl Raster {
    /// Both planes are as large as the raster says.
    pub open spec fn wf(self) -> bool {
        &&& self.value@.len() == self.width * self.height
        &&& self.cover@.len() == self.width * self.height
    }

    /// What is painted in a cell.
    pub open spec fn cell(self, x: int, y: int) -> Option<u8> {
        if 0 <= x < self.width && 0 <= y < self.height && self.cover@[y * self.width + x] > 0 {
            Some(self.value@[y * self.width + x])
        } else {
            None
        }
    }

    /// What is painted in a cell.
    pub fn cell_at(&self, x: i64, y: i64) -> (r: Option<u8>)
        requires
            self.wf(),
        ensures
            r == self.cell(x as int, y as int),
    {
        let n: usize = self.cover.len();
        proof {
            assert(n == self.width * self.height);
        }
        match cell_index(x, y, self.width, self.height) {
            None => None,
            Some(i) => {
                proof {
                    grid::lemma_inside(x as int, y as int, self.width as int, self.height as int);
                }
                if self.cover[i] > 0 {
                    Some(self.value[i])
                } else {
                    None
                }
            },
        }
    }

    /// Sample the mosaic at a Web Mercator pixel of its own zoom, for a readout
    /// under the cursor.
    pub fn sample(&self, px: i64, py: i64) -> (r: Option<u8>)
        requires
            self.wf(),
            i64::MIN <= px - self.x0 <= i64::MAX,
            i64::MIN <= py - self.y0 <= i64::MAX,
        ensures
            r == self.cell(px - self.x0, py - self.y0),
    {
        self.cell_at(px - self.x0, py - self.y0)
    }
}

// ---- tiles ---------------------------------------------------------------------

/// The sum and the number of the painted cells among the first `k` of a window:
/// `win` cells by `win`, every `sub` cells, from (sx, sy) on.
pub open spec fn seen(r: Raster, sx: int, sy: int, win: int, sub: int, k: int) -> (int, int)
    decreases k,
{
    if k <= 0 {
        (0, 0)
    } else {
        let (sum, n) = seen(r, sx, sy, win, sub, k - 1);
        match r.cell(sx + (k - 1) % win * sub, sy + (k - 1) / win * sub) {
            Some(v) => (sum + v, n + 1),
            None => (sum, n),
        }
    }
}

/// How many cells a tile pixel looks at along each side: all of them, but 16 at
/// the most.
pub open spec fn window(step: int) -> int {
    if step < 16 {
        step
    } else {
        16
    }
}

/// What a pixel of a tile shows. Where the tile is coarser than the raster it
/// is the mean of what is painted under it; where it is finer, the cell it
/// falls in.
pub open spec fn pixel(r: Raster, z: u32, tx: int, ty: int, px: int, py: int) -> Option<u8> {
    if z <= r.base_zoom {
        let step = grid::power((r.base_zoom - z) as nat);
        let win = window(step);
        let (sum, n) = seen(
            r,
            (tx * 256 + px) * step - r.x0,
            (ty * 256 + py) * step - r.y0,
            win,
            step / win,
            win * win,
        );
        if n > 0 {
            Some((sum / n) as u8)
        } else {
            None
        }
    } else {
        let mag = grid::power((z - r.base_zoom) as nat);
        r.cell((tx * 256 + px) / mag - r.x0, (ty * 256 + py) / mag - r.y0)
    }
}

/// The four bytes of a pixel: grey, and transparent where nothing was painted.
pub open spec fn grey_pixel(v: Option<u8>) -> Seq<u8> {
    match v {
        Some(v) => seq![v, v, v, 255u8],
        None => seq![0u8, 0, 0, 0],
    }
}

/// Whether bytes are the first `n` pixels of a tile.
pub open spec fn tile_pixels(b: Seq<u8>, r: Raster, z: u32, tx: int, ty: int, n: int) -> bool {
    &&& b.len() == 4 * n
    &&& forall|p: int|
        0 <= p < n ==> pixel_bytes(b, p) == grey_pixel(
            #[trigger] pixel(r, z, tx, ty, p % 256, p / 256),
        )
}

/// The four bytes of a pixel among those of an image.
pub open spec fn pixel_bytes(b: Seq<u8>, p: int) -> Seq<u8> {
    b.subrange(4 * p, 4 * p + 4)
}

/// Whether a tile has anything on it, up to the `n`th pixel.
pub open spec fn any_painted(r: Raster, z: u32, tx: int, ty: int, n: int) -> bool {
    exists|p: int|
        0 <= p < n && #[trigger] pixel(r, z, tx, ty, p % 256, p / 256) is Some
}

/// Whether the pixels of a tile can be numbered at the raster's zoom.
pub open spec fn tile_in_reach(r: Raster, z: u32, tx: int, ty: int) -> bool {
    &&& -54 <= r.base_zoom - z <= 54
    &&& -0x4000_0000_0000_0000 < r.x0 < 0x4000_0000_0000_0000
    &&& -0x4000_0000_0000_0000 < r.y0 < 0x4000_0000_0000_0000
    &&& ({
        let step = if z <= r.base_zoom {
            grid::power((r.base_zoom - z) as nat)
        } else {
            1
        };
        &&& -0x4000_0000_0000_0000 <= (tx * 256) * step
        &&& (tx * 256 + 256) * step <= 0x4000_0000_0000_0000
        &&& -0x4000_0000_0000_0000 <= (ty * 256) * step
        &&& (ty * 256 + 256) * step <= 0x4000_0000_0000_0000
    })
}

impl Raster {
    /// Whether a tile's pixels are within reach of the raster's numbering.
    pub fn reaches(&self, z: u32, tx: i64, ty: i64) -> (r: bool)
        ensures
            r == tile_in_reach(*self, z, tx as int, ty as int),
    {
        let apart: i64 = self.base_zoom as i64 - z as i64;
        if apart < -54 || apart > 54 {
            return false;
        }
        let far: i64 = 0x4000_0000_0000_0000;
        if self.x0 <= -far || self.x0 >= far || self.y0 <= -far || self.y0 >= far {
            return false;
        }
        let step: i64 = if z <= self.base_zoom {
            two_to(self.base_zoom - z)
        } else {
            1
        };
        within(tx, step) && within(ty, step)
    }
}

/// Whether the pixels of a tile, each so many cells wide, can be numbered.
fn within(t: i64, step: i64) -> (r: bool)
    requires
        1 <= step <= 0x40_0000_0000_0000,
    ensures
        r == (-0x4000_0000_0000_0000 <= (t * 256) * step && (t * 256 + 256) * step
            <= 0x4000_0000_0000_0000),
{
    let first: i128 = t as i128 * 256;
    let last: i128 = first + 256;
    proof {
        assert(-0x100_0000_0000_0000_0000 * 0x40_0000_0000_0000 <= first * step
            <= 0x100_0000_0000_0000_0000 * 0x40_0000_0000_0000
            && -0x100_0000_0000_0000_0000 * 0x40_0000_0000_0000 <= last * step
            <= 0x100_0000_0000_0000_0000 * 0x40_0000_0000_0000) by (nonlinear_arith)
            requires
                -0x100_0000_0000_0000_0000 <= first <= 0x100_0000_0000_0000_0000,
                -0x100_0000_0000_0000_0000 <= last <= 0x100_0000_0000_0000_0000,
                1 <= step <= 0x40_0000_0000_0000,
        ;
    }
    -0x4000_0000_0000_0000 <= first * step as i128 && last * step as i128 <= 0x4000_0000_0000_0000
}

proof fn lemma_seen_bounds(r: Raster, sx: int, sy: int, win: int, sub: int, k: int)
    requires
        0 <= k,
    ensures
        0 <= seen(r, sx, sy, win, sub, k).1 <= k,
        0 <= seen(r, sx, sy, win, sub, k).0 <= 255 * seen(r, sx, sy, win, sub, k).1,
    decreases k,
{
    if k > 0 {
        lemma_seen_bounds(r, sx, sy, win, sub, k - 1);
    }
}

proof fn lemma_window_fits(k: int, win: int, sub: int, step: int)
    requires
        1 <= win <= 16,
        win == window(step),
        sub == step / win,
        1 <= step,
        0 <= k < win * win,
    ensures
        0 <= k % win * sub < step,
        0 <= k / win * sub < step,
        0 <= k / win < win,
        0 <= k % win < win,
        1 <= sub,
{
    assert(0 <= k / win < win) by (nonlinear_arith)
        requires
            0 <= k < win * win,
            1 <= win,
    ;
    assert(win * sub <= step && 1 <= sub) by (nonlinear_arith)
        requires
            sub == step / win,
            1 <= win <= step,
    ;
    let a = k % win;
    let b = k / win;
    assert(0 <= a * sub < step) by (nonlinear_arith)
        requires
            0 <= a <= win - 1,
            1 <= sub,
            win * sub <= step,
    ;
    assert(0 <= b * sub < step) by (nonlinear_arith)
        requires
            0 <= b <= win - 1,
            1 <= sub,
            win * sub <= step,
    ;
}

fn mean_of(r: &Raster, sx: i64, sy: i64, step: i64) -> (v: Option<u8>)
    requires
        r.wf(),
        1 <= step <= 18014398509481984,
        sx + step <= i64::MAX,
        sy + step <= i64::MAX,
    ensures
        ({
            let win = window(step as int);
            let (sum, n) = seen(*r, sx as int, sy as int, win, step as int / win, win * win);
            v == (if n > 0 {
                Some((sum / n) as u8)
            } else {
                None
            })
        }),
{
    let win: i64 = if step < 16 { step } else { 16 };
    let sub: i64 = step / win;
    proof {
        assert(win * win <= 256) by (nonlinear_arith)
            requires
                1 <= win <= 16,
        ;
    }
    let total: i64 = win * win;
    let mut sum: u32 = 0;
    let mut n: u32 = 0;
    let mut k: i64 = 0;
    while k < total
        invariant
            r.wf(),
            0 <= k <= total <= 256,
            total == win * win,
            1 <= win <= 16,
            win == window(step as int),
            sub == step as int / win as int,
            1 <= step,
            sx + step <= i64::MAX,
            sy + step <= i64::MAX,
            (sum as int, n as int) == seen(
                *r,
                sx as int,
                sy as int,
                win as int,
                sub as int,
                k as int,
            ),
            n <= k,
            sum <= 255 * n,
        decreases total - k,
    {
        proof {
            lemma_window_fits(k as int, win as int, sub as int, step as int);
        }
        let dx: i64 = k % win;
        let dy: i64 = k / win;
        match r.cell_at(sx + dx * sub, sy + dy * sub) {
            Some(v) => {
                sum += v as u32;
                n += 1;
            },
            None => {},
        }
        k += 1;
    }
    if n > 0 {
        proof {
            assert(sum / n <= 255) by (nonlinear_arith)
                requires
                    sum <= 255 * n,
                    n > 0,
            ;
        }
        Some((sum / n) as u8)
    } else {
        None
    }
}

proof fn lemma_span(t: int, p: int, step: int)
    requires
        0 <= p < 256,
        1 <= step,
        -0x4000_0000_0000_0000 <= (t * 256) * step,
        (t * 256 + 256) * step <= 0x4000_0000_0000_0000,
    ensures
        -0x4000_0000_0000_0000 <= (t * 256 + p) * step,
        (t * 256 + p) * step + step <= 0x4000_0000_0000_0000,
        -0x4000_0000_0000_0000 <= t * 256 + p <= 0x4000_0000_0000_0000,
        -0x4000_0000_0000_0000 <= t * 256,
{
    assert((t * 256) * step <= (t * 256 + p) * step) by (nonlinear_arith)
        requires
            0 <= p,
            1 <= step,
    ;
    assert((t * 256 + p) * step + step <= (t * 256 + 256) * step) by (nonlinear_arith)
        requires
            p < 256,
            1 <= step,
    ;
    let u = t * 256 + p;
    assert(-0x4000_0000_0000_0000 <= u) by (nonlinear_arith)
        requires
            -0x4000_0000_0000_0000 <= u * step,
            1 <= step,
    ;
    assert(u <= 0x4000_0000_0000_0000) by (nonlinear_arith)
        requires
            u * step <= 0x4000_0000_0000_0000,
            1 <= step,
    ;
    let q = t * 256;
    assert(-0x4000_0000_0000_0000 <= q) by (nonlinear_arith)
        requires
            -0x4000_0000_0000_0000 <= q * step,
            1 <= step,
    ;
}

fn pixel_at(r: &Raster, z: u32, tx: i64, ty: i64, px: i64, py: i64) -> (v: Option<u8>)
    requires
        r.wf(),
        tile_in_reach(*r, z, tx as int, ty as int),
        0 <= px < 256,
        0 <= py < 256,
    ensures
        v == pixel(*r, z, tx as int, ty as int, px as int, py as int),
{
    if z <= r.base_zoom {
        let step = two_to(r.base_zoom - z);
        proof {
            lemma_span(tx as int, px as int, step as int);
            lemma_span(ty as int, py as int, step as int);
        }
        let sx: i64 = (tx * 256 + px) * step - r.x0;
        let sy: i64 = (ty * 256 + py) * step - r.y0;
        mean_of(r, sx, sy, step)
    } else {
        let mag = two_to(z - r.base_zoom);
        proof {
            lemma_span(tx as int, px as int, 1);
            lemma_span(ty as int, py as int, 1);
        }
        let gx = quotient(tx * 256 + px, mag);
        let gy = quotient(ty * 256 + py, mag);
        proof {
            grid::lemma_quotient_bounds(tx * 256 + px, mag as int);
            grid::lemma_quotient_bounds(ty * 256 + py, mag as int);
        }
        r.cell_at(gx - r.x0, gy - r.y0)
    }
}

impl Raster {
    /// Cut one tile, averaging down or replicating up from the raster. RGBA,
    /// transparent where nothing was painted; none where nothing was painted on
    /// the whole tile.
    pub fn tile(&self, z: u32, tx: i64, ty: i64) -> (r: Option<Vec<u8>>)
        requires
            self.wf(),
            tile_in_reach(*self, z, tx as int, ty as int),
        ensures
            r is Some <==> any_painted(*self, z, tx as int, ty as int, 65536),
            r matches Some(b) ==> tile_pixels(b@, *self, z, tx as int, ty as int, 65536),
    {
        let mut out: Vec<u8> = Vec::new();
        let mut any = false;
        let mut p: i64 = 0;
        while p < 65536
            invariant
                self.wf(),
                tile_in_reach(*self, z, tx as int, ty as int),
                0 <= p <= 65536,
                tile_pixels(out@, *self, z, tx as int, ty as int, p as int),
                any == any_painted(*self, z, tx as int, ty as int, p as int),
            decreases 65536 - p,
        {
            let v = pixel_at(self, z, tx, ty, p % 256, p / 256);
            let ghost was = out@;
            match v {
                Some(g) => {
                    out.push(g);
                    out.push(g);
                    out.push(g);
                    out.push(255);
                    any = true;
                },
                None => {
                    out.push(0);
                    out.push(0);
                    out.push(0);
                    out.push(0);
                },
            }
            proof {
                let ghost tx = tx as int;
                let ghost ty = ty as int;
                assert forall|q: int| 0 <= q < p + 1 implies pixel_bytes(out@, q) == grey_pixel(
                    #[trigger] pixel(*self, z, tx, ty, q % 256, q / 256),
                ) by {
                    if q < p {
                        assert(pixel_bytes(out@, q) =~= pixel_bytes(was, q));
                    } else {
                        assert(pixel_bytes(out@, q) =~= grey_pixel(v));
                    }
                }
                if any_painted(*self, z, tx, ty, p as int) {
                    let q = choose|q: int|
                        0 <= q < p && #[trigger] pixel(*self, z, tx, ty, q % 256, q / 256) is Some;
                    assert(0 <= q < p + 1 && pixel(*self, z, tx, ty, q % 256, q / 256) is Some);
                }
                assert(v == pixel(*self, z, tx, ty, p as int % 256, p as int / 256));
            }
            p += 1;
        }
        if any {
            Some(out)
        } else {
            None
        }
    }
}

/// At its own zoom a raster is shown as it is, cell by cell.
pub proof fn law_own_zoom(r: Raster, tx: int, ty: int, px: int, py: int)
    ensures
        pixel(r, r.base_zoom, tx, ty, px, py) == r.cell(
            tx * 256 + px - r.x0,
            ty * 256 + py - r.y0,
        ),
{
    let step = grid::power((r.base_zoom - r.base_zoom) as nat);
    assert(step == 1);
    let u = tx * 256 + px;
    let v = ty * 256 + py;
    assert(u * step == u && v * step == v) by (nonlinear_arith)
        requires
            step == 1,
    ;
    let sx = u - r.x0;
    let sy = v - r.y0;
    reveal_with_fuel(seen, 2);
    assert(seen(r, sx, sy, 1, 1, 0) == (0int, 0int));
    assert(0int % 1 * 1 == 0 && 0int / 1 * 1 == 0);
    assert(window(step) == 1 && step / window(step) == 1 && window(step) * window(step) == 1);
    match r.cell(sx, sy) {
        Some(v) => {
            assert(seen(r, sx, sy, 1, 1, 1) == (v as int, 1int));
            assert(v as int / 1 == v);
        },
        None => {
            assert(seen(r, sx, sy, 1, 1, 1) == (0int, 0int));
        },
    }
}

/// Zooming in past the raster only makes its cells larger: what a tile shows in
/// a pixel, a tile one zoom further in shows in the four pixels it splits into.
pub proof fn law_zooming_in_replicates(
    r: Raster,
    z: u32,
    tx: int,
    ty: int,
    px: int,
    py: int,
    tx2: int,
    ty2: int,
    px2: int,
    py2: int,
)
    requires
        z >= r.base_zoom,
        z < u32::MAX,
        (tx2 * 256 + px2) / 2 == tx * 256 + px,
        (ty2 * 256 + py2) / 2 == ty * 256 + py,
    ensures
        pixel(r, (z + 1) as u32, tx2, ty2, px2, py2) == pixel(r, z, tx, ty, px, py),
{
    let d = (z - r.base_zoom) as nat;
    grid::lemma_power_bounds(d, d);
    assert(grid::power(d + 1) == 2 * grid::power(d));
    let a = tx2 * 256 + px2;
    let b = ty2 * 256 + py2;
    grid::lemma_halves(a, grid::power(d));
    grid::lemma_halves(b, grid::power(d));
    if d == 0 {
        law_own_zoom(r, tx, ty, px, py);
        assert(grid::power(1) == 2);
    }
}

/// Averaging makes nothing brighter than the brightest cell under it, and shows
/// nothing where nothing is painted.
pub proof fn law_mean_is_among(r: Raster, sx: int, sy: int, win: int, sub: int, k: int, top: int)
    requires
        0 <= k,
        forall|x: int, y: int| (#[trigger] r.cell(x, y)) matches Some(v) ==> v <= top,
    ensures
        seen(r, sx, sy, win, sub, k).1 > 0 ==> seen(r, sx, sy, win, sub, k).0 / seen(
            r,
            sx,
            sy,
            win,
            sub,
            k,
        ).1 <= top,
        (forall|x: int, y: int| (#[trigger] r.cell(x, y)) is None) ==> seen(
            r,
            sx,
            sy,
            win,
            sub,
            k,
        ).1 == 0,
{
    lemma_sum_at_most(r, sx, sy, win, sub, k, top);
    let (sum, n) = seen(r, sx, sy, win, sub, k);
    if n > 0 {
        assert(sum / n <= top) by (nonlinear_arith)
            requires
                sum <= top * n,
                n > 0,
        ;
    }
    lemma_nothing_seen(r, sx, sy, win, sub, k);
}

proof fn lemma_sum_at_most(r: Raster, sx: int, sy: int, win: int, sub: int, k: int, top: int)
    requires
        0 <= k,
        forall|x: int, y: int| (#[trigger] r.cell(x, y)) matches Some(v) ==> v <= top,
    ensures
        seen(r, sx, sy, win, sub, k).0 <= top * seen(r, sx, sy, win, sub, k).1,
    decreases k,
{
    if k > 0 {
        lemma_sum_at_most(r, sx, sy, win, sub, k - 1, top);
        let (s, n) = seen(r, sx, sy, win, sub, k - 1);
        assert(top * (n + 1) == top * n + top) by (nonlinear_arith);
        match r.cell(sx + (k - 1) % win * sub, sy + (k - 1) / win * sub) {
            Some(v) => {
                assert(v <= top);
            },
            None => {},
        }
    } else {
        assert(top * 0 == 0) by (nonlinear_arith);
    }
}

proof fn lemma_nothing_seen(r: Raster, sx: int, sy: int, win: int, sub: int, k: int)
    requires
        0 <= k,
    ensures
        (forall|x: int, y: int| (#[trigger] r.cell(x, y)) is None) ==> seen(
            r,
            sx,
            sy,
            win,
            sub,
            k,
        ).1 == 0,
    decreases k,
{
    if k > 0 {
        lemma_nothing_seen(r, sx, sy, win, sub, k - 1);
    }
}

// ---- building ------------------------------------------------------------------

/// How large a raster is from one corner pixel to the other, both included.
pub open spec fn extent(first: i64, last: i64) -> int {
    last - first + 1
}

/// How large a raster would be, and whether it can be built.
pub fn raster_size(x0: i64, x1: i64, y0: i64, y1: i64) -> (r: Result<(u64, u64), (u64, u64)>)
    requires
        x0 <= x1,
        y0 <= y1,
        extent(x0, x1) <= i64::MAX,
        extent(y0, y1) <= i64::MAX,
    ensures
        match r {
            Ok((w, h)) => w == extent(x0, x1) && h == extent(y0, y1) && w * h <= MAX_CELLS,
            Err((w, h)) => w == extent(x0, x1) && h == extent(y0, y1) && w * h > MAX_CELLS,
        },
{
    let w: u64 = (x1 as i128 - x0 as i128 + 1) as u64;
    let h: u64 = (y1 as i128 - y0 as i128 + 1) as u64;
    proof {
        assert(w * h <= 0xffff_ffff_ffff_ffff * 0xffff_ffff_ffff_ffff) by (nonlinear_arith)
            requires
                0 <= w <= 0xffff_ffff_ffff_ffff,
                0 <= h <= 0xffff_ffff_ffff_ffff,
        ;
    }
    if w as u128 * h as u128 > MAX_CELLS as u128 {
        Err((w, h))
    } else {
        Ok((w, h))
    }
}

/// The planes of a raster from what each cell came out at, if anything was
/// painted there, and how often it was painted, counted up to 255.
pub fn planes(cells: &Vec<Option<u8>>, hits: &Vec<u16>) -> (r: (Vec<u8>, Vec<u8>))
    requires
        cells@.len() == hits@.len(),
    ensures
        r.0@ == cells@.map_values(
            |c: Option<u8>|
                match c {
                    Some(v) => v,
                    None => 0u8,
                },
        ),
        r.1@.len() == cells@.len(),
        forall|i: int|
            0 <= i < cells@.len() ==> #[trigger] r.1@[i] == (if cells@[i] is None {
                0
            } else if hits@[i] < 255 {
                hits@[i] as int
            } else {
                255
            }),
{
    let mut value: Vec<u8> = Vec::new();
    let mut cover: Vec<u8> = Vec::new();
    let mut i: usize = 0;
    while i < cells.len()
        invariant
            i <= cells@.len(),
            cells@.len() == hits@.len(),
            value@.len() == i,
            cover@.len() == i,
            forall|k: int|
                0 <= k < i ==> #[trigger] value@[k] == (match cells@[k] {
                    Some(v) => v,
                    None => 0u8,
                }),
            forall|k: int|
                0 <= k < i ==> #[trigger] cover@[k] == (if cells@[k] is None {
                    0
                } else if hits@[k] < 255 {
                    hits@[k] as int
                } else {
                    255
                }),
        decreases cells.len() - i,
    {
        match cells[i] {
            Some(v) => {
                value.push(v);
                cover.push(
                    if hits[i] < 255 {
                        hits[i] as u8
                    } else {
                        255
                    },
                );
            },
            None => {
                value.push(0);
                cover.push(0);
            },
        }
        i += 1;
    }
    proof {
        assert(value@ =~= cells@.map_values(
            |c: Option<u8>|
                match c {
                    Some(v) => v,
                    None => 0u8,
                },
        ));
    }
    (value, cover)
}

// ---- files ---------------------------------------------------------------------

/// A mosaic file, given its header as text.
pub fn encode(header: &[u8], value: &Vec<u8>, cover: &Vec<u8>) -> (b: Vec<u8>)
    requires
        header.len() <= u32::MAX,
    ensures
        b@ == frame::framed(MAGIC@, header@, value@ + cover@),
{
    let mut payload: Vec<u8> = Vec::new();
    crate::bytes::push_bytes(&mut payload, value.as_slice());
    crate::bytes::push_bytes(&mut payload, cover.as_slice());
    proof {
        assert(payload@ =~= value@ + cover@);
    }
    frame::frame(MAGIC.as_slice(), header, payload.as_slice())
}

/// Find where the header of a mosaic file ends. It starts at byte 12, and the
/// planes follow it.
pub fn find_header(b: &[u8]) -> (r: Result<usize, FrameError>)
    ensures
        match frame::header_end(b@, MAGIC@, MAGIC_LEGACY@) {
            Ok(end) => r matches Ok(e) && e == end && 12 <= e <= b@.len(),
            Err(x) => r matches Err(e) && e == x,
        },
{
    unframe(b, MAGIC.as_slice(), MAGIC_LEGACY.as_slice())
}

/// The two planes that follow a header, or none where the file ends before
/// they do.
pub open spec fn planes_at(b: Seq<u8>, at: int, cells: int) -> Option<(Seq<u8>, Seq<u8>)> {
    if at + 2 * cells > b.len() {
        None
    } else {
        Some((b.subrange(at, at + cells), b.subrange(at + cells, at + 2 * cells)))
    }
}

/// Read the two planes that follow a header.
pub fn read_planes(b: &[u8], at: usize, width: usize, height: usize) -> (r: Option<
    (Vec<u8>, Vec<u8>),
>)
    requires
        at <= b@.len(),
    ensures
        match planes_at(b@, at as int, width * height) {
            None => r is None,
            Some((v, c)) => r matches Some(x) && x.0@ == v && x.1@ == c,
        },
{
    let len: u128 = b.len() as u128;
    proof {
        assert(width * height <= 0xffff_ffff_ffff_ffff * 0xffff_ffff_ffff_ffff) by (nonlinear_arith)
            requires
                0 <= width <= 0xffff_ffff_ffff_ffff,
                0 <= height <= 0xffff_ffff_ffff_ffff,
        ;
        assert(0 <= width * height) by (nonlinear_arith)
            requires
                0 <= width,
                0 <= height,
        ;
    }
    let cells: u128 = width as u128 * height as u128;
    if cells > len || 2 * cells > len - at as u128 {
        return None;
    }
    let n: usize = cells as usize;
    Some(
        (
            crate::bytes::slice_to_vec(b, at, at + n),
            crate::bytes::slice_to_vec(b, at + n, at + n + n),
        ),
    )
}

/// A mosaic file that was written reads back with its header and its planes
/// just as they were.
pub proof fn law_mosaic_round_trip(header: Seq<u8>, value: Seq<u8>, cover: Seq<u8>)
    requires
        header.len() <= u32::MAX,
        value.len() == cover.len(),
    ensures
        ({
            let b = frame::framed(MAGIC@, header, value + cover);
            let end = 12int + header.len();
            &&& frame::header_end(b, MAGIC@, MAGIC_LEGACY@) == Ok::<int, FrameError>(end)
            &&& b.subrange(12, end) == header
            &&& planes_at(b, end, value.len() as int) == Some((value, cover))
        }),
{
    frame::law_frame_round_trip(MAGIC@, MAGIC_LEGACY@, header, value + cover);
    let b = frame::framed(MAGIC@, header, value + cover);
    let end = 12int + header.len();
    let n = value.len() as int;
    assert(b.skip(end) =~= b.subrange(end, b.len() as int));
    assert(b.len() == end + 2 * n);
    assert(b.subrange(end, end + n) =~= b.skip(end).subrange(0, n));
    assert((value + cover).subrange(0, n) =~= value);
    assert(b.subrange(end + n, end + 2 * n) =~= b.skip(end).subrange(n, 2 * n));
    assert((value + cover).subrange(n, 2 * n) =~= cover);
}

/// The cells of a raster stand row by row, and one is painted where it was
/// covered.
pub proof fn law_cells_stand_in_rows(r: Raster, k: int)
    requires
        r.wf(),
        0 <= k < r.value@.len(),
    ensures
        r.width > 0,
        r.cell(k % (r.width as int), k / (r.width as int)) == (if r.cover@[k] == 0 {
            None
        } else {
            Some(r.value@[k])
        }),
        r.cell(-1, k / (r.width as int)) is None,
        r.cell(r.width as int, k / (r.width as int)) is None,
        r.cell(k % (r.width as int), -1) is None,
        r.cell(k % (r.width as int), r.height as int) is None,
{
    let (w, h) = (r.width as int, r.height as int);
    if w == 0 {
        assert(w * h == 0) by (nonlinear_arith)
            requires
                w == 0,
        ;
    }
    let (x, y) = (k % w, k / w);
    assert(k == w * y + x && 0 <= x < w) by (nonlinear_arith)
        requires
            w > 0,
            x == k % w,
            y == k / w,
    ;
    assert(0 <= y < h) by (nonlinear_arith)
        requires
            k == w * y + x,
            0 <= x < w,
            0 <= k < w * h,
    ;
    assert(y * w == w * y) by (nonlinear_arith);
}

proof fn lemma_all_alike(r: Raster, sx: int, sy: int, step: int, k: int, v: Option<u8>)
    requires
        1 <= step,
        0 <= k <= window(step) * window(step),
        forall|x: int, y: int|
            sx <= x < sx + step && sy <= y < sy + step ==> #[trigger] r.cell(x, y) == v,
    ensures
        seen(r, sx, sy, window(step), step / window(step), k) == (match v {
            Some(v) => (v * k, k),
            None => (0, 0),
        }),
    decreases k,
{
    let win = window(step);
    let sub = step / win;
    if k > 0 {
        lemma_all_alike(r, sx, sy, step, k - 1, v);
        lemma_window_fits(k - 1, win, sub, step);
        let (x, y) = (sx + (k - 1) % win * sub, sy + (k - 1) / win * sub);
        assert(r.cell(x, y) == v);
        match v {
            Some(v) => {
                assert(v * (k - 1) + v == v * k) by (nonlinear_arith);
            },
            None => {},
        }
    } else {
        match v {
            Some(v) => {
                assert(v * k == 0) by (nonlinear_arith)
                    requires
                        k == 0,
                ;
            },
            None => {},
        }
    }
}

/// Zoomed out, a pixel shows the cells it stands for and no other: where all of
/// them hold the same, so does the pixel, and where none is painted, nothing is
/// shown.
pub proof fn law_pixel_shows_its_block(
    r: Raster,
    z: u32,
    tx: int,
    ty: int,
    px: int,
    py: int,
    v: Option<u8>,
)
    requires
        z <= r.base_zoom,
        ({
            let step = grid::power((r.base_zoom - z) as nat);
            let (gx, gy) = (step * (256 * tx + px), step * (256 * ty + py));
            forall|x: int, y: int|
                gx <= r.x0 + x < gx + step && gy <= r.y0 + y < gy + step ==> #[trigger] r.cell(x, y)
                    == v
        }),
    ensures
        pixel(r, z, tx, ty, px, py) == v,
{
    let d = (r.base_zoom - z) as nat;
    let step = grid::power(d);
    grid::lemma_power_bounds(d, d);
    let (u, w) = (tx * 256 + px, ty * 256 + py);
    assert(u * step == step * (256 * tx + px)) by (nonlinear_arith)
        requires
            u == tx * 256 + px,
    ;
    assert(w * step == step * (256 * ty + py)) by (nonlinear_arith)
        requires
            w == ty * 256 + py,
    ;
    let (sx, sy) = (u * step - r.x0, w * step - r.y0);
    let win = window(step);
    assert(win * win >= 1) by (nonlinear_arith)
        requires
            win >= 1,
    ;
    lemma_all_alike(r, sx, sy, step, win * win, v);
    match v {
        Some(v) => {
            let n = win * win;
            assert((v * n) / n == v) by (nonlinear_arith)
                requires
                    n >= 1,
                    v >= 0,
            ;
        },
        None => {},
    }
}

/// One zoom further out, a pixel is the mean of the four cells that it stands for,
/// of those that are painted.
pub proof fn law_one_zoom_out(r: Raster, z: u32, tx: int, ty: int, px: int, py: int)
    requires
        z + 1 == r.base_zoom,
    ensures
        ({
            let (x, y) = (2 * (256 * tx + px) - r.x0, 2 * (256 * ty + py) - r.y0);
            let cells = seq![
                r.cell(x, y),
                r.cell(x + 1, y),
                r.cell(x, y + 1),
                r.cell(x + 1, y + 1),
            ];
            let value = |c: Option<u8>|
                match c {
                    Some(v) => v as int,
                    None => 0,
                };
            let there = |c: Option<u8>|
                if c is Some {
                    1int
                } else {
                    0
                };
            let sum = value(cells[0]) + value(cells[1]) + value(cells[2]) + value(cells[3]);
            let n = there(cells[0]) + there(cells[1]) + there(cells[2]) + there(cells[3]);
            &&& n == 0 ==> pixel(r, z, tx, ty, px, py) is None
            &&& n > 0 ==> (pixel(r, z, tx, ty, px, py) matches Some(v) && v * n <= sum < v * n + n)
        }),
{
    let step = grid::power((r.base_zoom - z) as nat);
    assert(step == 2) by {
        reveal_with_fuel(grid::power, 2);
    }
    let (u, w) = (tx * 256 + px, ty * 256 + py);
    assert(u * step == 2 * u && w * step == 2 * w) by (nonlinear_arith)
        requires
            step == 2,
    ;
    let (sx, sy) = (u * step - r.x0, w * step - r.y0);
    let win = window(step);
    assert(win == 2);
    assert(win * win == 4 && step / win == 1) by (nonlinear_arith)
        requires
            win == 2,
            step == 2,
    ;
    reveal_with_fuel(seen, 5);
    assert(window(2) == 2);
    assert(0int % 2 == 0 && 1int % 2 == 1 && 2int % 2 == 0 && 3int % 2 == 1);
    assert(0int / 2 == 0 && 1int / 2 == 0 && 2int / 2 == 1 && 3int / 2 == 1);
    let (sum, n) = seen(r, sx, sy, 2, 1, 4);
    lemma_seen_bounds(r, sx, sy, 2, 1, 4);
    if n > 0 {
        let q = sum / n;
        assert(q * n <= sum < q * n + n && 0 <= q <= 255) by (nonlinear_arith)
            requires
                q == sum / n,
                n > 0,
                0 <= sum <= 255 * n,
        ;
        assert(pixel(r, z, tx, ty, px, py) == Some(q as u8));
    }
    assert(seen(r, sx, sy, 2, 1, 0) == (0int, 0int));
}

/// A painted pixel is grey and solid, and one that is not is clear.
pub proof fn law_grey_pixel(v: u8)
    ensures
        grey_pixel(Some(v)) == seq![v, v, v, 255u8],
        forall|i: int| 0 <= i < 4 ==> #[trigger] grey_pixel(None)[i] == 0,
        grey_pixel(None).len() == 4,
{
}

} // verus!
