//! Background layers: an imported grid resampled onto Web Mercator, either one
//! measured value per cell or straight colour.

use vstd::prelude::*;

use crate::bytes;
use crate::bytes::push_le2;
use crate::frame;
use crate::frame::{unframe, FrameError};
use crate::grid;
use crate::grid::{cell_index, quotient, two_to};
use crate::text;
use crate::text::{copy, push_hex, same};

pub mod paint;
pub mod preview;

verus! {

pub const MAGIC: [u8; 8] = [83, 87, 84, 76, 89, 82, 48, 49];

/// How a file said what it was before the application was renamed. Only ever
/// read.
pub const MAGIC_LEGACY: [u8; 8] = [87, 80, 65, 76, 89, 82, 48, 49];

/// Pixels along each side of a tile.
pub const TILE: usize = 256;

/// Reserved value meaning "nothing here".
pub const NODATA: u16 = 65535;

/// Cells in the resampled raster before the import is refused.
pub const MAX_CELLS: usize = 268_435_456;

// ---- colour --------------------------------------------------------------------

/// The ramps offered for a single-band layer.
#[derive(Clone, Copy, Debug, PartialEq, Eq, Structural)]
pub enum Ramp {
    Grey,
    Depth,
    Terrain,
    Viridis,
    Magma,
    Turbo,
    Ice,
    Amber,
}

impl Default for Ramp {
    fn default() -> (r: Ramp)
        ensures
            r == Ramp::Depth,
    {
        Ramp::Depth
    }
}

/// A ramp's name.
pub open spec fn ramp_name(r: Ramp) -> Seq<char> {
    match r {
        Ramp::Grey => "grey"@,
        Ramp::Depth => "depth"@,
        Ramp::Terrain => "terrain"@,
        Ramp::Viridis => "viridis"@,
        Ramp::Magma => "magma"@,
        Ramp::Turbo => "turbo"@,
        Ramp::Ice => "ice"@,
        Ramp::Amber => "amber"@,
    }
}

/// No two ramps have the same name.
pub proof fn law_ramp_names(a: Ramp, b: Ramp)
    requires
        ramp_name(a) == ramp_name(b),
    ensures
        a == b,
{
    reveal_strlit("grey");
    reveal_strlit("depth");
    reveal_strlit("terrain");
    reveal_strlit("viridis");
    reveal_strlit("magma");
    reveal_strlit("turbo");
    reveal_strlit("ice");
    reveal_strlit("amber");
    let x = ramp_name(a);
    let y = ramp_name(b);
    assert(x.len() == y.len());
    assert(x[0] == y[0]);
    assert(x[1] == y[1]);
}

impl Ramp {
    /// Every ramp, in the order they are offered.
    pub fn all() -> (v: Vec<Ramp>)
        ensures
            v@ == seq![
                Ramp::Grey,
                Ramp::Depth,
                Ramp::Terrain,
                Ramp::Viridis,
                Ramp::Magma,
                Ramp::Turbo,
                Ramp::Ice,
                Ramp::Amber,
            ],
    {
        let v = vec![
            Ramp::Grey,
            Ramp::Depth,
            Ramp::Terrain,
            Ramp::Viridis,
            Ramp::Magma,
            Ramp::Turbo,
            Ramp::Ice,
            Ramp::Amber,
        ];
        proof {
            assert(v@ =~= seq![
                Ramp::Grey,
                Ramp::Depth,
                Ramp::Terrain,
                Ramp::Viridis,
                Ramp::Magma,
                Ramp::Turbo,
                Ramp::Ice,
                Ramp::Amber,
            ]);
        }
        v
    }

    pub fn name(&self) -> (s: &'static str)
        ensures
            s@ == ramp_name(*self),
    {
        match self {
            Ramp::Grey => "grey",
            Ramp::Depth => "depth",
            Ramp::Terrain => "terrain",
            Ramp::Viridis => "viridis",
            Ramp::Magma => "magma",
            Ramp::Turbo => "turbo",
            Ramp::Ice => "ice",
            Ramp::Amber => "amber",
        }
    }

    /// The ramp of the given name.
    pub fn parse(s: &str) -> (r: Option<Ramp>)
        ensures
            r matches Some(x) ==> ramp_name(x) == s@,
            r is None ==> forall|x: Ramp| ramp_name(x) != s@,
    {
        if same(s, "grey") {
            Some(Ramp::Grey)
        } else if same(s, "depth") {
            Some(Ramp::Depth)
        } else if same(s, "terrain") {
            Some(Ramp::Terrain)
        } else if same(s, "viridis") {
            Some(Ramp::Viridis)
        } else if same(s, "magma") {
            Some(Ramp::Magma)
        } else if same(s, "turbo") {
            Some(Ramp::Turbo)
        } else if same(s, "ice") {
            Some(Ramp::Ice)
        } else if same(s, "amber") {
            Some(Ramp::Amber)
        } else {
            None
        }
    }

    /// The colours that a ramp runs through: how far along each stands, in
    /// hundredths, and its red, green and blue.
    pub open spec fn colours(self) -> Seq<(u8, u8, u8, u8)> {
        match self {
            Ramp::Grey => seq![(0u8, 16u8, 16u8, 18u8), (100u8, 244u8, 246u8, 248u8)],
            Ramp::Depth => seq![
                (0u8, 8u8, 20u8, 60u8),
                (20u8, 12u8, 56u8, 120u8),
                (40u8, 22u8, 104u8, 168u8),
                (60u8, 64u8, 158u8, 190u8),
                (80u8, 140u8, 205u8, 205u8),
                (100u8, 222u8, 240u8, 226u8),
            ],
            Ramp::Terrain => seq![
                (0u8, 22u8, 60u8, 100u8),
                (35u8, 70u8, 140u8, 170u8),
                (50u8, 214u8, 214u8, 170u8),
                (65u8, 120u8, 160u8, 90u8),
                (85u8, 150u8, 120u8, 80u8),
                (100u8, 250u8, 250u8, 250u8),
            ],
            Ramp::Viridis => seq![
                (0u8, 68u8, 1u8, 84u8),
                (25u8, 59u8, 82u8, 139u8),
                (50u8, 33u8, 145u8, 140u8),
                (75u8, 94u8, 201u8, 98u8),
                (100u8, 253u8, 231u8, 37u8),
            ],
            Ramp::Magma => seq![
                (0u8, 0u8, 0u8, 4u8),
                (25u8, 81u8, 18u8, 124u8),
                (50u8, 183u8, 55u8, 121u8),
                (75u8, 252u8, 137u8, 97u8),
                (100u8, 252u8, 253u8, 191u8),
            ],
            Ramp::Turbo => seq![
                (0u8, 48u8, 18u8, 59u8),
                (20u8, 40u8, 130u8, 220u8),
                (40u8, 50u8, 200u8, 160u8),
                (60u8, 180u8, 222u8, 44u8),
                (80u8, 250u8, 140u8, 40u8),
                (100u8, 122u8, 4u8, 3u8),
            ],
            Ramp::Ice => seq![
                (0u8, 8u8, 12u8, 30u8),
                (50u8, 58u8, 118u8, 158u8),
                (100u8, 232u8, 246u8, 252u8),
            ],
            Ramp::Amber => seq![
                (0u8, 12u8, 8u8, 4u8),
                (50u8, 168u8, 96u8, 26u8),
                (100u8, 255u8, 236u8, 190u8),
            ],
        }
    }

    /// The colours that a ramp runs through.
    pub fn stops(&self) -> (v: Vec<(u8, u8, u8, u8)>)
        ensures
            v@ == self.colours(),
    {
        let v: Vec<(u8, u8, u8, u8)> = match self {
            Ramp::Grey => vec![(0, 16, 16, 18), (100, 244, 246, 248)],
            Ramp::Depth => vec![
                (0, 8, 20, 60),
                (20, 12, 56, 120),
                (40, 22, 104, 168),
                (60, 64, 158, 190),
                (80, 140, 205, 205),
                (100, 222, 240, 226),
            ],
            Ramp::Terrain => vec![
                (0, 22, 60, 100),
                (35, 70, 140, 170),
                (50, 214, 214, 170),
                (65, 120, 160, 90),
                (85, 150, 120, 80),
                (100, 250, 250, 250),
            ],
            Ramp::Viridis => vec![
                (0, 68, 1, 84),
                (25, 59, 82, 139),
                (50, 33, 145, 140),
                (75, 94, 201, 98),
                (100, 253, 231, 37),
            ],
            Ramp::Magma => vec![
                (0, 0, 0, 4),
                (25, 81, 18, 124),
                (50, 183, 55, 121),
                (75, 252, 137, 97),
                (100, 252, 253, 191),
            ],
            Ramp::Turbo => vec![
                (0, 48, 18, 59),
                (20, 40, 130, 220),
                (40, 50, 200, 160),
                (60, 180, 222, 44),
                (80, 250, 140, 40),
                (100, 122, 4, 3),
            ],
            Ramp::Ice => vec![(0, 8, 12, 30), (50, 58, 118, 158), (100, 232, 246, 252)],
            Ramp::Amber => vec![(0, 12, 8, 4), (50, 168, 96, 26), (100, 255, 236, 190)],
        };
        proof {
            assert(v@ =~= self.colours());
        }
        v
    }
}

/// A ramp runs from its start to its end, onward at every stop.
pub proof fn law_ramps_ascend(r: Ramp)
    ensures
        r.colours().len() >= 2,
        r.colours()[0].0 == 0,
        r.colours().last().0 == 100,
        forall|i: int, j: int|
            0 <= i < j < r.colours().len() ==> (#[trigger] r.colours()[i]).0 < (
            #[trigger] r.colours()[j]).0,
{
}

// ---- the resampled raster ------------------------------------------------------

#[derive(Clone, Copy, Debug, PartialEq, Eq, Structural)]
pub enum PlaneKind {
    /// One measured value per cell, quantised to 16 bits.
    Value,
    /// Straight colour, four bytes per cell.
    Rgba,
}

/// Where the cells of a layer stand, on the ground and in its file.
#[derive(Clone, Copy, Debug, PartialEq, Eq, Structural)]
pub struct LayerGrid {
    pub kind: PlaneKind,
    /// Origin in Web Mercator pixels at `base_zoom`.
    pub x0: i64,
    pub y0: i64,
    pub width: usize,
    pub height: usize,
    pub base_zoom: u32,
    /// Where the plane starts in the file.
    pub off: usize,
}

/// The 16-bit code of a cell, which is nothing past the end of the file.
pub open spec fn code_at(map: Seq<u8>, off: int, i: int) -> u16 {
    if off + 2 * i + 2 <= map.len() {
        bytes::u16_at(map, off + 2 * i, true) as u16
    } else {
        NODATA
    }
}

/// The colour of a cell, which is clear past the end of the file.
pub open spec fn colour_at(map: Seq<u8>, off: int, i: int) -> Seq<u8> {
    if off + 4 * i + 4 <= map.len() {
        map.subrange(off + 4 * i, off + 4 * i + 4)
    } else {
        seq![0u8, 0, 0, 0]
    }
}

/// How many cells a tile pixel looks at along each side: all of them, but four
/// at the most.
pub open spec fn cells_across(step: int) -> int {
    if step < 4 {
        step
    } else {
        4
    }
}

/// How a tile pixel maps onto cells along one axis: the first cell, how many to
/// walk and how far apart.
pub open spec fn reach(base_zoom: u32, z: u32, t: int, p: int, origin: int) -> (int, int, int) {
    if z <= base_zoom {
        let step = grid::power((base_zoom - z) as nat);
        let n = cells_across(step);
        ((t * 256 + p) * step - origin, n, step / n)
    } else {
        ((t * 256 + p) / grid::power((z - base_zoom) as nat) - origin, 1, 1)
    }
}

/// Whether the pixels of a tile, and those around it, can be numbered at the
/// layer's zoom.
pub open spec fn in_reach(base_zoom: u32, z: u32, t: int, origin: int) -> bool {
    &&& -54 <= base_zoom - z <= 54
    &&& -0x4000_0000_0000_0000 < origin < 0x4000_0000_0000_0000
    &&& ({
        let step = if z <= base_zoom {
            grid::power((base_zoom - z) as nat)
        } else {
            1
        };
        &&& -0x4000_0000_0000_0000 <= (t * 256 - 1) * step
        &&& (t * 256 + 257) * step <= 0x4000_0000_0000_0000
    })
}

/// Whether a tile's place along one axis is within reach of a raster's origin.
pub fn reaches(base_zoom: u32, z: u32, t: i64, origin: i64) -> (r: bool)
    ensures
        r == in_reach(base_zoom, z, t as int, origin as int),
{
    let apart: i64 = base_zoom as i64 - z as i64;
    if apart < -54 || apart > 54 {
        return false;
    }
    if origin <= -0x4000_0000_0000_0000 || origin >= 0x4000_0000_0000_0000 {
        return false;
    }
    let step: i64 = if z <= base_zoom {
        two_to(base_zoom - z)
    } else {
        1
    };
    let first: i128 = t as i128 * 256 - 1;
    let last: i128 = t as i128 * 256 + 257;
    proof {
        assert(-0x100_0000_0000_0000_0000 * 0x40_0000_0000_0000 <= first * step
            <= 0x100_0000_0000_0000_0000 * 0x40_0000_0000_0000
            && -0x100_0000_0000_0000_0000 * 0x40_0000_0000_0000 <= last * step
            <= 0x100_0000_0000_0000_0000 * 0x40_0000_0000_0000) by (nonlinear_arith)
            requires
                -0x100_0000_0000_0000_0000 <= first <= 0x100_0000_0000_0000_0000,
                -0x100_0000_0000_0000_0000 <= last <= 0x100_0000_0000_0000_0000,
                1 <= step <= 0x40_0000_0000_0000,
        ;
    }
    -0x4000_0000_0000_0000 <= first * step as i128 && last * step as i128 <= 0x4000_0000_0000_0000
}

proof fn lemma_reach(t: int, p: int, step: int)
    requires
        -1 <= p < 257,
        1 <= step,
        -0x4000_0000_0000_0000 <= (t * 256 - 1) * step,
        (t * 256 + 257) * step <= 0x4000_0000_0000_0000,
    ensures
        -0x4000_0000_0000_0000 <= (t * 256 + p) * step,
        (t * 256 + p) * step + step <= 0x4000_0000_0000_0000,
        -0x4000_0000_0000_0000 <= t * 256 + p <= 0x4000_0000_0000_0000,
        -0x4000_0000_0000_0000 <= t * 256 - 1 <= 0x4000_0000_0000_0000,
{
    assert((t * 256 - 1) * step <= (t * 256 + p) * step) by (nonlinear_arith)
        requires
            -1 <= p,
            1 <= step,
    ;
    assert((t * 256 + p) * step + step <= (t * 256 + 257) * step) by (nonlinear_arith)
        requires
            p < 257,
            1 <= step,
    ;
    let u = t * 256 + p;
    assert(-0x4000_0000_0000_0000 <= u <= 0x4000_0000_0000_0000) by (nonlinear_arith)
        requires
            -0x4000_0000_0000_0000 <= u * step,
            u * step <= 0x4000_0000_0000_0000,
            1 <= step,
    ;
    let q = t * 256 - 1;
    assert(-0x4000_0000_0000_0000 <= q) by (nonlinear_arith)
        requires
            -0x4000_0000_0000_0000 <= q * step,
            1 <= step,
    ;
}

/// How a tile pixel maps onto cells along one axis.
fn reach_of(base_zoom: u32, z: u32, t: i64, p: i64, origin: i64) -> (r: (i64, i64, i64))
    requires
        in_reach(base_zoom, z, t as int, origin as int),
        -1 <= p < 257,
    ensures
        (r.0 as int, r.1 as int, r.2 as int) == reach(
            base_zoom,
            z,
            t as int,
            p as int,
            origin as int,
        ),
        1 <= r.1 <= 4,
        1 <= r.2,
        forall|k: int|
            0 <= k < r.1 ==> i64::MIN <= #[trigger] stepped(r.0 as int, k, r.2 as int)
                <= i64::MAX,
        forall|k: int| 0 <= k < r.1 ==> 0 <= #[trigger] stepped(0, k, r.2 as int) <= i64::MAX,
{
    if z <= base_zoom {
        let step = two_to(base_zoom - z);
        proof {
            lemma_reach(t as int, p as int, step as int);
        }
        let first: i64 = (t * 256 + p) * step - origin;
        let n: i64 = if step < 4 { step } else { 4 };
        let sub: i64 = step / n;
        proof {
            assert(sub >= 1 && sub * n <= step) by (nonlinear_arith)
                requires
                    1 <= n <= step,
                    sub == step as int / n as int,
            ;
            assert forall|k: int| 0 <= k < n implies i64::MIN <= #[trigger] stepped(
                first as int,
                k,
                sub as int,
            ) <= i64::MAX by {
                assert(0 <= k * sub <= step) by (nonlinear_arith)
                    requires
                        0 <= k < n,
                        1 <= sub,
                        sub * n <= step,
                ;
            }
            assert forall|k: int| 0 <= k < n implies 0 <= #[trigger] stepped(0, k, sub as int)
                <= i64::MAX by {
                assert(0 <= k * sub <= step) by (nonlinear_arith)
                    requires
                        0 <= k < n,
                        1 <= sub,
                        sub * n <= step,
                ;
            }
        }
        (first, n, sub)
    } else {
        let mag = two_to(z - base_zoom);
        proof {
            lemma_reach(t as int, p as int, 1);
            grid::lemma_quotient_bounds(t * 256 + p, mag as int);
        }
        let q = quotient(t * 256 + p, mag);
        (q - origin, 1, 1)
    }
}

/// The `k`th cell of those that a tile pixel looks at.
pub open spec fn stepped(first: int, k: int, sub: int) -> int {
    first + k * sub
}

impl LayerGrid {
    /// Whether the layer is small enough for its cells to be numbered.
    pub open spec fn wf(self) -> bool {
        self.off + 4 * (self.width * self.height) + 4 <= usize::MAX
    }

    /// Where a cell stands in the plane, or none where it lies outside.
    pub open spec fn cell(self, x: int, y: int) -> Option<int> {
        if 0 <= x < self.width && 0 <= y < self.height {
            Some(y * self.width + x)
        } else {
            None
        }
    }

    /// The `k`th of the cells under a tile pixel, row by row.
    pub open spec fn looked_at(self, z: u32, tx: int, ty: int, px: int, py: int, k: int) -> Option<
        int,
    > {
        let (gx, n, sub) = reach(self.base_zoom, z, tx, px, self.x0 as int);
        let (gy, _, _) = reach(self.base_zoom, z, ty, py, self.y0 as int);
        self.cell(stepped(gx, k % n, sub), stepped(gy, k / n, sub))
    }

    /// How many cells are under a tile pixel.
    pub open spec fn cells_under(self, z: u32) -> int {
        let n = reach(self.base_zoom, z, 0, 0, 0).1;
        n * n
    }

    /// The codes of the cells under a tile pixel that carry data, among the
    /// first `k`.
    pub open spec fn codes_under(
        self,
        map: Seq<u8>,
        z: u32,
        tx: int,
        ty: int,
        px: int,
        py: int,
        k: int,
    ) -> Seq<u16>
        decreases k,
    {
        if k <= 0 {
            Seq::empty()
        } else {
            let front = self.codes_under(map, z, tx, ty, px, py, k - 1);
            match self.looked_at(z, tx, ty, px, py, k - 1) {
                Some(i) if code_at(map, self.off as int, i) != NODATA => front.push(
                    code_at(map, self.off as int, i),
                ),
                _ => front,
            }
        }
    }

    /// The colours of the cells under a tile pixel that are not clear, among
    /// the first `k`.
    pub open spec fn colours_under(
        self,
        map: Seq<u8>,
        z: u32,
        tx: int,
        ty: int,
        px: int,
        py: int,
        k: int,
    ) -> Seq<Seq<u8>>
        decreases k,
    {
        if k <= 0 {
            Seq::empty()
        } else {
            let front = self.colours_under(map, z, tx, ty, px, py, k - 1);
            match self.looked_at(z, tx, ty, px, py, k - 1) {
                Some(i) if colour_at(map, self.off as int, i)[3] != 0 => front.push(
                    colour_at(map, self.off as int, i),
                ),
                _ => front,
            }
        }
    }

    /// Raw 16-bit code at a cell.
    pub fn code(&self, map: &[u8], i: usize) -> (c: u16)
        requires
            self.off + 2 * i + 2 <= usize::MAX,
        ensures
            c == code_at(map@, self.off as int, i as int),
    {
        match bytes::u16le(map, self.off + 2 * i) {
            Some(v) => v,
            None => NODATA,
        }
    }

    /// The code under a Web Mercator pixel of the layer's own zoom, for the
    /// readout: none off the layer, where it carries no data, or on a layer of
    /// straight colour.
    pub fn sample_code(&self, map: &[u8], px: i64, py: i64) -> (r: Option<u16>)
        requires
            self.wf(),
            i64::MIN <= px - self.x0 <= i64::MAX,
            i64::MIN <= py - self.y0 <= i64::MAX,
        ensures
            r == (match self.cell(px - self.x0, py - self.y0) {
                Some(i) if self.kind == PlaneKind::Value && code_at(map@, self.off as int, i)
                    != NODATA => Some(code_at(map@, self.off as int, i)),
                _ => None,
            }),
    {
        if self.kind != PlaneKind::Value {
            return None;
        }
        proof {
            self.lemma_small();
        }
        match cell_index(px - self.x0, py - self.y0, self.width, self.height) {
            None => None,
            Some(i) => {
                proof {
                    grid::lemma_inside(
                        px - self.x0,
                        py - self.y0,
                        self.width as int,
                        self.height as int,
                    );
                }
                let c = self.code(map, i);
                if c == NODATA {
                    None
                } else {
                    Some(c)
                }
            },
        }
    }

    proof fn lemma_small(self)
        requires
            self.wf(),
        ensures
            0 <= self.width * self.height <= usize::MAX,
    {
        assert(0 <= self.width * self.height) by (nonlinear_arith)
            requires
                0 <= self.width,
                0 <= self.height,
        ;
    }
}

// ---- tiles ---------------------------------------------------------------------

impl LayerGrid {
    /// The codes of the cells under a tile pixel that carry data. Zoomed out,
    /// one tile pixel stands for many cells, and taking whichever one happens
    /// to fall under it would turn a smooth grid into a moire.
    pub fn codes_at(&self, map: &[u8], z: u32, tx: i64, ty: i64, px: i64, py: i64) -> (v: Vec<u16>)
        requires
            self.wf(),
            in_reach(self.base_zoom, z, tx as int, self.x0 as int),
            in_reach(self.base_zoom, z, ty as int, self.y0 as int),
            -1 <= px < 257,
            -1 <= py < 257,
        ensures
            v@ == self.codes_under(
                map@,
                z,
                tx as int,
                ty as int,
                px as int,
                py as int,
                self.cells_under(z),
            ),
    {
        let (gx, n, sub) = reach_of(self.base_zoom, z, tx, px, self.x0);
        let (gy, _, _) = reach_of(self.base_zoom, z, ty, py, self.y0);
        proof {
            assert(n * n <= 16) by (nonlinear_arith)
                requires
                    1 <= n <= 4,
            ;
        }
        let mut v: Vec<u16> = Vec::new();
        let mut k: i64 = 0;
        while k < n * n
            invariant
                self.wf(),
                0 <= k <= n * n <= 16,
                1 <= n <= 4,
                1 <= sub,
                (gx as int, n as int, sub as int) == reach(
                    self.base_zoom,
                    z,
                    tx as int,
                    px as int,
                    self.x0 as int,
                ),
                (gy as int, n as int, sub as int) == reach(
                    self.base_zoom,
                    z,
                    ty as int,
                    py as int,
                    self.y0 as int,
                ),
                forall|j: int|
                    0 <= j < n ==> i64::MIN <= #[trigger] stepped(gx as int, j, sub as int)
                        <= i64::MAX,
                forall|j: int|
                    0 <= j < n ==> i64::MIN <= #[trigger] stepped(gy as int, j, sub as int)
                        <= i64::MAX,
                forall|j: int| 0 <= j < n ==> 0 <= #[trigger] stepped(0, j, sub as int) <= i64::MAX,
                v@ == self.codes_under(
                    map@,
                    z,
                    tx as int,
                    ty as int,
                    px as int,
                    py as int,
                    k as int,
                ),
            decreases n * n - k,
        {
            match self.cell_under(gx, gy, n, sub, k) {
                Some(i) => {
                    let c = self.code(map, i);
                    if c != NODATA {
                        v.push(c);
                    }
                },
                None => {},
            }
            k += 1;
        }
        v
    }

    fn cell_under(&self, gx: i64, gy: i64, n: i64, sub: i64, k: i64) -> (r: Option<usize>)
        requires
            self.wf(),
            1 <= n <= 4,
            0 <= k < n * n,
            forall|j: int|
                0 <= j < n ==> i64::MIN <= #[trigger] stepped(gx as int, j, sub as int)
                    <= i64::MAX,
            forall|j: int|
                0 <= j < n ==> i64::MIN <= #[trigger] stepped(gy as int, j, sub as int)
                    <= i64::MAX,
            forall|j: int| 0 <= j < n ==> 0 <= #[trigger] stepped(0, j, sub as int) <= i64::MAX,
        ensures
            match self.cell(
                stepped(gx as int, k as int % n as int, sub as int),
                stepped(gy as int, k as int / n as int, sub as int),
            ) {
                Some(i) => r matches Some(x) && x == i && self.off + 4 * i + 4 <= usize::MAX,
                None => r is None,
            },
    {
        let dx: i64 = k % n;
        let dy: i64 = k / n;
        proof {
            self.lemma_small();
            assert(0 <= dy < n) by (nonlinear_arith)
                requires
                    0 <= k < n * n,
                    1 <= n,
                    dy == k as int / n as int,
            ;
            assert(stepped(gx as int, dx as int, sub as int) == gx + dx * sub);
            assert(stepped(gy as int, dy as int, sub as int) == gy + dy * sub);
            assert(stepped(0, dx as int, sub as int) == dx * sub);
            assert(stepped(0, dy as int, sub as int) == dy * sub);
        }
        let x: i64 = gx + dx * sub;
        let y: i64 = gy + dy * sub;
        let r = cell_index(x, y, self.width, self.height);
        proof {
            if 0 <= x < self.width && 0 <= y < self.height {
                grid::lemma_inside(x as int, y as int, self.width as int, self.height as int);
            }
        }
        r
    }

    fn colour(&self, map: &[u8], i: usize) -> (c: (u8, u8, u8, u8))
        requires
            self.off + 4 * i + 4 <= usize::MAX,
        ensures
            colour_at(map@, self.off as int, i as int) == seq![c.0, c.1, c.2, c.3],
    {
        let at: usize = self.off + 4 * i;
        let c = if at + 4 <= map.len() {
            (map[at], map[at + 1], map[at + 2], map[at + 3])
        } else {
            (0, 0, 0, 0)
        };
        proof {
            assert(colour_at(map@, self.off as int, i as int) =~= seq![c.0, c.1, c.2, c.3]);
        }
        c
    }
}

/// The sum of one channel of some colours.
pub open spec fn channel_sum(cs: Seq<Seq<u8>>, ch: int) -> int
    decreases cs.len(),
{
    if cs.len() == 0 {
        0
    } else {
        channel_sum(cs.drop_last(), ch) + cs.last()[ch]
    }
}

/// The mean of some colours; clear where there are none.
pub open spec fn mean_colour(cs: Seq<Seq<u8>>) -> Seq<u8> {
    if cs.len() == 0 {
        seq![0u8, 0, 0, 0]
    } else {
        seq![
            (channel_sum(cs, 0) / cs.len() as int) as u8,
            (channel_sum(cs, 1) / cs.len() as int) as u8,
            (channel_sum(cs, 2) / cs.len() as int) as u8,
            (channel_sum(cs, 3) / cs.len() as int) as u8,
        ]
    }
}

proof fn lemma_channel_sum(cs: Seq<Seq<u8>>, ch: int)
    ensures
        0 <= channel_sum(cs, ch) <= 255 * cs.len(),
    decreases cs.len(),
{
    if cs.len() > 0 {
        lemma_channel_sum(cs.drop_last(), ch);
    }
}

impl LayerGrid {
    /// What a pixel of a tile of straight colour shows: the mean of the cells
    /// under it that are not clear.
    pub open spec fn colour_pixel(
        self,
        map: Seq<u8>,
        z: u32,
        tx: int,
        ty: int,
        px: int,
        py: int,
    ) -> Seq<u8> {
        mean_colour(self.colours_under(map, z, tx, ty, px, py, self.cells_under(z)))
    }

    /// Whether a pixel of a tile of straight colour has a cell under it that is
    /// not clear.
    pub open spec fn coloured(
        self,
        map: Seq<u8>,
        z: u32,
        tx: int,
        ty: int,
        px: int,
        py: int,
    ) -> bool {
        self.colours_under(map, z, tx, ty, px, py, self.cells_under(z)).len() > 0
    }

    fn colour_of_pixel(&self, map: &[u8], z: u32, tx: i64, ty: i64, px: i64, py: i64) -> (r: Option<
        (u8, u8, u8, u8),
    >)
        requires
            self.wf(),
            in_reach(self.base_zoom, z, tx as int, self.x0 as int),
            in_reach(self.base_zoom, z, ty as int, self.y0 as int),
            -1 <= px < 257,
            -1 <= py < 257,
        ensures
            r is Some <==> self.coloured(map@, z, tx as int, ty as int, px as int, py as int),
            match r {
                Some(c) => self.colour_pixel(
                    map@,
                    z,
                    tx as int,
                    ty as int,
                    px as int,
                    py as int,
                ) == seq![c.0, c.1, c.2, c.3],
                None => self.colour_pixel(
                    map@,
                    z,
                    tx as int,
                    ty as int,
                    px as int,
                    py as int,
                ) == seq![0u8, 0, 0, 0],
            },
    {
        let (gx, n, sub) = reach_of(self.base_zoom, z, tx, px, self.x0);
        let (gy, _, _) = reach_of(self.base_zoom, z, ty, py, self.y0);
        proof {
            assert(n * n <= 16) by (nonlinear_arith)
                requires
                    1 <= n <= 4,
            ;
        }
        let mut s0: u32 = 0;
        let mut s1: u32 = 0;
        let mut s2: u32 = 0;
        let mut s3: u32 = 0;
        let mut count: u32 = 0;
        let mut k: i64 = 0;
        let ghost mut cs: Seq<Seq<u8>> = Seq::empty();
        while k < n * n
            invariant
                self.wf(),
                0 <= k <= n * n <= 16,
                1 <= n <= 4,
                1 <= sub,
                (gx as int, n as int, sub as int) == reach(
                    self.base_zoom,
                    z,
                    tx as int,
                    px as int,
                    self.x0 as int,
                ),
                (gy as int, n as int, sub as int) == reach(
                    self.base_zoom,
                    z,
                    ty as int,
                    py as int,
                    self.y0 as int,
                ),
                forall|j: int|
                    0 <= j < n ==> i64::MIN <= #[trigger] stepped(gx as int, j, sub as int)
                        <= i64::MAX,
                forall|j: int|
                    0 <= j < n ==> i64::MIN <= #[trigger] stepped(gy as int, j, sub as int)
                        <= i64::MAX,
                forall|j: int| 0 <= j < n ==> 0 <= #[trigger] stepped(0, j, sub as int) <= i64::MAX,
                cs == self.colours_under(
                    map@,
                    z,
                    tx as int,
                    ty as int,
                    px as int,
                    py as int,
                    k as int,
                ),
                count == cs.len(),
                count <= k,
                s0 == channel_sum(cs, 0),
                s1 == channel_sum(cs, 1),
                s2 == channel_sum(cs, 2),
                s3 == channel_sum(cs, 3),
            decreases n * n - k,
        {
            proof {
                lemma_channel_sum(cs, 0);
                lemma_channel_sum(cs, 1);
                lemma_channel_sum(cs, 2);
                lemma_channel_sum(cs, 3);
            }
            match self.cell_under(gx, gy, n, sub, k) {
                Some(i) => {
                    let c = self.colour(map, i);
                    if c.3 != 0 {
                        s0 += c.0 as u32;
                        s1 += c.1 as u32;
                        s2 += c.2 as u32;
                        s3 += c.3 as u32;
                        count += 1;
                        proof {
                            let x = colour_at(map@, self.off as int, i as int);
                            assert(x[0] == c.0 && x[1] == c.1 && x[2] == c.2 && x[3] == c.3);
                            assert(cs.push(x).drop_last() =~= cs);
                            cs = cs.push(x);
                        }
                    }
                },
                None => {},
            }
            k += 1;
        }
        if count == 0 {
            return None;
        }
        proof {
            lemma_channel_sum(cs, 0);
            lemma_channel_sum(cs, 1);
            lemma_channel_sum(cs, 2);
            lemma_channel_sum(cs, 3);
            lemma_mean_byte(s0 as int, count as int);
            lemma_mean_byte(s1 as int, count as int);
            lemma_mean_byte(s2 as int, count as int);
            lemma_mean_byte(s3 as int, count as int);
        }
        Some(
            ((s0 / count) as u8, (s1 / count) as u8, (s2 / count) as u8, (s3 / count) as u8),
        )
    }
}

proof fn lemma_mean_byte(s: int, n: int)
    requires
        n > 0,
        0 <= s <= 255 * n,
    ensures
        0 <= s / n <= 255,
{
    assert(0 <= s / n <= 255) by (nonlinear_arith)
        requires
            n > 0,
            0 <= s <= 255 * n,
    ;
}

/// Whether bytes are the first `n` pixels of a tile of straight colour.
pub open spec fn colour_pixels(
    b: Seq<u8>,
    g: LayerGrid,
    map: Seq<u8>,
    z: u32,
    tx: int,
    ty: int,
    n: int,
) -> bool {
    &&& b.len() == 4 * n
    &&& forall|p: int|
        0 <= p < n ==> b.subrange(4 * p, 4 * p + 4) == #[trigger] g.colour_pixel(
            map,
            z,
            tx,
            ty,
            p % 256,
            p / 256,
        )
}

/// Whether a tile of straight colour has anything on it, up to the `n`th pixel.
pub open spec fn any_coloured(g: LayerGrid, map: Seq<u8>, z: u32, tx: int, ty: int, n: int) -> bool {
    exists|p: int| 0 <= p < n && #[trigger] g.coloured(map, z, tx, ty, p % 256, p / 256)
}

impl LayerGrid {
    /// Cut one tile of straight colour: none where the whole of it is clear.
    pub fn tile_rgba(&self, map: &[u8], z: u32, tx: i64, ty: i64) -> (r: Option<Vec<u8>>)
        requires
            self.wf(),
            in_reach(self.base_zoom, z, tx as int, self.x0 as int),
            in_reach(self.base_zoom, z, ty as int, self.y0 as int),
        ensures
            r is Some <==> any_coloured(*self, map@, z, tx as int, ty as int, 65536),
            r matches Some(b) ==> colour_pixels(b@, *self, map@, z, tx as int, ty as int, 65536),
    {
        let mut out: Vec<u8> = Vec::new();
        let mut any = false;
        let mut p: i64 = 0;
        while p < 65536
            invariant
                self.wf(),
                in_reach(self.base_zoom, z, tx as int, self.x0 as int),
                in_reach(self.base_zoom, z, ty as int, self.y0 as int),
                0 <= p <= 65536,
                colour_pixels(out@, *self, map@, z, tx as int, ty as int, p as int),
                any == any_coloured(*self, map@, z, tx as int, ty as int, p as int),
            decreases 65536 - p,
        {
            let v = self.colour_of_pixel(map, z, tx, ty, p % 256, p / 256);
            let ghost was = out@;
            let c = match v {
                Some(c) => {
                    any = true;
                    c
                },
                None => (0, 0, 0, 0),
            };
            out.push(c.0);
            out.push(c.1);
            out.push(c.2);
            out.push(c.3);
            proof {
                let ghost tx = tx as int;
                let ghost ty = ty as int;
                assert(self.colour_pixel(map@, z, tx, ty, p as int % 256, p as int / 256) == seq![
                    c.0,
                    c.1,
                    c.2,
                    c.3,
                ]);
                assert forall|q: int| 0 <= q < p + 1 implies out@.subrange(4 * q, 4 * q + 4)
                    == #[trigger] self.colour_pixel(map@, z, tx, ty, q % 256, q / 256) by {
                    if q < p {
                        assert(out@.subrange(4 * q, 4 * q + 4) =~= was.subrange(4 * q, 4 * q + 4));
                    } else {
                        assert(out@.subrange(4 * q, 4 * q + 4) =~= seq![c.0, c.1, c.2, c.3]);
                    }
                }
                if any_coloured(*self, map@, z, tx, ty, p as int) {
                    let q = choose|q: int|
                        0 <= q < p && #[trigger] self.coloured(map@, z, tx, ty, q % 256, q / 256);
                    assert(0 <= q < p + 1 && self.coloured(map@, z, tx, ty, q % 256, q / 256));
                }
                assert(v is Some == self.coloured(
                    map@,
                    z,
                    tx,
                    ty,
                    p as int % 256,
                    p as int / 256,
                ));
            }
            p += 1;
        }
        if any {
            Some(out)
        } else {
            None
        }
    }
}

// ---- files ---------------------------------------------------------------------

/// The codes of a plane as they stand in a file.
pub open spec fn code_bytes(v: Seq<u16>) -> Seq<u8>
    decreases v.len(),
{
    if v.len() == 0 {
        Seq::empty()
    } else {
        code_bytes(v.drop_last()) + bytes::le2(v.last() as int)
    }
}

/// A colour as a page writes it.
pub fn hex_colour(r: u8, g: u8, b: u8) -> (s: String)
    ensures
        s@ == "#"@ + text::hex(r as nat, 2) + text::hex(g as nat, 2) + text::hex(b as nat, 2),
{
    let mut s = copy("#");
    push_hex(&mut s, r as u64, 2);
    push_hex(&mut s, g as u64, 2);
    push_hex(&mut s, b as u64, 2);
    s
}

/// The codes of a plane as they stand in a file.
pub fn encode_codes(v: &Vec<u16>) -> (b: Vec<u8>)
    ensures
        b@ == code_bytes(v@),
{
    let mut b: Vec<u8> = Vec::new();
    let mut i: usize = 0;
    while i < v.len()
        invariant
            i <= v@.len(),
            b@ == code_bytes(v@.take(i as int)),
        decreases v.len() - i,
    {
        proof {
            assert(v@.take(i + 1).drop_last() =~= v@.take(i as int));
        }
        push_le2(&mut b, v[i]);
        i += 1;
    }
    proof {
        assert(v@.take(v@.len() as int) =~= v@);
    }
    b
}

/// A layer file, given its header as text.
pub fn encode(header: &[u8], plane: &[u8]) -> (b: Vec<u8>)
    requires
        header.len() <= u32::MAX,
    ensures
        b@ == frame::framed(MAGIC@, header@, plane@),
{
    frame::frame(MAGIC.as_slice(), header, plane)
}

/// Find where the header of a layer file ends. It starts at byte 12, and the
/// plane follows it.
pub fn find_header(b: &[u8]) -> (r: Result<usize, FrameError>)
    ensures
        match frame::header_end(b@, MAGIC@, MAGIC_LEGACY@) {
            Ok(end) => r matches Ok(e) && e == end && 12 <= e <= b@.len(),
            Err(x) => r matches Err(e) && e == x,
        },
{
    unframe(b, MAGIC.as_slice(), MAGIC_LEGACY.as_slice())
}

proof fn lemma_code_bytes(v: Seq<u16>, i: int)
    requires
        0 <= i < v.len(),
    ensures
        code_bytes(v).len() == 2 * v.len(),
        code_bytes(v).subrange(2 * i, 2 * i + 2) == bytes::le2(v[i] as int),
    decreases v.len(),
{
    bytes::lemma_le_lens(v.last() as int);
    let front = code_bytes(v.drop_last());
    if v.len() == 1 {
        assert(code_bytes(v.drop_last()).len() == 0);
        assert(code_bytes(v).subrange(0, 2) =~= bytes::le2(v[0] as int));
    } else if i == v.len() - 1 {
        lemma_code_bytes(v.drop_last(), 0);
        assert(code_bytes(v).subrange(2 * i, 2 * i + 2) =~= bytes::le2(v.last() as int));
    } else {
        lemma_code_bytes(v.drop_last(), i);
        assert(code_bytes(v).subrange(2 * i, 2 * i + 2) =~= front.subrange(2 * i, 2 * i + 2));
    }
}

/// A layer file that was written reads back with its header and the code of
/// every cell just as they were.
pub proof fn law_layer_round_trip(header: Seq<u8>, codes: Seq<u16>, i: int)
    requires
        header.len() <= u32::MAX,
        0 <= i < codes.len(),
    ensures
        ({
            let b = frame::framed(MAGIC@, header, code_bytes(codes));
            let end = 12int + header.len();
            &&& frame::header_end(b, MAGIC@, MAGIC_LEGACY@) == Ok::<int, FrameError>(end)
            &&& b.subrange(12, end) == header
            &&& code_at(b, end, i) == codes[i]
        }),
{
    frame::law_frame_round_trip(MAGIC@, MAGIC_LEGACY@, header, code_bytes(codes));
    let b = frame::framed(MAGIC@, header, code_bytes(codes));
    let end = 12int + header.len();
    lemma_code_bytes(codes, i);
    assert(b.skip(end).len() == code_bytes(codes).len());
    assert(b.subrange(end + 2 * i, end + 2 * i + 2) =~= b.skip(end).subrange(2 * i, 2 * i + 2));
    bytes::lemma_le2(b, end + 2 * i, codes[i] as int);
}

// ---- laws of what a pixel shows ------------------------------------------------------

impl LayerGrid {
    /// Whether a pixel of a tile stands for the cell in a column and a row: inside
    /// the square of cells that make the pixel, or, zoomed in, around it.
    pub open spec fn stands_for(self, z: u32, tx: int, ty: int, px: int, py: int, x: int, y: int) -> bool {
        let (u, v) = (256 * tx + px, 256 * ty + py);
        if z <= self.base_zoom {
            let step = grid::power((self.base_zoom - z) as nat);
            step * u <= self.x0 + x < step * u + step && step * v <= self.y0 + y < step * v + step
        } else {
            let mag = grid::power((z - self.base_zoom) as nat);
            mag * (self.x0 + x) <= u < mag * (self.x0 + x) + mag && mag * (self.y0 + y) <= v < mag
                * (self.y0 + y) + mag
        }
    }
}

proof fn lemma_reach_inside(base_zoom: u32, z: u32, t: int, p: int, origin: int, k: int)
    ensures
        ({
            let (first, n, sub) = reach(base_zoom, z, t, p, origin);
            let u = 256 * t + p;
            let x = stepped(first, k, sub);
            &&& 1 <= n <= 4
            &&& 1 <= sub
            &&& 0 <= k < n ==> if z <= base_zoom {
                let step = grid::power((base_zoom - z) as nat);
                step * u <= origin + x < step * u + step
            } else {
                let mag = grid::power((z - base_zoom) as nat);
                mag * (origin + x) <= u < mag * (origin + x) + mag
            }
        }),
{
    let (first, n, sub) = reach(base_zoom, z, t, p, origin);
    let u = t * 256 + p;
    if z <= base_zoom {
        let d = (base_zoom - z) as nat;
        let step = grid::power(d);
        grid::lemma_power_bounds(d, d);
        assert(1 <= sub && n * sub <= step) by (nonlinear_arith)
            requires
                1 <= n <= step,
                sub == step / n,
        ;
        assert(u * step == step * u) by (nonlinear_arith);
        if 0 <= k < n {
            assert(0 <= k * sub < step) by (nonlinear_arith)
                requires
                    0 <= k < n,
                    1 <= sub,
                    n * sub <= step,
            ;
        }
    } else {
        let d = (z - base_zoom) as nat;
        let mag = grid::power(d);
        grid::lemma_power_bounds(d, d);
        let q = u / mag;
        assert(mag * q <= u < mag * q + mag) by (nonlinear_arith)
            requires
                mag >= 1,
                q == u / mag,
        ;
        if 0 <= k < n {
            assert(k * sub == 0);
        }
    }
}

/// Every cell that is looked at for a pixel is one that the pixel stands for.
pub proof fn law_pixel_looks_at_its_cells(
    g: LayerGrid,
    z: u32,
    tx: int,
    ty: int,
    px: int,
    py: int,
    k: int,
)
    requires
        0 <= k < g.cells_under(z),
        g.looked_at(z, tx, ty, px, py, k) is Some,
    ensures
        exists|x: int, y: int|
            {
                &&& #[trigger] g.stands_for(z, tx, ty, px, py, x, y)
                &&& 0 <= x < g.width
                &&& 0 <= y < g.height
                &&& g.looked_at(z, tx, ty, px, py, k) == Some(g.width * y + x)
            },
{
    let (gx, n, sub) = reach(g.base_zoom, z, tx, px, g.x0 as int);
    let (gy, m, sub2) = reach(g.base_zoom, z, ty, py, g.y0 as int);
    let c = reach(g.base_zoom, z, 0, 0, 0).1;
    assert(n == m && m == c && sub == sub2);
    lemma_reach_inside(g.base_zoom, z, tx, px, g.x0 as int, 0);
    assert(0 <= k % n < n && 0 <= k / n < n) by (nonlinear_arith)
        requires
            0 <= k < n * n,
            1 <= n,
    ;
    lemma_reach_inside(g.base_zoom, z, tx, px, g.x0 as int, k % n);
    lemma_reach_inside(g.base_zoom, z, ty, py, g.y0 as int, k / n);
    let x = stepped(gx, k % n, sub);
    let y = stepped(gy, k / n, sub);
    assert(y * g.width == g.width * y) by (nonlinear_arith);
    assert(g.stands_for(z, tx, ty, px, py, x, y));
}

/// The mean of colours that are all the same is that colour; of none it is clear.
pub proof fn law_mean_of_alike(cs: Seq<Seq<u8>>, c: Seq<u8>)
    requires
        c.len() == 4,
        forall|i: int| 0 <= i < cs.len() ==> #[trigger] cs[i] == c,
    ensures
        cs.len() > 0 ==> mean_colour(cs) == c,
        cs.len() == 0 ==> mean_colour(cs) == seq![0u8, 0, 0, 0],
{
    if cs.len() > 0 {
        let n = cs.len() as int;
        lemma_sum_of_alike(cs, c, 0);
        lemma_sum_of_alike(cs, c, 1);
        lemma_sum_of_alike(cs, c, 2);
        lemma_sum_of_alike(cs, c, 3);
        assert forall|ch: int| 0 <= ch < 4 implies (#[trigger] c[ch] * n) / n == c[ch] by {
            let v = c[ch] as int;
            assert((v * n) / n == v) by (nonlinear_arith)
                requires
                    n >= 1,
                    v >= 0,
            ;
        }
        assert((c[0] * n) / n == c[0] && (c[1] * n) / n == c[1]);
        assert((c[2] * n) / n == c[2] && (c[3] * n) / n == c[3]);
        assert(mean_colour(cs) =~= c);
    }
}

proof fn lemma_sum_of_alike(cs: Seq<Seq<u8>>, c: Seq<u8>, ch: int)
    requires
        0 <= ch < 4,
        forall|i: int| 0 <= i < cs.len() ==> #[trigger] cs[i] == c,
    ensures
        channel_sum(cs, ch) == c[ch] * cs.len(),
    decreases cs.len(),
{
    let n = cs.len() as int;
    let v = c[ch] as int;
    if n > 0 {
        lemma_sum_of_alike(cs.drop_last(), c, ch);
        assert(cs.last() == c);
        assert(v * (n - 1) + v == v * n) by (nonlinear_arith);
    } else {
        assert(v * n == 0) by (nonlinear_arith)
            requires
                n == 0,
        ;
    }
}

/// The codes of a plane stand one after the other, two bytes each, the low one
/// first, and its colours four bytes each; past the end of the file there is
/// nothing.
pub proof fn law_plane_cells(map: Seq<u8>, off: int, i: int)
    requires
        0 <= off,
        0 <= i,
    ensures
        off + 2 * (i + 1) <= map.len() ==> bytes::carries(
            map,
            off + 2 * i,
            bytes::le2(code_at(map, off, i) as int),
        ),
        off + 2 * (i + 1) > map.len() ==> code_at(map, off, i) == 65535,
        off + 4 * (i + 1) <= map.len() ==> bytes::carries(map, off + 4 * i, colour_at(map, off, i)),
        off + 4 * (i + 1) > map.len() ==> colour_at(map, off, i)[3] == 0,
{
    if off + 2 * (i + 1) <= map.len() {
        bytes::law_read_two_bytes(map, off + 2 * i);
    }
}

/// The mean of colours lies within one of the exact mean, below it, in every channel.
pub proof fn law_mean_colour(cs: Seq<Seq<u8>>, ch: int)
    requires
        cs.len() > 0,
        0 <= ch < 4,
    ensures
        mean_colour(cs)[ch] * cs.len() <= channel_sum(cs, ch) < mean_colour(cs)[ch] * cs.len()
            + cs.len(),
{
    let n = cs.len() as int;
    lemma_channel_sum(cs, ch);
    let s = channel_sum(cs, ch);
    vstd::arithmetic::div_mod::lemma_fundamental_div_mod(s, n);
    vstd::arithmetic::div_mod::lemma_mod_bound(s, n);
    let q = s / n;
    assert(n * q == q * n) by (nonlinear_arith);
    assert(0 <= q <= 255) by (nonlinear_arith)
        requires
            q * n <= s,
            s <= 255 * n,
            s < q * n + n,
            0 <= s,
            n > 0,
    ;
    assert(mean_colour(cs)[ch] == q as u8);
}

/// A channel of some colours is the sum over them.
pub proof fn law_channels_add_up(a: Seq<Seq<u8>>, b: Seq<Seq<u8>>, ch: int)
    ensures
        channel_sum(a + b, ch) == channel_sum(a, ch) + channel_sum(b, ch),
        forall|x: Seq<u8>| channel_sum(#[trigger] seq![x], ch) == x[ch] as int,
    decreases b.len(),
{
    assert forall|x: Seq<u8>| channel_sum(#[trigger] seq![x], ch) == x[ch] as int by {
        assert(seq![x].drop_last() =~= Seq::empty());
        assert(seq![x].last() == x);
        assert(channel_sum(Seq::<Seq<u8>>::empty(), ch) == 0);
        assert(channel_sum(seq![x], ch) == channel_sum(Seq::<Seq<u8>>::empty(), ch) + x[ch] as int);
    }
    if b.len() == 0 {
        assert(a + b =~= a);
        assert(channel_sum(a, ch) + channel_sum(b, ch) == channel_sum(a, ch));
    } else {
        law_channels_add_up(a, b.drop_last(), ch);
        assert((a + b).drop_last() =~= a + b.drop_last());
        assert((a + b).last() == b.last());
        assert(channel_sum(a + b, ch) == channel_sum(a, ch) + channel_sum(b, ch));
    }
}

/// No cell is looked at twice for a pixel.
pub proof fn law_looks_at_different_cells(
    g: LayerGrid,
    z: u32,
    tx: int,
    ty: int,
    px: int,
    py: int,
    a: int,
    b: int,
)
    requires
        0 <= a < b < g.cells_under(z),
        g.looked_at(z, tx, ty, px, py, a) is Some,
        g.looked_at(z, tx, ty, px, py, b) is Some,
    ensures
        g.looked_at(z, tx, ty, px, py, a) != g.looked_at(z, tx, ty, px, py, b),
{
    let (gx, n, sub) = reach(g.base_zoom, z, tx, px, g.x0 as int);
    let (gy, m, sub2) = reach(g.base_zoom, z, ty, py, g.y0 as int);
    let c = reach(g.base_zoom, z, 0, 0, 0).1;
    assert(n == m && m == c && sub == sub2);
    lemma_reach_inside(g.base_zoom, z, tx, px, g.x0 as int, 0);
    let (xa, ya) = (stepped(gx, a % n, sub), stepped(gy, a / n, sub));
    let (xb, yb) = (stepped(gx, b % n, sub), stepped(gy, b / n, sub));
    vstd::arithmetic::div_mod::lemma_fundamental_div_mod(a, n);
    vstd::arithmetic::div_mod::lemma_fundamental_div_mod(b, n);
    assert(a % n != b % n || a / n != b / n);
    if a % n != b % n {
        assert((a % n) * sub != (b % n) * sub) by (nonlinear_arith)
            requires
                a % n != b % n,
                sub >= 1,
        ;
    }
    if a / n != b / n {
        assert((a / n) * sub != (b / n) * sub) by (nonlinear_arith)
            requires
                a / n != b / n,
                sub >= 1,
        ;
    }
    let w = g.width as int;
    assert(ya * w + xa != yb * w + xb) by (nonlinear_arith)
        requires
            0 <= xa < w,
            0 <= xb < w,
            xa != xb || ya != yb,
    ;
}

/// What is under a pixel is what its cells carry: every cell that is looked at and has
/// data counts, and nothing else does.
pub proof fn law_codes_under(
    g: LayerGrid,
    map: Seq<u8>,
    z: u32,
    tx: int,
    ty: int,
    px: int,
    py: int,
    n: int,
)
    requires
        0 <= n,
    ensures
        forall|k: int|
            0 <= k < n && #[trigger] g.looked_at(z, tx, ty, px, py, k) is Some && code_at(
                map,
                g.off as int,
                g.looked_at(z, tx, ty, px, py, k)->0,
            ) != 65535 ==> g.codes_under(map, z, tx, ty, px, py, n).contains(
                code_at(map, g.off as int, g.looked_at(z, tx, ty, px, py, k)->0),
            ),
        forall|j: int|
            0 <= j < g.codes_under(map, z, tx, ty, px, py, n).len() ==> exists|k: int|
                0 <= k < n && #[trigger] g.looked_at(z, tx, ty, px, py, k) is Some && code_at(
                    map,
                    g.off as int,
                    g.looked_at(z, tx, ty, px, py, k)->0,
                ) == #[trigger] g.codes_under(map, z, tx, ty, px, py, n)[j],
        forall|j: int|
            0 <= j < g.codes_under(map, z, tx, ty, px, py, n).len()
                ==> #[trigger] g.codes_under(map, z, tx, ty, px, py, n)[j] != 65535,
    decreases n,
{
    if n > 0 {
        law_codes_under(g, map, z, tx, ty, px, py, n - 1);
        let front = g.codes_under(map, z, tx, ty, px, py, n - 1);
        let all = g.codes_under(map, z, tx, ty, px, py, n);
        assert forall|k: int|
            0 <= k < n && #[trigger] g.looked_at(z, tx, ty, px, py, k) is Some && code_at(
                map,
                g.off as int,
                g.looked_at(z, tx, ty, px, py, k)->0,
            ) != 65535 implies all.contains(
            code_at(map, g.off as int, g.looked_at(z, tx, ty, px, py, k)->0),
        ) by {
            let c = code_at(map, g.off as int, g.looked_at(z, tx, ty, px, py, k)->0);
            if k < n - 1 {
                let j = choose|j: int| 0 <= j < front.len() && front[j] == c;
                assert(all[j] == c);
            } else {
                assert(all[all.len() - 1] == c);
            }
        }
        assert forall|j: int| 0 <= j < all.len() implies exists|k: int|
            0 <= k < n && #[trigger] g.looked_at(z, tx, ty, px, py, k) is Some && code_at(
                map,
                g.off as int,
                g.looked_at(z, tx, ty, px, py, k)->0,
            ) == #[trigger] all[j] by {
            if j < front.len() {
                assert(all[j] == front[j]);
                let k = choose|k: int|
                    0 <= k < n - 1 && #[trigger] g.looked_at(z, tx, ty, px, py, k) is Some && code_at(
                        map,
                        g.off as int,
                        g.looked_at(z, tx, ty, px, py, k)->0,
                    ) == front[j];
                assert(g.looked_at(z, tx, ty, px, py, k) is Some);
            } else {
                assert(g.looked_at(z, tx, ty, px, py, n - 1) is Some);
            }
        }
        assert forall|j: int| 0 <= j < all.len() implies #[trigger] all[j] != 65535 by {
            if j < front.len() {
                assert(all[j] == front[j]);
            }
        }
    }
}

} // verus!
