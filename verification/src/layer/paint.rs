//! Importing a grid: what is refused, and which cells a source pixel covers.

use vstd::prelude::*;

use crate::layer::{PlaneKind, MAX_CELLS};
use crate::text;
use crate::text::{push_dec, push_str};

verus! {

/// Why a grid could not be imported.
#[derive(Clone, Copy, Debug, PartialEq, Eq, Structural)]
pub enum ImportError {
    UnknownSystem { epsg: u32 },
    NoPosition,
    NoExtent,
    NothingLanded,
}

/// What an error says.
pub open spec fn import_error_text(e: ImportError) -> Seq<char> {
    match e {
        ImportError::UnknownSystem { epsg } => "EPSG:"@ + text::dec(epsg as nat)
            + " is not in the registry; reproject the file to WGS84 or a UTM zone first"@,
        ImportError::NoPosition =>
            "the georeferencing does not resolve to a position on the earth"@,
        ImportError::NoExtent => "the image has no extent"@,
        ImportError::NothingLanded =>
            "nothing landed on the grid: check the file's coordinate system"@,
    }
}

impl ImportError {
    /// What the error says.
    pub fn message(&self) -> (s: String)
        ensures
            s@ == import_error_text(*self),
    {
        let mut s = String::new();
        match self {
            ImportError::UnknownSystem { epsg } => {
                push_str(&mut s, "EPSG:");
                push_dec(&mut s, *epsg as u64);
                push_str(
                    &mut s,
                    " is not in the registry; reproject the file to WGS84 or a UTM zone first",
                );
            },
            ImportError::NoPosition => {
                push_str(&mut s, "the georeferencing does not resolve to a position on the earth");
            },
            ImportError::NoExtent => {
                push_str(&mut s, "the image has no extent");
            },
            ImportError::NothingLanded => {
                push_str(&mut s, "nothing landed on the grid: check the file's coordinate system");
            },
        }
        proof {
            assert(s@ =~= import_error_text(*self));
        }
        s
    }
}

/// What kind of plane a grid is resampled to: a measured value where it has one
/// band, straight colour otherwise.
pub fn plane_kind(single_band: bool) -> (k: PlaneKind)
    ensures
        k == (if single_band {
            PlaneKind::Value
        } else {
            PlaneKind::Rgba
        }),
{
    if single_band {
        PlaneKind::Value
    } else {
        PlaneKind::Rgba
    }
}

/// Whether a raster of the given size is worth writing; at the lowest zoom
/// there is none smaller. Better a slightly softer layer than to refuse the
/// import of a file the operator clearly meant to look at.
pub fn worth_writing(width: usize, height: usize, zoom: u32) -> (r: bool)
    ensures
        r == (width * height <= MAX_CELLS || zoom <= 1),
{
    proof {
        assert(width * height <= 0xffff_ffff_ffff_ffff * 0xffff_ffff_ffff_ffff) by (nonlinear_arith)
            requires
                0 <= width <= 0xffff_ffff_ffff_ffff,
                0 <= height <= 0xffff_ffff_ffff_ffff,
        ;
        assert(0 <= width * height) by (nonlinear_arith)
            requires
                0 <= width,
                0 <= height,
        ;
    }
    width as u128 * height as u128 <= MAX_CELLS as u128 || zoom <= 1
}

// ---- footprints ----------------------------------------------------------------

/// A source pixel's rectangle of cells, clipped to the raster: columns and
/// rows, the last excluded.
pub open spec fn in_footprint(
    i: int,
    gx: int,
    gy: int,
    nx: int,
    ny: int,
    width: int,
    height: int,
) -> bool {
    exists|x: int, y: int|
        #![trigger cell_number(x, y, width)]
        gx <= x < gx + nx && gy <= y < gy + ny && 0 <= x < width && 0 <= y < height && i
            == cell_number(x, y, width)
}

/// The number of a cell in a row-major plane.
pub open spec fn cell_number(x: int, y: int, width: int) -> int {
    y * width + x
}

fn clip(g: i64, n: i64, limit: usize) -> (r: (usize, usize))
    requires
        1 <= n <= 64,
        g <= i64::MAX - 64,
    ensures
        r.0 <= r.1 <= limit,
        r.0 == (if g < 0 {
            0
        } else if g > limit {
            limit as int
        } else {
            g as int
        }),
        r.1 == (if g + n < 0 {
            0
        } else if g + n > limit {
            limit as int
        } else {
            g + n
        }),
{
    let end: i64 = g + n;
    if end <= 0 {
        return (0, 0);
    }
    let from: u64 = if g < 0 { 0 } else { g as u64 };
    if from >= limit as u64 {
        return (limit, limit);
    }
    let to: u64 = if end as u64 > limit as u64 { limit as u64 } else { end as u64 };
    (from as usize, to as usize)
}

/// The cells that a source pixel covers, in order: `nx` by `ny` of them from
/// (gx, gy) on, without those that lie off the raster.
pub fn footprint(gx: i64, gy: i64, nx: i64, ny: i64, width: usize, height: usize) -> (v: Vec<
    usize,
>)
    requires
        1 <= nx <= 64,
        1 <= ny <= 64,
        gx <= i64::MAX - 64,
        gy <= i64::MAX - 64,
        width * height <= usize::MAX,
    ensures
        forall|a: int, b: int| 0 <= a < b < v@.len() ==> #[trigger] v@[a] < #[trigger] v@[b],
        forall|i: usize|
            #[trigger] v@.contains(i) <==> in_footprint(
                i as int,
                gx as int,
                gy as int,
                nx as int,
                ny as int,
                width as int,
                height as int,
            ),
        forall|a: int| 0 <= a < v@.len() ==> #[trigger] v@[a] < width * height,
{
    let (x0, x1) = clip(gx, nx, width);
    let (y0, y1) = clip(gy, ny, height);
    let mut v: Vec<usize> = Vec::new();
    let mut y: usize = y0;
    while y < y1
        invariant
            y0 <= y <= y1 <= height,
            x0 <= x1 <= width,
            width * height <= usize::MAX,
            forall|a: int, b: int| 0 <= a < b < v@.len() ==> #[trigger] v@[a] < #[trigger] v@[b],
            forall|a: int| 0 <= a < v@.len() ==> #[trigger] v@[a] < y * width,
            forall|a: int| 0 <= a < v@.len() ==> #[trigger] v@[a] < width * height,
            forall|i: usize|
                #[trigger] v@.contains(i) <==> block(
                    i as int,
                    x0 as int,
                    x1 as int,
                    y0 as int,
                    y as int,
                    width as int,
                ),
        decreases y1 - y,
    {
        let ghost above = v@;
        let mut x: usize = x0;
        proof {
            lemma_row(y as int, width as int, height as int);
        }
        let base: usize = y * width;
        while x < x1
            invariant
                y0 <= y < y1 <= height,
                x0 <= x <= x1 <= width,
                base == y * width,
                base + width <= width * height <= usize::MAX,
                forall|a: int, b: int|
                    0 <= a < b < v@.len() ==> #[trigger] v@[a] < #[trigger] v@[b],
                forall|a: int| 0 <= a < v@.len() ==> #[trigger] v@[a] < base + x,
                forall|a: int| 0 <= a < v@.len() ==> #[trigger] v@[a] < width * height,
                forall|i: usize|
                    #[trigger] v@.contains(i) <==> (above.contains(i) || base + x0 <= i < base + x),
            decreases x1 - x,
        {
            let ghost was = v@;
            v.push(base + x);
            proof {
                assert forall|i: usize| #[trigger] v@.contains(i) <==> (above.contains(i) || base
                    + x0 <= i < base + x + 1) by {
                    if was.contains(i) {
                        let a = choose|a: int| 0 <= a < was.len() && was[a] == i;
                        assert(v@[a] == i);
                    }
                    if i == base + x {
                        assert(v@[was.len() as int] == i);
                    }
                    if v@.contains(i) && i != base + x {
                        let a = choose|a: int| 0 <= a < v@.len() && v@[a] == i;
                        assert(was[a] == i);
                    }
                }
            }
            x += 1;
        }
        proof {
            assert forall|i: usize| #[trigger] v@.contains(i) <==> block(
                i as int,
                x0 as int,
                x1 as int,
                y0 as int,
                y + 1,
                width as int,
            ) by {
                lemma_block_grows(
                    i as int,
                    x0 as int,
                    x1 as int,
                    y0 as int,
                    y as int,
                    width as int,
                );
            }
            lemma_next_row(y as int, width as int);
        }
        y += 1;
    }
    proof {
        assert forall|i: usize| #[trigger] v@.contains(i) <==> in_footprint(
            i as int,
            gx as int,
            gy as int,
            nx as int,
            ny as int,
            width as int,
            height as int,
        ) by {
            let (a0, a1, b0, b1, w) = (x0 as int, x1 as int, y0 as int, y1 as int, width as int);
            if block(i as int, a0, a1, b0, b1, w) {
                let (x, y) = choose|x: int, y: int|
                    #![trigger cell_number(x, y, w)]
                    a0 <= x < a1 && b0 <= y < b1 && i == cell_number(x, y, w);
                assert(i == cell_number(x, y, w));
            }
            if in_footprint(
                i as int,
                gx as int,
                gy as int,
                nx as int,
                ny as int,
                w,
                height as int,
            ) {
                let (x, y) = choose|x: int, y: int|
                    #![trigger cell_number(x, y, w)]
                    gx <= x < gx + nx && gy <= y < gy + ny && 0 <= x < w && 0 <= y < height && i
                        == cell_number(x, y, w);
                assert(i == cell_number(x, y, w));
                assert(a0 <= x < a1 && b0 <= y < b1);
            }
        }
    }
    v
}

/// Whether a cell lies in a block of columns and rows.
spec fn block(i: int, x0: int, x1: int, y0: int, y1: int, width: int) -> bool {
    exists|x: int, y: int|
        #![trigger cell_number(x, y, width)]
        x0 <= x < x1 && y0 <= y < y1 && i == cell_number(x, y, width)
}

proof fn lemma_row(y: int, width: int, height: int)
    requires
        0 <= y < height,
        0 <= width,
    ensures
        0 <= y * width,
        y * width + width <= width * height,
{
    assert(0 <= y * width) by (nonlinear_arith)
        requires
            0 <= y,
            0 <= width,
    ;
    assert(y * width + width <= width * height) by (nonlinear_arith)
        requires
            0 <= y < height,
            0 <= width,
    ;
}

proof fn lemma_next_row(y: int, width: int)
    ensures
        (y + 1) * width == y * width + width,
{
    assert((y + 1) * width == y * width + width) by (nonlinear_arith);
}

proof fn lemma_block_grows(i: int, x0: int, x1: int, y0: int, y: int, width: int)
    requires
        y0 <= y,
    ensures
        block(i, x0, x1, y0, y + 1, width) <==> (block(i, x0, x1, y0, y, width) || y * width + x0
            <= i < y * width + x1),
{
    if block(i, x0, x1, y0, y, width) {
        let (a, b) = choose|a: int, b: int|
            #![trigger cell_number(a, b, width)]
            x0 <= a < x1 && y0 <= b < y && i == cell_number(a, b, width);
        assert(i == cell_number(a, b, width) && b < y + 1);
    }
    if y * width + x0 <= i < y * width + x1 {
        let a = i - y * width;
        assert(i == cell_number(a, y, width));
    }
    if block(i, x0, x1, y0, y + 1, width) {
        let (a, b) = choose|a: int, b: int|
            #![trigger cell_number(a, b, width)]
            x0 <= a < x1 && y0 <= b < y + 1 && i == cell_number(a, b, width);
        if b < y {
            assert(i == cell_number(a, b, width));
        }
    }
}

/// Paint cells of a plane of straight colour.
pub fn stamp(plane: &mut Vec<u8>, cells: &Vec<usize>, c: (u8, u8, u8, u8))
    requires
        forall|a: int| 0 <= a < cells@.len() ==> 4 * #[trigger] cells@[a] + 4 <= old(plane)@.len(),
    ensures
        final(plane)@.len() == old(plane)@.len(),
        forall|i: usize|
            4 * i + 4 <= old(plane)@.len() ==> #[trigger] colour_of(final(plane)@, i) == (
            if cells@.contains(i) {
                seq![c.0, c.1, c.2, c.3]
            } else {
                colour_of(old(plane)@, i)
            }),
{
    let ghost first = plane@;
    let n: usize = plane.len();
    let mut k: usize = 0;
    while k < cells.len()
        invariant
            k <= cells@.len(),
            n == plane@.len(),
            n == first.len(),
            forall|a: int| 0 <= a < cells@.len() ==> 4 * #[trigger] cells@[a] + 4 <= n,
            forall|i: usize|
                4 * i + 4 <= n ==> #[trigger] colour_of(plane@, i) == (if cells@.take(
                    k as int,
                ).contains(i) {
                    seq![c.0, c.1, c.2, c.3]
                } else {
                    colour_of(first, i)
                }),
        decreases cells.len() - k,
    {
        let at: usize = cells[k];
        let ghost was = plane@;
        proof {
            assert(4 * cells@[k as int] + 4 <= n);
        }
        plane.set(4 * at, c.0);
        plane.set(4 * at + 1, c.1);
        plane.set(4 * at + 2, c.2);
        plane.set(4 * at + 3, c.3);
        proof {
            let t = cells@.take(k as int);
            let u = cells@.take(k + 1);
            assert forall|i: usize| 4 * i + 4 <= n implies #[trigger] colour_of(plane@, i) == (
            if u.contains(i) {
                seq![c.0, c.1, c.2, c.3]
            } else {
                colour_of(first, i)
            }) by {
                if i == at {
                    assert(u[k as int] == i);
                    assert(colour_of(plane@, i) =~= seq![c.0, c.1, c.2, c.3]);
                } else {
                    assert(colour_of(plane@, i) =~= colour_of(was, i));
                    if t.contains(i) {
                        let a = choose|a: int| 0 <= a < t.len() && t[a] == i;
                        assert(u[a] == i);
                    }
                    if u.contains(i) {
                        let a = choose|a: int| 0 <= a < u.len() && u[a] == i;
                        assert(t[a] == i);
                    }
                }
            }
        }
        k += 1;
    }
    proof {
        assert(cells@.take(cells@.len() as int) =~= cells@);
    }
}

/// The colour of a cell of a plane.
pub open spec fn colour_of(plane: Seq<u8>, i: usize) -> Seq<u8> {
    plane.subrange(4 * i, 4 * i + 4)
}

/// How many cells of a plane are not clear, among the first `n`.
pub open spec fn opaque_cells(plane: Seq<u8>, n: int) -> int
    decreases n,
{
    if n <= 0 {
        0
    } else {
        opaque_cells(plane, n - 1) + (if plane[4 * (n - 1) + 3] > 0 {
            1int
        } else {
            0int
        })
    }
}

/// Count the cells of a plane that are not clear.
pub fn filled(plane: &Vec<u8>) -> (n: usize)
    ensures
        n == opaque_cells(plane@, plane@.len() as int / 4),
{
    let cells: usize = plane.len() / 4;
    let mut n: usize = 0;
    let mut i: usize = 0;
    while i < cells
        invariant
            i <= cells,
            cells == plane@.len() as int / 4,
            4 * cells <= plane.len(),
            n <= i,
            n == opaque_cells(plane@, i as int),
        decreases cells - i,
    {
        if plane[4 * i + 3] > 0 {
            n += 1;
        }
        i += 1;
    }
    n
}

/// Count one more sample on each of some cells, as far as sixteen bits go.
pub fn count_hits(hits: &mut Vec<u16>, cells: &Vec<usize>)
    requires
        forall|a: int| 0 <= a < cells@.len() ==> #[trigger] cells@[a] < old(hits)@.len(),
        forall|a: int, b: int|
            0 <= a < b < cells@.len() ==> #[trigger] cells@[a] < #[trigger] cells@[b],
    ensures
        final(hits)@.len() == old(hits)@.len(),
        forall|i: int|
            0 <= i < old(hits)@.len() ==> #[trigger] final(hits)@[i] == (if cells@.contains(
                i as usize,
            ) && old(hits)@[i] < 65535 {
                old(hits)@[i] + 1
            } else {
                old(hits)@[i] as int
            }),
{
    let ghost first = hits@;
    let n: usize = hits.len();
    let mut k: usize = 0;
    while k < cells.len()
        invariant
            k <= cells@.len(),
            n == hits@.len(),
            n == first.len(),
            forall|a: int| 0 <= a < cells@.len() ==> #[trigger] cells@[a] < n,
            forall|a: int, b: int|
                0 <= a < b < cells@.len() ==> #[trigger] cells@[a] < #[trigger] cells@[b],
            forall|i: int|
                0 <= i < n ==> #[trigger] hits@[i] == (if cells@.take(k as int).contains(
                    i as usize,
                ) && first[i] < 65535 {
                    first[i] + 1
                } else {
                    first[i] as int
                }),
        decreases cells.len() - k,
    {
        let at: usize = cells[k];
        let ghost was = hits@;
        let ghost t = cells@.take(k as int);
        proof {
            if t.contains(at) {
                let a = choose|a: int| 0 <= a < t.len() && t[a] == at;
                assert(cells@[a] < cells@[k as int]);
            }
            assert(was[at as int] == first[at as int]);
        }
        if hits[at] < 65535 {
            let h: u16 = hits[at];
            hits.set(at, h + 1);
        }
        proof {
            let u = cells@.take(k + 1);
            assert forall|i: int| 0 <= i < n implies #[trigger] hits@[i] == (if u.contains(
                i as usize,
            ) && first[i] < 65535 {
                first[i] + 1
            } else {
                first[i] as int
            }) by {
                if i == at {
                    assert(u[k as int] == i as usize);
                } else {
                    assert(hits@[i] == was[i]);
                    if t.contains(i as usize) {
                        let a = choose|a: int| 0 <= a < t.len() && t[a] == i as usize;
                        assert(u[a] == i as usize);
                    }
                    if u.contains(i as usize) {
                        let a = choose|a: int| 0 <= a < u.len() && u[a] == i as usize;
                        assert(t[a] == i as usize);
                    }
                }
            }
        }
        k += 1;
    }
    proof {
        assert(cells@.take(cells@.len() as int) =~= cells@);
    }
}

/// Counting the cells that are filled is keeping those that something shows in.
pub proof fn law_filled(plane: Seq<u8>, n: int)
    requires
        0 <= n,
        4 * n <= plane.len(),
    ensures
        opaque_cells(plane, n) == Seq::new(n as nat, |i: int| plane[4 * i + 3]).filter(
            |a: u8| a > 0,
        ).len(),
    decreases n,
{
    reveal(Seq::filter);
    let s = Seq::new(n as nat, |i: int| plane[4 * i + 3]);
    if n > 0 {
        law_filled(plane, n - 1);
        assert(s.drop_last() =~= Seq::new((n - 1) as nat, |i: int| plane[4 * i + 3]));
    }
}

} // verus!
