//! A picture of a whole layer, put together from its tiles.

use vstd::prelude::*;

use crate::layer::TILE;

verus! {

/// A byte of a picture, by its row and where it stands in the row.
pub open spec fn byte_at(b: Seq<u8>, stride: int, y: int, x: int) -> u8 {
    b[y * stride + x]
}

/// Whether a byte of a picture belongs to a tile of it.
pub open spec fn in_tile(col: int, row: int, y: int, x: int) -> bool {
    row * 256 <= y < row * 256 + 256 && col * 1024 <= x < col * 1024 + 1024
}

/// A byte of a picture after a tile has been put into it.
pub open spec fn pasted(
    old_byte: u8,
    tile: Seq<u8>,
    col: int,
    row: int,
    y: int,
    x: int,
) -> u8 {
    if in_tile(col, row, y, x) {
        tile[(y - row * 256) * 1024 + (x - col * 1024)]
    } else {
        old_byte
    }
}

proof fn lemma_places_differ(stride: int, y0: int, x0: int, y1: int, x1: int)
    by (nonlinear_arith)
    requires
        0 <= x0 < stride,
        0 <= x1 < stride,
        y0 * stride + x0 == y1 * stride + x1,
    ensures
        y0 == y1,
        x0 == x1,
{
}

proof fn lemma_place_inside(stride: int, height: int, y: int, x: int)
    by (nonlinear_arith)
    requires
        0 <= y < height,
        0 <= x < stride,
    ensures
        0 <= y * stride + x < height * stride,
        0 <= y * stride <= y * stride + x,
{
}

/// Put a tile into a picture that is so many tiles across and down, at a column
/// and a row of tiles. A tile is 256 dots across and down, of four bytes each.
pub fn paste(img: &mut Vec<u8>, across: usize, down: usize, tile: &Vec<u8>, col: usize, row: usize)
    requires
        col < across,
        row < down,
        (down * 256) * (across * 1024) == old(img)@.len(),
        (down * 256) * (across * 1024) <= usize::MAX,
        across * 1024 <= usize::MAX,
        down * 256 <= usize::MAX,
        tile@.len() == 262144,
    ensures
        final(img)@.len() == old(img)@.len(),
        forall|y: int, x: int|
            0 <= y < down * 256 && 0 <= x < across * 1024 ==> #[trigger] byte_at(
                final(img)@,
                across * 1024,
                y,
                x,
            ) == pasted(
                byte_at(old(img)@, across * 1024, y, x),
                tile@,
                col as int,
                row as int,
                y,
                x,
            ),
{
    let stride: usize = across * 1024;
    let ghost height = (down * 256) as int;
    let ghost was = img@;
    let mut r: usize = 0;
    while r < TILE
        invariant
            r <= 256,
            col < across,
            row < down,
            stride == across * 1024,
            height == down * 256,
            height <= usize::MAX,
            height * stride == was.len(),
            was.len() <= usize::MAX,
            tile@.len() == 262144,
            img@.len() == was.len(),
            forall|y: int, x: int|
                0 <= y < height && 0 <= x < stride ==> #[trigger] byte_at(
                    img@,
                    stride as int,
                    y,
                    x,
                ) == (if y < row * 256 + r {
                    pasted(
                        byte_at(was, stride as int, y, x),
                        tile@,
                        col as int,
                        row as int,
                        y,
                        x,
                    )
                } else {
                    byte_at(was, stride as int, y, x)
                }),
        decreases 256 - r,
    {
        let at: usize = row * 256 + r;
        proof {
            lemma_place_inside(stride as int, height, at as int, 0);
        }
        let start: usize = at * stride;
        let mut k: usize = 0;
        while k < 1024
            invariant
                r < 256,
                k <= 1024,
                col < across,
                row < down,
                stride == across * 1024,
                height == down * 256,
                height * stride == was.len(),
                was.len() <= usize::MAX,
                tile@.len() == 262144,
                img@.len() == was.len(),
                at == row * 256 + r,
                start == at * stride,
                forall|y: int, x: int|
                    0 <= y < height && 0 <= x < stride ==> #[trigger] byte_at(
                        img@,
                        stride as int,
                        y,
                        x,
                    ) == (if y < at || (y == at && x < col * 1024 + k) {
                        pasted(
                            byte_at(was, stride as int, y, x),
                            tile@,
                            col as int,
                            row as int,
                            y,
                            x,
                        )
                    } else {
                        byte_at(was, stride as int, y, x)
                    }),
            decreases 1024 - k,
        {
            let ghost before = img@;
            let ghost x0 = col * 1024 + k;
            proof {
                lemma_place_inside(stride as int, height, at as int, x0);
            }
            let i: usize = start + col * 1024 + k;
            let v = tile[r * 1024 + k];
            img.set(i, v);
            proof {
                assert forall|y: int, x: int| 0 <= y < height && 0 <= x < stride implies
                    #[trigger] byte_at(img@, stride as int, y, x) == (if y < at || (y == at && x
                    < col * 1024 + k + 1) {
                    pasted(
                        byte_at(was, stride as int, y, x),
                        tile@,
                        col as int,
                        row as int,
                        y,
                        x,
                    )
                } else {
                    byte_at(was, stride as int, y, x)
                }) by {
                    lemma_place_inside(stride as int, height, y, x);
                    if y * stride + x == i {
                        lemma_places_differ(stride as int, y, x, at as int, x0);
                    } else {
                        assert(byte_at(img@, stride as int, y, x) == byte_at(
                            before,
                            stride as int,
                            y,
                            x,
                        ));
                    }
                }
            }
            k += 1;
        }
        proof {
            assert forall|y: int, x: int| 0 <= y < height && 0 <= x < stride implies
                #[trigger] byte_at(img@, stride as int, y, x) == (if y < row * 256 + r + 1 {
                pasted(byte_at(was, stride as int, y, x), tile@, col as int, row as int, y, x)
            } else {
                byte_at(was, stride as int, y, x)
            }) by {
                if y == at && x >= col * 1024 + 1024 {
                    assert(!in_tile(col as int, row as int, y, x));
                }
            }
        }
        r += 1;
    }
}

/// A tile that is pasted stands in its place pixel for pixel, and all else stays.
pub proof fn law_pasted(was: u8, tile: Seq<u8>, col: int, row: int, y: int, x: int)
    ensures
        0 <= y < 256 && 0 <= x < 1024 ==> pasted(was, tile, col, row, 256 * row + y, 1024 * col + x)
            == tile[1024 * y + x],
        !(256 * row <= y < 256 * row + 256) ==> pasted(was, tile, col, row, y, x) == was,
        !(1024 * col <= x < 1024 * col + 1024) ==> pasted(was, tile, col, row, y, x) == was,
{
}

} // verus!
