//! How a mosaic is coloured on the way out of the raster.

use vstd::prelude::*;

use crate::layer::Ramp;

verus! {

#[derive(Clone, Copy, Debug, PartialEq, Eq, Structural)]
pub struct MosaicStyle {
    pub ramp: Ramp,
    pub reverse: bool,
    /// Ends of the 0-255 value range mapped across the ramp. Narrowing them is
    /// a contrast stretch that does not need a repaint.
    pub lo: u8,
    pub hi: u8,
}

impl Default for MosaicStyle {
    fn default() -> (s: MosaicStyle)
        ensures
            s == (MosaicStyle { ramp: Ramp::Grey, reverse: false, lo: 0, hi: 255 }),
    {
        MosaicStyle { ramp: Ramp::Grey, reverse: false, lo: 0, hi: 255 }
    }
}

/// A pixel after it has been coloured: transparent ones are left alone, and the
/// others take the colour that stands for their value.
pub open spec fn coloured(px: Seq<u8>, lut: Seq<(u8, u8, u8)>) -> Seq<u8> {
    if px[3] == 0 {
        px
    } else {
        let c = lut[px[0] as int];
        seq![c.0, c.1, c.2, px[3]]
    }
}

/// The four bytes of a pixel.
pub open spec fn pixel(b: Seq<u8>, p: int) -> Seq<u8> {
    b.subrange(4 * p, 4 * p + 4)
}

impl MosaicStyle {
    /// Whether this is the grey ramp over the full range, which is what the
    /// raster already holds.
    pub open spec fn plain(self) -> bool {
        self.ramp == Ramp::Grey && !self.reverse && self.lo == 0 && self.hi == 255
    }

    pub fn is_grey(&self) -> (r: bool)
        ensures
            r == self.plain(),
    {
        self.ramp == Ramp::Grey && !self.reverse && self.lo == 0 && self.hi == 255
    }

    /// Recolour a grey RGBA tile in place, given the colour for each value.
    pub fn apply(&self, rgba: &mut Vec<u8>, lut: &Vec<(u8, u8, u8)>)
        requires
            lut@.len() == 256,
        ensures
            final(rgba)@.len() == old(rgba)@.len(),
            self.plain() ==> final(rgba)@ == old(rgba)@,
            !self.plain() ==> forall|p: int|
                0 <= p < old(rgba)@.len() as int / 4 ==> #[trigger] pixel(final(rgba)@, p)
                    == coloured(pixel(old(rgba)@, p), lut@),
            forall|i: int|
                old(rgba)@.len() as int / 4 * 4 <= i < old(rgba)@.len() ==> #[trigger] final(rgba)@[i]
                    == old(rgba)@[i],
    {
        if self.is_grey() {
            return ;
        }
        let ghost first = rgba@;
        let n: usize = rgba.len() / 4;
        let mut p: usize = 0;
        while p < n
            invariant
                p <= n,
                4 * n <= rgba.len(),
                n == first.len() as int / 4,
                rgba@.len() == first.len(),
                lut@.len() == 256,
                forall|q: int|
                    0 <= q < p ==> #[trigger] pixel(rgba@, q) == coloured(pixel(first, q), lut@),
                forall|i: int| 4 * p <= i < first.len() ==> #[trigger] rgba@[i] == first[i],
            decreases n - p,
        {
            let ghost was = rgba@;
            proof {
                assert(pixel(was, p as int) =~= pixel(first, p as int));
                assert(pixel(first, p as int)[0] == first[4 * p]);
                assert(pixel(first, p as int)[3] == first[4 * p + 3]);
            }
            if rgba[4 * p + 3] != 0 {
                let c = lut[rgba[4 * p] as usize];
                rgba.set(4 * p, c.0);
                rgba.set(4 * p + 1, c.1);
                rgba.set(4 * p + 2, c.2);
            }
            proof {
                assert(pixel(rgba@, p as int) =~= coloured(pixel(first, p as int), lut@));
                assert forall|q: int| 0 <= q < p + 1 implies #[trigger] pixel(rgba@, q)
                    == coloured(pixel(first, q), lut@) by {
                    if q < p {
                        assert(pixel(rgba@, q) =~= pixel(was, q));
                    }
                }
            }
            p += 1;
        }
    }

    /// Colour a greyscale image, for the waterfall.
    ///
    /// The waterfall and the mosaic are two views of the same numbers, so a
    /// channel drawn in one can wear the colours it was given in the other.
    pub fn colour_grey(&self, grey: &[u8], lut: &Vec<(u8, u8, u8)>) -> (rgba: Vec<u8>)
        requires
            lut@.len() == 256,
        ensures
            rgba@.len() == 4 * grey@.len(),
            forall|p: int|
                0 <= p < grey@.len() ==> #[trigger] pixel(rgba@, p) == (if self.plain() {
                    seq![grey@[p], grey@[p], grey@[p], 255u8]
                } else {
                    coloured(seq![grey@[p], grey@[p], grey@[p], 255u8], lut@)
                }),
    {
        let mut rgba: Vec<u8> = Vec::new();
        let mut i: usize = 0;
        while i < grey.len()
            invariant
                i <= grey@.len(),
                rgba@.len() == 4 * i,
                forall|p: int|
                    0 <= p < i ==> #[trigger] pixel(rgba@, p) == seq![
                        grey@[p],
                        grey@[p],
                        grey@[p],
                        255u8,
                    ],
            decreases grey.len() - i,
        {
            let g: u8 = grey[i];
            let ghost was = rgba@;
            rgba.push(g);
            rgba.push(g);
            rgba.push(g);
            rgba.push(255);
            proof {
                assert forall|p: int| 0 <= p < i + 1 implies #[trigger] pixel(rgba@, p) == seq![
                    grey@[p],
                    grey@[p],
                    grey@[p],
                    255u8,
                ] by {
                    if p < i {
                        assert(pixel(rgba@, p) =~= pixel(was, p));
                    } else {
                        assert(pixel(rgba@, p) =~= seq![g, g, g, 255u8]);
                    }
                }
            }
            i += 1;
        }
        self.apply(&mut rgba, lut);
        rgba
    }
}

/// Colouring a tile leaves how much of every pixel shows as it was.
pub proof fn law_colouring_keeps_alpha(px: Seq<u8>, lut: Seq<(u8, u8, u8)>)
    requires
        px.len() == 4,
    ensures
        coloured(px, lut)[3] == px[3],
        coloured(px, lut).len() == 4,
{
}

/// A pixel that is clear stays as it is, and any other takes the colour of its
/// grey.
pub proof fn law_colouring(px: Seq<u8>, lut: Seq<(u8, u8, u8)>)
    requires
        px.len() == 4,
        lut.len() == 256,
    ensures
        px[3] == 0 ==> coloured(px, lut) == px,
        px[3] != 0 ==> {
            let c = coloured(px, lut);
            &&& c.len() == 4
            &&& (c[0], c[1], c[2]) == lut[px[0] as int]
            &&& c[3] == px[3]
        },
{
}

} // verus!
