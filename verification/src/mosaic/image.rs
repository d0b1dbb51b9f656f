//! Images as PNG files.

use vstd::prelude::*;

verus! {

/// What the bytes of a pixel are.
#[derive(Clone, Copy, Debug, PartialEq, Eq, Structural)]
pub enum Channels {
    Grey,
    GreyAlpha,
    Rgb,
    Rgba,
}

impl Channels {
    /// Bytes per pixel.
    pub open spec fn count(self) -> int {
        match self {
            Channels::Grey => 1,
            Channels::GreyAlpha => 2,
            Channels::Rgb => 3,
            Channels::Rgba => 4,
        }
    }
}

/// Why an image could not be encoded.
#[derive(Clone, Copy, Debug, PartialEq, Eq, Structural)]
pub enum ImageError {
    /// The image has no columns or no rows.
    Empty,
    /// There are more or fewer bytes than the image has.
    Length,
}

/// Why `png` could not encode an image.
#[verifier::external_type_specification]
#[verifier::external_body]
pub struct ExEncodingError(png::EncodingError);

/// The PNG file that an image is encoded as, given its bytes, its size and how
/// many bytes a pixel has.
pub uninterp spec fn png_file(data: Seq<u8>, width: int, height: int, channels: int) -> Seq<u8>;

/// `png::Encoder` with eight bits per channel and fast compression: refuses an
/// image without columns or rows and one whose bytes are not as many as its
/// size asks for; any other it encodes. What it makes depends on the image
/// alone.
#[verifier::external_body]
fn encode(data: &[u8], width: u32, height: u32, channels: Channels) -> (r: Result<
    Vec<u8>,
    png::EncodingError,
>)
    requires
        (width * channels.count() + 1) * height <= usize::MAX,
    ensures
        r is Ok == (width != 0 && height != 0 && data@.len() == (width * channels.count())
            * height),
        r is Ok ==> r->Ok_0@ == png_file(data@, width as int, height as int, channels.count()),
{
    let mut buf = Vec::new();
    let mut enc = png::Encoder::new(&mut buf, width, height);
    enc.set_color(match channels {
        Channels::Grey => png::ColorType::Grayscale,
        Channels::GreyAlpha => png::ColorType::GrayscaleAlpha,
        Channels::Rgb => png::ColorType::Rgb,
        Channels::Rgba => png::ColorType::Rgba,
    });
    enc.set_depth(png::BitDepth::Eight);
    enc.set_compression(png::Compression::Fast);
    let mut wr = enc.write_header()?;
    wr.write_image_data(data)?;
    drop(wr);
    Ok(buf)
}

/// What encoding an image gives.
pub open spec fn encoded(data: Seq<u8>, width: int, height: int, channels: Channels) -> Result<
    Seq<u8>,
    ImageError,
> {
    if width == 0 || height == 0 {
        Err(ImageError::Empty)
    } else if data.len() != (width * channels.count()) * height {
        Err(ImageError::Length)
    } else {
        Ok(png_file(data, width, height, channels.count()))
    }
}

fn channel_count(c: Channels) -> (n: u64)
    ensures
        n == c.count(),
        1 <= n <= 4,
{
    match c {
        Channels::Grey => 1,
        Channels::GreyAlpha => 2,
        Channels::Rgb => 3,
        Channels::Rgba => 4,
    }
}

/// Encode an image.
pub fn encode_png(data: &[u8], w: u32, h: u32, channels: Channels) -> (r: Result<
    Vec<u8>,
    ImageError,
>)
    requires
        data@.len() + h <= usize::MAX,
    ensures
        match encoded(data@, w as int, h as int, channels) {
            Ok(b) => r matches Ok(x) && x@ == b,
            Err(e) => r matches Err(x) && x == e,
        },
{
    if w == 0 || h == 0 {
        return Err(ImageError::Empty);
    }
    let n = channel_count(channels);
    proof {
        assert(w * n <= 0xffff_ffff * 4) by (nonlinear_arith)
            requires
                0 <= w <= 0xffff_ffff,
                1 <= n <= 4,
        ;
        assert((w * n) * h <= (0xffff_ffff * 4) * 0xffff_ffff) by (nonlinear_arith)
            requires
                0 <= w * n <= 0xffff_ffff * 4,
                0 <= h <= 0xffff_ffff,
        ;
        assert(0 <= w * n) by (nonlinear_arith)
            requires
                0 <= w,
                1 <= n,
        ;
        assert((w * n) * h >= 0) by (nonlinear_arith)
            requires
                0 <= w * n,
                0 <= h,
        ;
        assert((w * n + 1) * h == (w * n) * h + h) by (nonlinear_arith);
    }
    let row: u64 = w as u64 * n;
    let whole: u128 = row as u128 * h as u128;
    if whole != data.len() as u128 {
        return Err(ImageError::Length);
    }
    match encode(data, w, h, channels) {
        Ok(b) => Ok(b),
        Err(_) => Err(ImageError::Length),
    }
}

// ---- narrowing -----------------------------------------------------------------

/// Whether a pixel of an RGBA image is grey.
pub open spec fn grey_at(b: Seq<u8>, p: int) -> bool {
    b[4 * p] == b[4 * p + 1] && b[4 * p + 1] == b[4 * p + 2]
}

/// Whether all pixels of an RGBA image are grey.
pub open spec fn all_grey(b: Seq<u8>) -> bool {
    forall|p: int| 0 <= p < b.len() as int / 4 ==> #[trigger] grey_at(b, p)
}

/// Whether a pixel of an RGBA image lets nothing through.
pub open spec fn opaque_at(b: Seq<u8>, p: int) -> bool {
    b[4 * p + 3] == 255
}

/// Whether no pixel of an RGBA image lets anything through.
pub open spec fn all_opaque(b: Seq<u8>) -> bool {
    forall|p: int| 0 <= p < b.len() as int / 4 ==> #[trigger] opaque_at(b, p)
}

/// The narrowest kind of image that holds an RGBA image exactly.
pub open spec fn narrowest(b: Seq<u8>) -> Channels {
    if all_grey(b) {
        if all_opaque(b) {
            Channels::Grey
        } else {
            Channels::GreyAlpha
        }
    } else if all_opaque(b) {
        Channels::Rgb
    } else {
        Channels::Rgba
    }
}

/// The bytes kept of a pixel.
pub open spec fn kept(b: Seq<u8>, p: int, c: Channels) -> Seq<u8> {
    match c {
        Channels::Grey => seq![b[4 * p]],
        Channels::GreyAlpha => seq![b[4 * p], b[4 * p + 3]],
        Channels::Rgb => seq![b[4 * p], b[4 * p + 1], b[4 * p + 2]],
        Channels::Rgba => seq![b[4 * p], b[4 * p + 1], b[4 * p + 2], b[4 * p + 3]],
    }
}

/// The first `n` pixels of an RGBA image, narrowed.
pub open spec fn packed(b: Seq<u8>, n: int, c: Channels) -> Seq<u8>
    decreases n,
{
    if n <= 0 {
        Seq::empty()
    } else {
        packed(b, n - 1, c) + kept(b, n - 1, c)
    }
}

/// The pixel that the `p`th of a narrowed image shows.
pub open spec fn shown(d: Seq<u8>, p: int, c: Channels) -> Seq<u8> {
    match c {
        Channels::Grey => seq![d[p], d[p], d[p], 255u8],
        Channels::GreyAlpha => seq![d[2 * p], d[2 * p], d[2 * p], d[2 * p + 1]],
        Channels::Rgb => seq![d[3 * p], d[3 * p + 1], d[3 * p + 2], 255u8],
        Channels::Rgba => seq![d[4 * p], d[4 * p + 1], d[4 * p + 2], d[4 * p + 3]],
    }
}

fn narrowest_of(b: &[u8]) -> (c: Channels)
    ensures
        c == narrowest(b@),
{
    let mut grey = true;
    let mut opaque = true;
    let n: usize = b.len() / 4;
    let mut p: usize = 0;
    while p < n
        invariant
            p <= n,
            n == b@.len() as int / 4,
            4 * n <= b.len(),
            grey == (forall|q: int| 0 <= q < p ==> #[trigger] grey_at(b@, q)),
            opaque == (forall|q: int| 0 <= q < p ==> #[trigger] opaque_at(b@, q)),
        decreases n - p,
    {
        proof {
            assert(grey_at(b@, p as int) == (b@[4 * p] == b@[4 * p + 1] && b@[4 * p + 1] == b@[4 * p
                + 2]));
            assert(opaque_at(b@, p as int) == (b@[4 * p + 3] == 255));
        }
        if !(b[4 * p] == b[4 * p + 1] && b[4 * p + 1] == b[4 * p + 2]) {
            grey = false;
        }
        if b[4 * p + 3] != 255 {
            opaque = false;
        }
        p += 1;
    }
    if grey {
        if opaque {
            Channels::Grey
        } else {
            Channels::GreyAlpha
        }
    } else if opaque {
        Channels::Rgb
    } else {
        Channels::Rgba
    }
}

fn pack(b: &[u8], c: Channels) -> (d: Vec<u8>)
    ensures
        d@ == packed(b@, b@.len() as int / 4, c),
{
    let mut d: Vec<u8> = Vec::new();
    let n: usize = b.len() / 4;
    let mut p: usize = 0;
    while p < n
        invariant
            p <= n,
            4 * n <= b.len(),
            d@ == packed(b@, p as int, c),
        decreases n - p,
    {
        let ghost was = d@;
        match c {
            Channels::Grey => {
                d.push(b[4 * p]);
            },
            Channels::GreyAlpha => {
                d.push(b[4 * p]);
                d.push(b[4 * p + 3]);
            },
            Channels::Rgb => {
                d.push(b[4 * p]);
                d.push(b[4 * p + 1]);
                d.push(b[4 * p + 2]);
            },
            Channels::Rgba => {
                d.push(b[4 * p]);
                d.push(b[4 * p + 1]);
                d.push(b[4 * p + 2]);
                d.push(b[4 * p + 3]);
            },
        }
        proof {
            assert(d@ =~= was + kept(b@, p as int, c));
        }
        p += 1;
    }
    d
}

/// Encode an RGBA tile as the narrowest PNG that holds it exactly.
///
/// A mosaic is grey: the three colour channels carry the same number. A shaded
/// relief tile is not grey but is usually fully opaque, which saves a channel
/// just the same.
pub fn encode_png_rgba(rgba: &[u8], w: u32, h: u32) -> (r: Result<Vec<u8>, ImageError>)
    requires
        rgba@.len() + h <= usize::MAX,
    ensures
        match encoded(
            packed(rgba@, rgba@.len() as int / 4, narrowest(rgba@)),
            w as int,
            h as int,
            narrowest(rgba@),
        ) {
            Ok(b) => r matches Ok(x) && x@ == b,
            Err(e) => r matches Err(x) && x == e,
        },
{
    let c = narrowest_of(rgba);
    let d = pack(rgba, c);
    proof {
        lemma_packed_len(rgba@, rgba@.len() as int / 4, c);
    }
    encode_png(d.as_slice(), w, h, c)
}

/// Encode a grey image, one byte per pixel.
pub fn encode_png_grey(grey: &[u8], w: u32, h: u32) -> (r: Result<Vec<u8>, ImageError>)
    requires
        grey@.len() + h <= usize::MAX,
    ensures
        match encoded(grey@, w as int, h as int, Channels::Grey) {
            Ok(b) => r matches Ok(x) && x@ == b,
            Err(e) => r matches Err(x) && x == e,
        },
{
    encode_png(grey, w, h, Channels::Grey)
}

proof fn lemma_packed(b: Seq<u8>, n: int, c: Channels, p: int)
    requires
        0 <= p < n,
    ensures
        packed(b, n, c).len() == c.count() * n,
        packed(b, n, c).subrange(c.count() * p, c.count() * p + c.count()) == kept(b, p, c),
    decreases n,
{
    let front = packed(b, n - 1, c);
    lemma_packed_len(b, n - 1, c);
    lemma_packed_len(b, n, c);
    let k = c.count();
    if p == n - 1 {
        assert(packed(b, n, c).subrange(k * p, k * p + k) =~= kept(b, p, c));
    } else {
        lemma_packed(b, n - 1, c, p);
        assert(k * p + k <= k * (n - 1)) by (nonlinear_arith)
            requires
                p < n - 1,
                1 <= k,
        ;
        assert(0 <= k * p) by (nonlinear_arith)
            requires
                0 <= p,
                1 <= k,
        ;
        assert(packed(b, n, c).subrange(k * p, k * p + k) =~= front.subrange(k * p, k * p + k));
    }
}

proof fn lemma_packed_len(b: Seq<u8>, n: int, c: Channels)
    requires
        0 <= n,
    ensures
        packed(b, n, c).len() == c.count() * n,
    decreases n,
{
    if n > 0 {
        lemma_packed_len(b, n - 1, c);
    }
}

/// Narrowing loses nothing: every pixel shows what it showed before.
pub proof fn law_narrowing_is_exact(b: Seq<u8>, p: int)
    requires
        b.len() % 4 == 0,
        0 <= p < b.len() as int / 4,
    ensures
        shown(packed(b, b.len() as int / 4, narrowest(b)), p, narrowest(b)) == b.subrange(
            4 * p,
            4 * p + 4,
        ),
{
    let c = narrowest(b);
    let n = b.len() as int / 4;
    let d = packed(b, n, c);
    let k = c.count();
    lemma_packed(b, n, c, p);
    let w = d.subrange(k * p, k * p + k);
    assert(w[0] == d[k * p]);
    assert(k > 1 ==> w[1] == d[k * p + 1]);
    assert(k > 2 ==> w[2] == d[k * p + 2]);
    assert(k > 3 ==> w[3] == d[k * p + 3]);
    if all_grey(b) {
        assert(grey_at(b, p));
    }
    if all_opaque(b) {
        assert(opaque_at(b, p));
    }
    assert(shown(d, p, c) =~= b.subrange(4 * p, 4 * p + 4));
}

/// No colour kind with fewer channels than the one that is taken would show every
/// pixel as it is.
pub proof fn law_narrowest_is_narrow(b: Seq<u8>, c: Channels)
    requires
        forall|p: int|
            0 <= p < b.len() as int / 4 ==> #[trigger] shown(kept(b, p, c), 0, c) == seq![
                b[4 * p],
                b[4 * p + 1],
                b[4 * p + 2],
                b[4 * p + 3],
            ],
    ensures
        narrowest(b).count() <= c.count(),
{
    if c == Channels::Grey || c == Channels::GreyAlpha {
        assert forall|p: int| 0 <= p < b.len() as int / 4 implies #[trigger] grey_at(b, p) by {
            let s = shown(kept(b, p, c), 0, c);
            assert(s[0] == b[4 * p] && s[1] == b[4 * p + 1] && s[2] == b[4 * p + 2]);
        }
        assert(all_grey(b));
    }
    if c == Channels::Grey || c == Channels::Rgb {
        assert forall|p: int| 0 <= p < b.len() as int / 4 implies #[trigger] opaque_at(b, p) by {
            let s = shown(kept(b, p, c), 0, c);
            assert(s[3] == b[4 * p + 3]);
        }
        assert(all_opaque(b));
    }
}

/// A colour kind has a channel for what is grey, or three for what is not, and one
/// more where something shows through.
pub proof fn law_channel_counts()
    ensures
        Channels::GreyAlpha.count() == Channels::Grey.count() + 1,
        Channels::Rgb.count() == 3 * Channels::Grey.count(),
        Channels::Rgba.count() == Channels::Rgb.count() + 1,
        Channels::Grey.count() == 1,
{
}

} // verus!
