use swath::tiff::codec::{
    lzw_decode, packbits_decode, unpredict_float, unpredict_horizontal, LzwError,
};
use swath::tiff::field::TiffError;
use swath::tiff::pixel::{BlockCache, BlockError, Sample};
use swath::tiff::{epsg_from, GeoTiff, Georef, Layout, SampleKind};

/// An entry of a directory: its tag, its type, and its values as bytes.
type Tag = (u16, u16, u32, Vec<u8>);

fn shorts(tag: u16, v: &[u16]) -> Tag {
    (tag, 3, v.len() as u32, v.iter().flat_map(|x| x.to_le_bytes()).collect())
}

fn longs(tag: u16, v: &[u32]) -> Tag {
    (tag, 4, v.len() as u32, v.iter().flat_map(|x| x.to_le_bytes()).collect())
}

fn doubles(tag: u16, v: &[f64]) -> Tag {
    (tag, 12, v.len() as u32, v.iter().flat_map(|x| x.to_le_bytes()).collect())
}

fn ascii(tag: u16, s: &str) -> Tag {
    let mut b = s.as_bytes().to_vec();
    b.push(0);
    (tag, 2, b.len() as u32, b)
}

/// A file with its pixels at byte 8, its directory behind them, and what does
/// not fit into an entry behind that.
fn file(pixels: &[u8], tags: Vec<Tag>) -> Vec<u8> {
    let mut b = vec![0x49, 0x49, 42, 0];
    let ifd = 8 + pixels.len() as u32;
    b.extend_from_slice(&ifd.to_le_bytes());
    b.extend_from_slice(pixels);
    b.extend_from_slice(&(tags.len() as u16).to_le_bytes());
    let mut far = ifd + 2 + 12 * tags.len() as u32 + 4;
    let mut rest = Vec::new();
    for (tag, typ, count, bytes) in tags {
        b.extend_from_slice(&tag.to_le_bytes());
        b.extend_from_slice(&typ.to_le_bytes());
        b.extend_from_slice(&count.to_le_bytes());
        if bytes.len() <= 4 {
            let mut p = bytes.clone();
            p.resize(4, 0);
            b.extend_from_slice(&p);
        } else {
            b.extend_from_slice(&far.to_le_bytes());
            far += bytes.len() as u32;
            rest.extend(bytes);
        }
    }
    b.extend_from_slice(&[0; 4]);
    b.extend(rest);
    b
}

fn basic(w: u16, h: u16, bits: u16, n: u32) -> Vec<Tag> {
    vec![
        shorts(256, &[w]),
        shorts(257, &[h]),
        shorts(258, &[bits]),
        longs(273, &[8]),
        longs(279, &[n]),
    ]
}

fn with(mut t: Vec<Tag>, more: Vec<Tag>) -> Vec<Tag> {
    t.extend(more);
    t
}

fn fails(b: &[u8]) -> TiffError {
    match GeoTiff::open(b) {
        Ok(_) => panic!("it opened"),
        Err(e) => e,
    }
}

fn value(t: &GeoTiff, b: &[u8], col: u64, row: u64) -> Option<Sample> {
    let mut c = BlockCache::new();
    t.value(b, &mut c, col, row, 0)
}

#[test]
fn a_small_grid_is_read() {
    let b = file(&[1, 2, 3, 4, 5, 6], basic(3, 2, 8, 6));
    let t = GeoTiff::open(&b).unwrap();
    assert_eq!((t.shape.width, t.shape.height, t.shape.bits), (3, 2, 8));
    assert!(t.shape.kind == SampleKind::Uint);
    assert!(matches!(t.layout, Layout::Strips { .. }));
    assert!(t.georef == Georef::Absent);
    assert_eq!(value(&t, &b, 2, 1), Some(Sample::Uint(6)));
    assert_eq!(value(&t, &b, 0, 0), Some(Sample::Uint(1)));
    assert_eq!(value(&t, &b, 3, 0), None);
    assert!(t.is_single_band());
    assert!(!t.is_big());
    assert!(t.describe().starts_with("3x2 · 1 band · "));
}

#[test]
fn numbers_with_a_sign_and_a_point_are_read() {
    let i = file(&[0xff, 0xff, 1, 0], with(basic(2, 1, 16, 4), vec![shorts(339, &[2])]));
    let t = GeoTiff::open(&i).unwrap();
    assert_eq!(value(&t, &i, 0, 0), Some(Sample::Int(-1)));
    let f = file(&1.5f32.to_le_bytes(), with(basic(1, 1, 32, 4), vec![shorts(339, &[3])]));
    let u = GeoTiff::open(&f).unwrap();
    assert_eq!(value(&u, &f, 0, 0), Some(Sample::Single(1.5f32.to_bits())));
}

#[test]
fn a_deflated_grid_is_inflated() {
    let stored = [0x78, 0x01, 0x01, 0x03, 0x00, 0xfc, 0xff, 9, 8, 7, 0x00, 0x35, 0x00, 0x19];
    let t8 = with(basic(3, 1, 8, stored.len() as u32), vec![shorts(259, &[8])]);
    let b = file(&stored, t8);
    let t = GeoTiff::open(&b).unwrap();
    assert_eq!(value(&t, &b, 0, 0), Some(Sample::Uint(9)));
    assert_eq!(value(&t, &b, 2, 0), Some(Sample::Uint(7)));
    let bad = file(&[1, 2, 3], with(basic(3, 1, 8, 3), vec![shorts(259, &[8])]));
    let u = GeoTiff::open(&bad).unwrap();
    let e = u.block(&bad, 0).unwrap_err();
    assert!(matches!(e, BlockError::Deflate(_)));
    assert_eq!(
        e.message(),
        "deflate: DecompressError { status: Failed, output: [0, 0, 0, 0, 0, 0] }"
    );
    assert_eq!(value(&u, &bad, 0, 0), None);
}

#[test]
fn packed_runs_are_unpacked() {
    assert_eq!(packbits_decode(&[2, 1, 2, 3, 0xfe, 9, 0x80, 0, 7]), vec![1, 2, 3, 9, 9, 9, 7]);
    assert_eq!(packbits_decode(&[]), Vec::<u8>::new());
    let b = file(&[0xfe, 5], with(basic(3, 1, 8, 2), vec![shorts(259, &[32773])]));
    let t = GeoTiff::open(&b).unwrap();
    assert_eq!(value(&t, &b, 2, 0), Some(Sample::Uint(5)));
}

#[test]
fn a_dictionary_stream_is_decoded() {
    // clear, 7, 7, end: codes of nine bits, most significant first.
    let bits: Vec<bool> = [256u16, 7, 7, 257]
        .iter()
        .flat_map(|c| (0..9).rev().map(move |i| (c >> i) & 1 == 1))
        .collect();
    let mut b = vec![0u8; 5];
    for (i, on) in bits.iter().enumerate() {
        if *on {
            b[i / 8] |= 0x80 >> (i % 8);
        }
    }
    assert_eq!(lzw_decode(&b), Ok(vec![7, 7]));
    // A first code that the dictionary does not have: 300.
    assert_eq!(lzw_decode(&[0x80, 0x4b, 0x00]), Err(LzwError::Undefined));
}

#[test]
fn differences_are_summed() {
    let mut d = vec![1, 1, 1, 5, 255, 2];
    unpredict_horizontal(&mut d, 3, 2, 1, 8, true);
    assert_eq!(d, vec![1, 2, 3, 5, 4, 6]);
    let mut w = vec![0xff, 0x00, 0x02, 0x00];
    unpredict_horizontal(&mut w, 2, 1, 1, 16, true);
    assert_eq!(w, vec![0xff, 0x00, 0x01, 0x01]);
    let mut q = vec![0xff, 0xff, 0xff, 0xff, 0xff, 0xff, 0xff, 0xff, 2, 0, 0, 0, 0, 0, 0, 0];
    unpredict_horizontal(&mut q, 2, 1, 1, 64, true);
    assert_eq!(q[8..], [1, 0, 0, 0, 0, 0, 0, 0]);
    let mut m = vec![0, 0, 0, 0, 0xff, 0xff, 0xff, 0xff, 0, 0, 0, 0, 0, 0, 0, 1];
    unpredict_horizontal(&mut m, 2, 1, 1, 64, false);
    assert_eq!(m[8..], [0, 0, 0, 1, 0, 0, 0, 0]);
    let mut f = vec![0x3f, 0x41, 0x40, 0x40, 0, 0, 0, 0];
    unpredict_float(&mut f, 2, 1, 1, 32, true);
    assert_eq!(f.len(), 8);
}

#[test]
fn a_file_of_several_pictures_is_refused() {
    let mut b = file(&[1, 2, 3, 4, 5, 6], basic(3, 2, 8, 6));
    let n = b.len();
    b[n - 4] = 8;
    assert_eq!(fails(&b), TiffError::MultiPage);
    assert_eq!(TiffError::MultiPage.message(), "multi-page TIFFs are not supported");
    b.truncate(n - 4);
    assert!(GeoTiff::open(&b).is_ok());
}

#[test]
fn where_the_pixels_are_is_read() {
    let b = file(
        &[0],
        with(
            basic(1, 1, 8, 1),
            vec![
                doubles(33550, &[0.5, 0.25, 0.0]),
                doubles(33922, &[0.0, 0.0, 0.0, 600_000.0, 5_800_000.0, 0.0]),
                shorts(34735, &[1, 1, 0, 1, 3072, 0, 1, 32631]),
                ascii(34737, "UTM 31|WGS 84|"),
                ascii(42113, "-9999"),
            ],
        ),
    );
    let t = GeoTiff::open(&b).unwrap();
    assert!(matches!(t.georef, Georef::Tied { .. }));
    assert_eq!(epsg_from(&t.geo_keys, false), Some(32631));
    assert_eq!(t.crs_name, "UTM 31");
    assert_eq!(t.nodata.as_deref(), Some("-9999"));
    assert_eq!(epsg_from(&None, true), Some(4326));
    assert_eq!(epsg_from(&None, false), None);
}

#[test]
fn what_is_no_tiff_is_refused() {
    assert_eq!(fails(b"II"), TiffError::TooShort);
    assert_eq!(fails(b"XX\x2a\0\0\0\0\0"), TiffError::NoByteOrder);
    assert_eq!(fails(b"II\x07\0\x08\0\0\0"), TiffError::Magic(7));
    assert_eq!(fails(b"II\x2b\0\x04\0\0\0\x10\0\0\0\0\0\0\0"), TiffError::OffsetSize);
    assert_eq!(fails(b"II\x2a\0\xff\0\0\0"), TiffError::ShortRead);
    assert_eq!(
        fails(b"II\x2a\0\x08\0\0\0\x01\0\x00\x01\x03\0\x01\0\0\0"),
        TiffError::EntryRunsOff
    );
    assert_eq!(TiffError::Magic(7).message(), "not a TIFF: magic 7");
    assert_eq!(TiffError::NoSize.message(), "image has no size");
}

#[test]
fn what_is_not_supported_says_so() {
    let f = |more: Vec<Tag>| fails(&file(&[0; 4], with(basic(1, 1, 8, 1), more)));
    assert_eq!(fails(&file(&[0], vec![shorts(257, &[1])])), TiffError::NoSize);
    assert_eq!(fails(&file(&[0], basic(1, 1, 12, 1))), TiffError::BitDepth(12));
    assert_eq!(f(vec![shorts(339, &[9])]), TiffError::SampleFormat(9));
    assert_eq!(f(vec![shorts(339, &[3])]), TiffError::FloatDepth(8));
    assert_eq!(f(vec![shorts(277, &[3]), shorts(284, &[2])]), TiffError::Planar);
    assert_eq!(f(vec![shorts(262, &[6])]), TiffError::YCbCr);
    assert_eq!(f(vec![shorts(262, &[5])]), TiffError::Cmyk);
    let no_offsets = vec![shorts(256, &[1]), shorts(257, &[1]), shorts(258, &[8]), longs(279, &[1])];
    assert_eq!(fails(&file(&[0], no_offsets)), TiffError::NoOffsets);
    let no_counts = vec![shorts(256, &[1]), shorts(257, &[1]), shorts(258, &[8]), longs(273, &[8])];
    assert_eq!(fails(&file(&[0], no_counts)), TiffError::NoCounts);
    let uneven =
        vec![shorts(256, &[1]), shorts(257, &[1]), shorts(258, &[8]), longs(273, &[8, 9]), longs(279, &[1])];
    assert_eq!(fails(&file(&[0], uneven)), TiffError::TablesDisagree);
    let mixed = vec![
        shorts(256, &[1]),
        shorts(257, &[1]),
        shorts(258, &[8, 16]),
        shorts(277, &[2]),
        longs(273, &[8]),
        longs(279, &[3]),
    ];
    assert_eq!(fails(&file(&[0; 4], mixed)), TiffError::MixedDepths);
}

#[test]
fn blocks_are_checked_as_they_are_read() {
    let past = file(&[0], basic(1, 1, 8, 4000));
    let t = GeoTiff::open(&past).unwrap();
    assert_eq!(t.block(&past, 0), Err(BlockError::Refused(TiffError::BlockPastEnd(0))));
    assert_eq!(t.block(&past, 7), Err(BlockError::Refused(TiffError::BlockIndex)));
    let c = file(&[0], with(basic(1, 1, 8, 1), vec![shorts(259, &[7])]));
    assert_eq!(GeoTiff::open(&c).unwrap().block(&c, 0), Err(BlockError::Refused(TiffError::Compression(7))));
    let p = file(&[0], with(basic(1, 1, 8, 1), vec![shorts(317, &[9])]));
    assert_eq!(GeoTiff::open(&p).unwrap().block(&p, 0), Err(BlockError::Refused(TiffError::Predictor(9))));
    let l = file(&[0x80, 0x4b, 0x00], with(basic(1, 1, 8, 3), vec![shorts(259, &[5])]));
    assert_eq!(
        GeoTiff::open(&l).unwrap().block(&l, 0),
        Err(BlockError::Refused(TiffError::Lzw(LzwError::Undefined)))
    );
    assert_eq!(TiffError::BlockPastEnd(3).message(), "block 3 runs past the end of the file");
}

#[test]
fn a_palette_gives_colours() {
    let mut map = vec![0u16; 768];
    map[5] = 0x1200;
    map[256 + 5] = 0x3400;
    map[512 + 5] = 0x5600;
    let b = file(&[5], with(basic(1, 1, 8, 1), vec![shorts(262, &[3]), shorts(320, &map)]));
    let t = GeoTiff::open(&b).unwrap();
    assert_eq!(t.palette_colour(5), Some((0x12, 0x34, 0x56)));
    assert_eq!(t.palette_colour(999), Some((0, 0, 0)));
    assert!(!t.is_single_band());
}

#[test]
fn fields_are_checked_by_their_type() {
    let f = |more: Vec<Tag>| fails(&file(&[0; 4], with(more, vec![shorts(257, &[1])])));
    assert_eq!(f(vec![(256, 99, 1, vec![1, 0, 0, 0])]), TiffError::FieldType(99));
    assert_eq!(f(vec![doubles(256, &[1.0])]), TiffError::NotInteger(12));
    assert_eq!(f(vec![(256, 4, 4000, vec![0xff, 0xff, 0, 0])]), TiffError::PayloadOutOfRange);
    let scale = with(
        basic(1, 1, 8, 1),
        vec![ascii(33550, "scale"), doubles(33922, &[0.0; 6])],
    );
    assert_eq!(fails(&file(&[0], scale)), TiffError::NotFloat(2));
    assert_eq!(TiffError::FieldType(99).message(), "unsupported field type 99");
    assert_eq!(TiffError::NotFloat(2).message(), "field type 2 is not a float");
}
