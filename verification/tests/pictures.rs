use swath::frame::FrameError;
use swath::grid::{cell_index, quotient, two_to};
use swath::index::PingRecord;
use swath::layer::paint::{
    count_hits, filled, footprint, plane_kind, stamp, worth_writing, ImportError,
};
use swath::layer::preview::paste;
use swath::layer::{encode_codes, hex_colour, reaches, LayerGrid, PlaneKind, Ramp, NODATA};
use swath::mosaic::image::{encode_png, encode_png_grey, encode_png_rgba, Channels, ImageError};
use swath::mosaic::level::{next_tail, reference_level, spread, AGC_WINDOW};
use swath::mosaic::style::MosaicStyle;
use swath::mosaic::{planes, raster_size, read_planes, Raster};
use swath::waterfall::view::{
    busiest_times, for_bucket, image_width, lay_out, members, most_used_first, nearest, picks,
    settings,
};
use swath::waterfall::{pair_bands, pair_channels, time_order, Row};

fn raster() -> Raster {
    Raster {
        x0: 100,
        y0: 200,
        width: 2,
        height: 2,
        base_zoom: 10,
        value: vec![10, 20, 30, 40],
        cover: vec![1, 0, 2, 3],
    }
}

fn ping(time: f64, subsystem: u8, channel: u8) -> PingRecord {
    PingRecord {
        time: time.to_bits(),
        lat: 0,
        lon: 0,
        offset: 0,
        ping: 0,
        interval_ns: 0,
        heading: 0,
        depth: 0,
        altitude: 0,
        pitch: 0,
        roll: 0,
        f0: 0,
        f1: 0,
        nsamples: 0,
        validity: 0,
        file_id: 0,
        subsystem,
        channel,
        weight: 0,
        fmt: 0,
    }
}

#[test]
fn cells_are_numbered_row_by_row() {
    assert_eq!(two_to(10), 1024);
    assert_eq!(cell_index(1, 2, 3, 4), Some(7));
    assert_eq!(cell_index(3, 0, 3, 4), None);
    assert_eq!(cell_index(0, -1, 3, 4), None);
    assert_eq!(quotient(7, 2), 3);
    assert_eq!(quotient(-7, 2), -4);
}

#[test]
fn a_mosaic_is_read_under_the_cursor() {
    let r = raster();
    assert_eq!(r.cell_at(0, 0), Some(10));
    assert_eq!(r.cell_at(1, 0), None);
    assert_eq!(r.sample(101, 201), Some(40));
    assert_eq!(r.sample(102, 201), None);
}

#[test]
fn a_tile_at_its_own_zoom_shows_the_cells() {
    let r = raster();
    let t = r.tile(10, 0, 0).unwrap();
    assert_eq!(t.len(), 256 * 256 * 4);
    let at = |x: usize, y: usize| t[(y * 256 + x) * 4..(y * 256 + x) * 4 + 4].to_vec();
    assert_eq!(at(100, 200), vec![10, 10, 10, 255]);
    assert_eq!(at(101, 200)[3], 0);
    assert_eq!(at(101, 201), vec![40, 40, 40, 255]);
    assert!(r.tile(10, 5, 5).is_none());
}

#[test]
fn a_coarser_tile_shows_the_mean_and_a_finer_one_repeats() {
    let r = raster();
    let c = r.tile(9, 0, 0).unwrap();
    let p = (100 * 256 + 50) * 4;
    assert_eq!(c[p..p + 4].to_vec(), vec![26, 26, 26, 255]);
    let f = r.tile(11, 0, 1).unwrap();
    let at = |x: usize, y: usize| f[(y * 256 + x) * 4];
    assert_eq!((at(200, 144), at(201, 145), at(202, 146)), (10, 10, 40));
}

#[test]
fn a_raster_that_is_too_large_is_refused() {
    assert_eq!(raster_size(0, 9, 5, 5), Ok((10, 1)));
    assert_eq!(raster_size(0, 19_999, 1, 20_000), Ok((20_000, 20_000)));
    assert_eq!(raster_size(0, 20_000, 1, 20_000), Err((20_001, 20_000)));
}

#[test]
fn planes_are_counted_written_and_read() {
    let (v, c) = planes(&vec![Some(9), None, Some(0)], &vec![300, 4, 1]);
    assert_eq!(v, vec![9, 0, 0]);
    assert_eq!(c, vec![255, 0, 1]);
    let f = swath::mosaic::encode(b"{}", &v, &c);
    let at = swath::mosaic::find_header(&f).unwrap();
    assert_eq!(read_planes(&f, at, 3, 1), Some((v, c)));
    assert_eq!(read_planes(&f, at, 4, 1), None);
    assert_eq!(swath::mosaic::find_header(b"0123456789abcdef"), Err(FrameError::Magic));
}

#[test]
fn a_colouring_keeps_what_is_clear() {
    let s = MosaicStyle::default();
    assert!(s.is_grey());
    let lut: Vec<(u8, u8, u8)> = (0..=255u8).map(|i| (i, 255 - i, 7)).collect();
    let mut px = vec![10, 10, 10, 255, 20, 20, 20, 0];
    s.apply(&mut px, &lut);
    assert_eq!(px, vec![10, 10, 10, 255, 20, 20, 20, 0]);
    let t = MosaicStyle { ramp: Ramp::Ice, ..s };
    assert!(!t.is_grey());
    t.apply(&mut px, &lut);
    assert_eq!(px, vec![10, 245, 7, 255, 20, 20, 20, 0]);
    assert_eq!(s.colour_grey(&[0, 255], &lut), vec![0, 0, 0, 255, 255, 255, 255, 255]);
    assert_eq!(t.colour_grey(&[0, 255], &lut), vec![0, 255, 7, 255, 255, 0, 7, 255]);
}

#[test]
fn pictures_are_encoded() {
    let g = encode_png_grey(&[0, 128, 255, 7], 2, 2).unwrap();
    assert_eq!(g[..8].to_vec(), vec![0x89, 0x50, 0x4e, 0x47, 0x0d, 0x0a, 0x1a, 0x0a]);
    assert_eq!((g[24], g[25]), (8, 0));
    let decoder = png::Decoder::new(g.as_slice());
    let mut reader = decoder.read_info().unwrap();
    let mut buf = vec![0; reader.output_buffer_size()];
    reader.next_frame(&mut buf).unwrap();
    assert_eq!(buf, vec![0, 128, 255, 7]);
    assert_eq!(encode_png_grey(&[], 0, 0), Err(ImageError::Empty));
    assert_eq!(encode_png_grey(&[1, 2, 3], 2, 2), Err(ImageError::Length));
    assert_eq!(encode_png(&[1, 2, 3], 1, 1, Channels::Rgba), Err(ImageError::Length));
}

#[test]
fn a_picture_is_encoded_as_narrow_as_it_can_be() {
    let kind = |px: &[u8]| encode_png_rgba(px, 1, 1).unwrap()[25];
    assert_eq!(kind(&[9, 9, 9, 255]), 0);
    assert_eq!(kind(&[9, 9, 9, 100]), 4);
    assert_eq!(kind(&[9, 8, 7, 255]), 2);
    assert_eq!(kind(&[9, 8, 7, 100]), 6);
}

#[test]
fn a_ping_is_levelled_against_its_neighbours() {
    let b = |v: &[f32]| -> Vec<u32> { v.iter().map(|x| x.to_bits()).collect() };
    let tail = b(&[5.0, 1.0]);
    let levels = b(&[3.0, 0.0, 9.0, 2.0]);
    assert_eq!(reference_level(&tail, &levels, 0), Some(3.0f32.to_bits()));
    assert_eq!(reference_level(&tail, &levels, 1), None);
    assert_eq!(reference_level(&Vec::new(), &levels, 0), None);
    assert_eq!(reference_level(&Vec::new(), &b(&[0.0]), 0), None);
    let long: Vec<u32> = (0..100u32).map(|i| (i as f32).to_bits()).collect();
    let t = next_tail(&long);
    assert!(t.len() <= AGC_WINDOW);
    assert_eq!(t.last(), Some(&99.0f32.to_bits()));
    assert_eq!(spread(3, 10), vec![0, 1, 2]);
}

#[test]
fn ramps_go_by_their_names() {
    for r in Ramp::all() {
        assert!(Ramp::parse(r.name()) == Some(r));
        assert_eq!(r.stops()[0].0, 0);
        assert_eq!(r.stops().last().unwrap().0, 100);
    }
    assert!(Ramp::parse("mauve").is_none());
    assert_eq!(Ramp::all().len(), 8);
    assert!(Ramp::default() == Ramp::Depth || Ramp::all().contains(&Ramp::default()));
}

fn grid(off: usize) -> LayerGrid {
    LayerGrid { kind: PlaneKind::Value, x0: 0, y0: 0, width: 2, height: 2, base_zoom: 4, off }
}

#[test]
fn a_layer_is_read_under_the_cursor() {
    let plane = encode_codes(&vec![7, NODATA, 300, 65534]);
    let f = swath::layer::encode(b"{}", &plane);
    let at = swath::layer::find_header(&f).unwrap();
    let g = grid(at);
    assert_eq!(g.code(&f, 2), 300);
    assert_eq!(g.code(&f, 99), NODATA);
    assert_eq!(g.sample_code(&f, 0, 1), Some(300));
    assert_eq!(g.sample_code(&f, 1, 0), None);
    assert_eq!(g.sample_code(&f, 2, 0), None);
    assert_eq!(g.codes_at(&f, 4, 0, 0, 1, 1), vec![65534]);
    assert_eq!(g.codes_at(&f, 3, 0, 0, 0, 0), vec![7, 300, 65534]);
    assert_eq!(swath::layer::find_header(b"x"), Err(FrameError::Short));
}

#[test]
fn a_layer_of_colour_makes_tiles() {
    let plane = vec![10, 20, 30, 255, 0, 0, 0, 0, 50, 60, 70, 255, 1, 2, 3, 255];
    let f = swath::layer::encode(b"{}", &plane);
    let at = swath::layer::find_header(&f).unwrap();
    let g = LayerGrid { kind: PlaneKind::Rgba, ..grid(at) };
    let t = g.tile_rgba(&f, 4, 0, 0).unwrap();
    assert_eq!(t[0..4].to_vec(), vec![10, 20, 30, 255]);
    assert_eq!(t[4..8].to_vec(), vec![0, 0, 0, 0]);
    assert_eq!(t[1024..1028].to_vec(), vec![50, 60, 70, 255]);
    assert!(g.tile_rgba(&f, 4, 3, 3).is_none());
}

#[test]
fn an_import_says_why_it_failed() {
    assert!(ImportError::UnknownSystem { epsg: 4 }.message().contains('4'));
    for e in [ImportError::NoPosition, ImportError::NoExtent, ImportError::NothingLanded] {
        assert!(!e.message().is_empty());
    }
    assert!(plane_kind(true) == PlaneKind::Value);
    assert!(plane_kind(false) == PlaneKind::Rgba);
    assert!(worth_writing(10, 10, 12));
}

#[test]
fn pixels_are_stamped_into_the_plane() {
    let cells = footprint(0, 0, 2, 1, 3, 2);
    let mut plane = vec![0u8; 24];
    stamp(&mut plane, &cells, (1, 2, 3, 255));
    assert_eq!(filled(&plane), cells.len());
    let mut hits = vec![0u16, 65535, 0, 0, 0, 0];
    count_hits(&mut hits, &vec![0, 1, 0]);
    assert_eq!(hits, vec![2, 65535, 0, 0, 0, 0]);
}

#[test]
fn a_picture_is_put_together_from_tiles() {
    let mut img = vec![0u8; 2 * 1024 * 256];
    let tile = vec![9u8; 262144];
    paste(&mut img, 2, 1, &tile, 1, 0);
    assert_eq!(img[1023], 0);
    assert_eq!(img[1024], 9);
    assert_eq!(img[2047], 9);
    assert_eq!(img[2048], 0);
    assert_eq!(img.iter().filter(|b| **b == 9).count(), 262144);
}

#[test]
fn the_two_sides_of_a_row_are_mirrored() {
    assert_eq!(lay_out(&vec![1, 2, 3], &vec![4, 5, 6]), vec![3, 2, 1, 4, 5, 6]);
    assert_eq!(image_width(3), 16);
    assert_eq!(image_width(101) % 2, 0);
    assert_eq!(picks(1, 5, 2, 100), vec![1, 3, 5]);
    assert_eq!(picks(1, 50, 2, 4), vec![1, 3]);
}

#[test]
fn the_row_nearest_in_time_is_found() {
    let k = |x: f64| Some(x.to_bits());
    assert_eq!(nearest(&vec![None, k(3.0), k(0.5), k(0.5), None]), Some(2));
    assert_eq!(nearest(&vec![None, None]), None);
}

#[test]
fn bands_share_their_rows() {
    let rs = vec![ping(0.0, 20, 0), ping(0.0, 20, 1), ping(0.01, 21, 0), ping(1.0, 20, 0)];
    let p = time_order(&rs);
    assert_eq!(p, vec![0, 1, 2, 3]);
    let late = vec![3, 3, 3, 4];
    let rows = pair_bands(&vec![20, 21], &rs, &p, &late);
    assert_eq!(rows.len(), 2);
    let low = pair_channels(&rows, 0);
    let high = pair_channels(&rows, 1);
    assert_eq!(low.len(), 2);
    assert_eq!(low[0], Row { port: Some(0), stbd: Some(1), at: 0 });
    assert_eq!(low[1].own(), Some(3));
    assert_eq!(high[0], Row { port: Some(2), stbd: None, at: 0 });
    assert_eq!(high[1], Row { port: None, stbd: None, at: 3 });
}

#[test]
fn every_ping_has_one_slot_and_rows_are_in_time() {
    let rs = vec![
        ping(2.0, 21, 1),
        ping(0.0, 20, 0),
        ping(1.0, 20, 1),
        ping(0.0, 21, 0),
        ping(1.0, 20, 1),
        ping(2.0, 20, 0),
    ];
    let p = time_order(&rs);
    assert_eq!(p, vec![1, 3, 2, 4, 0, 5]);
    let rows = pair_bands(&vec![20, 21], &rs, &p, &vec![2, 2, 4, 4, 6, 6]);
    let held = |i: u32| {
        rows.iter().flatten().flat_map(|r| [r.port, r.stbd]).filter(|s| *s == Some(i)).count()
    };
    assert_eq!((0..6).map(held).collect::<Vec<_>>(), vec![1; 6]);
    let at: Vec<f64> = rows.iter().map(|r| f64::from_bits(rs[r[0].at as usize].time)).collect();
    assert_eq!(at, vec![0.0, 1.0, 1.0, 2.0]);
}

#[test]
fn settings_are_grouped_by_use() {
    let b = vec![Some(4), None, Some(2), Some(4)];
    assert_eq!(settings(&b), vec![4, 2]);
    assert_eq!(members(&b, 4), vec![0, 3]);
    assert_eq!(most_used_first(&vec![1, 5, 5]), vec![1, 2, 0]);
    assert_eq!(for_bucket(&vec![4, 2], 2), Some(1));
    let rs = vec![ping(0.0, 20, 0), ping(1.0, 21, 0), ping(2.0, 21, 0)];
    assert_eq!(
        busiest_times(&rs, &vec![(20, 0), (21, 0)]),
        vec![1.0f64.to_bits(), 2.0f64.to_bits()]
    );
}

#[test]
fn a_tile_may_be_out_of_reach() {
    assert!(reaches(10, 10, 0, 0));
    assert!(reaches(10, 12, 400, 100));
    assert!(!reaches(10, 10, i64::MAX, 0));
    assert!(raster().reaches(10, 0, 0));
    assert!(!raster().reaches(10, i64::MAX, 0));
}

#[test]
fn a_colour_is_written_in_hexadecimal() {
    assert_eq!(hex_colour(0, 10, 255), "#000aff");
    assert_eq!(hex_colour(240, 180, 41), "#f0b429");
}
