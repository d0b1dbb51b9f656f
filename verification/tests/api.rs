use swath::api::browse::{listing, put_on_top, Entry};
use swath::api::cache::{source, tile_sources, BlockCache, TileCache, BLANK_PNG, BLOCK_CACHE, MISS_TTL_S};
use swath::api::encode::b64;
use swath::api::gate::{needs, Gate, Need};
use swath::api::near::{
    coarse_rows, every, fine_rows, is_found, nothing_found, stride, sweep, Best,
};
use swath::api::route::{route, Action};
use swath::api::step::{load, mosaic, raster, LoadStep, MosaicStep, RasterStep, Settings};
use swath::api::{
    channel_of, codes, image_name, import_request, import_status, importable, last_project,
    layer_id, mosaic_style_from_query, q_num, q_ramp, q_switch, safe_name, snap_asked_for,
    snap_file, Body, ImportRefusal, Response, SnapKind,
};
use swath::layer::Ramp;
use swath::project::moves::RefusedKind;
use swath::project::Placement;
use swath::server::url::{split_query, Query};

fn chars(s: &str) -> Vec<char> {
    s.chars().collect()
}

fn settings(s: &str) -> Query {
    split_query(s).1
}

fn names(v: &Vec<Vec<char>>) -> Vec<String> {
    v.iter().map(|c| c.iter().collect()).collect()
}

#[test]
fn base_64_has_three_endings() {
    assert_eq!(b64(b""), "");
    assert_eq!(b64(b"f"), "Zg==");
    assert_eq!(b64(b"fo"), "Zm8=");
    assert_eq!(b64(b"foo"), "Zm9v");
    assert_eq!(b64(b"foobar"), "Zm9vYmFy");
    assert_eq!(b64(&[0xfb, 0xff, 0xfe]), "+//+");
}

#[test]
fn requests_are_told_apart() {
    let r = |m: &str, p: &str| route(m, p);
    assert_eq!(r("GET", "/api/state").0, Action::State);
    assert_eq!(r("POST", "/api/state").0, Action::Unknown);
    assert_eq!(r("GET", "/api/waterfall/abc.png").0, Action::Block);
    assert_eq!(r("POST", "/api/waterfall").0, Action::Waterfall);
    assert_eq!(r("POST", "/api/waterfall/pick").0, Action::Pick);
    assert_eq!(r("GET", "/api/plan").0, Action::Plan);
    assert_eq!(r("POST", "/api/plan").0, Action::SetPlan);
    assert_eq!(r("DELETE", "/api/contacts/C001").0, Action::DropContact);
    assert_eq!(r("GET", "/api/report/").0, Action::Report);
    assert_eq!(r("GET", "/api/report/extra").0, Action::Unknown);
    assert_eq!(r("GET", "/other").0, Action::Unknown);
}

#[test]
fn a_request_names_what_it_is_about() {
    let (a, v) = route("GET", "/api/mosaic/north/20/17/1/2.png");
    assert_eq!(a, Action::MosaicTile);
    assert_eq!(names(&v), vec!["north", "20", "17", "1", "2.png"]);
    let (b, w) = route("GET", "/api/dataset/north/track");
    assert_eq!(b, Action::Track);
    assert_eq!(names(&w), vec!["north"]);
    let (c, x) = route("POST", "/api/contacts/C007/snapshot");
    assert_eq!(c, Action::Snapshot);
    assert_eq!(names(&x), vec!["C007"]);
    assert!(route("GET", "/api/state").1.is_empty());
    assert!(route("GET", "/nothing/here").1.is_empty());
}

#[test]
fn an_error_says_what_it_was() {
    let r = Response::err(400, "bad \"name\"\n\u{1}");
    assert_eq!(r.status, 400);
    assert_eq!(r.content_type(), "application/json");
    assert_eq!(r.bytes(), b"{\"error\":\"bad \\\"name\\\"\\n\\u0001\"}".to_vec());
    let s = Response::err(500, "a\\b\t\u{8}\u{c}\r\u{1f}\u{e9}/");
    assert_eq!(
        String::from_utf8(s.bytes()).unwrap(),
        "{\"error\":\"a\\\\b\\t\\b\\f\\r\\u001f\u{e9}/\"}"
    );
}

#[test]
fn answers_carry_their_kind() {
    assert_eq!(Response::json("{}".to_string()).content_type(), "application/json");
    assert_eq!(Response::html("x".to_string()).content_type(), "text/html; charset=utf-8");
    let p = Response::png(vec![1, 2], 60);
    assert_eq!((p.status, p.cache_s, p.content_type()), (200, 60, "image/png"));
    assert_eq!(p.bytes(), vec![1, 2]);
    let w = Response::pending();
    assert_eq!((w.status, w.cache_s), (202, 0));
    assert_eq!(w.bytes(), BLANK_PNG.to_vec());
    let n = Response::not_found();
    assert_eq!((n.status, n.content_type()), (404, "text/plain"));
    assert!(n.bytes().is_empty());
    assert_eq!(Response::raw(vec![7], "font/woff2", 0).content_type(), "font/woff2");
    assert_eq!(Response::json("{}".to_string()).with_status(409).status, 409);
    let t = Response { status: 200, body: Body::Text("\u{e9}".to_string()), cache_s: 0 };
    assert_eq!(t.content_type(), "text/plain; charset=utf-8");
    assert_eq!(t.bytes(), vec![0xc3, 0xa9]);
}

#[test]
fn settings_of_a_request_are_read() {
    let q = settings("/x?max=300&n=007&big=256&ramp=ice&reverse=true&off=0&subsystem=21");
    assert_eq!(q_num(&q, "max", u64::MAX), Some(300));
    assert_eq!(q_num(&q, "n", u64::MAX), Some(7));
    assert_eq!(q_num(&q, "big", 255), None);
    assert_eq!(q_num(&q, "ramp", u64::MAX), None);
    assert_eq!(q_num(&q, "missing", u64::MAX), None);
    assert_eq!(channel_of(&q, &vec![20, 22]), 21);
    assert_eq!(channel_of(&settings("/x"), &vec![22, 20]), 22);
    assert_eq!(channel_of(&settings("/x"), &Vec::new()), 20);
    assert!(q_switch(&q, "reverse", false));
    assert!(!q_switch(&q, "off", true));
    assert!(q_switch(&q, "missing", true));
    assert!(q_ramp(&q, Ramp::Grey) == Ramp::Ice);
    assert!(q_ramp(&settings("/x?ramp=mauve"), Ramp::Turbo) == Ramp::Turbo);
}

#[test]
fn a_mosaic_is_coloured_as_asked() {
    let s = mosaic_style_from_query(&settings("/x?ramp=amber&reverse=1"), Some(10), None);
    assert!(s.ramp == Ramp::Amber && s.reverse);
    assert_eq!((s.lo, s.hi), (10, 255));
    assert!(mosaic_style_from_query(&settings("/x"), None, None).is_grey());
}

#[test]
fn coordinate_systems_come_as_a_list() {
    assert_eq!(codes("4326, 32631,x,,+28992"), vec![4326, 32631, 28992]);
    assert_eq!(codes(""), Vec::<u32>::new());
}

#[test]
fn pictures_of_contacts_have_their_files() {
    let k = |s: &str| SnapKind::from_query(&settings(s));
    assert_eq!(k("/x"), Some(SnapKind::MapView));
    assert_eq!(k("/x?kind="), Some(SnapKind::MapView));
    assert_eq!(k("/x?kind=map"), Some(SnapKind::MapView));
    assert_eq!(k("/x?kind=waterfall"), Some(SnapKind::Waterfall));
    assert_eq!(k("/x?kind=lf"), Some(SnapKind::Low));
    assert_eq!(k("/x?kind=hf"), Some(SnapKind::High));
    assert_eq!(k("/x?kind=wf-lf"), Some(SnapKind::WaterfallLow));
    assert_eq!(k("/x?kind=wf-hf"), Some(SnapKind::WaterfallHigh));
    assert_eq!(k("/x?kind=other"), None);
    assert_eq!(snap_file(&chars("C001"), SnapKind::MapView), "C001.png");
    assert_eq!(snap_file(&chars("C001"), SnapKind::WaterfallHigh), "C001-wf-hf.png");
    assert_eq!(snap_asked_for(&chars("C001.png"), SnapKind::Low), "C001-lf.png");
}

#[test]
fn each_picture_has_its_place() {
    let all = SnapKind::all();
    assert_eq!(all.len(), 6);
    for (i, k) in all.iter().enumerate() {
        assert_eq!(k.slot(), i);
        assert_eq!(SnapKind::from_query(&split_query(&format!("/x?kind={}", k.name())).1), Some(*k));
    }
    assert_eq!(SnapKind::High.slot(), 3);
    assert_eq!(SnapKind::WaterfallLow.name(), "wf-lf");
}

#[test]
fn names_are_made_safe() {
    assert_eq!(safe_name("SEARCH 045T/../x.\u{e9}"), "SEARCH_045T____x__");
    assert_eq!(safe_name("a-b_C9"), "a-b_C9");
    assert!(image_name(&chars("chart-1_a.b")));
    assert!(!image_name(&chars("")));
    assert!(!image_name(&chars("a..b")));
    assert!(!image_name(&chars("a/b")));
    assert!(image_name(&vec!['a'; 120]));
    assert!(!image_name(&vec!['a'; 121]));
}

#[test]
fn files_are_imported_by_their_ending() {
    assert_eq!(importable("/a/b.TIFF"), Some("raster"));
    assert_eq!(importable("b.gtif"), Some("raster"));
    assert_eq!(importable("c.gpx"), Some("vector"));
    assert_eq!(importable("c.txt"), None);
    assert_eq!(importable(".gpx"), None);
    assert_eq!(layer_id("raster", "0123456789abcdef"), "raster:0123456789");
}

#[test]
fn recordings_are_brought_in_under_a_name() {
    match import_request(None, "/media/card/2024-05 North/", None) {
        Ok((n, p)) => {
            assert_eq!(n, "2024-05 North");
            assert!(p == Placement::Link);
        }
        Err(_) => panic!("a name"),
    }
    match import_request(Some("  "), "/media/x", Some("copy")) {
        Ok((n, p)) => assert!(n == "x" && p == Placement::Copy),
        Err(_) => panic!("a name"),
    }
    assert!(matches!(import_request(Some("a"), "/b", Some("move")), Ok((_, Placement::Move))));
    assert!(matches!(import_request(Some(".."), "/b", None), Err(ImportRefusal::NoName)));
    match import_request(Some("a"), "/b", Some("steal")) {
        Err(ImportRefusal::UnknownMode(m)) => assert_eq!(m, "steal"),
        _ => panic!("a refusal"),
    }
    assert_eq!(import_status(RefusedKind::AlreadyExists), 409);
    assert_eq!(import_status(RefusedKind::NotFound), 422);
}

#[test]
fn the_last_project_is_remembered() {
    assert_eq!(last_project(" North Sea\n"), Some("North Sea".to_string()));
    assert_eq!(last_project(" \n"), None);
}

#[test]
fn chart_tiles_have_an_address_and_a_place() {
    assert_eq!(
        TileCache::url("osm", 3, 1, 2),
        Some("https://tile.openstreetmap.org/3/1/2.png".to_string())
    );
    assert_eq!(
        TileCache::url("contour", 12, -1, 2),
        Some("https://tiles.openseamap.org/contour/12/-1/2.png".to_string())
    );
    assert_eq!(TileCache::url("mars", 3, 1, 2), None);
    let c = TileCache::new("/w/out/tilecache".to_string());
    assert_eq!(c.path("osm", 3, 1, 2), "/w/out/tilecache/osm/3/1/2.png");
    assert_eq!(tile_sources().len(), 5);
    for n in tile_sources() {
        assert!(source(&n).is_some());
    }
}

#[test]
fn a_miss_is_not_believed_for_ever() {
    let c = TileCache::new("/t".to_string());
    assert_eq!(c.get("osm", Some(vec![1]), u64::MAX), Some(vec![1]));
    assert_eq!(c.get("osm", Some(BLANK_PNG.to_vec()), MISS_TTL_S), Some(BLANK_PNG.to_vec()));
    assert_eq!(c.get("osm", Some(BLANK_PNG.to_vec()), MISS_TTL_S + 1), None);
    assert_eq!(c.get("osm", Some(Vec::new()), 0), None);
    assert_eq!(c.get("osm", None, 0), None);
    assert_eq!(c.get("mars", Some(vec![1]), 0), None);
}

#[test]
fn the_block_unused_for_longest_is_given_up() {
    let mut c: BlockCache<usize> = BlockCache::new();
    assert!(c.is_empty());
    let mut i: usize = 0;
    while i < BLOCK_CACHE {
        c.insert(format!("k{i}"), i);
        i += 1;
    }
    assert_eq!(c.get("k0"), Some(&0));
    c.insert("new".to_string(), 99);
    assert_eq!(c.len(), BLOCK_CACHE);
    assert_eq!(c.peek("k1"), None);
    assert_eq!(c.peek("k0"), Some(&0));
    assert_eq!(c.peek("new"), Some(&99));
    c.insert("k0".to_string(), 7);
    assert_eq!(c.len(), BLOCK_CACHE);
    assert_eq!(c.peek("k0"), Some(&7));
    assert_eq!(c.get("gone"), None);
}

#[test]
fn a_track_is_thinned() {
    assert_eq!(stride(100, 10), 10);
    assert_eq!(stride(5, 4000), 1);
    assert_eq!(stride(5, 0), 5);
    assert_eq!(stride(0, 0), 1);
    assert_eq!(every(7, 3), vec![0, 3, 6]);
    assert_eq!(every(0, 3), Vec::<usize>::new());
}

#[test]
fn the_nearest_ping_is_found_in_two_sweeps() {
    let n: usize = 8000;
    let at = |i: usize| -> u64 { (i as f64 - 4321.0).abs().to_bits() };
    let rows = coarse_rows(n);
    assert_eq!(rows.len(), 4000);
    let d: Vec<u64> = rows.iter().map(|&i| at(i)).collect();
    let first = sweep(nothing_found(), &rows, &d);
    assert_eq!(first.row, 4320);
    let near = fine_rows(first.row, n);
    assert_eq!(near, vec![4318, 4319, 4320, 4321, 4322]);
    let e: Vec<u64> = near.iter().map(|&i| at(i)).collect();
    let best = sweep(first, &near, &e);
    assert_eq!(best, Best { row: 4321, distance: 0 });
    assert!(is_found(best));
    assert_eq!(fine_rows(0, 3), vec![0, 1]);
}

#[test]
fn pings_without_a_position_are_not_found() {
    let far = f64::MAX.to_bits();
    let b = sweep(nothing_found(), &vec![0, 1], &vec![far, f64::NAN.to_bits()]);
    assert!(!is_found(b));
}

#[test]
fn a_directory_is_listed_by_name() {
    let e = |n: &str, d: bool| Entry { name: n.to_string(), is_dir: d };
    let all = vec![
        e("zeta", true),
        e("b.gpx", false),
        e(".hidden", true),
        e("a.tif", false),
        e("alpha", true),
        e("notes.txt", false),
        e(".x.gpx", false),
    ];
    let l = listing(&all, false);
    assert_eq!(l.dirs, vec![4, 0]);
    assert_eq!(l.files, vec![(3, "raster"), (1, "vector")]);
    let r = listing(&all, true);
    assert_eq!(r.dirs, vec![4, 0]);
    assert!(r.files.is_empty());
}

#[test]
fn an_imported_layer_goes_on_top_once() {
    let v = vec![("a".to_string(), 1), ("b".to_string(), 2), ("a".to_string(), 3)];
    assert_eq!(
        put_on_top(v, "a".to_string(), 9),
        vec![("a".to_string(), 9), ("b".to_string(), 2)]
    );
}

#[test]
fn a_recording_is_loaded_the_cheapest_way() {
    let s = |a: &str, b: &str| Settings { nav: a.to_string(), mosaic: b.to_string() };
    let want = s("n", "m");
    assert_eq!(load(&Some(s("n", "m")), &want, false, None), LoadStep::Ready);
    assert_eq!(load(&Some(s("n", "x")), &want, true, None), LoadStep::ReadIndex);
    assert_eq!(load(&None, &want, true, Some(3)), LoadStep::ReadIndex);
    assert_eq!(load(&None, &want, false, Some(3)), LoadStep::BuildIndex);
    assert_eq!(load(&None, &want, false, Some(0)), LoadStep::NoFiles);
    assert_eq!(load(&None, &want, false, None), LoadStep::NoDataset);
    assert_eq!(mosaic(true, false), MosaicStep::Ready);
    assert_eq!(mosaic(false, true), MosaicStep::Kept);
    assert_eq!(mosaic(false, false), MosaicStep::Paint);
    assert_eq!(raster(true, false, false), RasterStep::Ready);
    assert_eq!(raster(false, false, true), RasterStep::NoLayer);
    assert_eq!(raster(false, true, true), RasterStep::Kept);
    assert_eq!(raster(false, true, false), RasterStep::Resample);
}

fn body_of(r: Response) -> String {
    match r.body {
        Body::Json(s) => s,
        _ => String::new(),
    }
}

#[test]
fn a_request_is_refused_for_what_it_lacks_first() {
    let mut g = Gate::new(Action::Nearest);
    assert!(g.check(true, "").is_none());
    let r = g.check(false, "").unwrap();
    assert_eq!(r.status, 404);
    assert_eq!(body_of(r), "{\"error\":\"not loaded\"}");
    assert!(g.check(true, "").is_none());
    assert!(g.check(true, "").is_none());
    let r = g.check(false, "").unwrap();
    assert_eq!((r.status, body_of(r)), (404, "{\"error\":\"no positioned pings\"}".to_string()));
}

#[test]
fn work_that_fails_says_why() {
    let mut g = Gate::new(Action::OpenProject);
    assert!(g.check(true, "").is_none() && g.check(true, "").is_none());
    let r = g.check(false, "no \"such\" file").unwrap();
    assert_eq!((r.status, body_of(r)), (404, "{\"error\":\"no \\\"such\\\" file\"}".to_string()));
    assert!(g.check(true, "").is_none());
    assert!(g.check(false, "").is_none());
}

#[test]
fn what_is_unknown_is_not_found() {
    let r = Gate::new(Action::Unknown).check(false, "").unwrap();
    assert_eq!(r.status, 404);
    assert!(matches!(r.body, Body::Empty));
    assert!(Gate::new(Action::Projects).check(false, "").is_none());
}

#[test]
fn every_refusal_has_its_status() {
    let told = |n: Need| {
        let r = n.refusal("said");
        (r.status, body_of(r))
    };
    assert_eq!(told(Need::Json), (400, "{\"error\":\"bad json\"}".to_string()));
    assert_eq!(told(Need::ProjectToFill), (409, "{\"error\":\"open or create a project first\"}".to_string()));
    assert_eq!(told(Need::ProjectToChange), (409, "{\"error\":\"no project open\"}".to_string()));
    assert_eq!(told(Need::OpenProject), (400, "{\"error\":\"no project open\"}".to_string()));
    assert_eq!(told(Need::Importable).0, 415);
    assert_eq!(told(Need::Points).0, 422);
    assert_eq!(told(Need::Block), (404, "{\"error\":\"block has been evicted; ask again\"}".to_string()));
    assert_eq!(told(Need::Work(403)), (403, "{\"error\":\"said\"}".to_string()));
    assert_eq!(needs(Action::ImportLayer).len(), 9);
    assert_eq!(needs(Action::Snapshot), vec![Need::OpenProject, Need::Work(500), Need::SnapKind, Need::Work(500)]);
    assert_eq!(needs(Action::Ramps), vec![]);
}

#[test]
fn an_import_says_why_it_is_refused() {
    assert_eq!(ImportRefusal::NoName.message(), "a recording needs a name");
    assert_eq!(ImportRefusal::UnknownMode("burn".to_string()).message(), "unknown mode burn");
}
