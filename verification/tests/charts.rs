use swath::crs::{get, hemisphere, suggestions, utm_epsg, utm_name};
use swath::gpx::scan::{attr, escape, scan, unescape};
use swath::gpx::{iso_parts, parse, Gpx, Line, Point, Waypoint};
use swath::nav::{fix_order, segments, stretches, SegmentKind};
use swath::plan::chart::{gaps, leg_parts, Ahead, LegPart};
use swath::plan::export::{export_file, export_options, index_page, Listed, Wishes, Written};
use swath::plan::route::{default_name, digest, to_gpx, GpxOptions, Place, PlanText, RunText, Settings, TargetText};
use swath::plan::{
    count_coverage, hms, is_forward, judge, line_count, line_skip, promises_two_looks,
    regime_name, run_order, worst_verdict, Direction, Looks, Order, Regime, Verdict,
};

fn point(lat: &str, lon: &str) -> Point {
    Point {
        lat: lat.to_string(),
        lon: lon.to_string(),
        ele: None,
        time: None,
        name: String::new(),
        desc: String::new(),
    }
}

fn read(s: &str) -> Option<Gpx> {
    let e = scan(s);
    let ok: Vec<bool> = e
        .iter()
        .map(|x| {
            let n = |v: &Option<String>, max: f64| match v {
                Some(t) => t.parse::<f64>().map(|d| d.is_finite() && d.abs() <= max).unwrap_or(false),
                None => false,
            };
            n(&x.lat, 90.0) && n(&x.lon, 180.0)
        })
        .collect();
    parse(&e, &ok)
}

#[test]
fn a_file_of_positions_is_read() {
    let g = read(
        "<?xml version=\"1.0\"?><gpx><metadata><name>A &amp; B</name></metadata>\
         <wpt lat=\"52.5\" lon=\"4.0\"><name>W</name></wpt>\
         <trk><name>T</name><trkseg><trkpt lat=\"1\" lon=\"2\"><ele>5</ele></trkpt>\
         <trkpt lat=\"95\" lon=\"2\"/><trkpt lat=\"3\" lon=\"4\"/></trkseg></trk>\
         <rte><name>R</name><rtept lat=\"5\" lon=\"6\"><name>P</name></rtept></rte></gpx>",
    )
    .unwrap();
    assert_eq!(g.name, "A & B");
    assert_eq!(g.tracks.len(), 1);
    assert_eq!(g.tracks[0].name, "T");
    assert_eq!(g.tracks[0].points.len(), 2);
    assert_eq!(g.tracks[0].points[0].ele.as_deref(), Some("5"));
    assert_eq!(g.routes[0].points[0].name, "P");
    assert_eq!(g.waypoints[0].name, "W");
    assert_eq!(g.points(), 4);
    assert_eq!(g.describe("1.25"), "1 track · 1 route · 1 waypoint · 1.25 km");
    assert!(read("<kml></kml>").is_none());
}

#[test]
fn what_is_written_is_read_again() {
    let g = Gpx {
        name: "N <1>".to_string(),
        desc: "d".to_string(),
        tracks: vec![Line { name: "t".to_string(), points: vec![point("1.0", "2.0"), point("3.0", "4.0")] }],
        routes: vec![Line { name: "r".to_string(), points: vec![point("5.5", "6.5")] }],
        waypoints: vec![Waypoint {
            name: "w".to_string(),
            desc: "x & y".to_string(),
            lat: "7.0".to_string(),
            lon: "8.0".to_string(),
            ele: None,
        }],
    };
    let r = read(&swath::gpx::writer::write(&g)).unwrap();
    assert_eq!(r.name, g.name);
    assert_eq!(r.desc, g.desc);
    assert_eq!(r.tracks[0].points[1].lon, "4.0");
    assert_eq!(r.routes[0].name, "r");
    assert_eq!(r.waypoints[0].desc, "x & y");
}

#[test]
fn marks_are_escaped_and_resolved() {
    assert_eq!(escape("a<b>&\"c'"), "a&lt;b&gt;&amp;&quot;c&apos;");
    assert_eq!(unescape(&escape("a<b>&\"c'")), "a<b>&\"c'");
    let a: Vec<char> = "lat=\"52.5\" lon='4'".chars().collect();
    assert_eq!(attr(&a, "lat"), Some("52.5".to_string()));
    assert_eq!(attr(&a, "lon"), Some("4".to_string()));
    assert_eq!(attr(&a, "ele"), None);
}

#[test]
fn stamps_are_taken_apart() {
    let s = iso_parts(" 2024-02-29T12:34:56.5Z ").unwrap();
    assert_eq!(s.days, 19782);
    assert_eq!((s.h.as_str(), s.mi.as_str(), s.se.as_str()), ("12", "34", "56.5"));
    assert!(iso_parts("2024-02-29").is_none());
    assert!(iso_parts("x-y-zT1:2:3").is_none());
}

#[test]
fn stamps_tell_how_far_from_greenwich_they_are() {
    let offset = |s: &str| iso_parts(s).unwrap().offset;
    assert_eq!(offset("2001-09-09T01:46:40Z"), 0);
    assert_eq!(offset("2001-09-09T03:46:40+02:00"), 120);
    assert_eq!(offset("2001-09-08T20:16:40-05:30"), -330);
    assert_eq!(offset("2001-09-09T01:46:40"), 0);
    let s = iso_parts("2001-09-09T03:46:40.25+02:00").unwrap();
    assert_eq!((s.h.as_str(), s.mi.as_str(), s.se.as_str()), ("03", "46", "40.25"));
}

#[test]
fn what_is_no_number_or_time_is_left_out() {
    let g = read(
        "<gpx><wpt lat=\"1\" lon=\"2\"><ele>high</ele></wpt><trk><trkseg>\
         <trkpt lat=\"1\" lon=\"2\"><ele>-3.5</ele><time>2024-01-01T00:00:00Z</time></trkpt>\
         <trkpt lat=\"1\" lon=\"2\"><ele>3 m</ele><time>noon</time></trkpt></trkseg></trk></gpx>",
    )
    .unwrap();
    let p = &g.tracks[0].points;
    assert_eq!(p[0].ele.as_deref(), Some("-3.5"));
    assert_eq!(p[0].time.as_deref(), Some("2024-01-01T00:00:00Z"));
    assert_eq!((&p[1].ele, &p[1].time), (&None, &None));
    assert_eq!(g.waypoints[0].ele, None);
}

#[test]
fn empty_lines_and_outer_spaces_are_read_again() {
    let g = Gpx {
        name: " N ".to_string(),
        desc: "\tx\n".to_string(),
        tracks: vec![Line { name: " t".to_string(), points: vec![] }],
        routes: vec![Line { name: "r ".to_string(), points: vec![] }],
        waypoints: vec![Waypoint {
            name: " ".to_string(),
            desc: "&#32;".to_string(),
            lat: "7".to_string(),
            lon: "8".to_string(),
            ele: Some("1e3".to_string()),
        }],
    };
    let r = read(&swath::gpx::writer::write(&g)).unwrap();
    assert_eq!((r.name.as_str(), r.desc.as_str()), (" N ", "\tx\n"));
    assert_eq!((r.tracks.len(), r.routes.len()), (1, 1));
    assert_eq!((r.tracks[0].name.as_str(), r.tracks[0].points.len()), (" t", 0));
    assert_eq!((r.routes[0].name.as_str(), r.routes[0].points.len()), ("r ", 0));
    assert_eq!((r.waypoints[0].name.as_str(), r.waypoints[0].desc.as_str()), (" ", "&#32;"));
    assert_eq!(r.waypoints[0].ele.as_deref(), Some("1e3"));
    assert_eq!(escape(" a b "), "&#32;a b&#32;");
    assert_eq!(unescape("&#32;a&#9;&#65;&amp;#32;"), " a&#9;&#65;&#32;");
    assert_eq!(unescape("a&#32;b"), "a&#32;b");
    assert_eq!(unescape("&#9;a&#32;b&#32;"), "\ta&#32;b ");
    assert_eq!(unescape("&#32;&#32;"), "  ");
    assert_eq!(unescape("&#32;"), " ");
}

#[test]
fn coordinate_systems_are_known_by_code() {
    let c = get(32631).unwrap();
    assert_eq!(c.name, "UTM zone 31N");
    assert_eq!((c.axes.0.as_str(), c.unit.as_str(), c.decimals), ("Easting", "m", 2));
    assert!(get(4326).unwrap().is_geographic());
    assert_eq!(get(28992).unwrap().decimals, 3);
    assert!(get(1).is_none());
    assert_eq!(utm_name(0, false), "UTM zone 1S");
    assert_eq!(utm_name(61, true), "UTM zone 60N");
    assert_eq!(utm_epsg(31, false), 32731);
    assert_eq!(suggestions(31, true, true, true), vec![4326, 32631, 28992, 3035, 23031]);
    assert_eq!(suggestions(10, false, false, false), vec![4326, 32710]);
}

#[test]
fn a_track_is_cut_into_lines_and_turns() {
    let s = stretches(&vec![true, true, false, true]);
    assert_eq!(s.len(), 3);
    assert_eq!((s[0].first, s[0].last, s[0].straight), (0, 1, true));
    let v = segments(&s, &vec![true, false, true]);
    assert_eq!(v.first().map(|x| x.kind), Some(SegmentKind::Line));
    assert_eq!(v.last().map(|x| x.index1), Some(3));
    let s = stretches(&vec![false, true, false, true, true, false]);
    let v = segments(&s, &vec![true, false, true, true, true]);
    let parts: Vec<_> = v.iter().map(|x| (x.kind, x.index0, x.index1)).collect();
    assert_eq!(
        parts,
        vec![
            (SegmentKind::Turn, 0, 2),
            (SegmentKind::Line, 3, 4),
            (SegmentKind::Turn, 5, 5)
        ]
    );
    assert!(fix_order(&Vec::new()).is_empty());
}

#[test]
fn every_line_is_run_once() {
    assert_eq!(line_count(3, false), 4);
    assert_eq!(line_count(0, false), 2);
    assert_eq!(line_count(3, true), 6);
    assert_eq!(run_order(7, 3), vec![0, 3, 6, 1, 4, 2, 5]);
    assert_eq!(run_order(3, 1), vec![0, 1, 2]);
    assert_eq!(line_skip(Order::Skip, Direction::Alternate, 4), 4);
    assert_eq!(line_skip(Order::Skip, Direction::OneWay, 4), 1);
    assert_eq!(line_skip(Order::Sequential, Direction::Alternate, 4), 1);
    assert!(is_forward(Direction::OneWay, 3));
    assert!(!is_forward(Direction::Alternate, 3));
    assert!(promises_two_looks(Regime::Double, false));
    assert!(!promises_two_looks(Regime::Full, true));
}

#[test]
fn places_are_judged_by_their_looks() {
    let c = count_coverage(&vec![0, 1, 2, 3]);
    assert_eq!((c.none, c.once, c.twice, c.worst), (1, 3, 2, 0));
    let l = |looks: usize, good: usize, pos: usize, neg: usize| Looks { looks, good, pos, neg };
    assert!(judge(&vec![l(2, 1, 1, 1)]).verdict == Verdict::Good);
    assert!(judge(&vec![l(1, 1, 1, 0)]).verdict == Verdict::Thin);
    assert!(judge(&vec![l(0, 0, 0, 0)]).verdict == Verdict::Missed);
    assert!(worst_verdict(&vec![Verdict::Good, Verdict::Missed, Verdict::Thin]) == Verdict::Missed);
    assert_eq!(hms(59), "59 min");
    assert_eq!(hms(125), "2 h 05 min");
    assert!(!regime_name(Regime::Recon).is_empty());
}

#[test]
fn a_leg_is_drawn_in_parts() {
    let a = Ahead { run_in: true, covered: true, short_from_covered: true, short_from_enter: true, run_out: false };
    assert!(leg_parts(a) == vec![LegPart::RunIn, LegPart::Line, LegPart::Short]);
    assert_eq!(LegPart::RunOut.name(), "runout");
    assert_eq!(gaps(&vec![true, false, true, true]), vec![(0, 1), (2, 4)]);
    assert_eq!(gaps(&vec![false]), Vec::<(usize, usize)>::new());
}

fn place(lat: &str, lon: &str) -> Place {
    Place { lat: lat.to_string(), lon: lon.to_string() }
}

fn plan() -> PlanText {
    PlanText {
        azimuth: "045".to_string(),
        digest: "D".to_string(),
        offset: "20".to_string(),
        run_in: "50".to_string(),
        run_out: "60".to_string(),
        runs: vec![RunText {
            line: 0,
            start: place("1", "1"),
            on: place("2", "2"),
            off: place("3", "3"),
            end: place("4", "4"),
            heading: "045".to_string(),
            parted: true,
        }],
        apexes: Vec::new(),
        path: vec![place("1", "1"), place("4", "4")],
    }
}

#[test]
fn a_plan_becomes_a_file() {
    assert_eq!(default_name(&plan()), "SEARCH 045T");
    let t = vec![TargetText { name: "X".to_string(), radius: "10".to_string(), place: place("9", "9") }];
    let g = to_gpx(&plan(), &t, &GpxOptions::default());
    assert_eq!(g.name, "SEARCH 045T");
    assert!(g.desc.starts_with("D. Waypoints steer the GPS antenna; the fish is 20 m astern."));
    assert!(g.routes.is_empty());
    let o = export_options(&Wishes {
        track: None,
        routes: Some(true),
        route_per_line: Some(true),
        turn_points: None,
        targets: Some(false),
        line_waypoints: None,
    });
    assert!(o.track && o.routes && o.route_per_line && !o.turn_points && !o.targets);
    let h = to_gpx(&plan(), &t, &o);
    assert_eq!(h.tracks.len(), 1);
    assert_eq!(h.tracks[0].name, "SEARCH 045T path");
    assert_eq!(h.tracks[0].points.len(), 2);
    assert_eq!(h.routes.len(), 1);
    assert!(h.waypoints.is_empty());
}

#[test]
fn plans_are_listed_on_a_page() {
    assert_eq!(export_file("SEARCH 045T"), "SEARCH_045T.gpx");
    let t = vec![Listed {
        name: "Wreck".to_string(),
        lat: "52.500000".to_string(),
        lon: "4.000000".to_string(),
        radius: "30".to_string(),
    }];
    let p = vec![Written {
        file: "a.gpx".to_string(),
        digest: "azimuth 045".to_string(),
        unseen: "1.5".to_string(),
        twice: "90".to_string(),
    }];
    assert_eq!(
        index_page(&t, &p),
        "SEARCH PLAN\n===========\n\nTargets (1):\n  Wreck        52.500000, 4.000000  +/- 30 m\n\n\
         a.gpx\n  azimuth 045\n  coverage: 1.5% unseen, 90% seen twice or more\n\n\
         Waypoints are GPS ANTENNA positions; the fish is astern by the layback above.\n\
         Recording starts at the A point of each line, not the S.\n"
    );
}

#[test]
fn the_settings_of_a_plan_stand_in_one_line() {
    let s = |x: &str| x.to_string();
    let d = digest(&Settings {
        azimuth: s("045"),
        range: s("75"),
        altitude: s("8"),
        nadir: s("5"),
        spacing: s("60"),
        regime: Regime::Double,
        layback: s("20.0"),
        gps_to_towpoint: s("4.0"),
        run_in: s("50"),
        run_out: s("60"),
        speed: s("4.0"),
        turn_radius: s("40"),
        lines: 6,
        distance: s("3.1"),
        minutes: 75,
        direction: Direction::OneWay,
        skip: 3,
    });
    assert!(d.starts_with("azimuth 045°T · range 75 m/side · altitude 8 m · nadir gap 5 m · spacing 60 m ("));
    assert!(d.ends_with("6 lines · 3.1 km · 1 h 15 min · one-way running · run every 3th line, then fill"));
}

#[test]
fn hemispheres_have_letters() {
    assert_eq!((hemisphere(true, true), hemisphere(true, false)), ('N', 'S'));
    assert_eq!((hemisphere(false, true), hemisphere(false, false)), ('E', 'W'));
}
