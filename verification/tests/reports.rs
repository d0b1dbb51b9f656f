use swath::api::chart::{charts_for, legend_for, LayerFacts};
use swath::crs;
use swath::layer::Ramp;
use swath::nav::{Bearing, LaybackModel};
use swath::project::{ChartLayer, ChartSpec, ProjectMeta};
use swath::report::recording::{DatasetSummary, Extent, NavText, Reach, Spread};
use swath::report::sheet::{ContactText, Picture};
use swath::report::words::{NO_CHARTS, POSITIONING};
use swath::report::{
    esc, legend_html, render, report_codes, span, string_together, worst, Chart, LegendEntry,
    ReportInput, Span,
};

fn s(x: &str) -> String {
    x.to_string()
}

fn facts(id: &str, kind: &str) -> LayerFacts {
    LayerFacts {
        id: s(id),
        label: s(""),
        kind: s(kind),
        colour: s(""),
        info: s(""),
        scheme: Ramp::Ice,
        stops: vec![s("#000000"), s("#ffffff")],
    }
}

fn drawn(id: &str, on: bool, fish: bool, boat: bool) -> ChartLayer {
    ChartLayer { id: s(id), on, boat, fish }
}

fn spec(id: &str, kind: &str, dataset: &str, enabled: bool, layers: Vec<ChartLayer>) -> ChartSpec {
    ChartSpec {
        id: s(id),
        kind: s(kind),
        title: s("Title"),
        subtitle: s("Sub"),
        dataset: s(dataset),
        subsystem: None,
        enabled,
        layers,
    }
}

#[test]
fn text_is_made_fit_for_a_page() {
    assert_eq!(esc("a<b & \"c\">"), "a&lt;b &amp; &quot;c&quot;&gt;");
    assert_eq!(esc("&lt;"), "&amp;lt;");
    assert_eq!(string_together(&vec![s("a"), s("b"), s("c")], ", "), "a, b, c");
    assert_eq!(string_together(&Vec::new(), ", "), "");
}

#[test]
fn a_legend_is_written() {
    let e = |kind: &str, ramp: Vec<String>| LegendEntry {
        label: s("L"),
        kind: s(kind),
        colour: s("#123456"),
        ramp,
        detail: s("d"),
    };
    assert_eq!(legend_html(&Vec::new(), "c"), "");
    assert_eq!(
        legend_html(&vec![e("track", Vec::new())], "c"),
        "<div class=\"legend\">\n<h3>Legend</h3>\n<p class=\"lede\">c</p>\n<ul>\n\
         <li><span class=\"sw line\" style=\"background:#123456\"></span>\
         <span class=\"lg-name\">L</span><span class=\"lg-kind\">track</span>\
         <span class=\"lg-detail\">d</span></li>\n</ul>\n</div>\n"
    );
    assert!(legend_html(&vec![e("mosaic", vec![s("#a"), s("#b")])], "c")
        .contains("linear-gradient(to right,#a,#b)"));
    assert!(legend_html(&vec![e("raster", Vec::new())], "c").contains("class=\"sw\""));
}

#[test]
fn a_legend_lists_what_is_drawn() {
    let l = vec![
        facts("m", "mosaic"),
        facts("t", "track"),
        facts("r", "raster"),
        facts("v", "vector"),
        facts("rec", "recording"),
    ];
    let c = spec(
        "c",
        "overview",
        "",
        true,
        vec![
            drawn("m", true, false, false),
            drawn("t", true, true, true),
            drawn("r", false, false, false),
            drawn("v", true, false, false),
            drawn("rec", true, true, true),
            drawn("gone", true, true, true),
        ],
    );
    let v = legend_for(&l, &c);
    assert_eq!(v.len(), 3);
    assert_eq!(v[0].detail, "sidescan backscatter, ice scheme");
    assert_eq!(v[0].label, "m");
    assert_eq!(v[0].ramp.len(), 2);
    assert_eq!((v[1].detail.as_str(), v[1].colour.as_str()), ("towfish and vessel track", "#35b8a6"));
    assert_eq!((v[2].detail.as_str(), v[2].colour.as_str()), ("imported vectors", "#f0b429"));
    let t = |fish: bool, boat: bool| {
        legend_for(&l, &spec("c", "overview", "", true, vec![drawn("t", true, fish, boat)]))
    };
    assert_eq!(t(true, false)[0].detail, "towfish track");
    assert_eq!(t(false, true)[0].detail, "vessel track");
    assert!(t(false, false).is_empty());
    let r = legend_for(&l, &spec("c", "overview", "", true, vec![drawn("r", true, false, false)]));
    assert_eq!(r[0].detail, "imported grid");
}

#[test]
fn charts_are_chosen_by_kind_and_recording() {
    let c = vec![
        spec("a", "overview", "", true, Vec::new()),
        spec("b", "dataset", "n", true, Vec::new()),
        spec("c", "dataset", "m", true, Vec::new()),
        spec("d", "dataset", "n", false, Vec::new()),
    ];
    let images = vec![None, Some(s("pic")), None, None];
    let v = charts_for(&c, &images, &Vec::new(), "dataset", Some("n"));
    assert_eq!(v.len(), 1);
    assert_eq!(v[0].image.as_deref(), Some("pic"));
    assert_eq!(charts_for(&c, &images, &Vec::new(), "dataset", None).len(), 2);
    assert_eq!(charts_for(&c, &images, &Vec::new(), "overview", None)[0].title, "Title");
}

#[test]
fn a_report_has_its_coordinate_systems() {
    assert_eq!(report_codes(&Vec::new(), None), vec![4326]);
    assert_eq!(report_codes(&Vec::new(), Some(32631)), vec![4326, 32631]);
    assert_eq!(report_codes(&vec![4326, 28992, 28992, 4326], Some(32631)), vec![4326, 28992, 4326]);
}

#[test]
fn a_survey_has_a_span_and_a_worst_case() {
    let b = |x: f64| x.to_bits();
    assert_eq!(span(&vec![(b(5.0), b(9.0)), (b(1.0), b(7.0))]), Some((b(1.0), b(9.0))));
    assert_eq!(span(&Vec::new()), None);
    assert_eq!(worst(&vec![b(3.0), b(f64::NAN), b(8.0)]), Some(b(8.0)));
    assert_eq!(worst(&vec![b(f64::INFINITY)]), None);
}

fn recording() -> DatasetSummary {
    DatasetSummary {
        name: s("n"),
        label: s("North"),
        pings: 1000,
        start: s("2024-02-29T12:00:00Z"),
        duration: s("01:00:00"),
        line_km: s("3.20"),
        lines: 4,
        subsystems: vec![20, 21],
        extent: Some(Extent { min_lat: s("1"), min_lon: s("2"), max_lat: s("3"), max_lon: s("4") }),
        sound_speed: s("1480"),
        spread: Some(Spread { median: s("9.1"), p95: s("20.0") }),
        reach: Some(Reach { altitude: s("8"), near: s("5"), far: s("57") }),
        nav: NavText {
            layback: s("20.0"),
            gps_to_towpoint: s("4.0"),
            model: LaybackModel::Wake,
            bearing: Bearing::Cog,
            cog_baseline: s("10"),
            roll_flag: s("5.0"),
        },
        charts: Vec::new(),
    }
}

fn contact(id: &str) -> ContactText {
    ContactText {
        id: s(id),
        name: s("Wreck"),
        class: s("wreck"),
        confidence: s("high"),
        status: s(""),
        dataset: s("n"),
        time: None,
        latitude: s("52 30"),
        longitude: s("4 00"),
        coordinates: vec![(s("4.0"), s("52.5")), (s("600000.00"), s("5800000.00"))],
        depth: Some(s("12.5")),
        altitude: None,
        across: Some(s("-20.0")),
        port: true,
        length: Some(s("10.0")),
        width: None,
        height: Some(s("2.0")),
        radius: None,
        note: s("see <this>"),
    }
}

fn input(register: bool) -> ReportInput {
    ReportInput {
        name: s("p"),
        title: s(""),
        meta: ProjectMeta {
            client: s("A & B"),
            vessel: s(""),
            operator: s(""),
            job_number: s(""),
            area: s(""),
            notes: s(""),
            report_crs: Vec::new(),
        },
        issued: s("now"),
        layback: s("20.0"),
        datasets: vec![recording()],
        total_km: s("3.20"),
        span: Some(Span { from: s("a"), to: s("b"), elapsed: s("01:00:00") }),
        area: None,
        contacts: vec![contact("C001")],
        layer_kinds: vec![s("raster"), s("track"), s("vector")],
        overviews: Vec::new(),
        systems: vec![crs::get(4326).unwrap(), crs::get(32631).unwrap()],
        register,
        worst: Some(s("20")),
        pictures: vec![Picture { contact: s("C001"), kind: s("lf"), image: s("data:x") }],
        generated: s("then"),
    }
}

#[test]
fn a_report_is_written() {
    let h = render(&input(true));
    assert!(h.starts_with("<!doctype html>\n<html lang=\"en\"><head><meta charset=\"utf-8\">\n<title>p \u{2014} survey report</title>"));
    assert!(h.contains(POSITIONING));
    assert!(h.contains(NO_CHARTS));
    assert!(h.contains("<dt>Client</dt><dd>A &amp; B</dd>"));
    assert!(!h.contains("<dt>Vessel</dt>"));
    assert!(h.contains("<tr><th>Survey lines</th><td>4</td></tr>"));
    assert!(h.contains("<tr><th>Imported layers</th><td>2</td></tr>"));
    assert!(h.contains("<tr><th>Channels</th><td>ss20, ss21</td></tr>"));
    assert!(h.contains("<tr><td>North</td><td>9.1 m</td><td>20.0 m</td><td>1480 m/s</td></tr>"));
    assert!(h.contains("flew at about 8 m, so the beam reached the seabed from roughly 5 m to 57 m"));
    assert!(h.contains("WGS 84 (geographic) (EPSG:4326), UTM zone 31N (EPSG:32631)"));
    assert!(h.contains("1 contact marked on this recording: C001"));
    assert!(h.contains("<td class=\"num\">10.0 m</td></tr>"));
    assert!(h.contains("alt=\"Contact C001 \u{2014} Chart \u{2014} low frequency\""));
    assert!(h.contains("<dt>Across-track</dt><dd>-20.0 m port</dd>"));
    assert!(h.contains("<dt>Dimensions</dt><dd>L 10.0 m \u{b7} H 2.0 m</dd>"));
    assert!(h.contains("<dt>UTM zone 31N</dt><dd>Easting 600000.00, Northing 5800000.00 (m)</dd>"));
    assert!(!h.contains("<dt>Status</dt>"));
    assert!(h.contains("<p class=\"note\">see &lt;this&gt;</p>"));
    assert!(h.ends_with("\u{b7} then</footer>\n</body></html>\n"));
}

#[test]
fn a_report_without_a_register_stops_short() {
    let h = render(&input(false));
    assert!(!h.contains("<h2>Contacts</h2>"));
    assert!(h.ends_with("\u{b7} then</footer>\n</body></html>\n"));
}

#[test]
fn a_chart_of_the_survey_has_a_page() {
    let mut i = input(false);
    i.overviews.push(Chart { title: s("High"), subtitle: s("600 kHz"), image: None, legend: Vec::new() });
    let h = render(&i);
    assert!(h.contains("<h2>High</h2>\n<p class=\"lede\">600 kHz</p>\n<p class=\"lede\">No view was rendered"));
    assert!(h.contains("<tr><th>Frequency bands</th><td>600 kHz</td></tr>"));
    assert!(!h.contains(NO_CHARTS));
}
