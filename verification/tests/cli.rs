use swath::cli::{
    command, dataset_arg, is_blank, layer_zoom, may_run, parse, parse_zooms, reports, tiles_for,
    todo, workspace_root, Command, ZoomError, MAX_TILES,
};
use swath::server::queue::Key;

fn words(s: &str) -> Vec<String> {
    s.split(' ').map(|w| w.to_string()).collect()
}

fn tile(layer: &str, z: u32, x: i64, y: i64) -> Key {
    Key { layer: layer.to_string(), z, x, y }
}

#[test]
fn a_command_line_is_taken_apart() {
    let a = parse(&words("index north --root /srv --force south --zoom"));
    assert_eq!(a.cmd, "index");
    assert_eq!(a.rest, words("north south"));
    assert_eq!(a.flags.get("root").map(|s| s.as_str()), Some("/srv"));
    assert_eq!(a.flags.get("force").map(|s| s.as_str()), Some("1"));
    assert_eq!(a.flags.get("zoom").map(|s| s.as_str()), Some(""));
    assert!(a.flags.get("yes").is_none());
}

#[test]
fn no_words_are_no_command() {
    let a = parse(&Vec::new());
    assert_eq!(a.cmd, "");
    assert!(a.rest.is_empty());
    assert!(command(&a.cmd) == Command::Help);
}

#[test]
fn the_first_word_is_the_command() {
    assert!(command("serve") == Command::Serve);
    assert!(command("index") == Command::Index);
    assert!(command("mosaic") == Command::Mosaic);
    assert!(command("layer") == Command::Layer);
    assert!(command("info") == Command::Info);
    assert!(command("report") == Command::Report);
    assert!(command("fixtures") == Command::Fixtures);
    assert!(command("tiles") == Command::Tiles);
    assert!(command("--help") == Command::Help);
    assert!(command("sail") == Command::Unknown);
}

#[test]
fn a_recording_has_to_be_named() {
    assert_eq!(dataset_arg(&parse(&words("info a b"))), Ok("a".to_string()));
    assert_eq!(dataset_arg(&parse(&words("info"))), Err("dataset name required"));
}

#[test]
fn zoom_levels_are_a_number_or_a_range() {
    assert!(matches!(parse_zooms("10-18"), Ok((10, 18))));
    assert!(matches!(parse_zooms("12"), Ok((12, 12))));
    assert!(matches!(parse_zooms("18-10"), Err(ZoomError::BadRange)));
    assert!(matches!(parse_zooms("10-21"), Err(ZoomError::BadRange)));
    assert!(matches!(parse_zooms("ten"), Err(ZoomError::NotANumber)));
    assert!(matches!(parse_zooms("1-2-3"), Err(ZoomError::NotANumber)));
}

#[test]
fn overlays_are_not_asked_for_too_deep() {
    assert_eq!(layer_zoom("osm", 20), 20);
    assert_eq!(layer_zoom("osmde", 19), 19);
    assert_eq!(layer_zoom("topo", 19), 19);
    assert_eq!(layer_zoom("seamark", 20), 18);
    assert_eq!(layer_zoom("contour", 9), 9);
}

#[test]
fn the_tiles_of_an_area_are_listed_row_by_row() {
    assert_eq!(tiles_for(1, 1, 2, 2, 2), vec![(1, 1), (2, 1), (1, 2), (2, 2)]);
    assert_eq!(tiles_for(-5, 3, 0, 9, 2), vec![(0, 3)]);
    assert_eq!(tiles_for(2, 2, 1, 5, 4), Vec::<(i64, i64)>::new());
    assert_eq!(tiles_for(i64::MIN, i64::MIN, i64::MAX, i64::MAX, 1).len(), 4);
}

#[test]
fn what_is_missing_is_fetched_in_order_and_once() {
    let wanted = vec![
        tile("seamark", 9, 1, 1),
        tile("osm", 10, 2, 1),
        tile("osm", 10, 1, 5),
        tile("osm", 9, 7, 7),
        tile("osm", 10, 1, 5),
        tile("osm", 10, 0, 0),
    ];
    let kept = vec![false, false, false, false, false, true];
    let v: Vec<(String, u32, i64, i64)> =
        todo(&wanted, &kept).into_iter().map(|k| (k.layer, k.z, k.x, k.y)).collect();
    assert_eq!(
        v,
        vec![
            ("osm".to_string(), 9, 7, 7),
            ("osm".to_string(), 10, 1, 5),
            ("osm".to_string(), 10, 2, 1),
            ("seamark".to_string(), 9, 1, 1),
        ]
    );
}

#[test]
fn a_large_run_is_asked_for_twice() {
    assert!(may_run(MAX_TILES, false));
    assert!(!may_run(MAX_TILES + 1, false));
    assert!(may_run(MAX_TILES + 1, true));
    assert!(is_blank(400));
    assert!(!is_blank(401));
    assert!(reports(49, 200));
    assert!(!reports(50, 200));
    assert!(reports(199, 200));
}

#[test]
fn the_workspace_is_looked_for() {
    let above = words("/opt/app/target /opt/app");
    let none: Vec<String> = Vec::new();
    assert_eq!(workspace_root(Some("/x"), "/here", &above, &none), "/x");
    assert_eq!(workspace_root(None, "/here", &above, &words("/here")), "/here");
    assert_eq!(workspace_root(None, "/here", &above, &words("/opt/app")), "/opt/app");
    assert_eq!(workspace_root(None, "/here", &above, &none), "/here");
}
