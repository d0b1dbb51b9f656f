use swath::server::queue::{Key, Queue, FETCH_BACKLOG};
use swath::server::url::{segments, split_query, urldecode, Query};
use swath::server::{
    basemap, basemap_tile, closes, content_length, content_type, head, header_line, reason,
    request_line, route, static_file, Basemap, Header, Route, TileError,
};

fn chars(s: &str) -> Vec<char> {
    s.chars().collect()
}

fn key(x: i64) -> Key {
    Key { layer: "osm".to_string(), z: 10, x, y: 4 }
}

#[test]
fn escapes_are_resolved() {
    assert_eq!(urldecode("a%20b+c"), "a b c");
    assert_eq!(urldecode("%C3%A9t%c3%a9"), "\u{e9}t\u{e9}");
    assert_eq!(urldecode("plain/path.png"), "plain/path.png");
    assert_eq!(urldecode("%+5"), "\u{5}");
}

#[test]
fn what_is_no_escape_stands_for_itself() {
    assert_eq!(urldecode("100%"), "100%");
    assert_eq!(urldecode("5%zz"), "5%zz");
    assert_eq!(urldecode("%4"), "%4");
    assert_eq!(urldecode("%ff"), "\u{fffd}");
}

#[test]
fn a_target_is_a_path_and_settings() {
    let (path, q) = split_query("/api/layer/a%3Ab?min=1&max=&&ramp=ice&flag&min=2");
    assert_eq!(path, "/api/layer/a:b");
    assert_eq!(q.pairs.len(), 5);
    assert_eq!(q.get("min").map(|s| s.as_str()), Some("2"));
    assert_eq!(q.get("max").map(|s| s.as_str()), Some(""));
    assert_eq!(q.get("flag").map(|s| s.as_str()), Some(""));
    assert_eq!(q.get("ramp").map(|s| s.as_str()), Some("ice"));
    assert!(q.get("shade").is_none());
    let (bare, none) = split_query("/");
    assert_eq!(bare, "/");
    assert!(none.pairs.is_empty());
}

#[test]
fn the_last_setting_of_a_name_counts() {
    let mut q = Query::new();
    q.set("a".to_string(), "1".to_string());
    q.set("b".to_string(), "2".to_string());
    q.set("a".to_string(), "3".to_string());
    assert_eq!(q.get("a").map(|s| s.as_str()), Some("3"));
    assert_eq!(q.get("b").map(|s| s.as_str()), Some("2"));
}

#[test]
fn a_path_is_its_names() {
    assert_eq!(segments("//api/state/"), vec![chars("api"), chars("state")]);
    assert_eq!(segments("/"), vec![chars("")]);
    assert_eq!(segments("a//b"), vec![chars("a"), chars(""), chars("b")]);
}

#[test]
fn the_first_line_of_a_request_is_read() {
    assert_eq!(
        request_line("GET /api/state HTTP/1.1\r\n"),
        Some(("GET".to_string(), "/api/state".to_string()))
    );
    assert_eq!(request_line("GET\r\n"), None);
    assert_eq!(request_line("\r\n"), None);
}

#[test]
fn header_lines_are_read() {
    match header_line("Content-Length:  42 \r\n") {
        Header::Field(k, v) => {
            assert_eq!(k, "content-length");
            assert_eq!(v, "42");
        }
        _ => panic!("a field"),
    }
    assert!(matches!(header_line("\r\n"), Header::End));
    assert!(matches!(header_line("nonsense\r\n"), Header::Other));
}

#[test]
fn the_body_and_the_connection_follow_the_fields() {
    let mut q = Query::new();
    assert_eq!(content_length(&q), 0);
    assert!(!closes(&q));
    q.set("content-length".to_string(), "17".to_string());
    q.set("connection".to_string(), "CLOSE".to_string());
    assert_eq!(content_length(&q), 17);
    assert!(closes(&q));
    q.set("content-length".to_string(), "x".to_string());
    q.set("connection".to_string(), "keep-alive".to_string());
    assert_eq!(content_length(&q), 0);
    assert!(!closes(&q));
}

#[test]
fn requests_go_to_what_answers_them() {
    assert_eq!(route("GET", "/api/basemap/osm/3/1/2.png") == Route::Basemap, true);
    assert!(route("POST", "/api/basemap/osm/3/1/2.png") == Route::Api);
    assert!(route("POST", "/api/report/open") == Route::OpenReport);
    assert!(route("GET", "/api/report/open") == Route::Api);
    assert!(route("GET", "/api/state") == Route::Api);
    assert!(route("GET", "/app.js") == Route::Page);
    assert!(route("GET", "/") == Route::Page);
}

#[test]
fn chart_tiles_are_bounded() {
    let t = |z: &str, x: &str, y: &str| basemap_tile(&chars(z), &chars(x), &chars(y));
    assert!(matches!(t("3", "7", "0.png"), Ok((3, 7, 0))));
    assert!(matches!(t("3", "8", "0.png"), Err(TileError::OutOfRange)));
    assert!(matches!(t("3", "-1", "0"), Err(TileError::OutOfRange)));
    assert!(matches!(t("22", "0", "0"), Err(TileError::OutOfRange)));
    assert!(matches!(t("21", "2097151", "2097151.png"), Ok((21, 2097151, 2097151))));
    assert!(matches!(t("x", "0", "0"), Err(TileError::Bad)));
    assert!(matches!(t("3", "0", "0.jpg"), Err(TileError::Bad)));
    assert_eq!(TileError::Bad.message(), "bad tile");
    assert_eq!(TileError::OutOfRange.message(), "tile out of range");
}

#[test]
fn a_chart_tile_is_kept_unknown_or_on_its_way() {
    assert!(basemap(true, false) == Basemap::Kept);
    assert!(basemap(false, false) == Basemap::Unknown);
    assert!(basemap(false, true) == Basemap::Pending);
}

#[test]
fn pages_stay_inside_the_frontend() {
    assert_eq!(static_file("/"), Some("index.html".to_string()));
    assert_eq!(static_file("//app.js"), Some("app.js".to_string()));
    assert_eq!(static_file("/../Cargo.toml"), None);
    assert_eq!(static_file("/a..b"), None);
}

#[test]
fn content_goes_by_the_ending() {
    assert_eq!(content_type("index.html"), "text/html; charset=utf-8");
    assert_eq!(content_type("a.b.js"), "text/javascript; charset=utf-8");
    assert_eq!(content_type("s.css"), "text/css; charset=utf-8");
    assert_eq!(content_type("d.json"), "application/json");
    assert_eq!(content_type("p.png"), "image/png");
    assert_eq!(content_type("v.svg"), "image/svg+xml");
    assert_eq!(content_type("f.woff2"), "font/woff2");
    assert_eq!(content_type("README"), "application/octet-stream");
    assert_eq!(content_type("a.HTML"), "application/octet-stream");
}

#[test]
fn the_head_of_an_answer_is_written() {
    assert_eq!(
        head(200, "image/png", 67, 86400),
        "HTTP/1.1 200 OK\r\nContent-Type: image/png\r\nContent-Length: 67\r\nCache-Control: max-age=86400\r\n\r\n"
    );
    assert_eq!(
        head(404, "text/plain", 0, 0),
        "HTTP/1.1 404 Not Found\r\nContent-Type: text/plain\r\nContent-Length: 0\r\nCache-Control: no-store\r\n\r\n"
    );
    assert_eq!(reason(202), "Accepted");
    assert_eq!(reason(400), "Bad Request");
    assert_eq!(reason(500), "Internal Server Error");
    assert_eq!(reason(418), "Error");
}

#[test]
fn the_newest_tile_is_fetched_first_and_once() {
    let mut q = Queue::new();
    q.want(key(1));
    q.want(key(2));
    q.want(key(1));
    let k = q.next().unwrap();
    assert_eq!(k.x, 2);
    q.want(key(2));
    assert_eq!(q.next().unwrap().x, 1);
    assert!(q.next().is_none());
    q.done(&k);
    q.want(key(2));
    assert_eq!(q.next().unwrap().x, 2);
}

#[test]
fn a_tile_that_waited_too_long_is_given_up() {
    let mut q = Queue::new();
    let mut i: i64 = 0;
    while i < FETCH_BACKLOG as i64 + 3 {
        q.want(key(i));
        i += 1;
    }
    assert_eq!(q.want.len(), FETCH_BACKLOG);
    assert_eq!(q.claimed.len(), FETCH_BACKLOG);
    assert_eq!(q.want[0].x, 3);
    q.want(key(0));
    assert_eq!(q.next().unwrap().x, 0);
}
