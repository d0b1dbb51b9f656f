//! The local web server's rules: reading a request, choosing what answers it,
//! and writing the head of the answer.

use vstd::prelude::*;

use crate::grid;
use crate::names;
use crate::names::lower_char;
use crate::server::url::{segments, Query};
use crate::text;
use crate::text::{
    chars_of, contains, copy, find_char, parse_signed, parse_unsigned, part, push_dec, push_str,
    same, split, text_of, trim, trim_end_matches, trim_tail,
};

pub mod queue;
pub mod url;

verus! {

/// The first line of a request: what is to be done, and to what.
pub open spec fn first_line(line: Seq<char>) -> Option<(Seq<char>, Seq<char>)> {
    let parts = text::split_on(text::trim_end(line), ' ');
    if parts.len() < 2 {
        None
    } else {
        Some((parts[0], parts[1]))
    }
}

/// Read the first line of a request.
pub fn request_line(line: &str) -> (r: Option<(String, String)>)
    ensures
        match first_line(line@) {
            Some(p) => r matches Some(x) && x.0@ == p.0 && x.1@ == p.1,
            None => r is None,
        },
{
    let v = trim_tail(&chars_of(line));
    let parts = split(&v, ' ');
    let ghost all = text::split_on(v@, ' ');
    proof {
        assert(all.len() == parts@.len());
    }
    if parts.len() < 2 {
        return None;
    }
    proof {
        assert(all[0] == parts@[0]@);
        assert(all[1] == parts@[1]@);
    }
    Some((text_of(&parts[0]), text_of(&parts[1])))
}

/// What a line of a request's head holds.
pub enum Header {
    /// Nothing: the head is over.
    End,
    /// A field, its name in lower case.
    Field(String, String),
    /// A line with no colon in it, which says nothing.
    Other,
}

/// The field that a line of a request's head holds.
pub open spec fn field_of(line: Seq<char>) -> Option<(Seq<char>, Seq<char>)> {
    let h = text::trim_end(line);
    let i = text::index_from(h, ':', 0);
    if i < h.len() {
        Some((names::lowered(text::trimmed(h.take(i))), text::trimmed(h.skip(i + 1))))
    } else {
        None
    }
}

fn lower_text(v: &[char]) -> (r: String)
    ensures
        r@ == names::lowered(v@),
{
    let mut out = String::new();
    let mut i: usize = 0;
    while i < v.len()
        invariant
            i <= v@.len(),
            out@ == names::lowered(v@).take(i as int),
        decreases v.len() - i,
    {
        out.push(lower_char(v[i]));
        i += 1;
        proof {
            assert(names::lowered(v@).take(i as int) =~= names::lowered(v@).take(i - 1).push(
                names::lowered(v@)[i - 1],
            ));
        }
    }
    proof {
        assert(names::lowered(v@).take(i as int) =~= names::lowered(v@));
    }
    out
}

/// Read a line of a request's head.
pub fn header_line(line: &str) -> (r: Header)
    ensures
        r is End == (text::trim_end(line@).len() == 0),
        text::trim_end(line@).len() > 0 ==> match field_of(line@) {
            Some(f) => r matches Header::Field(k, v) && k@ == f.0 && v@ == f.1,
            None => r is Other,
        },
{
    let h = trim_tail(&chars_of(line));
    if h.len() == 0 {
        return Header::End;
    }
    let i = find_char(&h, ':', 0);
    if i >= h.len() {
        return Header::Other;
    }
    let k = part(&h, 0, i);
    let v = part(&h, i + 1, h.len());
    proof {
        assert(k@ =~= h@.take(i as int));
        assert(v@ =~= h@.skip(i + 1));
    }
    Header::Field(lower_text(&trim(&k)), text_of(&trim(&v)))
}

/// How many bytes follow the head of a request, by its fields.
pub open spec fn body_length(fields: Seq<(Seq<char>, Seq<char>)>) -> nat {
    match url::lookup(fields, "content-length"@) {
        Some(v) => match text::unsigned_of(v) {
            Some(n) => if n <= u64::MAX {
                n
            } else {
                0
            },
            None => 0,
        },
        None => 0,
    }
}

/// How many bytes follow the head of a request: none where it does not say, or
/// says something that is no number.
pub fn content_length(fields: &Query) -> (n: u64)
    ensures
        n == body_length(fields@),
{
    match fields.get("content-length") {
        Some(v) => match parse_unsigned(&chars_of(v.as_str()), u64::MAX) {
            Some(n) => n,
            None => 0,
        },
        None => 0,
    }
}

/// Whether a request asks for the connection to be closed behind it.
pub open spec fn asks_to_close(fields: Seq<(Seq<char>, Seq<char>)>) -> bool {
    url::lookup(fields, "connection"@) matches Some(v) && names::lowered(v) == names::lowered(
        "close"@,
    )
}

/// Whether the connection is to be closed once the request is answered.
pub fn closes(fields: &Query) -> (r: bool)
    ensures
        r == asks_to_close(fields@),
{
    match fields.get("connection") {
        Some(v) => {
            let a = lower_text(&chars_of(v.as_str()));
            let b = lower_text(&chars_of("close"));
            same(a.as_str(), b.as_str())
        },
        None => false,
    }
}

/// What a request is answered by.
#[derive(Clone, Copy, PartialEq, Eq, Structural)]
pub enum Route {
    /// A tile of a chart layer that someone else serves.
    Basemap,
    /// The report, written out and handed to the desktop.
    OpenReport,
    /// The application's own interface.
    Api,
    /// A file of the frontend.
    Page,
}

/// What a request is answered by.
pub open spec fn routed(method: Seq<char>, path: Seq<char>) -> Route {
    let seg = url::names_of(path);
    if method == "GET"@ && seg.len() == 6 && seg[0] == "api"@ && seg[1] == "basemap"@ {
        Route::Basemap
    } else if method == "POST"@ && seg.len() == 3 && seg[0] == "api"@ && seg[1] == "report"@
        && seg[2] == "open"@ {
        Route::OpenReport
    } else if "/api/"@.is_prefix_of(path) {
        Route::Api
    } else {
        Route::Page
    }
}

pub(crate) fn is_name(v: &Vec<char>, s: &str) -> (r: bool)
    ensures
        r == (v@ == s@),
{
    let t = text_of(v);
    same(t.as_str(), s)
}

fn starts_with(v: &Vec<char>, t: &Vec<char>) -> (r: bool)
    ensures
        r == t@.is_prefix_of(v@),
{
    if v.len() < t.len() {
        return false;
    }
    let p = part(v, 0, t.len());
    let a = text_of(&p);
    let b = text_of(t);
    same(a.as_str(), b.as_str())
}

/// Choose what answers a request.
pub fn route(method: &str, path: &str) -> (r: Route)
    ensures
        r == routed(method@, path@),
{
    let seg = segments(path);
    let ghost all = url::names_of(path@);
    proof {
        assert(all.len() == seg@.len());
        assert(forall|i: int| 0 <= i < seg@.len() ==> all[i] == seg@[i]@);
    }
    if same(method, "GET") && seg.len() == 6 && is_name(&seg[0], "api") && is_name(
        &seg[1],
        "basemap",
    ) {
        return Route::Basemap;
    }
    if same(method, "POST") && seg.len() == 3 && is_name(&seg[0], "api") && is_name(
        &seg[1],
        "report",
    ) && is_name(&seg[2], "open") {
        return Route::OpenReport;
    }
    if starts_with(&chars_of(path), &chars_of("/api/")) {
        Route::Api
    } else {
        Route::Page
    }
}

/// The deepest zoom level a chart layer is asked for.
pub const MAX_ZOOM: u32 = 21;

/// Why a tile's address is refused.
#[derive(Clone, Copy, PartialEq, Eq, Structural)]
pub enum TileError {
    /// It is not three numbers.
    Bad,
    /// There is no such tile at that zoom level.
    OutOfRange,
}

impl TileError {
    /// What the answer says.
    pub fn message(self) -> (s: &'static str)
        ensures
            s@ == (match self {
                TileError::Bad => "bad tile"@,
                TileError::OutOfRange => "tile out of range"@,
            }),
    {
        match self {
            TileError::Bad => "bad tile",
            TileError::OutOfRange => "tile out of range",
        }
    }
}

/// A tile's address as numbers: the zoom level, the column and the row, the
/// last of which may carry the ending of the picture.
pub open spec fn address(z: Seq<char>, x: Seq<char>, y: Seq<char>) -> Option<(nat, int, int)> {
    match (
        text::unsigned_of(z),
        text::signed_of(x),
        text::signed_of(text::without_end(y, ".png"@)),
    ) {
        (Some(z), Some(x), Some(y)) => if z <= u32::MAX && i64::MIN <= x <= i64::MAX && i64::MIN <= y
            <= i64::MAX {
            Some((z, x, y))
        } else {
            None
        },
        _ => None,
    }
}

/// Read a tile's address.
pub fn read_address(z: &[char], x: &[char], y: &[char]) -> (r: Option<(u32, i64, i64)>)
    ensures
        match address(z@, x@, y@) {
            Some(a) => r matches Some(t) && t.0 == a.0 && t.1 == a.1 && t.2 == a.2,
            None => r is None,
        },
{
    let png = chars_of(".png");
    proof {
        reveal_strlit(".png");
    }
    let zoom = match parse_unsigned(z, u32::MAX as u64) {
        Some(n) => n as u32,
        None => return None,
    };
    let column = match parse_signed(x) {
        Some(n) => n,
        None => return None,
    };
    match parse_signed(&trim_end_matches(y, &png)) {
        Some(row) => Some((zoom, column, row)),
        None => None,
    }
}

/// The address of a chart tile: three numbers, and a tile that the zoom level
/// has.
pub open spec fn chart_tile(z: Seq<char>, x: Seq<char>, y: Seq<char>) -> Result<
    (nat, int, int),
    TileError,
> {
    match address(z, x, y) {
        None => Err(TileError::Bad),
        Some(a) => if a.0 > MAX_ZOOM || a.1 < 0 || a.2 < 0 || a.1 >= grid::power(a.0) || a.2
            >= grid::power(a.0) {
            Err(TileError::OutOfRange)
        } else {
            Ok(a)
        },
    }
}

/// Read the address of a chart tile.
pub fn basemap_tile(z: &[char], x: &[char], y: &[char]) -> (r: Result<(u32, i64, i64), TileError>)
    ensures
        match chart_tile(z@, x@, y@) {
            Ok(a) => r matches Ok(t) && t.0 == a.0 && t.1 == a.1 && t.2 == a.2,
            Err(e) => r matches Err(x) && x == e,
        },
{
    match read_address(z, x, y) {
        None => Err(TileError::Bad),
        Some((z, x, y)) => {
            if z > MAX_ZOOM {
                return Err(TileError::OutOfRange);
            }
            let n: i64 = grid::two_to(z);
            if x < 0 || y < 0 || x >= n || y >= n {
                Err(TileError::OutOfRange)
            } else {
                Ok((z, x, y))
            }
        },
    }
}

/// What a chart tile is answered with.
#[derive(Clone, Copy, PartialEq, Eq, Structural)]
pub enum Basemap {
    /// The picture that is kept.
    Kept,
    /// That there is no such layer.
    Unknown,
    /// That it is being fetched, and should be asked for again.
    Pending,
}

/// Decide how a chart tile is answered: from what is kept, or by fetching it
/// where the layer is known.
pub fn basemap(kept: bool, known: bool) -> (r: Basemap)
    ensures
        r == (if kept {
            Basemap::Kept
        } else if !known {
            Basemap::Unknown
        } else {
            Basemap::Pending
        }),
{
    if kept {
        Basemap::Kept
    } else if !known {
        Basemap::Unknown
    } else {
        Basemap::Pending
    }
}

/// A path without the slashes before it.
pub open spec fn without_slashes(s: Seq<char>) -> Seq<char>
    decreases s.len(),
{
    if s.len() > 0 && s[0] == '/' {
        without_slashes(s.skip(1))
    } else {
        s
    }
}

/// The frontend's file that a path asks for.
pub open spec fn page(path: Seq<char>) -> Seq<char> {
    if path == "/"@ {
        "index.html"@
    } else {
        without_slashes(path)
    }
}

/// The frontend's file that a path asks for, below the frontend's directory; a
/// path that would leave it is refused.
pub fn static_file(path: &str) -> (r: Option<String>)
    ensures
        r is Some == !text::occurs(page(path@), ".."@),
        r matches Some(s) ==> s@ == page(path@) && !(s@.len() > 0 && s@[0] == '/'),
{
    let rel = if same(path, "/") {
        proof {
            reveal_strlit("index.html");
        }
        chars_of("index.html")
    } else {
        let v = chars_of(path);
        let mut from: usize = 0;
        proof {
            assert(v@.skip(0) =~= v@);
        }
        while from < v.len() && v[from] == '/'
            invariant
                from <= v@.len(),
                without_slashes(v@) == without_slashes(v@.skip(from as int)),
            decreases v.len() - from,
        {
            proof {
                assert(v@.skip(from as int).skip(1) =~= v@.skip(from + 1));
            }
            from += 1;
        }
        let p = part(&v, from, v.len());
        proof {
            assert(p@ =~= v@.skip(from as int));
        }
        p
    };
    if contains(&rel, &chars_of("..")) {
        None
    } else {
        Some(text_of(&rel))
    }
}

/// What kind of content a file's ending stands for.
pub open spec fn kind_of_content(rel: Seq<char>) -> Seq<char> {
    let i = names::last_dot(rel, rel.len() as int);
    let e = rel.skip(i + 1);
    if i < 0 {
        "application/octet-stream"@
    } else if e == "html"@ {
        "text/html; charset=utf-8"@
    } else if e == "js"@ {
        "text/javascript; charset=utf-8"@
    } else if e == "css"@ {
        "text/css; charset=utf-8"@
    } else if e == "json"@ {
        "application/json"@
    } else if e == "png"@ {
        "image/png"@
    } else if e == "svg"@ {
        "image/svg+xml"@
    } else if e == "woff2"@ {
        "font/woff2"@
    } else {
        "application/octet-stream"@
    }
}

/// The kind of content of a file of the frontend, by the ending of its name.
pub fn content_type(rel: &str) -> (r: &'static str)
    ensures
        r@ == kind_of_content(rel@),
{
    let v = chars_of(rel);
    let mut i: usize = v.len();
    while i > 0 && v[i - 1] != '.'
        invariant
            i <= v@.len(),
            names::last_dot(v@, v@.len() as int) == names::last_dot(v@, i as int),
        decreases i,
    {
        i -= 1;
    }
    if i == 0 {
        return "application/octet-stream";
    }
    let p = part(&v, i, v.len());
    proof {
        assert(p@ =~= v@.skip(i as int));
    }
    if is_name(&p, "html") {
        "text/html; charset=utf-8"
    } else if is_name(&p, "js") {
        "text/javascript; charset=utf-8"
    } else if is_name(&p, "css") {
        "text/css; charset=utf-8"
    } else if is_name(&p, "json") {
        "application/json"
    } else if is_name(&p, "png") {
        "image/png"
    } else if is_name(&p, "svg") {
        "image/svg+xml"
    } else if is_name(&p, "woff2") {
        "font/woff2"
    } else {
        "application/octet-stream"
    }
}

/// The words that go with a status.
pub open spec fn reason_for(status: u16) -> Seq<char> {
    if status == 200 {
        "OK"@
    } else if status == 202 {
        "Accepted"@
    } else if status == 400 {
        "Bad Request"@
    } else if status == 404 {
        "Not Found"@
    } else if status == 500 {
        "Internal Server Error"@
    } else {
        "Error"@
    }
}

/// The words that go with a status.
pub fn reason(status: u16) -> (r: &'static str)
    ensures
        r@ == reason_for(status),
{
    if status == 200 {
        "OK"
    } else if status == 202 {
        "Accepted"
    } else if status == 400 {
        "Bad Request"
    } else if status == 404 {
        "Not Found"
    } else if status == 500 {
        "Internal Server Error"
    } else {
        "Error"
    }
}

/// What the head of an answer says of keeping it: for how many seconds, or not
/// at all.
pub open spec fn keeping(cache_s: u32) -> Seq<char> {
    if cache_s > 0 {
        "Cache-Control: max-age="@ + text::dec(cache_s as nat) + "\r\n"@
    } else {
        "Cache-Control: no-store\r\n"@
    }
}

/// The head of an answer.
pub open spec fn head_of(status: u16, kind: Seq<char>, len: nat, cache_s: u32) -> Seq<char> {
    "HTTP/1.1 "@ + text::dec(status as nat) + " "@ + reason_for(status) + "\r\nContent-Type: "@
        + kind + "\r\nContent-Length: "@ + text::dec(len) + "\r\n"@ + keeping(cache_s) + "\r\n"@
}

/// Write the head of an answer, up to and with the empty line that ends it.
pub fn head(status: u16, kind: &str, len: u64, cache_s: u32) -> (h: String)
    ensures
        h@ == head_of(status, kind@, len as nat, cache_s),
{
    let mut h = copy("HTTP/1.1 ");
    push_dec(&mut h, status as u64);
    push_str(&mut h, " ");
    push_str(&mut h, reason(status));
    push_str(&mut h, "\r\nContent-Type: ");
    push_str(&mut h, kind);
    push_str(&mut h, "\r\nContent-Length: ");
    push_dec(&mut h, len);
    push_str(&mut h, "\r\n");
    let ghost before = h@;
    if cache_s > 0 {
        push_str(&mut h, "Cache-Control: max-age=");
        push_dec(&mut h, cache_s as u64);
        push_str(&mut h, "\r\n");
    } else {
        push_str(&mut h, "Cache-Control: no-store\r\n");
    }
    proof {
        assert(h@ =~= before + keeping(cache_s));
    }
    push_str(&mut h, "\r\n");
    h
}

// ---- what holds of requests and replies ----------------------------------------------

/// A request's first line gives its method and its target, whatever is behind them.
pub proof fn law_request_line(method: Seq<char>, target: Seq<char>, rest: Seq<char>)
    requires
        forall|i: int| 0 <= i < method.len() ==> #[trigger] method[i] != ' ',
        forall|i: int| 0 <= i < target.len() ==> #[trigger] target[i] != ' ',
        rest.len() > 0,
        !text::is_space(rest.last()),
    ensures
        first_line(method + seq![' '] + (target + seq![' '] + rest)) == Some((method, target)),
        first_line(method + seq![' '] + (target + seq![' '] + rest) + seq!['\r', '\n']) == Some(
            (method, target),
        ),
{
    let tail = target + seq![' '] + rest;
    let line = method + seq![' '] + tail;
    assert(line.last() == rest.last());
    let long = line + seq!['\r', '\n'];
    assert(long.drop_last().drop_last() =~= line);
    assert(long.last() == '\n' && long.drop_last().last() == '\r');
    reveal_with_fuel(text::trim_end, 3);
    assert(text::trim_end(line) == line);
    assert(text::trim_end(long) == line);
    text::law_first_part(method, ' ', tail);
    text::law_first_part(target, ' ', rest);
    text::law_split_is_joined(rest, ' ');
    let parts = text::split_on(line, ' ');
    assert(parts =~= seq![method] + (seq![target] + text::split_on(rest, ' ')));
}

/// A header gives its name in small letters and its value, without the space around
/// them.
pub proof fn law_header_line(name: Seq<char>, value: Seq<char>)
    requires
        forall|i: int| 0 <= i < name.len() ==> #[trigger] name[i] != ':',
        value.len() > 0,
        !text::is_space(value.last()),
    ensures
        field_of(name + seq![':'] + value) == Some(
            (names::lowered(text::trimmed(name)), text::trimmed(value)),
        ),
{
    let line = name + seq![':'] + value;
    assert(line.last() == value.last());
    assert(text::trim_end(line) == line);
    text::lemma_index_from(line, ':', 0);
    let i = text::index_from(line, ':', 0);
    assert(line[name.len() as int] == ':');
    if i < name.len() {
        assert(line[i] == name[i]);
    }
    assert(line.take(i) =~= name);
    assert(line.skip(i + 1) =~= value);
}

/// The length of a body is the number that its header gives, and none without one.
pub proof fn law_body_length(fields: Seq<(Seq<char>, Seq<char>)>, n: nat)
    requires
        n <= u64::MAX,
    ensures
        body_length(fields.push(("content-length"@, text::dec(n)))) == n,
        body_length(Seq::empty()) == 0,
{
    text::law_written_number_is_read(n, 0);
    let q = fields.push(("content-length"@, text::dec(n)));
    assert(q.last() == ("content-length"@, text::dec(n)));
}

/// A tile's address that is written down is read again: it is refused only where its
/// zoom is too deep or the map of that zoom has no such tile.
pub proof fn law_written_tile_is_read(z: nat, x: nat, y: nat)
    requires
        z <= u32::MAX,
        x <= i64::MAX,
        y <= i64::MAX,
    ensures
        address(text::dec(z), text::dec(x), text::dec(y) + ".png"@) == Some((z, x as int, y as int)),
        chart_tile(text::dec(z), text::dec(x), text::dec(y) + ".png"@) == (if z <= 21 && x
            < grid::power(z) && y < grid::power(z) {
            Ok::<(nat, int, int), TileError>((z, x as int, y as int))
        } else {
            Err(TileError::OutOfRange)
        }),
{
    text::law_written_number_is_read(z, 0);
    text::law_written_number_is_read(x, 0);
    text::law_written_number_is_read(y, 0);
    text::lemma_dec_reads(y);
    reveal_strlit(".png");
    let d = text::dec(y);
    assert(".png"@.len() == 4);
    assert(!".png"@.is_suffix_of(d)) by {
        if ".png"@.is_suffix_of(d) {
            let k = d.len() - 1;
            assert(d.subrange(d.len() - 4, d.len() as int)[3] == d[k]);
            assert(text::is_digit(d[k]));
        }
    }
    text::law_ends_are_cut_off(d, ".png"@);
}

/// A page's name is its path without the slashes before it.
pub proof fn law_slashes_before(s: Seq<char>) -> (n: int)
    ensures
        0 <= n <= s.len(),
        without_slashes(s) == s.skip(n),
        forall|i: int| 0 <= i < n ==> #[trigger] s[i] == '/',
        n < s.len() ==> s[n] != '/',
    decreases s.len(),
{
    if s.len() > 0 && s[0] == '/' {
        let m = law_slashes_before(s.skip(1));
        assert(s.skip(1).skip(m) =~= s.skip(m + 1));
        assert forall|i: int| 0 <= i < m + 1 implies #[trigger] s[i] == '/' by {
            if i > 0 {
                assert(s.skip(1)[i - 1] == s[i]);
            }
        }
        m + 1
    } else {
        assert(s.skip(0) =~= s);
        0
    }
}

/// The head of a reply begins with its status, says how long the body is, and ends
/// with an empty line.
pub proof fn law_head_says_the_length(status: u16, kind: Seq<char>, len: nat, cache_s: u32)
    ensures
        ("HTTP/1.1 "@ + text::dec(status as nat)).is_prefix_of(head_of(status, kind, len, cache_s)),
        text::occurs(
            head_of(status, kind, len, cache_s),
            "\r\nContent-Length: "@ + text::dec(len) + "\r\n"@,
        ),
        text::occurs(head_of(status, kind, len, cache_s), "\r\nContent-Type: "@ + kind),
        "\r\n\r\n"@.is_suffix_of(head_of(status, kind, len, cache_s)),
{
    let h = head_of(status, kind, len, cache_s);
    let a = "HTTP/1.1 "@ + text::dec(status as nat);
    let b = a + " "@ + reason_for(status);
    let t = "\r\nContent-Type: "@ + kind;
    let l = "\r\nContent-Length: "@ + text::dec(len) + "\r\n"@;
    let e = keeping(cache_s) + "\r\n"@;
    assert(h =~= b + t + l + e);
    assert(h.subrange(0, a.len() as int) =~= a);
    assert(h.subrange(b.len() as int, (b + t).len() as int) =~= t);
    assert(h.subrange((b + t).len() as int, (b + t + l).len() as int) =~= l);
    reveal_strlit("\r\n");
    reveal_strlit("\r\n\r\n");
    reveal_strlit("Cache-Control: no-store\r\n");
    let k = keeping(cache_s);
    assert(k.len() >= 2 && k[k.len() - 2] == '\r' && k[k.len() - 1] == '\n');
    let n = h.len() as int;
    assert(e[e.len() - 4] == '\r' && e[e.len() - 3] == '\n');
    assert(h.subrange(n - 4, n) =~= "\r\n\r\n"@);
}

/// The page at the root is the index, and any other is the one of its name.
pub proof fn law_pages(name: Seq<char>)
    requires
        name.len() > 0,
        name[0] != '/',
    ensures
        page(seq!['/']) == "index.html"@,
        page(seq!['/'] + name) == name,
{
    reveal_strlit("/");
    assert("/"@ =~= seq!['/']);
    let p = seq!['/'] + name;
    assert(p.len() > 1);
    assert(p.skip(1) =~= name);
    reveal_with_fuel(without_slashes, 2);
}

/// A client that says so has its connection closed, in letters of either size; one that
/// says nothing has not.
pub proof fn law_closing(fields: Seq<(Seq<char>, Seq<char>)>, v: Seq<char>)
    ensures
        asks_to_close(fields.push(("connection"@, v))) <==> names::lowered(v) == names::lowered(
            seq!['c', 'l', 'o', 's', 'e'],
        ),
        !asks_to_close(Seq::empty()),
{
    reveal_strlit("close");
    assert("close"@ =~= seq!['c', 'l', 'o', 's', 'e']);
    assert(fields.push(("connection"@, v)).last() == ("connection"@, v));
}

} // verus!
