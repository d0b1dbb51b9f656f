//! The application's interface: what can be asked for, and what is answered.

use vstd::prelude::*;

use crate::bytes::slice_to_vec;
use crate::layer;
use crate::layer::Ramp;
use crate::mosaic::style::MosaicStyle;
use crate::names;
use crate::names::{base_name, has_ext, sanitise_name};
use crate::project::moves::RefusedKind;
use crate::project::{Placement, KIND_RASTER, KIND_VECTOR};
use crate::server::url;
use crate::server::url::Query;
use crate::text;
use crate::text::{
    chars_of, contains, copy, parse_unsigned, push_chars, push_str, same, split, text_of, trim,
    trim_end_matches,
};

pub mod body;
pub mod browse;
pub mod cache;
pub mod chart;
pub mod encode;
pub mod gate;
pub mod near;
pub mod route;
pub mod step;

verus! {

// ---- answers -------------------------------------------------------------------

/// A character as it stands in a JSON string.
pub open spec fn json_char(c: char) -> Seq<char> {
    let n = c as nat;
    if n == 34 {
        seq!['\\', '"']
    } else if n == 92 {
        seq!['\\', '\\']
    } else if n == 8 {
        seq!['\\', 'b']
    } else if n == 9 {
        seq!['\\', 't']
    } else if n == 10 {
        seq!['\\', 'n']
    } else if n == 12 {
        seq!['\\', 'f']
    } else if n == 13 {
        seq!['\\', 'r']
    } else if n < 32 {
        seq!['\\', 'u'] + text::hex(n, 4)
    } else {
        seq![c]
    }
}

/// The characters of a text as they stand in a JSON string.
pub open spec fn json_chars(s: Seq<char>) -> Seq<char>
    decreases s.len(),
{
    if s.len() == 0 {
        Seq::empty()
    } else {
        json_chars(s.drop_last()) + json_char(s.last())
    }
}

/// A text as a JSON string.
pub open spec fn quoted(s: Seq<char>) -> Seq<char> {
    seq!['"'] + json_chars(s) + seq!['"']
}

/// `serde_json::to_string` of a string: quotation marks around its characters,
/// with quotation marks, backslashes and control characters escaped and
/// everything else as it is. It never fails on a string.
#[verifier::external_body]
fn json_string(s: &str) -> (r: String)
    ensures
        r@ == quoted(s@),
{
    serde_json::to_string(s).unwrap_or_default()
}

/// What an answer carries.
pub enum Body {
    /// JSON, as text.
    Json(String),
    Png(Vec<u8>),
    Html(String),
    Text(String),
    /// Anything, with the kind of content it is.
    Raw(Vec<u8>, &'static str),
    Empty,
}

/// An answer.
pub struct Response {
    pub status: u16,
    pub body: Body,
    /// For how many seconds it may be kept; 0 is not at all.
    pub cache_s: u32,
}

/// What an error says.
pub open spec fn error_text(message: Seq<char>) -> Seq<char> {
    "{\"error\":"@ + quoted(message) + "}"@
}

impl Response {
    /// JSON.
    pub fn json(v: String) -> (r: Response)
        ensures
            r == (Response { status: 200, body: Body::Json(v), cache_s: 0 }),
    {
        Response { status: 200, body: Body::Json(v), cache_s: 0 }
    }

    /// A picture.
    pub fn png(b: Vec<u8>, cache_s: u32) -> (r: Response)
        ensures
            r == (Response { status: 200, body: Body::Png(b), cache_s }),
    {
        Response { status: 200, body: Body::Png(b), cache_s }
    }

    /// A picture that is not here yet: one with nothing in it, and the request
    /// to come back.
    pub fn pending() -> (r: Response)
        ensures
            r.status == 202,
            r.body matches Body::Png(b) && b@ == cache::BLANK_PNG@,
            r.cache_s == 0,
    {
        let b = slice_to_vec(cache::BLANK_PNG.as_slice(), 0, 67);
        proof {
            assert(b@ =~= cache::BLANK_PNG@);
        }
        Response { status: 202, body: Body::Png(b), cache_s: 0 }
    }

    /// A page.
    pub fn html(s: String) -> (r: Response)
        ensures
            r == (Response { status: 200, body: Body::Html(s), cache_s: 0 }),
    {
        Response { status: 200, body: Body::Html(s), cache_s: 0 }
    }

    /// Bytes of some kind.
    pub fn raw(bytes: Vec<u8>, ct: &'static str, cache_s: u32) -> (r: Response)
        ensures
            r == (Response { status: 200, body: Body::Raw(bytes, ct), cache_s }),
    {
        Response { status: 200, body: Body::Raw(bytes, ct), cache_s }
    }

    /// An error, and what it was.
    pub fn err(status: u16, message: &str) -> (r: Response)
        ensures
            r.status == status,
            r.body matches Body::Json(v) && v@ == error_text(message@),
            r.cache_s == 0,
    {
        let mut v = copy("{\"error\":");
        let m = json_string(message);
        push_str(&mut v, m.as_str());
        push_str(&mut v, "}");
        Response { status, body: Body::Json(v), cache_s: 0 }
    }

    /// The same answer with another status.
    pub fn with_status(self, status: u16) -> (r: Response)
        ensures
            r == (Response { status, body: self.body, cache_s: self.cache_s }),
    {
        Response { status, body: self.body, cache_s: self.cache_s }
    }

    /// There is nothing here.
    pub fn not_found() -> (r: Response)
        ensures
            r == (Response { status: 404, body: Body::Empty, cache_s: 0 }),
    {
        Response { status: 404, body: Body::Empty, cache_s: 0 }
    }

    /// The kind of content.
    pub fn content_type(&self) -> (s: &'static str)
        ensures
            s@ == (match self.body {
                Body::Json(_) => "application/json"@,
                Body::Png(_) => "image/png"@,
                Body::Html(_) => "text/html; charset=utf-8"@,
                Body::Text(_) => "text/plain; charset=utf-8"@,
                Body::Raw(_, ct) => ct@,
                Body::Empty => "text/plain"@,
            }),
    {
        match &self.body {
            Body::Json(_) => "application/json",
            Body::Png(_) => "image/png",
            Body::Html(_) => "text/html; charset=utf-8",
            Body::Text(_) => "text/plain; charset=utf-8",
            Body::Raw(_, ct) => *ct,
            Body::Empty => "text/plain",
        }
    }

    /// The content.
    pub fn bytes(self) -> (b: Vec<u8>)
        ensures
            b@ == (match self.body {
                Body::Json(s) => vstd::utf8::encode_utf8(s@),
                Body::Html(s) => vstd::utf8::encode_utf8(s@),
                Body::Text(s) => vstd::utf8::encode_utf8(s@),
                Body::Png(b) => b@,
                Body::Raw(b, _) => b@,
                Body::Empty => Seq::empty(),
            }),
    {
        match self.body {
            Body::Json(s) => utf8(s.as_str()),
            Body::Html(s) => utf8(s.as_str()),
            Body::Text(s) => utf8(s.as_str()),
            Body::Png(b) => b,
            Body::Raw(b, _) => b,
            Body::Empty => Vec::new(),
        }
    }
}

fn utf8(s: &str) -> (v: Vec<u8>)
    ensures
        v@ == vstd::utf8::encode_utf8(s@),
{
    let b = s.as_bytes();
    let v = slice_to_vec(b, 0, b.len());
    proof {
        assert(v@ =~= b@);
    }
    v
}

// ---- settings of a request -----------------------------------------------------

/// A whole number among the settings of a request.
pub open spec fn number(q: Seq<(Seq<char>, Seq<char>)>, k: Seq<char>, max: u64) -> Option<nat> {
    match url::lookup(q, k) {
        Some(v) => match text::unsigned_of(v) {
            Some(n) => if n <= max {
                Some(n)
            } else {
                None
            },
            None => None,
        },
        None => None,
    }
}

/// A whole number among the settings of a request, where it is there and not
/// too large.
pub fn q_num(q: &Query, k: &str, max: u64) -> (r: Option<u64>)
    ensures
        match number(q@, k@, max) {
            Some(n) => r matches Some(x) && x == n,
            None => r is None,
        },
{
    match q.get(k) {
        Some(v) => parse_unsigned(&chars_of(v.as_str()), max),
        None => None,
    }
}

/// The channel a request is about: the one it names, or else the first of those
/// that were recorded, or else 20.
pub fn channel_of(q: &Query, recorded: &Vec<u8>) -> (s: u8)
    ensures
        s == (match number(q@, "subsystem"@, 255) {
            Some(n) => n as u8,
            None => if recorded@.len() > 0 {
                recorded@[0]
            } else {
                20
            },
        }),
{
    match q_num(q, "subsystem", 255) {
        Some(n) => n as u8,
        None => if recorded.len() > 0 {
            recorded[0]
        } else {
            20
        },
    }
}

/// What a setting makes of a switch.
pub open spec fn switched(q: Seq<(Seq<char>, Seq<char>)>, k: Seq<char>, was: bool) -> bool {
    match url::lookup(q, k) {
        Some(v) => v == "1"@ || v == "true"@,
        None => was,
    }
}

/// What a setting makes of a switch: on for `1` and `true`, off for anything
/// else, and as it was where it is not set.
pub fn q_switch(q: &Query, k: &str, was: bool) -> (r: bool)
    ensures
        r == switched(q@, k@, was),
{
    match q.get(k) {
        Some(v) => same(v.as_str(), "1") || same(v.as_str(), "true"),
        None => was,
    }
}

/// Whether a colour scheme is the one that a request asks for, or the one it
/// was where the request asks for none that there is.
pub open spec fn ramp_asked(q: Seq<(Seq<char>, Seq<char>)>, was: Ramp, r: Ramp) -> bool {
    match url::lookup(q, "ramp"@) {
        Some(v) => if exists|x: Ramp| layer::ramp_name(x) == v {
            layer::ramp_name(r) == v
        } else {
            r == was
        },
        None => r == was,
    }
}

/// The colour scheme that a request asks for, or what it was where it asks for
/// none that there is.
pub fn q_ramp(q: &Query, was: Ramp) -> (r: Ramp)
    ensures
        ramp_asked(q@, was, r),
{
    match q.get("ramp") {
        Some(v) => match Ramp::parse(v.as_str()) {
            Some(r) => r,
            None => was,
        },
        None => was,
    }
}

/// How a request wants a mosaic coloured: the ordinary way, but for what it
/// sets. The ends of the range come as the numbers they were read as.
pub fn mosaic_style_from_query(q: &Query, lo: Option<u8>, hi: Option<u8>) -> (s: MosaicStyle)
    ensures
        ramp_asked(q@, Ramp::Grey, s.ramp),
        s.reverse == switched(q@, "reverse"@, false),
        s.lo == (match lo {
            Some(v) => v,
            None => 0,
        }),
        s.hi == (match hi {
            Some(v) => v,
            None => 255,
        }),
{
    let d = MosaicStyle::default();
    MosaicStyle {
        ramp: q_ramp(q, d.ramp),
        reverse: q_switch(q, "reverse", d.reverse),
        lo: match lo {
            Some(v) => v,
            None => d.lo,
        },
        hi: match hi {
            Some(v) => v,
            None => d.hi,
        },
    }
}

/// The numbers in a list with commas between; what is no number is left out.
pub open spec fn listed(parts: Seq<Seq<char>>) -> Seq<u32>
    decreases parts.len(),
{
    if parts.len() == 0 {
        Seq::empty()
    } else {
        let before = listed(parts.drop_last());
        match text::unsigned_of(text::trimmed(parts.last())) {
            Some(n) => if n <= u32::MAX {
                before.push(n as u32)
            } else {
                before
            },
            None => before,
        }
    }
}

/// The coordinate systems in a list with commas between.
pub fn codes(s: &str) -> (r: Vec<u32>)
    ensures
        r@ == listed(text::split_on(s@, ',')),
{
    let parts = split(&chars_of(s), ',');
    let ghost all = text::split_on(s@, ',');
    let mut out: Vec<u32> = Vec::new();
    let mut i: usize = 0;
    proof {
        assert(all.take(0) =~= Seq::empty());
    }
    while i < parts.len()
        invariant
            i <= parts@.len(),
            all == text::chars_views(parts@),
            out@ == listed(all.take(i as int)),
        decreases parts.len() - i,
    {
        proof {
            assert(all.take(i + 1).drop_last() =~= all.take(i as int));
            assert(all.take(i + 1).last() == parts@[i as int]@);
        }
        match parse_unsigned(&trim(&parts[i]), u32::MAX as u64) {
            Some(n) => {
                out.push(n as u32);
            },
            None => {},
        }
        i += 1;
    }
    proof {
        assert(all.take(i as int) =~= all);
    }
    out
}

// ---- pictures of contacts --------------------------------------------------------

/// Which picture of a contact is meant: the chart or the waterfall, and the
/// band it was drawn from.
#[derive(Clone, Copy, PartialEq, Eq, Structural, Debug)]
pub enum SnapKind {
    MapView,
    Waterfall,
    Low,
    High,
    WaterfallLow,
    WaterfallHigh,
}

/// The picture that a request's settings mean.
pub open spec fn snap_asked(q: Seq<(Seq<char>, Seq<char>)>) -> Option<SnapKind> {
    match url::lookup(q, "kind"@) {
        None => Some(SnapKind::MapView),
        Some(k) => if k == ""@ || k == "map"@ {
            Some(SnapKind::MapView)
        } else if k == "waterfall"@ {
            Some(SnapKind::Waterfall)
        } else if k == "lf"@ {
            Some(SnapKind::Low)
        } else if k == "hf"@ {
            Some(SnapKind::High)
        } else if k == "wf-lf"@ {
            Some(SnapKind::WaterfallLow)
        } else if k == "wf-hf"@ {
            Some(SnapKind::WaterfallHigh)
        } else {
            None
        },
    }
}

impl SnapKind {
    /// The picture that a request's settings mean; one that is not known is
    /// none.
    pub fn from_query(q: &Query) -> (r: Option<SnapKind>)
        ensures
            r == snap_asked(q@),
    {
        match q.get("kind") {
            None => Some(SnapKind::MapView),
            Some(v) => {
                let k = v.as_str();
                if same(k, "") || same(k, "map") {
                    Some(SnapKind::MapView)
                } else if same(k, "waterfall") {
                    Some(SnapKind::Waterfall)
                } else if same(k, "lf") {
                    Some(SnapKind::Low)
                } else if same(k, "hf") {
                    Some(SnapKind::High)
                } else if same(k, "wf-lf") {
                    Some(SnapKind::WaterfallLow)
                } else if same(k, "wf-hf") {
                    Some(SnapKind::WaterfallHigh)
                } else {
                    None
                }
            },
        }
    }

    /// What the name of the picture's file ends in.
    pub open spec fn ending(self) -> Seq<char> {
        match self {
            SnapKind::MapView => ""@,
            SnapKind::Waterfall => "-wf"@,
            SnapKind::Low => "-lf"@,
            SnapKind::High => "-hf"@,
            SnapKind::WaterfallLow => "-wf-lf"@,
            SnapKind::WaterfallHigh => "-wf-hf"@,
        }
    }

    /// What the name of the picture's file ends in.
    pub fn suffix(self) -> (s: &'static str)
        ensures
            s@ == self.ending(),
    {
        match self {
            SnapKind::MapView => "",
            SnapKind::Waterfall => "-wf",
            SnapKind::Low => "-lf",
            SnapKind::High => "-hf",
            SnapKind::WaterfallLow => "-wf-lf",
            SnapKind::WaterfallHigh => "-wf-hf",
        }
    }

    /// The name of the picture.
    pub open spec fn title(self) -> Seq<char> {
        match self {
            SnapKind::MapView => "map"@,
            SnapKind::Waterfall => "waterfall"@,
            SnapKind::Low => "lf"@,
            SnapKind::High => "hf"@,
            SnapKind::WaterfallLow => "wf-lf"@,
            SnapKind::WaterfallHigh => "wf-hf"@,
        }
    }

    /// The name of the picture.
    pub fn name(self) -> (s: &'static str)
        ensures
            s@ == self.title(),
    {
        match self {
            SnapKind::MapView => "map",
            SnapKind::Waterfall => "waterfall",
            SnapKind::Low => "lf",
            SnapKind::High => "hf",
            SnapKind::WaterfallLow => "wf-lf",
            SnapKind::WaterfallHigh => "wf-hf",
        }
    }

    /// Where the picture stands among the pictures of a contact.
    pub open spec fn place(self) -> int {
        match self {
            SnapKind::MapView => 0,
            SnapKind::Waterfall => 1,
            SnapKind::Low => 2,
            SnapKind::High => 3,
            SnapKind::WaterfallLow => 4,
            SnapKind::WaterfallHigh => 5,
        }
    }

    /// Where the picture stands among the pictures of a contact.
    pub fn slot(self) -> (i: usize)
        ensures
            i == self.place(),
            i < 6,
    {
        match self {
            SnapKind::MapView => 0,
            SnapKind::Waterfall => 1,
            SnapKind::Low => 2,
            SnapKind::High => 3,
            SnapKind::WaterfallLow => 4,
            SnapKind::WaterfallHigh => 5,
        }
    }

    /// Every picture of a contact, in the order in which they stand.
    pub fn all() -> (v: Vec<SnapKind>)
        ensures
            v@.len() == 6,
            forall|k: SnapKind| v@[#[trigger] k.place()] == k,
    {
        vec![
            SnapKind::MapView,
            SnapKind::Waterfall,
            SnapKind::Low,
            SnapKind::High,
            SnapKind::WaterfallLow,
            SnapKind::WaterfallHigh,
        ]
    }
}

/// The pictures of a contact are kept under different names, and in different
/// places.
pub proof fn law_pictures_do_not_share_a_file(a: SnapKind, b: SnapKind)
    requires
        a != b,
    ensures
        a.ending() != b.ending(),
        a.place() != b.place(),
{
    reveal_strlit("");
    reveal_strlit("-wf");
    reveal_strlit("-lf");
    reveal_strlit("-hf");
    reveal_strlit("-wf-lf");
    reveal_strlit("-wf-hf");
    let s = a.ending();
    let t = b.ending();
    if s == t {
        assert(s.len() == t.len());
        if s.len() == 3 {
            assert(s[1] == t[1]);
        } else if s.len() == 6 {
            assert(s[4] == t[4]);
        }
    }
}

/// A picture that is asked for by its own name is the one that is meant.
pub proof fn law_named_picture_is_found(q: Seq<(Seq<char>, Seq<char>)>, kind: SnapKind)
    requires
        url::lookup(q, "kind"@) == Some(kind.title()),
    ensures
        snap_asked(q) == Some(kind),
{
    reveal_strlit("");
    reveal_strlit("map");
    reveal_strlit("waterfall");
    reveal_strlit("lf");
    reveal_strlit("hf");
    reveal_strlit("wf-lf");
    reveal_strlit("wf-hf");
    assert(""@.len() == 0 && "map"@.len() == 3 && "waterfall"@.len() == 9);
    assert("lf"@.len() == 2 && "lf"@[0] == 'l' && "hf"@.len() == 2 && "hf"@[0] == 'h');
    assert("wf-lf"@.len() == 5 && "wf-lf"@[3] == 'l' && "wf-hf"@.len() == 5 && "wf-hf"@[3] == 'h');
}

/// The file a picture of a contact is kept in.
pub fn snap_file(id: &[char], kind: SnapKind) -> (s: String)
    ensures
        s@ == id@ + kind.ending() + ".png"@,
{
    let mut s = text_of(id);
    push_str(&mut s, kind.suffix());
    push_str(&mut s, ".png");
    s
}

/// The file of the picture that a request's path asks for, which may carry the
/// ending of the picture.
pub fn snap_asked_for(id: &[char], kind: SnapKind) -> (s: String)
    ensures
        s@ == text::without_end(id@, ".png"@) + kind.ending() + ".png"@,
{
    proof {
        reveal_strlit(".png");
    }
    let stem = trim_end_matches(id, &chars_of(".png"));
    snap_file(&stem, kind)
}

// ---- names ---------------------------------------------------------------------

/// Whether a character is a letter or a digit of the basic alphabet.
pub open spec fn is_alphanumeric(c: char) -> bool {
    let n = c as int;
    48 <= n <= 57 || 65 <= n <= 90 || 97 <= n <= 122
}

fn alphanumeric(c: char) -> (r: bool)
    ensures
        r == is_alphanumeric(c),
{
    let n: u32 = c as u32;
    (48 <= n && n <= 57) || (65 <= n && n <= 90) || (97 <= n && n <= 122)
}

/// A character that can stand in a file name, or `_` for one that should not.
pub open spec fn safe_char(c: char) -> char {
    if is_alphanumeric(c) || c == '-' || c == '_' {
        c
    } else {
        '_'
    }
}

/// A text as a file name.
pub open spec fn safe(s: Seq<char>) -> Seq<char> {
    s.map_values(|c: char| safe_char(c))
}

/// A text as a file name: everything but letters, digits, `-` and `_` becomes
/// `_`.
pub fn safe_name(s: &str) -> (r: String)
    ensures
        r@ == safe(s@),
{
    let v = chars_of(s);
    let mut out = String::new();
    let mut i: usize = 0;
    while i < v.len()
        invariant
            i <= v@.len(),
            out@ == safe(v@).take(i as int),
        decreases v.len() - i,
    {
        let c = v[i];
        out.push(
            if alphanumeric(c) || c == '-' || c == '_' {
                c
            } else {
                '_'
            },
        );
        i += 1;
        proof {
            assert(safe(v@).take(i as int) =~= safe(v@).take(i - 1).push(safe(v@)[i - 1]));
        }
    }
    proof {
        assert(safe(v@).take(i as int) =~= safe(v@));
    }
    out
}

/// A file name made of a text holds no separator and no dot, and is its own.
pub proof fn law_safe_name(s: Seq<char>)
    ensures
        safe(s).len() == s.len(),
        !safe(s).contains('/'),
        !safe(s).contains('\\'),
        !safe(s).contains('.'),
        safe(safe(s)) == safe(s),
{
    assert forall|i: int| 0 <= i < s.len() implies safe(s)[i] == safe_char(s[i]) by {}
    assert(safe(safe(s)) =~= safe(s));
}

/// Whether a name may be given to a picture for the report.
pub open spec fn is_image_name(s: Seq<char>) -> bool {
    &&& 0 < s.len() <= 120
    &&& forall|i: int|
        0 <= i < s.len() ==> is_alphanumeric(#[trigger] s[i]) || s[i] == '-' || s[i] == '_'
            || s[i] == '.'
    &&& !text::occurs(s, ".."@)
}

/// Whether a name may be given to a picture for the report: it becomes a file
/// name, so it may not wander out of the directory it is meant for.
pub fn image_name(v: &[char]) -> (r: bool)
    ensures
        r == is_image_name(v@),
{
    if v.len() == 0 || v.len() > 120 {
        return false;
    }
    let mut i: usize = 0;
    while i < v.len()
        invariant
            i <= v@.len(),
            forall|j: int|
                0 <= j < i ==> is_alphanumeric(#[trigger] v@[j]) || v@[j] == '-' || v@[j] == '_'
                    || v@[j] == '.',
        decreases v.len() - i,
    {
        let c = v[i];
        if !(alphanumeric(c) || c == '-' || c == '_' || c == '.') {
            return false;
        }
        i += 1;
    }
    !contains(v, &chars_of(".."))
}

/// What kind of layer a file can be imported as.
pub open spec fn importable_as(p: Seq<char>) -> Option<Seq<char>> {
    if names::with_extension(p, "tif"@) || names::with_extension(p, "tiff"@)
        || names::with_extension(p, "gtif"@) || names::with_extension(p, "gtiff"@) {
        Some(KIND_RASTER@)
    } else if names::with_extension(p, "gpx"@) {
        Some(KIND_VECTOR@)
    } else {
        None
    }
}

/// What kind of layer a file can be imported as, by the ending of its name.
pub fn importable(p: &str) -> (r: Option<&'static str>)
    ensures
        match importable_as(p@) {
            Some(k) => r matches Some(s) && s@ == k,
            None => r is None,
        },
{
    if has_ext(p, "tif") || has_ext(p, "tiff") || has_ext(p, "gtif") || has_ext(p, "gtiff") {
        Some(KIND_RASTER)
    } else if has_ext(p, "gpx") {
        Some(KIND_VECTOR)
    } else {
        None
    }
}

/// The identifier of a layer imported from a file: its kind, and ten characters
/// of the digest of its path.
pub open spec fn layer_id_of(kind: Seq<char>, digest: Seq<char>) -> Seq<char> {
    kind + ":"@ + digest.take(10)
}

/// The identifier of a layer imported from a file.
pub fn layer_id(kind: &str, digest: &str) -> (s: String)
    requires
        digest@.len() >= 10,
    ensures
        s@ == layer_id_of(kind@, digest@),
{
    let mut s = copy(kind);
    push_str(&mut s, ":");
    let v = chars_of(digest);
    let d = text::part(&v, 0, 10);
    push_chars(&mut s, &d);
    proof {
        assert(d@ =~= digest@.take(10));
    }
    s
}

/// Why a folder of recordings cannot be brought in under what was asked for.
pub enum ImportRefusal {
    /// Nothing is left of the name.
    NoName,
    /// There is no such way of bringing it in.
    UnknownMode(String),
}

impl ImportRefusal {
    /// What is told.
    pub fn message(&self) -> (s: String)
        ensures
            s@ == (match *self {
                ImportRefusal::NoName => "a recording needs a name"@,
                ImportRefusal::UnknownMode(m) => "unknown mode "@ + m@,
            }),
    {
        match self {
            ImportRefusal::NoName => copy("a recording needs a name"),
            ImportRefusal::UnknownMode(m) => {
                let mut s = copy("unknown mode ");
                push_str(&mut s, m.as_str());
                s
            },
        }
    }
}

/// The name that a folder of recordings is brought in under: the one that was
/// asked for, or the folder's own.
pub open spec fn import_name(asked: Option<Seq<char>>, path: Seq<char>) -> Seq<char> {
    match asked {
        Some(n) => if text::trimmed(n).len() > 0 {
            names::sanitised(n)
        } else {
            names::sanitised(names::file_name(path))
        },
        None => names::sanitised(names::file_name(path)),
    }
}

/// The way a folder of recordings is brought in.
pub open spec fn import_mode(asked: Option<Seq<char>>) -> Option<Placement> {
    match asked {
        None => Some(Placement::Link),
        Some(m) => if m == "copy"@ {
            Some(Placement::Copy)
        } else if m == "move"@ {
            Some(Placement::Move)
        } else if m == "link"@ {
            Some(Placement::Link)
        } else {
            None
        },
    }
}

/// A text that may be missing.
pub open spec fn seen(s: Option<&str>) -> Option<Seq<char>> {
    match s {
        Some(s) => Some(s@),
        None => None,
    }
}

/// Decide under which name, and how, a folder of recordings is brought in.
pub fn import_request(name: Option<&str>, path: &str, mode: Option<&str>) -> (r: Result<
    (String, Placement),
    ImportRefusal,
>)
    ensures
        ({
            let n = import_name(seen(name), path@);
            if n.len() == 0 {
                r matches Err(ImportRefusal::NoName)
            } else {
                match import_mode(seen(mode)) {
                    Some(p) => r matches Ok(x) && x.0@ == n && x.1 == p,
                    None => r matches Err(ImportRefusal::UnknownMode(m)) && m@ == seen(mode)->0,
                }
            }
        }),
{
    let clean = match name {
        Some(n) => if trim(&chars_of(n)).len() > 0 {
            sanitise_name(n)
        } else {
            sanitise_name(base_name(path).as_str())
        },
        None => sanitise_name(base_name(path).as_str()),
    };
    if clean.as_str().is_empty() {
        return Err(ImportRefusal::NoName);
    }
    match mode {
        None => Ok((clean, Placement::Link)),
        Some(m) => if same(m, "copy") {
            Ok((clean, Placement::Copy))
        } else if same(m, "move") {
            Ok((clean, Placement::Move))
        } else if same(m, "link") {
            Ok((clean, Placement::Link))
        } else {
            Err(ImportRefusal::UnknownMode(copy(m)))
        },
    }
}

/// The status that a refused import is answered with. A name that is taken is
/// a conflict, which another name resolves.
pub fn import_status(kind: RefusedKind) -> (s: u16)
    ensures
        s == (if kind is AlreadyExists {
            409
        } else {
            422u16
        }),
{
    match kind {
        RefusedKind::AlreadyExists => 409,
        _ => 422,
    }
}

/// The name of the project that was open last, from what was noted of it.
pub fn last_project(noted: &str) -> (r: Option<String>)
    ensures
        r is Some == (text::trimmed(noted@).len() > 0),
        r matches Some(s) ==> s@ == text::trimmed(noted@),
{
    let t = trim(&chars_of(noted));
    if t.len() == 0 {
        None
    } else {
        Some(text_of(&t))
    }
}

// ---- what holds of them --------------------------------------------------------------

/// What a JSON string stands for, its quotes taken off.
pub open spec fn json_meant(s: Seq<char>) -> Seq<char>
    decreases s.len(),
{
    if s.len() == 0 {
        s
    } else if s[0] != '\\' {
        seq![s[0]] + json_meant(s.skip(1))
    } else if s.len() < 2 {
        s
    } else if s[1] == 'u' {
        if s.len() < 6 {
            s
        } else {
            seq![text::sixteens_of(s.subrange(2, 6)) as char] + json_meant(s.skip(6))
        }
    } else {
        seq![
            if s[1] == 'n' {
                '\n'
            } else if s[1] == 't' {
                '\t'
            } else if s[1] == 'r' {
                '\r'
            } else if s[1] == 'b' {
                8 as char
            } else if s[1] == 'f' {
                12 as char
            } else {
                s[1]
            },
        ] + json_meant(s.skip(2))
    }
}

proof fn lemma_json_sign(c: char, rest: Seq<char>)
    ensures
        json_meant(json_char(c) + rest) == seq![c] + json_meant(rest),
        forall|i: int| 0 <= i < json_char(c).len() ==> #[trigger] json_char(c)[i] as int >= 32,
{
    let x = json_char(c);
    let s = x + rest;
    let n = c as nat;
    if n == 34 || n == 92 || n == 8 || n == 9 || n == 10 || n == 12 || n == 13 {
        assert(s.skip(2) =~= rest);
        assert(s[0] == '\\' && s[1] == x[1]);
    } else if n < 32 {
        vstd::arithmetic::power::lemma_pow1(16);
        reveal(vstd::arithmetic::power::pow);
        reveal_with_fuel(vstd::arithmetic::power::pow, 5);
        assert(vstd::arithmetic::power::pow(16, 4) == 65536);
        text::law_hex_reads_back(n, 4);
        assert(s.skip(6) =~= rest);
        assert(s.subrange(2, 6) =~= text::hex(n, 4));
        assert(s[0] == '\\' && s[1] == 'u');
    } else {
        assert(s.skip(1) =~= rest);
    }
}

proof fn lemma_json_front(c: char, s: Seq<char>)
    ensures
        json_chars(seq![c] + s) == json_char(c) + json_chars(s),
    decreases s.len(),
{
    let t = seq![c] + s;
    if s.len() == 0 {
        assert(t.drop_last() =~= s);
        assert(t.last() == c);
        assert(json_chars(s) =~= Seq::<char>::empty());
        assert(json_chars(t) =~= json_chars(s) + json_char(c));
    } else {
        lemma_json_front(c, s.drop_last());
        assert(t.drop_last() =~= seq![c] + s.drop_last());
        assert(t.last() == s.last());
        assert(json_chars(t) == json_chars(t.drop_last()) + json_char(t.last()));
        assert(json_chars(s) == json_chars(s.drop_last()) + json_char(s.last()));
        assert(json_chars(t) =~= json_char(c) + json_chars(s));
    }
}

/// Text that is put in quotes stands for the text, and no sign in it is one that a
/// JSON string may not hold.
pub proof fn law_quoted_means_the_text(s: Seq<char>)
    ensures
        quoted(s)[0] == '"',
        quoted(s).last() == '"',
        quoted(s).len() >= 2,
        json_meant(quoted(s).subrange(1, quoted(s).len() - 1)) == s,
        forall|i: int| 0 <= i < quoted(s).len() ==> #[trigger] quoted(s)[i] as int >= 32,
    decreases s.len(),
{
    let q = quoted(s);
    assert(q.subrange(1, q.len() - 1) =~= json_chars(s));
    if s.len() == 0 {
        assert(json_meant(json_chars(s)) =~= s);
    } else {
        let t = s.skip(1);
        assert(seq![s[0]] + t =~= s);
        law_quoted_means_the_text(t);
        lemma_json_front(s[0], t);
        lemma_json_sign(s[0], json_chars(t));
        let u = quoted(t);
        assert(u.subrange(1, u.len() - 1) =~= json_chars(t));
        assert forall|i: int| 0 <= i < q.len() implies #[trigger] q[i] as int >= 32 by {
            let m = json_char(s[0]).len();
            if 0 < i <= m {
                assert(q[i] == json_char(s[0])[i - 1]);
            } else if m < i < q.len() - 1 {
                assert(q[i] == u[i - m]);
            }
        }
    }
}

/// A number that is asked for is the one that was written last, where it is not too
/// large.
pub proof fn law_asked_number(q: Seq<(Seq<char>, Seq<char>)>, k: Seq<char>, n: nat, max: u64)
    ensures
        number(q.push((k, text::dec(n))), k, max) == (if n <= max {
            Some(n)
        } else {
            None
        }),
        number(Seq::empty(), k, max) is None,
{
    text::law_written_number_is_read(n, 0);
    assert(q.push((k, text::dec(n))).last() == (k, text::dec(n)));
}

/// A switch is on where it was last set to 1 or to true, off where it was set to
/// anything else, and as it was where it was not set.
pub proof fn law_switches(q: Seq<(Seq<char>, Seq<char>)>, k: Seq<char>, v: Seq<char>, was: bool)
    ensures
        switched(q.push((k, "1"@)), k, was),
        switched(q.push((k, "true"@)), k, was),
        v != "1"@ && v != "true"@ ==> !switched(q.push((k, v)), k, was),
        switched(Seq::empty(), k, was) == was,
{
    assert(q.push((k, "1"@)).last() == (k, "1"@));
    assert(q.push((k, "true"@)).last() == (k, "true"@));
    assert(q.push((k, v)).last() == (k, v));
}

/// Codes are listed in the order that they are written in, each that is a number.
pub proof fn law_codes_in_order(a: Seq<Seq<char>>, b: Seq<Seq<char>>)
    ensures
        listed(a + b) == listed(a) + listed(b),
        forall|n: nat|
            n <= u32::MAX ==> listed(seq![#[trigger] text::dec(n)]) == seq![n as u32],
    decreases b.len(),
{
    assert forall|n: nat| n <= u32::MAX implies listed(seq![#[trigger] text::dec(n)])
        == seq![n as u32] by {
        text::law_written_number_is_read(n, 0);
        let r = text::law_trimmed(text::dec(n));
        text::lemma_dec_reads(n);
        assert(text::is_digit(text::dec(n)[0]) && text::is_digit(text::dec(n).last()));
        assert(r.0 == 0 && r.1 == text::dec(n).len());
        assert(text::dec(n).subrange(0, text::dec(n).len() as int) =~= text::dec(n));
        assert(seq![text::dec(n)].drop_last() =~= Seq::empty());
        assert(listed(Seq::empty()) =~= Seq::<u32>::empty());
        assert(Seq::<u32>::empty().push(n as u32) =~= seq![n as u32]);
    }
    if b.len() == 0 {
        assert(a + b =~= a);
        assert(listed(a) + listed(b) =~= listed(a));
    } else {
        law_codes_in_order(a, b.drop_last());
        assert((a + b).drop_last() =~= a + b.drop_last());
        assert((a + b).last() == b.last());
        assert(listed(a + b) =~= listed(a) + listed(b));
    }
}

/// What can be taken in is told by a file's extension: images of the ground, and
/// tracks.
pub proof fn law_importable(base: Seq<char>, stem: Seq<char>)
    requires
        stem.len() > 0,
        forall|i: int| 0 <= i < stem.len() ==> #[trigger] stem[i] != '/',
    ensures
        importable_as(names::joined(base, stem + seq!['.'] + "tif"@)) == Some("raster"@),
        importable_as(names::joined(base, stem + seq!['.'] + "tiff"@)) == Some("raster"@),
        importable_as(names::joined(base, stem + seq!['.'] + "gpx"@)) == Some("vector"@),
{
    reveal_strlit("tif");
    reveal_strlit("tiff");
    reveal_strlit("gtif");
    reveal_strlit("gtiff");
    reveal_strlit("gpx");
    assert("tif"@.len() == 3 && "tiff"@.len() == 4 && "gpx"@.len() == 3 && "gtif"@.len() == 4
        && "gtiff"@.len() == 5);
    names::law_extension(base, stem, "tif"@);
    names::law_extension(base, stem, "tiff"@);
    names::law_extension(base, stem, "gpx"@);
    let (g, t) = (names::lowered("gpx"@), names::lowered("tif"@));
    assert(g[0] == 'g' && t[0] == 't');
    assert(names::lowered("tiff"@).len() == 4 && names::lowered("gtif"@).len() == 4);
    assert(names::lowered("gtiff"@).len() == 5 && g.len() == 3);
}

/// The name of an image is one that is safe in a path: it goes nowhere else.
pub proof fn law_image_names(s: Seq<char>)
    requires
        is_image_name(s),
    ensures
        s.len() > 0,
        !s.contains('/'),
        !s.contains('\\'),
        !text::occurs(s, ".."@),
{
    if s.contains('/') {
        let i = choose|i: int| 0 <= i < s.len() && s[i] == '/';
        assert(is_alphanumeric(s[i]) || s[i] == '-' || s[i] == '_' || s[i] == '.');
    }
    if s.contains('\\') {
        let i = choose|i: int| 0 <= i < s.len() && s[i] == '\\';
        assert(is_alphanumeric(s[i]) || s[i] == '-' || s[i] == '_' || s[i] == '.');
    }
}

/// A ramp is the one of the name that was asked for last, and stays as it was where no
/// ramp has that name or none was asked for.
pub proof fn law_ramp_asked(
    q: Seq<(Seq<char>, Seq<char>)>,
    was: Ramp,
    asked: Ramp,
    r: Ramp,
    v: Seq<char>,
)
    ensures
        ramp_asked(q.push(("ramp"@, layer::ramp_name(asked))), was, r) ==> r == asked,
        ramp_asked(Seq::empty(), was, r) ==> r == was,
        (forall|x: Ramp| #[trigger] layer::ramp_name(x) != v) && ramp_asked(
            q.push(("ramp"@, v)),
            was,
            r,
        ) ==> r == was,
{
    let p = q.push(("ramp"@, layer::ramp_name(asked)));
    assert(p.last() == ("ramp"@, layer::ramp_name(asked)));
    assert(q.push(("ramp"@, v)).last() == ("ramp"@, v));
    if ramp_asked(p, was, r) {
        layer::law_ramp_names(r, asked);
    }
}

} // verus!
