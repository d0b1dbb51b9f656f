//! GPX: tracks, routes and waypoints.
//!
//! A survey arrives with these from every direction -- a planned line list off
//! the bridge, a RIB's track, a set of marks someone dropped on a handheld --
//! and they are the cheapest possible check on the navigation, because they
//! were recorded by a different instrument.
//!
//! Numbers stay as they are written. Whether a position is one is for the
//! caller to say, element by element, between `scan` and `parse`.

use vstd::prelude::*;

use crate::gpx::scan::{Elem, Element};
use crate::text;
use crate::text::{
    chars_of, find_char, float_text, parse_unsigned, part, push_dec, push_str, same, split, text_of,
    trim,
};
use crate::time;
use crate::time::days_from_civil;

pub mod law;
pub mod scan;
pub mod writer;

verus! {

/// A point of a track or a route.
#[verifier::ext_equal]
pub struct Pt {
    pub lat: Seq<char>,
    pub lon: Seq<char>,
    pub ele: Option<Seq<char>>,
    pub time: Option<Seq<char>>,
    pub name: Seq<char>,
    pub desc: Seq<char>,
}

/// A track or a route.
#[verifier::ext_equal]
pub struct Ln {
    pub name: Seq<char>,
    pub points: Seq<Pt>,
}

/// A waypoint.
#[verifier::ext_equal]
pub struct Wp {
    pub name: Seq<char>,
    pub desc: Seq<char>,
    pub lat: Seq<char>,
    pub lon: Seq<char>,
    pub ele: Option<Seq<char>>,
}

/// A file.
#[verifier::ext_equal]
pub struct Doc {
    pub name: Seq<char>,
    pub desc: Seq<char>,
    pub tracks: Seq<Ln>,
    pub routes: Seq<Ln>,
    pub waypoints: Seq<Wp>,
}

/// Where a reader is: what it has, which container it is in, and which point
/// is being filled in.
#[verifier::ext_equal]
pub struct Reading {
    pub doc: Doc,
    pub in_track: bool,
    pub in_route: bool,
    pub line: Option<Ln>,
    pub pt: Option<Pt>,
    pub wpt: Option<Wp>,
    pub saw_gpx: bool,
}

pub open spec fn empty_doc() -> Doc {
    Doc {
        name: Seq::empty(),
        desc: Seq::empty(),
        tracks: Seq::empty(),
        routes: Seq::empty(),
        waypoints: Seq::empty(),
    }
}

pub open spec fn empty_line() -> Ln {
    Ln { name: Seq::empty(), points: Seq::empty() }
}

pub open spec fn reading_start() -> Reading {
    Reading {
        doc: empty_doc(),
        in_track: false,
        in_route: false,
        line: None,
        pt: None,
        wpt: None,
        saw_gpx: false,
    }
}

/// A list with a line added, where there is one.
pub open spec fn with_line(lines: Seq<Ln>, line: Option<Ln>) -> Seq<Ln> {
    match line {
        Some(l) => lines.push(l),
        None => lines,
    }
}

/// A line that was not closed, where it has points.
pub open spec fn left_open(line: Option<Ln>) -> Option<Ln> {
    match line {
        Some(l) => if l.points.len() > 0 {
            Some(l)
        } else {
            None
        },
        None => None,
    }
}

/// The open point is over: it goes to the open line, if there is one.
pub open spec fn point_closed(st: Reading) -> Reading {
    match (st.pt, st.line) {
        (Some(p), Some(l)) => Reading {
            pt: None,
            line: Some(Ln { points: l.points.push(p), ..l }),
            ..st
        },
        _ => Reading { pt: None, ..st },
    }
}

/// The open waypoint is over.
pub open spec fn waypoint_closed(st: Reading) -> Reading {
    match st.wpt {
        Some(w) => Reading {
            wpt: None,
            doc: Doc { waypoints: st.doc.waypoints.push(w), ..st.doc },
            ..st
        },
        None => st,
    }
}

/// A closing tag taken in.
pub open spec fn closed(st: Reading, name: Seq<char>) -> Reading {
    if name == "trk"@ {
        Reading {
            doc: Doc { tracks: with_line(st.doc.tracks, st.line), ..st.doc },
            line: None,
            in_track: false,
            ..st
        }
    } else if name == "rte"@ {
        Reading {
            doc: Doc { routes: with_line(st.doc.routes, st.line), ..st.doc },
            line: None,
            in_route: false,
            ..st
        }
    } else if name == "trkpt"@ || name == "rtept"@ {
        point_closed(st)
    } else if name == "wpt"@ {
        waypoint_closed(st)
    } else {
        st
    }
}

/// A point's opening tag taken in, its position being one.
pub open spec fn point_opened(st: Reading, e: Elem) -> Reading {
    let lat = e.lat->0;
    let lon = e.lon->0;
    let opened = if e.name == "wpt"@ {
        Reading {
            wpt: Some(Wp { name: Seq::empty(), desc: Seq::empty(), lat, lon, ele: None }),
            ..st
        }
    } else {
        Reading {
            pt: Some(
                Pt { lat, lon, ele: None, time: None, name: Seq::empty(), desc: Seq::empty() },
            ),
            ..st
        }
    };
    if e.self_closing {
        waypoint_closed(point_closed(opened))
    } else {
        opened
    }
}

/// A name goes to the innermost thing that is open and has none; a point's or
/// a waypoint's may be replaced.
pub open spec fn named(st: Reading, name: Seq<char>) -> Reading {
    match (st.pt, st.wpt, st.line) {
        (Some(p), _, _) => Reading { pt: Some(Pt { name, ..p }), ..st },
        (None, Some(w), _) => Reading { wpt: Some(Wp { name, ..w }), ..st },
        (None, None, Some(l)) => if l.name.len() == 0 {
            Reading { line: Some(Ln { name, ..l }), ..st }
        } else {
            st
        },
        (None, None, None) => if st.doc.name.len() == 0 && !st.in_track && !st.in_route {
            Reading { doc: Doc { name, ..st.doc }, ..st }
        } else {
            st
        },
    }
}

/// A description goes to the innermost thing that is open and has none; lines
/// take none.
pub open spec fn described(st: Reading, desc: Seq<char>) -> Reading {
    match (st.pt, st.wpt) {
        (Some(p), _) => if p.desc.len() == 0 {
            Reading { pt: Some(Pt { desc, ..p }), ..st }
        } else {
            st
        },
        (None, Some(w)) => if w.desc.len() == 0 {
            Reading { wpt: Some(Wp { desc, ..w }), ..st }
        } else {
            st
        },
        (None, None) => if st.line is None && st.doc.desc.len() == 0 {
            Reading { doc: Doc { desc, ..st.doc }, ..st }
        } else {
            st
        },
    }
}

/// One element taken in. `valid` says whether its position is one.
pub open spec fn taken(st: Reading, e: Elem, valid: bool) -> Reading {
    if e.closing {
        closed(st, e.name)
    } else if e.name == "gpx"@ {
        Reading { saw_gpx: true, ..st }
    } else if e.name == "trk"@ {
        Reading { in_track: true, line: Some(empty_line()), ..st }
    } else if e.name == "rte"@ {
        Reading { in_route: true, line: Some(empty_line()), ..st }
    } else if scan::is_point(e.name) {
        if valid && e.lat is Some && e.lon is Some {
            point_opened(st, e)
        } else {
            st
        }
    } else if e.text.len() == 0 {
        st
    } else if e.name == "name"@ {
        named(st, scan::unescaped(e.text))
    } else if e.name == "desc"@ || e.name == "cmt"@ {
        described(st, scan::unescaped(e.text))
    } else if e.name == "ele"@ {
        let ele = if text::is_float(e.text) {
            Some(e.text)
        } else {
            None
        };
        match (st.pt, st.wpt) {
            (Some(p), _) => Reading { pt: Some(Pt { ele, ..p }), ..st },
            (None, Some(w)) => Reading { wpt: Some(Wp { ele, ..w }), ..st },
            _ => st,
        }
    } else if e.name == "time"@ {
        let time = if stamp_of(e.text) is Some {
            Some(e.text)
        } else {
            None
        };
        match st.pt {
            Some(p) => Reading { pt: Some(Pt { time, ..p }), ..st },
            None => st,
        }
    } else {
        st
    }
}

/// All elements taken in, one after the other.
pub open spec fn all_taken(st: Reading, es: Seq<Elem>, valid: Seq<bool>) -> Reading
    decreases es.len(),
{
    if es.len() == 0 {
        st
    } else {
        taken(all_taken(st, es.drop_last(), valid.drop_last()), es.last(), valid.last())
    }
}

/// What is left when the elements have run out. An unterminated line still
/// counts where it has points; a text without a `gpx` element is not GPX.
pub open spec fn reading_end(st: Reading) -> Option<Doc> {
    if !st.saw_gpx {
        None
    } else if st.in_route {
        Some(Doc { routes: with_line(st.doc.routes, left_open(st.line)), ..st.doc })
    } else {
        Some(Doc { tracks: with_line(st.doc.tracks, left_open(st.line)), ..st.doc })
    }
}

// ---- as it is held -------------------------------------------------------------

/// A point of a track or a route.
#[derive(Debug)]
pub struct Point {
    pub lat: String,
    pub lon: String,
    /// Elevation, where the file carries one.
    pub ele: Option<String>,
    /// Timestamp, where the file carries one.
    pub time: Option<String>,
    /// A route point's name. Track points do not carry one, but route points do
    /// and a plotter shows it.
    pub name: String,
    pub desc: String,
}

/// A track or a route.
#[derive(Debug)]
pub struct Line {
    pub name: String,
    pub points: Vec<Point>,
}

#[derive(Debug)]
pub struct Waypoint {
    pub name: String,
    pub desc: String,
    pub lat: String,
    pub lon: String,
    pub ele: Option<String>,
}

/// A file.
#[derive(Debug)]
pub struct Gpx {
    pub name: String,
    /// Free text on the file as a whole. A plan writes the settings it was
    /// solved from here, so a file found later says what it came from.
    pub desc: String,
    pub tracks: Vec<Line>,
    pub routes: Vec<Line>,
    pub waypoints: Vec<Waypoint>,
}

impl View for Point {
    type V = Pt;

    open spec fn view(&self) -> Pt {
        Pt {
            lat: self.lat@,
            lon: self.lon@,
            ele: scan::opt_view(self.ele),
            time: scan::opt_view(self.time),
            name: self.name@,
            desc: self.desc@,
        }
    }
}

impl View for Line {
    type V = Ln;

    open spec fn view(&self) -> Ln {
        Ln { name: self.name@, points: self.points@.map_values(|p: Point| p@) }
    }
}

impl View for Waypoint {
    type V = Wp;

    open spec fn view(&self) -> Wp {
        Wp {
            name: self.name@,
            desc: self.desc@,
            lat: self.lat@,
            lon: self.lon@,
            ele: scan::opt_view(self.ele),
        }
    }
}

impl View for Gpx {
    type V = Doc;

    open spec fn view(&self) -> Doc {
        Doc {
            name: self.name@,
            desc: self.desc@,
            tracks: self.tracks@.map_values(|l: Line| l@),
            routes: self.routes@.map_values(|l: Line| l@),
            waypoints: self.waypoints@.map_values(|w: Waypoint| w@),
        }
    }
}

impl Default for Gpx {
    fn default() -> (g: Gpx)
        ensures
            g@ == empty_doc(),
    {
        let g = Gpx {
            name: String::new(),
            desc: String::new(),
            tracks: Vec::new(),
            routes: Vec::new(),
            waypoints: Vec::new(),
        };
        proof {
            assert(g@ =~= empty_doc());
        }
        g
    }
}

struct Builder {
    doc: Gpx,
    in_track: bool,
    in_route: bool,
    line: Option<Line>,
    pt: Option<Point>,
    wpt: Option<Waypoint>,
    saw_gpx: bool,
}

impl View for Builder {
    type V = Reading;

    closed spec fn view(&self) -> Reading {
        Reading {
            doc: self.doc@,
            in_track: self.in_track,
            in_route: self.in_route,
            line: match self.line {
                None => None,
                Some(l) => Some(l@),
            },
            pt: match self.pt {
                None => None,
                Some(p) => Some(p@),
            },
            wpt: match self.wpt {
                None => None,
                Some(w) => Some(w@),
            },
            saw_gpx: self.saw_gpx,
        }
    }
}

fn push_line(lines: &mut Vec<Line>, line: Option<Line>)
    ensures
        final(lines)@.map_values(|l: Line| l@) == with_line(
            old(lines)@.map_values(|l: Line| l@),
            match line {
                None => None,
                Some(l) => Some(l@),
            },
        ),
{
    if let Some(l) = line {
        lines.push(l);
        proof {
            assert(lines@.map_values(|l: Line| l@) =~= old(lines)@.map_values(|l: Line| l@).push(
                l@,
            ));
        }
    }
}

impl Builder {
    fn new() -> (b: Builder)
        ensures
            b@ == reading_start(),
    {
        Builder {
            doc: Gpx::default(),
            in_track: false,
            in_route: false,
            line: None,
            pt: None,
            wpt: None,
            saw_gpx: false,
        }
    }

    fn close_point(&mut self)
        ensures
            final(self)@ == point_closed(old(self)@),
    {
        let pt = self.pt.take();
        if let Some(p) = pt {
            let line = self.line.take();
            if let Some(mut l) = line {
                let ghost was = l.points@;
                l.points.push(p);
                proof {
                    assert(l.points@.map_values(|p: Point| p@) =~= was.map_values(
                        |p: Point| p@,
                    ).push(p@));
                }
                self.line = Some(l);
            }
        }
    }

    fn close_waypoint(&mut self)
        ensures
            final(self)@ == waypoint_closed(old(self)@),
    {
        let wpt = self.wpt.take();
        if let Some(w) = wpt {
            let ghost was = self.doc.waypoints@;
            self.doc.waypoints.push(w);
            proof {
                assert(self.doc.waypoints@.map_values(|w: Waypoint| w@) =~= was.map_values(
                    |w: Waypoint| w@,
                ).push(w@));
            }
        }
    }

    fn close(&mut self, name: &str)
        ensures
            final(self)@ == closed(old(self)@, name@),
    {
        if same(name, "trk") {
            let line = self.line.take();
            push_line(&mut self.doc.tracks, line);
            self.in_track = false;
        } else if same(name, "rte") {
            let line = self.line.take();
            push_line(&mut self.doc.routes, line);
            self.in_route = false;
        } else if same(name, "trkpt") || same(name, "rtept") {
            self.close_point();
        } else if same(name, "wpt") {
            self.close_waypoint();
        }
    }

    fn open_point(&mut self, e: &Element, lat: String, lon: String)
        requires
            e@.lat == Some(lat@),
            e@.lon == Some(lon@),
        ensures
            final(self)@ == point_opened(old(self)@, e@),
    {
        if same(e.name.as_str(), "wpt") {
            self.wpt = Some(
                Waypoint { name: String::new(), desc: String::new(), lat, lon, ele: None },
            );
        } else {
            self.pt = Some(
                Point {
                    lat,
                    lon,
                    ele: None,
                    time: None,
                    name: String::new(),
                    desc: String::new(),
                },
            );
        }
        if e.self_closing {
            self.close_point();
            self.close_waypoint();
        }
    }

    fn set_name(&mut self, name: String)
        ensures
            final(self)@ == named(old(self)@, name@),
    {
        if let Some(mut p) = self.pt.take() {
            p.name = name;
            self.pt = Some(p);
        } else if let Some(mut w) = self.wpt.take() {
            w.name = name;
            self.wpt = Some(w);
        } else if let Some(mut l) = self.line.take() {
            if l.name.as_str().is_empty() {
                l.name = name;
            }
            self.line = Some(l);
        } else if self.doc.name.as_str().is_empty() && !self.in_track && !self.in_route {
            self.doc.name = name;
        }
    }

    fn set_desc(&mut self, desc: String)
        ensures
            final(self)@ == described(old(self)@, desc@),
    {
        if let Some(mut p) = self.pt.take() {
            if p.desc.as_str().is_empty() {
                p.desc = desc;
            }
            self.pt = Some(p);
        } else if let Some(mut w) = self.wpt.take() {
            if w.desc.as_str().is_empty() {
                w.desc = desc;
            }
            self.wpt = Some(w);
        } else if self.line.is_none() && self.doc.desc.as_str().is_empty() {
            self.doc.desc = desc;
        }
    }

    fn set_ele(&mut self, ele: Option<String>)
        ensures
            final(self)@ == (match (old(self)@.pt, old(self)@.wpt) {
                (Some(p), _) => Reading {
                    pt: Some(Pt { ele: scan::opt_view(ele), ..p }),
                    ..old(self)@
                },
                (None, Some(w)) => Reading {
                    wpt: Some(Wp { ele: scan::opt_view(ele), ..w }),
                    ..old(self)@
                },
                _ => old(self)@,
            }),
    {
        if let Some(mut p) = self.pt.take() {
            p.ele = ele;
            self.pt = Some(p);
        } else if let Some(mut w) = self.wpt.take() {
            w.ele = ele;
            self.wpt = Some(w);
        }
    }

    fn take(&mut self, e: &Element, valid: bool)
        ensures
            final(self)@ == taken(old(self)@, e@, valid),
    {
        let name = e.name.as_str();
        if e.closing {
            self.close(name);
        } else if same(name, "gpx") {
            self.saw_gpx = true;
        } else if same(name, "trk") {
            self.in_track = true;
            self.line = Some(Line { name: String::new(), points: Vec::new() });
            proof {
                assert(self@.line->0 =~= empty_line());
            }
        } else if same(name, "rte") {
            self.in_route = true;
            self.line = Some(Line { name: String::new(), points: Vec::new() });
            proof {
                assert(self@.line->0 =~= empty_line());
            }
        } else if same(name, "trkpt") || same(name, "rtept") || same(name, "wpt") {
            if let (Some(lat), Some(lon)) = (&e.lat, &e.lon) {
                if valid {
                    self.open_point(e, lat.clone(), lon.clone());
                }
            }
        } else if e.text.as_str().is_empty() {
        } else if same(name, "name") {
            self.set_name(scan::unescape(e.text.as_str()));
        } else if same(name, "desc") || same(name, "cmt") {
            self.set_desc(scan::unescape(e.text.as_str()));
        } else if same(name, "ele") {
            if float_text(chars_of(e.text.as_str()).as_slice()) {
                self.set_ele(Some(e.text.clone()));
            } else {
                self.set_ele(None);
            }
        } else if same(name, "time") {
            if let Some(mut p) = self.pt.take() {
                p.time = if iso_parts(e.text.as_str()).is_some() {
                    Some(e.text.clone())
                } else {
                    None
                };
                self.pt = Some(p);
            }
        }
    }
}

/// Read the elements of a file, where `valid` says of each whether its position
/// is one: both numbers read, finite, and no further than a pole or the date
/// line. None for a text without a `gpx` element.
pub fn parse(elements: &Vec<Element>, valid: &Vec<bool>) -> (r: Option<Gpx>)
    requires
        elements@.len() == valid@.len(),
    ensures
        match reading_end(all_taken(reading_start(), scan::elem_views(elements@), valid@)) {
            None => r is None,
            Some(d) => r matches Some(g) && g@ == d,
        },
{
    let mut b = Builder::new();
    let mut i: usize = 0;
    let ghost es = scan::elem_views(elements@);
    while i < elements.len()
        invariant
            i <= elements@.len(),
            elements@.len() == valid@.len(),
            es == scan::elem_views(elements@),
            b@ == all_taken(reading_start(), es.take(i as int), valid@.take(i as int)),
        decreases elements.len() - i,
    {
        proof {
            assert(es.take(i + 1).drop_last() =~= es.take(i as int));
            assert(valid@.take(i + 1).drop_last() =~= valid@.take(i as int));
        }
        b.take(&elements[i], valid[i]);
        i += 1;
    }
    proof {
        assert(es.take(i as int) =~= es);
        assert(valid@.take(i as int) =~= valid@);
    }
    if !b.saw_gpx {
        return None;
    }
    let Builder { mut doc, in_route, line, .. } = b;
    let line = match line {
        Some(l) => if l.points.len() > 0 {
            Some(l)
        } else {
            None
        },
        None => None,
    };
    if in_route {
        push_line(&mut doc.routes, line);
    } else {
        push_line(&mut doc.tracks, line);
    }
    Some(doc)
}

/// The ending of a counted noun.
pub open spec fn plural_ending(n: nat) -> Seq<char> {
    if n == 1 {
        ""@
    } else {
        "s"@
    }
}

/// The ending of a counted noun.
pub fn plural(n: usize) -> (s: &'static str)
    ensures
        s@ == plural_ending(n as nat),
{
    if n == 1 {
        ""
    } else {
        "s"
    }
}

/// The points of some lines, all together.
pub open spec fn points_in(ls: Seq<Ln>) -> nat
    decreases ls.len(),
{
    if ls.len() == 0 {
        0
    } else {
        points_in(ls.drop_last()) + ls.last().points.len()
    }
}

proof fn lemma_points_grow(ls: Seq<Ln>, n: int)
    requires
        0 <= n <= ls.len(),
    ensures
        points_in(ls.take(n)) <= points_in(ls),
    decreases ls.len() - n,
{
    if n == ls.len() {
        assert(ls.take(n) =~= ls);
    } else {
        assert(ls.take(n + 1).drop_last() =~= ls.take(n));
        lemma_points_grow(ls, n + 1);
    }
}

fn count_points(lines: &Vec<Line>) -> (n: usize)
    requires
        points_in(lines@.map_values(|l: Line| l@)) <= usize::MAX,
    ensures
        n == points_in(lines@.map_values(|l: Line| l@)),
{
    let ghost all = lines@.map_values(|l: Line| l@);
    let mut n: usize = 0;
    let mut i: usize = 0;
    while i < lines.len()
        invariant
            i <= lines@.len(),
            all == lines@.map_values(|l: Line| l@),
            points_in(all) <= usize::MAX,
            n == points_in(all.take(i as int)),
        decreases lines.len() - i,
    {
        proof {
            assert(all.take(i + 1).drop_last() =~= all.take(i as int));
            assert(all[i as int].points.len() == lines@[i as int].points@.len());
            lemma_points_grow(all, i + 1);
        }
        n += lines[i].points.len();
        i += 1;
    }
    proof {
        assert(all.take(i as int) =~= all);
    }
    n
}

impl Gpx {
    /// Every point of every track and route, and every waypoint.
    pub fn points(&self) -> (n: usize)
        requires
            points_in(self@.tracks) + points_in(self@.routes) + self@.waypoints.len() <= usize::MAX,
        ensures
            n == points_in(self@.tracks) + points_in(self@.routes) + self@.waypoints.len(),
    {
        count_points(&self.tracks) + count_points(&self.routes) + self.waypoints.len()
    }

    /// What the file holds, where `km` is its length in kilometres.
    pub fn describe(&self, km: &str) -> (s: String)
        ensures
            s@ == description(self@, km@),
    {
        let mut s = String::new();
        push_dec(&mut s, self.tracks.len() as u64);
        push_str(&mut s, " track");
        push_str(&mut s, plural(self.tracks.len()));
        push_str(&mut s, " · ");
        push_dec(&mut s, self.routes.len() as u64);
        push_str(&mut s, " route");
        push_str(&mut s, plural(self.routes.len()));
        push_str(&mut s, " · ");
        push_dec(&mut s, self.waypoints.len() as u64);
        push_str(&mut s, " waypoint");
        push_str(&mut s, plural(self.waypoints.len()));
        push_str(&mut s, " · ");
        push_str(&mut s, km);
        push_str(&mut s, " km");
        proof {
            assert(s@ =~= description(self@, km@));
        }
        s
    }
}

/// So many of something, in words.
pub open spec fn counted(n: nat, noun: Seq<char>) -> Seq<char> {
    text::dec(n) + noun + plural_ending(n) + " · "@
}

/// What a file holds, in words.
pub open spec fn description(d: Doc, km: Seq<char>) -> Seq<char> {
    counted(d.tracks.len(), " track"@) + counted(d.routes.len(), " route"@) + counted(
        d.waypoints.len(),
        " waypoint"@,
    ) + km + " km"@
}

// ---- timestamps -----------------------------------------------------------------

/// A timestamp taken apart: days from 1970-01-01, hours, minutes and seconds as
/// they are written, and how many minutes its clock is ahead of UTC.
#[derive(Debug)]
pub struct Stamp {
    pub days: i64,
    pub h: String,
    pub mi: String,
    pub se: String,
    pub offset: i64,
}

/// Text without the letter Z at its end.
pub open spec fn strip_z(s: Seq<char>) -> Seq<char>
    decreases s.len(),
{
    if s.len() > 0 && s.last() == 'Z' {
        strip_z(s.drop_last())
    } else {
        s
    }
}

/// Where the first sign of a text is, or the length of the text.
pub open spec fn sign_at(s: Seq<char>) -> int {
    let i = text::index_from(s, '+', 0);
    let j = text::index_from(s, '-', 0);
    if i < j {
        i
    } else {
        j
    }
}

/// The part of a text before the first sign.
pub open spec fn before_sign(s: Seq<char>) -> Seq<char> {
    s.take(sign_at(s))
}

/// The minutes that an offset without its sign stands for: `hh:mm`, `hhmm` or
/// `hh`. What is none of these stands for no offset.
pub open spec fn zone_minutes(z: Seq<char>) -> nat {
    if z.len() == 5 && z[2] == ':' && text::all_digits(z.take(2)) && text::all_digits(z.skip(3)) {
        60 * text::number_of(z.take(2)) + text::number_of(z.skip(3))
    } else if z.len() == 4 && text::all_digits(z) {
        60 * text::number_of(z.take(2)) + text::number_of(z.skip(2))
    } else if z.len() == 2 && text::all_digits(z) {
        60 * text::number_of(z)
    } else {
        0
    }
}

/// How many minutes the clock of a time of day is ahead of UTC: none where it
/// has no offset or ends in `Z`, and less than none where the offset's sign is
/// a minus.
pub open spec fn offset_of(t: Seq<char>) -> int {
    let s = strip_z(t);
    let i = sign_at(s);
    if i >= s.len() {
        0
    } else if s[i] == '-' {
        -(zone_minutes(s.skip(i + 1)) as int)
    } else {
        zone_minutes(s.skip(i + 1)) as int
    }
}

/// Part `i` of a time, or a zero where it has none.
pub open spec fn part_or_zero(parts: Seq<Seq<char>>, i: int) -> Seq<char> {
    if i < parts.len() {
        parts[i]
    } else {
        seq!['0']
    }
}

/// Year, month and day of a date, each a number that fits.
pub open spec fn date_of_text(s: Seq<char>) -> Option<(int, int, int)> {
    let d = text::split_on(s, '-');
    if d.len() < 3 {
        None
    } else {
        match (text::unsigned_of(d[0]), text::unsigned_of(d[1]), text::unsigned_of(d[2])) {
            (Some(y), Some(m), Some(da)) => if y <= i32::MAX && m <= u32::MAX - 9 && da
                <= u32::MAX {
                Some((y as int, m as int, da as int))
            } else {
                None
            },
            _ => None,
        }
    }
}

/// What an ISO 8601 timestamp says: days from 1970-01-01, the texts of hours,
/// minutes and seconds, and how many minutes the clock is ahead of UTC.
#[verifier::ext_equal]
pub struct Instant {
    pub days: int,
    pub h: Seq<char>,
    pub mi: Seq<char>,
    pub se: Seq<char>,
    pub offset: int,
}

/// The parts of an ISO 8601 timestamp, which is the only form GPX allows. Hours,
/// minutes and seconds are numbers.
pub open spec fn stamp_of(s: Seq<char>) -> Option<Instant> {
    let t = text::trimmed(s);
    let i = text::index_from(t, 'T', 0);
    if i >= t.len() {
        None
    } else {
        match date_of_text(t.take(i)) {
            None => None,
            Some((y, m, d)) => {
                let rest = t.skip(i + 1);
                let parts = text::split_on(before_sign(strip_z(rest)), ':');
                let (h, mi, se) = (parts[0], part_or_zero(parts, 1), part_or_zero(parts, 2));
                if text::is_float(h) && text::is_float(mi) && text::is_float(se) {
                    Some(
                        Instant {
                            days: time::march_days(
                                if m <= 2 {
                                    y - 1
                                } else {
                                    y
                                },
                                (m + 9) % 12,
                                d,
                            ),
                            h,
                            mi,
                            se,
                            offset: offset_of(rest),
                        },
                    )
                } else {
                    None
                }
            },
        }
    }
}

/// A time of day with an offset behind it comes apart at the offset's sign.
proof fn lemma_signed(t: Seq<char>, sign: char, z: Seq<char>)
    requires
        forall|i: int| 0 <= i < t.len() ==> #[trigger] t[i] != '+' && t[i] != '-',
        sign == '+' || sign == '-',
        z.len() > 0 && z.last() != 'Z',
    ensures
        strip_z(t + seq![sign] + z) == t + seq![sign] + z,
        before_sign(t + seq![sign] + z) == t,
        offset_of(t + seq![sign] + z) == (if sign == '-' {
            -(zone_minutes(z) as int)
        } else {
            zone_minutes(z) as int
        }),
{
    let s = t + seq![sign] + z;
    let n = t.len() as int;
    text::lemma_index_from(s, '+', 0);
    text::lemma_index_from(s, '-', 0);
    assert(s[n] == sign);
    assert forall|i: int| 0 <= i < n implies #[trigger] s[i] != '+' && s[i] != '-' by {
        assert(s[i] == t[i]);
    }
    assert(s.take(n) =~= t);
    assert(s.skip(n + 1) =~= z);
    assert(s.last() == z.last());
}

/// A time of day that ends in `Z` is of UTC, and one that ends in an offset is
/// ahead of UTC or behind it by that offset.
pub proof fn law_offsets(t: Seq<char>, a: char, b: char, c: char, d: char)
    requires
        forall|i: int| 0 <= i < t.len() ==> #[trigger] t[i] != '+' && t[i] != '-' && t[i] != 'Z',
        text::is_digit(a) && text::is_digit(b) && text::is_digit(c) && text::is_digit(d),
    ensures
        offset_of(t) == 0,
        offset_of(t.push('Z')) == 0,
        before_sign(strip_z(t.push('Z'))) == t,
        ({
            let z = seq![a, b, ':', c, d];
            let minutes = 60 * (10 * (a as int - 48) + (b as int - 48)) + 10 * (c as int - 48) + (
            d as int - 48);
            &&& offset_of(t + seq!['+'] + z) == minutes
            &&& offset_of(t + seq!['-'] + z) == -minutes
            &&& before_sign(strip_z(t + seq!['+'] + z)) == t
            &&& before_sign(strip_z(t + seq!['-'] + z)) == t
        }),
{
    let u = t.push('Z');
    assert(u.drop_last() =~= t);
    assert(strip_z(t) == t);
    assert(strip_z(u) == t);
    text::lemma_index_from(t, '+', 0);
    text::lemma_index_from(t, '-', 0);
    assert(t.take(t.len() as int) =~= t);
    let z = seq![a, b, ':', c, d];
    lemma_signed(t, '+', z);
    lemma_signed(t, '-', z);
    assert(z.take(2) =~= seq![a, b]);
    assert(z.skip(3) =~= seq![c, d]);
    reveal_with_fuel(text::number_of, 3);
    assert(seq![a, b].drop_last() =~= seq![a]);
    assert(seq![c, d].drop_last() =~= seq![c]);
    assert(seq![a].drop_last() =~= Seq::<char>::empty());
    assert(seq![c].drop_last() =~= Seq::<char>::empty());
}

fn read_date(v: &Vec<char>) -> (r: Option<(i32, u32, u32)>)
    ensures
        match date_of_text(v@) {
            None => r is None,
            Some((y, m, d)) => r matches Some(x) && x.0 == y && x.1 == m && x.2 == d,
        },
        r matches Some(x) ==> x.0 >= 0 && x.1 <= u32::MAX - 9,
{
    let d = split(v.as_slice(), '-');
    let ghost parts = text::chars_views(d@);
    if d.len() < 3 {
        return None;
    }
    proof {
        assert(parts[0] == d@[0]@ && parts[1] == d@[1]@ && parts[2] == d@[2]@);
    }
    let y = parse_unsigned(d[0].as_slice(), i32::MAX as u64);
    let m = parse_unsigned(d[1].as_slice(), u32::MAX as u64 - 9);
    let da = parse_unsigned(d[2].as_slice(), u32::MAX as u64);
    match (y, m, da) {
        (Some(y), Some(m), Some(da)) => Some((y as i32, m as u32, da as u32)),
        _ => None,
    }
}

fn two_digits(v: &Vec<char>, at: usize) -> (r: Option<i64>)
    requires
        at + 2 <= v.len(),
    ensures
        match r {
            Some(n) => text::all_digits(v@.subrange(at as int, at + 2)) && n == text::number_of(
                v@.subrange(at as int, at + 2),
            ) && 0 <= n < 100,
            None => !text::all_digits(v@.subrange(at as int, at + 2)),
        },
{
    let (a, b) = (v[at], v[at + 1]);
    let ghost p = v@.subrange(at as int, at + 2);
    proof {
        assert(p[0] == a && p[1] == b);
    }
    if '0' <= a && a <= '9' && '0' <= b && b <= '9' {
        proof {
            reveal_with_fuel(text::number_of, 3);
            assert(p.drop_last() =~= seq![a]);
            assert(seq![a].drop_last() =~= Seq::<char>::empty());
            assert(p =~= seq![a, b]);
        }
        Some(10 * (a as u32 - 48) as i64 + (b as u32 - 48) as i64)
    } else {
        proof {
            assert(!text::is_digit(p[0]) || !text::is_digit(p[1]));
        }
        None
    }
}

fn read_zone(z: &Vec<char>) -> (m: i64)
    ensures
        m == zone_minutes(z@),
        0 <= m < 10000,
{
    if z.len() == 5 && z[2] == ':' {
        proof {
            assert(z@.subrange(0, 2) =~= z@.take(2));
            assert(z@.subrange(3, 5) =~= z@.skip(3));
        }
        match (two_digits(z, 0), two_digits(z, 3)) {
            (Some(h), Some(m)) => 60 * h + m,
            _ => 0,
        }
    } else if z.len() == 4 {
        proof {
            assert(z@.subrange(0, 2) =~= z@.take(2));
            assert(z@.subrange(2, 4) =~= z@.skip(2));
            assert(z@ =~= z@.take(2) + z@.skip(2));
            if text::all_digits(z@) {
                assert(text::is_digit(z@[0]) && text::is_digit(z@[1]) && text::is_digit(z@[2])
                    && text::is_digit(z@[3]));
            }
            if text::all_digits(z@.take(2)) && text::all_digits(z@.skip(2)) {
                assert(text::is_digit(z@.take(2)[0]) && text::is_digit(z@.take(2)[1]));
                assert(text::is_digit(z@.skip(2)[0]) && text::is_digit(z@.skip(2)[1]));
            }
        }
        match (two_digits(z, 0), two_digits(z, 2)) {
            (Some(h), Some(m)) => 60 * h + m,
            _ => 0,
        }
    } else if z.len() == 2 {
        proof {
            assert(z@.subrange(0, 2) =~= z@);
        }
        match two_digits(z, 0) {
            Some(h) => 60 * h,
            None => 0,
        }
    } else {
        0
    }
}

/// Take an ISO 8601 timestamp apart. The hours, minutes and seconds may have
/// fractions, so they are handed back as they are written.
pub fn iso_parts(s: &str) -> (r: Option<Stamp>)
    ensures
        match stamp_of(s@) {
            None => r is None,
            Some(i) => r matches Some(x) && x.days == i.days && x.h@ == i.h && x.mi@ == i.mi
                && x.se@ == i.se && x.offset == i.offset,
        },
{
    let all = chars_of(s);
    let t = trim(all.as_slice());
    let i = find_char(t.as_slice(), 'T', 0);
    if i >= t.len() {
        return None;
    }
    let date = part(t.as_slice(), 0, i);
    proof {
        assert(date@ =~= t@.take(i as int));
    }
    let (y, m, d) = match read_date(&date) {
        None => {
            return None;
        },
        Some(x) => x,
    };
    let rest = part(t.as_slice(), i + 1, t.len());
    proof {
        assert(rest@ =~= t@.skip(i + 1));
        assert(rest@.take(rest@.len() as int) =~= rest@);
    }
    let mut to: usize = rest.len();
    while to > 0 && rest[to - 1] == 'Z'
        invariant
            to <= rest@.len(),
            strip_z(rest@.take(to as int)) == strip_z(rest@),
        decreases to,
    {
        proof {
            assert(rest@.take(to as int).drop_last() =~= rest@.take(to - 1));
        }
        to -= 1;
    }
    let clock = part(rest.as_slice(), 0, to);
    proof {
        assert(clock@ =~= rest@.take(to as int));
    }
    let plus = find_char(clock.as_slice(), '+', 0);
    let minus = find_char(clock.as_slice(), '-', 0);
    let end: usize = if plus < minus { plus } else { minus };
    let clock_only = part(clock.as_slice(), 0, end);
    let offset: i64 = if end < clock.len() {
        let zone = part(clock.as_slice(), end + 1, clock.len());
        proof {
            assert(zone@ =~= clock@.skip(end + 1));
        }
        let m = read_zone(&zone);
        if clock[end] == '-' {
            -m
        } else {
            m
        }
    } else {
        0
    };
    proof {
        assert(clock_only@ =~= before_sign(clock@));
    }
    let parts = split(clock_only.as_slice(), ':');
    let ghost views = text::chars_views(parts@);
    proof {
        assert(views[0] == parts@[0]@);
        assert(views.len() > 1 ==> views[1] == parts@[1]@);
        assert(views.len() > 2 ==> views[2] == parts@[2]@);
    }
    let h = text_of(parts[0].as_slice());
    let mi = if parts.len() > 1 {
        text_of(parts[1].as_slice())
    } else {
        zero_text()
    };
    let se = if parts.len() > 2 {
        text_of(parts[2].as_slice())
    } else {
        zero_text()
    };
    let read = float_text(chars_of(h.as_str()).as_slice()) && float_text(
        chars_of(mi.as_str()).as_slice(),
    ) && float_text(chars_of(se.as_str()).as_slice());
    if !read {
        return None;
    }
    Some(Stamp { days: days_from_civil(y, m, d), h, mi, se, offset })
}

fn zero_text() -> (s: String)
    ensures
        s@ == seq!['0'],
{
    let mut s = String::new();
    s.push('0');
    proof {
        assert(s@ =~= seq!['0']);
    }
    s
}

/// The points of some lines are those of each.
pub proof fn law_points_add_up(a: Seq<Ln>, b: Seq<Ln>)
    ensures
        points_in(a + b) == points_in(a) + points_in(b),
        forall|x: Ln| points_in(#[trigger] seq![x]) == x.points.len(),
    decreases b.len(),
{
    assert forall|x: Ln| points_in(#[trigger] seq![x]) == x.points.len() by {
        assert(seq![x].drop_last() =~= Seq::empty());
        assert(seq![x].last() == x);
        assert(points_in(Seq::<Ln>::empty()) == 0);
        assert(points_in(seq![x]) == points_in(Seq::<Ln>::empty()) + x.points.len());
    }
    if b.len() == 0 {
        assert(a + b =~= a);
        assert(points_in(a) + points_in(b) == points_in(a));
    } else {
        law_points_add_up(a, b.drop_last());
        assert((a + b).drop_last() =~= a + b.drop_last());
        assert((a + b).last() == b.last());
        assert(points_in(a + b) == points_in(a) + points_in(b));
    }
}

/// A line that is still open at the end is kept where it has points.
pub proof fn law_open_lines_are_kept(st: Reading, l: Ln)
    requires
        st.saw_gpx,
        st.line == Some(l),
    ensures
        l.points.len() > 0 && st.in_route ==> reading_end(st) == Some(
            Doc { routes: st.doc.routes.push(l), ..st.doc },
        ),
        l.points.len() > 0 && !st.in_route ==> reading_end(st) == Some(
            Doc { tracks: st.doc.tracks.push(l), ..st.doc },
        ),
        l.points.len() == 0 ==> reading_end(st) == Some(st.doc),
{
}

/// What is no GPX at all is not read.
pub proof fn law_no_gpx(st: Reading)
    ensures
        reading_end(st) is Some <==> st.saw_gpx,
{
}

/// A point keeps the first description that it is given, and the last name.
pub proof fn law_point_is_described(st: Reading, p: Pt, a: Seq<char>)
    requires
        st.pt == Some(p),
    ensures
        p.desc.len() == 0 ==> described(st, a).pt == Some(Pt { desc: a, ..p }),
        p.desc.len() > 0 ==> described(st, a).pt == Some(p),
        named(st, a).pt == Some(Pt { name: a, ..p }),
        described(st, a).doc == st.doc && named(st, a).doc == st.doc,
        described(st, a).line == st.line && named(st, a).line == st.line,
{
}

/// A point that is closed is the last of its line.
pub proof fn law_point_is_taken(st: Reading, p: Pt, l: Ln)
    requires
        st.pt == Some(p),
        st.line == Some(l),
    ensures
        point_closed(st).line == Some(Ln { name: l.name, points: l.points.push(p) }),
        point_closed(st).pt is None,
        point_closed(st).doc == st.doc,
{
}

proof fn lemma_three_parts(a: Seq<char>, b: Seq<char>, c: Seq<char>, sep: char)
    requires
        forall|i: int| 0 <= i < a.len() ==> #[trigger] a[i] != sep,
        forall|i: int| 0 <= i < b.len() ==> #[trigger] b[i] != sep,
        forall|i: int| 0 <= i < c.len() ==> #[trigger] c[i] != sep,
    ensures
        text::split_on(a + seq![sep] + (b + seq![sep] + c), sep) == seq![a, b, c],
{
    text::law_first_part(a, sep, b + seq![sep] + c);
    text::law_first_part(b, sep, c);
    text::law_first_part(c, sep, c);
    assert(text::split_on(a + seq![sep] + (b + seq![sep] + c), sep) =~= seq![a, b, c]);
}

proof fn lemma_digits_of(n: nat, width: nat)
    ensures
        text::all_digits(text::padded(n, width)),
        text::padded(n, width).len() > 0,
        text::unsigned_of(text::padded(n, width)) == Some(n),
{
    text::law_written_number_is_read(n, width);
    text::lemma_dec_reads(n);
    let p = text::padded(n, width);
    let d = text::dec(n);
    if d.len() < width {
        assert forall|i: int| 0 <= i < p.len() implies text::is_digit(#[trigger] p[i]) by {
            let k = width - d.len();
            if i >= k {
                assert(p[i] == d[i - k]);
            }
        }
    }
}

/// A date that is written down is read again.
pub proof fn law_written_date_is_read(y: nat, m: nat, d: nat)
    requires
        y <= 9999,
        m <= 99,
        d <= 99,
    ensures
        date_of_text(
            text::padded(y, 4) + seq!['-'] + (text::padded(m, 2) + seq!['-'] + text::padded(d, 2)),
        ) == Some((y as int, m as int, d as int)),
{
    lemma_digits_of(y, 4);
    lemma_digits_of(m, 2);
    lemma_digits_of(d, 2);
    let (a, b, c) = (text::padded(y, 4), text::padded(m, 2), text::padded(d, 2));
    assert forall|i: int| 0 <= i < a.len() implies #[trigger] a[i] != '-' by {
        assert(text::is_digit(a[i]));
    }
    assert forall|i: int| 0 <= i < b.len() implies #[trigger] b[i] != '-' by {
        assert(text::is_digit(b[i]));
    }
    assert forall|i: int| 0 <= i < c.len() implies #[trigger] c[i] != '-' by {
        assert(text::is_digit(c[i]));
    }
    lemma_three_parts(a, b, c, '-');
}

/// A time that is written as an ISO date is read again: its day, its hours, minutes and
/// seconds, and that it is of UTC.
#[verifier::rlimit(40)]
pub proof fn law_written_time_is_read(y: nat, m: nat, d: nat, secs: nat)
    requires
        1 <= y <= 9999,
        1 <= m <= 12,
        1 <= d <= 31,
        secs < 86400,
    ensures
        stamp_of(time::iso_text(y as int, m as int, d as int, secs, None)) matches Some(x)
            && x.days == time::civil_days(y as int, m as int, d as int) && text::unsigned_of(x.h)
            == Some(secs / 3600) && text::unsigned_of(x.mi) == Some(secs % 3600 / 60)
            && text::unsigned_of(x.se) == Some(secs % 60) && x.offset == 0,
{
    let date = text::padded(y, 4) + seq!['-'] + (text::padded(m, 2) + seq!['-'] + text::padded(
        d,
        2,
    ));
    let (h, mi, se) = (
        text::padded(secs / 3600, 2),
        text::padded(secs % 3600 / 60, 2),
        text::padded(secs % 60, 2),
    );
    let day = h + seq![':'] + (mi + seq![':'] + se);
    let t = time::iso_text(y as int, m as int, d as int, secs, None);
    assert(day =~= time::clock(secs));
    assert(t =~= date + seq!['T'] + day.push('Z'));
    lemma_digits_of(y, 4);
    lemma_digits_of(m, 2);
    lemma_digits_of(d, 2);
    lemma_digits_of(secs / 3600, 2);
    lemma_digits_of(secs % 3600 / 60, 2);
    lemma_digits_of(secs % 60, 2);
    assert forall|i: int| 0 <= i < date.len() implies text::is_digit(#[trigger] date[i]) || date[i]
        == '-' by {
        let (a, b, c) = (text::padded(y, 4), text::padded(m, 2), text::padded(d, 2));
        if i < a.len() {
            assert(date[i] == a[i]);
        } else if a.len() < i < a.len() + 1 + b.len() {
            assert(date[i] == b[i - a.len() - 1]);
        } else if i > a.len() + 1 + b.len() {
            assert(date[i] == c[i - a.len() - b.len() - 2]);
        }
    }
    assert forall|i: int| 0 <= i < day.len() implies text::is_digit(#[trigger] day[i]) || day[i]
        == ':' by {
        if i < h.len() {
            assert(day[i] == h[i]);
        } else if h.len() < i < h.len() + 1 + mi.len() {
            assert(day[i] == mi[i - h.len() - 1]);
        } else if i > h.len() + 1 + mi.len() {
            assert(day[i] == se[i - h.len() - mi.len() - 2]);
        }
    }
    let r = text::law_trimmed(t);
    assert(t[0] == date[0]);
    assert(t.last() == 'Z');
    assert(!text::is_space(t[0]) && !text::is_space(t[t.len() - 1]));
    assert(r.0 == 0 && r.1 == t.len());
    assert(t.subrange(0, t.len() as int) =~= t);
    text::lemma_index_from(t, 'T', 0);
    let i = text::index_from(t, 'T', 0);
    assert(t[date.len() as int] == 'T');
    if i < date.len() {
        assert(t[i] == date[i]);
    }
    assert(i == date.len());
    assert(t.take(i) =~= date);
    let rest = day.push('Z');
    assert(t.skip(i + 1) =~= rest);
    law_written_date_is_read(y, m, d);
    assert forall|k: int| 0 <= k < day.len() implies #[trigger] day[k] != '+' && day[k] != '-'
        && day[k] != 'Z' by {
        assert(text::is_digit(day[k]) || day[k] == ':');
    }
    law_offsets(day, '0', '0', '0', '0');
    assert forall|k: int| 0 <= k < h.len() implies #[trigger] h[k] != ':' by {
        assert(text::is_digit(h[k]));
    }
    assert forall|k: int| 0 <= k < mi.len() implies #[trigger] mi[k] != ':' by {
        assert(text::is_digit(mi[k]));
    }
    assert forall|k: int| 0 <= k < se.len() implies #[trigger] se[k] != ':' by {
        assert(text::is_digit(se[k]));
    }
    lemma_three_parts(h, mi, se, ':');
    text::law_decimals_are_numbers(h, h);
    text::law_decimals_are_numbers(mi, mi);
    text::law_decimals_are_numbers(se, se);
    time::lemma_march_is_civil(y as int, m as int, d as int);
}

} // verus!
