//! A plan as a file for the plotter.
//!
//! Every position in it is the GPS antenna's, not the fish's. Numbers come in
//! as they are to be written.

use vstd::prelude::*;

use crate::gpx;
use crate::gpx::{Doc, Gpx, Line, Ln, Point, Pt, Waypoint, Wp};
use crate::plan;
use crate::plan::{hms, regime_name, Direction, Regime};
use crate::text;
use crate::text::{copy, push_dec, push_padded, push_str};

verus! {

/// A position, as it is to be written.
#[derive(Debug)]
pub struct Place {
    pub lat: String,
    pub lon: String,
}

/// A position.
pub struct Spot {
    pub lat: Seq<char>,
    pub lon: Seq<char>,
}

impl View for Place {
    type V = Spot;

    open spec fn view(&self) -> Spot {
        Spot { lat: self.lat@, lon: self.lon@ }
    }
}

/// One line as the boat runs it.
#[derive(Debug)]
pub struct RunText {
    /// Which line of the plan, numbered across the box from one edge.
    pub line: usize,
    /// Where the leg starts, where recording starts and stops, and where the
    /// leg ends and the turn begins.
    pub start: Place,
    pub on: Place,
    pub off: Place,
    pub end: Place,
    /// Heading the helm steers, in degrees.
    pub heading: String,
    /// Whether recording stops well before the wheel goes over. Two marks a
    /// boat length apart are clutter on a plotter, not information.
    pub parted: bool,
}

/// A position to be searched.
#[derive(Debug)]
pub struct TargetText {
    pub name: String,
    /// The uncertainty circle, in metres.
    pub radius: String,
    pub place: Place,
}

/// A plan, as it is to be written.
#[derive(Debug)]
pub struct PlanText {
    /// In degrees, three digits.
    pub azimuth: String,
    pub digest: String,
    /// In metres.
    pub offset: String,
    pub run_in: String,
    pub run_out: String,
    pub runs: Vec<RunText>,
    /// The middle of each turn, where it has points.
    pub apexes: Vec<Option<Place>>,
    /// The whole path, turns and all.
    pub path: Vec<Place>,
}

/// What a written plan carries besides the lines themselves.
#[derive(Debug)]
pub struct GpxOptions {
    /// Write routes at all. For a helm steering by hand the track is the one
    /// worth having: it is the shape to follow, turns included.
    pub routes: bool,
    /// A route per line, rather than one route through the whole plan.
    pub route_per_line: bool,
    /// Put a point at the apex of each turn, so an autopilot does not cut it.
    pub turn_points: bool,
    /// Include the targets as waypoints.
    pub targets: bool,
    /// Mark every line's start, its recording points and its end as standalone
    /// waypoints.
    pub line_waypoints: bool,
    /// Draw the whole path, lines and the curves between them, as a track.
    pub track: bool,
    pub name: String,
}

impl Default for GpxOptions {
    fn default() -> (o: GpxOptions)
        ensures
            !o.routes,
            !o.route_per_line,
            !o.turn_points,
            o.targets,
            !o.line_waypoints,
            o.track,
            o.name@ == Seq::<char>::empty(),
    {
        GpxOptions {
            routes: false,
            route_per_line: false,
            turn_points: false,
            targets: true,
            line_waypoints: false,
            track: true,
            name: String::new(),
        }
    }
}

// ---- what is written -----------------------------------------------------------

/// A line's name.
pub open spec fn line_id(line: nat) -> Seq<char> {
    "L"@ + text::padded(line + 1, 2)
}

/// A point of a route.
pub open spec fn marked(p: Spot, name: Seq<char>, desc: Seq<char>) -> Pt {
    Pt { lat: p.lat, lon: p.lon, ele: None, time: None, name, desc }
}

pub open spec fn line_words(line: nat, words: Seq<char>) -> Seq<char> {
    "line "@ + text::dec(line + 1) + words
}

/// Where the boat settles onto the heading.
pub open spec fn start_point(r: RunText) -> Pt {
    marked(
        r.start@,
        line_id(r.line as nat) + "S"@,
        line_words(r.line as nat, " start of run-in, steer "@ + r.heading@ + "°T"@),
    )
}

/// Where the fish has reached the box and recording starts.
pub open spec fn on_point(r: RunText) -> Pt {
    marked(
        r.on@,
        line_id(r.line as nat) + "A"@,
        line_words(r.line as nat, " recording on"@),
    )
}

/// Where recording stops.
pub open spec fn stop_point(r: RunText) -> Pt {
    marked(
        r.off@,
        line_id(r.line as nat) + "E"@,
        line_words(r.line as nat, " recording off"@),
    )
}

/// Where the wheel goes over.
pub open spec fn end_point(r: RunText) -> Pt {
    if r.parted {
        marked(
            r.end@,
            line_id(r.line as nat) + "T"@,
            line_words(r.line as nat, " turn away"@),
        )
    } else {
        marked(
            r.end@,
            line_id(r.line as nat) + "E"@,
            line_words(r.line as nat, " recording off, turn away"@),
        )
    }
}

/// A point as a waypoint.
pub open spec fn as_waypoint(p: Pt) -> Wp {
    Wp { name: p.name, desc: p.desc, lat: p.lat, lon: p.lon, ele: None }
}

/// The marks of a line, in the order the boat meets them.
pub open spec fn line_marks(r: RunText) -> Seq<Wp> {
    if r.parted {
        seq![
            as_waypoint(start_point(r)),
            as_waypoint(on_point(r)),
            as_waypoint(stop_point(r)),
            as_waypoint(end_point(r)),
        ]
    } else {
        seq![
            as_waypoint(start_point(r)),
            as_waypoint(on_point(r)),
            as_waypoint(end_point(r)),
        ]
    }
}

pub open spec fn all_marks(rs: Seq<RunText>) -> Seq<Wp>
    decreases rs.len(),
{
    if rs.len() == 0 {
        Seq::empty()
    } else {
        all_marks(rs.drop_last()) + line_marks(rs.last())
    }
}

pub open spec fn target_waypoint(t: TargetText) -> Wp {
    Wp {
        name: t.name@,
        desc: "target, uncertainty "@ + t.radius@ + " m"@,
        lat: t.place@.lat,
        lon: t.place@.lon,
        ele: None,
    }
}

/// A route per line.
pub open spec fn line_routes(rs: Seq<RunText>) -> Seq<Ln> {
    rs.map_values(
        |r: RunText|
            Ln { name: line_id(r.line as nat), points: seq![start_point(r), end_point(r)] },
    )
}

/// The point at the apex of the `i`th turn, if there is such a turn and it has
/// points.
pub open spec fn apex_points(apexes: Seq<Option<Place>>, i: int) -> Seq<Pt> {
    if i < apexes.len() && apexes[i] is Some {
        seq![
            marked((apexes[i]->0)@, "T"@ + text::padded((i + 1) as nat, 2), "turn apex"@),
        ]
    } else {
        Seq::empty()
    }
}

/// The points of one route through the first `n` lines.
pub open spec fn through(
    rs: Seq<RunText>,
    apexes: Seq<Option<Place>>,
    turn_points: bool,
    n: int,
) -> Seq<Pt>
    decreases n,
{
    if n <= 0 {
        Seq::empty()
    } else {
        through(rs, apexes, turn_points, n - 1) + seq![
            start_point(rs[n - 1]),
            end_point(rs[n - 1]),
        ] + (if turn_points {
            apex_points(apexes, n - 1)
        } else {
            Seq::empty()
        })
    }
}

pub open spec fn path_points(path: Seq<Place>) -> Seq<Pt> {
    path.map_values(|p: Place| marked(p@, Seq::empty(), Seq::empty()))
}

/// What a plan is called where it has no name of its own.
pub open spec fn default_title(p: PlanText) -> Seq<char> {
    "SEARCH "@ + p.azimuth@ + "T"@
}

pub open spec fn title(p: PlanText, o: GpxOptions) -> Seq<char> {
    if o.name@.len() == 0 {
        default_title(p)
    } else {
        o.name@
    }
}

pub open spec fn explanation(p: PlanText) -> Seq<char> {
    p.digest@ + ". Waypoints steer the GPS antenna; the fish is "@ + p.offset@
        + " m astern. Each line is stretched by that offset so the fish, not the boat, crosses the box, and by "@
        + p.run_in@ + " m of run-in before the near edge and "@ + p.run_out@
        + " m of run-out past the far one on top of it. Recording starts at the A point of each line and stops at the E point. No data is claimed in a turn."@
}

/// A plan as a file.
pub open spec fn gpx_of(p: PlanText, ts: Seq<TargetText>, o: GpxOptions) -> Doc {
    Doc {
        name: title(p, o),
        desc: explanation(p),
        waypoints: (if o.targets {
            ts.map_values(|t: TargetText| target_waypoint(t))
        } else {
            Seq::empty()
        }) + (if o.line_waypoints {
            all_marks(p.runs@)
        } else {
            Seq::empty()
        }),
        routes: if !o.routes {
            Seq::empty()
        } else if o.route_per_line {
            line_routes(p.runs@)
        } else {
            seq![
                Ln {
                    name: title(p, o),
                    points: through(
                        p.runs@,
                        p.apexes@,
                        o.turn_points,
                        p.runs@.len() as int,
                    ),
                },
            ]
        },
        tracks: if o.track {
            seq![Ln { name: title(p, o) + " path"@, points: path_points(p.path@) }]
        } else {
            Seq::empty()
        },
    }
}

// ---- writing it ----------------------------------------------------------------

fn point(p: &Place, name: String, desc: String) -> (r: Point)
    ensures
        r@ == marked(p@, name@, desc@),
{
    let r = Point {
        lat: copy(p.lat.as_str()),
        lon: copy(p.lon.as_str()),
        ele: None,
        time: None,
        name,
        desc,
    };
    proof {
        assert(r@ =~= marked(p@, name@, desc@));
    }
    r
}

fn id_with(line: usize, end: &str) -> (s: String)
    requires
        line < usize::MAX,
    ensures
        s@ == line_id(line as nat) + end@,
{
    let mut s = String::new();
    push_str(&mut s, "L");
    push_padded(&mut s, line as u64 + 1, 2);
    push_str(&mut s, end);
    proof {
        assert(s@ =~= line_id(line as nat) + end@);
    }
    s
}

fn words(line: usize, w: &str) -> (s: String)
    requires
        line < usize::MAX,
    ensures
        s@ == line_words(line as nat, w@),
{
    let mut s = String::new();
    push_str(&mut s, "line ");
    push_dec(&mut s, line as u64 + 1);
    push_str(&mut s, w);
    proof {
        assert(s@ =~= line_words(line as nat, w@));
    }
    s
}

fn make_start(r: &RunText) -> (p: Point)
    requires
        r.line < usize::MAX,
    ensures
        p@ == start_point(*r),
{
    let mut w = String::new();
    push_str(&mut w, " start of run-in, steer ");
    push_str(&mut w, r.heading.as_str());
    push_str(&mut w, "°T");
    proof {
        assert(w@ =~= " start of run-in, steer "@ + r.heading@ + "°T"@);
    }
    point(&r.start, id_with(r.line, "S"), words(r.line, w.as_str()))
}

fn make_on(r: &RunText) -> (p: Point)
    requires
        r.line < usize::MAX,
    ensures
        p@ == on_point(*r),
{
    point(&r.on, id_with(r.line, "A"), words(r.line, " recording on"))
}

fn make_stop(r: &RunText) -> (p: Point)
    requires
        r.line < usize::MAX,
    ensures
        p@ == stop_point(*r),
{
    point(&r.off, id_with(r.line, "E"), words(r.line, " recording off"))
}

fn make_end(r: &RunText) -> (p: Point)
    requires
        r.line < usize::MAX,
    ensures
        p@ == end_point(*r),
{
    if r.parted {
        point(&r.end, id_with(r.line, "T"), words(r.line, " turn away"))
    } else {
        point(&r.end, id_with(r.line, "E"), words(r.line, " recording off, turn away"))
    }
}

fn waypoint(p: Point) -> (w: Waypoint)
    requires
        p.ele is None,
    ensures
        w@ == as_waypoint(p@),
{
    let w = Waypoint { name: p.name, desc: p.desc, lat: p.lat, lon: p.lon, ele: None };
    proof {
        assert(w@ =~= as_waypoint(p@));
    }
    w
}

pub open spec fn wp_views(v: Seq<Waypoint>) -> Seq<Wp> {
    v.map_values(|w: Waypoint| w@)
}

pub open spec fn pt_views(v: Seq<Point>) -> Seq<Pt> {
    v.map_values(|p: Point| p@)
}

pub open spec fn ln_views(v: Seq<Line>) -> Seq<Ln> {
    v.map_values(|l: Line| l@)
}

fn push_waypoint(v: &mut Vec<Waypoint>, w: Waypoint)
    ensures
        wp_views(final(v)@) == wp_views(old(v)@).push(w@),
{
    v.push(w);
    proof {
        assert(wp_views(v@) =~= wp_views(old(v)@).push(w@));
    }
}

fn push_point(v: &mut Vec<Point>, p: Point)
    ensures
        pt_views(final(v)@) == pt_views(old(v)@).push(p@),
{
    v.push(p);
    proof {
        assert(pt_views(v@) =~= pt_views(old(v)@).push(p@));
    }
}

fn push_line(v: &mut Vec<Line>, l: Line)
    ensures
        ln_views(final(v)@) == ln_views(old(v)@).push(l@),
{
    v.push(l);
    proof {
        assert(ln_views(v@) =~= ln_views(old(v)@).push(l@));
    }
}

fn push_marks(v: &mut Vec<Waypoint>, r: &RunText)
    requires
        r.line < usize::MAX,
    ensures
        wp_views(final(v)@) == wp_views(old(v)@) + line_marks(*r),
{
    push_waypoint(v, waypoint(make_start(r)));
    push_waypoint(v, waypoint(make_on(r)));
    if r.parted {
        push_waypoint(v, waypoint(make_stop(r)));
    }
    push_waypoint(v, waypoint(make_end(r)));
    proof {
        assert(wp_views(v@) =~= wp_views(old(v)@) + line_marks(*r));
    }
}

fn waypoints(p: &PlanText, ts: &Vec<TargetText>, o: &GpxOptions) -> (v: Vec<Waypoint>)
    requires
        forall|i: int| 0 <= i < p.runs@.len() ==> (#[trigger] p.runs@[i]).line < usize::MAX,
    ensures
        wp_views(v@) == gpx_of(*p, ts@, *o).waypoints,
{
    let mut v: Vec<Waypoint> = Vec::new();
    proof {
        assert(wp_views(v@) =~= Seq::<Wp>::empty());
    }
    if o.targets {
        let mut i: usize = 0;
        let ghost all = ts@.map_values(|t: TargetText| target_waypoint(t));
        while i < ts.len()
            invariant
                i <= ts@.len(),
                all == ts@.map_values(|t: TargetText| target_waypoint(t)),
                wp_views(v@) == all.take(i as int),
            decreases ts.len() - i,
        {
            let t = &ts[i];
            let mut desc = String::new();
            push_str(&mut desc, "target, uncertainty ");
            push_str(&mut desc, t.radius.as_str());
            push_str(&mut desc, " m");
            let w = Waypoint {
                name: copy(t.name.as_str()),
                desc,
                lat: copy(t.place.lat.as_str()),
                lon: copy(t.place.lon.as_str()),
                ele: None,
            };
            proof {
                assert(desc@ =~= "target, uncertainty "@ + t.radius@ + " m"@);
                assert(w@ =~= target_waypoint(*t));
                assert(all.take(i + 1) =~= all.take(i as int).push(all[i as int]));
            }
            push_waypoint(&mut v, w);
            i += 1;
        }
        proof {
            assert(all.take(ts@.len() as int) =~= all);
        }
    }
    let ghost first = wp_views(v@);
    proof {
        assert(first + Seq::<Wp>::empty() =~= first);
    }
    if o.line_waypoints {
        let mut i: usize = 0;
        while i < p.runs.len()
            invariant
                i <= p.runs@.len(),
                forall|k: int| 0 <= k < p.runs@.len() ==> (#[trigger] p.runs@[k]).line < usize::MAX,
                wp_views(v@) == first + all_marks(p.runs@.take(i as int)),
            decreases p.runs.len() - i,
        {
            proof {
                assert(p.runs@.take(i + 1).drop_last() =~= p.runs@.take(i as int));
            }
            push_marks(&mut v, &p.runs[i]);
            proof {
                assert(wp_views(v@) =~= first + all_marks(p.runs@.take(i + 1)));
            }
            i += 1;
        }
        proof {
            assert(p.runs@.take(p.runs@.len() as int) =~= p.runs@);
        }
    }
    v
}

fn routes_per_line(rs: &Vec<RunText>) -> (v: Vec<Line>)
    requires
        forall|i: int| 0 <= i < rs@.len() ==> (#[trigger] rs@[i]).line < usize::MAX,
    ensures
        ln_views(v@) == line_routes(rs@),
{
    let mut v: Vec<Line> = Vec::new();
    let mut i: usize = 0;
    proof {
        assert(ln_views(v@) =~= line_routes(rs@).take(0));
    }
    while i < rs.len()
        invariant
            i <= rs@.len(),
            forall|k: int| 0 <= k < rs@.len() ==> (#[trigger] rs@[k]).line < usize::MAX,
            ln_views(v@) == line_routes(rs@).take(i as int),
        decreases rs.len() - i,
    {
        let r = &rs[i];
        let mut points: Vec<Point> = Vec::new();
        push_point(&mut points, make_start(r));
        push_point(&mut points, make_end(r));
        let l = Line { name: id_with(r.line, ""), points };
        proof {
            reveal_strlit("");
            assert(line_id(r.line as nat) + ""@ =~= line_id(r.line as nat));
            assert(pt_views(points@) =~= seq![start_point(*r), end_point(*r)]);
            assert(l@ =~= line_routes(rs@)[i as int]);
            assert(line_routes(rs@).take(i + 1) =~= line_routes(rs@).take(i as int).push(l@));
        }
        push_line(&mut v, l);
        i += 1;
    }
    proof {
        assert(line_routes(rs@).take(rs@.len() as int) =~= line_routes(rs@));
    }
    v
}

fn points_through(rs: &Vec<RunText>, apexes: &Vec<Option<Place>>, turn_points: bool) -> (v: Vec<
    Point,
>)
    requires
        forall|i: int| 0 <= i < rs@.len() ==> (#[trigger] rs@[i]).line < usize::MAX,
    ensures
        pt_views(v@) == through(rs@, apexes@, turn_points, rs@.len() as int),
{
    let mut v: Vec<Point> = Vec::new();
    let mut i: usize = 0;
    proof {
        assert(pt_views(v@) =~= Seq::<Pt>::empty());
    }
    while i < rs.len()
        invariant
            i <= rs@.len(),
            forall|k: int| 0 <= k < rs@.len() ==> (#[trigger] rs@[k]).line < usize::MAX,
            pt_views(v@) == through(rs@, apexes@, turn_points, i as int),
        decreases rs.len() - i,
    {
        let r = &rs[i];
        let ghost was = pt_views(v@);
        push_point(&mut v, make_start(r));
        push_point(&mut v, make_end(r));
        if turn_points && i < apexes.len() {
            match &apexes[i] {
                Some(a) => {
                    let mut name = String::new();
                    push_str(&mut name, "T");
                    push_padded(&mut name, i as u64 + 1, 2);
                    proof {
                        assert(name@ =~= "T"@ + text::padded((i + 1) as nat, 2));
                    }
                    push_point(&mut v, point(a, name, copy("turn apex")));
                },
                None => {},
            }
        }
        proof {
            let two = seq![start_point(*r), end_point(*r)];
            let more = if turn_points {
                apex_points(apexes@, i as int)
            } else {
                Seq::empty()
            };
            assert(pt_views(v@) =~= was + two + more);
        }
        i += 1;
    }
    v
}

fn path_of(path: &Vec<Place>) -> (v: Vec<Point>)
    ensures
        pt_views(v@) == path_points(path@),
{
    let mut v: Vec<Point> = Vec::new();
    let mut i: usize = 0;
    proof {
        assert(pt_views(v@) =~= path_points(path@).take(0));
    }
    while i < path.len()
        invariant
            i <= path@.len(),
            pt_views(v@) == path_points(path@).take(i as int),
        decreases path.len() - i,
    {
        let q = point(&path[i], String::new(), String::new());
        proof {
            assert(path_points(path@).take(i + 1) =~= path_points(path@).take(i as int).push(
                path_points(path@)[i as int],
            ));
        }
        push_point(&mut v, q);
        i += 1;
    }
    proof {
        assert(path_points(path@).take(path@.len() as int) =~= path_points(path@));
    }
    v
}

/// The name of a plan that was given none.
pub fn default_name(p: &PlanText) -> (s: String)
    ensures
        s@ == default_title(*p),
{
    let mut s = copy("SEARCH ");
    push_str(&mut s, p.azimuth.as_str());
    push_str(&mut s, "T");
    s
}

fn explain(p: &PlanText) -> (s: String)
    ensures
        s@ == explanation(*p),
{
    let mut s = copy(p.digest.as_str());
    push_str(&mut s, ". Waypoints steer the GPS antenna; the fish is ");
    push_str(&mut s, p.offset.as_str());
    push_str(
        &mut s,
        " m astern. Each line is stretched by that offset so the fish, not the boat, crosses the box, and by ",
    );
    push_str(&mut s, p.run_in.as_str());
    push_str(&mut s, " m of run-in before the near edge and ");
    push_str(&mut s, p.run_out.as_str());
    push_str(
        &mut s,
        " m of run-out past the far one on top of it. Recording starts at the A point of each line and stops at the E point. No data is claimed in a turn.",
    );
    s
}

/// A plan as a file for the plotter.
pub fn to_gpx(p: &PlanText, targets: &Vec<TargetText>, opts: &GpxOptions) -> (g: Gpx)
    requires
        forall|i: int| 0 <= i < p.runs@.len() ==> (#[trigger] p.runs@[i]).line < usize::MAX,
    ensures
        g@ == gpx_of(*p, targets@, *opts),
{
    let name = if opts.name.as_str().unicode_len() == 0 {
        default_name(p)
    } else {
        copy(opts.name.as_str())
    };
    let desc = explain(p);
    let waypoints = waypoints(p, targets, opts);
    let mut routes: Vec<Line> = Vec::new();
    let mut tracks: Vec<Line> = Vec::new();
    proof {
        assert(ln_views(routes@) =~= Seq::<Ln>::empty());
        assert(ln_views(tracks@) =~= Seq::<Ln>::empty());
    }
    if opts.routes {
        if opts.route_per_line {
            routes = routes_per_line(&p.runs);
        } else {
            let l = Line {
                name: copy(name.as_str()),
                points: points_through(&p.runs, &p.apexes, opts.turn_points),
            };
            push_line(&mut routes, l);
        }
    }
    if opts.track {
        let mut title = copy(name.as_str());
        push_str(&mut title, " path");
        let l = Line { name: title, points: path_of(&p.path) };
        push_line(&mut tracks, l);
    }
    let g = Gpx { name, desc, tracks, routes, waypoints };
    proof {
        let d = gpx_of(*p, targets@, *opts);
        assert(g@.waypoints =~= d.waypoints);
        assert(g@.routes =~= d.routes);
        assert(g@.tracks =~= d.tracks);
        assert(g@ =~= d);
    }
    g
}

// ---- the settings in one line --------------------------------------------------

/// The settings a plan was solved from, as they are to be written.
#[derive(Debug)]
pub struct Settings {
    pub azimuth: String,
    pub range: String,
    pub altitude: String,
    pub nadir: String,
    pub spacing: String,
    pub regime: Regime,
    pub layback: String,
    pub gps_to_towpoint: String,
    pub run_in: String,
    pub run_out: String,
    pub speed: String,
    pub turn_radius: String,
    pub lines: usize,
    pub distance: String,
    pub minutes: i64,
    pub direction: Direction,
    pub skip: usize,
}

/// What is put between two settings.
pub open spec fn dot() -> Seq<char> {
    " · "@
}

pub open spec fn digest_first(s: Settings) -> Seq<char> {
    "azimuth "@ + s.azimuth@ + "°T"@ + dot() + "range "@ + s.range@ + " m/side"@ + dot()
        + "altitude "@ + s.altitude@ + " m"@ + dot() + "nadir gap "@ + s.nadir@ + " m"@ + dot()
        + "spacing "@ + s.spacing@ + " m ("@ + plan::regime_text(s.regime) + ")"@ + dot()
}

pub open spec fn digest_rig(s: Settings) -> Seq<char> {
    "layback "@ + s.layback@ + " m"@ + dot() + "GPS to tow point "@ + s.gps_to_towpoint@ + " m"@
        + dot() + "run-in "@ + s.run_in@ + " m"@ + dot() + "run-out "@ + s.run_out@ + " m"@ + dot()
        + s.speed@ + " kn"@ + dot() + "turn radius "@ + s.turn_radius@ + " m"@ + dot()
}

pub open spec fn digest_last(s: Settings) -> Seq<char> {
    text::dec(s.lines as nat) + " lines"@ + dot() + s.distance@ + " km"@ + dot()
        + plan::minutes_text(s.minutes as int) + dot() + (if s.direction == Direction::OneWay {
        "one-way running"@
    } else {
        "alternating"@
    }) + dot() + (if s.skip > 1 {
        "run every "@ + text::dec(s.skip as nat) + "th line, then fill"@
    } else {
        "run in sequence"@
    })
}

fn first_text(s: &Settings) -> (o: String)
    ensures
        o@ == digest_first(*s),
{
    let mut o = copy("azimuth ");
    push_str(&mut o, s.azimuth.as_str());
    push_str(&mut o, "°T");
    push_str(&mut o, " · ");
    push_str(&mut o, "range ");
    push_str(&mut o, s.range.as_str());
    push_str(&mut o, " m/side");
    push_str(&mut o, " · ");
    push_str(&mut o, "altitude ");
    push_str(&mut o, s.altitude.as_str());
    push_str(&mut o, " m");
    push_str(&mut o, " · ");
    push_str(&mut o, "nadir gap ");
    push_str(&mut o, s.nadir.as_str());
    push_str(&mut o, " m");
    push_str(&mut o, " · ");
    push_str(&mut o, "spacing ");
    push_str(&mut o, s.spacing.as_str());
    push_str(&mut o, " m (");
    push_str(&mut o, regime_name(s.regime));
    push_str(&mut o, ")");
    push_str(&mut o, " · ");
    o
}

fn rig_text(s: &Settings) -> (o: String)
    ensures
        o@ == digest_rig(*s),
{
    let mut o = copy("layback ");
    push_str(&mut o, s.layback.as_str());
    push_str(&mut o, " m");
    push_str(&mut o, " · ");
    push_str(&mut o, "GPS to tow point ");
    push_str(&mut o, s.gps_to_towpoint.as_str());
    push_str(&mut o, " m");
    push_str(&mut o, " · ");
    push_str(&mut o, "run-in ");
    push_str(&mut o, s.run_in.as_str());
    push_str(&mut o, " m");
    push_str(&mut o, " · ");
    push_str(&mut o, "run-out ");
    push_str(&mut o, s.run_out.as_str());
    push_str(&mut o, " m");
    push_str(&mut o, " · ");
    push_str(&mut o, s.speed.as_str());
    push_str(&mut o, " kn");
    push_str(&mut o, " · ");
    push_str(&mut o, "turn radius ");
    push_str(&mut o, s.turn_radius.as_str());
    push_str(&mut o, " m");
    push_str(&mut o, " · ");
    o
}

fn last_text(s: &Settings) -> (o: String)
    requires
        s.minutes > i64::MIN,
    ensures
        o@ == digest_last(*s),
{
    let mut o = String::new();
    push_dec(&mut o, s.lines as u64);
    proof {
        assert(o@ =~= text::dec(s.lines as nat));
    }
    push_str(&mut o, " lines");
    push_str(&mut o, " · ");
    push_str(&mut o, s.distance.as_str());
    push_str(&mut o, " km");
    push_str(&mut o, " · ");
    let t = hms(s.minutes);
    push_str(&mut o, t.as_str());
    push_str(&mut o, " · ");
    if s.direction == Direction::OneWay {
        push_str(&mut o, "one-way running");
    } else {
        push_str(&mut o, "alternating");
    }
    push_str(&mut o, " · ");
    let order = if s.skip > 1 {
        let mut t = copy("run every ");
        push_dec(&mut t, s.skip as u64);
        push_str(&mut t, "th line, then fill");
        t
    } else {
        copy("run in sequence")
    };
    push_str(&mut o, order.as_str());
    o
}

/// The settings a plan was solved from, in one line, so that a file found later
/// says what it came from.
pub fn digest(s: &Settings) -> (r: String)
    requires
        s.minutes > i64::MIN,
    ensures
        r@ == digest_first(*s) + digest_rig(*s) + digest_last(*s),
{
    let mut o = first_text(s);
    push_str(&mut o, rig_text(s).as_str());
    push_str(&mut o, last_text(s).as_str());
    o
}

// ---- what holds of them --------------------------------------------------------------

/// The marks of a line stand where it starts, where recording starts, where it stops
/// and where the line ends, in the order that the boat comes to them, and bear the
/// line's number with a letter each.
pub proof fn law_line_marks(r: RunText)
    ensures
        line_marks(r).len() == (if r.parted {
            4int
        } else {
            3
        }),
        line_marks(r)[0].lat == r.start.lat@ && line_marks(r)[0].lon == r.start.lon@,
        line_marks(r)[1].lat == r.on.lat@ && line_marks(r)[1].lon == r.on.lon@,
        r.parted ==> line_marks(r)[2].lat == r.off.lat@ && line_marks(r)[2].lon == r.off.lon@,
        line_marks(r).last().lat == r.end.lat@ && line_marks(r).last().lon == r.end.lon@,
        line_marks(r)[0].name.last() == 'S',
        line_marks(r)[1].name.last() == 'A',
        line_marks(r)[2].name.last() == 'E',
        r.parted ==> line_marks(r)[3].name.last() == 'T',
        forall|i: int|
            0 <= i < line_marks(r).len() ==> (#[trigger] line_marks(r)[i]).name.drop_last()
                == seq!['L'] + text::padded((r.line + 1) as nat, 2),
{
    reveal_strlit("L");
    reveal_strlit("S");
    reveal_strlit("A");
    reveal_strlit("E");
    reveal_strlit("T");
    let id = line_id(r.line as nat);
    assert(id =~= seq!['L'] + text::padded((r.line + 1) as nat, 2));
    assert((id + "S"@).drop_last() =~= id);
    assert((id + "A"@).drop_last() =~= id);
    assert((id + "E"@).drop_last() =~= id);
    assert((id + "T"@).drop_last() =~= id);
}

/// The marks of a plan are those of its lines, line by line.
pub proof fn law_marks_in_order(a: Seq<RunText>, b: Seq<RunText>)
    ensures
        all_marks(a + b) == all_marks(a) + all_marks(b),
        forall|x: RunText| all_marks(#[trigger] seq![x]) == line_marks(x),
    decreases b.len(),
{
    assert forall|x: RunText| all_marks(#[trigger] seq![x]) == line_marks(x) by {
        assert(seq![x].drop_last() =~= Seq::empty());
        assert(seq![x].last() == x);
        assert(all_marks(Seq::<RunText>::empty()) =~= Seq::empty());
        assert(all_marks(seq![x]) =~= all_marks(Seq::<RunText>::empty()) + line_marks(x));
    }
    if b.len() == 0 {
        assert(a + b =~= a);
        assert(all_marks(a) + all_marks(b) =~= all_marks(a));
    } else {
        law_marks_in_order(a, b.drop_last());
        assert((a + b).drop_last() =~= a + b.drop_last());
        assert((a + b).last() == b.last());
        assert(all_marks(a + b) =~= all_marks(a) + all_marks(b));
    }
}

/// A route through a plan goes from the start to the end of each line in turn.
pub proof fn law_route_through(rs: Seq<RunText>, apexes: Seq<Option<Place>>, n: int, k: int)
    requires
        0 <= k < n <= rs.len(),
    ensures
        through(rs, apexes, false, n).len() == 2 * n,
        through(rs, apexes, false, n)[2 * k].lat == rs[k].start.lat@,
        through(rs, apexes, false, n)[2 * k].lon == rs[k].start.lon@,
        through(rs, apexes, false, n)[2 * k + 1].lat == rs[k].end.lat@,
        through(rs, apexes, false, n)[2 * k + 1].lon == rs[k].end.lon@,
    decreases n,
{
    if n > 1 {
        law_route_through(rs, apexes, n - 1, if k < n - 1 {
            k
        } else {
            0
        });
    } else {
        assert(through(rs, apexes, false, 0) =~= Seq::empty());
    }
    let front = through(rs, apexes, false, n - 1);
    let all = through(rs, apexes, false, n);
    assert(all =~= front + seq![start_point(rs[n - 1]), end_point(rs[n - 1])]);
    if k < n - 1 {
        assert(all[2 * k] == front[2 * k]);
        assert(all[2 * k + 1] == front[2 * k + 1]);
    }
}

/// With a point at the middle of each turn, that point follows the line before the
/// turn.
pub proof fn law_route_through_turns(rs: Seq<RunText>, apexes: Seq<Option<Place>>, n: int, k: int)
    requires
        0 <= k < n <= rs.len(),
        n <= apexes.len(),
        forall|i: int| 0 <= i < n ==> (#[trigger] apexes[i]) is Some,
    ensures
        through(rs, apexes, true, n).len() == 3 * n,
        through(rs, apexes, true, n)[3 * k].lat == rs[k].start.lat@,
        through(rs, apexes, true, n)[3 * k + 1].lat == rs[k].end.lat@,
        through(rs, apexes, true, n)[3 * k + 2].lat == (apexes[k]->0).lat@,
        through(rs, apexes, true, n)[3 * k + 2].lon == (apexes[k]->0).lon@,
    decreases n,
{
    if n > 1 {
        law_route_through_turns(rs, apexes, n - 1, if k < n - 1 {
            k
        } else {
            0
        });
    } else {
        assert(through(rs, apexes, true, 0) =~= Seq::empty());
    }
    let front = through(rs, apexes, true, n - 1);
    let all = through(rs, apexes, true, n);
    assert(apexes[n - 1] is Some);
    assert(apex_points(apexes, n - 1).len() == 1);
    assert(all =~= front + seq![start_point(rs[n - 1]), end_point(rs[n - 1])] + apex_points(
        apexes,
        n - 1,
    ));
    if k < n - 1 {
        assert(all[3 * k] == front[3 * k]);
        assert(all[3 * k + 1] == front[3 * k + 1]);
        assert(all[3 * k + 2] == front[3 * k + 2]);
    } else {
        assert(all[3 * k + 2] == apex_points(apexes, n - 1)[0]);
    }
}

/// A plan's file has what was asked for and nothing else: targets and line marks as
/// waypoints, one route or one for each line, and the path as a track.
pub proof fn law_what_is_written(p: PlanText, ts: Seq<TargetText>, o: GpxOptions)
    ensures
        !o.targets && !o.line_waypoints ==> gpx_of(p, ts, o).waypoints.len() == 0,
        o.targets ==> forall|i: int|
            0 <= i < ts.len() ==> (#[trigger] gpx_of(p, ts, o).waypoints[i]).name == ts[i].name@
                && gpx_of(p, ts, o).waypoints[i].lat == ts[i].place.lat@ && gpx_of(p, ts, o).waypoints[i].lon
                == ts[i].place.lon@,
        !o.targets && o.line_waypoints ==> gpx_of(p, ts, o).waypoints == all_marks(p.runs@),
        gpx_of(p, ts, o).routes.len() == (if !o.routes {
            0
        } else if o.route_per_line {
            p.runs@.len()
        } else {
            1
        }),
        gpx_of(p, ts, o).tracks.len() == (if o.track {
            1nat
        } else {
            0
        }),
        o.track ==> gpx_of(p, ts, o).tracks[0].points.len() == p.path@.len() && forall|i: int|
            0 <= i < p.path@.len() ==> (#[trigger] gpx_of(p, ts, o).tracks[0].points[i]).lat
                == p.path@[i].lat@ && gpx_of(p, ts, o).tracks[0].points[i].lon == p.path@[i].lon@,
        o.name@.len() > 0 ==> gpx_of(p, ts, o).name == o.name@,
{
    let d = gpx_of(p, ts, o);
    if !o.targets && o.line_waypoints {
        assert(d.waypoints =~= all_marks(p.runs@));
    }
}

/// A route for a line goes from its start to its end.
pub proof fn law_line_routes(rs: Seq<RunText>, i: int)
    requires
        0 <= i < rs.len(),
    ensures
        line_routes(rs).len() == rs.len(),
        line_routes(rs)[i].points.len() == 2,
        line_routes(rs)[i].points[0].lat == rs[i].start.lat@,
        line_routes(rs)[i].points[0].lon == rs[i].start.lon@,
        line_routes(rs)[i].points[1].lat == rs[i].end.lat@,
        line_routes(rs)[i].points[1].lon == rs[i].end.lon@,
{
}

} // verus!
