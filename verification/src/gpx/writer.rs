//! GPX 1.1, ready to write to a file.

use vstd::prelude::*;

use crate::gpx::scan::escape;
use crate::gpx::{Gpx, Line, Point, Waypoint};
use crate::text::{push_str, same};

verus! {

/// A tag as it is written: what comes before it, what it reads, and the text
/// that follows.
#[verifier::ext_equal]
pub struct Chunk {
    pub lead: Seq<char>,
    pub inner: Seq<char>,
    pub text: Seq<char>,
}

/// A tag as text.
pub open spec fn chunk_text(c: Chunk) -> Seq<char> {
    c.lead + seq!['<'] + c.inner + seq!['>'] + c.text
}

/// Tags as text, one after the other.
pub open spec fn render(cs: Seq<Chunk>) -> Seq<char>
    decreases cs.len(),
{
    if cs.len() == 0 {
        Seq::empty()
    } else {
        chunk_text(cs[0]) + render(cs.skip(1))
    }
}

/// So many spaces.
pub open spec fn spaces(n: nat) -> Seq<char> {
    Seq::new(n, |i: int| ' ')
}

/// An element with nothing but text in it.
pub open spec fn text_chunks(indent: nat, name: Seq<char>, text: Seq<char>) -> Seq<Chunk> {
    seq![
        Chunk { lead: spaces(indent), inner: name, text },
        Chunk { lead: Seq::empty(), inner: seq!['/'] + name, text: seq!['\n'] },
    ]
}

/// An element with text in it, left out where there is none.
pub open spec fn tag_chunks(indent: nat, name: Seq<char>, text: Seq<char>) -> Seq<Chunk> {
    if text.len() == 0 {
        Seq::empty()
    } else {
        text_chunks(indent, name, crate::gpx::scan::escaped(text))
    }
}

/// An element with a number in it, left out where there is none.
pub open spec fn opt_chunks(indent: nat, name: Seq<char>, text: Option<Seq<char>>) -> Seq<Chunk> {
    match text {
        None => Seq::empty(),
        Some(t) => text_chunks(indent, name, t),
    }
}

/// A tag on a line of its own.
pub open spec fn line_chunk(indent: nat, inner: Seq<char>) -> Chunk {
    Chunk { lead: spaces(indent), inner, text: seq!['\n'] }
}

/// A point's tag, up to its end.
pub open spec fn position(name: Seq<char>, lat: Seq<char>, lon: Seq<char>) -> Seq<char> {
    name + " lat=\""@ + lat + "\" lon=\""@ + lon + "\""@
}

pub open spec fn point_indent(name: Seq<char>) -> nat {
    if name == "trkpt"@ {
        6
    } else {
        4
    }
}

/// Whether a point has anything in it but its position.
pub open spec fn has_more(p: crate::gpx::Pt) -> bool {
    p.name.len() > 0 || p.desc.len() > 0 || p.ele is Some || p.time is Some
}

pub open spec fn point_chunks(name: Seq<char>, p: crate::gpx::Pt) -> Seq<Chunk> {
    let n = point_indent(name);
    if has_more(p) {
        seq![line_chunk(n, position(name, p.lat, p.lon))] + tag_chunks(n + 2, "name"@, p.name)
            + tag_chunks(n + 2, "desc"@, p.desc) + opt_chunks(n + 2, "ele"@, p.ele) + opt_chunks(
            n + 2,
            "time"@,
            p.time,
        ) + seq![line_chunk(n, seq!['/'] + name)]
    } else {
        seq![line_chunk(n, position(name, p.lat, p.lon) + seq!['/'])]
    }
}

pub open spec fn points_chunks(name: Seq<char>, ps: Seq<crate::gpx::Pt>) -> Seq<Chunk>
    decreases ps.len(),
{
    if ps.len() == 0 {
        Seq::empty()
    } else {
        points_chunks(name, ps.drop_last()) + point_chunks(name, ps.last())
    }
}

pub open spec fn waypoint_chunks(w: crate::gpx::Wp) -> Seq<Chunk> {
    seq![line_chunk(2, position("wpt"@, w.lat, w.lon))] + tag_chunks(4, "name"@, w.name)
        + tag_chunks(4, "desc"@, w.desc) + opt_chunks(4, "ele"@, w.ele) + seq![
        line_chunk(2, "/wpt"@),
    ]
}

pub open spec fn waypoints_chunks(ws: Seq<crate::gpx::Wp>) -> Seq<Chunk>
    decreases ws.len(),
{
    if ws.len() == 0 {
        Seq::empty()
    } else {
        waypoints_chunks(ws.drop_last()) + waypoint_chunks(ws.last())
    }
}

pub open spec fn route_chunks(r: crate::gpx::Ln) -> Seq<Chunk> {
    seq![line_chunk(2, "rte"@)] + tag_chunks(4, "name"@, r.name) + points_chunks(
        "rtept"@,
        r.points,
    ) + seq![line_chunk(2, "/rte"@)]
}

pub open spec fn routes_chunks(rs: Seq<crate::gpx::Ln>) -> Seq<Chunk>
    decreases rs.len(),
{
    if rs.len() == 0 {
        Seq::empty()
    } else {
        routes_chunks(rs.drop_last()) + route_chunks(rs.last())
    }
}

pub open spec fn track_chunks(t: crate::gpx::Ln) -> Seq<Chunk> {
    seq![line_chunk(2, "trk"@)] + tag_chunks(4, "name"@, t.name) + seq![line_chunk(4, "trkseg"@)]
        + points_chunks("trkpt"@, t.points) + seq![line_chunk(4, "/trkseg"@)] + seq![
        line_chunk(2, "/trk"@),
    ]
}

pub open spec fn tracks_chunks(ts: Seq<crate::gpx::Ln>) -> Seq<Chunk>
    decreases ts.len(),
{
    if ts.len() == 0 {
        Seq::empty()
    } else {
        tracks_chunks(ts.drop_last()) + track_chunks(ts.last())
    }
}

pub open spec fn metadata_chunks(name: Seq<char>, desc: Seq<char>) -> Seq<Chunk> {
    if name.len() == 0 && desc.len() == 0 {
        Seq::empty()
    } else {
        seq![line_chunk(2, "metadata"@)] + tag_chunks(4, "name"@, name) + tag_chunks(
            4,
            "desc"@,
            desc,
        ) + seq![line_chunk(2, "/metadata"@)]
    }
}

/// The opening tag's text.
pub open spec fn gpx_tag() -> Seq<char> {
    "gpx version=\"1.1\" creator=\"swath "@ + crate::VERSION@
        + "\" xmlns=\"http://www.topografix.com/GPX/1/1\""@
}

/// A whole file.
pub open spec fn doc_chunks(d: crate::gpx::Doc) -> Seq<Chunk> {
    seq![
        line_chunk(0, "?xml version=\"1.0\" encoding=\"UTF-8\"?"@),
        line_chunk(0, gpx_tag()),
    ] + metadata_chunks(d.name, d.desc) + waypoints_chunks(d.waypoints) + routes_chunks(d.routes)
        + tracks_chunks(d.tracks) + seq![line_chunk(0, "/gpx"@)]
}

/// Rendering goes part by part.
pub proof fn lemma_render_concat(a: Seq<Chunk>, b: Seq<Chunk>)
    ensures
        render(a + b) == render(a) + render(b),
    decreases a.len(),
{
    if a.len() == 0 {
        assert(a + b =~= b);
        assert(Seq::<char>::empty() + render(b) =~= render(b));
    } else {
        assert((a + b).skip(1) =~= a.skip(1) + b);
        lemma_render_concat(a.skip(1), b);
        assert(chunk_text(a[0]) + (render(a.skip(1)) + render(b)) =~= chunk_text(a[0]) + render(
            a.skip(1),
        ) + render(b));
    }
}

pub proof fn lemma_render_one(c: Chunk)
    ensures
        render(seq![c]) == chunk_text(c),
{
    assert(seq![c].skip(1) =~= Seq::<Chunk>::empty());
    assert(render(seq![c].skip(1)) =~= Seq::<char>::empty());
    assert(chunk_text(c) + Seq::<char>::empty() =~= chunk_text(c));
}

fn push_spaces(o: &mut String, n: usize)
    ensures
        final(o)@ == old(o)@ + spaces(n as nat),
{
    let mut i: usize = 0;
    proof {
        assert(old(o)@ + spaces(0) =~= old(o)@);
    }
    while i < n
        invariant
            i <= n,
            o@ == old(o)@ + spaces(i as nat),
        decreases n - i,
    {
        o.push(' ');
        i += 1;
        proof {
            assert(spaces(i as nat) =~= spaces((i - 1) as nat).push(' '));
        }
    }
}

fn push_line(o: &mut String, indent: usize, inner: &str)
    ensures
        final(o)@ == old(o)@ + render(seq![line_chunk(indent as nat, inner@)]),
{
    push_spaces(o, indent);
    o.push('<');
    push_str(o, inner);
    o.push('>');
    o.push('\n');
    proof {
        lemma_render_one(line_chunk(indent as nat, inner@));
        assert(o@ =~= old(o)@ + chunk_text(line_chunk(indent as nat, inner@)));
    }
}

fn push_element(o: &mut String, indent: usize, name: &str, text: &str)
    ensures
        final(o)@ == old(o)@ + render(text_chunks(indent as nat, name@, text@)),
{
    push_spaces(o, indent);
    o.push('<');
    push_str(o, name);
    o.push('>');
    push_str(o, text);
    o.push('<');
    o.push('/');
    push_str(o, name);
    o.push('>');
    o.push('\n');
    proof {
        let cs = text_chunks(indent as nat, name@, text@);
        assert(cs =~= seq![cs[0]] + seq![cs[1]]);
        lemma_render_concat(seq![cs[0]], seq![cs[1]]);
        lemma_render_one(cs[0]);
        lemma_render_one(cs[1]);
        assert(o@ =~= old(o)@ + (chunk_text(cs[0]) + chunk_text(cs[1])));
    }
}

/// Write an element with text in it, unless there is none.
pub fn tag(o: &mut String, indent: usize, name: &str, text: &str)
    ensures
        final(o)@ == old(o)@ + render(tag_chunks(indent as nat, name@, text@)),
{
    if text.is_empty() {
        proof {
            assert(old(o)@ + Seq::<char>::empty() =~= old(o)@);
        }
        return ;
    }
    push_element(o, indent, name, escape(text).as_str());
}

fn opt_tag(o: &mut String, indent: usize, name: &str, text: &Option<String>)
    ensures
        final(o)@ == old(o)@ + render(
            opt_chunks(indent as nat, name@, crate::gpx::scan::opt_view(*text)),
        ),
{
    match text {
        None => {
            proof {
                assert(old(o)@ + Seq::<char>::empty() =~= old(o)@);
            }
        },
        Some(t) => push_element(o, indent, name, t.as_str()),
    }
}

fn position_text(name: &str, lat: &str, lon: &str) -> (s: String)
    ensures
        s@ == position(name@, lat@, lon@),
{
    let mut s = String::new();
    push_str(&mut s, name);
    push_str(&mut s, " lat=\"");
    push_str(&mut s, lat);
    push_str(&mut s, "\" lon=\"");
    push_str(&mut s, lon);
    push_str(&mut s, "\"");
    proof {
        assert(s@ =~= position(name@, lat@, lon@));
    }
    s
}

/// Write a point of a track or a route.
fn point(o: &mut String, name: &str, p: &Point)
    ensures
        final(o)@ == old(o)@ + render(point_chunks(name@, p@)),
{
    let more = !p.name.as_str().is_empty() || !p.desc.as_str().is_empty() || p.ele.is_some()
        || p.time.is_some();
    let n: usize = if same(name, "trkpt") { 6 } else { 4 };
    let ghost m = n as nat;
    let mut at = position_text(name, p.lat.as_str(), p.lon.as_str());
    if !more {
        at.push('/');
        push_line(o, n, at.as_str());
        proof {
            assert(at@ =~= position(name@, p.lat@, p.lon@) + seq!['/']);
        }
        return ;
    }
    push_line(o, n, at.as_str());
    tag(o, n + 2, "name", p.name.as_str());
    tag(o, n + 2, "desc", p.desc.as_str());
    opt_tag(o, n + 2, "ele", &p.ele);
    opt_tag(o, n + 2, "time", &p.time);
    let mut end = String::new();
    end.push('/');
    push_str(&mut end, name);
    push_line(o, n, end.as_str());
    proof {
        assert(end@ =~= seq!['/'] + name@);
        let a = seq![line_chunk(m, position(name@, p.lat@, p.lon@))];
        let b = tag_chunks(m + 2, "name"@, p.name@);
        let c = tag_chunks(m + 2, "desc"@, p.desc@);
        let d = opt_chunks(m + 2, "ele"@, p@.ele);
        let e = opt_chunks(m + 2, "time"@, p@.time);
        let f = seq![line_chunk(m, seq!['/'] + name@)];
        lemma_render_six(old(o)@, a, b, c, d, e, f);
        assert(point_chunks(name@, p@) == a + b + c + d + e + f);
    }
}

proof fn lemma_render_six(
    start: Seq<char>,
    a: Seq<Chunk>,
    b: Seq<Chunk>,
    c: Seq<Chunk>,
    d: Seq<Chunk>,
    e: Seq<Chunk>,
    f: Seq<Chunk>,
)
    ensures
        start + render(a) + render(b) + render(c) + render(d) + render(e) + render(f) == start
            + render(a + b + c + d + e + f),
{
    lemma_render_concat(a, b);
    lemma_render_concat(a + b, c);
    lemma_render_concat(a + b + c, d);
    lemma_render_concat(a + b + c + d, e);
    lemma_render_concat(a + b + c + d + e, f);
    assert(start + render(a) + render(b) + render(c) + render(d) + render(e) + render(f) =~= start
        + (render(a) + render(b) + render(c) + render(d) + render(e) + render(f)));
}

fn points(o: &mut String, name: &str, ps: &Vec<Point>)
    ensures
        final(o)@ == old(o)@ + render(points_chunks(name@, ps@.map_values(|p: Point| p@))),
{
    let ghost all = ps@.map_values(|p: Point| p@);
    let mut i: usize = 0;
    proof {
        assert(points_chunks(name@, all.take(0)) =~= Seq::<Chunk>::empty());
        assert(old(o)@ + Seq::<char>::empty() =~= old(o)@);
    }
    while i < ps.len()
        invariant
            i <= ps@.len(),
            all == ps@.map_values(|p: Point| p@),
            o@ == old(o)@ + render(points_chunks(name@, all.take(i as int))),
        decreases ps.len() - i,
    {
        let ghost before = o@;
        point(o, name, &ps[i]);
        proof {
            let next = all.take(i + 1);
            assert(next.drop_last() =~= all.take(i as int));
            lemma_render_concat(
                points_chunks(name@, all.take(i as int)),
                point_chunks(name@, next.last()),
            );
            assert(o@ =~= old(o)@ + render(points_chunks(name@, next)));
        }
        i += 1;
    }
    proof {
        assert(all.take(i as int) =~= all);
    }
}

fn waypoint(o: &mut String, w: &Waypoint)
    ensures
        final(o)@ == old(o)@ + render(waypoint_chunks(w@)),
{
    let at = position_text("wpt", w.lat.as_str(), w.lon.as_str());
    push_line(o, 2, at.as_str());
    tag(o, 4, "name", w.name.as_str());
    tag(o, 4, "desc", w.desc.as_str());
    opt_tag(o, 4, "ele", &w.ele);
    push_line(o, 2, "/wpt");
    proof {
        let a = seq![line_chunk(2, position("wpt"@, w.lat@, w.lon@))];
        let b = tag_chunks(4, "name"@, w.name@);
        let c = tag_chunks(4, "desc"@, w.desc@);
        let d = opt_chunks(4, "ele"@, w@.ele);
        let e = seq![line_chunk(2, "/wpt"@)];
        lemma_render_concat(a, b);
        lemma_render_concat(a + b, c);
        lemma_render_concat(a + b + c, d);
        lemma_render_concat(a + b + c + d, e);
        assert(o@ =~= old(o)@ + (render(a) + render(b) + render(c) + render(d) + render(e)));
    }
}

fn route(o: &mut String, r: &Line)
    ensures
        final(o)@ == old(o)@ + render(route_chunks(r@)),
{
    push_line(o, 2, "rte");
    tag(o, 4, "name", r.name.as_str());
    points(o, "rtept", &r.points);
    push_line(o, 2, "/rte");
    proof {
        let a = seq![line_chunk(2, "rte"@)];
        let b = tag_chunks(4, "name"@, r.name@);
        let c = points_chunks("rtept"@, r@.points);
        let d = seq![line_chunk(2, "/rte"@)];
        lemma_render_concat(a, b);
        lemma_render_concat(a + b, c);
        lemma_render_concat(a + b + c, d);
        assert(o@ =~= old(o)@ + (render(a) + render(b) + render(c) + render(d)));
    }
}

fn track(o: &mut String, t: &Line)
    ensures
        final(o)@ == old(o)@ + render(track_chunks(t@)),
{
    push_line(o, 2, "trk");
    tag(o, 4, "name", t.name.as_str());
    push_line(o, 4, "trkseg");
    points(o, "trkpt", &t.points);
    push_line(o, 4, "/trkseg");
    push_line(o, 2, "/trk");
    proof {
        let a = seq![line_chunk(2, "trk"@)];
        let b = tag_chunks(4, "name"@, t.name@);
        let c = seq![line_chunk(4, "trkseg"@)];
        let d = points_chunks("trkpt"@, t@.points);
        let e = seq![line_chunk(4, "/trkseg"@)];
        let f = seq![line_chunk(2, "/trk"@)];
        lemma_render_concat(a, b);
        lemma_render_concat(a + b, c);
        lemma_render_concat(a + b + c, d);
        lemma_render_concat(a + b + c + d, e);
        lemma_render_concat(a + b + c + d + e, f);
        assert(o@ =~= old(o)@ + (render(a) + render(b) + render(c) + render(d) + render(e)
            + render(f)));
    }
}

fn metadata(o: &mut String, name: &str, desc: &str)
    ensures
        final(o)@ == old(o)@ + render(metadata_chunks(name@, desc@)),
{
    if name.is_empty() && desc.is_empty() {
        proof {
            assert(old(o)@ + Seq::<char>::empty() =~= old(o)@);
        }
        return ;
    }
    push_line(o, 2, "metadata");
    tag(o, 4, "name", name);
    tag(o, 4, "desc", desc);
    push_line(o, 2, "/metadata");
    proof {
        let a = seq![line_chunk(2, "metadata"@)];
        let b = tag_chunks(4, "name"@, name@);
        let c = tag_chunks(4, "desc"@, desc@);
        let d = seq![line_chunk(2, "/metadata"@)];
        lemma_render_concat(a, b);
        lemma_render_concat(a + b, c);
        lemma_render_concat(a + b + c, d);
        assert(o@ =~= old(o)@ + (render(a) + render(b) + render(c) + render(d)));
    }
}

fn waypoints(o: &mut String, ws: &Vec<Waypoint>)
    ensures
        final(o)@ == old(o)@ + render(waypoints_chunks(ws@.map_values(|w: Waypoint| w@))),
{
    let ghost all = ws@.map_values(|w: Waypoint| w@);
    let mut i: usize = 0;
    proof {
        assert(waypoints_chunks(all.take(0)) =~= Seq::<Chunk>::empty());
        assert(old(o)@ + Seq::<char>::empty() =~= old(o)@);
    }
    while i < ws.len()
        invariant
            i <= ws@.len(),
            all == ws@.map_values(|w: Waypoint| w@),
            o@ == old(o)@ + render(waypoints_chunks(all.take(i as int))),
        decreases ws.len() - i,
    {
        waypoint(o, &ws[i]);
        proof {
            let next = all.take(i + 1);
            assert(next.drop_last() =~= all.take(i as int));
            lemma_render_concat(
                waypoints_chunks(all.take(i as int)),
                waypoint_chunks(next.last()),
            );
            assert(o@ =~= old(o)@ + render(waypoints_chunks(next)));
        }
        i += 1;
    }
    proof {
        assert(all.take(i as int) =~= all);
    }
}

fn routes(o: &mut String, rs: &Vec<Line>)
    ensures
        final(o)@ == old(o)@ + render(routes_chunks(rs@.map_values(|l: Line| l@))),
{
    let ghost all = rs@.map_values(|l: Line| l@);
    let mut i: usize = 0;
    proof {
        assert(routes_chunks(all.take(0)) =~= Seq::<Chunk>::empty());
        assert(old(o)@ + Seq::<char>::empty() =~= old(o)@);
    }
    while i < rs.len()
        invariant
            i <= rs@.len(),
            all == rs@.map_values(|l: Line| l@),
            o@ == old(o)@ + render(routes_chunks(all.take(i as int))),
        decreases rs.len() - i,
    {
        route(o, &rs[i]);
        proof {
            let next = all.take(i + 1);
            assert(next.drop_last() =~= all.take(i as int));
            lemma_render_concat(routes_chunks(all.take(i as int)), route_chunks(next.last()));
            assert(o@ =~= old(o)@ + render(routes_chunks(next)));
        }
        i += 1;
    }
    proof {
        assert(all.take(i as int) =~= all);
    }
}

fn tracks(o: &mut String, ts: &Vec<Line>)
    ensures
        final(o)@ == old(o)@ + render(tracks_chunks(ts@.map_values(|l: Line| l@))),
{
    let ghost all = ts@.map_values(|l: Line| l@);
    let mut i: usize = 0;
    proof {
        assert(tracks_chunks(all.take(0)) =~= Seq::<Chunk>::empty());
        assert(old(o)@ + Seq::<char>::empty() =~= old(o)@);
    }
    while i < ts.len()
        invariant
            i <= ts@.len(),
            all == ts@.map_values(|l: Line| l@),
            o@ == old(o)@ + render(tracks_chunks(all.take(i as int))),
        decreases ts.len() - i,
    {
        track(o, &ts[i]);
        proof {
            let next = all.take(i + 1);
            assert(next.drop_last() =~= all.take(i as int));
            lemma_render_concat(tracks_chunks(all.take(i as int)), track_chunks(next.last()));
            assert(o@ =~= old(o)@ + render(tracks_chunks(next)));
        }
        i += 1;
    }
    proof {
        assert(all.take(i as int) =~= all);
    }
}

/// GPX 1.1 for a `Gpx`. What comes out of `parse(&scan(&write(&g)), ..)` is `g`
/// again, for every file that has something to say: see `law_gpx_round_trip`.
pub fn write(g: &Gpx) -> (r: String)
    ensures
        r@ == render(doc_chunks(g@)),
{
    let mut o = String::new();
    push_line(&mut o, 0, "?xml version=\"1.0\" encoding=\"UTF-8\"?");
    let mut opening = String::new();
    push_str(&mut opening, "gpx version=\"1.1\" creator=\"swath ");
    push_str(&mut opening, crate::VERSION);
    push_str(&mut opening, "\" xmlns=\"http://www.topografix.com/GPX/1/1\"");
    push_line(&mut o, 0, opening.as_str());
    metadata(&mut o, g.name.as_str(), g.desc.as_str());
    waypoints(&mut o, &g.waypoints);
    routes(&mut o, &g.routes);
    tracks(&mut o, &g.tracks);
    push_line(&mut o, 0, "/gpx");
    proof {
        assert(opening@ =~= gpx_tag());
        let x = line_chunk(0, "?xml version=\"1.0\" encoding=\"UTF-8\"?"@);
        let y = line_chunk(0, gpx_tag());
        let a = seq![x, y];
        let b = metadata_chunks(g.name@, g.desc@);
        let c = waypoints_chunks(g@.waypoints);
        let d = routes_chunks(g@.routes);
        let e = tracks_chunks(g@.tracks);
        let f = seq![line_chunk(0, "/gpx"@)];
        assert(a =~= seq![x] + seq![y]);
        lemma_render_concat(seq![x], seq![y]);
        lemma_render_concat(a, b);
        lemma_render_concat(a + b, c);
        lemma_render_concat(a + b + c, d);
        lemma_render_concat(a + b + c + d, e);
        lemma_render_concat(a + b + c + d + e, f);
        assert(o@ =~= render(seq![x]) + render(seq![y]) + render(b) + render(c) + render(d)
            + render(e) + render(f));
    }
    o
}

} // verus!
