//! The recordings of the report: what each holds, and how it was placed.

use vstd::prelude::*;

use crate::names;
use crate::nav::{Bearing, LaybackModel};
use crate::report;
use crate::report::sheet;
use crate::report::sheet::{plural_ending, ContactText};
use crate::report::words;
use crate::report::{bands, esc, esc_all, number, string_together, Chart};
use crate::text;
use crate::text::{copy, push_str, same};

verus! {

/// The corners of an area, in degrees.
pub struct Extent {
    pub min_lat: String,
    pub min_lon: String,
    pub max_lat: String,
    pub max_lon: String,
}

/// How a recording's imagery was placed.
pub struct NavText {
    pub layback: String,
    pub gps_to_towpoint: String,
    pub model: LaybackModel,
    pub bearing: Bearing,
    pub cog_baseline: String,
    pub roll_flag: String,
}

/// Where the beam reached the seabed: how high the fish flew, and from how far
/// out to how far.
pub struct Reach {
    pub altitude: String,
    pub near: String,
    pub far: String,
}

/// How far apart the models of the cable put the fish.
pub struct Spread {
    pub median: String,
    pub p95: String,
}

/// A recording as the report describes it.
pub struct DatasetSummary {
    pub name: String,
    pub label: String,
    pub pings: u64,
    pub start: String,
    pub duration: String,
    pub line_km: String,
    pub lines: u64,
    pub subsystems: Vec<u8>,
    pub extent: Option<Extent>,
    pub sound_speed: String,
    pub spread: Option<Spread>,
    pub reach: Option<Reach>,
    pub nav: NavText,
    pub charts: Vec<Chart>,
}

/// A line of a table.
pub open spec fn row_of(k: Seq<char>, v: Seq<char>) -> Seq<char> {
    "<tr><th>"@ + k + "</th><td>"@ + v + "</td></tr>\n"@
}

/// Write a line of a table.
pub fn row(k: &str, v: &str) -> (h: String)
    ensures
        h@ == row_of(k@, v@),
{
    let mut h = copy("<tr><th>");
    push_str(&mut h, k);
    push_str(&mut h, "</th><td>");
    push_str(&mut h, v);
    push_str(&mut h, "</td></tr>\n");
    h
}

/// A value with its unit.
pub fn with_unit(v: &str, unit: &str) -> (s: String)
    ensures
        s@ == v@ + unit@,
{
    let mut s = copy(v);
    push_str(&mut s, unit);
    s
}

/// The line of an area's corners, where they are known.
pub open spec fn extent_row(e: Option<Extent>) -> Seq<char> {
    match e {
        Some(b) => row_of(
            "Extent"@,
            b.min_lat@ + "&nbsp;N "@ + b.min_lon@ + "&nbsp;E to "@ + b.max_lat@ + "&nbsp;N "@
                + b.max_lon@ + "&nbsp;E"@,
        ),
        None => ""@,
    }
}

/// Write the line of an area's corners.
pub fn extent_line(e: &Option<Extent>) -> (h: String)
    ensures
        h@ == extent_row(*e),
{
    match e {
        Some(b) => {
            let mut v = copy(b.min_lat.as_str());
            push_str(&mut v, "&nbsp;N ");
            push_str(&mut v, b.min_lon.as_str());
            push_str(&mut v, "&nbsp;E to ");
            push_str(&mut v, b.max_lat.as_str());
            push_str(&mut v, "&nbsp;N ");
            push_str(&mut v, b.max_lon.as_str());
            push_str(&mut v, "&nbsp;E");
            row("Extent", v.as_str())
        },
        None => copy(""),
    }
}

// ---- how far the models disagree ---------------------------------------------------

/// A recording's line in the table of disagreement.
pub open spec fn spread_line(d: DatasetSummary) -> Seq<char> {
    match d.spread {
        Some(s) => "<tr><td>"@ + report::escaped(d.label@) + "</td><td>"@ + s.median@
            + " m</td><td>"@ + s.p95@ + " m</td><td>"@ + d.sound_speed@ + " m/s</td></tr>\n"@,
        None => ""@,
    }
}

/// The lines of the table of disagreement.
pub open spec fn spread_lines(d: Seq<DatasetSummary>) -> Seq<char>
    decreases d.len(),
{
    if d.len() == 0 {
        Seq::empty()
    } else {
        spread_lines(d.drop_last()) + spread_line(d.last())
    }
}

/// Whether the disagreement was measured on any recording.
pub open spec fn any_spread(d: Seq<DatasetSummary>) -> bool {
    exists|i: int| 0 <= i < d.len() && (#[trigger] d[i]).spread is Some
}

/// The measured floor under what the report says of its positions, where it was
/// measured.
pub open spec fn disagreement(d: Seq<DatasetSummary>) -> Seq<char> {
    if any_spread(d) {
        words::DISAGREEMENT@ + spread_lines(d) + "</tbody>\n</table>\n</section>\n"@
    } else {
        ""@
    }
}

/// Write the table of disagreement.
pub fn disagreement_text(d: &Vec<DatasetSummary>) -> (h: String)
    ensures
        h@ == disagreement(d@),
{
    let mut lines = String::new();
    let mut any = false;
    let mut i: usize = 0;
    proof {
        assert(lines@ =~= Seq::empty());
    }
    while i < d.len()
        invariant
            i <= d@.len(),
            any == (exists|j: int| 0 <= j < i && (#[trigger] d@[j]).spread is Some),
            lines@ == spread_lines(d@.take(i as int)),
        decreases d.len() - i,
    {
        let ghost before = lines@;
        proof {
            assert(d@.take(i + 1).drop_last() =~= d@.take(i as int));
        }
        let one = match &d[i].spread {
            Some(s) => {
                any = true;
                let mut t = copy("<tr><td>");
                push_str(&mut t, esc(d[i].label.as_str()).as_str());
                push_str(&mut t, "</td><td>");
                push_str(&mut t, s.median.as_str());
                push_str(&mut t, " m</td><td>");
                push_str(&mut t, s.p95.as_str());
                push_str(&mut t, " m</td><td>");
                push_str(&mut t, d[i].sound_speed.as_str());
                push_str(&mut t, " m/s</td></tr>\n");
                t
            },
            None => copy(""),
        };
        push_str(&mut lines, one.as_str());
        i += 1;
    }
    proof {
        assert(d@.take(i as int) =~= d@);
    }
    if !any {
        return copy("");
    }
    let mut h = copy(words::DISAGREEMENT);
    push_str(&mut h, lines.as_str());
    push_str(&mut h, "</tbody>\n</table>\n</section>\n");
    h
}

// ---- what the beam reached ---------------------------------------------------------

/// What the beam reached, on the first recording that says.
pub open spec fn reached(d: Seq<DatasetSummary>) -> Seq<char>
    decreases d.len(),
{
    if d.len() == 0 {
        ""@
    } else {
        match d[0].reach {
            Some(r) => "On this survey the fish flew at about "@ + r.altitude@
                + " m, so the beam reached the seabed from roughly "@ + r.near@ + " m to "@ + r.far@
                + " m either side of the track."@,
            None => reached(d.skip(1)),
        }
    }
}

/// Write what the beam reached.
pub fn reached_text(d: &Vec<DatasetSummary>) -> (h: String)
    ensures
        h@ == reached(d@),
{
    let mut i: usize = 0;
    proof {
        assert(d@.skip(0) =~= d@);
    }
    while i < d.len()
        invariant
            i <= d@.len(),
            reached(d@) == reached(d@.skip(i as int)),
        decreases d.len() - i,
    {
        proof {
            assert(d@.skip(i as int)[0] == d@[i as int]);
            assert(d@.skip(i as int).skip(1) =~= d@.skip(i + 1));
        }
        match &d[i].reach {
            Some(r) => {
                let mut s = copy("On this survey the fish flew at about ");
                push_str(&mut s, r.altitude.as_str());
                push_str(&mut s, " m, so the beam reached the seabed from roughly ");
                push_str(&mut s, r.near.as_str());
                push_str(&mut s, " m to ");
                push_str(&mut s, r.far.as_str());
                push_str(&mut s, " m either side of the track.");
                return s;
            },
            None => {},
        }
        i += 1;
    }
    copy("")
}

// ---- one section per recording -----------------------------------------------------

/// The channels of a recording.
pub open spec fn channel_names(s: Seq<u8>) -> Seq<Seq<char>> {
    s.map_values(|c: u8| "ss"@ + text::dec(c as nat))
}

fn channel_list(s: &Vec<u8>) -> (r: Vec<String>)
    ensures
        names::views(r@) == channel_names(s@),
{
    let mut out: Vec<String> = Vec::new();
    let ghost want = channel_names(s@);
    let mut i: usize = 0;
    proof {
        assert(names::views(out@) =~= want.take(0));
    }
    while i < s.len()
        invariant
            i <= s@.len(),
            want == channel_names(s@),
            names::views(out@) == want.take(i as int),
        decreases s.len() - i,
    {
        let ghost before = names::views(out@);
        let mut t = copy("ss");
        push_str(&mut t, number(s[i] as u64).as_str());
        let ghost one = t@;
        out.push(t);
        i += 1;
        proof {
            assert(names::views(out@) =~= before.push(one));
            assert(want.take(i as int) =~= want.take(i - 1).push(want[i - 1]));
        }
    }
    proof {
        assert(want.take(i as int) =~= want);
    }
    out
}

/// What a recording is headed by: its label, or its name where it has none.
pub open spec fn heading(d: DatasetSummary) -> Seq<char> {
    if d.label@.len() == 0 {
        d.name@
    } else {
        d.label@
    }
}

/// What a recording holds.
pub open spec fn facts(d: DatasetSummary) -> Seq<char> {
    row_of("Start (UTC)"@, report::escaped(d.start@)) + row_of("Duration"@, d.duration@) + row_of(
        "Pings"@,
        text::dec(d.pings as nat),
    ) + row_of("Survey lines"@, text::dec(d.lines as nat)) + row_of(
        "Line length"@,
        d.line_km@ + " km"@,
    ) + row_of("Channels"@, report::strung(channel_names(d.subsystems@), ", "@)) + extent_row(
        d.extent,
    )
}

/// How the fish is placed behind the vessel.
pub open spec fn model_name(m: LaybackModel) -> Seq<char> {
    match m {
        LaybackModel::Astern => "constant, astern"@,
        LaybackModel::Wake => "follows the wake"@,
        LaybackModel::Tractrix => "tractrix (taut cable)"@,
    }
}

/// What the swath is laid out by.
pub open spec fn bearing_name(b: Bearing) -> Seq<char> {
    match b {
        Bearing::Cog => "course over ground"@,
        Bearing::Compass => "fish compass"@,
    }
}

/// How a recording's imagery was placed.
pub open spec fn placing(n: NavText) -> Seq<char> {
    row_of("Layback"@, n.layback@ + " m"@) + row_of(
        "GPS to tow point"@,
        n.gps_to_towpoint@ + " m"@,
    ) + row_of("Layback model"@, model_name(n.model)) + row_of(
        "Swath bearing"@,
        bearing_name(n.bearing),
    ) + row_of("Course baseline"@, n.cog_baseline@ + " s"@) + row_of(
        "Roll flag"@,
        n.roll_flag@ + "\u{b0}"@,
    )
}

/// The identifiers of the contacts that were found on a recording.
pub open spec fn found_on(c: Seq<ContactText>, name: Seq<char>) -> Seq<Seq<char>>
    decreases c.len(),
{
    if c.len() == 0 {
        Seq::empty()
    } else if c.last().dataset@ == name {
        found_on(c.drop_last(), name).push(c.last().id@)
    } else {
        found_on(c.drop_last(), name)
    }
}

/// The contacts that were found on a recording, where there are any.
pub open spec fn found_line(c: Seq<ContactText>, name: Seq<char>) -> Seq<char> {
    let ids = found_on(c, name);
    if ids.len() == 0 {
        ""@
    } else {
        "<p class=\"lede\">"@ + text::dec(ids.len()) + " contact"@ + sheet::plural(ids.len())
            + " marked on this recording: "@ + report::strung(report::all_escaped(ids), ", "@)
            + "</p>\n"@
    }
}

/// What a recording's section says of its name, where it is headed by another.
pub open spec fn named(d: DatasetSummary) -> Seq<char> {
    if d.label@.len() > 0 && d.label@ != d.name@ {
        "<p class=\"lede\">Recording <code>"@ + report::escaped(d.name@) + "</code></p>\n"@
    } else {
        ""@
    }
}

/// The section of a recording.
pub open spec fn recording_of(d: DatasetSummary, c: Seq<ContactText>) -> Seq<char> {
    "<section class=\"page\">\n<h2>"@ + report::escaped(heading(d)) + "</h2>\n"@ + named(d)
        + "<div class=\"two-up\">\n<table class=\"grid summary\"><tbody>\n"@ + facts(d)
        + "</tbody></table>\n<table class=\"grid summary\"><tbody>\n"@ + placing(d.nav)
        + "</tbody></table>\n</div>\n"@ + report::bands_of(d.charts@, heading(d)) + found_line(
        c,
        d.name@,
    ) + "</section>\n"@
}

/// The sections of the recordings.
pub open spec fn recordings_of(d: Seq<DatasetSummary>, c: Seq<ContactText>) -> Seq<char>
    decreases d.len(),
{
    if d.len() == 0 {
        Seq::empty()
    } else {
        recordings_of(d.drop_last(), c) + recording_of(d.last(), c)
    }
}

fn facts_text(d: &DatasetSummary) -> (h: String)
    ensures
        h@ == facts(*d),
{
    let mut h = row("Start (UTC)", esc(d.start.as_str()).as_str());
    push_str(&mut h, row("Duration", d.duration.as_str()).as_str());
    push_str(&mut h, row("Pings", number(d.pings).as_str()).as_str());
    push_str(&mut h, row("Survey lines", number(d.lines).as_str()).as_str());
    push_str(&mut h, row("Line length", with_unit(d.line_km.as_str(), " km").as_str()).as_str());
    let channels = string_together(&channel_list(&d.subsystems), ", ");
    push_str(&mut h, row("Channels", channels.as_str()).as_str());
    push_str(&mut h, extent_line(&d.extent).as_str());
    h
}

fn placing_text(n: &NavText) -> (h: String)
    ensures
        h@ == placing(*n),
{
    let model = match n.model {
        LaybackModel::Astern => "constant, astern",
        LaybackModel::Wake => "follows the wake",
        LaybackModel::Tractrix => "tractrix (taut cable)",
    };
    let bearing = match n.bearing {
        Bearing::Cog => "course over ground",
        Bearing::Compass => "fish compass",
    };
    let mut h = row("Layback", with_unit(n.layback.as_str(), " m").as_str());
    let tow = with_unit(n.gps_to_towpoint.as_str(), " m");
    push_str(&mut h, row("GPS to tow point", tow.as_str()).as_str());
    push_str(&mut h, row("Layback model", model).as_str());
    push_str(&mut h, row("Swath bearing", bearing).as_str());
    let baseline = with_unit(n.cog_baseline.as_str(), " s");
    push_str(&mut h, row("Course baseline", baseline.as_str()).as_str());
    let roll = with_unit(n.roll_flag.as_str(), "\u{b0}");
    push_str(&mut h, row("Roll flag", roll.as_str()).as_str());
    h
}

fn found(c: &Vec<ContactText>, name: &str) -> (h: String)
    ensures
        h@ == found_line(c@, name@),
{
    let mut ids: Vec<String> = Vec::new();
    let mut i: usize = 0;
    proof {
        assert(names::views(ids@) =~= Seq::empty());
    }
    while i < c.len()
        invariant
            i <= c@.len(),
            names::views(ids@) == found_on(c@.take(i as int), name@),
        decreases c.len() - i,
    {
        let ghost before = names::views(ids@);
        proof {
            assert(c@.take(i + 1).drop_last() =~= c@.take(i as int));
        }
        if same(c[i].dataset.as_str(), name) {
            let s = copy(c[i].id.as_str());
            let ghost one = s@;
            ids.push(s);
            proof {
                assert(names::views(ids@) =~= before.push(one));
            }
        }
        i += 1;
    }
    proof {
        assert(c@.take(i as int) =~= c@);
        assert(names::views(ids@).len() == ids@.len());
    }
    if ids.len() == 0 {
        return copy("");
    }
    let mut h = copy("<p class=\"lede\">");
    push_str(&mut h, number(ids.len() as u64).as_str());
    push_str(&mut h, " contact");
    push_str(&mut h, plural_ending(ids.len()));
    push_str(&mut h, " marked on this recording: ");
    push_str(&mut h, string_together(&esc_all(&ids), ", ").as_str());
    push_str(&mut h, "</p>\n");
    h
}

fn recording(d: &DatasetSummary, c: &Vec<ContactText>) -> (h: String)
    ensures
        h@ == recording_of(*d, c@),
{
    let label = if d.label.as_str().is_empty() {
        d.name.as_str()
    } else {
        d.label.as_str()
    };
    let own = if !d.label.as_str().is_empty() && !same(d.label.as_str(), d.name.as_str()) {
        let mut t = copy("<p class=\"lede\">Recording <code>");
        push_str(&mut t, esc(d.name.as_str()).as_str());
        push_str(&mut t, "</code></p>\n");
        t
    } else {
        copy("")
    };
    let mut h = copy("<section class=\"page\">\n<h2>");
    push_str(&mut h, esc(label).as_str());
    push_str(&mut h, "</h2>\n");
    push_str(&mut h, own.as_str());
    push_str(&mut h, "<div class=\"two-up\">\n<table class=\"grid summary\"><tbody>\n");
    push_str(&mut h, facts_text(d).as_str());
    push_str(&mut h, "</tbody></table>\n<table class=\"grid summary\"><tbody>\n");
    push_str(&mut h, placing_text(&d.nav).as_str());
    push_str(&mut h, "</tbody></table>\n</div>\n");
    push_str(&mut h, bands(&d.charts, label).as_str());
    push_str(&mut h, found(c, d.name.as_str()).as_str());
    push_str(&mut h, "</section>\n");
    h
}

/// Write the sections of the recordings.
pub fn recordings(d: &Vec<DatasetSummary>, c: &Vec<ContactText>) -> (h: String)
    ensures
        h@ == recordings_of(d@, c@),
{
    let mut h = String::new();
    let mut i: usize = 0;
    proof {
        assert(h@ =~= Seq::empty());
    }
    while i < d.len()
        invariant
            i <= d@.len(),
            h@ == recordings_of(d@.take(i as int), c@),
        decreases d.len() - i,
    {
        push_str(&mut h, recording(&d[i], c).as_str());
        i += 1;
        proof {
            assert(d@.take(i as int).drop_last() =~= d@.take(i - 1));
        }
    }
    proof {
        assert(d@.take(i as int) =~= d@);
    }
    h
}

/// Every recording whose positions were compared has its line, behind those before it.
pub proof fn law_spreads_in_order(s: Seq<DatasetSummary>, x: DatasetSummary)
    ensures
        spread_lines(s.push(x)) == spread_lines(s) + spread_line(x),
        spread_lines(Seq::empty()) == Seq::<char>::empty(),
{
    assert(s.push(x).drop_last() =~= s);
    assert(s.push(x).last() == x);
}

/// Every recording has its section, behind those of the recordings before it.
pub proof fn law_recordings_in_order(
    s: Seq<DatasetSummary>,
    x: DatasetSummary,
    c: Seq<ContactText>,
)
    ensures
        recordings_of(s.push(x), c) == recordings_of(s, c) + recording_of(x, c),
        recordings_of(Seq::empty(), c) == Seq::<char>::empty(),
{
    assert(s.push(x).drop_last() =~= s);
    assert(s.push(x).last() == x);
}

/// The contacts found on a recording are those that name it, in their order.
pub proof fn law_found_on(c: Seq<ContactText>, name: Seq<char>)
    ensures
        found_on(c, name) == c.filter(|x: ContactText| x.dataset@ == name).map_values(
            |x: ContactText| x.id@,
        ),
    decreases c.len(),
{
    reveal(Seq::filter);
    if c.len() > 0 {
        law_found_on(c.drop_last(), name);
        let f = |x: ContactText| x.dataset@ == name;
        let g = |x: ContactText| x.id@;
        if c.last().dataset@ == name {
            assert(c.drop_last().filter(f).push(c.last()).map_values(g) =~= c.drop_last().filter(
                f,
            ).map_values(g).push(c.last().id@));
        }
    } else {
        assert(found_on(c, name) =~= c.filter(|x: ContactText| x.dataset@ == name).map_values(
            |x: ContactText| x.id@,
        ));
    }
}

/// An extent is said from its south-west corner to its north-east one.
pub proof fn law_extent(b: Extent)
    ensures
        text::occurs(
            extent_row(Some(b)),
            b.min_lat@ + "&nbsp;N "@ + b.min_lon@ + "&nbsp;E to "@ + b.max_lat@ + "&nbsp;N "@
                + b.max_lon@ + "&nbsp;E"@,
        ),
{
    let a = "<tr><th>"@ + "Extent"@ + "</th><td>"@;
    let p = b.min_lat@ + "&nbsp;N "@ + b.min_lon@ + "&nbsp;E to "@ + b.max_lat@ + "&nbsp;N "@
        + b.max_lon@ + "&nbsp;E"@;
    let s = extent_row(Some(b));
    assert(s =~= a + p + "</td></tr>\n"@);
    let k = a.len() as int;
    assert(s.subrange(k, k + p.len()) =~= p);
}

/// What was reached is said of the first recording that tells it.
pub proof fn law_reached(d: Seq<DatasetSummary>, i: int)
    requires
        0 <= i < d.len(),
        d[i].reach is Some,
        forall|j: int| 0 <= j < i ==> (#[trigger] d[j]).reach is None,
    ensures
        reached(d) == reached(seq![d[i]]),
    decreases i,
{
    if i > 0 {
        let r = d.skip(1);
        assert(d[0].reach is None);
        assert forall|j: int| 0 <= j < i - 1 implies (#[trigger] r[j]).reach is None by {
            assert(r[j] == d[j + 1]);
        }
        assert(r[i - 1] == d[i]);
        law_reached(r, i - 1);
    }
}

} // verus!
