//! The contacts of the report: the register, and a sheet for each.

use vstd::prelude::*;

use crate::crs::{CrsInfo, Projection};
use crate::names;
use crate::report;
use crate::report::words;
use crate::report::{esc, number, string_together};
use crate::text;
use crate::text::{copy, push_str, same};

verus! {

/// A contact as the report prints it.
pub struct ContactText {
    pub id: String,
    pub name: String,
    pub class: String,
    pub confidence: String,
    pub status: String,
    /// The recording it was found on.
    pub dataset: String,
    /// When it was found.
    pub time: Option<String>,
    /// Where it is, in degrees and minutes.
    pub latitude: String,
    pub longitude: String,
    /// Where it is in each of the report's coordinate systems.
    pub coordinates: Vec<(String, String)>,
    pub depth: Option<String>,
    pub altitude: Option<String>,
    /// How far from the track, and on which side.
    pub across: Option<String>,
    pub port: bool,
    pub length: Option<String>,
    pub width: Option<String>,
    pub height: Option<String>,
    /// The radius that was drawn around it, where there is one.
    pub radius: Option<String>,
    pub note: String,
}

/// A picture of a contact.
pub struct Picture {
    pub contact: String,
    /// Which picture: `lf`, `hf`, `wf-lf`, `wf-hf`, and others that the sheet
    /// does not show.
    pub kind: String,
    /// The picture, as an address.
    pub image: String,
}

/// The ending of a word that counts something.
pub open spec fn plural(n: nat) -> Seq<char> {
    if n == 1 {
        ""@
    } else {
        "s"@
    }
}

/// The ending of a word that counts something.
pub fn plural_ending(n: usize) -> (s: &'static str)
    ensures
        s@ == plural(n as nat),
{
    if n == 1 {
        ""
    } else {
        "s"
    }
}

/// How large a contact is: its length and width, or its length, or the radius
/// that was drawn around it.
pub open spec fn size_of(c: ContactText) -> Seq<char> {
    match (c.length, c.width) {
        (Some(l), Some(w)) => l@ + " \u{d7} "@ + w@ + " m"@,
        (Some(l), None) => l@ + " m"@,
        _ => match c.radius {
            Some(r) => "r "@ + r@ + " m"@,
            None => "\u{2014}"@,
        },
    }
}

fn size(c: &ContactText) -> (s: String)
    ensures
        s@ == size_of(*c),
{
    match (&c.length, &c.width) {
        (Some(l), Some(w)) => {
            let mut s = copy(l.as_str());
            push_str(&mut s, " \u{d7} ");
            push_str(&mut s, w.as_str());
            push_str(&mut s, " m");
            s
        },
        (Some(l), None) => {
            let mut s = copy(l.as_str());
            push_str(&mut s, " m");
            s
        },
        _ => match &c.radius {
            Some(r) => {
                let mut s = copy("r ");
                push_str(&mut s, r.as_str());
                push_str(&mut s, " m");
                s
            },
            None => copy("\u{2014}"),
        },
    }
}

// ---- the register ------------------------------------------------------------------

/// The headings of the coordinate systems.
pub open spec fn system_heads(s: Seq<CrsInfo>) -> Seq<char>
    decreases s.len(),
{
    if s.len() == 0 {
        Seq::empty()
    } else {
        system_heads(s.drop_last()) + ("<th colspan=\"2\" class=\"crs\">"@ + report::escaped(
            s.last().name@,
        ) + "<span class=\"epsg\">EPSG:"@ + text::dec(s.last().epsg as nat) + "</span></th>"@)
    }
}

/// The headings of the axes.
pub open spec fn axis_heads(s: Seq<CrsInfo>) -> Seq<char>
    decreases s.len(),
{
    if s.len() == 0 {
        Seq::empty()
    } else {
        axis_heads(s.drop_last()) + ("<th>"@ + s.last().axes.0@ + "</th><th>"@ + s.last().axes.1@
            + "</th>"@)
    }
}

/// The cells of a contact's coordinates.
pub open spec fn coordinate_cells(s: Seq<(String, String)>) -> Seq<char>
    decreases s.len(),
{
    if s.len() == 0 {
        Seq::empty()
    } else {
        coordinate_cells(s.drop_last()) + ("<td class=\"num\">"@ + s.last().0@
            + "</td><td class=\"num\">"@ + s.last().1@ + "</td>"@)
    }
}

/// A contact's line in the register.
pub open spec fn register_line(c: ContactText) -> Seq<char> {
    "<tr><td class=\"id\">"@ + report::escaped(c.id@) + "</td><td>"@ + report::escaped(c.name@)
        + "</td><td>"@ + report::escaped(c.class@) + "</td><td>"@ + report::escaped(c.confidence@)
        + "</td>"@ + coordinate_cells(c.coordinates@) + "<td class=\"num\">"@ + size_of(c)
        + "</td></tr>\n"@
}

/// The lines of the register.
pub open spec fn register_lines(s: Seq<ContactText>) -> Seq<char>
    decreases s.len(),
{
    if s.len() == 0 {
        Seq::empty()
    } else {
        register_lines(s.drop_last()) + register_line(s.last())
    }
}

/// How well the positions are known, where it is known.
pub open spec fn caution(worst: Option<String>) -> Seq<char> {
    match worst {
        Some(w) => words::CAUTION@ + w@ + words::CAUTION_REST@,
        None => ""@,
    }
}

/// The table of the register; one with nothing in it is left out.
pub open spec fn register_table(contacts: Seq<ContactText>, systems: Seq<CrsInfo>) -> Seq<char> {
    if contacts.len() == 0 {
        ""@
    } else {
        "<table class=\"grid contacts\">\n<thead><tr><th>ID</th><th>Name</th><th>Class</th><th>Conf.</th>"@
            + system_heads(systems)
            + "<th>Size</th></tr>\n<tr class=\"sub\"><th></th><th></th><th></th><th></th>"@
            + axis_heads(systems) + "<th></th></tr></thead>\n<tbody>\n"@ + register_lines(contacts)
            + "</tbody></table>\n"@
    }
}

/// The register of contacts.
pub open spec fn register_of(
    contacts: Seq<ContactText>,
    systems: Seq<CrsInfo>,
    worst: Option<String>,
) -> Seq<char> {
    "<section><h2>Contacts</h2>\n<p class=\"lede\">"@ + text::dec(contacts.len()) + " contact"@
        + plural(contacts.len()) + " recorded.</p>\n"@ + caution(worst) + register_table(
        contacts,
        systems,
    ) + "</section>\n"@
}

fn heads(systems: &Vec<CrsInfo>) -> (r: (String, String))
    ensures
        r.0@ == system_heads(systems@),
        r.1@ == axis_heads(systems@),
{
    let mut a = String::new();
    let mut b = String::new();
    let mut i: usize = 0;
    proof {
        assert(a@ =~= Seq::empty());
        assert(b@ =~= Seq::empty());
    }
    while i < systems.len()
        invariant
            i <= systems@.len(),
            a@ == system_heads(systems@.take(i as int)),
            b@ == axis_heads(systems@.take(i as int)),
        decreases systems.len() - i,
    {
        let s = &systems[i];
        let mut one = copy("<th colspan=\"2\" class=\"crs\">");
        push_str(&mut one, esc(s.name.as_str()).as_str());
        push_str(&mut one, "<span class=\"epsg\">EPSG:");
        push_str(&mut one, number(s.epsg as u64).as_str());
        push_str(&mut one, "</span></th>");
        push_str(&mut a, one.as_str());
        let mut two = copy("<th>");
        push_str(&mut two, s.axes.0.as_str());
        push_str(&mut two, "</th><th>");
        push_str(&mut two, s.axes.1.as_str());
        push_str(&mut two, "</th>");
        push_str(&mut b, two.as_str());
        i += 1;
        proof {
            assert(systems@.take(i as int).drop_last() =~= systems@.take(i - 1));
        }
    }
    proof {
        assert(systems@.take(i as int) =~= systems@);
    }
    (a, b)
}

fn cells(pairs: &Vec<(String, String)>) -> (h: String)
    ensures
        h@ == coordinate_cells(pairs@),
{
    let mut h = String::new();
    let mut i: usize = 0;
    proof {
        assert(h@ =~= Seq::empty());
    }
    while i < pairs.len()
        invariant
            i <= pairs@.len(),
            h@ == coordinate_cells(pairs@.take(i as int)),
        decreases pairs.len() - i,
    {
        let mut one = copy("<td class=\"num\">");
        push_str(&mut one, pairs[i].0.as_str());
        push_str(&mut one, "</td><td class=\"num\">");
        push_str(&mut one, pairs[i].1.as_str());
        push_str(&mut one, "</td>");
        push_str(&mut h, one.as_str());
        i += 1;
        proof {
            assert(pairs@.take(i as int).drop_last() =~= pairs@.take(i - 1));
        }
    }
    proof {
        assert(pairs@.take(i as int) =~= pairs@);
    }
    h
}

fn line(c: &ContactText) -> (h: String)
    ensures
        h@ == register_line(*c),
{
    let mut h = copy("<tr><td class=\"id\">");
    push_str(&mut h, esc(c.id.as_str()).as_str());
    push_str(&mut h, "</td><td>");
    push_str(&mut h, esc(c.name.as_str()).as_str());
    push_str(&mut h, "</td><td>");
    push_str(&mut h, esc(c.class.as_str()).as_str());
    push_str(&mut h, "</td><td>");
    push_str(&mut h, esc(c.confidence.as_str()).as_str());
    push_str(&mut h, "</td>");
    push_str(&mut h, cells(&c.coordinates).as_str());
    push_str(&mut h, "<td class=\"num\">");
    push_str(&mut h, size(c).as_str());
    push_str(&mut h, "</td></tr>\n");
    h
}

fn table(contacts: &Vec<ContactText>, systems: &Vec<CrsInfo>) -> (h: String)
    ensures
        h@ == register_table(contacts@, systems@),
{
    if contacts.len() == 0 {
        return copy("");
    }
    let (a, b) = heads(systems);
    let mut lines = String::new();
    let mut i: usize = 0;
    proof {
        assert(lines@ =~= Seq::empty());
    }
    while i < contacts.len()
        invariant
            i <= contacts@.len(),
            lines@ == register_lines(contacts@.take(i as int)),
        decreases contacts.len() - i,
    {
        push_str(&mut lines, line(&contacts[i]).as_str());
        i += 1;
        proof {
            assert(contacts@.take(i as int).drop_last() =~= contacts@.take(i - 1));
        }
    }
    proof {
        assert(contacts@.take(i as int) =~= contacts@);
    }
    let mut h = copy(
        "<table class=\"grid contacts\">\n<thead><tr><th>ID</th><th>Name</th><th>Class</th><th>Conf.</th>",
    );
    push_str(&mut h, a.as_str());
    push_str(
        &mut h,
        "<th>Size</th></tr>\n<tr class=\"sub\"><th></th><th></th><th></th><th></th>",
    );
    push_str(&mut h, b.as_str());
    push_str(&mut h, "<th></th></tr></thead>\n<tbody>\n");
    push_str(&mut h, lines.as_str());
    push_str(&mut h, "</tbody></table>\n");
    h
}

/// Write the register of contacts.
pub fn register(
    contacts: &Vec<ContactText>,
    systems: &Vec<CrsInfo>,
    worst: &Option<String>,
) -> (h: String)
    ensures
        h@ == register_of(contacts@, systems@, *worst),
{
    let warn = match worst {
        Some(w) => {
            let mut s = copy(words::CAUTION);
            push_str(&mut s, w.as_str());
            push_str(&mut s, words::CAUTION_REST);
            s
        },
        None => copy(""),
    };
    let mut h = copy("<section><h2>Contacts</h2>\n<p class=\"lede\">");
    push_str(&mut h, number(contacts.len() as u64).as_str());
    push_str(&mut h, " contact");
    push_str(&mut h, plural_ending(contacts.len()));
    push_str(&mut h, " recorded.</p>\n");
    push_str(&mut h, warn.as_str());
    push_str(&mut h, table(contacts, systems).as_str());
    push_str(&mut h, "</section>\n");
    h
}

// ---- the sheets --------------------------------------------------------------------

/// The first picture of a contact of a kind.
pub open spec fn picture_of(p: Seq<Picture>, id: Seq<char>, kind: Seq<char>) -> Option<Seq<char>>
    decreases p.len(),
{
    if p.len() == 0 {
        None
    } else if p[0].contact@ == id && p[0].kind@ == kind {
        Some(p[0].image@)
    } else {
        picture_of(p.skip(1), id, kind)
    }
}

/// A picture with its caption, where there is one.
pub open spec fn pane(
    p: Seq<Picture>,
    id: Seq<char>,
    kind: Seq<char>,
    caption: Seq<char>,
) -> Seq<char> {
    match picture_of(p, id, kind) {
        Some(u) => "<figure><img class=\"snap\" src=\""@ + u + "\" alt=\"Contact "@
            + report::escaped(id) + " \u{2014} "@ + caption + "\"><figcaption>"@ + caption
            + "</figcaption></figure>\n"@,
        None => ""@,
    }
}

/// The pictures of a contact: the seabed at each band, and the return at each
/// band. Nothing stands in for one that is missing.
pub open spec fn panes(p: Seq<Picture>, id: Seq<char>) -> Seq<char> {
    if picture_of(p, id, "lf"@) is None && picture_of(p, id, "hf"@) is None && picture_of(
        p,
        id,
        "wf-lf"@,
    ) is None && picture_of(p, id, "wf-hf"@) is None {
        ""@
    } else {
        "<div class=\"snaps\">\n"@ + pane(p, id, "lf"@, "Chart \u{2014} low frequency"@) + pane(
            p,
            id,
            "hf"@,
            "Chart \u{2014} high frequency"@,
        ) + pane(p, id, "wf-lf"@, "Sonar \u{2014} low frequency"@) + pane(
            p,
            id,
            "wf-hf"@,
            "Sonar \u{2014} high frequency"@,
        ) + "</div>\n"@
    }
}

/// A detail of a contact, where there is anything to say.
pub open spec fn detail(k: Seq<char>, v: Seq<char>) -> Seq<char> {
    if v.len() == 0 || v == "\u{2014}"@ {
        ""@
    } else {
        "<dt>"@ + k + "</dt><dd>"@ + report::escaped(v) + "</dd>\n"@
    }
}

/// A detail that may be missing, with its unit.
pub open spec fn measured(k: Seq<char>, v: Option<String>, unit: Seq<char>) -> Seq<char> {
    match v {
        Some(s) => detail(k, s@ + unit),
        None => ""@,
    }
}

/// A position in the coordinate systems that are projected.
pub open spec fn grid_details(s: Seq<CrsInfo>, xy: Seq<(String, String)>) -> Seq<char>
    decreases s.len(),
{
    if s.len() == 0 {
        Seq::empty()
    } else {
        let before = grid_details(s.drop_last(), xy.drop_last());
        let c = s.last();
        if c.proj == Projection::Geographic {
            before
        } else {
            before + detail(
                c.name@,
                c.axes.0@ + " "@ + xy.last().0@ + ", "@ + c.axes.1@ + " "@ + xy.last().1@ + " ("@
                    + c.unit@ + ")"@,
            )
        }
    }
}

/// The measures of a contact that were taken, each with its letter.
pub open spec fn dimensions(c: ContactText) -> Seq<Seq<char>> {
    let l = match c.length {
        Some(v) => seq!["L "@ + v@ + " m"@],
        None => Seq::empty(),
    };
    let w = match c.width {
        Some(v) => seq!["W "@ + v@ + " m"@],
        None => Seq::empty(),
    };
    let h = match c.height {
        Some(v) => seq!["H "@ + v@ + " m"@],
        None => Seq::empty(),
    };
    l + w + h
}

/// A contact's side of the track.
pub open spec fn side(port: bool) -> Seq<char> {
    if port {
        " m port"@
    } else {
        " m starboard"@
    }
}

/// The details of a contact.
pub open spec fn details(c: ContactText, systems: Seq<CrsInfo>) -> Seq<char> {
    detail("Class"@, c.class@) + detail("Confidence"@, c.confidence@) + detail(
        "Status"@,
        c.status@,
    ) + detail("Recording"@, c.dataset@) + measured("Time (UTC)"@, c.time, ""@) + detail(
        "Latitude"@,
        c.latitude@,
    ) + detail("Longitude"@, c.longitude@) + grid_details(systems, c.coordinates@) + measured(
        "Water depth"@,
        c.depth,
        " m"@,
    ) + measured("Fish altitude"@, c.altitude, " m"@) + measured(
        "Across-track"@,
        c.across,
        side(c.port),
    ) + detail("Dimensions"@, report::strung(dimensions(c), " \u{b7} "@))
}

/// What was noted of a contact, where anything was.
pub open spec fn note_of(s: Seq<char>) -> Seq<char> {
    if s.len() == 0 {
        ""@
    } else {
        "<p class=\"note\">"@ + report::escaped(s) + "</p>\n"@
    }
}

/// The sheet of a contact.
pub open spec fn sheet_of(c: ContactText, systems: Seq<CrsInfo>, p: Seq<Picture>) -> Seq<char> {
    "<section class=\"page sheet\">\n<h2>"@ + report::escaped(c.id@) + " \u{2014} "@
        + report::escaped(c.name@) + "</h2>\n"@ + panes(p, c.id@) + "<dl class=\"detail\">\n"@
        + details(c, systems) + "</dl>\n"@ + note_of(c.note@) + "</section>\n"@
}

/// The sheets of the contacts.
pub open spec fn sheets_of(
    s: Seq<ContactText>,
    systems: Seq<CrsInfo>,
    p: Seq<Picture>,
) -> Seq<char>
    decreases s.len(),
{
    if s.len() == 0 {
        Seq::empty()
    } else {
        sheets_of(s.drop_last(), systems, p) + sheet_of(s.last(), systems, p)
    }
}

fn find_picture<'a>(p: &'a Vec<Picture>, id: &str, kind: &str) -> (r: Option<&'a String>)
    ensures
        match picture_of(p@, id@, kind@) {
            Some(u) => r matches Some(s) && s@ == u,
            None => r is None,
        },
{
    let mut i: usize = 0;
    proof {
        assert(p@.skip(0) =~= p@);
    }
    while i < p.len()
        invariant
            i <= p@.len(),
            picture_of(p@, id@, kind@) == picture_of(p@.skip(i as int), id@, kind@),
        decreases p.len() - i,
    {
        proof {
            assert(p@.skip(i as int)[0] == p@[i as int]);
            assert(p@.skip(i as int).skip(1) =~= p@.skip(i + 1));
        }
        if same(p[i].contact.as_str(), id) && same(p[i].kind.as_str(), kind) {
            return Some(&p[i].image);
        }
        i += 1;
    }
    None
}

fn pane_text(p: &Vec<Picture>, id: &str, kind: &str, caption: &str) -> (r: (bool, String))
    ensures
        r.0 == picture_of(p@, id@, kind@) is Some,
        r.1@ == pane(p@, id@, kind@, caption@),
{
    match find_picture(p, id, kind) {
        Some(u) => {
            let mut h = copy("<figure><img class=\"snap\" src=\"");
            push_str(&mut h, u.as_str());
            push_str(&mut h, "\" alt=\"Contact ");
            push_str(&mut h, esc(id).as_str());
            push_str(&mut h, " \u{2014} ");
            push_str(&mut h, caption);
            push_str(&mut h, "\"><figcaption>");
            push_str(&mut h, caption);
            push_str(&mut h, "</figcaption></figure>\n");
            (true, h)
        },
        None => (false, copy("")),
    }
}

fn panes_text(p: &Vec<Picture>, id: &str) -> (h: String)
    ensures
        h@ == panes(p@, id@),
{
    let a = pane_text(p, id, "lf", "Chart \u{2014} low frequency");
    let b = pane_text(p, id, "hf", "Chart \u{2014} high frequency");
    let c = pane_text(p, id, "wf-lf", "Sonar \u{2014} low frequency");
    let d = pane_text(p, id, "wf-hf", "Sonar \u{2014} high frequency");
    if !a.0 && !b.0 && !c.0 && !d.0 {
        return copy("");
    }
    let mut h = copy("<div class=\"snaps\">\n");
    push_str(&mut h, a.1.as_str());
    push_str(&mut h, b.1.as_str());
    push_str(&mut h, c.1.as_str());
    push_str(&mut h, d.1.as_str());
    push_str(&mut h, "</div>\n");
    h
}

fn detail_text(k: &str, v: &str) -> (h: String)
    ensures
        h@ == detail(k@, v@),
{
    if v.is_empty() || same(v, "\u{2014}") {
        copy("")
    } else {
        let mut h = copy("<dt>");
        push_str(&mut h, k);
        push_str(&mut h, "</dt><dd>");
        push_str(&mut h, esc(v).as_str());
        push_str(&mut h, "</dd>\n");
        h
    }
}

fn measured_text(k: &str, v: &Option<String>, unit: &str) -> (h: String)
    ensures
        h@ == measured(k@, *v, unit@),
{
    match v {
        Some(s) => {
            let mut t = copy(s.as_str());
            push_str(&mut t, unit);
            detail_text(k, t.as_str())
        },
        None => copy(""),
    }
}

fn grids(systems: &Vec<CrsInfo>, xy: &Vec<(String, String)>) -> (h: String)
    requires
        systems@.len() == xy@.len(),
    ensures
        h@ == grid_details(systems@, xy@),
{
    let mut h = String::new();
    let mut i: usize = 0;
    proof {
        assert(h@ =~= Seq::empty());
    }
    while i < systems.len()
        invariant
            i <= systems@.len() == xy@.len(),
            h@ == grid_details(systems@.take(i as int), xy@.take(i as int)),
        decreases systems.len() - i,
    {
        proof {
            assert(systems@.take(i + 1).drop_last() =~= systems@.take(i as int));
            assert(xy@.take(i + 1).drop_last() =~= xy@.take(i as int));
        }
        let s = &systems[i];
        if !s.is_geographic() {
            let mut v = copy(s.axes.0.as_str());
            push_str(&mut v, " ");
            push_str(&mut v, xy[i].0.as_str());
            push_str(&mut v, ", ");
            push_str(&mut v, s.axes.1.as_str());
            push_str(&mut v, " ");
            push_str(&mut v, xy[i].1.as_str());
            push_str(&mut v, " (");
            push_str(&mut v, s.unit.as_str());
            push_str(&mut v, ")");
            push_str(&mut h, detail_text(s.name.as_str(), v.as_str()).as_str());
        }
        i += 1;
    }
    proof {
        assert(systems@.take(i as int) =~= systems@);
        assert(xy@.take(i as int) =~= xy@);
    }
    h
}

fn measure(letter: &str, v: &Option<String>) -> (r: Vec<String>)
    ensures
        names::views(r@) == (match *v {
            Some(s) => seq![letter@ + s@ + " m"@],
            None => Seq::empty(),
        }),
{
    let mut r: Vec<String> = Vec::new();
    match v {
        Some(s) => {
            let mut t = copy(letter);
            push_str(&mut t, s.as_str());
            push_str(&mut t, " m");
            let ghost one = t@;
            r.push(t);
            proof {
                assert(names::views(r@) =~= seq![one]);
            }
        },
        None => {
            proof {
                assert(names::views(r@) =~= Seq::empty());
            }
        },
    }
    r
}

fn dimensions_text(c: &ContactText) -> (s: String)
    ensures
        s@ == report::strung(dimensions(*c), " \u{b7} "@),
{
    let mut all = measure("L ", &c.length);
    let mut w = measure("W ", &c.width);
    let mut h = measure("H ", &c.height);
    let ghost a = names::views(all@);
    let ghost b = names::views(w@);
    let ghost d = names::views(h@);
    all.append(&mut w);
    proof {
        assert(names::views(all@) =~= a + b);
    }
    all.append(&mut h);
    proof {
        assert(names::views(all@) =~= a + b + d);
        assert(a + b + d == dimensions(*c));
    }
    string_together(&all, " \u{b7} ")
}

fn details_text(c: &ContactText, systems: &Vec<CrsInfo>) -> (h: String)
    requires
        systems@.len() == c.coordinates@.len(),
    ensures
        h@ == details(*c, systems@),
{
    let mut h = detail_text("Class", c.class.as_str());
    push_str(&mut h, detail_text("Confidence", c.confidence.as_str()).as_str());
    push_str(&mut h, detail_text("Status", c.status.as_str()).as_str());
    push_str(&mut h, detail_text("Recording", c.dataset.as_str()).as_str());
    push_str(&mut h, measured_text("Time (UTC)", &c.time, "").as_str());
    push_str(&mut h, detail_text("Latitude", c.latitude.as_str()).as_str());
    push_str(&mut h, detail_text("Longitude", c.longitude.as_str()).as_str());
    push_str(&mut h, grids(systems, &c.coordinates).as_str());
    push_str(&mut h, measured_text("Water depth", &c.depth, " m").as_str());
    push_str(&mut h, measured_text("Fish altitude", &c.altitude, " m").as_str());
    let side_text = if c.port {
        " m port"
    } else {
        " m starboard"
    };
    push_str(&mut h, measured_text("Across-track", &c.across, side_text).as_str());
    push_str(&mut h, detail_text("Dimensions", dimensions_text(c).as_str()).as_str());
    h
}

fn sheet(c: &ContactText, systems: &Vec<CrsInfo>, p: &Vec<Picture>) -> (h: String)
    requires
        systems@.len() == c.coordinates@.len(),
    ensures
        h@ == sheet_of(*c, systems@, p@),
{
    let note = if c.note.as_str().is_empty() {
        copy("")
    } else {
        let mut n = copy("<p class=\"note\">");
        push_str(&mut n, esc(c.note.as_str()).as_str());
        push_str(&mut n, "</p>\n");
        n
    };
    let mut h = copy("<section class=\"page sheet\">\n<h2>");
    push_str(&mut h, esc(c.id.as_str()).as_str());
    push_str(&mut h, " \u{2014} ");
    push_str(&mut h, esc(c.name.as_str()).as_str());
    push_str(&mut h, "</h2>\n");
    push_str(&mut h, panes_text(p, c.id.as_str()).as_str());
    push_str(&mut h, "<dl class=\"detail\">\n");
    push_str(&mut h, details_text(c, systems).as_str());
    push_str(&mut h, "</dl>\n");
    push_str(&mut h, note.as_str());
    push_str(&mut h, "</section>\n");
    h
}

/// Write the sheets of the contacts.
pub fn contact_sheets(
    contacts: &Vec<ContactText>,
    systems: &Vec<CrsInfo>,
    p: &Vec<Picture>,
) -> (h: String)
    requires
        forall|i: int|
            0 <= i < contacts@.len() ==> (#[trigger] contacts@[i]).coordinates@.len()
                == systems@.len(),
    ensures
        h@ == sheets_of(contacts@, systems@, p@),
{
    let mut h = String::new();
    let mut i: usize = 0;
    proof {
        assert(h@ =~= Seq::empty());
    }
    while i < contacts.len()
        invariant
            i <= contacts@.len(),
            forall|i: int|
                0 <= i < contacts@.len() ==> (#[trigger] contacts@[i]).coordinates@.len()
                    == systems@.len(),
            h@ == sheets_of(contacts@.take(i as int), systems@, p@),
        decreases contacts.len() - i,
    {
        push_str(&mut h, sheet(&contacts[i], systems, p).as_str());
        i += 1;
        proof {
            assert(contacts@.take(i as int).drop_last() =~= contacts@.take(i - 1));
        }
    }
    proof {
        assert(contacts@.take(i as int) =~= contacts@);
    }
    h
}

/// The register has a line for every contact, behind those of the contacts before it.
pub proof fn law_register_in_order(s: Seq<ContactText>, x: ContactText)
    ensures
        register_lines(s.push(x)) == register_lines(s) + register_line(x),
        register_lines(Seq::empty()) == Seq::<char>::empty(),
{
    assert(s.push(x).drop_last() =~= s);
    assert(s.push(x).last() == x);
}

/// Every contact has a sheet, behind those of the contacts before it.
pub proof fn law_sheets_in_order(
    s: Seq<ContactText>,
    x: ContactText,
    systems: Seq<CrsInfo>,
    p: Seq<Picture>,
)
    ensures
        sheets_of(s.push(x), systems, p) == sheets_of(s, systems, p) + sheet_of(x, systems, p),
        sheets_of(Seq::empty(), systems, p) == Seq::<char>::empty(),
{
    assert(s.push(x).drop_last() =~= s);
    assert(s.push(x).last() == x);
}

/// A contact has a pair of cells for every system, in their order.
pub proof fn law_cells_in_order(a: Seq<(String, String)>, b: Seq<(String, String)>)
    ensures
        coordinate_cells(a + b) == coordinate_cells(a) + coordinate_cells(b),
        forall|x: (String, String)| coordinate_cells(#[trigger] seq![x]) == "<td class=\"num\">"@ + x.0@ + "</td><td class=\"num\">"@ + x.1@ + "</td>"@,
    decreases b.len(),
{
    assert forall|x: (String, String)| coordinate_cells(#[trigger] seq![x]) == "<td class=\"num\">"@ + x.0@ + "</td><td class=\"num\">"@ + x.1@ + "</td>"@ by {
        assert(seq![x].drop_last() =~= Seq::empty());
        assert(seq![x].last() == x);
        assert(coordinate_cells(Seq::<(String, String)>::empty()) =~= Seq::empty());
        assert(coordinate_cells(seq![x]) =~= coordinate_cells(Seq::<(String, String)>::empty()) + "<td class=\"num\">"@ + x.0@ + "</td><td class=\"num\">"@ + x.1@ + "</td>"@);
    }
    if b.len() == 0 {
        assert(a + b =~= a);
        assert(coordinate_cells(a) + coordinate_cells(b) =~= coordinate_cells(a));
    } else {
        law_cells_in_order(a, b.drop_last());
        assert((a + b).drop_last() =~= a + b.drop_last());
        assert((a + b).last() == b.last());
        assert(coordinate_cells(a + b) =~= coordinate_cells(a) + coordinate_cells(b));
    }
}

/// A picture of a contact is the first of its kind that is the contact's own.
pub proof fn law_picture(p: Seq<Picture>, id: Seq<char>, kind: Seq<char>)
    ensures
        picture_of(p, id, kind) is None <==> forall|i: int|
            0 <= i < p.len() ==> !((#[trigger] p[i]).contact@ == id && p[i].kind@ == kind),
        picture_of(p, id, kind) matches Some(u) ==> exists|i: int|
            0 <= i < p.len() && (#[trigger] p[i]).contact@ == id && p[i].kind@ == kind && p[i].image@
                == u && forall|j: int|
                0 <= j < i ==> !((#[trigger] p[j]).contact@ == id && p[j].kind@ == kind),
    decreases p.len(),
{
    if p.len() > 0 {
        if p[0].contact@ == id && p[0].kind@ == kind {
            assert(picture_of(p, id, kind) == Some(p[0].image@));
        } else {
            let r = p.skip(1);
            law_picture(r, id, kind);
            if let Some(u) = picture_of(r, id, kind) {
                let i = choose|i: int|
                    0 <= i < r.len() && (#[trigger] r[i]).contact@ == id && r[i].kind@ == kind
                        && r[i].image@ == u && forall|j: int|
                        0 <= j < i ==> !((#[trigger] r[j]).contact@ == id && r[j].kind@ == kind);
                assert(p[i + 1] == r[i]);
                assert forall|j: int| 0 <= j < i + 1 implies !((#[trigger] p[j]).contact@ == id
                    && p[j].kind@ == kind) by {
                    if j > 0 {
                        assert(r[j - 1] == p[j]);
                    }
                }
            } else {
                assert forall|i: int| 0 <= i < p.len() implies !((#[trigger] p[i]).contact@ == id
                    && p[i].kind@ == kind) by {
                    if i > 0 {
                        assert(r[i - 1] == p[i]);
                    }
                }
            }
        }
    }
}

proof fn lemma_in_the_middle(
    a: Seq<char>,
    y: Seq<char>,
    x: Seq<char>,
    g: Seq<char>,
    d: Seq<char>,
    e: Seq<char>,
    f: Seq<char>,
    h: Seq<char>,
)
    ensures
        text::occurs(a + y + x + g + d + e + f + h, y + x),
{
    let all = a + y + x + g + d + e + f + h;
    let k = a.len() as int;
    let p = y + x;
    assert(all.subrange(k, k + p.len()) =~= p);
}

/// A contact's sheet says its latitude and its longitude, each under its name.
pub proof fn law_sheet_says_the_position(c: ContactText, systems: Seq<CrsInfo>)
    requires
        c.latitude@.len() > 0,
        c.longitude@.len() > 0,
        c.latitude@ != "\u{2014}"@,
        c.longitude@ != "\u{2014}"@,
    ensures
        text::occurs(
            details(c, systems),
            ("<dt>"@ + "Latitude"@ + "</dt><dd>"@ + report::escaped(c.latitude@) + "</dd>\n"@) + (
            "<dt>"@ + "Longitude"@ + "</dt><dd>"@ + report::escaped(c.longitude@) + "</dd>\n"@),
        ),
{
    lemma_in_the_middle(
        detail("Class"@, c.class@) + detail("Confidence"@, c.confidence@) + detail(
            "Status"@,
            c.status@,
        ) + detail("Recording"@, c.dataset@) + measured("Time (UTC)"@, c.time, ""@),
        detail("Latitude"@, c.latitude@),
        detail("Longitude"@, c.longitude@),
        grid_details(systems, c.coordinates@),
        measured("Water depth"@, c.depth, " m"@),
        measured("Fish altitude"@, c.altitude, " m"@),
        measured("Across-track"@, c.across, side(c.port)),
        detail("Dimensions"@, report::strung(dimensions(c), " \u{b7} "@)),
    );
}

} // verus!
