//! The survey report, as a page that a browser can print.
//!
//! What is measured in fractions comes in as text, already rounded the way it
//! is printed.

use vstd::prelude::*;

use crate::crs::CrsInfo;
use crate::names;
use crate::order;
use crate::order::{greater64, is_finite64, lesser64};
use crate::project::{ProjectMeta, KIND_RASTER, KIND_VECTOR};
use crate::report::recording::{
    disagreement_text, extent_line, reached_text, recordings, row, with_unit, DatasetSummary,
    Extent,
};
use crate::report::sheet::{contact_sheets, register, ContactText, Picture};

use crate::text;
use crate::text::{chars_of, copy, push_dec, push_str, same};
use crate::VERSION;

pub mod recording;
pub mod sheet;
pub mod words;

verus! {

// ---- text --------------------------------------------------------------------------

/// A character as it stands in a page.
pub open spec fn esc_char(c: char) -> Seq<char> {
    if c == '&' {
        "&amp;"@
    } else if c == '<' {
        "&lt;"@
    } else if c == '>' {
        "&gt;"@
    } else if c == '"' {
        "&quot;"@
    } else {
        seq![c]
    }
}

/// A text as it stands in a page.
pub open spec fn escaped(s: Seq<char>) -> Seq<char>
    decreases s.len(),
{
    if s.len() == 0 {
        Seq::empty()
    } else {
        escaped(s.drop_last()) + esc_char(s.last())
    }
}

/// A text as it stands in a page: what has a meaning there is replaced by what
/// stands for it.
pub fn esc(s: &str) -> (r: String)
    ensures
        r@ == escaped(s@),
{
    let v = chars_of(s);
    let mut out = String::new();
    let mut i: usize = 0;
    proof {
        assert(v@.take(0) =~= Seq::empty());
        assert(out@ =~= Seq::empty());
    }
    while i < v.len()
        invariant
            i <= v@.len(),
            out@ == escaped(v@.take(i as int)),
        decreases v.len() - i,
    {
        let ghost before = out@;
        let c = v[i];
        if c == '&' {
            push_str(&mut out, "&amp;");
        } else if c == '<' {
            push_str(&mut out, "&lt;");
        } else if c == '>' {
            push_str(&mut out, "&gt;");
        } else if c == '"' {
            push_str(&mut out, "&quot;");
        } else {
            out.push(c);
        }
        i += 1;
        proof {
            assert(out@ =~= before + esc_char(c));
            assert(v@.take(i as int).drop_last() =~= v@.take(i - 1));
            assert(v@.take(i as int).last() == c);
        }
    }
    proof {
        assert(v@.take(i as int) =~= v@);
    }
    out
}

/// Nothing in a text that was made fit for a page opens or closes a tag, or
/// ends an attribute.
pub proof fn law_escaped_text_is_plain(s: Seq<char>)
    ensures
        forall|i: int|
            0 <= i < escaped(s).len() ==> (#[trigger] escaped(s)[i]) != '<' && escaped(s)[i] != '>'
                && escaped(s)[i] != '"',
    decreases s.len(),
{
    if s.len() > 0 {
        law_escaped_text_is_plain(s.drop_last());
        reveal_strlit("&amp;");
        reveal_strlit("&lt;");
        reveal_strlit("&gt;");
        reveal_strlit("&quot;");
        let a = escaped(s.drop_last());
        let e = esc_char(s.last());
        assert forall|i: int| 0 <= i < escaped(s).len() implies (#[trigger] escaped(s)[i]) != '<'
            && escaped(s)[i] != '>' && escaped(s)[i] != '"' by {
            if i < a.len() {
                assert(escaped(s)[i] == a[i]);
            } else {
                assert(escaped(s)[i] == e[i - a.len()]);
            }
        }
    }
}

/// Texts one behind the other, with something between.
pub open spec fn strung(parts: Seq<Seq<char>>, sep: Seq<char>) -> Seq<char>
    decreases parts.len(),
{
    if parts.len() == 0 {
        Seq::empty()
    } else if parts.len() == 1 {
        parts[0]
    } else {
        strung(parts.drop_last(), sep) + sep + parts.last()
    }
}

/// Put texts one behind the other.
pub fn string_together(parts: &Vec<String>, sep: &str) -> (r: String)
    ensures
        r@ == strung(names::views(parts@), sep@),
{
    let mut out = String::new();
    let ghost all = names::views(parts@);
    let mut i: usize = 0;
    proof {
        assert(out@ =~= Seq::empty());
    }
    while i < parts.len()
        invariant
            i <= parts@.len(),
            all == names::views(parts@),
            out@ == strung(all.take(i as int), sep@),
        decreases parts.len() - i,
    {
        let ghost before = out@;
        if i > 0 {
            push_str(&mut out, sep);
        }
        push_str(&mut out, parts[i].as_str());
        i += 1;
        proof {
            assert(all.take(i as int).drop_last() =~= all.take(i - 1));
            assert(all.take(i as int).last() == all[i - 1]);
            if i == 1 {
                assert(before =~= Seq::empty());
                assert(out@ =~= all[0]);
            }
        }
    }
    proof {
        assert(all.take(i as int) =~= all);
    }
    out
}

/// Texts as they stand in a page.
pub open spec fn all_escaped(parts: Seq<Seq<char>>) -> Seq<Seq<char>> {
    parts.map_values(|s: Seq<char>| escaped(s))
}

/// Make texts fit for a page.
pub fn esc_all(parts: &Vec<String>) -> (r: Vec<String>)
    ensures
        names::views(r@) == all_escaped(names::views(parts@)),
{
    let mut out: Vec<String> = Vec::new();
    let ghost want = all_escaped(names::views(parts@));
    let mut i: usize = 0;
    proof {
        assert(names::views(out@) =~= want.take(0));
    }
    while i < parts.len()
        invariant
            i <= parts@.len(),
            want == all_escaped(names::views(parts@)),
            names::views(out@) == want.take(i as int),
        decreases parts.len() - i,
    {
        let ghost before = names::views(out@);
        let s = esc(parts[i].as_str());
        let ghost one = s@;
        out.push(s);
        i += 1;
        proof {
            assert(names::views(out@) =~= before.push(one));
            assert(want.take(i as int) =~= want.take(i - 1).push(want[i - 1]));
        }
    }
    proof {
        assert(want.take(i as int) =~= want);
    }
    out
}

/// A number as text.
pub fn number(n: u64) -> (s: String)
    ensures
        s@ == text::dec(n as nat),
{
    let mut s = String::new();
    push_dec(&mut s, n);
    proof {
        assert(s@ =~= text::dec(n as nat));
    }
    s
}

// ---- charts ------------------------------------------------------------------------

/// One line of a chart's legend.
pub struct LegendEntry {
    pub label: String,
    pub kind: String,
    /// A colour, where the layer has one.
    pub colour: String,
    /// The colours of a scheme, where the layer has one.
    pub ramp: Vec<String>,
    pub detail: String,
}

/// A chart of the report.
pub struct Chart {
    pub title: String,
    pub subtitle: String,
    /// The picture, as an address.
    pub image: Option<String>,
    pub legend: Vec<LegendEntry>,
}

/// What a legend's line is marked with.
pub open spec fn swatch_of(e: LegendEntry) -> Seq<char> {
    if e.ramp@.len() > 0 {
        "<span class=\"sw ramp\" style=\"background:linear-gradient(to right,"@ + strung(
            all_escaped(names::views(e.ramp@)),
            ","@,
        ) + ")\"></span>"@
    } else {
        "<span class=\""@ + (if e.kind@ == "track"@ || e.kind@ == "vector"@ {
            "sw line"@
        } else {
            "sw"@
        }) + "\" style=\"background:"@ + escaped(e.colour@) + "\"></span>"@
    }
}

/// One line of a legend.
pub open spec fn legend_line(e: LegendEntry) -> Seq<char> {
    "<li>"@ + swatch_of(e) + "<span class=\"lg-name\">"@ + escaped(e.label@)
        + "</span><span class=\"lg-kind\">"@ + escaped(e.kind@)
        + "</span><span class=\"lg-detail\">"@ + escaped(e.detail@) + "</span></li>\n"@
}

/// The lines of a legend.
pub open spec fn legend_lines(e: Seq<LegendEntry>) -> Seq<char>
    decreases e.len(),
{
    if e.len() == 0 {
        Seq::empty()
    } else {
        legend_lines(e.drop_last()) + legend_line(e.last())
    }
}

/// A legend; one with nothing in it is left out.
pub open spec fn legend_of(e: Seq<LegendEntry>, caption: Seq<char>) -> Seq<char> {
    if e.len() == 0 {
        Seq::empty()
    } else {
        "<div class=\"legend\">\n<h3>Legend</h3>\n<p class=\"lede\">"@ + escaped(caption)
            + "</p>\n<ul>\n"@ + legend_lines(e) + "</ul>\n</div>\n"@
    }
}

fn swatch(e: &LegendEntry) -> (s: String)
    ensures
        s@ == swatch_of(*e),
{
    if e.ramp.len() > 0 {
        let mut s = copy("<span class=\"sw ramp\" style=\"background:linear-gradient(to right,");
        let stops = string_together(&esc_all(&e.ramp), ",");
        push_str(&mut s, stops.as_str());
        push_str(&mut s, ")\"></span>");
        s
    } else {
        let mut s = copy("<span class=\"");
        if same(e.kind.as_str(), "track") || same(e.kind.as_str(), "vector") {
            push_str(&mut s, "sw line");
        } else {
            push_str(&mut s, "sw");
        }
        push_str(&mut s, "\" style=\"background:");
        push_str(&mut s, esc(e.colour.as_str()).as_str());
        push_str(&mut s, "\"></span>");
        s
    }
}

fn legend_item(e: &LegendEntry) -> (s: String)
    ensures
        s@ == legend_line(*e),
{
    let mut s = copy("<li>");
    push_str(&mut s, swatch(e).as_str());
    push_str(&mut s, "<span class=\"lg-name\">");
    push_str(&mut s, esc(e.label.as_str()).as_str());
    push_str(&mut s, "</span><span class=\"lg-kind\">");
    push_str(&mut s, esc(e.kind.as_str()).as_str());
    push_str(&mut s, "</span><span class=\"lg-detail\">");
    push_str(&mut s, esc(e.detail.as_str()).as_str());
    push_str(&mut s, "</span></li>\n");
    s
}

/// Write a legend; one with nothing in it is left out.
pub fn legend_html(entries: &Vec<LegendEntry>, caption: &str) -> (h: String)
    ensures
        h@ == legend_of(entries@, caption@),
{
    if entries.len() == 0 {
        let h = String::new();
        proof {
            assert(h@ =~= Seq::empty());
        }
        return h;
    }
    let mut lines = String::new();
    let mut i: usize = 0;
    proof {
        assert(lines@ =~= Seq::empty());
    }
    while i < entries.len()
        invariant
            i <= entries@.len(),
            lines@ == legend_lines(entries@.take(i as int)),
        decreases entries.len() - i,
    {
        push_str(&mut lines, legend_item(&entries[i]).as_str());
        i += 1;
        proof {
            assert(entries@.take(i as int).drop_last() =~= entries@.take(i - 1));
        }
    }
    proof {
        assert(entries@.take(i as int) =~= entries@);
    }
    let mut h = copy("<div class=\"legend\">\n<h3>Legend</h3>\n<p class=\"lede\">");
    push_str(&mut h, esc(caption).as_str());
    push_str(&mut h, "</p>\n<ul>\n");
    push_str(&mut h, lines.as_str());
    push_str(&mut h, "</ul>\n</div>\n");
    h
}

/// What stands below a heading, where there is anything.
pub open spec fn lede(s: Seq<char>) -> Seq<char> {
    if s.len() == 0 {
        Seq::empty()
    } else {
        "<p class=\"lede\">"@ + escaped(s) + "</p>\n"@
    }
}

fn lede_text(s: &str) -> (r: String)
    ensures
        r@ == lede(s@),
{
    if s.is_empty() {
        let r = String::new();
        proof {
            assert(r@ =~= Seq::empty());
        }
        r
    } else {
        let mut r = copy("<p class=\"lede\">");
        push_str(&mut r, esc(s).as_str());
        push_str(&mut r, "</p>\n");
        r
    }
}

/// A chart of the whole survey, on a page of its own.
pub open spec fn overview_of(c: Chart) -> Seq<char> {
    "<section class=\"page\">\n<h2>"@ + escaped(c.title@) + "</h2>\n"@ + lede(c.subtitle@) + (
    match c.image {
        Some(img) => "<img class=\"overview\" src=\""@ + img@ + "\" alt=\""@ + escaped(c.title@)
            + "\">\n"@,
        None => "<p class=\"lede\">No view was rendered for this band.</p>\n"@,
    }) + legend_of(c.legend@, "Everything drawn on the chart above, top of the stack first."@)
        + "</section>\n"@
}

/// The charts of the whole survey.
pub open spec fn overviews_of(c: Seq<Chart>) -> Seq<char>
    decreases c.len(),
{
    if c.len() == 0 {
        Seq::empty()
    } else {
        overviews_of(c.drop_last()) + overview_of(c.last())
    }
}

fn overview(c: &Chart) -> (h: String)
    ensures
        h@ == overview_of(*c),
{
    let picture = match &c.image {
        Some(img) => {
            let mut p = copy("<img class=\"overview\" src=\"");
            push_str(&mut p, img.as_str());
            push_str(&mut p, "\" alt=\"");
            push_str(&mut p, esc(c.title.as_str()).as_str());
            push_str(&mut p, "\">\n");
            p
        },
        None => copy("<p class=\"lede\">No view was rendered for this band.</p>\n"),
    };
    let legend = legend_html(
        &c.legend,
        "Everything drawn on the chart above, top of the stack first.",
    );
    let mut h = copy("<section class=\"page\">\n<h2>");
    push_str(&mut h, esc(c.title.as_str()).as_str());
    push_str(&mut h, "</h2>\n");
    push_str(&mut h, lede_text(c.subtitle.as_str()).as_str());
    push_str(&mut h, picture.as_str());
    push_str(&mut h, legend.as_str());
    push_str(&mut h, "</section>\n");
    h
}

fn overviews(charts: &Vec<Chart>) -> (h: String)
    ensures
        h@ == overviews_of(charts@),
{
    let mut h = String::new();
    let mut i: usize = 0;
    proof {
        assert(h@ =~= Seq::empty());
    }
    while i < charts.len()
        invariant
            i <= charts@.len(),
            h@ == overviews_of(charts@.take(i as int)),
        decreases charts.len() - i,
    {
        push_str(&mut h, overview(&charts[i]).as_str());
        i += 1;
        proof {
            assert(charts@.take(i as int).drop_last() =~= charts@.take(i - 1));
        }
    }
    proof {
        assert(charts@.take(i as int) =~= charts@);
    }
    h
}

/// One frequency band of a recording.
pub open spec fn band_of(c: Chart, label: Seq<char>) -> Seq<char> {
    "<div class=\"band\">\n<h3>"@ + escaped(c.title@) + "</h3>\n"@ + lede(c.subtitle@) + (
    match c.image {
        Some(img) => "<img class=\"overview\" src=\""@ + img@ + "\" alt=\""@ + escaped(label)
            + " \u{2014} "@ + escaped(c.title@) + "\">\n"@,
        None => ""@,
    }) + legend_of(c.legend@, "Layers shown on this chart."@) + "</div>\n"@
}

/// The frequency bands of a recording.
pub open spec fn bands_of(c: Seq<Chart>, label: Seq<char>) -> Seq<char>
    decreases c.len(),
{
    if c.len() == 0 {
        Seq::empty()
    } else {
        bands_of(c.drop_last(), label) + band_of(c.last(), label)
    }
}

fn band(c: &Chart, label: &str) -> (h: String)
    ensures
        h@ == band_of(*c, label@),
{
    let picture = match &c.image {
        Some(img) => {
            let mut p = copy("<img class=\"overview\" src=\"");
            push_str(&mut p, img.as_str());
            push_str(&mut p, "\" alt=\"");
            push_str(&mut p, esc(label).as_str());
            push_str(&mut p, " \u{2014} ");
            push_str(&mut p, esc(c.title.as_str()).as_str());
            push_str(&mut p, "\">\n");
            p
        },
        None => copy(""),
    };
    let mut h = copy("<div class=\"band\">\n<h3>");
    push_str(&mut h, esc(c.title.as_str()).as_str());
    push_str(&mut h, "</h3>\n");
    push_str(&mut h, lede_text(c.subtitle.as_str()).as_str());
    push_str(&mut h, picture.as_str());
    push_str(&mut h, legend_html(&c.legend, "Layers shown on this chart.").as_str());
    push_str(&mut h, "</div>\n");
    h
}

/// Write the frequency bands of a recording.
pub fn bands(charts: &Vec<Chart>, label: &str) -> (h: String)
    ensures
        h@ == bands_of(charts@, label@),
{
    let mut h = String::new();
    let mut i: usize = 0;
    proof {
        assert(h@ =~= Seq::empty());
    }
    while i < charts.len()
        invariant
            i <= charts@.len(),
            h@ == bands_of(charts@.take(i as int), label@),
        decreases charts.len() - i,
    {
        push_str(&mut h, band(&charts[i], label).as_str());
        i += 1;
        proof {
            assert(charts@.take(i as int).drop_last() =~= charts@.take(i - 1));
        }
    }
    proof {
        assert(charts@.take(i as int) =~= charts@);
    }
    h
}

// ---- the report --------------------------------------------------------------------

/// When a survey was made.
pub struct Span {
    pub from: String,
    pub to: String,
    pub elapsed: String,
}

/// What a report is made of.
pub struct ReportInput {
    /// The project's name, which stands in for a title where there is none.
    pub name: String,
    pub title: String,
    pub meta: ProjectMeta,
    pub issued: String,
    /// The layback of the first recording.
    pub layback: String,
    pub datasets: Vec<DatasetSummary>,
    pub total_km: String,
    pub span: Option<Span>,
    pub area: Option<Extent>,
    pub contacts: Vec<ContactText>,
    /// The kinds of the project's layers.
    pub layer_kinds: Vec<String>,
    pub overviews: Vec<Chart>,
    pub systems: Vec<CrsInfo>,
    /// Whether the report has a register of contacts. Not every deliverable is
    /// about them.
    pub register: bool,
    /// The most that the models of the cable disagree by.
    pub worst: Option<String>,
    pub pictures: Vec<Picture>,
    pub generated: String,
}

/// A line of the cover, where there is anything to say.
pub open spec fn cover_line(k: Seq<char>, v: Seq<char>) -> Seq<char> {
    if v.len() == 0 {
        ""@
    } else {
        "    <dt>"@ + k + "</dt><dd>"@ + escaped(v) + "</dd>\n"@
    }
}

fn cover_line_text(k: &str, v: &str) -> (h: String)
    ensures
        h@ == cover_line(k@, v@),
{
    if v.is_empty() {
        return copy("");
    }
    let mut h = copy("    <dt>");
    push_str(&mut h, k);
    push_str(&mut h, "</dt><dd>");
    push_str(&mut h, esc(v).as_str());
    push_str(&mut h, "</dd>\n");
    h
}

/// The notes on the cover, where there are any.
pub open spec fn notes_of(s: Seq<char>) -> Seq<char> {
    if s.len() == 0 {
        ""@
    } else {
        "  <p class=\"notes\">"@ + escaped(s) + "</p>\n"@
    }
}

fn notes_text(s: &str) -> (h: String)
    ensures
        h@ == notes_of(s@),
{
    if s.is_empty() {
        return copy("");
    }
    let mut h = copy("  <p class=\"notes\">");
    push_str(&mut h, esc(s).as_str());
    push_str(&mut h, "</p>\n");
    h
}

/// The title of a report.
pub open spec fn title_of(i: ReportInput) -> Seq<char> {
    if i.title@.len() == 0 {
        i.name@
    } else {
        i.title@
    }
}

/// The head of the page, and the cover.
pub open spec fn cover_of(i: ReportInput) -> Seq<char> {
    "<!doctype html>\n<html lang=\"en\"><head><meta charset=\"utf-8\">\n<title>"@ + escaped(
        title_of(i),
    ) + " \u{2014} survey report</title>\n<style>"@ + words::STYLE@
        + "</style>\n</head><body>\n"@
        + "<header class=\"cover\">\n  <div class=\"eyebrow\">Sidescan survey report</div>\n  <h1>"@
        + escaped(title_of(i)) + "</h1>\n  <dl class=\"meta\">\n"@ + cover_line(
        "Client"@,
        i.meta.client@,
    ) + cover_line("Vessel"@, i.meta.vessel@) + cover_line("Operator"@, i.meta.operator@)
        + cover_line("Job number"@, i.meta.job_number@) + cover_line("Area"@, i.meta.area@)
        + "    <dt>Issued</dt><dd>"@ + escaped(i.issued@) + "</dd>\n  </dl>\n"@ + notes_of(
        i.meta.notes@,
    ) + "</header>\n"@
}

fn cover(i: &ReportInput) -> (h: String)
    ensures
        h@ == cover_of(*i),
{
    let title = if i.title.as_str().is_empty() {
        i.name.as_str()
    } else {
        i.title.as_str()
    };
    let mut h = copy(
        "<!doctype html>\n<html lang=\"en\"><head><meta charset=\"utf-8\">\n<title>",
    );
    push_str(&mut h, esc(title).as_str());
    push_str(&mut h, " \u{2014} survey report</title>\n<style>");
    push_str(&mut h, words::STYLE);
    push_str(&mut h, "</style>\n</head><body>\n");
    push_str(
        &mut h,
        "<header class=\"cover\">\n  <div class=\"eyebrow\">Sidescan survey report</div>\n  <h1>",
    );
    push_str(&mut h, esc(title).as_str());
    push_str(&mut h, "</h1>\n  <dl class=\"meta\">\n");
    push_str(&mut h, cover_line_text("Client", i.meta.client.as_str()).as_str());
    push_str(&mut h, cover_line_text("Vessel", i.meta.vessel.as_str()).as_str());
    push_str(&mut h, cover_line_text("Operator", i.meta.operator.as_str()).as_str());
    push_str(&mut h, cover_line_text("Job number", i.meta.job_number.as_str()).as_str());
    push_str(&mut h, cover_line_text("Area", i.meta.area.as_str()).as_str());
    push_str(&mut h, "    <dt>Issued</dt><dd>");
    push_str(&mut h, esc(i.issued.as_str()).as_str());
    push_str(&mut h, "</dd>\n  </dl>\n");
    push_str(&mut h, notes_text(i.meta.notes.as_str()).as_str());
    push_str(&mut h, "</header>\n");
    h
}

/// What the positions rest on.
pub open spec fn positioning_of(i: ReportInput) -> Seq<char> {
    words::POSITIONING@ + i.layback@ + words::POSITIONING_REST@
}

/// How many lines were run.
pub open spec fn lines_run(d: Seq<DatasetSummary>) -> nat
    decreases d.len(),
{
    if d.len() == 0 {
        0
    } else {
        lines_run(d.drop_last()) + d.last().lines as nat
    }
}

/// How many pings were recorded.
pub open spec fn pings_made(d: Seq<DatasetSummary>) -> nat
    decreases d.len(),
{
    if d.len() == 0 {
        0
    } else {
        pings_made(d.drop_last()) + d.last().pings as nat
    }
}

proof fn lemma_totals_grow(d: Seq<DatasetSummary>, n: int)
    requires
        0 <= n <= d.len(),
    ensures
        lines_run(d.take(n)) <= lines_run(d),
        pings_made(d.take(n)) <= pings_made(d),
    decreases d.len() - n,
{
    if n < d.len() {
        lemma_totals_grow(d, n + 1);
        assert(d.take(n + 1).drop_last() =~= d.take(n));
    } else {
        assert(d.take(n) =~= d);
    }
}

fn totals(d: &Vec<DatasetSummary>) -> (r: (u64, u64))
    requires
        lines_run(d@) <= u64::MAX,
        pings_made(d@) <= u64::MAX,
    ensures
        r.0 == lines_run(d@),
        r.1 == pings_made(d@),
{
    let mut lines: u64 = 0;
    let mut pings: u64 = 0;
    let mut i: usize = 0;
    while i < d.len()
        invariant
            i <= d@.len(),
            lines_run(d@) <= u64::MAX,
            pings_made(d@) <= u64::MAX,
            lines == lines_run(d@.take(i as int)),
            pings == pings_made(d@.take(i as int)),
        decreases d.len() - i,
    {
        proof {
            lemma_totals_grow(d@, i + 1);
            assert(d@.take(i + 1).drop_last() =~= d@.take(i as int));
        }
        lines += d[i].lines;
        pings += d[i].pings;
        i += 1;
    }
    proof {
        assert(d@.take(i as int) =~= d@);
    }
    (lines, pings)
}

/// How many of the project's layers were imported.
pub open spec fn imported(kinds: Seq<Seq<char>>) -> nat
    decreases kinds.len(),
{
    if kinds.len() == 0 {
        0
    } else {
        imported(kinds.drop_last()) + (if kinds.last() == KIND_RASTER@ || kinds.last()
            == KIND_VECTOR@ {
            1nat
        } else {
            0
        })
    }
}

fn count_imported(kinds: &Vec<String>) -> (n: u64)
    ensures
        n == imported(names::views(kinds@)),
{
    let ghost all = names::views(kinds@);
    let mut n: u64 = 0;
    let mut i: usize = 0;
    while i < kinds.len()
        invariant
            i <= kinds@.len(),
            n <= i,
            all == names::views(kinds@),
            n == imported(all.take(i as int)),
        decreases kinds.len() - i,
    {
        proof {
            assert(all.take(i + 1).drop_last() =~= all.take(i as int));
            assert(all.take(i + 1).last() == kinds@[i as int]@);
        }
        if same(kinds[i].as_str(), KIND_RASTER) || same(kinds[i].as_str(), KIND_VECTOR) {
            n += 1;
        }
        i += 1;
    }
    proof {
        assert(all.take(i as int) =~= all);
    }
    n
}

/// When the survey was made, where it is known.
pub open spec fn span_rows(s: Option<Span>) -> Seq<char> {
    match s {
        Some(t) => recording::row_of("Surveyed"@, escaped(t.from@) + " to "@ + escaped(t.to@))
            + recording::row_of("Elapsed"@, t.elapsed@),
        None => ""@,
    }
}

fn span_text(s: &Option<Span>) -> (h: String)
    ensures
        h@ == span_rows(*s),
{
    match s {
        Some(t) => {
            let mut v = esc(t.from.as_str());
            push_str(&mut v, " to ");
            push_str(&mut v, esc(t.to.as_str()).as_str());
            let mut h = row("Surveyed", v.as_str());
            push_str(&mut h, row("Elapsed", t.elapsed.as_str()).as_str());
            h
        },
        None => copy(""),
    }
}

/// What each band is called: by its sweep, which says something about the
/// survey, or else by the heading of its chart.
pub open spec fn band_names(c: Seq<Chart>) -> Seq<Seq<char>> {
    c.map_values(
        |x: Chart|
            escaped(
                if x.subtitle@.len() == 0 {
                    x.title@
                } else {
                    x.subtitle@
                },
            ),
    )
}

/// The line of the bands, where there are charts of any.
pub open spec fn band_row(c: Seq<Chart>) -> Seq<char> {
    if c.len() == 0 {
        ""@
    } else {
        recording::row_of("Frequency bands"@, strung(band_names(c), ", "@))
    }
}

fn band_line(c: &Vec<Chart>) -> (h: String)
    ensures
        h@ == band_row(c@),
{
    if c.len() == 0 {
        return copy("");
    }
    let mut out: Vec<String> = Vec::new();
    let ghost want = band_names(c@);
    let mut i: usize = 0;
    proof {
        assert(names::views(out@) =~= want.take(0));
    }
    while i < c.len()
        invariant
            i <= c@.len(),
            want == band_names(c@),
            names::views(out@) == want.take(i as int),
        decreases c.len() - i,
    {
        let ghost before = names::views(out@);
        let s = if c[i].subtitle.as_str().is_empty() {
            esc(c[i].title.as_str())
        } else {
            esc(c[i].subtitle.as_str())
        };
        let ghost one = s@;
        out.push(s);
        i += 1;
        proof {
            assert(names::views(out@) =~= before.push(one));
            assert(want.take(i as int) =~= want.take(i - 1).push(want[i - 1]));
        }
    }
    proof {
        assert(want.take(i as int) =~= want);
    }
    row("Frequency bands", string_together(&out, ", ").as_str())
}

/// What each coordinate system is called.
pub open spec fn system_names(s: Seq<CrsInfo>) -> Seq<Seq<char>> {
    s.map_values(
        |c: CrsInfo| escaped(c.name@) + " (EPSG:"@ + text::dec(c.epsg as nat) + ")"@,
    )
}

fn system_list(s: &Vec<CrsInfo>) -> (h: String)
    ensures
        h@ == strung(system_names(s@), ", "@),
{
    let mut out: Vec<String> = Vec::new();
    let ghost want = system_names(s@);
    let mut i: usize = 0;
    proof {
        assert(names::views(out@) =~= want.take(0));
    }
    while i < s.len()
        invariant
            i <= s@.len(),
            want == system_names(s@),
            names::views(out@) == want.take(i as int),
        decreases s.len() - i,
    {
        let ghost before = names::views(out@);
        let mut t = esc(s[i].name.as_str());
        push_str(&mut t, " (EPSG:");
        push_str(&mut t, number(s[i].epsg as u64).as_str());
        push_str(&mut t, ")");
        let ghost one = t@;
        out.push(t);
        i += 1;
        proof {
            assert(names::views(out@) =~= before.push(one));
            assert(want.take(i as int) =~= want.take(i - 1).push(want[i - 1]));
        }
    }
    proof {
        assert(want.take(i as int) =~= want);
    }
    string_together(&out, ", ")
}

/// What the survey covered, in one table.
pub open spec fn summary_of(i: ReportInput) -> Seq<char> {
    "<section><h2>Summary</h2>\n<table class=\"grid summary\">\n<tbody>\n"@ + recording::row_of(
        "Recordings"@,
        text::dec(i.datasets@.len()),
    ) + span_rows(i.span) + recording::row_of("Survey lines"@, text::dec(lines_run(i.datasets@)))
        + recording::row_of("Line length"@, i.total_km@ + " km"@) + recording::row_of(
        "Pings"@,
        text::dec(pings_made(i.datasets@)),
    ) + recording::extent_row(i.area) + recording::row_of(
        "Contacts"@,
        text::dec(i.contacts@.len()),
    ) + recording::row_of("Imported layers"@, text::dec(imported(names::views(i.layer_kinds@))))
        + band_row(i.overviews@) + recording::row_of(
        "Coordinate systems"@,
        strung(system_names(i.systems@), ", "@),
    ) + "</tbody></table>\n</section>\n"@
}

fn summary(i: &ReportInput) -> (h: String)
    requires
        lines_run(i.datasets@) <= u64::MAX,
        pings_made(i.datasets@) <= u64::MAX,
    ensures
        h@ == summary_of(*i),
{
    let (lines, pings) = totals(&i.datasets);
    let mut h = copy("<section><h2>Summary</h2>\n<table class=\"grid summary\">\n<tbody>\n");
    push_str(&mut h, row("Recordings", number(i.datasets.len() as u64).as_str()).as_str());
    push_str(&mut h, span_text(&i.span).as_str());
    push_str(&mut h, row("Survey lines", number(lines).as_str()).as_str());
    let km = with_unit(i.total_km.as_str(), " km");
    push_str(&mut h, row("Line length", km.as_str()).as_str());
    push_str(&mut h, row("Pings", number(pings).as_str()).as_str());
    push_str(&mut h, extent_line(&i.area).as_str());
    push_str(&mut h, row("Contacts", number(i.contacts.len() as u64).as_str()).as_str());
    let layers = number(count_imported(&i.layer_kinds));
    push_str(&mut h, row("Imported layers", layers.as_str()).as_str());
    push_str(&mut h, band_line(&i.overviews).as_str());
    push_str(&mut h, row("Coordinate systems", system_list(&i.systems).as_str()).as_str());
    push_str(&mut h, "</tbody></table>\n</section>\n");
    h
}

/// Whether there is no chart in the report.
pub open spec fn without_charts(i: ReportInput) -> bool {
    i.overviews@.len() == 0 && forall|j: int|
        0 <= j < i.datasets@.len() ==> (#[trigger] i.datasets@[j]).charts@.len() == 0
}

fn has_no_charts(i: &ReportInput) -> (r: bool)
    ensures
        r == without_charts(*i),
{
    if i.overviews.len() > 0 {
        return false;
    }
    let mut j: usize = 0;
    while j < i.datasets.len()
        invariant
            j <= i.datasets@.len(),
            forall|k: int| 0 <= k < j ==> (#[trigger] i.datasets@[k]).charts@.len() == 0,
        decreases i.datasets.len() - j,
    {
        if i.datasets[j].charts.len() > 0 {
            return false;
        }
        j += 1;
    }
    true
}

/// What ends the report.
pub open spec fn footer_of(i: ReportInput) -> Seq<char> {
    "<footer>Generated by survey "@ + VERSION@ + " \u{b7} "@ + escaped(i.generated@)
        + "</footer>\n</body></html>\n"@
}

fn footer(i: &ReportInput) -> (h: String)
    ensures
        h@ == footer_of(*i),
{
    let mut h = copy("<footer>Generated by survey ");
    push_str(&mut h, VERSION);
    push_str(&mut h, " \u{b7} ");
    push_str(&mut h, esc(i.generated.as_str()).as_str());
    push_str(&mut h, "</footer>\n</body></html>\n");
    h
}

/// What stands behind what the positions rest on.
pub open spec fn body_of(i: ReportInput) -> Seq<char> {
    recording::disagreement(i.datasets@) + words::IMAGERY@ + recording::reached(i.datasets@)
        + words::IMAGERY_REST@ + summary_of(i) + (if without_charts(i) {
        words::NO_CHARTS@
    } else {
        ""@
    }) + overviews_of(i.overviews@) + recording::recordings_of(i.datasets@, i.contacts@) + (
    if i.register {
        sheet::register_of(i.contacts@, i.systems@, i.worst) + sheet::sheets_of(
            i.contacts@,
            i.systems@,
            i.pictures@,
        )
    } else {
        ""@
    }) + footer_of(i)
}

/// The report.
pub open spec fn report_of(i: ReportInput) -> Seq<char> {
    cover_of(i) + positioning_of(i) + body_of(i)
}

/// Write the report.
pub fn render(i: &ReportInput) -> (h: String)
    requires
        lines_run(i.datasets@) <= u64::MAX,
        pings_made(i.datasets@) <= u64::MAX,
        forall|j: int|
            0 <= j < i.contacts@.len() ==> (#[trigger] i.contacts@[j]).coordinates@.len()
                == i.systems@.len(),
    ensures
        h@ == report_of(*i),
{
    let mut rest = disagreement_text(&i.datasets);
    push_str(&mut rest, words::IMAGERY);
    push_str(&mut rest, reached_text(&i.datasets).as_str());
    push_str(&mut rest, words::IMAGERY_REST);
    push_str(&mut rest, summary(i).as_str());
    if has_no_charts(i) {
        push_str(&mut rest, words::NO_CHARTS);
    } else {
        push_str(&mut rest, "");
    }
    push_str(&mut rest, overviews(&i.overviews).as_str());
    push_str(&mut rest, recordings(&i.datasets, &i.contacts).as_str());
    let contacts = if i.register {
        let mut c = register(&i.contacts, &i.systems, &i.worst);
        push_str(&mut c, contact_sheets(&i.contacts, &i.systems, &i.pictures).as_str());
        c
    } else {
        copy("")
    };
    push_str(&mut rest, contacts.as_str());
    push_str(&mut rest, footer(i).as_str());
    let mut positioning = copy(words::POSITIONING);
    push_str(&mut positioning, i.layback.as_str());
    push_str(&mut positioning, words::POSITIONING_REST);
    let mut h = cover(i);
    push_str(&mut h, positioning.as_str());
    push_str(&mut h, rest.as_str());
    h
}

/// Every report says what its positions rest on, and how well they are known.
pub proof fn law_report_states_positioning(i: ReportInput)
    ensures
        text::occurs(report_of(i), words::POSITIONING@ + i.layback@ + words::POSITIONING_REST@),
{
    let a = cover_of(i);
    let p = positioning_of(i);
    let n = a.len() as int;
    assert(report_of(i).subrange(n, n + p.len()) =~= p);
}

// ---- what a report is made of ------------------------------------------------------

/// Codes without those that repeat the one before.
pub open spec fn without_repeats(s: Seq<u32>) -> Seq<u32>
    decreases s.len(),
{
    if s.len() <= 1 {
        s
    } else if s.last() == s[s.len() - 2] {
        without_repeats(s.drop_last())
    } else {
        without_repeats(s.drop_last()).push(s.last())
    }
}

/// The coordinate systems a report asks for: WGS 84, and behind it those that
/// the project asks for, or where it asks for none the local grid.
pub open spec fn codes_asked(asked: Seq<u32>, local: Option<u32>) -> Seq<u32> {
    if asked.len() > 0 {
        seq![4326u32] + asked
    } else {
        match local {
            Some(c) => seq![4326u32, c],
            None => seq![4326u32],
        }
    }
}

/// Choose the coordinate systems of a report.
pub fn report_codes(asked: &Vec<u32>, local: Option<u32>) -> (r: Vec<u32>)
    ensures
        r@ == without_repeats(codes_asked(asked@, local)),
{
    let mut all: Vec<u32> = Vec::new();
    all.push(4326);
    if asked.len() > 0 {
        let mut i: usize = 0;
        while i < asked.len()
            invariant
                i <= asked@.len(),
                all@ == seq![4326u32] + asked@.take(i as int),
            decreases asked.len() - i,
        {
            all.push(asked[i]);
            i += 1;
            proof {
                assert(asked@.take(i as int) =~= asked@.take(i - 1).push(asked@[i - 1]));
                assert(all@ =~= seq![4326u32] + asked@.take(i as int));
            }
        }
        proof {
            assert(asked@.take(i as int) =~= asked@);
        }
    } else if let Some(c) = local {
        all.push(c);
        proof {
            assert(all@ =~= seq![4326u32, c]);
        }
    } else {
        proof {
            assert(all@ =~= seq![4326u32]);
        }
    }
    let mut out: Vec<u32> = Vec::new();
    out.push(all[0]);
    let mut i: usize = 1;
    proof {
        assert(all@.take(1) =~= out@);
    }
    while i < all.len()
        invariant
            1 <= i <= all@.len(),
            out@ == without_repeats(all@.take(i as int)),
        decreases all.len() - i,
    {
        proof {
            let s = all@.take(i + 1);
            assert(s.drop_last() =~= all@.take(i as int));
            assert(s.last() == all@[i as int]);
            assert(s[s.len() - 2] == all@[i - 1]);
        }
        if all[i] != all[i - 1] {
            out.push(all[i]);
        }
        i += 1;
    }
    proof {
        assert(all@.take(i as int) =~= all@);
    }
    out
}

/// When a survey was made: from the first start of its recordings to their last
/// end, as the bits of the times.
pub open spec fn span_of(t: Seq<(u64, u64)>) -> Option<(u64, u64)>
    decreases t.len(),
{
    if t.len() == 0 {
        None
    } else {
        match span_of(t.drop_last()) {
            None => Some(t.last()),
            Some(s) => Some((order::min64(s.0, t.last().0), order::max64(s.1, t.last().1))),
        }
    }
}

/// Find out when a survey was made.
pub fn span(t: &Vec<(u64, u64)>) -> (r: Option<(u64, u64)>)
    ensures
        r == span_of(t@),
{
    let mut r: Option<(u64, u64)> = None;
    let mut i: usize = 0;
    while i < t.len()
        invariant
            i <= t@.len(),
            r == span_of(t@.take(i as int)),
        decreases t.len() - i,
    {
        proof {
            assert(t@.take(i + 1).drop_last() =~= t@.take(i as int));
        }
        r = match r {
            None => Some(t[i]),
            Some(s) => Some((lesser64(s.0, t[i].0), greater64(s.1, t[i].1))),
        };
        i += 1;
    }
    proof {
        assert(t@.take(i as int) =~= t@);
    }
    r
}

/// The largest of those distances that are finite, as their bits.
pub open spec fn worst_of(d: Seq<u64>) -> Option<u64>
    decreases d.len(),
{
    if d.len() == 0 {
        None
    } else {
        let before = worst_of(d.drop_last());
        if !order::finite64(d.last()) {
            before
        } else {
            match before {
                None => Some(d.last()),
                Some(w) => Some(order::max64(w, d.last())),
            }
        }
    }
}

/// Find the most that the models of the cable disagree by.
pub fn worst(d: &Vec<u64>) -> (r: Option<u64>)
    ensures
        r == worst_of(d@),
{
    let mut r: Option<u64> = None;
    let mut i: usize = 0;
    while i < d.len()
        invariant
            i <= d@.len(),
            r == worst_of(d@.take(i as int)),
        decreases d.len() - i,
    {
        proof {
            assert(d@.take(i + 1).drop_last() =~= d@.take(i as int));
        }
        if is_finite64(d[i]) {
            r = match r {
                None => Some(d[i]),
                Some(w) => Some(greater64(w, d[i])),
            };
        }
        i += 1;
    }
    proof {
        assert(d@.take(i as int) =~= d@);
    }
    r
}

// ---- what holds of them --------------------------------------------------------------

/// What escaped text stands for.
pub open spec fn meant(s: Seq<char>) -> Seq<char>
    decreases s.len(),
{
    if s.len() == 0 {
        s
    } else if seq!['&', 'a', 'm', 'p', ';'].is_prefix_of(s) {
        seq!['&'] + meant(s.skip(5))
    } else if seq!['&', 'l', 't', ';'].is_prefix_of(s) {
        seq!['<'] + meant(s.skip(4))
    } else if seq!['&', 'g', 't', ';'].is_prefix_of(s) {
        seq!['>'] + meant(s.skip(4))
    } else if seq!['&', 'q', 'u', 'o', 't', ';'].is_prefix_of(s) {
        seq!['"'] + meant(s.skip(6))
    } else {
        seq![s[0]] + meant(s.skip(1))
    }
}

proof fn lemma_meant_sign(c: char, rest: Seq<char>)
    ensures
        meant(esc_char(c) + rest) == seq![c] + meant(rest),
{
    reveal_strlit("&amp;");
    reveal_strlit("&lt;");
    reveal_strlit("&gt;");
    reveal_strlit("&quot;");
    let s = esc_char(c) + rest;
    let (a, l, g, q) = (
        seq!['&', 'a', 'm', 'p', ';'],
        seq!['&', 'l', 't', ';'],
        seq!['&', 'g', 't', ';'],
        seq!['&', 'q', 'u', 'o', 't', ';'],
    );
    if c == '&' {
        assert("&amp;"@ =~= a);
        assert(s.subrange(0, 5) =~= a);
        assert(s.skip(5) =~= rest);
    } else if c == '<' {
        assert("&lt;"@ =~= l);
        assert(s.subrange(0, 4) =~= l);
        assert(s.skip(4) =~= rest);
        assert(s[1] == 'l');
        assert(!a.is_prefix_of(s)) by {
            if a.is_prefix_of(s) {
                assert(s.subrange(0, 5)[1] == a[1]);
            }
        }
    } else if c == '>' {
        assert("&gt;"@ =~= g);
        assert(s.subrange(0, 4) =~= g);
        assert(s.skip(4) =~= rest);
        assert(s[1] == 'g');
        assert(!a.is_prefix_of(s)) by {
            if a.is_prefix_of(s) {
                assert(s.subrange(0, 5)[1] == a[1]);
            }
        }
        assert(!l.is_prefix_of(s)) by {
            if l.is_prefix_of(s) {
                assert(s.subrange(0, 4)[1] == l[1]);
            }
        }
    } else if c == '"' {
        assert("&quot;"@ =~= q);
        assert(s.subrange(0, 6) =~= q);
        assert(s.skip(6) =~= rest);
        assert(s[1] == 'q');
        assert(!a.is_prefix_of(s)) by {
            if a.is_prefix_of(s) {
                assert(s.subrange(0, 5)[1] == a[1]);
            }
        }
        assert(!l.is_prefix_of(s)) by {
            if l.is_prefix_of(s) {
                assert(s.subrange(0, 4)[1] == l[1]);
            }
        }
        assert(!g.is_prefix_of(s)) by {
            if g.is_prefix_of(s) {
                assert(s.subrange(0, 4)[1] == g[1]);
            }
        }
    } else {
        assert(s[0] == c);
        assert(s.skip(1) =~= rest);
        assert(!a.is_prefix_of(s)) by {
            if a.is_prefix_of(s) {
                assert(s.subrange(0, 5)[0] == a[0]);
            }
        }
        assert(!l.is_prefix_of(s)) by {
            if l.is_prefix_of(s) {
                assert(s.subrange(0, 4)[0] == l[0]);
            }
        }
        assert(!g.is_prefix_of(s)) by {
            if g.is_prefix_of(s) {
                assert(s.subrange(0, 4)[0] == g[0]);
            }
        }
        assert(!q.is_prefix_of(s)) by {
            if q.is_prefix_of(s) {
                assert(s.subrange(0, 6)[0] == q[0]);
            }
        }
    }
}

/// Text is escaped sign by sign.
pub proof fn law_escaped_sign_by_sign(a: Seq<char>, b: Seq<char>)
    ensures
        escaped(a + b) == escaped(a) + escaped(b),
        forall|x: char| escaped(#[trigger] seq![x]) == esc_char(x),
    decreases b.len(),
{
    assert forall|x: char| escaped(#[trigger] seq![x]) == esc_char(x) by {
        assert(seq![x].drop_last() =~= Seq::empty());
        assert(seq![x].last() == x);
        assert(escaped(Seq::<char>::empty()) =~= Seq::empty());
        assert(escaped(seq![x]) =~= escaped(Seq::<char>::empty()) + esc_char(x));
    }
    if b.len() == 0 {
        assert(a + b =~= a);
        assert(escaped(a) + escaped(b) =~= escaped(a));
    } else {
        law_escaped_sign_by_sign(a, b.drop_last());
        assert((a + b).drop_last() =~= a + b.drop_last());
        assert((a + b).last() == b.last());
        assert(escaped(a + b) =~= escaped(a) + escaped(b));
    }
}

/// Escaped text stands for the text.
pub proof fn law_escaped_means_the_text(s: Seq<char>)
    ensures
        meant(escaped(s)) == s,
    decreases s.len(),
{
    if s.len() > 0 {
        let t = s.skip(1);
        law_escaped_means_the_text(t);
        law_escaped_sign_by_sign(seq![s[0]], t);
        assert(seq![s[0]] + t =~= s);
        lemma_meant_sign(s[0], escaped(t));
    } else {
        assert(escaped(s) =~= s);
    }
}

/// Parts are strung together in their order, with one separator between each two.
pub proof fn law_strung(a: Seq<Seq<char>>, b: Seq<Seq<char>>, sep: Seq<char>)
    requires
        a.len() > 0,
        b.len() > 0,
    ensures
        strung(a + b, sep) == strung(a, sep) + sep + strung(b, sep),
        forall|x: Seq<char>| strung(#[trigger] seq![x], sep) == x,
        strung(Seq::empty(), sep) == Seq::<char>::empty(),
    decreases b.len(),
{
    let c = a + b;
    assert(c.drop_last() =~= a + b.drop_last());
    assert(c.last() == b.last());
    if b.len() == 1 {
        assert(a + b.drop_last() =~= a);
        assert(strung(c, sep) =~= strung(a, sep) + sep + strung(b, sep));
    } else {
        law_strung(a, b.drop_last(), sep);
        assert(strung(c, sep) =~= strung(a, sep) + sep + strung(b, sep));
    }
}

/// The legend has a line for every entry, behind those of the entries before it.
pub proof fn law_legend_in_order(s: Seq<LegendEntry>, x: LegendEntry)
    ensures
        legend_lines(s.push(x)) == legend_lines(s) + legend_line(x),
        legend_lines(Seq::empty()) == Seq::<char>::empty(),
{
    assert(s.push(x).drop_last() =~= s);
    assert(s.push(x).last() == x);
}

/// Every chart is shown, behind those before it.
pub proof fn law_overviews_in_order(s: Seq<Chart>, x: Chart)
    ensures
        overviews_of(s.push(x)) == overviews_of(s) + overview_of(x),
        overviews_of(Seq::empty()) == Seq::<char>::empty(),
{
    assert(s.push(x).drop_last() =~= s);
    assert(s.push(x).last() == x);
}

/// Every band is shown, behind those before it.
pub proof fn law_bands_in_order(s: Seq<Chart>, x: Chart, label: Seq<char>)
    ensures
        bands_of(s.push(x), label) == bands_of(s, label) + band_of(x, label),
        bands_of(Seq::empty(), label) == Seq::<char>::empty(),
{
    assert(s.push(x).drop_last() =~= s);
    assert(s.push(x).last() == x);
}

/// The lines of all recordings are counted.
pub proof fn law_lines_add_up(a: Seq<DatasetSummary>, b: Seq<DatasetSummary>)
    ensures
        lines_run(a + b) == lines_run(a) + lines_run(b),
        forall|x: DatasetSummary| lines_run(#[trigger] seq![x]) == x.lines as nat,
    decreases b.len(),
{
    assert forall|x: DatasetSummary| lines_run(#[trigger] seq![x]) == x.lines as nat by {
        assert(seq![x].drop_last() =~= Seq::empty());
        assert(seq![x].last() == x);
        assert(lines_run(Seq::<DatasetSummary>::empty()) == 0);
        assert(lines_run(seq![x]) == lines_run(Seq::<DatasetSummary>::empty()) + x.lines as nat);
    }
    if b.len() == 0 {
        assert(a + b =~= a);
        assert(lines_run(a) + lines_run(b) == lines_run(a));
    } else {
        law_lines_add_up(a, b.drop_last());
        assert((a + b).drop_last() =~= a + b.drop_last());
        assert((a + b).last() == b.last());
        assert(lines_run(a + b) == lines_run(a) + lines_run(b));
    }
}

/// The pings of all recordings are counted.
pub proof fn law_pings_add_up(a: Seq<DatasetSummary>, b: Seq<DatasetSummary>)
    ensures
        pings_made(a + b) == pings_made(a) + pings_made(b),
        forall|x: DatasetSummary| pings_made(#[trigger] seq![x]) == x.pings as nat,
    decreases b.len(),
{
    assert forall|x: DatasetSummary| pings_made(#[trigger] seq![x]) == x.pings as nat by {
        assert(seq![x].drop_last() =~= Seq::empty());
        assert(seq![x].last() == x);
        assert(pings_made(Seq::<DatasetSummary>::empty()) == 0);
        assert(pings_made(seq![x]) == pings_made(Seq::<DatasetSummary>::empty()) + x.pings as nat);
    }
    if b.len() == 0 {
        assert(a + b =~= a);
        assert(pings_made(a) + pings_made(b) == pings_made(a));
    } else {
        law_pings_add_up(a, b.drop_last());
        assert((a + b).drop_last() =~= a + b.drop_last());
        assert((a + b).last() == b.last());
        assert(pings_made(a + b) == pings_made(a) + pings_made(b));
    }
}

/// The layers that were taken in are those that are neither recordings nor made of
/// them.
pub proof fn law_imported(kinds: Seq<Seq<char>>)
    ensures
        imported(kinds) == kinds.filter(
            |k: Seq<char>| k == "raster"@ || k == "vector"@,
        ).len(),
    decreases kinds.len(),
{
    reveal(Seq::filter);
    if kinds.len() > 0 {
        law_imported(kinds.drop_last());
    }
}

/// Each system is named once in a row: no two neighbours are the same, and none that
/// was asked for is lost. Degrees come first.
pub proof fn law_systems(asked: Seq<u32>, local: Option<u32>)
    ensures
        ({
            let r = without_repeats(codes_asked(asked, local));
            &&& r.len() > 0 && r[0] == 4326
            &&& forall|i: int| 0 <= i < r.len() - 1 ==> #[trigger] r[i] != r[i + 1]
            &&& forall|c: u32| asked.contains(c) ==> #[trigger] r.contains(c)
            &&& asked.len() == 0 && local is Some ==> r.contains(local->0)
            &&& forall|c: u32| #[trigger]
                r.contains(c) ==> c == 4326 || asked.contains(c) || Some(c) == local
        }),
{
    let s = codes_asked(asked, local);
    lemma_without_repeats(s);
    let r = without_repeats(s);
    assert(s[0] == 4326);
    assert forall|c: u32| asked.contains(c) implies #[trigger] r.contains(c) by {
        let i = choose|i: int| 0 <= i < asked.len() && asked[i] == c;
        assert(s[i + 1] == c);
        assert(s.contains(c));
    }
    if asked.len() == 0 && local is Some {
        assert(s[1] == local->0);
        assert(s.contains(local->0));
    }
    assert forall|c: u32| #[trigger] r.contains(c) implies c == 4326 || asked.contains(c) || Some(c)
        == local by {
        assert(s.contains(c));
        let i = choose|i: int| 0 <= i < s.len() && s[i] == c;
        if i > 0 && asked.len() > 0 {
            assert(asked[i - 1] == c);
        }
    }
}

proof fn lemma_without_repeats(s: Seq<u32>)
    requires
        s.len() > 0,
    ensures
        without_repeats(s).len() > 0,
        without_repeats(s)[0] == s[0],
        without_repeats(s).last() == s.last(),
        forall|i: int|
            0 <= i < without_repeats(s).len() - 1 ==> #[trigger] without_repeats(s)[i]
                != without_repeats(s)[i + 1],
        forall|c: u32| #[trigger] without_repeats(s).contains(c) <==> s.contains(c),
    decreases s.len(),
{
    if s.len() > 1 {
        let t = s.drop_last();
        lemma_without_repeats(t);
        let u = without_repeats(t);
        let r = without_repeats(s);
        assert(t.last() == s[s.len() - 2]);
        assert forall|c: u32| #[trigger] r.contains(c) <==> s.contains(c) by {
            assert(u.contains(c) <==> t.contains(c));
            if s.contains(c) {
                let i = choose|i: int| 0 <= i < s.len() && s[i] == c;
                if i < t.len() {
                    assert(t[i] == c);
                } else if r.len() > u.len() {
                    assert(r[r.len() - 1] == c);
                } else {
                    assert(t[t.len() - 1] == c);
                }
                if t.contains(c) {
                    let j = choose|j: int| 0 <= j < u.len() && u[j] == c;
                    assert(r[j] == c);
                }
            }
            if r.contains(c) {
                let j = choose|j: int| 0 <= j < r.len() && r[j] == c;
                if j < u.len() {
                    assert(u[j] == c);
                    let i = choose|i: int| 0 <= i < t.len() && t[i] == c;
                    assert(s[i] == c);
                } else {
                    assert(s[s.len() - 1] == c);
                }
            }
        }
    }
}

/// The span of some times begins with one of them and none begins before it, and ends
/// with one of them and none ends behind it.
pub proof fn law_span(t: Seq<(u64, u64)>)
    requires
        forall|i: int|
            0 <= i < t.len() ==> !order::nan64((#[trigger] t[i]).0) && !order::nan64(t[i].1),
    ensures
        span_of(t) is None <==> t.len() == 0,
        span_of(t) matches Some(s) ==> {
            &&& !order::nan64(s.0) && !order::nan64(s.1)
            &&& exists|i: int| 0 <= i < t.len() && (#[trigger] t[i]).0 == s.0
            &&& exists|i: int| 0 <= i < t.len() && (#[trigger] t[i]).1 == s.1
            &&& forall|i: int|
                0 <= i < t.len() ==> !order::less64((#[trigger] t[i]).0, s.0) && !order::less64(
                    s.1,
                    t[i].1,
                )
        },
    decreases t.len(),
{
    if t.len() > 0 {
        let f = t.drop_last();
        assert forall|i: int| 0 <= i < f.len() implies !order::nan64((#[trigger] f[i]).0)
            && !order::nan64(f[i].1) by {
            assert(t[i] == f[i]);
        }
        law_span(f);
        let n = t.len() - 1;
        assert(t[n] == t.last());
        let s = span_of(t)->0;
        if f.len() == 0 {
            assert(t[0] == s);
        } else {
            let u = span_of(f)->0;
            let i = choose|i: int| 0 <= i < f.len() && (#[trigger] f[i]).0 == u.0;
            let j = choose|j: int| 0 <= j < f.len() && (#[trigger] f[j]).1 == u.1;
            assert(t[i] == f[i] && t[j] == f[j]);
            assert(s.0 == t[i].0 || s.0 == t[n].0);
            assert(s.1 == t[j].1 || s.1 == t[n].1);
            assert forall|k: int| 0 <= k < t.len() implies !order::less64((#[trigger] t[k]).0, s.0)
                && !order::less64(s.1, t[k].1) by {
                if k < n {
                    assert(f[k] == t[k]);
                }
            }
        }
    }
}

/// The worst of some distances is one of them that is a number, and none that is a
/// number is worse.
pub proof fn law_worst(d: Seq<u64>)
    ensures
        worst_of(d) is None <==> forall|i: int|
            0 <= i < d.len() ==> !order::finite64(#[trigger] d[i]),
        worst_of(d) matches Some(w) ==> order::finite64(w) && d.contains(w) && forall|i: int|
            0 <= i < d.len() && order::finite64(#[trigger] d[i]) ==> !order::less64(w, d[i]),
    decreases d.len(),
{
    if d.len() > 0 {
        let f = d.drop_last();
        law_worst(f);
        let n = d.len() - 1;
        assert(d[n] == d.last());
        assert(forall|i: int| 0 <= i < f.len() ==> #[trigger] f[i] == d[i]);
        if let Some(u) = worst_of(f) {
            let i = choose|i: int| 0 <= i < f.len() && f[i] == u;
            assert(d[i] == u);
            let w = worst_of(d)->0;
            assert(w == u || w == d[n]);
            assert forall|k: int| 0 <= k < d.len() && order::finite64(#[trigger] d[k]) implies
                !order::less64(w, d[k]) by {
                if k < n {
                    assert(f[k] == d[k]);
                }
            }
        } else {
            assert(forall|i: int| 0 <= i < f.len() ==> !order::finite64(#[trigger] f[i]));
            assert forall|k: int| 0 <= k < n implies !order::finite64(#[trigger] d[k]) by {
                assert(f[k] == d[k]);
            }
        }
    }
}

} // verus!
