//! The words of the survey report that do not change from one to the next, and
//! the style sheet.

use vstd::prelude::*;

verus! {

/// What the positions rest on, up to the layback.
pub const POSITIONING: &'static str = r#"<section class="callout">
  <h2>Positioning</h2>
  <p>Contact positions are derived from the vessel GNSS antenna, offset astern
  by a constant layback of "#;

/// What the positions rest on, behind the layback. Every report carries it: the
/// imagery is placed by a constant layback with no reference grid behind it,
/// and a reader who takes a position as accurate to the metre will look in the
/// wrong place.
pub const POSITIONING_REST: &'static str = r#" m to the towfish, along the smoothed course
  over ground. The cable bounds that offset's <em>length</em> to about a metre.
  Its <em>bearing</em> is not observed by any sensor in this recording.</p>
  <p>On straight run lines, treat positions as accurate to <strong>5&ndash;10 m</strong>.
  <strong>In turns they are worse, and by an unbounded amount.</strong> A constant
  offset astern places the fish wide of the arc the vessel actually sailed;
  a towed body on a cable does the opposite and cuts inside it. Measured on
  these recordings, simply choosing between those two placements moves a
  contact by 9&ndash;15 m at the median while the vessel is turning, and by up
  to 60 m in the tightest turns. Contacts found on a turn should be treated as
  indicative until re-run on a straight line.</p>
  <p>The gap closes only when the fish has settled, and on a survey flown as
  short lines with frequent turns it rarely does: a towed body needs roughly
  three cable lengths of straight running to forget the last turn, and on these
  recordings 92% of pings are inside that. The steady state a constant offset
  assumes is close to never reached.</p>
  <p>Overlap between adjacent lines is not a check on any of this. Sonar
  brightness depends on the direction it was looked at from &mdash; the
  incidence angle on the local slope, and which side of an object its shadow
  falls &mdash; so two passes over the same ground on reciprocal headings do not
  produce comparable pictures. Correlated directly, imagery from one line
  against itself matches at r&nbsp;=&nbsp;0.70 and falls off over a metre or
  two; the same test across headings returns r&nbsp;=&nbsp;0.04 to 0.07 with no
  peak at all. The mosaic therefore cannot be verified against itself, and where
  two passes cover the same seabed the chart shows the better-angled look rather
  than an average of two that agree.</p>
  <p>None of this is improved by re-processing. Closing it needs either a
  reference grid to register the imagery against, or a sensor on the fish that
  measures its bearing from the tow point.</p>
</section>
"#;

/// The head of the table of how far the models of the cable disagree.
pub const DISAGREEMENT: &'static str = "<section><h3>Measured model disagreement</h3>\n<p>How far apart the constant-astern, wake-following and taut-cable placements put the fish, over each recording. Not an error bar &mdash; nothing here observes where the fish was &mdash; but a floor under one.</p>\n<table class=\"grid\">\n<thead><tr><th>Recording</th><th>median</th><th>95th percentile</th><th>speed of sound</th></tr></thead>\n<tbody>\n";

/// What the instrument measures, up to what the beam reached. The picture looks
/// like a map of the seabed and is not one.
pub const IMAGERY: &'static str = r#"<section class="callout">
  <h2>What the imagery is</h2>
  <p>A side scan sonar records the <em>strength of the echo</em> returning at each
  instant after the transmit pulse. Every sample is an amplitude against a
  travel time; distance is that time multiplied by the speed of sound. Nothing
  in it is a depth. A bright pixel means a strong return &mdash; hard, rough, or
  angled towards the sonar &mdash; and a dark one means a weak return or an
  acoustic shadow. Two pixels of equal brightness can be at very different
  depths.</p>
  <p>Heights quoted for contacts are derived from shadow length and the flying
  height, not measured. Depth beneath the towfish comes from its pressure sensor
  and its own bottom tracking, along the track line only.</p>
  <p>The transducers look sideways and downwards, not straight down: the array
  is depressed 33&deg; with a 50&deg; vertical beam, so it lights the seabed
  between 32&deg; and 82&deg; off vertical. "#;

/// What the instrument measures, behind what the beam reached.
pub const IMAGERY_REST: &'static str = r#" The band inside that inner
  figure &mdash; directly beneath the fish &mdash; is filled in at the lowest
  priority so the chart has no hole down the middle of every pass, but it is the
  edge of the beam looking at a specular return, and it should be read as fill
  rather than as coverage.</p>
</section>
"#;

/// That there is nothing to look at.
pub const NO_CHARTS: &'static str = "<section class=\"callout\">\n<h2>No charts</h2>\n<p>This report has no map views. The viewer draws them, and it asks first: open the project and press <b>Report</b> to choose what each chart should show.</p>\n</section>\n";

/// How well the positions are known, up to the distance.
pub const CAUTION: &'static str = "<p class=\"lede warn\">Positions below are quoted to the metre because the projections are exact. They are not known to the metre: the layback models disagree by up to ";

/// How well the positions are known, behind the distance.
pub const CAUTION_REST: &'static str = " m over these recordings, and that is a floor under the uncertainty rather than a measurement of it. See <em>Positioning</em>.</p>\n";

/// The style sheet, for the screen and for paper.
pub const STYLE: &'static str = r#"
:root {
  --ink: #14181d; --muted: #5b6570; --rule: #d8dde3; --paper: #ffffff;
  --accent: #0f6d8c; --flag: #b4471f; --band: #f4f6f8;
}
* { box-sizing: border-box; }
body {
  margin: 0; padding: 0 0 4rem; background: var(--paper); color: var(--ink);
  font: 10.5pt/1.55 "Source Serif 4", Charter, Georgia, serif;
  -webkit-print-color-adjust: exact; print-color-adjust: exact;
}
header, section, footer { max-width: 190mm; margin: 0 auto; padding: 0 12mm; }
h1 { font: 600 26pt/1.15 "Archivo", Inter, system-ui, sans-serif; margin: .2em 0 .6em; letter-spacing: -.01em; }
h2 { font: 600 13pt/1.3 "Archivo", Inter, system-ui, sans-serif; margin: 2.2em 0 .7em;
     padding-bottom: .35em; border-bottom: 1.5px solid var(--ink); letter-spacing: -.005em; }
.eyebrow { font: 600 8.5pt/1 "IBM Plex Mono", ui-monospace, monospace;
           letter-spacing: .14em; text-transform: uppercase; color: var(--accent); margin-top: 18mm; }
.cover { border-bottom: 3px solid var(--ink); padding-bottom: 1.5em; margin-bottom: 1em; }
dl.meta { display: grid; grid-template-columns: max-content 1fr; gap: .25em 1.5em; margin: 0; }
dl.meta dt { font: 600 8.5pt/1.6 "IBM Plex Mono", ui-monospace, monospace;
             text-transform: uppercase; letter-spacing: .06em; color: var(--muted); }
dl.meta dd { margin: 0; }
.notes { color: var(--muted); margin-top: 1em; }
.lede { color: var(--muted); margin-top: -.3em; }

.callout { background: var(--band); border-left: 3px solid var(--flag);
           padding: .9em 1.2em; margin: 1.6em auto; max-width: 190mm; }
.callout h2 { margin: 0 0 .4em; border: 0; padding: 0; font-size: 10.5pt;
              text-transform: uppercase; letter-spacing: .08em; color: var(--flag); }
.callout p { margin: 0; }

table.grid { width: 100%; border-collapse: collapse; font-size: 9pt; margin-top: .4em; }
table.grid th, table.grid td { padding: .38em .55em; text-align: left;
                               border-bottom: .5px solid var(--rule); vertical-align: top; }
table.grid thead th { font: 600 8pt/1.3 "Archivo", Inter, system-ui, sans-serif;
                      text-transform: uppercase; letter-spacing: .05em;
                      border-bottom: 1.2px solid var(--ink); white-space: nowrap; }
table.grid tr.sub th { font-weight: 500; text-transform: none; letter-spacing: 0;
                       border-bottom: 1.2px solid var(--ink); color: var(--muted); }
th.crs { text-align: center; border-left: .5px solid var(--rule); }
th.crs .epsg { display: block; font-weight: 400; text-transform: none;
               letter-spacing: 0; color: var(--muted); font-size: 7.5pt; }
td.num, th.num { text-align: right; font-family: "IBM Plex Mono", ui-monospace, monospace;
                 font-size: 8.5pt; white-space: nowrap; font-variant-numeric: tabular-nums; }
td.id { font-family: "IBM Plex Mono", ui-monospace, monospace; font-weight: 600; }
tbody tr:nth-child(even) { background: #fafbfc; }

.overview, .snap { width: 100%; border: .5px solid var(--rule); margin: .6em 0; }
/* Two columns, so the pair of chart crops sits above the pair of sonar crops
   and each band lines up under the other. Four across a page would be too
   small to argue a classification from, which is what these are for. */
.snaps { display: grid; grid-template-columns: 1fr 1fr; gap: 4px 12px;
         align-items: start; break-inside: avoid; }
.snaps figure { min-width: 0; margin: 0; }
.snaps figcaption {
  font-size: 10px; letter-spacing: .08em; text-transform: uppercase;
  color: #667; margin-top: -.3em;
}
.sheet { break-before: page; }
dl.detail { display: grid; grid-template-columns: max-content 1fr; gap: .2em 1.4em;
            font-size: 9.5pt; margin: .8em 0; }
dl.detail dt { font: 600 8pt/1.7 "IBM Plex Mono", ui-monospace, monospace;
               text-transform: uppercase; letter-spacing: .06em; color: var(--muted); }
dl.detail dd { margin: 0; font-variant-numeric: tabular-nums; }
.note { background: var(--band); padding: .7em .9em; margin: .8em 0 0; font-size: 9.5pt; }
footer { margin-top: 3em; padding-top: .8em; border-top: .5px solid var(--rule);
         font: 8pt/1.4 "IBM Plex Mono", ui-monospace, monospace; color: var(--muted); }

@media print {
  @page { size: A4; margin: 14mm 0; }
  body { font-size: 9.5pt; }
  header, section, footer { max-width: none; }
  .page { break-inside: avoid; }
  thead { display: table-header-group; }
  tr { break-inside: avoid; }
}

/* ---- summary and legend ---- */
table.summary { max-width: 100%; }
table.summary th {
  width: 34%; text-align: left; font-weight: 500; color: #566;
  background: #f7f9fa;
}
table.summary td { font-variant-numeric: tabular-nums; }
.two-up { display: flex; gap: 16px; align-items: flex-start; margin: 12px 0; }
.two-up > table { flex: 1; min-width: 0; }
/* One frequency band's chart, kept whole on the page: a legend that prints
   away from the picture it describes is worse than no legend. */
.band { margin: 18px 0 0; break-inside: avoid; }
.band h3 {
  font-size: 13px; margin: 0 0 1px; padding-top: 8px;
  border-top: .5px solid var(--rule);
}
.band > .lede { margin: 0 0 6px; }
.legend { margin: 14px 0 4px; break-inside: avoid; }
.legend h3 {
  font-size: 11px; letter-spacing: .08em; text-transform: uppercase;
  color: #667; margin: 0 0 2px;
}
.legend ul { list-style: none; margin: 6px 0 0; padding: 0; }
.legend li {
  display: flex; align-items: center; gap: 10px;
  padding: 3px 0; border-bottom: 1px solid #eef1f3; font-size: 11.5px;
}
.legend .sw {
  width: 26px; height: 12px; border-radius: 2px; flex: none;
  border: 1px solid #ccd3d8; background: #888;
}
.legend .sw.ramp { width: 46px; }
.legend .sw.line { height: 4px; border: none; border-radius: 2px; }
.legend .lg-name { flex: 0 0 auto; font-weight: 500; }
.legend .lg-kind {
  font-family: ui-monospace, monospace; font-size: 10px; color: #889;
  border: 1px solid #dde3e7; border-radius: 3px; padding: 0 4px;
}
.legend .lg-detail { color: #778; flex: 1; text-align: right; }
"#;

} // verus!
