//! The charts of a report, and what their legends say.

use vstd::prelude::*;

use crate::layer;
use crate::layer::Ramp;
use crate::names;
use crate::project::{ChartLayer, ChartSpec, KIND_MOSAIC, KIND_RASTER, KIND_RECORDING, KIND_TRACK};
use crate::report::{Chart, LegendEntry};
use crate::text::{copy, push_str, same};

verus! {

/// What a legend needs to know of a layer.
pub struct LayerFacts {
    pub id: String,
    pub label: String,
    pub kind: String,
    pub colour: String,
    pub info: String,
    /// The colour scheme it is drawn in.
    pub scheme: Ramp,
    /// The colours of that scheme.
    pub stops: Vec<String>,
}

/// A line of a legend.
pub struct Line {
    pub label: Seq<char>,
    pub kind: Seq<char>,
    pub colour: Seq<char>,
    pub ramp: Seq<Seq<char>>,
    pub detail: Seq<char>,
}

impl View for LegendEntry {
    type V = Line;

    open spec fn view(&self) -> Line {
        Line {
            label: self.label@,
            kind: self.kind@,
            colour: self.colour@,
            ramp: names::views(self.ramp@),
            detail: self.detail@,
        }
    }
}

/// A text, or another where it is empty.
pub open spec fn or(s: Seq<char>, d: Seq<char>) -> Seq<char> {
    if s.len() == 0 {
        d
    } else {
        s
    }
}

fn either(s: &str, d: &str) -> (r: String)
    ensures
        r@ == or(s@, d@),
{
    if s.is_empty() {
        copy(d)
    } else {
        copy(s)
    }
}

/// Which of a track's two lines are drawn.
pub open spec fn tracks(fish: bool, boat: bool) -> Seq<char> {
    if fish && boat {
        "towfish and vessel track"@
    } else if fish {
        "towfish track"@
    } else {
        "vessel track"@
    }
}

/// What a legend says of a layer, where it says anything: nothing of a
/// recording, which is a heading, nor of a track of which no line is drawn.
pub open spec fn line_for(l: LayerFacts, fish: bool, boat: bool) -> Option<Line> {
    let label = or(l.label@, l.id@);
    let kind = l.kind@;
    if kind == KIND_RECORDING@ {
        None
    } else if kind == KIND_MOSAIC@ {
        Some(
            Line {
                label,
                kind,
                colour: Seq::empty(),
                ramp: names::views(l.stops@),
                detail: "sidescan backscatter, "@ + layer::ramp_name(l.scheme) + " scheme"@,
            },
        )
    } else if kind == KIND_RASTER@ {
        Some(
            Line {
                label,
                kind,
                colour: Seq::empty(),
                ramp: names::views(l.stops@),
                detail: or(l.info@, "imported grid"@),
            },
        )
    } else if kind == KIND_TRACK@ {
        if !fish && !boat {
            None
        } else {
            Some(
                Line {
                    label,
                    kind,
                    colour: or(l.colour@, "#35b8a6"@),
                    ramp: Seq::empty(),
                    detail: tracks(fish, boat),
                },
            )
        }
    } else {
        Some(
            Line {
                label,
                kind,
                colour: or(l.colour@, "#f0b429"@),
                ramp: Seq::empty(),
                detail: or(l.info@, "imported vectors"@),
            },
        )
    }
}

/// The first layer of an identifier.
pub open spec fn layer_named(l: Seq<LayerFacts>, id: Seq<char>) -> Option<LayerFacts>
    decreases l.len(),
{
    if l.len() == 0 {
        None
    } else if l[0].id@ == id {
        Some(l[0])
    } else {
        layer_named(l.skip(1), id)
    }
}

/// What a legend says of a chart's layer.
pub open spec fn line_of(l: Seq<LayerFacts>, c: ChartLayer) -> Option<Line> {
    if !c.on {
        None
    } else {
        match layer_named(l, c.id@) {
            None => None,
            Some(x) => line_for(x, c.fish, c.boat),
        }
    }
}

/// The lines of a chart's legend: its layers from the top down, those that are
/// drawn and that the project still has.
pub open spec fn lines_of(l: Seq<LayerFacts>, c: Seq<ChartLayer>) -> Seq<Line>
    decreases c.len(),
{
    if c.len() == 0 {
        Seq::empty()
    } else {
        match line_of(l, c.last()) {
            None => lines_of(l, c.drop_last()),
            Some(x) => lines_of(l, c.drop_last()).push(x),
        }
    }
}

/// The lines of a legend.
pub open spec fn lines(e: Seq<LegendEntry>) -> Seq<Line> {
    e.map_values(|x: LegendEntry| x@)
}

fn copies(v: &Vec<String>) -> (r: Vec<String>)
    ensures
        names::views(r@) == names::views(v@),
{
    let mut r: Vec<String> = Vec::new();
    let mut i: usize = 0;
    let ghost want = names::views(v@);
    proof {
        assert(names::views(r@) =~= want.take(0));
    }
    while i < v.len()
        invariant
            i <= v@.len(),
            want == names::views(v@),
            names::views(r@) == want.take(i as int),
        decreases v.len() - i,
    {
        let ghost before = names::views(r@);
        let s = copy(v[i].as_str());
        let ghost one = s@;
        r.push(s);
        i += 1;
        proof {
            assert(names::views(r@) =~= before.push(one));
            assert(want.take(i as int) =~= want.take(i - 1).push(want[i - 1]));
        }
    }
    proof {
        assert(want.take(i as int) =~= want);
    }
    r
}

fn find<'a>(l: &'a Vec<LayerFacts>, id: &str) -> (r: Option<&'a LayerFacts>)
    ensures
        match layer_named(l@, id@) {
            Some(x) => r matches Some(y) && *y == x,
            None => r is None,
        },
{
    let mut i: usize = 0;
    proof {
        assert(l@.skip(0) =~= l@);
    }
    while i < l.len()
        invariant
            i <= l@.len(),
            layer_named(l@, id@) == layer_named(l@.skip(i as int), id@),
        decreases l.len() - i,
    {
        proof {
            assert(l@.skip(i as int)[0] == l@[i as int]);
            assert(l@.skip(i as int).skip(1) =~= l@.skip(i + 1));
        }
        if same(l[i].id.as_str(), id) {
            return Some(&l[i]);
        }
        i += 1;
    }
    None
}

fn entry(l: &LayerFacts, fish: bool, boat: bool) -> (r: Option<LegendEntry>)
    ensures
        match line_for(*l, fish, boat) {
            Some(x) => r matches Some(e) && e@ == x,
            None => r is None,
        },
{
    let kind = l.kind.as_str();
    if same(kind, KIND_RECORDING) {
        return None;
    }
    let label = either(l.label.as_str(), l.id.as_str());
    let none: Vec<String> = Vec::new();
    let empty = String::new();
    proof {
        assert(names::views(none@) =~= Seq::empty());
        assert(empty@ =~= Seq::empty());
    }
    if same(kind, KIND_MOSAIC) {
        let mut detail = copy("sidescan backscatter, ");
        push_str(&mut detail, l.scheme.name());
        push_str(&mut detail, " scheme");
        Some(
            LegendEntry { label, kind: copy(kind), colour: empty, ramp: copies(&l.stops), detail },
        )
    } else if same(kind, KIND_RASTER) {
        let detail = either(l.info.as_str(), "imported grid");
        Some(
            LegendEntry { label, kind: copy(kind), colour: empty, ramp: copies(&l.stops), detail },
        )
    } else if same(kind, KIND_TRACK) {
        if !fish && !boat {
            return None;
        }
        let detail = if fish && boat {
            copy("towfish and vessel track")
        } else if fish {
            copy("towfish track")
        } else {
            copy("vessel track")
        };
        let colour = either(l.colour.as_str(), "#35b8a6");
        Some(LegendEntry { label, kind: copy(kind), colour, ramp: none, detail })
    } else {
        let colour = either(l.colour.as_str(), "#f0b429");
        let detail = either(l.info.as_str(), "imported vectors");
        Some(LegendEntry { label, kind: copy(kind), colour, ramp: none, detail })
    }
}

/// Write the legend of a chart.
pub fn legend_for(l: &Vec<LayerFacts>, chart: &ChartSpec) -> (r: Vec<LegendEntry>)
    ensures
        lines(r@) == lines_of(l@, chart.layers@),
{
    let mut out: Vec<LegendEntry> = Vec::new();
    let c = &chart.layers;
    let mut i: usize = 0;
    proof {
        assert(lines(out@) =~= Seq::empty());
    }
    while i < c.len()
        invariant
            i <= c@.len(),
            lines(out@) == lines_of(l@, c@.take(i as int)),
        decreases c.len() - i,
    {
        let ghost before = lines(out@);
        proof {
            assert(c@.take(i + 1).drop_last() =~= c@.take(i as int));
        }
        if c[i].on {
            match find(l, c[i].id.as_str()) {
                Some(x) => match entry(x, c[i].fish, c[i].boat) {
                    Some(e) => {
                        let ghost one = e@;
                        out.push(e);
                        proof {
                            assert(lines(out@) =~= before.push(one));
                        }
                    },
                    None => {},
                },
                None => {},
            }
        }
        i += 1;
    }
    proof {
        assert(c@.take(i as int) =~= c@);
    }
    out
}

/// A chart of a report.
pub struct Drawn {
    pub title: Seq<char>,
    pub subtitle: Seq<char>,
    pub image: Option<Seq<char>>,
    pub legend: Seq<Line>,
}

/// A text that may be missing.
pub open spec fn seen(s: Option<String>) -> Option<Seq<char>> {
    match s {
        Some(t) => Some(t@),
        None => None,
    }
}

impl View for Chart {
    type V = Drawn;

    open spec fn view(&self) -> Drawn {
        Drawn {
            title: self.title@,
            subtitle: self.subtitle@,
            image: seen(self.image),
            legend: lines(self.legend@),
        }
    }
}

/// Whether a chart is one of those that are asked for: by its kind, and where
/// one is named by its recording.
pub open spec fn is_wanted(c: ChartSpec, kind: Seq<char>, dataset: Option<Seq<char>>) -> bool {
    c.enabled && c.kind@ == kind && (dataset is None || dataset == Some(c.dataset@))
}

/// The charts that are asked for, each with the picture that was rendered of
/// it.
pub open spec fn drawn_of(
    c: Seq<ChartSpec>,
    images: Seq<Option<String>>,
    l: Seq<LayerFacts>,
    kind: Seq<char>,
    dataset: Option<Seq<char>>,
) -> Seq<Drawn>
    decreases c.len(),
{
    if c.len() == 0 {
        Seq::empty()
    } else {
        let before = drawn_of(c.drop_last(), images.drop_last(), l, kind, dataset);
        let x = c.last();
        if is_wanted(x, kind, dataset) {
            before.push(
                Drawn {
                    title: x.title@,
                    subtitle: x.subtitle@,
                    image: seen(images.last()),
                    legend: lines_of(l, x.layers@),
                },
            )
        } else {
            before
        }
    }
}

/// The charts of a report.
pub open spec fn drawn(c: Seq<Chart>) -> Seq<Drawn> {
    c.map_values(|x: Chart| x@)
}

/// Make the charts that are asked for.
pub fn charts_for(
    charts: &Vec<ChartSpec>,
    images: &Vec<Option<String>>,
    l: &Vec<LayerFacts>,
    kind: &str,
    dataset: Option<&str>,
) -> (r: Vec<Chart>)
    requires
        images@.len() == charts@.len(),
    ensures
        drawn(r@) == drawn_of(
            charts@,
            images@,
            l@,
            kind@,
            match dataset {
                Some(d) => Some(d@),
                None => None,
            },
        ),
{
    let ghost of = match dataset {
        Some(d) => Some(d@),
        None => None,
    };
    let mut out: Vec<Chart> = Vec::new();
    let mut i: usize = 0;
    proof {
        assert(drawn(out@) =~= Seq::empty());
    }
    while i < charts.len()
        invariant
            i <= charts@.len() == images@.len(),
            of == (match dataset {
                Some(d) => Some(d@),
                None => None,
            }),
            drawn(out@) == drawn_of(
                charts@.take(i as int),
                images@.take(i as int),
                l@,
                kind@,
                of,
            ),
        decreases charts.len() - i,
    {
        let ghost before = drawn(out@);
        proof {
            assert(charts@.take(i + 1).drop_last() =~= charts@.take(i as int));
            assert(images@.take(i + 1).drop_last() =~= images@.take(i as int));
        }
        let c = &charts[i];
        let fits = match dataset {
            Some(d) => same(c.dataset.as_str(), d),
            None => true,
        };
        if c.enabled && same(c.kind.as_str(), kind) && fits {
            let image = match &images[i] {
                Some(s) => Some(copy(s.as_str())),
                None => None,
            };
            let x = Chart {
                title: copy(c.title.as_str()),
                subtitle: copy(c.subtitle.as_str()),
                image,
                legend: legend_for(l, c),
            };
            let ghost one = x@;
            out.push(x);
            proof {
                assert(drawn(out@) =~= before.push(one));
            }
        }
        i += 1;
    }
    proof {
        assert(charts@.take(i as int) =~= charts@);
        assert(images@.take(i as int) =~= images@);
    }
    out
}

/// A layer that a chart does not draw makes no difference to its legend.
pub proof fn law_legend_shows_what_is_drawn(
    l: Seq<LayerFacts>,
    above: Seq<ChartLayer>,
    x: ChartLayer,
    below: Seq<ChartLayer>,
)
    requires
        !x.on,
    ensures
        lines_of(l, above.push(x) + below) == lines_of(l, above + below),
    decreases below.len(),
{
    let with = above.push(x) + below;
    let without = above + below;
    if below.len() == 0 {
        assert(with =~= above.push(x));
        assert(with.drop_last() =~= above);
        assert(without =~= above);
    } else {
        law_legend_shows_what_is_drawn(l, above, x, below.drop_last());
        assert(with.drop_last() =~= above.push(x) + below.drop_last());
        assert(without.drop_last() =~= above + below.drop_last());
    }
}

/// The lines of a legend are those of the layers that are on, in their order.
pub proof fn law_legend_lines(l: Seq<LayerFacts>, a: Seq<ChartLayer>, b: Seq<ChartLayer>)
    ensures
        lines_of(l, a + b) == lines_of(l, a) + lines_of(l, b),
        forall|x: ChartLayer|
            lines_of(l, #[trigger] seq![x]) == (match line_of(l, x) {
                Some(y) => seq![y],
                None => Seq::empty(),
            }),
    decreases b.len(),
{
    assert forall|x: ChartLayer|
        lines_of(l, #[trigger] seq![x]) == (match line_of(l, x) {
            Some(y) => seq![y],
            None => Seq::empty(),
        }) by {
        assert(seq![x].drop_last() =~= Seq::empty());
        assert(lines_of(l, Seq::empty()) =~= Seq::empty());
        if let Some(y) = line_of(l, x) {
            assert(Seq::empty().push(y) =~= seq![y]);
        }
    }
    if b.len() == 0 {
        assert(a + b =~= a);
        assert(lines_of(l, a) + lines_of(l, b) =~= lines_of(l, a));
    } else {
        law_legend_lines(l, a, b.drop_last());
        assert((a + b).drop_last() =~= a + b.drop_last());
        assert((a + b).last() == b.last());
        assert(lines_of(l, a + b) =~= lines_of(l, a) + lines_of(l, b));
    }
}

/// A line of a legend is under the layer's label, or its name where it has none, and is
/// of the layer's kind. A recording itself has none, and a track none where neither of
/// its two is shown.
pub proof fn law_legend_line(l: LayerFacts, fish: bool, boat: bool)
    ensures
        line_for(l, fish, boat) matches Some(x) ==> x.kind == l.kind@ && (l.label@.len() > 0
            ==> x.label == l.label@) && (l.label@.len() == 0 ==> x.label == l.id@),
        line_for(l, fish, boat) is None <==> l.kind@ == "recording"@ || (l.kind@ == "track"@ && !fish
            && !boat),
{
    reveal_strlit("recording");
    reveal_strlit("mosaic");
    reveal_strlit("raster");
    reveal_strlit("track");
    assert("recording"@.len() == 9 && "mosaic"@.len() == 6 && "track"@.len() == 5);
    assert("raster"@[0] == 'r' && "mosaic"@[0] == 'm' && "raster"@.len() == 6);
}

/// A layer that is found is the first of its name.
pub proof fn law_layer_named(l: Seq<LayerFacts>, id: Seq<char>)
    ensures
        layer_named(l, id) is None <==> forall|i: int|
            0 <= i < l.len() ==> (#[trigger] l[i]).id@ != id,
        layer_named(l, id) matches Some(x) ==> exists|i: int|
            0 <= i < l.len() && #[trigger] l[i] == x && x.id@ == id && forall|j: int|
                0 <= j < i ==> (#[trigger] l[j]).id@ != id,
    decreases l.len(),
{
    if l.len() > 0 {
        if l[0].id@ == id {
            assert(layer_named(l, id) == Some(l[0]));
        } else {
            let r = l.skip(1);
            law_layer_named(r, id);
            if let Some(x) = layer_named(r, id) {
                let i = choose|i: int|
                    0 <= i < r.len() && #[trigger] r[i] == x && x.id@ == id && forall|j: int|
                        0 <= j < i ==> (#[trigger] r[j]).id@ != id;
                assert(l[i + 1] == x);
                assert forall|j: int| 0 <= j < i + 1 implies (#[trigger] l[j]).id@ != id by {
                    if j > 0 {
                        assert(r[j - 1] == l[j]);
                    }
                }
            } else {
                assert forall|i: int| 0 <= i < l.len() implies (#[trigger] l[i]).id@ != id by {
                    if i > 0 {
                        assert(r[i - 1] == l[i]);
                    }
                }
            }
        }
    }
}

/// The charts that are drawn are those that are enabled, of the kind and of the
/// dataset where one is named, in their order, each with its own picture.
pub proof fn law_drawn(
    c: Seq<ChartSpec>,
    images: Seq<Option<String>>,
    l: Seq<LayerFacts>,
    kind: Seq<char>,
    dataset: Option<Seq<char>>,
    x: ChartSpec,
    image: Option<String>,
)
    ensures
        drawn_of(c.push(x), images.push(image), l, kind, dataset).len() == drawn_of(
            c,
            images,
            l,
            kind,
            dataset,
        ).len() + (if x.enabled && x.kind@ == kind && (dataset is None || dataset->0 == x.dataset@) {
            1int
        } else {
            0
        }),
        drawn_of(c, images, l, kind, dataset).is_prefix_of(
            drawn_of(c.push(x), images.push(image), l, kind, dataset),
        ),
        x.enabled && x.kind@ == kind && (dataset is None || dataset->0 == x.dataset@) ==> ({
            let d = drawn_of(c.push(x), images.push(image), l, kind, dataset).last();
            d.title == x.title@ && d.subtitle == x.subtitle@ && (image is Some ==> d.image == Some(
                (image->0)@,
            )) && (image is None ==> d.image is None)
        }),
{
    assert(c.push(x).drop_last() =~= c);
    assert(images.push(image).drop_last() =~= images);
    let d = drawn_of(c, images, l, kind, dataset);
    let e = drawn_of(c.push(x), images.push(image), l, kind, dataset);
    assert(e.subrange(0, d.len() as int) =~= d);
}

} // verus!
