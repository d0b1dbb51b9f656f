//! Which request asks for what.

use vstd::prelude::*;

use crate::server::is_name;
use crate::server::url;
use crate::server::url::segments;
use crate::text;
use crate::text::{chars_of, same, split, text_of};

verus! {

/// What can be asked for.
#[derive(Clone, Copy, PartialEq, Eq, Structural, Debug)]
pub enum Action {
    /// The workspace, and what is open in it.
    State,
    /// Open a project.
    OpenProject,
    /// Create a project.
    NewProject,
    /// Save the open project.
    SaveProject,
    /// Every project of the workspace.
    Projects,
    /// Rename a project.
    RenameProject,
    /// Copy a project.
    DuplicateProject,
    /// Delete a project.
    DeleteProject,
    /// Bring a folder of recordings into the open project.
    ImportDataset,
    /// Take a recording out of the project's folder.
    RemoveDataset,
    /// A free name for a recording.
    DatasetName,
    /// Load a recording.
    LoadDataset,
    /// Let go of a recording.
    UnloadDataset,
    /// The track of a recording.
    Track,
    /// The ping nearest to a position or a time.
    Nearest,
    /// The run lines of a recording.
    Lines,
    /// Draw a block of the waterfall.
    Waterfall,
    /// The picture of a block that was drawn.
    Block,
    /// Where a dot of a block is on the ground.
    Pick,
    /// A tile of a mosaic.
    MosaicTile,
    /// Build a mosaic.
    BuildMosaic,
    /// What a directory holds.
    Browse,
    /// Import a file as a layer.
    ImportLayer,
    /// What an imported vector layer holds.
    Features,
    /// A tile of an imported raster.
    LayerTile,
    /// What a raster holds at a position.
    Sample,
    /// The colour schemes.
    Ramps,
    /// The search plan's settings and what they come to.
    Plan,
    /// Change the search plan's settings.
    SetPlan,
    /// The plan for one azimuth.
    SolvePlan,
    /// Write plans out as files.
    ExportPlan,
    /// The contacts.
    Contacts,
    /// Add or change a contact.
    SetContact,
    /// Remove a contact.
    DropContact,
    /// Keep a picture of a contact.
    Snapshot,
    /// A picture of a contact.
    Snap,
    /// The coordinate systems that suit a position.
    Crs,
    /// A position in other coordinate systems.
    Convert,
    /// Keep a picture for the report.
    ReportImage,
    /// The report.
    Report,
    /// Write the report out.
    SaveReport,
    /// The distance and bearing between two positions.
    Measure,
    /// Nothing that is known.
    Unknown,
}

/// Whether the names of a path fit a pattern, in which `*` stands for any one
/// name.
pub open spec fn fits(seg: Seq<Seq<char>>, pattern: Seq<Seq<char>>) -> bool {
    &&& seg.len() == pattern.len()
    &&& forall|i: int|
        0 <= i < seg.len() ==> #[trigger] pattern[i] == "*"@ || seg[i] == pattern[i]
}

/// The names of a path that stand where a pattern has a `*`.
pub open spec fn taken(seg: Seq<Seq<char>>, pattern: Seq<Seq<char>>) -> Seq<Seq<char>>
    decreases seg.len(),
{
    if seg.len() == 0 || pattern.len() == 0 {
        Seq::empty()
    } else if pattern.last() == "*"@ {
        taken(seg.drop_last(), pattern.drop_last()).push(seg.last())
    } else {
        taken(seg.drop_last(), pattern.drop_last())
    }
}

/// Whether a request is one of those that a method and a pattern describe.
pub open spec fn asks(
    method: Seq<char>,
    seg: Seq<Seq<char>>,
    m: Seq<char>,
    pattern: Seq<char>,
) -> bool {
    method == m && fits(seg, text::split_on(pattern, '/'))
}

/// What a request asks for.
pub open spec fn asked(method: Seq<char>, seg: Seq<Seq<char>>) -> Action {
    if asks(method, seg, "GET"@, "api/state"@) {
        Action::State
    } else if asks(method, seg, "POST"@, "api/project/open"@) {
        Action::OpenProject
    } else if asks(method, seg, "POST"@, "api/project/new"@) {
        Action::NewProject
    } else if asks(method, seg, "POST"@, "api/project/save"@) {
        Action::SaveProject
    } else if asks(method, seg, "GET"@, "api/projects"@) {
        Action::Projects
    } else if asks(method, seg, "POST"@, "api/project/rename"@) {
        Action::RenameProject
    } else if asks(method, seg, "POST"@, "api/project/duplicate"@) {
        Action::DuplicateProject
    } else if asks(method, seg, "POST"@, "api/project/delete"@) {
        Action::DeleteProject
    } else if asks(method, seg, "POST"@, "api/dataset/import"@) {
        Action::ImportDataset
    } else if asks(method, seg, "POST"@, "api/dataset/remove"@) {
        Action::RemoveDataset
    } else if asks(method, seg, "GET"@, "api/dataset/name"@) {
        Action::DatasetName
    } else if asks(method, seg, "POST"@, "api/dataset/load"@) {
        Action::LoadDataset
    } else if asks(method, seg, "POST"@, "api/dataset/unload"@) {
        Action::UnloadDataset
    } else if asks(method, seg, "GET"@, "api/dataset/*/track"@) {
        Action::Track
    } else if asks(method, seg, "GET"@, "api/dataset/*/nearest"@) {
        Action::Nearest
    } else if asks(method, seg, "GET"@, "api/dataset/*/lines"@) {
        Action::Lines
    } else if asks(method, seg, "POST"@, "api/waterfall"@) {
        Action::Waterfall
    } else if asks(method, seg, "GET"@, "api/waterfall/*"@) {
        Action::Block
    } else if asks(method, seg, "POST"@, "api/waterfall/pick"@) {
        Action::Pick
    } else if asks(method, seg, "GET"@, "api/mosaic/*/*/*/*/*"@) {
        Action::MosaicTile
    } else if asks(method, seg, "POST"@, "api/mosaic/build"@) {
        Action::BuildMosaic
    } else if asks(method, seg, "GET"@, "api/browse"@) {
        Action::Browse
    } else if asks(method, seg, "POST"@, "api/layers/import"@) {
        Action::ImportLayer
    } else if asks(method, seg, "GET"@, "api/layers/*/features"@) {
        Action::Features
    } else if asks(method, seg, "GET"@, "api/layer/*/*/*/*"@) {
        Action::LayerTile
    } else if asks(method, seg, "GET"@, "api/layers/*/sample"@) {
        Action::Sample
    } else if asks(method, seg, "GET"@, "api/ramps"@) {
        Action::Ramps
    } else if asks(method, seg, "GET"@, "api/plan"@) {
        Action::Plan
    } else if asks(method, seg, "POST"@, "api/plan"@) {
        Action::SetPlan
    } else if asks(method, seg, "GET"@, "api/plan/solve"@) {
        Action::SolvePlan
    } else if asks(method, seg, "POST"@, "api/plan/export"@) {
        Action::ExportPlan
    } else if asks(method, seg, "GET"@, "api/contacts"@) {
        Action::Contacts
    } else if asks(method, seg, "POST"@, "api/contacts"@) {
        Action::SetContact
    } else if asks(method, seg, "DELETE"@, "api/contacts/*"@) {
        Action::DropContact
    } else if asks(method, seg, "POST"@, "api/contacts/*/snapshot"@) {
        Action::Snapshot
    } else if asks(method, seg, "GET"@, "api/snap/*"@) {
        Action::Snap
    } else if asks(method, seg, "GET"@, "api/crs"@) {
        Action::Crs
    } else if asks(method, seg, "GET"@, "api/convert"@) {
        Action::Convert
    } else if asks(method, seg, "POST"@, "api/report/image/*"@) {
        Action::ReportImage
    } else if asks(method, seg, "GET"@, "api/report"@) {
        Action::Report
    } else if asks(method, seg, "POST"@, "api/report/save"@) {
        Action::SaveReport
    } else if asks(method, seg, "GET"@, "api/measure"@) {
        Action::Measure
    } else {
        Action::Unknown
    }
}

/// The pattern of a request, by what it asks for.
pub open spec fn pattern_of(a: Action) -> Seq<char> {
    match a {
        Action::State => "api/state"@,
        Action::OpenProject => "api/project/open"@,
        Action::NewProject => "api/project/new"@,
        Action::SaveProject => "api/project/save"@,
        Action::Projects => "api/projects"@,
        Action::RenameProject => "api/project/rename"@,
        Action::DuplicateProject => "api/project/duplicate"@,
        Action::DeleteProject => "api/project/delete"@,
        Action::ImportDataset => "api/dataset/import"@,
        Action::RemoveDataset => "api/dataset/remove"@,
        Action::DatasetName => "api/dataset/name"@,
        Action::LoadDataset => "api/dataset/load"@,
        Action::UnloadDataset => "api/dataset/unload"@,
        Action::Track => "api/dataset/*/track"@,
        Action::Nearest => "api/dataset/*/nearest"@,
        Action::Lines => "api/dataset/*/lines"@,
        Action::Waterfall => "api/waterfall"@,
        Action::Block => "api/waterfall/*"@,
        Action::Pick => "api/waterfall/pick"@,
        Action::MosaicTile => "api/mosaic/*/*/*/*/*"@,
        Action::BuildMosaic => "api/mosaic/build"@,
        Action::Browse => "api/browse"@,
        Action::ImportLayer => "api/layers/import"@,
        Action::Features => "api/layers/*/features"@,
        Action::LayerTile => "api/layer/*/*/*/*"@,
        Action::Sample => "api/layers/*/sample"@,
        Action::Ramps => "api/ramps"@,
        Action::Plan => "api/plan"@,
        Action::SetPlan => "api/plan"@,
        Action::SolvePlan => "api/plan/solve"@,
        Action::ExportPlan => "api/plan/export"@,
        Action::Contacts => "api/contacts"@,
        Action::SetContact => "api/contacts"@,
        Action::DropContact => "api/contacts/*"@,
        Action::Snapshot => "api/contacts/*/snapshot"@,
        Action::Snap => "api/snap/*"@,
        Action::Crs => "api/crs"@,
        Action::Convert => "api/convert"@,
        Action::ReportImage => "api/report/image/*"@,
        Action::Report => "api/report"@,
        Action::SaveReport => "api/report/save"@,
        Action::Measure => "api/measure"@,
        Action::Unknown => ""@,
    }
}

fn fitting(seg: &Vec<Vec<char>>, pattern: &str) -> (r: bool)
    ensures
        r == fits(text::chars_views(seg@), text::split_on(pattern@, '/')),
{
    let p = split(&chars_of(pattern), '/');
    let ghost names = text::chars_views(seg@);
    let ghost want = text::split_on(pattern@, '/');
    proof {
        assert(names.len() == seg@.len());
        assert(want.len() == p@.len());
    }
    if seg.len() != p.len() {
        return false;
    }
    let mut i: usize = 0;
    while i < seg.len()
        invariant
            i <= seg@.len() == p@.len(),
            names == text::chars_views(seg@),
            want == text::chars_views(p@),
            want == text::split_on(pattern@, '/'),
            forall|j: int| 0 <= j < i ==> #[trigger] want[j] == "*"@ || names[j] == want[j],
        decreases seg.len() - i,
    {
        proof {
            assert(names[i as int] == seg@[i as int]@);
            assert(want[i as int] == p@[i as int]@);
        }
        if !is_name(&p[i], "*") {
            let a = text_of(&p[i]);
            if !is_name(&seg[i], a.as_str()) {
                proof {
                    assert(want[i as int] != "*"@ && names[i as int] != want[i as int]);
                    assert(!fits(names, want));
                }
                return false;
            }
        }
        i += 1;
    }
    true
}

fn asking(method: &str, seg: &Vec<Vec<char>>, m: &str, pattern: &str) -> (r: bool)
    ensures
        r == asks(method@, text::chars_views(seg@), m@, pattern@),
{
    same(method, m) && fitting(seg, pattern)
}

fn action(method: &str, seg: &Vec<Vec<char>>) -> (a: Action)
    ensures
        a == asked(method@, text::chars_views(seg@)),
{
    if asking(method, seg, "GET", "api/state") {
        Action::State
    } else if asking(method, seg, "POST", "api/project/open") {
        Action::OpenProject
    } else if asking(method, seg, "POST", "api/project/new") {
        Action::NewProject
    } else if asking(method, seg, "POST", "api/project/save") {
        Action::SaveProject
    } else if asking(method, seg, "GET", "api/projects") {
        Action::Projects
    } else if asking(method, seg, "POST", "api/project/rename") {
        Action::RenameProject
    } else if asking(method, seg, "POST", "api/project/duplicate") {
        Action::DuplicateProject
    } else if asking(method, seg, "POST", "api/project/delete") {
        Action::DeleteProject
    } else if asking(method, seg, "POST", "api/dataset/import") {
        Action::ImportDataset
    } else if asking(method, seg, "POST", "api/dataset/remove") {
        Action::RemoveDataset
    } else if asking(method, seg, "GET", "api/dataset/name") {
        Action::DatasetName
    } else if asking(method, seg, "POST", "api/dataset/load") {
        Action::LoadDataset
    } else if asking(method, seg, "POST", "api/dataset/unload") {
        Action::UnloadDataset
    } else if asking(method, seg, "GET", "api/dataset/*/track") {
        Action::Track
    } else if asking(method, seg, "GET", "api/dataset/*/nearest") {
        Action::Nearest
    } else if asking(method, seg, "GET", "api/dataset/*/lines") {
        Action::Lines
    } else if asking(method, seg, "POST", "api/waterfall") {
        Action::Waterfall
    } else if asking(method, seg, "GET", "api/waterfall/*") {
        Action::Block
    } else if asking(method, seg, "POST", "api/waterfall/pick") {
        Action::Pick
    } else if asking(method, seg, "GET", "api/mosaic/*/*/*/*/*") {
        Action::MosaicTile
    } else if asking(method, seg, "POST", "api/mosaic/build") {
        Action::BuildMosaic
    } else if asking(method, seg, "GET", "api/browse") {
        Action::Browse
    } else if asking(method, seg, "POST", "api/layers/import") {
        Action::ImportLayer
    } else if asking(method, seg, "GET", "api/layers/*/features") {
        Action::Features
    } else if asking(method, seg, "GET", "api/layer/*/*/*/*") {
        Action::LayerTile
    } else if asking(method, seg, "GET", "api/layers/*/sample") {
        Action::Sample
    } else if asking(method, seg, "GET", "api/ramps") {
        Action::Ramps
    } else if asking(method, seg, "GET", "api/plan") {
        Action::Plan
    } else if asking(method, seg, "POST", "api/plan") {
        Action::SetPlan
    } else if asking(method, seg, "GET", "api/plan/solve") {
        Action::SolvePlan
    } else if asking(method, seg, "POST", "api/plan/export") {
        Action::ExportPlan
    } else if asking(method, seg, "GET", "api/contacts") {
        Action::Contacts
    } else if asking(method, seg, "POST", "api/contacts") {
        Action::SetContact
    } else if asking(method, seg, "DELETE", "api/contacts/*") {
        Action::DropContact
    } else if asking(method, seg, "POST", "api/contacts/*/snapshot") {
        Action::Snapshot
    } else if asking(method, seg, "GET", "api/snap/*") {
        Action::Snap
    } else if asking(method, seg, "GET", "api/crs") {
        Action::Crs
    } else if asking(method, seg, "GET", "api/convert") {
        Action::Convert
    } else if asking(method, seg, "POST", "api/report/image/*") {
        Action::ReportImage
    } else if asking(method, seg, "GET", "api/report") {
        Action::Report
    } else if asking(method, seg, "POST", "api/report/save") {
        Action::SaveReport
    } else if asking(method, seg, "GET", "api/measure") {
        Action::Measure
    } else {
        Action::Unknown
    }
}

fn pattern(a: Action) -> (p: &'static str)
    ensures
        p@ == pattern_of(a),
{
    match a {
        Action::State => "api/state",
        Action::OpenProject => "api/project/open",
        Action::NewProject => "api/project/new",
        Action::SaveProject => "api/project/save",
        Action::Projects => "api/projects",
        Action::RenameProject => "api/project/rename",
        Action::DuplicateProject => "api/project/duplicate",
        Action::DeleteProject => "api/project/delete",
        Action::ImportDataset => "api/dataset/import",
        Action::RemoveDataset => "api/dataset/remove",
        Action::DatasetName => "api/dataset/name",
        Action::LoadDataset => "api/dataset/load",
        Action::UnloadDataset => "api/dataset/unload",
        Action::Track => "api/dataset/*/track",
        Action::Nearest => "api/dataset/*/nearest",
        Action::Lines => "api/dataset/*/lines",
        Action::Waterfall => "api/waterfall",
        Action::Block => "api/waterfall/*",
        Action::Pick => "api/waterfall/pick",
        Action::MosaicTile => "api/mosaic/*/*/*/*/*",
        Action::BuildMosaic => "api/mosaic/build",
        Action::Browse => "api/browse",
        Action::ImportLayer => "api/layers/import",
        Action::Features => "api/layers/*/features",
        Action::LayerTile => "api/layer/*/*/*/*",
        Action::Sample => "api/layers/*/sample",
        Action::Ramps => "api/ramps",
        Action::Plan => "api/plan",
        Action::SetPlan => "api/plan",
        Action::SolvePlan => "api/plan/solve",
        Action::ExportPlan => "api/plan/export",
        Action::Contacts => "api/contacts",
        Action::SetContact => "api/contacts",
        Action::DropContact => "api/contacts/*",
        Action::Snapshot => "api/contacts/*/snapshot",
        Action::Snap => "api/snap/*",
        Action::Crs => "api/crs",
        Action::Convert => "api/convert",
        Action::ReportImage => "api/report/image/*",
        Action::Report => "api/report",
        Action::SaveReport => "api/report/save",
        Action::Measure => "api/measure",
        Action::Unknown => "",
    }
}

/// Find out what a request asks for, and the names in its path that say of
/// what.
pub fn route(method: &str, path: &str) -> (r: (Action, Vec<Vec<char>>))
    ensures
        r.0 == asked(method@, url::names_of(path@)),
        r.0 is Unknown ==> r.1@.len() == 0,
        r.0 !is Unknown ==> text::chars_views(r.1@) == taken(
            url::names_of(path@),
            text::split_on(pattern_of(r.0), '/'),
        ),
{
    let seg = segments(path);
    let a = action(method, &seg);
    let mut out: Vec<Vec<char>> = Vec::new();
    if a == Action::Unknown {
        return (a, out);
    }
    let p = split(&chars_of(pattern(a)), '/');
    let ghost names = text::chars_views(seg@);
    let ghost want = text::split_on(pattern_of(a), '/');
    proof {
        lemma_fits(method@, names);
        assert(names.len() == seg@.len());
        assert(want.len() == p@.len());
        assert(names.take(0) =~= Seq::empty());
        assert(text::chars_views(out@) =~= Seq::empty());
    }
    let mut i: usize = 0;
    while i < seg.len()
        invariant
            i <= seg@.len() == p@.len(),
            names == text::chars_views(seg@),
            want == text::chars_views(p@),
            text::chars_views(out@) == taken(names.take(i as int), want.take(i as int)),
        decreases seg.len() - i,
    {
        let ghost before = text::chars_views(out@);
        proof {
            assert(names[i as int] == seg@[i as int]@);
            assert(want[i as int] == p@[i as int]@);
            assert(names.take(i + 1).drop_last() =~= names.take(i as int));
            assert(want.take(i + 1).drop_last() =~= want.take(i as int));
            assert(names.take(i + 1).last() == names[i as int]);
            assert(want.take(i + 1).last() == want[i as int]);
        }
        if is_name(&p[i], "*") {
            let s = text_of(&seg[i]);
            let c = chars_of(s.as_str());
            let ghost one = c@;
            out.push(c);
            proof {
                assert(text::chars_views(out@) =~= before.push(one));
            }
        }
        i += 1;
    }
    proof {
        assert(names.take(i as int) =~= names);
        assert(want.take(i as int) =~= want);
    }
    (a, out)
}

proof fn lemma_fits(method: Seq<char>, seg: Seq<Seq<char>>)
    requires
        asked(method, seg) !is Unknown,
    ensures
        fits(seg, text::split_on(pattern_of(asked(method, seg)), '/')),
{
}

/// What a request asks for is something whose pattern its path fits.
pub proof fn law_asked_fits(method: Seq<char>, seg: Seq<Seq<char>>)
    ensures
        asked(method, seg) !is Unknown ==> fits(
            seg,
            text::split_on(pattern_of(asked(method, seg)), '/'),
        ),
{
}

/// What is taken from a path is what stands where its pattern has a star, in order.
pub proof fn law_stars_are_taken(
    a: Seq<Seq<char>>,
    p: Seq<Seq<char>>,
    b: Seq<Seq<char>>,
    q: Seq<Seq<char>>,
)
    requires
        a.len() == p.len(),
        b.len() == q.len(),
    ensures
        taken(a + b, p + q) == taken(a, p) + taken(b, q),
        forall|x: Seq<char>, w: Seq<char>|
            taken(#[trigger] seq![x], #[trigger] seq![w]) == (if w == "*"@ {
                seq![x]
            } else {
                Seq::empty()
            }),
    decreases b.len(),
{
    assert forall|x: Seq<char>, w: Seq<char>|
        taken(#[trigger] seq![x], #[trigger] seq![w]) == (if w == "*"@ {
            seq![x]
        } else {
            Seq::empty()
        }) by {
        assert(seq![x].drop_last() =~= Seq::empty());
        assert(seq![w].drop_last() =~= Seq::empty());
        assert(taken(Seq::empty(), Seq::empty()) =~= Seq::empty());
        assert(Seq::empty().push(x) =~= seq![x]);
    }
    if b.len() == 0 {
        assert(a + b =~= a);
        assert(p + q =~= p);
        assert(taken(a, p) + taken(b, q) =~= taken(a, p));
    } else {
        law_stars_are_taken(a, p, b.drop_last(), q.drop_last());
        assert((a + b).drop_last() =~= a + b.drop_last());
        assert((p + q).drop_last() =~= p + q.drop_last());
        assert((a + b).last() == b.last());
        assert((p + q).last() == q.last());
        assert(taken(a + b, p + q) =~= taken(a, p) + taken(b, q));
    }
}

} // verus!
