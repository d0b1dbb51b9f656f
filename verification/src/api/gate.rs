//! What a request needs before it is answered, and what it is told where that
//! is missing.

use vstd::prelude::*;

use crate::api;
use crate::api::route::Action;
use crate::api::{Body, Response};

verus! {

/// What a request may need.
#[derive(Clone, Copy, PartialEq, Eq, Structural, Debug)]
pub enum Need {
    /// A body that is JSON.
    Json,
    /// A body that is a project.
    Project,
    /// A body that is what this request carries.
    Request,
    /// A body that is the settings of a search plan.
    PlanSettings,
    /// A body that is a contact.
    Contact,
    /// The name of a project.
    Name,
    /// The path of a file or a folder.
    Path,
    /// An open project, to bring something into.
    ProjectToFill,
    /// An open project, to take something out of.
    ProjectToChange,
    /// An open project.
    OpenProject,
    /// An open project, to put a layer into.
    ProjectFirst,
    /// A recording that is loaded.
    Loaded,
    /// A position or a time.
    PlaceOrTime,
    /// A position.
    Place,
    /// Two positions.
    Ends,
    /// A channel that was recorded.
    Channel,
    /// A ping with a position.
    Pings,
    /// A start inside the recording.
    InsideRecording,
    /// A block that is still kept.
    Block,
    /// A waterfall that was drawn.
    Waterfall,
    /// A dot inside the picture.
    InsideImage,
    /// The address of a tile.
    Tile,
    /// A kind of file that can be imported.
    Importable,
    /// A position in the file.
    Points,
    /// Something to search for.
    Targets,
    /// A kind of picture.
    SnapKind,
    /// The name of a picture.
    ImageName,
    /// Something that is there.
    Known,
    /// Work outside the library that succeeds; the status where it does not.
    Work(u16),
}

impl Need {
    /// The status of the answer where this is missing.
    pub open spec fn code(self) -> u16 {
        match self {
            Need::ProjectToFill | Need::ProjectToChange => 409,
            Need::Loaded | Need::Channel | Need::Pings | Need::Block | Need::Waterfall
            | Need::Known => 404,
            Need::Importable => 415,
            Need::Points => 422,
            Need::Work(status) => status,
            _ => 400,
        }
    }

    /// What the answer says where this is missing; of work that failed, what
    /// the work says.
    pub open spec fn saying(self, said: Seq<char>) -> Seq<char> {
        match self {
            Need::Json => "bad json"@,
            Need::Project => "bad project"@,
            Need::Request => "bad request"@,
            Need::PlanSettings => "bad plan"@,
            Need::Contact => "bad contact"@,
            Need::Name => "name required"@,
            Need::Path => "path required"@,
            Need::ProjectToFill => "open or create a project first"@,
            Need::ProjectToChange | Need::OpenProject => "no project open"@,
            Need::ProjectFirst => "open a project first"@,
            Need::Loaded => "not loaded"@,
            Need::PlaceOrTime => "lat and lon, or time, required"@,
            Need::Place => "lat and lon required"@,
            Need::Ends => "need lat1,lon1,lat2,lon2"@,
            Need::Channel => "no such subsystem"@,
            Need::Pings => "no positioned pings"@,
            Need::InsideRecording => "past the end of the recording"@,
            Need::Block => "block has been evicted; ask again"@,
            Need::Waterfall => "no such waterfall"@,
            Need::InsideImage => "outside image"@,
            Need::Tile => "bad tile"@,
            Need::Importable => "only GeoTIFF (.tif/.tiff) and GPX (.gpx) can be imported"@,
            Need::Points => "the file has no track, route or waypoint in it"@,
            Need::Targets => "nothing to search for"@,
            Need::SnapKind => "unknown snapshot kind"@,
            Need::ImageName => "bad image name"@,
            Need::Known => ""@,
            Need::Work(_) => said,
        }
    }

    /// Whether an answer is the one that is given where this is missing.
    pub open spec fn answered_by(self, r: Response, said: Seq<char>) -> bool {
        &&& r.status == self.code()
        &&& r.cache_s == 0
        &&& if self == Need::Known {
            r.body == Body::Empty
        } else {
            r.body matches Body::Json(v) && v@ == api::error_text(self.saying(said))
        }
    }

    /// The status of the answer where this is missing.
    pub fn status(self) -> (s: u16)
        ensures
            s == self.code(),
    {
        match self {
            Need::ProjectToFill | Need::ProjectToChange => 409,
            Need::Loaded | Need::Channel | Need::Pings | Need::Block | Need::Waterfall
            | Need::Known => 404,
            Need::Importable => 415,
            Need::Points => 422,
            Need::Work(status) => status,
            _ => 400,
        }
    }

    /// The answer where this is missing, given what the work said where it is
    /// work that failed.
    pub fn refusal(self, said: &str) -> (r: Response)
        ensures
            self.answered_by(r, said@),
    {
        let message: &str = match self {
            Need::Json => "bad json",
            Need::Project => "bad project",
            Need::Request => "bad request",
            Need::PlanSettings => "bad plan",
            Need::Contact => "bad contact",
            Need::Name => "name required",
            Need::Path => "path required",
            Need::ProjectToFill => "open or create a project first",
            Need::ProjectToChange | Need::OpenProject => "no project open",
            Need::ProjectFirst => "open a project first",
            Need::Loaded => "not loaded",
            Need::PlaceOrTime => "lat and lon, or time, required",
            Need::Place => "lat and lon required",
            Need::Ends => "need lat1,lon1,lat2,lon2",
            Need::Channel => "no such subsystem",
            Need::Pings => "no positioned pings",
            Need::InsideRecording => "past the end of the recording",
            Need::Block => "block has been evicted; ask again",
            Need::Waterfall => "no such waterfall",
            Need::InsideImage => "outside image",
            Need::Tile => "bad tile",
            Need::Importable => "only GeoTIFF (.tif/.tiff) and GPX (.gpx) can be imported",
            Need::Points => "the file has no track, route or waypoint in it",
            Need::Targets => "nothing to search for",
            Need::SnapKind => "unknown snapshot kind",
            Need::ImageName => "bad image name",
            Need::Known => {
                return Response::not_found();
            },
            Need::Work(_) => said,
        };
        Response::err(self.status(), message)
    }
}

/// What a request needs, in the order in which it is looked at.
pub open spec fn needs_of(a: Action) -> Seq<Need> {
    match a {
        Action::OpenProject => seq![Need::Json, Need::Name, Need::Work(404)],
        Action::NewProject => seq![Need::Json, Need::Name, Need::Work(500)],
        Action::SaveProject => seq![Need::Project, Need::Work(500)],
        Action::RenameProject | Action::DuplicateProject | Action::DeleteProject => seq![
            Need::Json,
            Need::Work(409),
        ],
        Action::ImportDataset => seq![
            Need::Json,
            Need::ProjectToFill,
            Need::Path,
            Need::Work(400),
        ],
        Action::RemoveDataset => seq![Need::Json, Need::ProjectToChange, Need::Work(409)],
        Action::LoadDataset => seq![Need::Request, Need::Work(500)],
        Action::UnloadDataset => seq![Need::Json],
        Action::Track | Action::Lines => seq![Need::Loaded],
        Action::Nearest => seq![Need::PlaceOrTime, Need::Loaded, Need::Channel, Need::Pings],
        Action::Waterfall => seq![
            Need::Request,
            Need::Loaded,
            Need::Channel,
            Need::InsideRecording,
            Need::Work(500),
        ],
        Action::Block => seq![Need::Block, Need::Work(500)],
        Action::Pick => seq![Need::Request, Need::Waterfall, Need::InsideImage],
        Action::MosaicTile => seq![Need::Tile, Need::Loaded, Need::Work(500), Need::Work(500)],
        Action::BuildMosaic => seq![Need::Json, Need::Loaded, Need::Work(500)],
        Action::Browse => seq![Need::Work(404), Need::Work(403)],
        Action::ImportLayer => seq![
            Need::Json,
            Need::Path,
            Need::Work(404),
            Need::Importable,
            Need::Work(500),
            Need::Work(422),
            Need::Points,
            Need::ProjectFirst,
            Need::Work(500),
        ],
        Action::Features => seq![Need::Work(404)],
        Action::LayerTile => seq![Need::Tile, Need::Work(404), Need::Work(500)],
        Action::Sample => seq![Need::Place, Need::Work(404)],
        Action::Plan => seq![Need::OpenProject],
        Action::SetPlan => seq![Need::PlanSettings, Need::OpenProject, Need::Work(500)],
        Action::SolvePlan => seq![Need::OpenProject, Need::Targets],
        Action::ExportPlan => seq![
            Need::OpenProject,
            Need::Targets,
            Need::Work(500),
            Need::Work(500),
        ],
        Action::SetContact => seq![Need::Contact, Need::Work(500)],
        Action::Snapshot => seq![
            Need::OpenProject,
            Need::Work(500),
            Need::SnapKind,
            Need::Work(500),
        ],
        Action::Snap => seq![Need::Known, Need::Known, Need::Known],
        Action::Convert => seq![Need::Place],
        Action::ReportImage => seq![
            Need::OpenProject,
            Need::ImageName,
            Need::Work(500),
            Need::Work(500),
        ],
        Action::Report | Action::SaveReport => seq![Need::Work(400)],
        Action::Measure => seq![Need::Ends],
        Action::Unknown => seq![Need::Known],
        _ => Seq::empty(),
    }
}

/// What a request needs, in the order in which it is looked at.
pub fn needs(a: Action) -> (v: Vec<Need>)
    ensures
        v@ == needs_of(a),
{
    match a {
        Action::OpenProject => vec![Need::Json, Need::Name, Need::Work(404)],
        Action::NewProject => vec![Need::Json, Need::Name, Need::Work(500)],
        Action::SaveProject => vec![Need::Project, Need::Work(500)],
        Action::RenameProject | Action::DuplicateProject | Action::DeleteProject => vec![
            Need::Json,
            Need::Work(409),
        ],
        Action::ImportDataset => vec![
            Need::Json,
            Need::ProjectToFill,
            Need::Path,
            Need::Work(400),
        ],
        Action::RemoveDataset => vec![Need::Json, Need::ProjectToChange, Need::Work(409)],
        Action::LoadDataset => vec![Need::Request, Need::Work(500)],
        Action::UnloadDataset => vec![Need::Json],
        Action::Track | Action::Lines => vec![Need::Loaded],
        Action::Nearest => vec![Need::PlaceOrTime, Need::Loaded, Need::Channel, Need::Pings],
        Action::Waterfall => vec![
            Need::Request,
            Need::Loaded,
            Need::Channel,
            Need::InsideRecording,
            Need::Work(500),
        ],
        Action::Block => vec![Need::Block, Need::Work(500)],
        Action::Pick => vec![Need::Request, Need::Waterfall, Need::InsideImage],
        Action::MosaicTile => vec![Need::Tile, Need::Loaded, Need::Work(500), Need::Work(500)],
        Action::BuildMosaic => vec![Need::Json, Need::Loaded, Need::Work(500)],
        Action::Browse => vec![Need::Work(404), Need::Work(403)],
        Action::ImportLayer => vec![
            Need::Json,
            Need::Path,
            Need::Work(404),
            Need::Importable,
            Need::Work(500),
            Need::Work(422),
            Need::Points,
            Need::ProjectFirst,
            Need::Work(500),
        ],
        Action::Features => vec![Need::Work(404)],
        Action::LayerTile => vec![Need::Tile, Need::Work(404), Need::Work(500)],
        Action::Sample => vec![Need::Place, Need::Work(404)],
        Action::Plan => vec![Need::OpenProject],
        Action::SetPlan => vec![Need::PlanSettings, Need::OpenProject, Need::Work(500)],
        Action::SolvePlan => vec![Need::OpenProject, Need::Targets],
        Action::ExportPlan => vec![
            Need::OpenProject,
            Need::Targets,
            Need::Work(500),
            Need::Work(500),
        ],
        Action::SetContact => vec![Need::Contact, Need::Work(500)],
        Action::Snapshot => vec![
            Need::OpenProject,
            Need::Work(500),
            Need::SnapKind,
            Need::Work(500),
        ],
        Action::Snap => vec![Need::Known, Need::Known, Need::Known],
        Action::Convert => vec![Need::Place],
        Action::ReportImage => vec![
            Need::OpenProject,
            Need::ImageName,
            Need::Work(500),
            Need::Work(500),
        ],
        Action::Report | Action::SaveReport => vec![Need::Work(400)],
        Action::Measure => vec![Need::Ends],
        Action::Unknown => vec![Need::Known],
        _ => Vec::new(),
    }
}

/// How far a request has come through what it needs.
pub struct Gate {
    pub needs: Vec<Need>,
    pub at: usize,
}

impl Gate {
    /// A gate is of a request, and no further than its end.
    pub open spec fn of(self, a: Action) -> bool {
        &&& self.needs@ == needs_of(a)
        &&& self.at <= self.needs@.len()
    }

    /// A gate, with nothing looked at yet.
    pub fn new(a: Action) -> (g: Gate)
        ensures
            g.of(a),
            g.at == 0,
    {
        Gate { needs: needs(a), at: 0 }
    }

    /// Look at what is needed next, given whether it is there and, where it is
    /// work that failed, what the work said. Past the end nothing is needed.
    pub fn check(&mut self, there: bool, said: &str) -> (r: Option<Response>)
        ensures
            final(self).needs == old(self).needs,
            old(self).at < old(self).needs@.len() ==> {
                &&& there ==> r is None && final(self).at == old(self).at + 1
                &&& !there ==> final(self).at == old(self).at && r is Some
                    && old(self).needs@[old(self).at as int].answered_by(r->0, said@)
            },
            old(self).at >= old(self).needs@.len() ==> r is None && final(self).at == old(
                self,
            ).at,
    {
        if self.at >= self.needs.len() {
            return None;
        }
        if there {
            self.at += 1;
            None
        } else {
            Some(self.needs[self.at].refusal(said))
        }
    }

    /// Look at what is needed next, given what there is of it.
    pub fn take<T>(&mut self, v: Option<T>) -> (r: Result<T, Response>)
        requires
            old(self).at < old(self).needs@.len(),
        ensures
            final(self).needs == old(self).needs,
            v matches Some(x) ==> r == Ok::<T, Response>(x) && final(self).at == old(self).at + 1,
            v is None ==> final(self).at == old(self).at && (r matches Err(e) && old(
                self,
            ).needs@[old(self).at as int].answered_by(e, ""@)),
    {
        match v {
            Some(x) => {
                self.check(true, "");
                Ok(x)
            },
            None => Err(self.needs[self.at].refusal("")),
        }
    }
}

/// A refusal of the library's own is the client's error: its status is at least
/// 400 and less than 500.
pub proof fn law_refusals_are_the_clients(n: Need)
    requires
        !(n is Work),
    ensures
        400 <= n.code() < 500,
{
}

} // verus!
