//! The project: which recordings are loaded, what was marked, and how a report
//! should describe it.

use vstd::prelude::*;

use crate::names;
use crate::names::{among, has_ext, join, sanitise_name, sort_names};
use crate::text;
use crate::text::{copy, push_dec, push_str, same};

pub mod contacts;
pub mod moves;

verus! {

pub const SCHEMA: &'static str = "swath-project/1";

pub const KIND_RECORDING: &'static str = "recording";

pub const KIND_MOSAIC: &'static str = "mosaic";

pub const KIND_TRACK: &'static str = "track";

pub const KIND_RASTER: &'static str = "raster";

pub const KIND_VECTOR: &'static str = "vector";

#[derive(Debug)]
pub struct ProjectMeta {
    pub client: String,
    pub vessel: String,
    pub operator: String,
    pub job_number: String,
    pub area: String,
    pub notes: String,
    /// EPSG codes the report should tabulate positions in, in order. WGS 84 is
    /// always shown; these are the extra columns.
    pub report_crs: Vec<u32>,
}

/// One layer on one chart.
///
/// `boat` and `fish` only mean anything on a track, where they choose which of
/// the two lines is drawn.
#[derive(Debug)]
pub struct ChartLayer {
    pub id: String,
    /// Drawn on this chart. Layers the chart could show are all listed, so an
    /// unticked layer is remembered as unticked.
    pub on: bool,
    pub boat: bool,
    pub fish: bool,
}

/// One picture in the report, and everything drawn on it.
#[derive(Debug)]
pub struct ChartSpec {
    /// Also the name of the PNG in the project's `report/` directory.
    pub id: String,
    /// `overview` (every recording, one band) or `dataset` (one of each).
    pub kind: String,
    pub title: String,
    pub subtitle: String,
    /// Empty on an overview.
    pub dataset: String,
    pub subsystem: Option<u8>,
    pub enabled: bool,
    /// Top of the stack first, the same order the tree shows.
    pub layers: Vec<ChartLayer>,
}

#[derive(Debug)]
pub struct ReportSpec {
    pub basemap: String,
    pub seamark: bool,
    pub contacts: bool,
    pub charts: Vec<ChartSpec>,
}

impl Default for ReportSpec {
    fn default() -> (r: ReportSpec)
        ensures
            r.basemap@ == "osm"@,
            r.seamark,
            r.contacts,
            r.charts@ == Seq::<ChartSpec>::empty(),
    {
        ReportSpec { basemap: osm(), seamark: true, contacts: true, charts: Vec::new() }
    }
}

/// The basemap that a report has unless it says otherwise.
pub fn osm() -> (s: String)
    ensures
        s@ == "osm"@,
{
    copy("osm")
}

/// The schema that a project is written in.
pub fn schema() -> (s: String)
    ensures
        s@ == SCHEMA@,
{
    copy(SCHEMA)
}

/// What a setting that is on unless it says otherwise is.
pub fn yes() -> (r: bool)
    ensures
        r,
{
    true
}

/// How a contact was drawn.
#[derive(Clone, Copy, Debug, PartialEq, Eq, Structural)]
pub enum Shape {
    Point,
    Circle,
    Box,
    Line,
}

impl Default for Shape {
    fn default() -> (s: Shape)
        ensures
            s == Shape::Point,
    {
        Shape::Point
    }
}

/// Which view a contact was marked in. It changes what the position means: a
/// waterfall mark moves if the navigation is re-solved, a map mark does not.
#[derive(Clone, Copy, Debug, PartialEq, Eq, Structural)]
pub enum Source {
    MapView,
    Waterfall,
}

impl Default for Source {
    fn default() -> (s: Source)
        ensures
            s == Source::MapView,
    {
        Source::MapView
    }
}

/// How a recording added from elsewhere gets into the project.
#[derive(Clone, Copy, Debug, PartialEq, Eq, Structural)]
pub enum Placement {
    /// Duplicate the files. The project is then self-contained and the original
    /// is untouched.
    Copy,
    /// Take the files. Nothing else has them afterwards.
    Move,
    /// Point at them where they are.
    Link,
}

/// A recording the workspace can see.
#[derive(Debug)]
pub struct Dataset {
    pub name: String,
    pub dir: String,
    /// Held by the project rather than by the shared pool under `data/`.
    pub owned: bool,
}

// ---- layers --------------------------------------------------------------------

/// The identifier of a recording's entry in the tree.
pub fn recording_id(dataset: &str) -> (s: String)
    ensures
        s@ == "rec:"@ + dataset@,
{
    let mut s = copy("rec:");
    push_str(&mut s, dataset);
    s
}

/// The identifier of a mosaic or a track: its kind, its recording and its band.
pub open spec fn band_id(kind: Seq<char>, dataset: Seq<char>, subsystem: u8) -> Seq<char> {
    kind + dataset + ":"@ + text::dec(subsystem as nat)
}

fn make_band_id(kind: &str, dataset: &str, subsystem: u8) -> (s: String)
    ensures
        s@ == band_id(kind@, dataset@, subsystem),
{
    let mut s = copy(kind);
    push_str(&mut s, dataset);
    push_str(&mut s, ":");
    push_dec(&mut s, subsystem as u64);
    s
}

pub fn mosaic_id(dataset: &str, subsystem: u8) -> (s: String)
    ensures
        s@ == band_id("mosaic:"@, dataset@, subsystem),
{
    make_band_id("mosaic:", dataset, subsystem)
}

pub fn track_id(dataset: &str, subsystem: u8) -> (s: String)
    ensures
        s@ == band_id("track:"@, dataset@, subsystem),
{
    make_band_id("track:", dataset, subsystem)
}

/// Whether a layer is a mosaic, by its kind.
pub fn is_mosaic(kind: &str) -> (r: bool)
    ensures
        r == (kind@ == KIND_MOSAIC@),
{
    same(kind, KIND_MOSAIC)
}

/// The first of some names that is the given one.
pub open spec fn first_named(ns: Seq<Seq<char>>, name: Seq<char>, n: int) -> Option<int>
    decreases n,
{
    if n <= 0 {
        None
    } else {
        match first_named(ns, name, n - 1) {
            Some(i) => Some(i),
            None => if ns[n - 1] == name {
                Some(n - 1)
            } else {
                None
            },
        }
    }
}

/// Find a recording by its name.
pub fn dataset(names: &Vec<String>, name: &str) -> (r: Option<usize>)
    ensures
        match first_named(names::views(names@), name@, names@.len() as int) {
            None => r is None,
            Some(i) => r matches Some(x) && x == i,
        },
{
    let mut i: usize = 0;
    while i < names.len()
        invariant
            i <= names@.len(),
            first_named(names::views(names@), name@, i as int) is None,
        decreases names.len() - i,
    {
        if same(names[i].as_str(), name) {
            proof {
                assert(first_named(names::views(names@), name@, i + 1) == Some(i as int));
                lemma_first_stays(names::views(names@), name@, i + 1, names@.len() as int);
            }
            return Some(i);
        }
        i += 1;
    }
    None
}

proof fn lemma_first_stays(ns: Seq<Seq<char>>, name: Seq<char>, a: int, n: int)
    requires
        a <= n,
        first_named(ns, name, a) is Some,
    ensures
        first_named(ns, name, n) == first_named(ns, name, a),
    decreases n - a,
{
    if a < n {
        lemma_first_stays(ns, name, a, n - 1);
    }
}

// ---- workspace layout ----------------------------------------------------------

/// Where everything lives. One recording per folder under `data/`, everything
/// derived from it under a matching folder in `out/`, and projects, which
/// combine recordings, under `projects/`.
#[derive(Debug)]
pub struct Workspace {
    pub root: String,
}

/// What is on disk: paths that exist, and the projects there are.
#[derive(Debug)]
pub struct Disk {
    pub paths: Vec<String>,
    pub projects: Vec<String>,
}

impl Disk {
    pub open spec fn holds(self, path: Seq<char>) -> bool {
        names::views(self.paths@).contains(path)
    }

    pub fn has(&self, path: &str) -> (r: bool)
        ensures
            r == self.holds(path@),
    {
        among(&self.paths, path)
    }
}

/// A path under the extension it is written with, or under the one it was
/// written with before the application was renamed where only that is on disk.
pub open spec fn preferred(disk: Disk, stem: Seq<char>, new: Seq<char>, old: Seq<char>) -> Seq<
    char,
> {
    if !disk.holds(stem + new) && disk.holds(stem + old) {
        stem + old
    } else {
        stem + new
    }
}

fn prefer_existing(disk: &Disk, stem: &str, new: &str, old: &str) -> (p: String)
    ensures
        p@ == preferred(*disk, stem@, new@, old@),
{
    let mut n = copy(stem);
    push_str(&mut n, new);
    if disk.has(n.as_str()) {
        return n;
    }
    let mut o = copy(stem);
    push_str(&mut o, old);
    if disk.has(o.as_str()) {
        return o;
    }
    n
}

impl Workspace {
    pub open spec fn data_path(self) -> Seq<char> {
        names::joined(self.root@, "data"@)
    }

    pub open spec fn out_path(self, dataset: Seq<char>) -> Seq<char> {
        names::joined(names::joined(self.root@, "out"@), dataset)
    }

    pub open spec fn project_folder(self, project: Seq<char>) -> Seq<char> {
        names::joined(names::joined(self.root@, "projects"@), project)
    }

    /// A file or folder in a project's folder.
    pub open spec fn in_project(self, project: Seq<char>, name: Seq<char>) -> Seq<char> {
        names::joined(self.project_folder(project), name)
    }

    pub open spec fn layers_path(self) -> Seq<char> {
        names::joined(names::joined(self.root@, "out"@), "layers"@)
    }

    pub fn new(root: String) -> (w: Workspace)
        ensures
            w.root@ == root@,
    {
        Workspace { root }
    }

    pub fn data_dir(&self) -> (p: String)
        ensures
            p@ == self.data_path(),
    {
        join(self.root.as_str(), "data")
    }

    pub fn out_dir(&self, dataset: &str) -> (p: String)
        ensures
            p@ == self.out_path(dataset@),
    {
        let out = join(self.root.as_str(), "out");
        join(out.as_str(), dataset)
    }

    pub fn index_path(&self, dataset: &str, disk: &Disk) -> (p: String)
        ensures
            p@ == preferred(
                *disk,
                names::joined(self.out_path(dataset@), "ping_index"@),
                ".swi"@,
                ".wpi"@,
            ),
    {
        let dir = self.out_dir(dataset);
        let stem = join(dir.as_str(), "ping_index");
        prefer_existing(disk, stem.as_str(), ".swi", ".wpi")
    }

    /// What a mosaic built with a particular set of settings is called. The
    /// settings are in the name on purpose: two decisions are two pictures.
    pub open spec fn mosaic_stem(self, dataset: Seq<char>, subsystem: u8, key: Seq<char>) -> Seq<
        char,
    > {
        names::joined(
            self.out_path(dataset),
            "mosaic_"@ + text::dec(subsystem as nat) + "_"@ + key,
        )
    }

    /// Where a mosaic built with a particular set of settings lives.
    pub fn mosaic_path(&self, dataset: &str, subsystem: u8, key: &str, disk: &Disk) -> (p: String)
        ensures
            p@ == preferred(
                *disk,
                self.mosaic_stem(dataset@, subsystem, key@),
                ".swm"@,
                ".wpm"@,
            ),
    {
        let dir = self.out_dir(dataset);
        let mut name = mosaic_prefix(subsystem);
        push_str(&mut name, key);
        let stem = join(dir.as_str(), name.as_str());
        prefer_existing(disk, stem.as_str(), ".swm", ".wpm")
    }

    pub fn project_dir(&self, project: &str) -> (p: String)
        ensures
            p@ == self.project_folder(project@),
    {
        let all = join(self.root.as_str(), "projects");
        join(all.as_str(), project)
    }

    pub fn project_path(&self, project: &str) -> (p: String)
        ensures
            p@ == self.in_project(project@, "project.json"@),
    {
        let dir = self.project_dir(project);
        join(dir.as_str(), "project.json")
    }

    pub fn contacts_path(&self, project: &str) -> (p: String)
        ensures
            p@ == self.in_project(project@, "marks.geojson"@),
    {
        let dir = self.project_dir(project);
        join(dir.as_str(), "marks.geojson")
    }

    /// Where imported layers are resampled to: beside the other derived
    /// products rather than inside the project, so that two projects over the
    /// same ground share one copy.
    pub fn layers_dir(&self) -> (p: String)
        ensures
            p@ == self.layers_path(),
    {
        let out = join(self.root.as_str(), "out");
        join(out.as_str(), "layers")
    }

    pub fn layer_cache_path(&self, key: &str, disk: &Disk) -> (p: String)
        ensures
            p@ == preferred(*disk, names::joined(self.layers_path(), key@), ".swl"@, ".wpl"@),
    {
        let dir = self.layers_dir();
        let stem = join(dir.as_str(), key);
        prefer_existing(disk, stem.as_str(), ".swl", ".wpl")
    }

    pub fn snaps_dir(&self, project: &str) -> (p: String)
        ensures
            p@ == self.in_project(project@, "snaps"@),
    {
        let dir = self.project_dir(project);
        join(dir.as_str(), "snaps")
    }

    /// Map views rendered for the report.
    pub fn report_dir(&self, project: &str) -> (p: String)
        ensures
            p@ == self.in_project(project@, "report"@),
    {
        let dir = self.project_dir(project);
        join(dir.as_str(), "report")
    }

    pub fn exports_dir(&self, project: &str) -> (p: String)
        ensures
            p@ == self.in_project(project@, "exports"@),
    {
        let dir = self.project_dir(project);
        join(dir.as_str(), "exports")
    }

    /// Where a project keeps the recordings it holds itself.
    pub fn project_data_dir(&self, project: &str) -> (p: String)
        ensures
            p@ == self.in_project(project@, "data"@),
    {
        let dir = self.project_dir(project);
        join(dir.as_str(), "data")
    }
}

/// How the name of a mosaic of a band starts.
pub fn mosaic_prefix(subsystem: u8) -> (s: String)
    ensures
        s@ == "mosaic_"@ + text::dec(subsystem as nat) + "_"@,
{
    let mut s = copy("mosaic_");
    push_dec(&mut s, subsystem as u64);
    push_str(&mut s, "_");
    s
}

/// Whether a text starts with another.
pub open spec fn starts_with(s: Seq<char>, p: Seq<char>) -> bool {
    p.len() <= s.len() && s.take(p.len() as int) == p
}

/// Whether a text starts with another.
pub fn has_prefix(s: &str, p: &str) -> (r: bool)
    ensures
        r == starts_with(s@, p@),
{
    let a = text::chars_of(s);
    let b = text::chars_of(p);
    if b.len() > a.len() {
        return false;
    }
    let mut i: usize = 0;
    while i < b.len()
        invariant
            i <= b@.len() <= a@.len(),
            a@ == s@,
            b@ == p@,
            forall|j: int| 0 <= j < i ==> a@[j] == b@[j],
        decreases b.len() - i,
    {
        if a[i] != b[i] {
            proof {
                assert(s@.take(p@.len() as int)[i as int] != p@[i as int]);
            }
            return false;
        }
        i += 1;
    }
    proof {
        assert(s@.take(p@.len() as int) =~= p@);
    }
    true
}

/// Whether a file is a mosaic of a band, by its name.
pub fn is_mosaic_file(name: &str, subsystem: u8) -> (r: bool)
    ensures
        r == (starts_with(name@, "mosaic_"@ + text::dec(subsystem as nat) + "_"@) && (
        names::with_extension(name@, "swm"@) || names::with_extension(name@, "wpm"@))),
{
    let p = mosaic_prefix(subsystem);
    has_prefix(name, p.as_str()) && (has_ext(name, "swm") || has_ext(name, "wpm"))
}

/// How many of the oldest of some mosaics to delete, so that the given number
/// of them is kept.
pub fn mosaics_to_drop(n: usize, keep: usize) -> (d: usize)
    ensures
        d == (if n > keep {
            n - keep
        } else {
            0
        }),
{
    if n > keep {
        n - keep
    } else {
        0
    }
}

// ---- recordings ----------------------------------------------------------------

/// Whether a file holds sonar data, by its name.
pub open spec fn sonar_name(p: Seq<char>) -> bool {
    names::with_extension(p, "jsf"@) || names::with_extension(p, "xtf"@)
}

/// Whether a file holds sonar data, by its name.
pub fn is_sonar(p: &str) -> (r: bool)
    ensures
        r == sonar_name(p@),
{
    has_ext(p, "jsf") || has_ext(p, "xtf")
}

/// Those of some files that hold sonar data; those that are JSF where `jsf`.
pub open spec fn sonar_among(fs: Seq<Seq<char>>, jsf: bool) -> Seq<Seq<char>>
    decreases fs.len(),
{
    if fs.len() == 0 {
        Seq::empty()
    } else {
        let front = sonar_among(fs.drop_last(), jsf);
        let f = fs.last();
        if sonar_name(f) && (jsf ==> names::with_extension(f, "jsf"@)) {
            front.push(f)
        } else {
            front
        }
    }
}

/// Whether there is a JSF file among some.
pub open spec fn any_jsf(fs: Seq<Seq<char>>) -> bool {
    exists|i: int| 0 <= i < fs.len() && names::with_extension(#[trigger] fs[i], "jsf"@)
}

fn holds_jsf(files: &Vec<String>) -> (r: bool)
    ensures
        r == any_jsf(names::views(files@)),
{
    let ghost fs = names::views(files@);
    let mut i: usize = 0;
    while i < files.len()
        invariant
            i <= files@.len(),
            fs == names::views(files@),
            forall|j: int| 0 <= j < i ==> !names::with_extension(#[trigger] fs[j], "jsf"@),
        decreases files.len() - i,
    {
        if has_ext(files[i].as_str(), "jsf") {
            proof {
                assert(names::with_extension(fs[i as int], "jsf"@));
            }
            return true;
        }
        i += 1;
    }
    false
}

/// The sonar files of a folder, in order, among all of its files. JSF wins when
/// a folder holds both: the XTF is an export of the same pings, so indexing both
/// would double every ping.
pub fn sonar_files(files: &Vec<String>) -> (v: Vec<String>)
    ensures
        names::names_sorted(
            sonar_among(names::views(files@), any_jsf(names::views(files@))),
            names::views(v@),
        ),
{
    let ghost fs = names::views(files@);
    let jsf = holds_jsf(files);
    let mut found: Vec<String> = Vec::new();
    let mut i: usize = 0;
    proof {
        assert(names::views(found@) =~= Seq::<Seq<char>>::empty());
        assert(fs.take(0) =~= Seq::<Seq<char>>::empty());
    }
    while i < files.len()
        invariant
            i <= files@.len(),
            fs == names::views(files@),
            names::views(found@) == sonar_among(fs.take(i as int), jsf),
        decreases files.len() - i,
    {
        proof {
            assert(fs.take(i + 1).drop_last() =~= fs.take(i as int));
            assert(fs.take(i + 1).last() == files@[i as int]@);
        }
        let f = files[i].as_str();
        if is_sonar(f) && (!jsf || has_ext(f, "jsf")) {
            let c = copy(f);
            let ghost was = found@;
            found.push(c);
            proof {
                assert(names::views(found@) =~= names::views(was).push(c@));
            }
        }
        i += 1;
    }
    proof {
        assert(fs.take(files@.len() as int) =~= fs);
    }
    sort_names(&found)
}

/// Recordings by name.
pub struct Rec {
    pub name: Seq<char>,
    pub dir: Seq<char>,
    pub owned: bool,
}

impl View for Dataset {
    type V = Rec;

    open spec fn view(&self) -> Rec {
        Rec { name: self.name@, dir: self.dir@, owned: self.owned }
    }
}

pub open spec fn recs(v: Seq<Dataset>) -> Seq<Rec> {
    v.map_values(|d: Dataset| d@)
}

/// Whether a recording of the given name is among some.
pub open spec fn rec_named(rs: Seq<Rec>, name: Seq<char>) -> bool {
    exists|i: int| 0 <= i < rs.len() && (#[trigger] rs[i]).name == name
}

/// Recordings with those in a folder added. One of the pool is left out where
/// there is one of its name already.
pub open spec fn with_folder(
    rs: Seq<Rec>,
    ns: Seq<Seq<char>>,
    dir: Seq<char>,
    owned: bool,
    n: int,
) -> Seq<Rec>
    decreases n,
{
    if n <= 0 {
        rs
    } else {
        let front = with_folder(rs, ns, dir, owned, n - 1);
        if !owned && rec_named(front, ns[n - 1]) {
            front
        } else {
            front.push(Rec { name: ns[n - 1], dir: names::joined(dir, ns[n - 1]), owned })
        }
    }
}

/// The recording folders found on disk: those in a project's own folder, those
/// in the shared pool, and whether the pool holds recordings loose.
#[derive(Debug)]
pub struct Found {
    pub held: Vec<String>,
    pub pool: Vec<String>,
    pub loose: bool,
}

/// The recordings that a project can see, given its own and the pool's in
/// order: its own first, and then those of the pool whose name none of its own
/// has. Where there are none at all, the loose ones count as one.
pub open spec fn visible(
    w: Workspace,
    project: Option<Seq<char>>,
    held: Seq<Seq<char>>,
    pool: Seq<Seq<char>>,
    loose: bool,
) -> Seq<Rec> {
    let own = match project {
        Some(p) => with_folder(
            Seq::empty(),
            held,
            w.in_project(p, "data"@),
            true,
            held.len() as int,
        ),
        None => Seq::empty(),
    };
    let all = with_folder(own, pool, w.data_path(), false, pool.len() as int);
    if all.len() == 0 && loose {
        seq![Rec { name: "_flat"@, dir: w.data_path(), owned: false }]
    } else {
        all
    }
}

fn named_already(v: &Vec<Dataset>, name: &str) -> (r: bool)
    ensures
        r == rec_named(recs(v@), name@),
{
    let mut i: usize = 0;
    while i < v.len()
        invariant
            i <= v@.len(),
            forall|j: int| 0 <= j < i ==> (#[trigger] recs(v@)[j]).name != name@,
        decreases v.len() - i,
    {
        if same(v[i].name.as_str(), name) {
            proof {
                assert(recs(v@)[i as int].name == name@);
            }
            return true;
        }
        i += 1;
    }
    false
}

fn push_folder(v: &mut Vec<Dataset>, found: &Vec<String>, dir: &str, owned: bool)
    ensures
        recs(final(v)@) == with_folder(
            recs(old(v)@),
            names::views(found@),
            dir@,
            owned,
            found@.len() as int,
        ),
{
    let ghost first = recs(v@);
    let ghost ns = names::views(found@);
    let mut i: usize = 0;
    while i < found.len()
        invariant
            i <= found@.len(),
            ns == names::views(found@),
            recs(v@) == with_folder(first, ns, dir@, owned, i as int),
        decreases found.len() - i,
    {
        let name = found[i].as_str();
        if owned || !named_already(v, name) {
            let d = Dataset { name: copy(name), dir: join(dir, name), owned };
            let ghost was = v@;
            v.push(d);
            proof {
                assert(recs(v@) =~= recs(was).push(d@));
            }
        }
        i += 1;
    }
}

impl Workspace {
    /// Recordings on disk that no project holds.
    pub fn datasets(&self, found: &Found) -> (v: Vec<Dataset>)
        ensures
            exists|pool: Seq<Seq<char>>|
                #![trigger visible(*self, None, Seq::empty(), pool, found.loose)]
                names::names_sorted(names::views(found.pool@), pool) && recs(v@) == visible(
                    *self,
                    None,
                    Seq::empty(),
                    pool,
                    found.loose,
                ),
    {
        let pool = sort_names(&found.pool);
        let mut v: Vec<Dataset> = Vec::new();
        proof {
            assert(recs(v@) =~= Seq::<Rec>::empty());
        }
        let dir = self.data_dir();
        push_folder(&mut v, &pool, dir.as_str(), false);
        if v.len() == 0 && found.loose {
            v.push(Dataset { name: copy("_flat"), dir, owned: false });
        }
        proof {
            assert(recs(v@) =~= visible(
                *self,
                None,
                Seq::empty(),
                names::views(pool@),
                found.loose,
            ));
        }
        v
    }

    /// Every recording a project can see: the ones it holds, then the shared
    /// pool under `data/`. The project's own come first and win a name clash.
    pub fn datasets_for(&self, project: &str, found: &Found) -> (v: Vec<Dataset>)
        ensures
            exists|held: Seq<Seq<char>>, pool: Seq<Seq<char>>|
                #![trigger visible(*self, Some(project@), held, pool, found.loose)]
                names::names_sorted(names::views(found.held@), held) && names::names_sorted(
                    names::views(found.pool@),
                    pool,
                ) && recs(v@) == visible(*self, Some(project@), held, pool, found.loose),
    {
        let held = sort_names(&found.held);
        let pool = sort_names(&found.pool);
        let mut v: Vec<Dataset> = Vec::new();
        proof {
            assert(recs(v@) =~= Seq::<Rec>::empty());
        }
        let own = self.project_data_dir(project);
        push_folder(&mut v, &held, own.as_str(), true);
        let dir = self.data_dir();
        push_folder(&mut v, &pool, dir.as_str(), false);
        if v.len() == 0 && found.loose {
            v.push(Dataset { name: copy("_flat"), dir, owned: false });
        }
        proof {
            assert(recs(v@) =~= visible(
                *self,
                Some(project@),
                names::views(held@),
                names::views(pool@),
                found.loose,
            ));
        }
        v
    }

    /// Whether a project holds a recording of its own under a name.
    pub open spec fn held_by_any(self, disk: Disk, name: Seq<char>) -> bool {
        exists|i: int|
            0 <= i < disk.projects@.len() && disk.holds(
                names::joined(self.in_project((#[trigger] disk.projects@[i])@, "data"@), name),
            )
    }

    /// Whether a name is already spoken for anywhere in the workspace.
    pub open spec fn taken(self, disk: Disk, name: Seq<char>) -> bool {
        disk.holds(names::joined(self.data_path(), name)) || disk.holds(self.out_path(name))
            || self.held_by_any(disk, name)
    }

    /// Is this name already spoken for anywhere in the workspace?
    ///
    /// Derived products are keyed by the name alone, so two different
    /// recordings called the same thing would share an index and a mosaic.
    pub fn dataset_name_taken(&self, name: &str, disk: &Disk) -> (r: bool)
        ensures
            r == self.taken(*disk, name@),
    {
        let data = self.data_dir();
        let in_data = join(data.as_str(), name);
        let in_out = self.out_dir(name);
        if disk.has(in_data.as_str()) || disk.has(in_out.as_str()) {
            return true;
        }
        let mut i: usize = 0;
        while i < disk.projects.len()
            invariant
                i <= disk.projects@.len(),
                forall|j: int|
                    0 <= j < i ==> !disk.holds(
                        names::joined(
                            self.in_project((#[trigger] disk.projects@[j])@, "data"@),
                            name@,
                        ),
                    ),
            decreases disk.projects.len() - i,
        {
            let dir = self.project_data_dir(disk.projects[i].as_str());
            let p = join(dir.as_str(), name);
            if disk.has(p.as_str()) {
                proof {
                    assert(disk.holds(
                        names::joined(
                            self.in_project(disk.projects@[i as int]@, "data"@),
                            name@,
                        ),
                    ));
                }
                return true;
            }
            i += 1;
        }
        false
    }

    /// The first of `base-n`, `base-(n+1)` and so on up to `base-999` that is
    /// free.
    pub open spec fn free_from(self, disk: Disk, base: Seq<char>, n: nat) -> Option<Seq<char>>
        decreases 1000 - n,
    {
        if n >= 1000 {
            None
        } else {
            let c = base + "-"@ + text::dec(n);
            if !self.taken(disk, c) {
                Some(c)
            } else {
                self.free_from(disk, base, n + 1)
            }
        }
    }

    /// A name for a recording: the one wanted, if it is free, else with a number
    /// behind it; with the time behind it where none is free.
    pub open spec fn free_name(self, disk: Disk, want: Seq<char>, now: nat) -> Seq<char> {
        let base = names::sanitised(want);
        if !self.taken(disk, base) {
            base
        } else {
            match self.free_from(disk, base, 2) {
                Some(c) => c,
                None => base + "-"@ + text::dec(now),
            }
        }
    }

    /// `want` if it is free, else `want-2`, `want-3` and so on.
    pub fn free_dataset_name(&self, want: &str, disk: &Disk, now: u64) -> (s: String)
        ensures
            s@ == self.free_name(*disk, want@, now as nat),
    {
        let base = sanitise_name(want);
        if !self.dataset_name_taken(base.as_str(), disk) {
            return base;
        }
        let mut n: u64 = 2;
        while n < 1000
            invariant
                2 <= n <= 1000,
                base@ == names::sanitised(want@),
                self.taken(*disk, base@),
                self.free_from(*disk, base@, 2) == self.free_from(*disk, base@, n as nat),
            decreases 1000 - n,
        {
            let c = numbered(base.as_str(), n);
            if !self.dataset_name_taken(c.as_str(), disk) {
                return c;
            }
            n += 1;
        }
        numbered(base.as_str(), now)
    }
}

fn numbered(base: &str, n: u64) -> (s: String)
    ensures
        s@ == base@ + "-"@ + text::dec(n as nat),
{
    let mut s = copy(base);
    push_str(&mut s, "-");
    push_dec(&mut s, n);
    s
}

// ---- laws ----------------------------------------------------------------------

/// A name found for a recording is free, unless a thousand of them are taken.
pub proof fn law_found_name_is_free(w: Workspace, disk: Disk, want: Seq<char>, now: nat)
    ensures
        !w.taken(disk, w.free_name(disk, want, now)) || w.free_from(
            disk,
            names::sanitised(want),
            2,
        ) is None,
{
    lemma_free_from(w, disk, names::sanitised(want), 2);
}

proof fn lemma_free_from(w: Workspace, disk: Disk, base: Seq<char>, n: nat)
    ensures
        w.free_from(disk, base, n) matches Some(c) ==> !w.taken(disk, c),
    decreases 1000 - n,
{
    if n < 1000 {
        lemma_free_from(w, disk, base, n + 1);
    }
}

/// No two recordings that a project can see have the same name, where no two
/// folders in one place do.
pub proof fn law_visible_names_differ(
    w: Workspace,
    project: Seq<char>,
    held: Seq<Seq<char>>,
    pool: Seq<Seq<char>>,
    loose: bool,
    a: int,
    b: int,
)
    requires
        held.no_duplicates(),
        0 <= a < b < visible(w, Some(project), held, pool, loose).len(),
    ensures
        visible(w, Some(project), held, pool, loose)[a].name != visible(
            w,
            Some(project),
            held,
            pool,
            loose,
        )[b].name,
{
    let own = with_folder(
        Seq::empty(),
        held,
        w.in_project(project, "data"@),
        true,
        held.len() as int,
    );
    lemma_own_names(held, w.in_project(project, "data"@), held.len() as int);
    assert(distinct_names(own)) by {
        assert forall|i: int, j: int| 0 <= i < j < own.len() implies (#[trigger] own[i]).name != (
        #[trigger] own[j]).name by {
            assert(held[i] != held[j]);
        }
    }
    lemma_pool_names(own, pool, w.data_path(), pool.len() as int);
}

/// Whether no two of some recordings have the same name.
pub open spec fn distinct_names(rs: Seq<Rec>) -> bool {
    forall|i: int, j: int|
        0 <= i < j < rs.len() ==> (#[trigger] rs[i]).name != (#[trigger] rs[j]).name
}

proof fn lemma_own_names(ns: Seq<Seq<char>>, dir: Seq<char>, n: int)
    requires
        0 <= n <= ns.len(),
    ensures
        with_folder(Seq::empty(), ns, dir, true, n).len() == n,
        forall|i: int|
            0 <= i < n ==> (#[trigger] with_folder(Seq::empty(), ns, dir, true, n)[i]).name == ns[i],
    decreases n,
{
    if n > 0 {
        lemma_own_names(ns, dir, n - 1);
    }
}

proof fn lemma_pool_names(rs: Seq<Rec>, ns: Seq<Seq<char>>, dir: Seq<char>, n: int)
    requires
        distinct_names(rs),
        0 <= n <= ns.len(),
    ensures
        distinct_names(with_folder(rs, ns, dir, false, n)),
    decreases n,
{
    if n > 0 {
        lemma_pool_names(rs, ns, dir, n - 1);
        let front = with_folder(rs, ns, dir, false, n - 1);
        let all = with_folder(rs, ns, dir, false, n);
        assert forall|i: int, j: int| 0 <= i < j < all.len() implies (#[trigger] all[i]).name != (
        #[trigger] all[j]).name by {
            if j == front.len() {
                assert(front[i] == all[i]);
                assert(front[i].name != ns[n - 1]);
            } else {
                assert(front[i] == all[i] && front[j] == all[j]);
            }
        }
    }
}

/// What is found under a name is the first of that name, and nothing is found only
/// where nothing bears it.
pub proof fn law_first_named(ns: Seq<Seq<char>>, name: Seq<char>, n: int)
    requires
        0 <= n <= ns.len(),
    ensures
        first_named(ns, name, n) matches Some(i) ==> 0 <= i < n && ns[i] == name && forall|k: int|
            0 <= k < i ==> #[trigger] ns[k] != name,
        first_named(ns, name, n) is None ==> forall|k: int| 0 <= k < n ==> #[trigger] ns[k] != name,
    decreases n,
{
    if n > 0 {
        law_first_named(ns, name, n - 1);
    }
}

/// A file keeps its older name where it has only that, and has the newer one
/// everywhere else.
pub proof fn law_preferred(disk: Disk, stem: Seq<char>, new: Seq<char>, old: Seq<char>)
    ensures
        disk.holds(stem + new) ==> preferred(disk, stem, new, old) == stem + new,
        disk.holds(stem + old) ==> disk.holds(preferred(disk, stem, new, old)),
        !disk.holds(stem + old) ==> preferred(disk, stem, new, old) == stem + new,
{
}

/// The recordings among some files are those whose names say so, in their order;
/// where some are of the one kind, those of the other are left out.
pub proof fn law_sonar_among(fs: Seq<Seq<char>>)
    ensures
        sonar_among(fs, true) == fs.filter(|f: Seq<char>| names::with_extension(f, "jsf"@)),
        sonar_among(fs, false) == fs.filter(
            |f: Seq<char>| names::with_extension(f, "jsf"@) || names::with_extension(f, "xtf"@),
        ),
    decreases fs.len(),
{
    reveal(Seq::filter);
    if fs.len() > 0 {
        law_sonar_among(fs.drop_last());
    } else {
        assert(sonar_among(fs, true) =~= fs.filter(
            |f: Seq<char>| names::with_extension(f, "jsf"@),
        ));
        assert(sonar_among(fs, false) =~= fs.filter(
            |f: Seq<char>| names::with_extension(f, "jsf"@) || names::with_extension(f, "xtf"@),
        ));
    }
}

/// What a folder adds comes behind what was there, is in the folder, and leaves no
/// name out.
pub proof fn law_folder_is_added(
    rs: Seq<Rec>,
    ns: Seq<Seq<char>>,
    dir: Seq<char>,
    owned: bool,
    n: int,
)
    requires
        0 <= n <= ns.len(),
    ensures
        ({
            let all = with_folder(rs, ns, dir, owned, n);
            &&& rs.len() <= all.len() <= rs.len() + n
            &&& forall|i: int| 0 <= i < rs.len() ==> #[trigger] all[i] == rs[i]
            &&& forall|i: int|
                rs.len() <= i < all.len() ==> (#[trigger] all[i]).owned == owned && all[i].dir
                    == names::joined(dir, all[i].name)
            &&& forall|k: int| 0 <= k < n ==> rec_named(all, #[trigger] ns[k])
            &&& owned ==> all.len() == rs.len() + n
        }),
    decreases n,
{
    if n > 0 {
        law_folder_is_added(rs, ns, dir, owned, n - 1);
        let front = with_folder(rs, ns, dir, owned, n - 1);
        let all = with_folder(rs, ns, dir, owned, n);
        assert forall|k: int| 0 <= k < n implies rec_named(all, #[trigger] ns[k]) by {
            if k < n - 1 {
                assert(rec_named(front, ns[k]));
                let i = choose|i: int| 0 <= i < front.len() && (#[trigger] front[i]).name == ns[k];
                assert(all[i] == front[i]);
            } else if all.len() > front.len() {
                assert(all[front.len() as int].name == ns[k]);
            }
        }
    }
}

/// A dataset that a project holds is shown as its own, in the project's folder, and
/// one of the pool is shown unless the project has one of its name.
pub proof fn law_what_is_visible(
    w: Workspace,
    p: Seq<char>,
    held: Seq<Seq<char>>,
    pool: Seq<Seq<char>>,
    loose: bool,
)
    ensures
        ({
            let all = visible(w, Some(p), held, pool, loose);
            &&& all.len() >= held.len()
            &&& forall|i: int|
                0 <= i < held.len() ==> (#[trigger] all[i]).owned && all[i].dir == names::joined(
                    w.in_project(p, "data"@),
                    all[i].name,
                )
            &&& forall|k: int| 0 <= k < held.len() ==> rec_named(all, #[trigger] held[k])
            &&& forall|k: int| 0 <= k < pool.len() ==> rec_named(all, #[trigger] pool[k])
            &&& forall|i: int|
                held.len() <= i < all.len() ==> !(#[trigger] all[i]).owned
        }),
{
    let data = w.in_project(p, "data"@);
    let own = with_folder(Seq::empty(), held, data, true, held.len() as int);
    law_folder_is_added(Seq::empty(), held, data, true, held.len() as int);
    law_folder_is_added(own, pool, w.data_path(), false, pool.len() as int);
    let all = with_folder(own, pool, w.data_path(), false, pool.len() as int);
    assert forall|k: int| 0 <= k < held.len() implies rec_named(all, #[trigger] held[k]) by {
        assert(rec_named(own, held[k]));
        let i = choose|i: int| 0 <= i < own.len() && (#[trigger] own[i]).name == held[k];
        assert(all[i] == own[i]);
    }
    assert(forall|i: int| 0 <= i < own.len() ==> #[trigger] all[i] == own[i]);
    if all.len() == 0 && loose {
        assert(forall|k: int| 0 <= k < pool.len() ==> !rec_named(all, #[trigger] pool[k]));
        assert(pool.len() == 0) by {
            if pool.len() > 0 {
                assert(rec_named(all, pool[0]));
            }
        }
    }
}

/// What is of a dataset or of a project is in a folder of its name.
pub proof fn law_folders(w: Workspace, name: Seq<char>)
    requires
        name.len() > 0,
        name != "."@,
        name != ".."@,
        forall|i: int| 0 <= i < name.len() ==> #[trigger] name[i] != '/',
    ensures
        names::file_name(w.out_path(name)) == name,
        names::file_name(w.project_folder(name)) == name,
        names::file_name(w.in_project(name, "data"@)) == "data"@,
        w.project_folder(name).is_prefix_of(w.in_project(name, "data"@)),
        names::joined(w.root@, "out"@).is_prefix_of(w.out_path(name)),
        names::joined(w.root@, "projects"@).is_prefix_of(w.project_folder(name)),
{
    reveal_strlit("data");
    reveal_strlit(".");
    reveal_strlit("..");
    assert("data"@.len() == 4 && "."@.len() == 1 && ".."@.len() == 2);
    names::law_file_in_folder(names::joined(w.root@, "out"@), name);
    names::law_file_in_folder(names::joined(w.root@, "projects"@), name);
    names::law_file_in_folder(w.project_folder(name), "data"@);
}

/// A band's product is told from another's by its number.
pub proof fn law_bands_have_their_ids(kind: Seq<char>, dataset: Seq<char>, a: u8, b: u8)
    requires
        band_id(kind, dataset, a) == band_id(kind, dataset, b),
    ensures
        a == b,
{
    let p = kind + dataset + ":"@;
    let (x, y) = (text::dec(a as nat), text::dec(b as nat));
    let (s, t) = (band_id(kind, dataset, a), band_id(kind, dataset, b));
    assert(s =~= p + x);
    assert(t =~= p + y);
    assert(s.skip(p.len() as int) =~= x);
    assert(t.skip(p.len() as int) =~= y);
    text::law_written_number_is_read(a as nat, 0);
    text::law_written_number_is_read(b as nat, 0);
}

} // verus!
