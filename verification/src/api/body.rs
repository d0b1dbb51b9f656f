//! What the bodies of requests ask for. A body is JSON, and what is asked for
//! stands in the members of its object.

use vstd::prelude::*;

use crate::api;
use crate::api::gate::{Gate, Need};
use crate::api::route::Action;
use crate::api::{import_request, Response};
use crate::plan::export::Wishes;
use crate::project::Placement;

verus! {

// ---- members ---------------------------------------------------------------------

/// Whether bytes are JSON: whether `serde_json::from_slice` reads a value from
/// them.
pub uninterp spec fn is_json(body: Seq<u8>) -> bool;

/// The text of a member of the object that bytes hold, by
/// `serde_json::Value::as_str`: none where they hold no object, the object has
/// no such member, or the member is not a text.
pub uninterp spec fn text_of_member(body: Seq<u8>, key: Seq<char>) -> Option<Seq<char>>;

/// As for texts, whether a member says yes or no, by
/// `serde_json::Value::as_bool`.
pub uninterp spec fn flag_of_member(body: Seq<u8>, key: Seq<char>) -> Option<bool>;

/// As for texts, a member that is a whole number and not negative, by
/// `serde_json::Value::as_u64`.
pub uninterp spec fn number_of_member(body: Seq<u8>, key: Seq<char>) -> Option<u64>;

/// As for texts, how many values a member lists, by
/// `serde_json::Value::as_array`.
pub uninterp spec fn count_of_member(body: Seq<u8>, key: Seq<char>) -> Option<nat>;

/// `serde_json::from_slice` into a `Value`, then `Value::get` and
/// `Value::as_str`: none where the bytes are not JSON, and then the text of the
/// member, if it is one. Which bytes are JSON and which text a member has is
/// named and not stated; it depends on the bytes and the key alone.
#[verifier::external_body]
fn text_member(body: &[u8], key: &str) -> (r: Option<Option<String>>)
    ensures
        r is Some == is_json(body@),
        r matches Some(m) ==> match text_of_member(body@, key@) {
            Some(s) => m matches Some(t) && t@ == s,
            None => m is None,
        },
{
    match serde_json::from_slice::<serde_json::Value>(body) {
        Ok(v) => Some(v.get(key).and_then(|x| x.as_str()).map(|s| s.to_string())),
        Err(_) => None,
    }
}

/// `serde_json::from_slice` into a `Value`, then `Value::get` and
/// `Value::as_bool`, as for texts.
#[verifier::external_body]
fn flag_member(body: &[u8], key: &str) -> (r: Option<Option<bool>>)
    ensures
        r is Some == is_json(body@),
        r matches Some(m) ==> m == flag_of_member(body@, key@),
{
    match serde_json::from_slice::<serde_json::Value>(body) {
        Ok(v) => Some(v.get(key).and_then(|x| x.as_bool())),
        Err(_) => None,
    }
}

/// `serde_json::from_slice` into a `Value`, then `Value::get` and
/// `Value::as_u64`, as for texts.
#[verifier::external_body]
fn number_member(body: &[u8], key: &str) -> (r: Option<Option<u64>>)
    ensures
        r is Some == is_json(body@),
        r matches Some(m) ==> m == number_of_member(body@, key@),
{
    match serde_json::from_slice::<serde_json::Value>(body) {
        Ok(v) => Some(v.get(key).and_then(|x| x.as_u64())),
        Err(_) => None,
    }
}

/// `serde_json::from_slice` into a `Value`, then `Value::get` and
/// `Value::as_array`, as for texts; the length of the list.
#[verifier::external_body]
fn count_member(body: &[u8], key: &str) -> (r: Option<Option<usize>>)
    ensures
        r is Some == is_json(body@),
        r matches Some(m) ==> match count_of_member(body@, key@) {
            Some(n) => m matches Some(k) && k == n,
            None => m is None,
        },
{
    match serde_json::from_slice::<serde_json::Value>(body) {
        Ok(v) => Some(v.get(key).and_then(|x| x.as_array()).map(|a| a.len())),
        Err(_) => None,
    }
}

// ---- what is read -----------------------------------------------------------------

/// What is read of a body: nothing where it is not JSON, and then a member, if
/// there is one.
pub open spec fn read<A>(body: Seq<u8>, member: Option<A>) -> Option<Option<A>> {
    if is_json(body) {
        Some(member)
    } else {
        None
    }
}

/// A text that may be missing.
pub open spec fn seen(m: Option<String>) -> Option<Seq<char>> {
    match m {
        Some(s) => Some(s@),
        None => None,
    }
}

/// What was read of a text.
pub open spec fn told(m: Option<Option<String>>) -> Option<Option<Seq<char>>> {
    match m {
        Some(x) => Some(seen(x)),
        None => None,
    }
}

/// A text that may be left out.
pub open spec fn or_empty(m: Option<Seq<char>>) -> Seq<char> {
    match m {
        Some(s) => s,
        None => Seq::empty(),
    }
}

/// A yes or no that may be left out.
pub open spec fn or_flag(m: Option<bool>, default: bool) -> bool {
    match m {
        Some(b) => b,
        None => default,
    }
}

/// The channel that a number means: its lowest eight bits, and the low band
/// where none is given.
pub open spec fn channel_from(m: Option<u64>) -> u8 {
    match m {
        Some(n) => (n % 256) as u8,
        None => 20,
    }
}

/// A text that may be left out.
pub fn text_or_empty(m: Option<String>) -> (s: String)
    ensures
        s@ == or_empty(seen(m)),
{
    match m {
        Some(s) => s,
        None => String::new(),
    }
}

/// A yes or no that may be left out.
pub fn flag_or(m: Option<bool>, default: bool) -> (b: bool)
    ensures
        b == or_flag(m, default),
{
    match m {
        Some(b) => b,
        None => default,
    }
}

/// The channel that a number means.
pub fn channel(m: Option<u64>) -> (c: u8)
    ensures
        c == channel_from(m),
{
    match m {
        Some(n) => (n % 256) as u8,
        None => 20,
    }
}

/// Whether a gate stopped before a need, with the answer that this need is
/// missing.
pub open spec fn stopped<T>(r: Result<T, Response>, g: Gate, at: int, need: Need) -> bool {
    g.at == at && (r matches Err(e) && need.answered_by(e, ""@))
}

// ---- a project that is named -------------------------------------------------------

/// Whether this is what a request comes to that names a project, by what was
/// read of the name.
pub open spec fn names_project(
    r: Result<String, Response>,
    g: Gate,
    name: Option<Option<Seq<char>>>,
) -> bool {
    match name {
        None => stopped(r, g, 0, Need::Json),
        Some(None) => stopped(r, g, 1, Need::Name),
        Some(Some(s)) => g.at == 2 && (r matches Ok(n) && n@ == s),
    }
}

/// The project that is to be opened or created, given what was read of its name.
pub fn named_from(name: Option<Option<String>>, g: &mut Gate) -> (r: Result<String, Response>)
    requires
        old(g).of(Action::OpenProject) || old(g).of(Action::NewProject),
        old(g).at == 0,
    ensures
        final(g).needs == old(g).needs,
        names_project(r, *final(g), told(name)),
{
    match g.take(name) {
        Ok(m) => g.take(m),
        Err(e) => Err(e),
    }
}

/// The project that is to be opened or created.
pub fn named_project(body: &[u8], g: &mut Gate) -> (r: Result<String, Response>)
    requires
        old(g).of(Action::OpenProject) || old(g).of(Action::NewProject),
        old(g).at == 0,
    ensures
        final(g).needs == old(g).needs,
        names_project(r, *final(g), read(body@, text_of_member(body@, "name"@))),
{
    named_from(text_member(body, "name"), g)
}

// ---- a project that gets another name ------------------------------------------------

/// What a project is called, and what it or its copy is to be called.
pub struct Renaming {
    pub from: String,
    pub to: String,
}

/// Whether this is what a request comes to that gives a project another name, by
/// what was read of both names.
pub open spec fn renames(
    r: Result<Renaming, Response>,
    g: Gate,
    from: Option<Option<Seq<char>>>,
    to: Option<Option<Seq<char>>>,
) -> bool {
    match (from, to) {
        (Some(f), Some(t)) => g.at == 1 && (r matches Ok(x) && x.from@ == or_empty(f) && x.to@
            == or_empty(t)),
        _ => stopped(r, g, 0, Need::Json),
    }
}

/// Which project is to be renamed or copied, and to what, given what was read of
/// both names.
pub fn renaming_from(
    from: Option<Option<String>>,
    to: Option<Option<String>>,
    g: &mut Gate,
) -> (r: Result<Renaming, Response>)
    requires
        old(g).of(Action::RenameProject) || old(g).of(Action::DuplicateProject),
        old(g).at == 0,
    ensures
        final(g).needs == old(g).needs,
        renames(r, *final(g), told(from), told(to)),
{
    let v = match (from, to) {
        (Some(f), Some(t)) => Some(Renaming { from: text_or_empty(f), to: text_or_empty(t) }),
        _ => None,
    };
    g.take(v)
}

/// Which project is to be renamed or copied, and to what.
pub fn renaming(body: &[u8], g: &mut Gate) -> (r: Result<Renaming, Response>)
    requires
        old(g).of(Action::RenameProject) || old(g).of(Action::DuplicateProject),
        old(g).at == 0,
    ensures
        final(g).needs == old(g).needs,
        renames(
            r,
            *final(g),
            read(body@, text_of_member(body@, "from"@)),
            read(body@, text_of_member(body@, "to"@)),
        ),
{
    let from = text_member(body, "from");
    let to = text_member(body, "to");
    renaming_from(from, to, g)
}

// ---- something that is removed -------------------------------------------------------

/// What is to be removed, and whether what belongs to it goes too.
pub struct Removing {
    pub name: String,
    pub all: bool,
}

/// Whether this is what a request comes to that removes a project, by what was
/// read of its name and of whether its recordings go too.
pub open spec fn deletes(
    r: Result<Removing, Response>,
    g: Gate,
    name: Option<Option<Seq<char>>>,
    with_data: Option<Option<bool>>,
) -> bool {
    match (name, with_data) {
        (Some(n), Some(w)) => g.at == 1 && (r matches Ok(x) && x.name@ == or_empty(n) && x.all
            == or_flag(w, false)),
        _ => stopped(r, g, 0, Need::Json),
    }
}

/// The project that is to be deleted, given what was read: its recordings stay
/// unless it is said.
pub fn deletion_from(
    name: Option<Option<String>>,
    with_data: Option<Option<bool>>,
    g: &mut Gate,
) -> (r: Result<Removing, Response>)
    requires
        old(g).of(Action::DeleteProject),
        old(g).at == 0,
    ensures
        final(g).needs == old(g).needs,
        deletes(r, *final(g), told(name), with_data),
{
    let v = match (name, with_data) {
        (Some(n), Some(w)) => Some(Removing { name: text_or_empty(n), all: flag_or(w, false) }),
        _ => None,
    };
    g.take(v)
}

/// The project that is to be deleted, and whether its recordings go too.
pub fn deletion(body: &[u8], g: &mut Gate) -> (r: Result<Removing, Response>)
    requires
        old(g).of(Action::DeleteProject),
        old(g).at == 0,
    ensures
        final(g).needs == old(g).needs,
        deletes(
            r,
            *final(g),
            read(body@, text_of_member(body@, "name"@)),
            read(body@, flag_of_member(body@, "with_data"@)),
        ),
{
    let name = text_member(body, "name");
    let with_data = flag_member(body, "with_data");
    deletion_from(name, with_data, g)
}

/// Whether this is what a request comes to that takes a recording out of the
/// open project, by what was read of its name and of whether what was made from
/// it goes too.
pub open spec fn removes(
    r: Result<Removing, Response>,
    g: Gate,
    open: bool,
    name: Option<Option<Seq<char>>>,
    derived: Option<Option<bool>>,
) -> bool {
    match (name, derived) {
        (Some(n), Some(d)) => if open {
            g.at == 2 && (r matches Ok(x) && x.name@ == or_empty(n) && x.all == or_flag(d, true))
        } else {
            stopped(r, g, 1, Need::ProjectToChange)
        },
        _ => stopped(r, g, 0, Need::Json),
    }
}

/// The recording that is to be taken out of the open project, given what was
/// read: what was made from it goes too unless it is said that it stays.
pub fn removal_from(
    name: Option<Option<String>>,
    derived: Option<Option<bool>>,
    open: bool,
    g: &mut Gate,
) -> (r: Result<Removing, Response>)
    requires
        old(g).of(Action::RemoveDataset),
        old(g).at == 0,
    ensures
        final(g).needs == old(g).needs,
        removes(r, *final(g), open, told(name), derived),
{
    let v = match (name, derived) {
        (Some(n), Some(d)) => Some(Removing { name: text_or_empty(n), all: flag_or(d, true) }),
        _ => None,
    };
    match g.take(v) {
        Ok(x) => {
            let there = if open {
                Some(x)
            } else {
                None
            };
            g.take(there)
        },
        Err(e) => Err(e),
    }
}

/// The recording that is to be taken out of the open project, and whether what
/// was made from it goes too.
pub fn removal(body: &[u8], open: bool, g: &mut Gate) -> (r: Result<Removing, Response>)
    requires
        old(g).of(Action::RemoveDataset),
        old(g).at == 0,
    ensures
        final(g).needs == old(g).needs,
        removes(
            r,
            *final(g),
            open,
            read(body@, text_of_member(body@, "name"@)),
            read(body@, flag_of_member(body@, "derived"@)),
        ),
{
    let name = text_member(body, "name");
    let derived = flag_member(body, "derived");
    removal_from(name, derived, open, g)
}

/// Whether this is what a request comes to that lets go of a recording, by what
/// was read of its name.
pub open spec fn unloads(
    r: Result<Option<String>, Response>,
    g: Gate,
    name: Option<Option<Seq<char>>>,
) -> bool {
    match name {
        None => stopped(r, g, 0, Need::Json),
        Some(n) => g.at == 1 && (r matches Ok(x) && seen(x) == n),
    }
}

/// The recording that is to be let go of, where one is named, given what was
/// read.
pub fn unloading_from(name: Option<Option<String>>, g: &mut Gate) -> (r: Result<
    Option<String>,
    Response,
>)
    requires
        old(g).of(Action::UnloadDataset),
        old(g).at == 0,
    ensures
        final(g).needs == old(g).needs,
        unloads(r, *final(g), told(name)),
{
    g.take(name)
}

/// The recording that is to be let go of, where one is named.
pub fn unloading(body: &[u8], g: &mut Gate) -> (r: Result<Option<String>, Response>)
    requires
        old(g).of(Action::UnloadDataset),
        old(g).at == 0,
    ensures
        final(g).needs == old(g).needs,
        unloads(r, *final(g), read(body@, text_of_member(body@, "name"@))),
{
    unloading_from(text_member(body, "name"), g)
}

// ---- a folder that is brought in -----------------------------------------------------

/// A folder that is to be brought in, what it is to be called and how.
pub struct Importing {
    pub path: String,
    pub name: String,
    pub how: Placement,
}

/// Whether this is what a request comes to that brings a folder into the open
/// project, by what was read of the path, the name and the way.
pub open spec fn imports(
    r: Result<Importing, Response>,
    g: Gate,
    open: bool,
    path: Option<Option<Seq<char>>>,
    name: Option<Option<Seq<char>>>,
    mode: Option<Option<Seq<char>>>,
) -> bool {
    match (path, name, mode) {
        (Some(p), Some(n), Some(m)) => {
            let called = api::import_name(n, or_empty(p));
            let how = api::import_mode(m);
            if !open {
                stopped(r, g, 1, Need::ProjectToFill)
            } else if p is None {
                stopped(r, g, 2, Need::Path)
            } else if called.len() == 0 {
                g.at == 3 && (r matches Err(e) && Need::Work(400).answered_by(
                    e,
                    "a recording needs a name"@,
                ))
            } else if how is None {
                g.at == 3 && (r matches Err(e) && Need::Work(400).answered_by(
                    e,
                    "unknown mode "@ + m->0,
                ))
            } else {
                g.at == 4 && (r matches Ok(x) && x.path@ == p->0 && x.name@ == called && x.how
                    == how->0)
            }
        },
        _ => stopped(r, g, 0, Need::Json),
    }
}

fn words(s: &Option<String>) -> (r: Option<&str>)
    ensures
        api::seen(r) == seen(*s),
{
    match s {
        Some(x) => Some(x.as_str()),
        None => None,
    }
}

/// The folder that is to be brought into the open project, given what was read.
pub fn importing_from(
    path: Option<Option<String>>,
    name: Option<Option<String>>,
    mode: Option<Option<String>>,
    open: bool,
    g: &mut Gate,
) -> (r: Result<Importing, Response>)
    requires
        old(g).of(Action::ImportDataset),
        old(g).at == 0,
    ensures
        final(g).needs == old(g).needs,
        imports(r, *final(g), open, told(path), told(name), told(mode)),
{
    let v = match (path, name, mode) {
        (Some(p), Some(n), Some(m)) => Some((p, n, m)),
        _ => None,
    };
    let (path, name, mode) = match g.take(v) {
        Ok(x) => x,
        Err(e) => {
            return Err(e);
        },
    };
    let there = if open {
        Some(path)
    } else {
        None
    };
    let path = match g.take(there) {
        Ok(p) => p,
        Err(e) => {
            return Err(e);
        },
    };
    let path = match g.take(path) {
        Ok(p) => p,
        Err(e) => {
            return Err(e);
        },
    };
    match import_request(words(&name), path.as_str(), words(&mode)) {
        Ok((name, how)) => g.take(Some(Importing { path, name, how })),
        Err(e) => {
            let said = e.message();
            Err(Need::Work(400).refusal(said.as_str()))
        },
    }
}

/// The folder that is to be brought into the open project.
pub fn importing(body: &[u8], open: bool, g: &mut Gate) -> (r: Result<Importing, Response>)
    requires
        old(g).of(Action::ImportDataset),
        old(g).at == 0,
    ensures
        final(g).needs == old(g).needs,
        imports(
            r,
            *final(g),
            open,
            read(body@, text_of_member(body@, "path"@)),
            read(body@, text_of_member(body@, "name"@)),
            read(body@, text_of_member(body@, "mode"@)),
        ),
{
    let path = text_member(body, "path");
    let name = text_member(body, "name");
    let mode = text_member(body, "mode");
    importing_from(path, name, mode, open, g)
}

// ---- a mosaic that is built ----------------------------------------------------------

/// A mosaic that is to be built: of which recording and channel, and whether
/// again where there is one.
pub struct Building {
    pub dataset: String,
    pub subsystem: u8,
    pub force: bool,
}

/// Whether this is what a request comes to that builds a mosaic, by what was
/// read.
pub open spec fn builds(
    r: Result<Building, Response>,
    g: Gate,
    dataset: Option<Option<Seq<char>>>,
    subsystem: Option<Option<u64>>,
    force: Option<Option<bool>>,
) -> bool {
    match (dataset, subsystem, force) {
        (Some(d), Some(s), Some(f)) => g.at == 1 && (r matches Ok(x) && x.dataset@ == or_empty(d)
            && x.subsystem == channel_from(s) && x.force == or_flag(f, false)),
        _ => stopped(r, g, 0, Need::Json),
    }
}

/// The mosaic that is to be built, given what was read.
pub fn building_from(
    dataset: Option<Option<String>>,
    subsystem: Option<Option<u64>>,
    force: Option<Option<bool>>,
    g: &mut Gate,
) -> (r: Result<Building, Response>)
    requires
        old(g).of(Action::BuildMosaic),
        old(g).at == 0,
    ensures
        final(g).needs == old(g).needs,
        builds(r, *final(g), told(dataset), subsystem, force),
{
    let v = match (dataset, subsystem, force) {
        (Some(d), Some(s), Some(f)) => Some(
            Building {
                dataset: text_or_empty(d),
                subsystem: channel(s),
                force: flag_or(f, false),
            },
        ),
        _ => None,
    };
    g.take(v)
}

/// The mosaic that is to be built.
pub fn building(body: &[u8], g: &mut Gate) -> (r: Result<Building, Response>)
    requires
        old(g).of(Action::BuildMosaic),
        old(g).at == 0,
    ensures
        final(g).needs == old(g).needs,
        builds(
            r,
            *final(g),
            read(body@, text_of_member(body@, "dataset"@)),
            read(body@, number_of_member(body@, "subsystem"@)),
            read(body@, flag_of_member(body@, "force"@)),
        ),
{
    let dataset = text_member(body, "dataset");
    let subsystem = number_member(body, "subsystem");
    let force = flag_member(body, "force");
    building_from(dataset, subsystem, force, g)
}

// ---- a file that becomes a layer -----------------------------------------------------

/// A file that is to be imported as a layer, and what it is to be called where
/// that is said.
pub struct Layering {
    pub path: String,
    pub label: Option<String>,
}

/// A label that says something.
pub open spec fn said_label(m: Option<Seq<char>>) -> Option<Seq<char>> {
    match m {
        Some(s) => if s.len() > 0 {
            Some(s)
        } else {
            None
        },
        None => None,
    }
}

/// Whether this is what a request comes to that imports a layer, by what was
/// read of the path and the label.
pub open spec fn layers(
    r: Result<Layering, Response>,
    g: Gate,
    path: Option<Option<Seq<char>>>,
    label: Option<Option<Seq<char>>>,
) -> bool {
    match (path, label) {
        (Some(None), Some(_)) => stopped(r, g, 1, Need::Path),
        (Some(Some(p)), Some(l)) => g.at == 2 && (r matches Ok(x) && x.path@ == p && seen(x.label)
            == said_label(l)),
        _ => stopped(r, g, 0, Need::Json),
    }
}

fn label_said(m: Option<String>) -> (r: Option<String>)
    ensures
        seen(r) == said_label(seen(m)),
{
    match m {
        Some(s) => if s.as_str().is_empty() {
            None
        } else {
            Some(s)
        },
        None => None,
    }
}

/// The file that is to be imported as a layer, given what was read.
pub fn layering_from(
    path: Option<Option<String>>,
    label: Option<Option<String>>,
    g: &mut Gate,
) -> (r: Result<Layering, Response>)
    requires
        old(g).of(Action::ImportLayer),
        old(g).at == 0,
    ensures
        final(g).needs == old(g).needs,
        layers(r, *final(g), told(path), told(label)),
{
    let v = match (path, label) {
        (Some(p), Some(l)) => Some((p, l)),
        _ => None,
    };
    match g.take(v) {
        Ok((p, l)) => match g.take(p) {
            Ok(path) => Ok(Layering { path, label: label_said(l) }),
            Err(e) => Err(e),
        },
        Err(e) => Err(e),
    }
}

/// The file that is to be imported as a layer.
pub fn layering(body: &[u8], g: &mut Gate) -> (r: Result<Layering, Response>)
    requires
        old(g).of(Action::ImportLayer),
        old(g).at == 0,
    ensures
        final(g).needs == old(g).needs,
        layers(
            r,
            *final(g),
            read(body@, text_of_member(body@, "path"@)),
            read(body@, text_of_member(body@, "label"@)),
        ),
{
    let path = text_member(body, "path");
    let label = text_member(body, "label");
    layering_from(path, label, g)
}

// ---- a plan that is written ----------------------------------------------------------

/// What was read of a yes or no, where a body that is not JSON says nothing.
pub open spec fn said(m: Option<Option<bool>>) -> Option<bool> {
    match m {
        Some(x) => x,
        None => None,
    }
}

/// What was read of a yes or no, where a body that is not JSON says nothing.
pub fn wish_from(m: Option<Option<bool>>) -> (r: Option<bool>)
    ensures
        r == said(m),
{
    match m {
        Some(x) => x,
        None => None,
    }
}

/// What is wished for in the files of a plan. A body that is not JSON wishes for
/// nothing.
pub fn wishes(body: &[u8]) -> (w: Wishes)
    ensures
        w == (Wishes {
            track: said(read(body@, flag_of_member(body@, "track"@))),
            routes: said(read(body@, flag_of_member(body@, "routes"@))),
            route_per_line: said(read(body@, flag_of_member(body@, "route_per_line"@))),
            turn_points: said(read(body@, flag_of_member(body@, "turn_points"@))),
            targets: said(read(body@, flag_of_member(body@, "targets"@))),
            line_waypoints: said(read(body@, flag_of_member(body@, "line_waypoints"@))),
        }),
{
    Wishes {
        track: wish_from(flag_member(body, "track")),
        routes: wish_from(flag_member(body, "routes")),
        route_per_line: wish_from(flag_member(body, "route_per_line")),
        turn_points: wish_from(flag_member(body, "turn_points")),
        targets: wish_from(flag_member(body, "targets")),
        line_waypoints: wish_from(flag_member(body, "line_waypoints")),
    }
}

// ---- a file of contacts --------------------------------------------------------------

/// How many contacts a file lists, by what was read of the list.
pub open spec fn listed(m: Option<Option<nat>>) -> nat {
    match m {
        Some(Some(k)) => k,
        _ => 0,
    }
}

/// How many contacts a file lists: none where it is not JSON or lists nothing.
pub fn contact_count(file: &[u8]) -> (n: usize)
    ensures
        n == listed(read(file@, count_of_member(file@, "features"@))),
{
    match count_member(file, "features") {
        Some(Some(k)) => k,
        _ => 0,
    }
}

// ---- what holds of them --------------------------------------------------------------

/// What a body does not say: a project is deleted without its data, what was made of
/// a dataset goes with it, and a mosaic is of the first channel and is not forced.
pub proof fn law_what_is_not_said(
    del: Result<Removing, Response>,
    rem: Result<Removing, Response>,
    b: Result<Building, Response>,
    g: Gate,
    name: Option<Seq<char>>,
)
    ensures
        deletes(del, g, Some(name), Some(None)) ==> del is Ok && !(del->Ok_0).all,
        removes(rem, g, true, Some(name), Some(None)) ==> rem is Ok && (rem->Ok_0).all,
        builds(b, g, Some(name), Some(None), Some(None)) ==> b is Ok && (b->Ok_0).subsystem == 20 && !(
        b->Ok_0).force,
{
}

/// What a body says is what is done.
pub proof fn law_what_is_said(
    del: Result<Removing, Response>,
    rem: Result<Removing, Response>,
    b: Result<Building, Response>,
    g: Gate,
    name: Seq<char>,
    flag: bool,
    channel: u64,
)
    requires
        channel < 256,
    ensures
        deletes(del, g, Some(Some(name)), Some(Some(flag))) ==> del is Ok && (del->Ok_0).name@ == name
            && (del->Ok_0).all == flag,
        removes(rem, g, true, Some(Some(name)), Some(Some(flag))) ==> rem is Ok && (
        rem->Ok_0).name@ == name && (rem->Ok_0).all == flag,
        builds(b, g, Some(Some(name)), Some(Some(channel)), Some(Some(flag))) ==> b is Ok && (
        b->Ok_0).dataset@ == name && (b->Ok_0).subsystem == channel && (b->Ok_0).force == flag,
{
}

/// A project is renamed from the one name to the other.
pub proof fn law_renaming(r: Result<Renaming, Response>, g: Gate, from: Seq<char>, to: Seq<char>)
    ensures
        renames(r, g, Some(Some(from)), Some(Some(to))) ==> r is Ok && (r->Ok_0).from@ == from && (
        r->Ok_0).to@ == to,
{
}

/// A body that is no JSON is refused as the client's fault, whatever was asked.
pub proof fn law_bad_body(
    n: Result<String, Response>,
    m: Result<Renaming, Response>,
    d: Result<Removing, Response>,
    l: Result<Layering, Response>,
    i: Result<Importing, Response>,
    g: Gate,
    open: bool,
)
    ensures
        names_project(n, g, None) ==> n is Err && (n->Err_0).status == 400,
        renames(m, g, None, None) ==> m is Err && (m->Err_0).status == 400,
        deletes(d, g, None, None) ==> d is Err && (d->Err_0).status == 400,
        removes(d, g, open, None, None) ==> d is Err && (d->Err_0).status == 400,
        layers(l, g, None, None) ==> l is Err && (l->Err_0).status == 400,
        imports(i, g, open, None, None, None) ==> i is Err && (i->Err_0).status == 400,
{
}

/// A recording is taken in when a project is open, its path is given, it comes to a
/// name, and the way of placing it is one that is known.
pub proof fn law_importing(
    r: Result<Importing, Response>,
    g: Gate,
    open: bool,
    path: Option<Seq<char>>,
    name: Option<Seq<char>>,
    mode: Option<Seq<char>>,
)
    requires
        imports(r, g, open, Some(path), Some(name), Some(mode)),
    ensures
        r is Ok <==> open && path is Some && api::import_name(name, path->0).len() > 0
            && api::import_mode(mode) is Some,
        r matches Ok(x) ==> Some(x.path@) == path && Some(x.how) == api::import_mode(mode),
        !open ==> r is Err && (r->Err_0).status == 409,
        open && r is Err ==> (r->Err_0).status == 400,
{
}

/// A label that says nothing is none.
pub proof fn law_labels(s: Seq<char>)
    ensures
        s.len() > 0 ==> said_label(Some(s)) == Some(s),
        said_label(Some(Seq::empty())) is None,
        said_label(None) is None,
{
}

} // verus!
