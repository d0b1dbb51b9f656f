//! What is refused before a recording or a project is moved about.

use vstd::prelude::*;

use crate::names;
use crate::names::{is_plain_name, join};
use crate::project::{Disk, Placement, Workspace};
use crate::text::{copy, push_str};

verus! {

/// Why something was not done.
#[derive(Debug)]
pub struct Refused {
    pub kind: RefusedKind,
    pub message: String,
}

#[derive(Clone, Copy, Debug, PartialEq, Eq, Structural)]
pub enum RefusedKind {
    InvalidInput,
    NotFound,
    AlreadyExists,
    Other,
}

/// A refusal.
pub struct No {
    pub kind: RefusedKind,
    pub message: Seq<char>,
}

impl View for Refused {
    type V = No;

    open spec fn view(&self) -> No {
        No { kind: self.kind, message: self.message@ }
    }
}

fn refuse(kind: RefusedKind, message: &str) -> (r: Refused)
    ensures
        r@ == (No { kind, message: message@ }),
{
    Refused { kind, message: copy(message) }
}

fn refuse_with(kind: RefusedKind, before: &str, what: &str, after: &str) -> (r: Refused)
    ensures
        r@ == (No { kind, message: before@ + what@ + after@ }),
{
    let mut s = copy(before);
    push_str(&mut s, what);
    push_str(&mut s, after);
    Refused { kind, message: s }
}

/// Whether a name is one that a folder can have.
pub open spec fn plain(name: Seq<char>) -> bool {
    name.len() > 0 && name == names::sanitised(name)
}

/// What is known of a folder that is to be imported.
#[derive(Clone, Copy, Debug, PartialEq, Eq, Structural)]
pub struct SourceFolder {
    pub is_dir: bool,
    pub has_sonar: bool,
    /// Whether the workspace lies in it, or is it.
    pub holds_workspace: bool,
}

/// Where a folder of recordings goes, or why it is not taken in.
pub open spec fn import_target(
    w: Workspace,
    project: Seq<char>,
    src: Seq<char>,
    name: Seq<char>,
    how: Placement,
    f: SourceFolder,
    disk: Disk,
) -> Result<Seq<char>, No> {
    let dest = names::joined(w.in_project(project, "data"@), name);
    if !f.is_dir {
        Err(No { kind: RefusedKind::InvalidInput, message: "not a folder"@ })
    } else if !f.has_sonar {
        Err(
            No {
                kind: RefusedKind::InvalidInput,
                message: ""@ + src + " holds no .jsf or .xtf files"@,
            },
        )
    } else if !plain(name) {
        Err(
            No {
                kind: RefusedKind::InvalidInput,
                message: "a recording name is one plain folder name"@,
            },
        )
    } else if w.taken(disk, name) {
        Err(
            No {
                kind: RefusedKind::AlreadyExists,
                message: "a recording called "@ + name + " is already in this workspace"@,
            },
        )
    } else if how == Placement::Move && f.holds_workspace {
        Err(
            No {
                kind: RefusedKind::InvalidInput,
                message:
                    "that folder contains the workspace; moving it would take the workspace with it"@,
            },
        )
    } else if disk.holds(dest) {
        Err(No { kind: RefusedKind::AlreadyExists, message: "already there"@ })
    } else {
        Ok(dest)
    }
}

impl Workspace {
    /// Check that a folder of recordings can be brought into a project, and say
    /// where it goes. The name has to be free in the whole workspace.
    pub fn import_dataset(
        &self,
        project: &str,
        src: &str,
        name: &str,
        how: Placement,
        f: SourceFolder,
        disk: &Disk,
    ) -> (r: Result<String, Refused>)
        ensures
            match import_target(*self, project@, src@, name@, how, f, *disk) {
                Ok(d) => r matches Ok(x) && x@ == d,
                Err(e) => r matches Err(x) && x@ == e,
            },
    {
        if !f.is_dir {
            return Err(refuse(RefusedKind::InvalidInput, "not a folder"));
        }
        if !f.has_sonar {
            return Err(
                refuse_with(RefusedKind::InvalidInput, "", src, " holds no .jsf or .xtf files"),
            );
        }
        if !is_plain_name(name) {
            return Err(
                refuse(RefusedKind::InvalidInput, "a recording name is one plain folder name"),
            );
        }
        if self.dataset_name_taken(name, disk) {
            return Err(
                refuse_with(
                    RefusedKind::AlreadyExists,
                    "a recording called ",
                    name,
                    " is already in this workspace",
                ),
            );
        }
        if how == Placement::Move && f.holds_workspace {
            return Err(
                refuse(
                    RefusedKind::InvalidInput,
                    "that folder contains the workspace; moving it would take the workspace with it",
                ),
            );
        }
        let dir = self.project_data_dir(project);
        let dest = join(dir.as_str(), name);
        if disk.has(dest.as_str()) {
            return Err(refuse(RefusedKind::AlreadyExists, "already there"));
        }
        Ok(dest)
    }
}

/// How a recording is taken out of a project's own folder: a link is unlinked
/// and what it points at left alone; any other goes for good.
#[derive(Clone, Copy, Debug, PartialEq, Eq, Structural)]
pub enum Removal {
    Unlink,
    Delete,
}

/// How a recording that is there, a link or not, is taken out of a project, or
/// why it is not.
pub open spec fn removal_of(project: Seq<char>, name: Seq<char>, there: Option<bool>) -> Result<
    Removal,
    No,
> {
    if !plain(name) {
        Err(No { kind: RefusedKind::InvalidInput, message: "not a recording name"@ })
    } else {
        match there {
            None => Err(
                No {
                    kind: RefusedKind::NotFound,
                    message: project + " does not hold "@ + name
                        + "; a recording in data/ is shared, and unticking it is the whole of removing it here"@,
                },
            ),
            Some(true) => Ok(Removal::Unlink),
            Some(false) => Ok(Removal::Delete),
        }
    }
}

/// Check that a recording can be taken out of a project. Only one in the
/// project's own folder can: one in the shared pool is not the project's to
/// delete.
pub fn remove_dataset(project: &str, name: &str, there: Option<bool>) -> (r: Result<
    Removal,
    Refused,
>)
    ensures
        match removal_of(project@, name@, there) {
            Ok(d) => r matches Ok(x) && x == d,
            Err(e) => r matches Err(x) && x@ == e,
        },
{
    if !is_plain_name(name) {
        return Err(refuse(RefusedKind::InvalidInput, "not a recording name"));
    }
    match there {
        None => {
            let mut s = copy(project);
            push_str(&mut s, " does not hold ");
            push_str(&mut s, name);
            push_str(
                &mut s,
                "; a recording in data/ is shared, and unticking it is the whole of removing it here",
            );
            Err(Refused { kind: RefusedKind::NotFound, message: s })
        },
        Some(true) => Ok(Removal::Unlink),
        Some(false) => Ok(Removal::Delete),
    }
}

/// Where a project is and where it goes, or why it is not renamed or copied.
pub open spec fn move_target(w: Workspace, from: Seq<char>, to: Seq<char>, disk: Disk) -> Result<
    (Seq<char>, Seq<char>),
    No,
> {
    if !plain(from) || !plain(to) {
        Err(No { kind: RefusedKind::InvalidInput, message: "not a project name"@ })
    } else if !disk.holds(w.in_project(from, "project.json"@)) {
        Err(No { kind: RefusedKind::NotFound, message: "no project "@ + from + ""@ })
    } else if disk.holds(w.project_folder(to)) {
        Err(
            No {
                kind: RefusedKind::AlreadyExists,
                message: "a project called "@ + to + " already exists"@,
            },
        )
    } else {
        Ok((w.project_folder(from), w.project_folder(to)))
    }
}

impl Workspace {
    /// Check a project rename or copy before anything moves.
    pub fn project_move_paths(&self, from: &str, to: &str, disk: &Disk) -> (r: Result<
        (String, String),
        Refused,
    >)
        ensures
            match move_target(*self, from@, to@, *disk) {
                Ok((a, b)) => r matches Ok(x) && x.0@ == a && x.1@ == b,
                Err(e) => r matches Err(x) && x@ == e,
            },
    {
        if !is_plain_name(from) || !is_plain_name(to) {
            return Err(refuse(RefusedKind::InvalidInput, "not a project name"));
        }
        let file = self.project_path(from);
        if !disk.has(file.as_str()) {
            return Err(refuse_with(RefusedKind::NotFound, "no project ", from, ""));
        }
        let a = self.project_dir(from);
        let b = self.project_dir(to);
        if disk.has(b.as_str()) {
            return Err(
                refuse_with(
                    RefusedKind::AlreadyExists,
                    "a project called ",
                    to,
                    " already exists",
                ),
            );
        }
        Ok((a, b))
    }
}

/// Names with commas between them.
pub open spec fn listed(ns: Seq<Seq<char>>) -> Seq<char>
    decreases ns.len(),
{
    if ns.len() == 0 {
        Seq::empty()
    } else if ns.len() == 1 {
        ns[0]
    } else {
        listed(ns.drop_last()) + ", "@ + ns.last()
    }
}

/// Names with commas between them.
pub fn list_names(v: &Vec<String>) -> (s: String)
    ensures
        s@ == listed(names::views(v@)),
{
    let ghost ns = names::views(v@);
    let mut s = String::new();
    let mut i: usize = 0;
    proof {
        assert(ns.take(0) =~= Seq::<Seq<char>>::empty());
    }
    while i < v.len()
        invariant
            i <= v@.len(),
            ns == names::views(v@),
            s@ == listed(ns.take(i as int)),
        decreases v.len() - i,
    {
        if i > 0 {
            push_str(&mut s, ", ");
        }
        push_str(&mut s, v[i].as_str());
        proof {
            let t = ns.take(i + 1);
            assert(t.drop_last() =~= ns.take(i as int));
            assert(t.last() == v@[i as int]@);
            if i == 0 {
                assert(s@ =~= t[0]);
            }
        }
        i += 1;
    }
    proof {
        assert(ns.take(v@.len() as int) =~= ns);
    }
    s
}

/// Whether a project may be deleted, or why not.
pub open spec fn deletion(w: Workspace, name: Seq<char>, holds: Seq<Seq<char>>, with_data: bool, disk:
    Disk) -> Result<Seq<char>, No> {
    if !plain(name) {
        Err(No { kind: RefusedKind::InvalidInput, message: "not a project name"@ })
    } else if !disk.holds(w.in_project(name, "project.json"@)) {
        Err(No { kind: RefusedKind::NotFound, message: "no project "@ + name + ""@ })
    } else if holds.len() > 0 && !with_data {
        Err(
            No {
                kind: RefusedKind::Other,
                message: name + " holds "@ + listed(holds) + ", which nothing else has"@,
            },
        )
    } else {
        Ok(w.project_folder(name))
    }
}

impl Workspace {
    /// Check that a project can be deleted, and say which folder goes.
    ///
    /// Refuses while the project holds a recording of its own unless that is
    /// said out loud: a linked recording costs nothing to lose and a moved one
    /// is the only copy there is.
    pub fn delete_project(
        &self,
        name: &str,
        holds: &Vec<String>,
        with_data: bool,
        disk: &Disk,
    ) -> (r: Result<String, Refused>)
        ensures
            match deletion(*self, name@, names::views(holds@), with_data, *disk) {
                Ok(d) => r matches Ok(x) && x@ == d,
                Err(e) => r matches Err(x) && x@ == e,
            },
    {
        if !is_plain_name(name) {
            return Err(refuse(RefusedKind::InvalidInput, "not a project name"));
        }
        let file = self.project_path(name);
        if !disk.has(file.as_str()) {
            return Err(refuse_with(RefusedKind::NotFound, "no project ", name, ""));
        }
        if holds.len() > 0 && !with_data {
            let list = list_names(holds);
            let mut s = copy(name);
            push_str(&mut s, " holds ");
            push_str(&mut s, list.as_str());
            push_str(&mut s, ", which nothing else has");
            return Err(Refused { kind: RefusedKind::Other, message: s });
        }
        Ok(self.project_dir(name))
    }
}

/// Whatever is imported, renamed, copied or deleted is a plain folder of the
/// workspace: its name holds no separator and is no step up.
pub proof fn law_moves_stay_inside(
    w: Workspace,
    project: Seq<char>,
    src: Seq<char>,
    name: Seq<char>,
    how: Placement,
    f: SourceFolder,
    disk: Disk,
)
    ensures
        import_target(w, project, src, name, how, f, disk) is Ok ==> !name.contains('/') && name
            != ".."@ && name[0] != '.',
        (forall|to: Seq<char>| #[trigger]
            move_target(w, name, to, disk) is Ok ==> !name.contains('/') && !to.contains('/')
                && name != ".."@ && to != ".."@),
{
    names::law_plain_name(name);
    assert forall|to: Seq<char>| #[trigger]
        move_target(w, name, to, disk) is Ok implies !name.contains('/') && !to.contains('/')
        && name != ".."@ && to != ".."@ by {
        names::law_plain_name(to);
    }
}

/// A recording is taken in if it is a folder of recordings, has a plain name that
/// nothing else bears, is not to be moved with the workspace in it, and has a free
/// place in the project.
pub proof fn law_what_is_taken_in(
    w: Workspace,
    project: Seq<char>,
    src: Seq<char>,
    name: Seq<char>,
    how: Placement,
    f: SourceFolder,
    disk: Disk,
)
    ensures
        import_target(w, project, src, name, how, f, disk) is Ok <==> f.is_dir && f.has_sonar
            && name.len() > 0 && names::sanitised(name) == name && !w.taken(disk, name) && !(how
            is Move && f.holds_workspace) && !disk.holds(
            names::joined(w.in_project(project, "data"@), name),
        ),
        import_target(w, project, src, name, how, f, disk) matches Ok(d) ==> d == names::joined(
            w.in_project(project, "data"@),
            name,
        ),
        f.is_dir && f.has_sonar && plain(name) && w.taken(disk, name) ==> (import_target(
            w,
            project,
            src,
            name,
            how,
            f,
            disk,
        ) matches Err(e) && e.kind is AlreadyExists),
{
}

/// A link is taken off and a folder of a project's own is deleted; what the project
/// does not hold stays where it is.
pub proof fn law_removal(project: Seq<char>, name: Seq<char>, there: Option<bool>)
    ensures
        removal_of(project, name, there) == Ok::<Removal, No>(Removal::Delete) ==> there == Some(
            false,
        ),
        removal_of(project, name, there) == Ok::<Removal, No>(Removal::Unlink) ==> there == Some(
            true,
        ),
        plain(name) ==> (removal_of(project, name, there) is Ok <==> there is Some),
        !plain(name) ==> removal_of(project, name, there) is Err,
{
}

/// A project is moved only from a name that it has to one that is free.
pub proof fn law_project_moves(w: Workspace, from: Seq<char>, to: Seq<char>, disk: Disk)
    ensures
        move_target(w, from, to, disk) is Ok <==> plain(from) && plain(to) && disk.holds(
            w.in_project(from, "project.json"@),
        ) && !disk.holds(w.project_folder(to)),
        move_target(w, from, to, disk) matches Ok(p) ==> p.0 == w.project_folder(from) && p.1
            == w.project_folder(to),
{
}

/// A project that holds recordings is deleted only where that was asked for.
pub proof fn law_no_recording_is_lost(
    w: Workspace,
    name: Seq<char>,
    holds: Seq<Seq<char>>,
    with_data: bool,
    disk: Disk,
)
    ensures
        deletion(w, name, holds, with_data, disk) is Ok <==> plain(name) && disk.holds(
            w.in_project(name, "project.json"@),
        ) && (with_data || holds.len() == 0),
        deletion(w, name, holds, with_data, disk) matches Ok(p) ==> p == w.project_folder(name),
{
}

} // verus!
