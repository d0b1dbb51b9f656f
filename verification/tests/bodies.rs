use swath::api::body::{
    building, channel, contact_count, deletion, importing, importing_from, layering, named_from,
    named_project, removal, renaming, unloading, wishes,
};
use swath::api::gate::Gate;
use swath::api::route::Action;
use swath::api::{Body, Response};
use swath::project::Placement;

fn refused<T>(r: Result<T, Response>) -> (u16, String) {
    match r {
        Ok(_) => panic!("it was taken"),
        Err(e) => match e.body {
            Body::Json(s) => (e.status, s),
            _ => panic!("no JSON"),
        },
    }
}

fn taken<T>(r: Result<T, Response>) -> T {
    match r {
        Ok(x) => x,
        Err(_) => panic!("it was refused"),
    }
}

fn saying(status: u16, why: &str) -> (u16, String) {
    (status, format!("{{\"error\":\"{why}\"}}"))
}

#[test]
fn a_project_is_named() {
    let mut g = Gate::new(Action::OpenProject);
    assert_eq!(taken(named_project(b"{\"name\":\"North\"}", &mut g)), "North");
    assert_eq!(g.at, 2);
    assert!(g.check(false, "gone").is_some());
    let mut g = Gate::new(Action::NewProject);
    assert_eq!(refused(named_project(b"{\"name\":", &mut g)), saying(400, "bad json"));
    assert_eq!(g.at, 0);
    let mut g = Gate::new(Action::NewProject);
    assert_eq!(refused(named_project(b"{\"name\":3}", &mut g)), saying(400, "name required"));
    assert_eq!(g.at, 1);
    let mut g = Gate::new(Action::NewProject);
    assert_eq!(refused(named_project(b"[1]", &mut g)), saying(400, "name required"));
    let mut g = Gate::new(Action::OpenProject);
    assert_eq!(taken(named_from(Some(Some("a".to_string())), &mut g)), "a");
}

#[test]
fn a_project_gets_another_name() {
    let mut g = Gate::new(Action::RenameProject);
    let r = taken(renaming(b"{\"from\":\"a\",\"to\":\"b\\u0041\"}", &mut g));
    assert_eq!((r.from.as_str(), r.to.as_str()), ("a", "bA"));
    assert_eq!(g.at, 1);
    let mut g = Gate::new(Action::DuplicateProject);
    let r = taken(renaming(b"{\"to\":null}", &mut g));
    assert_eq!((r.from.as_str(), r.to.as_str()), ("", ""));
    let mut g = Gate::new(Action::DuplicateProject);
    assert_eq!(refused(renaming(b"", &mut g)), saying(400, "bad json"));
}

#[test]
fn what_is_removed_takes_along_what_is_said() {
    let mut g = Gate::new(Action::DeleteProject);
    let r = taken(deletion(b"{\"name\":\"p\"}", &mut g));
    assert_eq!((r.name.as_str(), r.all), ("p", false));
    let mut g = Gate::new(Action::DeleteProject);
    assert!(taken(deletion(b"{\"name\":\"p\",\"with_data\":true}", &mut g)).all);
    let mut g = Gate::new(Action::DeleteProject);
    assert_eq!(refused(deletion(b"p", &mut g)), saying(400, "bad json"));
    let mut g = Gate::new(Action::RemoveDataset);
    let r = taken(removal(b"{\"name\":\"d\"}", true, &mut g));
    assert_eq!((r.name.as_str(), r.all, g.at), ("d", true, 2));
    let mut g = Gate::new(Action::RemoveDataset);
    assert!(!taken(removal(b"{\"name\":\"d\",\"derived\":false}", true, &mut g)).all);
    let mut g = Gate::new(Action::RemoveDataset);
    assert_eq!(refused(removal(b"{}", false, &mut g)), saying(409, "no project open"));
    let mut g = Gate::new(Action::RemoveDataset);
    assert_eq!(refused(removal(b"{", false, &mut g)), saying(400, "bad json"));
}

#[test]
fn a_recording_is_let_go_of_where_it_is_named() {
    let mut g = Gate::new(Action::UnloadDataset);
    assert_eq!(taken(unloading(b"{\"name\":\"d\"}", &mut g)), Some("d".to_string()));
    let mut g = Gate::new(Action::UnloadDataset);
    assert_eq!(taken(unloading(b"{}", &mut g)), None);
    let mut g = Gate::new(Action::UnloadDataset);
    assert_eq!(refused(unloading(b"{]", &mut g)), saying(400, "bad json"));
}

#[test]
fn a_folder_is_brought_in() {
    let mut g = Gate::new(Action::ImportDataset);
    let r = taken(importing(b"{\"path\":\"/a/b\",\"mode\":\"move\"}", true, &mut g));
    assert_eq!((r.path.as_str(), r.name.as_str()), ("/a/b", "b"));
    assert!(r.how == Placement::Move);
    assert_eq!(g.at, 4);
    let mut g = Gate::new(Action::ImportDataset);
    let r = taken(importing(b"{\"path\":\"/a/b\",\"name\":\"c/d\"}", true, &mut g));
    assert_eq!(r.name, "c_d");
    assert!(r.how == Placement::Link);
    let no = |b: &[u8], open: bool| {
        let mut g = Gate::new(Action::ImportDataset);
        refused(importing(b, open, &mut g))
    };
    assert_eq!(no(b"", false), saying(400, "bad json"));
    assert_eq!(no(b"{}", false), saying(409, "open or create a project first"));
    assert_eq!(no(b"{}", true), saying(400, "path required"));
    assert_eq!(no(b"{\"path\":\"/\"}", true), saying(400, "a recording needs a name"));
    assert_eq!(
        no(b"{\"path\":\"/a\",\"mode\":\"steal\"}", true),
        saying(400, "unknown mode steal")
    );
    let mut g = Gate::new(Action::ImportDataset);
    let r = importing_from(Some(Some("/x".to_string())), Some(None), Some(None), true, &mut g);
    assert_eq!(taken(r).name, "x");
}

#[test]
fn a_mosaic_is_asked_for() {
    let mut g = Gate::new(Action::BuildMosaic);
    let r = taken(building(b"{\"dataset\":\"d\",\"subsystem\":21,\"force\":true}", &mut g));
    assert_eq!((r.dataset.as_str(), r.subsystem, r.force), ("d", 21, true));
    assert_eq!(g.at, 1);
    let mut g = Gate::new(Action::BuildMosaic);
    let r = taken(building(b"{\"subsystem\":277}", &mut g));
    assert_eq!((r.dataset.as_str(), r.subsystem, r.force), ("", 21, false));
    let mut g = Gate::new(Action::BuildMosaic);
    assert_eq!(taken(building(b"{\"subsystem\":-1}", &mut g)).subsystem, 20);
    assert_eq!((channel(None), channel(Some(256))), (20, 0));
    let mut g = Gate::new(Action::BuildMosaic);
    assert_eq!(refused(building(b"\xff", &mut g)), saying(400, "bad json"));
}

#[test]
fn a_file_becomes_a_layer() {
    let mut g = Gate::new(Action::ImportLayer);
    let r = taken(layering(b"{\"path\":\"/a.tif\",\"label\":\"A\"}", &mut g));
    assert_eq!((r.path.as_str(), r.label.as_deref(), g.at), ("/a.tif", Some("A"), 2));
    let mut g = Gate::new(Action::ImportLayer);
    assert_eq!(taken(layering(b"{\"path\":\"/a.tif\",\"label\":\"\"}", &mut g)).label, None);
    let mut g = Gate::new(Action::ImportLayer);
    assert_eq!(refused(layering(b"{\"label\":\"\"}", &mut g)), saying(400, "path required"));
    let mut g = Gate::new(Action::ImportLayer);
    assert_eq!(refused(layering(b"nil", &mut g)), saying(400, "bad json"));
}

#[test]
fn what_a_plan_is_to_hold_is_wished_for() {
    let w = wishes(b"{\"track\":false,\"targets\":true,\"routes\":1}");
    assert_eq!((w.track, w.targets, w.routes), (Some(false), Some(true), None));
    assert_eq!((w.route_per_line, w.turn_points, w.line_waypoints), (None, None, None));
    assert_eq!(wishes(b"{").track, None);
    let all = wishes(b"{\"route_per_line\":true,\"turn_points\":false,\"line_waypoints\":true}");
    assert_eq!(
        (all.route_per_line, all.turn_points, all.line_waypoints),
        (Some(true), Some(false), Some(true))
    );
}

#[test]
fn the_contacts_of_a_file_are_counted() {
    assert_eq!(contact_count(b"{\"features\":[{},{},3]}"), 3);
    assert_eq!(contact_count(b"{\"features\":{}}"), 0);
    assert_eq!(contact_count(b"{}"), 0);
    assert_eq!(contact_count(b"not json"), 0);
}
