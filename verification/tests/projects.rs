use swath::fingerprint;
use swath::names::{
    among, base_name, has_ext, is_before, is_plain_name, join, name_order, sanitise_name,
    sort_names,
};
use swath::project::contacts::{check_read, Contact, Contacts};
use swath::project::moves::{list_names, remove_dataset, RefusedKind, Removal, SourceFolder};
use swath::project::{
    is_mosaic, is_mosaic_file, is_sonar, mosaic_id, mosaics_to_drop, osm, recording_id, schema,
    sonar_files, track_id, yes, Disk, Found, Placement, ReportSpec, Workspace,
};
use swath::ui::{get, Asset};

fn v(s: &[&str]) -> Vec<String> {
    s.iter().map(|x| x.to_string()).collect()
}

fn disk(paths: &[&str], projects: &[&str]) -> Disk {
    Disk { paths: v(paths), projects: v(projects) }
}

fn ws() -> Workspace {
    Workspace::new("/w".to_string())
}

#[test]
fn a_digest_is_sixteen_characters() {
    assert_eq!(fingerprint(b""), "cbf29ce484222325");
    assert_eq!(fingerprint(b"a"), "af63dc4c8601ec8c");
    assert_eq!(fingerprint(b"foobar"), "85944171f73967e8");
}

#[test]
fn names_are_made_plain() {
    assert_eq!(sanitise_name(" a/b:c\0d "), "a_b:c_d");
    assert_eq!(sanitise_name(".hidden"), "hidden");
    assert_eq!(sanitise_name(". .a"), "a");
    assert_eq!(sanitise_name(".."), "");
    assert_eq!(sanitise_name("a. . "), "a.");
    assert_eq!(sanitise_name("a .. "), "a");
    assert!(!is_plain_name("a."));
    assert!(is_plain_name("North 1"));
    assert!(!is_plain_name("a/b"));
    assert!(!is_plain_name(""));
}

#[test]
fn names_are_put_in_order() {
    assert!(is_before("a", "b"));
    assert!(is_before("a", "aa"));
    assert!(!is_before("b", "a"));
    assert!(is_before("Z", "a"));
    assert_eq!(name_order(&v(&["b", "a", "b"])), vec![1, 0, 2]);
    assert_eq!(sort_names(&v(&["b", "", "a"])), v(&["", "a", "b"]));
    assert!(among(&v(&["x", "y"]), "y"));
    assert!(!among(&v(&["x", "y"]), "z"));
}

#[test]
fn paths_are_joined_and_taken_apart() {
    assert_eq!(join("/w", "a"), "/w/a");
    assert_eq!(join("/w/", "a"), "/w/a");
    assert_eq!(join("/w", "/a"), "/a");
    assert_eq!(join("", "a"), "a");
    assert_eq!(base_name("/a/b/"), "b");
    assert_eq!(base_name("/a/.."), "");
    assert!(has_ext("a.JSF", "jsf"));
    assert!(!has_ext("jsf", "jsf"));
    assert!(!has_ext(".jsf", "jsf"));
}

#[test]
fn the_workspace_has_its_places() {
    let w = ws();
    let d = disk(&[], &[]);
    assert_eq!(w.data_dir(), "/w/data");
    assert_eq!(w.out_dir("n"), "/w/out/n");
    assert_eq!(w.project_path("p"), "/w/projects/p/project.json");
    assert_eq!(w.contacts_path("p"), "/w/projects/p/marks.geojson");
    assert_eq!(w.snaps_dir("p"), "/w/projects/p/snaps");
    assert_eq!(w.report_dir("p"), "/w/projects/p/report");
    assert_eq!(w.exports_dir("p"), "/w/projects/p/exports");
    assert_eq!(w.project_data_dir("p"), "/w/projects/p/data");
    assert_eq!(w.layers_dir(), "/w/out/layers");
    assert_eq!(w.layer_cache_path("k", &d), "/w/out/layers/k.swl");
    assert_eq!(w.index_path("n", &d), "/w/out/n/ping_index.swi");
    assert_eq!(w.mosaic_path("n", 20, "k", &d), "/w/out/n/mosaic_20_k.swm");
}

#[test]
fn a_file_of_an_older_name_is_still_found() {
    let w = ws();
    let old = disk(&["/w/out/n/ping_index.wpi"], &[]);
    assert_eq!(w.index_path("n", &old), "/w/out/n/ping_index.wpi");
    let both = disk(&["/w/out/n/ping_index.wpi", "/w/out/n/ping_index.swi"], &[]);
    assert_eq!(w.index_path("n", &both), "/w/out/n/ping_index.swi");
}

#[test]
fn layers_have_identifiers() {
    assert_eq!(recording_id("n"), "rec:n");
    assert_eq!(mosaic_id("n", 20), "mosaic:n:20");
    assert_eq!(track_id("n", 21), "track:n:21");
    assert!(is_mosaic("mosaic"));
    assert!(!is_mosaic("track"));
    assert!(is_mosaic_file("mosaic_20_abc.swm", 20));
    assert!(is_mosaic_file("mosaic_20_abc.wpm", 20));
    assert!(!is_mosaic_file("mosaic_2_abc.swm", 20));
    assert_eq!(mosaics_to_drop(6, 4), 2);
    assert_eq!(mosaics_to_drop(3, 4), 0);
    assert_eq!(osm(), "osm");
    assert!(yes());
    assert!(!schema().is_empty());
    assert!(ReportSpec::default().seamark);
}

#[test]
fn recordings_are_listed_by_name() {
    assert!(is_sonar("/a/x.XTF"));
    assert!(!is_sonar("x.txt"));
    assert_eq!(sonar_files(&v(&["b.jsf", "n.txt", "a.xtf", "a.JSF"])), v(&["a.JSF", "b.jsf"]));
    assert_eq!(sonar_files(&v(&["b.xtf", "a.xtf"])), v(&["a.xtf", "b.xtf"]));
    let f = Found { held: v(&["mine"]), pool: v(&["shared", "mine"]), loose: true };
    let d = ws().datasets_for("p", &f);
    assert_eq!(d.len(), 2);
    assert_eq!((d[0].name.as_str(), d[0].owned), ("mine", true));
    assert_eq!(d[0].dir, "/w/projects/p/data/mine");
    assert_eq!((d[1].name.as_str(), d[1].dir.as_str()), ("shared", "/w/data/shared"));
    let loose = ws().datasets(&Found { held: Vec::new(), pool: Vec::new(), loose: true });
    assert_eq!(loose[0].name, "_flat");
}

#[test]
fn a_free_name_is_found() {
    let w = ws();
    let d = disk(&["/w/data/n", "/w/out/n-2", "/w/projects/p/data/n-3"], &["p"]);
    assert!(w.dataset_name_taken("n", &d));
    assert!(w.dataset_name_taken("n-3", &d));
    assert_eq!(w.free_dataset_name("n", &d, 5), "n-4");
    assert_eq!(w.free_dataset_name("other", &d, 5), "other");
}

#[test]
fn folders_are_checked_before_they_are_brought_in() {
    let w = ws();
    let d = disk(&["/w/data/taken"], &[]);
    let ok = SourceFolder { is_dir: true, has_sonar: true, holds_workspace: false };
    let into = |name: &str, how: Placement, f: SourceFolder| w.import_dataset("p", "/src", name, how, f, &d);
    assert_eq!(into("n", Placement::Copy, ok).unwrap(), "/w/projects/p/data/n");
    let e = into("n", Placement::Copy, SourceFolder { is_dir: false, ..ok }).unwrap_err();
    assert_eq!(e.message, "not a folder");
    let e = into("n", Placement::Copy, SourceFolder { has_sonar: false, ..ok }).unwrap_err();
    assert_eq!(e.message, "/src holds no .jsf or .xtf files");
    let e = into("a/b", Placement::Copy, ok).unwrap_err();
    assert!(e.kind == RefusedKind::InvalidInput);
    let e = into("taken", Placement::Link, ok).unwrap_err();
    assert!(e.kind == RefusedKind::AlreadyExists);
    let e = into("n", Placement::Move, SourceFolder { holds_workspace: true, ..ok }).unwrap_err();
    assert!(e.message.starts_with("that folder contains the workspace"));
    assert!(into("n", Placement::Link, SourceFolder { holds_workspace: true, ..ok }).is_ok());
}

#[test]
fn only_a_project_s_own_recording_is_removed() {
    assert!(matches!(remove_dataset("p", "n", Some(true)), Ok(Removal::Unlink)));
    assert!(matches!(remove_dataset("p", "n", Some(false)), Ok(Removal::Delete)));
    assert!(remove_dataset("p", "n", None).unwrap_err().kind == RefusedKind::NotFound);
    assert!(remove_dataset("p", "..", Some(true)).unwrap_err().kind == RefusedKind::InvalidInput);
}

#[test]
fn projects_are_moved_and_deleted_with_care() {
    let w = ws();
    let d = disk(&["/w/projects/a/project.json", "/w/projects/b"], &["a"]);
    assert_eq!(
        w.project_move_paths("a", "c", &d).unwrap(),
        ("/w/projects/a".to_string(), "/w/projects/c".to_string())
    );
    assert!(w.project_move_paths("a", "b", &d).unwrap_err().kind == RefusedKind::AlreadyExists);
    assert!(w.project_move_paths("x", "c", &d).unwrap_err().kind == RefusedKind::NotFound);
    assert!(w.project_move_paths("a", "../c", &d).unwrap_err().kind == RefusedKind::InvalidInput);
    assert_eq!(w.delete_project("a", &Vec::new(), false, &d).unwrap(), "/w/projects/a");
    let e = w.delete_project("a", &v(&["m", "n"]), false, &d).unwrap_err();
    assert_eq!(e.message, "a holds m, n, which nothing else has");
    assert!(w.delete_project("a", &v(&["m"]), true, &d).is_ok());
    assert!(w.delete_project("x", &Vec::new(), false, &d).is_err());
    assert_eq!(list_names(&v(&["a", "b", "c"])), "a, b, c");
}

fn contact(id: &str, rest: u8) -> Contact<u8> {
    Contact { id: id.to_string(), created: String::new(), modified: String::new(), rest }
}

#[test]
fn contacts_are_kept_by_identifier() {
    let mut c: Contacts<u8> = Contacts { sealed: false, items: Vec::new() };
    assert_eq!(c.next_id(), "C001");
    let id = c.upsert(contact("", 1), "t1");
    assert_eq!(id, "C001");
    assert_eq!(c.upsert(contact("C041", 2), "t2"), "C041");
    assert_eq!(c.next_id(), "C042");
    assert_eq!(c.upsert(contact("C001", 9), "t3"), "C001");
    assert_eq!(c.items.len(), 2);
    let i = c.get("C001").unwrap();
    assert_eq!(c.items[i].rest, 9);
    assert_eq!(c.items[i].modified, "t3");
    assert!(c.remove("C001"));
    assert!(!c.remove("C001"));
    assert!(c.get("C001").is_none());
    assert!(Contacts::<u8>::sealed().sealed);
    assert!(!Contacts::<u8>::sealed().may_be_saved());
    assert!(c.may_be_saved());
}

#[test]
fn a_file_is_taken_whole_or_not_at_all() {
    assert!(check_read(3, 3, "m.geojson").is_ok());
    assert_eq!(
        check_read(2, 3, "m.geojson").unwrap_err(),
        "1 of 3 contacts in m.geojson could not be read; refusing to open the project rather than overwrite them"
    );
}

#[test]
fn pages_are_found_by_their_path() {
    let f = vec![
        Asset { path: "index.html".to_string(), bytes: vec![1] },
        Asset { path: "app.js".to_string(), bytes: vec![2, 3] },
    ];
    assert_eq!(get(&f, "app.js"), Some(&vec![2, 3]));
    assert_eq!(get(&f, "app.css"), None);
}
