use micromedia::paths::{base_dir, is_cargo_target, location_command, Base, BaseFacts, Paths, Shown};

fn facts(named: bool, binary: bool, name: &str, parent: &str, current: bool) -> BaseFacts {
    BaseFacts {
        named,
        binary,
        binary_name: Some(name.to_string()),
        binary_parent: Some(parent.to_string()),
        current,
    }
}

#[test]
fn the_base_is_chosen_in_order() {
    assert_eq!(base_dir(&facts(true, true, "release", "target", true)), Base::Named);
    assert_eq!(base_dir(&facts(false, true, "bin", "usr", true)), Base::Binary);
    assert_eq!(base_dir(&facts(false, true, "release", "target", true)), Base::Current);
    assert_eq!(base_dir(&facts(false, true, "debug", "target", false)), Base::Binary);
    assert_eq!(base_dir(&facts(false, false, "", "", true)), Base::Current);
    assert_eq!(base_dir(&facts(false, false, "", "", false)), Base::Here);
}

#[test]
fn build_directories() {
    let some = |s: &str| Some(s.to_string());
    assert!(is_cargo_target(&some("debug"), &some("target")));
    assert!(!is_cargo_target(&some("debug"), &some("out")));
    assert!(!is_cargo_target(&some("profile"), &some("target")));
    assert!(!is_cargo_target(&None, &some("target")));
    assert!(!is_cargo_target(&some("release"), &None));
}

#[test]
fn everything_has_its_place() {
    let p = Paths::resolve(&facts(false, true, "bin", "usr", true));
    assert_eq!(p.base, Base::Binary);
    assert_eq!(p.db, "appdata/micromedia.db");
    assert_eq!(p.config, "appdata/config.toml");
    assert_eq!(p.dirs(), vec!["media", "appdata/thumbnails", "appdata", "appdata/libs"]);
    assert_eq!(p.thumb_for(12), "appdata/thumbnails/12.jpg");
    assert_ne!(p.thumb_for(1), p.thumb_for(11));
}

#[test]
fn the_file_manager() {
    assert_eq!(location_command(true, true), ("explorer", Shown::Itself));
    assert_eq!(location_command(true, false), ("explorer", Shown::Marked));
    assert_eq!(location_command(false, true), ("xdg-open", Shown::Itself));
    assert_eq!(location_command(false, false), ("xdg-open", Shown::Around));
}
