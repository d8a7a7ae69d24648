use micromedia::names::{basename, ext_of, ext_of_name, parent_of, rel_path};

#[test]
fn parts_of_paths() {
    assert_eq!(basename("a/b/c.jpg"), "c.jpg");
    assert_eq!(basename("c.jpg"), "c.jpg");
    assert_eq!(parent_of("a/b/c.jpg"), "a/b");
    assert_eq!(parent_of("c.jpg"), "");
    assert_eq!(ext_of("a/b.x/c.JpG"), "jpg");
    assert_eq!(ext_of("a.b/c"), "");
}

#[test]
fn a_path_splits_into_parent_and_name() {
    for p in ["x", "a/x", "a/b/x.png"] {
        let (d, n) = (parent_of(p), basename(p));
        assert_eq!(if d.is_empty() { n.clone() } else { format!("{d}/{n}") }, p);
    }
}

#[test]
fn extensions_of_names() {
    assert_eq!(ext_of_name("a.tar.gz").as_deref(), Some("gz"));
    assert_eq!(ext_of_name(".hidden"), None);
    assert_eq!(ext_of_name("plain"), None);
    assert_eq!(ext_of_name("dot."), Some(String::new()));
}

#[test]
fn paths_are_joined_with_slashes() {
    let part = |s: &str| Some(s.to_string());
    assert_eq!(rel_path(&vec![part("a"), part("b.png")]).as_deref(), Some("a/b.png"));
    assert_eq!(rel_path(&vec![part("a"), None]), None);
}
