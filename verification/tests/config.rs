use micromedia::config::{escape, unquote, Config};

#[test]
fn defaults_hold_where_the_file_is_empty() {
    let c = Config::load("");
    assert_eq!((c.sort_index, c.filter_text.as_str(), c.volumes.len()), (0, "", 0));
}

#[test]
fn what_is_saved_is_loaded() {
    for text in ["", "cats -dogs", "say \"hi\" \\ back\\\\slash", "ünïcode # = x"] {
        let c = Config::load(&Config::save(7, "42.5", text));
        assert_eq!(c.sort_index, 7);
        assert_eq!(c.filter_text, text);
        assert_eq!(c.volumes, vec!["42.5"]);
    }
}

#[test]
fn lines_are_read_one_by_one() {
    let c = Config::load("# comment\nsort_index = 3\nsort_index = x\nvolume = 10\nvolume=20\nunknown = 1\nfilter_text = plain\nno equals sign\n");
    assert_eq!(c.sort_index, 3);
    assert_eq!(c.volumes, vec!["10", "20"]);
    assert_eq!(c.filter_text, "plain");
}

#[test]
fn the_saved_text() {
    assert_eq!(
        Config::save(-1, "100", "a\"b"),
        "sort_index = -1\nvolume = 100\nfilter_text = \"a\\\"b\"\n"
    );
}

#[test]
fn quotes_and_backslashes() {
    assert_eq!(escape("a\\b\"c"), "a\\\\b\\\"c");
    assert_eq!(unquote("\"a\\\\b\\\"c\""), "a\\b\"c");
    assert_eq!(unquote("a\\nb"), "a\\nb");
    assert_eq!(unquote("\""), "\"");
}
