// Parsing textual paths into component form.
use real_parent::{Component, RPath};

fn comps(s: &str) -> Vec<Component> {
    RPath::parse(s).comps
}

fn name(s: &str) -> Component {
    Component::Normal(String::from(s))
}

#[test]
fn test_parse_empty() {
    assert_eq!(comps(""), vec![]);
}

#[test]
fn test_parse_root() {
    assert_eq!(comps("/"), vec![Component::RootDir]);
    assert_eq!(comps("//"), vec![Component::RootDir]);
    assert_eq!(comps("/."), vec![Component::RootDir]);
    assert_eq!(comps("/a"), vec![Component::RootDir, name("a")]);
    assert_eq!(comps("/./a"), vec![Component::RootDir, name("a")]);
    assert_eq!(comps("/.."), vec![Component::RootDir, Component::ParentDir]);
}

#[test]
fn test_parse_dot() {
    assert_eq!(comps("."), vec![Component::CurDir]);
    assert_eq!(comps("./"), vec![Component::CurDir]);
    assert_eq!(comps("./."), vec![Component::CurDir]);
    assert_eq!(comps("./a"), vec![Component::CurDir, name("a")]);
    // `.` survives only at the head of a rootless path
    assert_eq!(comps("a/./b"), vec![name("a"), name("b")]);
    assert_eq!(comps("a/b/."), vec![name("a"), name("b")]);
    assert_eq!(comps("./.."), vec![Component::CurDir, Component::ParentDir]);
}

#[test]
fn test_parse_dotdot() {
    assert_eq!(comps(".."), vec![Component::ParentDir]);
    assert_eq!(
        comps("../.."),
        vec![Component::ParentDir, Component::ParentDir]
    );
    assert_eq!(comps("a/.."), vec![name("a"), Component::ParentDir]);
    assert_eq!(comps("../a"), vec![Component::ParentDir, name("a")]);
}

#[test]
fn test_parse_separators() {
    assert_eq!(comps("a//b"), vec![name("a"), name("b")]);
    assert_eq!(comps("a/b/"), vec![name("a"), name("b")]);
    assert_eq!(comps("a/b"), vec![name("a"), name("b")]);
}

#[test]
fn test_parse_names() {
    assert_eq!(comps("...")[0], name("..."));
    assert_eq!(comps(".hidden")[0], name(".hidden"));
    assert_eq!(comps("..a")[0], name("..a"));
    assert_eq!(
        comps("a.b/c..d"),
        vec![name("a.b"), name("c..d")]
    );
}

#[test]
fn test_display_string() {
    assert_eq!(RPath::parse("").display_string(), "");
    assert_eq!(RPath::parse("/").display_string(), "/");
    assert_eq!(RPath::parse("/a/b").display_string(), "/a/b");
    assert_eq!(RPath::parse("a/b").display_string(), "a/b");
    assert_eq!(RPath::parse("..").display_string(), "..");
    assert_eq!(RPath::parse("../..").display_string(), "../..");
    assert_eq!(RPath::parse(".").display_string(), ".");
    assert_eq!(RPath::parse("./a").display_string(), "./a");
    // display shows the normalized component form
    assert_eq!(RPath::parse("a/./b//").display_string(), "a/b");
}

#[test]
fn test_parse_round_trip_equality() {
    // paths equal in component form compare equal however written
    assert_eq!(RPath::parse("A/./B"), RPath::parse("A/B"));
    assert_eq!(RPath::parse("A/B/"), RPath::parse("A/B"));
    assert_eq!(RPath::parse("A//B"), RPath::parse("A/B"));
    assert_ne!(RPath::parse("A/../B"), RPath::parse("B"));
    assert_ne!(RPath::parse("/A"), RPath::parse("A"));
}
