// One concrete scenario for each of the library's general properties.
use real_parent::{Error, Fs, PathExt, RPath};

fn p(s: &str) -> RPath {
    RPath::parse(s)
}

// Idempotence of clean: cleaning a cleaned path changes nothing.
#[test]
fn test_clean_idempotent_symlinks() {
    let mut fs = Fs::new();
    fs.add_dir(p("A"));
    fs.add_dir(p("A/B"));
    fs.add_dir(p("A/B/C"));
    fs.add_file(p("A/a1"));
    fs.add_symlink(p("A/B/C/_a1"), p("../../a1"));

    let q = p("A/B/C/_a1/../B").real_clean(&fs).unwrap();
    assert_eq!(q, p("A/B"));
    assert_eq!(q.real_clean(&fs).unwrap(), q);
}

#[test]
fn test_clean_idempotent_ascent() {
    let mut fs = Fs::new();
    fs.add_dir(p(".."));
    fs.add_dir(p("../C"));
    fs.add_dir(p("../../B"));

    let q = p("../C/../../B").real_clean(&fs).unwrap();
    assert_eq!(q, p("../../B"));
    assert_eq!(q.real_clean(&fs).unwrap(), q);
}

#[test]
fn test_clean_idempotent_dot() {
    let fs = Fs::new();
    let q = p(".").real_clean(&fs).unwrap();
    assert_eq!(q, p("."));
    assert_eq!(q.real_clean(&fs).unwrap(), q);
}

// Parent monotonicity under ascent: a hierarchy of depth three reaches a
// root-positive path in three applications, and it stays root thereafter.
#[test]
fn test_ascend_reaches_root() {
    let mut fs = Fs::new();
    fs.add_dir(p("/a"));
    fs.add_dir(p("/a/b"));
    fs.add_dir(p("/a/b/c"));
    fs.add_dir(p("/"));
    fs.add_canon(p("/"), p("/"));
    fs.add_canon(p("/a"), p("/a"));
    fs.add_canon(p("/a/b"), p("/a/b"));
    fs.add_canon(p("/a/b/c"), p("/a/b/c"));

    let mut candidate = p("/a/b/c");
    let mut steps: usize = 0;
    while !candidate.is_real_root(&fs).unwrap() {
        candidate = candidate.real_parent(&fs).unwrap();
        steps += 1;
        assert!(steps <= 4, "ascent did not reach the root");
    }
    assert_eq!(steps, 3);
    assert_eq!(candidate, p("/"));
    // root-ness holds from that point on
    let beyond = candidate.real_parent(&fs).unwrap();
    assert_eq!(beyond, p("/"));
    assert!(beyond.is_real_root(&fs).unwrap());
}

// Symlink transparency: the parent of a plain file under plain
// directories is the syntactic parent.
#[test]
fn test_parent_plain_file() {
    let mut fs = Fs::new();
    fs.add_dir(p("A"));
    fs.add_dir(p("A/B"));
    fs.add_file(p("A/B/c"));
    assert_eq!(p("A/B/c").real_parent(&fs).unwrap(), p("A/B"));
}

// Minimal resolution: the model holds nothing but the symlink and its
// sibling target, and the query still succeeds — no other entry is
// required to exist.
#[test]
fn test_parent_sibling_symlink_minimal() {
    let mut fs = Fs::new();
    fs.add_symlink(p("A/B/L"), p("b"));
    fs.add_file(p("A/B/b"));
    assert_eq!(p("A/B/L").real_parent(&fs).unwrap(), p("A/B"));
}

// Cycle detection: two symlinks naming each other fail with `Cycle`.
#[test]
fn test_parent_two_link_cycle() {
    let mut fs = Fs::new();
    fs.add_dir(p("A"));
    fs.add_symlink(p("A/a1"), p("a2"));
    fs.add_symlink(p("A/a2"), p("a1"));
    match p("A/a1").real_parent(&fs) {
        Err(Error::Cycle(at)) => assert_eq!(at, p("A/a1")),
        other => panic!("expected a cycle, got {:?}", other),
    }
}

// Dotdot non-folding at the base: parents of bare ascents ascend further.
#[test]
fn test_parent_bare_ascents() {
    let mut fs = Fs::new();
    fs.add_dir(p(".."));
    assert_eq!(p("..").real_parent(&fs).unwrap(), p("../.."));
    let empty_model = Fs::new();
    assert_eq!(p("").real_parent(&empty_model).unwrap(), p(".."));
}

// Root fixpoint: the root is its own parent and tests as root.
#[test]
fn test_root_fixpoint() {
    let mut fs = Fs::new();
    fs.add_dir(p("/"));
    fs.add_canon(p("/"), p("/"));
    let root = p("/");
    assert!(root.is_real_root(&fs).unwrap());
    let up = root.real_parent(&fs).unwrap();
    assert_eq!(up, root);
    assert!(up.is_real_root(&fs).unwrap());
}

// Absolute symlink resolution: an absolute target is followed directly,
// wherever the symlink itself stands.
#[test]
fn test_parent_absolute_target_location_independent() {
    let mut fs = Fs::new();
    fs.add_dir(p("A"));
    fs.add_dir(p("C/D"));
    fs.add_symlink(p("A/L"), p("/X/y"));
    fs.add_symlink(p("C/D/L"), p("/X/y"));
    fs.add_file(p("/X/y"));
    assert_eq!(p("A/L").real_parent(&fs).unwrap(), p("/X"));
    assert_eq!(p("C/D/L").real_parent(&fs).unwrap(), p("/X"));
}
