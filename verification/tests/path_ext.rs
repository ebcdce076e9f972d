// Parent resolution against models of a small directory farm.
//
// Naming in the farms mirrors the convention of the test fixtures:
// directories are capitalised, files are lower-cased with a numeric
// suffix, relative symlinks have an underscore prefix, absolute symlinks
// an equals prefix.
use real_parent::{Error, Fs, PathExt, RPath};

fn p(s: &str) -> RPath {
    RPath::parse(s)
}

fn parent_ok(fs: &Fs, path: &str, expected: &str) {
    let actual = p(path).real_parent(fs).unwrap();
    assert_eq!(actual, p(expected), "real_parent of {:?}", path);
}

fn clean_ok(fs: &Fs, path: &str, expected: &str) {
    let actual = p(path).real_clean(fs).unwrap();
    assert_eq!(actual, p(expected), "real_clean of {:?}", path);
}

// The plain-file and directory farm, with entries for every probe the
// walks of these tests make (a probe of `a/..` or `..` finds a directory
// on a live tree, so the model holds those keys too).
fn files_directories_farm() -> Fs {
    let mut fs = Fs::new();
    fs.add_file(p("x1"));
    fs.add_dir(p("A"));
    fs.add_dir(p("A/B"));
    fs.add_dir(p("A/B/C"));
    fs.add_dir(p("A/.D"));
    fs.add_file(p("A/a1"));
    fs.add_file(p("A/B/b1"));
    fs.add_file(p("A/.D/d1"));
    fs.add_file(p("A/.D/.d1"));
    fs.add_dir(p("."));
    fs.add_dir(p(".."));
    fs.add_dir(p("A/B/C/.."));
    fs.add_dir(p("A/../A/B/C"));
    // every ascent level up to the farm's depth exists on a live tree
    let mut ups = String::from("..");
    for _ in 0..8 {
        ups.push_str("/..");
        fs.add_dir(p(&ups));
    }
    fs.add_dir(p("../../../../../../../../../.."));
    fs
}

#[test]
fn test_real_parent_files_directories() {
    let fs = files_directories_farm();
    parent_ok(&fs, "x1", ".");
    parent_ok(&fs, "A", ".");
    parent_ok(&fs, "A/a1", "A");
    parent_ok(&fs, "A/B/b1", "A/B");
    parent_ok(&fs, "A/B/C", "A/B");
    parent_ok(&fs, "A/B/C/..", "A/B/C/../..");
    // trailing dot is ignored
    parent_ok(&fs, "A/B/C/.", "A/B");
    // intermediate dot folds away in component form
    parent_ok(&fs, "A/./B/C", "A/./B");
    // intermediate dotdot remains
    parent_ok(&fs, "A/../A/B/C", "A/../A/B");
    // hidden directories and files
    parent_ok(&fs, "A/.D", "A");
    parent_ok(&fs, "A/.D/d1", "A/.D");
    parent_ok(&fs, "A/.D/.d1", "A/.D");
    // empty path, bare dot, bare dotdot
    parent_ok(&fs, "", "..");
    parent_ok(&fs, ".", "..");
    parent_ok(&fs, "..", "../..");
    // dotdot overflow is ignored
    parent_ok(
        &fs,
        "../../../../../../../../../..",
        "../../../../../../../../../../..",
    );
}

#[test]
fn test_real_parent_root_dir() {
    let mut fs = Fs::new();
    fs.add_dir(p("/"));
    let path = p("/");
    let expected = path.clone();
    assert_eq!(path.real_parent(&fs).unwrap(), expected);
}

fn rel_symlinks_farm() -> Fs {
    let mut fs = Fs::new();
    fs.add_file(p("x1"));
    fs.add_dir(p("A"));
    fs.add_dir(p("A/B"));
    fs.add_dir(p("A/B/C"));
    fs.add_file(p("A/a1"));
    fs.add_file(p("A/B/b1"));
    fs.add_file(p("A/B/C/c1"));
    fs.add_symlink(p("_x1"), p("x1"));
    fs.add_symlink(p("_B"), p("A/B"));
    fs.add_symlink(p("A/_dot"), p(".."));
    fs.add_symlink(p("A/B/_A"), p(".."));
    fs.add_symlink(p("A/B/_B"), p("."));
    fs.add_symlink(p("A/B/_b1"), p("b1"));
    fs.add_symlink(p("A/B/_a1"), p("../a1"));
    fs.add_symlink(p("A/B/C/_a1"), p("../../a1"));
    fs.add_symlink(p("A/B/C/_b1"), p("./.././b1"));
    // probes of paths that walk through a symlink or out of a directory
    fs.add_dir(p("_B/.."));
    fs.add_file(p("_B/b1"));
    fs
}

#[test]
fn test_real_parent_rel_symlinks() {
    let fs = rel_symlinks_farm();
    parent_ok(&fs, "A/B/_b1", "A/B");
    parent_ok(&fs, "A/B/_a1", "A");
    parent_ok(&fs, "A/B/C/_a1", "A");
    parent_ok(&fs, "A/_dot", "..");
    parent_ok(&fs, "A/B/_A", ".");
    parent_ok(&fs, "A/B/_B", "A");
    parent_ok(&fs, "A/B/C/_b1", "A/B");
    parent_ok(&fs, "_B/.", "A");
    // no attempt is made to fold away dotdot in the base path
    parent_ok(&fs, "_B/..", "_B/../..");
    parent_ok(&fs, "_x1", ".");
    parent_ok(&fs, "_B/b1", "_B");
}

fn rel_indirect_symlinks_farm() -> Fs {
    let mut fs = Fs::new();
    fs.add_dir(p("A"));
    fs.add_dir(p("A/B"));
    fs.add_dir(p("A/B/C"));
    fs.add_file(p("A/B/b1"));
    fs.add_file(p("A/B/C/c1"));
    fs.add_symlink(p("_B"), p("A/B"));
    fs.add_symlink(p("A/B/C/_b"), p("../../../_B/b1"));
    fs.add_symlink(p("__b"), p("A/B/C/_b"));
    fs.add_symlink(p("_c"), p("A/B/C/c1"));
    fs.add_symlink(p("A/B/__c"), p("../../_c"));
    fs.add_file(p("_B/b1"));
    fs
}

#[test]
fn test_real_parent_rel_indirect_symlinks() {
    let fs = rel_indirect_symlinks_farm();
    parent_ok(&fs, "A/B/__c", "A/B/C");
    parent_ok(&fs, "A/B/C/_b", "_B");
    parent_ok(&fs, "__b", "_B");
}

// Absolute symlinks point below an absolute base, standing for the
// farm's own location in the tree.
fn abs_symlinks_farm() -> Fs {
    let mut fs = Fs::new();
    fs.add_dir(p("A"));
    fs.add_dir(p("A/B"));
    fs.add_dir(p("A/C"));
    fs.add_file(p("A/B/b1"));
    fs.add_file(p("A/a1"));
    fs.add_symlink(p("A/B/=b1"), p("/farm/A/B/b1"));
    fs.add_symlink(p("A/B/=a1"), p("/farm/A/a1"));
    fs.add_symlink(p("A/B/=C"), p("/farm/A/C"));
    fs.add_file(p("/farm/A/B/b1"));
    fs.add_file(p("/farm/A/a1"));
    fs.add_dir(p("/farm/A/C"));
    fs
}

#[test]
fn test_real_parent_abs_symlinks() {
    let fs = abs_symlinks_farm();
    parent_ok(&fs, "A/B/=b1", "/farm/A/B");
    parent_ok(&fs, "A/B/=a1", "/farm/A");
    parent_ok(&fs, "A/B/=C", "/farm/A");
}

#[test]
fn test_real_parent_symlink_cycle_error() {
    let mut fs = Fs::new();
    fs.add_dir(p("A"));
    fs.add_dir(p("A/B"));
    fs.add_dir(p("A/B/C"));
    fs.add_symlink(p("A/_a1"), p("_a2"));
    fs.add_symlink(p("A/_a2"), p("_a1"));
    fs.add_symlink(p("A/B/_b1"), p("../_b2"));
    fs.add_symlink(p("A/_b2"), p("B/_b3"));
    fs.add_symlink(p("A/B/_b3"), p("C/_b4"));
    fs.add_symlink(p("A/B/C/_b4"), p("../_b1"));

    match p("A/_a1").real_parent(&fs) {
        Err(Error::Cycle(at)) => assert_eq!(at, p("A/_a1")),
        other => panic!("expected a cycle, got {:?}", other),
    }
    match p("A/B/_b1").real_parent(&fs) {
        Err(Error::Cycle(at)) => assert_eq!(at, p("A/B/_b1")),
        other => panic!("expected a cycle, got {:?}", other),
    }
}

#[test]
fn test_real_parent_io_error() {
    let mut fs = Fs::new();
    fs.add_dir(p("A"));
    fs.add_dir(p("A/B"));
    fs.add_file(p("A/B/b1"));
    fs.add_symlink(p("_a"), p("A/a1"));
    fs.add_symlink(p("_b"), p("A/B/C/b1"));

    match p("X").real_parent(&fs) {
        Err(Error::IO(at)) => assert_eq!(at, p("X")),
        other => panic!("expected an io error, got {:?}", other),
    }
    match p("X/y1").real_parent(&fs) {
        Err(Error::IO(at)) => assert_eq!(at, p("X/y1")),
        other => panic!("expected an io error, got {:?}", other),
    }
    match p("A/y1").real_parent(&fs) {
        Err(Error::IO(at)) => assert_eq!(at, p("A/y1")),
        other => panic!("expected an io error, got {:?}", other),
    }
    // a symlink whose target is missing fails at the resolved target
    match p("_a").real_parent(&fs) {
        Err(Error::IO(at)) => assert_eq!(at, p("A/a1")),
        other => panic!("expected an io error, got {:?}", other),
    }
    match p("_b").real_parent(&fs) {
        Err(Error::IO(at)) => assert_eq!(at, p("A/B/C/b1")),
        other => panic!("expected an io error, got {:?}", other),
    }
}

#[test]
fn test_real_parent_symlink_cycle_look_alikes() {
    let mut fs = Fs::new();
    fs.add_dir(p("A"));
    fs.add_dir(p("A/A"));
    fs.add_dir(p("A/A/A"));
    fs.add_file(p("A/A/A/a1"));
    fs.add_symlink(p("_a"), p("A/_a"));
    fs.add_symlink(p("A/_a"), p("A/_a"));
    fs.add_symlink(p("A/A/_a"), p("A/a1"));

    parent_ok(&fs, "_a", "A/A/A");
}

#[test]
fn test_error_messages() {
    let fs = Fs::new();
    let io_err = p("X/y").real_parent(&fs).unwrap_err();
    assert_eq!(io_err.message(), "I/O error on X/y");

    let mut fs = Fs::new();
    fs.add_symlink(p("A/a1"), p("a1"));
    let cycle_err = p("A/a1").real_parent(&fs).unwrap_err();
    assert_eq!(cycle_err.message(), "symlink cycle detected at A/a1");
}

#[test]
fn test_real_clean_root_dir() {
    let fs = Fs::new();
    let path = p("/");
    let expected = path.clone();
    assert_eq!(path.real_clean(&fs).unwrap(), expected);
}

#[test]
fn test_real_clean_files_directories() {
    let fs = files_directories_farm();
    clean_ok(&fs, "x1", "x1");
    clean_ok(&fs, "A", "A");
    clean_ok(&fs, "A/a1", "A/a1");
    clean_ok(&fs, "A/B/b1", "A/B/b1");
    clean_ok(&fs, "A/B/C", "A/B/C");
    clean_ok(&fs, "A/B/C/..", "A/B");
    // initial dot removed
    clean_ok(&fs, "./A/B/b1", "A/B/b1");
    // trailing dot is ignored
    clean_ok(&fs, "A/B/C/.", "A/B/C");
    // intermediate dot removed
    clean_ok(&fs, "A/./B/C", "A/B/C");
    // intermediate dotdot folded away
    clean_ok(&fs, "A/../A/B/C", "A/B/C");
    clean_ok(&fs, "A/.D", "A/.D");
    clean_ok(&fs, "A/.D/d1", "A/.D/d1");
    clean_ok(&fs, "A/.D/.d1", "A/.D/.d1");
    clean_ok(&fs, "", ".");
    clean_ok(&fs, ".", ".");
    clean_ok(&fs, "..", "..");
    // dotdot overflow is ignored
    clean_ok(
        &fs,
        "../../../../../../../../../..",
        "../../../../../../../../../..",
    );
}

// Ascending out of the root stays at the root: the root is its own
// parent.
#[test]
fn test_real_clean_above_root() {
    let mut fs = Fs::new();
    fs.add_dir(p("/"));
    clean_ok(&fs, "/..", "/");
    clean_ok(&fs, "/../a", "/a");
}

// Cleaning relative paths as seen from inside `A/B` or `A/B/C` of a farm
// with directories `A`, `A/B` and `A/B/C`: the model holds what probes
// relative to that working directory find.
#[test]
fn test_real_clean_parent() {
    // seen from A/B
    let mut fs = Fs::new();
    fs.add_dir(p("C"));
    clean_ok(&fs, "C/..", ".");

    // seen from A/B/C
    let mut fs = Fs::new();
    fs.add_dir(p(".."));
    fs.add_dir(p("../C"));
    fs.add_dir(p("../../B"));
    clean_ok(&fs, "../..", "../..");
    clean_ok(&fs, "../C/../../B", "../../B");
    clean_ok(&fs, "../C/../../B/..", "../..");
}

fn clean_rel_symlinks_farm() -> Fs {
    let mut fs = Fs::new();
    fs.add_dir(p("A"));
    fs.add_dir(p("A/B"));
    fs.add_dir(p("A/B/C"));
    fs.add_file(p("A/a1"));
    fs.add_file(p("A/B/b1"));
    fs.add_symlink(p("_x1"), p("x1"));
    fs.add_symlink(p("_B"), p("A/B"));
    fs.add_symlink(p("A/_dot"), p(".."));
    fs.add_symlink(p("A/B/_A"), p(".."));
    fs.add_symlink(p("A/B/_B"), p("."));
    fs.add_symlink(p("A/B/_b1"), p("b1"));
    fs.add_symlink(p("A/B/_a1"), p("../a1"));
    fs.add_symlink(p("A/B/C/_a1"), p("../../a1"));
    fs.add_symlink(p("A/B/C/_A"), p("../../../A"));
    fs.add_symlink(p("A/B/C/_B"), p("./.."));
    fs
}

#[test]
fn test_real_clean_rel_symlinks() {
    let fs = clean_rel_symlinks_farm();
    clean_ok(&fs, "A/B/_a1/..", "A");
    clean_ok(&fs, "A/B/_b1/..", "A/B");
    clean_ok(&fs, "A/B/C/_a1/../B", "A/B");
    clean_ok(&fs, "A/B/C/_A/../A", "A");
    clean_ok(&fs, "A/B/C/_B/..", "A");
    clean_ok(&fs, "A/B/C/_B/../B/C/..", "A/B");
    // with no dotdot after it, the symlink is not dereferenced at all
    clean_ok(&fs, "A/B/C/_A/B", "A/B/C/_A/B");
}

#[test]
fn test_real_clean_rel_indirect_symlinks() {
    let fs = rel_indirect_symlinks_farm();
    clean_ok(&fs, "A/B/__c/..", "A/B/C");
}

#[test]
fn test_real_clean_abs_symlinks() {
    let fs = abs_symlinks_farm();
    clean_ok(&fs, "A/B/=b1/..", "/farm/A/B");
    clean_ok(&fs, "A/B/=a1/..", "/farm/A");
    clean_ok(&fs, "A/B/=C/..", "/farm/A");
}
