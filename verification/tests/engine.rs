use jaso::executor::RenameOutcome;
use jaso::tree::{run, FsEntry, FsNode, RunOutcome};

// "안녕하세요" in its 5-code-point precomposed form and its 12-code-point
// decomposed jamo form.
const HANGUL_NFC: &str = "\u{c548}\u{b155}\u{d558}\u{c138}\u{c694}";
const HANGUL_NFD: &str =
    "\u{110b}\u{1161}\u{11ab}\u{1102}\u{1167}\u{11bc}\u{1112}\u{1161}\u{1109}\u{1166}\u{110b}\u{116d}";

// "café" composed and decomposed.
const CAFE_NFC: &str = "caf\u{e9}";
const CAFE_NFD: &str = "cafe\u{301}";

fn file(name: &str) -> FsEntry {
    FsEntry { name: name.to_string(), node: FsNode::File }
}

fn dir(name: &str, children: Vec<FsEntry>) -> FsEntry {
    FsEntry { name: name.to_string(), node: FsNode::Dir { via_symlink: false, children } }
}

fn link_dir(name: &str, children: Vec<FsEntry>) -> FsEntry {
    FsEntry { name: name.to_string(), node: FsNode::Dir { via_symlink: true, children } }
}

fn names(outcome: &RunOutcome) -> Vec<String> {
    outcome.roots.iter().map(|e| e.name.clone()).collect()
}

#[test]
fn hangul_file_is_composed() {
    let tree = vec![file(&format!("{HANGUL_NFD}.txt"))];
    let r = run(".", tree, false, false);
    assert_eq!(names(&r), vec![format!("{HANGUL_NFC}.txt")]);
    assert_eq!(r.counters.success, 1);
    assert_eq!(r.counters.error, 0);
    assert_eq!(r.exit_code, 0);
    assert_eq!(r.reports.len(), 1);
    assert_eq!(r.reports[0].old_path, format!("./{HANGUL_NFD}.txt"));
    assert_eq!(r.reports[0].new_path, format!("./{HANGUL_NFC}.txt"));
    assert!(matches!(r.reports[0].outcome, RenameOutcome::Succeeded));
}

#[test]
fn decomposed_dir_keeps_child_reachable() {
    let tree = vec![dir(CAFE_NFD, vec![file("a.txt")])];
    let r = run(".", tree, false, false);
    assert_eq!(r.counters.success, 1);
    assert_eq!(r.counters.error, 0);
    assert_eq!(r.roots.len(), 1);
    assert_eq!(r.roots[0].name, CAFE_NFC);
    match &r.roots[0].node {
        FsNode::Dir { via_symlink, children } => {
            assert!(!via_symlink);
            assert_eq!(children.len(), 1);
            assert_eq!(children[0].name, "a.txt");
        }
        FsNode::File => panic!("directory became a file"),
    }
}

#[test]
fn sibling_collision_is_isolated() {
    // One sibling already holds the composed name; the decomposed sibling
    // collides with it, while an unrelated decomposed sibling still gets
    // renamed.
    let tree = vec![file(CAFE_NFC), file(CAFE_NFD), file(&format!("{HANGUL_NFD}.txt"))];
    let r = run(".", tree, false, false);
    assert_eq!(r.counters.success, 1);
    assert_eq!(r.counters.error, 1);
    assert_ne!(r.exit_code, 0);
    let n = names(&r);
    assert_eq!(n[0], CAFE_NFC);
    assert_eq!(n[1], CAFE_NFD);
    assert_eq!(n[2], format!("{HANGUL_NFC}.txt"));
}

#[test]
fn second_pass_renames_nothing() {
    let tree = vec![
        dir(CAFE_NFD, vec![file(&format!("{HANGUL_NFD}.txt")), file("plain.txt")]),
        file(CAFE_NFC),
        file(CAFE_NFD),
    ];
    // The decomposed directory and the decomposed file both collide with
    // the composed sibling file; the file inside the directory still gets
    // renamed.
    let first = run(".", tree, false, false);
    assert_eq!(first.counters.success, 1);
    assert_eq!(first.counters.error, 2);
    let second = run(".", first.roots, false, false);
    assert_eq!(second.counters.success, 0);
    // The collisions are still reported, and still fail.
    assert_eq!(second.counters.error, 2);
}

#[test]
fn dry_run_reports_without_touching() {
    let tree = vec![dir(CAFE_NFD, vec![file(&format!("{HANGUL_NFD}.txt"))]), file("plain.txt")];
    let wet = vec![dir(CAFE_NFD, vec![file(&format!("{HANGUL_NFD}.txt"))]), file("plain.txt")];
    let d = run(".", tree, true, false);
    // Nothing moved: the tree still carries the decomposed names.
    assert_eq!(d.roots[0].name, CAFE_NFD);
    match &d.roots[0].node {
        FsNode::Dir { children, .. } => assert_eq!(children[0].name, format!("{HANGUL_NFD}.txt")),
        FsNode::File => panic!("directory became a file"),
    }
    // Dry runs count reports as successes and always exit zero.
    assert_eq!(d.counters.success, 2);
    assert_eq!(d.counters.error, 0);
    assert_eq!(d.exit_code, 0);
    for rep in &d.reports {
        assert!(matches!(rep.outcome, RenameOutcome::DryRunReported));
    }
    // A real run attempts exactly the renames the dry run reported.
    let w = run(".", wet, false, false);
    assert_eq!(d.reports.len(), w.reports.len());
    for (a, b) in d.reports.iter().zip(w.reports.iter()) {
        assert_eq!(a.old_path, b.old_path);
        assert_eq!(a.new_path, b.new_path);
    }
}

#[test]
fn symlink_dir_name_normalized_but_not_entered() {
    let tree = vec![link_dir(CAFE_NFD, vec![file(&format!("{HANGUL_NFD}.txt"))])];
    let r = run(".", tree, false, false);
    // The link's own name is still normalized ...
    assert_eq!(r.roots[0].name, CAFE_NFC);
    assert_eq!(r.counters.success, 1);
    // ... but the walk did not descend into it.
    match &r.roots[0].node {
        FsNode::Dir { children, .. } => assert_eq!(children[0].name, format!("{HANGUL_NFD}.txt")),
        FsNode::File => panic!("directory became a file"),
    }
}

#[test]
fn symlink_dir_entered_when_following() {
    let tree = vec![link_dir(CAFE_NFD, vec![file(&format!("{HANGUL_NFD}.txt"))])];
    let r = run(".", tree, false, true);
    assert_eq!(r.roots[0].name, CAFE_NFC);
    assert_eq!(r.counters.success, 2);
    match &r.roots[0].node {
        FsNode::Dir { children, .. } => assert_eq!(children[0].name, format!("{HANGUL_NFC}.txt")),
        FsNode::File => panic!("directory became a file"),
    }
}

#[test]
fn already_normalized_tree_untouched() {
    let tree = vec![dir(CAFE_NFC, vec![file("a.txt")]), file(&format!("{HANGUL_NFC}.txt"))];
    let r = run(".", tree, false, false);
    assert_eq!(r.counters.success, 0);
    assert_eq!(r.counters.error, 0);
    assert_eq!(r.exit_code, 0);
    assert_eq!(r.reports.len(), 0);
    assert_eq!(names(&r), vec![CAFE_NFC.to_string(), format!("{HANGUL_NFC}.txt")]);
}

#[test]
fn deep_paths_use_composed_ancestors() {
    // The reported paths rebuild every ancestor segment in composed form,
    // the way the resolver does at the moment of use.
    let tree = vec![dir(CAFE_NFD, vec![dir(CAFE_NFD, vec![file(&format!("{HANGUL_NFD}.txt"))])])];
    let r = run("/top", tree, false, false);
    assert_eq!(r.counters.success, 3);
    assert_eq!(r.reports[0].old_path, format!("/top/{CAFE_NFD}"));
    assert_eq!(r.reports[0].new_path, format!("/top/{CAFE_NFC}"));
    assert_eq!(r.reports[1].old_path, format!("/top/{CAFE_NFC}/{CAFE_NFD}"));
    assert_eq!(r.reports[2].old_path, format!("/top/{CAFE_NFC}/{CAFE_NFC}/{HANGUL_NFD}.txt"));
    assert_eq!(r.reports[2].new_path, format!("/top/{CAFE_NFC}/{CAFE_NFC}/{HANGUL_NFC}.txt"));
}
