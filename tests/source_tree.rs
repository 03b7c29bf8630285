use log2src::source_hier::ScanEvent;
use log2src::{FsEntry, ProgressTracker, ProgressUpdate, SourceFileID, SourceFileInfo, SourceHierTree, SourceLanguage};

fn dir(entries: Vec<(&str, FsEntry)>) -> FsEntry {
    FsEntry::Directory { entries: entries.into_iter().map(|(n, e)| (n.to_string(), e)).collect() }
}

fn file(t: u128) -> FsEntry {
    FsEntry::File { modified: t }
}

/// A source tree: `.git/config`, `tests/java/Basic.java`, `tests/java/Other.java`,
/// `tests/test_java.rs`, `tests/notes.txt`, and `README.md`.
fn snapshot(basic_time: u128, with_test_java: bool, with_java_dir: bool, with_new: bool) -> FsEntry {
    let mut tests = Vec::new();
    if with_java_dir {
        tests.push(("java", dir(vec![("Basic.java", file(basic_time)), ("Other.java", file(3))])));
    }
    tests.push(("notes.txt", file(1)));
    if with_test_java {
        tests.push(("test_java.rs", file(2)));
    }
    let mut top = vec![(".git", dir(vec![("config", file(1))])), ("README.md", file(1)), ("tests", dir(tests))];
    if with_new {
        top.push(("new.rs", file(9)));
    }
    dir(top)
}

fn names(events: &[ScanEvent]) -> Vec<String> {
    events
        .iter()
        .map(|e| match e {
            ScanEvent::NewFile(p, _) => format!("new {}", p),
            ScanEvent::DeletedFile(p, _) => format!("deleted {}", p),
        })
        .collect()
}

#[test]
fn test_with_resources_dir() {
    let mut tree = SourceHierTree::from("/tmp/t");
    tree.sync(&snapshot(1, true, true, false));
    let events = tree.scan();
    let mut got = names(&events);
    got.sort();
    assert_eq!(
        got,
        vec![
            "new /tmp/t/tests/java/Basic.java".to_string(),
            "new /tmp/t/tests/java/Other.java".to_string(),
            "new /tmp/t/tests/test_java.rs".to_string(),
        ]
    );
    let basic_id = events
        .iter()
        .find_map(|e| match e {
            ScanEvent::NewFile(p, info) if p.ends_with("Basic.java") => Some(info.id),
            _ => None,
        })
        .unwrap();
    let find_res = tree.find_file("/tmp/t/tests/java/Basic.java");
    assert_eq!(
        find_res,
        vec![(
            "/tmp/t/tests/java/Basic.java".to_string(),
            SourceFileInfo { language: SourceLanguage::Java, id: basic_id }
        )]
    );
    assert_eq!(tree.stats().files, 3);
    assert_eq!(tree.stats().unsupported_files, 2);
    assert_eq!(tree.stats().directories, 3);

    let no_events = tree.scan();
    assert!(no_events.is_empty());

    tree.sync(&snapshot(7, false, true, true));
    let changed = tree.scan();
    let got = names(&changed);
    let deletions: Vec<&String> = got.iter().filter(|s| s.starts_with("deleted")).collect();
    let news: Vec<&String> = got.iter().filter(|s| s.starts_with("new")).collect();
    assert_eq!(deletions.len(), 2);
    assert!(got.iter().position(|s| s.starts_with("new")).unwrap() >= 2);
    assert!(deletions.contains(&&"deleted /tmp/t/tests/test_java.rs".to_string()));
    assert!(deletions.contains(&&"deleted /tmp/t/tests/java/Basic.java".to_string()));
    let mut news: Vec<String> = news.into_iter().cloned().collect();
    news.sort();
    assert_eq!(news, vec!["new /tmp/t/new.rs".to_string(), "new /tmp/t/tests/java/Basic.java".to_string()]);
    let old_basic = changed.iter().find_map(|e| match e {
        ScanEvent::DeletedFile(p, id) if p.ends_with("Basic.java") => Some(*id),
        _ => None,
    });
    assert_eq!(old_basic, Some(basic_id));
    let new_basic = changed
        .iter()
        .find_map(|e| match e {
            ScanEvent::NewFile(p, info) if p.ends_with("Basic.java") => Some(info.id),
            _ => None,
        })
        .unwrap();
    assert_ne!(new_basic, basic_id);

    tree.sync(&snapshot(7, false, false, true));
    let deleted_dir_events = tree.scan();
    let mut got = names(&deleted_dir_events);
    got.sort();
    assert_eq!(
        got,
        vec!["deleted /tmp/t/tests/java/Basic.java".to_string(), "deleted /tmp/t/tests/java/Other.java".to_string()]
    );
}

#[test]
fn second_scan_reports_nothing() {
    let mut tree = SourceHierTree::from("root");
    tree.sync(&snapshot(1, true, true, true));
    assert_eq!(tree.scan().len(), 4);
    assert!(tree.scan().is_empty());
    tree.sync(&snapshot(1, true, true, true));
    assert!(tree.scan().is_empty());
}

#[test]
fn changed_file_is_deleted_then_new() {
    let mut tree = SourceHierTree::from("root");
    tree.sync(&dir(vec![("a.py", file(1)), ("b.py", file(1))]));
    let first = tree.scan();
    assert_eq!(first.len(), 2);
    tree.sync(&dir(vec![("a.py", file(2)), ("b.py", file(1))]));
    let events = tree.scan();
    assert_eq!(events.len(), 2);
    match (&events[0], &events[1]) {
        (ScanEvent::DeletedFile(p, old), ScanEvent::NewFile(q, info)) => {
            assert_eq!(p, "root/a.py");
            assert_eq!(q, "root/a.py");
            assert_eq!(*old, SourceFileID(0));
            assert_eq!(info.id, SourceFileID(2));
            assert_eq!(info.language, SourceLanguage::Python);
        }
        _ => panic!("unexpected events"),
    }
}

#[test]
fn removed_directory_deletes_each_file_beneath() {
    let mut tree = SourceHierTree::from("r");
    let full = dir(vec![
        ("keep.rs", file(1)),
        ("sub", dir(vec![("x.rs", file(1)), ("deeper", dir(vec![("y.cc", file(1))]))])),
    ]);
    tree.sync(&full);
    tree.scan();
    tree.sync(&dir(vec![("keep.rs", file(1))]));
    let mut got = names(&tree.scan());
    got.sort();
    assert_eq!(got, vec!["deleted r/sub/deeper/y.cc".to_string(), "deleted r/sub/x.rs".to_string()]);
}

#[test]
fn unreadable_paths_are_errors_not_failures() {
    let mut tree = SourceHierTree::from("r");
    tree.sync(&dir(vec![("locked", FsEntry::Inaccessible { message: "denied".to_string() }), ("a.rs", file(1))]));
    assert_eq!(tree.stats().errors, 1);
    assert_eq!(tree.errors().len(), 1);
    assert!(tree.errors()[0].is_warning());
    assert_eq!(tree.scan().len(), 1);
}

#[test]
fn find_file_searches_subtrees() {
    let mut tree = SourceHierTree::from("/w");
    tree.sync(&dir(vec![("src", dir(vec![("org", dir(vec![("example", dir(vec![("Main.java", file(1))]))]))]))]));
    let found = tree.find_file("org/example/Main.java");
    assert_eq!(found.len(), 1);
    assert_eq!(found[0].0, "/w/src/org/example/Main.java");
    assert!(tree.find_file("org/example/Missing.java").is_empty());
    assert!(tree.find_file("/elsewhere/Main.java").is_empty());
}

#[test]
fn progress_notices_reach_subscribers() {
    let mut tracker = ProgressTracker::new();
    let mut listener = tracker.subscribe();
    tracker.begin_step("Finding".to_string());
    tracker.step("step".to_string());
    let guard = tracker.doing_work(3, "files".to_string());
    guard.inc(1);
    tracker.end_step("done".to_string());
    assert!(matches!(listener.next(), Some(ProgressUpdate::BeginStep(m)) if m == "Finding"));
    assert!(matches!(listener.next(), Some(ProgressUpdate::Step(m)) if m == "step"));
    let info = match listener.next() {
        Some(ProgressUpdate::Work(info)) => info,
        _ => panic!("expected work"),
    };
    assert!(info.is_in_progress());
    assert_eq!(info.units, "files");
    drop(guard);
    assert!(!info.is_in_progress());
    assert!(matches!(listener.next(), Some(ProgressUpdate::EndStep(m)) if m == "done"));
}
