use ssdedupe::dup::DupGroup;
use ssdedupe::state::ScanState;
use ssdedupe::tree::{Entry, EntryInfo, EntryKind};

fn file_entry(content: &[u8]) -> Entry {
    Entry::File(EntryInfo::file(content))
}

fn dir_entry(children: Vec<(&str, Entry)>) -> Entry {
    let children = children
        .into_iter()
        .map(|(name, e)| (name.as_bytes().to_vec(), e))
        .collect::<Vec<_>>();
    Entry::dir(children)
}

fn path(components: &[&str]) -> Vec<Vec<u8>> {
    components.iter().map(|c| c.as_bytes().to_vec()).collect()
}

#[test]
fn empty_dir_differs_from_empty_file() {
    let empty_file = EntryInfo::file(&[]);
    let empty_dir = EntryInfo::dir(&vec![]);
    assert_eq!(empty_file.kind, EntryKind::File);
    assert_eq!(empty_dir.kind, EntryKind::Dir);
    assert_eq!(empty_file.bytes, 0);
    assert_eq!(empty_dir.bytes, 0);
    assert_ne!(empty_file.hash, empty_dir.hash);
}

#[test]
fn fingerprints_are_deterministic() {
    let a = EntryInfo::file(b"some file content");
    let b = EntryInfo::file(b"some file content");
    assert_eq!(a, b);
    let d1 = EntryInfo::dir(&vec![a, b]);
    let d2 = EntryInfo::dir(&vec![a, b]);
    assert_eq!(d1, d2);
}

#[test]
fn fingerprints_depend_on_content() {
    let a = EntryInfo::file(b"content one");
    let b = EntryInfo::file(b"content two");
    assert_ne!(a.hash, b.hash);
    assert_ne!(
        EntryInfo::dir(&vec![a]).hash,
        EntryInfo::dir(&vec![b]).hash
    );
}

#[test]
fn dir_fingerprint_is_order_independent() {
    let a = EntryInfo::file(b"alpha");
    let b = EntryInfo::file(b"bravo bravo");
    let c = EntryInfo::file(b"charlie");
    let d1 = EntryInfo::dir(&vec![a, b, c]);
    let d2 = EntryInfo::dir(&vec![c, a, b]);
    let d3 = EntryInfo::dir(&vec![b, c, a]);
    assert_eq!(d1, d2);
    assert_eq!(d2, d3);
    assert_eq!(d1.bytes, 5 + 11 + 7);
}

#[test]
fn aggregates_count_dirs_files_and_bytes() {
    let leaf = file_entry(b"1234");
    assert_eq!(leaf.dirs(), 0);
    assert_eq!(leaf.files(), 1);
    assert_eq!(leaf.info().bytes, 4);

    let sub = dir_entry(vec![("a.txt", file_entry(b"12")), ("b.txt", file_entry(b"345"))]);
    let root = dir_entry(vec![("c.txt", file_entry(b"6789")), ("sub", sub)]);
    assert_eq!(root.dirs(), 2);
    assert_eq!(root.files(), 3);
    assert_eq!(root.info().bytes, 9);
    assert_eq!(root.info().kind, EntryKind::Dir);
}

#[test]
fn empty_dir_aggregates() {
    let root = dir_entry(vec![]);
    assert_eq!(root.dirs(), 1);
    assert_eq!(root.files(), 0);
    assert_eq!(root.info().bytes, 0);
}

#[test]
fn single_file_tree_has_no_duplicates() {
    let root = dir_entry(vec![("only.txt", file_entry(b"unique"))]);
    let groups = root.unfiltered_duplicates();
    assert!(groups.is_empty());
}

#[test]
fn duplicate_files_grouped_with_their_directories() {
    // a/x and b/x hold byte-identical content and nothing else exists:
    // one File group with both paths, one Dir group with a and b.
    let root = dir_entry(vec![
        ("a", dir_entry(vec![("x", file_entry(b"same bytes"))])),
        ("b", dir_entry(vec![("x", file_entry(b"same bytes"))])),
    ]);
    let groups = root.unfiltered_duplicates();
    assert_eq!(groups.len(), 2);

    let file_group = groups
        .iter()
        .find(|g| g.info.kind == EntryKind::File)
        .expect("a file group");
    assert_eq!(file_group.info.bytes, 10);
    assert_eq!(file_group.paths, vec![path(&["a", "x"]), path(&["b", "x"])]);

    let dir_group = groups
        .iter()
        .find(|g| g.info.kind == EntryKind::Dir)
        .expect("a dir group");
    assert_eq!(dir_group.paths, vec![path(&["a"]), path(&["b"])]);
}

#[test]
fn prefix_filter_drops_groups_implied_by_ancestors() {
    // a/x.txt and b/y.txt are identical, which makes a and b identical
    // directories; z.txt duplicates the unrelated w.txt. The raw map holds
    // {a, b}, {a/x.txt, b/y.txt} and {w.txt, z.txt}; filtering removes the
    // descendant group implied by {a, b} and keeps the rest.
    let root = dir_entry(vec![
        ("a", dir_entry(vec![("x.txt", file_entry(b"dup content"))])),
        ("b", dir_entry(vec![("y.txt", file_entry(b"dup content"))])),
        ("w.txt", file_entry(b"other dup")),
        ("z.txt", file_entry(b"other dup")),
    ]);
    let raw = root.unfiltered_duplicates();
    assert_eq!(raw.len(), 3);
    assert!(raw
        .iter()
        .any(|g| g.paths == vec![path(&["a", "x.txt"]), path(&["b", "y.txt"])]));

    let filtered = Entry::filter_duplicates_by_prefix(raw);
    assert_eq!(filtered.len(), 2);
    assert!(filtered
        .iter()
        .any(|g| g.info.kind == EntryKind::Dir && g.paths == vec![path(&["a"]), path(&["b"])]));
    assert!(filtered
        .iter()
        .any(|g| g.info.kind == EntryKind::File
            && g.paths == vec![path(&["w.txt"]), path(&["z.txt"])]));
    assert!(!filtered
        .iter()
        .any(|g| g.paths == vec![path(&["a", "x.txt"]), path(&["b", "y.txt"])]));
}

#[test]
fn prefix_filter_keeps_groups_spanning_different_sets() {
    // a/x, b/x and a top-level x all identical: the file group spans three
    // paths while the directory group spans only a and b, so the file group
    // adds information and must survive the filter.
    let root = dir_entry(vec![
        ("a", dir_entry(vec![("x", file_entry(b"spread"))])),
        ("b", dir_entry(vec![("x", file_entry(b"spread"))])),
        ("x", file_entry(b"spread")),
    ]);
    let raw = root.unfiltered_duplicates();
    let filtered = Entry::filter_duplicates_by_prefix(raw);
    assert!(filtered
        .iter()
        .any(|g| g.info.kind == EntryKind::File
            && g.paths == vec![path(&["a", "x"]), path(&["b", "x"]), path(&["x"])]));
}

#[test]
fn redundant_bytes_counts_file_groups_only() {
    let file_info = EntryInfo::file(b"0123456789"); // 10 bytes
    let other_info = EntryInfo::file(b"abc"); // 3 bytes
    let dir_info = EntryInfo::dir(&vec![file_info]);
    let groups = vec![
        DupGroup {
            info: file_info,
            paths: vec![path(&["p"]), path(&["q"]), path(&["r"])],
        },
        DupGroup {
            info: other_info,
            paths: vec![path(&["s"]), path(&["t"])],
        },
        DupGroup {
            info: dir_info,
            paths: vec![path(&["u"]), path(&["v"])],
        },
    ];
    // 10 * (3 - 1) + 3 * (2 - 1), the directory group contributes nothing
    assert_eq!(Entry::redundant_bytes(&groups), 23);
    assert_eq!(Entry::redundant_bytes(&Vec::new()), 0);
}

#[test]
fn redundant_bytes_of_detected_duplicates() {
    let root = dir_entry(vec![
        ("a", dir_entry(vec![("x", file_entry(b"same bytes"))])),
        ("b", dir_entry(vec![("x", file_entry(b"same bytes"))])),
    ]);
    let groups = root.unfiltered_duplicates();
    // one duplicated 10-byte file; the directory group is not counted
    assert_eq!(Entry::redundant_bytes(&groups), 10);
}

#[test]
fn scan_state_counters_and_log() {
    let mut state = ScanState::new();
    assert!(!state.canceled());
    assert_eq!(state.bytes(), 0);
    assert_eq!(state.dirs(), 0);
    assert_eq!(state.files(), 0);
    assert_eq!(state.last_error_plus(), None);
    assert!(state.clone_error_log().is_empty());

    state.add_bytes(100);
    state.add_bytes(20);
    state.inc_dirs();
    state.inc_files();
    state.inc_files();
    assert_eq!(state.bytes(), 120);
    assert_eq!(state.dirs(), 1);
    assert_eq!(state.files(), 2);

    state.log("first error".to_string());
    state.log("second error".to_string());
    assert_eq!(
        state.last_error_plus(),
        Some(("second error".to_string(), 1))
    );
    assert_eq!(
        state.clone_error_log(),
        vec!["first error".to_string(), "second error".to_string()]
    );
}

#[test]
fn cancel_is_idempotent_and_leaves_progress_alone() {
    let mut state = ScanState::new();
    state.add_bytes(7);
    state.cancel();
    assert!(state.canceled());
    let bytes = state.bytes();
    state.cancel();
    assert!(state.canceled());
    assert_eq!(state.bytes(), bytes);
    assert_eq!(state.dirs(), 0);
}
