use krevetka::changes::{change_records, ChangeKind, ChangeRecord};
use krevetka::manifest::MapEntry;
use krevetka::tree::{build_tree, diff, DirectoryTree};

fn h(seed: u8) -> Vec<u8> {
    vec![seed; 20]
}

fn e(path: &str, seed: u8) -> MapEntry {
    MapEntry { path: path.to_string(), hash: h(seed) }
}

fn keys(t: &DirectoryTree) -> Vec<&str> {
    t.nodes.iter().map(|n| n.path.as_str()).collect()
}

fn files(t: &DirectoryTree, dir: &str) -> Vec<(String, ChangeKind)> {
    let node = t.nodes.iter().find(|n| n.path == dir).expect("directory node");
    node.changes.iter().map(|c| (c.filename.clone(), c.kind)).collect()
}

#[test]
fn deleted_file_gives_its_directory_a_deleted_record() {
    let t = diff(&vec![e("a/b.txt", 1)], &vec![]);
    assert_eq!(keys(&t), vec!["a"]);
    assert_eq!(files(&t, "a"), vec![("b.txt".to_string(), ChangeKind::Deleted)]);
    let c = &t.nodes[0].changes[0];
    assert_eq!(c.path, "a/b.txt");
    assert_eq!(c.directory, "a");
}

#[test]
fn added_file_creates_every_directory_above_it() {
    let t = diff(&vec![], &vec![e("x/y/z.txt", 2)]);
    assert_eq!(keys(&t), vec!["x", "x/y"]);
    assert!(t.nodes[0].changes.is_empty());
    assert_eq!(files(&t, "x/y"), vec![("z.txt".to_string(), ChangeKind::Added)]);
}

#[test]
fn equal_digests_give_an_empty_tree() {
    let t = diff(&vec![e("f.txt", 1)], &vec![e("f.txt", 1)]);
    assert!(t.is_empty());
    assert!(t.nodes.is_empty());
}

#[test]
fn diff_of_a_manifest_with_itself_is_empty() {
    let x = vec![e("a/b.txt", 1), e("a/c.txt", 2), e("d.txt", 3), e("a/b.txt", 4)];
    assert!(diff(&x, &x).is_empty());
    assert!(change_records(&x, &x).is_empty());
}

#[test]
fn each_path_gets_one_class() {
    let old = vec![e("same.txt", 1), e("dir/mod.txt", 1), e("dir/gone.txt", 1)];
    let new = vec![e("same.txt", 1), e("dir/mod.txt", 2), e("dir/new.txt", 1)];
    let t = diff(&old, &new);
    assert_eq!(keys(&t), vec!["dir"]);
    assert_eq!(
        files(&t, "dir"),
        vec![
            ("gone.txt".to_string(), ChangeKind::Deleted),
            ("mod.txt".to_string(), ChangeKind::Modified),
            ("new.txt".to_string(), ChangeKind::Added),
        ]
    );
    let all: Vec<&ChangeRecord> = t.nodes.iter().flat_map(|n| n.changes.iter()).collect();
    assert_eq!(all.len(), 3);
    assert!(all.iter().all(|c| c.path != "same.txt"));
}

#[test]
fn every_ancestor_of_a_record_is_a_node() {
    let t = diff(&vec![], &vec![e("a/b/c/d.txt", 1), e("a/e.txt", 2)]);
    assert_eq!(keys(&t), vec!["a", "a/b", "a/b/c"]);
    assert_eq!(files(&t, "a"), vec![("e.txt".to_string(), ChangeKind::Added)]);
    assert!(files(&t, "a/b").is_empty());
    assert_eq!(files(&t, "a/b/c"), vec![("d.txt".to_string(), ChangeKind::Added)]);
}

#[test]
fn directories_come_in_byte_order_and_files_by_name() {
    let new = vec![e("a/z/1", 1), e("a-c/2", 1), e("a/y", 1), e("a/b", 1), e("b/0", 1)];
    let t = diff(&vec![], &new);
    assert_eq!(keys(&t), vec!["a", "a-c", "a/z", "b"]);
    assert_eq!(
        files(&t, "a"),
        vec![("b".to_string(), ChangeKind::Added), ("y".to_string(), ChangeKind::Added)]
    );
}

#[test]
fn root_level_changes_sit_under_the_empty_directory() {
    let t = diff(&vec![e("old.txt", 1)], &vec![e("new.txt", 1), e("d/f", 1)]);
    assert_eq!(keys(&t), vec!["", "d"]);
    assert_eq!(
        files(&t, ""),
        vec![("new.txt".to_string(), ChangeKind::Added), ("old.txt".to_string(), ChangeKind::Deleted)]
    );
}

#[test]
fn last_listing_of_a_duplicate_path_wins() {
    let old = vec![e("p.txt", 1), e("p.txt", 2)];
    let new = vec![e("p.txt", 2)];
    assert!(diff(&old, &new).is_empty());
    let new2 = vec![e("p.txt", 2), e("p.txt", 1)];
    let t = diff(&old, &new2);
    assert_eq!(files(&t, ""), vec![("p.txt".to_string(), ChangeKind::Modified)]);
}

#[test]
fn change_records_come_in_discovery_order() {
    let old = vec![e("k/gone2", 1), e("k/gone1", 1), e("k/mod", 1)];
    let new = vec![e("k/mod", 2), e("k/add", 1)];
    let r = change_records(&old, &new);
    let got: Vec<(&str, ChangeKind)> = r.iter().map(|c| (c.path.as_str(), c.kind)).collect();
    assert_eq!(
        got,
        vec![
            ("k/mod", ChangeKind::Modified),
            ("k/add", ChangeKind::Added),
            ("k/gone2", ChangeKind::Deleted),
            ("k/gone1", ChangeKind::Deleted),
        ]
    );
}

#[test]
fn change_record_splits_at_the_last_slash() {
    let r = ChangeRecord::new(&"a/b/c.txt".to_string(), ChangeKind::Added);
    assert_eq!(r.directory, "a/b");
    assert_eq!(r.filename, "c.txt");
    let top = ChangeRecord::new(&"c.txt".to_string(), ChangeKind::Deleted);
    assert_eq!(top.directory, "");
    assert_eq!(top.filename, "c.txt");
    let u = ChangeRecord::new(&"папка/файл".to_string(), ChangeKind::Modified);
    assert_eq!(u.directory, "папка");
    assert_eq!(u.filename, "файл");
}

#[test]
fn build_tree_groups_given_records() {
    let records = vec![
        ChangeRecord::new(&"m/n/o".to_string(), ChangeKind::Added),
        ChangeRecord::new(&"m/a".to_string(), ChangeKind::Deleted),
    ];
    let t = build_tree(&records);
    assert_eq!(keys(&t), vec!["m", "m/n"]);
    assert_eq!(t.nodes[0].changes[0], records[1]);
    assert_eq!(t.nodes[1].changes[0], records[0]);
}

#[test]
fn children_lists_direct_subdirectories_in_order() {
    let t = diff(&vec![], &vec![e("a/b/c/d", 1), e("a/x/y", 1), e("q/r", 1), e("top", 1)]);
    assert_eq!(keys(&t), vec!["", "a", "a/b", "a/b/c", "a/x", "q"]);
    let name = |i: &usize| t.nodes[*i].path.as_str();
    assert_eq!(t.children("").iter().map(name).collect::<Vec<_>>(), vec!["a", "q"]);
    assert_eq!(t.children("a").iter().map(name).collect::<Vec<_>>(), vec!["a/b", "a/x"]);
    assert_eq!(t.children("a/b").iter().map(name).collect::<Vec<_>>(), vec!["a/b/c"]);
    assert!(t.children("q").is_empty());
}
