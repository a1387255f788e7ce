use dutree::file_tree::{display_node_recursive, DisplayRow, FileTree};
use dutree::print_tree::{filter_child, filter_children, filter_duplicate_groups, sort_children};
use dutree::snapshot::{FsEntry, FsSnapshot};

fn file(path: &str, size: u64) -> FsEntry {
    FsEntry::File {
        path: String::from(path),
        size,
    }
}

fn dir(path: &str, entries: Vec<FsEntry>) -> FsEntry {
    FsEntry::Dir {
        path: String::from(path),
        entries,
    }
}

fn sample_tree() -> (String, FileTree) {
    let root = String::from("root");
    let snap = FsSnapshot::Dir {
        entries: vec![
            file("root/b.txt", 30),
            file("root/a.txt", 10),
            dir("root/sub", vec![file("root/sub/c.log", 20)]),
        ],
    };
    let tree = FileTree::new(&root, &snap).expect("build failed");
    (root, tree)
}

#[test]
fn extension_matching() {
    let txt = String::from(".txt");
    assert!(filter_child(&String::from("dir/a.txt"), &txt));
    assert!(filter_child(&String::from("a.txt"), &txt));
    assert!(!filter_child(&String::from("dir/a.log"), &txt));
    assert!(!filter_child(&String::from("dir/atxt"), &txt));
    // A hidden file's leading dot begins no extension.
    assert!(!filter_child(&String::from("dir/.txt"), &txt));
    // Only the last dot counts.
    assert!(filter_child(&String::from("dir/archive.tar.txt"), &txt));
    assert!(!filter_child(&String::from("dir/archive.txt.tar"), &txt));
}

#[test]
fn extension_matching_odd_components() {
    // A path ending in `..` has no file name at all.
    let dot = String::from(".");
    assert!(!filter_child(&String::from("a/.."), &dot));
    assert!(!filter_child(&String::from(".."), &dot));
    assert!(!filter_child(&String::from("a/../"), &dot));
    // Trailing separators and `.` components do not hide the file name.
    let txt = String::from(".txt");
    assert!(filter_child(&String::from("a/b.txt/"), &txt));
    assert!(filter_child(&String::from("a/b.txt/."), &txt));
    assert!(filter_child(&String::from("a//b.txt"), &txt));
    // A name that ends in a dot carries the empty extension.
    assert!(filter_child(&String::from("dir/x."), &dot));
    // The root path and a bare `.` name nothing.
    assert!(!filter_child(&String::from("/"), &dot));
    assert!(!filter_child(&String::from("."), &dot));
}

#[test]
fn sort_lexicographic() {
    let (_, tree) = sample_tree();
    let mut children = vec![
        String::from("root/sub"),
        String::from("root/b.txt"),
        String::from("root/a.txt"),
    ];
    sort_children(&mut children, &tree, true);
    assert_eq!(
        children,
        vec![
            String::from("root/a.txt"),
            String::from("root/b.txt"),
            String::from("root/sub"),
        ]
    );
}

#[test]
fn sort_by_descending_size() {
    let (_, tree) = sample_tree();
    let mut children = vec![
        String::from("root/a.txt"),
        String::from("root/b.txt"),
        String::from("root/sub"),
    ];
    sort_children(&mut children, &tree, false);
    // Sizes: b.txt 30, sub 20, a.txt 10.
    assert_eq!(
        children,
        vec![
            String::from("root/b.txt"),
            String::from("root/sub"),
            String::from("root/a.txt"),
        ]
    );
}

#[test]
fn sort_by_size_keeps_ties_in_discovery_order() {
    let root = String::from("root");
    let snap = FsSnapshot::Dir {
        entries: vec![
            file("root/x", 10),
            file("root/y", 10),
            file("root/z", 20),
        ],
    };
    let tree = FileTree::new(&root, &snap).expect("build failed");
    // y and x tie at 10 bytes: whichever came first stays first.
    let mut children = vec![
        String::from("root/y"),
        String::from("root/x"),
        String::from("root/z"),
    ];
    sort_children(&mut children, &tree, false);
    assert_eq!(
        children,
        vec![
            String::from("root/z"),
            String::from("root/y"),
            String::from("root/x"),
        ]
    );
}

#[test]
fn filter_children_by_extension() {
    let (_, tree) = sample_tree();
    let children = vec![
        String::from("root/b.txt"),
        String::from("root/a.txt"),
        String::from("root/sub"),
    ];
    let kept = filter_children(&tree, children, &String::from(".txt"), true);
    assert_eq!(
        kept,
        vec![String::from("root/a.txt"), String::from("root/b.txt")]
    );
}

#[test]
fn filter_groups_by_extension() {
    let groups = vec![
        vec![String::from("a/x.txt"), String::from("a/y.log")],
        vec![String::from("b/z.log"), String::from("b/w.log")],
    ];
    let txt = String::from(".txt");
    let filtered = filter_duplicate_groups(groups.clone(), Some(&txt));
    assert_eq!(filtered, vec![vec![String::from("a/x.txt")]]);
    let untouched = filter_duplicate_groups(groups.clone(), None);
    assert_eq!(untouched, groups);
}

#[test]
fn display_rows_follow_tree() {
    let (root, tree) = sample_tree();
    let mut rows: Vec<DisplayRow> = Vec::new();
    display_node_recursive(&tree, &root, 0, true, &mut rows);
    let summary: Vec<(String, u64, usize)> =
        rows.into_iter().map(|r| (r.path, r.size.0, r.depth)).collect();
    assert_eq!(
        summary,
        vec![
            (String::from("root"), 60, 0),
            (String::from("root/a.txt"), 10, 1),
            (String::from("root/b.txt"), 30, 1),
            (String::from("root/sub"), 20, 1),
            (String::from("root/sub/c.log"), 20, 2),
        ]
    );
}
