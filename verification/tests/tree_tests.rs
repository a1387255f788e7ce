use dutree::doublons::{calculate_md5, find_duplicate_files, FileRead};
use dutree::file_tree::{BuildError, FileTree};
use dutree::size::Size;
use dutree::snapshot::{FsEntry, FsSnapshot};

fn file(path: &str, size: u64) -> FsEntry {
    FsEntry::File {
        path: String::from(path),
        size,
    }
}

fn dir(path: &str, entries: Vec<FsEntry>) -> FsEntry {
    FsEntry::Dir {
        path: String::from(path),
        entries,
    }
}

/// The three-file layout the tree tests use: one file beside two
/// single-file subdirectories.
fn sample_snapshot() -> (String, FsSnapshot) {
    let root = String::from("root");
    let snap = FsSnapshot::Dir {
        entries: vec![
            file("root/file1.txt", 13),
            dir("root/subdir1", vec![file("root/subdir1/file2.txt", 11)]),
            dir("root/subdir2", vec![file("root/subdir2/file3.txt", 15)]),
        ],
    };
    (root, snap)
}

#[test]
fn test_size_creation() {
    let size = Size::new(1024);
    assert_eq!(size.0, 1024);
}

#[test]
fn test_size_addition() {
    let size1 = Size::new(1024);
    let size2 = Size::new(2048);
    let result = size1.add(size2);
    assert_eq!(result.0, 3072);
}

#[test]
fn test_file_tree_creation() {
    let (root, snap) = sample_snapshot();
    let file_tree = FileTree::new(&root, &snap).expect("Error creating file tree");
    assert_eq!(file_tree.get_root(), &root);
}

#[test]
fn test_file_tree_methods() {
    let (root, snap) = sample_snapshot();
    let file_tree = FileTree::new(&root, &snap).expect("Error creating file tree");
    assert_eq!(file_tree.files().len(), 3);
}

#[test]
fn test_find_duplicate_files() {
    let content = b"Hello, World!";
    let file1_path = String::from("root/file1.txt");
    let file2_path = String::from("root/file2.txt");
    let snap = FsSnapshot::Dir {
        entries: vec![file(&file1_path, 13), file(&file2_path, 13)],
    };
    let root = String::from("root");
    let file_tree = FileTree::new(&root, &snap).expect("Error creating file tree");
    let reads: Vec<FileRead> = file_tree
        .files()
        .into_iter()
        .map(|path| FileRead {
            path,
            content: Some(content.to_vec()),
        })
        .collect();
    let duplicate_files = find_duplicate_files(&reads);
    println!("Actual duplicate files: {:?}", duplicate_files);
    assert!(
        duplicate_files
            .iter()
            .any(|files| files.contains(&file1_path) && files.contains(&file2_path)),
        "Expected duplicate files not found"
    );
}

#[test]
fn test_calculate_md5() {
    let content = b"Hello, World!";
    let md5_hash = calculate_md5(&content.to_vec());
    assert!(!md5_hash.is_empty(), "MD5 hash is empty");
}

#[test]
fn md5_known_digest() {
    // The digest must be the real MD5 of the bytes, not anything derived
    // from the input by length or identity.
    let digest = calculate_md5(&b"Hello, World!".to_vec());
    let expected: Vec<u8> = vec![
        0x65, 0xa8, 0xe2, 0x7d, 0x88, 0x79, 0x28, 0x38, 0x31, 0xb6, 0x64, 0xbd, 0x8b, 0x7f,
        0x0a, 0xd4,
    ];
    assert_eq!(digest, expected);
    assert_eq!(calculate_md5(&Vec::new()).len(), 16);
}

#[test]
fn duplicates_identical_pair() {
    // Two files of identical five-byte content form one group; the root
    // aggregates both lengths.
    let root = String::from("root");
    let snap = FsSnapshot::Dir {
        entries: vec![file("root/a.txt", 5), file("root/b.txt", 5)],
    };
    let tree = FileTree::new(&root, &snap).expect("build failed");
    assert_eq!(tree.get_size(&root), Some(Size::new(10)));
    let reads: Vec<FileRead> = tree
        .files()
        .into_iter()
        .map(|path| FileRead {
            path,
            content: Some(b"hello".to_vec()),
        })
        .collect();
    let groups = find_duplicate_files(&reads);
    assert_eq!(groups.len(), 1);
    assert!(groups[0].contains(&String::from("root/a.txt")));
    assert!(groups[0].contains(&String::from("root/b.txt")));
    assert_eq!(groups[0].len(), 2);
}

#[test]
fn duplicates_distinct_pair() {
    let reads = vec![
        FileRead {
            path: String::from("root/a.txt"),
            content: Some(b"hello".to_vec()),
        },
        FileRead {
            path: String::from("root/b.txt"),
            content: Some(b"world".to_vec()),
        },
    ];
    let groups = find_duplicate_files(&reads);
    assert!(groups.is_empty());
}

#[test]
fn duplicates_skip_failed_reads() {
    // An unreadable file joins no group; the other two still pair up.
    let reads = vec![
        FileRead {
            path: String::from("root/a.txt"),
            content: Some(b"same".to_vec()),
        },
        FileRead {
            path: String::from("root/broken.txt"),
            content: None,
        },
        FileRead {
            path: String::from("root/b.txt"),
            content: Some(b"same".to_vec()),
        },
    ];
    let groups = find_duplicate_files(&reads);
    assert_eq!(groups.len(), 1);
    assert_eq!(
        groups[0],
        vec![String::from("root/a.txt"), String::from("root/b.txt")]
    );
}

#[test]
fn duplicates_no_singletons() {
    let reads = vec![
        FileRead {
            path: String::from("r/a"),
            content: Some(b"one".to_vec()),
        },
        FileRead {
            path: String::from("r/b"),
            content: Some(b"two".to_vec()),
        },
        FileRead {
            path: String::from("r/c"),
            content: Some(b"one".to_vec()),
        },
    ];
    let groups = find_duplicate_files(&reads);
    for g in &groups {
        assert!(g.len() >= 2);
    }
    assert_eq!(groups.len(), 1);
}

#[test]
fn duplicates_idempotent() {
    let mk = || {
        vec![
            FileRead {
                path: String::from("r/a"),
                content: Some(b"xyz".to_vec()),
            },
            FileRead {
                path: String::from("r/b"),
                content: Some(b"xyz".to_vec()),
            },
            FileRead {
                path: String::from("r/c"),
                content: None,
            },
        ]
    };
    let g1 = find_duplicate_files(&mk());
    let g2 = find_duplicate_files(&mk());
    assert_eq!(g1, g2);
}

#[test]
fn nested_sizes() {
    // root/sub/c.txt (100 bytes) and root/d.txt (50 bytes).
    let root = String::from("root");
    let snap = FsSnapshot::Dir {
        entries: vec![
            dir("root/sub", vec![file("root/sub/c.txt", 100)]),
            file("root/d.txt", 50),
        ],
    };
    let tree = FileTree::new(&root, &snap).expect("build failed");
    assert_eq!(tree.get_size(&root), Some(Size::new(150)));
    assert_eq!(tree.get_size(&String::from("root/sub")), Some(Size::new(100)));
    assert_eq!(
        tree.get_size(&String::from("root/sub/c.txt")),
        Some(Size::new(100))
    );
    assert_eq!(tree.get_size(&String::from("root/d.txt")), Some(Size::new(50)));
}

#[test]
fn root_is_a_file() {
    let root = String::from("root");
    assert!(matches!(
        FileTree::new(&root, &FsSnapshot::File),
        Err(BuildError::InvalidRoot)
    ));
    assert!(matches!(
        FileTree::new(&root, &FsSnapshot::Missing),
        Err(BuildError::InvalidRoot)
    ));
}

#[test]
fn empty_directory() {
    let root = String::from("root");
    let snap = FsSnapshot::Dir {
        entries: Vec::new(),
    };
    let tree = FileTree::new(&root, &snap).expect("build failed");
    assert_eq!(tree.get_size(&root), Some(Size::new(0)));
    assert!(tree.files().is_empty());
    let groups = find_duplicate_files(&Vec::new());
    assert!(groups.is_empty());
}

#[test]
fn children_in_discovery_order() {
    let (root, snap) = sample_snapshot();
    let tree = FileTree::new(&root, &snap).expect("build failed");
    let children = tree.get_children(&root).expect("root has children");
    assert_eq!(
        children,
        vec![
            String::from("root/file1.txt"),
            String::from("root/subdir1"),
            String::from("root/subdir2"),
        ]
    );
    // A file is not a directory, and an unknown path is nothing at all.
    assert!(tree.get_children(&String::from("root/file1.txt")).is_none());
    assert!(tree.get_children(&String::from("elsewhere")).is_none());
    assert!(tree.get_size(&String::from("elsewhere")).is_none());
}

#[test]
fn largest_file_size() {
    let root = String::from("r");
    let snap = FsSnapshot::Dir {
        entries: vec![file("r/big", u64::MAX)],
    };
    let tree = FileTree::new(&root, &snap).expect("build failed");
    assert_eq!(tree.get_size(&root), Some(Size::new(u64::MAX)));
}

#[test]
fn degraded_listing_keeps_siblings() {
    // A walker that cannot read one file hands a listing without it: the
    // siblings are all still there and the parent's size shrinks by
    // exactly the missing file's length.
    let root = String::from("root");
    let full = FsSnapshot::Dir {
        entries: vec![
            file("root/a.txt", 7),
            file("root/locked.txt", 100),
            file("root/b.txt", 3),
        ],
    };
    let degraded = FsSnapshot::Dir {
        entries: vec![file("root/a.txt", 7), file("root/b.txt", 3)],
    };
    let t_full = FileTree::new(&root, &full).expect("build failed");
    let t_part = FileTree::new(&root, &degraded).expect("build failed");
    assert_eq!(t_full.get_size(&root), Some(Size::new(110)));
    assert_eq!(t_part.get_size(&root), Some(Size::new(10)));
    assert_eq!(
        t_part.get_size(&String::from("root/a.txt")),
        Some(Size::new(7))
    );
    assert_eq!(
        t_part.get_size(&String::from("root/b.txt")),
        Some(Size::new(3))
    );
    assert!(t_part.get_size(&String::from("root/locked.txt")).is_none());
}

#[test]
fn degraded_nested_listing_keeps_the_rest() {
    // The unreadable file sits inside a subdirectory: its siblings stay,
    // and the subdirectory's and the root's sizes both shrink by exactly
    // its length.
    let root = String::from("root");
    let full = FsSnapshot::Dir {
        entries: vec![
            file("root/a.txt", 4),
            dir(
                "root/sub",
                vec![file("root/sub/locked.txt", 25), file("root/sub/b.txt", 6)],
            ),
        ],
    };
    let degraded = FsSnapshot::Dir {
        entries: vec![
            file("root/a.txt", 4),
            dir("root/sub", vec![file("root/sub/b.txt", 6)]),
        ],
    };
    let t_full = FileTree::new(&root, &full).expect("build failed");
    let t_part = FileTree::new(&root, &degraded).expect("build failed");
    assert_eq!(t_full.get_size(&root), Some(Size::new(35)));
    assert_eq!(t_part.get_size(&root), Some(Size::new(10)));
    assert_eq!(
        t_part.get_size(&String::from("root/sub")),
        Some(Size::new(6))
    );
    assert_eq!(
        t_part.get_size(&String::from("root/sub/b.txt")),
        Some(Size::new(6))
    );
    assert!(t_part
        .get_size(&String::from("root/sub/locked.txt"))
        .is_none());
}

#[test]
fn aggregation_matches_children() {
    // Every directory's size equals the sum over its children.
    let (root, snap) = sample_snapshot();
    let tree = FileTree::new(&root, &snap).expect("build failed");
    for d in [root.as_str(), "root/subdir1", "root/subdir2"] {
        let children = tree.get_children(&String::from(d)).expect("directory");
        let total: u64 = children
            .iter()
            .map(|c| tree.get_size(c).expect("child known").0)
            .sum();
        assert_eq!(tree.get_size(&String::from(d)).expect("known").0, total);
    }
}
