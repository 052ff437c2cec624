use comic_index::errors::ScanError;
use comic_index::file_system::{
    directory_has_images, get_images_in_directory, scan_directory, FileNode, FsTree,
};

fn file(name: &str, parent: &str) -> FsTree {
    FsTree::File { name: name.to_string(), path: format!("{}/{}", parent, name) }
}

fn dir(name: &str, parent: &str, entries: Vec<FsTree>) -> FsTree {
    FsTree::Dir { name: name.to_string(), path: format!("{}/{}", parent, name), entries }
}

fn nodes_equal(a: &FileNode, b: &FileNode) -> bool {
    a.name == b.name && a.path == b.path && a.is_directory == b.is_directory
        && a.is_comic == b.is_comic && a.is_zip == b.is_zip && a.image_count == b.image_count
        && match (&a.children, &b.children) {
            (None, None) => true,
            (Some(x), Some(y)) => {
                x.len() == y.len() && x.iter().zip(y.iter()).all(|(m, n)| nodes_equal(m, n))
            },
            _ => false,
        }
}

#[test]
fn natural_order_of_directory_images() {
    let root = dir(
        "comics",
        "base",
        vec![file("page2.jpg", "base/comics"), file("page10.jpg", "base/comics"), file(
            "page1.jpg",
            "base/comics",
        )],
    );
    let listed = get_images_in_directory(Some(&root)).unwrap();
    assert_eq!(
        listed,
        vec![
            "base/comics/page1.jpg".to_string(),
            "base/comics/page2.jpg".to_string(),
            "base/comics/page10.jpg".to_string()
        ]
    );
}

#[test]
fn listing_missing_or_file_targets() {
    assert_eq!(get_images_in_directory(None), Err(ScanError::NotFound));
    let f = file("one.jpg", "base");
    assert_eq!(get_images_in_directory(Some(&f)), Err(ScanError::NotADirectory));
}

#[test]
fn listing_skips_non_images_and_subdirectories() {
    let root = dir(
        "c",
        "b",
        vec![
            file("b.jpg", "b/c"),
            file("notes.txt", "b/c"),
            dir("inner", "b/c", vec![file("deep.jpg", "b/c/inner")]),
            file("a.png", "b/c"),
        ],
    );
    let listed = get_images_in_directory(Some(&root)).unwrap();
    assert_eq!(listed, vec!["b/c/a.png".to_string(), "b/c/b.jpg".to_string()]);
}

#[test]
fn hidden_only_subdirectory_is_empty() {
    let sub = dir("sub", "base/root", vec![file(".DS_Store", "base/root/sub")]);
    let root = dir("root", "base", vec![sub]);
    let node = scan_directory(Some(&root), 0, 5).unwrap();
    let children = node.children.as_ref().unwrap();
    assert_eq!(children.len(), 1);
    let sub_node = &children[0];
    assert_eq!(sub_node.name, "sub");
    assert!(sub_node.is_directory);
    assert!(sub_node.children.is_none());
    assert_eq!(sub_node.image_count, 0);
    assert!(!sub_node.is_comic);
}

#[test]
fn depth_zero_counts_images_but_does_not_expand() {
    let nested = dir("nested", "base/root", vec![dir("deeper", "base/root/nested", vec![])]);
    let root = dir(
        "root",
        "base",
        vec![file("cover.jpg", "base/root"), file("p2.png", "base/root"), nested],
    );
    let node = scan_directory(Some(&root), 0, 0).unwrap();
    assert!(node.is_directory);
    assert!(node.children.is_none());
    assert_eq!(node.image_count, 2);
    assert!(node.is_comic);
}

#[test]
fn depth_limit_stops_expansion_at_the_frontier() {
    let deep = dir("deep", "base/root/sub", vec![file("v.zip", "base/root/sub/deep")]);
    let sub = dir("sub", "base/root", vec![file("x.jpg", "base/root/sub"), deep]);
    let root = dir("root", "base", vec![sub]);
    let node = scan_directory(Some(&root), 0, 1).unwrap();
    // the root expands one level; the frontier node still reports its
    // direct images but is not expanded further
    let sub_node = &node.children.as_ref().unwrap()[0];
    assert_eq!(sub_node.name, "sub");
    assert!(sub_node.children.is_none());
    assert_eq!(sub_node.image_count, 1);
    assert!(sub_node.is_comic);

    // starting at the frontier depth, even the root stays unexpanded
    let at_frontier = scan_directory(Some(&root), 1, 1).unwrap();
    assert!(at_frontier.children.is_none());
}

#[test]
fn scan_missing_root() {
    let r = scan_directory(None, 0, 3);
    assert!(matches!(r, Err(ScanError::NotFound)));
}

#[test]
fn scan_file_root_classifies_archives() {
    let node = scan_directory(Some(&file("vol1.cbz", "base")), 0, 3).unwrap();
    assert!(!node.is_directory);
    assert!(node.is_zip);
    assert!(node.is_comic);
    assert_eq!(node.image_count, 0);
    assert!(node.children.is_none());

    let plain = scan_directory(Some(&file("readme.txt", "base")), 0, 3).unwrap();
    assert!(!plain.is_zip);
    assert!(!plain.is_comic);
}

#[test]
fn children_ordered_directories_first_then_natural() {
    let root = dir(
        "root",
        "base",
        vec![
            file("m.zip", "base/root"),
            dir("z", "base/root", vec![]),
            file("a1.cbz", "base/root"),
            dir("a10", "base/root", vec![]),
            dir("a2", "base/root", vec![]),
            file("loose.jpg", "base/root"),
            file(".hidden.zip", "base/root"),
        ],
    );
    let node = scan_directory(Some(&root), 0, 3).unwrap();
    let names: Vec<&str> =
        node.children.as_ref().unwrap().iter().map(|c| c.name.as_str()).collect();
    // directories in natural order first, then archive files; the loose
    // image and the hidden archive are not children at all
    assert_eq!(names, vec!["a2", "a10", "z", "a1.cbz", "m.zip"]);
    assert_eq!(node.image_count, 1);
    assert!(node.is_comic);
}

#[test]
fn archive_children_are_comics() {
    let root = dir("root", "base", vec![file("v.zip", "base/root")]);
    let node = scan_directory(Some(&root), 0, 1).unwrap();
    let child = &node.children.as_ref().unwrap()[0];
    assert!(child.is_zip && child.is_comic && !child.is_directory);
    assert_eq!(child.path, "base/root/v.zip");
    assert_eq!(child.image_count, 0);
}

#[test]
fn empty_child_list_is_absent_not_empty() {
    let root = dir("root", "base", vec![file("loose.jpg", "base/root")]);
    let node = scan_directory(Some(&root), 0, 3).unwrap();
    assert!(node.children.is_none());
    assert_eq!(node.image_count, 1);
}

#[test]
fn rescan_is_deterministic() {
    let build = || {
        dir(
            "root",
            "base",
            vec![
                dir("sub2", "base/root", vec![file("x.jpg", "base/root/sub2")]),
                dir("sub10", "base/root", vec![file("v.cbz", "base/root/sub10")]),
                file("a.zip", "base/root"),
                file("cover.png", "base/root"),
            ],
        )
    };
    let t1 = build();
    let t2 = build();
    let n1 = scan_directory(Some(&t1), 0, 4).unwrap();
    let n2 = scan_directory(Some(&t2), 0, 4).unwrap();
    assert!(nodes_equal(&n1, &n2));
}

#[test]
fn direct_image_probe() {
    let d = dir("d", "b", vec![file("one.JPG", "b/d"), file("two.txt", "b/d"), file(
        ".three.gif",
        "b/d",
    )]);
    // the hidden image is skipped entirely: it is not even counted
    assert_eq!(directory_has_images(&d), (true, 1));
    assert_eq!(directory_has_images(&file("one.jpg", "b")), (false, 0));
}

#[test]
fn hidden_images_are_not_counted() {
    let d = dir("d", "b", vec![file(".a.jpg", "b/d")]);
    assert_eq!(directory_has_images(&d), (false, 0));
    let root = dir("root", "base", vec![dir("d", "base/root", vec![file(
        ".a.jpg",
        "base/root/d",
    )])]);
    let node = scan_directory(Some(&root), 0, 3).unwrap();
    let sub = &node.children.as_ref().unwrap()[0];
    assert_eq!(sub.image_count, 0);
    assert!(!sub.is_comic);
}
