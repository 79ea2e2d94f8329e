use disk_analyzer::model::Node;
use disk_analyzer::order::larger_first;
use std::cmp::Ordering;

fn file(path: &str, size: u64) -> Node {
    Node::new_file(path.to_string(), size)
}

fn dir(path: &str, children: Vec<Node>) -> Node {
    Node::new_dir(path.to_string(), children)
}

fn sample_tree() -> Node {
    dir(
        "root",
        vec![
            dir(
                "root/big_folder",
                vec![file("root/big_folder/video.mp4", 8_000_000_000), file("root/big_folder/notes.txt", 200)],
            ),
            dir(
                "root/photos",
                vec![file("root/photos/a.jpg", 3_000_000_000), file("root/photos/b.jpg", 2_500_000_000)],
            ),
            file("root/readme.md", 1_200),
        ],
    )
}

fn names(n: &Node) -> Vec<String> {
    n.children.iter().map(|c| c.name.clone()).collect()
}

#[test]
fn new_file_takes_name_from_last_component() {
    let f = file("dir/sub/a.txt", 5);
    assert_eq!(f.name, "a.txt");
    assert_eq!(f.path, "dir/sub/a.txt");
    assert_eq!(f.size, 5);
    assert!(!f.is_dir);
    assert!(f.children.is_empty());
}

#[test]
fn new_file_name_ignores_trailing_separator_and_dot() {
    assert_eq!(file("dir/sub/", 0).name, "sub");
    assert_eq!(file("dir/sub/.", 0).name, "sub");
}

#[test]
fn new_file_without_final_component_is_named_by_its_path() {
    assert_eq!(file("/", 1).name, "/");
    assert_eq!(file("a/..", 1).name, "a/..");
}

#[test]
fn new_dir_sums_children_and_sorts_largest_first() {
    let root = sample_tree();
    assert!(root.is_dir);
    assert_eq!(root.name, "root");
    assert_eq!(root.size, 8_000_000_200 + 5_500_000_000 + 1_200);
    assert_eq!(names(&root), vec!["big_folder", "photos", "readme.md"]);
    assert_eq!(root.children[0].size, 8_000_000_200);
    assert_eq!(names(&root.children[0]), vec!["video.mp4", "notes.txt"]);
    assert_eq!(names(&root.children[1]), vec!["a.jpg", "b.jpg"]);
}

#[test]
fn new_dir_keeps_order_of_equal_sizes() {
    let d = dir("d", vec![file("d/x", 3), file("d/y", 7), file("d/z", 3), file("d/w", 7)]);
    assert_eq!(names(&d), vec!["y", "w", "x", "z"]);
    assert_eq!(d.size, 20);
}

#[test]
fn new_dir_of_nothing_is_empty() {
    let d = dir("empty", Vec::new());
    assert_eq!(d.size, 0);
    assert!(d.children.is_empty());
    assert!(d.is_dir);
}

#[test]
fn recompute_rolls_sizes_up_and_resorts() {
    let mut root = sample_tree();
    // readme grows past everything else
    root.children[2].size = 20_000_000_000;
    // one photo shrinks
    root.children[1].children[0].size = 1;
    assert!(root.recompute_fits());
    root.recompute();
    assert_eq!(names(&root), vec!["readme.md", "big_folder", "photos"]);
    assert_eq!(root.children[2].size, 2_500_000_001);
    assert_eq!(names(&root.children[2]), vec!["b.jpg", "a.jpg"]);
    assert_eq!(root.size, 20_000_000_000 + 8_000_000_200 + 2_500_000_001);
}

#[test]
fn recompute_twice_changes_nothing_more() {
    let mut root = sample_tree();
    root.children[0].children[1].size = 9_000_000_000;
    root.recompute();
    let sizes: Vec<u64> = root.children.iter().map(|c| c.size).collect();
    let order = names(&root);
    root.recompute();
    assert_eq!(root.children.iter().map(|c| c.size).collect::<Vec<_>>(), sizes);
    assert_eq!(names(&root), order);
    assert_eq!(root.size, 17_000_000_000 + 5_500_000_000 + 1_200);
}

#[test]
fn recompute_keeps_a_file_size() {
    let mut f = file("f", 42);
    f.recompute();
    assert_eq!(f.size, 42);
}

#[test]
fn recompute_fits_detects_overflow() {
    let mut d = dir("d", vec![file("d/a", u64::MAX)]);
    assert!(d.recompute_fits());
    d.children.push(file("d/b", 1));
    assert!(!d.recompute_fits());
}

#[test]
fn remove_child_removes_every_match() {
    let mut d = dir("d", vec![file("d/a", 1), file("d/b", 2), file("d/a", 3)]);
    assert!(d.remove_child(&"d/a".to_string()));
    assert_eq!(names(&d), vec!["b"]);
    // size is not recomputed by remove_child
    assert_eq!(d.size, 6);
}

#[test]
fn remove_child_compares_paths_by_component() {
    let mut d = dir("d", vec![file("d/a", 1), file("d/b", 2)]);
    assert!(d.remove_child(&"d//a/".to_string()));
    assert_eq!(names(&d), vec!["b"]);
}

#[test]
fn remove_child_without_match_returns_false() {
    let mut d = dir("d", vec![file("d/a", 1)]);
    assert!(!d.remove_child(&"d/zzz".to_string()));
    assert_eq!(names(&d), vec!["a"]);
}

#[test]
fn find_mut_finds_nested_node_and_allows_change() {
    let mut root = sample_tree();
    {
        let n = root.find_mut(&"root/photos/b.jpg".to_string()).unwrap();
        assert_eq!(n.size, 2_500_000_000);
        n.size = 10;
    }
    assert_eq!(root.children[1].children[1].size, 10);
    assert!(root.find_mut(&"root/nope".to_string()).is_none());
}

#[test]
fn find_mut_returns_self_for_own_path() {
    let mut root = sample_tree();
    let n = root.find_mut(&"root/".to_string()).unwrap();
    assert_eq!(n.name, "root");
}

#[test]
fn clone_copies_the_whole_tree() {
    let root = sample_tree();
    let mut copy = root.clone();
    copy.children[0].children[0].size = 1;
    assert_eq!(root.children[0].children[0].size, 8_000_000_000);
    assert_eq!(names(&copy), names(&root));
    assert_eq!(copy.children[1].children[1].path, "root/photos/b.jpg");
}

#[test]
fn recompute_is_idempotent_with_a_file_holding_children() {
    // a file node with unsorted children of its own, built by hand
    let mut odd = file("root/odd", 4);
    odd.children.push(file("root/odd/x", 1));
    odd.children.push(file("root/odd/y", 9));
    let mut root = dir("root", vec![file("root/a", 2)]);
    root.children.push(odd);
    root.recompute();
    assert_eq!(names(&root), vec!["odd", "a"]);
    assert_eq!(root.size, 6);
    root.recompute();
    assert_eq!(names(&root), vec!["odd", "a"]);
    assert_eq!(root.size, 6);
    assert_eq!(names(&root.children[0]), vec!["x", "y"]);
}

#[test]
fn larger_first_orders_by_size() {
    assert_eq!(larger_first(&file("a", 5), &file("b", 3)), Ordering::Less);
    assert_eq!(larger_first(&file("a", 3), &file("b", 3)), Ordering::Equal);
    assert_eq!(larger_first(&file("a", 1), &file("b", 3)), Ordering::Greater);
}
