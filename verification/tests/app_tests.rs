use disk_analyzer::app::{remove_from, App, DiskSpace, Mode};
use disk_analyzer::model::Node;
use disk_analyzer::scanner::ScanResult;

fn file(path: &str, size: u64) -> Node {
    Node::new_file(path.to_string(), size)
}

fn dir(path: &str, children: Vec<Node>) -> Node {
    Node::new_dir(path.to_string(), children)
}

fn sample_tree() -> Node {
    dir(
        "root",
        vec![
            dir(
                "root/big_folder",
                vec![file("root/big_folder/video.mp4", 8_000_000_000), file("root/big_folder/notes.txt", 200)],
            ),
            dir(
                "root/photos",
                vec![file("root/photos/a.jpg", 3_000_000_000), file("root/photos/b.jpg", 2_500_000_000)],
            ),
            file("root/readme.md", 1_200),
        ],
    )
}

fn app() -> App {
    App::new(sample_tree(), DiskSpace { total: 100, available: 40 })
}

#[test]
fn disk_space_used_is_total_minus_available() {
    assert_eq!(DiskSpace { total: 100, available: 40 }.used(), 60);
    assert_eq!(DiskSpace { total: 10, available: 40 }.used(), 0);
    assert_eq!(DiskSpace::default().used(), 0);
}

#[test]
fn new_app_browses_from_the_root() {
    let a = app();
    assert!(matches!(a.mode, Mode::Browsing));
    assert!(a.zoom_path.is_empty());
    assert!(a.selection.is_empty());
    assert_eq!(a.scan_errors, 0);
    assert_eq!(a.progress.scanned_entries, 0);
    assert!(a.status.is_none());
    assert_eq!(a.disk_space, DiskSpace { total: 100, available: 40 });
    assert_eq!(a.breadcrumb(), "root");
    assert_eq!(a.zoom_root_path(), "root");
    assert!(a.selected_node().is_none());
    assert!(a.selected_path().is_none());
}

#[test]
fn select_first_then_move_wraps_around() {
    let mut a = app();
    a.select_first_if_none();
    assert_eq!(a.selection, vec![0]);
    assert_eq!(a.selected_path().unwrap(), "root/big_folder");
    a.move_sibling(1);
    assert_eq!(a.selection, vec![1]);
    a.move_sibling(1);
    assert_eq!(a.selection, vec![2]);
    a.move_sibling(1);
    assert_eq!(a.selection, vec![0]);
    a.move_sibling(-1);
    assert_eq!(a.selection, vec![2]);
    assert_eq!(a.selected_node().unwrap().name, "readme.md");
}

#[test]
fn move_sibling_selects_first_when_nothing_is_selected() {
    let mut a = app();
    a.move_sibling(1);
    assert_eq!(a.selection, vec![1]);
}

#[test]
fn move_sibling_in_an_empty_folder_does_nothing() {
    let mut a = App::new(dir("empty", Vec::new()), DiskSpace::default());
    a.move_sibling(1);
    assert!(a.selection.is_empty());
}

#[test]
fn move_down_then_up_returns() {
    let mut a = app();
    a.select_first_if_none();
    a.move_sibling(1);
    let before = a.selection.clone();
    a.move_sibling(1);
    a.move_sibling(-1);
    assert_eq!(a.selection, before);
}

#[test]
fn move_sibling_fits_rejects_an_overflowing_move() {
    let mut a = app();
    assert!(a.move_sibling_fits(1));
    a.selection = vec![i32::MAX as usize];
    assert!(!a.move_sibling_fits(1));
    assert!(a.move_sibling_fits(-1));
}

#[test]
fn zoom_in_and_out() {
    let mut a = app();
    a.select_first_if_none();
    a.zoom_in();
    assert_eq!(a.zoom_path, vec![0]);
    assert!(a.selection.is_empty());
    assert_eq!(a.breadcrumb(), "root/big_folder");
    assert_eq!(a.zoom_root().size, 8_000_000_200);
    a.select_first_if_none();
    assert_eq!(a.selected_path().unwrap(), "root/big_folder/video.mp4");
    a.zoom_out();
    assert!(a.zoom_path.is_empty());
    assert!(a.selection.is_empty());
    assert_eq!(a.breadcrumb(), "root");
    a.zoom_out();
    assert!(a.zoom_path.is_empty());
}

#[test]
fn zoom_in_on_a_file_does_nothing() {
    let mut a = app();
    a.selection = vec![2];
    a.zoom_in();
    assert!(a.zoom_path.is_empty());
    assert_eq!(a.selection, vec![2]);
}

#[test]
fn zoom_root_stops_at_an_index_with_no_child() {
    let mut a = app();
    a.zoom_path = vec![1, 7];
    assert_eq!(a.breadcrumb(), "root/photos");
    a.selection = vec![9];
    assert!(a.selected_node().is_none());
}

#[test]
fn remove_path_updates_sizes_and_clamps_selection() {
    let mut a = app();
    a.selection = vec![2];
    assert_eq!(a.selected_path().unwrap(), "root/readme.md");
    a.remove_path(&"root/readme.md".to_string());
    assert_eq!(a.root.children.len(), 2);
    assert_eq!(a.root.size, 8_000_000_200 + 5_500_000_000);
    assert_eq!(a.selection, vec![1]);
    assert_eq!(a.selected_path().unwrap(), "root/photos");
}

#[test]
fn remove_path_of_a_nested_entry_resorts() {
    let mut a = app();
    a.remove_path(&"root/big_folder/video.mp4".to_string());
    assert_eq!(a.root.children[0].name, "photos");
    assert_eq!(a.root.children[1].name, "readme.md");
    assert_eq!(a.root.children[2].name, "big_folder");
    assert_eq!(a.root.children[2].size, 200);
    assert_eq!(a.root.size, 200 + 5_500_000_000 + 1_200);
}

#[test]
fn remove_path_drops_a_zoom_path_that_no_longer_resolves() {
    let mut a = app();
    a.selection = vec![1];
    a.zoom_in();
    assert_eq!(a.zoom_path, vec![1]);
    a.selection = vec![1];
    // the zoom root goes away: index 1 now names a file, which still resolves
    a.remove_path(&"root/photos".to_string());
    assert_eq!(a.zoom_path, vec![1]);
    assert!(a.selection.is_empty());
    assert_eq!(a.breadcrumb(), "root/readme.md");
    // an index with no child left is dropped
    a.zoom_path = vec![2, 0];
    a.selection = vec![5];
    a.remove_path(&"root/readme.md".to_string());
    assert!(a.zoom_path.is_empty());
    assert_eq!(a.selection, vec![0]);
    assert_eq!(a.breadcrumb(), "root");
}

#[test]
fn remove_path_of_unknown_path_changes_nothing() {
    let mut a = app();
    a.selection = vec![1];
    a.remove_path(&"elsewhere".to_string());
    assert_eq!(a.root.children.len(), 3);
    assert_eq!(a.selection, vec![1]);
}

#[test]
fn remove_from_reports_whether_it_removed() {
    let mut root = sample_tree();
    assert!(remove_from(&mut root, &"root/photos/a.jpg".to_string()));
    assert_eq!(root.children[1].children.len(), 1);
    assert!(!remove_from(&mut root, &"root/photos/a.jpg".to_string()));
    assert!(!remove_from(&mut root, &"root".to_string()));
}

#[test]
fn refresh_path_replaces_the_subtree() {
    let mut a = app();
    a.selection = vec![1];
    let fresh = dir("root/photos", vec![file("root/photos/c.jpg", 9_000_000_000)]);
    a.refresh_path(&"root/photos".to_string(), fresh);
    assert_eq!(a.root.children[0].name, "photos");
    assert_eq!(a.root.children[0].size, 9_000_000_000);
    assert_eq!(a.root.size, 9_000_000_000 + 8_000_000_200 + 1_200);
    assert_eq!(a.selection, vec![1]);
    assert_eq!(a.selected_path().unwrap(), "root/big_folder");
}

#[test]
fn refresh_disk_space_only_sets_disk_space() {
    let mut a = app();
    a.refresh_disk_space(DiskSpace { total: 5, available: 1 });
    assert_eq!(a.disk_space.used(), 4);
    assert_eq!(a.root.children.len(), 3);
}

#[test]
fn navigation_keeps_resolving_through_a_session() {
    let mut a = app();
    let resolves = |a: &App| a.selection.is_empty() || a.selected_node().is_some();
    a.move_sibling(-1);
    assert!(resolves(&a));
    a.zoom_in();
    assert!(resolves(&a));
    a.move_sibling(1);
    a.move_sibling(1);
    assert!(resolves(&a));
    a.selection = vec![0];
    a.zoom_out();
    a.move_sibling(1);
    a.zoom_in();
    assert_eq!(a.breadcrumb(), "root/photos");
    a.move_sibling(5);
    assert!(resolves(&a));
    a.remove_path(&"root/photos/b.jpg".to_string());
    assert!(resolves(&a));
    a.zoom_out();
    assert!(resolves(&a));
    assert_eq!(a.breadcrumb(), "root");
}

#[test]
fn from_scan_keeps_the_error_count() {
    let a = App::from_scan(ScanResult { root: sample_tree(), errors: 3 }, DiskSpace { total: 9, available: 2 });
    assert_eq!(a.scan_errors, 3);
    assert!(matches!(a.mode, Mode::Browsing));
    assert_eq!(a.root.children.len(), 3);
    assert_eq!(a.disk_space.used(), 7);
}

#[test]
fn scan_lost_shows_the_error_screen() {
    let mut a = app();
    a.scan_lost();
    match &a.mode {
        Mode::Error(m) => assert_eq!(m, "Scan thread crashed"),
        _ => panic!("expected the error screen"),
    }
}

#[test]
fn move_there_and_back_by_two() {
    let mut a = app();
    a.selection = vec![2];
    a.move_sibling(2);
    assert_eq!(a.selection, vec![1]);
    a.move_sibling(-2);
    assert_eq!(a.selection, vec![2]);
}

#[test]
fn deleting_a_unique_entry_removes_it_and_its_size() {
    let mut a = app();
    let before = a.root.size;
    a.remove_path(&"root/photos".to_string());
    assert_eq!(a.root.size, before - 5_500_000_000);
    assert!(a.root.find_mut(&"root/photos".to_string()).is_none());
    assert!(a.root.find_mut(&"root/photos/a.jpg".to_string()).is_none());
}

#[test]
fn after_delete_reports_and_updates() {
    let mut a = app();
    let p = "root/readme.md".to_string();
    assert!(a.remove_path_fits(&p));
    a.after_delete(&p, DiskSpace { total: 10, available: 8 });
    assert_eq!(a.status.as_deref(), Some("Deleted root/readme.md"));
    assert_eq!(a.root.children.len(), 2);
    assert_eq!(a.disk_space.used(), 2);
}

#[test]
fn after_refresh_reports_and_updates() {
    let mut a = app();
    let p = "root/photos".to_string();
    let fresh = dir("root/photos", vec![file("root/photos/c.jpg", 7)]);
    assert!(a.refresh_path_fits(&p, &fresh));
    a.after_refresh(&p, fresh, DiskSpace::default());
    assert_eq!(a.status.as_deref(), Some("Refreshed root/photos"));
    assert_eq!(a.root.children[2].name, "photos");
    assert_eq!(a.root.children[2].size, 7);
}

#[test]
fn refresh_path_fits_detects_overflow() {
    let a = app();
    let huge = file("root/photos", u64::MAX);
    assert!(!a.refresh_path_fits(&"root/photos".to_string(), &huge));
    assert!(a.refresh_path_fits(&"elsewhere".to_string(), &huge));
}
