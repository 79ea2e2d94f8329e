use disk_analyzer::model::Node;
use disk_analyzer::scanner::{dir_from_listing, entry_step, EntryMeta, EntryStep};

#[test]
fn entry_steps_skip_symlinks_and_count_unreadable_entries() {
    assert_eq!(entry_step(EntryMeta::Unreadable), EntryStep::Error);
    assert_eq!(entry_step(EntryMeta::Symlink), EntryStep::Skip);
    assert_eq!(entry_step(EntryMeta::Dir), EntryStep::Descend);
    assert_eq!(entry_step(EntryMeta::File(11)), EntryStep::Leaf(11));
    assert!(EntryStep::Error.counts_as_error());
    assert!(!EntryStep::Skip.counts_as_error());
    assert!(!EntryStep::Leaf(3).counts_as_error());
}

#[test]
fn a_failed_listing_counts_one_error_and_gives_an_empty_dir() {
    let (node, errors) = dir_from_listing("top/locked".to_string(), None);
    assert_eq!(errors, 1);
    assert!(node.is_dir);
    assert_eq!(node.name, "locked");
    assert_eq!(node.size, 0);
    assert!(node.children.is_empty());
}

#[test]
fn a_listing_gives_a_dir_of_its_children() {
    let kids = vec![
        Node::new_file("top/a.txt".to_string(), 5),
        Node::new_dir("top/sub".to_string(), vec![Node::new_file("top/sub/b.txt".to_string(), 6)]),
    ];
    let (node, errors) = dir_from_listing("top".to_string(), Some(kids));
    assert_eq!(errors, 0);
    assert_eq!(node.size, 11);
    assert_eq!(node.children.len(), 2);
    assert_eq!(node.children[0].name, "sub");
    assert_eq!(node.children[0].size, 6);
}
