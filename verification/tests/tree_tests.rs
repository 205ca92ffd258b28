use fswatcher::tree::WatchTree;

#[test]
fn new_tree_queues_the_root() {
    let mut t = WatchTree::new(b"/r".to_vec());
    assert!(!t.contains_path(&b"/r".to_vec()));
    assert!(t.pending_contains(&b"/r".to_vec()));
    assert_eq!(t.pop_pending(), Some(b"/r".to_vec()));
    assert_eq!(t.pop_pending(), None);
}

#[test]
fn pending_queue_is_first_in_first_out_and_duplicate_free() {
    let mut t = WatchTree::new(b"/r".to_vec());
    t.pop_pending();
    t.enqueue_pending(b"/r/a".to_vec());
    t.enqueue_pending(b"/r/b".to_vec());
    t.enqueue_pending(b"/r/a".to_vec()); // already queued: dropped
    assert_eq!(t.pop_pending(), Some(b"/r/a".to_vec()));
    assert_eq!(t.pop_pending(), Some(b"/r/b".to_vec()));
    assert_eq!(t.pop_pending(), None);
}

#[test]
fn an_installed_path_is_not_requeued() {
    let mut t = WatchTree::new(b"/r".to_vec());
    t.pop_pending();
    t.install_active(b"/r".to_vec(), 1);
    assert!(t.contains_path(&b"/r".to_vec()));
    assert!(t.contains_handle(1));
    t.enqueue_pending(b"/r".to_vec()); // already watched: dropped
    assert_eq!(t.pop_pending(), None);
}

#[test]
fn handles_map_back_to_their_paths() {
    let mut t = WatchTree::new(b"/r".to_vec());
    t.pop_pending();
    t.install_active(b"/r".to_vec(), 1);
    t.install_active(b"/r/a".to_vec(), 2);
    assert_eq!(t.path_of_handle(1), Some(b"/r".to_vec()));
    assert_eq!(t.path_of_handle(2), Some(b"/r/a".to_vec()));
    assert_eq!(t.path_of_handle(3), None);
}

#[test]
fn subtree_removal_moves_handles_to_pending_release() {
    let mut t = WatchTree::new(b"/r".to_vec());
    t.pop_pending();
    t.install_active(b"/r".to_vec(), 1);
    t.install_active(b"/r/a".to_vec(), 2);
    t.install_active(b"/r/a/b".to_vec(), 3);
    t.install_active(b"/r/ax".to_vec(), 4);
    t.enqueue_pending(b"/r/a/c".to_vec());

    t.mark_subtree_removed(&b"/r/a".to_vec());

    assert!(!t.contains_path(&b"/r/a".to_vec()));
    assert!(!t.contains_path(&b"/r/a/b".to_vec()));
    assert!(t.contains_path(&b"/r/ax".to_vec()));
    // The queued descendant is gone too: it cannot be re-discovered.
    assert!(!t.pending_contains(&b"/r/a/c".to_vec()));
    assert!(t.released_contains(2));
    assert!(t.released_contains(3));
    assert!(!t.released_contains(4));

    let mut handed = t.take_released();
    handed.sort();
    assert_eq!(handed, vec![2, 3]);
    assert!(!t.released_contains(2));
}

#[test]
fn retirement_confirmation_purges_one_handle() {
    let mut t = WatchTree::new(b"/r".to_vec());
    t.pop_pending();
    t.install_active(b"/r".to_vec(), 1);
    t.install_active(b"/r/a".to_vec(), 2);
    t.mark_subtree_removed(&b"/r/a".to_vec());
    assert!(t.released_contains(2));
    t.confirm_retired(2);
    assert!(!t.released_contains(2));
}
