use fswatcher::{FileEventDelay, FileSystemEvent};

fn drain(c: &mut FileEventDelay) -> Vec<FileSystemEvent> {
    let mut out = Vec::new();
    while let Some(e) = c.next_event() {
        out.push(e);
    }
    out
}

#[test]
fn ephemeral_file_is_hidden() {
    let mut c = FileEventDelay::new(100);
    c.accept(FileSystemEvent::FileCreated(b"/r/tmp".to_vec()));
    c.accept(FileSystemEvent::FileRemoved(b"/r/tmp".to_vec()));
    c.tick();
    c.tick();
    assert_eq!(c.next_event(), None);
    assert!(!c.timer_running);
}

#[test]
fn remove_then_recreate_of_one_path_cancels() {
    let mut c = FileEventDelay::new(100);
    c.accept(FileSystemEvent::FileRemoved(b"/r/p".to_vec()));
    c.accept(FileSystemEvent::FileCreated(b"/r/p".to_vec()));
    c.tick();
    c.tick();
    assert_eq!(c.next_event(), None);
}

#[test]
fn rename_recombines_into_one_moved_event() {
    let mut c = FileEventDelay::new(100);
    c.accept(FileSystemEvent::FileRemoved(b"/r/a.txt".to_vec()));
    c.accept(FileSystemEvent::FileCreated(b"/r/b.txt".to_vec()));
    c.tick();
    c.tick();
    assert_eq!(
        drain(&mut c),
        vec![FileSystemEvent::Moved(
            b"/r/a.txt".to_vec(),
            b"/r/b.txt".to_vec(),
            false
        )]
    );
}

#[test]
fn directory_rename_recombines_with_directory_kind() {
    let mut c = FileEventDelay::new(100);
    c.accept(FileSystemEvent::DirectoryRemoved(b"/r/old".to_vec()));
    c.accept(FileSystemEvent::DirectoryCreated(b"/r/new".to_vec()));
    c.tick();
    c.tick();
    assert_eq!(
        drain(&mut c),
        vec![FileSystemEvent::Moved(
            b"/r/old".to_vec(),
            b"/r/new".to_vec(),
            true
        )]
    );
}

#[test]
fn file_removal_does_not_pair_with_directory_creation() {
    let mut c = FileEventDelay::new(100);
    c.accept(FileSystemEvent::FileRemoved(b"/r/a".to_vec()));
    c.accept(FileSystemEvent::DirectoryCreated(b"/r/b".to_vec()));
    c.tick();
    c.tick();
    assert_eq!(
        drain(&mut c),
        vec![
            FileSystemEvent::FileRemoved(b"/r/a".to_vec()),
            FileSystemEvent::DirectoryCreated(b"/r/b".to_vec()),
        ]
    );
}

#[test]
fn repeated_modifications_collapse_to_one() {
    let mut c = FileEventDelay::new(100);
    c.accept(FileSystemEvent::FileModified(b"/r/f".to_vec()));
    c.accept(FileSystemEvent::FileModified(b"/r/f".to_vec()));
    c.accept(FileSystemEvent::FileModified(b"/r/f".to_vec()));
    c.tick();
    c.tick();
    assert_eq!(
        drain(&mut c),
        vec![FileSystemEvent::FileModified(b"/r/f".to_vec())]
    );
}

#[test]
fn an_intervening_event_blocks_cancellation() {
    let mut c = FileEventDelay::new(100);
    c.accept(FileSystemEvent::FileCreated(b"/r/p".to_vec()));
    c.accept(FileSystemEvent::FileModified(b"/r/p".to_vec()));
    c.accept(FileSystemEvent::FileRemoved(b"/r/p".to_vec()));
    c.tick();
    c.tick();
    assert_eq!(
        drain(&mut c),
        vec![
            FileSystemEvent::FileCreated(b"/r/p".to_vec()),
            FileSystemEvent::FileModified(b"/r/p".to_vec()),
            FileSystemEvent::FileRemoved(b"/r/p".to_vec()),
        ]
    );
}

#[test]
fn unrelated_paths_keep_their_order() {
    let mut c = FileEventDelay::new(100);
    c.accept(FileSystemEvent::FileCreated(b"/r/x".to_vec()));
    c.accept(FileSystemEvent::FileModified(b"/r/y".to_vec()));
    c.accept(FileSystemEvent::FileRemoved(b"/r/z".to_vec()));
    c.tick();
    c.tick();
    assert_eq!(
        drain(&mut c),
        vec![
            FileSystemEvent::FileCreated(b"/r/x".to_vec()),
            FileSystemEvent::FileModified(b"/r/y".to_vec()),
            FileSystemEvent::FileRemoved(b"/r/z".to_vec()),
        ]
    );
}

#[test]
fn delivery_needs_two_ticks() {
    let mut c = FileEventDelay::new(100);
    c.accept(FileSystemEvent::FileCreated(b"/r/x".to_vec()));
    assert!(c.timer_running);
    assert_eq!(c.next_event(), None);
    c.tick();
    // One period has passed: the event sits in the eligible window but is
    // not yet combined.
    assert_eq!(c.next_event(), None);
    c.tick();
    // Two periods: the event is eligible now.
    assert_eq!(
        c.next_event(),
        Some(FileSystemEvent::FileCreated(b"/r/x".to_vec()))
    );
    assert_eq!(c.next_event(), None);
    // Nothing left to combine: the timer stops.
    assert!(!c.timer_running);
}

#[test]
fn a_late_arrival_waits_for_its_own_window() {
    let mut c = FileEventDelay::new(100);
    c.accept(FileSystemEvent::FileCreated(b"/r/x".to_vec()));
    c.tick();
    c.accept(FileSystemEvent::FileCreated(b"/r/y".to_vec()));
    c.tick();
    assert_eq!(
        drain(&mut c),
        vec![FileSystemEvent::FileCreated(b"/r/x".to_vec())]
    );
    c.tick();
    assert_eq!(
        drain(&mut c),
        vec![FileSystemEvent::FileCreated(b"/r/y".to_vec())]
    );
}

#[test]
fn non_combinable_events_pass_through() {
    let mut c = FileEventDelay::new(100);
    c.accept(FileSystemEvent::DirectoryWatched(b"/r".to_vec()));
    c.accept(FileSystemEvent::Error(fswatcher::Error::Io(13)));
    c.tick();
    c.tick();
    assert_eq!(
        drain(&mut c),
        vec![
            FileSystemEvent::DirectoryWatched(b"/r".to_vec()),
            FileSystemEvent::Error(fswatcher::Error::Io(13)),
        ]
    );
}

#[test]
fn ephemeral_pair_hides_amid_unrelated_events() {
    let mut c = FileEventDelay::new(100);
    c.accept(FileSystemEvent::FileModified(b"/r/q".to_vec()));
    c.accept(FileSystemEvent::FileCreated(b"/r/p".to_vec()));
    c.accept(FileSystemEvent::FileRemoved(b"/r/p".to_vec()));
    c.accept(FileSystemEvent::FileCreated(b"/r/s".to_vec()));
    c.tick();
    c.tick();
    assert_eq!(
        drain(&mut c),
        vec![
            FileSystemEvent::FileModified(b"/r/q".to_vec()),
            FileSystemEvent::FileCreated(b"/r/s".to_vec()),
        ]
    );
}

#[test]
fn move_recombines_amid_unrelated_events() {
    let mut c = FileEventDelay::new(100);
    c.accept(FileSystemEvent::FileModified(b"/r/q".to_vec()));
    c.accept(FileSystemEvent::FileRemoved(b"/r/a".to_vec()));
    c.accept(FileSystemEvent::FileModified(b"/r/w".to_vec()));
    c.accept(FileSystemEvent::FileCreated(b"/r/b".to_vec()));
    c.tick();
    c.tick();
    assert_eq!(
        drain(&mut c),
        vec![
            FileSystemEvent::FileModified(b"/r/q".to_vec()),
            FileSystemEvent::Moved(b"/r/a".to_vec(), b"/r/b".to_vec(), false),
            FileSystemEvent::FileModified(b"/r/w".to_vec()),
        ]
    );
}

#[test]
fn an_earlier_detached_file_captures_the_creation() {
    // A removal still seeking its partner takes the next creation of its
    // kind as the move destination, even one that a later removal of the
    // same path would otherwise cancel against: combination decisions go
    // left to right.
    let mut c = FileEventDelay::new(100);
    c.accept(FileSystemEvent::FileRemoved(b"/r/x".to_vec()));
    c.accept(FileSystemEvent::FileCreated(b"/r/p".to_vec()));
    c.accept(FileSystemEvent::FileRemoved(b"/r/p".to_vec()));
    c.tick();
    c.tick();
    assert_eq!(
        drain(&mut c),
        vec![
            FileSystemEvent::Moved(b"/r/x".to_vec(), b"/r/p".to_vec(), false),
            FileSystemEvent::FileRemoved(b"/r/p".to_vec()),
        ]
    );
}
