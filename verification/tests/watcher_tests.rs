use fswatcher::{FileSystemEvent, FileSystemWatcher, RawAction, RawRecord, StopReason};

fn record(handle: u64, name: Option<&[u8]>, action: RawAction, is_dir: bool) -> RawRecord {
    RawRecord {
        handle,
        name: name.map(|n| n.to_vec()),
        action,
        is_dir,
    }
}

/// Drives the drain → release → install steps until the pending queue is
/// empty, returning the released handles and the events yielded. Handles
/// are assigned from `next_handle` upward, and every path is given an empty
/// directory listing.
fn settle(w: &mut FileSystemWatcher, next_handle: &mut u64) -> (Vec<u64>, Vec<FileSystemEvent>) {
    let mut released = Vec::new();
    let mut events = Vec::new();
    loop {
        released.extend(w.on_would_block());
        match w.begin_install() {
            None => break,
            Some(path) => {
                let h = *next_handle;
                *next_handle += 1;
                if let Some(ev) = w.watch_installed(path, h, vec![]) {
                    events.push(ev);
                }
            }
        }
    }
    (released, events)
}

#[test]
fn watch_root_then_file_created() {
    let mut w = FileSystemWatcher::new(b"/r".to_vec());
    let released = w.on_would_block();
    assert!(released.is_empty());
    let path = w.begin_install().expect("root must be pending");
    assert_eq!(path, b"/r".to_vec());
    let ev = w.watch_installed(path, 1, vec![]);
    assert_eq!(ev, Some(FileSystemEvent::DirectoryWatched(b"/r".to_vec())));

    let ev = w.on_record(&record(1, Some(b"a.txt"), RawAction::Create, false));
    assert_eq!(ev, Some(FileSystemEvent::FileCreated(b"/r/a.txt".to_vec())));
}

#[test]
fn directory_created_then_watched() {
    let mut w = FileSystemWatcher::new(b"/r".to_vec());
    let mut h = 1u64;
    let (_, events) = settle(&mut w, &mut h);
    assert_eq!(
        events,
        vec![FileSystemEvent::DirectoryWatched(b"/r".to_vec())]
    );

    let ev = w.on_record(&record(1, Some(b"sub"), RawAction::Create, true));
    assert_eq!(
        ev,
        Some(FileSystemEvent::DirectoryCreated(b"/r/sub".to_vec()))
    );
    let (_, events) = settle(&mut w, &mut h);
    assert_eq!(
        events,
        vec![FileSystemEvent::DirectoryWatched(b"/r/sub".to_vec())]
    );
}

#[test]
fn moved_in_directory_is_watched_and_moved_out_retires() {
    let mut w = FileSystemWatcher::new(b"/r".to_vec());
    let mut h = 1u64;
    settle(&mut w, &mut h);

    let ev = w.on_record(&record(1, Some(b"d"), RawAction::MovedTo, true));
    assert_eq!(ev, Some(FileSystemEvent::DirectoryCreated(b"/r/d".to_vec())));
    settle(&mut w, &mut h);

    let ev = w.on_record(&record(1, Some(b"d"), RawAction::MovedFrom, true));
    assert_eq!(ev, Some(FileSystemEvent::DirectoryRemoved(b"/r/d".to_vec())));
    let (released, _) = settle(&mut w, &mut h);
    assert_eq!(released, vec![2]);
}

#[test]
fn file_actions_translate_per_rule() {
    let mut w = FileSystemWatcher::new(b"/r".to_vec());
    let mut h = 1u64;
    settle(&mut w, &mut h);

    let cases = [
        (RawAction::Create, Some(FileSystemEvent::FileCreated(b"/r/f".to_vec()))),
        (RawAction::Modify, Some(FileSystemEvent::FileModified(b"/r/f".to_vec()))),
        (RawAction::Attrib, Some(FileSystemEvent::FileModified(b"/r/f".to_vec()))),
        (RawAction::Delete, Some(FileSystemEvent::FileRemoved(b"/r/f".to_vec()))),
        (RawAction::MovedFrom, Some(FileSystemEvent::FileRemoved(b"/r/f".to_vec()))),
        (RawAction::MovedTo, Some(FileSystemEvent::FileCreated(b"/r/f".to_vec()))),
        (RawAction::Other, None),
    ];
    for (action, expected) in cases {
        let ev = w.on_record(&record(1, Some(b"f"), action, false));
        assert_eq!(ev, expected);
    }
    // A record without a child name translates to nothing for these actions.
    assert_eq!(w.on_record(&record(1, None, RawAction::Create, false)), None);
    // A modification reported for a directory is dropped.
    assert_eq!(w.on_record(&record(1, Some(b"f"), RawAction::Modify, true)), None);
}

#[test]
fn unknown_handle_is_dropped() {
    let mut w = FileSystemWatcher::new(b"/r".to_vec());
    let mut h = 1u64;
    settle(&mut w, &mut h);
    assert_eq!(
        w.on_record(&record(99, Some(b"x"), RawAction::Create, false)),
        None
    );
}

#[test]
fn subtree_removal_releases_descendants_only() {
    let mut w = FileSystemWatcher::new(b"/r".to_vec());
    let mut h = 1u64;
    settle(&mut w, &mut h); // /r -> 1
    w.on_record(&record(1, Some(b"a"), RawAction::Create, true));
    settle(&mut w, &mut h); // /r/a -> 2
    w.on_record(&record(2, Some(b"b"), RawAction::Create, true));
    settle(&mut w, &mut h); // /r/a/b -> 3
    w.on_record(&record(1, Some(b"ax"), RawAction::Create, true));
    settle(&mut w, &mut h); // /r/ax -> 4

    let ev = w.on_record(&record(1, Some(b"a"), RawAction::Delete, true));
    assert_eq!(ev, Some(FileSystemEvent::DirectoryRemoved(b"/r/a".to_vec())));

    // /r/a and /r/a/b are retired; /r/ax shares only a byte prefix and stays.
    let mut released = w.on_would_block();
    released.sort();
    assert_eq!(released, vec![2, 3]);
    assert_eq!(
        w.on_record(&record(4, Some(b"y"), RawAction::Create, false)),
        Some(FileSystemEvent::FileCreated(b"/r/ax/y".to_vec()))
    );
}

#[test]
fn stale_handle_yields_no_event_until_reuse() {
    let mut w = FileSystemWatcher::new(b"/r".to_vec());
    let mut h = 1u64;
    settle(&mut w, &mut h); // /r -> 1
    w.on_record(&record(1, Some(b"d"), RawAction::Create, true));
    settle(&mut w, &mut h); // /r/d -> 2

    // The directory goes away: handle 2 is logically released.
    w.on_record(&record(1, Some(b"d"), RawAction::Delete, true));

    // A record still buffered for the stale handle must be dropped, not
    // attributed to anything.
    assert_eq!(
        w.on_record(&record(2, Some(b"late.txt"), RawAction::Create, false)),
        None
    );

    // Drain reported empty: handle 2 is handed out for physical release.
    let released = w.on_would_block();
    assert_eq!(released, vec![2]);

    // The retirement confirmation purges the handle quietly.
    assert_eq!(w.on_record(&record(2, None, RawAction::Retired, false)), None);

    // The kernel may now reuse handle 2 for a fresh directory; records are
    // attributed to the new path only.
    w.on_record(&record(1, Some(b"e"), RawAction::Create, true));
    w.on_would_block();
    let path = w.begin_install().unwrap();
    assert_eq!(path, b"/r/e".to_vec());
    let ev = w.watch_installed(path, 2, vec![]);
    assert_eq!(ev, Some(FileSystemEvent::DirectoryWatched(b"/r/e".to_vec())));
    assert_eq!(
        w.on_record(&record(2, Some(b"n.txt"), RawAction::Create, false)),
        Some(FileSystemEvent::FileCreated(b"/r/e/n.txt".to_vec()))
    );
}

#[test]
fn root_removal_stops_the_stream_for_good() {
    let mut w = FileSystemWatcher::new(b"/r".to_vec());
    let mut h = 1u64;
    settle(&mut w, &mut h);

    let ev = w.on_record(&record(1, None, RawAction::DeleteSelf, true));
    assert_eq!(
        ev,
        Some(FileSystemEvent::Stopped(StopReason::DirectoryRemoved))
    );

    // No event is ever delivered afterwards.
    assert_eq!(
        w.on_record(&record(1, Some(b"x"), RawAction::Create, false)),
        None
    );
    assert_eq!(
        w.on_record(&record(7, Some(b"y"), RawAction::Create, true)),
        None
    );
}

#[test]
fn delete_self_below_root_is_dropped() {
    let mut w = FileSystemWatcher::new(b"/r".to_vec());
    let mut h = 1u64;
    settle(&mut w, &mut h);
    w.on_record(&record(1, Some(b"d"), RawAction::Create, true));
    settle(&mut w, &mut h); // /r/d -> 2
    w.on_record(&record(1, Some(b"d"), RawAction::Delete, true));
    // The self-deletion of /r/d arrives on its own (now stale) handle and
    // is dropped; the stream keeps going.
    assert_eq!(w.on_record(&record(2, None, RawAction::DeleteSelf, true)), None);
    assert_eq!(
        w.on_record(&record(1, Some(b"z"), RawAction::Create, false)),
        Some(FileSystemEvent::FileCreated(b"/r/z".to_vec()))
    );
}

#[test]
fn installation_lists_subdirectories_into_the_queue() {
    let mut w = FileSystemWatcher::new(b"/r".to_vec());
    w.on_would_block();
    let path = w.begin_install().unwrap();
    let ev = w.watch_installed(path, 1, vec![b"/r/one".to_vec(), b"/r/two".to_vec()]);
    assert_eq!(ev, Some(FileSystemEvent::DirectoryWatched(b"/r".to_vec())));
    w.on_would_block();
    assert_eq!(w.begin_install(), Some(b"/r/one".to_vec()));
    let ev = w.watch_installed(b"/r/one".to_vec(), 2, vec![]);
    assert_eq!(ev, Some(FileSystemEvent::DirectoryWatched(b"/r/one".to_vec())));
    assert_eq!(w.begin_install(), Some(b"/r/two".to_vec()));
    // A stale installation — the handle is already taken — changes nothing.
    assert_eq!(w.watch_installed(b"/r/two".to_vec(), 2, vec![]), None);
    let ev = w.watch_installed(b"/r/two".to_vec(), 3, vec![]);
    assert_eq!(ev, Some(FileSystemEvent::DirectoryWatched(b"/r/two".to_vec())));
}

#[test]
fn releases_and_installations_happen_only_with_the_backlog_drained() {
    let mut w = FileSystemWatcher::new(b"/r".to_vec());
    assert!(!w.drained);
    w.on_would_block();
    assert!(w.drained);
    let path = w.begin_install().unwrap();
    // Popping alone buffers nothing: the drained mark stays.
    assert!(w.drained);
    w.watch_installed(path, 1, vec![]);
    // A fresh watch may buffer records for children created in the window:
    // the next release or installation needs a fresh drain first.
    assert!(!w.drained);
    w.on_would_block();
    assert!(w.drained);
    w.on_record(&record(1, Some(b"x"), RawAction::Create, false));
    assert!(!w.drained);
}
