//! The end-to-end scenarios: raw records flow through the watcher facade
//! into the coalescer, and the final delivered sequence is checked.

use fswatcher::{
    FileEventDelay, FileSystemEvent, FileSystemWatcher, RawAction, RawRecord, StopReason,
};

struct Pipeline {
    watcher: FileSystemWatcher,
    coalescer: FileEventDelay,
    next_handle: u64,
}

impl Pipeline {
    fn start(root: &[u8]) -> Pipeline {
        let mut p = Pipeline {
            watcher: FileSystemWatcher::new(root.to_vec()),
            coalescer: FileEventDelay::new(100),
            next_handle: 1,
        };
        p.settle();
        p
    }

    /// Drains (nothing buffered in these scenarios), releases, and installs
    /// every pending watch, feeding the yielded events to the coalescer.
    fn settle(&mut self) {
        loop {
            self.watcher.on_would_block();
            match self.watcher.begin_install() {
                None => break,
                Some(path) => {
                    let h = self.next_handle;
                    self.next_handle += 1;
                    if let Some(ev) = self.watcher.watch_installed(path, h, vec![]) {
                        self.coalescer.accept(ev);
                    }
                }
            }
        }
    }

    fn feed(&mut self, handle: u64, name: &[u8], action: RawAction, is_dir: bool) {
        let rec = RawRecord {
            handle,
            name: Some(name.to_vec()),
            action,
            is_dir,
        };
        if let Some(ev) = self.watcher.on_record(&rec) {
            self.coalescer.accept(ev);
        }
        self.settle();
    }

    fn feed_self_deleted(&mut self, handle: u64) {
        let rec = RawRecord {
            handle,
            name: None,
            action: RawAction::DeleteSelf,
            is_dir: true,
        };
        if let Some(ev) = self.watcher.on_record(&rec) {
            self.coalescer.accept(ev);
        }
    }

    fn delivered(&mut self) -> Vec<FileSystemEvent> {
        self.coalescer.tick();
        self.coalescer.tick();
        let mut out = Vec::new();
        while let Some(e) = self.coalescer.next_event() {
            out.push(e);
        }
        out
    }
}

#[test]
fn scenario_create_file_under_root() {
    let mut p = Pipeline::start(b"/r");
    p.delivered(); // the root's own DirectoryWatched
    p.feed(1, b"a.txt", RawAction::Create, false);
    assert_eq!(
        p.delivered(),
        vec![FileSystemEvent::FileCreated(b"/r/a.txt".to_vec())]
    );
}

#[test]
fn scenario_create_directory_under_root() {
    let mut p = Pipeline::start(b"/r");
    p.delivered();
    p.feed(1, b"sub", RawAction::Create, true);
    assert_eq!(
        p.delivered(),
        vec![
            FileSystemEvent::DirectoryCreated(b"/r/sub".to_vec()),
            FileSystemEvent::DirectoryWatched(b"/r/sub".to_vec()),
        ]
    );
}

#[test]
fn scenario_ephemeral_file_delivers_nothing() {
    let mut p = Pipeline::start(b"/r");
    p.delivered();
    p.feed(1, b"tmp", RawAction::Create, false);
    p.feed(1, b"tmp", RawAction::Delete, false);
    assert_eq!(p.delivered(), vec![]);
}

#[test]
fn scenario_rename_delivers_one_moved_event() {
    let mut p = Pipeline::start(b"/r");
    p.delivered();
    p.feed(1, b"a.txt", RawAction::MovedFrom, false);
    p.feed(1, b"b.txt", RawAction::MovedTo, false);
    assert_eq!(
        p.delivered(),
        vec![FileSystemEvent::Moved(
            b"/r/a.txt".to_vec(),
            b"/r/b.txt".to_vec(),
            false
        )]
    );
}

#[test]
fn scenario_root_removal_stops_everything() {
    let mut p = Pipeline::start(b"/r");
    p.delivered();
    p.feed_self_deleted(1);
    assert_eq!(
        p.delivered(),
        vec![FileSystemEvent::Stopped(StopReason::DirectoryRemoved)]
    );
    // Nothing is ever delivered afterwards, whatever arrives.
    p.feed_self_deleted(1);
    let rec = RawRecord {
        handle: 1,
        name: Some(b"x".to_vec()),
        action: RawAction::Create,
        is_dir: false,
    };
    assert_eq!(p.watcher.on_record(&rec), None);
    assert_eq!(p.delivered(), vec![]);
}
