use vstd::prelude::*;

use crate::events::{EventView, FileSystemEvent, RawAction, RawRecord, RecordView, StopReason,
    opt_view};
use crate::paths::{bytes_eq, child_path, copy_bytes, is_descendant, join_child};
use crate::tree::{lemma_mark_removed_wf, TreeView, WatchTree};

verus! {

/// The path a record denotes: the watched directory itself, or the named
/// child inside it.
pub open spec fn record_path(dir: Seq<u8>, name: Option<Seq<u8>>) -> Seq<u8> {
    match name {
        Some(n) => child_path(dir, n),
        None => dir,
    }
}

/// The translator: the tree after one raw record, and the event the record
/// yields, if any.
///
/// A record bearing a handle in the pending-release set yields nothing —
/// it belongs to a watch already logically removed; only the retirement
/// confirmation for such a handle touches the tree, purging the handle. A
/// record bearing an unknown handle is dropped. Otherwise the record is
/// attributed to the directory its handle currently maps to, and translated:
/// child creations and arrivals become `FileCreated`/`DirectoryCreated` (a
/// new directory is also queued for watching), modifications and attribute
/// changes become `FileModified`, child deletions and departures become
/// `FileRemoved`/`DirectoryRemoved` (a removed directory also retires its
/// whole subtree), and deletion of the watch root itself stops the stream.
/// Everything else is dropped.
pub open spec fn spec_translate(t: TreeView, rec: RecordView) -> (TreeView, Option<EventView>) {
    if t.released.contains(rec.handle) {
        if rec.action == RawAction::Retired {
            (t.confirm(rec.handle), None)
        } else {
            (t, None)
        }
    } else if !t.active_has_handle(rec.handle) {
        (t, None)
    } else {
        let dir = t.path_of(rec.handle);
        match rec.action {
            RawAction::Create => match rec.name {
                Some(n) => if rec.is_dir {
                    (t.enqueue_one(child_path(dir, n)), Some(
                        EventView::DirectoryCreated(child_path(dir, n)),
                    ))
                } else {
                    (t, Some(EventView::FileCreated(child_path(dir, n))))
                },
                None => (t, None),
            },
            RawAction::Modify => match rec.name {
                Some(n) => if rec.is_dir {
                    (t, None)
                } else {
                    (t, Some(EventView::FileModified(child_path(dir, n))))
                },
                None => (t, None),
            },
            RawAction::Attrib => match rec.name {
                Some(n) => if rec.is_dir {
                    (t, None)
                } else {
                    (t, Some(EventView::FileModified(child_path(dir, n))))
                },
                None => (t, None),
            },
            RawAction::Delete => match rec.name {
                Some(n) => if rec.is_dir {
                    (t.mark_removed(child_path(dir, n)), Some(
                        EventView::DirectoryRemoved(child_path(dir, n)),
                    ))
                } else {
                    (t, Some(EventView::FileRemoved(child_path(dir, n))))
                },
                None => (t, None),
            },
            RawAction::MovedFrom => match rec.name {
                Some(n) => if rec.is_dir {
                    (t.mark_removed(child_path(dir, n)), Some(
                        EventView::DirectoryRemoved(child_path(dir, n)),
                    ))
                } else {
                    (t, Some(EventView::FileRemoved(child_path(dir, n))))
                },
                None => (t, None),
            },
            RawAction::MovedTo => match rec.name {
                Some(n) => if rec.is_dir {
                    (t.enqueue_one(child_path(dir, n)), Some(
                        EventView::DirectoryCreated(child_path(dir, n)),
                    ))
                } else {
                    (t, Some(EventView::FileCreated(child_path(dir, n))))
                },
                None => (t, None),
            },
            RawAction::DeleteSelf => {
                if record_path(dir, rec.name) == t.root {
                    (t.mark_removed(record_path(dir, rec.name)), Some(
                        EventView::Stopped(StopReason::DirectoryRemoved),
                    ))
                } else {
                    (t, None)
                }
            },
            RawAction::Retired => (t, None),
            RawAction::Other => (t, None),
        }
    }
}

/// Law: once a subtree has been marked removed, its handles sit in the
/// pending-release set, and a record bearing such a handle yields no event
/// and leaves the active mapping and the queue unchanged — so no event for
/// the removed paths can ever be produced from the stale handle, even after
/// the kernel reuses its value for a fresh watch (the fresh watch is a new
/// entry of the active mapping, and records are attributed only through
/// that mapping).
pub proof fn lemma_no_stale_attribution(t: TreeView, rec: RecordView)
    requires
        t.released.contains(rec.handle),
    ensures
        spec_translate(t, rec).1 is None,
        spec_translate(t, rec).0.active == t.active,
        spec_translate(t, rec).0.pending == t.pending,
{
}

/// Law: once a subtree has been marked removed, a record bearing the handle
/// of any watch that sat at or below it yields no event at all — the handle
/// is in the pending-release set, where the translator drops everything but
/// the retirement confirmation.
pub proof fn lemma_removed_subtree_yields_nothing(
    t: TreeView,
    p: Seq<u8>,
    rec: RecordView,
    i: int,
)
    requires
        t.wf(),
        0 <= i < t.active.len(),
        is_descendant(t.active[i].0, p),
        rec.handle == t.active[i].1,
    ensures
        spec_translate(t.mark_removed(p), rec).1 is None,
{
    lemma_mark_removed_wf(t, p);
    assert(t.mark_removed(p).released.contains(rec.handle));
    lemma_no_stale_attribution(t.mark_removed(p), rec);
}

impl WatchTree {
    /// Translates one raw record into at most one event, updating the tree.
    pub fn translate_record(&mut self, rec: &RawRecord) -> (r: Option<FileSystemEvent>)
        requires
            old(self)@.wf(),
        ensures
            final(self)@ == spec_translate(old(self)@, rec@).0,
            opt_view(r) == spec_translate(old(self)@, rec@).1,
            final(self)@.wf(),
    {
        let ghost t0 = self@;
        if self.released_contains(rec.handle) {
            if rec.action == RawAction::Retired {
                self.confirm_retired(rec.handle);
            }
            return None;
        }
        let dir = match self.path_of_handle(rec.handle) {
            None => {
                return None;
            },
            Some(d) => d,
        };
        match rec.action {
            RawAction::Create | RawAction::MovedTo => match &rec.name {
                Some(n) => {
                    let path = join_child(&dir, n);
                    if rec.is_dir {
                        let queued = copy_bytes(&path);
                        self.enqueue_pending(queued);
                        Some(FileSystemEvent::DirectoryCreated(path))
                    } else {
                        Some(FileSystemEvent::FileCreated(path))
                    }
                },
                None => None,
            },
            RawAction::Modify | RawAction::Attrib => match &rec.name {
                Some(n) => {
                    if rec.is_dir {
                        None
                    } else {
                        Some(FileSystemEvent::FileModified(join_child(&dir, n)))
                    }
                },
                None => None,
            },
            RawAction::Delete | RawAction::MovedFrom => match &rec.name {
                Some(n) => {
                    let path = join_child(&dir, n);
                    if rec.is_dir {
                        self.mark_subtree_removed(&path);
                        Some(FileSystemEvent::DirectoryRemoved(path))
                    } else {
                        Some(FileSystemEvent::FileRemoved(path))
                    }
                },
                None => None,
            },
            RawAction::DeleteSelf => {
                let path = match &rec.name {
                    Some(n) => join_child(&dir, n),
                    None => dir,
                };
                if bytes_eq(&path, &self.root) {
                    self.mark_subtree_removed(&path);
                    Some(FileSystemEvent::Stopped(StopReason::DirectoryRemoved))
                } else {
                    None
                }
            },
            RawAction::Retired => None,
            RawAction::Other => None,
        }
    }
}

} // verus!
