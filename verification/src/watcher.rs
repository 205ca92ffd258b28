use vstd::prelude::*;

use crate::events::{EventView, FileSystemEvent, RawRecord, opt_view};
use crate::paths::{byte_views, copy_bytes};
use crate::translate::spec_translate;
use crate::tree::{TreeView, WatchTree};

verus! {

/// The watcher facade: the watch tree together with the bookkeeping that
/// enforces the per-iteration order of spec-critical operations —
///
///   1. drain every buffered raw record and translate it (`on_record`);
///   2. only once draining reports "would block", physically release the
///      pending-release handles (`on_would_block`);
///   3. only after that, install pending watches (`begin_install` /
///      `watch_installed`), which may buffer new records and so forces a
///      fresh drain before the next release or installation.
///
/// The `drained` flag records "the backlog is known empty and nothing has
/// been installed since": `on_would_block` is the only operation that sets
/// it, every record or installation clears it, and the two installation
/// steps require it. Physical release happens only inside `on_would_block`,
/// i.e. exactly at the moment draining would block, so a handle is never
/// returned to the kernel's pool while records for it may still be buffered.
pub struct FileSystemWatcher {
    pub tree: WatchTree,
    pub drained: bool,
    pub stopped: bool,
}

impl FileSystemWatcher {
    /// A watcher for the tree rooted at `root`: the root is queued for
    /// watch installation, nothing is watched yet, and the backlog is not
    /// yet known to be empty.
    pub fn new(root: Vec<u8>) -> (w: FileSystemWatcher)
        ensures
            w.tree@ == (TreeView {
                root: root@,
                active: Seq::empty(),
                pending: seq![root@],
                released: Seq::empty(),
            }),
            w.tree@.wf(),
            !w.drained,
            !w.stopped,
    {
        FileSystemWatcher { tree: WatchTree::new(root), drained: false, stopped: false }
    }

    /// Feeds one buffered raw record in. The record is translated against
    /// the current tree; a `Stopped` event ends the stream for good. Any
    /// record invalidates the drained mark.
    pub fn on_record(&mut self, rec: &RawRecord) -> (r: Option<FileSystemEvent>)
        requires
            old(self).tree@.wf(),
        ensures
            final(self).tree@.wf(),
            old(self).stopped ==> r is None && final(self).tree@ == old(self).tree@
                && final(self).drained == old(self).drained && final(self).stopped,
            !old(self).stopped ==> {
                &&& final(self).tree@ == spec_translate(old(self).tree@, rec@).0
                &&& opt_view(r) == spec_translate(old(self).tree@, rec@).1
                &&& !final(self).drained
                &&& final(self).stopped == (spec_translate(old(self).tree@, rec@).1 matches Some(
                    EventView::Stopped(_),
                ))
            },
    {
        if self.stopped {
            return None;
        }
        self.drained = false;
        let r = self.tree.translate_record(rec);
        match &r {
            Some(FileSystemEvent::Stopped(_)) => {
                self.stopped = true;
            },
            _ => {},
        }
        r
    }

    /// Reports that draining would block: the backlog is empty. This is the
    /// one place handles are handed out for physical release — the caller
    /// must release every returned handle — and the one place the drained
    /// mark is set.
    pub fn on_would_block(&mut self) -> (r: Vec<u64>)
        requires
            old(self).tree@.wf(),
        ensures
            final(self).tree@.wf(),
            r@ == old(self).tree@.released,
            final(self).tree@ == (TreeView { released: Seq::empty(), ..old(self).tree@ }),
            final(self).drained,
            final(self).stopped == old(self).stopped,
    {
        self.drained = true;
        self.tree.take_released()
    }

    /// Pops the next path awaiting watch installation. Callable only with
    /// the backlog drained; popping alone buffers no records, so the
    /// drained mark stays.
    pub fn begin_install(&mut self) -> (r: Option<Vec<u8>>)
        requires
            old(self).tree@.wf(),
            old(self).drained,
        ensures
            final(self).tree@.wf(),
            final(self).drained,
            final(self).stopped == old(self).stopped,
            old(self).tree@.pending.len() == 0 ==> r is None
                && final(self).tree@ == old(self).tree@,
            old(self).tree@.pending.len() > 0 ==> match r {
                Some(v) => v@ == old(self).tree@.pending[0] && final(self).tree@ == (TreeView {
                    pending: old(self).tree@.pending.skip(1),
                    ..old(self).tree@
                }),
                None => false,
            },
    {
        self.tree.pop_pending()
    }

    /// Records a successful watch installation on `path` with kernel handle
    /// `handle`, queues the subdirectories found by the directory listing,
    /// and yields the `DirectoryWatched` event. Installation may buffer new
    /// records for the fresh watch, so the drained mark is cleared.
    ///
    /// The freshness of `path` and `handle` is re-checked against the tree;
    /// a stale installation (the kernel handed back a handle still known to
    /// the tree, or a path already watched) yields nothing and changes
    /// nothing, rather than corrupting the mapping.
    pub fn watch_installed(&mut self, path: Vec<u8>, handle: u64, subdirs: Vec<Vec<u8>>) -> (r:
        Option<FileSystemEvent>)
        requires
            old(self).tree@.wf(),
            old(self).drained,
        ensures
            final(self).tree@.wf(),
            final(self).stopped == old(self).stopped,
            ({
                let fresh = !old(self).tree@.active_has_path(path@)
                    && !old(self).tree@.active_has_handle(handle)
                    && !old(self).tree@.released.contains(handle)
                    && !old(self).tree@.pending.contains(path@);
                if fresh {
                    &&& final(self).tree@ == old(self).tree@.install(path@, handle).enqueue_all(
                        byte_views(subdirs@),
                    )
                    &&& opt_view(r) == Some(EventView::DirectoryWatched(path@))
                    &&& !final(self).drained
                } else {
                    &&& final(self).tree@ == old(self).tree@
                    &&& r is None
                    &&& final(self).drained
                }
            }),
    {
        if self.tree.contains_path(&path) || self.tree.contains_handle(handle)
            || self.tree.released_contains(handle) || self.tree.pending_contains(&path) {
            return None;
        }
        let announced = copy_bytes(&path);
        self.tree.install_active(path, handle);
        let ghost installed = self.tree@;
        let ghost all = byte_views(subdirs@);
        let mut ds = subdirs;
        let mut i: usize = 0;
        let n = ds.len();
        proof {
            assert(all.skip(0) =~= all);
        }
        while i < n
            invariant
                n == ds.len(),
                i <= n,
                all == byte_views(ds@),
                self.stopped == old(self).stopped,
                self.drained == old(self).drained,
                self.tree@.wf(),
                installed.enqueue_all(all) == self.tree@.enqueue_all(all.skip(i as int)),
            decreases n - i,
        {
            let ghost pre = self.tree@;
            let d = copy_bytes(&ds[i]);
            self.tree.enqueue_pending(d);
            proof {
                assert(all.skip(i as int) =~= seq![all[i as int]] + all.skip(i + 1));
                assert(all.skip(i as int)[0] == all[i as int]);
                assert(all.skip(i as int).skip(1) =~= all.skip(i + 1));
                assert(pre.enqueue_all(all.skip(i as int)) == pre.enqueue_one(
                    all[i as int],
                ).enqueue_all(all.skip(i + 1)));
            }
            i += 1;
        }
        proof {
            assert(all.skip(n as int) =~= Seq::<Seq<u8>>::empty());
            assert(self.tree@.enqueue_all(all.skip(n as int)) == self.tree@);
        }
        self.drained = false;
        Some(FileSystemEvent::DirectoryWatched(announced))
    }
}

} // verus!
