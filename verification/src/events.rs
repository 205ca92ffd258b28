use vstd::prelude::*;

verus! {

/// Why the event sequence ended.
#[derive(Clone, Copy, Debug, PartialEq, Eq, Structural)]
pub enum StopReason {
    DirectoryRemoved,
}

/// An error surfaced to the caller as an event. The payload is the raw
/// operating-system error code reported by the notification channel, or
/// zero when no code is available.
#[derive(Clone, Copy, Debug, PartialEq, Eq, Structural)]
pub enum Error {
    Io(i32),
}

/// One high-level change event delivered to the caller.
///
/// Paths are opaque byte strings; they are compared byte for byte and the
/// library performs no normalization.
#[derive(Debug, PartialEq, Eq)]
pub enum FileSystemEvent {
    Stopped(StopReason),
    DirectoryWatched(Vec<u8>),
    DirectoryCreated(Vec<u8>),
    DirectoryRemoved(Vec<u8>),
    FileCreated(Vec<u8>),
    FileModified(Vec<u8>),
    FileRemoved(Vec<u8>),
    /// A detach/attach pair recombined by the coalescer: source path,
    /// destination path, and whether the moved object is a directory.
    Moved(Vec<u8>, Vec<u8>, bool),
    Error(Error),
}

/// The mathematical value of a `FileSystemEvent`: paths as byte sequences.
#[verifier::ext_equal]
pub enum EventView {
    Stopped(StopReason),
    DirectoryWatched(Seq<u8>),
    DirectoryCreated(Seq<u8>),
    DirectoryRemoved(Seq<u8>),
    FileCreated(Seq<u8>),
    FileModified(Seq<u8>),
    FileRemoved(Seq<u8>),
    Moved(Seq<u8>, Seq<u8>, bool),
    Error(Error),
}

impl View for FileSystemEvent {
    type V = EventView;

    open spec fn view(&self) -> EventView {
        match self {
            FileSystemEvent::Stopped(r) => EventView::Stopped(*r),
            FileSystemEvent::DirectoryWatched(p) => EventView::DirectoryWatched(p@),
            FileSystemEvent::DirectoryCreated(p) => EventView::DirectoryCreated(p@),
            FileSystemEvent::DirectoryRemoved(p) => EventView::DirectoryRemoved(p@),
            FileSystemEvent::FileCreated(p) => EventView::FileCreated(p@),
            FileSystemEvent::FileModified(p) => EventView::FileModified(p@),
            FileSystemEvent::FileRemoved(p) => EventView::FileRemoved(p@),
            FileSystemEvent::Moved(a, b, d) => EventView::Moved(a@, b@, *d),
            FileSystemEvent::Error(e) => EventView::Error(*e),
        }
    }
}

impl EventView {
    /// A creation event (file or directory).
    pub open spec fn is_created(self) -> bool {
        self matches EventView::FileCreated(_) || self matches EventView::DirectoryCreated(_)
    }

    /// A removal event (file or directory).
    pub open spec fn is_removed(self) -> bool {
        self matches EventView::FileRemoved(_) || self matches EventView::DirectoryRemoved(_)
    }

    /// Whether the event concerns a directory rather than a file.
    pub open spec fn is_dir_kind(self) -> bool {
        self matches EventView::DirectoryWatched(_)
            || self matches EventView::DirectoryCreated(_)
            || self matches EventView::DirectoryRemoved(_)
    }

    /// The path the event names; the source path for `Moved`, and the
    /// empty sequence for the pathless events.
    pub open spec fn path(self) -> Seq<u8> {
        match self {
            EventView::Stopped(_) => Seq::empty(),
            EventView::DirectoryWatched(p) => p,
            EventView::DirectoryCreated(p) => p,
            EventView::DirectoryRemoved(p) => p,
            EventView::FileCreated(p) => p,
            EventView::FileModified(p) => p,
            EventView::FileRemoved(p) => p,
            EventView::Moved(a, _, _) => a,
            EventView::Error(_) => Seq::empty(),
        }
    }

    /// Whether the event mentions path `p`.
    pub open spec fn touches(self, p: Seq<u8>) -> bool {
        match self {
            EventView::Stopped(_) => false,
            EventView::DirectoryWatched(q) => q == p,
            EventView::DirectoryCreated(q) => q == p,
            EventView::DirectoryRemoved(q) => q == p,
            EventView::FileCreated(q) => q == p,
            EventView::FileModified(q) => q == p,
            EventView::FileRemoved(q) => q == p,
            EventView::Moved(a, b, _) => a == p || b == p,
            EventView::Error(_) => false,
        }
    }
}

/// The view of an optional event.
pub open spec fn opt_view(e: Option<FileSystemEvent>) -> Option<EventView> {
    match e {
        Some(ev) => Some(ev@),
        None => None,
    }
}

/// The views of a sequence of events.
pub open spec fn event_views(s: Seq<FileSystemEvent>) -> Seq<EventView> {
    s.map_values(|e: FileSystemEvent| e@)
}

/// The action named by one raw notification record, as reported by the
/// per-directory change-notification facility.
#[derive(Clone, Copy, Debug, PartialEq, Eq, Structural)]
pub enum RawAction {
    Create,
    Modify,
    Attrib,
    Delete,
    MovedFrom,
    MovedTo,
    /// The watched directory itself was deleted.
    DeleteSelf,
    /// Confirmation that a watch was retired by the kernel.
    Retired,
    /// Any action the translator does not recognize.
    Other,
}

/// One raw notification record: the handle of the watched directory, the
/// optional name of the child the action concerns, the action, and whether
/// the subject is a directory.
pub struct RawRecord {
    pub handle: u64,
    pub name: Option<Vec<u8>>,
    pub action: RawAction,
    pub is_dir: bool,
}

/// The mathematical value of a `RawRecord`.
pub struct RecordView {
    pub handle: u64,
    pub name: Option<Seq<u8>>,
    pub action: RawAction,
    pub is_dir: bool,
}

impl View for RawRecord {
    type V = RecordView;

    open spec fn view(&self) -> RecordView {
        RecordView {
            handle: self.handle,
            name: match self.name {
                Some(n) => Some(n@),
                None => None,
            },
            action: self.action,
            is_dir: self.is_dir,
        }
    }
}

} // verus!
