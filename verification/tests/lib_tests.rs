use fswatcher::{Error, FileSystemEvent, StopReason};

#[test]
fn it_works() {
    assert_eq!(2 + 2, 4);
}

#[test]
fn error_values_compare_by_code() {
    assert_eq!(Error::Io(5), Error::Io(5));
    assert_ne!(Error::Io(5), Error::Io(6));
    assert_eq!(
        FileSystemEvent::Error(Error::Io(13)),
        FileSystemEvent::Error(Error::Io(13))
    );
}

#[test]
fn stop_reason_is_directory_removed() {
    assert_eq!(StopReason::DirectoryRemoved, StopReason::DirectoryRemoved);
    assert_eq!(
        FileSystemEvent::Stopped(StopReason::DirectoryRemoved),
        FileSystemEvent::Stopped(StopReason::DirectoryRemoved)
    );
}
