use delfaf::cache::ErrorKind;
use delfaf::guard::PathStyle;
use delfaf::removal::{
    chunk_size, delete_step, tally, DeleteAction, DeleteEvent, DeleteOutcome, Entry, Removal,
};

#[test]
fn refuses_slash() {
    assert_eq!(
        delete_step(b"/", PathStyle::Unix, DeleteEvent::Start),
        DeleteAction::Finish(DeleteOutcome::Refused)
    );
}

#[test]
fn refuses_dot_and_parent() {
    for p in [&b"."[..], b"..", b"/tmp/../etc", b"/./"] {
        assert_eq!(delete_step(p, PathStyle::Unix, DeleteEvent::Start), DeleteAction::Finish(DeleteOutcome::Refused));
    }
}

#[test]
fn skip_missing_is_ok() {
    let p = b"/tmp/delfaf-does-not-exist-xyz";
    assert_eq!(delete_step(p, PathStyle::Unix, DeleteEvent::Start), DeleteAction::Inspect);
    assert_eq!(
        delete_step(p, PathStyle::Unix, DeleteEvent::Inspected(Err(ErrorKind::NotFound))),
        DeleteAction::Finish(DeleteOutcome::Missing)
    );
}

#[test]
fn removal_vanishing_is_skipped() {
    assert_eq!(
        delete_step(b"/tmp/x", PathStyle::Unix, DeleteEvent::Removed(Err(ErrorKind::NotFound))),
        DeleteAction::Finish(DeleteOutcome::Missing)
    );
}

#[test]
fn directories_go_as_trees() {
    let dir = Entry { is_dir: true, is_symlink: false };
    assert_eq!(
        delete_step(b"/tmp/node_modules", PathStyle::Unix, DeleteEvent::Inspected(Ok(dir))),
        DeleteAction::Remove(Removal::Tree)
    );
}

#[test]
fn files_and_links_are_unlinked() {
    let file = Entry { is_dir: false, is_symlink: false };
    let link = Entry { is_dir: false, is_symlink: true };
    let dir_link = Entry { is_dir: true, is_symlink: true };
    assert_eq!(delete_step(b"/a", PathStyle::Unix, DeleteEvent::Inspected(Ok(file))), DeleteAction::Remove(Removal::File));
    assert_eq!(delete_step(b"/a", PathStyle::Unix, DeleteEvent::Inspected(Ok(link))), DeleteAction::Remove(Removal::File));
    assert_eq!(
        delete_step(b"/a", PathStyle::Unix, DeleteEvent::Inspected(Ok(dir_link))),
        DeleteAction::Remove(Removal::LinkDir)
    );
}

#[test]
fn failures_are_reported() {
    assert_eq!(
        delete_step(b"/a", PathStyle::Unix, DeleteEvent::Inspected(Err(ErrorKind::PermissionDenied))),
        DeleteAction::Finish(DeleteOutcome::Failed)
    );
    assert_eq!(
        delete_step(b"/a", PathStyle::Unix, DeleteEvent::Removed(Err(ErrorKind::Other))),
        DeleteAction::Finish(DeleteOutcome::Failed)
    );
    assert_eq!(delete_step(b"/a", PathStyle::Unix, DeleteEvent::Removed(Ok(()))), DeleteAction::Finish(DeleteOutcome::Deleted));
}

#[test]
fn delete_paths_counts() {
    let outcomes = [DeleteOutcome::Deleted, DeleteOutcome::Deleted, DeleteOutcome::Missing];
    let t = tally(&outcomes);
    assert_eq!(t.deleted, 2);
    assert_eq!(t.failed, 0);
}

#[test]
fn tally_counts_refusals_as_failures() {
    let outcomes = [
        DeleteOutcome::Refused,
        DeleteOutcome::Failed,
        DeleteOutcome::Deleted,
        DeleteOutcome::Missing,
    ];
    let t = tally(&outcomes);
    assert_eq!((t.deleted, t.failed), (1, 2));
    assert_eq!(tally(&[]).deleted, 0);
}

#[test]
fn tally_of_chunks_adds_up() {
    let all = [
        DeleteOutcome::Deleted,
        DeleteOutcome::Failed,
        DeleteOutcome::Deleted,
        DeleteOutcome::Missing,
        DeleteOutcome::Refused,
    ];
    let (a, b) = all.split_at(2);
    let whole = tally(&all);
    let (ta, tb) = (tally(a), tally(b));
    assert_eq!(whole.deleted, ta.deleted + tb.deleted);
    assert_eq!(whole.failed, ta.failed + tb.failed);
}

#[test]
fn chunk_sizes() {
    assert_eq!(chunk_size(0, Some(8)), None);
    assert_eq!(chunk_size(1, Some(8)), None);
    assert_eq!(chunk_size(2, Some(8)), Some(1));
    assert_eq!(chunk_size(10, Some(4)), Some(3));
    assert_eq!(chunk_size(12, Some(4)), Some(3));
    assert_eq!(chunk_size(10, None), Some(3));
    assert_eq!(chunk_size(10, Some(1)), Some(10));
    assert_eq!(chunk_size(usize::MAX, Some(2)), Some(usize::MAX / 2 + 1));
}

#[test]
fn windows_drive_root_is_refused() {
    assert_eq!(
        delete_step(br"C:\", PathStyle::Windows, DeleteEvent::Start),
        DeleteAction::Finish(DeleteOutcome::Refused)
    );
    assert_eq!(
        delete_step(br"C:\work\node_modules", PathStyle::Windows, DeleteEvent::Start),
        DeleteAction::Inspect
    );
}
