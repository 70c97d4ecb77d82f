use crate::cache::ErrorKind;
use crate::guard::{forbidden, is_forbidden, PathStyle};
use vstd::prelude::*;

verus! {

/// What the file system says of an entry, read without following a symbolic
/// link.
#[derive(PartialEq, Eq, Structural, Clone, Copy, Debug)]
pub struct Entry {
    pub is_dir: bool,
    pub is_symlink: bool,
}

/// What happened since the last step of deleting one path.
#[derive(Clone, Copy, Debug)]
pub enum DeleteEvent {
    /// Nothing yet: the deletion begins.
    Start,
    /// The entry was inspected, or inspecting it failed.
    Inspected(Result<Entry, ErrorKind>),
    /// The entry was removed, or removing it failed.
    Removed(Result<(), ErrorKind>),
}

/// How an entry is removed.
#[derive(PartialEq, Eq, Structural, Clone, Copy, Debug)]
pub enum Removal {
    /// A directory with everything below it.
    Tree,
    /// A symbolic link that the platform reports as a directory; only the link
    /// goes.
    LinkDir,
    /// A file, or a symbolic link; only the link goes, not its target.
    File,
}

/// How the deletion of one path ended.
#[derive(PartialEq, Eq, Structural, Clone, Copy, Debug)]
pub enum DeleteOutcome {
    /// The entry was removed.
    Deleted,
    /// There was nothing to remove.
    Missing,
    /// The path is refused: it is `/`, `.`, or holds `..`.
    Refused,
    /// The file system reported an error other than "not found".
    Failed,
}

/// The next thing to do for one path.
#[derive(PartialEq, Eq, Structural, Clone, Copy, Debug)]
pub enum DeleteAction {
    /// Read what the entry is, without following a link.
    Inspect,
    /// Remove the entry in the given way.
    Remove(Removal),
    /// Stop with the given outcome.
    Finish(DeleteOutcome),
}

/// How an inspected entry is removed: a link never as a tree.
pub open spec fn removal_for(entry: Entry) -> Removal {
    if entry.is_symlink && entry.is_dir {
        Removal::LinkDir
    } else if entry.is_dir && !entry.is_symlink {
        Removal::Tree
    } else {
        Removal::File
    }
}

/// The outcome of a failure: "not found" means there is nothing to delete.
pub open spec fn failure_outcome(kind: ErrorKind) -> DeleteOutcome {
    if kind == ErrorKind::NotFound {
        DeleteOutcome::Missing
    } else {
        DeleteOutcome::Failed
    }
}

/// The step that follows `event` in the deletion of `path`, a path in the
/// syntax of `style`.
pub open spec fn next_delete_action(style: PathStyle, path: Seq<u8>, event: DeleteEvent) -> DeleteAction {
    match event {
        DeleteEvent::Start => if forbidden(style, path) {
            DeleteAction::Finish(DeleteOutcome::Refused)
        } else {
            DeleteAction::Inspect
        },
        DeleteEvent::Inspected(Ok(entry)) => DeleteAction::Remove(removal_for(entry)),
        DeleteEvent::Inspected(Err(kind)) => DeleteAction::Finish(failure_outcome(kind)),
        DeleteEvent::Removed(Ok(())) => DeleteAction::Finish(DeleteOutcome::Deleted),
        DeleteEvent::Removed(Err(kind)) => DeleteAction::Finish(failure_outcome(kind)),
    }
}

/// One step of deleting `path`: a refused path is never touched; otherwise the
/// entry is inspected, then removed (a directory as a tree, a link or file on
/// its own), and a "not found" at either point means that the path is skipped.
pub fn delete_step(path: &[u8], style: PathStyle, event: DeleteEvent) -> (action: DeleteAction)
    ensures
        action == next_delete_action(style, path@, event),
{
    match event {
        DeleteEvent::Start => {
            if is_forbidden(path, style) {
                DeleteAction::Finish(DeleteOutcome::Refused)
            } else {
                DeleteAction::Inspect
            }
        },
        DeleteEvent::Inspected(Ok(entry)) => {
            let removal = if entry.is_symlink && entry.is_dir {
                Removal::LinkDir
            } else if entry.is_dir && !entry.is_symlink {
                Removal::Tree
            } else {
                Removal::File
            };
            DeleteAction::Remove(removal)
        },
        DeleteEvent::Inspected(Err(kind)) => DeleteAction::Finish(failure_of(kind)),
        DeleteEvent::Removed(Ok(())) => DeleteAction::Finish(DeleteOutcome::Deleted),
        DeleteEvent::Removed(Err(kind)) => DeleteAction::Finish(failure_of(kind)),
    }
}

fn failure_of(kind: ErrorKind) -> (o: DeleteOutcome)
    ensures
        o == failure_outcome(kind),
{
    match kind {
        ErrorKind::NotFound => DeleteOutcome::Missing,
        _ => DeleteOutcome::Failed,
    }
}

/// A forbidden path is refused at the first step, so nothing of it is ever
/// inspected or removed.
pub proof fn lemma_forbidden_never_removed(style: PathStyle, path: Seq<u8>)
    requires
        forbidden(style, path),
    ensures
        next_delete_action(style, path, DeleteEvent::Start) == DeleteAction::Finish(DeleteOutcome::Refused),
{
}

/// A symbolic link is unlinked, never removed as a tree, so its target stays.
pub proof fn lemma_link_target_kept(style: PathStyle, path: Seq<u8>, entry: Entry)
    requires
        entry.is_symlink,
    ensures
        next_delete_action(style, path, DeleteEvent::Inspected(Ok(entry))) != DeleteAction::Remove(
            Removal::Tree,
        ),
{
}

/// A path that is not there, whether before inspecting it or by the time it is
/// removed, is skipped rather than counted as a failure.
pub proof fn lemma_missing_skipped(style: PathStyle, path: Seq<u8>)
    ensures
        next_delete_action(style, path, DeleteEvent::Inspected(Err(ErrorKind::NotFound)))
            == DeleteAction::Finish(DeleteOutcome::Missing),
        next_delete_action(style, path, DeleteEvent::Removed(Err(ErrorKind::NotFound)))
            == DeleteAction::Finish(DeleteOutcome::Missing),
{
}

/// How many of the outcomes are deletions.
pub open spec fn deleted_count(outcomes: Seq<DeleteOutcome>) -> nat
    decreases outcomes.len(),
{
    if outcomes.len() == 0 {
        0
    } else {
        deleted_count(outcomes.drop_last()) + if outcomes.last() == DeleteOutcome::Deleted {
            1nat
        } else {
            0nat
        }
    }
}

/// How many of the outcomes are failures; a refused path is one.
pub open spec fn failed_count(outcomes: Seq<DeleteOutcome>) -> nat
    decreases outcomes.len(),
{
    if outcomes.len() == 0 {
        0
    } else {
        failed_count(outcomes.drop_last()) + if outcomes.last() == DeleteOutcome::Failed
            || outcomes.last() == DeleteOutcome::Refused {
            1nat
        } else {
            0nat
        }
    }
}

/// The counts of a run: paths deleted and paths that failed.
#[derive(PartialEq, Eq, Structural, Clone, Copy, Debug)]
pub struct Tally {
    pub deleted: u64,
    pub failed: u64,
}

proof fn lemma_counts_bounded(outcomes: Seq<DeleteOutcome>)
    ensures
        deleted_count(outcomes) + failed_count(outcomes) <= outcomes.len(),
    decreases outcomes.len(),
{
    if outcomes.len() > 0 {
        lemma_counts_bounded(outcomes.drop_last());
    }
}

/// Counts the deletions and the failures among `outcomes`; missing paths
/// count as neither.
pub fn tally(outcomes: &[DeleteOutcome]) -> (t: Tally)
    ensures
        t.deleted == deleted_count(outcomes@),
        t.failed == failed_count(outcomes@),
{
    let mut deleted: u64 = 0;
    let mut failed: u64 = 0;
    let mut i: usize = 0;
    assert(outcomes@.take(0) =~= Seq::<DeleteOutcome>::empty());
    while i < outcomes.len()
        invariant
            i <= outcomes@.len(),
            deleted == deleted_count(outcomes@.take(i as int)),
            failed == failed_count(outcomes@.take(i as int)),
        decreases outcomes@.len() - i,
    {
        let ghost prefix = outcomes@.take(i + 1);
        assert(prefix.drop_last() =~= outcomes@.take(i as int));
        proof {
            lemma_counts_bounded(prefix);
            assert(usize::MAX <= u64::MAX);
        }
        match outcomes[i] {
            DeleteOutcome::Deleted => deleted = deleted + 1,
            DeleteOutcome::Failed => failed = failed + 1,
            DeleteOutcome::Refused => failed = failed + 1,
            DeleteOutcome::Missing => {},
        }
        i = i + 1;
    }
    assert(outcomes@.take(outcomes@.len() as int) =~= outcomes@);
    Tally { deleted, failed }
}

/// Splitting the work does not change the counts: the outcomes of two chunks
/// count as much together as apart.
pub proof fn lemma_tally_split(a: Seq<DeleteOutcome>, b: Seq<DeleteOutcome>)
    ensures
        deleted_count(a + b) == deleted_count(a) + deleted_count(b),
        failed_count(a + b) == failed_count(a) + failed_count(b),
    decreases b.len(),
{
    if b.len() > 0 {
        lemma_tally_split(a, b.drop_last());
        assert((a + b).drop_last() =~= a + b.drop_last());
        assert((a + b).last() == b.last());
    } else {
        assert(a + b =~= a);
    }
}

/// The number of workers for `len` paths: the available parallelism (four
/// when unknown), but no more than there are paths.
pub open spec fn worker_count(len: nat, parallelism: Option<usize>) -> nat {
    let avail: nat = match parallelism {
        Some(p) => p as nat,
        None => 4,
    };
    if avail <= len {
        avail
    } else {
        len
    }
}

/// `a / b`, rounded up.
pub open spec fn ceil_div(a: nat, b: nat) -> nat {
    a / b + if a % b == 0 {
        0nat
    } else {
        1nat
    }
}

/// How many paths each worker takes: `None` when there is at most one path,
/// which is deleted without spawning a worker; otherwise the paths divided by
/// the workers, rounded up.
pub fn chunk_size(len: usize, parallelism: Option<usize>) -> (c: Option<usize>)
    requires
        parallelism matches Some(p) ==> p >= 1,
    ensures
        c is None <==> len <= 1,
        c matches Some(size) ==> size == ceil_div(len as nat, worker_count(len as nat, parallelism)),
{
    if len <= 1 {
        return None;
    }
    let avail: usize = match parallelism {
        Some(p) => p,
        None => 4,
    };
    let workers: usize = if avail <= len {
        avail
    } else {
        len
    };
    assert(len % workers != 0 ==> len / workers < len) by (nonlinear_arith)
        requires
            workers >= 1,
    ;
    let size: usize = len / workers + if len % workers == 0 {
        0
    } else {
        1
    };
    Some(size)
}

/// The chunks cover every path and are no larger than needed: `workers`
/// chunks of the computed size hold at least `len` paths, so no more than
/// `workers` workers are started, and one path fewer per chunk would not hold
/// them all.
pub proof fn lemma_chunks_cover(len: nat, workers: nat)
    requires
        workers >= 1,
    ensures
        len <= ceil_div(len, workers) * workers,
        ceil_div(len, workers) >= 1 || len == 0,
        len > 0 ==> (ceil_div(len, workers) - 1) * workers < len,
{
    let q = len / workers;
    let r = len % workers;
    assert(len == q * workers + r && r < workers) by (nonlinear_arith)
        requires
            workers >= 1,
            q == len / workers,
            r == len % workers,
    ;
    if r == 0 {
        assert(ceil_div(len, workers) * workers == q * workers);
        assert(len > 0 ==> q >= 1) by (nonlinear_arith)
            requires
                len == q * workers,
                workers >= 1,
        ;
        assert(len > 0 ==> (q - 1) * workers < len) by (nonlinear_arith)
            requires
                len == q * workers,
                workers >= 1,
        ;
    } else {
        assert(ceil_div(len, workers) * workers == q * workers + workers) by (nonlinear_arith)
            requires
                ceil_div(len, workers) == q + 1,
        ;
        assert(ceil_div(len, workers) - 1 == q);
    }
}


/// Each step of a deletion, in terms of what happened: the first step refuses
/// exactly the forbidden paths and inspects every other; an inspected
/// directory that is not a link goes as a tree, anything that is not a
/// directory goes on its own; a removal that succeeds is a deletion; "not
/// found" at either step skips the path, and every other failure at either
/// step is reported as a failure.
pub proof fn lemma_delete_steps(style: PathStyle, path: Seq<u8>, kind: ErrorKind, entry: Entry)
    ensures
        forbidden(style, path) ==> next_delete_action(style, path, DeleteEvent::Start)
            == DeleteAction::Finish(DeleteOutcome::Refused),
        !forbidden(style, path) ==> next_delete_action(style, path, DeleteEvent::Start)
            == DeleteAction::Inspect,
        entry.is_dir && !entry.is_symlink ==> next_delete_action(
            style,
            path,
            DeleteEvent::Inspected(Ok(entry)),
        ) == DeleteAction::Remove(Removal::Tree),
        !entry.is_dir ==> next_delete_action(style, path, DeleteEvent::Inspected(Ok(entry)))
            == DeleteAction::Remove(Removal::File),
        next_delete_action(style, path, DeleteEvent::Removed(Ok(())))
            == DeleteAction::Finish(DeleteOutcome::Deleted),
        kind != ErrorKind::NotFound ==> next_delete_action(
            style,
            path,
            DeleteEvent::Inspected(Err(kind)),
        ) == DeleteAction::Finish(DeleteOutcome::Failed),
        kind != ErrorKind::NotFound ==> next_delete_action(
            style,
            path,
            DeleteEvent::Removed(Err(kind)),
        ) == DeleteAction::Finish(DeleteOutcome::Failed),
{
}

/// The counts are the numbers of matching outcomes: the deletions, and the
/// failures together with the refusals.
pub proof fn lemma_counts_match(outcomes: Seq<DeleteOutcome>)
    ensures
        deleted_count(outcomes) == outcomes.filter(|o: DeleteOutcome| o == DeleteOutcome::Deleted).len(),
        failed_count(outcomes) == outcomes.filter(
            |o: DeleteOutcome| o == DeleteOutcome::Failed || o == DeleteOutcome::Refused,
        ).len(),
    decreases outcomes.len(),
{
    reveal_with_fuel(Seq::filter, 1);
    if outcomes.len() > 0 {
        lemma_counts_match(outcomes.drop_last());
    }
}

/// The workers never outnumber the paths nor the available parallelism (four
/// when unknown), and are as many as the smaller of the two.
pub proof fn lemma_worker_count(len: nat, parallelism: Option<usize>)
    ensures
        worker_count(len, parallelism) <= len,
        parallelism matches Some(p) ==> worker_count(len, parallelism) <= p,
        parallelism is None ==> worker_count(len, parallelism) <= 4,
        worker_count(len, parallelism) == len || worker_count(len, parallelism) == match parallelism {
            Some(p) => p as nat,
            None => 4nat,
        },
{
}

} // verus!
