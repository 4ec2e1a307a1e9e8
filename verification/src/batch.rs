//! The outcome of a run over many trace files.
//!
//! Each file is worked on by itself, and a file that fails stops no other.
//! When all are done, the run names the files that failed and ends with a
//! status that tells whether any did.

use vstd::prelude::*;
use crate::trace::UnifyError;

verus! {

/// How the work on one trace file ended.
#[derive(Clone, Copy, Debug, PartialEq, Eq, Structural)]
pub enum FileOutcome {
    /// The unified trace was written.
    Written,
    /// The trace file could not be read.
    Unreadable,
    /// The trace could not be unified.
    Rejected(UnifyError),
    /// The output file could not be created or written.
    Unwritable,
}

/// The status with which a run ends where no file failed.
pub const STATUS_OK: u8 = 0;

/// The status with which a run ends where some file failed.
pub const STATUS_FAILED: u8 = 1;

impl FileOutcome {
    /// Whether the work on the file failed.
    pub open spec fn failed(self) -> bool {
        !(self is Written)
    }

    /// Whether the work on the file failed.
    pub fn is_failure(&self) -> (r: bool)
        ensures
            r == self.failed(),
    {
        match self {
            FileOutcome::Written => false,
            _ => true,
        }
    }
}

/// Whether no file failed.
pub open spec fn all_written(outcomes: Seq<FileOutcome>) -> bool {
    forall|i: int| 0 <= i < outcomes.len() ==> !(#[trigger] outcomes[i]).failed()
}

/// Whether `failed` lists the indices of the files that failed, each once
/// and in ascending order.
pub open spec fn lists_failures(outcomes: Seq<FileOutcome>, failed: Seq<usize>) -> bool {
    &&& forall|k: int|
        0 <= k < failed.len() ==> (#[trigger] failed[k]) < outcomes.len() && outcomes[failed[k] as int].failed()
    &&& forall|j: int, k: int| 0 <= j < k < failed.len() ==> failed[j] < failed[k]
    &&& forall|i: int|
        0 <= i < outcomes.len() && (#[trigger] outcomes[i]).failed() ==> failed.contains(
            i as usize,
        )
}

/// The files that failed, by their index among the outcomes.
pub fn failed_files(outcomes: &[FileOutcome]) -> (failed: Vec<usize>)
    ensures
        lists_failures(outcomes@, failed@),
        failed@.len() == 0 <==> all_written(outcomes@),
{
    let mut failed: Vec<usize> = Vec::new();
    let mut i: usize = 0;
    while i < outcomes.len()
        invariant
            i <= outcomes.len(),
            lists_failures(outcomes@.subrange(0, i as int), failed@),
        decreases outcomes.len() - i,
    {
        let ghost before = failed@;
        let ghost seen = outcomes@.subrange(0, i as int);
        let ghost more = outcomes@.subrange(0, i + 1);
        if outcomes[i].is_failure() {
            failed.push(i);
        }
        proof {
            assert forall|k: int| 0 <= k < failed@.len() implies (#[trigger] failed@[k])
                < more.len() && more[failed@[k] as int].failed() by {
                if k < before.len() {
                    assert(seen[before[k] as int] == more[before[k] as int]);
                }
            }
            assert forall|x: int| 0 <= x < more.len() && (#[trigger] more[x]).failed() implies failed@.contains(
                x as usize,
            ) by {
                if x < i {
                    assert(seen[x] == more[x]);
                    assert(before.contains(x as usize));
                    let k = choose|k: int| 0 <= k < before.len() && before[k] == x as usize;
                    assert(failed@[k] == x as usize);
                } else {
                    assert(failed@[before.len() as int] == i);
                }
            }
        }
        i += 1;
    }
    proof {
        assert(outcomes@.subrange(0, i as int) =~= outcomes@);
        if failed@.len() > 0 {
            assert(outcomes@[failed@[0] as int].failed());
        }
    }
    failed
}

/// The status with which the run ends: `STATUS_OK` where every file was
/// written, `STATUS_FAILED` where any failed.
pub fn exit_status(outcomes: &[FileOutcome]) -> (status: u8)
    ensures
        all_written(outcomes@) ==> status == STATUS_OK,
        !all_written(outcomes@) ==> status == STATUS_FAILED,
{
    if failed_files(outcomes).len() == 0 {
        STATUS_OK
    } else {
        STATUS_FAILED
    }
}

} // verus!
