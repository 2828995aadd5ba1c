//! The coordinator: the single owner of the grouping state. It consumes
//! scanner records and hash results as events, mutates the state through
//! the verified operations, and tracks how many submitted hash tasks have
//! not produced a result yet, so a report is only taken when it is final.
//! The blocking work around it — traversal, file reads, worker threads —
//! happens outside; this is the decision core from event to state change.

use vstd::prelude::*;
use crate::index::{FileSizeInfo, HashTask, GroupModel, observe_model, apply_model, task_views};
use crate::order::path_views;

verus! {

/// The single-writer pipeline state.
pub struct Coordinator {
    /// The grouping state; only this coordinator mutates it.
    pub index: FileSizeInfo,
    /// Submitted hash tasks without a result yet.
    pub outstanding: u64,
    /// Paths whose hashing failed: excluded from every bucket, kept for
    /// diagnostics.
    pub excluded: Vec<String>,
}

impl Coordinator {
    pub open spec fn wf(self) -> bool {
        self.index.wf()
    }

    pub fn new() -> (r: Coordinator)
        ensures
            r.wf(),
            r.index.as_map() == Map::<u64, GroupModel>::empty(),
            r.outstanding == 0,
            r.excluded@.len() == 0,
    {
        Coordinator { index: FileSizeInfo::new(), outstanding: 0, excluded: Vec::new() }
    }

    /// One scanner record: observe the file and hand back the hash tasks
    /// to submit; they are counted as outstanding.
    pub fn on_file(&mut self, path: &str, size: u64) -> (tasks: Vec<HashTask>)
        requires
            old(self).wf(),
            old(self).outstanding <= u64::MAX - 2,
        ensures
            final(self).wf(),
            final(self).index.as_map() == observe_model(old(self).index.as_map(), size, path@).0,
            task_views(tasks@) == observe_model(old(self).index.as_map(), size, path@).1,
            final(self).outstanding == old(self).outstanding + tasks@.len(),
            final(self).excluded == old(self).excluded,
    {
        let tasks = self.index.add(size, path);
        proof {
            assert(task_views(tasks@).len() == tasks@.len());
            assert(tasks@.len() <= 2);
        }
        if tasks.len() == 1 {
            self.outstanding = self.outstanding + 1;
        } else if tasks.len() == 2 {
            self.outstanding = self.outstanding + 2;
        }
        tasks
    }

    /// One successful hash result: apply it to the grouping state. A
    /// result for a size that is not in the hashed state changes nothing,
    /// which the model says too.
    pub fn on_hash_ok(&mut self, size: u64, path: &str, digest: &Vec<u8>)
        requires
            old(self).wf(),
            old(self).outstanding >= 1,
        ensures
            final(self).wf(),
            final(self).index.as_map() == apply_model(
                old(self).index.as_map(),
                size,
                digest@,
                path@,
            ),
            final(self).outstanding == old(self).outstanding - 1,
            final(self).excluded == old(self).excluded,
    {
        if self.index.has_hashed_group(size) {
            self.index.apply_hash_result(size, path, digest);
        }
        self.outstanding = self.outstanding - 1;
    }

    /// One failed hash result: the path joins the excluded list and no
    /// bucket anywhere changes, so the failure stays isolated to this file.
    pub fn on_hash_err(&mut self, path: &str)
        requires
            old(self).wf(),
            old(self).outstanding >= 1,
        ensures
            final(self).wf(),
            final(self).index == old(self).index,
            final(self).outstanding == old(self).outstanding - 1,
            path_views(final(self).excluded@) == path_views(old(self).excluded@).push(path@),
    {
        self.excluded.push(path.to_owned());
        self.outstanding = self.outstanding - 1;
        proof {
            assert(path_views(self.excluded@) =~= path_views(old(self).excluded@).push(path@));
        }
    }

    /// Have all submitted hash tasks produced a result?
    pub fn is_settled(&self) -> (r: bool)
        ensures
            r == (self.outstanding == 0),
    {
        self.outstanding == 0
    }
}

} // verus!
