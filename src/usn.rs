//! The change-journal tracker's state: the last journal position seen and the
//! directories reported as changed since.

use vstd::prelude::*;
use crate::pathset::PathSet;

verus! {

/// Tracks changes under one root through the file system's change journal.
pub struct USNTracker {
    /// Root path being tracked.
    pub root: String,
    /// Last journal position seen.
    pub last_usn: u64,
    /// Directories changed since the last scan.
    pub changed_dirs: PathSet,
}

impl USNTracker {
    /// A tracker for `root` at journal position 0 with no changes.
    pub fn new(root: String) -> (r: USNTracker)
        ensures
            r.root@ == root@,
            r.last_usn == 0,
            r.changed_dirs.wf(),
            r.changed_dirs@ == Set::<Seq<char>>::empty(),
    {
        USNTracker { root, last_usn: 0, changed_dirs: PathSet::new() }
    }

    /// Records the journal position reached.
    pub fn update_last_usn(&mut self, usn: u64)
        ensures
            final(self).last_usn == usn,
            final(self).root == old(self).root,
            final(self).changed_dirs == old(self).changed_dirs,
    {
        self.last_usn = usn;
    }

    /// Records a directory reported as changed.
    pub fn mark_changed(&mut self, path: String)
        requires
            old(self).changed_dirs.wf(),
        ensures
            final(self).changed_dirs.wf(),
            final(self).changed_dirs@ == old(self).changed_dirs@.insert(path@),
            final(self).last_usn == old(self).last_usn,
    {
        self.changed_dirs.insert(path);
    }

    /// Whether `path` was reported as changed and so needs rescanning.
    pub fn needs_rescan(&self, path: &String) -> (r: bool)
        requires
            self.changed_dirs.wf(),
        ensures
            r == self.changed_dirs@.contains(path@),
    {
        self.changed_dirs.contains(path)
    }
}

} // verus!
