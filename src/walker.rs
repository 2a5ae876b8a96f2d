use std::collections::HashSet;

use vstd::prelude::*;

use crate::consolidate::{id_key, make_id_key};
use crate::record::DedupFile;

verus! {

/// What a directory listing reports about one child.
pub struct EntryMeta {
    pub is_dir: bool,
    pub is_file: bool,
    pub len: u64,
    pub device: u64,
    pub inode: u64,
    pub nlink: u64,
}

/// What the caller must do next to drive the walk.
pub enum WalkStep {
    /// A regular file that passed the size threshold.
    File(DedupFile),
    /// List this directory and hand each child to `push_child`.
    Expand(String),
    /// Both queues are empty: the walk is over.
    Done,
}

/// Breadth-first walk over a directory tree: queued files are handed out
/// first, and a directory is expanded only when no file is waiting. A
/// directory is queued at most once per (device, inode) pair, which keeps
/// the walk finite when bind mounts or directory links form a cycle.
pub struct GroupByInodeIter {
    min_size: u64,
    file_queue: Vec<DedupFile>,
    dir_queue: Vec<String>,
    seen_dirs: HashSet<u128>,
    expanded: Ghost<nat>,
}

impl GroupByInodeIter {
    pub closed spec fn min_size(&self) -> u64 {
        self.min_size
    }

    /// The keys (see `id_key`) of the directory identities queued so far,
    /// the root's included.
    pub closed spec fn seen_dirs(&self) -> Set<u128> {
        self.seen_dirs@
    }

    pub closed spec fn pending_dirs(&self) -> Seq<Seq<char>> {
        self.dir_queue@.map_values(|p: String| p@)
    }

    pub closed spec fn pending_files(&self) -> Seq<DedupFile> {
        self.file_queue@
    }

    /// How many directories have been handed out for expansion.
    pub closed spec fn expansions(&self) -> nat {
        self.expanded@
    }

    pub closed spec fn wf(&self) -> bool {
        &&& self.seen_dirs@.finite()
        &&& self.expanded@ + self.dir_queue@.len() == self.seen_dirs@.len()
        &&& forall|i: int| 0 <= i < self.file_queue@.len() ==> (#[trigger] self.file_queue@[i])@.wf()
    }

    /// A walk that starts at `root`, the directory of identity
    /// (`root_device`, `root_inode`), keeping regular files of at least
    /// `min_size` bytes.
    pub fn new(root: String, root_device: u64, root_inode: u64, min_size: u64) -> (r: GroupByInodeIter)
        ensures
            r.wf(),
            r.min_size() == min_size,
            r.pending_dirs() == seq![root@],
            r.pending_files().len() == 0,
            r.seen_dirs() == set![id_key((root_device, root_inode)) as u128],
            r.expansions() == 0,
    {
        broadcast use vstd::std_specs::hash::group_hash_axioms;

        let mut dir_queue: Vec<String> = Vec::new();
        let ghost rv = root@;
        dir_queue.push(root);
        let mut seen_dirs: HashSet<u128> = HashSet::new();
        let key = make_id_key(root_device, root_inode);
        seen_dirs.insert(key);
        let r = GroupByInodeIter { min_size, file_queue: Vec::new(), dir_queue, seen_dirs, expanded: Ghost(0) };
        assert(r.pending_dirs() =~= seq![rv]);
        assert(r.seen_dirs() =~= set![key]);
        assert(set![key].len() == 1) by {
            assert(set![key] =~= Set::<u128>::empty().insert(key));
        }
        r
    }

    /// True iff the metadata belongs to a directory not queued before.
    pub fn is_wanted_dir(&self, meta: &EntryMeta) -> (r: bool)
        ensures
            r == (meta.is_dir && !self.seen_dirs().contains(id_key((meta.device, meta.inode)) as u128)),
    {
        broadcast use vstd::std_specs::hash::group_hash_axioms;

        meta.is_dir && !self.seen_dirs.contains(&make_id_key(meta.device, meta.inode))
    }

    /// True iff the metadata belongs to a regular file of at least the
    /// threshold size.
    pub fn is_wanted_file(&self, meta: &EntryMeta) -> (r: bool)
        ensures
            r == (meta.is_file && meta.len >= self.min_size()),
    {
        meta.is_file && meta.len >= self.min_size
    }

    /// Queues one child of an expanded directory: a directory not seen
    /// before joins the directory queue, a wanted regular file joins the file
    /// queue, anything else is dropped.
    pub fn push_child(&mut self, path: String, meta: &EntryMeta)
        requires
            old(self).wf(),
        ensures
            final(self).wf(),
            final(self).min_size() == old(self).min_size(),
            final(self).expansions() == old(self).expansions(),
            if meta.is_dir {
                if old(self).seen_dirs().contains(id_key((meta.device, meta.inode)) as u128) {
                    *final(self) == *old(self)
                } else {
                    &&& final(self).seen_dirs() == old(self).seen_dirs().insert(id_key((meta.device, meta.inode)) as u128)
                    &&& final(self).pending_dirs() == old(self).pending_dirs().push(path@)
                    &&& final(self).pending_files() == old(self).pending_files()
                }
            } else if meta.is_file && meta.len >= old(self).min_size() {
                &&& final(self).seen_dirs() == old(self).seen_dirs()
                &&& final(self).pending_dirs() == old(self).pending_dirs()
                &&& final(self).pending_files().len() == old(self).pending_files().len() + 1
                &&& final(self).pending_files().last()@ == (crate::record::FileView {
                    paths: seq![path@],
                    size: meta.len,
                    device: meta.device,
                    inode: meta.inode,
                    nlink: meta.nlink,
                })
                &&& final(self).pending_files().drop_last() == old(self).pending_files()
            } else {
                *final(self) == *old(self)
            },
    {
        broadcast use vstd::std_specs::hash::group_hash_axioms;

        if meta.is_dir {
            let ghost pd = self.pending_dirs();
            let ghost pv = path@;
            let ghost os = self.seen_dirs@;
            let key = make_id_key(meta.device, meta.inode);
            if !self.seen_dirs.contains(&key) {
                self.seen_dirs.insert(key);
                self.dir_queue.push(path);
                assert(self.pending_dirs() =~= pd.push(pv));
                assert(self.seen_dirs@.len() == os.len() + 1);
            }
        } else if self.is_wanted_file(meta) {
            let f = DedupFile::new(path, meta.len, meta.device, meta.inode, meta.nlink);
            let ghost old_files = self.file_queue@;
            self.file_queue.push(f);
            assert(self.file_queue@.drop_last() =~= old_files);
        }
    }

    /// Does the work needed for the next step: hands out a queued file, or
    /// asks for a queued directory to be expanded, or reports the end.
    pub fn next_step(&mut self) -> (r: WalkStep)
        requires
            old(self).wf(),
        ensures
            final(self).wf(),
            final(self).min_size() == old(self).min_size(),
            final(self).seen_dirs() == old(self).seen_dirs(),
            final(self).expansions() == old(self).expansions() + (if r is Expand { 1nat } else { 0nat }),
            match r {
                WalkStep::File(f) => {
                    &&& old(self).pending_files().len() > 0
                    &&& f == old(self).pending_files().last()
                    &&& final(self).pending_files() == old(self).pending_files().drop_last()
                    &&& final(self).pending_dirs() == old(self).pending_dirs()
                },
                WalkStep::Expand(d) => {
                    &&& old(self).pending_files().len() == 0
                    &&& old(self).pending_dirs().len() > 0
                    &&& d@ == old(self).pending_dirs().last()
                    &&& final(self).pending_dirs() == old(self).pending_dirs().drop_last()
                    &&& final(self).pending_files() == old(self).pending_files()
                },
                WalkStep::Done => {
                    &&& old(self).pending_files().len() == 0
                    &&& old(self).pending_dirs().len() == 0
                    &&& *final(self) == *old(self)
                },
            },
    {
        if self.file_queue.len() > 0 {
            let f = self.file_queue.pop().unwrap();
            return WalkStep::File(f);
        }
        if self.dir_queue.len() > 0 {
            let ghost pd = self.pending_dirs();
            let d = self.dir_queue.pop().unwrap();
            self.expanded = Ghost(self.expanded@ + 1);
            assert(self.pending_dirs() =~= pd.drop_last());
            return WalkStep::Expand(d);
        }
        WalkStep::Done
    }
}

/// The walk ends even where directories form a cycle: a directory, the root
/// included, is queued only under a (device, inode) pair not queued before,
/// so the directories expanded are never more than the distinct directory
/// identities met.
pub proof fn lemma_expansions_bounded(w: &GroupByInodeIter)
    requires
        w.wf(),
    ensures
        w.seen_dirs().finite(),
        w.expansions() <= w.seen_dirs().len(),
        w.expansions() + w.pending_dirs().len() == w.seen_dirs().len(),
{
}

} // verus!
