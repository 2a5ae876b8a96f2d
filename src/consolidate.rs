use std::collections::HashMap;

use vstd::prelude::*;

use crate::record::{DedupFile, FileView};

verus! {

pub open spec fn views(fs: Seq<DedupFile>) -> Seq<FileView> {
    fs.map_values(|f: DedupFile| f@)
}

/// No two records share a (device, inode) pair.
pub open spec fn ids_unique(s: Seq<FileView>) -> bool {
    forall|i: int, j: int| 0 <= i < s.len() && 0 <= j < s.len() && i != j ==> (#[trigger] s[i]).id() != (#[trigger] s[j]).id()
}

pub open spec fn has_id(s: Seq<FileView>, id: (u64, u64)) -> bool {
    exists|i: int| 0 <= i < s.len() && (#[trigger] s[i]).id() == id
}

/// `f` merged into the record `r` of the same file: its paths appended, its
/// size and link count taking over.
pub open spec fn merged(r: FileView, f: FileView) -> FileView {
    FileView { paths: r.paths + f.paths, size: f.size, device: r.device, inode: r.inode, nlink: f.nlink }
}

/// One more observation added to a table of records.
pub open spec fn absorb(s: Seq<FileView>, f: FileView) -> Seq<FileView> {
    if has_id(s, f.id()) {
        let i = choose|i: int| 0 <= i < s.len() && (#[trigger] s[i]).id() == f.id();
        s.update(i, merged(s[i], f))
    } else {
        s.push(f)
    }
}

/// The records that a sequence of observations consolidates to, in order of
/// first discovery.
pub open spec fn consolidated(fs: Seq<FileView>) -> Seq<FileView>
    decreases fs.len(),
{
    if fs.len() == 0 {
        Seq::empty()
    } else {
        absorb(consolidated(fs.drop_last()), fs.last())
    }
}

proof fn lemma_absorb_at(s: Seq<FileView>, f: FileView, i: int)
    requires
        ids_unique(s),
        0 <= i < s.len(),
        s[i].id() == f.id(),
    ensures
        absorb(s, f) == s.update(i, merged(s[i], f)),
{
    assert(has_id(s, f.id()));
    let k = choose|i: int| 0 <= i < s.len() && (#[trigger] s[i]).id() == f.id();
    assert(k == i);
}

/// A single number for a (device, inode) pair: the device in the high 64
/// bits, the inode in the low 64.
pub open spec fn id_key(id: (u64, u64)) -> int {
    id.0 as int * 0x1_0000_0000_0000_0000 + id.1 as int
}

proof fn lemma_id_key_injective(a: (u64, u64), b: (u64, u64))
    requires
        id_key(a) == id_key(b),
    ensures
        a == b,
{
    let base: int = 0x1_0000_0000_0000_0000;
    assert(a.0 == b.0) by (nonlinear_arith)
        requires
            a.0 as int * base + a.1 as int == b.0 as int * base + b.1 as int,
            0 <= a.1 < base,
            0 <= b.1 < base,
            0 <= a.0,
            0 <= b.0,
            base > 0,
    ;
}

pub(crate) fn make_id_key(device: u64, inode: u64) -> (r: u128)
    ensures
        r as int == id_key((device, inode)),
{
    assert(device as int * 0x1_0000_0000_0000_0000 + inode as int <= u128::MAX) by (nonlinear_arith)
        requires
            device <= u64::MAX,
            inode <= u64::MAX,
    ;
    (device as u128) * 0x1_0000_0000_0000_0000u128 + (inode as u128)
}

/// Consolidation of hard links: one record per physical file.
pub struct InodeTable {
    records: Vec<DedupFile>,
    index: HashMap<u128, usize>,
}

impl InodeTable {
    pub closed spec fn records(&self) -> Seq<FileView> {
        views(self.records@)
    }

    pub closed spec fn wf(&self) -> bool {
        &&& ids_unique(self.records())
        &&& forall|i: int| 0 <= i < self.records().len() ==> (#[trigger] self.records()[i]).wf()
        &&& forall|k: u128| #[trigger] self.index@.contains_key(k) ==> self.index@[k] < self.records@.len()
            && id_key(self.records()[self.index@[k] as int].id()) == k as int
        &&& forall|i: int| 0 <= i < self.records().len() ==> self.index@.contains_key(
            id_key((#[trigger] self.records()[i]).id()) as u128,
        )
    }

    pub fn new() -> (r: InodeTable)
        ensures
            r.wf(),
            r.records() == Seq::<FileView>::empty(),
    {
        broadcast use vstd::std_specs::hash::group_hash_axioms;

        let r = InodeTable { records: Vec::new(), index: HashMap::new() };
        assert(r.records() =~= Seq::<FileView>::empty());
        r
    }

    /// Adds one observation: a new physical file gets a record of its own, a
    /// further hard link is merged into the existing record.
    pub fn add(&mut self, f: DedupFile)
        requires
            old(self).wf(),
            f@.wf(),
        ensures
            final(self).wf(),
            final(self).records() == absorb(old(self).records(), f@),
    {
        broadcast use vstd::std_specs::hash::group_hash_axioms;

        let ghost s = self.records();
        let key = make_id_key(f.device, f.inode);
        let found = match self.index.get(&key) {
            Some(i) => Some(*i),
            None => None,
        };
        if let Some(i) = found {
            proof {
                lemma_id_key_injective(s[i as int].id(), f@.id());
            }
            assert(s[i as int].id() == f@.id());
            let mut r = self.records.remove(i);
            let ghost rv = r@;
            let DedupFile { paths, size, device: _, inode: _, nlink } = f;
            let mut paths = paths;
            r.paths.append(&mut paths);
            r.size = size;
            r.nlink = nlink;
            self.records.insert(i, r);
            proof {
                assert(r@.paths =~= rv.paths + f@.paths);
                assert(r@ == merged(rv, f@));
                lemma_absorb_at(s, f@, i as int);
                assert(self.records() =~= s.update(i as int, merged(s[i as int], f@)));
                assert(s[i as int] == rv);
                assert forall|a: int, b: int| 0 <= a < s.len() && 0 <= b < s.len() && a != b implies
                    (#[trigger] self.records()[a]).id() != (#[trigger] self.records()[b]).id() by {
                    assert(self.records()[a].id() == s[a].id());
                    assert(self.records()[b].id() == s[b].id());
                }
                assert forall|k: u128| #[trigger] self.index@.contains_key(k) implies self.index@[k] < self.records@.len()
                    && id_key(self.records()[self.index@[k] as int].id()) == k as int by {
                    assert(self.records()[self.index@[k] as int].id() == s[self.index@[k] as int].id());
                }
                assert forall|j: int| 0 <= j < self.records().len() implies self.index@.contains_key(
                    id_key((#[trigger] self.records()[j]).id()) as u128,
                ) by {
                    assert(self.records()[j].id() == s[j].id());
                }
            }
        } else {
            let n = self.records.len();
            proof {
                assert forall|j: int| 0 <= j < s.len() implies (#[trigger] s[j]).id() != f@.id() by {
                    if s[j].id() == f@.id() {
                        assert(self.index@.contains_key(id_key(s[j].id()) as u128));
                    }
                }
            }
            self.records.push(f);
            self.index.insert(key, n);
            proof {
                assert(self.records() =~= s.push(f@));
                assert forall|k: u128| #[trigger] self.index@.contains_key(k) implies self.index@[k] < self.records@.len()
                    && id_key(self.records()[self.index@[k] as int].id()) == k as int by {
                    if k != key {
                        assert(self.records()[self.index@[k] as int] == s[self.index@[k] as int]);
                    }
                }
                assert forall|j: int| 0 <= j < self.records().len() implies self.index@.contains_key(
                    id_key((#[trigger] self.records()[j]).id()) as u128,
                ) by {
                    if j < n {
                        assert(self.records()[j] == s[j]);
                    }
                }
            }
        }
    }

    /// The consolidated records, in order of first discovery.
    pub fn into_records(self) -> (r: Vec<DedupFile>)
        ensures
            views(r@) == self.records(),
    {
        self.records
    }
}

/// Consolidates a sequence of observations.
pub fn consolidate(files: Vec<DedupFile>) -> (r: Vec<DedupFile>)
    requires
        forall|i: int| 0 <= i < files@.len() ==> (#[trigger] files@[i])@.wf(),
    ensures
        views(r@) == consolidated(views(files@)),
        ids_unique(views(r@)),
{
    let ghost all = views(files@);
    let mut rest = files;
    let mut rev: Vec<DedupFile> = Vec::new();
    while rest.len() > 0
        invariant
            views(rest@) + views(rev@).reverse() == all,
            forall|i: int| 0 <= i < rest@.len() ==> (#[trigger] rest@[i])@.wf(),
            forall|i: int| 0 <= i < rev@.len() ==> (#[trigger] rev@[i])@.wf(),
        decreases rest@.len(),
    {
        let ghost r0 = rest@;
        let ghost v0 = rev@;
        let f = rest.pop().unwrap();
        rev.push(f);
        assert(views(r0) =~= views(rest@).push(f@));
        assert(views(rev@).reverse() =~= seq![f@] + views(v0).reverse());
        assert(views(rest@) + views(rev@).reverse() =~= views(r0) + views(v0).reverse());
    }
    let mut table = InodeTable::new();
    while rev.len() > 0
        invariant
            table.wf(),
            views(rev@).reverse().len() <= all.len(),
            all == all.subrange(0, all.len() - rev@.len()) + views(rev@).reverse(),
            table.records() == consolidated(all.subrange(0, all.len() - rev@.len())),
            forall|i: int| 0 <= i < rev@.len() ==> (#[trigger] rev@[i])@.wf(),
        decreases rev@.len(),
    {
        let ghost v0 = rev@;
        let f = rev.pop().unwrap();
        let ghost done = all.subrange(0, all.len() - v0.len());
        let ghost next = all.subrange(0, all.len() - rev@.len());
        assert(views(v0) =~= views(rev@).push(f@));
        assert(views(v0).reverse() =~= seq![f@] + views(rev@).reverse());
        assert(next =~= done.push(f@)) by {
            assert(all[all.len() - v0.len()] == views(v0).reverse()[0]);
        }
        assert(next.drop_last() =~= done);
        table.add(f);
    }
    assert(all.subrange(0, all.len() as int) =~= all);
    let r = table.into_records();
    r
}

} // verus!

verus! {

/// Every path of a sequence of observations, in order.
pub open spec fn all_paths(fs: Seq<FileView>) -> Seq<Seq<char>>
    decreases fs.len(),
{
    if fs.len() == 0 {
        Seq::empty()
    } else {
        all_paths(fs.drop_last()) + fs.last().paths
    }
}

proof fn lemma_all_paths_contains(fs: Seq<FileView>, p: Seq<char>)
    ensures
        all_paths(fs).contains(p) <==> exists|i: int| 0 <= i < fs.len() && (#[trigger] fs[i]).paths.contains(p),
    decreases fs.len(),
{
    if fs.len() > 0 {
        let init = fs.drop_last();
        lemma_all_paths_contains(init, p);
        let a = all_paths(init);
        let b = fs.last().paths;
        if all_paths(fs).contains(p) {
            let k = choose|k: int| 0 <= k < all_paths(fs).len() && all_paths(fs)[k] == p;
            if k < a.len() {
                assert(a[k] == p);
                let i = choose|i: int| 0 <= i < init.len() && (#[trigger] init[i]).paths.contains(p);
                assert(fs[i] == init[i]);
            } else {
                assert(b[k - a.len()] == p);
                assert(fs[fs.len() - 1].paths.contains(p));
            }
        }
        if exists|i: int| 0 <= i < fs.len() && (#[trigger] fs[i]).paths.contains(p) {
            let i = choose|i: int| 0 <= i < fs.len() && (#[trigger] fs[i]).paths.contains(p);
            let k = choose|k: int| 0 <= k < fs[i].paths.len() && fs[i].paths[k] == p;
            if i < fs.len() - 1 {
                assert(init[i] == fs[i]);
                assert(a.contains(p));
                let m = choose|m: int| 0 <= m < a.len() && a[m] == p;
                assert(all_paths(fs)[m] == p);
            } else {
                assert(all_paths(fs)[a.len() + k] == p);
            }
        }
    }
}

/// Hard links collapse: observations that all name one physical file
/// consolidate, in any order, to exactly one record of that file whose
/// paths are all the paths observed, and no other.
pub proof fn lemma_hard_links_collapse(fs: Seq<FileView>)
    requires
        fs.len() > 0,
        forall|i: int| 0 <= i < fs.len() ==> (#[trigger] fs[i]).id() == fs[0].id(),
    ensures
        consolidated(fs).len() == 1,
        consolidated(fs)[0].id() == fs[0].id(),
        consolidated(fs)[0].paths == all_paths(fs),
        forall|p: Seq<char>| consolidated(fs)[0].paths.contains(p) <==> exists|i: int|
            0 <= i < fs.len() && (#[trigger] fs[i]).paths.contains(p),
    decreases fs.len(),
{
    let init = fs.drop_last();
    let f = fs.last();
    if fs.len() == 1 {
        assert(consolidated(init) =~= Seq::<FileView>::empty());
        assert(!has_id(consolidated(init), f.id()));
        assert(all_paths(init) =~= Seq::<Seq<char>>::empty());
        assert(all_paths(fs) =~= f.paths);
    } else {
        assert forall|i: int| 0 <= i < init.len() implies (#[trigger] init[i]).id() == init[0].id() by {
            assert(init[i] == fs[i]);
        }
        lemma_hard_links_collapse(init);
        let c = consolidated(init);
        assert(c[0].id() == f.id());
        lemma_absorb_at(c, f, 0);
    }
    assert forall|p: Seq<char>| consolidated(fs)[0].paths.contains(p) <==> exists|i: int|
        0 <= i < fs.len() && (#[trigger] fs[i]).paths.contains(p) by {
        lemma_all_paths_contains(fs, p);
    }
}

} // verus!

verus! {

/// The observations of `fs` of the file `id`, in order.
pub open spec fn of_id(fs: Seq<FileView>, id: (u64, u64)) -> Seq<FileView>
    decreases fs.len(),
{
    if fs.len() == 0 {
        Seq::empty()
    } else if fs.last().id() == id {
        of_id(fs.drop_last(), id).push(fs.last())
    } else {
        of_id(fs.drop_last(), id)
    }
}

proof fn lemma_of_id_absent(fs: Seq<FileView>, id: (u64, u64))
    requires
        !has_id(fs, id),
    ensures
        of_id(fs, id) == Seq::<FileView>::empty(),
    decreases fs.len(),
{
    if fs.len() > 0 {
        let init = fs.drop_last();
        assert(!has_id(init, id)) by {
            if has_id(init, id) {
                let i = choose|i: int| 0 <= i < init.len() && (#[trigger] init[i]).id() == id;
                assert(fs[i] == init[i]);
            }
        }
        lemma_of_id_absent(init, id);
        assert(fs[fs.len() - 1].id() != id);
    }
}

/// Consolidation of any sequence of observations, other files mixed in: one
/// record per physical file observed, and none for a file not observed;
/// each record's paths are those of all the observations of its file, in
/// order.
pub proof fn lemma_consolidated_records(fs: Seq<FileView>)
    ensures
        ids_unique(consolidated(fs)),
        forall|id: (u64, u64)| #[trigger] has_id(consolidated(fs), id) <==> has_id(fs, id),
        forall|k: int| 0 <= k < consolidated(fs).len() ==> (#[trigger] consolidated(fs)[k]).paths == all_paths(
            of_id(fs, consolidated(fs)[k].id()),
        ),
    decreases fs.len(),
{
    if fs.len() == 0 {
        assert(consolidated(fs) =~= Seq::<FileView>::empty());
        assert forall|id: (u64, u64)| #[trigger] has_id(consolidated(fs), id) <==> has_id(fs, id) by {}
    } else {
        let init = fs.drop_last();
        let f = fs.last();
        lemma_consolidated_records(init);
        let c0 = consolidated(init);
        let c = consolidated(fs);
        assert(init.push(f) =~= fs);
        assert forall|id: (u64, u64)| #[trigger] has_id(fs, id) <==> (has_id(init, id) || f.id() == id) by {
            if has_id(fs, id) {
                let i = choose|i: int| 0 <= i < fs.len() && (#[trigger] fs[i]).id() == id;
                if i < init.len() {
                    assert(init[i] == fs[i]);
                }
            }
            if has_id(init, id) {
                let i = choose|i: int| 0 <= i < init.len() && (#[trigger] init[i]).id() == id;
                assert(fs[i] == init[i]);
            }
            if f.id() == id {
                assert(fs[fs.len() - 1] == f);
            }
        }
        if has_id(c0, f.id()) {
            let k0 = choose|i: int| 0 <= i < c0.len() && (#[trigger] c0[i]).id() == f.id();
            lemma_absorb_at(c0, f, k0);
            assert(c == c0.update(k0, merged(c0[k0], f)));
            assert forall|a: int, b: int| 0 <= a < c.len() && 0 <= b < c.len() && a != b implies
                (#[trigger] c[a]).id() != (#[trigger] c[b]).id() by {
                assert(c[a].id() == c0[a].id());
                assert(c[b].id() == c0[b].id());
            }
            assert forall|id: (u64, u64)| #[trigger] has_id(c, id) <==> has_id(fs, id) by {
                if has_id(c, id) {
                    let i = choose|i: int| 0 <= i < c.len() && (#[trigger] c[i]).id() == id;
                    assert(c0[i].id() == id);
                }
                if has_id(c0, id) {
                    let i = choose|i: int| 0 <= i < c0.len() && (#[trigger] c0[i]).id() == id;
                    assert(c[i].id() == id);
                }
                if f.id() == id {
                    assert(c[k0].id() == id);
                }
            }
            assert forall|k: int| 0 <= k < c.len() implies (#[trigger] c[k]).paths == all_paths(of_id(fs, c[k].id())) by {
                let id = c[k].id();
                assert(c0[k].id() == id);
                assert(fs.drop_last() == init);
                if k == k0 {
                    assert(of_id(fs, id) == of_id(init, id).push(f));
                    assert(of_id(init, id).push(f).drop_last() =~= of_id(init, id));
                } else {
                    assert(id != f.id());
                    assert(of_id(fs, id) == of_id(init, id));
                }
            }
        } else {
            assert(c == c0.push(f));
            assert(!has_id(init, f.id()));
            lemma_of_id_absent(init, f.id());
            assert forall|a: int, b: int| 0 <= a < c.len() && 0 <= b < c.len() && a != b implies
                (#[trigger] c[a]).id() != (#[trigger] c[b]).id() by {
                if a == c0.len() {
                    assert(c[b] == c0[b]);
                } else if b == c0.len() {
                    assert(c[a] == c0[a]);
                } else {
                    assert(c[a] == c0[a]);
                    assert(c[b] == c0[b]);
                }
            }
            assert forall|id: (u64, u64)| #[trigger] has_id(c, id) <==> has_id(fs, id) by {
                if has_id(c, id) {
                    let i = choose|i: int| 0 <= i < c.len() && (#[trigger] c[i]).id() == id;
                    if i < c0.len() {
                        assert(c0[i].id() == id);
                    }
                }
                if has_id(c0, id) {
                    let i = choose|i: int| 0 <= i < c0.len() && (#[trigger] c0[i]).id() == id;
                    assert(c[i].id() == id);
                }
                if f.id() == id {
                    assert(c[c0.len() as int].id() == id);
                }
            }
            assert forall|k: int| 0 <= k < c.len() implies (#[trigger] c[k]).paths == all_paths(of_id(fs, c[k].id())) by {
                let id = c[k].id();
                assert(fs.drop_last() == init);
                if k == c0.len() {
                    assert(of_id(fs, id) == of_id(init, id).push(f));
                    assert(of_id(init, id).push(f).drop_last() =~= Seq::<FileView>::empty());
                    assert(all_paths(Seq::<FileView>::empty()) == Seq::<Seq<char>>::empty());
                    assert(all_paths(seq![f]) =~= f.paths) by {
                        assert(seq![f].drop_last() =~= Seq::<FileView>::empty());
                    }
                    assert(of_id(fs, id) =~= seq![f]);
                } else {
                    assert(c[k] == c0[k]);
                    assert(id != f.id()) by {
                        assert(has_id(c0, id));
                    }
                    assert(of_id(fs, id) == of_id(init, id));
                }
            }
        }
    }
}

} // verus!
