use vstd::prelude::*;

use crate::consolidate::{ids_unique, views};
use crate::record::DedupFile;

verus! {

/// A comparison answer as it was handed to the clusterer: the two paths
/// compared and whether their contents were found equal.
pub type Answer = (Seq<char>, Seq<char>, bool);

/// What the caller must do next to drive the clustering.
pub enum ContentStep {
    /// A confirmed group of identical files.
    Group(Vec<DedupFile>),
    /// Compare the contents of these two paths and hand the result to `answer`.
    Compare(String, String),
    /// Every candidate group has been clustered and drained.
    Done,
}

/// `eq` is an equivalence relation on paths (as byte-for-byte equality of
/// the files they name is).
pub open spec fn is_equivalence(eq: spec_fn(Seq<char>, Seq<char>) -> bool) -> bool {
    &&& forall|a: Seq<char>| #[trigger] eq(a, a)
    &&& forall|a: Seq<char>, b: Seq<char>| #[trigger] eq(a, b) ==> eq(b, a)
    &&& forall|a: Seq<char>, b: Seq<char>, c: Seq<char>|
        #[trigger] eq(a, b) && #[trigger] eq(b, c) ==> eq(a, c)
}

/// Every recorded answer agrees with `eq`.
pub open spec fn answers_agree(log: Seq<Answer>, eq: spec_fn(Seq<char>, Seq<char>) -> bool) -> bool {
    forall|k: int| 0 <= k < log.len() ==> (#[trigger] log[k]).2 == eq(log[k].0, log[k].1)
}

pub open spec fn answered(log: Seq<Answer>, a: Seq<char>, b: Seq<char>, equal: bool) -> bool {
    log.contains((a, b, equal))
}

pub open spec fn all_wf(g: Seq<DedupFile>) -> bool {
    forall|i: int| 0 <= i < g.len() ==> (#[trigger] g[i])@.wf()
}

/// Every record of `g` has `size` bytes.
pub open spec fn all_of_size(g: Seq<DedupFile>, size: u64) -> bool {
    forall|i: int| 0 <= i < g.len() ==> (#[trigger] g[i]).size == size
}

/// The records of `g` all have one size.
pub open spec fn one_size(g: Seq<DedupFile>) -> bool {
    g.len() > 0 ==> all_of_size(g, g[0].size)
}

/// Every member of `g` was found equal to its first member.
pub open spec fn confirmed_group(log: Seq<Answer>, g: Seq<DedupFile>) -> bool {
    &&& g.len() > 0
    &&& all_wf(g)
    &&& forall|j: int| 1 <= j < g.len() ==> answered(log, (#[trigger] g[j])@.key(), g[0]@.key(), true)
}

/// Each cluster of `cs` is confirmed, and the first members of any two
/// clusters were found to differ.
pub open spec fn classes_ok(log: Seq<Answer>, cs: Seq<Vec<DedupFile>>) -> bool {
    &&& forall|i: int| 0 <= i < cs.len() ==> confirmed_group(log, #[trigger] cs[i]@)
    &&& forall|i: int, j: int| 0 <= i < j < cs.len() ==>
        answered(log, (#[trigger] cs[j]@)[0]@.key(), (#[trigger] cs[i]@)[0]@.key(), false)
}

/// `c` is one of the clusters of `cs`.
pub open spec fn is_one_of(c: Vec<DedupFile>, cs: Seq<Vec<DedupFile>>) -> bool {
    exists|j: int| 0 <= j < cs.len() && cs[j] == c
}

/// `x` is a member of one of the groups of `gs`.
pub open spec fn member_of_some(gs: Seq<Seq<DedupFile>>, x: DedupFile) -> bool {
    exists|i: int| 0 <= i < gs.len() && gs[i].contains(x)
}

/// Every member of every cluster of `cs` is a record of `b`.
pub open spec fn within(cs: Seq<Vec<DedupFile>>, b: Seq<DedupFile>) -> bool {
    forall|i: int, m: int| 0 <= i < cs.len() && 0 <= m < cs[i]@.len() ==> b.contains(#[trigger] cs[i]@[m])
}

/// `(h, i)` names a cluster of `hist`.
pub open spec fn valid_at(hist: Seq<Seq<Vec<DedupFile>>>, at: (int, int)) -> bool {
    0 <= at.0 < hist.len() && 0 <= at.1 < hist[at.0].len()
}

/// `cs` is a finished split of the candidate group `b`: confirmed clusters
/// with differing first members, holding exactly the files of `b`.
pub open spec fn split_ok(log: Seq<Answer>, cs: Seq<Vec<DedupFile>>, b: Seq<DedupFile>) -> bool {
    &&& classes_ok(log, cs)
    &&& within(cs, b)
    &&& forall|k: int| 0 <= k < b.len() ==> in_some(cs, #[trigger] b[k])
}

/// Every cluster of `cs` of two or more members is waiting in `out` or has
/// been handed out.
pub open spec fn handed(cs: Seq<Vec<DedupFile>>, out: Seq<Vec<DedupFile>>, emitted: Seq<Seq<DedupFile>>) -> bool {
    forall|i: int| 0 <= i < cs.len() && (#[trigger] cs[i])@.len() >= 2 ==> (out.contains(cs[i]) || emitted.contains(cs[i]@))
}

/// No record occurs twice in a cluster of `cs`, nor in two of its clusters.
pub open spec fn disjoint_clusters(cs: Seq<Vec<DedupFile>>) -> bool {
    &&& forall|i: int| 0 <= i < cs.len() ==> (#[trigger] cs[i])@.no_duplicates()
    &&& forall|i: int, j: int, a: int, b: int|
        0 <= i < cs.len() && 0 <= j < cs.len() && i != j && 0 <= a < cs[i]@.len() && 0 <= b < cs[j]@.len()
            ==> #[trigger] cs[i]@[a] != #[trigger] cs[j]@[b]
}

/// `x` is a member of no cluster of `cs`.
pub open spec fn outside(cs: Seq<Vec<DedupFile>>, x: DedupFile) -> bool {
    forall|i: int, a: int| 0 <= i < cs.len() && 0 <= a < cs[i]@.len() ==> #[trigger] cs[i]@[a] != x
}

/// `c` is one of the clusters of one of the splits in `hist`.
pub open spec fn from_history(c: Vec<DedupFile>, hist: Seq<Seq<Vec<DedupFile>>>) -> bool {
    exists|h: int, i: int| 0 <= h < hist.len() && 0 <= i < hist[h].len() && hist[h][i] == c
}

/// `g` is the content of one of the clusters of one of the splits in `hist`.
pub open spec fn seen_in(g: Seq<DedupFile>, hist: Seq<Seq<Vec<DedupFile>>>) -> bool {
    exists|h: int, i: int| 0 <= h < hist.len() && 0 <= i < hist[h].len() && hist[h][i]@ == g
}

proof fn lemma_history_grows(hist: Seq<Seq<Vec<DedupFile>>>, x: Seq<Vec<DedupFile>>)
    ensures
        forall|c: Vec<DedupFile>| from_history(c, hist) ==> #[trigger] from_history(c, hist.push(x)),
        forall|g: Seq<DedupFile>| seen_in(g, hist) ==> #[trigger] seen_in(g, hist.push(x)),
{
    assert forall|c: Vec<DedupFile>| from_history(c, hist) implies #[trigger] from_history(c, hist.push(x)) by {
        let (h, i) = choose|h: int, i: int| 0 <= h < hist.len() && 0 <= i < hist[h].len() && hist[h][i] == c;
        assert(hist.push(x)[h] == hist[h]);
    }
    assert forall|g: Seq<DedupFile>| seen_in(g, hist) implies #[trigger] seen_in(g, hist.push(x)) by {
        let (h, i) = choose|h: int, i: int| 0 <= h < hist.len() && 0 <= i < hist[h].len() && hist[h][i]@ == g;
        assert(hist.push(x)[h] == hist[h]);
    }
}

proof fn lemma_distinct_records(g: Seq<DedupFile>)
    requires
        ids_unique(views(g)),
    ensures
        g.no_duplicates(),
{
    assert forall|a: int, b: int| 0 <= a < g.len() && 0 <= b < g.len() && a != b implies g[a] != g[b] by {
        assert(views(g)[a].id() != views(g)[b].id());
    }
}

/// `x` is a member of some cluster of `cs`.
pub open spec fn in_some(cs: Seq<Vec<DedupFile>>, x: DedupFile) -> bool {
    exists|i: int| 0 <= i < cs.len() && (#[trigger] cs[i]@).contains(x)
}

/// Lazy clustering of candidate groups into groups of identical files.
///
/// Each candidate group is split by direct comparison: a candidate is
/// compared with the first member of each provisional cluster in turn and
/// joins the first that matches, or starts a new cluster. When the group is
/// used up, clusters of two or more members are handed out.
pub struct GroupByContentIter {
    input_queue: Vec<Vec<DedupFile>>,
    output_queue: Vec<Vec<DedupFile>>,
    candidates: Vec<DedupFile>,
    clusters: Vec<Vec<DedupFile>>,
    pending: Option<DedupFile>,
    probe: usize,
    log: Ghost<Seq<Answer>>,
    size: Ghost<u64>,
    bucket: Ghost<Seq<DedupFile>>,
    settled: Ghost<Seq<Vec<DedupFile>>>,
    settled_bucket: Ghost<Seq<DedupFile>>,
    inputs: Ghost<Seq<Seq<DedupFile>>>,
    emitted: Ghost<Seq<Seq<DedupFile>>>,
    history: Ghost<Seq<Seq<Vec<DedupFile>>>>,
    history_buckets: Ghost<Seq<Seq<DedupFile>>>,
    output_at: Ghost<Seq<(int, int)>>,
    emitted_at: Ghost<Seq<(int, int)>>,
}

impl GroupByContentIter {
    /// The comparison answers received so far, in order.
    pub closed spec fn answers(&self) -> Seq<Answer> {
        self.log@
    }

    /// The provisional clusters of the candidate group being split.
    pub closed spec fn clusters(&self) -> Seq<Seq<DedupFile>> {
        self.clusters@.map_values(|c: Vec<DedupFile>| c@)
    }

    /// The candidate being placed, if any.
    pub closed spec fn pending(&self) -> Option<DedupFile> {
        self.pending
    }

    /// The position of the next cluster the pending candidate is compared with.
    pub closed spec fn probe(&self) -> nat {
        self.probe as nat
    }

    /// The clusters of the candidate group split last, singletons included.
    pub closed spec fn settled(&self) -> Seq<Seq<DedupFile>> {
        self.settled@.map_values(|c: Vec<DedupFile>| c@)
    }

    /// The candidate groups the clustering was started with.
    pub closed spec fn inputs(&self) -> Seq<Seq<DedupFile>> {
        self.inputs@
    }

    /// The groups handed out so far, in order.
    pub closed spec fn emitted(&self) -> Seq<Seq<DedupFile>> {
        self.emitted@
    }

    /// The candidate groups split so far, the last taken first.
    pub closed spec fn split_groups(&self) -> Seq<Seq<DedupFile>> {
        self.history_buckets@
    }

    /// The clusters each of `split_groups()` was split into, singletons
    /// included.
    pub closed spec fn splits(&self) -> Seq<Seq<Seq<DedupFile>>> {
        self.history@.map_values(|cs: Seq<Vec<DedupFile>>| cs.map_values(|c: Vec<DedupFile>| c@))
    }

    /// For each group handed out, the split and cluster it is.
    pub closed spec fn emitted_at(&self) -> Seq<(int, int)> {
        self.emitted_at@
    }

    /// A candidate group is being split.
    pub closed spec fn active(&self) -> bool {
        self.candidates@.len() > 0 || self.pending is Some || self.clusters@.len() > 0
    }

    /// What is left to do on the group being split: each unplaced candidate
    /// weighs `2b + 2` for a group of `b`, and the pending one `b + 1` plus
    /// the clusters it has still to be compared with.
    pub closed spec fn work_left(&self) -> nat {
        let b = self.bucket@.len();
        let pend: nat = if self.pending is Some { (b + 1 + (b - self.probe)) as nat } else { 0 };
        (self.candidates@.len() * (2 * b + 2) + pend) as nat
    }

    /// The candidate group being split.
    pub closed spec fn bucket(&self) -> Seq<DedupFile> {
        self.bucket@
    }

    /// The candidate group split last.
    pub closed spec fn settled_bucket(&self) -> Seq<DedupFile> {
        self.settled_bucket@
    }

    /// No candidate is left to place in the group being split.
    pub closed spec fn group_settled(&self) -> bool {
        self.candidates@.len() == 0 && self.pending is None
    }

    /// A comparison has been asked for and not yet answered.
    pub closed spec fn awaiting(&self) -> bool {
        self.pending is Some && self.probe < self.clusters@.len()
    }

    /// The path being placed, and the first path of the cluster it is being
    /// compared with.
    pub closed spec fn question(&self) -> (Seq<char>, Seq<char>) {
        (self.pending->0@.key(), self.clusters@[self.probe as int]@[0]@.key())
    }

    /// The two records whose contents are to be compared.
    pub closed spec fn question_files(&self) -> (DedupFile, DedupFile) {
        (self.pending->0, self.clusters@[self.probe as int]@[0])
    }

    pub closed spec fn wf(&self) -> bool {
        &&& forall|i: int| 0 <= i < self.input_queue@.len() ==> all_wf(#[trigger] self.input_queue@[i]@)
        &&& forall|i: int| 0 <= i < self.input_queue@.len() ==> one_size(#[trigger] self.input_queue@[i]@)
        &&& all_wf(self.candidates@)
        &&& all_of_size(self.candidates@, self.size@)
        &&& forall|i: int| 0 <= i < self.clusters@.len() ==> all_of_size(#[trigger] self.clusters@[i]@, self.size@)
        &&& forall|i: int| 0 <= i < self.output_queue@.len() ==> {
            &&& confirmed_group(self.log@, #[trigger] self.output_queue@[i]@)
            &&& self.output_queue@[i]@.len() >= 2
        }
        &&& classes_ok(self.log@, self.clusters@)
        &&& within(self.clusters@, self.bucket@)
        &&& forall|i: int| 0 <= i < self.input_queue@.len() ==> (#[trigger] self.input_queue@[i])@.no_duplicates()
        &&& self.candidates@.no_duplicates()
        &&& forall|m: int| 0 <= m < self.candidates@.len() ==> outside(self.clusters@, #[trigger] self.candidates@[m])
        &&& self.pending matches Some(p) ==> !self.candidates@.contains(p) && outside(self.clusters@, p)
        &&& disjoint_clusters(self.clusters@)
        &&& self.clusters@.len() + self.candidates@.len() + (if self.pending is Some { 1int } else { 0int }) <= self.bucket@.len()
        &&& forall|i: int| 0 <= i < self.output_queue@.len() ==> from_history(#[trigger] self.output_queue@[i], self.history@)
        &&& self.output_at@.len() == self.output_queue@.len()
        &&& forall|t: int| 0 <= t < self.output_at@.len() ==> valid_at(self.history@, #[trigger] self.output_at@[t])
            && self.history@[self.output_at@[t].0][self.output_at@[t].1] == self.output_queue@[t]
        &&& self.emitted_at@.len() == self.emitted@.len()
        &&& forall|e: int| 0 <= e < self.emitted_at@.len() ==> valid_at(self.history@, #[trigger] self.emitted_at@[e])
            && self.history@[self.emitted_at@[e].0][self.emitted_at@[e].1]@ == self.emitted@[e]
        &&& (self.output_at@ + self.emitted_at@).no_duplicates()
        &&& forall|e: int| 0 <= e < self.emitted@.len() ==> seen_in(#[trigger] self.emitted@[e], self.history@)
            && self.emitted@[e].len() >= 2
        &&& disjoint_clusters(self.settled@)
        &&& forall|h: int| 0 <= h < self.history@.len() ==> disjoint_clusters(#[trigger] self.history@[h])
        &&& self.history@.len() == self.history_buckets@.len()
        &&& forall|h: int| 0 <= h < self.history@.len() ==> split_ok(self.log@, #[trigger] self.history@[h], self.history_buckets@[h])
        &&& forall|h: int| 0 <= h < self.history@.len() ==> handed(#[trigger] self.history@[h], self.output_queue@, self.emitted@)
        &&& self.inputs@ == self.input_queue@.map_values(|g: Vec<DedupFile>| g@)
            + (if self.active() { seq![self.bucket@] } else { Seq::empty() }) + self.history_buckets@.reverse()
        &&& within(self.settled@, self.settled_bucket@)
        &&& forall|m: int| 0 <= m < self.candidates@.len() ==> self.bucket@.contains(#[trigger] self.candidates@[m])
        &&& self.pending matches Some(p) ==> self.bucket@.contains(p)
        &&& forall|i: int| 0 <= i < self.settled@.len() && (#[trigger] self.settled@[i])@.len() >= 2 ==> (
            self.output_queue@.contains(self.settled@[i]) || self.emitted@.contains(self.settled@[i]@))
        &&& forall|i: int| 0 <= i < self.input_queue@.len() ==> self.inputs@.contains(#[trigger] self.input_queue@[i]@)
        &&& self.bucket@.len() == 0 || self.inputs@.contains(self.bucket@)
        &&& self.settled_bucket@.len() == 0 || self.inputs@.contains(self.settled_bucket@)
        &&& classes_ok(self.log@, self.settled@)
        &&& forall|k: int| 0 <= k < self.bucket@.len() ==> {
            ||| self.candidates@.contains(#[trigger] self.bucket@[k])
            ||| self.pending == Some(self.bucket@[k])
            ||| in_some(self.clusters@, self.bucket@[k])
        }
        &&& forall|k: int| 0 <= k < self.settled_bucket@.len() ==> in_some(self.settled@, #[trigger] self.settled_bucket@[k])
        &&& forall|i: int| 0 <= i < self.output_queue@.len() ==> is_one_of(#[trigger] self.output_queue@[i], self.settled@)
        &&& (self.candidates@.len() > 0 || self.pending is Some || self.clusters@.len() > 0) ==> self.output_queue@.len() == 0
        &&& self.pending matches Some(p) ==> {
            &&& p@.wf()
            &&& p.size == self.size@
            &&& self.probe <= self.clusters@.len()
            &&& forall|i: int| 0 <= i < self.probe ==>
                answered(self.log@, p@.key(), (#[trigger] self.clusters@[i]@)[0]@.key(), false)
        }
    }
}

impl GroupByContentIter {
    /// Nothing is left to cluster or to hand out.
    pub closed spec fn finished(&self) -> bool {
        &&& self.input_queue@.len() == 0
        &&& self.output_queue@.len() == 0
        &&& self.group_settled()
        &&& self.clusters@.len() == 0
    }

    /// Hands over the result of the comparison last asked for: whether the
    /// two files were found byte-for-byte equal. With no comparison pending
    /// nothing changes.
    pub fn answer(&mut self, equal: bool)
        requires
            old(self).wf(),
        ensures
            final(self).wf(),
            final(self).inputs() == old(self).inputs(),
            final(self).emitted() == old(self).emitted(),
            final(self).bucket() == old(self).bucket(),
            old(self).awaiting() ==> final(self).answers() == old(self).answers().push(
                (old(self).question().0, old(self).question().1, equal),
            ),
            old(self).awaiting() && equal ==> {
                &&& final(self).clusters() == old(self).clusters().update(
                    old(self).probe() as int,
                    old(self).clusters()[old(self).probe() as int].push(old(self).pending()->0),
                )
                &&& final(self).pending() is None
            },
            old(self).awaiting() ==> final(self).work_left() < old(self).work_left(),
            old(self).awaiting() && !equal ==> {
                &&& final(self).clusters() == old(self).clusters()
                &&& final(self).pending() == old(self).pending()
                &&& final(self).probe() == old(self).probe() + 1
            },
            !old(self).awaiting() ==> *final(self) == *old(self),
    {
        if self.pending.is_some() && self.probe < self.clusters.len() {
            let ghost q = self.question();
            let ghost old_log = self.log@;
            self.log = Ghost(self.log@.push((q.0, q.1, equal)));
            assert(answered(self.log@, q.0, q.1, equal)) by {
                assert(self.log@[old_log.len() as int] == (q.0, q.1, equal));
            }
            assert forall|a: Seq<char>, b: Seq<char>, e: bool| answered(old_log, a, b, e) implies answered(
                self.log@,
                a,
                b,
                e,
            ) by {
                let k = choose|k: int| 0 <= k < old_log.len() && old_log[k] == (a, b, e);
                assert(self.log@[k] == (a, b, e));
            }
            assert(classes_ok(self.log@, self.settled@));
            assert forall|h: int| 0 <= h < self.history@.len() implies split_ok(self.log@, #[trigger] self.history@[h], self.history_buckets@[h]) by {
                assert(split_ok(old_log, self.history@[h], self.history_buckets@[h]));
            }
            if equal {
                let p = self.pending.take().unwrap();
                let ghost old_clusters = self.clusters@;
                let mut c = self.clusters.remove(self.probe);
                let ghost oc = c@;
                c.push(p);
                let ghost nc = c@;
                self.clusters.insert(self.probe, c);
                assert(self.clusters@ =~= old_clusters.update(self.probe as int, self.clusters@[self.probe as int]));
                assert(self.clusters() =~= old_clusters.map_values(|c: Vec<DedupFile>| c@).update(
                    self.probe as int,
                    old_clusters[self.probe as int]@.push(p),
                ));
                assert(within(self.clusters@, self.bucket@)) by {
                    assert forall|i: int, m: int| 0 <= i < self.clusters@.len() && 0 <= m < self.clusters@[i]@.len() implies
                        self.bucket@.contains(#[trigger] self.clusters@[i]@[m]) by {
                        if i == self.probe {
                            if m < oc.len() {
                                assert(nc[m] == oc[m]);
                                assert(old_clusters[i]@[m] == oc[m]);
                            } else {
                                assert(nc[m] == p);
                            }
                        } else {
                            assert(self.clusters@[i] == old_clusters[i]);
                        }
                    }
                }
                assert(confirmed_group(self.log@, nc)) by {
                    assert forall|j: int| 1 <= j < nc.len() implies answered(
                        self.log@,
                        (#[trigger] nc[j])@.key(),
                        nc[0]@.key(),
                        true,
                    ) by {
                        if j < nc.len() - 1 {
                            assert(nc[j] == oc[j]);
                        }
                    }
                }
                proof {
                    assert forall|k: int| 0 <= k < self.bucket@.len() implies {
                        ||| self.candidates@.contains(#[trigger] self.bucket@[k])
                        ||| self.pending == Some(self.bucket@[k])
                        ||| in_some(self.clusters@, self.bucket@[k])
                    } by {
                        let x = self.bucket@[k];
                        if x == p {
                            assert(nc[nc.len() - 1] == p);
                            assert(self.clusters@[self.probe as int]@.contains(x));
                        } else if !self.candidates@.contains(x) {
                            assert(in_some(old_clusters, x));
                            let i = choose|i: int| 0 <= i < old_clusters.len() && (#[trigger] old_clusters[i]@).contains(x);
                            let m = choose|m: int| 0 <= m < old_clusters[i]@.len() && old_clusters[i]@[m] == x;
                            if i == self.probe {
                                assert(nc[m] == x);
                                assert(self.clusters@[i]@.contains(x));
                            } else {
                                assert(self.clusters@[i] == old_clusters[i]);
                            }
                        }
                    }
                }
                self.probe = 0;
            } else {
                self.probe = self.probe + 1;
            }
        }
    }

    /// The comparison that is pending, asked for again.
    fn question_step(&self) -> (r: ContentStep)
        requires
            self.wf(),
            self.awaiting(),
        ensures
            r matches ContentStep::Compare(a, b) && {
                &&& self.question_files().0 != self.question_files().1
                &&& forall|i: int| 0 <= i < self.settled().len() && (#[trigger] self.settled()[i]).len() >= 2
                    ==> self.emitted().contains(self.settled()[i])
                &&& (a@, b@) == self.question()
            },
    {
        let p = self.pending.as_ref().unwrap();
        let c = &self.clusters[self.probe];
        proof {
            assert(self.output_queue@.len() == 0);
            assert forall|i: int| 0 <= i < self.settled().len() && (#[trigger] self.settled()[i]).len() >= 2
                implies self.emitted().contains(self.settled()[i]) by {
                assert(self.settled()[i] == self.settled@[i]@);
                assert(!self.output_queue@.contains(self.settled@[i]));
            }
            assert(self.clusters@[self.probe as int]@[0] != *p);
        }
        let a = p.key_path().clone();
        let b = c[0].key_path().clone();
        ContentStep::Compare(a, b)
    }

    /// Does the work needed for the next step: hands out a confirmed group,
    /// asks for a comparison, or reports that all is done.
    pub fn next_step(&mut self) -> (r: ContentStep)
        requires
            old(self).wf(),
        ensures
            final(self).wf(),
            final(self).answers() == old(self).answers(),
            final(self).inputs() == old(self).inputs(),
            old(self).finished() ==> r is Done && *final(self) == *old(self),
            old(self).awaiting() ==> r is Compare && *final(self) == *old(self),
            !(r is Group) ==> final(self).emitted() == old(self).emitted(),
            r matches ContentStep::Compare(a, b) ==> {
                &&& final(self).inputs().contains(final(self).bucket())
                &&& final(self).bucket().contains(final(self).question_files().0)
                &&& final(self).bucket().contains(final(self).question_files().1)
                &&& final(self).awaiting()
                &&& final(self).question_files().0 != final(self).question_files().1
                &&& forall|i: int| 0 <= i < final(self).settled().len() && (#[trigger] final(self).settled()[i]).len() >= 2
                    ==> final(self).emitted().contains(final(self).settled()[i])
                &&& (a@, b@) == final(self).question()
                &&& final(self).question().0 == final(self).question_files().0@.key()
                &&& final(self).question().1 == final(self).question_files().1@.key()
                &&& final(self).question_files().0.size == final(self).question_files().1.size
            },
            r matches ContentStep::Group(g) ==> {
                &&& g@.len() >= 2
                &&& confirmed_group(final(self).answers(), g@)
                &&& exists|i: int| 0 <= i < final(self).settled().len() && final(self).settled()[i] == g@
                &&& forall|m: int| 0 <= m < g@.len() ==> final(self).settled_bucket().contains(#[trigger] g@[m])
                &&& final(self).inputs().contains(final(self).settled_bucket())
                &&& final(self).emitted() == old(self).emitted().push(g@)
                &&& exists|h: int, i: int| 0 <= h < final(self).splits().len() && 0 <= i < final(self).splits()[h].len()
                    && final(self).splits()[h][i] == g@
            },
            r is Done ==> final(self).finished(),
    {
        if self.input_queue.len() == 0 && self.output_queue.len() == 0 && self.candidates.len() == 0
            && self.pending.is_none() && self.clusters.len() == 0 {
            return ContentStep::Done;
        }
        if self.pending.is_some() && self.probe < self.clusters.len() {
            return self.question_step();
        }
        loop
            invariant
                self.wf(),
                self.log@ == old(self).log@,
                self.inputs@ == old(self).inputs@,
                self.emitted@ == old(self).emitted@,
                !old(self).finished(),
                !old(self).awaiting(),
            decreases
                self.input_queue@.len(),
                self.candidates@.len(),
                if self.pending is Some { 1int } else { 0int },
                self.clusters@.len(),
        {
            if self.pending.is_some() {
                if self.probe < self.clusters.len() {
                    return self.question_step();
                }
                let p = self.pending.take().unwrap();
                let mut c: Vec<DedupFile> = Vec::new();
                c.push(p);
                let ghost old_clusters = self.clusters@;
                self.clusters.push(c);
                assert forall|i: int, j: int| 0 <= i < j < self.clusters@.len() implies answered(
                    self.log@,
                    (#[trigger] self.clusters@[j]@)[0]@.key(),
                    (#[trigger] self.clusters@[i]@)[0]@.key(),
                    false,
                ) by {
                    if j == old_clusters.len() {
                        assert(self.clusters@[j]@[0] == p);
                    } else {
                        assert(self.clusters@[j] == old_clusters[j]);
                    }
                    assert(self.clusters@[i] == old_clusters[i]);
                }
                assert forall|i: int, m: int| 0 <= i < self.clusters@.len() && 0 <= m < self.clusters@[i]@.len() implies
                    self.bucket@.contains(#[trigger] self.clusters@[i]@[m]) by {
                    if i < old_clusters.len() {
                        assert(self.clusters@[i] == old_clusters[i]);
                    }
                }
                assert forall|k: int| 0 <= k < self.bucket@.len() implies {
                    ||| self.candidates@.contains(#[trigger] self.bucket@[k])
                    ||| self.pending == Some(self.bucket@[k])
                    ||| in_some(self.clusters@, self.bucket@[k])
                } by {
                    let x = self.bucket@[k];
                    if x == p {
                        assert(self.clusters@[old_clusters.len() as int]@[0] == x);
                        assert(self.clusters@[old_clusters.len() as int]@.contains(x));
                    } else if !self.candidates@.contains(x) {
                        let i = choose|i: int| 0 <= i < old_clusters.len() && (#[trigger] old_clusters[i]@).contains(x);
                        assert(self.clusters@[i] == old_clusters[i]);
                    }
                }
                self.probe = 0;
                assert(self.inputs@ =~= self.input_queue@.map_values(|g: Vec<DedupFile>| g@)
                    + (if self.active() { seq![self.bucket@] } else { Seq::empty() }) + self.history_buckets@.reverse());
            } else if self.candidates.len() > 0 {
                let ghost oc = self.candidates@;
                let p = self.candidates.pop().unwrap();
                assert(p@.wf());
                assert(p == oc[oc.len() - 1]);
                assert forall|m: int| 0 <= m < self.candidates@.len() implies self.bucket@.contains(#[trigger] self.candidates@[m]) by {
                    assert(self.candidates@[m] == oc[m]);
                }
                self.pending = Some(p);
                self.probe = 0;
                assert forall|k: int| 0 <= k < self.bucket@.len() implies {
                    ||| self.candidates@.contains(#[trigger] self.bucket@[k])
                    ||| self.pending == Some(self.bucket@[k])
                    ||| in_some(self.clusters@, self.bucket@[k])
                } by {
                    let x = self.bucket@[k];
                    if oc.contains(x) && x != p {
                        let m = choose|m: int| 0 <= m < oc.len() && oc[m] == x;
                        assert(self.candidates@[m] == x);
                    }
                }
                assert(self.inputs@ =~= self.input_queue@.map_values(|g: Vec<DedupFile>| g@)
                    + (if self.active() { seq![self.bucket@] } else { Seq::empty() }) + self.history_buckets@.reverse());
            } else if self.clusters.len() > 0 {
                let mut cs: Vec<Vec<DedupFile>> = Vec::new();
                std::mem::swap(&mut cs, &mut self.clusters);
                let ghost all = cs@;
                proof {
                    assert forall|k: int| 0 <= k < self.bucket@.len() implies in_some(all, #[trigger] self.bucket@[k]) by {
                        assert(!self.candidates@.contains(self.bucket@[k]));
                    }
                }
                let ghost ob = self.bucket@;
                let ghost oh = self.history@;
                let ghost ohb = self.history_buckets@;
                self.settled = Ghost(all);
                self.settled_bucket = Ghost(self.bucket@);
                proof {
                    lemma_history_grows(oh, all);
                }
                self.history = Ghost(self.history@.push(all));
                self.history_buckets = Ghost(self.history_buckets@.push(ob));
                self.bucket = Ghost(Seq::empty());
                assert(self.history_buckets@.reverse() =~= seq![ob] + ohb.reverse());
                let mut out: Vec<Vec<DedupFile>> = Vec::new();
                let ghost mut out_at: Seq<int> = Seq::empty();
                while cs.len() > 0
                    invariant
                        out_at.len() == out@.len(),
                        out_at.no_duplicates(),
                        forall|t: int| 0 <= t < out_at.len() ==> cs@.len() <= #[trigger] out_at[t] < all.len() && all[out_at[t]] == out@[t],
                        cs@.len() <= all.len(),
                        cs@ == all.subrange(0, cs@.len() as int),
                        classes_ok(self.log@, all),
                        forall|i: int| 0 <= i < out@.len() ==> (#[trigger] out@[i])@.len() >= 2,
                        forall|i: int| 0 <= i < out@.len() ==> is_one_of(#[trigger] out@[i], all),
                        forall|j: int| cs@.len() <= j < all.len() && (#[trigger] all[j])@.len() >= 2 ==> out@.contains(all[j]),
                    decreases cs@.len(),
                {
                    let ghost jb = cs@.len() - 1;
                    assert(cs@[jb] == all[jb]);
                    let c = cs.pop().unwrap();
                    assert(cs@ =~= all.subrange(0, cs@.len() as int));
                    let ghost o1 = out@;
                    if c.len() >= 2 {
                        let ghost o0 = out@;
                        let ghost a0 = out_at;
                        out.push(c);
                        proof {
                            out_at = out_at.push(jb);
                            assert forall|t: int| 0 <= t < out_at.len() implies cs@.len() <= #[trigger] out_at[t] < all.len() && all[out_at[t]] == out@[t] by {
                                if t < a0.len() {
                                    assert(out_at[t] == a0[t]);
                                    assert(out@[t] == o0[t]);
                                }
                            }
                        }
                        assert(out@[o0.len() as int] == all[jb]);
                        assert forall|j: int| cs@.len() <= j < all.len() && (#[trigger] all[j])@.len() >= 2 implies out@.contains(all[j]) by {
                            if j > jb {
                                let t = choose|t: int| 0 <= t < o0.len() && o0[t] == all[j];
                                assert(out@[t] == o0[t]);
                            }
                        }
                        assert forall|i: int| 0 <= i < out@.len() implies is_one_of(#[trigger] out@[i], all) by {
                            if i < o0.len() {
                                assert(out@[i] == o0[i]);
                            } else {
                                assert(out@[i] == all[jb]);
                            }
                        }
                    }
                }
                assert forall|i: int| 0 <= i < out@.len() implies confirmed_group(self.log@, #[trigger] out@[i]@) && out@[i]@.len() >= 2 by {
                    let j = choose|j: int| 0 <= j < all.len() && all[j] == out@[i];
                }
                self.output_queue = out;
                let ghost hl = oh.len() as int;
                let ghost new_at = Seq::new(out_at.len(), |t: int| (hl, out_at[t]));
                let ghost ea = self.emitted_at@;
                self.output_at = Ghost(new_at);
                proof {
                    assert(self.history@[hl] == all);
                    assert forall|t: int| 0 <= t < self.output_at@.len() implies valid_at(self.history@, #[trigger] self.output_at@[t])
                        && self.history@[self.output_at@[t].0][self.output_at@[t].1] == self.output_queue@[t] by {
                        assert(self.output_at@[t] == (hl, out_at[t]));
                    }
                    assert forall|e: int| 0 <= e < self.emitted_at@.len() implies valid_at(self.history@, #[trigger] self.emitted_at@[e])
                        && self.history@[self.emitted_at@[e].0][self.emitted_at@[e].1]@ == self.emitted@[e] by {
                        assert(self.history@[ea[e].0] == oh[ea[e].0]);
                    }
                    let comb = self.output_at@ + self.emitted_at@;
                    assert forall|a: int, b: int| 0 <= a < comb.len() && 0 <= b < comb.len() && a != b implies comb[a] != comb[b] by {
                        if a < new_at.len() && b < new_at.len() {
                            assert(out_at[a] != out_at[b]);
                        } else if a < new_at.len() {
                            assert(comb[b] == ea[b - new_at.len()]);
                        } else if b < new_at.len() {
                            assert(comb[a] == ea[a - new_at.len()]);
                        } else {
                            assert(comb[a] == ea[a - new_at.len()]);
                            assert(comb[b] == ea[b - new_at.len()]);
                        }
                    }
                }
                assert forall|i: int| 0 <= i < self.output_queue@.len() implies from_history(#[trigger] self.output_queue@[i], self.history@) by {
                    let j = choose|j: int| 0 <= j < all.len() && all[j] == self.output_queue@[i];
                    assert(self.history@[oh.len() as int] == all);
                }
                assert forall|h: int| 0 <= h < self.history@.len() implies split_ok(self.log@, #[trigger] self.history@[h], self.history_buckets@[h]) by {
                    if h < oh.len() {
                        assert(self.history@[h] == oh[h]);
                        assert(self.history_buckets@[h] == ohb[h]);
                    } else {
                        assert(self.history@[h] == all);
                        assert(self.history_buckets@[h] == ob);
                    }
                }
                assert forall|h: int| 0 <= h < self.history@.len() implies handed(#[trigger] self.history@[h], self.output_queue@, self.emitted@) by {
                    if h < oh.len() {
                        assert(self.history@[h] == oh[h]);
                    } else {
                        assert(self.history@[h] == all);
                    }
                }
                assert forall|i: int| 0 <= i < self.settled@.len() && (#[trigger] self.settled@[i])@.len() >= 2 implies (
                    self.output_queue@.contains(self.settled@[i]) || self.emitted@.contains(self.settled@[i]@)) by {
                    assert(self.settled@[i] == all[i]);
                }
                assert(self.clusters@.len() == 0);
                assert(classes_ok(self.log@, self.clusters@));
                assert(self.inputs@ =~= self.input_queue@.map_values(|g: Vec<DedupFile>| g@)
                    + (if self.active() { seq![self.bucket@] } else { Seq::empty() }) + self.history_buckets@.reverse());
                assert(classes_ok(self.log@, self.settled@));
                assert(forall|k: int| 0 <= k < self.settled_bucket@.len() ==> in_some(self.settled@, #[trigger] self.settled_bucket@[k]));
                assert(forall|i: int| 0 <= i < self.input_queue@.len() ==> all_wf(#[trigger] self.input_queue@[i]@));
                assert(forall|i: int| 0 <= i < self.input_queue@.len() ==> one_size(#[trigger] self.input_queue@[i]@));
            } else if self.output_queue.len() > 0 {
                let ghost oq = self.output_queue@;
                let g = self.output_queue.pop().unwrap();
                let ghost oe = self.emitted@;
                self.emitted = Ghost(self.emitted@.push(g@));
                let ghost oa = self.output_at@;
                let ghost ea = self.emitted_at@;
                let ghost x = oa[oa.len() - 1];
                self.output_at = Ghost(oa.drop_last());
                self.emitted_at = Ghost(ea.push(x));
                proof {
                    let comb0 = oa + ea;
                    let comb = self.output_at@ + self.emitted_at@;
                    let n = oa.len() as int;
                    assert forall|a: int| 0 <= a < comb.len() implies #[trigger] comb[a] == comb0[
                        if a < n - 1 { a } else if a < comb.len() - 1 { a + 1 } else { n - 1 }
                    ] by {
                        if a < n - 1 {
                            assert(comb[a] == oa[a]);
                        } else if a < comb.len() - 1 {
                            assert(comb[a] == ea[a - (n - 1)]);
                        } else {
                            assert(comb[a] == x);
                        }
                    }
                    assert forall|a: int, b: int| 0 <= a < comb.len() && 0 <= b < comb.len() && a != b implies comb[a] != comb[b] by {
                        let ma = if a < n - 1 { a } else if a < comb.len() - 1 { a + 1 } else { n - 1 };
                        let mb = if b < n - 1 { b } else if b < comb.len() - 1 { b + 1 } else { n - 1 };
                        assert(comb[a] == comb0[ma]);
                        assert(comb[b] == comb0[mb]);
                    }
                    assert(g == oq[oq.len() - 1]);
                    assert forall|t: int| 0 <= t < self.output_at@.len() implies valid_at(self.history@, #[trigger] self.output_at@[t])
                        && self.history@[self.output_at@[t].0][self.output_at@[t].1] == self.output_queue@[t] by {
                        assert(self.output_at@[t] == oa[t]);
                        assert(self.output_queue@[t] == oq[t]);
                    }
                    assert forall|e: int| 0 <= e < self.emitted_at@.len() implies valid_at(self.history@, #[trigger] self.emitted_at@[e])
                        && self.history@[self.emitted_at@[e].0][self.emitted_at@[e].1]@ == self.emitted@[e] by {
                        if e < ea.len() {
                            assert(self.emitted_at@[e] == ea[e]);
                            assert(self.emitted@[e] == oe[e]);
                        } else {
                            assert(self.emitted_at@[e] == oa[oa.len() - 1]);
                        }
                    }
                }
                proof {
                    assert(self.emitted@[oe.len() as int] == g@);
                    assert(from_history(g, self.history@));
                    let (gh, gi) = choose|h: int, i: int| 0 <= h < self.history@.len() && 0 <= i < self.history@[h].len()
                        && self.history@[h][i] == g;
                    assert(self.splits()[gh][gi] == g@);
                    assert forall|e: int| 0 <= e < self.emitted@.len() implies seen_in(#[trigger] self.emitted@[e], self.history@)
                        && self.emitted@[e].len() >= 2 by {
                        if e < oe.len() {
                            assert(self.emitted@[e] == oe[e]);
                        }
                    }
                    assert forall|i: int| 0 <= i < self.output_queue@.len() implies from_history(#[trigger] self.output_queue@[i], self.history@) by {
                        assert(self.output_queue@[i] == oq[i]);
                    }
                    assert forall|h: int| 0 <= h < self.history@.len() implies handed(#[trigger] self.history@[h], self.output_queue@, self.emitted@) by {
                        let cs = self.history@[h];
                        assert(handed(cs, oq, oe));
                        assert forall|i: int| 0 <= i < cs.len() && (#[trigger] cs[i])@.len() >= 2 implies
                            (self.output_queue@.contains(cs[i]) || self.emitted@.contains(cs[i]@)) by {
                            if oq.contains(cs[i]) {
                                let t = choose|t: int| 0 <= t < oq.len() && oq[t] == cs[i];
                                if t < oq.len() - 1 {
                                    assert(self.output_queue@[t] == oq[t]);
                                }
                            } else {
                                let t = choose|t: int| 0 <= t < oe.len() && oe[t] == cs[i]@;
                                assert(self.emitted@[t] == oe[t]);
                            }
                        }
                    }
                    assert forall|i: int| 0 <= i < self.settled@.len() && (#[trigger] self.settled@[i])@.len() >= 2 implies (
                        self.output_queue@.contains(self.settled@[i]) || self.emitted@.contains(self.settled@[i]@)) by {
                        if oq.contains(self.settled@[i]) {
                            let t = choose|t: int| 0 <= t < oq.len() && oq[t] == self.settled@[i];
                            if t < oq.len() - 1 {
                                assert(self.output_queue@[t] == oq[t]);
                            }
                        } else {
                            let t = choose|t: int| 0 <= t < oe.len() && oe[t] == self.settled@[i]@;
                            assert(self.emitted@[t] == oe[t]);
                        }
                    }
                    assert(g == oq[oq.len() - 1]);
                    assert(is_one_of(oq[oq.len() - 1], self.settled@));
                    let j = choose|j: int| 0 <= j < self.settled@.len() && self.settled@[j] == oq[oq.len() - 1];
                    assert(self.settled()[j] == g@);
                    assert forall|m: int| 0 <= m < g@.len() implies self.settled_bucket@.contains(#[trigger] g@[m]) by {
                        assert(self.settled@[j]@[m] == g@[m]);
                    }
                    assert forall|i: int| 0 <= i < self.output_queue@.len() implies is_one_of(#[trigger] self.output_queue@[i], self.settled@) by {
                        assert(self.output_queue@[i] == oq[i]);
                    }
                }
                return ContentStep::Group(g);
            } else if self.input_queue.len() > 0 {
                let ghost iq = self.input_queue@;
                let g = self.input_queue.pop().unwrap();
                assert(g == iq[iq.len() - 1]);
                assert(iq.map_values(|g: Vec<DedupFile>| g@) =~= self.input_queue@.map_values(|g: Vec<DedupFile>| g@).push(g@));
                let ghost oh = self.history@;
                let ghost ohb = self.history_buckets@;
                if g.len() == 0 {
                    proof {
                        lemma_history_grows(oh, Seq::empty());
                    }
                    self.history = Ghost(self.history@.push(Seq::empty()));
                    self.history_buckets = Ghost(self.history_buckets@.push(g@));
                    assert(self.history_buckets@.reverse() =~= seq![g@] + ohb.reverse());
                    assert forall|h: int| 0 <= h < self.history@.len() implies split_ok(self.log@, #[trigger] self.history@[h], self.history_buckets@[h]) by {
                        if h < oh.len() {
                            assert(self.history@[h] == oh[h]);
                            assert(self.history_buckets@[h] == ohb[h]);
                        }
                    }
                    assert forall|h: int| 0 <= h < self.history@.len() implies handed(#[trigger] self.history@[h], self.output_queue@, self.emitted@) by {
                        if h < oh.len() {
                            assert(self.history@[h] == oh[h]);
                        }
                    }
                }
                assert forall|i: int| 0 <= i < self.input_queue@.len() implies self.inputs@.contains(#[trigger] self.input_queue@[i]@) by {
                    assert(self.input_queue@[i] == iq[i]);
                }
                if g.len() > 0 {
                    self.size = Ghost(g[0].size);
                }
                self.bucket = Ghost(g@);
                self.candidates = g;
                assert forall|k: int| 0 <= k < self.bucket@.len() implies self.candidates@.contains(#[trigger] self.bucket@[k]) by {
                    assert(self.candidates@[k] == self.bucket@[k]);
                }
                assert forall|m: int| 0 <= m < self.candidates@.len() implies self.bucket@.contains(#[trigger] self.candidates@[m]) by {
                    assert(self.bucket@[m] == self.candidates@[m]);
                }
                assert(self.inputs@ =~= self.input_queue@.map_values(|g: Vec<DedupFile>| g@)
                    + (if self.active() { seq![self.bucket@] } else { Seq::empty() }) + self.history_buckets@.reverse());
            } else {
                return ContentStep::Done;
            }
        }
    }
}

proof fn lemma_classes(log: Seq<Answer>, cs: Seq<Vec<DedupFile>>, eq: spec_fn(Seq<char>, Seq<char>) -> bool)
    requires
        classes_ok(log, cs),
        is_equivalence(eq),
        answers_agree(log, eq),
    ensures
        forall|i: int, j: int, a: int, b: int|
            0 <= i < cs.len() && 0 <= j < cs.len() && 0 <= a < cs[i]@.len() && 0 <= b < cs[j]@.len() ==> (eq(
                #[trigger] cs[i]@[a]@.key(),
                #[trigger] cs[j]@[b]@.key(),
            ) <==> i == j),
{
    assert forall|i: int, a: int| 0 <= i < cs.len() && 0 <= a < cs[i]@.len() implies eq(
        #[trigger] cs[i]@[a]@.key(),
        cs[i]@[0]@.key(),
    ) by {
        assert(confirmed_group(log, cs[i]@));
        if a > 0 {
            assert(answered(log, cs[i]@[a]@.key(), cs[i]@[0]@.key(), true));
            let k = choose|k: int| 0 <= k < log.len() && log[k] == (cs[i]@[a]@.key(), cs[i]@[0]@.key(), true);
            assert(log[k].2 == eq(log[k].0, log[k].1));
        }
    }
    assert forall|i: int, j: int, a: int, b: int|
        0 <= i < cs.len() && 0 <= j < cs.len() && 0 <= a < cs[i]@.len() && 0 <= b < cs[j]@.len()
            implies (eq(#[trigger] cs[i]@[a]@.key(), #[trigger] cs[j]@[b]@.key()) <==> i == j) by {
        let x = cs[i]@[a]@.key();
        let y = cs[j]@[b]@.key();
        let hi = cs[i]@[0]@.key();
        let hj = cs[j]@[0]@.key();
        assert(eq(x, hi));
        assert(eq(y, hj));
        if i == j {
            assert(eq(hi, y));
            assert(eq(x, y));
        } else if eq(x, y) {
            assert(eq(hi, x));
            assert(eq(hi, y));
            assert(eq(hi, hj));
            let (lo, up) = if i < j { (i, j) } else { (j, i) };
            assert(answered(log, cs[up]@[0]@.key(), cs[lo]@[0]@.key(), false));
            let k = choose|k: int| 0 <= k < log.len() && log[k] == (cs[up]@[0]@.key(), cs[lo]@[0]@.key(), false);
            assert(log[k].2 == eq(log[k].0, log[k].1));
            assert(eq(hj, hi));
        }
    }
}

/// Once the answers received agree with an equivalence on paths (as content
/// equality is), the clusters into which the last candidate group was split
/// are exactly its classes: they hold only files of that group, every file of
/// the group lies in one of them, equivalent files are never split apart, and
/// differing files are never put together. The groups handed out are those of
/// these clusters that have two or more members, and once the work is
/// finished all of them have been handed out.
pub proof fn lemma_settled_clusters_are_classes(
    it: &GroupByContentIter,
    eq: spec_fn(Seq<char>, Seq<char>) -> bool,
)
    requires
        it.wf(),
        is_equivalence(eq),
        answers_agree(it.answers(), eq),
    ensures
        it.settled_bucket().len() == 0 || it.inputs().contains(it.settled_bucket()),
        forall|i: int, m: int| 0 <= i < it.settled().len() && 0 <= m < it.settled()[i].len() ==>
            it.settled_bucket().contains(#[trigger] it.settled()[i][m]),
        forall|i: int| 0 <= i < it.settled().len() && (#[trigger] it.settled()[i]).len() >= 2 && it.finished() ==>
            it.emitted().contains(it.settled()[i]),
        forall|k: int| 0 <= k < it.settled_bucket().len() ==> member_of_some(it.settled(), #[trigger] it.settled_bucket()[k]),
        forall|i: int, j: int, a: int, b: int|
            0 <= i < it.settled().len() && 0 <= j < it.settled().len()
                && 0 <= a < it.settled()[i].len() && 0 <= b < it.settled()[j].len() ==> (eq(
                #[trigger] it.settled()[i][a]@.key(),
                #[trigger] it.settled()[j][b]@.key(),
            ) <==> i == j),
{
    lemma_classes(it.answers(), it.settled@, eq);
    let cs = it.settled@;
    assert forall|i: int, m: int| 0 <= i < it.settled().len() && 0 <= m < it.settled()[i].len() implies
        it.settled_bucket().contains(#[trigger] it.settled()[i][m]) by {
        assert(it.settled()[i] == cs[i]@);
        assert(cs[i]@[m] == it.settled()[i][m]);
    }
    assert forall|i: int| 0 <= i < it.settled().len() && (#[trigger] it.settled()[i]).len() >= 2 && it.finished() implies
        it.emitted().contains(it.settled()[i]) by {
        assert(it.settled()[i] == cs[i]@);
        assert(cs[i]@.len() >= 2);
        assert(!it.output_queue@.contains(cs[i]));
    }
    assert forall|k: int| 0 <= k < it.settled_bucket().len() implies member_of_some(it.settled(), #[trigger] it.settled_bucket()[k]) by {
        let x = it.settled_bucket()[k];
        assert(x == it.settled_bucket@[k]);
        assert(in_some(it.settled@, it.settled_bucket@[k]));
        assert(in_some(cs, x));
        let i = choose|i: int| 0 <= i < cs.len() && (#[trigger] cs[i]@).contains(x);
        assert(it.settled()[i] == cs[i]@);
        assert(it.settled()[i].contains(x));
    }
    assert forall|i: int, j: int, a: int, b: int|
        0 <= i < it.settled().len() && 0 <= j < it.settled().len()
            && 0 <= a < it.settled()[i].len() && 0 <= b < it.settled()[j].len() implies (eq(
            #[trigger] it.settled()[i][a]@.key(),
            #[trigger] it.settled()[j][b]@.key(),
        ) <==> i == j) by {
        assert(it.settled()[i] == cs[i]@);
        assert(it.settled()[j] == cs[j]@);
    }
}

/// A finished run, when the answers received agree with an equivalence on
/// paths (as content equality is): every input group was split; each split
/// holds exactly the files of its group; two files of a group share a
/// cluster exactly when they are equivalent; and every cluster of two or
/// more has been handed out. The clusters of a split hold each file of its
/// group exactly once, in exactly one cluster; every group handed out is one
/// of these clusters, and none is handed out twice. So equal files are
/// always reported together, differing files never, and a file equal to no
/// other is never reported.
pub proof fn lemma_finished_run(it: &GroupByContentIter, eq: spec_fn(Seq<char>, Seq<char>) -> bool)
    requires
        it.wf(),
        it.finished(),
        is_equivalence(eq),
        answers_agree(it.answers(), eq),
    ensures
        it.split_groups().reverse() == it.inputs(),
        it.splits().len() == it.split_groups().len(),
        forall|h: int, i: int, m: int| 0 <= h < it.splits().len() && 0 <= i < it.splits()[h].len() && 0 <= m < it.splits()[h][i].len()
            ==> it.split_groups()[h].contains(#[trigger] it.splits()[h][i][m]),
        forall|h: int, k: int| 0 <= h < it.splits().len() && 0 <= k < it.split_groups()[h].len()
            ==> member_of_some(it.splits()[h], #[trigger] it.split_groups()[h][k]),
        forall|h: int, i: int, j: int, a: int, b: int|
            0 <= h < it.splits().len() && 0 <= i < it.splits()[h].len() && 0 <= j < it.splits()[h].len()
                && 0 <= a < it.splits()[h][i].len() && 0 <= b < it.splits()[h][j].len() ==> (eq(
                #[trigger] it.splits()[h][i][a]@.key(),
                #[trigger] it.splits()[h][j][b]@.key(),
            ) <==> i == j),
        forall|h: int, i: int| 0 <= h < it.splits().len() && 0 <= i < it.splits()[h].len()
            && (#[trigger] it.splits()[h][i]).len() >= 2 ==> it.emitted().contains(it.splits()[h][i]),
        forall|h: int, i: int| 0 <= h < it.splits().len() && 0 <= i < it.splits()[h].len()
            ==> (#[trigger] it.splits()[h][i]).no_duplicates(),
        forall|h: int, i: int, j: int, a: int, b: int|
            0 <= h < it.splits().len() && 0 <= i < it.splits()[h].len() && 0 <= j < it.splits()[h].len() && i != j
                && 0 <= a < it.splits()[h][i].len() && 0 <= b < it.splits()[h][j].len()
                ==> #[trigger] it.splits()[h][i][a] != #[trigger] it.splits()[h][j][b],
        forall|e: int| 0 <= e < it.emitted().len() ==> (#[trigger] it.emitted()[e]).len() >= 2 && exists|h: int, i: int|
            0 <= h < it.splits().len() && 0 <= i < it.splits()[h].len() && it.splits()[h][i] == it.emitted()[e],
        it.emitted_at().len() == it.emitted().len(),
        it.emitted_at().no_duplicates(),
        forall|e: int| 0 <= e < it.emitted_at().len() ==> {
            let at = #[trigger] it.emitted_at()[e];
            &&& 0 <= at.0 < it.splits().len()
            &&& 0 <= at.1 < it.splits()[at.0].len()
            &&& it.splits()[at.0][at.1] == it.emitted()[e]
        },
{
    let hs = it.history@;
    let hb = it.history_buckets@;
    assert(it.output_at@ + it.emitted_at@ =~= it.emitted_at@);
    assert forall|e: int| 0 <= e < it.emitted_at().len() implies {
        let at = #[trigger] it.emitted_at()[e];
        &&& 0 <= at.0 < it.splits().len()
        &&& 0 <= at.1 < it.splits()[at.0].len()
        &&& it.splits()[at.0][at.1] == it.emitted()[e]
    } by {
        let at = it.emitted_at@[e];
        assert(valid_at(hs, at));
        assert(it.splits()[at.0] == hs[at.0].map_values(|c: Vec<DedupFile>| c@));
        assert(it.splits()[at.0][at.1] == hs[at.0][at.1]@);
    }
    assert forall|h: int, i: int| 0 <= h < it.splits().len() && 0 <= i < it.splits()[h].len()
        implies (#[trigger] it.splits()[h][i]).no_duplicates() by {
        assert(it.splits()[h][i] == hs[h][i]@);
        assert(disjoint_clusters(hs[h]));
    }
    assert forall|h: int, i: int, j: int, a: int, b: int|
        0 <= h < it.splits().len() && 0 <= i < it.splits()[h].len() && 0 <= j < it.splits()[h].len() && i != j
            && 0 <= a < it.splits()[h][i].len() && 0 <= b < it.splits()[h][j].len()
            implies #[trigger] it.splits()[h][i][a] != #[trigger] it.splits()[h][j][b] by {
        assert(it.splits()[h][i] == hs[h][i]@);
        assert(it.splits()[h][j] == hs[h][j]@);
        assert(disjoint_clusters(hs[h]));
    }
    assert forall|e: int| 0 <= e < it.emitted().len() implies (#[trigger] it.emitted()[e]).len() >= 2 && exists|h: int, i: int|
        0 <= h < it.splits().len() && 0 <= i < it.splits()[h].len() && it.splits()[h][i] == it.emitted()[e] by {
        assert(seen_in(it.emitted@[e], hs));
        let (h, i) = choose|h: int, i: int| 0 <= h < hs.len() && 0 <= i < hs[h].len() && hs[h][i]@ == it.emitted@[e];
        assert(it.splits()[h][i] == hs[h][i]@);
    }
    assert(it.input_queue@.map_values(|g: Vec<DedupFile>| g@) =~= Seq::<Seq<DedupFile>>::empty());
    assert(it.inputs@ =~= hb.reverse());
    assert forall|h: int, i: int, m: int| 0 <= h < it.splits().len() && 0 <= i < it.splits()[h].len() && 0 <= m < it.splits()[h][i].len()
        implies it.split_groups()[h].contains(#[trigger] it.splits()[h][i][m]) by {
        assert(it.splits()[h] == hs[h].map_values(|c: Vec<DedupFile>| c@));
        assert(split_ok(it.log@, hs[h], hb[h]));
        assert(it.splits()[h][i] == hs[h][i]@);
        assert(hs[h][i]@[m] == it.splits()[h][i][m]);
    }
    assert forall|h: int, k: int| 0 <= h < it.splits().len() && 0 <= k < it.split_groups()[h].len()
        implies member_of_some(it.splits()[h], #[trigger] it.split_groups()[h][k]) by {
        assert(it.splits()[h] == hs[h].map_values(|c: Vec<DedupFile>| c@));
        assert(split_ok(it.log@, hs[h], hb[h]));
        assert(in_some(hs[h], hb[h][k]));
        let i = choose|i: int| 0 <= i < hs[h].len() && (#[trigger] hs[h][i]@).contains(hb[h][k]);
        assert(it.splits()[h][i] == hs[h][i]@);
    }
    assert forall|h: int, i: int, j: int, a: int, b: int|
        0 <= h < it.splits().len() && 0 <= i < it.splits()[h].len() && 0 <= j < it.splits()[h].len()
            && 0 <= a < it.splits()[h][i].len() && 0 <= b < it.splits()[h][j].len() implies (eq(
            #[trigger] it.splits()[h][i][a]@.key(),
            #[trigger] it.splits()[h][j][b]@.key(),
        ) <==> i == j) by {
        assert(it.splits()[h] == hs[h].map_values(|c: Vec<DedupFile>| c@));
        assert(split_ok(it.log@, hs[h], hb[h]));
        lemma_classes(it.log@, hs[h], eq);
        assert(it.splits()[h][i] == hs[h][i]@);
        assert(it.splits()[h][j] == hs[h][j]@);
    }
    assert forall|h: int, i: int| 0 <= h < it.splits().len() && 0 <= i < it.splits()[h].len()
        && (#[trigger] it.splits()[h][i]).len() >= 2 implies it.emitted().contains(it.splits()[h][i]) by {
        assert(it.splits()[h] == hs[h].map_values(|c: Vec<DedupFile>| c@));
        assert(it.splits()[h][i] == hs[h][i]@);
        assert(handed(hs[h], it.output_queue@, it.emitted@));
        assert(!it.output_queue@.contains(hs[h][i]));
    }
}

/// Starts clustering `groups_by_size`; each group holds distinct physical
/// files of one size.
pub fn group_by_content(groups_by_size: Vec<Vec<DedupFile>>) -> (r: GroupByContentIter)
    requires
        forall|i: int| 0 <= i < groups_by_size@.len() ==> all_wf(#[trigger] groups_by_size@[i]@),
        forall|i: int| 0 <= i < groups_by_size@.len() ==> one_size(#[trigger] groups_by_size@[i]@),
        forall|i: int| 0 <= i < groups_by_size@.len() ==> ids_unique(views(#[trigger] groups_by_size@[i]@)),
    ensures
        r.wf(),
        r.answers() == Seq::<Answer>::empty(),
        r.clusters() == Seq::<Seq<DedupFile>>::empty(),
        r.inputs() == groups_by_size@.map_values(|g: Vec<DedupFile>| g@),
        r.emitted() == Seq::<Seq<DedupFile>>::empty(),
        r.finished() <==> groups_by_size@.len() == 0,
{
    let r = GroupByContentIter {
        input_queue: groups_by_size,
        output_queue: Vec::new(),
        candidates: Vec::new(),
        clusters: Vec::new(),
        pending: None,
        probe: 0,
        log: Ghost(Seq::empty()),
        size: Ghost(0),
        bucket: Ghost(Seq::empty()),
        settled: Ghost(Seq::empty()),
        settled_bucket: Ghost(Seq::empty()),
        inputs: Ghost(groups_by_size@.map_values(|g: Vec<DedupFile>| g@)),
        emitted: Ghost(Seq::empty()),
        history: Ghost(Seq::empty()),
        history_buckets: Ghost(Seq::empty()),
        output_at: Ghost(Seq::empty()),
        emitted_at: Ghost(Seq::empty()),
    };
    assert(r.clusters() =~= Seq::<Seq<DedupFile>>::empty());
    assert(r.output_at@ + r.emitted_at@ =~= Seq::<(int, int)>::empty());
    assert forall|i: int| 0 <= i < r.input_queue@.len() implies (#[trigger] r.input_queue@[i])@.no_duplicates() by {
        lemma_distinct_records(r.input_queue@[i]@);
    }
    assert(r.inputs@ =~= r.input_queue@.map_values(|g: Vec<DedupFile>| g@)
        + (if r.active() { seq![r.bucket@] } else { Seq::empty() }) + r.history_buckets@.reverse());
    assert forall|i: int| 0 <= i < r.input_queue@.len() implies r.inputs@.contains(#[trigger] r.input_queue@[i]@) by {
        assert(r.inputs@[i] == r.input_queue@[i]@);
    }
    r
}

} // verus!

verus! {

/// The verdict on one pair of chunks read in lockstep from two files.
#[derive(Debug, Clone, Copy, PartialEq, Eq, Structural)]
pub enum ChunkVerdict {
    /// The chunks differ in length or content: the files differ.
    Differ,
    /// The chunks agree and are short: both files ended, equal.
    Same,
    /// The chunks agree and are full: read the next pair.
    Continue,
}

/// Judges the chunks `a` and `b` just read from two files into buffers of
/// `chunk_len` bytes.
pub fn compare_chunks(a: &[u8], b: &[u8], chunk_len: usize) -> (r: ChunkVerdict)
    ensures
        r == (if a@ != b@ {
            ChunkVerdict::Differ
        } else if a@.len() < chunk_len {
            ChunkVerdict::Same
        } else {
            ChunkVerdict::Continue
        }),
{
    if a.len() != b.len() {
        return ChunkVerdict::Differ;
    }
    let mut i: usize = 0;
    while i < a.len()
        invariant
            a@.len() == b@.len(),
            i <= a@.len(),
            forall|j: int| 0 <= j < i ==> a@[j] == b@[j],
        decreases a@.len() - i,
    {
        if a[i] != b[i] {
            return ChunkVerdict::Differ;
        }
        i = i + 1;
    }
    assert(a@ =~= b@);
    if a.len() < chunk_len {
        ChunkVerdict::Same
    } else {
        ChunkVerdict::Continue
    }
}

} // verus!
