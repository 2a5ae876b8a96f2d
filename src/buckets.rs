use std::collections::HashMap;

use vstd::prelude::*;

use crate::consolidate::views;
use crate::record::{DedupFile, FileView};

verus! {

/// The records of `s` of exactly `size` bytes, in order.
pub open spec fn of_size(s: Seq<FileView>, size: u64) -> Seq<FileView>
    decreases s.len(),
{
    if s.len() == 0 {
        Seq::empty()
    } else if s.last().size == size {
        of_size(s.drop_last(), size).push(s.last())
    } else {
        of_size(s.drop_last(), size)
    }
}

/// `b` is the bucket of its size in `all`: every record of that size, in
/// order, and nothing else.
pub open spec fn is_bucket_of(b: Seq<FileView>, all: Seq<FileView>) -> bool {
    b.len() > 0 && b == of_size(all, b[0].size)
}

proof fn lemma_of_size_empty(s: Seq<FileView>, size: u64)
    requires
        forall|i: int| 0 <= i < s.len() ==> (#[trigger] s[i]).size != size,
    ensures
        of_size(s, size) == Seq::<FileView>::empty(),
    decreases s.len(),
{
    if s.len() > 0 {
        lemma_of_size_empty(s.drop_last(), size);
    }
}

fn into_reversed<T>(v: Vec<T>) -> (r: Vec<T>)
    ensures
        r@ == v@.reverse(),
{
    let mut rest = v;
    let mut r: Vec<T> = Vec::new();
    while rest.len() > 0
        invariant
            rest@ + r@.reverse() == v@,
        decreases rest@.len(),
    {
        let ghost r0 = rest@;
        let ghost v0 = r@;
        let x = rest.pop().unwrap();
        r.push(x);
        assert(r@.reverse() =~= seq![x] + v0.reverse());
        assert(rest@ + r@.reverse() =~= r0 + v0.reverse());
    }
    assert(r@.reverse().reverse() =~= r@);
    assert(r@ =~= v@.reverse());
    r
}

/// `bs` holds one bucket for each size that occurs in `done`.
pub open spec fn buckets_of(bs: Seq<Vec<DedupFile>>, done: Seq<FileView>) -> bool {
    &&& forall|i: int| 0 <= i < bs.len() ==> (#[trigger] bs[i]@).len() > 0
    &&& forall|i: int| 0 <= i < bs.len() ==> #[trigger] is_bucket_of(views(bs[i]@), done)
    &&& forall|i: int, j: int| 0 <= i < j < bs.len() ==> (#[trigger] bs[i]@)[0].size != (#[trigger] bs[j]@)[0].size
    &&& forall|k: int| 0 <= k < done.len() ==> exists|i: int| 0 <= i < bs.len() && (#[trigger] bs[i]@)[0].size == (#[trigger] done[k]).size
}

proof fn lemma_of_size_push(s: Seq<FileView>, f: FileView, size: u64)
    ensures
        of_size(s.push(f), size) == (if f.size == size { of_size(s, size).push(f) } else { of_size(s, size) }),
{
    assert(s.push(f).drop_last() =~= s);
}

/// `index` maps each size to the position of its bucket.
pub open spec fn indexes(index: Map<u64, usize>, bs: Seq<Vec<DedupFile>>) -> bool {
    &&& forall|s: u64| #[trigger] index.contains_key(s) ==> index[s] < bs.len() && bs[index[s] as int]@[0].size == s
    &&& forall|i: int| 0 <= i < bs.len() ==> index.contains_key((#[trigger] bs[i]@)[0].size)
}

/// Puts `f` into the bucket of its size, or into a new bucket.
fn place(
    buckets: &mut Vec<Vec<DedupFile>>,
    index: &mut HashMap<u64, usize>,
    f: DedupFile,
    Ghost(done): Ghost<Seq<FileView>>,
)
    requires
        buckets_of(old(buckets)@, done),
        indexes(old(index)@, old(buckets)@),
    ensures
        buckets_of(final(buckets)@, done.push(f@)),
        indexes(final(index)@, final(buckets)@),
{
    broadcast use vstd::std_specs::hash::group_hash_axioms;

    let ghost fv = f@;
    let ghost nd = done.push(fv);
    let n = buckets.len();
    let size = f.size;
    let found = match index.get(&f.size) {
        Some(i) => Some(*i),
        None => None,
    };
    let ghost ob = buckets@;
    if let Some(i) = found {
        assert(buckets@[i as int]@[0].size == f.size);
        let mut b = buckets.remove(i);
        let ghost bv = b@;
        b.push(f);
        let ghost nb = b@;
        buckets.insert(i, b);
        proof {
            assert(buckets@[i as int]@ == nb);
            assert(buckets@ =~= ob.update(i as int, buckets@[i as int]));
            assert forall|j: int| 0 <= j < buckets@.len() implies #[trigger] is_bucket_of(views(buckets@[j]@), nd) by {
                assert(is_bucket_of(views(ob[j]@), done));
                lemma_of_size_push(done, fv, ob[j]@[0].size);
                assert(views(ob[j]@)[0] == ob[j]@[0]@);
                if j != i {
                    assert(buckets@[j] == ob[j]);
                } else {
                    assert(views(nb) =~= views(bv).push(fv));
                    assert(views(nb)[0] == bv[0]@);
                }
            }
            assert forall|k: int| 0 <= k < nd.len() implies exists|j: int| 0 <= j < buckets@.len() && (#[trigger] buckets@[j]@)[0].size == (#[trigger] nd[k]).size by {
                if k < done.len() {
                    assert(nd[k] == done[k]);
                    let j = choose|j: int| 0 <= j < ob.len() && (#[trigger] ob[j]@)[0].size == (#[trigger] done[k]).size;
                    assert(buckets@[j]@[0] == ob[j]@[0]);
                } else {
                    assert(buckets@[i as int]@[0] == bv[0]);
                }
            }
            assert forall|a: int, c: int| 0 <= a < c < buckets@.len() implies (#[trigger] buckets@[a]@)[0].size != (#[trigger] buckets@[c]@)[0].size by {
                assert(buckets@[a]@[0] == ob[a]@[0]);
                assert(buckets@[c]@[0] == ob[c]@[0]);
            }
        }
        proof {
            assert forall|j: int| 0 <= j < buckets@.len() implies index@.contains_key((#[trigger] buckets@[j]@)[0].size) by {
                assert(buckets@[j]@[0] == ob[j]@[0]);
            }
            assert forall|s: u64| #[trigger] index@.contains_key(s) implies index@[s] < buckets@.len() && buckets@[index@[s] as int]@[0].size == s by {
                assert(buckets@[index@[s] as int]@[0] == ob[index@[s] as int]@[0]);
            }
        }
    } else {
        proof {
            assert forall|k: int| 0 <= k < done.len() implies (#[trigger] done[k]).size != fv.size by {
                let j = choose|j: int| 0 <= j < ob.len() && (#[trigger] ob[j]@)[0].size == (#[trigger] done[k]).size;
                assert(index@.contains_key(ob[j]@[0].size));
            }
            lemma_of_size_empty(done, fv.size);
            lemma_of_size_push(done, fv, fv.size);
        }
        let mut b: Vec<DedupFile> = Vec::new();
        b.push(f);
        let ghost nb = b@;
        buckets.push(b);
        proof {
            assert(buckets@[n as int]@ == nb);
            assert(views(nb) =~= seq![fv]);
            assert(of_size(nd, fv.size) =~= seq![fv]);
            assert forall|j: int| 0 <= j < buckets@.len() implies #[trigger] is_bucket_of(views(buckets@[j]@), nd) by {
                if j < n {
                    assert(buckets@[j] == ob[j]);
                    assert(is_bucket_of(views(ob[j]@), done));
                    lemma_of_size_push(done, fv, ob[j]@[0].size);
                    assert(views(ob[j]@)[0] == ob[j]@[0]@);
                }
            }
            assert forall|k: int| 0 <= k < nd.len() implies exists|j: int| 0 <= j < buckets@.len() && (#[trigger] buckets@[j]@)[0].size == (#[trigger] nd[k]).size by {
                if k < done.len() {
                    assert(nd[k] == done[k]);
                    let j = choose|j: int| 0 <= j < ob.len() && (#[trigger] ob[j]@)[0].size == (#[trigger] done[k]).size;
                    assert(buckets@[j] == ob[j]);
                } else {
                    assert(buckets@[n as int]@[0] == f);
                }
            }
            assert forall|a: int, c: int| 0 <= a < c < buckets@.len() implies (#[trigger] buckets@[a]@)[0].size != (#[trigger] buckets@[c]@)[0].size by {
                assert(buckets@[a] == ob[a]);
                if c < n {
                    assert(buckets@[c] == ob[c]);
                } else {
                    assert(index@.contains_key(ob[a]@[0].size));
                }
            }
        }
        let ghost oi = index@;
        index.insert(size, n);
        proof {
            assert forall|j: int| 0 <= j < buckets@.len() implies index@.contains_key((#[trigger] buckets@[j]@)[0].size) by {
                if j < n {
                    assert(buckets@[j] == ob[j]);
                    assert(oi.contains_key(ob[j]@[0].size));
                }
            }
            assert forall|s: u64| #[trigger] index@.contains_key(s) implies index@[s] < buckets@.len() && buckets@[index@[s] as int]@[0].size == s by {
                if s != fv.size {
                    assert(oi.contains_key(s));
                    assert(buckets@[oi[s] as int] == ob[oi[s] as int]);
                }
            }
        }
    }
}

/// Keeps the buckets of two or more records.
#[verifier::rlimit(40)]
fn keep_peers(buckets: Vec<Vec<DedupFile>>, Ghost(all): Ghost<Seq<FileView>>) -> (r: Vec<Vec<DedupFile>>)
    requires
        buckets_of(buckets@, all),
    ensures
        forall|i: int| 0 <= i < r@.len() ==> #[trigger] is_bucket_of(views(r@[i]@), all),
        forall|i: int| 0 <= i < r@.len() ==> (#[trigger] r@[i]@).len() >= 2,
        forall|i: int, j: int| 0 <= i < j < r@.len() ==> (#[trigger] r@[i]@)[0].size != (#[trigger] r@[j]@)[0].size,
        forall|j: int| 0 <= j < buckets@.len() && (#[trigger] buckets@[j]@).len() >= 2 ==> exists|i: int|
            0 <= i < r@.len() && (#[trigger] r@[i]) == buckets@[j],
{
    let ghost all_buckets = buckets@;
    let mut rest = buckets;
    let mut result: Vec<Vec<DedupFile>> = Vec::new();
    while rest.len() > 0
        invariant
            rest@.len() <= all_buckets.len(),
            rest@ == all_buckets.subrange(0, rest@.len() as int),
            forall|i: int| 0 <= i < all_buckets.len() ==> #[trigger] is_bucket_of(views(all_buckets[i]@), all),
            forall|i: int, j: int| 0 <= i < j < all_buckets.len() ==> (#[trigger] all_buckets[i]@)[0].size != (#[trigger] all_buckets[j]@)[0].size,
            forall|i: int| 0 <= i < result@.len() ==> #[trigger] is_bucket_of(views(result@[i]@), all),
            forall|i: int| 0 <= i < result@.len() ==> (#[trigger] result@[i]@).len() >= 2,
            forall|i: int, j: int| 0 <= i < j < result@.len() ==> (#[trigger] result@[i]@)[0].size != (#[trigger] result@[j]@)[0].size,
            forall|i: int| 0 <= i < result@.len() ==> exists|j: int| rest@.len() <= j < all_buckets.len() && (#[trigger] result@[i]) == (#[trigger] all_buckets[j]),
            forall|j: int| rest@.len() <= j < all_buckets.len() && (#[trigger] all_buckets[j]@).len() >= 2 ==> exists|i: int| 0 <= i < result@.len() && (#[trigger] result@[i]) == all_buckets[j],
        decreases rest@.len(),
    {
        let ghost r0 = result@;
        let ghost jb = rest@.len() - 1;
        assert(rest@[jb] == all_buckets[jb]);
        let b = rest.pop().unwrap();
        assert(rest@ =~= all_buckets.subrange(0, rest@.len() as int));
        if b.len() >= 2 {
            result.push(b);
            proof {
                assert(result@[r0.len() as int] == all_buckets[jb]);
                assert forall|i: int, j: int| 0 <= i < j < result@.len() implies (#[trigger] result@[i]@)[0].size != (#[trigger] result@[j]@)[0].size by {
                    if j == r0.len() {
                        assert(result@[i] == r0[i]);
                        let a = choose|a: int| jb + 1 <= a < all_buckets.len() && (#[trigger] r0[i]) == (#[trigger] all_buckets[a]);
                        assert(result@[i] == all_buckets[a]);
                    } else {
                        assert(result@[i] == r0[i]);
                        assert(result@[j] == r0[j]);
                    }
                }
                assert forall|i: int| 0 <= i < result@.len() implies exists|j: int| rest@.len() <= j < all_buckets.len() && (#[trigger] result@[i]) == (#[trigger] all_buckets[j]) by {
                    if i < r0.len() {
                        assert(result@[i] == r0[i]);
                        let j = choose|j: int| jb + 1 <= j < all_buckets.len() && (#[trigger] r0[i]) == (#[trigger] all_buckets[j]);
                    } else {
                        assert(result@[i] == all_buckets[jb]);
                    }
                }
                assert forall|j: int| rest@.len() <= j < all_buckets.len() && (#[trigger] all_buckets[j]@).len() >= 2 implies exists|i: int| 0 <= i < result@.len() && (#[trigger] result@[i]) == all_buckets[j] by {
                    if j > jb {
                        let i = choose|i: int| 0 <= i < r0.len() && (#[trigger] r0[i]) == all_buckets[j];
                        assert(result@[i] == r0[i]);
                    } else {
                        assert(result@[r0.len() as int] == all_buckets[j]);
                    }
                }
            }
        }
    }
    result
}

/// Splits records into buckets of equal size and keeps the buckets of two
/// or more: a record with no size-peer cannot be a duplicate.
pub fn group_by_size(files: Vec<DedupFile>) -> (r: Vec<Vec<DedupFile>>)
    ensures
        forall|i: int| 0 <= i < r@.len() ==> #[trigger] is_bucket_of(views(r@[i]@), views(files@)),
        forall|i: int| 0 <= i < r@.len() ==> (#[trigger] r@[i]@).len() >= 2,
        forall|i: int, j: int| 0 <= i < j < r@.len() ==> (#[trigger] r@[i]@)[0].size != (#[trigger] r@[j]@)[0].size,
        forall|k: int| 0 <= k < files@.len() && of_size(views(files@), files@[k].size).len() >= 2 ==>
            exists|i: int| 0 <= i < r@.len() && (#[trigger] r@[i]@)[0].size == (#[trigger] files@[k]).size,
{
    let ghost all = views(files@);
    let mut rev = into_reversed(files);
    let mut buckets: Vec<Vec<DedupFile>> = Vec::new();
    let mut index: HashMap<u64, usize> = HashMap::new();
    let ghost mut done: Seq<FileView> = Seq::empty();
    proof {
        broadcast use vstd::std_specs::hash::group_hash_axioms;
        assert(index@ == Map::<u64, usize>::empty());
    }
    while rev.len() > 0
        invariant
            all == done + views(rev@).reverse(),
            buckets_of(buckets@, done),
            indexes(index@, buckets@),
        decreases rev@.len(),
    {
        let ghost v0 = rev@;
        let f = rev.pop().unwrap();
        let ghost fv = f@;
        proof {
            assert(views(v0) =~= views(rev@).push(fv));
            assert(views(v0).reverse() =~= seq![fv] + views(rev@).reverse());
            assert(all =~= done.push(fv) + views(rev@).reverse());
        }
        place(&mut buckets, &mut index, f, Ghost(done));
        proof {
            done = done.push(fv);
        }
    }
    proof {
        assert(views(rev@).reverse() =~= Seq::<FileView>::empty());
        assert(all =~= done);
    }
    let ghost bs = buckets@;
    let result = keep_peers(buckets, Ghost(all));
    proof {
        assert forall|k: int| 0 <= k < files@.len() && of_size(views(files@), files@[k].size).len() >= 2 implies
            exists|i: int| 0 <= i < result@.len() && (#[trigger] result@[i]@)[0].size == (#[trigger] files@[k]).size by {
            assert(all[k] == files@[k]@);
            let j = choose|j: int| 0 <= j < bs.len() && (#[trigger] bs[j]@)[0].size == (#[trigger] all[k]).size;
            assert(is_bucket_of(views(bs[j]@), all));
            assert(views(bs[j]@)[0] == bs[j]@[0]@);
            assert(views(bs[j]@).len() == bs[j]@.len());
            let i = choose|i: int| 0 <= i < result@.len() && (#[trigger] result@[i]) == bs[j];
            assert(result@[i]@[0].size == files@[k].size);
        }
    }
    result
}

} // verus!

verus! {

proof fn lemma_of_size_members(s: Seq<FileView>, size: u64)
    ensures
        forall|i: int| 0 <= i < of_size(s, size).len() ==> (#[trigger] of_size(s, size)[i]).size == size,
    decreases s.len(),
{
    if s.len() > 0 {
        let init = s.drop_last();
        lemma_of_size_members(init, size);
        assert(init.push(s.last()) =~= s);
        lemma_of_size_push(init, s.last(), size);
        assert forall|i: int| 0 <= i < of_size(s, size).len() implies (#[trigger] of_size(s, size)[i]).size == size by {
            if i < of_size(init, size).len() {
                assert(of_size(s, size)[i] == of_size(init, size)[i]);
            }
        }
    }
}

/// A file with no size-peer lies in no bucket of two or more.
pub proof fn lemma_singleton_in_no_bucket(b: Seq<FileView>, all: Seq<FileView>, x: FileView)
    requires
        is_bucket_of(b, all),
        b.len() >= 2,
        of_size(all, x.size).len() < 2,
    ensures
        !b.contains(x),
{
    if b.contains(x) {
        let j = choose|j: int| 0 <= j < b.len() && b[j] == x;
        lemma_of_size_members(all, b[0].size);
        assert(b[j].size == b[0].size);
    }
}

} // verus!
