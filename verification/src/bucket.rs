//! A capacity-bounded bucket of peer descriptors covering one contiguous
//! identifier sub-range, with the split operation that halves the range.
//!
//! Invariants (`wf`): the range is non-empty, every entry's identifier lies
//! strictly between the bounds, the population never exceeds the capacity,
//! and at most one entry is marked local.

use vstd::prelude::*;
use vstd::multiset::Multiset;
use crate::error::BucketError;
use crate::id::Id;
use crate::node::Node;

verus! {

/// Whether a descriptor's identifier lies strictly between `lo` and `hi`.
pub open spec fn in_range(n: Node, lo: int, hi: int) -> bool {
    lo < n.id.value && n.id.value < hi
}

/// How many entries of `s` are marked local.
pub open spec fn local_count(s: Seq<Node>) -> nat
    decreases s.len(),
{
    if s.len() == 0 {
        0
    } else {
        local_count(s.drop_last()) + (if s.last().is_local {
            1nat
        } else {
            0nat
        })
    }
}

/// Whether some entry of `s` is marked local.
pub open spec fn has_local(s: Seq<Node>) -> bool {
    exists|i: int| 0 <= i < s.len() && s[i].is_local
}

/// `s` with every entry whose identifier equals `id` removed, order kept.
pub open spec fn remove_id(s: Seq<Node>, id: Id) -> Seq<Node> {
    s.filter(|n: Node| n.id.value != id.value)
}

/// The entries of `s` that lie strictly inside `(lo, hi)`, order kept.
pub open spec fn moved_out(s: Seq<Node>, lo: int, hi: int) -> Seq<Node> {
    s.filter(|n: Node| in_range(n, lo, hi))
}

/// The entries of `s` that do not lie strictly inside `(lo, hi)`, order kept.
pub open spec fn kept_back(s: Seq<Node>, lo: int, hi: int) -> Seq<Node> {
    s.filter(|n: Node| !in_range(n, lo, hi))
}

proof fn lemma_local_count_push(s: Seq<Node>, n: Node)
    ensures
        local_count(s.push(n)) == local_count(s) + (if n.is_local {
            1nat
        } else {
            0nat
        }),
{
    assert(s.push(n).drop_last() =~= s);
    assert(s.push(n).last() == n);
}

/// A sequence has a local entry exactly when its local count is positive.
proof fn lemma_local_count_has(s: Seq<Node>)
    ensures
        has_local(s) <==> local_count(s) >= 1,
    decreases s.len(),
{
    if s.len() == 0 {
    } else {
        lemma_local_count_has(s.drop_last());
        if s.last().is_local {
            assert(s[s.len() - 1].is_local);
        }
        if has_local(s) && !s.last().is_local {
            let i = choose|i: int| 0 <= i < s.len() && s[i].is_local;
            assert(s.drop_last()[i].is_local);
        }
        if has_local(s.drop_last()) {
            let i = choose|i: int| 0 <= i < s.drop_last().len() && s.drop_last()[i].is_local;
            assert(s[i].is_local);
        }
    }
}

/// A prefix of `s` has at most as many local entries as `s`.
proof fn lemma_local_count_prefix(s: Seq<Node>, i: int)
    requires
        0 <= i <= s.len(),
    ensures
        local_count(s.subrange(0, i)) <= local_count(s),
    decreases s.len(),
{
    if i == s.len() {
        assert(s.subrange(0, i) =~= s);
    } else {
        assert(s.subrange(0, i) =~= s.drop_last().subrange(0, i));
        lemma_local_count_prefix(s.drop_last(), i);
    }
}

/// How `remove_id` acts on one appended entry.
proof fn lemma_remove_id_push(s: Seq<Node>, n: Node, id: Id)
    ensures
        n.id.value != id.value ==> remove_id(s.push(n), id) == remove_id(s, id).push(n),
        n.id.value == id.value ==> remove_id(s.push(n), id) == remove_id(s, id),
{
    reveal(Seq::filter);
    assert(s.push(n).drop_last() =~= s);
    assert(s.push(n).last() == n);
}

/// `remove_id` only drops entries: the result is no longer, keeps every
/// remaining entry from `s`, and has no more local entries.
proof fn lemma_remove_id_props(s: Seq<Node>, id: Id)
    ensures
        remove_id(s, id).len() <= s.len(),
        forall|i: int|
            0 <= i < remove_id(s, id).len() ==> s.contains(#[trigger] remove_id(s, id)[i]),
        local_count(remove_id(s, id)) <= local_count(s),
        forall|i: int| 0 <= i < remove_id(s, id).len() ==> remove_id(s, id)[i].id.value != id.value,
    decreases s.len(),
{
    reveal(Seq::filter);
    if s.len() == 0 {
        assert(remove_id(s, id) =~= Seq::<Node>::empty());
    } else {
        let dl = s.drop_last();
        lemma_remove_id_props(dl, id);
        assert(forall|x: Node| dl.contains(x) ==> s.contains(x)) by {
            assert forall|x: Node| dl.contains(x) implies s.contains(x) by {
                let j = choose|j: int| 0 <= j < dl.len() && dl[j] == x;
                assert(s[j] == x);
            }
        }
        if s.last().id.value != id.value {
            assert(remove_id(s, id) == remove_id(dl, id).push(s.last()));
            lemma_local_count_push(remove_id(dl, id), s.last());
            assert(local_count(s) == local_count(dl) + (if s.last().is_local {
                1nat
            } else {
                0nat
            }));
            assert(s.contains(s.last())) by {
                assert(s[s.len() - 1] == s.last());
            }
        } else {
            assert(remove_id(s, id) == remove_id(dl, id));
            assert(local_count(dl) <= local_count(s));
        }
    }
}

/// Removal is idempotent: removing an identifier that no entry carries
/// leaves the entries exactly as they were.
pub proof fn lemma_remove_absent(s: Seq<Node>, id: Id)
    requires
        forall|i: int| 0 <= i < s.len() ==> (#[trigger] s[i]).id.value != id.value,
    ensures
        remove_id(s, id) == s,
    decreases s.len(),
{
    reveal(Seq::filter);
    if s.len() == 0 {
        assert(remove_id(s, id) =~= s);
    } else {
        let dl = s.drop_last();
        assert(forall|i: int| 0 <= i < dl.len() ==> (#[trigger] dl[i]).id.value != id.value);
        lemma_remove_absent(dl, id);
        assert(s[s.len() - 1].id.value != id.value);
        assert(remove_id(s, id) =~= s);
    }
}

/// How the two halves of a partition act on one appended entry.
proof fn lemma_partition_push(s: Seq<Node>, n: Node, lo: int, hi: int)
    ensures
        in_range(n, lo, hi) ==> moved_out(s.push(n), lo, hi) == moved_out(s, lo, hi).push(n)
            && kept_back(s.push(n), lo, hi) == kept_back(s, lo, hi),
        !in_range(n, lo, hi) ==> moved_out(s.push(n), lo, hi) == moved_out(s, lo, hi)
            && kept_back(s.push(n), lo, hi) == kept_back(s, lo, hi).push(n),
{
    reveal(Seq::filter);
    assert(s.push(n).drop_last() =~= s);
    assert(s.push(n).last() == n);
}

/// Each half of a partition is no longer than the whole, keeps only entries
/// of the whole, holds no more local entries, and holds exactly the entries
/// on its side of the range.
proof fn lemma_partition_props(s: Seq<Node>, lo: int, hi: int)
    ensures
        moved_out(s, lo, hi).len() <= s.len(),
        kept_back(s, lo, hi).len() <= s.len(),
        forall|i: int|
            0 <= i < moved_out(s, lo, hi).len() ==> s.contains(#[trigger] moved_out(s, lo, hi)[i]),
        forall|i: int|
            0 <= i < kept_back(s, lo, hi).len() ==> s.contains(#[trigger] kept_back(s, lo, hi)[i]),
        local_count(moved_out(s, lo, hi)) <= local_count(s),
        local_count(kept_back(s, lo, hi)) <= local_count(s),
        forall|i: int|
            0 <= i < moved_out(s, lo, hi).len() ==> in_range(
                #[trigger] moved_out(s, lo, hi)[i],
                lo,
                hi,
            ),
        forall|i: int|
            0 <= i < kept_back(s, lo, hi).len() ==> !in_range(
                #[trigger] kept_back(s, lo, hi)[i],
                lo,
                hi,
            ),
    decreases s.len(),
{
    reveal(Seq::filter);
    if s.len() == 0 {
        assert(moved_out(s, lo, hi) =~= Seq::<Node>::empty());
        assert(kept_back(s, lo, hi) =~= Seq::<Node>::empty());
    } else {
        let dl = s.drop_last();
        let x = s.last();
        lemma_partition_props(dl, lo, hi);
        assert(s =~= dl.push(x));
        lemma_partition_push(dl, x, lo, hi);
        assert(forall|y: Node| dl.contains(y) ==> s.contains(y)) by {
            assert forall|y: Node| dl.contains(y) implies s.contains(y) by {
                let j = choose|j: int| 0 <= j < dl.len() && dl[j] == y;
                assert(s[j] == y);
            }
        }
        assert(s.contains(x)) by {
            assert(s[s.len() - 1] == x);
        }
        assert(local_count(s) == local_count(dl) + (if x.is_local {
            1nat
        } else {
            0nat
        }));
        if in_range(x, lo, hi) {
            lemma_local_count_push(moved_out(dl, lo, hi), x);
        } else {
            lemma_local_count_push(kept_back(dl, lo, hi), x);
        }
    }
}

/// Splitting a sequence on a range loses and duplicates nothing: the two
/// halves together hold exactly the entries of the whole.
pub proof fn lemma_partition_multiset(s: Seq<Node>, lo: int, hi: int)
    ensures
        kept_back(s, lo, hi).to_multiset().add(moved_out(s, lo, hi).to_multiset())
            == s.to_multiset(),
    decreases s.len(),
{
    broadcast use vstd::multiset::group_multiset_axioms;
    broadcast use vstd::seq_lib::group_to_multiset_ensures;

    reveal(Seq::filter);
    if s.len() == 0 {
        assert(moved_out(s, lo, hi) =~= Seq::<Node>::empty());
        assert(kept_back(s, lo, hi) =~= Seq::<Node>::empty());
        assert(s.to_multiset() =~= Multiset::<Node>::empty());
        assert(kept_back(s, lo, hi).to_multiset().add(moved_out(s, lo, hi).to_multiset()) =~= s.to_multiset());
    } else {
        let dl = s.drop_last();
        let x = s.last();
        lemma_partition_multiset(dl, lo, hi);
        assert(s =~= dl.push(x));
        lemma_partition_push(dl, x, lo, hi);
        assert(s.to_multiset() == dl.push(x).to_multiset());
        assert(dl.push(x).to_multiset() =~= dl.to_multiset().insert(x));
        if in_range(x, lo, hi) {
            assert(moved_out(s, lo, hi).to_multiset() =~= moved_out(dl, lo, hi).to_multiset().insert(x));
            assert(kept_back(s, lo, hi).to_multiset().add(moved_out(s, lo, hi).to_multiset())
                =~= dl.to_multiset().insert(x));
        } else {
            assert(kept_back(s, lo, hi).to_multiset() =~= kept_back(dl, lo, hi).to_multiset().insert(x));
            assert(kept_back(s, lo, hi).to_multiset().add(moved_out(s, lo, hi).to_multiset())
                =~= dl.to_multiset().insert(x));
        }
    }
}

/// A bucket: an ordered list of peer descriptors whose identifiers lie
/// strictly inside `(start_id, end_id)`, holding at most `max_nodes` entries.
#[derive(Debug)]
pub struct Bucket {
    pub node_list: Vec<Node>,
    pub start_id: Id,
    pub end_id: Id,
    pub max_nodes: usize,
}

impl Bucket {
    /// The bucket's entries, as a sequence.
    pub open spec fn entries(self) -> Seq<Node> {
        self.node_list@
    }

    /// Whether an identifier lies strictly inside the bucket's range.
    pub open spec fn spec_fits(self, id: Id) -> bool {
        self.start_id.value < id.value && id.value < self.end_id.value
    }

    /// The bucket invariant: non-empty range, every entry in range, the
    /// population bounded by the capacity, and at most one local entry.
    pub open spec fn wf(self) -> bool {
        &&& self.start_id.value < self.end_id.value
        &&& forall|i: int|
            0 <= i < self.entries().len() ==> in_range(
                #[trigger] self.entries()[i],
                self.start_id.value as int,
                self.end_id.value as int,
            )
        &&& self.entries().len() <= self.max_nodes
        &&& local_count(self.entries()) <= 1
    }

    /// An empty bucket over the range `(start_id, end_id)` holding at most
    /// `max_nodes` entries.
    pub fn new(max_nodes: usize, start_id: Id, end_id: Id) -> (r: Bucket)
        ensures
            r.entries() == Seq::<Node>::empty(),
            r.start_id == start_id,
            r.end_id == end_id,
            r.max_nodes == max_nodes,
            start_id.value < end_id.value ==> r.wf(),
    {
        let r = Bucket { node_list: Vec::new(), start_id, end_id, max_nodes };
        proof {
            assert(r.entries() =~= Seq::<Node>::empty());
        }
        r
    }

    /// Whether an identifier lies strictly inside the bucket's range.
    pub fn fits(&self, id: &Id) -> (r: bool)
        ensures
            r == self.spec_fits(*id),
    {
        id.value > self.start_id.value && id.value < self.end_id.value
    }

    /// Whether the bucket holds the descriptor that represents the local
    /// process.
    pub fn contains_local(&self) -> (r: bool)
        ensures
            r == has_local(self.entries()),
    {
        let mut i: usize = 0;
        while i < self.node_list.len()
            invariant
                i <= self.node_list@.len(),
                forall|j: int| 0 <= j < i ==> !self.node_list@[j].is_local,
            decreases self.node_list@.len() - i,
        {
            if self.node_list[i].is_local() {
                return true;
            }
            i += 1;
        }
        false
    }

    /// Append a descriptor, refusing it when the bucket is full, when the
    /// identifier is out of range, or when a second local entry is offered;
    /// the checks happen in that order, and a refusal leaves the bucket
    /// unchanged.
    pub fn add_node(&mut self, node: Node) -> (r: Result<(), BucketError>)
        ensures
            final(self).start_id == old(self).start_id,
            final(self).end_id == old(self).end_id,
            final(self).max_nodes == old(self).max_nodes,
            old(self).entries().len() >= old(self).max_nodes ==> r == Err::<(), BucketError>(
                BucketError::BucketFull,
            ) && final(self).entries() == old(self).entries(),
            old(self).entries().len() < old(self).max_nodes && !old(self).spec_fits(node.id) ==> r
                == Err::<(), BucketError>(BucketError::IncorrectBucket) && final(self).entries()
                == old(self).entries(),
            old(self).entries().len() < old(self).max_nodes && old(self).spec_fits(node.id) && (
            has_local(old(self).entries()) && node.is_local) ==> r == Err::<(), BucketError>(
                BucketError::RepeatedLNode,
            ) && final(self).entries() == old(self).entries(),
            old(self).entries().len() < old(self).max_nodes && old(self).spec_fits(node.id) && !(
            has_local(old(self).entries()) && node.is_local) ==> r == Ok::<(), BucketError>(())
                && final(self).entries() == old(self).entries().push(node),
            old(self).wf() ==> final(self).wf(),
    {
        if self.node_list.len() >= self.max_nodes {
            return Err(BucketError::BucketFull);
        }
        if !self.fits(&node.id()) {
            return Err(BucketError::IncorrectBucket);
        }
        if self.contains_local() && node.is_local() {
            return Err(BucketError::RepeatedLNode);
        }
        proof {
            lemma_local_count_push(self.node_list@, node);
            lemma_local_count_has(self.node_list@);
        }
        self.node_list.push(node);
        Ok(())
    }

    /// Remove every entry whose identifier equals `id`; a no-op when none
    /// matches.
    pub fn rm_node(&mut self, id: Id)
        ensures
            final(self).start_id == old(self).start_id,
            final(self).end_id == old(self).end_id,
            final(self).max_nodes == old(self).max_nodes,
            final(self).entries() == remove_id(old(self).entries(), id),
            old(self).wf() ==> final(self).wf(),
    {
        let ghost orig = self.node_list@;
        let mut kept: Vec<Node> = Vec::new();
        let mut i: usize = 0;
        while i < self.node_list.len()
            invariant
                i <= orig.len(),
                self.node_list@ == orig,
                kept@ == remove_id(orig.subrange(0, i as int), id),
            decreases orig.len() - i,
        {
            let n = self.node_list[i];
            proof {
                assert(orig.subrange(0, i + 1) =~= orig.subrange(0, i as int).push(
                    orig[i as int],
                ));
                lemma_remove_id_push(orig.subrange(0, i as int), orig[i as int], id);
            }
            if n.id().value != id.value {
                kept.push(n);
            }
            i += 1;
        }
        proof {
            assert(orig.subrange(0, orig.len() as int) =~= orig);
        }
        self.node_list = kept;
        proof {
            if old(self).wf() {
                lemma_remove_id_props(orig, id);
                assert forall|k: int|
                    0 <= k < self.entries().len() implies in_range(
                    #[trigger] self.entries()[k],
                    self.start_id.value as int,
                    self.end_id.value as int,
                ) by {
                    assert(orig.contains(self.entries()[k]));
                    let j = choose|j: int| 0 <= j < orig.len() && orig[j] == self.entries()[k];
                    assert(in_range(orig[j], self.start_id.value as int, self.end_id.value as int));
                }
            }
        }
    }

    /// Split the bucket's range in half at `m = end_id.half()`: the bucket
    /// keeps the lower range `(start_id, m)` and a new sibling covers
    /// `(m + 1, end_id)`; every entry that fits the sibling moves there and
    /// the rest stay. The split is refused — `None`, bucket unchanged — when
    /// the bucket is at or over capacity or holds no local entry.
    ///
    /// No entry is lost or duplicated: together the two buckets hold exactly
    /// the entries the bucket held before. Both buckets satisfy the bucket
    /// invariant again whenever the halved ranges are non-empty and no entry
    /// sat on the split boundary (identifier `m` or `m + 1`).
    pub fn divide(&mut self) -> (r: Option<Bucket>)
        requires
            old(self).wf(),
        ensures
            (r is None) <==> (old(self).entries().len() >= old(self).max_nodes || !has_local(
                old(self).entries(),
            )),
            r is None ==> *final(self) == *old(self),
            r matches Some(b) ==> ({
                let m = old(self).end_id.value as int / 2;
                let e = old(self).end_id.value as int;
                &&& final(self).start_id == old(self).start_id
                &&& final(self).end_id.value == m
                &&& final(self).max_nodes == old(self).max_nodes
                &&& b.start_id.value == m + 1
                &&& b.end_id == old(self).end_id
                &&& b.max_nodes == old(self).max_nodes
                &&& b.entries() == moved_out(old(self).entries(), m + 1, e)
                &&& final(self).entries() == kept_back(old(self).entries(), m + 1, e)
                &&& final(self).entries().to_multiset().add(b.entries().to_multiset()) == old(
                    self,
                ).entries().to_multiset()
                &&& (m + 1 < e ==> b.wf())
                &&& ((old(self).start_id.value < m && (forall|i: int|
                    0 <= i < old(self).entries().len() ==> (#[trigger] old(
                        self,
                    ).entries()[i]).id.value != m && old(self).entries()[i].id.value != m + 1))
                    ==> final(self).wf())
            }),
    {
        if self.node_list.len() >= self.max_nodes {
            return None;
        }
        if !self.contains_local() {
            return None;
        }
        let old_end = self.end_id;
        let mid = self.end_id.half();
        self.end_id = mid;
        let mut sibling = Bucket::new(self.max_nodes, mid.succ(), old_end);
        let ghost orig = self.node_list@;
        let ghost lo: int = mid.value + 1;
        let ghost hi: int = old_end.value as int;
        let mut kept: Vec<Node> = Vec::new();
        let mut i: usize = 0;
        let n = self.node_list.len();
        while i < n
            invariant
                i <= n,
                n == orig.len(),
                n < old(self).max_nodes,
                self.node_list@ == orig,
                self.start_id == old(self).start_id,
                self.end_id == mid,
                self.max_nodes == old(self).max_nodes,
                sibling.start_id.value == lo,
                sibling.end_id.value == hi,
                sibling.max_nodes == old(self).max_nodes,
                sibling.node_list@ == moved_out(orig.subrange(0, i as int), lo, hi),
                kept@ == kept_back(orig.subrange(0, i as int), lo, hi),
                local_count(orig) <= 1,
            decreases n - i,
        {
            let node = self.node_list[i];
            proof {
                assert(orig.subrange(0, i + 1) =~= orig.subrange(0, i as int).push(
                    orig[i as int],
                ));
                lemma_partition_push(orig.subrange(0, i as int), orig[i as int], lo, hi);
                lemma_partition_props(orig.subrange(0, i as int), lo, hi);
                if node.is_local && has_local(sibling.node_list@) {
                    lemma_local_count_has(sibling.node_list@);
                    lemma_local_count_push(orig.subrange(0, i as int), orig[i as int]);
                    lemma_local_count_prefix(orig, i + 1);
                    assert(false);
                }
            }
            let res = sibling.add_node(node);
            if res.is_err() {
                kept.push(node);
            }
            i += 1;
        }
        proof {
            assert(orig.subrange(0, n as int) =~= orig);
        }
        self.node_list = kept;
        proof {
            let m = old(self).end_id.value as int / 2;
            let e = old(self).end_id.value as int;
            assert(lo == m + 1 && hi == e);
            lemma_partition_props(orig, lo, hi);
            lemma_partition_multiset(orig, lo, hi);
            if old(self).start_id.value < m && (forall|k: int|
                0 <= k < orig.len() ==> (#[trigger] orig[k]).id.value != m && orig[k].id.value != m
                    + 1) {
                assert forall|k: int| 0 <= k < self.entries().len() implies in_range(
                    #[trigger] self.entries()[k],
                    self.start_id.value as int,
                    self.end_id.value as int,
                ) by {
                    assert(orig.contains(self.entries()[k]));
                    let j = choose|j: int| 0 <= j < orig.len() && orig[j] == self.entries()[k];
                    assert(in_range(
                        orig[j],
                        old(self).start_id.value as int,
                        old(self).end_id.value as int,
                    ));
                    assert(!in_range(self.entries()[k], lo, hi));
                    assert(orig[j].id.value != m && orig[j].id.value != m + 1);
                }
            }
        }
        Some(sibling)
    }

    /// The contained descriptors, for inspection by the container that owns
    /// the buckets.
    pub fn nodes(&self) -> (r: &Vec<Node>)
        ensures
            r@ == self.entries(),
    {
        &self.node_list
    }
}

} // verus!
