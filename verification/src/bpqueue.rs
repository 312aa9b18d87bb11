//! Bounded-integer-key priority queue: an array of buckets indexed by a
//! normalized key, with a tracked current-maximum bucket index.
//!
//! Nodes live in an arena owned by the queue and are addressed by stable
//! handles (indices), so linking and unlinking move no data. Bucket `0` is
//! permanently empty and serves as the terminating floor for downward scans
//! of the maximum; every member node's stored key equals the index of the
//! bucket holding it.

use vstd::prelude::*;

verus! {

/// One arena slot: a normalized key, the caller's payload, and whether the
/// node currently sits in a bucket.
#[derive(Clone, Copy)]
struct Node {
    key: i64,
    aux: i32,
    linked: bool,
}

/// A priority queue over integer keys in `[a, b]`, bucketed by `key - offset`
/// where `offset == a - 1`.
pub struct BPQueue {
    max: usize,
    offset: i64,
    high: usize,
    bucket: Vec<Vec<usize>>,
    nodes: Vec<Node>,
}

impl BPQueue {
    /// The buckets, each a front-to-back sequence of node handles.
    pub closed spec fn buckets(&self) -> Seq<Seq<usize>> {
        self.bucket@.map_values(|v: Vec<usize>| v@)
    }

    /// The normalization constant: external key minus `offset_spec()` is the
    /// bucket index.
    pub closed spec fn offset_spec(&self) -> int {
        self.offset as int
    }

    /// The highest usable bucket index.
    pub closed spec fn high_spec(&self) -> int {
        self.high as int
    }

    /// The tracked maximum: the highest nonempty bucket index, or 0.
    pub closed spec fn max_spec(&self) -> int {
        self.max as int
    }

    /// How many node handles have been created.
    pub closed spec fn node_count(&self) -> int {
        self.nodes@.len() as int
    }

    /// The stored (normalized) key of the node under handle `h`.
    pub closed spec fn key_at(&self, h: int) -> int {
        self.nodes@[h].key as int
    }

    /// The payload of the node under handle `h`.
    pub closed spec fn aux_at(&self, h: int) -> i32 {
        self.nodes@[h].aux
    }

    /// Whether the node under handle `h` currently sits in a bucket.
    pub closed spec fn linked_at(&self, h: int) -> bool {
        self.nodes@[h].linked
    }

    /// The node under `h` is unchanged between two queue states.
    pub open spec fn node_same(pre: Self, post: Self, h: int) -> bool {
        &&& post.key_at(h) == pre.key_at(h)
        &&& post.aux_at(h) == pre.aux_at(h)
        &&& post.linked_at(h) == pre.linked_at(h)
    }

    /// Key range, bucket count and arena size are unchanged.
    pub open spec fn same_shape(pre: Self, post: Self) -> bool {
        &&& post.offset_spec() == pre.offset_spec()
        &&& post.high_spec() == pre.high_spec()
        &&& post.node_count() == pre.node_count()
    }

    /// Every node but `h` is unchanged.
    pub open spec fn nodes_same_except(pre: Self, post: Self, h: int) -> bool {
        forall|g: int| 0 <= g < pre.node_count() && g != h ==> Self::node_same(pre, post, g)
    }

    /// The link-structure part of the invariant, independent of `max`:
    /// bucket 0 is permanently empty; a positioned node is a live, attached
    /// node whose stored key is the index of its bucket; a handle sits in at
    /// most one bucket slot; an attached node sits in the bucket its key
    /// names.
    pub open spec fn wf_links(&self) -> bool {
        &&& self.buckets().len() == self.high_spec() + 1
        &&& 1 <= self.high_spec()
        &&& i32::MIN <= self.offset_spec()
        &&& self.offset_spec() + self.high_spec() <= i32::MAX
        &&& self.buckets()[0].len() == 0
        &&& forall|b: int, i: int|
            0 <= b <= self.high_spec() && 0 <= i < self.buckets()[b].len() ==> {
                let h = (#[trigger] self.buckets()[b][i]) as int;
                &&& 0 <= h < self.node_count()
                &&& self.linked_at(h)
                &&& self.key_at(h) == b
            }
        &&& forall|b1: int, i1: int, b2: int, i2: int|
            0 <= b1 <= self.high_spec() && 0 <= i1 < self.buckets()[b1].len() && 0 <= b2
                <= self.high_spec() && 0 <= i2 < self.buckets()[b2].len() && (b1 != b2 || i1
                != i2) ==> #[trigger] self.buckets()[b1][i1] != #[trigger] self.buckets()[b2][i2]
        &&& forall|h: int|
            0 <= h < self.node_count() && #[trigger] self.linked_at(h) ==> {
                &&& 0 < self.key_at(h) <= self.high_spec()
                &&& self.buckets()[self.key_at(h)].contains(h as usize)
            }
    }

    /// Additionally, `max` bounds the nonempty buckets from above.
    pub open spec fn wf_weak(&self) -> bool {
        &&& self.wf_links()
        &&& 0 <= self.max_spec() <= self.high_spec()
        &&& forall|b: int|
            self.max_spec() < b <= self.high_spec() ==> (#[trigger] self.buckets()[b]).len() == 0
    }

    /// The full structural invariant: `max` is exactly the highest nonempty
    /// bucket index, or 0 when every bucket is empty.
    pub open spec fn wf(&self) -> bool {
        &&& self.wf_weak()
        &&& self.max_spec() == 0 || self.buckets()[self.max_spec()].len() > 0
    }

    /// Changing unattached nodes (or adding fresh ones) preserves the
    /// structural invariant: no bucket refers to them.
    proof fn lemma_wf_node_frame(pre: Self, post: Self, h: int)
        requires
            pre.wf_links(),
            post.buckets() == pre.buckets(),
            post.max_spec() == pre.max_spec(),
            post.offset_spec() == pre.offset_spec(),
            post.high_spec() == pre.high_spec(),
            post.node_count() >= pre.node_count(),
            Self::nodes_same_except(pre, post, h),
            !post.linked_at(h),
            0 <= h < pre.node_count() ==> !pre.linked_at(h),
            forall|g: int|
                pre.node_count() <= g < post.node_count() ==> !(#[trigger] post.linked_at(g)),
        ensures
            post.wf_links(),
            pre.wf_weak() ==> post.wf_weak(),
            pre.wf() ==> post.wf(),
    {
        assert forall|b: int, i: int|
            0 <= b <= post.high_spec() && 0 <= i < post.buckets()[b].len() implies {
            let g = (#[trigger] post.buckets()[b][i]) as int;
            &&& 0 <= g < post.node_count()
            &&& post.linked_at(g)
            &&& post.key_at(g) == b
        } by {
            let g = pre.buckets()[b][i] as int;
            assert(pre.linked_at(g));
            assert(g != h && g < pre.node_count());
            assert(Self::node_same(pre, post, g));
        }
        assert forall|g: int|
            0 <= g < post.node_count() && #[trigger] post.linked_at(g) implies {
            &&& 0 < post.key_at(g) <= post.high_spec()
            &&& post.buckets()[post.key_at(g)].contains(g as usize)
        } by {
            assert(g != h && g < pre.node_count());
            assert(Self::node_same(pre, post, g));
            assert(pre.linked_at(g));
            assert(pre.buckets()[pre.key_at(g)].contains(g as usize));
        }
    }

    /// Relation of one insertion: the unattached node `h` enters bucket `b`,
    /// at the front or at the back; every other bucket and node is untouched,
    /// and the tracked maximum rises to `b` if it was below.
    pub open spec fn insert_rel(pre: Self, post: Self, h: usize, b: int, at_front: bool) -> bool {
        &&& Self::same_shape(pre, post)
        &&& Self::nodes_same_except(pre, post, h as int)
        &&& post.linked_at(h as int)
        &&& post.key_at(h as int) == b
        &&& post.aux_at(h as int) == pre.aux_at(h as int)
        &&& post.buckets() == pre.buckets().update(
            b,
            if at_front {
                seq![h] + pre.buckets()[b]
            } else {
                pre.buckets()[b].push(h)
            },
        )
        &&& post.max_spec() == if b > pre.max_spec() {
            b
        } else {
            pre.max_spec()
        }
        &&& post.wf()
    }

    /// Inserting an unattached node into a bucket in range preserves the
    /// structural invariant.
    proof fn lemma_wf_insert(pre: Self, post: Self, h: usize, b: int, at_front: bool)
        requires
            pre.wf_links(),
            0 <= h < pre.node_count(),
            !pre.linked_at(h as int),
            0 < b <= pre.high_spec(),
            Self::same_shape(pre, post),
            Self::nodes_same_except(pre, post, h as int),
            post.linked_at(h as int),
            post.key_at(h as int) == b,
            post.buckets() == pre.buckets().update(
                b,
                if at_front {
                    seq![h] + pre.buckets()[b]
                } else {
                    pre.buckets()[b].push(h)
                },
            ),
        ensures
            post.wf_links(),
    {
        let pb = pre.buckets();
        let qb = post.buckets();
        let nb = if at_front {
            seq![h] + pb[b]
        } else {
            pb[b].push(h)
        };
        // The position of `h` in the new bucket, and how the other new
        // positions shift against the old ones.
        let hpos: int = if at_front {
            0
        } else {
            nb.len() - 1
        };
        let shift: int = if at_front {
            1
        } else {
            0
        };
        assert(nb.len() == pb[b].len() + 1);
        assert(forall|i: int| 0 <= i < nb.len() && i != hpos ==> nb[i] == pb[b][i - shift]);
        assert(nb[hpos] == h);
        // No old position holds `h`: every positioned node was linked.
        assert forall|c: int, i: int|
            0 <= c <= pre.high_spec() && 0 <= i < pb[c].len() implies pb[c][i] != h by {
            assert(pre.linked_at(pb[c][i] as int));
        }
        assert forall|c: int, i: int|
            0 <= c <= post.high_spec() && 0 <= i < qb[c].len() implies {
            let g = (#[trigger] qb[c][i]) as int;
            &&& 0 <= g < post.node_count()
            &&& post.linked_at(g)
            &&& post.key_at(g) == c
        } by {
            let g = qb[c][i] as int;
            if c != b {
                assert(qb[c][i] == pb[c][i]);
                assert(pre.linked_at(g) && pre.key_at(g) == c);
                assert(Self::node_same(pre, post, g));
            } else if i == hpos {
                assert(qb[c][i] == h);
            } else {
                assert(nb[i] == pb[b][i - shift]);
                assert(pre.linked_at(g) && pre.key_at(g) == b);
                assert(qb[c][i] != h);
                assert(Self::node_same(pre, post, g));
            }
        }
        assert forall|c1: int, i1: int, c2: int, i2: int|
            0 <= c1 <= post.high_spec() && 0 <= i1 < qb[c1].len() && 0 <= c2 <= post.high_spec()
                && 0 <= i2 < qb[c2].len() && (c1 != c2 || i1 != i2) implies qb[c1][i1]
            != qb[c2][i2] by {
            if c1 == b && i1 == hpos {
                assert(qb[c1][i1] == h);
                if c2 == b && i2 != hpos {
                    assert(nb[i2] == pb[b][i2 - shift]);
                } else if c2 != b {
                    assert(qb[c2][i2] == pb[c2][i2]);
                }
            } else if c2 == b && i2 == hpos {
                assert(qb[c2][i2] == h);
                if c1 == b {
                    assert(nb[i1] == pb[b][i1 - shift]);
                } else {
                    assert(qb[c1][i1] == pb[c1][i1]);
                }
            } else {
                let j1: int = if c1 == b {
                    i1 - shift
                } else {
                    i1
                };
                let j2: int = if c2 == b {
                    i2 - shift
                } else {
                    i2
                };
                if c1 == b {
                    assert(nb[i1] == pb[b][i1 - shift]);
                }
                if c2 == b {
                    assert(nb[i2] == pb[b][i2 - shift]);
                }
                assert(qb[c1][i1] == pb[c1][j1]);
                assert(qb[c2][i2] == pb[c2][j2]);
                assert(c1 != c2 || j1 != j2);
            }
        }
        assert forall|g: int|
            0 <= g < post.node_count() && #[trigger] post.linked_at(g) implies {
            &&& 0 < post.key_at(g) <= post.high_spec()
            &&& qb[post.key_at(g)].contains(g as usize)
        } by {
            if g == h as int {
                assert(qb[b] == nb);
                assert(nb[hpos] == h);
                assert(qb[b][hpos] == h);
            } else {
                assert(Self::node_same(pre, post, g));
                assert(pre.linked_at(g));
                let k = pre.key_at(g);
                let j = choose|j: int| 0 <= j < pb[k].len() && pb[k][j] == g as usize;
                if k == b {
                    assert(nb[j + shift] == pb[b][j]);
                    assert(qb[b][j + shift] == g as usize);
                } else {
                    assert(qb[k][j] == g as usize);
                }
            }
        }
    }

    /// After a bucket in range has grown nonempty and `max` was raised to
    /// it if below, the `max` tracking is restored.
    proof fn lemma_max_raise(pre: Self, post: Self, b: int)
        requires
            pre.wf_weak(),
            post.wf_links(),
            post.high_spec() == pre.high_spec(),
            post.buckets().len() == pre.buckets().len(),
            forall|c: int| 0 <= c <= pre.high_spec() && c != b ==> post.buckets()[c] == pre.buckets()[c],
            post.buckets()[b].len() > 0,
            0 < b <= pre.high_spec(),
            post.max_spec() == if b > pre.max_spec() {
                b
            } else {
                pre.max_spec()
            },
        ensures
            post.wf_weak(),
            pre.wf() || b >= pre.max_spec() ==> post.wf(),
    {
        assert forall|c: int|
            post.max_spec() < c <= post.high_spec() implies (#[trigger] post.buckets()[c]).len()
            == 0 by {
            assert(c != b && c > pre.max_spec());
            assert(post.buckets()[c] == pre.buckets()[c]);
        }
        if pre.wf() || b >= pre.max_spec() {
            if b >= pre.max_spec() {
                assert(post.max_spec() == b);
            } else {
                assert(post.max_spec() == pre.max_spec());
                assert(pre.max_spec() > 0);
                assert(post.buckets()[pre.max_spec()].len() > 0);
            }
        }
    }

    /// Creates an empty queue for external keys in `[a, b]`.
    pub fn new(a: i32, b: i32) -> (r: Self)
        requires
            i32::MIN < a <= b,
            b as int - a as int + 2 <= usize::MAX,
        ensures
            r.wf(),
            r.offset_spec() == a - 1,
            r.high_spec() == b - a + 1,
            r.max_spec() == 0,
            r.node_count() == 0,
    {
        let offset: i64 = a as i64 - 1;
        let high: usize = (b as i64 - offset) as usize;
        let mut bucket: Vec<Vec<usize>> = Vec::new();
        let mut i: usize = 0;
        while i < high + 1
            invariant
                high as int + 1 <= usize::MAX,
                i <= high + 1,
                bucket@.len() == i,
                forall|j: int| 0 <= j < i ==> (#[trigger] bucket@[j])@.len() == 0,
            decreases high + 1 - i,
        {
            bucket.push(Vec::new());
            i = i + 1;
        }
        let r = Self { max: 0, offset, high, bucket, nodes: Vec::new() };
        proof {
            assert(r.buckets().len() == r.high_spec() + 1);
            assert(forall|bb: int|
                0 <= bb <= r.high_spec() ==> (#[trigger] r.buckets()[bb]).len() == 0);
        }
        r
    }

    /// Creates a fresh unattached node carrying `aux`, with stored key 0, and
    /// returns its handle.
    pub fn new_node(&mut self, aux: i32) -> (h: usize)
        requires
            old(self).wf(),
            old(self).node_count() < usize::MAX,
        ensures
            final(self).wf(),
            h as int == old(self).node_count(),
            final(self).node_count() == old(self).node_count() + 1,
            final(self).buckets() == old(self).buckets(),
            final(self).max_spec() == old(self).max_spec(),
            final(self).offset_spec() == old(self).offset_spec(),
            final(self).high_spec() == old(self).high_spec(),
            !final(self).linked_at(h as int),
            final(self).key_at(h as int) == 0,
            final(self).aux_at(h as int) == aux,
            Self::nodes_same_except(*old(self), *final(self), h as int),
    {
        let h = self.nodes.len();
        self.nodes.push(Node { key: 0, aux, linked: false });
        proof {
            assert forall|g: int| 0 <= g < old(self).node_count() implies self.nodes@[g]
                == old(self).nodes@[g] by {}
            Self::lemma_wf_node_frame(*old(self), *self, h as int);
        }
        h
    }

    /// Inserts the unattached node `h` at the back of the bucket for
    /// external key `k`, storing the normalized key `k - offset`.
    pub fn append(&mut self, h: usize, k: i32)
        requires
            old(self).wf(),
            0 <= h < old(self).node_count(),
            !old(self).linked_at(h as int),
            old(self).offset_spec() < k <= old(self).offset_spec() + old(self).high_spec(),
        ensures
            Self::insert_rel(*old(self), *final(self), h, k - old(self).offset_spec(), false),
    {
        let kk: i64 = k as i64 - self.offset;
        let b: usize = kk as usize;
        let mut n = self.nodes[h];
        n.key = kk;
        n.linked = true;
        self.nodes.set(h, n);
        if self.max < b {
            self.max = b;
        }
        self.bucket[b].push(h);
        proof {
            assert(self.buckets() =~= old(self).buckets().update(
                b as int,
                old(self).buckets()[b as int].push(h),
            ));
            Self::lemma_wf_insert(*old(self), *self, h, b as int, false);
            Self::lemma_max_raise(*old(self), *self, b as int);
        }
    }

    /// Inserts the unattached node `h` at the front of the bucket for
    /// external key `k`, storing the normalized key `k - offset`.
    pub fn appendleft(&mut self, h: usize, k: i32)
        requires
            old(self).wf(),
            0 <= h < old(self).node_count(),
            !old(self).linked_at(h as int),
            old(self).offset_spec() < k <= old(self).offset_spec() + old(self).high_spec(),
        ensures
            Self::insert_rel(*old(self), *final(self), h, k - old(self).offset_spec(), true),
    {
        let kk: i64 = k as i64 - self.offset;
        let b: usize = kk as usize;
        let mut n = self.nodes[h];
        n.key = kk;
        n.linked = true;
        self.nodes.set(h, n);
        if self.max < b {
            self.max = b;
        }
        self.bucket[b].insert(0, h);
        proof {
            assert(self.buckets()[b as int] =~= seq![h] + old(self).buckets()[b as int]);
            assert(self.buckets() =~= old(self).buckets().update(
                b as int,
                seq![h] + old(self).buckets()[b as int],
            ));
            Self::lemma_wf_insert(*old(self), *self, h, b as int, true);
            Self::lemma_max_raise(*old(self), *self, b as int);
        }
    }

    /// Reinserts the unattached node `h` at the front of the bucket its
    /// already-stored normalized key names; the key must be in range.
    pub fn appendleft_direct(&mut self, h: usize)
        requires
            old(self).wf(),
            0 <= h < old(self).node_count(),
            !old(self).linked_at(h as int),
            0 < old(self).key_at(h as int) <= old(self).high_spec(),
        ensures
            Self::insert_rel(
                *old(self),
                *final(self),
                h,
                old(self).key_at(h as int),
                true,
            ),
    {
        let b: usize = self.nodes[h].key as usize;
        let mut n = self.nodes[h];
        n.linked = true;
        self.nodes.set(h, n);
        if self.max < b {
            self.max = b;
        }
        self.bucket[b].insert(0, h);
        proof {
            assert(self.buckets()[b as int] =~= seq![h] + old(self).buckets()[b as int]);
            assert(self.buckets() =~= old(self).buckets().update(
                b as int,
                seq![h] + old(self).buckets()[b as int],
            ));
            Self::lemma_wf_insert(*old(self), *self, h, b as int, true);
            Self::lemma_max_raise(*old(self), *self, b as int);
        }
    }

    /// Returns whether no node is a member: the tracked maximum is 0.
    pub fn is_empty(&self) -> (r: bool)
        ensures
            r == (self.max_spec() == 0),
    {
        self.max == 0
    }

    /// The tracked maximum bucket index itself.
    pub fn max_of(&self) -> (r: usize)
        ensures
            r as int == self.max_spec(),
    {
        self.max
    }

    /// Returns the highest external key present, or `offset` when empty.
    pub fn get_max(&self) -> (r: i32)
        requires
            self.wf(),
        ensures
            r as int == self.max_spec() + self.offset_spec(),
    {
        (self.max as i64 + self.offset) as i32
    }

    /// Starts a descending-key traversal over the member handles.
    pub fn iter(&self) -> (r: BPQueueIterator)
        requires
            self.wf(),
        ensures
            r.valid(self),
            r.curkey_spec() == self.max_spec(),
            r.pos_spec() == 0,
            r.remaining(self) == descending(self.buckets(), self.max_spec()),
    {
        BPQueueIterator::new(self)
    }

    /// The stored (normalized) key of the node under `h`.
    pub fn key_of(&self, h: usize) -> (r: i64)
        requires
            0 <= h < self.node_count(),
        ensures
            r as int == self.key_at(h as int),
    {
        self.nodes[h].key
    }

    /// The payload of the node under `h`.
    pub fn aux_of(&self, h: usize) -> (r: i32)
        requires
            0 <= h < self.node_count(),
        ensures
            r == self.aux_at(h as int),
    {
        self.nodes[h].aux
    }

    /// Whether the node under `h` is unattached (not in any bucket).
    pub fn is_node_locked(&self, h: usize) -> (r: bool)
        requires
            0 <= h < self.node_count(),
        ensures
            r == !self.linked_at(h as int),
    {
        !self.nodes[h].linked
    }

    /// Overwrites the stored key of an unattached node with `gain - offset`;
    /// no structural change.
    pub fn set_key(&mut self, h: usize, gain: i32)
        requires
            old(self).wf(),
            0 <= h < old(self).node_count(),
            !old(self).linked_at(h as int),
        ensures
            final(self).wf(),
            Self::same_shape(*old(self), *final(self)),
            final(self).buckets() == old(self).buckets(),
            final(self).max_spec() == old(self).max_spec(),
            final(self).key_at(h as int) == gain - old(self).offset_spec(),
            final(self).aux_at(h as int) == old(self).aux_at(h as int),
            !final(self).linked_at(h as int),
            Self::nodes_same_except(*old(self), *final(self), h as int),
    {
        let mut n = self.nodes[h];
        n.key = gain as i64 - self.offset;
        self.nodes.set(h, n);
        proof {
            Self::lemma_wf_node_frame(*old(self), *self, h as int);
        }
    }

    /// The link structure depends only on the buckets and the nodes: equal
    /// buckets and equal nodes carry `wf_links` across a state change.
    proof fn lemma_wf_links_frame(pre: Self, post: Self)
        requires
            pre.wf_links(),
            post.buckets() == pre.buckets(),
            post.node_count() == pre.node_count(),
            post.offset_spec() == pre.offset_spec(),
            post.high_spec() == pre.high_spec(),
            forall|g: int| 0 <= g < pre.node_count() ==> Self::node_same(pre, post, g),
        ensures
            post.wf_links(),
    {
        assert forall|b: int, i: int|
            0 <= b <= post.high_spec() && 0 <= i < post.buckets()[b].len() implies {
            let g = (#[trigger] post.buckets()[b][i]) as int;
            &&& 0 <= g < post.node_count()
            &&& post.linked_at(g)
            &&& post.key_at(g) == b
        } by {
            let g = pre.buckets()[b][i] as int;
            assert(pre.linked_at(g));
            assert(Self::node_same(pre, post, g));
        }
        assert forall|g: int|
            0 <= g < post.node_count() && #[trigger] post.linked_at(g) implies {
            &&& 0 < post.key_at(g) <= post.high_spec()
            &&& post.buckets()[post.key_at(g)].contains(g as usize)
        } by {
            assert(Self::node_same(pre, post, g));
            assert(pre.linked_at(g));
            assert(pre.buckets()[pre.key_at(g)].contains(g as usize));
        }
    }

    /// Detaching the node at one bucket position and marking it unattached
    /// preserves the link structure and keeps `max` an upper bound.
    proof fn lemma_wf_remove(pre: Self, post: Self, h: usize, b: int, p: int)
        requires
            pre.wf_weak(),
            0 <= h < pre.node_count(),
            pre.linked_at(h as int),
            b == pre.key_at(h as int),
            0 <= p < pre.buckets()[b].len(),
            pre.buckets()[b][p] == h,
            Self::same_shape(pre, post),
            Self::nodes_same_except(pre, post, h as int),
            !post.linked_at(h as int),
            post.key_at(h as int) == pre.key_at(h as int),
            post.buckets() == pre.buckets().update(b, pre.buckets()[b].remove(p)),
            post.max_spec() == pre.max_spec(),
        ensures
            post.wf_weak(),
    {
        let pb = pre.buckets();
        let qb = post.buckets();
        let nb = pb[b].remove(p);
        assert(0 < b <= pre.high_spec());
        assert(nb.len() == pb[b].len() - 1);
        assert(forall|i: int| 0 <= i < p ==> nb[i] == pb[b][i]);
        assert(forall|i: int| p <= i < nb.len() ==> nb[i] == pb[b][i + 1]);
        // `h` sits nowhere else: any other position differs from (b, p).
        assert forall|c: int, i: int|
            0 <= c <= pre.high_spec() && 0 <= i < pb[c].len() && (c != b || i != p) implies pb[c][i]
            != h by {
            assert(pb[c][i] != pb[b][p]);
        }
        assert forall|c: int, i: int|
            0 <= c <= post.high_spec() && 0 <= i < qb[c].len() implies {
            let g = (#[trigger] qb[c][i]) as int;
            &&& 0 <= g < post.node_count()
            &&& post.linked_at(g)
            &&& post.key_at(g) == c
        } by {
            let g = qb[c][i] as int;
            let j: int = if c == b && i >= p {
                i + 1
            } else {
                i
            };
            assert(qb[c][i] == pb[c][j]);
            assert(pb[c][j] != h);
            assert(pre.linked_at(g) && pre.key_at(g) == c);
            assert(Self::node_same(pre, post, g));
        }
        assert forall|c1: int, i1: int, c2: int, i2: int|
            0 <= c1 <= post.high_spec() && 0 <= i1 < qb[c1].len() && 0 <= c2 <= post.high_spec()
                && 0 <= i2 < qb[c2].len() && (c1 != c2 || i1 != i2) implies qb[c1][i1]
            != qb[c2][i2] by {
            let j1: int = if c1 == b && i1 >= p {
                i1 + 1
            } else {
                i1
            };
            let j2: int = if c2 == b && i2 >= p {
                i2 + 1
            } else {
                i2
            };
            assert(qb[c1][i1] == pb[c1][j1]);
            assert(qb[c2][i2] == pb[c2][j2]);
            assert(c1 != c2 || j1 != j2);
        }
        assert forall|g: int|
            0 <= g < post.node_count() && #[trigger] post.linked_at(g) implies {
            &&& 0 < post.key_at(g) <= post.high_spec()
            &&& qb[post.key_at(g)].contains(g as usize)
        } by {
            assert(pre.nodes.len() == pre.nodes@.len());
            assert(g as usize as int == g);
            assert(g != h as int);
            assert(Self::node_same(pre, post, g));
            assert(pre.linked_at(g));
            let k = pre.key_at(g);
            let j = choose|j: int| 0 <= j < pb[k].len() && pb[k][j] == g as usize;
            if k == b {
                assert(pb[b][j] == g as usize && g as usize != h);
                assert(j != p);
                if j < p {
                    assert(qb[b][j] == g as usize);
                } else {
                    assert(qb[b][j - 1] == pb[b][j]);
                }
            } else {
                assert(qb[k][j] == g as usize);
            }
        }
        assert forall|c: int|
            post.max_spec() < c <= post.high_spec() implies (#[trigger] post.buckets()[c]).len()
            == 0 by {
            if c == b {
                assert(pre.buckets()[c].len() == 0);
            } else {
                assert(post.buckets()[c] == pre.buckets()[c]);
            }
        }
    }

    /// Walks `max` downward past empty buckets until it rests on a nonempty
    /// bucket or on 0, restoring the full invariant.
    fn update_max_key(&mut self)
        requires
            old(self).wf_weak(),
        ensures
            final(self).wf(),
            final(self).buckets() == old(self).buckets(),
            final(self).nodes == old(self).nodes,
            Self::same_shape(*old(self), *final(self)),
            final(self).max_spec() <= old(self).max_spec(),
    {
        while self.max > 0 && self.bucket[self.max].len() == 0
            invariant
                self.wf_weak(),
                self.bucket == old(self).bucket,
                self.nodes == old(self).nodes,
                self.offset == old(self).offset,
                self.high == old(self).high,
                self.max <= old(self).max,
            decreases self.max,
        {
            let ghost entry = *self;
            self.max = self.max - 1;
            proof {
                Self::lemma_wf_links_frame(entry, *self);
                assert forall|g: int| 0 <= g < entry.node_count() implies Self::node_same(
                    entry,
                    *self,
                    g,
                ) by {}
            }
        }
    }

    /// Relation of one `popleft`: the front node of the maximum bucket
    /// leaves the queue; its stored key — the maximum at the time of the
    /// call — stays on the node, and the tracked maximum never rises.
    pub open spec fn popleft_rel(pre: Self, post: Self, h: usize) -> bool {
        &&& Self::same_shape(pre, post)
        &&& Self::nodes_same_except(pre, post, h as int)
        &&& h == pre.buckets()[pre.max_spec()][0]
        &&& !post.linked_at(h as int)
        &&& post.key_at(h as int) == pre.key_at(h as int)
        &&& post.key_at(h as int) == pre.max_spec()
        &&& post.aux_at(h as int) == pre.aux_at(h as int)
        &&& post.buckets() == pre.buckets().update(
            pre.max_spec(),
            pre.buckets()[pre.max_spec()].drop_first(),
        )
        &&& post.max_spec() <= pre.max_spec()
        &&& post.wf()
    }

    /// Detaches and returns the front node of the current maximum bucket,
    /// then walks `max` down past any now-empty buckets.
    pub fn popleft(&mut self) -> (h: usize)
        requires
            old(self).wf(),
            old(self).max_spec() > 0,
        ensures
            Self::popleft_rel(*old(self), *final(self), h),
    {
        let m = self.max;
        let h = self.bucket[m][0];
        self.bucket[m].remove(0);
        let mut n = self.nodes[h];
        n.linked = false;
        self.nodes.set(h, n);
        proof {
            assert(old(self).buckets()[m as int][0] == h);
            assert(old(self).linked_at(h as int) && old(self).key_at(h as int) == m as int);
            assert(self.buckets() =~= old(self).buckets().update(
                m as int,
                old(self).buckets()[m as int].remove(0),
            ));
            assert(old(self).buckets()[m as int].remove(0) =~= old(self).buckets()[
                m as int].drop_first());
            Self::lemma_wf_remove(*old(self), *self, h, m as int, 0);
        }
        self.update_max_key();
        h
    }

    /// Relation of one `detach`: the attached node `h` leaves the one bucket
    /// position it occupied; everything else is untouched and the tracked
    /// maximum never rises.
    pub open spec fn detach_rel(pre: Self, post: Self, h: usize) -> bool {
        let b = pre.key_at(h as int);
        &&& Self::same_shape(pre, post)
        &&& Self::nodes_same_except(pre, post, h as int)
        &&& !post.linked_at(h as int)
        &&& post.key_at(h as int) == pre.key_at(h as int)
        &&& post.aux_at(h as int) == pre.aux_at(h as int)
        &&& (exists|p: int|
            0 <= p < pre.buckets()[b].len() && pre.buckets()[b][p] == h && post.buckets()
                == pre.buckets().update(b, pre.buckets()[b].remove(p)))
        &&& post.max_spec() <= pre.max_spec()
        &&& post.wf()
    }

    /// Detaches the attached node `h` from its bucket without reinsertion,
    /// then walks `max` down past any now-empty buckets.
    pub fn detach(&mut self, h: usize)
        requires
            old(self).wf(),
            0 <= h < old(self).node_count(),
            old(self).linked_at(h as int),
        ensures
            Self::detach_rel(*old(self), *final(self), h),
    {
        let b = self.nodes[h].key as usize;
        let p = self.find_in_bucket(b, h);
        self.bucket[b].remove(p);
        let mut n = self.nodes[h];
        n.linked = false;
        self.nodes.set(h, n);
        proof {
            assert(self.buckets() =~= old(self).buckets().update(
                b as int,
                old(self).buckets()[b as int].remove(p as int),
            ));
            Self::lemma_wf_remove(*old(self), *self, h, b as int, p as int);
        }
        self.update_max_key();
    }

    /// Relation of one key update: the attached node `h` leaves the one
    /// bucket position it occupied, its stored key moves by `dkey`, and it
    /// reenters the bucket its new key names — at the front when the key
    /// rose, at the back when it fell.
    pub open spec fn rekey_rel(pre: Self, post: Self, h: usize, dkey: int) -> bool {
        let b0 = pre.key_at(h as int);
        let b1 = b0 + dkey;
        &&& Self::same_shape(pre, post)
        &&& Self::nodes_same_except(pre, post, h as int)
        &&& post.linked_at(h as int)
        &&& post.key_at(h as int) == b1
        &&& post.aux_at(h as int) == pre.aux_at(h as int)
        &&& (exists|p: int|
            0 <= p < pre.buckets()[b0].len() && pre.buckets()[b0][p] == h && post.buckets()
                == pre.buckets().update(b0, pre.buckets()[b0].remove(p)).update(
                b1,
                if dkey > 0 {
                    seq![h] + pre.buckets()[b1]
                } else {
                    pre.buckets()[b1].push(h)
                },
            ))
        &&& post.wf()
    }

    /// Raises the stored key of the attached node `h` by `delta` and moves it
    /// to the front of its new bucket, so that among equal keys the most
    /// recently promoted node is served first.
    pub fn increase_key(&mut self, h: usize, delta: i32)
        requires
            old(self).wf(),
            0 <= h < old(self).node_count(),
            old(self).linked_at(h as int),
            delta > 0,
            old(self).key_at(h as int) + delta <= old(self).high_spec(),
        ensures
            Self::rekey_rel(*old(self), *final(self), h, delta as int),
    {
        let b0 = self.nodes[h].key as usize;
        let p = self.find_in_bucket(b0, h);
        self.bucket[b0].remove(p);
        let mut n = self.nodes[h];
        n.linked = false;
        self.nodes.set(h, n);
        let ghost mid1 = *self;
        proof {
            assert(self.buckets() =~= old(self).buckets().update(
                b0 as int,
                old(self).buckets()[b0 as int].remove(p as int),
            ));
            Self::lemma_wf_remove(*old(self), mid1, h, b0 as int, p as int);
        }
        let mut n2 = self.nodes[h];
        n2.key = n2.key + delta as i64;
        self.nodes.set(h, n2);
        let ghost mid2 = *self;
        proof {
            Self::lemma_wf_node_frame(mid1, mid2, h as int);
        }
        let b1 = self.nodes[h].key as usize;
        let mut n3 = self.nodes[h];
        n3.linked = true;
        self.nodes.set(h, n3);
        if self.max < b1 {
            self.max = b1;
        }
        self.bucket[b1].insert(0, h);
        proof {
            assert(self.buckets()[b1 as int] =~= seq![h] + mid2.buckets()[b1 as int]);
            assert(self.buckets() =~= mid2.buckets().update(
                b1 as int,
                seq![h] + mid2.buckets()[b1 as int],
            ));
            Self::lemma_wf_insert(mid2, *self, h, b1 as int, true);
            Self::lemma_max_raise(mid2, *self, b1 as int);
        }
        self.update_max_key();
        proof {
            assert(self.buckets() =~= old(self).buckets().update(
                b0 as int,
                old(self).buckets()[b0 as int].remove(p as int),
            ).update(b1 as int, seq![h] + old(self).buckets()[b1 as int]));
        }
    }

    /// Lowers the stored key of the attached node `h` by `delta` and moves
    /// it to the back of its new bucket, so that among equal keys nodes are
    /// served in arrival order.
    pub fn decrease_key(&mut self, h: usize, delta: i32)
        requires
            old(self).wf(),
            0 <= h < old(self).node_count(),
            old(self).linked_at(h as int),
            delta > 0,
            old(self).key_at(h as int) - delta > 0,
        ensures
            Self::rekey_rel(*old(self), *final(self), h, -(delta as int)),
    {
        let b0 = self.nodes[h].key as usize;
        let p = self.find_in_bucket(b0, h);
        self.bucket[b0].remove(p);
        let mut n = self.nodes[h];
        n.linked = false;
        self.nodes.set(h, n);
        let ghost mid1 = *self;
        proof {
            assert(self.buckets() =~= old(self).buckets().update(
                b0 as int,
                old(self).buckets()[b0 as int].remove(p as int),
            ));
            Self::lemma_wf_remove(*old(self), mid1, h, b0 as int, p as int);
        }
        let mut n2 = self.nodes[h];
        n2.key = n2.key - delta as i64;
        self.nodes.set(h, n2);
        let ghost mid2 = *self;
        proof {
            Self::lemma_wf_node_frame(mid1, mid2, h as int);
        }
        let b1 = self.nodes[h].key as usize;
        let mut n3 = self.nodes[h];
        n3.linked = true;
        self.nodes.set(h, n3);
        if self.max < b1 {
            self.max = b1;
        }
        self.bucket[b1].push(h);
        proof {
            assert(self.buckets() =~= mid2.buckets().update(
                b1 as int,
                mid2.buckets()[b1 as int].push(h),
            ));
            Self::lemma_wf_insert(mid2, *self, h, b1 as int, false);
            Self::lemma_max_raise(mid2, *self, b1 as int);
        }
        self.update_max_key();
        proof {
            assert(self.buckets() =~= old(self).buckets().update(
                b0 as int,
                old(self).buckets()[b0 as int].remove(p as int),
            ).update(b1 as int, old(self).buckets()[b1 as int].push(h)));
        }
    }

    /// Adjusts the key of node `h` by a signed `delta`: a no-op when the
    /// node is unattached or `delta` is 0, otherwise a raise to the front
    /// (`delta > 0`) or a fall to the back (`delta < 0`) of the new bucket.
    pub fn modify_key(&mut self, h: usize, delta: i32)
        requires
            old(self).wf(),
            0 <= h < old(self).node_count(),
            i32::MIN < delta,
            old(self).linked_at(h as int) && delta > 0 ==> old(self).key_at(h as int) + delta
                <= old(self).high_spec(),
            old(self).linked_at(h as int) && delta < 0 ==> old(self).key_at(h as int) + delta > 0,
        ensures
            !old(self).linked_at(h as int) ==> *final(self) == *old(self),
            delta == 0 ==> *final(self) == *old(self),
            old(self).linked_at(h as int) && delta != 0 ==> Self::rekey_rel(
                *old(self),
                *final(self),
                h,
                delta as int,
            ),
    {
        if !self.nodes[h].linked {
            return ;
        }
        if delta > 0 {
            self.increase_key(h, delta);
        } else if delta < 0 {
            self.decrease_key(h, 0 - delta);
        }
    }

    /// Empties every bucket, walking `max` down to 0, and marks every node
    /// unattached; stored keys and payloads are left in place.
    pub fn clear(&mut self)
        requires
            old(self).wf(),
        ensures
            final(self).wf(),
            Self::same_shape(*old(self), *final(self)),
            final(self).max_spec() == 0,
            forall|b: int|
                0 <= b <= final(self).high_spec() ==> (#[trigger] final(self).buckets()[b]).len()
                    == 0,
            forall|g: int|
                0 <= g < old(self).node_count() ==> (!(#[trigger] final(self).linked_at(g))
                    && final(self).key_at(g) == old(self).key_at(g) && final(self).aux_at(g)
                    == old(self).aux_at(g)),
    {
        while self.max > 0
            invariant
                self.high == old(self).high,
                self.offset == old(self).offset,
                self.nodes == old(self).nodes,
                self.buckets().len() == old(self).buckets().len(),
                old(self).wf(),
                self.max_spec() <= self.high_spec(),
                self.buckets().len() == self.high_spec() + 1,
                self.buckets()[0].len() == 0,
                forall|b: int|
                    self.max_spec() < b <= self.high_spec() ==> (#[trigger] self.buckets()[
                        b]).len() == 0,
            decreases self.max,
        {
            let ghost entry = *self;
            let m = self.max;
            self.bucket[m].clear();
            self.max = m - 1;
            proof {
                assert(self.buckets()[m as int] =~= Seq::<usize>::empty());
                assert forall|b: int|
                    self.max_spec() < b <= self.high_spec() implies (#[trigger] self.buckets()[
                    b]).len() == 0 by {
                    if b != m as int {
                        assert(self.buckets()[b] == entry.buckets()[b]);
                    }
                }
            }
        }
        let ghost swept = *self;
        let mut i: usize = 0;
        while i < self.nodes.len()
            invariant
                self.bucket == swept.bucket,
                self.max == 0usize,
                self.high == swept.high,
                self.offset == swept.offset,
                self.nodes@.len() == swept.nodes@.len(),
                i <= self.nodes@.len(),
                forall|g: int|
                    0 <= g < i ==> !(#[trigger] self.nodes@[g]).linked,
                forall|g: int|
                    0 <= g < self.nodes@.len() ==> ((#[trigger] self.nodes@[g]).key
                        == swept.nodes@[g].key && self.nodes@[g].aux == swept.nodes@[g].aux),
                forall|g: int| i <= g < self.nodes@.len() ==> self.nodes@[g] == swept.nodes@[g],
            decreases self.nodes@.len() - i,
        {
            let mut n = self.nodes[i];
            n.linked = false;
            self.nodes.set(i, n);
            i = i + 1;
        }
        proof {
            assert(forall|b: int|
                0 <= b <= self.high_spec() ==> (#[trigger] self.buckets()[b]).len() == 0);
        }
    }

    /// The handles' stored keys in a given queue state.
    pub open spec fn keys_of(q: BPQueue, hs: Seq<usize>) -> Seq<int> {
        hs.map_values(|x: usize| q.key_at(x as int))
    }

    /// Bulk front-insertion, one handle at a time: each handle enters the
    /// front of the bucket its key names, in sequence order.
    pub open spec fn front_load(bs: Seq<Seq<usize>>, ks: Seq<int>, hs: Seq<usize>) -> Seq<
        Seq<usize>,
    >
        decreases hs.len(),
    {
        if hs.len() == 0 || ks.len() == 0 {
            bs
        } else {
            Self::front_load(
                bs.update(ks[0], seq![hs[0]] + bs[ks[0]]),
                ks.drop_first(),
                hs.drop_first(),
            )
        }
    }

    /// The same bulk insertion at the back of each bucket: the bucket effect
    /// of a sequence of individual `append` calls.
    pub open spec fn back_load(bs: Seq<Seq<usize>>, ks: Seq<int>, hs: Seq<usize>) -> Seq<
        Seq<usize>,
    >
        decreases hs.len(),
    {
        if hs.len() == 0 || ks.len() == 0 {
            bs
        } else {
            Self::back_load(
                bs.update(ks[0], bs[ks[0]].push(hs[0])),
                ks.drop_first(),
                hs.drop_first(),
            )
        }
    }

    /// Bulk-loads the distinct unattached nodes in `hs`, each at the front
    /// of the bucket its already-stored key names, then recomputes `max` by
    /// one downward scan from the top.
    pub fn appendfrom(&mut self, hs: &Vec<usize>)
        requires
            old(self).wf(),
            forall|i: int|
                0 <= i < hs@.len() ==> {
                    let h = (#[trigger] hs@[i]) as int;
                    &&& 0 <= h < old(self).node_count()
                    &&& !old(self).linked_at(h)
                    &&& 0 < old(self).key_at(h) <= old(self).high_spec()
                },
            forall|i: int, j: int| 0 <= i < j < hs@.len() ==> #[trigger] hs@[i] != #[trigger] hs@[j],
        ensures
            final(self).wf(),
            Self::same_shape(*old(self), *final(self)),
            final(self).buckets() == Self::front_load(
                old(self).buckets(),
                Self::keys_of(*old(self), hs@),
                hs@,
            ),
            forall|i: int|
                0 <= i < hs@.len() ==> {
                    let h = (#[trigger] hs@[i]) as int;
                    &&& final(self).linked_at(h)
                    &&& final(self).key_at(h) == old(self).key_at(h)
                    &&& final(self).aux_at(h) == old(self).aux_at(h)
                },
            forall|g: int|
                0 <= g < old(self).node_count() && !hs@.contains(g as usize) ==> Self::node_same(
                    *old(self),
                    *final(self),
                    g,
                ),
    {
        let ghost ks = Self::keys_of(*old(self), hs@);
        let ghost goal = Self::front_load(old(self).buckets(), ks, hs@);
        proof {
            assert(hs@.len() == hs.len());
            assert(hs@.skip(0) =~= hs@);
            assert(ks.skip(0) =~= ks);
        }
        let mut idx: usize = 0;
        while idx < hs.len()
            invariant
                hs@.len() <= usize::MAX,
                idx <= hs@.len(),
                ks.len() == hs@.len(),
                ks == Self::keys_of(*old(self), hs@),
                self.wf_links(),
                self.max == old(self).max,
                self.high == old(self).high,
                self.offset == old(self).offset,
                self.node_count() == old(self).node_count(),
                Self::front_load(self.buckets(), ks.skip(idx as int), hs@.skip(idx as int))
                    == goal,
                forall|i: int|
                    0 <= i < hs@.len() ==> {
                        let h = (#[trigger] hs@[i]) as int;
                        &&& 0 <= h < old(self).node_count()
                        &&& 0 < old(self).key_at(h) <= old(self).high_spec()
                        &&& self.key_at(h) == old(self).key_at(h)
                        &&& self.aux_at(h) == old(self).aux_at(h)
                        &&& (i < idx ==> self.linked_at(h))
                        &&& (i >= idx ==> !self.linked_at(h))
                    },
                forall|i: int, j: int| 0 <= i < j < hs@.len() ==> #[trigger] hs@[i] != #[trigger] hs@[j],
                forall|g: int|
                    0 <= g < old(self).node_count() && !hs@.contains(g as usize)
                        ==> Self::node_same(*old(self), *self, g),
            decreases hs@.len() - idx,
        {
            let ghost entry = *self;
            let h = hs[idx];
            proof {
                assert(hs@[idx as int] == h);
                assert(entry.nodes.len() == entry.nodes@.len());
                assert(0 < entry.key_at(h as int) <= entry.high_spec());
                assert(!entry.linked_at(h as int));
            }
            let b = self.nodes[h].key as usize;
            proof {
                assert(b as int == entry.key_at(h as int));
                assert((b as int) < entry.buckets().len());
            }
            let mut n = self.nodes[h];
            n.linked = true;
            self.nodes.set(h, n);
            self.bucket[b].insert(0, h);
            proof {
                assert(hs@.skip(idx as int)[0] == h);
                assert(ks.skip(idx as int)[0] == entry.key_at(h as int));
                assert(self.buckets()[b as int] =~= seq![h] + entry.buckets()[b as int]);
                assert(self.buckets() =~= entry.buckets().update(
                    b as int,
                    seq![h] + entry.buckets()[b as int],
                ));
                Self::lemma_wf_insert(entry, *self, h, b as int, true);
                assert(ks.skip(idx as int).drop_first() =~= ks.skip(idx as int + 1));
                assert(hs@.skip(idx as int).drop_first() =~= hs@.skip(idx as int + 1));
                assert(hs@.contains(h));
                assert forall|g: int|
                    0 <= g < old(self).node_count() && !hs@.contains(g as usize) implies
                    Self::node_same(*old(self), *self, g) by {
                    assert(g as usize != h);
                    assert(self.nodes@[g] == entry.nodes@[g]);
                    assert(Self::node_same(*old(self), entry, g));
                }
            }
            idx = idx + 1;
        }
        proof {
            assert(hs@.skip(hs@.len() as int) =~= Seq::<usize>::empty());
            assert(ks.skip(hs@.len() as int) =~= Seq::<int>::empty());
            assert(self.buckets() == goal);
        }
        let ghost done = *self;
        self.max = self.high;
        proof {
            Self::lemma_wf_links_frame(done, *self);
            assert forall|b: int|
                self.max_spec() < b <= self.high_spec() implies (#[trigger] self.buckets()[
                b]).len() == 0 by {}
        }
        self.update_max_key();
        proof {
            assert forall|g: int|
                0 <= g < old(self).node_count() && !hs@.contains(g as usize) implies
                Self::node_same(*old(self), *self, g) by {
                assert(Self::node_same(*old(self), done, g));
                assert(self.nodes@[g] == done.nodes@[g]);
            }
        }
    }

    /// Keys returned by consecutive `popleft` calls never increase: each
    /// pop returns a node keyed at the tracked maximum, and the maximum
    /// never rises across a pop.
    pub proof fn lemma_popleft_keys_nonincreasing(
        q0: Self,
        q1: Self,
        q2: Self,
        h1: usize,
        h2: usize,
    )
        requires
            Self::popleft_rel(q0, q1, h1),
            Self::popleft_rel(q1, q2, h2),
        ensures
            q2.key_at(h2 as int) <= q1.key_at(h1 as int),
    {
    }

    /// Raising a key by `d` and then lowering it by `d` restores the node's
    /// key; when the node was the sole occupant of the maximum bucket, the
    /// buckets and the tracked maximum are restored as well.
    pub proof fn lemma_increase_then_decrease(q0: Self, q1: Self, q2: Self, h: usize, d: int)
        requires
            q0.wf(),
            0 <= h < q0.node_count(),
            q0.linked_at(h as int),
            d > 0,
            Self::rekey_rel(q0, q1, h, d),
            Self::rekey_rel(q1, q2, h, -d),
        ensures
            q2.key_at(h as int) == q0.key_at(h as int),
            q0.key_at(h as int) == q0.max_spec() && q0.buckets()[q0.max_spec()].len() == 1
                ==> q2.max_spec() == q0.max_spec() && q2.buckets() =~~= q0.buckets(),
    {
        let b0 = q0.key_at(h as int);
        let b1 = b0 + d;
        if q0.key_at(h as int) == q0.max_spec() && q0.buckets()[q0.max_spec()].len() == 1 {
            let p = choose|p: int|
                0 <= p < q0.buckets()[b0].len() && q0.buckets()[b0][p] == h && q1.buckets()
                    == q0.buckets().update(b0, q0.buckets()[b0].remove(p)).update(
                    b1,
                    seq![h] + q0.buckets()[b1],
                );
            assert(p == 0);
            assert(q0.buckets()[b0].remove(0) =~= Seq::<usize>::empty());
            assert(b1 > q0.max_spec());
            assert(q0.buckets()[b1].len() == 0);
            assert(q1.buckets()[b1] =~= seq![h]);
            assert(q1.buckets()[b0] =~= Seq::<usize>::empty());
            // The tracked maximum of q1 is exactly b1.
            assert(q1.buckets()[b1].len() > 0);
            assert(q1.max_spec() >= b1);
            assert(q1.max_spec() == b1) by {
                if q1.max_spec() > b1 {
                    assert(q1.buckets()[q1.max_spec()] == q0.buckets()[q1.max_spec()]);
                    assert(q0.buckets()[q1.max_spec()].len() == 0);
                }
            }
            // The second move puts `h` back where it started.
            let p2 = choose|p2: int|
                0 <= p2 < q1.buckets()[b1].len() && q1.buckets()[b1][p2] == h && q2.buckets()
                    == q1.buckets().update(b1, q1.buckets()[b1].remove(p2)).update(
                    b0,
                    q1.buckets()[b0].push(h),
                );
            assert(p2 == 0);
            assert(q1.buckets()[b1].remove(0) =~= Seq::<usize>::empty());
            assert(q2.buckets()[b0] =~= q0.buckets()[b0]) by {
                assert(q0.buckets()[b0][0] == h);
                assert(q0.buckets()[b0].len() == 1);
                assert(q1.buckets()[b0].push(h)[0] == h);
            }
            assert(q2.buckets() =~~= q0.buckets()) by {
                assert forall|c: int| 0 <= c < q0.buckets().len() implies q2.buckets()[c]
                    =~= q0.buckets()[c] by {
                    if c == b0 {
                    } else if c == b1 {
                        assert(q2.buckets()[b1] =~= Seq::<usize>::empty());
                    } else {
                        assert(q2.buckets()[c] == q0.buckets()[c]);
                    }
                }
            }
            assert(q2.buckets()[b0].len() > 0);
            assert(q2.max_spec() >= b0);
            assert(q2.max_spec() == b0) by {
                if q2.max_spec() > b0 {
                    assert(q2.buckets()[q2.max_spec()] =~= q0.buckets()[q2.max_spec()]);
                    assert(q0.buckets()[q2.max_spec()].len() == 0);
                }
            }
        }
    }

    /// The number of members: the total length of all buckets.
    pub open spec fn bucket_total(bs: Seq<Seq<usize>>) -> nat
        decreases bs.len(),
    {
        if bs.len() == 0 {
            0
        } else {
            bs.last().len() + Self::bucket_total(bs.drop_last())
        }
    }

    /// Replacing one bucket changes the member total by the difference of
    /// the bucket lengths.
    proof fn lemma_bucket_total_update(bs: Seq<Seq<usize>>, b: int, nb: Seq<usize>)
        requires
            0 <= b < bs.len(),
        ensures
            Self::bucket_total(bs.update(b, nb)) == Self::bucket_total(bs) - bs[b].len()
                + nb.len(),
        decreases bs.len(),
    {
        let bs2 = bs.update(b, nb);
        if b == bs.len() - 1 {
            assert(bs2.drop_last() =~= bs.drop_last());
            assert(bs2.last() == nb);
        } else {
            assert(bs2.drop_last() =~= bs.drop_last().update(b, nb));
            assert(bs2.last() == bs.last());
            Self::lemma_bucket_total_update(bs.drop_last(), b, nb);
        }
    }

    /// The member total is 0 exactly when every bucket is empty.
    proof fn lemma_bucket_total_zero(bs: Seq<Seq<usize>>)
        ensures
            (Self::bucket_total(bs) == 0) <==> (forall|b: int|
                0 <= b < bs.len() ==> (#[trigger] bs[b]).len() == 0),
        decreases bs.len(),
    {
        if bs.len() > 0 {
            Self::lemma_bucket_total_zero(bs.drop_last());
            assert(forall|b: int|
                0 <= b < bs.len() - 1 ==> #[trigger] bs[b] == bs.drop_last()[b]);
            assert(bs.last() == bs[bs.len() - 1]);
        }
    }

    /// `detach` removes exactly one member, and the queue reports empty
    /// afterwards exactly when that node was the only member.
    pub proof fn lemma_detach_sole_member(pre: Self, post: Self, h: usize)
        requires
            pre.wf(),
            0 <= h < pre.node_count(),
            pre.linked_at(h as int),
            Self::detach_rel(pre, post, h),
        ensures
            Self::bucket_total(post.buckets()) == Self::bucket_total(pre.buckets()) - 1,
            (post.max_spec() == 0) <==> (Self::bucket_total(pre.buckets()) == 1),
    {
        let b = pre.key_at(h as int);
        let p = choose|p: int|
            0 <= p < pre.buckets()[b].len() && pre.buckets()[b][p] == h && post.buckets()
                == pre.buckets().update(b, pre.buckets()[b].remove(p));
        assert(0 < b <= pre.high_spec());
        Self::lemma_bucket_total_update(pre.buckets(), b, pre.buckets()[b].remove(p));
        Self::lemma_bucket_total_zero(post.buckets());
        if post.max_spec() == 0 {
            assert forall|c: int| 0 <= c < post.buckets().len() implies (#[trigger] post.buckets()[
                c]).len() == 0 by {
                if c > 0 {
                    assert(post.buckets()[c].len() == 0);
                }
            }
            assert(Self::bucket_total(post.buckets()) == 0);
        } else {
            assert(post.buckets()[post.max_spec()].len() > 0);
            assert(Self::bucket_total(post.buckets()) != 0);
        }
    }

    /// Prepending an element builds the same multiset as appending it.
    proof fn lemma_head_multiset(h: usize, s: Seq<usize>)
        ensures
            (seq![h] + s).to_multiset() == s.to_multiset().insert(h),
    {
        let t = seq![h] + s;
        t.to_multiset_ensures();
        s.to_multiset_ensures();
        assert(t.remove(0) =~= s);
        assert(t[0] == h);
        assert(t.remove(0).to_multiset() =~= t.to_multiset().remove(h));
        assert(t.contains(h));
        assert(t.to_multiset().count(h) > 0);
        assert(t.to_multiset() =~= s.to_multiset().insert(h));
    }

    /// Front-loading and back-loading the same keyed handles from states
    /// with pointwise equal bucket membership end with pointwise equal
    /// bucket membership.
    proof fn lemma_loads_multiset(
        as1: Seq<Seq<usize>>,
        as2: Seq<Seq<usize>>,
        ks: Seq<int>,
        hs: Seq<usize>,
    )
        requires
            as1.len() == as2.len(),
            ks.len() == hs.len(),
            forall|b: int|
                0 <= b < as1.len() ==> (#[trigger] as1[b]).to_multiset() == as2[b].to_multiset(),
            forall|i: int| 0 <= i < ks.len() ==> 0 <= #[trigger] ks[i] < as1.len(),
        ensures
            Self::front_load(as1, ks, hs).len() == as1.len(),
            Self::back_load(as2, ks, hs).len() == as2.len(),
            forall|b: int|
                0 <= b < as1.len() ==> (#[trigger] Self::front_load(as1, ks, hs)[b]).to_multiset()
                    == Self::back_load(as2, ks, hs)[b].to_multiset(),
        decreases hs.len(),
    {
        if hs.len() == 0 || ks.len() == 0 {
        } else {
            let k0 = ks[0];
            let h0 = hs[0];
            let n1 = as1.update(k0, seq![h0] + as1[k0]);
            let n2 = as2.update(k0, as2[k0].push(h0));
            Self::lemma_head_multiset(h0, as1[k0]);
            as2[k0].to_multiset_ensures();
            assert forall|b: int| 0 <= b < n1.len() implies (#[trigger] n1[b]).to_multiset()
                == n2[b].to_multiset() by {
                if b == k0 {
                    assert(n1[b].to_multiset() == as1[k0].to_multiset().insert(h0));
                    assert(n2[b].to_multiset() =~= as2[k0].to_multiset().insert(h0));
                }
            }
            assert(forall|i: int|
                0 <= i < ks.drop_first().len() ==> #[trigger] ks.drop_first()[i] == ks[i + 1]);
            Self::lemma_loads_multiset(n1, n2, ks.drop_first(), hs.drop_first());
        }
    }

    /// Bulk front-loading puts, bucket by bucket, exactly the members that
    /// the same insertions made one at a time at the back would: the bucket
    /// effect of an `appendfrom` matches the equivalent sequence of
    /// `append` calls, up to order within each bucket.
    pub proof fn lemma_front_load_matches_back_load(
        bs: Seq<Seq<usize>>,
        ks: Seq<int>,
        hs: Seq<usize>,
    )
        requires
            ks.len() == hs.len(),
            forall|i: int| 0 <= i < ks.len() ==> 0 <= #[trigger] ks[i] < bs.len(),
        ensures
            Self::front_load(bs, ks, hs).len() == bs.len(),
            Self::back_load(bs, ks, hs).len() == bs.len(),
            forall|b: int|
                0 <= b < bs.len() ==> (#[trigger] Self::front_load(bs, ks, hs)[b]).to_multiset()
                    == Self::back_load(bs, ks, hs)[b].to_multiset(),
    {
        Self::lemma_loads_multiset(bs, bs, ks, hs);
    }

    /// Two well-formed queues whose buckets hold, place for place, the same
    /// members track the same maximum; with the previous lemma, an
    /// `appendfrom` ends on the same maximum as the equivalent `append`
    /// calls.
    pub proof fn lemma_equal_occupancy_same_max(p: Self, q: Self)
        requires
            p.wf(),
            q.wf(),
            p.high_spec() == q.high_spec(),
            forall|b: int|
                0 <= b <= p.high_spec() ==> (#[trigger] p.buckets()[b]).to_multiset()
                    == q.buckets()[b].to_multiset(),
        ensures
            p.max_spec() == q.max_spec(),
    {
        assert forall|b: int|
            0 <= b <= p.high_spec() implies (#[trigger] p.buckets()[b]).len() == q.buckets()[
            b].len() by {
            p.buckets()[b].to_multiset_ensures();
            q.buckets()[b].to_multiset_ensures();
        }
        if p.max_spec() < q.max_spec() {
            assert(q.buckets()[q.max_spec()].len() > 0);
            assert(p.buckets()[q.max_spec()].len() == 0);
            assert(false);
        }
        if q.max_spec() < p.max_spec() {
            assert(p.buckets()[p.max_spec()].len() > 0);
            assert(q.buckets()[p.max_spec()].len() == 0);
            assert(false);
        }
    }

    /// Finds the position of the attached node `h` inside its bucket `b`.
    fn find_in_bucket(&self, b: usize, h: usize) -> (p: usize)
        requires
            self.wf_weak(),
            0 <= h < self.node_count(),
            self.linked_at(h as int),
            b as int == self.key_at(h as int),
        ensures
            0 <= p < self.buckets()[b as int].len(),
            self.buckets()[b as int][p as int] == h,
    {
        proof {
            assert(self.buckets()[b as int].contains(h));
        }
        let ghost witness: int = choose|j: int|
            0 <= j < self.buckets()[b as int].len() && self.buckets()[b as int][j] == h;
        proof {
            assert(self.bucket@[b as int].len() == self.buckets()[b as int].len());
        }
        let mut p: usize = 0;
        while self.bucket[b][p] != h
            invariant
                self.wf_weak(),
                0 < b as int <= self.high_spec(),
                self.buckets()[b as int].len() <= usize::MAX,
                0 <= p as int <= witness,
                witness < self.buckets()[b as int].len(),
                self.buckets()[b as int][witness] == h,
                forall|j: int| 0 <= j < p ==> self.buckets()[b as int][j] != h,
            decreases witness - p,
        {
            p = p + 1;
        }
        p
    }
}

/// The handles of all members in buckets `b` down to 1, highest bucket
/// first, each bucket front to back.
pub open spec fn descending(bs: Seq<Seq<usize>>, b: int) -> Seq<usize>
    decreases b,
{
    if b <= 0 {
        Seq::empty()
    } else {
        bs[b] + descending(bs, b - 1)
    }
}

/// A descending-key traversal position in a `BPQueue`: the bucket under
/// scan and the next position inside it.
pub struct BPQueueIterator {
    curkey: usize,
    pos: usize,
}

impl BPQueueIterator {
    /// The bucket index under scan.
    pub closed spec fn curkey_spec(&self) -> int {
        self.curkey as int
    }

    /// The next position inside the bucket under scan.
    pub closed spec fn pos_spec(&self) -> int {
        self.pos as int
    }

    /// The traversal points into the queue's buckets; bucket 0 ends it.
    pub open spec fn valid(&self, q: &BPQueue) -> bool {
        &&& q.wf()
        &&& 0 <= self.curkey_spec() <= q.high_spec()
        &&& 0 <= self.pos_spec() <= q.buckets()[self.curkey_spec()].len()
        &&& (self.curkey_spec() == 0 ==> self.pos_spec() == 0)
    }

    /// The handles not yet yielded, in traversal order.
    pub open spec fn remaining(&self, q: &BPQueue) -> Seq<usize> {
        q.buckets()[self.curkey_spec()].skip(self.pos_spec()) + descending(
            q.buckets(),
            self.curkey_spec() - 1,
        )
    }

    /// Starts a traversal at the front of the maximum bucket.
    pub fn new(q: &BPQueue) -> (r: Self)
        requires
            q.wf(),
        ensures
            r.valid(q),
            r.curkey_spec() == q.max_spec(),
            r.pos_spec() == 0,
            r.remaining(q) == descending(q.buckets(), q.max_spec()),
    {
        let r = Self { curkey: q.max_of(), pos: 0 };
        proof {
            if q.max_spec() > 0 {
                assert(r.remaining(q) =~= descending(q.buckets(), q.max_spec()));
            } else {
                assert(q.buckets()[0].skip(0) =~= Seq::<usize>::empty());
                assert(r.remaining(q) =~= descending(q.buckets(), 0));
            }
        }
        r
    }

    /// Yields the next member handle in descending key order, scanning past
    /// empty buckets, or nothing once bucket 0 is reached.
    pub fn next(&mut self, q: &BPQueue) -> (item: Option<usize>)
        requires
            old(self).valid(q),
        ensures
            final(self).valid(q),
            old(self).remaining(q).len() > 0 ==> {
                &&& item == Some(old(self).remaining(q)[0])
                &&& final(self).remaining(q) == old(self).remaining(q).drop_first()
            },
            old(self).remaining(q).len() == 0 ==> {
                &&& item.is_none()
                &&& final(self).remaining(q) == old(self).remaining(q)
            },
    {
        while self.curkey > 0 && self.pos >= q.bucket[self.curkey].len()
            invariant
                self.valid(q),
                self.remaining(q) == old(self).remaining(q),
            decreases self.curkey,
        {
            let ghost entry = *self;
            self.curkey = self.curkey - 1;
            self.pos = 0;
            proof {
                assert(q.buckets()[entry.curkey_spec()].skip(entry.pos_spec())
                    =~= Seq::<usize>::empty());
                if entry.curkey_spec() - 1 > 0 {
                    assert(descending(q.buckets(), entry.curkey_spec() - 1) == q.buckets()[
                        entry.curkey_spec() - 1] + descending(
                        q.buckets(),
                        entry.curkey_spec() - 2,
                    ));
                }
                assert(q.buckets()[self.curkey_spec()].skip(0) =~= q.buckets()[
                    self.curkey_spec()]);
                assert(self.remaining(q) =~= entry.remaining(q));
            }
        }
        if self.curkey == 0 {
            proof {
                assert(self.remaining(q) =~= Seq::<usize>::empty());
            }
            None
        } else {
            let ghost entry = *self;
            let item = q.bucket[self.curkey][self.pos];
            self.pos = self.pos + 1;
            proof {
                let bs = q.buckets();
                let c = entry.curkey_spec();
                let p = entry.pos_spec();
                assert(bs[c].skip(p)[0] == bs[c][p]);
                assert(bs[c].skip(p).len() > 0);
                assert(entry.remaining(q)[0] == bs[c][p]);
                assert(bs[c].skip(p).drop_first() =~= bs[c].skip(p + 1));
                assert(self.remaining(q) =~= entry.remaining(q).drop_first());
            }
            Some(item)
        }
    }
}

} // verus!
