//! Round-robin cycling over a fixed set of parts, modelled as a vector of
//! singly-linked nodes whose successors are stored as indices.

use vstd::prelude::*;

verus! {

/// A node of a singly-linked cycle; `next` is an index into the owning cycle.
pub struct SlNode {
    /// Index of the successor node; assigned when the node is wired into a cycle.
    pub next: usize,
    /// The part number carried by this node.
    pub data: i32,
}

impl SlNode {
    /// Creates an unwired node carrying `data`; the successor index is set
    /// when the node is placed into a cycle.
    pub fn new(data: i32) -> (r: Self)
        ensures
            r.data == data,
            r.next == 0,
    {
        Self { next: 0, data }
    }
}

/// A fixed cycle of parts `0..num_parts`, each node pointing at the next.
pub struct Robin {
    cycle: Vec<SlNode>,
}

impl Robin {
    /// The number of parts in the cycle.
    pub closed spec fn len_spec(&self) -> nat {
        self.cycle@.len()
    }

    /// Every node carries its own index and points at its cyclic successor.
    pub closed spec fn wf(&self) -> bool {
        forall|i: int|
            0 <= i < self.cycle@.len() ==> (#[trigger] self.cycle@[i]).data == i
                && self.cycle@[i].next == ((i + 1) % (self.cycle@.len() as int))
    }

    /// Builds the cycle `0 -> 1 -> ... -> num_parts - 1 -> 0`.
    pub fn new(num_parts: usize) -> (r: Self)
        requires
            num_parts <= i32::MAX,
        ensures
            r.wf(),
            r.len_spec() == num_parts,
    {
        let mut cycle: Vec<SlNode> = Vec::new();
        let mut k: usize = 0;
        while k < num_parts
            invariant
                k <= num_parts,
                num_parts <= i32::MAX,
                cycle@.len() == k,
                forall|i: int|
                    0 <= i < k ==> (#[trigger] cycle@[i]).data == i && cycle@[i].next == i + 1,
            decreases num_parts - k,
        {
            let mut node = SlNode::new(k as i32);
            node.next = k + 1;
            cycle.push(node);
            k = k + 1;
        }
        if num_parts > 0 {
            let last = num_parts - 1;
            let data = cycle[last].data;
            cycle.set(last, SlNode { next: 0, data });
        }
        let r = Self { cycle };
        proof {
            assert forall|i: int| 0 <= i < r.cycle@.len() implies (#[trigger] r.cycle@[i]).data
                == i && r.cycle@[i].next == ((i + 1) % (r.cycle@.len() as int)) by {
                let n = r.cycle@.len() as int;
                if i + 1 < n {
                    assert((i + 1) % n == i + 1) by (nonlinear_arith)
                        requires
                            0 <= i + 1 < n,
                    ;
                } else {
                    assert(n % n == 0) by (nonlinear_arith)
                        requires
                            n > 0,
                    ;
                }
            }
        }
        r
    }

    /// Starts a traversal that yields every part except `from_part`, in
    /// cyclic order beginning just after it.
    pub fn exclude(&self, from_part: usize) -> (r: RobinIterator)
        requires
            self.wf(),
            from_part < self.len_spec(),
        ensures
            r.valid(self),
            r.cur_spec() == from_part,
            r.stop_spec() == from_part,
    {
        RobinIterator { cur: from_part, stop: from_part }
    }
}

/// A traversal position in a `Robin` cycle: the current node and the node at
/// which the traversal stops.
pub struct RobinIterator {
    cur: usize,
    stop: usize,
}

impl RobinIterator {
    /// The index of the node yielded last (or the start, before any step).
    pub closed spec fn cur_spec(&self) -> usize {
        self.cur
    }

    /// The index at which the traversal ends.
    pub closed spec fn stop_spec(&self) -> usize {
        self.stop
    }

    /// Both positions lie inside the (nonempty) cycle.
    pub open spec fn valid(&self, r: &Robin) -> bool {
        r.wf() && r.len_spec() > 0 && (self.cur_spec() as int) < r.len_spec()
            && (self.stop_spec() as int) < r.len_spec()
    }

    /// Starts a traversal at node `start`, stopping when it comes back.
    pub fn new(start: usize) -> (r: Self)
        ensures
            r.cur_spec() == start,
            r.stop_spec() == start,
    {
        Self { cur: start, stop: start }
    }

    /// Steps to the successor of the current node and yields its part number,
    /// or yields nothing once the stop node is reached again.
    pub fn next(&mut self, r: &Robin) -> (item: Option<i32>)
        requires
            old(self).valid(r),
        ensures
            final(self).valid(r),
            final(self).stop_spec() == old(self).stop_spec(),
            final(self).cur_spec() as int == ((old(self).cur_spec() + 1) as int) % (
            r.len_spec() as int),
            item == if final(self).cur_spec() != final(self).stop_spec() {
                Some(final(self).cur_spec() as i32)
            } else {
                Option::<i32>::None
            },
    {
        self.cur = r.cycle[self.cur].next;
        if self.cur != self.stop {
            Some(r.cycle[self.cur].data)
        } else {
            None
        }
    }
}

} // verus!
