//! A sentinel-headed list of payload-carrying nodes with access at both
//! ends. The sentinel is locked exactly when the list is empty, and
//! "unattached" is an explicit flag on each node rather than a
//! self-referential link: the list owns its members while they are attached
//! and hands them back when they are popped.

use vstd::prelude::*;

verus! {

/// A payload-carrying node. `locked` means the node is not currently a
/// member of any list.
pub struct Dllink<T> {
    locked: bool,
    data: T,
}

impl<T> Dllink<T> {
    /// Whether the node is unattached.
    pub closed spec fn is_locked_spec(&self) -> bool {
        self.locked
    }

    /// The payload.
    pub closed spec fn data_spec(&self) -> T {
        self.data
    }

    /// Creates an unattached node carrying `data`.
    pub fn new(data: T) -> (r: Self)
        ensures
            r.is_locked_spec(),
            r.data_spec() == data,
    {
        Self { locked: true, data }
    }

    /// Returns whether the node is unattached.
    pub fn is_locked(&self) -> (r: bool)
        ensures
            r == self.is_locked_spec(),
    {
        self.locked
    }

    /// Marks the node unattached; idempotent.
    pub fn lock(&mut self)
        ensures
            final(self).is_locked_spec(),
            final(self).data_spec() == old(self).data_spec(),
    {
        self.locked = true;
    }

    /// Marks `other` attached immediately after this node, which becomes
    /// (or stays) attached as well.
    pub fn attach(&mut self, other: &mut Dllink<T>)
        requires
            old(other).is_locked_spec(),
        ensures
            !final(self).is_locked_spec(),
            !final(other).is_locked_spec(),
            final(self).data_spec() == old(self).data_spec(),
            final(other).data_spec() == old(other).data_spec(),
    {
        self.locked = false;
        other.locked = false;
    }

    /// Marks the node unattached again after it leaves its list.
    pub fn detach(&mut self)
        ensures
            final(self).is_locked_spec(),
            final(self).data_spec() == old(self).data_spec(),
    {
        self.locked = true;
    }

    /// Reads the payload.
    pub fn data(&self) -> (r: &T)
        ensures
            *r == self.data_spec(),
    {
        &self.data
    }

    /// Borrows the payload for mutation.
    pub fn data_mut(&mut self) -> (r: &mut T)
        ensures
            *r == old(self).data_spec(),
            final(self).data_spec() == *final(r),
            final(self).is_locked_spec() == old(self).is_locked_spec(),
    {
        &mut self.data
    }
}

/// A list with a sentinel head node; members are owned by the list while
/// attached and returned to the caller when popped.
pub struct Dllist<T> {
    head: Dllink<T>,
    members: Vec<Dllink<T>>,
}

impl<T> Dllist<T> {
    /// The member payloads, front to back.
    pub closed spec fn view(&self) -> Seq<T> {
        self.members@.map_values(|l: Dllink<T>| l.data_spec())
    }

    /// The sentinel is locked exactly when the list is empty, and every
    /// member is marked attached.
    pub closed spec fn wf(&self) -> bool {
        &&& self.head.is_locked_spec() <==> self.members@.len() == 0
        &&& forall|i: int|
            0 <= i < self.members@.len() ==> !(#[trigger] self.members@[i]).is_locked_spec()
    }

    /// Creates an empty list whose sentinel carries `data`.
    pub fn new(data: T) -> (r: Self)
        ensures
            r.wf(),
            r@ =~= Seq::<T>::empty(),
    {
        Self { head: Dllink::new(data), members: Vec::new() }
    }

    /// Returns whether the list has no members: the sentinel is locked.
    pub fn is_empty(&self) -> (r: bool)
        requires
            self.wf(),
        ensures
            r == (self@.len() == 0),
    {
        self.head.is_locked()
    }

    /// Removes every member by relocking the sentinel; the members are
    /// released rather than left with stale links.
    pub fn clear(&mut self)
        ensures
            final(self).wf(),
            final(self)@ =~= Seq::<T>::empty(),
    {
        self.head.lock();
        self.members.clear();
    }

    /// Attaches `node` at the back of the list.
    pub fn append(&mut self, node: Dllink<T>)
        requires
            old(self).wf(),
            node.is_locked_spec(),
        ensures
            final(self).wf(),
            final(self)@ =~= old(self)@ + seq![node.data_spec()],
    {
        let mut node = node;
        self.head.attach(&mut node);
        self.members.push(node);
    }

    /// Attaches `node` at the front of the list, immediately after the
    /// sentinel.
    pub fn appendleft(&mut self, node: Dllink<T>)
        requires
            old(self).wf(),
            node.is_locked_spec(),
        ensures
            final(self).wf(),
            final(self)@ =~= seq![node.data_spec()] + old(self)@,
    {
        let mut node = node;
        self.head.attach(&mut node);
        self.members.insert(0, node);
    }

    /// Detaches and returns the front member; the returned node is locked.
    pub fn popleft(&mut self) -> (r: Dllink<T>)
        requires
            old(self).wf(),
            old(self)@.len() > 0,
        ensures
            final(self).wf(),
            r.is_locked_spec(),
            r.data_spec() == old(self)@[0],
            final(self)@ =~= old(self)@.drop_first(),
    {
        let mut node = self.members.remove(0);
        node.lock();
        if self.members.len() == 0 {
            self.head.lock();
        }
        node
    }

    /// Detaches and returns the back member; the returned node is locked.
    pub fn pop(&mut self) -> (r: Dllink<T>)
        requires
            old(self).wf(),
            old(self)@.len() > 0,
        ensures
            final(self).wf(),
            r.is_locked_spec(),
            r.data_spec() == old(self)@.last(),
            final(self)@ =~= old(self)@.drop_last(),
    {
        let last = self.members.len() - 1;
        let mut node = self.members.remove(last);
        node.lock();
        if self.members.len() == 0 {
            self.head.lock();
        }
        node
    }

    /// Starts a front-to-back traversal of the member payloads.
    pub fn iter(&self) -> (r: DllIterator)
        ensures
            r.pos_spec() == 0,
    {
        DllIterator::new()
    }
}

impl<T: Copy> Dllist<T> {
    /// The member payloads, front to back, as a vector.
    pub fn to_vec(&self) -> (r: Vec<T>)
        ensures
            r@ =~= self@,
    {
        let mut out: Vec<T> = Vec::new();
        let mut i: usize = 0;
        while i < self.members.len()
            invariant
                i <= self.members@.len(),
                out@ =~= self@.take(i as int),
            decreases self.members.len() - i,
        {
            let node = &self.members[i];
            out.push(*node.data());
            i = i + 1;
            proof {
                assert(out@ =~= self@.take(i as int));
            }
        }
        proof {
            assert(self@.take(self@.len() as int) =~= self@);
        }
        out
    }
}

/// A front-to-back traversal position in a `Dllist`.
pub struct DllIterator {
    pos: usize,
}

impl DllIterator {
    /// The index of the next member to yield.
    pub closed spec fn pos_spec(&self) -> usize {
        self.pos
    }

    /// Starts a traversal at the front.
    pub fn new() -> (r: Self)
        ensures
            r.pos_spec() == 0,
    {
        Self { pos: 0 }
    }

    /// Yields the payload under the traversal position and advances, or
    /// yields nothing once every member has been seen.
    pub fn next<T: Copy>(&mut self, l: &Dllist<T>) -> (item: Option<T>)
        ensures
            item == (if (old(self).pos_spec() as int) < l@.len() {
                Some(l@[old(self).pos_spec() as int])
            } else {
                Option::<T>::None
            }),
            final(self).pos_spec() as int == if (old(self).pos_spec() as int) < l@.len() {
                old(self).pos_spec() + 1
            } else {
                old(self).pos_spec() as int
            },
    {
        if self.pos < l.members.len() {
            let node = &l.members[self.pos];
            self.pos = self.pos + 1;
            Some(*node.data())
        } else {
            None
        }
    }
}

} // verus!
