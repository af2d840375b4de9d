//! The snapshots that readers hold, oldest first.

use vstd::prelude::*;

verus! {

/// A state of the database as of a sequence number.
pub trait Snapshot {
    /// The sequence number as of which the snapshot reads.
    spec fn spec_sequence_number(&self) -> u64;

    fn sequence_number(&self) -> (n: u64)
        ensures
            n == self.spec_sequence_number(),
    ;
}

/// A snapshot of a list.
#[derive(Debug, Clone, Copy, PartialEq, Eq, Structural)]
pub struct SnapshotImpl {
    sequence_number_: u64,
    /// Tells snapshots of one sequence number apart.
    id: u64,
}

impl SnapshotImpl {
    pub fn new(sequence_number: u64) -> (s: SnapshotImpl)
        ensures
            s.spec_sequence_number() == sequence_number,
    {
        SnapshotImpl { sequence_number_: sequence_number, id: 0 }
    }
}

impl Snapshot for SnapshotImpl {
    closed spec fn spec_sequence_number(&self) -> u64 {
        self.sequence_number_
    }

    fn sequence_number(&self) -> (n: u64) {
        self.sequence_number_
    }
}

/// The snapshots in use, in the order in which they were taken.
pub struct SnapshotList {
    snapshots: Vec<SnapshotImpl>,
    next_id: u64,
}

impl SnapshotList {
    /// The sequence numbers of the snapshots, oldest first.
    pub closed spec fn view(&self) -> Seq<u64> {
        Seq::new(self.snapshots@.len(), |i: int| self.snapshots@[i].sequence_number_)
    }

    /// The sequence numbers do not fall.
    pub open spec fn sorted(&self) -> bool {
        forall|i: int, j: int| 0 <= i <= j < self@.len() ==> self@[i] <= self@[j]
    }

    /// Whether `s` is in the list.
    pub closed spec fn contains(&self, s: SnapshotImpl) -> bool {
        self.snapshots@.contains(s)
    }

    /// A list without snapshots.
    pub fn new() -> (l: SnapshotList)
        ensures
            l@ == Seq::<u64>::empty(),
            l.sorted(),
            forall|s: SnapshotImpl| !l.contains(s),
    {
        let l = SnapshotList { snapshots: Vec::new(), next_id: 0 };
        assert(l@ =~= Seq::<u64>::empty());
        l
    }

    pub fn empty(&self) -> (b: bool)
        ensures
            b == (self@.len() == 0),
    {
        self.snapshots.len() == 0
    }

    /// The snapshot taken first.
    pub fn oldest(&self) -> (s: SnapshotImpl)
        requires
            self@.len() > 0,
        ensures
            s.spec_sequence_number() == self@[0],
            self.contains(s),
    {
        self.snapshots[0]
    }

    /// The snapshot taken last.
    pub fn newest(&self) -> (s: SnapshotImpl)
        requires
            self@.len() > 0,
        ensures
            s.spec_sequence_number() == self@.last(),
            self.contains(s),
    {
        self.snapshots[self.snapshots.len() - 1]
    }

    /// Takes a snapshot as of `sequence_number`, which is not before that
    /// of the newest snapshot.
    pub fn new_node(&mut self, sequence_number: u64) -> (s: SnapshotImpl)
        requires
            old(self).sorted(),
            old(self)@.len() == 0 || old(self)@.last() <= sequence_number,
        ensures
            final(self).sorted(),
            final(self)@ == old(self)@.push(sequence_number),
            s.spec_sequence_number() == sequence_number,
            final(self).contains(s),
    {
        let s = SnapshotImpl { sequence_number_: sequence_number, id: self.next_id };
        self.next_id = self.next_id.wrapping_add(1);
        self.snapshots.push(s);
        proof {
            assert(self@ =~= old(self)@.push(sequence_number));
            assert(self.snapshots@[self.snapshots@.len() - 1] == s);
            assert forall|i: int, j: int| 0 <= i <= j < self@.len() implies self@[i] <= self@[j] by {
                if j < old(self)@.len() {
                    assert(old(self)@[i] <= old(self)@[j]);
                } else if i < old(self)@.len() {
                    assert(old(self)@[i] <= old(self)@[old(self)@.len() - 1]);
                }
            }
        }
        s
    }

    /// Gives a snapshot up.  Says whether it was in the list.
    pub fn delete(&mut self, snapshot: &SnapshotImpl) -> (found: bool)
        requires
            old(self).sorted(),
        ensures
            final(self).sorted(),
            found == old(self).contains(*snapshot),
            !found ==> final(self)@ == old(self)@,
            found ==> exists|i: int|
                0 <= i < old(self)@.len() && old(self)@[i] == snapshot.spec_sequence_number()
                    && final(self)@ == #[trigger] old(self)@.remove(i),
    {
        let mut i: usize = 0;
        while i < self.snapshots.len()
            invariant
                *self == *old(self),
                old(self).sorted(),
                i <= self.snapshots@.len(),
                forall|j: int| 0 <= j < i ==> self.snapshots@[j] != *snapshot,
            decreases self.snapshots@.len() - i,
        {
            if self.snapshots[i] == *snapshot {
                self.snapshots.remove(i);
                proof {
                    assert(self@ =~= old(self)@.remove(i as int));
                    assert(old(self).snapshots@[i as int] == *snapshot);
                    assert forall|a: int, b: int| 0 <= a <= b < self@.len() implies self@[a]
                        <= self@[b] by {
                        let x = if a < i {
                            a
                        } else {
                            a + 1
                        };
                        let y = if b < i {
                            b
                        } else {
                            b + 1
                        };
                        assert(old(self)@[x] <= old(self)@[y]);
                    }
                }
                return true;
            }
            i = i + 1;
        }
        false
    }
}

} // verus!
