use vstd::prelude::*;
use crate::coords::{Coord, Error};
use crate::entities::Square;

verus! {

/// What kind of move a snapshot describes. The flags of `Capture` and `Move` say
/// whether the move takes away the mover's (kingside, queenside) castling right.
/// Castling takes away both rights; the flag of `Oo` (`Ooo`) records whether the
/// mover held the queenside (kingside) right before, so that taking the move back
/// restores it.
#[derive(Clone, Copy, Debug, PartialEq, Eq, Structural)]
pub enum MoveDescription {
    Capture(bool, bool),
    Move(bool, bool),
    Oo(bool),
    Ooo(bool),
    Special,
}

/// The content of one square before and after a move.
#[derive(Clone, Copy, Debug, PartialEq, Eq, Structural)]
pub struct BeforeAfterSquares(pub Square, pub Square);

/// Evaluations are integers, in fortieths of a pawn.
pub type Eval = i32;

pub type MoveSnapshotSquare = (Coord, BeforeAfterSquares);

/// One slot per square that a move changes; castling queenside needs all five.
pub type MoveSnapshotSquares = [Option<MoveSnapshotSquare>; 5];

/// A reversible move: the squares it changes, an evaluation, and its kind.
#[derive(Clone, Copy, Debug)]
pub struct MoveSnapshot(pub MoveSnapshotSquares, pub Eval, pub MoveDescription);

impl MoveSnapshot {
    /// Every slot in use names a square of the board.
    pub open spec fn wf(self) -> bool {
        forall|i: int|
            0 <= i < 5 ==> (#[trigger] self.0@[i] matches Some(s) ==> s.0.in_bounds())
    }

    /// The same move, whatever evaluation each carries.
    pub open spec fn same_move(self, other: MoveSnapshot) -> bool {
        self.0@ == other.0@ && self.2 == other.2
    }

    /// The square the moving piece (the king, for castling) arrives on.
    pub fn destination(&self) -> (r: Option<Coord>)
        ensures
            r == destination_of(*self),
    {
        match self.2 {
            MoveDescription::Capture(_, _) | MoveDescription::Move(_, _) => match self.0[1] {
                Some(s) => Some(s.0),
                None => None,
            },
            MoveDescription::Oo(_) | MoveDescription::Ooo(_) => match self.0[2] {
                Some(s) => Some(s.0),
                None => None,
            },
            MoveDescription::Special => None,
        }
    }
}

pub open spec fn slot_coord(m: MoveSnapshot, i: int) -> Option<Coord> {
    match m.0@[i] {
        Some(s) => Some(s.0),
        None => None,
    }
}

pub open spec fn destination_of(m: MoveSnapshot) -> Option<Coord> {
    match m.2 {
        MoveDescription::Capture(_, _) | MoveDescription::Move(_, _) => slot_coord(m, 1),
        MoveDescription::Oo(_) | MoveDescription::Ooo(_) => slot_coord(m, 2),
        MoveDescription::Special => None,
    }
}

impl Default for MoveSnapshot {
    fn default() -> (r: MoveSnapshot)
        ensures
            r == empty_snapshot(),
    {
        MoveSnapshot([None, None, None, None, None], 0, MoveDescription::Special)
    }
}

proof fn lemma_empty_wf()
    ensures
        empty_snapshot().wf(),
{
    assert(empty_snapshot().0@ == seq![None::<MoveSnapshotSquare>, None, None, None, None]);
}

/// A snapshot that changes nothing.
pub open spec fn empty_snapshot() -> MoveSnapshot {
    MoveSnapshot([None, None, None, None, None], 0, MoveDescription::Special)
}

/// A growable buffer of snapshots with a write cursor. Writers start at
/// `write_index` and advance it; the buffer is never cleared, so callers treat
/// `[base, write_index)` as what they wrote from `base` on. A list built for one
/// square by the board also records the board's revision, and expires once a move
/// of it is played.
pub struct MoveList {
    pub v: Vec<MoveSnapshot>,
    pub write_index: usize,
    pub revision: Option<u64>,
}

impl MoveList {
    /// Every stored snapshot names squares of the board only.
    pub open spec fn wf(&self) -> bool {
        forall|i: int| 0 <= i < self.v@.len() ==> (#[trigger] self.v@[i]).wf()
    }

    pub fn new(capacity: usize) -> (r: MoveList)
        ensures
            r.v@.len() == 0,
            r.write_index == 0,
            r.revision is None,
            r.wf(),
    {
        MoveList { v: Vec::with_capacity(capacity), write_index: 0, revision: None }
    }

    pub fn is_expired(&self) -> (r: bool)
        ensures
            r == self.revision is None,
    {
        self.revision.is_none()
    }

    pub fn get_revision(&self) -> (r: Option<u64>)
        ensures
            r == self.revision,
    {
        self.revision
    }

    pub fn set_revision(&mut self, revision: Option<u64>)
        ensures
            final(self).revision == revision,
            final(self).v@ == old(self).v@,
            final(self).write_index == old(self).write_index,
    {
        self.revision = revision;
    }

    pub fn get_v(&self) -> (r: &Vec<MoveSnapshot>)
        ensures
            r@ == self.v@,
    {
        &self.v
    }

    /// The snapshot at `i`, to change in place.
    pub fn get_mutable_snapshot(&mut self, i: usize) -> (r: &mut MoveSnapshot)
        requires
            i < old(self).v@.len(),
        ensures
            *r == old(self).v@[i as int],
            final(self).v@ == old(self).v@.update(i as int, *final(r)),
            final(self).write_index == old(self).write_index,
            final(self).revision == old(self).revision,
    {
        &mut self.v[i]
    }

    /// Sets the evaluation carried by the snapshot at `i`.
    pub fn set_eval(&mut self, i: usize, eval: Eval)
        requires
            old(self).wf(),
            i < old(self).v@.len(),
        ensures
            final(self).wf(),
            final(self).v@ == old(self).v@.update(
                i as int,
                MoveSnapshot(old(self).v@[i as int].0, eval, old(self).v@[i as int].2),
            ),
            final(self).write_index == old(self).write_index,
            final(self).revision == old(self).revision,
    {
        let m = self.v[i];
        self.v.set(i, MoveSnapshot(m.0, eval, m.2));
    }

    pub fn copy_and_write(&mut self, board_subset: &MoveSnapshot)
        requires
            old(self).wf(),
            board_subset.wf(),
            old(self).write_index < usize::MAX,
        ensures
            final(self).wf(),
            written(old(self).v@, old(self).write_index, *board_subset, final(self).v@),
            final(self).write_index == old(self).write_index + 1,
            final(self).revision == old(self).revision,
    {
        self.write(*board_subset);
    }

    /// Stores `board_subset` at the cursor, growing the buffer with empty
    /// snapshots where needed, and advances the cursor.
    pub fn write(&mut self, board_subset: MoveSnapshot)
        requires
            old(self).wf(),
            board_subset.wf(),
            old(self).write_index < usize::MAX,
        ensures
            final(self).wf(),
            written(old(self).v@, old(self).write_index, board_subset, final(self).v@),
            final(self).write_index == old(self).write_index + 1,
            final(self).revision == old(self).revision,
    {
        self.grow_with_access(self.write_index);
        self.v.set(self.write_index, board_subset);
        self.write_index = self.write_index + 1;
        assert forall|i: int| 0 <= i < self.v@.len() implies (#[trigger] self.v@[i]).wf() by {
            if i != old(self).write_index {
                if i < old(self).v@.len() {
                    assert(old(self).v@[i].wf());
                } else {
                    lemma_empty_wf();
                }
            }
        }
    }

    fn grow_with_access(&mut self, requested_index: usize)
        requires
            old(self).wf(),
        ensures
            final(self).wf(),
            final(self).v@.len() == if requested_index < old(self).v@.len() {
                old(self).v@.len() as int
            } else {
                requested_index + 1
            },
            forall|i: int|
                0 <= i < final(self).v@.len() ==> #[trigger] final(self).v@[i] == if i < old(
                    self,
                ).v@.len() {
                    old(self).v@[i]
                } else {
                    empty_snapshot()
                },
            final(self).write_index == old(self).write_index,
            final(self).revision == old(self).revision,
    {
        if requested_index >= self.v.len() {
            while self.v.len() <= requested_index
                invariant
                    self.wf(),
                    old(self).v@.len() <= self.v@.len() <= requested_index + 1,
                    forall|i: int|
                        0 <= i < self.v@.len() ==> #[trigger] self.v@[i] == if i < old(
                            self,
                        ).v@.len() {
                            old(self).v@[i]
                        } else {
                            empty_snapshot()
                        },
                    self.write_index == old(self).write_index,
                    self.revision == old(self).revision,
                decreases requested_index + 1 - self.v@.len(),
            {
                proof {
                    lemma_empty_wf();
                }
                self.v.push(MoveSnapshot::default());
            }
        }
    }

    /// Sorts the snapshots in `[start, end_exclusive)` by evaluation, lowest first;
    /// the others stay where they are.
    pub fn sort_subset(&mut self, start: usize, end_exclusive: usize)
        requires
            old(self).wf(),
            start <= end_exclusive <= old(self).v@.len(),
        ensures
            final(self).wf(),
            final(self).v@.len() == old(self).v@.len(),
            final(self).v@.to_multiset() == old(self).v@.to_multiset(),
            forall|i: int|
                0 <= i < old(self).v@.len() && !(start <= i < end_exclusive) ==> #[trigger] final(self).v@[i]
                    == old(self).v@[i],
            forall|a: int, b: int|
                start <= a < b < end_exclusive ==> (#[trigger] final(self).v@[a]).1 <= (#[trigger] final(self).v@[b]).1,
            final(self).write_index == old(self).write_index,
            final(self).revision == old(self).revision,
    {
        if start == end_exclusive {
            return;
        }
        let mut i: usize = start + 1;
        while i < end_exclusive
            invariant
                self.wf(),
                start < i <= end_exclusive <= self.v@.len(),
                self.v@.len() == old(self).v@.len(),
                self.v@.to_multiset() == old(self).v@.to_multiset(),
                forall|k: int|
                    0 <= k < old(self).v@.len() && !(start <= k < end_exclusive) ==> #[trigger] self.v@[k]
                        == old(self).v@[k],
                forall|a: int, b: int| start <= a < b < i ==> (#[trigger] self.v@[a]).1 <= (#[trigger] self.v@[b]).1,
                self.write_index == old(self).write_index,
                self.revision == old(self).revision,
            decreases end_exclusive - i,
        {
            let mut j: usize = i;
            while j > start && self.v[j - 1].1 > self.v[j].1
                invariant
                    self.wf(),
                    start <= j <= i < end_exclusive <= self.v@.len(),
                    self.v@.len() == old(self).v@.len(),
                    self.v@.to_multiset() == old(self).v@.to_multiset(),
                    forall|k: int|
                        0 <= k < old(self).v@.len() && !(start <= k < end_exclusive) ==> #[trigger] self.v@[k]
                            == old(self).v@[k],
                    forall|a: int, b: int|
                        start <= a < b <= i && a != j && b != j ==> (#[trigger] self.v@[a]).1 <= (#[trigger] self.v@[b]).1,
                    forall|b: int| j < b <= i ==> self.v@[j as int].1 <= (#[trigger] self.v@[b]).1,
                    self.write_index == old(self).write_index,
                    self.revision == old(self).revision,
                decreases j,
            {
                let x = self.v[j - 1];
                let y = self.v[j];
                let ghost before = self.v@;
                self.v.set(j - 1, y);
                self.v.set(j, x);
                proof {
                    let mid = before.update(j - 1, y);
                    vstd::seq_lib::to_multiset_update(before, j - 1, y);
                    assert(self.v@ == mid.update(j as int, x));
                    vstd::seq_lib::to_multiset_update(mid, j as int, x);
                    broadcast use vstd::multiset::group_multiset_axioms;
                    assert(before[j - 1] == x);
                    vstd::seq_lib::to_multiset_contains(before, x);
                    assert(mid[j as int] == y);
                    assert(self.v@.to_multiset() =~= before.to_multiset());
                    assert forall|k: int| 0 <= k < self.v@.len() implies (#[trigger] self.v@[k]).wf() by {
                        if k == j - 1 {
                            assert(before[j as int].wf());
                        } else if k == j {
                            assert(before[j - 1].wf());
                        } else {
                            assert(before[k].wf());
                        }
                    }
                }
                j = j - 1;
            }
            i = i + 1;
        }
    }

    /// Destinations of the moves in `[0, write_index)`, or `MoveListExpired`.
    pub fn get_moves(&self) -> (r: Result<Vec<Coord>, Error>)
        ensures
            self.revision is None ==> r == Err::<Vec<Coord>, Error>(Error::MoveListExpired),
            self.revision is Some ==> r is Ok && r->Ok_0@ == destinations(
                self.v@,
                if self.write_index < self.v@.len() {
                    self.write_index as int
                } else {
                    self.v@.len() as int
                },
            ),
    {
        if self.revision.is_none() {
            return Err(Error::MoveListExpired);
        }
        let end = if self.write_index < self.v.len() {
            self.write_index
        } else {
            self.v.len()
        };
        let mut out: Vec<Coord> = Vec::new();
        let mut i: usize = 0;
        while i < end
            invariant
                end <= self.v@.len(),
                i <= end,
                out@ == destinations(self.v@, i as int),
            decreases end - i,
        {
            match self.v[i].destination() {
                Some(c) => out.push(c),
                None => {},
            }
            i = i + 1;
        }
        Ok(out)
    }
}

/// The buffer `after` is `before` with `m` stored at `at`, grown with empty
/// snapshots where `at` lay past its end.
pub open spec fn written(
    before: Seq<MoveSnapshot>,
    at: usize,
    m: MoveSnapshot,
    after: Seq<MoveSnapshot>,
) -> bool {
    &&& after.len() == if at < before.len() {
        before.len() as int
    } else {
        at + 1
    }
    &&& after[at as int] == m
    &&& forall|i: int|
        0 <= i < after.len() && i != at ==> #[trigger] after[i] == if i < before.len() {
            before[i]
        } else {
            empty_snapshot()
        }
}

/// The destinations of the first `n` snapshots, skipping those without one.
pub open spec fn destinations(v: Seq<MoveSnapshot>, n: int) -> Seq<Coord>
    decreases n,
{
    if n <= 0 {
        Seq::empty()
    } else {
        let prev = destinations(v, n - 1);
        match destination_of(v[n - 1]) {
            Some(c) => prev.push(c),
            None => prev,
        }
    }
}

} // verus!
