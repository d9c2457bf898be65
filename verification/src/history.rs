use vstd::prelude::*;

verus! {

use crate::canvas::Board;

/// The ordered log of distinct canvas states plus the scan cursor: the last
/// ledger height the scanner has already examined.
#[derive(Clone, Debug)]
pub struct History {
    pub boards: Vec<Board>,
    pub last_fetched_block: u64,
}

impl History {
    /// Heights of adjacent recorded boards strictly increase.
    pub open spec fn heights_increase(&self) -> bool {
        forall|i: int|
            0 <= i < self.boards@.len() - 1
                ==> (#[trigger] self.boards@[i]).block_height < self.boards@[i + 1].block_height
    }

    /// No two adjacent recorded boards show the same picture: only heights at
    /// which the canvas actually changed are recorded.
    pub open spec fn deduplicated(&self) -> bool {
        forall|i: int|
            0 <= i < self.boards@.len() - 1
                ==> !(#[trigger] self.boards@[i]).state_equal(&self.boards@[i + 1])
    }

    /// The log alone is well formed: non-empty, every board of full canvas
    /// dimensions, heights strictly increasing, adjacent states distinct.
    pub open spec fn log_wf(&self) -> bool {
        &&& self.boards@.len() > 0
        &&& forall|i: int| 0 <= i < self.boards@.len() ==> (#[trigger] self.boards@[i]).wf_dims()
        &&& self.heights_increase()
        &&& self.deduplicated()
    }

    /// Well-formedness of the whole record: the cursor has not fallen behind
    /// the last recorded change.
    pub open spec fn wf(&self) -> bool {
        &&& self.log_wf()
        &&& self.last_fetched_block >= self.boards@.last().block_height
    }

    /// Heights strictly increase along the whole sequence, not just between
    /// neighbours.
    pub proof fn lemma_heights_increase(&self, i: int, j: int)
        requires
            self.heights_increase(),
            0 <= i < j < self.boards@.len(),
        ensures
            self.boards@[i].block_height < self.boards@[j].block_height,
        decreases j - i,
    {
        if i + 1 < j {
            self.lemma_heights_increase(i + 1, j);
        }
    }

    /// Starts a history from a seed board; the cursor sits at its height.
    pub fn new(genesis: Board) -> (h: History)
        requires
            genesis.wf_dims(),
        ensures
            h.wf(),
            h.boards@ =~= seq![genesis],
            h.last_fetched_block == genesis.block_height,
    {
        let last_fetched_block = genesis.block_height;
        let mut boards: Vec<Board> = Vec::new();
        boards.push(genesis);
        History { boards, last_fetched_block }
    }

    /// The most recently recorded board.
    pub fn last_board(&self) -> (b: &Board)
        requires
            self.boards@.len() > 0,
        ensures
            b == self.boards@.last(),
    {
        &self.boards[self.boards.len() - 1]
    }

    /// A copy of this history: the same recorded pictures at the same heights,
    /// and the same cursor.
    pub fn duplicate(&self) -> (r: History)
        ensures
            r.boards@.len() == self.boards@.len(),
            forall|i: int|
                0 <= i < self.boards@.len() ==> {
                    &&& (#[trigger] r.boards@[i]).grid() == self.boards@[i].grid()
                    &&& r.boards@[i].block_height == self.boards@[i].block_height
                },
            r.last_fetched_block == self.last_fetched_block,
            self.wf() ==> r.wf(),
    {
        let mut boards: Vec<Board> = Vec::new();
        let mut i: usize = 0;
        while i < self.boards.len()
            invariant
                0 <= i <= self.boards@.len(),
                boards@.len() == i,
                forall|k: int|
                    0 <= k < i ==> {
                        &&& (#[trigger] boards@[k]).grid() == self.boards@[k].grid()
                        &&& boards@[k].block_height == self.boards@[k].block_height
                    },
            decreases self.boards@.len() - i,
        {
            boards.push(self.boards[i].duplicate());
            i = i + 1;
        }
        let r = History { boards, last_fetched_block: self.last_fetched_block };
        proof {
            if self.wf() {
                assert forall|k: int| 0 <= k < r.boards@.len() implies (
                #[trigger] r.boards@[k]).wf_dims() by {
                    assert(self.boards@[k].wf_dims());
                }
            }
        }
        r
    }

    /// Decides well-formedness, as a loaded checkpoint must be held to the
    /// invariants before the scan resumes from it.
    pub fn check_wf(&self) -> (r: bool)
        ensures
            r == self.wf(),
    {
        if self.boards.len() == 0 {
            return false;
        }
        let mut i: usize = 0;
        while i < self.boards.len()
            invariant
                0 <= i <= self.boards@.len(),
                self.boards@.len() > 0,
                forall|k: int| 0 <= k < i ==> (#[trigger] self.boards@[k]).wf_dims(),
            decreases self.boards@.len() - i,
        {
            if !self.boards[i].check_dims() {
                return false;
            }
            i = i + 1;
        }
        let mut j: usize = 0;
        while j < self.boards.len() - 1
            invariant
                0 <= j <= self.boards@.len(),
                self.boards@.len() > 0,
                forall|k: int|
                    0 <= k < j ==> (#[trigger] self.boards@[k]).block_height < self.boards@[k
                        + 1].block_height,
                forall|k: int|
                    0 <= k < j ==> !(#[trigger] self.boards@[k]).state_equal(&self.boards@[k + 1]),
            decreases self.boards@.len() - j,
        {
            if self.boards[j].block_height >= self.boards[j + 1].block_height {
                return false;
            }
            if self.boards[j].state_eq(&self.boards[j + 1]) {
                return false;
            }
            j = j + 1;
        }
        self.last_fetched_block >= self.boards[self.boards.len() - 1].block_height
    }

    /// Appends `board` only where it shows a different picture than the last
    /// recorded one; an unchanged state is not recorded. The cursor is left
    /// alone: the caller advances it once the height counts as examined.
    pub fn record_if_changed(&mut self, board: Board)
        requires
            old(self).log_wf(),
            board.wf_dims(),
            board.block_height > old(self).boards@.last().block_height,
        ensures
            final(self).log_wf(),
            final(self).last_fetched_block == old(self).last_fetched_block,
            board.state_equal(&old(self).boards@.last())
                ==> final(self).boards@ == old(self).boards@,
            !board.state_equal(&old(self).boards@.last())
                ==> final(self).boards@ == old(self).boards@.push(board),
    {
        let changed = !self.last_board().state_eq(&board);
        if changed {
            self.boards.push(board);
        }
    }
}

} // verus!
