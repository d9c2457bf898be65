use vstd::prelude::*;

verus! {

use crate::BOARD_HEIGHT;
use crate::BOARD_WIDTH;

/// One cell of the canvas: a 24-bit RGB color packed into the low bits of a
/// 32-bit integer, and the identifier of the account that last wrote it.
#[derive(Copy, Clone, PartialEq, Eq, Structural, Debug)]
pub struct Pixel {
    pub color: u32,
    pub owner_id: u32,
}

impl Pixel {
    /// The zeroed pixel every canvas cell starts from.
    pub open spec fn spec_default() -> Pixel {
        Pixel { color: 0, owner_id: 0 }
    }
}

impl Default for Pixel {
    fn default() -> (p: Pixel)
        ensures
            p == Pixel::spec_default(),
    {
        Pixel { color: 0, owner_id: 0 }
    }
}

/// The canvas as observed at one ledger height: a grid of pixels, addressed
/// row first, plus the height at which it was read.
#[derive(Clone, Debug)]
pub struct Board {
    pub pixels: Vec<Vec<Pixel>>,
    pub block_height: u64,
}

impl Board {
    /// The grid as a mathematical sequence of rows.
    pub open spec fn grid(&self) -> Seq<Seq<Pixel>> {
        self.pixels@.map_values(|row: Vec<Pixel>| row@)
    }

    /// The grid has exactly the fixed canvas dimensions.
    pub open spec fn wf_dims(&self) -> bool {
        &&& self.grid().len() == crate::BOARD_HEIGHT
        &&& forall|i: int|
            0 <= i < self.grid().len() ==> (#[trigger] self.grid()[i]).len() == crate::BOARD_WIDTH
    }

    /// Two boards show the same picture: equal grids, heights ignored.
    pub open spec fn state_equal(&self, other: &Board) -> bool {
        self.grid() == other.grid()
    }

    /// A board whose every cell is the default pixel, observed at `block_height`.
    pub fn blank(block_height: u64) -> (b: Board)
        ensures
            b.wf_dims(),
            b.block_height == block_height,
            forall|i: int, j: int|
                0 <= i < b.grid().len() && 0 <= j < b.grid()[i].len()
                    ==> b.grid()[i][j] == Pixel::spec_default(),
    {
        let mut pixels: Vec<Vec<Pixel>> = Vec::new();
        let mut i: u32 = 0;
        while i < BOARD_HEIGHT
            invariant
                i <= crate::BOARD_HEIGHT,
                pixels@.len() == i,
                forall|r: int|
                    0 <= r < i ==> (#[trigger] pixels@[r])@.len() == crate::BOARD_WIDTH,
                forall|r: int, c: int|
                    0 <= r < i && 0 <= c < pixels@[r]@.len()
                        ==> pixels@[r]@[c] == Pixel::spec_default(),
            decreases crate::BOARD_HEIGHT - i,
        {
            let mut row: Vec<Pixel> = Vec::new();
            let mut j: u32 = 0;
            while j < BOARD_WIDTH
                invariant
                    j <= crate::BOARD_WIDTH,
                    row@.len() == j,
                    forall|c: int| 0 <= c < j ==> row@[c] == Pixel::spec_default(),
                decreases crate::BOARD_WIDTH - j,
            {
                row.push(Pixel { color: 0, owner_id: 0 });
                j = j + 1;
            }
            pixels.push(row);
            i = i + 1;
        }
        Board { pixels, block_height }
    }

    /// Decides whether the grid has exactly the fixed canvas dimensions.
    pub fn check_dims(&self) -> (r: bool)
        ensures
            r == self.wf_dims(),
    {
        if self.pixels.len() != BOARD_HEIGHT as usize {
            return false;
        }
        let mut i: usize = 0;
        while i < self.pixels.len()
            invariant
                0 <= i <= self.pixels@.len(),
                forall|k: int| 0 <= k < i ==> (#[trigger] self.grid()[k]).len() == crate::BOARD_WIDTH,
            decreases self.pixels@.len() - i,
        {
            if self.pixels[i].len() != BOARD_WIDTH as usize {
                assert(self.grid()[i as int].len() != crate::BOARD_WIDTH);
                return false;
            }
            assert(self.grid()[i as int].len() == crate::BOARD_WIDTH);
            i = i + 1;
        }
        true
    }

    /// A copy of this board: same picture, same height.
    pub fn duplicate(&self) -> (r: Board)
        ensures
            r.grid() == self.grid(),
            r.block_height == self.block_height,
    {
        let mut pixels: Vec<Vec<Pixel>> = Vec::new();
        let mut i: usize = 0;
        while i < self.pixels.len()
            invariant
                0 <= i <= self.pixels@.len(),
                pixels@.len() == i,
                forall|r: int| 0 <= r < i ==> #[trigger] pixels@[r]@ == self.grid()[r],
            decreases self.pixels@.len() - i,
        {
            let src = &self.pixels[i];
            let mut row: Vec<Pixel> = Vec::new();
            let mut j: usize = 0;
            while j < src.len()
                invariant
                    0 <= j <= src@.len(),
                    row@.len() == j,
                    forall|c: int| 0 <= c < j ==> row@[c] == src@[c],
                decreases src@.len() - j,
            {
                row.push(src[j]);
                j = j + 1;
            }
            assert(row@ =~= src@);
            assert(src@ == self.grid()[i as int]);
            pixels.push(row);
            i = i + 1;
        }
        let r = Board { pixels, block_height: self.block_height };
        assert(r.grid() =~= self.grid());
        r
    }

    /// Decides state equality: the grids are compared cell by cell.
    pub fn state_eq(&self, other: &Board) -> (r: bool)
        ensures
            r == self.state_equal(other),
    {
        if self.pixels.len() != other.pixels.len() {
            assert(self.grid().len() != other.grid().len());
            return false;
        }
        let mut i: usize = 0;
        while i < self.pixels.len()
            invariant
                0 <= i <= self.pixels@.len(),
                self.pixels@.len() == other.pixels@.len(),
                forall|r: int| 0 <= r < i ==> #[trigger] self.grid()[r] == other.grid()[r],
            decreases self.pixels@.len() - i,
        {
            let a = &self.pixels[i];
            let b = &other.pixels[i];
            assert(a@ == self.grid()[i as int]);
            assert(b@ == other.grid()[i as int]);
            if a.len() != b.len() {
                assert(self.grid()[i as int].len() != other.grid()[i as int].len());
                return false;
            }
            let mut j: usize = 0;
            while j < a.len()
                invariant
                    0 <= i < self.pixels@.len(),
                    self.pixels@.len() == other.pixels@.len(),
                    a@ == self.grid()[i as int],
                    b@ == other.grid()[i as int],
                    0 <= j <= a@.len(),
                    a@.len() == b@.len(),
                    forall|c: int| 0 <= c < j ==> a@[c] == b@[c],
                decreases a@.len() - j,
            {
                if a[j] != b[j] {
                    assert(self.grid()[i as int][j as int] != other.grid()[i as int][j as int]);
                    return false;
                }
                j = j + 1;
            }
            assert(a@ =~= b@);
            assert(self.grid()[i as int] == other.grid()[i as int]);
            i = i + 1;
        }
        assert(self.grid() =~= other.grid());
        true
    }
}

} // verus!
