use vstd::prelude::*;

verus! {

/// A 4x4 occupancy mask, indexed `[fall offset][horizontal offset]`.
pub type Mask = [[u8; 4]; 4];

/// The kinds of piece; `Bomb` destroys cells instead of placing them.
#[derive(Clone, Copy, Debug, PartialEq, Eq, Structural)]
pub enum FigureType {
    L,
    J,
    O,
    S,
    Z,
    I,
    T,
    Bomb,
}

/// A live piece: its kind and its current mask.
#[derive(Clone, Copy, Debug)]
pub struct Figure {
    pub kind: FigureType,
    pub shape: Mask,
}

/// The spawn mask of each kind.
pub open spec fn spawn_mask(kind: FigureType) -> Mask {
    match kind {
        FigureType::I => [[0, 1, 0, 0], [0, 1, 0, 0], [0, 1, 0, 0], [0, 1, 0, 0]],
        FigureType::L => [[0, 0, 1, 0], [1, 1, 1, 0], [0, 0, 0, 0], [0, 0, 0, 0]],
        FigureType::T => [[0, 1, 0, 0], [1, 1, 1, 0], [0, 0, 0, 0], [0, 0, 0, 0]],
        FigureType::J => [[1, 0, 0, 0], [1, 1, 1, 0], [0, 0, 0, 0], [0, 0, 0, 0]],
        FigureType::S => [[0, 1, 1, 0], [1, 1, 0, 0], [0, 0, 0, 0], [0, 0, 0, 0]],
        FigureType::Z => [[1, 1, 0, 0], [0, 1, 1, 0], [0, 0, 0, 0], [0, 0, 0, 0]],
        FigureType::O => [[1, 1, 0, 0], [1, 1, 0, 0], [0, 0, 0, 0], [0, 0, 0, 0]],
        FigureType::Bomb => [[0, 1, 0, 0], [0, 0, 0, 0], [0, 0, 0, 0], [0, 0, 0, 0]],
    }
}

/// The field code a kind leaves when it locks (0 for the bomb).
pub open spec fn spec_color_code(kind: FigureType) -> u8 {
    match kind {
        FigureType::I => 1,
        FigureType::J => 2,
        FigureType::L => 3,
        FigureType::O => 4,
        FigureType::S => 5,
        FigureType::T => 6,
        FigureType::Z => 7,
        FigureType::Bomb => 0,
    }
}

/// The kinds in the order in which a random index draws them.
pub open spec fn spec_kind_at(index: int) -> FigureType {
    if index == 0 {
        FigureType::I
    } else if index == 1 {
        FigureType::J
    } else if index == 2 {
        FigureType::L
    } else if index == 3 {
        FigureType::O
    } else if index == 4 {
        FigureType::S
    } else if index == 5 {
        FigureType::T
    } else if index == 6 {
        FigureType::Z
    } else {
        FigureType::Bomb
    }
}

/// Side of the sub-block that a rotation turns: 4 for `I`, 3 for the others.
pub open spec fn spec_rotation_dim(kind: FigureType) -> int {
    if kind == FigureType::I { 4 } else { 3 }
}

/// Cell `(r, c)` of the mask `s` turned a quarter within its `dim` x `dim` block;
/// cells outside the block stay as they are.
pub open spec fn rotated_cell(s: Mask, dim: int, r: int, c: int) -> u8 {
    if r < dim && c < dim {
        s[dim - 1 - c][r]
    } else {
        s[r][c]
    }
}

/// `b` is `a` turned a quarter within its `dim` x `dim` block.
pub open spec fn is_rotation(a: Mask, b: Mask, dim: int) -> bool {
    forall|r: int, c: int| 0 <= r < 4 && 0 <= c < 4 ==> #[trigger] b[r][c] == rotated_cell(a, dim, r, c)
}

/// The mask `b` is `a` with every column moved one to the left and a blank
/// last column.
pub open spec fn is_left_shift(a: Mask, b: Mask) -> bool {
    forall|j: int, i: int|
        0 <= j < 4 && 0 <= i < 4 ==> #[trigger] b[j][i] == if i < 3 { a[j][i + 1] } else { 0u8 }
}

pub open spec fn first_column_empty(s: Mask) -> bool {
    forall|j: int| 0 <= j < 4 ==> #[trigger] s[j][0] == 0
}

pub fn kind_at(index: u8) -> (kind: FigureType)
    requires
        index < 8,
    ensures
        kind == spec_kind_at(index as int),
{
    match index {
        0 => FigureType::I,
        1 => FigureType::J,
        2 => FigureType::L,
        3 => FigureType::O,
        4 => FigureType::S,
        5 => FigureType::T,
        6 => FigureType::Z,
        _ => FigureType::Bomb,
    }
}

impl FigureType {
    pub fn color_code(&self) -> (code: u8)
        ensures
            code == spec_color_code(*self),
    {
        match self {
            FigureType::I => 1,
            FigureType::J => 2,
            FigureType::L => 3,
            FigureType::O => 4,
            FigureType::S => 5,
            FigureType::T => 6,
            FigureType::Z => 7,
            FigureType::Bomb => 0,
        }
    }

    pub fn rotation_dim(&self) -> (dim: usize)
        ensures
            dim as int == spec_rotation_dim(*self),
    {
        match self {
            FigureType::I => 4,
            _ => 3,
        }
    }
}

impl Figure {
    /// A piece of the given kind in its spawn mask.
    pub fn new(kind: FigureType) -> (f: Figure)
        ensures
            f.kind == kind,
            f.shape == spawn_mask(kind),
    {
        let shape: Mask = match kind {
            FigureType::I => [[0, 1, 0, 0], [0, 1, 0, 0], [0, 1, 0, 0], [0, 1, 0, 0]],
            FigureType::L => [[0, 0, 1, 0], [1, 1, 1, 0], [0, 0, 0, 0], [0, 0, 0, 0]],
            FigureType::T => [[0, 1, 0, 0], [1, 1, 1, 0], [0, 0, 0, 0], [0, 0, 0, 0]],
            FigureType::J => [[1, 0, 0, 0], [1, 1, 1, 0], [0, 0, 0, 0], [0, 0, 0, 0]],
            FigureType::S => [[0, 1, 1, 0], [1, 1, 0, 0], [0, 0, 0, 0], [0, 0, 0, 0]],
            FigureType::Z => [[1, 1, 0, 0], [0, 1, 1, 0], [0, 0, 0, 0], [0, 0, 0, 0]],
            FigureType::O => [[1, 1, 0, 0], [1, 1, 0, 0], [0, 0, 0, 0], [0, 0, 0, 0]],
            FigureType::Bomb => [[0, 1, 0, 0], [0, 0, 0, 0], [0, 0, 0, 0], [0, 0, 0, 0]],
        };
        Figure { kind, shape }
    }

    /// True when no cell of the leftmost mask column is filled.
    pub fn is_first_column_zero(&self) -> (r: bool)
        ensures
            r == first_column_empty(self.shape),
    {
        let mut j: usize = 0;
        while j < 4
            invariant
                j <= 4,
                forall|k: int| 0 <= k < j ==> #[trigger] self.shape[k][0] == 0,
            decreases 4 - j,
        {
            if self.shape[j][0] != 0 {
                return false;
            }
            j += 1;
        }
        true
    }

    /// Moves every mask column one to the left and blanks the last column.
    pub fn left_shift(&mut self)
        ensures
            final(self).kind == old(self).kind,
            is_left_shift(old(self).shape, final(self).shape),
    {
        let ghost before = self.shape;
        let mut j: usize = 0;
        while j < 4
            invariant
                j <= 4,
                self.kind == old(self).kind,
                forall|k: int, i: int|
                    0 <= k < j && 0 <= i < 4 ==> #[trigger] self.shape[k][i] == if i < 3 {
                        before[k][i + 1]
                    } else {
                        0u8
                    },
                forall|k: int| j <= k < 4 ==> #[trigger] self.shape[k] == before[k],
            decreases 4 - j,
        {
            let line = self.shape[j];
            let shifted: [u8; 4] = [line[1], line[2], line[3], 0];
            self.shape[j] = shifted;
            j += 1;
        }
    }

    /// The mask turned a quarter within the block that the kind rotates in.
    pub fn rotated_shape(&self) -> (r: Mask)
        ensures
            is_rotation(self.shape, r, spec_rotation_dim(self.kind)),
    {
        let dim = self.kind.rotation_dim();
        let mut out: Mask = self.shape;
        let mut row: usize = 0;
        while row < dim
            invariant
                dim as int == spec_rotation_dim(self.kind),
                row <= dim,
                forall|r: int, c: int|
                    0 <= r < 4 && 0 <= c < 4 ==> #[trigger] out[r][c] == if r < row {
                        rotated_cell(self.shape, dim as int, r, c)
                    } else {
                        self.shape[r][c]
                    },
            decreases dim - row,
        {
            let mut line = out[row];
            let mut col: usize = 0;
            while col < dim
                invariant
                    dim as int == spec_rotation_dim(self.kind),
                    row < dim,
                    col <= dim,
                    forall|r: int, c: int|
                        0 <= r < 4 && 0 <= c < 4 ==> #[trigger] out[r][c] == if r < row {
                            rotated_cell(self.shape, dim as int, r, c)
                        } else {
                            self.shape[r][c]
                        },
                    forall|c: int|
                        0 <= c < 4 ==> #[trigger] line[c] == if c < col {
                            rotated_cell(self.shape, dim as int, row as int, c)
                        } else {
                            self.shape[row as int][c]
                        },
                decreases dim - col,
            {
                line[col] = self.shape[dim - 1 - col][row];
                col += 1;
            }
            out[row] = line;
            row += 1;
        }
        out
    }
}

/// Turning a mask a quarter four times within the same block gives the mask
/// back: rotation is a cycle of order four, for the 3x3 and the 4x4 block.
pub proof fn lemma_four_rotations_identity(s0: Mask, s1: Mask, s2: Mask, s3: Mask, s4: Mask, dim: int)
    requires
        dim == 3 || dim == 4,
        is_rotation(s0, s1, dim),
        is_rotation(s1, s2, dim),
        is_rotation(s2, s3, dim),
        is_rotation(s3, s4, dim),
    ensures
        s4 == s0,
{
    assert forall|r: int| 0 <= r < 4 implies s4[r] == s0[r] by {
        assert forall|c: int| 0 <= c < 4 implies s4[r][c] == s0[r][c] by {
            if r < dim && c < dim {
                assert(s4[r][c] == s3[dim - 1 - c][r]);
                assert(s3[dim - 1 - c][r] == s2[dim - 1 - r][dim - 1 - c]);
                assert(s2[dim - 1 - r][dim - 1 - c] == s1[c][dim - 1 - r]);
                assert(s1[c][dim - 1 - r] == s0[r][c]);
            } else {
                assert(s4[r][c] == s3[r][c]);
                assert(s3[r][c] == s2[r][c]);
                assert(s2[r][c] == s1[r][c]);
                assert(s1[r][c] == s0[r][c]);
            }
        }
        assert(s4[r] =~= s0[r]);
    }
    assert(s4 =~= s0);
}

} // verus!
