use vstd::prelude::*;
use rand::Rng;
use crate::field::{
    clear_full_rows, full_from, is_compaction, is_stack_of, lemma_stack_kept, row_empty,
    row_full, stacked_row, Field, Row, BOTTOM_LINE_INDEX, RIGHTEST_INDEX,
};
use crate::piece::{
    first_column_empty, is_left_shift, is_rotation, kind_at, spawn_mask, spec_color_code,
    spec_kind_at, spec_rotation_dim, Figure, FigureType, Mask,
};

verus! {

/// Ticks between two gravity steps.
pub const FALL_INTERVAL: u8 = 20;

/// Tick frequency at level 1.
pub const BASE_FPS: u32 = 30;

/// Tick frequency while the falling piece is a bomb.
pub const BOMB_FPS: u32 = 260;

/// Horizontal anchor of a freshly spawned piece.
pub const SPAWN_ROW: u8 = 4;

/// Number of kinds that the next piece is drawn from.
pub const KIND_COUNT: u8 = 8;

/// Points for one cleared row at level 1.
pub const POINTS_PER_ROW: u32 = 80;

/// Relies on rand 0.7's `Rng::gen_range` on the thread generator: a value in
/// `[0, n)`; it panics only when `n` is 0.
#[verifier::external_body]
fn random_below(n: u8) -> (r: u8)
    requires
        0 < n,
    ensures
        r < n,
{
    rand::thread_rng().gen_range(0, n)
}

/// One even-odds coin for each cell that a bomb may empty.
fn toss_coins() -> (c: Coins) {
    let mut c: Coins = [[[false; 3]; 4]; 4];
    let mut j: usize = 0;
    while j < 4
        decreases 4 - j,
    {
        let mut i: usize = 0;
        while i < 4
            invariant
                j < 4,
            decreases 4 - i,
        {
            let mut d: usize = 0;
            while d < 3
                invariant
                    j < 4,
                    i < 4,
                decreases 3 - d,
            {
                c[j][i][d] = random_below(2) == 1;
                d += 1;
            }
            i += 1;
        }
        j += 1;
    }
    c
}

/// One game: the field, the falling piece and the next one, the piece's
/// anchor (`col` along the fall axis, `row` across), the gravity timer,
/// score, level and tick frequency.
pub struct GameState {
    pub frames_until_fall: u8,
    pub field: Field,
    pub current_figure: Figure,
    pub next_figure: Figure,
    pub col: u8,
    pub row: u8,
    pub game_over: bool,
    pub score: u32,
    pub level: u8,
    pub current_level_fps: u32,
}

/// Mask cell `(j, i)` of a piece anchored at `(col, row)` rests on the bottom
/// line or on a filled cell; cells projected off the field do not count.
pub open spec fn below_hit(f: Field, s: Mask, col: int, row: int, j: int, i: int) -> bool {
    s[j][i] != 0 && j + col <= 19 && i + row < 10 && (j + col == 19 || f[j + col + 1][i + row] != 0)
}

pub open spec fn collides_below(f: Field, s: Mask, col: int, row: int) -> bool {
    exists|j: int, i: int| 0 <= j < 4 && 0 <= i < 4 && #[trigger] below_hit(f, s, col, row, j, i)
}

/// Mask cell `(j, i)` moved by `dir` across leaves the field or meets a filled cell.
pub open spec fn side_hit(f: Field, s: Mask, col: int, row: int, dir: int, j: int, i: int) -> bool {
    s[j][i] != 0 && (i + row + dir < 0 || i + row + dir > 9 || (j + col <= 19 && f[j + col][i + row
        + dir] != 0))
}

pub open spec fn collides_sideways(f: Field, s: Mask, col: int, row: int, dir: int) -> bool {
    exists|j: int, i: int|
        0 <= j < 4 && 0 <= i < 4 && #[trigger] side_hit(f, s, col, row, dir, j, i)
}

/// Cell `(r, c)` of the rotation block lies off the field or is filled.
pub open spec fn rotation_cell_blocked(f: Field, col: int, row: int, r: int, c: int) -> bool {
    c + col > 19 || r + row >= 10 || f[c + col][r + row] != 0
}

pub open spec fn rotation_blocked(f: Field, col: int, row: int, dim: int) -> bool {
    exists|r: int, c: int|
        0 <= r < dim && 0 <= c < dim && #[trigger] rotation_cell_blocked(f, col, row, r, c)
}

/// Field cell `(y, x)` is covered by a filled mask cell of a piece at `(col, row)`.
pub open spec fn covers(s: Mask, col: int, row: int, y: int, x: int) -> bool {
    col <= y < col + 4 && row <= x < row + 4 && s[y - col][x - row] == 1
}

/// `g` is `f` with every covered cell set to `code`.
pub open spec fn is_placement(f: Field, g: Field, s: Mask, col: int, row: int, code: u8) -> bool {
    forall|y: int, x: int|
        0 <= y < 20 && 0 <= x < 10 ==> #[trigger] g[y][x] == if covers(s, col, row, y, x) {
            code
        } else {
            f[y][x]
        }
}

/// Field cell `(y, x)` is one of the three cells under and beside mask cell `(j, i)`.
pub open spec fn blast_at(s: Mask, col: int, row: int, j: int, i: int, y: int, x: int) -> bool {
    0 <= j < 4 && 0 <= i < 4 && s[j][i] == 1 && j + col < 19 && y == j + col + 1 && i - 1 <= x
        - row <= i + 1 && x - row >= 0 && x <= 9
}

pub open spec fn in_blast(s: Mask, col: int, row: int, y: int, x: int) -> bool {
    exists|j: int, i: int| #[trigger] blast_at(s, col, row, j, i, y, x)
}

/// `g` is `f` with some cells of the blast emptied, and no other change.
pub open spec fn is_blast(f: Field, g: Field, s: Mask, col: int, row: int) -> bool {
    forall|y: int, x: int|
        0 <= y < 20 && 0 <= x < 10 ==> #[trigger] g[y][x] == f[y][x] || (g[y][x] == 0
            && in_blast(s, col, row, y, x))
}

/// The coin tossed for each mask cell `(j, i)` and each of the three cells
/// under and beside it, left to right: `true` empties that cell.
pub type Coins = [[[bool; 3]; 4]; 4];

/// Coin `d` of mask cell `(j, i)` empties field cell `(y, x)`.
pub open spec fn coin_hit(s: Mask, col: int, row: int, c: Coins, j: int, i: int, d: int, y: int, x: int) -> bool {
    0 <= d < 3 && blast_at(s, col, row, j, i, y, x) && x == row + i - 1 + d && c[j][i][d]
}

/// Field cell `(y, x)` is emptied by one of the first `n` coins, counted mask
/// cell by mask cell.
pub open spec fn cleared_before(s: Mask, col: int, row: int, c: Coins, y: int, x: int, n: int) -> bool {
    exists|j: int, i: int, d: int| j * 12 + i * 3 + d < n && #[trigger] coin_hit(s, col, row, c, j, i, d, y, x)
}

/// Field cell `(y, x)` is emptied by the coins `c` of a bomb at `(col, row)`.
pub open spec fn cleared_by(s: Mask, col: int, row: int, c: Coins, y: int, x: int) -> bool {
    cleared_before(s, col, row, c, y, x, 48)
}

/// `g` is `f` with exactly the cells that the coins `c` empty set to 0.
pub open spec fn is_detonation(f: Field, g: Field, s: Mask, col: int, row: int, c: Coins) -> bool {
    forall|y: int, x: int|
        0 <= y < 20 && 0 <= x < 10 ==> #[trigger] g[y][x] == if cleared_by(s, col, row, c, y, x) {
            0u8
        } else {
            f[y][x]
        }
}

/// The score after clearing `rows` rows at `level`, held at the largest `u32`.
pub open spec fn scored(score: u32, rows: nat, level: u8) -> u32 {
    let total = score + rows * 80 * level;
    if total > u32::MAX {
        u32::MAX
    } else {
        total as u32
    }
}

pub open spec fn levels_up(score: u32, level: u8) -> bool {
    1 <= level < 255 && (score as int) / (level as int) >= 1000 * (level as int)
}

/// The tick frequency raised by two fifths, rounded down, held at the largest `u32`.
pub open spec fn faster(fps: u32) -> u32 {
    let total = fps + fps * 2 / 5;
    if total > u32::MAX {
        u32::MAX
    } else {
        total as u32
    }
}

impl GameState {
    pub open spec fn wf(&self) -> bool {
        self.col <= 20 && self.row <= 9 && self.level >= 1
    }

    pub open spec fn spec_collides_below(&self) -> bool {
        collides_below(self.field, self.current_figure.shape, self.col as int, self.row as int)
    }

    /// The field `g` after the falling piece locks: covered cells take the
    /// kind's code (0 for the bomb), a bomb's coins `c` empty the cells they
    /// hit, and every other cell stays.
    pub open spec fn locks_into(&self, g: Field, c: Coins) -> bool {
        let s = self.current_figure.shape;
        let k = self.current_figure.kind;
        forall|y: int, x: int|
            0 <= y < 20 && 0 <= x < 10 ==> #[trigger] g[y][x] == if covers(s, self.col as int, self.row as int, y, x) {
                spec_color_code(k)
            } else if k == FigureType::Bomb && cleared_by(s, self.col as int, self.row as int, c, y, x) {
                0u8
            } else {
                self.field[y][x]
            }
    }

    /// What follows a lock into `g`: at the top the game ends; else full rows
    /// are cleared and scored, the level is checked, the next piece falls from
    /// the spawn anchor and a piece of kind `next_index` is next.
    pub open spec fn after_lock(&self, g: Field, post: GameState, next_index: int) -> bool {
        if self.col == 0 {
            post == (GameState { field: g, game_over: true, ..*self })
        } else {
            let score = scored(self.score, full_from(g, 0), self.level);
            &&& is_compaction(g, post.field)
            &&& post.score == score
            &&& post.level == if levels_up(score, self.level) { (self.level + 1) as u8 } else { self.level }
            &&& post.current_level_fps == if levels_up(score, self.level) {
                faster(self.current_level_fps)
            } else {
                self.current_level_fps
            }
            &&& post.current_figure == self.next_figure
            &&& post.next_figure.kind == spec_kind_at(next_index)
            &&& post.next_figure.shape == spawn_mask(spec_kind_at(next_index))
            &&& post.col == 0
            &&& post.row == SPAWN_ROW
            &&& post.frames_until_fall == FALL_INTERVAL
            &&& !post.game_over
        }
    }

    /// What one tick does to the game `self`, giving `post`, where `next_index`
    /// chooses the next piece's kind if the falling piece locks, and `c` are
    /// the coins of a bomb that locks.
    pub open spec fn ticks_into(&self, post: GameState, next_index: int, c: Coins, locked: bool) -> bool {
        let o = *self;
        if o.game_over {
            post == o && !locked
        } else if o.frames_until_fall > 0 {
            post == (GameState { frames_until_fall: (o.frames_until_fall - 1) as u8, ..o }) && !locked
        } else if o.col > 19 {
            post == (GameState { frames_until_fall: FALL_INTERVAL, ..o }) && !locked
        } else if !o.spec_collides_below() {
            post == (GameState { col: (o.col + 1) as u8, frames_until_fall: FALL_INTERVAL, ..o })
                && !locked
        } else {
            locked && exists|g: Field| #[trigger] o.locks_into(g, c) && o.after_lock(g, post, next_index)
        }
    }

    /// Whether the anchor lies on the field and the level is at least 1, as
    /// every method here asks.
    pub fn is_well_formed(&self) -> (r: bool)
        ensures
            r == self.wf(),
    {
        self.col <= 20 && self.row <= 9 && self.level >= 1
    }

    /// A game on the given field with the given falling and next pieces, at the
    /// spawn anchor, level 1 and score 0.
    pub fn with_field(field: Field, current: FigureType, next: FigureType) -> (g: GameState)
        ensures
            g.wf(),
            g.field == field,
            g.current_figure.kind == current,
            g.current_figure.shape == spawn_mask(current),
            g.next_figure.kind == next,
            g.next_figure.shape == spawn_mask(next),
            g.col == 0,
            g.row == SPAWN_ROW,
            g.frames_until_fall == FALL_INTERVAL,
            !g.game_over,
            g.score == 0,
            g.level == 1,
            g.current_level_fps == BASE_FPS,
    {
        GameState {
            frames_until_fall: FALL_INTERVAL,
            field,
            current_figure: Figure::new(current),
            next_figure: Figure::new(next),
            col: 0,
            row: SPAWN_ROW,
            game_over: false,
            score: 0,
            level: 1,
            current_level_fps: BASE_FPS,
        }
    }

    /// A game on an empty field with the given falling and next pieces.
    pub fn with_figures(current: FigureType, next: FigureType) -> (g: GameState)
        ensures
            g.wf(),
            forall|y: int, x: int| 0 <= y < 20 && 0 <= x < 10 ==> #[trigger] g.field[y][x] == 0,
            g.current_figure.kind == current,
            g.current_figure.shape == spawn_mask(current),
            g.next_figure.kind == next,
            g.next_figure.shape == spawn_mask(next),
            g.col == 0,
            g.row == SPAWN_ROW,
            g.frames_until_fall == FALL_INTERVAL,
            !g.game_over,
            g.score == 0,
            g.level == 1,
            g.current_level_fps == BASE_FPS,
    {
        GameState::with_field([[0u8; 10]; 20], current, next)
    }

    /// A new game on an empty field, its two pieces drawn at random.
    pub fn new() -> (g: GameState)
        ensures
            g.wf(),
            forall|y: int, x: int| 0 <= y < 20 && 0 <= x < 10 ==> #[trigger] g.field[y][x] == 0,
            g.current_figure.shape == spawn_mask(g.current_figure.kind),
            g.next_figure.shape == spawn_mask(g.next_figure.kind),
            g.col == 0,
            g.row == SPAWN_ROW,
            g.frames_until_fall == FALL_INTERVAL,
            !g.game_over,
            g.score == 0,
            g.level == 1,
            g.current_level_fps == BASE_FPS,
    {
        let current = kind_at(random_below(KIND_COUNT));
        let next = kind_at(random_below(KIND_COUNT));
        GameState::with_figures(current, next)
    }
}

impl GameState {
    /// The falling piece rests on the bottom line or on a filled cell.
    pub fn figure_collides(&self) -> (r: bool)
        requires
            self.wf(),
        ensures
            r == self.spec_collides_below(),
    {
        let s = &self.current_figure.shape;
        let col = self.col as usize;
        let row = self.row as usize;
        let mut j: usize = 0;
        while j < 4
            invariant
                j <= 4,
                col == self.col,
                row == self.row,
                *s == self.current_figure.shape,
                self.wf(),
                forall|jj: int, ii: int|
                    0 <= jj < j && 0 <= ii < 4 ==> !#[trigger] below_hit(
                        self.field,
                        *s,
                        col as int,
                        row as int,
                        jj,
                        ii,
                    ),
            decreases 4 - j,
        {
            let mut i: usize = 0;
            while i < 4
                invariant
                    j < 4,
                    i <= 4,
                    col == self.col,
                    row == self.row,
                    *s == self.current_figure.shape,
                    self.wf(),
                    forall|jj: int, ii: int|
                        (0 <= jj < j && 0 <= ii < 4) || (jj == j && 0 <= ii < i) ==> !#[trigger] below_hit(
                            self.field,
                            *s,
                            col as int,
                            row as int,
                            jj,
                            ii,
                        ),
                decreases 4 - i,
            {
                if s[j][i] != 0 && j + col <= BOTTOM_LINE_INDEX && i + row < 10 {
                    if j + col == BOTTOM_LINE_INDEX || self.field[j + col + 1][i + row] != 0 {
                        assert(below_hit(self.field, *s, col as int, row as int, j as int, i as int));
                        return true;
                    }
                }
                i += 1;
            }
            j += 1;
        }
        false
    }

    /// The falling piece, moved by `dir` across, would leave the field or
    /// meet a filled cell.
    pub fn collide_at_sides(&self, dir: i8) -> (r: bool)
        requires
            self.wf(),
            dir == -1 || dir == 1,
        ensures
            r == collides_sideways(
                self.field,
                self.current_figure.shape,
                self.col as int,
                self.row as int,
                dir as int,
            ),
    {
        let s = &self.current_figure.shape;
        let col = self.col as usize;
        let mut j: usize = 0;
        while j < 4
            invariant
                j <= 4,
                col == self.col,
                *s == self.current_figure.shape,
                self.wf(),
                dir == -1 || dir == 1,
                forall|jj: int, ii: int|
                    0 <= jj < j && 0 <= ii < 4 ==> !#[trigger] side_hit(
                        self.field,
                        *s,
                        col as int,
                        self.row as int,
                        dir as int,
                        jj,
                        ii,
                    ),
            decreases 4 - j,
        {
            let mut i: usize = 0;
            while i < 4
                invariant
                    j < 4,
                    i <= 4,
                    col == self.col,
                    *s == self.current_figure.shape,
                    self.wf(),
                    dir == -1 || dir == 1,
                    forall|jj: int, ii: int|
                        (0 <= jj < j && 0 <= ii < 4) || (jj == j && 0 <= ii < i) ==> !#[trigger] side_hit(
                            self.field,
                            *s,
                            col as int,
                            self.row as int,
                            dir as int,
                            jj,
                            ii,
                        ),
                decreases 4 - i,
            {
                if s[j][i] != 0 {
                    let x: i64 = i as i64 + self.row as i64 + dir as i64;
                    if x < 0 || x > RIGHTEST_INDEX as i64 {
                        assert(side_hit(self.field, *s, col as int, self.row as int, dir as int, j as int, i as int));
                        return true;
                    } else if j + col <= BOTTOM_LINE_INDEX && self.field[j + col][x as usize] != 0 {
                        assert(side_hit(self.field, *s, col as int, self.row as int, dir as int, j as int, i as int));
                        return true;
                    }
                }
                i += 1;
            }
            j += 1;
        }
        false
    }

    /// Moves the piece one cell left unless that collides. At the left wall a
    /// piece whose leftmost mask column is empty shifts its mask instead.
    pub fn move_left(&mut self)
        requires
            old(self).wf(),
        ensures
            final(self).wf(),
            ({
                let o = *old(self);
                let blocked = collides_sideways(
                    o.field,
                    o.current_figure.shape,
                    o.col as int,
                    o.row as int,
                    -1,
                );
                if blocked {
                    *final(self) == o
                } else if o.row == 0 {
                    &&& first_column_empty(o.current_figure.shape)
                    &&& is_left_shift(o.current_figure.shape, final(self).current_figure.shape)
                    &&& *final(self) == (GameState { current_figure: final(self).current_figure, ..o })
                    &&& final(self).current_figure.kind == o.current_figure.kind
                } else {
                    *final(self) == (GameState { row: (o.row - 1) as u8, ..o })
                }
            }),
    {
        if !self.collide_at_sides(-1) {
            if self.row == 0 {
                proof {
                    let s = self.current_figure.shape;
                    assert forall|j: int| 0 <= j < 4 implies #[trigger] s[j][0] == 0 by {
                        if s[j][0] != 0 {
                            assert(side_hit(self.field, s, self.col as int, 0, -1, j, 0));
                        }
                    }
                }
                let first_empty = self.current_figure.is_first_column_zero();
                assert(first_empty);
                self.current_figure.left_shift();
            } else {
                self.row -= 1;
            }
        }
    }

    /// Moves the piece one cell right unless that collides; the anchor stays
    /// on the field.
    pub fn move_right(&mut self)
        requires
            old(self).wf(),
        ensures
            final(self).wf(),
            ({
                let o = *old(self);
                if !collides_sideways(o.field, o.current_figure.shape, o.col as int, o.row as int, 1)
                    && o.row < 9 {
                    *final(self) == (GameState { row: (o.row + 1) as u8, ..o })
                } else {
                    *final(self) == o
                }
            }),
    {
        if !self.collide_at_sides(1) && self.row < RIGHTEST_INDEX as u8 {
            self.row += 1;
        }
    }

    /// Moves the piece one step down unless it rests on something.
    pub fn hard_drop(&mut self)
        requires
            old(self).wf(),
        ensures
            final(self).wf(),
            ({
                let o = *old(self);
                if !o.spec_collides_below() && o.col <= 19 {
                    *final(self) == (GameState { col: (o.col + 1) as u8, ..o })
                } else {
                    *final(self) == o
                }
            }),
    {
        if !self.figure_collides() && self.col <= BOTTOM_LINE_INDEX as u8 {
            self.col += 1;
        }
    }

    /// Turns the piece a quarter in place, unless a cell of its rotation block
    /// lies off the field or is filled; then nothing changes.
    pub fn rotate_figure(&mut self)
        requires
            old(self).wf(),
        ensures
            final(self).wf(),
            ({
                let o = *old(self);
                let dim = spec_rotation_dim(o.current_figure.kind);
                if rotation_blocked(o.field, o.col as int, o.row as int, dim) {
                    *final(self) == o
                } else {
                    &&& is_rotation(o.current_figure.shape, final(self).current_figure.shape, dim)
                    &&& final(self).current_figure.kind == o.current_figure.kind
                    &&& *final(self) == (GameState { current_figure: final(self).current_figure, ..o })
                }
            }),
    {
        let dim = self.current_figure.kind.rotation_dim();
        let col = self.col as usize;
        let row = self.row as usize;
        let mut r: usize = 0;
        while r < dim
            invariant
                dim as int == spec_rotation_dim(self.current_figure.kind),
                r <= dim,
                *self == *old(self),
                self.wf(),
                col == self.col,
                row == self.row,
                forall|rr: int, cc: int|
                    0 <= rr < r && 0 <= cc < dim ==> !#[trigger] rotation_cell_blocked(
                        self.field,
                        col as int,
                        row as int,
                        rr,
                        cc,
                    ),
            decreases dim - r,
        {
            let mut c: usize = 0;
            while c < dim
                invariant
                    dim as int == spec_rotation_dim(self.current_figure.kind),
                    r < dim,
                    *self == *old(self),
                    self.wf(),
                    c <= dim,
                    col == self.col,
                    row == self.row,
                    forall|rr: int, cc: int|
                        (0 <= rr < r && 0 <= cc < dim) || (rr == r && 0 <= cc < c) ==> !#[trigger] rotation_cell_blocked(
                            self.field,
                            col as int,
                            row as int,
                            rr,
                            cc,
                        ),
                decreases dim - c,
            {
                if c + col > BOTTOM_LINE_INDEX || r + row > RIGHTEST_INDEX || self.field[c + col][r + row] != 0 {
                    assert(rotation_cell_blocked(self.field, col as int, row as int, r as int, c as int));
                    return;
                }
                c += 1;
            }
            r += 1;
        }
        self.current_figure.shape = self.current_figure.rotated_shape();
    }
}

impl GameState {
    /// Under each filled cell of the bomb, each of the three cells below and
    /// across that lies on the field is emptied where its coin says so.
    pub fn bomb_collision_with(&mut self, destroy: Coins)
        requires
            old(self).wf(),
        ensures
            is_detonation(
                old(self).field,
                final(self).field,
                old(self).current_figure.shape,
                old(self).col as int,
                old(self).row as int,
                destroy,
            ),
            *final(self) == (GameState { field: final(self).field, ..*old(self) }),
    {
        let ghost f0 = self.field;
        let ghost s = self.current_figure.shape;
        let col = self.col as usize;
        let row = self.row as usize;
        let mut j: usize = 0;
        while j < 4
            invariant
                j <= 4,
                col == self.col,
                row == self.row,
                old(self).wf(),
                f0 == old(self).field,
                s == self.current_figure.shape,
                *self == (GameState { field: self.field, ..*old(self) }),
                forall|y: int, x: int|
                    0 <= y < 20 && 0 <= x < 10 ==> #[trigger] self.field[y][x] == if cleared_before(
                        s, col as int, row as int, destroy, y, x, j * 12) {
                        0u8
                    } else {
                        f0[y][x]
                    },
            decreases 4 - j,
        {
            let mut i: usize = 0;
            while i < 4
                invariant
                    j < 4,
                    i <= 4,
                    col == self.col,
                    row == self.row,
                    old(self).wf(),
                    f0 == old(self).field,
                    s == self.current_figure.shape,
                    *self == (GameState { field: self.field, ..*old(self) }),
                    forall|y: int, x: int|
                        0 <= y < 20 && 0 <= x < 10 ==> #[trigger] self.field[y][x] == if cleared_before(
                            s, col as int, row as int, destroy, y, x, j * 12 + i * 3) {
                            0u8
                        } else {
                            f0[y][x]
                        },
                decreases 4 - i,
            {
                let mut d: usize = 0;
                while d < 3
                    invariant
                        j < 4,
                        i < 4,
                        d <= 3,
                        col == self.col,
                        row == self.row,
                        old(self).wf(),
                        f0 == old(self).field,
                        s == self.current_figure.shape,
                        *self == (GameState { field: self.field, ..*old(self) }),
                        forall|y: int, x: int|
                            0 <= y < 20 && 0 <= x < 10 ==> #[trigger] self.field[y][x] == if cleared_before(
                                s, col as int, row as int, destroy, y, x, j * 12 + i * 3 + d) {
                                0u8
                            } else {
                                f0[y][x]
                            },
                    decreases 3 - d,
                {
                    let ghost before = self.field;
                    let ghost n = j * 12 + i * 3 + d;
                    let x: i64 = i as i64 - 1 + d as i64;
                    let hit = self.current_figure.shape[j][i] == 1 && destroy[j][i][d] && col + j
                        < BOTTOM_LINE_INDEX && x >= 0 && x + row as i64 <= RIGHTEST_INDEX as i64;
                    let ghost y0 = j + 1 + col;
                    let ghost x0 = x + row;
                    if hit {
                        self.field[j + 1 + col][x as usize + row] = 0;
                        assert(coin_hit(s, col as int, row as int, destroy, j as int, i as int, d as int, y0, x0));
                    }
                    proof {
                        assert forall|y: int, x: int| 0 <= y < 20 && 0 <= x < 10 implies #[trigger] self.field[y][x]
                            == if cleared_before(s, col as int, row as int, destroy, y, x, n + 1) {
                            0u8
                        } else {
                            f0[y][x]
                        } by {
                            if cleared_before(s, col as int, row as int, destroy, y, x, n + 1) {
                                let (jj, ii, dd) = choose|jj: int, ii: int, dd: int| jj * 12 + ii * 3 + dd < n + 1
                                    && #[trigger] coin_hit(s, col as int, row as int, destroy, jj, ii, dd, y, x);
                                if jj * 12 + ii * 3 + dd == n {
                                    assert(jj == j && ii == i && dd == d);
                                    assert(hit && y == y0 && x == x0);
                                } else {
                                    assert(cleared_before(s, col as int, row as int, destroy, y, x, n));
                                    if !(hit && y == y0 && x == x0) {
                                        assert(self.field[y][x] == before[y][x]);
                                    }
                                }
                            } else {
                                if cleared_before(s, col as int, row as int, destroy, y, x, n) {
                                    let (jj, ii, dd) = choose|jj: int, ii: int, dd: int| jj * 12 + ii * 3 + dd < n
                                        && #[trigger] coin_hit(s, col as int, row as int, destroy, jj, ii, dd, y, x);
                                    assert(jj * 12 + ii * 3 + dd < n + 1);
                                }
                                if hit && y == y0 && x == x0 {
                                    assert(coin_hit(s, col as int, row as int, destroy, j as int, i as int, d as int, y, x));
                                }
                                assert(self.field[y][x] == before[y][x]);
                            }
                        }
                    }
                    d += 1;
                }
                i += 1;
            }
            j += 1;
        }
    }

    /// Tosses the bomb's coins and detonates it: some cells of the blast are
    /// emptied, and no other cell changes.
    pub fn bomb_collision(&mut self)
        requires
            old(self).wf(),
        ensures
            is_blast(
                old(self).field,
                final(self).field,
                old(self).current_figure.shape,
                old(self).col as int,
                old(self).row as int,
            ),
            exists|c: Coins|
                #[trigger] is_detonation(
                    old(self).field,
                    final(self).field,
                    old(self).current_figure.shape,
                    old(self).col as int,
                    old(self).row as int,
                    c,
                ),
            *final(self) == (GameState { field: final(self).field, ..*old(self) }),
    {
        let destroy = toss_coins();
        self.bomb_collision_with(destroy);
        proof {
            lemma_detonation_is_blast(
                old(self).field,
                self.field,
                self.current_figure.shape,
                self.col as int,
                self.row as int,
                destroy,
            );
        }
    }

    /// Locks the falling piece into the field: a bomb first empties the cells
    /// that its coins `destroy` hit, then every covered cell takes the kind's
    /// code (0 for the bomb).
    pub fn fix_figure_to_field_with(&mut self, destroy: Coins)
        requires
            old(self).wf(),
        ensures
            old(self).locks_into(final(self).field, destroy),
            *final(self) == (GameState { field: final(self).field, ..*old(self) }),
    {
        let ghost f0 = self.field;
        if self.current_figure.kind == FigureType::Bomb {
            self.bomb_collision_with(destroy);
        }
        let ghost b = self.field;
        let code = self.current_figure.kind.color_code();
        let col = self.col as usize;
        let row = self.row as usize;
        let mut j: usize = 0;
        while j < 4
            invariant
                j <= 4,
                col == self.col,
                row == self.row,
                code == spec_color_code(self.current_figure.kind),
                *self == (GameState { field: self.field, ..*old(self) }),
                forall|y: int, x: int|
                    0 <= y < 20 && 0 <= x < 10 ==> #[trigger] self.field[y][x] == if covers(
                        self.current_figure.shape,
                        col as int,
                        row as int,
                        y,
                        x,
                    ) && y - col < j {
                        code
                    } else {
                        b[y][x]
                    },
            decreases 4 - j,
        {
            let mut i: usize = 0;
            while i < 4
                invariant
                    j < 4,
                    i <= 4,
                    col == self.col,
                    row == self.row,
                    code == spec_color_code(self.current_figure.kind),
                    *self == (GameState { field: self.field, ..*old(self) }),
                    forall|y: int, x: int|
                        0 <= y < 20 && 0 <= x < 10 ==> #[trigger] self.field[y][x] == if covers(
                            self.current_figure.shape,
                            col as int,
                            row as int,
                            y,
                            x,
                        ) && (y - col < j || (y - col == j && x - row < i)) {
                            code
                        } else {
                            b[y][x]
                        },
                decreases 4 - i,
            {
                if self.current_figure.shape[j][i] == 1 {
                    if j + col <= BOTTOM_LINE_INDEX && i + row <= RIGHTEST_INDEX {
                        let ghost before = self.field;
                        self.field[j + col][i + row] = code;
                        assert forall|y: int, x: int|
                            0 <= y < 20 && 0 <= x < 10 && (y != j + col || x != i + row) implies #[trigger] self.field[y][x]
                            == before[y][x] by {}
                    }
                }
                i += 1;
            }
            j += 1;
        }
        let ghost s = self.current_figure.shape;
        assert(is_placement(b, self.field, s, col as int, row as int, code));
        assert forall|y: int, x: int| 0 <= y < 20 && 0 <= x < 10 implies #[trigger] self.field[y][x]
            == if covers(s, col as int, row as int, y, x) {
            code
        } else if self.current_figure.kind == FigureType::Bomb && cleared_by(s, col as int, row as int, destroy, y, x) {
            0u8
        } else {
            f0[y][x]
        } by {
            assert(self.field[y][x] == if covers(s, col as int, row as int, y, x) { code } else { b[y][x] });
        }
    }

    /// Locks the falling piece into the field, tossing a bomb's coins.
    pub fn fix_figure_to_field(&mut self)
        requires
            old(self).wf(),
        ensures
            exists|c: Coins| #[trigger] old(self).locks_into(final(self).field, c),
            *final(self) == (GameState { field: final(self).field, ..*old(self) }),
    {
        let destroy = toss_coins();
        self.fix_figure_to_field_with(destroy);
    }

    /// Clears the full rows of the field and packs the rest to the bottom;
    /// returns how many rows were cleared.
    pub fn clear_complete_rows(&mut self) -> (cleared: u8)
        ensures
            cleared as nat == full_from(old(self).field, 0),
            is_compaction(old(self).field, final(self).field),
            *final(self) == (GameState { field: final(self).field, ..*old(self) }),
    {
        clear_full_rows(&mut self.field)
    }

    /// Adds `rows_cleared * 80 * level` to the score, held at the largest `u32`.
    pub fn update_score(&mut self, rows_cleared: u16)
        ensures
            final(self).score == scored(old(self).score, rows_cleared as nat, old(self).level),
            *final(self) == (GameState { score: final(self).score, ..*old(self) }),
    {
        let per_level: u64 = rows_cleared as u64 * POINTS_PER_ROW as u64;
        let level: u64 = self.level as u64;
        assert(per_level == rows_cleared as u64 * 80);
        assert(per_level * level <= 65535 * 80 * 255) by (nonlinear_arith)
            requires
                per_level <= 65535 * 80,
                level <= 255,
        ;
        let gain: u64 = per_level * level;
        let total: u64 = self.score as u64 + gain;
        if total > u32::MAX as u64 {
            self.score = u32::MAX;
        } else {
            self.score = total as u32;
        }
    }

    /// Goes up a level when the score divided by the level reaches 1000 times
    /// the level; the tick frequency then grows by two fifths.
    pub fn check_level_update(&mut self)
        requires
            old(self).wf(),
        ensures
            final(self).wf(),
            levels_up(old(self).score, old(self).level) ==> *final(self) == (GameState {
                level: (old(self).level + 1) as u8,
                current_level_fps: faster(old(self).current_level_fps),
                ..*old(self)
            }),
            !levels_up(old(self).score, old(self).level) ==> *final(self) == *old(self),
    {
        if self.level < u8::MAX && self.score / self.level as u32 >= 1000 * self.level as u32 {
            let fps = self.current_level_fps as u64;
            let total: u64 = fps + fps * 2 / 5;
            if total > u32::MAX as u64 {
                self.current_level_fps = u32::MAX;
            } else {
                self.current_level_fps = total as u32;
            }
            self.level += 1;
        }
    }

    /// Ticks per second: fast while a bomb falls, else the level's frequency.
    pub fn tick_rate(&self) -> (fps: u32)
        ensures
            fps == if self.current_figure.kind == FigureType::Bomb {
                BOMB_FPS
            } else {
                self.current_level_fps
            },
    {
        if self.current_figure.kind == FigureType::Bomb {
            BOMB_FPS
        } else {
            self.current_level_fps
        }
    }
}

impl GameState {
    /// One tick, with `next_index` choosing the kind drawn as next piece if
    /// the falling piece locks. Returns whether it locked.
    ///
    /// A finished game does not change. Otherwise the gravity timer counts
    /// down; at zero the piece falls one step if nothing is below it, or else
    /// locks. After a lock at the top the game is over; after any other lock
    /// full rows are cleared and scored, the level is checked and the next
    /// piece starts falling from the spawn anchor.
    pub fn tick_with(&mut self, next_index: u8, destroy: Coins) -> (locked: bool)
        requires
            old(self).wf(),
            next_index < KIND_COUNT,
        ensures
            final(self).wf(),
            old(self).ticks_into(*final(self), next_index as int, destroy, locked),
    {
        if self.game_over {
            return false;
        }
        if self.frames_until_fall > 0 {
            self.frames_until_fall -= 1;
            return false;
        }
        if self.col <= BOTTOM_LINE_INDEX as u8 {
            if self.figure_collides() {
                let ghost o = *self;
                self.fix_figure_to_field_with(destroy);
                let ghost g = self.field;
                if self.col == 0 {
                    self.game_over = true;
                    assert(o.locks_into(g, destroy) && o.after_lock(g, *self, next_index as int));
                    return true;
                }
                let rows_cleared = self.clear_complete_rows();
                self.update_score(rows_cleared as u16);
                self.check_level_update();
                self.current_figure = self.next_figure;
                self.next_figure = Figure::new(kind_at(next_index));
                self.col = 0;
                self.row = SPAWN_ROW;
                self.frames_until_fall = FALL_INTERVAL;
                assert(o.locks_into(g, destroy) && o.after_lock(g, *self, next_index as int));
                return true;
            } else {
                self.col += 1;
            }
        }
        self.frames_until_fall = FALL_INTERVAL;
        false
    }

    /// One tick, the next piece drawn at random among all kinds and a bomb's
    /// coins tossed if the falling piece locks. Returns whether it locked.
    pub fn tick(&mut self) -> (locked: bool)
        requires
            old(self).wf(),
        ensures
            final(self).wf(),
            exists|next_index: int, c: Coins|
                0 <= next_index < KIND_COUNT && #[trigger] old(self).ticks_into(
                    *final(self),
                    next_index,
                    c,
                    locked,
                ),
    {
        let next_index = random_below(KIND_COUNT);
        let destroy: Coins = if self.current_figure.kind == FigureType::Bomb {
            toss_coins()
        } else {
            [[[false; 3]; 4]; 4]
        };
        self.tick_with(next_index, destroy)
    }
}

/// A tick never lowers the level nor slows the tick frequency.
pub proof fn lemma_tick_keeps_pace(s: GameState, post: GameState, next_index: int, c: Coins, locked: bool)
    requires
        s.wf(),
        0 <= next_index < KIND_COUNT,
        s.ticks_into(post, next_index, c, locked),
    ensures
        post.level >= s.level,
        post.current_level_fps >= s.current_level_fps,
{
    if !s.game_over && s.frames_until_fall == 0 && s.col <= 19 && s.spec_collides_below() {
        let g = choose|g: Field| #[trigger] s.locks_into(g, c) && s.after_lock(g, post, next_index);
        assert(s.after_lock(g, post, next_index));
    }
}

/// A cell that a coin empties lies in the blast.
proof fn lemma_detonation_is_blast(f: Field, g: Field, s: Mask, col: int, row: int, c: Coins)
    requires
        is_detonation(f, g, s, col, row, c),
    ensures
        is_blast(f, g, s, col, row),
{
    assert forall|y: int, x: int| 0 <= y < 20 && 0 <= x < 10 implies #[trigger] g[y][x] == f[y][x] || (g[y][x] == 0
        && in_blast(s, col, row, y, x)) by {
        if cleared_by(s, col, row, c, y, x) {
            let (j, i, d) = choose|j: int, i: int, d: int| j * 12 + i * 3 + d < 48 && #[trigger] coin_hit(s, col, row, c, j, i, d, y, x);
            assert(blast_at(s, col, row, j, i, y, x));
        }
    }
}

/// Some tick, whatever it draws, makes `b` of `a`.
#[verifier::opaque]
pub open spec fn ticks_to(a: GameState, b: GameState) -> bool {
    exists|next_index: int, c: Coins, locked: bool|
        0 <= next_index < KIND_COUNT && #[trigger] a.ticks_into(b, next_index, c, locked)
}

/// Each game of `states` is what one tick makes of the one before it.
pub open spec fn is_run(states: Seq<GameState>) -> bool {
    forall|k: int| 0 <= k < states.len() - 1 ==> ticks_to(#[trigger] states[k], states[k + 1])
}

/// While the gravity timer runs down, a tick changes nothing but the timer.
proof fn lemma_run_countdown(states: Seq<GameState>, start: int, k: int)
    requires
        is_run(states),
        0 <= start,
        0 <= k,
        start + k < states.len(),
        k <= states[start].frames_until_fall,
        !states[start].game_over,
    ensures
        states[start + k] == (GameState {
            frames_until_fall: (states[start].frames_until_fall - k) as u8,
            ..states[start]
        }),
    decreases k,
{
    if k > 0 {
        lemma_run_countdown(states, start, k - 1);
        reveal(ticks_to);
        assert(ticks_to(states[start + k - 1], states[start + k]));
        let (n, c, l) = choose|n: int, c: Coins, l: bool|
            0 <= n < KIND_COUNT && #[trigger] states[start + k - 1].ticks_into(states[start + k], n, c, l);
    }
}

/// A piece with nothing below it, once its timer has run down, falls one
/// step and the timer starts again.
proof fn lemma_run_fall(states: Seq<GameState>, start: int)
    requires
        is_run(states),
        0 <= start,
        start + states[start].frames_until_fall + 1 < states.len(),
        !states[start].game_over,
        states[start].col <= 19,
        !states[start].spec_collides_below(),
    ensures
        states[start + states[start].frames_until_fall + 1] == (GameState {
            col: (states[start].col + 1) as u8,
            frames_until_fall: FALL_INTERVAL,
            ..states[start]
        }),
{
    let f = states[start].frames_until_fall as int;
    lemma_run_countdown(states, start, f);
    reveal(ticks_to);
    assert(ticks_to(states[start + f], states[start + f + 1]));
    let (n, c, l) = choose|n: int, c: Coins, l: bool|
        0 <= n < KIND_COUNT && #[trigger] states[start + f].ticks_into(states[start + f + 1], n, c, l);
}

/// A piece that rests on something as soon as it spawns ends the game at the
/// first gravity step: the piece is locked into the field, nothing else
/// changes, and later ticks change nothing.
pub proof fn lemma_game_over_run(states: Seq<GameState>)
    requires
        is_run(states),
        states.len() >= states[0].frames_until_fall + 2,
        states[0].wf(),
        !states[0].game_over,
        states[0].col == 0,
        states[0].spec_collides_below(),
    ensures
        forall|k: int|
            states[0].frames_until_fall < k < states.len() ==> {
                &&& (#[trigger] states[k]).game_over
                &&& states[k] == (GameState {
                    field: states[k].field,
                    game_over: true,
                    frames_until_fall: 0,
                    ..states[0]
                })
                &&& exists|c: Coins| #[trigger] states[0].locks_into(states[k].field, c)
            },
{
    let s0 = states[0];
    let f = s0.frames_until_fall as int;
    lemma_run_countdown(states, 0, f);
    let last = states[f];
    reveal(ticks_to);
    assert(ticks_to(states[f], states[f + 1]));
    let (n, c, l) = choose|n: int, c: Coins, l: bool|
        0 <= n < KIND_COUNT && #[trigger] states[f].ticks_into(states[f + 1], n, c, l);
    let g = choose|g: Field| #[trigger] last.locks_into(g, c) && last.after_lock(g, states[f + 1], n);
    assert(s0.locks_into(g, c));
    assert forall|k: int| f < k < states.len() implies #[trigger] states[k] == states[f + 1] by {
        lemma_game_over_stays(states, f + 1, k);
    }
}

proof fn lemma_game_over_stays(states: Seq<GameState>, from: int, k: int)
    requires
        is_run(states),
        0 <= from <= k < states.len(),
        states[from].game_over,
    ensures
        states[k] == states[from],
    decreases k - from,
{
    if k > from {
        lemma_game_over_stays(states, from, k - 1);
        reveal(ticks_to);
        assert(ticks_to(states[k - 1], states[k]));
        let (n, c, l) = choose|n: int, c: Coins, l: bool|
            0 <= n < KIND_COUNT && #[trigger] states[k - 1].ticks_into(states[k], n, c, l);
    }
}

pub open spec fn field_is_empty(f: Field) -> bool {
    forall|y: int, x: int| 0 <= y < 20 && 0 <= x < 10 ==> #[trigger] f[y][x] == 0
}

/// The field with an O piece on the bottom two rows, across cells 4 and 5.
pub open spec fn o_at_bottom(f: Field) -> bool {
    forall|y: int, x: int|
        0 <= y < 20 && 0 <= x < 10 ==> #[trigger] f[y][x] == if 18 <= y && 4 <= x <= 5 {
            4u8
        } else {
            0u8
        }
}

/// An O piece at the spawn column on an empty field rests on nothing above
/// the last two rows, and rests on the floor there.
proof fn lemma_o_piece_support(f: Field, col: int)
    requires
        field_is_empty(f),
        0 <= col <= 18,
    ensures
        collides_below(f, spawn_mask(FigureType::O), col, SPAWN_ROW as int) <==> col == 18,
{
    let sh = spawn_mask(FigureType::O);
    assert(sh[1][0] == 1);
    if collides_below(f, sh, col, SPAWN_ROW as int) {
        let (j, i) = choose|j: int, i: int| 0 <= j < 4 && 0 <= i < 4 && #[trigger] below_hit(
            f, sh, col, SPAWN_ROW as int, j, i);
        assert(sh[j][i] != 0);
        assert(j < 2);
    }
    if col == 18 {
        assert(below_hit(f, sh, col, SPAWN_ROW as int, 1, 0));
    }
}

proof fn lemma_o_piece_falls(states: Seq<GameState>, m: int)
    requires
        is_run(states),
        states.len() == 400,
        0 <= m <= 18,
        !states[0].game_over,
        field_is_empty(states[0].field),
        states[0].current_figure.shape == spawn_mask(FigureType::O),
        states[0].col == 0,
        states[0].row == SPAWN_ROW,
        states[0].frames_until_fall == FALL_INTERVAL,
    ensures
        states[21 * m] == (GameState { col: m as u8, ..states[0] }),
    decreases m,
{
    if m > 0 {
        lemma_o_piece_falls(states, m - 1);
        let s = states[21 * (m - 1)];
        lemma_o_piece_support(s.field, m - 1);
        lemma_run_fall(states, 21 * (m - 1));
    }
}

/// Locking an O piece at column 18 of an empty field fills four cells.
proof fn lemma_o_piece_lock(last: GameState, g: Field, c: Coins)
    requires
        field_is_empty(last.field),
        last.current_figure.kind == FigureType::O,
        last.current_figure.shape == spawn_mask(FigureType::O),
        last.col == 18,
        last.row == SPAWN_ROW,
        last.locks_into(g, c),
    ensures
        o_at_bottom(g),
{
    let sh = spawn_mask(FigureType::O);
    assert forall|y: int, x: int| 0 <= y < 20 && 0 <= x < 10 implies #[trigger] g[y][x] == if 18 <= y && 4 <= x <= 5 {
        4u8
    } else {
        0u8
    } by {
        assert(g[y][x] == if covers(sh, 18, 4, y, x) { 4u8 } else { last.field[y][x] });
        if 18 <= y && 4 <= x <= 5 {
            assert(sh[y - 18][x - 4] == 1);
        } else if covers(sh, 18, 4, y, x) {
            assert(sh[y - 18][x - 4] == 0);
        }
    }
}

/// Clearing a field that holds only an O piece on the bottom rows finds no
/// full row and leaves it as it is.
proof fn lemma_o_piece_clear(g: Field, h: Field)
    requires
        o_at_bottom(g),
        is_compaction(g, h),
    ensures
        full_from(g, 0) == 0,
        o_at_bottom(h),
{
    let rows: Seq<Row> = seq![g[19], g[18]];
    assert(g[19][0] == 0 && g[18][0] == 0 && g[19][4] == 4 && g[18][4] == 4);
    assert forall|k: int| 0 <= k < rows.len() implies !row_full(#[trigger] rows[k]) && !row_empty(rows[k]) by {
        assert(rows[k][0] == 0 && rows[k][4] == 4);
    }
    assert forall|y: int| 0 <= y < 20 implies stacked_row(rows, #[trigger] g[y], y) by {
        if y < 18 {
            assert forall|x: int| 0 <= x < 10 implies #[trigger] g[y][x] == 0 by {}
        }
    }
    lemma_stack_kept(rows, g, 0);
    assert(rows.subrange(0, 2) =~= rows);
    assert(is_stack_of(rows, h));
    assert forall|y: int, x: int| 0 <= y < 20 && 0 <= x < 10 implies #[trigger] h[y][x] == if 18 <= y && 4 <= x <= 5 {
        4u8
    } else {
        0u8
    } by {
        assert(stacked_row(rows, h[y], y));
        if y >= 18 {
            assert(h[y] == g[y]);
        }
    }
}

/// An O piece spawned at the anchor on an empty field falls one row every
/// 21 ticks; at tick 399 it locks on the bottom two rows, across cells 4 and
/// 5, with nothing cleared or scored, and the next piece starts falling from
/// the spawn anchor.
pub proof fn lemma_o_piece_run(states: Seq<GameState>)
    requires
        is_run(states),
        states.len() == 400,
        !states[0].game_over,
        field_is_empty(states[0].field),
        states[0].current_figure.kind == FigureType::O,
        states[0].current_figure.shape == spawn_mask(FigureType::O),
        states[0].col == 0,
        states[0].row == SPAWN_ROW,
        states[0].frames_until_fall == FALL_INTERVAL,
    ensures
        forall|m: int| 0 <= m <= 18 ==> #[trigger] states[21 * m] == (GameState { col: m as u8, ..states[0] }),
        o_at_bottom(states[399].field),
        states[399].current_figure == states[0].next_figure,
        states[399].next_figure.shape == spawn_mask(states[399].next_figure.kind),
        states[399].col == 0,
        states[399].row == SPAWN_ROW,
        states[399].frames_until_fall == FALL_INTERVAL,
        states[399].score == states[0].score,
        !states[399].game_over,
{
    let s0 = states[0];
    assert forall|m: int| 0 <= m <= 18 implies #[trigger] states[21 * m] == (GameState { col: m as u8, ..s0 }) by {
        lemma_o_piece_falls(states, m);
    }
    lemma_o_piece_falls(states, 18);
    lemma_run_countdown(states, 378, 20);
    let last = states[398];
    lemma_o_piece_support(last.field, 18);
    reveal(ticks_to);
    assert(ticks_to(states[398], states[399]));
    let (n, c, l) = choose|n: int, c: Coins, l: bool|
        0 <= n < KIND_COUNT && #[trigger] states[398].ticks_into(states[399], n, c, l);
    let g = choose|g: Field| #[trigger] last.locks_into(g, c) && last.after_lock(g, states[399], n);
    lemma_o_piece_lock(last, g, c);
    lemma_o_piece_clear(g, states[399].field);
    assert(0nat * 80 * (s0.level as int) == 0) by (nonlinear_arith);
}

} // verus!
