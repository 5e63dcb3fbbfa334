use vstd::prelude::*;

verus! {

/// The playfield: 20 rows along the fall axis, 10 cells across. A cell holds 0
/// when empty, else the code of the kind that filled it.
pub type Field = [[u8; 10]; 20];

pub type Row = [u8; 10];

/// Index of the lowest row.
pub const BOTTOM_LINE_INDEX: usize = 19;

/// Index of the rightmost cell of a row.
pub const RIGHTEST_INDEX: usize = 9;

pub open spec fn row_full(r: Row) -> bool {
    forall|x: int| 0 <= x < 10 ==> #[trigger] r[x] != 0
}

pub open spec fn row_empty(r: Row) -> bool {
    forall|x: int| 0 <= x < 10 ==> #[trigger] r[x] == 0
}

/// The rows of `y..20` that a clear keeps (neither full nor empty), lowest first.
pub open spec fn kept_from(f: Field, y: int) -> Seq<Row>
    decreases 20 - y,
{
    if 0 <= y < 20 {
        if !row_full(f[y]) && !row_empty(f[y]) {
            kept_from(f, y + 1).push(f[y])
        } else {
            kept_from(f, y + 1)
        }
    } else {
        seq![]
    }
}

/// The number of full rows among `y..20`.
pub open spec fn full_from(f: Field, y: int) -> nat
    decreases 20 - y,
{
    if 0 <= y < 20 {
        if row_full(f[y]) {
            full_from(f, y + 1) + 1
        } else {
            full_from(f, y + 1)
        }
    } else {
        0
    }
}

/// The non-empty rows of `lo..hi`, lowest first.
pub open spec fn nonempty_between(f: Field, lo: int, hi: int) -> Seq<Row>
    decreases hi - lo,
{
    if 0 <= lo < hi && hi <= 20 {
        if !row_empty(f[lo]) {
            nonempty_between(f, lo + 1, hi).push(f[lo])
        } else {
            nonempty_between(f, lo + 1, hi)
        }
    } else {
        seq![]
    }
}

/// Row `y` of a field whose rows, from the bottom up, are `rows`, and empty above.
pub open spec fn stacked_row(rows: Seq<Row>, r: Row, y: int) -> bool {
    if 19 - y < rows.len() {
        r == rows[19 - y]
    } else {
        row_empty(r)
    }
}

/// `g` holds the rows of `rows` stacked from the bottom, and empty rows above.
pub open spec fn is_stack_of(rows: Seq<Row>, g: Field) -> bool {
    forall|y: int| 0 <= y < 20 ==> stacked_row(rows, #[trigger] g[y], y)
}

/// `g` is `f` with its full rows taken out and the rows kept packed to the bottom
/// in their order.
pub open spec fn is_compaction(f: Field, g: Field) -> bool {
    is_stack_of(kept_from(f, 0), g)
}

proof fn lemma_kept_len(f: Field, y: int)
    requires
        0 <= y <= 20,
    ensures
        kept_from(f, y).len() <= 20 - y,
        full_from(f, y) <= 20 - y,
        forall|k: int|
            0 <= k < kept_from(f, y).len() ==> !row_full(#[trigger] kept_from(f, y)[k])
                && !row_empty(kept_from(f, y)[k]),
    decreases 20 - y,
{
    if y < 20 {
        lemma_kept_len(f, y + 1);
    }
}

/// Whether cell `(y, x)` is filled; `None` off the field.
pub fn is_occupied(field: &Field, y: usize, x: usize) -> (r: Option<bool>)
    ensures
        r == if y < 20 && x < 10 {
            Some(field[y as int][x as int] != 0)
        } else {
            None::<bool>
        },
{
    if y <= BOTTOM_LINE_INDEX && x <= RIGHTEST_INDEX {
        Some(field[y][x] != 0)
    } else {
        None
    }
}

/// Whether any cell of the row is filled, and whether all are.
fn row_fill(r: &Row) -> (res: (bool, bool))
    ensures
        res.0 == !row_empty(*r),
        res.1 == row_full(*r),
{
    let mut any = false;
    let mut all = true;
    let mut x: usize = 0;
    while x < 10
        invariant
            x <= 10,
            any == exists|k: int| 0 <= k < x && #[trigger] r[k] != 0,
            all == forall|k: int| 0 <= k < x ==> #[trigger] r[k] != 0,
        decreases 10 - x,
    {
        if r[x] != 0 {
            any = true;
        } else {
            all = false;
        }
        x += 1;
    }
    (any, all)
}

/// Rebuilds the field from the bottom up: full rows are dropped and counted,
/// empty rows vanish, and the other rows are packed to the bottom in order.
pub fn clear_full_rows(field: &mut Field) -> (cleared: u8)
    ensures
        cleared as nat == full_from(*old(field), 0),
        is_compaction(*old(field), *final(field)),
{
    let ghost f = *field;
    let mut new_field: Field = [[0u8; 10]; 20];
    assert forall|yy: int| 0 <= yy < 20 implies row_empty(#[trigger] new_field[yy]) by {}
    let mut cleared: u8 = 0;
    let mut kept: usize = 0;
    let mut y: usize = 20;
    while y > 0
        invariant
            y <= 20,
            *field == f,
            cleared as nat == full_from(f, y as int),
            kept as nat == kept_from(f, y as int).len(),
            kept + cleared <= 20 - y,
            is_stack_of(kept_from(f, y as int), new_field),
        decreases y,
    {
        y -= 1;
        let (nonempty, full) = row_fill(&field[y]);
        let ghost before = new_field;
        if full {
            cleared += 1;
        } else if nonempty {
            new_field[19 - kept] = field[y];
            proof {
                let k0 = kept_from(f, y as int + 1);
                let k1 = kept_from(f, y as int);
                assert(k1 == k0.push(f[y as int]));
                assert forall|yy: int| 0 <= yy < 20 implies stacked_row(k1, #[trigger] new_field[yy], yy) by {
                    assert(stacked_row(k0, before[yy], yy));
                    if yy != 19 - kept {
                        assert(new_field[yy] == before[yy]);
                    }
                }
            }
            kept += 1;
        }
    }
    *field = new_field;
    cleared
}

/// A field with one full row loses exactly that row: one row is counted, and
/// the non-empty rows below it and then those above it are stacked from the
/// bottom in their order, with empty rows on top.
pub proof fn lemma_single_full_row(f: Field, g: Field, y0: int)
    requires
        0 <= y0 < 20,
        row_full(f[y0]),
        forall|y: int| 0 <= y < 20 && y != y0 ==> !row_full(#[trigger] f[y]),
        is_compaction(f, g),
    ensures
        full_from(f, 0) == 1,
        is_stack_of(nonempty_between(f, y0 + 1, 20) + nonempty_between(f, 0, y0), g),
{
    lemma_single_full_row_from(f, y0, 0);
}

proof fn lemma_above_full_row(f: Field, y0: int, y: int)
    requires
        0 <= y0 < 20,
        y0 < y <= 20,
        forall|yy: int| 0 <= yy < 20 && yy != y0 ==> !row_full(#[trigger] f[yy]),
    ensures
        full_from(f, y) == 0,
        kept_from(f, y) == nonempty_between(f, y, 20),
    decreases 20 - y,
{
    if y < 20 {
        lemma_above_full_row(f, y0, y + 1);
    }
}

proof fn lemma_single_full_row_from(f: Field, y0: int, y: int)
    requires
        0 <= y0 < 20,
        0 <= y <= y0,
        row_full(f[y0]),
        forall|yy: int| 0 <= yy < 20 && yy != y0 ==> !row_full(#[trigger] f[yy]),
    ensures
        full_from(f, y) == 1,
        kept_from(f, y) == nonempty_between(f, y0 + 1, 20) + nonempty_between(f, y, y0),
    decreases y0 - y,
{
    if y == y0 {
        lemma_above_full_row(f, y0, y0 + 1);
        assert(nonempty_between(f, y0, y0) == Seq::<Row>::empty());
        assert(kept_from(f, y) == kept_from(f, y + 1));
        assert(nonempty_between(f, y0 + 1, 20) + nonempty_between(f, y, y0) =~= nonempty_between(f, y0 + 1, 20));
    } else {
        lemma_single_full_row_from(f, y0, y + 1);
        let a = nonempty_between(f, y0 + 1, 20);
        let b = nonempty_between(f, y + 1, y0);
        if !row_empty(f[y]) {
            assert((a + b).push(f[y]) =~= a + b.push(f[y]));
        }
    }
}

/// Within a packed field, the rows from `y` down are found again, lowest first.
pub(crate) proof fn lemma_stack_kept(rows: Seq<Row>, g: Field, y: int)
    requires
        0 <= y <= 20,
        rows.len() <= 20,
        is_stack_of(rows, g),
        forall|k: int| 0 <= k < rows.len() ==> !row_full(#[trigger] rows[k]) && !row_empty(rows[k]),
    ensures
        full_from(g, y) == 0,
        kept_from(g, y) == rows.subrange(0, if 20 - y <= rows.len() { 20 - y } else { rows.len() as int }),
    decreases 20 - y,
{
    if y < 20 {
        lemma_stack_kept(rows, g, y + 1);
        assert(stacked_row(rows, g[y], y));
        if 19 - y < rows.len() {
            assert(rows.subrange(0, 19 - y).push(rows[19 - y]) =~= rows.subrange(0, 20 - y));
        } else {
            assert(row_empty(g[y]));
            if row_full(g[y]) {
                assert(g[y][0] != 0);
            }
        }
    } else {
        assert(rows.subrange(0, 0) =~= Seq::<Row>::empty());
    }
}

/// Clearing a field that was just cleared finds no full row and leaves it as
/// it is.
pub proof fn lemma_clear_idempotent(f: Field, g: Field, h: Field)
    requires
        is_compaction(f, g),
        is_compaction(g, h),
    ensures
        full_from(g, 0) == 0,
        h == g,
{
    let rows = kept_from(f, 0);
    lemma_kept_len(f, 0);
    lemma_stack_kept(rows, g, 0);
    assert(rows.subrange(0, rows.len() as int) =~= rows);
    assert(kept_from(g, 0) == rows);
    assert forall|y: int| 0 <= y < 20 implies h[y] == g[y] by {
        assert(stacked_row(rows, g[y], y));
        assert(stacked_row(rows, h[y], y));
        if 19 - y >= rows.len() {
            assert(h[y] =~= g[y]);
        }
    }
    assert(h =~= g);
}

} // verus!
