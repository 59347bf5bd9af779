//! The grid of a program and its blocks: connected areas of one command byte,
//! numbered in the order in which a row-major scan meets them.

use vstd::prelude::*;
use crate::grid::{
    rows_of, in_grid, cell_or, same_shape, grid_update, cell_count, count_in_grid, get_matrix,
    set_matrix, lemma_count_grid_bound, lemma_count_grid_update, lemma_count_grid_same,
    lemma_prefix_cells,
};

verus! {

/// The byte of a blank cell: a space.
pub const BLANK: u8 = 32;

/// The byte of a blank cell.
pub open spec fn blank() -> u8 {
    BLANK
}

/// `(r, c)` is a cell of `g` that holds a command.
pub open spec fn nonblank(g: Seq<Seq<u8>>, r: int, c: int) -> bool {
    in_grid(g, r, c) && g[r][c] != blank()
}

/// The cells `(r1, c1)` and `(r2, c2)` share a side.
pub open spec fn adjacent(r1: int, c1: int, r2: int, c2: int) -> bool {
    ||| r1 == r2 && (c1 == c2 + 1 || c2 == c1 + 1)
    ||| c1 == c2 && (r1 == r2 + 1 || r2 == r1 + 1)
}

/// Two command cells that share a side and hold the same command.
pub open spec fn linked(g: Seq<Seq<u8>>, r1: int, c1: int, r2: int, c2: int) -> bool {
    &&& nonblank(g, r1, c1)
    &&& nonblank(g, r2, c2)
    &&& adjacent(r1, c1, r2, c2)
    &&& g[r1][c1] == g[r2][c2]
}

/// Step `i` of the cell sequence `p` joins linked cells.
pub open spec fn linked_step(g: Seq<Seq<u8>>, p: Seq<(int, int)>, i: int) -> bool {
    linked(g, p[i].0, p[i].1, p[i + 1].0, p[i + 1].1)
}

/// `p` is a walk through linked cells.
pub open spec fn is_path(g: Seq<Seq<u8>>, p: Seq<(int, int)>) -> bool {
    &&& p.len() >= 1
    &&& nonblank(g, p[0].0, p[0].1)
    &&& forall|i: int| 0 <= i < p.len() - 1 ==> #[trigger] linked_step(g, p, i)
}

/// A walk through linked cells leads from `a` to `b`.
pub open spec fn reachable(g: Seq<Seq<u8>>, a: (int, int), b: (int, int)) -> bool {
    exists|p: Seq<(int, int)>| #[trigger] is_path(g, p) && p[0] == a && p.last() == b
}

/// `(r1, c1)` comes before `(r2, c2)` when the grid is read row by row.
pub open spec fn scan_before(r1: int, c1: int, r2: int, c2: int) -> bool {
    r1 < r2 || (r1 == r2 && c1 < c2)
}

/// The row step of direction `dp` (0 right, 1 down, 2 left, 3 up).
pub open spec fn step_row(dp: int) -> int {
    if dp == 1 {
        1
    } else if dp == 3 {
        -1
    } else {
        0
    }
}

/// The column step of direction `dp` (0 right, 1 down, 2 left, 3 up).
pub open spec fn step_col(dp: int) -> int {
    if dp == 0 {
        1
    } else if dp == 2 {
        -1
    } else {
        0
    }
}

/// Cell `(r1, c1)` lies strictly further than `(r2, c2)` toward direction `dp`, ties broken
/// by the codel chooser `cc` (0: toward the left of `dp`, 1: toward its right).
pub open spec fn further(dp: int, cc: int, r1: int, c1: int, r2: int, c2: int) -> bool {
    if dp == 0 {
        c1 > c2 || (c1 == c2 && (if cc == 0 { r1 < r2 } else { r1 > r2 }))
    } else if dp == 1 {
        r1 > r2 || (r1 == r2 && (if cc == 0 { c1 > c2 } else { c1 < c2 }))
    } else if dp == 2 {
        c1 < c2 || (c1 == c2 && (if cc == 0 { r1 > r2 } else { r1 < r2 }))
    } else {
        r1 < r2 || (r1 == r2 && (if cc == 0 { c1 < c2 } else { c1 > c2 }))
    }
}

/// `f` is the cell of block `k` (in the index matrix `a`) that lies furthest toward `dp`
/// under the chooser `cc`.
pub open spec fn is_front(a: Seq<Seq<u32>>, k: u32, dp: int, cc: int, f: (int, int)) -> bool {
    &&& in_grid(a, f.0, f.1)
    &&& a[f.0][f.1] == k
    &&& forall|r: int, c: int|
        in_grid(a, r, c) && #[trigger] a[r][c] == k ==> !further(dp, cc, r, c, f.0, f.1)
}

/// Where the program goes when it leaves the front cell `f` toward `dp`: the next cell,
/// if it holds a command.
pub open spec fn exit_of(g: Seq<Seq<u8>>, f: (int, int), dp: int) -> Option<(u32, u32)> {
    let nr = f.0 + step_row(dp);
    let nc = f.1 + step_col(dp);
    if nonblank(g, nr, nc) {
        Some((nr as u32, nc as u32))
    } else {
        None
    }
}

/// A block: its command byte, its number of cells, and for each direction pointer and
/// codel chooser the cell that the program enters next (`None` where it cannot move).
#[derive(Clone, Copy, Debug)]
pub struct Block {
    pub cmd: u8,
    pub len: usize,
    pub fronts: [[Option<(u32, u32)>; 2]; 4],
}

impl Default for Block {
    fn default() -> (b: Block)
        ensures
            b.cmd == 0,
            b.len == 0,
            forall|dp: int, cc: int| 0 <= dp < 4 && 0 <= cc < 2 ==> b.fronts[dp][cc] is None,
    {
        Block { cmd: 0, len: 0, fronts: [[None, None], [None, None], [None, None], [None, None]] }
    }
}

/// The cell that the program enters from block `b` under `dp` and `cc`.
pub open spec fn front_of(b: Block, dp: int, cc: int) -> Option<(u32, u32)> {
    b.fronts[dp][cc]
}

/// The fronts of `b` are those of block `k` of the index matrix `a` over the grid `g`.
pub open spec fn fronts_ok(g: Seq<Seq<u8>>, a: Seq<Seq<u32>>, k: u32, b: Block) -> bool {
    forall|dp: int, cc: int| 0 <= dp < 4 && 0 <= cc < 2 ==> #[trigger] has_front(g, a, k, b, dp, cc)
}

/// Under `dp` and `cc`, block `b` is left from the front cell of block `k`.
pub open spec fn has_front(
    g: Seq<Seq<u8>>,
    a: Seq<Seq<u32>>,
    k: u32,
    b: Block,
    dp: int,
    cc: int,
) -> bool {
    exists|f: (int, int)| #[trigger] is_front(a, k, dp, cc, f) && front_of(b, dp, cc) == exit_of(g, f, dp)
}

/// Every command cell of value `v` in `a` passes `v` on to the cells linked to it.
pub open spec fn closed_value(g: Seq<Seq<u8>>, a: Seq<Seq<u32>>, v: u32) -> bool {
    forall|r: int, c: int, r2: int, c2: int|
        #[trigger] linked(g, r, c, r2, c2) && a[r][c] == v ==> a[r2][c2] == v
}

/// Every numbered cell other than those of block `k` passes its number to linked cells.
pub open spec fn closed_except(g: Seq<Seq<u8>>, a: Seq<Seq<u32>>, k: u32) -> bool {
    forall|r: int, c: int, r2: int, c2: int|
        #[trigger] linked(g, r, c, r2, c2) && a[r][c] != 0 && a[r][c] != k ==> a[r2][c2] == a[r][c]
}

/// Block `i` (numbered `i + 1` in `a`) starts at the cell `o`, and `blocks[i]` describes it.
pub open spec fn block_ok(
    g: Seq<Seq<u8>>,
    a: Seq<Seq<u32>>,
    blocks: Seq<Block>,
    i: int,
    o: (int, int),
) -> bool {
    let k = (i + 1) as u32;
    &&& nonblank(g, o.0, o.1)
    &&& a[o.0][o.1] == k
    &&& forall|r: int, c: int|
        nonblank(g, r, c) && scan_before(r, c, o.0, o.1) ==> 1 <= #[trigger] a[r][c] <= i
    &&& forall|r: int, c: int|
        in_grid(a, r, c) && #[trigger] a[r][c] == k ==> reachable(g, o, (r, c))
    &&& blocks[i].cmd == g[o.0][o.1]
    &&& blocks[i].len == count_in_grid(a, k)
    &&& fronts_ok(g, a, k, blocks[i])
}

/// `a` and `blocks` are what `parse` makes of the grid `g`: the blank cells hold 0, the
/// command cells hold the number of their block (its index in `blocks` plus one); a block
/// is a set of command cells joined by walks through linked cells and closed under
/// linking; and blocks are numbered in the order in which a row-major scan first meets
/// them, each with its command, its size and its fronts.
pub open spec fn is_parse_of(g: Seq<Seq<u8>>, a: Seq<Seq<u32>>, blocks: Seq<Block>) -> bool {
    &&& same_shape(g, a)
    &&& blocks.len() <= u32::MAX
    &&& forall|r: int, c: int| in_grid(g, r, c) ==> (#[trigger] a[r][c] == 0 <==> g[r][c] == blank())
    &&& forall|r: int, c: int|
        nonblank(g, r, c) ==> 1 <= #[trigger] a[r][c] <= blocks.len() && blocks[a[r][c] - 1].cmd
            == g[r][c]
    &&& forall|r: int, c: int, r2: int, c2: int|
        #[trigger] linked(g, r, c, r2, c2) ==> a[r][c] == a[r2][c2]
    &&& exists|origins: Seq<(int, int)>|
        origins.len() == blocks.len() && forall|i: int|
            0 <= i < blocks.len() ==> #[trigger] block_ok(g, a, blocks, i, origins[i])
}

/// The program grid with, for each cell, the number of its block (0 for blank cells), and
/// the blocks.
#[derive(Debug)]
pub struct Code {
    pub area_indices: Vec<Vec<u32>>,
    pub blocks: Vec<Block>,
}

pub proof fn lemma_reach_self(g: Seq<Seq<u8>>, o: (int, int))
    requires
        nonblank(g, o.0, o.1),
    ensures
        reachable(g, o, o),
{
    let p = seq![o];
    assert(is_path(g, p));
}

pub proof fn lemma_reach_extend(g: Seq<Seq<u8>>, o: (int, int), p: (int, int), q: (int, int))
    requires
        reachable(g, o, p),
        linked(g, p.0, p.1, q.0, q.1),
    ensures
        reachable(g, o, q),
{
    let w = choose|w: Seq<(int, int)>| #[trigger] is_path(g, w) && w[0] == o && w.last() == p;
    let w2 = w.push(q);
    assert forall|i: int| 0 <= i < w2.len() - 1 implies #[trigger] linked_step(g, w2, i) by {
        if i < w.len() - 1 {
            assert(linked_step(g, w, i));
        }
    }
    assert(is_path(g, w2));
}

pub proof fn lemma_further_order(dp: int, cc: int, r1: int, c1: int, r2: int, c2: int, r3: int, c3: int)
    ensures
        !further(dp, cc, r1, c1, r1, c1),
        further(dp, cc, r1, c1, r2, c2) && further(dp, cc, r2, c2, r3, c3) ==> further(
            dp,
            cc,
            r1,
            c1,
            r3,
            c3,
        ),
{
}

pub proof fn lemma_same_shape_cells(g: Seq<Seq<u8>>, a: Seq<Seq<u32>>)
    requires
        same_shape(g, a),
    ensures
        cell_count(g) == cell_count(a),
    decreases g.len(),
{
    if g.len() > 0 {
        assert(same_shape(g.drop_last(), a.drop_last()));
        lemma_same_shape_cells(g.drop_last(), a.drop_last());
        assert(g.last().len() == a.last().len());
    }
}

pub proof fn lemma_count_absent(a: Seq<Seq<u32>>, k: u32)
    requires
        forall|r: int, c: int| in_grid(a, r, c) ==> #[trigger] a[r][c] != k,
    ensures
        count_in_grid(a, k) == 0,
    decreases a.len(),
{
    if a.len() > 0 {
        assert forall|r: int, c: int| in_grid(a.drop_last(), r, c) implies #[trigger] a.drop_last()[r][c] != k by {
            assert(in_grid(a, r, c));
        }
        lemma_count_absent(a.drop_last(), k);
        lemma_count_row_absent(a.last(), k, (a.len() - 1) as int, a);
    }
}

proof fn lemma_count_row_absent(row: Seq<u32>, k: u32, r: int, a: Seq<Seq<u32>>)
    requires
        0 <= r < a.len(),
        a[r] == row,
        forall|r: int, c: int| in_grid(a, r, c) ==> #[trigger] a[r][c] != k,
    ensures
        crate::grid::count_in_row(row, k) == 0,
    decreases row.len(),
{
    if row.len() > 0 {
        assert(in_grid(a, r, row.len() - 1));
        let a2 = a.update(r, row.drop_last());
        assert forall|r2: int, c: int| in_grid(a2, r2, c) implies #[trigger] a2[r2][c] != k by {
            assert(in_grid(a, r2, c));
        }
        lemma_count_row_absent(row.drop_last(), k, r, a2);
    }
}


/// Executable form of `further`.
fn is_further(dp: usize, cc: usize, r1: u32, c1: u32, r2: u32, c2: u32) -> (b: bool)
    ensures
        b == further(dp as int, cc as int, r1 as int, c1 as int, r2 as int, c2 as int),
{
    if dp == 0 {
        c1 > c2 || (c1 == c2 && (if cc == 0 { r1 < r2 } else { r1 > r2 }))
    } else if dp == 1 {
        r1 > r2 || (r1 == r2 && (if cc == 0 { c1 > c2 } else { c1 < c2 }))
    } else if dp == 2 {
        c1 < c2 || (c1 == c2 && (if cc == 0 { r1 > r2 } else { r1 < r2 }))
    } else {
        r1 < r2 || (r1 == r2 && (if cc == 0 { c1 < c2 } else { c1 > c2 }))
    }
}

/// The front candidate `j` (direction `j / 2`, chooser `j % 2`) after seeing cell `(r, c)`.
pub open spec fn front_after(f: (u32, u32), j: int, r: u32, c: u32) -> (u32, u32) {
    if further(j / 2, j % 2, r as int, c as int, f.0 as int, f.1 as int) {
        (r, c)
    } else {
        f
    }
}

/// Looks at the neighbour `(r, c)` of a cell of block `k` whose command is `cmd`: if it holds
/// the same command and no block yet, it joins block `k` and waits on `stack`.
fn visit(
    raw: &Vec<Vec<u8>>,
    area: &mut Vec<Vec<u32>>,
    stack: &mut Vec<(u32, u32)>,
    r: u32,
    c: u32,
    cmd: u8,
    k: u32,
)
    requires
        same_shape(rows_of(*raw), rows_of(*old(area))),
    ensures
        ({
            let g = rows_of(*raw);
            let a0 = rows_of(*old(area));
            let a1 = rows_of(*final(area));
            if cell_or(g, r as int, c as int, blank()) == cmd && cell_or(
                a0,
                r as int,
                c as int,
                u32::MAX,
            ) == 0 {
                &&& in_grid(a0, r as int, c as int)
                &&& a1 == grid_update(a0, r as int, c as int, k)
                &&& final(stack)@ == old(stack)@.push((r, c))
            } else {
                &&& a1 == a0
                &&& final(stack)@ == old(stack)@
            }
        }),
{
    if get_matrix(raw, r, c, BLANK) == cmd && get_matrix(area, r, c, u32::MAX) == 0 {
        proof {
            let g = rows_of(*raw);
            let a0 = rows_of(*area);
            assert(in_grid(a0, r as int, c as int));
        }
        set_matrix(area, r, c, k);
        stack.push((r, c));
    }
}

/// Where the program goes from the front cell `f` toward `dp`.
fn exit_cell(raw: &Vec<Vec<u8>>, f: (u32, u32), dp: usize) -> (e: Option<(u32, u32)>)
    requires
        dp < 4,
        f.0 < u32::MAX,
        f.1 < u32::MAX,
    ensures
        e == exit_of(rows_of(*raw), (f.0 as int, f.1 as int), dp as int),
{
    let (fr, fc) = f;
    let next_r: i64 = fr as i64 + if dp == 1 { 1 } else if dp == 3 { -1 } else { 0 };
    let next_c: i64 = fc as i64 + if dp == 0 { 1 } else if dp == 2 { -1 } else { 0 };
    if 0 <= next_r && 0 <= next_c && get_matrix(raw, next_r as u32, next_c as u32, BLANK) != BLANK {
        Some((next_r as u32, next_c as u32))
    } else {
        None
    }
}


/// `(r, c)` waits on the stack `s`.
pub open spec fn on_stack(s: Seq<(u32, u32)>, r: int, c: int) -> bool {
    exists|i: int| #![trigger s[i]] 0 <= i < s.len() && s[i].0 as int == r && s[i].1 as int == c
}

/// Every cell linked to `(r, c)` holds `k`.
pub open spec fn settled(g: Seq<Seq<u8>>, a: Seq<Seq<u32>>, k: u32, r: int, c: int) -> bool {
    forall|r2: int, c2: int| #[trigger] linked(g, r, c, r2, c2) ==> a[r2][c2] == k
}

/// `b` differs from `a` only where `a` held 0 and `b` holds `k`.
pub open spec fn grows_into(a: Seq<Seq<u32>>, b: Seq<Seq<u32>>, k: u32) -> bool {
    &&& same_shape(a, b)
    &&& forall|r: int, c: int|
        in_grid(a, r, c) ==> (#[trigger] b[r][c] == a[r][c] || (a[r][c] == 0 && b[r][c] == k))
}

pub proof fn lemma_closed_except_grows(g: Seq<Seq<u8>>, a: Seq<Seq<u32>>, b: Seq<Seq<u32>>, k: u32)
    requires
        same_shape(g, a),
        grows_into(a, b, k),
        closed_except(g, a, k),
    ensures
        closed_except(g, b, k),
{
    assert forall|r: int, c: int, r2: int, c2: int|
        #[trigger] linked(g, r, c, r2, c2) && b[r][c] != 0 && b[r][c] != k implies b[r2][c2]
        == b[r][c] by {
        assert(in_grid(a, r, c));
        assert(in_grid(a, r2, c2));
    }
}

/// Turns the eight front candidates toward cell `(r, c)` where it lies further.
fn update_fronts(fr: &mut Vec<(u32, u32)>, r: u32, c: u32)
    requires
        old(fr)@.len() == 8,
    ensures
        final(fr)@.len() == 8,
        forall|j: int| 0 <= j < 8 ==> #[trigger] final(fr)@[j] == front_after(old(fr)@[j], j, r, c),
{
    let ghost f0 = fr@;
    let mut j: usize = 0;
    while j < 8
        invariant
            fr@.len() == 8,
            j <= 8,
            forall|i: int| 0 <= i < j ==> #[trigger] fr@[i] == front_after(f0[i], i, r, c),
            forall|i: int| j <= i < 8 ==> #[trigger] fr@[i] == f0[i],
        decreases 8 - j,
    {
        let (fr_r, fr_c) = fr[j];
        if is_further(j / 2, j % 2, r, c, fr_r, fr_c) {
            fr.set(j, (r, c));
        }
        j += 1;
    }
}

/// Visits the four neighbours of the block-`k` cell `(r, c)` (above, below, left, right).
fn expand(
    raw: &Vec<Vec<u8>>,
    area: &mut Vec<Vec<u32>>,
    stack: &mut Vec<(u32, u32)>,
    r: u32,
    c: u32,
    cmd: u8,
    k: u32,
)
    requires
        same_shape(rows_of(*raw), rows_of(*old(area))),
        nonblank(rows_of(*raw), r as int, c as int),
        rows_of(*raw)[r as int][c as int] == cmd,
        rows_of(*raw).len() <= u32::MAX,
        rows_of(*raw)[r as int].len() <= u32::MAX,
        k >= 1,
    ensures
        ({
            let g = rows_of(*raw);
            let a0 = rows_of(*old(area));
            let a1 = rows_of(*final(area));
            let s0 = old(stack)@;
            let s1 = final(stack)@;
            &&& same_shape(g, a1)
            &&& grows_into(a0, a1, k)
            &&& s1.len() >= s0.len()
            &&& forall|i: int| 0 <= i < s0.len() ==> #[trigger] s1[i] == s0[i]
            &&& forall|i: int|
                s0.len() <= i < s1.len() ==> in_grid(a1, #[trigger] s1[i].0 as int, s1[i].1 as int)
                    && a1[s1[i].0 as int][s1[i].1 as int] == k
            &&& forall|x: int, y: int|
                in_grid(a0, x, y) && #[trigger] a1[x][y] != a0[x][y] ==> linked(
                    g,
                    r as int,
                    c as int,
                    x,
                    y,
                ) && on_stack(s1, x, y)
            &&& count_in_grid(a1, k) == count_in_grid(a0, k) + s1.len() - s0.len()
            &&& forall|x: int, y: int|
                #[trigger] linked(g, r as int, c as int, x, y) ==> a1[x][y] != 0 && (a1[x][y] == k
                    || a1[x][y] == a0[x][y])
        }),
{
    let ghost g = rows_of(*raw);
    let ghost a0 = rows_of(*area);
    let ghost s0 = stack@;
    if r > 0 {
        visit(raw, area, stack, r - 1, c, cmd, k);
    }
    let ghost a_up = rows_of(*area);
    let ghost s_up = stack@;
    proof {
        if a_up != a0 {
            lemma_count_grid_update(a0, r - 1, c as int, k);
            assert(on_stack(s_up, r - 1, c as int)) by {
                assert(s_up[s_up.len() - 1] == ((r - 1) as u32, c));
            }
        }
    }
    visit(raw, area, stack, r + 1, c, cmd, k);
    let ghost a_down = rows_of(*area);
    let ghost s_down = stack@;
    proof {
        if a_down != a_up {
            lemma_count_grid_update(a_up, r + 1, c as int, k);
            assert(on_stack(s_down, r + 1, c as int)) by {
                assert(s_down[s_down.len() - 1] == ((r + 1) as u32, c));
            }
        }
        if a_up != a0 {
            assert(on_stack(s_down, r - 1, c as int)) by {
                assert(s_down[s_up.len() - 1] == s_up[s_up.len() - 1]);
            }
        }
    }
    if c > 0 {
        visit(raw, area, stack, r, c - 1, cmd, k);
    }
    let ghost a_left = rows_of(*area);
    let ghost s_left = stack@;
    proof {
        if a_left != a_down {
            lemma_count_grid_update(a_down, r as int, c - 1, k);
            assert(on_stack(s_left, r as int, c - 1)) by {
                assert(s_left[s_left.len() - 1] == (r, (c - 1) as u32));
            }
        }
        if a_up != a0 {
            assert(on_stack(s_left, r - 1, c as int)) by {
                assert(s_left[s_up.len() - 1] == s_up[s_up.len() - 1]);
            }
        }
        if a_down != a_up {
            assert(on_stack(s_left, r + 1, c as int)) by {
                assert(s_left[s_down.len() - 1] == s_down[s_down.len() - 1]);
            }
        }
    }
    visit(raw, area, stack, r, c + 1, cmd, k);
    let ghost a_right = rows_of(*area);
    let ghost s_right = stack@;
    proof {
        if a_right != a_left {
            lemma_count_grid_update(a_left, r as int, c + 1, k);
            assert(on_stack(s_right, r as int, c + 1)) by {
                assert(s_right[s_right.len() - 1] == (r, (c + 1) as u32));
            }
        }
        if a_up != a0 {
            assert(on_stack(s_right, r - 1, c as int)) by {
                assert(s_right[s_up.len() - 1] == s_up[s_up.len() - 1]);
            }
        }
        if a_down != a_up {
            assert(on_stack(s_right, r + 1, c as int)) by {
                assert(s_right[s_down.len() - 1] == s_down[s_down.len() - 1]);
            }
        }
        if a_left != a_down {
            assert(on_stack(s_right, r as int, c - 1)) by {
                assert(s_right[s_left.len() - 1] == s_left[s_left.len() - 1]);
            }
        }
    }
}


/// The grid `g` fits the 32-bit coordinates and counters that the blocks are made with.
pub open spec fn grid_fits(g: Seq<Seq<u8>>) -> bool {
    &&& g.len() <= u32::MAX
    &&& cell_count(g) <= u32::MAX
    &&& forall|r: int| 0 <= r < g.len() ==> #[trigger] g[r].len() <= u32::MAX
}

/// Gathers block `k` from its first cell `(r0, c0)` by a depth-first fill over linked
/// cells, numbering its cells in `area`, and computes its size and fronts.
fn flood(raw: &Vec<Vec<u8>>, area: &mut Vec<Vec<u32>>, r0: u32, c0: u32, k: u32) -> (b: Block)
    requires
        same_shape(rows_of(*raw), rows_of(*old(area))),
        grid_fits(rows_of(*raw)),
        nonblank(rows_of(*raw), r0 as int, c0 as int),
        rows_of(*old(area))[r0 as int][c0 as int] == 0,
        k >= 1,
        forall|r: int, c: int|
            in_grid(rows_of(*old(area)), r, c) ==> #[trigger] rows_of(*old(area))[r][c] < k,
        closed_except(rows_of(*raw), rows_of(*old(area)), k),
    ensures
        ({
            let g = rows_of(*raw);
            let a0 = rows_of(*old(area));
            let a1 = rows_of(*final(area));
            &&& same_shape(g, a1)
            &&& grows_into(a0, a1, k)
            &&& a1[r0 as int][c0 as int] == k
            &&& forall|r: int, c: int|
                in_grid(a1, r, c) && #[trigger] a1[r][c] == k ==> g[r][c] == g[r0 as int][c0 as int]
                    && reachable(g, (r0 as int, c0 as int), (r, c))
            &&& closed_value(g, a1, k)
            &&& closed_except(g, a1, k)
            &&& b.cmd == g[r0 as int][c0 as int]
            &&& b.len == count_in_grid(a1, k)
            &&& fronts_ok(g, a1, k, b)
        }),
{
    let ghost g = rows_of(*raw);
    let ghost a0 = rows_of(*area);
    let cmd = raw[r0 as usize][c0 as usize];
    proof {
        lemma_count_absent(a0, k);
        lemma_count_grid_update(a0, r0 as int, c0 as int, k);
    }
    set_matrix(area, r0, c0, k);
    proof {
        lemma_reach_self(g, (r0 as int, c0 as int));
        lemma_closed_except_grows(g, a0, rows_of(*area), k);
    }
    let mut stack: Vec<(u32, u32)> = Vec::new();
    stack.push((r0, c0));
    let mut len: usize = 0;
    let mut fr: Vec<(u32, u32)> = Vec::new();
    let mut j: usize = 0;
    while j < 8
        invariant
            fr@.len() == j,
            j <= 8,
            forall|i: int| 0 <= i < j ==> #[trigger] fr@[i] == (r0, c0),
        decreases 8 - j,
    {
        fr.push((r0, c0));
        j += 1;
    }
    let ghost mut done: Set<(int, int)> = Set::empty();
    proof {
        let a = rows_of(*area);
        lemma_count_grid_bound(a, k);
        lemma_same_shape_cells(g, a);
        assert forall|r: int, c: int| in_grid(a, r, c) && #[trigger] a[r][c] == k implies done.contains(
            (r, c),
        ) || on_stack(stack@, r, c) by {
            assert(in_grid(a0, r, c));
            assert(stack@[0] == (r0, c0));
        }
    }
    while stack.len() > 0
        invariant
            g == rows_of(*raw),
            grid_fits(g),
            k >= 1,
            cmd == g[r0 as int][c0 as int],
            nonblank(g, r0 as int, c0 as int),
            same_shape(g, rows_of(*area)),
            grows_into(a0, rows_of(*area), k),
            rows_of(*area)[r0 as int][c0 as int] == k,
            forall|r: int, c: int|
                in_grid(rows_of(*area), r, c) && #[trigger] rows_of(*area)[r][c] == k ==> g[r][c]
                    == cmd && reachable(g, (r0 as int, c0 as int), (r, c)),
            closed_except(g, rows_of(*area), k),
            forall|i: int|
                0 <= i < stack@.len() ==> in_grid(
                    rows_of(*area),
                    #[trigger] stack@[i].0 as int,
                    stack@[i].1 as int,
                ) && rows_of(*area)[stack@[i].0 as int][stack@[i].1 as int] == k,
            forall|p: (int, int)|
                #[trigger] done.contains(p) ==> in_grid(rows_of(*area), p.0, p.1)
                    && rows_of(*area)[p.0][p.1] == k && settled(g, rows_of(*area), k, p.0, p.1),
            forall|r: int, c: int|
                in_grid(rows_of(*area), r, c) && #[trigger] rows_of(*area)[r][c] == k
                    ==> done.contains((r, c)) || on_stack(stack@, r, c),
            len + stack@.len() == count_in_grid(rows_of(*area), k),
            count_in_grid(rows_of(*area), k) <= cell_count(g),
            fr@.len() == 8,
            forall|j: int|
                0 <= j < 8 ==> in_grid(rows_of(*area), #[trigger] fr@[j].0 as int, fr@[j].1 as int)
                    && rows_of(*area)[fr@[j].0 as int][fr@[j].1 as int] == k,
            forall|j: int, p: (int, int)|
                0 <= j < 8 && #[trigger] done.contains(p) ==> !further(
                    j / 2,
                    j % 2,
                    p.0,
                    p.1,
                    #[trigger] fr@[j].0 as int,
                    fr@[j].1 as int,
                ),
        decreases cell_count(g) - len,
    {
        let ghost a1 = rows_of(*area);
        let ghost s0 = stack@;
        let ghost done0 = done;
        let top = stack[stack.len() - 1];
        let (r, c) = top;
        stack.pop();
        let ghost s1 = stack@;
        len += 1;
        let ghost fr0 = fr@;
        update_fronts(&mut fr, r, c);
        proof {
            done = done.insert((r as int, c as int));
        }
        expand(raw, area, &mut stack, r, c, cmd, k);
        let ghost a2 = rows_of(*area);
        let ghost s2 = stack@;
        proof {
            let p = (r as int, c as int);
            assert(in_grid(a1, r as int, c as int) && a1[r as int][c as int] == k);
            lemma_closed_except_grows(g, a1, a2, k);
            lemma_count_grid_bound(a2, k);
            lemma_same_shape_cells(g, a2);
            // new cells of block k are reachable
            assert forall|x: int, y: int|
                in_grid(a2, x, y) && #[trigger] a2[x][y] == k implies g[x][y] == cmd && reachable(
                g,
                (r0 as int, c0 as int),
                (x, y),
            ) by {
                assert(in_grid(a1, x, y));
                if a2[x][y] != a1[x][y] {
                    lemma_reach_extend(g, (r0 as int, c0 as int), p, (x, y));
                }
            }
            // the popped cell is settled
            assert forall|x: int, y: int| #[trigger] linked(g, r as int, c as int, x, y) implies a2[x][y]
                == k by {
                if a2[x][y] != k {
                    assert(linked(g, x, y, r as int, c as int));
                }
            }
            assert forall|q: (int, int)| #[trigger] done.contains(q) implies in_grid(a2, q.0, q.1)
                && a2[q.0][q.1] == k && settled(g, a2, k, q.0, q.1) by {
                if q != p {
                    assert(done0.contains(q));
                    assert forall|x: int, y: int| #[trigger] linked(g, q.0, q.1, x, y) implies a2[x][y]
                        == k by {
                        assert(in_grid(a1, x, y));
                    }
                }
            }
            // every cell of block k is done or waiting
            assert forall|x: int, y: int|
                in_grid(a2, x, y) && #[trigger] a2[x][y] == k implies done.contains((x, y))
                || on_stack(s2, x, y) by {
                assert(in_grid(a1, x, y));
                if a2[x][y] == a1[x][y] && !done.contains((x, y)) {
                    assert(!done0.contains((x, y)));
                    assert(on_stack(s0, x, y));
                    let i = choose|i: int|
                        #![trigger s0[i]]
                        0 <= i < s0.len() && s0[i].0 as int == x && s0[i].1 as int == y;
                    if i == s0.len() - 1 {
                        assert((x, y) == p);
                    } else {
                        assert(s1[i] == s0[i]);
                        assert(s2[i] == s1[i]);
                    }
                }
            }
            assert forall|i: int| 0 <= i < s2.len() implies in_grid(
                a2,
                #[trigger] s2[i].0 as int,
                s2[i].1 as int,
            ) && a2[s2[i].0 as int][s2[i].1 as int] == k by {
                if i < s1.len() {
                    assert(s1[i] == s0[i]);
                    assert(in_grid(a1, s1[i].0 as int, s1[i].1 as int));
                }
            }
            // fronts
            assert forall|j: int| 0 <= j < 8 implies in_grid(a2, #[trigger] fr@[j].0 as int, fr@[j].1 as int)
                && a2[fr@[j].0 as int][fr@[j].1 as int] == k by {
                assert(in_grid(a1, fr0[j].0 as int, fr0[j].1 as int));
            }
            assert forall|j: int, q: (int, int)| 0 <= j < 8 && #[trigger] done.contains(q) implies !further(
                j / 2,
                j % 2,
                q.0,
                q.1,
                #[trigger] fr@[j].0 as int,
                fr@[j].1 as int,
            ) by {
                lemma_further_order(
                    j / 2,
                    j % 2,
                    q.0,
                    q.1,
                    r as int,
                    c as int,
                    fr0[j].0 as int,
                    fr0[j].1 as int,
                );
                if q != p {
                    assert(done0.contains(q));
                }
            }
        }
    }
    let ghost a = rows_of(*area);
    proof {
        assert forall|x: int, y: int, x2: int, y2: int|
            #[trigger] linked(g, x, y, x2, y2) && a[x][y] == k implies a[x2][y2] == k by {
            assert(done.contains((x, y)));
        }
    }
    let mut exits: Vec<Option<(u32, u32)>> = Vec::new();
    let mut j: usize = 0;
    while j < 8
        invariant
            g == rows_of(*raw),
            grid_fits(g),
            a == rows_of(*area),
            same_shape(g, a),
            fr@.len() == 8,
            forall|j: int|
                0 <= j < 8 ==> in_grid(a, #[trigger] fr@[j].0 as int, fr@[j].1 as int),
            exits@.len() == j,
            j <= 8,
            forall|i: int|
                0 <= i < j ==> #[trigger] exits@[i] == exit_of(
                    g,
                    (fr@[i].0 as int, fr@[i].1 as int),
                    i / 2,
                ),
        decreases 8 - j,
    {
        proof {
            assert(in_grid(a, fr@[j as int].0 as int, fr@[j as int].1 as int));
            assert(in_grid(g, fr@[j as int].0 as int, fr@[j as int].1 as int));
            assert(g[fr@[j as int].0 as int].len() <= u32::MAX);
        }
        let e = exit_cell(raw, fr[j], j / 2);
        exits.push(e);
        j += 1;
    }
    let b = Block {
        cmd,
        len,
        fronts: [
            [exits[0], exits[1]],
            [exits[2], exits[3]],
            [exits[4], exits[5]],
            [exits[6], exits[7]],
        ],
    };
    proof {
        assert forall|dp: int, cc: int| 0 <= dp < 4 && 0 <= cc < 2 implies #[trigger] has_front(g, a, k, b, dp, cc) by {
            let j = 2 * dp + cc;
            assert(j / 2 == dp && j % 2 == cc);
            let f = (fr@[j].0 as int, fr@[j].1 as int);
            assert forall|x: int, y: int| in_grid(a, x, y) && #[trigger] a[x][y] == k implies !further(
                dp,
                cc,
                x,
                y,
                f.0,
                f.1,
            ) by {
                assert(done.contains((x, y)));
            }
            assert(is_front(a, k, dp, cc, f));
            assert(front_of(b, dp, cc) == exits@[j]);
        }
    }
    b
}


/// Numbering more cells with `k` leaves the description of an earlier block valid.
proof fn lemma_block_ok_stable(
    g: Seq<Seq<u8>>,
    a: Seq<Seq<u32>>,
    a1: Seq<Seq<u32>>,
    blocks: Seq<Block>,
    blocks1: Seq<Block>,
    i: int,
    o: (int, int),
    k: u32,
)
    requires
        same_shape(g, a),
        grows_into(a, a1, k),
        0 <= i,
        i + 1 < k,
        i < blocks.len(),
        i < blocks1.len(),
        blocks1[i] == blocks[i],
        block_ok(g, a, blocks, i, o),
    ensures
        block_ok(g, a1, blocks1, i, o),
{
    let v = (i + 1) as u32;
    assert(in_grid(a, o.0, o.1));
    assert forall|r: int, c: int|
        nonblank(g, r, c) && scan_before(r, c, o.0, o.1) implies 1 <= #[trigger] a1[r][c] <= i by {
        assert(1 <= a[r][c] <= i);
        assert(in_grid(a, r, c));
    }
    assert forall|r: int, c: int| in_grid(a1, r, c) && #[trigger] a1[r][c] == v implies reachable(
        g,
        o,
        (r, c),
    ) by {
        assert(in_grid(a, r, c));
        assert(a[r][c] == v);
    }
    assert forall|r: int, c: int| in_grid(a, r, c) implies (#[trigger] a[r][c] == v) == (a1[r][c]
        == v) by {}
    lemma_count_grid_same(a, a1, v);
    assert forall|dp: int, cc: int| 0 <= dp < 4 && 0 <= cc < 2 implies #[trigger] has_front(g, a1, v, blocks1[i], dp, cc) by {
        assert(has_front(g, a, v, blocks[i], dp, cc));
        let f = choose|f: (int, int)|
            #[trigger] is_front(a, v, dp, cc, f) && front_of(blocks[i], dp, cc) == exit_of(g, f, dp);
        assert forall|r: int, c: int| in_grid(a1, r, c) && #[trigger] a1[r][c] == v implies !further(
            dp,
            cc,
            r,
            c,
            f.0,
            f.1,
        ) by {
            assert(in_grid(a, r, c));
            assert(a[r][c] == v);
        }
        assert(is_front(a1, v, dp, cc, f));
    }
    assert(a1[o.0][o.1] == v);
    assert(blocks1[i].len == count_in_grid(a1, v));
    assert(fronts_ok(g, a1, v, blocks1[i]));
}

/// Splits the program grid into blocks: scans the cells row by row and, at each command
/// cell that belongs to no block yet, gathers a new block from it.
pub fn parse(raw: &Vec<Vec<u8>>) -> (code: Code)
    requires
        grid_fits(rows_of(*raw)),
    ensures
        is_parse_of(rows_of(*raw), rows_of(code.area_indices), code.blocks@),
{
    let ghost g = rows_of(*raw);
    let mut area: Vec<Vec<u32>> = Vec::with_capacity(raw.len());
    let mut i: usize = 0;
    while i < raw.len()
        invariant
            g == rows_of(*raw),
            i <= g.len(),
            area@.len() == i,
            forall|r: int| 0 <= r < i ==> #[trigger] area@[r]@.len() == g[r].len(),
            forall|r: int, c: int| 0 <= r < i && 0 <= c < area@[r]@.len() ==> #[trigger] area@[r]@[c] == 0,
        decreases g.len() - i,
    {
        let n = raw[i].len();
        let mut row: Vec<u32> = Vec::with_capacity(n);
        let mut j: usize = 0;
        while j < n
            invariant
                row@.len() == j,
                j <= n,
                forall|c: int| 0 <= c < j ==> #[trigger] row@[c] == 0,
            decreases n - j,
        {
            row.push(0);
            j += 1;
        }
        area.push(row);
        i += 1;
    }
    let mut blocks: Vec<Block> = Vec::new();
    let ghost mut origins: Seq<(int, int)> = seq![];
    let mut r: usize = 0;
    while r < raw.len()
        invariant
            g == rows_of(*raw),
            grid_fits(g),
            r <= g.len(),
            same_shape(g, rows_of(area)),
            forall|x: int, y: int|
                in_grid(g, x, y) && g[x][y] == blank() ==> #[trigger] rows_of(area)[x][y] == 0,
            forall|x: int, y: int| in_grid(g, x, y) ==> #[trigger] rows_of(area)[x][y] <= blocks@.len(),
            forall|x: int, y: int| nonblank(g, x, y) && x < r ==> #[trigger] rows_of(area)[x][y] != 0,
            forall|x: int, y: int|
                nonblank(g, x, y) && #[trigger] rows_of(area)[x][y] != 0 ==> blocks@[rows_of(area)[x][y]
                    - 1].cmd == g[x][y],
            closed_except(g, rows_of(area), 0),
            origins.len() == blocks@.len(),
            forall|i: int| 0 <= i < blocks@.len() ==> #[trigger] block_ok(g, rows_of(area), blocks@, i, origins[i]),
            blocks@.len() <= cell_count(g.take(r as int)),
        decreases g.len() - r,
    {
        proof {
            lemma_prefix_cells(g, r as int);
        }
        let mut c: usize = 0;
        while c < raw[r].len()
            invariant
                g == rows_of(*raw),
                grid_fits(g),
                r < g.len(),
                c <= g[r as int].len(),
                same_shape(g, rows_of(area)),
                forall|x: int, y: int|
                    in_grid(g, x, y) && g[x][y] == blank() ==> #[trigger] rows_of(area)[x][y] == 0,
                forall|x: int, y: int| in_grid(g, x, y) ==> #[trigger] rows_of(area)[x][y] <= blocks@.len(),
                forall|x: int, y: int|
                    nonblank(g, x, y) && (x < r || (x == r && y < c)) ==> #[trigger] rows_of(area)[x][y] != 0,
                forall|x: int, y: int|
                    nonblank(g, x, y) && #[trigger] rows_of(area)[x][y] != 0 ==> blocks@[rows_of(area)[x][y]
                        - 1].cmd == g[x][y],
                closed_except(g, rows_of(area), 0),
                origins.len() == blocks@.len(),
                forall|i: int| 0 <= i < blocks@.len() ==> #[trigger] block_ok(g, rows_of(area), blocks@, i, origins[i]),
                blocks@.len() <= cell_count(g.take(r as int)) + c,
                cell_count(g.take(r as int + 1)) == cell_count(g.take(r as int)) + g[r as int].len(),
                cell_count(g.take(r as int + 1)) <= cell_count(g),
            decreases g[r as int].len() - c,
        {
            let cmd = raw[r][c];
            if cmd != BLANK && get_matrix(&area, r as u32, c as u32, 0) == 0 {
                let ghost a = rows_of(area);
                let ghost blocks0 = blocks@;
                let k = (blocks.len() + 1) as u32;
                proof {
                    assert forall|x: int, y: int| in_grid(a, x, y) implies #[trigger] a[x][y] < k by {}
                    assert(closed_except(g, a, k));
                }
                let block = flood(raw, &mut area, r as u32, c as u32, k);
                blocks.push(block);
                let ghost a1 = rows_of(area);
                proof {
                    let o = (r as int, c as int);
                    assert forall|i: int| 0 <= i < blocks@.len() implies #[trigger] block_ok(g, a1, blocks@, i, origins.push(o)[i]) by {
                        if i < blocks0.len() {
                            assert(block_ok(g, a, blocks0, i, origins[i]));
                            lemma_block_ok_stable(g, a, a1, blocks0, blocks@, i, origins[i], k);
                        } else {
                            assert forall|x: int, y: int|
                                nonblank(g, x, y) && scan_before(x, y, o.0, o.1) implies 1 <= #[trigger] a1[x][y] <= i by {
                                assert(a[x][y] != 0);
                            }
                        }
                    }
                    origins = origins.push(o);
                    assert forall|x: int, y: int|
                        in_grid(g, x, y) && g[x][y] == blank() implies #[trigger] a1[x][y] == 0 by {
                        assert(in_grid(a, x, y));
                    }
                    assert forall|x: int, y: int|
                        nonblank(g, x, y) && #[trigger] a1[x][y] != 0 implies blocks@[a1[x][y] - 1].cmd == g[x][y] by {
                        assert(in_grid(a, x, y));
                        if a[x][y] != 0 {
                            assert(blocks@[a[x][y] - 1] == blocks0[a[x][y] - 1]);
                        }
                    }
                    assert forall|x: int, y: int, x2: int, y2: int|
                        #[trigger] linked(g, x, y, x2, y2) && a1[x][y] != 0 && a1[x][y] != 0 implies a1[x2][y2] == a1[x][y] by {
                    }
                    assert forall|x: int, y: int| in_grid(g, x, y) implies #[trigger] a1[x][y] <= blocks@.len() by {
                        assert(in_grid(a, x, y));
                    }
                    assert forall|x: int, y: int|
                        nonblank(g, x, y) && (x < r || (x == r && y <= c)) implies #[trigger] a1[x][y] != 0 by {
                        assert(in_grid(a, x, y));
                    }
                }
            }
            c += 1;
        }
        r += 1;
    }
    let code = Code { area_indices: area, blocks };
    proof {
        let a = rows_of(code.area_indices);
        crate::grid::lemma_prefix_le(g, g.len() as int);
        assert forall|x: int, y: int| in_grid(g, x, y) implies (#[trigger] a[x][y] == 0 <==> g[x][y] == blank()) by {}
        assert forall|x: int, y: int, x2: int, y2: int| #[trigger] linked(g, x, y, x2, y2) implies a[x][y] == a[x2][y2] by {}
        assert(origins.len() == code.blocks@.len() && forall|i: int|
            0 <= i < code.blocks@.len() ==> #[trigger] block_ok(g, a, code.blocks@, i, origins[i]));
    }
    code
}

} // verus!
