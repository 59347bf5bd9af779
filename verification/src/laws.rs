//! Properties that hold of every program and every state, over the models of the
//! commands, the step and the run.

use vstd::prelude::*;
use crate::grid::{in_grid, same_shape};
use crate::code::{
    Block, is_parse_of, block_ok, nonblank, linked, linked_step, is_path, reachable, scan_before,
    is_front, has_front, front_of, further, blank,
};
use crate::machine::{
    Machine, wf, second, below_two, div_model, rem_model, floor_div, floor_rem, trunc_div, trunc_rem,
    roll, rotate_model, step_model, step_panics, run_model, run_panics, steps_left, next_block_of,
    command_model, seek, lemma_step_progress, lemma_command_keeps_wf, lemma_trunc_div_range,
    lemma_trunc_div_bound, is_initial, next_index_of, inner_model, move_model,
};
use crate::code::grid_fits;
use crate::machine::{
    CMD_INPUT, CMD_OUTPUT, CMD_PUSH, CMD_POP, CMD_ADD, CMD_SUB, CMD_MUL, CMD_DIV, CMD_REM, CMD_NOT,
    CMD_GT, CMD_DUP, CMD_DP, CMD_CC, CMD_ROTATE,
};
use crate::source::{raw_code_of, lemma_raw_code_fits};
use crate::error::{Error, decimal, message_of};
use vstd::utf8::{encode_utf8, encode_scalar};

verus! {

/// The quotient that `/` pushes times `x`, plus the remainder that `%` pushes, gives `y`
/// back; the remainder has the sign of `x` and is smaller than `x` in size.
pub proof fn law_div_rem(m: Machine)
    requires
        m.stack.len() >= 2,
        m.stack.last() != 0,
        !(second(m.stack) == i64::MIN && m.stack.last() == -1),
    ensures
        ({
            let y = second(m.stack) as int;
            let x = m.stack.last() as int;
            let q = div_model(m).stack.last() as int;
            let r = rem_model(m).stack.last() as int;
            &&& q * x + r == y
            &&& x > 0 ==> 0 <= r < x
            &&& x < 0 ==> x < r <= 0
        }),
{
    let y = second(m.stack) as int;
    let x = m.stack.last() as int;
    lemma_floor(y, x);
    lemma_trunc_div_range(y, x);
    if trunc_rem(y, x) != 0 && ((y >= 0) != (x >= 0)) {
        lemma_trunc_div_bound(y, x);
    }
}

proof fn lemma_floor(y: int, x: int)
    requires
        x != 0,
    ensures
        floor_div(y, x) * x + floor_rem(y, x) == y,
        x > 0 ==> 0 <= floor_rem(y, x) < x,
        x < 0 ==> x < floor_rem(y, x) <= 0,
{
    if y >= 0 {
        assert(x * (y / x) + y % x == y) by (nonlinear_arith)
            requires
                x != 0,
        ;
    } else {
        assert(x * ((-y) / x) + (-y) % x == -y) by (nonlinear_arith)
            requires
                x != 0,
        ;
    }
    assert(trunc_div(y, x) * x + trunc_rem(y, x) == y) by (nonlinear_arith)
        requires
            y >= 0 ==> x * (y / x) + y % x == y,
            y < 0 ==> x * ((-y) / x) + (-y) % x == -y,
            trunc_div(y, x) == (if y >= 0 { y / x } else { -((-y) / x) }),
            trunc_rem(y, x) == (if y >= 0 { y % x } else { -((-y) % x) }),
    ;
    if trunc_rem(y, x) != 0 && ((y >= 0) != (x >= 0)) {
        assert(floor_div(y, x) * x == trunc_div(y, x) * x - x) by (nonlinear_arith)
            requires
                floor_div(y, x) == trunc_div(y, x) - 1,
        ;
    }
}

/// Rolling a sequence by `k` and then by its length minus `k` gives it back.
pub proof fn law_roll_inverse(seg: Seq<i64>, k: int)
    requires
        0 < k < seg.len(),
    ensures
        roll(roll(seg, k), seg.len() - k) == seg,
{
    assert(roll(roll(seg, k), seg.len() - k) =~= seg);
}

/// `r` rearranges values and loses none: after it, the stack holds the values below its
/// two arguments, each as often as before.
pub proof fn law_rotate_permutes(m: Machine)
    requires
        m.stack.len() >= 2,
        second(m.stack) > 0,
        second(m.stack) + 2 <= m.stack.len(),
    ensures
        rotate_model(m).0.stack.to_multiset() == below_two(m.stack).to_multiset(),
{
    broadcast use vstd::seq_lib::group_to_multiset_ensures;
    let s = m.stack;
    let n = s.len() as int;
    let y = second(s) as int;
    let x = s.last() as int;
    let rest = below_two(s);
    let k = x % y;
    if k != 0 {
        let base = n - 2 - y;
        let seg = rest.subrange(base, n - 2);
        let lo = rest.subrange(0, base);
        assert(rest =~= lo + seg);
        assert(seg =~= seg.subrange(0, seg.len() - k) + seg.subrange(seg.len() - k, seg.len() as int));
        vstd::seq_lib::lemma_multiset_commutative(lo, seg);
        vstd::seq_lib::lemma_multiset_commutative(seg.subrange(0, seg.len() - k), seg.subrange(seg.len() - k, seg.len() as int));
        vstd::seq_lib::lemma_multiset_commutative(seg.subrange(seg.len() - k, seg.len() as int), seg.subrange(0, seg.len() - k));
        vstd::seq_lib::lemma_multiset_commutative(lo, roll(seg, k));
    }
}

/// A step never changes the code or the limits, never takes back output, never unreads
/// input, never lowers the rotation count, and keeps the direction pointer and codel
/// chooser in range.
pub proof fn law_step_frame(m: Machine)
    requires
        wf(m),
        m.input_pos >= 0,
    ensures
        ({
            let m1 = step_model(m).0;
            &&& m1.area == m.area
            &&& m1.blocks == m.blocks
            &&& m1.input == m.input
            &&& m1.timeout_limit == m.timeout_limit
            &&& m1.r_limit == m.r_limit
            &&& m.output.is_prefix_of(m1.output)
            &&& m.input_pos <= m1.input_pos
            &&& m.r_sum <= m1.r_sum
            &&& wf(m1)
        }),
{
    assert(m.output.is_prefix_of(m.output));
    assert(m.output.is_prefix_of(m.output.push(0u8)));
    let b = next_block_of(m);
    if b is Some {
        let bb = b->Some_0;
        let c = command_model(m, bb.cmd, bb.len).0;
        assert(m.output.is_prefix_of(c.output));
        lemma_command_keeps_wf(m, bb.cmd, bb.len);
        lemma_seek_wf(bb, c.dp, c.cc, 0);
    }
}

proof fn lemma_seek_wf(b: crate::code::Block, dp: u8, cc: u8, i: int)
    requires
        dp < 4,
        cc < 2,
    ensures
        seek(b, dp, cc, i).1 < 4,
        seek(b, dp, cc, i).2 < 2,
    decreases 8 - i,
{
    if i < 8 && b.fronts[dp as int][cc as int] is None {
        let d = (dp + 1) as u8;
        let c = (cc + 1) as u8;
        assert(d & 3u8 < 4) by (bit_vector);
        assert(c & 1u8 < 2) by (bit_vector);
        if i % 2 == 1 {
            lemma_seek_wf(b, (d & 3u8) as u8, cc, i + 1);
        } else {
            lemma_seek_wf(b, dp, (c & 1u8) as u8, i + 1);
        }
    }
}

/// A step that fails marks the program finished.
pub proof fn law_failure_finishes(m: Machine)
    requires
        step_model(m).1 is Err,
    ensures
        step_model(m).0.finished,
{
}

/// Every run that never aborts ends with the program finished, having made at most one
/// move more than the step limit allows.
pub proof fn law_run_ends(m: Machine)
    requires
        !run_panics(m),
        m.steps <= m.timeout_limit + 1,
    ensures
        run_model(m).0.finished,
        run_model(m).0.steps <= m.timeout_limit + 1,
        run_model(m).0.timeout_limit == m.timeout_limit,
    decreases steps_left(m), if m.finished { 0int } else { 1int },
{
    if !m.finished {
        let (m1, r) = step_model(m);
        if r is Err {
            law_failure_finishes(m);
            assert(m1.steps == m.steps || m1.steps == m.steps + 1) by {
                lemma_step_steps(m);
            }
            assert(m1.steps <= m.timeout_limit + 1) by {
                lemma_step_steps(m);
            }
        } else {
            lemma_step_progress(m);
            law_run_ends(m1);
        }
    }
}

/// A failing step leaves the step count as it was.
proof fn lemma_step_steps(m: Machine)
    requires
        step_model(m).1 is Err,
    ensures
        step_model(m).0.steps == m.steps,
        step_model(m).0.timeout_limit == m.timeout_limit,
{
}

/// A run only adds to the output that the program started with.
pub proof fn law_run_output_grows(m: Machine)
    requires
        wf(m),
        m.input_pos >= 0,
    ensures
        m.output.is_prefix_of(run_model(m).0.output),
    decreases steps_left(m), if m.finished { 0int } else { 1int },
{
    assert(m.output.is_prefix_of(m.output));
    if !m.finished && !step_panics(m) {
        let (m1, r) = step_model(m);
        law_step_frame(m);
        if r is Ok {
            lemma_step_progress(m);
            law_run_output_grows(m1);
            assert(m.output.is_prefix_of(run_model(m1).0.output));
        }
    }
}


/// Along a walk through linked cells, a numbering closed under linking stays the same.
proof fn lemma_path_same_value(g: Seq<Seq<u8>>, a: Seq<Seq<u32>>, p: Seq<(int, int)>)
    requires
        forall|r: int, c: int, r2: int, c2: int|
            #[trigger] linked(g, r, c, r2, c2) ==> a[r][c] == a[r2][c2],
        is_path(g, p),
    ensures
        a[p[0].0][p[0].1] == a[p.last().0][p.last().1],
    decreases p.len(),
{
    if p.len() > 1 {
        let q = p.drop_last();
        assert forall|i: int| 0 <= i < q.len() - 1 implies #[trigger] linked_step(g, q, i) by {
            assert(linked_step(g, p, i));
        }
        lemma_path_same_value(g, a, q);
        assert(linked_step(g, p, p.len() - 2));
    }
}

/// In two parses of one grid, the second numbering is the same on each block of the first:
/// that of the block's first cell.
proof fn lemma_constant_on_blocks(
    g: Seq<Seq<u8>>,
    a1: Seq<Seq<u32>>,
    b1: Seq<Block>,
    o1: Seq<(int, int)>,
    a2: Seq<Seq<u32>>,
    b2: Seq<Block>,
)
    requires
        is_parse_of(g, a1, b1),
        is_parse_of(g, a2, b2),
        o1.len() == b1.len(),
        forall|i: int| 0 <= i < b1.len() ==> #[trigger] block_ok(g, a1, b1, i, o1[i]),
    ensures
        forall|r: int, c: int|
            nonblank(g, r, c) ==> #[trigger] a2[r][c] == a2[o1[a1[r][c] - 1].0][o1[a1[r][c]
                - 1].1],
{
    assert forall|r: int, c: int| nonblank(g, r, c) implies #[trigger] a2[r][c] == a2[o1[a1[r][c]
        - 1].0][o1[a1[r][c] - 1].1] by {
        let i = a1[r][c] - 1;
        assert(block_ok(g, a1, b1, i, o1[i]));
        assert(in_grid(a1, r, c));
        assert(reachable(g, o1[i], (r, c)));
        let w = choose|w: Seq<(int, int)>| #[trigger] is_path(g, w) && w[0] == o1[i] && w.last() == (r, c);
        lemma_path_same_value(g, a2, w);
    }
}

/// A map that strictly increases from `0..n` into `0..m` has `i <= f(i) <= m - n + i`.
proof fn lemma_increasing_map(f: spec_fn(int) -> int, n: int, m: int)
    requires
        forall|i: int| 0 <= i < n ==> 0 <= #[trigger] f(i) < m,
        forall|i: int, j: int| 0 <= i < j < n ==> #[trigger] f(i) < #[trigger] f(j),
    ensures
        forall|i: int| 0 <= i < n ==> i <= #[trigger] f(i) <= m - n + i,
        n <= m || n <= 0,
{
    assert forall|i: int| 0 <= i < n implies i <= #[trigger] f(i) by {
        lemma_increasing_low(f, n, m, i);
    }
    assert forall|i: int| 0 <= i < n implies #[trigger] f(i) <= m - n + i by {
        lemma_increasing_high(f, n, m, i);
    }
    if n > 0 {
        assert(n - 1 <= f(n - 1) <= m - 1);
    }
}

proof fn lemma_increasing_low(f: spec_fn(int) -> int, n: int, m: int, i: int)
    requires
        0 <= i < n,
        forall|i: int| 0 <= i < n ==> 0 <= #[trigger] f(i) < m,
        forall|i: int, j: int| 0 <= i < j < n ==> #[trigger] f(i) < #[trigger] f(j),
    ensures
        i <= f(i),
    decreases i,
{
    if i > 0 {
        lemma_increasing_low(f, n, m, i - 1);
        assert(f(i - 1) < f(i));
    }
}

proof fn lemma_increasing_high(f: spec_fn(int) -> int, n: int, m: int, i: int)
    requires
        0 <= i < n,
        forall|i: int| 0 <= i < n ==> 0 <= #[trigger] f(i) < m,
        forall|i: int, j: int| 0 <= i < j < n ==> #[trigger] f(i) < #[trigger] f(j),
    ensures
        f(i) <= m - n + i,
    decreases n - i,
{
    if i < n - 1 {
        lemma_increasing_high(f, n, m, i + 1);
        assert(f(i) < f(i + 1));
    }
}

/// The first cells of the blocks of one parse are the first cells of the blocks of another,
/// in the same order: the map from block `i` of the first to the number, minus one, that
/// the second gives its first cell increases strictly, and that cell starts that block.
proof fn lemma_origin_map(
    g: Seq<Seq<u8>>,
    a1: Seq<Seq<u32>>,
    b1: Seq<Block>,
    o1: Seq<(int, int)>,
    a2: Seq<Seq<u32>>,
    b2: Seq<Block>,
    o2: Seq<(int, int)>,
)
    requires
        is_parse_of(g, a1, b1),
        is_parse_of(g, a2, b2),
        o1.len() == b1.len(),
        forall|i: int| 0 <= i < b1.len() ==> #[trigger] block_ok(g, a1, b1, i, o1[i]),
        o2.len() == b2.len(),
        forall|i: int| 0 <= i < b2.len() ==> #[trigger] block_ok(g, a2, b2, i, o2[i]),
    ensures
        forall|i: int|
            0 <= i < b1.len() ==> 0 <= #[trigger] a2[o1[i].0][o1[i].1] - 1 < b2.len() && o2[a2[o1[i].0][o1[i].1]
                - 1] == o1[i],
        forall|i: int, j: int|
            0 <= i < j < b1.len() ==> #[trigger] a2[o1[i].0][o1[i].1] < #[trigger] a2[o1[j].0][o1[j].1],
{
    lemma_constant_on_blocks(g, a2, b2, o2, a1, b1);
    assert forall|i: int| 0 <= i < b1.len() implies 0 <= #[trigger] a2[o1[i].0][o1[i].1] - 1 < b2.len()
        && o2[a2[o1[i].0][o1[i].1] - 1] == o1[i] by {
        assert(block_ok(g, a1, b1, i, o1[i]));
        let p = o1[i];
        assert(nonblank(g, p.0, p.1));
        let j = a2[p.0][p.1] - 1;
        assert(0 <= j < b2.len());
        assert(block_ok(g, a2, b2, j, o2[j]));
        let q = o2[j];
        assert(nonblank(g, q.0, q.1));
        assert(a1[p.0][p.1] == a1[o2[a2[p.0][p.1] - 1].0][o2[a2[p.0][p.1] - 1].1]);
        assert(a1[q.0][q.1] == i + 1);
        lemma_scan_order(p, q);
        if scan_before(q.0, q.1, p.0, p.1) {
            assert(1 <= a1[q.0][q.1] <= i);
            assert(false);
        } else if scan_before(p.0, p.1, q.0, q.1) {
            assert(1 <= a2[p.0][p.1] <= j);
            assert(false);
        }
        assert(p == q);
    }
    assert forall|i: int, k: int| 0 <= i < k < b1.len() implies #[trigger] a2[o1[i].0][o1[i].1]
        < #[trigger] a2[o1[k].0][o1[k].1] by {
        assert(block_ok(g, a1, b1, i, o1[i]));
        assert(block_ok(g, a1, b1, k, o1[k]));
        let p = o1[i];
        let q = o1[k];
        assert(nonblank(g, q.0, q.1));
        assert(a1[q.0][q.1] == k + 1);
        assert(a1[p.0][p.1] == i + 1);
        lemma_scan_order(p, q);
        if scan_before(q.0, q.1, p.0, p.1) {
            assert(1 <= a1[q.0][q.1] <= i);
            assert(false);
        }
        assert(p != q);
        assert(scan_before(p.0, p.1, q.0, q.1));
        let jq = a2[q.0][q.1] - 1;
        assert(o2[jq] == q);
        assert(block_ok(g, a2, b2, jq, o2[jq]));
        assert(nonblank(g, p.0, p.1));
        assert(1 <= a2[p.0][p.1] <= jq);
    }
}

/// Two cells are equal, or one comes before the other in the scan.
proof fn lemma_scan_order(p: (int, int), q: (int, int))
    ensures
        p == q || scan_before(p.0, p.1, q.0, q.1) || scan_before(q.0, q.1, p.0, p.1),
{
}

/// Two cells that are each the front of the same block, toward the same direction under the
/// same chooser, are the same cell.
proof fn lemma_front_unique(a: Seq<Seq<u32>>, k: u32, dp: int, cc: int, f1: (int, int), f2: (int, int))
    requires
        0 <= dp < 4,
        0 <= cc < 2,
        is_front(a, k, dp, cc, f1),
        is_front(a, k, dp, cc, f2),
    ensures
        f1 == f2,
{
    assert(a[f1.0][f1.1] == k);
    assert(a[f2.0][f2.1] == k);
    assert(!further(dp, cc, f1.0, f1.1, f2.0, f2.1));
    assert(!further(dp, cc, f2.0, f2.1, f1.0, f1.1));
}

/// A grid has only one parse: `is_parse_of` fixes the block numbers of all cells and every
/// block's command, size and fronts.
pub proof fn law_parse_unique(
    g: Seq<Seq<u8>>,
    a1: Seq<Seq<u32>>,
    b1: Seq<Block>,
    a2: Seq<Seq<u32>>,
    b2: Seq<Block>,
)
    requires
        is_parse_of(g, a1, b1),
        is_parse_of(g, a2, b2),
    ensures
        a1 == a2,
        b1 == b2,
{
    broadcast use vstd::array::group_array_axioms;
    let o1 = choose|o: Seq<(int, int)>|
        o.len() == b1.len() && forall|i: int| 0 <= i < b1.len() ==> #[trigger] block_ok(g, a1, b1, i, o[i]);
    let o2 = choose|o: Seq<(int, int)>|
        o.len() == b2.len() && forall|i: int| 0 <= i < b2.len() ==> #[trigger] block_ok(g, a2, b2, i, o[i]);
    lemma_origin_map(g, a1, b1, o1, a2, b2, o2);
    lemma_origin_map(g, a2, b2, o2, a1, b1, o1);
    let f = |i: int| a2[o1[i].0][o1[i].1] - 1;
    let h = |j: int| a1[o2[j].0][o2[j].1] - 1;
    assert forall|i: int, j: int| 0 <= i < j < b1.len() implies #[trigger] f(i) < #[trigger] f(j) by {
        assert(a2[o1[i].0][o1[i].1] < a2[o1[j].0][o1[j].1]);
    }
    assert forall|i: int| 0 <= i < b1.len() implies 0 <= #[trigger] f(i) < b2.len() by {
        assert(0 <= a2[o1[i].0][o1[i].1] - 1 < b2.len());
    }
    assert forall|i: int, j: int| 0 <= i < j < b2.len() implies #[trigger] h(i) < #[trigger] h(j) by {
        assert(a1[o2[i].0][o2[i].1] < a1[o2[j].0][o2[j].1]);
    }
    assert forall|i: int| 0 <= i < b2.len() implies 0 <= #[trigger] h(i) < b1.len() by {
        assert(0 <= a1[o2[i].0][o2[i].1] - 1 < b1.len());
    }
    lemma_increasing_map(f, b1.len() as int, b2.len() as int);
    lemma_increasing_map(h, b2.len() as int, b1.len() as int);
    assert(b1.len() == b2.len());
    let n = b1.len();
    assert forall|i: int| 0 <= i < n implies #[trigger] o2[i] == o1[i] && a2[o1[i].0][o1[i].1] == i + 1 by {
        assert(f(i) == i);
        assert(o2[a2[o1[i].0][o1[i].1] - 1] == o1[i]);
    }
    // the numberings agree
    lemma_constant_on_blocks(g, a1, b1, o1, a2, b2);
    assert forall|r: int| 0 <= r < a1.len() implies #[trigger] a1[r] =~= a2[r] by {
        assert(a1[r].len() == g[r].len());
        assert(a2[r].len() == g[r].len());
        assert forall|c: int| 0 <= c < a1[r].len() implies a1[r][c] == a2[r][c] by {
            assert(in_grid(g, r, c));
            if g[r][c] != blank() {
                let i = a1[r][c] - 1;
                assert(o2[i] == o1[i]);
            }
        }
    }
    assert(a1 =~= a2);
    // the blocks agree
    assert forall|i: int| 0 <= i < n implies #[trigger] b1[i] == b2[i] by {
        assert(block_ok(g, a1, b1, i, o1[i]));
        assert(block_ok(g, a2, b2, i, o2[i]));
        assert(o2[i] == o1[i]);
        let k = (i + 1) as u32;
        assert forall|dp: int, cc: int| 0 <= dp < 4 && 0 <= cc < 2 implies front_of(b1[i], dp, cc)
            == front_of(b2[i], dp, cc) by {
            assert(has_front(g, a1, k, b1[i], dp, cc));
            assert(has_front(g, a2, k, b2[i], dp, cc));
            let f1 = choose|f: (int, int)|
                #[trigger] is_front(a1, k, dp, cc, f) && front_of(b1[i], dp, cc)
                    == crate::code::exit_of(g, f, dp);
            let f2 = choose|f: (int, int)|
                #[trigger] is_front(a2, k, dp, cc, f) && front_of(b2[i], dp, cc)
                    == crate::code::exit_of(g, f, dp);
            lemma_front_unique(a1, k, dp, cc, f1, f2);
        }
        assert forall|dp: int| 0 <= dp < 4 implies #[trigger] b1[i].fronts[dp] =~= b2[i].fronts[dp] by {
            assert(front_of(b1[i], dp, 0) == front_of(b2[i], dp, 0));
            assert(front_of(b1[i], dp, 1) == front_of(b2[i], dp, 1));
        }
        assert(b1[i].fronts =~= b2[i].fronts);
    }
    assert(b1 =~= b2);
}

/// A program text, input and limits give a single starting machine.
pub proof fn law_initial_unique(
    m1: Machine,
    m2: Machine,
    g: Seq<Seq<u8>>,
    input: Seq<u8>,
    output: Seq<u8>,
    timeout_limit: u32,
    r_limit: u32,
)
    requires
        crate::machine::is_initial(m1, g, input, output, timeout_limit, r_limit),
        crate::machine::is_initial(m2, g, input, output, timeout_limit, r_limit),
    ensures
        m1 == m2,
{
    law_parse_unique(g, m1.area, m1.blocks, m2.area, m2.blocks);
}

/// Ten to the power `k`.
spec fn ten_pow(k: nat) -> nat
    decreases k,
{
    if k == 0 {
        1
    } else {
        10 * ten_pow((k - 1) as nat)
    }
}

proof fn lemma_decimal_len(n: nat, k: nat)
    requires
        k >= 1,
        n < ten_pow(k),
    ensures
        decimal(n).len() <= k,
    decreases n,
{
    if n >= 10 {
        assert(k >= 2) by {
            if k == 1 {
                assert(ten_pow(1) == 10) by {
                    reveal_with_fuel(ten_pow, 2);
                }
            }
        }
        let k1 = (k - 1) as nat;
        assert(ten_pow(k) == 10 * ten_pow(k1));
        assert(n / 10 < ten_pow(k1)) by (nonlinear_arith)
            requires
                n < 10 * ten_pow(k1),
        ;
        lemma_decimal_len(n / 10, k1);
    }
}

proof fn lemma_decimal_u32(n: u32)
    ensures
        decimal(n as nat).len() <= 10,
{
    assert(ten_pow(10) == 10_000_000_000) by {
        reveal_with_fuel(ten_pow, 11);
    }
    lemma_decimal_len(n as nat, 10);
}

proof fn lemma_encode_len(s: Seq<char>)
    ensures
        encode_utf8(s).len() <= 4 * s.len(),
    decreases s.len(),
{
    if s.len() > 0 {
        assert(encode_scalar(s[0] as u32).len() <= 4);
        lemma_encode_len(s.drop_first());
    }
}

/// Every error message is at most 256 bytes long, so a buffer of 256 bytes holds any of them.
pub proof fn law_message_short(e: Error)
    ensures
        message_of(e).len() <= 256,
{
    reveal_strlit("unexpected char `");
    reveal_strlit("` at row ");
    reveal_strlit(", col ");
    reveal_strlit("program not finished in ");
    reveal_strlit(" steps");
    reveal_strlit("r command costs exceeded limit of ");
    reveal_strlit("rows * cols > ");
    reveal_strlit("top left is blank");
    reveal_strlit("non-ascii char `");
    reveal_strlit("`");
    reveal_strlit("overflow `");
    lemma_encode_len("unexpected char `"@);
    lemma_encode_len("` at row "@);
    lemma_encode_len(", col "@);
    lemma_encode_len("program not finished in "@);
    lemma_encode_len(" steps"@);
    lemma_encode_len("r command costs exceeded limit of "@);
    lemma_encode_len("rows * cols > "@);
    lemma_encode_len("top left is blank"@);
    lemma_encode_len("non-ascii char `"@);
    lemma_encode_len("`"@);
    lemma_encode_len("overflow `"@);
    match e {
        Error::Syntax { ch, row, col } | Error::Overflow { ch, row, col } => {
            lemma_encode_len(seq![ch]);
            lemma_decimal_u32(row);
            lemma_decimal_u32(col);
        },
        Error::NonAscii { ch } => {
            lemma_encode_len(seq![ch]);
        },
        Error::Timeout { limit } | Error::TooMuchRotate { limit } | Error::CodeIsBig { limit } => {
            lemma_decimal_u32(limit);
        },
        Error::BlankStart => {},
    }
}

/// The current cell of `m` is a command cell of the grid `g` that `m`'s code was parsed
/// from, the direction pointer and codel chooser are in range, and at most one move has
/// been made past the step limit.
pub open spec fn on_block(m: Machine, g: Seq<Seq<u8>>) -> bool {
    &&& grid_fits(g)
    &&& is_parse_of(g, m.area, m.blocks)
    &&& nonblank(g, m.row as int, m.col as int)
    &&& wf(m)
    &&& m.steps <= m.timeout_limit + 1
}

/// Every cell that a block leads to is a command cell.
proof fn lemma_fronts_nonblank(g: Seq<Seq<u8>>, a: Seq<Seq<u32>>, blocks: Seq<Block>, i: int, dp: int, cc: int)
    requires
        grid_fits(g),
        is_parse_of(g, a, blocks),
        0 <= i < blocks.len(),
        0 <= dp < 4,
        0 <= cc < 2,
        blocks[i].fronts[dp][cc] is Some,
    ensures
        nonblank(g, blocks[i].fronts[dp][cc]->Some_0.0 as int, blocks[i].fronts[dp][cc]->Some_0.1 as int),
{
    let origins = choose|origins: Seq<(int, int)>|
        origins.len() == blocks.len() && forall|j: int|
            0 <= j < blocks.len() ==> #[trigger] block_ok(g, a, blocks, j, origins[j]);
    assert(block_ok(g, a, blocks, i, origins[i]));
    let k = (i + 1) as u32;
    assert(has_front(g, a, k, blocks[i], dp, cc));
    let f = choose|f: (int, int)|
        #[trigger] is_front(a, k, dp, cc, f) && front_of(blocks[i], dp, cc) == crate::code::exit_of(g, f, dp);
    let nr = f.0 + crate::code::step_row(dp);
    let nc = f.1 + crate::code::step_col(dp);
    assert(nonblank(g, nr, nc));
    assert(g[nr].len() <= u32::MAX);
}

/// The cell that the search for a way out finds is one of the block's fronts.
proof fn lemma_seek_nonblank(g: Seq<Seq<u8>>, b: Block, dp: u8, cc: u8, i: int)
    requires
        dp < 4,
        cc < 2,
        forall|d: int, c: int|
            0 <= d < 4 && 0 <= c < 2 && (#[trigger] b.fronts[d][c]) is Some ==> nonblank(
                g,
                b.fronts[d][c]->Some_0.0 as int,
                b.fronts[d][c]->Some_0.1 as int,
            ),
    ensures
        seek(b, dp, cc, i).0 is Some ==> nonblank(
            g,
            seek(b, dp, cc, i).0->Some_0.0 as int,
            seek(b, dp, cc, i).0->Some_0.1 as int,
        ),
    decreases 8 - i,
{
    if i < 8 && b.fronts[dp as int][cc as int] is None {
        let d = (dp + 1) as u8;
        let c = (cc + 1) as u8;
        assert(d & 3u8 < 4) by (bit_vector);
        assert(c & 1u8 < 2) by (bit_vector);
        if i % 2 == 1 {
            lemma_seek_nonblank(g, b, (d & 3u8) as u8, cc, i + 1);
        } else {
            lemma_seek_nonblank(g, b, dp, (c & 1u8) as u8, i + 1);
        }
    }
}

/// A command leaves the code, the current cell, the step count and the limits alone.
proof fn lemma_command_frame(m: Machine, cmd: u8, len: usize)
    ensures
        ({
            let c = command_model(m, cmd, len).0;
            &&& c.area == m.area
            &&& c.blocks == m.blocks
            &&& c.row == m.row
            &&& c.col == m.col
            &&& c.steps == m.steps
            &&& c.timeout_limit == m.timeout_limit
        }),
{
}

/// A machine on a command cell has a block under it.
pub proof fn law_on_block_has_block(m: Machine, g: Seq<Seq<u8>>)
    requires
        on_block(m, g),
    ensures
        next_block_of(m) is Some,
{
    assert(in_grid(m.area, m.row as int, m.col as int));
    assert(next_index_of(m) == m.area[m.row as int][m.col as int]);
}

/// A loaded program starts on a block: the top left cell holds a command.
pub proof fn law_start_on_block(
    m: Machine,
    s: Seq<char>,
    code_limit: u32,
    input: Seq<u8>,
    output: Seq<u8>,
    timeout_limit: u32,
    r_limit: u32,
)
    requires
        raw_code_of(s, code_limit) is Ok,
        is_initial(m, raw_code_of(s, code_limit)->Ok_0, input, output, timeout_limit, r_limit),
    ensures
        on_block(m, raw_code_of(s, code_limit)->Ok_0),
        next_block_of(m) is Some,
{
    lemma_raw_code_fits(s, code_limit);
    law_on_block_has_block(m, raw_code_of(s, code_limit)->Ok_0);
}

/// Every step that does not abort keeps the program on a block: the current cell is
/// always a command cell (so the error for a missing block never comes), the direction
/// pointer and codel chooser stay in range, and at most one move is made past the step
/// limit.
pub proof fn law_step_stays_on_block(m: Machine, g: Seq<Seq<u8>>)
    requires
        on_block(m, g),
        !step_panics(m),
    ensures
        on_block(step_model(m).0, g),
        next_block_of(step_model(m).0) is Some,
{
    law_on_block_has_block(m, g);
    if m.steps <= m.timeout_limit {
        let b = next_block_of(m)->Some_0;
        let i = next_index_of(m) - 1;
        assert(b == m.blocks[i]);
        let c = command_model(m, b.cmd, b.len);
        lemma_command_frame(m, b.cmd, b.len);
        lemma_command_keeps_wf(m, b.cmd, b.len);
        if c.1 is Ok {
            assert forall|d: int, cc: int|
                0 <= d < 4 && 0 <= cc < 2 && (#[trigger] b.fronts[d][cc]) is Some implies nonblank(
                g,
                b.fronts[d][cc]->Some_0.0 as int,
                b.fronts[d][cc]->Some_0.1 as int,
            ) by {
                lemma_fronts_nonblank(g, m.area, m.blocks, i, d, cc);
            }
            lemma_seek_nonblank(g, b, c.0.dp, c.0.cc, 0);
            lemma_seek_wf(b, c.0.dp, c.0.cc, 0);
        }
    }
    law_on_block_has_block(step_model(m).0, g);
}

/// A step within the step limit, on a block, carries out exactly that block's command: the
/// stack, rotation count, input position, output and any error are the command's.
pub proof fn law_step_runs_command(m: Machine, b: Block)
    requires
        m.steps <= m.timeout_limit,
        next_block_of(m) == Some(b),
    ensures
        ({
            let s = step_model(m);
            let c = command_model(m, b.cmd, b.len);
            &&& s.0.stack == c.0.stack
            &&& s.0.r_sum == c.0.r_sum
            &&& s.0.input_pos == c.0.input_pos
            &&& s.0.output == c.0.output
            &&& s.1 == c.1
        }),
{
}

/// `I` with input left pushes the next input byte and moves past it; with none left it
/// changes nothing.
pub proof fn law_input(m: Machine, len: usize)
    ensures
        ({
            let c = command_model(m, CMD_INPUT, len);
            &&& c.1 is Ok
            &&& if 0 <= m.input_pos < m.input.len() {
                &&& c.0.stack.len() == m.stack.len() + 1
                &&& c.0.stack.subrange(0, m.stack.len() as int) == m.stack
                &&& c.0.stack.last() == m.input[m.input_pos] as i64
                &&& c.0.input_pos == m.input_pos + 1
            } else {
                c.0 == m
            }
            &&& c.0.output == m.output
        }),
{
    if 0 <= m.input_pos < m.input.len() {
        assert(m.stack.push(m.input[m.input_pos] as i64).subrange(0, m.stack.len() as int) =~= m.stack);
    }
}

/// `O` on a non-empty stack removes the top value and writes its low byte (the value modulo
/// 256) after the output so far; on an empty stack it changes nothing.
pub proof fn law_output(m: Machine, len: usize)
    ensures
        ({
            let c = command_model(m, CMD_OUTPUT, len);
            let n = m.stack.len() as int;
            &&& c.1 is Ok
            &&& if n > 0 {
                &&& c.0.stack.len() == n - 1
                &&& c.0.stack.push(m.stack[n - 1]) == m.stack
                &&& c.0.output.len() == m.output.len() + 1
                &&& c.0.output.subrange(0, m.output.len() as int) == m.output
                &&& c.0.output.last() as int == (m.stack[n - 1] as int) % 256
            } else {
                c.0 == m
            }
        }),
{
    let n = m.stack.len() as int;
    if n > 0 {
        let x = m.stack[n - 1];
        assert(m.stack.drop_last().push(x) =~= m.stack);
        let o = m.output.push((x & 255) as u8);
        assert(o.subrange(0, m.output.len() as int) =~= m.output);
        assert(((x & 255) as u8) as int == (x as int) % 256) by {
            assert(0 <= (x & 255) <= 255) by (bit_vector);
            assert((x & 255) as int == (x as int) % 256) by (bit_vector);
        }
    }
}

/// `P` pushes the size of its block.
pub proof fn law_push(m: Machine, len: usize)
    requires
        len <= i64::MAX,
    ensures
        ({
            let c = command_model(m, CMD_PUSH, len);
            &&& c.1 is Ok
            &&& c.0.stack.len() == m.stack.len() + 1
            &&& c.0.stack.subrange(0, m.stack.len() as int) == m.stack
            &&& c.0.stack.last() as int == len as int
        }),
{
    assert(m.stack.push(len as i64).subrange(0, m.stack.len() as int) =~= m.stack);
}

/// `p` removes the top value; on an empty stack it changes nothing.
pub proof fn law_pop(m: Machine, len: usize)
    ensures
        ({
            let c = command_model(m, CMD_POP, len);
            &&& c.1 is Ok
            &&& m.stack.len() > 0 ==> c.0.stack.len() == m.stack.len() - 1 && c.0.stack.push(
                m.stack.last(),
            ) == m.stack
            &&& m.stack.len() == 0 ==> c.0 == m
        }),
{
    if m.stack.len() > 0 {
        assert(m.stack.drop_last().push(m.stack.last()) =~= m.stack);
    }
}

/// `d` on a non-empty stack puts a copy of the top value on top; on an empty stack it
/// changes nothing.
pub proof fn law_dup(m: Machine, len: usize)
    ensures
        ({
            let c = command_model(m, CMD_DUP, len);
            let n = m.stack.len() as int;
            &&& c.1 is Ok
            &&& n > 0 ==> c.0.stack.len() == n + 1 && c.0.stack.subrange(0, n) == m.stack
                && c.0.stack[n] == m.stack[n - 1]
            &&& n == 0 ==> c.0 == m
        }),
{
    let n = m.stack.len() as int;
    if n > 0 {
        assert(m.stack.push(m.stack.last()).subrange(0, n) =~= m.stack);
    }
}

/// The two top values taken by a command replaced by one: the values below stay, and `v`
/// is on top.
pub open spec fn replaces_two(before: Seq<i64>, after: Seq<i64>, v: int) -> bool {
    let n = before.len() as int;
    &&& after.len() == n - 1
    &&& after.subrange(0, n - 2) == before.subrange(0, n - 2)
    &&& after[n - 2] as int == v
}

proof fn lemma_replaces_two(s: Seq<i64>, z: i64)
    requires
        s.len() >= 2,
    ensures
        replaces_two(s, below_two(s).push(z), z as int),
{
    assert(below_two(s).push(z).subrange(0, s.len() - 2) =~= s.subrange(0, s.len() - 2));
}

/// The outcome `c` of a command that replaces the two top values by `v`: where `v` fits 64
/// bits, it does so and goes well; where it does not, both are dropped and it fails with an
/// overflow error named `+` at the current cell.
pub open spec fn gives_checked(m: Machine, c: (Machine, Result<(), Error>), v: int) -> bool {
    if i64::MIN <= v <= i64::MAX {
        c.1 is Ok && replaces_two(m.stack, c.0.stack, v)
    } else {
        &&& c.1 == Err::<(), Error>(Error::Overflow { ch: '+', row: m.row, col: m.col })
        &&& c.0.stack == m.stack.subrange(0, m.stack.len() - 2)
    }
}

/// `+`, `-` and `*` on `y`, `x` (`x` on top) replace them by `y + x`, `y - x` and `y * x`
/// where that fits 64 bits; where it does not, the step fails (see `gives_checked`).
pub proof fn law_arith(m: Machine, len: usize)
    requires
        m.stack.len() >= 2,
    ensures
        ({
            let n = m.stack.len() as int;
            let y = m.stack[n - 2] as int;
            let x = m.stack[n - 1] as int;
            &&& gives_checked(m, command_model(m, CMD_ADD, len), y + x)
            &&& gives_checked(m, command_model(m, CMD_SUB, len), y - x)
            &&& gives_checked(m, command_model(m, CMD_MUL, len), y * x)
        }),
{
    let n = m.stack.len() as int;
    let y = m.stack[n - 2] as int;
    let x = m.stack[n - 1] as int;
    assert(below_two(m.stack) =~= m.stack.subrange(0, n - 2));
    if i64::MIN <= y + x <= i64::MAX {
        lemma_replaces_two(m.stack, (y + x) as i64);
    }
    if i64::MIN <= y - x <= i64::MAX {
        lemma_replaces_two(m.stack, (y - x) as i64);
    }
    if i64::MIN <= y * x <= i64::MAX {
        lemma_replaces_two(m.stack, (y * x) as i64);
    }
}

/// `/` and `%` on `y`, `x` (`x` on top, not 0) replace them by the quotient and remainder
/// of `y` by `x`: quotient times `x` plus remainder gives `y`, and the remainder has the
/// sign of `x` and is smaller than `x` in size. With `x` 0 they change nothing.
pub proof fn law_div_rem_commands(m: Machine, len: usize)
    requires
        m.stack.len() >= 2,
        !(m.stack[m.stack.len() - 2] == i64::MIN && m.stack.last() == -1),
    ensures
        ({
            let n = m.stack.len() as int;
            let y = m.stack[n - 2] as int;
            let x = m.stack[n - 1] as int;
            let d = command_model(m, CMD_DIV, len);
            let r = command_model(m, CMD_REM, len);
            &&& d.1 is Ok
            &&& r.1 is Ok
            &&& x == 0 ==> d.0 == m && r.0 == m
            &&& x != 0 ==> ({
                let q = d.0.stack[n - 2] as int;
                let rm = r.0.stack[n - 2] as int;
                &&& replaces_two(m.stack, d.0.stack, q)
                &&& replaces_two(m.stack, r.0.stack, rm)
                &&& q * x + rm == y
                &&& x > 0 ==> 0 <= rm < x
                &&& x < 0 ==> x < rm <= 0
            })
        }),
{
    let n = m.stack.len() as int;
    if m.stack[n - 1] != 0 {
        law_div_rem(m);
        lemma_replaces_two(m.stack, div_model(m).stack.last());
        lemma_replaces_two(m.stack, rem_model(m).stack.last());
    }
}

/// `>` on `y`, `x` (`x` on top) replaces them by 1 where `y > x` and by 0 otherwise.
pub proof fn law_gt(m: Machine, len: usize)
    requires
        m.stack.len() >= 2,
    ensures
        ({
            let n = m.stack.len() as int;
            let c = command_model(m, CMD_GT, len);
            let t = c.0.stack[n - 2];
            &&& c.1 is Ok
            &&& replaces_two(m.stack, c.0.stack, t as int)
            &&& t == 0 || t == 1
            &&& t == 1 <==> m.stack[n - 2] > m.stack[n - 1]
        }),
{
    let s = m.stack;
    lemma_replaces_two(s, if second(s) > s.last() { 1i64 } else { 0i64 });
}

/// `!` replaces the top value by 1 where it is 0 and by 0 otherwise.
pub proof fn law_not(m: Machine, len: usize)
    requires
        m.stack.len() >= 1,
    ensures
        ({
            let n = m.stack.len() as int;
            let c = command_model(m, CMD_NOT, len);
            let t = c.0.stack[n - 1];
            &&& c.1 is Ok
            &&& c.0.stack.len() == n
            &&& c.0.stack.subrange(0, n - 1) == m.stack.subrange(0, n - 1)
            &&& t == 0 || t == 1
            &&& t == 1 <==> m.stack[n - 1] == 0
        }),
{
    let n = m.stack.len() as int;
    let z: i64 = if m.stack.last() == 0 { 1 } else { 0 };
    assert(m.stack.drop_last().push(z).subrange(0, n - 1) =~= m.stack.subrange(0, n - 1));
}

/// The attempt `k` (from 0) of the search for a way out that starts from `dp` and `cc`:
/// the chooser is toggled after the first failed attempt, the pointer turned clockwise after
/// the second, and so on in turn, giving `(dp, cc)`, `(dp, 1 - cc)`, `(dp + 1, 1 - cc)`,
/// `(dp + 1, cc)`, `(dp + 2, cc)`, ...
pub open spec fn attempt(dp: int, cc: int, k: int) -> (int, int) {
    ((dp + k / 2) % 4, if ((k + 1) / 2) % 2 == 1 {
        1 - cc
    } else {
        cc
    })
}

/// The way out under attempt `k`.
pub open spec fn attempt_front(b: Block, dp: int, cc: int, k: int) -> Option<(u32, u32)> {
    b.fronts[attempt(dp, cc, k).0][attempt(dp, cc, k).1]
}

proof fn lemma_seek_attempts(b: Block, dp0: u8, cc0: u8, dp: u8, cc: u8, i: int)
    requires
        dp0 < 4,
        cc0 < 2,
        0 <= i <= 8,
        dp as int == attempt(dp0 as int, cc0 as int, i).0,
        cc as int == attempt(dp0 as int, cc0 as int, i).1,
    ensures
        forall|k: int|
            #![trigger attempt_front(b, dp0 as int, cc0 as int, k)]
            i <= k < 8 && attempt_front(b, dp0 as int, cc0 as int, k) is Some && (forall|j: int|
                i <= j < k ==> #[trigger] attempt_front(b, dp0 as int, cc0 as int, j) is None) ==> {
                let a = attempt(dp0 as int, cc0 as int, k);
                &&& seek(b, dp, cc, i).0 == attempt_front(b, dp0 as int, cc0 as int, k)
                &&& seek(b, dp, cc, i).1 as int == a.0
                &&& seek(b, dp, cc, i).2 as int == a.1
            },
        (forall|j: int| i <= j < 8 ==> #[trigger] attempt_front(b, dp0 as int, cc0 as int, j) is None)
            ==> seek(b, dp, cc, i) == (None::<(u32, u32)>, dp0, cc0),
    decreases 8 - i,
{
    let d0 = dp0 as int;
    let c0 = cc0 as int;
    if i < 8 {
        if b.fronts[dp as int][cc as int] is None {
            let nd = ((dp + 1) as u8 & 3u8) as u8;
            let nc = ((cc + 1) as u8 & 1u8) as u8;
            assert(dp < 4 && cc < 2);
            assert(nd as int == (dp as int + 1) % 4) by {
                let v = (dp + 1) as u8;
                assert(v < 5 ==> (v & 3u8) as int == (v as int) % 4) by (bit_vector);
            }
            assert(nc as int == (cc as int + 1) % 2) by {
                let v = (cc + 1) as u8;
                assert(v < 3 ==> (v & 1u8) as int == (v as int) % 2) by (bit_vector);
            }
            if i % 2 == 1 {
                assert((d0 + (i + 1) / 2) % 4 == ((d0 + i / 2) % 4 + 1) % 4);
                assert(((i + 2) / 2) % 2 == ((i + 1) / 2) % 2);
                lemma_seek_attempts(b, dp0, cc0, nd, cc, i + 1);
            } else {
                assert((i + 1) / 2 == i / 2);
                assert(((i + 2) / 2) % 2 != ((i + 1) / 2) % 2);
                lemma_seek_attempts(b, dp0, cc0, dp, nc, i + 1);
            }
            assert(attempt_front(b, d0, c0, i) is None);
        } else {
            assert(attempt_front(b, d0, c0, i) is Some);
        }
    } else {
        assert((d0 + 4) % 4 == d0);
    }
}

/// The search for a way out tries the attempts in order (see `attempt`) and takes the
/// first one that has a way out, leaving the pointer and chooser as that attempt has them;
/// where none of the eight has one, the pointer and chooser come back to where they started.
pub proof fn law_seek_order(b: Block, dp: u8, cc: u8)
    requires
        dp < 4,
        cc < 2,
    ensures
        forall|k: int|
            #![trigger attempt_front(b, dp as int, cc as int, k)]
            0 <= k < 8 && attempt_front(b, dp as int, cc as int, k) is Some && (forall|j: int|
                0 <= j < k ==> #[trigger] attempt_front(b, dp as int, cc as int, j) is None) ==> {
                let a = attempt(dp as int, cc as int, k);
                &&& seek(b, dp, cc, 0).0 == attempt_front(b, dp as int, cc as int, k)
                &&& seek(b, dp, cc, 0).1 as int == a.0
                &&& seek(b, dp, cc, 0).2 as int == a.1
            },
        (forall|j: int| 0 <= j < 8 ==> #[trigger] attempt_front(b, dp as int, cc as int, j) is None)
            ==> seek(b, dp, cc, 0) == (None::<(u32, u32)>, dp, cc),
{
    lemma_seek_attempts(b, dp, cc, dp, cc, 0);
}

/// `D` pops `x` and turns the direction pointer clockwise `x` times; `C` pops `x` and
/// toggles the codel chooser `x` times. On an empty stack they change nothing.
pub proof fn law_turn(m: Machine, len: usize)
    requires
        wf(m),
    ensures
        ({
            let d = command_model(m, CMD_DP, len);
            let c = command_model(m, CMD_CC, len);
            let n = m.stack.len() as int;
            &&& d.1 is Ok
            &&& c.1 is Ok
            &&& n > 0 ==> {
                let x = m.stack[n - 1] as int;
                &&& d.0.stack.push(m.stack[n - 1]) == m.stack
                &&& c.0.stack.push(m.stack[n - 1]) == m.stack
                &&& d.0.dp as int == (m.dp as int + x) % 4
                &&& d.0.cc == m.cc
                &&& c.0.cc as int == (m.cc as int + x) % 2
                &&& c.0.dp == m.dp
            }
            &&& n == 0 ==> d.0 == m && c.0 == m
        }),
{
    let n = m.stack.len() as int;
    if n > 0 {
        let x = m.stack[n - 1];
        let dp = m.dp;
        let cc = m.cc;
        assert(m.stack.drop_last().push(x) =~= m.stack);
        assert(dp < 4 ==> ((dp + (x & 3) as u8) as u8 & 3u8) as int == (dp as int + x as int) % 4)
            by (bit_vector);
        assert(cc < 2 ==> ((cc + (x & 1) as u8) as u8 & 1u8) as int == (cc as int + x as int) % 2)
            by (bit_vector);
    }
}

/// `r` on `y`, `x` (`x` on top) with `0 < y` and `y` values below them: both are dropped
/// and the top `y` of the values below are rolled so that the top `x mod y` of them go
/// beneath the others (the value at offset `j` of that part comes from offset
/// `(j - x) mod y`); the rotation count grows by `y` (saturating at `u32::MAX`), and where
/// something was rolled and the count then exceeds the limit, the step fails. Otherwise `r`
/// changes nothing.
pub proof fn law_rotate(m: Machine, len: usize)
    ensures
        ({
            let c = command_model(m, CMD_ROTATE, len);
            let s = m.stack;
            let n = s.len() as int;
            if n >= 2 && 0 < s[n - 2] && s[n - 2] + 2 <= n {
                let y = s[n - 2] as int;
                let x = s[n - 1] as int;
                let base = n - 2 - y;
                let k = x % y;
                let cost = if y > u32::MAX { u32::MAX as int } else { y };
                let rs = if m.r_sum + cost > u32::MAX { u32::MAX as int } else { m.r_sum + cost };
                &&& c.0.stack.len() == n - 2
                &&& c.0.stack.subrange(0, base) == s.subrange(0, base)
                &&& forall|j: int|
                    0 <= j < y ==> #[trigger] c.0.stack[base + j] == s[base + (j - x) % y]
                &&& c.0.r_sum as int == rs
                &&& (c.1 is Err <==> (k != 0 && rs > m.r_limit))
                &&& c.1 is Err ==> c.1 == Err::<(), Error>(Error::TooMuchRotate { limit: m.r_limit })
            } else {
                c == (m, Ok::<(), Error>(()))
            }
        }),
{
    let s = m.stack;
    let n = s.len() as int;
    if n >= 2 && 0 < s[n - 2] && s[n - 2] + 2 <= n {
        let y = s[n - 2] as int;
        let x = s[n - 1] as int;
        let base = n - 2 - y;
        let k = x % y;
        let rest = below_two(s);
        let c = command_model(m, CMD_ROTATE, len);
        if k == 0 {
            assert forall|j: int| 0 <= j < y implies #[trigger] c.0.stack[base + j] == s[base + (j - x) % y] by {
                assert((j - x) % y == j) by (nonlinear_arith)
                    requires
                        0 <= j < y,
                        x % y == 0,
                        y > 0,
                ;
            }
        } else {
            let seg = rest.subrange(base, n - 2);
            assert forall|j: int| 0 <= j < y implies #[trigger] c.0.stack[base + j] == s[base + (j - x) % y] by {
                assert(c.0.stack[base + j] == roll(seg, k)[j]);
                if j < k {
                    assert((j - x) % y == y - k + j) by (nonlinear_arith)
                        requires
                            0 <= j < k,
                            k == x % y,
                            0 < k < y,
                    ;
                } else {
                    assert((j - x) % y == j - k) by (nonlinear_arith)
                        requires
                            k <= j < y,
                            k == x % y,
                            0 < k < y,
                    ;
                }
            }
        }
    }
}

/// A step past the step limit fails with the timeout error and only marks the program
/// finished.
pub proof fn law_timeout(m: Machine)
    requires
        m.steps > m.timeout_limit,
    ensures
        step_model(m) == (Machine { finished: true, ..m }, Err::<(), Error>(
            Error::Timeout { limit: m.timeout_limit },
        )),
{
}

/// After a command that goes well, the step moves to the way out that the search finds
/// (see `law_seek_order`), one step further, with the pointer and chooser the search left;
/// where the search finds none, the program is finished where it stands.
pub proof fn law_step_moves(m: Machine, b: Block)
    requires
        m.steps <= m.timeout_limit,
        next_block_of(m) == Some(b),
        command_model(m, b.cmd, b.len).1 is Ok,
    ensures
        ({
            let c = command_model(m, b.cmd, b.len).0;
            let f = seek(b, c.dp, c.cc, 0);
            let s = step_model(m);
            &&& s.1 is Ok
            &&& s.0.dp == f.1
            &&& s.0.cc == f.2
            &&& s.0.stack == c.stack
            &&& match f.0 {
                Some(p) => s.0.row == p.0 && s.0.col == p.1 && s.0.steps as int == (m.steps as int + 1)
                    % 0x1_0000_0000 && s.0.finished == m.finished,
                None => s.0.row == m.row && s.0.col == m.col && s.0.steps == m.steps && s.0.finished,
            }
        }),
{
    let c = command_model(m, b.cmd, b.len).0;
    lemma_command_frame(m, b.cmd, b.len);
    let st = m.steps;
    assert(((st + 1) as u32) as int == (st as int + 1) % 0x1_0000_0000) by (bit_vector);
}

} // verus!
