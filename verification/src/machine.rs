//! Running a program: the machine state, one step of execution, and a whole run.

use vstd::prelude::*;
use crate::error::Error;
use crate::grid::{rows_of, cell_or, get_matrix};
use crate::code::{Block, Code, is_parse_of, parse, grid_fits};
use crate::source::{raw_code_of, parse_raw_code, raw_result_view, lemma_raw_code_fits};

verus! {

/// Command `I`: read one input byte onto the stack.
pub const CMD_INPUT: u8 = 73;
/// Command `O`: write the low byte of the top value.
pub const CMD_OUTPUT: u8 = 79;
/// Command `P`: push the size of the current block.
pub const CMD_PUSH: u8 = 80;
/// Command `p`: drop the top value.
pub const CMD_POP: u8 = 112;
/// Command `+`.
pub const CMD_ADD: u8 = 43;
/// Command `-`.
pub const CMD_SUB: u8 = 45;
/// Command `*`.
pub const CMD_MUL: u8 = 42;
/// Command `/`: floored division.
pub const CMD_DIV: u8 = 47;
/// Command `%`: floored remainder.
pub const CMD_REM: u8 = 37;
/// Command `!`: logical not.
pub const CMD_NOT: u8 = 33;
/// Command `>`: greater than.
pub const CMD_GT: u8 = 62;
/// Command `D`: turn the direction pointer.
pub const CMD_DP: u8 = 68;
/// Command `C`: toggle the codel chooser.
pub const CMD_CC: u8 = 67;
/// Command `d`: duplicate the top value.
pub const CMD_DUP: u8 = 100;
/// Command `r`: rotate the top values.
pub const CMD_ROTATE: u8 = 114;

/// The state of a running program, as a mathematical value.
pub struct Machine {
    pub area: Seq<Seq<u32>>,
    pub blocks: Seq<Block>,
    pub input: Seq<u8>,
    pub input_pos: int,
    pub output: Seq<u8>,
    pub stack: Seq<i64>,
    pub row: u32,
    pub col: u32,
    pub dp: u8,
    pub cc: u8,
    pub timeout_limit: u32,
    pub steps: u32,
    pub r_limit: u32,
    pub r_sum: u32,
    pub finished: bool,
}

/// The outcome of a command or a step: the new state and whether it went well.
pub type Outcome = (Machine, Result<(), Error>);

/// The direction pointer and codel chooser are in range.
pub open spec fn wf(m: Machine) -> bool {
    m.dp < 4 && m.cc < 2
}

pub open spec fn ok(m: Machine) -> Outcome {
    (m, Ok(()))
}

pub open spec fn with_stack(m: Machine, s: Seq<i64>) -> Machine {
    Machine { stack: s, ..m }
}

/// The stack without its two top values.
pub open spec fn below_two(s: Seq<i64>) -> Seq<i64> {
    s.subrange(0, s.len() - 2)
}

/// The second value from the top (`y` in the commands that take two values).
pub open spec fn second(s: Seq<i64>) -> i64 {
    s[s.len() - 2]
}

/// The error for an arithmetic overflow at the current cell.
pub open spec fn overflow_at(m: Machine, ch: char) -> Error {
    Error::Overflow { ch, row: m.row, col: m.col }
}

/// `I`: pushes the next input byte, if any is left.
pub open spec fn input_model(m: Machine) -> Machine {
    if 0 <= m.input_pos < m.input.len() {
        Machine {
            stack: m.stack.push(m.input[m.input_pos] as i64),
            input_pos: m.input_pos + 1,
            ..m
        }
    } else {
        m
    }
}

/// `O`: pops a value and writes its low byte.
pub open spec fn output_model(m: Machine) -> Machine {
    if m.stack.len() > 0 {
        Machine {
            stack: m.stack.drop_last(),
            output: m.output.push((m.stack.last() & 255) as u8),
            ..m
        }
    } else {
        m
    }
}

/// `P`: pushes the size of the block.
pub open spec fn push_model(m: Machine, len: usize) -> Outcome {
    if len <= i64::MAX {
        ok(with_stack(m, m.stack.push(len as i64)))
    } else {
        (m, Err(overflow_at(m, 'P')))
    }
}

/// `p`: drops the top value.
pub open spec fn pop_model(m: Machine) -> Machine {
    if m.stack.len() > 0 {
        with_stack(m, m.stack.drop_last())
    } else {
        m
    }
}

/// The exact result of `+` (0), `-` (1) or `*` (2) on `y` and `x`.
pub open spec fn arith(op: int, y: i64, x: i64) -> int {
    if op == 0 {
        y + x
    } else if op == 1 {
        y - x
    } else {
        y * x
    }
}

/// `+`, `-`, `*`: replaces the two top values `y`, `x` (`x` on top) by `y op x`; where that
/// overflows, both are dropped and the step fails with an overflow error that names `ch`.
pub open spec fn arith_model(m: Machine, op: int, ch: char) -> Outcome {
    if m.stack.len() < 2 {
        ok(m)
    } else {
        let z = arith(op, second(m.stack), m.stack.last());
        let rest = below_two(m.stack);
        if i64::MIN <= z <= i64::MAX {
            ok(with_stack(m, rest.push(z as i64)))
        } else {
            (with_stack(m, rest), Err(overflow_at(m, ch)))
        }
    }
}

/// Rust's `/` on integers: the quotient rounded toward zero.
pub open spec fn trunc_div(y: int, x: int) -> int {
    if y >= 0 {
        y / x
    } else {
        -((-y) / x)
    }
}

/// Rust's `%` on integers: the remainder that has the sign of `y`.
pub open spec fn trunc_rem(y: int, x: int) -> int {
    if y >= 0 {
        y % x
    } else {
        -((-y) % x)
    }
}

/// The quotient rounded toward negative infinity.
pub open spec fn floor_div(y: int, x: int) -> int {
    if trunc_rem(y, x) != 0 && ((y >= 0) != (x >= 0)) {
        trunc_div(y, x) - 1
    } else {
        trunc_div(y, x)
    }
}

/// The remainder of the floored division: it has the sign of `x`.
pub open spec fn floor_rem(y: int, x: int) -> int {
    if trunc_rem(y, x) != 0 && ((y >= 0) != (x >= 0)) {
        trunc_rem(y, x) + x
    } else {
        trunc_rem(y, x)
    }
}

/// `/`: replaces `y`, `x` by the floored quotient; with fewer than two values or `x == 0`,
/// does nothing.
pub open spec fn div_model(m: Machine) -> Machine {
    if m.stack.len() < 2 || m.stack.last() == 0 {
        m
    } else {
        with_stack(
            m,
            below_two(m.stack).push(floor_div(second(m.stack) as int, m.stack.last() as int) as i64),
        )
    }
}

/// `%`: replaces `y`, `x` by the floored remainder; with fewer than two values or `x == 0`,
/// does nothing.
pub open spec fn rem_model(m: Machine) -> Machine {
    if m.stack.len() < 2 || m.stack.last() == 0 {
        m
    } else {
        with_stack(
            m,
            below_two(m.stack).push(floor_rem(second(m.stack) as int, m.stack.last() as int) as i64),
        )
    }
}

/// `>`: replaces `y`, `x` by 1 if `y > x`, else 0.
pub open spec fn gt_model(m: Machine) -> Machine {
    if m.stack.len() < 2 {
        m
    } else {
        with_stack(
            m,
            below_two(m.stack).push(if second(m.stack) > m.stack.last() { 1i64 } else { 0i64 }),
        )
    }
}

/// `!`: replaces `x` by 1 if it is 0, else 0.
pub open spec fn not_model(m: Machine) -> Machine {
    if m.stack.len() > 0 {
        with_stack(m, m.stack.drop_last().push(if m.stack.last() == 0 { 1i64 } else { 0i64 }))
    } else {
        m
    }
}

/// `D`: pops `x` and turns the direction pointer clockwise `x` times (modulo 4).
pub open spec fn dp_model(m: Machine) -> Machine {
    if m.stack.len() > 0 {
        Machine {
            stack: m.stack.drop_last(),
            dp: ((m.dp + (m.stack.last() & 3) as u8) as u8 & 3u8) as u8,
            ..m
        }
    } else {
        m
    }
}

/// `C`: pops `x` and toggles the codel chooser `x` times (modulo 2).
pub open spec fn cc_model(m: Machine) -> Machine {
    if m.stack.len() > 0 {
        Machine {
            stack: m.stack.drop_last(),
            cc: ((m.cc + (m.stack.last() & 1) as u8) as u8 & 1u8) as u8,
            ..m
        }
    } else {
        m
    }
}

/// `d`: pushes a copy of the top value.
pub open spec fn dup_model(m: Machine) -> Machine {
    if m.stack.len() > 0 {
        with_stack(m, m.stack.push(m.stack.last()))
    } else {
        m
    }
}

/// The sequence `seg` rolled so that its last `k` values come first.
pub open spec fn roll(seg: Seq<i64>, k: int) -> Seq<i64> {
    seg.subrange(seg.len() - k, seg.len() as int) + seg.subrange(0, seg.len() - k)
}

/// What one `r` command adds to the rotation count.
pub open spec fn rotate_cost(y: i64) -> u32 {
    if y > u32::MAX {
        u32::MAX
    } else {
        y as u32
    }
}

/// `r`: with `y`, `x` on top (`x` on top) and `0 < y`, `y + 2 <= len`: drops both, adds `y`
/// (capped to `u32::MAX`, saturating) to the rotation count, and rolls the top `y` values
/// so that the top `x mod y` of them go below the others: that part `seg` of the stack
/// becomes `roll(seg, x mod y)`. Where the count then exceeds the limit (and something was
/// rolled), the step fails.
pub open spec fn rotate_model(m: Machine) -> Outcome {
    let s = m.stack;
    let n = s.len() as int;
    if n < 2 {
        ok(m)
    } else {
        let y = second(s);
        let x = s.last();
        if y <= 0 || y + 2 > n {
            ok(m)
        } else {
            let rest = below_two(s);
            let rs = m.r_sum.saturating_add(rotate_cost(y));
            let k = (x as int) % (y as int);
            if k == 0 {
                ok(Machine { stack: rest, r_sum: rs, ..m })
            } else {
                let base = n - 2 - y;
                let rolled = rest.subrange(0, base) + roll(rest.subrange(base, n - 2), k);
                let m2 = Machine { stack: rolled, r_sum: rs, ..m };
                if rs > m.r_limit {
                    (m2, Err(Error::TooMuchRotate { limit: m.r_limit }))
                } else {
                    ok(m2)
                }
            }
        }
    }
}

/// What the command byte `cmd` of a block of `len` cells does. (All three of `+`, `-` and
/// `*` report an overflow under the name `+`.)
pub open spec fn command_model(m: Machine, cmd: u8, len: usize) -> Outcome {
    if cmd == CMD_INPUT {
        ok(input_model(m))
    } else if cmd == CMD_OUTPUT {
        ok(output_model(m))
    } else if cmd == CMD_PUSH {
        push_model(m, len)
    } else if cmd == CMD_POP {
        ok(pop_model(m))
    } else if cmd == CMD_ADD {
        arith_model(m, 0, '+')
    } else if cmd == CMD_SUB {
        arith_model(m, 1, '+')
    } else if cmd == CMD_MUL {
        arith_model(m, 2, '+')
    } else if cmd == CMD_DIV {
        ok(div_model(m))
    } else if cmd == CMD_REM {
        ok(rem_model(m))
    } else if cmd == CMD_NOT {
        ok(not_model(m))
    } else if cmd == CMD_GT {
        ok(gt_model(m))
    } else if cmd == CMD_DP {
        ok(dp_model(m))
    } else if cmd == CMD_CC {
        ok(cc_model(m))
    } else if cmd == CMD_DUP {
        ok(dup_model(m))
    } else if cmd == CMD_ROTATE {
        rotate_model(m)
    } else {
        (m, Err(Error::Syntax { ch: cmd as char, row: m.row, col: m.col }))
    }
}

/// The block number under the current cell (0 where there is none).
pub open spec fn next_index_of(m: Machine) -> u32 {
    cell_or(m.area, m.row as int, m.col as int, 0u32)
}

/// The block under the current cell.
pub open spec fn next_block_of(m: Machine) -> Option<Block> {
    let i = next_index_of(m);
    if i == 0 || i > m.blocks.len() {
        None
    } else {
        Some(m.blocks[i - 1])
    }
}

/// Looking for a way out of block `b`, from attempt `i` of 8: the way out under `dp` and
/// `cc` if there is one, else the chooser is toggled (after even attempts) or the pointer
/// turned clockwise (after odd ones), and the search goes on.
pub open spec fn seek(b: Block, dp: u8, cc: u8, i: int) -> (Option<(u32, u32)>, u8, u8)
    decreases 8 - i,
{
    if i >= 8 {
        (None, dp, cc)
    } else if b.fronts[dp as int][cc as int] is Some {
        (b.fronts[dp as int][cc as int], dp, cc)
    } else if i % 2 == 1 {
        seek(b, ((dp + 1) as u8 & 3u8) as u8, cc, i + 1)
    } else {
        seek(b, dp, ((cc + 1) as u8 & 1u8) as u8, i + 1)
    }
}

/// Moving on after block `b`'s command: to the found cell (one more step), or, where there
/// is no way out, the program is finished.
pub open spec fn move_model(m: Machine, b: Block) -> Machine {
    let (next, dp, cc) = seek(b, m.dp, m.cc, 0);
    match next {
        Some(p) => Machine { row: p.0, col: p.1, dp, cc, steps: (m.steps + 1) as u32, ..m },
        None => Machine { dp, cc, finished: true, ..m },
    }
}

/// The character that the error for a missing block names.
pub open spec fn missing_block_char() -> char {
    '뷁'
}

/// One step, before a failure marks the program finished: the step limit, the block under
/// the current cell, its command, and the move.
pub open spec fn inner_model(m: Machine) -> Outcome {
    if m.steps > m.timeout_limit {
        (m, Err(Error::Timeout { limit: m.timeout_limit }))
    } else {
        match next_block_of(m) {
            None => (m, Err(Error::Syntax { ch: missing_block_char(), row: m.row, col: m.col })),
            Some(b) => {
                let (m1, r) = command_model(m, b.cmd, b.len);
                match r {
                    Err(e) => (m1, Err(e)),
                    Ok(_) => ok(move_model(m1, b)),
                }
            },
        }
    }
}

/// One step of the program: a failing step also marks it finished.
pub open spec fn step_model(m: Machine) -> Outcome {
    let (m1, r) = inner_model(m);
    match r {
        Err(e) => (Machine { finished: true, ..m1 }, Err(e)),
        Ok(_) => (m1, Ok(())),
    }
}

/// The `D` or `C` command at hand would overflow the byte that holds the direction pointer
/// or the codel chooser.
pub open spec fn turn_overflows(m: Machine, cmd: u8) -> bool {
    &&& m.stack.len() > 0
    &&& {
        ||| cmd == CMD_DP && m.dp + (m.stack.last() & 3) > u8::MAX
        ||| cmd == CMD_CC && m.cc + (m.stack.last() & 1) > u8::MAX
    }
}

/// The next step would abort the program: a division or remainder of `i64::MIN` by -1, a
/// `D` or `C` that overflows its byte, a search for the way out with the direction pointer
/// or codel chooser out of range, or a move past `u32::MAX` steps.
pub open spec fn step_panics(m: Machine) -> bool {
    &&& m.steps <= m.timeout_limit
    &&& next_block_of(m) matches Some(b) && {
        let c = command_model(m, b.cmd, b.len);
        ||| divides_min_by_minus_one(m, b.cmd)
        ||| turn_overflows(m, b.cmd)
        ||| c.1 is Ok && !wf(c.0)
        ||| c.1 is Ok && wf(c.0) && seek(b, c.0.dp, c.0.cc, 0).0 is Some && m.steps == u32::MAX
    }
}

/// A command keeps the direction pointer and the codel chooser in range.
pub proof fn lemma_command_keeps_wf(m: Machine, cmd: u8, len: usize)
    requires
        wf(m),
    ensures
        wf(command_model(m, cmd, len).0),
{
    if cmd == CMD_DP && m.stack.len() > 0 {
        let v = (m.dp + (m.stack.last() & 3) as u8) as u8;
        assert(v & 3u8 < 4) by (bit_vector);
    }
    if cmd == CMD_CC && m.stack.len() > 0 {
        let v = (m.cc + (m.stack.last() & 1) as u8) as u8;
        assert(v & 1u8 < 2) by (bit_vector);
    }
}

/// How far a machine is from its step limit (the run's termination measure).
pub open spec fn steps_left(m: Machine) -> nat {
    if m.steps <= m.timeout_limit + 1 {
        (m.timeout_limit + 2 - m.steps) as nat
    } else {
        0
    }
}

/// Runs the program from `m` until it is finished: the final state and how it ended. (Where
/// a step would abort the program, see `run_panics`, the run is cut short there.)
pub open spec fn run_model(m: Machine) -> Outcome
    decreases steps_left(m), if m.finished { 0int } else { 1int },
{
    if m.finished {
        ok(m)
    } else if step_panics(m) {
        ok(m)
    } else {
        let (m1, r) = step_model(m);
        if r is Err {
            (m1, r)
        } else {
            proof {
                lemma_step_progress(m);
            }
            run_model(m1)
        }
    }
}

/// Some step of the run from `m` would abort the program.
pub open spec fn run_panics(m: Machine) -> bool
    decreases steps_left(m), if m.finished { 0int } else { 1int },
{
    if m.finished {
        false
    } else if step_panics(m) {
        true
    } else {
        let (m1, r) = step_model(m);
        if r is Err {
            false
        } else {
            proof {
                lemma_step_progress(m);
            }
            run_panics(m1)
        }
    }
}

/// A successful step either finishes the program or moves one step further.
pub proof fn lemma_step_progress(m: Machine)
    requires
        !m.finished,
        !step_panics(m),
        step_model(m).1 is Ok,
    ensures
        step_model(m).0.finished || (step_model(m).0.steps == m.steps + 1 && m.steps
            <= m.timeout_limit),
        step_model(m).0.timeout_limit == m.timeout_limit,
{
}


/// The division or remainder command at hand would divide `i64::MIN` by -1.
pub open spec fn divides_min_by_minus_one(m: Machine, cmd: u8) -> bool {
    (cmd == CMD_DIV || cmd == CMD_REM) && m.stack.len() >= 2 && m.stack.last() == -1 && second(
        m.stack,
    ) == i64::MIN
}

/// A running program: the code, the input still to read and the output written so far,
/// the value stack, the current cell, the direction pointer and codel chooser, and the
/// counters and limits for steps and rotations.
pub struct RunState {
    pub input: Vec<u8>,
    pub input_pos: usize,
    pub output: Vec<u8>,
    pub stack: Vec<i64>,
    pub code: Code,
    pub row: u32,
    pub col: u32,
    pub dp: u8,
    pub cc: u8,
    pub timeout_limit: u32,
    pub steps: u32,
    pub r_limit: u32,
    pub r_sum: u32,
    pub finished: bool,
}

impl View for RunState {
    type V = Machine;

    open spec fn view(&self) -> Machine {
        Machine {
            area: rows_of(self.code.area_indices),
            blocks: self.code.blocks@,
            input: self.input@,
            input_pos: self.input_pos as int,
            output: self.output@,
            stack: self.stack@,
            row: self.row,
            col: self.col,
            dp: self.dp,
            cc: self.cc,
            timeout_limit: self.timeout_limit,
            steps: self.steps,
            r_limit: self.r_limit,
            r_sum: self.r_sum,
            finished: self.finished,
        }
    }
}

/// What a command does depends on nothing of the code.
proof fn lemma_command_ignores_code(m: Machine, m2: Machine, cmd: u8, len: usize)
    requires
        m2 == (Machine { area: m2.area, blocks: m2.blocks, ..m }),
    ensures
        command_model(m2, cmd, len).1 == command_model(m, cmd, len).1,
        command_model(m2, cmd, len).0.dp == command_model(m, cmd, len).0.dp,
        command_model(m2, cmd, len).0.cc == command_model(m, cmd, len).0.cc,
{
}

/// Rolls the `y` values of `stack` from `base` on so that those from `base + d` on come
/// first.
fn roll_top(stack: &mut Vec<i64>, base: usize, d: usize, y: usize)
    requires
        d <= y,
        base + y == old(stack)@.len(),
    ensures
        final(stack)@ == old(stack)@.subrange(0, base as int) + old(stack)@.subrange(
            base + d,
            base + y,
        ) + old(stack)@.subrange(base as int, base + d),
{
    let ghost s0 = stack@;
    let total = stack.len();
    let mut rolled: Vec<i64> = Vec::new();
    let mut i = d;
    while i < y
        invariant
            total == s0.len(),
            stack@ == s0,
            d <= i <= y,
            base + y == s0.len(),
            rolled@ == s0.subrange(base + d, base + i),
        decreases y - i,
    {
        rolled.push(stack[i + base]);
        proof {
            assert(s0.subrange(base + d, base + i + 1) =~= s0.subrange(base + d, base + i).push(
                s0[base + i],
            ));
        }
        i += 1;
    }
    let mut i: usize = 0;
    while i < d
        invariant
            total == s0.len(),
            stack@ == s0,
            d <= y,
            i <= d,
            base + y == s0.len(),
            rolled@ == s0.subrange(base + d, base + y) + s0.subrange(base as int, base + i),
        decreases d - i,
    {
        rolled.push(stack[i + base]);
        proof {
            assert(s0.subrange(base + d, base + y) + s0.subrange(base as int, base + i + 1) =~= (
            s0.subrange(base + d, base + y) + s0.subrange(base as int, base + i)).push(
                s0[base + i],
            ));
        }
        i += 1;
    }
    let ghost target = rolled@;
    let mut i: usize = 0;
    while i < y
        invariant
            rolled@ == target,
            total == s0.len(),
            target.len() == y,
            base + y == s0.len(),
            i <= y,
            stack@.len() == s0.len(),
            forall|j: int| 0 <= j < base ==> #[trigger] stack@[j] == s0[j],
            forall|j: int| 0 <= j < i ==> #[trigger] stack@[base + j] == target[j],
        decreases y - i,
    {
        stack.set(base + i, rolled[i]);
        i += 1;
    }
    proof {
        let want = s0.subrange(0, base as int) + target;
        assert forall|j: int| 0 <= j < stack@.len() implies #[trigger] stack@[j] == want[j] by {
            if j >= base {
                assert(stack@[base + (j - base)] == target[j - base]);
            }
        }
        assert(stack@ =~= want);
        assert(want =~= s0.subrange(0, base as int) + s0.subrange(base + d, base + y) + s0.subrange(
            base as int,
            base + d,
        ));
    }
}

/// Looks for the way out of `block`, starting from `dp` and `cc` (see `seek`).
fn find_exit(block: &Block, dp0: u8, cc0: u8) -> (r: (Option<(u32, u32)>, u8, u8))
    requires
        dp0 < 4,
        cc0 < 2,
    ensures
        r == seek(*block, dp0, cc0, 0),
        r.1 < 4,
        r.2 < 2,
{
    let mut dp = dp0;
    let mut cc = cc0;
    let mut i: usize = 0;
    while i < 8
        invariant
            seek(*block, dp0, cc0, 0) == seek(*block, dp, cc, i as int),
            i <= 8,
            dp < 4,
            cc < 2,
        decreases 8 - i,
    {
        let front = block.fronts[dp as usize][cc as usize];
        if front.is_some() {
            return (front, dp, cc);
        }
        if i % 2 == 1 {
            let v: u8 = dp + 1;
            assert(v & 3 < 4) by (bit_vector);
            dp = v & 3;
        } else {
            let v: u8 = cc + 1;
            assert(v & 1 < 2) by (bit_vector);
            cc = v & 1;
        }
        i += 1;
    }
    (None, dp, cc)
}

impl RunState {
    fn new(code: Code, input: Vec<u8>, output: Vec<u8>, timeout_limit: u32, r_limit: u32) -> (s: Self)
        ensures
            s.code == code,
            s.input == input,
            s.output == output,
            s.input_pos == 0,
            s.stack@ == Seq::<i64>::empty(),
            s.row == 0,
            s.col == 0,
            s.dp == 0,
            s.cc == 0,
            s.timeout_limit == timeout_limit,
            s.steps == 0,
            s.r_limit == r_limit,
            s.r_sum == 0,
            !s.finished,
    {
        RunState {
            input,
            input_pos: 0,
            output,
            stack: Vec::new(),
            code,
            row: 0,
            col: 0,
            dp: 0,
            cc: 0,
            timeout_limit,
            steps: 0,
            r_limit,
            r_sum: 0,
            finished: false,
        }
    }

    fn cmd_input(&mut self)
        ensures
            final(self)@ == input_model(old(self)@),
    {
        if self.input_pos < self.input.len() {
            let ch = self.input[self.input_pos];
            self.stack.push(ch as i64);
            self.input_pos += 1;
        }
    }

    fn cmd_output(&mut self)
        ensures
            final(self)@ == output_model(old(self)@),
    {
        if let Some(x) = self.stack.pop() {
            self.output.push((x & 255) as u8);
        }
    }

    fn overflow_error(&self, ch: char) -> (e: Error)
        ensures
            e == overflow_at(self@, ch),
    {
        Error::Overflow { ch, row: self.row, col: self.col }
    }

    fn cmd_push(&mut self, len: usize) -> (res: Result<(), Error>)
        ensures
            (final(self)@, res) == push_model(old(self)@, len),
    {
        if (len as u64) > (i64::MAX as u64) {
            return Err(self.overflow_error('P'));
        }
        self.stack.push(len as i64);
        Ok(())
    }

    fn cmd_pop(&mut self)
        ensures
            final(self)@ == pop_model(old(self)@),
    {
        self.stack.pop();
    }

    /// Takes `y` and `x` (on top) and pushes `y + x` (`kind` 0), `y - x` (1) or `y * x` (2);
    /// an overflow is reported under the name `op`.
    fn two(&mut self, op: char, kind: u8) -> (res: Result<(), Error>)
        requires
            kind < 3,
        ensures
            (final(self)@, res) == arith_model(old(self)@, kind as int, op),
    {
        let n = self.stack.len();
        if n < 2 {
            return Ok(());
        }
        let y = self.stack[n - 2];
        let x = self.stack[n - 1];
        self.stack.pop();
        self.stack.pop();
        proof {
            assert(self.stack@ =~= below_two(old(self)@.stack));
        }
        let r = if kind == 0 {
            y.checked_add(x)
        } else if kind == 1 {
            y.checked_sub(x)
        } else {
            y.checked_mul(x)
        };
        match r {
            Some(z) => {
                self.stack.push(z);
                Ok(())
            },
            None => Err(self.overflow_error(op)),
        }
    }

    fn cmd_add(&mut self) -> (res: Result<(), Error>)
        ensures
            (final(self)@, res) == arith_model(old(self)@, 0, '+'),
    {
        self.two('+', 0)
    }

    fn cmd_sub(&mut self) -> (res: Result<(), Error>)
        ensures
            (final(self)@, res) == arith_model(old(self)@, 1, '+'),
    {
        self.two('+', 1)
    }

    fn cmd_mul(&mut self) -> (res: Result<(), Error>)
        ensures
            (final(self)@, res) == arith_model(old(self)@, 2, '+'),
    {
        self.two('+', 2)
    }

    fn cmd_div(&mut self) -> (res: Result<(), Error>)
        requires
            !divides_min_by_minus_one(old(self)@, CMD_DIV),
        ensures
            final(self)@ == div_model(old(self)@),
            res == Ok::<(), Error>(()),
    {
        let n = self.stack.len();
        if n < 2 {
            return Ok(());
        }
        let y = self.stack[n - 2];
        let x = self.stack[n - 1];
        if x == 0 {
            return Ok(());
        }
        self.stack.pop();
        self.stack.pop();
        proof {
            assert(self.stack@ =~= below_two(old(self)@.stack));
        }
        proof {
            lemma_trunc_div_range(y as int, x as int);
        }
        let mut div = y / x;
        let rem = y % x;
        assert(div == trunc_div(y as int, x as int));
        assert(rem == trunc_rem(y as int, x as int));
        if rem != 0 && ((y >= 0) != (x >= 0)) {
            proof {
                lemma_trunc_div_bound(y as int, x as int);
            }
            div -= 1;
        }
        self.stack.push(div);
        Ok(())
    }

    fn cmd_rem(&mut self) -> (res: Result<(), Error>)
        requires
            !divides_min_by_minus_one(old(self)@, CMD_REM),
        ensures
            final(self)@ == rem_model(old(self)@),
            res == Ok::<(), Error>(()),
    {
        let n = self.stack.len();
        if n < 2 {
            return Ok(());
        }
        let y = self.stack[n - 2];
        let x = self.stack[n - 1];
        if x == 0 {
            return Ok(());
        }
        self.stack.pop();
        self.stack.pop();
        proof {
            assert(self.stack@ =~= below_two(old(self)@.stack));
        }
        let mut rem = y % x;
        if rem != 0 && ((y >= 0) != (x >= 0)) {
            rem += x;
        }
        self.stack.push(rem);
        Ok(())
    }

    fn cmd_gt(&mut self)
        ensures
            final(self)@ == gt_model(old(self)@),
    {
        let n = self.stack.len();
        if n < 2 {
            return ;
        }
        let y = self.stack[n - 2];
        let x = self.stack[n - 1];
        self.stack.pop();
        self.stack.pop();
        proof {
            assert(self.stack@ =~= below_two(old(self)@.stack));
        }
        self.stack.push(
            if y > x {
                1
            } else {
                0
            },
        );
    }

    fn cmd_not(&mut self)
        ensures
            final(self)@ == not_model(old(self)@),
    {
        if let Some(x) = self.stack.pop() {
            self.stack.push(
                if x == 0 {
                    1
                } else {
                    0
                },
            );
        }
    }

    fn cmd_dp(&mut self)
        requires
            !turn_overflows(old(self)@, CMD_DP),
        ensures
            final(self)@ == dp_model(old(self)@),
    {
        if let Some(x) = self.stack.pop() {
            let t = (x & 3) as u8;
            assert(0 <= (x & 3) <= 3) by (bit_vector);
            let v = self.dp + t;
            self.dp = v & 3;
        }
    }

    fn cmd_cc(&mut self)
        requires
            !turn_overflows(old(self)@, CMD_CC),
        ensures
            final(self)@ == cc_model(old(self)@),
    {
        if let Some(x) = self.stack.pop() {
            let t = (x & 1) as u8;
            assert(0 <= (x & 1) <= 1) by (bit_vector);
            let v = self.cc + t;
            self.cc = v & 1;
        }
    }

    fn cmd_dup(&mut self)
        ensures
            final(self)@ == dup_model(old(self)@),
    {
        let n = self.stack.len();
        if n > 0 {
            let x = self.stack[n - 1];
            self.stack.push(x);
        }
    }

    fn cmd_rotate(&mut self) -> (res: Result<(), Error>)
        ensures
            (final(self)@, res) == rotate_model(old(self)@),
    {
        let n = self.stack.len();
        if n < 2 {
            return Ok(());
        }
        let y = self.stack[n - 2];
        let x = self.stack[n - 1];
        if y <= 0 || (y as u64) + 2 > (n as u64) {
            return Ok(());
        }
        self.stack.pop();
        self.stack.pop();
        proof {
            assert(self.stack@ =~= below_two(old(self)@.stack));
        }
        let cost: u32 = if y <= u32::MAX as i64 {
            y as u32
        } else {
            u32::MAX
        };
        self.r_sum = self.r_sum.saturating_add(cost);
        let k = match x.checked_rem_euclid(y) {
            Some(v) => v,
            None => {
                return Ok(());
            },
        };
        if k == 0 {
            return Ok(());
        }
        let yy = y as usize;
        let d = yy - k as usize;
        let base = self.stack.len() - yy;
        roll_top(&mut self.stack, base, d, yy);
        proof {
            let rest = below_two(old(self)@.stack);
            assert(self.stack@ =~= rest.subrange(0, base as int) + roll(
                rest.subrange(base as int, rest.len() as int),
                k as int,
            ));
        }
        if self.r_sum > self.r_limit {
            Err(Error::TooMuchRotate { limit: self.r_limit })
        } else {
            Ok(())
        }
    }

    /// The number of the block under the current cell (0 where there is none).
    pub fn next_block_index(&self) -> (i: u32)
        ensures
            i == next_index_of(self@),
    {
        get_matrix(&self.code.area_indices, self.row, self.col, 0)
    }

    /// The block under the current cell.
    pub fn next_block(&self) -> (b: Option<&Block>)
        ensures
            match b {
                Some(r) => next_block_of(self@) == Some(*r),
                None => next_block_of(self@) is None,
            },
    {
        let index = self.next_block_index() as usize;
        if index == 0 {
            return None;
        }
        if index - 1 < self.code.blocks.len() {
            Some(&self.code.blocks[index - 1])
        } else {
            None
        }
    }

    /// Carries out the command byte `cmd` of a block of `len` cells.
    fn run_command(&mut self, cmd: u8, len: usize) -> (res: Result<(), Error>)
        requires
            !divides_min_by_minus_one(old(self)@, cmd),
            !turn_overflows(old(self)@, cmd),
        ensures
            (final(self)@, res) == command_model(old(self)@, cmd, len),
    {
        if cmd == CMD_INPUT {
            self.cmd_input();
        } else if cmd == CMD_OUTPUT {
            self.cmd_output();
        } else if cmd == CMD_PUSH {
            return self.cmd_push(len);
        } else if cmd == CMD_POP {
            self.cmd_pop();
        } else if cmd == CMD_ADD {
            return self.cmd_add();
        } else if cmd == CMD_SUB {
            return self.cmd_sub();
        } else if cmd == CMD_MUL {
            return self.cmd_mul();
        } else if cmd == CMD_DIV {
            return self.cmd_div();
        } else if cmd == CMD_REM {
            return self.cmd_rem();
        } else if cmd == CMD_NOT {
            self.cmd_not();
        } else if cmd == CMD_GT {
            self.cmd_gt();
        } else if cmd == CMD_DP {
            self.cmd_dp();
        } else if cmd == CMD_CC {
            self.cmd_cc();
        } else if cmd == CMD_DUP {
            self.cmd_dup();
        } else if cmd == CMD_ROTATE {
            return self.cmd_rotate();
        } else {
            return Err(Error::Syntax { ch: cmd as char, row: self.row, col: self.col });
        }
        Ok(())
    }

    fn step_inner(&mut self) -> (res: Result<(), Error>)
        requires
            !step_panics(old(self)@),
        ensures
            (final(self)@, res) == inner_model(old(self)@),
            wf(old(self)@) ==> wf(final(self)@),
            res is Ok ==> wf(final(self)@),
    {
        if self.steps > self.timeout_limit {
            return Err(Error::Timeout { limit: self.timeout_limit });
        }
        let block = match self.next_block() {
            Some(b) => *b,
            None => {
                return Err(Error::Syntax { ch: '뷁', row: self.row, col: self.col });
            },
        };
        let ghost m0 = self@;
        match self.run_command(block.cmd, block.len) {
            Ok(()) => {},
            Err(e) => {
                return Err(e);
            },
        }
        let (next, dp, cc) = find_exit(&block, self.dp, self.cc);
        self.dp = dp;
        self.cc = cc;
        match next {
            Some((r, c)) => {
                self.row = r;
                self.col = c;
                self.steps += 1;
            },
            None => {
                self.finished = true;
            },
        }
        Ok(())
    }

    /// A copy of everything but the code, which commands do not read.
    fn copy_without_code(&self) -> (s: RunState)
        ensures
            s@ == (Machine { area: Seq::<Seq<u32>>::empty(), blocks: Seq::<Block>::empty(), ..self@ }),
    {
        let s = RunState {
            input: vstd::slice::slice_to_vec(self.input.as_slice()),
            input_pos: self.input_pos,
            output: vstd::slice::slice_to_vec(self.output.as_slice()),
            stack: vstd::slice::slice_to_vec(self.stack.as_slice()),
            code: Code { area_indices: Vec::new(), blocks: Vec::new() },
            row: self.row,
            col: self.col,
            dp: self.dp,
            cc: self.cc,
            timeout_limit: self.timeout_limit,
            steps: self.steps,
            r_limit: self.r_limit,
            r_sum: self.r_sum,
            finished: self.finished,
        };
        proof {
            assert(rows_of(s.code.area_indices) =~= Seq::<Seq<u32>>::empty());
        }
        s
    }

    /// Whether the next step would abort the program (see `step_panics`).
    pub fn step_would_abort(&self) -> (b: bool)
        ensures
            b == step_panics(self@),
    {
        if self.steps > self.timeout_limit {
            return false;
        }
        let block = match self.next_block() {
            Some(b) => *b,
            None => {
                return false;
            },
        };
        let n = self.stack.len();
        if (block.cmd == CMD_DIV || block.cmd == CMD_REM) && n >= 2 && self.stack[n - 1] == -1
            && self.stack[n - 2] == i64::MIN {
            return true;
        }
        if n > 0 {
            let x = self.stack[n - 1];
            assert(0 <= (x & 3) <= 3 && 0 <= (x & 1) <= 1) by (bit_vector);
            if block.cmd == CMD_DP && (self.dp as i64) + (x & 3) > 255 {
                return true;
            }
            if block.cmd == CMD_CC && (self.cc as i64) + (x & 1) > 255 {
                return true;
            }
        }
        if self.dp < 4 && self.cc < 2 && self.steps < u32::MAX {
            proof {
                lemma_command_keeps_wf(self@, block.cmd, block.len);
            }
            return false;
        }
        let mut scratch = self.copy_without_code();
        proof {
            lemma_command_ignores_code(self@, scratch@, block.cmd, block.len);
        }
        match scratch.run_command(block.cmd, block.len) {
            Err(_) => false,
            Ok(()) => {
                if scratch.dp >= 4 || scratch.cc >= 2 {
                    true
                } else {
                    find_exit(&block, scratch.dp, scratch.cc).0.is_some() && self.steps == u32::MAX
                }
            },
        }
    }

    /// Carries out one step of the program: the command of the block under the current cell,
    /// then the move to the next block. A step that fails marks the program finished.
    pub fn step(&mut self) -> (res: Result<(), Error>)
        requires
            !step_panics(old(self)@),
        ensures
            (final(self)@, res) == step_model(old(self)@),
            wf(old(self)@) ==> wf(final(self)@),
            res is Ok ==> wf(final(self)@),
    {
        let res = self.step_inner();
        if res.is_err() {
            self.finished = true;
        }
        res
    }
}

/// Rust's `/` on 64-bit integers stays in range, except for `i64::MIN / -1`.
pub proof fn lemma_trunc_div_range(y: int, x: int)
    requires
        i64::MIN <= y <= i64::MAX,
        i64::MIN <= x <= i64::MAX,
        x != 0,
        !(y == i64::MIN && x == -1),
    ensures
        i64::MIN <= trunc_div(y, x) <= i64::MAX,
{
    if y >= 0 {
        if x > 0 {
            assert(0 <= y / x <= y) by (nonlinear_arith)
                requires
                    y >= 0,
                    x > 0,
            ;
        } else {
            assert(-y <= y / x <= 0) by (nonlinear_arith)
                requires
                    y >= 0,
                    x < 0,
            ;
        }
    } else {
        if x > 0 {
            assert(0 <= (-y) / x <= -y) by (nonlinear_arith)
                requires
                    -y > 0,
                    x > 0,
            ;
        } else if x == -1 {
            assert((-y) / x == y);
        } else {
            assert(-((-y) / 2) <= (-y) / x <= 0) by (nonlinear_arith)
                requires
                    -y > 0,
                    x <= -2,
            ;
        }
    }
}

/// Where `x` does not divide `y` evenly and their signs differ, the quotient rounded toward
/// zero is above `i64::MIN`.
pub proof fn lemma_trunc_div_bound(y: int, x: int)
    requires
        i64::MIN <= y <= i64::MAX,
        i64::MIN <= x <= i64::MAX,
        x != 0,
        trunc_rem(y, x) != 0,
        (y >= 0) != (x >= 0),
    ensures
        trunc_div(y, x) > i64::MIN,
{
    if y >= 0 {
        assert(y / x >= -y) by (nonlinear_arith)
            requires
                y >= 0,
                x < 0,
        ;
    } else {
        assert(x != 1);
        assert((-y) / x <= (-y) / 2) by (nonlinear_arith)
            requires
                -y > 0,
                x >= 2,
        ;
    }
}


/// The limit on code size, steps and rotations that `run` uses.
pub const RUN_LIMIT: u32 = 1_000_000;

/// `m` is the machine at the start of a run of the grid `g`.
pub open spec fn is_initial(
    m: Machine,
    g: Seq<Seq<u8>>,
    input: Seq<u8>,
    output: Seq<u8>,
    timeout_limit: u32,
    r_limit: u32,
) -> bool {
    &&& is_parse_of(g, m.area, m.blocks)
    &&& m.input == input
    &&& m.input_pos == 0
    &&& m.output == output
    &&& m.stack == Seq::<i64>::empty()
    &&& m.row == 0
    &&& m.col == 0
    &&& m.dp == 0
    &&& m.cc == 0
    &&& m.timeout_limit == timeout_limit
    &&& m.steps == 0
    &&& m.r_limit == r_limit
    &&& m.r_sum == 0
    &&& !m.finished
}

/// The machine `m` with the input read from position `pos` on.
pub open spec fn start_at(m: Machine, pos: int) -> Machine {
    Machine { input_pos: pos, ..m }
}

/// No run of the program text `s` on `input`, read from position `pos` on, with `run`'s
/// limits would abort.
pub open spec fn run_never_aborts(s: Seq<char>, input: Seq<u8>, pos: int) -> bool {
    match raw_code_of(s, RUN_LIMIT) {
        Err(_) => true,
        Ok(g) => forall|m: Machine|
            #[trigger] is_initial(m, g, input, Seq::<u8>::empty(), RUN_LIMIT, RUN_LIMIT) ==> !run_panics(
                start_at(m, pos),
            ),
    }
}

impl RunState {
    /// Loads a program: reads the text into a grid (see `raw_code_of`), splits it into
    /// blocks (see `is_parse_of`), and starts at the top left cell heading right.
    pub fn from_source(
        source: &str,
        input: Vec<u8>,
        output: Vec<u8>,
        code_limit: u32,
        timeout_limit: u32,
        r_limit: u32,
    ) -> (res: Result<RunState, Error>)
        ensures
            match raw_code_of(source@, code_limit) {
                Err(e) => res == Err::<RunState, Error>(e),
                Ok(g) => res matches Ok(s) && is_initial(
                    s@,
                    g,
                    input@,
                    output@,
                    timeout_limit,
                    r_limit,
                ),
            },
    {
        let raw = match parse_raw_code(source, code_limit) {
            Ok(r) => r,
            Err(e) => {
                return Err(e);
            },
        };
        proof {
            lemma_raw_code_fits(source@, code_limit);
        }
        let code = parse(&raw);
        Ok(RunState::new(code, input, output, timeout_limit, r_limit))
    }
}

/// Steps `state` until the program finishes, or until a step would abort it (then `None`).
fn run_state(state: &mut RunState) -> (res: Option<Result<(), Error>>)
    requires
        wf(old(state)@),
    ensures
        final(state)@ == run_model(old(state)@).0,
        if run_panics(old(state)@) {
            res is None
        } else {
            res == Some(run_model(old(state)@).1)
        },
{
    let ghost m0 = state@;
    while !state.finished
        invariant
            m0 == old(state)@,
            run_model(m0) == run_model(state@),
            run_panics(m0) == run_panics(state@),
            wf(state@),
        decreases steps_left(state@), if state.finished { 0int } else { 1int },
    {
        if state.step_would_abort() {
            return None;
        }
        let ghost before = state@;
        match state.step() {
            Ok(()) => {
                proof {
                    lemma_step_progress(before);
                }
            },
            Err(e) => {
                proof {
                    assert(run_model(before) == (state@, Err::<(), Error>(e)));
                }
                return Some(Err(e));
            },
        }
    }
    Some(Ok(()))
}

/// What a run of the grid `g` on `input`, read from position `pos` on, with `run`'s limits
/// gives: `res` is `None` where a step would abort the program, else how the run ended;
/// `after` is the output `before` followed by what the program wrote, and `pos_after` the
/// position just past the last input byte read.
pub open spec fn run_outcome(
    g: Seq<Seq<u8>>,
    input: Seq<u8>,
    pos: int,
    res: Option<Result<(), Error>>,
    before: Seq<u8>,
    after: Seq<u8>,
    pos_after: int,
) -> bool {
    &&& exists|m: Machine| #[trigger] is_initial(m, g, input, Seq::<u8>::empty(), RUN_LIMIT, RUN_LIMIT)
    &&& forall|m: Machine|
        #[trigger] is_initial(m, g, input, Seq::<u8>::empty(), RUN_LIMIT, RUN_LIMIT) ==> {
            let f = run_model(start_at(m, pos));
            &&& if run_panics(start_at(m, pos)) {
                res is None
            } else {
                res == Some(f.1)
            }
            &&& after == before + f.0.output
            &&& pos_after == f.0.input_pos
        }
}

/// Runs a program until it finishes, with limits of a million cells, steps and rotated
/// values. It reads `input` from position `*input_pos` on and leaves `*input_pos` just past
/// the last byte it read; it appends what it writes to `output`, also when it fails. Gives
/// `None` where a step would abort the program (see `step_panics`), having appended what
/// was written up to that step.
pub fn run_checked(source: &str, input: &[u8], input_pos: &mut usize, output: &mut Vec<u8>) -> (res: Option<
    Result<(), Error>,
>)
    ensures
        match raw_code_of(source@, RUN_LIMIT) {
            Err(e) => res == Some(Err::<(), Error>(e)) && final(output)@ == old(output)@
                && *final(input_pos) == *old(input_pos),
            Ok(g) => run_outcome(
                g,
                input@,
                *old(input_pos) as int,
                res,
                old(output)@,
                final(output)@,
                *final(input_pos) as int,
            ),
        },
{
    let mut state = match RunState::from_source(
        source,
        vstd::slice::slice_to_vec(input),
        Vec::new(),
        RUN_LIMIT,
        RUN_LIMIT,
        RUN_LIMIT,
    ) {
        Ok(s) => s,
        Err(e) => {
            return Some(Err(e));
        },
    };
    let ghost m0 = state@;
    state.input_pos = *input_pos;
    let ghost p0 = *input_pos as int;
    proof {
        assert(state@ == start_at(m0, p0));
    }
    let res = run_state(&mut state);
    output.append(&mut state.output);
    *input_pos = state.input_pos;
    proof {
        let g = raw_code_of(source@, RUN_LIMIT)->Ok_0;
        assert(is_initial(m0, g, input@, Seq::<u8>::empty(), RUN_LIMIT, RUN_LIMIT));
        assert forall|m: Machine|
            #[trigger] is_initial(m, g, input@, Seq::<u8>::empty(), RUN_LIMIT, RUN_LIMIT) implies {
            let f = run_model(start_at(m, p0));
            &&& if run_panics(start_at(m, p0)) {
                res is None
            } else {
                res == Some(f.1)
            }
            &&& output@ == old(output)@ + f.0.output
            &&& *input_pos as int == f.0.input_pos
        } by {
            crate::laws::law_initial_unique(m, m0, g, input@, Seq::<u8>::empty(), RUN_LIMIT, RUN_LIMIT);
        }
    }
    res
}

/// Runs a program until it finishes, with limits of a million cells, steps and rotated
/// values. It reads `input` from position `*input_pos` on and leaves `*input_pos` just past
/// the last byte it read; it appends what it writes to `output`, also when it fails.
pub fn run(source: &str, input: &[u8], input_pos: &mut usize, output: &mut Vec<u8>) -> (res: Result<
    (),
    Error,
>)
    requires
        run_never_aborts(source@, input@, *old(input_pos) as int),
    ensures
        match raw_code_of(source@, RUN_LIMIT) {
            Err(e) => res == Err::<(), Error>(e) && final(output)@ == old(output)@
                && *final(input_pos) == *old(input_pos),
            Ok(g) => run_outcome(
                g,
                input@,
                *old(input_pos) as int,
                Some(res),
                old(output)@,
                final(output)@,
                *final(input_pos) as int,
            ),
        },
{
    let ghost p0 = *input_pos as int;
    match run_checked(source, input, input_pos, output) {
        Some(r) => r,
        None => {
            proof {
                let g = raw_code_of(source@, RUN_LIMIT)->Ok_0;
                let m = choose|m: Machine|
                    #[trigger] is_initial(m, g, input@, Seq::<u8>::empty(), RUN_LIMIT, RUN_LIMIT);
                assert(!run_panics(start_at(m, p0)));
            }
            Ok(())
        },
    }
}

} // verus!
