//! A program under step-by-step execution, as an interactive front end drives it.

use vstd::prelude::*;
use vstd::utf8::{valid_utf8, decode_utf8};
use crate::error::{Error, message_of};
use crate::grid::rows_of;
use crate::code::Block;
use crate::source::raw_code_of;
use crate::machine::{
    RunState, Machine, wf, step_panics, step_model, next_index_of, next_block_of, is_initial,
    RUN_LIMIT,
};

verus! {

/// What `String::from_utf8_lossy` makes of `bytes`.
pub uninterp spec fn utf8_lossy(bytes: Seq<u8>) -> Seq<char>;

/// Calls `String::from_utf8_lossy`: the text of `bytes`, where each invalid sequence
/// becomes U+FFFD; the result is named by `utf8_lossy`, and bytes that are valid UTF-8 give
/// the text they encode.
#[verifier::external_body]
fn text_of_bytes(bytes: &[u8]) -> (s: String)
    ensures
        s@ == utf8_lossy(bytes@),
        valid_utf8(bytes@) ==> s@ == decode_utf8(bytes@),
{
    String::from_utf8_lossy(bytes).into_owned()
}

/// Each row's length followed by its cells, row after row.
pub open spec fn flatten_rows(a: Seq<Seq<u32>>) -> Seq<u32>
    decreases a.len(),
{
    if a.len() == 0 {
        Seq::<u32>::empty()
    } else {
        flatten_rows(a.drop_last()) + seq![a.last().len() as u32] + a.last()
    }
}

/// The message that a step answers with: empty where it went well.
pub open spec fn step_message(r: Result<(), Error>) -> Seq<u8> {
    match r {
        Ok(_) => Seq::<u8>::empty(),
        Err(e) => message_of(e),
    }
}

/// A running program behind an interactive front end, with a million cells, steps and
/// rotated values as limits.
pub struct State(pub RunState);

impl State {
    /// The direction pointer.
    pub fn dp(&self) -> (v: u8)
        ensures
            v == self.0.dp,
    {
        self.0.dp
    }

    /// The codel chooser.
    pub fn cc(&self) -> (v: u8)
        ensures
            v == self.0.cc,
    {
        self.0.cc
    }

    /// The step limit.
    pub fn timeout_limit(&self) -> (v: u32)
        ensures
            v == self.0.timeout_limit,
    {
        self.0.timeout_limit
    }

    /// The number of moves made.
    pub fn steps(&self) -> (v: u32)
        ensures
            v == self.0.steps,
    {
        self.0.steps
    }

    /// The rotation limit.
    pub fn r_limit(&self) -> (v: u32)
        ensures
            v == self.0.r_limit,
    {
        self.0.r_limit
    }

    /// The number of values rotated so far.
    pub fn r_sum(&self) -> (v: u32)
        ensures
            v == self.0.r_sum,
    {
        self.0.r_sum
    }

    /// Whether the program has finished.
    pub fn finished(&self) -> (v: bool)
        ensures
            v == self.0.finished,
    {
        self.0.finished
    }

    /// The block numbers of the grid, flattened: `[len, item, item, ..., len, item, ...]`.
    pub fn area_indices_flatten(&self) -> (v: Vec<u32>)
        ensures
            v@ == flatten_rows(rows_of(self.0.code.area_indices)),
    {
        let rows = &self.0.code.area_indices;
        let ghost a = rows_of(*rows);
        let mut ret: Vec<u32> = Vec::new();
        let mut r: usize = 0;
        while r < rows.len()
            invariant
                a == rows_of(*rows),
                r <= a.len(),
                ret@ == flatten_rows(a.take(r as int)),
            decreases a.len() - r,
        {
            let row = &rows[r];
            let ghost before = ret@;
            ret.push(row.len() as u32);
            let mut c: usize = 0;
            while c < row.len()
                invariant
                    row@ == a[r as int],
                    c <= row@.len(),
                    ret@ == before + seq![row@.len() as u32] + row@.subrange(0, c as int),
                decreases row@.len() - c,
            {
                ret.push(row[c]);
                proof {
                    assert(row@.subrange(0, c + 1) =~= row@.subrange(0, c as int).push(row@[c as int]));
                }
                c += 1;
            }
            proof {
                assert(a.take(r + 1).drop_last() =~= a.take(r as int));
                assert(a.take(r + 1).last() == a[r as int]);
                assert(row@.subrange(0, row@.len() as int) =~= row@);
            }
            r += 1;
        }
        proof {
            assert(a.take(a.len() as int) =~= a);
        }
        ret
    }

    /// A copy of the value stack, bottom first.
    pub fn stack(&self) -> (v: Vec<i64>)
        ensures
            v@ == self.0.stack@,
    {
        vstd::slice::slice_to_vec(self.0.stack.as_slice())
    }

    /// The number of the block under the current cell (0 where there is none).
    pub fn next_index(&self) -> (i: u32)
        ensures
            i == next_index_of(self.0@),
    {
        self.0.next_block_index()
    }

    /// The command of the block under the current cell (0 where there is none).
    pub fn next_cmd(&self) -> (c: u8)
        ensures
            c == match next_block_of(self.0@) {
                Some(b) => b.cmd,
                None => 0,
            },
    {
        match self.0.next_block() {
            Some(b) => b.cmd,
            None => 0,
        }
    }

    /// The size of the block under the current cell (0 where there is none).
    pub fn next_len(&self) -> (n: usize)
        ensures
            n == match next_block_of(self.0@) {
                Some(b) => b.len,
                None => 0,
            },
    {
        match self.0.next_block() {
            Some(b) => b.len,
            None => 0,
        }
    }

    /// A copy of the output written so far.
    pub fn output(&self) -> (v: Vec<u8>)
        ensures
            v@ == self.0.output@,
    {
        vstd::slice::slice_to_vec(self.0.output.as_slice())
    }

    /// Carries out one step; answers with nothing where it went well, else with the
    /// error's message (UTF-8).
    pub fn step(&mut self) -> (m: Vec<u8>)
        requires
            !step_panics(old(self).0@),
        ensures
            final(self).0@ == step_model(old(self).0@).0,
            m@ == step_message(step_model(old(self).0@).1),
            wf(old(self).0@) ==> wf(final(self).0@),
    {
        match self.0.step() {
            Ok(()) => Vec::new(),
            Err(err) => err.message(),
        }
    }

    /// Loads a program from its text (UTF-8, invalid sequences replaced) and its input;
    /// where that fails, copies as much of the error's message as fits into `error` and
    /// gives `None`.
    pub fn from_source_and_input(source: &[u8], input: &[u8], error: &mut [u8]) -> (r: Option<State>)
        ensures
            valid_utf8(source@) ==> utf8_lossy(source@) == decode_utf8(source@),
            match raw_code_of(utf8_lossy(source@), RUN_LIMIT) {
                Err(e) => r is None && final(error)@.len() == old(error)@.len() && ({
                    let msg = message_of(e);
                    let n = if old(error)@.len() < msg.len() {
                        old(error)@.len()
                    } else {
                        msg.len()
                    };
                    final(error)@ == msg.subrange(0, n as int) + old(error)@.subrange(
                        n as int,
                        old(error)@.len() as int,
                    )
                }),
                Ok(g) => r matches Some(s) && is_initial(
                    s.0@,
                    g,
                    input@,
                    Seq::<u8>::empty(),
                    RUN_LIMIT,
                    RUN_LIMIT,
                ) && final(error)@ == old(error)@,
            },
    {
        let text = text_of_bytes(source);
        let state = RunState::from_source(
            text.as_str(),
            vstd::slice::slice_to_vec(input),
            Vec::new(),
            RUN_LIMIT,
            RUN_LIMIT,
            RUN_LIMIT,
        );
        match state {
            Ok(x) => Some(State(x)),
            Err(x) => {
                let msg = x.message();
                let len = if error.len() < msg.len() {
                    error.len()
                } else {
                    msg.len()
                };
                let ghost e0 = error@;
                let mut i: usize = 0;
                while i < len
                    invariant
                        len <= e0.len(),
                        len <= msg@.len(),
                        i <= len,
                        error@.len() == e0.len(),
                        forall|j: int| 0 <= j < i ==> #[trigger] error@[j] == msg@[j],
                        forall|j: int| i <= j < e0.len() ==> #[trigger] error@[j] == e0[j],
                    decreases len - i,
                {
                    error[i] = msg[i];
                    i += 1;
                }
                proof {
                    assert(error@ =~= msg@.subrange(0, len as int) + e0.subrange(
                        len as int,
                        e0.len() as int,
                    ));
                }
                None
            },
        }
    }
}

} // verus!
