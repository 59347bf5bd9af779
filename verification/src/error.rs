//! The errors that loading or running a program can end in.

use vstd::prelude::*;
use vstd::utf8::{encode_utf8, encode_scalar};

verus! {

/// Why a program could not be loaded or stopped running.
#[derive(Clone, Copy, Debug, PartialEq, Eq, Structural)]
pub enum Error {
    /// A command byte that is none of the language's, at the given cell.
    Syntax { ch: char, row: u32, col: u32 },
    /// The program made more moves than the step limit allows.
    Timeout { limit: u32 },
    /// The `r` commands together rotated more values than the rotation limit allows.
    TooMuchRotate { limit: u32 },
    /// The bounding rectangle of the program has more cells than the size limit allows.
    CodeIsBig { limit: u32 },
    /// The program is empty or its top left cell is blank.
    BlankStart,
    /// The program holds a character outside ASCII.
    NonAscii { ch: char },
    /// An arithmetic command overflowed 64-bit integers, at the given cell.
    Overflow { ch: char, row: u32, col: u32 },
}


/// The decimal digits of `n`, as ASCII bytes.
pub open spec fn decimal(n: nat) -> Seq<u8>
    decreases n,
{
    if n < 10 {
        seq![(48 + n) as u8]
    } else {
        decimal(n / 10).push((48 + n % 10) as u8)
    }
}

/// The UTF-8 bytes of the error's message (the text that the error is displayed as).
pub open spec fn message_of(e: Error) -> Seq<u8> {
    match e {
        Error::Syntax { ch, row, col } => encode_utf8("unexpected char `"@) + encode_utf8(seq![ch])
            + encode_utf8("` at row "@) + decimal(row as nat) + encode_utf8(", col "@) + decimal(
            col as nat,
        ),
        Error::Timeout { limit } => encode_utf8("program not finished in "@) + decimal(limit as nat)
            + encode_utf8(" steps"@),
        Error::TooMuchRotate { limit } => encode_utf8("r command costs exceeded limit of "@)
            + decimal(limit as nat),
        Error::CodeIsBig { limit } => encode_utf8("rows * cols > "@) + decimal(limit as nat),
        Error::BlankStart => encode_utf8("top left is blank"@),
        Error::NonAscii { ch } => encode_utf8("non-ascii char `"@) + encode_utf8(seq![ch])
            + encode_utf8("`"@),
        Error::Overflow { ch, row, col } => encode_utf8("overflow `"@) + encode_utf8(seq![ch])
            + encode_utf8("` at row "@) + decimal(row as nat) + encode_utf8(", col "@) + decimal(
            col as nat,
        ),
    }
}

/// Appends the UTF-8 bytes of `s`.
fn push_str(out: &mut Vec<u8>, s: &str)
    ensures
        final(out)@ == old(out)@ + encode_utf8(s@),
{
    let b = s.as_bytes();
    let ghost o = out@;
    let mut i: usize = 0;
    while i < b.len()
        invariant
            i <= b@.len(),
            b@ == encode_utf8(s@),
            out@ == o + b@.subrange(0, i as int),
        decreases b@.len() - i,
    {
        out.push(b[i]);
        proof {
            assert(b@.subrange(0, i + 1) =~= b@.subrange(0, i as int).push(b@[i as int]));
        }
        i += 1;
    }
    proof {
        assert(b@.subrange(0, b@.len() as int) =~= b@);
    }
}

/// Appends the UTF-8 bytes of `ch`.
fn push_char(out: &mut Vec<u8>, ch: char)
    ensures
        final(out)@ == old(out)@ + encode_utf8(seq![ch]),
{
    let v = ch as u32;
    proof {
        vstd::utf8::char_is_scalar(ch);
        assert(seq![ch].drop_first() =~= Seq::<char>::empty());
        assert(encode_utf8(Seq::<char>::empty()) =~= Seq::<u8>::empty());
        assert(seq![ch][0] == ch);
        assert(encode_utf8(seq![ch]) =~= encode_scalar(v));
    }
    let ghost o = out@;
    if v <= 0x7F {
        out.push((v & 0x7F) as u8);
        proof {
            assert(out@ =~= o + encode_scalar(v));
        }
    } else if v <= 0x7FF {
        out.push(0xC0 | ((v >> 6) & 0x1F) as u8);
        out.push(0x80 | (v & 0x3F) as u8);
        proof {
            assert(out@ =~= o + encode_scalar(v));
        }
    } else if v <= 0xFFFF {
        out.push(0xE0 | ((v >> 12) & 0x0F) as u8);
        out.push(0x80 | ((v >> 6) & 0x3F) as u8);
        out.push(0x80 | (v & 0x3F) as u8);
        proof {
            assert(out@ =~= o + encode_scalar(v));
        }
    } else {
        out.push(0xF0 | ((v >> 18) & 0x7) as u8);
        out.push(0x80 | ((v >> 12) & 0x3F) as u8);
        out.push(0x80 | ((v >> 6) & 0x3F) as u8);
        out.push(0x80 | (v & 0x3F) as u8);
        proof {
            assert(out@ =~= o + encode_scalar(v));
        }
    }
}

/// Appends the decimal digits of `n`.
fn push_decimal(out: &mut Vec<u8>, n: u32)
    ensures
        final(out)@ == old(out)@ + decimal(n as nat),
    decreases n,
{
    let ghost o = out@;
    if n >= 10 {
        push_decimal(out, n / 10);
    }
    out.push(48 + (n % 10) as u8);
    proof {
        if n >= 10 {
            assert(out@ =~= o + decimal(n as nat));
        } else {
            assert(out@ =~= o + decimal(n as nat));
        }
    }
}

impl Error {
    /// The error's message as UTF-8 text, e.g. "top left is blank".
    pub fn message(&self) -> (m: Vec<u8>)
        ensures
            m@ == message_of(*self),
            m@.len() <= 256,
    {
        let mut out: Vec<u8> = Vec::new();
        match *self {
            Error::Syntax { ch, row, col } => {
                push_str(&mut out, "unexpected char `");
                push_char(&mut out, ch);
                push_str(&mut out, "` at row ");
                push_decimal(&mut out, row);
                push_str(&mut out, ", col ");
                push_decimal(&mut out, col);
            },
            Error::Timeout { limit } => {
                push_str(&mut out, "program not finished in ");
                push_decimal(&mut out, limit);
                push_str(&mut out, " steps");
            },
            Error::TooMuchRotate { limit } => {
                push_str(&mut out, "r command costs exceeded limit of ");
                push_decimal(&mut out, limit);
            },
            Error::CodeIsBig { limit } => {
                push_str(&mut out, "rows * cols > ");
                push_decimal(&mut out, limit);
            },
            Error::BlankStart => {
                push_str(&mut out, "top left is blank");
            },
            Error::NonAscii { ch } => {
                push_str(&mut out, "non-ascii char `");
                push_char(&mut out, ch);
                push_str(&mut out, "`");
            },
            Error::Overflow { ch, row, col } => {
                push_str(&mut out, "overflow `");
                push_char(&mut out, ch);
                push_str(&mut out, "` at row ");
                push_decimal(&mut out, row);
                push_str(&mut out, ", col ");
                push_decimal(&mut out, col);
            },
        }
        proof {
            assert(out@ =~= message_of(*self));
            crate::laws::law_message_short(*self);
        }
        out
    }
}

} // verus!
