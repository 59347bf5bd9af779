//! Reading the program text into a grid of command bytes.

use vstd::prelude::*;
use crate::error::Error;
use crate::grid::{rows_of, cell_count};

verus! {

/// `c` has the Unicode `White_Space` property: tab, line feed, vertical tab, form feed,
/// carriage return, space, next line, no-break space, ogham space mark, the spaces from en
/// quad to hair space, line separator, paragraph separator, narrow no-break space, medium
/// mathematical space and ideographic space.
pub open spec fn char_is_whitespace(c: char) -> bool {
    let u = c as u32;
    ||| 0x09 <= u <= 0x0D
    ||| u == 0x20
    ||| u == 0x85
    ||| u == 0xA0
    ||| u == 0x1680
    ||| 0x2000 <= u <= 0x200A
    ||| u == 0x2028
    ||| u == 0x2029
    ||| u == 0x202F
    ||| u == 0x205F
    ||| u == 0x3000
}

/// Calls `char::is_whitespace`, which answers whether `c` has the Unicode `White_Space`
/// property (the fixed list in `char_is_whitespace`).
#[verifier::external_body]
fn is_whitespace(c: char) -> (b: bool)
    ensures
        b == char_is_whitespace(c),
{
    c.is_whitespace()
}

/// `c` is an ASCII character.
pub open spec fn is_ascii_char(c: char) -> bool {
    (c as u32) < 128
}

/// The index of the first line feed at or after `i` in `s`, or the length of `s`.
pub open spec fn line_end(s: Seq<char>, i: int) -> int
    decreases s.len() - i,
{
    if i >= s.len() {
        s.len() as int
    } else if s[i] == '\n' {
        i
    } else {
        line_end(s, i + 1)
    }
}

/// `l` without its trailing whitespace.
pub open spec fn trim_end(l: Seq<char>) -> Seq<char>
    decreases l.len(),
{
    if l.len() > 0 && char_is_whitespace(l.last()) {
        trim_end(l.drop_last())
    } else {
        l
    }
}

/// The lines of `s` from position `i` on (lines end at line feeds), each without its
/// trailing whitespace, up to the first line that is then empty.
pub open spec fn kept_lines(s: Seq<char>, i: int) -> Seq<Seq<char>>
    decreases s.len() - i,
    when 0 <= i <= s.len()
{
    let e = line_end(s, i);
    let t = trim_end(s.subrange(i, e));
    if t.len() == 0 {
        seq![]
    } else if e >= s.len() {
        seq![t]
    } else {
        proof {
            lemma_line_end(s, i);
        }
        seq![t] + kept_lines(s, e + 1)
    }
}

/// The first character of `l` outside ASCII.
pub open spec fn first_non_ascii_in(l: Seq<char>) -> Option<char>
    decreases l.len(),
{
    if l.len() == 0 {
        None
    } else if !is_ascii_char(l[0]) {
        Some(l[0])
    } else {
        first_non_ascii_in(l.drop_first())
    }
}

/// The first character outside ASCII in the lines `ls`, read in order.
pub open spec fn first_non_ascii(ls: Seq<Seq<char>>) -> Option<char>
    decreases ls.len(),
{
    if ls.len() == 0 {
        None
    } else if first_non_ascii_in(ls[0]) is Some {
        first_non_ascii_in(ls[0])
    } else {
        first_non_ascii(ls.drop_first())
    }
}

/// The bytes of an ASCII line.
pub open spec fn line_bytes(l: Seq<char>) -> Seq<u8> {
    l.map_values(|c: char| c as u8)
}

/// The length of the longest row of `g`.
pub open spec fn max_len(g: Seq<Seq<u8>>) -> nat
    decreases g.len(),
{
    if g.len() == 0 {
        0
    } else {
        let m = max_len(g.drop_last());
        if g.last().len() > m {
            g.last().len()
        } else {
            m
        }
    }
}

/// The grid that the lines `ls` make, or why they are refused: they must be ASCII (else
/// the first character outside it is named), their bounding rectangle must have at most
/// `limit` cells, and the top left cell must hold a command.
pub open spec fn rows_result(ls: Seq<Seq<char>>, limit: u32) -> Result<Seq<Seq<u8>>, Error> {
    match first_non_ascii(ls) {
        Some(ch) => Err(Error::NonAscii { ch }),
        None => {
            let rows = ls.map_values(|l: Seq<char>| line_bytes(l));
            if max_len(rows) * rows.len() > limit {
                Err(Error::CodeIsBig { limit })
            } else if rows.len() == 0 || rows[0].len() == 0 || rows[0][0] == 32u8 {
                Err(Error::BlankStart)
            } else {
                Ok(rows)
            }
        },
    }
}

/// The grid that the text `s` holds, or why it is refused: the lines kept from it (see
/// `kept_lines`) taken as `rows_result` takes them.
pub open spec fn raw_code_of(s: Seq<char>, limit: u32) -> Result<Seq<Seq<u8>>, Error> {
    rows_result(kept_lines(s, 0), limit)
}

pub proof fn lemma_line_end(s: Seq<char>, i: int)
    requires
        0 <= i <= s.len(),
    ensures
        i <= line_end(s, i) <= s.len(),
        line_end(s, i) < s.len() ==> s[line_end(s, i)] == '\n',
        forall|j: int| i <= j < line_end(s, i) ==> s[j] != '\n',
    decreases s.len() - i,
{
    if i < s.len() && s[i] != '\n' {
        lemma_line_end(s, i + 1);
    }
}

proof fn lemma_first_non_ascii_append(a: Seq<Seq<char>>, b: Seq<Seq<char>>)
    requires
        first_non_ascii(a) is None,
    ensures
        first_non_ascii(a + b) == first_non_ascii(b),
    decreases a.len(),
{
    if a.len() > 0 {
        assert((a + b).drop_first() =~= a.drop_first() + b);
        lemma_first_non_ascii_append(a.drop_first(), b);
    } else {
        assert(a + b =~= b);
    }
}

proof fn lemma_first_non_ascii_in_none(l: Seq<char>)
    requires
        forall|j: int| 0 <= j < l.len() ==> is_ascii_char(#[trigger] l[j]),
    ensures
        first_non_ascii_in(l) is None,
    decreases l.len(),
{
    if l.len() > 0 {
        assert(is_ascii_char(l[0]));
        lemma_first_non_ascii_in_none(l.drop_first());
    }
}

proof fn lemma_first_non_ascii_in_at(l: Seq<char>, j: int)
    requires
        0 <= j < l.len(),
        !is_ascii_char(l[j]),
        forall|x: int| 0 <= x < j ==> is_ascii_char(#[trigger] l[x]),
    ensures
        first_non_ascii_in(l) == Some(l[j]),
    decreases j,
{
    if j > 0 {
        assert(is_ascii_char(l[0]));
        lemma_first_non_ascii_in_at(l.drop_first(), j - 1);
    }
}

proof fn lemma_trim_end_at(l: Seq<char>, t: int)
    requires
        0 <= t <= l.len(),
        t == 0 || !char_is_whitespace(l[t - 1]),
        forall|j: int| t <= j < l.len() ==> char_is_whitespace(#[trigger] l[j]),
    ensures
        trim_end(l) == l.subrange(0, t),
    decreases l.len(),
{
    if l.len() > t {
        assert(char_is_whitespace(l[l.len() - 1]));
        lemma_trim_end_at(l.drop_last(), t);
    } else {
        assert(l.subrange(0, t) =~= l);
    }
}

proof fn lemma_max_len_push(g: Seq<Seq<u8>>, row: Seq<u8>)
    ensures
        max_len(g.push(row)) == if row.len() > max_len(g) { row.len() } else { max_len(g) },
{
    assert(g.push(row).drop_last() =~= g);
}

proof fn lemma_cells_le_rect(g: Seq<Seq<u8>>)
    ensures
        cell_count(g) <= max_len(g) * g.len(),
        forall|r: int| 0 <= r < g.len() ==> #[trigger] g[r].len() <= max_len(g),
    decreases g.len(),
{
    if g.len() > 0 {
        let h = g.drop_last();
        lemma_cells_le_rect(h);
        assert(max_len(h) * h.len() <= max_len(g) * h.len()) by (nonlinear_arith)
            requires
                max_len(h) <= max_len(g),
        ;
        assert forall|r: int| 0 <= r < g.len() implies #[trigger] g[r].len() <= max_len(g) by {
            if r < h.len() {
                assert(g[r] == h[r]);
            }
        }
        assert(max_len(g) * g.len() == max_len(g) * h.len() + max_len(g)) by (nonlinear_arith)
            requires
                g.len() == h.len() + 1,
        ;
    }
}

/// The result of reading a program text, with the grid taken by its rows.
pub open spec fn raw_result_view(res: Result<Vec<Vec<u8>>, Error>) -> Result<Seq<Seq<u8>>, Error> {
    match res {
        Ok(v) => Ok(rows_of(v)),
        Err(e) => Err(e),
    }
}

/// The characters of `source`.
fn collect_chars(source: &str) -> (v: Vec<char>)
    ensures
        v@ == source@,
{
    let mut v: Vec<char> = Vec::new();
    for ch in it: source.chars()
        invariant
            v@ == it.seq().take(it.index() as int),
    {
        v.push(ch);
    }
    v
}

/// The lines of `chars`, each without its trailing whitespace, up to the first line that
/// is then empty.
fn kept_lines_of(chars: &Vec<char>) -> (ls: Vec<Vec<char>>)
    ensures
        rows_of(ls) == kept_lines(chars@, 0),
{
    let ghost s = chars@;
    let n = chars.len();
    let mut lines: Vec<Vec<char>> = Vec::new();
    let mut i: usize = 0;
    loop
        invariant_except_break
            kept_lines(s, 0) == rows_of(lines) + kept_lines(s, i as int),
        invariant
            chars@ == s,
            n == s.len(),
            i <= n,
        ensures
            kept_lines(s, 0) == rows_of(lines),
        decreases n - i,
    {
        let mut e = i;
        while e < n && chars[e] != '\n'
            invariant
                chars@ == s,
                n == s.len(),
                i <= e <= n,
                forall|j: int| i <= j < e ==> s[j] != '\n',
            decreases n - e,
        {
            e += 1;
        }
        proof {
            lemma_line_end(s, i as int);
            assert(line_end(s, i as int) == e);
        }
        let mut t = e;
        while t > i && is_whitespace(chars[t - 1])
            invariant
                chars@ == s,
                n == s.len(),
                i <= t <= e <= n,
                forall|j: int| t <= j < e ==> char_is_whitespace(#[trigger] s[j]),
            decreases t,
        {
            t -= 1;
        }
        let ghost line = s.subrange(i as int, e as int);
        let ghost tl = s.subrange(i as int, t as int);
        proof {
            lemma_trim_end_at(line, t - i);
            assert(trim_end(line) =~= tl);
        }
        if t == i {
            proof {
                assert(kept_lines(s, i as int) =~= seq![]);
                assert(rows_of(lines) + seq![] =~= rows_of(lines));
            }
            break ;
        }
        let mut row: Vec<char> = Vec::new();
        let mut j = i;
        while j < t
            invariant
                chars@ == s,
                n == s.len(),
                i <= j <= t <= n,
                row@ == s.subrange(i as int, j as int),
            decreases t - j,
        {
            row.push(chars[j]);
            proof {
                assert(s.subrange(i as int, j + 1) =~= s.subrange(i as int, j as int).push(s[j as int]));
            }
            j += 1;
        }
        let ghost before = rows_of(lines);
        lines.push(row);
        proof {
            assert(rows_of(lines) =~= before.push(tl));
            if e < n {
                assert(kept_lines(s, i as int) =~= seq![tl] + kept_lines(s, e + 1));
                assert(before + kept_lines(s, i as int) =~= rows_of(lines) + kept_lines(s, e + 1));
            } else {
                assert(kept_lines(s, i as int) =~= seq![tl]);
                assert(before + kept_lines(s, i as int) =~= rows_of(lines));
            }
        }
        if e >= n {
            break ;
        }
        i = e + 1;
    }
    lines
}

/// Turns the lines of a program into a grid of command bytes (see `rows_result`): every
/// character must be ASCII, the bounding rectangle must have at most `code_limit` cells,
/// and the top left cell must hold a command.
pub fn rows_from_lines(lines: &Vec<Vec<char>>, code_limit: u32) -> (res: Result<Vec<Vec<u8>>, Error>)
    ensures
        raw_result_view(res) == rows_result(rows_of(*lines), code_limit),
{
    let ghost ls = rows_of(*lines);
    let mut code: Vec<Vec<u8>> = Vec::new();
    let mut max_cols: usize = 0;
    let mut k: usize = 0;
    while k < lines.len()
        invariant
            ls == rows_of(*lines),
            k <= ls.len(),
            first_non_ascii(ls.take(k as int)) is None,
            rows_of(code) == ls.take(k as int).map_values(|l: Seq<char>| line_bytes(l)),
            max_cols == max_len(rows_of(code)),
        decreases ls.len() - k,
    {
        let line = &lines[k];
        let ghost l = ls[k as int];
        let mut row: Vec<u8> = Vec::new();
        let mut j: usize = 0;
        while j < line.len() && (line[j] as u32) < 128
            invariant
                line@ == l,
                j <= l.len(),
                row@ == line_bytes(l.subrange(0, j as int)),
                forall|x: int| 0 <= x < j ==> is_ascii_char(#[trigger] l[x]),
            decreases l.len() - j,
        {
            let b = line[j] as u8;
            row.push(b);
            proof {
                assert(l.subrange(0, j + 1) =~= l.subrange(0, j as int).push(l[j as int]));
                assert(line_bytes(l.subrange(0, j + 1)) =~= line_bytes(l.subrange(0, j as int)).push(b));
            }
            j += 1;
        }
        if j < line.len() {
            let ch = line[j];
            proof {
                lemma_first_non_ascii_in_at(l, j as int);
                assert(ls =~= ls.take(k as int) + ls.skip(k as int));
                lemma_first_non_ascii_append(ls.take(k as int), ls.skip(k as int));
                assert(ls.skip(k as int)[0] == l);
                assert(first_non_ascii(ls.skip(k as int)) == Some(ch));
            }
            return Err(Error::NonAscii { ch });
        }
        proof {
            assert(l.subrange(0, j as int) =~= l);
            lemma_first_non_ascii_in_none(l);
            lemma_max_len_push(rows_of(code), row@);
            assert(first_non_ascii(seq![l]) is None) by {
                assert(seq![l][0] == l);
                assert(seq![l].drop_first() =~= Seq::<Seq<char>>::empty());
                assert(first_non_ascii(seq![l].drop_first()) is None);
            }
            lemma_first_non_ascii_append(ls.take(k as int), seq![l]);
            assert(ls.take(k + 1) =~= ls.take(k as int) + seq![l]);
        }
        if row.len() > max_cols {
            max_cols = row.len();
        }
        let ghost code0 = rows_of(code);
        code.push(row);
        proof {
            assert(rows_of(code) =~= code0.push(line_bytes(l)));
            assert(ls.take(k + 1).map_values(|l: Seq<char>| line_bytes(l)) =~= ls.take(k as int).map_values(
                |l: Seq<char>| line_bytes(l),
            ).push(line_bytes(l)));
        }
        k += 1;
    }
    proof {
        assert(ls.take(ls.len() as int) =~= ls);
    }
    let rows = code.len();
    let too_big = match max_cols.checked_mul(rows) {
        Some(size) => size > code_limit as usize,
        None => true,
    };
    if too_big {
        return Err(Error::CodeIsBig { limit: code_limit });
    }
    if rows == 0 || code[0].len() == 0 || code[0][0] == 32 {
        return Err(Error::BlankStart);
    }
    Ok(code)
}

/// Reads the program text into a grid of command bytes: one row per line, each without its
/// trailing whitespace, up to the first line that is then empty (see `raw_code_of`).
pub fn parse_raw_code(source: &str, code_limit: u32) -> (res: Result<Vec<Vec<u8>>, Error>)
    ensures
        raw_result_view(res) == raw_code_of(source@, code_limit),
{
    let chars = collect_chars(source);
    let lines = kept_lines_of(&chars);
    rows_from_lines(&lines, code_limit)
}

/// A grid that reading accepts fits the 32-bit coordinates and counters of `parse`.
pub proof fn lemma_raw_code_fits(s: Seq<char>, limit: u32)
    requires
        raw_code_of(s, limit) is Ok,
    ensures
        crate::code::grid_fits(raw_code_of(s, limit)->Ok_0),
{
    let g = raw_code_of(s, limit)->Ok_0;
    lemma_cells_le_rect(g);
    assert(max_len(g) * g.len() <= limit);
    assert(g[0].len() <= max_len(g));
    assert(g.len() <= max_len(g) * g.len()) by (nonlinear_arith)
        requires
            max_len(g) >= 1,
    ;
    assert(max_len(g) <= max_len(g) * g.len()) by (nonlinear_arith)
        requires
            g.len() >= 1,
    ;
    assert forall|r: int| 0 <= r < g.len() implies #[trigger] g[r].len() <= u32::MAX by {}
}

} // verus!
