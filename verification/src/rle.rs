//! The RLE codec: run-length encoded rows with `$` row breaks and a `!`
//! terminator, under an `x = <w>, y = <h>, rule = B3/S23` header.

use vstd::prelude::*;
use vstd::string::StringExecFns;
use crate::coords::{wrap, rowmajor, lemma_wrap_small, lemma_wrap_add};
use crate::grid::{Cell, Universe, clamp_dim, set_cell_seq};
use crate::text::{
    is_digit, digit_char, digits_value, dec_chars, lemma_dec_chars_digits, trim_chars,
    split_char, split_char_vec,
    non_comment_lines, non_comment_lines_vec, concat_lines, concat_from, str_chars, trim_vec,
    chars_eq, is_u32_chars, u32_chars_value, parse_u32_chars,
};
use crate::life106::append_dec;

verus! {

/// The failure of an RLE decode.
#[derive(Clone, Copy, Debug, PartialEq, Eq, Structural)]
pub enum RLEDecoderError {
    InternalError,
    InvalidType,
    InvalidNumber,
    InvalidTag,
    InvalidHeader,
}

impl RLEDecoderError {
    /// A human-readable description of the failure.
    pub fn message(&self) -> (r: String)
        ensures
            *self is InternalError ==> r@ == "internal error"@,
            *self is InvalidType ==> r@ == "invalid type"@,
            *self is InvalidNumber ==> r@ == "invalid number"@,
            *self is InvalidTag ==> r@ == "invalid tag"@,
            *self is InvalidHeader ==> r@ == "invalid header"@,
    {
        let mut s = String::new();
        match self {
            RLEDecoderError::InternalError => s.append("internal error"),
            RLEDecoderError::InvalidType => s.append("invalid type"),
            RLEDecoderError::InvalidNumber => s.append("invalid number"),
            RLEDecoderError::InvalidTag => s.append("invalid tag"),
            RLEDecoderError::InvalidHeader => s.append("invalid header"),
        }
        s
    }
}

/// The symbol of one cell: `o` alive, `b` dead.
pub open spec fn cell_symbol(c: Cell) -> char {
    match c {
        Cell::Alive => 'o',
        Cell::Dead => 'b',
    }
}

/// A row with its run of trailing dead-cell symbols removed.
pub open spec fn strip_trailing_dead(s: Seq<char>) -> Seq<char>
    decreases s.len(),
{
    if s.len() == 0 {
        s
    } else if s.last() == 'b' {
        strip_trailing_dead(s.drop_last())
    } else {
        s
    }
}

/// The symbols of one full row.
pub open spec fn row_syms(g: Universe, y: int) -> Seq<char> {
    Seq::new(g.spec_width() as nat,
        |x: int| cell_symbol(g.spec_cells()[rowmajor(x, y, g.spec_width())]))
}

/// The symbol stream of the first `n` rows: each row stripped of trailing
/// dead cells, then closed by `$`, or by `!` for the final row of the grid.
pub open spec fn stream_upto(g: Universe, n: int) -> Seq<char>
    decreases n,
{
    if n <= 0 {
        Seq::empty()
    } else {
        stream_upto(g, n - 1) + strip_trailing_dead(row_syms(g, n - 1)) + seq![if n
            == g.spec_height() {
            '!'
        } else {
            '$'
        }]
    }
}

/// The whole symbol stream of a grid.
pub open spec fn rle_stream(g: Universe) -> Seq<char> {
    stream_upto(g, g.spec_height())
}

/// The run-length grouping of a symbol stream: maximal runs of equal
/// symbols with their lengths.
pub open spec fn runs_of(s: Seq<char>) -> Seq<(int, char)>
    decreases s.len(),
{
    if s.len() == 0 {
        Seq::empty()
    } else {
        let r = runs_of(s.drop_last());
        if r.len() > 0 && r.last().1 == s.last() {
            r.update(r.len() - 1, (r.last().0 + 1, s.last()))
        } else {
            r.push((1, s.last()))
        }
    }
}

/// One rendered run: the count prefix is omitted for a run of length 1.
pub open spec fn render_run(n: int, c: char) -> Seq<char> {
    if n == 1 {
        seq![c]
    } else {
        dec_chars(n) + seq![c]
    }
}

/// The rendered body: every run in order.
pub open spec fn render_runs(rs: Seq<(int, char)>) -> Seq<char>
    decreases rs.len(),
{
    if rs.len() == 0 {
        Seq::empty()
    } else {
        render_runs(rs.drop_last()) + render_run(rs.last().0, rs.last().1)
    }
}

/// The body broken into lines of at most 70 characters, each preceded by a
/// newline.
pub open spec fn wrap_lines(s: Seq<char>) -> Seq<char>
    decreases s.len(),
{
    if s.len() == 0 {
        Seq::empty()
    } else if s.len() <= 70 {
        seq!['\n'] + s
    } else {
        seq!['\n'] + s.take(70) + wrap_lines(s.skip(70))
    }
}

/// The header line of an RLE text.
pub open spec fn rle_header(w: int, h: int) -> Seq<char> {
    seq!['x', ' ', '=', ' '] + dec_chars(w) + seq![',', ' ', 'y', ' ', '=', ' '] + dec_chars(h)
        + seq![',', ' ', 'r', 'u', 'l', 'e', ' ', '=', ' ', 'B', '3', '/', 'S', '2', '3']
}

/// The complete RLE text of a grid.
pub open spec fn rle_encoding(g: Universe) -> Seq<char> {
    rle_header(g.spec_width(), g.spec_height()) + wrap_lines(render_runs(runs_of(rle_stream(g))))
}

/// A character that can appear in an RLE body.
pub open spec fn rle_body_char(c: char) -> bool {
    is_digit(c) || c == 'o' || c == 'b' || c == '$' || c == '!'
}

/// Pushes the canonical decimal rendering of `n` onto a character vector.
fn push_dec_vec(out: &mut Vec<char>, n: u64)
    ensures
        final(out)@ == old(out)@ + dec_chars(n as int),
    decreases n,
{
    if n >= 10 {
        push_dec_vec(out, n / 10);
        let d = n % 10;
        push_digit_vec(out, d);
        proof {
            assert(out@ =~= old(out)@ + dec_chars(n as int));
        }
    } else {
        push_digit_vec(out, n);
        proof {
            assert(out@ =~= old(out)@ + dec_chars(n as int));
        }
    }
}

/// Pushes one decimal digit character.
fn push_digit_vec(out: &mut Vec<char>, d: u64)
    requires
        d < 10,
    ensures
        final(out)@ == old(out)@ + seq![digit_char(d as int)],
{
    if d == 0 {
        out.push('0');
    } else if d == 1 {
        out.push('1');
    } else if d == 2 {
        out.push('2');
    } else if d == 3 {
        out.push('3');
    } else if d == 4 {
        out.push('4');
    } else if d == 5 {
        out.push('5');
    } else if d == 6 {
        out.push('6');
    } else if d == 7 {
        out.push('7');
    } else if d == 8 {
        out.push('8');
    } else {
        out.push('9');
    }
}

/// Appends one body character to the output string.
fn append_body_char(s: &mut String, c: char)
    requires
        rle_body_char(c),
    ensures
        final(s)@ == old(s)@.push(c),
{
    if c == '0' {
        s.append("0");
        proof {
            reveal_strlit("0");
            assert(s@ =~= old(s)@.push(c));
        }
    } else if c == '1' {
        s.append("1");
        proof {
            reveal_strlit("1");
            assert(s@ =~= old(s)@.push(c));
        }
    } else if c == '2' {
        s.append("2");
        proof {
            reveal_strlit("2");
            assert(s@ =~= old(s)@.push(c));
        }
    } else if c == '3' {
        s.append("3");
        proof {
            reveal_strlit("3");
            assert(s@ =~= old(s)@.push(c));
        }
    } else if c == '4' {
        s.append("4");
        proof {
            reveal_strlit("4");
            assert(s@ =~= old(s)@.push(c));
        }
    } else if c == '5' {
        s.append("5");
        proof {
            reveal_strlit("5");
            assert(s@ =~= old(s)@.push(c));
        }
    } else if c == '6' {
        s.append("6");
        proof {
            reveal_strlit("6");
            assert(s@ =~= old(s)@.push(c));
        }
    } else if c == '7' {
        s.append("7");
        proof {
            reveal_strlit("7");
            assert(s@ =~= old(s)@.push(c));
        }
    } else if c == '8' {
        s.append("8");
        proof {
            reveal_strlit("8");
            assert(s@ =~= old(s)@.push(c));
        }
    } else if c == '9' {
        s.append("9");
        proof {
            reveal_strlit("9");
            assert(s@ =~= old(s)@.push(c));
        }
    } else if c == 'o' {
        s.append("o");
        proof {
            reveal_strlit("o");
            assert(s@ =~= old(s)@.push(c));
        }
    } else if c == 'b' {
        s.append("b");
        proof {
            reveal_strlit("b");
            assert(s@ =~= old(s)@.push(c));
        }
    } else if c == '$' {
        s.append("$");
        proof {
            reveal_strlit("$");
            assert(s@ =~= old(s)@.push(c));
        }
    } else {
        s.append("!");
        proof {
            reveal_strlit("!");
            assert(c == '!');
            assert(s@ =~= old(s)@.push(c));
        }
    }
}

/// Characterises `strip_trailing_dead` by the end of the kept prefix.
proof fn lemma_strip_trailing(t: Seq<char>, m: int)
    requires
        0 <= m <= t.len(),
        forall|k: int| m <= k < t.len() ==> t[k] == 'b',
        m > 0 ==> t[m - 1] != 'b',
    ensures
        strip_trailing_dead(t) == t.take(m),
    decreases t.len(),
{
    if t.len() == 0 {
        assert(t.take(0) =~= t);
    } else if t.last() == 'b' {
        assert(m < t.len());
        let head = t.drop_last();
        assert(forall|k: int| m <= k < head.len() ==> head[k] == #[trigger] t[k]);
        lemma_strip_trailing(head, m);
        assert(head.take(m) =~= t.take(m));
    } else {
        assert(m == t.len());
        assert(t.take(m) =~= t);
    }
}

/// The end of the trailing run of `b` symbols after `row_start`.
fn scan_back_keep(sym: &Vec<char>, row_start: usize) -> (keep: usize)
    requires
        row_start <= sym@.len(),
    ensures
        row_start <= keep <= sym@.len(),
        forall|k: int| keep <= k < sym@.len() ==> sym@[k] == 'b',
        keep > row_start ==> sym@[keep - 1] != 'b',
{
    let mut keep = sym.len();
    while keep > row_start
        invariant
            row_start <= keep <= sym@.len(),
            forall|k: int| keep <= k < sym@.len() ==> sym@[k] == 'b',
        decreases keep,
    {
        if sym[keep - 1] != 'b' {
            return keep;
        }
        keep = keep - 1;
    }
    keep
}

impl Universe {
    /// Serialises the grid to RLE text: the header, then the run-length
    /// compressed symbol stream of the rows (trailing dead cells of each row
    /// omitted), wrapped at 70 characters per line.
    #[verifier::rlimit(100)]
    pub fn to_rle(&self) -> (r: String)
        requires
            self.wf(),
        ensures
            r@ == rle_encoding(*self),
    {
        let ghost g = *self;
        let w = self.width;
        let h = self.height;
        // Stage 1: the symbol stream, row by row.
        let mut sym: Vec<char> = Vec::new();
        let mut y: i32 = 0;
        while y < h
            invariant
                g == *self,
                g.wf(),
                w == g.spec_width(),
                h == g.spec_height(),
                0 <= y <= h,
                sym@ == stream_upto(g, y as int),
                forall|j: int| 0 <= j < sym@.len() ==> rle_body_char(#[trigger] sym@[j]),
            decreases h - y,
        {
            let ghost pre = sym@;
            let row_start = sym.len();
            let mut x: i32 = 0;
            while x < w
                invariant
                    g == *self,
                    g.wf(),
                    w == g.spec_width(),
                    h == g.spec_height(),
                    0 <= y < h,
                    0 <= x <= w,
                    row_start == pre.len(),
                    sym@ == pre + row_syms(g, y as int).take(x as int),
                    forall|j: int| 0 <= j < sym@.len() ==> rle_body_char(#[trigger] sym@[j]),
                decreases w - x,
            {
                let idx = self.get_index(x, y);
                proof {
                    lemma_wrap_small(x as int, w as int);
                    lemma_wrap_small(y as int, h as int);
                }
                match self.cells[idx] {
                    Cell::Alive => sym.push('o'),
                    Cell::Dead => sym.push('b'),
                }
                x = x + 1;
                proof {
                    assert(sym@ =~= pre + row_syms(g, y as int).take(x as int));
                }
            }
            proof {
                assert(row_syms(g, y as int).take(w as int) =~= row_syms(g, y as int));
            }
            // Strip the trailing dead run of this row.
            let keep = scan_back_keep(&sym, row_start);
            proof {
                let t = row_syms(g, y as int);
                assert(forall|k: int| 0 <= k < t.len() ==> t[k] == #[trigger] sym@[
                    k + row_start]);
                assert forall|k: int| keep - row_start <= k < t.len() implies t[k] == 'b' by {
                    assert(t[k] == sym@[k + row_start]);
                    assert(sym@[k + row_start] == 'b');
                }
                lemma_strip_trailing(t, keep - row_start);
                assert(t.take(keep - row_start) =~= sym@.subrange(row_start as int, keep as int));
            }
            sym.truncate(keep);
            proof {
                assert(sym@ =~= pre + strip_trailing_dead(row_syms(g, y as int)));
            }
            if y == h - 1 {
                sym.push('!');
            } else {
                sym.push('$');
            }
            y = y + 1;
            proof {
                assert(sym@ =~= stream_upto(g, y as int));
            }
        }
        // Stage 2: run-length grouping.
        let ghost stream = sym@;
        let mut runs: Vec<(usize, char)> = Vec::new();
        let mut i: usize = 0;
        proof {
            assert(stream.take(0) =~= Seq::<char>::empty());
            assert(runs@.map_values(|p: (usize, char)| (p.0 as int, p.1))
                =~= Seq::<(int, char)>::empty());
        }
        while i < sym.len()
            invariant
                stream == sym@,
                i <= stream.len(),
                runs@.map_values(|p: (usize, char)| (p.0 as int, p.1)) == runs_of(stream.take(
                    i as int)),
                forall|j: int| 0 <= j < runs@.len() ==> 1 <= (#[trigger] runs@[j]).0 <= i
                    && rle_body_char(runs@[j].1),
                forall|j: int| 0 <= j < stream.len() ==> rle_body_char(#[trigger] stream[j]),
            decreases stream.len() - i,
        {
            let c = sym[i];
            let ghost rs0 = runs@.map_values(|p: (usize, char)| (p.0 as int, p.1));
            let n = runs.len();
            let mut extended = false;
            if n > 0 {
                let lastp = runs[n - 1];
                if lastp.1 == c {
                    runs.set(n - 1, (lastp.0 + 1, lastp.1));
                    extended = true;
                }
            }
            if !extended {
                runs.push((1, c));
            }
            i = i + 1;
            proof {
                assert(stream.take(i as int).drop_last() =~= stream.take(i - 1));
                assert(stream.take(i as int).last() == stream[i - 1]);
                if extended {
                    assert(runs@.map_values(|p: (usize, char)| (p.0 as int, p.1)) =~= rs0.update(
                        rs0.len() - 1, (rs0.last().0 + 1, stream[i - 1])));
                } else {
                    assert(runs@.map_values(|p: (usize, char)| (p.0 as int, p.1)) =~= rs0.push(
                        (1int, stream[i - 1])));
                }
                assert(runs@.map_values(|p: (usize, char)| (p.0 as int, p.1)) =~= runs_of(
                    stream.take(i as int)));
            }
        }
        proof {
            assert(stream.take(stream.len() as int) =~= stream);
        }
        // Stage 3: render the runs.
        let ghost rs = runs@.map_values(|p: (usize, char)| (p.0 as int, p.1));
        let mut body: Vec<char> = Vec::new();
        let mut k: usize = 0;
        proof {
            assert(rs.take(0) =~= Seq::<(int, char)>::empty());
        }
        while k < runs.len()
            invariant
                rs == runs@.map_values(|p: (usize, char)| (p.0 as int, p.1)),
                k <= rs.len(),
                rs.len() == runs@.len(),
                body@ == render_runs(rs.take(k as int)),
                forall|j: int| 0 <= j < runs@.len()
                    ==> 1 <= (#[trigger] runs@[j]).0 && rle_body_char(runs@[j].1),
                forall|j: int| 0 <= j < body@.len() ==> rle_body_char(#[trigger] body@[j]),
            decreases rs.len() - k,
        {
            let (n, c) = runs[k];
            let ghost b0 = body@;
            if n == 1 {
                body.push(c);
            } else {
                push_dec_vec(&mut body, n as u64);
                proof {
                    lemma_dec_chars_digits(n as int);
                }
                body.push(c);
            }
            k = k + 1;
            proof {
                assert(rs.take(k as int).drop_last() =~= rs.take(k - 1));
                assert(rs.take(k as int).last() == rs[k - 1]);
                assert(body@ =~= render_runs(rs.take(k as int)));
            }
        }
        proof {
            assert(rs.take(rs.len() as int) =~= rs);
        }
        // Stage 4: header.
        let mut s = String::new();
        s.append("x = ");
        proof {
            reveal_strlit("x = ");
            assert(s@ =~= seq!['x', ' ', '=', ' ']);
        }
        append_dec(&mut s, w as u64);
        s.append(", y = ");
        proof {
            reveal_strlit(", y = ");
            assert(s@ =~= seq!['x', ' ', '=', ' '] + dec_chars(w as int)
                + seq![',', ' ', 'y', ' ', '=', ' ']);
        }
        append_dec(&mut s, h as u64);
        s.append(", rule = B3/S23");
        proof {
            reveal_strlit(", rule = B3/S23");
            assert(s@ =~= rle_header(w as int, h as int));
        }
        let ghost hdr = s@;
        // Stage 5: wrap the body at 70 characters.
        let mut p: usize = 0;
        proof {
            assert(body@.skip(0) =~= body@);
        }
        while p < body.len()
            invariant
                p <= body@.len(),
                hdr == rle_header(w as int, h as int),
                forall|j: int| 0 <= j < body@.len() ==> rle_body_char(#[trigger] body@[j]),
                hdr + wrap_lines(body@) == s@ + wrap_lines(body@.skip(p as int)),
            decreases body@.len() - p,
        {
            let ghost s0 = s@;
            let ghost restb = body@.skip(p as int);
            s.append("\n");
            proof {
                reveal_strlit("\n");
            }
            let lim = if body.len() - p < 70 {
                body.len()
            } else {
                p + 70
            };
            let mut q = p;
            while q < lim
                invariant
                    p <= q <= lim <= body@.len(),
                    forall|j: int| 0 <= j < body@.len() ==> rle_body_char(#[trigger] body@[j]),
                    s@ == s0 + seq!['\n'] + body@.subrange(p as int, q as int),
                decreases lim - q,
            {
                append_body_char(&mut s, body[q]);
                q = q + 1;
                proof {
                    assert(s@ =~= s0 + seq!['\n'] + body@.subrange(p as int, q as int));
                }
            }
            proof {
                if restb.len() <= 70 {
                    assert(lim == body@.len());
                    assert(body@.subrange(p as int, lim as int) =~= restb);
                    assert(wrap_lines(restb) == seq!['\n'] + restb);
                    assert(body@.skip(lim as int).len() == 0);
                    assert(wrap_lines(body@.skip(lim as int)) =~= Seq::<char>::empty());
                    assert(s@ + wrap_lines(body@.skip(lim as int)) =~= s0 + wrap_lines(restb));
                } else {
                    assert(lim == p + 70);
                    assert(body@.subrange(p as int, lim as int) =~= restb.take(70));
                    assert(restb.skip(70) =~= body@.skip(lim as int));
                    assert(wrap_lines(restb) == seq!['\n'] + restb.take(70) + wrap_lines(
                        restb.skip(70)));
                    assert(s@ + wrap_lines(body@.skip(lim as int)) =~= s0 + wrap_lines(restb));
                }
            }
            p = lim;
        }
        proof {
            assert(wrap_lines(body@.skip(p as int)) =~= Seq::<char>::empty());
            assert(s@ + wrap_lines(body@.skip(p as int)) =~= s@);
            assert(s@ =~= rle_encoding(g));
        }
        s
    }
}

/// The length of the leading digit run.
pub open spec fn digit_prefix_len(s: Seq<char>) -> int
    decreases s.len(),
{
    if s.len() > 0 && is_digit(s[0]) {
        1 + digit_prefix_len(s.drop_first())
    } else {
        0
    }
}

/// The leading digit run is well bounded, and non-empty when the text
/// starts with a digit.
pub proof fn lemma_dpl_bounds(s: Seq<char>)
    ensures
        0 <= digit_prefix_len(s) <= s.len(),
        s.len() > 0 && is_digit(s[0]) ==> digit_prefix_len(s) >= 1,
    decreases s.len(),
{
    if s.len() > 0 && is_digit(s[0]) {
        lemma_dpl_bounds(s.drop_first());
    }
}

/// Characterises the leading digit run by its end.
pub proof fn lemma_dpl_char(s: Seq<char>, j: int)
    requires
        0 <= j <= s.len(),
        forall|k: int| 0 <= k < j ==> is_digit(#[trigger] s[k]),
        j == s.len() || !is_digit(s[j]),
    ensures
        digit_prefix_len(s) == j,
    decreases j,
{
    if j > 0 {
        let tail = s.drop_first();
        assert(forall|k: int| 0 <= k < j - 1 ==> tail[k] == #[trigger] s[k + 1]);
        lemma_dpl_char(tail, j - 1);
    }
}

/// The buffer after `n` consecutive cells are painted `state`, starting at
/// the wrapped column `col` of row `row`.
pub open spec fn paint_cells(cells: Seq<Cell>, w: int, h: int, col: int, row: int, n: int,
    state: Cell) -> Seq<Cell>
    decreases n,
{
    if n <= 0 {
        cells
    } else {
        paint_cells(set_cell_seq(cells, w, h, col, row, state), w, h, col + 1, row, n - 1, state)
    }
}

/// The token-level semantics of an RLE body. A digit run sets the pending
/// count; `o`/`b` paint that many alive/dead cells and advance the column;
/// `$` advances the row by the count; `!` ends the decode; anything else is
/// `InvalidTag`, and a count beyond the machine range is `InvalidNumber`.
pub open spec fn decode_body(cells: Seq<Cell>, w: int, h: int, col: int, row: int, count: int,
    s: Seq<char>) -> Result<Seq<Cell>, RLEDecoderError>
    decreases s.len(),
    via decode_body_dec
{
    if s.len() == 0 {
        Ok(cells)
    } else if s[0] == '!' {
        Ok(cells)
    } else if is_digit(s[0]) {
        let k = digit_prefix_len(s);
        if digits_value(s.take(k)) <= i32::MAX {
            decode_body(cells, w, h, col, row, digits_value(s.take(k)), s.skip(k))
        } else {
            Err(RLEDecoderError::InvalidNumber)
        }
    } else if s[0] == 'o' {
        decode_body(paint_cells(cells, w, h, col, row, count, Cell::Alive), w, h, col + count,
            row, 1, s.skip(1))
    } else if s[0] == 'b' {
        decode_body(paint_cells(cells, w, h, col, row, count, Cell::Dead), w, h, col + count,
            row, 1, s.skip(1))
    } else if s[0] == '$' {
        decode_body(cells, w, h, 0, row + count, 1, s.skip(1))
    } else {
        Err(RLEDecoderError::InvalidTag)
    }
}

#[via_fn]
proof fn decode_body_dec(cells: Seq<Cell>, w: int, h: int, col: int, row: int, count: int,
    s: Seq<char>) {
    if s.len() > 0 && s[0] != '!' && is_digit(s[0]) {
        lemma_dpl_bounds(s);
    }
}

/// The length of the leading run of equal characters.
pub open spec fn run_len(s: Seq<char>) -> int
    decreases s.len(),
{
    if s.len() == 0 {
        0
    } else if s.len() >= 2 && s[1] == s[0] {
        1 + run_len(s.drop_first())
    } else {
        1
    }
}

/// The leading run is non-empty, maximal, and uniform.
proof fn lemma_run_len_props(s: Seq<char>)
    requires
        s.len() > 0,
    ensures
        1 <= run_len(s) <= s.len(),
        forall|k: int| 0 <= k < run_len(s) ==> #[trigger] s[k] == s[0],
        run_len(s) < s.len() ==> s[run_len(s)] != s[0],
    decreases s.len(),
{
    if s.len() >= 2 && s[1] == s[0] {
        let tail = s.drop_first();
        lemma_run_len_props(tail);
        assert(forall|k: int| 0 <= k < tail.len() ==> tail[k] == #[trigger] s[k + 1]);
        assert forall|k: int| 0 <= k < run_len(s) implies #[trigger] s[k] == s[0] by {
            if k > 0 {
                assert(tail[k - 1] == s[k]);
                assert(tail[k - 1] == tail[0]);
            }
        }
    }
}

/// Grouping a non-empty stream yields at least one run.
proof fn lemma_runs_nonempty(s: Seq<char>)
    requires
        s.len() > 0,
    ensures
        runs_of(s).len() >= 1,
    decreases s.len(),
{
    if s.len() > 1 {
        lemma_runs_nonempty(s.drop_last());
    }
}

/// The grouping peels off the maximal leading run.
proof fn lemma_runs_front(s: Seq<char>, k: int)
    requires
        1 <= k <= s.len(),
        forall|j: int| 0 <= j < k ==> #[trigger] s[j] == s[0],
        k == s.len() || s[k] != s[0],
    ensures
        runs_of(s) == seq![(k, s[0])] + runs_of(s.skip(k)),
    decreases s.len(),
{
    let c = s[0];
    if s.len() == k {
        if k == 1 {
            assert(s.drop_last() =~= Seq::<char>::empty());
            assert(s.skip(1) =~= Seq::<char>::empty());
            assert(runs_of(Seq::<char>::empty()) =~= Seq::<(int, char)>::empty());
            assert(runs_of(s) =~= seq![(1int, c)] + runs_of(s.skip(1)));
        } else {
            let head = s.drop_last();
            assert(forall|j: int| 0 <= j < k - 1 ==> head[j] == #[trigger] s[j]);
            lemma_runs_front(head, k - 1);
            assert(head.skip(k - 1) =~= Seq::<char>::empty());
            assert(runs_of(head) =~= seq![(k - 1, c)]);
            assert(s.last() == c);
            assert(s.skip(k) =~= Seq::<char>::empty());
            assert(runs_of(s) =~= seq![(k, c)] + runs_of(s.skip(k)));
        }
    } else {
        let head = s.drop_last();
        assert(forall|j: int| 0 <= j < head.len() ==> head[j] == #[trigger] s[j]);
        if head.len() == k {
            // The head is exactly the run; the dropped character differs.
            lemma_runs_front(head, k);
            assert(head.skip(k) =~= Seq::<char>::empty());
            assert(runs_of(head) =~= seq![(k, c)]);
            assert(s.last() == s[k]);
            assert(s.last() != c);
            assert(s.skip(k) =~= seq![s.last()]);
            assert(seq![s.last()].drop_last() =~= Seq::<char>::empty());
            assert(runs_of(Seq::<char>::empty()) =~= Seq::<(int, char)>::empty());
            assert(runs_of(s.skip(k)) =~= seq![(1int, s.last())]);
            assert(runs_of(s) =~= seq![(k, c)] + runs_of(s.skip(k)));
        } else {
            lemma_runs_front(head, k);
            let rest = s.skip(k);
            assert(rest.len() >= 2);
            assert(head.skip(k) =~= rest.drop_last());
            lemma_runs_nonempty(rest.drop_last());
            let rr = runs_of(rest.drop_last());
            assert(runs_of(head) == seq![(k, c)] + rr);
            assert(runs_of(head).last() == rr.last());
            assert(s.last() == rest.last());
            if rr.last().1 == s.last() {
                assert(runs_of(s) == runs_of(head).update(runs_of(head).len() - 1,
                    (runs_of(head).last().0 + 1, s.last())));
                assert(runs_of(rest) == rr.update(rr.len() - 1, (rr.last().0 + 1,
                    rest.last())));
                assert(runs_of(s) =~= seq![(k, c)] + runs_of(rest));
            } else {
                assert(runs_of(s) == runs_of(head).push((1, s.last())));
                assert(runs_of(rest) == rr.push((1, rest.last())));
                assert(runs_of(s) =~= seq![(k, c)] + runs_of(rest));
            }
        }
    }
}

/// The rendering peels off the first run.
proof fn lemma_render_runs_cons(rs: Seq<(int, char)>)
    requires
        rs.len() >= 1,
    ensures
        render_runs(rs) == render_run(rs[0].0, rs[0].1) + render_runs(rs.drop_first()),
    decreases rs.len(),
{
    if rs.len() == 1 {
        assert(rs.drop_last() =~= Seq::<(int, char)>::empty());
        assert(rs.drop_first() =~= Seq::<(int, char)>::empty());
        assert(render_runs(rs) =~= render_run(rs[0].0, rs[0].1) + render_runs(rs.drop_first()));
    } else {
        let head = rs.drop_last();
        assert(forall|j: int| 0 <= j < head.len() ==> head[j] == #[trigger] rs[j]);
        lemma_render_runs_cons(head);
        assert(head.drop_first() =~= rs.drop_first().drop_last());
        assert(rs.drop_first().len() >= 1);
        assert(rs.drop_first().last() == rs.last());
        assert(render_runs(rs.drop_first()) == render_runs(rs.drop_first().drop_last())
            + render_run(rs.last().0, rs.last().1));
        assert(render_runs(rs) =~= render_run(rs[0].0, rs[0].1) + render_runs(rs.drop_first()));
    }
}

/// A rendered count followed by a non-digit sets the pending count.
proof fn lemma_decode_count_prefix(cells: Seq<Cell>, w: int, h: int, col: int, row: int, n: int,
    tail: Seq<char>)
    requires
        2 <= n <= i32::MAX,
        tail.len() > 0,
        !is_digit(tail[0]),
    ensures
        decode_body(cells, w, h, col, row, 1, dec_chars(n) + tail) == decode_body(cells, w, h,
            col, row, n, tail),
{
    let s = dec_chars(n) + tail;
    let d = dec_chars(n);
    lemma_dec_chars_digits(n);
    crate::text::lemma_dec_chars_value(n);
    assert(forall|k: int| 0 <= k < d.len() ==> s[k] == #[trigger] d[k]);
    assert(s[d.len() as int] == tail[0]);
    lemma_dpl_char(s, d.len() as int);
    assert(s.take(d.len() as int) =~= d);
    assert(s.skip(d.len() as int) =~= tail);
    assert(is_digit(s[0]));
    assert(s[0] != '!');
}

/// The streak of one raw symbol repeated `k` times acts like one counted
/// token.
proof fn lemma_decode_raw_run(cells: Seq<Cell>, w: int, h: int, col: int, row: int, k: int,
    c: char, s: Seq<char>)
    requires
        1 <= k <= s.len(),
        forall|j: int| 0 <= j < k ==> #[trigger] s[j] == c,
        c == 'o' || c == 'b' || c == '$',
    ensures
        c == 'o' ==> decode_body(cells, w, h, col, row, 1, s) == decode_body(paint_cells(cells,
            w, h, col, row, k, Cell::Alive), w, h, col + k, row, 1, s.skip(k)),
        c == 'b' ==> decode_body(cells, w, h, col, row, 1, s) == decode_body(paint_cells(cells,
            w, h, col, row, k, Cell::Dead), w, h, col + k, row, 1, s.skip(k)),
        c == '$' ==> decode_body(cells, w, h, col, row, 1, s) == decode_body(cells, w, h, 0, row
            + k, 1, s.skip(k)),
    decreases k,
{
    assert('o' as int == 111 && 'b' as int == 98 && '$' as int == 36 && '!' as int == 33);
    assert(!is_digit(c) && c != '!');
    assert(s[0] == c);
    if k == 1 {
        if c == 'o' {
            assert(decode_body(cells, w, h, col, row, 1, s) == decode_body(paint_cells(cells, w,
                h, col, row, 1, Cell::Alive), w, h, col + 1, row, 1, s.skip(1)));
        } else if c == 'b' {
            assert(decode_body(cells, w, h, col, row, 1, s) == decode_body(paint_cells(cells, w,
                h, col, row, 1, Cell::Dead), w, h, col + 1, row, 1, s.skip(1)));
        }
    } else {
        let rest = s.skip(1);
        assert(forall|j: int| 0 <= j < k - 1 ==> rest[j] == #[trigger] s[j + 1]);
        if c == 'o' {
            lemma_decode_raw_run(set_cell_seq(cells, w, h, col, row, Cell::Alive), w, h, col + 1,
                row, k - 1, c, rest);
            assert(rest.skip(k - 1) =~= s.skip(k));
            assert(paint_cells(set_cell_seq(cells, w, h, col, row, Cell::Alive), w, h, col + 1,
                row, 0, Cell::Alive) == set_cell_seq(cells, w, h, col, row, Cell::Alive));
            assert(paint_cells(cells, w, h, col, row, 1, Cell::Alive) == set_cell_seq(cells, w,
                h, col, row, Cell::Alive));
            assert(decode_body(cells, w, h, col, row, 1, s) == decode_body(set_cell_seq(cells,
                w, h, col, row, Cell::Alive), w, h, col + 1, row, 1, rest));
            assert(paint_cells(cells, w, h, col, row, k, Cell::Alive) == paint_cells(
                set_cell_seq(cells, w, h, col, row, Cell::Alive), w, h, col + 1, row, k - 1,
                Cell::Alive));
        } else if c == 'b' {
            lemma_decode_raw_run(set_cell_seq(cells, w, h, col, row, Cell::Dead), w, h, col + 1,
                row, k - 1, c, rest);
            assert(rest.skip(k - 1) =~= s.skip(k));
            assert(paint_cells(set_cell_seq(cells, w, h, col, row, Cell::Dead), w, h, col + 1,
                row, 0, Cell::Dead) == set_cell_seq(cells, w, h, col, row, Cell::Dead));
            assert(paint_cells(cells, w, h, col, row, 1, Cell::Dead) == set_cell_seq(cells, w, h,
                col, row, Cell::Dead));
            assert(decode_body(cells, w, h, col, row, 1, s) == decode_body(set_cell_seq(cells,
                w, h, col, row, Cell::Dead), w, h, col + 1, row, 1, rest));
            assert(paint_cells(cells, w, h, col, row, k, Cell::Dead) == paint_cells(set_cell_seq(
                cells, w, h, col, row, Cell::Dead), w, h, col + 1, row, k - 1, Cell::Dead));
        } else {
            lemma_decode_raw_run(cells, w, h, 0, row + 1, k - 1, c, rest);
            assert(rest.skip(k - 1) =~= s.skip(k));
        }
    }
}

/// Law: run-length compression is sound for the decoder. Painting the
/// rendered, compressed form of a symbol stream is the same as painting the
/// raw stream itself, for any stream of cell, row-break and terminator
/// symbols whose maximal runs fit the machine range.
pub proof fn lemma_decode_compressed(cells: Seq<Cell>, w: int, h: int, col: int, row: int,
    s: Seq<char>)
    requires
        forall|j: int| 0 <= j < s.len()
            ==> (#[trigger] s[j] == 'o' || s[j] == 'b' || s[j] == '$' || s[j] == '!'),
        s.len() <= i32::MAX,
    ensures
        decode_body(cells, w, h, col, row, 1, render_runs(runs_of(s))) == decode_body(cells, w,
            h, col, row, 1, s),
    decreases s.len(),
{
    if s.len() == 0 {
        assert(runs_of(s) =~= Seq::<(int, char)>::empty());
        assert(render_runs(runs_of(s)) =~= Seq::<char>::empty());
    } else {
        let c = s[0];
        lemma_run_len_props(s);
        let k = run_len(s);
        lemma_runs_front(s, k);
        lemma_runs_nonempty(s);
        lemma_render_runs_cons(runs_of(s));
        assert(runs_of(s)[0] == (k, c));
        assert(runs_of(s).drop_first() =~= runs_of(s.skip(k)));
        let rendered = render_runs(runs_of(s));
        assert(rendered == render_run(k, c) + render_runs(runs_of(s.skip(k))));
        let rtail = render_runs(runs_of(s.skip(k)));
        assert(!is_digit(c)) by {
            assert('o' as int == 111 && 'b' as int == 98 && '$' as int == 36
                && '!' as int == 33);
        }
        if c == '!' {
            // Both forms stop at the terminator with the buffer unchanged.
            if k == 1 {
                assert(rendered[0] == '!');
                assert(decode_body(cells, w, h, col, row, 1, rendered) == Ok::<Seq<Cell>,
                    RLEDecoderError>(cells));
            } else {
                lemma_decode_count_prefix(cells, w, h, col, row, k, seq!['!'] + rtail);
                assert(rendered =~= dec_chars(k) + (seq!['!'] + rtail));
                assert((seq!['!'] + rtail)[0] == '!');
            }
            assert(decode_body(cells, w, h, col, row, 1, s) == Ok::<Seq<Cell>, RLEDecoderError>(
                cells));
        } else {
            assert(forall|j: int| 0 <= j < s.skip(k).len()
                ==> (#[trigger] s.skip(k)[j] == 'o' || s.skip(k)[j] == 'b' || s.skip(k)[j] == '$'
                    || s.skip(k)[j] == '!'));
            lemma_decode_raw_run(cells, w, h, col, row, k, c, s);
            if c == 'o' {
                let cells2 = paint_cells(cells, w, h, col, row, k, Cell::Alive);
                lemma_decode_compressed(cells2, w, h, col + k, row, s.skip(k));
                if k == 1 {
                    assert(rendered == seq![c] + rtail);
                    assert(rendered[0] == 'o');
                    assert(rendered.skip(1) =~= rtail);
                } else {
                    lemma_decode_count_prefix(cells, w, h, col, row, k, seq![c] + rtail);
                    assert(rendered =~= dec_chars(k) + (seq![c] + rtail));
                    assert((seq![c] + rtail)[0] == 'o');
                    assert((seq![c] + rtail).skip(1) =~= rtail);
                }
            } else if c == 'b' {
                let cells2 = paint_cells(cells, w, h, col, row, k, Cell::Dead);
                lemma_decode_compressed(cells2, w, h, col + k, row, s.skip(k));
                if k == 1 {
                    assert(rendered == seq![c] + rtail);
                    assert(rendered[0] == 'b');
                    assert(rendered.skip(1) =~= rtail);
                } else {
                    lemma_decode_count_prefix(cells, w, h, col, row, k, seq![c] + rtail);
                    assert(rendered =~= dec_chars(k) + (seq![c] + rtail));
                    assert((seq![c] + rtail)[0] == 'b');
                    assert((seq![c] + rtail).skip(1) =~= rtail);
                }
            } else {
                lemma_decode_compressed(cells, w, h, 0, row + k, s.skip(k));
                if k == 1 {
                    assert(rendered == seq![c] + rtail);
                    assert(rendered[0] == '$');
                    assert(rendered.skip(1) =~= rtail);
                } else {
                    lemma_decode_count_prefix(cells, w, h, col, row, k, seq![c] + rtail);
                    assert(rendered =~= dec_chars(k) + (seq![c] + rtail));
                    assert((seq![c] + rtail)[0] == '$');
                    assert((seq![c] + rtail).skip(1) =~= rtail);
                }
            }
        }
    }
}

/// The parse of one `<dim> = <value>` header field: the field must split at
/// `=` into exactly two parts which, trimmed, are the dimension name and an
/// unsigned integer.
pub open spec fn parse_size_spec(dim: Seq<char>, s: Seq<char>) -> Result<int, RLEDecoderError> {
    let parts = split_char(s, '=').map_values(|p: Seq<char>| trim_chars(p));
    if parts.len() != 2 {
        Err(RLEDecoderError::InvalidHeader)
    } else if parts[0] != dim {
        Err(RLEDecoderError::InvalidHeader)
    } else if !is_u32_chars(parts[1]) {
        Err(RLEDecoderError::InvalidHeader)
    } else {
        Ok(u32_chars_value(parts[1]))
    }
}

/// Parses one header size field against `parse_size_spec`.
fn parse_size_inner(dimv: &Vec<char>, sv: &Vec<char>) -> (r: Result<u32, RLEDecoderError>)
    ensures
        parse_size_spec(dimv@, sv@) is Ok ==> r is Ok && r->Ok_0 as int == parse_size_spec(
            dimv@, sv@)->Ok_0,
        parse_size_spec(dimv@, sv@) is Err ==> r == Result::<u32, RLEDecoderError>::Err(
            RLEDecoderError::InvalidHeader),
{
    let ghost sparts = split_char(sv@, '=').map_values(|p: Seq<char>| trim_chars(p));
    let parts = split_char_vec(sv, '=');
    proof {
        assert(sparts.len() == parts@.len());
    }
    if parts.len() != 2 {
        return Err(RLEDecoderError::InvalidHeader);
    }
    let t0 = trim_vec(&parts[0]);
    let t1 = trim_vec(&parts[1]);
    proof {
        assert(parts@.map_values(|l: Vec<char>| l@)[0] == parts@[0]@);
        assert(parts@.map_values(|l: Vec<char>| l@)[1] == parts@[1]@);
        assert(t0@ == sparts[0]);
        assert(t1@ == sparts[1]);
    }
    if !chars_eq(&t0, dimv) {
        return Err(RLEDecoderError::InvalidHeader);
    }
    proof {
        assert(t1@.subrange(0, t1@.len() as int) =~= t1@);
    }
    match parse_u32_chars(&t1, 0, t1.len()) {
        Some(v) => Ok(v),
        None => Err(RLEDecoderError::InvalidHeader),
    }
}

/// Parses a `<dim> = <value>` header field, as it appears between the
/// commas of an RLE header line. Fails with `InvalidHeader` exactly when
/// the field does not split at `=` into the dimension name and an unsigned
/// integer.
pub fn parse_size_value(dim: &str, s: &str) -> (r: Result<u32, RLEDecoderError>)
    ensures
        parse_size_spec(dim@, s@) is Ok ==> r is Ok && r->Ok_0 as int == parse_size_spec(
            dim@, s@)->Ok_0,
        parse_size_spec(dim@, s@) is Err ==> r == Result::<u32, RLEDecoderError>::Err(
            RLEDecoderError::InvalidHeader),
{
    let dv = str_chars(dim);
    let sv = str_chars(s);
    parse_size_inner(&dv, &sv)
}

/// An all-dead buffer of `n` cells.
pub open spec fn all_dead(n: int) -> Seq<Cell> {
    Seq::new(n as nat, |i: int| Cell::Dead)
}

/// The decode of an RLE text: the first non-comment line is the header,
/// whose first two comma-separated fields give the clamped dimensions; the
/// remaining non-comment lines, joined, form the body, painted onto an
/// all-dead grid with toroidal wraparound.
pub open spec fn rle_decode(s: Seq<char>) -> Result<(int, int, Seq<Cell>), RLEDecoderError> {
    let ls = non_comment_lines(s);
    if ls.len() == 0 {
        Err(RLEDecoderError::InvalidHeader)
    } else {
        let hdr = split_char(ls[0], ',');
        if hdr.len() < 2 {
            Err(RLEDecoderError::InvalidHeader)
        } else {
            match parse_size_spec(seq!['x'], hdr[0]) {
                Err(e) => Err(e),
                Ok(wv) => match parse_size_spec(seq!['y'], hdr[1]) {
                    Err(e) => Err(e),
                    Ok(hv) => {
                        let w = clamp_dim(wv);
                        let h = clamp_dim(hv);
                        if w * h > i32::MAX {
                            Err(RLEDecoderError::InvalidHeader)
                        } else {
                            match decode_body(all_dead(w * h), w, h, 0, 0, 1,
                                concat_lines(ls.skip(1))) {
                                Ok(cells) => Ok((w, h, cells)),
                                Err(e) => Err(e),
                            }
                        }
                    },
                },
            }
        }
    }
}

impl Universe {
    /// Decodes an RLE text into a fresh grid. Comment lines are skipped;
    /// the first remaining line must carry `x = <w>` and `y = <h>` as its
    /// first two comma-separated fields (else `InvalidHeader`); the body is
    /// painted by run-length tokens onto an all-dead grid of the clamped
    /// dimensions, wrapping toroidally, until `!` or the end of the text; a
    /// stray character fails with `InvalidTag` and an oversized count with
    /// `InvalidNumber`.
    #[verifier::rlimit(100)]
    pub fn from_rle(input: &str) -> (r: Result<Universe, RLEDecoderError>)
        ensures
            r is Ok <==> rle_decode(input@) is Ok,
            r is Ok ==> {
                let (w, h, cells) = rle_decode(input@)->Ok_0;
                &&& r->Ok_0.wf()
                &&& r->Ok_0.spec_width() == w
                &&& r->Ok_0.spec_height() == h
                &&& r->Ok_0.spec_cells() == cells
            },
            r is Err ==> rle_decode(input@) is Err && r->Err_0 == rle_decode(input@)->Err_0,
    {
        let chars = str_chars(input);
        let lines = non_comment_lines_vec(&chars);
        let ghost ls = lines@.map_values(|l: Vec<char>| l@);
        if lines.len() == 0 {
            return Err(RLEDecoderError::InvalidHeader);
        }
        let hdr_parts = split_char_vec(&lines[0], ',');
        proof {
            assert(ls[0] == lines@[0]@);
            assert(split_char(ls[0], ',').len() == hdr_parts@.len());
        }
        if hdr_parts.len() < 2 {
            return Err(RLEDecoderError::InvalidHeader);
        }
        let mut dx: Vec<char> = Vec::new();
        dx.push('x');
        let mut dy: Vec<char> = Vec::new();
        dy.push('y');
        proof {
            assert(dx@ =~= seq!['x']);
            assert(dy@ =~= seq!['y']);
            assert(hdr_parts@.map_values(|l: Vec<char>| l@)[0] == hdr_parts@[0]@);
            assert(hdr_parts@.map_values(|l: Vec<char>| l@)[1] == hdr_parts@[1]@);
        }
        let wv = match parse_size_inner(&dx, &hdr_parts[0]) {
            Ok(v) => v,
            Err(e) => {
                return Err(e);
            },
        };
        let hv = match parse_size_inner(&dy, &hdr_parts[1]) {
            Ok(v) => v,
            Err(e) => {
                return Err(e);
            },
        };
        let wc: i32 = if wv == 0 || wv > 0x7fff_ffffu32 {
            1
        } else {
            wv as i32
        };
        let hc: i32 = if hv == 0 || hv > 0x7fff_ffffu32 {
            1
        } else {
            hv as i32
        };
        let ghost w = clamp_dim(wv as int);
        let ghost h = clamp_dim(hv as int);
        proof {
            assert(wc as int == w);
            assert(hc as int == h);
            assert(0 <= (wc as i64) * (hc as i64) <= 0x4000_0000_0000_0000) by (nonlinear_arith)
                requires
                    1 <= wc <= i32::MAX,
                    1 <= hc <= i32::MAX,
            ;
        }
        if (wc as i64) * (hc as i64) > i32::MAX as i64 {
            return Err(RLEDecoderError::InvalidHeader);
        }
        let mut u = Universe::new(wc as u32, hc as u32);
        let body = concat_from(&lines, 1);
        proof {
            assert(u.spec_cells() =~= all_dead(w * h));
            assert(ls.skip(1) =~~= lines@.map_values(|l: Vec<char>| l@).skip(1));
        }
        let mut colw: i32 = 0;
        let mut roww: i32 = 0;
        let mut count: i32 = 1;
        let ghost mut col: int = 0;
        let ghost mut row: int = 0;
        let mut pos: usize = 0;
        proof {
            assert(body@.skip(0) =~= body@);
            crate::coords::lemma_wrap_small(0, w);
            crate::coords::lemma_wrap_small(0, h);
        }
        while pos < body.len()
            invariant
                u.wf(),
                u.spec_width() == w,
                u.spec_height() == h,
                1 <= w,
                1 <= h,
                w * h <= i32::MAX,
                wc as int == w,
                hc as int == h,
                pos <= body@.len(),
                0 <= colw < w,
                colw == wrap(col, w),
                0 <= roww < h,
                roww == wrap(row, h),
                0 <= count,
                rle_decode(input@) == match decode_body(u.spec_cells(), w, h, col, row,
                    count as int, body@.skip(pos as int)) {
                    Ok(cells) => Ok::<(int, int, Seq<Cell>), RLEDecoderError>((w, h, cells)),
                    Err(e) => Err::<(int, int, Seq<Cell>), RLEDecoderError>(e),
                },
            decreases body@.len() - pos,
        {
            let ghost rest = body@.skip(pos as int);
            proof {
                assert(rest.len() > 0);
                assert(rest[0] == body@[pos as int]);
                assert(rest.skip(1) =~= body@.skip(pos + 1));
            }
            let c = body[pos];
            if c == '!' {
                return Ok(u);
            } else if crate::text::char_is_digit(c) {
                let j = crate::text::find_nondigit_from(&body, pos);
                proof {
                    assert(forall|k: int| 0 <= k < rest.len()
                        ==> rest[k] == #[trigger] body@[k + pos]);
                    assert forall|k: int| 0 <= k < j - pos implies is_digit(
                        #[trigger] rest[k]) by {
                        assert(rest[k] == body@[k + pos]);
                    }
                    lemma_dpl_char(rest, j - pos);
                    assert(rest.take(j - pos) =~= body@.subrange(pos as int, j as int));
                }
                match crate::text::parse_digits_capped(&body, pos, j, 0x7fff_ffffu64) {
                    Some(n) => {
                        proof {
                            assert(rest.skip(j - pos) =~= body@.skip(j as int));
                        }
                        count = n as i32;
                        pos = j;
                    },
                    None => {
                        return Err(RLEDecoderError::InvalidNumber);
                    },
                }
            } else if c == 'o' || c == 'b' {
                let state = if c == 'o' {
                    Cell::Alive
                } else {
                    Cell::Dead
                };
                let ghost cells0 = u.spec_cells();
                let mut i: i32 = 0;
                let mut cur: i32 = colw;
                while i < count
                    invariant
                        u.wf(),
                        u.spec_width() == w,
                        u.spec_height() == h,
                        1 <= w,
                        1 <= h,
                        0 <= i <= count,
                        0 <= cur < w,
                        cur == wrap(col + i, w),
                        0 <= roww < h,
                        roww == wrap(row, h),
                        wc as int == w,
                        paint_cells(cells0, w, h, col, row, count as int, state)
                            == paint_cells(u.spec_cells(), w, h, col + i, row, count - i, state),
                    decreases count - i,
                {
                    let ghost before = u.spec_cells();
                    u.set_cell(cur, roww, state);
                    proof {
                        lemma_wrap_small(cur as int, w);
                        lemma_wrap_small(roww as int, h);
                        lemma_wrap_add(col + i, 0, w);
                        lemma_wrap_add(row, 0, h);
                        assert(wrap(cur as int, w) == wrap(col + i, w));
                        assert(wrap(roww as int, h) == wrap(row, h));
                        assert(u.spec_cells() == set_cell_seq(before, w, h, col + i, row, state));
                    }
                    cur = if cur + 1 == wc {
                        0
                    } else {
                        cur + 1
                    };
                    proof {
                        lemma_wrap_add(col + i, 1, w);
                        if wrap(col + i, w) + 1 == w {
                            vstd::arithmetic::div_mod::lemma_mod_self_0(w);
                            assert(wrap(col + i + 1, w) == 0);
                        } else {
                            lemma_wrap_small(wrap(col + i, w) + 1, w);
                        }
                    }
                    i = i + 1;
                }
                colw = cur;
                proof {
                    col = col + count as int;
                }
                count = 1;
                pos = pos + 1;
            } else if c == '$' {
                roww = crate::coords::wrap_coord_wide(roww as i64 + count as i64, hc as i64)
                    as i32;
                proof {
                    lemma_wrap_add(row, count as int, h);
                    col = 0;
                    row = row + count as int;
                    crate::coords::lemma_wrap_small(0, w);
                }
                colw = 0;
                count = 1;
                pos = pos + 1;
            } else {
                return Err(RLEDecoderError::InvalidTag);
            }
        }
        Ok(u)
    }
}

} // verus!
