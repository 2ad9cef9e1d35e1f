//! The Life 1.06 codec: a header line, then one `x y` line per alive cell.

use vstd::prelude::*;
use vstd::string::StringExecFns;
use crate::coords::{
    rowmajor, lemma_wrap_small, lemma_rowmajor_inverse, lemma_rowmajor_in_range,
};
use crate::grid::{Cell, Universe, clamp_dim, set_cell_seq};
use crate::text::{
    dec_chars, is_i32_chars, i32_chars_value, split_ws, split_ws_vec, non_comment_lines,
    non_comment_lines_vec, str_chars, parse_i32_chars, is_comment,
};

verus! {

/// The failure of a Life 1.06 decode.
#[derive(Clone, Copy, Debug, PartialEq, Eq, Structural)]
pub enum Life106DecoderError {
    InvalidType,
    InvalidFormat,
}

impl Life106DecoderError {
    /// A human-readable description of the failure.
    pub fn message(&self) -> (r: String)
        ensures
            *self is InvalidType ==> r@ == "Invalid type"@,
            *self is InvalidFormat ==> r@ == "Invalid format"@,
    {
        match self {
            Life106DecoderError::InvalidType => {
                let mut s = String::new();
                s.append("Invalid type");
                s
            },
            Life106DecoderError::InvalidFormat => {
                let mut s = String::new();
                s.append("Invalid format");
                s
            },
        }
    }
}

/// The header line of the format, without its newline.
pub open spec fn l106_header() -> Seq<char> {
    seq!['#', 'L', 'i', 'f', 'e', ' ', '1', '.', '0', '6']
}

/// The coordinate line of an alive cell.
pub open spec fn coord_line(x: int, y: int) -> Seq<char> {
    dec_chars(x) + seq![' '] + dec_chars(y)
}

/// The coordinate lines of the alive cells among the first `n` buffer
/// positions, in row-major scan order.
pub open spec fn l106_lines_upto(g: Universe, n: int) -> Seq<Seq<char>>
    decreases n,
{
    if n <= 0 {
        Seq::empty()
    } else {
        let rest = l106_lines_upto(g, n - 1);
        if g.spec_cells()[n - 1] is Alive {
            rest.push(coord_line((n - 1) % g.spec_width(), (n - 1) / g.spec_width()))
        } else {
            rest
        }
    }
}

/// Lines joined by single newlines, with none at either end.
pub open spec fn join_nl(ls: Seq<Seq<char>>) -> Seq<char>
    decreases ls.len(),
{
    if ls.len() == 0 {
        Seq::empty()
    } else if ls.len() == 1 {
        ls[0]
    } else {
        join_nl(ls.drop_last()) + seq!['\n'] + ls.last()
    }
}

/// Joining one more line appends a newline separator unless it is the first.
pub proof fn lemma_join_nl_push(ls: Seq<Seq<char>>, l: Seq<char>)
    ensures
        ls.len() == 0 ==> join_nl(ls.push(l)) == l,
        ls.len() > 0 ==> join_nl(ls.push(l)) == join_nl(ls) + seq!['\n'] + l,
{
    assert(ls.push(l).drop_last() =~~= ls);
    assert(ls.push(l).last() == l);
}

/// The complete Life 1.06 text of a grid.
pub open spec fn l106_encoding(g: Universe) -> Seq<char> {
    l106_header() + seq!['\n'] + join_nl(l106_lines_upto(g, g.spec_cells().len() as int))
}

/// Appends one decimal digit.
fn append_digit(s: &mut String, d: u64)
    requires
        d < 10,
    ensures
        final(s)@ == old(s)@ + seq![crate::text::digit_char(d as int)],
{
    if d == 0 {
        s.append("0");
        proof {
            reveal_strlit("0");
            assert(s@ =~= old(s)@ + seq![crate::text::digit_char(d as int)]);
        }
    } else if d == 1 {
        s.append("1");
        proof {
            reveal_strlit("1");
            assert(s@ =~= old(s)@ + seq![crate::text::digit_char(d as int)]);
        }
    } else if d == 2 {
        s.append("2");
        proof {
            reveal_strlit("2");
            assert(s@ =~= old(s)@ + seq![crate::text::digit_char(d as int)]);
        }
    } else if d == 3 {
        s.append("3");
        proof {
            reveal_strlit("3");
            assert(s@ =~= old(s)@ + seq![crate::text::digit_char(d as int)]);
        }
    } else if d == 4 {
        s.append("4");
        proof {
            reveal_strlit("4");
            assert(s@ =~= old(s)@ + seq![crate::text::digit_char(d as int)]);
        }
    } else if d == 5 {
        s.append("5");
        proof {
            reveal_strlit("5");
            assert(s@ =~= old(s)@ + seq![crate::text::digit_char(d as int)]);
        }
    } else if d == 6 {
        s.append("6");
        proof {
            reveal_strlit("6");
            assert(s@ =~= old(s)@ + seq![crate::text::digit_char(d as int)]);
        }
    } else if d == 7 {
        s.append("7");
        proof {
            reveal_strlit("7");
            assert(s@ =~= old(s)@ + seq![crate::text::digit_char(d as int)]);
        }
    } else if d == 8 {
        s.append("8");
        proof {
            reveal_strlit("8");
            assert(s@ =~= old(s)@ + seq![crate::text::digit_char(d as int)]);
        }
    } else {
        s.append("9");
        proof {
            reveal_strlit("9");
            assert(s@ =~= old(s)@ + seq![crate::text::digit_char(d as int)]);
        }
    }
}

/// Appends the canonical decimal rendering of `n`.
pub fn append_dec(s: &mut String, n: u64)
    ensures
        final(s)@ == old(s)@ + dec_chars(n as int),
    decreases n,
{
    if n >= 10 {
        append_dec(s, n / 10);
        append_digit(s, n % 10);
        proof {
            assert(s@ =~= old(s)@ + dec_chars(n as int));
        }
    } else {
        append_digit(s, n);
    }
}

impl Universe {
    /// Serialises the grid to Life 1.06 text: the header line, then one
    /// `x y` coordinate line per alive cell in row-major scan order.
    pub fn to_life_106(&self) -> (r: String)
        requires
            self.wf(),
        ensures
            r@ == l106_encoding(*self),
    {
        let mut s = String::new();
        s.append("#Life 1.06\n");
        proof {
            reveal_strlit("#Life 1.06\n");
            assert(s@ =~= l106_header() + seq!['\n']);
        }
        let ghost hdr = s@;
        let mut first = true;
        let mut i: usize = 0;
        while i < self.cells.len()
            invariant
                self.wf(),
                i <= self.spec_cells().len(),
                hdr == l106_header() + seq!['\n'],
                first == (l106_lines_upto(*self, i as int).len() == 0),
                s@ == hdr + join_nl(l106_lines_upto(*self, i as int)),
            decreases self.spec_cells().len() - i,
        {
            let ghost lines0 = l106_lines_upto(*self, i as int);
            let is_alive = match self.cells[i] {
                Cell::Alive => true,
                Cell::Dead => false,
            };
            if is_alive {
                let (x, y) = self.get_coordinates(i);
                if !first {
                    s.append("\n");
                    proof {
                        reveal_strlit("\n");
                        assert(s@ =~= hdr + join_nl(lines0) + seq!['\n']);
                    }
                }
                append_dec(&mut s, x as u64);
                s.append(" ");
                proof {
                    reveal_strlit(" ");
                }
                append_dec(&mut s, y as u64);
                proof {
                    lemma_join_nl_push(lines0, coord_line(x as int, y as int));
                    if first {
                        assert(s@ =~= hdr + join_nl(l106_lines_upto(*self, i + 1)));
                    } else {
                        assert(s@ =~= hdr + join_nl(l106_lines_upto(*self, i + 1)));
                    }
                }
                first = false;
            }
            i = i + 1;
        }
        s
    }
}

/// The parsed coordinate pairs of the non-comment lines: blank lines are
/// skipped, and every other line must hold exactly two signed integers.
pub open spec fn l106_parse_lines(ls: Seq<Seq<char>>) -> Result<
    Seq<(int, int)>,
    Life106DecoderError,
>
    decreases ls.len(),
{
    if ls.len() == 0 {
        Ok(Seq::empty())
    } else {
        let toks = split_ws(ls[0]);
        let rest = l106_parse_lines(ls.drop_first());
        if toks.len() == 0 {
            rest
        } else if toks.len() == 2 && is_i32_chars(toks[0]) && is_i32_chars(toks[1]) {
            match rest {
                Ok(cs) => Ok(seq![(i32_chars_value(toks[0]), i32_chars_value(toks[1]))] + cs),
                Err(e) => Err(e),
            }
        } else {
            Err(Life106DecoderError::InvalidFormat)
        }
    }
}

/// The least x coordinate among the first `n` pairs.
pub open spec fn min_x_upto(cs: Seq<(int, int)>, n: int) -> int
    decreases n,
{
    if n <= 1 {
        cs[0].0
    } else {
        let m = min_x_upto(cs, n - 1);
        if cs[n - 1].0 < m {
            cs[n - 1].0
        } else {
            m
        }
    }
}

/// The greatest x coordinate among the first `n` pairs.
pub open spec fn max_x_upto(cs: Seq<(int, int)>, n: int) -> int
    decreases n,
{
    if n <= 1 {
        cs[0].0
    } else {
        let m = max_x_upto(cs, n - 1);
        if cs[n - 1].0 > m {
            cs[n - 1].0
        } else {
            m
        }
    }
}

/// The least y coordinate among the first `n` pairs.
pub open spec fn min_y_upto(cs: Seq<(int, int)>, n: int) -> int
    decreases n,
{
    if n <= 1 {
        cs[0].1
    } else {
        let m = min_y_upto(cs, n - 1);
        if cs[n - 1].1 < m {
            cs[n - 1].1
        } else {
            m
        }
    }
}

/// The greatest y coordinate among the first `n` pairs.
pub open spec fn max_y_upto(cs: Seq<(int, int)>, n: int) -> int
    decreases n,
{
    if n <= 1 {
        cs[0].1
    } else {
        let m = max_y_upto(cs, n - 1);
        if cs[n - 1].1 > m {
            cs[n - 1].1
        } else {
            m
        }
    }
}

/// The grid dimensions spanned by a non-empty set of coordinates: the
/// bounding box, one cell wider and taller than the extent.
pub open spec fn l106_span_w(cs: Seq<(int, int)>) -> int {
    max_x_upto(cs, cs.len() as int) - min_x_upto(cs, cs.len() as int) + 1
}

pub open spec fn l106_span_h(cs: Seq<(int, int)>) -> int {
    max_y_upto(cs, cs.len() as int) - min_y_upto(cs, cs.len() as int) + 1
}

/// The cell buffer painted from a coordinate set: a cell is alive exactly
/// when its shifted position appears among the parsed pairs.
pub open spec fn l106_cells(cs: Seq<(int, int)>) -> Seq<Cell> {
    let xmin = min_x_upto(cs, cs.len() as int);
    let ymin = min_y_upto(cs, cs.len() as int);
    let w = l106_span_w(cs);
    Seq::new((l106_span_w(cs) * l106_span_h(cs)) as nat,
        |j: int| if exists|k: int|
            0 <= k < cs.len() && cs[k] == (xmin + j % w, ymin + j / w) {
            Cell::Alive
        } else {
            Cell::Dead
        })
}

/// The decode of a Life 1.06 text: comment lines are skipped; every
/// remaining non-blank line must hold exactly two signed integers, there
/// must be at least one, and the bounding box must fit the engine's limits;
/// the result is the bounding-box grid with each listed cell alive.
pub open spec fn l106_decode(s: Seq<char>) -> Result<(int, int, Seq<Cell>), Life106DecoderError> {
    match l106_parse_lines(non_comment_lines(s)) {
        Err(e) => Err(e),
        Ok(cs) => if cs.len() == 0 {
            Err(Life106DecoderError::InvalidFormat)
        } else if l106_span_w(cs) * l106_span_h(cs) > i32::MAX {
            Err(Life106DecoderError::InvalidFormat)
        } else {
            Ok((l106_span_w(cs), l106_span_h(cs), l106_cells(cs)))
        },
    }
}

impl Universe {
    /// Decodes a Life 1.06 text into a fresh grid sized to the bounding box
    /// of the listed cells, which are shifted to the origin and set alive.
    /// Fails with `InvalidFormat` exactly when a non-comment, non-blank line
    /// is not two signed integers, when no cell is listed, or when the
    /// bounding box exceeds the engine's limits.
    #[verifier::rlimit(100)]
    pub fn from_life_106(input: &str) -> (r: Result<Universe, Life106DecoderError>)
        ensures
            r is Ok <==> l106_decode(input@) is Ok,
            r is Ok ==> {
                let (w, h, cells) = l106_decode(input@)->Ok_0;
                &&& r->Ok_0.wf()
                &&& r->Ok_0.spec_width() == w
                &&& r->Ok_0.spec_height() == h
                &&& r->Ok_0.spec_cells() == cells
            },
            r is Err ==> l106_decode(input@) is Err && r->Err_0 == l106_decode(input@)->Err_0,
    {
        let chars = str_chars(input);
        let lines = non_comment_lines_vec(&chars);
        let ghost ls = lines@.map_values(|l: Vec<char>| l@);
        let mut coords: Vec<(i32, i32)> = Vec::new();
        let mut i: usize = 0;
        proof {
            assert(ls.skip(0) =~~= ls);
            assert(coords@.map_values(|p: (i32, i32)| (p.0 as int, p.1 as int))
                =~= Seq::<(int, int)>::empty());
            if l106_parse_lines(ls) is Ok {
                assert(Seq::<(int, int)>::empty() + l106_parse_lines(ls)->Ok_0
                    =~= l106_parse_lines(ls)->Ok_0);
            }
        }
        while i < lines.len()
            invariant
                i <= lines@.len(),
                ls == lines@.map_values(|l: Vec<char>| l@),
                ls == non_comment_lines(input@),
                l106_parse_lines(ls) == match l106_parse_lines(ls.skip(i as int)) {
                    Ok(cs) => Ok::<Seq<(int, int)>, Life106DecoderError>(
                        coords@.map_values(|p: (i32, i32)| (p.0 as int, p.1 as int)) + cs),
                    Err(e) => Err::<Seq<(int, int)>, Life106DecoderError>(e),
                },
            decreases lines@.len() - i,
        {
            let ghost rest = ls.skip(i as int);
            proof {
                assert(rest.len() > 0);
                assert(rest[0] == ls[i as int]);
                assert(rest.drop_first() =~~= ls.skip(i + 1));
            }
            let toks = split_ws_vec(&lines[i]);
            let ghost stoks = split_ws(rest[0]);
            let ghost cs0 = coords@.map_values(|p: (i32, i32)| (p.0 as int, p.1 as int));
            proof {
                assert(stoks == toks@.map_values(|l: Vec<char>| l@));
                assert(stoks.len() == toks@.len());
            }
            if toks.len() == 2 {
                proof {
                    assert(stoks[0] == toks@[0]@);
                    assert(stoks[1] == toks@[1]@);
                    assert(toks@[0]@.subrange(0, toks@[0]@.len() as int) =~= toks@[0]@);
                    assert(toks@[1]@.subrange(0, toks@[1]@.len() as int) =~= toks@[1]@);
                }
                let x = match parse_i32_chars(&toks[0], 0, toks[0].len()) {
                    Some(x) => x,
                    None => {
                        proof {
                            assert(!is_i32_chars(stoks[0]));
                            assert(l106_parse_lines(rest)
                                == Err::<Seq<(int, int)>, Life106DecoderError>(
                                Life106DecoderError::InvalidFormat));
                        }
                        return Err(Life106DecoderError::InvalidFormat);
                    },
                };
                let y = match parse_i32_chars(&toks[1], 0, toks[1].len()) {
                    Some(y) => y,
                    None => {
                        proof {
                            assert(!is_i32_chars(stoks[1]));
                            assert(l106_parse_lines(rest)
                                == Err::<Seq<(int, int)>, Life106DecoderError>(
                                Life106DecoderError::InvalidFormat));
                        }
                        return Err(Life106DecoderError::InvalidFormat);
                    },
                };
                proof {
                    assert(x as int == i32_chars_value(stoks[0]));
                    assert(y as int == i32_chars_value(stoks[1]));
                    assert(l106_parse_lines(rest) == match l106_parse_lines(rest.drop_first()) {
                        Ok(cs) => Ok::<Seq<(int, int)>, Life106DecoderError>(
                            seq![(x as int, y as int)] + cs),
                        Err(e) => Err::<Seq<(int, int)>, Life106DecoderError>(e),
                    });
                }
                coords.push((x, y));
                proof {
                    assert(coords@.map_values(|p: (i32, i32)| (p.0 as int, p.1 as int))
                        =~= cs0 + seq![(x as int, y as int)]);
                    if l106_parse_lines(ls.skip(i + 1)) is Ok {
                        let tailcs = l106_parse_lines(ls.skip(i + 1))->Ok_0;
                        assert(cs0 + (seq![(x as int, y as int)] + tailcs)
                            =~= (cs0 + seq![(x as int, y as int)]) + tailcs);
                    }
                }
            } else if toks.len() != 0 {
                proof {
                    assert(l106_parse_lines(rest) == Err::<Seq<(int, int)>, Life106DecoderError>(
                        Life106DecoderError::InvalidFormat));
                }
                return Err(Life106DecoderError::InvalidFormat);
            } else {
                proof {
                    assert(l106_parse_lines(rest) == l106_parse_lines(rest.drop_first()));
                }
            }
            i = i + 1;
        }
        proof {
            assert(ls.skip(ls.len() as int) =~~= Seq::<Seq<char>>::empty());
            let cs = coords@.map_values(|p: (i32, i32)| (p.0 as int, p.1 as int));
            assert(cs + Seq::<(int, int)>::empty() =~= cs);
        }
        let ghost cs = coords@.map_values(|p: (i32, i32)| (p.0 as int, p.1 as int));
        if coords.len() == 0 {
            return Err(Life106DecoderError::InvalidFormat);
        }
        let mut xmin = coords[0].0;
        let mut xmax = coords[0].0;
        let mut ymin = coords[0].1;
        let mut ymax = coords[0].1;
        let mut k: usize = 1;
        while k < coords.len()
            invariant
                1 <= k <= coords@.len(),
                cs == coords@.map_values(|p: (i32, i32)| (p.0 as int, p.1 as int)),
                cs.len() == coords@.len(),
                xmin == min_x_upto(cs, k as int),
                xmax == max_x_upto(cs, k as int),
                ymin == min_y_upto(cs, k as int),
                ymax == max_y_upto(cs, k as int),
            decreases coords@.len() - k,
        {
            let (x, y) = coords[k];
            if x < xmin {
                xmin = x;
            }
            if x > xmax {
                xmax = x;
            }
            if y < ymin {
                ymin = y;
            }
            if y > ymax {
                ymax = y;
            }
            k = k + 1;
        }
        proof {
            lemma_minmax_bounds(cs, cs.len() as int);
            assert(min_x_upto(cs, cs.len() as int) <= (cs[0]).0 <= max_x_upto(cs,
                cs.len() as int));
            assert(min_y_upto(cs, cs.len() as int) <= (cs[0]).1 <= max_y_upto(cs,
                cs.len() as int));
        }
        let w64: i64 = xmax as i64 - xmin as i64 + 1;
        let h64: i64 = ymax as i64 - ymin as i64 + 1;
        if w64 > i32::MAX as i64 || h64 > i32::MAX as i64 {
            proof {
                assert(w64 as int * h64 as int > i32::MAX) by (nonlinear_arith)
                    requires
                        w64 >= 1,
                        h64 >= 1,
                        w64 > i32::MAX || h64 > i32::MAX,
                ;
            }
            return Err(Life106DecoderError::InvalidFormat);
        }
        proof {
            assert(0 <= w64 as int * h64 as int <= 0x4000_0000_0000_0000) by (nonlinear_arith)
                requires
                    1 <= w64 <= i32::MAX,
                    1 <= h64 <= i32::MAX,
            ;
        }
        if w64 * h64 > i32::MAX as i64 {
            return Err(Life106DecoderError::InvalidFormat);
        }
        let mut u = Universe::new(w64 as u32, h64 as u32);
        let ghost w = l106_span_w(cs);
        let ghost h = l106_span_h(cs);
        proof {
            assert(clamp_dim(w64 as i32 as int) == w);
            assert(clamp_dim(h64 as i32 as int) == h);
        }
        let mut k: usize = 0;
        while k < coords.len()
            invariant
                k <= coords@.len(),
                cs == coords@.map_values(|p: (i32, i32)| (p.0 as int, p.1 as int)),
                cs.len() == coords@.len(),
                xmin == min_x_upto(cs, cs.len() as int),
                ymin == min_y_upto(cs, cs.len() as int),
                forall|j: int| 0 <= j < cs.len()
                    ==> xmin <= (#[trigger] cs[j]).0 <= xmin + w - 1 && ymin <= cs[j].1
                        <= ymin + h - 1,
                w == l106_span_w(cs),
                h == l106_span_h(cs),
                1 <= w,
                1 <= h,
                w * h <= i32::MAX,
                u.wf(),
                u.spec_width() == w,
                u.spec_height() == h,
                forall|j: int| 0 <= j < u.spec_cells().len()
                    ==> #[trigger] u.spec_cells()[j] == (if exists|kk: int|
                        0 <= kk < k && cs[kk] == (xmin + j % w, ymin + j / w) {
                        Cell::Alive
                    } else {
                        Cell::Dead
                    }),
            decreases coords@.len() - k,
        {
            let (x, y) = coords[k];
            proof {
                assert(cs[k as int] == (x as int, y as int));
                assert(xmin <= (cs[k as int]).0 <= xmin + w - 1);
                assert(ymin <= (cs[k as int]).1 <= ymin + h - 1);
            }
            let dx = (x as i64 - xmin as i64) as i32;
            let dy = (y as i64 - ymin as i64) as i32;
            let ghost u0 = u;
            u.set_cell(dx, dy, Cell::Alive);
            proof {
                lemma_wrap_small(dx as int, w);
                lemma_wrap_small(dy as int, h);
                lemma_rowmajor_in_range(dx as int, dy as int, w, h);
                lemma_rowmajor_inverse(dx as int, dy as int, w);
                let t = rowmajor(dx as int, dy as int, w);
                assert forall|j: int| 0 <= j < u.spec_cells().len()
                    implies #[trigger] u.spec_cells()[j] == (if exists|kk: int|
                        0 <= kk < k + 1 && cs[kk] == (xmin + j % w, ymin + j / w) {
                        Cell::Alive
                    } else {
                        Cell::Dead
                    }) by {
                    if j == t {
                        assert(cs[k as int] == (xmin + j % w, ymin + j / w));
                        assert(exists|kk: int|
                            0 <= kk < k + 1 && cs[kk] == (xmin + j % w, ymin + j / w));
                    } else {
                        assert(u.spec_cells()[j] == u0.spec_cells()[j]);
                        if exists|kk: int|
                            0 <= kk < k + 1 && cs[kk] == (xmin + j % w, ymin + j / w) {
                            let kk = choose|kk: int|
                                0 <= kk < k + 1 && cs[kk] == (xmin + j % w, ymin + j / w);
                            if kk == k {
                                crate::coords::lemma_index_split(j, w, h);
                                assert(false);
                            }
                        }
                    }
                }
            }
            k = k + 1;
        }
        proof {
            assert(u.spec_cells() =~= l106_cells(cs));
        }
        Ok(u)
    }
}

/// Joining at least two lines starts with the first and a newline.
proof fn lemma_join_nl_cons(ls: Seq<Seq<char>>)
    requires
        ls.len() >= 2,
    ensures
        join_nl(ls) == ls[0] + seq!['\n'] + join_nl(ls.drop_first()),
    decreases ls.len(),
{
    if ls.len() == 2 {
        assert(ls.drop_last() =~~= seq![ls[0]]);
        assert(ls.drop_first() =~~= seq![ls[1]]);
        assert(join_nl(seq![ls[0]]) == ls[0]);
        assert(join_nl(seq![ls[1]]) == ls[1]);
        assert(join_nl(ls) =~= ls[0] + seq!['\n'] + join_nl(ls.drop_first()));
    } else {
        let head = ls.drop_last();
        assert(head.len() >= 2);
        lemma_join_nl_cons(head);
        assert(head[0] == ls[0]);
        assert(head.drop_first() =~~= ls.drop_first().drop_last());
        assert(ls.drop_first().len() >= 2);
        assert(ls.drop_first().last() == ls.last());
        assert(join_nl(ls.drop_first()) == join_nl(ls.drop_first().drop_last()) + seq!['\n']
            + ls.last());
        assert(join_nl(ls) =~= ls[0] + seq!['\n'] + join_nl(ls.drop_first()));
    }
}

/// Splitting joined lines recovers them, for non-empty lines free of
/// newlines and of trailing carriage returns.
proof fn lemma_split_lines_join(ls: Seq<Seq<char>>)
    requires
        ls.len() >= 1,
        forall|i: int| 0 <= i < ls.len() ==> (#[trigger] ls[i]).len() > 0,
        forall|i: int, k: int| 0 <= i < ls.len() && 0 <= k < ls[i].len()
            ==> #[trigger] ls[i][k] != '\n',
        forall|i: int| 0 <= i < ls.len() ==> (#[trigger] ls[i]).last() != '\r',
    ensures
        crate::text::split_lines(join_nl(ls)) == ls,
    decreases ls.len(),
{
    if ls.len() == 1 {
        assert(join_nl(ls) == ls[0]);
        assert(forall|k: int| 0 <= k < ls[0].len() ==> #[trigger] ls[0][k] != '\n');
        crate::text::lemma_split_lines_whole(ls[0]);
        assert(crate::text::split_lines(join_nl(ls)) =~~= ls);
    } else {
        lemma_join_nl_cons(ls);
        let s = join_nl(ls);
        let j = ls[0].len() as int;
        assert(s =~= ls[0] + seq!['\n'] + join_nl(ls.drop_first()));
        assert(s[j] == '\n');
        assert(forall|k: int| 0 <= k < j ==> s[k] == #[trigger] ls[0][k]);
        crate::text::lemma_split_lines_peel(s, j);
        assert(s.take(j) =~= ls[0]);
        assert(crate::text::strip_cr(s.take(j)) == ls[0]);
        assert(s.skip(j + 1) =~= join_nl(ls.drop_first()));
        let tail = ls.drop_first();
        assert(forall|i: int| 0 <= i < tail.len() ==> tail[i] == #[trigger] ls[i + 1]);
        lemma_split_lines_join(tail);
        assert(crate::text::split_lines(s) =~~= ls);
    }
}

/// The tokens of a coordinate line are exactly its two rendered numbers.
proof fn lemma_split_ws_coord_line(x: int, y: int)
    requires
        0 <= x <= i32::MAX,
        0 <= y <= i32::MAX,
    ensures
        split_ws(coord_line(x, y)) == seq![dec_chars(x), dec_chars(y)],
{
    let l = coord_line(x, y);
    let dx = dec_chars(x);
    let dy = dec_chars(y);
    crate::text::lemma_dec_chars_digits(x);
    crate::text::lemma_dec_chars_digits(y);
    let j = dx.len() as int;
    assert(l[j] == ' ');
    assert forall|k: int| 0 <= k < j implies !crate::text::is_space(#[trigger] l[k]) by {
        assert(l[k] == dx[k]);
        crate::text::lemma_digit_not_space(dx[k]);
    }
    assert(crate::text::is_space(' '));
    crate::text::lemma_split_ws_peel(l, j);
    assert(l.take(j) =~= dx);
    let rest = l.skip(j);
    assert(rest =~= seq![' '] + dy);
    assert(crate::text::is_space(rest[0]));
    assert(rest.drop_first() =~= dy);
    assert(split_ws(rest) == split_ws(dy));
    assert forall|k: int| 0 <= k < dy.len() implies !crate::text::is_space(
        #[trigger] dy[k]) by {
        crate::text::lemma_digit_not_space(dy[k]);
    }
    crate::text::lemma_split_ws_peel(dy, dy.len() as int);
    assert(dy.take(dy.len() as int) =~= dy);
    assert(dy.skip(dy.len() as int) =~= Seq::<char>::empty());
    assert(split_ws(Seq::<char>::empty()) =~~= Seq::<Seq<char>>::empty());
    assert(split_ws(dy) =~~= seq![dy]);
    assert(split_ws(l) =~~= seq![dx, dy]);
}

/// The coordinate pairs of the alive cells among the first `n` buffer
/// positions, in scan order.
pub open spec fn alive_coords_upto(g: Universe, n: int) -> Seq<(int, int)>
    decreases n,
{
    if n <= 0 {
        Seq::empty()
    } else {
        let rest = alive_coords_upto(g, n - 1);
        if g.spec_cells()[n - 1] is Alive {
            rest.push(((n - 1) % g.spec_width(), (n - 1) / g.spec_width()))
        } else {
            rest
        }
    }
}

/// Parsing one more well-formed coordinate line appends its pair.
proof fn lemma_parse_lines_push(ls: Seq<Seq<char>>, l: Seq<char>)
    requires
        l106_parse_lines(ls) is Ok,
        split_ws(l).len() == 2,
        is_i32_chars(split_ws(l)[0]),
        is_i32_chars(split_ws(l)[1]),
    ensures
        l106_parse_lines(ls.push(l)) == Ok::<Seq<(int, int)>, Life106DecoderError>(
            l106_parse_lines(ls)->Ok_0.push((i32_chars_value(split_ws(l)[0]),
            i32_chars_value(split_ws(l)[1])))),
    decreases ls.len(),
{
    let p = (i32_chars_value(split_ws(l)[0]), i32_chars_value(split_ws(l)[1]));
    if ls.len() == 0 {
        assert(ls.push(l)[0] == l);
        assert(ls.push(l).drop_first() =~~= Seq::<Seq<char>>::empty());
        assert(l106_parse_lines(Seq::<Seq<char>>::empty())
            == Ok::<Seq<(int, int)>, Life106DecoderError>(Seq::empty()));
        assert(seq![p] + Seq::<(int, int)>::empty() =~= Seq::<(int, int)>::empty().push(p));
    } else {
        let all = ls.push(l);
        assert(all[0] == ls[0]);
        assert(all.drop_first() =~~= ls.drop_first().push(l));
        let toks = split_ws(ls[0]);
        assert(l106_parse_lines(ls.drop_first()) is Ok);
        lemma_parse_lines_push(ls.drop_first(), l);
        let cs = l106_parse_lines(ls.drop_first())->Ok_0;
        if toks.len() == 0 {
        } else {
            assert(l106_parse_lines(ls)->Ok_0 == seq![(i32_chars_value(toks[0]),
                i32_chars_value(toks[1]))] + cs);
            assert(seq![(i32_chars_value(toks[0]), i32_chars_value(toks[1]))] + cs.push(p)
                =~= (seq![(i32_chars_value(toks[0]), i32_chars_value(toks[1]))] + cs).push(p));
        }
    }
}

/// The parse of the encoded coordinate lines is the alive-coordinate list.
proof fn lemma_parse_encoded_lines(g: Universe, n: int)
    requires
        g.wf(),
        0 <= n <= g.spec_cells().len(),
    ensures
        l106_parse_lines(l106_lines_upto(g, n)) == Ok::<Seq<(int, int)>, Life106DecoderError>(
            alive_coords_upto(g, n)),
    decreases n,
{
    if n > 0 {
        lemma_parse_encoded_lines(g, n - 1);
        if g.spec_cells()[n - 1] is Alive {
            let x = (n - 1) % g.spec_width();
            let y = (n - 1) / g.spec_width();
            crate::coords::lemma_index_split(n - 1, g.spec_width(), g.spec_height());
            lemma_split_ws_coord_line(x, y);
            crate::text::lemma_dec_chars_is_i32(x);
            crate::text::lemma_dec_chars_is_i32(y);
            lemma_parse_lines_push(l106_lines_upto(g, n - 1), coord_line(x, y));
        }
    }
}

/// Every listed coordinate is in range and names an alive cell.
proof fn lemma_alive_coords_range(g: Universe, n: int)
    requires
        g.wf(),
        0 <= n <= g.spec_cells().len(),
    ensures
        forall|k: int| 0 <= k < alive_coords_upto(g, n).len()
            ==> {
                let p = #[trigger] alive_coords_upto(g, n)[k];
                &&& 0 <= p.0 < g.spec_width()
                &&& 0 <= p.1 < g.spec_height()
                &&& g.spec_cells()[rowmajor(p.0, p.1, g.spec_width())] is Alive
            },
    decreases n,
{
    if n > 0 {
        lemma_alive_coords_range(g, n - 1);
        if g.spec_cells()[n - 1] is Alive {
            crate::coords::lemma_index_split(n - 1, g.spec_width(), g.spec_height());
        }
    }
}

/// An alive cell's coordinates appear in the list.
proof fn lemma_alive_coords_member(g: Universe, n: int, idx: int)
    requires
        g.wf(),
        0 <= idx < n <= g.spec_cells().len(),
        g.spec_cells()[idx] is Alive,
    ensures
        alive_coords_upto(g, n).contains((idx % g.spec_width(), idx / g.spec_width())),
    decreases n,
{
    let p = (idx % g.spec_width(), idx / g.spec_width());
    if idx == n - 1 {
        assert(alive_coords_upto(g, n).last() == p);
        assert(alive_coords_upto(g, n)[alive_coords_upto(g, n).len() - 1] == p);
    } else {
        lemma_alive_coords_member(g, n - 1, idx);
        let k = choose|k: int| 0 <= k < alive_coords_upto(g, n - 1).len()
            && #[trigger] alive_coords_upto(g, n - 1)[k] == p;
        assert(alive_coords_upto(g, n)[k] == p);
    }
}

/// The bounding box stays within any box that contains every coordinate.
proof fn lemma_minmax_within(cs: Seq<(int, int)>, n: int, lox: int, hix: int, loy: int, hiy: int)
    requires
        1 <= n <= cs.len(),
        forall|k: int| 0 <= k < n
            ==> lox <= (#[trigger] cs[k]).0 <= hix && loy <= cs[k].1 <= hiy,
    ensures
        lox <= min_x_upto(cs, n),
        max_x_upto(cs, n) <= hix,
        loy <= min_y_upto(cs, n),
        max_y_upto(cs, n) <= hiy,
    decreases n,
{
    if n > 1 {
        lemma_minmax_within(cs, n - 1, lox, hix, loy, hiy);
    }
}

/// The shape of the encoded coordinate lines: non-empty, newline-free,
/// opening and closing with a digit.
proof fn lemma_encoded_lines_shape(g: Universe, n: int)
    requires
        g.wf(),
        0 <= n <= g.spec_cells().len(),
    ensures
        forall|i: int| 0 <= i < l106_lines_upto(g, n).len()
            ==> {
                let l = #[trigger] l106_lines_upto(g, n)[i];
                &&& l.len() > 0
                &&& crate::text::is_digit(l[0])
                &&& crate::text::is_digit(l.last())
                &&& forall|k: int| 0 <= k < l.len() ==> #[trigger] l[k] != '\n'
            },
    decreases n,
{
    if n > 0 {
        lemma_encoded_lines_shape(g, n - 1);
        if g.spec_cells()[n - 1] is Alive {
            let x = (n - 1) % g.spec_width();
            let y = (n - 1) / g.spec_width();
            crate::coords::lemma_index_split(n - 1, g.spec_width(), g.spec_height());
            let l = coord_line(x, y);
            crate::text::lemma_dec_chars_digits(x);
            crate::text::lemma_dec_chars_digits(y);
            assert(l[0] == dec_chars(x)[0]);
            assert(l.last() == dec_chars(y).last());
            assert forall|k: int| 0 <= k < l.len() implies #[trigger] l[k] != '\n' by {
                assert('\n' as int == 10 && ' ' as int == 32);
                if k < dec_chars(x).len() {
                    assert(l[k] == dec_chars(x)[k]);
                } else if k == dec_chars(x).len() {
                    assert(l[k] == ' ');
                } else {
                    assert(l[k] == dec_chars(y)[k - dec_chars(x).len() - 1]);
                }
            }
            assert(l106_lines_upto(g, n).last() == l);
            assert(forall|i: int| 0 <= i < l106_lines_upto(g, n - 1).len()
                ==> #[trigger] l106_lines_upto(g, n)[i] == l106_lines_upto(g, n - 1)[i]);
        }
    }
}

/// Law: decoding the Life 1.06 encoding of a tightly bounded grid — one
/// whose border rows and columns each hold an alive cell — reproduces the
/// grid exactly: the same dimensions and the same cell buffer.
#[verifier::rlimit(100)]
pub proof fn lemma_life106_round_trip(g: Universe)
    requires
        g.wf(),
        exists|y: int| 0 <= y < g.spec_height()
            && g.spec_cells()[#[trigger] rowmajor(0, y, g.spec_width())] is Alive,
        exists|y: int| 0 <= y < g.spec_height()
            && g.spec_cells()[#[trigger] rowmajor(g.spec_width() - 1, y, g.spec_width())] is Alive,
        exists|x: int| 0 <= x < g.spec_width()
            && g.spec_cells()[#[trigger] rowmajor(x, 0, g.spec_width())] is Alive,
        exists|x: int| 0 <= x < g.spec_width()
            && g.spec_cells()[#[trigger] rowmajor(x, g.spec_height() - 1, g.spec_width())] is Alive,
    ensures
        l106_decode(l106_encoding(g)) == Ok::<(int, int, Seq<Cell>), Life106DecoderError>(
            (g.spec_width(), g.spec_height(), g.spec_cells())),
{
    let w = g.spec_width();
    let h = g.spec_height();
    let n = g.spec_cells().len() as int;
    let ls = l106_lines_upto(g, n);
    let cs = alive_coords_upto(g, n);
    lemma_parse_encoded_lines(g, n);
    lemma_alive_coords_range(g, n);
    lemma_encoded_lines_shape(g, n);
    // The four witnesses of tightness, as members of the coordinate list.
    let ya = choose|y: int| 0 <= y < h && g.spec_cells()[#[trigger] rowmajor(0, y, w)] is Alive;
    let yb = choose|y: int| 0 <= y < h
        && g.spec_cells()[#[trigger] rowmajor(w - 1, y, w)] is Alive;
    let xa = choose|x: int| 0 <= x < w && g.spec_cells()[#[trigger] rowmajor(x, 0, w)] is Alive;
    let xb = choose|x: int| 0 <= x < w
        && g.spec_cells()[#[trigger] rowmajor(x, h - 1, w)] is Alive;
    lemma_rowmajor_in_range(0, ya, w, h);
    lemma_rowmajor_inverse(0, ya, w);
    lemma_alive_coords_member(g, n, rowmajor(0, ya, w));
    lemma_rowmajor_in_range(w - 1, yb, w, h);
    lemma_rowmajor_inverse(w - 1, yb, w);
    lemma_alive_coords_member(g, n, rowmajor(w - 1, yb, w));
    lemma_rowmajor_in_range(xa, 0, w, h);
    lemma_rowmajor_inverse(xa, 0, w);
    lemma_alive_coords_member(g, n, rowmajor(xa, 0, w));
    lemma_rowmajor_in_range(xb, h - 1, w, h);
    lemma_rowmajor_inverse(xb, h - 1, w);
    lemma_alive_coords_member(g, n, rowmajor(xb, h - 1, w));
    assert(cs.contains((0, ya)));
    assert(cs.contains((w - 1, yb)));
    assert(cs.contains((xa, 0)));
    assert(cs.contains((xb, h - 1)));
    assert(cs.len() > 0);
    assert(ls.len() > 0) by {
        if ls.len() == 0 {
            assert(l106_parse_lines(ls) == Ok::<Seq<(int, int)>, Life106DecoderError>(
                Seq::empty()));
        }
    }
    // The encoding splits back into the header and the coordinate lines.
    let enc = l106_encoding(g);
    let hdr = l106_header();
    assert(enc =~= hdr + seq!['\n'] + join_nl(ls));
    assert(enc[10] == '\n');
    assert(forall|k: int| 0 <= k < 10 ==> #[trigger] enc[k] == hdr[k]);
    assert('\n' as int == 10 && '\r' as int == 13 && '#' as int == 35);
    crate::text::lemma_split_lines_peel(enc, 10);
    assert(enc.take(10) =~= hdr);
    assert(hdr.last() == '6');
    assert(crate::text::strip_cr(hdr) == hdr);
    assert(enc.skip(11) =~= join_nl(ls));
    lemma_split_lines_join(ls);
    assert(crate::text::split_lines(enc) =~~= seq![hdr] + ls);
    // The header is a comment; no coordinate line is.
    assert(is_comment(hdr));
    assert forall|i: int| 0 <= i < ls.len() implies !is_comment(#[trigger] ls[i]) by {
        assert(crate::text::is_digit(ls[i][0]));
    }
    crate::text::lemma_filter_comment_head(hdr, ls);
    assert(non_comment_lines(enc) == ls);
    // The parse yields the alive coordinates; the bounding box is the grid.
    lemma_minmax_bounds(cs, cs.len() as int);
    let k0 = choose|k: int| 0 <= k < cs.len() && cs[k] == (0int, ya);
    let k1 = choose|k: int| 0 <= k < cs.len() && cs[k] == (w - 1, yb);
    let k2 = choose|k: int| 0 <= k < cs.len() && cs[k] == (xa, 0int);
    let k3 = choose|k: int| 0 <= k < cs.len() && cs[k] == (xb, h - 1);
    lemma_minmax_within(cs, cs.len() as int, 0, w - 1, 0, h - 1);
    assert(min_x_upto(cs, cs.len() as int) <= cs[k0].0);
    assert(max_x_upto(cs, cs.len() as int) >= cs[k1].0);
    assert(min_y_upto(cs, cs.len() as int) <= cs[k2].1);
    assert(max_y_upto(cs, cs.len() as int) >= cs[k3].1);
    assert(min_x_upto(cs, cs.len() as int) == 0);
    assert(max_x_upto(cs, cs.len() as int) == w - 1);
    assert(min_y_upto(cs, cs.len() as int) == 0);
    assert(max_y_upto(cs, cs.len() as int) == h - 1);
    assert(l106_span_w(cs) == w);
    assert(l106_span_h(cs) == h);
    // The painted buffer matches the grid's own.
    assert forall|j: int| 0 <= j < w * h implies l106_cells(cs)[j] == g.spec_cells()[j] by {
        crate::coords::lemma_index_split(j, w, h);
        if g.spec_cells()[j] is Alive {
            lemma_alive_coords_member(g, n, j);
            let km = choose|k: int| 0 <= k < cs.len() && cs[k] == (j % w, j / w);
            assert(cs[km] == (0 + j % w, 0 + j / w));
        } else {
            if exists|k: int| 0 <= k < cs.len() && cs[k] == (0 + j % w, 0 + j / w) {
                let km = choose|k: int| 0 <= k < cs.len() && cs[k] == (0 + j % w, 0 + j / w);
                assert(g.spec_cells()[rowmajor(cs[km].0, cs[km].1, w)] is Alive);
                assert(false);
            }
        }
    }
    assert(l106_cells(cs) =~= g.spec_cells());
}

/// Every coordinate lies inside the bounding box of the first `n` pairs.
proof fn lemma_minmax_bounds(cs: Seq<(int, int)>, n: int)
    requires
        1 <= n <= cs.len(),
    ensures
        forall|j: int| 0 <= j < n
            ==> min_x_upto(cs, n) <= (#[trigger] cs[j]).0 <= max_x_upto(cs, n)
                && min_y_upto(cs, n) <= cs[j].1 <= max_y_upto(cs, n),
    decreases n,
{
    if n > 1 {
        lemma_minmax_bounds(cs, n - 1);
    }
}

} // verus!
