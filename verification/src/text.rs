//! Character-level text utilities shared by both codecs: digit and
//! whitespace classes, decimal rendering and parsing, and line, field and
//! token splitting with the semantics the two text formats expect.

use vstd::prelude::*;

verus! {

broadcast use vstd::string::group_string_axioms;

/// An ASCII decimal digit.
pub open spec fn is_digit(c: char) -> bool {
    48 <= c as int <= 57
}

/// The numeric value of a digit character.
pub open spec fn digit_val(c: char) -> int {
    c as int - 48
}

/// Every character of the sequence is a decimal digit.
pub open spec fn all_digits(s: Seq<char>) -> bool {
    forall|i: int| 0 <= i < s.len() ==> is_digit(#[trigger] s[i])
}

/// The value of a digit string read most-significant first.
pub open spec fn digits_value(s: Seq<char>) -> int
    decreases s.len(),
{
    if s.len() == 0 {
        0
    } else {
        digits_value(s.drop_last()) * 10 + digit_val(s.last())
    }
}

/// The digit character of a value in `[0, 10)`.
pub open spec fn digit_char(d: int) -> char {
    if d == 0 { '0' }
    else if d == 1 { '1' }
    else if d == 2 { '2' }
    else if d == 3 { '3' }
    else if d == 4 { '4' }
    else if d == 5 { '5' }
    else if d == 6 { '6' }
    else if d == 7 { '7' }
    else if d == 8 { '8' }
    else { '9' }
}

/// The canonical decimal rendering of a non-negative value: no leading
/// zeros, except that zero itself is a single digit.
pub open spec fn dec_chars(n: int) -> Seq<char>
    decreases n,
{
    if n < 10 {
        seq![digit_char(if n < 0 { 0 } else { n })]
    } else {
        dec_chars(n / 10).push(digit_char(n % 10))
    }
}

/// The value of a digit string is non-negative.
pub proof fn lemma_digits_value_nonneg(s: Seq<char>)
    requires
        all_digits(s),
    ensures
        digits_value(s) >= 0,
    decreases s.len(),
{
    if s.len() > 0 {
        assert(all_digits(s.drop_last())) by {
            assert(forall|i: int| 0 <= i < s.len() - 1 ==> s.drop_last()[i] == #[trigger] s[i]);
        }
        lemma_digits_value_nonneg(s.drop_last());
    }
}

/// Appending one digit multiplies the prefix value by ten and adds it.
pub proof fn lemma_digits_value_step(s: Seq<char>, i: int)
    requires
        0 <= i < s.len(),
    ensures
        digits_value(s.take(i + 1)) == digits_value(s.take(i)) * 10 + digit_val(s[i]),
{
    assert(s.take(i + 1).drop_last() =~= s.take(i));
    assert(s.take(i + 1).last() == s[i]);
}

/// The value can only grow as more digits are read.
pub proof fn lemma_digits_value_prefix_le(s: Seq<char>, i: int)
    requires
        all_digits(s),
        0 <= i <= s.len(),
    ensures
        digits_value(s.take(i)) <= digits_value(s),
    decreases s.len() - i,
{
    if i < s.len() {
        lemma_digits_value_step(s, i);
        assert(all_digits(s.take(i))) by {
            assert(forall|j: int| 0 <= j < i ==> s.take(i)[j] == #[trigger] s[j]);
        }
        lemma_digits_value_nonneg(s.take(i));
        assert(digits_value(s.take(i)) * 10 >= digits_value(s.take(i))) by (nonlinear_arith)
            requires
                digits_value(s.take(i)) >= 0,
        ;
        lemma_digits_value_prefix_le(s, i + 1);
    } else {
        assert(s.take(i) =~= s);
    }
}

/// Every character of a canonical decimal rendering is a digit.
pub proof fn lemma_dec_chars_digits(n: int)
    ensures
        dec_chars(n).len() >= 1,
        forall|i: int| 0 <= i < dec_chars(n).len() ==> is_digit(#[trigger] dec_chars(n)[i]),
    decreases n,
{
    if n >= 10 {
        lemma_dec_chars_digits(n / 10);
    }
}

/// Parsing the canonical decimal rendering gives the value back.
pub proof fn lemma_dec_chars_value(n: int)
    requires
        0 <= n,
    ensures
        digits_value(dec_chars(n)) == n,
    decreases n,
{
    if n < 10 {
        assert(dec_chars(n).drop_last() =~= Seq::<char>::empty());
        assert(digits_value(Seq::<char>::empty()) == 0);
        assert(dec_chars(n).last() == digit_char(n));
        lemma_digit_char_val();
    } else {
        lemma_dec_chars_value(n / 10);
        let d = dec_chars(n);
        assert(d.drop_last() =~= dec_chars(n / 10));
        assert(d.last() == digit_char(n % 10));
        vstd::arithmetic::div_mod::lemma_fundamental_div_mod(n, 10);
    }
}

/// The digit characters carry their values.
proof fn lemma_digit_char_val()
    ensures
        forall|d: int| 0 <= d < 10 ==> digit_val(#[trigger] digit_char(d)) == d,
{
    assert('0' as int == 48 && '1' as int == 49 && '2' as int == 50 && '3' as int == 51
        && '4' as int == 52 && '5' as int == 53 && '6' as int == 54 && '7' as int == 55
        && '8' as int == 56 && '9' as int == 57);
}

/// The canonical rendering of a machine-ranged value is a well-formed
/// signed decimal field carrying that value.
pub proof fn lemma_dec_chars_is_i32(n: int)
    requires
        0 <= n <= i32::MAX,
    ensures
        is_i32_chars(dec_chars(n)),
        i32_chars_value(dec_chars(n)) == n,
{
    lemma_dec_chars_digits(n);
    lemma_dec_chars_value(n);
    assert(is_digit(dec_chars(n)[0]));
    assert(dec_chars(n)[0] != '+' && dec_chars(n)[0] != '-');
}

/// An ASCII whitespace character. (The formats are ASCII; exotic
/// Unicode whitespace is not treated as a separator here.)
pub open spec fn is_space(c: char) -> bool {
    c == ' ' || c == '\t' || c == '\n' || c == '\r' || c as int == 11 || c as int == 12
}

/// Exec test for `is_digit`.
pub fn char_is_digit(c: char) -> (r: bool)
    ensures
        r == is_digit(c),
{
    let u = c as u32;
    48 <= u && u <= 57
}

/// Exec test for `is_space`.
pub fn char_is_space(c: char) -> (r: bool)
    ensures
        r == is_space(c),
{
    let u = c as u32;
    u == 32 || u == 9 || u == 10 || u == 13 || u == 11 || u == 12
}

/// The characters of a string, as a vector.
pub fn str_chars(s: &str) -> (r: Vec<char>)
    ensures
        r@ == s@,
{
    let mut it = s.chars();
    let mut v: Vec<char> = Vec::new();
    loop
        invariant_except_break
            v@ + vstd::std_specs::iter::IteratorSpec::remaining(&it) == s@,
            vstd::std_specs::iter::IteratorSpec::decrease(&it) is Some,
        ensures
            v@ == s@,
        decreases vstd::std_specs::iter::IteratorSpec::decrease(&it)->0,
    {
        match it.next() {
            Some(c) => {
                v.push(c);
                proof {
                    assert(v@ + vstd::std_specs::iter::IteratorSpec::remaining(&it) =~= s@);
                }
            },
            None => {
                proof {
                    assert(v@ =~= s@);
                }
                break;
            },
        }
    }
    v
}

/// Whether two character vectors hold the same characters.
pub fn chars_eq(a: &Vec<char>, b: &Vec<char>) -> (r: bool)
    ensures
        r == (a@ == b@),
{
    if a.len() != b.len() {
        proof {
            assert(a@.len() != b@.len());
        }
        return false;
    }
    let mut i: usize = 0;
    while i < a.len()
        invariant
            i <= a@.len(),
            a@.len() == b@.len(),
            forall|j: int| 0 <= j < i ==> a@[j] == b@[j],
        decreases a@.len() - i,
    {
        if a[i] != b[i] {
            return false;
        }
        i = i + 1;
    }
    proof {
        assert(a@ =~= b@);
    }
    true
}

/// A copy of the characters in `[from, to)`.
pub fn copy_range(v: &Vec<char>, from: usize, to: usize) -> (r: Vec<char>)
    requires
        from <= to <= v@.len(),
    ensures
        r@ == v@.subrange(from as int, to as int),
{
    let mut r: Vec<char> = Vec::new();
    let mut i: usize = from;
    while i < to
        invariant
            from <= i <= to <= v@.len(),
            r@ == v@.subrange(from as int, i as int),
        decreases to - i,
    {
        r.push(v[i]);
        i = i + 1;
        proof {
            assert(r@ =~= v@.subrange(from as int, i as int));
        }
    }
    r
}

/// A well-formed unsigned decimal field: an optional leading plus sign, then
/// at least one digit, with a value that fits the 32-bit unsigned range.
pub open spec fn is_u32_chars(s: Seq<char>) -> bool {
    let t = if s.len() > 0 && s[0] == '+' {
        s.drop_first()
    } else {
        s
    };
    t.len() > 0 && all_digits(t) && digits_value(t) <= u32::MAX
}

/// The value of a well-formed unsigned decimal field.
pub open spec fn u32_chars_value(s: Seq<char>) -> int {
    if s.len() > 0 && s[0] == '+' {
        digits_value(s.drop_first())
    } else {
        digits_value(s)
    }
}

/// A well-formed signed decimal field: an optional sign, then at least one
/// digit, with a value that fits the 32-bit signed range.
pub open spec fn is_i32_chars(s: Seq<char>) -> bool {
    let t = if s.len() > 0 && (s[0] == '+' || s[0] == '-') {
        s.drop_first()
    } else {
        s
    };
    t.len() > 0 && all_digits(t) && i32::MIN <= i32_chars_value(s) <= i32::MAX
}

/// The value of a signed decimal field (before any range restriction).
pub open spec fn i32_chars_value(s: Seq<char>) -> int {
    if s.len() > 0 && s[0] == '-' {
        -digits_value(s.drop_first())
    } else if s.len() > 0 && s[0] == '+' {
        digits_value(s.drop_first())
    } else {
        digits_value(s)
    }
}

/// Parses the digit run `[from, to)` of `v`; every character there must be a
/// digit. Fails exactly when the value exceeds `cap`.
pub(crate) fn parse_digits_capped(v: &Vec<char>, from: usize, to: usize, cap: u64) -> (r: Option<u64>)
    requires
        from < to <= v@.len(),
        forall|j: int| from <= j < to ==> is_digit(#[trigger] v@[j]),
        cap <= u32::MAX,
    ensures
        match r {
            Some(n) => n == digits_value(v@.subrange(from as int, to as int)) && n <= cap,
            None => digits_value(v@.subrange(from as int, to as int)) > cap,
        },
{
    let ghost s = v@.subrange(from as int, to as int);
    proof {
        assert(all_digits(s));
    }
    let mut acc: u64 = 0;
    let mut i: usize = from;
    while i < to
        invariant
            from <= i <= to <= v@.len(),
            s == v@.subrange(from as int, to as int),
            all_digits(s),
            cap <= u32::MAX,
            acc <= cap,
            acc == digits_value(s.take(i - from)),
        decreases to - i,
    {
        let c = v[i];
        proof {
            assert(s[i - from as int] == v@[i as int]);
            lemma_digits_value_step(s, i - from);
        }
        let d = ((c as u32) - 48) as u64;
        let next = acc * 10 + d;
        if next > cap {
            proof {
                lemma_digits_value_prefix_le(s, i - from + 1);
            }
            return None;
        }
        acc = next;
        i = i + 1;
    }
    proof {
        assert(s.take(to - from) =~= s);
    }
    Some(acc)
}

/// Parses an unsigned 32-bit decimal field, accepting an optional leading
/// plus sign, exactly when the field is well formed.
pub fn parse_u32_chars(v: &Vec<char>, from: usize, to: usize) -> (r: Option<u32>)
    requires
        from <= to <= v@.len(),
    ensures
        match r {
            Some(n) => is_u32_chars(v@.subrange(from as int, to as int)) && n
                == u32_chars_value(v@.subrange(from as int, to as int)),
            None => !is_u32_chars(v@.subrange(from as int, to as int)),
        },
{
    let ghost s = v@.subrange(from as int, to as int);
    let mut start = from;
    if from < to && v[from] == '+' {
        start = from + 1;
        proof {
            assert(s.drop_first() =~= v@.subrange(start as int, to as int));
        }
    }
    let ghost t = v@.subrange(start as int, to as int);
    if start >= to {
        return None;
    }
    let mut i: usize = start;
    while i < to
        invariant
            start <= i <= to <= v@.len(),
            s == v@.subrange(from as int, to as int),
            t == v@.subrange(start as int, to as int),
            t == (if s.len() > 0 && s[0] == '+' { s.drop_first() } else { s }),
            forall|j: int| start <= j < i ==> is_digit(#[trigger] v@[j]),
        decreases to - i,
    {
        if !char_is_digit(v[i]) {
            proof {
                assert(!all_digits(t)) by {
                    assert(t[i - start as int] == v@[i as int]);
                }
            }
            return None;
        }
        i = i + 1;
    }
    proof {
        assert(forall|j: int| 0 <= j < t.len() ==> t[j] == #[trigger] v@[j + start]);
    }
    match parse_digits_capped(v, start, to, 0xffff_ffffu64) {
        Some(n) => Some(n as u32),
        None => None,
    }
}

/// Parses a signed 32-bit decimal field, accepting an optional sign, exactly
/// when the field is well formed.
pub fn parse_i32_chars(v: &Vec<char>, from: usize, to: usize) -> (r: Option<i32>)
    requires
        from <= to <= v@.len(),
    ensures
        match r {
            Some(n) => is_i32_chars(v@.subrange(from as int, to as int)) && n
                == i32_chars_value(v@.subrange(from as int, to as int)),
            None => !is_i32_chars(v@.subrange(from as int, to as int)),
        },
{
    let ghost s = v@.subrange(from as int, to as int);
    let mut start = from;
    let mut negative = false;
    if from < to && v[from] == '+' {
        start = from + 1;
    } else if from < to && v[from] == '-' {
        start = from + 1;
        negative = true;
    }
    proof {
        if from < to && (v@[from as int] == '+' || v@[from as int] == '-') {
            assert(s.drop_first() =~= v@.subrange(from + 1, to as int));
        }
    }
    let ghost t = v@.subrange(start as int, to as int);
    if start >= to {
        return None;
    }
    let mut i: usize = start;
    while i < to
        invariant
            start <= i <= to <= v@.len(),
            s == v@.subrange(from as int, to as int),
            t == v@.subrange(start as int, to as int),
            t == (if s.len() > 0 && (s[0] == '+' || s[0] == '-') { s.drop_first() } else { s }),
            forall|j: int| start <= j < i ==> is_digit(#[trigger] v@[j]),
        decreases to - i,
    {
        if !char_is_digit(v[i]) {
            proof {
                assert(!all_digits(t)) by {
                    assert(t[i - start as int] == v@[i as int]);
                }
            }
            return None;
        }
        i = i + 1;
    }
    proof {
        assert(forall|j: int| 0 <= j < t.len() ==> t[j] == #[trigger] v@[j + start]);
        lemma_digits_value_nonneg(t);
    }
    if negative {
        match parse_digits_capped(v, start, to, 0x8000_0000u64) {
            Some(n) => {
                if n == 0x8000_0000u64 {
                    Some(i32::MIN)
                } else {
                    Some(-((n as u32) as i32))
                }
            },
            None => None,
        }
    } else {
        match parse_digits_capped(v, start, to, 0x7fff_ffffu64) {
            Some(n) => Some((n as u32) as i32),
            None => None,
        }
    }
}

/// A line with one trailing carriage return removed, as a `\r\n` ending has
/// it stripped.
pub open spec fn strip_cr(s: Seq<char>) -> Seq<char> {
    if s.len() > 0 && s.last() == '\r' {
        s.drop_last()
    } else {
        s
    }
}

/// The lines of a text: split at `\n` or `\r\n`, with no trailing empty
/// line when the text ends in a line ending.
pub open spec fn split_lines(s: Seq<char>) -> Seq<Seq<char>>
    decreases s.len(),
{
    if s.len() == 0 {
        Seq::empty()
    } else if s[0] == '\n' {
        seq![Seq::<char>::empty()] + split_lines(s.drop_first())
    } else if s[0] == '\r' && s.len() >= 2 && s[1] == '\n' {
        seq![Seq::<char>::empty()] + split_lines(s.skip(2))
    } else {
        let r = split_lines(s.drop_first());
        if r.len() == 0 {
            seq![seq![s[0]]]
        } else {
            r.update(0, seq![s[0]] + r[0])
        }
    }
}

/// Splitting at the first newline peels off the first line.
pub proof fn lemma_split_lines_peel(s: Seq<char>, j: int)
    requires
        0 <= j < s.len(),
        s[j] == '\n',
        forall|k: int| 0 <= k < j ==> s[k] != '\n',
    ensures
        split_lines(s) == seq![strip_cr(s.take(j))] + split_lines(s.skip(j + 1)),
    decreases j,
{
    if j == 0 {
        assert(s.take(0) =~= Seq::<char>::empty());
        assert(s.skip(1) =~= s.drop_first());
        assert(split_lines(s) =~~= seq![strip_cr(s.take(0))] + split_lines(s.skip(1)));
    } else if s[0] == '\r' && s.len() >= 2 && s[1] == '\n' {
        assert(j == 1);
        assert(s.take(1) =~= seq!['\r']);
        assert(strip_cr(s.take(1)) =~= Seq::<char>::empty());
        assert(split_lines(s) =~~= seq![strip_cr(s.take(1))] + split_lines(s.skip(2)));
    } else {
        let tail = s.drop_first();
        assert(forall|k: int| 0 <= k < j - 1 ==> tail[k] == #[trigger] s[k + 1]);
        lemma_split_lines_peel(tail, j - 1);
        let r = split_lines(tail);
        assert(r.len() >= 1);
        assert(tail.skip(j) =~= s.skip(j + 1));
        let t = tail.take(j - 1);
        assert(s.take(j) =~= seq![s[0]] + t);
        if t.len() == 0 {
            assert(s[0] != '\r' || s[1] != '\n');
            assert(strip_cr(s.take(j)) =~= seq![s[0]]);
        } else if t.last() == '\r' {
            assert(strip_cr(s.take(j)) =~= seq![s[0]] + strip_cr(t));
        } else {
            assert(strip_cr(s.take(j)) =~= seq![s[0]] + strip_cr(t));
        }
        assert(split_lines(s) == r.update(0, seq![s[0]] + r[0]));
        assert(split_lines(s) =~~= seq![strip_cr(s.take(j))] + split_lines(s.skip(j + 1)));
    }
}

/// A non-empty text without newlines is a single line, kept verbatim.
pub proof fn lemma_split_lines_whole(s: Seq<char>)
    requires
        s.len() > 0,
        forall|k: int| 0 <= k < s.len() ==> s[k] != '\n',
    ensures
        split_lines(s) == seq![s],
    decreases s.len(),
{
    let tail = s.drop_first();
    if tail.len() == 0 {
        assert(split_lines(tail) =~~= Seq::<Seq<char>>::empty());
        assert(seq![s[0]] =~= s);
        assert(split_lines(s) =~~= seq![s]);
    } else {
        assert(forall|k: int| 0 <= k < tail.len() ==> tail[k] == #[trigger] s[k + 1]);
        lemma_split_lines_whole(tail);
        let r = split_lines(tail);
        assert(r == seq![tail]);
        assert(s[0] != '\n');
        assert(!(s[0] == '\r' && s.len() >= 2 && s[1] == '\n'));
        assert(split_lines(s) == r.update(0, seq![s[0]] + r[0]));
        assert(seq![s[0]] + tail =~= s);
        assert(split_lines(s) =~~= seq![s]);
    }
}

/// The first position at or after `from` holding `c`, or the length.
pub fn find_char_from(v: &Vec<char>, c: char, from: usize) -> (j: usize)
    requires
        from <= v@.len(),
    ensures
        from <= j <= v@.len(),
        forall|k: int| from <= k < j ==> v@[k] != c,
        j < v@.len() ==> v@[j as int] == c,
{
    let mut j = from;
    while j < v.len()
        invariant
            from <= j <= v@.len(),
            forall|k: int| from <= k < j ==> v@[k] != c,
        decreases v@.len() - j,
    {
        if v[j] == c {
            return j;
        }
        j = j + 1;
    }
    j
}

/// The first whitespace position at or after `from`, or the length.
pub fn find_space_from(v: &Vec<char>, from: usize) -> (j: usize)
    requires
        from <= v@.len(),
    ensures
        from <= j <= v@.len(),
        forall|k: int| from <= k < j ==> !is_space(#[trigger] v@[k]),
        j < v@.len() ==> is_space(v@[j as int]),
{
    let mut j = from;
    while j < v.len()
        invariant
            from <= j <= v@.len(),
            forall|k: int| from <= k < j ==> !is_space(#[trigger] v@[k]),
        decreases v@.len() - j,
    {
        if char_is_space(v[j]) {
            return j;
        }
        j = j + 1;
    }
    j
}

/// The first non-digit position at or after `from`, or the length.
pub fn find_nondigit_from(v: &Vec<char>, from: usize) -> (j: usize)
    requires
        from <= v@.len(),
    ensures
        from <= j <= v@.len(),
        forall|k: int| from <= k < j ==> is_digit(#[trigger] v@[k]),
        j < v@.len() ==> !is_digit(v@[j as int]),
{
    let mut j = from;
    while j < v.len()
        invariant
            from <= j <= v@.len(),
            forall|k: int| from <= k < j ==> is_digit(#[trigger] v@[k]),
        decreases v@.len() - j,
    {
        if !char_is_digit(v[j]) {
            return j;
        }
        j = j + 1;
    }
    j
}

/// The first non-whitespace position at or after `from`, or the length.
pub fn find_nonspace_from(v: &Vec<char>, from: usize) -> (j: usize)
    requires
        from <= v@.len(),
    ensures
        from <= j <= v@.len(),
        forall|k: int| from <= k < j ==> is_space(#[trigger] v@[k]),
        j < v@.len() ==> !is_space(v@[j as int]),
{
    let mut j = from;
    while j < v.len()
        invariant
            from <= j <= v@.len(),
            forall|k: int| from <= k < j ==> is_space(#[trigger] v@[k]),
        decreases v@.len() - j,
    {
        if !char_is_space(v[j]) {
            return j;
        }
        j = j + 1;
    }
    j
}

/// The end of the text once trailing whitespace before `n` is dropped, not
/// receding past `a`.
fn scan_back_nonspace(v: &Vec<char>, a: usize) -> (b: usize)
    requires
        a <= v@.len(),
    ensures
        a <= b <= v@.len(),
        forall|k: int| b <= k < v@.len() ==> is_space(#[trigger] v@[k]),
        b > a ==> !is_space(v@[b - 1]),
{
    let mut b = v.len();
    while b > a
        invariant
            a <= b <= v@.len(),
            forall|k: int| b <= k < v@.len() ==> is_space(#[trigger] v@[k]),
        decreases b,
    {
        if !char_is_space(v[b - 1]) {
            return b;
        }
        b = b - 1;
    }
    b
}

/// The lines of a character vector, matching `split_lines` of its view.
pub fn split_lines_vec(v: &Vec<char>) -> (r: Vec<Vec<char>>)
    ensures
        r@.map_values(|l: Vec<char>| l@) == split_lines(v@),
{
    let n = v.len();
    let mut res: Vec<Vec<char>> = Vec::new();
    let mut pos: usize = 0;
    proof {
        assert(v@.skip(0) =~= v@);
        assert(res@.map_values(|l: Vec<char>| l@) + split_lines(v@)
            =~~= split_lines(v@));
    }
    while pos < n
        invariant
            pos <= n,
            n == v@.len(),
            split_lines(v@) == res@.map_values(|l: Vec<char>| l@) + split_lines(v@.skip(
                pos as int)),
        decreases n - pos,
    {
        let ghost res0 = res@;
        let ghost rest = v@.skip(pos as int);
        let j = find_char_from(v, '\n', pos);
        if j < n {
            let mut piece = copy_range(v, pos, j);
            if piece.len() > 0 && piece[piece.len() - 1] == '\r' {
                piece.pop();
                proof {
                    assert(piece@ =~= strip_cr(v@.subrange(pos as int, j as int)));
                }
            }
            proof {
                assert(piece@ =~= strip_cr(v@.subrange(pos as int, j as int)));
                assert(forall|k: int| 0 <= k < rest.len() ==> rest[k] == #[trigger] v@[k + pos]);
                lemma_split_lines_peel(rest, j - pos);
                assert(rest.take(j - pos) =~= v@.subrange(pos as int, j as int));
                assert(rest.skip(j - pos + 1) =~= v@.skip(j + 1));
            }
            res.push(piece);
            proof {
                assert(res@.map_values(|l: Vec<char>| l@) =~~= res0.map_values(|l: Vec<char>| l@)
                    + seq![strip_cr(v@.subrange(pos as int, j as int))]);
            }
            pos = j + 1;
        } else {
            let piece = copy_range(v, pos, n);
            proof {
                assert(forall|k: int| 0 <= k < rest.len() ==> rest[k] == #[trigger] v@[k + pos]);
                lemma_split_lines_whole(rest);
                assert(rest =~= v@.subrange(pos as int, n as int));
            }
            res.push(piece);
            proof {
                assert(res@.map_values(|l: Vec<char>| l@) =~~= res0.map_values(|l: Vec<char>| l@)
                    + seq![v@.subrange(pos as int, n as int)]);
                assert(split_lines(v@.skip(n as int)) =~~= Seq::<Seq<char>>::empty());
            }
            pos = n;
        }
    }
    proof {
        assert(split_lines(v@.skip(pos as int)) =~~= Seq::<Seq<char>>::empty());
        assert(res@.map_values(|l: Vec<char>| l@) =~~= split_lines(v@));
    }
    res
}

/// The fields of a text split at every occurrence of `c`; empty fields are
/// kept, and there is always at least one field.
pub open spec fn split_char(s: Seq<char>, c: char) -> Seq<Seq<char>>
    decreases s.len(),
{
    if s.len() == 0 {
        seq![Seq::<char>::empty()]
    } else if s[0] == c {
        seq![Seq::<char>::empty()] + split_char(s.drop_first(), c)
    } else {
        let r = split_char(s.drop_first(), c);
        r.update(0, seq![s[0]] + r[0])
    }
}

/// There is always at least one field.
pub proof fn lemma_split_char_len(s: Seq<char>, c: char)
    ensures
        split_char(s, c).len() >= 1,
    decreases s.len(),
{
    if s.len() > 0 && s[0] != c {
        lemma_split_char_len(s.drop_first(), c);
    }
}

/// Splitting at the first separator peels off the first field.
pub proof fn lemma_split_char_peel(s: Seq<char>, c: char, j: int)
    requires
        0 <= j <= s.len(),
        forall|k: int| 0 <= k < j ==> s[k] != c,
        j == s.len() || s[j] == c,
    ensures
        j == s.len() ==> split_char(s, c) == seq![s],
        j < s.len() ==> split_char(s, c) == seq![s.take(j)] + split_char(s.skip(j + 1), c),
    decreases j,
{
    if j == 0 {
        if s.len() == 0 {
            assert(split_char(s, c) =~~= seq![s]);
        } else {
            assert(s[0] == c);
            assert(s.take(0) =~= Seq::<char>::empty());
            assert(s.skip(1) =~= s.drop_first());
            assert(split_char(s, c) =~~= seq![s.take(0)] + split_char(s.skip(1), c));
        }
    } else {
        let tail = s.drop_first();
        assert(forall|k: int| 0 <= k < j - 1 ==> tail[k] == #[trigger] s[k + 1]);
        lemma_split_char_peel(tail, c, j - 1);
        lemma_split_char_len(tail, c);
        let r = split_char(tail, c);
        if j == s.len() {
            assert(r == seq![tail]);
            assert(seq![s[0]] + tail =~= s);
            assert(split_char(s, c) =~~= seq![s]);
        } else {
            assert(seq![s[0]] + tail.take(j - 1) =~= s.take(j));
            assert(tail.skip(j) =~= s.skip(j + 1));
            assert(split_char(s, c) =~~= seq![s.take(j)] + split_char(s.skip(j + 1), c));
        }
    }
}

/// The fields of a character vector, matching `split_char` of its view.
pub fn split_char_vec(v: &Vec<char>, c: char) -> (r: Vec<Vec<char>>)
    ensures
        r@.map_values(|l: Vec<char>| l@) == split_char(v@, c),
{
    let n = v.len();
    let mut res: Vec<Vec<char>> = Vec::new();
    let mut pos: usize = 0;
    proof {
        assert(v@.skip(0) =~= v@);
        assert(res@.map_values(|l: Vec<char>| l@) + split_char(v@, c)
            =~~= split_char(v@, c));
    }
    loop
        invariant_except_break
            pos <= n,
            n == v@.len(),
            split_char(v@, c) == res@.map_values(|l: Vec<char>| l@) + split_char(v@.skip(
                pos as int), c),
        ensures
            res@.map_values(|l: Vec<char>| l@) == split_char(v@, c),
        decreases n - pos,
    {
        let ghost res0 = res@;
        let ghost rest = v@.skip(pos as int);
        let j = find_char_from(v, c, pos);
        let piece = copy_range(v, pos, j);
        proof {
            assert(forall|k: int| 0 <= k < rest.len() ==> rest[k] == #[trigger] v@[k + pos]);
            lemma_split_char_peel(rest, c, j - pos);
        }
        res.push(piece);
        if j < n {
            proof {
                assert(rest.take(j - pos) =~= v@.subrange(pos as int, j as int));
                assert(rest.skip(j - pos + 1) =~= v@.skip(j + 1));
                assert(res@.map_values(|l: Vec<char>| l@) =~~= res0.map_values(
                    |l: Vec<char>| l@) + seq![v@.subrange(pos as int, j as int)]);
            }
            pos = j + 1;
        } else {
            proof {
                assert(rest =~= v@.subrange(pos as int, n as int));
                assert(res@.map_values(|l: Vec<char>| l@) =~~= res0.map_values(
                    |l: Vec<char>| l@) + seq![v@.subrange(pos as int, n as int)]);
                assert(res@.map_values(|l: Vec<char>| l@) =~~= split_char(v@, c));
            }
            break;
        }
    }
    res
}

/// The maximal whitespace-free tokens of a text, in order; all whitespace
/// is discarded.
pub open spec fn split_ws(s: Seq<char>) -> Seq<Seq<char>>
    decreases s.len(),
{
    if s.len() == 0 {
        Seq::empty()
    } else if is_space(s[0]) {
        split_ws(s.drop_first())
    } else if s.len() == 1 || is_space(s[1]) {
        seq![seq![s[0]]] + split_ws(s.drop_first())
    } else {
        let r = split_ws(s.drop_first());
        r.update(0, seq![s[0]] + r[0])
    }
}

/// Leading whitespace does not change the tokens.
pub proof fn lemma_split_ws_skip_space(s: Seq<char>, i: int)
    requires
        0 <= i <= s.len(),
        forall|k: int| 0 <= k < i ==> is_space(#[trigger] s[k]),
    ensures
        split_ws(s) == split_ws(s.skip(i)),
    decreases i,
{
    if i > 0 {
        assert(s.skip(1) =~= s.drop_first());
        let tail = s.drop_first();
        assert(forall|k: int| 0 <= k < i - 1 ==> tail[k] == #[trigger] s[k + 1]);
        lemma_split_ws_skip_space(tail, i - 1);
        assert(tail.skip(i - 1) =~= s.skip(i));
    } else {
        assert(s.skip(0) =~= s);
    }
}

/// Splitting at the first whitespace peels off the first token.
pub proof fn lemma_split_ws_peel(s: Seq<char>, j: int)
    requires
        s.len() > 0,
        !is_space(s[0]),
        1 <= j <= s.len(),
        forall|k: int| 0 <= k < j ==> !is_space(#[trigger] s[k]),
        j == s.len() || is_space(s[j]),
    ensures
        split_ws(s) == seq![s.take(j)] + split_ws(s.skip(j)),
    decreases j,
{
    if j == 1 {
        assert(s.take(1) =~= seq![s[0]]);
        assert(s.skip(1) =~= s.drop_first());
        assert(split_ws(s) =~~= seq![s.take(1)] + split_ws(s.skip(1)));
    } else {
        let tail = s.drop_first();
        assert(forall|k: int| 0 <= k < j - 1 ==> tail[k] == #[trigger] s[k + 1]);
        assert(!is_space(s[1]));
        lemma_split_ws_peel(tail, j - 1);
        let r = split_ws(tail);
        assert(r == seq![tail.take(j - 1)] + split_ws(tail.skip(j - 1)));
        assert(seq![s[0]] + tail.take(j - 1) =~= s.take(j));
        assert(tail.skip(j - 1) =~= s.skip(j));
        assert(split_ws(s) =~~= seq![s.take(j)] + split_ws(s.skip(j)));
    }
}

/// The whitespace-separated tokens of a character vector.
pub fn split_ws_vec(v: &Vec<char>) -> (r: Vec<Vec<char>>)
    ensures
        r@.map_values(|l: Vec<char>| l@) == split_ws(v@),
{
    let n = v.len();
    let mut res: Vec<Vec<char>> = Vec::new();
    let mut pos: usize = 0;
    proof {
        assert(v@.skip(0) =~= v@);
        assert(res@.map_values(|l: Vec<char>| l@) + split_ws(v@) =~~= split_ws(v@));
    }
    while pos < n
        invariant
            pos <= n,
            n == v@.len(),
            split_ws(v@) == res@.map_values(|l: Vec<char>| l@) + split_ws(v@.skip(pos as int)),
        decreases n - pos,
    {
        let ghost res0 = res@;
        if char_is_space(v[pos]) {
            proof {
                let rest = v@.skip(pos as int);
                lemma_split_ws_skip_space(rest, 1);
                assert(rest.skip(1) =~= v@.skip(pos + 1));
            }
            pos = pos + 1;
        } else {
            let ghost rest = v@.skip(pos as int);
            let j = find_space_from(v, pos);
            let piece = copy_range(v, pos, j);
            proof {
                assert(forall|k: int| 0 <= k < rest.len() ==> rest[k] == #[trigger] v@[k + pos]);
                lemma_split_ws_peel(rest, j - pos);
                assert(rest.take(j - pos) =~= v@.subrange(pos as int, j as int));
                assert(rest.skip(j - pos) =~= v@.skip(j as int));
            }
            res.push(piece);
            proof {
                assert(res@.map_values(|l: Vec<char>| l@) =~~= res0.map_values(|l: Vec<char>| l@)
                    + seq![v@.subrange(pos as int, j as int)]);
            }
            pos = j;
        }
    }
    proof {
        assert(split_ws(v@.skip(pos as int)) =~~= Seq::<Seq<char>>::empty());
        assert(res@.map_values(|l: Vec<char>| l@) =~~= split_ws(v@));
    }
    res
}

/// The number of leading whitespace characters.
pub open spec fn trim_start_len(s: Seq<char>) -> int
    decreases s.len(),
{
    if s.len() == 0 {
        0
    } else if is_space(s[0]) {
        1 + trim_start_len(s.drop_first())
    } else {
        0
    }
}

/// The length of the text once trailing whitespace is removed.
pub open spec fn trim_end_len(s: Seq<char>) -> int
    decreases s.len(),
{
    if s.len() == 0 {
        0
    } else if is_space(s.last()) {
        trim_end_len(s.drop_last())
    } else {
        s.len() as int
    }
}

/// The text with leading and trailing whitespace removed.
pub open spec fn trim_chars(s: Seq<char>) -> Seq<char> {
    if trim_start_len(s) >= trim_end_len(s) {
        Seq::empty()
    } else {
        s.subrange(trim_start_len(s), trim_end_len(s))
    }
}

/// Characterises `trim_start_len` by its stopping point.
proof fn lemma_trim_start(s: Seq<char>, i: int)
    requires
        0 <= i <= s.len(),
        forall|k: int| 0 <= k < i ==> is_space(#[trigger] s[k]),
        i == s.len() || !is_space(s[i]),
    ensures
        trim_start_len(s) == i,
    decreases i,
{
    if i > 0 {
        let tail = s.drop_first();
        assert(forall|k: int| 0 <= k < i - 1 ==> tail[k] == #[trigger] s[k + 1]);
        lemma_trim_start(tail, i - 1);
    }
}

/// Characterises `trim_end_len` by its stopping point.
proof fn lemma_trim_end(s: Seq<char>, i: int)
    requires
        0 <= i <= s.len(),
        forall|k: int| i <= k < s.len() ==> is_space(#[trigger] s[k]),
        i == 0 || !is_space(s[i - 1]),
    ensures
        trim_end_len(s) == i,
    decreases s.len(),
{
    if s.len() == 0 {
    } else if is_space(s.last()) {
        assert(i < s.len());
        let head = s.drop_last();
        assert(forall|k: int| i <= k < head.len() ==> head[k] == #[trigger] s[k]);
        lemma_trim_end(head, i);
    } else {
        assert(i == s.len());
    }
}

/// The trimmed end never exceeds the length.
proof fn lemma_trim_end_le(s: Seq<char>)
    ensures
        0 <= trim_end_len(s) <= s.len(),
    decreases s.len(),
{
    if s.len() > 0 && is_space(s.last()) {
        lemma_trim_end_le(s.drop_last());
    }
}

/// The trimmed copy of a character vector.
pub fn trim_vec(v: &Vec<char>) -> (r: Vec<char>)
    ensures
        r@ == trim_chars(v@),
{
    let n = v.len();
    let a = find_nonspace_from(v, 0);
    proof {
        lemma_trim_start(v@, a as int);
    }
    let b = scan_back_nonspace(v, a);
    if a >= b {
        proof {
            assert(a == b);
            if a < n {
                assert(is_space(v@[a as int]));
                assert(false);
            }
            lemma_trim_end_le(v@);
            assert(trim_chars(v@) =~= Seq::<char>::empty());
        }
        Vec::new()
    } else {
        proof {
            lemma_trim_end(v@, b as int);
        }
        copy_range(v, a, b)
    }
}

/// The concatenation of a list of lines, with nothing between them.
pub open spec fn concat_lines(ls: Seq<Seq<char>>) -> Seq<char>
    decreases ls.len(),
{
    if ls.len() == 0 {
        Seq::empty()
    } else {
        concat_lines(ls.drop_last()) + ls.last()
    }
}

/// The concatenation of the character vectors in `ls`, from index `from`.
pub fn concat_from(ls: &Vec<Vec<char>>, from: usize) -> (r: Vec<char>)
    requires
        from <= ls@.len(),
    ensures
        r@ == concat_lines(ls@.map_values(|l: Vec<char>| l@).skip(from as int)),
{
    let ghost tail = ls@.map_values(|l: Vec<char>| l@).skip(from as int);
    let mut r: Vec<char> = Vec::new();
    let mut i: usize = from;
    while i < ls.len()
        invariant
            from <= i <= ls@.len(),
            tail == ls@.map_values(|l: Vec<char>| l@).skip(from as int),
            r@ == concat_lines(tail.take(i - from)),
        decreases ls@.len() - i,
    {
        let mut j: usize = 0;
        let ghost r0 = r@;
        while j < ls[i].len()
            invariant
                i < ls@.len(),
                j <= ls@[i as int]@.len(),
                r@ == r0 + ls@[i as int]@.take(j as int),
            decreases ls@[i as int]@.len() - j,
        {
            let c = ls[i][j];
            r.push(c);
            j = j + 1;
            proof {
                assert(r@ =~= r0 + ls@[i as int]@.take(j as int));
            }
        }
        i = i + 1;
        proof {
            assert(ls@[i - 1]@.take(ls@[i - 1]@.len() as int) =~= ls@[i - 1]@);
            assert(tail.take(i - from).drop_last() =~= tail.take(i - 1 - from));
            assert(tail.take(i - from).last() == tail[i - 1 - from]);
            assert(tail[i - 1 - from] == ls@[i - 1]@);
            assert(r@ =~= concat_lines(tail.take(i - from)));
        }
    }
    proof {
        assert(tail.take(ls@.len() - from) =~= tail);
    }
    r
}

/// Whether a line is a comment: its first character is `#`.
pub open spec fn is_comment(l: Seq<char>) -> bool {
    l.len() > 0 && l[0] == '#'
}

/// The lines of a text that are not comments, in order.
pub open spec fn non_comment_lines(s: Seq<char>) -> Seq<Seq<char>> {
    split_lines(s).filter(|l: Seq<char>| !is_comment(l))
}

/// A digit is never whitespace.
pub proof fn lemma_digit_not_space(c: char)
    requires
        is_digit(c),
    ensures
        !is_space(c),
{
    assert(' ' as int == 32 && '\t' as int == 9 && '\n' as int == 10 && '\r' as int == 13);
}

/// Dropping a leading comment line keeps exactly the non-comment lines.
/// Filtering leaves a sequence unchanged when every element passes.
proof fn lemma_filter_all_pass(ls: Seq<Seq<char>>, pred: spec_fn(Seq<char>) -> bool)
    requires
        forall|i: int| 0 <= i < ls.len() ==> pred(#[trigger] ls[i]),
    ensures
        ls.filter(pred) == ls,
    decreases ls.len(),
{
    reveal(Seq::filter);
    if ls.len() > 0 {
        let head = ls.drop_last();
        assert(forall|i: int| 0 <= i < head.len() ==> head[i] == #[trigger] ls[i]);
        lemma_filter_all_pass(head, pred);
        assert(pred(ls.last()));
        assert(head.push(ls.last()) =~= ls);
    }
}

pub proof fn lemma_filter_comment_head(hdr: Seq<char>, ls: Seq<Seq<char>>)
    requires
        is_comment(hdr),
        forall|i: int| 0 <= i < ls.len() ==> !is_comment(#[trigger] ls[i]),
    ensures
        (seq![hdr] + ls).filter(|l: Seq<char>| !is_comment(l)) == ls,
{
    let pred = |l: Seq<char>| !is_comment(l);
    Seq::filter_distributes_over_add(seq![hdr], ls, pred);
    assert(seq![hdr].filter(pred) =~= Seq::<Seq<char>>::empty()) by {
        reveal(Seq::filter);
        assert(Seq::<Seq<char>>::empty().filter(pred) =~= Seq::<Seq<char>>::empty());
        assert(seq![hdr].drop_last() =~= Seq::<Seq<char>>::empty());
        assert(seq![hdr].last() == hdr);
        assert(!pred(hdr));
    }
    lemma_filter_all_pass(ls, pred);
    assert(Seq::<Seq<char>>::empty() + ls =~= ls);
}

/// The non-comment lines of a character vector.
pub fn non_comment_lines_vec(v: &Vec<char>) -> (r: Vec<Vec<char>>)
    ensures
        r@.map_values(|l: Vec<char>| l@) == non_comment_lines(v@),
{
    let lines = split_lines_vec(v);
    let ghost all = lines@.map_values(|l: Vec<char>| l@);
    let mut res: Vec<Vec<char>> = Vec::new();
    let mut i: usize = 0;
    proof {
        reveal(Seq::filter);
        assert(all.take(0) =~= Seq::<Seq<char>>::empty());
    }
    while i < lines.len()
        invariant
            i <= lines@.len(),
            all == lines@.map_values(|l: Vec<char>| l@),
            res@.map_values(|l: Vec<char>| l@) == all.take(i as int).filter(
                |l: Seq<char>| !is_comment(l)),
        decreases lines@.len() - i,
    {
        let ghost res0 = res@;
        let keep = if lines[i].len() > 0 {
            let c = lines[i][0];
            c != '#'
        } else {
            true
        };
        if keep {
            let line = copy_range(&lines[i], 0, lines[i].len());
            proof {
                assert(line@ =~= all[i as int]);
            }
            res.push(line);
        }
        i = i + 1;
        proof {
            reveal(Seq::filter);
            assert(all.take(i as int).drop_last() =~= all.take(i - 1));
            assert(all.take(i as int).last() == all[i - 1]);
            if keep {
                assert(res@.map_values(|l: Vec<char>| l@) =~= res0.map_values(|l: Vec<char>| l@)
                    + seq![all[i - 1]]);
            }
            assert(res@.map_values(|l: Vec<char>| l@) =~= all.take(i as int).filter(
                |l: Seq<char>| !is_comment(l)));
        }
    }
    proof {
        assert(all.take(lines@.len() as int) =~= all);
    }
    res
}

} // verus!
