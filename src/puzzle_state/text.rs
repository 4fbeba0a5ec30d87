//! Text form of a board: the cells in row-major order between brackets, separated by
//! commas, the blank written as an empty field (`[1, 2, , 3]`).
use vstd::prelude::*;

use super::errors::PuzzleStateParseError;
use super::Grid;
use vstd::string::StringExecFns;
use vstd::utf8::is_ascii_chars;

verus! {

/// Byte of a comma.
pub const COMMA: u8 = 0x2c;

/// Byte of an opening bracket.
pub const OPEN_BRACKET: u8 = 0x5b;

/// Byte of a closing bracket.
pub const CLOSE_BRACKET: u8 = 0x5d;

/// Byte of a plus sign.
pub const PLUS: u8 = 0x2b;

/// ASCII white space: tab, line feed, vertical tab, form feed, carriage return, space.
pub open spec fn is_space(b: u8) -> bool {
    (9 <= b <= 13) || b == 32
}

/// The first index of `b` in `s` from `i` on; `s.len()` if there is none.
pub open spec fn find_from(s: Seq<u8>, b: u8, i: int) -> int
    decreases s.len() - i,
{
    if i < 0 || i >= s.len() {
        s.len() as int
    } else if s[i] == b {
        i
    } else {
        find_from(s, b, i + 1)
    }
}

/// The pieces of `s` between commas.
pub open spec fn fields(s: Seq<u8>) -> Seq<Seq<u8>>
    decreases s.len(),
{
    if s.len() == 0 {
        seq![Seq::<u8>::empty()]
    } else {
        let f = fields(s.drop_last());
        if s.last() == COMMA {
            f.push(Seq::<u8>::empty())
        } else {
            f.update(f.len() - 1, f.last().push(s.last()))
        }
    }
}

/// `s` without leading white space.
pub open spec fn trim_start(s: Seq<u8>) -> Seq<u8>
    decreases s.len(),
{
    if s.len() > 0 && is_space(s[0]) {
        trim_start(s.drop_first())
    } else {
        s
    }
}

/// `s` without trailing white space.
pub open spec fn trim_end(s: Seq<u8>) -> Seq<u8>
    decreases s.len(),
{
    if s.len() > 0 && is_space(s.last()) {
        trim_end(s.drop_last())
    } else {
        s
    }
}

/// `s` without white space at either end.
pub open spec fn trim(s: Seq<u8>) -> Seq<u8> {
    trim_end(trim_start(s))
}

/// `b` is a decimal digit.
pub open spec fn is_digit(b: u8) -> bool {
    0x30 <= b <= 0x39
}

/// The value of the decimal digits `s`.
pub open spec fn digits_value(s: Seq<u8>) -> int
    decreases s.len(),
{
    if s.len() == 0 {
        0
    } else {
        digits_value(s.drop_last()) * 10 + (s.last() - 0x30)
    }
}

/// The number that `s` writes: an optional plus sign and one or more decimal digits,
/// of value at most 255.
pub open spec fn number_of(s: Seq<u8>) -> Option<u8> {
    if unsigned_part(s).len() > 0 && all_digits(unsigned_part(s)) && digits_value(unsigned_part(s)) <= 255 {
        Some(digits_value(unsigned_part(s)) as u8)
    } else {
        None
    }
}

/// `s` without a leading plus sign.
pub open spec fn unsigned_part(s: Seq<u8>) -> Seq<u8> {
    if s.len() > 0 && s[0] == PLUS {
        s.drop_first()
    } else {
        s
    }
}

/// Every byte of `s` is a decimal digit.
pub open spec fn all_digits(s: Seq<u8>) -> bool {
    forall|i: int| 0 <= i < s.len() ==> is_digit(#[trigger] s[i])
}

/// The cell that a field writes: blank when it holds only white space; `None` when it
/// writes no number.
pub open spec fn field_cell(f: Seq<u8>) -> Option<Option<u8>> {
    if trim(f).len() == 0 {
        Some(None)
    } else {
        match number_of(trim(f)) {
            Some(v) => Some(Some(v)),
            None => None,
        }
    }
}

/// The error of the first of the fields `k .. m` that is missing or writes no number.
pub open spec fn cells_error(fs: Seq<Seq<u8>>, m: int, k: int) -> Option<PuzzleStateParseError>
    decreases m - k,
{
    if k >= m || k < 0 {
        None
    } else if k >= fs.len() {
        Some(PuzzleStateParseError::NotEnoughNumbers)
    } else if field_cell(fs[k]) is None {
        Some(PuzzleStateParseError::NumberParseError)
    } else {
        cells_error(fs, m, k + 1)
    }
}

/// The fields between the first opening and the first closing bracket, if the
/// closing one follows the opening one.
pub open spec fn bracketed_fields(s: Seq<u8>) -> Option<Seq<Seq<u8>>> {
    let start = find_from(s, OPEN_BRACKET, 0);
    let end = find_from(s, CLOSE_BRACKET, 0);
    if start >= s.len() || end >= s.len() || end < start {
        None
    } else {
        Some(fields(s.subrange(start + 1, end)))
    }
}

/// The grid of side `n` that the fields `fs` write.
pub open spec fn grid_of_fields(fs: Seq<Seq<u8>>, n: int) -> Grid {
    Seq::new(n as nat, |r: int| Seq::new(n as nat, |c: int| field_cell(fs[r * n + c])->0))
}

/// What reading the text `s` as the cells of a board of side `n` gives, before the
/// cells are checked: the grid, or the first fault of the text.
pub open spec fn parse_grid(s: Seq<u8>, n: int) -> Result<Grid, PuzzleStateParseError> {
    match bracketed_fields(s) {
        None => Err(PuzzleStateParseError::NoBrackets),
        Some(fs) => match cells_error(fs, n * n, 0) {
            Some(e) => Err(e),
            None => if fs.len() > n * n {
                Err(PuzzleStateParseError::TooManyNumbers)
            } else {
                Ok(grid_of_fields(fs, n))
            },
        },
    }
}

/// The character of decimal digit `d`.
pub open spec fn digit_char(d: int) -> char {
    if d == 0 { '0' } else if d == 1 { '1' } else if d == 2 { '2' } else if d == 3 { '3' }
    else if d == 4 { '4' } else if d == 5 { '5' } else if d == 6 { '6' } else if d == 7 { '7' }
    else if d == 8 { '8' } else { '9' }
}

/// The decimal digits of `v`.
pub open spec fn decimal_text(v: int) -> Seq<char>
    decreases v,
{
    if v < 10 {
        seq![digit_char(v)]
    } else {
        decimal_text(v / 10) + seq![digit_char(v % 10)]
    }
}

/// The text of one cell: its number, or nothing for the blank.
pub open spec fn cell_text(c: Option<u8>) -> Seq<char> {
    match c {
        Some(v) => decimal_text(v as int),
        None => Seq::<char>::empty(),
    }
}

/// The texts of the first `k` cells of `g`, in row-major order, separated by `", "`.
pub open spec fn cells_text(g: Grid, n: int, k: int) -> Seq<char>
    decreases k,
{
    if k <= 0 {
        Seq::<char>::empty()
    } else if k == 1 {
        cell_text(g[0][0])
    } else {
        cells_text(g, n, k - 1) + seq![',', ' '] + cell_text(g[(k - 1) / n][(k - 1) % n])
    }
}

/// The text form of a board of side `n`.
pub open spec fn board_text(g: Grid, n: int) -> Seq<char> {
    seq!['['] + cells_text(g, n, n * n) + seq![']']
}

/// The text of decimal digit `d`.
fn digit_str(d: u8) -> (r: &'static str)
    requires
        d < 10,
    ensures
        r@ == seq![digit_char(d as int)],
{
    proof {
        reveal_strlit("0");
        reveal_strlit("1");
        reveal_strlit("2");
        reveal_strlit("3");
        reveal_strlit("4");
        reveal_strlit("5");
        reveal_strlit("6");
        reveal_strlit("7");
        reveal_strlit("8");
        reveal_strlit("9");
    }
    if d == 0 { "0" } else if d == 1 { "1" } else if d == 2 { "2" } else if d == 3 { "3" }
    else if d == 4 { "4" } else if d == 5 { "5" } else if d == 6 { "6" } else if d == 7 { "7" }
    else if d == 8 { "8" } else { "9" }
}

/// Appends the text of a cell whose number is below 100.
pub fn append_cell(text: &mut String, cell: Option<u8>)
    requires
        cell is Some ==> cell->0 < 100,
    ensures
        final(text)@ == old(text)@ + cell_text(cell),
{
    if let Some(v) = cell {
        if v >= 10 {
            text.append(digit_str(v / 10));
            text.append(digit_str(v % 10));
            proof {
                assert(decimal_text((v / 10) as int) == seq![digit_char((v / 10) as int)]);
                assert(old(text)@ + cell_text(cell) =~= old(text)@ + seq![digit_char((v / 10) as int)] + seq![digit_char((v % 10) as int)]);
            }
        } else {
            text.append(digit_str(v));
        }
    } else {
        assert(old(text)@ + cell_text(cell) =~= old(text)@);
    }
}

/// The first index of `b` found is an index of `b`.
pub proof fn lemma_find_from(s: Seq<u8>, b: u8, i: int)
    requires
        0 <= i,
    ensures
        find_from(s, b, i) < s.len() ==> s[find_from(s, b, i)] == b,
        i <= find_from(s, b, i) <= s.len() || i > s.len(),
    decreases s.len() - i,
{
    if i < s.len() && s[i] != b {
        lemma_find_from(s, b, i + 1);
    }
}

/// The first index of `b` in `s`; `s.len()` if there is none.
pub fn find_byte(s: &[u8], b: u8) -> (r: usize)
    ensures
        r as int == find_from(s@, b, 0),
{
    let mut i: usize = 0;
    while i < s.len() && s[i] != b
        invariant
            i <= s@.len(),
            find_from(s@, b, 0) == find_from(s@, b, i as int),
        decreases s@.len() - i,
    {
        i += 1;
    }
    i
}

/// Splits `s[from..to]` at its commas.
pub fn split_fields(s: &[u8], from: usize, to: usize) -> (r: Vec<Vec<u8>>)
    requires
        from <= to <= s@.len(),
    ensures
        r@.map_values(|f: Vec<u8>| f@) == fields(s@.subrange(from as int, to as int)),
{
    let mut fs: Vec<Vec<u8>> = Vec::new();
    fs.push(Vec::new());
    let mut i: usize = from;
    proof {
        assert(fs@.map_values(|f: Vec<u8>| f@) =~= fields(s@.subrange(from as int, from as int)));
    }
    while i < to
        invariant
            from <= i <= to <= s@.len(),
            fs@.len() >= 1,
            fs@.map_values(|f: Vec<u8>| f@) == fields(s@.subrange(from as int, i as int)),
        decreases to - i,
    {
        let ghost before = fs@.map_values(|f: Vec<u8>| f@);
        let ghost piece = s@.subrange(from as int, i + 1);
        assert(piece.drop_last() =~= s@.subrange(from as int, i as int));
        if s[i] == COMMA {
            fs.push(Vec::new());
            assert(fs@.map_values(|f: Vec<u8>| f@) =~= before.push(Seq::<u8>::empty()));
        } else {
            let last = fs.len() - 1;
            fs[last].push(s[i]);
            assert(fs@.map_values(|f: Vec<u8>| f@) =~= before.update(before.len() - 1, before.last().push(s@[i as int])));
        }
        i += 1;
    }
    fs
}

proof fn lemma_digits_value_grows(s: Seq<u8>, k: int)
    requires
        0 <= k <= s.len(),
        forall|i: int| 0 <= i < s.len() ==> is_digit(#[trigger] s[i]),
    ensures
        0 <= digits_value(s.subrange(0, k)) <= digits_value(s),
    decreases s.len() - k,
{
    if k < s.len() {
        lemma_digits_value_grows(s, k + 1);
        assert(s.subrange(0, k + 1).drop_last() =~= s.subrange(0, k));
    } else {
        assert(s.subrange(0, k) =~= s);
    }
    assert(digits_value(s.subrange(0, k)) >= 0) by {
        lemma_digits_value_nonneg(s.subrange(0, k));
    }
}

proof fn lemma_digits_value_nonneg(s: Seq<u8>)
    requires
        forall|i: int| 0 <= i < s.len() ==> is_digit(#[trigger] s[i]),
    ensures
        digits_value(s) >= 0,
    decreases s.len(),
{
    if s.len() > 0 {
        lemma_digits_value_nonneg(s.drop_last());
    }
}

/// Reads the cell that `field` writes, ignoring white space at either end: a blank,
/// a number, or `None` when it is neither.
pub fn parse_field(field: &[u8]) -> (r: Option<Option<u8>>)
    ensures
        r == field_cell(field@),
{
    let ghost s = field@;
    let mut lo: usize = 0;
    assert(s.subrange(0, s.len() as int) =~= s);
    while lo < field.len() && (field[lo] == 32 || (9 <= field[lo] && field[lo] <= 13))
        invariant
            lo <= s.len(),
            s == field@,
            trim_start(s) == trim_start(s.subrange(lo as int, s.len() as int)),
        decreases s.len() - lo,
    {
        assert(s.subrange(lo as int, s.len() as int).drop_first() =~= s.subrange(lo + 1, s.len() as int));
        lo += 1;
    }
    let ghost t = s.subrange(lo as int, s.len() as int);
    assert(trim_start(s) == t);
    let mut hi: usize = field.len();
    while hi > lo && (field[hi - 1] == 32 || (9 <= field[hi - 1] && field[hi - 1] <= 13))
        invariant
            lo <= hi <= s.len(),
            s == field@,
            t == s.subrange(lo as int, s.len() as int),
            trim_end(t) == trim_end(s.subrange(lo as int, hi as int)),
        decreases hi,
    {
        assert(s.subrange(lo as int, hi as int).drop_last() =~= s.subrange(lo as int, hi - 1));
        hi -= 1;
    }
    let ghost u = s.subrange(lo as int, hi as int);
    assert(trim(s) == u);
    if lo == hi {
        return Some(None);
    }
    if lo < hi && field[lo] == PLUS {
        lo += 1;
    }
    let ghost d = s.subrange(lo as int, hi as int);
    assert(d =~= unsigned_part(u));
    if lo == hi {
        assert(number_of(u) is None);
        return None;
    }
    let mut value: u32 = 0;
    let mut i: usize = lo;
    while i < hi
        invariant
            lo <= i <= hi <= s.len(),
            lo < hi,
            s == field@,
            d == s.subrange(lo as int, hi as int),
            u == trim(s),
            d == unsigned_part(u),
            forall|j: int| lo <= j < i ==> is_digit(#[trigger] s[j]),
            value as int == digits_value(s.subrange(lo as int, i as int)),
            value <= 255,
        decreases hi - i,
    {
        let b = field[i];
        assert(d[i - lo] == b);
        if !(0x30 <= b && b <= 0x39) {
            proof {
                let dd = unsigned_part(u);
                assert(dd == d);
                assert(!is_digit(dd[i - lo]));
                assert(!all_digits(dd));
                assert(number_of(u) is None);
                assert(number_of(trim(field@)) is None);
            }
            return None;
        }
        assert(s.subrange(lo as int, i + 1).drop_last() =~= s.subrange(lo as int, i as int));
        assert(s.subrange(lo as int, i + 1).last() == b);
        value = value * 10 + ((b - 0x30) as u32);
        assert(value as int == digits_value(s.subrange(lo as int, i + 1)));
        if value > 255 {
            proof {
                let dd = unsigned_part(u);
                assert(dd == d);
                if all_digits(dd) {
                    assert(s.subrange(lo as int, i + 1) =~= dd.subrange(0, i + 1 - lo));
                    lemma_digits_value_grows(dd, i + 1 - lo);
                    assert(digits_value(dd) > 255);
                }
                assert(number_of(u) is None);
                assert(number_of(trim(field@)) is None);
            }
            return None;
        }
        i += 1;
    }
    assert(s.subrange(lo as int, i as int) =~= d);
    Some(Some(value as u8))
}

} // verus!

verus! {

/// The byte of decimal digit `d`.
pub open spec fn digit_byte(d: int) -> u8 {
    (0x30 + d) as u8
}

/// The decimal digits of `v`, as bytes.
pub open spec fn decimal_bytes(v: int) -> Seq<u8>
    decreases v,
{
    if v < 10 {
        seq![digit_byte(v)]
    } else {
        decimal_bytes(v / 10) + seq![digit_byte(v % 10)]
    }
}

/// The bytes of one cell: its number, or nothing for the blank.
pub open spec fn cell_bytes(c: Option<u8>) -> Seq<u8> {
    match c {
        Some(v) => decimal_bytes(v as int),
        None => Seq::<u8>::empty(),
    }
}

/// The bytes of the first `k` cells of `g`, separated by a comma and a space.
pub open spec fn cells_bytes(g: Grid, n: int, k: int) -> Seq<u8>
    decreases k,
{
    if k <= 0 {
        Seq::<u8>::empty()
    } else if k == 1 {
        cell_bytes(g[0][0])
    } else {
        cells_bytes(g, n, k - 1) + seq![COMMA, 32u8] + cell_bytes(g[(k - 1) / n][(k - 1) % n])
    }
}

/// The text form of a board of side `n`, as bytes.
pub open spec fn board_bytes(g: Grid, n: int) -> Seq<u8> {
    seq![OPEN_BRACKET] + cells_bytes(g, n, n * n) + seq![CLOSE_BRACKET]
}

/// The bytes of ASCII characters.
pub open spec fn ascii_bytes(cs: Seq<char>) -> Seq<u8> {
    Seq::new(cs.len(), |i: int| cs[i] as u8)
}

proof fn lemma_ascii_concat(a: Seq<char>, b: Seq<char>)
    ensures
        ascii_bytes(a + b) == ascii_bytes(a) + ascii_bytes(b),
        is_ascii_chars(a) && is_ascii_chars(b) ==> is_ascii_chars(a + b),
{
    assert(ascii_bytes(a + b) =~= ascii_bytes(a) + ascii_bytes(b));
    if is_ascii_chars(a) && is_ascii_chars(b) {
        assert forall|i: int| 0 <= i < (a + b).len() implies '\0' <= #[trigger] (a + b)[i] <= '\u{7f}' by {
            if i < a.len() {
                assert((a + b)[i] == a[i]);
            } else {
                assert((a + b)[i] == b[i - a.len()]);
            }
        }
    }
}

proof fn lemma_digit_ascii(d: int)
    requires
        0 <= d < 10,
    ensures
        is_ascii_chars(seq![digit_char(d)]),
        ascii_bytes(seq![digit_char(d)]) == seq![digit_byte(d)],
{
    assert(ascii_bytes(seq![digit_char(d)]) =~= seq![digit_char(d) as u8]);
    assert(digit_char(d) as u8 == digit_byte(d)) by {
        if d == 0 { assert(('0' as u32) == 48); } else if d == 1 { assert(('1' as u32) == 49); }
        else if d == 2 { assert(('2' as u32) == 50); } else if d == 3 { assert(('3' as u32) == 51); }
        else if d == 4 { assert(('4' as u32) == 52); } else if d == 5 { assert(('5' as u32) == 53); }
        else if d == 6 { assert(('6' as u32) == 54); } else if d == 7 { assert(('7' as u32) == 55); }
        else if d == 8 { assert(('8' as u32) == 56); } else { assert(('9' as u32) == 57); }
    }
}

proof fn lemma_decimal_ascii(v: int)
    requires
        0 <= v,
    ensures
        is_ascii_chars(decimal_text(v)),
        ascii_bytes(decimal_text(v)) == decimal_bytes(v),
    decreases v,
{
    if v < 10 {
        lemma_digit_ascii(v);
    } else {
        lemma_decimal_ascii(v / 10);
        lemma_digit_ascii(v % 10);
        lemma_ascii_concat(decimal_text(v / 10), seq![digit_char(v % 10)]);
    }
}

proof fn lemma_cells_ascii(g: Grid, n: int, k: int)
    requires
        2 <= n,
    ensures
        is_ascii_chars(cells_text(g, n, k)),
        ascii_bytes(cells_text(g, n, k)) == cells_bytes(g, n, k),
    decreases k,
{
    if k <= 0 {
        assert(ascii_bytes(cells_text(g, n, k)) =~= cells_bytes(g, n, k));
    } else {
        let c = if k == 1 { g[0][0] } else { g[(k - 1) / n][(k - 1) % n] };
        match c {
            Some(v) => lemma_decimal_ascii(v as int),
            None => assert(ascii_bytes(Seq::<char>::empty()) =~= Seq::<u8>::empty()),
        }
        if k > 1 {
            lemma_cells_ascii(g, n, k - 1);
            let sep = seq![',', ' '];
            assert(ascii_bytes(sep) =~= seq![COMMA, 32u8]) by {
                assert((',' as u32) == 44);
                assert((' ' as u32) == 32);
            }
            assert(is_ascii_chars(sep));
            lemma_ascii_concat(cells_text(g, n, k - 1), sep);
            lemma_ascii_concat(cells_text(g, n, k - 1) + sep, cell_text(c));
        }
    }
}

/// The text of a board is ASCII, and its bytes are those of the byte form.
pub proof fn lemma_board_text_bytes(g: Grid, n: int)
    requires
        2 <= n,
    ensures
        vstd::utf8::encode_utf8(board_text(g, n)) == board_bytes(g, n),
{
    lemma_cells_ascii(g, n, n * n);
    let open = seq!['['];
    let close = seq![']'];
    assert(ascii_bytes(open) =~= seq![OPEN_BRACKET]) by {
        assert(('[' as u32) == 0x5b);
    }
    assert(ascii_bytes(close) =~= seq![CLOSE_BRACKET]) by {
        assert((']' as u32) == 0x5d);
    }
    assert(is_ascii_chars(open));
    assert(is_ascii_chars(close));
    lemma_ascii_concat(open, cells_text(g, n, n * n));
    lemma_ascii_concat(open + cells_text(g, n, n * n), close);
    let t = board_text(g, n);
    vstd::utf8::is_ascii_chars_encode_utf8(t);
    assert(vstd::utf8::encode_utf8(t) =~= ascii_bytes(t));
}

proof fn lemma_decimal_value(v: int)
    requires
        0 <= v,
    ensures
        all_digits(decimal_bytes(v)),
        decimal_bytes(v).len() >= 1,
        digits_value(decimal_bytes(v)) == v,
    decreases v,
{
    if v < 10 {
        assert(seq![digit_byte(v)].drop_last() =~= Seq::<u8>::empty());
        assert(digits_value(seq![digit_byte(v)]) == digits_value(Seq::<u8>::empty()) * 10 + (digit_byte(v) - 0x30));
    } else {
        lemma_decimal_value(v / 10);
        let s = decimal_bytes(v);
        assert(s.drop_last() =~= decimal_bytes(v / 10));
        assert(s.last() == digit_byte(v % 10));
        assert(digit_byte(v % 10) - 0x30 == v % 10);
        vstd::arithmetic::div_mod::lemma_fundamental_div_mod(v, 10);
        assert(digits_value(s) == digits_value(decimal_bytes(v / 10)) * 10 + (s.last() - 0x30));
        assert forall|i: int| 0 <= i < s.len() implies is_digit(#[trigger] s[i]) by {
            if i < s.len() - 1 {
                assert(s[i] == decimal_bytes(v / 10)[i]);
            }
        }
    }
}

proof fn lemma_fields_nonempty(s: Seq<u8>)
    ensures
        fields(s).len() >= 1,
    decreases s.len(),
{
    if s.len() > 0 {
        lemma_fields_nonempty(s.drop_last());
    }
}

/// Bytes without a comma extend the last field.
proof fn lemma_fields_extend(s: Seq<u8>, t: Seq<u8>)
    requires
        forall|i: int| 0 <= i < t.len() ==> #[trigger] t[i] != COMMA,
    ensures
        fields(s + t) == fields(s).update(fields(s).len() - 1, fields(s).last() + t),
    decreases t.len(),
{
    lemma_fields_nonempty(s);
    if t.len() == 0 {
        assert(s + t =~= s);
        assert(fields(s).update(fields(s).len() - 1, fields(s).last() + t) =~= fields(s));
    } else {
        lemma_fields_extend(s, t.drop_last());
        assert((s + t).drop_last() =~= s + t.drop_last());
        assert((s + t).last() == t.last());
        let f = fields(s);
        assert(fields(s + t) =~= f.update(f.len() - 1, f.last() + t)) by {
            assert(f.last() + t.drop_last() + seq![t.last()] =~= f.last() + t);
            assert((f.last() + t.drop_last()).push(t.last()) =~= f.last() + t);
        }
    }
}

/// The field that the cell `k` of a board's text forms: its bytes, after a space but
/// for the first.
pub open spec fn piece(g: Grid, n: int, k: int) -> Seq<u8> {
    if k == 0 {
        cell_bytes(g[0][0])
    } else {
        seq![32u8] + cell_bytes(g[k / n][k % n])
    }
}

proof fn lemma_cell_bytes_no_comma(c: Option<u8>)
    ensures
        forall|i: int| 0 <= i < cell_bytes(c).len() ==> is_digit(#[trigger] cell_bytes(c)[i]),
{
    if let Some(v) = c {
        lemma_decimal_value(v as int);
    }
}

proof fn lemma_cells_fields(g: Grid, n: int, k: int)
    requires
        2 <= n,
        1 <= k,
    ensures
        fields(cells_bytes(g, n, k)) == Seq::new(k as nat, |j: int| piece(g, n, j)),
    decreases k,
{
    if k == 1 {
        lemma_cell_bytes_no_comma(g[0][0]);
        lemma_fields_extend(Seq::<u8>::empty(), cell_bytes(g[0][0]));
        assert(Seq::<u8>::empty() + cell_bytes(g[0][0]) =~= cell_bytes(g[0][0]));
        assert(fields(cells_bytes(g, n, k)) =~= Seq::new(k as nat, |j: int| piece(g, n, j)));
    } else {
        lemma_cells_fields(g, n, k - 1);
        let prev = cells_bytes(g, n, k - 1);
        let c = g[(k - 1) / n][(k - 1) % n];
        let tail = seq![32u8] + cell_bytes(c);
        lemma_cell_bytes_no_comma(c);
        assert forall|i: int| 0 <= i < tail.len() implies #[trigger] tail[i] != COMMA by {
            if i > 0 {
                assert(tail[i] == cell_bytes(c)[i - 1]);
            }
        }
        let with_comma = prev + seq![COMMA];
        assert(with_comma.drop_last() =~= prev);
        assert(fields(with_comma) == fields(prev).push(Seq::<u8>::empty()));
        lemma_fields_extend(with_comma, tail);
        assert(cells_bytes(g, n, k) =~= with_comma + tail);
        assert(Seq::<u8>::empty() + tail =~= tail);
        assert(fields(cells_bytes(g, n, k)) =~= Seq::new(k as nat, |j: int| piece(g, n, j)));
    }
}

proof fn lemma_piece_cell(c: Option<u8>, lead: bool)
    requires
        c is Some ==> c->0 >= 1,
    ensures
        field_cell(if lead { seq![32u8] + cell_bytes(c) } else { cell_bytes(c) }) == Some(c),
{
    let b = cell_bytes(c);
    let f = if lead { seq![32u8] + b } else { b };
    lemma_cell_bytes_no_comma(c);
    if lead {
        assert(f.drop_first() =~= b);
        assert(trim_start(f) == trim_start(b));
    }
    if let Some(v) = c {
        lemma_decimal_value(v as int);
        assert(!is_space(b[0]));
        assert(trim_start(b) == b);
        assert(b.last() == b[b.len() - 1]);
        assert(!is_space(b.last()));
        assert(trim_end(b) == b);
        assert(unsigned_part(b) == b);
    } else {
        assert(trim_start(b) == b);
        assert(trim_end(b) == b);
    }
}

proof fn lemma_find_at(s: Seq<u8>, b: u8, i: int, j: int)
    requires
        0 <= i <= j < s.len(),
        s[j] == b,
        forall|k: int| i <= k < j ==> #[trigger] s[k] != b,
    ensures
        find_from(s, b, i) == j,
    decreases j - i,
{
    if i < j {
        lemma_find_at(s, b, i + 1, j);
    }
}

proof fn lemma_cells_no_error(fs: Seq<Seq<u8>>, m: int, k: int)
    requires
        0 <= k <= m <= fs.len(),
        forall|j: int| 0 <= j < m ==> #[trigger] field_cell(fs[j]) is Some,
    ensures
        cells_error(fs, m, k) is None,
    decreases m - k,
{
    if k < m {
        lemma_cells_no_error(fs, m, k + 1);
    }
}

/// Reading the byte form of a valid board gives the board's cells back.
pub proof fn lemma_parse_board_bytes(g: Grid, n: int)
    requires
        2 <= n <= 4,
        super::valid_board(g, n),
    ensures
        parse_grid(board_bytes(g, n), n) == Ok::<Grid, PuzzleStateParseError>(g),
{
    let m = n * n;
    assert(4 <= m <= 16) by (nonlinear_arith) requires 2 <= n <= 4, m == n * n;
    let cells = cells_bytes(g, n, m);
    let s = board_bytes(g, n);
    lemma_cells_fields(g, n, m);
    let fs = Seq::new(m as nat, |j: int| piece(g, n, j));
    assert forall|j: int| 0 <= j < m implies #[trigger] field_cell(fs[j]) == Some(g[j / n][j % n]) by {
        let r = j / n;
        let c = j % n;
        assert(0 <= r < n && 0 <= c < n) by (nonlinear_arith) requires r == j / n, c == j % n, 0 <= j < n * n, n > 0;
        assert(super::on_board(n, r, c));
        if j == 0 {
            assert(r == 0 && c == 0);
        }
        lemma_piece_cell(g[r][c], j != 0);
    }
    assert forall|j: int| 0 <= j < cells.len() implies #[trigger] cells[j] != CLOSE_BRACKET by {
        lemma_cells_digits(g, n, m);
    }
    assert(s[0] == OPEN_BRACKET);
    lemma_find_at(s, OPEN_BRACKET, 0, 0);
    assert forall|k: int| 0 <= k < s.len() - 1 implies #[trigger] s[k] != CLOSE_BRACKET by {
        if k > 0 {
            assert(s[k] == cells[k - 1]);
        }
    }
    lemma_find_at(s, CLOSE_BRACKET, 0, s.len() - 1);
    assert(s.subrange(1, s.len() - 1) =~= cells);
    lemma_cells_no_error(fs, m, 0);
    assert(super::text::grid_of_fields(fs, n) =~~= g) by {
        assert forall|r: int| 0 <= r < n implies #[trigger] grid_of_fields(fs, n)[r] =~= g[r] by {
            assert forall|c: int| 0 <= c < n implies #[trigger] grid_of_fields(fs, n)[r][c] == g[r][c] by {
                let j = r * n + c;
                assert(0 <= j < m) by (nonlinear_arith) requires j == r * n + c, 0 <= r < n, 0 <= c < n, m == n * n;
                vstd::arithmetic::div_mod::lemma_fundamental_div_mod_converse(j, n, r, c);
                assert(field_cell(fs[j]) == Some(g[r][c]));
            }
        }
    }
}

/// Every byte of the cells' text is a digit, a comma or a space.
proof fn lemma_cells_digits(g: Grid, n: int, k: int)
    requires
        2 <= n,
    ensures
        forall|j: int| 0 <= j < cells_bytes(g, n, k).len() ==> {
            let b = #[trigger] cells_bytes(g, n, k)[j];
            is_digit(b) || b == COMMA || b == 32
        },
    decreases k,
{
    if k == 1 {
        lemma_cell_bytes_no_comma(g[0][0]);
    } else if k > 1 {
        lemma_cells_digits(g, n, k - 1);
        let c = g[(k - 1) / n][(k - 1) % n];
        lemma_cell_bytes_no_comma(c);
        let prev = cells_bytes(g, n, k - 1);
        let all = cells_bytes(g, n, k);
        assert forall|j: int| 0 <= j < all.len() implies {
            let b = #[trigger] all[j];
            is_digit(b) || b == COMMA || b == 32
        } by {
            if j < prev.len() {
                assert(all[j] == prev[j]);
            } else if j >= prev.len() + 2 {
                assert(all[j] == cell_bytes(c)[j - prev.len() - 2]);
            }
        }
    }
}

} // verus!
