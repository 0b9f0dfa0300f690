//! Decimal text fields: parsing unsigned integers out of character
//! sequences and rendering them back, together with the space-trimming
//! rules the header and metadata fields use.

use vstd::prelude::*;

verus! {

/// Why a decimal field failed to parse.
#[derive(Debug, Clone, Copy, PartialEq, Eq, Structural)]
pub enum NumParseError {
    /// The field held no characters.
    Empty,
    /// A character was not a decimal digit.
    InvalidDigit,
    /// The digits denote a value that does not fit the target type.
    Overflow,
}

/// A decimal digit character.
pub open spec fn is_digit(c: char) -> bool {
    48 <= c as u32 && c as u32 <= 57
}

/// The numeric value of a decimal digit character.
pub open spec fn digit_val(c: char) -> int {
    c as u32 - 48
}

/// Every character of `s` is a decimal digit.
pub open spec fn all_digits(s: Seq<char>) -> bool {
    forall|i: int| 0 <= i < s.len() ==> is_digit(#[trigger] s[i])
}

/// The value denoted by a sequence of decimal digits, most significant
/// digit first.
pub open spec fn digits_val(s: Seq<char>) -> int
    decreases s.len(),
{
    if s.len() == 0 {
        0
    } else {
        digits_val(s.drop_last()) * 10 + digit_val(s.last())
    }
}

/// `s` with every leading space removed.
pub open spec fn trim_start_spaces(s: Seq<char>) -> Seq<char>
    decreases s.len(),
{
    if s.len() > 0 && s[0] == ' ' {
        trim_start_spaces(s.drop_first())
    } else {
        s
    }
}

/// `s` with every trailing space removed.
pub open spec fn trim_end_spaces(s: Seq<char>) -> Seq<char>
    decreases s.len(),
{
    if s.len() > 0 && s.last() == ' ' {
        trim_end_spaces(s.drop_last())
    } else {
        s
    }
}

/// `s` with leading and trailing spaces removed.
pub open spec fn trim_spaces(s: Seq<char>) -> Seq<char> {
    trim_end_spaces(trim_start_spaces(s))
}

/// The result of parsing `s` as a plain run of decimal digits: the value
/// denoted, or the first reason the text is not such a run.
pub open spec fn parse_digits(s: Seq<char>) -> Result<int, NumParseError> {
    if s.len() == 0 {
        Err(NumParseError::Empty)
    } else if !all_digits(s) {
        Err(NumParseError::InvalidDigit)
    } else {
        Ok(digits_val(s))
    }
}

/// Parsing `s` as a `usize`, with no trimming.
pub open spec fn parse_usize_spec(s: Seq<char>) -> Result<usize, NumParseError> {
    match parse_digits(s) {
        Err(e) => Err(e),
        Ok(v) => if v > usize::MAX {
            Err(NumParseError::Overflow)
        } else {
            Ok(v as usize)
        },
    }
}

/// Parsing `s` as a `u32`, with no trimming.
pub open spec fn parse_u32_spec(s: Seq<char>) -> Result<u32, NumParseError> {
    match parse_digits(s) {
        Err(e) => Err(e),
        Ok(v) => if v > u32::MAX {
            Err(NumParseError::Overflow)
        } else {
            Ok(v as u32)
        },
    }
}

/// Parsing a fixed-width field: leading spaces are removed first.
pub open spec fn parse_field_spec(s: Seq<char>) -> Result<usize, NumParseError> {
    parse_usize_spec(trim_start_spaces(s))
}

/// Parsing a free-standing value: spaces on both sides are removed first.
pub open spec fn parse_trimmed_spec(s: Seq<char>) -> Result<usize, NumParseError> {
    parse_usize_spec(trim_spaces(s))
}

/// A digit character is determined by its digit value.
proof fn lemma_digit_char_id(c: char)
    requires
        is_digit(c),
    ensures
        spec_digit_char(digit_val(c)) == c,
        0 <= digit_val(c) <= 9,
        c != '0' ==> digit_val(c) >= 1,
{
    let u = c as u32;
    if u == 48 {
        assert(c == '0');
    } else if u == 49 {
        assert(c == '1');
    } else if u == 50 {
        assert(c == '2');
    } else if u == 51 {
        assert(c == '3');
    } else if u == 52 {
        assert(c == '4');
    } else if u == 53 {
        assert(c == '5');
    } else if u == 54 {
        assert(c == '6');
    } else if u == 55 {
        assert(c == '7');
    } else if u == 56 {
        assert(c == '8');
    } else {
        assert(c == '9');
    }
}

proof fn lemma_digits_val_nonneg(s: Seq<char>)
    requires
        all_digits(s),
    ensures
        digits_val(s) >= 0,
    decreases s.len(),
{
    if s.len() > 0 {
        assert(all_digits(s.drop_last()));
        lemma_digits_val_nonneg(s.drop_last());
    }
}

proof fn lemma_digits_val_prefix_le(s: Seq<char>, i: int)
    requires
        all_digits(s),
        0 <= i <= s.len(),
    ensures
        digits_val(s.take(i)) <= digits_val(s),
    decreases s.len() - i,
{
    if i < s.len() {
        assert(all_digits(s.take(i + 1)));
        assert(s.take(i + 1).drop_last() =~= s.take(i));
        lemma_digits_val_nonneg(s.take(i));
        lemma_digits_val_prefix_le(s, i + 1);
    } else {
        assert(s.take(i) =~= s);
    }
}

/// Parse a run of decimal digits as a `usize`.
pub fn parse_usize(s: &str) -> (r: Result<usize, NumParseError>)
    ensures
        r == parse_usize_spec(s@),
{
    let n = s.unicode_len();
    if n == 0 {
        return Err(NumParseError::Empty);
    }
    let mut i: usize = 0;
    while i < n
        invariant
            0 <= i <= n,
            n == s@.len(),
            all_digits(s@.take(i as int)),
        decreases n - i,
    {
        let c = s.get_char(i);
        let u = c as u32;
        if u < 48 || u > 57 {
            assert(!is_digit(s@[i as int]));
            return Err(NumParseError::InvalidDigit);
        }
        assert(s@.take(i + 1).drop_last() =~= s@.take(i as int));
        i = i + 1;
    }
    assert(s@.take(n as int) =~= s@);
    let mut acc: usize = 0;
    let mut j: usize = 0;
    while j < n
        invariant
            0 <= j <= n,
            n == s@.len(),
            all_digits(s@),
            acc == digits_val(s@.take(j as int)),
        decreases n - j,
    {
        let c = s.get_char(j);
        let u = c as u32;
        assert(is_digit(s@[j as int]));
        let d = (u - 48) as usize;
        let step = match acc.checked_mul(10) {
            Some(t) => t.checked_add(d),
            None => None,
        };
        proof {
            assert(s@.take(j + 1).drop_last() =~= s@.take(j as int));
            lemma_digits_val_nonneg(s@.take(j as int));
        }
        match step {
            Some(next) => {
                acc = next;
                j = j + 1;
            },
            None => {
                proof {
                    lemma_digits_val_prefix_le(s@, j + 1);
                }
                return Err(NumParseError::Overflow);
            },
        }
    }
    assert(s@.take(n as int) =~= s@);
    Ok(acc)
}

/// Parse a run of decimal digits as a `u32`.
pub fn parse_u32(s: &str) -> (r: Result<u32, NumParseError>)
    ensures
        r == parse_u32_spec(s@),
{
    match parse_usize(s) {
        Err(e) => Err(e),
        Ok(v) => {
            proof {
                if s@.len() > 0 && all_digits(s@) {
                    lemma_digits_val_nonneg(s@);
                }
            }
            if v > u32::MAX as usize {
                Err(NumParseError::Overflow)
            } else {
                Ok(v as u32)
            }
        },
    }
}

/// First index of `s` in `from..to` that holds a character other than a
/// space, or `to` when all of them are spaces.
pub fn skip_spaces(s: &str, from: usize, to: usize) -> (r: usize)
    requires
        from <= to <= s@.len(),
    ensures
        from <= r <= to,
        forall|k: int| from <= k < r ==> s@[k] == ' ',
        r < to ==> s@[r as int] != ' ',
    decreases to - from,
{
    let mut i: usize = from;
    while i < to
        invariant
            from <= i <= to,
            to <= s@.len(),
            forall|k: int| from <= k < i ==> s@[k] == ' ',
        decreases to - i,
    {
        if s.get_char(i) != ' ' {
            return i;
        }
        i = i + 1;
    }
    i
}

proof fn lemma_trim_start_at(s: Seq<char>, k: int)
    requires
        0 <= k <= s.len(),
        forall|j: int| 0 <= j < k ==> s[j] == ' ',
        k == s.len() || s[k] != ' ',
    ensures
        trim_start_spaces(s) =~= s.skip(k),
    decreases k,
{
    if k == 0 {
        assert(s.skip(0) =~= s);
    } else {
        assert(s[0] == ' ');
        assert(forall|j: int| 0 <= j < k - 1 ==> s.drop_first()[j] == ' ');
        lemma_trim_start_at(s.drop_first(), k - 1);
        assert(s.drop_first().skip(k - 1) =~= s.skip(k));
    }
}

proof fn lemma_trim_end_at(s: Seq<char>, k: int)
    requires
        0 <= k <= s.len(),
        forall|j: int| k <= j < s.len() ==> s[j] == ' ',
        k == 0 || s[k - 1] != ' ',
    ensures
        trim_end_spaces(s) =~= s.take(k),
    decreases s.len() - k,
{
    if k == s.len() {
        assert(s.take(k) =~= s);
    } else {
        assert(s.last() == ' ');
        lemma_trim_end_at(s.drop_last(), k);
        assert(s.drop_last().take(k) =~= s.take(k));
    }
}

/// Parse the field `s[from..to]` after removing its leading spaces.
pub fn parse_field(s: &str, from: usize, to: usize) -> (r: Result<usize, NumParseError>)
    requires
        from <= to <= s@.len(),
    ensures
        r == parse_field_spec(s@.subrange(from as int, to as int)),
{
    let start = skip_spaces(s, from, to);
    let digits = s.substring_char(start, to);
    let r = parse_usize(digits);
    proof {
        let field = s@.subrange(from as int, to as int);
        assert(forall|j: int| 0 <= j < start - from ==> field[j] == ' ');
        assert(start - from == field.len() || field[start - from] != ' ');
        lemma_trim_start_at(field, start - from);
        assert(field.skip(start - from) =~= s@.subrange(start as int, to as int));
    }
    r
}

/// Parse `s` as a value with spaces removed from both sides.
pub fn parse_trimmed(s: &str) -> (r: Result<usize, NumParseError>)
    ensures
        r == parse_trimmed_spec(s@),
{
    let n = s.unicode_len();
    let start = skip_spaces(s, 0, n);
    let mut end: usize = n;
    while end > start && s.get_char(end - 1) == ' '
        invariant
            start <= end <= n,
            n == s@.len(),
            forall|k: int| end <= k < n ==> s@[k] == ' ',
        decreases end,
    {
        end = end - 1;
    }
    let digits = s.substring_char(start, end);
    let r = parse_usize(digits);
    proof {
        lemma_trim_start_at(s@, start as int);
        let mid = s@.skip(start as int);
        assert(forall|j: int| end - start <= j < mid.len() ==> mid[j] == ' ');
        assert(end - start == 0 || mid[end - start - 1] != ' ');
        lemma_trim_end_at(mid, end - start);
        assert(mid.take(end - start) =~= s@.subrange(start as int, end as int));
    }
    r
}

/// The character for a decimal digit value.
pub open spec fn spec_digit_char(d: int) -> char {
    if d == 0 {
        '0'
    } else if d == 1 {
        '1'
    } else if d == 2 {
        '2'
    } else if d == 3 {
        '3'
    } else if d == 4 {
        '4'
    } else if d == 5 {
        '5'
    } else if d == 6 {
        '6'
    } else if d == 7 {
        '7'
    } else if d == 8 {
        '8'
    } else {
        '9'
    }
}

/// The decimal rendering of a nonnegative value, without padding and
/// without leading zeros (except for the value zero itself).
pub open spec fn spec_render_nat(n: int) -> Seq<char>
    decreases n,
{
    if n < 10 {
        seq![spec_digit_char(n)]
    } else {
        spec_render_nat(n / 10) + seq![spec_digit_char(n % 10)]
    }
}

fn digit_str(d: usize) -> (s: &'static str)
    requires
        d < 10,
    ensures
        s@ =~= seq![spec_digit_char(d as int)],
{
    proof {
        reveal_strlit("0");
        reveal_strlit("1");
        reveal_strlit("2");
        reveal_strlit("3");
        reveal_strlit("4");
        reveal_strlit("5");
        reveal_strlit("6");
        reveal_strlit("7");
        reveal_strlit("8");
        reveal_strlit("9");
    }
    match d {
        0 => "0",
        1 => "1",
        2 => "2",
        3 => "3",
        4 => "4",
        5 => "5",
        6 => "6",
        7 => "7",
        8 => "8",
        _ => "9",
    }
}

/// Render `n` in decimal.
pub fn render_usize(n: usize) -> (s: String)
    ensures
        s@ == spec_render_nat(n as int),
    decreases n,
{
    if n < 10 {
        String::from_str(digit_str(n))
    } else {
        let front = render_usize(n / 10);
        front.concat(digit_str(n % 10))
    }
}

/// Rendered digits are digits, denote the rendered value, and carry no
/// leading zero (unless the value is zero); so parsing a rendering gives
/// the value back.
pub proof fn lemma_render_digits(n: int)
    requires
        n >= 0,
    ensures
        all_digits(spec_render_nat(n)),
        digits_val(spec_render_nat(n)) == n,
        spec_render_nat(n).len() >= 1,
        spec_render_nat(n)[0] == '0' ==> n == 0,
    decreases n,
{
    if n < 10 {
        let s = spec_render_nat(n);
        assert(s =~= seq![spec_digit_char(n)]);
        assert(s.drop_last() =~= Seq::<char>::empty());
        assert(digits_val(Seq::<char>::empty()) == 0);
        assert(s.last() == spec_digit_char(n));
        assert(digits_val(s) == digits_val(s.drop_last()) * 10 + digit_val(s.last()));
        assert(digit_val(spec_digit_char(n)) == n);
    } else {
        lemma_render_digits(n / 10);
        let front = spec_render_nat(n / 10);
        let s = spec_render_nat(n);
        assert(s =~= front + seq![spec_digit_char(n % 10)]);
        assert(s.drop_last() =~= front);
        assert(s.last() == spec_digit_char(n % 10));
        assert(forall|i: int| 0 <= i < s.len() ==> is_digit(#[trigger] s[i])) by {
            assert(forall|i: int| 0 <= i < front.len() ==> s[i] == #[trigger] front[i]);
        }
    }
}

/// `pow10(k)` is ten to the power `k`.
pub open spec fn pow10(k: int) -> int
    decreases k,
{
    if k <= 0 {
        1
    } else {
        10 * pow10(k - 1)
    }
}

/// A value below `pow10(k)` renders in at most `k` digits.
pub proof fn lemma_render_len(n: int, k: int)
    requires
        0 <= n < pow10(k),
        k >= 1,
    ensures
        spec_render_nat(n).len() <= k,
    decreases n,
{
    if n >= 10 {
        assert(pow10(k) == 10 * pow10(k - 1));
        assert(n / 10 < pow10(k - 1));
        assert(k - 1 >= 1);
        lemma_render_len(n / 10, k - 1);
    }
}

/// A digit run without a leading zero is the rendering of its own value:
/// rendering is the inverse of parsing on canonical digit runs.
pub proof fn lemma_digits_canonical(t: Seq<char>)
    requires
        all_digits(t),
        t.len() >= 1,
        t[0] != '0' || t.len() == 1,
    ensures
        spec_render_nat(digits_val(t)) =~= t,
    decreases t.len(),
{
    lemma_digits_val_nonneg(t);
    if t.len() == 1 {
        assert(digits_val(t) == digit_val(t[0])) by {
            assert(t.drop_last() =~= Seq::<char>::empty());
            assert(digits_val(Seq::<char>::empty()) == 0);
            assert(t.last() == t[0]);
        }
        lemma_digit_char_id(t[0]);
    } else {
        let front = t.drop_last();
        assert(all_digits(front));
        assert(front[0] != '0');
        lemma_digits_canonical(front);
        lemma_digits_first_nonzero(front);
        let v = digits_val(t);
        assert(v == digits_val(front) * 10 + digit_val(t.last()));
        assert(v >= 10);
        assert(v / 10 == digits_val(front) && v % 10 == digit_val(t.last())) by {
            lemma_digits_val_nonneg(front);
            lemma_digit_char_id(t.last());
        }
        lemma_digit_char_id(t.last());
        assert(spec_render_nat(v) =~= spec_render_nat(v / 10) + seq![spec_digit_char(v % 10)]);
        assert(spec_render_nat(v) =~= t);
    }
}

proof fn lemma_pow10_pos(k: int)
    ensures
        pow10(k) >= 1,
    decreases k,
{
    if k > 0 {
        lemma_pow10_pos(k - 1);
    }
}

proof fn lemma_pow10_mono(a: int, b: int)
    requires
        a <= b,
    ensures
        pow10(a) <= pow10(b),
    decreases b - a,
{
    if a < b {
        lemma_pow10_mono(a, b - 1);
        lemma_pow10_pos(b - 1);
        if b > 0 {
            assert(pow10(b) == 10 * pow10(b - 1));
        }
    }
}

proof fn lemma_digits_val_pow(t: Seq<char>)
    requires
        all_digits(t),
    ensures
        digits_val(t) < pow10(t.len() as int),
    decreases t.len(),
{
    if t.len() == 0 {
    } else {
        let front = t.drop_last();
        assert(all_digits(front));
        lemma_digits_val_pow(front);
        lemma_digit_char_id(t.last());
        assert(pow10(t.len() as int) == 10 * pow10(t.len() - 1));
    }
}

/// A digit run of at most eight characters denotes a value of at most
/// eight digits.
pub proof fn lemma_digits_fit_8(t: Seq<char>)
    requires
        all_digits(t),
        t.len() <= 8,
    ensures
        0 <= digits_val(t) <= 99999999,
{
    lemma_digits_val_nonneg(t);
    lemma_digits_val_pow(t);
    lemma_pow10_mono(t.len() as int, 8);
    reveal_with_fuel(pow10, 9);
    assert(pow10(8) == 100000000);
}

/// A run of `k` space characters (empty when `k` is negative).
pub open spec fn spaces(k: int) -> Seq<char> {
    Seq::new((if k < 0 { 0 } else { k }) as nat, |i: int| ' ')
}

/// A sequence splits into its leading spaces and its left-trimmed rest.
pub proof fn lemma_trim_start_decomp(s: Seq<char>)
    ensures
        trim_start_spaces(s).len() <= s.len(),
        s =~= spaces(s.len() - trim_start_spaces(s).len()) + trim_start_spaces(s),
        trim_start_spaces(s).len() > 0 ==> trim_start_spaces(s)[0] != ' ',
        trim_start_spaces(s) =~= s.skip(s.len() - trim_start_spaces(s).len()),
    decreases s.len(),
{
    if s.len() > 0 && s[0] == ' ' {
        lemma_trim_start_decomp(s.drop_first());
        let d = s.drop_first();
        let t = trim_start_spaces(s);
        assert(t == trim_start_spaces(d));
        assert(d =~= spaces(d.len() - t.len()) + t);
        assert(s =~= seq![' '] + d);
        assert(seq![' '] + (spaces(d.len() - t.len()) + t) =~= spaces(s.len() - t.len()) + t);
        assert(s =~= spaces(s.len() - t.len()) + t);
        assert(t =~= s.skip(s.len() - t.len()));
    } else {
        assert(s.skip(0) =~= s);
        assert(s =~= spaces(0) + s);
    }
}

/// Parsing a field that holds a right-aligned rendering in eight columns
/// gives the rendered value back.
pub proof fn lemma_parse_pad_field(v: int)
    requires
        0 <= v <= 99999999,
    ensures
        spec_render_nat(v).len() <= 8,
        parse_field_spec(spaces(8 - spec_render_nat(v).len()) + spec_render_nat(v)) == Ok::<
            usize,
            NumParseError,
        >(v as usize),
{
    lemma_render_digits(v);
    reveal_with_fuel(pow10, 9);
    lemma_render_len(v, 8);
    let d = spec_render_nat(v);
    let f = spaces(8 - d.len()) + d;
    let k = 8 - d.len();
    assert(forall|j: int| 0 <= j < k ==> f[j] == ' ');
    assert(is_digit(f[k]));
    assert(f[k] != ' ');
    lemma_trim_start_at(f, k);
    assert(f.skip(k) =~= d);
    assert(usize::MAX >= 0xffff_ffff);
}

proof fn lemma_digits_first_nonzero(t: Seq<char>)
    requires
        all_digits(t),
        t.len() >= 1,
        t[0] != '0',
    ensures
        digits_val(t) >= 1,
    decreases t.len(),
{
    if t.len() == 1 {
        assert(t.drop_last() =~= Seq::<char>::empty());
        assert(digits_val(Seq::<char>::empty()) == 0);
        assert(t.last() == t[0]);
        lemma_digit_char_id(t[0]);
    } else {
        let front = t.drop_last();
        assert(front[0] == t[0]);
        assert(all_digits(front));
        lemma_digits_first_nonzero(front);
        lemma_digit_char_id(t.last());
    }
}

} // verus!
