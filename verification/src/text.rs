//! Text as a sequence of characters: tokens, fields and decimal integers.

use vstd::prelude::*;

verus! {

/// The characters of `s`, in order.
pub fn chars_of(s: &str) -> (v: Vec<char>)
    ensures
        v@ == s@,
{
    let mut v: Vec<char> = Vec::new();
    for c in it: s.chars()
        invariant
            v@ == it.seq().take(it.index()),
            it.seq() == s@,
    {
        v.push(c);
    }
    v
}

/// Whether `c` is white space.
pub open spec fn is_space(c: char) -> bool {
    let n = c as u32;
    (0x09 <= n <= 0x0D) || n == 0x20 || n == 0x85 || n == 0xA0 || n == 0x1680 || (0x2000 <= n
        <= 0x200A) || n == 0x2028 || n == 0x2029 || n == 0x202F || n == 0x205F || n == 0x3000
}

/// Decides `is_space`.
pub fn is_whitespace(c: char) -> (b: bool)
    ensures
        b == is_space(c),
{
    let n = c as u32;
    (0x09 <= n && n <= 0x0D) || n == 0x20 || n == 0x85 || n == 0xA0 || n == 0x1680 || (0x2000 <= n
        && n <= 0x200A) || n == 0x2028 || n == 0x2029 || n == 0x202F || n == 0x205F || n == 0x3000
}

/// What parts a text: the end of a line, a run of white space, or the slash
/// between the indices of a face corner.
#[derive(Clone, Copy, Debug, PartialEq, Eq, Structural)]
pub enum Separator {
    Newline,
    Whitespace,
    Slash,
}

impl Separator {
    /// Whether `c` is a separator of this kind.
    pub open spec fn splits(self, c: char) -> bool {
        match self {
            Separator::Newline => c == '\n',
            Separator::Whitespace => is_space(c),
            Separator::Slash => c == '/',
        }
    }

    /// Decides `splits`.
    pub fn matches(&self, c: char) -> (b: bool)
        ensures
            b == self.splits(c),
    {
        match self {
            Separator::Newline => c == '\n',
            Separator::Whitespace => is_whitespace(c),
            Separator::Slash => c == '/',
        }
    }
}

/// The place of the first separator of `s` at or after `i`, or the length of
/// `s` where there is none.
pub open spec fn token_end(s: Seq<char>, sep: Separator, i: int) -> int
    decreases s.len() - i,
{
    if i < 0 || i >= s.len() || sep.splits(s[i]) {
        i
    } else {
        token_end(s, sep, i + 1)
    }
}

/// The tokens of `s` from `i` on: the longest runs of characters that hold
/// no separator, in order. Nothing lies between two separators that touch.
pub open spec fn tokens_from(s: Seq<char>, sep: Separator, i: int) -> Seq<Seq<char>>
    decreases s.len() - i,
{
    if i < 0 || i >= s.len() {
        Seq::<Seq<char>>::empty()
    } else if sep.splits(s[i]) {
        tokens_from(s, sep, i + 1)
    } else {
        let end = token_end(s, sep, i);
        if i < end <= s.len() {
            seq![s.subrange(i, end)] + tokens_from(s, sep, end)
        } else {
            Seq::<Seq<char>>::empty()
        }
    }
}

/// The tokens of `s`.
pub open spec fn tokens(s: Seq<char>, sep: Separator) -> Seq<Seq<char>> {
    tokens_from(s, sep, 0)
}

/// The fields of `s` from `i` on: what stands before, between and after its
/// separators, in order. A field may be empty, and there is always one.
pub open spec fn fields_from(s: Seq<char>, sep: Separator, i: int) -> Seq<Seq<char>>
    decreases s.len() - i,
{
    let end = token_end(s, sep, i);
    if i < 0 || end < i || end >= s.len() {
        seq![s.subrange(i, s.len() as int)]
    } else {
        seq![s.subrange(i, end)] + fields_from(s, sep, end + 1)
    }
}

/// The fields of `s`.
pub open spec fn fields(s: Seq<char>, sep: Separator) -> Seq<Seq<char>> {
    fields_from(s, sep, 0)
}

/// The characters of each of `v`.
pub open spec fn views(v: Seq<Vec<char>>) -> Seq<Seq<char>> {
    v.map_values(|t: Vec<char>| t@)
}

/// The end of a token lies within the text, at a separator or at the end,
/// and no separator stands before it.
pub proof fn lemma_token_end(s: Seq<char>, sep: Separator, i: int)
    requires
        0 <= i <= s.len(),
    ensures
        i <= token_end(s, sep, i) <= s.len(),
        token_end(s, sep, i) < s.len() ==> sep.splits(s[token_end(s, sep, i)]),
        forall|k: int| i <= k < token_end(s, sep, i) ==> !sep.splits(#[trigger] s[k]),
    decreases s.len() - i,
{
    if i < s.len() && !sep.splits(s[i]) {
        lemma_token_end(s, sep, i + 1);
    }
}

/// Finds the end of the token or field that starts at `i`.
fn find_end(s: &Vec<char>, sep: Separator, i: usize) -> (end: usize)
    requires
        i <= s.len(),
    ensures
        end == token_end(s@, sep, i as int),
        i <= end <= s.len(),
{
    let mut j: usize = i;
    while j < s.len() && !sep.matches(s[j])
        invariant
            i <= j <= s.len(),
            token_end(s@, sep, i as int) == token_end(s@, sep, j as int),
        decreases s.len() - j,
    {
        j += 1;
    }
    j
}

/// The characters of `s` from `from` up to `to`.
pub fn slice(s: &Vec<char>, from: usize, to: usize) -> (part: Vec<char>)
    requires
        from <= to <= s.len(),
    ensures
        part@ == s@.subrange(from as int, to as int),
{
    let mut part: Vec<char> = Vec::new();
    let mut k: usize = from;
    while k < to
        invariant
            from <= k <= to <= s.len(),
            part@ == s@.subrange(from as int, k as int),
        decreases to - k,
    {
        part.push(s[k]);
        assert(part@ =~= s@.subrange(from as int, k as int + 1));
        k += 1;
    }
    assert(part@ =~= s@.subrange(from as int, to as int));
    part
}

/// Splits `s` into its tokens.
pub fn split_tokens(s: &Vec<char>, sep: Separator) -> (out: Vec<Vec<char>>)
    ensures
        views(out@) == tokens(s@, sep),
{
    let mut out: Vec<Vec<char>> = Vec::new();
    let mut i: usize = 0;
    assert(views(out@) =~= Seq::<Seq<char>>::empty());
    while i < s.len()
        invariant
            i <= s.len(),
            tokens(s@, sep) == views(out@) + tokens_from(s@, sep, i as int),
        decreases s.len() - i,
    {
        if sep.matches(s[i]) {
            i += 1;
        } else {
            let end = find_end(s, sep, i);
            proof {
                lemma_token_end(s@, sep, i as int);
            }
            let token = slice(s, i, end);
            let ghost before = out@;
            out.push(token);
            assert(views(out@) =~= views(before) + seq![s@.subrange(i as int, end as int)]);
            i = end;
        }
    }
    assert(views(out@) + Seq::<Seq<char>>::empty() =~= views(out@));
    out
}

/// Splits `s` into its fields.
pub fn split_fields(s: &Vec<char>, sep: Separator) -> (out: Vec<Vec<char>>)
    ensures
        views(out@) == fields(s@, sep),
        out.len() >= 1,
{
    let mut out: Vec<Vec<char>> = Vec::new();
    let mut i: usize = 0;
    assert(views(out@) =~= Seq::<Seq<char>>::empty());
    loop
        invariant_except_break
            i <= s.len(),
            fields(s@, sep) == views(out@) + fields_from(s@, sep, i as int),
        ensures
            views(out@) == fields(s@, sep),
            out.len() >= 1,
        decreases s.len() - i,
    {
        let end = find_end(s, sep, i);
        let field = slice(s, i, end);
        let ghost before = out@;
        out.push(field);
        assert(views(out@) =~= views(before) + seq![s@.subrange(i as int, end as int)]);
        if end >= s.len() {
            assert(s@.subrange(i as int, end as int) == s@.subrange(i as int, s.len() as int));
            break;
        }
        i = end + 1;
    }
    out
}

/// Whether `c` is one of the ten decimal digits.
pub open spec fn is_digit(c: char) -> bool {
    0x30 <= c as u32 <= 0x39
}

/// The value of the decimal digit `c`.
pub open spec fn digit_value(c: char) -> int {
    c as u32 - 0x30
}

/// Whether `s` holds decimal digits only.
pub open spec fn all_digits(s: Seq<char>) -> bool {
    forall|k: int| 0 <= k < s.len() ==> is_digit(#[trigger] s[k])
}

/// The number that the digits `s` write in base ten.
pub open spec fn decimal(s: Seq<char>) -> int
    decreases s.len(),
{
    if s.len() == 0 {
        0
    } else {
        decimal(s.drop_last()) * 10 + digit_value(s.last())
    }
}

/// The integer that `s` writes: one or more decimal digits, with a `+` or a
/// `-` in front or with neither. Any other text writes none.
pub open spec fn signed_decimal(s: Seq<char>) -> Option<int> {
    let signed = s.len() > 0 && (s[0] == '-' || s[0] == '+');
    let digits = if signed {
        s.drop_first()
    } else {
        s
    };
    if digits.len() == 0 || !all_digits(digits) {
        None
    } else if s[0] == '-' {
        Some(-decimal(digits))
    } else {
        Some(decimal(digits))
    }
}

/// The 32-bit integer that `s` writes, if it writes one that fits.
pub open spec fn parsed_i32(s: Seq<char>) -> Option<i32> {
    match signed_decimal(s) {
        Some(v) => if i32::MIN <= v <= i32::MAX {
            Some(v as i32)
        } else {
            None
        },
        None => None,
    }
}

/// The digits of a number write no less than any of its leading digits.
pub proof fn lemma_decimal_grows(s: Seq<char>, k: int)
    requires
        all_digits(s),
        0 <= k <= s.len(),
    ensures
        0 <= decimal(s.take(k)) <= decimal(s),
    decreases s.len(),
{
    if k == s.len() {
        assert(s.take(k) =~= s);
        if s.len() > 0 {
            assert(all_digits(s.drop_last())) by {
                assert forall|j: int| 0 <= j < s.drop_last().len() implies is_digit(
                    #[trigger] s.drop_last()[j],
                ) by {
                    assert(s.drop_last()[j] == s[j]);
                }
            }
            lemma_decimal_grows(s.drop_last(), k - 1);
            assert(is_digit(s[s.len() - 1]));
        }
    } else {
        assert(all_digits(s.drop_last())) by {
            assert forall|j: int| 0 <= j < s.drop_last().len() implies is_digit(
                #[trigger] s.drop_last()[j],
            ) by {
                assert(s.drop_last()[j] == s[j]);
            }
        }
        lemma_decimal_grows(s.drop_last(), k);
        lemma_decimal_grows(s.drop_last(), s.len() - 1);
        assert(s.drop_last().take(k) =~= s.take(k));
        assert(s.drop_last().take(s.len() - 1) =~= s.drop_last());
        assert(is_digit(s[s.len() - 1]));
    }
}

/// Reads `s` as a decimal integer of 32 bits.
pub fn parse_i32(s: &Vec<char>) -> (r: Option<i32>)
    ensures
        r == parsed_i32(s@),
{
    let n = s.len();
    if n == 0 {
        return None;
    }
    let negative = s[0] == '-';
    let start: usize = if s[0] == '-' || s[0] == '+' {
        1
    } else {
        0
    };
    let ghost digits = s@.subrange(start as int, n as int);
    proof {
        if start == 1 {
            assert(digits =~= s@.drop_first());
        } else {
            assert(digits =~= s@);
        }
    }
    if start == n {
        return None;
    }
    let mut acc: i64 = 0;
    let mut k: usize = start;
    while k < n
        invariant
            start <= k <= n,
            n == s.len(),
            n > 0,
            negative == (s@[0] == '-'),
            digits == s@.subrange(start as int, n as int),
            digits == (if s@[0] == '-' || s@[0] == '+' {
                s@.drop_first()
            } else {
                s@
            }),
            forall|j: int| 0 <= j < k - start ==> is_digit(#[trigger] digits[j]),
            acc == decimal(digits.take(k - start)),
            0 <= acc <= 0x8000_0000,
        decreases n - k,
    {
        let c = s[k];
        let code = c as u32;
        assert(digits[k - start] == c);
        if code < 0x30 || code > 0x39 {
            assert(!is_digit(digits[k - start]));
            return None;
        }
        assert(digits.take(k - start + 1).drop_last() =~= digits.take(k - start));
        acc = acc * 10 + (code - 0x30) as i64;
        if acc > 0x8000_0000 {
            proof {
                if all_digits(digits) {
                    lemma_decimal_grows(digits, k - start + 1);
                }
            }
            return None;
        }
        k += 1;
    }
    proof {
        assert(digits.take(n - start) =~= digits);
    }
    if negative {
        Some((-acc) as i32)
    } else if acc > 0x7FFF_FFFF {
        None
    } else {
        Some(acc as i32)
    }
}

} // verus!
