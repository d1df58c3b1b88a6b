//! Reading the timings that a runner prints.
//!
//! A runner reports one duration per repetition, as a number of microseconds
//! in decimal notation. The output is cut into words at whitespace, and every
//! word has to be a number: one word that is not spoils the whole output.

use vstd::prelude::*;
use crate::text::{append_range, chars_of, decimal, string_of};
use crate::time::Duration;

verus! {

/// The characters that separate words: the ones Unicode calls white space.
pub open spec fn is_whitespace(c: char) -> bool {
    let n = c as int;
    ||| 0x09 <= n <= 0x0D
    ||| n == 0x20
    ||| n == 0x85
    ||| n == 0xA0
    ||| n == 0x1680
    ||| 0x2000 <= n <= 0x200A
    ||| n == 0x2028
    ||| n == 0x2029
    ||| n == 0x202F
    ||| n == 0x205F
    ||| n == 0x3000
}

/// Whether `c` separates words.
pub fn separates(c: char) -> (b: bool)
    ensures
        b == is_whitespace(c),
{
    let n: u32 = c as u32;
    (0x09 <= n && n <= 0x0D) || n == 0x20 || n == 0x85 || n == 0xA0 || n == 0x1680 || (0x2000 <= n
        && n <= 0x200A) || n == 0x2028 || n == 0x2029 || n == 0x202F || n == 0x205F || n == 0x3000
}

/// The words of `s`, read from left to right: a whitespace character adds
/// nothing, any other character continues the word that the character before
/// it belongs to, or starts a new word where there is no such word.
pub open spec fn words(s: Seq<char>) -> Seq<Seq<char>>
    decreases s.len(),
{
    if s.len() == 0 {
        Seq::empty()
    } else {
        let before = words(s.drop_last());
        if is_whitespace(s.last()) {
            before
        } else if ends_in_word(s.drop_last()) {
            before.drop_last().push(before.last().push(s.last()))
        } else {
            before.push(seq![s.last()])
        }
    }
}

/// Whether the last character of `s` belongs to a word.
pub open spec fn ends_in_word(s: Seq<char>) -> bool {
    s.len() > 0 && !is_whitespace(s.last())
}

/// The texts that the vectors of `v` hold.
pub open spec fn texts(v: Seq<Vec<char>>) -> Seq<Seq<char>> {
    Seq::new(v.len(), |i: int| v[i]@)
}

/// A text that ends in a word has at least that word.
pub proof fn lemma_words_nonempty(s: Seq<char>)
    requires
        ends_in_word(s),
    ensures
        words(s).len() > 0,
{
}

/// Cuts `text` into its words.
pub fn split_words(text: &Vec<char>) -> (out: Vec<Vec<char>>)
    ensures
        texts(out@) == words(text@),
{
    let mut out: Vec<Vec<char>> = Vec::new();
    let mut word: Vec<char> = Vec::new();
    let mut in_word: bool = false;
    let mut i: usize = 0;
    assert(text@.take(0) =~= Seq::<char>::empty());
    assert(texts(out@) =~= words(text@.take(0)));
    while i < text.len()
        invariant
            i <= text.len(),
            in_word == ends_in_word(text@.take(i as int)),
            in_word ==> texts(out@).push(word@) == words(text@.take(i as int)),
            !in_word ==> texts(out@) == words(text@.take(i as int)),
        decreases text.len() - i,
    {
        let c = text[i];
        let ghost prefix = text@.take(i as int);
        let ghost longer = text@.take(i + 1);
        assert(longer.drop_last() =~= prefix);
        assert(longer.last() == c);
        if separates(c) {
            if in_word {
                let ghost shown = texts(out@);
                out.push(word);
                assert(texts(out@) =~= shown.push(word@));
                word = Vec::new();
                in_word = false;
            }
        } else {
            if in_word {
                let ghost old_word = word@;
                word.push(c);
                proof {
                    let before = words(prefix);
                    assert(before.last() == old_word);
                    assert(before.drop_last() =~= texts(out@));
                }
            } else {
                word = Vec::new();
                word.push(c);
                assert(word@ =~= seq![c]);
                in_word = true;
                proof {
                    if ends_in_word(prefix) {
                    }
                }
            }
        }
        i += 1;
    }
    assert(text@.take(text.len() as int) =~= text@);
    if in_word {
        let ghost shown = texts(out@);
        out.push(word);
        assert(texts(out@) =~= shown.push(word@));
    }
    out
}


/// Whether `c` is one of the ten decimal digits.
pub open spec fn is_digit(c: char) -> bool {
    '0' <= c && c <= '9'
}

/// The number that the digit `c` stands for.
pub open spec fn digit_of(c: char) -> nat {
    (c as int - 48) as nat
}

/// The end of the run of digits that starts at `from`: the first position
/// from there on that holds no digit.
pub open spec fn digits_end(s: Seq<char>, from: int) -> int
    decreases s.len() - from,
{
    if 0 <= from < s.len() && is_digit(s[from]) {
        digits_end(s, from + 1)
    } else {
        from
    }
}

/// The number that a sequence of digits denotes; the empty sequence denotes 0.
pub open spec fn numeral_value(digits: Seq<char>) -> nat
    decreases digits.len(),
{
    if digits.len() == 0 {
        0
    } else {
        numeral_value(digits.drop_last()) * 10 + digit_of(digits.last())
    }
}

/// Ten to the power of `n`.
pub open spec fn pow10(n: nat) -> nat
    decreases n,
{
    if n == 0 {
        1
    } else {
        10 * pow10((n - 1) as nat)
    }
}

/// The whole part of the number whose digits are `digits` and whose decimal
/// point stands before position `point`; positions outside the sequence
/// count as zeros.
pub open spec fn whole_part(digits: Seq<char>, point: int) -> nat {
    if point <= 0 {
        0
    } else if point <= digits.len() {
        numeral_value(digits.take(point))
    } else {
        numeral_value(digits) * pow10((point - digits.len()) as nat)
    }
}

/// That number rounded to the nearest whole number, a half rounded up: the
/// whole part, and one more where the first digit behind the point is 5 or
/// more.
pub open spec fn rounded(digits: Seq<char>, point: int) -> nat {
    if 0 <= point < digits.len() && digit_of(digits[point]) >= 5 {
        whole_part(digits, point) + 1
    } else {
        whole_part(digits, point)
    }
}

/// `n` where it fits 64 bits, the largest 64-bit number where it does not.
pub open spec fn saturated(n: nat) -> u64 {
    if n > u64::MAX {
        u64::MAX
    } else {
        n as u64
    }
}

/// Whether `c` is a sign.
pub open spec fn is_sign(c: char) -> bool {
    c == '+' || c == '-'
}

/// An unsigned number in decimal notation: digits with at most one point
/// among them and at least one digit in all, then optionally `e` or `E`, an
/// optional sign and at least one digit of exponent. The result is the digits
/// before and behind the point, and the position of the point among them once
/// it has been moved by the exponent. `None` where `body` is no such number.
pub open spec fn number(body: Seq<char>) -> Option<(Seq<char>, int)> {
    let a = digits_end(body, 0);
    let dotted = a < body.len() && body[a] == '.';
    let f = if dotted { a + 1 } else { a };
    let g = if dotted { digits_end(body, f) } else { a };
    let mantissa = body.subrange(0, a) + body.subrange(f, g);
    if mantissa.len() == 0 {
        None
    } else if g == body.len() {
        Some((mantissa, a))
    } else if body[g] == 'e' || body[g] == 'E' {
        let x = g + 1;
        let signed = x < body.len() && is_sign(body[x]);
        let y = if signed { x + 1 } else { x };
        let z = digits_end(body, y);
        if z == y || z != body.len() {
            None
        } else {
            let e = numeral_value(body.subrange(y, z)) as int;
            Some((mantissa, if signed && body[x] == '-' { a - e } else { a + e }))
        }
    } else {
        None
    }
}

/// Whether every digit of `digits` is a zero: the number that they denote
/// is zero, wherever the point stands.
pub open spec fn all_zeros(digits: Seq<char>) -> bool {
    forall|i: int| 0 <= i < digits.len() ==> #[trigger] digits[i] == '0'
}

/// The whole number of microseconds that one word of a runner's output
/// stands for, or `None` where the word is no duration.
///
/// A duration is written as an optional sign and then a number in decimal
/// notation. It is rounded to the nearest whole number, a half rounded up,
/// and cut off at the largest 64-bit number. A number below zero is no
/// duration: behind a minus sign only zero may stand. Words for values that
/// are no numbers, or no finite ones, are no durations either.
pub open spec fn reading(word: Seq<char>) -> Option<u64> {
    let signed = word.len() > 0 && is_sign(word[0]);
    let negative = word.len() > 0 && word[0] == '-';
    let body = if signed { word.drop_first() } else { word };
    match number(body) {
        None => None,
        Some((digits, point)) => if negative && !all_zeros(digits) {
            None
        } else {
            Some(saturated(rounded(digits, point)))
        },
    }
}

/// Whether every character of `s` is a digit.
pub open spec fn all_digits(s: Seq<char>) -> bool {
    forall|i: int| 0 <= i < s.len() ==> is_digit(#[trigger] s[i])
}

/// A power of ten is at least one, and larger than its exponent.
pub proof fn lemma_pow10_grows(n: nat)
    ensures
        pow10(n) > n,
    decreases n,
{
    if n > 0 {
        lemma_pow10_grows((n - 1) as nat);
    }
}

/// The run of digits from `from` ends inside `s`, holds digits only, and is
/// followed by no digit.
pub proof fn lemma_digits_end(s: Seq<char>, from: int)
    requires
        0 <= from <= s.len(),
    ensures
        from <= digits_end(s, from) <= s.len(),
        all_digits(s.subrange(from, digits_end(s, from))),
        digits_end(s, from) < s.len() ==> !is_digit(s[digits_end(s, from)]),
    decreases s.len() - from,
{
    if from < s.len() && is_digit(s[from]) {
        lemma_digits_end(s, from + 1);
        let end = digits_end(s, from);
        assert forall|i: int| 0 <= i < end - from implies is_digit(
            #[trigger] s.subrange(from, end)[i],
        ) by {
            if i > 0 {
                assert(s.subrange(from, end)[i] == s.subrange(from + 1, end)[i - 1]);
            }
        }
    }
}


/// The largest exponent that is told apart from larger ones: every exponent
/// from here on moves the point beyond what 64 bits can hold.
pub const EXPONENT_LIMIT: u128 = 0x10_0000_0000_0000_0000_0000_0000;

/// The position where the run of digits from `from` ends.
pub(crate) fn scan_digits(s: &Vec<char>, from: usize) -> (end: usize)
    requires
        from <= s.len(),
    ensures
        end == digits_end(s@, from as int),
        from <= end <= s.len(),
{
    let mut j: usize = from;
    while j < s.len() && s[j] >= '0' && s[j] <= '9'
        invariant
            from <= j <= s.len(),
            digits_end(s@, from as int) == digits_end(s@, j as int),
        decreases s.len() - j,
    {
        j += 1;
    }
    j
}

/// The number that the digit `c` stands for.
pub(crate) fn digit_value(c: char) -> (d: u8)
    requires
        is_digit(c),
    ensures
        d == digit_of(c),
        d < 10,
{
    (c as u32 - 48) as u8
}

/// The number with the digits `digits` and the point before position
/// `point`, rounded and cut off at the largest 64-bit number.
pub(crate) fn round_digits(digits: &Vec<char>, point: i128) -> (r: u64)
    requires
        all_digits(digits@),
    ensures
        r == saturated(rounded(digits@, point as int)),
{
    if point < 0 {
        return 0;
    }
    let len: usize = digits.len();
    let inside: bool = point <= len as i128;
    let stop: usize = if inside { point as usize } else { len };
    let mut acc: u64 = 0;
    let mut over: bool = false;
    let mut i: usize = 0;
    assert(digits@.take(0) =~= Seq::<char>::empty());
    while i < stop
        invariant
            i <= stop <= len,
            len == digits.len(),
            all_digits(digits@),
            !over ==> acc == numeral_value(digits@.take(i as int)),
            over ==> numeral_value(digits@.take(i as int)) > u64::MAX,
        decreases stop - i,
    {
        assert(is_digit(digits@[i as int]));
        let d: u64 = digit_value(digits[i]) as u64;
        assert(digits@.take(i + 1).drop_last() =~= digits@.take(i as int));
        assert(digits@.take(i + 1).last() == digits@[i as int]);
        if !over {
            if acc > (u64::MAX - d) / 10 {
                over = true;
            } else {
                acc = acc * 10 + d;
            }
        }
        i += 1;
    }
    if inside {
        let up: bool = stop < len && ({
            assert(is_digit(digits@[stop as int]));
            digit_value(digits[stop]) >= 5
        });
        if over {
            u64::MAX
        } else if up {
            if acc == u64::MAX {
                u64::MAX
            } else {
                acc + 1
            }
        } else {
            acc
        }
    } else {
        assert(digits@.take(len as int) =~= digits@);
        let ghost value = numeral_value(digits@);
        let ghost shift = (point - len) as nat;
        if !over && acc == 0 {
            assert(value * pow10(shift) == 0) by (nonlinear_arith)
                requires
                    value == 0,
            ;
            return 0;
        }
        proof {
            lemma_pow10_grows(shift);
            if over {
                assert(value * pow10(shift) > u64::MAX) by (nonlinear_arith)
                    requires
                        value > u64::MAX,
                        pow10(shift) >= 1,
                ;
            }
        }
        let mut remaining: i128 = point - len as i128;
        while remaining > 0 && !over
            invariant
                0 <= remaining,
                !over ==> acc * pow10(remaining as nat) == value * pow10(shift),
                over ==> value * pow10(shift) > u64::MAX,
            decreases remaining,
        {
            let ghost rest = pow10((remaining - 1) as nat);
            proof {
                lemma_pow10_grows((remaining - 1) as nat);
            }
            assert(pow10(remaining as nat) == 10 * rest);
            if acc > u64::MAX / 10 {
                assert(acc * (10 * rest) > u64::MAX) by (nonlinear_arith)
                    requires
                        acc * 10 > u64::MAX,
                        rest >= 1,
                ;
                over = true;
            } else {
                assert((acc * 10) * rest == acc * (10 * rest)) by (nonlinear_arith);
                acc = acc * 10;
            }
            remaining -= 1;
        }
        if over {
            u64::MAX
        } else {
            assert(acc * pow10(0) == acc) by (nonlinear_arith)
                requires
                    pow10(0) == 1,
            ;
            acc
        }
    }
}


/// An exponent at or beyond the limit moves the point as far as the limit
/// itself does: above everything 64 bits can hold, or below every digit.
pub proof fn lemma_exponent_limit(digits: Seq<char>, a: int, e: int)
    requires
        0 <= a <= digits.len() <= usize::MAX,
        e >= EXPONENT_LIMIT,
    ensures
        saturated(rounded(digits, a + e)) == saturated(rounded(digits, a + EXPONENT_LIMIT)),
        rounded(digits, a - e) == 0,
        rounded(digits, a - EXPONENT_LIMIT) == 0,
{
    let v = numeral_value(digits);
    let far = (a + e - digits.len()) as nat;
    let near = (a + EXPONENT_LIMIT - digits.len()) as nat;
    lemma_pow10_grows(far);
    lemma_pow10_grows(near);
    if v == 0 {
        assert(v * pow10(far) == 0) by (nonlinear_arith)
            requires
                v == 0,
        ;
        assert(v * pow10(near) == 0) by (nonlinear_arith)
            requires
                v == 0,
        ;
    } else {
        assert(v * pow10(far) > u64::MAX) by (nonlinear_arith)
            requires
                v >= 1,
                pow10(far) > u64::MAX,
        ;
        assert(v * pow10(near) > u64::MAX) by (nonlinear_arith)
            requires
                v >= 1,
                pow10(near) > u64::MAX,
        ;
    }
}

/// Whether every digit of `digits` is a zero.
pub fn only_zeros(digits: &Vec<char>) -> (b: bool)
    ensures
        b == all_zeros(digits@),
{
    let mut i: usize = 0;
    while i < digits.len()
        invariant
            i <= digits.len(),
            forall|k: int| 0 <= k < i ==> #[trigger] digits@[k] == '0',
        decreases digits.len() - i,
    {
        if digits[i] != '0' {
            return false;
        }
        i += 1;
    }
    true
}

/// Reads an unsigned number in decimal notation: the number, rounded and cut
/// off at the largest 64-bit number, and whether it is zero.
pub fn read_number(body: &Vec<char>) -> (r: Option<(u64, bool)>)
    ensures
        r == match number(body@) {
            None => None::<(u64, bool)>,
            Some((digits, point)) => Some((saturated(rounded(digits, point)), all_zeros(digits))),
        },
{
    let len: usize = body.len();
    let a: usize = scan_digits(body, 0);
    let dotted: bool = a < len && body[a] == '.';
    let f: usize = if dotted { a + 1 } else { a };
    let g: usize = if dotted { scan_digits(body, f) } else { a };
    let mut mantissa: Vec<char> = Vec::new();
    append_range(&mut mantissa, body, 0, a);
    append_range(&mut mantissa, body, f, g);
    proof {
        lemma_digits_end(body@, 0);
        lemma_digits_end(body@, f as int);
        assert(mantissa@ =~= body@.subrange(0, a as int) + body@.subrange(f as int, g as int));
        assert(body@.subrange(f as int, f as int) =~= Seq::<char>::empty());
        assert forall|i: int| 0 <= i < mantissa@.len() implies is_digit(#[trigger] mantissa@[i]) by {
            if i < a {
                assert(mantissa@[i] == body@.subrange(0, a as int)[i]);
            } else {
                assert(mantissa@[i] == body@.subrange(f as int, g as int)[i - a]);
            }
        }
    }
    if mantissa.len() == 0 {
        return None;
    }
    let zero: bool = only_zeros(&mantissa);
    if g == len {
        return Some((round_digits(&mantissa, a as i128), zero));
    }
    if body[g] == 'e' || body[g] == 'E' {
        let x: usize = g + 1;
        let signed: bool = x < len && (body[x] == '+' || body[x] == '-');
        let y: usize = if signed { x + 1 } else { x };
        let z: usize = scan_digits(body, y);
        if z == y || z != len {
            return None;
        }
        let mut e: u128 = 0;
        let mut k: usize = y;
        proof {
            lemma_digits_end(body@, y as int);
            assert(body@.subrange(y as int, y as int) =~= Seq::<char>::empty());
        }
        while k < z
            invariant
                y <= k <= z <= body.len(),
                all_digits(body@.subrange(y as int, z as int)),
                e <= EXPONENT_LIMIT,
                e < EXPONENT_LIMIT ==> e == numeral_value(body@.subrange(y as int, k as int)),
                e == EXPONENT_LIMIT ==> numeral_value(body@.subrange(y as int, k as int))
                    >= EXPONENT_LIMIT,
            decreases z - k,
        {
            assert(body@[k as int] == body@.subrange(y as int, z as int)[k - y]);
            let d: u128 = digit_value(body[k]) as u128;
            assert(body@.subrange(y as int, k + 1).drop_last() =~= body@.subrange(
                y as int,
                k as int,
            ));
            assert(body@.subrange(y as int, k + 1).last() == body@[k as int]);
            if e < EXPONENT_LIMIT {
                e = e * 10 + d;
                if e > EXPONENT_LIMIT {
                    e = EXPONENT_LIMIT;
                }
            }
            k += 1;
        }
        let down: bool = signed && body[x] == '-';
        let point: i128 = if down { a as i128 - e as i128 } else { a as i128 + e as i128 };
        proof {
            let exact = numeral_value(body@.subrange(y as int, z as int)) as int;
            if e == EXPONENT_LIMIT {
                lemma_exponent_limit(mantissa@, a as int, exact);
            }
        }
        Some((round_digits(&mantissa, point), zero))
    } else {
        None
    }
}

/// Reads one word of a runner's output as a whole number of microseconds.
pub fn read_word(word: &Vec<char>) -> (r: Option<u64>)
    ensures
        r == reading(word@),
{
    let signed: bool = word.len() > 0 && (word[0] == '+' || word[0] == '-');
    let negative: bool = word.len() > 0 && word[0] == '-';
    let mut body: Vec<char> = Vec::new();
    append_range(&mut body, word, if signed { 1 } else { 0 }, word.len());
    proof {
        if signed {
            assert(body@ =~= word@.drop_first());
        } else {
            assert(body@ =~= word@);
        }
    }
    match read_number(&body) {
        None => None,
        Some((n, zero)) => if negative && !zero {
            None
        } else {
            Some(n)
        },
    }
}

/// What is wrong with an output that cannot be read: one of its words is no
/// number.
#[derive(Debug, Clone, PartialEq, Eq)]
pub struct ParseError {
    /// The place of the first such word among the words of the output,
    /// counted from 0.
    pub position: usize,
    /// That word.
    pub word: String,
}

/// Whether every word of `ws` is a number.
pub open spec fn all_readable(ws: Seq<Seq<char>>) -> bool {
    forall|i: int| 0 <= i < ws.len() ==> reading(#[trigger] ws[i]) is Some
}

/// Whether `ds` are the durations that the words `ws` stand for, one for one.
pub open spec fn durations_of(ws: Seq<Seq<char>>, ds: Seq<Duration>) -> bool {
    &&& ds.len() == ws.len()
    &&& forall|i: int|
        0 <= i < ws.len() ==> reading(#[trigger] ws[i]) is Some && ds[i]@ == reading(ws[i])->0
            * 1000
}

/// Whether `error` names the first word of `ws` that is no number.
pub open spec fn is_first_unreadable(ws: Seq<Seq<char>>, error: ParseError) -> bool {
    &&& error.position < ws.len()
    &&& reading(ws[error.position as int]) is None
    &&& error.word@ == ws[error.position as int]
    &&& forall|i: int| 0 <= i < error.position ==> reading(#[trigger] ws[i]) is Some
}

/// Reads the output of a runner as a list of durations.
///
/// The output is cut into words at whitespace. Where every word is a number,
/// the result is the list of these numbers, each rounded to whole
/// microseconds, in the order of the words; an output without words gives the
/// empty list. Where some word is no number the result is an error that names
/// the first such word, and no duration at all.
pub fn parse(text: &str) -> (r: Result<Vec<Duration>, ParseError>)
    ensures
        r is Ok <==> all_readable(words(text@)),
        r matches Ok(ds) ==> durations_of(words(text@), ds@),
        r matches Err(e) ==> is_first_unreadable(words(text@), e),
{
    let chars = chars_of(text);
    let ws = split_words(&chars);
    let mut ds: Vec<Duration> = Vec::new();
    let mut i: usize = 0;
    while i < ws.len()
        invariant
            i <= ws.len(),
            texts(ws@) == words(text@),
            ds@.len() == i,
            forall|k: int|
                0 <= k < i ==> reading(#[trigger] words(text@)[k]) is Some && ds@[k]@ == reading(
                    words(text@)[k],
                )->0 * 1000,
        decreases ws.len() - i,
    {
        assert(texts(ws@)[i as int] == ws@[i as int]@);
        match read_word(&ws[i]) {
            Some(micros) => {
                ds.push(Duration::from_micros(micros));
            },
            None => {
                return Err(ParseError { position: i, word: string_of(&ws[i]) });
            },
        }
        i += 1;
    }
    Ok(ds)
}


/// Whether `w` can stand as a word: it is not empty and holds no
/// whitespace.
pub open spec fn is_word(w: Seq<char>) -> bool {
    w.len() > 0 && forall|i: int| 0 <= i < w.len() ==> !is_whitespace(#[trigger] w[i])
}

/// Whether `g` holds whitespace only; it may be empty.
pub open spec fn is_blank(g: Seq<char>) -> bool {
    forall|i: int| 0 <= i < g.len() ==> is_whitespace(#[trigger] g[i])
}

/// Whether `gaps` can stand behind as many words: every gap is whitespace,
/// and only the last one, behind the last word, may be empty.
pub open spec fn are_gaps(gaps: Seq<Seq<char>>) -> bool {
    &&& forall|i: int| 0 <= i < gaps.len() ==> is_blank(#[trigger] gaps[i])
    &&& forall|i: int| 0 <= i < gaps.len() - 1 ==> (#[trigger] gaps[i]).len() > 0
}

/// The text made of the whitespace `lead` and then the words `ws`, each
/// followed by the gap with the same place in `gaps`.
pub open spec fn lines(lead: Seq<char>, ws: Seq<Seq<char>>, gaps: Seq<Seq<char>>) -> Seq<char>
    decreases ws.len(),
{
    if ws.len() == 0 {
        lead
    } else {
        lines(lead, ws.drop_last(), gaps.drop_last()) + ws.last() + gaps.last()
    }
}

/// Whitespace at the end of a text adds no word.
pub proof fn lemma_words_before_gap(s: Seq<char>, g: Seq<char>)
    requires
        forall|i: int| 0 <= i < g.len() ==> is_whitespace(#[trigger] g[i]),
    ensures
        words(s + g) == words(s),
    decreases g.len(),
{
    if g.len() == 0 {
        assert(s + g =~= s);
    } else {
        lemma_words_before_gap(s, g.drop_last());
        assert((s + g).drop_last() =~= s + g.drop_last());
        assert((s + g).last() == g.last());
    }
}

/// A word behind a text that does not end in a word is one more word.
pub proof fn lemma_words_with_word(s: Seq<char>, w: Seq<char>)
    requires
        !ends_in_word(s),
        is_word(w),
    ensures
        words(s + w) == words(s).push(w),
    decreases w.len(),
{
    let shorter = w.drop_last();
    assert((s + w).drop_last() =~= s + shorter);
    assert((s + w).last() == w.last());
    if shorter.len() == 0 {
        assert(s + shorter =~= s);
        assert(w =~= seq![w.last()]);
    } else {
        assert forall|i: int| 0 <= i < shorter.len() implies !is_whitespace(
            #[trigger] shorter[i],
        ) by {
            assert(shorter[i] == w[i]);
        }
        lemma_words_with_word(s, shorter);
        assert((s + shorter).last() == shorter.last());
        assert(shorter.last() == w[shorter.len() - 1]);
        assert(words(s).push(shorter).drop_last() =~= words(s));
        assert(shorter.push(w.last()) =~= w);
    }
}

/// Words that are written down one after the other, with any whitespace
/// before the first, between them and behind the last, are read back as they
/// were written.
pub proof fn lemma_words_of_lines(lead: Seq<char>, ws: Seq<Seq<char>>, gaps: Seq<Seq<char>>)
    requires
        gaps.len() == ws.len(),
        is_blank(lead),
        forall|i: int| 0 <= i < ws.len() ==> is_word(#[trigger] ws[i]),
        are_gaps(gaps),
    ensures
        words(lines(lead, ws, gaps)) == ws,
        (ws.len() == 0 || gaps.last().len() > 0) ==> !ends_in_word(lines(lead, ws, gaps)),
    decreases ws.len(),
{
    if ws.len() == 0 {
        lemma_words_before_gap(Seq::empty(), lead);
        assert(Seq::<char>::empty() + lead =~= lead);
        assert(words(lead) =~= ws);
        if lead.len() > 0 {
            assert(is_whitespace(lead[lead.len() - 1]));
        }
    } else {
        let fewer = ws.drop_last();
        let shorter = gaps.drop_last();
        let before = lines(lead, fewer, shorter);
        assert forall|i: int| 0 <= i < fewer.len() implies is_word(#[trigger] fewer[i]) by {
            assert(fewer[i] == ws[i]);
        }
        assert(are_gaps(shorter)) by {
            assert forall|i: int| 0 <= i < shorter.len() implies is_blank(#[trigger] shorter[i]) by {
                assert(shorter[i] == gaps[i]);
            }
            assert forall|i: int| 0 <= i < shorter.len() - 1 implies (#[trigger] shorter[i]).len()
                > 0 by {
                assert(shorter[i] == gaps[i]);
            }
        }
        if shorter.len() > 0 {
            assert(shorter.last() == gaps[gaps.len() - 2]);
            assert(gaps[gaps.len() - 2].len() > 0);
        }
        lemma_words_of_lines(lead, fewer, shorter);
        assert(is_word(ws.last()));
        assert(is_blank(gaps.last()));
        lemma_words_with_word(before, ws.last());
        lemma_words_before_gap(before + ws.last(), gaps.last());
        assert(fewer.push(ws.last()) =~= ws);
        if gaps.last().len() > 0 {
            assert(lines(lead, ws, gaps).last() == gaps.last().last());
            assert(is_whitespace(gaps.last()[gaps.last().len() - 1]));
        }
    }
}

/// The decimal numeral of a number holds digits only, and denotes the
/// number.
pub proof fn lemma_decimal_is_numeral(n: nat)
    ensures
        decimal(n).len() > 0,
        all_digits(decimal(n)),
        numeral_value(decimal(n)) == n,
    decreases n,
{
    if n >= 10 {
        lemma_decimal_is_numeral(n / 10);
        let d = decimal(n);
        assert(d.drop_last() =~= decimal(n / 10));
        assert(d.last() == crate::text::digit_char((n % 10) as int));
        assert(digit_of(d.last()) == n % 10);
        assert forall|i: int| 0 <= i < d.len() implies is_digit(#[trigger] d[i]) by {
            if i < d.len() - 1 {
                assert(d[i] == decimal(n / 10)[i]);
            }
        }
    } else {
        let d = decimal(n);
        assert(d.drop_last() =~= Seq::<char>::empty());
        assert(d.last() == crate::text::digit_char(n as int));
        assert(digit_of(d.last()) == n);
        assert(numeral_value(d.drop_last()) == 0);
    }
}

/// A run of digits ends where the first character that is no digit stands,
/// or where the text ends.
pub proof fn lemma_digits_end_at(s: Seq<char>, from: int, end: int)
    requires
        0 <= from <= end <= s.len(),
        forall|i: int| from <= i < end ==> is_digit(#[trigger] s[i]),
        end < s.len() ==> !is_digit(s[end]),
    ensures
        digits_end(s, from) == end,
    decreases end - from,
{
    if from < end {
        lemma_digits_end_at(s, from + 1, end);
    }
}

/// The number that is written as the decimal numeral of `whole`, a point and
/// the digits `fraction` reads as `whole`, or as one more where the first
/// digit of the fraction is 5 or more, cut off at the largest 64-bit number.
/// Without a fraction the point may be left out.
pub proof fn lemma_reading_of_numeral(whole: nat, fraction: Seq<char>)
    requires
        all_digits(fraction),
    ensures
        reading(decimal(whole) + seq!['.'] + fraction) == Some(
            saturated(
                if fraction.len() > 0 && digit_of(fraction[0]) >= 5 {
                    whole + 1
                } else {
                    whole
                },
            ),
        ),
        reading(decimal(whole)) == Some(saturated(whole)),
{
    lemma_decimal_is_numeral(whole);
    let head = decimal(whole);
    let a = head.len() as int;
    assert(is_digit(head[0]));
    // Without a point.
    lemma_digits_end_at(head, 0, a);
    assert(head.subrange(0, a) + head.subrange(a, a) =~= head);
    assert(head.take(a) =~= head);
    assert(number(head) == Some((head, a)));
    // With a point.
    let text = head + seq!['.'] + fraction;
    assert(text[0] == head[0]);
    assert forall|i: int| 0 <= i < a implies is_digit(#[trigger] text[i]) by {
        assert(text[i] == head[i]);
    }
    assert(text[a] == '.');
    lemma_digits_end_at(text, 0, a);
    assert forall|i: int| a + 1 <= i < text.len() implies is_digit(#[trigger] text[i]) by {
        assert(text[i] == fraction[i - a - 1]);
    }
    lemma_digits_end_at(text, a + 1, text.len() as int);
    let digits = text.subrange(0, a) + text.subrange(a + 1, text.len() as int);
    assert(digits =~= head + fraction);
    assert(digits.take(a) =~= head);
    assert(number(text) == Some((digits, a)));
    if fraction.len() > 0 {
        assert(digits[a] == fraction[0]);
    }
}


/// The number with the whole part `whole` as a runner writes it: without a
/// point, or with a point and the digits `fraction` behind it.
pub open spec fn numeral(whole: nat, fraction: Option<Seq<char>>) -> Seq<char> {
    match fraction {
        None => decimal(whole),
        Some(digits) => decimal(whole) + seq!['.'] + digits,
    }
}

/// That number in whole microseconds: rounded to the nearest whole number,
/// a half rounded up, and cut off at the largest 64-bit number.
pub open spec fn numeral_micros(whole: nat, fraction: Option<Seq<char>>) -> u64 {
    saturated(
        if fraction matches Some(digits) && digits.len() > 0 && digit_of(digits[0]) >= 5 {
            whole + 1
        } else {
            whole
        },
    )
}

/// The output in which the numbers with the whole parts `wholes` and the
/// fractions `fractions` stand one after the other, behind the whitespace
/// `lead` and each followed by the gap with the same place in `gaps`.
pub open spec fn numerals_text(
    wholes: Seq<nat>,
    fractions: Seq<Option<Seq<char>>>,
    lead: Seq<char>,
    gaps: Seq<Seq<char>>,
) -> Seq<char> {
    lines(lead, Seq::new(wholes.len(), |i: int| numeral(wholes[i], fractions[i])), gaps)
}

/// Whether `fractions` are fractions: where there is one, it holds digits
/// only.
pub open spec fn are_fractions(fractions: Seq<Option<Seq<char>>>) -> bool {
    forall|i: int|
        0 <= i < fractions.len() ==> ((#[trigger] fractions[i]) matches Some(digits)
            ==> all_digits(digits))
}

/// An output that holds numbers that are not negative, in decimal notation
/// and with any whitespace before, between and behind them, can be read, and
/// it is read as exactly these numbers, each rounded to the nearest
/// microsecond, in their order.
pub proof fn lemma_parse_of_numerals(
    wholes: Seq<nat>,
    fractions: Seq<Option<Seq<char>>>,
    lead: Seq<char>,
    gaps: Seq<Seq<char>>,
    durations: Seq<Duration>,
)
    requires
        fractions.len() == wholes.len(),
        gaps.len() == wholes.len(),
        are_fractions(fractions),
        is_blank(lead),
        are_gaps(gaps),
    ensures
        ({
            let text = numerals_text(wholes, fractions, lead, gaps);
            &&& words(text).len() == wholes.len()
            &&& forall|i: int|
                0 <= i < wholes.len() ==> #[trigger] words(text)[i] == numeral(
                    wholes[i],
                    fractions[i],
                )
            &&& all_readable(words(text))
            &&& durations_of(words(text), durations) ==> durations.len() == wholes.len()
                && forall|i: int|
                0 <= i < wholes.len() ==> (#[trigger] durations[i])@ == numeral_micros(
                    wholes[i],
                    fractions[i],
                ) * 1000
        }),
{
    let written = Seq::new(wholes.len(), |i: int| numeral(wholes[i], fractions[i]));
    assert forall|i: int| 0 <= i < written.len() implies is_word(#[trigger] written[i]) by {
        let w = written[i];
        let head = decimal(wholes[i]);
        lemma_decimal_is_numeral(wholes[i]);
        assert forall|k: int| 0 <= k < w.len() implies !is_whitespace(#[trigger] w[k]) by {
            if k < head.len() {
                assert(w[k] == head[k]);
                assert(is_digit(head[k]));
            } else if k > head.len() {
                let digits = fractions[i]->0;
                assert(w[k] == digits[k - head.len() - 1]);
                assert(is_digit(digits[k - head.len() - 1]));
            }
        }
    }
    lemma_words_of_lines(lead, written, gaps);
    assert forall|i: int| 0 <= i < written.len() implies reading(#[trigger] written[i]) == Some(
        numeral_micros(wholes[i], fractions[i]),
    ) by {
        match fractions[i] {
            Some(digits) => lemma_reading_of_numeral(wholes[i], digits),
            None => lemma_reading_of_numeral(wholes[i], Seq::empty()),
        }
    }
    if durations_of(written, durations) {
        assert forall|i: int| 0 <= i < wholes.len() implies (#[trigger] durations[i])@
            == numeral_micros(wholes[i], fractions[i]) * 1000 by {
            assert(reading(written[i]) is Some);
        }
    }
}

/// Digits written behind other digits move them up by as many powers of
/// ten as there are digits behind.
pub proof fn lemma_numeral_of_parts(front: Seq<char>, back: Seq<char>)
    ensures
        numeral_value(front + back) == numeral_value(front) * pow10(back.len()) + numeral_value(
            back,
        ),
    decreases back.len(),
{
    if back.len() == 0 {
        assert(front + back =~= front);
        assert(numeral_value(front) * 1 == numeral_value(front)) by (nonlinear_arith);
    } else {
        let shorter = back.drop_last();
        lemma_numeral_of_parts(front, shorter);
        assert((front + back).drop_last() =~= front + shorter);
        assert((front + back).last() == back.last());
        let f = numeral_value(front);
        let p = pow10(shorter.len());
        assert(pow10(back.len()) == 10 * p);
        assert((f * p + numeral_value(shorter)) * 10 == f * (10 * p) + numeral_value(shorter) * 10)
            by (nonlinear_arith);
    }
}

/// A number of so many digits is less than ten to the power of so many.
pub proof fn lemma_numeral_below_power(digits: Seq<char>)
    requires
        all_digits(digits),
    ensures
        numeral_value(digits) < pow10(digits.len()),
    decreases digits.len(),
{
    if digits.len() > 0 {
        let shorter = digits.drop_last();
        assert forall|i: int| 0 <= i < shorter.len() implies is_digit(#[trigger] shorter[i]) by {
            assert(shorter[i] == digits[i]);
        }
        lemma_numeral_below_power(shorter);
        assert(is_digit(digits[digits.len() - 1]));
    }
}

/// Rounding gives the nearest whole number, and the larger one of two that
/// are equally near: the number with the digits `digits` and the point
/// before position `point` lies less than a half above what it is rounded
/// to, and no more than a half below. In whole numbers: with `scale` the
/// power of ten that stands for the digits behind the point, twice the
/// digits read as one number differ from twice the rounded number times
/// `scale` by `scale` at most.
pub proof fn lemma_rounded_is_nearest(digits: Seq<char>, point: int)
    requires
        all_digits(digits),
        point <= digits.len(),
    ensures
        ({
            let scale = pow10((digits.len() - point) as nat);
            let value = numeral_value(digits);
            let nearest = rounded(digits, point);
            &&& 2 * nearest * scale <= 2 * value + scale
            &&& 2 * value < 2 * nearest * scale + scale
        }),
{
    let len = digits.len() as int;
    let scale = pow10((len - point) as nat);
    let value = numeral_value(digits);
    let nearest = rounded(digits, point);
    lemma_numeral_below_power(digits);
    if point <= 0 {
        let beyond = pow10((-point) as nat);
        lemma_pow10_grows((-point) as nat);
        lemma_pow10_split(digits.len(), (-point) as nat);
        assert(pow10(digits.len()) * beyond >= pow10(digits.len())) by (nonlinear_arith)
            requires
                beyond >= 1,
        ;
        if point == 0 && len > 0 {
            let rest = digits.skip(1);
            let first = digits.take(1);
            assert(digits =~= first + rest);
            lemma_numeral_of_parts(first, rest);
            assert(first.drop_last() =~= Seq::<char>::empty());
            assert(numeral_value(first.drop_last()) == 0);
            assert(first.last() == digits[0]);
            assert(numeral_value(first) == digit_of(digits[0]));
            assert forall|i: int| 0 <= i < rest.len() implies is_digit(#[trigger] rest[i]) by {
                assert(rest[i] == digits[i + 1]);
            }
            lemma_numeral_below_power(rest);
            assert(scale == 10 * pow10(rest.len()));
            assert(is_digit(digits[0]));
            let d = digit_of(digits[0]);
            let unit = pow10(rest.len());
            assert(value == d * unit + numeral_value(rest));
            if d >= 5 {
                assert(2 * (d * unit) >= 10 * unit) by (nonlinear_arith)
                    requires
                        d >= 5,
                        unit >= 0,
                ;
                assert(2 * 1 * scale == 2 * scale) by (nonlinear_arith);
            } else {
                assert(2 * (d * unit) <= 8 * unit) by (nonlinear_arith)
                    requires
                        d <= 4,
                        unit >= 0,
                ;
                assert(2 * 0 * scale == 0) by (nonlinear_arith);
            }
        } else if point == 0 {
            assert(2 * 0 * scale == 0) by (nonlinear_arith);
        } else {
            assert(beyond >= 10 * pow10((-point - 1) as nat));
            lemma_pow10_grows((-point - 1) as nat);
            assert(pow10(digits.len()) * beyond >= 10 * pow10(digits.len())) by (nonlinear_arith)
                requires
                    beyond >= 10,
                    pow10(digits.len()) >= 0,
            ;
            assert(2 * 0 * scale == 0) by (nonlinear_arith);
        }
    } else {
        let front = digits.take(point);
        let back = digits.skip(point);
        assert(digits =~= front + back);
        lemma_numeral_of_parts(front, back);
        let whole = numeral_value(front);
        assert forall|i: int| 0 <= i < back.len() implies is_digit(#[trigger] back[i]) by {
            assert(back[i] == digits[i + point]);
        }
        lemma_numeral_below_power(back);
        let fraction = numeral_value(back);
        assert(value == whole * scale + fraction);
        if point < len {
            let first = back.take(1);
            let rest = back.skip(1);
            assert(back =~= first + rest);
            lemma_numeral_of_parts(first, rest);
            assert(first.drop_last() =~= Seq::<char>::empty());
            assert(numeral_value(first.drop_last()) == 0);
            assert(first.last() == back[0]);
            assert(numeral_value(first) == digit_of(back[0]));
            assert(back[0] == digits[point]);
            assert forall|i: int| 0 <= i < rest.len() implies is_digit(#[trigger] rest[i]) by {
                assert(rest[i] == back[i + 1]);
            }
            lemma_numeral_below_power(rest);
            let d = digit_of(digits[point]);
            let unit = pow10(rest.len());
            assert(scale == 10 * unit);
            assert(is_digit(digits[point]));
            assert(fraction == d * unit + numeral_value(rest));
            if d >= 5 {
                assert(2 * (d * unit) >= 10 * unit) by (nonlinear_arith)
                    requires
                        d >= 5,
                        unit >= 0,
                ;
                assert(2 * (whole + 1) * scale == 2 * (whole * scale) + 2 * scale)
                    by (nonlinear_arith);
            } else {
                assert(2 * (d * unit) <= 8 * unit) by (nonlinear_arith)
                    requires
                        d <= 4,
                        unit >= 0,
                ;
                assert(2 * whole * scale == 2 * (whole * scale)) by (nonlinear_arith);
            }
        } else {
            assert(back =~= Seq::<char>::empty());
            assert(2 * whole * scale == 2 * (whole * scale)) by (nonlinear_arith);
        }
    }
}

/// A power of ten with a sum as its exponent is the product of the powers
/// of the summands.
pub proof fn lemma_pow10_split(m: nat, n: nat)
    ensures
        pow10(m + n) == pow10(m) * pow10(n),
    decreases n,
{
    if n == 0 {
        assert(pow10(m) * 1 == pow10(m)) by (nonlinear_arith);
    } else {
        lemma_pow10_split(m, (n - 1) as nat);
        assert(pow10(m) * (10 * pow10((n - 1) as nat)) == 10 * (pow10(m) * pow10((n - 1) as nat)))
            by (nonlinear_arith);
    }
}

} // verus!
