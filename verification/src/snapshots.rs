//! Snapshots: how the file that keeps the runs of a session is named, and
//! which of the files in a directory is the latest snapshot.
//!
//! A snapshot is named after the time it was taken, written so that names
//! sort like the times they stand for. The latest snapshot of a directory is
//! then the one whose name sorts last.

use vstd::prelude::*;
use vstd::string::StringExecFns;
use crate::text::{
    append_range, chars_of, digit_char, digit_to_char, first_difference, lemma_first_difference,
    lemma_precedes_at, lemma_precedes_behind_prefix, lemma_precedes_by_parts,
    lemma_precedes_irreflexive, lemma_precedes_total, lemma_precedes_transitive, precedes, spells,
    spells_word, text_equal, text_precedes,
};

verus! {

/// A point in time by the calendar and the clock, in universal time.
#[derive(Clone, Copy, Debug, PartialEq, Eq, Structural)]
pub struct Timestamp {
    /// The year, from 0 to 9999.
    pub year: u16,
    /// The month of the year, from 1 to 12.
    pub month: u8,
    /// The day of the month, from 1 to 31.
    pub day: u8,
    /// The hour of the day, from 0 to 23.
    pub hour: u8,
    /// The minute of the hour, from 0 to 59.
    pub minute: u8,
    /// The second of the minute, from 0 to 60.
    pub second: u8,
}

/// The number `n` in two digits.
pub open spec fn two_digits(n: int) -> Seq<char> {
    seq![digit_char(n / 10 % 10), digit_char(n % 10)]
}

/// The number `n` in four digits.
pub open spec fn four_digits(n: int) -> Seq<char> {
    seq![
        digit_char(n / 1000 % 10),
        digit_char(n / 100 % 10),
        digit_char(n / 10 % 10),
        digit_char(n % 10),
    ]
}

impl Timestamp {
    /// Whether every part lies in its range.
    pub open spec fn valid(self) -> bool {
        &&& self.year <= 9999
        &&& 1 <= self.month <= 12
        &&& 1 <= self.day <= 31
        &&& self.hour <= 23
        &&& self.minute <= 59
        &&& self.second <= 60
    }

    /// The time as it is written in the name of a snapshot: year, month and
    /// day with hyphens between them, a `T`, hour, minute and second with
    /// hyphens between them, and the offset `+0000` of universal time. Every
    /// part is filled up with zeros to its full width.
    pub open spec fn text(self) -> Seq<char> {
        four_digits(self.year as int) + seq!['-'] + two_digits(self.month as int) + seq!['-']
            + two_digits(self.day as int) + seq!['T'] + two_digits(self.hour as int) + seq!['-']
            + two_digits(self.minute as int) + seq!['-'] + two_digits(self.second as int) + seq![
            '+',
            '0',
            '0',
            '0',
            '0',
        ]
    }

    /// Whether this time is earlier than `other`.
    pub open spec fn earlier(self, other: Timestamp) -> bool {
        ||| self.year < other.year
        ||| self.year == other.year && self.month < other.month
        ||| self.year == other.year && self.month == other.month && self.day < other.day
        ||| self.year == other.year && self.month == other.month && self.day == other.day
            && self.hour < other.hour
        ||| self.year == other.year && self.month == other.month && self.day == other.day
            && self.hour == other.hour && self.minute < other.minute
        ||| self.year == other.year && self.month == other.month && self.day == other.day
            && self.hour == other.hour && self.minute == other.minute && self.second
            < other.second
    }

    /// Whether every part lies in its range.
    pub fn is_valid(&self) -> (b: bool)
        ensures
            b == self.valid(),
    {
        self.year <= 9999 && 1 <= self.month && self.month <= 12 && 1 <= self.day && self.day <= 31
            && self.hour <= 23 && self.minute <= 59 && self.second <= 60
    }
}

/// Appends the number `n` in two digits.
fn push_two_digits(out: &mut String, n: u8)
    requires
        n < 100,
    ensures
        final(out)@ == old(out)@ + two_digits(n as int),
{
    out.push(digit_to_char(n / 10));
    out.push(digit_to_char(n % 10));
    assert(out@ =~= old(out)@ + two_digits(n as int));
}

/// The text of the name of a snapshot that was taken at the time `stamp`.
pub open spec fn output_name(stamp: Timestamp) -> Seq<char> {
    "outputs."@ + stamp.text() + ".json"@
}

/// The name of the file that keeps a snapshot taken at the time `stamp`:
/// `outputs.`, the time, and `.json`. A time with a part out of its range
/// names no file.
pub fn output_file_name(stamp: &Timestamp) -> (name: Option<String>)
    ensures
        name is Some <==> stamp.valid(),
        name matches Some(text) ==> text@ == output_name(*stamp),
{
    if !stamp.is_valid() {
        return None;
    }
    let mut out = String::from_str("outputs.");
    out.push(digit_to_char((stamp.year / 1000) as u8));
    out.push(digit_to_char((stamp.year / 100 % 10) as u8));
    out.push(digit_to_char((stamp.year / 10 % 10) as u8));
    out.push(digit_to_char((stamp.year % 10) as u8));
    out.push('-');
    push_two_digits(&mut out, stamp.month);
    out.push('-');
    push_two_digits(&mut out, stamp.day);
    out.push('T');
    push_two_digits(&mut out, stamp.hour);
    out.push('-');
    push_two_digits(&mut out, stamp.minute);
    out.push('-');
    push_two_digits(&mut out, stamp.second);
    out.push('+');
    out.push('0');
    out.push('0');
    out.push('0');
    out.push('0');
    assert(out@ =~= "outputs."@ + stamp.text());
    out.append(".json");
    Some(out)
}

/// Numbers below a hundred sort as their two digits do.
pub proof fn lemma_two_digits_sort(m: int, n: int)
    requires
        0 <= m < 100,
        0 <= n < 100,
    ensures
        precedes(two_digits(m), two_digits(n)) <==> m < n,
        two_digits(m) == two_digits(n) <==> m == n,
{
    let x = two_digits(m);
    let y = two_digits(n);
    assert(x.take(0) =~= y.take(0));
    lemma_first_difference(x, y, 0);
    reveal_with_fuel(first_difference, 3);
    lemma_precedes_at(x, y, first_difference(x, y, 0));
    if m == n {
        assert(x =~= y);
    }
}

/// The digits of a number below ten thousand are the digits of its hundreds
/// and the digits of what is left.
proof fn lemma_hundreds(m: int)
    requires
        0 <= m < 10000,
    ensures
        0 <= m / 100 < 100,
        0 <= m % 100 < 100,
        m == (m / 100) * 100 + m % 100,
        m / 1000 % 10 == (m / 100) / 10 % 10,
        m / 100 % 10 == (m / 100) % 10,
        m / 10 % 10 == (m % 100) / 10 % 10,
        m % 10 == (m % 100) % 10,
{
    let q = m / 100;
    let r = m % 100;
    assert(m == q * 100 + r);
    assert(m / 1000 == q / 10);
    assert(m / 10 == q * 10 + r / 10);
}

/// Numbers below ten thousand sort as their four digits do.
pub proof fn lemma_four_digits_sort(m: int, n: int)
    requires
        0 <= m < 10000,
        0 <= n < 10000,
    ensures
        precedes(four_digits(m), four_digits(n)) <==> m < n,
        four_digits(m) == four_digits(n) <==> m == n,
{
    lemma_hundreds(m);
    lemma_hundreds(n);
    let m1 = m / 100;
    let m2 = m % 100;
    let n1 = n / 100;
    let n2 = n % 100;
    assert(four_digits(m) =~= two_digits(m1) + two_digits(m2));
    assert(four_digits(n) =~= two_digits(n1) + two_digits(n2));
    lemma_two_digits_sort(m1, n1);
    lemma_two_digits_sort(m2, n2);
    lemma_precedes_by_parts(two_digits(m1), two_digits(m2), two_digits(n1), two_digits(n2));
}

/// Texts that begin with two digits each sort by these numbers first, and
/// by what follows the digits where the numbers are the same.
proof fn lemma_leading_digits(m: int, n: int, u: Seq<char>, v: Seq<char>)
    requires
        0 <= m < 100,
        0 <= n < 100,
    ensures
        precedes(two_digits(m) + u, two_digits(n) + v) == (m < n || (m == n && precedes(u, v))),
        (two_digits(m) + u == two_digits(n) + v) == (m == n && u == v),
{
    lemma_two_digits_sort(m, n);
    lemma_precedes_by_parts(two_digits(m), u, two_digits(n), v);
}

/// The time of day of `t` as it is written: hour, minute, second and offset.
#[verifier::opaque]
spec fn clock_text(t: Timestamp) -> Seq<char> {
    two_digits(t.hour as int) + (seq!['-'] + (two_digits(t.minute as int) + (seq!['-'] + (
    two_digits(t.second as int) + seq!['+', '0', '0', '0', '0']))))
}

/// Whether the time of day of `a` is earlier than that of `b`.
spec fn clock_earlier(a: Timestamp, b: Timestamp) -> bool {
    ||| a.hour < b.hour
    ||| a.hour == b.hour && a.minute < b.minute
    ||| a.hour == b.hour && a.minute == b.minute && a.second < b.second
}

/// Times of day sort as their texts do.
proof fn lemma_clock_sorts(a: Timestamp, b: Timestamp)
    requires
        a.valid(),
        b.valid(),
    ensures
        precedes(clock_text(a), clock_text(b)) == clock_earlier(a, b),
        (clock_text(a) == clock_text(b)) == (a.hour == b.hour && a.minute == b.minute && a.second
            == b.second),
{
    reveal(clock_text);
    let zone = seq!['+', '0', '0', '0', '0'];
    let dash = seq!['-'];
    let a5 = two_digits(a.second as int) + zone;
    let b5 = two_digits(b.second as int) + zone;
    let a4 = two_digits(a.minute as int) + (dash + a5);
    let b4 = two_digits(b.minute as int) + (dash + b5);
    assert(precedes(a5, b5) == (a.second < b.second) && (a5 == b5) == (a.second == b.second)) by {
        lemma_precedes_irreflexive(zone);
        lemma_leading_digits(a.second as int, b.second as int, zone, zone);
    }
    assert(precedes(dash + a5, dash + b5) == precedes(a5, b5) && (dash + a5 == dash + b5) == (a5
        == b5)) by {
        lemma_precedes_behind_prefix(dash, a5, b5);
    }
    assert(precedes(a4, b4) == (a.minute < b.minute || (a.minute == b.minute && a.second
        < b.second)) && (a4 == b4) == (a.minute == b.minute && a.second == b.second)) by {
        lemma_leading_digits(a.minute as int, b.minute as int, dash + a5, dash + b5);
    }
    assert(precedes(dash + a4, dash + b4) == precedes(a4, b4) && (dash + a4 == dash + b4) == (a4
        == b4)) by {
        lemma_precedes_behind_prefix(dash, a4, b4);
    }
    lemma_leading_digits(a.hour as int, b.hour as int, dash + a4, dash + b4);
}

/// The day of `t` and its time of day as they are written.
#[verifier::opaque]
spec fn date_text(t: Timestamp) -> Seq<char> {
    four_digits(t.year as int) + (seq!['-'] + day_text(t))
}

/// The text of a time is its day and its time of day as they are written.
proof fn lemma_text_in_parts(t: Timestamp)
    ensures
        t.text() == date_text(t),
{
    reveal(clock_text);
    reveal(day_text);
    reveal(date_text);
    assert(t.text() =~= date_text(t));
}

/// The day of the year of `t` and its time of day as they are written.
#[verifier::opaque]
spec fn day_text(t: Timestamp) -> Seq<char> {
    two_digits(t.month as int) + (seq!['-'] + (two_digits(t.day as int) + (seq!['T']
        + clock_text(t))))
}

/// Whether `a` is earlier in its year than `b` is in its year.
spec fn day_earlier(a: Timestamp, b: Timestamp) -> bool {
    ||| a.month < b.month
    ||| a.month == b.month && a.day < b.day
    ||| a.month == b.month && a.day == b.day && clock_earlier(a, b)
}

/// Times within a year sort as their texts do.
proof fn lemma_day_sorts(a: Timestamp, b: Timestamp)
    requires
        a.valid(),
        b.valid(),
    ensures
        precedes(day_text(a), day_text(b)) == day_earlier(a, b),
        (day_text(a) == day_text(b)) == (a.month == b.month && a.day == b.day && a.hour == b.hour
            && a.minute == b.minute && a.second == b.second),
{
    reveal(day_text);
    let dash = seq!['-'];
    let tee = seq!['T'];
    let a3 = clock_text(a);
    let b3 = clock_text(b);
    let a2 = two_digits(a.day as int) + (tee + a3);
    let b2 = two_digits(b.day as int) + (tee + b3);
    lemma_clock_sorts(a, b);
    assert(precedes(tee + a3, tee + b3) == precedes(a3, b3) && (tee + a3 == tee + b3) == (a3
        == b3)) by {
        lemma_precedes_behind_prefix(tee, a3, b3);
    }
    assert(precedes(a2, b2) == (a.day < b.day || (a.day == b.day && clock_earlier(a, b))) && (a2
        == b2) == (a.day == b.day && a3 == b3)) by {
        lemma_leading_digits(a.day as int, b.day as int, tee + a3, tee + b3);
    }
    assert(precedes(dash + a2, dash + b2) == precedes(a2, b2) && (dash + a2 == dash + b2) == (a2
        == b2)) by {
        lemma_precedes_behind_prefix(dash, a2, b2);
    }
    lemma_leading_digits(a.month as int, b.month as int, dash + a2, dash + b2);
}

/// Times sort as their days and times of day, written out, do.
proof fn lemma_date_sorts(a: Timestamp, b: Timestamp)
    requires
        a.valid(),
        b.valid(),
    ensures
        precedes(date_text(a), date_text(b)) == (a.year < b.year || (a.year == b.year
            && day_earlier(a, b))),
        (date_text(a) == date_text(b)) == (a == b),
{
    reveal(date_text);
    let dash = seq!['-'];
    let a1 = day_text(a);
    let b1 = day_text(b);
    lemma_day_sorts(a, b);
    assert(precedes(dash + a1, dash + b1) == precedes(a1, b1) && (dash + a1 == dash + b1) == (a1
        == b1)) by {
        lemma_precedes_behind_prefix(dash, a1, b1);
    }
    assert(precedes(four_digits(a.year as int), four_digits(b.year as int)) == (a.year < b.year)
        && (four_digits(a.year as int) == four_digits(b.year as int)) == (a.year == b.year)) by {
        lemma_four_digits_sort(a.year as int, b.year as int);
    }
    lemma_precedes_by_parts(
        four_digits(a.year as int),
        dash + a1,
        four_digits(b.year as int),
        dash + b1,
    );
}

/// Times sort as their texts do: an earlier time is written as a text that
/// comes first in dictionary order, and different times are written
/// differently.
pub proof fn lemma_timestamps_sort(a: Timestamp, b: Timestamp)
    requires
        a.valid(),
        b.valid(),
    ensures
        precedes(a.text(), b.text()) <==> a.earlier(b),
        a.text() == b.text() <==> a == b,
{
    lemma_text_in_parts(a);
    lemma_text_in_parts(b);
    lemma_date_sorts(a, b);
}

/// The place of the last point in `name`, or -1 where it holds no point.
pub open spec fn last_point(name: Seq<char>) -> int
    decreases name.len(),
{
    if name.len() == 0 {
        -1
    } else if name.last() == '.' {
        name.len() - 1
    } else {
        last_point(name.drop_last())
    }
}

/// The start of the name of every snapshot.
pub open spec fn output_prefix() -> Seq<char> {
    seq!['o', 'u', 't', 'p', 'u', 't', 's', '.']
}

/// The extension of the name of every snapshot, in lowercase.
pub open spec fn output_extension() -> Seq<char> {
    seq!['j', 's', 'o', 'n']
}

/// Whether a file called `name` counts as a snapshot: the name begins with
/// `outputs.`, and what follows its last point is `json` in any mix of
/// cases.
pub open spec fn is_output_name(name: Seq<char>) -> bool {
    &&& name.len() >= 8
    &&& name.take(8) == output_prefix()
    &&& spells(name.skip(last_point(name) + 1), output_extension())
}

/// Whether the file at place `k` of `names` is the latest snapshot: it is a
/// snapshot, no snapshot has a name behind its name in dictionary order, and
/// of several files with that name it is the last.
pub open spec fn is_latest(names: Seq<Seq<char>>, k: int) -> bool {
    &&& 0 <= k < names.len()
    &&& is_output_name(names[k])
    &&& forall|j: int|
        0 <= j < names.len() && is_output_name(#[trigger] names[j]) ==> !precedes(
            names[k],
            names[j],
        )
    &&& forall|j: int| k < j < names.len() ==> #[trigger] names[j] != names[k]
}

/// Whether a file called `name` counts as a snapshot.
pub fn names_output(name: &Vec<char>) -> (b: bool)
    ensures
        b == is_output_name(name@),
{
    let prefix: Vec<char> = vec!['o', 'u', 't', 'p', 'u', 't', 's', '.'];
    let json: Vec<char> = vec!['j', 's', 'o', 'n'];
    assert(prefix@ =~= output_prefix());
    assert(json@ =~= output_extension());
    if name.len() < 8 {
        return false;
    }
    let mut start: Vec<char> = Vec::new();
    append_range(&mut start, name, 0, 8);
    assert(start@ =~= name@.take(8));
    if !text_equal(&start, &prefix) {
        return false;
    }
    // The place behind the last point.
    let mut behind: usize = 0;
    let mut i: usize = 0;
    assert(name@.take(0) =~= Seq::<char>::empty());
    while i < name.len()
        invariant
            i <= name.len(),
            behind == last_point(name@.take(i as int)) + 1,
            behind <= i,
        decreases name.len() - i,
    {
        assert(name@.take(i + 1).drop_last() =~= name@.take(i as int));
        assert(name@.take(i + 1).last() == name@[i as int]);
        if name[i] == '.' {
            behind = i + 1;
        }
        i += 1;
    }
    assert(name@.take(name.len() as int) =~= name@);
    let mut extension: Vec<char> = Vec::new();
    append_range(&mut extension, name, behind, name.len());
    assert(extension@ =~= name@.skip(behind as int));
    spells_word(&extension, &json)
}

/// The texts that the strings of `names` hold.
pub open spec fn name_texts(names: Seq<String>) -> Seq<Seq<char>> {
    Seq::new(names.len(), |i: int| names[i]@)
}

/// The place of the latest snapshot among the files called `names`, or
/// `None` where none of them is a snapshot.
pub fn latest_output(names: &Vec<String>) -> (found: Option<usize>)
    ensures
        found is None <==> forall|i: int|
            0 <= i < names.len() ==> !is_output_name(#[trigger] name_texts(names@)[i]),
        found matches Some(k) ==> is_latest(name_texts(names@), k as int),
{
    let mut found: Option<usize> = None;
    let mut latest: Vec<char> = Vec::new();
    let mut i: usize = 0;
    let ghost texts = name_texts(names@);
    while i < names.len()
        invariant
            i <= names.len(),
            texts == name_texts(names@),
            found is None <==> forall|j: int| 0 <= j < i ==> !is_output_name(#[trigger] texts[j]),
            found matches Some(k) ==> {
                &&& k < i
                &&& latest@ == texts[k as int]
                &&& is_latest(texts.take(i as int), k as int)
            },
        decreases names.len() - i,
    {
        let name = chars_of(names[i].as_str());
        assert(texts[i as int] == name@);
        let ghost shorter = texts.take(i as int);
        let ghost longer = texts.take(i + 1);
        if names_output(&name) {
            let later: bool = match found {
                None => true,
                Some(_) => !text_precedes(&name, &latest),
            };
            if later {
                proof {
                    lemma_precedes_total(name@, name@);
                    assert forall|j: int|
                        0 <= j < longer.len() && is_output_name(#[trigger] longer[j]) implies !precedes(
                        longer[i as int],
                        longer[j],
                    ) by {
                        if j < i {
                            assert(shorter[j] == longer[j]);
                            let k = found->0 as int;
                            assert(!precedes(shorter[k], shorter[j]));
                            lemma_precedes_total(name@, latest@);
                            if precedes(name@, longer[j]) {
                                if name@ != latest@ {
                                    lemma_precedes_transitive(latest@, name@, longer[j]);
                                }
                            }
                        }
                    }
                }
                found = Some(i);
                latest = name;
            } else {
                proof {
                    let k = found->0 as int;
                    lemma_precedes_total(name@, latest@);
                    assert forall|j: int|
                        0 <= j < longer.len() && is_output_name(#[trigger] longer[j]) implies !precedes(
                        longer[k],
                        longer[j],
                    ) by {
                        if j < i {
                            assert(shorter[j] == longer[j]);
                        }
                    }
                    assert forall|j: int| k < j < longer.len() implies #[trigger] longer[j]
                        != longer[k] by {
                        if j < i {
                            assert(shorter[j] == longer[j]);
                        }
                    }
                }
            }
        } else {
            proof {
                if found is Some {
                    let k = found->0 as int;
                    assert forall|j: int|
                        0 <= j < longer.len() && is_output_name(#[trigger] longer[j]) implies !precedes(
                        longer[k],
                        longer[j],
                    ) by {
                        if j < i {
                            assert(shorter[j] == longer[j]);
                        }
                    }
                    assert forall|j: int| k < j < longer.len() implies #[trigger] longer[j]
                        != longer[k] by {
                        if j < i {
                            assert(shorter[j] == longer[j]);
                        } else {
                            assert(is_output_name(shorter[k]));
                        }
                    }
                }
            }
        }
        i += 1;
    }
    assert(texts.take(names.len() as int) =~= texts);
    found
}

} // verus!
