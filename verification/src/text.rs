//! Text as sequences of characters: reading a string character by character,
//! the dictionary order of identifiers, and decimal numerals.

use vstd::prelude::*;

verus! {

/// `String::push` of the standard library appends one character to the end of
/// the string and leaves the characters before it as they were.
pub assume_specification[ String::push ](s: &mut String, c: char)
    ensures
        final(s)@ == old(s)@.push(c),
;

/// The characters of `s`, in order.
pub fn chars_of(s: &str) -> (v: Vec<char>)
    ensures
        v@ == s@,
{
    let mut v: Vec<char> = Vec::new();
    for c in it: s.chars()
        invariant
            it.seq() == s@,
            v@ == it.seq().take(it.index() as int),
    {
        v.push(c);
        assert(v@ =~= it.seq().take(it.index() + 1));
    }
    assert(v@ =~= s@);
    v
}

/// Appends the characters `chars` to `out`.
pub fn push_chars(out: &mut String, chars: &Vec<char>)
    ensures
        final(out)@ == old(out)@ + chars@,
{
    let mut i: usize = 0;
    assert(out@ =~= old(out)@ + chars@.take(0));
    while i < chars.len()
        invariant
            i <= chars.len(),
            out@ == old(out)@ + chars@.take(i as int),
        decreases chars.len() - i,
    {
        out.push(chars[i]);
        assert(chars@.take(i + 1) =~= chars@.take(i as int).push(chars@[i as int]));
        assert(out@ =~= old(out)@ + chars@.take(i + 1));
        i += 1;
    }
    assert(chars@.take(chars.len() as int) =~= chars@);
}

/// A copy of `chars`.
pub fn copy_chars(chars: &Vec<char>) -> (copy: Vec<char>)
    ensures
        copy@ == chars@,
{
    let mut copy: Vec<char> = Vec::new();
    let mut i: usize = 0;
    while i < chars.len()
        invariant
            i <= chars.len(),
            copy@ == chars@.take(i as int),
        decreases chars.len() - i,
    {
        copy.push(chars[i]);
        assert(chars@.take(i + 1) =~= chars@.take(i as int).push(chars@[i as int]));
        i += 1;
    }
    assert(chars@.take(chars.len() as int) =~= chars@);
    copy
}

/// The string that holds exactly `chars`.
pub fn string_of(chars: &Vec<char>) -> (s: String)
    ensures
        s@ == chars@,
{
    let mut s = String::new();
    push_chars(&mut s, chars);
    assert(Seq::<char>::empty() + chars@ =~= chars@);
    s
}

/// Dictionary order: `a` comes strictly before `b` if `a` is a proper prefix
/// of `b`, or if at the first position where they differ the character of `a`
/// has the smaller code point.
pub open spec fn precedes(a: Seq<char>, b: Seq<char>) -> bool {
    exists|k: int| #[trigger] differ_at(a, b, k) && below_at(a, b, k)
}

/// `k` is the first position at which `a` and `b` differ: they agree before
/// it, and at `k` one of them has ended or they hold different characters.
pub open spec fn differ_at(a: Seq<char>, b: Seq<char>, k: int) -> bool {
    &&& 0 <= k <= a.len()
    &&& k <= b.len()
    &&& a.take(k) == b.take(k)
    &&& (k == a.len() || k == b.len() || a[k] != b[k])
}

/// At position `k`, `a` has ended and `b` has not, or `a` holds the smaller
/// character.
pub open spec fn below_at(a: Seq<char>, b: Seq<char>, k: int) -> bool {
    k < b.len() && (k == a.len() || (k < a.len() && (a[k] as int) < (b[k] as int)))
}

/// Two texts differ first at no more than one position.
pub proof fn lemma_differ_at_unique(a: Seq<char>, b: Seq<char>, j: int, k: int)
    requires
        differ_at(a, b, j),
        differ_at(a, b, k),
    ensures
        j == k,
{
    if j < k {
        assert(a.take(k)[j] == b.take(k)[j]);
    } else if k < j {
        assert(a.take(j)[k] == b.take(j)[k]);
    }
}

/// Where two texts differ first at `k`, their order is decided there.
pub proof fn lemma_precedes_at(a: Seq<char>, b: Seq<char>, k: int)
    requires
        differ_at(a, b, k),
    ensures
        precedes(a, b) == below_at(a, b, k),
        precedes(b, a) == below_at(b, a, k),
        a == b <==> (k == a.len() && k == b.len()),
{
    assert(b.take(k) == a.take(k));
    assert(differ_at(b, a, k));
    if precedes(a, b) {
        let j = choose|j: int| #[trigger] differ_at(a, b, j) && below_at(a, b, j);
        lemma_differ_at_unique(a, b, j, k);
    }
    if precedes(b, a) {
        let j = choose|j: int| #[trigger] differ_at(b, a, j) && below_at(b, a, j);
        lemma_differ_at_unique(b, a, j, k);
    }
    if k == a.len() && k == b.len() {
        assert(a.take(k) =~= a);
        assert(b.take(k) =~= b);
    }
}

/// The first position at which `a` and `b` differ, searched from `from` on.
pub open spec fn first_difference(a: Seq<char>, b: Seq<char>, from: int) -> int
    decreases a.len() - from,
{
    if 0 <= from < a.len() && from < b.len() && a[from] == b[from] {
        first_difference(a, b, from + 1)
    } else {
        from
    }
}

/// Any two texts have a first position at which they differ.
pub proof fn lemma_first_difference(a: Seq<char>, b: Seq<char>, from: int)
    requires
        0 <= from <= a.len(),
        from <= b.len(),
        a.take(from) == b.take(from),
    ensures
        differ_at(a, b, first_difference(a, b, from)),
    decreases a.len() - from,
{
    if from < a.len() && from < b.len() && a[from] == b[from] {
        assert(a.take(from + 1) =~= a.take(from).push(a[from]));
        assert(b.take(from + 1) =~= b.take(from).push(b[from]));
        lemma_first_difference(a, b, from + 1);
    }
}

/// No text comes before itself.
pub proof fn lemma_precedes_irreflexive(a: Seq<char>)
    ensures
        !precedes(a, a),
{
    assert(a.take(a.len() as int) =~= a);
    assert(differ_at(a, a, a.len() as int));
    lemma_precedes_at(a, a, a.len() as int);
}

/// Of two different texts exactly one comes before the other.
pub proof fn lemma_precedes_total(a: Seq<char>, b: Seq<char>)
    ensures
        a != b ==> (precedes(a, b) || precedes(b, a)),
        !(precedes(a, b) && precedes(b, a)),
        a == b ==> !precedes(a, b),
{
    assert(a.take(0) =~= b.take(0));
    lemma_first_difference(a, b, 0);
    lemma_precedes_at(a, b, first_difference(a, b, 0));
}

/// The dictionary order is transitive.
pub proof fn lemma_precedes_transitive(a: Seq<char>, b: Seq<char>, c: Seq<char>)
    requires
        precedes(a, b),
        precedes(b, c),
    ensures
        precedes(a, c),
{
    let j = choose|j: int| #[trigger] differ_at(a, b, j) && below_at(a, b, j);
    let k = choose|k: int| #[trigger] differ_at(b, c, k) && below_at(b, c, k);
    let m = if j <= k { j } else { k };
    assert(a.take(m) =~= a.take(j).take(m));
    assert(b.take(m) =~= b.take(j).take(m));
    assert(b.take(m) =~= b.take(k).take(m));
    assert(c.take(m) =~= c.take(k).take(m));
    assert(a.take(m) == c.take(m));
    if j < k {
        assert(b.take(k)[j] == c.take(k)[j]);
    } else if k < j {
        assert(a.take(j)[k] == b.take(j)[k]);
    }
    assert(differ_at(a, c, m));
    assert(below_at(a, c, m));
}

/// Whether `a` comes before `b` in dictionary order.
pub fn text_precedes(a: &Vec<char>, b: &Vec<char>) -> (r: bool)
    ensures
        r == precedes(a@, b@),
{
    let mut i: usize = 0;
    while i < a.len() && i < b.len()
        invariant
            i <= a.len(),
            i <= b.len(),
            a@.take(i as int) == b@.take(i as int),
        decreases a.len() - i,
    {
        if a[i] != b[i] {
            proof {
                lemma_precedes_at(a@, b@, i as int);
            }
            return a[i] < b[i];
        }
        assert(a@.take(i + 1) =~= a@.take(i as int).push(a@[i as int]));
        assert(b@.take(i + 1) =~= b@.take(i as int).push(b@[i as int]));
        i += 1;
    }
    proof {
        lemma_precedes_at(a@, b@, i as int);
    }
    i < b.len()
}

/// Whether `a` and `b` hold the same characters.
pub fn text_equal(a: &Vec<char>, b: &Vec<char>) -> (r: bool)
    ensures
        r == (a@ == b@),
{
    if a.len() != b.len() {
        return false;
    }
    let mut i: usize = 0;
    while i < a.len()
        invariant
            i <= a.len(),
            a.len() == b.len(),
            a@.take(i as int) == b@.take(i as int),
        decreases a.len() - i,
    {
        if a[i] != b[i] {
            return false;
        }
        assert(a@.take(i + 1) =~= a@.take(i as int).push(a@[i as int]));
        assert(b@.take(i + 1) =~= b@.take(i as int).push(b@[i as int]));
        i += 1;
    }
    assert(a@.take(a.len() as int) =~= a@);
    assert(b@.take(b.len() as int) =~= b@);
    true
}

/// The character that stands for the digit `d`.
pub open spec fn digit_char(d: int) -> char {
    (d + 48) as char
}

/// The decimal numeral of `n`, without leading zeros (`0` is written "0").
pub open spec fn decimal(n: nat) -> Seq<char>
    decreases n,
{
    if n < 10 {
        seq![digit_char(n as int)]
    } else {
        decimal(n / 10).push(digit_char((n % 10) as int))
    }
}

/// The character of the digit `d`.
pub(crate) fn digit_to_char(d: u8) -> (c: char)
    requires
        d < 10,
    ensures
        c == digit_char(d as int),
{
    if d == 0 {
        '0'
    } else if d == 1 {
        '1'
    } else if d == 2 {
        '2'
    } else if d == 3 {
        '3'
    } else if d == 4 {
        '4'
    } else if d == 5 {
        '5'
    } else if d == 6 {
        '6'
    } else if d == 7 {
        '7'
    } else if d == 8 {
        '8'
    } else {
        '9'
    }
}

/// The characters of the decimal numeral of `n`.
pub fn decimal_chars(n: u128) -> (v: Vec<char>)
    ensures
        v@ == decimal(n as nat),
{
    // Digits from the least significant one up.
    let mut low: Vec<char> = Vec::new();
    let mut m: u128 = n;
    let ghost mut tail: Seq<char> = Seq::empty();
    while m >= 10
        invariant
            decimal(n as nat) == decimal(m as nat) + tail,
            low@.len() == tail.len(),
            forall|i: int| 0 <= i < tail.len() ==> low@[i] == tail[tail.len() - 1 - i],
        decreases m,
    {
        let c = digit_to_char((m % 10) as u8);
        low.push(c);
        proof {
            let longer = seq![c] + tail;
            assert(decimal(m as nat) == decimal((m / 10) as nat).push(c));
            assert(decimal((m / 10) as nat).push(c) + tail =~= decimal((m / 10) as nat) + longer);
            tail = longer;
        }
        m = m / 10;
    }
    let mut v: Vec<char> = Vec::new();
    v.push(digit_to_char(m as u8));
    let mut i: usize = low.len();
    while i > 0
        invariant
            i <= low.len(),
            low@.len() == tail.len(),
            forall|k: int| 0 <= k < tail.len() ==> low@[k] == tail[tail.len() - 1 - k],
            v@ == decimal(m as nat) + tail.take(low.len() - i),
            m < 10,
        decreases i,
    {
        i -= 1;
        v.push(low[i]);
        assert(tail.take(low.len() - i) =~= tail.take(low.len() - i - 1).push(low@[i as int]));
    }
    assert(tail.take(low.len() as int) =~= tail);
    v
}

/// Appends the decimal numeral of `n` to `out`.
pub fn push_decimal(out: &mut String, n: u128)
    ensures
        final(out)@ == old(out)@ + decimal(n as nat),
{
    let digits = decimal_chars(n);
    push_chars(out, &digits);
}


/// Appends `src[from..to]` to `out`.
pub(crate) fn append_range(out: &mut Vec<char>, src: &Vec<char>, from: usize, to: usize)
    requires
        from <= to <= src.len(),
    ensures
        final(out)@ == old(out)@ + src@.subrange(from as int, to as int),
{
    let mut i: usize = from;
    assert(src@.subrange(from as int, from as int) =~= Seq::<char>::empty());
    assert(out@ =~= old(out)@ + src@.subrange(from as int, from as int));
    while i < to
        invariant
            from <= i <= to <= src.len(),
            out@ == old(out)@ + src@.subrange(from as int, i as int),
        decreases to - i,
    {
        out.push(src[i]);
        assert(src@.subrange(from as int, i + 1) =~= src@.subrange(from as int, i as int).push(
            src@[i as int],
        ));
        assert(out@ =~= old(out)@ + src@.subrange(from as int, i + 1));
        i += 1;
    }
}

/// The lowercase form of an ASCII capital letter; any other character itself.
pub open spec fn lowercase(c: char) -> char {
    if 'A' <= c && c <= 'Z' {
        ((c as int) + 32) as char
    } else {
        c
    }
}

/// Whether `s` is the lowercase word `word`, written in any mix of cases.
pub open spec fn spells(s: Seq<char>, word: Seq<char>) -> bool {
    s.len() == word.len() && forall|i: int| 0 <= i < s.len() ==> lowercase(s[i]) == word[i]
}

/// Whether `c`, brought to lowercase, is the lowercase letter `letter`.
pub(crate) fn is_letter(c: char, letter: char) -> (b: bool)
    requires
        'a' <= letter && letter <= 'z',
    ensures
        b == (lowercase(c) == letter),
{
    c == letter || (c >= 'A' && c <= 'Z' && c as u32 + 32 == letter as u32)
}

/// Whether `s` is the lowercase word `word` in any mix of cases.
pub(crate) fn spells_word(s: &Vec<char>, word: &Vec<char>) -> (b: bool)
    requires
        forall|i: int| 0 <= i < word.len() ==> 'a' <= #[trigger] word[i] && word[i] <= 'z',
    ensures
        b == spells(s@, word@),
{
    if s.len() != word.len() {
        return false;
    }
    let mut i: usize = 0;
    while i < s.len()
        invariant
            i <= s.len(),
            s.len() == word.len(),
            forall|k: int| 0 <= k < word.len() ==> 'a' <= #[trigger] word[k] && word[k] <= 'z',
            forall|k: int| 0 <= k < i ==> lowercase(s[k]) == word[k],
        decreases s.len() - i,
    {
        if !is_letter(s[i], word[i]) {
            return false;
        }
        i += 1;
    }
    true
}


/// What two texts have in common at their start does not decide their order:
/// behind the same prefix, two texts stand in the order in which they stand
/// alone.
pub proof fn lemma_precedes_behind_prefix(p: Seq<char>, u: Seq<char>, v: Seq<char>)
    ensures
        precedes(p + u, p + v) == precedes(u, v),
        (p + u == p + v) == (u == v),
{
    assert(u.take(0) =~= v.take(0));
    lemma_first_difference(u, v, 0);
    let k = first_difference(u, v, 0);
    let n = p.len() as int;
    assert((p + u).take(n + k) =~= p + u.take(k));
    assert((p + v).take(n + k) =~= p + v.take(k));
    assert(differ_at(p + u, p + v, n + k)) by {
        if k < u.len() && k < v.len() {
            assert((p + u)[n + k] == u[k]);
            assert((p + v)[n + k] == v[k]);
        }
    }
    lemma_precedes_at(u, v, k);
    lemma_precedes_at(p + u, p + v, n + k);
    if k < u.len() {
        assert((p + u)[n + k] == u[k]);
    }
    if k < v.len() {
        assert((p + v)[n + k] == v[k]);
    }
}

/// Two texts that each begin with a part of the same length stand in the
/// order of these parts, and where the parts are the same, in the order of
/// what follows them.
pub proof fn lemma_precedes_by_parts(u1: Seq<char>, u2: Seq<char>, v1: Seq<char>, v2: Seq<char>)
    requires
        u1.len() == v1.len(),
    ensures
        precedes(u1 + u2, v1 + v2) == (precedes(u1, v1) || (u1 == v1 && precedes(u2, v2))),
        (u1 + u2 == v1 + v2) == (u1 == v1 && u2 == v2),
{
    assert(u1.take(0) =~= v1.take(0));
    lemma_first_difference(u1, v1, 0);
    let k = first_difference(u1, v1, 0);
    lemma_precedes_at(u1, v1, k);
    if k == u1.len() {
        lemma_precedes_behind_prefix(u1, u2, v2);
        lemma_precedes_irreflexive(u1);
    } else {
        assert((u1 + u2).take(k) =~= u1.take(k));
        assert((v1 + v2).take(k) =~= v1.take(k));
        assert((u1 + u2)[k] == u1[k]);
        assert((v1 + v2)[k] == v1[k]);
        assert(differ_at(u1 + u2, v1 + v2, k));
        lemma_precedes_at(u1 + u2, v1 + v2, k);
    }
}

} // verus!
