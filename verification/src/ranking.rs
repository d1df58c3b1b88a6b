//! Texts in a fixed order: by a number attached to each text, the smaller
//! number first, and among texts with the same number in dictionary order.

use vstd::prelude::*;
use crate::text::{
    lemma_precedes_irreflexive, lemma_precedes_total, lemma_precedes_transitive, precedes,
    text_equal, text_precedes,
};

verus! {

/// Whether the text `a` with the number `a_key` comes before the text `b`
/// with the number `b_key`.
pub open spec fn ranks_before(a_key: nat, a: Seq<char>, b_key: nat, b: Seq<char>) -> bool {
    a_key < b_key || (a_key == b_key && precedes(a, b))
}

/// Whether the texts `s` stand in ascending order of the numbers that `key`
/// attaches to them, texts with the same number in dictionary order, and no
/// text twice.
pub open spec fn ascending(key: spec_fn(Seq<char>) -> nat, s: Seq<Seq<char>>) -> bool {
    forall|i: int, j: int|
        0 <= i < j < s.len() ==> ranks_before(key(s[i]), #[trigger] s[i], key(s[j]), #[trigger] s[j])
}

/// Nothing comes before itself; of two different texts, or two texts with
/// different numbers, exactly one comes before the other.
pub proof fn lemma_ranks_total(a_key: nat, a: Seq<char>, b_key: nat, b: Seq<char>)
    ensures
        !ranks_before(a_key, a, a_key, a),
        !(ranks_before(a_key, a, b_key, b) && ranks_before(b_key, b, a_key, a)),
        (a_key != b_key || a != b) ==> (ranks_before(a_key, a, b_key, b) || ranks_before(
            b_key,
            b,
            a_key,
            a,
        )),
{
    lemma_precedes_irreflexive(a);
    lemma_precedes_total(a, b);
}

/// The order is transitive.
pub proof fn lemma_ranks_transitive(
    a_key: nat,
    a: Seq<char>,
    b_key: nat,
    b: Seq<char>,
    c_key: nat,
    c: Seq<char>,
)
    requires
        ranks_before(a_key, a, b_key, b),
        ranks_before(b_key, b, c_key, c),
    ensures
        ranks_before(a_key, a, c_key, c),
{
    if a_key == b_key && b_key == c_key {
        lemma_precedes_transitive(a, b, c);
    }
}

/// There is only one way to put a set of texts in ascending order: two
/// ascending sequences that hold the same texts are the same sequence.
pub proof fn lemma_ascending_unique(
    key: spec_fn(Seq<char>) -> nat,
    s: Seq<Seq<char>>,
    t: Seq<Seq<char>>,
)
    requires
        ascending(key, s),
        ascending(key, t),
        forall|x: Seq<char>| s.contains(x) <==> t.contains(x),
    ensures
        s == t,
    decreases s.len(),
{
    if s.len() == 0 {
        if t.len() > 0 {
            assert(t.contains(t[0]));
        }
        assert(s =~= t);
    } else {
        assert(s.contains(s[0]));
        assert(t.contains(s[0]));
        assert(t.len() > 0);
        assert(t.contains(t[0]));
        assert(s.contains(t[0]));
        let k = choose|k: int| 0 <= k < t.len() && t[k] == s[0];
        let m = choose|m: int| 0 <= m < s.len() && s[m] == t[0];
        lemma_ranks_total(key(s[0]), s[0], key(t[0]), t[0]);
        if k > 0 && m > 0 {
            assert(ranks_before(key(t[0]), t[0], key(t[k]), t[k]));
            assert(ranks_before(key(s[0]), s[0], key(s[m]), s[m]));
        }
        if k > 0 && m == 0 {
            assert(ranks_before(key(t[0]), t[0], key(t[k]), t[k]));
        }
        assert(s[0] == t[0]);
        let s1 = s.drop_first();
        let t1 = t.drop_first();
        assert forall|i: int, j: int| 0 <= i < j < s1.len() implies ranks_before(
            key(s1[i]),
            #[trigger] s1[i],
            key(s1[j]),
            #[trigger] s1[j],
        ) by {
            assert(s1[i] == s[i + 1] && s1[j] == s[j + 1]);
        }
        assert forall|i: int, j: int| 0 <= i < j < t1.len() implies ranks_before(
            key(t1[i]),
            #[trigger] t1[i],
            key(t1[j]),
            #[trigger] t1[j],
        ) by {
            assert(t1[i] == t[i + 1] && t1[j] == t[j + 1]);
        }
        assert forall|x: Seq<char>| s1.contains(x) <==> t1.contains(x) by {
            lemma_ranks_total(key(x), x, key(x), x);
            if s1.contains(x) {
                let i = choose|i: int| 0 <= i < s1.len() && s1[i] == x;
                assert(s[i + 1] == x);
                assert(ranks_before(key(s[0]), s[0], key(s[i + 1]), s[i + 1]));
                assert(s.contains(x));
                assert(t.contains(x));
                let j = choose|j: int| 0 <= j < t.len() && t[j] == x;
                assert(j != 0);
                assert(t1[j - 1] == x);
            }
            if t1.contains(x) {
                let i = choose|i: int| 0 <= i < t1.len() && t1[i] == x;
                assert(t[i + 1] == x);
                assert(ranks_before(key(t[0]), t[0], key(t[i + 1]), t[i + 1]));
                assert(t.contains(x));
                assert(s.contains(x));
                let j = choose|j: int| 0 <= j < s.len() && s[j] == x;
                assert(j != 0);
                assert(s1[j - 1] == x);
            }
        }
        lemma_ascending_unique(key, s1, t1);
        assert(s =~= seq![s[0]] + s1);
        assert(t =~= seq![t[0]] + t1);
    }
}

/// A text can be put in its place in an ascending sequence: the result is
/// ascending again and holds the text besides what the sequence held.
pub proof fn lemma_insert_ascending(
    key: spec_fn(Seq<char>) -> nat,
    s: Seq<Seq<char>>,
    x: Seq<char>,
) -> (t: Seq<Seq<char>>)
    requires
        ascending(key, s),
    ensures
        ascending(key, t),
        forall|y: Seq<char>| t.contains(y) <==> (s.contains(y) || y == x),
    decreases s.len(),
{
    if s.len() == 0 {
        let t = seq![x];
        assert(t[0] == x);
        t
    } else if s[0] == x {
        assert(s.contains(x));
        s
    } else if ranks_before(key(x), x, key(s[0]), s[0]) {
        let t = seq![x] + s;
        assert forall|i: int, j: int| 0 <= i < j < t.len() implies ranks_before(
            key(t[i]),
            #[trigger] t[i],
            key(t[j]),
            #[trigger] t[j],
        ) by {
            if i == 0 {
                if j > 1 {
                    assert(ranks_before(key(s[0]), s[0], key(s[j - 1]), s[j - 1]));
                    lemma_ranks_transitive(key(x), x, key(s[0]), s[0], key(s[j - 1]), s[j - 1]);
                }
            } else {
                assert(ranks_before(key(s[i - 1]), s[i - 1], key(s[j - 1]), s[j - 1]));
            }
        }
        assert forall|y: Seq<char>| t.contains(y) <==> (s.contains(y) || y == x) by {
            if t.contains(y) {
                let i = choose|i: int| 0 <= i < t.len() && t[i] == y;
                if i > 0 {
                    assert(s[i - 1] == y);
                }
            }
            if s.contains(y) {
                let i = choose|i: int| 0 <= i < s.len() && s[i] == y;
                assert(t[i + 1] == y);
            }
            if y == x {
                assert(t[0] == y);
            }
        }
        t
    } else {
        let tail = s.drop_first();
        assert forall|i: int, j: int| 0 <= i < j < tail.len() implies ranks_before(
            key(tail[i]),
            #[trigger] tail[i],
            key(tail[j]),
            #[trigger] tail[j],
        ) by {
            assert(tail[i] == s[i + 1] && tail[j] == s[j + 1]);
        }
        let rest = lemma_insert_ascending(key, tail, x);
        let t = seq![s[0]] + rest;
        lemma_ranks_total(key(x), x, key(s[0]), s[0]);
        assert forall|i: int, j: int| 0 <= i < j < t.len() implies ranks_before(
            key(t[i]),
            #[trigger] t[i],
            key(t[j]),
            #[trigger] t[j],
        ) by {
            if i == 0 {
                let y = rest[j - 1];
                assert(rest.contains(y));
                if y != x {
                    let k = choose|k: int| 0 <= k < tail.len() && tail[k] == y;
                    assert(s[k + 1] == y);
                    assert(ranks_before(key(s[0]), s[0], key(s[k + 1]), s[k + 1]));
                }
            } else {
                assert(ranks_before(key(rest[i - 1]), rest[i - 1], key(rest[j - 1]), rest[j - 1]));
            }
        }
        assert forall|y: Seq<char>| t.contains(y) <==> (s.contains(y) || y == x) by {
            if t.contains(y) {
                let i = choose|i: int| 0 <= i < t.len() && t[i] == y;
                if i > 0 {
                    assert(rest[i - 1] == y);
                    assert(rest.contains(y));
                    if y != x {
                        let k = choose|k: int| 0 <= k < tail.len() && tail[k] == y;
                        assert(s[k + 1] == y);
                    }
                } else {
                    assert(s[0] == y);
                }
            }
            if s.contains(y) {
                let i = choose|i: int| 0 <= i < s.len() && s[i] == y;
                if i == 0 {
                    assert(t[0] == y);
                } else {
                    assert(tail[i - 1] == y);
                    assert(rest.contains(y));
                    let k = choose|k: int| 0 <= k < rest.len() && rest[k] == y;
                    assert(t[k + 1] == y);
                }
            }
            if y == x {
                assert(rest.contains(x));
                let k = choose|k: int| 0 <= k < rest.len() && rest[k] == x;
                assert(t[k + 1] == y);
            }
        }
        t
    }
}

/// Any texts can be put in ascending order: there is an ascending sequence
/// that holds exactly the texts of `texts`.
pub proof fn lemma_ascending_exists(key: spec_fn(Seq<char>) -> nat, texts: Seq<Seq<char>>) -> (t:
    Seq<Seq<char>>)
    ensures
        ascending(key, t),
        forall|y: Seq<char>| t.contains(y) <==> texts.contains(y),
    decreases texts.len(),
{
    if texts.len() == 0 {
        Seq::empty()
    } else {
        let fewer = lemma_ascending_exists(key, texts.drop_last());
        let t = lemma_insert_ascending(key, fewer, texts.last());
        assert forall|y: Seq<char>| t.contains(y) <==> texts.contains(y) by {
            if texts.contains(y) {
                let i = choose|i: int| 0 <= i < texts.len() && texts[i] == y;
                if i < texts.len() - 1 {
                    assert(texts.drop_last()[i] == y);
                    assert(texts.drop_last().contains(y));
                }
            }
            if texts.drop_last().contains(y) {
                let i = choose|i: int| 0 <= i < texts.drop_last().len() && texts.drop_last()[i] == y;
                assert(texts[i] == y);
            }
            if y == texts.last() {
                assert(texts[texts.len() - 1] == y);
            }
        }
        t
    }
}

/// A text with the number it is ranked by.
#[derive(Debug)]
pub struct Entry {
    /// The number.
    pub key: u128,
    /// The text.
    pub text: Vec<char>,
}

/// The texts of `entries`, in their order.
pub open spec fn entry_texts(entries: Seq<Entry>) -> Seq<Seq<char>> {
    Seq::new(entries.len(), |i: int| entries[i].text@)
}

/// Whether `entries` stand in ascending order, no entry twice.
pub open spec fn ranked(entries: Seq<Entry>) -> bool {
    forall|i: int, j: int|
        0 <= i < j < entries.len() ==> ranks_before(
            (#[trigger] entries[i]).key as nat,
            entries[i].text@,
            (#[trigger] entries[j]).key as nat,
            entries[j].text@,
        )
}

/// Whether `entries` holds the text `text` with the number `key`.
pub open spec fn holds(entries: Seq<Entry>, key: nat, text: Seq<char>) -> bool {
    exists|i: int|
        0 <= i < entries.len() && (#[trigger] entries[i]).key == key && entries[i].text@ == text
}

/// Whether the text `a` with the number `a_key` comes before the text `b`
/// with the number `b_key`.
pub fn comes_before(a_key: u128, a: &Vec<char>, b_key: u128, b: &Vec<char>) -> (r: bool)
    ensures
        r == ranks_before(a_key as nat, a@, b_key as nat, b@),
{
    a_key < b_key || (a_key == b_key && text_precedes(a, b))
}

/// Puts the text `text` with the number `key` in its place among `list`,
/// unless it is there already.
pub(crate) fn ordered_insert(list: &mut Vec<Entry>, key: u128, text: Vec<char>)
    requires
        ranked(old(list)@),
    ensures
        ranked(final(list)@),
        forall|k: nat, t: Seq<char>|
            holds(final(list)@, k, t) <==> (holds(old(list)@, k, t) || (k == key && t == text@)),
        final(list)@.len() == old(list)@.len() + if holds(old(list)@, key as nat, text@) {
            0int
        } else {
            1int
        },
{
    let mut p: usize = 0;
    while p < list.len() && comes_before(list[p].key, &list[p].text, key, &text)
        invariant
            p <= list.len(),
            list@ == old(list)@,
            forall|i: int|
                0 <= i < p ==> ranks_before(
                    (#[trigger] list@[i]).key as nat,
                    list@[i].text@,
                    key as nat,
                    text@,
                ),
        decreases list.len() - p,
    {
        p += 1;
    }
    let ghost before = list@;
    proof {
        assert forall|i: int| 0 <= i < p implies !((#[trigger] before[i]).key == key
            && before[i].text@ == text@) by {
            lemma_ranks_total(key as nat, text@, key as nat, text@);
        }
    }
    if p < list.len() && list[p].key == key && text_equal(&list[p].text, &text) {
        proof {
            assert(holds(before, key as nat, text@));
        }
        return ;
    }
    proof {
        if p < before.len() {
            lemma_ranks_total(before[p as int].key as nat, before[p as int].text@, key as nat, text@);
        }
        assert forall|j: int| p <= j < before.len() implies ranks_before(
            key as nat,
            text@,
            (#[trigger] before[j]).key as nat,
            before[j].text@,
        ) by {
            if j > p {
                lemma_ranks_transitive(
                    key as nat,
                    text@,
                    before[p as int].key as nat,
                    before[p as int].text@,
                    before[j].key as nat,
                    before[j].text@,
                );
            }
        }
        assert(!holds(before, key as nat, text@)) by {
            if holds(before, key as nat, text@) {
                let i = choose|i: int|
                    0 <= i < before.len() && (#[trigger] before[i]).key == key && before[i].text@
                        == text@;
                lemma_ranks_total(key as nat, text@, key as nat, text@);
                assert(ranks_before(key as nat, text@, before[i].key as nat, before[i].text@)
                    || ranks_before(before[i].key as nat, before[i].text@, key as nat, text@));
            }
        }
    }
    let entry = Entry { key, text };
    list.insert(p, entry);
    proof {
        let after = list@;
        assert(after.len() == before.len() + 1);
        assert forall|i: int| 0 <= i < after.len() implies #[trigger] after[i] == (if i < p {
            before[i]
        } else if i == p {
            entry
        } else {
            before[i - 1]
        }) by {}
        assert forall|i: int, j: int| 0 <= i < j < after.len() implies ranks_before(
            (#[trigger] after[i]).key as nat,
            after[i].text@,
            (#[trigger] after[j]).key as nat,
            after[j].text@,
        ) by {
            if i < p && j > p {
                assert(ranks_before(
                    before[i].key as nat,
                    before[i].text@,
                    before[j - 1].key as nat,
                    before[j - 1].text@,
                ));
            } else if i > p {
                assert(ranks_before(
                    before[i - 1].key as nat,
                    before[i - 1].text@,
                    before[j - 1].key as nat,
                    before[j - 1].text@,
                ));
            } else if i < p && j < p {
                assert(ranks_before(
                    before[i].key as nat,
                    before[i].text@,
                    before[j].key as nat,
                    before[j].text@,
                ));
            } else if i < p && j == p {
                assert(ranks_before(before[i].key as nat, before[i].text@, key as nat, text@));
            } else {
                assert(i == p && j > p);
                assert(ranks_before(
                    key as nat,
                    text@,
                    before[j - 1].key as nat,
                    before[j - 1].text@,
                ));
            }
        }
        assert forall|k: nat, t: Seq<char>|
            holds(after, k, t) <==> (holds(before, k, t) || (k == key && t == text@)) by {
            if holds(after, k, t) {
                let i = choose|i: int|
                    0 <= i < after.len() && (#[trigger] after[i]).key == k && after[i].text@ == t;
                if i < p {
                    assert(before[i].key == k && before[i].text@ == t);
                } else if i > p {
                    assert(before[i - 1].key == k && before[i - 1].text@ == t);
                }
            }
            if holds(before, k, t) {
                let i = choose|i: int|
                    0 <= i < before.len() && (#[trigger] before[i]).key == k && before[i].text@
                        == t;
                if i < p {
                    assert(after[i].key == k && after[i].text@ == t);
                } else {
                    assert(after[i + 1].key == k && after[i + 1].text@ == t);
                }
            }
            if k == key && t == text@ {
                assert(after[p as int].key == k && after[p as int].text@ == t);
            }
        }
    }
}

} // verus!
