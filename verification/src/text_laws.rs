//! What holds of the order of keys, of white space, of splitting and of numbers
//! in decimal.

use vstd::prelude::*;
use vstd::utf8::encode_utf8;

use crate::seqs::at_most;
use crate::str_map::{as_map, is_position, keys_increase, views, with_pair, StrMap};
use crate::text::{
    all_digits, blank, decimal, digit_run, key_le, key_lt, leading_number, lemma_decimal,
    lemma_digit_run, number, split, splits_at, texts, trimmed, trimmed_end, trimmed_start,
    white_space,
};

verus! {

/// A key is before another just if their UTF-8 bytes agree up to a place where
/// the first ends and the second does not, or has the smaller byte.
pub proof fn law_keys_go_by_their_bytes(a: Seq<char>, b: Seq<char>)
    ensures
        key_lt(a, b) <==> exists|i: int|
            {
                &&& 0 <= i <= encode_utf8(a).len()
                &&& i < encode_utf8(b).len()
                &&& #[trigger] encode_utf8(a).take(i) == encode_utf8(b).take(i)
                &&& i == encode_utf8(a).len() || encode_utf8(a)[i] < encode_utf8(b)[i]
            },
        key_le(a, b) <==> a == b || key_lt(a, b),
{
    let (x, y) = (encode_utf8(a), encode_utf8(b));
    if key_lt(a, b) {
        let i = choose|i: int| splits_at(x, y, i);
        assert(x.take(i) =~= y.take(i));
    }
    if exists|i: int|
        0 <= i <= x.len() && i < y.len() && #[trigger] x.take(i) == y.take(i) && (i == x.len()
            || x[i] < y[i]) {
        let i = choose|i: int|
            0 <= i <= x.len() && i < y.len() && #[trigger] x.take(i) == y.take(i) && (i == x.len()
                || x[i] < y[i]);
        assert forall|j: int| 0 <= j < i implies x[j] == y[j] by {
            assert(x.take(i)[j] == y.take(i)[j]);
        }
        assert(splits_at(x, y, i));
    }
}

/// A text is blank just if it has no character that is not white space.
pub proof fn law_blank_text_has_only_white_space(s: Seq<char>)
    ensures
        blank(s) <==> !exists|i: int| 0 <= i < s.len() && !white_space(#[trigger] s[i]),
{
}

/// Trimming takes off white space at the start, down to a character that is
/// none.
proof fn lemma_trimmed_start(s: Seq<char>)
    ensures
        s == s.take(s.len() - trimmed_start(s).len()) + trimmed_start(s),
        trimmed_start(s).len() <= s.len(),
        blank(s.take(s.len() - trimmed_start(s).len())),
        trimmed_start(s).len() > 0 ==> !white_space(trimmed_start(s)[0]),
    decreases s.len(),
{
    let t = trimmed_start(s);
    if s.len() > 0 && white_space(s[0]) {
        let rest = s.skip(1);
        lemma_trimmed_start(rest);
        let p = s.take(s.len() - t.len());
        let q = rest.take(rest.len() - t.len());
        assert forall|i: int| 0 <= i < p.len() implies white_space(#[trigger] p[i]) by {
            if i > 0 {
                assert(q[i - 1] == p[i]);
            }
        }
        assert(s =~= p + t) by {
            assert forall|i: int| 0 <= i < s.len() implies s[i] == (p + t)[i] by {
                if i >= p.len() {
                    assert(rest[i - 1] == (q + t)[i - 1]);
                }
            }
        }
    } else {
        assert(s =~= s.take(0) + s);
    }
}

/// Trimming takes off white space at the end, down to a character that is
/// none.
proof fn lemma_trimmed_end(s: Seq<char>)
    ensures
        trimmed_end(s).len() <= s.len(),
        s == trimmed_end(s) + s.skip(trimmed_end(s).len() as int),
        blank(s.skip(trimmed_end(s).len() as int)),
        trimmed_end(s).len() > 0 ==> !white_space(trimmed_end(s).last()),
        trimmed_end(s) == s.take(trimmed_end(s).len() as int),
    decreases s.len(),
{
    let t = trimmed_end(s);
    if s.len() > 0 && white_space(s.last()) {
        let rest = s.drop_last();
        lemma_trimmed_end(rest);
        let q = s.skip(t.len() as int);
        let r = rest.skip(t.len() as int);
        assert forall|i: int| 0 <= i < q.len() implies white_space(#[trigger] q[i]) by {
            if i < q.len() - 1 {
                assert(r[i] == q[i]);
            }
        }
        assert(rest.take(t.len() as int) =~= s.take(t.len() as int));
        assert(s =~= t + q);
    } else {
        assert(s =~= s + s.skip(s.len() as int));
        assert(s =~= s.take(s.len() as int));
    }
}

/// Trimming takes nothing but white space off both ends, and leaves none there:
/// what is trimmed off before and behind is blank, and what is left neither
/// starts nor ends with white space.
pub proof fn law_trimming_takes_off_white_space(s: Seq<char>)
    ensures
        exists|before: Seq<char>, behind: Seq<char>|
            {
                &&& #[trigger] (before + trimmed(s) + behind) == s
                &&& blank(before)
                &&& blank(behind)
            },
        trimmed(s).len() > 0 ==> !white_space(trimmed(s)[0]) && !white_space(trimmed(s).last()),
{
    let t = trimmed_start(s);
    lemma_trimmed_start(s);
    lemma_trimmed_end(t);
    let before = s.take(s.len() - t.len());
    let behind = t.skip(trimmed(s).len() as int);
    assert(before + trimmed(s) + behind =~= s);
}

/// Splitting undoes joining with the separator: a text without a separator is
/// one part, and the parts of two texts with a separator between them are
/// those of the first and then those of the second.
pub proof fn law_splitting_undoes_joining(a: Seq<char>, b: Seq<char>, sep: char)
    ensures
        !a.contains(sep) ==> split(a, sep) == seq![a],
        split(a + seq![sep] + b, sep) == split(a, sep) + split(b, sep),
        split(a, sep).len() > 0,
{
    lemma_split_len(a, sep);
    lemma_split_len(b, sep);
    if !a.contains(sep) {
        lemma_split_whole(a, sep);
    }
    lemma_split_joined(a, b, sep);
}

/// There is at least one part.
proof fn lemma_split_len(s: Seq<char>, sep: char)
    ensures
        split(s, sep).len() > 0,
    decreases s.len(),
{
    if s.len() > 0 {
        lemma_split_len(s.drop_last(), sep);
    }
}

/// A text without a separator is one part.
proof fn lemma_split_whole(s: Seq<char>, sep: char)
    requires
        !s.contains(sep),
    ensures
        split(s, sep) == seq![s],
    decreases s.len(),
{
    if s.len() > 0 {
        let init = s.drop_last();
        assert forall|i: int| 0 <= i < init.len() implies init[i] != sep by {
            assert(s[i] != sep);
        }
        lemma_split_whole(init, sep);
        assert(s[s.len() - 1] != sep);
        assert(init.push(s.last()) =~= s);
        assert(split(s, sep) =~= seq![s]);
    } else {
        assert(s =~= Seq::empty());
    }
}

/// A separator ends the parts of the first text and begins those of the second.
proof fn lemma_split_joined(a: Seq<char>, b: Seq<char>, sep: char)
    ensures
        split(a + seq![sep] + b, sep) == split(a, sep) + split(b, sep),
    decreases b.len(),
{
    let s = a + seq![sep] + b;
    lemma_split_len(a, sep);
    lemma_split_len(b, sep);
    if b.len() == 0 {
        assert(s.drop_last() =~= a);
        assert(s.last() == sep);
        assert(split(b, sep) =~= seq![Seq::<char>::empty()]);
        assert(split(s, sep) =~= split(a, sep) + split(b, sep));
    } else {
        let init = b.drop_last();
        lemma_split_joined(a, init, sep);
        lemma_split_len(init, sep);
        assert(s.drop_last() =~= a + seq![sep] + init);
        assert(s.last() == b.last());
        let parts = split(a, sep) + split(init, sep);
        assert(parts.last() == split(init, sep).last());
        assert(split(s, sep) =~= split(a, sep) + split(b, sep));
    }
}

/// A number is written with the digits of its value: one digit alone is itself,
/// and writing a digit behind a number makes it ten times as much and the digit
/// more. It never starts with a zero but where it is zero.
pub proof fn law_numbers_are_written_in_decimal(n: nat, d: nat)
    requires
        d < 10,
    ensures
        decimal(d) == seq![(48 + d) as char],
        n > 0 ==> decimal(10 * n + d) == decimal(n).push((48 + d) as char),
        n > 0 ==> decimal(n)[0] != '0',
        decimal(n).len() > 0,
    decreases n,
{
    lemma_decimal(n);
    if n > 0 {
        assert((10 * n + d) / 10 == n);
        assert((10 * n + d) % 10 == d);
        if n >= 10 {
            law_numbers_are_written_in_decimal(n / 10, 0);
            lemma_decimal(n / 10);
        } else {
            assert(decimal(n)[0] == (48 + n) as char);
        }
    }
}

/// The number that a text starts with is that of the digits before the first
/// character that is none, read from the left.
pub proof fn law_leading_digits_are_read(digits: Seq<char>, rest: Seq<char>, c: char)
    requires
        all_digits(digits),
        rest.len() > 0 ==> !('0' <= rest[0] <= '9'),
        '0' <= c <= '9',
    ensures
        digits.len() == 0 ==> leading_number(digits + rest) == 0,
        leading_number(digits.push(c) + rest) == 10 * leading_number(digits + rest) + (c as nat
            - 48),
        leading_number(digits + rest) == number(digits),
{
    lemma_leading(digits, rest);
    lemma_leading(digits.push(c), rest);
    assert(digits.push(c).drop_last() =~= digits);
}

/// Digits before a character that is none are the digits that a text starts with.
proof fn lemma_leading(digits: Seq<char>, rest: Seq<char>)
    requires
        all_digits(digits),
        rest.len() > 0 ==> !('0' <= rest[0] <= '9'),
    ensures
        leading_number(digits + rest) == number(digits),
        digit_run(digits + rest) == digits.len(),
{
    let s = digits + rest;
    let n = digits.len() as int;
    assert(s.take(n) =~= digits);
    if n < s.len() {
        assert(s[n] == rest[0]);
    }
    lemma_digit_run(s, n);
}

/// There is nothing but digits just if no character comes before the digit zero
/// or after the digit nine.
pub proof fn law_digits_are_zero_to_nine(s: Seq<char>)
    ensures
        all_digits(s) <==> !exists|i: int|
            0 <= i < s.len() && ('0' > #[trigger] s[i] || s[i] > '9'),
{
}

/// Strings are listed by their texts, in order.
pub proof fn law_texts_are_those_of_the_strings(list: Seq<String>, i: int)
    ensures
        texts(list).len() == list.len(),
        0 <= i < list.len() ==> texts(list)[i] == list[i]@,
{
}

/// At most so many elements are the first so many, or all.
pub proof fn law_at_most_is_a_beginning<T>(s: Seq<T>, limit: int, i: int)
    requires
        limit >= 0,
    ensures
        at_most(s, limit).len() <= limit,
        at_most(s, limit).len() <= s.len(),
        at_most(s, limit).len() == limit || at_most(s, limit).len() == s.len(),
        0 <= i < at_most(s, limit).len() ==> at_most(s, limit)[i] == s[i],
{
}

/// The map that pairs list has just the listed keys, each with the value beside
/// it; listed keys increase, so that each is listed once.
pub proof fn law_map_has_what_is_listed<V>(pairs: Seq<(Seq<char>, V)>, key: Seq<char>, value: V)
    requires
        keys_increase(pairs),
    ensures
        as_map(pairs).contains_key(key) && as_map(pairs)[key] == value <==> pairs.contains(
            (key, value),
        ),
        as_map(pairs).contains_key(key) <==> exists|i: int|
            0 <= i < pairs.len() && (#[trigger] pairs[i]).0 == key,
        forall|i: int, j: int| #![trigger pairs[i], pairs[j]]
            0 <= i < j < pairs.len() ==> key_lt(pairs[i].0, pairs[j].0) && pairs[i].0 != pairs[j].0,
{
    if as_map(pairs).contains_key(key) {
        let i = choose|i: int| 0 <= i < pairs.len() && #[trigger] pairs[i].0 == key;
        crate::str_map::lemma_as_map_at(pairs, i);
        if as_map(pairs)[key] == value {
            assert(pairs[i] == (key, value));
        }
    }
    if pairs.contains((key, value)) {
        let i = choose|i: int| 0 <= i < pairs.len() && pairs[i] == (key, value);
        crate::str_map::lemma_as_map_at(pairs, i);
    }
    assert forall|i: int, j: int| #![trigger pairs[i], pairs[j]]
        0 <= i < j < pairs.len() implies key_lt(pairs[i].0, pairs[j].0) && pairs[i].0
        != pairs[j].0 by {
        crate::text::lemma_key_lt_antisymmetric(pairs[i].0, pairs[j].0);
    }
}

/// Keys increase just if each is before all that are listed behind it.
pub proof fn law_increasing_keys<V>(pairs: Seq<(Seq<char>, V)>)
    ensures
        keys_increase(pairs) <==> forall|i: int, j: int| #![trigger pairs[i], pairs[j]]
            0 <= i < j < pairs.len() ==> key_lt(pairs[i].0, pairs[j].0),
{
}

/// A map holds the pairs that it lists. A key's position is the place of the
/// first listed key that is not before it, and setting the key there gives it
/// the value, in place of its old one where it is listed, and leaves all other
/// pairs in their order.
pub proof fn law_setting_a_key_keeps_the_rest<V>(
    m: StrMap<V>,
    pairs: Seq<(Seq<char>, V)>,
    at: int,
    key: Seq<char>,
    value: V,
)
    ensures
        m@ == as_map(m.pairs()),
        is_position(pairs, key, at) <==> {
            &&& 0 <= at <= pairs.len()
            &&& forall|i: int| 0 <= i < at ==> key_lt((#[trigger] pairs[i]).0, key)
            &&& forall|i: int|
                at <= i < pairs.len() ==> (#[trigger] pairs[i]).0 == key || key_lt(key, pairs[i].0)
        },
        0 <= at < pairs.len() && pairs[at].0 == key ==> with_pair(pairs, at, key, value)
            == pairs.take(at) + seq![(key, value)] + pairs.skip(at + 1),
        0 <= at <= pairs.len() && !(at < pairs.len() && pairs[at].0 == key) ==> with_pair(
            pairs,
            at,
            key,
            value,
        ) == pairs.take(at) + seq![(key, value)] + pairs.skip(at),
{
    if 0 <= at < pairs.len() && pairs[at].0 == key {
        assert(pairs.update(at, (key, value)) =~= pairs.take(at) + seq![(key, value)] + pairs.skip(
            at + 1,
        ));
    }
    if 0 <= at <= pairs.len() {
        assert(pairs.insert(at, (key, value)) =~= pairs.take(at) + seq![(key, value)] + pairs.skip(
            at,
        ));
    }
}

/// Pairs are seen in order, each with its key and what its value holds.
pub proof fn law_pairs_are_seen_as_they_are<V: View>(pairs: Seq<(Seq<char>, V)>, i: int)
    ensures
        views(pairs).len() == pairs.len(),
        0 <= i < pairs.len() ==> views(pairs)[i] == (pairs[i].0, pairs[i].1@),
{
}

} // verus!
