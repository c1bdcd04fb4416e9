//! Strings as the store uses them: the byte order of keys, white space,
//! splitting, and numbers in decimal.

use vstd::prelude::*;
use vstd::utf8::{encode_scalar, encode_utf8, encode_utf8_decode_utf8};

verus! {

/// Whether `a` and `b` agree before `i` and `a` is the smaller one at `i`,
/// because it ends there or because its byte there is smaller.
pub open spec fn splits_at(a: Seq<u8>, b: Seq<u8>, i: int) -> bool {
    &&& 0 <= i <= a.len()
    &&& i < b.len()
    &&& forall|j: int| 0 <= j < i ==> a[j] == b[j]
    &&& i < a.len() ==> a[i] < b[i]
}

/// The lexicographic order of byte sequences.
pub open spec fn bytes_lt(a: Seq<u8>, b: Seq<u8>) -> bool {
    exists|i: int| splits_at(a, b, i)
}

/// The order of keys: that of their UTF-8 bytes.
pub open spec fn key_lt(a: Seq<char>, b: Seq<char>) -> bool {
    bytes_lt(encode_utf8(a), encode_utf8(b))
}

/// `key_lt` or equal.
pub open spec fn key_le(a: Seq<char>, b: Seq<char>) -> bool {
    a == b || key_lt(a, b)
}

/// No key is smaller than itself.
pub proof fn lemma_key_lt_irreflexive(a: Seq<char>)
    ensures
        !key_lt(a, a),
{
}

/// The order of keys is transitive.
pub proof fn lemma_key_lt_transitive(a: Seq<char>, b: Seq<char>, c: Seq<char>)
    requires
        key_lt(a, b),
        key_lt(b, c),
    ensures
        key_lt(a, c),
{
    let (x, y, z) = (encode_utf8(a), encode_utf8(b), encode_utf8(c));
    let i = choose|i: int| splits_at(x, y, i);
    let j = choose|j: int| splits_at(y, z, j);
    if i <= j {
        assert(splits_at(x, z, i));
    } else {
        assert(splits_at(x, z, j));
    }
}

/// Of two keys neither of which is smaller than itself by way of the other,
/// at most one is the smaller one.
pub proof fn lemma_key_lt_antisymmetric(a: Seq<char>, b: Seq<char>)
    requires
        key_lt(a, b),
    ensures
        !key_lt(b, a),
        a != b,
{
    if key_lt(b, a) {
        lemma_key_lt_transitive(a, b, a);
    }
}

/// Two byte sequences that agree before `i` are equal, or one is smaller.
proof fn lemma_bytes_compare(a: Seq<u8>, b: Seq<u8>, i: int)
    requires
        0 <= i <= a.len(),
        i <= b.len(),
        forall|j: int| 0 <= j < i ==> a[j] == b[j],
    ensures
        a == b || bytes_lt(a, b) || bytes_lt(b, a),
    decreases a.len() - i,
{
    if i == a.len() && i == b.len() {
        assert(a =~= b);
    } else if i == a.len() || (i < b.len() && a[i] < b[i]) {
        assert(splits_at(a, b, i));
    } else if i == b.len() || b[i] < a[i] {
        assert(splits_at(b, a, i));
    } else {
        lemma_bytes_compare(a, b, i + 1);
    }
}

/// Of two different keys one is smaller.
pub proof fn lemma_key_lt_total(a: Seq<char>, b: Seq<char>)
    ensures
        a == b || key_lt(a, b) || key_lt(b, a),
{
    lemma_bytes_compare(encode_utf8(a), encode_utf8(b), 0);
    if encode_utf8(a) == encode_utf8(b) {
        lemma_utf8_injective(a, b);
    }
}

/// A character of one byte that is smaller than another has a smaller first
/// byte.
proof fn lemma_first_byte(c: char, d: char)
    requires
        c < d,
        c < '\u{80}',
    ensures
        encode_scalar(c as u32).len() > 0,
        encode_scalar(d as u32).len() > 0,
        encode_scalar(c as u32)[0] < encode_scalar(d as u32)[0],
{
    let x = c as u32;
    let y = d as u32;
    assert((x & 0x7F) as u8 == x) by (bit_vector)
        requires
            x < 0x80,
    ;
    if y < 0x80 {
        assert((y & 0x7F) as u8 == y) by (bit_vector)
            requires
                y < 0x80,
        ;
    }
    assert(0xC0u8 | ((y >> 6) & 0x1F) as u8 >= 0xC0u8) by (bit_vector);
    assert(0xE0u8 | ((y >> 12) & 0x0F) as u8 >= 0xC0u8) by (bit_vector);
    assert(0xF0u8 | ((y >> 18) & 0x7) as u8 >= 0xC0u8) by (bit_vector);
}

/// Behind a common beginning, a smaller character of one byte makes a smaller
/// key.
pub proof fn lemma_key_lt_at(prefix: Seq<char>, a: Seq<char>, b: Seq<char>)
    requires
        a.len() > 0,
        b.len() > 0,
        a[0] < b[0],
        a[0] < '\u{80}',
    ensures
        key_lt(prefix + a, prefix + b),
    decreases prefix.len(),
{
    if prefix.len() == 0 {
        assert(prefix + a =~= a);
        assert(prefix + b =~= b);
        lemma_first_byte(a[0], b[0]);
        assert(splits_at(encode_utf8(a), encode_utf8(b), 0));
    } else {
        let rest = prefix.drop_first();
        lemma_key_lt_at(rest, a, b);
        let (x, y) = (prefix + a, prefix + b);
        assert(x.drop_first() =~= rest + a);
        assert(y.drop_first() =~= rest + b);
        assert(x[0] == prefix[0] && y[0] == prefix[0]);
        let head = encode_scalar(prefix[0] as u32);
        let i = choose|i: int| splits_at(encode_utf8(rest + a), encode_utf8(rest + b), i);
        assert(splits_at(encode_utf8(x), encode_utf8(y), head.len() + i));
    }
}

/// Equal bytes mean equal strings.
pub proof fn lemma_utf8_injective(a: Seq<char>, b: Seq<char>)
    requires
        encode_utf8(a) == encode_utf8(b),
    ensures
        a == b,
{
    encode_utf8_decode_utf8(a);
    encode_utf8_decode_utf8(b);
}

/// How one key stands to another.
#[derive(Clone, Copy, Debug, PartialEq, Eq, Structural)]
pub enum Side {
    Before,
    Same,
    After,
}

/// Compares two keys by their bytes.
pub fn compare_keys(a: &str, b: &str) -> (side: Side)
    ensures
        side is Before <==> key_lt(a@, b@),
        side is Same <==> a@ == b@,
        side is After <==> key_lt(b@, a@),
{
    let x = a.as_bytes();
    let y = b.as_bytes();
    let mut i: usize = 0;
    while i < x.len() && i < y.len() && x[i] == y[i]
        invariant
            i <= x@.len(),
            i <= y@.len(),
            forall|j: int| 0 <= j < i ==> x@[j] == y@[j],
        decreases x@.len() - i,
    {
        i = i + 1;
    }
    if i < y.len() && (i == x.len() || x[i] < y[i]) {
        proof {
            assert(splits_at(x@, y@, i as int));
            lemma_key_lt_antisymmetric(a@, b@);
        }
        Side::Before
    } else if i < x.len() {
        proof {
            assert(splits_at(y@, x@, i as int));
            lemma_key_lt_antisymmetric(b@, a@);
        }
        Side::After
    } else {
        proof {
            assert(x@ =~= y@);
            lemma_utf8_injective(a@, b@);
            lemma_key_lt_irreflexive(a@);
        }
        Side::Same
    }
}

/// Whether a character has the Unicode property White_Space.
pub open spec fn white_space(c: char) -> bool {
    ||| '\u{9}' <= c <= '\u{d}'
    ||| c == ' '
    ||| c == '\u{85}'
    ||| c == '\u{a0}'
    ||| c == '\u{1680}'
    ||| '\u{2000}' <= c <= '\u{200a}'
    ||| c == '\u{2028}'
    ||| c == '\u{2029}'
    ||| c == '\u{202f}'
    ||| c == '\u{205f}'
    ||| c == '\u{3000}'
}

/// `char::is_whitespace` of the standard library tells whether a character has
/// the property White_Space, which Unicode gives to twenty-five characters.
pub assume_specification[ char::is_whitespace ](c: char) -> (white: bool)
    ensures
        white == white_space(c),
;

/// Whether there is nothing but white space.
pub open spec fn blank(s: Seq<char>) -> bool {
    forall|i: int| 0 <= i < s.len() ==> white_space(#[trigger] s[i])
}

/// The text after the white space that it starts with.
pub open spec fn trimmed_start(s: Seq<char>) -> Seq<char>
    decreases s.len(),
{
    if s.len() > 0 && white_space(s[0]) {
        trimmed_start(s.skip(1))
    } else {
        s
    }
}

/// The text before the white space that it ends with.
pub open spec fn trimmed_end(s: Seq<char>) -> Seq<char>
    decreases s.len(),
{
    if s.len() > 0 && white_space(s.last()) {
        trimmed_end(s.drop_last())
    } else {
        s
    }
}

/// The text without the white space around it.
pub open spec fn trimmed(s: Seq<char>) -> Seq<char> {
    trimmed_end(trimmed_start(s))
}

/// The parts between the separators, in order; one more than there are
/// separators.
pub open spec fn split(s: Seq<char>, sep: char) -> Seq<Seq<char>>
    decreases s.len(),
{
    if s.len() == 0 {
        seq![Seq::empty()]
    } else {
        let parts = split(s.drop_last(), sep);
        if s.last() == sep {
            parts.push(Seq::empty())
        } else {
            parts.drop_last().push(parts.last().push(s.last()))
        }
    }
}

/// The characters of a text.
pub fn char_list(s: &str) -> (chars: Vec<char>)
    ensures
        chars@ == s@,
{
    let mut chars: Vec<char> = Vec::new();
    for c in it: s.chars()
        invariant
            it.seq() == s@,
            chars@ == s@.take(it.index()),
    {
        let ghost before = chars@;
        chars.push(c);
        assert(chars@ =~= s@.take(it.index() + 1));
    }
    assert(s@.take(s@.len() as int) =~= s@);
    chars
}

/// Whether there is nothing but white space in a text.
pub fn is_blank(s: &str) -> (yes: bool)
    ensures
        yes == blank(s@),
{
    let chars = char_list(s);
    let mut i: usize = 0;
    while i < chars.len()
        invariant
            i <= chars@.len(),
            chars@ == s@,
            forall|j: int| 0 <= j < i ==> white_space(#[trigger] s@[j]),
        decreases chars@.len() - i,
    {
        if !chars[i].is_whitespace() {
            assert(!white_space(s@[i as int]));
            return false;
        }
        i = i + 1;
    }
    true
}

/// The text without the white space around it.
pub fn trim(s: &str) -> (inner: &str)
    ensures
        inner@ == trimmed(s@),
{
    let chars = char_list(s);
    let n = chars.len();
    let mut from: usize = 0;
    assert(s@.skip(0) =~= s@);
    while from < n && chars[from].is_whitespace()
        invariant
            from <= n,
            n == chars@.len(),
            chars@ == s@,
            trimmed_start(s@) == trimmed_start(s@.skip(from as int)),
        decreases n - from,
    {
        assert(s@.skip(from as int).skip(1) =~= s@.skip(from + 1));
        from = from + 1;
    }
    let ghost rest = s@.skip(from as int);
    assert(trimmed_start(s@) == rest);
    let mut to: usize = n;
    assert(rest =~= s@.subrange(from as int, n as int));
    while to > from && chars[to - 1].is_whitespace()
        invariant
            from <= to <= n,
            n == chars@.len(),
            chars@ == s@,
            trimmed_end(rest) == trimmed_end(s@.subrange(from as int, to as int)),
        decreases to,
    {
        let ghost part = s@.subrange(from as int, to as int);
        assert(part.last() == s@[to - 1]);
        assert(part.drop_last() =~= s@.subrange(from as int, to - 1));
        to = to - 1;
    }
    let ghost part = s@.subrange(from as int, to as int);
    assert(part.len() > 0 ==> part.last() == s@[to - 1]);
    s.substring_char(from, to)
}

/// The views of a list of strings.
pub open spec fn texts(list: Seq<String>) -> Seq<Seq<char>> {
    list.map_values(|s: String| s@)
}

/// The parts of a text between separators.
pub fn split_on(s: &str, sep: char) -> (parts: Vec<String>)
    ensures
        texts(parts@) == split(s@, sep),
{
    let chars = char_list(s);
    let mut parts: Vec<String> = Vec::new();
    let mut from: usize = 0;
    let mut i: usize = 0;
    assert(s@.take(0) =~= Seq::empty());
    assert(texts(parts@).push(s@.subrange(0, 0)) =~= split(s@.take(0), sep));
    while i < chars.len()
        invariant
            from <= i <= chars@.len(),
            chars@ == s@,
            texts(parts@).push(s@.subrange(from as int, i as int)) == split(s@.take(i as int), sep),
        decreases chars@.len() - i,
    {
        let ghost before = parts@;
        let ghost part = s@.subrange(from as int, i as int);
        assert(s@.take(i + 1).drop_last() =~= s@.take(i as int));
        assert(texts(before).push(part).drop_last() =~= texts(before));
        if chars[i] == sep {
            parts.push(s.substring_char(from, i).to_string());
            from = i + 1;
            assert(texts(parts@) =~= texts(before).push(part));
            assert(s@.subrange(from as int, i + 1) =~= Seq::empty());
        } else {
            assert(s@.subrange(from as int, i + 1) =~= part.push(s@[i as int]));
        }
        i = i + 1;
    }
    assert(s@.take(s@.len() as int) =~= s@);
    let ghost before = parts@;
    parts.push(s.substring_char(from, i).to_string());
    assert(texts(parts@) =~= texts(before).push(s@.subrange(from as int, i as int)));
    parts
}

/// A digit as a character.
pub open spec fn digit(n: nat) -> char {
    (48 + n) as char
}

/// A number in decimal, without leading zeros.
pub open spec fn decimal(n: nat) -> Seq<char>
    decreases n,
{
    if n < 10 {
        seq![digit(n)]
    } else {
        decimal(n / 10).push(digit(n % 10))
    }
}

/// The number that a list of digits stands for.
pub open spec fn number(digits: Seq<char>) -> nat
    decreases digits.len(),
{
    if digits.len() == 0 {
        0
    } else {
        number(digits.drop_last()) * 10 + (digits.last() as nat - 48) as nat
    }
}

/// Whether there is nothing but digits.
pub open spec fn all_digits(s: Seq<char>) -> bool {
    forall|i: int| 0 <= i < s.len() ==> '0' <= #[trigger] s[i] <= '9'
}

/// A number in decimal stands for that number.
pub proof fn lemma_decimal(n: nat)
    ensures
        decimal(n).len() > 0,
        all_digits(decimal(n)),
        number(decimal(n)) == n,
    decreases n,
{
    let s = decimal(n);
    reveal_with_fuel(number, 2);
    if n < 10 {
        assert(s.drop_last() =~= Seq::empty());
    } else {
        lemma_decimal(n / 10);
        assert(s.drop_last() =~= decimal(n / 10));
    }
}

/// How many digits a text starts with.
pub open spec fn digit_run(s: Seq<char>) -> nat
    decreases s.len(),
{
    if s.len() > 0 && '0' <= s[0] <= '9' {
        1 + digit_run(s.skip(1))
    } else {
        0
    }
}

/// The number that the digits at the start of a text stand for.
pub open spec fn leading_number(s: Seq<char>) -> nat {
    number(s.take(digit_run(s) as int))
}

/// Digits up to a place where there is none, or the text ends, are the digits
/// that a text starts with.
pub proof fn lemma_digit_run(s: Seq<char>, n: int)
    requires
        0 <= n <= s.len(),
        all_digits(s.take(n)),
        n < s.len() ==> !('0' <= s[n] <= '9'),
    ensures
        digit_run(s) == n,
    decreases n,
{
    if n > 0 {
        assert(s.take(n)[0] == s[0]);
        let rest = s.skip(1);
        assert forall|i: int| 0 <= i < n - 1 implies '0' <= #[trigger] rest.take(n - 1)[i]
            <= '9' by {
            assert(rest.take(n - 1)[i] == s.take(n)[i + 1]);
        }
        lemma_digit_run(rest, n - 1);
    }
}

/// How many digits a list of characters starts with.
fn count_digits(chars: &Vec<char>) -> (n: usize)
    ensures
        n == digit_run(chars@),
        n <= chars@.len(),
        all_digits(chars@.take(n as int)),
{
    let mut n: usize = 0;
    while n < chars.len() && '0' <= chars[n] && chars[n] <= '9'
        invariant
            n <= chars@.len(),
            forall|i: int| 0 <= i < n ==> '0' <= #[trigger] chars@[i] <= '9',
        decreases chars@.len() - n,
    {
        n = n + 1;
    }
    proof {
        lemma_digit_run(chars@, n as int);
    }
    n
}

/// The digit at a place of a number that is written with `n` digits and padded
/// with zeros in front to `width`.
fn padded_digit(chars: &Vec<char>, n: usize, width: usize, i: usize) -> (d: u32)
    requires
        n <= chars@.len(),
        n <= width,
        i < width,
        all_digits(chars@.take(n as int)),
    ensures
        d < 10,
        number(chars@.take(padded_len(n as int, width as int, i + 1))) == number(
            chars@.take(padded_len(n as int, width as int, i as int)),
        ) * 10 + d,
{
    let pad = width - n;
    if i < pad {
        assert(number(chars@.take(0)) == 0);
        return 0;
    }
    let k = i - pad;
    assert(chars@.take(k + 1).drop_last() =~= chars@.take(k as int));
    assert(chars@.take(n as int)[k as int] == chars@[k as int]);
    chars[k] as u32 - 48
}

/// How many of the `n` digits of a number that is padded to `width` are among
/// the first `i`.
spec fn padded_len(n: int, width: int, i: int) -> int {
    if i < width - n {
        0
    } else {
        i - (width - n)
    }
}

/// Compares the numbers that two texts start with, however long they are.
pub fn compare_numbers(a: &str, b: &str) -> (side: Side)
    ensures
        side is Before <==> leading_number(a@) < leading_number(b@),
        side is Same <==> leading_number(a@) == leading_number(b@),
        side is After <==> leading_number(a@) > leading_number(b@),
{
    let x = char_list(a);
    let y = char_list(b);
    let m = count_digits(&x);
    let n = count_digits(&y);
    let width = if m < n {
        n
    } else {
        m
    };
    let mut side = Side::Same;
    let mut i: usize = 0;
    while i < width
        invariant
            i <= width,
            m <= x@.len(),
            n <= y@.len(),
            m <= width,
            n <= width,
            all_digits(x@.take(m as int)),
            all_digits(y@.take(n as int)),
            ({
                let p = number(x@.take(padded_len(m as int, width as int, i as int)));
                let q = number(y@.take(padded_len(n as int, width as int, i as int)));
                &&& side is Before <==> p < q
                &&& side is Same <==> p == q
                &&& side is After <==> p > q
            }),
        decreases width - i,
    {
        let d = padded_digit(&x, m, width, i);
        let e = padded_digit(&y, n, width, i);
        if side == Side::Same {
            if d < e {
                side = Side::Before;
            } else if d > e {
                side = Side::After;
            }
        }
        i = i + 1;
    }
    side
}

/// A digit as a text.
fn digit_text(n: u64) -> (s: &'static str)
    requires
        n < 10,
    ensures
        s@ == seq![digit(n as nat)],
{
    proof {
        reveal_strlit("0");
        reveal_strlit("1");
        reveal_strlit("2");
        reveal_strlit("3");
        reveal_strlit("4");
        reveal_strlit("5");
        reveal_strlit("6");
        reveal_strlit("7");
        reveal_strlit("8");
        reveal_strlit("9");
    }
    let s = match n {
        0 => "0",
        1 => "1",
        2 => "2",
        3 => "3",
        4 => "4",
        5 => "5",
        6 => "6",
        7 => "7",
        8 => "8",
        _ => "9",
    };
    assert(s@ =~= seq![digit(n as nat)]);
    s
}

/// Writes a number in decimal.
pub fn decimal_text(n: u64) -> (s: String)
    ensures
        s@ == decimal(n as nat),
    decreases n,
{
    if n < 10 {
        digit_text(n).to_string()
    } else {
        let mut s = decimal_text(n / 10);
        s.append(digit_text(n % 10));
        assert(s@ =~= decimal((n / 10) as nat).push(digit((n % 10) as nat)));
        s
    }
}

} // verus!

