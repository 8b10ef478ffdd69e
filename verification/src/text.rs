//! Text: the comparisons, conversions and small grammars that the rest of the
//! crate states its rules with, over sequences of characters.
use vstd::prelude::*;

verus! {

/// `String::push` of the standard library: appends one character to the end
/// of the string and changes nothing else.
pub assume_specification[ String::push ](string: &mut String, c: char)
    ensures
        final(string)@ == old(string)@.push(c),
;

/// The characters of a string, in order.
pub fn chars_of(text: &str) -> (chars: Vec<char>)
    ensures
        chars@ == text@,
{
    let mut chars: Vec<char> = Vec::new();
    for c in it: text.chars()
        invariant
            it.seq() == text@,
            chars@ == text@.take(it.index()),
    {
        chars.push(c);
        assert(text@.take(it.index() + 1) =~= text@.take(it.index()).push(c));
    }
    assert(text@.take(text@.len() as int) =~= text@);
    chars
}

/// Strict order of texts: by the first position at which they differ, a
/// proper prefix before what it is a prefix of. Characters are ordered by code
/// point, which is also the order of their UTF-8 bytes.
pub open spec fn precedes(a: Seq<char>, b: Seq<char>) -> bool
    decreases a.len(),
{
    if b.len() == 0 {
        false
    } else if a.len() == 0 {
        true
    } else if a[0] != b[0] {
        (a[0] as int) < (b[0] as int)
    } else {
        precedes(a.drop_first(), b.drop_first())
    }
}

/// No text comes before itself.
pub proof fn lemma_precedes_irreflexive(a: Seq<char>)
    ensures
        !precedes(a, a),
    decreases a.len(),
{
    if a.len() > 0 {
        lemma_precedes_irreflexive(a.drop_first());
    }
}

/// The order of texts is transitive.
pub proof fn lemma_precedes_transitive(a: Seq<char>, b: Seq<char>, c: Seq<char>)
    requires
        precedes(a, b),
        precedes(b, c),
    ensures
        precedes(a, c),
    decreases a.len(),
{
    if a.len() > 0 && a[0] == b[0] && b[0] == c[0] {
        lemma_precedes_transitive(a.drop_first(), b.drop_first(), c.drop_first());
    }
}

/// Of two different texts one comes before the other.
pub proof fn lemma_precedes_total(a: Seq<char>, b: Seq<char>)
    ensures
        a == b || precedes(a, b) || precedes(b, a),
    decreases a.len(),
{
    if a.len() == 0 {
        if b.len() == 0 {
            assert(a =~= b);
        }
    } else if b.len() > 0 {
        if a[0] == b[0] {
            lemma_precedes_total(a.drop_first(), b.drop_first());
            if a.drop_first() == b.drop_first() {
                assert(a =~= seq![a[0]] + a.drop_first());
                assert(b =~= seq![b[0]] + b.drop_first());
            }
        }
    }
}

fn lower(a: char, b: char) -> (yes: bool)
    ensures
        yes == ((a as int) < (b as int)),
{
    (a as u32) < (b as u32)
}

/// Whether `a` comes strictly before `b`.
pub fn comes_before(a: &str, b: &str) -> (before: bool)
    ensures
        before == precedes(a@, b@),
{
    let left = chars_of(a);
    let right = chars_of(b);
    let mut i: usize = 0;
    assert(a@.skip(0) =~= a@);
    assert(b@.skip(0) =~= b@);
    while i < left.len() && i < right.len()
        invariant
            left@ == a@,
            right@ == b@,
            i <= left.len(),
            i <= right.len(),
            precedes(a@, b@) == precedes(a@.skip(i as int), b@.skip(i as int)),
        decreases left.len() - i,
    {
        let ghost x = a@.skip(i as int);
        let ghost y = b@.skip(i as int);
        assert(x[0] == left@[i as int] && y[0] == right@[i as int]);
        if left[i] != right[i] {
            return lower(left[i], right[i]);
        }
        assert(x.drop_first() =~= a@.skip(i + 1));
        assert(y.drop_first() =~= b@.skip(i + 1));
        i += 1;
    }
    i < right.len()
}

/// Unicode's `White_Space` property.
pub open spec fn is_white_space(c: char) -> bool {
    let u = c as int;
    ||| 0x9 <= u <= 0xd
    ||| u == 0x20
    ||| u == 0x85
    ||| u == 0xa0
    ||| u == 0x1680
    ||| 0x2000 <= u <= 0x200a
    ||| u == 0x2028
    ||| u == 0x2029
    ||| u == 0x202f
    ||| u == 0x205f
    ||| u == 0x3000
}

fn white_space(c: char) -> (yes: bool)
    ensures
        yes == is_white_space(c),
{
    let u: u32 = c as u32;
    (0x9 <= u && u <= 0xd) || u == 0x20 || u == 0x85 || u == 0xa0 || u == 0x1680 || (0x2000 <= u
        && u <= 0x200a) || u == 0x2028 || u == 0x2029 || u == 0x202f || u == 0x205f || u == 0x3000
}

/// A text without the white space at its two ends.
pub open spec fn trimmed(s: Seq<char>) -> Seq<char>
    decreases s.len(),
{
    if s.len() == 0 {
        s
    } else if is_white_space(s[0]) {
        trimmed(s.drop_first())
    } else if is_white_space(s.last()) {
        trimmed(s.drop_last())
    } else {
        s
    }
}

/// Removes the white space at both ends.
pub fn trim(text: &str) -> (inner: String)
    ensures
        inner@ == trimmed(text@),
{
    let chars = chars_of(text);
    let mut from: usize = 0;
    assert(text@.subrange(0, text@.len() as int) =~= text@);
    while from < chars.len() && white_space(chars[from])
        invariant
            chars@ == text@,
            from <= chars.len(),
            trimmed(text@) == trimmed(text@.subrange(from as int, chars.len() as int)),
        decreases chars.len() - from,
    {
        assert(text@.subrange(from as int, chars.len() as int).drop_first() =~= text@.subrange(
            from + 1,
            chars.len() as int,
        ));
        from += 1;
    }
    let mut to: usize = chars.len();
    while from < to && white_space(chars[to - 1])
        invariant
            chars@ == text@,
            from <= to <= chars.len(),
            from < to ==> !is_white_space(chars@[from as int]),
            trimmed(text@) == trimmed(text@.subrange(from as int, to as int)),
        decreases to,
    {
        let ghost part = text@.subrange(from as int, to as int);
        assert(part[0] == chars@[from as int]);
        assert(part.last() == chars@[to - 1]);
        assert(part.drop_last() =~= text@.subrange(from as int, to - 1));
        to -= 1;
    }
    proof {
        let part = text@.subrange(from as int, to as int);
        if from < to {
            assert(part[0] == chars@[from as int]);
            assert(part.last() == chars@[to - 1]);
        }
        assert(trimmed(part) == part);
    }
    text.substring_char(from, to).to_owned()
}

/// The pieces between the separators: one more than there are separators.
pub open spec fn pieces(s: Seq<char>, separator: char) -> Seq<Seq<char>>
    decreases s.len(),
{
    if s.len() == 0 {
        seq![Seq::<char>::empty()]
    } else {
        let before = pieces(s.drop_last(), separator);
        if s.last() == separator {
            before.push(Seq::empty())
        } else {
            before.drop_last().push(before.last().push(s.last()))
        }
    }
}

/// Splits at every separator.
pub fn split(text: &str, separator: char) -> (parts: Vec<String>)
    ensures
        parts@.map_values(|p: String| p@) == pieces(text@, separator),
{
    let chars = chars_of(text);
    let mut parts: Vec<String> = Vec::new();
    let mut current = String::new();
    let mut i: usize = 0;
    assert(text@.take(0).len() == 0);
    assert(parts@.map_values(|p: String| p@).push(current@) =~= pieces(text@.take(0), separator));
    while i < chars.len()
        invariant
            chars@ == text@,
            i <= chars.len(),
            parts@.map_values(|p: String| p@).push(current@) == pieces(
                text@.take(i as int),
                separator,
            ),
        decreases chars.len() - i,
    {
        let ghost done = parts@.map_values(|p: String| p@);
        assert(text@.take(i + 1).drop_last() =~= text@.take(i as int));
        assert(done.push(current@).drop_last() =~= done);
        if chars[i] == separator {
            parts.push(current);
            current = String::new();
            assert(parts@.map_values(|p: String| p@) =~= pieces(text@.take(i as int), separator));
        } else {
            current.push(chars[i]);
        }
        i += 1;
    }
    parts.push(current);
    assert(text@.take(text@.len() as int) =~= text@);
    assert(parts@.map_values(|p: String| p@) =~= pieces(text@, separator));
    parts
}

/// The character that writes a decimal digit.
pub open spec fn digit(d: int) -> char {
    (('0' as int) + d) as char
}

/// A natural number in decimal, without leading zeros.
pub open spec fn decimal(n: nat) -> Seq<char>
    decreases n,
{
    if n < 10 {
        seq![digit(n as int)]
    } else {
        decimal(n / 10).push(digit((n % 10) as int))
    }
}

fn digit_char(d: u8) -> (c: char)
    requires
        d < 10,
    ensures
        c == digit(d as int),
{
    (48 + d) as char
}

/// Writes a number in decimal.
pub fn decimal_text(n: u64) -> (text: String)
    ensures
        text@ == decimal(n as nat),
    decreases n,
{
    let mut text = if n < 10 {
        String::new()
    } else {
        decimal_text(n / 10)
    };
    text.push(digit_char((n % 10) as u8));
    text
}

/// An integer in decimal, with a minus sign before the negative ones.
pub open spec fn signed_decimal(n: int) -> Seq<char> {
    if n < 0 {
        seq!['-'] + decimal((-n) as nat)
    } else {
        decimal(n as nat)
    }
}

/// Writes a signed number in decimal.
pub fn signed_decimal_text(n: i64) -> (text: String)
    ensures
        text@ == signed_decimal(n as int),
{
    if n < 0 {
        let mut text = String::new();
        text.push('-');
        let magnitude: u64 = (-(n as i128)) as u64;
        text.append(decimal_text(magnitude).as_str());
        assert(text@ =~= signed_decimal(n as int));
        text
    } else {
        decimal_text(n as u64)
    }
}

pub open spec fn is_digit(c: char) -> bool {
    '0' <= c <= '9'
}

/// What a run of decimal digits stands for; nothing if there is none or if
/// anything else is among them.
pub open spec fn digits_value(s: Seq<char>) -> Option<int>
    decreases s.len(),
{
    if s.len() == 0 || !is_digit(s.last()) {
        None
    } else {
        let d = s.last() as int - '0' as int;
        if s.len() == 1 {
            Some(d)
        } else {
            match digits_value(s.drop_last()) {
                Some(v) => Some(10 * v + d),
                None => None,
            }
        }
    }
}

/// What a decimal number stands for: digits, after a plus sign or, where
/// signs are allowed, a minus sign, or after no sign.
pub open spec fn number_value(s: Seq<char>, signed: bool) -> Option<int> {
    if s.len() > 0 && s[0] == '+' {
        digits_value(s.drop_first())
    } else if signed && s.len() > 0 && s[0] == '-' {
        match digits_value(s.drop_first()) {
            Some(v) => Some(-v),
            None => None,
        }
    } else {
        digits_value(s)
    }
}

/// The number that a text stands for, if it lies in a range.
pub open spec fn number_within(s: Seq<char>, signed: bool, min: int, max: int) -> Option<int> {
    match number_value(s, signed) {
        Some(v) => if min <= v <= max {
            Some(v)
        } else {
            None
        },
        None => None,
    }
}

proof fn lemma_digits_prefix(s: Seq<char>, k: int)
    requires
        digits_value(s) is Some,
        1 <= k <= s.len(),
    ensures
        digits_value(s.take(k)) is Some,
        0 <= digits_value(s.take(k))->0 <= digits_value(s)->0,
    decreases s.len(),
{
    if k < s.len() {
        lemma_digits_prefix(s.drop_last(), k);
        assert(s.drop_last().take(k) =~= s.take(k));
    } else {
        assert(s.take(k) =~= s);
        if s.len() > 1 {
            lemma_digits_prefix(s.drop_last(), s.len() - 1);
            assert(s.drop_last().take(s.len() - 1) =~= s.drop_last());
        }
    }
}

/// The value of the digits from a position on, where it fits.
fn magnitude(chars: &Vec<char>, from: usize) -> (value: Option<u64>)
    requires
        from <= chars.len(),
    ensures
        match value {
            Some(v) => digits_value(chars@.skip(from as int)) == Some(v as int),
            None => match digits_value(chars@.skip(from as int)) {
                Some(v) => v > u64::MAX,
                None => true,
            },
        },
{
    let ghost all = chars@.skip(from as int);
    if from == chars.len() {
        return None;
    }
    let mut value: u64 = 0;
    let mut i: usize = from;
    while i < chars.len()
        invariant
            from <= i <= chars.len(),
            all == chars@.skip(from as int),
            i == from ==> value == 0,
            i > from ==> digits_value(all.take(i - from)) == Some(value as int),
        decreases chars.len() - i,
    {
        let c = chars[i];
        let ghost next = all.take(i - from + 1);
        assert(next.last() == c);
        assert(next.drop_last() =~= all.take(i - from));
        if !('0' <= c && c <= '9') {
            proof {
                if digits_value(all) is Some {
                    lemma_digits_prefix(all, i - from + 1);
                }
            }
            return None;
        }
        let d = digit_of(c);
        let wide: u128 = 10 * (value as u128) + (d as u128);
        assert(digits_value(next) == Some(wide as int));
        if wide > u64::MAX as u128 {
            proof {
                if digits_value(all) is Some {
                    lemma_digits_prefix(all, i - from + 1);
                }
            }
            return None;
        }
        value = wide as u64;
        i += 1;
    }
    assert(all.take(all.len() as int) =~= all);
    Some(value)
}

fn digit_of(c: char) -> (d: u64)
    requires
        is_digit(c),
    ensures
        d == c as int - '0' as int,
        d < 10,
{
    (c as u32 - 48) as u64
}

/// Reads an unsigned decimal number.
pub fn parse_u64(text: &str) -> (number: Option<u64>)
    ensures
        match number {
            Some(n) => number_within(text@, false, 0, u64::MAX as int) == Some(n as int),
            None => number_within(text@, false, 0, u64::MAX as int) is None,
        },
{
    let chars = chars_of(text);
    assert(text@.skip(0) =~= text@);
    if chars.len() > 0 && chars[0] == '+' {
        assert(text@.skip(1) =~= text@.drop_first());
        let n = magnitude(&chars, 1);
        proof {
            lemma_value_natural(text@.drop_first());
        }
        n
    } else {
        proof {
            lemma_value_natural(text@);
        }
        magnitude(&chars, 0)
    }
}

proof fn lemma_value_natural(s: Seq<char>)
    ensures
        digits_value(s) is Some ==> digits_value(s)->0 >= 0,
    decreases s.len(),
{
    if s.len() > 1 {
        lemma_value_natural(s.drop_last());
    }
}

/// Reads a signed decimal number.
pub fn parse_i64(text: &str) -> (number: Option<i64>)
    ensures
        match number {
            Some(n) => number_within(text@, true, i64::MIN as int, i64::MAX as int) == Some(
                n as int,
            ),
            None => number_within(text@, true, i64::MIN as int, i64::MAX as int) is None,
        },
{
    let chars = chars_of(text);
    assert(text@.skip(0) =~= text@);
    let negative = chars.len() > 0 && chars[0] == '-';
    let from: usize = if chars.len() > 0 && (chars[0] == '+' || chars[0] == '-') {
        1
    } else {
        0
    };
    proof {
        if from == 1 {
            assert(text@.skip(1) =~= text@.drop_first());
        }
        lemma_value_natural(text@.skip(from as int));
    }
    match magnitude(&chars, from) {
        None => None,
        Some(n) => {
            if negative {
                if n <= 0x8000_0000_0000_0000 {
                    Some((-(n as i128)) as i64)
                } else {
                    None
                }
            } else if n <= 0x7fff_ffff_ffff_ffff {
                Some(n as i64)
            } else {
                None
            }
        },
    }
}

/// The character that writes a hexadecimal digit, in lower case.
pub open spec fn hex_digit(n: int) -> char {
    if n < 10 {
        digit(n)
    } else {
        (('a' as int) + n - 10) as char
    }
}

/// Bytes in hexadecimal: two digits for each, the high one first.
pub open spec fn hex_chars(bytes: Seq<u8>) -> Seq<char> {
    Seq::new(
        2 * bytes.len(),
        |i: int|
            if i % 2 == 0 {
                hex_digit(bytes[i / 2] as int / 16)
            } else {
                hex_digit(bytes[i / 2] as int % 16)
            },
    )
}

fn hex_char(n: u8) -> (c: char)
    requires
        n < 16,
    ensures
        c == hex_digit(n as int),
{
    if n < 10 {
        digit_char(n)
    } else {
        (97 + (n - 10)) as char
    }
}

/// Writes bytes in hexadecimal.
pub fn hex(bytes: &[u8]) -> (text: String)
    ensures
        text@ == hex_chars(bytes@),
{
    let mut text = String::new();
    let mut i: usize = 0;
    while i < bytes.len()
        invariant
            i <= bytes.len(),
            text@.len() == 2 * i,
            forall|k: int| 0 <= k < 2 * i ==> text@[k] == #[trigger] hex_chars(bytes@)[k],
        decreases bytes.len() - i,
    {
        text.push(hex_char(bytes[i] / 16));
        text.push(hex_char(bytes[i] % 16));
        i += 1;
    }
    assert(text@ =~= hex_chars(bytes@));
    text
}

/// Different byte strings are written differently in hexadecimal.
pub proof fn lemma_hex_injective(a: Seq<u8>, b: Seq<u8>)
    requires
        hex_chars(a) == hex_chars(b),
    ensures
        a == b,
{
    assert(hex_chars(a).len() == 2 * a.len());
    assert(hex_chars(b).len() == 2 * b.len());
    assert forall|i: int| 0 <= i < a.len() implies a[i] == b[i] by {
        assert(hex_chars(a)[2 * i] == hex_digit(a[i] as int / 16));
        assert(hex_chars(b)[2 * i] == hex_digit(b[i] as int / 16));
        assert(hex_chars(a)[2 * i + 1] == hex_digit(a[i] as int % 16));
        assert(hex_chars(b)[2 * i + 1] == hex_digit(b[i] as int % 16));
        lemma_hex_digit_injective(a[i] as int / 16, b[i] as int / 16);
        lemma_hex_digit_injective(a[i] as int % 16, b[i] as int % 16);
    }
    assert(a =~= b);
}

proof fn lemma_hex_digit_injective(m: int, n: int)
    requires
        0 <= m < 16,
        0 <= n < 16,
        hex_digit(m) == hex_digit(n),
    ensures
        m == n,
{
}

/// The order of texts is the lexicographic one by code point: a text comes
/// before another exactly if it is a proper beginning of it, or if at the first
/// place where the two differ its character has the lower code point.
pub proof fn texts_are_ordered_by_code_point(a: Seq<char>, b: Seq<char>)
    ensures
        precedes(a, b) <==> {
            ||| a.len() < b.len() && a == b.take(a.len() as int)
            ||| exists|i: int|
                #![trigger a.take(i)]
                0 <= i < a.len() && i < b.len() && a.take(i) == b.take(i) && (a[i] as int) < (
                b[i] as int)
        },
    decreases a.len(),
{
    if a.len() == 0 {
        if b.len() > 0 {
            assert(a =~= b.take(0));
        }
    } else if b.len() > 0 {
        if a[0] != b[0] {
            assert(a.take(0) =~= b.take(0));
            if a.len() < b.len() && a == b.take(a.len() as int) {
                assert(b.take(a.len() as int)[0] == b[0]);
            }
            assert forall|i: int|
                #![trigger a.take(i)]
                0 <= i < a.len() && i < b.len() && a.take(i) == b.take(i) implies i == 0 by {
                if i > 0 {
                    assert(a.take(i)[0] == a[0]);
                    assert(b.take(i)[0] == b[0]);
                }
            }
        } else {
            let x = a.drop_first();
            let y = b.drop_first();
            texts_are_ordered_by_code_point(x, y);
            if precedes(x, y) {
                if x.len() < y.len() && x == y.take(x.len() as int) {
                    assert(a =~= b.take(a.len() as int)) by {
                        assert forall|k: int| 0 <= k < a.len() implies a[k] == b[k] by {
                            if k > 0 {
                                assert(x[k - 1] == y.take(x.len() as int)[k - 1]);
                            }
                        }
                    }
                } else {
                    let i = choose|i: int|
                        #![trigger x.take(i)]
                        0 <= i < x.len() && i < y.len() && x.take(i) == y.take(i) && (x[i] as int)
                            < (y[i] as int);
                    assert(a.take(i + 1) =~= seq![a[0]] + x.take(i));
                    assert(b.take(i + 1) =~= seq![b[0]] + y.take(i));
                }
            } else {
                if a.len() < b.len() && a == b.take(a.len() as int) {
                    assert(x =~= y.take(x.len() as int)) by {
                        assert forall|k: int| 0 <= k < x.len() implies x[k] == y[k] by {
                            assert(a[k + 1] == b.take(a.len() as int)[k + 1]);
                        }
                    }
                }
                assert forall|i: int|
                    #![trigger a.take(i)]
                    0 <= i < a.len() && i < b.len() && a.take(i) == b.take(i) implies !((
                a[i] as int) < (b[i] as int)) by {
                    if i > 0 {
                        assert(x.take(i - 1) =~= a.take(i).drop_first());
                        assert(y.take(i - 1) =~= b.take(i).drop_first());
                    }
                }
            }
        }
    }
}

/// White space is what Unicode says it is: these code points and no others.
pub proof fn white_space_is_that_of_unicode(c: char)
    ensures
        is_white_space(c) <==> seq![
            9int,
            10,
            11,
            12,
            13,
            32,
            133,
            160,
            5760,
            8192,
            8193,
            8194,
            8195,
            8196,
            8197,
            8198,
            8199,
            8200,
            8201,
            8202,
            8232,
            8233,
            8239,
            8287,
            12288,
        ].contains(c as int),
{
    let all = seq![
        9int,
        10,
        11,
        12,
        13,
        32,
        133,
        160,
        5760,
        8192,
        8193,
        8194,
        8195,
        8196,
        8197,
        8198,
        8199,
        8200,
        8201,
        8202,
        8232,
        8233,
        8239,
        8287,
        12288,
    ];
    let u = c as int;
    if is_white_space(c) {
        let k = if u <= 13 {
            u - 9
        } else if u == 32 {
            5
        } else if u == 133 {
            6
        } else if u == 160 {
            7
        } else if u == 5760 {
            8
        } else if u <= 8202 {
            u - 8183
        } else if u == 8232 {
            20
        } else if u == 8233 {
            21
        } else if u == 8239 {
            22
        } else if u == 8287 {
            23
        } else {
            24
        };
        assert(all[k] == u);
    }
    if all.contains(u) {
        let k = choose|k: int| 0 <= k < all.len() && all[k] == u;
        assert(all[k] == u);
    }
}

/// Whether a character is white space, as it is carried through a proof.
#[verifier::opaque]
spec fn blank(c: char) -> bool {
    is_white_space(c)
}

proof fn lemma_blank(c: char)
    ensures
        blank(c) == is_white_space(c),
{
    reveal(blank);
}

/// What is trimmed lies between two ends.
#[verifier::spinoff_prover]
#[verifier::rlimit(40)]
proof fn lemma_trimmed(s: Seq<char>) -> (ends: (int, int))
    ensures
        0 <= ends.0 <= ends.1 <= s.len(),
        trimmed(s) == s.subrange(ends.0, ends.1),
        forall|i: int| 0 <= i < ends.0 ==> blank(#[trigger] s[i]),
        forall|i: int| ends.1 <= i < s.len() ==> blank(#[trigger] s[i]),
        ends.0 < ends.1 ==> !blank(s[ends.0]) && !blank(s[ends.1 - 1]),
    decreases s.len(),
{
    if s.len() > 0 {
        lemma_blank(s[0]);
        lemma_blank(s.last());
    }
    if s.len() == 0 {
        assert(s =~= s.subrange(0, 0));
        (0, 0)
    } else if is_white_space(s[0]) {
        let t = s.drop_first();
        let (from, to) = lemma_trimmed(t);
        assert(trimmed(s) == trimmed(t));
        assert(t.subrange(from, to) =~= s.subrange(from + 1, to + 1));
        assert forall|i: int| 0 <= i < from + 1 implies blank(#[trigger] s[i]) by {
            if i > 0 {
                assert(t[i - 1] == s[i]);
            }
        }
        assert forall|i: int| to + 1 <= i < s.len() implies blank(#[trigger] s[i]) by {
            assert(t[i - 1] == s[i]);
        }
        if from < to {
            assert(t[from] == s[from + 1]);
            assert(t[to - 1] == s[to]);
        }
        (from + 1, to + 1)
    } else if is_white_space(s.last()) {
        let t = s.drop_last();
        let (from, to) = lemma_trimmed(t);
        assert(trimmed(s) == trimmed(t));
        assert(t.subrange(from, to) =~= s.subrange(from, to));
        assert forall|i: int| 0 <= i < from implies blank(#[trigger] s[i]) by {
            assert(t[i] == s[i]);
        }
        assert forall|i: int| to <= i < s.len() implies blank(#[trigger] s[i]) by {
            if i < t.len() {
                assert(t[i] == s[i]);
            } else {
                assert(s[i] == s.last());
            }
        }
        if from < to {
            assert(t[from] == s[from]);
            assert(t[to - 1] == s[to - 1]);
        }
        (from, to)
    } else {
        assert(s =~= s.subrange(0, s.len() as int));
        assert(s[s.len() - 1] == s.last());
        (0, s.len() as int)
    }
}

/// Trimming takes white space from the two ends until there is none, and
/// nothing else: what is left is a part of the text that neither begins nor ends
/// with white space, and everything around it is white space.
pub proof fn trimming_takes_the_white_space_at_the_ends(s: Seq<char>) -> (ends: (int, int))
    ensures
        0 <= ends.0 <= ends.1 <= s.len(),
        trimmed(s) == s.subrange(ends.0, ends.1),
        forall|i: int| 0 <= i < ends.0 ==> is_white_space(#[trigger] s[i]),
        forall|i: int| ends.1 <= i < s.len() ==> is_white_space(#[trigger] s[i]),
        ends.0 < ends.1 ==> !is_white_space(s[ends.0]) && !is_white_space(s[ends.1 - 1]),
{
    let ends = lemma_trimmed(s);
    assert forall|i: int| 0 <= i < ends.0 implies is_white_space(#[trigger] s[i]) by {
        lemma_blank(s[i]);
    }
    assert forall|i: int| ends.1 <= i < s.len() implies is_white_space(#[trigger] s[i]) by {
        lemma_blank(s[i]);
    }
    if ends.0 < ends.1 {
        lemma_blank(s[ends.0]);
        lemma_blank(s[ends.1 - 1]);
    }
    ends
}

/// Some texts with a separator between each two.
pub open spec fn joined(parts: Seq<Seq<char>>, separator: char) -> Seq<char>
    decreases parts.len(),
{
    if parts.len() == 0 {
        Seq::empty()
    } else if parts.len() == 1 {
        parts[0]
    } else {
        joined(parts.drop_last(), separator) + seq![separator] + parts.last()
    }
}

/// Splitting undoes joining: the pieces hold no separator, and joined by it
/// they are the text again.
pub proof fn pieces_join_to_the_text(s: Seq<char>, separator: char)
    ensures
        pieces(s, separator).len() > 0,
        joined(pieces(s, separator), separator) == s,
        forall|i: int|
            0 <= i < pieces(s, separator).len() ==> !(#[trigger] pieces(s, separator)[i]).contains(
                separator,
            ),
    decreases s.len(),
{
    let parts = pieces(s, separator);
    if s.len() == 0 {
        assert(joined(parts, separator) =~= s);
    } else {
        let before = pieces(s.drop_last(), separator);
        pieces_join_to_the_text(s.drop_last(), separator);
        assert(s =~= s.drop_last().push(s.last()));
        if s.last() == separator {
            assert(parts.drop_last() =~= before);
            assert(joined(parts, separator) =~= s);
        } else {
            let last = before.last().push(s.last());
            assert(parts.drop_last() =~= before.drop_last());
            assert(!before[before.len() - 1].contains(separator));
            assert(!last.contains(separator)) by {
                if last.contains(separator) {
                    let k = choose|k: int| 0 <= k < last.len() && last[k] == separator;
                    assert(before.last()[k] == separator);
                }
            }
            assert(joined(parts, separator) =~= s);
            assert forall|i: int| 0 <= i < parts.len() implies !(
            #[trigger] parts[i]).contains(separator) by {
                if i < parts.len() - 1 {
                    assert(parts[i] == before[i]);
                }
            }
        }
    }
}

/// A run of digits stands for a number by place value: the first of them counts
/// ten to the power of how many follow. Anything that is not a run of digits
/// stands for nothing.
pub proof fn digits_count_by_their_place(s: Seq<char>)
    ensures
        digits_value(s) is Some <==> s.len() > 0 && forall|i: int|
            0 <= i < s.len() ==> '0' as int <= (#[trigger] s[i]) as int <= '9' as int,
        digits_value(s) is Some && s.len() == 1 ==> digits_value(s)->0 == s[0] as int - '0' as int,
        digits_value(s) is Some && s.len() > 1 ==> digits_value(s.drop_first()) is Some
            && digits_value(s)->0 == (s[0] as int - '0' as int) * vstd::arithmetic::power::pow(
            10,
            (s.len() - 1) as nat,
        ) + digits_value(s.drop_first())->0,
    decreases s.len(),
{
    if s.len() == 1 {
        assert(s[0] == s.last());
    } else if s.len() > 1 {
        let init = s.drop_last();
        let d = s.last() as int - '0' as int;
        digits_count_by_their_place(init);
        if digits_value(s) is Some {
            assert forall|i: int| 0 <= i < s.len() implies '0' as int <= (
            #[trigger] s[i]) as int <= '9' as int by {
                if i < init.len() {
                    assert(init[i] == s[i]);
                }
            }
        }
        if forall|i: int|
            0 <= i < s.len() ==> '0' as int <= (#[trigger] s[i]) as int <= '9' as int {
            assert forall|i: int| 0 <= i < init.len() implies '0' as int <= (
            #[trigger] init[i]) as int <= '9' as int by {
                assert(init[i] == s[i]);
            }
            assert('0' as int <= s[s.len() - 1] as int <= '9' as int);
        }
        if digits_value(s) is Some {
            let tail = s.drop_first();
            let a = s[0] as int - '0' as int;
            let p = vstd::arithmetic::power::pow(10, (s.len() - 2) as nat);
            reveal(vstd::arithmetic::power::pow);
            assert(tail.last() == s.last());
            assert(init[0] == s[0]);
            if s.len() == 2 {
                assert(init.len() == 1);
                assert(p == 1);
                assert(vstd::arithmetic::power::pow(10, 1) == 10 * vstd::arithmetic::power::pow(
                    10,
                    0,
                ));
            } else {
                let middle = digits_value(init.drop_first())->0;
                assert(tail.drop_last() =~= init.drop_first());
                assert(vstd::arithmetic::power::pow(10, (s.len() - 1) as nat) == 10 * p);
                assert(digits_value(init)->0 == a * p + middle);
                assert(digits_value(tail) == Some(10 * middle + d));
                assert(10 * (a * p + middle) + d == a * (10 * p) + (10 * middle + d))
                    by (nonlinear_arith);
            }
        }
    }
}

/// A number that is written in decimal reads as that number, and is written
/// without leading zeros.
pub proof fn written_numbers_read_back(n: nat)
    ensures
        digits_value(decimal(n)) == Some(n as int),
        decimal(n).len() > 0,
        decimal(n).len() > 1 ==> decimal(n)[0] != '0',
    decreases n,
{
    if n >= 10 {
        written_numbers_read_back(n / 10);
        assert(decimal(n).drop_last() =~= decimal(n / 10));
        assert(decimal(n)[0] == decimal(n / 10)[0]);
        if n / 10 < 10 {
            assert(decimal(n / 10)[0] == digit((n / 10) as int));
        }
    }
}

/// An integer that is written in decimal reads as that integer.
pub proof fn written_integers_read_back(n: int)
    ensures
        number_within(signed_decimal(n), true, n, n) == Some(n),
        n >= 0 ==> number_within(decimal(n as nat), false, n, n) == Some(n),
{
    let size = if n < 0 {
        -n
    } else {
        n
    };
    written_numbers_read_back(size as nat);
    digits_count_by_their_place(decimal(size as nat));
    assert('0' as int <= decimal(size as nat)[0] as int <= '9' as int);
    if n < 0 {
        assert(signed_decimal(n).drop_first() =~= decimal(size as nat));
    }
}

/// A number is a run of digits, after a plus sign or none, and where signs are
/// allowed after a minus sign, which makes it negative. It counts if it lies in
/// the range that is asked for.
pub proof fn signed_digits_are_numbers(
    digits: Seq<char>,
    value: int,
    signed: bool,
    min: int,
    max: int,
)
    requires
        digits_value(digits) == Some(value),
    ensures
        number_within(digits, signed, min, max) == if min <= value <= max {
            Some(value)
        } else {
            None
        },
        number_within(seq!['+'] + digits, signed, min, max) == if min <= value <= max {
            Some(value)
        } else {
            None
        },
        number_within(seq!['-'] + digits, signed, min, max) == if signed && min <= -value <= max {
            Some(-value)
        } else {
            None
        },
{
    digits_count_by_their_place(digits);
    assert('0' as int <= digits[0] as int <= '9' as int);
    assert((seq!['+'] + digits).drop_first() =~= digits);
    let minus = seq!['-'] + digits;
    assert(minus.drop_first() =~= digits);
    digits_count_by_their_place(minus);
    assert(minus[0] == '-');
}

/// What is not a run of digits, with or without a sign before it, is no number.
pub proof fn other_texts_are_no_numbers(s: Seq<char>, signed: bool, min: int, max: int)
    requires
        number_within(s, signed, min, max) is Some,
    ensures
        s.len() > 0,
        s[0] == '+' || (signed && s[0] == '-') ==> s.len() > 1,
        s[0] == '+' || (signed && s[0] == '-') || '0' as int <= s[0] as int <= '9' as int,
        forall|i: int| 1 <= i < s.len() ==> '0' as int <= (#[trigger] s[i]) as int <= '9' as int,
{
    digits_count_by_their_place(s);
    if s.len() > 0 {
        let rest = s.drop_first();
        digits_count_by_their_place(rest);
        assert forall|i: int| 1 <= i < s.len() implies '0' as int <= (
        #[trigger] s[i]) as int <= '9' as int by {
            assert(rest[i - 1] == s[i]);
        }
    }
}

/// Each byte is written as two of the sixteen hexadecimal digits in lower case,
/// the one for its sixteens before the one for its ones.
pub proof fn bytes_are_written_digit_by_digit(bytes: Seq<u8>, i: int)
    requires
        0 <= i < bytes.len(),
    ensures
        hex_chars(bytes).len() == 2 * bytes.len(),
        ({
            let digits = seq![
                '0',
                '1',
                '2',
                '3',
                '4',
                '5',
                '6',
                '7',
                '8',
                '9',
                'a',
                'b',
                'c',
                'd',
                'e',
                'f',
            ];
            exists|high: int, low: int|
                0 <= high < 16 && 0 <= low < 16 && bytes[i] == 16 * high + low && hex_chars(
                    bytes,
                )[2 * i] == #[trigger] digits[high] && hex_chars(bytes)[2 * i + 1]
                    == #[trigger] digits[low]
        }),
{
    let digits = seq![
        '0',
        '1',
        '2',
        '3',
        '4',
        '5',
        '6',
        '7',
        '8',
        '9',
        'a',
        'b',
        'c',
        'd',
        'e',
        'f',
    ];
    let high = bytes[i] as int / 16;
    let low = bytes[i] as int % 16;
    assert(hex_digit(high) == digits[high]);
    assert(hex_digit(low) == digits[low]);
    assert(hex_chars(bytes)[2 * i] == hex_digit(high));
    assert(hex_chars(bytes)[2 * i + 1] == hex_digit(low));
}

} // verus!
