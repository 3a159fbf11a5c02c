//! A minimal reader for the fields of one JSON object in a line of text.
//!
//! A field is looked up by the first place where its name stands in double
//! quotes; no account is taken of nesting.
use crate::text::{
    chars_of, find, find_text, index_of, is_digit, leading, leading_run, lemma_find,
    lemma_find_is, lemma_leading, lemma_leading_is, occurs_at, place_of, skip, string_of, take, trim_start, trimmed_start, CharClass,
};
use vstd::prelude::*;

verus! {

/// The name of a field, in double quotes.
pub open spec fn quoted(key: Seq<char>) -> Seq<char> {
    seq!['"'] + key + seq!['"']
}

/// The text from the value of the field on: what follows the first colon behind
/// the first place where the quoted name stands, without white space in front.
pub open spec fn value_text(json: Seq<char>, key: Seq<char>) -> Option<Seq<char>> {
    match find(json, quoted(key)) {
        Some(at) => {
            let behind = json.skip((at + quoted(key).len()) as int);
            match index_of(behind, ':') {
                Some(colon) => Some(trim_start(behind.skip(colon as int + 1), CharClass::White)),
                None => None,
            }
        },
        None => None,
    }
}

/// The character that a backslash and `c` stand for.
pub open spec fn unescaped(c: char) -> char {
    if c == 'n' {
        '\n'
    } else if c == 't' {
        '\t'
    } else if c == 'r' {
        '\r'
    } else {
        c
    }
}

/// The text with `c` in front, where there is one.
pub open spec fn prefixed(c: char, s: Option<Seq<char>>) -> Option<Seq<char>> {
    match s {
        Some(t) => Some(seq![c] + t),
        None => None,
    }
}

/// The string that `s` holds up to its first double quote that no backslash
/// stands before, with the escapes resolved.
pub open spec fn string_body(s: Seq<char>) -> Option<Seq<char>>
    decreases s.len(),
{
    if s.len() == 0 {
        None
    } else if s[0] == '"' {
        Some(seq![])
    } else if s[0] != '\\' {
        prefixed(s[0], string_body(s.skip(1)))
    } else if s.len() == 1 {
        None
    } else {
        prefixed(unescaped(s[1]), string_body(s.skip(2)))
    }
}

/// The value of a field that holds a string.
pub open spec fn str_field(json: Seq<char>, key: Seq<char>) -> Option<Seq<char>> {
    match value_text(json, key) {
        Some(value) => if value.len() > 0 && value[0] == '"' {
            string_body(value.skip(1))
        } else {
            None
        },
        None => None,
    }
}

/// The value of a field that holds a string, or the empty text.
pub open spec fn str_field_or_empty(json: Seq<char>, key: Seq<char>) -> Seq<char> {
    match str_field(json, key) {
        Some(value) => value,
        None => seq![],
    }
}

/// The number that a text of decimal digits stands for.
pub open spec fn digits_value(s: Seq<char>) -> nat
    decreases s.len(),
{
    if s.len() == 0 {
        0
    } else {
        digits_value(s.drop_last()) * 10 + (s.last() as nat - '0' as nat) as nat
    }
}

/// Whether the text is made of decimal digits, with at least one.
pub open spec fn is_digits(s: Seq<char>) -> bool {
    s.len() > 0 && forall|i: int| 0 <= i < s.len() ==> is_digit(#[trigger] s[i])
}

/// The integer that a text stands for: decimal digits, with a minus sign in
/// front for a negative one, within the bounds of `i64`.
pub open spec fn integer(s: Seq<char>) -> Option<i64> {
    let negative = s.len() > 0 && s[0] == '-';
    let digits = if negative {
        s.skip(1)
    } else {
        s
    };
    let value = if negative {
        -digits_value(digits)
    } else {
        digits_value(digits) as int
    };
    if is_digits(digits) && i64::MIN <= value <= i64::MAX {
        Some(value as i64)
    } else {
        None
    }
}

/// The value of a field that holds an integer: its longest run of digits and
/// minus signs, read as an integer.
pub open spec fn int_field(json: Seq<char>, key: Seq<char>) -> Option<i64> {
    match value_text(json, key) {
        Some(value) => integer(value.take(leading(value, CharClass::Numeric) as int)),
        None => None,
    }
}

/// The length of the shortest prefix of `s` that closes `depth` open braces.
pub open spec fn closing(s: Seq<char>, depth: nat) -> Option<nat>
    decreases s.len(),
{
    if s.len() == 0 {
        None
    } else if s[0] == '}' && depth <= 1 {
        Some(1)
    } else {
        let inner = if s[0] == '{' {
            depth + 1
        } else if s[0] == '}' {
            (depth - 1) as nat
        } else {
            depth
        };
        match closing(s.skip(1), inner) {
            Some(n) => Some(n + 1),
            None => None,
        }
    }
}

/// The text of a field that holds an object, from its opening brace to the one
/// that closes it.
pub open spec fn object_field(json: Seq<char>, key: Seq<char>) -> Option<Seq<char>> {
    match value_text(json, key) {
        Some(value) => if value.len() > 0 && value[0] == '{' {
            match closing(value, 0) {
                Some(n) => Some(value.take(n as int)),
                None => None,
            }
        } else {
            None
        },
        None => None,
    }
}

/// The name of a field, in double quotes.
fn quoted_name(key: &str) -> (out: Vec<char>)
    ensures
        out@ == quoted(key@),
{
    let name: Vec<char> = chars_of(key);
    let mut out: Vec<char> = Vec::new();
    out.push('"');
    let mut i: usize = 0;
    while i < name.len()
        invariant
            i <= name@.len(),
            out@ == seq!['"'] + name@.take(i as int),
        decreases name@.len() - i,
    {
        out.push(name[i]);
        i += 1;
        assert(out@ =~= seq!['"'] + name@.take(i as int));
    }
    out.push('"');
    assert(out@ =~= quoted(key@));
    out
}

/// The text from the value of the field on.
fn value_of<'a>(json: &'a [char], key: &str) -> (value: Option<&'a [char]>)
    ensures
        match value {
            Some(v) => value_text(json@, key@) == Some(v@),
            None => value_text(json@, key@) is None,
        },
{
    let name: Vec<char> = quoted_name(key);
    match find_text(json, name.as_slice()) {
        Some(at) => {
            assert(at + name.len() <= json.len());
            let behind: &[char] = skip(json, at + name.len());
            match place_of(behind, ':') {
                Some(colon) => Some(trimmed_start(skip(behind, colon + 1), CharClass::White)),
                None => None,
            }
        },
        None => None,
    }
}

/// The string that `s` holds up to its first double quote that no backslash
/// stands before, with the escapes resolved.
fn string_in(s: &[char]) -> (out: Option<String>)
    ensures
        match out {
            Some(t) => string_body(s@) == Some(t@),
            None => string_body(s@) is None,
        },
{
    let mut out: String = String::new();
    let mut i: usize = 0;
    let len: usize = s.len();
    assert(s@.skip(0) =~= s@);
    assert(extended(out@, string_body(s@)) == string_body(s@)) by {
        if let Some(t) = string_body(s@) {
            assert(out@ + t =~= t);
        }
    }
    while i < len
        invariant
            i <= len == s@.len(),
            string_body(s@) == extended(out@, string_body(s@.skip(i as int))),
        decreases len - i,
    {
        let ghost rest = s@.skip(i as int);
        let ghost before = out@;
        let c: char = s[i];
        assert(rest[0] == c);
        if c == '"' {
            assert(before + seq![] =~= before);
            return Some(out);
        }
        if c == '\\' {
            if i + 1 >= len {
                return None;
            }
            let e: char = s[i + 1];
            let u: char = if e == 'n' {
                '\n'
            } else if e == 't' {
                '\t'
            } else if e == 'r' {
                '\r'
            } else {
                e
            };
            out.push(u);
            assert(rest[1] == e);
            assert(rest.skip(2) =~= s@.skip(i + 2));
            proof {
                lemma_extended(before, u, string_body(s@.skip(i + 2)));
            }
            i += 2;
        } else {
            out.push(c);
            assert(rest.skip(1) =~= s@.skip(i + 1));
            proof {
                lemma_extended(before, c, string_body(s@.skip(i + 1)));
            }
            i += 1;
        }
    }
    None
}

/// The text with `front` in front, where there is one.
spec fn extended(front: Seq<char>, s: Option<Seq<char>>) -> Option<Seq<char>> {
    match s {
        Some(t) => Some(front + t),
        None => None,
    }
}

proof fn lemma_extended(front: Seq<char>, c: char, s: Option<Seq<char>>)
    ensures
        extended(front, prefixed(c, s)) == extended(front.push(c), s),
{
    if let Some(t) = s {
        assert(front + (seq![c] + t) =~= front.push(c) + t);
    }
}

/// Reads a string literal whose opening quote has been passed: the text up to
/// the closing quote, or nothing where the quote is missing. `\n`, `\t` and `\r`
/// stand for the control characters; before any other character a backslash is
/// dropped.
pub fn parse_json_string(s: &str) -> (out: Option<String>)
    ensures
        match out {
            Some(t) => string_body(s@) == Some(t@),
            None => string_body(s@) is None,
        },
{
    let text: Vec<char> = chars_of(s);
    string_in(text.as_slice())
}

/// The value of a field that holds a string.
pub fn json_str(json: &str, key: &str) -> (out: Option<String>)
    ensures
        match out {
            Some(t) => str_field(json@, key@) == Some(t@),
            None => str_field(json@, key@) is None,
        },
{
    let text: Vec<char> = chars_of(json);
    match value_of(text.as_slice(), key) {
        Some(value) => if value.len() > 0 && value[0] == '"' {
            string_in(skip(value, 1))
        } else {
            None
        },
        None => None,
    }
}

/// The value of a field that holds a string, or the empty text.
pub fn json_str_or_empty(json: &str, key: &str) -> (out: String)
    ensures
        out@ == str_field_or_empty(json@, key@),
{
    match json_str(json, key) {
        Some(value) => value,
        None => String::new(),
    }
}

/// The number that a text of decimal digits stands for, where it does not go
/// beyond the bounds of `i64` by its size.
fn magnitude(s: &[char]) -> (out: Option<u64>)
    ensures
        match out {
            Some(n) => is_digits(s@) && digits_value(s@) == n && n <= 0x8000_0000_0000_0000,
            None => !is_digits(s@) || digits_value(s@) > 0x8000_0000_0000_0000,
        },
{
    if s.len() == 0 {
        return None;
    }
    let mut value: u128 = 0;
    let mut i: usize = 0;
    let mut large: bool = false;
    while i < s.len()
        invariant
            i <= s@.len(),
            forall|j: int| 0 <= j < i ==> is_digit(#[trigger] s@[j]),
            large ==> digits_value(s@.take(i as int)) > 0x8000_0000_0000_0000,
            !large ==> digits_value(s@.take(i as int)) == value && value <= 0x8000_0000_0000_0000,
        decreases s@.len() - i,
    {
        let c: char = s[i];
        if !('0' <= c && c <= '9') {
            assert(!is_digit(s@[i as int]));
            return None;
        }
        let ghost next = s@.take(i + 1);
        assert(next.drop_last() =~= s@.take(i as int));
        assert(next.last() == c);
        if !large {
            value = value * 10 + (c as u32 - '0' as u32) as u128;
            large = value > 0x8000_0000_0000_0000;
        }
        i += 1;
    }
    assert(s@.take(s@.len() as int) =~= s@);
    if large {
        None
    } else {
        Some(value as u64)
    }
}

/// The integer that a text stands for.
fn integer_in(s: &[char]) -> (out: Option<i64>)
    ensures
        out == integer(s@),
{
    if s.len() > 0 && s[0] == '-' {
        match magnitude(skip(s, 1)) {
            Some(n) => Some((-(n as i128)) as i64),
            None => None,
        }
    } else {
        match magnitude(s) {
            Some(n) => if n < 0x8000_0000_0000_0000 {
                Some(n as i64)
            } else {
                None
            },
            None => None,
        }
    }
}

/// The value of a field that holds an integer.
pub fn json_int(json: &str, key: &str) -> (out: Option<i64>)
    ensures
        out == int_field(json@, key@),
{
    let text: Vec<char> = chars_of(json);
    match value_of(text.as_slice(), key) {
        Some(value) => integer_in(take(value, leading_run(value, CharClass::Numeric))),
        None => None,
    }
}

/// The text of a field that holds an object, from its opening brace to the one
/// that closes it.
pub fn json_object_raw(json: &str, key: &str) -> (out: Option<String>)
    ensures
        match out {
            Some(t) => object_field(json@, key@) == Some(t@),
            None => object_field(json@, key@) is None,
        },
{
    let text: Vec<char> = chars_of(json);
    match value_of(text.as_slice(), key) {
        Some(value) => if value.len() > 0 && value[0] == '{' {
            match closing_of(value) {
                Some(n) => Some(string_of(take(value, n))),
                None => None,
            }
        } else {
            None
        },
        None => None,
    }
}

/// The length of the shortest prefix of `s`, an opening brace at its start, in
/// which every brace is closed.
fn closing_of(s: &[char]) -> (out: Option<usize>)
    requires
        s@.len() > 0,
        s@[0] == '{',
    ensures
        match out {
            Some(n) => n <= s@.len() && closing(s@, 0) == Some(n as nat),
            None => closing(s@, 0) is None,
        },
{
    let mut depth: usize = 0;
    let mut i: usize = 0;
    let len: usize = s.len();
    assert(s@.skip(0) =~= s@);
    while i < len
        invariant
            i <= len == s@.len(),
            s@.len() > 0,
            s@[0] == '{',
            depth <= i,
            i > 0 ==> depth > 0,
            closing(s@, 0) == (match closing(s@.skip(i as int), depth as nat) {
                Some(n) => Some(n + i as nat),
                None => None,
            }),
        decreases len - i,
    {
        let ghost rest = s@.skip(i as int);
        let c: char = s[i];
        assert(rest[0] == c);
        assert(rest.skip(1) =~= s@.skip(i + 1));
        if c == '{' {
            depth += 1;
        } else if c == '}' {
            depth -= 1;
            if depth == 0 {
                return Some(i + 1);
            }
        }
        i += 1;
    }
    None
}

/// The character as it is written in a string literal.
pub open spec fn escaped_char(c: char) -> Seq<char> {
    if c == '"' {
        seq!['\\', '"']
    } else if c == '\\' {
        seq!['\\', '\\']
    } else if c == '\n' {
        seq!['\\', 'n']
    } else if c == '\t' {
        seq!['\\', 't']
    } else if c == '\r' {
        seq!['\\', 'r']
    } else {
        seq![c]
    }
}

/// The text as it is written in a string literal, without the quotes.
pub open spec fn escaped(s: Seq<char>) -> Seq<char>
    decreases s.len(),
{
    if s.len() == 0 {
        seq![]
    } else {
        escaped_char(s[0]) + escaped(s.drop_first())
    }
}

/// The integer in decimal digits, with a minus sign in front of a negative one.
pub open spec fn decimal(n: int) -> Seq<char> {
    if n < 0 {
        seq!['-'] + decimal_digits(-n as nat)
    } else {
        decimal_digits(n as nat)
    }
}

/// The number in decimal digits.
pub open spec fn decimal_digits(n: nat) -> Seq<char>
    decreases n,
{
    let last = seq![('0' as u32 + n % 10) as char];
    if n < 10 {
        last
    } else {
        decimal_digits(n / 10) + last
    }
}

/// How many more braces `s` opens than it closes.
pub open spec fn balance(s: Seq<char>) -> int
    decreases s.len(),
{
    if s.len() == 0 {
        0
    } else {
        balance(s.drop_last()) + if s.last() == '{' {
            1int
        } else if s.last() == '}' {
            -1int
        } else {
            0int
        }
    }
}

/// A string literal gives back the text that was written in it, whatever stands
/// behind its closing quote.
pub proof fn string_body_undoes_escaped(s: Seq<char>, rest: Seq<char>)
    ensures
        string_body(escaped(s) + seq!['"'] + rest) == Some(s),
    decreases s.len(),
{
    let text = escaped(s) + seq!['"'] + rest;
    if s.len() == 0 {
        assert(text[0] == '"');
        assert(s =~= seq![]);
    } else {
        let later = s.drop_first();
        let head = escaped_char(s[0]);
        string_body_undoes_escaped(later, rest);
        assert(text.skip(head.len() as int) =~= escaped(later) + seq!['"'] + rest);
        assert(text[0] == head[0]);
        if head.len() == 2 {
            assert(text[1] == head[1]);
        }
        assert(seq![s[0]] + later =~= s);
    }
}

/// The value of a field stands behind its name, a colon and any white space,
/// where the quoted name stands nowhere before.
pub proof fn value_text_of_field(
    front: Seq<char>,
    key: Seq<char>,
    white: Seq<char>,
    value: Seq<char>,
)
    requires
        forall|i: int| 0 <= i < white.len() ==> CharClass::White.has(#[trigger] white[i]),
        value.len() > 0 ==> !CharClass::White.has(value[0]),
        forall|j: int|
            0 <= j < front.len() ==> !occurs_at(
                front + quoted(key) + seq![':'] + white + value,
                quoted(key),
                j,
            ),
    ensures
        value_text(front + quoted(key) + seq![':'] + white + value, key) == Some(value),
{
    let json = front + quoted(key) + seq![':'] + white + value;
    let name = quoted(key);
    let behind = seq![':'] + white + value;
    assert(json.skip(front.len() as int) =~= name + behind);
    assert(name =~= (name + behind).subrange(0, name.len() as int));
    lemma_find_is(json, name, front.len());
    assert(json.skip((front.len() + name.len()) as int) =~= behind);
    lemma_leading_is(behind, CharClass::Except(':'), 0);
    assert(behind.skip(1) =~= white + value);
    let tail = white + value;
    assert forall|i: int| 0 <= i < white.len() implies CharClass::White.has(#[trigger] tail[i]) by {
        assert(tail[i] == white[i]);
    }
    if value.len() > 0 {
        assert(tail[white.len() as int] == value[0]);
    }
    lemma_leading_is(tail, CharClass::White, white.len());
    assert(tail.skip(white.len() as int) =~= value);
}

/// A field that was written with a string is read as that string, where its
/// quoted name stands nowhere before.
pub proof fn str_field_reads_string(
    front: Seq<char>,
    key: Seq<char>,
    white: Seq<char>,
    value: Seq<char>,
    rest: Seq<char>,
)
    requires
        forall|i: int| 0 <= i < white.len() ==> CharClass::White.has(#[trigger] white[i]),
        forall|j: int|
            0 <= j < front.len() ==> !occurs_at(
                front + quoted(key) + seq![':'] + white + (quoted(escaped(value)) + rest),
                quoted(key),
                j,
            ),
    ensures
        str_field(
            front + quoted(key) + seq![':'] + white + (quoted(escaped(value)) + rest),
            key,
        ) == Some(value),
{
    let written = quoted(escaped(value)) + rest;
    value_text_of_field(front, key, white, written);
    string_body_undoes_escaped(value, rest);
    assert(written.skip(1) =~= escaped(value) + seq!['"'] + rest);
}

/// The digits of a number are digits, and stand for the number.
pub proof fn lemma_decimal_digits(n: nat)
    ensures
        is_digits(decimal_digits(n)),
        digits_value(decimal_digits(n)) == n,
    decreases n,
{
    reveal_with_fuel(digits_value, 2);
    let s = decimal_digits(n);
    if n >= 10 {
        lemma_decimal_digits(n / 10);
        let more = decimal_digits(n / 10);
        assert(s.drop_last() =~= more);
        assert forall|i: int| 0 <= i < s.len() implies is_digit(#[trigger] s[i]) by {
            if i < more.len() {
                assert(s[i] == more[i]);
            }
        }
    } else {
        assert(s.drop_last() =~= seq![]);
    }
}

/// An integer is read from its decimal digits.
pub proof fn integer_undoes_decimal(n: i64)
    ensures
        integer(decimal(n as int)) == Some(n),
{
    let s = decimal(n as int);
    if n < 0 {
        lemma_decimal_digits(-n as nat);
        assert(s.skip(1) =~= decimal_digits(-n as nat));
    } else {
        lemma_decimal_digits(n as nat);
    }
}

/// A field that was written with an integer is read as that integer, where its
/// quoted name stands nowhere before and neither a digit nor a minus sign
/// follows.
pub proof fn int_field_reads_integer(
    front: Seq<char>,
    key: Seq<char>,
    white: Seq<char>,
    value: i64,
    rest: Seq<char>,
)
    requires
        forall|i: int| 0 <= i < white.len() ==> CharClass::White.has(#[trigger] white[i]),
        rest.len() > 0 ==> !CharClass::Numeric.has(rest[0]),
        forall|j: int|
            0 <= j < front.len() ==> !occurs_at(
                front + quoted(key) + seq![':'] + white + (decimal(value as int) + rest),
                quoted(key),
                j,
            ),
    ensures
        int_field(
            front + quoted(key) + seq![':'] + white + (decimal(value as int) + rest),
            key,
        ) == Some(value),
{
    let digits = decimal(value as int);
    let written = digits + rest;
    if value < 0 {
        lemma_decimal_digits(-value as nat);
        assert forall|i: int| 1 <= i < digits.len() implies is_digit(#[trigger] digits[i]) by {
            assert(digits[i] == decimal_digits(-value as nat)[i - 1]);
        }
    } else {
        lemma_decimal_digits(value as nat);
    }
    assert forall|i: int| 0 <= i < digits.len() implies CharClass::Numeric.has(
        #[trigger] written[i],
    ) by {
        assert(written[i] == digits[i]);
    }
    if rest.len() > 0 {
        assert(written[digits.len() as int] == rest[0]);
    }
    assert(!CharClass::White.has(written[0]));
    value_text_of_field(front, key, white, written);
    lemma_leading_is(written, CharClass::Numeric, digits.len());
    assert(written.take(digits.len() as int) =~= digits);
    integer_undoes_decimal(value);
}

proof fn lemma_balance_cons(c: char, s: Seq<char>)
    ensures
        balance(seq![c] + s) == balance(s) + if c == '{' {
            1int
        } else if c == '}' {
            -1int
        } else {
            0int
        },
    decreases s.len(),
{
    let t = seq![c] + s;
    if s.len() == 0 {
        assert(t.drop_last() =~= seq![]);
        assert(balance(t.drop_last()) == 0);
    } else {
        lemma_balance_cons(c, s.drop_last());
        assert(t.drop_last() =~= seq![c] + s.drop_last());
    }
}

/// `closing` measures the shortest prefix that closes the open braces.
proof fn lemma_closing(s: Seq<char>, depth: nat)
    requires
        depth > 0,
    ensures
        match closing(s, depth) {
            Some(n) => {
                &&& 0 < n <= s.len()
                &&& s[n - 1] == '}'
                &&& depth + balance(s.take(n as int)) == 0
                &&& forall|m: int| 0 <= m < n ==> depth + balance(#[trigger] s.take(m)) > 0
            },
            None => forall|m: int| 0 <= m <= s.len() ==> depth + balance(#[trigger] s.take(m)) > 0,
        },
    decreases s.len(),
{
    assert(s.take(0) =~= seq![]);
    if s.len() == 0 {
    } else {
        let rest = s.skip(1);
        assert forall|m: int| 0 < m <= s.len() implies #[trigger] s.take(m) == seq![s[0]]
            + rest.take(m - 1) by {
            assert(s.take(m) =~= seq![s[0]] + rest.take(m - 1));
        }
        assert forall|m: int| 0 < m <= s.len() implies balance(#[trigger] s.take(m)) == balance(
            rest.take(m - 1),
        ) + if s[0] == '{' {
            1int
        } else if s[0] == '}' {
            -1int
        } else {
            0int
        } by {
            lemma_balance_cons(s[0], rest.take(m - 1));
        }
        if s[0] == '}' && depth <= 1 {
            assert(rest.take(0) =~= seq![]);
            assert(balance(s.take(1)) == -1);
        } else {
            let inner = if s[0] == '{' {
                depth + 1
            } else if s[0] == '}' {
                (depth - 1) as nat
            } else {
                depth
            };
            lemma_closing(rest, inner);
            match closing(rest, inner) {
                Some(n) => {
                    assert(s[n as int] == rest[n - 1]);
                    assert(s.take(n as int + 1) == seq![s[0]] + rest.take(n as int));
                    assert forall|m: int| 0 <= m < n + 1 implies depth + balance(
                        #[trigger] s.take(m),
                    ) > 0 by {
                        if m > 0 {
                            assert(inner + balance(rest.take(m - 1)) > 0);
                        }
                    }
                },
                None => {
                    assert forall|m: int| 0 <= m <= s.len() implies depth + balance(
                        #[trigger] s.take(m),
                    ) > 0 by {
                        if m > 0 {
                            assert(inner + balance(rest.take(m - 1)) > 0);
                        }
                    }
                },
            }
        }
    }
}

/// An object is read from its opening brace to the brace that closes it: it is
/// the shortest text from there in which as many braces are closed as opened.
/// Where the value does not start with a brace, or its braces are never all
/// closed, there is none.
pub proof fn object_field_is_balanced(json: Seq<char>, key: Seq<char>)
    ensures
        match object_field(json, key) {
            Some(object) => {
                &&& value_text(json, key) is Some
                &&& object.is_prefix_of(value_text(json, key)->0)
                &&& object.len() >= 2
                &&& object[0] == '{'
                &&& object.last() == '}'
                &&& balance(object) == 0
                &&& forall|m: int| 0 < m < object.len() ==> balance(#[trigger] object.take(m)) > 0
            },
            None => value_text(json, key) matches Some(value) ==> value.len() == 0 || value[0]
                != '{' || forall|m: int|
                0 < m <= value.len() ==> balance(#[trigger] value.take(m)) > 0,
        },
{
    if let Some(value) = value_text(json, key) {
        if value.len() > 0 && value[0] == '{' {
            let rest = value.skip(1);
            lemma_closing(rest, 1);
            assert forall|m: int| 0 < m <= value.len() implies balance(#[trigger] value.take(m))
                == 1 + balance(rest.take(m - 1)) by {
                assert(value.take(m) =~= seq!['{'] + rest.take(m - 1));
                lemma_balance_cons('{', rest.take(m - 1));
            }
            if let Some(n) = closing(rest, 1) {
                let object = value.take(n as int + 1);
                assert(object.last() == rest[n - 1]);
                assert forall|m: int| 0 < m < object.len() implies balance(#[trigger] object.take(m))
                    > 0 by {
                    assert(object.take(m) =~= value.take(m));
                    assert(1 + balance(rest.take(m - 1)) > 0);
                }
            } else {
                assert forall|m: int| 0 < m <= value.len() implies balance(
                    #[trigger] value.take(m),
                ) > 0 by {
                    assert(1 + balance(rest.take(m - 1)) > 0);
                }
            }
        }
    }
}

/// A field that was written with an object is read as that object, where its
/// quoted name stands nowhere before and the braces of the object, those in its
/// strings among them, are all closed at its end and not before.
pub proof fn object_field_reads_object(
    front: Seq<char>,
    key: Seq<char>,
    white: Seq<char>,
    object: Seq<char>,
    rest: Seq<char>,
)
    requires
        forall|i: int| 0 <= i < white.len() ==> CharClass::White.has(#[trigger] white[i]),
        object.len() > 0,
        object[0] == '{',
        balance(object) == 0,
        forall|m: int| 0 < m < object.len() ==> balance(#[trigger] object.take(m)) > 0,
        forall|j: int|
            0 <= j < front.len() ==> !occurs_at(
                front + quoted(key) + seq![':'] + white + (object + rest),
                quoted(key),
                j,
            ),
    ensures
        object_field(front + quoted(key) + seq![':'] + white + (object + rest), key) == Some(object),
{
    let json = front + quoted(key) + seq![':'] + white + (object + rest);
    let value = object + rest;
    assert(value[0] == '{');
    value_text_of_field(front, key, white, value);
    object_field_is_balanced(json, key);
    assert(value.take(object.len() as int) =~= object);
    if let Some(found) = object_field(json, key) {
        assert(found =~= value.take(found.len() as int));
        if found.len() < object.len() {
            assert(object.take(found.len() as int) =~= found);
        } else if object.len() < found.len() {
            assert(found.take(object.len() as int) =~= object);
        }
        assert(found =~= object);
    }
}

/// A character that is no double quote, in front of a text, changes no field of
/// it.
proof fn lemma_front_char(c: char, s: Seq<char>, key: Seq<char>)
    requires
        c != '"',
    ensures
        value_text(seq![c] + s, key) == value_text(s, key),
{
    let name = quoted(key);
    let longer = seq![c] + s;
    assert(name[0] == '"');
    assert(!name.is_prefix_of(longer)) by {
        assert(longer.subrange(0, name.len() as int)[0] == c || name.len() > longer.len());
    }
    assert(longer.drop_first() =~= s);
    if let Some(at) = find(s, name) {
        lemma_find(s, name);
        assert(longer.skip((at + 1 + name.len()) as int) =~= s.skip((at + name.len()) as int));
    }
}

/// A character that is no double quote, behind a text, does not end a string in
/// it.
proof fn lemma_string_body_push(s: Seq<char>, c: char)
    requires
        c != '"',
    ensures
        string_body(s.push(c)) == string_body(s),
    decreases s.len(),
{
    let longer = s.push(c);
    assert(string_body(Seq::<char>::empty()) is None);
    if s.len() == 0 {
        assert(longer.skip(1) =~= seq![]);
    } else if s[0] == '"' {
    } else if s[0] != '\\' {
        lemma_string_body_push(s.skip(1), c);
        assert(longer.skip(1) =~= s.skip(1).push(c));
    } else if s.len() == 1 {
        assert(longer.skip(2) =~= seq![]);
    } else {
        lemma_string_body_push(s.skip(2), c);
        assert(longer.skip(2) =~= s.skip(2).push(c));
    }
}

/// A character behind a text that is not of the class does not change the run at
/// its start.
proof fn lemma_leading_push(s: Seq<char>, c: char, class: CharClass)
    requires
        !class.has(c),
    ensures
        leading(s.push(c), class) == leading(s, class),
        leading(s, class) <= s.len(),
{
    lemma_leading(s, class);
    let longer = s.push(c);
    let n = leading(s, class);
    assert forall|i: int| 0 <= i < n implies class.has(#[trigger] longer[i]) by {
        assert(longer[i] == s[i]);
    }
    lemma_leading_is(longer, class, n);
}

/// A character that is no double quote, behind a text, hides and adds no quoted
/// name in it.
proof fn lemma_find_push(s: Seq<char>, c: char, key: Seq<char>)
    requires
        c != '"',
    ensures
        find(s.push(c), quoted(key)) == find(s, quoted(key)),
{
    let name = quoted(key);
    let longer = s.push(c);
    let n = name.len() as int;
    assert(name[n - 1] == '"');
    assert forall|j: int| occurs_at(longer, name, j) == occurs_at(s, name, j) by {
        if occurs_at(s, name, j) {
            assert(name =~= longer.skip(j).subrange(0, n)) by {
                assert(name =~= s.skip(j).subrange(0, n));
                assert(longer.skip(j).subrange(0, n) =~= s.skip(j).subrange(0, n));
            }
        }
        if occurs_at(longer, name, j) {
            let there = longer.skip(j).subrange(0, n);
            assert(there[n - 1] == name[n - 1]);
            assert(there[n - 1] == longer[j + n - 1]);
            assert(j + n <= s.len());
            assert(name =~= s.skip(j).subrange(0, n)) by {
                assert(there =~= s.skip(j).subrange(0, n));
            }
        }
    }
    lemma_find(s, name);
    lemma_find(longer, name);
    if let Some(at) = find(s, name) {
        assert(occurs_at(longer, name, at as int));
        assert forall|j: int| 0 <= j < at implies !occurs_at(longer, name, j) by {
            assert(!occurs_at(s, name, j));
        }
        lemma_find_is(longer, name, at);
    } else if let Some(at) = find(longer, name) {
        assert(occurs_at(s, name, at as int));
    }
}

/// A brace behind a text changes no string field of it.
proof fn lemma_back_brace(s: Seq<char>, c: char, key: Seq<char>)
    requires
        CharClass::Brace.has(c),
    ensures
        str_field(s.push(c), key) == str_field(s, key),
{
    let name = quoted(key);
    let longer = s.push(c);
    lemma_find_push(s, c, key);
    lemma_find(s, name);
    if let Some(at) = find(s, name) {
        let from = (at + name.len()) as int;
        let behind = s.skip(from);
        assert(longer.skip(from) =~= behind.push(c));
        lemma_leading(behind, CharClass::Except(':'));
        lemma_leading(behind.push(c), CharClass::Except(':'));
        match index_of(behind, ':') {
            Some(colon) => {
                let m = colon as int;
                assert forall|i: int| 0 <= i < m implies CharClass::Except(':').has(
                    #[trigger] behind.push(c)[i],
                ) by {
                    assert(behind.push(c)[i] == behind[i]);
                }
                lemma_leading_is(behind.push(c), CharClass::Except(':'), colon);
                let x = behind.skip(m + 1);
                assert(behind.push(c).skip(m + 1) =~= x.push(c));
                lemma_leading_push(x, c, CharClass::White);
                let v = trim_start(x, CharClass::White);
                assert(trim_start(x.push(c), CharClass::White) =~= v.push(c));
                if v.len() > 0 && v[0] == '"' {
                    lemma_string_body_push(v.skip(1), c);
                    assert(v.push(c).skip(1) =~= v.skip(1).push(c));
                }
            },
            None => {
                assert forall|i: int| 0 <= i < behind.len() + 1 implies CharClass::Except(':').has(
                    #[trigger] behind.push(c)[i],
                ) by {
                    if i < behind.len() {
                        assert(behind.push(c)[i] == behind[i]);
                    }
                }
                lemma_leading_is(behind.push(c), CharClass::Except(':'), behind.len() + 1);
            },
        }
    }
}

/// Braces around a text change no string field of it.
pub proof fn braces_change_no_string(
    front: Seq<char>,
    s: Seq<char>,
    back: Seq<char>,
    key: Seq<char>,
)
    requires
        forall|i: int| 0 <= i < front.len() ==> CharClass::Brace.has(#[trigger] front[i]),
        forall|i: int| 0 <= i < back.len() ==> CharClass::Brace.has(#[trigger] back[i]),
    ensures
        str_field(front + s + back, key) == str_field(s, key),
    decreases front.len() + back.len(),
{
    let whole = front + s + back;
    if front.len() > 0 {
        let less = front.drop_first();
        assert forall|i: int| 0 <= i < less.len() implies CharClass::Brace.has(
            #[trigger] less[i],
        ) by {
            assert(less[i] == front[i + 1]);
        }
        braces_change_no_string(less, s, back, key);
        assert(CharClass::Brace.has(front[0]));
        lemma_front_char(front[0], less + s + back, key);
        assert(whole =~= seq![front[0]] + (less + s + back));
    } else if back.len() > 0 {
        let less = back.drop_last();
        assert forall|i: int| 0 <= i < less.len() implies CharClass::Brace.has(
            #[trigger] less[i],
        ) by {
            assert(less[i] == back[i]);
        }
        braces_change_no_string(front, s, less, key);
        assert(CharClass::Brace.has(back[back.len() - 1]));
        lemma_back_brace(front + s + less, back.last(), key);
        assert(whole =~= (front + s + less).push(back.last()));
    } else {
        assert(whole =~= s);
    }
}

} // verus!
