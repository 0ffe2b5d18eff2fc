//! String literals: decoding the literals that test titles are written in,
//! and escaping text for the literals that scaffolds contain.

use vstd::prelude::*;
use crate::text::{chars_of, text_between};

verus! {

/// A Unicode scalar value: what a `char` can hold.
pub open spec fn is_scalar_value(v: nat) -> bool {
    v <= 0x10ffff && !(0xd800 <= v <= 0xdfff)
}

/// `char::from_u32`: the character with the given scalar value, and nothing
/// for a number that is not one.
pub assume_specification[ char::from_u32 ](v: u32) -> (c: Option<char>)
    ensures
        c == (if is_scalar_value(v as nat) {
            Some(v as char)
        } else {
            None
        }),
;

/// The value of a hexadecimal digit.
pub open spec fn hex_digit(c: char) -> Option<nat> {
    if '0' <= c <= '9' {
        Some((c as int - '0' as int) as nat)
    } else if 'a' <= c <= 'f' {
        Some((c as int - 'a' as int + 10) as nat)
    } else if 'A' <= c <= 'F' {
        Some((c as int - 'A' as int + 10) as nat)
    } else {
        None
    }
}

/// The value of a run of hexadecimal digits; nothing if another character
/// stands in it.
pub open spec fn hex_digits(s: Seq<char>) -> Option<nat>
    decreases s.len(),
{
    if s.len() == 0 {
        Some(0)
    } else {
        match (hex_digits(s.drop_last()), hex_digit(s.last())) {
            (Some(high), Some(low)) => Some(high * 16 + low),
            _ => None,
        }
    }
}

/// The value of a hexadecimal number: at least one digit, and nothing else.
pub open spec fn hex_value(s: Seq<char>) -> Option<nat> {
    if s.len() == 0 {
        None
    } else {
        hex_digits(s)
    }
}

/// The character that a hexadecimal number stands for.
pub open spec fn hex_char(s: Seq<char>) -> Option<char> {
    match hex_value(s) {
        Some(v) => if is_scalar_value(v) {
            Some(v as char)
        } else {
            None
        },
        None => None,
    }
}

/// The character that a one-letter escape stands for: `\n` and the like
/// have their own, any other character stands for itself.
pub open spec fn simple_escape(c: char) -> char {
    if c == 'n' {
        '\n'
    } else if c == 't' {
        '\t'
    } else if c == 'r' {
        '\r'
    } else if c == '0' {
        '\0'
    } else if c == 'b' {
        '\u{8}'
    } else if c == 'f' {
        '\u{c}'
    } else if c == 'v' {
        '\u{b}'
    } else {
        c
    }
}

/// The position of the first `c`.
pub open spec fn position_of(s: Seq<char>, c: char) -> Option<int>
    decreases s.len(),
{
    if s.len() == 0 {
        None
    } else if s[0] == c {
        Some(0)
    } else {
        match position_of(s.drop_first(), c) {
            Some(i) => Some(i + 1),
            None => None,
        }
    }
}

/// The character of a numeric escape, and how many characters after the
/// `\x` or `\u` spell it: `\xNN`, `\u{N…}`, or `\uNNNN`. A malformed escape
/// stands for nothing.
pub open spec fn numeric_escape(letter: char, rest: Seq<char>) -> Option<(char, int)> {
    if letter == 'x' {
        if rest.len() < 2 {
            None
        } else {
            match hex_char(rest.take(2)) {
                Some(c) => Some((c, 2)),
                None => None,
            }
        }
    } else if rest.len() > 0 && rest[0] == '{' {
        match position_of(rest.drop_first(), '}') {
            Some(close) => match hex_char(rest.subrange(1, close + 1)) {
                Some(c) => Some((c, close + 2)),
                None => None,
            },
            None => None,
        }
    } else if rest.len() < 4 {
        None
    } else {
        match hex_char(rest.take(4)) {
            Some(c) => Some((c, 4)),
            None => None,
        }
    }
}

/// The value of the text between the quotes of a JS string literal. A
/// malformed numeric escape and a backslash at the end stay as they are.
pub open spec fn js_unescaped(s: Seq<char>) -> Seq<char>
    decreases s.len(),
{
    if s.len() == 0 {
        Seq::empty()
    } else if s[0] != '\\' {
        seq![s[0]] + js_unescaped(s.drop_first())
    } else if s.len() == 1 {
        seq!['\\']
    } else if s[1] != 'x' && s[1] != 'u' {
        seq![simple_escape(s[1])] + js_unescaped(s.skip(2))
    } else {
        match numeric_escape(s[1], s.skip(2)) {
            Some((c, n)) => if 0 <= n <= s.len() - 2 {
                seq![c] + js_unescaped(s.skip(2 + n))
            } else {
                Seq::empty()
            },
            None => seq!['\\', s[1]] + js_unescaped(s.skip(2)),
        }
    }
}

/// The value of a JS string literal: what stands between a pair of equal
/// quotes, unescaped; text without such quotes is unescaped as a whole.
pub open spec fn js_value(s: Seq<char>) -> Seq<char> {
    if s.len() >= 2 && (s[0] == '"' || s[0] == '\'' || s[0] == '`') && s.last() == s[0] {
        js_unescaped(s.subrange(1, s.len() - 1))
    } else {
        js_unescaped(s)
    }
}

proof fn lemma_position_of(s: Seq<char>, c: char)
    ensures
        match position_of(s, c) {
            Some(i) => 0 <= i < s.len() && s[i] == c && forall|j: int| 0 <= j < i ==> s[j] != c,
            None => forall|j: int| 0 <= j < s.len() ==> s[j] != c,
        },
    decreases s.len(),
{
    if s.len() > 0 && s[0] != c {
        lemma_position_of(s.drop_first(), c);
        let rest = s.drop_first();
        assert forall|j: int| 0 < j < s.len() implies s[j] == rest[j - 1] by {}
    }
}

proof fn lemma_hex_grows(s: Seq<char>, n: int)
    requires
        0 <= n <= s.len(),
        hex_digits(s) is Some,
    ensures
        hex_digits(s.take(n)) is Some,
        hex_digits(s.take(n))->0 <= hex_digits(s)->0,
    decreases s.len() - n,
{
    if n < s.len() {
        lemma_hex_grows(s.drop_last(), n);
        assert(s.drop_last().take(n) =~= s.take(n));
    } else {
        assert(s.take(n) =~= s);
    }
}

/// The value of a hexadecimal digit.
fn digit_value(c: char) -> (v: Option<u32>)
    ensures
        match v {
            Some(v) => hex_digit(c) == Some(v as nat) && v < 16,
            None => hex_digit(c) is None,
        },
{
    if '0' <= c && c <= '9' {
        Some(c as u32 - '0' as u32)
    } else if 'a' <= c && c <= 'f' {
        Some(c as u32 - 'a' as u32 + 10)
    } else if 'A' <= c && c <= 'F' {
        Some(c as u32 - 'A' as u32 + 10)
    } else {
        None
    }
}

/// The character that the hexadecimal number between two positions stands
/// for.
fn char_between(chars: &[char], from: usize, to: usize) -> (c: Option<char>)
    requires
        from <= to <= chars@.len(),
    ensures
        c == hex_char(chars@.subrange(from as int, to as int)),
{
    let ghost digits = chars@.subrange(from as int, to as int);
    if from == to {
        return None;
    }
    let mut i: usize = from;
    let mut value: u32 = 0;
    assert(digits.take(0) =~= Seq::empty());
    while i < to
        invariant
            from <= i <= to <= chars@.len(),
            from < to,
            digits == chars@.subrange(from as int, to as int),
            hex_digits(digits.take(i - from)) == Some(value as nat),
            value <= 0x10ffff,
        decreases to - i,
    {
        let ghost now = digits.take(i - from + 1);
        proof {
            assert(now.drop_last() =~= digits.take(i - from));
            assert(now.last() == chars@[i as int]);
            if hex_digits(digits) is Some {
                lemma_hex_grows(digits, i - from + 1);
            }
        }
        match digit_value(chars[i]) {
            Some(d) => {
                value = value * 16 + d;
                if value > 0x10ffff {
                    return None;
                }
            },
            None => {
                return None;
            },
        }
        i += 1;
    }
    assert(digits.take(i - from) =~= digits);
    char::from_u32(value)
}

/// The numeric escape after the `\x` or `\u` that ends before `from`.
fn numeric_at(chars: &[char], letter: char, from: usize) -> (out: Option<(char, usize)>)
    requires
        from <= chars@.len(),
        letter == 'x' || letter == 'u',
    ensures
        match out {
            Some((c, n)) => numeric_escape(letter, chars@.skip(from as int)) == Some((c, n as int))
                && from + n <= chars@.len(),
            None => numeric_escape(letter, chars@.skip(from as int)) is None,
        },
{
    let ghost rest = chars@.skip(from as int);
    let left: usize = chars.len() - from;
    if letter == 'x' {
        if left < 2 {
            return None;
        }
        assert(chars@.subrange(from as int, from + 2) =~= rest.take(2));
        return match char_between(chars, from, from + 2) {
            Some(c) => Some((c, 2)),
            None => None,
        };
    }
    if left > 0 && chars[from] == '{' {
        let ghost body = rest.drop_first();
        let mut close: usize = 0;
        while close < left - 1 && chars[from + 1 + close] != '}'
            invariant
                close <= left - 1,
                left == chars@.len() - from,
                from < chars@.len(),
                chars@.len() <= usize::MAX,
                body == chars@.skip(from as int).drop_first(),
                forall|j: int| 0 <= j < close ==> body[j] != '}',
            decreases left - close,
        {
            assert(body[close as int] == chars@[from + 1 + close]);
            close += 1;
        }
        proof {
            lemma_position_of(body, '}');
            if close < left - 1 {
                assert(body[close as int] == chars@[from + 1 + close]);
            }
        }
        if close == left - 1 {
            return None;
        }
        assert(position_of(body, '}') == Some(close as int));
        assert(chars@.subrange(from + 1, from + 1 + close) =~= rest.subrange(1, close + 1));
        return match char_between(chars, from + 1, from + 1 + close) {
            Some(c) => Some((c, close + 2)),
            None => None,
        };
    }
    if left < 4 {
        return None;
    }
    assert(chars@.subrange(from as int, from + 4) =~= rest.take(4));
    match char_between(chars, from, from + 4) {
        Some(c) => Some((c, 4)),
        None => None,
    }
}

/// Decode a JS string literal's source text (`"a \"b\""`) to its value.
/// Titles are compared against `.tree` text and templates escape when
/// scaffolding, so extraction must see the string's *value*: otherwise a
/// scaffolded quote round-trips into a spurious mismatch.
pub fn decode_js_string(text: &str) -> (out: String)
    ensures
        out@ == js_value(text@),
{
    let chars = chars_of(text);
    let len: usize = chars.len();
    let (from, to) = if len >= 2 && (chars[0] == '"' || chars[0] == '\'' || chars[0] == '`')
        && chars[len - 1] == chars[0] {
        (1usize, len - 1)
    } else {
        (0usize, len)
    };
    let ghost inner = chars@.subrange(from as int, to as int);
    assert(inner =~= if from == 1 {
        text@.subrange(1, text@.len() - 1)
    } else {
        text@
    });
    unescape(&chars, from, to)
}

/// What the text at a position stands for, and the position after it.
fn unescape_at(chars: &[char], i: usize) -> (out: (String, usize))
    requires
        i < chars@.len(),
    ensures
        i < out.1 <= chars@.len(),
        js_unescaped(chars@.skip(i as int)) == out.0@ + js_unescaped(chars@.skip(out.1 as int)),
{
    let ghost rest = chars@.skip(i as int);
    let c = chars[i];
    let mut piece = String::new();
    if c != '\\' {
        piece.push(c);
        assert(piece@ =~= seq![c]);
        assert(rest.drop_first() =~= chars@.skip(i + 1));
        return (piece, i + 1);
    }
    if i == chars.len() - 1 {
        piece.push('\\');
        assert(piece@ =~= seq!['\\']);
        assert(js_unescaped(chars@.skip(i + 1)) =~= Seq::empty());
        assert(piece@ + js_unescaped(chars@.skip(i + 1)) =~= piece@);
        return (piece, i + 1);
    }
    let letter = chars[i + 1];
    assert(rest.skip(2) =~= chars@.skip(i + 2));
    if letter != 'x' && letter != 'u' {
        let decoded = match letter {
            'n' => '\n',
            't' => '\t',
            'r' => '\r',
            '0' => '\0',
            'b' => '\u{8}',
            'f' => '\u{c}',
            'v' => '\u{b}',
            // In JS `\q` is just `q`: this covers \" \' \` \\ too.
            other => other,
        };
        piece.push(decoded);
        assert(piece@ =~= seq![simple_escape(letter)]);
        return (piece, i + 2);
    }
    match numeric_at(chars, letter, i + 2) {
        Some((decoded, n)) => {
            piece.push(decoded);
            assert(piece@ =~= seq![decoded]);
            assert(rest.skip(2 + n as int) =~= chars@.skip(i + 2 + n));
            (piece, i + 2 + n)
        },
        None => {
            piece.push('\\');
            piece.push(letter);
            assert(piece@ =~= seq!['\\', letter]);
            (piece, i + 2)
        },
    }
}

/// Undo the escapes of the text between two positions.
fn unescape(all: &[char], from: usize, to: usize) -> (out: String)
    requires
        from <= to <= all@.len(),
    ensures
        out@ == js_unescaped(all@.subrange(from as int, to as int)),
{
    let chars = chars_of(text_between(all, from, to).as_str());
    let mut out = String::new();
    let mut i: usize = 0;
    assert(chars@.skip(0) =~= chars@);
    assert(out@ + js_unescaped(chars@) =~= js_unescaped(chars@));
    while i < chars.len()
        invariant
            i <= chars@.len(),
            chars@ == all@.subrange(from as int, to as int),
            out@ + js_unescaped(chars@.skip(i as int)) == js_unescaped(chars@),
        decreases chars@.len() - i,
    {
        let (piece, next) = unescape_at(&chars, i);
        let ghost before = out@;
        out.append(piece.as_str());
        assert(before + (piece@ + js_unescaped(chars@.skip(next as int))) =~= out@ + js_unescaped(
            chars@.skip(next as int),
        ));
        i = next;
    }
    assert(js_unescaped(chars@.skip(i as int)) =~= Seq::empty());
    assert(out@ + js_unescaped(chars@.skip(i as int)) =~= out@);
    out
}

/// A character inside a double-quoted JS literal. U+2028 and U+2029 are line
/// terminators in JavaScript; escaped, they stay string data.
pub open spec fn js_escape(c: char) -> Seq<char> {
    if c == '\\' {
        seq!['\\', '\\']
    } else if c == '"' {
        seq!['\\', '"']
    } else if c == '\u{2028}' {
        seq!['\\', 'u', '2', '0', '2', '8']
    } else if c == '\u{2029}' {
        seq!['\\', 'u', '2', '0', '2', '9']
    } else {
        seq![c]
    }
}

/// A text inside a double-quoted JS literal.
pub open spec fn js_escaped(s: Seq<char>) -> Seq<char>
    decreases s.len(),
{
    if s.len() == 0 {
        Seq::empty()
    } else {
        js_escaped(s.drop_last()) + js_escape(s.last())
    }
}

/// Escape text for a double-quoted JS literal.
pub fn js_string(s: &str) -> (out: String)
    ensures
        out@ == js_escaped(s@),
{
    let chars = chars_of(s);
    let mut out = String::new();
    let mut i: usize = 0;
    assert(js_escaped(chars@.take(0)) =~= Seq::empty());
    while i < chars.len()
        invariant
            i <= chars@.len(),
            out@ == js_escaped(chars@.take(i as int)),
        decreases chars@.len() - i,
    {
        let c = chars[i];
        let ghost before = out@;
        assert(chars@.take(i + 1).drop_last() =~= chars@.take(i as int));
        if c == '\\' || c == '"' {
            out.push('\\');
            out.push(c);
        } else if c == '\u{2028}' {
            out.append("\\u2028");
        } else if c == '\u{2029}' {
            out.append("\\u2029");
        } else {
            out.push(c);
        }
        proof {
            reveal_strlit("\\u2028");
            reveal_strlit("\\u2029");
            assert(out@ =~= before + js_escape(c));
        }
        i += 1;
    }
    assert(chars@.take(i as int) =~= s@);
    out
}

/// A character inside a line comment: no line terminator may end it.
pub open spec fn line_escape(c: char) -> Seq<char> {
    if c == '\r' || c == '\n' {
        seq![' ']
    } else if c == '\u{2028}' {
        seq!['\\', 'u', '2', '0', '2', '8']
    } else if c == '\u{2029}' {
        seq!['\\', 'u', '2', '0', '2', '9']
    } else {
        seq![c]
    }
}

/// A text inside a line comment.
pub open spec fn line_escaped(s: Seq<char>) -> Seq<char>
    decreases s.len(),
{
    if s.len() == 0 {
        Seq::empty()
    } else {
        line_escaped(s.drop_last()) + line_escape(s.last())
    }
}

/// Neutralize line terminators, so that text quoted in a comment cannot end
/// the comment and become code.
pub fn line_safe(s: &str) -> (out: String)
    ensures
        out@ == line_escaped(s@),
{
    let chars = chars_of(s);
    let mut out = String::new();
    let mut i: usize = 0;
    assert(line_escaped(chars@.take(0)) =~= Seq::empty());
    while i < chars.len()
        invariant
            i <= chars@.len(),
            out@ == line_escaped(chars@.take(i as int)),
        decreases chars@.len() - i,
    {
        let c = chars[i];
        let ghost before = out@;
        assert(chars@.take(i + 1).drop_last() =~= chars@.take(i as int));
        if c == '\r' || c == '\n' {
            out.push(' ');
        } else if c == '\u{2028}' {
            out.append("\\u2028");
        } else if c == '\u{2029}' {
            out.append("\\u2029");
        } else {
            out.push(c);
        }
        proof {
            reveal_strlit("\\u2028");
            reveal_strlit("\\u2029");
            assert(out@ =~= before + line_escape(c));
        }
        i += 1;
    }
    assert(chars@.take(i as int) =~= s@);
    out
}

/// A character inside a Rust literal that is also a format string.
pub open spec fn rust_escape(c: char) -> Seq<char> {
    if c == '\\' {
        seq!['\\', '\\']
    } else if c == '"' {
        seq!['\\', '"']
    } else if c == '{' {
        seq!['{', '{']
    } else if c == '}' {
        seq!['}', '}']
    } else {
        seq![c]
    }
}

/// A text inside a Rust literal that is also a format string.
pub open spec fn rust_escaped(s: Seq<char>) -> Seq<char>
    decreases s.len(),
{
    if s.len() == 0 {
        Seq::empty()
    } else {
        rust_escaped(s.drop_last()) + rust_escape(s.last())
    }
}

/// Escape text for a Rust literal that is also a format string (`todo!`):
/// braces are doubled on top of the quote and backslash escapes.
pub fn rust_string(s: &str) -> (out: String)
    ensures
        out@ == rust_escaped(s@),
{
    let chars = chars_of(s);
    let mut out = String::new();
    let mut i: usize = 0;
    assert(rust_escaped(chars@.take(0)) =~= Seq::empty());
    while i < chars.len()
        invariant
            i <= chars@.len(),
            out@ == rust_escaped(chars@.take(i as int)),
        decreases chars@.len() - i,
    {
        let c = chars[i];
        let ghost before = out@;
        assert(chars@.take(i + 1).drop_last() =~= chars@.take(i as int));
        if c == '\\' || c == '"' {
            out.push('\\');
        } else if c == '{' || c == '}' {
            out.push(c);
        }
        out.push(c);
        assert(out@ =~= before + rust_escape(c));
        i += 1;
    }
    assert(chars@.take(i as int) =~= s@);
    out
}

proof fn lemma_unescape_one(c: char, rest: Seq<char>)
    ensures
        js_unescaped(js_escape(c) + rest) == seq![c] + js_unescaped(rest),
{
    let s = js_escape(c) + rest;
    if c == '\\' || c == '"' {
        assert(s.skip(2) =~= rest);
    } else if c == '\u{2028}' || c == '\u{2029}' {
        let tail = s.skip(2);
        let four = tail.take(4);
        let d: char = if c == '\u{2028}' {
            '8'
        } else {
            '9'
        };
        assert(four =~= seq!['2', '0', '2', d]);
        assert(hex_digits(four) == Some((c as u32) as nat)) by {
            let one = four.take(1);
            let two = four.take(2);
            let three = four.take(3);
            assert(four.drop_last() =~= three);
            assert(three.drop_last() =~= two);
            assert(two.drop_last() =~= one);
            assert(one.drop_last() =~= Seq::empty());
            assert(hex_digits(one.drop_last()) == Some(0nat));
            assert(hex_digits(one) == Some(2nat));
            assert(hex_digits(two) == Some(0x20nat));
            assert(hex_digits(three) == Some(0x202nat));
        }
        assert(hex_char(four) == Some(c));
        assert(numeric_escape('u', tail) == Some((c, 4int)));
        assert(s.skip(6) =~= rest);
    } else {
        assert(s.drop_first() =~= rest);
    }
}

proof fn lemma_unescape_all(s: Seq<char>, rest: Seq<char>)
    ensures
        js_unescaped(js_escaped(s) + rest) == s + js_unescaped(rest),
    decreases s.len(),
{
    if s.len() == 0 {
        assert(js_escaped(s) + rest =~= rest);
        assert(s + js_unescaped(rest) =~= js_unescaped(rest));
    } else {
        let front = s.drop_last();
        let more = js_escape(s.last()) + rest;
        lemma_unescape_all(front, more);
        lemma_unescape_one(s.last(), rest);
        assert(js_escaped(s) + rest =~= js_escaped(front) + more);
        assert(front + (seq![s.last()] + js_unescaped(rest)) =~= s + js_unescaped(rest));
    }
}

/// Whatever a template escapes, extraction undoes: the value of a literal
/// written with [`js_string`] is the text it was written from.
pub proof fn law_js_string_round_trips(s: Seq<char>)
    ensures
        js_value(seq!['"'] + js_escaped(s) + seq!['"']) == s,
{
    let quoted = seq!['"'] + js_escaped(s) + seq!['"'];
    assert(quoted.subrange(1, quoted.len() - 1) =~= js_escaped(s));
    lemma_unescape_all(s, Seq::empty());
    assert(js_escaped(s) + Seq::<char>::empty() =~= js_escaped(s));
    assert(js_unescaped(Seq::<char>::empty()) =~= Seq::empty());
    assert(s + Seq::<char>::empty() =~= s);
}

/// Whether a character ends a line in JavaScript.
pub open spec fn ends_line(c: char) -> bool {
    c == '\r' || c == '\n' || c == '\u{2028}' || c == '\u{2029}'
}

/// Text made safe for a line comment holds no line terminator.
pub proof fn law_line_safe_stays_on_one_line(s: Seq<char>, i: int)
    requires
        0 <= i < line_escaped(s).len(),
    ensures
        !ends_line(line_escaped(s)[i]),
    decreases s.len(),
{
    let front = line_escaped(s.drop_last());
    if i < front.len() {
        law_line_safe_stays_on_one_line(s.drop_last(), i);
    } else {
        assert(line_escaped(s)[i] == line_escape(s.last())[i - front.len()]);
    }
}

/// A text as it stands between quotes: the quote and the backslash have a
/// backslash before them, every other character stands as it is.
pub open spec fn spelled(q: char, t: Seq<char>) -> Seq<char>
    decreases t.len(),
{
    if t.len() == 0 {
        Seq::empty()
    } else {
        let first = if t[0] == q || t[0] == '\\' {
            seq!['\\', t[0]]
        } else {
            seq![t[0]]
        };
        first + spelled(q, t.drop_first())
    }
}

/// Whether a character is one of the three quotes of a JavaScript literal.
pub open spec fn is_quote(q: char) -> bool {
    q == '"' || q == '\'' || q == '`'
}

proof fn lemma_spelled(q: char, t: Seq<char>, rest: Seq<char>)
    requires
        is_quote(q),
    ensures
        js_unescaped(spelled(q, t) + rest) == t + js_unescaped(rest),
    decreases t.len(),
{
    let s = spelled(q, t) + rest;
    if t.len() == 0 {
        assert(s =~= rest);
        assert(t + js_unescaped(rest) =~= js_unescaped(rest));
    } else {
        let more = spelled(q, t.drop_first()) + rest;
        lemma_spelled(q, t.drop_first(), rest);
        if t[0] == q || t[0] == '\\' {
            assert(s.skip(2) =~= more);
            assert(simple_escape(t[0]) == t[0]);
        } else {
            assert(s.drop_first() =~= more);
        }
        assert(seq![t[0]] + (t.drop_first() + js_unescaped(rest)) =~= t + js_unescaped(rest));
    }
}

proof fn lemma_between_spelled(q: char, a: Seq<char>, piece: Seq<char>, value: Seq<char>, b: Seq<char>)
    requires
        is_quote(q),
        js_unescaped(piece + spelled(q, b)) == value + js_unescaped(spelled(q, b)),
    ensures
        js_value(seq![q] + spelled(q, a) + piece + spelled(q, b) + seq![q]) == a + value + b,
{
    let inner = spelled(q, a) + (piece + spelled(q, b));
    let whole = seq![q] + spelled(q, a) + piece + spelled(q, b) + seq![q];
    assert(whole.subrange(1, whole.len() - 1) =~= inner);
    lemma_spelled(q, a, piece + spelled(q, b));
    lemma_spelled(q, b, Seq::empty());
    assert(spelled(q, b) + Seq::<char>::empty() =~= spelled(q, b));
    assert(b + js_unescaped(Seq::<char>::empty()) =~= b);
    assert(a + (value + b) =~= a + value + b);
}

/// A literal has the text between its quotes as its value, in each of the three
/// quotes: a quote and a backslash that a backslash escapes stand for themselves,
/// and so does every other character.
pub proof fn law_quoted_text_round_trips(q: char, t: Seq<char>)
    requires
        is_quote(q),
    ensures
        js_value(seq![q] + spelled(q, t) + seq![q]) == t,
{
    let none = Seq::<char>::empty();
    assert(none + spelled(q, none) =~= none);
    lemma_between_spelled(q, t, none, none, none);
    assert(seq![q] + spelled(q, t) + none + spelled(q, none) + seq![q] =~= seq![q] + spelled(q, t)
        + seq![q]);
    assert(t + none + none =~= t);
}

/// Text that stands in no quotes is read like the text between quotes.
pub proof fn law_bare_text_is_read_too(q: char, t: Seq<char>)
    requires
        is_quote(q),
        t.len() > 0,
        !is_quote(t[0]),
    ensures
        js_value(spelled(q, t)) == t,
{
    lemma_spelled(q, t, Seq::empty());
    assert(spelled(q, t) + Seq::<char>::empty() =~= spelled(q, t));
    assert(t + js_unescaped(Seq::<char>::empty()) =~= t);
    assert(spelled(q, t)[0] == t[0] || spelled(q, t)[0] == '\\');
}

/// A backslash makes line breaks and the like of certain letters, and takes
/// every other character but `x` and `u` as it is, wherever in a literal it
/// stands.
pub proof fn law_letters_are_escaped(q: char, a: Seq<char>, letter: char, b: Seq<char>)
    requires
        is_quote(q),
        letter != 'x' && letter != 'u',
    ensures
        ({
            let value = js_value(
                seq![q] + spelled(q, a) + seq!['\\', letter] + spelled(q, b) + seq![q],
            );
            &&& letter == 'n' ==> value == a + seq!['\n'] + b
            &&& letter == 't' ==> value == a + seq!['\t'] + b
            &&& letter == 'r' ==> value == a + seq!['\r'] + b
            &&& letter == '0' ==> value == a + seq!['\0'] + b
            &&& letter == 'b' ==> value == a + seq!['\u{8}'] + b
            &&& letter == 'f' ==> value == a + seq!['\u{c}'] + b
            &&& letter == 'v' ==> value == a + seq!['\u{b}'] + b
            &&& !seq!['n', 't', 'r', '0', 'b', 'f', 'v'].contains(letter) ==> value == a
                + seq![letter] + b
        }),
{
    let s = seq!['\\', letter] + spelled(q, b);
    assert(s.skip(2) =~= spelled(q, b));
    lemma_between_spelled(q, a, seq!['\\', letter], seq![simple_escape(letter)], b);
    let named = seq!['n', 't', 'r', '0', 'b', 'f', 'v'];
    assert(named[0] == 'n' && named[1] == 't' && named[2] == 'r' && named[3] == '0' && named[4]
        == 'b' && named[5] == 'f' && named[6] == 'v');
}

/// Whether a character is the digit of a number below 16, in either case.
pub open spec fn is_digit_of(c: char, v: int) -> bool {
    ||| 0 <= v <= 9 && c as int == '0' as int + v
    ||| 10 <= v <= 15 && c as int == 'a' as int + v - 10
    ||| 10 <= v <= 15 && c as int == 'A' as int + v - 10
}

proof fn lemma_digit(c: char, v: int)
    requires
        is_digit_of(c, v),
    ensures
        hex_digit(c) == Some(v as nat),
{
}

proof fn lemma_digits(d: Seq<char>, c: char, v: int)
    requires
        is_digit_of(c, v),
        hex_digits(d) is Some,
    ensures
        hex_digits(d.push(c)) == Some((hex_digits(d)->0 * 16 + v) as nat),
{
    lemma_digit(c, v);
    assert(d.push(c).drop_last() =~= d);
}

/// `\xNN` stands for the character with that number.
pub proof fn law_two_digits_name_a_character(
    q: char,
    a: Seq<char>,
    h: char,
    l: char,
    high: int,
    low: int,
    b: Seq<char>,
)
    requires
        is_quote(q),
        is_digit_of(h, high),
        is_digit_of(l, low),
    ensures
        js_value(seq![q] + spelled(q, a) + seq!['\\', 'x', h, l] + spelled(q, b) + seq![q]) == a
            + seq![(16 * high + low) as char] + b,
{
    let piece = seq!['\\', 'x', h, l];
    let s = piece + spelled(q, b);
    let two = s.skip(2).take(2);
    let none = Seq::<char>::empty();
    assert(two =~= none.push(h).push(l));
    lemma_digits(none, h, high);
    lemma_digits(none.push(h), l, low);
    assert(s.skip(4) =~= spelled(q, b));
    assert(hex_value(two) == Some((16 * high + low) as nat));
    lemma_between_spelled(q, a, piece, seq![(16 * high + low) as char], b);
}

/// `\uNNNN` stands for the character with that number; the number of a
/// surrogate names none, and the escape stays as it is.
pub proof fn law_four_digits_name_a_character(
    q: char,
    a: Seq<char>,
    d: Seq<char>,
    v: Seq<int>,
    b: Seq<char>,
)
    requires
        is_quote(q),
        d.len() == 4,
        v.len() == 4,
        is_digit_of(d[0], v[0]),
        is_digit_of(d[1], v[1]),
        is_digit_of(d[2], v[2]),
        is_digit_of(d[3], v[3]),
    ensures
        ({
            let n = 4096 * v[0] + 256 * v[1] + 16 * v[2] + v[3];
            js_value(seq![q] + spelled(q, a) + (seq!['\\', 'u'] + d) + spelled(q, b) + seq![q])
                == a + (if 0xd800 <= n <= 0xdfff {
                seq!['\\', 'u'] + d
            } else {
                seq![n as char]
            }) + b
        }),
{
    let piece = seq!['\\', 'u'] + d;
    let s = piece + spelled(q, b);
    let rest = s.skip(2);
    let four = rest.take(4);
    let none = Seq::<char>::empty();
    let n = 4096 * v[0] + 256 * v[1] + 16 * v[2] + v[3];
    assert(four =~= none.push(d[0]).push(d[1]).push(d[2]).push(d[3]));
    lemma_digits(none, d[0], v[0]);
    lemma_digits(none.push(d[0]), d[1], v[1]);
    lemma_digits(none.push(d[0]).push(d[1]), d[2], v[2]);
    lemma_digits(none.push(d[0]).push(d[1]).push(d[2]), d[3], v[3]);
    assert(hex_value(four) == Some(n as nat));
    assert(rest[0] == d[0]);
    if 0xd800 <= n <= 0xdfff {
        assert(numeric_escape('u', rest) is None);
        assert(rest =~= d + spelled(q, b));
        lemma_plain(d, spelled(q, b));
        assert(seq!['\\', 'u'] + (d + js_unescaped(spelled(q, b))) =~= piece + js_unescaped(
            spelled(q, b),
        ));
        lemma_between_spelled(q, a, piece, piece, b);
    } else {
        assert(s.skip(6) =~= spelled(q, b));
        lemma_between_spelled(q, a, piece, seq![n as char], b);
    }
}

proof fn lemma_plain(d: Seq<char>, rest: Seq<char>)
    requires
        forall|i: int| 0 <= i < d.len() ==> #[trigger] d[i] != '\\',
    ensures
        js_unescaped(d + rest) == d + js_unescaped(rest),
    decreases d.len(),
{
    let s = d + rest;
    if d.len() == 0 {
        assert(s =~= rest);
        assert(d + js_unescaped(rest) =~= js_unescaped(rest));
    } else {
        lemma_plain(d.drop_first(), rest);
        assert(s.drop_first() =~= d.drop_first() + rest);
        assert(seq![d[0]] + (d.drop_first() + js_unescaped(rest)) =~= d + js_unescaped(rest));
    }
}

/// The number that hexadecimal digits spell.
pub open spec fn number_of(v: Seq<int>) -> int
    decreases v.len(),
{
    if v.len() == 0 {
        0
    } else {
        16 * number_of(v.drop_last()) + v.last()
    }
}

proof fn lemma_number(d: Seq<char>, v: Seq<int>)
    requires
        d.len() == v.len(),
        forall|i: int| 0 <= i < d.len() ==> is_digit_of(#[trigger] d[i], v[i]),
    ensures
        hex_digits(d) == Some(number_of(v) as nat),
        number_of(v) >= 0,
    decreases d.len(),
{
    if d.len() > 0 {
        assert forall|i: int| 0 <= i < d.drop_last().len() implies is_digit_of(
            #[trigger] d.drop_last()[i],
            v.drop_last()[i],
        ) by {
            assert(is_digit_of(d[i], v[i]));
        }
        lemma_number(d.drop_last(), v.drop_last());
        assert(is_digit_of(d[d.len() - 1], v[d.len() - 1]));
        lemma_digit(d.last(), v.last());
    }
}

/// `\u{N…}` stands for the character with that number; a number that names
/// none stays as it is, and so does an escape without digits.
pub proof fn law_braced_digits_name_a_character(
    q: char,
    a: Seq<char>,
    d: Seq<char>,
    v: Seq<int>,
    b: Seq<char>,
)
    requires
        is_quote(q),
        d.len() == v.len(),
        forall|i: int| 0 <= i < d.len() ==> is_digit_of(#[trigger] d[i], v[i]),
    ensures
        ({
            let n = number_of(v);
            let piece = seq!['\\', 'u', '{'] + d + seq!['}'];
            js_value(seq![q] + spelled(q, a) + piece + spelled(q, b) + seq![q]) == a + (if d.len()
                > 0 && n <= 0x10ffff && !(0xd800 <= n <= 0xdfff) {
                seq![n as char]
            } else {
                piece
            }) + b
        }),
{
    let n = number_of(v);
    let piece = seq!['\\', 'u', '{'] + d + seq!['}'];
    let s = piece + spelled(q, b);
    let rest = s.skip(2);
    lemma_number(d, v);
    lemma_position_of(rest.drop_first(), '}');
    assert forall|i: int| 0 <= i < d.len() implies #[trigger] d[i] != '}' && d[i] != '\\' by {
        assert(is_digit_of(d[i], v[i]));
    }
    assert forall|j: int| 0 <= j < d.len() implies rest.drop_first()[j] != '}' by {
        assert(rest.drop_first()[j] == d[j]);
    }
    assert(rest.drop_first()[d.len() as int] == '}');
    assert(position_of(rest.drop_first(), '}') == Some(d.len() as int));
    assert(rest.subrange(1, d.len() as int + 1) =~= d);
    if d.len() > 0 && n <= 0x10ffff && !(0xd800 <= n <= 0xdfff) {
        assert(s.skip(d.len() as int + 4) =~= spelled(q, b));
        lemma_between_spelled(q, a, piece, seq![n as char], b);
    } else {
        assert(numeric_escape('u', rest) is None);
        let shown = seq!['{'] + d + seq!['}'];
        assert(rest =~= shown + spelled(q, b));
        assert forall|i: int| 0 <= i < shown.len() implies #[trigger] shown[i] != '\\' by {
            if 0 < i < shown.len() - 1 {
                assert(shown[i] == d[i - 1]);
            }
        }
        lemma_plain(shown, spelled(q, b));
        assert(seq!['\\', 'u'] + (shown + js_unescaped(spelled(q, b))) =~= piece + js_unescaped(
            spelled(q, b),
        ));
        lemma_between_spelled(q, a, piece, piece, b);
    }
}

/// A malformed numeric escape stays as it is: what follows `\x` or `\u` is
/// no digit.
pub proof fn law_malformed_escapes_stay(q: char, a: Seq<char>, letter: char, c: char, b: Seq<char>)
    requires
        is_quote(q),
        letter == 'x' || letter == 'u',
        forall|v: int| !is_digit_of(c, v),
        c != '\\',
        c != '{',
    ensures
        js_value(seq![q] + spelled(q, a) + seq!['\\', letter, c] + spelled(q, b) + seq![q]) == a
            + seq!['\\', letter, c] + b,
{
    let piece = seq!['\\', letter, c];
    let s = piece + spelled(q, b);
    let rest = s.skip(2);
    assert(hex_digit(c) is None) by {
        if hex_digit(c) is Some {
            assert(is_digit_of(c, hex_digit(c)->0 as int));
        }
    }
    let n: int = if letter == 'x' {
        2
    } else {
        4
    };
    if rest.len() >= n {
        let some = rest.take(n);
        assert(some[0] == c);
        if hex_digits(some) is Some {
            lemma_hex_grows(some, 1);
            assert(some.take(1).last() == c);
        }
    }
    assert(numeric_escape(letter, rest) is None);
    assert(rest =~= seq![c] + spelled(q, b));
    lemma_plain(seq![c], spelled(q, b));
    assert(seq!['\\', letter] + (seq![c] + js_unescaped(spelled(q, b))) =~= piece + js_unescaped(
        spelled(q, b),
    ));
    lemma_between_spelled(q, a, piece, piece, b);
}

proof fn lemma_escaped_concat(a: Seq<char>, b: Seq<char>)
    ensures
        js_escaped(a + b) == js_escaped(a) + js_escaped(b),
        line_escaped(a + b) == line_escaped(a) + line_escaped(b),
        rust_escaped(a + b) == rust_escaped(a) + rust_escaped(b),
    decreases b.len(),
{
    if b.len() == 0 {
        assert(a + b =~= a);
        assert(js_escaped(a) + js_escaped(b) =~= js_escaped(a));
        assert(line_escaped(a) + line_escaped(b) =~= line_escaped(a));
        assert(rust_escaped(a) + rust_escaped(b) =~= rust_escaped(a));
    } else {
        lemma_escaped_concat(a, b.drop_last());
        assert((a + b).drop_last() =~= a + b.drop_last());
        assert(js_escaped(a + b) =~= js_escaped(a) + js_escaped(b));
        assert(line_escaped(a + b) =~= line_escaped(a) + line_escaped(b));
        assert(rust_escaped(a + b) =~= rust_escaped(a) + rust_escaped(b));
    }
}

proof fn lemma_escaped_one(c: char)
    ensures
        js_escaped(seq![c]) == js_escape(c),
        line_escaped(seq![c]) == line_escape(c),
        rust_escaped(seq![c]) == rust_escape(c),
{
    let none = Seq::<char>::empty();
    assert(seq![c].drop_last() =~= none);
    assert(js_escaped(none) =~= none && line_escaped(none) =~= none && rust_escaped(none) =~= none);
    assert(none + js_escape(c) =~= js_escape(c));
    assert(none + line_escape(c) =~= line_escape(c));
    assert(none + rust_escape(c) =~= rust_escape(c));
}

/// Text made safe for a line comment is the text with each of its four line
/// terminators replaced: a carriage return or line feed by a space, the two
/// others by the escapes that name them. Every other character stays, in its
/// order.
pub proof fn law_line_safe_replaces_line_ends(a: Seq<char>, c: char, b: Seq<char>)
    ensures
        line_escaped(a + seq![c] + b) == line_escaped(a) + (if c == '\n' || c == '\r' {
            seq![' ']
        } else if c == '\u{2028}' {
            seq!['\\', 'u', '2', '0', '2', '8']
        } else if c == '\u{2029}' {
            seq!['\\', 'u', '2', '0', '2', '9']
        } else {
            seq![c]
        }) + line_escaped(b),
        line_escaped(Seq::empty()) == Seq::<char>::empty(),
{
    lemma_escaped_concat(a + seq![c], b);
    lemma_escaped_concat(a, seq![c]);
    lemma_escaped_one(c);
}

/// What a Rust literal that is a format string shows: a backslash takes the
/// next character as it is, and a doubled brace is one.
pub open spec fn formatted(s: Seq<char>) -> Seq<char>
    decreases s.len(),
{
    if s.len() == 0 {
        Seq::empty()
    } else if s.len() >= 2 && (s[0] == '\\' || (s[0] == '{' && s[1] == '{') || (s[0] == '}' && s[1]
        == '}')) {
        seq![s[1]] + formatted(s.skip(2))
    } else {
        seq![s[0]] + formatted(s.drop_first())
    }
}

proof fn lemma_formatted(s: Seq<char>, rest: Seq<char>)
    ensures
        formatted(rust_escaped(s) + rest) == s + formatted(rest),
    decreases s.len(),
{
    if s.len() == 0 {
        assert(rust_escaped(s) + rest =~= rest);
        assert(s + formatted(rest) =~= formatted(rest));
    } else {
        let c = s[0];
        let tail = s.drop_first();
        lemma_formatted(tail, rest);
        lemma_escaped_concat(seq![c], tail);
        lemma_escaped_one(c);
        assert(seq![c] + tail =~= s);
        let whole = rust_escaped(s) + rest;
        let more = rust_escaped(tail) + rest;
        assert(whole =~= rust_escape(c) + more);
        if c == '\\' || c == '"' || c == '{' || c == '}' {
            assert(whole.skip(2) =~= more);
        } else {
            assert(whole.drop_first() =~= more);
        }
        assert(seq![c] + (tail + formatted(rest)) =~= s + formatted(rest));
    }
}

/// A scaffolded Rust test shows the text that it was written from: the literal
/// that [`rust_string`] writes, read as a format string, is the text.
pub proof fn law_rust_string_round_trips(s: Seq<char>)
    ensures
        formatted(rust_escaped(s)) == s,
{
    lemma_formatted(s, Seq::empty());
    assert(rust_escaped(s) + Seq::<char>::empty() =~= rust_escaped(s));
    assert(s + formatted(Seq::<char>::empty()) =~= s);
}

/// A literal that a scaffold writes is neither ended nor continued by the text
/// in it: every double quote in it has a backslash before it, and no character
/// of it ends a line in JavaScript but those that the text holds as line feeds
/// or carriage returns.
pub proof fn law_js_string_ends_no_literal(a: Seq<char>, c: char, b: Seq<char>)
    ensures
        js_escaped(a + seq![c] + b) == js_escaped(a) + (if c == '"' || c == '\\' {
            seq!['\\', c]
        } else if c == '\u{2028}' {
            seq!['\\', 'u', '2', '0', '2', '8']
        } else if c == '\u{2029}' {
            seq!['\\', 'u', '2', '0', '2', '9']
        } else {
            seq![c]
        }) + js_escaped(b),
        js_escaped(Seq::empty()) == Seq::<char>::empty(),
{
    lemma_escaped_concat(a + seq![c], b);
    lemma_escaped_concat(a, seq![c]);
    lemma_escaped_one(c);
}

} // verus!
