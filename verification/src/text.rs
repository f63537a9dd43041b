//! Decimal numbers, substring search and character literals in JSON text.
//!
//! Text is handled as a sequence of characters; every position is a character position.
use vstd::prelude::*;
use vstd::string::*;

verus! {

/// `String::push` appends one character to the end of the string.
pub assume_specification[ String::push ](s: &mut String, c: char)
    ensures
        final(s)@ == old(s)@.push(c),
;

/// `char::from_u32` gives the character with the code `code`, and `None` exactly where `code` is
/// not a Unicode scalar value.
pub assume_specification[ char::from_u32 ](code: u32) -> (c: Option<char>)
    ensures
        match c {
            Some(ch) => is_scalar(code as nat) && ch as int == code,
            None => !is_scalar(code as nat),
        },
;

/// Whether `code` is a Unicode scalar value, the code of some character.
pub open spec fn is_scalar(code: nat) -> bool {
    code <= 0xd7ff || 0xe000 <= code <= 0x10ffff
}

/// Whether `c` is one of the ten ASCII digits.
pub open spec fn is_digit(c: char) -> bool {
    '0' <= c && c <= '9'
}

/// Tests whether `c` is one of the ASCII characters.
pub fn is_ascii(c: char) -> (yes: bool)
    ensures
        yes == ((c as int) < 0x80),
{
    (c as u32) < 0x80
}

/// The character that writes the decimal digit `d`.
pub open spec fn digit_char(d: nat) -> char {
    (48 + d) as char
}

/// The number that the decimal digit `c` stands for.
pub open spec fn digit_value(c: char) -> nat {
    (c as nat - 48) as nat
}

/// The decimal digits of `n`, without leading zeros.
pub open spec fn decimal(n: nat) -> Seq<char>
    decreases n,
{
    if n < 10 {
        seq![digit_char(n)]
    } else {
        decimal(n / 10).push(digit_char(n % 10))
    }
}

/// The number that a sequence of decimal digits stands for.
pub open spec fn decimal_value(s: Seq<char>) -> nat
    decreases s.len(),
{
    if s.len() == 0 {
        0
    } else {
        decimal_value(s.drop_last()) * 10 + digit_value(s.last())
    }
}

/// The length of the longest run of digits at the start of `s`.
pub open spec fn digit_run(s: Seq<char>) -> nat
    decreases s.len(),
{
    if s.len() > 0 && is_digit(s[0]) {
        1 + digit_run(s.skip(1))
    } else {
        0
    }
}

/// The number that the run of digits at the start of `s` stands for, if there is at least one
/// digit and the number is at most `max`.
pub open spec fn leading_number(s: Seq<char>, max: nat) -> Option<nat> {
    let run = digit_run(s);
    let value = decimal_value(s.take(run as int));
    if run > 0 && value <= max {
        Some(value)
    } else {
        None
    }
}

/// Whether `pattern` stands in `s` at position `at`.
pub open spec fn occurs_at(s: Seq<char>, pattern: Seq<char>, at: int) -> bool {
    0 <= at && at + pattern.len() <= s.len() && s.subrange(at, at + pattern.len()) == pattern
}

/// What follows the first occurrence of `pattern` in `s`.
pub open spec fn after(s: Seq<char>, pattern: Seq<char>) -> Option<Seq<char>>
    decreases s.len(),
{
    if occurs_at(s, pattern, 0) {
        Some(s.skip(pattern.len() as int))
    } else if s.len() == 0 {
        None
    } else {
        after(s.skip(1), pattern)
    }
}

/// The character that writes the hexadecimal digit `d`, in lower case.
pub open spec fn hex_char(d: nat) -> char {
    if d < 10 {
        (48 + d) as char
    } else {
        (87 + d) as char
    }
}

/// The number that a hexadecimal digit of either case stands for.
pub open spec fn hex_value(c: char) -> Option<nat> {
    if '0' <= c && c <= '9' {
        Some((c as nat - 48) as nat)
    } else if 'a' <= c && c <= 'f' {
        Some((c as nat - 87) as nat)
    } else if 'A' <= c && c <= 'F' {
        Some((c as nat - 55) as nat)
    } else {
        None
    }
}

/// The number that a sequence of hexadecimal digits stands for, if all of them are such digits.
pub open spec fn hex_digits_value(s: Seq<char>) -> Option<nat>
    decreases s.len(),
{
    if s.len() == 0 {
        Some(0)
    } else {
        match (hex_digits_value(s.drop_last()), hex_value(s.last())) {
            (Some(v), Some(d)) => Some(v * 16 + d),
            _ => None,
        }
    }
}

/// The number that four characters write in base sixteen. The first of them may be a plus sign.
pub open spec fn hex_code(s: Seq<char>) -> Option<nat> {
    if s[0] == '+' {
        hex_digits_value(s.skip(1))
    } else {
        hex_digits_value(s)
    }
}

/// How a character is written inside a JSON string.
pub open spec fn escaped_char(c: char) -> Seq<char> {
    if c == '"' {
        seq!['\\', '"']
    } else if c == '\\' {
        seq!['\\', '\\']
    } else if c == '\n' {
        seq!['\\', 'n']
    } else if c == '\r' {
        seq!['\\', 'r']
    } else if c == '\t' {
        seq!['\\', 't']
    } else if (c as nat) < 0x20 {
        seq!['\\', 'u', '0', '0', hex_char(c as nat / 16), hex_char(c as nat % 16)]
    } else {
        seq![c]
    }
}

/// How a text is written inside a JSON string: character by character.
pub open spec fn escaped(s: Seq<char>) -> Seq<char>
    decreases s.len(),
{
    if s.len() == 0 {
        seq![]
    } else {
        escaped(s.drop_last()) + escaped_char(s.last())
    }
}

/// A text as a JSON string, with its quotes.
pub open spec fn json_string(s: Seq<char>) -> Seq<char> {
    seq!['"'] + escaped(s) + seq!['"']
}

/// Reads the one character that a JSON string at the start of `s` holds.
///
/// Gives the character and the number of characters of `s` passed over: the opening quote and
/// the escape sequence where the character is escaped, and the opening quote, the character and
/// the closing quote where it stands for itself. `None` where no quote opens the string, where
/// nothing follows it, and where a `\u` is not followed by the code of a character.
pub open spec fn json_char(s: Seq<char>) -> Option<(char, nat)> {
    if s.len() == 0 || s[0] != '"' {
        None
    } else if s.len() >= 3 && s[1] == '\\' && s[2] == '"' {
        Some(('"', 3))
    } else if s.len() >= 3 && s[1] == '\\' && s[2] == '\\' {
        Some(('\\', 3))
    } else if s.len() >= 3 && s[1] == '\\' && s[2] == 'n' {
        Some(('\n', 3))
    } else if s.len() >= 3 && s[1] == '\\' && s[2] == 'r' {
        Some(('\r', 3))
    } else if s.len() >= 3 && s[1] == '\\' && s[2] == 't' {
        Some(('\t', 3))
    } else if s.len() >= 3 && s[1] == '\\' && s[2] == 'u' {
        if s.len() < 7 {
            None
        } else {
            match hex_code(s.subrange(3, 7)) {
                Some(code) => if is_scalar(code) {
                    Some((code as char, 7))
                } else {
                    None
                },
                None => None,
            }
        }
    } else if s.len() < 2 {
        None
    } else {
        Some((s[1], 3))
    }
}

/// How many bytes a character takes up in UTF-8.
pub open spec fn utf8_len_of(c: char) -> nat {
    if (c as int) < 0x80 {
        1
    } else if (c as int) < 0x800 {
        2
    } else if (c as int) < 0x10000 {
        3
    } else {
        4
    }
}

/// The character that the JSON string at the start of `s` holds, and how many bytes of the text it
/// takes up: as many as `json_char` says in characters, with the bytes of a character that stands
/// for itself in place of one. All others that are passed over are ASCII, and so is what the short
/// escapes stand for.
pub open spec fn json_char_bytes(s: Seq<char>) -> Option<(char, nat)> {
    match json_char(s) {
        Some((c, taken)) => Some((c, if taken == 3 {
            2 + utf8_len_of(c)
        } else {
            taken
        })),
        None => None,
    }
}

/// The characters of a string.
pub fn chars_of(text: &str) -> (chars: Vec<char>)
    ensures
        chars@ == text@,
{
    let mut chars: Vec<char> = Vec::new();
    for c in it: text.chars()
        invariant
            it.seq() == text@,
            chars@ == text@.take(it.index() as int),
    {
        chars.push(c);
        assert(text@.take(it.index() + 1) == text@.take(it.index() as int).push(c));
    }
    assert(text@.take(text@.len() as int) == text@);
    chars
}

/// Appends the decimal digits of `n`.
pub fn push_decimal(out: &mut String, n: usize)
    ensures
        final(out)@ == old(out)@ + decimal(n as nat),
    decreases n,
{
    if n >= 10 {
        push_decimal(out, n / 10);
    }
    let d: u8 = (n % 10) as u8;
    out.push((48u8 + d) as char);
    assert(out@ =~= old(out)@ + decimal(n as nat));
}

/// Finds the end of the first occurrence of `pattern` at or after `from`.
pub fn find_end(s: &[char], pattern: &[char], from: usize) -> (end: Option<usize>)
    requires
        from <= s@.len(),
    ensures
        match (end, after(s@.skip(from as int), pattern@)) {
            (Some(i), Some(rest)) => from <= i <= s@.len() && rest == s@.skip(i as int),
            (None, None) => true,
            _ => false,
        },
{
    let mut i: usize = from;
    loop
        invariant
            from <= i <= s@.len(),
            after(s@.skip(from as int), pattern@) == after(s@.skip(i as int), pattern@),
        decreases s@.len() - i,
    {
        proof {
            assert(i + pattern@.len() <= s@.len() ==> s@.skip(i as int).subrange(
                0,
                pattern@.len() as int,
            ) == s@.subrange(i as int, i + pattern@.len()));
        }
        if stands_at(s, pattern, i) {
            assert(s@.skip(i as int).skip(pattern@.len() as int) == s@.skip(i + pattern@.len()));
            assert(i + pattern@.len() <= s.len());
            return Some(i + pattern.len());
        }
        if i == s.len() {
            return None;
        }
        assert(s@.skip(i as int).skip(1) == s@.skip(i + 1));
        i += 1;
    }
}

/// Whether `pattern` stands in `s` at position `at`.
pub fn stands_at(s: &[char], pattern: &[char], at: usize) -> (stands: bool)
    requires
        at <= s@.len(),
    ensures
        stands == occurs_at(s@, pattern@, at as int),
{
    if pattern.len() > s.len() - at {
        return false;
    }
    let mut k: usize = 0;
    while k < pattern.len()
        invariant
            k <= pattern@.len(),
            at + pattern@.len() <= s.len(),
            forall|j: int| 0 <= j < k ==> s@[at + j] == pattern@[j],
        decreases pattern@.len() - k,
    {
        if s[at + k] != pattern[k] {
            assert(s@.subrange(at as int, at + pattern@.len())[k as int] != pattern@[k as int]);
            return false;
        }
        k += 1;
    }
    assert(s@.subrange(at as int, at + pattern@.len()) =~= pattern@);
    true
}

/// The end of the run of digits that starts at `from`.
pub fn digits_end(s: &[char], from: usize) -> (end: usize)
    requires
        from <= s@.len(),
    ensures
        end == from + digit_run(s@.skip(from as int)),
        from <= end <= s@.len(),
{
    let mut end: usize = from;
    while end < s.len() && '0' <= s[end] && s[end] <= '9'
        invariant
            from <= end <= s@.len(),
            digit_run(s@.skip(from as int)) == (end - from) + digit_run(s@.skip(end as int)),
        decreases s@.len() - end,
    {
        assert(s@.skip(end as int).skip(1) == s@.skip(end + 1));
        end += 1;
    }
    end
}

/// The number that the digits from `from` on stand for, if there are any and it is at most `max`.
pub fn number_at(s: &[char], from: usize, max: usize) -> (number: Option<usize>)
    requires
        from <= s@.len(),
    ensures
        match (number, leading_number(s@.skip(from as int), max as nat)) {
            (Some(n), Some(v)) => n == v,
            (None, None) => true,
            _ => false,
        },
{
    let end = digits_end(s, from);
    if end == from {
        return None;
    }
    let ghost digits = s@.skip(from as int).take(end - from);
    proof {
        lemma_digit_run_are_digits(s@.skip(from as int));
    }
    let mut value: usize = 0;
    let mut i: usize = from;
    while i < end
        invariant
            from <= i <= end <= s@.len(),
            digits == s@.skip(from as int).take(end - from),
            forall|k: int| 0 <= k < digits.len() ==> is_digit(#[trigger] digits[k]),
            digit_run(s@.skip(from as int)) == end - from,
            value == decimal_value(digits.take(i - from)),
            value <= max,
        decreases end - i,
    {
        assert(s@[i as int] == digits[i - from]);
        let d: usize = s[i] as usize - 48;
        assert(digits.take(i + 1 - from).drop_last() == digits.take(i - from));
        assert(decimal_value(digits.take(i + 1 - from)) == value * 10 + d);
        if value > max / 10 || d > max - value * 10 {
            proof {
                lemma_decimal_value_grows(digits, i + 1 - from);
                assert(value * 10 + d > max);
            }
            return None;
        }
        value = value * 10 + d;
        i += 1;
    }
    assert(digits.take(end - from) == digits);
    Some(value)
}

/// Appends the way in which `c` is written inside a JSON string.
fn push_escaped(out: &mut String, c: char)
    ensures
        final(out)@ == old(out)@ + escaped_char(c),
{
    if c == '"' {
        out.push('\\');
        out.push('"');
    } else if c == '\\' {
        out.push('\\');
        out.push('\\');
    } else if c == '\n' {
        out.push('\\');
        out.push('n');
    } else if c == '\r' {
        out.push('\\');
        out.push('r');
    } else if c == '\t' {
        out.push('\\');
        out.push('t');
    } else if (c as u32) < 0x20 {
        out.push('\\');
        out.push('u');
        out.push('0');
        out.push('0');
        out.push(hex_digit((c as u32 / 16) as u8));
        out.push(hex_digit((c as u32 % 16) as u8));
    } else {
        out.push(c);
    }
    assert(out@ =~= old(out)@ + escaped_char(c));
}

/// The character that writes the hexadecimal digit `d`, in lower case.
fn hex_digit(d: u8) -> (c: char)
    requires
        d < 16,
    ensures
        c == hex_char(d as nat),
{
    if d < 10 {
        (48 + d) as char
    } else {
        (87 + d) as char
    }
}

/// Writes a text as a JSON string, with its quotes.
pub fn json_escape(s: &str) -> (out: String)
    ensures
        out@ == json_string(s@),
{
    let mut out = String::new();
    out.push('"');
    for c in it: s.chars()
        invariant
            it.seq() == s@,
            out@ == seq!['"'] + escaped(s@.take(it.index() as int)),
    {
        push_escaped(&mut out, c);
        assert(s@.take(it.index() + 1).drop_last() == s@.take(it.index() as int));
        assert(out@ =~= seq!['"'] + escaped(s@.take(it.index() + 1)));
    }
    assert(s@.take(s@.len() as int) == s@);
    out.push('"');
    assert(out@ =~= json_string(s@));
    out
}

/// The number that a hexadecimal digit stands for.
fn hex_digit_value(c: char) -> (d: Option<u32>)
    ensures
        match (d, hex_value(c)) {
            (Some(n), Some(v)) => n == v && n < 16,
            (None, None) => true,
            _ => false,
        },
{
    if '0' <= c && c <= '9' {
        Some(c as u32 - 48)
    } else if 'a' <= c && c <= 'f' {
        Some(c as u32 - 87)
    } else if 'A' <= c && c <= 'F' {
        Some(c as u32 - 55)
    } else {
        None
    }
}

/// The number that the four characters at `at` write in base sixteen.
fn hex_code_at(s: &[char], at: usize) -> (code: Option<u32>)
    requires
        at + 4 <= s@.len(),
    ensures
        match (code, hex_code(s@.subrange(at as int, at + 4))) {
            (Some(n), Some(v)) => n == v,
            (None, None) => true,
            _ => false,
        },
{
    let ghost four = s@.subrange(at as int, at + 4);
    let first: usize = if s[at] == '+' {
        1
    } else {
        0
    };
    let ghost digits = four.skip(first as int);
    assert(first == 0 ==> digits == four);
    let mut code: u32 = 0;
    let mut k: usize = first;
    assert(digits.take(0) == Seq::<char>::empty());
    while k < 4
        invariant
            first <= k <= 4,
            first <= 1,
            at + 4 <= s.len(),
            four == s@.subrange(at as int, at + 4),
            digits == four.skip(first as int),
            hex_code(four) == hex_digits_value(digits),
            hex_digits_value(digits.take(k - first)) == Some(code as nat),
            k == 0 ==> code == 0,
            k == 1 ==> code < 0x10,
            k == 2 ==> code < 0x100,
            k == 3 ==> code < 0x1000,
            k == 4 ==> code < 0x10000,
        decreases 4 - k,
    {
        assert(digits.take(k + 1 - first).drop_last() == digits.take(k - first));
        assert(digits.take(k + 1 - first).last() == s@[at + k]);
        match hex_digit_value(s[at + k]) {
            Some(d) => {
                code = code * 16 + d;
            },
            None => {
                proof {
                    lemma_hex_digits_stop(digits, k + 1 - first);
                }
                return None;
            },
        }
        k += 1;
    }
    assert(digits.take(4 - first) == digits);
    Some(code)
}

/// Reads the one character that the JSON string at `at` holds, and how many characters of the
/// text it takes up (see `json_char`).
pub fn json_char_at(s: &[char], at: usize) -> (parsed: Option<(char, usize)>)
    requires
        at <= s@.len(),
    ensures
        match (parsed, json_char(s@.skip(at as int))) {
            (Some((c, used)), Some((ch, taken))) => c == ch && used == taken,
            (None, None) => true,
            _ => false,
        },
{
    let ghost rest = s@.skip(at as int);
    let left: usize = s.len() - at;
    if left == 0 || s[at] != '"' {
        return None;
    }
    if left >= 3 && s[at + 1] == '\\' {
        let c = s[at + 2];
        if c == '"' {
            return Some(('"', 3));
        }
        if c == '\\' {
            return Some(('\\', 3));
        }
        if c == 'n' {
            return Some(('\n', 3));
        }
        if c == 'r' {
            return Some(('\r', 3));
        }
        if c == 't' {
            return Some(('\t', 3));
        }
        if c == 'u' {
            if left < 7 {
                return None;
            }
            assert(rest.subrange(3, 7) == s@.subrange(at + 3, at + 7));
            let code = match hex_code_at(s, at + 3) {
                Some(code) => code,
                None => {
                    return None;
                },
            };
            assert(hex_code(rest.subrange(3, 7)) == Some(code as nat));
            return match char::from_u32(code) {
                Some(ch) => {
                    assert(code as nat as char == ch);
                    Some((ch, 7))
                },
                None => None,
            };
        }
    }
    if left < 2 {
        return None;
    }
    Some((s[at + 1], 3))
}

/// How many bytes a character takes up.
fn utf8_len(c: char) -> (n: usize)
    ensures
        n == utf8_len_of(c),
{
    if (c as u32) < 0x80 {
        1
    } else if (c as u32) < 0x800 {
        2
    } else if (c as u32) < 0x10000 {
        3
    } else {
        4
    }
}

/// Reads the one character that the JSON string at the start of `s` holds, and how many bytes of
/// the text it takes up.
pub fn parse_json_char(s: &str) -> (parsed: Option<(char, usize)>)
    ensures
        match (parsed, json_char_bytes(s@)) {
            (Some((c, used)), Some((ch, taken))) => c == ch && used == taken,
            (None, None) => true,
            _ => false,
        },
{
    let chars = chars_of(s);
    assert(chars@.skip(0) == chars@);
    match json_char_at(&chars, 0) {
        Some((c, used)) => if used == 3 {
            Some((c, 2 + utf8_len(c)))
        } else {
            Some((c, used))
        },
        None => None,
    }
}

/// What follows a pattern is shorter than the text by the pattern at least.
pub proof fn lemma_after_shorter(s: Seq<char>, pattern: Seq<char>)
    ensures
        match after(s, pattern) {
            Some(rest) => rest.len() + pattern.len() <= s.len(),
            None => true,
        },
    decreases s.len(),
{
    if !occurs_at(s, pattern, 0) && s.len() > 0 {
        lemma_after_shorter(s.skip(1), pattern);
    }
}

proof fn lemma_decimal(n: nat)
    ensures
        decimal(n).len() > 0,
        decimal_value(decimal(n)) == n,
        forall|k: int| 0 <= k < decimal(n).len() ==> is_digit(#[trigger] decimal(n)[k]),
    decreases n,
{
    if n < 10 {
        reveal_with_fuel(decimal_value, 2);
        assert(decimal(n).drop_last() =~= Seq::<char>::empty());
    } else {
        lemma_decimal(n / 10);
        assert(decimal(n).drop_last() =~= decimal(n / 10));
    }
}

proof fn lemma_digit_run_of(digits: Seq<char>, rest: Seq<char>)
    requires
        forall|k: int| 0 <= k < digits.len() ==> is_digit(#[trigger] digits[k]),
        rest.len() > 0 ==> !is_digit(rest[0]),
    ensures
        digit_run(digits + rest) == digits.len(),
    decreases digits.len(),
{
    if digits.len() > 0 {
        assert(is_digit(digits[0]));
        lemma_digit_run_of(digits.skip(1), rest);
        assert((digits + rest).skip(1) =~= digits.skip(1) + rest);
    } else {
        assert(digits + rest =~= rest);
    }
}

/// Decimal digits are read as the number that they write, unless it is too large.
pub proof fn lemma_decimal_number(n: nat, rest: Seq<char>, max: nat)
    requires
        rest.len() > 0 ==> !is_digit(rest[0]),
    ensures
        leading_number(decimal(n) + rest, max) == (if n <= max {
            Some(n)
        } else {
            None
        }),
{
    lemma_decimal(n);
    lemma_digit_run_of(decimal(n), rest);
    assert((decimal(n) + rest).take(decimal(n).len() as int) =~= decimal(n));
}

/// A number written in decimal is read back, up to the first character that is no digit.
pub proof fn lemma_leading_number_of_decimal(n: nat, rest: Seq<char>, max: nat)
    requires
        n <= max,
        rest.len() > 0,
        !is_digit(rest[0]),
    ensures
        leading_number(decimal(n) + rest, max) == Some(n),
        digit_run(decimal(n) + rest) == decimal(n).len(),
        (decimal(n) + rest).skip(decimal(n).len() as int) == rest,
{
    lemma_decimal(n);
    lemma_digit_run_of(decimal(n), rest);
    assert((decimal(n) + rest).take(decimal(n).len() as int) =~= decimal(n));
    assert((decimal(n) + rest).skip(decimal(n).len() as int) =~= rest);
}

/// No part of a number written in decimal is a quote.
pub proof fn lemma_decimal_without_quotes(n: nat)
    ensures
        forall|k: int| 0 <= k < decimal(n).len() ==> #[trigger] decimal(n)[k] != '"',
{
    lemma_decimal(n);
    assert forall|k: int| 0 <= k < decimal(n).len() implies #[trigger] decimal(n)[k] != '"' by {
        assert(is_digit(decimal(n)[k]));
    }
}

/// Where `pattern` stands in a text, the text has its characters.
pub proof fn lemma_occurs_index(s: Seq<char>, pattern: Seq<char>, at: int, k: int)
    requires
        occurs_at(s, pattern, at),
        0 <= k < pattern.len(),
    ensures
        s[at + k] == pattern[k],
{
    assert(s.subrange(at, at + pattern.len())[k] == s[at + k]);
}

/// A search passes over a prefix in which `pattern` starts nowhere.
pub proof fn lemma_after_prefix(prefix: Seq<char>, rest: Seq<char>, pattern: Seq<char>)
    requires
        forall|i: int| 0 <= i < prefix.len() ==> !#[trigger] occurs_at(prefix + rest, pattern, i),
    ensures
        after(prefix + rest, pattern) == after(rest, pattern),
    decreases prefix.len(),
{
    if prefix.len() == 0 {
        assert(prefix + rest =~= rest);
    } else {
        let whole = prefix + rest;
        assert(whole.skip(1) =~= prefix.skip(1) + rest);
        assert forall|i: int| 0 <= i < prefix.skip(1).len() implies !#[trigger] occurs_at(
            prefix.skip(1) + rest,
            pattern,
            i,
        ) by {
            assert(!occurs_at(whole, pattern, i + 1));
            if i + 1 + pattern.len() <= whole.len() {
                assert(whole.subrange(i + 1, i + 1 + pattern.len()) =~= whole.skip(1).subrange(
                    i,
                    i + pattern.len(),
                ));
            }
        }
        lemma_after_prefix(prefix.skip(1), rest, pattern);
        assert(!occurs_at(whole, pattern, 0));
    }
}

/// A search passes over a prefix without the first character of `pattern`.
pub proof fn lemma_after_plain_prefix(prefix: Seq<char>, rest: Seq<char>, pattern: Seq<char>)
    requires
        pattern.len() > 0,
        forall|i: int| 0 <= i < prefix.len() ==> #[trigger] prefix[i] != pattern[0],
    ensures
        after(prefix + rest, pattern) == after(rest, pattern),
{
    assert forall|i: int| 0 <= i < prefix.len() implies !#[trigger] occurs_at(
        prefix + rest,
        pattern,
        i,
    ) by {
        if occurs_at(prefix + rest, pattern, i) {
            lemma_occurs_index(prefix + rest, pattern, i, 0);
            assert(prefix[i] != pattern[0]);
        }
    }
    lemma_after_prefix(prefix, rest, pattern);
}

/// A search ends at once where the text starts with `pattern`.
pub proof fn lemma_after_hit(rest: Seq<char>, pattern: Seq<char>)
    ensures
        after(pattern + rest, pattern) == Some(rest),
{
    assert((pattern + rest).subrange(0, pattern.len() as int) =~= pattern);
    assert((pattern + rest).skip(pattern.len() as int) =~= rest);
}

/// A character written as a JSON string is read back. What is left unread is what follows the
/// string, after its closing quote where the character is escaped.
pub proof fn lemma_json_char_of_string(c: char, rest: Seq<char>)
    ensures
        match json_char(json_string(seq![c]) + rest) {
            Some((ch, used)) => {
                let whole = json_string(seq![c]) + rest;
                &&& ch == c
                &&& 1 <= used <= whole.len()
                &&& (whole[used - 1] as int) < 0x80
                &&& whole.skip(used as int) == rest || whole.skip(used as int) == seq!['"'] + rest
            },
            None => false,
        },
{
    reveal_with_fuel(escaped, 2);
    let one = seq![c];
    assert(one.drop_last() =~= Seq::<char>::empty());
    assert(escaped(one) =~= escaped_char(c));
    let whole = json_string(one) + rest;
    assert(json_string(one) =~= seq!['"'] + escaped_char(c) + seq!['"']);
    if c == '"' || c == '\\' || c == '\n' || c == '\r' || c == '\t' {
        assert(whole[1] == '\\');
        assert(whole.skip(3) =~= seq!['"'] + rest);
    } else if (c as nat) < 0x20 {
        let h = hex_char(c as nat / 16);
        let l = hex_char(c as nat % 16);
        let four = whole.subrange(3, 7);
        assert(four =~= seq!['0', '0', h, l]);
        reveal_with_fuel(hex_digits_value, 5);
        assert(four.drop_last() =~= seq!['0', '0', h]);
        assert(four.drop_last().drop_last() =~= seq!['0', '0']);
        assert(four.drop_last().drop_last().drop_last() =~= seq!['0']);
        assert(four.drop_last().drop_last().drop_last().drop_last() =~= Seq::<char>::empty());
        assert(hex_value(h) == Some(c as nat / 16));
        assert(hex_value(l) == Some(c as nat % 16));
        assert(hex_code(four) == Some(c as nat));
        assert(whole.skip(7) =~= seq!['"'] + rest);
    } else {
        assert(whole[1] == c);
        assert(whole[2] == '"');
        assert(whole.skip(3) =~= rest);
    }
}

proof fn lemma_hex_digits_stop(s: Seq<char>, k: int)
    requires
        0 <= k <= s.len(),
        hex_digits_value(s.take(k)) is None,
    ensures
        hex_digits_value(s) is None,
    decreases s.len() - k,
{
    if k < s.len() {
        assert(s.take(k + 1).drop_last() == s.take(k));
        lemma_hex_digits_stop(s, k + 1);
    } else {
        assert(s.take(k) == s);
    }
}

pub proof fn lemma_digit_run_are_digits(s: Seq<char>)
    ensures
        digit_run(s) <= s.len(),
        forall|k: int| 0 <= k < digit_run(s) ==> is_digit(#[trigger] s[k]),
    decreases s.len(),
{
    if s.len() > 0 && is_digit(s[0]) {
        lemma_digit_run_are_digits(s.skip(1));
        assert forall|k: int| 0 <= k < digit_run(s) implies is_digit(#[trigger] s[k]) by {
            if k > 0 {
                assert(s[k] == s.skip(1)[k - 1]);
            }
        }
    }
}

proof fn lemma_decimal_value_grows(s: Seq<char>, k: int)
    requires
        0 <= k <= s.len(),
    ensures
        decimal_value(s.take(k)) <= decimal_value(s),
    decreases s.len() - k,
{
    if k < s.len() {
        lemma_decimal_value_grows(s, k + 1);
        assert(s.take(k + 1).drop_last() == s.take(k));
    } else {
        assert(s.take(k) == s);
    }
}

} // verus!
