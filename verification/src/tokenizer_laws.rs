//! What the tokenizer's calls satisfy, and how its saved form is written.
use crate::text;
use crate::tokenizer;
use crate::tokenizer::{CharTokenizer, Vocab};
use vstd::prelude::*;
use vstd::string::*;

verus! {

/// A new tokenizer counts the four special tokens and knows no character.
pub proof fn new_tokenizer(tok: CharTokenizer)
    requires
        call_ensures(CharTokenizer::new, (), tok),
    ensures
        tok@.size == 4,
        forall|c: char| !(#[trigger] tok@.ids.contains_key(c)),
        forall|id: u32| !(#[trigger] tok@.chars.contains_key(id)),
{
}

/// Encoding gives one id for each character: its own, or three for a character that is unknown.
pub proof fn encode_law(tok: CharTokenizer, text: &str, ids: Vec<u32>)
    requires
        call_ensures(CharTokenizer::encode, (&tok, text), ids),
    ensures
        ids@.len() == text@.len(),
        forall|i: int|
            0 <= i < text@.len() ==> #[trigger] ids@[i] == (if tok@.ids.contains_key(text@[i]) {
                tok@.ids[text@[i]]
            } else {
                3
            }),
{
}

/// With special tokens, a one stands before the ids of a text and a two behind them.
pub proof fn encode_with_special_law(
    tok: CharTokenizer,
    text: &str,
    ids: Vec<u32>,
    framed: Vec<u32>,
)
    requires
        call_ensures(CharTokenizer::encode, (&tok, text), ids),
        call_ensures(CharTokenizer::encode_with_special, (&tok, text), framed),
    ensures
        framed@.len() == ids@.len() + 2,
        framed@[0] == 1,
        framed@[framed@.len() - 1] == 2,
        framed@.subrange(1, framed@.len() - 1) == ids@,
{
    assert(framed@.subrange(1, framed@.len() - 1) =~= ids@);
}

/// One id stands for its character, and for nothing where it has none or is one of the four special
/// ids.
pub proof fn decode_one(tok: CharTokenizer, ids: &[u32], out: String)
    requires
        ids@.len() == 1,
        call_ensures(CharTokenizer::decode, (&tok, ids), out),
    ensures
        out@ == (if ids@[0] >= 4 && tok@.chars.contains_key(ids@[0]) {
            seq![tok@.chars[ids@[0]]]
        } else {
            seq![]
        }),
{
    reveal_with_fuel(Vocab::decoded, 2);
    assert(ids@.drop_last() =~= seq![]);
    assert(tok@.decoded(ids@.drop_last()) =~= Seq::<char>::empty());
    assert(tok@.decoded(ids@) =~= out@);
}

/// What ids decode to is what their parts decode to, joined.
pub proof fn decode_in_parts(
    tok: CharTokenizer,
    first: &[u32],
    second: &[u32],
    all: &[u32],
    a: String,
    b: String,
    out: String,
)
    requires
        all@ == first@ + second@,
        call_ensures(CharTokenizer::decode, (&tok, first), a),
        call_ensures(CharTokenizer::decode, (&tok, second), b),
        call_ensures(CharTokenizer::decode, (&tok, all), out),
    ensures
        out@ == a@ + b@,
{
    tokenizer::lemma_decoded_concat(tok@, first@, second@);
}

/// A tokenizer whose maps are inverse to each other is restored from what it was saved as.
pub proof fn saved_tokenizer_is_restored(
    tok: CharTokenizer,
    json: String,
    text: &str,
    restored: Option<CharTokenizer>,
)
    requires
        tok@.inverse(),
        tok@.size <= usize::MAX,
        call_ensures(CharTokenizer::to_json, (&tok,), json),
        text@ == json@,
        call_ensures(CharTokenizer::from_json, (text,), restored),
    ensures
        restored is Some,
        restored->0@ == tok@,
{
    tokenizer::restore_saved(tok@, json@);
}

/// The saved form: the size in decimal, and the characters, each with its id.
pub proof fn saved_form(tok: CharTokenizer, json: String) -> (entries: Seq<(char, u32)>)
    requires
        call_ensures(CharTokenizer::to_json, (&tok,), json),
    ensures
        entries.no_duplicates(),
        forall|c: char, id: u32| #[trigger]
            entries.contains((c, id)) <==> tok@.ids.contains_key(c) && tok@.ids[c] == id,
        forall|i: int, j: int|
            0 <= i <= j < entries.len() ==> (#[trigger] entries[i]).1 <= (#[trigger] entries[j]).1,
        entries.len() == 0 ==> json@ == "{\"vocab_size\":"@ + text::decimal(tok@.size)
            + ",\"chars\":[]}"@,
        entries.len() == 1 ==> json@ == "{\"vocab_size\":"@ + text::decimal(tok@.size)
            + ",\"chars\":[{\"char\":"@ + text::json_string(seq![entries[0].0]) + ",\"id\":"@
            + text::decimal(entries[0].1 as nat) + "}]}"@,
        entries.len() > 1 ==> json@ == "{\"vocab_size\":"@ + text::decimal(tok@.size)
            + ",\"chars\":[{\"char\":"@ + text::json_string(seq![entries[0].0]) + ",\"id\":"@
            + text::decimal(entries[0].1 as nat) + "}"@ + joined(entries.skip(1)) + "]}"@,
{
    reveal_strlit("{\"vocab_size\":");
    reveal_strlit(",\"chars\":[");
    reveal_strlit(",\"chars\":[]}");
    reveal_strlit(",\"chars\":[{\"char\":");
    reveal_strlit("{\"char\":");
    reveal_strlit(",\"id\":");
    reveal_strlit("}");
    reveal_strlit("]}");
    reveal_strlit("}]}");
    let entries = choose|entries: Seq<(char, u32)>| #[trigger]
        tokenizer::lists(entries, tok@.ids) && json@ == tokenizer::saved_text(tok@.size, entries);
    let head = "{\"vocab_size\":"@ + text::decimal(tok@.size);
    if entries.len() == 0 {
        assert(json@ =~= head + ",\"chars\":[]}"@);
    } else {
        let body = text::json_string(seq![entries[0].0]) + ",\"id\":"@ + text::decimal(
            entries[0].1 as nat,
        );
        lemma_joined(entries.skip(1));
        assert(",\"chars\":["@ + "{\"char\":"@ =~= ",\"chars\":[{\"char\":"@);
        if entries.len() == 1 {
            assert(joined(entries.skip(1)) =~= Seq::<char>::empty());
            assert("}"@ + "]}"@ =~= "}]}"@);
            assert(json@ =~= head + (",\"chars\":["@ + "{\"char\":"@) + text::json_string(
                seq![entries[0].0],
            ) + ",\"id\":"@ + text::decimal(entries[0].1 as nat) + ("}"@ + "]}"@));
        } else {
            assert(json@ =~= head + (",\"chars\":["@ + "{\"char\":"@) + text::json_string(
                seq![entries[0].0],
            ) + ",\"id\":"@ + text::decimal(entries[0].1 as nat) + "}"@ + joined(entries.skip(1))
                + "]}"@);
        }
    }
    entries
}

/// Entries of the saved form, a comma before each.
pub open spec fn joined(entries: Seq<(char, u32)>) -> Seq<char>
    decreases entries.len(),
{
    if entries.len() == 0 {
        seq![]
    } else {
        joined(entries.drop_last()) + ",{\"char\":"@ + text::json_string(seq![entries.last().0])
            + ",\"id\":"@ + text::decimal(entries.last().1 as nat) + "}"@
    }
}

proof fn lemma_joined(entries: Seq<(char, u32)>)
    ensures
        tokenizer::more_entries_text(entries) == joined(entries),
    decreases entries.len(),
{
    if entries.len() > 0 {
        let init = entries.drop_last();
        lemma_joined(init);
        lemma_more(init, entries.last());
        assert(init.push(entries.last()) =~= entries);
        reveal_strlit(",{\"char\":");
        reveal_strlit(",");
        reveal_strlit("{\"char\":");
        assert(","@ + "{\"char\":"@ =~= ",{\"char\":"@);
        assert(joined(entries) =~= joined(init) + (","@ + tokenizer::entry_text(entries.last())));
    }
}

proof fn lemma_more(init: Seq<(char, u32)>, last: (char, u32))
    ensures
        tokenizer::more_entries_text(init.push(last)) == tokenizer::more_entries_text(init) + (","@
            + tokenizer::entry_text(last)),
    decreases init.len(),
{
    let all = init.push(last);
    if init.len() == 0 {
        assert(all.skip(1) =~= seq![]);
        assert(tokenizer::more_entries_text(all.skip(1)) =~= Seq::<char>::empty());
        assert(tokenizer::more_entries_text(init) =~= Seq::<char>::empty());
        assert(tokenizer::more_entries_text(all) =~= ","@ + tokenizer::entry_text(last));
        assert(tokenizer::more_entries_text(all) =~= tokenizer::more_entries_text(init) + (","@
            + tokenizer::entry_text(last)));
    } else {
        lemma_more(init.skip(1), last);
        assert(all.skip(1) =~= init.skip(1).push(last));
        assert(tokenizer::more_entries_text(all) =~= tokenizer::more_entries_text(init) + (","@
            + tokenizer::entry_text(last)));
    }
}

/// A JSON string is made of the strings of its parts, between two quotes.
pub proof fn json_string_in_parts(
    s: &str,
    t: &str,
    whole: &str,
    a: String,
    b: String,
    out: String,
)
    requires
        whole@ == s@ + t@,
        call_ensures(text::json_escape, (s,), a),
        call_ensures(text::json_escape, (t,), b),
        call_ensures(text::json_escape, (whole,), out),
    ensures
        out@ == a@.drop_last() + b@.skip(1),
{
    lemma_escaped_concat(s@, t@);
    assert(out@ =~= a@.drop_last() + b@.skip(1));
}

proof fn lemma_escaped_concat(s: Seq<char>, t: Seq<char>)
    ensures
        text::escaped(s + t) == text::escaped(s) + text::escaped(t),
    decreases t.len(),
{
    if t.len() == 0 {
        assert(s + t =~= s);
        assert(text::escaped(t) =~= Seq::<char>::empty());
        assert(text::escaped(s + t) =~= text::escaped(s) + text::escaped(t));
    } else {
        lemma_escaped_concat(s, t.drop_last());
        assert((s + t).drop_last() =~= s + t.drop_last());
        assert(text::escaped(s + t) =~= text::escaped(s) + text::escaped(t));
    }
}

/// How one character is written as a JSON string: quotes, backslashes, line feeds, carriage returns
/// and tabs by a backslash and a letter, other control characters by their code in four
/// hexadecimal digits, and all others as they are.
pub proof fn json_string_of_one(s: &str, out: String)
    requires
        s@.len() == 1,
        call_ensures(text::json_escape, (s,), out),
    ensures
        s@[0] == '"' ==> out@ == seq!['"', '\\', '"', '"'],
        s@[0] == '\\' ==> out@ == seq!['"', '\\', '\\', '"'],
        s@[0] == '\n' ==> out@ == seq!['"', '\\', 'n', '"'],
        s@[0] == '\r' ==> out@ == seq!['"', '\\', 'r', '"'],
        s@[0] == '\t' ==> out@ == seq!['"', '\\', 't', '"'],
        s@[0] as int >= 0x20 && s@[0] != '"' && s@[0] != '\\' ==> out@ == seq!['"', s@[0], '"'],
        (s@[0] as int) < 0x20 && s@[0] != '\n' && s@[0] != '\r' && s@[0] != '\t' ==> {
            &&& out@.len() == 8
            &&& out@.take(5) == seq!['"', '\\', 'u', '0', '0']
            &&& out@[5] == (if (s@[0] as int) < 16 {
                '0'
            } else {
                '1'
            })
            &&& (out@[6] as int == '0' as int + s@[0] as int % 16 || (s@[0] as int % 16 >= 10
                && out@[6] as int == 'a' as int + s@[0] as int % 16 - 10))
            &&& out@[7] == '"'
        },
{
    reveal_with_fuel(text::escaped, 2);
    assert(s@.drop_last() =~= seq![]);
    assert(text::escaped(s@.drop_last()) =~= Seq::<char>::empty());
    assert(text::escaped(s@) =~= text::escaped_char(s@[0]));
    let c = s@[0];
    assert(out@ =~= seq!['"'] + text::escaped_char(c) + seq!['"']);
    if c == '"' {
        assert(out@ =~= seq!['"', '\\', '"', '"']);
    } else if c == '\\' {
        assert(out@ =~= seq!['"', '\\', '\\', '"']);
    } else if c == '\n' {
        assert(out@ =~= seq!['"', '\\', 'n', '"']);
    } else if c == '\r' {
        assert(out@ =~= seq!['"', '\\', 'r', '"']);
    } else if c == '\t' {
        assert(out@ =~= seq!['"', '\\', 't', '"']);
    } else if (c as int) < 0x20 {
        lemma_control(c);
        assert(out@.take(5) =~= seq!['"', '\\', 'u', '0', '0']);
    } else {
        assert(out@ =~= seq!['"', c, '"']);
    }
}

/// Whether `c` writes `d` as a hexadecimal digit, in either case.
pub open spec fn writes_hex(c: char, d: int) -> bool {
    ||| 0 <= d < 10 && c as int == '0' as int + d
    ||| 10 <= d < 16 && c as int == 'a' as int + (d - 10)
    ||| 10 <= d < 16 && c as int == 'A' as int + (d - 10)
}

/// A character that is written by its code: four hexadecimal digits after `\\u` are read as that
/// character, and seven characters are used up. There is none where the code is that of a
/// surrogate.
pub proof fn code_is_read(
    s: &str,
    parsed: Option<(char, usize)>,
    a: int,
    b: int,
    c: int,
    d: int,
)
    requires
        call_ensures(text::parse_json_char, (s,), parsed),
        s@.len() >= 7,
        s@.take(3) == seq!['"', '\\', 'u'],
        writes_hex(s@[3], a),
        writes_hex(s@[4], b),
        writes_hex(s@[5], c),
        writes_hex(s@[6], d),
    ensures
        ({
            let code = 4096 * a + 256 * b + 16 * c + d;
            if 0xD800 <= code < 0xE000 {
                parsed is None
            } else {
                match parsed {
                    Some((found, used)) => found as int == code && used == 7,
                    None => false,
                }
            }
        }),
{
    assert(s@.take(3)[0] == '"' && s@.take(3)[1] == '\\' && s@.take(3)[2] == 'u');
    let digits = s@.subrange(3, 7);
    reveal_with_fuel(text::hex_digits_value, 5);
    let one = digits.drop_last();
    let two = one.drop_last();
    let three = two.drop_last();
    assert(digits.last() == s@[6]);
    assert(one.last() == s@[5]);
    assert(two.last() == s@[4]);
    assert(three.last() == s@[3]);
    assert(three.drop_last().len() == 0);
    assert(text::hex_digits_value(three.drop_last()) == Some(0nat));
    assert(text::hex_digits_value(three) == Some(a as nat));
    assert(text::hex_digits_value(two) == Some((a * 16 + b) as nat));
    assert(text::hex_digits_value(one) == Some(((a * 16 + b) * 16 + c) as nat));
    assert(text::hex_digits_value(digits) == Some((((a * 16 + b) * 16 + c) * 16 + d) as nat));
    assert(digits[0] != '+');
}

/// A character that is not escaped is read as itself, and takes up its bytes and those of two
/// quotes. A backslash opens an escape only before a quote, a backslash, `n`, `r`, `t` or `u`.
pub proof fn plain_character_is_read(s: &str, parsed: Option<(char, usize)>)
    requires
        call_ensures(text::parse_json_char, (s,), parsed),
        s@.len() >= 2,
        s@[0] == '"',
        s@[1] != '\\' || s@.len() == 2 || (s@[2] != '"' && s@[2] != '\\' && s@[2] != 'n' && s@[2]
            != 'r' && s@[2] != 't' && s@[2] != 'u'),
    ensures
        match parsed {
            Some((c, used)) => {
                &&& c == s@[1]
                &&& (c as int) < 0x80 ==> used == 3
                &&& 0x80 <= (c as int) < 0x800 ==> used == 4
                &&& 0x800 <= (c as int) < 0x10000 ==> used == 5
                &&& 0x10000 <= c as int ==> used == 6
            },
            None => false,
        },
{
}

/// A short escape is read as the character that it stands for, and three characters are used up.
pub proof fn short_escape_is_read(s: &str, parsed: Option<(char, usize)>)
    requires
        call_ensures(text::parse_json_char, (s,), parsed),
        s@.len() >= 3,
        s@[0] == '"',
        s@[1] == '\\',
    ensures
        s@[2] == '"' ==> parsed == Some(('"', 3usize)),
        s@[2] == '\\' ==> parsed == Some(('\\', 3usize)),
        s@[2] == 'n' ==> parsed == Some(('\n', 3usize)),
        s@[2] == 'r' ==> parsed == Some(('\r', 3usize)),
        s@[2] == 't' ==> parsed == Some(('\t', 3usize)),
{
}

/// Without an opening quote, or with nothing behind it, there is no character.
pub proof fn no_character_is_read(s: &str, parsed: Option<(char, usize)>)
    requires
        call_ensures(text::parse_json_char, (s,), parsed),
        s@.len() < 2 || s@[0] != '"',
    ensures
        parsed is None,
{
}

/// A number in decimal digits is read as itself, unless it is too large.
pub proof fn number_is_read(s: &[char], from: usize, max: usize, number: Option<usize>, n: nat)
    requires
        call_ensures(text::number_at, (s, from, max), number),
        from + text::decimal(n).len() <= s@.len(),
        s@.subrange(from as int, from + text::decimal(n).len()) == text::decimal(n),
        from + text::decimal(n).len() < s@.len() ==> !text::is_digit(
            s@[from + text::decimal(n).len()],
        ),
    ensures
        number == (if n <= max {
            Some(n as usize)
        } else {
            None
        }),
{
    let rest = s@.skip(from + text::decimal(n).len());
    assert(s@.skip(from as int) =~= text::decimal(n) + rest);
    text::lemma_decimal_number(n, rest, max as nat);
}

/// A text that does not give the size of the vocabulary restores nothing.
pub proof fn size_is_needed(json: &str, restored: Option<CharTokenizer>)
    requires
        call_ensures(CharTokenizer::from_json, (json,), restored),
        forall|at: int| !(#[trigger] text::occurs_at(json@, "\"vocab_size\":"@, at)),
    ensures
        restored is None,
{
    lemma_absent(json@, "\"vocab_size\":"@);
}

proof fn lemma_absent(s: Seq<char>, pattern: Seq<char>)
    requires
        forall|at: int| !(#[trigger] text::occurs_at(s, pattern, at)),
    ensures
        text::after(s, pattern) is None,
    decreases s.len(),
{
    assert(!text::occurs_at(s, pattern, 0));
    if s.len() > 0 {
        let t = s.skip(1);
        assert forall|at: int| !(#[trigger] text::occurs_at(t, pattern, at)) by {
            if text::occurs_at(t, pattern, at) {
                assert(s.subrange(at + 1, at + 1 + pattern.len()) =~= t.subrange(
                    at,
                    at + pattern.len(),
                ));
                assert(text::occurs_at(s, pattern, at + 1));
            }
        }
        lemma_absent(t, pattern);
    }
}

/// The digits of a control character.
proof fn lemma_control(c: char)
    requires
        (c as int) < 0x20,
    ensures
        0 <= c as int,
        text::hex_char(c as nat / 16) == (if (c as int) < 16 {
            '0'
        } else {
            '1'
        }),
        text::hex_char(c as nat % 16) as int == '0' as int + c as int % 16 || (c as int % 16 >= 10
            && text::hex_char(c as nat % 16) as int == 'a' as int + c as int % 16 - 10),
{
}

} // verus!
