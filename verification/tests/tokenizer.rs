use wave_field_rs::text::{json_escape, parse_json_char};
use wave_field_rs::tokenizer::{BOS_ID, EOS_ID, NUM_SPECIAL, PAD_ID, UNK_ID};
use wave_field_rs::CharTokenizer;

#[test]
fn test_roundtrip() {
    let mut tok = CharTokenizer::new();
    tok.build_vocab("hello world");

    let ids = tok.encode("hello");
    let text = tok.decode(&ids);
    assert_eq!(text, "hello");
}

#[test]
fn test_special_tokens() {
    let mut tok = CharTokenizer::new();
    tok.build_vocab("abc");

    let ids = tok.encode_with_special("abc");
    assert_eq!(ids[0], BOS_ID);
    assert_eq!(*ids.last().unwrap(), EOS_ID);

    // decode strips specials
    let text = tok.decode(&ids);
    assert_eq!(text, "abc");
}

#[test]
fn test_unk() {
    let mut tok = CharTokenizer::new();
    tok.build_vocab("abc");

    let ids = tok.encode("abcX");
    assert_eq!(*ids.last().unwrap(), UNK_ID);
}

#[test]
fn test_vocab_size() {
    let mut tok = CharTokenizer::new();
    tok.build_vocab("abcd");
    // 4 special + 4 unique chars = 8
    assert_eq!(tok.vocab_size, 8);
}

#[test]
fn test_json_roundtrip() {
    let mut tok = CharTokenizer::new();
    tok.build_vocab("hello world!\n");
    let json = tok.to_json();

    let tok2 = CharTokenizer::from_json(&json).expect("parse failed");
    assert_eq!(tok2.vocab_size, tok.vocab_size);

    let ids1 = tok.encode("hello");
    let ids2 = tok2.encode("hello");
    assert_eq!(ids1, ids2);
}

#[test]
fn ids_follow_first_appearance() {
    let mut tok = CharTokenizer::new();
    tok.build_vocab("baba\u{e9}c");
    assert_eq!(tok.encode("b"), vec![4]);
    assert_eq!(tok.encode("a\u{e9}cb"), vec![5, 6, 7, 4]);
    assert_eq!(tok.vocab_size, 8);
}

#[test]
fn extending_in_parts_is_extending_at_once() {
    let mut parts = CharTokenizer::default();
    parts.build_vocab("one");
    parts.build_vocab(" two one");
    let mut whole = CharTokenizer::default();
    whole.build_vocab("one two one");
    assert_eq!(parts.to_json(), whole.to_json());
    assert_eq!(parts.vocab_size, whole.vocab_size);
}

#[test]
fn extending_keeps_ids() {
    let mut tok = CharTokenizer::new();
    tok.build_vocab("xy");
    let before = tok.encode("xy");
    tok.build_vocab("yzx");
    assert_eq!(tok.encode("xy"), before);
    assert_eq!(tok.encode("z"), vec![6]);
}

#[test]
fn unknown_characters_are_lost_in_decoding() {
    let mut tok = CharTokenizer::new();
    tok.build_vocab("abc");
    let ids = tok.encode("aXbYc");
    assert_eq!(ids, vec![4, UNK_ID, 5, UNK_ID, 6]);
    assert_eq!(tok.decode(&ids), "abc");
}

#[test]
fn decode_skips_specials_and_unassigned_ids() {
    let mut tok = CharTokenizer::new();
    tok.build_vocab("ab");
    let ids = vec![PAD_ID, BOS_ID, 5, EOS_ID, UNK_ID, 4, 6, 4_000_000_000];
    assert_eq!(tok.decode(&ids), "ba");
    assert_eq!(tok.decode(&[]), "");
}

#[test]
fn empty_tokenizer() {
    let tok = CharTokenizer::new();
    assert_eq!(tok.vocab_size, NUM_SPECIAL as usize);
    assert_eq!(tok.encode("q"), vec![UNK_ID]);
    assert_eq!(tok.encode_with_special(""), vec![BOS_ID, EOS_ID]);
    assert_eq!(tok.to_json(), "{\"vocab_size\":4,\"chars\":[]}");
}

#[test]
fn saved_form_is_exact() {
    let mut tok = CharTokenizer::new();
    tok.build_vocab("h\"\\\n\r\t\u{1f}\u{e9}");
    assert_eq!(
        tok.to_json(),
        "{\"vocab_size\":12,\"chars\":[{\"char\":\"h\",\"id\":4},{\"char\":\"\\\"\",\"id\":5},\
         {\"char\":\"\\\\\",\"id\":6},{\"char\":\"\\n\",\"id\":7},{\"char\":\"\\r\",\"id\":8},\
         {\"char\":\"\\t\",\"id\":9},{\"char\":\"\\u001f\",\"id\":10},{\"char\":\"\u{e9}\",\"id\":11}]}"
    );
}

#[test]
fn every_escape_survives_saving() {
    let mut tok = CharTokenizer::new();
    let text = "\"\\\n\r\t\u{0}\u{1}\u{10}\u{1f}{}[],:0129idchar\u{e9}\u{4e2d}\u{1f600}";
    tok.build_vocab(text);
    let restored = CharTokenizer::from_json(&tok.to_json()).unwrap();
    assert_eq!(restored.vocab_size, tok.vocab_size);
    assert_eq!(restored.encode(text), tok.encode(text));
    assert_eq!(restored.decode(&tok.encode(text)), text);
    assert_eq!(restored.to_json(), tok.to_json());
}

#[test]
fn entries_come_in_order_of_ids() {
    let mut tok = CharTokenizer::new();
    let text: String = (0..500u32).filter_map(|k| char::from_u32(1000 - k)).collect();
    tok.build_vocab(&text);
    let restored = CharTokenizer::from_json(&tok.to_json()).unwrap();
    assert_eq!(restored.to_json(), tok.to_json());
    let json = tok.to_json();
    let mut last = 3;
    for part in json.split("\"id\":").skip(1) {
        let digits: String = part.chars().take_while(|c| c.is_ascii_digit()).collect();
        let id: u32 = digits.parse().unwrap();
        assert_eq!(id, last + 1);
        last = id;
    }
    assert_eq!(last, 503);
}

#[test]
fn restoring_rejects_malformed_text() {
    // no size, size at the very end, size without digits, size out of range
    assert!(CharTokenizer::from_json("").is_none());
    assert!(CharTokenizer::from_json("{\"vocab_size\":12").is_none());
    assert!(CharTokenizer::from_json("{\"vocab_size\":x}").is_none());
    assert!(CharTokenizer::from_json("{\"vocab_size\":99999999999999999999999}").is_none());
    // a character without quotes, a broken escape, a surrogate, a short escape
    assert!(CharTokenizer::from_json("{\"vocab_size\":5,{\"char\":x,\"id\":4}").is_none());
    assert!(CharTokenizer::from_json("{\"vocab_size\":5,{\"char\":\"\\u00g1\",\"id\":4}").is_none());
    assert!(CharTokenizer::from_json("{\"vocab_size\":5,{\"char\":\"\\ud800\",\"id\":4}").is_none());
    assert!(CharTokenizer::from_json("{\"vocab_size\":5,{\"char\":\"\\u00").is_none());
    assert!(CharTokenizer::from_json("{\"vocab_size\":5,{\"char\":\"").is_none());
    // no id, id without digits, id out of range
    assert!(CharTokenizer::from_json("{\"vocab_size\":5,{\"char\":\"a\"}").is_none());
    assert!(CharTokenizer::from_json("{\"vocab_size\":5,{\"char\":\"a\",\"id\":}").is_none());
    assert!(CharTokenizer::from_json("{\"vocab_size\":5,{\"char\":\"a\",\"id\":4294967296}").is_none());
}

#[test]
fn restoring_accepts_loose_text() {
    // ids at the end of the text, a plus sign in an escape, ids without order
    let tok = CharTokenizer::from_json(
        "\"vocab_size\":007, \"char\":\"\\u+041\" \"id\":9 \"char\":\"b\" ... \"id\":4294967295",
    )
    .unwrap();
    assert_eq!(tok.vocab_size, 7);
    assert_eq!(tok.encode("Ab"), vec![9, 4294967295]);
    assert_eq!(tok.decode(&[4294967295, 9]), "bA");
}

#[test]
fn copies_are_alike() {
    let mut tok = CharTokenizer::new();
    tok.build_vocab("copy");
    let copy = tok.clone();
    tok.build_vocab("more");
    assert_eq!(copy.encode("copy"), vec![4, 5, 6, 7]);
    assert_eq!(copy.encode("m"), vec![UNK_ID]);
    assert_eq!(copy.vocab_size, 8);
}

#[test]
fn texts_that_break_off_are_told() {
    let mut tok = CharTokenizer::new();
    tok.build_vocab("h\u{e9}\"\\\n\u{1}");
    assert!(CharTokenizer::can_be_read(&tok.to_json()));
    assert!(CharTokenizer::can_be_read(""));
    assert!(CharTokenizer::can_be_read("{\"vocab_size\":5,\"chars\":[{\"char\":x"));
    assert!(CharTokenizer::can_be_read("{\"chars\":[{\"char\":\"a"));
    assert!(!CharTokenizer::can_be_read("{\"vocab_size\":5,\"chars\":[{\"char\":\"a"));
    assert!(!CharTokenizer::can_be_read(
        "{\"vocab_size\":5,\"chars\":[{\"char\":\"a\u{e9}\",\"id\":4}]}"
    ));
    assert!(CharTokenizer::can_be_read(
        "{\"vocab_size\":5,\"chars\":[{\"char\":\"\u{e9}\",\"id\":4}]}"
    ));
}

#[test]
fn a_character_literal_is_measured_in_bytes() {
    assert_eq!(parse_json_char("\"a\",\"id\":4"), Some(('a', 3)));
    assert_eq!(parse_json_char("\"\u{e9}\""), Some(('\u{e9}', 4)));
    assert_eq!(parse_json_char("\"\u{20ac}\""), Some(('\u{20ac}', 5)));
    assert_eq!(parse_json_char("\"\u{1f600}\""), Some(('\u{1f600}', 6)));
    assert_eq!(parse_json_char("\"\\n\""), Some(('\n', 3)));
    assert_eq!(parse_json_char("\"\\\"\""), Some(('"', 3)));
    assert_eq!(parse_json_char("\"\\u0001\""), Some(('\u{1}', 7)));
    assert_eq!(parse_json_char("\"\\u20aC\""), Some(('\u{20ac}', 7)));
    assert_eq!(parse_json_char("\"\\"), Some(('\\', 3)));
    assert_eq!(parse_json_char("\"\\u12"), None);
    assert_eq!(parse_json_char("\"\\ud800\""), None);
    assert_eq!(parse_json_char("\"\\u1\u{e9}23"), None);
    assert_eq!(parse_json_char("\""), None);
    assert_eq!(parse_json_char("a"), None);
    assert_eq!(parse_json_char(""), None);
}

#[test]
fn a_literal_is_read_as_it_was_escaped() {
    for c in ['a', '"', '\\', '\n', '\r', '\t', '\u{1}', '\u{e9}', '\u{1f600}'] {
        let literal = json_escape(&c.to_string());
        assert_eq!(parse_json_char(&literal).map(|(read, _)| read), Some(c));
    }
}

#[test]
fn a_tokenizer_shows_its_characters() {
    let mut tok = CharTokenizer::new();
    tok.build_vocab("a");
    assert_eq!(
        format!("{:?}", tok),
        "CharTokenizer { char_to_id: {'a': 4}, id_to_char: {4: 'a'}, vocab_size: 5 }"
    );
}
