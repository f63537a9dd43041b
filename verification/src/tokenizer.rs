//! Character-level tokenizer.
//!
//! Every character seen in the training text gets a token id. Unknown characters map to the
//! special token `<UNK>`. Special tokens: `<PAD>=0`, `<BOS>=1`, `<EOS>=2`, `<UNK>=3`.
use crate::text;
use std::collections::HashMap;
use vstd::prelude::*;
use vstd::string::*;

verus! {

/// Id of the padding token.
pub const PAD_ID: u32 = 0;

/// Id of the token that opens a text.
pub const BOS_ID: u32 = 1;

/// Id of the token that closes a text.
pub const EOS_ID: u32 = 2;

/// Id of the token that stands for a character outside the vocabulary.
pub const UNK_ID: u32 = 3;

/// Number of special tokens; the ids of characters start here.
pub const NUM_SPECIAL: u32 = 4;

/// What a tokenizer knows: the id of each character, the character of each id, and the number
/// of tokens including specials.
#[verifier::ext_equal]
pub struct Vocab {
    pub ids: Map<char, u32>,
    pub chars: Map<u32, char>,
    pub size: nat,
}

impl Vocab {
    /// The vocabulary of the special tokens alone.
    pub open spec fn specials() -> Vocab {
        Vocab { ids: Map::empty(), chars: Map::empty(), size: NUM_SPECIAL as nat }
    }

    /// The vocabulary after `c` and `id` have been tied to each other.
    pub open spec fn tie(self, c: char, id: u32) -> Vocab {
        Vocab { ids: self.ids.insert(c, id), chars: self.chars.insert(id, c), ..self }
    }

    /// The vocabulary after characters and ids have been tied to each other, one pair after the
    /// other.
    pub open spec fn tie_all(self, entries: Seq<(char, u32)>) -> Vocab
        decreases entries.len(),
    {
        if entries.len() == 0 {
            self
        } else {
            self.tie_all(entries.drop_last()).tie(entries.last().0, entries.last().1)
        }
    }

    /// The vocabulary after `c` has got the next id.
    pub open spec fn append(self, c: char) -> Vocab {
        Vocab { size: self.size + 1, ..self.tie(c, self.size as u32) }
    }

    /// The vocabulary after the characters of `fresh` have got the next ids, in order.
    pub open spec fn append_all(self, fresh: Seq<char>) -> Vocab
        decreases fresh.len(),
    {
        if fresh.len() == 0 {
            self
        } else {
            self.append_all(fresh.drop_last()).append(fresh.last())
        }
    }

    /// The vocabulary after it has been built further from `text`.
    pub open spec fn extended(self, text: Seq<char>) -> Vocab {
        self.append_all(self.fresh(text))
    }

    /// The characters of `text` that the vocabulary lacks, each once, in the order in which they
    /// first appear.
    pub open spec fn fresh(self, text: Seq<char>) -> Seq<char>
        decreases text.len(),
    {
        if text.len() == 0 {
            seq![]
        } else {
            let before = self.fresh(text.drop_last());
            if self.ids.contains_key(text.last()) || before.contains(text.last()) {
                before
            } else {
                before.push(text.last())
            }
        }
    }

    /// The id of a character, `UNK_ID` where the vocabulary lacks it.
    pub open spec fn id_of(self, c: char) -> u32 {
        if self.ids.contains_key(c) {
            self.ids[c]
        } else {
            UNK_ID
        }
    }

    /// A text as token ids, one for each character.
    pub open spec fn encoded(self, text: Seq<char>) -> Seq<u32> {
        text.map_values(|c: char| self.id_of(c))
    }

    /// A text as token ids, between the ids that open and close a text.
    pub open spec fn encoded_with_special(self, text: Seq<char>) -> Seq<u32> {
        seq![BOS_ID] + self.encoded(text) + seq![EOS_ID]
    }

    /// The text that token ids stand for. Special tokens and ids without a character stand for
    /// nothing.
    pub open spec fn decoded(self, ids: Seq<u32>) -> Seq<char>
        decreases ids.len(),
    {
        if ids.len() == 0 {
            seq![]
        } else {
            let before = self.decoded(ids.drop_last());
            if ids.last() >= NUM_SPECIAL && self.chars.contains_key(ids.last()) {
                before.push(self.chars[ids.last()])
            } else {
                before
            }
        }
    }

    /// Whether every character has an id after the special tokens which leads back to it.
    pub open spec fn leads_back(self) -> bool {
        forall|c: char| #[trigger]
            self.ids.contains_key(c) ==> self.ids[c] >= NUM_SPECIAL && self.chars.contains_key(
                self.ids[c],
            ) && self.chars[self.ids[c]] == c
    }

    /// Whether the two maps are inverse to each other.
    pub open spec fn inverse(self) -> bool {
        &&& forall|c: char| #[trigger]
            self.ids.contains_key(c) ==> self.chars.contains_key(self.ids[c])
                && self.chars[self.ids[c]] == c
        &&& forall|id: u32| #[trigger]
            self.chars.contains_key(id) ==> self.ids.contains_key(self.chars[id])
                && self.ids[self.chars[id]] == id
    }

    /// Whether the characters have the ids from the special tokens up to the size of the
    /// vocabulary, each id exactly once.
    pub open spec fn numbered(self) -> bool {
        &&& self.inverse()
        &&& NUM_SPECIAL <= self.size <= u32::MAX
        &&& forall|id: u32| #[trigger]
            self.chars.contains_key(id) <==> NUM_SPECIAL <= id < self.size
    }
}

/// Where the characters are numbered from the special tokens on, every id leads back to its
/// character.
pub proof fn numbered_leads_back(v: Vocab)
    requires
        v.numbered(),
    ensures
        v.leads_back(),
{
    assert forall|c: char| #[trigger] v.ids.contains_key(c) implies v.ids[c] >= NUM_SPECIAL by {
        assert(v.chars.contains_key(v.ids[c]));
    }
}

/// One character and its id in the saved form.
pub open spec fn entry_text(entry: (char, u32)) -> Seq<char> {
    "{\"char\":"@ + text::json_string(seq![entry.0]) + ",\"id\":"@ + text::decimal(entry.1 as nat) + "}"@
}

/// Further entries in the saved form, each after a comma.
pub open spec fn more_entries_text(entries: Seq<(char, u32)>) -> Seq<char>
    decreases entries.len(),
{
    if entries.len() == 0 {
        seq![]
    } else {
        ","@ + entry_text(entries[0]) + more_entries_text(entries.skip(1))
    }
}

/// Entries in the saved form, with commas between them.
pub open spec fn entries_text(entries: Seq<(char, u32)>) -> Seq<char> {
    if entries.len() == 0 {
        seq![]
    } else {
        entry_text(entries[0]) + more_entries_text(entries.skip(1))
    }
}

/// The saved form of a vocabulary of `size` tokens with the given entries.
pub open spec fn saved_text(size: nat, entries: Seq<(char, u32)>) -> Seq<char> {
    "{\"vocab_size\":"@ + text::decimal(size) + ",\"chars\":["@ + entries_text(entries) + "]}"@
}

/// Whether `entries` holds every character with its id, each once.
pub open spec fn holds_once(entries: Seq<(char, u32)>, ids: Map<char, u32>) -> bool {
    &&& entries.no_duplicates()
    &&& forall|c: char, id: u32| #[trigger]
        entries.contains((c, id)) <==> ids.contains_key(c) && ids[c] == id
}

/// Whether `entries` holds every character with its id, each once, in ascending order of ids.
pub open spec fn lists(entries: Seq<(char, u32)>, ids: Map<char, u32>) -> bool {
    &&& holds_once(entries, ids)
    &&& forall|i: int, j: int|
        0 <= i <= j < entries.len() ==> (#[trigger] entries[i]).1 <= (#[trigger] entries[j]).1
}

/// Whether `s` is a saved form of the vocabulary. There is more than one where characters share
/// an id.
pub open spec fn is_saved_text(v: Vocab, s: Seq<char>) -> bool {
    exists|entries: Seq<(char, u32)>| #[trigger]
        lists(entries, v.ids) && s == saved_text(v.size, entries)
}

/// What a search for entries in a text comes to.
pub enum Entries {
    /// The entries, in the order of the text.
    Listed(Seq<(char, u32)>),
    /// An entry without a readable character or id.
    Malformed,
    /// A character whose string ends, or goes on with a character outside ASCII, where its
    /// closing quote should stand.
    BrokenOff,
}

/// The entries in a text: each `"char":` with the character that follows it and the number
/// after the next `"id":`.
pub open spec fn read_entries(s: Seq<char>) -> Entries
    decreases s.len(),
{
    match text::after(s, "\"char\":"@) {
        None => Entries::Listed(seq![]),
        Some(literal) => match text::json_char(literal) {
            None => Entries::Malformed,
            Some((c, used)) => if used > literal.len() || literal[used - 1] as int >= 0x80 {
                Entries::BrokenOff
            } else {
                match text::after(literal.skip(used as int), "\"id\":"@) {
                    None => Entries::Malformed,
                    Some(number) => match text::leading_number(number, u32::MAX as nat) {
                        None => Entries::Malformed,
                        Some(id) => {
                            let rest = number.skip(text::digit_run(number) as int);
                            proof {
                                text::lemma_after_shorter(s, "\"char\":"@);
                                text::lemma_after_shorter(literal.skip(used as int), "\"id\":"@);
                                text::lemma_digit_run_are_digits(number);
                            }
                            match read_entries(rest) {
                                Entries::Listed(more) => Entries::Listed(
                                    seq![(c, id as u32)] + more,
                                ),
                                other => other,
                            }
                        },
                    },
                }
            },
        },
    }
}

/// The number of tokens that a saved form gives.
pub open spec fn read_size(s: Seq<char>) -> Option<nat> {
    match text::after(s, "\"vocab_size\":"@) {
        None => None,
        Some(number) => if text::digit_run(number) == number.len() {
            None
        } else {
            text::leading_number(number, usize::MAX as nat)
        },
    }
}

/// The vocabulary that a saved form restores.
pub open spec fn read_vocab(s: Seq<char>) -> Option<Vocab> {
    match (read_size(s), read_entries(s)) {
        (Some(size), Entries::Listed(entries)) => Some(
            Vocab { size, ..Vocab::specials() }.tie_all(entries),
        ),
        _ => None,
    }
}

/// Whether the entries of a text with a readable size can be read without running over its end
/// or into the middle of a character.
pub open spec fn is_readable(s: Seq<char>) -> bool {
    read_size(s) is Some ==> !(read_entries(s) is BrokenOff)
}

/// `sort_by_key` on a vector of pairs, with the second component as the key, rearranges the
/// pairs so that their second components ascend.
#[verifier::external_body]
fn sort_by_id(entries: &mut Vec<(char, u32)>)
    ensures
        final(entries)@.to_multiset() == old(entries)@.to_multiset(),
        forall|i: int, j: int|
            0 <= i <= j < final(entries)@.len() ==> (#[trigger] final(entries)@[i]).1
                <= (#[trigger] final(entries)@[j]).1,
{
    entries.sort_by_key(|entry| entry.1);
}

/// `HashMap::insert` puts a key and its value into the map, in place of the value that the key had.
#[verifier::external_body]
fn put_id(table: &mut HashMap<char, u32>, c: char, id: u32)
    ensures
        final(table)@ == old(table)@.insert(c, id),
{
    table.insert(c, id);
}

/// `HashMap::get` gives the value of a key, and `None` where the map lacks the key.
#[verifier::external_body]
fn id_in(table: &HashMap<char, u32>, c: char) -> (id: Option<&u32>)
    ensures
        match id {
            Some(found) => table@.contains_key(c) && *found == table@[c],
            None => !table@.contains_key(c),
        },
{
    table.get(&c)
}

/// `Vec::from_iter` on a map gives its keys with their values, each once. Their order is open.
#[verifier::external_body]
fn pairs_of(table: HashMap<char, u32>) -> (pairs: Vec<(char, u32)>)
    ensures
        holds_once(pairs@, table@),
{
    Vec::from_iter(table)
}

/// Character-level tokenizer.
#[derive(Debug)]
pub struct CharTokenizer {
    /// Character → token id
    char_to_id: HashMap<char, u32>,
    /// Token id → character
    id_to_char: HashMap<u32, char>,
    /// Number of tokens including specials
    pub vocab_size: usize,
}

impl View for CharTokenizer {
    type V = Vocab;

    closed spec fn view(&self) -> Vocab {
        Vocab {
            ids: self.char_to_id@,
            chars: self.id_to_char@,
            size: self.vocab_size as nat,
        }
    }
}

impl CharTokenizer {
    /// Whether the ids from the special tokens up to the size of the vocabulary each belong to
    /// one character, and no character has another id.
    pub open spec fn well_formed(&self) -> bool {
        self@.numbered()
    }

    /// Creates an empty tokenizer (before building the vocabulary).
    pub fn new() -> (tok: Self)
        ensures
            tok@ == Vocab::specials(),
            tok.well_formed(),
    {
        let tok = CharTokenizer {
            char_to_id: HashMap::new(),
            id_to_char: HashMap::new(),
            vocab_size: NUM_SPECIAL as usize,
        };
        assert(tok@ =~= Vocab::specials());
        tok
    }

    /// Ties `c` and `id` to each other.
    fn tie(&mut self, c: char, id: u32)
        ensures
            final(self)@ == old(self)@.tie(c, id),
    {
        broadcast use vstd::std_specs::hash::group_hash_axioms;

        put_id(&mut self.char_to_id, c, id);
        self.id_to_char.insert(id, c);
        assert(self@ =~= old(self)@.tie(c, id));
    }

    /// Builds the vocabulary from `text`.
    ///
    /// Characters get ids in the order in which they first appear, after the ids already given.
    /// Call it several times to extend the vocabulary.
    pub fn build_vocab(&mut self, text: &str)
        requires
            old(self).well_formed() || old(self)@.size + old(self)@.fresh(text@).len() <= usize::MAX,
        ensures
            final(self)@ == old(self)@.extended(text@),
            old(self).well_formed() ==> final(self).well_formed(),
            forall|c: char|
                old(self)@.ids.contains_key(c) ==> #[trigger] final(self)@.ids.contains_key(c)
                    && final(self)@.ids[c] == old(self)@.ids[c],
            forall|c: char| #[trigger]
                final(self)@.ids.contains_key(c) <==> old(self)@.ids.contains_key(c)
                    || text@.contains(c),
            old(self).well_formed() ==> forall|i: int, j: int|
                first_appears(old(self)@, text@, i) && first_appears(old(self)@, text@, j) && i < j
                    ==> old(self)@.size <= final(self)@.ids[#[trigger] text@[i]]
                    < final(self)@.ids[#[trigger] text@[j]],
    {
        let ghost start = self@;
        proof {
            if old(self).well_formed() {
                lemma_extended_numbered(start, text@);
            }
        }
        for ch in it: text.chars()
            invariant
                it.seq() == text@,
                start.size + start.fresh(text@).len() <= usize::MAX,
                self@ == start.extended(text@.take(it.index() as int)),
        {
            let ghost seen = text@.take(it.index() as int);
            let ghost now = text@.take(it.index() + 1);
            proof {
                assert(now.drop_last() == seen);
                assert(now.last() == ch);
                lemma_append_all(start, start.fresh(seen));
                lemma_fresh_grows(start, text@, it.index() + 1);
            }
            if id_in(&self.char_to_id, ch).is_none() {
                let id: u32 = self.vocab_size as u32;
                let ghost before = self@;
                self.tie(ch, id);
                self.vocab_size += 1;
                proof {
                    assert(start.fresh(now).drop_last() == start.fresh(seen));
                    assert(self@ =~= before.append(ch));
                }
            }
        }
        assert(text@.take(text@.len() as int) == text@);
        proof {
            build_vocab_keeps_ids(start, text@);
            build_vocab_adds_no_other(start, text@);
            if old(self).well_formed() {
                assert forall|i: int, j: int|
                    first_appears(start, text@, i) && first_appears(start, text@, j) && i
                        < j implies start.size <= self@.ids[#[trigger] text@[i]]
                    < self@.ids[#[trigger] text@[j]] by {
                    build_vocab_goes_by_first_appearance(start, text@, i, j);
                }
            }
        }
    }

    /// Encodes `text` to a sequence of token ids.
    ///
    /// Unknown characters map to `UNK_ID`.
    pub fn encode(&self, text: &str) -> (ids: Vec<u32>)
        ensures
            ids@ == self@.encoded(text@),
    {
        let mut ids: Vec<u32> = Vec::new();
        for c in it: text.chars()
            invariant
                it.seq() == text@,
                ids@ == self@.encoded(text@.take(it.index() as int)),
        {
            assert(text@.take(it.index() + 1) == text@.take(it.index() as int).push(c));
            let id: u32 = match id_in(&self.char_to_id, c) {
                Some(id) => *id,
                None => UNK_ID,
            };
            assert(id == self@.id_of(c));
            ids.push(id);
            assert(ids@ =~= self@.encoded(text@.take(it.index() + 1)));
        }
        assert(text@.take(text@.len() as int) == text@);
        ids
    }

    /// Encodes with BOS prepended and EOS appended.
    pub fn encode_with_special(&self, text: &str) -> (ids: Vec<u32>)
        ensures
            ids@ == self@.encoded_with_special(text@),
    {
        let mut ids: Vec<u32> = vec![BOS_ID];
        let mut body = self.encode(text);
        ids.append(&mut body);
        ids.push(EOS_ID);
        assert(ids@ =~= self@.encoded_with_special(text@));
        ids
    }

    /// Decodes a sequence of token ids back to a string.
    ///
    /// Special tokens (PAD, BOS, EOS, UNK) are skipped.
    pub fn decode(&self, ids: &[u32]) -> (text: String)
        ensures
            text@ == self@.decoded(ids@),
    {
        broadcast use vstd::std_specs::hash::group_hash_axioms;

        let mut text = String::new();
        let mut i: usize = 0;
        while i < ids.len()
            invariant
                i <= ids@.len(),
                text@ == self@.decoded(ids@.take(i as int)),
            decreases ids@.len() - i,
        {
            assert(ids@.take(i + 1).drop_last() == ids@.take(i as int));
            let id: u32 = ids[i];
            if id >= NUM_SPECIAL {
                if let Some(c) = self.id_to_char.get(&id) {
                    text.push(*c);
                }
            }
            i += 1;
        }
        assert(ids@.take(ids@.len() as int) == ids@);
        text
    }

    /// The characters and their ids, in ascending order of ids.
    fn entries(&self) -> (entries: Vec<(char, u32)>)
        ensures
            lists(entries@, self@.ids),
    {
        broadcast use vstd::seq_lib::group_to_multiset_ensures;

        let mut entries = pairs_of(self.char_to_id.clone());
        let ghost unsorted = entries@;
        sort_by_id(&mut entries);
        proof {
            unsorted.lemma_multiset_has_no_duplicates();
            entries@.lemma_multiset_has_no_duplicates_conv();
            assert forall|c: char, id: u32|
                #![trigger entries@.contains((c, id))]
                entries@.contains((c, id)) <==> unsorted.contains((c, id)) by {
                assert(entries@.to_multiset().count((c, id)) == unsorted.to_multiset().count(
                    (c, id),
                ));
            }
        }
        entries
    }
}

impl CharTokenizer {
    /// Saves the vocabulary to a JSON string (for persistence).
    pub fn to_json(&self) -> (json: String)
        ensures
            is_saved_text(self@, json@),
    {
        let entries = self.entries();
        let mut out = String::new();
        out.append("{\"vocab_size\":");
        text::push_decimal(&mut out, self.vocab_size);
        out.append(",\"chars\":[");
        let ghost head = out@;
        let ghost all = entries@;
        let mut i: usize = 0;
        while i < entries.len()
            invariant
                i <= entries@.len(),
                all == entries@,
                head + entries_text(all) == out@ + (if i == 0 {
                    entries_text(all)
                } else {
                    more_entries_text(all.skip(i as int))
                }),
            decreases entries@.len() - i,
        {
            let ghost before = out@;
            if i > 0 {
                out.append(",");
            }
            let (c, id) = entries[i];
            let mut letter = String::new();
            letter.push(c);
            out.append("{\"char\":");
            out.append(text::json_escape(letter.as_str()).as_str());
            out.append(",\"id\":");
            text::push_decimal(&mut out, id as usize);
            out.append("}");
            proof {
                assert(letter@ =~= seq![c]);
                assert(out@ =~= before + (if i > 0 {
                    ","@
                } else {
                    seq![]
                }) + entry_text(all[i as int]));
                assert(all.skip(i as int).skip(1) == all.skip(i + 1));
                assert(all.skip(0) == all);
                assert(out@ + more_entries_text(all.skip(i + 1)) =~= before + (if i == 0 {
                    entries_text(all)
                } else {
                    more_entries_text(all.skip(i as int))
                }));
            }
            i += 1;
        }
        proof {
            assert(all.skip(all.len() as int) =~= Seq::<(char, u32)>::empty());
            assert(out@ =~= head + entries_text(all));
        }
        out.append("]}");
        assert(out@ =~= saved_text(self@.size, all));
        out
    }

    /// Tests whether `from_json` can take a text.
    pub fn can_be_read(json: &str) -> (yes: bool)
        ensures
            yes == is_readable(json@),
    {
        let s = text::chars_of(json);
        match scan_size(&s) {
            Some(_) => match scan_entries(&s) {
                Scan::BrokenOff => false,
                _ => true,
            },
            None => true,
        }
    }

    /// Restores a tokenizer previously saved with `to_json`.
    pub fn from_json(json: &str) -> (restored: Option<Self>)
        requires
            is_readable(json@),
        ensures
            match (restored, read_vocab(json@)) {
                (Some(tok), Some(v)) => tok@ == v,
                (None, None) => true,
                _ => false,
            },
    {
        let s = text::chars_of(json);
        let mut tok = Self::new();
        match scan_size(&s) {
            Some(size) => {
                tok.vocab_size = size;
            },
            None => {
                return None;
            },
        }
        let entries = match scan_entries(&s) {
            Scan::Listed(entries) => entries,
            _ => {
                return None;
            },
        };
        let ghost blank = Vocab { size: read_size(json@)->0, ..Vocab::specials() };
        assert(tok@ =~= blank);
        let mut i: usize = 0;
        assert(entries@.take(0) =~= seq![]);
        while i < entries.len()
            invariant
                i <= entries@.len(),
                tok@ == blank.tie_all(entries@.take(i as int)),
            decreases entries@.len() - i,
        {
            let (c, id) = entries[i];
            assert(entries@.take(i + 1).drop_last() =~= entries@.take(i as int));
            tok.tie(c, id);
            i += 1;
        }
        assert(entries@.take(i as int) =~= entries@);
        Some(tok)
    }
}

/// What a search for entries in a text has come to.
enum Scan {
    Listed(Vec<(char, u32)>),
    Malformed,
    BrokenOff,
}

impl View for Scan {
    type V = Entries;

    closed spec fn view(&self) -> Entries {
        match self {
            Scan::Listed(entries) => Entries::Listed(entries@),
            Scan::Malformed => Entries::Malformed,
            Scan::BrokenOff => Entries::BrokenOff,
        }
    }
}

/// Reads the number of tokens from a saved form.
fn scan_size(s: &[char]) -> (size: Option<usize>)
    ensures
        match (size, read_size(s@)) {
            (Some(n), Some(m)) => n == m,
            (None, None) => true,
            _ => false,
        },
{
    let key = text::chars_of("\"vocab_size\":");
    assert(s@.skip(0) == s@);
    let at = match text::find_end(s, &key, 0) {
        Some(at) => at,
        None => {
            return None;
        },
    };
    if text::digits_end(s, at) == s.len() {
        return None;
    }
    text::number_at(s, at, usize::MAX)
}

/// Reads the entries of a saved form, one after the other.
fn scan_entries(s: &[char]) -> (scan: Scan)
    ensures
        scan@ == read_entries(s@),
{
    let char_key = text::chars_of("\"char\":");
    let id_key = text::chars_of("\"id\":");
    assert(s@.skip(0) == s@);
    let mut done: Vec<(char, u32)> = Vec::new();
    let mut pos: usize = 0;
    proof {
        if let Entries::Listed(more) = read_entries(s@) {
            assert(done@ + more =~= more);
        }
    }
    loop
        invariant
            pos <= s@.len(),
            char_key@ == "\"char\":"@,
            id_key@ == "\"id\":"@,
            read_entries(s@) == (match read_entries(s@.skip(pos as int)) {
                Entries::Listed(more) => Entries::Listed(done@ + more),
                other => other,
            }),
        decreases s@.len() - pos,
    {
        let start = match text::find_end(s, &char_key, pos) {
            Some(at) => at,
            None => {
                assert(done@ + Seq::<(char, u32)>::empty() =~= done@);
                return Scan::Listed(done);
            },
        };
        let (ch, used) = match text::json_char_at(s, start) {
            Some(parsed) => parsed,
            None => {
                return Scan::Malformed;
            },
        };
        let ghost literal = s@.skip(start as int);
        if used > s.len() - start || !text::is_ascii(s[start + used - 1]) {
            assert(used <= literal.len() ==> literal[used - 1] == s@[start + used - 1]);
            return Scan::BrokenOff;
        }
        assert(literal[used - 1] == s@[start + used - 1]);
        assert(literal.skip(used as int) == s@.skip(start + used));
        let number = match text::find_end(s, &id_key, start + used) {
            Some(at) => at,
            None => {
                return Scan::Malformed;
            },
        };
        let id: u32 = match text::number_at(s, number, u32::MAX as usize) {
            Some(id) => id as u32,
            None => {
                return Scan::Malformed;
            },
        };
        let end = text::digits_end(s, number);
        proof {
            let rest = s@.skip(number as int);
            assert(rest.skip(text::digit_run(rest) as int) == s@.skip(end as int));
            if let Entries::Listed(more) = read_entries(s@.skip(end as int)) {
                assert(done@ + (seq![(ch, id)] + more) =~= done@.push((ch, id)) + more);
            }
        }
        done.push((ch, id));
        pos = end;
    }
}

impl Default for CharTokenizer {
    fn default() -> (tok: Self)
        ensures
            tok@ == Vocab::specials(),
            tok.well_formed(),
    {
        Self::new()
    }
}

impl Clone for CharTokenizer {
    fn clone(&self) -> (copy: Self)
        ensures
            copy@ == self@,
    {
        let copy = CharTokenizer {
            char_to_id: self.char_to_id.clone(),
            id_to_char: self.id_to_char.clone(),
            vocab_size: self.vocab_size,
        };
        assert(copy@ =~= self@);
        copy
    }
}

/// Decoding an encoded text gives back its characters that the vocabulary has, in order.
pub proof fn decode_encode(v: Vocab, text: Seq<char>)
    requires
        v.leads_back(),
    ensures
        v.decoded(v.encoded(text)) == text.filter(|c: char| v.ids.contains_key(c)),
    decreases text.len(),
{
    reveal(Seq::filter);
    if text.len() > 0 {
        decode_encode(v, text.drop_last());
        assert(v.encoded(text).drop_last() == v.encoded(text.drop_last()));
        assert(v.encoded(text).last() == v.id_of(text.last()));
    }
}

/// A text whose characters the vocabulary all has survives encoding and decoding.
pub proof fn decode_encode_known(v: Vocab, text: Seq<char>)
    requires
        v.leads_back(),
        forall|k: int| 0 <= k < text.len() ==> v.ids.contains_key(#[trigger] text[k]),
    ensures
        v.decoded(v.encoded(text)) == text,
    decreases text.len(),
{
    if text.len() > 0 {
        decode_encode_known(v, text.drop_last());
        assert(v.encoded(text).drop_last() == v.encoded(text.drop_last()));
        assert(v.ids.contains_key(text[text.len() - 1]));
    }
    assert(v.decoded(v.encoded(text)) =~= text);
}

/// The ids that open and close a text do not change what it decodes to.
pub proof fn decode_strips_special(v: Vocab, text: Seq<char>)
    ensures
        v.decoded(v.encoded_with_special(text)) == v.decoded(v.encoded(text)),
{
    let ids = v.encoded(text);
    lemma_decoded_concat(v, seq![BOS_ID] + ids, seq![EOS_ID]);
    lemma_decoded_concat(v, seq![BOS_ID], ids);
    reveal_with_fuel(Vocab::decoded, 2);
    assert(v.decoded(seq![BOS_ID]) =~= Seq::<char>::empty());
    assert(v.decoded(seq![EOS_ID]) =~= Seq::<char>::empty());
    assert(v.decoded(v.encoded_with_special(text)) =~= v.decoded(ids));
}

/// What ids stand for is what their parts stand for, joined.
pub proof fn lemma_decoded_concat(v: Vocab, a: Seq<u32>, b: Seq<u32>)
    ensures
        v.decoded(a + b) == v.decoded(a) + v.decoded(b),
    decreases b.len(),
{
    if b.len() == 0 {
        assert(a + b == a);
        assert(v.decoded(b) =~= Seq::<char>::empty());
    } else {
        lemma_decoded_concat(v, a, b.drop_last());
        assert((a + b).drop_last() == a + b.drop_last());
    }
    assert(v.decoded(a + b) =~= v.decoded(a) + v.decoded(b));
}

/// Building the vocabulary from two texts in turn is building it from the two joined.
pub proof fn build_vocab_in_parts(v: Vocab, first: Seq<char>, second: Seq<char>)
    ensures
        v.extended(first).extended(second) == v.extended(first + second),
    decreases second.len(),
{
    let w = v.extended(first);
    if second.len() == 0 {
        assert(first + second == first);
        assert(w.extended(second) == w);
    } else {
        let c = second.last();
        let init = second.drop_last();
        build_vocab_in_parts(v, first, init);
        assert((first + second).drop_last() == first + init);
        lemma_append_all(v, v.fresh(first + init));
        lemma_append_all(w, w.fresh(init));
        let known = w.extended(init);
        assert(known == v.extended(first + init));
        assert(v.fresh(first + init).contains(c) == v.fresh(first + init).to_set().contains(c));
        assert(w.fresh(init).contains(c) == w.fresh(init).to_set().contains(c));
        assert(known.ids.contains_key(c) <==> known.ids.dom().contains(c));
        if !known.ids.contains_key(c) {
            assert(w.fresh(second).drop_last() == w.fresh(init));
            assert(v.fresh(first + second).drop_last() == v.fresh(first + init));
        }
    }
}

/// Building the vocabulary further never changes the id of a character, and gives every
/// character of the text an id.
pub proof fn build_vocab_keeps_ids(v: Vocab, text: Seq<char>)
    ensures
        forall|c: char| #[trigger]
            v.ids.contains_key(c) ==> v.extended(text).ids.contains_key(c)
                && v.extended(text).ids[c] == v.ids[c],
        forall|k: int|
            0 <= k < text.len() ==> v.extended(text).ids.contains_key(#[trigger] text[k]),
    decreases text.len(),
{
    if text.len() > 0 {
        let init = text.drop_last();
        build_vocab_keeps_ids(v, init);
        lemma_append_all(v, v.fresh(init));
        let known = v.extended(init);
        let c = text.last();
        assert(v.fresh(init).contains(c) == v.fresh(init).to_set().contains(c));
        assert(known.ids.contains_key(c) <==> known.ids.dom().contains(c));
        if !known.ids.contains_key(c) {
            assert(v.fresh(text).drop_last() == v.fresh(init));
            assert(v.extended(text) == known.append(c));
        }
        assert forall|k: int| 0 <= k < text.len() implies v.extended(text).ids.contains_key(
            #[trigger] text[k],
        ) by {
            if k < init.len() {
                assert(init[k] == text[k]);
            }
        }
    }
}

/// The text from the opening quote of an entry's character on.
spec fn literal_text(entry: (char, u32), tail: Seq<char>) -> Seq<char> {
    text::json_string(seq![entry.0]) + (",\"id\":"@ + (text::decimal(entry.1 as nat) + tail))
}

proof fn lemma_find_id(number: Seq<char>)
    ensures
        text::after(",\"id\":"@ + number, "\"id\":"@) == Some(number),
        text::after(seq!['"'] + (",\"id\":"@ + number), "\"id\":"@) == Some(number),
{
    reveal_strlit(",\"id\":");
    reveal_strlit("\"id\":");
    let key = "\"id\":"@;
    let rest = ",\"id\":"@ + number;
    assert(rest =~= seq![','] + (key + number));
    text::lemma_after_plain_prefix(seq![','], key + number, key);
    text::lemma_after_hit(number, key);
    let close = seq!['"'];
    assert forall|i: int| 0 <= i < close.len() implies !#[trigger] text::occurs_at(
        close + rest,
        key,
        i,
    ) by {
        if text::occurs_at(close + rest, key, i) {
            text::lemma_occurs_index(close + rest, key, i, 1);
        }
    }
    text::lemma_after_prefix(close, rest, key);
}

proof fn lemma_read_entry(s: Seq<char>, entry: (char, u32), tail: Seq<char>)
    requires
        text::after(s, "\"char\":"@) == Some(literal_text(entry, tail)),
        tail.len() > 0,
        tail[0] == '}',
    ensures
        read_entries(s) == (match read_entries(tail) {
            Entries::Listed(more) => Entries::Listed(seq![entry] + more),
            other => other,
        }),
{
    let number = text::decimal(entry.1 as nat) + tail;
    text::lemma_json_char_of_string(entry.0, ",\"id\":"@ + number);
    lemma_find_id(number);
    text::lemma_leading_number_of_decimal(entry.1 as nat, tail, u32::MAX as nat);
}

proof fn lemma_entry_text(entry: (char, u32), tail: Seq<char>)
    ensures
        entry_text(entry) + tail == seq!['{'] + ("\"char\":"@ + literal_text(entry, "}"@ + tail)),
{
    reveal_strlit("{\"char\":");
    reveal_strlit("\"char\":");
    assert("{\"char\":"@ =~= seq!['{'] + "\"char\":"@);
    assert(entry_text(entry) + tail =~= seq!['{'] + ("\"char\":"@ + literal_text(
        entry,
        "}"@ + tail,
    )));
}

proof fn lemma_read_more_entries(entries: Seq<(char, u32)>)
    ensures
        read_entries("}"@ + (more_entries_text(entries) + "]}"@)) == Entries::Listed(entries),
    decreases entries.len(),
{
    let key = "\"char\":"@;
    reveal_strlit("\"char\":");
    reveal_strlit("}");
    reveal_strlit("]}");
    reveal_strlit(",");
    let s = "}"@ + (more_entries_text(entries) + "]}"@);
    if entries.len() == 0 {
        assert(s =~= seq!['}', ']', '}'] + Seq::<char>::empty());
        text::lemma_after_plain_prefix(seq!['}', ']', '}'], Seq::<char>::empty(), key);
        assert(text::after(Seq::<char>::empty(), key) is None);
        assert(entries =~= seq![]);
    } else {
        let rest = more_entries_text(entries.skip(1)) + "]}"@;
        lemma_entry_text(entries[0], rest);
        assert(s =~= seq!['}', ','] + (entry_text(entries[0]) + rest));
        let literal = literal_text(entries[0], "}"@ + rest);
        assert(s =~= seq!['}', ',', '{'] + (key + literal));
        text::lemma_after_plain_prefix(seq!['}', ',', '{'], key + literal, key);
        text::lemma_after_hit(literal, key);
        lemma_read_entry(s, entries[0], "}"@ + rest);
        lemma_read_more_entries(entries.skip(1));
        assert(seq![entries[0]] + entries.skip(1) =~= entries);
    }
}

proof fn lemma_read_saved_text(size: nat, entries: Seq<(char, u32)>)
    requires
        size <= usize::MAX,
    ensures
        read_size(saved_text(size, entries)) == Some(size),
        read_entries(saved_text(size, entries)) == Entries::Listed(entries),
{
    let s = saved_text(size, entries);
    let size_key = "\"vocab_size\":"@;
    let key = "\"char\":"@;
    reveal_strlit("{\"vocab_size\":");
    reveal_strlit("\"vocab_size\":");
    reveal_strlit(",\"chars\":[");
    reveal_strlit("\"char\":");
    reveal_strlit("]}");
    reveal_strlit("}");
    let body = entries_text(entries) + "]}"@;
    let number = text::decimal(size) + (",\"chars\":["@ + body);
    assert(s =~= seq!['{'] + (size_key + number));
    text::lemma_after_plain_prefix(seq!['{'], size_key + number, size_key);
    text::lemma_after_hit(number, size_key);
    text::lemma_leading_number_of_decimal(size, ",\"chars\":["@ + body, usize::MAX as nat);

    let open = "{\"vocab_size\":"@;
    assert(s =~= open + number);
    assert forall|i: int| 0 <= i < open.len() implies !#[trigger] text::occurs_at(
        open + number,
        key,
        i,
    ) by {
        if text::occurs_at(open + number, key, i) {
            text::lemma_occurs_index(open + number, key, i, 0);
            text::lemma_occurs_index(open + number, key, i, 1);
        }
    }
    text::lemma_after_prefix(open, number, key);
    text::lemma_decimal_without_quotes(size);
    text::lemma_after_plain_prefix(text::decimal(size), ",\"chars\":["@ + body, key);
    let chars = ",\"chars\":["@;
    assert forall|i: int| 0 <= i < chars.len() implies !#[trigger] text::occurs_at(
        chars + body,
        key,
        i,
    ) by {
        if text::occurs_at(chars + body, key, i) {
            text::lemma_occurs_index(chars + body, key, i, 0);
            text::lemma_occurs_index(chars + body, key, i, 1);
            text::lemma_occurs_index(chars + body, key, i, 5);
        }
    }
    text::lemma_after_prefix(chars, body, key);
    assert(text::after(s, key) == text::after(body, key));
    if entries.len() == 0 {
        assert(body =~= seq![']', '}'] + Seq::<char>::empty());
        text::lemma_after_plain_prefix(seq![']', '}'], Seq::<char>::empty(), key);
        assert(text::after(Seq::<char>::empty(), key) is None);
        assert(entries =~= seq![]);
    } else {
        let rest = more_entries_text(entries.skip(1)) + "]}"@;
        lemma_entry_text(entries[0], rest);
        let literal = literal_text(entries[0], "}"@ + rest);
        assert(body =~= seq!['{'] + (key + literal));
        text::lemma_after_plain_prefix(seq!['{'], key + literal, key);
        text::lemma_after_hit(literal, key);
        lemma_read_entry(s, entries[0], "}"@ + rest);
        lemma_read_more_entries(entries.skip(1));
        assert(seq![entries[0]] + entries.skip(1) =~= entries);
    }
}

proof fn lemma_tie_all(v: Vocab, entries: Seq<(char, u32)>)
    requires
        forall|i: int, j: int|
            0 <= i < j < entries.len() ==> (#[trigger] entries[i]).0 != (#[trigger] entries[j]).0
                && entries[i].1 != entries[j].1,
    ensures
        v.tie_all(entries).size == v.size,
        forall|k: int|
            0 <= k < entries.len() ==> v.tie_all(entries).ids.contains_key(
                (#[trigger] entries[k]).0,
            ) && v.tie_all(entries).ids[entries[k].0] == entries[k].1
                && v.tie_all(entries).chars.contains_key(entries[k].1)
                && v.tie_all(entries).chars[entries[k].1] == entries[k].0,
        forall|c: char| #[trigger]
            v.tie_all(entries).ids.contains_key(c) ==> v.ids.contains_key(c) || exists|k: int|
                0 <= k < entries.len() && (#[trigger] entries[k]).0 == c,
        forall|id: u32| #[trigger]
            v.tie_all(entries).chars.contains_key(id) ==> v.chars.contains_key(id) || exists|k: int|
                0 <= k < entries.len() && (#[trigger] entries[k]).1 == id,
    decreases entries.len(),
{
    if entries.len() > 0 {
        let init = entries.drop_last();
        lemma_tie_all(v, init);
        let last = entries[entries.len() - 1];
        let w = v.tie_all(init);
        let u = v.tie_all(entries);
        assert(u == w.tie(last.0, last.1));
        assert forall|k: int| 0 <= k < entries.len() implies u.ids.contains_key(
            (#[trigger] entries[k]).0,
        ) && u.ids[entries[k].0] == entries[k].1 && u.chars.contains_key(entries[k].1)
            && u.chars[entries[k].1] == entries[k].0 by {
            if k < init.len() {
                assert(init[k] == entries[k]);
            }
        }
        assert forall|c: char| #[trigger] u.ids.contains_key(c) implies v.ids.contains_key(c)
            || exists|k: int| 0 <= k < entries.len() && (#[trigger] entries[k]).0 == c by {
            if c != last.0 && !v.ids.contains_key(c) {
                assert(w.ids.contains_key(c));
                let k = choose|k: int| 0 <= k < init.len() && (#[trigger] init[k]).0 == c;
                assert(entries[k].0 == c);
            }
        }
        assert forall|id: u32| #[trigger] u.chars.contains_key(id) implies v.chars.contains_key(id)
            || exists|k: int| 0 <= k < entries.len() && (#[trigger] entries[k]).1 == id by {
            if id != last.1 && !v.chars.contains_key(id) {
                assert(w.chars.contains_key(id));
                let k = choose|k: int| 0 <= k < init.len() && (#[trigger] init[k]).1 == id;
                assert(entries[k].1 == id);
            }
        }
    }
}

/// Of several entries for one character, or for one id, the last one counts, and what has no entry is
/// not known.
pub proof fn last_entry_counts(
    size: nat,
    entries: Seq<(char, u32)>,
    json: &str,
    restored: Option<CharTokenizer>,
)
    requires
        size <= usize::MAX,
        json@ == saved_text(size, entries),
        call_ensures(CharTokenizer::from_json, (json,), restored),
    ensures
        restored is Some,
        restored->0@.size == size,
        forall|k: int|
            0 <= k < entries.len() && (forall|j: int|
                k < j < entries.len() ==> (#[trigger] entries[j]).0 != entries[k].0)
                ==> restored->0@.ids.contains_key((#[trigger] entries[k]).0)
                && restored->0@.ids[entries[k].0] == entries[k].1,
        forall|k: int|
            0 <= k < entries.len() && (forall|j: int|
                k < j < entries.len() ==> (#[trigger] entries[j]).1 != entries[k].1)
                ==> restored->0@.chars.contains_key((#[trigger] entries[k]).1)
                && restored->0@.chars[entries[k].1] == entries[k].0,
        forall|c: char| #[trigger]
            restored->0@.ids.contains_key(c) ==> exists|k: int|
                0 <= k < entries.len() && (#[trigger] entries[k]).0 == c,
        forall|id: u32| #[trigger]
            restored->0@.chars.contains_key(id) ==> exists|k: int|
                0 <= k < entries.len() && (#[trigger] entries[k]).1 == id,
{
    lemma_read_saved_text(size, entries);
    let blank = Vocab { size, ..Vocab::specials() };
    lemma_tie_in_turn(blank, entries);
}

proof fn lemma_tie_in_turn(v: Vocab, entries: Seq<(char, u32)>)
    ensures
        v.tie_all(entries).size == v.size,
        forall|k: int|
            0 <= k < entries.len() && (forall|j: int|
                k < j < entries.len() ==> (#[trigger] entries[j]).0 != entries[k].0)
                ==> v.tie_all(entries).ids.contains_key((#[trigger] entries[k]).0) && v.tie_all(
                entries,
            ).ids[entries[k].0] == entries[k].1,
        forall|k: int|
            0 <= k < entries.len() && (forall|j: int|
                k < j < entries.len() ==> (#[trigger] entries[j]).1 != entries[k].1)
                ==> v.tie_all(entries).chars.contains_key((#[trigger] entries[k]).1) && v.tie_all(
                entries,
            ).chars[entries[k].1] == entries[k].0,
        forall|c: char| #[trigger]
            v.tie_all(entries).ids.contains_key(c) ==> v.ids.contains_key(c) || exists|k: int|
                0 <= k < entries.len() && (#[trigger] entries[k]).0 == c,
        forall|id: u32| #[trigger]
            v.tie_all(entries).chars.contains_key(id) ==> v.chars.contains_key(id) || exists|k: int|
                0 <= k < entries.len() && (#[trigger] entries[k]).1 == id,
    decreases entries.len(),
{
    if entries.len() > 0 {
        let init = entries.drop_last();
        lemma_tie_in_turn(v, init);
        let end = entries.len() - 1;
        let last = entries[end];
        let w = v.tie_all(init);
        let u = v.tie_all(entries);
        assert(u == w.tie(last.0, last.1));
        assert forall|k: int|
            0 <= k < entries.len() && (forall|j: int|
                k < j < entries.len() ==> (#[trigger] entries[j]).0
                    != entries[k].0) implies u.ids.contains_key((#[trigger] entries[k]).0)
            && u.ids[entries[k].0] == entries[k].1 by {
            if k < end {
                assert(entries[end].0 != entries[k].0);
                assert forall|j: int| k < j < init.len() implies (#[trigger] init[j]).0
                    != init[k].0 by {
                    assert(entries[j].0 != entries[k].0);
                }
                assert(w.ids.contains_key(init[k].0) && w.ids[init[k].0] == init[k].1);
            }
        }
        assert forall|k: int|
            0 <= k < entries.len() && (forall|j: int|
                k < j < entries.len() ==> (#[trigger] entries[j]).1
                    != entries[k].1) implies u.chars.contains_key((#[trigger] entries[k]).1)
            && u.chars[entries[k].1] == entries[k].0 by {
            if k < end {
                assert(entries[end].1 != entries[k].1);
                assert forall|j: int| k < j < init.len() implies (#[trigger] init[j]).1
                    != init[k].1 by {
                    assert(entries[j].1 != entries[k].1);
                }
                assert(w.chars.contains_key(init[k].1) && w.chars[init[k].1] == init[k].0);
            }
        }
        assert forall|c: char| #[trigger] u.ids.contains_key(c) && !v.ids.contains_key(
            c,
        ) implies exists|k: int| 0 <= k < entries.len() && (#[trigger] entries[k]).0 == c by {
            if c == last.0 {
                assert(entries[end].0 == c);
            } else {
                assert(w.ids.contains_key(c));
                let k = choose|k: int| 0 <= k < init.len() && (#[trigger] init[k]).0 == c;
                assert(entries[k].0 == c);
            }
        }
        assert forall|id: u32| #[trigger] u.chars.contains_key(id) && !v.chars.contains_key(
            id,
        ) implies exists|k: int| 0 <= k < entries.len() && (#[trigger] entries[k]).1 == id by {
            if id == last.1 {
                assert(entries[end].1 == id);
            } else {
                assert(w.chars.contains_key(id));
                let k = choose|k: int| 0 <= k < init.len() && (#[trigger] init[k]).1 == id;
                assert(entries[k].1 == id);
            }
        }
    }
}

/// A vocabulary whose maps are inverse to each other is restored from its saved form.
pub proof fn restore_saved(v: Vocab, s: Seq<char>)
    requires
        v.inverse(),
        v.size <= usize::MAX,
        is_saved_text(v, s),
    ensures
        is_readable(s),
        read_vocab(s) == Some(v),
{
    let entries = choose|entries: Seq<(char, u32)>| #[trigger]
        lists(entries, v.ids) && s == saved_text(v.size, entries);
    lemma_read_saved_text(v.size, entries);
    assert forall|i: int, j: int| 0 <= i < j < entries.len() implies (#[trigger] entries[i]).0 != (
    #[trigger] entries[j]).0 && entries[i].1 != entries[j].1 by {
        assert(entries.contains((entries[i].0, entries[i].1)));
        assert(entries.contains((entries[j].0, entries[j].1)));
        assert(entries[i] != entries[j]);
    }
    let blank = Vocab { size: v.size, ..Vocab::specials() };
    lemma_tie_all(blank, entries);
    let u = blank.tie_all(entries);
    assert forall|c: char| #[trigger] v.ids.contains_key(c) implies u.ids.contains_key(c)
        && u.ids[c] == v.ids[c] by {
        assert(entries.contains((c, v.ids[c])));
        let k = choose|k: int| 0 <= k < entries.len() && entries[k] == (c, v.ids[c]);
        assert(entries[k].0 == c);
    }
    assert forall|c: char| #[trigger] u.ids.contains_key(c) implies v.ids.contains_key(c) by {
        let k = choose|k: int| 0 <= k < entries.len() && (#[trigger] entries[k]).0 == c;
        assert(entries.contains((entries[k].0, entries[k].1)));
    }
    assert forall|id: u32| #[trigger] v.chars.contains_key(id) implies u.chars.contains_key(id)
        && u.chars[id] == v.chars[id] by {
        let c = v.chars[id];
        assert(entries.contains((c, id)));
        let k = choose|k: int| 0 <= k < entries.len() && entries[k] == (c, id);
        assert(entries[k].1 == id);
    }
    assert forall|id: u32| #[trigger] u.chars.contains_key(id) implies v.chars.contains_key(
        id,
    ) by {
        let k = choose|k: int| 0 <= k < entries.len() && (#[trigger] entries[k]).1 == id;
        assert(entries.contains((entries[k].0, entries[k].1)));
        assert(v.ids.contains_key(entries[k].0));
    }
    assert(u.ids =~= v.ids);
    assert(u.chars =~= v.chars);
}

/// Where no two characters share an id, a vocabulary has one saved form only.
pub proof fn saved_form_is_unique(v: Vocab, s: Seq<char>, t: Seq<char>)
    requires
        forall|c: char, d: char|
            #![trigger v.ids[c], v.ids[d]]
            v.ids.contains_key(c) && v.ids.contains_key(d) && v.ids[c] == v.ids[d] ==> c == d,
        is_saved_text(v, s),
        is_saved_text(v, t),
    ensures
        s == t,
{
    let a = choose|entries: Seq<(char, u32)>| #[trigger]
        lists(entries, v.ids) && s == saved_text(v.size, entries);
    let b = choose|entries: Seq<(char, u32)>| #[trigger]
        lists(entries, v.ids) && t == saved_text(v.size, entries);
    lemma_listing_unique(a, b, v.ids);
}

proof fn lemma_listing_unique(a: Seq<(char, u32)>, b: Seq<(char, u32)>, ids: Map<char, u32>)
    requires
        lists(a, ids),
        lists(b, ids),
        forall|c: char, d: char|
            #![trigger ids[c], ids[d]]
            ids.contains_key(c) && ids.contains_key(d) && ids[c] == ids[d] ==> c == d,
    ensures
        a == b,
{
    assert(a.to_set() =~= b.to_set()) by {
        assert forall|e: (char, u32)| a.contains(e) <==> b.contains(e) by {
            assert(a.contains((e.0, e.1)) <==> b.contains((e.0, e.1)));
        }
    }
    a.unique_seq_to_set();
    b.unique_seq_to_set();
    assert forall|k: int| 0 <= k < a.len() implies a[k] == b[k] by {
        lemma_same_rank(a, b, ids, k);
    }
    assert(a =~= b);
}

proof fn lemma_same_rank(a: Seq<(char, u32)>, b: Seq<(char, u32)>, ids: Map<char, u32>, k: int)
    requires
        lists(a, ids),
        lists(b, ids),
        a.len() == b.len(),
        forall|c: char, d: char|
            #![trigger ids[c], ids[d]]
            ids.contains_key(c) && ids.contains_key(d) && ids[c] == ids[d] ==> c == d,
        0 <= k < a.len(),
    ensures
        a[k] == b[k],
    decreases k,
{
    assert forall|j: int| 0 <= j < k implies a[j] == b[j] by {
        lemma_same_rank(a, b, ids, j);
    }
    assert(a.contains((a[k].0, a[k].1)));
    assert(b.contains((b[k].0, b[k].1)));
    assert(b.contains((a[k].0, a[k].1)));
    assert(a.contains((b[k].0, b[k].1)));
    let i = choose|i: int| 0 <= i < b.len() && b[i] == (a[k].0, a[k].1);
    let j = choose|j: int| 0 <= j < a.len() && a[j] == (b[k].0, b[k].1);
    if i < k {
        assert(a[i] == b[i]);
        assert(a[i] == a[k]);
    }
    if j < k {
        assert(a[j] == b[j]);
        assert(b[j] == b[k]);
    }
    assert(b[k].1 <= b[i].1);
    assert(a[k].1 <= a[j].1);
    assert(ids[a[k].0] == ids[b[k].0]);
}

/// Whether place `i` of a text is the first where its character appears, and the vocabulary lacks
/// the character.
pub open spec fn first_appears(v: Vocab, text: Seq<char>, i: int) -> bool {
    &&& 0 <= i < text.len()
    &&& !v.ids.contains_key(text[i])
    &&& forall|k: int| 0 <= k < i ==> text[k] != text[i]
}

/// Building the vocabulary further gives no id to a character that is not in the text.
pub proof fn build_vocab_adds_no_other(v: Vocab, text: Seq<char>)
    ensures
        forall|c: char| #[trigger]
            v.extended(text).ids.contains_key(c) ==> v.ids.contains_key(c) || text.contains(c),
    decreases text.len(),
{
    lemma_append_all(v, v.fresh(text));
    assert forall|c: char| #[trigger] v.extended(text).ids.contains_key(c) && !v.ids.contains_key(
        c,
    ) implies text.contains(c) by {
        assert(v.extended(text).ids.dom().contains(c));
        assert(v.fresh(text).to_set().contains(c));
        lemma_fresh_is_in(v, text, c);
    }
}

proof fn lemma_fresh_is_in(v: Vocab, text: Seq<char>, c: char)
    requires
        v.fresh(text).contains(c),
    ensures
        text.contains(c),
    decreases text.len(),
{
    if text.len() > 0 {
        let init = text.drop_last();
        let before = v.fresh(init);
        if before.contains(c) {
            lemma_fresh_is_in(v, init, c);
            let k = choose|k: int| 0 <= k < init.len() && init[k] == c;
            assert(text[k] == c);
        } else {
            assert(v.fresh(text) == before.push(text.last()));
            let k = choose|k: int| 0 <= k < v.fresh(text).len() && v.fresh(text)[k] == c;
            if k < before.len() {
                assert(before[k] == c);
            }
            assert(text[text.len() - 1] == c);
        }
    }
}

/// Of two characters new to a vocabulary, the one that appears first gets the lower id, and both get
/// ids behind those that were given before.
pub proof fn build_vocab_goes_by_first_appearance(v: Vocab, text: Seq<char>, i: int, j: int)
    requires
        v.numbered(),
        first_appears(v, text, i),
        first_appears(v, text, j),
        i < j,
    ensures
        v.size <= v.extended(text).ids[text[i]] < v.extended(text).ids[text[j]],
{
    let a = text.take(i);
    let b = text.take(j);
    lemma_first_appears(v, text, i);
    lemma_first_appears(v, text, j);
    lemma_extended_numbered(v, a);
    lemma_extended_numbered(v, b);
    lemma_append_all(v, v.fresh(a));
    build_vocab_keeps_ids(v, b);
    let w = v.extended(b);
    assert(b[i] == text[i]);
    assert(w.ids.contains_key(text[i]));
    assert(w.chars.contains_key(w.ids[text[i]]));
    assert(b + text.skip(j) =~= text);
    build_vocab_in_parts(v, b, text.skip(j));
    build_vocab_keeps_ids(w, text.skip(j));
    assert(v.extended(text).ids[text[i]] == w.ids[text[i]]);
}

/// A character gets the next id where it first appears.
proof fn lemma_first_appears(v: Vocab, text: Seq<char>, i: int)
    requires
        v.numbered(),
        first_appears(v, text, i),
    ensures
        v.extended(text).ids.contains_key(text[i]),
        v.extended(text).ids[text[i]] == v.extended(text.take(i)).size,
{
    let c = text[i];
    let a = text.take(i);
    let b = text.take(i + 1);
    assert(b.drop_last() =~= a);
    assert(b.last() == c);
    lemma_extended_numbered(v, a);
    if v.fresh(a).contains(c) {
        lemma_fresh_is_in(v, a, c);
        let k = choose|k: int| 0 <= k < a.len() && a[k] == c;
        assert(text[k] == c);
    }
    assert(v.fresh(b).drop_last() == v.fresh(a));
    let w = v.extended(b);
    assert(w == v.extended(a).append(c));
    lemma_extended_numbered(v, b);
    assert(b + text.skip(i + 1) =~= text);
    build_vocab_in_parts(v, b, text.skip(i + 1));
    build_vocab_keeps_ids(w, text.skip(i + 1));
    assert(w.ids.contains_key(c));
}

/// Characters new to a vocabulary get the next ids, in the order in which they first appear.
pub proof fn build_vocab_numbers_in_order(v: Vocab, text: Seq<char>, k: int)
    requires
        v.numbered(),
        0 <= k < v.fresh(text).len(),
    ensures
        v.extended(text).ids.contains_key(v.fresh(text)[k]),
        v.extended(text).ids[v.fresh(text)[k]] == v.size + k,
        v.extended(text).size == v.size + v.fresh(text).len(),
    decreases text.len(),
{
    let init = text.drop_last();
    lemma_extended_numbered(v, text);
    lemma_append_all(v, v.fresh(text));
    lemma_append_all(v, v.fresh(init));
    let known = v.extended(init);
    let c = text.last();
    if v.ids.contains_key(c) || v.fresh(init).contains(c) {
        build_vocab_numbers_in_order(v, init, k);
    } else {
        assert(v.fresh(text).drop_last() == v.fresh(init));
        assert(v.extended(text) == known.append(c));
        if k < v.fresh(init).len() {
            build_vocab_numbers_in_order(v, init, k);
            assert(v.fresh(init).contains(v.fresh(init)[k]));
        }
    }
}

proof fn lemma_append_all(v: Vocab, fresh: Seq<char>)
    ensures
        v.append_all(fresh).ids.dom() == v.ids.dom().union(fresh.to_set()),
        v.append_all(fresh).size == v.size + fresh.len(),
    decreases fresh.len(),
{
    broadcast use vstd::seq_lib::group_seq_properties;

    if fresh.len() > 0 {
        lemma_append_all(v, fresh.drop_last());
        assert(fresh == fresh.drop_last().push(fresh.last()));
    }
    assert(v.append_all(fresh).ids.dom() =~= v.ids.dom().union(fresh.to_set()));
}

proof fn lemma_fresh_grows(v: Vocab, text: Seq<char>, k: int)
    requires
        0 <= k <= text.len(),
    ensures
        v.fresh(text.take(k)).len() <= v.fresh(text).len(),
    decreases text.len() - k,
{
    if k < text.len() {
        lemma_fresh_grows(v, text, k + 1);
        assert(text.take(k + 1).drop_last() == text.take(k));
    } else {
        assert(text.take(k) == text);
    }
}

/// A vocabulary that numbers its characters from the special tokens on still does so after it
/// has been built further, and has room for every character there is.
pub proof fn lemma_extended_numbered(v: Vocab, text: Seq<char>)
    requires
        v.numbered(),
    ensures
        v.extended(text).numbered(),
        v.size + v.fresh(text).len() <= u32::MAX,
    decreases text.len(),
{
    if text.len() == 0 {
        assert(v.extended(text) == v);
    } else {
        let before = v.fresh(text.drop_last());
        lemma_extended_numbered(v, text.drop_last());
        lemma_append_all(v, before);
        let w = v.append_all(before);
        let c = text.last();
        if !(v.ids.contains_key(c) || before.contains(c)) {
            lemma_numbered_has_room(w);
            assert(v.fresh(text) == before.push(c));
            assert(before.push(c).drop_last() == before);
            assert(v.extended(text) == w.append(c));
            let u = w.append(c);
            assert(!w.ids.contains_key(c));
            assert forall|d: char| #[trigger] u.ids.contains_key(d) implies u.chars.contains_key(
                u.ids[d],
            ) && u.chars[u.ids[d]] == d by {
                if d != c {
                    assert(w.ids.contains_key(d));
                }
            }
            assert forall|id: u32| #[trigger] u.chars.contains_key(id) implies u.ids.contains_key(
                u.chars[id],
            ) && u.ids[u.chars[id]] == id by {
                if id != w.size as u32 {
                    assert(w.chars.contains_key(id));
                }
            }
        }
    }
}

/// There are fewer characters than ids: a vocabulary that numbers its characters is small.
proof fn lemma_numbered_has_room(v: Vocab)
    requires
        v.numbered(),
    ensures
        v.size <= NUM_SPECIAL + 0x11_0000,
{
    let codes = Seq::new((v.size - NUM_SPECIAL) as nat, |k: int| v.chars[(NUM_SPECIAL + k) as u32] as int);
    assert forall|i: int, j: int| 0 <= i < codes.len() && 0 <= j < codes.len() && i != j implies codes[i]
        != codes[j] by {
        let a = (NUM_SPECIAL + i) as u32;
        let b = (NUM_SPECIAL + j) as u32;
        assert(v.chars.contains_key(a) && v.chars.contains_key(b));
        assert(v.ids[v.chars[a]] == a);
        assert(v.ids[v.chars[b]] == b);
    }
    assert(codes.no_duplicates());
    codes.unique_seq_to_set();
    vstd::set_lib::lemma_int_range(0, 0x11_0000);
    assert(codes.to_set().subset_of(vstd::set_lib::set_int_range(0, 0x11_0000))) by {
        assert forall|x: int| codes.to_set().contains(x) implies 0 <= x < 0x11_0000 by {
            let k = choose|k: int| 0 <= k < codes.len() && codes[k] == x;
            lemma_char_range(v.chars[(NUM_SPECIAL + k) as u32]);
        }
    }
    vstd::set_lib::lemma_len_subset(codes.to_set(), vstd::set_lib::set_int_range(0, 0x11_0000));
}

proof fn lemma_char_range(c: char)
    ensures
        0 <= (c as int) < 0x11_0000,
{
}

} // verus!
