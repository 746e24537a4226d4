//! Encoding and decoding of whole strings, character by character, with the
//! key repeated along the text.
use crate::alphabet::in_alphabet;
use crate::table::{
    create_table, forward_table, holds_every_pair, is_key_char, is_table_pair,
    lemma_pair_code_splits, lemma_rotate_inverts, lemma_unrotate_inverts, pair_code, pair_key,
    reverse_table, rotate, unrotate,
};
use std::collections::HashMap;
use vstd::prelude::*;

verus! {

broadcast use vstd::std_specs::hash::group_hash_axioms;

/// Whether every character of `text` is one of the alphabet.
pub open spec fn is_plain_text(text: Seq<char>) -> bool {
    forall|i: int| 0 <= i < text.len() ==> in_alphabet(#[trigger] text[i])
}

/// Whether `key` can drive the cipher: it is not empty and every character
/// of it is printable ASCII.
pub open spec fn is_key(key: Seq<char>) -> bool {
    &&& key.len() > 0
    &&& forall|i: int| 0 <= i < key.len() ==> is_key_char(#[trigger] key[i])
}

/// The key character that belongs to place `p` of a text: the key is
/// repeated end to end along the text.
pub open spec fn key_char_at(key: Seq<char>, p: int) -> char
    recommends
        key.len() > 0,
        0 <= p,
{
    key[p % (key.len() as int)]
}

/// The cipher text of `text` under `key`.
pub open spec fn encoded(text: Seq<char>, key: Seq<char>) -> Seq<char>
    recommends
        is_plain_text(text),
        is_key(key),
{
    Seq::new(text.len(), |p: int| rotate(text[p], key_char_at(key, p)))
}

/// The plain text of `text` under `key`.
pub open spec fn decoded(text: Seq<char>, key: Seq<char>) -> Seq<char>
    recommends
        is_plain_text(text),
        is_key(key),
{
    Seq::new(text.len(), |p: int| unrotate(text[p], key_char_at(key, p)))
}

/// `text` with each character replaced by what `table` holds for its pair
/// with the key character of its place.
pub open spec fn substituted(table: Map<u64, char>, text: Seq<char>, key: Seq<char>) -> Seq<char> {
    Seq::new(text.len(), |p: int| table[pair_code(text[p], key_char_at(key, p))])
}

/// Looks each character of `text` up in `table`, paired with the key
/// character of its place.
fn substitute(table: &HashMap<u64, char>, text: &str, key: &str) -> (out: String)
    requires
        is_plain_text(text@),
        is_key(key@),
        holds_every_pair(table@),
    ensures
        out@ == substituted(table@, text@, key@),
{
    let key_bytes = key.as_bytes();
    let n = key_bytes.len();
    assert(key.is_ascii());
    let mut out = String::new();
    let mut key_pos: usize = 0;
    let chars = text.chars();
    for t in it: chars
        invariant
            it.seq() == text@,
            n == key@.len(),
            key_pos < n,
            is_plain_text(text@),
            is_key(key@),
            holds_every_pair(table@),
            key_bytes@.len() == n,
            forall|i: int| 0 <= i < n ==> key_bytes@[i] == key@[i] as u8,
            key_pos == it.index() % (n as int),
            out@ == substituted(table@, text@, key@).take(it.index()),
    {
        let ghost p = it.index();
        let k = key_bytes[key_pos] as char;
        assert(k == key_char_at(key@, p));
        proof {
            lemma_pair_code_splits(t, k);
            assert(is_table_pair(pair_code(t, k)));
        }
        let c = *table.get(&pair_key(t, k)).unwrap();
        out.push(c);
        key_pos = if key_pos + 1 == n {
            0
        } else {
            key_pos + 1
        };
        proof {
            assert(key_pos == (p + 1) % (n as int)) by (nonlinear_arith)
                requires
                    0 <= p,
                    n > 0,
                    key_pos == (if (p % (n as int)) + 1 == n { 0 } else { (p % (n as int)) + 1 }),
            ;
            assert(out@ =~= substituted(table@, text@, key@).take(p + 1));
        }
    }
    assert(out@ =~= substituted(table@, text@, key@));
    out
}

/// Encodes `text` under `key`: each character is turned forward in the
/// alphabet by the offset of the key character of its place. The result is
/// a function of `text` and `key` alone: the same two give the same result.
pub fn encode(text: &str, key: &str) -> (out: String)
    requires
        is_plain_text(text@),
        is_key(key@),
    ensures
        out@ == encoded(text@, key@),
        out@.len() == text@.len(),
        is_plain_text(out@),
{
    let (table, _) = create_table();
    let out = substitute(&table, text, key);
    proof {
        lemma_tables_turn(text@, key@);
        lemma_encoded_is_plain(text@, key@);
    }
    out
}

/// Decodes `text` under `key`: each character is turned backward in the
/// alphabet by the offset of the key character of its place. The result is
/// a function of `text` and `key` alone: the same two give the same result.
pub fn decode(text: &str, key: &str) -> (out: String)
    requires
        is_plain_text(text@),
        is_key(key@),
    ensures
        out@ == decoded(text@, key@),
        out@.len() == text@.len(),
        is_plain_text(out@),
{
    let (_, table) = create_table();
    let out = substitute(&table, text, key);
    proof {
        lemma_tables_turn(text@, key@);
        lemma_decoded_is_plain(text@, key@);
    }
    out
}

/// A cipher text is made of characters of the alphabet, as many as the
/// plain text has.
pub proof fn lemma_encoded_is_plain(text: Seq<char>, key: Seq<char>)
    requires
        is_plain_text(text),
        is_key(key),
    ensures
        encoded(text, key).len() == text.len(),
        is_plain_text(encoded(text, key)),
{
    assert forall|p: int| 0 <= p < text.len() implies in_alphabet(
        #[trigger] encoded(text, key)[p],
    ) by {
        let k = key_char_at(key, p);
        assert(is_key_char(k));
        lemma_rotate_inverts(text[p], k);
    }
}

/// A decoded text is made of characters of the alphabet, as many as the
/// cipher text has.
pub proof fn lemma_decoded_is_plain(text: Seq<char>, key: Seq<char>)
    requires
        is_plain_text(text),
        is_key(key),
    ensures
        decoded(text, key).len() == text.len(),
        is_plain_text(decoded(text, key)),
{
    assert forall|p: int| 0 <= p < text.len() implies in_alphabet(
        #[trigger] decoded(text, key)[p],
    ) by {
        let k = key_char_at(key, p);
        assert(is_key_char(k));
        lemma_unrotate_inverts(text[p], k);
    }
}

/// Reading the forward table pair by pair is turning each character
/// forward, and reading the reverse table is turning each backward.
pub proof fn lemma_tables_turn(text: Seq<char>, key: Seq<char>)
    requires
        is_plain_text(text),
        is_key(key),
    ensures
        substituted(forward_table(), text, key) == encoded(text, key),
        substituted(reverse_table(), text, key) == decoded(text, key),
{
    assert forall|p: int| 0 <= p < text.len() implies #[trigger] substituted(
        forward_table(),
        text,
        key,
    )[p] == encoded(text, key)[p] && substituted(reverse_table(), text, key)[p] == decoded(
        text,
        key,
    )[p] by {
        let k = key_char_at(key, p);
        assert(is_key_char(k));
        lemma_pair_code_splits(text[p], k);
    }
    assert(substituted(forward_table(), text, key) =~= encoded(text, key));
    assert(substituted(reverse_table(), text, key) =~= decoded(text, key));
}

/// Decoding what was encoded under the same key gives the text back.
pub proof fn lemma_round_trip(text: Seq<char>, key: Seq<char>)
    requires
        is_plain_text(text),
        is_key(key),
    ensures
        decoded(encoded(text, key), key) == text,
{
    assert forall|p: int| 0 <= p < text.len() implies #[trigger] decoded(encoded(text, key), key)[p]
        == text[p] by {
        let k = key_char_at(key, p);
        assert(is_key_char(k));
        lemma_rotate_inverts(text[p], k);
    }
    assert(decoded(encoded(text, key), key) =~= text);
}

/// Encoding what was decoded under the same key gives the text back. This
/// holds of every text over the alphabet, so of every cipher text too.
pub proof fn lemma_round_trip_back(text: Seq<char>, key: Seq<char>)
    requires
        is_plain_text(text),
        is_key(key),
    ensures
        encoded(decoded(text, key), key) == text,
{
    assert forall|p: int| 0 <= p < text.len() implies #[trigger] encoded(decoded(text, key), key)[p]
        == text[p] by {
        let k = key_char_at(key, p);
        assert(is_key_char(k));
        lemma_unrotate_inverts(text[p], k);
    }
    assert(encoded(decoded(text, key), key) =~= text);
}

/// The key is reused from its start once the text outruns it: the place
/// one key length further on gets the same key character, and each place of
/// the result is its own character turned by the key character of its place.
pub proof fn lemma_key_cycles(text: Seq<char>, key: Seq<char>, p: int)
    requires
        key.len() > 0,
        0 <= p < text.len(),
    ensures
        0 <= p % (key.len() as int) < key.len(),
        key_char_at(key, p + key.len()) == key_char_at(key, p),
        encoded(text, key)[p] == rotate(text[p], key[p % (key.len() as int)]),
        decoded(text, key)[p] == unrotate(text[p], key[p % (key.len() as int)]),
{
    let n = key.len() as int;
    assert(0 <= p % n < n && (p + n) % n == p % n) by (nonlinear_arith)
        requires
            n > 0,
            0 <= p,
    ;
}

/// Whether `c` is one of the 62 characters of the alphabet.
pub fn is_alphabet_char(c: char) -> (b: bool)
    ensures
        b == in_alphabet(c),
{
    ('0' <= c && c <= '9') || ('A' <= c && c <= 'Z') || ('a' <= c && c <= 'z')
}

/// Whether `c` is printable ASCII, and so may stand in a key.
pub fn is_key_character(c: char) -> (b: bool)
    ensures
        b == is_key_char(c),
{
    ' ' <= c && c <= '~'
}

/// Whether `text` can be encoded or decoded: every character of it is one
/// of the alphabet.
pub fn is_valid_text(text: &str) -> (b: bool)
    ensures
        b == is_plain_text(text@),
{
    let chars = text.chars();
    for c in it: chars
        invariant
            it.seq() == text@,
            forall|i: int| 0 <= i < it.index() ==> in_alphabet(#[trigger] text@[i]),
    {
        if !is_alphabet_char(c) {
            assert(!in_alphabet(text@[it.index()]));
            return false;
        }
    }
    true
}

/// Whether `key` can drive the cipher: it is not empty and every character
/// of it is printable ASCII.
pub fn is_valid_key(key: &str) -> (b: bool)
    ensures
        b == is_key(key@),
{
    if key.is_empty() {
        return false;
    }
    let chars = key.chars();
    for c in it: chars
        invariant
            it.seq() == key@,
            key@.len() > 0,
            forall|i: int| 0 <= i < it.index() ==> is_key_char(#[trigger] key@[i]),
    {
        if !is_key_character(c) {
            assert(!is_key_char(key@[it.index()]));
            return false;
        }
    }
    true
}

/// Why a text and a key cannot be encoded or decoded.
#[derive(Debug, Clone, Copy, PartialEq, Eq)]
pub enum CipherError {
    /// The key has no character.
    EmptyKey,
    /// The key holds a character that is not printable ASCII.
    KeyCharacterOutOfRange,
    /// The text holds a character that is not of the alphabet.
    TextCharacterOutOfAlphabet,
}

impl CipherError {
    /// The words that [`CipherError::message`] gives for this error.
    pub open spec fn message_text(self) -> Seq<char> {
        match self {
            CipherError::EmptyKey => "key must be non-empty"@,
            CipherError::KeyCharacterOutOfRange => "unsupported key character"@,
            CipherError::TextCharacterOutOfAlphabet => "unsupported character"@,
        }
    }

    /// A short description of the error.
    pub fn message(&self) -> (s: String)
        ensures
            s@ == self.message_text(),
    {
        match self {
            CipherError::EmptyKey => "key must be non-empty".to_owned(),
            CipherError::KeyCharacterOutOfRange => "unsupported key character".to_owned(),
            CipherError::TextCharacterOutOfAlphabet => "unsupported character".to_owned(),
        }
    }
}

/// What is wrong with a text and a key, if anything. The key is looked at
/// first: an empty key, then a key character out of range, then a text
/// character out of the alphabet.
pub open spec fn input_error(text: Seq<char>, key: Seq<char>) -> Option<CipherError> {
    if key.len() == 0 {
        Some(CipherError::EmptyKey)
    } else if !is_key(key) {
        Some(CipherError::KeyCharacterOutOfRange)
    } else if !is_plain_text(text) {
        Some(CipherError::TextCharacterOutOfAlphabet)
    } else {
        None
    }
}

/// Finds what is wrong with a text and a key, if anything.
pub fn validate_input(text: &str, key: &str) -> (r: Result<(), CipherError>)
    ensures
        match r {
            Ok(_) => input_error(text@, key@) is None,
            Err(e) => input_error(text@, key@) == Some(e),
        },
{
    if key.is_empty() {
        Err(CipherError::EmptyKey)
    } else if !is_valid_key(key) {
        Err(CipherError::KeyCharacterOutOfRange)
    } else if !is_valid_text(text) {
        Err(CipherError::TextCharacterOutOfAlphabet)
    } else {
        Ok(())
    }
}

/// Encodes `text` under `key` as [`encode`] does, after validating both: a
/// text or key that cannot be encoded is answered with the error.
pub fn try_encode(text: &str, key: &str) -> (r: Result<String, CipherError>)
    ensures
        match r {
            Ok(out) => input_error(text@, key@) is None && out@ == encoded(text@, key@),
            Err(e) => input_error(text@, key@) == Some(e),
        },
{
    match validate_input(text, key) {
        Ok(_) => Ok(encode(text, key)),
        Err(e) => Err(e),
    }
}

/// Decodes `text` under `key` as [`decode`] does, after validating both: a
/// text or key that cannot be decoded is answered with the error.
pub fn try_decode(text: &str, key: &str) -> (r: Result<String, CipherError>)
    ensures
        match r {
            Ok(out) => input_error(text@, key@) is None && out@ == decoded(text@, key@),
            Err(e) => input_error(text@, key@) == Some(e),
        },
{
    match validate_input(text, key) {
        Ok(_) => Ok(decode(text, key)),
        Err(e) => Err(e),
    }
}

} // verus!
