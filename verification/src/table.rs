//! The two lookup tables. Each is keyed by a pair of characters, one of the
//! alphabet and one of the key range, folded into a single integer.
use crate::alphabet::{
    alphabet, alphabet_at, alphabet_index, in_alphabet, lemma_at_of_index, lemma_index_of_at, Txt,
};
use std::collections::HashMap;
use vstd::prelude::*;

verus! {

broadcast use vstd::std_specs::hash::group_hash_axioms;

/// The lowest code point of a key character (the space).
pub const KEY_FIRST: u8 = 32;

/// The highest code point of a key character (the tilde).
pub const KEY_LAST: u8 = 126;

/// Number of entries in each table: one per pair of an alphabet character
/// with a key character.
pub const TABLE_LEN: usize = 5890;

/// The factor that keeps the two halves of a pair apart: one more than the
/// highest code point a `char` can have.
pub const PAIR_RADIX: u64 = 0x11_0000;

/// Whether `k` is a printable ASCII character, code point 32 to 126.
pub open spec fn is_key_char(k: char) -> bool {
    KEY_FIRST <= k as int <= KEY_LAST
}

/// How far a key character turns the alphabet: its distance from the space.
pub open spec fn key_offset(k: char) -> int {
    k as int - KEY_FIRST
}

/// What a plain character becomes under a key character: the alphabet is
/// walked forward, cyclically, by the key character's offset.
pub open spec fn rotate(t: char, k: char) -> char
    recommends
        in_alphabet(t),
        is_key_char(k),
{
    alphabet_at((alphabet_index(t) + key_offset(k)) % 62)
}

/// What a cipher character came from under a key character: the alphabet is
/// walked backward, cyclically, by the key character's offset.
pub open spec fn unrotate(c: char, k: char) -> char
    recommends
        in_alphabet(c),
        is_key_char(k),
{
    alphabet_at((alphabet_index(c) - key_offset(k)) % 62)
}

/// The integer that stands for the pair of `t` and `k`.
pub open spec fn pair_code(t: char, k: char) -> u64 {
    (t as int * PAIR_RADIX + k as int) as u64
}

/// The first character of the pair that `p` stands for.
pub open spec fn pair_text(p: u64) -> char {
    (p as int / (PAIR_RADIX as int)) as char
}

/// The second character of the pair that `p` stands for.
pub open spec fn pair_key_char(p: u64) -> char {
    (p as int % (PAIR_RADIX as int)) as char
}

/// Whether `p` stands for a pair that the tables hold: a character of the
/// alphabet with a key character.
pub open spec fn is_table_pair(p: u64) -> bool {
    &&& in_alphabet(pair_text(p))
    &&& is_key_char(pair_key_char(p))
    &&& p == pair_code(pair_text(p), pair_key_char(p))
}

/// The table for encoding: each pair of a plain character and a key
/// character leads to the plain character turned by the key character.
pub open spec fn forward_table() -> Map<u64, char> {
    Map::new(|p: u64| is_table_pair(p), |p: u64| rotate(pair_text(p), pair_key_char(p)))
}

/// The table for decoding: each pair of a cipher character and a key
/// character leads to the cipher character turned back.
pub open spec fn reverse_table() -> Map<u64, char> {
    Map::new(|p: u64| is_table_pair(p), |p: u64| unrotate(pair_text(p), pair_key_char(p)))
}

/// A pair's integer gives both characters back.
pub proof fn lemma_pair_code_splits(t: char, k: char)
    ensures
        pair_text(pair_code(t, k)) == t,
        pair_key_char(pair_code(t, k)) == k,
        pair_code(t, k) as int == t as int * PAIR_RADIX + k as int,
{
}

/// Folds a pair of characters into the integer that keys the tables.
pub fn pair_key(t: char, k: char) -> (p: u64)
    ensures
        p == pair_code(t, k),
{
    (t as u64) * PAIR_RADIX + (k as u64)
}

/// Turning a character of the alphabet forward gives a character of the
/// alphabet, and turning that one backward by the same key character gives
/// the first one back.
pub proof fn lemma_rotate_inverts(t: char, k: char)
    requires
        in_alphabet(t),
        is_key_char(k),
    ensures
        in_alphabet(rotate(t, k)),
        unrotate(rotate(t, k), k) == t,
{
    let turned = (alphabet_index(t) + key_offset(k)) % 62;
    lemma_at_of_index(t);
    lemma_index_of_at(turned);
    assert((turned - key_offset(k)) % 62 == alphabet_index(t));
}

/// Turning a character of the alphabet backward gives a character of the
/// alphabet, and turning that one forward by the same key character gives
/// the first one back.
pub proof fn lemma_unrotate_inverts(c: char, k: char)
    requires
        in_alphabet(c),
        is_key_char(k),
    ensures
        in_alphabet(unrotate(c, k)),
        rotate(unrotate(c, k), k) == c,
{
    let turned = (alphabet_index(c) - key_offset(k)) % 62;
    lemma_at_of_index(c);
    lemma_index_of_at(turned);
    assert((turned + key_offset(k)) % 62 == alphabet_index(c));
}

/// Under every key character the forward table is a one-to-one map of the
/// alphabet onto itself, and the reverse table is its inverse: what one
/// table gives for a character, the other takes back to that character.
pub proof fn lemma_tables_inverse(k: char)
    requires
        is_key_char(k),
    ensures
        forall|t: char|
            in_alphabet(t) ==> {
                let c = forward_table()[#[trigger] pair_code(t, k)];
                &&& forward_table().contains_key(pair_code(t, k))
                &&& in_alphabet(c)
                &&& reverse_table().contains_key(pair_code(c, k))
                &&& reverse_table()[pair_code(c, k)] == t
            },
        forall|c: char|
            in_alphabet(c) ==> {
                let t = reverse_table()[#[trigger] pair_code(c, k)];
                &&& reverse_table().contains_key(pair_code(c, k))
                &&& in_alphabet(t)
                &&& forward_table().contains_key(pair_code(t, k))
                &&& forward_table()[pair_code(t, k)] == c
            },
        forall|t1: char, t2: char|
            #![trigger pair_code(t1, k), pair_code(t2, k)]
            in_alphabet(t1) && in_alphabet(t2) && forward_table()[pair_code(t1, k)]
                == forward_table()[pair_code(t2, k)] ==> t1 == t2,
        forall|c: char|
            in_alphabet(c) ==> exists|t: char|
                in_alphabet(t) && forward_table()[#[trigger] pair_code(t, k)] == c,
{
    assert forall|t: char| in_alphabet(t) implies {
        let c = forward_table()[#[trigger] pair_code(t, k)];
        &&& forward_table().contains_key(pair_code(t, k))
        &&& in_alphabet(c)
        &&& reverse_table().contains_key(pair_code(c, k))
        &&& reverse_table()[pair_code(c, k)] == t
    } by {
        lemma_pair_code_splits(t, k);
        lemma_rotate_inverts(t, k);
        lemma_pair_code_splits(rotate(t, k), k);
    }
    assert forall|c: char| in_alphabet(c) implies {
        let t = reverse_table()[#[trigger] pair_code(c, k)];
        &&& reverse_table().contains_key(pair_code(c, k))
        &&& in_alphabet(t)
        &&& forward_table().contains_key(pair_code(t, k))
        &&& forward_table()[pair_code(t, k)] == c
    } by {
        lemma_pair_code_splits(c, k);
        lemma_unrotate_inverts(c, k);
        lemma_pair_code_splits(unrotate(c, k), k);
    }
    assert forall|c: char| in_alphabet(c) implies exists|t: char|
        in_alphabet(t) && forward_table()[#[trigger] pair_code(t, k)] == c by {
        let t = reverse_table()[pair_code(c, k)];
        assert(in_alphabet(t) && forward_table()[pair_code(t, k)] == c);
    }
}

/// Whether the pair of the plain character at place `i` with the key
/// character of code point `kc` has been entered once the builder stands at
/// place `pos` and code point `k`.
spec fn entered(i: int, kc: int, pos: int, k: int) -> bool {
    i < pos || (i == pos && kc < k)
}

/// The place of the plain character behind the pair `p` of the reverse table.
spec fn source_place(p: u64) -> int {
    (alphabet_index(pair_text(p)) - key_offset(pair_key_char(p))) % 62
}

/// What the two tables hold while the builder stands at place `pos` and code
/// point `k`: the entries for every plain character before `pos`, and for the
/// one at `pos` those of the key characters below `k`.
spec fn filled(fwd: Map<u64, char>, rev: Map<u64, char>, pos: int, k: int) -> bool {
    &&& forall|p: u64| #[trigger]
        fwd.contains_key(p) <==> is_table_pair(p) && entered(
            alphabet_index(pair_text(p)),
            pair_key_char(p) as int,
            pos,
            k,
        )
    &&& forall|p: u64| #[trigger]
        fwd.contains_key(p) ==> fwd[p] == rotate(pair_text(p), pair_key_char(p))
    &&& forall|p: u64| #[trigger]
        rev.contains_key(p) <==> is_table_pair(p) && entered(
            source_place(p),
            pair_key_char(p) as int,
            pos,
            k,
        )
    &&& forall|p: u64| #[trigger]
        rev.contains_key(p) ==> rev[p] == unrotate(pair_text(p), pair_key_char(p))
}

/// Turning forward by an offset and back by the same offset returns to the
/// starting place, and only the turned place leads back to it.
proof fn lemma_turn_back(pos: int, off: int)
    requires
        0 <= pos < 62,
        0 <= off <= 94,
    ensures
        0 <= (pos + off) % 62 < 62,
        (((pos + off) % 62) - off) % 62 == pos,
        forall|j: int| 0 <= j < 62 && #[trigger] ((j - off) % 62) == pos ==> j == (pos + off) % 62,
{
}

/// Builds both tables: the first for encoding, the second for decoding.
///
/// For each plain character, in alphabet order, the key characters are taken
/// in rising order while a place in the alphabet, starting at the plain
/// character's own, moves on by one, cyclically. The forward table gets the
/// plain character's pair with the character at that place; the reverse table
/// gets that character's pair with the plain character.
pub fn create_table() -> (r: (HashMap<u64, char>, HashMap<u64, char>))
    ensures
        r.0@ == forward_table(),
        r.1@ == reverse_table(),
        r.0@.dom().finite() && r.0@.len() == TABLE_LEN,
        r.1@.dom().finite() && r.1@.len() == TABLE_LEN,
{
    let mut table: HashMap<u64, char> = HashMap::new();
    let mut table_rev: HashMap<u64, char> = HashMap::new();
    let txt = Txt::new().collect();
    for pos in 0..txt.len()
        invariant
            txt@ == alphabet(),
            filled(table@, table_rev@, pos as int, 32),
            table@.dom().finite() && table@.len() == pos * 95,
            table_rev@.dom().finite() && table_rev@.len() == pos * 95,
    {
        let t = txt[pos];
        let mut idx: usize = pos;
        for k in KEY_FIRST..KEY_LAST + 1
            invariant
                txt@ == alphabet(),
                pos < 62,
                t == alphabet_at(pos as int),
                idx == (pos + k - 32) % 62,
                filled(table@, table_rev@, pos as int, k as int),
                table@.dom().finite() && table@.len() == pos * 95 + (k - 32),
                table_rev@.dom().finite() && table_rev@.len() == pos * 95 + (k - 32),
        {
            let kc = k as char;
            let c = txt[idx];
            let pair = pair_key(t, kc);
            let pair_rev = pair_key(c, kc);
            proof {
                lemma_turn_back(pos as int, k - 32);
                lemma_pair_code_splits(t, kc);
                lemma_pair_code_splits(c, kc);
            }
            table.insert(pair, c);
            table_rev.insert(pair_rev, t);
            idx = (idx + 1) % txt.len();
        }
    }
    proof {
        assert(table@ =~= forward_table());
        assert(table_rev@ =~= reverse_table());
    }
    (table, table_rev)
}

/// Whether `table` has an entry for every pair of an alphabet character
/// with a key character.
pub open spec fn holds_every_pair(table: Map<u64, char>) -> bool {
    forall|p: u64| is_table_pair(p) ==> table.contains_key(p)
}

/// The first `n` columns of the grid's heading: before each alphabet
/// character a space.
pub open spec fn heading_cells(n: int) -> Seq<char> {
    Seq::new(
        (2 * n) as nat,
        |i: int|
            if i % 2 == 0 {
                ' '
            } else {
                alphabet_at(i / 2)
            },
    )
}

/// The first `n` cells of the grid's row for `k`: after each entry a space.
pub open spec fn row_cells(table: Map<u64, char>, k: char, n: int) -> Seq<char> {
    Seq::new(
        (2 * n) as nat,
        |i: int|
            if i % 2 == 0 {
                table[pair_code(alphabet_at(i / 2), k)]
            } else {
                ' '
            },
    )
}

/// The heading line of the grid: a space, the 62 columns, a line feed.
pub open spec fn grid_heading() -> Seq<char> {
    seq![' '] + heading_cells(62) + seq!['\n']
}

/// The grid's line for the key character `k`: the key character, a space,
/// the 62 cells, a line feed.
pub open spec fn grid_row(table: Map<u64, char>, k: char) -> Seq<char> {
    seq![k, ' '] + row_cells(table, k, 62) + seq!['\n']
}

/// The grid's lines for the first `n` key characters, the space first.
pub open spec fn grid_rows(table: Map<u64, char>, n: nat) -> Seq<char>
    decreases n,
{
    if n == 0 {
        Seq::empty()
    } else {
        grid_rows(table, (n - 1) as nat) + grid_row(table, (31 + n) as char)
    }
}

/// The whole grid: the heading, then one line per key character in rising
/// order, each with one cell per alphabet character in alphabet order.
pub open spec fn grid(table: Map<u64, char>) -> Seq<char> {
    grid_heading() + grid_rows(table, 95)
}

/// Lays `table` out as a grid of text, ready to be printed.
pub fn render_table(table: &HashMap<u64, char>) -> (out: String)
    requires
        holds_every_pair(table@),
    ensures
        out@ == grid(table@),
{
    let txt = Txt::new().collect();
    let mut out = String::new();
    out.push(' ');
    for j in 0..txt.len()
        invariant
            txt@ == alphabet(),
            out@ == seq![' '] + heading_cells(j as int),
    {
        out.push(' ');
        out.push(txt[j]);
        assert(out@ =~= seq![' '] + heading_cells(j + 1));
    }
    out.push('\n');
    assert(out@ =~= grid_heading() + grid_rows(table@, 0));
    for k in KEY_FIRST..KEY_LAST + 1
        invariant
            txt@ == alphabet(),
            holds_every_pair(table@),
            out@ == grid_heading() + grid_rows(table@, (k - 32) as nat),
    {
        let kc = k as char;
        let ghost above = out@;
        out.push(kc);
        out.push(' ');
        for j in 0..txt.len()
            invariant
                txt@ == alphabet(),
                holds_every_pair(table@),
                is_key_char(kc),
                out@ == above + seq![kc, ' '] + row_cells(table@, kc, j as int),
        {
            let t = txt[j];
            proof {
                lemma_pair_code_splits(t, kc);
                assert(is_table_pair(pair_code(t, kc)));
            }
            let c = *table.get(&pair_key(t, kc)).unwrap();
            out.push(c);
            out.push(' ');
            assert(out@ =~= above + seq![kc, ' '] + row_cells(table@, kc, j + 1));
        }
        out.push('\n');
        assert(out@ =~= above + grid_row(table@, kc));
        assert(out@ =~= grid_heading() + grid_rows(table@, (k + 1 - 32) as nat));
    }
    out
}

} // verus!
