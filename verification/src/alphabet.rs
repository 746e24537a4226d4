//! The alphabet: `0-9`, then `A-Z`, then `a-z`, 62 characters in that order.
use vstd::prelude::*;

verus! {

/// Number of characters in the alphabet.
pub const ALPHABET_LEN: usize = 62;

/// Whether `c` is one of the 62 characters.
pub open spec fn in_alphabet(c: char) -> bool {
    let n = c as int;
    48 <= n <= 57 || 65 <= n <= 90 || 97 <= n <= 122
}

/// The character at place `i` of the alphabet.
pub open spec fn alphabet_at(i: int) -> char
    recommends
        0 <= i < 62,
{
    if i < 10 {
        (i + 48) as char
    } else if i < 36 {
        (i + 55) as char
    } else {
        (i + 61) as char
    }
}

/// The place of `c` in the alphabet.
pub open spec fn alphabet_index(c: char) -> int
    recommends
        in_alphabet(c),
{
    let n = c as int;
    if n <= 57 {
        n - 48
    } else if n <= 90 {
        n - 55
    } else {
        n - 61
    }
}

/// The whole alphabet, in order.
pub open spec fn alphabet() -> Seq<char> {
    Seq::new(ALPHABET_LEN as nat, |i: int| alphabet_at(i))
}

/// Every place below 62 holds a character of the alphabet, and that
/// character's place is the one it was taken from.
pub proof fn lemma_index_of_at(i: int)
    requires
        0 <= i < 62,
    ensures
        in_alphabet(alphabet_at(i)),
        alphabet_index(alphabet_at(i)) == i,
{
}

/// Every character of the alphabet has a place below 62, and that place
/// holds the character.
pub proof fn lemma_at_of_index(c: char)
    requires
        in_alphabet(c),
    ensures
        0 <= alphabet_index(c) < 62,
        alphabet_at(alphabet_index(c)) == c,
{
}

/// No character stands at two places of the alphabet.
pub proof fn lemma_alphabet_distinct(i: int, j: int)
    requires
        0 <= i < 62,
        0 <= j < 62,
        alphabet_at(i) == alphabet_at(j),
    ensures
        i == j,
{
    lemma_index_of_at(i);
    lemma_index_of_at(j);
}

/// The alphabet rises strictly: a later place holds a greater character.
pub proof fn lemma_alphabet_increasing(i: int, j: int)
    requires
        0 <= i < j < 62,
    ensures
        (alphabet_at(i) as int) < (alphabet_at(j) as int),
{
}

/// A cursor over the alphabet. It starts before `'0'`, hands out one
/// character per call of [`Txt::next`], and is spent after `'z'`.
pub struct Txt(u8);

impl View for Txt {
    type V = Seq<char>;

    /// The characters that are still to come, in order.
    closed spec fn view(&self) -> Seq<char> {
        alphabet().skip(self.taken())
    }
}

impl Txt {
    #[verifier::type_invariant]
    spec fn on_a_place(self) -> bool {
        48 <= self.0 <= 57 || 65 <= self.0 <= 90 || 97 <= self.0 <= 123
    }

    /// How many characters the cursor has passed.
    spec fn taken(self) -> int {
        if self.0 <= 57 {
            self.0 - 48
        } else if self.0 <= 90 {
            self.0 - 55
        } else {
            self.0 - 61
        }
    }

    /// A cursor at the start: the whole alphabet is still to come.
    pub fn new() -> (r: Txt)
        ensures
            r@ == alphabet(),
    {
        let r = Txt(48);
        assert(r@ =~= alphabet());
        r
    }

    /// Hands out the next character and moves past it; `None`, with the
    /// cursor unchanged, once the alphabet is spent.
    pub fn next(&mut self) -> (r: Option<char>)
        ensures
            old(self)@.len() <= 62,
            match r {
                Some(c) => old(self)@.len() > 0 && c == old(self)@[0] && final(self)@ == old(
                    self,
                )@.drop_first(),
                None => old(self)@.len() == 0 && final(self)@ == old(self)@,
            },
    {
        proof {
            use_type_invariant(&*self);
        }
        let code: u8 = self.0;
        if code == 123 {
            return None;
        }
        let c = code as char;
        let after: u8 = if code == 57 {
            65
        } else if code == 90 {
            97
        } else {
            code + 1
        };
        self.0 = after;
        proof {
            assert(final(self)@ =~= old(self)@.drop_first());
        }
        Some(c)
    }

    /// Runs the cursor to its end and returns what it handed out.
    pub fn collect(self) -> (v: Vec<char>)
        ensures
            v@ == self@,
    {
        let mut it = self;
        let mut v: Vec<char> = Vec::new();
        loop
            invariant
                v@ + it@ == self@,
            decreases it@.len(),
        {
            match it.next() {
                Some(c) => {
                    v.push(c);
                    assert(v@ + it@ =~= self@);
                },
                None => {
                    assert(v@ =~= self@);
                    return v;
                },
            }
        }
    }
}

} // verus!
