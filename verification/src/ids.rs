//! Identifiers. Each entity is named by a ULID: a 128-bit value whose text form
//! is 26 characters of Crockford base 32.

use vstd::arithmetic::div_mod::{lemma_div_denominator, lemma_fundamental_div_mod};
use vstd::arithmetic::power::{lemma_pow_positive, pow};
use vstd::prelude::*;

verus! {

/// The Crockford base-32 digit for `d` (0 to 31), as the `ulid` crate writes it.
pub open spec fn crockford_digit(d: int) -> char {
    seq![
        '0', '1', '2', '3', '4', '5', '6', '7', '8', '9', 'A', 'B', 'C', 'D', 'E', 'F', 'G', 'H',
        'J', 'K', 'M', 'N', 'P', 'Q', 'R', 'S', 'T', 'V', 'W', 'X', 'Y', 'Z',
    ][d]
}

/// The canonical text of a ULID: 26 base-32 digits, most significant first.
pub open spec fn ulid_text(value: u128) -> Seq<char> {
    Seq::new(26, |i: int| crockford_digit((value as int / pow(32, (25 - i) as nat)) % 32))
}

/// A fresh ULID from `ulid::Ulid::new`. It depends on the clock and on a random
/// number, so nothing is stated of it.
#[verifier::external_body]
fn fresh_ulid_value() -> u128 {
    ulid::Ulid::new().0
}

/// The text of a ULID, from `ulid::Ulid::to_string`, which writes the value as 26
/// Crockford base-32 digits, most significant first.
#[verifier::external_body]
fn ulid_value_text(value: u128) -> (r: String)
    ensures
        r@ == ulid_text(value),
{
    ulid::Ulid(value).to_string()
}

/// The value of an upper-case letter among the Crockford digits; -1 for `I`,
/// `L`, `O`, `U` and any other character code.
pub open spec fn crockford_letter_value(n: int) -> int {
    if 0x41 <= n <= 0x48 {
        n - 0x41 + 10
    } else if 0x4a <= n <= 0x4b {
        n - 0x4a + 18
    } else if 0x4d <= n <= 0x4e {
        n - 0x4d + 20
    } else if 0x50 <= n <= 0x54 {
        n - 0x50 + 22
    } else if 0x56 <= n <= 0x5a {
        n - 0x56 + 27
    } else {
        -1
    }
}

/// The value of one character of a ULID's text as `ulid` reads it: a decimal
/// digit, or a Crockford letter in either case. -1 for any other character.
pub open spec fn crockford_value(c: char) -> int {
    let n = c as u32 as int;
    if 0x30 <= n <= 0x39 {
        n - 0x30
    } else if 0x61 <= n <= 0x7a {
        crockford_letter_value(n - 0x20)
    } else {
        crockford_letter_value(n)
    }
}

/// The number that base-32 digits `s` stand for, most significant first.
pub open spec fn base32_value(s: Seq<char>) -> int
    decreases s.len(),
{
    if s.len() == 0 {
        0
    } else {
        base32_value(s.drop_last()) * 32 + crockford_value(s.last())
    }
}

/// What `ulid::Ulid::from_string` gives for a text: a value when the text is 26
/// Crockford digits (in either case), the digits' number taken modulo 2^128 as
/// the decoder shifts it into a `u128`; nothing otherwise.
pub open spec fn ulid_decoded(s: Seq<char>) -> Option<u128> {
    if s.len() == 26 && (forall|i: int| 0 <= i < 26 ==> crockford_value(#[trigger] s[i]) >= 0) {
        Some((base32_value(s) % (u128::MAX as int + 1)) as u128)
    } else {
        None
    }
}

/// Reads a ULID from its text with `ulid::Ulid::from_string`. That decoder
/// refuses a text whose length in bytes is not 26 and a byte outside the
/// Crockford digits (either case); otherwise it shifts each digit's five bits
/// into a `u128`, so only the low 128 bits of the number remain. A character
/// outside ASCII is never a digit, so the length in characters decides as the
/// length in bytes does.
#[verifier::external_body]
fn ulid_value_parse(text: &str) -> (r: Option<u128>)
    ensures
        r == ulid_decoded(text@),
{
    match ulid::Ulid::from_string(text) {
        Ok(u) => Some(u.0),
        Err(_) => None,
    }
}

/// The value read from the digit written for `d` is `d`.
pub proof fn lemma_digit_value(d: int)
    requires
        0 <= d < 32,
    ensures
        crockford_value(crockford_digit(d)) == d,
{
    if d == 0 {
        assert(crockford_digit(0) == '0');
    } else if d == 1 {
        assert(crockford_digit(1) == '1');
    } else if d == 2 {
        assert(crockford_digit(2) == '2');
    } else if d == 3 {
        assert(crockford_digit(3) == '3');
    } else if d == 4 {
        assert(crockford_digit(4) == '4');
    } else if d == 5 {
        assert(crockford_digit(5) == '5');
    } else if d == 6 {
        assert(crockford_digit(6) == '6');
    } else if d == 7 {
        assert(crockford_digit(7) == '7');
    } else if d == 8 {
        assert(crockford_digit(8) == '8');
    } else if d == 9 {
        assert(crockford_digit(9) == '9');
    } else if d == 10 {
        assert(crockford_digit(10) == 'A');
    } else if d == 11 {
        assert(crockford_digit(11) == 'B');
    } else if d == 12 {
        assert(crockford_digit(12) == 'C');
    } else if d == 13 {
        assert(crockford_digit(13) == 'D');
    } else if d == 14 {
        assert(crockford_digit(14) == 'E');
    } else if d == 15 {
        assert(crockford_digit(15) == 'F');
    } else if d == 16 {
        assert(crockford_digit(16) == 'G');
    } else if d == 17 {
        assert(crockford_digit(17) == 'H');
    } else if d == 18 {
        assert(crockford_digit(18) == 'J');
    } else if d == 19 {
        assert(crockford_digit(19) == 'K');
    } else if d == 20 {
        assert(crockford_digit(20) == 'M');
    } else if d == 21 {
        assert(crockford_digit(21) == 'N');
    } else if d == 22 {
        assert(crockford_digit(22) == 'P');
    } else if d == 23 {
        assert(crockford_digit(23) == 'Q');
    } else if d == 24 {
        assert(crockford_digit(24) == 'R');
    } else if d == 25 {
        assert(crockford_digit(25) == 'S');
    } else if d == 26 {
        assert(crockford_digit(26) == 'T');
    } else if d == 27 {
        assert(crockford_digit(27) == 'V');
    } else if d == 28 {
        assert(crockford_digit(28) == 'W');
    } else if d == 29 {
        assert(crockford_digit(29) == 'X');
    } else if d == 30 {
        assert(crockford_digit(30) == 'Y');
    } else if d == 31 {
        assert(crockford_digit(31) == 'Z');
    }
}

proof fn lemma_text_prefix_value(v: u128, k: int)
    requires
        0 <= k <= 26,
    ensures
        base32_value(ulid_text(v).take(k)) == v as int / pow(32, (26 - k) as nat),
    decreases k,
{
    let t = ulid_text(v);
    if k == 0 {
        assert(t.take(0) =~= Seq::<char>::empty());
        assert(pow(32, 26) == 0x4_0000_0000_0000_0000_0000_0000_0000_0000int) by {
            reveal_with_fuel(pow, 27);
        }
    } else {
        lemma_text_prefix_value(v, k - 1);
        let a = pow(32, (26 - k) as nat);
        assert(t.take(k).drop_last() =~= t.take(k - 1));
        assert(pow(32, (26 - k + 1) as nat) == 32 * a) by {
            reveal(pow);
        }
        lemma_pow_positive(32, (26 - k) as nat);
        let x = v as int / a;
        lemma_div_denominator(v as int, a, 32);
        lemma_fundamental_div_mod(x, 32);
        assert(a * 32 == 32 * a);
        lemma_digit_value(x % 32);
        assert(t.take(k).last() == t[k - 1]);
    }
}

/// Reading back the text of a ULID gives the same value: `ulid_text` and
/// `ulid_decoded` undo each other.
pub proof fn lemma_ulid_text_roundtrip(v: u128)
    ensures
        ulid_decoded(ulid_text(v)) == Some(v),
{
    let t = ulid_text(v);
    lemma_text_prefix_value(v, 26);
    assert(t.take(26) =~= t);
    assert(pow(32, 0) == 1) by {
        reveal(pow);
    }
    assert forall|i: int| 0 <= i < 26 implies crockford_value(#[trigger] t[i]) >= 0 by {
        let a = pow(32, (25 - i) as nat);
        lemma_pow_positive(32, (25 - i) as nat);
        lemma_digit_value((v as int / a) % 32);
    }
}

/// Unique identifier for a card.
#[derive(Clone, Copy, PartialEq, Eq, Structural, Hash, Debug, PartialOrd, Ord)]
pub struct CardId(pub u128);

/// Unique identifier for a bucket (a column on a card's board).
#[derive(Clone, Copy, PartialEq, Eq, Structural, Hash, Debug, PartialOrd, Ord)]
pub struct BucketId(pub u128);

/// Unique identifier for a note page.
#[derive(Clone, Copy, PartialEq, Eq, Structural, Hash, Debug, PartialOrd, Ord)]
pub struct NotePageId(pub u128);

/// Unique identifier for a label definition.
#[derive(Clone, Copy, PartialEq, Eq, Structural, Hash, Debug, PartialOrd, Ord)]
pub struct LabelId(pub u128);

/// Unique identifier for a rule definition.
#[derive(Clone, Copy, PartialEq, Eq, Structural, Hash, Debug, PartialOrd, Ord)]
pub struct RuleId(pub u128);

impl CardId {
    /// Generates a new identifier from the clock and a random number.
    pub fn new() -> (r: Self) {
        CardId(fresh_ulid_value())
    }

    /// The canonical 26-character text of the identifier.
    pub fn to_text(&self) -> (r: String)
        ensures
            r@ == ulid_text(self.0),
    {
        ulid_value_text(self.0)
    }
}

impl CardId {
    /// Reads an identifier from its text: 26 Crockford base-32 digits.
    pub fn from_text(text: &str) -> (r: Option<CardId>)
        ensures
            r == (match ulid_decoded(text@) {
                Some(v) => Some(CardId(v)),
                None => None,
            }),
    {
        match ulid_value_parse(text) {
            Some(v) => Some(CardId(v)),
            None => None,
        }
    }
}

impl BucketId {
    /// Generates a new identifier from the clock and a random number.
    pub fn new() -> (r: Self) {
        BucketId(fresh_ulid_value())
    }

    /// The canonical 26-character text of the identifier.
    pub fn to_text(&self) -> (r: String)
        ensures
            r@ == ulid_text(self.0),
    {
        ulid_value_text(self.0)
    }
}

impl NotePageId {
    /// Generates a new identifier from the clock and a random number.
    pub fn new() -> (r: Self) {
        NotePageId(fresh_ulid_value())
    }

    /// The canonical 26-character text of the identifier.
    pub fn to_text(&self) -> (r: String)
        ensures
            r@ == ulid_text(self.0),
    {
        ulid_value_text(self.0)
    }
}

impl LabelId {
    /// Generates a new identifier from the clock and a random number.
    pub fn new() -> (r: Self) {
        LabelId(fresh_ulid_value())
    }

    /// The canonical 26-character text of the identifier.
    pub fn to_text(&self) -> (r: String)
        ensures
            r@ == ulid_text(self.0),
    {
        ulid_value_text(self.0)
    }
}

impl RuleId {
    /// Generates a new identifier from the clock and a random number.
    pub fn new() -> (r: Self) {
        RuleId(fresh_ulid_value())
    }

    /// The canonical 26-character text of the identifier.
    pub fn to_text(&self) -> (r: String)
        ensures
            r@ == ulid_text(self.0),
    {
        ulid_value_text(self.0)
    }
}

impl Default for CardId {
    fn default() -> (r: Self) {
        CardId::new()
    }
}

impl Default for BucketId {
    fn default() -> (r: Self) {
        BucketId::new()
    }
}

} // verus!
