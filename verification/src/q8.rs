//! Q8 encoding: pronounceable binary representation.
//!
//! Each nibble (4 bits) maps to a consonant-vowel syllable:
//! - Consonant (high 2 bits): `'`=00, `J`=01, `K`=10, `V`=11
//! - Vowel (low 2 bits): `O`=00, `U`=01, `E`=10, `I`=11
//!
//! Two syllables form a word (one byte). Eight words per line.
use vstd::prelude::*;

use crate::text::push_char;

verus! {

/// Consonant characters in bit-order (Q8-FLAT phonetic format).
pub const CONSONANT_CHARS: [char; 4] = ['\'', 'J', 'K', 'V'];

/// Vowel characters in bit-order (Q8-FLAT phonetic format).
pub const VOWEL_CHARS: [char; 4] = ['O', 'U', 'E', 'I'];

/// Consonant characters in bit-order (Q8-BOX visual format).
pub const BOX_CONSONANT_CHARS: [char; 4] = ['A', '>', '<', 'V'];

/// Vowel characters in bit-order (Q8-BOX visual format).
pub const BOX_VOWEL_CHARS: [char; 4] = ['O', '=', 'X', 'I'];

// ---------------------------------------------------------------------------
// Character tables as mathematical functions
// ---------------------------------------------------------------------------

/// Q8-FLAT consonant character for a 2-bit value.
pub open spec fn flat_consonant_char(bits: int) -> char {
    if bits == 0 {
        '\''
    } else if bits == 1 {
        'J'
    } else if bits == 2 {
        'K'
    } else {
        'V'
    }
}

/// Q8-FLAT vowel character for a 2-bit value.
pub open spec fn flat_vowel_char(bits: int) -> char {
    if bits == 0 {
        'O'
    } else if bits == 1 {
        'U'
    } else if bits == 2 {
        'E'
    } else {
        'I'
    }
}

/// Q8-BOX consonant character for a 2-bit value.
pub open spec fn box_consonant_char(bits: int) -> char {
    if bits == 0 {
        'A'
    } else if bits == 1 {
        '>'
    } else if bits == 2 {
        '<'
    } else {
        'V'
    }
}

/// Q8-BOX vowel character for a 2-bit value.
pub open spec fn box_vowel_char(bits: int) -> char {
    if bits == 0 {
        'O'
    } else if bits == 1 {
        '='
    } else if bits == 2 {
        'X'
    } else {
        'I'
    }
}

// ---------------------------------------------------------------------------
// Phonemes and syllables
// ---------------------------------------------------------------------------

/// The four consonant phonemes, indexed by their 2-bit value.
#[derive(Debug, Clone, Copy, PartialEq, Eq, Structural, Hash)]
pub enum Consonant {
    /// `'` — glottal stop (bits 00)
    GlottalStop,
    /// `J` (bits 01)
    J,
    /// `K` (bits 10)
    K,
    /// `V` (bits 11)
    V,
}

impl Consonant {
    /// The 2-bit value of this consonant.
    pub open spec fn spec_bits(self) -> u8 {
        match self {
            Consonant::GlottalStop => 0,
            Consonant::J => 1,
            Consonant::K => 2,
            Consonant::V => 3,
        }
    }

    /// The consonant named by the low 2 bits of `bits`.
    pub open spec fn spec_from_bits(bits: u8) -> Consonant {
        let b = bits % 4;
        if b == 0 {
            Consonant::GlottalStop
        } else if b == 1 {
            Consonant::J
        } else if b == 2 {
            Consonant::K
        } else {
            Consonant::V
        }
    }

    /// Returns the 2-bit value for this consonant.
    pub fn bits(self) -> (b: u8)
        ensures
            b == self.spec_bits(),
            b < 4,
    {
        match self {
            Consonant::GlottalStop => 0,
            Consonant::J => 1,
            Consonant::K => 2,
            Consonant::V => 3,
        }
    }

    /// Construct from a 2-bit value (only low 2 bits are used).
    pub fn from_bits(bits: u8) -> (c: Consonant)
        ensures
            c == Consonant::spec_from_bits(bits),
    {
        let b = bits & 3;
        assert(b == bits % 4) by (bit_vector)
            requires
                b == bits & 3,
        ;
        if b == 0 {
            Consonant::GlottalStop
        } else if b == 1 {
            Consonant::J
        } else if b == 2 {
            Consonant::K
        } else {
            Consonant::V
        }
    }

    /// The character representation.
    pub fn char(self) -> (ch: char)
        ensures
            ch == flat_consonant_char(self.spec_bits() as int),
    {
        let b = self.bits();
        assert(CONSONANT_CHARS@ =~= seq!['\'', 'J', 'K', 'V']);
        CONSONANT_CHARS[b as usize]
    }
}

/// The four vowel phonemes, indexed by their 2-bit value.
#[derive(Debug, Clone, Copy, PartialEq, Eq, Structural, Hash)]
pub enum Vowel {
    /// `O` (bits 00)
    O,
    /// `U` (bits 01)
    U,
    /// `E` (bits 10)
    E,
    /// `I` (bits 11)
    I,
}

impl Vowel {
    /// The 2-bit value of this vowel.
    pub open spec fn spec_bits(self) -> u8 {
        match self {
            Vowel::O => 0,
            Vowel::U => 1,
            Vowel::E => 2,
            Vowel::I => 3,
        }
    }

    /// The vowel named by the low 2 bits of `bits`.
    pub open spec fn spec_from_bits(bits: u8) -> Vowel {
        let b = bits % 4;
        if b == 0 {
            Vowel::O
        } else if b == 1 {
            Vowel::U
        } else if b == 2 {
            Vowel::E
        } else {
            Vowel::I
        }
    }

    /// Returns the 2-bit value for this vowel.
    pub fn bits(self) -> (b: u8)
        ensures
            b == self.spec_bits(),
            b < 4,
    {
        match self {
            Vowel::O => 0,
            Vowel::U => 1,
            Vowel::E => 2,
            Vowel::I => 3,
        }
    }

    /// Construct from a 2-bit value (only low 2 bits are used).
    pub fn from_bits(bits: u8) -> (v: Vowel)
        ensures
            v == Vowel::spec_from_bits(bits),
    {
        let b = bits & 3;
        assert(b == bits % 4) by (bit_vector)
            requires
                b == bits & 3,
        ;
        if b == 0 {
            Vowel::O
        } else if b == 1 {
            Vowel::U
        } else if b == 2 {
            Vowel::E
        } else {
            Vowel::I
        }
    }

    /// The character representation.
    pub fn char(self) -> (ch: char)
        ensures
            ch == flat_vowel_char(self.spec_bits() as int),
    {
        let b = self.bits();
        assert(VOWEL_CHARS@ =~= seq!['O', 'U', 'E', 'I']);
        VOWEL_CHARS[b as usize]
    }
}

/// A single phoneme: either a consonant or a vowel.
#[derive(Debug, Clone, Copy, PartialEq, Eq, Structural, Hash)]
pub enum Phoneme {
    Consonant(Consonant),
    Vowel(Vowel),
}

/// A consonant-vowel syllable pair — the fundamental classification unit.
///
/// Maps directly to a Q8 nibble (4 bits): consonant = high 2 bits, vowel = low 2 bits.
/// There are exactly 16 syllables (4 consonants × 4 vowels).
#[derive(Debug, Clone, Copy, PartialEq, Eq, Structural, Hash)]
pub struct Syllable {
    pub consonant: Consonant,
    pub vowel: Vowel,
}

impl Syllable {
    /// The nibble value (0–15) of this syllable.
    pub open spec fn spec_to_nibble(self) -> u8 {
        (self.consonant.spec_bits() * 4 + self.vowel.spec_bits()) as u8
    }

    /// The syllable named by the low 4 bits of `nibble`.
    pub open spec fn spec_from_nibble(nibble: u8) -> Syllable {
        Syllable {
            consonant: Consonant::spec_from_bits(((nibble / 4) % 4) as u8),
            vowel: Vowel::spec_from_bits(nibble % 4),
        }
    }

    pub fn new(consonant: Consonant, vowel: Vowel) -> (s: Syllable)
        ensures
            s.consonant == consonant,
            s.vowel == vowel,
    {
        Syllable { consonant, vowel }
    }

    /// Construct from a nibble value (0–15). Only the low 4 bits are used.
    pub fn from_nibble(nibble: u8) -> (s: Syllable)
        ensures
            s == Syllable::spec_from_nibble(nibble),
    {
        let high = (nibble >> 2) & 0x03;
        assert(high == (nibble / 4) % 4) by (bit_vector)
            requires
                high == (nibble >> 2) & 0x03,
        ;
        assert((nibble & 0x03) % 4 == nibble % 4) by (bit_vector);
        Syllable { consonant: Consonant::from_bits(high), vowel: Vowel::from_bits(nibble & 0x03) }
    }

    /// Convert to a nibble value (0–15).
    pub fn to_nibble(self) -> (n: u8)
        ensures
            n == self.spec_to_nibble(),
            n < 16,
    {
        let c = self.consonant.bits();
        let v = self.vowel.bits();
        let n = (c << 2) | v;
        assert(n == c * 4 + v) by (bit_vector)
            requires
                c < 4,
                v < 4,
                n == (c << 2) | v,
        ;
        n
    }

    /// The two-character text of this syllable, e.g. `KU`.
    pub fn to_string(&self) -> (s: String)
        ensures
            s@ == syllable_text(self.spec_to_nibble() as int),
    {
        let mut s = String::new();
        push_char(&mut s, self.consonant.char());
        push_char(&mut s, self.vowel.char());
        s
    }
}

// ---------------------------------------------------------------------------
// Text forms
// ---------------------------------------------------------------------------

/// The Q8-FLAT syllable text of the low 4 bits of `nibble`.
pub open spec fn syllable_text(nibble: int) -> Seq<char> {
    seq![flat_consonant_char((nibble / 4) % 4), flat_vowel_char(nibble % 4)]
}

/// The Q8-FLAT word of a byte: the syllable of its high nibble, then of its low nibble.
pub open spec fn word_text(b: u8) -> Seq<char> {
    syllable_text(b as int / 16) + syllable_text(b as int % 16)
}

/// ASCII upper-casing: `a`..`z` become `A`..`Z`, every other character is kept.
pub open spec fn ascii_upper(c: char) -> char {
    if 97 <= (c as u32) && (c as u32) <= 122 {
        ((c as u32) - 32) as char
    } else {
        c
    }
}

/// Position of a (case-insensitive) consonant character in the Q8-FLAT table.
pub open spec fn consonant_value(c: char) -> Option<u8> {
    let u = ascii_upper(c);
    if u == '\'' {
        Some(0)
    } else if u == 'J' {
        Some(1)
    } else if u == 'K' {
        Some(2)
    } else if u == 'V' {
        Some(3)
    } else {
        None
    }
}

/// Position of a (case-insensitive) vowel character in the Q8-FLAT table.
pub open spec fn vowel_value(c: char) -> Option<u8> {
    let u = ascii_upper(c);
    if u == 'O' {
        Some(0)
    } else if u == 'U' {
        Some(1)
    } else if u == 'E' {
        Some(2)
    } else if u == 'I' {
        Some(3)
    } else {
        None
    }
}

/// The nibble named by a two-character syllable text, if it is one.
pub open spec fn syllable_value(s: Seq<char>) -> Option<u8> {
    if s.len() == 2 && consonant_value(s[0]) is Some && vowel_value(s[1]) is Some {
        Some((consonant_value(s[0])->0 * 4 + vowel_value(s[1])->0) as u8)
    } else {
        None
    }
}

/// The byte named by a four-character word text, if it is one.
pub open spec fn word_value(w: Seq<char>) -> Option<u8> {
    if w.len() == 4 && syllable_value(w.subrange(0, 2)) is Some && syllable_value(
        w.subrange(2, 4),
    ) is Some {
        Some(
            (syllable_value(w.subrange(0, 2))->0 * 16 + syllable_value(w.subrange(2, 4))->0) as u8,
        )
    } else {
        None
    }
}

/// The separator written before the byte at position `i` in Q8-FLAT text
/// with `per_row` words per line: nothing before the first word, a newline
/// before every word that starts a new line, a space otherwise.
pub open spec fn flat_separator(i: int, per_row: int) -> Seq<char> {
    if i == 0 {
        seq![]
    } else if i % per_row == 0 {
        seq!['\n']
    } else {
        seq![' ']
    }
}

/// Q8-FLAT text of `data` with `per_row` words per line.
pub open spec fn flat_text(data: Seq<u8>, per_row: int) -> Seq<char>
    decreases data.len(),
{
    if data.len() == 0 {
        seq![]
    } else {
        let prefix = data.drop_last();
        flat_text(prefix, per_row) + flat_separator(prefix.len() as int, per_row) + word_text(
            data.last(),
        )
    }
}

/// The two Q8-BOX consonant characters of a byte (high nibble, low nibble).
pub open spec fn box_consonant_pair(b: u8) -> Seq<char> {
    seq![box_consonant_char((b as int / 64) % 4), box_consonant_char((b as int / 4) % 4)]
}

/// The two Q8-BOX vowel characters of a byte (high nibble, low nibble).
pub open spec fn box_vowel_pair(b: u8) -> Seq<char> {
    seq![box_vowel_char((b as int / 16) % 4), box_vowel_char(b as int % 4)]
}

/// The Q8-BOX consonant line of a row: space-separated consonant pairs.
pub open spec fn box_consonant_line(row: Seq<u8>) -> Seq<char>
    decreases row.len(),
{
    if row.len() == 0 {
        seq![]
    } else {
        let prefix = row.drop_last();
        box_consonant_line(prefix) + (if prefix.len() == 0 {
            seq![]
        } else {
            seq![' ']
        }) + box_consonant_pair(row.last())
    }
}

/// The Q8-BOX vowel line of a row: space-separated vowel pairs.
pub open spec fn box_vowel_line(row: Seq<u8>) -> Seq<char>
    decreases row.len(),
{
    if row.len() == 0 {
        seq![]
    } else {
        let prefix = row.drop_last();
        box_vowel_line(prefix) + (if prefix.len() == 0 {
            seq![]
        } else {
            seq![' ']
        }) + box_vowel_pair(row.last())
    }
}

/// The two Q8-BOX lines of one row: consonants on top, vowels below.
pub open spec fn box_row_text(row: Seq<u8>) -> Seq<char> {
    box_consonant_line(row) + seq!['\n'] + box_vowel_line(row)
}

/// Q8-BOX text of non-empty `data`, `per_row` bytes per row, row pairs
/// separated by a blank line.
pub open spec fn box_text(data: Seq<u8>, per_row: int) -> Seq<char>
    decreases data.len(),
{
    if per_row <= 0 || data.len() <= per_row {
        box_row_text(data)
    } else {
        box_row_text(data.take(per_row)) + seq!['\n', '\n'] + box_text(data.skip(per_row), per_row)
    }
}

// ---------------------------------------------------------------------------
// Decoding model
// ---------------------------------------------------------------------------

/// Unicode `White_Space` characters, the ones that `split_whitespace` splits on.
pub open spec fn is_white_space(c: char) -> bool {
    let u = c as u32;
    (9 <= u && u <= 13) || u == 32 || u == 0x85 || u == 0xA0 || u == 0x1680 || (0x2000 <= u && u
        <= 0x200A) || u == 0x2028 || u == 0x2029 || u == 0x202F || u == 0x205F || u == 0x3000
}

/// Scanner state after reading `s`: the words completed so far and the word
/// being read (empty when the last character read was white space).
pub open spec fn scan_words(s: Seq<char>) -> (Seq<Seq<char>>, Seq<char>)
    decreases s.len(),
{
    if s.len() == 0 {
        (seq![], seq![])
    } else {
        let (done, cur) = scan_words(s.drop_last());
        let c = s.last();
        if is_white_space(c) {
            if cur.len() > 0 {
                (done.push(cur), seq![])
            } else {
                (done, seq![])
            }
        } else {
            (done, cur.push(c))
        }
    }
}

/// The maximal runs of non-white-space characters of `s`, in order.
pub open spec fn words(s: Seq<char>) -> Seq<Seq<char>> {
    let (done, cur) = scan_words(s);
    if cur.len() > 0 {
        done.push(cur)
    } else {
        done
    }
}

/// Decoding a list of words: the bytes they name, or the first word that
/// names none.
pub open spec fn decode_words(ws: Seq<Seq<char>>) -> Result<Seq<u8>, Seq<char>>
    decreases ws.len(),
{
    if ws.len() == 0 {
        Ok(seq![])
    } else {
        match decode_words(ws.drop_last()) {
            Err(w) => Err(w),
            Ok(bytes) => match word_value(ws.last()) {
                Some(b) => Ok(bytes.push(b)),
                None => Err(ws.last()),
            },
        }
    }
}

/// What decoding Q8 text yields: the bytes of its words, or the first invalid word.
pub open spec fn decode_text(text: Seq<char>) -> Result<Seq<u8>, Seq<char>> {
    decode_words(words(text))
}

/// Errors that can occur during Q8 decoding.
#[derive(Debug, Clone, PartialEq, Eq)]
pub enum DecodeError {
    /// A word in the input is not a valid Q8 word (two valid syllables).
    InvalidWord(String),
}

/// The text that `{:?}` formatting gives for a string.
pub uninterp spec fn debug_text(s: Seq<char>) -> Seq<char>;

/// Debug-formats a string (quoted and escaped).
///
/// Trusted: calls std's `Debug` formatting for `str` through `format!`. The
/// contract only names the result, as a function of the string's characters;
/// what the quoting and escaping produce is left unsaid.
#[verifier::external_body]
fn debug_quoted(s: &str) -> (res: String)
    ensures
        res@ == debug_text(s@),
{
    format!("{s:?}")
}

impl DecodeError {
    /// The human-readable message of this error: `invalid Q8 word: ` and the
    /// word in debug (quoted) form.
    pub fn message(&self) -> (m: String)
        ensures
            match self {
                DecodeError::InvalidWord(w) => m@ == "invalid Q8 word: "@ + debug_text(w@),
            },
    {
        match self {
            DecodeError::InvalidWord(w) => {
                let mut m = String::from_str("invalid Q8 word: ");
                let q = debug_quoted(w.as_str());
                m.append(q.as_str());
                m
            },
        }
    }
}

// ---------------------------------------------------------------------------
// Executable encoding and decoding
// ---------------------------------------------------------------------------

fn push_syllable(out: &mut String, nibble: u8)
    ensures
        final(out)@ == old(out)@ + syllable_text(nibble as int),
{
    let consonant = Consonant::from_bits((nibble >> 2) & 0x03);
    let vowel = Vowel::from_bits(nibble & 0x03);
    assert(((nibble >> 2) & 0x03) % 4 == (nibble / 4) % 4) by (bit_vector);
    assert((nibble & 0x03) % 4 == nibble % 4) by (bit_vector);
    push_char(out, consonant.char());
    push_char(out, vowel.char());
}

fn push_word(out: &mut String, b: u8)
    ensures
        final(out)@ == old(out)@ + word_text(b),
{
    let high = (b >> 4) & 0x0F;
    let low = b & 0x0F;
    assert(high == b / 16 && low == b % 16) by (bit_vector)
        requires
            high == (b >> 4) & 0x0F,
            low == b & 0x0F,
    ;
    push_syllable(out, high);
    push_syllable(out, low);
}

/// Convert a nibble (low 4 bits of `nibble`) to a two-character syllable string.
pub fn nibble_to_syllable(nibble: u8) -> (s: String)
    ensures
        s@ == syllable_text(nibble as int),
{
    let mut s = String::new();
    push_syllable(&mut s, nibble);
    s
}

fn consonant_char_value(c: char) -> (r: Option<u8>)
    ensures
        r == consonant_value(c),
{
    match c {
        '\'' => Some(0),
        'J' | 'j' => Some(1),
        'K' | 'k' => Some(2),
        'V' | 'v' => Some(3),
        _ => None,
    }
}

fn vowel_char_value(c: char) -> (r: Option<u8>)
    ensures
        r == vowel_value(c),
{
    match c {
        'O' | 'o' => Some(0),
        'U' | 'u' => Some(1),
        'E' | 'e' => Some(2),
        'I' | 'i' => Some(3),
        _ => None,
    }
}

fn syllable_chars_value(c: char, v: char) -> (r: Option<u8>)
    ensures
        r == syllable_value(seq![c, v]),
{
    let cb = consonant_char_value(c);
    let vb = vowel_char_value(v);
    match (cb, vb) {
        (Some(x), Some(y)) => Some(x * 4 + y),
        _ => None,
    }
}

/// Parse a two-character syllable string back to a nibble value (0..15).
/// Matching is case-insensitive. Returns `None` if the string is not a valid syllable.
pub fn syllable_to_nibble(s: &str) -> (r: Option<u8>)
    ensures
        r == syllable_value(s@),
{
    let n = s.unicode_len();
    if n != 2 {
        return None;
    }
    let c = s.get_char(0);
    let v = s.get_char(1);
    assert(s@ =~= seq![c, v]);
    syllable_chars_value(c, v)
}

/// Convert a byte to a four-character Q8 word (two syllables).
pub fn byte_to_word(b: u8) -> (s: String)
    ensures
        s@ == word_text(b),
{
    let mut s = String::new();
    push_word(&mut s, b);
    s
}

/// Parse a four-character Q8 word back to a byte.
/// Returns `None` if the word is not a valid Q8 word.
pub fn word_to_byte(word: &str) -> (r: Option<u8>)
    ensures
        r == word_value(word@),
{
    let n = word.unicode_len();
    if n != 4 {
        return None;
    }
    let c0 = word.get_char(0);
    let c1 = word.get_char(1);
    let c2 = word.get_char(2);
    let c3 = word.get_char(3);
    assert(word@.subrange(0, 2) =~= seq![c0, c1]);
    assert(word@.subrange(2, 4) =~= seq![c2, c3]);
    let high = syllable_chars_value(c0, c1);
    let low = syllable_chars_value(c2, c3);
    match (high, low) {
        (Some(h), Some(l)) => Some(h * 16 + l),
        _ => None,
    }
}

/// Q8-FLAT text of `data`, `per_row` words per line; `per_row` must be positive.
fn flat_text_of(data: &[u8], per_row: usize) -> (s: String)
    requires
        per_row > 0,
    ensures
        s@ == flat_text(data@, per_row as int),
{
    let mut s = String::new();
    let mut i: usize = 0;
    while i < data.len()
        invariant
            per_row > 0,
            i <= data@.len(),
            s@ == flat_text(data@.take(i as int), per_row as int),
        decreases data@.len() - i,
    {
        if i > 0 {
            if i % per_row == 0 {
                push_char(&mut s, '\n');
            } else {
                push_char(&mut s, ' ');
            }
        }
        push_word(&mut s, data[i]);
        assert(data@.take(i + 1).drop_last() =~= data@.take(i as int));
        i += 1;
    }
    assert(data@.take(data@.len() as int) =~= data@);
    s
}

/// Encode a byte slice into Q8 text.
///
/// Words are space-separated, with a newline every 8 words.
pub fn encode(data: &[u8]) -> (s: String)
    ensures
        s@ == flat_text(data@, 8),
{
    flat_text_of(data, 8)
}

/// Decode Q8 text back into bytes.
///
/// Whitespace (spaces and newlines) is used to split words.
/// Each word must be exactly 4 characters (two valid syllables).
pub fn decode(text: &str) -> (r: Result<Vec<u8>, DecodeError>)
    ensures
        match (r, decode_text(text@)) {
            (Ok(v), Ok(bytes)) => v@ == bytes,
            (Err(DecodeError::InvalidWord(w)), Err(bad)) => w@ == bad,
            _ => false,
        },
{
    let n = text.unicode_len();
    let mut bytes: Vec<u8> = Vec::new();
    let mut cur = String::new();
    let ghost mut done: Seq<Seq<char>> = seq![];
    let mut i: usize = 0;
    while i < n
        invariant
            n == text@.len(),
            i <= n,
            scan_words(text@.take(i as int)) == (done, cur@),
            decode_words(done) == Ok::<Seq<u8>, Seq<char>>(bytes@),
        decreases n - i,
    {
        let c = text.get_char(i);
        assert(text@.take(i + 1).drop_last() =~= text@.take(i as int));
        if is_white_space_char(c) {
            if cur.as_str().unicode_len() > 0 {
                assert(done.push(cur@).drop_last() =~= done);
                match word_to_byte(cur.as_str()) {
                    Some(b) => {
                        bytes.push(b);
                    },
                    None => {
                        proof {
                            lemma_scan_done_prefix(text@.take(i + 1), text@.skip(i + 1));
                            assert(text@.take(i + 1) + text@.skip(i + 1) =~= text@);
                            lemma_decode_words_error_persists(done.push(cur@), words(text@));
                        }
                        return Err(DecodeError::InvalidWord(cur));
                    },
                }
                proof {
                    done = done.push(cur@);
                }
            }
            cur = String::new();
        } else {
            push_char(&mut cur, c);
        }
        i += 1;
    }
    assert(text@.take(n as int) =~= text@);
    if cur.as_str().unicode_len() > 0 {
        assert(done.push(cur@).drop_last() =~= done);
        match word_to_byte(cur.as_str()) {
            Some(b) => {
                bytes.push(b);
            },
            None => {
                return Err(DecodeError::InvalidWord(cur));
            },
        }
    }
    Ok(bytes)
}

fn is_white_space_char(c: char) -> (b: bool)
    ensures
        b == is_white_space(c),
{
    let u = c as u32;
    (9 <= u && u <= 13) || u == 32 || u == 0x85 || u == 0xA0 || u == 0x1680 || (0x2000 <= u && u
        <= 0x200A) || u == 0x2028 || u == 0x2029 || u == 0x202F || u == 0x205F || u == 0x3000
}

/// Render bytes as a Q8-BOX split grid: consonant row on top, vowel row on bottom.
///
/// For each row of bytes, two lines are produced:
/// - Line 1 (consonants): For each byte, the high nibble's BOX consonant + low nibble's BOX consonant.
/// - Line 2 (vowels): Same layout with BOX vowels.
///
/// Bytes within a row are separated by spaces. Row pairs are separated by blank lines.
pub fn format_box(data: &[u8], bytes_per_row: usize) -> (s: String)
    ensures
        data@.len() == 0 || bytes_per_row == 0 ==> s@ == Seq::<char>::empty(),
        data@.len() > 0 && bytes_per_row > 0 ==> s@ == box_text(data@, bytes_per_row as int),
{
    let mut s = String::new();
    if data.len() == 0 || bytes_per_row == 0 {
        return s;
    }
    let len = data.len();
    let k = bytes_per_row;
    let mut start: usize = 0;
    assert(data@.skip(0) =~= data@);
    loop
        invariant
            len == data@.len(),
            k == bytes_per_row,
            k > 0,
            start < len,
            s@ + box_text(data@.skip(start as int), k as int) == box_text(data@, k as int),
        decreases len - start,
    {
        let rest = Ghost(data@.skip(start as int));
        let end: usize = if len - start <= k {
            len
        } else {
            start + k
        };
        let ghost row = data@.subrange(start as int, end as int);
        let ghost base = s@;
        assert(rest@.len() <= k ==> row =~= rest@);
        assert(rest@.len() > k ==> row =~= rest@.take(k as int));
        // consonant line
        let mut j: usize = start;
        while j < end
            invariant
                start <= j <= end,
                end <= len,
                len == data@.len(),
                s@ == base + box_consonant_line(data@.subrange(start as int, j as int)),
            decreases end - j,
        {
            let b = data[j];
            if j > start {
                push_char(&mut s, ' ');
            }
            let hi = (b >> 6) & 0x03;
            let lo = (b >> 2) & 0x03;
            assert(hi == (b / 64) % 4 && lo == (b / 4) % 4) by (bit_vector)
                requires
                    hi == (b >> 6) & 0x03,
                    lo == (b >> 2) & 0x03,
            ;
            assert(BOX_CONSONANT_CHARS@ =~= seq!['A', '>', '<', 'V']);
            push_char(&mut s, BOX_CONSONANT_CHARS[hi as usize]);
            push_char(&mut s, BOX_CONSONANT_CHARS[lo as usize]);
            assert(data@.subrange(start as int, j + 1).drop_last() =~= data@.subrange(
                start as int,
                j as int,
            ));
            j += 1;
        }
        push_char(&mut s, '\n');
        let ghost mid = s@;
        let mut j: usize = start;
        while j < end
            invariant
                start <= j <= end,
                end <= len,
                len == data@.len(),
                s@ == mid + box_vowel_line(data@.subrange(start as int, j as int)),
            decreases end - j,
        {
            let b = data[j];
            if j > start {
                push_char(&mut s, ' ');
            }
            let hi = (b >> 4) & 0x03;
            let lo = b & 0x03;
            assert(hi == (b / 16) % 4 && lo == b % 4) by (bit_vector)
                requires
                    hi == (b >> 4) & 0x03,
                    lo == b & 0x03,
            ;
            assert(BOX_VOWEL_CHARS@ =~= seq!['O', '=', 'X', 'I']);
            push_char(&mut s, BOX_VOWEL_CHARS[hi as usize]);
            push_char(&mut s, BOX_VOWEL_CHARS[lo as usize]);
            assert(data@.subrange(start as int, j + 1).drop_last() =~= data@.subrange(
                start as int,
                j as int,
            ));
            j += 1;
        }
        assert(s@ == base + box_row_text(row));
        if end == len {
            assert(s@ =~= base + box_text(rest@, k as int));
            return s;
        }
        push_char(&mut s, '\n');
        push_char(&mut s, '\n');
        assert(rest@.skip(k as int) =~= data@.skip(end as int));
        assert(s@ + box_text(data@.skip(end as int), k as int) =~= base + box_text(
            rest@,
            k as int,
        ));
        start = end;
    }
}

/// Render bytes as Q8-FLAT phonetic text with configurable row width.
///
/// Each byte becomes a four-character word (two syllables). Words are space-separated,
/// with a newline every `bytes_per_row` words.
pub fn format_flat(data: &[u8], bytes_per_row: usize) -> (s: String)
    ensures
        data@.len() == 0 || bytes_per_row == 0 ==> s@ == Seq::<char>::empty(),
        bytes_per_row > 0 ==> s@ == flat_text(data@, bytes_per_row as int),
{
    if data.len() == 0 || bytes_per_row == 0 {
        return String::new();
    }
    flat_text_of(data, bytes_per_row)
}

// ---------------------------------------------------------------------------
// Lemmas used by the decoder
// ---------------------------------------------------------------------------

/// The completed words of a text are a prefix of the completed words of any extension.
proof fn lemma_scan_done_prefix(s: Seq<char>, t: Seq<char>)
    ensures
        scan_words(s).0.is_prefix_of(scan_words(s + t).0),
        scan_words(s).0.is_prefix_of(words(s + t)),
    decreases t.len(),
{
    if t.len() == 0 {
        assert(s + t =~= s);
        let (done, cur) = scan_words(s);
        assert(done.is_prefix_of(done));
        if cur.len() > 0 {
            assert(done.is_prefix_of(done.push(cur)));
        }
    } else {
        lemma_scan_done_prefix(s, t.drop_last());
        assert((s + t).drop_last() =~= s + t.drop_last());
        let (d0, c0) = scan_words(s);
        let (d1, c1) = scan_words(s + t.drop_last());
        let (d2, c2) = scan_words(s + t);
        assert(d0.is_prefix_of(d1));
        assert(d1.is_prefix_of(d2));
        assert(d0.is_prefix_of(d2));
        if c2.len() > 0 {
            assert(d2.is_prefix_of(d2.push(c2)));
        }
    }
}

/// Once decoding a list of words fails, decoding any extension fails on the same word.
proof fn lemma_decode_words_error_persists(ws: Seq<Seq<char>>, more: Seq<Seq<char>>)
    requires
        ws.is_prefix_of(more),
        decode_words(ws) is Err,
    ensures
        decode_words(more) == decode_words(ws),
    decreases more.len(),
{
    if more.len() > ws.len() {
        assert(ws.is_prefix_of(more.drop_last()));
        lemma_decode_words_error_persists(ws, more.drop_last());
    } else {
        assert(more =~= ws);
    }
}


// ---------------------------------------------------------------------------
// Laws
// ---------------------------------------------------------------------------

/// Reading a consonant's bits back gives the same consonant, and every 2-bit
/// value is the bit pattern of the consonant it names.
pub proof fn law_consonant_bits_roundtrip(c: Consonant, bits: u8)
    requires
        bits < 4,
    ensures
        Consonant::spec_from_bits(c.spec_bits()) == c,
        Consonant::spec_from_bits(bits).spec_bits() == bits,
{
}

/// Reading a vowel's bits back gives the same vowel, and every 2-bit value
/// is the bit pattern of the vowel it names.
pub proof fn law_vowel_bits_roundtrip(v: Vowel, bits: u8)
    requires
        bits < 4,
    ensures
        Vowel::spec_from_bits(v.spec_bits()) == v,
        Vowel::spec_from_bits(bits).spec_bits() == bits,
{
}

/// Syllables and nibbles are in one-to-one correspondence: converting a
/// syllable to its nibble and back gives the syllable, and converting a
/// nibble (0–15) to its syllable and back gives the nibble.
pub proof fn law_syllable_nibble_roundtrip(s: Syllable, nibble: u8)
    requires
        nibble < 16,
    ensures
        Syllable::spec_from_nibble(s.spec_to_nibble()) == s,
        Syllable::spec_from_nibble(nibble).spec_to_nibble() == nibble,
{
}

/// The text of the syllable of a nibble is the text that
/// `nibble_to_syllable` gives for that nibble.
pub proof fn law_syllable_text_agrees(nibble: u8)
    ensures
        syllable_text(Syllable::spec_from_nibble(nibble).spec_to_nibble() as int)
            == syllable_text(nibble as int),
{
}

/// Parsing the text of a nibble's syllable gives the nibble back.
pub proof fn law_syllable_text_roundtrip(nibble: u8)
    requires
        nibble < 16,
    ensures
        syllable_value(syllable_text(nibble as int)) == Some(nibble),
{
}

/// Parsing the Q8 word of a byte gives the byte back.
pub proof fn law_word_roundtrip(b: u8)
    ensures
        word_value(word_text(b)) == Some(b),
{
    let w = word_text(b);
    assert(w.subrange(0, 2) =~= syllable_text(b as int / 16));
    assert(w.subrange(2, 4) =~= syllable_text(b as int % 16));
    law_syllable_text_roundtrip((b / 16) as u8);
    law_syllable_text_roundtrip((b % 16) as u8);
}

/// The Q8 words of a byte sequence, one per byte.
pub open spec fn word_list(data: Seq<u8>) -> Seq<Seq<char>> {
    Seq::new(data.len(), |i: int| word_text(data[i]))
}

/// No character of `s` is white space.
pub open spec fn has_no_white_space(s: Seq<char>) -> bool {
    forall|i: int| 0 <= i < s.len() ==> !is_white_space(#[trigger] s[i])
}

proof fn lemma_word_text_is_one_token(b: u8)
    ensures
        word_text(b).len() == 4,
        has_no_white_space(word_text(b)),
{
}

proof fn lemma_scan_append_token(p: Seq<char>, q: Seq<char>)
    requires
        has_no_white_space(q),
    ensures
        scan_words(p + q) == (scan_words(p).0, scan_words(p).1 + q),
    decreases q.len(),
{
    if q.len() == 0 {
        assert(p + q =~= p);
        assert(scan_words(p).1 + q =~= scan_words(p).1);
    } else {
        lemma_scan_append_token(p, q.drop_last());
        assert((p + q).drop_last() =~= p + q.drop_last());
        assert(!is_white_space(q[q.len() - 1]));
        assert((scan_words(p).1 + q.drop_last()).push(q.last()) =~= scan_words(p).1 + q);
    }
}

/// Splitting Q8-FLAT text on white space gives back the words of the bytes.
proof fn lemma_words_of_flat_text(data: Seq<u8>, per_row: int)
    requires
        per_row > 0,
    ensures
        words(flat_text(data, per_row)) == word_list(data),
    decreases data.len(),
{
    if data.len() == 0 {
        assert(word_list(data) =~= Seq::<Seq<char>>::empty());
    } else {
        let p = data.drop_last();
        let w = word_text(data.last());
        lemma_word_text_is_one_token(data.last());
        lemma_words_of_flat_text(p, per_row);
        assert(word_list(data) =~= word_list(p).push(w));
        if p.len() == 0 {
            assert(flat_text(data, per_row) =~= Seq::<char>::empty() + w);
            lemma_scan_append_token(Seq::<char>::empty(), w);
            assert(Seq::<char>::empty() + w =~= w);
            assert(word_list(p) =~= Seq::<Seq<char>>::empty());
        } else {
            let sep = flat_separator(p.len() as int, per_row);
            assert(sep.len() == 1 && is_white_space(sep[0]));
            let s1 = flat_text(p, per_row) + sep;
            assert(s1.drop_last() =~= flat_text(p, per_row));
            assert(scan_words(s1) == (words(flat_text(p, per_row)), Seq::<char>::empty()));
            lemma_scan_append_token(s1, w);
            assert(flat_text(data, per_row) =~= s1 + w);
            assert(Seq::<char>::empty() + w =~= w);
        }
    }
}

proof fn lemma_decode_word_list(data: Seq<u8>)
    ensures
        decode_words(word_list(data)) == Ok::<Seq<u8>, Seq<char>>(data),
    decreases data.len(),
{
    if data.len() > 0 {
        lemma_decode_word_list(data.drop_last());
        assert(word_list(data).drop_last() =~= word_list(data.drop_last()));
        law_word_roundtrip(data.last());
        assert(data.drop_last().push(data.last()) =~= data);
    } else {
        assert(word_list(data) =~= Seq::<Seq<char>>::empty());
        assert(data =~= Seq::<u8>::empty());
    }
}

/// Decoding Q8-FLAT text gives back the bytes it was made from, for every
/// row width: `decode(encode(data)) == Ok(data)`, and likewise for
/// `format_flat` with any positive row width.
pub proof fn law_decode_inverts_flat_text(data: Seq<u8>, per_row: int)
    requires
        per_row > 0,
    ensures
        decode_text(flat_text(data, per_row)) == Ok::<Seq<u8>, Seq<char>>(data),
{
    lemma_words_of_flat_text(data, per_row);
    lemma_decode_word_list(data);
}


// ---------------------------------------------------------------------------
// Line breaks of Q8-FLAT text
// ---------------------------------------------------------------------------

/// The text with every newline replaced by a space.
pub open spec fn spaces_for_newlines(s: Seq<char>) -> Seq<char> {
    s.map_values(|c: char| if c == '\n' { ' ' } else { c })
}

/// The number of newline characters in the text.
pub open spec fn newline_count(s: Seq<char>) -> nat
    decreases s.len(),
{
    if s.len() == 0 {
        0
    } else {
        newline_count(s.drop_last()) + if s.last() == '\n' {
            1nat
        } else {
            0nat
        }
    }
}

/// The number of lines of a text that does not end in a newline: none for
/// the empty text, else one more than its newlines (as `str::lines` counts).
pub open spec fn line_count(s: Seq<char>) -> nat {
    if s.len() == 0 {
        0
    } else {
        newline_count(s) + 1
    }
}

proof fn lemma_newline_count_append(a: Seq<char>, b: Seq<char>)
    ensures
        newline_count(a + b) == newline_count(a) + newline_count(b),
    decreases b.len(),
{
    if b.len() == 0 {
        assert(a + b =~= a);
    } else {
        assert((a + b).drop_last() =~= a + b.drop_last());
        assert((a + b).last() == b.last());
        lemma_newline_count_append(a, b.drop_last());
    }
}

proof fn lemma_word_text_has_no_newline(b: u8)
    ensures
        newline_count(word_text(b)) == 0,
        spaces_for_newlines(word_text(b)) == word_text(b),
{
    let w = word_text(b);
    assert(w.len() == 4);
    assert forall|i: int| 0 <= i < 4 implies #[trigger] w[i] != '\n' by {}
    assert(spaces_for_newlines(w) =~= w);
    assert(w.drop_last().drop_last().drop_last().drop_last() =~= Seq::<char>::empty());
    reveal_with_fuel(newline_count, 5);
}

proof fn lemma_flat_text_newlines(data: Seq<u8>, per_row: int)
    requires
        per_row > 0,
    ensures
        newline_count(flat_text(data, per_row)) == if data.len() == 0 {
            0
        } else {
            (data.len() - 1) / per_row
        },
    decreases data.len(),
{
    if data.len() > 0 {
        let p = data.drop_last();
        let i = p.len() as int;
        lemma_flat_text_newlines(p, per_row);
        let sep = flat_separator(i, per_row);
        lemma_newline_count_append(flat_text(p, per_row), sep);
        lemma_newline_count_append(flat_text(p, per_row) + sep, word_text(data.last()));
        lemma_word_text_has_no_newline(data.last());
        if i == 0 {
            assert(sep =~= Seq::<char>::empty());
            assert(newline_count(sep) == 0);
        } else {
            assert(sep.drop_last() =~= Seq::<char>::empty());
            assert(newline_count(sep) == if i % per_row == 0 { 1int } else { 0int }) by {
                reveal_with_fuel(newline_count, 2);
            }
            assert((i - 1) / per_row + (if i % per_row == 0 { 1int } else { 0int }) == i / per_row)
                by (nonlinear_arith)
                requires
                    i >= 1,
                    per_row > 0,
            {
                let q = (i - 1) / per_row;
                let r = (i - 1) % per_row;
                assert(i - 1 == q * per_row + r && 0 <= r < per_row);
                if r == per_row - 1 {
                    assert(i == (q + 1) * per_row);
                } else {
                    assert(i == q * per_row + (r + 1) && 0 <= r + 1 < per_row);
                }
            }
        }
    }
}

proof fn lemma_flat_text_spaced(data: Seq<u8>, per_row: int, width: int)
    requires
        per_row > 0,
        width > 0,
        width >= data.len(),
    ensures
        spaces_for_newlines(flat_text(data, per_row)) == flat_text(data, width),
    decreases data.len(),
{
    if data.len() == 0 {
        assert(spaces_for_newlines(flat_text(data, per_row)) =~= Seq::<char>::empty());
    } else {
        let p = data.drop_last();
        let i = p.len() as int;
        lemma_flat_text_spaced(p, per_row, width);
        lemma_word_text_has_no_newline(data.last());
        let a = flat_text(p, per_row);
        let sep = flat_separator(i, per_row);
        let w = word_text(data.last());
        assert(spaces_for_newlines(a + sep + w) =~= spaces_for_newlines(a) + spaces_for_newlines(
            sep,
        ) + spaces_for_newlines(w));
        if i > 0 {
            assert(i % width == i) by (nonlinear_arith)
                requires
                    0 < i < width,
            ;
        }
        assert(spaces_for_newlines(sep) =~= flat_separator(i, width));
    }
}

/// The row width of Q8-FLAT text only moves its line breaks: with `per_row`
/// words per line the text has ⌈len / per_row⌉ lines, and turning its
/// newlines into spaces gives the one-line text of the same words.
pub proof fn law_flat_row_width_moves_line_breaks(data: Seq<u8>, per_row: int)
    requires
        per_row > 0,
    ensures
        line_count(flat_text(data, per_row)) == (data.len() + per_row - 1) / per_row,
        spaces_for_newlines(flat_text(data, per_row)) == flat_text(
            data,
            if data.len() == 0 {
                1
            } else {
                data.len() as int
            },
        ),
{
    lemma_flat_text_newlines(data, per_row);
    lemma_flat_text_spaced(data, per_row, if data.len() == 0 { 1 } else { data.len() as int });
    let n = data.len() as int;
    if n == 0 {
        assert(flat_text(data, per_row) =~= Seq::<char>::empty());
        assert((per_row - 1) / per_row == 0) by (nonlinear_arith)
            requires
                per_row > 0,
        ;
    } else {
        lemma_flat_text_nonempty(data, per_row);
        assert((n - 1) / per_row + 1 == (n + per_row - 1) / per_row) by (nonlinear_arith)
            requires
                n >= 1,
                per_row > 0,
        {
            let q = (n - 1) / per_row;
            let r = (n - 1) % per_row;
            assert(n - 1 == q * per_row + r && 0 <= r < per_row);
            assert(n + per_row - 1 == (q + 1) * per_row + r);
        }
    }
}

proof fn lemma_flat_text_nonempty(data: Seq<u8>, per_row: int)
    requires
        data.len() > 0,
    ensures
        flat_text(data, per_row).len() > 0,
{
    assert(word_text(data.last()).len() == 4);
}

// ---------------------------------------------------------------------------
// Layout of Q8-BOX text
// ---------------------------------------------------------------------------

proof fn lemma_box_consonant_line_layout(row: Seq<u8>)
    ensures
        row.len() == 0 ==> box_consonant_line(row).len() == 0,
        row.len() > 0 ==> box_consonant_line(row).len() == 3 * row.len() - 1,
        forall|i: int|
            0 <= i < row.len() ==> box_consonant_line(row)[3 * i] == box_consonant_pair(
                #[trigger] row[i],
            )[0] && box_consonant_line(row)[3 * i + 1] == box_consonant_pair(row[i])[1],
        forall|i: int| 0 <= i < row.len() - 1 ==> #[trigger] box_consonant_line(row)[3 * i + 2] == ' ',
    decreases row.len(),
{
    if row.len() > 0 {
        let p = row.drop_last();
        lemma_box_consonant_line_layout(p);
        let line = box_consonant_line(row);
        let prev = box_consonant_line(p);
        let n = row.len() as int;
        assert forall|i: int| 0 <= i < row.len() implies line[3 * i] == box_consonant_pair(
            #[trigger] row[i],
        )[0] && line[3 * i + 1] == box_consonant_pair(row[i])[1] by {
            if i < n - 1 {
                assert(row[i] == p[i]);
            }
        }
        assert forall|i: int| 0 <= i < row.len() - 1 implies #[trigger] line[3 * i + 2] == ' ' by {}
    }
}

proof fn lemma_box_vowel_line_layout(row: Seq<u8>)
    ensures
        row.len() == 0 ==> box_vowel_line(row).len() == 0,
        row.len() > 0 ==> box_vowel_line(row).len() == 3 * row.len() - 1,
        forall|i: int|
            0 <= i < row.len() ==> box_vowel_line(row)[3 * i] == box_vowel_pair(#[trigger] row[i])[0]
                && box_vowel_line(row)[3 * i + 1] == box_vowel_pair(row[i])[1],
        forall|i: int| 0 <= i < row.len() - 1 ==> #[trigger] box_vowel_line(row)[3 * i + 2] == ' ',
    decreases row.len(),
{
    if row.len() > 0 {
        let p = row.drop_last();
        lemma_box_vowel_line_layout(p);
        let line = box_vowel_line(row);
        let n = row.len() as int;
        assert forall|i: int| 0 <= i < row.len() implies line[3 * i] == box_vowel_pair(
            #[trigger] row[i],
        )[0] && line[3 * i + 1] == box_vowel_pair(row[i])[1] by {
            if i < n - 1 {
                assert(row[i] == p[i]);
            }
        }
        assert forall|i: int| 0 <= i < row.len() - 1 implies #[trigger] line[3 * i + 2] == ' ' by {}
    }
}

/// A row of Q8-BOX text (at most `per_row` bytes) is two lines of the same
/// layout, the consonant line, a newline, then the vowel line: the two
/// characters of byte `i` stand at columns `3 * i` and `3 * i + 1` of each
/// line, and consecutive pairs are separated by exactly one space.
pub proof fn law_box_row_layout(data: Seq<u8>, per_row: int)
    requires
        0 < data.len() <= per_row,
    ensures
        ({
            let t = box_text(data, per_row);
            let n = data.len() as int;
            let v = 3 * n;
            &&& t.len() == 6 * n - 1
            &&& t[3 * n - 1] == '\n'
            &&& forall|i: int|
                0 <= i < n ==> t[3 * i] == box_consonant_pair(#[trigger] data[i])[0] && t[3 * i + 1]
                    == box_consonant_pair(data[i])[1] && t[v + 3 * i] == box_vowel_pair(data[i])[0]
                    && t[v + 3 * i + 1] == box_vowel_pair(data[i])[1]
            &&& forall|i: int| 0 <= i < n - 1 ==> #[trigger] t[3 * i + 2] == ' ' && t[v + 3 * i + 2]
                == ' '
        }),
{
    lemma_box_consonant_line_layout(data);
    lemma_box_vowel_line_layout(data);
    let t = box_text(data, per_row);
    let n = data.len() as int;
    let cl = box_consonant_line(data);
    let vl = box_vowel_line(data);
    assert(t == cl + seq!['\n'] + vl);
    assert forall|i: int| 0 <= i < n implies t[3 * i] == box_consonant_pair(#[trigger] data[i])[0]
        && t[3 * i + 1] == box_consonant_pair(data[i])[1] && t[3 * n + 3 * i] == box_vowel_pair(
        data[i],
    )[0] && t[3 * n + 3 * i + 1] == box_vowel_pair(data[i])[1] by {
        assert(cl[3 * i] == box_consonant_pair(data[i])[0]);
        assert(vl[3 * i] == box_vowel_pair(data[i])[0]);
    }
    assert forall|i: int| 0 <= i < n - 1 implies #[trigger] t[3 * i + 2] == ' ' && t[3 * n + 3 * i
        + 2] == ' ' by {
        assert(cl[3 * i + 2] == ' ');
        assert(vl[3 * i + 2] == ' ');
    }
}

/// Q8-BOX text of more than `per_row` bytes is the text of the first
/// `per_row` bytes, a blank line, then the text of the rest.
pub proof fn law_box_rows_split(data: Seq<u8>, per_row: int)
    requires
        0 < per_row < data.len(),
    ensures
        box_text(data, per_row) == box_text(data.take(per_row), per_row) + seq!['\n', '\n']
            + box_text(data.skip(per_row), per_row),
{
}
} // verus!
