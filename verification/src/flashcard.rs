//! Flashcard engine for Q8 pronunciation training.
//!
//! Provides difficulty levels, challenge generation, and row-by-row validation
//! of spoken syllables against expected byte data.
use vstd::prelude::*;

use crate::q8::Syllable;

verus! {

/// Difficulty levels for flashcard challenges.
///
/// Each level defines a grid of bytes with specific dimensions.
/// The grid is arranged as `num_rows` rows of `bytes_per_row` bytes each.
#[derive(Debug, Clone, Copy, PartialEq, Eq, Structural, Hash)]
pub enum Level {
    /// 1x1 grid: 1 byte, 1 row of 1
    Novice,
    /// 1x2 grid: 2 bytes, 1 row of 2
    Apprentice,
    /// 2x2 grid: 4 bytes, 2 rows of 2
    Journeyman,
    /// 3x3 grid: 9 bytes, 3 rows of 3
    Expert,
    /// 8x4 grid: 32 bytes, 8 rows of 4
    Master,
}

impl Level {
    /// All levels in order of increasing difficulty.
    pub const ALL: [Level; 5] = [
        Level::Novice,
        Level::Apprentice,
        Level::Journeyman,
        Level::Expert,
        Level::Master,
    ];

    pub open spec fn spec_total_bytes(self) -> usize {
        match self {
            Level::Novice => 1,
            Level::Apprentice => 2,
            Level::Journeyman => 4,
            Level::Expert => 9,
            Level::Master => 32,
        }
    }

    pub open spec fn spec_bytes_per_row(self) -> usize {
        match self {
            Level::Novice => 1,
            Level::Apprentice => 2,
            Level::Journeyman => 2,
            Level::Expert => 3,
            Level::Master => 4,
        }
    }

    pub open spec fn spec_num_rows(self) -> usize {
        match self {
            Level::Novice => 1,
            Level::Apprentice => 1,
            Level::Journeyman => 2,
            Level::Expert => 3,
            Level::Master => 8,
        }
    }

    /// Position of the level in order of increasing difficulty (0–4).
    pub open spec fn spec_index(self) -> u8 {
        match self {
            Level::Novice => 0,
            Level::Apprentice => 1,
            Level::Journeyman => 2,
            Level::Expert => 3,
            Level::Master => 4,
        }
    }

    /// Total number of bytes in the challenge grid.
    pub fn total_bytes(self) -> (n: usize)
        ensures
            n == self.spec_total_bytes(),
    {
        match self {
            Level::Novice => 1,
            Level::Apprentice => 2,
            Level::Journeyman => 4,
            Level::Expert => 9,
            Level::Master => 32,
        }
    }

    /// Number of bytes per row in the grid.
    pub fn bytes_per_row(self) -> (n: usize)
        ensures
            n == self.spec_bytes_per_row(),
    {
        match self {
            Level::Novice => 1,
            Level::Apprentice => 2,
            Level::Journeyman => 2,
            Level::Expert => 3,
            Level::Master => 4,
        }
    }

    /// Number of rows in the grid.
    pub fn num_rows(self) -> (n: usize)
        ensures
            n == self.spec_num_rows(),
    {
        match self {
            Level::Novice => 1,
            Level::Apprentice => 1,
            Level::Journeyman => 2,
            Level::Expert => 3,
            Level::Master => 8,
        }
    }

    /// Total number of bits in the challenge (total_bytes * 8).
    pub fn total_bits(self) -> (n: usize)
        ensures
            n == self.spec_total_bytes() * 8,
    {
        self.total_bytes() * 8
    }

    /// The level at a position (0=Novice … 4=Master), or `None` past the last one.
    pub fn from_index(index: u8) -> (l: Option<Level>)
        ensures
            match l {
                Some(level) => index < 5 && level.spec_index() == index,
                None => index >= 5,
            },
    {
        match index {
            0 => Some(Level::Novice),
            1 => Some(Level::Apprentice),
            2 => Some(Level::Journeyman),
            3 => Some(Level::Expert),
            4 => Some(Level::Master),
            _ => None,
        }
    }
}

/// A flashcard challenge: a grid of random bytes split into rows.
#[derive(Debug, Clone, PartialEq, Eq)]
pub struct Challenge {
    /// The difficulty level of this challenge.
    pub level: Level,
    /// The full random byte data (length = level.total_bytes()).
    pub data: Vec<u8>,
    /// The data split into rows according to the level's grid dimensions.
    pub rows: Vec<Vec<u8>>,
}

/// The first `total` bytes of `rng`, padded with zeros when `rng` is shorter.
pub open spec fn padded(rng: Seq<u8>, total: nat) -> Seq<u8> {
    Seq::new(
        total,
        |i: int|
            if i < rng.len() {
                rng[i]
            } else {
                0u8
            },
    )
}

/// `data` cut into consecutive pieces of `k` bytes; the last piece may be shorter.
pub open spec fn chunks(data: Seq<u8>, k: int) -> Seq<Seq<u8>>
    decreases data.len(),
{
    if data.len() == 0 {
        seq![]
    } else if k <= 0 || data.len() <= k {
        seq![data]
    } else {
        seq![data.take(k)] + chunks(data.skip(k), k)
    }
}

/// The concatenation of a sequence of rows.
pub open spec fn flatten_rows(rows: Seq<Seq<u8>>) -> Seq<u8>
    decreases rows.len(),
{
    if rows.len() == 0 {
        seq![]
    } else {
        rows[0] + flatten_rows(rows.drop_first())
    }
}

/// Generate a challenge from caller-provided random bytes (sans-I/O).
///
/// If `rng_bytes` is shorter than needed, the data is padded with zeros.
/// If longer, it is truncated to the required length.
pub fn generate(level: Level, rng_bytes: &[u8]) -> (c: Challenge)
    ensures
        c.level == level,
        c.data@ == padded(rng_bytes@, level.spec_total_bytes() as nat),
        c.rows.deep_view() == chunks(c.data@, level.spec_bytes_per_row() as int),
{
    let total = level.total_bytes();
    let bpr = level.bytes_per_row();

    let mut data: Vec<u8> = Vec::new();
    let mut i: usize = 0;
    while i < total
        invariant
            i <= total,
            data@ =~= padded(rng_bytes@, total as nat).take(i as int),
        decreases total - i,
    {
        if i < rng_bytes.len() {
            data.push(rng_bytes[i]);
        } else {
            data.push(0);
        }
        i += 1;
    }
    assert(padded(rng_bytes@, total as nat).take(total as int) =~= padded(rng_bytes@, total as nat));

    let mut rows: Vec<Vec<u8>> = Vec::new();
    let mut start: usize = 0;
    assert(data@.skip(0) =~= data@);
    assert(rows.deep_view() =~= Seq::<Seq<u8>>::empty());
    while start < total
        invariant
            total == data@.len(),
            bpr == level.spec_bytes_per_row(),
            bpr > 0,
            start <= total,
            rows.deep_view() + chunks(data@.skip(start as int), bpr as int) == chunks(
                data@,
                bpr as int,
            ),
        decreases total - start,
    {
        let end: usize = if total - start <= bpr {
            total
        } else {
            start + bpr
        };
        let mut row: Vec<u8> = Vec::new();
        let mut j: usize = start;
        while j < end
            invariant
                start <= j <= end,
                end <= total,
                total == data@.len(),
                row@ =~= data@.subrange(start as int, j as int),
            decreases end - j,
        {
            row.push(data[j]);
            j += 1;
        }
        let ghost rest = data@.skip(start as int);
        let ghost old_rows = rows.deep_view();
        assert(row.deep_view() =~= row@);
        rows.push(row);
        assert(rows.deep_view() =~~= old_rows.push(data@.subrange(start as int, end as int)));
        if end == total {
            assert(rest =~= data@.subrange(start as int, end as int));
            assert(data@.skip(end as int) =~= Seq::<u8>::empty());
            assert(chunks(rest, bpr as int) =~= seq![rest]);
        } else {
            assert(rest.take(bpr as int) =~= data@.subrange(start as int, end as int));
            assert(rest.skip(bpr as int) =~= data@.skip(end as int));
        }
        assert(rows.deep_view() + chunks(data@.skip(end as int), bpr as int) =~= old_rows + chunks(
            rest,
            bpr as int,
        ));
        start = end;
    }
    assert(data@.skip(total as int) =~= Seq::<u8>::empty());
    assert(rows.deep_view() + Seq::<Seq<u8>>::empty() =~= rows.deep_view());
    Challenge { level, data, rows }
}

/// Result of validating a single row of heard syllables against expected bytes.
#[derive(Debug, Clone, PartialEq, Eq)]
pub struct RowResult {
    /// Whether the heard syllables exactly match the expected syllables.
    pub matched: bool,
    /// The expected syllables derived from the expected bytes (2 per byte: high nibble, low nibble).
    pub expected: Vec<Syllable>,
    /// The syllables that were heard (from classification).
    pub heard: Vec<Syllable>,
}

/// The syllables that speak `bytes`: for each byte, the syllable of its high
/// nibble, then the syllable of its low nibble.
pub open spec fn expected_syllables(bytes: Seq<u8>) -> Seq<Syllable>
    decreases bytes.len(),
{
    if bytes.len() == 0 {
        seq![]
    } else {
        let b = bytes.last();
        expected_syllables(bytes.drop_last()) + seq![
            Syllable::spec_from_nibble(b / 16),
            Syllable::spec_from_nibble(b % 16),
        ]
    }
}

/// Validate a row of heard syllables against expected bytes.
///
/// Each byte produces 2 syllables (high nibble first, low nibble second).
/// A match requires the same count and each position to match exactly.
pub fn validate_row(expected_bytes: &[u8], heard: &[Syllable]) -> (r: RowResult)
    ensures
        r.expected@ == expected_syllables(expected_bytes@),
        r.heard@ == heard@,
        r.matched == (r.expected@ == heard@),
{
    let mut expected: Vec<Syllable> = Vec::new();
    let mut i: usize = 0;
    while i < expected_bytes.len()
        invariant
            i <= expected_bytes@.len(),
            expected@ == expected_syllables(expected_bytes@.take(i as int)),
        decreases expected_bytes@.len() - i,
    {
        let b = expected_bytes[i];
        let high = (b >> 4) & 0x0F;
        let low = b & 0x0F;
        assert(high == b / 16 && low == b % 16) by (bit_vector)
            requires
                high == (b >> 4) & 0x0F,
                low == b & 0x0F,
        ;
        let ghost before = expected@;
        expected.push(Syllable::from_nibble(high));
        expected.push(Syllable::from_nibble(low));
        assert(expected_bytes@.take(i + 1).drop_last() =~= expected_bytes@.take(i as int));
        assert(expected@ =~= before + seq![
            Syllable::spec_from_nibble(b / 16),
            Syllable::spec_from_nibble(b % 16),
        ]);
        i += 1;
    }
    assert(expected_bytes@.take(expected_bytes@.len() as int) =~= expected_bytes@);

    let mut copy: Vec<Syllable> = Vec::new();
    let mut matched = expected.len() == heard.len();
    let mut j: usize = 0;
    while j < heard.len()
        invariant
            j <= heard@.len(),
            copy@ =~= heard@.take(j as int),
            matched == (expected@.len() == heard@.len() && forall|t: int|
                0 <= t < j ==> expected@[t] == heard@[t]),
        decreases heard@.len() - j,
    {
        if matched && expected[j] != heard[j] {
            matched = false;
        }
        copy.push(heard[j]);
        j += 1;
    }
    assert(heard@.take(heard@.len() as int) =~= heard@);
    assert(matched ==> expected@ =~= heard@);
    RowResult { matched, expected, heard: copy }
}

// ---------------------------------------------------------------------------
// Laws
// ---------------------------------------------------------------------------

/// Every level's grid is a full rectangle: `num_rows * bytes_per_row ==
/// total_bytes`, rows are never wider than 4 bytes, and `total_bits` is eight
/// bits per byte.
pub proof fn law_level_grid(level: Level)
    ensures
        level.spec_num_rows() * level.spec_bytes_per_row() == level.spec_total_bytes(),
        0 < level.spec_bytes_per_row() <= 4,
{
    match level {
        Level::Novice => {},
        Level::Apprentice => {},
        Level::Journeyman => {},
        Level::Expert => {},
        Level::Master => {},
    }
}

/// `from_index` names every level by its position.
pub proof fn law_level_index_roundtrip(level: Level)
    ensures
        level.spec_index() < 5,
        forall|l: Level| l.spec_index() == level.spec_index() ==> l == level,
{
}

proof fn lemma_chunks_of_full_rows(data: Seq<u8>, n: nat, k: int)
    requires
        k > 0,
        data.len() == n * k,
    ensures
        chunks(data, k).len() == n,
        forall|r: int| 0 <= r < n ==> (#[trigger] chunks(data, k)[r]).len() == k,
        flatten_rows(chunks(data, k)) == data,
    decreases n,
{
    if n == 0 {
        assert(n * k == 0) by (nonlinear_arith)
            requires
                n == 0,
        ;
        assert(data =~= Seq::<u8>::empty());
    } else {
        assert(data.len() == (n - 1) * k + k) by (nonlinear_arith)
            requires
                data.len() == n * k,
                n > 0,
        ;
        let rest = data.skip(k);
        lemma_chunks_of_full_rows(rest, (n - 1) as nat, k);
        if data.len() <= k {
            assert(n == 1) by (nonlinear_arith)
                requires
                    data.len() == n * k,
                    data.len() <= k,
                    k > 0,
                    n > 0,
            ;
            assert(rest =~= Seq::<u8>::empty());
            assert(chunks(data, k) =~= seq![data]);
            assert(chunks(data, k).drop_first() =~= Seq::<Seq<u8>>::empty());
            assert(data + Seq::<u8>::empty() =~= data);
        } else {
            assert(chunks(data, k).drop_first() =~= chunks(rest, k));
            assert(data.take(k) + rest =~= data);
        }
    }
}

/// A generated challenge always has the level's grid shape: `num_rows` rows
/// of exactly `bytes_per_row` bytes, whose concatenation is the challenge data.
pub proof fn law_generated_rows_fill_grid(level: Level, rng: Seq<u8>)
    ensures
        ({
            let data = padded(rng, level.spec_total_bytes() as nat);
            let rows = chunks(data, level.spec_bytes_per_row() as int);
            &&& rows.len() == level.spec_num_rows()
            &&& forall|r: int|
                0 <= r < rows.len() ==> (#[trigger] rows[r]).len() == level.spec_bytes_per_row()
            &&& flatten_rows(rows) == data
        }),
{
    let data = padded(rng, level.spec_total_bytes() as nat);
    lemma_chunks_of_full_rows(data, level.spec_num_rows() as nat, level.spec_bytes_per_row() as int);
}

/// Every byte of a row is spoken as exactly two syllables.
pub proof fn law_expected_syllables_length(bytes: Seq<u8>)
    ensures
        expected_syllables(bytes).len() == 2 * bytes.len(),
    decreases bytes.len(),
{
    if bytes.len() > 0 {
        law_expected_syllables_length(bytes.drop_last());
    }
}

} // verus!
