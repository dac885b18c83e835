use stq8_core::flashcard::{generate, validate_row, Level};
use stq8_core::q8::Syllable;

// --- Level dimensions ---

#[test]
fn level_novice_dimensions() {
    assert_eq!(Level::Novice.total_bytes(), 1);
    assert_eq!(Level::Novice.bytes_per_row(), 1);
    assert_eq!(Level::Novice.num_rows(), 1);
    assert_eq!(Level::Novice.total_bits(), 8);
}

#[test]
fn level_apprentice_dimensions() {
    assert_eq!(Level::Apprentice.total_bytes(), 2);
    assert_eq!(Level::Apprentice.bytes_per_row(), 2);
    assert_eq!(Level::Apprentice.num_rows(), 1);
    assert_eq!(Level::Apprentice.total_bits(), 16);
}

#[test]
fn level_journeyman_dimensions() {
    assert_eq!(Level::Journeyman.total_bytes(), 4);
    assert_eq!(Level::Journeyman.bytes_per_row(), 2);
    assert_eq!(Level::Journeyman.num_rows(), 2);
    assert_eq!(Level::Journeyman.total_bits(), 32);
}

#[test]
fn level_expert_dimensions() {
    assert_eq!(Level::Expert.total_bytes(), 9);
    assert_eq!(Level::Expert.bytes_per_row(), 3);
    assert_eq!(Level::Expert.num_rows(), 3);
    assert_eq!(Level::Expert.total_bits(), 72);
}

#[test]
fn level_master_dimensions() {
    assert_eq!(Level::Master.total_bytes(), 32);
    assert_eq!(Level::Master.bytes_per_row(), 4);
    assert_eq!(Level::Master.num_rows(), 8);
    assert_eq!(Level::Master.total_bits(), 256);
}

#[test]
fn all_levels_rows_times_bytes_per_row_equals_total() {
    for level in Level::ALL {
        assert_eq!(
            level.num_rows() * level.bytes_per_row(),
            level.total_bytes(),
            "{level:?}: num_rows * bytes_per_row should equal total_bytes"
        );
    }
}

// --- Challenge generation ---

#[test]
fn generate_novice_one_byte() {
    let challenge = generate(Level::Novice, &[0x42]);
    assert_eq!(challenge.level, Level::Novice);
    assert_eq!(challenge.data, vec![0x42]);
    assert_eq!(challenge.rows, vec![vec![0x42]]);
}

#[test]
fn generate_master_32_bytes() {
    let rng: Vec<u8> = (0..32).collect();
    let challenge = generate(Level::Master, &rng);
    assert_eq!(challenge.data.len(), 32);
    assert_eq!(challenge.rows.len(), 8);
    for row in &challenge.rows {
        assert_eq!(row.len(), 4);
    }
    let flat: Vec<u8> = challenge.rows.iter().flatten().copied().collect();
    assert_eq!(flat, challenge.data);
}

#[test]
fn generate_truncates_excess_rng() {
    let challenge = generate(Level::Novice, &vec![0xAB; 100]);
    assert_eq!(challenge.data, vec![0xAB]);
}

#[test]
fn generate_pads_insufficient_rng() {
    let challenge = generate(Level::Apprentice, &[]);
    assert_eq!(challenge.data.len(), 2);
}

#[test]
fn generate_expert_nine_bytes_three_rows() {
    let rng: Vec<u8> = (10..19).collect();
    let challenge = generate(Level::Expert, &rng);
    assert_eq!(challenge.rows[0], vec![10, 11, 12]);
    assert_eq!(challenge.rows[1], vec![13, 14, 15]);
    assert_eq!(challenge.rows[2], vec![16, 17, 18]);
}

// --- Row validation ---

#[test]
fn validate_row_exact_match() {
    let s0 = Syllable::from_nibble(0);
    let result = validate_row(&[0x00], &[s0, s0]);
    assert!(result.matched);
    assert_eq!(result.expected, vec![s0, s0]);
    assert_eq!(result.heard, vec![s0, s0]);
}

#[test]
fn validate_row_mismatch() {
    let s0 = Syllable::from_nibble(0);
    let s1 = Syllable::from_nibble(1);
    let result = validate_row(&[0x00], &[s0, s1]);
    assert!(!result.matched);
    assert_eq!(result.expected, vec![s0, s0]);
    assert_eq!(result.heard, vec![s0, s1]);
}

#[test]
fn validate_row_multi_byte() {
    let syllables: Vec<Syllable> = [5, 9, 10, 3]
        .iter()
        .map(|&n| Syllable::from_nibble(n))
        .collect();
    let result = validate_row(&[0x59, 0xA3], &syllables);
    assert!(result.matched);
    assert_eq!(result.heard.len(), 4);
}

#[test]
fn validate_row_wrong_length_too_few() {
    let result = validate_row(&[0x00], &[Syllable::from_nibble(0)]);
    assert!(!result.matched);
}

#[test]
fn validate_row_wrong_length_too_many() {
    let s0 = Syllable::from_nibble(0);
    let result = validate_row(&[0x00], &[s0, s0, s0]);
    assert!(!result.matched);
}

#[test]
fn validate_row_empty_expected() {
    let result = validate_row(&[], &[]);
    assert!(result.matched);
    assert!(result.expected.is_empty());
}

// --- further cases ---

#[test]
fn generate_pads_with_zeros_after_short_rng() {
    let challenge = generate(Level::Journeyman, &[7, 8, 9]);
    assert_eq!(challenge.data, vec![7, 8, 9, 0]);
    assert_eq!(challenge.rows, vec![vec![7, 8], vec![9, 0]]);
}

#[test]
fn every_level_generates_its_grid() {
    let rng: Vec<u8> = (100..200).collect();
    for level in Level::ALL {
        let c = generate(level, &rng);
        assert_eq!(c.rows.len(), level.num_rows());
        for row in &c.rows {
            assert_eq!(row.len(), level.bytes_per_row());
        }
        assert_eq!(c.data, rng[..level.total_bytes()].to_vec());
    }
}

#[test]
fn level_from_index_names_every_level() {
    for (i, level) in Level::ALL.iter().enumerate() {
        assert_eq!(Level::from_index(i as u8), Some(*level));
    }
    assert_eq!(Level::from_index(5), None);
    assert_eq!(Level::from_index(255), None);
}

#[test]
fn validate_row_expected_is_high_nibble_first() {
    let result = validate_row(&[0x92], &[]);
    assert_eq!(result.expected, vec![Syllable::from_nibble(9), Syllable::from_nibble(2)]);
    assert!(!result.matched);
}
