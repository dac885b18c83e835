use stq8_core::profile::{remap_syllable, CalibrationMode};
use stq8_core::q8::{Consonant, Phoneme, Syllable, Vowel};

#[test]
fn calibration_mode_default_is_full() {
    assert_eq!(CalibrationMode::default(), CalibrationMode::Full);
}

fn sample_map() -> Vec<(Phoneme, Phoneme)> {
    // Remap glottal stop consonant → J consonant
    vec![(
        Phoneme::Consonant(Consonant::GlottalStop),
        Phoneme::Consonant(Consonant::J),
    )]
}

#[test]
fn remap_replaces_consonant() {
    let glottal_o = Syllable::new(Consonant::GlottalStop, Vowel::O);
    let j_o = Syllable::new(Consonant::J, Vowel::O);
    assert_eq!(remap_syllable(&sample_map(), glottal_o), j_o);
}

#[test]
fn remap_applies_regardless_of_vowel() {
    let glottal_i = Syllable::new(Consonant::GlottalStop, Vowel::I);
    let j_i = Syllable::new(Consonant::J, Vowel::I);
    assert_eq!(remap_syllable(&sample_map(), glottal_i), j_i);
}

#[test]
fn remap_passes_unmapped_through() {
    let ku = Syllable::new(Consonant::K, Vowel::U);
    assert_eq!(remap_syllable(&sample_map(), ku), ku);
}

#[test]
fn remap_does_not_chain() {
    let map = vec![
        (
            Phoneme::Consonant(Consonant::GlottalStop),
            Phoneme::Consonant(Consonant::J),
        ),
        (
            Phoneme::Consonant(Consonant::J),
            Phoneme::Consonant(Consonant::K),
        ),
    ];
    let input = Syllable::new(Consonant::GlottalStop, Vowel::O);
    assert_eq!(
        remap_syllable(&map, input),
        Syllable::new(Consonant::J, Vowel::O),
        "remap should apply once, not chain through consecutive rules"
    );
}

#[test]
fn remap_duplicate_from_uses_first() {
    let map = vec![
        (
            Phoneme::Consonant(Consonant::GlottalStop),
            Phoneme::Consonant(Consonant::J),
        ),
        (
            Phoneme::Consonant(Consonant::GlottalStop),
            Phoneme::Consonant(Consonant::K),
        ),
    ];
    let input = Syllable::new(Consonant::GlottalStop, Vowel::O);
    assert_eq!(remap_syllable(&map, input), Syllable::new(Consonant::J, Vowel::O));
}

#[test]
fn remap_cross_type_ignored() {
    let map = vec![(
        Phoneme::Consonant(Consonant::GlottalStop),
        Phoneme::Vowel(Vowel::I),
    )];
    let input = Syllable::new(Consonant::GlottalStop, Vowel::O);
    assert_eq!(remap_syllable(&map, input), input);
}

#[test]
fn remap_vowel_and_consonant_together() {
    let map = vec![
        (Phoneme::Vowel(Vowel::O), Phoneme::Vowel(Vowel::U)),
        (Phoneme::Consonant(Consonant::K), Phoneme::Consonant(Consonant::V)),
        (Phoneme::Vowel(Vowel::O), Phoneme::Vowel(Vowel::E)),
    ];
    let input = Syllable::new(Consonant::K, Vowel::O);
    assert_eq!(remap_syllable(&map, input), Syllable::new(Consonant::V, Vowel::U));
}
