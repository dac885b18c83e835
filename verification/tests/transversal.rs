use std::collections::HashSet;
use stq8_core::q8::{Consonant, Syllable, Vowel};
use stq8_core::transversal::{
    check_phrase_syllables, check_training_labels, check_transversal_calibration, phrase_1, phrase_2, reconstruct_syllable,
    TrainError,
};

#[test]
fn phrases_cover_all_consonants_and_vowels() {
    for phrase in [phrase_1(), phrase_2()] {
        let consonants: HashSet<Consonant> = phrase.iter().map(|s| s.consonant).collect();
        let vowels: HashSet<Vowel> = phrase.iter().map(|s| s.vowel).collect();
        assert_eq!(consonants.len(), 4, "phrase should cover all 4 consonants");
        assert_eq!(vowels.len(), 4, "phrase should cover all 4 vowels");
    }
}

#[test]
fn phrases_are_orthogonal() {
    let p1_set: HashSet<Syllable> = phrase_1().iter().copied().collect();
    let p2_set: HashSet<Syllable> = phrase_2().iter().copied().collect();
    let intersection: HashSet<&Syllable> = p1_set.intersection(&p2_set).collect();
    assert!(
        intersection.is_empty(),
        "phrases should share no syllables, but share: {:?}",
        intersection
    );
}

fn full_labels() -> Vec<(u8, Syllable)> {
    let mut labels = Vec::new();
    for s in phrase_1() {
        labels.push((0u8, s));
    }
    for s in phrase_2() {
        labels.push((1u8, s));
    }
    labels
}

#[test]
fn training_labels_accept_complete_phrases() {
    assert_eq!(check_training_labels(&full_labels()), Ok(()));
}

#[test]
fn training_labels_reject_invalid_phrase_index() {
    let result = check_training_labels(&[(2, phrase_1()[0])]);
    assert_eq!(result, Err(TrainError::InvalidPhraseIndex(2)));
}

#[test]
fn training_labels_reject_wrong_syllable_for_phrase() {
    // phrase_2()[0] = 'I, which is not in phrase 1
    let wrong_syllable = phrase_2()[0];
    let result = check_training_labels(&[(0, wrong_syllable)]);
    assert_eq!(
        result,
        Err(TrainError::WrongSyllableForPhrase { syllable: wrong_syllable, phrase_index: 0 })
    );
}

#[test]
fn training_labels_count_missing_syllables() {
    let mut labels = full_labels();
    labels.remove(1);
    labels.remove(1);
    assert_eq!(
        check_training_labels(&labels),
        Err(TrainError::IncompletePhraseTraining { phrase_index: 0, missing_count: 2 })
    );
    let only_phrase_one: Vec<(u8, Syllable)> = full_labels()[..4].to_vec();
    assert_eq!(
        check_training_labels(&only_phrase_one),
        Err(TrainError::IncompletePhraseTraining { phrase_index: 1, missing_count: 4 })
    );
}

#[test]
fn phrase_syllable_check_reports_foreign_syllable() {
    let p1 = phrase_1();
    let p2 = phrase_2();
    assert_eq!(check_phrase_syllables(&p1, &p2), Ok(()));
    let err = check_phrase_syllables(&p2, &p1).unwrap_err();
    assert_eq!(err, TrainError::WrongSyllableForPhrase { syllable: p2[0], phrase_index: 0 });
    assert!(err.message().contains("does not belong to phrase"));
    assert_eq!(err.message(), "syllable 'I does not belong to phrase 0");
}

#[test]
fn train_error_messages() {
    assert_eq!(
        TrainError::InvalidPhraseIndex(7).message(),
        "invalid phrase index: 7 (must be 0 or 1)"
    );
    assert_eq!(
        TrainError::IncompletePhraseTraining { phrase_index: 1, missing_count: 3 }.message(),
        "phrase 1 is missing 3 syllable(s)"
    );
}

/// The Top-2 of a phrase for target `t`, as the design document describes it.
fn top2_for(t: Syllable, phrase: [Syllable; 4]) -> ([Syllable; 2], bool) {
    if phrase.contains(&t) {
        let other = if phrase[0] == t { phrase[1] } else { phrase[0] };
        ([t, other], true)
    } else {
        let by_c = *phrase.iter().find(|s| s.consonant == t.consonant).unwrap();
        let by_v = *phrase.iter().find(|s| s.vowel == t.vowel).unwrap();
        ([by_v, by_c], false)
    }
}

#[test]
fn reconstructs_all_16_nibbles_from_top2() {
    for nibble in 0..16u8 {
        let t = Syllable::from_nibble(nibble);
        let (p1, d1) = top2_for(t, phrase_1());
        let (p2, d2) = top2_for(t, phrase_2());
        assert_eq!(reconstruct_syllable(p1, d1, p2, d2), Some(t), "nibble {nibble}");
    }
}

#[test]
fn worked_example_ve() {
    // User says "VE": P1 Top-2 = KE, VI; P2 Top-2 = JE, VU
    let ke = Syllable::new(Consonant::K, Vowel::E);
    let vi = Syllable::new(Consonant::V, Vowel::I);
    let je = Syllable::new(Consonant::J, Vowel::E);
    let vu = Syllable::new(Consonant::V, Vowel::U);
    assert_eq!(
        reconstruct_syllable([ke, vi], false, [je, vu], false),
        Some(Syllable::new(Consonant::V, Vowel::E))
    );
}

#[test]
fn ambiguous_intersection_gives_none() {
    let p1 = phrase_1();
    let p2 = phrase_2();
    // 'O and JU against 'I and JE: consonants {', J} shared twice
    assert_eq!(reconstruct_syllable([p1[0], p1[1]], false, [p2[0], p2[1]], false), None);
    // KE dominated against 'I, JE: no shared consonant
    assert_eq!(reconstruct_syllable([p1[2], p1[0]], true, [p2[0], p2[1]], false), None);
}

#[test]
fn finalize_transversal_errors_on_empty_samples() {
    let result = check_transversal_calibration(&[]);
    assert!(result.is_err(), "empty samples should return error");
    let err = result.unwrap_err();
    assert_eq!(err, TrainError::NoSamples, "error should be NoSamples variant");
}

#[test]
fn finalize_transversal_propagates_wrong_syllable_error() {
    // 'I (nibble 3) belongs to phrase 2, not phrase 1
    let result = check_transversal_calibration(&[(0, Syllable::from_nibble(3))]);
    assert!(result.is_err(), "should propagate WrongSyllableForPhrase error");
    assert_eq!(
        result,
        Err(TrainError::WrongSyllableForPhrase { syllable: Syllable::from_nibble(3), phrase_index: 0 })
    );
}

#[test]
fn transversal_calibration_accepts_complete_labels() {
    let mut labels: Vec<(u8, Syllable)> = Vec::new();
    for s in phrase_1() {
        labels.push((0, s));
    }
    for s in phrase_2() {
        labels.push((1, s));
    }
    assert_eq!(check_transversal_calibration(&labels), Ok(()));
}
