use stq8_core::flashcard::validate_row;
use stq8_core::pipeline::{encode_syllables_to_q8, settle_accepted};
use stq8_core::q8::{byte_to_word, Consonant, Syllable, Vowel};

#[test]
fn encode_syllables_to_q8_basic() {
    // KU + 'E = byte 0x92
    let syllables = vec![
        Syllable::new(Consonant::K, Vowel::U),           // nibble 9
        Syllable::new(Consonant::GlottalStop, Vowel::E), // nibble 2
    ];

    let bytes = encode_syllables_to_q8(&syllables);
    assert_eq!(bytes, vec![0x92]);
}

#[test]
fn encode_syllables_to_q8_trailing_discarded() {
    // 1 syllable can't form a complete byte
    let syllables = vec![Syllable::new(Consonant::J, Vowel::O)];
    let bytes = encode_syllables_to_q8(&syllables);
    assert!(bytes.is_empty(), "1 syllable should produce 0 bytes");
}

#[test]
fn encode_syllables_to_q8_empty() {
    assert!(encode_syllables_to_q8(&[]).is_empty());
}

#[test]
fn encode_syllables_roundtrip_with_q8() {
    let s1 = Syllable::new(Consonant::V, Vowel::I); // nibble 15 = 0xF
    let s2 = Syllable::new(Consonant::V, Vowel::I); // nibble 15 = 0xF
    let bytes = encode_syllables_to_q8(&[s1, s2]);
    assert_eq!(bytes, vec![0xFF]);
    assert_eq!(byte_to_word(0xFF), "VIVI");
}

#[test]
fn encode_odd_syllables_reports_pending() {
    let syllables = vec![
        Syllable::new(Consonant::K, Vowel::U),           // nibble 9
        Syllable::new(Consonant::GlottalStop, Vowel::E), // nibble 2
        Syllable::new(Consonant::V, Vowel::I),           // nibble 15 — trailing
    ];

    let bytes = encode_syllables_to_q8(&syllables);
    assert_eq!(bytes, vec![0x92], "only complete pairs should encode");

    let pending = if syllables.len() % 2 == 1 {
        syllables.last().copied()
    } else {
        None
    };
    assert_eq!(
        pending,
        Some(Syllable::new(Consonant::V, Vowel::I)),
        "trailing syllable should be reported as pending"
    );
}

// --- carry across utterances ---

#[test]
fn settle_odd_syllable_becomes_pending_carry() {
    let ku = Syllable::from_nibble(9);
    let e = Syllable::from_nibble(2);
    let vi = Syllable::from_nibble(15);
    let r = settle_accepted(None, &[ku, e, vi]);
    assert_eq!(r.q8_bytes, vec![0x92]);
    assert_eq!(r.pending_syllable, Some(vi));
    assert_eq!(r.carry, Some(vi));
    assert_eq!(r.consumed_carry, None);
}

#[test]
fn settle_carry_completes_next_byte() {
    let vi = Syllable::from_nibble(15);
    let o = Syllable::from_nibble(0);
    let r = settle_accepted(Some(vi), &[o]);
    assert_eq!(r.q8_bytes, vec![0xF0]);
    assert_eq!(r.pending_syllable, None);
    assert_eq!(r.carry, None);
    assert_eq!(r.consumed_carry, Some(vi));
}

#[test]
fn settle_carry_passthrough_is_not_rereported() {
    let carry = Syllable::from_nibble(5);
    let r = settle_accepted(Some(carry), &[]);
    assert!(r.q8_bytes.is_empty());
    assert_eq!(r.carry, Some(carry), "carry should persist when nothing new is accepted");
    assert_eq!(r.pending_syllable, None);
    assert_eq!(r.consumed_carry, None);
}

#[test]
fn settle_carry_not_consumed_when_it_stays_pending() {
    let carry = Syllable::from_nibble(5);
    let a = Syllable::from_nibble(6);
    let b = Syllable::from_nibble(7);
    // carry + a form a byte, b is left over
    let r = settle_accepted(Some(carry), &[a, b]);
    assert_eq!(r.q8_bytes, vec![0x56]);
    assert_eq!(r.consumed_carry, Some(carry));
    assert_eq!(r.pending_syllable, Some(b));
    assert_eq!(r.carry, Some(b));
}

#[test]
fn utterances_split_anywhere_give_the_same_bytes() {
    let all: Vec<Syllable> = [1u8, 2, 3, 4, 5, 6, 7, 8, 9, 10, 11]
        .iter()
        .map(|&n| Syllable::from_nibble(n))
        .collect();
    let whole = encode_syllables_to_q8(&all);
    for cut1 in 0..all.len() {
        for cut2 in cut1..all.len() {
            let r1 = settle_accepted(None, &all[..cut1]);
            let r2 = settle_accepted(r1.carry, &all[cut1..cut2]);
            let r3 = settle_accepted(r2.carry, &all[cut2..]);
            let mut bytes = r1.q8_bytes.clone();
            bytes.extend_from_slice(&r2.q8_bytes);
            bytes.extend_from_slice(&r3.q8_bytes);
            assert_eq!(bytes, whole);
            assert_eq!(r3.carry, Some(all[10]));
        }
    }
}

#[test]
fn expected_row_syllables_encode_back_to_the_row() {
    let row = [0x59u8, 0xA3, 0x00, 0xFF];
    let expected = validate_row(&row, &[]).expected;
    assert_eq!(encode_syllables_to_q8(&expected), row.to_vec());
}
