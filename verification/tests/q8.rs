use std::collections::HashSet;
use stq8_core::q8::{
    byte_to_word, decode, encode, format_box, format_flat, nibble_to_syllable, syllable_to_nibble,
    word_to_byte, Consonant, DecodeError, Phoneme, Syllable, Vowel, BOX_CONSONANT_CHARS,
    BOX_VOWEL_CHARS,
};

// --- Consonant enum ---

#[test]
fn consonant_bits_roundtrip() {
    for bits in 0..4u8 {
        let c = Consonant::from_bits(bits);
        assert_eq!(c.bits(), bits);
    }
}

#[test]
fn consonant_chars() {
    assert_eq!(Consonant::GlottalStop.char(), '\'');
    assert_eq!(Consonant::J.char(), 'J');
    assert_eq!(Consonant::K.char(), 'K');
    assert_eq!(Consonant::V.char(), 'V');
}

#[test]
fn consonant_bits_values() {
    assert_eq!(Consonant::GlottalStop.bits(), 0b00);
    assert_eq!(Consonant::J.bits(), 0b01);
    assert_eq!(Consonant::K.bits(), 0b10);
    assert_eq!(Consonant::V.bits(), 0b11);
}

// --- Vowel enum ---

#[test]
fn vowel_bits_roundtrip() {
    for bits in 0..4u8 {
        let v = Vowel::from_bits(bits);
        assert_eq!(v.bits(), bits);
    }
}

#[test]
fn vowel_chars() {
    assert_eq!(Vowel::O.char(), 'O');
    assert_eq!(Vowel::U.char(), 'U');
    assert_eq!(Vowel::E.char(), 'E');
    assert_eq!(Vowel::I.char(), 'I');
}

#[test]
fn vowel_bits_values() {
    assert_eq!(Vowel::O.bits(), 0b00);
    assert_eq!(Vowel::U.bits(), 0b01);
    assert_eq!(Vowel::E.bits(), 0b10);
    assert_eq!(Vowel::I.bits(), 0b11);
}

// --- Phoneme enum ---

#[test]
fn phoneme_variants() {
    let pc = Phoneme::Consonant(Consonant::K);
    let pv = Phoneme::Vowel(Vowel::E);
    assert_ne!(pc, pv);
    assert_eq!(pc, Phoneme::Consonant(Consonant::K));
    assert_eq!(pv, Phoneme::Vowel(Vowel::E));
}

#[test]
fn phoneme_is_hashable() {
    let mut set = HashSet::new();
    set.insert(Phoneme::Consonant(Consonant::J));
    set.insert(Phoneme::Vowel(Vowel::O));
    assert_eq!(set.len(), 2);
}

// --- Syllable ---

#[test]
fn syllable_nibble_roundtrip_all_16() {
    for nibble in 0..16u8 {
        let syl = Syllable::from_nibble(nibble);
        assert_eq!(syl.to_nibble(), nibble, "nibble {nibble}: roundtrip failed");
    }
}

#[test]
fn syllable_display() {
    let syl = Syllable::new(Consonant::K, Vowel::U);
    assert_eq!(syl.to_string(), "KU");

    let syl2 = Syllable::new(Consonant::GlottalStop, Vowel::I);
    assert_eq!(syl2.to_string(), "'I");
}

#[test]
fn syllable_matches_nibble_to_syllable_string() {
    for nibble in 0..16u8 {
        let syl = Syllable::from_nibble(nibble);
        assert_eq!(
            syl.to_string(),
            nibble_to_syllable(nibble),
            "nibble {nibble}: Syllable display should match nibble_to_syllable"
        );
    }
}

// --- nibble_to_syllable ---

#[test]
fn nibble_to_syllable_all_16() {
    let expected = [
        "'O", "'U", "'E", "'I", "JO", "JU", "JE", "JI", "KO", "KU", "KE", "KI", "VO", "VU", "VE",
        "VI",
    ];
    for (nibble, &exp) in expected.iter().enumerate() {
        assert_eq!(
            nibble_to_syllable(nibble as u8),
            exp,
            "nibble {nibble} should encode to {exp:?}"
        );
    }
}

// --- syllable_to_nibble ---

#[test]
fn syllable_to_nibble_all_16() {
    let syllables = [
        "'O", "'U", "'E", "'I", "JO", "JU", "JE", "JI", "KO", "KU", "KE", "KI", "VO", "VU", "VE",
        "VI",
    ];
    for (expected, &syl) in syllables.iter().enumerate() {
        assert_eq!(
            syllable_to_nibble(syl),
            Some(expected as u8),
            "{syl:?} should decode to {expected}"
        );
    }
}

#[test]
fn syllable_to_nibble_invalid() {
    assert_eq!(syllable_to_nibble("XX"), None);
    assert_eq!(syllable_to_nibble("A"), None);
    assert_eq!(syllable_to_nibble("JOX"), None); // too long
    assert_eq!(syllable_to_nibble(""), None);
    assert_eq!(syllable_to_nibble("ZO"), None); // Z is not a valid consonant
    assert_eq!(syllable_to_nibble("JA"), None); // A is not a valid vowel
}

// --- byte_to_word / word_to_byte ---

#[test]
fn byte_to_word_known_values() {
    assert_eq!(byte_to_word(0x00), "'O'O");
    assert_eq!(byte_to_word(0x92), "KU'E");
    assert_eq!(byte_to_word(0xFF), "VIVI");
}

#[test]
fn byte_word_roundtrip_all_256() {
    for b in 0..=255u8 {
        let word = byte_to_word(b);
        assert_eq!(
            word_to_byte(&word),
            Some(b),
            "roundtrip failed for byte 0x{b:02X} (word {word:?})"
        );
    }
}

#[test]
fn word_to_byte_invalid() {
    assert_eq!(word_to_byte("ABCD"), None);
    assert_eq!(word_to_byte("JO"), None); // too short
    assert_eq!(word_to_byte("JOJOJO"), None); // too long
    assert_eq!(word_to_byte(""), None);
}

// --- encode ---

#[test]
fn encode_hello() {
    let data = b"hello";
    assert_eq!(encode(data), "JEKO JEJU JEVO JEVO JEVI");
}

#[test]
fn encode_empty() {
    assert_eq!(encode(b""), "");
}

#[test]
fn encode_wraps_at_8_words() {
    // 9 bytes -> 9 words -> 8 on first line, 1 on second
    let data: Vec<u8> = (0..9).collect();
    let encoded = encode(&data);
    let lines: Vec<&str> = encoded.lines().collect();
    assert_eq!(lines.len(), 2, "9 words should produce 2 lines");

    // First line has 8 words
    let first_words: Vec<&str> = lines[0].split(' ').collect();
    assert_eq!(first_words.len(), 8);

    // Second line has 1 word
    let second_words: Vec<&str> = lines[1].split(' ').collect();
    assert_eq!(second_words.len(), 1);
}

#[test]
fn encode_exactly_8_words_no_trailing_newline() {
    let data: Vec<u8> = (0..8).collect();
    let encoded = encode(&data);
    assert!(
        !encoded.contains('\n'),
        "exactly 8 words should be one line"
    );
}

#[test]
fn encode_16_words_two_lines() {
    let data: Vec<u8> = (0..16).collect();
    let encoded = encode(&data);
    let lines: Vec<&str> = encoded.lines().collect();
    assert_eq!(lines.len(), 2);
    for line in &lines {
        let words: Vec<&str> = line.split(' ').collect();
        assert_eq!(words.len(), 8);
    }
}

// --- decode ---

#[test]
fn decode_roundtrip() {
    let data = b"hello, world!";
    let encoded = encode(data);
    let decoded = decode(&encoded).unwrap();
    assert_eq!(decoded, data);
}

#[test]
fn decode_roundtrip_all_256() {
    let data: Vec<u8> = (0..=255).collect();
    let encoded = encode(&data);
    let decoded = decode(&encoded).unwrap();
    assert_eq!(decoded, data);
}

#[test]
fn decode_empty() {
    assert_eq!(decode("").unwrap(), Vec::<u8>::new());
    assert_eq!(decode("   ").unwrap(), Vec::<u8>::new());
}

#[test]
fn decode_invalid_word() {
    let err = decode("JOJO XXXX").unwrap_err();
    assert_eq!(err, DecodeError::InvalidWord("XXXX".to_string()));
}

#[test]
fn decode_error_display() {
    let err = DecodeError::InvalidWord("BLAH".to_string());
    let msg = err.message();
    assert!(
        msg.contains("BLAH"),
        "display should include the invalid word"
    );
}

#[test]
fn decode_handles_multiline() {
    let data: Vec<u8> = (0..16).collect();
    let encoded = encode(&data);
    assert!(encoded.contains('\n'));
    let decoded = decode(&encoded).unwrap();
    assert_eq!(decoded, data);
}

// --- BOX formatting constants ---

#[test]
fn box_consonant_chars_match_bit_order() {
    assert_eq!(BOX_CONSONANT_CHARS[0], 'A');
    assert_eq!(BOX_CONSONANT_CHARS[1], '>');
    assert_eq!(BOX_CONSONANT_CHARS[2], '<');
    assert_eq!(BOX_CONSONANT_CHARS[3], 'V');
}

#[test]
fn box_vowel_chars_match_bit_order() {
    assert_eq!(BOX_VOWEL_CHARS[0], 'O');
    assert_eq!(BOX_VOWEL_CHARS[1], '=');
    assert_eq!(BOX_VOWEL_CHARS[2], 'X');
    assert_eq!(BOX_VOWEL_CHARS[3], 'I');
}

// --- format_box() ---

#[test]
fn format_box_single_byte() {
    let result = format_box(&[0x00], 1);
    assert_eq!(result, "AA\nOO");
}

#[test]
fn format_box_two_bytes_one_row() {
    let result = format_box(&[0x92, 0x03], 2);
    assert_eq!(result, "<A AA\n=X OI");
}

#[test]
fn format_box_four_bytes_two_rows() {
    let result = format_box(&[0x00, 0xFF, 0x92, 0x03], 2);
    let expected = "AA VV\nOO II\n\n<A AA\n=X OI";
    assert_eq!(result, expected);
}

#[test]
fn format_box_empty() {
    assert_eq!(format_box(&[], 4), "");
}

#[test]
fn format_box_zero_bytes_per_row() {
    assert_eq!(format_box(&[0x00], 0), "");
}

#[test]
fn format_box_all_nibbles() {
    let result = format_box(&[0xFF], 1);
    assert_eq!(result, "VV\nII");
}

// --- format_flat() ---

#[test]
fn format_flat_single_byte() {
    assert_eq!(format_flat(&[0x92], 1), "KU'E");
}

#[test]
fn format_flat_two_bytes() {
    assert_eq!(format_flat(&[0x92, 0x03], 2), "KU'E 'O'I");
}

#[test]
fn format_flat_wraps_at_bytes_per_row() {
    let result = format_flat(&[0x00, 0xFF, 0x92, 0x03], 2);
    assert_eq!(result, "'O'O VIVI\nKU'E 'O'I");
}

#[test]
fn format_flat_empty() {
    assert_eq!(format_flat(&[], 4), "");
}

#[test]
fn format_flat_zero_bytes_per_row() {
    assert_eq!(format_flat(&[0x00], 0), "");
}

// --- further cases ---

#[test]
fn syllable_to_nibble_is_case_insensitive() {
    assert_eq!(syllable_to_nibble("ku"), Some(9));
    assert_eq!(syllable_to_nibble("kU"), Some(9));
    assert_eq!(syllable_to_nibble("'e"), Some(2));
    assert_eq!(word_to_byte("ku'e"), Some(0x92));
}

#[test]
fn decode_accepts_any_white_space_and_lowercase() {
    assert_eq!(decode("\tku'e\r\n  vivi \u{3000}'o'o").unwrap(), vec![0x92, 0xFF, 0x00]);
}

#[test]
fn decode_reports_first_invalid_word() {
    let err = decode("JOJO XX YYYY KU'E").unwrap_err();
    assert_eq!(err, DecodeError::InvalidWord("XX".to_string()));
    let err = decode("JOJO KU'E JOJOJO").unwrap_err();
    assert_eq!(err, DecodeError::InvalidWord("JOJOJO".to_string()));
}

#[test]
fn decode_error_message_exact() {
    let err = DecodeError::InvalidWord("BLAH".to_string());
    assert_eq!(err.message(), "invalid Q8 word: \"BLAH\"");
}

#[test]
fn format_flat_roundtrips_for_every_row_width() {
    let data: Vec<u8> = (0..=255).rev().collect();
    for width in 1..20usize {
        assert_eq!(decode(&format_flat(&data, width)).unwrap(), data);
    }
}

#[test]
fn encode_matches_format_flat_with_eight_per_row() {
    let data: Vec<u8> = (0..40).collect();
    assert_eq!(encode(&data), format_flat(&data, 8));
}

#[test]
fn format_box_three_rows_last_short() {
    // 0x1B = 00 01 10 11: consonants A(00) <(10), vowels =(01) I(11)
    let result = format_box(&[0x1B, 0x1B, 0x1B], 2);
    assert_eq!(result, "A< A<\n=I =I\n\nA<\n=I");
}

#[test]
fn nibble_to_syllable_uses_low_four_bits() {
    assert_eq!(nibble_to_syllable(0xF9), "KU");
    assert_eq!(Syllable::from_nibble(0xF9), Syllable::new(Consonant::K, Vowel::U));
    assert_eq!(Consonant::from_bits(0b110), Consonant::K);
    assert_eq!(Vowel::from_bits(0xFD), Vowel::U);
}

#[test]
fn flat_row_width_only_moves_line_breaks() {
    let data: Vec<u8> = (0u8..23).map(|i| i.wrapping_mul(37)).collect();
    assert_eq!(format_flat(&data, 8), encode(&data));
    let one_line = format_flat(&data, data.len());
    assert!(!one_line.contains('\n'));
    for k in 1..=30usize {
        let text = format_flat(&data, k);
        assert_eq!(text.lines().count(), (data.len() + k - 1) / k);
        assert_eq!(text.replace('\n', " "), one_line);
        let words: Vec<String> = data.iter().map(|&b| byte_to_word(b)).collect();
        assert_eq!(text.split_whitespace().collect::<Vec<_>>(), words);
    }
    assert_eq!(format_flat(&[], 3).lines().count(), 0);
}
