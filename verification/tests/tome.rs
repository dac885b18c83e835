use stq8_core::tome::{
    address_from_hex, address_to_hex, HexKeyError, LookupResult, Scroll, ScrollKind, Tome,
    TomeError, MAX_SCROLL_SIZE,
};

fn text_scroll(title: &str, text: &str) -> Scroll {
    Scroll {
        version: 1,
        kind: ScrollKind::Text(text.to_string()),
        title: title.to_string(),
        created_epoch_secs: 1000,
        updated_epoch_secs: 1000,
    }
}

#[test]
fn empty_tome_lookup() {
    let tome = Tome::new();
    assert_eq!(tome.lookup(&[0xAA, 0xBB]), LookupResult::NotFound);
}

#[test]
fn insert_and_lookup_exact() {
    let mut tome = Tome::new();
    let addr = vec![0xDE, 0xAD, 0xBE, 0xEF];
    let scroll = text_scroll("greeting", "hello world");
    tome.insert(addr.clone(), scroll.clone());

    match tome.lookup(&addr) {
        LookupResult::Found(found_addr, found_scroll) => {
            assert_eq!(found_addr, addr);
            assert_eq!(found_scroll, scroll);
        }
        other => panic!("expected Found, got {:?}", other),
    }
}

#[test]
fn shortest_prefix_unique() {
    let mut tome = Tome::new();
    let addr = vec![0xAA, 0xBB, 0xCC, 0xDD];
    let scroll = text_scroll("unique", "only entry");
    tome.insert(addr.clone(), scroll.clone());

    match tome.lookup(&[0xAA]) {
        LookupResult::Found(found_addr, found_scroll) => {
            assert_eq!(found_addr, addr);
            assert_eq!(found_scroll, scroll);
        }
        other => panic!("expected Found, got {:?}", other),
    }
}

#[test]
fn ambiguous_prefix() {
    let mut tome = Tome::new();
    let addr1 = vec![0xAA, 0xBB, 0x01];
    let addr2 = vec![0xAA, 0xBB, 0x02];
    tome.insert(addr1.clone(), text_scroll("first", "entry one"));
    tome.insert(addr2.clone(), text_scroll("second", "entry two"));

    match tome.lookup(&[0xAA, 0xBB]) {
        LookupResult::Ambiguous(entries) => {
            assert_eq!(entries.len(), 2);
            assert!(entries.contains(&(addr1, "first".to_string())));
            assert!(entries.contains(&(addr2, "second".to_string())));
        }
        other => panic!("expected Ambiguous, got {:?}", other),
    }
}

#[test]
fn remove_entry() {
    let mut tome = Tome::new();
    let addr = vec![0x01, 0x02];
    tome.insert(addr.clone(), text_scroll("ephemeral", "gone soon"));

    assert!(tome.remove(&addr));
    assert_eq!(tome.lookup(&addr), LookupResult::NotFound);
}

#[test]
fn remove_nonexistent() {
    let mut tome = Tome::new();
    assert!(!tome.remove(&[0xFF, 0xFF]));
}

#[test]
fn list_all() {
    let mut tome = Tome::new();
    tome.insert(vec![0x01], text_scroll("a", "alpha"));
    tome.insert(vec![0x02], text_scroll("b", "beta"));
    tome.insert(vec![0x03], text_scroll("c", "gamma"));

    let all = tome.list();
    assert_eq!(all.len(), 3);
}

#[test]
fn tome_error_display() {
    let err = TomeError::ScrollTooLarge(5000);
    let msg = err.message();
    assert!(msg.contains("5000"));
    assert!(msg.contains("4096"));
}

// --- further cases ---

#[test]
fn oversized_scroll_is_rejected_and_not_stored() {
    let mut tome = Tome::new();
    let result = tome.try_insert_sized(vec![0x01], text_scroll("huge", "x"), MAX_SCROLL_SIZE + 1);
    assert_eq!(result, Err(TomeError::ScrollTooLarge(MAX_SCROLL_SIZE + 1)));
    assert_eq!(tome.lookup(&[0x01]), LookupResult::NotFound);
    assert_eq!(tome.try_insert_sized(vec![0x01], text_scroll("ok", "x"), MAX_SCROLL_SIZE), Ok(()));
    assert!(matches!(tome.lookup(&[0x01]), LookupResult::Found(_, _)));
}

#[test]
fn tome_error_messages_exact() {
    assert_eq!(
        TomeError::ScrollTooLarge(5000).message(),
        "scroll too large: 5000 bytes (max 4096)"
    );
    assert_eq!(TomeError::SerializationFailed.message(), "scroll serialization failed");
}

#[test]
fn list_is_in_address_order_and_insert_replaces() {
    let mut tome = Tome::new();
    tome.insert(vec![0x02, 0x00], text_scroll("b", "beta"));
    tome.insert(vec![0x01], text_scroll("a", "alpha"));
    tome.insert(vec![0x02], text_scroll("c", "gamma"));
    tome.insert(vec![], text_scroll("root", "empty address"));
    tome.insert(vec![0x01], text_scroll("a2", "alpha again"));
    let all = tome.list();
    let keys: Vec<Vec<u8>> = all.iter().map(|(k, _)| (*k).clone()).collect();
    assert_eq!(keys, vec![vec![], vec![0x01], vec![0x02], vec![0x02, 0x00]]);
    assert_eq!(all[1].1.title, "a2");
}

#[test]
fn prefix_of_another_address_is_ambiguous_in_address_order() {
    let mut tome = Tome::new();
    tome.insert(vec![0x02, 0x00], text_scroll("long", "x"));
    tome.insert(vec![0x02], text_scroll("short", "y"));
    assert_eq!(
        tome.lookup(&[0x02]),
        LookupResult::Ambiguous(vec![
            (vec![0x02], "short".to_string()),
            (vec![0x02, 0x00], "long".to_string())
        ])
    );
    assert!(matches!(tome.lookup(&[0x02, 0x00]), LookupResult::Found(_, _)));
    assert_eq!(tome.lookup(&[0x03]), LookupResult::NotFound);
}

#[test]
fn scroll_clone_keeps_every_kind() {
    let kinds = vec![
        ScrollKind::Reference("r".to_string()),
        ScrollKind::Alias(vec![1, 2, 3]),
        ScrollKind::Action { program: "p".to_string(), args: vec![9] },
    ];
    for kind in kinds {
        let s = Scroll {
            version: 2,
            kind,
            title: "t".to_string(),
            created_epoch_secs: 1,
            updated_epoch_secs: 2,
        };
        assert_eq!(s.clone(), s);
    }
}

#[test]
fn hex_addresses_roundtrip() {
    let addr = vec![0x00, 0x0F, 0xCA, 0xFE, 0xFF];
    let hex = address_to_hex(&addr);
    assert_eq!(hex, "000fcafeff");
    assert_eq!(address_from_hex(&hex), Ok(addr));
    assert_eq!(address_from_hex("CAFE"), Ok(vec![0xCA, 0xFE]));
    assert_eq!(address_from_hex(""), Ok(vec![]));
}

#[test]
fn hex_addresses_rejected() {
    assert_eq!(address_from_hex("café"), Err(HexKeyError::NonAscii));
    assert_eq!(address_from_hex("abc"), Err(HexKeyError::OddLength));
    assert_eq!(address_from_hex("zz"), Err(HexKeyError::InvalidHex));
    assert_eq!(address_from_hex("-1"), Err(HexKeyError::InvalidHex));
    // u8::from_str_radix accepts a leading plus sign
    assert_eq!(address_from_hex("+f"), Ok(vec![0x0F]));
}

#[test]
fn hex_key_error_messages_exact() {
    assert_eq!(HexKeyError::NonAscii.message(), "non-ASCII hex key");
    assert_eq!(HexKeyError::OddLength.message(), "odd-length hex key");
    assert_eq!(HexKeyError::InvalidHex.message(), "invalid hex in key");
}
