use babel::address::{decode_address, encode_address, verify_page};
use babel::base36::{base36_to_int, int_to_base36};
use babel::byte_text;
use babel::error::BabelError;
use babel::location::LocationCoordinate;
use babel::page::{to_number, to_page, LENGTH_OF_PAGE};

#[test]
fn byte_codec_single_byte_scenario() {
    // 0x41 = 65: 65 / 26 = 2 -> 'c', 65 % 26 = 13 -> 'n'.
    let encoded = byte_text::encode(&vec![0x41]);
    assert_eq!(encoded, b"cn".to_vec());
    let decoded = byte_text::decode(&b"cn".to_vec()).unwrap();
    assert_eq!(decoded, vec![0x41]);
}

#[test]
fn byte_codec_round_trip_all_values() {
    let bytes: Vec<u8> = (0u16..=255).map(|b| b as u8).collect();
    let text = byte_text::encode(&bytes);
    assert_eq!(text.len(), 2 * bytes.len());
    let back = byte_text::decode(&text).unwrap();
    assert_eq!(back, bytes);
}

#[test]
fn byte_codec_rejects_foreign_characters() {
    assert_eq!(
        byte_text::decode(&b"c!".to_vec()),
        Err(BabelError::InvalidAlphabet)
    );
    // 'z''z' would denote 675, which is no byte.
    assert_eq!(
        byte_text::decode(&b"zz".to_vec()),
        Err(BabelError::InvalidAlphabet)
    );
}

#[test]
fn byte_codec_ignores_trailing_odd_character() {
    let decoded = byte_text::decode(&b"cnx".to_vec()).unwrap();
    assert_eq!(decoded, vec![0x41]);
}

#[test]
fn page_number_rejects_wrong_length() {
    assert_eq!(
        to_number(&vec![b'a'; 10]),
        Err(BabelError::InvalidPageLength)
    );
    assert_eq!(
        to_number(&vec![b'a'; LENGTH_OF_PAGE + 1]),
        Err(BabelError::InvalidPageLength)
    );
}

#[test]
fn page_of_all_a_is_zero() {
    let n = to_number(&vec![b'a'; LENGTH_OF_PAGE]).unwrap();
    assert_eq!(int_to_base36(&n), b"0".to_vec());
    let page = to_page(&n);
    assert_eq!(page, vec![b'a'; LENGTH_OF_PAGE]);
}

#[test]
fn page_of_all_periods_round_trips() {
    let original = vec![b'.'; LENGTH_OF_PAGE];
    let n = to_number(&original).unwrap();
    let page = to_page(&n);
    assert_eq!(page, original);
}

#[test]
fn page_round_trip_mixed_symbols() {
    let symbols = b"abcdefghijklmnopqrstuvwxyz, .";
    let original: Vec<u8> = (0..LENGTH_OF_PAGE)
        .map(|i| symbols[(i * 7 + 3) % symbols.len()])
        .collect();
    let n = to_number(&original).unwrap();
    let page = to_page(&n);
    assert_eq!(page, original);
}

#[test]
fn base36_round_trips_and_canonicalizes() {
    let n = base36_to_int(&b"zZ1a".to_vec()).unwrap();
    assert_eq!(int_to_base36(&n), b"ZZ1A".to_vec());
    let zero = base36_to_int(&b"0".to_vec()).unwrap();
    assert_eq!(int_to_base36(&zero), b"0".to_vec());
    assert_eq!(
        base36_to_int(&b"".to_vec()),
        Err(BabelError::InvalidAddress)
    );
    assert_eq!(
        base36_to_int(&b"1:2".to_vec()),
        Err(BabelError::InvalidAddress)
    );
}

#[test]
fn location_coordinate_packing() {
    let c = LocationCoordinate {
        wall: 3,
        shelf: 4,
        volume: 31,
        page_index: 409,
    };
    assert_eq!(c.loc_int(), 4_093_143);
    assert!(LocationCoordinate::new(4, 0, 0, 0).is_none());
    assert!(LocationCoordinate::new(0, 5, 0, 0).is_none());
    assert!(LocationCoordinate::new(0, 0, 32, 0).is_none());
    assert!(LocationCoordinate::new(0, 0, 0, 410).is_none());
    assert!(LocationCoordinate::new(3, 4, 31, 409).is_some());
}

#[test]
fn address_round_trip_fixed_coordinate() {
    let symbols = b"abcdefghijklmnopqrstuvwxyz";
    let page: Vec<u8> = (0..LENGTH_OF_PAGE)
        .map(|i| symbols[(i * 11 + 5) % symbols.len()])
        .collect();
    let c = LocationCoordinate {
        wall: 3,
        shelf: 4,
        volume: 31,
        page_index: 409,
    };
    let addr = encode_address(&page, &c).unwrap();
    let suffix = b":3:4:31:409";
    assert_eq!(&addr[addr.len() - suffix.len()..], &suffix[..]);
    let decoded = decode_address(&addr).unwrap();
    assert_eq!(decoded, page);
    assert!(verify_page(&page, &addr));
}

#[test]
fn address_round_trip_boundary_pages() {
    let c = LocationCoordinate {
        wall: 0,
        shelf: 0,
        volume: 0,
        page_index: 0,
    };
    for original in [vec![b'a'; LENGTH_OF_PAGE], vec![b'.'; LENGTH_OF_PAGE]] {
        let addr = encode_address(&original, &c).unwrap();
        let decoded = decode_address(&addr).unwrap();
        assert_eq!(decoded, original);
    }
}

#[test]
fn address_encode_rejects_short_page() {
    let c = LocationCoordinate {
        wall: 0,
        shelf: 0,
        volume: 0,
        page_index: 0,
    };
    assert_eq!(
        encode_address(&vec![b'a'; 100], &c),
        Err(BabelError::InvalidPageLength)
    );
}

#[test]
fn corrupted_base36_field_is_rejected_not_wrapped() {
    // A base-36 field denoting a number far above the multiplier.
    let mut addr = vec![b'Z'; 3300];
    addr.extend_from_slice(b":0:0:00:000");
    assert_eq!(decode_address(&addr), Err(BabelError::InvalidAddress));
}

#[test]
fn negative_recovered_number_is_rejected() {
    // Combined value 0 with a nonzero coordinate: 0 - loc_int * multiplier < 0.
    let addr = b"0:1:0:00:000".to_vec();
    assert_eq!(decode_address(&addr), Err(BabelError::InvalidAddress));
}

#[test]
fn number_too_large_for_a_page_is_internal_failure() {
    // 29^LENGTH_OF_PAGE lies between the greatest page number and the
    // multiplier: representable in the combined space, too large for a page.
    let n = num_bigint::BigInt::from(29u32).pow(LENGTH_OF_PAGE as u32);
    let digits = n.to_str_radix(36);
    let mut addr = digits.into_bytes();
    addr.extend_from_slice(b":0:0:00:000");
    assert_eq!(decode_address(&addr), Err(BabelError::VerificationFailure));
}

#[test]
fn malformed_addresses_are_rejected() {
    for bad in [
        &b""[..],
        &b"ABC"[..],
        &b"ABC:1:2"[..],
        &b"ABC:1:2:03:004:5"[..],
        &b"A!C:1:2:03:004"[..],
        &b"ABC:x:2:03:004"[..],
        &b"ABC::2:03:004"[..],
        &b"ABC:10:2:03:004"[..],
        &b"ABC:1:2:100:004"[..],
        &b"ABC:1:2:03:1000"[..],
    ] {
        assert_eq!(
            decode_address(&bad.to_vec()),
            Err(BabelError::InvalidAddress),
            "address {:?} should be rejected",
            String::from_utf8_lossy(bad)
        );
    }
}

#[test]
fn verify_page_detects_mismatch() {
    let page = vec![b'b'; LENGTH_OF_PAGE];
    let other = vec![b'c'; LENGTH_OF_PAGE];
    let c = LocationCoordinate {
        wall: 1,
        shelf: 1,
        volume: 1,
        page_index: 1,
    };
    let addr = encode_address(&page, &c).unwrap();
    assert!(verify_page(&page, &addr));
    assert!(!verify_page(&other, &addr));
}
