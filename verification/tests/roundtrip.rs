use babel::batch::{decode_bytes, encode_bytes};
use babel::container::{parse_lines, render_lines, BabelFile};
use babel::location::{
    CoordinateSource, FixedCoordinateSource, LocationCoordinate, RandomCoordinateSource,
};
use babel::page::LENGTH_OF_PAGE;

fn sample_bytes(len: usize) -> Vec<u8> {
    (0..len).map(|i| ((i * 7 + 3) % 256) as u8).collect()
}

fn fixed_source() -> FixedCoordinateSource {
    FixedCoordinateSource {
        coordinate: LocationCoordinate {
            wall: 1,
            shelf: 2,
            volume: 3,
            page_index: 4,
        },
    }
}

fn encode_decode(bytes: &Vec<u8>) -> Vec<u8> {
    let mut source = fixed_source();
    let file = encode_bytes(bytes, &b"bin".to_vec(), &mut source).unwrap();
    assert_eq!(file.length, bytes.len());
    assert_eq!(file.extension, b"bin".to_vec());
    let expected_pages = (2 * bytes.len() + LENGTH_OF_PAGE - 1) / LENGTH_OF_PAGE;
    assert_eq!(file.addresses.len(), expected_pages);
    decode_bytes(&file).unwrap()
}

#[test]
fn container_round_trip_empty_file() {
    let bytes = sample_bytes(0);
    assert_eq!(encode_decode(&bytes), bytes);
}

#[test]
fn container_round_trip_single_byte() {
    let bytes = sample_bytes(1);
    assert_eq!(encode_decode(&bytes), bytes);
}

#[test]
fn container_round_trip_odd_count_at_page_boundary() {
    let bytes = sample_bytes(LENGTH_OF_PAGE / 2 - 1);
    assert_eq!(encode_decode(&bytes), bytes);
}

#[test]
fn container_round_trip_multiple_pages_short_tail() {
    let bytes = sample_bytes(3 * LENGTH_OF_PAGE + 5);
    assert_eq!(encode_decode(&bytes), bytes);
}

#[test]
fn container_round_trip_random_coordinates() {
    let bytes = sample_bytes(2 * LENGTH_OF_PAGE);
    let mut source = RandomCoordinateSource {};
    let file = encode_bytes(&bytes, &b"txt".to_vec(), &mut source).unwrap();
    assert_eq!(decode_bytes(&file).unwrap(), bytes);
}

#[test]
fn coordinate_sources_yield_valid_coordinates() {
    let mut random = RandomCoordinateSource {};
    for _ in 0..100 {
        let c = random.next_coordinate();
        assert!(c.wall < 4 && c.shelf < 5 && c.volume < 32 && c.page_index < 410);
    }
    let mut fixed = fixed_source();
    let c = fixed.next_coordinate();
    assert_eq!(
        c,
        LocationCoordinate {
            wall: 1,
            shelf: 2,
            volume: 3,
            page_index: 4,
        }
    );
}

#[test]
fn container_lines_round_trip() {
    let bytes = sample_bytes(10);
    let mut source = fixed_source();
    let file = encode_bytes(&bytes, &b"dat".to_vec(), &mut source).unwrap();
    let lines = render_lines(&file);
    assert_eq!(lines.len(), 2 + file.addresses.len());
    assert_eq!(lines[0], b"dat".to_vec());
    assert_eq!(lines[1], b"10".to_vec());
    let parsed = parse_lines(&lines).unwrap();
    assert_eq!(parsed.extension, file.extension);
    assert_eq!(parsed.length, file.length);
    assert_eq!(parsed.addresses, file.addresses);
    assert_eq!(decode_bytes(&parsed).unwrap(), bytes);
}

#[test]
fn container_lines_reject_malformed_headers() {
    assert!(parse_lines(&vec![b"ext".to_vec()]).is_none());
    assert!(parse_lines(&vec![b"ext".to_vec(), b"".to_vec()]).is_none());
    assert!(parse_lines(&vec![b"ext".to_vec(), b"12a".to_vec()]).is_none());
    assert!(parse_lines(&vec![b"ext".to_vec(), b"99999999999999999999999".to_vec()]).is_none());
    let parsed = parse_lines(&vec![b"".to_vec(), b"0".to_vec()]).unwrap();
    assert_eq!(parsed.length, 0);
    assert!(parsed.addresses.is_empty());
}

#[test]
fn decode_rejects_a_corrupted_address_list() {
    let bytes = sample_bytes(4);
    let mut source = fixed_source();
    let mut file = encode_bytes(&bytes, &b"bin".to_vec(), &mut source).unwrap();
    file.addresses[0] = b"not an address".to_vec();
    assert!(decode_bytes(&file).is_err());
}

#[test]
fn decode_truncates_to_recorded_length() {
    let bytes = sample_bytes(5);
    let mut source = fixed_source();
    let mut file = encode_bytes(&bytes, &b"bin".to_vec(), &mut source).unwrap();
    file.length = 3;
    assert_eq!(decode_bytes(&file).unwrap(), bytes[..3].to_vec());
    let rebuilt = BabelFile {
        extension: file.extension,
        length: 5,
        addresses: file.addresses,
    };
    assert_eq!(decode_bytes(&rebuilt).unwrap(), bytes);
}
