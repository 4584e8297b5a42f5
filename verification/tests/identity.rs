use emuman::cache::{FileId, PartCache};
use emuman::part::{parse_sha1, Part, Sha1ParseError};
use emuman::IoError;

const ABC_SHA1: &str = "a9993e364706816aba3e25717850c26c9cd0d89d";

fn chd_v5(sha1: [u8; 20], trailing: &[u8]) -> Vec<u8> {
    let mut data = Vec::new();
    data.extend_from_slice(b"MComprHD");
    data.extend_from_slice(&[0, 0, 0, 0]);
    data.extend_from_slice(&[0, 0, 0, 5]);
    data.extend_from_slice(&[0xabu8; 100]);
    data.extend_from_slice(&sha1);
    data.extend_from_slice(trailing);
    data
}

#[test]
fn chd_v5_identity() {
    let digest: [u8; 20] = core::array::from_fn(|i| i as u8);
    let data = chd_v5(digest, b"");
    let part = Part::from_slice(&data).unwrap();
    assert!(part == Part::Disk { sha1: digest });
}

#[test]
fn chd_v5_ignores_content_past_digest() {
    let digest: [u8; 20] = core::array::from_fn(|i| i as u8);
    let short = chd_v5(digest, b"");
    let long = chd_v5(digest, &[0x55u8; 4096]);
    let a = Part::from_slice(&short).unwrap();
    let b = Part::from_slice(&long).unwrap();
    assert!(a == b);
}

#[test]
fn chd_v3_and_v4_offsets() {
    let digest: [u8; 20] = [7u8; 20];
    for (version, skip) in [(3u8, 76usize), (4u8, 32usize)] {
        let mut data = Vec::new();
        data.extend_from_slice(b"MComprHD");
        data.extend_from_slice(&[0, 0, 0, 0]);
        data.extend_from_slice(&[0, 0, 0, version]);
        data.extend_from_slice(&vec![0xcd; skip]);
        data.extend_from_slice(&digest);
        let part = Part::from_slice(&data).unwrap();
        assert!(part == Part::Disk { sha1: digest });
    }
}

#[test]
fn chd_unknown_version_hashes_as_rom() {
    let mut data = Vec::new();
    data.extend_from_slice(b"MComprHD");
    data.extend_from_slice(&[0, 0, 0, 0]);
    data.extend_from_slice(&[0, 0, 0, 9]);
    data.extend_from_slice(b"whatever");
    let part = Part::from_slice(&data).unwrap();
    assert!(matches!(part, Part::Rom { .. }));
}

#[test]
fn chd_truncated_header_is_io_error() {
    let mut data = Vec::new();
    data.extend_from_slice(b"MComprHD");
    data.extend_from_slice(&[0, 0]);
    assert!(matches!(Part::from_slice(&data), Err(IoError::UnexpectedEof)));

    let digest: [u8; 20] = [1u8; 20];
    let mut v5 = chd_v5(digest, b"");
    v5.truncate(130);
    assert!(matches!(Part::from_slice(&v5), Err(IoError::UnexpectedEof)));
}

#[test]
fn rom_identity_of_abc() {
    let part = Part::from_slice(b"abc").unwrap();
    let expected = Part::new_rom(ABC_SHA1).unwrap();
    assert!(part == expected);
}

#[test]
fn identify_is_deterministic() {
    let a = Part::from_slice(b"some content").unwrap();
    let b = Part::from_slice(b"some content").unwrap();
    assert!(a == b);
}

#[test]
fn short_file_is_rom() {
    let part = Part::from_slice(b"ab").unwrap();
    assert!(matches!(part, Part::Rom { .. }));
    let empty = Part::from_slice(b"").unwrap();
    assert!(matches!(empty, Part::Rom { .. }));
}

#[test]
fn rom_and_disk_with_same_digest_differ() {
    let rom = Part::new_rom(ABC_SHA1).unwrap();
    let disk = Part::new_disk(ABC_SHA1).unwrap();
    assert!(rom != disk);
}

#[test]
fn parse_sha1_roundtrip_and_case() {
    let bytes = parse_sha1(ABC_SHA1).unwrap();
    assert_eq!(bytes[0], 0xa9);
    assert_eq!(bytes[19], 0x9d);
    let upper = parse_sha1("A9993E364706816ABA3E25717850C26C9CD0D89D").unwrap();
    assert_eq!(bytes, upper);
}

#[test]
fn parse_sha1_trims_whitespace() {
    let padded = format!("  {}\n", ABC_SHA1);
    let bytes = parse_sha1(&padded).unwrap();
    assert_eq!(bytes, parse_sha1(ABC_SHA1).unwrap());
}

#[test]
fn parse_sha1_wrong_length() {
    assert!(matches!(parse_sha1("abcd"), Err(Sha1ParseError::IncorrectLength)));
    assert!(matches!(parse_sha1(""), Err(Sha1ParseError::IncorrectLength)));
}

#[test]
fn parse_sha1_non_hex() {
    let bad = "z9993e364706816aba3e25717850c26c9cd0d89d";
    assert!(matches!(parse_sha1(bad), Err(Sha1ParseError::NonHexDigits)));
}

#[test]
fn parse_error_messages() {
    assert_eq!(Sha1ParseError::IncorrectLength.message(), "incorrect SHA1 hash length");
    assert_eq!(Sha1ParseError::NonHexDigits.message(), "non hex digits in SHA1 hash");
}

#[test]
fn digest_hex_rendering() {
    let part = Part::new_rom(ABC_SHA1).unwrap();
    assert_eq!(part.digest().hex(), ABC_SHA1);
}

#[test]
fn name_to_chd_appends_suffix() {
    assert_eq!(Part::name_to_chd("gamedisk"), "gamedisk.chd");
}

#[test]
fn part_codec_round_trip() {
    let rom = Part::new_rom(ABC_SHA1).unwrap();
    let disk = Part::new_disk(ABC_SHA1).unwrap();
    for part in [rom, disk] {
        let encoded = part.encode();
        assert_eq!(encoded.len(), 21);
        let decoded = Part::decode(&encoded).unwrap();
        assert!(decoded == part);
    }
}

#[test]
fn part_decode_rejects_malformed() {
    assert!(Part::decode(b"").is_none());
    assert!(Part::decode(&[2u8; 21]).is_none());
    assert!(Part::decode(&[0u8; 20]).is_none());
    assert!(Part::decode(&[0u8; 22]).is_none());
}

#[test]
fn cache_remembers_identity() {
    let mut cache = PartCache::new();
    let id = FileId { dev: 1, ino: 42 };
    assert!(cache.get(id).is_none());
    let part = Part::new_rom(ABC_SHA1).unwrap();
    cache.insert(id, part);
    assert!(cache.get(id) == Some(part));
    assert!(cache.get(FileId { dev: 1, ino: 43 }).is_none());
}

#[test]
fn cached_and_uncached_verification_agree() {
    let part = Part::new_rom(ABC_SHA1).unwrap();
    let computed: Result<Part, IoError> = Ok(part);
    let mut cache = PartCache::new();
    let id = FileId { dev: 3, ino: 9 };

    let uncached = part.verify_uncached(computed, String::from("p"));
    let cached = part.verify_cached(&mut cache, id, computed, String::from("p"));
    assert!(uncached.is_ok());
    assert!(cached.is_ok());

    // A second cached run consults the remembered identity.
    let cached2 = part.verify_cached(&mut cache, id, computed, String::from("p"));
    assert!(cached2.is_ok());
}

#[test]
fn verification_reports_bad_and_error() {
    let expected = Part::new_rom(ABC_SHA1).unwrap();
    let actual = Part::from_slice(b"other").unwrap();
    match expected.verify(Ok(actual), String::from("x")) {
        Err(emuman::failures::VerifyFailure::Bad { path, expected: e, actual: a }) => {
            assert_eq!(path, "x");
            assert!(e == expected);
            assert!(a == actual);
        }
        _ => panic!("expected a bad classification"),
    }
    match expected.verify(Err(IoError::NotFound), String::from("y")) {
        Err(emuman::failures::VerifyFailure::Error { path, err }) => {
            assert_eq!(path, "y");
            assert!(err == IoError::NotFound);
        }
        _ => panic!("expected an error classification"),
    }
}

#[test]
fn parse_int_decimal_hex_and_prefixed() {
    assert_eq!(emuman::numbers::parse_int("123"), Some(123));
    assert_eq!(emuman::numbers::parse_int(" 123 "), Some(123));
    assert_eq!(emuman::numbers::parse_int("ff"), Some(255));
    assert_eq!(emuman::numbers::parse_int("0xff"), Some(255));
    assert_eq!(emuman::numbers::parse_int("+42"), Some(42));
    assert_eq!(emuman::numbers::parse_int("18446744073709551615"), Some(u64::MAX));
    assert_eq!(emuman::numbers::parse_int("99999999999999999999999"), None);
    assert_eq!(emuman::numbers::parse_int("zz"), None);
    assert_eq!(emuman::numbers::parse_int(""), None);
    // A value that reads as decimal is taken as decimal, not hexadecimal.
    assert_eq!(emuman::numbers::parse_int("10"), Some(10));
}

#[test]
fn parse_sha1_trims_unicode_whitespace() {
    let padded = format!("\u{a0}\u{2003}{}\u{3000}\n", ABC_SHA1);
    let bytes = parse_sha1(&padded).unwrap();
    assert_eq!(bytes, parse_sha1(ABC_SHA1).unwrap());
}

#[test]
fn parse_int_trims_unicode_whitespace() {
    assert_eq!(emuman::numbers::parse_int("\u{a0}123\u{a0}"), Some(123));
    assert_eq!(emuman::numbers::parse_int("\u{2009}0xff\u{85}"), Some(255));
}
