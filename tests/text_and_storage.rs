use geosuggest::api::{get_countries_filter, IndexUpdaterSettings, Settings};
use geosuggest::metadata::{has_updates, EngineMetadata, EngineSourceMetadata};
use geosuggest::number::{parse_micro, parse_u32, MAX_LATITUDE, MAX_LONGITUDE};
use geosuggest::storage::{CodecError, Storage};
use geosuggest::text::{skip_comment_lines, split_chars};

fn chars(s: &str) -> Vec<char> {
    s.chars().collect()
}

#[test]
fn comment_lines_are_skipped() {
    assert_eq!(skip_comment_lines("#head\nRU\tRussia\n#note\nGB\tUK\n"), "RU\tRussia\nGB\tUK");
    assert_eq!(skip_comment_lines("a\r\n# b\r\nc"), "a\nc");
    assert_eq!(skip_comment_lines(""), "");
    assert_eq!(skip_comment_lines("#only"), "");
    assert_eq!(skip_comment_lines("x\n\ny"), "x\n\ny");
}

#[test]
fn split_keeps_empty_pieces() {
    let parts = split_chars(&chars("a,,b"), ',');
    assert_eq!(parts, vec![chars("a"), vec![], chars("b")]);
    assert_eq!(split_chars(&vec![], ','), vec![Vec::<char>::new()]);
}

#[test]
fn unsigned_fields() {
    assert_eq!(parse_u32(&chars("472045")), Some(472045));
    assert_eq!(parse_u32(&chars("4294967295")), Some(u32::MAX));
    assert_eq!(parse_u32(&chars("4294967296")), None);
    assert_eq!(parse_u32(&chars("")), None);
    assert_eq!(parse_u32(&chars("12a")), None);
    assert_eq!(parse_u32(&chars("-1")), None);
}

#[test]
fn coordinate_fields() {
    assert_eq!(parse_micro(&chars("51.67204"), MAX_LATITUDE), Some(51_672_040));
    assert_eq!(parse_micro(&chars("-0.42332"), MAX_LONGITUDE), Some(-423_320));
    assert_eq!(parse_micro(&chars("30"), MAX_LONGITUDE), Some(30_000_000));
    assert_eq!(parse_micro(&chars("1.1234567"), MAX_LONGITUDE), Some(1_123_456));
    assert_eq!(parse_micro(&chars("180"), MAX_LONGITUDE), Some(180_000_000));
    assert_eq!(parse_micro(&chars("180.000001"), MAX_LONGITUDE), None);
    assert_eq!(parse_micro(&chars("90.5"), MAX_LATITUDE), None);
    assert_eq!(parse_micro(&chars("1."), MAX_LATITUDE), None);
    assert_eq!(parse_micro(&chars(".5"), MAX_LATITUDE), None);
    assert_eq!(parse_micro(&chars("1.2.3"), MAX_LATITUDE), None);
    assert_eq!(parse_micro(&chars("abc"), MAX_LATITUDE), None);
}

#[test]
fn storage_round_trip() {
    let storage = Storage::new();
    let stored = storage.dump(&vec![9, 8, 7], &vec![1, 2]);
    assert_eq!(stored, vec![0, 0, 0, 3, 9, 8, 7, 1, 2]);
    assert_eq!(storage.load(&stored), Ok((vec![9, 8, 7], vec![1, 2])));
    assert_eq!(storage.read_metadata(&stored[..7].to_vec()), Ok(Some(vec![9, 8, 7])));
}

#[test]
fn storage_empty_metadata() {
    let storage = Storage::new();
    let stored = storage.dump(&vec![], &vec![5]);
    assert_eq!(stored, vec![0, 0, 0, 0, 5]);
    assert_eq!(storage.read_metadata(&stored[..4].to_vec()), Ok(None));
    assert_eq!(storage.load(&stored), Ok((vec![], vec![5])));
}

#[test]
fn storage_long_metadata_length() {
    let storage = Storage::new();
    let metadata = vec![1u8; 70_000];
    let stored = storage.dump(&metadata, &vec![]);
    assert_eq!(&stored[..4], &[0, 1, 0x11, 0x70]);
    assert_eq!(storage.load(&stored).unwrap().0.len(), 70_000);
}

#[test]
fn storage_errors() {
    let storage = Storage::new();
    assert_eq!(storage.load(&vec![0, 0, 1]), Err(CodecError::MissingLength));
    assert_eq!(storage.load(&vec![0, 0, 0, 5, 1, 2]), Err(CodecError::TruncatedMetadata));
    assert_eq!(storage.read_metadata(&vec![]), Err(CodecError::MissingLength));
    assert_eq!(storage.read_metadata(&vec![0, 0, 0, 2, 1]), Err(CodecError::TruncatedMetadata));
}

fn metadata(etag: Vec<(&str, &str)>) -> EngineMetadata {
    EngineMetadata {
        geosuggest_version: "0.1.0".to_string(),
        created_at: 0,
        source: EngineSourceMetadata {
            cities: "c".to_string(),
            names: None,
            countries: None,
            admin1_codes: None,
            admin2_codes: None,
            filter_languages: vec![],
            etag: etag.into_iter().map(|(a, b)| (a.to_string(), b.to_string())).collect(),
        },
        extra: vec![],
    }
}

fn pairs(v: Vec<(&str, &str)>) -> Vec<(String, String)> {
    v.into_iter().map(|(a, b)| (a.to_string(), b.to_string())).collect()
}

#[test]
fn updates_follow_etags() {
    let current = pairs(vec![("cities", "1"), ("names", "2")]);
    assert!(has_updates(&metadata(vec![]), &current));
    assert!(!has_updates(&metadata(vec![("cities", "1"), ("names", "2")]), &current));
    assert!(has_updates(&metadata(vec![("cities", "1"), ("names", "3")]), &current));
    assert!(has_updates(&metadata(vec![("cities", "1")]), &current));
    assert!(!has_updates(&metadata(vec![("cities", "1")]), &pairs(vec![("cities", "1"), ("names", "")])));
}

#[test]
fn countries_filter_splits() {
    assert_eq!(get_countries_filter(&None), None);
    assert_eq!(get_countries_filter(&Some("RU,gb".to_string())), Some(vec!["RU".to_string(), "gb".to_string()]));
    assert_eq!(get_countries_filter(&Some("".to_string())), Some(vec!["".to_string()]));
}

#[test]
fn default_settings() {
    let s = Settings::default();
    assert_eq!(s.host, "localhost");
    assert_eq!(s.port, 8080);
    assert_eq!(s.url_path_prefix, "/");
    let u = IndexUpdaterSettings::default();
    assert_eq!(u.http_timeout_ms, 300_000);
    assert_eq!(u.cities.filename, "cities5000.txt");
    let meta = u.source_metadata(pairs(vec![("cities", "abc")]));
    assert_eq!(meta.cities, "https://download.geonames.org/export/dump/cities5000.zip");
    assert_eq!(meta.etag, pairs(vec![("cities", "abc")]));
    assert_eq!(meta.names.unwrap(), "https://download.geonames.org/export/dump/alternateNamesV2.zip");
}
