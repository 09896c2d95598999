use url_threat_shortener::scanner::{RiskLevel, ScanResult};
use url_threat_shortener::shortener::{
    code_char, format_timestamp, generate_code, generate_unique_code, is_code_taken, resolve,
    save_mapping, timestamp_now, StoreError, UrlMapping, CODE_ALPHABET_LEN,
};

fn mapping(code: &str, url: &str) -> UrlMapping {
    UrlMapping {
        code: code.to_string(),
        original_url: url.to_string(),
        scan_result: ScanResult { risk: RiskLevel::Low, score: 0, flags: vec![] },
        created_at: "2026-07-01T00:00:00Z".to_string(),
    }
}

#[test]
fn test_generate_code_length() {
    let code = generate_code(6);
    assert_eq!(code.len(), 6);
}

#[test]
fn test_generate_code_uniqueness() {
    let code1 = generate_code(6);
    let code2 = generate_code(6);
    assert_ne!(code1, code2, "Two generated codes should differ");
}

#[test]
fn test_save_and_load() {
    let mut store: Vec<UrlMapping> = Vec::new();
    save_mapping(&mut store, &mapping("abc123", "https://example.com"));
    assert_eq!(store.len(), 1);
    assert_eq!(store[0].code, "abc123");
    assert_eq!(store[0].original_url, "https://example.com");
}

#[test]
fn test_resolve_found() {
    let mut store: Vec<UrlMapping> = Vec::new();
    save_mapping(&mut store, &mapping("xyz789", "https://rust-lang.org"));
    let result = resolve(&store, "xyz789").unwrap();
    assert_eq!(result.original_url, "https://rust-lang.org");
}

#[test]
fn test_resolve_not_found() {
    let store: Vec<UrlMapping> = Vec::new();
    let result = resolve(&store, "doesnotexist");
    assert!(result.is_err(), "Should error on missing code");
}

#[test]
fn test_format_timestamp_epoch() {
    assert_eq!(format_timestamp(0), "1970-01-01T00:00:00Z");
}

#[test]
fn test_format_timestamp_known_moment() {
    // 2001-09-09T01:46:40Z — the well-known 1-billion-seconds moment
    assert_eq!(format_timestamp(1_000_000_000), "2001-09-09T01:46:40Z");
}

#[test]
fn test_format_timestamp_leap_day() {
    // 2024-02-29T12:00:00Z — a leap day
    assert_eq!(format_timestamp(1_709_208_000), "2024-02-29T12:00:00Z");
}

#[test]
fn test_format_timestamp_new_years_eve() {
    // 2025-12-31T23:59:59Z — last second of the year, must not roll into month 13
    assert_eq!(format_timestamp(1_767_225_599), "2025-12-31T23:59:59Z");
}

#[test]
fn test_generate_unique_code_avoids_collision() {
    let mut store: Vec<UrlMapping> = Vec::new();
    save_mapping(&mut store, &mapping("taken1", "https://example.com"));
    let code = generate_unique_code(&store, 6).unwrap();
    assert_ne!(code, "taken1");
    assert_eq!(code.len(), 6);
}

// ─── Further cases ───

#[test]
fn generated_codes_are_alphanumeric() {
    for len in [0usize, 1, 6, 32] {
        let code = generate_code(len);
        assert_eq!(code.chars().count(), len);
        assert!(code.chars().all(|c| c.is_ascii_alphanumeric()));
    }
}

#[test]
fn code_alphabet_order() {
    assert_eq!(CODE_ALPHABET_LEN, 62);
    assert_eq!(code_char(0), 'a');
    assert_eq!(code_char(25), 'z');
    assert_eq!(code_char(26), 'A');
    assert_eq!(code_char(51), 'Z');
    assert_eq!(code_char(52), '0');
    assert_eq!(code_char(61), '9');
}

#[test]
fn unique_code_of_length_zero_when_free() {
    let store: Vec<UrlMapping> = Vec::new();
    assert_eq!(generate_unique_code(&store, 0).unwrap(), "");
}

#[test]
fn resolve_returns_the_first_match() {
    let mut store: Vec<UrlMapping> = Vec::new();
    save_mapping(&mut store, &mapping("dup", "https://first.example"));
    save_mapping(&mut store, &mapping("dup", "https://second.example"));
    assert_eq!(resolve(&store, "dup").unwrap().original_url, "https://first.example");
}

#[test]
fn save_keeps_earlier_codes_resolvable() {
    let mut store: Vec<UrlMapping> = Vec::new();
    save_mapping(&mut store, &mapping("one", "https://one.example"));
    save_mapping(&mut store, &mapping("two", "https://two.example"));
    assert_eq!(resolve(&store, "one").unwrap().original_url, "https://one.example");
    assert_eq!(resolve(&store, "two").unwrap().original_url, "https://two.example");
    assert!(is_code_taken(&store, "one"));
    assert!(!is_code_taken(&store, "three"));
}

#[test]
fn resolve_copies_the_whole_mapping() {
    let mut store: Vec<UrlMapping> = Vec::new();
    let mut m = mapping("flagged", "https://evil.tk");
    m.scan_result = ScanResult {
        risk: RiskLevel::Medium,
        score: 1,
        flags: vec!["Suspicious TLD detected: .tk".to_string()],
    };
    save_mapping(&mut store, &m);
    let found = resolve(&store, "flagged").unwrap();
    assert_eq!(found.scan_result.risk, RiskLevel::Medium);
    assert_eq!(found.scan_result.score, 1);
    assert_eq!(found.scan_result.flags, vec!["Suspicious TLD detected: .tk".to_string()]);
    assert_eq!(found.created_at, "2026-07-01T00:00:00Z");
}

#[test]
fn not_found_error_names_the_code() {
    let store: Vec<UrlMapping> = Vec::new();
    match resolve(&store, "xyz123") {
        Err(e @ StoreError::NotFound(_)) => {
            assert_eq!(e.to_string(), "Short code \"xyz123\" not found");
        }
        _ => panic!("expected NotFound"),
    }
}

#[test]
fn io_and_json_errors_display_with_prefix() {
    let io = StoreError::IoError(std::io::Error::new(std::io::ErrorKind::Other, "disk full"));
    assert_eq!(io.to_string(), "Storage I/O error: disk full");
    let json = StoreError::JsonError(serde_json::from_str::<u32>("x").unwrap_err());
    assert!(json.to_string().starts_with("Storage JSON error: "));
    assert!(json.to_string().len() > "Storage JSON error: ".len());
}

#[test]
fn format_timestamp_more_moments() {
    assert_eq!(format_timestamp(86_399), "1970-01-01T23:59:59Z");
    assert_eq!(format_timestamp(951_782_400), "2000-02-29T00:00:00Z");
    assert_eq!(format_timestamp(4_107_542_400), "2100-03-01T00:00:00Z");
    assert_eq!(format_timestamp(253_402_300_800), "10000-01-01T00:00:00Z");
}

#[test]
fn timestamp_now_has_the_iso_shape() {
    let now = timestamp_now();
    assert_eq!(now.len(), 20);
    assert!(now.ends_with('Z'));
    assert_eq!(&now[4..5], "-");
    assert_eq!(&now[10..11], "T");
    assert!(now.as_str() > "2020");
}

#[test]
fn timestamps_sort_as_the_instants_do() {
    assert_eq!(format_timestamp(253_402_300_799), "9999-12-31T23:59:59Z");
    let instants: [u64; 9] = [
        0,
        59,
        60,
        3_599,
        86_400,
        951_782_400,
        1_700_000_000,
        4_107_542_400,
        253_402_300_799,
    ];
    for pair in instants.windows(2) {
        let earlier = format_timestamp(pair[0]);
        let later = format_timestamp(pair[1]);
        assert!(earlier.as_bytes() < later.as_bytes(), "{} !< {}", earlier, later);
    }
    // Past the year 9999 the text grows a fifth year digit and no longer sorts.
    assert!(format_timestamp(253_402_300_800).as_str() < format_timestamp(253_402_300_799).as_str());
}
