use url_threat_shortener::scanner::{load_blocklist, scan_url, Blocklist, RiskLevel};
use url_threat_shortener::shortener::{
    generate_code, generate_unique_code, resolve, save_mapping, timestamp_now, UrlMapping,
};

fn empty_blocklist() -> Blocklist {
    Blocklist { domains: Vec::new() }
}

// ─── Scanner Integration Tests ───

#[test]
fn test_full_scan_clean_url() {
    let blocklist = empty_blocklist();
    let result = scan_url("https://google.com", &blocklist).unwrap();
    assert_eq!(result.risk, RiskLevel::Low);
    assert_eq!(result.score, 0);
}

#[test]
fn test_full_scan_multiple_flags() {
    let blocklist = Blocklist { domains: vec!["evil-site.tk".to_string()] };
    let result = scan_url("https://evil-site.tk/phish", &blocklist).unwrap();
    assert!(result.score >= 2, "Should catch TLD + blocklist");
    assert!(result.flags.iter().any(|f| f.contains("Suspicious TLD")));
    assert!(result.flags.iter().any(|f| f.contains("known-bad")));
}

#[test]
fn test_full_scan_ip_literal() {
    let blocklist = empty_blocklist();
    let result = scan_url("http://192.168.1.1/admin", &blocklist).unwrap();
    assert!(result.score >= 1);
    assert!(result.flags.iter().any(|f| f.contains("IPv4")));
}

#[test]
fn test_full_scan_at_trick() {
    let blocklist = empty_blocklist();
    let result = scan_url("https://google.com@evil.com/steal", &blocklist).unwrap();
    assert!(result.flags.iter().any(|f| f.contains("@")));
}

#[test]
fn test_full_scan_auto_normalize() {
    let blocklist = empty_blocklist();
    // No scheme — should auto-add https:// and scan
    let result = scan_url("example.com", &blocklist);
    assert!(result.is_ok(), "Should handle missing scheme gracefully");
}

#[test]
fn test_full_scan_invalid_input() {
    let blocklist = empty_blocklist();
    let result = scan_url("not a url at all", &blocklist);
    assert!(result.is_err());
}

#[test]
fn test_full_scan_empty_input() {
    let blocklist = empty_blocklist();
    let result = scan_url("", &blocklist);
    assert!(result.is_err());
}

// ─── Blocklist Integration Tests ───

#[test]
fn blocklist_from_file_text_flags_case_insensitively() {
    let blocklist = load_blocklist(Some("# feed\nPhish.Example\n"));
    let result = scan_url("https://www.phish.example/login", &blocklist).unwrap();
    assert!(result.flags.iter().any(|f| f.contains("known-bad")));
}

// ─── Shortener Integration Tests ───

#[test]
fn test_shorten_resolve_roundtrip() {
    let mut store: Vec<UrlMapping> = Vec::new();

    let blocklist = empty_blocklist();
    let scan_result = scan_url("https://example.com", &blocklist).unwrap();

    let code = generate_code(6);
    let mapping = UrlMapping {
        code: code.clone(),
        original_url: "https://example.com".to_string(),
        scan_result,
        created_at: timestamp_now(),
    };

    save_mapping(&mut store, &mapping);

    let resolved = resolve(&store, &code).unwrap();
    assert_eq!(resolved.original_url, "https://example.com");
    assert_eq!(resolved.scan_result.risk, RiskLevel::Low);
}

#[test]
fn test_resolve_nonexistent_code() {
    let store: Vec<UrlMapping> = Vec::new();
    let result = resolve(&store, "doesnotexist");
    assert!(result.is_err());
}

#[test]
fn test_multiple_mappings() {
    let mut store: Vec<UrlMapping> = Vec::new();
    let blocklist = empty_blocklist();

    // Store two different URLs
    for url in &["https://example.com", "https://rust-lang.org"] {
        let scan_result = scan_url(url, &blocklist).unwrap();
        let mapping = UrlMapping {
            code: generate_unique_code(&store, 6).unwrap(),
            original_url: url.to_string(),
            scan_result,
            created_at: timestamp_now(),
        };
        save_mapping(&mut store, &mapping);
    }

    // Both should be retrievable
    assert_eq!(store.len(), 2);
    for entry in &store {
        let found = resolve(&store, &entry.code).unwrap();
        assert_eq!(found.original_url, entry.original_url);
    }
}
