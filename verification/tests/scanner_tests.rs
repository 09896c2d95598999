use url_threat_shortener::text::char_is_whitespace;
use url_threat_shortener::scanner::{
    check_at_symbol_trick, check_excessive_length, check_ip_literal, check_known_bad,
    check_punycode, check_suspicious_tld, check_typosquat, load_blocklist, match_known_bad,
    normalize_url, parse_url, scan_url, assess_url, Blocklist, ParsedUrl, RiskLevel, ScanError,
    UrlHost,
};

fn parse(s: &str) -> ParsedUrl {
    parse_url(s).unwrap()
}

fn blocklist_of(domains: &[&str]) -> Blocklist {
    Blocklist { domains: domains.iter().map(|d| d.to_string()).collect() }
}

#[test]
fn test_ip_literal_ipv4() {
    let url = parse("http://192.168.1.1/login");
    let result = check_ip_literal(&url);
    assert!(result.is_some(), "Should flag IPv4 literal");
}

#[test]
fn test_ip_literal_normal_domain() {
    let url = parse("http://google.com");
    let result = check_ip_literal(&url);
    assert!(result.is_none(), "Should not flag normal domain");
}

#[test]
fn test_suspicious_tld_flagged() {
    let url = parse("http://free-money.tk/claim");
    let result = check_suspicious_tld(&url);
    assert!(result.is_some(), "Should flag .tk TLD");
}

#[test]
fn test_suspicious_tld_safe() {
    let url = parse("http://example.com");
    let result = check_suspicious_tld(&url);
    assert!(result.is_none(), "Should not flag .com TLD");
}

#[test]
fn test_typosquat_detected() {
    let url = parse("https://paypa1.com/login");
    let result = check_typosquat(&url);
    assert!(result.is_some(), "Should flag paypa1.com as typosquat of paypal.com");
}

#[test]
fn test_typosquat_exact_match_not_flagged() {
    let url = parse("https://paypal.com");
    let result = check_typosquat(&url);
    assert!(result.is_none(), "Should not flag the real paypal.com");
}

#[test]
fn test_typosquat_unrelated_domain() {
    let url = parse("https://myblog.com");
    let result = check_typosquat(&url);
    assert!(result.is_none(), "Should not flag unrelated domain");
}

#[test]
fn test_at_symbol_trick_detected() {
    let result = check_at_symbol_trick("https://google.com@evil.com/login");
    assert!(result.is_some(), "Should flag @ trick");
}

#[test]
fn test_at_symbol_normal_url() {
    let result = check_at_symbol_trick("https://google.com/search?q=rust");
    assert!(result.is_none(), "Should not flag normal URL");
}

#[test]
fn test_at_symbol_in_query_without_path() {
    let result = check_at_symbol_trick("https://example.com?contact=me@mail.com");
    assert!(result.is_none(), "Should not flag '@' in query string");
}

#[test]
fn test_at_symbol_in_fragment_without_path() {
    let result = check_at_symbol_trick("https://example.com#user@notes");
    assert!(result.is_none(), "Should not flag '@' in fragment");
}

#[test]
fn test_punycode_detected() {
    // This is "аpple.com" with a Cyrillic 'а' encoded as punycode
    let url = parse("https://xn--pple-43d.com");
    let result = check_punycode(&url);
    assert!(result.is_some(), "Should flag punycode domain");
}

#[test]
fn test_punycode_normal_domain() {
    let url = parse("https://apple.com");
    let result = check_punycode(&url);
    assert!(result.is_none(), "Should not flag normal ASCII domain");
}

#[test]
fn test_punycode_in_subdomain() {
    // xn--n3h decodes to ☃ (snowman emoji) — valid punycode
    let url = parse("https://xn--n3h.example.com");
    let result = check_punycode(&url);
    assert!(result.is_some(), "Should flag punycode in subdomain");
}

#[test]
fn test_excessive_length_long_url() {
    let long_url = format!("https://example.com/{}", "a".repeat(200));
    let parsed = parse(&long_url);
    let result = check_excessive_length(&long_url, &parsed);
    assert!(result.is_some(), "Should flag URL over 100 chars");
}

#[test]
fn test_excessive_length_many_subdomains() {
    let url_str = "https://a.b.c.d.evil.com/page";
    let parsed = parse(url_str);
    let result = check_excessive_length(url_str, &parsed);
    assert!(result.is_some(), "Should flag too many subdomains");
}

#[test]
fn test_excessive_length_normal_url() {
    let url_str = "https://example.com/about";
    let parsed = parse(url_str);
    let result = check_excessive_length(url_str, &parsed);
    assert!(result.is_none(), "Should not flag short, simple URL");
}

#[test]
fn test_known_bad_match() {
    let blocklist = blocklist_of(&["evil-phishing-site.com", "malware-download.net"]);
    let url = parse("https://evil-phishing-site.com/login");
    let result = check_known_bad(&url, &blocklist);
    assert!(result.is_some(), "Should flag known-bad domain");
}

#[test]
fn test_known_bad_no_match() {
    let blocklist = blocklist_of(&["evil-phishing-site.com"]);
    let url = parse("https://google.com");
    let result = check_known_bad(&url, &blocklist);
    assert!(result.is_none(), "Should not flag clean domain");
}

#[test]
fn test_known_bad_empty_blocklist() {
    let blocklist = blocklist_of(&[]);
    let url = parse("https://anything.com");
    let result = check_known_bad(&url, &blocklist);
    assert!(result.is_none(), "Empty blocklist should flag nothing");
}

#[test]
fn test_scan_url_clean() {
    let blocklist = blocklist_of(&[]);
    let result = scan_url("https://google.com", &blocklist).unwrap();
    assert_eq!(result.risk, RiskLevel::Low);
    assert_eq!(result.score, 0);
    assert!(result.flags.is_empty());
}

#[test]
fn test_scan_url_multiple_flags() {
    // This URL should trigger: suspicious TLD + known bad
    let blocklist = blocklist_of(&["evil-site.tk"]);
    let result = scan_url("https://evil-site.tk/steal", &blocklist).unwrap();
    assert!(result.score >= 2, "Should flag at least TLD + known bad");
    assert_eq!(result.risk, RiskLevel::Medium);
}

#[test]
fn test_scan_url_high_risk() {
    // IP literal + suspicious TLD won't combine (IP has no TLD),
    // so let's use: known bad + suspicious TLD + excessive length
    let long_path = "a".repeat(200);
    let bad_url = format!("https://evil-site.tk/{}", long_path);
    let blocklist = blocklist_of(&["evil-site.tk"]);
    let result = scan_url(&bad_url, &blocklist).unwrap();
    assert!(result.score >= 3, "Should flag TLD + known bad + length");
    assert_eq!(result.risk, RiskLevel::High);
}

#[test]
fn test_scan_url_invalid_input() {
    let blocklist = blocklist_of(&[]);
    let result = scan_url("not a url at all", &blocklist);
    assert!(result.is_err(), "Should return error for invalid URL");
}

#[test]
fn test_normalize_adds_scheme() {
    let result = normalize_url("google.com");
    assert_eq!(result, "https://google.com");
}

#[test]
fn test_normalize_preserves_existing_scheme() {
    let result = normalize_url("http://example.com");
    assert_eq!(result, "http://example.com");
}

#[test]
fn test_normalize_trims_whitespace() {
    let result = normalize_url("  https://example.com  ");
    assert_eq!(result, "https://example.com");
}

#[test]
fn test_scan_url_empty_input() {
    let blocklist = blocklist_of(&[]);
    let result = scan_url("", &blocklist);
    assert!(result.is_err(), "Empty input should error");
}

#[test]
fn test_scan_url_without_scheme() {
    let blocklist = blocklist_of(&[]);
    let result = scan_url("google.com", &blocklist);
    assert!(result.is_ok(), "Should auto-add https:// and scan successfully");
}

// ─── Further cases ───

#[test]
fn ip_literal_messages_name_the_address() {
    let v4 = check_ip_literal(&parse("http://10.0.0.1/")).unwrap();
    assert_eq!(v4, "URL uses raw IPv4 address: 10.0.0.1");
    let v6 = check_ip_literal(&parse("http://[::1]/x")).unwrap();
    assert_eq!(v6, "URL uses raw IPv6 address: ::1");
}

#[test]
fn parsed_url_hosts_by_kind() {
    match parse("http://192.168.1.1/login").host {
        Some(UrlHost::Ipv4(t)) => assert_eq!(t, "192.168.1.1"),
        other => panic!("unexpected host {:?}", other),
    }
    match parse("http://[2001:db8::1]/").host {
        Some(UrlHost::Ipv6(t, a)) => {
            assert_eq!(t, "[2001:db8::1]");
            assert_eq!(a, "2001:db8::1");
        }
        other => panic!("unexpected host {:?}", other),
    }
    match parse("HTTPS://Example.COM/").host {
        Some(UrlHost::Domain(t)) => assert_eq!(t, "example.com"),
        other => panic!("unexpected host {:?}", other),
    }
    assert!(parse("mailto:someone@example.com").host.is_none());
    assert!(parse_url("not a url at all").is_none());
}

#[test]
fn suspicious_tld_message_names_the_first_listed_tld() {
    let flag = check_suspicious_tld(&parse("https://win.click/now")).unwrap();
    assert_eq!(flag, "Suspicious TLD detected: .click");
    assert!(check_suspicious_tld(&parse("mailto:x@y.tk")).is_none());
}

#[test]
fn typosquat_message_gives_the_distance() {
    let flag = check_typosquat(&parse("https://paypa1.com/login")).unwrap();
    assert_eq!(flag, "Possible typosquat: \"paypa1.com\" is 1 edit(s) from \"paypal.com\"");
    let flag = check_typosquat(&parse("https://www.gooogle.co")).unwrap();
    assert_eq!(flag, "Possible typosquat: \"gooogle.co\" is 2 edit(s) from \"google.com\"");
}

#[test]
fn typosquat_skips_popular_domain_with_www() {
    assert!(check_typosquat(&parse("https://www.github.com")).is_none());
}

#[test]
fn at_symbol_without_scheme_and_in_path() {
    assert!(check_at_symbol_trick("user@host.com").is_some());
    assert!(check_at_symbol_trick("https://host.com/a@b").is_none());
    assert_eq!(
        check_at_symbol_trick("http://a@b").unwrap(),
        "URL contains '@' symbol - the real destination may be hidden (userinfo trick)"
    );
}

#[test]
fn punycode_message_names_the_label() {
    let flag = check_punycode(&parse("https://xn--n3h.example.com")).unwrap();
    assert_eq!(flag, "Domain contains Punycode label \"xn--n3h\" - possible homograph attack");
}

#[test]
fn excessive_length_reasons_are_joined() {
    let url = format!("https://a.b.c.d.evil.com/{}", "x".repeat(100));
    assert_eq!(url.len(), 125);
    let flag = check_excessive_length(&url, &parse(&url)).unwrap();
    assert_eq!(
        flag,
        "URL is 125 characters long (threshold: 100); Domain has 6 levels (e.g. \"a.b.c.d.evil.com\" - threshold: 3)"
    );
}

#[test]
fn excessive_length_counts_bytes() {
    // 41 two-byte characters after the host: 20 + 82 bytes, over the threshold
    let url = format!("https://example.com/{}", "é".repeat(41));
    let flag = check_excessive_length(&url, &parse(&url)).unwrap();
    assert_eq!(flag, "URL is 102 characters long (threshold: 100)");
}

#[test]
fn known_bad_strips_www_and_names_the_domain() {
    let blocklist = blocklist_of(&["bad.example"]);
    let flag = check_known_bad(&parse("https://www.bad.example/x"), &blocklist).unwrap();
    assert_eq!(flag, "Domain \"bad.example\" matches known-bad blocklist entry");
    assert!(match_known_bad("www.bad.example", &blocklist).is_some());
    assert!(match_known_bad("good.example", &blocklist).is_none());
}

#[test]
fn blocklist_file_lines() {
    let text = "# comment\n\n  Evil.Com  \r\nmalware.net\n#other.com\n";
    let blocklist = load_blocklist(Some(text));
    assert!(blocklist.contains("evil.com"));
    assert!(blocklist.contains("malware.net"));
    assert!(!blocklist.contains("Evil.Com"));
    assert!(!blocklist.contains("#other.com"));
    assert!(!blocklist.contains(""));
    assert_eq!(blocklist.domains.len(), 2);
    assert!(!blocklist.is_empty());
}

#[test]
fn test_load_blocklist_missing_file() {
    let list = load_blocklist(None);
    assert!(list.is_empty());
}

#[test]
fn normalize_leaves_other_inputs_trimmed() {
    assert_eq!(normalize_url("   "), "");
    assert_eq!(normalize_url("\tnot a url\n"), "not a url");
    assert_eq!(normalize_url("localhost"), "localhost");
    assert_eq!(normalize_url("ftp://files.example.com"), "https://ftp://files.example.com");
}

#[test]
fn normalize_is_idempotent_on_examples() {
    for raw in ["google.com", "  http://x.org ", "a b.c", "", "https://x"] {
        let once = normalize_url(raw);
        assert_eq!(normalize_url(&once), once);
    }
}

#[test]
fn scan_errors_carry_their_messages() {
    let blocklist = blocklist_of(&[]);
    match scan_url("   ", &blocklist) {
        Err(e @ ScanError::InvalidUrl(_)) => {
            assert_eq!(e.to_string(), "Invalid URL: URL cannot be empty");
        }
        Ok(_) => panic!("blank input must be rejected"),
    }
    match scan_url("not a url", &blocklist) {
        Err(ScanError::InvalidUrl(msg)) => {
            assert_eq!(msg, "\"not a url\" is not a valid URL. Example: https://example.com");
        }
        Ok(_) => panic!("invalid input must be rejected"),
    }
}

#[test]
fn scan_flags_come_in_heuristic_order() {
    let blocklist = blocklist_of(&["paypa1.tk"]);
    let result = scan_url("paypa1.tk", &blocklist).unwrap();
    assert_eq!(result.score, result.flags.len() as u32);
    assert!(result.flags[0].starts_with("Suspicious TLD"));
    assert!(result.flags[result.flags.len() - 1].contains("known-bad"));
    assert_eq!(result.risk, RiskLevel::Medium);
}

#[test]
fn assess_matches_scan() {
    let blocklist = blocklist_of(&[]);
    let raw = "http://192.168.1.1/admin";
    let direct = assess_url(raw, &parse(raw), &blocklist);
    let scanned = scan_url(raw, &blocklist).unwrap();
    assert_eq!(direct.flags, scanned.flags);
    // IPv4 literal, and four dot-separated labels
    assert_eq!(direct.score, 2);
    assert_eq!(direct.risk, RiskLevel::Medium);
}

#[test]
fn at_symbol_in_query_of_scheme_less_input() {
    assert!(check_at_symbol_trick("example.com?next=https://me@mail.com").is_none());
    assert!(check_at_symbol_trick("example.com/redirect/https://me@mail.com").is_none());
    assert!(check_at_symbol_trick("https://example.com?next=https://me@mail.com").is_none());
    assert!(check_at_symbol_trick("me@example.com?next=https://x").is_some());
}

#[test]
fn known_bad_exact_www_entry() {
    let blocklist = blocklist_of(&["www.evil.com"]);
    let flag = check_known_bad(&parse("https://www.evil.com"), &blocklist).unwrap();
    assert_eq!(flag, "Domain \"www.evil.com\" matches known-bad blocklist entry");
    assert!(check_known_bad(&parse("https://evil.com"), &blocklist).is_none());
}

#[test]
fn known_bad_names_the_bare_domain_when_both_are_listed() {
    let blocklist = blocklist_of(&["evil.com", "www.evil.com"]);
    let flag = check_known_bad(&parse("https://www.evil.com"), &blocklist).unwrap();
    assert_eq!(flag, "Domain \"evil.com\" matches known-bad blocklist entry");
}

#[test]
fn whitespace_test_agrees_with_std() {
    for x in 0u32..0x3100 {
        if let Some(c) = char::from_u32(x) {
            assert_eq!(char_is_whitespace(c), c.is_whitespace(), "at {:#x}", x);
        }
    }
    for c in ['\u{feff}', '\u{180e}', '\u{200b}', '\u{10ffff}'] {
        assert_eq!(char_is_whitespace(c), c.is_whitespace());
    }
}
