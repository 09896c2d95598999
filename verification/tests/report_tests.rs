use url_threat_shortener::report::{
    menu_action, menu_step, render_mapping, render_scan_result, MenuAction, MenuEffect, MenuEvent,
    MenuState,
};
use url_threat_shortener::scanner::{scan_url, Blocklist, RiskLevel, ScanResult};
use url_threat_shortener::shortener::{resolve, shorten_url, UrlMapping, SHORT_CODE_LEN};

#[test]
fn clean_scan_report() {
    let result = ScanResult { risk: RiskLevel::Low, score: 0, flags: vec![] };
    assert_eq!(render_scan_result(&result), "\n[LOW RISK] Score: 0/7\nNo threats detected.\n");
}

#[test]
fn flagged_scan_report() {
    let blocklist = Blocklist { domains: vec![] };
    let result = scan_url("paypa1-login.tk/verify", &blocklist).unwrap();
    assert_eq!(
        render_scan_result(&result),
        "\n[MEDIUM RISK] Score: 1/7\n\nFlags:\n  ! Suspicious TLD detected: .tk\n"
    );
}

#[test]
fn high_risk_report_lists_every_flag() {
    let result = ScanResult {
        risk: RiskLevel::High,
        score: 3,
        flags: vec!["a".to_string(), "b".to_string(), "c".to_string()],
    };
    assert_eq!(
        render_scan_result(&result),
        "\n[HIGH RISK] Score: 3/7\n\nFlags:\n  ! a\n  ! b\n  ! c\n"
    );
}

#[test]
fn resolved_mapping_report() {
    let m = UrlMapping {
        code: "a3Bf9x".to_string(),
        original_url: "https://example.com".to_string(),
        scan_result: ScanResult { risk: RiskLevel::Low, score: 0, flags: vec![] },
        created_at: "2026-07-01T12:34:56Z".to_string(),
    };
    assert_eq!(
        render_mapping(&m),
        "\nCode:    a3Bf9x\nURL:     https://example.com\nRisk:    Low (0/7)\nCreated: 2026-07-01T12:34:56Z\n"
    );
}

#[test]
fn resolved_mapping_report_with_flags() {
    let m = UrlMapping {
        code: "Kx9mP2".to_string(),
        original_url: "https://evil.tk".to_string(),
        scan_result: ScanResult {
            risk: RiskLevel::Medium,
            score: 1,
            flags: vec!["Suspicious TLD detected: .tk".to_string()],
        },
        created_at: "2026-07-01T15:30:22Z".to_string(),
    };
    assert_eq!(
        render_mapping(&m),
        "\nCode:    Kx9mP2\nURL:     https://evil.tk\nRisk:    Medium (1/7)\nFlags:\n  ! Suspicious TLD detected: .tk\nCreated: 2026-07-01T15:30:22Z\n"
    );
}

#[test]
fn menu_actions_in_order() {
    assert_eq!(menu_action(Some(0)), MenuAction::Scan);
    assert_eq!(menu_action(Some(1)), MenuAction::Shorten);
    assert_eq!(menu_action(Some(2)), MenuAction::Resolve);
    assert_eq!(menu_action(Some(3)), MenuAction::Exit);
    assert_eq!(menu_action(None), MenuAction::Exit);
}

#[test]
fn shorten_then_resolve() {
    let mut store: Vec<UrlMapping> = Vec::new();
    let blocklist = Blocklist { domains: vec![] };
    let url = "https://github.com/goonharu/url-threat-shortener";
    let result = scan_url(url, &blocklist).unwrap();
    let code =
        shorten_url(&mut store, url, result, "2026-07-01T15:30:22Z".to_string()).unwrap();
    assert_eq!(code.len(), SHORT_CODE_LEN);
    assert_eq!(store.len(), 1);
    let found = resolve(&store, &code).unwrap();
    assert_eq!(found.original_url, url);
    assert_eq!(found.scan_result.risk, RiskLevel::Low);
    assert_eq!(found.created_at, "2026-07-01T15:30:22Z");
}

#[test]
fn shorten_stores_the_normalized_url() {
    let mut store: Vec<UrlMapping> = Vec::new();
    let blocklist = Blocklist { domains: vec![] };
    let result = scan_url("example.com", &blocklist).unwrap();
    let code = shorten_url(&mut store, "  example.com ", result, "2026-07-01T00:00:00Z".to_string())
        .unwrap();
    assert_eq!(resolve(&store, &code).unwrap().original_url, "https://example.com");
}

#[test]
fn menu_session_steps() {
    let (s, e) = menu_step(MenuState::Choosing, MenuEvent::Picked(Some(1)));
    assert_eq!(s, MenuState::Asking(MenuAction::Shorten));
    assert_eq!(e, MenuEffect::Ask("Enter URL to shorten".to_string()));
    let (s, e) = menu_step(s, MenuEvent::Answered(Some("example.com".to_string())));
    assert_eq!(s, MenuState::Running);
    assert_eq!(e, MenuEffect::Shorten("example.com".to_string()));
    let (s, e) = menu_step(s, MenuEvent::Finished(Some("Error: x".to_string())));
    assert_eq!(s, MenuState::Choosing);
    assert_eq!(e, MenuEffect::ReportAndShowMenu(Some("Error: x".to_string())));
    let (s, e) = menu_step(MenuState::Asking(MenuAction::Resolve), MenuEvent::Answered(None));
    assert_eq!((s, e), (MenuState::Choosing, MenuEffect::ShowMenu));
    let (s, e) = menu_step(MenuState::Choosing, MenuEvent::Picked(Some(2)));
    assert_eq!(e, MenuEffect::Ask("Enter short code".to_string()));
    let (_, e) = menu_step(s, MenuEvent::Answered(Some("abc".to_string())));
    assert_eq!(e, MenuEffect::Resolve("abc".to_string()));
    assert_eq!(
        menu_step(MenuState::Choosing, MenuEvent::Picked(None)),
        (MenuState::Closed, MenuEffect::Goodbye)
    );
    assert_eq!(
        menu_step(MenuState::Choosing, MenuEvent::Picked(Some(3))),
        (MenuState::Closed, MenuEffect::Goodbye)
    );
}
