//! The threat scanner: seven heuristics over a URL and the risk verdict
//! drawn from how many of them flag it.
use vstd::prelude::*;

use crate::text::{
    chars_of, contains_char, decimal, first_index, has_prefix, has_suffix, lowercase, push_chars,
    skip_chars, starts_at, take_chars,
    push_decimal, same_chars, split_chars, split_on, string_of, to_lowercase, trim, trim_chars,
};

verus! {

broadcast use vstd::string::group_string_axioms;

// ---------------------------------------------------------------------------
// Types
// ---------------------------------------------------------------------------

/// Risk level assigned after scanning a URL
#[derive(Debug, Clone, Copy, PartialEq, Eq, Structural)]
pub enum RiskLevel {
    Low,
    Medium,
    High,
}

/// Result of scanning a single URL
#[derive(Debug, Clone)]
pub struct ScanResult {
    /// Overall risk level
    pub risk: RiskLevel,
    /// Numeric score - number of heuristics that flagged
    pub score: u32,
    /// Human-readable reasons for each flag
    pub flags: Vec<String>,
}

/// The mathematical content of a `ScanResult`.
pub struct ScanResultView {
    pub risk: RiskLevel,
    pub score: nat,
    pub flags: Seq<Seq<char>>,
}

/// The texts of a list of strings.
pub open spec fn texts(v: Seq<String>) -> Seq<Seq<char>> {
    v.map_values(|s: String| s@)
}

impl View for ScanResult {
    type V = ScanResultView;

    open spec fn view(&self) -> ScanResultView {
        ScanResultView { risk: self.risk, score: self.score as nat, flags: texts(self.flags@) }
    }
}

/// Errors that can occur during scanning
#[derive(Debug)]
pub enum ScanError {
    InvalidUrl(String),
}

impl ScanError {
    /// The human-readable form of the error.
    pub fn to_string(&self) -> (s: String)
        ensures
            match self {
                ScanError::InvalidUrl(msg) => s@ == "Invalid URL: "@ + msg@,
            },
    {
        match self {
            ScanError::InvalidUrl(msg) => {
                let mut s = String::from_str("Invalid URL: ");
                s.append(msg.as_str());
                s
            },
        }
    }
}

/// The host of a parsed URL, as the URL parser reports it.
#[derive(Debug, Clone)]
pub enum UrlHost {
    /// A domain name (or an opaque host), in its serialized form.
    Domain(String),
    /// An IPv4 address; its serialized form is the dotted-decimal address.
    Ipv4(String),
    /// An IPv6 address: its serialized (bracketed) form, and the address as
    /// `std::net::Ipv6Addr` displays it.
    Ipv6(String, String),
}

/// The mathematical content of a `UrlHost`.
pub enum UrlHostView {
    Domain(Seq<char>),
    Ipv4(Seq<char>),
    Ipv6(Seq<char>, Seq<char>),
}

impl View for UrlHost {
    type V = UrlHostView;

    open spec fn view(&self) -> UrlHostView {
        match self {
            UrlHost::Domain(t) => UrlHostView::Domain(t@),
            UrlHost::Ipv4(t) => UrlHostView::Ipv4(t@),
            UrlHost::Ipv6(t, a) => UrlHostView::Ipv6(t@, a@),
        }
    }
}

/// What the scanner reads of a parsed URL: its host, if it has one.
#[derive(Debug, Clone)]
pub struct ParsedUrl {
    pub host: Option<UrlHost>,
}

/// The mathematical content of a `ParsedUrl`.
pub struct ParsedUrlView {
    pub host: Option<UrlHostView>,
}

impl View for ParsedUrl {
    type V = ParsedUrlView;

    open spec fn view(&self) -> ParsedUrlView {
        ParsedUrlView {
            host: match self.host {
                Some(h) => Some(h@),
                None => None,
            },
        }
    }
}

/// A set of known-bad domains, kept as a list.
pub struct Blocklist {
    pub domains: Vec<String>,
}

impl View for Blocklist {
    type V = Set<Seq<char>>;

    open spec fn view(&self) -> Set<Seq<char>> {
        texts(self.domains@).to_set()
    }
}

/// The text of an optional string.
pub open spec fn opt_text(o: Option<String>) -> Option<Seq<char>> {
    match o {
        Some(s) => Some(s@),
        None => None,
    }
}

// ---------------------------------------------------------------------------
// Specifications of the heuristics
// ---------------------------------------------------------------------------

/// The serialized text of a host.
pub open spec fn host_text(h: UrlHostView) -> Seq<char> {
    match h {
        UrlHostView::Domain(t) => t,
        UrlHostView::Ipv4(t) => t,
        UrlHostView::Ipv6(t, _) => t,
    }
}

/// The host of a parsed URL as text, as `Url::host_str` gives it.
pub open spec fn host_of(p: ParsedUrlView) -> Option<Seq<char>> {
    match p.host {
        Some(h) => Some(host_text(h)),
        None => None,
    }
}

/// The IP-literal heuristic.
pub open spec fn ip_literal_flag(p: ParsedUrlView) -> Option<Seq<char>> {
    match p.host {
        Some(UrlHostView::Ipv4(t)) => Some("URL uses raw IPv4 address: "@ + t),
        Some(UrlHostView::Ipv6(_, a)) => Some("URL uses raw IPv6 address: "@ + a),
        _ => None,
    }
}

/// Top-level domains with a history of abuse, in the order they are tried.
pub open spec fn suspicious_tlds() -> Seq<Seq<char>> {
    seq![
        ".tk"@, ".ml"@, ".ga"@, ".cf"@, ".gq"@,
        ".xyz"@, ".top"@, ".click"@, ".buzz"@,
        ".rest"@, ".work"@, ".fit"@, ".loan"@,
    ]
}

/// Whether the `i`-th suspicious TLD ends `host`.
pub open spec fn tld_matches(host: Seq<char>) -> spec_fn(int) -> bool {
    |i: int| suspicious_tlds()[i].is_suffix_of(host)
}

/// The suspicious-TLD heuristic: the first listed TLD that the host ends with.
pub open spec fn suspicious_tld_flag(p: ParsedUrlView) -> Option<Seq<char>> {
    match host_of(p) {
        None => None,
        Some(h) => match first_index(suspicious_tlds().len(), tld_matches(h)) {
            Some(i) => Some("Suspicious TLD detected: "@ + suspicious_tlds()[i]),
            None => None,
        },
    }
}

/// Well-known domains checked for lookalikes, in the order they are tried.
pub open spec fn popular_domains() -> Seq<Seq<char>> {
    seq![
        "google.com"@, "facebook.com"@, "amazon.com"@, "apple.com"@, "microsoft.com"@,
        "paypal.com"@, "netflix.com"@, "instagram.com"@, "twitter.com"@, "linkedin.com"@,
        "github.com"@, "yahoo.com"@, "chase.com"@, "wellsfargo.com"@, "bankofamerica.com"@,
    ]
}

/// `host` without a leading "www.".
pub open spec fn strip_www(host: Seq<char>) -> Seq<char> {
    if "www."@.is_prefix_of(host) {
        host.skip("www."@.len() as int)
    } else {
        host
    }
}

/// The Levenshtein distance: the least number of single-character
/// insertions, deletions and substitutions that turn `a` into `b`.
pub open spec fn edit_distance(a: Seq<char>, b: Seq<char>) -> nat
    decreases a.len() + b.len(),
{
    if a.len() == 0 {
        b.len()
    } else if b.len() == 0 {
        a.len()
    } else {
        let del = edit_distance(a.drop_last(), b) + 1;
        let ins = edit_distance(a, b.drop_last()) + 1;
        let sub = edit_distance(a.drop_last(), b.drop_last()) + if a.last() == b.last() {
            0nat
        } else {
            1nat
        };
        if del <= ins && del <= sub {
            del
        } else if ins <= sub {
            ins
        } else {
            sub
        }
    }
}

/// Whether `domain` is one or two edits away from the `i`-th popular domain.
pub open spec fn near_popular(domain: Seq<char>) -> spec_fn(int) -> bool {
    |i: int| 1 <= edit_distance(domain, popular_domains()[i]) <= 2
}

/// The message of the typosquat heuristic.
pub open spec fn typosquat_message(domain: Seq<char>, distance: nat, legit: Seq<char>) -> Seq<
    char,
> {
    "Possible typosquat: \""@ + domain + "\" is "@ + decimal(distance) + " edit(s) from \""@ + legit
        + "\""@
}

/// The typosquat heuristic: the first popular domain one or two edits away from
/// the host (without "www."), unless the host is itself a popular domain.
pub open spec fn typosquat_flag(p: ParsedUrlView) -> Option<Seq<char>> {
    match host_of(p) {
        None => None,
        Some(h) => {
            let d = strip_www(h);
            if popular_domains().contains(d) {
                None
            } else {
                match first_index(popular_domains().len(), near_popular(d)) {
                    Some(i) => Some(
                        typosquat_message(
                            d,
                            edit_distance(d, popular_domains()[i]),
                            popular_domains()[i],
                        ),
                    ),
                    None => None,
                }
            }
        },
    }
}

/// Whether "://" starts at position `i` of `s`.
pub open spec fn scheme_separator_at(s: Seq<char>) -> spec_fn(int) -> bool {
    |i: int| "://"@.is_prefix_of(s.skip(i))
}

/// Whether position `i` of `s` ends the authority: a '/', '?' or '#'.
pub open spec fn authority_end_at(s: Seq<char>) -> spec_fn(int) -> bool {
    |i: int| s[i] == '/' || s[i] == '?' || s[i] == '#'
}

/// Whether a "://" at `pos` comes before the first '/', '?' or '#' of `raw`,
/// so that it separates a scheme from the authority and does not sit inside a
/// path, query or fragment.
pub open spec fn separates_scheme(raw: Seq<char>, pos: int) -> bool {
    match first_index(raw.len(), authority_end_at(raw)) {
        Some(end) => pos < end,
        None => true,
    }
}

/// The raw URL after its scheme separator: after its first "://" where that
/// comes before any '/', '?' or '#', and all of it otherwise.
pub open spec fn after_scheme(raw: Seq<char>) -> Seq<char> {
    match first_index(raw.len(), scheme_separator_at(raw)) {
        Some(pos) => if separates_scheme(raw, pos) {
            raw.skip(pos + "://"@.len())
        } else {
            raw
        },
        None => raw,
    }
}

/// The part of `s` before its first '/', '?' or '#'.
pub open spec fn before_path(s: Seq<char>) -> Seq<char> {
    match first_index(s.len(), authority_end_at(s)) {
        Some(pos) => s.take(pos),
        None => s,
    }
}

/// The message of the '@' heuristic.
pub open spec fn at_symbol_message() -> Seq<char> {
    "URL contains '@' symbol - the real destination may be hidden (userinfo trick)"@
}

/// The '@' heuristic, on the raw text: an '@' in the authority part.
pub open spec fn at_symbol_flag(raw: Seq<char>) -> Option<Seq<char>> {
    if before_path(after_scheme(raw)).contains('@') {
        Some(at_symbol_message())
    } else {
        None
    }
}

/// Whether the `i`-th label starts with "xn--".
pub open spec fn punycode_label_at(labels: Seq<Seq<char>>) -> spec_fn(int) -> bool {
    |i: int| "xn--"@.is_prefix_of(labels[i])
}

/// The Punycode heuristic: the first dot-separated label of the host that starts with "xn--".
pub open spec fn punycode_flag(p: ParsedUrlView) -> Option<Seq<char>> {
    match host_of(p) {
        None => None,
        Some(h) => {
            let labels = split_on(h, '.');
            match first_index(labels.len(), punycode_label_at(labels)) {
                Some(i) => Some(
                    "Domain contains Punycode label \""@ + labels[i]
                        + "\" - possible homograph attack"@,
                ),
                None => None,
            }
        },
    }
}

/// The length reason of the excessive-length heuristic, for a URL of `byte_len` bytes.
pub open spec fn length_reason(byte_len: nat) -> Option<Seq<char>> {
    if byte_len > 100 {
        Some("URL is "@ + decimal(byte_len) + " characters long (threshold: 100)"@)
    } else {
        None
    }
}

/// The subdomain reason of the excessive-length heuristic.
pub open spec fn levels_reason(p: ParsedUrlView) -> Option<Seq<char>> {
    match host_of(p) {
        Some(h) => {
            let count = split_on(h, '.').len();
            if count > 3 {
                Some(
                    "Domain has "@ + decimal(count) + " levels (e.g. \""@ + h
                        + "\" - threshold: 3)"@,
                )
            } else {
                None
            }
        },
        None => None,
    }
}

/// The excessive-length heuristic: the reasons that apply, joined by "; ".
pub open spec fn excessive_length_flag(byte_len: nat, p: ParsedUrlView) -> Option<Seq<char>> {
    match (length_reason(byte_len), levels_reason(p)) {
        (None, None) => None,
        (Some(a), None) => Some(a),
        (None, Some(b)) => Some(b),
        (Some(a), Some(b)) => Some(a + "; "@ + b),
    }
}

/// The verdict of the blocklist for a lowercased host: the host without a
/// leading "www." where that is listed, else the host as it stands where it is listed.
pub open spec fn known_bad_verdict(host_lower: Seq<char>, blocklist: Set<Seq<char>>) -> Option<
    Seq<char>,
> {
    let d = if blocklist.contains(strip_www(host_lower)) {
        strip_www(host_lower)
    } else {
        host_lower
    };
    if blocklist.contains(d) {
        Some("Domain \""@ + d + "\" matches known-bad blocklist entry"@)
    } else {
        None
    }
}

/// The blocklist heuristic: the lowercased host is listed, without its "www."
/// or as it stands.
pub open spec fn known_bad_flag(p: ParsedUrlView, blocklist: Set<Seq<char>>) -> Option<
    Seq<char>,
> {
    match host_of(p) {
        Some(h) => known_bad_verdict(lowercase(h), blocklist),
        None => None,
    }
}

/// `flags` with `f` appended where it is present.
pub open spec fn add_flag(flags: Seq<Seq<char>>, f: Option<Seq<char>>) -> Seq<Seq<char>> {
    match f {
        Some(t) => flags.push(t),
        None => flags,
    }
}

/// The flags of a scan, in the order of the heuristics.
pub open spec fn scan_flags(
    raw: Seq<char>,
    byte_len: nat,
    p: ParsedUrlView,
    blocklist: Set<Seq<char>>,
) -> Seq<Seq<char>> {
    let f0 = add_flag(Seq::empty(), ip_literal_flag(p));
    let f1 = add_flag(f0, suspicious_tld_flag(p));
    let f2 = add_flag(f1, typosquat_flag(p));
    let f3 = add_flag(f2, at_symbol_flag(raw));
    let f4 = add_flag(f3, punycode_flag(p));
    let f5 = add_flag(f4, excessive_length_flag(byte_len, p));
    add_flag(f5, known_bad_flag(p, blocklist))
}

/// The risk level for a number of flags: none is low, one or two medium, more high.
pub open spec fn risk_for(score: nat) -> RiskLevel {
    if score == 0 {
        RiskLevel::Low
    } else if score <= 2 {
        RiskLevel::Medium
    } else {
        RiskLevel::High
    }
}

/// The full verdict of a scan.
pub open spec fn assessment(
    raw: Seq<char>,
    byte_len: nat,
    p: ParsedUrlView,
    blocklist: Set<Seq<char>>,
) -> ScanResultView {
    let flags = scan_flags(raw, byte_len, p, blocklist);
    ScanResultView { risk: risk_for(flags.len()), score: flags.len(), flags }
}

/// The input with white space trimmed, and "https://" put in front of a
/// scheme-less text that has a dot and no space.
pub open spec fn normalized(raw: Seq<char>) -> Seq<char> {
    let t = trim(raw);
    if t.len() == 0 {
        t
    } else if "http://"@.is_prefix_of(t) || "https://"@.is_prefix_of(t) {
        t
    } else if t.contains('.') && !t.contains(' ') {
        "https://"@ + t
    } else {
        t
    }
}

/// The message of the error for an input that the URL parser rejects.
pub open spec fn invalid_url_message(raw: Seq<char>) -> Seq<char> {
    "\""@ + raw + "\" is not a valid URL. Example: https://example.com"@
}

/// A trimmed line of a blocklist file, lowercased, where it names a domain
/// (it is neither blank nor a '#' comment).
pub open spec fn blocklist_entry(line: Seq<char>) -> Option<Seq<char>> {
    let e = lowercase(trim(line));
    if e.len() > 0 && e[0] != '#' {
        Some(e)
    } else {
        None
    }
}

/// The domains that a blocklist file lists.
pub open spec fn blocklist_of(content: Seq<char>) -> Set<Seq<char>> {
    let lines = split_on(content, '\n');
    Set::new(
        |d: Seq<char>|
            exists|i: int| 0 <= i < lines.len() && #[trigger] blocklist_entry(lines[i]) == Some(d),
    )
}

// ---------------------------------------------------------------------------
// Executable heuristics
// ---------------------------------------------------------------------------

/// The suspicious TLDs, as text.
fn suspicious_tld_list() -> (v: Vec<&'static str>)
    ensures
        v@.len() == suspicious_tlds().len(),
        forall|i: int| 0 <= i < v@.len() ==> #[trigger] v@[i]@ == suspicious_tlds()[i],
{
    let v = vec![
        ".tk", ".ml", ".ga", ".cf", ".gq",
        ".xyz", ".top", ".click", ".buzz",
        ".rest", ".work", ".fit", ".loan",
    ];
    v
}

/// The popular domains, as text.
fn popular_domain_list() -> (v: Vec<&'static str>)
    ensures
        v@.len() == popular_domains().len(),
        forall|i: int| 0 <= i < v@.len() ==> #[trigger] v@[i]@ == popular_domains()[i],
{
    let v = vec![
        "google.com", "facebook.com", "amazon.com", "apple.com", "microsoft.com",
        "paypal.com", "netflix.com", "instagram.com", "twitter.com", "linkedin.com",
        "github.com", "yahoo.com", "chase.com", "wellsfargo.com", "bankofamerica.com",
    ];
    v
}

impl ParsedUrl {
    /// The host as text, as `Url::host_str` gives it.
    pub fn host_str(&self) -> (r: Option<&str>)
        ensures
            match r {
                Some(h) => host_of(self@) == Some(h@),
                None => host_of(self@) is None,
            },
    {
        match &self.host {
            Some(UrlHost::Domain(t)) => Some(t.as_str()),
            Some(UrlHost::Ipv4(t)) => Some(t.as_str()),
            Some(UrlHost::Ipv6(t, _)) => Some(t.as_str()),
            None => None,
        }
    }
}

/// `host` without a leading "www.".
fn strip_www_str(host: &str) -> (d: &str)
    ensures
        d@ == strip_www(host@),
{
    let hc = chars_of(host);
    let www = chars_of("www.");
    if has_prefix(hc.as_slice(), www.as_slice()) {
        let n = host.unicode_len();
        host.substring_char(www.len(), n)
    } else {
        host
    }
}

/// Check if the URL uses a raw IP address instead of a domain name
/// Phishing and malware sites often use IP literals to avoid domain-based blocklists
pub fn check_ip_literal(parsed: &ParsedUrl) -> (r: Option<String>)
    ensures
        opt_text(r) == ip_literal_flag(parsed@),
{
    match &parsed.host {
        Some(UrlHost::Ipv4(t)) => {
            let mut m = String::from_str("URL uses raw IPv4 address: ");
            m.append(t.as_str());
            Some(m)
        },
        Some(UrlHost::Ipv6(_, a)) => {
            let mut m = String::from_str("URL uses raw IPv6 address: ");
            m.append(a.as_str());
            Some(m)
        },
        _ => None,
    }
}

/// Check if the URL uses a TLD commonly associated with phishing or abuse.
/// These TLDs are flagged because of historically high abuse rates, not because every site using them is malicious.
pub fn check_suspicious_tld(parsed: &ParsedUrl) -> (r: Option<String>)
    ensures
        opt_text(r) == suspicious_tld_flag(parsed@),
{
    let host = match parsed.host_str() {
        Some(h) => h,
        None => return None,
    };
    let hc = chars_of(host);
    let tlds = suspicious_tld_list();
    let n = tlds.len();
    let ghost pred = tld_matches(host@);
    for i in 0..n
        invariant
            n == suspicious_tlds().len(),
            tlds@.len() == n,
            forall|k: int| 0 <= k < n ==> #[trigger] tlds@[k]@ == suspicious_tlds()[k],
            hc@ == host@,
            host_of(parsed@) == Some(host@),
            pred == tld_matches(host@),
            forall|j: int| 0 <= j < i ==> !#[trigger] pred(j),
    {
        let tc = chars_of(tlds[i]);
        if has_suffix(hc.as_slice(), tc.as_slice()) {
            proof {
                crate::text::lemma_first_index_some(n as nat, pred, i as int);
            }
            let mut m = String::from_str("Suspicious TLD detected: ");
            m.append(tlds[i]);
            return Some(m);
        }
    }
    proof {
        crate::text::lemma_first_index_none(n as nat, pred);
    }
    None
}

/// The Levenshtein distance between two texts.
/// Trusted: `strsim::levenshtein`, documented as the minimum number of
/// insertions, deletions and substitutions required to change one string
/// into the other; its source computes it over the strings' chars.
#[verifier::external_body]
fn levenshtein(a: &str, b: &str) -> (d: usize)
    ensures
        d as nat == edit_distance(a@, b@),
{
    strsim::levenshtein(a, b)
}

/// Check if the URL's domain is suspiciously close to a well-known domain.
/// Uses levenshtein distance to detect typosquatting attempts like
/// "paypa1.com" (distance 1 from "paypal.com").
pub fn check_typosquat(parsed: &ParsedUrl) -> (r: Option<String>)
    ensures
        opt_text(r) == typosquat_flag(parsed@),
{
    let host = match parsed.host_str() {
        Some(h) => h,
        None => return None,
    };
    // Strip "www." prefix if present so "www.google.com" still gets checked
    let domain = strip_www_str(host);
    let dc = chars_of(domain);
    let popular = popular_domain_list();
    let n = popular.len();
    // Don't flag exact matches - that's the real site
    for i in 0..n
        invariant
            n == popular_domains().len(),
            popular@.len() == n,
            forall|k: int| 0 <= k < n ==> #[trigger] popular@[k]@ == popular_domains()[k],
            dc@ == domain@,
            domain@ == strip_www(host@),
            host_of(parsed@) == Some(host@),
            forall|j: int| 0 <= j < i ==> popular_domains()[j] != domain@,
    {
        let pc = chars_of(popular[i]);
        if same_chars(dc.as_slice(), pc.as_slice()) {
            assert(popular_domains()[i as int] == domain@);
            return None;
        }
    }
    assert(!popular_domains().contains(domain@));
    let ghost pred = near_popular(domain@);
    for i in 0..n
        invariant
            n == popular_domains().len(),
            popular@.len() == n,
            forall|k: int| 0 <= k < n ==> #[trigger] popular@[k]@ == popular_domains()[k],
            pred == near_popular(domain@),
            domain@ == strip_www(host@),
            host_of(parsed@) == Some(host@),
            !popular_domains().contains(domain@),
            forall|j: int| 0 <= j < i ==> !#[trigger] pred(j),
    {
        let distance = levenshtein(domain, popular[i]);
        // Distance of 1-2 = suspiciously close but not identical
        if distance >= 1 && distance <= 2 {
            proof {
                crate::text::lemma_first_index_some(n as nat, pred, i as int);
            }
            let mut m = String::from_str("Possible typosquat: \"");
            m.append(domain);
            m.append("\" is ");
            push_decimal(&mut m, distance as u64);
            m.append(" edit(s) from \"");
            m.append(popular[i]);
            m.append("\"");
            return Some(m);
        }
    }
    proof {
        crate::text::lemma_first_index_none(n as nat, pred);
    }
    None
}

/// The first position of a '/', '?' or '#' in `s`.
fn find_authority_end(s: &[char]) -> (r: Option<usize>)
    ensures
        match r {
            Some(p) => p < s@.len() && first_index(s@.len(), authority_end_at(s@)) == Some(
                p as int,
            ),
            None => first_index(s@.len(), authority_end_at(s@)) is None,
        },
{
    let m = s.len();
    let ghost end_pred = authority_end_at(s@);
    let mut i: usize = 0;
    while i < m
        invariant
            i <= m,
            m == s@.len(),
            end_pred == authority_end_at(s@),
            forall|j: int| 0 <= j < i ==> !#[trigger] end_pred(j),
        decreases m - i,
    {
        let c = s[i];
        if c == '/' || c == '?' || c == '#' {
            proof {
                crate::text::lemma_first_index_some(m as nat, end_pred, i as int);
            }
            return Some(i);
        }
        i = i + 1;
    }
    proof {
        crate::text::lemma_first_index_none(m as nat, end_pred);
    }
    None
}

/// Check if the URL contains a '@' symbol used to disguise the real host.
/// Example: "https://google.com@evil.com" actually navigates to evil.com.
/// The part before '@' is treated as userinfo (username), which most servers ignore.
/// The raw text is checked, not the parsed URL, because the parser resolves the
/// real host and the trick would be lost.
pub fn check_at_symbol_trick(raw: &str) -> (r: Option<String>)
    ensures
        opt_text(r) == at_symbol_flag(raw@),
{
    let rc = chars_of(raw);
    let sep = chars_of("://");
    let n = rc.len();
    // First, strip the scheme (https://, http://) to avoid false positives
    // from "mailto:" style URIs. A "://" only separates a scheme where it
    // comes before the path, query and fragment.
    let ghost sep_pred = scheme_separator_at(raw@);
    let mut scheme_end: Option<usize> = None;
    let mut i: usize = 0;
    while i < n
        invariant_except_break
            scheme_end is None,
            forall|j: int| 0 <= j < i ==> !#[trigger] sep_pred(j),
        invariant
            i <= n,
            n == rc@.len(),
            rc@ == raw@,
            sep@ == "://"@,
            sep_pred == scheme_separator_at(raw@),
        ensures
            match scheme_end {
                Some(pos) => pos < n && first_index(n as nat, sep_pred) == Some(pos as int),
                None => forall|j: int| 0 <= j < n ==> !#[trigger] sep_pred(j),
            },
        decreases n - i,
    {
        if starts_at(rc.as_slice(), i, sep.as_slice()) {
            proof {
                crate::text::lemma_first_index_some(n as nat, sep_pred, i as int);
            }
            scheme_end = Some(i);
            break;
        }
        i = i + 1;
    }
    proof {
        if scheme_end is None {
            crate::text::lemma_first_index_none(n as nat, sep_pred);
        }
    }
    let raw_end = find_authority_end(rc.as_slice());
    let after: Vec<char> = match scheme_end {
        Some(pos) => {
            let separates = match raw_end {
                Some(end) => pos < end,
                None => true,
            };
            if separates {
                proof {
                    crate::text::lemma_first_index_found(n as nat, sep_pred);
                    assert(sep_pred(pos as int));
                }
                skip_chars(rc.as_slice(), pos + sep.len())
            } else {
                rc
            }
        },
        None => rc,
    };
    assert(after@ == after_scheme(raw@));
    // If there's an '@' before the first '/', '?' or '#', someone is using
    // the userinfo trick. Query and fragment also end the host section, so an
    // '@' inside them (e.g. "example.com?contact=me@mail.com") is not userinfo.
    let before: Vec<char> = match find_authority_end(after.as_slice()) {
        Some(pos) => take_chars(after.as_slice(), pos),
        None => after,
    };
    assert(before@ == before_path(after_scheme(raw@)));
    if contains_char(before.as_slice(), '@') {
        Some(String::from_str("URL contains '@' symbol - the real destination may be hidden (userinfo trick)"))
    } else {
        None
    }
}

/// Check if the domain uses Punycode (xn-- prefix), which may indicate
/// a homograph attack using lookalike Unicode characters.
/// Example: "xn--pple-43d.com" renders as "apple.com" (Cyrillic 'a').
pub fn check_punycode(parsed: &ParsedUrl) -> (r: Option<String>)
    ensures
        opt_text(r) == punycode_flag(parsed@),
{
    let host = match parsed.host_str() {
        Some(h) => h,
        None => return None,
    };
    let hc = chars_of(host);
    let labels = split_chars(hc.as_slice(), '.');
    let xn = chars_of("xn--");
    let n = labels.len();
    let ghost spec_labels = split_on(host@, '.');
    let ghost pred = punycode_label_at(spec_labels);
    // Check each label (subdomain part) for the xn-- prefix
    for i in 0..n
        invariant
            n == labels@.len(),
            n == spec_labels.len(),
            spec_labels == split_on(host@, '.'),
            forall|k: int| 0 <= k < n ==> #[trigger] labels@[k]@ == spec_labels[k],
            xn@ == "xn--"@,
            host_of(parsed@) == Some(host@),
            pred == punycode_label_at(spec_labels),
            forall|j: int| 0 <= j < i ==> !#[trigger] pred(j),
    {
        if has_prefix(labels[i].as_slice(), xn.as_slice()) {
            proof {
                assert(labels@[i as int]@ == spec_labels[i as int]);
                crate::text::lemma_first_index_some(n as nat, pred, i as int);
            }
            let mut m = String::from_str("Domain contains Punycode label \"");
            push_chars(&mut m, labels[i].as_slice());
            m.append("\" - possible homograph attack");
            return Some(m);
        }
    }
    proof {
        crate::text::lemma_first_index_none(n as nat, pred);
    }
    None
}

/// Check if the URL is excessively long or has too many subdomains.
/// Phishing URLs are often padded with keywords or random strings to
/// push the real domain out of view in the browser address bar.
pub fn check_excessive_length(raw: &str, parsed: &ParsedUrl) -> (r: Option<String>)
    ensures
        opt_text(r) == excessive_length_flag(raw.len() as nat, parsed@),
{
    // Flag URLs over 100 characters total
    let len = raw.len();
    let by_length: Option<String> = if len > 100 {
        let mut m = String::from_str("URL is ");
        push_decimal(&mut m, len as u64);
        m.append(" characters long (threshold: 100)");
        Some(m)
    } else {
        None
    };
    assert(opt_text(by_length) == length_reason(raw.len() as nat));
    // Flag domains with more than 3 subdomain levels
    // e.g. "a.b.c.d.evil.com" has 6 labels - that's suspicious
    let by_levels: Option<String> = match parsed.host_str() {
        Some(host) => {
            let hc = chars_of(host);
            let label_count = split_chars(hc.as_slice(), '.').len();
            if label_count > 3 {
                let mut m = String::from_str("Domain has ");
                push_decimal(&mut m, label_count as u64);
                m.append(" levels (e.g. \"");
                m.append(host);
                m.append("\" - threshold: 3)");
                Some(m)
            } else {
                None
            }
        },
        None => None,
    };
    assert(opt_text(by_levels) == levels_reason(parsed@));
    match (by_length, by_levels) {
        (None, None) => None,
        (Some(a), None) => Some(a),
        (None, Some(b)) => Some(b),
        (Some(a), Some(b)) => {
            let mut m = a;
            m.append("; ");
            m.append(b.as_str());
            Some(m)
        },
    }
}

impl Blocklist {
    /// Whether `domain` is listed.
    pub fn contains(&self, domain: &str) -> (r: bool)
        ensures
            r == self@.contains(domain@),
    {
        let target = String::from_str(domain);
        let n = self.domains.len();
        for i in 0..n
            invariant
                n == self.domains@.len(),
                target@ == domain@,
                forall|j: int| 0 <= j < i ==> self.domains@[j]@ != domain@,
        {
            if self.domains[i].eq(&target) {
                assert(texts(self.domains@)[i as int] == domain@);
                return true;
            }
        }
        assert(!texts(self.domains@).contains(domain@));
        false
    }

    /// Whether nothing is listed.
    pub fn is_empty(&self) -> (r: bool)
        ensures
            r == (self@ =~= Set::<Seq<char>>::empty()),
    {
        if self.domains.len() == 0 {
            assert(texts(self.domains@) =~= Seq::<Seq<char>>::empty());
            true
        } else {
            assert(self@.contains(texts(self.domains@)[0]));
            false
        }
    }
}

/// The blocklist verdict for a host that is already lowercased.
pub fn match_known_bad(host_lower: &str, blocklist: &Blocklist) -> (r: Option<String>)
    ensures
        opt_text(r) == known_bad_verdict(host_lower@, blocklist@),
{
    let stripped = strip_www_str(host_lower);
    let domain = if blocklist.contains(stripped) {
        stripped
    } else {
        host_lower
    };
    if blocklist.contains(domain) {
        let mut m = String::from_str("Domain \"");
        m.append(domain);
        m.append("\" matches known-bad blocklist entry");
        Some(m)
    } else {
        None
    }
}

/// Check if the URL's domain matches any entry in the known-bad blocklist.
/// This is signature-based detection - it catches known threats but not new ones.
pub fn check_known_bad(parsed: &ParsedUrl, blocklist: &Blocklist) -> (r: Option<String>)
    ensures
        opt_text(r) == known_bad_flag(parsed@, blocklist@),
{
    match parsed.host_str() {
        Some(host) => {
            let lower = to_lowercase(host);
            match_known_bad(lower.as_str(), blocklist)
        },
        None => None,
    }
}

/// The domains listed by the first lines of a blocklist file, in order.
spec fn listed_entries(lines: Seq<Seq<char>>) -> Seq<Seq<char>>
    decreases lines.len(),
{
    if lines.len() == 0 {
        Seq::empty()
    } else {
        add_flag(listed_entries(lines.drop_last()), blocklist_entry(lines.last()))
    }
}

/// A domain is among the listed entries exactly when some line names it.
proof fn lemma_listed_entries(lines: Seq<Seq<char>>, d: Seq<char>)
    ensures
        listed_entries(lines).contains(d) <==> exists|i: int|
            0 <= i < lines.len() && #[trigger] blocklist_entry(lines[i]) == Some(d),
    decreases lines.len(),
{
    if lines.len() > 0 {
        let init = lines.drop_last();
        lemma_listed_entries(init, d);
        if listed_entries(lines).contains(d) {
            let k = choose|k: int| 0 <= k < listed_entries(lines).len() && listed_entries(lines)[k] == d;
            if k < listed_entries(init).len() {
                assert(listed_entries(init).contains(d));
                let i = choose|i: int| 0 <= i < init.len() && #[trigger] blocklist_entry(init[i]) == Some(d);
                assert(blocklist_entry(lines[i]) == Some(d));
            } else {
                assert(blocklist_entry(lines[lines.len() - 1]) == Some(d));
            }
        }
        if exists|i: int| 0 <= i < lines.len() && #[trigger] blocklist_entry(lines[i]) == Some(d) {
            let i = choose|i: int| 0 <= i < lines.len() && #[trigger] blocklist_entry(lines[i]) == Some(d);
            if i < lines.len() - 1 {
                assert(blocklist_entry(init[i]) == Some(d));
                let k = choose|k: int| 0 <= k < listed_entries(init).len() && listed_entries(init)[k] == d;
                assert(listed_entries(lines)[k] == d);
            } else {
                assert(listed_entries(lines).last() == d);
            }
        }
    }
}

/// Load a blocklist from the text of a blocklist file, where each line is one
/// known-bad domain. Blank lines and lines starting with '#' are ignored.
/// `None` stands for a file that could not be read: it gives an empty list.
pub fn load_blocklist(content: Option<&str>) -> (b: Blocklist)
    ensures
        b@ == match content {
            Some(c) => blocklist_of(c@),
            None => Set::<Seq<char>>::empty(),
        },
{
    let text = match content {
        Some(c) => c,
        None => {
            let b = Blocklist { domains: Vec::new() };
            assert(b@ =~= Set::<Seq<char>>::empty());
            return b;
        },
    };
    let cs = chars_of(text);
    let lines = split_chars(cs.as_slice(), '\n');
    let ghost spec_lines = split_on(text@, '\n');
    let mut domains: Vec<String> = Vec::new();
    let n = lines.len();
    assert(spec_lines.take(0) =~= Seq::<Seq<char>>::empty());
    for i in 0..n
        invariant
            n == lines@.len(),
            n == spec_lines.len(),
            spec_lines == split_on(text@, '\n'),
            forall|k: int| 0 <= k < n ==> #[trigger] lines@[k]@ == spec_lines[k],
            texts(domains@) == listed_entries(spec_lines.take(i as int)),
    {
        let t = trim_chars(lines[i].as_slice());
        let ts = string_of(t.as_slice());
        let lower = to_lowercase(ts.as_str());
        let keep = !lower.as_str().is_empty() && lower.as_str().get_char(0) != '#';
        proof {
            assert(lines@[i as int]@ == spec_lines[i as int]);
            assert(spec_lines.take(i + 1).drop_last() =~= spec_lines.take(i as int));
            assert(keep <==> blocklist_entry(spec_lines[i as int]) is Some);
        }
        let ghost before = domains@;
        if keep {
            domains.push(lower);
            assert(texts(domains@) =~= texts(before).push(lower@));
        }
        assert(texts(domains@) =~= listed_entries(spec_lines.take(i + 1)));
    }
    assert(spec_lines.take(n as int) =~= spec_lines);
    let b = Blocklist { domains };
    assert forall|d: Seq<char>| b@.contains(d) <==> blocklist_of(text@).contains(d) by {
        lemma_listed_entries(spec_lines, d);
    }
    assert(b@ =~= blocklist_of(text@));
    b
}

/// Attempt to normalize a raw URL input.
/// If the user forgets the scheme (e.g. "google.com"), prepend "https://".
pub fn normalize_url(raw: &str) -> (r: String)
    ensures
        r@ == normalized(raw@),
{
    let cs = chars_of(raw);
    let trimmed = trim_chars(cs.as_slice());
    if trimmed.len() == 0 {
        return string_of(trimmed.as_slice());
    }
    // Already has a scheme
    let http = chars_of("http://");
    let https = chars_of("https://");
    if has_prefix(trimmed.as_slice(), http.as_slice()) || has_prefix(
        trimmed.as_slice(),
        https.as_slice(),
    ) {
        return string_of(trimmed.as_slice());
    }
    // Looks like a domain (contains a dot) - prepend https://
    if contains_char(trimmed.as_slice(), '.') && !contains_char(trimmed.as_slice(), ' ') {
        let mut s = String::from_str("https://");
        push_chars(&mut s, trimmed.as_slice());
        return s;
    }
    // Return as-is and let the parser give a proper error
    string_of(trimmed.as_slice())
}

/// The name of what `url::Url::parse` makes of a text: `None` where it
/// rejects it, else the host that the parsed URL reports.
pub uninterp spec fn url_parse(input: Seq<char>) -> Option<ParsedUrlView>;

/// Parses `input` as an absolute URL and keeps what the scanner reads of it.
/// Trusted: `url::Url::parse`, with `Url::host` and `Url::host_str`; the
/// result is named `url_parse`, which depends on the input text alone.
#[verifier::external_body]
fn parse_with_url_crate(input: &str) -> (r: Option<ParsedUrl>)
    ensures
        match r {
            Some(p) => url_parse(input@) == Some(p@),
            None => url_parse(input@) is None,
        },
{
    let u = match url::Url::parse(input) {
        Ok(u) => u,
        Err(_) => return None,
    };
    let host = match (u.host(), u.host_str()) {
        (Some(url::Host::Domain(_)), Some(t)) => Some(UrlHost::Domain(t.to_string())),
        (Some(url::Host::Ipv4(_)), Some(t)) => Some(UrlHost::Ipv4(t.to_string())),
        (Some(url::Host::Ipv6(a)), Some(t)) => Some(UrlHost::Ipv6(t.to_string(), a.to_string())),
        _ => None,
    };
    Some(ParsedUrl { host })
}

/// Parses `input` as an absolute URL, as the scanner does.
pub fn parse_url(input: &str) -> (r: Option<ParsedUrl>)
    ensures
        match r {
            Some(p) => url_parse(input@) == Some(p@),
            None => url_parse(input@) is None,
        },
{
    parse_with_url_crate(input)
}

/// Appends `f` to `flags` where it is present.
fn push_flag(flags: &mut Vec<String>, f: Option<String>)
    ensures
        texts(final(flags)@) == add_flag(texts(old(flags)@), opt_text(f)),
{
    match f {
        Some(t) => {
            let ghost before = flags@;
            let ghost tv = t@;
            flags.push(t);
            assert(texts(flags@) =~= texts(before).push(tv));
        },
        None => {},
    }
}

/// Apply every heuristic to a parsed URL and sum up the result:
/// the flags of every heuristic that fired, their number as the score, and
/// the risk level for that score.
pub fn assess_url(raw: &str, parsed: &ParsedUrl, blocklist: &Blocklist) -> (r: ScanResult)
    ensures
        r@ == assessment(raw@, raw.len() as nat, parsed@, blocklist@),
{
    let mut flags: Vec<String> = Vec::new();
    assert(texts(flags@) =~= Seq::<Seq<char>>::empty());
    push_flag(&mut flags, check_ip_literal(parsed));
    push_flag(&mut flags, check_suspicious_tld(parsed));
    push_flag(&mut flags, check_typosquat(parsed));
    push_flag(&mut flags, check_at_symbol_trick(raw));
    push_flag(&mut flags, check_punycode(parsed));
    push_flag(&mut flags, check_excessive_length(raw, parsed));
    push_flag(&mut flags, check_known_bad(parsed, blocklist));
    let ghost expected = scan_flags(raw@, raw.len() as nat, parsed@, blocklist@);
    assert(texts(flags@) == expected);
    assert(expected.len() <= 7);
    // Calculate risk based on number of flags
    let score = flags.len() as u32;
    let risk = if score == 0 {
        RiskLevel::Low
    } else if score <= 2 {
        RiskLevel::Medium
    } else {
        RiskLevel::High
    };
    ScanResult { risk, score, flags }
}

/// Run all heuristic checks against a URL and return a unified scan result.
///
/// This is the main entry point for the scanner module. It:
/// 1. Validates and parses the URL
/// 2. Runs every heuristic check
/// 3. Collects flags from checks that triggered
/// 4. Calculates a risk score and level based on how many checks flagged
pub fn scan_url(raw: &str, blocklist: &Blocklist) -> (r: Result<ScanResult, ScanError>)
    ensures
        r is Ok <==> (normalized(raw@).len() > 0 && url_parse(normalized(raw@)) is Some),
        match r {
            Ok(res) => res@ == assessment(
                raw@,
                raw.len() as nat,
                url_parse(normalized(raw@))->0,
                blocklist@,
            ),
            Err(ScanError::InvalidUrl(msg)) => if normalized(raw@).len() == 0 {
                msg@ == "URL cannot be empty"@
            } else {
                msg@ == invalid_url_message(raw@)
            },
        },
{
    let normalized = normalize_url(raw);
    // Better error message for empty input
    if normalized.as_str().is_empty() {
        return Err(ScanError::InvalidUrl(String::from_str("URL cannot be empty")));
    }
    // Parse the URL - fail early if it's not valid
    match parse_with_url_crate(normalized.as_str()) {
        None => {
            let mut m = String::from_str("\"");
            m.append(raw);
            m.append("\" is not a valid URL. Example: https://example.com");
            Err(ScanError::InvalidUrl(m))
        },
        Some(parsed) => Ok(assess_url(raw, &parsed, blocklist)),
    }
}

// ---------------------------------------------------------------------------
// Laws
// ---------------------------------------------------------------------------

/// The score of a scan is the number of heuristics that flagged, so it is at most seven.
pub proof fn lemma_score_at_most_seven(
    raw: Seq<char>,
    byte_len: nat,
    p: ParsedUrlView,
    blocklist: Set<Seq<char>>,
)
    ensures
        assessment(raw, byte_len, p, blocklist).score <= 7,
        assessment(raw, byte_len, p, blocklist).score == assessment(
            raw,
            byte_len,
            p,
            blocklist,
        ).flags.len(),
{
}

/// The rank of a risk level: low below medium below high.
pub open spec fn risk_rank(r: RiskLevel) -> nat {
    match r {
        RiskLevel::Low => 0,
        RiskLevel::Medium => 1,
        RiskLevel::High => 2,
    }
}

/// More flags never give a lower risk level.
pub proof fn lemma_risk_monotone(a: nat, b: nat)
    requires
        a <= b,
    ensures
        risk_rank(risk_for(a)) <= risk_rank(risk_for(b)),
{
}

/// Normalizing a normalized input changes nothing.
pub proof fn lemma_normalize_idempotent(raw: Seq<char>)
    ensures
        normalized(normalized(raw)) == normalized(raw),
{
    let t = trim(raw);
    crate::text::lemma_trim_idempotent(raw);
    if t.len() == 0 {
    } else if "http://"@.is_prefix_of(t) || "https://"@.is_prefix_of(t) {
    } else if t.contains('.') && !t.contains(' ') {
        let u = "https://"@ + t;
        reveal_strlit("https://");
        crate::text::lemma_trim_ends(raw);
        assert(u[0] == 'h');
        assert(u.last() == t.last());
        crate::text::lemma_trim_unchanged(u);
        assert("https://"@.is_prefix_of(u)) by {
            assert(u.subrange(0, "https://"@.len() as int) =~= "https://"@);
        }
    } else {
    }
}

/// Where the trimmed input has no scheme but has a dot and no space,
/// normalizing puts "https://" in front of it.
pub proof fn lemma_normalize_adds_scheme(raw: Seq<char>)
    requires
        trim(raw).len() > 0,
        !"http://"@.is_prefix_of(trim(raw)),
        !"https://"@.is_prefix_of(trim(raw)),
        trim(raw).contains('.'),
        !trim(raw).contains(' '),
    ensures
        normalized(raw) == "https://"@ + trim(raw),
        "https://"@.is_prefix_of(normalized(raw)),
{
    assert(("https://"@ + trim(raw)).subrange(0, "https://"@.len() as int) =~= "https://"@);
}

/// An input that already has an http or https scheme, or that has no dot or
/// has a space, is only trimmed by normalizing.
pub proof fn lemma_normalize_keeps_other_inputs(raw: Seq<char>)
    requires
        "http://"@.is_prefix_of(trim(raw)) || "https://"@.is_prefix_of(trim(raw)) || !trim(
            raw,
        ).contains('.') || trim(raw).contains(' '),
    ensures
        normalized(raw) == trim(raw),
{
}

/// An '@' in a query or fragment never raises the '@' flag: the flag always
/// rests on an '@' that comes before every '?' and '#' of the raw text.
pub proof fn lemma_at_flag_before_query(raw: Seq<char>)
    requires
        at_symbol_flag(raw) is Some,
    ensures
        exists|k: int|
            0 <= k < raw.len() && raw[k] == '@' && forall|j: int|
                0 <= j < k ==> #[trigger] raw[j] != '?' && raw[j] != '#',
{
    let a = after_scheme(raw);
    let b = before_path(a);
    // The offset of `a` in `raw`, with no '?' or '#' before it.
    let off: int = match first_index(raw.len(), scheme_separator_at(raw)) {
        Some(pos) => if separates_scheme(raw, pos) {
            pos + 3
        } else {
            0
        },
        None => 0,
    };
    reveal_strlit("://");
    assert(0 <= off <= raw.len() && a =~= raw.skip(off)) by {
        if let Some(pos) = first_index(raw.len(), scheme_separator_at(raw)) {
            crate::text::lemma_first_index_found(raw.len(), scheme_separator_at(raw));
            assert(scheme_separator_at(raw)(pos));
        }
    }
    assert forall|j: int| 0 <= j < off implies #[trigger] raw[j] != '?' && raw[j] != '#' by {
        let pos = first_index(raw.len(), scheme_separator_at(raw))->0;
        crate::text::lemma_first_index_found(raw.len(), scheme_separator_at(raw));
        assert(scheme_separator_at(raw)(pos));
        assert(raw.skip(pos).subrange(0, 3) =~= "://"@);
        assert(separates_scheme(raw, pos));
        if j < pos {
            if first_index(raw.len(), authority_end_at(raw)) is Some {
                crate::text::lemma_first_index_found(raw.len(), authority_end_at(raw));
            } else {
                crate::text::lemma_first_index_none(raw.len(), authority_end_at(raw));
            }
            assert(!authority_end_at(raw)(j));
        } else {
            assert(raw[j] == raw.skip(pos).subrange(0, 3)[j - pos]);
        }
    }
    // The '@' inside the authority part of `a`.
    let kb = choose|kb: int| 0 <= kb < b.len() && b[kb] == '@';
    assert(b[kb] == '@');
    let e = first_index(a.len(), authority_end_at(a));
    if e is Some {
        crate::text::lemma_first_index_found(a.len(), authority_end_at(a));
    } else {
        crate::text::lemma_first_index_none(a.len(), authority_end_at(a));
    }
    assert(b.len() <= a.len());
    assert(a[kb] == '@');
    assert forall|j: int| 0 <= j < kb implies #[trigger] a[j] != '?' && a[j] != '#' by {
        assert(!authority_end_at(a)(j));
    }
    let k = off + kb;
    assert(raw[k] == '@');
    assert forall|j: int| 0 <= j < k implies #[trigger] raw[j] != '?' && raw[j] != '#' by {
        if j >= off {
            assert(raw[j] == a[j - off]);
            assert(a[j - off] != '?' && a[j - off] != '#');
        }
    }
}

/// The '@' in `s` at `k`, with no '/', '?' or '#' before it, lies in the part
/// of `s` before its path.
proof fn lemma_at_before_path(s: Seq<char>, k: int)
    requires
        0 <= k < s.len(),
        s[k] == '@',
        forall|j: int| 0 <= j < k ==> #[trigger] s[j] != '/' && s[j] != '?' && s[j] != '#',
    ensures
        before_path(s).contains('@'),
{
    let pred = authority_end_at(s);
    if first_index(s.len(), pred) is Some {
        crate::text::lemma_first_index_found(s.len(), pred);
        let e = first_index(s.len(), pred)->0;
        assert(pred(e));
        assert(e > k) by {
            if e <= k {
                assert(s[e] != '/' && s[e] != '?' && s[e] != '#');
            }
        }
        assert(s.take(e)[k] == '@');
    } else {
        assert(s[k] == '@');
    }
}

/// An '@' before any '/', '?' or '#' of a text with no "://" in it is in the
/// authority part, and raises the '@' flag.
pub proof fn lemma_at_without_scheme_is_flagged(raw: Seq<char>, k: int)
    requires
        forall|i: int| 0 <= i < raw.len() ==> !"://"@.is_prefix_of(#[trigger] raw.skip(i)),
        0 <= k < raw.len(),
        raw[k] == '@',
        forall|j: int| 0 <= j < k ==> #[trigger] raw[j] != '/' && raw[j] != '?' && raw[j] != '#',
    ensures
        at_symbol_flag(raw) == Some(
            "URL contains '@' symbol - the real destination may be hidden (userinfo trick)"@,
        ),
{
    let pred = scheme_separator_at(raw);
    crate::text::lemma_first_index_none(raw.len(), pred);
    assert forall|j: int| 0 <= j < raw.len() implies !#[trigger] pred(j) by {
        assert(!"://"@.is_prefix_of(raw.skip(j)));
    }
    lemma_at_before_path(raw, k);
}

/// An '@' after the scheme separator "://" and before any later '/', '?' or
/// '#' is in the authority part, and raises the '@' flag, where that "://" is
/// the first one and comes before any '/', '?' or '#'.
pub proof fn lemma_at_after_scheme_is_flagged(raw: Seq<char>, pos: int, k: int)
    requires
        0 <= pos,
        pos + 3 <= k < raw.len(),
        "://"@.is_prefix_of(raw.skip(pos)),
        forall|i: int| 0 <= i < pos ==> !"://"@.is_prefix_of(#[trigger] raw.skip(i)),
        forall|j: int| 0 <= j < pos ==> #[trigger] raw[j] != '/' && raw[j] != '?' && raw[j] != '#',
        raw[k] == '@',
        forall|j: int|
            pos + 3 <= j < k ==> #[trigger] raw[j] != '/' && raw[j] != '?' && raw[j] != '#',
    ensures
        at_symbol_flag(raw) == Some(
            "URL contains '@' symbol - the real destination may be hidden (userinfo trick)"@,
        ),
{
    reveal_strlit("://");
    let sep = scheme_separator_at(raw);
    assert(sep(pos));
    assert forall|j: int| 0 <= j < pos implies !#[trigger] sep(j) by {
        assert(!"://"@.is_prefix_of(raw.skip(j)));
    }
    crate::text::lemma_first_index_some(raw.len(), sep, pos);
    let endp = authority_end_at(raw);
    assert("://"@[0] == ':' && "://"@[1] == '/');
    assert(raw.skip(pos).subrange(0, 3) == "://"@);
    assert(raw.skip(pos).subrange(0, 3)[1] == raw[pos + 1]);
    assert(raw.skip(pos).subrange(0, 3)[0] == raw[pos]);
    assert(raw[pos + 1] == '/' && raw[pos] == ':');
    assert(endp(pos + 1));
    crate::text::lemma_first_index_none(raw.len(), endp);
    crate::text::lemma_first_index_found(raw.len(), endp);
    let e = first_index(raw.len(), endp)->0;
    assert(e > pos) by {
        if e <= pos {
            assert(endp(e));
        }
    }
    assert(separates_scheme(raw, pos));
    let a = raw.skip(pos + 3);
    assert(after_scheme(raw) == a);
    assert forall|j: int| 0 <= j < k - pos - 3 implies #[trigger] a[j] != '/' && a[j] != '?' && a[j]
        != '#' by {
        assert(a[j] == raw[j + pos + 3]);
    }
    lemma_at_before_path(a, k - pos - 3);
}

/// A popular domain itself, with or without "www.", is never flagged as a typosquat.
pub proof fn lemma_popular_domain_not_typosquat(p: ParsedUrlView)
    requires
        host_of(p) is Some,
        popular_domains().contains(strip_www(host_of(p)->0)),
    ensures
        typosquat_flag(p) is None,
{
}

/// A typosquat flag names a popular domain that the host (without "www.")
/// differs from by one or two edits.
pub proof fn lemma_typosquat_is_near_miss(p: ParsedUrlView)
    requires
        typosquat_flag(p) is Some,
    ensures
        exists|i: int|
            0 <= i < popular_domains().len() && 1 <= #[trigger] edit_distance(
                strip_www(host_of(p)->0),
                popular_domains()[i],
            ) <= 2 && popular_domains()[i] != strip_www(host_of(p)->0),
{
    let d = strip_www(host_of(p)->0);
    crate::text::lemma_first_index_found(popular_domains().len(), near_popular(d));
    let i = first_index(popular_domains().len(), near_popular(d))->0;
    assert(near_popular(d)(i));
    assert(popular_domains().contains(popular_domains()[i]));
}

/// A host that ends with any of the listed suspicious TLDs is flagged, and
/// the flag names the first listed TLD that the host ends with; a host that
/// ends with none of them is not flagged.
pub proof fn lemma_suspicious_tld_flags_every_listed_tld(p: ParsedUrlView)
    requires
        host_of(p) is Some,
    ensures
        (exists|i: int|
            0 <= i < suspicious_tlds().len() && #[trigger] suspicious_tlds()[i].is_suffix_of(
                host_of(p)->0,
            )) ==> exists|j: int|
            0 <= j < suspicious_tlds().len() && suspicious_tlds()[j].is_suffix_of(host_of(p)->0)
                && (forall|k: int|
                0 <= k < j ==> !#[trigger] suspicious_tlds()[k].is_suffix_of(host_of(p)->0))
                && suspicious_tld_flag(p) == Some("Suspicious TLD detected: "@ + #[trigger] suspicious_tlds()[j]),
        (forall|i: int|
            0 <= i < suspicious_tlds().len() ==> !#[trigger] suspicious_tlds()[i].is_suffix_of(
                host_of(p)->0,
            )) ==> suspicious_tld_flag(p) is None,
{
    let h = host_of(p)->0;
    let pred = tld_matches(h);
    let n = suspicious_tlds().len();
    crate::text::lemma_first_index_none(n, pred);
    if exists|i: int| 0 <= i < n && #[trigger] suspicious_tlds()[i].is_suffix_of(h) {
        let i = choose|i: int| 0 <= i < n && #[trigger] suspicious_tlds()[i].is_suffix_of(h);
        assert(pred(i));
        crate::text::lemma_first_index_found(n, pred);
        let j = first_index(n, pred)->0;
        assert(pred(j));
        assert forall|k: int| 0 <= k < j implies !#[trigger] suspicious_tlds()[k].is_suffix_of(h) by {
            assert(!pred(k));
        }
    }
    if forall|i: int| 0 <= i < n ==> !#[trigger] suspicious_tlds()[i].is_suffix_of(h) {
        assert forall|j: int| 0 <= j < n implies !#[trigger] pred(j) by {
            assert(!suspicious_tlds()[j].is_suffix_of(h));
        }
    }
}

/// Each of the thirteen abused TLDs, written out, is among those the
/// heuristic flags: a host ending with one of them is flagged.
pub proof fn lemma_suspicious_tld_list(p: ParsedUrlView, tld: Seq<char>)
    requires
        seq![
            ".tk"@, ".ml"@, ".ga"@, ".cf"@, ".gq"@,
            ".xyz"@, ".top"@, ".click"@, ".buzz"@,
            ".rest"@, ".work"@, ".fit"@, ".loan"@,
        ].contains(tld),
        host_of(p) is Some,
        tld.is_suffix_of(host_of(p)->0),
    ensures
        suspicious_tld_flag(p) is Some,
{
    let i = choose|i: int|
        0 <= i < 13 && seq![
            ".tk"@, ".ml"@, ".ga"@, ".cf"@, ".gq"@,
            ".xyz"@, ".top"@, ".click"@, ".buzz"@,
            ".rest"@, ".work"@, ".fit"@, ".loan"@,
        ][i] == tld;
    assert(suspicious_tlds()[i] == tld);
    lemma_suspicious_tld_flags_every_listed_tld(p);
}

/// A host (without "www.") that is not itself a popular domain, and lies one
/// or two edits from some popular domain (whatever the lengths), is flagged
/// as a typosquat of the first such popular domain, with its edit distance.
pub proof fn lemma_near_miss_is_typosquat(p: ParsedUrlView, i: int)
    requires
        host_of(p) is Some,
        !popular_domains().contains(strip_www(host_of(p)->0)),
        0 <= i < popular_domains().len(),
        1 <= edit_distance(strip_www(host_of(p)->0), popular_domains()[i]) <= 2,
    ensures
        exists|j: int|
            0 <= j <= i && 1 <= edit_distance(strip_www(host_of(p)->0), popular_domains()[j]) <= 2
                && (forall|k: int|
                0 <= k < j ==> !(1 <= #[trigger] edit_distance(
                    strip_www(host_of(p)->0),
                    popular_domains()[k],
                ) <= 2)) && typosquat_flag(p) == Some(
                "Possible typosquat: \""@ + strip_www(host_of(p)->0) + "\" is "@ + decimal(
                    edit_distance(strip_www(host_of(p)->0), popular_domains()[j]),
                ) + " edit(s) from \""@ + #[trigger] popular_domains()[j] + "\""@,
            ),
{
    let d = strip_www(host_of(p)->0);
    let pred = near_popular(d);
    let n = popular_domains().len();
    assert(pred(i));
    crate::text::lemma_first_index_none(n, pred);
    crate::text::lemma_first_index_found(n, pred);
    let j = first_index(n, pred)->0;
    assert(pred(j));
    assert forall|k: int| 0 <= k < j implies !(1 <= #[trigger] edit_distance(
        d,
        popular_domains()[k],
    ) <= 2) by {
        assert(!pred(k));
    }
    assert(popular_domains()[j] == popular_domains()[j]);
}

/// Every dot-separated label of the host is examined: where some label starts
/// with "xn--", the Punycode flag names the first such label; where none does,
/// there is no flag.
pub proof fn lemma_punycode_examines_every_label(p: ParsedUrlView)
    requires
        host_of(p) is Some,
    ensures
        (exists|i: int|
            0 <= i < split_on(host_of(p)->0, '.').len() && "xn--"@.is_prefix_of(
                #[trigger] split_on(host_of(p)->0, '.')[i],
            )) ==> exists|j: int|
            0 <= j < split_on(host_of(p)->0, '.').len() && "xn--"@.is_prefix_of(
                split_on(host_of(p)->0, '.')[j],
            ) && (forall|k: int|
                0 <= k < j ==> !"xn--"@.is_prefix_of(#[trigger] split_on(host_of(p)->0, '.')[k]))
                && punycode_flag(p) == Some(
                "Domain contains Punycode label \""@ + #[trigger] split_on(host_of(p)->0, '.')[j]
                    + "\" - possible homograph attack"@,
            ),
        (forall|i: int|
            0 <= i < split_on(host_of(p)->0, '.').len() ==> !"xn--"@.is_prefix_of(
                #[trigger] split_on(host_of(p)->0, '.')[i],
            )) ==> punycode_flag(p) is None,
{
    let labels = split_on(host_of(p)->0, '.');
    let pred = punycode_label_at(labels);
    let n = labels.len();
    crate::text::lemma_first_index_none(n, pred);
    if exists|i: int| 0 <= i < n && "xn--"@.is_prefix_of(#[trigger] labels[i]) {
        let i = choose|i: int| 0 <= i < n && "xn--"@.is_prefix_of(#[trigger] labels[i]);
        assert(pred(i));
        crate::text::lemma_first_index_found(n, pred);
        let j = first_index(n, pred)->0;
        assert(pred(j));
        assert forall|k: int| 0 <= k < j implies !"xn--"@.is_prefix_of(#[trigger] labels[k]) by {
            assert(!pred(k));
        }
    }
    if forall|i: int| 0 <= i < n ==> !"xn--"@.is_prefix_of(#[trigger] labels[i]) {
        assert forall|j: int| 0 <= j < n implies !#[trigger] pred(j) by {
            assert(!"xn--"@.is_prefix_of(labels[j]));
        }
    }
}

/// One for a flag that is there, zero for one that is not.
pub open spec fn count_flag(f: Option<Seq<char>>) -> nat {
    if f is Some {
        1
    } else {
        0
    }
}

/// Appending an optional flag keeps the flags already there, adds the new one
/// where it is present, and grows the list by one exactly then.
proof fn lemma_add_flag(flags: Seq<Seq<char>>, f: Option<Seq<char>>)
    ensures
        forall|t: Seq<char>| flags.contains(t) ==> #[trigger] add_flag(flags, f).contains(t),
        f matches Some(t) ==> add_flag(flags, f).contains(t),
        add_flag(flags, f).len() == flags.len() + count_flag(f),
{
    if let Some(t) = f {
        assert forall|x: Seq<char>| flags.contains(x) implies #[trigger] add_flag(
            flags,
            f,
        ).contains(x) by {
            let k = choose|k: int| 0 <= k < flags.len() && flags[k] == x;
            assert(flags.push(t)[k] == x);
        }
        assert(flags.push(t)[flags.len() as int] == t);
    }
}

/// The flag as a list: one text where it is raised, none where it is not.
pub open spec fn flag_list(f: Option<Seq<char>>) -> Seq<Seq<char>> {
    match f {
        Some(t) => seq![t],
        None => Seq::empty(),
    }
}

/// A scan counts every heuristic: each of the seven flags that is raised is
/// among the flags of the scan, in the order IP literal, suspicious TLD,
/// typosquat, '@', Punycode, excessive length, blocklist; the score is the
/// number of heuristics raised, and the risk is low exactly when none is.
pub proof fn lemma_scan_counts_every_heuristic(
    raw: Seq<char>,
    byte_len: nat,
    p: ParsedUrlView,
    blocklist: Set<Seq<char>>,
)
    ensures
        ip_literal_flag(p) matches Some(t) ==> assessment(raw, byte_len, p, blocklist).flags.contains(t),
        suspicious_tld_flag(p) matches Some(t) ==> assessment(
            raw,
            byte_len,
            p,
            blocklist,
        ).flags.contains(t),
        typosquat_flag(p) matches Some(t) ==> assessment(raw, byte_len, p, blocklist).flags.contains(t),
        at_symbol_flag(raw) matches Some(t) ==> assessment(raw, byte_len, p, blocklist).flags.contains(t),
        punycode_flag(p) matches Some(t) ==> assessment(raw, byte_len, p, blocklist).flags.contains(t),
        excessive_length_flag(byte_len, p) matches Some(t) ==> assessment(
            raw,
            byte_len,
            p,
            blocklist,
        ).flags.contains(t),
        known_bad_flag(p, blocklist) matches Some(t) ==> assessment(
            raw,
            byte_len,
            p,
            blocklist,
        ).flags.contains(t),
        assessment(raw, byte_len, p, blocklist).score == count_flag(ip_literal_flag(p)) + count_flag(
            suspicious_tld_flag(p),
        ) + count_flag(typosquat_flag(p)) + count_flag(at_symbol_flag(raw)) + count_flag(
            punycode_flag(p),
        ) + count_flag(excessive_length_flag(byte_len, p)) + count_flag(known_bad_flag(p, blocklist)),
        (assessment(raw, byte_len, p, blocklist).risk == RiskLevel::Low) <==> assessment(
            raw,
            byte_len,
            p,
            blocklist,
        ).score == 0,
        assessment(raw, byte_len, p, blocklist).flags == flag_list(ip_literal_flag(p)) + flag_list(
            suspicious_tld_flag(p),
        ) + flag_list(typosquat_flag(p)) + flag_list(at_symbol_flag(raw)) + flag_list(
            punycode_flag(p),
        ) + flag_list(excessive_length_flag(byte_len, p)) + flag_list(known_bad_flag(p, blocklist)),
{
    let f0 = add_flag(Seq::empty(), ip_literal_flag(p));
    let f1 = add_flag(f0, suspicious_tld_flag(p));
    let f2 = add_flag(f1, typosquat_flag(p));
    let f3 = add_flag(f2, at_symbol_flag(raw));
    let f4 = add_flag(f3, punycode_flag(p));
    let f5 = add_flag(f4, excessive_length_flag(byte_len, p));
    let f6 = add_flag(f5, known_bad_flag(p, blocklist));
    lemma_add_flag(Seq::empty(), ip_literal_flag(p));
    lemma_add_flag(f0, suspicious_tld_flag(p));
    lemma_add_flag(f1, typosquat_flag(p));
    lemma_add_flag(f2, at_symbol_flag(raw));
    lemma_add_flag(f3, punycode_flag(p));
    lemma_add_flag(f4, excessive_length_flag(byte_len, p));
    lemma_add_flag(f5, known_bad_flag(p, blocklist));
    assert forall|f: Seq<Seq<char>>, o: Option<Seq<char>>| #[trigger] add_flag(f, o) == f
        + flag_list(o) by {
        if let Some(t) = o {
            assert(f.push(t) =~= f + seq![t]);
        } else {
            assert(f + Seq::<Seq<char>>::empty() =~= f);
        }
    }
    assert(Seq::<Seq<char>>::empty() + flag_list(ip_literal_flag(p)) =~= flag_list(
        ip_literal_flag(p),
    ));
}

/// Every line of a blocklist file counts, the last one included: each line
/// that, trimmed and lowercased, is neither blank nor a '#' comment lists
/// that text, and nothing else is listed.
pub proof fn lemma_blocklist_lists_every_line(content: Seq<char>, d: Seq<char>)
    ensures
        blocklist_of(content).contains(d) <==> exists|i: int|
            0 <= i < split_on(content, '\n').len() && d == lowercase(
                trim(#[trigger] split_on(content, '\n')[i]),
            ) && d.len() > 0 && d[0] != '#',
{
    let lines = split_on(content, '\n');
    if blocklist_of(content).contains(d) {
        let i = choose|i: int| 0 <= i < lines.len() && #[trigger] blocklist_entry(lines[i]) == Some(d);
        assert(blocklist_entry(lines[i]) == Some(d));
    }
    if exists|i: int|
        0 <= i < lines.len() && d == lowercase(trim(#[trigger] lines[i])) && d.len() > 0 && d[0]
            != '#' {
        let i = choose|i: int|
            0 <= i < lines.len() && d == lowercase(trim(#[trigger] lines[i])) && d.len() > 0 && d[0]
                != '#';
        assert(blocklist_entry(lines[i]) == Some(d));
    }
}

/// A blocklist file of a single line, with no newline, lists that line's
/// domain where it names one, and nothing else.
pub proof fn lemma_blocklist_single_line(line: Seq<char>, d: Seq<char>)
    requires
        !line.contains('\n'),
    ensures
        blocklist_of(line).contains(d) <==> (d == lowercase(trim(line)) && d.len() > 0 && d[0]
            != '#'),
{
    crate::text::lemma_split_single(line, '\n');
    lemma_blocklist_lists_every_line(line, d);
    assert(split_on(line, '\n')[0] == line);
}

/// Joining two blocklist files with a newline lists what either one lists.
pub proof fn lemma_blocklist_join(a: Seq<char>, b: Seq<char>)
    ensures
        blocklist_of(a + seq!['\n'] + b) == blocklist_of(a).union(blocklist_of(b)),
{
    crate::text::lemma_split_join(a, b, '\n');
    let la = split_on(a, '\n');
    let lb = split_on(b, '\n');
    let l = split_on(a + seq!['\n'] + b, '\n');
    assert(l == la + lb);
    assert forall|d: Seq<char>|
        blocklist_of(a + seq!['\n'] + b).contains(d) <==> blocklist_of(a).union(
            blocklist_of(b),
        ).contains(d) by {
        if blocklist_of(a + seq!['\n'] + b).contains(d) {
            let i = choose|i: int| 0 <= i < l.len() && #[trigger] blocklist_entry(l[i]) == Some(d);
            assert(blocklist_entry(l[i]) == Some(d));
            if i < la.len() {
                assert(l[i] == la[i]);
                assert(blocklist_entry(la[i]) == Some(d));
            } else {
                assert(l[i] == lb[i - la.len()]);
                assert(blocklist_entry(lb[i - la.len()]) == Some(d));
            }
        }
        if blocklist_of(a).contains(d) {
            let i = choose|i: int| 0 <= i < la.len() && #[trigger] blocklist_entry(la[i]) == Some(d);
            assert(l[i] == la[i]);
            assert(blocklist_entry(l[i]) == Some(d));
        }
        if blocklist_of(b).contains(d) {
            let i = choose|i: int| 0 <= i < lb.len() && #[trigger] blocklist_entry(lb[i]) == Some(d);
            assert(l[la.len() + i] == lb[i]);
            assert(blocklist_entry(l[la.len() + i]) == Some(d));
        }
    }
    assert(blocklist_of(a + seq!['\n'] + b) =~= blocklist_of(a).union(blocklist_of(b)));
}

/// An IP address as host is always flagged, naming the address; a domain name
/// or a missing host never is.
pub proof fn lemma_ip_literal_exactly_for_addresses(p: ParsedUrlView)
    ensures
        p.host matches Some(UrlHostView::Ipv4(t)) ==> ip_literal_flag(p) == Some(
            "URL uses raw IPv4 address: "@ + t,
        ),
        p.host matches Some(UrlHostView::Ipv6(_, a)) ==> ip_literal_flag(p) == Some(
            "URL uses raw IPv6 address: "@ + a,
        ),
        ip_literal_flag(p) is Some <==> (p.host matches Some(h) && !(h is Domain)),
{
}

/// The excessive-length heuristic fires exactly for a URL longer than 100
/// bytes or a host of more than three dot-separated levels, giving the
/// length, the levels, or both joined by "; ".
pub proof fn lemma_excessive_length_thresholds(byte_len: nat, p: ParsedUrlView)
    ensures
        excessive_length_flag(byte_len, p) is Some <==> (byte_len > 100 || (host_of(p) matches Some(
            h,
        ) && split_on(h, '.').len() > 3)),
        (byte_len > 100 && !(host_of(p) matches Some(h) && split_on(h, '.').len() > 3))
            ==> excessive_length_flag(byte_len, p) == Some(
            "URL is "@ + decimal(byte_len) + " characters long (threshold: 100)"@,
        ),
        host_of(p) matches Some(h) ==> (split_on(h, '.').len() > 3 ==> excessive_length_flag(
            byte_len,
            p,
        ) == Some(
            if byte_len > 100 {
                "URL is "@ + decimal(byte_len) + " characters long (threshold: 100)"@ + "; "@
            } else {
                Seq::empty()
            } + "Domain has "@ + decimal(split_on(h, '.').len()) + " levels (e.g. \""@ + h
                + "\" - threshold: 3)"@,
        )),
{
    if let Some(h) = host_of(p) {
        if split_on(h, '.').len() > 3 {
            let l = "Domain has "@ + decimal(split_on(h, '.').len()) + " levels (e.g. \""@ + h
                + "\" - threshold: 3)"@;
            assert(Seq::<char>::empty() + l =~= l);
            if byte_len > 100 {
                let a = "URL is "@ + decimal(byte_len) + " characters long (threshold: 100)"@;
                assert(a + "; "@ + l == (a + "; "@) + l);
            }
        }
    }
}

/// A host that, lowercased, is listed (as it stands or without "www.") is
/// flagged, naming the listed domain; a host listed in neither form is not.
pub proof fn lemma_known_bad_exactly_for_listed(p: ParsedUrlView, blocklist: Set<Seq<char>>)
    requires
        host_of(p) is Some,
    ensures
        blocklist.contains(strip_www(lowercase(host_of(p)->0))) ==> known_bad_flag(p, blocklist)
            == Some(
            "Domain \""@ + strip_www(lowercase(host_of(p)->0))
                + "\" matches known-bad blocklist entry"@,
        ),
        !blocklist.contains(strip_www(lowercase(host_of(p)->0))) && blocklist.contains(
            lowercase(host_of(p)->0),
        ) ==> known_bad_flag(p, blocklist) == Some(
            "Domain \""@ + lowercase(host_of(p)->0) + "\" matches known-bad blocklist entry"@,
        ),
        !blocklist.contains(strip_www(lowercase(host_of(p)->0))) && !blocklist.contains(
            lowercase(host_of(p)->0),
        ) ==> known_bad_flag(p, blocklist) is None,
{
}

/// The risk bands: no flag is low risk, one or two medium, three or more high.
pub proof fn lemma_risk_bands(
    raw: Seq<char>,
    byte_len: nat,
    p: ParsedUrlView,
    blocklist: Set<Seq<char>>,
)
    ensures
        assessment(raw, byte_len, p, blocklist).score == 0 ==> assessment(
            raw,
            byte_len,
            p,
            blocklist,
        ).risk == RiskLevel::Low,
        1 <= assessment(raw, byte_len, p, blocklist).score <= 2 ==> assessment(
            raw,
            byte_len,
            p,
            blocklist,
        ).risk == RiskLevel::Medium,
        assessment(raw, byte_len, p, blocklist).score >= 3 ==> assessment(
            raw,
            byte_len,
            p,
            blocklist,
        ).risk == RiskLevel::High,
{
}

/// Each step of the edit distance is no more than one of its three moves.
proof fn lemma_edit_distance_moves(a: Seq<char>, b: Seq<char>)
    requires
        a.len() > 0,
        b.len() > 0,
    ensures
        edit_distance(a, b) <= edit_distance(a.drop_last(), b) + 1,
        edit_distance(a, b) <= edit_distance(a, b.drop_last()) + 1,
        edit_distance(a, b) <= edit_distance(a.drop_last(), b.drop_last()) + if a.last()
            == b.last() {
            0nat
        } else {
            1nat
        },
        edit_distance(a, b) == edit_distance(a.drop_last(), b) + 1 || edit_distance(a, b)
            == edit_distance(a, b.drop_last()) + 1 || edit_distance(a, b) == edit_distance(
            a.drop_last(),
            b.drop_last(),
        ) + if a.last() == b.last() {
            0nat
        } else {
            1nat
        },
{
}

/// A text is no edit away from itself.
proof fn lemma_edit_distance_self(a: Seq<char>)
    ensures
        edit_distance(a, a) == 0,
    decreases a.len(),
{
    if a.len() > 0 {
        lemma_edit_distance_self(a.drop_last());
        lemma_edit_distance_moves(a, a);
    }
}

/// A text is no edit away from itself, and only from itself.
pub proof fn lemma_edit_distance_zero(a: Seq<char>, b: Seq<char>)
    ensures
        edit_distance(a, a) == 0,
        edit_distance(a, b) == 0 ==> a == b,
    decreases a.len() + b.len(),
{
    lemma_edit_distance_self(a);
    if edit_distance(a, b) == 0 {
        if a.len() == 0 || b.len() == 0 {
            assert(a.len() == 0 && b.len() == 0);
            assert(a =~= b);
        } else {
            lemma_edit_distance_moves(a, b);
            lemma_edit_distance_zero(a.drop_last(), b.drop_last());
            assert(a =~= a.drop_last().push(a.last()));
            assert(b =~= b.drop_last().push(b.last()));
        }
    }
}

/// Inserting, deleting or replacing one character is at most one edit.
pub proof fn lemma_one_edit(pre: Seq<char>, post: Seq<char>, c: char, e: char)
    ensures
        edit_distance(pre + seq![c] + post, pre + post) <= 1,
        edit_distance(pre + post, pre + seq![c] + post) <= 1,
        edit_distance(pre + seq![c] + post, pre + seq![e] + post) <= 1,
    decreases post.len(),
{
    let x = pre + seq![c] + post;
    let y = pre + post;
    let z = pre + seq![e] + post;
    if post.len() == 0 {
        assert(x.drop_last() =~= pre);
        assert(y =~= pre);
        assert(z.drop_last() =~= pre);
        lemma_edit_distance_zero(pre, pre);
        if pre.len() > 0 {
            lemma_edit_distance_moves(x, y);
            lemma_edit_distance_moves(y, x);
            lemma_edit_distance_moves(x, z);
        }
    } else {
        let q = post.drop_last();
        lemma_one_edit(pre, q, c, e);
        assert(x.drop_last() =~= pre + seq![c] + q);
        assert(y.drop_last() =~= pre + q);
        assert(z.drop_last() =~= pre + seq![e] + q);
        assert(x.last() == post.last() && y.last() == post.last() && z.last() == post.last());
        lemma_edit_distance_moves(x, y);
        lemma_edit_distance_moves(y, x);
        lemma_edit_distance_moves(x, z);
    }
}

/// A host (without "www.") that one inserted, deleted or replaced character
/// turns into a popular domain, and that is not itself a popular domain, is
/// flagged as a typosquat.
pub proof fn lemma_one_typo_is_typosquat(
    p: ParsedUrlView,
    i: int,
    pre: Seq<char>,
    post: Seq<char>,
    c: char,
    e: char,
)
    requires
        host_of(p) is Some,
        !popular_domains().contains(strip_www(host_of(p)->0)),
        0 <= i < popular_domains().len(),
        (strip_www(host_of(p)->0) == pre + seq![c] + post && popular_domains()[i] == pre + post)
            || (strip_www(host_of(p)->0) == pre + post && popular_domains()[i] == pre + seq![c]
            + post) || (strip_www(host_of(p)->0) == pre + seq![c] + post && popular_domains()[i]
            == pre + seq![e] + post),
    ensures
        typosquat_flag(p) is Some,
{
    let d = strip_www(host_of(p)->0);
    lemma_one_edit(pre, post, c, e);
    lemma_edit_distance_zero(d, popular_domains()[i]);
    assert(popular_domains().contains(popular_domains()[i]));
    lemma_near_miss_is_typosquat(p, i);
}

/// Each of the fifteen well-known domains, written out, is guarded: a host
/// (without "www.") one or two edits from one of them, and not itself one of
/// them, is flagged as a typosquat.
pub proof fn lemma_popular_domain_list(p: ParsedUrlView, legit: Seq<char>)
    requires
        host_of(p) is Some,
        seq![
            "google.com"@, "facebook.com"@, "amazon.com"@, "apple.com"@, "microsoft.com"@,
            "paypal.com"@, "netflix.com"@, "instagram.com"@, "twitter.com"@, "linkedin.com"@,
            "github.com"@, "yahoo.com"@, "chase.com"@, "wellsfargo.com"@, "bankofamerica.com"@,
        ].contains(legit),
        !seq![
            "google.com"@, "facebook.com"@, "amazon.com"@, "apple.com"@, "microsoft.com"@,
            "paypal.com"@, "netflix.com"@, "instagram.com"@, "twitter.com"@, "linkedin.com"@,
            "github.com"@, "yahoo.com"@, "chase.com"@, "wellsfargo.com"@, "bankofamerica.com"@,
        ].contains(strip_www(host_of(p)->0)),
        1 <= edit_distance(strip_www(host_of(p)->0), legit) <= 2,
    ensures
        typosquat_flag(p) is Some,
{
    let listed = seq![
        "google.com"@, "facebook.com"@, "amazon.com"@, "apple.com"@, "microsoft.com"@,
        "paypal.com"@, "netflix.com"@, "instagram.com"@, "twitter.com"@, "linkedin.com"@,
        "github.com"@, "yahoo.com"@, "chase.com"@, "wellsfargo.com"@, "bankofamerica.com"@,
    ];
    assert(popular_domains() == listed);
    let i = choose|i: int| 0 <= i < listed.len() && listed[i] == legit;
    lemma_near_miss_is_typosquat(p, i);
}

/// Blank lines and '#' comments never become blocklist entries.
pub proof fn lemma_blocklist_has_no_comments(content: Seq<char>, d: Seq<char>)
    requires
        blocklist_of(content).contains(d),
    ensures
        d.len() > 0,
        d[0] != '#',
{
    let lines = split_on(content, '\n');
    let i = choose|i: int| 0 <= i < lines.len() && #[trigger] blocklist_entry(lines[i]) == Some(d);
    assert(blocklist_entry(lines[i]) == Some(d));
}

} // verus!
