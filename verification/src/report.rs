//! What the command-line front end shows and decides: the texts of scan
//! results and of resolved mappings, and the action chosen in the menu.
use vstd::prelude::*;

use crate::scanner::{opt_text, RiskLevel, ScanResult, ScanResultView, texts};
use crate::shortener::{UrlMapping, UrlMappingView};
use crate::text::{decimal, push_decimal};

verus! {

broadcast use vstd::string::group_string_axioms;

/// The label of a risk level in a scan report.
pub open spec fn risk_label(r: RiskLevel) -> Seq<char> {
    match r {
        RiskLevel::Low => "LOW RISK"@,
        RiskLevel::Medium => "MEDIUM RISK"@,
        RiskLevel::High => "HIGH RISK"@,
    }
}

/// The name of a risk level in a resolved mapping.
pub open spec fn risk_name(r: RiskLevel) -> Seq<char> {
    match r {
        RiskLevel::Low => "Low"@,
        RiskLevel::Medium => "Medium"@,
        RiskLevel::High => "High"@,
    }
}

/// One line per flag, each made of `bullet`, the flag and a line break.
pub open spec fn flag_lines(flags: Seq<Seq<char>>, bullet: Seq<char>) -> Seq<char>
    decreases flags.len(),
{
    if flags.len() == 0 {
        Seq::empty()
    } else {
        flag_lines(flags.drop_last(), bullet) + bullet + flags.last() + "\n"@
    }
}

/// The text shown for a scan result.
pub open spec fn scan_report(r: ScanResultView) -> Seq<char> {
    let head = "\n["@ + risk_label(r.risk) + "] Score: "@ + decimal(r.score) + "/7\n"@;
    if r.flags.len() == 0 {
        head + "No threats detected.\n"@
    } else {
        head + "\nFlags:\n"@ + flag_lines(r.flags, "  ! "@)
    }
}

/// The text shown for a resolved mapping.
pub open spec fn mapping_report(m: UrlMappingView) -> Seq<char> {
    let head = "\nCode:    "@ + m.code + "\nURL:     "@ + m.original_url + "\nRisk:    "@ + risk_name(
        m.scan_result.risk,
    ) + " ("@ + decimal(m.scan_result.score) + "/7)\n"@;
    let flags = if m.scan_result.flags.len() == 0 {
        Seq::empty()
    } else {
        "Flags:\n"@ + flag_lines(m.scan_result.flags, "  ! "@)
    };
    head + flags + "Created: "@ + m.created_at + "\n"@
}

/// Appends one line per flag to `s`.
fn push_flag_lines(s: &mut String, flags: &Vec<String>, bullet: &str)
    ensures
        final(s)@ == old(s)@ + flag_lines(texts(flags@), bullet@),
{
    let n = flags.len();
    let ghost start = s@;
    assert(texts(flags@).take(0) =~= Seq::<Seq<char>>::empty());
    for i in 0..n
        invariant
            n == flags@.len(),
            s@ == start + flag_lines(texts(flags@).take(i as int), bullet@),
    {
        s.append(bullet);
        s.append(flags[i].as_str());
        s.append("\n");
        assert(texts(flags@).take(i + 1).drop_last() =~= texts(flags@).take(i as int));
        assert(s@ =~= start + flag_lines(texts(flags@).take(i + 1), bullet@));
    }
    assert(texts(flags@).take(n as int) =~= texts(flags@));
}

/// The label of a risk level in a scan report.
fn push_risk_label(s: &mut String, r: RiskLevel)
    ensures
        final(s)@ == old(s)@ + risk_label(r),
{
    match r {
        RiskLevel::Low => s.append("LOW RISK"),
        RiskLevel::Medium => s.append("MEDIUM RISK"),
        RiskLevel::High => s.append("HIGH RISK"),
    }
}

/// The name of a risk level in a resolved mapping.
fn push_risk_name(s: &mut String, r: RiskLevel)
    ensures
        final(s)@ == old(s)@ + risk_name(r),
{
    match r {
        RiskLevel::Low => s.append("Low"),
        RiskLevel::Medium => s.append("Medium"),
        RiskLevel::High => s.append("High"),
    }
}

/// Format a scan result for the terminal.
pub fn render_scan_result(result: &ScanResult) -> (text: String)
    ensures
        text@ == scan_report(result@),
{
    let mut s = String::from_str("\n[");
    push_risk_label(&mut s, result.risk);
    s.append("] Score: ");
    push_decimal(&mut s, result.score as u64);
    s.append("/7\n");
    if result.flags.len() == 0 {
        s.append("No threats detected.\n");
    } else {
        s.append("\nFlags:\n");
        push_flag_lines(&mut s, &result.flags, "  ! ");
    }
    assert(s@ =~= scan_report(result@));
    s
}

/// Format a resolved mapping for the terminal.
pub fn render_mapping(m: &UrlMapping) -> (text: String)
    ensures
        text@ == mapping_report(m@),
{
    let mut s = String::from_str("\nCode:    ");
    s.append(m.code.as_str());
    s.append("\nURL:     ");
    s.append(m.original_url.as_str());
    s.append("\nRisk:    ");
    push_risk_name(&mut s, m.scan_result.risk);
    s.append(" (");
    push_decimal(&mut s, m.scan_result.score as u64);
    s.append("/7)\n");
    if m.scan_result.flags.len() != 0 {
        s.append("Flags:\n");
        push_flag_lines(&mut s, &m.scan_result.flags, "  ! ");
    }
    s.append("Created: ");
    s.append(m.created_at.as_str());
    s.append("\n");
    assert(s@ =~= mapping_report(m@));
    s
}

/// What the interactive menu does next.
#[derive(Debug, Clone, Copy, PartialEq, Eq, Structural)]
pub enum MenuAction {
    /// Ask for a URL and scan it.
    Scan,
    /// Ask for a URL, scan it and shorten it.
    Shorten,
    /// Ask for a short code and resolve it.
    Resolve,
    /// Say goodbye and leave the menu.
    Exit,
}

/// The action for the entry picked in the menu ("Scan a URL", "Shorten a URL",
/// "Resolve a short code", "Exit", in that order); `None` where the menu
/// could not be shown or read, which ends the session.
pub fn menu_action(selection: Option<usize>) -> (a: MenuAction)
    requires
        selection matches Some(i) ==> i < 4,
    ensures
        a == match selection {
            Some(0) => MenuAction::Scan,
            Some(1) => MenuAction::Shorten,
            Some(2) => MenuAction::Resolve,
            _ => MenuAction::Exit,
        },
{
    match selection {
        Some(0) => MenuAction::Scan,
        Some(1) => MenuAction::Shorten,
        Some(2) => MenuAction::Resolve,
        _ => MenuAction::Exit,
    }
}

/// Where the interactive session stands.
#[derive(Debug, Clone, Copy, PartialEq, Eq, Structural)]
pub enum MenuState {
    /// The menu is shown and a choice is awaited.
    Choosing,
    /// The input for the chosen action is asked for.
    Asking(MenuAction),
    /// The chosen command runs.
    Running,
    /// The session is over.
    Closed,
}

/// What the terminal reported back to the session.
#[derive(Debug, Clone, PartialEq, Eq)]
pub enum MenuEvent {
    /// The index of the menu entry picked, or `None` where the menu failed.
    Picked(Option<usize>),
    /// The text typed in, or `None` where the prompt failed.
    Answered(Option<String>),
    /// How the command ended: its error message, if any.
    Finished(Option<String>),
}

/// What the session asks the terminal to do next.
#[derive(Debug, Clone, PartialEq, Eq)]
pub enum MenuEffect {
    /// Show the menu.
    ShowMenu,
    /// Print the error, if any, then a blank line, then show the menu.
    ReportAndShowMenu(Option<String>),
    /// Ask for one line of input with this prompt.
    Ask(String),
    /// Scan the URL.
    Scan(String),
    /// Scan and shorten the URL.
    Shorten(String),
    /// Resolve the short code.
    Resolve(String),
    /// Say goodbye; the session ends.
    Goodbye,
}

/// The mathematical content of a `MenuEvent`.
pub enum MenuEventView {
    Picked(Option<usize>),
    Answered(Option<Seq<char>>),
    Finished(Option<Seq<char>>),
}

/// The mathematical content of a `MenuEffect`.
pub enum MenuEffectView {
    ShowMenu,
    ReportAndShowMenu(Option<Seq<char>>),
    Ask(Seq<char>),
    Scan(Seq<char>),
    Shorten(Seq<char>),
    Resolve(Seq<char>),
    Goodbye,
}

impl View for MenuEvent {
    type V = MenuEventView;

    open spec fn view(&self) -> MenuEventView {
        match self {
            MenuEvent::Picked(i) => MenuEventView::Picked(*i),
            MenuEvent::Answered(t) => MenuEventView::Answered(opt_text(*t)),
            MenuEvent::Finished(e) => MenuEventView::Finished(opt_text(*e)),
        }
    }
}

impl View for MenuEffect {
    type V = MenuEffectView;

    open spec fn view(&self) -> MenuEffectView {
        match self {
            MenuEffect::ShowMenu => MenuEffectView::ShowMenu,
            MenuEffect::ReportAndShowMenu(e) => MenuEffectView::ReportAndShowMenu(opt_text(*e)),
            MenuEffect::Ask(p) => MenuEffectView::Ask(p@),
            MenuEffect::Scan(u) => MenuEffectView::Scan(u@),
            MenuEffect::Shorten(u) => MenuEffectView::Shorten(u@),
            MenuEffect::Resolve(c) => MenuEffectView::Resolve(c@),
            MenuEffect::Goodbye => MenuEffectView::Goodbye,
        }
    }
}

/// The prompt for the input of an action.
pub open spec fn prompt_for(a: MenuAction) -> Seq<char> {
    match a {
        MenuAction::Scan => "Enter URL to scan"@,
        MenuAction::Shorten => "Enter URL to shorten"@,
        _ => "Enter short code"@,
    }
}

/// Whether `event` is what the terminal can report in `state`.
pub open spec fn event_fits(state: MenuState, event: MenuEventView) -> bool {
    match (state, event) {
        (MenuState::Choosing, MenuEventView::Picked(sel)) => sel matches Some(i) ==> i < 4,
        (MenuState::Asking(a), MenuEventView::Answered(_)) => a != MenuAction::Exit,
        (MenuState::Running, MenuEventView::Finished(_)) => true,
        _ => false,
    }
}

/// The next state and effect of the session: a failed menu or "Exit" ends it,
/// a failed prompt goes back to the menu, an answer runs the command, and the
/// end of a command reports its error, if any, and goes back to the menu.
pub open spec fn menu_next(state: MenuState, event: MenuEventView) -> (MenuState, MenuEffectView) {
    match (state, event) {
        (MenuState::Choosing, MenuEventView::Picked(sel)) => {
            let a = match sel {
                Some(0) => MenuAction::Scan,
                Some(1) => MenuAction::Shorten,
                Some(2) => MenuAction::Resolve,
                _ => MenuAction::Exit,
            };
            if a == MenuAction::Exit {
                (MenuState::Closed, MenuEffectView::Goodbye)
            } else {
                (MenuState::Asking(a), MenuEffectView::Ask(prompt_for(a)))
            }
        },
        (MenuState::Asking(_), MenuEventView::Answered(None)) => (
            MenuState::Choosing,
            MenuEffectView::ShowMenu,
        ),
        (MenuState::Asking(a), MenuEventView::Answered(Some(text))) => (
            MenuState::Running,
            match a {
                MenuAction::Scan => MenuEffectView::Scan(text),
                MenuAction::Shorten => MenuEffectView::Shorten(text),
                _ => MenuEffectView::Resolve(text),
            },
        ),
        (_, MenuEventView::Finished(err)) => (
            MenuState::Choosing,
            MenuEffectView::ReportAndShowMenu(err),
        ),
        _ => (MenuState::Closed, MenuEffectView::Goodbye),
    }
}

/// One step of the interactive session, from what the terminal reported.
pub fn menu_step(state: MenuState, event: MenuEvent) -> (r: (MenuState, MenuEffect))
    requires
        event_fits(state, event@),
    ensures
        (r.0, r.1@) == menu_next(state, event@),
{
    match event {
        MenuEvent::Picked(selection) => {
            let a = menu_action(selection);
            match a {
                MenuAction::Scan => (
                    MenuState::Asking(a),
                    MenuEffect::Ask(String::from_str("Enter URL to scan")),
                ),
                MenuAction::Shorten => (
                    MenuState::Asking(a),
                    MenuEffect::Ask(String::from_str("Enter URL to shorten")),
                ),
                MenuAction::Resolve => (
                    MenuState::Asking(a),
                    MenuEffect::Ask(String::from_str("Enter short code")),
                ),
                MenuAction::Exit => (MenuState::Closed, MenuEffect::Goodbye),
            }
        },
        MenuEvent::Answered(None) => (MenuState::Choosing, MenuEffect::ShowMenu),
        MenuEvent::Answered(Some(text)) => {
            let effect = match state {
                MenuState::Asking(MenuAction::Scan) => MenuEffect::Scan(text),
                MenuState::Asking(MenuAction::Shorten) => MenuEffect::Shorten(text),
                _ => MenuEffect::Resolve(text),
            };
            (MenuState::Running, effect)
        },
        MenuEvent::Finished(err) => (MenuState::Choosing, MenuEffect::ReportAndShowMenu(err)),
    }
}

// ---------------------------------------------------------------------------
// Laws
// ---------------------------------------------------------------------------

/// The lines of the first flags begin the lines of all the flags.
proof fn lemma_flag_lines_prefix(flags: Seq<Seq<char>>, bullet: Seq<char>, i: int)
    requires
        0 <= i <= flags.len(),
    ensures
        flag_lines(flags.take(i), bullet).len() <= flag_lines(flags, bullet).len(),
        flag_lines(flags, bullet).subrange(0, flag_lines(flags.take(i), bullet).len() as int)
            == flag_lines(flags.take(i), bullet),
    decreases flags.len() - i,
{
    if i == flags.len() {
        assert(flags.take(i) =~= flags);
        assert(flag_lines(flags, bullet).subrange(0, flag_lines(flags, bullet).len() as int)
            =~= flag_lines(flags, bullet));
    } else {
        lemma_flag_lines_prefix(flags, bullet, i + 1);
        let a = flag_lines(flags.take(i), bullet);
        let b = flag_lines(flags.take(i + 1), bullet);
        let all = flag_lines(flags, bullet);
        assert(flags.take(i + 1).drop_last() =~= flags.take(i));
        assert(b == a + bullet + flags[i] + "\n"@);
        assert(all.subrange(0, a.len() as int) =~= b.subrange(0, a.len() as int));
        assert(b.subrange(0, a.len() as int) =~= a);
    }
}

/// The `i`-th flag has a line of its own among the flag lines: the bullet,
/// the flag and a line break, starting at `k`.
proof fn lemma_flag_line_present(flags: Seq<Seq<char>>, bullet: Seq<char>, i: int) -> (k: int)
    requires
        0 <= i < flags.len(),
    ensures
        0 <= k,
        k + (bullet + flags[i] + "\n"@).len() <= flag_lines(flags, bullet).len(),
        flag_lines(flags, bullet).subrange(k, k + (bullet + flags[i] + "\n"@).len())
            == bullet + flags[i] + "\n"@,
{
    lemma_flag_lines_prefix(flags, bullet, i + 1);
    let a = flag_lines(flags.take(i), bullet);
    let b = flag_lines(flags.take(i + 1), bullet);
    let all = flag_lines(flags, bullet);
    let line = bullet + flags[i] + "\n"@;
    assert(flags.take(i + 1).drop_last() =~= flags.take(i));
    assert(flags.take(i + 1).last() == flags[i]);
    assert(b =~= a + line);
    let k = a.len() as int;
    assert(all.subrange(k, k + line.len()) =~= b.subrange(k, k + line.len()));
    assert(b.subrange(k, k + line.len()) =~= line);
    k
}

/// Every flag of a scan result is shown in its report, on a line of its own
/// that starts with "  ! "; a result without flags reports no threats.
pub proof fn lemma_scan_report_shows_every_flag(r: ScanResultView, i: int)
    requires
        0 <= i < r.flags.len(),
    ensures
        exists|k: int|
            0 <= k && k + ("  ! "@ + r.flags[i] + "\n"@).len() <= scan_report(r).len()
                && #[trigger] scan_report(r).subrange(k, k + ("  ! "@ + r.flags[i] + "\n"@).len())
                == "  ! "@ + r.flags[i] + "\n"@,
{
    let k = lemma_flag_line_present(r.flags, "  ! "@, i);
    let head = "\n["@ + risk_label(r.risk) + "] Score: "@ + decimal(r.score) + "/7\n"@;
    let pre = head + "\nFlags:\n"@;
    let fl = flag_lines(r.flags, "  ! "@);
    let line = "  ! "@ + r.flags[i] + "\n"@;
    assert(scan_report(r) == pre + fl);
    let j = pre.len() + k;
    assert((pre + fl).subrange(j, j + line.len()) =~= fl.subrange(k, k + line.len()));
}

/// Every flag of a stored scan result is shown when the mapping is resolved,
/// on a line of its own that starts with "  ! ".
pub proof fn lemma_mapping_report_shows_every_flag(m: UrlMappingView, i: int)
    requires
        0 <= i < m.scan_result.flags.len(),
    ensures
        exists|k: int|
            0 <= k && k + ("  ! "@ + m.scan_result.flags[i] + "\n"@).len() <= mapping_report(m).len()
                && #[trigger] mapping_report(m).subrange(
                k,
                k + ("  ! "@ + m.scan_result.flags[i] + "\n"@).len(),
            ) == "  ! "@ + m.scan_result.flags[i] + "\n"@,
{
    let flags = m.scan_result.flags;
    let k = lemma_flag_line_present(flags, "  ! "@, i);
    let head = "\nCode:    "@ + m.code + "\nURL:     "@ + m.original_url + "\nRisk:    "@ + risk_name(
        m.scan_result.risk,
    ) + " ("@ + decimal(m.scan_result.score) + "/7)\n"@;
    let fl = flag_lines(flags, "  ! "@);
    let tail = "Created: "@ + m.created_at + "\n"@;
    let pre = head + "Flags:\n"@;
    let line = "  ! "@ + flags[i] + "\n"@;
    assert(mapping_report(m) =~= pre + fl + tail);
    let j = pre.len() + k;
    assert((pre + fl + tail).subrange(j, j + line.len()) =~= fl.subrange(k, k + line.len()));
}

/// The session ends only where the menu failed or "Exit" was picked; a failed
/// prompt or a command's error goes back to the menu, reporting the error; an
/// answer is handed unchanged to the command that was chosen.
pub proof fn lemma_menu_session(state: MenuState, event: MenuEventView)
    requires
        event_fits(state, event),
    ensures
        (menu_next(state, event).0 == MenuState::Closed) <==> (state == MenuState::Choosing && (
        event == MenuEventView::Picked(None) || event == MenuEventView::Picked(Some(3usize)))),
        event matches MenuEventView::Finished(err) ==> menu_next(state, event) == (
            MenuState::Choosing,
            MenuEffectView::ReportAndShowMenu(err),
        ),
        event == MenuEventView::Answered(None) ==> menu_next(state, event).0 == MenuState::Choosing,
        event matches MenuEventView::Answered(Some(t)) ==> (state == MenuState::Asking(
            MenuAction::Scan,
        ) ==> menu_next(state, event).1 == MenuEffectView::Scan(t)),
        event matches MenuEventView::Answered(Some(t)) ==> (state == MenuState::Asking(
            MenuAction::Shorten,
        ) ==> menu_next(state, event).1 == MenuEffectView::Shorten(t)),
        event matches MenuEventView::Answered(Some(t)) ==> (state == MenuState::Asking(
            MenuAction::Resolve,
        ) ==> menu_next(state, event).1 == MenuEffectView::Resolve(t)),
{
}

} // verus!
