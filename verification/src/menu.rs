//! The interactive console: what each typed choice selects in the main,
//! core and security menus, and how the serve domain is read and entered.

use vstd::prelude::*;
use crate::text::{trim, trim_str, starts_with, occurs_at, opt_view, trimmed, lemma_trim_result, lemma_trim_trimmed};
use crate::prompt::{eq_ignore_case, eq_ignore_case_str, signed_text, parse_i32};

verus! {

/// Whether the trimmed input is `c`, up to ASCII case.
pub open spec fn typed(input: Seq<char>, c: Seq<char>) -> bool {
    eq_ignore_case(trim(input), c)
}

fn is_typed(t: &str, c: &str) -> (r: bool)
    ensures
        r == eq_ignore_case(t@, c@),
{
    eq_ignore_case_str(t, c)
}

/// What a choice in the main menu selects.
#[derive(Debug, PartialEq, Eq, Structural, Clone, Copy)]
pub enum MainChoice {
    Quit,
    Core,
    Security,
    Danger,
    DangerUnavailable,
    SetDomain,
    Refresh,
    Invalid,
}

/// The main menu: `0`/`q` quit, `1` core, `2` security, `3` the danger
/// notice (only with scan data), `d` domain, `h` redraw.
pub open spec fn spec_main_choice(input: Seq<char>, has_data: bool) -> MainChoice {
    if typed(input, "0"@) || typed(input, "q"@) {
        MainChoice::Quit
    } else if typed(input, "1"@) {
        MainChoice::Core
    } else if typed(input, "2"@) {
        MainChoice::Security
    } else if typed(input, "3"@) {
        if has_data {
            MainChoice::Danger
        } else {
            MainChoice::DangerUnavailable
        }
    } else if typed(input, "d"@) {
        MainChoice::SetDomain
    } else if typed(input, "h"@) {
        MainChoice::Refresh
    } else {
        MainChoice::Invalid
    }
}

/// What a choice in the main menu selects (see `spec_main_choice`).
pub fn main_choice(input: &str, has_data: bool) -> (r: MainChoice)
    ensures
        r == spec_main_choice(input@, has_data),
{
    let t = trim_str(input);
    if is_typed(t, "0") || is_typed(t, "q") {
        MainChoice::Quit
    } else if is_typed(t, "1") {
        MainChoice::Core
    } else if is_typed(t, "2") {
        MainChoice::Security
    } else if is_typed(t, "3") {
        if has_data {
            MainChoice::Danger
        } else {
            MainChoice::DangerUnavailable
        }
    } else if is_typed(t, "d") {
        MainChoice::SetDomain
    } else if is_typed(t, "h") {
        MainChoice::Refresh
    } else {
        MainChoice::Invalid
    }
}

/// What a choice in the core menu selects.
#[derive(Debug, PartialEq, Eq, Structural, Clone, Copy)]
pub enum CoreChoice {
    Back,
    Help,
    SetDomain,
    Scan,
    ShowChanges,
    SyncContracts,
    PullPatch,
    LaunchServer,
    GenerateMap,
    HealthCheck,
    StopServer,
    RestartServer,
    SyncRepos,
    Watch,
    Invalid,
}

/// The core menu: `0` back, `h` redraw, `d` domain; `1` scan, `7` health,
/// `r` repo sync and `w` watch always; `2`..`6`, `8` and `9` only with
/// scan data.
pub open spec fn spec_core_choice(input: Seq<char>, has_data: bool) -> CoreChoice {
    if typed(input, "0"@) {
        CoreChoice::Back
    } else if typed(input, "h"@) {
        CoreChoice::Help
    } else if typed(input, "d"@) {
        CoreChoice::SetDomain
    } else if typed(input, "1"@) {
        CoreChoice::Scan
    } else if typed(input, "7"@) {
        CoreChoice::HealthCheck
    } else if typed(input, "r"@) {
        CoreChoice::SyncRepos
    } else if typed(input, "w"@) {
        CoreChoice::Watch
    } else if !has_data {
        CoreChoice::Invalid
    } else if typed(input, "2"@) {
        CoreChoice::ShowChanges
    } else if typed(input, "3"@) {
        CoreChoice::SyncContracts
    } else if typed(input, "4"@) {
        CoreChoice::PullPatch
    } else if typed(input, "5"@) {
        CoreChoice::LaunchServer
    } else if typed(input, "6"@) {
        CoreChoice::GenerateMap
    } else if typed(input, "8"@) {
        CoreChoice::StopServer
    } else if typed(input, "9"@) {
        CoreChoice::RestartServer
    } else {
        CoreChoice::Invalid
    }
}

/// What a choice in the core menu selects (see `spec_core_choice`).
pub fn core_choice(input: &str, has_data: bool) -> (r: CoreChoice)
    ensures
        r == spec_core_choice(input@, has_data),
{
    let t = trim_str(input);
    if is_typed(t, "0") {
        CoreChoice::Back
    } else if is_typed(t, "h") {
        CoreChoice::Help
    } else if is_typed(t, "d") {
        CoreChoice::SetDomain
    } else if is_typed(t, "1") {
        CoreChoice::Scan
    } else if is_typed(t, "7") {
        CoreChoice::HealthCheck
    } else if is_typed(t, "r") {
        CoreChoice::SyncRepos
    } else if is_typed(t, "w") {
        CoreChoice::Watch
    } else if !has_data {
        CoreChoice::Invalid
    } else if is_typed(t, "2") {
        CoreChoice::ShowChanges
    } else if is_typed(t, "3") {
        CoreChoice::SyncContracts
    } else if is_typed(t, "4") {
        CoreChoice::PullPatch
    } else if is_typed(t, "5") {
        CoreChoice::LaunchServer
    } else if is_typed(t, "6") {
        CoreChoice::GenerateMap
    } else if is_typed(t, "8") {
        CoreChoice::StopServer
    } else if is_typed(t, "9") {
        CoreChoice::RestartServer
    } else {
        CoreChoice::Invalid
    }
}

/// What a choice in the security menu selects.
#[derive(Debug, PartialEq, Eq, Structural, Clone, Copy)]
pub enum SecurityChoice {
    Back,
    Help,
    SetDomain,
    TotpSetup,
    Visibility,
    Keygen,
    Invalid,
}

/// The security menu: `0` back, `h` redraw, `d` domain, `1` TOTP setup;
/// `2` visibility and `3` key generation only with scan data.
pub open spec fn spec_security_choice(input: Seq<char>, has_data: bool) -> SecurityChoice {
    if typed(input, "0"@) {
        SecurityChoice::Back
    } else if typed(input, "h"@) {
        SecurityChoice::Help
    } else if typed(input, "d"@) {
        SecurityChoice::SetDomain
    } else if typed(input, "1"@) {
        SecurityChoice::TotpSetup
    } else if has_data && typed(input, "2"@) {
        SecurityChoice::Visibility
    } else if has_data && typed(input, "3"@) {
        SecurityChoice::Keygen
    } else {
        SecurityChoice::Invalid
    }
}

/// What a choice in the security menu selects (see `spec_security_choice`).
pub fn security_choice(input: &str, has_data: bool) -> (r: SecurityChoice)
    ensures
        r == spec_security_choice(input@, has_data),
{
    let t = trim_str(input);
    if is_typed(t, "0") {
        SecurityChoice::Back
    } else if is_typed(t, "h") {
        SecurityChoice::Help
    } else if is_typed(t, "d") {
        SecurityChoice::SetDomain
    } else if is_typed(t, "1") {
        SecurityChoice::TotpSetup
    } else if has_data && is_typed(t, "2") {
        SecurityChoice::Visibility
    } else if has_data && is_typed(t, "3") {
        SecurityChoice::Keygen
    } else {
        SecurityChoice::Invalid
    }
}

/// `s` without its leading `c` characters.
pub open spec fn strip_leading(s: Seq<char>, c: char) -> Seq<char>
    decreases s.len(),
{
    if s.len() > 0 && s[0] == c {
        strip_leading(s.skip(1), c)
    } else {
        s
    }
}

/// The domain saved for an entered one: none when the entry is blank; the
/// trimmed entry when it names `http://` or `https://`; otherwise `https://`
/// before the entry without its leading slashes.
pub open spec fn spec_normalize_domain(input: Seq<char>) -> Option<Seq<char>> {
    let t = trim(input);
    if t.len() == 0 {
        None
    } else if occurs_at(t, "http://"@, 0) || occurs_at(t, "https://"@, 0) {
        Some(t)
    } else {
        Some("https://"@ + strip_leading(t, '/'))
    }
}

/// The domain saved for an entered one (see `spec_normalize_domain`).
pub fn normalize_domain(input: &str) -> (r: Option<String>)
    ensures
        opt_view(r) == spec_normalize_domain(input@),
{
    let t = trim_str(input);
    let n = t.unicode_len();
    if n == 0 {
        return None;
    }
    if starts_with(t, "http://") || starts_with(t, "https://") {
        return Some(String::from_str(t));
    }
    let mut a: usize = 0;
    assert(t@.skip(0) =~= t@);
    while a < n && t.get_char(a) == '/'
        invariant
            n == t@.len(),
            a <= n,
            strip_leading(t@, '/') == strip_leading(t@.skip(a as int), '/'),
        decreases n - a,
    {
        assert(t@.skip(a as int).skip(1) =~= t@.skip(a + 1));
        a = a + 1;
    }
    let rest = t.substring_char(a, n);
    assert(rest@ =~= t@.skip(a as int));
    let mut out = String::from_str("https://");
    out.append(rest);
    Some(out)
}

/// The serve domain: the environment's setting when there is one; else the
/// saved file's content, trimmed, when not blank; else empty.
pub open spec fn spec_domain(env: Option<Seq<char>>, saved: Option<Seq<char>>) -> Seq<char> {
    match env {
        Some(d) => d,
        None => match saved {
            Some(c) => trim(c),
            None => Seq::empty(),
        },
    }
}

/// The serve domain (see `spec_domain`).
pub fn current_domain(env: &Option<String>, saved: &Option<String>) -> (r: String)
    ensures
        r@ == spec_domain(opt_view(*env), opt_view(*saved)),
{
    match env {
        Some(d) => d.clone(),
        None => match saved {
            Some(c) => String::from_str(trim_str(c.as_str())),
            None => String::new(),
        },
    }
}

/// The domain as the header shows it.
pub open spec fn spec_display_domain(domain: Seq<char>) -> Seq<char> {
    if domain.len() == 0 {
        "(not set)"@
    } else {
        domain
    }
}

/// The domain as the header shows it (see `spec_display_domain`).
pub fn display_domain(domain: &str) -> (r: String)
    ensures
        r@ == spec_display_domain(domain@),
{
    if domain.unicode_len() == 0 {
        String::from_str("(not set)")
    } else {
        String::from_str(domain)
    }
}

/// What the answer to the serve prompt starts: the server on a port, or nothing.
#[derive(Debug)]
pub enum ServeStart {
    Port(String),
    Cancel,
}

/// The serve prompt, on the trimmed answer: blank or `y` keeps the default
/// port, `n` cancels, anything else is the port to use.
pub open spec fn spec_serve_start(input: Seq<char>, default_port: Seq<char>) -> Option<Seq<char>> {
    let t = trim(input);
    if t.len() == 0 || eq_ignore_case(t, "y"@) {
        Some(default_port)
    } else if eq_ignore_case(t, "n"@) {
        None
    } else {
        Some(t)
    }
}

/// What the answer to the serve prompt starts (see `spec_serve_start`;
/// `Cancel` stands for none).
pub fn serve_start(input: &str, default_port: &str) -> (r: ServeStart)
    ensures
        spec_serve_start(input@, default_port@) == (match r {
            ServeStart::Port(p) => Some(p@),
            ServeStart::Cancel => None,
        }),
{
    let t = trim_str(input);
    if t.unicode_len() == 0 || eq_ignore_case_str(t, "y") {
        ServeStart::Port(String::from_str(default_port))
    } else if eq_ignore_case_str(t, "n") {
        ServeStart::Cancel
    } else {
        ServeStart::Port(String::from_str(t))
    }
}

/// The process id in a PID file: its trimmed text read as an `i32`.
pub fn pid_of(text: &str) -> (r: Option<i32>)
    ensures
        r matches Some(v) ==> signed_text(trim(text@)) == Some(v as int),
        r is None ==> match signed_text(trim(text@)) {
            Some(v) => v < i32::MIN || v > i32::MAX,
            None => true,
        },
{
    parse_i32(trim_str(text))
}


proof fn lemma_strip_leading(s: Seq<char>, c: char)
    ensures
        strip_leading(s, c).len() <= s.len(),
        strip_leading(s, c).len() > 0 ==> strip_leading(s, c).last() == s.last() && strip_leading(s, c)[0] != c,
    decreases s.len(),
{
    if s.len() > 0 && s[0] == c {
        lemma_strip_leading(s.skip(1), c);
        if strip_leading(s, c).len() > 0 {
            assert(s.skip(1).last() == s.last());
        }
    }
}

/// Entering a saved domain again saves it unchanged.
pub proof fn law_domain_normalization_idempotent(input: Seq<char>)
    requires
        spec_normalize_domain(input) is Some,
    ensures
        spec_normalize_domain(spec_normalize_domain(input).unwrap()) == spec_normalize_domain(input),
{
    reveal_strlit("https://");
    reveal_strlit("http://");
    let t = trim(input);
    lemma_trim_result(input, '/');
    let d = spec_normalize_domain(input).unwrap();
    if occurs_at(t, "http://"@, 0) || occurs_at(t, "https://"@, 0) {
        lemma_trim_trimmed(t);
    } else {
        let r = strip_leading(t, '/');
        lemma_strip_leading(t, '/');
        assert(d == "https://"@ + r);
        assert(d[0] == 'h');
        if r.len() > 0 {
            assert(d.last() == r.last());
        } else {
            assert(d.last() == '/');
        }
        assert(trimmed(d));
        lemma_trim_trimmed(d);
        assert(d.subrange(0, 8) =~= "https://"@);
        assert(occurs_at(d, "https://"@, 0));
    }
}

} // verus!
