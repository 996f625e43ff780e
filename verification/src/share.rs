//! Temporary AI access through a tunnel: which tool is used, how one is
//! installed, and the public address read from the tunnel's output.

use vstd::prelude::*;
use crate::text::{str_eq, find, find_spec, opt_view};

verus! {

/// How to install a tunneling tool.
pub open spec fn spec_install_hints(tool: Seq<char>) -> Seq<char> {
    if tool == "cloudflared"@ {
        "curl -L https://github.com/cloudflare/cloudflared/releases/latest/download/cloudflared-linux-amd64 -o cloudflared && chmod +x cloudflared"@
    } else if tool == "tailscale"@ {
        "curl -fsSL https://tailscale.com/install.sh | sh"@
    } else if tool == "ngrok"@ {
        "Visit https://ngrok.com/download"@
    } else {
        "No known tunneling tool found."@
    }
}

/// How to install a tunneling tool (see `spec_install_hints`).
pub fn install_hints(tool: &str) -> (r: &'static str)
    ensures
        r@ == spec_install_hints(tool@),
{
    if str_eq(tool, "cloudflared") {
        "curl -L https://github.com/cloudflare/cloudflared/releases/latest/download/cloudflared-linux-amd64 -o cloudflared && chmod +x cloudflared"
    } else if str_eq(tool, "tailscale") {
        "curl -fsSL https://tailscale.com/install.sh | sh"
    } else if str_eq(tool, "ngrok") {
        "Visit https://ngrok.com/download"
    } else {
        "No known tunneling tool found."
    }
}

/// The tunneling tool used: the first of cloudflared, tailscale and ngrok
/// that runs, else the one the environment names, else none.
pub open spec fn spec_tunnel_tool(
    cloudflared: bool,
    tailscale: bool,
    ngrok: bool,
    configured: Option<Seq<char>>,
) -> Option<Seq<char>> {
    if cloudflared {
        Some("cloudflared"@)
    } else if tailscale {
        Some("tailscale"@)
    } else if ngrok {
        Some("ngrok"@)
    } else {
        configured
    }
}

/// The tunneling tool used (see `spec_tunnel_tool`).
pub fn tunnel_tool(cloudflared: bool, tailscale: bool, ngrok: bool, configured: &Option<String>) -> (r: Option<String>)
    ensures
        opt_view(r) == spec_tunnel_tool(cloudflared, tailscale, ngrok, opt_view(*configured)),
{
    if cloudflared {
        Some(String::from_str("cloudflared"))
    } else if tailscale {
        Some(String::from_str("tailscale"))
    } else if ngrok {
        Some(String::from_str("ngrok"))
    } else {
        crate::text::copy_opt(configured)
    }
}

pub open spec fn url_start() -> Seq<char> {
    "https://"@
}

pub open spec fn url_host_end() -> Seq<char> {
    ".trycloudflare.com"@
}

/// The public address in a line of tunnel output: from the first
/// `https://` through the first `.trycloudflare.com` after it.
pub open spec fn spec_tunnel_url(line: Seq<char>) -> Option<Seq<char>> {
    let s = find_spec(line, url_start());
    if s >= 0 {
        let e = find_spec(line.skip(s), url_host_end());
        if e >= 0 {
            Some(line.subrange(s, s + e + url_host_end().len()))
        } else {
            None
        }
    } else {
        None
    }
}

/// The public address in a line of tunnel output (see `spec_tunnel_url`).
#[verifier::rlimit(50)]
pub fn tunnel_url(line: &str) -> (r: Option<String>)
    ensures
        opt_view(r) == spec_tunnel_url(line@),
{
    proof {
        reveal_strlit(".trycloudflare.com");
    }
    match find(line, "https://") {
        Some(s) => {
            let n = line.unicode_len();
            let rest = line.substring_char(s, n);
            assert(rest@ =~= line@.skip(s as int));
            match find(rest, ".trycloudflare.com") {
                Some(e) => {
                    assert(url_host_end().len() == 18);
                    assert(s + e + 18 <= n);
                    let url = line.substring_char(s, s + e + 18);
                    assert(url@ =~= line@.subrange(s as int, s + e + url_host_end().len()));
                    Some(String::from_str(url))
                },
                None => None,
            }
        },
        None => None,
    }
}

/// The address handed to an AI: the tunnel's address and the map summary path.
pub open spec fn spec_access_url(public_url: Seq<char>) -> Seq<char> {
    public_url + "/lunar-map.md?summary=true"@
}

/// The address handed to an AI (see `spec_access_url`).
pub fn access_url(public_url: &str) -> (r: String)
    ensures
        r@ == spec_access_url(public_url@),
{
    let mut out = String::from_str(public_url);
    out.append("/lunar-map.md?summary=true");
    out
}

/// The serve binary's file name on the platform.
pub open spec fn spec_serve_binary(windows: bool) -> Seq<char> {
    if windows {
        "lunar-serve.exe"@
    } else {
        "lunar-serve"@
    }
}

/// The places the serve binary is looked for first, in order: the release
/// and debug builds of the installed checkout, the local release build,
/// and the bare name.
pub open spec fn spec_serve_candidates(windows: bool) -> Seq<Seq<char>> {
    let b = spec_serve_binary(windows);
    seq![
        "/opt/LunarAST/lunar-serve/target/release/"@ + b,
        "/opt/LunarAST/lunar-serve/target/debug/"@ + b,
        "./target/release/"@ + b,
        b,
    ]
}

fn with_binary(dir: &str, windows: bool) -> (r: String)
    ensures
        r@ == dir@ + spec_serve_binary(windows),
{
    let mut out = String::from_str(dir);
    if windows {
        out.append("lunar-serve.exe");
    } else {
        out.append("lunar-serve");
    }
    out
}

/// The places the serve binary is looked for first (see `spec_serve_candidates`).
pub fn serve_candidates(windows: bool) -> (r: Vec<String>)
    ensures
        crate::text::views(r@) == spec_serve_candidates(windows),
{
    proof {
        reveal_strlit("");
    }
    let a = with_binary("/opt/LunarAST/lunar-serve/target/release/", windows);
    let b = with_binary("/opt/LunarAST/lunar-serve/target/debug/", windows);
    let c = with_binary("./target/release/", windows);
    let d = with_binary("", windows);
    assert(d@ =~= spec_serve_binary(windows));
    let ghost expected = spec_serve_candidates(windows);
    let mut out: Vec<String> = Vec::new();
    out.push(a);
    out.push(b);
    out.push(c);
    out.push(d);
    assert(crate::text::views(out@) =~= expected);
    out
}

} // verus!
