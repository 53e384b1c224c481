//! The help page.

use crate::security;
use crate::text;
use vstd::prelude::*;

verus! {

/// The help page up to the address of the default target.
pub const PAGE_START: &'static str = r#"<!DOCTYPE html>
<html lang="ja">
<head>
  <meta charset="utf-8">
  <title>tsfrv</title>
  <style>
    body { font-family: system-ui, sans-serif; max-width: 48rem; margin: 2rem auto; line-height: 1.6; }
    code { background: #f4f4f4; padding: 0.1rem 0.3rem; border-radius: 0.2rem; }
  </style>
</head>
<body>
  <h1>tsfrv</h1>
  <p>Telnet over SSL/TLS 電子公告ビューア (Cloudflare Workers / Rust WASM)</p>
  <h2>エンドポイント</h2>
  <ul>
    <li><code>GET /stream</code> — 公告をテキストストリームで表示（デフォルト: "#;

/// The help page up to the link to the default target.
pub const PAGE_MIDDLE: &'static str = r#"）</li>
    <li><code>GET /stream?server=HOST&amp;port=PORT</code> — 任意の telnets サーバーへ接続</li>
    <li><code>GET /ws?server=HOST&amp;port=PORT</code> — WebSocket で双方向セッション</li>
  </ul>
  <h2>例</h2>
  <ul>
    <li><a href="/stream">/stream</a>（デフォルト公告）</li>
    <li><a href="/stream?server="#;

/// What stands between the target of that link and its text.
pub const LINK_TEXT: &'static str = r#"">/stream?server="#;

/// The rest of the help page.
pub const PAGE_END: &'static str = r#"</a></li>
  </ul>
</body>
</html>"#;

/// The help page: it names the default target, and links to it.
pub open spec fn help_page() -> Seq<char> {
    let server = security::DEFAULT_SERVER@;
    let port = text::decimal(security::DEFAULT_PORT as nat);
    PAGE_START@ + server + ":"@ + port + PAGE_MIDDLE@ + server + "&amp;port="@ + port + LINK_TEXT@
        + server + "&amp;port="@ + port + PAGE_END@
}

/// Returns the help page.
pub fn help_html() -> (r: String)
    ensures
        r@ == help_page(),
        r@ == r#"<!DOCTYPE html>
<html lang="ja">
<head>
  <meta charset="utf-8">
  <title>tsfrv</title>
  <style>
    body { font-family: system-ui, sans-serif; max-width: 48rem; margin: 2rem auto; line-height: 1.6; }
    code { background: #f4f4f4; padding: 0.1rem 0.3rem; border-radius: 0.2rem; }
  </style>
</head>
<body>
  <h1>tsfrv</h1>
  <p>Telnet over SSL/TLS 電子公告ビューア (Cloudflare Workers / Rust WASM)</p>
  <h2>エンドポイント</h2>
  <ul>
    <li><code>GET /stream</code> — 公告をテキストストリームで表示（デフォルト: "#@ + "koukoku.shadan.open.ad.jp"@
            + ":992"@ + r#"）</li>
    <li><code>GET /stream?server=HOST&amp;port=PORT</code> — 任意の telnets サーバーへ接続</li>
    <li><code>GET /ws?server=HOST&amp;port=PORT</code> — WebSocket で双方向セッション</li>
  </ul>
  <h2>例</h2>
  <ul>
    <li><a href="/stream">/stream</a>（デフォルト公告）</li>
    <li><a href="/stream?server="#@ + "koukoku.shadan.open.ad.jp"@
            + "&amp;port=992"@ + r#"">/stream?server="#@ + "koukoku.shadan.open.ad.jp"@ + "&amp;port=992"@
            + r#"</a></li>
  </ul>
</body>
</html>"#@,
{
    let mut r = String::new();
    r.append(PAGE_START);
    r.append(security::DEFAULT_SERVER);
    r.append(":");
    text::push_decimal(&mut r, security::DEFAULT_PORT as usize);
    r.append(PAGE_MIDDLE);
    r.append(security::DEFAULT_SERVER);
    r.append("&amp;port=");
    text::push_decimal(&mut r, security::DEFAULT_PORT as usize);
    r.append(LINK_TEXT);
    r.append(security::DEFAULT_SERVER);
    r.append("&amp;port=");
    text::push_decimal(&mut r, security::DEFAULT_PORT as usize);
    r.append(PAGE_END);
    assert(r@ =~= help_page());
    proof {
        reveal_with_fuel(text::decimal, 3);
        reveal_strlit(":");
        reveal_strlit(":992");
        reveal_strlit("&amp;port=");
        reveal_strlit("&amp;port=992");
        assert(":"@ + text::decimal(992) =~= ":992"@);
        assert("&amp;port="@ + text::decimal(992) =~= "&amp;port=992"@);
        let server = security::DEFAULT_SERVER@;
        assert(r@ =~= PAGE_START@ + server + (":"@ + text::decimal(992)) + PAGE_MIDDLE@ + server + (
        "&amp;port="@ + text::decimal(992)) + LINK_TEXT@ + server + ("&amp;port="@ + text::decimal(
            992,
        )) + PAGE_END@);
    }
    r
}

} // verus!
