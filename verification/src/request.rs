//! What a request asks for, and the pages that answer it.

use crate::security;
use crate::text;
use vstd::prelude::*;

verus! {

/// The status of a request that has to be repeated as an upgrade.
pub const UPGRADE_REQUIRED_STATUS: u16 = 426;

/// The text that goes with it.
pub const UPGRADE_REQUIRED_TEXT: &'static str =
    "WebSocket upgrade required. Connect with Upgrade: websocket";

/// The views of a list of names and values.
pub open spec fn pairs_view(pairs: Seq<(String, String)>) -> Seq<(Seq<char>, Seq<char>)> {
    pairs.map_values(|pair: (String, String)| (pair.0@, pair.1@))
}

/// The names and values that `Url::query_pairs` reads from the query of a URL, or `None` if the
/// text is no URL.
pub uninterp spec fn url_query_pairs(url: Seq<char>) -> Option<Seq<(Seq<char>, Seq<char>)>>;

/// `worker::Url::parse`, and `Url::query_pairs` of what it returns: the names and values in the
/// query, decoded, in their order. A URL without a question mark has no query, and so no pairs.
/// Which texts are URLs, and what is decoded to what, is left unsaid.
#[verifier::external_body]
fn query_pairs(url: &str) -> (r: Option<Vec<(String, String)>>)
    ensures
        match r {
            Some(pairs) => url_query_pairs(url@) == Some(pairs_view(pairs@)),
            None => url_query_pairs(url@) is None,
        },
        r matches Some(pairs) ==> (!url@.contains('?') ==> pairs@.len() == 0),
{
    let url = worker::Url::parse(url).ok()?;
    Some(url.query_pairs().map(|(name, value)| (name.into_owned(), value.into_owned())).collect())
}

/// The value of the first pair with this name.
pub open spec fn first_value(pairs: Seq<(Seq<char>, Seq<char>)>, name: Seq<char>) -> Option<
    Seq<char>,
>
    decreases pairs.len(),
{
    if pairs.len() == 0 {
        None
    } else if pairs[0].0 == name {
        Some(pairs[0].1)
    } else {
        first_value(pairs.skip(1), name)
    }
}

/// The value of the first pair with this name, or else the default.
pub open spec fn value_or(
    pairs: Seq<(Seq<char>, Seq<char>)>,
    name: Seq<char>,
    default: Seq<char>,
) -> Seq<char> {
    match first_value(pairs, name) {
        Some(value) => value,
        None => default,
    }
}

/// The port that the first pair with this name names, or else the default.
pub open spec fn port_or(
    pairs: Seq<(Seq<char>, Seq<char>)>,
    name: Seq<char>,
    default: u16,
) -> u16 {
    match first_value(pairs, name) {
        Some(value) => match text::parsed_u16(value) {
            Some(port) => port,
            None => default,
        },
        None => default,
    }
}

/// Returns the value of the first pair with this name.
fn find_value(pairs: &[(String, String)], name: &str) -> (r: Option<String>)
    ensures
        match r {
            Some(value) => first_value(pairs_view(pairs@), name@) == Some(value@),
            None => first_value(pairs_view(pairs@), name@) is None,
        },
{
    let key = name.to_owned();
    let ghost views = pairs_view(pairs@);
    let mut index: usize = 0;
    assert(views.skip(0) =~= views);
    while index < pairs.len()
        invariant
            index <= pairs.len(),
            key@ == name@,
            views == pairs_view(pairs@),
            first_value(views.skip(index as int), name@) == first_value(views, name@),
        decreases pairs.len() - index,
    {
        assert(views.skip(index as int).skip(1) =~= views.skip(index + 1));
        assert(views.skip(index as int)[0] == (pairs[index as int].0@, pairs[index as int].1@));
        if pairs[index].0 == key {
            return Some(pairs[index].1.clone());
        }
        index += 1;
    }
    None
}

/// Returns the value of the first pair with this name, or else the default.
pub fn param_from_pairs(pairs: &[(String, String)], name: &str, default: &str) -> (r: String)
    ensures
        r@ == value_or(pairs_view(pairs@), name@, default@),
{
    match find_value(pairs, name) {
        Some(value) => value,
        None => default.to_owned(),
    }
}

/// Returns the port that the first pair with this name names, or else the default.
pub fn port_from_pairs(pairs: &[(String, String)], name: &str, default: u16) -> (r: u16)
    ensures
        r == port_or(pairs_view(pairs@), name@, default),
{
    match find_value(pairs, name) {
        Some(value) => {
            let chars = text::to_chars(value.as_str());
            match text::parse_u16(chars.as_slice()) {
                Some(port) => port,
                None => default,
            }
        },
        None => default,
    }
}

/// Returns the parameter of this name in the query of a URL, or else the default; `None` if the
/// text is no URL.
pub fn query_param(url: &str, name: &str, default: &str) -> (r: Option<String>)
    ensures
        r is Some <==> url_query_pairs(url@) is Some,
        r matches Some(value) ==> value@ == value_or(url_query_pairs(url@)->0, name@, default@),
{
    match query_pairs(url) {
        Some(pairs) => Some(param_from_pairs(pairs.as_slice(), name, default)),
        None => None,
    }
}

/// Returns the port of this name in the query of a URL, or else the default; `None` if the text
/// is no URL.
pub fn query_port(url: &str, name: &str, default: u16) -> (r: Option<u16>)
    ensures
        r is Some <==> url_query_pairs(url@) is Some,
        r matches Some(port) ==> port == port_or(url_query_pairs(url@)->0, name@, default),
{
    match query_pairs(url) {
        Some(pairs) => Some(port_from_pairs(pairs.as_slice(), name, default)),
        None => None,
    }
}

/// The target that the parameters `server` and `port` ask for.
pub open spec fn target_of(pairs: Seq<(Seq<char>, Seq<char>)>) -> (Seq<char>, u16) {
    (
        value_or(pairs, "server"@, security::DEFAULT_SERVER@),
        port_or(pairs, "port"@, security::DEFAULT_PORT),
    )
}

/// Returns the target that the parameters `server` and `port` ask for.
pub fn target_from_pairs(pairs: &[(String, String)]) -> (r: (String, u16))
    ensures
        security::target_view(r) == target_of(pairs_view(pairs@)),
        r.0@ == value_or(pairs_view(pairs@), "server"@, "koukoku.shadan.open.ad.jp"@),
        r.1 == port_or(pairs_view(pairs@), "port"@, 992),
{
    (
        param_from_pairs(pairs, "server", security::DEFAULT_SERVER),
        port_from_pairs(pairs, "port", security::DEFAULT_PORT),
    )
}

/// Returns the target that a URL asks for, or `None` if the text is no URL. Without a query, that
/// is the default target.
pub fn requested_target(url: &str) -> (r: Option<(String, u16)>)
    ensures
        r is Some <==> url_query_pairs(url@) is Some,
        r matches Some(target) ==> {
            &&& security::target_view(target) == target_of(url_query_pairs(url@)->0)
            &&& target.0@ == value_or(
                url_query_pairs(url@)->0,
                "server"@,
                "koukoku.shadan.open.ad.jp"@,
            )
            &&& target.1 == port_or(url_query_pairs(url@)->0, "port"@, 992)
            &&& !url@.contains('?') ==> security::target_view(target) == security::default_view()
        },
{
    match query_pairs(url) {
        Some(pairs) => {
            proof {
                if pairs@.len() == 0 {
                    law_default_target_without_parameters(pairs_view(pairs@));
                }
            }
            Some(target_from_pairs(pairs.as_slice()))
        },
        None => None,
    }
}

/// The first pair with a name gives its value, whatever pairs with other names stand before it and
/// whatever pairs stand behind it. A value that is no port counts as none.
pub proof fn law_first_pair_counts(
    pairs: Seq<(Seq<char>, Seq<char>)>,
    name: Seq<char>,
    i: int,
    text_default: Seq<char>,
    port_default: u16,
)
    requires
        0 <= i < pairs.len(),
        pairs[i].0 == name,
        forall|j: int| 0 <= j < i ==> (#[trigger] pairs[j]).0 != name,
    ensures
        first_value(pairs, name) == Some(pairs[i].1),
        value_or(pairs, name, text_default) == pairs[i].1,
        text::parsed_u16(pairs[i].1) matches Some(port) ==> port_or(pairs, name, port_default)
            == port,
        text::parsed_u16(pairs[i].1) is None ==> port_or(pairs, name, port_default)
            == port_default,
    decreases pairs.len(),
{
    if i > 0 {
        let rest = pairs.skip(1);
        assert forall|j: int| 0 <= j < i - 1 implies (#[trigger] rest[j]).0 != name by {
            assert(pairs[j + 1].0 != name);
        }
        assert(pairs[0].0 != name);
        law_first_pair_counts(rest, name, i - 1, text_default, port_default);
    }
}

/// A name that no pair has is given the default.
pub proof fn law_missing_name_is_defaulted(
    pairs: Seq<(Seq<char>, Seq<char>)>,
    name: Seq<char>,
    text_default: Seq<char>,
    port_default: u16,
)
    requires
        forall|j: int| 0 <= j < pairs.len() ==> (#[trigger] pairs[j]).0 != name,
    ensures
        first_value(pairs, name) is None,
        value_or(pairs, name, text_default) == text_default,
        port_or(pairs, name, port_default) == port_default,
    decreases pairs.len(),
{
    if pairs.len() > 0 {
        let rest = pairs.skip(1);
        assert forall|j: int| 0 <= j < rest.len() implies (#[trigger] rest[j]).0 != name by {
            assert(pairs[j + 1].0 != name);
        }
        assert(pairs[0].0 != name);
        law_missing_name_is_defaulted(rest, name, text_default, port_default);
    }
}

/// The first `server` names the host that is asked for, with a port or without one.
pub proof fn law_server_is_asked_for(pairs: Seq<(Seq<char>, Seq<char>)>, i: int)
    requires
        0 <= i < pairs.len(),
        pairs[i].0 == "server"@,
        forall|j: int| 0 <= j < i ==> (#[trigger] pairs[j]).0 != "server"@,
    ensures
        target_of(pairs).0 == pairs[i].1,
{
    law_first_pair_counts(pairs, "server"@, i, security::DEFAULT_SERVER@, 0);
}

/// The first `port` names the port that is asked for, with a server or without one. If it is no
/// port, port 992 is asked for.
pub proof fn law_port_is_asked_for(pairs: Seq<(Seq<char>, Seq<char>)>, i: int)
    requires
        0 <= i < pairs.len(),
        pairs[i].0 == "port"@,
        forall|j: int| 0 <= j < i ==> (#[trigger] pairs[j]).0 != "port"@,
    ensures
        text::parsed_u16(pairs[i].1) is Some ==> Some(target_of(pairs).1) == text::parsed_u16(
            pairs[i].1,
        ),
        text::parsed_u16(pairs[i].1) is None ==> target_of(pairs).1 == 992,
{
    law_first_pair_counts(pairs, "port"@, i, Seq::empty(), security::DEFAULT_PORT);
}

/// Without a `server` the default server is asked for, whatever the port; without a `port` port
/// 992 is asked for, whatever the server.
pub proof fn law_missing_parameters_are_defaulted(pairs: Seq<(Seq<char>, Seq<char>)>)
    ensures
        (forall|j: int| 0 <= j < pairs.len() ==> (#[trigger] pairs[j]).0 != "server"@)
            ==> target_of(pairs).0 == "koukoku.shadan.open.ad.jp"@,
        (forall|j: int| 0 <= j < pairs.len() ==> (#[trigger] pairs[j]).0 != "port"@) ==> target_of(
            pairs,
        ).1 == 992,
{
    if forall|j: int| 0 <= j < pairs.len() ==> (#[trigger] pairs[j]).0 != "server"@ {
        law_missing_name_is_defaulted(pairs, "server"@, security::DEFAULT_SERVER@, 0);
    }
    if forall|j: int| 0 <= j < pairs.len() ==> (#[trigger] pairs[j]).0 != "port"@ {
        law_missing_name_is_defaulted(pairs, "port"@, Seq::empty(), security::DEFAULT_PORT);
    }
}

/// A list of names and values is viewed pair by pair.
pub proof fn law_pairs_are_viewed_whole(pairs: Seq<(String, String)>)
    ensures
        pairs_view(pairs).len() == pairs.len(),
        forall|i: int|
            0 <= i < pairs.len() ==> #[trigger] pairs_view(pairs)[i] == (
                pairs[i].0@,
                pairs[i].1@,
            ),
{
}

/// A request without the two parameters asks for the default target.
pub proof fn law_default_target_without_parameters(pairs: Seq<(Seq<char>, Seq<char>)>)
    requires
        forall|i: int|
            0 <= i < pairs.len() ==> (#[trigger] pairs[i]).0 != "server"@ && pairs[i].0 != "port"@,
    ensures
        target_of(pairs) == security::default_view(),
    decreases pairs.len(),
{
    if pairs.len() > 0 {
        assert forall|i: int| 0 <= i < pairs.skip(1).len() implies (#[trigger] pairs.skip(1)[i]).0
            != "server"@ && pairs.skip(1)[i].0 != "port"@ by {
            assert(pairs.skip(1)[i] == pairs[i + 1]);
        }
        law_default_target_without_parameters(pairs.skip(1));
        assert(pairs[0].0 != "server"@ && pairs[0].0 != "port"@);
    }
}

/// True when the `Upgrade` header asks for a WebSocket, in upper or lower case.
pub open spec fn asks_for_websocket(upgrade: Option<Seq<char>>) -> bool {
    upgrade matches Some(value) && security::lower(value) == "websocket"@
}

/// The header asks for a WebSocket exactly when it holds the nine letters of that word, each in
/// lower case or 32 below it, in upper case.
pub proof fn law_upgrade_in_any_case(upgrade: Option<Seq<char>>)
    ensures
        asks_for_websocket(upgrade) <==> {
            &&& upgrade is Some
            &&& upgrade->0.len() == 9
            &&& forall|i: int|
                0 <= i < 9 ==> #[trigger] upgrade->0[i] == "websocket"@[i] || upgrade->0[i] as nat
                    + 32 == "websocket"@[i] as nat
        },
{
    reveal_strlit("websocket");
    if let Some(value) = upgrade {
        let word = "websocket"@;
        let l = security::lower(value);
        assert(l.len() == value.len());
        assert(word.len() == 9);
        if asks_for_websocket(upgrade) {
            assert forall|i: int| 0 <= i < 9 implies #[trigger] value[i] == word[i]
                || value[i] as nat + 32 == word[i] as nat by {
                assert(l[i] == security::lower_char(value[i]));
            }
        } else if value.len() == 9 {
            if forall|i: int|
                0 <= i < 9 ==> #[trigger] value[i] == word[i] || value[i] as nat + 32
                    == word[i] as nat {
                assert forall|i: int| 0 <= i < 9 implies l[i] == word[i] by {
                    assert(value[i] == word[i] || value[i] as nat + 32 == word[i] as nat);
                    assert('a' <= word[i] <= 'z');
                }
                assert(l =~= word);
            }
        }
    }
}

/// Returns whether the `Upgrade` header asks for a WebSocket.
pub fn is_websocket_upgrade(upgrade: Option<&str>) -> (r: bool)
    ensures
        r == asks_for_websocket(security::optional_view(upgrade)),
        r <==> {
            &&& upgrade is Some
            &&& upgrade->0@.len() == 9
            &&& forall|i: int|
                0 <= i < 9 ==> #[trigger] upgrade->0@[i] == "websocket"@[i] || upgrade->0@[i] as nat
                    + 32 == "websocket"@[i] as nat
        },
{
    proof {
        law_upgrade_in_any_case(security::optional_view(upgrade));
    }
    match upgrade {
        Some(value) => {
            let chars = text::to_chars(value);
            security::to_lower(chars.as_slice()) == "websocket".to_owned()
        },
        None => false,
    }
}

/// Where a request goes.
#[derive(Clone, Copy, Debug, PartialEq, Eq, Structural)]
pub enum Route {
    /// To a session over a WebSocket.
    Websocket,
    /// Back, as a request that has to be repeated as an upgrade.
    UpgradeRequired,
    /// To the pages.
    Pages,
}

/// Where a request for a path goes.
pub open spec fn route_of(path: Seq<char>, upgrade: Option<Seq<char>>) -> Route {
    if path != "/ws"@ {
        Route::Pages
    } else if asks_for_websocket(upgrade) {
        Route::Websocket
    } else {
        Route::UpgradeRequired
    }
}

/// Returns where a request for a path goes.
pub fn route(path: &str, upgrade: Option<&str>) -> (r: Route)
    ensures
        r == route_of(path@, security::optional_view(upgrade)),
        r is Pages <==> path@ != "/ws"@,
        r is Websocket <==> path@ == "/ws"@ && upgrade is Some && upgrade->0@.len() == 9 && (
        forall|i: int|
            0 <= i < 9 ==> #[trigger] upgrade->0@[i] == "websocket"@[i] || upgrade->0@[i] as nat
                + 32 == "websocket"@[i] as nat),
{
    if path.to_owned() == "/ws".to_owned() {
        if is_websocket_upgrade(upgrade) {
            Route::Websocket
        } else {
            Route::UpgradeRequired
        }
    } else {
        Route::Pages
    }
}

/// Returns the headers of a stream of text from a server.
pub fn stream_headers(server: &str, port: u16) -> (r: Vec<(String, String)>)
    ensures
        pairs_view(r@) == seq![
            ("Content-Type"@, "text/plain; charset=utf-8"@),
            ("X-Tsfrv-Server"@, server@),
            ("X-Tsfrv-Port"@, text::decimal(port as nat)),
        ],
{
    let mut number = String::new();
    text::push_decimal(&mut number, port as usize);
    assert(number@ =~= text::decimal(port as nat));
    let mut headers: Vec<(String, String)> = Vec::new();
    headers.push(("Content-Type".to_owned(), "text/plain; charset=utf-8".to_owned()));
    headers.push(("X-Tsfrv-Server".to_owned(), server.to_owned()));
    headers.push(("X-Tsfrv-Port".to_owned(), number));
    assert(pairs_view(headers@) =~= seq![
        ("Content-Type"@, "text/plain; charset=utf-8"@),
        ("X-Tsfrv-Server"@, server@),
        ("X-Tsfrv-Port"@, text::decimal(port as nat)),
    ]);
    headers
}

/// Returns the address `server:port`.
pub fn server_address(server: &str, port: &str) -> (r: String)
    ensures
        r@ == server@ + ":"@ + port@,
{
    let mut r = String::new();
    r.append(server);
    r.append(":");
    r.append(port);
    assert(r@ =~= server@ + ":"@ + port@);
    r
}

} // verus!
