//! Which servers a session may connect to.

use crate::ip;
use crate::text;
use vstd::prelude::*;
use vstd::slice::slice_subrange;

verus! {

/// The server of the electronic announcements.
pub const DEFAULT_SERVER: &'static str = "koukoku.shadan.open.ad.jp";

/// The port of Telnet over TLS.
pub const DEFAULT_PORT: u16 = 992;

/// The longest host name, in bytes.
pub const MAX_HOSTNAME_LEN: usize = 253;

/// The longest label of a host name, in bytes.
pub const MAX_LABEL_LEN: usize = 63;

/// Why a target is refused.
#[derive(Clone, Copy, Debug, PartialEq, Eq, Structural)]
pub enum TargetError {
    /// The host name is not well formed.
    InvalidHostname,
    /// The host is an IP address.
    IpLiteral,
    /// The host name has one label only.
    NotFqdn,
    /// The port is 0.
    InvalidPort,
    /// The port belongs to another service.
    PortNotAllowed,
    /// The target is not on the list.
    NotAllowed,
}

impl TargetError {
    /// The text of the refusal.
    pub open spec fn text(self) -> Seq<char> {
        match self {
            TargetError::InvalidHostname => "invalid server hostname"@,
            TargetError::IpLiteral => "direct IP connections are not allowed"@,
            TargetError::NotFqdn => "server hostname must be a FQDN"@,
            TargetError::InvalidPort => "invalid port"@,
            TargetError::PortNotAllowed => "port is not allowed"@,
            TargetError::NotAllowed => "target is not in the allowlist"@,
        }
    }

    /// Returns the text of the refusal.
    pub fn message(self) -> (r: String)
        ensures
            r@ == self.text(),
            self is InvalidHostname ==> r@ == "invalid server hostname"@,
            self is IpLiteral ==> r@ == "direct IP connections are not allowed"@,
            self is NotFqdn ==> r@ == "server hostname must be a FQDN"@,
            self is InvalidPort ==> r@ == "invalid port"@,
            self is PortNotAllowed ==> r@ == "port is not allowed"@,
            self is NotAllowed ==> r@ == "target is not in the allowlist"@,
    {
        match self {
            TargetError::InvalidHostname => "invalid server hostname".to_owned(),
            TargetError::IpLiteral => "direct IP connections are not allowed".to_owned(),
            TargetError::NotFqdn => "server hostname must be a FQDN".to_owned(),
            TargetError::InvalidPort => "invalid port".to_owned(),
            TargetError::PortNotAllowed => "port is not allowed".to_owned(),
            TargetError::NotAllowed => "target is not in the allowlist".to_owned(),
        }
    }
}

/// `s` without the dots at its end.
pub open spec fn trim_dots(s: Seq<char>) -> Seq<char>
    decreases s.len(),
{
    if s.len() > 0 && s.last() == '.' {
        trim_dots(s.drop_last())
    } else {
        s
    }
}

/// The host name in what was asked for: without the white space around it and the dots at its
/// end.
pub open spec fn host_part(server: Seq<char>) -> Seq<char> {
    trim_dots(text::trimmed(server))
}

/// A character that a host name may hold.
pub open spec fn is_host_char(c: char) -> bool {
    ('a' <= c <= 'z') || ('A' <= c <= 'Z') || ('0' <= c <= '9') || c == '.' || c == '-'
}

/// A label of a host name.
pub open spec fn is_label(s: Seq<char>) -> bool {
    1 <= s.len() <= MAX_LABEL_LEN
}

/// A well-formed host name: letters, digits, dots and hyphens, no hyphen at either end, and no
/// label that is empty or too long.
pub open spec fn is_host_name(s: Seq<char>) -> bool {
    &&& s.len() > 0
    &&& forall|i: int| 0 <= i < s.len() ==> is_host_char(#[trigger] s[i])
    &&& s[0] != '-'
    &&& s.last() != '-'
    &&& forall|i: int|
        0 <= i < text::split(s, '.').len() ==> is_label(#[trigger] text::split(s, '.')[i])
}

/// Why `host` is refused, if it is.
pub open spec fn host_error(host: Seq<char>) -> Option<TargetError> {
    if host.len() == 0 || vstd::utf8::encode_utf8(host).len() > MAX_HOSTNAME_LEN {
        Some(TargetError::InvalidHostname)
    } else if ip::is_ip_literal(host) {
        Some(TargetError::IpLiteral)
    } else if !is_host_name(host) {
        Some(TargetError::InvalidHostname)
    } else if text::split(host, '.').len() < 2 {
        Some(TargetError::NotFqdn)
    } else {
        None
    }
}

/// A character in ASCII lower case.
pub open spec fn lower_char(c: char) -> char {
    if 'A' <= c <= 'Z' {
        (c as nat + 32) as char
    } else {
        c
    }
}

/// A text in ASCII lower case.
pub open spec fn lower(s: Seq<char>) -> Seq<char> {
    s.map_values(|c: char| lower_char(c))
}

/// The host name that stands for what was asked for, or why it is refused.
pub open spec fn normalized(server: Seq<char>) -> Result<Seq<char>, TargetError> {
    match host_error(host_part(server)) {
        Some(error) => Err(error),
        None => Ok(lower(host_part(server))),
    }
}

/// The view of a host name or of its refusal.
pub open spec fn host_view(r: Result<String, TargetError>) -> Result<Seq<char>, TargetError> {
    match r {
        Ok(host) => Ok(host@),
        Err(error) => Err(error),
    }
}

fn skip_dots(s: &[char]) -> (r: &[char])
    ensures
        r@ == trim_dots(s@),
{
    let mut end: usize = s.len();
    assert(s@.subrange(0, end as int) =~= s@);
    while end > 0 && s[end - 1] == '.'
        invariant
            end <= s.len(),
            trim_dots(s@.subrange(0, end as int)) == trim_dots(s@),
        decreases end,
    {
        assert(s@.subrange(0, end as int).drop_last() =~= s@.subrange(0, end - 1));
        end -= 1;
    }
    slice_subrange(s, 0, end)
}

fn host_char(c: char) -> (r: bool)
    ensures
        r == is_host_char(c),
{
    ('a' <= c && c <= 'z') || ('A' <= c && c <= 'Z') || ('0' <= c && c <= '9') || c == '.' || c
        == '-'
}

/// Returns whether `host` is a well-formed host name that holds the labels `labels`.
fn host_name(host: &[char], labels: &Vec<Vec<char>>) -> (r: bool)
    requires
        host.len() > 0,
        text::parts_view(labels@) == text::split(host@, '.'),
    ensures
        r == is_host_name(host@),
{
    if host[0] == '-' || host[host.len() - 1] == '-' {
        return false;
    }
    let mut index: usize = 0;
    while index < host.len()
        invariant
            index <= host.len(),
            forall|i: int| 0 <= i < index ==> is_host_char(#[trigger] host@[i]),
        decreases host.len() - index,
    {
        if !host_char(host[index]) {
            return false;
        }
        index += 1;
    }
    let ghost views = text::split(host@, '.');
    index = 0;
    while index < labels.len()
        invariant
            index <= labels.len(),
            views == text::split(host@, '.'),
            text::parts_view(labels@) == views,
            forall|i: int| 0 <= i < index ==> is_label(#[trigger] views[i]),
        decreases labels.len() - index,
    {
        assert(views[index as int] == labels[index as int]@);
        if labels[index].len() == 0 || labels[index].len() > MAX_LABEL_LEN {
            return false;
        }
        index += 1;
    }
    true
}

/// Returns `s` in ASCII lower case.
pub fn to_lower(s: &[char]) -> (r: String)
    ensures
        r@ == lower(s@),
{
    let mut r = String::new();
    let mut index: usize = 0;
    while index < s.len()
        invariant
            index <= s.len(),
            r@ == lower(s@.take(index as int)),
        decreases s.len() - index,
    {
        let c = s[index];
        let l = if 'A' <= c && c <= 'Z' {
            (c as u8 + 32) as char
        } else {
            c
        };
        assert(lower(s@.take(index + 1)) =~= lower(s@.take(index as int)).push(l));
        r.push(l);
        index += 1;
    }
    assert(s@.take(index as int) =~= s@);
    r
}

fn normalize_chars(server: &[char]) -> (r: Result<String, TargetError>)
    ensures
        host_view(r) == normalized(server@),
{
    let host = skip_dots(text::trim(server));
    let name = text::from_chars(host);
    if host.len() == 0 || name.as_str().as_bytes().len() > MAX_HOSTNAME_LEN {
        return Err(TargetError::InvalidHostname);
    }
    if ip::ip_literal(host) {
        return Err(TargetError::IpLiteral);
    }
    let labels = text::split_chars(host, '.');
    if !host_name(host, &labels) {
        return Err(TargetError::InvalidHostname);
    }
    if labels.len() < 2 {
        return Err(TargetError::NotFqdn);
    }
    Ok(to_lower(host))
}

/// Returns the host name that stands for what was asked for: without the white space around it
/// and the dots at its end, in lower case. An IP address is refused, and so is what is not the
/// full name of a host.
pub fn normalize_hostname(server: &str) -> (r: Result<String, TargetError>)
    ensures
        host_view(r) == normalized(server@),
{
    let chars = text::to_chars(server);
    normalize_chars(chars.as_slice())
}

/// The ports of other services, to which no session may connect.
pub open spec fn is_blocked(port: u16) -> bool {
    ||| port == 22
    ||| port == 23
    ||| port == 25
    ||| port == 53
    ||| port == 80
    ||| port == 110
    ||| port == 143
    ||| port == 443
    ||| port == 445
    ||| port == 3306
    ||| port == 5432
    ||| port == 6379
    ||| port == 11211
}

/// Returns whether the port belongs to another service.
pub fn is_blocked_port(port: u16) -> (r: bool)
    ensures
        r == is_blocked(port),
        r <==> port == 22 || port == 23 || port == 25 || port == 53 || port == 80 || port == 110
            || port == 143 || port == 443 || port == 445 || port == 3306 || port == 5432 || port
            == 6379 || port == 11211,
{
    matches!(port, 22 | 23 | 25 | 53 | 80 | 110 | 143 | 443 | 445 | 3306 | 5432 | 6379 | 11211)
}

/// The host and the port of a target.
pub open spec fn target_view(target: (String, u16)) -> (Seq<char>, u16) {
    (target.0@, target.1)
}

/// The views of a list of targets.
pub open spec fn targets_view(targets: Seq<(String, u16)>) -> Seq<(Seq<char>, u16)> {
    targets.map_values(|target: (String, u16)| target_view(target))
}

/// The view of a target or of its refusal.
pub open spec fn resolved_view(r: Result<(String, u16), TargetError>) -> Result<
    (Seq<char>, u16),
    TargetError,
> {
    match r {
        Ok(target) => Ok(target_view(target)),
        Err(error) => Err(error),
    }
}

/// The target when none is asked for.
pub open spec fn default_view() -> (Seq<char>, u16) {
    (DEFAULT_SERVER@, DEFAULT_PORT)
}

/// Returns the target when none is asked for.
pub fn default_target() -> (r: (String, u16))
    ensures
        target_view(r) == default_view(),
        r.0@ == "koukoku.shadan.open.ad.jp"@,
        r.1 == 992,
{
    (DEFAULT_SERVER.to_owned(), DEFAULT_PORT)
}

/// The target that an entry `host:port` of the list names, if it names one.
pub open spec fn parsed_entry(entry: Seq<char>) -> Option<(Seq<char>, u16)> {
    let trimmed = text::trimmed(entry);
    let colon = text::last_index(trimmed, ':');
    if colon < 0 {
        None
    } else {
        match (normalized(trimmed.take(colon)), text::parsed_u16(trimmed.skip(colon + 1))) {
            (Ok(host), Some(port)) => Some((host, port)),
            _ => None,
        }
    }
}

/// The view of a target that an entry may name.
pub open spec fn entry_view(r: Option<(String, u16)>) -> Option<(Seq<char>, u16)> {
    match r {
        Some(target) => Some(target_view(target)),
        None => None,
    }
}

fn parse_entry_chars(entry: &[char]) -> (r: Option<(String, u16)>)
    ensures
        entry_view(r) == parsed_entry(entry@),
{
    let trimmed = text::trim(entry);
    match text::find_last(trimmed, ':') {
        None => None,
        Some(colon) => {
            let host = slice_subrange(trimmed, 0, colon);
            let port = slice_subrange(trimmed, colon + 1, trimmed.len());
            assert(host@ =~= trimmed@.take(colon as int));
            assert(port@ =~= trimmed@.skip(colon + 1));
            match (normalize_chars(host), text::parse_u16(port)) {
                (Ok(host), Some(port)) => Some((host, port)),
                _ => None,
            }
        },
    }
}

/// Returns the target that an entry `host:port` of the list names, or `None` if it names none.
pub fn parse_target_entry(entry: &str) -> (r: Option<(String, u16)>)
    ensures
        entry_view(r) == parsed_entry(entry@),
{
    let chars = text::to_chars(entry);
    parse_entry_chars(chars.as_slice())
}

/// The targets that the entries name, in their order.
pub open spec fn parsed_entries(entries: Seq<Seq<char>>) -> Seq<(Seq<char>, u16)> {
    entries.filter_map(|entry: Seq<char>| parsed_entry(entry))
}

/// The targets that a session may connect to: those that the comma-separated list names, or the
/// default one if there is no list or it names none.
pub open spec fn allowed(list: Option<Seq<char>>) -> Seq<(Seq<char>, u16)> {
    match list {
        None => seq![default_view()],
        Some(entries) => {
            let targets = parsed_entries(text::split(entries, ','));
            if targets.len() == 0 {
                seq![default_view()]
            } else {
                targets
            }
        },
    }
}

/// The view of a text that may be missing.
pub open spec fn optional_view(s: Option<&str>) -> Option<Seq<char>> {
    match s {
        Some(s) => Some(s@),
        None => None,
    }
}

/// Returns the targets that a session may connect to, as the list of the environment names
/// them.
pub fn allowed_targets(list: Option<&str>) -> (r: Vec<(String, u16)>)
    ensures
        targets_view(r@) == allowed(optional_view(list)),
{
    let mut targets: Vec<(String, u16)> = Vec::new();
    if let Some(entries) = list {
        let chars = text::to_chars(entries);
        let parts = text::split_chars(chars.as_slice(), ',');
        let ghost views = text::split(entries@, ',');
        let mut index: usize = 0;
        assert(targets_view(targets@) =~= parsed_entries(views.take(0)));
        while index < parts.len()
            invariant
                index <= parts.len(),
                text::parts_view(parts@) == views,
                targets_view(targets@) == parsed_entries(views.take(index as int)),
            decreases parts.len() - index,
        {
            let ghost before = targets@;
            assert(views[index as int] == parts[index as int]@);
            assert(views.take(index + 1).drop_last() =~= views.take(index as int));
            if let Some(target) = parse_entry_chars(parts[index].as_slice()) {
                targets.push(target);
                assert(targets_view(targets@) =~= targets_view(before).push(target_view(target)));
            }
            index += 1;
        }
        assert(views.take(index as int) =~= views);
        assert(targets_view(targets@).len() == targets.len());
    }
    if targets.len() == 0 {
        targets.push(default_target());
        assert(targets_view(targets@) =~= seq![default_view()]);
    }
    targets
}

/// The target, if the port may be used and the target is on the list.
pub open spec fn validated(
    server: Seq<char>,
    port: u16,
    allowed: Seq<(Seq<char>, u16)>,
) -> Result<(Seq<char>, u16), TargetError> {
    if port == 0 {
        Err(TargetError::InvalidPort)
    } else if is_blocked(port) {
        Err(TargetError::PortNotAllowed)
    } else if allowed.contains((server, port)) {
        Ok((server, port))
    } else {
        Err(TargetError::NotAllowed)
    }
}

/// Returns the target, if the port may be used and the target is on the list.
pub fn validate_target(server: &str, port: u16, allowed: &[(String, u16)]) -> (r: Result<
    (String, u16),
    TargetError,
>)
    ensures
        resolved_view(r) == validated(server@, port, targets_view(allowed@)),
{
    if port == 0 {
        return Err(TargetError::InvalidPort);
    }
    if is_blocked_port(port) {
        return Err(TargetError::PortNotAllowed);
    }
    let host = server.to_owned();
    let ghost views = targets_view(allowed@);
    let mut index: usize = 0;
    while index < allowed.len()
        invariant
            index <= allowed.len(),
            views == targets_view(allowed@),
            host@ == server@,
            port != 0 && !is_blocked(port),
            forall|i: int| 0 <= i < index ==> #[trigger] views[i] != (server@, port),
        decreases allowed.len() - index,
    {
        assert(views[index as int] == target_view(allowed[index as int]));
        if allowed[index].0 == host && allowed[index].1 == port {
            return Ok((host, port));
        }
        index += 1;
    }
    Err(TargetError::NotAllowed)
}

/// The target that is connected to when `server` and `port` are asked for, or why the request
/// is refused.
pub open spec fn resolved(list: Option<Seq<char>>, server: Seq<char>, port: u16) -> Result<
    (Seq<char>, u16),
    TargetError,
> {
    match normalized(server) {
        Err(error) => Err(error),
        Ok(host) => validated(host, port, allowed(list)),
    }
}

/// Returns the target to connect to when `server` and `port` are asked for, or why the request
/// is refused.
pub fn resolve_target(list: Option<&str>, server: &str, port: u16) -> (r: Result<
    (String, u16),
    TargetError,
>)
    ensures
        resolved_view(r) == resolved(optional_view(list), server@, port),
{
    match normalize_hostname(server) {
        Err(error) => Err(error),
        Ok(host) => {
            let targets = allowed_targets(list);
            validate_target(host.as_str(), port, targets.as_slice())
        },
    }
}

} // verus!
