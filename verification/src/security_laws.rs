//! What holds of host names, targets and the list of targets.

use crate::ip;
use crate::security;
use crate::text;
use crate::text_laws;
use vstd::prelude::*;

verus! {

proof fn lemma_split_append(a: Seq<char>, b: Seq<char>, separator: char)
    requires
        !b.contains(separator),
    ensures
        text::split(a + seq![separator] + b, separator) == text::split(a, separator).push(b),
{
    text_laws::law_separators_part_a_text(a, b, separator);
}

proof fn lemma_split_none(s: Seq<char>, separator: char)
    requires
        !s.contains(separator),
    ensures
        text::split(s, separator) == seq![s],
{
    text_laws::law_separators_part_a_text(s, s, separator);
}

/// `parts` in ASCII lower case.
spec fn lower_parts(parts: Seq<Seq<char>>) -> Seq<Seq<char>> {
    parts.map_values(|part: Seq<char>| security::lower(part))
}

proof fn lemma_split_lower(s: Seq<char>, separator: char)
    requires
        separator == '.' || separator == ':',
    ensures
        text::split(security::lower(s), separator) == lower_parts(text::split(s, separator)),
    decreases s.len(),
{
    let l = security::lower(s);
    let parts = text::split(s, separator);
    text::lemma_split_len(s, separator);
    if s.len() == 0 {
        assert(security::lower(Seq::empty()) =~= Seq::<char>::empty());
        assert(text::split(l, separator) =~= lower_parts(parts));
    } else {
        let rest = text::split(s.drop_last(), separator);
        text::lemma_split_len(s.drop_last(), separator);
        lemma_split_lower(s.drop_last(), separator);
        assert(l.drop_last() =~= security::lower(s.drop_last()));
        assert(l.last() == security::lower_char(s.last()));
        if s.last() == separator {
            assert(security::lower(Seq::empty()) =~= Seq::<char>::empty());
            assert(lower_parts(parts) =~= lower_parts(rest).push(Seq::empty()));
        } else {
            assert(security::lower(rest.last().push(s.last())) =~= security::lower(
                rest.last(),
            ).push(l.last()));
            assert(lower_parts(parts) =~= lower_parts(rest).drop_last().push(
                lower_parts(rest).last().push(l.last()),
            ));
        }
    }
}

proof fn lemma_trim_lower(s: Seq<char>)
    ensures
        text::trim_start(security::lower(s)) == security::lower(text::trim_start(s)),
        text::trim_end(security::lower(s)) == security::lower(text::trim_end(s)),
        security::trim_dots(security::lower(s)) == security::lower(security::trim_dots(s)),
    decreases s.len(),
{
    if s.len() > 0 {
        assert(security::lower(s).skip(1) =~= security::lower(s.skip(1)));
        assert(security::lower(s).drop_last() =~= security::lower(s.drop_last()));
        lemma_trim_lower(s.skip(1));
        lemma_trim_lower(s.drop_last());
    }
}

proof fn lemma_host_part_lower(s: Seq<char>)
    ensures
        security::host_part(security::lower(s)) == security::lower(security::host_part(s)),
{
    lemma_trim_lower(s);
    lemma_trim_lower(text::trim_start(s));
    lemma_trim_lower(text::trimmed(s));
}

proof fn lemma_encoded_len(s: Seq<char>)
    ensures
        vstd::utf8::encode_utf8(security::lower(s)).len() == vstd::utf8::encode_utf8(s).len(),
        vstd::utf8::encode_utf8(s).len() <= 4 * s.len(),
    decreases s.len(),
{
    if s.len() > 0 {
        assert(security::lower(s).drop_first() =~= security::lower(s.drop_first()));
        lemma_encoded_len(s.drop_first());
    }
}

proof fn lemma_octet_lower(s: Seq<char>)
    ensures
        ip::is_octet(security::lower(s)) == ip::is_octet(s),
{
    let l = security::lower(s);
    assert forall|i: int| 0 <= i < s.len() implies text::is_digit(l[i]) == text::is_digit(
        s[i],
    ) by {}
    if text::is_decimal(s) {
        assert forall|i: int| 0 <= i < s.len() implies l[i] == s[i] by {
            assert(text::is_digit(s[i]));
        }
        assert(l =~= s);
    } else if s.len() > 0 {
        let i = choose|i: int| 0 <= i < s.len() && !text::is_digit(#[trigger] s[i]);
        assert(!text::is_digit(l[i]));
    }
}

proof fn lemma_ipv4_lower(s: Seq<char>)
    ensures
        ip::is_ipv4(security::lower(s)) == ip::is_ipv4(s),
{
    let parts = text::split(s, '.');
    let lowered = text::split(security::lower(s), '.');
    lemma_split_lower(s, '.');
    if parts.len() == 4 {
        assert forall|i: int| 0 <= i < 4 implies ip::is_octet(lowered[i]) == ip::is_octet(
            parts[i],
        ) by {
            lemma_octet_lower(parts[i]);
        }
        if ip::is_ipv4(s) {
            assert forall|i: int| 0 <= i < 4 implies ip::is_octet(#[trigger] lowered[i]) by {
                assert(ip::is_octet(parts[i]));
            }
        } else {
            let i = choose|i: int| 0 <= i < 4 && !ip::is_octet(#[trigger] parts[i]);
            assert(!ip::is_octet(lowered[i]));
        }
    }
}

proof fn lemma_group_lower(s: Seq<char>)
    ensures
        ip::is_group(security::lower(s)) == ip::is_group(s),
{
    let l = security::lower(s);
    assert forall|i: int| 0 <= i < s.len() implies ip::is_hex_digit(l[i]) == ip::is_hex_digit(
        s[i],
    ) by {}
    if ip::is_group(s) {
        assert forall|i: int| 0 <= i < l.len() implies ip::is_hex_digit(#[trigger] l[i]) by {
            assert(ip::is_hex_digit(s[i]));
        }
    } else if 1 <= s.len() <= 4 {
        let i = choose|i: int| 0 <= i < s.len() && !ip::is_hex_digit(#[trigger] s[i]);
        assert(!ip::is_hex_digit(l[i]));
    }
}

proof fn lemma_all_groups_lower(parts: Seq<Seq<char>>)
    ensures
        ip::all_groups(lower_parts(parts)) == ip::all_groups(parts),
{
    let lowered = lower_parts(parts);
    assert forall|i: int| 0 <= i < parts.len() implies ip::is_group(lowered[i]) == ip::is_group(
        parts[i],
    ) by {
        lemma_group_lower(parts[i]);
    }
    if ip::all_groups(parts) {
        assert forall|i: int| 0 <= i < lowered.len() implies ip::is_group(#[trigger] lowered[i]) by {
            assert(ip::is_group(parts[i]));
        }
    } else {
        let i = choose|i: int| 0 <= i < parts.len() && !ip::is_group(#[trigger] parts[i]);
        assert(!ip::is_group(lowered[i]));
    }
}

proof fn lemma_group_count_lower(s: Seq<char>, ipv4_at_end: bool)
    ensures
        ip::group_count(security::lower(s), ipv4_at_end) == ip::group_count(s, ipv4_at_end),
{
    let parts = text::split(s, ':');
    let lowered = text::split(security::lower(s), ':');
    text::lemma_split_len(s, ':');
    lemma_split_lower(s, ':');
    lemma_all_groups_lower(parts);
    lemma_all_groups_lower(parts.drop_last());
    lemma_ipv4_lower(parts.last());
    assert(lowered.drop_last() =~= lower_parts(parts.drop_last()));
    assert(lowered.last() == security::lower(parts.last()));
}

proof fn lemma_compression_lower(s: Seq<char>, index: int)
    requires
        0 <= index,
    ensures
        ip::compression_from(security::lower(s), index) == ip::compression_from(s, index),
        ip::compression_from(s, index) <= s.len(),
        index <= s.len() ==> index <= ip::compression_from(s, index),
        ip::compression_from(s, index) < s.len() ==> ip::compression_from(s, index) + 2 <= s.len(),
    decreases s.len() - index,
{
    if index + 1 < s.len() {
        lemma_compression_lower(s, index + 1);
    }
}

proof fn lemma_ip_lower(s: Seq<char>)
    ensures
        ip::is_ip_literal(security::lower(s)) == ip::is_ip_literal(s),
{
    let l = security::lower(s);
    let k = ip::compression_from(s, 0);
    lemma_ipv4_lower(s);
    lemma_compression_lower(s, 0);
    if k == s.len() {
        lemma_group_count_lower(s, true);
    } else {
        lemma_group_count_lower(s.take(k), false);
        lemma_group_count_lower(s.skip(k + 2), true);
        assert(l.take(k) =~= security::lower(s.take(k)));
        assert(l.skip(k + 2) =~= security::lower(s.skip(k + 2)));
    }
}

proof fn lemma_host_name_lower(s: Seq<char>)
    ensures
        security::is_host_name(security::lower(s)) == security::is_host_name(s),
{
    let l = security::lower(s);
    let parts = text::split(s, '.');
    let lowered = text::split(l, '.');
    lemma_split_lower(s, '.');
    assert forall|i: int| 0 <= i < s.len() implies security::is_host_char(l[i])
        == security::is_host_char(s[i]) by {}
    assert forall|i: int| 0 <= i < parts.len() implies security::is_label(lowered[i])
        == security::is_label(parts[i]) by {}
    if s.len() > 0 {
        assert(l[0] == security::lower_char(s[0]));
        assert(l.last() == security::lower_char(s.last()));
        if security::is_host_name(s) {
            assert forall|i: int| 0 <= i < l.len() implies security::is_host_char(
                #[trigger] l[i],
            ) by {
                assert(security::is_host_char(s[i]));
            }
            assert forall|i: int| 0 <= i < lowered.len() implies security::is_label(
                #[trigger] lowered[i],
            ) by {
                assert(security::is_label(parts[i]));
            }
        }
        if security::is_host_name(l) {
            assert forall|i: int| 0 <= i < s.len() implies security::is_host_char(
                #[trigger] s[i],
            ) by {
                assert(security::is_host_char(l[i]));
            }
            assert forall|i: int| 0 <= i < parts.len() implies security::is_label(
                #[trigger] parts[i],
            ) by {
                assert(security::is_label(lowered[i]));
            }
        }
    }
}

proof fn lemma_lower_twice(s: Seq<char>)
    ensures
        security::lower(security::lower(s)) == security::lower(s),
{
    assert(security::lower(security::lower(s)) =~= security::lower(s));
}

proof fn lemma_host_error_lower(s: Seq<char>)
    ensures
        security::host_error(security::lower(s)) == security::host_error(s),
{
    lemma_encoded_len(s);
    lemma_ip_lower(s);
    lemma_host_name_lower(s);
    lemma_split_lower(s, '.');
}

/// Host names are compared without regard to case: a name in lower case is accepted, refused
/// and resolved as the name itself.
pub proof fn law_case_does_not_matter(server: Seq<char>)
    ensures
        security::normalized(security::lower(server)) == security::normalized(server),
{
    let host = security::host_part(server);
    lemma_host_part_lower(server);
    lemma_host_error_lower(host);
    lemma_lower_twice(host);
}

proof fn lemma_trim_noop(s: Seq<char>)
    requires
        s.len() > 0,
        !text::is_space(s[0]),
        !text::is_space(s.last()),
    ensures
        text::trimmed(s) == s,
{
}

proof fn lemma_trim_dots(s: Seq<char>)
    ensures
        security::trim_dots(s).len() > 0 ==> security::trim_dots(s).last() != '.',
    decreases s.len(),
{
    if s.len() > 0 {
        lemma_trim_dots(s.drop_last());
    }
}

proof fn lemma_host_is_its_own_part(host: Seq<char>)
    requires
        security::is_host_name(host),
        host.last() != '.',
    ensures
        security::host_part(host) == host,
{
    assert(security::is_host_char(host[0]));
    assert(security::is_host_char(host[host.len() - 1]));
    lemma_trim_noop(host);
}

/// A host name that was accepted is accepted again, and stays as it is.
pub proof fn law_normalizing_twice(server: Seq<char>)
    ensures
        security::normalized(server) matches Ok(host) ==> security::normalized(host) == Ok::<
            Seq<char>,
            security::TargetError,
        >(host),
{
    if let Ok(host) = security::normalized(server) {
        let part = security::host_part(server);
        lemma_trim_dots(text::trimmed(server));
        lemma_host_name_lower(part);
        lemma_host_error_lower(part);
        lemma_lower_twice(part);
        assert(host.last() == security::lower_char(part.last()));
        lemma_host_is_its_own_part(host);
    }
}

/// A host name that was accepted is well formed, in lower case, short enough and not an IP
/// address, and has at least two labels.
pub proof fn law_accepted_hosts(server: Seq<char>)
    ensures
        security::normalized(server) matches Ok(host) ==> {
            &&& security::is_host_name(host)
            &&& security::lower(host) == host
            &&& !ip::is_ip_literal(host)
            &&& text::split(host, '.').len() >= 2
            &&& host.len() <= security::MAX_HOSTNAME_LEN
        },
{
    law_normalizing_twice(server);
    if let Ok(host) = security::normalized(server) {
        let part = security::host_part(host);
        lemma_lower_twice(security::host_part(server));
        lemma_host_part_lower(host);
        assert(host == security::lower(part));
        assert(security::lower(host) == host);
        lemma_host_error_lower(part);
        lemma_ascii(host);
    }
}

/// A host name has one byte for every character.
pub proof fn lemma_ascii(host: Seq<char>)
    requires
        security::is_host_name(host),
    ensures
        vstd::utf8::encode_utf8(host).len() == host.len(),
{
    assert forall|i: int| 0 <= i < host.len() implies '\0' <= #[trigger] host[i] <= '\u{7f}' by {
        assert(security::is_host_char(host[i]));
    }
    vstd::utf8::is_ascii_chars_encode_utf8(host);
}

proof fn lemma_split_bound(s: Seq<char>, separator: char)
    requires
        forall|i: int|
            0 <= i < text::split(s, separator).len() - 1 ==> (#[trigger] text::split(
                s,
                separator,
            )[i]).len() <= 4,
    ensures
        s.len() <= 5 * (text::split(s, separator).len() - 1) + text::split(
            s,
            separator,
        ).last().len(),
    decreases s.len(),
{
    let parts = text::split(s, separator);
    text::lemma_split_len(s, separator);
    if s.len() > 0 {
        let rest = s.drop_last();
        let before = text::split(rest, separator);
        text::lemma_split_len(rest, separator);
        if s.last() == separator {
            assert(parts.drop_last() =~= before);
            assert forall|i: int| 0 <= i < before.len() - 1 implies (#[trigger] before[i]).len()
                <= 4 by {
                assert(parts[i] == before[i]);
            }
            assert(parts[before.len() - 1] == before.last());
            lemma_split_bound(rest, separator);
        } else {
            assert forall|i: int| 0 <= i < before.len() - 1 implies (#[trigger] before[i]).len()
                <= 4 by {
                assert(parts[i] == before[i]);
            }
            lemma_split_bound(rest, separator);
        }
    }
}

proof fn lemma_ipv4_len(s: Seq<char>)
    requires
        ip::is_ipv4(s),
    ensures
        s.len() <= 18,
{
    let parts = text::split(s, '.');
    assert forall|i: int| 0 <= i < parts.len() - 1 implies (#[trigger] parts[i]).len() <= 4 by {
        assert(ip::is_octet(parts[i]));
    }
    assert(ip::is_octet(parts[3]));
    lemma_split_bound(s, '.');
}

proof fn lemma_groups_len(s: Seq<char>, ipv4_at_end: bool)
    ensures
        ip::group_count(s, ipv4_at_end) matches Some(n) ==> s.len() <= 5 * n + 10,
{
    let parts = text::split(s, ':');
    text::lemma_split_len(s, ':');
    if s.len() > 0 && ip::group_count(s, ipv4_at_end) is Some {
        assert forall|i: int| 0 <= i < parts.len() - 1 implies (#[trigger] parts[i]).len() <= 4 by {
            if ip::all_groups(parts) {
                assert(ip::is_group(parts[i]));
            } else {
                assert(ip::is_group(parts.drop_last()[i]));
            }
        }
        if ip::all_groups(parts) {
            assert(ip::is_group(parts[parts.len() - 1]));
        } else {
            lemma_ipv4_len(parts.last());
        }
        lemma_split_bound(s, ':');
    }
}

/// An IP address is always refused as such, whatever white space or dots are put around it.
pub proof fn law_ip_addresses_are_refused(server: Seq<char>)
    requires
        ip::is_ip_literal(security::host_part(server)),
    ensures
        security::normalized(server) == Err::<Seq<char>, security::TargetError>(
            security::TargetError::IpLiteral,
        ),
{
    let host = security::host_part(server);
    let k = ip::compression_from(host, 0);
    lemma_compression_lower(host, 0);
    text::lemma_split_len(host, '.');
    if ip::is_ipv4(host) {
        lemma_ipv4_len(host);
    } else if k == host.len() {
        lemma_groups_len(host, true);
    } else {
        lemma_groups_len(host.take(k), false);
        lemma_groups_len(host.skip(k + 2), true);
    }
    lemma_encoded_len(host);
}

proof fn lemma_trim_more(s: Seq<char>, c: char)
    requires
        text::is_space(c),
    ensures
        text::trimmed(seq![c] + s) == text::trimmed(s),
        text::trimmed(s.push(c)) == text::trimmed(s),
    decreases s.len(),
{
    assert((seq![c] + s).skip(1) =~= s);
    assert(s.push(c).drop_last() =~= s);
    if s.len() == 0 {
        assert(s.push(c).skip(1) =~= s);
        assert(text::trim_start(s) == s);
    } else if text::is_space(s[0]) {
        assert(s.push(c).skip(1) =~= s.skip(1).push(c));
        lemma_trim_more(s.skip(1), c);
    }
}

/// White space around a host name does not matter, nor does a dot right behind it.
pub proof fn law_padding_does_not_matter(server: Seq<char>, space: char)
    requires
        text::is_space(space),
    ensures
        security::normalized(seq![space] + server) == security::normalized(server),
        security::normalized(server.push(space)) == security::normalized(server),
        server.len() == 0 || !text::is_space(server.last()) ==> security::normalized(
            server.push('.'),
        ) == security::normalized(server),
{
    lemma_trim_more(server, space);
    if server.len() == 0 {
        assert(server.push('.').drop_last() =~= server);
        assert(security::host_part(server) =~= server);
        assert(security::host_part(server.push('.')) =~= server);
    }
    if server.len() > 0 && !text::is_space(server.last()) {
        lemma_trim_start_push(server, '.');
        let t = text::trim_start(server);
        assert(t.push('.').drop_last() =~= t);
    }
}

proof fn lemma_trim_start_push(s: Seq<char>, c: char)
    requires
        s.len() > 0,
        !text::is_space(s.last()),
        !text::is_space(c),
    ensures
        text::trim_start(s.push(c)) == text::trim_start(s).push(c),
        text::trim_start(s).len() > 0,
        text::trim_start(s).last() == s.last(),
    decreases s.len(),
{
    if text::is_space(s[0]) {
        assert(s.push(c).skip(1) =~= s.skip(1).push(c));
        assert(s.skip(1).last() == s.last());
        lemma_trim_start_push(s.skip(1), c);
    }
}

/// A request is granted exactly when its host is accepted, its port may be used and the target
/// is on the list; then it is granted for that host and that port.
pub proof fn law_granted_requests(list: Option<Seq<char>>, server: Seq<char>, port: u16)
    ensures
        security::resolved(list, server, port) is Ok <==> {
            &&& security::normalized(server) is Ok
            &&& port != 0
            &&& !security::is_blocked(port)
            &&& security::allowed(list).contains((security::normalized(server)->Ok_0, port))
        },
        security::resolved(list, server, port) matches Ok(target) ==> {
            &&& security::allowed(list).contains(target)
            &&& target == (security::normalized(server)->Ok_0, port)
        },
{
}

/// The list is never empty, and without a list the default target is all that is granted.
pub proof fn law_default_target_stands_in(list: Option<Seq<char>>, server: Seq<char>, port: u16)
    ensures
        security::allowed(list).len() > 0,
        list is None ==> (security::resolved(list, server, port) matches Ok(target) ==> target
            == security::default_view()),
{
}

/// A target as an entry of the list.
pub open spec fn entry_text(target: (Seq<char>, u16)) -> Seq<char> {
    target.0 + seq![':'] + text::decimal(target.1 as nat)
}

/// A target whose host is written as it is compared.
pub open spec fn is_normal(target: (Seq<char>, u16)) -> bool {
    security::normalized(target.0) == Ok::<Seq<char>, security::TargetError>(target.0)
}

proof fn lemma_last_index(a: Seq<char>, b: Seq<char>, c: char)
    requires
        !b.contains(c),
    ensures
        text::last_index(a + seq![c] + b, c) == a.len(),
{
    text_laws::law_last_place_is_found(a, b, c);
}

/// A number is read as a port from what it is written as.
pub proof fn law_port_is_read_back(port: u16)
    ensures
        text::parsed_u16(text::decimal(port as nat)) == Some(port),
{
    text::law_decimal_is_read_back(port as nat);
    let digits = text::decimal(port as nat);
    assert(text::is_digit(digits[0]));
}

/// A target is read back from its entry.
pub proof fn law_entry_is_read_back(target: (Seq<char>, u16))
    requires
        is_normal(target),
    ensures
        security::parsed_entry(entry_text(target)) == Some(target),
{
    let host = target.0;
    let digits = text::decimal(target.1 as nat);
    let entry = entry_text(target);
    law_accepted_hosts(host);
    text::law_decimal_is_read_back(target.1 as nat);
    law_port_is_read_back(target.1);
    assert(!digits.contains(':')) by {
        assert forall|i: int| 0 <= i < digits.len() implies digits[i] != ':' by {
            assert(text::is_digit(digits[i]));
        }
    }
    assert(security::is_host_char(host[0]));
    assert(entry[0] == host[0]);
    assert(entry.last() == digits[digits.len() - 1]);
    assert(text::is_digit(digits[digits.len() - 1]));
    lemma_trim_noop(entry);
    lemma_last_index(host, digits, ':');
    assert(entry.take(host.len() as int) =~= host);
    assert(entry.skip(host.len() as int + 1) =~= digits);
}

/// Targets as a list: their entries with commas between them.
pub open spec fn list_text(targets: Seq<(Seq<char>, u16)>) -> Seq<char>
    decreases targets.len(),
{
    if targets.len() == 0 {
        Seq::empty()
    } else if targets.len() == 1 {
        entry_text(targets[0])
    } else {
        list_text(targets.drop_last()) + seq![','] + entry_text(targets.last())
    }
}

/// The targets are read back from their list.
pub proof fn law_list_is_read_back(targets: Seq<(Seq<char>, u16)>)
    requires
        targets.len() > 0,
        forall|i: int| 0 <= i < targets.len() ==> is_normal(#[trigger] targets[i]),
    ensures
        security::allowed(Some(list_text(targets))) == targets,
{
    lemma_list(targets);
}

proof fn lemma_entry_without_comma(target: (Seq<char>, u16))
    requires
        is_normal(target),
    ensures
        !entry_text(target).contains(','),
{
    let entry = entry_text(target);
    law_accepted_hosts(target.0);
    text::law_decimal_is_read_back(target.1 as nat);
    let digits = text::decimal(target.1 as nat);
    assert forall|i: int| 0 <= i < entry.len() implies entry[i] != ',' by {
        if i < target.0.len() {
            assert(security::is_host_char(target.0[i]));
        } else if i > target.0.len() {
            assert(text::is_digit(digits[i - target.0.len() - 1]));
        }
    }
}

proof fn lemma_list(targets: Seq<(Seq<char>, u16)>)
    requires
        targets.len() > 0,
        forall|i: int| 0 <= i < targets.len() ==> is_normal(#[trigger] targets[i]),
    ensures
        security::parsed_entries(text::split(list_text(targets), ',')) == targets,
    decreases targets.len(),
{
    let last = targets.last();
    assert(is_normal(targets[targets.len() - 1]));
    law_entry_is_read_back(last);
    lemma_entry_without_comma(last);
    let f = |entry: Seq<char>| security::parsed_entry(entry);
    if targets.len() == 1 {
        lemma_split_none(entry_text(last), ',');
        let parts = seq![entry_text(last)];
        assert(parts.drop_last() =~= Seq::<Seq<char>>::empty());
        assert(parts.drop_last().filter_map(f) =~= Seq::empty());
        assert(targets =~= seq![last]);
        assert(Seq::empty() + seq![last] =~= seq![last]);
    } else {
        let rest = targets.drop_last();
        assert forall|i: int| 0 <= i < rest.len() implies is_normal(#[trigger] rest[i]) by {
            assert(is_normal(targets[i]));
        }
        lemma_list(rest);
        lemma_split_append(list_text(rest), entry_text(last), ',');
        let parts = text::split(list_text(rest), ',');
        assert(parts.push(entry_text(last)).drop_last() =~= parts);
        assert(rest + seq![last] =~= targets);
    }
}

proof fn lemma_parsed_entries_are_normal(entries: Seq<Seq<char>>, target: (Seq<char>, u16))
    requires
        security::parsed_entries(entries).contains(target),
    ensures
        is_normal(target),
{
    let f = |entry: Seq<char>| security::parsed_entry(entry);
    entries.lemma_filter_map_contains(f, target);
    let entry = choose|entry: Seq<char>|
        #![auto]
        entries.contains(entry) && security::parsed_entry(entry) == Some(target);
    let trimmed = text::trimmed(entry);
    law_normalizing_twice(trimmed.take(text::last_index(trimmed, ':')));
}

proof fn lemma_default_is_normal()
    ensures
        is_normal(security::default_view()),
{
    let host = security::DEFAULT_SERVER@;
    reveal_strlit("koukoku.shadan.open.ad.jp");
    let a = host.take(7);
    let b = host.subrange(8, 14);
    let c = host.subrange(15, 19);
    let d = host.subrange(20, 22);
    let e = host.skip(23);
    let ab = a + seq!['.'] + b;
    let abc = ab + seq!['.'] + c;
    let abcd = abc + seq!['.'] + d;
    assert(host =~= abcd + seq!['.'] + e);
    assert(!a.contains('.') && !b.contains('.') && !c.contains('.') && !d.contains('.')
        && !e.contains('.'));
    lemma_split_none(a, '.');
    lemma_split_append(a, b, '.');
    lemma_split_append(ab, c, '.');
    lemma_split_append(abc, d, '.');
    lemma_split_append(abcd, e, '.');
    let labels = text::split(host, '.');
    assert(labels =~= seq![a, b, c, d, e]);
    assert(!host.contains(':'));
    lemma_split_none(host, ':');
    lemma_no_compression(host, 0);
    assert(!ip::is_group(text::split(host, ':')[0]));
    assert(security::is_host_name(host));
    lemma_ascii(host);
    lemma_host_is_its_own_part(host);
    assert(security::lower(host) =~= host);
}

proof fn lemma_no_compression(s: Seq<char>, index: int)
    requires
        0 <= index <= s.len(),
        !s.contains(':'),
    ensures
        ip::compression_from(s, index) == s.len(),
    decreases s.len() - index,
{
    if index + 1 < s.len() {
        lemma_no_compression(s, index + 1);
    }
}

/// Every target on the list is reached by its own name, unless its port may not be used.
pub proof fn law_allowed_targets_are_reached(list: Option<Seq<char>>, target: (Seq<char>, u16))
    requires
        security::allowed(list).contains(target),
        target.1 != 0,
        !security::is_blocked(target.1),
    ensures
        security::resolved(list, target.0, target.1) == Ok::<
            (Seq<char>, u16),
            security::TargetError,
        >(target),
{
    lemma_default_is_normal();
    if let Some(entries) = list {
        let parts = text::split(entries, ',');
        if security::parsed_entries(parts).len() > 0 {
            lemma_parsed_entries_are_normal(parts, target);
        }
    }
}

} // verus!
