//! What the list of targets holds, and which requests it grants.

use crate::security;
use crate::security_laws;
use crate::text;
use crate::text_laws;
use vstd::prelude::*;

verus! {

/// An entry is what stands before its last colon, as a host, and what stands behind it, as a port,
/// whatever white space stands around it. It names a target if both are accepted.
pub proof fn law_entry_is_host_and_port(
    a: Seq<char>,
    host: Seq<char>,
    port: Seq<char>,
    b: Seq<char>,
)
    requires
        forall|i: int| 0 <= i < a.len() ==> text::is_space(#[trigger] a[i]),
        forall|i: int| 0 <= i < b.len() ==> text::is_space(#[trigger] b[i]),
        host.len() > 0 ==> !text::is_space(host[0]),
        port.len() > 0 ==> !text::is_space(port.last()),
        !port.contains(':'),
    ensures
        ({
            let r = security::parsed_entry(a + host + seq![':'] + port + b);
            &&& r is Some <==> security::normalized(host) is Ok && text::parsed_u16(port) is Some
            &&& r is Some ==> (r->0).0 == security::normalized(host)->Ok_0
            &&& r is Some ==> (r->0).1 == text::parsed_u16(port)->0
        }),
{
    let core = host + seq![':'] + port;
    let entry = a + host + seq![':'] + port + b;
    assert(entry =~= a + core + b);
    if host.len() > 0 {
        assert(core[0] == host[0]);
    }
    if port.len() > 0 {
        assert(core.last() == port.last());
    }
    text_laws::law_padding_is_trimmed(a, core, b);
    text_laws::law_last_place_is_found(host, port, ':');
    assert(core.take(host.len() as int) =~= host);
    assert(core.skip(host.len() as int + 1) =~= port);
}

/// An entry without a colon names no target.
pub proof fn law_entry_needs_a_colon(entry: Seq<char>)
    requires
        !entry.contains(':'),
    ensures
        security::parsed_entry(entry) is None,
{
    let s = text::trimmed(entry);
    lemma_trimmed_is_part(entry, ':');
    lemma_trimmed_is_part(text::trim_start(entry), ':');
    text_laws::law_last_place_is_found(s, s, ':');
}

proof fn lemma_trimmed_is_part(s: Seq<char>, c: char)
    requires
        !s.contains(c),
    ensures
        !text::trim_start(s).contains(c),
        !text::trim_end(s).contains(c),
    decreases s.len(),
{
    if s.len() > 0 {
        assert(forall|i: int| 0 <= i < s.skip(1).len() ==> s.skip(1)[i] == s[i + 1]);
        assert(forall|i: int| 0 <= i < s.drop_last().len() ==> s.drop_last()[i] == s[i]);
        lemma_trimmed_is_part(s.skip(1), c);
        lemma_trimmed_is_part(s.drop_last(), c);
    }
}

/// A target is read back from its entry, whatever white space stands around it.
pub proof fn law_padded_entry_is_read_back(a: Seq<char>, target: (Seq<char>, u16), b: Seq<char>)
    requires
        forall|i: int| 0 <= i < a.len() ==> text::is_space(#[trigger] a[i]),
        forall|i: int| 0 <= i < b.len() ==> text::is_space(#[trigger] b[i]),
        security::normalized(target.0) == Ok::<Seq<char>, security::TargetError>(target.0),
    ensures
        security::parsed_entry(a + target.0 + seq![':'] + text::decimal(target.1 as nat) + b)
            == Some(target),
        !(a + target.0 + seq![':'] + text::decimal(target.1 as nat) + b).contains(','),
{
    let host = target.0;
    let port = text::decimal(target.1 as nat);
    let entry = a + host + seq![':'] + port + b;
    security_laws::law_accepted_hosts(host);
    security_laws::law_port_is_read_back(target.1);
    text::law_decimal_is_read_back(target.1 as nat);
    assert(security::is_host_char(host[0]));
    assert forall|i: int| 0 <= i < port.len() implies #[trigger] port[i] != ':' && port[i] != ','
        && !text::is_space(port[i]) by {
        assert(text::is_digit(port[i]));
    }
    assert(port.last() == port[port.len() - 1]);
    law_entry_is_host_and_port(a, host, port, b);
    let m = a.len() as int;
    let n = m + host.len();
    let k = n + 1 + port.len();
    assert forall|i: int| 0 <= i < entry.len() implies entry[i] != ',' by {
        if i < m {
            assert(text::is_space(a[i]));
        } else if i < n {
            assert(security::is_host_char(host[i - m]));
        } else if n < i < k {
            assert(port[i - n - 1] != ',');
        } else if i >= k {
            assert(text::is_space(b[i - k]));
        }
    }
}

/// The list holds a target exactly when one of its entries names it. If none names any, or if there
/// is no list, it holds the default target and no other.
pub proof fn law_list_holds_what_is_named(list: Seq<char>, target: (Seq<char>, u16))
    ensures
        ({
            let parts = text::split(list, ',');
            let named = exists|i: int|
                0 <= i < parts.len() && security::parsed_entry(#[trigger] parts[i]) is Some;
            &&& named ==> (security::allowed(Some(list)).contains(target) <==> exists|i: int|
                0 <= i < parts.len() && security::parsed_entry(#[trigger] parts[i]) == Some(
                    target,
                ))
            &&& !named ==> security::allowed(Some(list)) == seq![
                ("koukoku.shadan.open.ad.jp"@, 992u16),
            ]
        }),
        security::allowed(None) == seq![("koukoku.shadan.open.ad.jp"@, 992u16)],
{
    let parts = text::split(list, ',');
    lemma_named(parts, target);
}

proof fn lemma_named(parts: Seq<Seq<char>>, target: (Seq<char>, u16))
    ensures
        security::parsed_entries(parts).contains(target) <==> exists|i: int|
            0 <= i < parts.len() && security::parsed_entry(#[trigger] parts[i]) == Some(target),
        security::parsed_entries(parts).len() > 0 <==> exists|i: int|
            0 <= i < parts.len() && security::parsed_entry(#[trigger] parts[i]) is Some,
    decreases parts.len(),
{
    let all = security::parsed_entries(parts);
    if parts.len() > 0 {
        let rest = parts.drop_last();
        let before = security::parsed_entries(rest);
        lemma_named(rest, target);
        lemma_entries_push(rest, parts.last());
        assert(parts =~= rest.push(parts.last()));
        assert(forall|i: int| 0 <= i < rest.len() ==> rest[i] == parts[i]);
        assert(parts.last() == parts[parts.len() - 1]);
        if security::parsed_entry(parts.last()) is Some {
            let last = security::parsed_entry(parts.last())->0;
            assert(all == before.push(last));
            assert(all[before.len() as int] == last);
            if before.contains(target) {
                let i = choose|i: int| 0 <= i < before.len() && before[i] == target;
                assert(all[i] == target);
            }
        }
        if exists|i: int|
            0 <= i < parts.len() && security::parsed_entry(#[trigger] parts[i]) == Some(target) {
            let i = choose|i: int|
                0 <= i < parts.len() && security::parsed_entry(#[trigger] parts[i]) == Some(target);
            if i < rest.len() {
                assert(security::parsed_entry(rest[i]) == Some(target));
            }
        }
        if exists|i: int|
            0 <= i < parts.len() && security::parsed_entry(#[trigger] parts[i]) is Some {
            let i = choose|i: int|
                0 <= i < parts.len() && security::parsed_entry(#[trigger] parts[i]) is Some;
            if i < rest.len() {
                assert(security::parsed_entry(rest[i]) is Some);
            }
        }
        if before.contains(target) {
            let i = choose|i: int|
                0 <= i < rest.len() && security::parsed_entry(#[trigger] rest[i]) == Some(target);
            assert(security::parsed_entry(parts[i]) == Some(target));
        }
        if before.len() > 0 {
            let i = choose|i: int|
                0 <= i < rest.len() && security::parsed_entry(#[trigger] rest[i]) is Some;
            assert(security::parsed_entry(parts[i]) is Some);
        }
    }
}

proof fn lemma_entries_push(entries: Seq<Seq<char>>, entry: Seq<char>)
    ensures
        security::parsed_entries(entries.push(entry)) == match security::parsed_entry(entry) {
            Some(target) => security::parsed_entries(entries).push(target),
            None => security::parsed_entries(entries),
        },
{
    assert(entries.push(entry).drop_last() =~= entries);
    if let Some(target) = security::parsed_entry(entry) {
        assert(security::parsed_entries(entries) + seq![target] =~= security::parsed_entries(
            entries,
        ).push(target));
    }
}

/// A list of one entry holds its target. A further entry adds its target behind those that the
/// list named before, and changes nothing if it names none.
pub proof fn law_list_grows_by_entries(list: Seq<char>, entry: Seq<char>)
    requires
        !entry.contains(','),
    ensures
        security::parsed_entry(entry) matches Some(target) ==> security::allowed(Some(entry))
            == seq![target],
        ({
            let before = security::allowed(Some(list));
            let after = security::allowed(Some(list + seq![','] + entry));
            let parts = text::split(list, ',');
            let named = exists|i: int|
                0 <= i < parts.len() && security::parsed_entry(#[trigger] parts[i]) is Some;
            match security::parsed_entry(entry) {
                Some(target) => after == if named {
                    before.push(target)
                } else {
                    seq![target]
                },
                None => after == before,
            }
        }),
{
    let parts = text::split(list, ',');
    text_laws::law_separators_part_a_text(list, entry, ',');
    lemma_entries_push(Seq::empty(), entry);
    lemma_entries_push(parts, entry);
    lemma_named(parts, ("koukoku.shadan.open.ad.jp"@, 992));
    assert(Seq::<Seq<char>>::empty().push(entry) =~= seq![entry]);
    assert(security::parsed_entries(Seq::empty()) =~= Seq::empty());
    if let Some(target) = security::parsed_entry(entry) {
        assert(Seq::empty().push(target) =~= seq![target]);
        if security::parsed_entries(parts).len() == 0 {
            assert(security::parsed_entries(parts) =~= Seq::empty());
        }
    }
}

/// A target as an entry of a list, with white space around it.
pub open spec fn padded_entry(entry: (Seq<char>, (Seq<char>, u16), Seq<char>)) -> Seq<char> {
    let (a, target, b) = entry;
    a + target.0 + seq![':'] + text::decimal(target.1 as nat) + b
}

/// Such entries with commas between them.
pub open spec fn padded_list(entries: Seq<(Seq<char>, (Seq<char>, u16), Seq<char>)>) -> Seq<char>
    decreases entries.len(),
{
    if entries.len() == 0 {
        Seq::empty()
    } else if entries.len() == 1 {
        padded_entry(entries[0])
    } else {
        padded_list(entries.drop_last()) + seq![','] + padded_entry(entries.last())
    }
}

/// The targets are read back from their list, in their order, whatever white space stands around
/// its entries.
pub proof fn law_padded_list_is_read_back(entries: Seq<(Seq<char>, (Seq<char>, u16), Seq<char>)>)
    requires
        entries.len() > 0,
        forall|i: int|
            0 <= i < entries.len() ==> {
                let (a, target, b) = #[trigger] entries[i];
                &&& forall|j: int| 0 <= j < a.len() ==> text::is_space(#[trigger] a[j])
                &&& forall|j: int| 0 <= j < b.len() ==> text::is_space(#[trigger] b[j])
                &&& security::normalized(target.0) == Ok::<Seq<char>, security::TargetError>(
                    target.0,
                )
            },
    ensures
        security::allowed(Some(padded_list(entries))).len() == entries.len(),
        forall|i: int|
            0 <= i < entries.len() ==> #[trigger] security::allowed(
                Some(padded_list(entries)),
            )[i] == entries[i].1,
{
    lemma_padded_list(entries);
}

proof fn lemma_padded_list(entries: Seq<(Seq<char>, (Seq<char>, u16), Seq<char>)>)
    requires
        entries.len() > 0,
        forall|i: int|
            0 <= i < entries.len() ==> {
                let (a, target, b) = #[trigger] entries[i];
                &&& forall|j: int| 0 <= j < a.len() ==> text::is_space(#[trigger] a[j])
                &&& forall|j: int| 0 <= j < b.len() ==> text::is_space(#[trigger] b[j])
                &&& security::normalized(target.0) == Ok::<Seq<char>, security::TargetError>(
                    target.0,
                )
            },
    ensures
        security::allowed(Some(padded_list(entries))).len() == entries.len(),
        forall|i: int|
            0 <= i < entries.len() ==> #[trigger] security::allowed(
                Some(padded_list(entries)),
            )[i] == entries[i].1,
        exists|i: int|
            0 <= i < text::split(padded_list(entries), ',').len() && security::parsed_entry(
                #[trigger] text::split(padded_list(entries), ',')[i],
            ) is Some,
    decreases entries.len(),
{
    let last = entries.last();
    let entry = padded_entry(last);
    assert(entries[entries.len() - 1] == last);
    law_padded_entry_is_read_back(last.0, last.1, last.2);
    if entries.len() == 1 {
        law_list_grows_by_entries(Seq::empty(), entry);
        text_laws::law_separators_part_a_text(entry, entry, ',');
        assert(text::split(padded_list(entries), ',')[0] == entry);
    } else {
        let rest = entries.drop_last();
        let list = padded_list(rest);
        assert(forall|i: int| 0 <= i < rest.len() ==> rest[i] == entries[i]);
        lemma_padded_list(rest);
        law_list_grows_by_entries(list, entry);
        text_laws::law_separators_part_a_text(list, entry, ',');
        let parts = text::split(padded_list(entries), ',');
        assert(parts[parts.len() - 1] == entry);
    }
}

/// What is answered to a request for a host that is in order. Port 0 is refused, and so are the
/// ports of thirteen other services, whether they are on the list or not. Any other port is granted
/// exactly when it stands on the list together with the host, and refused as not on it otherwise.
pub proof fn law_ports(server: Seq<char>, port: u16, allowed: Seq<(Seq<char>, u16)>)
    ensures
        ({
            let r = security::validated(server, port, allowed);
            let blocked = seq![
                22u16,
                23,
                25,
                53,
                80,
                110,
                143,
                443,
                445,
                3306,
                5432,
                6379,
                11211,
            ].contains(port);
            let listed = exists|i: int|
                0 <= i < allowed.len() && (#[trigger] allowed[i]).0 == server && allowed[i].1
                    == port;
            if port == 0 {
                r == Err::<(Seq<char>, u16), security::TargetError>(
                    security::TargetError::InvalidPort,
                )
            } else if blocked {
                r == Err::<(Seq<char>, u16), security::TargetError>(
                    security::TargetError::PortNotAllowed,
                )
            } else if listed {
                r == Ok::<(Seq<char>, u16), security::TargetError>((server, port))
            } else {
                r == Err::<(Seq<char>, u16), security::TargetError>(
                    security::TargetError::NotAllowed,
                )
            }
        }),
{
    lemma_blocked(port);
    if exists|i: int|
        0 <= i < allowed.len() && (#[trigger] allowed[i]).0 == server && allowed[i].1 == port {
        let i = choose|i: int|
            0 <= i < allowed.len() && (#[trigger] allowed[i]).0 == server && allowed[i].1 == port;
        assert(allowed[i] == (server, port));
    }
}

proof fn lemma_blocked(port: u16)
    ensures
        security::is_blocked(port) <==> seq![
            22u16,
            23,
            25,
            53,
            80,
            110,
            143,
            443,
            445,
            3306,
            5432,
            6379,
            11211,
        ].contains(port),
{
    let ports = seq![22u16, 23, 25, 53, 80, 110, 143, 443, 445, 3306, 5432, 6379, 11211];
    assert(ports[0] == 22 && ports[1] == 23 && ports[2] == 25 && ports[3] == 53 && ports[4] == 80
        && ports[5] == 110 && ports[6] == 143 && ports[7] == 443 && ports[8] == 445 && ports[9]
        == 3306 && ports[10] == 5432 && ports[11] == 6379 && ports[12] == 11211);
}

/// A host that is refused is refused for its own sake, whatever the port and the list. For a host
/// that is accepted it is the name in lower case that is looked for on the list.
pub proof fn law_hosts_come_first(list: Option<Seq<char>>, server: Seq<char>, port: u16)
    ensures
        security::normalized(server) matches Err(error) ==> security::resolved(list, server, port)
            == Err::<(Seq<char>, u16), security::TargetError>(error),
        security::normalized(server) matches Ok(host) ==> security::resolved(list, server, port)
            == security::validated(host, port, security::allowed(list)),
{
}

/// Targets, hosts and refusals are viewed as they are.
pub proof fn law_targets_are_viewed_whole(
    targets: Seq<(String, u16)>,
    target: (String, u16),
    host: String,
    error: security::TargetError,
    text: &str,
)
    ensures
        security::targets_view(targets).len() == targets.len(),
        forall|i: int|
            0 <= i < targets.len() ==> #[trigger] security::targets_view(targets)[i] == (
                targets[i].0@,
                targets[i].1,
            ),
        security::target_view(target) == (target.0@, target.1),
        security::entry_view(Some(target)) == Some((target.0@, target.1)),
        security::entry_view(None) is None,
        security::resolved_view(Ok(target)) == Ok::<(Seq<char>, u16), security::TargetError>(
            (target.0@, target.1),
        ),
        security::resolved_view(Err(error)) == Err::<(Seq<char>, u16), security::TargetError>(
            error,
        ),
        security::host_view(Ok(host)) == Ok::<Seq<char>, security::TargetError>(host@),
        security::host_view(Err(error)) == Err::<Seq<char>, security::TargetError>(error),
        security::optional_view(Some(text)) == Some(text@),
        security::optional_view(None) is None,
{
}

} // verus!
