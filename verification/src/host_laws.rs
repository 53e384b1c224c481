//! Which texts are host names and which are IP addresses, stated on their characters.

use crate::ip;
use crate::security;
use crate::security_laws;
use crate::text;
use crate::text_laws;
use vstd::prelude::*;

verus! {

/// Lower case keeps every character but the letters `A` to `Z`, which are raised by 32.
pub proof fn law_lower_case(s: Seq<char>)
    ensures
        security::lower(s).len() == s.len(),
        forall|i: int|
            0 <= i < s.len() ==> #[trigger] security::lower(s)[i] as nat == if 65 <= s[i] as nat
                <= 90 {
                s[i] as nat + 32
            } else {
                s[i] as nat
            },
{
}

/// A host name holds hyphens, dots, digits and the letters `a` to `z` and `A` to `Z`.
pub proof fn law_host_characters(c: char)
    ensures
        security::is_host_char(c) <==> {
            let n = c as nat;
            n == 45 || n == 46 || 48 <= n <= 57 || 65 <= n <= 90 || 97 <= n <= 122
        },
{
}

proof fn lemma_dots(s: Seq<char>, dots: Seq<char>)
    requires
        s.len() > 0 ==> s.last() != '.',
        forall|i: int| 0 <= i < dots.len() ==> #[trigger] dots[i] == '.',
    ensures
        security::trim_dots(s + dots) == s,
    decreases dots.len(),
{
    if dots.len() > 0 {
        assert(dots[dots.len() - 1] == '.');
        assert((s + dots).drop_last() =~= s + dots.drop_last());
        lemma_dots(s, dots.drop_last());
    } else {
        assert(s + dots =~= s);
    }
}

/// The host is found between the white space around it and the dots behind it.
pub proof fn law_host_is_found(a: Seq<char>, host: Seq<char>, dots: Seq<char>, b: Seq<char>)
    requires
        forall|i: int| 0 <= i < a.len() ==> text::is_space(#[trigger] a[i]),
        forall|i: int| 0 <= i < dots.len() ==> #[trigger] dots[i] == '.',
        forall|i: int| 0 <= i < b.len() ==> text::is_space(#[trigger] b[i]),
        host.len() > 0 ==> !text::is_space(host[0]) && host.last() != '.',
        host.len() > 0 && dots.len() == 0 ==> !text::is_space(host.last()),
    ensures
        security::host_part(a + host + dots + b) == host,
{
    let core = host + dots;
    if dots.len() > 0 {
        assert(dots[0] == '.');
        assert(dots[dots.len() - 1] == '.');
        assert(core.last() == '.');
    } else {
        assert(core =~= host);
    }
    assert(a + host + dots + b =~= a + core + b);
    text_laws::law_padding_is_trimmed(a, core, b);
    lemma_dots(host, dots);
}

/// What becomes of a host, whatever white space stands around it and however many dots behind it.
///
/// An IP address is refused as such. A host is well formed if it holds nothing but letters,
/// digits, hyphens and dots, if no hyphen stands at either end, if the parts between its dots have
/// 1 to 63 characters, and if it has 253 in all at most. It is then accepted, in lower case, if it
/// has two parts or more, and refused as not a full name if it has one. A host that is not well
/// formed, or empty, is refused as invalid.
pub proof fn law_hosts(a: Seq<char>, host: Seq<char>, dots: Seq<char>, b: Seq<char>)
    requires
        forall|i: int| 0 <= i < a.len() ==> text::is_space(#[trigger] a[i]),
        forall|i: int| 0 <= i < dots.len() ==> #[trigger] dots[i] == '.',
        forall|i: int| 0 <= i < b.len() ==> text::is_space(#[trigger] b[i]),
        host.len() > 0 ==> !text::is_space(host[0]) && host.last() != '.',
        host.len() > 0 && dots.len() == 0 ==> !text::is_space(host.last()),
    ensures
        ({
            let r = security::normalized(a + host + dots + b);
            let labels = text::split(host, '.');
            let well_formed = {
                &&& 1 <= host.len() <= 253
                &&& forall|i: int|
                    0 <= i < host.len() ==> {
                        let n = #[trigger] host[i] as nat;
                        n == 45 || n == 46 || 48 <= n <= 57 || 65 <= n <= 90 || 97 <= n <= 122
                    }
                &&& host[0] != '-'
                &&& host.last() != '-'
                &&& forall|i: int|
                    0 <= i < labels.len() ==> 1 <= (#[trigger] labels[i]).len() <= 63
            };
            if ip::is_ip_literal(host) {
                r == Err::<Seq<char>, security::TargetError>(security::TargetError::IpLiteral)
            } else if !well_formed {
                r == Err::<Seq<char>, security::TargetError>(
                    security::TargetError::InvalidHostname,
                )
            } else if labels.len() < 2 {
                r == Err::<Seq<char>, security::TargetError>(security::TargetError::NotFqdn)
            } else {
                &&& r is Ok
                &&& r->Ok_0.len() == host.len()
                &&& forall|i: int|
                    0 <= i < host.len() ==> #[trigger] r->Ok_0[i] as nat == if 65
                        <= host[i] as nat <= 90 {
                        host[i] as nat + 32
                    } else {
                        host[i] as nat
                    }
            }
        }),
{
    let server = a + host + dots + b;
    let labels = text::split(host, '.');
    law_host_is_found(a, host, dots, b);
    law_lower_case(host);
    if ip::is_ip_literal(host) {
        security_laws::law_ip_addresses_are_refused(server);
    } else if host.len() > 0 {
        assert forall|i: int| 0 <= i < host.len() implies security::is_host_char(
            #[trigger] host[i],
        ) <==> {
            let n = host[i] as nat;
            n == 45 || n == 46 || 48 <= n <= 57 || 65 <= n <= 90 || 97 <= n <= 122
        } by {
            law_host_characters(host[i]);
        }
        assert forall|i: int| 0 <= i < labels.len() implies security::is_label(
            #[trigger] labels[i],
        ) <==> 1 <= labels[i].len() <= 63 by {}
        if security::is_host_name(host) {
            security_laws::lemma_ascii(host);
        }
    }
}

} // verus!
