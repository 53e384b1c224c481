//! Recognition of IP addresses that are written out in place of a host name.

use crate::text;
use vstd::prelude::*;
use vstd::slice::slice_subrange;

verus! {

/// One of the four numbers of an IPv4 address: at most 255, without leading zeros.
pub open spec fn is_octet(s: Seq<char>) -> bool {
    &&& s.len() <= 3
    &&& text::is_decimal(s)
    &&& s.len() > 1 ==> s[0] != '0'
    &&& text::decimal_value(s) <= 255
}

/// An IPv4 address in dotted notation.
pub open spec fn is_ipv4(s: Seq<char>) -> bool {
    let parts = text::split(s, '.');
    parts.len() == 4 && forall|i: int| 0 <= i < 4 ==> is_octet(#[trigger] parts[i])
}

/// A hexadecimal digit.
pub open spec fn is_hex_digit(c: char) -> bool {
    ('0' <= c <= '9') || ('a' <= c <= 'f') || ('A' <= c <= 'F')
}

/// One of the groups of an IPv6 address: one to four hexadecimal digits.
pub open spec fn is_group(s: Seq<char>) -> bool {
    1 <= s.len() <= 4 && forall|i: int| 0 <= i < s.len() ==> is_hex_digit(#[trigger] s[i])
}

/// True when all parts are groups.
pub open spec fn all_groups(parts: Seq<Seq<char>>) -> bool {
    forall|i: int| 0 <= i < parts.len() ==> is_group(#[trigger] parts[i])
}

/// The number of 16-bit groups that `s` writes with colons between them; an IPv4 address at the
/// end stands for two groups, where one may stand.
pub open spec fn group_count(s: Seq<char>, ipv4_at_end: bool) -> Option<nat> {
    let parts = text::split(s, ':');
    if s.len() == 0 {
        Some(0)
    } else if all_groups(parts) {
        Some(parts.len())
    } else if ipv4_at_end && all_groups(parts.drop_last()) && is_ipv4(parts.last()) {
        Some(parts.len() + 1)
    } else {
        None
    }
}

/// The index of the first `::` at or after `index`, or the length of `s`.
pub open spec fn compression_from(s: Seq<char>, index: int) -> int
    decreases s.len() - index,
{
    if index + 1 >= s.len() {
        s.len() as int
    } else if s[index] == ':' && s[index + 1] == ':' {
        index
    } else {
        compression_from(s, index + 1)
    }
}

/// An IPv6 address: eight groups, or fewer with one `::` in place of the zero groups.
pub open spec fn is_ipv6(s: Seq<char>) -> bool {
    let k = compression_from(s, 0);
    if k == s.len() {
        group_count(s, true) == Some(8nat)
    } else {
        match (group_count(s.take(k), false), group_count(s.skip(k + 2), true)) {
            (Some(head), Some(tail)) => head + tail <= 7,
            _ => false,
        }
    }
}

/// An IP address that is written out.
pub open spec fn is_ip_literal(s: Seq<char>) -> bool {
    is_ipv4(s) || is_ipv6(s)
}

fn octet(s: &[char]) -> (r: bool)
    ensures
        r == is_octet(s@),
{
    if s.len() == 0 || s.len() > 3 || s[0] == '+' || (s.len() > 1 && s[0] == '0') {
        assert(s@.len() > 0 && s@[0] == '+' ==> !text::is_digit(s@[0]));
        return false;
    }
    match text::parse_u16(s) {
        Some(value) => value <= 255,
        None => false,
    }
}

fn ipv4(s: &[char]) -> (r: bool)
    ensures
        r == is_ipv4(s@),
{
    let parts = text::split_chars(s, '.');
    let ghost views = text::split(s@, '.');
    if parts.len() != 4 {
        return false;
    }
    let mut index: usize = 0;
    while index < 4
        invariant
            index <= 4,
            parts.len() == 4,
            views == text::split(s@, '.'),
            text::parts_view(parts@) == views,
            forall|i: int| 0 <= i < index ==> is_octet(#[trigger] views[i]),
        decreases 4 - index,
    {
        assert(views[index as int] == parts[index as int]@);
        if !octet(parts[index].as_slice()) {
            return false;
        }
        index += 1;
    }
    true
}

fn group(s: &[char]) -> (r: bool)
    ensures
        r == is_group(s@),
{
    if s.len() == 0 || s.len() > 4 {
        return false;
    }
    let mut index: usize = 0;
    while index < s.len()
        invariant
            index <= s.len(),
            1 <= s.len() <= 4,
            forall|i: int| 0 <= i < index ==> is_hex_digit(#[trigger] s@[i]),
        decreases s.len() - index,
    {
        let c = s[index];
        if !(('0' <= c && c <= '9') || ('a' <= c && c <= 'f') || ('A' <= c && c <= 'F')) {
            assert(!is_hex_digit(s@[index as int]));
            return false;
        }
        index += 1;
    }
    true
}

/// Returns the number of 16-bit groups that `s` writes.
fn count_groups(s: &[char], ipv4_at_end: bool) -> (r: Option<usize>)
    ensures
        match r {
            Some(n) => group_count(s@, ipv4_at_end) == Some(n as nat),
            None => group_count(s@, ipv4_at_end) is None,
        },
{
    if s.len() == 0 {
        return Some(0);
    }
    let parts = text::split_chars(s, ':');
    let ghost views = text::split(s@, ':');
    let count: usize = parts.len();
    proof {
        text::lemma_split_len(s@, ':');
        assert(views.len() == count);
    }
    let mut index: usize = 0;
    while index < count - 1
        invariant
            1 <= count,
            index <= count - 1,
            count == parts.len(),
            count == views.len(),
            s@.len() > 0,
            views == text::split(s@, ':'),
            text::parts_view(parts@) == views,
            forall|i: int| 0 <= i < index ==> is_group(#[trigger] views[i]),
        decreases count - index,
    {
        assert(views[index as int] == parts[index as int]@);
        if !group(parts[index].as_slice()) {
            assert(views.drop_last()[index as int] == views[index as int]);
            return None;
        }
        index += 1;
    }
    assert(all_groups(views.drop_last()));
    assert(views.last() == parts[count - 1]@);
    let last = parts[count - 1].as_slice();
    if group(last) {
        assert(all_groups(views));
        return Some(count);
    }
    assert(!is_group(views[count - 1]));
    if ipv4_at_end && ipv4(last) {
        proof {
            text::lemma_split_len(views.last(), '.');
        }
        return Some(count + 1);
    }
    None
}

/// Returns the index of the first `::`, or the length of `s`.
fn find_compression(s: &[char]) -> (r: usize)
    ensures
        r == compression_from(s@, 0),
        r == s.len() || r + 2 <= s.len(),
{
    let mut index: usize = 0;
    while index < s.len() && index + 1 < s.len()
        invariant
            index <= s.len(),
            compression_from(s@, index as int) == compression_from(s@, 0),
        decreases s.len() - index,
    {
        if s[index] == ':' && s[index + 1] == ':' {
            return index;
        }
        index += 1;
    }
    s.len()
}

fn ipv6(s: &[char]) -> (r: bool)
    ensures
        r == is_ipv6(s@),
{
    let k: usize = find_compression(s);
    if k == s.len() {
        return match count_groups(s, true) {
            Some(n) => n == 8,
            None => false,
        };
    }
    let head = slice_subrange(s, 0, k);
    let tail = slice_subrange(s, k + 2, s.len());
    assert(head@ =~= s@.take(k as int));
    assert(tail@ =~= s@.skip(k + 2));
    match (count_groups(head, false), count_groups(tail, true)) {
        (Some(a), Some(b)) => a <= 7 && b <= 7 - a,
        _ => false,
    }
}

/// Returns whether `s` is an IP address that is written out.
pub fn ip_literal(s: &[char]) -> (r: bool)
    ensures
        r == is_ip_literal(s@),
{
    ipv4(s) || ipv6(s)
}

} // verus!
