//! Which texts are IP addresses, stated on the numbers and the groups that they write.

use crate::ip;
use crate::text;
use crate::text_laws;
use vstd::prelude::*;

verus! {

/// Four numbers with dots between them.
pub open spec fn dotted(a: nat, b: nat, c: nat, d: nat) -> Seq<char> {
    text::decimal(a) + seq!['.'] + text::decimal(b) + seq!['.'] + text::decimal(c) + seq!['.']
        + text::decimal(d)
}

proof fn lemma_decimal_len(n: nat)
    requires
        n <= 255,
    ensures
        1 <= text::decimal(n).len() <= 3,
        text::decimal(n).len() > 1 ==> text::decimal(n)[0] != '0',
{
    reveal_with_fuel(text::decimal, 3);
}

proof fn lemma_octet(s: Seq<char>)
    requires
        ip::is_octet(s),
    ensures
        text::decimal_value(s) <= 255,
        text::decimal(text::decimal_value(s)) == s,
{
    reveal_with_fuel(text::decimal, 3);
    reveal_with_fuel(text::decimal_value, 4);
    assert(text::is_digit(s[0]));
    let n = text::decimal_value(s);
    if s.len() == 1 {
        assert(n == s[0] as nat - 48);
        assert(text::decimal(n) =~= s);
    } else if s.len() == 2 {
        assert(text::is_digit(s[1]));
        assert(s.drop_last().last() == s[0]);
        assert(n == 10 * (s[0] as nat - 48) + (s[1] as nat - 48));
        assert(text::decimal(n) =~= s);
    } else {
        assert(text::is_digit(s[1]) && text::is_digit(s[2]));
        assert(s.drop_last().last() == s[1]);
        assert(s.drop_last().drop_last().last() == s[0]);
        assert(n == 100 * (s[0] as nat - 48) + 10 * (s[1] as nat - 48) + (s[2] as nat - 48));
        assert(text::decimal(n) =~= s);
    }
}

proof fn lemma_no_dot(n: nat)
    ensures
        !text::decimal(n).contains('.'),
        !text::decimal(n).contains(':'),
{
    text::law_decimal_is_read_back(n);
    let s = text::decimal(n);
    assert forall|i: int| 0 <= i < s.len() implies s[i] != '.' && s[i] != ':' by {
        assert(text::is_digit(s[i]));
    }
}

/// Four numbers up to 255, written in base ten with dots between them, are an IP address.
pub proof fn law_four_numbers_are_an_address(a: nat, b: nat, c: nat, d: nat)
    requires
        a <= 255,
        b <= 255,
        c <= 255,
        d <= 255,
    ensures
        ip::is_ipv4(dotted(a, b, c, d)),
        ip::is_ip_literal(dotted(a, b, c, d)),
{
    let (s, t, u, v) = (text::decimal(a), text::decimal(b), text::decimal(c), text::decimal(d));
    lemma_no_dot(a);
    lemma_no_dot(b);
    lemma_no_dot(c);
    lemma_no_dot(d);
    lemma_decimal_len(a);
    lemma_decimal_len(b);
    lemma_decimal_len(c);
    lemma_decimal_len(d);
    text::law_decimal_is_read_back(a);
    text::law_decimal_is_read_back(b);
    text::law_decimal_is_read_back(c);
    text::law_decimal_is_read_back(d);
    text_laws::law_separators_part_a_text(s, s, '.');
    text_laws::law_separators_part_a_text(s, t, '.');
    text_laws::law_separators_part_a_text(s + seq!['.'] + t, u, '.');
    text_laws::law_separators_part_a_text(s + seq!['.'] + t + seq!['.'] + u, v, '.');
    assert(text::split(dotted(a, b, c, d), '.') =~= seq![s, t, u, v]);
}

proof fn lemma_split_joined(s: Seq<char>, separator: char)
    ensures
        ({
            let parts = text::split(s, separator);
            &&& parts.len() >= 1
            &&& !parts.last().contains(separator)
            &&& parts.len() == 1 ==> s == parts[0]
            &&& parts.len() > 1 ==> exists|a: Seq<char>|
                s == #[trigger] (a + seq![separator] + parts.last()) && text::split(a, separator)
                    == parts.drop_last()
        }),
    decreases s.len(),
{
    let parts = text::split(s, separator);
    text::lemma_split_len(s, separator);
    if s.len() == 0 {
        assert(s =~= parts[0]);
    } else {
        let rest = s.drop_last();
        let before = text::split(rest, separator);
        lemma_split_joined(rest, separator);
        if s.last() == separator {
            assert(s =~= rest + seq![separator] + Seq::<char>::empty());
            assert(parts.drop_last() =~= before);
        } else {
            assert(parts.last() == before.last().push(s.last()));
            assert forall|i: int| 0 <= i < parts.last().len() implies parts.last()[i]
                != separator by {
                if i < before.last().len() {
                    assert(before.last().contains(before.last()[i]));
                }
            }
            if before.len() == 1 {
                assert(s =~= parts[0]);
            } else {
                let a = choose|a: Seq<char>|
                    rest == #[trigger] (a + seq![separator] + before.last()) && text::split(
                        a,
                        separator,
                    ) == before.drop_last();
                assert(s =~= rest.push(s.last()));
                assert((a + seq![separator] + before.last()).push(s.last()) =~= a + seq![separator]
                    + parts.last());
                assert(parts.drop_last() =~= before.drop_last());
            }
        }
    }
}

/// An IP address without a colon is four numbers up to 255, written in base ten with dots between
/// them: no number is missing, over 255 or padded with zeros, and there is nothing else.
pub proof fn law_address_is_four_numbers(s: Seq<char>)
    requires
        !s.contains(':'),
        ip::is_ip_literal(s),
    ensures
        exists|a: nat, b: nat, c: nat, d: nat|
            a <= 255 && b <= 255 && c <= 255 && d <= 255 && s == #[trigger] dotted(a, b, c, d),
{
    text_laws::law_separators_part_a_text(s, s, ':');
    assert(ip::is_ipv4(s)) by {
        if ip::is_ipv6(s) {
            law_address_without_gap(s);
            assert(ip::group_count(s, true) == Some(8nat));
        }
    }
    lemma_four_numbers(s);
}

proof fn lemma_four_numbers(s: Seq<char>)
    requires
        ip::is_ipv4(s),
    ensures
        exists|a: nat, b: nat, c: nat, d: nat|
            a <= 255 && b <= 255 && c <= 255 && d <= 255 && s == #[trigger] dotted(a, b, c, d),
{
    let parts = text::split(s, '.');
    assert(ip::is_octet(parts[0]) && ip::is_octet(parts[1]) && ip::is_octet(parts[2])
        && ip::is_octet(parts[3]));
    lemma_octet(parts[0]);
    lemma_octet(parts[1]);
    lemma_octet(parts[2]);
    lemma_octet(parts[3]);
    lemma_split_joined(s, '.');
    let x = choose|a: Seq<char>|
        s == #[trigger] (a + seq!['.'] + parts.last()) && text::split(a, '.') == parts.drop_last();
    let three = parts.drop_last();
    lemma_split_joined(x, '.');
    let y = choose|a: Seq<char>|
        x == #[trigger] (a + seq!['.'] + three.last()) && text::split(a, '.') == three.drop_last();
    let two = three.drop_last();
    lemma_split_joined(y, '.');
    let z = choose|a: Seq<char>|
        y == #[trigger] (a + seq!['.'] + two.last()) && text::split(a, '.') == two.drop_last();
    lemma_split_joined(z, '.');
    assert(z == parts[0]);
    assert(s =~= dotted(
        text::decimal_value(parts[0]),
        text::decimal_value(parts[1]),
        text::decimal_value(parts[2]),
        text::decimal_value(parts[3]),
    ));
}

/// Groups are counted one by one. `s` is any text before the last colon, and `last` what follows
/// it. A group has one to four hexadecimal digits and counts once. An address of four numbers
/// counts twice, where one may stand, and only at the end. With anything else there is no count.
pub proof fn law_groups_are_counted(s: Seq<char>, last: Seq<char>, ipv4_at_end: bool)
    requires
        !last.contains(':'),
    ensures
        ({
            let group = 1 <= last.len() <= 4 && forall|i: int|
                0 <= i < last.len() ==> {
                    let n = #[trigger] last[i] as nat;
                    48 <= n <= 57 || 65 <= n <= 70 || 97 <= n <= 102
                };
            let count: nat = if group {
                1
            } else if ipv4_at_end && ip::is_ipv4(last) {
                2
            } else {
                0
            };
            &&& ip::group_count(Seq::empty(), ipv4_at_end) == Some(0nat)
            &&& last.len() > 0 ==> ip::group_count(last, ipv4_at_end) == if count > 0 {
                Some(count)
            } else {
                None
            }
            &&& ip::group_count(s + seq![':'] + last, ipv4_at_end) == if count > 0 && s.len() > 0
                && ip::group_count(s, false) is Some {
                Some(ip::group_count(s, false)->0 + count)
            } else {
                None
            }
        }),
{
    let group = 1 <= last.len() <= 4 && forall|i: int|
        0 <= i < last.len() ==> {
            let n = #[trigger] last[i] as nat;
            48 <= n <= 57 || 65 <= n <= 70 || 97 <= n <= 102
        };
    lemma_group(last);
    assert(group == ip::is_group(last));
    text_laws::law_separators_part_a_text(s, last, ':');
    let before = text::split(s, ':');
    let one = seq![last];
    assert(one.drop_last() =~= Seq::<Seq<char>>::empty());
    assert(ip::all_groups(one) == ip::is_group(last)) by {
        assert(one[0] == last);
    }
    let all = before.push(last);
    assert(all.drop_last() =~= before);
    assert(ip::all_groups(all) == (ip::all_groups(before) && ip::is_group(last))) by {
        assert(all[before.len() as int] == last);
        assert(forall|i: int| 0 <= i < before.len() ==> all[i] == before[i]);
        if ip::all_groups(all) {
            assert forall|i: int| 0 <= i < before.len() implies ip::is_group(
                #[trigger] before[i],
            ) by {
                assert(ip::is_group(all[i]));
            }
        }
    }
    if s.len() == 0 {
        assert(!ip::is_group(before[0]));
        assert(!ip::all_groups(before));
    }
}

proof fn lemma_group(s: Seq<char>)
    ensures
        ip::is_group(s) <==> 1 <= s.len() <= 4 && forall|i: int|
            0 <= i < s.len() ==> {
                let n = #[trigger] s[i] as nat;
                48 <= n <= 57 || 65 <= n <= 70 || 97 <= n <= 102
            },
{
    assert forall|i: int| 0 <= i < s.len() implies ip::is_hex_digit(#[trigger] s[i]) <==> {
        let n = s[i] as nat;
        48 <= n <= 57 || 65 <= n <= 70 || 97 <= n <= 102
    } by {
        law_hexadecimal_digits(s[i]);
    }
}

/// The hexadecimal digits are `0` to `9`, `A` to `F` and `a` to `f`.
pub proof fn law_hexadecimal_digits(c: char)
    ensures
        ip::is_hex_digit(c) <==> {
            let n = c as nat;
            48 <= n <= 57 || 65 <= n <= 70 || 97 <= n <= 102
        },
{
}

proof fn lemma_compression(s: Seq<char>, index: int, k: int)
    requires
        0 <= index <= k <= s.len(),
        forall|i: int| index <= i < k && i + 1 < s.len() ==> !(#[trigger] s[i] == ':' && s[i + 1]
            == ':'),
        k == s.len() || (k + 1 < s.len() && s[k] == ':' && s[k + 1] == ':'),
    ensures
        ip::compression_from(s, index) == k,
    decreases k - index,
{
    if index < k && index + 1 < s.len() {
        assert(!(s[index] == ':' && s[index + 1] == ':'));
        lemma_compression(s, index + 1, k);
    }
}

/// A text without two colons in a row is an IP address with colons exactly when it has eight
/// groups.
pub proof fn law_address_without_gap(s: Seq<char>)
    requires
        forall|i: int| 0 <= i < s.len() - 1 ==> !(#[trigger] s[i] == ':' && s[i + 1] == ':'),
    ensures
        ip::is_ipv6(s) <==> ip::group_count(s, true) == Some(8nat),
{
    lemma_compression(s, 0, s.len() as int);
}

/// A text whose first two colons in a row stand behind `head` is an IP address exactly when the
/// groups before and behind them can be counted and are no more than seven.
pub proof fn law_address_with_gap(head: Seq<char>, tail: Seq<char>)
    requires
        head.len() > 0 ==> head.last() != ':',
        forall|i: int|
            0 <= i < head.len() - 1 ==> !(#[trigger] head[i] == ':' && head[i + 1] == ':'),
    ensures
        ip::is_ipv6(head + seq![':', ':'] + tail) <==> {
            &&& ip::group_count(head, false) is Some
            &&& ip::group_count(tail, true) is Some
            &&& ip::group_count(head, false)->0 + ip::group_count(tail, true)->0 <= 7
        },
        ip::is_ip_literal(head + seq![':', ':'] + tail) == ip::is_ipv6(
            head + seq![':', ':'] + tail,
        ),
{
    let s = head + seq![':', ':'] + tail;
    let k = head.len() as int;
    assert forall|i: int| 0 <= i < k && i + 1 < s.len() implies !(#[trigger] s[i] == ':'
        && s[i + 1] == ':') by {
        assert(s[i] == head[i]);
        if i < k - 1 {
            assert(s[i + 1] == head[i + 1]);
        } else {
            assert(head.last() == head[i]);
        }
    }
    assert(s[k] == ':' && s[k + 1] == ':');
    lemma_compression(s, 0, k);
    assert(s.take(k) =~= head);
    assert(s.skip(k + 2) =~= tail);
    law_address_with_colons(head, seq![':'] + tail);
    assert(s =~= head + seq![':'] + (seq![':'] + tail));
}

/// A text with a colon is an IP address exactly when it is one with groups.
pub proof fn law_address_with_colons(a: Seq<char>, b: Seq<char>)
    ensures
        ip::is_ip_literal(a + seq![':'] + b) == ip::is_ipv6(a + seq![':'] + b),
{
    let s = a + seq![':'] + b;
    if ip::is_ipv4(s) {
        lemma_four_numbers(s);
        let (n, o, p, q) = choose|n: nat, o: nat, p: nat, q: nat|
            n <= 255 && o <= 255 && p <= 255 && q <= 255 && s == #[trigger] dotted(n, o, p, q);
        lemma_no_dot(n);
        lemma_no_dot(o);
        lemma_no_dot(p);
        lemma_no_dot(q);
        let i = a.len() as int;
        assert(s[i] == ':');
        let (j, k, l) = (
            text::decimal(n).len() as int,
            text::decimal(o).len() as int,
            text::decimal(p).len() as int,
        );
        if i < j {
            assert(s[i] == text::decimal(n)[i]);
        } else if i > j && i < j + 1 + k {
            assert(s[i] == text::decimal(o)[i - j - 1]);
        } else if i > j + 1 + k && i < j + 2 + k + l {
            assert(s[i] == text::decimal(p)[i - j - k - 2]);
        } else if i > j + 2 + k + l {
            assert(s[i] == text::decimal(q)[i - j - k - l - 3]);
        }
    }
}

} // verus!
