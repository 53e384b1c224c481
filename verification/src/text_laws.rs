//! What holds of characters, parts of a text and decimal numbers.

use crate::text;
use vstd::prelude::*;

verus! {

/// A text without the separator is one part. Behind a separator a new part starts, and the parts
/// before it stay as they are.
pub proof fn law_separators_part_a_text(a: Seq<char>, b: Seq<char>, separator: char)
    requires
        !b.contains(separator),
    ensures
        text::split(b, separator) == seq![b],
        text::split(a + seq![separator] + b, separator) == text::split(a, separator).push(b),
    decreases b.len(),
{
    let s = a + seq![separator] + b;
    text::lemma_split_len(a, separator);
    if b.len() == 0 {
        assert(s.drop_last() =~= a);
        assert(b =~= Seq::<char>::empty());
    } else {
        let rest = b.drop_last();
        assert(forall|i: int| 0 <= i < rest.len() ==> rest[i] == b[i]);
        assert(!rest.contains(separator));
        assert(b.last() == b[b.len() - 1]);
        law_separators_part_a_text(a, rest, separator);
        assert(s.drop_last() =~= a + seq![separator] + rest);
        assert(rest.push(b.last()) =~= b);
        assert(text::split(a, separator).push(rest).drop_last() =~= text::split(a, separator));
        assert(text::split(b, separator) =~= seq![b]);
    }
}

/// A character is found at the last place where it stands, and nowhere if it stands nowhere.
pub proof fn law_last_place_is_found(a: Seq<char>, b: Seq<char>, c: char)
    requires
        !b.contains(c),
    ensures
        text::last_index(a + seq![c] + b, c) == a.len(),
        text::last_index(b, c) == -1,
    decreases b.len(),
{
    let s = a + seq![c] + b;
    if b.len() == 0 {
        assert(s.last() == c);
    } else {
        let rest = b.drop_last();
        assert(forall|i: int| 0 <= i < rest.len() ==> rest[i] == b[i]);
        assert(!rest.contains(c));
        assert(s.last() == b[b.len() - 1]);
        assert(s.drop_last() =~= a + seq![c] + rest);
        law_last_place_is_found(a, rest, c);
    }
}

/// White space is the 25 characters with these numbers, and nothing else.
pub proof fn law_white_space(c: char)
    ensures
        text::is_space(c) <==> seq![
            9nat,
            10,
            11,
            12,
            13,
            32,
            133,
            160,
            5760,
            8192,
            8193,
            8194,
            8195,
            8196,
            8197,
            8198,
            8199,
            8200,
            8201,
            8202,
            8232,
            8233,
            8239,
            8287,
            12288,
        ].contains(c as nat),
{
    let spaces = seq![
        9nat,
        10,
        11,
        12,
        13,
        32,
        133,
        160,
        5760,
        8192,
        8193,
        8194,
        8195,
        8196,
        8197,
        8198,
        8199,
        8200,
        8201,
        8202,
        8232,
        8233,
        8239,
        8287,
        12288,
    ];
    let n = c as nat;
    assert(forall|i: int| 0 <= i < 5 ==> #[trigger] spaces[i] == 9 + i);
    assert(spaces[5] == 32 && spaces[6] == 133 && spaces[7] == 160 && spaces[8] == 5760);
    assert(forall|i: int| 9 <= i < 20 ==> #[trigger] spaces[i] == 8192 + i - 9);
    assert(spaces[20] == 8232 && spaces[21] == 8233 && spaces[22] == 8239 && spaces[23] == 8287
        && spaces[24] == 12288);
    if 9 <= n <= 13 {
        assert(spaces[n - 9] == n);
    }
    if 8192 <= n <= 8202 {
        assert(spaces[n - 8192 + 9] == n);
    }
}

/// White space around a text is taken off, all of it and on both sides, and nothing else is: `s`
/// is what is left of `a + s + b`.
pub proof fn law_padding_is_trimmed(a: Seq<char>, s: Seq<char>, b: Seq<char>)
    requires
        forall|i: int| 0 <= i < a.len() ==> text::is_space(#[trigger] a[i]),
        forall|i: int| 0 <= i < b.len() ==> text::is_space(#[trigger] b[i]),
        s.len() > 0 ==> !text::is_space(s[0]) && !text::is_space(s.last()),
    ensures
        text::trimmed(a + s + b) == s,
    decreases a.len() + b.len(),
{
    let t = a + s + b;
    if a.len() > 0 {
        let rest = a.skip(1);
        assert(t.skip(1) =~= rest + s + b);
        assert(t[0] == a[0]);
        assert(forall|i: int| 0 <= i < rest.len() ==> rest[i] == a[i + 1]);
        law_padding_is_trimmed(rest, s, b);
    } else if s.len() > 0 {
        assert(t =~= s + b);
        assert(t[0] == s[0]);
        lemma_trim_end(s, b);
    } else {
        assert(t =~= b);
        if b.len() > 0 {
            let rest = b.skip(1);
            assert(t.skip(1) =~= a + s + rest);
            assert(forall|i: int| 0 <= i < rest.len() ==> rest[i] == b[i + 1]);
            law_padding_is_trimmed(a, s, rest);
        } else {
            assert(t =~= s);
        }
    }
}

proof fn lemma_trim_end(s: Seq<char>, b: Seq<char>)
    requires
        forall|i: int| 0 <= i < b.len() ==> text::is_space(#[trigger] b[i]),
        s.len() > 0,
        !text::is_space(s.last()),
    ensures
        text::trim_end(s + b) == s,
    decreases b.len(),
{
    if b.len() > 0 {
        let rest = b.drop_last();
        assert((s + b).drop_last() =~= s + rest);
        assert((s + b).last() == b[b.len() - 1]);
        lemma_trim_end(s, rest);
    } else {
        assert(s + b =~= s);
    }
}

/// A port is read digit by digit, with a `+` before it or not. Every further digit counts ten
/// times what was read and itself. What is over 65535 is no port, nor is what holds anything but
/// digits, nor what holds none.
pub proof fn law_port_is_read_digit_by_digit(s: Seq<char>, c: char)
    ensures
        text::parsed_u16(Seq::empty()) is None,
        text::parsed_u16(seq!['+']) is None,
        48 <= c as nat <= 57 ==> {
            let n = c as nat - 48;
            &&& text::parsed_u16(seq![c]) == Some(n as u16)
            &&& text::parsed_u16(seq!['+', c]) == Some(n as u16)
            &&& text::parsed_u16(s) matches Some(port) ==> text::parsed_u16(s.push(c)) == if port
                * 10 + n <= 65535 {
                Some((port * 10 + n) as u16)
            } else {
                None
            }
            &&& text::parsed_u16(s) is None && s.len() > 0 && s != seq!['+'] ==> text::parsed_u16(
                s.push(c),
            ) is None
        },
        !(48 <= c as nat <= 57) ==> text::parsed_u16(s.push(c)) is None,
{
    let empty = Seq::<char>::empty();
    let t = s.push(c);
    assert(text::decimal_value(empty) == 0);
    assert(seq!['+'].skip(1) =~= empty);
    assert(!text::is_decimal(empty));
    assert(seq![c].drop_last() =~= empty);
    assert(seq!['+', c].skip(1) =~= seq![c]);
    if 48 <= c as nat <= 57 {
        assert(text::is_decimal(seq![c]));
        assert(text::decimal_value(seq![c]) == c as nat - 48);
    }
    let signed = s.len() > 0 && s[0] == '+';
    let before = if signed { s.skip(1) } else { s };
    let after = if t.len() > 0 && t[0] == '+' { t.skip(1) } else { t };
    if s.len() > 0 {
        assert(t[0] == s[0]);
        assert(after =~= before.push(c));
    }
    if !(48 <= c as nat <= 57) {
        if s.len() == 0 {
            assert(t =~= seq![c]);
        }
        if after.len() > 0 {
            assert(after[after.len() - 1] == c);
            assert(!text::is_digit(after[after.len() - 1]));
        }
        assert(!text::is_decimal(after));
    } else if s.len() > 0 {
        assert(after.drop_last() =~= before);
        if before.len() == 0 {
            assert(s =~= seq!['+']);
        } else if text::is_decimal(before) {
            assert forall|i: int| 0 <= i < after.len() implies text::is_digit(
                #[trigger] after[i],
            ) by {
                if i < before.len() {
                    assert(text::is_digit(before[i]));
                }
            }
        } else {
            let i = choose|i: int| 0 <= i < before.len() && !text::is_digit(#[trigger] before[i]);
            assert(!text::is_digit(after[i]));
        }
    }
}

/// A number is written digit by digit: below ten as one digit, and else as what it holds of tens
/// and the digit that is left.
pub proof fn law_number_is_written_digit_by_digit(n: nat, d: nat)
    requires
        d < 10,
    ensures
        text::decimal(d) == seq![(48 + d) as char],
        n > 0 ==> text::decimal(10 * n + d) == text::decimal(n).push((48 + d) as char),
{
    if n > 0 {
        assert((10 * n + d) / 10 == n);
        assert((10 * n + d) % 10 == d);
    }
}

/// A list of parts is viewed part by part.
pub proof fn law_parts_are_viewed_whole(parts: Seq<Vec<char>>)
    ensures
        text::parts_view(parts).len() == parts.len(),
        forall|i: int|
            0 <= i < parts.len() ==> #[trigger] text::parts_view(parts)[i] == parts[i]@,
{
}

} // verus!
