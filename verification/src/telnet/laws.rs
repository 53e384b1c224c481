//! What the bytes of a session mean, stated on the bytes.

use crate::telnet::ansi;
use crate::telnet::processor;
use crate::telnet::protocol;
use vstd::prelude::*;

verus! {

/// A byte other than 255 is data: it comes out in front of what the rest holds.
pub proof fn law_plain_bytes_are_data(b: u8, s: Seq<u8>)
    requires
        b != 255,
    ensures
        protocol::drained(seq![b] + s).data == seq![b] + protocol::drained(s).data,
        protocol::drained(seq![b] + s).replies == protocol::drained(s).replies,
        protocol::drained(seq![b] + s).used == 1 + protocol::drained(s).used,
        protocol::scanned(seq![b] + s).data == seq![b] + protocol::scanned(s).data,
        protocol::scanned(seq![b] + s).reply == protocol::scanned(s).reply,
        protocol::scanned(seq![b] + s).used == 1 + protocol::scanned(s).used,
{
    assert((seq![b] + s).skip(1) =~= s);
}

/// A doubled 255 is one byte of data.
pub proof fn law_doubled_byte_is_data(s: Seq<u8>)
    ensures
        ({
            let t = seq![255u8, 255u8] + s;
            &&& protocol::drained(t).data == seq![255u8] + protocol::drained(s).data
            &&& protocol::drained(t).replies == protocol::drained(s).replies
            &&& protocol::drained(t).used == 2 + protocol::drained(s).used
            &&& protocol::scanned(t).data == seq![255u8] + protocol::scanned(s).data
            &&& protocol::scanned(t).reply == protocol::scanned(s).reply
            &&& protocol::scanned(t).used == 2 + protocol::scanned(s).used
        }),
{
    assert((seq![255u8, 255u8] + s).skip(2) =~= s);
}

/// A command and its option are taken out of the data, whatever they are. A request (253) and an
/// offer (251) are answered first of all: agreed to for option 42, with 251 and 253, and refused
/// for any other, with 252 and 254. Nothing else is answered.
pub proof fn law_commands_are_not_data(command: u8, option: u8, s: Seq<u8>)
    requires
        command != 255,
        command != 250,
    ensures
        ({
            let t = seq![255u8, command, option] + s;
            let rest = protocol::drained(s);
            &&& protocol::drained(t).data == rest.data
            &&& protocol::drained(t).used == 3 + rest.used
            &&& command == 253 && option == 42 ==> protocol::drained(t).replies == seq![
                seq![255u8, 251, 42],
            ] + rest.replies
            &&& command == 253 && option != 42 ==> protocol::drained(t).replies == seq![
                seq![255u8, 252, option],
            ] + rest.replies
            &&& command == 251 && option == 42 ==> protocol::drained(t).replies == seq![
                seq![255u8, 253, 42],
            ] + rest.replies
            &&& command == 251 && option != 42 ==> protocol::drained(t).replies == seq![
                seq![255u8, 254, option],
            ] + rest.replies
            &&& command != 253 && command != 251 ==> protocol::drained(t).replies == rest.replies
        }),
        ({
            let t = seq![255u8, command, option] + s;
            let rest = protocol::scanned(s);
            if command == 253 || command == 251 {
                &&& protocol::scanned(t).data.len() == 0
                &&& protocol::scanned(t).used == 3
                &&& protocol::scanned(t).reply == Some(protocol::drained(t).replies[0])
            } else {
                &&& protocol::scanned(t).data == rest.data
                &&& protocol::scanned(t).used == 3 + rest.used
                &&& protocol::scanned(t).reply == rest.reply
            }
        }),
{
    let t = seq![255u8, command, option] + s;
    assert(t.skip(3) =~= s);
    assert(t[1] == command && t[2] == option);
    assert(Seq::<u8>::empty() + protocol::drained(s).data =~= protocol::drained(s).data);
    assert(Seq::<u8>::empty() + protocol::scanned(s).data =~= protocol::scanned(s).data);
}

proof fn lemma_end_at(s: Seq<u8>, index: int, end: int)
    requires
        0 <= index <= end - 2,
        end <= s.len(),
        s[end - 2] == 255,
        s[end - 1] == 240,
        forall|i: int| index <= i < end - 2 ==> !(#[trigger] s[i] == 255 && s[i + 1] == 240),
    ensures
        protocol::end_from(s, index) == Some(end as nat),
    decreases end - index,
{
    if index < end - 2 {
        assert(!(s[index] == 255 && s[index + 1] == 240));
        lemma_end_at(s, index + 1, end);
    }
}

proof fn lemma_no_end(s: Seq<u8>, index: int)
    requires
        0 <= index,
        forall|i: int| index <= i < s.len() - 1 ==> !(#[trigger] s[i] == 255 && s[i + 1] == 240),
    ensures
        protocol::end_from(s, index) is None,
    decreases s.len() - index,
{
    if index + 1 < s.len() {
        assert(!(s[index] == 255 && s[index + 1] == 240));
        lemma_no_end(s, index + 1);
    }
}

/// A subnegotiation, from 255 250 to the first 255 240 behind them, is taken out of the data. It
/// is answered, with UTF-8 as the character set, if it is a CHARSET (42) message of kind 1 or 3.
pub proof fn law_subnegotiations_are_not_data(frame: Seq<u8>, s: Seq<u8>)
    requires
        frame.len() >= 4,
        frame[0] == 255,
        frame[1] == 250,
        frame[frame.len() - 2] == 255,
        frame[frame.len() - 1] == 240,
        forall|i: int|
            2 <= i < frame.len() - 2 ==> !(#[trigger] frame[i] == 255 && frame[i + 1] == 240),
    ensures
        protocol::subnegotiation_end(frame) == Some(frame.len()),
        protocol::subnegotiation_end(frame + s) == Some(frame.len()),
        protocol::drained(frame + s).data == protocol::drained(s).data,
        protocol::drained(frame + s).used == frame.len() + protocol::drained(s).used,
        frame.len() >= 5 && frame[2] == 42 && (frame[3] == 1 || frame[3] == 3) ==> {
            let answer = seq![255u8, 250, 42, 2, 1, 85, 84, 70, 45, 56, 255, 240];
            &&& protocol::drained(frame + s).replies == seq![answer] + protocol::drained(s).replies
            &&& protocol::scanned(frame + s).data.len() == 0
            &&& protocol::scanned(frame + s).used == frame.len()
            &&& protocol::scanned(frame + s).reply == Some(answer)
        },
        !(frame.len() >= 5 && frame[2] == 42 && (frame[3] == 1 || frame[3] == 3)) ==> {
            &&& protocol::drained(frame + s).replies == protocol::drained(s).replies
            &&& protocol::scanned(frame + s).data == protocol::scanned(s).data
            &&& protocol::scanned(frame + s).used == frame.len() + protocol::scanned(s).used
            &&& protocol::scanned(frame + s).reply == protocol::scanned(s).reply
        },
{
    let t = frame + s;
    let end = frame.len() as int;
    lemma_end_at(frame, 2, end);
    assert forall|i: int| 2 <= i < end - 2 implies !(#[trigger] t[i] == 255 && t[i + 1] == 240) by {
        assert(!(frame[i] == 255 && frame[i + 1] == 240));
    }
    lemma_end_at(t, 2, end);
    assert(t.skip(end) =~= s);
    assert(t.take(end) =~= frame);
    assert(Seq::<u8>::empty() + protocol::drained(s).data =~= protocol::drained(s).data);
    assert(Seq::<u8>::empty() + protocol::scanned(s).data =~= protocol::scanned(s).data);
}

/// Nothing is read of a command that is not complete: of 255 alone, of 255 and one byte other than
/// 255, and of 255 250 without a 255 240 behind them.
pub proof fn law_incomplete_commands_wait(s: Seq<u8>)
    requires
        s.len() > 0 ==> s[0] == 255,
        s.len() == 2 ==> s[1] != 255,
        s.len() > 2 ==> s[1] == 250 && forall|i: int|
            2 <= i < s.len() - 1 ==> !(#[trigger] s[i] == 255 && s[i + 1] == 240),
    ensures
        protocol::drained(s).data.len() == 0,
        protocol::drained(s).replies.len() == 0,
        protocol::drained(s).used == 0,
        protocol::scanned(s).data.len() == 0,
        protocol::scanned(s).used == 0,
        protocol::scanned(s).reply is None,
{
    if s.len() >= 2 {
        lemma_no_end(s, 2);
    }
}

/// A control sequence, from an escape and `[` over anything that is no letter to the first letter
/// of either case, shows nothing, and leaves what follows it as it is.
pub proof fn law_control_sequences_are_removed(p: Seq<u8>, letter: u8, s: Seq<u8>)
    requires
        forall|i: int|
            0 <= i < p.len() ==> !(65 <= #[trigger] p[i] <= 90) && !(97 <= p[i] <= 122),
        65 <= letter <= 90 || 97 <= letter <= 122,
    ensures
        ansi::stripped(seq![0x1bu8, 0x5b] + p + seq![letter] + s) == ansi::stripped(s),
        ansi::stripped_chunk(seq![0x5bu8] + p + seq![letter] + s, true) == ansi::stripped(s),
        ansi::stripped(seq![0x1bu8, 0x5b] + p) == (Seq::<u8>::empty(), false),
        ansi::stripped_chunk(seq![0x5bu8] + p, true) == (Seq::<u8>::empty(), false),
{
    law_control_sequence_is_skipped(p, letter, s);
    let tail = p + seq![letter] + s;
    assert((seq![0x1bu8, 0x5b] + p + seq![letter] + s).skip(2) =~= tail);
    assert((seq![0x5bu8] + p + seq![letter] + s).skip(1) =~= tail);
    assert((seq![0x1bu8, 0x5b] + p).skip(2) =~= p);
    assert((seq![0x5bu8] + p).skip(1) =~= p);
    assert(ansi::stripped(Seq::<u8>::empty()) == (Seq::<u8>::empty(), false));
}

/// A control sequence goes up to its first letter, and what follows it is left. Without a letter
/// nothing is left.
pub proof fn law_control_sequence_is_skipped(p: Seq<u8>, letter: u8, s: Seq<u8>)
    requires
        forall|i: int|
            0 <= i < p.len() ==> !(65 <= #[trigger] p[i] <= 90) && !(97 <= p[i] <= 122),
        65 <= letter <= 90 || 97 <= letter <= 122,
    ensures
        ansi::after_csi(p + seq![letter] + s) == s,
        ansi::after_csi(p) == Seq::<u8>::empty(),
    decreases p.len(),
{
    let t = p + seq![letter] + s;
    if p.len() == 0 {
        assert(p =~= Seq::<u8>::empty());
        assert(t.skip(1) =~= s);
        assert(t[0] == letter);
    } else {
        let q = p.skip(1);
        assert(forall|i: int| 0 <= i < q.len() ==> q[i] == p[i + 1]);
        law_control_sequence_is_skipped(q, letter, s);
        assert(t.skip(1) =~= q + seq![letter] + s);
        assert(t[0] == p[0]);
    }
}

/// An operating system command, from an escape and `]` to a bell, shows nothing. An escape ends it
/// as well, and is then read as any other escape.
pub proof fn law_operating_system_commands_are_removed(p: Seq<u8>, s: Seq<u8>)
    requires
        forall|i: int| 0 <= i < p.len() ==> #[trigger] p[i] != 0x07 && p[i] != 0x1b,
    ensures
        ansi::stripped(seq![0x1bu8, 0x5d] + p + seq![0x07u8] + s) == ansi::stripped(s),
        ansi::stripped(seq![0x1bu8, 0x5d] + p + seq![0x1bu8] + s) == ansi::stripped(
            seq![0x1bu8] + s,
        ),
        ansi::stripped(seq![0x1bu8, 0x5d] + p) == (Seq::<u8>::empty(), false),
{
    law_operating_system_command_is_skipped(p, s);
    assert((seq![0x1bu8, 0x5d] + p + seq![0x07u8] + s).skip(2) =~= p + seq![0x07u8] + s);
    assert((seq![0x1bu8, 0x5d] + p + seq![0x1bu8] + s).skip(2) =~= p + seq![0x1bu8] + s);
    assert((seq![0x1bu8, 0x5d] + p).skip(2) =~= p);
    assert(ansi::stripped(Seq::<u8>::empty()) == (Seq::<u8>::empty(), false));
}

/// An operating system command goes up to a bell, or up to an escape that is left with what follows
/// it. Without either nothing is left.
pub proof fn law_operating_system_command_is_skipped(p: Seq<u8>, s: Seq<u8>)
    requires
        forall|i: int| 0 <= i < p.len() ==> #[trigger] p[i] != 0x07 && p[i] != 0x1b,
    ensures
        ansi::after_osc(p + seq![0x07u8] + s) == s,
        ansi::after_osc(p + seq![0x1bu8] + s) == seq![0x1bu8] + s,
        ansi::after_osc(p) == Seq::<u8>::empty(),
    decreases p.len(),
{
    let bell = p + seq![0x07u8] + s;
    let escape = p + seq![0x1bu8] + s;
    if p.len() == 0 {
        assert(p =~= Seq::<u8>::empty());
        assert(bell.skip(1) =~= s);
        assert(escape =~= seq![0x1bu8] + s);
    } else {
        let q = p.skip(1);
        assert(forall|i: int| 0 <= i < q.len() ==> q[i] == p[i + 1]);
        law_operating_system_command_is_skipped(q, s);
        assert(bell.skip(1) =~= q + seq![0x07u8] + s);
        assert(escape.skip(1) =~= q + seq![0x1bu8] + s);
        assert(bell[0] == p[0] && escape[0] == p[0]);
    }
}

/// A byte other than an escape is shown. An escape is shown too, if a byte other than the two
/// brackets follows it, and held back if nothing does.
pub proof fn law_other_bytes_are_shown(b: u8, s: Seq<u8>)
    ensures
        ansi::stripped(Seq::<u8>::empty()) == (Seq::<u8>::empty(), false),
        ansi::stripped(seq![0x1bu8]) == (Seq::<u8>::empty(), true),
        b != 0x1b ==> ansi::stripped(seq![b] + s) == (
            seq![b] + ansi::stripped(s).0,
            ansi::stripped(s).1,
        ),
        b != 0x5b && b != 0x5d ==> ansi::stripped(seq![0x1bu8, b] + s) == (
            seq![0x1bu8] + ansi::stripped(seq![b] + s).0,
            ansi::stripped(seq![b] + s).1,
        ),
{
    assert((seq![b] + s).skip(1) =~= s);
    assert((seq![0x1bu8, b] + s).skip(1) =~= seq![b] + s);
}

/// A chunk that follows no escape is read for itself. One that follows an escape is shown behind
/// that escape, unless it starts with `[`.
pub proof fn law_escapes_wait_for_a_bracket(s: Seq<u8>)
    ensures
        ansi::stripped_chunk(s, false) == ansi::stripped(s),
        s.len() == 0 || s[0] != 0x5b ==> ansi::stripped_chunk(s, true) == (
            seq![0x1bu8] + ansi::stripped(s).0,
            ansi::stripped(s).1,
        ),
{
}

/// Of every text exactly the bytes 13 are taken out, and the others keep their order.
pub proof fn law_only_carriage_returns_leave(s: Seq<u8>, b: u8)
    ensures
        processor::without_cr(Seq::<u8>::empty()) == Seq::<u8>::empty(),
        processor::without_cr(s.push(b)) == if b == 13 {
            processor::without_cr(s)
        } else {
            processor::without_cr(s).push(b)
        },
{
    reveal(Seq::filter);
    assert(s.push(b).drop_last() =~= s);
}

/// The byte order mark 239 187 191 is taken out at the start of a session, and nowhere else: where
/// none is expected, and in a text that does not start with one, nothing is taken for it. The rest
/// is stripped of control sequences and then of carriage returns.
pub proof fn law_byte_order_mark_leaves_once(raw: Seq<u8>, pending: bool)
    ensures
        processor::sanitized(seq![239u8, 187, 191] + raw, true, pending) == processor::sanitized(
            raw,
            false,
            pending,
        ),
        !(raw.len() >= 3 && raw[0] == 239 && raw[1] == 187 && raw[2] == 191)
            ==> processor::sanitized(raw, true, pending) == processor::sanitized(
            raw,
            false,
            pending,
        ),
        processor::sanitized(raw, false, pending) == (
            processor::without_cr(ansi::stripped_chunk(raw, pending).0),
            ansi::stripped_chunk(raw, pending).1,
        ),
{
    let bom = processor::byte_order_mark();
    let marked = seq![239u8, 187, 191] + raw;
    assert(marked.take(3) =~= bom);
    assert(bom.is_prefix_of(marked));
    assert(marked.skip(3) =~= raw);
    if bom.is_prefix_of(raw) {
        assert(raw[0] == bom[0] && raw[1] == bom[1] && raw[2] == bom[2]);
    }
}

/// A list of answers is viewed answer by answer.
pub proof fn law_replies_are_viewed_whole(replies: Seq<Vec<u8>>, reply: Option<Vec<u8>>)
    ensures
        processor::replies_view(replies).len() == replies.len(),
        forall|i: int|
            0 <= i < replies.len() ==> #[trigger] processor::replies_view(replies)[i]
                == replies[i]@,
        reply is Some <==> protocol::reply_view(reply) is Some,
        reply is Some ==> protocol::reply_view(reply)->0 == reply->0@,
{
}

} // verus!
