//! The Telnet commands that stand between the data of a session, and the answers to them.

use vstd::prelude::*;

verus! {

/// Interpret as command: the byte that introduces every command.
pub const IAC: u8 = 255;

/// A demand that the other side stops using an option.
pub const DONT: u8 = 254;

/// A request that the other side uses an option.
pub const DO: u8 = 253;

/// A refusal to use an option.
pub const WONT: u8 = 252;

/// An offer to use an option.
pub const WILL: u8 = 251;

/// The start of a subnegotiation.
pub const SB: u8 = 250;

/// The end of a subnegotiation.
pub const SE: u8 = 240;

/// The option that negotiates the character set.
pub const CHARSET: u8 = 42;

/// The first complete `IAC SE` of `frame` at or after `index`, as the index behind it.
pub open spec fn end_from(frame: Seq<u8>, index: int) -> Option<nat>
    decreases frame.len() - index,
{
    if index + 1 >= frame.len() {
        None
    } else if frame[index] == IAC && frame[index + 1] == SE {
        Some((index + 2) as nat)
    } else {
        end_from(frame, index + 1)
    }
}

/// The length of the subnegotiation at the start of `frame`, if there is one and it is complete.
pub open spec fn subnegotiation_end(frame: Seq<u8>) -> Option<nat> {
    if frame.len() >= 2 && frame[0] == IAC && frame[1] == SB {
        end_from(frame, 2)
    } else {
        None
    }
}

/// Returns the length of the subnegotiation that `frame` starts with, or `None` if it starts
/// with none or if the end is still to come.
pub fn find_subnegotiation_end(frame: &[u8]) -> (r: Option<usize>)
    ensures
        match r {
            Some(end) => {
                &&& subnegotiation_end(frame@) == Some(end as nat)
                &&& 4 <= end <= frame.len()
                &&& frame[0] == 255 && frame[1] == 250
                &&& frame[end - 2] == 255 && frame[end - 1] == 240
                &&& forall|i: int|
                    2 <= i < end - 2 ==> !(#[trigger] frame[i] == 255 && frame[i + 1] == 240)
            },
            None => {
                &&& subnegotiation_end(frame@) is None
                &&& frame.len() >= 2 && frame[0] == 255 && frame[1] == 250 ==> forall|i: int|
                    2 <= i < frame.len() - 1 ==> !(#[trigger] frame[i] == 255 && frame[i + 1]
                        == 240)
            },
        },
{
    if frame.len() < 2 || frame[0] != IAC || frame[1] != SB {
        return None;
    }
    let mut index: usize = 2;
    while index < frame.len() - 1
        invariant
            2 <= frame.len(),
            2 <= index <= frame.len(),
            frame[0] == IAC && frame[1] == SB,
            forall|i: int|
                2 <= i < index ==> !(#[trigger] frame[i] == IAC && frame[i + 1] == SE),
            end_from(frame@, index as int) == end_from(frame@, 2),
            subnegotiation_end(frame@) == end_from(frame@, 2),
        decreases frame.len() - index,
    {
        if frame[index] == IAC && frame[index + 1] == SE {
            return Some(index + 2);
        }
        index += 1;
    }
    None
}

/// The answer `IAC SB CHARSET IS <1> "UTF-8" IAC SE`.
pub open spec fn charset_is_utf8() -> Seq<u8> {
    seq![IAC, SB, CHARSET, 2, 1, 0x55, 0x54, 0x46, 0x2d, 0x38, IAC, SE]
}

/// The answer to a subnegotiation frame: a CHARSET request is answered with UTF-8.
pub open spec fn subnegotiation_reply(frame: Seq<u8>) -> Option<Seq<u8>> {
    if frame.len() >= 5 && frame[2] == CHARSET && (frame[3] == 1 || frame[3] == 3) {
        Some(charset_is_utf8())
    } else {
        None
    }
}

/// The answer to a negotiation command: the CHARSET option is agreed to, every other offer or
/// request is refused, and nothing else is answered.
pub open spec fn command_reply(command: u8, option: u8) -> Option<Seq<u8>> {
    if command == DO {
        Some(seq![IAC, if option == CHARSET { WILL } else { WONT }, option])
    } else if command == WILL {
        Some(seq![IAC, if option == CHARSET { DO } else { DONT }, option])
    } else {
        None
    }
}

/// The view of an optional byte string.
pub open spec fn reply_view(reply: Option<Vec<u8>>) -> Option<Seq<u8>> {
    match reply {
        Some(bytes) => Some(bytes@),
        None => None,
    }
}

/// Returns the answer to a complete subnegotiation frame.
pub fn handle_subnegotiation(frame: &[u8]) -> (r: Option<Vec<u8>>)
    ensures
        reply_view(r) == subnegotiation_reply(frame@),
        r is Some <==> frame.len() >= 5 && frame[2] == 42 && (frame[3] == 1 || frame[3] == 3),
        r matches Some(bytes) ==> bytes@ == seq![
            255u8,
            250,
            42,
            2,
            1,
            85,
            84,
            70,
            45,
            56,
            255,
            240,
        ],
{
    if frame.len() < 5 || frame[2] != CHARSET {
        return None;
    }
    // CHARSET SEND or REQUEST is answered with CHARSET IS UTF-8.
    if frame[3] == 1 || frame[3] == 3 {
        let response: Vec<u8> = vec![
            IAC,
            SB,
            CHARSET,
            2,
            1,
            0x55,
            0x54,
            0x46,
            0x2d,
            0x38,
            IAC,
            SE,
        ];
        assert(response@ =~= charset_is_utf8());
        return Some(response);
    }
    None
}

/// Returns the answer to a negotiation command.
pub fn respond_to_command(command: u8, option: u8) -> (r: Option<Vec<u8>>)
    ensures
        reply_view(r) == command_reply(command, option),
        r is Some <==> command == 253 || command == 251,
        r matches Some(bytes) ==> {
            &&& bytes@.len() == 3
            &&& bytes[0] == 255
            &&& bytes[2] == option
            &&& command == 253 ==> bytes[1] == if option == 42 { 251u8 } else { 252u8 }
            &&& command == 251 ==> bytes[1] == if option == 42 { 253u8 } else { 254u8 }
        },
{
    let verb: u8 = if command == DO && option == CHARSET {
        WILL
    } else if command == WILL && option == CHARSET {
        DO
    } else if command == WILL {
        DONT
    } else if command == DO {
        WONT
    } else {
        return None;
    };
    let response: Vec<u8> = vec![IAC, verb, option];
    assert(response@ =~= seq![IAC, verb, option]);
    Some(response)
}

/// One unit of what a server sends.
pub enum Token {
    /// A byte of data.
    Data(u8),
    /// A command with its option.
    Command(u8, u8),
    /// A subnegotiation, from its `IAC SB` to its `IAC SE`.
    Subnegotiation(Seq<u8>),
}

impl Token {
    /// The data that the token stands for.
    pub open spec fn data(self) -> Seq<u8> {
        match self {
            Token::Data(b) => seq![b],
            _ => Seq::empty(),
        }
    }

    /// The answer that the token asks for.
    pub open spec fn reply(self) -> Option<Seq<u8>> {
        match self {
            Token::Data(_) => None,
            Token::Command(command, option) => command_reply(command, option),
            Token::Subnegotiation(frame) => subnegotiation_reply(frame),
        }
    }
}

/// The token at the start of `s` and its length, or `None` if more bytes are needed.
pub open spec fn next_token(s: Seq<u8>) -> Option<(Token, nat)> {
    if s.len() == 0 {
        None
    } else if s[0] != IAC {
        Some((Token::Data(s[0]), 1))
    } else if s.len() == 1 {
        None
    } else if s[1] == IAC {
        Some((Token::Data(IAC), 2))
    } else if s[1] == SB {
        match subnegotiation_end(s) {
            Some(end) => Some((Token::Subnegotiation(s.take(end as int)), end)),
            None => None,
        }
    } else if s.len() == 2 {
        None
    } else {
        Some((Token::Command(s[1], s[2]), 3))
    }
}

proof fn lemma_end_from(s: Seq<u8>, index: int)
    requires
        0 <= index,
    ensures
        end_from(s, index) matches Some(end) ==> index + 2 <= end <= s.len(),
    decreases s.len() - index,
{
    if index + 1 < s.len() {
        lemma_end_from(s, index + 1);
    }
}

/// A token has at least one byte, and its bytes are there.
pub proof fn lemma_token_len(s: Seq<u8>)
    ensures
        next_token(s) matches Some((_, n)) ==> 1 <= n <= s.len(),
{
    lemma_end_from(s, 2);
}

/// What a stretch of bytes amounts to once its complete tokens are read.
pub struct Drained {
    /// The data among them.
    pub data: Seq<u8>,
    /// The answers, in the order in which they are owed.
    pub replies: Seq<Seq<u8>>,
    /// The number of bytes that the complete tokens take.
    pub used: nat,
}

/// All complete tokens at the start of `s`.
pub open spec fn drained(s: Seq<u8>) -> Drained
    decreases s.len(),
{
    proof {
        lemma_token_len(s);
    }
    match next_token(s) {
        None => Drained { data: Seq::empty(), replies: Seq::empty(), used: 0 },
        Some((token, n)) => {
            let rest = drained(s.skip(n as int));
            Drained {
                data: token.data() + rest.data,
                replies: match token.reply() {
                    Some(reply) => seq![reply] + rest.replies,
                    None => rest.replies,
                },
                used: n + rest.used,
            }
        },
    }
}

/// What reading goes through before it has to stop: at a token that asks for an answer, or at
/// the end of the complete tokens.
pub struct Scanned {
    /// The data on the way.
    pub data: Seq<u8>,
    /// The number of bytes read, with the token that asks for the answer.
    pub used: nat,
    /// The answer.
    pub reply: Option<Seq<u8>>,
}

/// The tokens at the start of `s` up to the first one that asks for an answer.
pub open spec fn scanned(s: Seq<u8>) -> Scanned
    decreases s.len(),
{
    proof {
        lemma_token_len(s);
    }
    match next_token(s) {
        None => Scanned { data: Seq::empty(), used: 0, reply: None },
        Some((token, n)) => if token.reply() is Some {
            Scanned { data: Seq::empty(), used: n, reply: token.reply() }
        } else {
            let rest = scanned(s.skip(n as int));
            Scanned { data: token.data() + rest.data, used: n + rest.used, reply: rest.reply }
        },
    }
}

/// The length of what `drained` and `scanned` read is there.
pub proof fn lemma_used(s: Seq<u8>)
    ensures
        drained(s).used <= s.len(),
        scanned(s).used <= s.len(),
        scanned(s).reply is Some ==> scanned(s).used > 0,
    decreases s.len(),
{
    lemma_token_len(s);
    if let Some((_, n)) = next_token(s) {
        lemma_used(s.skip(n as int));
    }
}

/// Reading all tokens is reading up to the first answer, and then the rest.
pub proof fn law_draining_is_scanning(s: Seq<u8>)
    ensures
        ({
            let step = scanned(s);
            let rest = drained(s.skip(step.used as int));
            match step.reply {
                None => drained(s) == Drained {
                    data: step.data,
                    replies: Seq::empty(),
                    used: step.used,
                },
                Some(reply) => drained(s) == Drained {
                    data: step.data + rest.data,
                    replies: seq![reply] + rest.replies,
                    used: step.used + rest.used,
                },
            }
        }),
    decreases s.len(),
{
    lemma_token_len(s);
    let step = scanned(s);
    if let Some((token, n)) = next_token(s) {
        let t = s.skip(n as int);
        let rest = drained(s.skip(step.used as int));
        if token.reply() is Some {
            assert(Seq::<u8>::empty() + rest.data =~= rest.data);
            assert(token.data() =~= Seq::<u8>::empty());
        } else {
            law_draining_is_scanning(t);
            lemma_used(t);
            assert(t.skip(scanned(t).used as int) =~= s.skip(step.used as int));
            if step.reply is Some {
                assert(token.data() + (scanned(t).data + rest.data) =~= step.data + rest.data);
            }
        }
    }
}

proof fn lemma_end_from_append(a: Seq<u8>, b: Seq<u8>, index: int)
    requires
        0 <= index,
        end_from(a, index) is Some,
    ensures
        end_from(a + b, index) == end_from(a, index),
    decreases a.len() - index,
{
    if !(a[index] == IAC && a[index + 1] == SE) {
        lemma_end_from_append(a, b, index + 1);
    }
}

/// A complete token stays the same when more bytes arrive.
pub proof fn law_token_is_stable(a: Seq<u8>, b: Seq<u8>)
    requires
        next_token(a) is Some,
    ensures
        next_token(a + b) == next_token(a),
{
    lemma_token_len(a);
    assert((a + b)[0] == a[0]);
    if a.len() > 1 {
        assert((a + b)[1] == a[1]);
    }
    if subnegotiation_end(a) is Some {
        lemma_end_from_append(a, b, 2);
        let end = subnegotiation_end(a)->0 as int;
        lemma_end_from(a, 2);
        assert((a + b).take(end) =~= a.take(end));
    }
}

/// The bytes that are left over hold no complete token.
pub proof fn law_rest_is_incomplete(s: Seq<u8>)
    ensures
        next_token(s.skip(drained(s).used as int)) is None,
    decreases s.len(),
{
    lemma_token_len(s);
    if let Some((_, n)) = next_token(s) {
        let t = s.skip(n as int);
        law_rest_is_incomplete(t);
        lemma_used(t);
        assert(t.skip(drained(t).used as int) =~= s.skip(drained(s).used as int));
    } else {
        assert(s.skip(0) =~= s);
    }
}

/// However a stream is cut into chunks, the same data and the same answers come out of it:
/// reading `a`, and then `b` behind what `a` left over, is reading `a` and `b` at once.
pub proof fn law_chunks_drain_alike(a: Seq<u8>, b: Seq<u8>)
    ensures
        ({
            let first = drained(a);
            let second = drained(a.skip(first.used as int) + b);
            drained(a + b) == Drained {
                data: first.data + second.data,
                replies: first.replies + second.replies,
                used: first.used + second.used,
            }
        }),
    decreases a.len(),
{
    let first = drained(a);
    let second = drained(a.skip(first.used as int) + b);
    lemma_token_len(a);
    if let Some((token, n)) = next_token(a) {
        law_token_is_stable(a, b);
        let t = a.skip(n as int);
        law_chunks_drain_alike(t, b);
        lemma_used(t);
        assert((a + b).skip(n as int) =~= t + b);
        assert(t.skip(drained(t).used as int) =~= a.skip(first.used as int));
        assert(token.data() + (drained(t).data + second.data) =~= first.data + second.data);
        if let Some(reply) = token.reply() {
            assert(seq![reply] + (drained(t).replies + second.replies) =~= first.replies
                + second.replies);
        }
    } else {
        assert(a.skip(0) =~= a);
        assert(Seq::<u8>::empty() + second.data =~= second.data);
        assert(Seq::<Seq<u8>>::empty() + second.replies =~= second.replies);
    }
}

/// Data as it is sent: every `IAC` byte is doubled.
pub open spec fn escaped(data: Seq<u8>) -> Seq<u8>
    decreases data.len(),
{
    if data.len() == 0 {
        Seq::empty()
    } else if data[0] == IAC {
        seq![IAC, IAC] + escaped(data.skip(1))
    } else {
        seq![data[0]] + escaped(data.skip(1))
    }
}

/// Escaped data is read back whole, and nothing is answered.
pub proof fn law_escaped_data_comes_back(data: Seq<u8>)
    ensures
        drained(escaped(data)) == (Drained {
            data,
            replies: Seq::empty(),
            used: escaped(data).len(),
        }),
    decreases data.len(),
{
    let s = escaped(data);
    if data.len() == 0 {
        assert(data =~= Seq::<u8>::empty());
    } else {
        let rest = escaped(data.skip(1));
        law_escaped_data_comes_back(data.skip(1));
        if data[0] == IAC {
            assert(s.skip(2) =~= rest);
        } else {
            assert(s.skip(1) =~= rest);
        }
        assert(seq![data[0]] + data.skip(1) =~= data);
    }
}

/// Refusals and withdrawals are never answered. So a negotiation about any option but CHARSET is
/// over with one answer: that answer names the option, and would not be answered in turn.
pub proof fn law_refusals_end_a_negotiation(command: u8, option: u8)
    ensures
        command == WONT || command == DONT ==> command_reply(command, option) is None,
        option != CHARSET ==> (command_reply(command, option) matches Some(reply) ==> {
            &&& reply.len() == 3
            &&& reply[0] == IAC
            &&& reply[2] == option
            &&& command_reply(reply[1], option) is None
        }),
{
}

} // verus!
