//! The processor that turns the bytes of a server into text to show and answers to send.

use crate::telnet::ansi;
use crate::telnet::protocol;
use vstd::prelude::*;
use vstd::slice::{slice_subrange, slice_to_vec};

verus! {

/// The carriage return byte.
pub const CR: u8 = 0x0d;

/// The UTF-8 byte order mark.
pub open spec fn byte_order_mark() -> Seq<u8> {
    seq![0xef, 0xbb, 0xbf]
}

/// `s` without its carriage returns.
pub open spec fn without_cr(s: Seq<u8>) -> Seq<u8> {
    s.filter(|b: u8| b != CR)
}

/// Returns `input` without its carriage returns.
pub fn normalize_crlf(input: &[u8]) -> (output: Vec<u8>)
    ensures
        output@ == without_cr(input@),
{
    let mut output: Vec<u8> = Vec::new();
    let mut index: usize = 0;
    proof {
        reveal(Seq::filter);
    }
    while index < input.len()
        invariant
            index <= input.len(),
            output@ == without_cr(input@.take(index as int)),
        decreases input.len() - index,
    {
        proof {
            reveal(Seq::filter);
            assert(input@.take(index + 1).drop_last() =~= input@.take(index as int));
        }
        if input[index] != CR {
            output.push(input[index]);
        }
        index += 1;
    }
    assert(input@.take(index as int) =~= input@);
    output
}

/// `raw` without the byte order mark that it may start with, if one is expected.
pub open spec fn body(raw: Seq<u8>, strip_bom: bool) -> Seq<u8> {
    if strip_bom && byte_order_mark().is_prefix_of(raw) {
        raw.skip(3)
    } else {
        raw
    }
}

/// The text that `raw` shows after a byte order mark, control sequences and carriage returns
/// are taken out of it, and whether it ends in an escape.
///
/// `strip_bom` is whether a byte order mark is still expected, and `pending` whether the text
/// before ended in an escape.
pub open spec fn sanitized(raw: Seq<u8>, strip_bom: bool, pending: bool) -> (Seq<u8>, bool) {
    let visible = ansi::stripped_chunk(body(raw, strip_bom), pending);
    (without_cr(visible.0), visible.1)
}

/// What a `TelnetProcessor` remembers between two chunks.
pub struct ProcessorView {
    /// Whether a byte order mark is still expected.
    pub strip_bom: bool,
    /// Whether the text so far ends in an escape.
    pub ansi_pending: bool,
    /// The bytes that are still to be read.
    pub pending: Seq<u8>,
}

impl ProcessorView {
    /// The processor after it has put out what `raw` shows.
    pub open spec fn after_output(self, raw: Seq<u8>) -> ProcessorView {
        ProcessorView {
            strip_bom: self.strip_bom && raw.len() == 0,
            ansi_pending: sanitized(raw, self.strip_bom, self.ansi_pending).1,
            pending: self.pending,
        }
    }

    /// What a chunk makes complete, behind the bytes that are still to be read.
    pub open spec fn drained_with(self, chunk: Seq<u8>) -> protocol::Drained {
        protocol::drained(self.pending + chunk)
    }
}

/// The state of a session between two chunks.
pub struct TelnetProcessor {
    strip_bom: bool,
    ansi_pending: bool,
    pending: Vec<u8>,
}

impl View for TelnetProcessor {
    type V = ProcessorView;

    closed spec fn view(&self) -> ProcessorView {
        ProcessorView {
            strip_bom: self.strip_bom,
            ansi_pending: self.ansi_pending,
            pending: self.pending@,
        }
    }
}

impl TelnetProcessor {
    /// Returns the processor of a session that starts.
    pub fn new() -> (r: Self)
        ensures
            r@ == (ProcessorView {
                strip_bom: true,
                ansi_pending: false,
                pending: Seq::empty(),
            }),
    {
        TelnetProcessor { strip_bom: true, ansi_pending: false, pending: Vec::new() }
    }

    /// Takes in a chunk from the server, behind the bytes that are still to be read.
    pub fn receive(&mut self, chunk: &[u8])
        ensures
            final(self)@ == (ProcessorView { pending: old(self)@.pending + chunk@, ..old(self)@ }),
    {
        extend(&mut self.pending, chunk);
    }

    /// Returns the number of bytes that are still to be read.
    pub fn pending_len(&self) -> (r: usize)
        ensures
            r == self@.pending.len(),
    {
        self.pending.len()
    }

    /// Reads on at `from` up to the next token that asks for an answer, or up to the last
    /// complete token. Appends the data to `output` and returns the index behind what was read,
    /// with the answer.
    pub fn next_reply(&self, from: usize, output: &mut Vec<u8>) -> (r: (usize, Option<Vec<u8>>))
        requires
            from <= self@.pending.len(),
        ensures
            ({
                let step = protocol::scanned(self@.pending.skip(from as int));
                &&& r.0 == from + step.used
                &&& r.0 <= self@.pending.len()
                &&& protocol::reply_view(r.1) == step.reply
                &&& final(output)@ == old(output)@ + step.data
            }),
    {
        let mut index: usize = from;
        let ghost before = output@;
        let ghost goal = protocol::scanned(self.pending@.skip(index as int));
        while index < self.pending.len()
            invariant
                from <= index <= self.pending@.len(),
                goal == protocol::scanned(self.pending@.skip(from as int)),
                before == old(output)@,
                ({
                    let rest = protocol::scanned(self.pending@.skip(index as int));
                    &&& before + goal.data =~= output@ + rest.data
                    &&& goal.used == index - from + rest.used
                    &&& goal.reply == rest.reply
                }),
            ensures
                from <= index <= self.pending@.len(),
                protocol::next_token(self.pending@.skip(index as int)) is None,
                before + goal.data =~= output@,
                goal.used == index - from,
                goal.reply is None,
            decreases self.pending.len() - index,
        {
            let ghost rest = self.pending@.skip(index as int);
            proof {
                protocol::lemma_token_len(rest);
                protocol::lemma_used(rest);
            }
            if self.pending[index] == protocol::IAC {
                if index + 1 >= self.pending.len() {
                    break;
                }
                if self.pending[index + 1] == protocol::IAC {
                    output.push(protocol::IAC);
                    assert(rest.skip(2) =~= self.pending@.skip(index + 2));
                    index += 2;
                    continue;
                }
                if self.pending[index + 1] == protocol::SB {
                    let tail = slice_subrange(self.pending.as_slice(), index, self.pending.len());
                    assert(tail@ =~= rest);
                    match protocol::find_subnegotiation_end(tail) {
                        Some(end) => {
                            let frame = slice_subrange(tail, 0, end);
                            assert(frame@ =~= rest.take(end as int));
                            let reply = protocol::handle_subnegotiation(frame);
                            assert(rest.skip(end as int) =~= self.pending@.skip(index + end));
                            index += end;
                            if reply.is_some() {
                                return (index, reply);
                            }
                            continue;
                        },
                        None => {
                            break;
                        },
                    }
                }
                if index + 2 >= self.pending.len() {
                    break;
                }
                let reply = protocol::respond_to_command(
                    self.pending[index + 1],
                    self.pending[index + 2],
                );
                assert(rest.skip(3) =~= self.pending@.skip(index + 3));
                index += 3;
                if reply.is_some() {
                    return (index, reply);
                }
                continue;
            }
            output.push(self.pending[index]);
            assert(rest.skip(1) =~= self.pending@.skip(index + 1));
            index += 1;
        }
        (index, None)
    }

    /// Forgets the first `used` of the bytes that are still to be read, and turns `output` into
    /// the text that it shows.
    pub fn finish(&mut self, used: usize, output: &mut Vec<u8>)
        requires
            used <= old(self)@.pending.len(),
        ensures
            final(output)@ == sanitized(
                old(output)@,
                old(self)@.strip_bom,
                old(self)@.ansi_pending,
            ).0,
            final(self)@ == (ProcessorView {
                strip_bom: old(self)@.strip_bom && old(output)@.len() == 0,
                ansi_pending: sanitized(
                    old(output)@,
                    old(self)@.strip_bom,
                    old(self)@.ansi_pending,
                ).1,
                pending: old(self)@.pending.skip(used as int),
            }),
    {
        let rest = slice_subrange(self.pending.as_slice(), used, self.pending.len());
        assert(rest@ =~= self.pending@.skip(used as int));
        self.pending = slice_to_vec(rest);
        sanitize_output(self, output);
    }

    /// Reads all complete tokens. Appends their data to `output`, turns `output` into the text
    /// that it shows, and returns the answers in the order in which they are to be sent.
    pub fn drain_pending(&mut self, output: &mut Vec<u8>) -> (replies: Vec<Vec<u8>>)
        ensures
            ({
                let all = protocol::drained(old(self)@.pending);
                let raw = old(output)@ + all.data;
                let shown = sanitized(raw, old(self)@.strip_bom, old(self)@.ansi_pending);
                &&& replies_view(replies@) == all.replies
                &&& final(output)@ == shown.0
                &&& final(self)@ == (ProcessorView {
                    strip_bom: old(self)@.strip_bom && raw.len() == 0,
                    ansi_pending: shown.1,
                    pending: old(self)@.pending.skip(all.used as int),
                })
            }),
    {
        let mut replies: Vec<Vec<u8>> = Vec::new();
        let mut index: usize = 0;
        let ghost all = protocol::drained(self@.pending);
        proof {
            assert(self@.pending.skip(0) =~= self@.pending);
            assert(replies_view(replies@) =~= Seq::<Seq<u8>>::empty());
        }
        loop
            invariant_except_break
                ({
                    let rest = protocol::drained(self@.pending.skip(index as int));
                    &&& old(output)@ + all.data =~= output@ + rest.data
                    &&& all.replies =~= replies_view(replies@) + rest.replies
                    &&& all.used == index + rest.used
                }),
            invariant
                *self == *old(self),
                all == protocol::drained(self@.pending),
                index <= self@.pending.len(),
            ensures
                old(output)@ + all.data == output@,
                all.replies == replies_view(replies@),
                all.used == index,
            decreases self@.pending.len() - index,
        {
            let ghost s = self@.pending.skip(index as int);
            proof {
                protocol::law_draining_is_scanning(s);
                protocol::lemma_used(s);
            }
            let (next, reply) = self.next_reply(index, output);
            assert(s.skip(protocol::scanned(s).used as int) =~= self@.pending.skip(next as int));
            index = next;
            match reply {
                Some(bytes) => {
                    let ghost sent = replies@;
                    replies.push(bytes);
                    assert(replies_view(replies@) =~= replies_view(sent) + seq![bytes@]);
                },
                None => {
                    break;
                },
            }
        }
        self.finish(index, output);
        replies
    }

    /// Takes in a chunk from the server. Appends its data to `output`, turns `output` into the
    /// text that it shows, and returns the answers in the order in which they are to be sent.
    ///
    /// A token that is not complete is kept for the next chunk.
    pub fn process_chunk(&mut self, chunk: &[u8], output: &mut Vec<u8>) -> (replies: Vec<Vec<u8>>)
        ensures
            ({
                let all = protocol::drained(old(self)@.pending + chunk@);
                let raw = old(output)@ + all.data;
                let shown = sanitized(raw, old(self)@.strip_bom, old(self)@.ansi_pending);
                &&& replies_view(replies@) == all.replies
                &&& final(output)@ == shown.0
                &&& final(self)@ == (ProcessorView {
                    strip_bom: old(self)@.strip_bom && raw.len() == 0,
                    ansi_pending: shown.1,
                    pending: (old(self)@.pending + chunk@).skip(all.used as int),
                })
            }),
    {
        self.receive(chunk);
        self.drain_pending(output)
    }
}

/// The views of a list of byte strings.
pub open spec fn replies_view(replies: Seq<Vec<u8>>) -> Seq<Seq<u8>> {
    replies.map_values(|reply: Vec<u8>| reply@)
}

/// Turns `output` into the text that it shows: without a byte order mark, if one is still
/// expected, and without control sequences and carriage returns.
pub fn sanitize_output(processor: &mut TelnetProcessor, output: &mut Vec<u8>)
    ensures
        final(output)@ == sanitized(
            old(output)@,
            old(processor)@.strip_bom,
            old(processor)@.ansi_pending,
        ).0,
        final(processor)@ == old(processor)@.after_output(old(output)@),
        final(processor)@ == (ProcessorView {
            strip_bom: old(processor)@.strip_bom && old(output)@.len() == 0,
            ansi_pending: sanitized(
                old(output)@,
                old(processor)@.strip_bom,
                old(processor)@.ansi_pending,
            ).1,
            pending: old(processor)@.pending,
        }),
{
    let len: usize = output.len();
    let mut start: usize = 0;
    if processor.strip_bom && len >= 3 && output[0] == 0xef && output[1] == 0xbb && output[2]
        == 0xbf {
        start = 3;
    }
    if len > 0 {
        processor.strip_bom = false;
    }
    let body = slice_subrange(output.as_slice(), start, len);
    proof {
        let raw = old(output)@;
        if raw.len() >= 3 {
            assert(byte_order_mark() =~= raw.take(3) <==> byte_order_mark().is_prefix_of(raw));
        }
        assert(raw.skip(0) =~= raw);
        assert(body@ =~= raw.skip(start as int));
    }
    let cleaned = ansi::strip_ansi(body, &mut processor.ansi_pending);
    *output = normalize_crlf(cleaned.as_slice());
}

/// Appends `tail` to `bytes`.
fn extend(bytes: &mut Vec<u8>, tail: &[u8])
    ensures
        final(bytes)@ == old(bytes)@ + tail@,
{
    bytes.extend_from_slice(tail);
    assert(bytes@ =~= old(bytes)@ + tail@);
}

/// However the stream is cut into chunks, a processor draws the same data from it and owes the
/// same answers, and the same bytes are left over.
///
/// `p` is the processor before the two chunks, and `q` the one between them: all that matters of
/// `q` is that it holds what the first chunk left over.
pub proof fn law_processing_is_chunk_independent(
    p: ProcessorView,
    q: ProcessorView,
    a: Seq<u8>,
    b: Seq<u8>,
)
    requires
        q.pending == (p.pending + a).skip(p.drained_with(a).used as int),
    ensures
        ({
            let first = p.drained_with(a);
            let second = q.drained_with(b);
            let whole = p.drained_with(a + b);
            &&& whole.data == first.data + second.data
            &&& whole.replies == first.replies + second.replies
            &&& (p.pending + (a + b)).skip(whole.used as int) == (q.pending + b).skip(
                second.used as int,
            )
        }),
{
    let all = p.pending + a;
    protocol::law_chunks_drain_alike(all, b);
    protocol::lemma_used(all);
    protocol::lemma_used(q.pending + b);
    assert(p.pending + (a + b) =~= all + b);
    let used = protocol::drained(all).used as int;
    assert((all + b).skip(used) =~= q.pending + b);
    assert((all + b).skip(used + protocol::drained(q.pending + b).used) =~= (q.pending + b).skip(
        protocol::drained(q.pending + b).used as int,
    ));
}

/// What a processor keeps for the next chunk is the start of one token that is not complete.
pub proof fn law_processor_keeps_no_complete_token(p: ProcessorView, chunk: Seq<u8>)
    ensures
        protocol::next_token(
            (p.pending + chunk).skip(p.drained_with(chunk).used as int),
        ) is None,
{
    protocol::law_rest_is_incomplete(p.pending + chunk);
}

/// The text that is shown holds no carriage return.
pub proof fn law_output_has_no_carriage_return(raw: Seq<u8>, strip_bom: bool, pending: bool)
    ensures
        !sanitized(raw, strip_bom, pending).0.contains(CR),
{
    lemma_without_cr(ansi::stripped_chunk(body(raw, strip_bom), pending).0);
}

proof fn lemma_without_cr(s: Seq<u8>)
    ensures
        !without_cr(s).contains(CR),
        !s.contains(CR) ==> without_cr(s) == s,
    decreases s.len(),
{
    reveal(Seq::filter);
    if s.len() > 0 {
        let rest = s.drop_last();
        lemma_without_cr(rest);
        assert(s =~= rest.push(s.last()));
        assert(forall|i: int| 0 <= i < rest.len() ==> rest[i] == s[i]);
        assert(s.last() == s[s.len() - 1]);
    }
}

/// Taking out carriage returns twice is taking them out once, and taking them out of two texts
/// is taking them out of the joined text.
pub proof fn law_carriage_returns(a: Seq<u8>, b: Seq<u8>)
    ensures
        without_cr(without_cr(a)) == without_cr(a),
        without_cr(a + b) == without_cr(a) + without_cr(b),
{
    lemma_without_cr(a);
    lemma_without_cr(without_cr(a));
    Seq::filter_distributes_over_add(a, b, |x: u8| x != CR);
}

/// Plain text is shown unchanged: text without a byte order mark, an escape or a carriage
/// return.
pub proof fn law_plain_text_is_shown(raw: Seq<u8>, strip_bom: bool)
    requires
        !raw.contains(ansi::ESC),
        !raw.contains(CR),
        strip_bom ==> !byte_order_mark().is_prefix_of(raw),
    ensures
        sanitized(raw, strip_bom, false) == (raw, false),
{
    ansi::law_plain_text_is_kept(raw);
    lemma_without_cr(raw);
}

/// Two pieces of output show, one after the other, what the joined output shows, when
/// - no byte order mark is split between them, and
/// - the second piece shows what it shows when it is read on from the end of the first.
pub proof fn law_output_joins(a: Seq<u8>, b: Seq<u8>, p: ProcessorView)
    requires
        p.strip_bom && 0 < a.len() < 3 ==> !byte_order_mark().is_prefix_of(a + b),
        ({
            let first = body(a, p.strip_bom);
            let second = body(b, p.after_output(a).strip_bom);
            &&& p.ansi_pending && first.len() == 0 && second.len() > 0 ==> second[0]
                != ansi::CSI_OPEN
            &&& ansi::resumed(ansi::mode_after_chunk(first, p.ansi_pending), second)
                == ansi::stripped_chunk(second, p.after_output(a).ansi_pending)
        }),
    ensures
        ({
            let q = p.after_output(a);
            let first = sanitized(a, p.strip_bom, p.ansi_pending);
            let second = sanitized(b, q.strip_bom, q.ansi_pending);
            &&& sanitized(a + b, p.strip_bom, p.ansi_pending) == (first.0 + second.0, second.1)
            &&& p.after_output(a + b) == q.after_output(b)
        }),
{
    let q = p.after_output(a);
    let first = body(a, p.strip_bom);
    let second = body(b, q.strip_bom);
    let bom = byte_order_mark();
    if a.len() == 0 {
        assert(a + b =~= b);
        assert(!bom.is_prefix_of(a));
    } else if p.strip_bom && a.len() >= 3 {
        assert((a + b).take(3) =~= a.take(3));
        assert(bom.is_prefix_of(a) <==> bom =~= a.take(3));
        assert(bom.is_prefix_of(a + b) <==> bom =~= (a + b).take(3));
        assert((a + b).skip(3) =~= a.skip(3) + b);
    }
    assert(body(a + b, p.strip_bom) =~= first + second);
    ansi::law_chunks_join(first, second, p.ansi_pending);
    law_carriage_returns(
        ansi::stripped_chunk(first, p.ansi_pending).0,
        ansi::stripped_chunk(second, q.ansi_pending).0,
    );
}

} // verus!
