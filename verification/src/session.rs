//! What is done with the chunks of a session, and what is kept of them.

use crate::text;
use vstd::prelude::*;
use vstd::slice::{slice_subrange, slice_to_vec};

verus! {

/// The longest chunk that counts as part of an announcement. An announcement comes in small
/// chunks, a chat message in a larger one.
pub const ANNOUNCEMENT_LEN: usize = 8;

/// The line feed byte.
pub const LF: u8 = 0x0a;

/// The text that `String::from_utf8_lossy` makes of bytes.
pub uninterp spec fn utf8_lossy(bytes: Seq<u8>) -> Seq<char>;

/// `String::from_utf8_lossy` decodes valid UTF-8. In other bytes it replaces what is not valid by
/// the character U+FFFD; how much one such character replaces is left unsaid here.
#[verifier::external_body]
fn from_utf8_lossy(bytes: &[u8]) -> (r: String)
    ensures
        r@ == utf8_lossy(bytes@),
        vstd::utf8::valid_utf8(bytes@) ==> r@ == vstd::utf8::decode_utf8(bytes@),
        !vstd::utf8::valid_utf8(bytes@) ==> r@.contains('\u{fffd}'),
{
    String::from_utf8_lossy(bytes).into_owned()
}

/// What a `SessionLog` holds.
pub struct LogView {
    /// The announcements.
    pub koukoku: Seq<u8>,
    /// The chat.
    pub chat: Seq<u8>,
}

impl LogView {
    /// The log after a chunk of `len` bytes whose text is `text`.
    pub open spec fn recorded(self, len: nat, text: Seq<char>) -> LogView {
        let bytes = vstd::utf8::encode_utf8(text);
        if len <= ANNOUNCEMENT_LEN {
            LogView { koukoku: self.koukoku + bytes, ..self }
        } else {
            LogView { chat: (self.chat + bytes).push(LF), ..self }
        }
    }
}

/// What is kept of a session: the announcements, and the chat with one message on a line.
pub struct SessionLog {
    koukoku: Vec<u8>,
    chat: Vec<u8>,
}

impl View for SessionLog {
    type V = LogView;

    closed spec fn view(&self) -> LogView {
        LogView { koukoku: self.koukoku@, chat: self.chat@ }
    }
}

/// Something that happens in a session between a client and a server.
pub enum BridgeEvent {
    /// The client sent text.
    Text(String),
    /// The client sent bytes.
    Bytes(Vec<u8>),
    /// The client sent a message that is neither.
    OtherMessage,
    /// The client closed the connection.
    ClientClosed,
    /// The connection to the client failed.
    ClientFailed,
    /// The server sent a chunk.
    Chunk(Vec<u8>),
    /// The server closed the connection.
    ServerClosed,
    /// The connection to the server failed.
    ServerFailed,
}

/// What is to be done about it.
pub enum BridgeAction {
    /// Write these byte strings to the server, one after the other.
    Write(Vec<Vec<u8>>),
    /// Send this text to the client.
    Show(String),
    /// Nothing.
    Ignore,
    /// End the session.
    Finish,
    /// End the session with the error.
    Fail,
}

/// The view of a `BridgeAction`.
pub enum ActionView {
    Write(Seq<Seq<u8>>),
    Show(Seq<char>),
    Ignore,
    Finish,
    Fail,
}

impl View for BridgeAction {
    type V = ActionView;

    open spec fn view(&self) -> ActionView {
        match *self {
            BridgeAction::Write(writes) => ActionView::Write(
                writes@.map_values(|bytes: Vec<u8>| bytes@),
            ),
            BridgeAction::Show(text) => ActionView::Show(text@),
            BridgeAction::Ignore => ActionView::Ignore,
            BridgeAction::Finish => ActionView::Finish,
            BridgeAction::Fail => ActionView::Fail,
        }
    }
}

/// What is written to the server for a text of the client: the text, and a line feed if it does
/// not end in one.
pub open spec fn line_writes(text: Seq<char>) -> Seq<Seq<u8>> {
    let bytes = vstd::utf8::encode_utf8(text);
    if text.len() > 0 && text.last() == '\n' {
        seq![bytes]
    } else {
        seq![bytes, seq![LF]]
    }
}

/// What is to be done about an event.
pub open spec fn action_for(event: BridgeEvent) -> ActionView {
    match event {
        BridgeEvent::Text(text) => ActionView::Write(line_writes(text@)),
        BridgeEvent::Bytes(bytes) => ActionView::Write(seq![bytes@]),
        BridgeEvent::OtherMessage => ActionView::Ignore,
        BridgeEvent::ClientClosed => ActionView::Finish,
        BridgeEvent::ClientFailed => ActionView::Fail,
        BridgeEvent::Chunk(chunk) => ActionView::Show(utf8_lossy(chunk@)),
        BridgeEvent::ServerClosed => ActionView::Finish,
        BridgeEvent::ServerFailed => ActionView::Fail,
    }
}

/// What a read from the server brings.
pub enum ReadEvent {
    /// A chunk.
    Chunk(Vec<u8>),
    /// The end of the connection.
    Closed,
    /// An error.
    Failed,
}

/// What is to be done about it.
pub enum ReadAction {
    /// Show this text, and read on.
    Show(String),
    /// Stop reading.
    Stop,
    /// Report the error, and read on.
    Report,
}

/// The text of the line that ends a session.
pub open spec fn summary_text(timestamp: Seq<char>, log: LogView) -> Seq<char> {
    "Session ended at "@ + timestamp + ": koukoku="@ + text::decimal(log.koukoku.len())
        + " bytes, chat="@ + text::decimal(log.chat.len()) + " bytes"@
}

impl SessionLog {
    /// Returns the log of a session that starts.
    pub fn new() -> (r: Self)
        ensures
            r@ == (LogView { koukoku: Seq::empty(), chat: Seq::empty() }),
    {
        SessionLog { koukoku: Vec::new(), chat: Vec::new() }
    }

    /// Returns the announcements.
    pub fn koukoku(&self) -> (r: &[u8])
        ensures
            r@ == self@.koukoku,
    {
        self.koukoku.as_slice()
    }

    /// Returns the chat.
    pub fn chat(&self) -> (r: &[u8])
        ensures
            r@ == self@.chat,
    {
        self.chat.as_slice()
    }

    /// Records a chunk of `len` bytes whose text is `text`.
    pub fn record_text(&mut self, len: usize, text: &str)
        ensures
            final(self)@ == old(self)@.recorded(len as nat, text@),
            final(self)@ == if len <= 8 {
                LogView {
                    koukoku: old(self)@.koukoku + vstd::utf8::encode_utf8(text@),
                    chat: old(self)@.chat,
                }
            } else {
                LogView {
                    koukoku: old(self)@.koukoku,
                    chat: (old(self)@.chat + vstd::utf8::encode_utf8(text@)).push(0x0a),
                }
            },
    {
        let bytes = text.as_bytes();
        if len <= ANNOUNCEMENT_LEN {
            self.koukoku.extend_from_slice(bytes);
            assert(self.koukoku@ =~= old(self).koukoku@ + bytes@);
        } else {
            self.chat.extend_from_slice(bytes);
            assert(self.chat@ =~= old(self).chat@ + bytes@);
            self.chat.push(LF);
        }
    }

    /// Records a chunk, and returns the text to show for it. A chunk of valid UTF-8 is kept byte
    /// for byte, and in any other one something is replaced by the character U+FFFD.
    pub fn record(&mut self, chunk: &[u8]) -> (text: String)
        ensures
            text@ == utf8_lossy(chunk@),
            final(self)@ == old(self)@.recorded(chunk@.len(), text@),
            vstd::utf8::valid_utf8(chunk@) ==> text@ == vstd::utf8::decode_utf8(chunk@)
                && vstd::utf8::encode_utf8(text@) == chunk@,
            !vstd::utf8::valid_utf8(chunk@) ==> text@.contains('\u{fffd}'),
            final(self)@ == if chunk.len() <= 8 {
                LogView {
                    koukoku: old(self)@.koukoku + vstd::utf8::encode_utf8(text@),
                    chat: old(self)@.chat,
                }
            } else {
                LogView {
                    koukoku: old(self)@.koukoku,
                    chat: (old(self)@.chat + vstd::utf8::encode_utf8(text@)).push(0x0a),
                }
            },
    {
        let text = from_utf8_lossy(chunk);
        self.record_text(chunk.len(), text.as_str());
        proof {
            if vstd::utf8::valid_utf8(chunk@) {
                vstd::utf8::decode_utf8_encode_utf8(chunk@);
            }
        }
        text
    }

    /// Decides what is to be done about an event, and records it if it is a chunk.
    pub fn bridge(&mut self, event: &BridgeEvent) -> (action: BridgeAction)
        ensures
            action@ == action_for(*event),
            match *event {
                BridgeEvent::Text(text) => {
                    &&& action matches BridgeAction::Write(writes)
                    &&& writes[0]@ == vstd::utf8::encode_utf8(text@)
                    &&& if text@.len() > 0 && text@.last() == '\n' {
                        writes.len() == 1
                    } else {
                        writes.len() == 2 && writes[1]@ == seq![0x0au8]
                    }
                },
                BridgeEvent::Bytes(bytes) => {
                    &&& action matches BridgeAction::Write(writes)
                    &&& writes.len() == 1
                    &&& writes[0]@ == bytes@
                },
                BridgeEvent::OtherMessage => action is Ignore,
                BridgeEvent::ClientClosed | BridgeEvent::ServerClosed => action is Finish,
                BridgeEvent::ClientFailed | BridgeEvent::ServerFailed => action is Fail,
                BridgeEvent::Chunk(chunk) => {
                    &&& action matches BridgeAction::Show(shown)
                    &&& shown@ == utf8_lossy(chunk@)
                    &&& vstd::utf8::valid_utf8(chunk@) ==> vstd::utf8::encode_utf8(shown@)
                        == chunk@
                    &&& !vstd::utf8::valid_utf8(chunk@) ==> shown@.contains('\u{fffd}')
                },
            },
            match *event {
                BridgeEvent::Chunk(chunk) => {
                    &&& final(self)@ == old(self)@.recorded(chunk@.len(), utf8_lossy(chunk@))
                    &&& final(self)@ == if chunk.len() <= 8 {
                        LogView {
                            koukoku: old(self)@.koukoku + vstd::utf8::encode_utf8(utf8_lossy(chunk@)),
                            chat: old(self)@.chat,
                        }
                    } else {
                        LogView {
                            koukoku: old(self)@.koukoku,
                            chat: (old(self)@.chat + vstd::utf8::encode_utf8(utf8_lossy(chunk@))).push(0x0a),
                        }
                    }
                },
                _ => final(self)@ == old(self)@,
            },
    {
        match event {
            BridgeEvent::Text(text) => BridgeAction::Write(text_writes(text.as_str())),
            BridgeEvent::Bytes(bytes) => {
                let mut writes: Vec<Vec<u8>> = Vec::new();
                writes.push(slice_to_vec(bytes.as_slice()));
                let action = BridgeAction::Write(writes);
                assert(action@->Write_0 =~= seq![bytes@]);
                action
            },
            BridgeEvent::OtherMessage => BridgeAction::Ignore,
            BridgeEvent::ClientClosed => BridgeAction::Finish,
            BridgeEvent::ClientFailed => BridgeAction::Fail,
            BridgeEvent::Chunk(chunk) => BridgeAction::Show(self.record(chunk.as_slice())),
            BridgeEvent::ServerClosed => BridgeAction::Finish,
            BridgeEvent::ServerFailed => BridgeAction::Fail,
        }
    }

    /// Decides what is to be done about a read, and records it if it is a chunk.
    pub fn on_read(&mut self, event: &ReadEvent) -> (action: ReadAction)
        ensures
            match *event {
                ReadEvent::Chunk(chunk) => {
                    &&& action matches ReadAction::Show(shown)
                    &&& shown@ == utf8_lossy(chunk@)
                    &&& vstd::utf8::valid_utf8(chunk@) ==> vstd::utf8::encode_utf8(shown@)
                        == chunk@
                    &&& !vstd::utf8::valid_utf8(chunk@) ==> shown@.contains('\u{fffd}')
                    &&& final(self)@ == old(self)@.recorded(chunk@.len(), utf8_lossy(chunk@))
                    &&& final(self)@ == if chunk.len() <= 8 {
                        LogView {
                            koukoku: old(self)@.koukoku + vstd::utf8::encode_utf8(utf8_lossy(chunk@)),
                            chat: old(self)@.chat,
                        }
                    } else {
                        LogView {
                            koukoku: old(self)@.koukoku,
                            chat: (old(self)@.chat + vstd::utf8::encode_utf8(utf8_lossy(chunk@))).push(0x0a),
                        }
                    }
                },
                ReadEvent::Closed => action is Stop && final(self)@ == old(self)@,
                ReadEvent::Failed => action is Report && final(self)@ == old(self)@,
            },
    {
        match event {
            ReadEvent::Chunk(chunk) => ReadAction::Show(self.record(chunk.as_slice())),
            ReadEvent::Closed => ReadAction::Stop,
            ReadEvent::Failed => ReadAction::Report,
        }
    }

    /// Returns the line that ends a session.
    pub fn summary(&self, timestamp: &str) -> (r: String)
        ensures
            r@ == summary_text(timestamp@, self@),
            r@ == "Session ended at "@ + timestamp@ + ": koukoku="@ + text::decimal(
                self@.koukoku.len(),
            ) + " bytes, chat="@ + text::decimal(self@.chat.len()) + " bytes"@,
    {
        let mut r = String::new();
        r.append("Session ended at ");
        r.append(timestamp);
        r.append(": koukoku=");
        text::push_decimal(&mut r, self.koukoku.len());
        r.append(" bytes, chat=");
        text::push_decimal(&mut r, self.chat.len());
        r.append(" bytes");
        assert(r@ =~= summary_text(timestamp@, self@));
        r
    }
}

/// Returns what is written to the server for a text of the client.
pub fn text_writes(message: &str) -> (r: Vec<Vec<u8>>)
    ensures
        r@.map_values(|bytes: Vec<u8>| bytes@) == line_writes(message@),
        r.len() == if message@.len() > 0 && message@.last() == '\n' { 1nat } else { 2nat },
        r[0]@ == vstd::utf8::encode_utf8(message@),
        r.len() == 2 ==> r[1]@ == seq![0x0au8],
{
    let mut writes: Vec<Vec<u8>> = Vec::new();
    writes.push(slice_to_vec(message.as_bytes()));
    let chars = text::to_chars(message);
    if !(chars.len() > 0 && chars[chars.len() - 1] == '\n') {
        let line_end: Vec<u8> = vec![LF];
        assert(line_end@ =~= seq![LF]);
        writes.push(line_end);
    }
    assert(writes@.map_values(|bytes: Vec<u8>| bytes@) =~= line_writes(message@));
    writes
}

/// Returns the chunk that a read of `len` bytes left in the buffer, or `None` at the end.
pub fn received(buffer: &[u8], len: usize) -> (r: Option<Vec<u8>>)
    requires
        len <= buffer.len(),
    ensures
        match r {
            None => len == 0,
            Some(chunk) => len > 0 && chunk@ == buffer@.take(len as int),
        },
{
    if len == 0 {
        return None;
    }
    let chunk = slice_to_vec(slice_subrange(buffer, 0, len));
    assert(chunk@ =~= buffer@.take(len as int));
    Some(chunk)
}

proof fn lemma_encode_push(text: Seq<char>, c: char)
    ensures
        vstd::utf8::encode_utf8(text.push(c)) == vstd::utf8::encode_utf8(text)
            + vstd::utf8::encode_scalar(c as u32),
    decreases text.len(),
{
    let longer = text.push(c);
    if text.len() == 0 {
        assert(longer.drop_first() =~= Seq::<char>::empty());
        assert(vstd::utf8::encode_utf8(Seq::<char>::empty()) =~= Seq::<u8>::empty());
        assert(vstd::utf8::encode_utf8(longer) =~= vstd::utf8::encode_utf8(text)
            + vstd::utf8::encode_scalar(c as u32));
    } else {
        lemma_encode_push(text.drop_first(), c);
        assert(longer.drop_first() =~= text.drop_first().push(c));
        assert(vstd::utf8::encode_utf8(longer) =~= vstd::utf8::encode_utf8(text)
            + vstd::utf8::encode_scalar(c as u32));
    }
}

/// What is written to the server for a text of the client ends in a line feed, and is the text
/// itself but for a line feed that was missing.
pub proof fn law_client_text_becomes_a_line(text: Seq<char>)
    ensures
        ({
            let writes = line_writes(text);
            &&& writes[0] == vstd::utf8::encode_utf8(text)
            &&& writes.last().len() > 0
            &&& writes.last().last() == LF
            &&& writes.len() == 1 || writes == seq![writes[0], seq![LF]]
        }),
{
    if text.len() > 0 && text.last() == '\n' {
        lemma_encode_push(text.drop_last(), '\n');
        assert(text.drop_last().push('\n') =~= text);
        assert(0x0au32 & 0x7f == 0x0a) by (bit_vector);
    }
}

/// The log only grows, and a chunk goes into one part of it: into the announcements if it is
/// short, and else into the chat, as a line.
pub proof fn law_log_only_grows(log: LogView, len: nat, text: Seq<char>)
    ensures
        ({
            let after = log.recorded(len, text);
            &&& log.koukoku.is_prefix_of(after.koukoku)
            &&& log.chat.is_prefix_of(after.chat)
            &&& len <= ANNOUNCEMENT_LEN ==> after.chat == log.chat
            &&& len > ANNOUNCEMENT_LEN ==> after.koukoku == log.koukoku && after.chat.last() == LF
        }),
{
}

} // verus!
