//! The WebSocket protocol engine (server role).
//!
//! A [`Websocket`] is the state of one connection. It is fed the bytes that
//! were read from the transport and says which messages they make and which
//! bytes have to be written in answer.

pub mod base64;
pub mod frame;
pub mod handshake;
pub mod message;
pub mod parser;

use vstd::prelude::*;
use vstd::string::StringSliceAdditionalSpecFns;
use vstd::utf8::encode_utf8;
use crate::http::{
    crlf, header_line, header_value, status_line, Request, Response, ResponseComplete,
};
use crate::ws::handshake::{accept_token, handshake_token, SHA1_LIMIT};
use crate::ws::frame::{
    encode_frame, frame_complete, frame_header, lemma_encode_decode, Fragment, FragmentView,
    OPCODE_BINARY, OPCODE_CLOSE, OPCODE_PING, OPCODE_PONG, OPCODE_TEXT,
};
use crate::ws::message::{assemble, idle, AssemblyView, IncompleteMessage, MessageView};
use crate::ws::parser::{lemma_incomplete_prefix, parser_step, IncompleteFragment};

pub use crate::ws::message::{Error, Message};

verus! {

/// The state of one WebSocket connection.
pub struct Websocket {
    closed: bool,
    incomplete_fragment: IncompleteFragment,
    incomplete_message: IncompleteMessage,
}

/// Mathematical content of a connection's state.
pub struct SessionView {
    /// Whether a close frame was received or sent.
    pub closed: bool,
    /// The bytes of the frame that is being received.
    pub parser: Seq<u8>,
    /// The message that is being reassembled.
    pub assembler: AssemblyView,
}

impl View for Websocket {
    type V = SessionView;

    closed spec fn view(&self) -> SessionView {
        SessionView {
            closed: self.closed,
            parser: self.incomplete_fragment@,
            assembler: self.incomplete_message@,
        }
    }
}

/// What a read cycle does with the bytes that were received.
pub struct ReadOutcome {
    /// The connection's state after the cycle.
    pub state: SessionView,
    /// The messages that were completed, in order, up to an error if there
    /// was one.
    pub messages: Seq<MessageView>,
    /// The bytes of the frames that answer the received ones.
    pub outbound: Seq<u8>,
    /// The protocol error that ended the cycle, if one did.
    pub error: Option<Error>,
}

/// The state of a connection on which nothing has happened yet: open, with no
/// frame and no message under way.
pub open spec fn fresh_session() -> SessionView {
    SessionView {
        closed: false,
        parser: Seq::empty(),
        assembler: idle(),
    }
}

/// The status code of a close frame: the first two payload bytes as a
/// big-endian number, if the payload has them.
pub open spec fn close_code(payload: Seq<u8>) -> Option<u16> {
    if payload.len() >= 2 {
        Some((payload[0] as u16 * 0x100 + payload[1] as u16) as u16)
    } else {
        None
    }
}

/// What the session does with one complete frame.
pub struct FrameOutcome {
    /// The connection's state after the frame.
    pub state: SessionView,
    /// The messages that the frame gives: one or none.
    pub messages: Seq<MessageView>,
    /// The bytes of the frame that answers it, if one does.
    pub outbound: Seq<u8>,
    /// The protocol error that the frame raises, if it does.
    pub error: Option<Error>,
    /// Whether the frame ends the read cycle: a close frame and an error do.
    pub last: bool,
}

/// The session's answer to one frame. A close frame gives a `Close` message
/// with its status code and closes the session. A ping is answered by a pong
/// with the same payload and gives no message. Other control frames are
/// passed over. A data frame goes to the reassembly, which gives a message,
/// nothing yet, or an error.
pub open spec fn dispatch(state: SessionView, frame: FragmentView) -> FrameOutcome {
    if frame.opcode == OPCODE_CLOSE {
        FrameOutcome {
            state: SessionView { closed: true, ..state },
            messages: seq![MessageView::Close(close_code(frame.payload))],
            outbound: Seq::empty(),
            error: None,
            last: true,
        }
    } else if frame.opcode == OPCODE_PING {
        FrameOutcome {
            state,
            messages: Seq::empty(),
            outbound: encode_frame(OPCODE_PONG, frame.payload),
            error: None,
            last: false,
        }
    } else if frame.opcode >= 8 {
        FrameOutcome {
            state,
            messages: Seq::empty(),
            outbound: Seq::empty(),
            error: None,
            last: false,
        }
    } else {
        let assembly = assemble(state.assembler, frame);
        FrameOutcome {
            state: SessionView { assembler: assembly.state, ..state },
            messages: match assembly.result {
                Ok(Some(message)) => seq![message],
                _ => Seq::empty(),
            },
            outbound: Seq::empty(),
            error: match assembly.result {
                Err(e) => Some(e),
                _ => None,
            },
            last: assembly.result is Err,
        }
    }
}

/// The read cycle. The received bytes are parsed frame by frame, and each
/// frame is answered as `dispatch` says, until the bytes are used up or a
/// frame ends the cycle: what follows a close frame or an error in `data` is
/// dropped. Bytes that complete no frame stay in the parser.
pub open spec fn read_cycle(state: SessionView, data: Seq<u8>) -> ReadOutcome
    decreases data.len(),
    when !frame_complete(state.parser)
{
    let step = parser_step(state.parser, data);
    if data.len() == 0 {
        ReadOutcome { state, messages: Seq::empty(), outbound: Seq::empty(), error: None }
    } else if step.frame is None {
        ReadOutcome {
            state: SessionView { parser: step.buffer, ..state },
            messages: Seq::empty(),
            outbound: Seq::empty(),
            error: None,
        }
    } else {
        let first = dispatch(SessionView { parser: Seq::empty(), ..state }, step.frame->0);
        if first.last {
            ReadOutcome {
                state: first.state,
                messages: first.messages,
                outbound: first.outbound,
                error: first.error,
            }
        } else {
            let later = read_cycle(first.state, data.skip(step.consumed as int));
            ReadOutcome {
                state: later.state,
                messages: first.messages + later.messages,
                outbound: first.outbound + later.outbound,
                error: later.error,
            }
        }
    }
}

impl Websocket {
    /// The state of a connection on which the handshake has just been
    /// completed: open, with nothing received yet.
    pub fn new() -> (r: Self)
        ensures
            r@ == fresh_session(),
    {
        Websocket {
            closed: false,
            incomplete_fragment: IncompleteFragment::new(),
            incomplete_message: IncompleteMessage::new(),
        }
    }

    /// Whether a close frame was received or sent.
    pub fn is_closed(&self) -> (r: bool)
        ensures
            r == self@.closed,
    {
        self.closed
    }

    /// Answers one complete frame: collects the message that it gives in
    /// `messages`, appends the frame that answers it to `outbound`, and says
    /// whether the read cycle goes on after it.
    fn handle_frame(
        &mut self,
        fragment: Fragment,
        messages: &mut Vec<Message>,
        outbound: &mut Vec<u8>,
    ) -> (r: Result<bool, Error>)
        ensures
            final(self)@ == dispatch(old(self)@, fragment@).state,
            final(messages).deep_view() == old(messages).deep_view() + dispatch(
                old(self)@,
                fragment@,
            ).messages,
            final(outbound)@ == old(outbound)@ + dispatch(old(self)@, fragment@).outbound,
            match r {
                Ok(go_on) => {
                    &&& dispatch(old(self)@, fragment@).error is None
                    &&& go_on == !dispatch(old(self)@, fragment@).last
                },
                Err(e) => {
                    &&& dispatch(old(self)@, fragment@).error == Some(e)
                    &&& dispatch(old(self)@, fragment@).last
                },
            },
    {
        let ghost collected = messages.deep_view();
        let ghost sent = outbound@;
        proof {
            assert(collected + Seq::<MessageView>::empty() =~= collected);
            assert(sent + Seq::<u8>::empty() =~= sent);
        }
        if fragment.is_control_frame() {
            // handle control frame
            if fragment.opcode() == OPCODE_CLOSE {
                // close frame
                let payload: &[u8] = fragment.payload();
                let code: Option<u16> = if payload.len() >= 2 {
                    Some((payload[0] as u16) * 0x100 + (payload[1] as u16))
                } else {
                    None
                };
                messages.push(Message::Close(code));
                self.closed = true;
                assert(messages.deep_view() =~= collected + seq![
                    MessageView::Close(close_code(fragment@.payload)),
                ]);
                return Ok(false);
            } else if fragment.opcode() == OPCODE_PING {
                // ping frame
                Self::send(OPCODE_PONG, fragment.payload(), outbound);
            }
            Ok(true)
        } else {
            match self.incomplete_message.append_fragment(fragment) {
                Err(e) => Err(e),
                Ok(None) => Ok(true),
                Ok(Some(message)) => {
                    let ghost content = message@;
                    messages.push(message);
                    assert(messages.deep_view() =~= collected + seq![content]);
                    Ok(true)
                },
            }
        }
    }

    /// Takes the bytes of one read from the transport. Returns the messages
    /// that they complete and appends to `outbound` the frames that answer
    /// them. A protocol error ends the cycle and is returned in place of the
    /// messages; what was appended to `outbound` before it stays there.
    pub fn read(&mut self, received: &[u8], outbound: &mut Vec<u8>) -> (r: Result<
        Vec<Message>,
        Error,
    >)
        ensures
            !frame_complete(old(self)@.parser),
            !frame_complete(final(self)@.parser),
            final(self)@ == read_cycle(old(self)@, received@).state,
            final(outbound)@ == old(outbound)@ + read_cycle(old(self)@, received@).outbound,
            match r {
                Ok(messages) => {
                    &&& read_cycle(old(self)@, received@).error is None
                    &&& messages.deep_view() == read_cycle(old(self)@, received@).messages
                },
                Err(e) => read_cycle(old(self)@, received@).error == Some(e),
            },
    {
        let mut messages: Vec<Message> = Vec::new();
        let mut rest: &[u8] = received;
        let ghost total = read_cycle(old(self)@, received@);
        proof {
            use_type_invariant(&self.incomplete_fragment);
            assert(messages.deep_view() =~= Seq::<MessageView>::empty());
            assert(messages.deep_view() + total.messages =~= total.messages);
        }
        while rest.len() > 0
            invariant
                !frame_complete(old(self)@.parser),
                !frame_complete(self@.parser),
                total == read_cycle(old(self)@, received@),
                total.state == read_cycle(self@, rest@).state,
                total.error == read_cycle(self@, rest@).error,
                total.messages == messages.deep_view() + read_cycle(self@, rest@).messages,
                old(outbound)@ + total.outbound == outbound@ + read_cycle(self@, rest@).outbound,
            decreases rest@.len(),
        {
            let ghost before = self@;
            let ghost data = rest@;
            let ghost collected = messages.deep_view();
            let ghost sent = outbound@;
            let appended: Option<Fragment> = self.incomplete_fragment.append(&mut rest);
            proof {
                use_type_invariant(&self.incomplete_fragment);
            }
            match appended {
                None => {
                    proof {
                        lemma_cycle_pending(before, data, self@, rest@);
                    }
                },
                Some(fragment) => {
                    let ghost waiting = self@;
                    let ghost frame = fragment@;
                    let handled: Result<bool, Error> = self.handle_frame(
                        fragment,
                        &mut messages,
                        outbound,
                    );
                    proof {
                        use_type_invariant(&self.incomplete_fragment);
                        lemma_cycle_step(before, data, waiting, frame, rest@);
                        lemma_collect(
                            collected,
                            dispatch(waiting, frame).messages,
                            read_cycle(self@, rest@).messages,
                        );
                        lemma_collect(
                            sent,
                            dispatch(waiting, frame).outbound,
                            read_cycle(self@, rest@).outbound,
                        );
                    }
                    match handled {
                        Err(e) => {
                            return Err(e);
                        },
                        Ok(go_on) => {
                            if !go_on {
                                return Ok(messages);
                            }
                        },
                    }
                },
            }
        }
        proof {
            lemma_cycle_done(self@, rest@);
            lemma_collect(
                messages.deep_view(),
                Seq::<MessageView>::empty(),
                Seq::<MessageView>::empty(),
            );
            lemma_collect(outbound@, Seq::<u8>::empty(), Seq::<u8>::empty());
        }
        Ok(messages)
    }

    /// Appends to `outbound` the single frame that carries `data`: FIN set,
    /// not masked, the low four bits of `opcode`, and the payload length in
    /// the shortest of the three forms.
    pub fn send(opcode: u8, data: &[u8], outbound: &mut Vec<u8>)
        ensures
            final(outbound)@ == old(outbound)@ + encode_frame(opcode, data@),
    {
        let ghost before = outbound@;
        let len: usize = data.len();
        let mut header: Vec<u8> = Vec::new();
        header.push(0x80 | (opcode & 0xF));
        if len < 126 {
            // one byte payload length
            header.push(len as u8);
        } else if len <= 0xFFFF {
            // two byte extended payload length
            header.push(126);
            header.push((len / 0x100) as u8);
            header.push((len % 0x100) as u8);
        } else {
            // 8 byte extended payload length
            let n: u64 = len as u64;
            header.push(127);
            header.push((n / 0x100_0000_0000_0000 % 0x100) as u8);
            header.push((n / 0x1_0000_0000_0000 % 0x100) as u8);
            header.push((n / 0x100_0000_0000 % 0x100) as u8);
            header.push((n / 0x1_0000_0000 % 0x100) as u8);
            header.push((n / 0x100_0000 % 0x100) as u8);
            header.push((n / 0x1_0000 % 0x100) as u8);
            header.push((n / 0x100 % 0x100) as u8);
            header.push((n % 0x100) as u8);
        }
        assert(header@ =~= frame_header(opcode, len as nat));
        outbound.extend_from_slice(header.as_slice());
        outbound.extend_from_slice(data);
        assert(outbound@ =~= before + encode_frame(opcode, data@));
    }

    /// Appends to `outbound` the text frame that carries `data`.
    pub fn send_text(&mut self, data: &str, outbound: &mut Vec<u8>)
        ensures
            final(self)@ == old(self)@,
            final(outbound)@ == old(outbound)@ + encode_frame(OPCODE_TEXT, data.spec_bytes()),
    {
        Self::send(OPCODE_TEXT, data.as_bytes(), outbound)
    }

    /// Appends to `outbound` the binary frame that carries `data`.
    pub fn send_bytes(&mut self, data: &[u8], outbound: &mut Vec<u8>)
        ensures
            final(self)@ == old(self)@,
            final(outbound)@ == old(outbound)@ + encode_frame(OPCODE_BINARY, data@),
    {
        Self::send(OPCODE_BINARY, data, outbound)
    }

    /// Closes the session and appends to `outbound` the close frame: its
    /// payload is the status code as two big-endian bytes, or empty without
    /// one.
    pub fn close(&mut self, code: Option<u16>, outbound: &mut Vec<u8>)
        ensures
            final(self)@ == (SessionView { closed: true, ..old(self)@ }),
            final(outbound)@ == old(outbound)@ + encode_frame(OPCODE_CLOSE, close_payload(code)),
            code is Some ==> close_code(close_payload(code)) == code,
    {
        self.closed = true;
        match code {
            Some(code) => {
                let payload: [u8; 2] = [(code / 0x100) as u8, (code % 0x100) as u8];
                assert(payload@ =~= close_payload(Some(code)));
                Self::send(OPCODE_CLOSE, payload.as_slice(), outbound)
            },
            None => {
                let payload: [u8; 0] = [];
                assert(payload@ =~= close_payload(None));
                Self::send(OPCODE_CLOSE, payload.as_slice(), outbound)
            },
        }
    }
}

/// The payload of a close frame: the status code as two big-endian bytes, or
/// nothing.
pub open spec fn close_payload(code: Option<u16>) -> Seq<u8> {
    match code {
        Some(code) => seq![(code / 0x100) as u8, (code % 0x100) as u8],
        None => Seq::empty(),
    }
}

/// What was collected, then one item's part, then the rest: it does not
/// matter where the brackets stand.
proof fn lemma_collect<T>(collected: Seq<T>, first: Seq<T>, later: Seq<T>)
    ensures
        collected + (first + later) == (collected + first) + later,
        collected + Seq::<T>::empty() == collected,
        first + Seq::<T>::empty() == first,
{
    assert(collected + (first + later) =~= (collected + first) + later);
    assert(collected + Seq::<T>::empty() =~= collected);
    assert(first + Seq::<T>::empty() =~= first);
}

/// With no bytes left the read cycle changes nothing.
proof fn lemma_cycle_done(state: SessionView, data: Seq<u8>)
    requires
        !frame_complete(state.parser),
        data.len() == 0,
    ensures
        read_cycle(state, data) == (ReadOutcome {
            state,
            messages: Seq::empty(),
            outbound: Seq::empty(),
            error: None,
        }),
{
}

/// Bytes that complete no frame end the read cycle in the parser's buffer.
proof fn lemma_cycle_pending(before: SessionView, data: Seq<u8>, after: SessionView, rest: Seq<u8>)
    requires
        !frame_complete(before.parser),
        !frame_complete(after.parser),
        data.len() > 0,
        parser_step(before.parser, data).frame is None,
        after == (SessionView { parser: parser_step(before.parser, data).buffer, ..before }),
        rest == data.skip(parser_step(before.parser, data).consumed as int),
    ensures
        rest.len() == 0,
        read_cycle(before, data) == read_cycle(after, rest),
{
}

/// A frame takes at least one of the offered bytes, and leaves nothing in
/// the parser.
proof fn lemma_frame_consumed(buffer: Seq<u8>, data: Seq<u8>)
    requires
        !frame_complete(buffer),
        parser_step(buffer, data).frame is Some,
    ensures
        0 < parser_step(buffer, data).consumed <= data.len(),
        parser_step(buffer, data).buffer == Seq::<u8>::empty(),
{
    lemma_incomplete_prefix(buffer + data, buffer.len() as int);
    assert((buffer + data).take(buffer.len() as int) =~= buffer);
}

/// One step of the read cycle, for bytes that complete a frame: the frame is
/// answered, and unless it is the last the cycle goes on with the bytes
/// behind it.
proof fn lemma_cycle_step(
    before: SessionView,
    data: Seq<u8>,
    waiting: SessionView,
    frame: FragmentView,
    rest: Seq<u8>,
)
    requires
        !frame_complete(before.parser),
        data.len() > 0,
        parser_step(before.parser, data).frame == Some(frame),
        waiting == (SessionView { parser: parser_step(before.parser, data).buffer, ..before }),
        rest == data.skip(parser_step(before.parser, data).consumed as int),
    ensures
        rest.len() < data.len(),
        dispatch(waiting, frame).state.parser == Seq::<u8>::empty(),
        !frame_complete(dispatch(waiting, frame).state.parser),
        read_cycle(before, data) == if dispatch(waiting, frame).last {
            ReadOutcome {
                state: dispatch(waiting, frame).state,
                messages: dispatch(waiting, frame).messages,
                outbound: dispatch(waiting, frame).outbound,
                error: dispatch(waiting, frame).error,
            }
        } else {
            ReadOutcome {
                state: read_cycle(dispatch(waiting, frame).state, rest).state,
                messages: dispatch(waiting, frame).messages + read_cycle(
                    dispatch(waiting, frame).state,
                    rest,
                ).messages,
                outbound: dispatch(waiting, frame).outbound + read_cycle(
                    dispatch(waiting, frame).state,
                    rest,
                ).outbound,
                error: read_cycle(dispatch(waiting, frame).state, rest).error,
            }
        },
{
    lemma_frame_consumed(before.parser, data);
    assert(waiting == (SessionView { parser: Seq::empty(), ..before }));
}

/// The response that accepts the upgrade: status `101 Switching Protocols`
/// in the request's HTTP version, the headers `Upgrade: websocket` and
/// `Connection: Upgrade`, and the accept token for the client's key.
pub open spec fn upgrade_response(version: Seq<char>, key: Seq<char>) -> Seq<u8> {
    status_line(version, "Switching Protocols"@, 101) + header_line("Upgrade"@, "websocket"@)
        + header_line("Connection"@, "Upgrade"@) + header_line(
        "Sec-WebSocket-Accept"@,
        handshake_token(key),
    ) + crlf()
}

/// Answers the upgrade request of a client: returns the state of the new
/// connection and the response that has to be sent before the first frame.
/// The request must carry the client's key in a header named exactly
/// `Sec-WebSocket-Key`; without it there is no upgrade.
pub fn upgrade(req: &Request) -> (r: (Websocket, ResponseComplete))
    requires
        header_value(req@.headers, "Sec-WebSocket-Key"@) matches Some(key) && encode_utf8(
            key,
        ).len() + 36 < SHA1_LIMIT,
    ensures
        r.0@ == fresh_session(),
        r.1@ == upgrade_response(
            req@.line.version,
            header_value(req@.headers, "Sec-WebSocket-Key"@)->0,
        ),
{
    let key: &str = req.get_header("Sec-WebSocket-Key").unwrap();
    let b64: String = accept_token(key);
    proof {
        reveal_strlit("Content-Length");
        reveal_strlit("Upgrade");
        reveal_strlit("Connection");
        reveal_strlit("Sec-WebSocket-Accept");
        assert("Upgrade"@.len() != "Content-Length"@.len());
        assert("Connection"@.len() != "Content-Length"@.len());
        assert("Sec-WebSocket-Accept"@.len() != "Content-Length"@.len());
    }
    let response: ResponseComplete = Response::status(
        req.get_http_version(),
        "Switching Protocols",
        101,
    ).header("Upgrade", "websocket").header("Connection", "Upgrade").header(
        "Sec-WebSocket-Accept",
        b64.as_str(),
    ).build();
    (Websocket::new(), response)
}

/// What was sent as one frame is read as that frame. With no frame under way,
/// the bytes of an encoded frame are answered as the frame with that opcode
/// and payload is: a text or binary frame gives its message, a ping its pong,
/// a close frame the `Close` message.
pub proof fn lemma_read_encoded_frame(state: SessionView, opcode: u8, payload: Seq<u8>)
    requires
        state.parser.len() == 0,
        opcode < 16,
        payload.len() <= u64::MAX,
    ensures
        read_cycle(state, encode_frame(opcode, payload)) == ({
            let answer = dispatch(
                state,
                FragmentView { fin: true, opcode, mask_key: None, payload },
            );
            ReadOutcome {
                state: answer.state,
                messages: answer.messages,
                outbound: answer.outbound,
                error: answer.error,
            }
        }),
{
    let bytes = encode_frame(opcode, payload);
    let frame = FragmentView { fin: true, opcode, mask_key: None, payload };
    let answer = dispatch(state, frame);
    lemma_encode_decode(opcode, payload);
    assert(state.parser + bytes =~= bytes);
    assert(state.parser =~= Seq::<u8>::empty());
    assert(bytes.skip(bytes.len() as int) =~= Seq::<u8>::empty());
    assert(state == (SessionView { parser: Seq::empty(), ..state }));
    if !answer.last {
        lemma_cycle_done(answer.state, bytes.skip(bytes.len() as int));
        lemma_collect(answer.messages, Seq::<MessageView>::empty(), Seq::<MessageView>::empty());
        lemma_collect(answer.outbound, Seq::<u8>::empty(), Seq::<u8>::empty());
    }
}

} // verus!
