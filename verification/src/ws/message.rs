//! Logical messages and their reassembly from fragments.

use vstd::prelude::*;
use vstd::utf8::{decode_utf8, valid_utf8};
use crate::ws::frame::{
    Fragment, FragmentView, OPCODE_BINARY, OPCODE_CONTINUATION, OPCODE_TEXT,
};

verus! {

/// What can go wrong with the frames of a peer.
#[derive(Debug, Clone, Copy, PartialEq, Eq, Structural)]
pub enum Error {
    /// A frame broke the fragmentation rules: a continuation with no message
    /// under way, or another opcode while one is under way.
    UnexpectedOpcode,
    /// The payload of a text message is not valid UTF-8.
    InvalidTextPayload,
    /// A message was to be made from an opcode that is neither text nor
    /// binary.
    UnsupportedOpcode,
}

impl Error {
    /// A short description of the error.
    pub fn message(&self) -> (r: &'static str)
        ensures
            r@ == (match *self {
                Error::UnexpectedOpcode => "unexpected opcode"@,
                Error::InvalidTextPayload => "expected payload to be ut8 encoded"@,
                Error::UnsupportedOpcode => "Unsupported opcode"@,
            }),
    {
        match self {
            Error::UnexpectedOpcode => "unexpected opcode",
            Error::InvalidTextPayload => "expected payload to be ut8 encoded",
            Error::UnsupportedOpcode => "Unsupported opcode",
        }
    }
}

/// A logical message, as it is handed to the application.
#[derive(Debug, Clone, PartialEq, Eq)]
pub enum Message {
    Text(String),
    Binary(Vec<u8>),
    Close(Option<u16>),
}

/// Mathematical content of a message.
pub enum MessageView {
    Text(Seq<char>),
    Binary(Seq<u8>),
    Close(Option<u16>),
}

impl View for Message {
    type V = MessageView;

    open spec fn view(&self) -> MessageView {
        match *self {
            Message::Text(s) => MessageView::Text(s@),
            Message::Binary(b) => MessageView::Binary(b@),
            Message::Close(c) => MessageView::Close(c),
        }
    }
}

impl DeepView for Message {
    type V = MessageView;

    open spec fn deep_view(&self) -> MessageView {
        self@
    }
}

/// The message that the accumulated bytes `data` of a message with opcode
/// `opcode` make: text must be valid UTF-8, binary is taken as it is, and no
/// other opcode makes a message.
pub open spec fn message_from(data: Seq<u8>, opcode: u8) -> Result<MessageView, Error> {
    if opcode == OPCODE_TEXT {
        if valid_utf8(data) {
            Ok(MessageView::Text(decode_utf8(data)))
        } else {
            Err(Error::InvalidTextPayload)
        }
    } else if opcode == OPCODE_BINARY {
        Ok(MessageView::Binary(data))
    } else {
        Err(Error::UnsupportedOpcode)
    }
}

impl Message {
    /// Makes the message from the accumulated payload and the opcode of the
    /// fragment that started it. Text that is not valid UTF-8 is an error; no
    /// byte is replaced.
    pub fn from(data: Vec<u8>, opcode: u8) -> (r: Result<Message, Error>)
        ensures
            match r {
                Ok(message) => message_from(data@, opcode) == Ok::<MessageView, Error>(message@),
                Err(e) => message_from(data@, opcode) == Err::<MessageView, Error>(e),
            },
            opcode == OPCODE_TEXT && !valid_utf8(data@) ==> r == Err::<Message, Error>(
                Error::InvalidTextPayload,
            ),
    {
        if opcode == OPCODE_TEXT {
            match core::str::from_utf8(data.as_slice()) {
                Ok(s) => Ok(Message::Text(s.to_owned())),
                Err(_) => Err(Error::InvalidTextPayload),
            }
        } else if opcode == OPCODE_BINARY {
            Ok(Message::Binary(data))
        } else {
            Err(Error::UnsupportedOpcode)
        }
    }
}

/// Mathematical content of the reassembly state: the opcode of the fragment
/// that started the message under way, if one is under way, and the bytes
/// accumulated so far.
pub struct AssemblyView {
    pub started: Option<u8>,
    pub bytes: Seq<u8>,
}

/// The state in which no message is under way.
pub open spec fn idle() -> AssemblyView {
    AssemblyView { started: None, bytes: Seq::empty() }
}

/// The opcodes that may come next: text or binary while no message is under
/// way, a continuation while one is.
pub open spec fn accepts_opcode(state: AssemblyView, opcode: u8) -> bool {
    match state.started {
        None => opcode == OPCODE_TEXT || opcode == OPCODE_BINARY,
        Some(_) => opcode == OPCODE_CONTINUATION,
    }
}

/// The opcode under which the message runs that `frame` belongs to: that of
/// the fragment that started it.
pub open spec fn message_opcode(state: AssemblyView, frame: FragmentView) -> u8 {
    match state.started {
        None => frame.opcode,
        Some(opcode) => opcode,
    }
}

/// What one fragment does to the reassembly.
pub struct AssemblyStep {
    /// The state after the fragment.
    pub state: AssemblyView,
    /// The message that the fragment completed, none while the message goes
    /// on, or the error.
    pub result: Result<Option<MessageView>, Error>,
}

/// The reassembly rule. A fragment with an opcode that is not accepted is
/// refused and changes nothing. Otherwise its payload is added to the
/// accumulated bytes, under the opcode of the first fragment; a final
/// fragment turns all accumulated bytes into the message and leaves no
/// message under way.
pub open spec fn assemble(state: AssemblyView, frame: FragmentView) -> AssemblyStep {
    if !accepts_opcode(state, frame.opcode) {
        AssemblyStep { state, result: Err(Error::UnexpectedOpcode) }
    } else {
        let opcode = message_opcode(state, frame);
        let bytes = state.bytes + frame.payload;
        if !frame.fin {
            AssemblyStep { state: AssemblyView { started: Some(opcode), bytes }, result: Ok(None) }
        } else {
            AssemblyStep {
                state: idle(),
                result: match message_from(bytes, opcode) {
                    Ok(message) => Ok(Some(message)),
                    Err(e) => Err(e),
                },
            }
        }
    }
}

/// The payload of a message whose fragments have not all arrived yet.
pub struct IncompleteMessage {
    opcode: Option<u8>,
    bytes: Vec<u8>,
}

impl View for IncompleteMessage {
    type V = AssemblyView;

    closed spec fn view(&self) -> AssemblyView {
        AssemblyView { started: self.opcode, bytes: self.bytes@ }
    }
}

impl IncompleteMessage {
    /// A message under way was started by a text or a binary fragment, and
    /// bytes are held only for a message under way.
    #[verifier::type_invariant]
    spec fn started_by_data(self) -> bool {
        match self.opcode {
            None => self.bytes@.len() == 0,
            Some(opcode) => opcode == OPCODE_TEXT || opcode == OPCODE_BINARY,
        }
    }

    /// The state in which no message is under way.
    pub fn new() -> (r: Self)
        ensures
            r@ == idle(),
    {
        IncompleteMessage { opcode: None, bytes: Vec::new() }
    }

    /// Whether a fragment with this opcode may come next.
    pub fn accepts_opcode(&self, opcode: u8) -> (r: bool)
        ensures
            r == accepts_opcode(self@, opcode),
    {
        match self.opcode {
            None => opcode == OPCODE_TEXT || opcode == OPCODE_BINARY,
            Some(_) => opcode == OPCODE_CONTINUATION,
        }
    }

    /// Adds one data fragment to the message under way and returns the
    /// message when the fragment is final. A continuation with no message
    /// under way, and any other opcode while one is under way, is refused.
    /// A text message whose bytes are not valid UTF-8 is an error.
    pub fn append_fragment(&mut self, fragment: Fragment) -> (r: Result<Option<Message>, Error>)
        ensures
            final(self)@ == assemble(old(self)@, fragment@).state,
            match r {
                Ok(Some(message)) => assemble(old(self)@, fragment@).result == Ok::<
                    Option<MessageView>,
                    Error,
                >(Some(message@)),
                Ok(None) => assemble(old(self)@, fragment@).result == Ok::<
                    Option<MessageView>,
                    Error,
                >(None),
                Err(e) => assemble(old(self)@, fragment@).result == Err::<
                    Option<MessageView>,
                    Error,
                >(e),
            },
            old(self)@.started is None && fragment@.opcode == OPCODE_CONTINUATION ==> r == Err::<
                Option<Message>,
                Error,
            >(Error::UnexpectedOpcode),
            old(self)@.started is Some && fragment@.opcode != OPCODE_CONTINUATION ==> r == Err::<
                Option<Message>,
                Error,
            >(Error::UnexpectedOpcode),
            fragment@.fin && accepts_opcode(old(self)@, fragment@.opcode) && message_opcode(
                old(self)@,
                fragment@,
            ) == OPCODE_TEXT && !valid_utf8(old(self)@.bytes + fragment@.payload) ==> r == Err::<
                Option<Message>,
                Error,
            >(Error::InvalidTextPayload),
            r != Err::<Option<Message>, Error>(Error::UnsupportedOpcode),
            !fragment@.fin ==> !(r matches Ok(Some(_))),
    {
        proof {
            use_type_invariant(&*self);
        }
        if !self.accepts_opcode(fragment.opcode()) {
            return Err(Error::UnexpectedOpcode);
        }
        let opcode: u8 = match self.opcode {
            None => fragment.opcode(),
            Some(opcode) => opcode,
        };
        // append payload
        let mut bytes: Vec<u8> = Vec::new();
        core::mem::swap(&mut self.bytes, &mut bytes);
        let ghost before = bytes@;
        bytes.extend_from_slice(fragment.payload());
        assert(bytes@ =~= before + fragment@.payload);

        if !fragment.is_fin() {
            self.opcode = Some(opcode);
            self.bytes = bytes;
            return Ok(None);
        }
        self.opcode = None;
        match Message::from(bytes, opcode) {
            Ok(message) => Ok(Some(message)),
            Err(e) => Err(e),
        }
    }
}

/// The payloads of `frames`, one after the other.
pub open spec fn concat_payloads(frames: Seq<FragmentView>) -> Seq<u8>
    decreases frames.len(),
{
    if frames.len() == 0 {
        Seq::empty()
    } else {
        concat_payloads(frames.drop_last()) + frames.last().payload
    }
}

/// The reassembly state after `frames` have been handed over in order,
/// starting from `state`.
pub open spec fn assemble_all(state: AssemblyView, frames: Seq<FragmentView>) -> AssemblyView
    decreases frames.len(),
{
    if frames.len() == 0 {
        state
    } else {
        assemble(assemble_all(state, frames.drop_last()), frames.last()).state
    }
}

/// `frames` are the fragments of one message: a first fragment with a text
/// or binary opcode, continuations after it, and the FIN flag on the last
/// fragment only.
pub open spec fn fragments_of_one_message(frames: Seq<FragmentView>) -> bool {
    &&& frames.len() >= 1
    &&& frames[0].opcode == OPCODE_TEXT || frames[0].opcode == OPCODE_BINARY
    &&& forall|i: int|
        1 <= i < frames.len() ==> (#[trigger] frames[i]).opcode == OPCODE_CONTINUATION
    &&& forall|i: int|
        0 <= i < frames.len() ==> (#[trigger] frames[i]).fin == (i == frames.len() - 1)
}

/// The message that bytes make under a text or a binary opcode.
pub open spec fn data_message(opcode: u8, bytes: Seq<u8>) -> MessageView {
    if opcode == OPCODE_TEXT {
        MessageView::Text(decode_utf8(bytes))
    } else {
        MessageView::Binary(bytes)
    }
}

/// A message that is split into fragments is reassembled into exactly one
/// message, equal to the payloads put together, and nothing is produced
/// before the final fragment. This holds for every binary message, and for
/// every text message whose bytes are valid UTF-8.
pub proof fn lemma_fragments_reassemble(frames: Seq<FragmentView>)
    requires
        fragments_of_one_message(frames),
        frames[0].opcode == OPCODE_TEXT ==> valid_utf8(concat_payloads(frames)),
    ensures
        forall|i: int|
            0 <= i < frames.len() - 1 ==> (#[trigger] assemble(
                assemble_all(idle(), frames.take(i)),
                frames[i],
            )).result == Ok::<Option<MessageView>, Error>(None),
        assemble(
            assemble_all(idle(), frames.take(frames.len() - 1)),
            frames.last(),
        ).result == Ok::<Option<MessageView>, Error>(
            Some(data_message(frames[0].opcode, concat_payloads(frames))),
        ),
        assemble_all(idle(), frames) == idle(),
{
    let n = frames.len() as int;
    assert forall|i: int| 0 <= i < n - 1 implies (#[trigger] assemble(
        assemble_all(idle(), frames.take(i)),
        frames[i],
    )).result == Ok::<Option<MessageView>, Error>(None) by {
        lemma_assembly_under_way(frames, i);
    }
    lemma_assembly_under_way(frames, n - 1);
    assert(frames.take(n - 1) =~= frames.drop_last());
}

/// After the first `i` fragments of a message of more fragments, the state
/// holds their payloads under the opcode of the first.
proof fn lemma_assembly_under_way(frames: Seq<FragmentView>, i: int)
    requires
        fragments_of_one_message(frames),
        0 <= i < frames.len(),
    ensures
        assemble_all(idle(), frames.take(i)) == (if i == 0 {
            idle()
        } else {
            AssemblyView {
                started: Some(frames[0].opcode),
                bytes: concat_payloads(frames.take(i)),
            }
        }),
    decreases i,
{
    let head = frames.take(i);
    if i > 0 {
        lemma_assembly_under_way(frames, i - 1);
        assert(head.drop_last() =~= frames.take(i - 1));
        assert(head.last() == frames[i - 1]);
        assert(!frames[i - 1].fin);
        if i == 1 {
            assert(concat_payloads(frames.take(0)) =~= Seq::<u8>::empty());
            assert(Seq::<u8>::empty() + frames[0].payload =~= concat_payloads(head));
        }
    }
}

} // verus!
