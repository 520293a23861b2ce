//! The incremental frame parser: it assembles complete frames from bytes that
//! arrive in pieces of any size.

use vstd::prelude::*;
use crate::ws::frame::{
    apply_mask, decode_frame, encode_frame, frame_complete, frame_len, frame_mask_key, header_len,
    lemma_encode_decode, length_code, length_end, mask_bit, payload_len, Fragment, FragmentView,
};

verus! {

/// What one call of the parser does with the bytes it is offered.
pub struct ParserStep {
    /// The frame that was completed, if one was.
    pub frame: Option<FragmentView>,
    /// How many of the offered bytes were taken.
    pub consumed: nat,
    /// The bytes that stay buffered for the next call.
    pub buffer: Seq<u8>,
}

/// The parser's behaviour: with `buffer` held from earlier calls and `data`
/// offered now, a frame is emitted as soon as the two together hold all its
/// bytes; the bytes of `data` behind the frame's end are left to the caller.
/// Until then every offered byte is buffered.
pub open spec fn parser_step(buffer: Seq<u8>, data: Seq<u8>) -> ParserStep {
    let stream = buffer + data;
    if frame_complete(stream) {
        ParserStep {
            frame: Some(decode_frame(stream)),
            consumed: (frame_len(stream) - buffer.len()) as nat,
            buffer: Seq::empty(),
        }
    } else {
        ParserStep { frame: None, consumed: data.len(), buffer: stream }
    }
}

/// The bytes of a frame that has not been received in full yet.
pub struct IncompleteFragment {
    bytes: Vec<u8>,
}

impl View for IncompleteFragment {
    type V = Seq<u8>;

    closed spec fn view(&self) -> Seq<u8> {
        self.bytes@
    }
}

impl IncompleteFragment {
    /// The smallest header: the two bytes that every frame starts with.
    pub const MIN_SIZE: usize = 2;

    /// What is buffered is never a complete frame: a frame leaves the parser
    /// in the call that completes it.
    #[verifier::type_invariant]
    pub open spec fn incomplete(self) -> bool {
        !frame_complete(self@)
    }

    /// A parser that has buffered nothing.
    pub fn new() -> (r: Self)
        ensures
            r@ == Seq::<u8>::empty(),
    {
        IncompleteFragment { bytes: Vec::new() }
    }

    /// The MASK flag, once the two fixed header bytes are there.
    fn is_masked(bytes: &Vec<u8>) -> (r: Option<bool>)
        ensures
            r == (if bytes@.len() < 2 {
                None
            } else {
                Some(mask_bit(bytes@[1]))
            }),
    {
        if bytes.len() < 2 {
            None
        } else {
            let b1: u8 = bytes[1];
            assert((b1 >> 7 != 0) == (b1 & 0x80 != 0)) by (bit_vector);
            Some((b1 >> 7) != 0)
        }
    }

    /// The provisional payload length, once the two fixed header bytes are
    /// there.
    fn provisional_payload_length(bytes: &Vec<u8>) -> (r: Option<u8>)
        ensures
            r == (if bytes@.len() < 2 {
                None
            } else {
                Some(length_code(bytes@[1]))
            }),
    {
        if bytes.len() < 2 {
            None
        } else {
            Some(bytes[1] & 0x7F)
        }
    }

    /// Moves up to `n` bytes from the front of `data` to the end of `bytes`:
    /// all `n` if `data` holds that many, else all of `data`. Says whether
    /// all `n` were there.
    fn try_append_nbytes(bytes: &mut Vec<u8>, n: u64, data: &mut &[u8]) -> (r: bool)
        ensures
            r == (n <= old(data)@.len()),
            r ==> final(bytes)@ == old(bytes)@ + old(data)@.take(n as int),
            r ==> final(data)@ == old(data)@.skip(n as int),
            !r ==> final(bytes)@ == old(bytes)@ + old(data)@,
            !r ==> final(data)@ == Seq::<u8>::empty(),
    {
        let source: &[u8] = *data;
        let available: usize = source.len();
        let count: usize = if n <= available as u64 {
            n as usize
        } else {
            available
        };
        let mut i: usize = 0;
        while i < count
            invariant
                i <= count <= available,
                available == source@.len(),
                bytes@ == old(bytes)@ + source@.take(i as int),
            decreases count - i,
        {
            bytes.push(source[i]);
            assert(source@.take(i + 1) =~= source@.take(i as int).push(source@[i as int]));
            i += 1;
        }
        *data = &source[count..available];
        assert(source@.take(available as int) =~= source@);
        assert(source@.subrange(count as int, available as int) =~= source@.skip(count as int));
        n <= available as u64
    }

    /// Offset of the first byte after the payload length field, once the two
    /// fixed header bytes are there.
    fn get_length_till_end_of_payload(bytes: &Vec<u8>) -> (r: Option<usize>)
        ensures
            r == (if bytes@.len() < 2 {
                None
            } else {
                Some(length_end(bytes@) as usize)
            }),
            r is Some ==> r->0 == length_end(bytes@),
    {
        match Self::provisional_payload_length(bytes) {
            None => None,
            Some(code) => {
                if code == 126 {
                    Some(Self::MIN_SIZE + 2)
                } else if code == 127 {
                    Some(Self::MIN_SIZE + 8)
                } else {
                    Some(Self::MIN_SIZE)
                }
            },
        }
    }

    /// The masking key, once a masked frame's header is there in full.
    fn get_mask(bytes: &Vec<u8>) -> (r: Option<[u8; 4]>)
        ensures
            match r {
                Some(key) => bytes@.len() >= 2 && bytes@.len() >= header_len(bytes@)
                    && frame_mask_key(bytes@) == Some(key@),
                None => bytes@.len() < 2 || bytes@.len() < header_len(bytes@) || frame_mask_key(
                    bytes@,
                ) is None,
            },
    {
        let payload_len_end: usize = match Self::get_length_till_end_of_payload(bytes) {
            None => { return None; },
            Some(end) => end,
        };
        let masked: bool = match Self::is_masked(bytes) {
            None => { return None; },
            Some(m) => m,
        };
        if !masked || bytes.len() < payload_len_end + 4 {
            return None;
        }
        let key: [u8; 4] = [
            bytes[payload_len_end],
            bytes[payload_len_end + 1],
            bytes[payload_len_end + 2],
            bytes[payload_len_end + 3],
        ];
        assert(key@ =~= bytes@.subrange(payload_len_end as int, payload_len_end as int + 4));
        Some(key)
    }

    /// The payload length that the header declares, once the length field is
    /// there in full.
    fn payload_len(bytes: &Vec<u8>) -> (r: Option<u64>)
        ensures
            r == (if bytes@.len() < 2 || bytes@.len() < length_end(bytes@) {
                None
            } else {
                Some(payload_len(bytes@) as u64)
            }),
            r is Some ==> r->0 == payload_len(bytes@),
    {
        let payload_len_end: usize = match Self::get_length_till_end_of_payload(bytes) {
            None => { return None; },
            Some(end) => end,
        };
        if bytes.len() < payload_len_end {
            return None;
        }
        let code: u8 = bytes[1] & 0x7F;
        if code == 126 {
            let value: u64 = (bytes[2] as u64) * 0x100 + (bytes[3] as u64);
            Some(value)
        } else if code == 127 {
            let value: u64 = (bytes[2] as u64) * 0x100_0000_0000_0000 + (bytes[3] as u64)
                * 0x1_0000_0000_0000 + (bytes[4] as u64) * 0x100_0000_0000 + (bytes[5] as u64)
                * 0x1_0000_0000 + (bytes[6] as u64) * 0x100_0000 + (bytes[7] as u64) * 0x1_0000
                + (bytes[8] as u64) * 0x100 + (bytes[9] as u64);
            Some(value)
        } else {
            Some(code as u64)
        }
    }

    /// Brings `bytes` up to `target` bytes with bytes from the front of
    /// `data`, as far as `data` reaches. Says whether `bytes` now holds at
    /// least `target` bytes.
    fn fill_to(bytes: &mut Vec<u8>, target: u64, data: &mut &[u8]) -> (r: bool)
        ensures
            final(bytes)@ + final(data)@ == old(bytes)@ + old(data)@,
            final(bytes)@.len() >= old(bytes)@.len(),
            old(bytes)@.len() >= target ==> final(bytes)@ == old(bytes)@,
            r ==> final(bytes)@.len() >= target,
            r && old(bytes)@.len() <= target ==> final(bytes)@.len() == target,
            !r ==> final(bytes)@.len() < target && final(data)@.len() == 0,
    {
        let have: usize = bytes.len();
        if have as u64 >= target {
            return true;
        }
        let ghost before = bytes@;
        let ghost rest = data@;
        let missing: u64 = target - have as u64;
        let done: bool = Self::try_append_nbytes(bytes, missing, data);
        proof {
            if done {
                assert(before + rest.take(missing as int) + rest.skip(missing as int) =~= before
                    + rest);
            } else {
                assert(bytes@ + data@ =~= before + rest);
            }
        }
        done
    }

    /// Takes a complete frame apart: the flags and the opcode from the first
    /// byte, the masking key, and the payload, which is unmasked.
    fn finish(bytes: Vec<u8>, end_of_mask: usize) -> (r: Fragment)
        requires
            frame_complete(bytes@),
            bytes@.len() == frame_len(bytes@),
            end_of_mask == header_len(bytes@),
        ensures
            r@ == decode_frame(bytes@),
    {
        let mut bytes = bytes;
        let ghost whole = bytes@;
        let first: u8 = bytes[0];
        assert((first >> 7 != 0) == (first & 0x80 != 0)) by (bit_vector);
        let fin: bool = (first >> 7) != 0;
        let opcode: u8 = first & 0xF;
        let mask_key: Option<[u8; 4]> = Self::get_mask(&bytes);
        let mut payload: Vec<u8> = bytes.split_off(end_of_mask);
        assert(payload@ =~= whole.subrange(header_len(whole) as int, frame_len(whole) as int));
        match mask_key {
            Some(key) => {
                apply_mask(&mut payload, key);
            },
            None => {},
        }
        Fragment { fin, opcode, mask_key, payload }
    }

    /// The header stages: the two fixed bytes, then the extended length, then
    /// the masking key, each taken from `data` as far as it is still missing.
    /// Returns the offset of the payload once the header is there in full.
    fn read_header(bytes: &mut Vec<u8>, data: &mut &[u8]) -> (r: Option<usize>)
        ensures
            final(bytes)@ + final(data)@ == old(bytes)@ + old(data)@,
            final(bytes)@.len() >= old(bytes)@.len(),
            match r {
                Some(end) => {
                    &&& final(bytes)@.len() >= 2
                    &&& end == header_len(final(bytes)@)
                    &&& final(bytes)@.len() >= end
                    &&& old(bytes)@.len() <= end ==> final(bytes)@.len() == end
                    &&& old(bytes)@.len() >= end ==> final(bytes)@ == old(bytes)@
                },
                None => {
                    &&& final(data)@.len() == 0
                    &&& !frame_complete(final(bytes)@)
                },
            },
    {
        let ghost stream = bytes@ + data@;
        if !Self::fill_to(bytes, 2, data) {
            return None;
        }
        // the flags, the opcode and the provisional payload length are there

        let ghost two = bytes@;
        let till_end_of_extended_payload_len: usize = Self::get_length_till_end_of_payload(
            bytes,
        ).unwrap();
        let masked: bool = Self::is_masked(bytes).unwrap();
        if !Self::fill_to(bytes, till_end_of_extended_payload_len as u64, data) {
            proof {
                lemma_extends(two, bytes@, stream);
            }
            return None;
        }
        // the payload length is there

        let end_of_mask: usize = if masked {
            till_end_of_extended_payload_len + 4
        } else {
            till_end_of_extended_payload_len
        };
        let done: bool = Self::fill_to(bytes, end_of_mask as u64, data);
        proof {
            lemma_extends(two, bytes@, stream);
        }
        if !done {
            return None;
        }
        // the whole header is there; what follows is payload

        Some(end_of_mask)
    }

    /// The payload stage: takes from `data` what the payload still misses.
    /// Says whether the frame is complete.
    fn read_payload(bytes: &mut Vec<u8>, end_of_mask: usize, data: &mut &[u8]) -> (r: bool)
        requires
            old(bytes)@.len() >= 2,
            end_of_mask == header_len(old(bytes)@),
            end_of_mask <= old(bytes)@.len() <= frame_len(old(bytes)@),
        ensures
            final(bytes)@ + final(data)@ == old(bytes)@ + old(data)@,
            final(bytes)@.len() >= old(bytes)@.len(),
            r ==> final(bytes)@.len() == frame_len(old(bytes)@),
            !r ==> final(bytes)@.len() < frame_len(old(bytes)@) && final(data)@.len() == 0,
    {
        let declared: u64 = Self::payload_len(bytes).unwrap();
        let buffered_payload: u64 = (bytes.len() - end_of_mask) as u64;
        let missing: u64 = declared - buffered_payload;
        let ghost before = bytes@;
        let ghost rest = data@;
        let done: bool = Self::try_append_nbytes(bytes, missing, data);
        proof {
            if done {
                assert(before + rest.take(missing as int) + rest.skip(missing as int) =~= before
                    + rest);
            } else {
                assert(bytes@ + data@ =~= before + rest);
            }
        }
        done
    }

    /// Takes from the front of `data` the bytes that the frame under way still
    /// needs. Returns the frame once it is complete, its payload unmasked, and
    /// leaves the bytes behind its end in `data`. Until then returns `None`,
    /// with all of `data` taken into the buffer.
    pub fn append(&mut self, data: &mut &[u8]) -> (r: Option<Fragment>)
        ensures
            !frame_complete(old(self)@),
            !frame_complete(final(self)@),
            final(self)@ == parser_step(old(self)@, old(data)@).buffer,
            final(data)@ == old(data)@.skip(parser_step(old(self)@, old(data)@).consumed as int),
            match r {
                Some(frame) => parser_step(old(self)@, old(data)@).frame == Some(frame@),
                None => parser_step(old(self)@, old(data)@).frame is None,
            },
    {
        proof {
            use_type_invariant(&*self);
        }
        let ghost held = self.bytes@;
        let ghost offered = data@;
        let mut buffer: Vec<u8> = Vec::new();
        core::mem::swap(&mut self.bytes, &mut buffer);

        let end_of_mask: usize = match Self::read_header(&mut buffer, data) {
            None => {
                proof {
                    lemma_step_incomplete(held, offered, buffer@, data@);
                }
                self.bytes = buffer;
                return None;
            },
            Some(end) => end,
        };
        let ghost header = buffer@;
        proof {
            lemma_header_within(held, offered, header, data@);
        }
        if !Self::read_payload(&mut buffer, end_of_mask, data) {
            proof {
                lemma_extends(header, buffer@, held + offered);
                lemma_step_incomplete(held, offered, buffer@, data@);
            }
            self.bytes = buffer;
            return None;
        }
        proof {
            lemma_extends(header, buffer@, held + offered);
            lemma_step_complete(held, offered, buffer@, data@);
        }
        Some(Self::finish(buffer, end_of_mask))
    }
}

/// A buffer that was filled from `shorter` to `longer` within `stream` still
/// starts the same frame: the header fields read from either are the same.
proof fn lemma_extends(shorter: Seq<u8>, longer: Seq<u8>, stream: Seq<u8>)
    requires
        2 <= shorter.len() <= longer.len(),
        exists|rest: Seq<u8>| shorter + rest == stream,
        exists|rest: Seq<u8>| longer + rest == stream,
    ensures
        shorter == longer.take(shorter.len() as int),
        length_end(longer) == length_end(shorter),
        header_len(longer) == header_len(shorter),
        shorter.len() >= length_end(shorter) ==> frame_len(longer) == frame_len(shorter),
{
    let r1 = choose|rest: Seq<u8>| shorter + rest == stream;
    let r2 = choose|rest: Seq<u8>| longer + rest == stream;
    assert forall|i: int| 0 <= i < shorter.len() implies shorter[i] == longer[i] by {
        assert((shorter + r1)[i] == shorter[i]);
        assert((longer + r2)[i] == longer[i]);
    }
    assert(shorter =~= longer.take(shorter.len() as int));
    lemma_frame_prefix(longer, shorter.len() as int);
}

/// With the header read, the buffer does not reach past the end of the frame.
proof fn lemma_header_within(held: Seq<u8>, offered: Seq<u8>, buffer: Seq<u8>, rest: Seq<u8>)
    requires
        !frame_complete(held),
        buffer + rest == held + offered,
        buffer.len() >= held.len(),
        buffer.len() >= 2,
        buffer.len() >= header_len(buffer),
        held.len() <= header_len(buffer) ==> buffer.len() == header_len(buffer),
        held.len() >= header_len(buffer) ==> buffer == held,
    ensures
        buffer.len() <= frame_len(buffer),
{
}

/// No frame is emitted while the buffered and the offered bytes together are
/// no complete frame: all that was offered is buffered.
proof fn lemma_step_incomplete(held: Seq<u8>, offered: Seq<u8>, buffer: Seq<u8>, rest: Seq<u8>)
    requires
        buffer + rest == held + offered,
        rest.len() == 0,
        !frame_complete(buffer),
    ensures
        parser_step(held, offered).frame is None,
        parser_step(held, offered).buffer == buffer,
        rest == offered.skip(parser_step(held, offered).consumed as int),
{
    assert(buffer =~= held + offered);
    assert(rest =~= offered.skip(offered.len() as int));
}

/// The frame is emitted when the buffer has been filled up to its end: the
/// offered bytes behind that end are left over.
proof fn lemma_step_complete(held: Seq<u8>, offered: Seq<u8>, buffer: Seq<u8>, rest: Seq<u8>)
    requires
        !frame_complete(held),
        buffer + rest == held + offered,
        buffer.len() >= held.len(),
        buffer.len() >= 2,
        buffer.len() >= header_len(buffer),
        buffer.len() == frame_len(buffer),
    ensures
        frame_complete(buffer),
        parser_step(held, offered).frame == Some(decode_frame(buffer)),
        parser_step(held, offered).buffer == Seq::<u8>::empty(),
        rest == offered.skip(parser_step(held, offered).consumed as int),
{
    let stream = held + offered;
    lemma_parts(stream, buffer, rest);
    lemma_frame_prefix(stream, buffer.len() as int);
    lemma_decode_prefix(stream);
    assert(rest =~= offered.skip(buffer.len() - held.len()));
}

/// Two parts that make up `stream` are its front and its rest.
proof fn lemma_parts(stream: Seq<u8>, front: Seq<u8>, rest: Seq<u8>)
    requires
        front + rest == stream,
    ensures
        front == stream.take(front.len() as int),
        rest == stream.skip(front.len() as int),
{
    assert(front =~= stream.take(front.len() as int));
    assert(rest =~= stream.skip(front.len() as int));
}

/// The header fields of a frame are read from its first bytes alone: a prefix
/// that holds them says the same as the whole.
pub proof fn lemma_frame_prefix(s: Seq<u8>, n: int)
    requires
        2 <= n <= s.len(),
    ensures
        length_end(s.take(n)) == length_end(s),
        header_len(s.take(n)) == header_len(s),
        n >= length_end(s) ==> payload_len(s.take(n)) == payload_len(s),
        n >= length_end(s) ==> frame_len(s.take(n)) == frame_len(s),
        n >= header_len(s) ==> frame_mask_key(s.take(n)) == frame_mask_key(s),
        frame_complete(s.take(n)) ==> frame_complete(s),
        n >= frame_len(s) && n >= header_len(s) ==> frame_complete(s.take(n)),
{
    let t = s.take(n);
    assert(t[1] == s[1]);
    if n >= length_end(s) {
        assert(forall|i: int| 0 <= i < n ==> t[i] == s[i]);
    }
    if n >= header_len(s) && mask_bit(s[1]) {
        assert(t.subrange(length_end(t) as int, length_end(t) as int + 4) =~= s.subrange(
            length_end(s) as int,
            length_end(s) as int + 4,
        ));
    }
}

/// As long as the first `n` bytes of a stream are no complete frame, the
/// frame that starts the stream is longer than `n` bytes.
pub proof fn lemma_incomplete_prefix(s: Seq<u8>, n: int)
    requires
        0 <= n <= s.len(),
        !frame_complete(s.take(n)),
    ensures
        frame_complete(s) ==> n < frame_len(s),
{
    if n >= 2 {
        lemma_frame_prefix(s, n);
    }
}

/// A frame is decoded from its own bytes: what follows them in the stream
/// does not count.
pub proof fn lemma_decode_prefix(s: Seq<u8>)
    requires
        frame_complete(s),
    ensures
        frame_complete(s.take(frame_len(s) as int)),
        frame_len(s.take(frame_len(s) as int)) == frame_len(s),
        decode_frame(s.take(frame_len(s) as int)) == decode_frame(s),
{
    let n = frame_len(s) as int;
    let t = s.take(n);
    lemma_frame_prefix(s, n);
    assert(t[0] == s[0]);
    assert(t.subrange(header_len(t) as int, frame_len(t) as int) =~= s.subrange(
        header_len(s) as int,
        frame_len(s) as int,
    ));
}

/// Delivery in pieces changes nothing. Where the first piece completes no
/// frame, the second piece gives what both pieces give when delivered as one;
/// where the first piece completes a frame, bytes that follow it do not
/// change that frame.
pub proof fn lemma_split_delivery(buffer: Seq<u8>, a: Seq<u8>, b: Seq<u8>)
    requires
        !frame_complete(buffer),
    ensures
        parser_step(buffer, a).frame is None ==> {
            &&& parser_step(parser_step(buffer, a).buffer, b).frame == parser_step(
                buffer,
                a + b,
            ).frame
            &&& parser_step(parser_step(buffer, a).buffer, b).buffer == parser_step(
                buffer,
                a + b,
            ).buffer
            &&& a.len() + parser_step(parser_step(buffer, a).buffer, b).consumed == parser_step(
                buffer,
                a + b,
            ).consumed
        },
        parser_step(buffer, a).frame is Some ==> {
            &&& parser_step(buffer, a + b).frame == parser_step(buffer, a).frame
            &&& parser_step(buffer, a + b).buffer == parser_step(buffer, a).buffer
            &&& parser_step(buffer, a + b).consumed == parser_step(buffer, a).consumed
        },
{
    let first = buffer + a;
    let stream = buffer + (a + b);
    assert(first + b =~= stream);
    assert(first =~= stream.take(first.len() as int));
    assert(buffer =~= stream.take(buffer.len() as int));
    if frame_complete(first) {
        lemma_frame_prefix(stream, first.len() as int);
        lemma_decode_prefix(stream);
        lemma_decode_prefix(first);
        assert(first.take(frame_len(first) as int) =~= stream.take(frame_len(stream) as int));
    } else {
        lemma_incomplete_prefix(stream, first.len() as int);
    }
}

/// An encoded frame that is delivered in two pieces, split at any byte
/// boundary, comes out of the parser as it went into the encoder: nothing
/// after the first piece, and after the second the frame with the opcode,
/// the FIN flag and the payload that were encoded.
pub proof fn lemma_roundtrip_split(opcode: u8, payload: Seq<u8>, k: int)
    requires
        opcode < 16,
        payload.len() <= u64::MAX,
        0 <= k < encode_frame(opcode, payload).len(),
    ensures
        parser_step(Seq::empty(), encode_frame(opcode, payload).take(k)) == (ParserStep {
            frame: None,
            consumed: k as nat,
            buffer: encode_frame(opcode, payload).take(k),
        }),
        parser_step(
            encode_frame(opcode, payload).take(k),
            encode_frame(opcode, payload).skip(k),
        ) == (ParserStep {
            frame: Some(FragmentView { fin: true, opcode, mask_key: None, payload }),
            consumed: (encode_frame(opcode, payload).len() - k) as nat,
            buffer: Seq::empty(),
        }),
{
    let whole = encode_frame(opcode, payload);
    lemma_encode_decode(opcode, payload);
    assert(Seq::<u8>::empty() + whole.take(k) =~= whole.take(k));
    assert(whole.take(k) + whole.skip(k) =~= whole);
}

} // verus!
