//! The frame wire format: its mathematical description, the frame record and
//! the encoder for outgoing frames.

use vstd::prelude::*;

verus! {

/// Opcode of a continuation frame.
pub const OPCODE_CONTINUATION: u8 = 0x0;

/// Opcode of a text frame.
pub const OPCODE_TEXT: u8 = 0x1;

/// Opcode of a binary frame.
pub const OPCODE_BINARY: u8 = 0x2;

/// Opcode of a close frame.
pub const OPCODE_CLOSE: u8 = 0x8;

/// Opcode of a ping frame.
pub const OPCODE_PING: u8 = 0x9;

/// Opcode of a pong frame.
pub const OPCODE_PONG: u8 = 0xA;

/// The FIN flag: the top bit of the first header byte.
pub open spec fn fin_bit(b0: u8) -> bool {
    b0 & 0x80 != 0
}

/// The opcode: the low four bits of the first header byte.
pub open spec fn opcode_bits(b0: u8) -> u8 {
    b0 & 0x0F
}

/// The MASK flag: the top bit of the second header byte.
pub open spec fn mask_bit(b1: u8) -> bool {
    b1 & 0x80 != 0
}

/// The provisional payload length: the low seven bits of the second header byte.
pub open spec fn length_code(b1: u8) -> u8 {
    b1 & 0x7F
}

/// Number of extended length bytes that follow the two fixed header bytes.
pub open spec fn extended_length_size(code: u8) -> nat {
    if code == 126 {
        2
    } else if code == 127 {
        8
    } else {
        0
    }
}

/// The unsigned 16-bit big-endian number held in `s[at]` and `s[at + 1]`.
pub open spec fn be16(s: Seq<u8>, at: int) -> nat {
    (s[at] as nat) * 0x100 + (s[at + 1] as nat)
}

/// The unsigned 64-bit big-endian number held in `s[at] .. s[at + 8]`.
pub open spec fn be64(s: Seq<u8>, at: int) -> nat {
    (s[at] as nat) * 0x100_0000_0000_0000 + (s[at + 1] as nat) * 0x1_0000_0000_0000 + (s[at
        + 2] as nat) * 0x100_0000_0000 + (s[at + 3] as nat) * 0x1_0000_0000 + (s[at + 4] as nat)
        * 0x100_0000 + (s[at + 5] as nat) * 0x1_0000 + (s[at + 6] as nat) * 0x100 + (s[at
        + 7] as nat)
}

/// Offset of the first byte after the payload length field of the frame that
/// starts `s`. Only the first two bytes of `s` are read.
pub open spec fn length_end(s: Seq<u8>) -> nat {
    2 + extended_length_size(length_code(s[1]))
}

/// Offset of the first payload byte of the frame that starts `s`: the length
/// field is followed by the four bytes of the masking key when the MASK flag
/// is set. Only the first two bytes of `s` are read.
pub open spec fn header_len(s: Seq<u8>) -> nat {
    length_end(s) + if mask_bit(s[1]) {
        4nat
    } else {
        0nat
    }
}

/// Payload length declared by the header of the frame that starts `s`. The
/// bytes up to `length_end(s)` are read.
pub open spec fn payload_len(s: Seq<u8>) -> nat {
    let code = length_code(s[1]);
    if code == 126 {
        be16(s, 2)
    } else if code == 127 {
        be64(s, 2)
    } else {
        code as nat
    }
}

/// Total length, header and payload, of the frame that starts `s`.
pub open spec fn frame_len(s: Seq<u8>) -> nat {
    header_len(s) + payload_len(s)
}

/// `s` holds all the bytes of the frame that it starts.
pub open spec fn frame_complete(s: Seq<u8>) -> bool {
    &&& s.len() >= 2
    &&& s.len() >= header_len(s)
    &&& s.len() >= frame_len(s)
}

/// `data` with byte `i` XORed with `key[i mod 4]`.
pub open spec fn xor_mask(data: Seq<u8>, key: Seq<u8>) -> Seq<u8> {
    Seq::new(data.len(), |i: int| data[i] ^ key[i % 4])
}

/// The masking key of the frame that starts `s`, if the MASK flag is set.
pub open spec fn frame_mask_key(s: Seq<u8>) -> Option<Seq<u8>> {
    if mask_bit(s[1]) {
        Some(s.subrange(length_end(s) as int, length_end(s) as int + 4))
    } else {
        None
    }
}

/// The payload of the frame that starts `s`, unmasked where the frame is masked.
pub open spec fn frame_payload(s: Seq<u8>) -> Seq<u8> {
    let raw = s.subrange(header_len(s) as int, frame_len(s) as int);
    match frame_mask_key(s) {
        Some(key) => xor_mask(raw, key),
        None => raw,
    }
}

/// Mathematical content of a frame.
pub struct FragmentView {
    pub fin: bool,
    pub opcode: u8,
    pub mask_key: Option<Seq<u8>>,
    pub payload: Seq<u8>,
}

/// The frame that the bytes of `s` start with.
pub open spec fn decode_frame(s: Seq<u8>) -> FragmentView {
    FragmentView {
        fin: fin_bit(s[0]),
        opcode: opcode_bits(s[0]),
        mask_key: frame_mask_key(s),
        payload: frame_payload(s),
    }
}

/// One frame of the wire format. The payload is stored unmasked; `mask_key`
/// keeps the key that the sender used, if the frame was masked.
#[derive(Debug, Clone)]
pub struct Fragment {
    pub fin: bool,
    pub opcode: u8,
    pub mask_key: Option<[u8; 4]>,
    pub payload: Vec<u8>,
}

impl View for Fragment {
    type V = FragmentView;

    open spec fn view(&self) -> FragmentView {
        FragmentView {
            fin: self.fin,
            opcode: self.opcode,
            mask_key: match self.mask_key {
                Some(key) => Some(key@),
                None => None,
            },
            payload: self.payload@,
        }
    }
}

impl Fragment {
    /// The payload bytes.
    pub fn payload(&self) -> (r: &[u8])
        ensures
            r@ == self@.payload,
    {
        self.payload.as_slice()
    }

    /// Whether this frame ends its message.
    pub fn is_fin(&self) -> (r: bool)
        ensures
            r == self@.fin,
    {
        self.fin
    }

    /// The frame type.
    pub fn opcode(&self) -> (r: u8)
        ensures
            r == self@.opcode,
    {
        self.opcode
    }

    /// Whether the sender masked the payload.
    pub fn is_masked(&self) -> (r: bool)
        ensures
            r == (self@.mask_key is Some),
    {
        self.mask_key.is_some()
    }

    /// Whether this is a control frame: close, ping, pong or a reserved
    /// control opcode.
    pub fn is_control_frame(&self) -> (r: bool)
        ensures
            r == (self@.opcode >= 8),
    {
        let op: u8 = self.opcode;
        assert((op >> 3 != 0) == (op >= 8)) by (bit_vector);
        (op >> 3) != 0
    }
}

/// XORs byte `i` of `data` with `key[i mod 4]`, in place. Applying the same key
/// twice gives the data back, so this both masks and unmasks.
pub fn apply_mask(data: &mut Vec<u8>, key: [u8; 4])
    ensures
        final(data)@ == xor_mask(old(data)@, key@),
{
    let n: usize = data.len();
    let mut i: usize = 0;
    while i < n
        invariant
            i <= n,
            data@.len() == n,
            old(data)@.len() == n,
            forall|j: int| 0 <= j < i ==> data@[j] == old(data)@[j] ^ key@[j % 4],
            forall|j: int| i <= j < n ==> data@[j] == old(data)@[j],
        decreases n - i,
    {
        let b: u8 = data[i];
        data[i] = b ^ key[i % 4];
        i += 1;
    }
    assert(data@ =~= xor_mask(old(data)@, key@));
}

/// The payload length field of an outgoing frame: the length itself below
/// 126, else 126 and two big-endian bytes up to 0xFFFF, else 127 and eight
/// big-endian bytes.
pub open spec fn length_field(len: nat) -> Seq<u8> {
    if len < 126 {
        seq![len as u8]
    } else if len <= 0xFFFF {
        seq![126u8, (len / 0x100) as u8, (len % 0x100) as u8]
    } else {
        seq![
            127u8,
            (len / 0x100_0000_0000_0000 % 0x100) as u8,
            (len / 0x1_0000_0000_0000 % 0x100) as u8,
            (len / 0x100_0000_0000 % 0x100) as u8,
            (len / 0x1_0000_0000 % 0x100) as u8,
            (len / 0x100_0000 % 0x100) as u8,
            (len / 0x1_0000 % 0x100) as u8,
            (len / 0x100 % 0x100) as u8,
            (len % 0x100) as u8,
        ]
    }
}

/// The header of an outgoing frame: FIN set, the low four bits of `opcode`,
/// no mask, and the length field for a payload of `len` bytes.
pub open spec fn frame_header(opcode: u8, len: nat) -> Seq<u8> {
    seq![0x80u8 | (opcode & 0x0F)] + length_field(len)
}

/// The bytes of the single unfragmented, unmasked frame that carries `payload`.
pub open spec fn encode_frame(opcode: u8, payload: Seq<u8>) -> Seq<u8> {
    frame_header(opcode, payload.len()) + payload
}

/// Unmasking what was masked with the same key gives the data back, for every
/// byte sequence and every four-byte key.
pub proof fn lemma_mask_involution(data: Seq<u8>, key: Seq<u8>)
    requires
        key.len() == 4,
    ensures
        xor_mask(xor_mask(data, key), key) == data,
{
    assert forall|i: int| 0 <= i < data.len() implies xor_mask(xor_mask(data, key), key)[i]
        == data[i] by {
        let d: u8 = data[i];
        let k: u8 = key[i % 4];
        assert((d ^ k) ^ k == d) by (bit_vector);
    }
    assert(xor_mask(xor_mask(data, key), key) =~= data);
}

/// The sixteen-bit big-endian digits of a number give the number back.
proof fn lemma_be16_digits(n: nat)
    requires
        n <= 0xFFFF,
    ensures
        n / 0x100 < 0x100,
        (n / 0x100) * 0x100 + n % 0x100 == n,
{
}

/// The eight big-endian digits of a 64-bit number give the number back.
proof fn lemma_be64_digits(n: nat)
    requires
        n <= u64::MAX,
    ensures
        (n / 0x100_0000_0000_0000 % 0x100) * 0x100_0000_0000_0000 + (n / 0x1_0000_0000_0000
            % 0x100) * 0x1_0000_0000_0000 + (n / 0x100_0000_0000 % 0x100) * 0x100_0000_0000 + (n
            / 0x1_0000_0000 % 0x100) * 0x1_0000_0000 + (n / 0x100_0000 % 0x100) * 0x100_0000 + (n
            / 0x1_0000 % 0x100) * 0x1_0000 + (n / 0x100 % 0x100) * 0x100 + n % 0x100 == n,
{
    let v: u64 = n as u64;
    assert((v / 0x100_0000_0000_0000 % 0x100) * 0x100_0000_0000_0000 + (v / 0x1_0000_0000_0000
        % 0x100) * 0x1_0000_0000_0000 + (v / 0x100_0000_0000 % 0x100) * 0x100_0000_0000 + (v
        / 0x1_0000_0000 % 0x100) * 0x1_0000_0000 + (v / 0x100_0000 % 0x100) * 0x100_0000 + (v
        / 0x1_0000 % 0x100) * 0x1_0000 + (v / 0x100 % 0x100) * 0x100 + v % 0x100 == v)
        by (bit_vector);
}

/// What the header of an outgoing frame says when it is read back: FIN set,
/// the opcode, no mask, and the payload length.
proof fn lemma_header_decodes(opcode: u8, len: nat, s: Seq<u8>)
    requires
        opcode < 16,
        len <= u64::MAX,
        s.len() >= frame_header(opcode, len).len(),
        s.subrange(0, frame_header(opcode, len).len() as int) == frame_header(opcode, len),
    ensures
        frame_header(opcode, len).len() >= 2,
        fin_bit(s[0]),
        opcode_bits(s[0]) == opcode,
        !mask_bit(s[1]),
        length_end(s) == frame_header(opcode, len).len(),
        header_len(s) == frame_header(opcode, len).len(),
        payload_len(s) == len,
{
    let h = frame_header(opcode, len);
    let f = length_field(len);
    assert(h.len() == 1 + f.len());
    assert forall|i: int| 0 <= i < h.len() implies s[i] == h[i] by {
        assert(s.subrange(0, h.len() as int)[i] == s[i]);
    }
    let b0: u8 = s[0];
    assert(b0 == 0x80u8 | (opcode & 0x0F));
    assert(b0 & 0x80 != 0 && b0 & 0x0F == opcode) by (bit_vector)
        requires
            b0 == 0x80u8 | (opcode & 0x0F),
            opcode < 16,
    ;
    let b1: u8 = s[1];
    assert(b1 == f[0]);
    if len < 126 {
        assert(b1 == len as u8);
        assert(b1 & 0x80 == 0 && b1 & 0x7F == b1) by (bit_vector)
            requires
                b1 < 126,
        ;
    } else if len <= 0xFFFF {
        assert(b1 == 126);
        assert(126u8 & 0x80 == 0 && 126u8 & 0x7F == 126) by (bit_vector);
        lemma_be16_digits(len);
        assert(s[2] == f[1] && s[3] == f[2]);
    } else {
        assert(b1 == 127);
        assert(127u8 & 0x80 == 0 && 127u8 & 0x7F == 127) by (bit_vector);
        lemma_be64_digits(len);
        assert(s[2] == f[1] && s[3] == f[2] && s[4] == f[3] && s[5] == f[4]);
        assert(s[6] == f[5] && s[7] == f[6] && s[8] == f[7] && s[9] == f[8]);
    }
}

/// Decoding an encoded frame gives back the opcode, the FIN flag and the
/// payload: the encoding is exactly one complete frame, and none of its
/// proper prefixes is.
pub proof fn lemma_encode_decode(opcode: u8, payload: Seq<u8>)
    requires
        opcode < 16,
        payload.len() <= u64::MAX,
    ensures
        frame_complete(encode_frame(opcode, payload)),
        frame_len(encode_frame(opcode, payload)) == encode_frame(opcode, payload).len(),
        decode_frame(encode_frame(opcode, payload)) == (FragmentView {
            fin: true,
            opcode,
            mask_key: None,
            payload,
        }),
        forall|k: int|
            0 <= k < encode_frame(opcode, payload).len() ==> !frame_complete(
                #[trigger] encode_frame(opcode, payload).take(k),
            ),
{
    let len = payload.len();
    let h = frame_header(opcode, len);
    let s = encode_frame(opcode, payload);
    assert(s.subrange(0, h.len() as int) =~= h);
    lemma_header_decodes(opcode, len, s);
    assert(s.subrange(h.len() as int, s.len() as int) =~= payload);
    assert forall|k: int| 0 <= k < s.len() implies !frame_complete(#[trigger] s.take(k)) by {
        let t = s.take(k);
        if k >= h.len() {
            assert(t.subrange(0, h.len() as int) =~= h);
            lemma_header_decodes(opcode, len, t);
        } else if k >= 2 {
            assert(t[1] == s[1]);
        }
    }
}

} // verus!
