//! Standard base64 with padding, as the handshake needs it.

use vstd::prelude::*;
use crate::text::{chars_of_ascii, string_from_ascii};

verus! {

/// The character that stands for a six-bit value in the standard alphabet:
/// `A`-`Z`, `a`-`z`, `0`-`9`, `+`, `/`.
pub open spec fn base64_char(block: u8) -> char {
    if block < 26 {
        (0x41 + block) as u8 as char
    } else if block < 52 {
        (0x61 + block - 26) as u8 as char
    } else if block < 62 {
        (0x30 + block - 52) as u8 as char
    } else if block == 62 {
        '+'
    } else {
        '/'
    }
}

/// The four characters for a group of three bytes: their 24 bits, six at a
/// time.
pub open spec fn base64_group(b0: u8, b1: u8, b2: u8) -> Seq<char> {
    seq![
        base64_char(b0 / 4),
        base64_char(((b0 % 4) * 16 + b1 / 16) as u8),
        base64_char(((b1 % 16) * 4 + b2 / 64) as u8),
        base64_char(b2 % 64),
    ]
}

/// The base64 text of `bytes`: four characters for every three bytes; a last
/// group of one or two bytes is filled up with zero bits and ends in `==` or
/// `=`.
pub open spec fn base64_encode(bytes: Seq<u8>) -> Seq<char>
    decreases bytes.len(),
{
    if bytes.len() == 0 {
        Seq::empty()
    } else if bytes.len() == 1 {
        base64_group(bytes[0], 0, 0).take(2) + seq!['=', '=']
    } else if bytes.len() == 2 {
        base64_group(bytes[0], bytes[1], 0).take(3) + seq!['=']
    } else {
        base64_group(bytes[0], bytes[1], bytes[2]) + base64_encode(bytes.skip(3))
    }
}

/// The character for a six-bit value.
pub fn base64_convert(block: u8) -> (r: char)
    requires
        block < 64,
    ensures
        r == base64_char(block),
        (r as u32) < 128,
{
    if block < 26 {
        return (0x41u8 + block) as char;
    }
    if block < 52 {
        return (0x61u8 + block - 26) as char;
    }
    if block < 62 {
        return (0x30u8 + block - 52) as char;
    }
    if block == 62 {
        return '+';
    }
    return '/';
}

/// Appends an ASCII character to text that is kept as bytes.
fn push_ascii(buffer: &mut Vec<u8>, c: char)
    requires
        (c as u32) < 128,
        forall|i: int| 0 <= i < old(buffer)@.len() ==> old(buffer)@[i] < 128,
    ensures
        forall|i: int| 0 <= i < final(buffer)@.len() ==> final(buffer)@[i] < 128,
        chars_of_ascii(final(buffer)@) == chars_of_ascii(old(buffer)@).push(c),
{
    let code: u32 = c as u32;
    let byte: u8 = code as u8;
    buffer.push(byte);
    proof {
        vstd::utf8::char_u32_cast(c, code);
        assert(byte as char == c);
        assert(chars_of_ascii(buffer@) =~= chars_of_ascii(old(buffer)@).push(c));
    }
}

/// The six-bit values of a group of three bytes, as the shifts and masks of
/// the encoder compute them.
proof fn lemma_sextets(byte0: u8, byte1: u8, byte2: u8)
    ensures
        (byte0 >> 2) & 0x3F == byte0 / 4,
        ((byte0 << 4) | (byte1 >> 4)) & 0x3F == ((byte0 % 4) * 16 + byte1 / 16) as u8,
        ((byte1 << 2) | (byte2 >> 6)) & 0x3F == ((byte1 % 16) * 4 + byte2 / 64) as u8,
        byte2 & 0x3F == byte2 % 64,
        (byte0 >> 2) & 0x3F < 64,
        ((byte0 << 4) | (byte1 >> 4)) & 0x3F < 64,
        ((byte1 << 2) | (byte2 >> 6)) & 0x3F < 64,
        byte2 & 0x3F < 64,
{
    assert((byte0 >> 2) & 0x3F == byte0 / 4) by (bit_vector);
    assert(((byte0 << 4) | (byte1 >> 4)) & 0x3F == ((byte0 % 4) * 16 + byte1 / 16) as u8)
        by (bit_vector);
    assert(((byte1 << 2) | (byte2 >> 6)) & 0x3F == ((byte1 % 16) * 4 + byte2 / 64) as u8)
        by (bit_vector);
    assert(byte2 & 0x3F == byte2 % 64) by (bit_vector);
    assert((byte0 >> 2) & 0x3F < 64) by (bit_vector);
    assert(((byte0 << 4) | (byte1 >> 4)) & 0x3F < 64) by (bit_vector);
    assert(((byte1 << 2) | (byte2 >> 6)) & 0x3F < 64) by (bit_vector);
    assert(byte2 & 0x3F < 64) by (bit_vector);
}

/// The base64 text of `bytes`, with padding. A 20-byte hash gives 28
/// characters.
pub fn hash_to_base64(bytes: &[u8]) -> (r: String)
    ensures
        r@ == base64_encode(bytes@),
        bytes@.len() == 20 ==> r@.len() == 28,
{
    let len: usize = bytes.len();
    let mut buffer: Vec<u8> = Vec::new();
    let mut i: usize = 0;
    assert(bytes@.skip(0) =~= bytes@);
    assert(chars_of_ascii(buffer@) =~= Seq::<char>::empty());
    while i < len
        invariant
            i <= len,
            len == bytes@.len(),
            forall|j: int| 0 <= j < buffer@.len() ==> buffer@[j] < 128,
            base64_encode(bytes@) == chars_of_ascii(buffer@) + base64_encode(bytes@.skip(i as int)),
        decreases len - i,
    {
        let ghost rest = bytes@.skip(i as int);
        let ghost done = chars_of_ascii(buffer@);
        if i + 1 >= len {
            // two padding characters
            let byte0: u8 = bytes[i];
            let byte1: u8 = 0;

            let b0: u8 = (byte0 >> 2) & 0x3F;
            let b1: u8 = ((byte0 << 4) | (byte1 >> 4)) & 0x3F;
            proof {
                lemma_sextets(byte0, byte1, 0);
            }

            push_ascii(&mut buffer, base64_convert(b0));
            push_ascii(&mut buffer, base64_convert(b1));
            push_ascii(&mut buffer, '=');
            push_ascii(&mut buffer, '=');
            proof {
                assert(rest.len() == 1 && rest[0] == byte0);
                assert(chars_of_ascii(buffer@) =~= done + base64_encode(rest));
                assert(bytes@.skip(len as int) =~= Seq::<u8>::empty());
            }
            i = len;
        } else if i + 2 >= len {
            let byte0: u8 = bytes[i];
            let byte1: u8 = bytes[i + 1];
            let byte2: u8 = 0;

            let b0: u8 = (byte0 >> 2) & 0x3F;
            let b1: u8 = ((byte0 << 4) | (byte1 >> 4)) & 0x3F;
            let b2: u8 = ((byte1 << 2) | (byte2 >> 6)) & 0x3F;
            proof {
                lemma_sextets(byte0, byte1, byte2);
            }

            push_ascii(&mut buffer, base64_convert(b0));
            push_ascii(&mut buffer, base64_convert(b1));
            push_ascii(&mut buffer, base64_convert(b2));
            push_ascii(&mut buffer, '=');
            proof {
                assert(rest.len() == 2 && rest[0] == byte0 && rest[1] == byte1);
                assert(chars_of_ascii(buffer@) =~= done + base64_encode(rest));
                assert(bytes@.skip(len as int) =~= Seq::<u8>::empty());
            }
            i = len;
        } else {
            let byte0: u8 = bytes[i];
            let byte1: u8 = bytes[i + 1];
            let byte2: u8 = bytes[i + 2];

            let b0: u8 = (byte0 >> 2) & 0x3F;
            let b1: u8 = ((byte0 << 4) | (byte1 >> 4)) & 0x3F;
            let b2: u8 = ((byte1 << 2) | (byte2 >> 6)) & 0x3F;
            let b3: u8 = byte2 & 0x3F;
            proof {
                lemma_sextets(byte0, byte1, byte2);
            }

            push_ascii(&mut buffer, base64_convert(b0));
            push_ascii(&mut buffer, base64_convert(b1));
            push_ascii(&mut buffer, base64_convert(b2));
            push_ascii(&mut buffer, base64_convert(b3));
            proof {
                assert(rest[0] == byte0 && rest[1] == byte1 && rest[2] == byte2);
                assert(rest.skip(3) =~= bytes@.skip(i + 3));
                assert(chars_of_ascii(buffer@) =~= done + base64_group(byte0, byte1, byte2));
                assert(base64_encode(rest) == base64_group(byte0, byte1, byte2) + base64_encode(
                    rest.skip(3),
                ));
                assert(done + base64_encode(rest) =~= chars_of_ascii(buffer@) + base64_encode(
                    bytes@.skip(i + 3),
                ));
            }
            i = i + 3;
        }
    }
    proof {
        assert(bytes@.skip(len as int) =~= Seq::<u8>::empty());
        assert(chars_of_ascii(buffer@) + Seq::<char>::empty() =~= chars_of_ascii(buffer@));
        lemma_base64_len(bytes@);
    }
    string_from_ascii(buffer.as_slice())
}

/// Every three bytes, or what is left of them, give four characters.
pub proof fn lemma_base64_len(bytes: Seq<u8>)
    ensures
        base64_encode(bytes).len() == 4 * ((bytes.len() + 2) / 3),
    decreases bytes.len(),
{
    if bytes.len() >= 3 {
        lemma_base64_len(bytes.skip(3));
    }
}

} // verus!
