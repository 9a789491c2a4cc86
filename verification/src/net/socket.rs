//! Frames on a byte stream.
//!
//! A frame is a length of eight bytes, a payload, and a checksum of eight
//! bytes. The length counts the payload and the checksum. Both numbers are
//! written with the lowest byte first.

use vstd::prelude::*;

verus! {

/// The number of bytes of a frame that hold its length.
pub const MSG_SIZE_BYTES: usize = 8;

/// The number of bytes of a frame that hold its checksum.
pub const CHECKSUM_BYTES: usize = 8;

/// The number of received bytes that a socket holds before they are read.
pub const BUFFER_SIZE: usize = 512;

/// The value of byte `i` of a number that is written with the lowest byte
/// first: `256` to the power of `i`, for the eight bytes of a number.
pub open spec fn weight(i: nat) -> nat {
    if i == 0 {
        0x1
    } else if i == 1 {
        0x100
    } else if i == 2 {
        0x1_0000
    } else if i == 3 {
        0x100_0000
    } else if i == 4 {
        0x1_0000_0000
    } else if i == 5 {
        0x100_0000_0000
    } else if i == 6 {
        0x1_0000_0000_0000
    } else {
        0x100_0000_0000_0000
    }
}

/// Byte `i` of `n`, the lowest byte being byte 0.
pub open spec fn le_byte(n: nat, i: nat) -> u8 {
    ((n / weight(i)) % 256) as u8
}

/// The eight bytes of `n`, the lowest first.
pub open spec fn le_bytes(n: nat) -> Seq<u8> {
    Seq::new(8, |i: int| le_byte(n, i as nat))
}

/// The number whose eight bytes, the lowest first, are the first eight
/// bytes of `bytes`.
pub open spec fn le_value(bytes: Seq<u8>) -> nat {
    (bytes[0] * weight(0) + bytes[1] * weight(1) + bytes[2] * weight(2) + bytes[3] * weight(3)
        + bytes[4] * weight(4) + bytes[5] * weight(5) + bytes[6] * weight(6) + bytes[7] * weight(
        7,
    )) as nat
}

/// Reading the eight bytes of a number gives the number.
pub proof fn lemma_le_value_of_bytes(n: nat)
    requires
        n <= u64::MAX,
    ensures
        le_value(le_bytes(n)) == n,
{
    let b = le_bytes(n);
    assert(b[0] == le_byte(n, 0));
    assert(b[1] == le_byte(n, 1));
    assert(b[2] == le_byte(n, 2));
    assert(b[3] == le_byte(n, 3));
    assert(b[4] == le_byte(n, 4));
    assert(b[5] == le_byte(n, 5));
    assert(b[6] == le_byte(n, 6));
    assert(b[7] == le_byte(n, 7));
    let v = n as u64;
    assert(v == (v / 0x1) % 256 * 0x1 + (v / 0x100) % 256 * 0x100 + (v / 0x1_0000) % 256 * 0x1_0000
        + (v / 0x100_0000) % 256 * 0x100_0000 + (v / 0x1_0000_0000) % 256 * 0x1_0000_0000 + (v
        / 0x100_0000_0000) % 256 * 0x100_0000_0000 + (v / 0x1_0000_0000_0000) % 256
        * 0x1_0000_0000_0000 + (v / 0x100_0000_0000_0000) % 256 * 0x100_0000_0000_0000)
        by (bit_vector);
}

/// Writing the number that eight bytes spell gives the eight bytes.
pub proof fn lemma_le_bytes_of_value(bytes: Seq<u8>)
    requires
        bytes.len() == 8,
    ensures
        le_value(bytes) <= u64::MAX,
        le_bytes(le_value(bytes)) == bytes,
{
    let b0 = bytes[0];
    let b1 = bytes[1];
    let b2 = bytes[2];
    let b3 = bytes[3];
    let b4 = bytes[4];
    let b5 = bytes[5];
    let b6 = bytes[6];
    let b7 = bytes[7];
    let v = le_value(bytes);
    assert(v <= u64::MAX);
    let n = v as u64;
    assert(n == b0 as u64 * 0x1 + b1 as u64 * 0x100 + b2 as u64 * 0x1_0000 + b3 as u64 * 0x100_0000
        + b4 as u64 * 0x1_0000_0000 + b5 as u64 * 0x100_0000_0000 + b6 as u64 * 0x1_0000_0000_0000
        + b7 as u64 * 0x100_0000_0000_0000);
    assert((n / 0x1) % 256 == b0 && (n / 0x100) % 256 == b1 && (n / 0x1_0000) % 256 == b2 && (n
        / 0x100_0000) % 256 == b3 && (n / 0x1_0000_0000) % 256 == b4 && (n / 0x100_0000_0000) % 256
        == b5 && (n / 0x1_0000_0000_0000) % 256 == b6 && (n / 0x100_0000_0000_0000) % 256 == b7)
        by (bit_vector)
        requires
            n == b0 as u64 * 0x1 + b1 as u64 * 0x100 + b2 as u64 * 0x1_0000 + b3 as u64
                * 0x100_0000 + b4 as u64 * 0x1_0000_0000 + b5 as u64 * 0x100_0000_0000 + b6 as u64
                * 0x1_0000_0000_0000 + b7 as u64 * 0x100_0000_0000_0000,
    ;
    assert(le_bytes(v) =~= bytes);
}

/// The eight bytes of `num`, the lowest first.
pub fn serialize_usize(num: usize) -> (r: Vec<u8>)
    ensures
        r@ == le_bytes(num as nat),
{
    serialize_u64(num as u64)
}

/// The eight bytes of `n`, the lowest first.
fn serialize_u64(n: u64) -> (r: Vec<u8>)
    ensures
        r@ == le_bytes(n as nat),
{
    let mut out: Vec<u8> = Vec::with_capacity(8);
    assert((n >> 0) & 0xff == (n / 0x1) % 256 && (n >> 8) & 0xff == (n / 0x100) % 256 && (n >> 16)
        & 0xff == (n / 0x1_0000) % 256 && (n >> 24) & 0xff == (n / 0x100_0000) % 256 && (n >> 32)
        & 0xff == (n / 0x1_0000_0000) % 256 && (n >> 40) & 0xff == (n / 0x100_0000_0000) % 256 && (n
        >> 48) & 0xff == (n / 0x1_0000_0000_0000) % 256 && (n >> 56) & 0xff == (n
        / 0x100_0000_0000_0000) % 256) by (bit_vector);
    out.push(((n >> 0) & 0xff) as u8);
    out.push(((n >> 8) & 0xff) as u8);
    out.push(((n >> 16) & 0xff) as u8);
    out.push(((n >> 24) & 0xff) as u8);
    out.push(((n >> 32) & 0xff) as u8);
    out.push(((n >> 40) & 0xff) as u8);
    out.push(((n >> 48) & 0xff) as u8);
    out.push(((n >> 56) & 0xff) as u8);
    assert(out@ =~= le_bytes(n as nat));
    out
}

/// The number that the first eight bytes of `vec` spell, the lowest byte
/// first, as far as a `usize` holds it.
pub fn deserialize_usize(vec: &[u8]) -> (r: usize)
    requires
        vec.len() >= 8,
    ensures
        r == le_value(vec@) % (usize::MAX as nat + 1),
{
    let value = deserialize_u64(vec);
    if usize::BITS == 64 {
        assert(usize::MAX as nat + 1 == 0x1_0000_0000_0000_0000);
        value as usize
    } else {
        assert(usize::MAX as nat + 1 == 0x1_0000_0000);
        (value % 0x1_0000_0000) as usize
    }
}

/// The number that the first eight bytes of `vec` spell.
fn deserialize_u64(vec: &[u8]) -> (r: u64)
    requires
        vec.len() >= 8,
    ensures
        r == le_value(vec@),
{
    let b0 = vec[0] as u64;
    let b1 = vec[1] as u64;
    let b2 = vec[2] as u64;
    let b3 = vec[3] as u64;
    let b4 = vec[4] as u64;
    let b5 = vec[5] as u64;
    let b6 = vec[6] as u64;
    let b7 = vec[7] as u64;
    let out = b0 | (b1 << 8) | (b2 << 16) | (b3 << 24) | (b4 << 32) | (b5 << 40) | (b6 << 48) | (b7
        << 56);
    assert(out == b0 * 0x1 + b1 * 0x100 + b2 * 0x1_0000 + b3 * 0x100_0000 + b4 * 0x1_0000_0000 + b5
        * 0x100_0000_0000 + b6 * 0x1_0000_0000_0000 + b7 * 0x100_0000_0000_0000) by (bit_vector)
        requires
            out == b0 | (b1 << 8) | (b2 << 16) | (b3 << 24) | (b4 << 32) | (b5 << 40) | (b6 << 48)
                | (b7 << 56),
            b0 < 256,
            b1 < 256,
            b2 < 256,
            b3 < 256,
            b4 < 256,
            b5 < 256,
            b6 < 256,
            b7 < 256,
    ;
    out
}

/// The sum of each byte of the message and its place in the message.
pub open spec fn byte_sum(message: Seq<u8>) -> nat
    decreases message.len(),
{
    if message.len() == 0 {
        0
    } else {
        byte_sum(message.drop_last()) + message.last() as nat + (message.len() - 1) as nat
    }
}

/// The checksum of a message: `byte_sum`, as far as eight bytes hold it.
pub open spec fn checksum_of(message: Seq<u8>) -> nat {
    byte_sum(message) % 0x1_0000_0000_0000_0000
}

/// The checksum of a message.
pub fn checksum(message: &[u8]) -> (r: u64)
    ensures
        r == checksum_of(message@),
{
    let mut sum: u64 = 0;
    let mut i: usize = 0;
    while i < message.len()
        invariant
            i <= message.len(),
            sum == checksum_of(message@.take(i as int)),
        decreases message.len() - i,
    {
        proof {
            assert(message@.take(i + 1).drop_last() =~= message@.take(i as int));
        }
        sum = sum.wrapping_add(message[i] as u64).wrapping_add(i as u64);
        i += 1;
    }
    proof {
        assert(message@.take(message.len() as int) =~= message@);
    }
    sum
}

/// The frame that carries `payload`.
pub open spec fn frame(payload: Seq<u8>) -> Seq<u8> {
    le_bytes(payload.len() + CHECKSUM_BYTES as nat) + payload + le_bytes(checksum_of(payload))
}

/// What the bytes that have arrived begin with.
pub enum Parsed {
    /// Less than a frame: the length is not there yet, or not as many bytes
    /// as it announces.
    Incomplete,
    /// A frame whose checksum is that of its payload, and the bytes behind
    /// the frame.
    Frame { payload: Seq<u8>, rest: Seq<u8> },
    /// A frame whose checksum is not that of its payload, and the bytes
    /// behind the frame.
    Corrupt { rest: Seq<u8> },
    /// A frame whose length leaves no room for a checksum, and the bytes
    /// behind the frame.
    Truncated { rest: Seq<u8> },
}

/// Reads one frame from the front of `bytes`.
#[verifier::opaque]
pub open spec fn parse(bytes: Seq<u8>) -> Parsed {
    if bytes.len() < MSG_SIZE_BYTES {
        Parsed::Incomplete
    } else {
        let total = le_value(bytes);
        if bytes.len() < MSG_SIZE_BYTES + total {
            Parsed::Incomplete
        } else {
            let rest = bytes.skip(MSG_SIZE_BYTES + total);
            if total < CHECKSUM_BYTES {
                Parsed::Truncated { rest }
            } else {
                let payload = bytes.subrange(
                    MSG_SIZE_BYTES as int,
                    MSG_SIZE_BYTES + total - CHECKSUM_BYTES,
                );
                let sum = le_value(bytes.skip(MSG_SIZE_BYTES + total - CHECKSUM_BYTES));
                if sum == checksum_of(payload) {
                    Parsed::Frame { payload, rest }
                } else {
                    Parsed::Corrupt { rest }
                }
            }
        }
    }
}

/// Reading a length, a payload of that length less eight, and eight bytes
/// that spell `sum`: a frame where `sum` is the checksum of the payload, and
/// a corrupt one where it is not.
proof fn lemma_parse_layout(payload: Seq<u8>, sum: nat, rest: Seq<u8>)
    requires
        payload.len() + CHECKSUM_BYTES <= u64::MAX,
        sum <= u64::MAX,
    ensures
        parse(le_bytes(payload.len() + CHECKSUM_BYTES as nat) + payload + le_bytes(sum) + rest)
            == if sum == checksum_of(payload) {
            Parsed::Frame { payload, rest }
        } else {
            Parsed::Corrupt { rest }
        },
{
    let total = payload.len() + CHECKSUM_BYTES as nat;
    let body = payload + le_bytes(sum);
    lemma_parse_complete(total, body, rest);
    assert(body.take(total - CHECKSUM_BYTES) =~= payload);
    assert(body.skip(total - CHECKSUM_BYTES) =~= le_bytes(sum));
    lemma_le_value_of_bytes(sum);
    assert(le_bytes(total) + payload + le_bytes(sum) + rest =~= le_bytes(total) + body + rest);
}

/// A frame that is read as it was written gives its payload, and leaves
/// what followed it on the stream.
pub proof fn lemma_read_of_written(payload: Seq<u8>, rest: Seq<u8>)
    requires
        payload.len() + CHECKSUM_BYTES <= u64::MAX,
    ensures
        parse(frame(payload) + rest) == (Parsed::Frame { payload, rest }),
{
    lemma_parse_layout(payload, checksum_of(payload), rest);
}

/// A frame of which one byte of the payload has changed on the way is read
/// as corrupt.
pub proof fn lemma_read_of_changed_payload(payload: Seq<u8>, at: int, byte: u8, rest: Seq<u8>)
    requires
        payload.len() + CHECKSUM_BYTES <= u64::MAX,
        0 <= at < payload.len(),
        byte != payload[at],
    ensures
        parse(
            le_bytes(payload.len() + CHECKSUM_BYTES as nat) + payload.update(at, byte) + le_bytes(
                checksum_of(payload),
            ) + rest,
        ) == (Parsed::Corrupt { rest }),
{
    lemma_byte_sum_of_update(payload, at, byte);
    lemma_parse_layout(payload.update(at, byte), checksum_of(payload), rest);
}

/// A frame of which one byte of the checksum has changed on the way is
/// read as corrupt.
pub proof fn lemma_read_of_changed_checksum(payload: Seq<u8>, at: int, byte: u8, rest: Seq<u8>)
    requires
        payload.len() + CHECKSUM_BYTES <= u64::MAX,
        0 <= at < CHECKSUM_BYTES,
        byte != le_bytes(checksum_of(payload))[at],
    ensures
        parse(
            le_bytes(payload.len() + CHECKSUM_BYTES as nat) + payload + le_bytes(
                checksum_of(payload),
            ).update(at, byte) + rest,
        ) == (Parsed::Corrupt { rest }),
{
    let changed = le_bytes(checksum_of(payload)).update(at, byte);
    lemma_le_bytes_of_value(changed);
    let sum = le_value(changed);
    assert(sum != checksum_of(payload)) by {
        if sum == checksum_of(payload) {
            assert(le_bytes(sum)[at] == changed[at]);
        }
    }
    lemma_parse_layout(payload, sum, rest);
}

/// No frame is read before its last byte has arrived.
pub proof fn lemma_read_of_part(payload: Seq<u8>, len: int)
    requires
        payload.len() + CHECKSUM_BYTES <= u64::MAX,
        0 <= len < frame(payload).len(),
    ensures
        parse(frame(payload).take(len)) == Parsed::Incomplete,
{
    reveal(parse);
    let total = payload.len() + CHECKSUM_BYTES as nat;
    let part = frame(payload).take(len);
    if len >= MSG_SIZE_BYTES {
        lemma_le_value_of_bytes(total);
        assert(part =~= le_bytes(total) + part.skip(MSG_SIZE_BYTES as int));
        lemma_le_value_of_prefix(le_bytes(total), part.skip(MSG_SIZE_BYTES as int));
    }
}

/// The number that bytes spell depends on the first eight of them only.
proof fn lemma_le_value_of_prefix(first: Seq<u8>, more: Seq<u8>)
    requires
        first.len() == 8,
    ensures
        le_value(first + more) == le_value(first),
{
    let all = first + more;
    assert(all[0] == first[0] && all[1] == first[1] && all[2] == first[2] && all[3] == first[3]
        && all[4] == first[4] && all[5] == first[5] && all[6] == first[6] && all[7] == first[7]);
}

/// Changing one byte of a message changes its sum by the difference of the
/// two bytes, and so its checksum.
proof fn lemma_byte_sum_of_update(message: Seq<u8>, at: int, byte: u8)
    requires
        0 <= at < message.len(),
    ensures
        byte_sum(message.update(at, byte)) == byte_sum(message) - message[at] + byte,
        byte != message[at] ==> checksum_of(message.update(at, byte)) != checksum_of(message),
    decreases message.len(),
{
    let changed = message.update(at, byte);
    if at == message.len() - 1 {
        assert(changed.drop_last() =~= message.drop_last());
    } else {
        assert(changed.drop_last() =~= message.drop_last().update(at, byte));
        lemma_byte_sum_of_update(message.drop_last(), at, byte);
    }
}

/// Why a frame was refused.
#[derive(Clone, Copy, Debug, PartialEq, Eq, Structural)]
pub enum FrameError {
    /// The checksum of the frame is not that of its payload.
    ChecksumFailed,
    /// The length of the frame leaves no room for a checksum.
    TooShort,
}

impl FrameError {
    /// What went wrong, in words.
    pub fn message(&self) -> (r: &'static str)
        ensures
            r@ == match self {
                FrameError::ChecksumFailed => "Checksum failed"@,
                FrameError::TooShort => "Frame too short"@,
            },
    {
        match self {
            FrameError::ChecksumFailed => "Checksum failed",
            FrameError::TooShort => "Frame too short",
        }
    }
}

/// Reading a length and as many bytes as it announces: what `parse` makes
/// of them is decided by the announced bytes alone.
proof fn lemma_parse_complete(total: nat, body: Seq<u8>, rest: Seq<u8>)
    requires
        total <= u64::MAX,
        body.len() == total,
    ensures
        parse(le_bytes(total) + body + rest) == if total < CHECKSUM_BYTES {
            Parsed::Truncated { rest }
        } else if le_value(body.skip(total - CHECKSUM_BYTES)) == checksum_of(
            body.take(total - CHECKSUM_BYTES),
        ) {
            Parsed::Frame { payload: body.take(total - CHECKSUM_BYTES), rest }
        } else {
            Parsed::Corrupt { rest }
        },
{
    reveal(parse);
    let bytes = le_bytes(total) + body + rest;
    assert(le_value(bytes) == total) by {
        lemma_le_value_of_bytes(total);
        lemma_le_value_of_prefix(le_bytes(total), body + rest);
        assert(bytes =~= le_bytes(total) + (body + rest));
    }
    assert(bytes.skip(MSG_SIZE_BYTES + total) =~= rest);
    if total >= CHECKSUM_BYTES {
        let tail = bytes.skip(MSG_SIZE_BYTES + total - CHECKSUM_BYTES);
        let sum_bytes = body.skip(total - CHECKSUM_BYTES);
        assert(le_value(tail) == le_value(sum_bytes)) by {
            assert(tail =~= sum_bytes + rest);
            lemma_le_value_of_prefix(sum_bytes, rest);
            lemma_le_value_of_prefix(sum_bytes, Seq::empty());
            assert(sum_bytes + Seq::<u8>::empty() =~= sum_bytes);
        }
        assert(bytes.subrange(MSG_SIZE_BYTES as int, MSG_SIZE_BYTES + total - CHECKSUM_BYTES)
            =~= body.take(total - CHECKSUM_BYTES));
    }
}

/// Fewer bytes than a length takes give no frame yet.
proof fn lemma_parse_short(bytes: Seq<u8>)
    requires
        bytes.len() < MSG_SIZE_BYTES,
    ensures
        parse(bytes) == Parsed::Incomplete,
{
    reveal(parse);
}

/// Reading a length and fewer bytes than it announces gives no frame yet.
proof fn lemma_parse_partial(total: nat, body: Seq<u8>)
    requires
        total <= u64::MAX,
        body.len() < total,
    ensures
        parse(le_bytes(total) + body) == Parsed::Incomplete,
{
    reveal(parse);
    lemma_le_value_of_bytes(total);
    lemma_le_value_of_prefix(le_bytes(total), body);
}

/// The bytes of `buffer` from `by` up to `len`, moved to the front.
fn shifted(buffer: [u8; BUFFER_SIZE], by: usize, len: usize) -> (r: [u8; BUFFER_SIZE])
    requires
        by <= len <= BUFFER_SIZE,
    ensures
        r@.take(len - by) == buffer@.subrange(by as int, len as int),
{
    let mut result = buffer;
    let mut j: usize = 0;
    while j < len - by
        invariant
            by <= len <= BUFFER_SIZE,
            j <= len - by,
            forall|k: int| 0 <= k < j ==> result[k] == buffer[k + by],
        decreases len - by - j,
    {
        result[j] = buffer[j + by];
        j += 1;
    }
    assert(result@.take(len - by) =~= buffer@.subrange(by as int, len as int));
    result
}

/// The frame that carries `message`.
pub fn encode(message: &[u8]) -> (r: Vec<u8>)
    requires
        message.len() + CHECKSUM_BYTES <= u64::MAX,
    ensures
        r@ == frame(message@),
{
    let mut out = serialize_u64(message.len() as u64 + CHECKSUM_BYTES as u64);
    let sum = checksum(message);
    out.extend_from_slice(message);
    let tail = serialize_u64(sum);
    out.extend_from_slice(tail.as_slice());
    assert(out@ =~= frame(message@));
    out
}

/// What has arrived on a connection and has not been read as a frame yet.
pub struct FrameReader {
    buffer: [u8; BUFFER_SIZE],
    len: usize,
    msg_size: Option<u64>,
    out: Vec<u8>,
}

impl FrameReader {
    /// The bytes that have arrived and are not part of a frame that `read`
    /// has returned.
    pub closed spec fn pending(&self) -> Seq<u8> {
        (match self.msg_size {
            Some(total) => le_bytes(total as nat) + self.out@,
            None => Seq::empty(),
        }) + self.buffer@.take(self.len as int)
    }

    /// How many bytes `receive` accepts at most.
    pub closed spec fn spec_free(&self) -> nat {
        (BUFFER_SIZE - self.len) as nat
    }

    #[verifier::type_invariant]
    spec fn well_formed(&self) -> bool {
        &&& self.len <= BUFFER_SIZE
        &&& self.msg_size matches Some(total) ==> self.out.len() < total
        &&& self.msg_size is None ==> self.out.len() == 0
    }

    pub fn new() -> (r: FrameReader)
        ensures
            r.pending() == Seq::<u8>::empty(),
            r.spec_free() == BUFFER_SIZE,
    {
        let r = FrameReader {
            buffer: [0;BUFFER_SIZE],
            len: 0,  // number of bytes at the start of the buffer that are valid
            msg_size: None,  // size of the frame that is being read
            out: Vec::new(),
        };
        assert(r.pending() =~= Seq::<u8>::empty());
        r
    }

    /// How many bytes `receive` accepts at most.
    pub fn free(&self) -> (r: usize)
        ensures
            r == self.spec_free(),
            r <= BUFFER_SIZE,
    {
        proof {
            use_type_invariant(self);
        }
        BUFFER_SIZE - self.len
    }

    /// Takes bytes that have arrived, as many of them as there is room for,
    /// and says how many it took.
    pub fn receive(&mut self, bytes: &[u8]) -> (taken: usize)
        ensures
            taken == if bytes.len() <= old(self).spec_free() {
                bytes.len() as nat
            } else {
                old(self).spec_free()
            },
            final(self).pending() == old(self).pending() + bytes@.take(taken as int),
            final(self).spec_free() == old(self).spec_free() - taken,
    {
        proof {
            use_type_invariant(&*self);
        }
        let free = BUFFER_SIZE - self.len;
        let taken = if bytes.len() <= free { bytes.len() } else { free };
        let ghost start = self.len;
        let mut j: usize = 0;
        while j < taken
            invariant
                taken <= bytes.len(),
                start + taken <= BUFFER_SIZE,
                j <= taken,
                self.len == start + j,
                self.msg_size == old(self).msg_size,
                self.out == old(self).out,
                self.buffer@.take(start as int) == old(self).buffer@.take(start as int),
                forall|k: int| 0 <= k < j ==> self.buffer[start + k] == bytes[k],
            decreases taken - j,
        {
            proof {
                use_type_invariant(&*self);
            }
            let ghost earlier = self.buffer@;
            self.buffer[self.len] = bytes[j];
            self.len += 1;
            assert(self.buffer@.take(start as int) =~= earlier.take(start as int));
            j += 1;
        }
        assert(self.buffer@.take(self.len as int) =~= old(self).buffer@.take(start as int)
            + bytes@.take(taken as int));
        assert(self.pending() =~= old(self).pending() + bytes@.take(taken as int));
        taken
    }

    /// Takes the next frame from the bytes that have arrived.
    ///
    /// `None` says that no whole frame has arrived yet; nothing is lost, and
    /// there is room for more bytes. Otherwise the frame is gone from the
    /// reader, whether it is returned or refused.
    pub fn read(&mut self) -> (r: Option<Result<Vec<u8>, FrameError>>)
        ensures
            match parse(old(self).pending()) {
                Parsed::Incomplete => {
                    &&& r is None
                    &&& final(self).pending() == old(self).pending()
                    &&& final(self).spec_free() > BUFFER_SIZE - MSG_SIZE_BYTES
                },
                Parsed::Frame { payload, rest } => {
                    &&& r matches Some(Ok(message)) && message@ == payload
                    &&& final(self).pending() == rest
                },
                Parsed::Corrupt { rest } => {
                    &&& r == Some(Err::<Vec<u8>, FrameError>(FrameError::ChecksumFailed))
                    &&& final(self).pending() == rest
                },
                Parsed::Truncated { rest } => {
                    &&& r == Some(Err::<Vec<u8>, FrameError>(FrameError::TooShort))
                    &&& final(self).pending() == rest
                },
            },
    {
        proof {
            use_type_invariant(&*self);
        }
        let ghost before = self.pending();
        let mut out: Vec<u8> = Vec::new();
        core::mem::swap(&mut out, &mut self.out);
        let mut buffer = self.buffer;
        let mut len = self.len;
        let mut msg_size = self.msg_size;

        if msg_size.is_none() && len >= MSG_SIZE_BYTES {
            let (total, shorter) = take_length(buffer, len);
            buffer = shorter;
            len -= MSG_SIZE_BYTES;
            msg_size = Some(total);
        }
        match msg_size {
            None => {
                assert(before =~= buffer@.take(len as int));
                proof {
                    lemma_parse_short(before);
                }
                *self = FrameReader { buffer, len, msg_size: None, out };
                assert(self.pending() =~= before);
                None
            },
            Some(total) => {
                assert(before =~= le_bytes(total as nat) + out@ + buffer@.take(len as int));
                let need = total - out.len() as u64;
                let max = if (len as u64) < need { len } else { need as usize };
                let ghost rest = buffer@.subrange(max as int, len as int);
                buffer = drain(buffer, len, &mut out, max);
                len -= max;
                assert(before =~= le_bytes(total as nat) + out@ + rest);
                if out.len() as u64 == total {
                    proof {
                        lemma_parse_complete(total as nat, out@, rest);
                    }
                    *self = FrameReader { buffer, len, msg_size: None, out: Vec::new() };
                    assert(self.pending() =~= rest);
                    Some(check_frame(out))
                } else {
                    proof {
                        assert(rest =~= Seq::<u8>::empty());
                        assert(before =~= le_bytes(total as nat) + out@);
                        lemma_parse_partial(total as nat, out@);
                    }
                    *self = FrameReader { buffer, len, msg_size: Some(total), out };
                    assert(self.pending() =~= before);
                    None
                }
            },
        }
    }
}

/// One end of a connection: what has arrived on it and has not been read as
/// a frame yet, and what is to go out on it and has not been sent yet.
///
/// The socket does no input or output itself. Its owner hands it the bytes
/// that arrive (`receive`) and asks it for the next frame (`read`); it gives
/// it the messages that are to go out (`write`), sends the bytes that wait
/// (`outgoing`) as far as the connection takes them, and says how many went
/// (`sent`). What the connection does not take at once is kept for the next
/// time.
pub struct NetSocket {
    pub id: u64,
    reader: FrameReader,
    outbox: Vec<u8>,
    flushed: usize,
}

impl NetSocket {
    /// The number that the owner gave the connection.
    pub closed spec fn spec_id(&self) -> u64 {
        self.id
    }

    /// The bytes that have arrived and are not part of a frame that `read`
    /// has returned.
    pub closed spec fn pending(&self) -> Seq<u8> {
        self.reader.pending()
    }

    /// How many bytes `receive` accepts at most.
    pub closed spec fn spec_free(&self) -> nat {
        self.reader.spec_free()
    }

    /// The bytes of the frames that have been written and have not been
    /// sent yet.
    pub closed spec fn unsent(&self) -> Seq<u8> {
        if self.flushed <= self.outbox.len() {
            self.outbox@.skip(self.flushed as int)
        } else {
            Seq::empty()
        }
    }

    pub fn new(id: u64) -> (r: NetSocket)
        ensures
            r.spec_id() == id,
            r.pending() == Seq::<u8>::empty(),
            r.unsent() == Seq::<u8>::empty(),
            r.spec_free() == BUFFER_SIZE,
    {
        let r = NetSocket { id, reader: FrameReader::new(), outbox: Vec::new(), flushed: 0 };
        assert(r.unsent() =~= Seq::<u8>::empty());
        r
    }

    pub fn id(&self) -> (r: u64)
        ensures
            r == self.spec_id(),
    {
        self.id
    }

    /// Puts the frame that carries `message` behind what waits to be sent.
    pub fn write(&mut self, message: &[u8])
        requires
            message.len() + CHECKSUM_BYTES <= u64::MAX,
        ensures
            final(self).spec_id() == old(self).spec_id(),
            final(self).pending() == old(self).pending(),
            final(self).spec_free() == old(self).spec_free(),
            final(self).unsent() == old(self).unsent() + frame(message@),
    {
        if self.flushed >= self.outbox.len() {
            self.outbox.clear();
            self.flushed = 0;
        }
        let ghost waiting = self.outbox@;
        let frame = encode(message);
        self.outbox.extend_from_slice(frame.as_slice());
        assert(self.outbox@ =~= waiting + frame@);
        assert(self.unsent() =~= old(self).unsent() + frame@);
    }

    /// The bytes that wait to be sent, the first first.
    pub fn outgoing(&self) -> (r: &[u8])
        ensures
            r@ == self.unsent(),
    {
        let len = self.outbox.len();
        let start = if self.flushed <= len { self.flushed } else { len };
        let r = vstd::slice::slice_subrange(self.outbox.as_slice(), start, len);
        assert(r@ =~= self.unsent());
        r
    }

    /// Takes note that the first `count` of the bytes that waited have been
    /// sent.
    pub fn sent(&mut self, count: usize)
        requires
            count <= old(self).unsent().len(),
        ensures
            final(self).spec_id() == old(self).spec_id(),
            final(self).pending() == old(self).pending(),
            final(self).spec_free() == old(self).spec_free(),
            final(self).unsent() == old(self).unsent().skip(count as int),
    {
        self.flushed = self.flushed + count;
        assert(self.unsent() =~= old(self).unsent().skip(count as int));
    }

    /// How many bytes `receive` accepts at most.
    pub fn free(&self) -> (r: usize)
        ensures
            r == self.spec_free(),
            r <= BUFFER_SIZE,
    {
        self.reader.free()
    }

    /// Takes bytes that have arrived, as many of them as there is room for,
    /// and says how many it took.
    pub fn receive(&mut self, bytes: &[u8]) -> (taken: usize)
        ensures
            final(self).spec_id() == old(self).spec_id(),
            final(self).unsent() == old(self).unsent(),
            taken == if bytes.len() <= old(self).spec_free() {
                bytes.len() as nat
            } else {
                old(self).spec_free()
            },
            final(self).pending() == old(self).pending() + bytes@.take(taken as int),
            final(self).spec_free() == old(self).spec_free() - taken,
    {
        self.reader.receive(bytes)
    }

    /// Takes the next frame from the bytes that have arrived.
    ///
    /// `None` says that no whole frame has arrived yet; nothing is lost, and
    /// there is room for more bytes. Otherwise the frame is gone from the
    /// socket, whether it is returned or refused.
    pub fn read(&mut self) -> (r: Option<Result<Vec<u8>, FrameError>>)
        ensures
            final(self).spec_id() == old(self).spec_id(),
            final(self).unsent() == old(self).unsent(),
            match parse(old(self).pending()) {
                Parsed::Incomplete => {
                    &&& r is None
                    &&& final(self).pending() == old(self).pending()
                    &&& final(self).spec_free() > BUFFER_SIZE - MSG_SIZE_BYTES
                },
                Parsed::Frame { payload, rest } => {
                    &&& r matches Some(Ok(message)) && message@ == payload
                    &&& final(self).pending() == rest
                },
                Parsed::Corrupt { rest } => {
                    &&& r == Some(Err::<Vec<u8>, FrameError>(FrameError::ChecksumFailed))
                    &&& final(self).pending() == rest
                },
                Parsed::Truncated { rest } => {
                    &&& r == Some(Err::<Vec<u8>, FrameError>(FrameError::TooShort))
                    &&& final(self).pending() == rest
                },
            },
    {
        self.reader.read()
    }
}

/// Takes the length of a frame from the front of the bytes that have
/// arrived, and moves the other bytes to the front.
fn take_length(buffer: [u8; BUFFER_SIZE], len: usize) -> (r: (u64, [u8; BUFFER_SIZE]))
    requires
        MSG_SIZE_BYTES <= len <= BUFFER_SIZE,
    ensures
        buffer@.take(len as int) == le_bytes(r.0 as nat) + r.1@.take(len - MSG_SIZE_BYTES),
{
    let total = deserialize_u64(buffer.as_slice());
    proof {
        let head = buffer@.take(MSG_SIZE_BYTES as int);
        assert(buffer@ =~= head + buffer@.skip(MSG_SIZE_BYTES as int));
        lemma_le_value_of_prefix(head, buffer@.skip(MSG_SIZE_BYTES as int));
        lemma_le_bytes_of_value(head);
        assert(buffer@.take(len as int) =~= head + buffer@.subrange(
            MSG_SIZE_BYTES as int,
            len as int,
        ));
    }
    (total, shifted(buffer, MSG_SIZE_BYTES, len))
}

/// Moves the first `max` of the bytes that have arrived to the end of `out`,
/// and the other bytes to the front.
fn drain(buffer: [u8; BUFFER_SIZE], len: usize, out: &mut Vec<u8>, max: usize) -> (r: [u8;
    BUFFER_SIZE])
    requires
        max <= len <= BUFFER_SIZE,
    ensures
        final(out)@ == old(out)@ + buffer@.take(max as int),
        r@.take(len - max) == buffer@.subrange(max as int, len as int),
{
    let mut j: usize = 0;
    while j < max
        invariant
            max <= len <= BUFFER_SIZE,
            j <= max,
            out@ == old(out)@ + buffer@.take(j as int),
        decreases max - j,
    {
        out.push(buffer[j]);
        assert(buffer@.take(j + 1) =~= buffer@.take(j as int).push(buffer[j as int]));
        j += 1;
    }
    shifted(buffer, max, len)
}

/// Parts the bytes that a length announced into payload and checksum, and
/// gives the payload where the checksum is its own.
fn check_frame(body: Vec<u8>) -> (r: Result<Vec<u8>, FrameError>)
    ensures
        body.len() < CHECKSUM_BYTES ==> r == Err::<Vec<u8>, FrameError>(FrameError::TooShort),
        body.len() >= CHECKSUM_BYTES ==> if le_value(body@.skip(body.len() - CHECKSUM_BYTES))
            == checksum_of(body@.take(body.len() - CHECKSUM_BYTES)) {
            r matches Ok(payload) && payload@ == body@.take(body.len() - CHECKSUM_BYTES)
        } else {
            r == Err::<Vec<u8>, FrameError>(FrameError::ChecksumFailed)
        },
{
    let mut out = body;
    if out.len() < CHECKSUM_BYTES {
        return Err(FrameError::TooShort);
    }
    let split = out.len() - CHECKSUM_BYTES;
    let sum = deserialize_u64(vstd::slice::slice_subrange(out.as_slice(), split, out.len()));
    proof {
        assert(out@.subrange(split as int, out.len() as int) =~= out@.skip(split as int));
    }
    out.truncate(split);
    if checksum(out.as_slice()) == sum {
        Ok(out)
    } else {
        Err(FrameError::ChecksumFailed)
    }
}

} // verus!
