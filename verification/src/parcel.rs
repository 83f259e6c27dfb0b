//! Binary frame codec.
//!
//! A frame is two 0x55 header bytes, a two-byte topic, a two-byte payload
//! size, the payload, and one checksum byte (the XOR of the payload bytes,
//! seeded with 0xFF).  Topic and size honor the parcel's byte order.  The
//! transmit side is a phased buffer builder; the receive side hunts for a
//! well-formed frame in a byte stream, dropping leading junk.

use vstd::prelude::*;

use std::collections::VecDeque;

verus! {

/// Byte order of multi-byte fields.
#[derive(Clone, Copy, Debug, PartialEq, Eq, Structural)]
pub enum Endian {
    BigEndian,
    LittleEndian,
}

/// Failures when decoding payload fields.
#[derive(Clone, Copy, Debug, PartialEq, Eq, Structural)]
pub enum ParcelErrorType {
    OutOfBounds,
    InvalidData,
}

/// Build phase of the transmit buffer.
#[derive(Clone, Copy, Debug, PartialEq, Eq, Structural)]
pub enum ParcelTxPhase {
    Init,
    HeaderWritten,
    TopicWritten,
    Finalized,
}

/// Little-endian bytes of a 16-bit value.
pub open spec fn u16_le_bytes(v: u16) -> Seq<u8> {
    seq![(v % 0x100) as u8, ((v / 0x100) % 0x100) as u8]
}

/// Big-endian bytes of a 16-bit value.
pub open spec fn u16_be_bytes(v: u16) -> Seq<u8> {
    u16_le_bytes(v).reverse()
}

pub open spec fn u32_le_bytes(v: u32) -> Seq<u8> {
    seq![
        (v % 0x100) as u8,
        ((v / 0x100) % 0x100) as u8,
        ((v / 0x10000) % 0x100) as u8,
        ((v / 0x1000000) % 0x100) as u8,
    ]
}

pub open spec fn u32_be_bytes(v: u32) -> Seq<u8> {
    u32_le_bytes(v).reverse()
}

pub open spec fn u64_le_bytes(v: u64) -> Seq<u8> {
    seq![
        (v % 0x100) as u8,
        ((v / 0x100) % 0x100) as u8,
        ((v / 0x10000) % 0x100) as u8,
        ((v / 0x1000000) % 0x100) as u8,
        ((v / 0x100000000) % 0x100) as u8,
        ((v / 0x10000000000) % 0x100) as u8,
        ((v / 0x1000000000000) % 0x100) as u8,
        ((v / 0x100000000000000) % 0x100) as u8,
    ]
}

pub open spec fn u64_be_bytes(v: u64) -> Seq<u8> {
    u64_le_bytes(v).reverse()
}

/// The bytes of a 16-bit value in the given byte order.
pub open spec fn u16_bytes(e: Endian, v: u16) -> Seq<u8> {
    if e == Endian::BigEndian {
        u16_be_bytes(v)
    } else {
        u16_le_bytes(v)
    }
}

pub open spec fn u32_bytes(e: Endian, v: u32) -> Seq<u8> {
    if e == Endian::BigEndian {
        u32_be_bytes(v)
    } else {
        u32_le_bytes(v)
    }
}

pub open spec fn u64_bytes(e: Endian, v: u64) -> Seq<u8> {
    if e == Endian::BigEndian {
        u64_be_bytes(v)
    } else {
        u64_le_bytes(v)
    }
}

/// The unsigned bit pattern of a signed 16-bit value.
pub open spec fn i16_pattern(v: i16) -> u16 {
    if v >= 0 {
        v as u16
    } else {
        (v + 0x10000) as u16
    }
}

pub open spec fn i32_pattern(v: i32) -> u32 {
    if v >= 0 {
        v as u32
    } else {
        (v + 0x100000000) as u32
    }
}

pub open spec fn i64_pattern(v: i64) -> u64 {
    if v >= 0 {
        v as u64
    } else {
        (v + 0x10000000000000000) as u64
    }
}

pub open spec fn i8_pattern(v: i8) -> u8 {
    if v >= 0 {
        v as u8
    } else {
        (v + 0x100) as u8
    }
}

/// The 16-bit value read from two bytes in the given byte order.
pub open spec fn u16_value(e: Endian, s: Seq<u8>) -> int {
    if e == Endian::BigEndian {
        s[0] * 0x100 + s[1]
    } else {
        s[1] * 0x100 + s[0]
    }
}

pub open spec fn u32_value(e: Endian, s: Seq<u8>) -> int {
    if e == Endian::BigEndian {
        u16_value(e, s.subrange(0, 2)) * 0x10000 + u16_value(e, s.subrange(2, 4))
    } else {
        u16_value(e, s.subrange(2, 4)) * 0x10000 + u16_value(e, s.subrange(0, 2))
    }
}

pub open spec fn u64_value(e: Endian, s: Seq<u8>) -> int {
    if e == Endian::BigEndian {
        u32_value(e, s.subrange(0, 4)) * 0x100000000 + u32_value(e, s.subrange(4, 8))
    } else {
        u32_value(e, s.subrange(4, 8)) * 0x100000000 + u32_value(e, s.subrange(0, 4))
    }
}

/// A signed value from its unsigned pattern.
pub open spec fn signed16(u: int) -> int {
    if u < 0x8000 {
        u
    } else {
        u - 0x10000
    }
}

pub open spec fn signed32(u: int) -> int {
    if u < 0x80000000 {
        u
    } else {
        u - 0x100000000
    }
}

pub open spec fn signed64(u: int) -> int {
    if u < 0x8000000000000000 {
        u
    } else {
        u - 0x10000000000000000
    }
}

pub open spec fn signed8(u: int) -> int {
    if u < 0x80 {
        u
    } else {
        u - 0x100
    }
}

/// Round trip, stated as a law: reading back the bytes a 16-bit value was
/// written as, in the same byte order, recovers the value.
pub proof fn lemma_u16_round_trip(e: Endian, v: u16)
    ensures
        u16_value(e, u16_bytes(e, v)) == v,
{
    assert(u16_be_bytes(v) =~= seq![((v / 0x100) % 0x100) as u8, (v % 0x100) as u8]);
    assert((v / 0x100) % 0x100 == v / 0x100) by (nonlinear_arith);
    assert(v == 0x100 * (v / 0x100) + v % 0x100) by (nonlinear_arith);
}

/// XOR checksum of a byte sequence, seeded with 0xFF.
pub open spec fn xor_checksum(s: Seq<u8>) -> u8
    decreases s.len(),
{
    if s.len() == 0 {
        0xFF
    } else {
        xor_checksum(s.drop_last()) ^ s.last()
    }
}

/// The buffer starts with a complete well-formed frame.
pub open spec fn frame_at(buf: Seq<u8>, e: Endian) -> bool {
    &&& buf.len() >= 7
    &&& buf[0] == 0x55u8
    &&& buf[1] == 0x55u8
    &&& {
        let ps = u16_value(e, buf.subrange(4, 6));
        &&& buf.len() >= 7 + ps
        &&& buf[6 + ps] == xor_checksum(buf.subrange(6, 6 + ps))
    }
}

/// Length of the frame at the buffer's head.
pub open spec fn frame_len(buf: Seq<u8>, e: Endian) -> int {
    7 + u16_value(e, buf.subrange(4, 6))
}

/// Topic of the frame at the buffer's head.
pub open spec fn frame_topic(buf: Seq<u8>, e: Endian) -> int {
    u16_value(e, buf.subrange(2, 4))
}

/// Payload of the frame at the buffer's head.
pub open spec fn frame_payload(buf: Seq<u8>, e: Endian) -> Seq<u8> {
    buf.subrange(6, 6 + u16_value(e, buf.subrange(4, 6)))
}

/// A phased builder and scanner for binary frames.
pub struct Parcel {
    tx_buffer: Vec<u8>,
    rx_buffer: VecDeque<u8>,
    parcel_endian: Endian,
    tx_buffer_phase: ParcelTxPhase,
}

impl Parcel {
    pub closed spec fn spec_tx_buffer(&self) -> Seq<u8> {
        self.tx_buffer@
    }

    pub closed spec fn spec_rx_buffer(&self) -> Seq<u8> {
        self.rx_buffer@
    }

    pub closed spec fn spec_endian(&self) -> Endian {
        self.parcel_endian
    }

    pub closed spec fn spec_phase(&self) -> ParcelTxPhase {
        self.tx_buffer_phase
    }

    /// A parcel for the given byte order, with empty buffers.
    pub fn new(parcel_endian: Endian) -> (r: Self)
        ensures
            r.spec_endian() == parcel_endian,
            r.spec_phase() == ParcelTxPhase::Init,
            r.spec_tx_buffer() == Seq::<u8>::empty(),
            r.spec_rx_buffer() == Seq::<u8>::empty(),
    {
        Parcel {
            tx_buffer: Vec::new(),
            rx_buffer: VecDeque::new(),
            parcel_endian,
            tx_buffer_phase: ParcelTxPhase::Init,
        }
    }

    /// Current build phase of the transmit buffer.
    pub fn tx_phase(&self) -> (r: ParcelTxPhase)
        ensures
            r == self.spec_phase(),
    {
        self.tx_buffer_phase
    }

    /// Empty the transmit buffer and restart its phases.
    pub fn tx_clear(&mut self)
        ensures
            final(self).spec_phase() == ParcelTxPhase::Init,
            final(self).spec_tx_buffer() == Seq::<u8>::empty(),
            final(self).spec_rx_buffer() == old(self).spec_rx_buffer(),
            final(self).spec_endian() == old(self).spec_endian(),
    {
        self.tx_buffer_phase = ParcelTxPhase::Init;
        self.tx_buffer.clear();
    }

    /// Write the two header bytes.
    pub fn tx_write_header(&mut self)
        requires
            old(self).spec_phase() == ParcelTxPhase::Init,
        ensures
            final(self).spec_phase() == ParcelTxPhase::HeaderWritten,
            final(self).spec_tx_buffer() == old(self).spec_tx_buffer() + seq![0x55u8, 0x55u8],
            final(self).spec_rx_buffer() == old(self).spec_rx_buffer(),
            final(self).spec_endian() == old(self).spec_endian(),
    {
        self.tx_buffer.push(0x55);
        self.tx_buffer.push(0x55);
        self.tx_buffer_phase = ParcelTxPhase::HeaderWritten;
        proof {
            assert(self.spec_tx_buffer() =~= old(self).spec_tx_buffer() + seq![0x55u8, 0x55u8]);
        }
    }

    /// Write the topic and a two-byte placeholder for the payload size.
    pub fn tx_write_topic(&mut self, topic: u16)
        requires
            old(self).spec_phase() == ParcelTxPhase::HeaderWritten,
        ensures
            final(self).spec_phase() == ParcelTxPhase::TopicWritten,
            final(self).spec_tx_buffer() == old(self).spec_tx_buffer() + u16_bytes(
                old(self).spec_endian(),
                topic,
            ) + seq![0x00u8, 0x00u8],
            final(self).spec_rx_buffer() == old(self).spec_rx_buffer(),
            final(self).spec_endian() == old(self).spec_endian(),
    {
        self.push_u16(topic);
        self.tx_buffer.push(0x00);
        self.tx_buffer.push(0x00);
        self.tx_buffer_phase = ParcelTxPhase::TopicWritten;
        proof {
            assert(self.spec_tx_buffer() =~= old(self).spec_tx_buffer() + u16_bytes(
                old(self).spec_endian(),
                topic,
            ) + seq![0x00u8, 0x00u8]);
        }
    }

    /// Append a 16-bit value in the parcel's byte order.
    fn push_u16(&mut self, value: u16)
        ensures
            final(self).spec_tx_buffer() == old(self).spec_tx_buffer() + u16_bytes(
                old(self).spec_endian(),
                value,
            ),
            final(self).spec_rx_buffer() == old(self).spec_rx_buffer(),
            final(self).spec_endian() == old(self).spec_endian(),
            final(self).spec_phase() == old(self).spec_phase(),
    {
        let lo: u8 = (value % 0x100) as u8;
        let hi: u8 = ((value / 0x100) % 0x100) as u8;
        if self.parcel_endian == Endian::BigEndian {
            self.tx_buffer.push(hi);
            self.tx_buffer.push(lo);
        } else {
            self.tx_buffer.push(lo);
            self.tx_buffer.push(hi);
        }
        proof {
            assert(u16_be_bytes(value) =~= seq![
                ((value / 0x100) % 0x100) as u8,
                (value % 0x100) as u8,
            ]);
            assert(self.spec_tx_buffer() =~= old(self).spec_tx_buffer() + u16_bytes(
                old(self).spec_endian(),
                value,
            ));
        }
    }

    /// Append a 32-bit value in the parcel's byte order.
    fn push_u32(&mut self, value: u32)
        ensures
            final(self).spec_tx_buffer() == old(self).spec_tx_buffer() + u32_bytes(
                old(self).spec_endian(),
                value,
            ),
            final(self).spec_rx_buffer() == old(self).spec_rx_buffer(),
            final(self).spec_endian() == old(self).spec_endian(),
            final(self).spec_phase() == old(self).spec_phase(),
    {
        let b0: u8 = (value % 0x100) as u8;
        let b1: u8 = ((value / 0x100) % 0x100) as u8;
        let b2: u8 = ((value / 0x10000) % 0x100) as u8;
        let b3: u8 = ((value / 0x1000000) % 0x100) as u8;
        if self.parcel_endian == Endian::BigEndian {
            self.tx_buffer.push(b3);
            self.tx_buffer.push(b2);
            self.tx_buffer.push(b1);
            self.tx_buffer.push(b0);
        } else {
            self.tx_buffer.push(b0);
            self.tx_buffer.push(b1);
            self.tx_buffer.push(b2);
            self.tx_buffer.push(b3);
        }
        proof {
            assert(u32_be_bytes(value) =~= seq![
                ((value / 0x1000000) % 0x100) as u8,
                ((value / 0x10000) % 0x100) as u8,
                ((value / 0x100) % 0x100) as u8,
                (value % 0x100) as u8,
            ]);
            assert(self.spec_tx_buffer() =~= old(self).spec_tx_buffer() + u32_bytes(
                old(self).spec_endian(),
                value,
            ));
        }
    }

    /// Append a 64-bit value in the parcel's byte order.
    fn push_u64(&mut self, value: u64)
        ensures
            final(self).spec_tx_buffer() == old(self).spec_tx_buffer() + u64_bytes(
                old(self).spec_endian(),
                value,
            ),
            final(self).spec_rx_buffer() == old(self).spec_rx_buffer(),
            final(self).spec_endian() == old(self).spec_endian(),
            final(self).spec_phase() == old(self).spec_phase(),
    {
        let b0: u8 = (value % 0x100) as u8;
        let b1: u8 = ((value / 0x100) % 0x100) as u8;
        let b2: u8 = ((value / 0x10000) % 0x100) as u8;
        let b3: u8 = ((value / 0x1000000) % 0x100) as u8;
        let b4: u8 = ((value / 0x100000000) % 0x100) as u8;
        let b5: u8 = ((value / 0x10000000000) % 0x100) as u8;
        let b6: u8 = ((value / 0x1000000000000) % 0x100) as u8;
        let b7: u8 = ((value / 0x100000000000000) % 0x100) as u8;
        if self.parcel_endian == Endian::BigEndian {
            self.tx_buffer.push(b7);
            self.tx_buffer.push(b6);
            self.tx_buffer.push(b5);
            self.tx_buffer.push(b4);
            self.tx_buffer.push(b3);
            self.tx_buffer.push(b2);
            self.tx_buffer.push(b1);
            self.tx_buffer.push(b0);
        } else {
            self.tx_buffer.push(b0);
            self.tx_buffer.push(b1);
            self.tx_buffer.push(b2);
            self.tx_buffer.push(b3);
            self.tx_buffer.push(b4);
            self.tx_buffer.push(b5);
            self.tx_buffer.push(b6);
            self.tx_buffer.push(b7);
        }
        proof {
            assert(u64_be_bytes(value) =~= seq![
                ((value / 0x100000000000000) % 0x100) as u8,
                ((value / 0x1000000000000) % 0x100) as u8,
                ((value / 0x10000000000) % 0x100) as u8,
                ((value / 0x100000000) % 0x100) as u8,
                ((value / 0x1000000) % 0x100) as u8,
                ((value / 0x10000) % 0x100) as u8,
                ((value / 0x100) % 0x100) as u8,
                (value % 0x100) as u8,
            ]);
            assert(self.spec_tx_buffer() =~= old(self).spec_tx_buffer() + u64_bytes(
                old(self).spec_endian(),
                value,
            ));
        }
    }

    /// Write an unsigned 8-bit payload value.
    pub fn tx_write_u8(&mut self, value: u8)
        requires
            old(self).spec_phase() == ParcelTxPhase::TopicWritten,
        ensures
            tx_value_written(*old(self), *final(self), seq![value]),
    {
        self.tx_buffer.push(value);
        proof {
            assert(self.spec_tx_buffer() =~= old(self).spec_tx_buffer() + seq![value]);
        }
    }

    /// Write a signed 8-bit payload value as its bit pattern.
    pub fn tx_write_i8(&mut self, value: i8)
        requires
            old(self).spec_phase() == ParcelTxPhase::TopicWritten,
        ensures
            tx_value_written(*old(self), *final(self), seq![i8_pattern(value)]),
    {
        let pattern: u8 = if value >= 0 {
            value as u8
        } else {
            (value as i16 + 0x100) as u8
        };
        self.tx_buffer.push(pattern);
        proof {
            assert(self.spec_tx_buffer() =~= old(self).spec_tx_buffer() + seq![i8_pattern(value)]);
        }
    }

    /// Write an unsigned 16-bit payload value.
    pub fn tx_write_u16(&mut self, value: u16)
        requires
            old(self).spec_phase() == ParcelTxPhase::TopicWritten,
        ensures
            tx_value_written(*old(self), *final(self), u16_bytes(old(self).spec_endian(), value)),
    {
        self.push_u16(value);
    }

    /// Write a signed 16-bit payload value as its bit pattern.
    pub fn tx_write_i16(&mut self, value: i16)
        requires
            old(self).spec_phase() == ParcelTxPhase::TopicWritten,
        ensures
            tx_value_written(
                *old(self),
                *final(self),
                u16_bytes(old(self).spec_endian(), i16_pattern(value)),
            ),
    {
        let pattern: u16 = if value >= 0 {
            value as u16
        } else {
            (value as i32 + 0x10000) as u16
        };
        self.push_u16(pattern);
    }

    /// Write an unsigned 32-bit payload value.
    pub fn tx_write_u32(&mut self, value: u32)
        requires
            old(self).spec_phase() == ParcelTxPhase::TopicWritten,
        ensures
            tx_value_written(*old(self), *final(self), u32_bytes(old(self).spec_endian(), value)),
    {
        self.push_u32(value);
    }

    /// Write a signed 32-bit payload value as its bit pattern.
    pub fn tx_write_i32(&mut self, value: i32)
        requires
            old(self).spec_phase() == ParcelTxPhase::TopicWritten,
        ensures
            tx_value_written(
                *old(self),
                *final(self),
                u32_bytes(old(self).spec_endian(), i32_pattern(value)),
            ),
    {
        let pattern: u32 = if value >= 0 {
            value as u32
        } else {
            (value as i64 + 0x100000000) as u32
        };
        self.push_u32(pattern);
    }

    /// Write an unsigned 64-bit payload value.
    pub fn tx_write_u64(&mut self, value: u64)
        requires
            old(self).spec_phase() == ParcelTxPhase::TopicWritten,
        ensures
            tx_value_written(*old(self), *final(self), u64_bytes(old(self).spec_endian(), value)),
    {
        self.push_u64(value);
    }

    /// Write a signed 64-bit payload value as its bit pattern.
    pub fn tx_write_i64(&mut self, value: i64)
        requires
            old(self).spec_phase() == ParcelTxPhase::TopicWritten,
        ensures
            tx_value_written(
                *old(self),
                *final(self),
                u64_bytes(old(self).spec_endian(), i64_pattern(value)),
            ),
    {
        let pattern: u64 = if value >= 0 {
            value as u64
        } else {
            (value as i128 + 0x10000000000000000) as u64
        };
        self.push_u64(pattern);
    }

    /// Write a string's UTF-8 bytes.
    pub fn tx_write_string(&mut self, value: String)
        requires
            old(self).spec_phase() == ParcelTxPhase::TopicWritten,
        ensures
            tx_value_written(*old(self), *final(self), vstd::utf8::encode_utf8(value@)),
    {
        let bytes: &[u8] = value.as_str().as_bytes();
        let n = bytes.len();
        let mut i: usize = 0;
        while i < n
            invariant
                i <= n,
                n == vstd::utf8::encode_utf8(value@).len(),
                bytes@ == vstd::utf8::encode_utf8(value@),
                self.spec_tx_buffer() == old(self).spec_tx_buffer() + bytes@.take(i as int),
                self.spec_rx_buffer() == old(self).spec_rx_buffer(),
                self.spec_endian() == old(self).spec_endian(),
                self.spec_phase() == old(self).spec_phase(),
            decreases n - i,
        {
            let b = bytes[i];
            self.tx_buffer.push(b);
            i += 1;
            proof {
                assert(bytes@.take(i as int).drop_last() =~= bytes@.take(i - 1));
                assert(self.spec_tx_buffer() =~= old(self).spec_tx_buffer() + bytes@.take(i as int));
            }
        }
        proof {
            assert(bytes@.take(n as int) =~= bytes@);
        }
    }

    /// Finalize the frame: record the payload size at bytes 4 and 5 and
    /// append the checksum of the payload.
    pub fn tx_finalize(&mut self)
        requires
            old(self).spec_phase() == ParcelTxPhase::TopicWritten,
            old(self).spec_tx_buffer().len() >= 6,
            old(self).spec_tx_buffer().len() - 6 <= 0xFFFF,
        ensures
            final(self).spec_phase() == ParcelTxPhase::Finalized,
            ({
                let pre = old(self).spec_tx_buffer();
                let size_bytes = u16_bytes(old(self).spec_endian(), (pre.len() - 6) as u16);
                final(self).spec_tx_buffer() == pre.update(4, size_bytes[0]).update(
                    5,
                    size_bytes[1],
                ).push(xor_checksum(pre.subrange(6, pre.len() as int)))
            }),
            final(self).spec_rx_buffer() == old(self).spec_rx_buffer(),
            final(self).spec_endian() == old(self).spec_endian(),
    {
        let len = self.tx_buffer.len();
        let payload_size: u16 = (len - 6) as u16;
        let checksum = Self::checksum_of_slice(&self.tx_buffer, 6, len);
        let lo: u8 = (payload_size % 0x100) as u8;
        let hi: u8 = ((payload_size / 0x100) % 0x100) as u8;
        if self.parcel_endian == Endian::BigEndian {
            self.tx_buffer.set(4, hi);
            self.tx_buffer.set(5, lo);
        } else {
            self.tx_buffer.set(4, lo);
            self.tx_buffer.set(5, hi);
        }
        self.tx_buffer.push(checksum);
        self.tx_buffer_phase = ParcelTxPhase::Finalized;
        proof {
            assert(u16_be_bytes(payload_size) =~= seq![
                ((payload_size / 0x100) % 0x100) as u8,
                (payload_size % 0x100) as u8,
            ]);
        }
    }

    /// The finalized frame, ready to hand to a transport.
    pub fn tx_send(&self) -> (r: Vec<u8>)
        requires
            self.spec_phase() == ParcelTxPhase::Finalized,
        ensures
            r@ == self.spec_tx_buffer(),
    {
        let mut out: Vec<u8> = Vec::new();
        let n = self.tx_buffer.len();
        let mut i: usize = 0;
        while i < n
            invariant
                i <= n,
                n == self.spec_tx_buffer().len(),
                out@.len() == i,
                forall|j: int| 0 <= j < i ==> out@[j] == self.spec_tx_buffer()[j],
            decreases n - i,
        {
            out.push(self.tx_buffer[i]);
            i += 1;
        }
        proof {
            assert(out@ =~= self.spec_tx_buffer());
        }
        out
    }

    /// Append received bytes to the receive buffer.
    pub fn rx_receive(&mut self, rx_data: Vec<u8>)
        ensures
            final(self).spec_rx_buffer() == old(self).spec_rx_buffer() + rx_data@,
            final(self).spec_tx_buffer() == old(self).spec_tx_buffer(),
            final(self).spec_endian() == old(self).spec_endian(),
            final(self).spec_phase() == old(self).spec_phase(),
    {
        let n = rx_data.len();
        let mut i: usize = 0;
        while i < n
            invariant
                i <= n,
                n == rx_data@.len(),
                self.spec_rx_buffer() == old(self).spec_rx_buffer() + rx_data@.take(i as int),
                self.spec_tx_buffer() == old(self).spec_tx_buffer(),
                self.spec_endian() == old(self).spec_endian(),
                self.spec_phase() == old(self).spec_phase(),
            decreases n - i,
        {
            self.rx_buffer.push_back(rx_data[i]);
            i += 1;
            proof {
                assert(rx_data@.take(i as int).drop_last() =~= rx_data@.take(i - 1));
                assert(self.spec_rx_buffer() =~= old(self).spec_rx_buffer() + rx_data@.take(
                    i as int,
                ));
            }
        }
        proof {
            assert(rx_data@.take(n as int) =~= rx_data@);
        }
    }

    /// Scan the receive buffer for the next well-formed frame, dropping
    /// leading bytes that cannot start one; returns the frame's topic and
    /// payload, or nothing when no complete frame has arrived yet.
    pub fn rx_read_frame(&mut self) -> (r: Option<(u16, Vec<u8>)>)
        ensures
            final(self).spec_tx_buffer() == old(self).spec_tx_buffer(),
            final(self).spec_endian() == old(self).spec_endian(),
            final(self).spec_phase() == old(self).spec_phase(),
            exists|k: int|
                #![trigger old(self).spec_rx_buffer().skip(k)]
                0 <= k <= old(self).spec_rx_buffer().len() && (forall|j: int|
                    0 <= j < k ==> !frame_at(
                        old(self).spec_rx_buffer().skip(j),
                        old(self).spec_endian(),
                    )) && match r {
                    Some(tp) => {
                        let at = old(self).spec_rx_buffer().skip(k);
                        &&& frame_at(at, old(self).spec_endian())
                        &&& tp.0 as int == frame_topic(at, old(self).spec_endian())
                        &&& tp.1@ == frame_payload(at, old(self).spec_endian())
                        &&& final(self).spec_rx_buffer() == at.skip(
                            frame_len(at, old(self).spec_endian()),
                        )
                    },
                    None => {
                        let at = old(self).spec_rx_buffer().skip(k);
                        &&& final(self).spec_rx_buffer() == at
                        &&& (at.len() < 7 || (at[0] == 0x55u8 && at[1] == 0x55u8 && frame_len(
                            at,
                            old(self).spec_endian(),
                        ) > at.len()))
                    },
                },
    {
        let ghost buf0 = self.rx_buffer@;
        let ghost e = self.parcel_endian;
        let mut ghost_dropped: Ghost<int> = Ghost(0);
        loop
            invariant
                self.spec_tx_buffer() == old(self).spec_tx_buffer(),
                self.spec_endian() == old(self).spec_endian(),
                self.spec_phase() == old(self).spec_phase(),
                e == old(self).spec_endian(),
                buf0 == old(self).spec_rx_buffer(),
                0 <= ghost_dropped@ <= buf0.len(),
                self.spec_rx_buffer() =~= buf0.skip(ghost_dropped@),
                forall|j: int| 0 <= j < ghost_dropped@ ==> !frame_at(#[trigger] buf0.skip(j), e),
            ensures
                self.spec_tx_buffer() == old(self).spec_tx_buffer(),
                self.spec_endian() == old(self).spec_endian(),
                self.spec_phase() == old(self).spec_phase(),
                0 <= ghost_dropped@ <= buf0.len(),
                self.spec_rx_buffer() =~= buf0.skip(ghost_dropped@),
                forall|j: int| 0 <= j < ghost_dropped@ ==> !frame_at(#[trigger] buf0.skip(j), e),
                self.spec_rx_buffer().len() < 7,
            decreases self.rx_buffer@.len(),
        {
            if self.rx_buffer.len() < 7 {
                break ;
            }
            let b0 = self.rx_buffer[0];
            let b1 = self.rx_buffer[1];
            if b0 != 0x55 || b1 != 0x55 {
                proof {
                    assert(!frame_at(buf0.skip(ghost_dropped@), e));
                }
                self.rx_buffer.pop_front();
                proof {
                    ghost_dropped@ = ghost_dropped@ + 1;
                    assert(self.spec_rx_buffer() =~= buf0.skip(ghost_dropped@));
                }
                continue ;
            }
            let s4 = self.rx_buffer[4];
            let s5 = self.rx_buffer[5];
            let payload_size: u16 = if self.parcel_endian == Endian::BigEndian {
                (s4 as u16) * 0x100 + (s5 as u16)
            } else {
                (s5 as u16) * 0x100 + (s4 as u16)
            };
            let frame_size: usize = 6 + payload_size as usize + 1;
            proof {
                assert(self.spec_rx_buffer().subrange(4, 6) =~= seq![s4, s5]);
                assert(payload_size as int == u16_value(e, self.spec_rx_buffer().subrange(4, 6)));
            }
            if self.rx_buffer.len() < frame_size {
                // An apparent frame head, but not all of it has arrived.
                proof {
                    let at = buf0.skip(ghost_dropped@);
                    assert(at[0] == 0x55u8 && at[1] == 0x55u8);
                    assert(frame_len(at, e) > at.len());
                }
                return None;
            }
            let computed = Self::checksum_of_deque(&self.rx_buffer, 6, 6 + payload_size as usize);
            let received = self.rx_buffer[frame_size - 1];
            if received != computed {
                proof {
                    let at = buf0.skip(ghost_dropped@);
                    assert(at.subrange(6, 6 + payload_size as int) =~= at.subrange(
                        6,
                        6 + u16_value(e, at.subrange(4, 6)),
                    ));
                    assert(!frame_at(at, e)) by {
                        if frame_at(at, e) {
                            assert(at[6 + payload_size as int] == xor_checksum(
                                at.subrange(6, 6 + payload_size as int),
                            ));
                        }
                    }
                }
                self.rx_buffer.pop_front();
                proof {
                    ghost_dropped@ = ghost_dropped@ + 1;
                    assert(self.spec_rx_buffer() =~= buf0.skip(ghost_dropped@));
                }
                continue ;
            }
            // A complete well-formed frame: extract it and consume it.
            let t2 = self.rx_buffer[2];
            let t3 = self.rx_buffer[3];
            let topic: u16 = if self.parcel_endian == Endian::BigEndian {
                (t2 as u16) * 0x100 + (t3 as u16)
            } else {
                (t3 as u16) * 0x100 + (t2 as u16)
            };
            let mut payload: Vec<u8> = Vec::new();
            let mut i: usize = 0;
            let ghost at = buf0.skip(ghost_dropped@);
            while i < payload_size as usize
                invariant
                    i <= payload_size,
                    at == self.spec_rx_buffer(),
                    6 + payload_size + 1 <= at.len(),
                    payload@.len() == i,
                    forall|j: int| 0 <= j < i ==> payload@[j] == at[6 + j],
                decreases payload_size as usize - i,
            {
                payload.push(self.rx_buffer[6 + i]);
                i += 1;
            }
            proof {
                assert(payload@ =~= frame_payload(at, e));
                assert(at.subrange(2, 4) =~= seq![t2, t3]);
                assert(topic as int == frame_topic(at, e));
                assert(at.subrange(6, 6 + payload_size as int) =~= frame_payload(at, e));
                assert(at[6 + payload_size as int] == received);
                assert(frame_at(at, e));
            }
            let mut j: usize = 0;
            while j < frame_size
                invariant
                    j <= frame_size,
                    frame_size <= at.len(),
                    self.spec_rx_buffer() =~= at.skip(j as int),
                    self.spec_tx_buffer() == old(self).spec_tx_buffer(),
                    self.spec_endian() == old(self).spec_endian(),
                    self.spec_phase() == old(self).spec_phase(),
                decreases frame_size - j,
            {
                self.rx_buffer.pop_front();
                j += 1;
                proof {
                    assert(self.spec_rx_buffer() =~= at.skip(j as int));
                }
            }
            proof {
                assert(frame_len(at, e) == frame_size);
            }
            return Some((topic, payload));
        }
        None
    }

    /// Read an unsigned 8-bit value at `offset` of the payload.
    pub fn rx_read_u8(payload: &Vec<u8>, offset: usize, as_endian: Endian) -> (r: Result<
        u8,
        ParcelErrorType,
    >)
        ensures
            r is Ok <==> offset + 1 <= payload@.len(),
            r matches Ok(v) ==> v == payload@[offset as int],
            r is Err ==> r == Result::<u8, ParcelErrorType>::Err(ParcelErrorType::OutOfBounds),
    {
        if offset >= payload.len() {
            return Err(ParcelErrorType::OutOfBounds);
        }
        Ok(payload[offset])
    }

    /// Read a signed 8-bit value at `offset` of the payload.
    pub fn rx_read_i8(payload: &Vec<u8>, offset: usize, as_endian: Endian) -> (r: Result<
        i8,
        ParcelErrorType,
    >)
        ensures
            r is Ok <==> offset + 1 <= payload@.len(),
            r matches Ok(v) ==> v as int == signed8(payload@[offset as int] as int),
            r is Err ==> r == Result::<i8, ParcelErrorType>::Err(ParcelErrorType::OutOfBounds),
    {
        if offset >= payload.len() {
            return Err(ParcelErrorType::OutOfBounds);
        }
        let u = payload[offset];
        if u < 0x80 {
            Ok(u as i8)
        } else {
            Ok(((u as i16) - 0x100) as i8)
        }
    }

    /// Read an unsigned 16-bit value at `offset` of the payload.
    pub fn rx_read_u16(payload: &Vec<u8>, offset: usize, as_endian: Endian) -> (r: Result<
        u16,
        ParcelErrorType,
    >)
        ensures
            r is Ok <==> offset + 2 <= payload@.len(),
            r matches Ok(v) ==> v as int == u16_value(
                as_endian,
                payload@.subrange(offset as int, offset + 2),
            ),
            r is Err ==> r == Result::<u16, ParcelErrorType>::Err(ParcelErrorType::OutOfBounds),
    {
        if payload.len() < 2 || offset > payload.len() - 2 {
            return Err(ParcelErrorType::OutOfBounds);
        }
        let b0 = payload[offset];
        let b1 = payload[offset + 1];
        proof {
            assert(payload@.subrange(offset as int, offset + 2) =~= seq![b0, b1]);
        }
        if as_endian == Endian::BigEndian {
            Ok((b0 as u16) * 0x100 + (b1 as u16))
        } else {
            Ok((b1 as u16) * 0x100 + (b0 as u16))
        }
    }

    /// Read a signed 16-bit value at `offset` of the payload.
    pub fn rx_read_i16(payload: &Vec<u8>, offset: usize, as_endian: Endian) -> (r: Result<
        i16,
        ParcelErrorType,
    >)
        ensures
            r is Ok <==> offset + 2 <= payload@.len(),
            r matches Ok(v) ==> v as int == signed16(
                u16_value(as_endian, payload@.subrange(offset as int, offset + 2)),
            ),
            r is Err ==> r == Result::<i16, ParcelErrorType>::Err(ParcelErrorType::OutOfBounds),
    {
        match Self::rx_read_u16(payload, offset, as_endian) {
            Err(err) => Err(err),
            Ok(u) => {
                if u < 0x8000 {
                    Ok(u as i16)
                } else {
                    Ok(((u as i32) - 0x10000) as i16)
                }
            },
        }
    }

    /// Read an unsigned 32-bit value at `offset` of the payload.
    pub fn rx_read_u32(payload: &Vec<u8>, offset: usize, as_endian: Endian) -> (r: Result<
        u32,
        ParcelErrorType,
    >)
        ensures
            r is Ok <==> offset + 4 <= payload@.len(),
            r matches Ok(v) ==> v as int == u32_value(
                as_endian,
                payload@.subrange(offset as int, offset + 4),
            ),
            r is Err ==> r == Result::<u32, ParcelErrorType>::Err(ParcelErrorType::OutOfBounds),
    {
        if payload.len() < 4 || offset > payload.len() - 4 {
            return Err(ParcelErrorType::OutOfBounds);
        }
        let b0 = payload[offset];
        let b1 = payload[offset + 1];
        let b2 = payload[offset + 2];
        let b3 = payload[offset + 3];
        let ghost s = payload@.subrange(offset as int, offset + 4);
        proof {
            assert(s =~= seq![b0, b1, b2, b3]);
            assert(s.subrange(0, 2) =~= seq![b0, b1]);
            assert(s.subrange(2, 4) =~= seq![b2, b3]);
        }
        if as_endian == Endian::BigEndian {
            Ok(
                ((b0 as u32) * 0x100 + (b1 as u32)) * 0x10000 + ((b2 as u32) * 0x100 + (
                b3 as u32)),
            )
        } else {
            Ok(
                ((b3 as u32) * 0x100 + (b2 as u32)) * 0x10000 + ((b1 as u32) * 0x100 + (
                b0 as u32)),
            )
        }
    }

    /// Read a signed 32-bit value at `offset` of the payload.
    pub fn rx_read_i32(payload: &Vec<u8>, offset: usize, as_endian: Endian) -> (r: Result<
        i32,
        ParcelErrorType,
    >)
        ensures
            r is Ok <==> offset + 4 <= payload@.len(),
            r matches Ok(v) ==> v as int == signed32(
                u32_value(as_endian, payload@.subrange(offset as int, offset + 4)),
            ),
            r is Err ==> r == Result::<i32, ParcelErrorType>::Err(ParcelErrorType::OutOfBounds),
    {
        match Self::rx_read_u32(payload, offset, as_endian) {
            Err(err) => Err(err),
            Ok(u) => {
                if u < 0x80000000 {
                    Ok(u as i32)
                } else {
                    Ok(((u as i64) - 0x100000000) as i32)
                }
            },
        }
    }

    /// Read an unsigned 64-bit value at `offset` of the payload.
    pub fn rx_read_u64(payload: &Vec<u8>, offset: usize, as_endian: Endian) -> (r: Result<
        u64,
        ParcelErrorType,
    >)
        ensures
            r is Ok <==> offset + 8 <= payload@.len(),
            r matches Ok(v) ==> v as int == u64_value(
                as_endian,
                payload@.subrange(offset as int, offset + 8),
            ),
            r is Err ==> r == Result::<u64, ParcelErrorType>::Err(ParcelErrorType::OutOfBounds),
    {
        if payload.len() < 8 || offset > payload.len() - 8 {
            return Err(ParcelErrorType::OutOfBounds);
        }
        let b0 = payload[offset];
        let b1 = payload[offset + 1];
        let b2 = payload[offset + 2];
        let b3 = payload[offset + 3];
        let b4 = payload[offset + 4];
        let b5 = payload[offset + 5];
        let b6 = payload[offset + 6];
        let b7 = payload[offset + 7];
        let ghost s = payload@.subrange(offset as int, offset + 8);
        proof {
            assert(s =~= seq![b0, b1, b2, b3, b4, b5, b6, b7]);
            assert(s.subrange(0, 4) =~= seq![b0, b1, b2, b3]);
            assert(s.subrange(4, 8) =~= seq![b4, b5, b6, b7]);
            assert(s.subrange(0, 4).subrange(0, 2) =~= seq![b0, b1]);
            assert(s.subrange(0, 4).subrange(2, 4) =~= seq![b2, b3]);
            assert(s.subrange(4, 8).subrange(0, 2) =~= seq![b4, b5]);
            assert(s.subrange(4, 8).subrange(2, 4) =~= seq![b6, b7]);
        }
        if as_endian == Endian::BigEndian {
            let hi: u64 = ((b0 as u64) * 0x100 + (b1 as u64)) * 0x10000 + ((b2 as u64) * 0x100 + (
            b3 as u64));
            let lo: u64 = ((b4 as u64) * 0x100 + (b5 as u64)) * 0x10000 + ((b6 as u64) * 0x100 + (
            b7 as u64));
            Ok(hi * 0x100000000 + lo)
        } else {
            let hi: u64 = ((b7 as u64) * 0x100 + (b6 as u64)) * 0x10000 + ((b5 as u64) * 0x100 + (
            b4 as u64));
            let lo: u64 = ((b3 as u64) * 0x100 + (b2 as u64)) * 0x10000 + ((b1 as u64) * 0x100 + (
            b0 as u64));
            Ok(hi * 0x100000000 + lo)
        }
    }

    /// Read a signed 64-bit value at `offset` of the payload.
    pub fn rx_read_i64(payload: &Vec<u8>, offset: usize, as_endian: Endian) -> (r: Result<
        i64,
        ParcelErrorType,
    >)
        ensures
            r is Ok <==> offset + 8 <= payload@.len(),
            r matches Ok(v) ==> v as int == signed64(
                u64_value(as_endian, payload@.subrange(offset as int, offset + 8)),
            ),
            r is Err ==> r == Result::<i64, ParcelErrorType>::Err(ParcelErrorType::OutOfBounds),
    {
        match Self::rx_read_u64(payload, offset, as_endian) {
            Err(err) => Err(err),
            Ok(u) => {
                if u < 0x8000000000000000 {
                    Ok(u as i64)
                } else {
                    Ok(((u as i128) - 0x10000000000000000) as i64)
                }
            },
        }
    }

    /// Read `length` bytes at `offset` of the payload as a UTF-8 string.
    pub fn rx_read_string(payload: &Vec<u8>, offset: usize, length: usize) -> (r: Result<
        String,
        ParcelErrorType,
    >)
        ensures
            offset + length > payload@.len() <==> r == Result::<String, ParcelErrorType>::Err(
                ParcelErrorType::OutOfBounds,
            ),
            r matches Ok(s) ==> offset + length <= payload@.len() && vstd::utf8::encode_utf8(s@)
                == payload@.subrange(offset as int, (offset + length) as int),
            offset + length <= payload@.len() && (exists|cs: Seq<char>|
                vstd::utf8::encode_utf8(cs) == payload@.subrange(
                    offset as int,
                    (offset + length) as int,
                )) ==> r is Ok,
            offset + length <= payload@.len() && !(exists|cs: Seq<char>|
                vstd::utf8::encode_utf8(cs) == payload@.subrange(
                    offset as int,
                    (offset + length) as int,
                )) ==> r == Result::<String, ParcelErrorType>::Err(ParcelErrorType::InvalidData),
    {
        if length > payload.len() || offset > payload.len() - length {
            return Err(ParcelErrorType::OutOfBounds);
        }
        let plen: usize = payload.len();
        let mut string_bytes: Vec<u8> = Vec::new();
        let mut i: usize = 0;
        while i < length
            invariant
                offset + length <= plen,
                plen == payload@.len(),
                i <= length,
                string_bytes@.len() == i,
                forall|j: int| 0 <= j < i ==> string_bytes@[j] == payload@[offset + j],
            decreases length - i,
        {
            string_bytes.push(payload[offset + i]);
            i += 1;
        }
        proof {
            assert(string_bytes@ =~= payload@.subrange(offset as int, (offset + length) as int));
        }
        match string_from_utf8(string_bytes) {
            Some(s) => Ok(s),
            None => Err(ParcelErrorType::InvalidData),
        }
    }

    /// XOR checksum of `q[from..to]` of the receive buffer.
    fn checksum_of_deque(q: &VecDeque<u8>, from: usize, to: usize) -> (r: u8)
        requires
            from <= to <= q@.len(),
        ensures
            r == xor_checksum(q@.subrange(from as int, to as int)),
    {
        let mut checksum: u8 = 0xFF;
        let mut i: usize = from;
        proof {
            assert(q@.subrange(from as int, from as int) =~= Seq::<u8>::empty());
        }
        while i < to
            invariant
                from <= i <= to <= q@.len(),
                checksum == xor_checksum(q@.subrange(from as int, i as int)),
            decreases to - i,
        {
            checksum = checksum ^ q[i];
            i += 1;
            proof {
                assert(q@.subrange(from as int, i as int).drop_last() =~= q@.subrange(
                    from as int,
                    i - 1,
                ));
            }
        }
        checksum
    }

    /// XOR checksum of `v[from..to]`.
    fn checksum_of_slice(v: &Vec<u8>, from: usize, to: usize) -> (r: u8)
        requires
            from <= to <= v@.len(),
        ensures
            r == xor_checksum(v@.subrange(from as int, to as int)),
    {
        let mut checksum: u8 = 0xFF;
        let mut i: usize = from;
        proof {
            assert(v@.subrange(from as int, from as int) =~= Seq::<u8>::empty());
        }
        while i < to
            invariant
                from <= i <= to <= v@.len(),
                checksum == xor_checksum(v@.subrange(from as int, i as int)),
            decreases to - i,
        {
            checksum = checksum ^ v[i];
            i += 1;
            proof {
                assert(v@.subrange(from as int, i as int).drop_last() =~= v@.subrange(
                    from as int,
                    i - 1,
                ));
            }
        }
        checksum
    }
}

/// Relies on `String::from_utf8`: it succeeds exactly when the bytes are
/// valid UTF-8, returning the string those bytes encode.
#[verifier::external_body]
fn string_from_utf8(bytes: Vec<u8>) -> (r: Option<String>)
    ensures
        r matches Some(s) ==> vstd::utf8::encode_utf8(s@) == bytes@,
        r is None ==> forall|cs: Seq<char>| vstd::utf8::encode_utf8(cs) != bytes@,
{
    String::from_utf8(bytes).ok()
}

/// A payload value's bytes were appended to the transmit buffer, with the
/// rest of the parcel untouched.
pub open spec fn tx_value_written(pre: Parcel, post: Parcel, bytes: Seq<u8>) -> bool {
    &&& post.spec_tx_buffer() == pre.spec_tx_buffer() + bytes
    &&& post.spec_phase() == ParcelTxPhase::TopicWritten
    &&& post.spec_rx_buffer() == pre.spec_rx_buffer()
    &&& post.spec_endian() == pre.spec_endian()
}

} // verus!
