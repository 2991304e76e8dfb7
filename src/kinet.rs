use vstd::prelude::*;

use crate::utils::clone_into_array;

verus! {

/// The first field of every KiNET packet.
pub const KINET_MAGIC: i32 = 0x0401dc4a;

pub const KINET_VERSION: u16 = 0x0100;

/// Command code of a legacy whole-universe DMX output frame.
pub const DMX_OUT: u16 = 0x0101;

/// Command code of a port-addressed output frame.
pub const PORT_OUT: u16 = 0x0801;

/// Size of the payload region of every frame.
pub const FRAME_DATA_LEN: usize = 512;

/// Size of a whole encoded frame.
pub const FRAME_LEN: usize = 533;

/// One outbound KiNET output packet, fields in wire order.
pub struct Output {
    pub magic: i32,
    pub version: u16,
    pub command: u16,
    pub sequence: i32,
    pub port: u8,
    pub padding: u8,
    pub flags: u16,
    pub timer: i32,
    pub universe: u8,
    pub data: [u8; 512],
}

/// A big-endian 16-bit field.
pub open spec fn be16(x: u16) -> Seq<u8> {
    seq![(x / 0x100) as u8, (x % 0x100) as u8]
}

/// A big-endian 32-bit field.
pub open spec fn be32(x: u32) -> Seq<u8> {
    seq![
        (x / 0x100_0000) as u8,
        ((x / 0x1_0000) % 0x100) as u8,
        ((x / 0x100) % 0x100) as u8,
        (x % 0x100) as u8,
    ]
}

/// The two's complement bit pattern of a signed 32-bit value.
pub open spec fn twos(x: i32) -> u32 {
    if x < 0 {
        (x + 0x1_0000_0000) as u32
    } else {
        x as u32
    }
}

fn twos_complement(x: i32) -> (r: u32)
    ensures
        r == twos(x),
{
    if x < 0 {
        (x as i64 + 0x1_0000_0000i64) as u32
    } else {
        x as u32
    }
}

/// The bytes of a frame: every field in declared order, big-endian, signed
/// fields in two's complement.
pub open spec fn frame_bytes(o: Output) -> Seq<u8> {
    be32(twos(o.magic)) + be16(o.version) + be16(o.command) + be32(twos(o.sequence)) + seq![
        o.port,
        o.padding,
    ] + be16(o.flags) + be32(twos(o.timer)) + seq![o.universe] + o.data@
}

/// The payload region for `payload`: its first 512 bytes, then zeros.
pub open spec fn padded_payload(payload: Seq<u8>) -> Seq<u8> {
    Seq::new(512, |i: int| if i < payload.len() { payload[i] } else { 0u8 })
}

/// The command code for a destination's output port.
pub open spec fn command_for_port(port: u8) -> u16 {
    if port == 0 {
        DMX_OUT
    } else {
        PORT_OUT
    }
}

/// The header that every frame starts from.
pub open spec fn default_header(o: Output) -> bool {
    &&& o.magic == KINET_MAGIC
    &&& o.version == KINET_VERSION
    &&& o.sequence == 0
    &&& o.padding == 0
    &&& o.flags == 0
    &&& o.timer == -1
    &&& o.universe == 0
}

impl Default for Output {
    fn default() -> (o: Output)
        ensures
            default_header(o),
            o.command == DMX_OUT,
            o.port == 0,
            o.data@ == Seq::new(512, |i: int| 0u8),
    {
        let o = Output {
            magic: KINET_MAGIC,
            version: KINET_VERSION,
            command: DMX_OUT,
            sequence: 0,
            port: 0,
            padding: 0,
            flags: 0,
            timer: -1,
            universe: 0,
            data: [0u8; 512],
        };
        assert(o.data@ =~= Seq::new(512, |i: int| 0u8));
        o
    }
}

fn push_be16(out: &mut Vec<u8>, x: u16)
    ensures
        final(out)@ == old(out)@ + be16(x),
{
    let hi = (x >> 8) as u8;
    let lo = (x & 0xff) as u8;
    assert(hi == (x / 0x100) as u8 && lo == (x % 0x100) as u8) by (bit_vector)
        requires
            hi == (x >> 8) as u8,
            lo == (x & 0xff) as u8,
    ;
    out.push(hi);
    out.push(lo);
    assert(final(out)@ =~= old(out)@ + be16(x));
}

fn push_be32(out: &mut Vec<u8>, x: u32)
    ensures
        final(out)@ == old(out)@ + be32(x),
{
    let b0 = (x >> 24) as u8;
    let b1 = ((x >> 16) & 0xff) as u8;
    let b2 = ((x >> 8) & 0xff) as u8;
    let b3 = (x & 0xff) as u8;
    assert(b0 == (x / 0x100_0000) as u8 && b1 == ((x / 0x1_0000) % 0x100) as u8 && b2 == ((x
        / 0x100) % 0x100) as u8 && b3 == (x % 0x100) as u8) by (bit_vector)
        requires
            b0 == (x >> 24) as u8,
            b1 == ((x >> 16) & 0xff) as u8,
            b2 == ((x >> 8) & 0xff) as u8,
            b3 == (x & 0xff) as u8,
    ;
    out.push(b0);
    out.push(b1);
    out.push(b2);
    out.push(b3);
    assert(final(out)@ =~= old(out)@ + be32(x));
}

impl Output {
    /// The frame that carries `payload` to a destination's output port: a
    /// legacy DMX frame for port 0, a port-addressed frame for ports 1 to 16.
    /// Only the first 512 bytes of the payload are sent; the rest of the
    /// payload region is zero.
    pub fn for_destination(port: u8, payload: &[u8]) -> (o: Output)
        ensures
            default_header(o),
            o.command == command_for_port(port),
            o.port == port,
            o.data@ == padded_payload(payload@),
    {
        let mut region: Vec<u8> = Vec::new();
        let mut i: usize = 0;
        while i < FRAME_DATA_LEN
            invariant
                i <= FRAME_DATA_LEN,
                region@.len() == i,
                forall|k: int| 0 <= k < i ==> region@[k] == padded_payload(payload@)[k],
            decreases FRAME_DATA_LEN - i,
        {
            if i < payload.len() {
                region.push(payload[i]);
            } else {
                region.push(0u8);
            }
            i = i + 1;
        }
        let data: [u8; 512] = clone_into_array(region.as_slice());
        assert(data@ =~= padded_payload(payload@));
        let mut o = Output::default();
        if port != 0 {
            o.command = PORT_OUT;
            o.port = port;
        }
        o.data = data;
        o
    }

    /// Encodes the frame: every field in declared order, big-endian.
    pub fn serialize(self) -> (bytes: Vec<u8>)
        ensures
            bytes@ == frame_bytes(self),
            bytes@.len() == FRAME_LEN,
    {
        let mut out: Vec<u8> = Vec::new();
        push_be32(&mut out, twos_complement(self.magic));
        push_be16(&mut out, self.version);
        push_be16(&mut out, self.command);
        push_be32(&mut out, twos_complement(self.sequence));
        out.push(self.port);
        out.push(self.padding);
        push_be16(&mut out, self.flags);
        push_be32(&mut out, twos_complement(self.timer));
        out.push(self.universe);
        let ghost header = out@;
        let mut i: usize = 0;
        while i < FRAME_DATA_LEN
            invariant
                i <= FRAME_DATA_LEN,
                out@ == header + self.data@.take(i as int),
            decreases FRAME_DATA_LEN - i,
        {
            out.push(self.data[i]);
            assert(self.data@.take(i + 1) =~= self.data@.take(i as int).push(self.data@[i as int]));
            i = i + 1;
        }
        assert(self.data@.take(512) =~= self.data@);
        assert(out@ =~= frame_bytes(self));
        out
    }
}

/// The encoded frame that carries `payload` to output port `port`.
pub open spec fn output_frame(port: u8, payload: Seq<u8>) -> Seq<u8> {
    be32(KINET_MAGIC as u32) + be16(KINET_VERSION) + be16(command_for_port(port)) + be32(0) + seq![
        port,
        0u8,
    ] + be16(0) + be32(0xFFFF_FFFF) + seq![0u8] + padded_payload(payload)
}

/// Builds and encodes the frame that carries `payload` to output port `port`.
pub fn encode(port: u8, payload: &[u8]) -> (bytes: Vec<u8>)
    ensures
        bytes@ == output_frame(port, payload@),
        bytes@.len() == FRAME_LEN,
{
    let o = Output::for_destination(port, payload);
    let bytes = o.serialize();
    assert(bytes@ =~= output_frame(port, payload@));
    bytes
}

/// A payload shorter than the payload region leaves the rest of the region
/// zero, whatever came before.
pub proof fn lemma_short_payload_zero_filled(payload: Seq<u8>)
    requires
        payload.len() < 512,
    ensures
        forall|i: int| payload.len() <= i < 512 ==> #[trigger] padded_payload(payload)[i] == 0,
        padded_payload(payload).take(payload.len() as int) == payload,
{
    assert(padded_payload(payload).take(payload.len() as int) =~= payload);
}

/// The command code of an encoded frame, and its port byte, follow the
/// destination's port: DMX output for port 0, port-addressed output otherwise.
pub proof fn lemma_frame_command(port: u8, payload: Seq<u8>)
    ensures
        output_frame(port, payload).subrange(6, 8) == be16(command_for_port(port)),
        output_frame(port, payload)[12] == port,
        port == 0 ==> output_frame(port, payload).subrange(6, 8) == be16(DMX_OUT),
        port != 0 ==> output_frame(port, payload).subrange(6, 8) == be16(PORT_OUT),
        output_frame(port, payload).subrange(21, 533) == padded_payload(payload),
{
    assert(output_frame(port, payload).subrange(6, 8) =~= be16(command_for_port(port)));
    assert(output_frame(port, payload).subrange(21, 533) =~= padded_payload(payload));
}

} // verus!
