//! Length-prefixed packets of the plain TCP client.

use vstd::prelude::*;
use vstd::utf8::encode_utf8;

verus! {

/// A packet of the plain TCP client: a type byte, the payload length as two little-endian
/// bytes (its low 16 bits), then the payload.
pub open spec fn packet(packet_type: u8, data: Seq<u8>) -> Seq<u8> {
    seq![packet_type, (data.len() as usize & 0xff) as u8, ((data.len() as usize >> 8) & 0xff) as u8] + data
}

/// Appends a packet carrying the UTF-8 bytes of `data`.
pub fn add_packet(packet_buf: &mut Vec<u8>, packet_type: u8, data: &str)
    ensures
        final(packet_buf)@ == old(packet_buf)@ + packet(packet_type, encode_utf8(data@)),
{
    let bytes = data.as_bytes();
    let size = bytes.len();
    packet_buf.push(packet_type);
    packet_buf.push((size & 0xff) as u8);
    packet_buf.push(((size >> 8) & 0xff) as u8);
    let ghost head = packet_buf@;
    let mut i: usize = 0;
    while i < bytes.len()
        invariant
            i <= bytes.len(),
            packet_buf@ == head + bytes@.take(i as int),
        decreases bytes.len() - i,
    {
        packet_buf.push(bytes[i]);
        assert(bytes@.take(i + 1) == bytes@.take(i as int).push(bytes@[i as int]));
        i = i + 1;
    }
    assert(bytes@.take(bytes.len() as int) == bytes@);
}

} // verus!
