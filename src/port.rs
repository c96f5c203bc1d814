//! Port values and the descriptor bytes that carry them in message headers.

use vstd::prelude::*;
use vstd::utf8::{encode_utf8, encode_utf8_decode_utf8, encode_utf8_valid_utf8, valid_utf8};

verus! {

/// Name of a port of the dataflow layer.
pub type PortID = String;

/// Value held by a port. `Empty` is the state before a value arrives and after a clear.
#[derive(Clone, Debug, PartialEq, Eq)]
pub enum PortData {
    File(String),
    String(String),
    Int(i32),
    Bool(bool),
    Empty,
}

/// Spec view of a port value.
pub enum PortValue {
    File(Seq<char>),
    Text(Seq<char>),
    Int(i32),
    Bool(bool),
    Empty,
}

impl View for PortData {
    type V = PortValue;

    open spec fn view(&self) -> PortValue {
        match self {
            PortData::File(p) => PortValue::File(p@),
            PortData::String(s) => PortValue::Text(s@),
            PortData::Int(i) => PortValue::Int(*i),
            PortData::Bool(b) => PortValue::Bool(*b),
            PortData::Empty => PortValue::Empty,
        }
    }
}

impl PortData {
    pub fn is_empty(&self) -> (r: bool)
        ensures
            r == (self@ is Empty),
    {
        match self {
            PortData::Empty => true,
            _ => false,
        }
    }
}

/// The four little-endian bytes of `u`.
pub open spec fn le_bytes(u: u32) -> Seq<u8> {
    seq![(u & 0xff) as u8, ((u >> 8) & 0xff) as u8, ((u >> 16) & 0xff) as u8, ((u >> 24) & 0xff) as u8]
}

/// An `i32` shifted into the range of a `u32`, order kept.
pub open spec fn biased(i: i32) -> u32 {
    (i as int + 0x8000_0000) as u32
}

/// Bytes that describe a port value in a message header: a tag byte, then the payload.
pub open spec fn descriptor(v: PortValue) -> Seq<u8> {
    match v {
        PortValue::File(p) => seq![0u8] + encode_utf8(p),
        PortValue::Text(s) => seq![1u8] + encode_utf8(s),
        PortValue::Int(i) => seq![2u8] + le_bytes(biased(i)),
        PortValue::Bool(b) => seq![3u8, if b { 1u8 } else { 0u8 }],
        PortValue::Empty => seq![4u8],
    }
}

/// Bytes that describe some port value.
pub open spec fn is_descriptor(b: Seq<u8>) -> bool {
    exists|v: PortValue| descriptor(v) == b
}

/// Distinct port values have distinct descriptors.
pub proof fn lemma_descriptor_injective(v: PortValue, w: PortValue)
    requires
        descriptor(v) == descriptor(w),
    ensures
        v == w,
{
    let b = descriptor(v);
    assert(b[0] == descriptor(w)[0]);
    match (v, w) {
        (PortValue::File(p), PortValue::File(q)) => {
            assert(b.drop_first() == encode_utf8(p));
            assert(descriptor(w).drop_first() == encode_utf8(q));
            encode_utf8_decode_utf8(p);
            encode_utf8_decode_utf8(q);
        },
        (PortValue::Text(p), PortValue::Text(q)) => {
            assert(b.drop_first() == encode_utf8(p));
            assert(descriptor(w).drop_first() == encode_utf8(q));
            encode_utf8_decode_utf8(p);
            encode_utf8_decode_utf8(q);
        },
        (PortValue::Int(i), PortValue::Int(j)) => {
            let (x, y) = (biased(i), biased(j));
            assert(b.drop_first() == le_bytes(x));
            assert(descriptor(w).drop_first() == le_bytes(y));
            lemma_le_bytes(x);
            lemma_le_bytes(y);
        },
        _ => {},
    }
}

proof fn lemma_le_bytes(u: u32)
    ensures
        (u & 0xff) < 256,
        ((u >> 8) & 0xff) < 256,
        ((u >> 16) & 0xff) < 256,
        ((u >> 24) & 0xff) < 256,
        ((u & 0xff) | (((u >> 8) & 0xff) << 8) | (((u >> 16) & 0xff) << 16) | (((u >> 24) & 0xff) << 24)) == u,
{
    assert((u & 0xff) < 256) by (bit_vector);
    assert(((u >> 8) & 0xff) < 256) by (bit_vector);
    assert(((u >> 16) & 0xff) < 256) by (bit_vector);
    assert(((u >> 24) & 0xff) < 256) by (bit_vector);
    assert(((u & 0xff) | (((u >> 8) & 0xff) << 8) | (((u >> 16) & 0xff) << 16) | (((u >> 24) & 0xff) << 24)) == u)
        by (bit_vector);
}


/// Relies on `String::from_utf8`: it succeeds exactly on valid UTF-8 and keeps the bytes.
#[verifier::external_body]
pub(crate) fn string_from_utf8(b: Vec<u8>) -> (r: Option<String>)
    ensures
        r is Some <==> valid_utf8(b@),
        r matches Some(s) ==> encode_utf8(s@) == b@,
{
    String::from_utf8(b).ok()
}

fn push_str_bytes(out: &mut Vec<u8>, s: &String)
    ensures
        final(out)@ == old(out)@ + encode_utf8(s@),
{
    let b = s.as_str().as_bytes();
    let mut i: usize = 0;
    while i < b.len()
        invariant
            i <= b.len(),
            b@ == encode_utf8(s@),
            out@ == old(out)@ + b@.take(i as int),
        decreases b.len() - i,
    {
        out.push(b[i]);
        assert(b@.take(i + 1) == b@.take(i as int).push(b@[i as int]));
        i = i + 1;
    }
    assert(b@.take(b.len() as int) == b@);
}

fn bytes_from(b: &[u8], start: usize) -> (r: Vec<u8>)
    requires
        start <= b@.len(),
    ensures
        r@ == b@.skip(start as int),
{
    let mut r: Vec<u8> = Vec::new();
    let mut i: usize = start;
    while i < b.len()
        invariant
            start <= i <= b.len(),
            r@ == b@.subrange(start as int, i as int),
        decreases b.len() - i,
    {
        r.push(b[i]);
        i = i + 1;
    }
    r
}

/// Encodes a port value as its header descriptor.
pub fn encode_descriptor(v: &PortData) -> (r: Vec<u8>)
    ensures
        r@ == descriptor(v@),
{
    let mut out: Vec<u8> = Vec::new();
    match v {
        PortData::File(p) => {
            out.push(0u8);
            push_str_bytes(&mut out, p);
        },
        PortData::String(t) => {
            out.push(1u8);
            push_str_bytes(&mut out, t);
        },
        PortData::Int(i) => {
            let u: u32 = (*i as i64 + 0x8000_0000i64) as u32;
            assert(u == biased(*i));
            out.push(2u8);
            out.push((u & 0xff) as u8);
            out.push(((u >> 8) & 0xff) as u8);
            out.push(((u >> 16) & 0xff) as u8);
            out.push(((u >> 24) & 0xff) as u8);
        },
        PortData::Bool(b) => {
            out.push(3u8);
            out.push(if *b { 1u8 } else { 0u8 });
        },
        PortData::Empty => {
            out.push(4u8);
        },
    }
    out
}

/// Decodes a header descriptor; fails exactly on bytes that describe no port value.
pub fn decode_descriptor(b: &[u8]) -> (r: Option<PortData>)
    ensures
        r is Some <==> is_descriptor(b@),
        r matches Some(v) ==> descriptor(v@) == b@,
{
    if b.len() == 0 {
        proof {
            if is_descriptor(b@) {
                let v = choose|v: PortValue| descriptor(v) == b@;
                assert(descriptor(v).len() >= 1);
            }
        }
        return None;
    }
    let tag = b[0];
    if tag == 0 || tag == 1 {
        let rest = bytes_from(b, 1);
        assert(b@ == seq![tag] + rest@);
        match string_from_utf8(rest) {
            Some(s) => {
                let v = if tag == 0 {
                    PortData::File(s)
                } else {
                    PortData::String(s)
                };
                assert(descriptor(v@) == b@);
                Some(v)
            },
            None => {
                proof {
                    if is_descriptor(b@) {
                        let v = choose|v: PortValue| descriptor(v) == b@;
                        match v {
                            PortValue::File(p) => {
                                assert(descriptor(v).drop_first() == encode_utf8(p));
                                encode_utf8_valid_utf8(p);
                            },
                            PortValue::Text(p) => {
                                assert(descriptor(v).drop_first() == encode_utf8(p));
                                encode_utf8_valid_utf8(p);
                            },
                            _ => {},
                        }
                    }
                }
                None
            },
        }
    } else if tag == 2 && b.len() == 5 {
        let u: u32 = (b[1] as u32) | ((b[2] as u32) << 8) | ((b[3] as u32) << 16) | ((b[4] as u32) << 24);
        let i: i32 = (u as i64 - 0x8000_0000i64) as i32;
        proof {
            let (b1, b2, b3, b4) = (b@[1], b@[2], b@[3], b@[4]);
            assert(((u & 0xff) as u8 == b1 && ((u >> 8) & 0xff) as u8 == b2 && ((u >> 16) & 0xff) as u8 == b3 && ((u >> 24) & 0xff) as u8 == b4)) by {
                let (x1, x2, x3, x4) = (b1 as u32, b2 as u32, b3 as u32, b4 as u32);
                assert(x1 < 256 && x2 < 256 && x3 < 256 && x4 < 256);
                assert(u == (x1 | (x2 << 8) | (x3 << 16) | (x4 << 24)));
                assert(x1 < 256 && x2 < 256 && x3 < 256 && x4 < 256 && u == (x1 | (x2 << 8) | (x3 << 16) | (x4 << 24)) ==> (u & 0xff) == x1 && ((u >> 8) & 0xff) == x2 && ((u >> 16) & 0xff) == x3 && ((u >> 24) & 0xff) == x4) by (bit_vector);
            }
            assert(biased(i) == u);
            assert(descriptor(PortValue::Int(i)) == b@);
        }
        Some(PortData::Int(i))
    } else if tag == 3 && b.len() == 2 && b[1] <= 1 {
        let v = PortData::Bool(b[1] == 1);
        assert(descriptor(v@) == b@);
        Some(v)
    } else if tag == 4 && b.len() == 1 {
        assert(descriptor(PortValue::Empty) == b@);
        Some(PortData::Empty)
    } else {
        proof {
            if is_descriptor(b@) {
                let v = choose|v: PortValue| descriptor(v) == b@;
                assert(descriptor(v)[0] == tag);
                match v {
                    PortValue::Int(i) => {
                        assert(descriptor(v).len() == 5);
                    },
                    PortValue::Bool(x) => {
                        assert(descriptor(v).len() == 2);
                        assert(descriptor(v)[1] <= 1);
                    },
                    PortValue::Empty => {
                        assert(descriptor(v).len() == 1);
                    },
                    _ => {},
                }
            }
        }
        None
    }
}

} // verus!
