//! The fixed-size frame that opens every message connection: the header's plain values,
//! their binary encoding, and the words that carry a relay plan.

use vstd::prelude::*;
use vstd::utf8::encode_utf8;

use crate::directory::LocationID;
use crate::relay::{hops_of, lemma_hops_push, plan_of, RelayHop, RelayInstruction, RelayOptions, RelayPlan};

verus! {

/// Words of a relay plan: `End` is `[0]`; a relay is `[1, n]` followed, for each of its `n`
/// edges, by the sender, the destination, and the words of the edge's sub-plan.
pub open spec fn plan_words(p: RelayPlan) -> Seq<u32>
    decreases p,
{
    match p {
        RelayPlan::End => seq![0u32],
        RelayPlan::Relay(hops) => seq![1u32, hops.len() as u32] + hops_words(hops),
    }
}

/// Words of a list of edges, first edge first.
pub open spec fn hops_words(hops: Seq<RelayHop>) -> Seq<u32>
    decreases hops,
{
    if hops.len() == 0 {
        Seq::empty()
    } else {
        seq![hops[0].sender as u32, hops[0].destination as u32] + plan_words(hops[0].next) + hops_words(
            hops.drop_first(),
        )
    }
}

/// Every edge list of the plan has fewer than 2^32 edges.
pub open spec fn plan_fits(p: RelayPlan) -> bool
    decreases p,
{
    match p {
        RelayPlan::End => true,
        RelayPlan::Relay(hops) => hops.len() <= u32::MAX && hops_fit(hops),
    }
}

pub open spec fn hops_fit(hops: Seq<RelayHop>) -> bool
    decreases hops,
{
    hops.len() == 0 || (plan_fits(hops[0].next) && hops_fit(hops.drop_first()))
}

/// Reads a plan from the words at `pos`, with the position after it.
pub open spec fn parse_plan(w: Seq<u32>, pos: int) -> Option<(RelayPlan, int)>
    decreases w.len() - pos, 1int,
{
    if pos < 0 || pos >= w.len() {
        None
    } else if w[pos] == 0 {
        Some((RelayPlan::End, pos + 1))
    } else if w[pos] == 1 && pos + 1 < w.len() {
        match parse_hops(w, pos + 2, w[pos + 1] as nat) {
            Some((hops, end)) => Some((RelayPlan::Relay(hops), end)),
            None => None,
        }
    } else {
        None
    }
}

/// Reads `n` edges from the words at `pos`, with the position after them.
pub open spec fn parse_hops(w: Seq<u32>, pos: int, n: nat) -> Option<(Seq<RelayHop>, int)>
    decreases w.len() - pos, 0int,
{
    if n == 0 {
        Some((Seq::empty(), pos))
    } else if pos < 0 || pos + 1 >= w.len() || w[pos] > 0xffff || w[pos + 1] > 0xffff {
        None
    } else {
        match parse_plan(w, pos + 2) {
            Some((next, e)) => {
                if e <= pos || e > w.len() {
                    None
                } else {
                    match parse_hops(w, e, (n - 1) as nat) {
                        Some((rest, end)) => Some((
                            seq![RelayHop { sender: w[pos] as u16, destination: w[pos + 1] as u16, next }] + rest,
                            end,
                        )),
                        None => None,
                    }
                }
            },
            None => None,
        }
    }
}


proof fn lemma_plan_words_nonempty(p: RelayPlan)
    ensures
        plan_words(p).len() >= 1,
{
}

/// Reading the words of a plan, wherever they stand, gives the plan back.
pub proof fn lemma_parse_plan(p: RelayPlan, w: Seq<u32>, pos: int)
    requires
        plan_fits(p),
        0 <= pos,
        pos + plan_words(p).len() <= w.len(),
        w.subrange(pos, pos + plan_words(p).len()) == plan_words(p),
    ensures
        parse_plan(w, pos) == Some((p, pos + plan_words(p).len())),
    decreases p,
{
    let enc = plan_words(p);
    let len = enc.len() as int;
    assert(w[pos] == w.subrange(pos, pos + len)[0]);
    match p {
        RelayPlan::End => {},
        RelayPlan::Relay(hops) => {
            assert(w[pos + 1] == w.subrange(pos, pos + len)[1]);
            assert(w.subrange(pos + 2, pos + len) == enc.subrange(2, len));
            assert(enc.subrange(2, len) == hops_words(hops));
            lemma_parse_hops(hops, w, pos + 2);
        },
    }
}

/// Reading the words of a list of edges gives the list back.
pub proof fn lemma_parse_hops(hops: Seq<RelayHop>, w: Seq<u32>, pos: int)
    requires
        hops_fit(hops),
        0 <= pos,
        pos + hops_words(hops).len() <= w.len(),
        w.subrange(pos, pos + hops_words(hops).len()) == hops_words(hops),
    ensures
        parse_hops(w, pos, hops.len()) == Some((hops, pos + hops_words(hops).len())),
    decreases hops,
{
    if hops.len() > 0 {
        let h = hops[0];
        let enc = hops_words(hops);
        let len = enc.len() as int;
        let pw = plan_words(h.next);
        let pl = pw.len() as int;
        lemma_plan_words_nonempty(h.next);
        assert(w[pos] == w.subrange(pos, pos + len)[0]);
        assert(w[pos + 1] == w.subrange(pos, pos + len)[1]);
        assert(w.subrange(pos + 2, pos + 2 + pl) == enc.subrange(2, 2 + pl));
        assert(enc.subrange(2, 2 + pl) == pw);
        lemma_parse_plan(h.next, w, pos + 2);
        let e = pos + 2 + pl;
        let rest = hops.drop_first();
        assert(w.subrange(e, pos + len) == enc.subrange(2 + pl, len));
        assert(enc.subrange(2 + pl, len) == hops_words(rest));
        lemma_parse_hops(rest, w, e);
        assert(RelayHop { sender: w[pos] as u16, destination: w[pos + 1] as u16, next: h.next } == h);
        assert(seq![h] + rest == hops);
    } else {
        assert(hops == Seq::<RelayHop>::empty());
    }
}

/// What the parser accepts is the words of the plan it returns, and that plan fits.
pub proof fn lemma_parse_plan_sound(w: Seq<u32>, pos: int)
    ensures
        parse_plan(w, pos) matches Some((p, e)) ==> pos < e <= w.len() && w.subrange(pos, e) == plan_words(p)
            && plan_fits(p),
    decreases w.len() - pos, 1int,
{
    if 0 <= pos < w.len() && w[pos] == 1 && pos + 1 < w.len() {
        lemma_parse_hops_sound(w, pos + 2, w[pos + 1] as nat);
        if let Some((hops, e)) = parse_hops(w, pos + 2, w[pos + 1] as nat) {
            assert(w.subrange(pos, e) == seq![w[pos], w[pos + 1]] + w.subrange(pos + 2, e));
        }
    } else if 0 <= pos < w.len() && w[pos] == 0 {
        assert(w.subrange(pos, pos + 1) == seq![w[pos]]);
    }
}

/// What the parser accepts is the words of the edges it returns, and they fit.
pub proof fn lemma_parse_hops_sound(w: Seq<u32>, pos: int, n: nat)
    requires
        0 <= pos <= w.len(),
    ensures
        parse_hops(w, pos, n) matches Some((hops, e)) ==> pos <= e <= w.len() && w.subrange(pos, e)
            == hops_words(hops) && hops.len() == n && hops_fit(hops),
    decreases w.len() - pos, 0int,
{
    if n == 0 {
        assert(w.subrange(pos, pos) == Seq::<u32>::empty());
        assert(hops_words(Seq::<RelayHop>::empty()) == Seq::<u32>::empty());
    } else if !(pos < 0 || pos + 1 >= w.len() || w[pos] > 0xffff || w[pos + 1] > 0xffff) {
        lemma_parse_plan_sound(w, pos + 2);
        if let Some((next, e1)) = parse_plan(w, pos + 2) {
            if e1 > pos && e1 <= w.len() {
                lemma_parse_hops_sound(w, e1, (n - 1) as nat);
                if let Some((rest, e)) = parse_hops(w, e1, (n - 1) as nat) {
                    let hop = RelayHop { sender: w[pos] as u16, destination: w[pos + 1] as u16, next };
                    let hops = seq![hop] + rest;
                    assert(hops[0] == hop);
                    assert(hops.drop_first() == rest);
                    assert(hop.sender as u32 == w[pos]);
                    assert(hop.destination as u32 == w[pos + 1]);
                    if n - 1 == 0 {
                        assert(e == e1);
                    }
                    assert(w.subrange(pos, e) == seq![w[pos], w[pos + 1]] + w.subrange(pos + 2, e1) + w.subrange(e1, e));
                }
            }
        }
    }
}

proof fn lemma_hops_words_push(h: Seq<RelayHop>, x: RelayHop)
    ensures
        hops_words(h.push(x)) == hops_words(h) + seq![x.sender as u32, x.destination as u32] + plan_words(x.next),
        hops_fit(h.push(x)) == (hops_fit(h) && plan_fits(x.next)),
    decreases h.len(),
{
    if h.len() == 0 {
        assert(h == Seq::<RelayHop>::empty());
        assert(h.push(x).drop_first() == Seq::<RelayHop>::empty());
        assert(h.push(x)[0] == x);
        assert(hops_words(Seq::<RelayHop>::empty()) == Seq::<u32>::empty());
        assert(hops_fit(Seq::<RelayHop>::empty()));
        assert(hops_words(h.push(x)) == seq![x.sender as u32, x.destination as u32] + plan_words(x.next) + Seq::<u32>::empty());
    } else {
        assert(h.push(x).drop_first() == h.drop_first().push(x));
        assert(h.push(x)[0] == h[0]);
        lemma_hops_words_push(h.drop_first(), x);
        let head = seq![h[0].sender as u32, h[0].destination as u32] + plan_words(h[0].next);
        assert(hops_words(h.push(x)) == head + hops_words(h.drop_first().push(x)));
        assert(hops_words(h) == head + hops_words(h.drop_first()));
    }
}

pub(crate) proof fn lemma_hops_index(s: Seq<RelayOptions>)
    ensures
        hops_of(s).len() == s.len(),
        forall|i: int| 0 <= i < s.len() ==> #[trigger] hops_of(s)[i] == (RelayHop {
            sender: s[i].sender,
            destination: s[i].destination,
            next: plan_of(s[i].relay_instruction),
        }),
    decreases s.len(),
{
    if s.len() > 0 {
        lemma_hops_index(s.drop_last());
    }
}

proof fn lemma_hops_fit_each(h: Seq<RelayHop>, i: int)
    requires
        hops_fit(h),
        0 <= i < h.len(),
    ensures
        plan_fits(h[i].next),
    decreases h.len(),
{
    if i > 0 {
        lemma_hops_fit_each(h.drop_first(), i - 1);
    }
}

/// Appends the words of `t` to `out`; fails, leaving `out` unspecified, when some edge list
/// has 2^32 edges or more.
fn push_plan_words(t: &RelayInstruction, out: &mut Vec<u32>) -> (ok: bool)
    ensures
        ok == plan_fits(t@),
        ok ==> final(out)@ == old(out)@ + plan_words(t@),
    decreases t,
{
    match t {
        RelayInstruction::End => {
            assert(t@ == RelayPlan::End);
            out.push(0u32);
            true
        },
        RelayInstruction::Relay(v) => {
            proof {
                lemma_hops_index(v@);
                assert(t@ == RelayPlan::Relay(hops_of(v@)));
            }
            if v.len() > 0xffff_ffffusize {
                return false;
            }
            let ghost start = out@;
            out.push(1u32);
            out.push(v.len() as u32);
            let mut i: usize = 0;
            assert(v@.take(0) == Seq::<RelayOptions>::empty());
            while i < v.len()
                invariant
                    *t == RelayInstruction::Relay(*v),
                    i <= v.len(),
                    v.len() <= 0xffff_ffff,
                    out@ == start + seq![1u32, v.len() as u32] + hops_words(hops_of(v@.take(i as int))),
                    hops_fit(hops_of(v@.take(i as int))),
                decreases v.len() - i,
            {
                let o = &v[i];
                proof {
                    assert(decreases_to!(*t => (*t)->Relay_0));
                    assert((*t)->Relay_0 == *v);
                    assert(decreases_to!(*v => v@));
                    assert(decreases_to!(v@ => v@[i as int]));
                    assert(decreases_to!(v@[i as int] => v@[i as int].relay_instruction));
                    assert(decreases_to!(*t => o.relay_instruction));
                }
                let ghost before = out@;
                out.push(o.sender as u32);
                out.push(o.destination as u32);
                let ok = push_plan_words(&o.relay_instruction, out);
                proof {
                    lemma_hops_index(v@);
                    lemma_hops_push(v@.take(i as int), *o);
                    assert(v@.take(i + 1) == v@.take(i as int).push(*o));
                    let hop = RelayHop { sender: o.sender, destination: o.destination, next: plan_of(o.relay_instruction) };
                    lemma_hops_words_push(hops_of(v@.take(i as int)), hop);
                }
                if !ok {
                    proof {
                        assert(v@.take(i + 1) == v@.take(i as int).push(*o));
                        if hops_fit(hops_of(v@)) {
                            lemma_hops_fit_each(hops_of(v@), i as int);
                        }
                    }
                    return false;
                }
                i = i + 1;
            }
            assert(v@.take(v.len() as int) == v@);
            assert(t@ == RelayPlan::Relay(hops_of(v@)));
            true
        },
    }
}


/// Reads a plan from the words at `pos`, with the position after it.
fn read_plan(w: &Vec<u32>, pos: usize) -> (r: Option<(RelayInstruction, usize)>)
    ensures
        match parse_plan(w@, pos as int) {
            Some((p, e)) => r matches Some((t, e2)) && t@ == p && e2 == e,
            None => r is None,
        },
    decreases w@.len() - pos, 1int,
{
    if pos >= w.len() {
        return None;
    }
    if w[pos] == 0 {
        return Some((RelayInstruction::End, pos + 1));
    }
    if w[pos] == 1 && pos + 1 < w.len() {
        match read_hops(w, pos + 2, w[pos + 1]) {
            Some((v, e)) => Some((RelayInstruction::Relay(v), e)),
            None => None,
        }
    } else {
        None
    }
}

/// Reads `n` edges from the words at `pos`, with the position after them.
fn read_hops(w: &Vec<u32>, pos: usize, n: u32) -> (r: Option<(Vec<RelayOptions>, usize)>)
    requires
        pos <= w@.len(),
    ensures
        match parse_hops(w@, pos as int, n as nat) {
            Some((h, e)) => r matches Some((v, e2)) && hops_of(v@) == h && e2 == e,
            None => r is None,
        },
    decreases w@.len() - pos, 0int,
{
    if n == 0 {
        let v: Vec<RelayOptions> = Vec::new();
        assert(hops_of(v@) == Seq::<RelayHop>::empty());
        return Some((v, pos));
    }
    if pos >= w.len() || pos + 1 >= w.len() || w[pos] > 0xffff || w[pos + 1] > 0xffff {
        return None;
    }
    match read_plan(w, pos + 2) {
        Some((next, e)) => {
            if e <= pos || e > w.len() {
                return None;
            }
            match read_hops(w, e, n - 1) {
                Some((rest, end)) => {
                    let o = RelayOptions {
                        sender: w[pos] as u16,
                        destination: w[pos + 1] as u16,
                        relay_instruction: next,
                    };
                    let ghost tail = rest@;
                    let mut all = rest;
                    all.insert(0, o);
                    proof {
                        lemma_hops_index(all@);
                        lemma_hops_index(tail);
                        assert(all@ == seq![o] + tail);
                        assert(hops_of(all@) == seq![RelayHop { sender: o.sender, destination: o.destination, next: next@ }] + hops_of(tail));
                    }
                    Some((all, end))
                },
                None => None,
            }
        },
        None => None,
    }
}


/// Bytes of the fixed header frame at the start of every connection.
pub const MESSAGE_HEADER_SIZE: usize = 2048;

/// Bytes read from a body stream at a time.
pub const MESSAGE_CHUNK_SIZE: usize = 8 * 1024 * 1024;

/// The frame that opens every message connection.
#[derive(Debug, PartialEq, Eq)]
pub struct MessageHeader {
    /// The immediate previous hop.
    pub sender: LocationID,
    /// The location that introduced the message; receivers demultiplex by it.
    pub origin: LocationID,
    pub message_id: String,
    /// Descriptor bytes of the layer above.
    pub header_data: Vec<u8>,
    /// Size of the body that follows.
    pub size: usize,
    /// What this hop forwards, and to whom.
    pub relay_tag: RelayInstruction,
}

/// Spec view of a message header.
pub struct HeaderView {
    pub sender: LocationID,
    pub origin: LocationID,
    pub message_id: Seq<char>,
    pub header_data: Seq<u8>,
    pub size: usize,
    pub relay: RelayPlan,
}

impl View for MessageHeader {
    type V = HeaderView;

    open spec fn view(&self) -> HeaderView {
        HeaderView {
            sender: self.sender,
            origin: self.origin,
            message_id: self.message_id@,
            header_data: self.header_data@,
            size: self.size,
            relay: self.relay_tag@,
        }
    }
}

/// A header as plain values: the relay plan as its words.
pub type Wire = (u16, u16, String, Vec<u8>, u64, Vec<u32>);

pub type WireView = (u16, u16, Seq<char>, Seq<u8>, u64, Seq<u32>);

pub open spec fn wire_view(w: Wire) -> WireView {
    (w.0, w.1, w.2@, w.3@, w.4, w.5@)
}

/// The plain values that carry a header.
pub open spec fn header_wire(h: HeaderView) -> WireView {
    (h.sender, h.origin, h.message_id, h.header_data, h.size as u64, plan_words(h.relay))
}

/// Length of the bincode encoding of a header's plain values: two 2-byte ids, the id text and
/// the descriptor bytes each after an 8-byte length, the 8-byte size, and the words after an
/// 8-byte count, 4 bytes each.
pub open spec fn wire_size(w: WireView) -> nat {
    36 + encode_utf8(w.2).len() + w.3.len() + 4 * w.5.len()
}

/// Bytes that a header's serialization takes.
pub open spec fn header_size(h: HeaderView) -> nat {
    wire_size(header_wire(h))
}

/// The bytes that `bincode::serialize` gives for a header's plain values.
pub uninterp spec fn bincode_wire(w: WireView) -> Seq<u8>;

/// The plain values that `bincode::deserialize` reads from the front of some bytes.
pub uninterp spec fn bincode_read(b: Seq<u8>) -> Option<WireView>;

/// Relies on `bincode::serialize` (1.3, fixed-width little-endian integers, lengths as `u64`,
/// trailing bytes allowed): the bytes depend on the value alone, their count is `wire_size`,
/// writing these types into memory cannot fail, and `bincode::deserialize` reads the value back
/// from them whatever follows them.
#[verifier::external_body]
fn serialize_wire(w: &Wire) -> (r: Vec<u8>)
    ensures
        r@ == bincode_wire(wire_view(*w)),
        r@.len() == wire_size(wire_view(*w)),
        forall|rest: Seq<u8>| #[trigger] bincode_read(r@ + rest) == Some(wire_view(*w)),
{
    bincode::serialize(w).expect("bincode writes these types to memory without error")
}

/// Relies on `bincode::deserialize` (1.3): the value read depends on the bytes alone.
#[verifier::external_body]
fn deserialize_wire(b: &[u8]) -> (r: Option<Wire>)
    ensures
        r is Some <==> bincode_read(b@) is Some,
        r matches Some(w) ==> bincode_read(b@) == Some(wire_view(w)),
{
    bincode::deserialize(b).ok()
}

/// Why a header could not be written or read.
#[derive(Clone, Debug, PartialEq, Eq)]
pub enum HeaderError {
    /// The serialized header needs more than `MESSAGE_HEADER_SIZE` bytes.
    Oversized { size: usize },
    /// The frame does not hold a header.
    Malformed,
    /// The relay plan has a list of 2^32 edges or more, so the header is far beyond the frame.
    PlanTooLarge,
}

/// `n` zero bytes.
pub open spec fn zeros(n: nat) -> Seq<u8> {
    Seq::new(n, |i: int| 0u8)
}

/// Pads serialized header bytes to the fixed frame; bytes beyond the frame are an error.
pub fn frame_header(bytes: Vec<u8>) -> (r: Result<Vec<u8>, HeaderError>)
    ensures
        bytes@.len() <= MESSAGE_HEADER_SIZE <==> r is Ok,
        r matches Ok(f) ==> f@ == bytes@ + zeros((MESSAGE_HEADER_SIZE - bytes@.len()) as nat),
        r matches Err(e) ==> e == (HeaderError::Oversized { size: bytes@.len() as usize }),
{
    if bytes.len() > MESSAGE_HEADER_SIZE {
        return Err(HeaderError::Oversized { size: bytes.len() });
    }
    let ghost start = bytes@;
    let mut f = bytes;
    while f.len() < MESSAGE_HEADER_SIZE
        invariant
            start.len() <= f@.len() <= MESSAGE_HEADER_SIZE,
            f@ == start + zeros((f@.len() - start.len()) as nat),
        decreases MESSAGE_HEADER_SIZE - f.len(),
    {
        f.push(0u8);
    }
    Ok(f)
}

proof fn lemma_unfit_words(p: RelayPlan)
    ensures
        !plan_fits(p) ==> plan_words(p).len() > 0xffff_ffff,
    decreases p,
{
    if let RelayPlan::Relay(hops) = p {
        lemma_unfit_hops(hops);
    }
}

proof fn lemma_unfit_hops(hops: Seq<RelayHop>)
    ensures
        hops_words(hops).len() >= 3 * hops.len(),
        !hops_fit(hops) ==> hops_words(hops).len() > 0xffff_ffff,
    decreases hops,
{
    if hops.len() > 0 {
        lemma_unfit_words(hops[0].next);
        lemma_plan_words_nonempty(hops[0].next);
        lemma_unfit_hops(hops.drop_first());
    }
}

/// A header whose serialization fits the frame has a relay plan whose edge lists all fit.
pub proof fn lemma_small_plan_fits(v: HeaderView)
    ensures
        header_size(v) <= MESSAGE_HEADER_SIZE ==> plan_fits(v.relay),
{
    lemma_unfit_words(v.relay);
}

/// A header is determined by its plain values, so reading back the values that `encode_header`
/// wrote gives the same header.
pub proof fn lemma_header_wire_injective(v: HeaderView, w: HeaderView)
    requires
        plan_fits(v.relay) || header_size(v) <= MESSAGE_HEADER_SIZE,
        plan_fits(w.relay) || header_size(w) <= MESSAGE_HEADER_SIZE,
        header_wire(v) == header_wire(w),
    ensures
        v == w,
{
    lemma_small_plan_fits(v);
    lemma_small_plan_fits(w);
    let words = plan_words(v.relay);
    assert(words.subrange(0, words.len() as int) == words);
    lemma_parse_plan(v.relay, words, 0);
    lemma_parse_plan(w.relay, words, 0);
}

/// Serializes a header into its fixed frame.
pub fn encode_header(h: &MessageHeader) -> (r: Result<Vec<u8>, HeaderError>)
    ensures
        r is Ok <==> header_size(h@) <= MESSAGE_HEADER_SIZE,
        r is Ok ==> plan_fits(h@.relay),
        plan_fits(h@.relay) ==> bincode_wire(header_wire(h@)).len() == header_size(h@),
        r matches Ok(f) ==> f@.len() == MESSAGE_HEADER_SIZE,
        r matches Ok(f) ==> f@ == bincode_wire(header_wire(h@)) + zeros(
            (MESSAGE_HEADER_SIZE - bincode_wire(header_wire(h@)).len()) as nat,
        ),
        r matches Ok(f) ==> bincode_read(f@) == Some(header_wire(h@)),
        r matches Err(HeaderError::Oversized { size }) ==> size == header_size(h@),
        r matches Err(e) ==> e is Oversized || (e is PlanTooLarge && !plan_fits(h@.relay)),
{
    let mut words: Vec<u32> = Vec::new();
    if !push_plan_words(&h.relay_tag, &mut words) {
        proof {
            lemma_unfit_words(h@.relay);
        }
        return Err(HeaderError::PlanTooLarge);
    }
    assert(words@ == plan_words(h@.relay));
    let w: Wire = (h.sender, h.origin, h.message_id.clone(), h.header_data.clone(), h.size as u64, words);
    assert(h.header_data@ == w.3@);
    assert(wire_view(w) == header_wire(h@));
    let bytes = serialize_wire(&w);
    let ghost b = bytes@;
    let n = bytes.len();
    assert(b.len() == header_size(h@));
    let r = frame_header(bytes);
    proof {
        lemma_small_plan_fits(h@);
        if r is Err {
            assert(r->Err_0 == (HeaderError::Oversized { size: b.len() as usize }));
            assert(n == b.len());
        }
        if r is Ok {
            let pad = zeros((MESSAGE_HEADER_SIZE - b.len()) as nat);
            assert(bincode_read(b + pad) == Some(wire_view(w)));
        }
    }
    r
}

/// `frame` holds the header `v`: bincode reads its plain values from the front, and its plan
/// fits (as every header that fits the frame does).
pub open spec fn holds_header(frame: Seq<u8>, v: HeaderView) -> bool {
    bincode_read(frame) == Some(header_wire(v)) && (plan_fits(v.relay) || header_size(v) <= MESSAGE_HEADER_SIZE)
}

proof fn lemma_plan_of_wire(v: HeaderView)
    requires
        plan_fits(v.relay) || header_size(v) <= MESSAGE_HEADER_SIZE,
    ensures
        parse_plan(plan_words(v.relay), 0) == Some((v.relay, plan_words(v.relay).len() as int)),
{
    let words = plan_words(v.relay);
    assert(words.subrange(0, words.len() as int) == words);
    lemma_small_plan_fits(v);
    lemma_parse_plan(v.relay, words, 0);
}

/// Reads a header from its frame.
pub fn decode_header(frame: &[u8]) -> (r: Result<MessageHeader, HeaderError>)
    ensures
        forall|v: HeaderView| #[trigger] holds_header(frame@, v) ==> (r matches Ok(h) && h@ == v),
        r matches Ok(h) ==> bincode_read(frame@) == Some(header_wire(h@)),
        r matches Err(e) ==> e is Malformed,
{
    let w = match deserialize_wire(frame) {
        Some(w) => w,
        None => return Err(HeaderError::Malformed),
    };
    let ghost wv = wire_view(w);
    let (sender, origin, message_id, header_data, size, words) = w;
    proof {
        assert forall|v: HeaderView| #[trigger] holds_header(frame@, v) implies header_wire(v) == wv && parse_plan(words@, 0)
            == Some((v.relay, words@.len() as int)) by {
            lemma_plan_of_wire(v);
        }
    }
    if size > usize::MAX as u64 {
        return Err(HeaderError::Malformed);
    }
    match read_plan(&words, 0) {
        Some((relay_tag, end)) => {
            if end != words.len() {
                return Err(HeaderError::Malformed);
            }
            let h = MessageHeader { sender, origin, message_id, header_data, size: size as usize, relay_tag };
            proof {
                lemma_parse_plan_sound(words@, 0);
                assert(words@.subrange(0, words@.len() as int) == words@);
                assert(header_wire(h@) == wv);
            }
            Ok(h)
        },
        None => Err(HeaderError::Malformed),
    }
}

} // verus!
