//! Dataflow decisions: what a send transmits, what a receive stores, and the port table.

use vstd::prelude::*;
use vstd::string::StringExecFns;

use crate::port::{descriptor, encode_descriptor, decode_descriptor, is_descriptor, PortData, PortValue};

verus! {

/// Fatal conditions of the dataflow layer.
#[derive(Clone, Debug, PartialEq, Eq)]
pub enum SwirlError {
    /// A send, broadcast or step argument on a port that holds `Empty`.
    EmptyValue,
    /// A file value whose path has no file name.
    NoFileName,
    /// Header bytes that describe no port value.
    BadDescriptor,
    /// A step's standard output that is not UTF-8.
    OutputNotText,
    /// A step's output pattern matched no file.
    NoOutputFile,
    /// A step's output pattern matched several files.
    MultipleOutputFiles,
    /// A wait for data ended with the port still empty.
    PortUnderflow,
}

/// What `Path::file_name` gives for a path: its last normal component, if any.
pub uninterp spec fn file_name_of(path: Seq<char>) -> Option<Seq<char>>;

/// A single normal path component: non-empty, without a separator, and not `..`.
pub open spec fn is_file_name(n: Seq<char>) -> bool {
    n.len() > 0 && !n.contains('/') && n != ".."@
}

/// Relies on `std::path::Path::file_name`: the last component of the path, unless the path
/// ends in `..` or is a root or empty; that component is a normal one. A component of a `str`
/// path is itself valid text.
#[verifier::external_body]
pub(crate) fn file_name(path: &str) -> (r: Option<String>)
    ensures
        r is Some <==> file_name_of(path@) is Some,
        r matches Some(n) ==> file_name_of(path@) == Some(n@) && is_file_name(n@),
{
    std::path::Path::new(path).file_name().and_then(|n| n.to_str()).map(|n| n.to_string())
}

/// How a port value travels: a file is streamed as the body, anything else rides in the
/// header with an empty body.
#[derive(Clone, Debug, PartialEq, Eq)]
pub enum Outgoing {
    /// Stream the file at `path`; the header carries `descriptor`.
    File { path: String, descriptor: Vec<u8> },
    /// No body; the header carries `descriptor`, and the declared size is its length.
    Inline { descriptor: Vec<u8> },
}

/// What a send or broadcast of a port value transmits.
pub open spec fn outgoing_spec(v: PortValue) -> Option<(bool, Seq<u8>)> {
    match v {
        PortValue::Empty => None,
        PortValue::File(p) => match file_name_of(p) {
            Some(n) => Some((true, descriptor(PortValue::File(n)))),
            None => None,
        },
        _ => Some((false, descriptor(v))),
    }
}

/// Decides what a send or broadcast of the value `v` transmits: a file travels under its file
/// name only; other values travel in the header.
pub fn plan_send(v: &PortData) -> (r: Result<Outgoing, SwirlError>)
    ensures
        v@ is Empty <==> r matches Err(SwirlError::EmptyValue),
        r matches Err(SwirlError::NoFileName) <==> (v@ matches PortValue::File(p) && file_name_of(p) is None),
        r matches Ok(Outgoing::File { path, descriptor }) ==> v@ == PortValue::File(path@) && outgoing_spec(v@)
            == Some((true, descriptor@)),
        r matches Ok(Outgoing::File { path, descriptor: d }) ==> exists|n: Seq<char>| #[trigger] descriptor(PortValue::File(n))
            == d@ && is_file_name(n),
        r matches Ok(Outgoing::Inline { descriptor }) ==> outgoing_spec(v@) == Some((false, descriptor@)),
        r is Ok <==> outgoing_spec(v@) is Some,
{
    match v {
        PortData::Empty => Err(SwirlError::EmptyValue),
        PortData::File(path) => match file_name(path.as_str()) {
            Some(name) => {
                assert(is_file_name(name@));
                let d = encode_descriptor(&PortData::File(name));
                Ok(Outgoing::File { path: path.clone(), descriptor: d })
            },
            None => Err(SwirlError::NoFileName),
        },
        _ => Ok(Outgoing::Inline { descriptor: encode_descriptor(v) }),
    }
}

/// Permits of the connection limit.
pub const CONNECTION_PERMITS: u32 = 128;

/// Permits that a file transfer holds: one for the source and one per outgoing branch, at most
/// the whole limit so that a large fan-out cannot wait forever.
pub fn transfer_permits(branches: usize) -> (r: u32)
    ensures
        r == (if branches + 1 < CONNECTION_PERMITS { branches + 1 } else { CONNECTION_PERMITS as int }),
{
    if branches < (CONNECTION_PERMITS - 1) as usize {
        (branches + 1) as u32
    } else {
        CONNECTION_PERMITS
    }
}

/// `dir`, a slash, then `name`.
pub open spec fn joined(dir: Seq<char>, name: Seq<char>) -> Seq<char> {
    dir + seq!['/'] + name
}

/// Joins a directory and a file name with a slash.
pub fn join_path(dir: &str, name: &str) -> (r: String)
    ensures
        r@ == joined(dir@, name@),
{
    let mut r = String::from_str(dir);
    proof {
        reveal_strlit("/");
    }
    r.append("/");
    r.append(name);
    r
}

/// What a receive does with an incoming header: a file is written to `path` and the port then
/// holds `File(path)`; any other value is stored as it came.
#[derive(Clone, Debug, PartialEq, Eq)]
pub enum Incoming {
    File { path: String },
    Value(PortData),
}

/// The port value that a receive stores, given the header descriptor and the directory that
/// received files go to.
pub open spec fn received_spec(b: Seq<u8>, dir: Seq<char>) -> Option<PortValue> {
    if is_descriptor(b) {
        let v = choose|v: PortValue| descriptor(v) == b;
        match v {
            PortValue::Empty => None,
            PortValue::File(n) => Some(PortValue::File(joined(dir, n))),
            _ => Some(v),
        }
    } else {
        None
    }
}

/// Decides what a receive stores for the header descriptor `b`; received files go under `dir`.
pub fn plan_receive(b: &[u8], dir: &str) -> (r: Result<Incoming, SwirlError>)
    ensures
        r is Ok <==> received_spec(b@, dir@) is Some,
        r matches Ok(Incoming::File { path }) ==> received_spec(b@, dir@) == Some(PortValue::File(path@)),
        r matches Ok(Incoming::Value(v)) ==> received_spec(b@, dir@) == Some(v@) && !(v@ is File),
        r matches Err(e) ==> (e is BadDescriptor <==> !is_descriptor(b@)),
        r matches Err(e) ==> (e is EmptyValue <==> b@ == descriptor(PortValue::Empty)),
        r matches Err(e) ==> e is BadDescriptor || e is EmptyValue,
{
    match decode_descriptor(b) {
        None => Err(SwirlError::BadDescriptor),
        Some(v) => {
            proof {
                let w = choose|w: PortValue| descriptor(w) == b@;
                crate::port::lemma_descriptor_injective(w, v@);
            }
            match v {
                PortData::Empty => Err(SwirlError::EmptyValue),
                PortData::File(name) => Ok(Incoming::File { path: join_path(dir, name.as_str()) }),
                other => Ok(Incoming::Value(other)),
            }
        },
    }
}


/// A received value is never `Empty`: a receive leaves its port ready.
pub proof fn lemma_received_not_empty(b: Seq<u8>, dir: Seq<char>)
    ensures
        received_spec(b, dir) matches Some(v) ==> !(v is Empty),
{
}

/// A copy of a port value.
pub fn copy_value(v: &PortData) -> (r: PortData)
    ensures
        r@ == v@,
{
    match v {
        PortData::File(p) => PortData::File(p.clone()),
        PortData::String(t) => PortData::String(t.clone()),
        PortData::Int(i) => PortData::Int(*i),
        PortData::Bool(b) => PortData::Bool(*b),
        PortData::Empty => PortData::Empty,
    }
}

/// The next move of a reader that waits for a port to be ready.
#[derive(Clone, Debug, PartialEq, Eq)]
pub enum WaitStep {
    /// The value is there.
    Ready,
    /// Wait for the readiness notification, then look again.
    Wait,
}

/// Decides a reader's next move: a value ends the wait; an empty port is waited on once; an
/// empty port after the wake-up is a contract violation.
pub fn wait_step(v: &PortData, woken: bool) -> (r: Result<WaitStep, SwirlError>)
    ensures
        !(v@ is Empty) <==> r matches Ok(WaitStep::Ready),
        (v@ is Empty && !woken) <==> r matches Ok(WaitStep::Wait),
        (v@ is Empty && woken) <==> r matches Err(SwirlError::PortUnderflow),
{
    if !v.is_empty() {
        Ok(WaitStep::Ready)
    } else if !woken {
        Ok(WaitStep::Wait)
    } else {
        Err(SwirlError::PortUnderflow)
    }
}

/// The static set of named ports of a location and the value each holds.
pub struct Ports {
    names: Vec<String>,
    values: Vec<PortData>,
}

impl Ports {
    pub closed spec fn names(&self) -> Seq<Seq<char>> {
        self.names@.map_values(|n: String| n@)
    }

    pub closed spec fn values(&self) -> Seq<PortValue> {
        self.values@.map_values(|v: PortData| v@)
    }

    pub closed spec fn wf(&self) -> bool {
        self.names@.len() == self.values@.len()
    }

    /// One empty port for each name.
    pub fn new(names: Vec<String>) -> (r: Ports)
        ensures
            r.wf(),
            r.names() == names@.map_values(|n: String| n@),
            r.values() == Seq::new(names@.len(), |i: int| PortValue::Empty),
    {
        let mut values: Vec<PortData> = Vec::new();
        let mut i: usize = 0;
        while i < names.len()
            invariant
                i <= names.len(),
                values@.len() == i,
                forall|k: int| 0 <= k < i ==> values@[k]@ is Empty,
            decreases names.len() - i,
        {
            values.push(PortData::Empty);
            i = i + 1;
        }
        let r = Ports { names, values };
        assert(r.values() =~= Seq::new(names@.len(), |i: int| PortValue::Empty));
        r
    }

    /// Position of the port called `port`, if it is one of the set.
    pub fn index_of(&self, port: &str) -> (r: Option<usize>)
        requires
            self.wf(),
        ensures
            r is None <==> !self.names().contains(port@),
            r matches Some(i) ==> i < self.names().len() && self.names()[i as int] == port@ && forall|k: int|
                0 <= k < i ==> self.names()[k] != port@,
    {
        let wanted = port.to_owned();
        let mut i: usize = 0;
        while i < self.names.len()
            invariant
                wanted@ == port@,
                i <= self.names.len(),
                forall|k: int| 0 <= k < i ==> self.names()[k] != port@,
            decreases self.names.len() - i,
        {
            if self.names[i] == wanted {
                assert(self.names()[i as int] == port@);
                return Some(i);
            }
            i = i + 1;
        }
        None
    }

    /// The value of port `i`.
    pub fn read(&self, i: usize) -> (r: PortData)
        requires
            self.wf(),
            i < self.values().len(),
        ensures
            r@ == self.values()[i as int],
    {
        copy_value(&self.values[i])
    }

    /// Stores `v` in port `i`; the other ports keep their values.
    pub fn set(&mut self, i: usize, v: PortData)
        requires
            old(self).wf(),
            i < old(self).values().len(),
        ensures
            final(self).wf(),
            final(self).names() == old(self).names(),
            final(self).values() == old(self).values().update(i as int, v@),
    {
        self.values.set(i, v);
    }

    /// Empties port `i`, as a receive does before it waits.
    pub fn clear(&mut self, i: usize)
        requires
            old(self).wf(),
            i < old(self).values().len(),
        ensures
            final(self).wf(),
            final(self).names() == old(self).names(),
            final(self).values() == old(self).values().update(i as int, PortValue::Empty),
            final(self).values()[i as int] is Empty,
    {
        self.set(i, PortData::Empty);
    }
}

} // verus!
