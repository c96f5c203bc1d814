//! Local steps: command-line arguments from port values, the command line, and the value a
//! finished step publishes.

use vstd::prelude::*;
use vstd::string::StringExecFns;
use vstd::utf8::encode_utf8;

use crate::port::{string_from_utf8, PortData, PortID, PortValue};
use crate::swirl::{copy_value, file_name, file_name_of, joined, SwirlError};

verus! {

/// One argument of a step command.
#[derive(Clone, Debug, PartialEq, Eq)]
pub enum StepArgument {
    /// The value of the given port.
    Port(PortID),
    /// Literal text.
    String(String),
}

impl From<String> for StepArgument {
    fn from(s: String) -> (r: StepArgument) {
        StepArgument::String(s)
    }
}

impl vstd::std_specs::convert::FromSpecImpl<String> for StepArgument {
    open spec fn obeys_from_spec() -> bool {
        true
    }

    open spec fn from_spec(s: String) -> StepArgument {
        StepArgument::String(s)
    }
}

/// Where the result of a step comes from.
#[derive(Clone, Debug, PartialEq, Eq)]
pub enum StepOutput {
    /// The single file in the step directory that matches the pattern.
    File(String),
    /// The step's standard output.
    Stdout,
    /// The step publishes nothing; its standard output is discarded.
    Discard,
}

/// The decimal digit for `d`.
pub open spec fn digit(d: int) -> char {
    if d == 0 { '0' }
    else if d == 1 { '1' }
    else if d == 2 { '2' }
    else if d == 3 { '3' }
    else if d == 4 { '4' }
    else if d == 5 { '5' }
    else if d == 6 { '6' }
    else if d == 7 { '7' }
    else if d == 8 { '8' }
    else { '9' }
}

/// Decimal digits of a natural number, most significant first.
pub open spec fn digits(n: nat) -> Seq<char>
    decreases n,
{
    if n < 10 {
        seq![digit(n as int)]
    } else {
        digits(n / 10) + seq![digit((n % 10) as int)]
    }
}

/// Decimal text of an integer, with a leading minus sign when negative.
pub open spec fn decimal(i: int) -> Seq<char> {
    if i < 0 {
        seq!['-'] + digits((-i) as nat)
    } else {
        digits(i as nat)
    }
}

/// The one-character text of the decimal digit `d`.
pub(crate) fn digit_text(d: u64) -> (r: &'static str)
    requires
        d < 10,
    ensures
        r@ == seq![digit(d as int)],
{
    proof {
        reveal_strlit("0");
        reveal_strlit("1");
        reveal_strlit("2");
        reveal_strlit("3");
        reveal_strlit("4");
        reveal_strlit("5");
        reveal_strlit("6");
        reveal_strlit("7");
        reveal_strlit("8");
        reveal_strlit("9");
    }
    if d == 0 { "0" }
    else if d == 1 { "1" }
    else if d == 2 { "2" }
    else if d == 3 { "3" }
    else if d == 4 { "4" }
    else if d == 5 { "5" }
    else if d == 6 { "6" }
    else if d == 7 { "7" }
    else if d == 8 { "8" }
    else { "9" }
}

pub(crate) fn push_digits(out: &mut String, n: u64)
    ensures
        final(out)@ == old(out)@ + digits(n as nat),
    decreases n,
{
    if n >= 10 {
        push_digits(out, n / 10);
    }
    out.append(digit_text(n % 10));
}

/// Decimal text of `i`, as `i32`'s `Display` writes it.
pub fn decimal_text(i: i32) -> (r: String)
    ensures
        r@ == decimal(i as int),
{
    proof {
        reveal_strlit("");
        reveal_strlit("-");
    }
    let mut out = String::from_str("");
    if i < 0 {
        out.append("-");
        let n: u64 = (-(i as i64)) as u64;
        push_digits(&mut out, n);
    } else {
        push_digits(&mut out, i as u64);
    }
    out
}

/// The text that a port value stands for on a command line; a file stands for its file name,
/// which is also the name it has in the step directory.
pub open spec fn argument_spec(v: PortValue) -> Option<Seq<char>> {
    match v {
        PortValue::File(p) => file_name_of(p),
        PortValue::Text(t) => Some(t),
        PortValue::Int(i) => Some(decimal(i as int)),
        PortValue::Bool(b) => Some(if b { "true"@ } else { "false"@ }),
        PortValue::Empty => None,
    }
}

/// The command-line text of a port value.
pub fn argument_text(v: &PortData) -> (r: Result<String, SwirlError>)
    ensures
        r matches Ok(t) ==> argument_spec(v@) == Some(t@),
        r is Err <==> argument_spec(v@) is None,
        v@ is Empty ==> r matches Err(SwirlError::EmptyValue),
        r matches Err(e) ==> (e is EmptyValue || e is NoFileName),
        r matches Err(e) ==> (e is EmptyValue <==> v@ is Empty),
{
    match v {
        PortData::File(p) => match file_name(p.as_str()) {
            Some(n) => Ok(n),
            None => Err(SwirlError::NoFileName),
        },
        PortData::String(t) => Ok(t.clone()),
        PortData::Int(i) => Ok(decimal_text(*i)),
        PortData::Bool(b) => {
            if *b {
                Ok(String::from_str("true"))
            } else {
                Ok(String::from_str("false"))
            }
        },
        PortData::Empty => Err(SwirlError::EmptyValue),
    }
}

/// The argument vector of a step: each argument value becomes exactly one entry, its text.
pub fn step_argv(values: &Vec<PortData>) -> (r: Result<Vec<String>, SwirlError>)
    ensures
        r is Ok <==> forall|i: int| 0 <= i < values@.len() ==> #[trigger] argument_spec(values@[i]@) is Some,
        r matches Ok(argv) ==> argv@.len() == values@.len() && forall|i: int| 0 <= i < values@.len() ==> Some(
            #[trigger] argv@[i]@,
        ) == argument_spec(values@[i]@),
        r matches Err(e) ==> exists|i: int|
            0 <= i < values@.len() && #[trigger] argument_spec(values@[i]@) is None && (e is EmptyValue <==> values@[i]@ is Empty)
                && forall|j: int| 0 <= j < i ==> argument_spec(values@[j]@) is Some,
{
    let mut argv: Vec<String> = Vec::new();
    let mut i: usize = 0;
    while i < values.len()
        invariant
            i <= values@.len(),
            argv@.len() == i,
            forall|k: int| 0 <= k < i ==> Some(#[trigger] argv@[k]@) == argument_spec(values@[k]@),
            forall|k: int| 0 <= k < i ==> #[trigger] argument_spec(values@[k]@) is Some,
        decreases values.len() - i,
    {
        match argument_text(&values[i]) {
            Ok(t) => argv.push(t),
            Err(e) => {
                assert(argument_spec(values@[i as int]@) is None);
                return Err(e);
            },
        }
        i = i + 1;
    }
    Ok(argv)
}

/// The directory of a step under the work directory.
pub fn step_dir(workdir: &str, step_name: &str) -> (r: String)
    ensures
        r@ == joined(workdir@, "step_"@ + step_name@),
{
    let mut name = String::from_str("step_");
    name.append(step_name);
    crate::swirl::join_path(workdir, name.as_str())
}

/// The directory that received files go to under the work directory.
pub fn receive_dir(workdir: &str, self_name: &str) -> (r: String)
    ensures
        r@ == joined(workdir@, "receive_"@ + self_name@),
{
    let mut name = String::from_str("receive_");
    name.append(self_name);
    crate::swirl::join_path(workdir, name.as_str())
}

/// The value that a step publishes, from its output kind, the files its pattern matched and its
/// standard output.
pub open spec fn published(kind: StepOutput, matches: Seq<Seq<char>>, stdout: Seq<u8>) -> Result<PortValue, SwirlError> {
    match kind {
        StepOutput::File(_) => if matches.len() == 0 {
            Err(SwirlError::NoOutputFile)
        } else if matches.len() > 1 {
            Err(SwirlError::MultipleOutputFiles)
        } else {
            Ok(PortValue::File(matches[0]))
        },
        StepOutput::Stdout => if vstd::utf8::valid_utf8(stdout) {
            Ok(PortValue::Text(vstd::utf8::decode_utf8(stdout)))
        } else {
            Err(SwirlError::OutputNotText)
        },
        StepOutput::Discard => Ok(PortValue::Empty),
    }
}

/// The value that a finished step publishes: the one file that its pattern matched, its
/// standard output as text, or nothing.
pub fn publish_output(kind: &StepOutput, matches: &Vec<String>, stdout: Vec<u8>) -> (r: Result<PortData, SwirlError>)
    ensures
        match (r, published(*kind, matches@.map_values(|m: String| m@), stdout@)) {
            (Ok(v), Ok(w)) => v@ == w,
            (Err(e), Err(f)) => e == f,
            _ => false,
        },
        kind is File ==> (matches@.len() == 0 <==> r matches Err(SwirlError::NoOutputFile)),
        kind is File ==> (matches@.len() > 1 <==> r matches Err(SwirlError::MultipleOutputFiles)),
        kind is File && matches@.len() == 1 ==> (r matches Ok(v) && v@ == PortValue::File(matches@[0]@)),
        kind is Stdout ==> (r is Ok <==> vstd::utf8::valid_utf8(stdout@)),
        kind is Stdout ==> (r matches Ok(v) ==> (v@ matches PortValue::Text(t) && encode_utf8(t) == stdout@)),
        kind is Stdout ==> (r matches Err(e) ==> e is OutputNotText),
        kind is Discard ==> (r matches Ok(v) && v@ is Empty),
{
    match kind {
        StepOutput::File(_) => {
            if matches.len() == 0 {
                Err(SwirlError::NoOutputFile)
            } else if matches.len() > 1 {
                Err(SwirlError::MultipleOutputFiles)
            } else {
                assert(matches@.map_values(|m: String| m@)[0] == matches@[0]@);
                Ok(PortData::File(matches[0].clone()))
            }
        },
        StepOutput::Stdout => match string_from_utf8(stdout) {
            Some(t) => {
                proof {
                    vstd::utf8::encode_utf8_decode_utf8(t@);
                }
                Ok(PortData::String(t))
            },
            None => Err(SwirlError::OutputNotText),
        },
        StepOutput::Discard => Ok(PortData::Empty),
    }
}

} // verus!
