//! Log line prefixes and progress-trace records.

use vstd::prelude::*;
use vstd::string::StringExecFns;

verus! {

/// `[time] [location] >>> `, or `[time] [location] [step] >>> ` inside a step.
pub open spec fn prelude_text(time: Seq<char>, location: Seq<char>, step: Option<Seq<char>>) -> Seq<char> {
    let step_part = match step {
        Some(s) => " ["@ + s + "]"@,
        None => Seq::empty(),
    };
    "["@ + time + "] ["@ + location + "]"@ + step_part + " >>> "@
}

/// The prefix of a log line; `time` is the wall-clock time as `HH:MM:SS`.
pub fn debug_prelude(time: &str, location: &str, step_name: Option<&String>) -> (r: String)
    ensures
        r@ == prelude_text(time@, location@, match step_name {
            Some(s) => Some(s@),
            None => None,
        }),
{
    proof {
        reveal_strlit("[");
        reveal_strlit("] [");
        reveal_strlit("]");
        reveal_strlit(" [");
        reveal_strlit(" >>> ");
    }
    let mut r = String::from_str("[");
    r.append(time);
    r.append("] [");
    r.append(location);
    r.append("]");
    if let Some(s) = step_name {
        r.append(" [");
        r.append(s.as_str());
        r.append("]");
    }
    r.append(" >>> ");
    r
}

/// `[time] REGISTERED <executor>` and a line feed.
pub open spec fn registered_text(time: Seq<char>, executor: Seq<char>) -> Seq<char> {
    "["@ + time + "] REGISTERED <"@ + executor + ">\n"@
}

/// `[time] UNREGISTERED <executor>` and a line feed.
pub open spec fn unregistered_text(time: Seq<char>, executor: Seq<char>) -> Seq<char> {
    "["@ + time + "] UNREGISTERED <"@ + executor + ">\n"@
}

/// `[time] BEGIN <executor> <task> "label" ` and a line feed.
pub open spec fn begin_text(time: Seq<char>, executor: Seq<char>, task: Seq<char>, label: Seq<char>) -> Seq<char> {
    "["@ + time + "] BEGIN <"@ + executor + "> <"@ + task + "> \""@ + label + "\"\n"@
}

/// `[time] END <executor> <task>` and a line feed.
pub open spec fn end_text(time: Seq<char>, executor: Seq<char>, task: Seq<char>) -> Seq<char> {
    "["@ + time + "] END <"@ + executor + "> <"@ + task + ">\n"@
}

/// Progress-trace line for an executor that starts.
pub fn registered_record(time: &str, executor: &str) -> (r: String)
    ensures
        r@ == registered_text(time@, executor@),
{
    let mut r = String::from_str("[");
    r.append(time);
    r.append("] REGISTERED <");
    r.append(executor);
    r.append(">\n");
    r
}

/// Progress-trace line for an executor that stops.
pub fn unregistered_record(time: &str, executor: &str) -> (r: String)
    ensures
        r@ == unregistered_text(time@, executor@),
{
    let mut r = String::from_str("[");
    r.append(time);
    r.append("] UNREGISTERED <");
    r.append(executor);
    r.append(">\n");
    r
}

/// Progress-trace line for a task that begins; `task` is its fresh id.
pub fn begin_record(time: &str, executor: &str, task: &str, label: &str) -> (r: String)
    ensures
        r@ == begin_text(time@, executor@, task@, label@),
{
    let mut r = String::from_str("[");
    r.append(time);
    r.append("] BEGIN <");
    r.append(executor);
    r.append("> <");
    r.append(task);
    r.append("> \"");
    r.append(label);
    r.append("\"\n");
    r
}

/// Progress-trace line for a task that ends.
pub fn end_record(time: &str, executor: &str, task: &str) -> (r: String)
    ensures
        r@ == end_text(time@, executor@, task@),
{
    let mut r = String::from_str("[");
    r.append(time);
    r.append("] END <");
    r.append(executor);
    r.append("> <");
    r.append(task);
    r.append(">\n");
    r
}

} // verus!
