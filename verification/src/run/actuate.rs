//! Devices on the end of a wire.
use vstd::prelude::*;
use crate::text::{append, char_count, find_text, first_index, owned, same, slice, trim_of, trimmed};

verus! {

/// A device on the end of a wire: one line out, one line back.
pub trait Device {
    /// Send one line and read one line back.
    fn send(&self, line: &str) -> Result<String, String>;

    /// What the panel calls it.
    fn describe(&self) -> String;
}

} // verus!

verus! {

/// What came back from a device.
#[derive(Debug, Clone, PartialEq, Eq)]
pub struct Reply {
    /// What to tell the model.
    pub text: String,
    /// Telemetry for the `state` port, when the device said something about
    /// where it is.
    pub state: Option<String>,
    /// Set when the device raised a fault. The `fault` port fires and, if it
    /// is wired to one, a Toolbox stops taking calls.
    pub fault: Option<String>,
}

impl Reply {
    pub fn said(text: String) -> (r: Reply)
        ensures
            r.text@ == text@,
            r.state is None,
            r.fault is None,
    {
        Reply { text, state: None, fault: None }
    }

    pub fn with_state(self, state: String) -> (r: Reply)
        ensures
            r.text@ == self.text@,
            r.state matches Some(s) && s@ == state@,
            r.fault == self.fault,
    {
        Reply { text: self.text, state: Some(state), fault: self.fault }
    }

    pub fn faulted(self, why: String) -> (r: Reply)
        ensures
            r.text@ == self.text@,
            r.state == self.state,
            r.fault matches Some(f) && f@ == why@,
    {
        Reply { text: self.text, state: self.state, fault: Some(why) }
    }
}

/// A controller's line as one word and the rest: `ok`, `at <pan> <tilt>`,
/// or `fault <why>`, cut at the first space once the ends are trimmed.
pub open spec fn word_and_rest(said: Seq<char>) -> (Seq<char>, Seq<char>) {
    let t = trim_of(said);
    match first_index(t, " "@) {
        Some(i) => (t.take(i), t.skip(i + 1)),
        None => (t, seq![]),
    }
}

/// What a controller said back, read as far as words go. Where it is, the
/// numbers after `at`, and where it was aimed, are read by the caller.
#[derive(Debug, Clone, PartialEq, Eq)]
pub enum Reading {
    /// It raised a fault: the reply to the model, with the fault set.
    Fault(Reply),
    /// It says where it is: the rest of the line, holding the numbers.
    At(String),
    /// It took the command, saying `ok` or nothing at all: silence from a
    /// controller that took the command is a controller that took it.
    Took,
    /// Anything else is passed through as something the device said: a
    /// controller nobody wrote is allowed to be chatty.
    Passed(Reply),
}

pub fn reading(said: &str) -> (r: Reading)
    ensures
        ({
            let (word, rest) = word_and_rest(said@);
            if word == "fault"@ || word == "FAULT"@ {
                &&& r matches Reading::Fault(reply)
                &&& reply.text@ == "the motors reported a fault: "@ + rest
                &&& reply.state is None
                &&& reply.fault matches Some(f)
                &&& f@ == (if rest.len() == 0 { "fault"@ } else { rest })
            } else if word == "at"@ {
                (r matches Reading::At(x) && x@ == rest)
            } else if word.len() == 0 || word == "ok"@ || word == "OK"@ {
                r is Took
            } else {
                &&& r matches Reading::Passed(reply)
                &&& reply.text@ == trim_of(said@)
                &&& reply.state is None
                &&& reply.fault is None
            }
        }),
{
    let t = trimmed(said);
    let n = char_count(t.as_str());
    let (word, rest) = match find_text(t.as_str(), " ") {
        Some(i) => {
            proof {
                crate::run::blocks::lemma_found_fits(t@, " "@, 0);
                reveal_strlit(" ");
            }
            let w = slice(t.as_str(), 0, i);
            let r = slice(t.as_str(), i + 1, n);
            proof {
                assert(t@.subrange(0, i as int) =~= t@.take(i as int));
                assert(t@.subrange(i + 1, n as int) =~= t@.skip(i + 1));
            }
            (w, r)
        },
        None => (t.clone(), String::new()),
    };
    if same(word.as_str(), "fault") || same(word.as_str(), "FAULT") {
        let mut text = owned("the motors reported a fault: ");
        append(&mut text, rest.as_str());
        let why = if char_count(rest.as_str()) == 0 { owned("fault") } else { rest };
        Reading::Fault(Reply::said(text).faulted(why))
    } else if same(word.as_str(), "at") {
        Reading::At(rest)
    } else if char_count(word.as_str()) == 0 || same(word.as_str(), "ok") || same(word.as_str(), "OK") {
        Reading::Took
    } else {
        Reading::Passed(Reply::said(t))
    }
}

} // verus!
