//! The Ollama provider: a chat model running on this machine.
//!
//! The asking is HTTP and belongs to the daemon. What is here is where the
//! provider is, whether that is this machine, and what a person reads when
//! nothing answers there.
use vstd::prelude::*;
use crate::run::model::ModelError;
use crate::run::talk::{call_names, ToolCall};
use crate::text::{append, char_count, chars_of, decimal, decimal_of, find_text, first_index, owned, slice, trim_of, trimmed};

verus! {

/// Where Ollama listens unless told otherwise.
pub const DEFAULT_ENDPOINT: &'static str = "http://127.0.0.1:11434";

/// The text with every `/` at its end taken off.
pub open spec fn without_trailing_slash(s: Seq<char>) -> Seq<char>
    decreases s.len(),
{
    if s.len() > 0 && s.last() == '/' { without_trailing_slash(s.drop_last()) } else { s }
}

/// The endpoint a provider talks to: the one given, trimmed, unless it is
/// blank, else the local default; either way with no `/` at its end.
pub open spec fn endpoint_of(given: Option<Seq<char>>) -> Seq<char> {
    let chosen = match given {
        Some(e) => if trim_of(e).len() > 0 { trim_of(e) } else { "http://127.0.0.1:11434"@ },
        None => "http://127.0.0.1:11434"@,
    };
    without_trailing_slash(chosen)
}

/// A chat model served by Ollama.
pub struct Ollama {
    endpoint: String,
}

impl Ollama {
    pub closed spec fn endpoint_text(&self) -> Seq<char> {
        self.endpoint@
    }

    pub fn new(endpoint: Option<&str>) -> (o: Ollama)
        ensures
            o.endpoint_text() == endpoint_of(match endpoint { Some(e) => Some(e@), None => None }),
    {
        let chosen = match endpoint {
            Some(e) => {
                let t = trimmed(e);
                if char_count(t.as_str()) > 0 {
                    t
                } else {
                    proof { reveal_strlit("http://127.0.0.1:11434"); }
                    owned(DEFAULT_ENDPOINT)
                }
            },
            None => owned(DEFAULT_ENDPOINT),
        };
        let cs = chars_of(chosen.as_str());
        let mut n = cs.len();
        proof { assert(cs@.take(n as int) =~= cs@); }
        while n > 0 && cs[n - 1] == '/'
            invariant
                n <= cs@.len(),
                cs@ == chosen@,
                without_trailing_slash(chosen@) == without_trailing_slash(cs@.take(n as int)),
            decreases n,
        {
            proof { assert(cs@.take(n as int).drop_last() =~= cs@.take(n - 1)); }
            n = n - 1;
        }
        proof {
            assert(without_trailing_slash(cs@.take(n as int)) == cs@.take(n as int));
            assert(chosen@.subrange(0, n as int) =~= cs@.take(n as int));
        }
        Ollama { endpoint: slice(chosen.as_str(), 0, n) }
    }

    pub fn endpoint(&self) -> (e: &str)
        ensures
            e@ == self.endpoint_text(),
    {
        self.endpoint.as_str()
    }

    /// True unless the endpoint was pointed somewhere else. A local model is
    /// free and needs no warning; one reached over a network is neither.
    pub fn local(&self) -> (r: bool)
        ensures
            r == (first_index(self.endpoint_text(), "127.0.0.1"@) is Some
                || first_index(self.endpoint_text(), "localhost"@) is Some
                || first_index(self.endpoint_text(), "[::1]"@) is Some),
    {
        find_text(self.endpoint.as_str(), "127.0.0.1").is_some()
            || find_text(self.endpoint.as_str(), "localhost").is_some()
            || find_text(self.endpoint.as_str(), "[::1]").is_some()
    }

    /// Where the models it holds are listed.
    pub fn tags_url(&self) -> (u: String)
        ensures
            u@ == self.endpoint_text() + "/api/tags"@,
    {
        let mut u = owned(self.endpoint.as_str());
        append(&mut u, "/api/tags");
        u
    }

    /// Where a conversation is sent.
    pub fn chat_url(&self) -> (u: String)
        ensures
            u@ == self.endpoint_text() + "/api/chat"@,
    {
        let mut u = owned(self.endpoint.as_str());
        append(&mut u, "/api/chat");
        u
    }
}

/// What went wrong reaching a server, as far as a person's message reads
/// it: whether there was no connection at all, and what the failure said.
pub struct Failure {
    pub connecting: bool,
    pub said: String,
}

/// What a person reads when the provider does not answer. "Connection
/// refused" is not a sentence to show a person, and the fix is always the
/// same, so the message names it; anything else is said as it was.
pub fn unreachable_message(endpoint: &str, failure: &Failure) -> (m: String)
    ensures
        failure.connecting ==> m@ == "no Ollama at "@ + endpoint@ + " — is `ollama serve` running?"@,
        !failure.connecting ==> m@ == endpoint@ + ": "@ + failure.said@,
{
    if failure.connecting {
        let mut m = owned("no Ollama at ");
        append(&mut m, endpoint);
        append(&mut m, " — is `ollama serve` running?");
        m
    } else {
        let mut m = owned(endpoint);
        append(&mut m, ": ");
        append(&mut m, failure.said.as_str());
        m
    }
}

} // verus!

verus! {

/// One line of a streamed answer, as the daemon read it from the JSON: a
/// piece of text, tool calls, and, on the last line, what it cost.
pub struct Chunk<A> {
    pub content: String,
    pub calls: Vec<ToolCall<A>>,
    pub done: bool,
    pub prompt_eval_count: Option<u32>,
    pub eval_count: Option<u32>,
    pub eval_duration: Option<u64>,
    pub error: Option<String>,
}

/// An answer arriving a line at a time: the text so far, the tool calls so
/// far, and the counts the last line reports.
pub struct Streamed<A> {
    text: String,
    calls: Vec<ToolCall<A>>,
    tokens_in: u32,
    tokens_out: u32,
    nanos: u64,
}

impl<A> Streamed<A> {
    pub closed spec fn text(&self) -> Seq<char> {
        self.text@
    }

    pub closed spec fn calls(&self) -> Seq<Seq<char>> {
        call_names(self.calls@)
    }

    /// The tool calls so far, with their arguments, in the order they came.
    pub closed spec fn gathered(&self) -> Seq<ToolCall<A>> {
        self.calls@
    }

    pub closed spec fn counts(&self) -> (u32, u32, u64) {
        (self.tokens_in, self.tokens_out, self.nanos)
    }

    pub fn new() -> (s: Streamed<A>)
        ensures
            s.text() == Seq::<char>::empty(),
            s.calls() == Seq::<Seq<char>>::empty(),
            s.gathered() == Seq::<ToolCall<A>>::empty(),
            s.counts() == (0u32, 0u32, 0u64),
    {
        let s = Streamed { text: String::new(), calls: Vec::new(), tokens_in: 0, tokens_out: 0, nanos: 0 };
        proof { assert(call_names(s.calls@) =~= Seq::<Seq<char>>::empty()); }
        s
    }

    /// Take one line. A line carrying an error is the provider saying no.
    /// Otherwise its text joins the answer — and is handed back, to be shown
    /// while the rest is still being written — its calls join the calls, and
    /// the last line's counts are the turn's.
    pub fn take(&mut self, chunk: Chunk<A>) -> (r: Result<Option<String>, ModelError>)
        ensures
            match chunk.error {
                Some(e) => r matches Err(ModelError::Refused(m)) && m@ == e@,
                None => {
                    &&& final(self).text() == old(self).text() + chunk.content@
                    &&& final(self).calls() == old(self).calls() + call_names(chunk.calls@)
                    &&& final(self).gathered() == old(self).gathered() + chunk.calls@
                    &&& final(self).counts() == if chunk.done {
                        (
                            match chunk.prompt_eval_count { Some(n) => n, None => 0u32 },
                            match chunk.eval_count { Some(n) => n, None => 0u32 },
                            match chunk.eval_duration { Some(n) => n, None => 0u64 },
                        )
                    } else {
                        old(self).counts()
                    }
                    &&& match r {
                        Ok(Some(shown)) => chunk.content@.len() > 0 && shown@ == chunk.content@,
                        Ok(None) => chunk.content@.len() == 0,
                        Err(_) => false,
                    }
                },
            },
    {
        let Chunk { content, calls, done, prompt_eval_count, eval_count, eval_duration, error } = chunk;
        match error {
            Some(e) => {
                return Err(ModelError::Refused(e));
            },
            None => {},
        }
        let shown = if char_count(content.as_str()) > 0 {
            append(&mut self.text, content.as_str());
            Some(content)
        } else {
            proof { assert(self.text@ + content@ =~= self.text@); }
            None
        };
        let ghost before = call_names(self.calls@);
        let ghost before_calls = self.calls@;
        let mut calls = calls;
        let ghost added = call_names(calls@);
        let mut k: usize = 0;
        let n = calls.len();
        let mut rest: Vec<ToolCall<A>> = Vec::new();
        std::mem::swap(&mut rest, &mut calls);
        let ghost all = rest@;
        proof { assert(call_names(all) == added); }
        while rest.len() > 0
            invariant
                k + rest@.len() == n,
                n == all.len(),
                chunk.error is None,
                self.text@ == old(self).text@ + chunk.content@,
                self.tokens_in == old(self).tokens_in,
                self.tokens_out == old(self).tokens_out,
                self.nanos == old(self).nanos,
                rest@ == all.skip(k as int),
                call_names(self.calls@) == before + call_names(all).take(k as int),
                self.calls@ == before_calls + all.take(k as int),
                before_calls == old(self).calls@,
                all == chunk.calls@,
            decreases rest.len(),
        {
            let call = rest.remove(0);
            proof {
                assert(call == all[k as int]);
                assert(all.skip(k as int).drop_first() =~= all.skip(k + 1));
            }
            let ghost prev = call_names(self.calls@);
            self.calls.push(call);
            proof {
                assert(all.take(k + 1) =~= all.take(k as int).push(all[k as int]));
                assert(self.calls@ =~= before_calls + all.take(k + 1));
                assert(call_names(self.calls@) =~= prev.push(all[k as int].name@));
                assert(call_names(all).take(k + 1) =~= call_names(all).take(k as int).push(all[k as int].name@));
            }
            k = k + 1;
        }
        proof {
            assert(call_names(all).take(n as int) =~= call_names(all));
            assert(all.take(n as int) =~= all);
        }
        if done {
            self.tokens_in = match prompt_eval_count { Some(c) => c, None => 0 };
            self.tokens_out = match eval_count { Some(c) => c, None => 0 };
            self.nanos = match eval_duration { Some(c) => c, None => 0 };
        }
        Ok(shown)
    }

    /// The answer: its text and its tool calls.
    pub fn into_turn(self) -> (t: (String, Vec<ToolCall<A>>))
        ensures
            t.0@ == self.text(),
            call_names(t.1@) == self.calls(),
            t.1@ == self.gathered(),
    {
        (self.text, self.calls)
    }

    /// Tokens in, tokens out, and how long writing them took.
    pub fn usage(&self) -> (u: (u32, u32, u64))
        ensures
            u == self.counts(),
    {
        (self.tokens_in, self.tokens_out, self.nanos)
    }
}

/// What a person reads when Ollama answers with an error status: the usual
/// reason is a model that was never pulled.
pub fn refused_message(code: u16, model: &str) -> (m: String)
    ensures
        m@ == "ollama answered "@ + decimal(code as nat) + " — is `"@ + model@ + "` pulled?"@,
{
    let mut m = owned("ollama answered ");
    let n = decimal_of(code as u64);
    append(&mut m, n.as_str());
    append(&mut m, " — is `");
    append(&mut m, model);
    append(&mut m, "` pulled?");
    m
}

} // verus!
