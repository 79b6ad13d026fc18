//! A conversation with a model.
//!
//! The model is asked, answers, and may ask for tools; each tool's result
//! goes back to it, and it is asked again, up to a limit. Asking and running
//! tools is the daemon's work. What is here is the conversation itself:
//! what the model is told before it is asked anything, what each turn adds,
//! when it is over, and what the block shows when it is.
//!
//! A tool call's arguments are carried, never read: they are whatever the
//! model sent, and only the tool they are for looks inside them.
use vstd::prelude::*;
use crate::run::model::{display_name, display_of};
use crate::run::runner::{plural, plural_text};
use crate::text::{append, decimal, decimal_of, join, join_with, owned, views};

verus! {

/// How many times a model may ask for tools before it answers with what it
/// has.
pub const MAX_TOOL_ROUNDS: u32 = 8;

/// A tool call as the model made it: the name on the wire, and arguments
/// only the tool reads.
pub struct ToolCall<A> {
    pub name: String,
    pub arguments: A,
}

/// One message of a conversation.
pub enum Message<A> {
    System { content: String },
    User { content: String },
    /// The model's own turn, with the tools it asked for.
    Assistant { content: String, tool_calls: Vec<ToolCall<A>> },
    /// What a tool answered.
    Tool { name: String, content: String },
}

/// A message as the contracts see it.
pub enum Said {
    System(Seq<char>),
    User(Seq<char>),
    Asked(Seq<char>, Seq<Seq<char>>),
    Answered(Seq<char>, Seq<char>),
}

pub open spec fn call_names<A>(cs: Seq<ToolCall<A>>) -> Seq<Seq<char>> {
    cs.map_values(|c: ToolCall<A>| c.name@)
}

pub open spec fn said<A>(m: Message<A>) -> Said {
    match m {
        Message::System { content } => Said::System(content@),
        Message::User { content } => Said::User(content@),
        Message::Assistant { content, tool_calls } => Said::Asked(content@, call_names(tool_calls@)),
        Message::Tool { name, content } => Said::Answered(name@, content@),
    }
}

pub open spec fn said_all<A>(ms: Seq<Message<A>>) -> Seq<Said> {
    ms.map_values(|m: Message<A>| said(m))
}

/// What the model is told before it is asked anything: the block's system
/// prompt, the context wired to it, what its memory recalled about the
/// question, and then the question.
pub open spec fn opening_of(system: Option<Seq<char>>, context: Option<Seq<char>>, recalled: Seq<Seq<char>>, prompt: Seq<char>) -> Seq<Said> {
    (match system { Some(s) => seq![Said::System(s)], None => seq![] })
        + (match context { Some(c) => seq![Said::System("Context:\n"@ + c)], None => seq![] })
        + (if recalled.len() > 0 { seq![Said::System("What you remember:\n"@ + join(recalled, "\n"@))] } else { seq![] })
        + seq![Said::User(prompt)]
}

pub open spec fn opt_text(o: Option<&str>) -> Option<Seq<char>> {
    match o {
        Some(s) => Some(s@),
        None => None,
    }
}

/// What the model has been asked so far, and what it has cost.
pub struct Conversation<A> {
    messages: Vec<Message<A>>,
    round: u32,
    tokens_in: u32,
    tokens_out: u32,
    called: Vec<String>,
}

/// What the daemon does after a turn.
pub enum Next {
    /// The model answered: this is the block's text.
    Answer(String),
    /// Run the tools the model asked for, hand each result back with
    /// `answered`, and ask again — unless this was the last round, in which
    /// case say so and answer with the text given here.
    Call { last: Option<String> },
}

impl<A> Conversation<A> {
    pub closed spec fn said(&self) -> Seq<Said> {
        said_all(self.messages@)
    }

    /// The messages themselves, tool calls with their arguments.
    pub closed spec fn sent(&self) -> Seq<Message<A>> {
        self.messages@
    }

    pub closed spec fn round(&self) -> nat {
        self.round as nat
    }

    pub closed spec fn tokens_in(&self) -> nat {
        self.tokens_in as nat
    }

    pub closed spec fn tokens_out(&self) -> nat {
        self.tokens_out as nat
    }

    /// The tools called so far, by the names a person reads, in order.
    pub closed spec fn called(&self) -> Seq<Seq<char>> {
        views(self.called@)
    }

    /// Start a conversation. `recalled` holds what memory brought back, one
    /// line each.
    pub fn open(system: Option<&str>, context: Option<&str>, recalled: &Vec<String>, prompt: &str) -> (c: Conversation<A>)
        ensures
            c.said() == opening_of(opt_text(system), opt_text(context), views(recalled@), prompt@),
            said_all(c.sent()) == c.said(),
            c.round() == 0,
            c.tokens_in() == 0,
            c.tokens_out() == 0,
            c.called() == Seq::<Seq<char>>::empty(),
    {
        let mut messages: Vec<Message<A>> = Vec::new();
        let ghost mut expect: Seq<Said> = seq![];
        match system {
            Some(s) => {
                messages.push(Message::System { content: owned(s) });
                proof { expect = seq![Said::System(s@)]; }
            },
            None => {},
        }
        proof { assert(said_all(messages@) =~= expect); }
        match context {
            Some(c) => {
                let mut t = owned("Context:\n");
                append(&mut t, c);
                messages.push(Message::System { content: t });
                proof {
                    expect = expect + seq![Said::System("Context:\n"@ + c@)];
                    assert(said_all(messages@) =~= expect);
                }
            },
            None => {
                proof { expect = expect + Seq::<Said>::empty(); assert(said_all(messages@) =~= expect); }
            },
        }
        if recalled.len() > 0 {
            let mut t = owned("What you remember:\n");
            let lines = join_with(recalled, "\n");
            append(&mut t, lines.as_str());
            messages.push(Message::System { content: t });
            proof {
                expect = expect + seq![Said::System("What you remember:\n"@ + join(views(recalled@), "\n"@))];
                assert(said_all(messages@) =~= expect);
            }
        } else {
            proof { expect = expect + Seq::<Said>::empty(); assert(said_all(messages@) =~= expect); }
        }
        messages.push(Message::User { content: owned(prompt) });
        proof {
            expect = expect + seq![Said::User(prompt@)];
            assert(said_all(messages@) =~= expect);
            assert(expect =~= opening_of(opt_text(system), opt_text(context), views(recalled@), prompt@));
        }
        let c = Conversation { messages, round: 0, tokens_in: 0, tokens_out: 0, called: Vec::new() };
        proof { assert(views(c.called@) =~= Seq::<Seq<char>>::empty()); }
        c
    }

    /// Everything the model is to be sent.
    pub fn messages(&self) -> (m: &Vec<Message<A>>)
        ensures
            m@ == self.sent(),
            said_all(m@) == self.said(),
    {
        &self.messages
    }

    /// The model took a turn: said `text`, asked for `calls`, and used these
    /// tokens. A turn with no calls is the answer. A turn with calls goes
    /// into the conversation, so the model reads its own request back with
    /// the results; on the last round the calls still run, and then the text
    /// it gave is the answer.
    pub fn turn(&mut self, text: String, calls: Vec<ToolCall<A>>, tokens_in: u32, tokens_out: u32) -> (next: Next)
        requires
            old(self).round() < MAX_TOOL_ROUNDS,
            old(self).tokens_in() + tokens_in <= u32::MAX,
            old(self).tokens_out() + tokens_out <= u32::MAX,
        ensures
            final(self).tokens_in() == old(self).tokens_in() + tokens_in,
            final(self).tokens_out() == old(self).tokens_out() + tokens_out,
            calls@.len() == 0 ==> {
                &&& next matches Next::Answer(t) && t@ == text@
                &&& final(self).said() == old(self).said()
                &&& final(self).sent() == old(self).sent()
                &&& final(self).round() == old(self).round()
                &&& final(self).called() == old(self).called()
            },
            calls@.len() > 0 ==> {
                &&& final(self).said() == old(self).said().push(Said::Asked(text@, call_names(calls@)))
                &&& final(self).sent() == old(self).sent().push(Message::Assistant { content: text, tool_calls: calls })
                &&& final(self).round() == old(self).round() + 1
                &&& final(self).called() == old(self).called() + call_names(calls@).map_values(|n: Seq<char>| display_of(n))
                &&& next matches Next::Call { last }
                &&& match last {
                    Some(t) => old(self).round() + 1 == MAX_TOOL_ROUNDS && t@ == text@,
                    None => old(self).round() + 1 < MAX_TOOL_ROUNDS,
                }
            },
    {
        self.tokens_in = self.tokens_in + tokens_in;
        self.tokens_out = self.tokens_out + tokens_out;
        if calls.len() == 0 {
            return Next::Answer(text);
        }
        let ghost before = self.called@;
        let mut k: usize = 0;
        while k < calls.len()
            invariant
                k <= calls@.len(),
                self.round == old(self).round,
                self.round < MAX_TOOL_ROUNDS,
                self.tokens_in == old(self).tokens_in + tokens_in,
                self.tokens_out == old(self).tokens_out + tokens_out,
                self.messages@ == old(self).messages@,
                views(self.called@) == views(before) + call_names(calls@).take(k as int).map_values(|n: Seq<char>| display_of(n)),
            decreases calls.len() - k,
        {
            let shown = display_name(calls[k].name.as_str());
            let ghost prev = views(self.called@);
            self.called.push(shown);
            proof {
                assert(views(self.called@) =~= prev.push(display_of(calls@[k as int].name@)));
                assert(call_names(calls@).take(k + 1).map_values(|n: Seq<char>| display_of(n))
                    =~= call_names(calls@).take(k as int).map_values(|n: Seq<char>| display_of(n)).push(display_of(calls@[k as int].name@)));
            }
            k = k + 1;
        }
        proof {
            assert(call_names(calls@).take(calls@.len() as int) =~= call_names(calls@));
        }
        let last = if self.round + 1 == MAX_TOOL_ROUNDS { Some(text.clone()) } else { None };
        let ghost prev_said = said_all(self.messages@);
        self.messages.push(Message::Assistant { content: text, tool_calls: calls });
        proof { assert(said_all(self.messages@) =~= prev_said.push(Said::Asked(text@, call_names(calls@)))); }
        self.round = self.round + 1;
        Next::Call { last }
    }

    /// A tool answered the call by this wire name.
    pub fn answered(&mut self, name: String, content: String)
        ensures
            final(self).said() == old(self).said().push(Said::Answered(name@, content@)),
            final(self).sent() == old(self).sent().push(Message::Tool { name, content }),
            final(self).round() == old(self).round(),
            final(self).tokens_in() == old(self).tokens_in(),
            final(self).tokens_out() == old(self).tokens_out(),
            final(self).called() == old(self).called(),
    {
        let ghost prev_said = said_all(self.messages@);
        self.messages.push(Message::Tool { name, content });
        proof { assert(said_all(self.messages@) =~= prev_said.push(Said::Answered(name@, content@))); }
    }

    /// The tools called, by the names a person reads.
    pub fn called_names(&self) -> (v: &Vec<String>)
        ensures
            views(v@) == self.called(),
    {
        &self.called
    }

    /// Tokens sent and received so far.
    pub fn usage(&self) -> (u: (u32, u32))
        ensures
            u.0 == self.tokens_in(),
            u.1 == self.tokens_out(),
    {
        (self.tokens_in, self.tokens_out)
    }
}

/// What the console says when memory brought something back.
pub fn recalled_line(n: u64) -> (s: String)
    ensures
        s@ == "recalled "@ + plural_text(n as nat, "thing"@) + " from memory"@,
{
    let mut s = owned("recalled ");
    let p = plural(n, "thing");
    append(&mut s, p.as_str());
    append(&mut s, " from memory");
    s
}

/// What the console says when the rounds ran out.
pub fn rounds_out_line() -> (s: String)
    ensures
        s@ == "still calling tools after "@ + decimal(MAX_TOOL_ROUNDS as nat) + " rounds; answering with what it has"@,
{
    let mut s = owned("still calling tools after ");
    let n = decimal_of(MAX_TOOL_ROUNDS as u64);
    append(&mut s, n.as_str());
    append(&mut s, " rounds; answering with what it has");
    s
}

/// What the block shows when a model that reported no rate has answered:
/// how many tokens it wrote, if any. A rate is written by the daemon.
pub fn token_figure(tokens_out: u32) -> (f: Option<String>)
    ensures
        tokens_out == 0 ==> f is None,
        tokens_out > 0 ==> (f matches Some(t) && t@ == decimal(tokens_out as nat) + " tokens"@),
{
    if tokens_out == 0 {
        None
    } else {
        let mut t = decimal_of(tokens_out as u64);
        append(&mut t, " tokens");
        Some(t)
    }
}

} // verus!
