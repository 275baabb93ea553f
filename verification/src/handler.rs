//! The per-connection command state machine: what one dispatch step
//! decides when a decoded client message arrives. The surrounding
//! loop — reading lines, waiting on the broadcast channel, writing
//! replies — performs whatever this module decides.

use vstd::prelude::*;

use crate::message::{IrcMessage, MessageView};
use crate::text::str_eq;

verus! {

/// The state a connection's handler owns: the nickname last set by
/// NICK, and whether the one-time welcome has been sent.
pub struct ConnState {
    pub nickname: Option<String>,
    pub welcomed: bool,
}

/// The mathematical shape of the connection state.
pub struct ConnStateView {
    pub nickname: Option<Seq<char>>,
    pub welcomed: bool,
}

impl View for ConnState {
    type V = ConnStateView;

    open spec fn view(&self) -> ConnStateView {
        ConnStateView { nickname: self.nickname.deep_view(), welcomed: self.welcomed }
    }
}

/// What one dispatch step decides: the state afterwards, the reply to
/// write if any, and whether the connection is to close.
pub struct StepView {
    pub state: ConnStateView,
    pub reply: Option<MessageView>,
    pub quit: bool,
}

/// The one-time numeric welcome: `001`, the nick, trailing `Welcome`.
pub open spec fn welcome_reply(host: Seq<char>, nick: Seq<char>) -> MessageView {
    MessageView {
        prefix: Some(host),
        command: "001"@,
        params: seq![nick],
        trail: Some("Welcome"@),
    }
}

/// The farewell sent before the connection closes.
pub open spec fn quit_reply(host: Seq<char>) -> MessageView {
    MessageView {
        prefix: Some(host),
        command: "QUIT"@,
        params: Seq::<Seq<char>>::empty(),
        trail: Some("Client Quit"@),
    }
}

/// The answer to PING: the server's own identity as the parameter,
/// the client's token echoed as the trail.
pub open spec fn pong_reply(host: Seq<char>, token: Seq<char>) -> MessageView {
    MessageView { prefix: Some(host), command: "PONG"@, params: seq![host], trail: Some(token) }
}

/// The command state machine. NICK stores the nickname and is
/// answered by the welcome only the first time; QUIT is answered by
/// the farewell and ends the connection; PING is answered by PONG;
/// USER and every unrecognized command change nothing and get no
/// reply.
pub open spec fn spec_step(s: ConnStateView, m: MessageView, host: Seq<char>) -> StepView {
    if m.command == "NICK"@ {
        StepView {
            state: ConnStateView { nickname: Some(m.params[0]), welcomed: true },
            reply: if s.welcomed {
                None
            } else {
                Some(welcome_reply(host, m.params[0]))
            },
            quit: false,
        }
    } else if m.command == "QUIT"@ {
        StepView { state: s, reply: Some(quit_reply(host)), quit: true }
    } else if m.command == "PING"@ {
        StepView { state: s, reply: Some(pong_reply(host, m.params[0])), quit: false }
    } else {
        StepView { state: s, reply: None, quit: false }
    }
}

impl ConnState {
    /// The state of a freshly accepted connection: no nickname, not
    /// yet welcomed.
    pub fn new() -> (s: ConnState)
        ensures
            s@.nickname is None,
            !s@.welcomed,
    {
        ConnState { nickname: None, welcomed: false }
    }

    /// One dispatch step on a decoded client message: mutates the
    /// state, and returns the reply to write, if any, and whether the
    /// connection is to close, exactly as the command state machine
    /// says. NICK and PING need their first parameter.
    pub fn handle_message(&mut self, msg: &IrcMessage, host: &str) -> (r: (
        Option<IrcMessage>,
        bool,
    ))
        requires
            msg@.command == "NICK"@ ==> msg@.params.len() >= 1,
            msg@.command == "PING"@ ==> msg@.params.len() >= 1,
        ensures
            final(self)@ == spec_step(old(self)@, msg@, host@).state,
            r.1 == spec_step(old(self)@, msg@, host@).quit,
            match r.0 {
                Some(reply) => spec_step(old(self)@, msg@, host@).reply == Some(reply@),
                None => spec_step(old(self)@, msg@, host@).reply is None,
            },
    {
        if str_eq(msg.command.as_str(), "NICK") {
            let nick = msg.params[0].clone();
            let had_welcome = self.welcomed;
            self.nickname = Some(nick);
            self.welcomed = true;
            if had_welcome {
                (None, false)
            } else {
                let ps = vec![msg.params[0].as_str()];
                proof {
                    assert(ps.deep_view() =~~= seq![msg@.params[0]]);
                }
                let reply = IrcMessage::new(Some(host), "001", ps, Some("Welcome"));
                (Some(reply), false)
            }
        } else if str_eq(msg.command.as_str(), "QUIT") {
            let ps: Vec<&str> = Vec::new();
            proof {
                assert(ps.deep_view() =~~= Seq::<Seq<char>>::empty());
            }
            let reply = IrcMessage::new(Some(host), "QUIT", ps, Some("Client Quit"));
            (Some(reply), true)
        } else if str_eq(msg.command.as_str(), "PING") {
            let ps = vec![host];
            proof {
                assert(ps.deep_view() =~~= seq![host@]);
            }
            let reply = IrcMessage::new(Some(host), "PONG", ps, Some(msg.params[0].as_str()));
            (Some(reply), false)
        } else {
            (None, false)
        }
    }
}

/// Welcome-once: on a connection not yet welcomed, the first NICK is
/// answered by the numeric welcome and any second NICK gets no reply —
/// exactly one welcome, however often NICK is sent.
pub proof fn lemma_welcome_once(
    s: ConnStateView,
    m1: MessageView,
    m2: MessageView,
    host: Seq<char>,
)
    requires
        !s.welcomed,
        m1.command == "NICK"@,
        m2.command == "NICK"@,
    ensures
        spec_step(s, m1, host).reply == Some(welcome_reply(host, m1.params[0])),
        spec_step(spec_step(s, m1, host).state, m2, host).reply is None,
{
}

/// Once welcomed, a connection stays welcomed, and no later step —
/// whatever the command — ever replies with the numeric welcome again.
pub proof fn lemma_no_second_welcome(s: ConnStateView, m: MessageView, host: Seq<char>)
    requires
        s.welcomed,
    ensures
        spec_step(s, m, host).state.welcomed,
        forall|reply: MessageView|
            spec_step(s, m, host).reply == Some(reply) ==> reply.command != "001"@,
{
    reveal_strlit("001");
    reveal_strlit("QUIT");
    reveal_strlit("PONG");
    assert("QUIT"@.len() == 4 && "001"@.len() == 3);
    assert("PONG"@.len() == 4);
}

/// QUIT termination: a QUIT step replies with the farewell, leaves
/// the state alone, and is the only step that ends the dispatch loop.
pub proof fn lemma_quit_step(s: ConnStateView, m: MessageView, host: Seq<char>)
    requires
        m.command == "QUIT"@,
    ensures
        spec_step(s, m, host).quit,
        spec_step(s, m, host).reply == Some(quit_reply(host)),
        spec_step(s, m, host).state == s,
{
    reveal_strlit("QUIT");
    reveal_strlit("NICK");
    assert("QUIT"@[0] != "NICK"@[0]);
}

/// Only QUIT ends the dispatch loop.
pub proof fn lemma_only_quit_ends(s: ConnStateView, m: MessageView, host: Seq<char>)
    requires
        m.command != "QUIT"@,
    ensures
        !spec_step(s, m, host).quit,
{
}

/// PING is answered by PONG: the server identity as the parameter and
/// the client's token echoed as the trail, with the state untouched.
pub proof fn lemma_ping_pong(s: ConnStateView, m: MessageView, host: Seq<char>)
    requires
        m.command == "PING"@,
    ensures
        spec_step(s, m, host).reply == Some(pong_reply(host, m.params[0])),
        !spec_step(s, m, host).quit,
        spec_step(s, m, host).state == s,
{
    reveal_strlit("PING");
    reveal_strlit("NICK");
    reveal_strlit("QUIT");
    assert("PING"@[0] != "NICK"@[0]);
    assert("PING"@[0] != "QUIT"@[0]);
}

} // verus!
