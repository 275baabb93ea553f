//! The broadcast relay's registry and fan-out rule: which connections
//! a submitted message is copied to. The relay task owns a value of
//! this type exclusively and mutates it only between waits on its two
//! event sources; the channel endpoints themselves live with that
//! task, keyed by the identities held here.

use vstd::prelude::*;

use crate::message::{IrcMessage, MessageView};

verus! {

/// The registry of currently connected clients, as the identities
/// their outbound channels are keyed by, in registration order.
pub struct BroadcastRelay {
    pub registry: Vec<u64>,
}

/// The fan-out of one submitted message: one copy per registered
/// client, in registration order.
pub open spec fn spec_fanout(reg: Seq<u64>, m: MessageView) -> Seq<(u64, MessageView)> {
    Seq::new(reg.len(), |i: int| (reg[i], m))
}

/// The registry after a client leaves: the same identities in the
/// same order, with every entry for that client gone.
pub open spec fn spec_deregister(reg: Seq<u64>, id: u64) -> Seq<u64>
    decreases reg.len(),
{
    if reg.len() == 0 {
        Seq::<u64>::empty()
    } else if reg.last() == id {
        spec_deregister(reg.drop_last(), id)
    } else {
        spec_deregister(reg.drop_last(), id).push(reg.last())
    }
}

impl BroadcastRelay {
    /// A relay with no client registered yet.
    pub fn new() -> (r: BroadcastRelay)
        ensures
            r.registry@ == Seq::<u64>::empty(),
    {
        let relay = BroadcastRelay { registry: Vec::new() };
        proof {
            assert(relay.registry@ =~= Seq::<u64>::empty());
        }
        relay
    }

    /// Registers a newly accepted client's outbound channel identity,
    /// appending it to the registry.
    pub fn register(&mut self, id: u64)
        ensures
            final(self).registry@ == old(self).registry@.push(id),
    {
        self.registry.push(id);
    }

    /// Drops a client from the registry, on clean termination or when
    /// a send to its channel found it gone: a recoverable local
    /// failure, never one that stops the relay.
    pub fn deregister(&mut self, id: u64)
        ensures
            final(self).registry@ == spec_deregister(old(self).registry@, id),
    {
        let ghost whole = self.registry@;
        let mut kept: Vec<u64> = Vec::new();
        let mut i: usize = 0;
        proof {
            assert(kept@ =~= spec_deregister(whole.subrange(0, 0), id));
        }
        while i < self.registry.len()
            invariant
                i <= self.registry.len(),
                whole == self.registry@,
                kept@ == spec_deregister(whole.subrange(0, i as int), id),
            decreases self.registry.len() - i,
        {
            let entry = self.registry[i];
            proof {
                let taken = whole.subrange(0, i + 1);
                assert(taken.drop_last() =~= whole.subrange(0, i as int));
                assert(taken.last() == entry);
            }
            if entry != id {
                kept.push(entry);
            }
            i = i + 1;
        }
        proof {
            assert(whole.subrange(0, whole.len() as int) =~= whole);
        }
        self.registry = kept;
    }

    /// The fan-out of one submitted message: a copy addressed to every
    /// client registered at this moment, in registration order. The
    /// relay task sends each copy down the channel its identity keys.
    pub fn broadcast(&self, msg: &IrcMessage) -> (out: Vec<(u64, IrcMessage)>)
        ensures
            out@.len() == spec_fanout(self.registry@, msg@).len(),
            forall|i: int|
                0 <= i < out@.len() ==> (#[trigger] out@[i]).0 == spec_fanout(
                    self.registry@,
                    msg@,
                )[i].0 && out@[i].1@ == spec_fanout(self.registry@, msg@)[i].1,
    {
        let mut out: Vec<(u64, IrcMessage)> = Vec::new();
        let mut i: usize = 0;
        while i < self.registry.len()
            invariant
                i <= self.registry.len(),
                out@.len() == i,
                forall|j: int|
                    0 <= j < i ==> (#[trigger] out@[j]).0 == self.registry@[j] && out@[j].1@
                        == msg@,
            decreases self.registry.len() - i,
        {
            let copy = msg.duplicate();
            out.push((self.registry[i], copy));
            i = i + 1;
        }
        out
    }
}

/// No entry for a departed client remains, and every other client's
/// entries survive a deregistration.
pub proof fn lemma_deregister_keeps_others(reg: Seq<u64>, id: u64)
    ensures
        !spec_deregister(reg, id).contains(id),
        forall|x: u64| x != id ==> (spec_deregister(reg, id).contains(x) <==> reg.contains(x)),
    decreases reg.len(),
{
    if reg.len() == 0 {
        assert forall|x: u64| x != id implies (spec_deregister(reg, id).contains(x) <==> reg.contains(
            x,
        )) by {
            assert(!reg.contains(x));
            assert(!spec_deregister(reg, id).contains(x));
        }
    } else {
        let front = reg.drop_last();
        lemma_deregister_keeps_others(front, id);
        let sub = spec_deregister(front, id);
        if reg.last() == id {
            assert forall|x: u64| x != id implies (spec_deregister(reg, id).contains(x)
                <==> reg.contains(x)) by {
                if reg.contains(x) {
                    let w = choose|w: int| 0 <= w < reg.len() && reg[w] == x;
                    assert(w < reg.len() - 1);
                    assert(front[w] == x);
                    assert(front.contains(x));
                }
                if front.contains(x) {
                    let w = choose|w: int| 0 <= w < front.len() && front[w] == x;
                    assert(reg[w] == x);
                    assert(reg.contains(x));
                }
            }
        } else {
            let whole = sub.push(reg.last());
            assert(!whole.contains(id)) by {
                if whole.contains(id) {
                    let w = choose|w: int| 0 <= w < whole.len() && whole[w] == id;
                    if w < sub.len() {
                        assert(sub.contains(id));
                    } else {
                        assert(whole[w] == reg.last());
                    }
                }
            }
            assert forall|x: u64| x != id implies (spec_deregister(reg, id).contains(x)
                <==> reg.contains(x)) by {
                if whole.contains(x) {
                    let w = choose|w: int| 0 <= w < whole.len() && whole[w] == x;
                    if w < sub.len() {
                        assert(sub.contains(x));
                        assert(front.contains(x));
                        let v = choose|v: int| 0 <= v < front.len() && front[v] == x;
                        assert(reg[v] == x);
                    } else {
                        assert(reg[reg.len() - 1] == x);
                    }
                    assert(reg.contains(x));
                }
                if reg.contains(x) {
                    let w = choose|w: int| 0 <= w < reg.len() && reg[w] == x;
                    if w < reg.len() - 1 {
                        assert(front[w] == x);
                        assert(front.contains(x));
                        assert(sub.contains(x));
                        let v = choose|v: int| 0 <= v < sub.len() && sub[v] == x;
                        assert(whole[v] == x);
                    } else {
                        assert(whole[whole.len() - 1] == x);
                    }
                    assert(whole.contains(x));
                }
            }
        }
    }
}

/// Broadcast fan-out: a message submitted while a set of clients is
/// registered is addressed to exactly those clients — each registered
/// identity receives one copy of the message — and a client that was
/// not yet registered at submission, such as one that connects later,
/// is not among the recipients.
pub proof fn lemma_fanout_delivery(reg: Seq<u64>, m: MessageView, late: u64)
    requires
        !reg.contains(late),
    ensures
        spec_fanout(reg, m).len() == reg.len(),
        forall|i: int| 0 <= i < reg.len() ==> #[trigger] spec_fanout(reg, m)[i] == (reg[i], m),
        forall|i: int|
            0 <= i < spec_fanout(reg, m).len() ==> (#[trigger] spec_fanout(reg, m)[i]).0 != late,
{
    assert forall|i: int| 0 <= i < spec_fanout(reg, m).len() implies (#[trigger] spec_fanout(
        reg,
        m,
    )[i]).0 != late by {
        if reg[i] == late {
            assert(reg.contains(late));
        }
    }
}

} // verus!
