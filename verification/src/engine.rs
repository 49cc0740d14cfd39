//! The protocol engine: the decision core of the multiplex worker that owns
//! the transport.
//!
//! The worker loop itself performs I/O and lives outside this crate; it feeds
//! the engine one input at a time — a command accepted from the submission
//! queue, one inbound line, or the end of the stream — and carries out the
//! returned decision. The engine keeps the protocol state: the single
//! in-flight command slot and the bounded event queue.
//!
//! Back-pressure policy: the event queue is bounded at one entry and stalls
//! line processing until the entry is consumed, matching a rendezvous channel
//! between the worker and the event consumer. `on_line` therefore requires an
//! empty queue; the worker drains the queue (through `next_event`) before
//! reading further input. This bounds memory at the cost of holding up reply
//! processing behind a slow event consumer.
//!
//! Ghost history: the engine records the models of submitted commands,
//! completed (command, reply) pairs, and arrived and delivered events. The
//! well-formedness invariant ties them together and yields the ordering laws
//! at the bottom of this file.

use vstd::prelude::*;

use crate::codec::{Class, classify, classify_val, parse_line, ser_line, serialize_line,
    spec_parse_line};
use crate::msg::{Message, Val, key_return, obj_lookup, take_field, view_elems, view_msg};

verus! {

/// The terminal "channel closed" condition: end of stream was observed, no
/// reply or event will arrive any more. A normal shutdown signal, distinct
/// from an application error.
#[derive(Debug, PartialEq, Eq, Structural, Clone, Copy)]
pub struct Eof;

/// The engine's event queue holds at most this many entries before the
/// consumer must drain it.
pub const EVENT_QUEUE_CAPACITY: usize = 1;

/// What the engine decided about one inbound line.
pub enum Routed {
    /// A reply completed the pending command; here is its payload, to be
    /// handed to the submitter.
    Reply(Message),
    /// A reply arrived while no command was pending: a protocol violation to
    /// report as a diagnostic; the loop continues.
    StrayReply(Message),
    /// A greeting arrived after the handshake: a protocol violation to report
    /// as a diagnostic; the loop continues.
    StrayGreeting(Message),
    /// An event was enqueued for the consumer.
    Event,
    /// The line did not parse, or matched no known shape: a fatal protocol
    /// violation. The engine has stopped and any pending command has failed.
    Fatal,
}

/// The multiplex worker's state: transport ownership is modelled by this
/// being the only value that accepts lines and commands.
pub struct Engine {
    /// The single in-flight command, if any (the back-pressure point).
    pub pending: Option<Message>,
    /// Events awaiting consumption, oldest first.
    pub events: Vec<Message>,
    /// False once the stream closed or a fatal protocol violation occurred.
    pub running: bool,
    /// History: models of all commands accepted, in order.
    pub submitted: Ghost<Seq<Val>>,
    /// History: models of all (command, reply payload) completions, in order.
    pub completed: Ghost<Seq<(Val, Val)>>,
    /// History: models of all events read off the wire, in order.
    pub arrived: Ghost<Seq<Val>>,
    /// History: models of all events handed to the consumer, in order.
    pub delivered: Ghost<Seq<Val>>,
}

impl Engine {
    /// The engine's invariant: at most one in-flight command; completions
    /// pair with submissions one-to-one in order; the queue holds exactly the
    /// arrived events not yet delivered, at most one.
    pub open spec fn wf(&self) -> bool {
        &&& self.completed@.len() + (if self.pending is Some {
            1int
        } else {
            0int
        }) <= self.submitted@.len()
        &&& (self.running ==> self.completed@.len() + (if self.pending is Some {
            1int
        } else {
            0int
        }) == self.submitted@.len())
        &&& (match self.pending {
            Some(c) => self.submitted@.len() > 0 && self.submitted@.last() == c@,
            None => true,
        })
        &&& forall|k: int|
            0 <= k < self.completed@.len() ==> (#[trigger] self.completed@[k]).0
                == self.submitted@[k]
        &&& self.events@.len() <= EVENT_QUEUE_CAPACITY
        &&& self.arrived@ == self.delivered@ + view_elems(self.events@)
    }

    /// A fresh engine, running, with nothing pending and empty history.
    pub fn new() -> (e: Engine)
        ensures
            e.wf(),
            e.running,
            e.pending is None,
            e.events@.len() == 0,
            e.submitted@ == Seq::<Val>::empty(),
            e.completed@ == Seq::<(Val, Val)>::empty(),
            e.arrived@ == Seq::<Val>::empty(),
            e.delivered@ == Seq::<Val>::empty(),
    {
        let e = Engine {
            pending: None,
            events: Vec::new(),
            running: true,
            submitted: Ghost(Seq::empty()),
            completed: Ghost(Seq::empty()),
            arrived: Ghost(Seq::empty()),
            delivered: Ghost(Seq::empty()),
        };
        proof {
            assert(view_elems(e.events@) =~= Seq::<Val>::empty());
            assert(e.arrived@ =~= e.delivered@ + view_elems(e.events@));
        }
        e
    }

    /// True when the engine may take the next queued command: the slot is
    /// free and the stream is open. Command acceptance has priority over
    /// reading more input when both are ready.
    pub fn can_accept(&self) -> (r: bool)
        ensures
            r == (self.running && self.pending is None),
    {
        self.running && self.pending.is_none()
    }

    /// Accepts a queued command: marks it as the pending command and returns
    /// the serialized line for the worker to write to the child.
    pub fn accept(&mut self, cmd: Message) -> (line: Vec<u8>)
        requires
            old(self).wf(),
            old(self).running,
            old(self).pending is None,
        ensures
            final(self).wf(),
            line@ == ser_line(cmd@),
            final(self).pending == Some(cmd),
            final(self).running,
            final(self).events == old(self).events,
            final(self).submitted@ == old(self).submitted@ + seq![cmd@],
            final(self).completed@ == old(self).completed@,
            final(self).arrived@ == old(self).arrived@,
            final(self).delivered@ == old(self).delivered@,
    {
        let line = serialize_line(&cmd);
        proof {
            self.submitted@ = self.submitted@ + seq![cmd@];
        }
        self.pending = Some(cmd);
        line
    }

    /// The submit side of the client handle: accept the command if the
    /// engine still runs, else fail with the closed condition. Callers are
    /// serialized by the single-slot rule: the slot must be free.
    pub fn submit(&mut self, cmd: Message) -> (r: Result<Vec<u8>, Eof>)
        requires
            old(self).wf(),
            old(self).pending is None,
        ensures
            final(self).wf(),
            match r {
                Ok(line) => old(self).running && line@ == ser_line(cmd@) && final(self).pending
                    == Some(cmd) && final(self).submitted@ == old(self).submitted@ + seq![cmd@]
                    && final(self).completed@ == old(self).completed@ && final(self).arrived@
                    == old(self).arrived@ && final(self).delivered@ == old(self).delivered@
                    && final(self).running,
                Err(_) => !old(self).running && *final(self) == *old(self),
            },
    {
        if self.running {
            Ok(self.accept(cmd))
        } else {
            Err(Eof)
        }
    }

    /// Routes one inbound line: a reply completes the pending command, an
    /// event is queued in wire order without touching the pending slot, a
    /// line of no known shape stops the engine.
    pub fn on_line(&mut self, line: &Vec<u8>) -> (r: Routed)
        requires
            old(self).wf(),
            old(self).running,
            old(self).events@.len() == 0,
        ensures
            final(self).wf(),
            match spec_parse_line(line@) {
                None => {
                    &&& r is Fatal
                    &&& !final(self).running
                    &&& final(self).pending is None
                    &&& final(self).completed@ == old(self).completed@
                    &&& final(self).arrived@ == old(self).arrived@
                    &&& final(self).delivered@ == old(self).delivered@
                    &&& final(self).submitted@ == old(self).submitted@
                },
                Some(v) => match classify_val(v) {
                    Class::Reply => {
                        &&& (match old(self).pending {
                            Some(c) => {
                                &&& (r matches Routed::Reply(p) && obj_lookup(v, key_return())
                                    == Some(p@))
                                &&& final(self).pending is None
                                &&& final(self).completed@ == old(self).completed@ + seq![
                                    (c@, obj_lookup(v, key_return())->Some_0),
                                ]
                            },
                            None => {
                                &&& (r matches Routed::StrayReply(p) && obj_lookup(
                                    v,
                                    key_return(),
                                ) == Some(p@))
                                &&& final(self).pending is None
                                &&& final(self).completed@ == old(self).completed@
                            },
                        })
                        &&& final(self).running
                        &&& final(self).arrived@ == old(self).arrived@
                        &&& final(self).delivered@ == old(self).delivered@
                        &&& final(self).submitted@ == old(self).submitted@
                        &&& final(self).events@.len() == 0
                    },
                    Class::Event => {
                        &&& r is Event
                        &&& final(self).running
                        &&& final(self).pending == old(self).pending
                        &&& final(self).completed@ == old(self).completed@
                        &&& final(self).arrived@ == old(self).arrived@ + seq![v]
                        &&& final(self).delivered@ == old(self).delivered@
                        &&& final(self).submitted@ == old(self).submitted@
                        &&& view_elems(final(self).events@) == seq![v]
                    },
                    Class::Greeting => {
                        &&& (r matches Routed::StrayGreeting(p) && p@ == v)
                        &&& *final(self) == *old(self)
                    },
                    Class::Malformed => {
                        &&& r is Fatal
                        &&& !final(self).running
                        &&& final(self).pending is None
                        &&& final(self).completed@ == old(self).completed@
                        &&& final(self).arrived@ == old(self).arrived@
                        &&& final(self).delivered@ == old(self).delivered@
                        &&& final(self).submitted@ == old(self).submitted@
                    },
                },
            },
    {
        match parse_line(line) {
            None => {
                self.running = false;
                self.pending = None;
                Routed::Fatal
            },
            Some(m) => {
                let ghost v = m@;
                match classify(&m) {
                    Class::Greeting => Routed::StrayGreeting(m),
                    Class::Reply => {
                        match take_field(m, "return") {
                            Some(payload) => {
                                if self.pending.is_some() {
                                    let ghost cv = match &self.pending {
                                        Some(c) => c@,
                                        None => arbitrary(),
                                    };
                                    self.pending = None;
                                    proof {
                                        self.completed@ = self.completed@ + seq![(cv, payload@)];
                                    }
                                    Routed::Reply(payload)
                                } else {
                                    Routed::StrayReply(payload)
                                }
                            },
                            None => {
                                // a reply-classified message holds the reply key
                                proof {
                                    assert(false);
                                }
                                Routed::Fatal
                            },
                        }
                    },
                    Class::Event => {
                        self.events.push(m);
                        proof {
                            self.arrived@ = self.arrived@ + seq![v];
                            assert(self.events@.drop_first() =~= Seq::<Message>::empty());
                            assert(view_elems(Seq::<Message>::empty()) =~= Seq::<Val>::empty());
                            assert(view_elems(self.events@)
                                =~= seq![view_msg(self.events@[0])]);
                        }
                        Routed::Event
                    },
                    Class::Malformed => {
                        self.running = false;
                        self.pending = None;
                        Routed::Fatal
                    },
                }
            },
        }
    }

    /// End of stream: the engine stops; a pending command is failed with the
    /// closed condition and returned so the worker can report it. Queued
    /// events remain for the consumer to drain.
    pub fn on_eos(&mut self) -> (r: Option<Message>)
        requires
            old(self).wf(),
            old(self).running,
        ensures
            final(self).wf(),
            !final(self).running,
            final(self).pending is None,
            r == old(self).pending,
            final(self).events == old(self).events,
            final(self).submitted@ == old(self).submitted@,
            final(self).completed@ == old(self).completed@,
            final(self).arrived@ == old(self).arrived@,
            final(self).delivered@ == old(self).delivered@,
    {
        self.running = false;
        let mut taken: Option<Message> = None;
        core::mem::swap(&mut taken, &mut self.pending);
        taken
    }

    /// The consume side of the client handle: the next queued event, or the
    /// closed condition once the engine has stopped and the queue is empty.
    /// An empty queue on a running engine would block; the worker is driven
    /// first.
    pub fn next_event(&mut self) -> (r: Result<Message, Eof>)
        requires
            old(self).wf(),
            old(self).events@.len() == 0 ==> !old(self).running,
        ensures
            final(self).wf(),
            match r {
                Ok(ev) => {
                    &&& old(self).events@.len() > 0
                    &&& ev@ == view_elems(old(self).events@)[0]
                    &&& final(self).events@ == old(self).events@.drop_first()
                    &&& final(self).delivered@ == old(self).delivered@ + seq![ev@]
                    &&& final(self).arrived@ == old(self).arrived@
                },
                Err(_) => {
                    &&& old(self).events@.len() == 0 && !old(self).running
                    &&& *final(self) == *old(self)
                },
            },
            final(self).running == old(self).running,
            final(self).pending == old(self).pending,
            final(self).submitted@ == old(self).submitted@,
            final(self).completed@ == old(self).completed@,
    {
        if self.events.len() > 0 {
            let ev = self.events.remove(0);
            proof {
                crate::msg::lemma_view_elems(old(self).events@);
                crate::msg::lemma_view_elems(self.events@);
                self.delivered@ = self.delivered@ + seq![ev@];
                assert(self.events@ =~= old(self).events@.drop_first());
                assert(view_elems(old(self).events@) =~= seq![ev@] + view_elems(self.events@));
                assert(self.arrived@ =~= self.delivered@ + view_elems(self.events@));
            }
            Ok(ev)
        } else {
            Err(Eof)
        }
    }
}

/// Replies pair with submitted commands one-to-one and in submission order:
/// the k-th completed command is the k-th submitted one, and no more replies
/// complete than commands were submitted.
pub proof fn lemma_replies_in_submission_order(e: &Engine, k: int)
    requires
        e.wf(),
        0 <= k < e.completed@.len(),
    ensures
        e.completed@[k].0 == e.submitted@[k],
        e.completed@.len() <= e.submitted@.len(),
{
}

/// Events reach the consumer in wire order: what has been delivered is
/// exactly the prefix of what arrived, in order, with nothing reordered or
/// dropped.
pub proof fn lemma_events_in_wire_order(e: &Engine)
    requires
        e.wf(),
    ensures
        e.delivered@.len() <= e.arrived@.len(),
        e.delivered@ == e.arrived@.take(e.delivered@.len() as int),
{
    assert(e.delivered@ =~= e.arrived@.take(e.delivered@.len() as int));
}


} // verus!
