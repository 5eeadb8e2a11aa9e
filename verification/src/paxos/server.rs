//! The acceptor state machine. A server is purely reactive: each round
//! it drains its inbox and answers every packet in arrival order. It
//! never times out, retries or re-sends.

use crate::network::Packet;
use crate::paxos::{Action, Command, Cond, Message, Ticket, Value, Var};
use vstd::prelude::*;

verus! {

/// The acceptor's state. `t_max` is the highest ticket it has promised,
/// `t_store` the ticket under which it last accepted a command (zero if
/// never), `command` the accepted or executed command, and `decided`
/// whether an `Execute` has arrived.
#[derive(Clone, Copy, Debug)]
pub struct Server {
    pub id: usize,
    pub t_max: Ticket,
    pub command: Command,
    pub t_store: Ticket,
    pub decided: bool,
}

/// The messages a server accepts. `Grant` and `Success` signal a
/// protocol bug when they reach a server.
pub open spec fn server_accepts(m: Message) -> bool {
    match m {
        Message::Ask(_) => true,
        Message::Propose(_, _) => true,
        Message::Execute(_) => true,
        Message::Grant(_, _) => false,
        Message::Success => false,
    }
}

/// The server state, replies and trace actions after one packet.
pub open spec fn server_step1(s: Server, p: Packet<Message>) -> (
    Server,
    Seq<Packet<Message>>,
    Seq<Action>,
) {
    let received = Action::Receive(p.sender, p.content);
    match p.content {
        Message::Ask(t) => {
            let check = Action::Check(Cond::TicketAbove, t, s.t_max, t > s.t_max);
            if t > s.t_max {
                let reply = Message::Grant(s.t_store, s.command);
                (
                    Server { t_max: t, ..s },
                    seq![Packet { sender: s.id, receiver: p.sender, content: reply }],
                    seq![
                        received,
                        check,
                        Action::Store(Var::TMax, Value::Ticket(t)),
                        Action::Send(p.sender, reply),
                    ],
                )
            } else {
                (s, seq![], seq![received, check])
            }
        },
        Message::Propose(t, c) => {
            let check = Action::Check(Cond::TicketMatches, t, s.t_max, t == s.t_max);
            if t == s.t_max {
                (
                    Server { command: c, t_store: t, ..s },
                    seq![Packet { sender: s.id, receiver: p.sender, content: Message::Success }],
                    seq![
                        received,
                        check,
                        Action::Store(Var::ServerCmd, Value::Cmd(c)),
                        Action::Store(Var::TStore, Value::Ticket(t)),
                        Action::Send(p.sender, Message::Success),
                    ],
                )
            } else {
                (s, seq![], seq![received, check])
            }
        },
        Message::Execute(c) => (
            Server { command: c, decided: true, ..s },
            seq![],
            seq![received, Action::Decide(c)],
        ),
        _ => (s, seq![], seq![]),
    }
}

/// The server state, replies and trace actions after a whole inbox,
/// processed in arrival order.
pub open spec fn server_steps(s: Server, inbox: Seq<Packet<Message>>) -> (
    Server,
    Seq<Packet<Message>>,
    Seq<Action>,
)
    decreases inbox.len(),
{
    if inbox.len() == 0 {
        (s, Seq::empty(), Seq::empty())
    } else {
        let (s1, out1, a1) = server_steps(s, inbox.drop_last());
        let (s2, out2, a2) = server_step1(s1, inbox.last());
        (s2, out1 + out2, a1 + a2)
    }
}

impl Server {
    /// A fresh acceptor: nothing promised, nothing accepted, undecided.
    pub fn new(id: usize) -> (s: Server)
        ensures
            s == (Server {
                id,
                t_max: 0usize,
                command: Command::Undefined,
                t_store: 0usize,
                decided: false,
            }),
    {
        Server { id, t_max: 0, command: Command::Undefined, t_store: 0, decided: false }
    }

    /// Process one round's mail in arrival order: answer every `Ask`
    /// whose ticket beats `t_max` with a `Grant`, accept every `Propose`
    /// whose ticket equals `t_max` with a `Success`, adopt and decide on
    /// every `Execute`, and silently drop the rest.
    pub fn exec(&mut self, inbox: Vec<Packet<Message>>) -> (r: (Vec<Packet<Message>>, Vec<Action>))
        requires
            forall|k: int| 0 <= k < inbox@.len() ==> server_accepts((#[trigger] inbox@[k]).content),
        ensures
            (*final(self), r.0@, r.1@) == server_steps(*old(self), inbox@),
    {
        let ghost s0 = *self;
        let mut outs: Vec<Packet<Message>> = Vec::new();
        let mut acts: Vec<Action> = Vec::new();
        let mut k: usize = 0;
        let inbox_len = inbox.len();
        proof {
            assert(inbox@.take(0) =~= Seq::<Packet<Message>>::empty());
        }
        while k < inbox_len
            invariant
                k <= inbox_len,
                inbox_len == inbox@.len(),
                forall|j: int|
                    0 <= j < inbox@.len() ==> server_accepts((#[trigger] inbox@[j]).content),
                (*self, outs@, acts@) == server_steps(s0, inbox@.take(k as int)),
            decreases inbox_len - k,
        {
            proof {
                assert(inbox@.take(k as int + 1).drop_last() =~= inbox@.take(k as int));
                assert(inbox@.take(k as int + 1).last() == inbox@[k as int]);
            }
            let p = inbox[k];
            acts.push(Action::Receive(p.sender, p.content));
            match p.content {
                Message::Ask(t) => {
                    let above = t > self.t_max;
                    acts.push(Action::Check(Cond::TicketAbove, t, self.t_max, above));
                    if above {
                        self.t_max = t;
                        acts.push(Action::Store(Var::TMax, Value::Ticket(t)));
                        let reply = Message::Grant(self.t_store, self.command);
                        acts.push(Action::Send(p.sender, reply));
                        outs.push(Packet { sender: self.id, receiver: p.sender, content: reply });
                    }
                },
                Message::Propose(t, c) => {
                    let matches_max = t == self.t_max;
                    acts.push(Action::Check(Cond::TicketMatches, t, self.t_max, matches_max));
                    if matches_max {
                        self.command = c;
                        acts.push(Action::Store(Var::ServerCmd, Value::Cmd(c)));
                        self.t_store = t;
                        acts.push(Action::Store(Var::TStore, Value::Ticket(t)));
                        acts.push(Action::Send(p.sender, Message::Success));
                        outs.push(
                            Packet { sender: self.id, receiver: p.sender, content: Message::Success },
                        );
                    }
                },
                Message::Execute(c) => {
                    self.command = c;
                    self.decided = true;
                    acts.push(Action::Decide(c));
                },
                _ => {
                    proof {
                        assert(false);
                    }
                },
            }
            proof {
                let (s1, out1, a1) = server_steps(s0, inbox@.take(k as int));
                let (s2, out2, a2) = server_step1(s1, inbox@[k as int]);
                assert(outs@ =~= out1 + out2);
                assert(acts@ =~= a1 + a2);
            }
            k += 1;
        }
        proof {
            assert(inbox@.take(inbox_len as int) =~= inbox@);
        }
        (outs, acts)
    }

    /// The command this server currently holds.
    pub fn get_command(&self) -> (c: Command)
        ensures
            c == self.command,
    {
        self.command
    }

    /// Whether an `Execute` has reached this server.
    pub fn has_decided(&self) -> (d: bool)
        ensures
            d == self.decided,
    {
        self.decided
    }
}

} // verus!
