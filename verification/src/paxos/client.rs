//! The proposer/learner state machine. A client requests a ticket from
//! every server, proposes its command once a strict majority grants the
//! ticket, and broadcasts `Execute` once a strict majority accepts; when
//! a majority fails to appear before the wait timer runs out it falls
//! back to requesting a fresh ticket.

use crate::network::Packet;
use crate::paxos::{Action, Command, Cond, Message, Phase, Ticket, Value, Var};
use crate::rng::{bool_draw, SimRng};
use crate::WAIT_DURATION;
use vstd::prelude::*;

verus! {

/// The proposer's state. `command` is the value it will propose; the
/// preservation rule may overwrite it with a previously accepted value.
pub struct Client {
    pub id: usize,
    pub wait_duration: usize,
    pub servers: Vec<usize>,
    pub command: Command,
    pub cur_ticket: Ticket,
    pub state: Phase,
    pub inbox: Vec<Packet<Message>>,
}

/// The mathematical value of a `Client`.
#[verifier::ext_equal]
pub ghost struct ClientV {
    pub id: usize,
    pub wait_duration: usize,
    pub servers: Seq<usize>,
    pub command: Command,
    pub cur_ticket: Ticket,
    pub state: Phase,
    pub inbox: Seq<Packet<Message>>,
}

impl View for Client {
    type V = ClientV;

    open spec fn view(&self) -> ClientV {
        ClientV {
            id: self.id,
            wait_duration: self.wait_duration,
            servers: self.servers@,
            command: self.command,
            cur_ticket: self.cur_ticket,
            state: self.state,
            inbox: self.inbox@,
        }
    }
}

/// The packets of an inbox that carry a `Grant`, in arrival order.
pub open spec fn grants_of(inbox: Seq<Packet<Message>>) -> Seq<Packet<Message>>
    decreases inbox.len(),
{
    if inbox.len() == 0 {
        Seq::empty()
    } else {
        let prev = grants_of(inbox.drop_last());
        if (inbox.last().content matches Message::Grant(_, _)) {
            prev.push(inbox.last())
        } else {
            prev
        }
    }
}

/// The packets of an inbox that carry a `Success`, in arrival order.
pub open spec fn successes_of(inbox: Seq<Packet<Message>>) -> Seq<Packet<Message>>
    decreases inbox.len(),
{
    if inbox.len() == 0 {
        Seq::empty()
    } else {
        let prev = successes_of(inbox.drop_last());
        if (inbox.last().content matches Message::Success) {
            prev.push(inbox.last())
        } else {
            prev
        }
    }
}

/// One `Receive` action per retained packet, in order.
pub open spec fn receives_of(inbox: Seq<Packet<Message>>) -> Seq<Action> {
    Seq::new(inbox.len(), |k: int| Action::Receive(inbox[k].sender, inbox[k].content))
}

/// The preservation fold: walk the granted packets in order and adopt
/// the command of every `Grant` whose `t_store` is positive and beats
/// the maximum seen so far. Returns the adopted command, the maximum,
/// and the `Store` actions emitted along the way.
pub open spec fn adopt(cmd: Command, max: Ticket, inbox: Seq<Packet<Message>>) -> (
    Command,
    Ticket,
    Seq<Action>,
)
    decreases inbox.len(),
{
    if inbox.len() == 0 {
        (cmd, max, Seq::empty())
    } else {
        let (c1, m1, a1) = adopt(cmd, max, inbox.drop_last());
        match inbox.last().content {
            Message::Grant(ts, cm) => {
                if ts > m1 && ts > 0 {
                    (cm, ts, a1.push(Action::Store(Var::ClientCmd, Value::Cmd(cm))))
                } else {
                    (c1, m1, a1)
                }
            },
            _ => (c1, m1, a1),
        }
    }
}

/// One `Ask(t)` packet per server, in server-list order.
pub open spec fn asks_to(servers: Seq<usize>, id: usize, t: Ticket) -> Seq<Packet<Message>> {
    Seq::new(
        servers.len(),
        |k: int| Packet { sender: id, receiver: servers[k], content: Message::Ask(t) },
    )
}

/// The `Send` actions of an `Ask` broadcast.
pub open spec fn ask_send_acts(servers: Seq<usize>, t: Ticket) -> Seq<Action> {
    Seq::new(servers.len(), |k: int| Action::Send(servers[k], Message::Ask(t)))
}

/// One `Propose` packet per granted packet, addressed to its sender.
pub open spec fn proposes_to(inbox: Seq<Packet<Message>>, id: usize, t: Ticket, c: Command) -> Seq<
    Packet<Message>,
> {
    Seq::new(
        inbox.len(),
        |k: int| Packet { sender: id, receiver: inbox[k].sender, content: Message::Propose(t, c) },
    )
}

/// The `Send` actions of a `Propose` round.
pub open spec fn propose_send_acts(inbox: Seq<Packet<Message>>, t: Ticket, c: Command) -> Seq<
    Action,
> {
    Seq::new(inbox.len(), |k: int| Action::Send(inbox[k].sender, Message::Propose(t, c)))
}

/// One `Execute` packet per server, in server-list order.
pub open spec fn executes_to(servers: Seq<usize>, id: usize, c: Command) -> Seq<Packet<Message>> {
    Seq::new(
        servers.len(),
        |k: int| Packet { sender: id, receiver: servers[k], content: Message::Execute(c) },
    )
}

/// The `Send` actions of an `Execute` broadcast.
pub open spec fn execute_send_acts(servers: Seq<usize>, c: Command) -> Seq<Action> {
    Seq::new(servers.len(), |k: int| Action::Send(servers[k], Message::Execute(c)))
}

/// The client state, outgoing packets and trace actions of one round:
/// the arrived packets join the inbox, then the current phase decides.
pub open spec fn client_step(c: ClientV, arrived: Seq<Packet<Message>>) -> (
    ClientV,
    Seq<Packet<Message>>,
    Seq<Action>,
) {
    let mail = c.inbox + arrived;
    let count = c.servers.len();
    match c.state {
        Phase::AskingTicket => {
            let t = (c.cur_ticket + 1) as usize;
            (
                ClientV {
                    inbox: Seq::empty(),
                    cur_ticket: t,
                    state: Phase::Proposing,
                    wait_duration: WAIT_DURATION,
                    ..c
                },
                asks_to(c.servers, c.id, t),
                seq![Action::Store(Var::CurTicket, Value::Ticket(t))] + ask_send_acts(c.servers, t)
                    + seq![Action::StateChange(Phase::AskingTicket, Phase::Proposing)],
            )
        },
        Phase::Proposing => {
            let kept = grants_of(mail);
            let majority = kept.len() > count / 2;
            let base_acts = receives_of(kept) + seq![
                Action::Check(Cond::OkMajority, kept.len() as usize, count as usize, majority),
            ];
            if majority {
                let (cmd, mx, stores) = adopt(c.command, 0, kept);
                (
                    ClientV {
                        inbox: kept,
                        command: cmd,
                        state: Phase::AwaitingSuccess,
                        wait_duration: WAIT_DURATION,
                        ..c
                    },
                    proposes_to(kept, c.id, c.cur_ticket, cmd),
                    base_acts + stores + propose_send_acts(kept, c.cur_ticket, cmd) + seq![
                        Action::StateChange(Phase::Proposing, Phase::AwaitingSuccess),
                    ],
                )
            } else if c.wait_duration == 0 {
                (
                    ClientV { inbox: kept, state: Phase::AskingTicket, ..c },
                    Seq::empty(),
                    base_acts + seq![Action::StateChange(Phase::Proposing, Phase::AskingTicket)],
                )
            } else {
                (
                    ClientV { inbox: kept, wait_duration: (c.wait_duration - 1) as usize, ..c },
                    Seq::empty(),
                    base_acts,
                )
            }
        },
        Phase::AwaitingSuccess => {
            let kept = successes_of(mail);
            let majority = kept.len() > count / 2;
            let base_acts = receives_of(kept) + seq![
                Action::Check(Cond::SuccessMajority, kept.len() as usize, count as usize, majority),
            ];
            if majority {
                (
                    ClientV {
                        inbox: kept,
                        state: Phase::Done,
                        wait_duration: WAIT_DURATION,
                        ..c
                    },
                    executes_to(c.servers, c.id, c.command),
                    base_acts + execute_send_acts(c.servers, c.command) + seq![
                        Action::StateChange(Phase::AwaitingSuccess, Phase::Done),
                    ],
                )
            } else if c.wait_duration == 0 {
                (
                    ClientV { inbox: kept, state: Phase::AskingTicket, ..c },
                    Seq::empty(),
                    base_acts + seq![
                        Action::StateChange(Phase::AwaitingSuccess, Phase::AskingTicket),
                    ],
                )
            } else {
                (
                    ClientV { inbox: kept, wait_duration: (c.wait_duration - 1) as usize, ..c },
                    Seq::empty(),
                    base_acts,
                )
            }
        },
        Phase::Done => (ClientV { inbox: Seq::empty(), ..c }, Seq::empty(), Seq::empty()),
    }
}



/// Every granted packet kept by the filter is a `Grant` out of the mail,
/// so any property of all mail packets holds of it.
pub proof fn lemma_grants_pred(inbox: Seq<Packet<Message>>, pred: spec_fn(Packet<Message>) -> bool)
    requires
        forall|k: int| 0 <= k < inbox.len() ==> pred(#[trigger] inbox[k]),
    ensures
        forall|k: int|
            0 <= k < grants_of(inbox).len() ==> pred(#[trigger] grants_of(inbox)[k]) && (grants_of(
                inbox,
            )[k].content matches Message::Grant(_, _)),
    decreases inbox.len(),
{
    if inbox.len() > 0 {
        assert(forall|k: int|
            0 <= k < inbox.drop_last().len() ==> pred(#[trigger] inbox.drop_last()[k]));
        lemma_grants_pred(inbox.drop_last(), pred);
        let prev = grants_of(inbox.drop_last());
        assert(pred(inbox[inbox.len() - 1]));
        assert forall|k: int| 0 <= k < grants_of(inbox).len() implies pred(
            #[trigger] grants_of(inbox)[k],
        ) && (grants_of(inbox)[k].content matches Message::Grant(_, _)) by {
            if (inbox.last().content matches Message::Grant(_, _)) {
                assert(grants_of(inbox) == prev.push(inbox.last()));
                if k < prev.len() {
                    assert(grants_of(inbox)[k] == prev[k]);
                } else {
                    assert(grants_of(inbox)[k] == inbox.last());
                }
            } else {
                assert(grants_of(inbox) == prev);
                assert(grants_of(inbox)[k] == prev[k]);
            }
        }
    }
}

/// Every success packet kept by the filter is a `Success` out of the
/// mail, so any property of all mail packets holds of it.
pub proof fn lemma_successes_pred(
    inbox: Seq<Packet<Message>>,
    pred: spec_fn(Packet<Message>) -> bool,
)
    requires
        forall|k: int| 0 <= k < inbox.len() ==> pred(#[trigger] inbox[k]),
    ensures
        forall|k: int|
            0 <= k < successes_of(inbox).len() ==> pred(#[trigger] successes_of(inbox)[k]) && (
            successes_of(inbox)[k].content matches Message::Success),
    decreases inbox.len(),
{
    if inbox.len() > 0 {
        assert(forall|k: int|
            0 <= k < inbox.drop_last().len() ==> pred(#[trigger] inbox.drop_last()[k]));
        lemma_successes_pred(inbox.drop_last(), pred);
        let prev = successes_of(inbox.drop_last());
        assert(pred(inbox[inbox.len() - 1]));
        assert forall|k: int| 0 <= k < successes_of(inbox).len() implies pred(
            #[trigger] successes_of(inbox)[k],
        ) && (successes_of(inbox)[k].content matches Message::Success) by {
            if (inbox.last().content matches Message::Success) {
                assert(successes_of(inbox) == prev.push(inbox.last()));
                if k < prev.len() {
                    assert(successes_of(inbox)[k] == prev[k]);
                } else {
                    assert(successes_of(inbox)[k] == inbox.last());
                }
            } else {
                assert(successes_of(inbox) == prev);
                assert(successes_of(inbox)[k] == prev[k]);
            }
        }
    }
}

/// The preservation fold keeps a defined command defined: it only ever
/// adopts the command of a `Grant` whose `t_store` is positive, and such
/// a command is defined whenever the mail is well-formed.
pub proof fn lemma_adopt_defined(cmd: Command, max: Ticket, inbox: Seq<Packet<Message>>)
    requires
        cmd is Defined,
        forall|k: int|
            0 <= k < inbox.len() ==> match (#[trigger] inbox[k]).content {
                Message::Grant(ts, cm) => ts > 0 ==> cm is Defined,
                _ => true,
            },
    ensures
        adopt(cmd, max, inbox).0 is Defined,
        adopt(cmd, max, inbox).1 >= max,
    decreases inbox.len(),
{
    if inbox.len() > 0 {
        assert(match inbox[inbox.len() - 1].content {
            Message::Grant(ts, cm) => ts > 0 ==> cm is Defined,
            _ => true,
        });
        lemma_adopt_defined(cmd, max, inbox.drop_last());
    }
}

impl Client {
    /// A fresh proposer holding `command`.
    pub fn new(id: usize, servers: Vec<usize>, command: Command) -> (c: Client)
        ensures
            c@ == (ClientV {
                id,
                wait_duration: 0usize,
                servers: servers@,
                command,
                cur_ticket: 0usize,
                state: Phase::AskingTicket,
                inbox: Seq::<Packet<Message>>::empty(),
            }),
    {
        Client {
            id,
            wait_duration: 0,
            servers,
            command,
            cur_ticket: 0,
            state: Phase::AskingTicket,
            inbox: Vec::new(),
        }
    }

    /// A fresh proposer whose command is a uniformly drawn boolean.
    pub fn new_rand(id: usize, servers: Vec<usize>, rng: &mut SimRng) -> (c: Client)
        ensures
            c@.id == id,
            c@.wait_duration == 0,
            c@.servers == servers@,
            c@.cur_ticket == 0,
            c@.state == Phase::AskingTicket,
            c@.inbox == Seq::<Packet<Message>>::empty(),
            c@.command is Defined,
            final(rng).seed == old(rng).seed,
            final(rng).ops@ == old(rng).ops@.push(crate::rng::bool_op()),
            old(rng).seed@ matches Some(s) ==> c@.command == Command::Defined(
                bool_draw(s, old(rng).ops@),
            ),
    {
        let b = rng.gen_bool();
        Client {
            id,
            wait_duration: 0,
            servers,
            command: Command::Defined(b),
            cur_ticket: 0,
            state: Phase::AskingTicket,
            inbox: Vec::new(),
        }
    }

    /// Append this round's arrived packets to the inbox.
    fn get_mail(&mut self, arrived: &Vec<Packet<Message>>)
        ensures
            final(self)@ == (ClientV { inbox: old(self)@.inbox + arrived@, ..old(self)@ }),
    {
        let mut k: usize = 0;
        let arrived_len = arrived.len();
        proof {
            assert(self.inbox@ =~= old(self)@.inbox + arrived@.take(0));
        }
        while k < arrived_len
            invariant
                k <= arrived_len,
                arrived_len == arrived@.len(),
                self@ == (ClientV { inbox: old(self)@.inbox + arrived@.take(k as int), ..old(
                    self,
                )@ }),
            decreases arrived_len - k,
        {
            self.inbox.push(arrived[k]);
            proof {
                assert(old(self)@.inbox + arrived@.take(k as int + 1) =~= (old(self)@.inbox
                    + arrived@.take(k as int)).push(arrived@[k as int]));
            }
            k += 1;
        }
        proof {
            assert(old(self)@.inbox + arrived@.take(arrived_len as int) =~= old(self)@.inbox
                + arrived@);
        }
    }

    /// Restart the wait timer.
    fn reset_wait(&mut self)
        ensures
            final(self)@ == (ClientV { wait_duration: WAIT_DURATION, ..old(self)@ }),
    {
        self.wait_duration = WAIT_DURATION;
    }

    /// One round of the proposer: fold the arrived packets into the
    /// inbox, then act as the current phase demands. Returns the packets
    /// to send and the trace actions, in execution order.
    pub fn exec(&mut self, arrived: Vec<Packet<Message>>) -> (r: (Vec<Packet<Message>>, Vec<Action>))
        requires
            old(self).cur_ticket < usize::MAX,
        ensures
            (final(self)@, r.0@, r.1@) == client_step(old(self)@, arrived@),
    {
        let ghost c0 = old(self)@;
        self.get_mail(&arrived);
        let ghost mail = c0.inbox + arrived@;
        let server_count = self.servers.len();
        match self.state {
            Phase::AskingTicket => {
                self.inbox.clear();
                self.cur_ticket = self.cur_ticket + 1;
                let t = self.cur_ticket;
                let mut acts: Vec<Action> = Vec::new();
                acts.push(Action::Store(Var::CurTicket, Value::Ticket(t)));
                let mut outs: Vec<Packet<Message>> = Vec::new();
                let mut i: usize = 0;
                while i < server_count
                    invariant
                        i <= server_count,
                        server_count == self.servers@.len(),
                        self.servers@ == c0.servers,
                        self.id == c0.id,
                        outs@.len() == i,
                        forall|j: int|
                            0 <= j < i ==> outs@[j] == (Packet {
                                sender: c0.id,
                                receiver: c0.servers[j],
                                content: Message::Ask(t),
                            }),
                        acts@.len() == 1 + i,
                        acts@[0] == Action::Store(Var::CurTicket, Value::Ticket(t)),
                        forall|j: int|
                            0 <= j < i ==> acts@[1 + j] == Action::Send(
                                c0.servers[j],
                                Message::Ask(t),
                            ),
                    decreases server_count - i,
                {
                    let sid = self.servers[i];
                    outs.push(Packet { sender: self.id, receiver: sid, content: Message::Ask(t) });
                    acts.push(Action::Send(sid, Message::Ask(t)));
                    i += 1;
                }
                acts.push(Action::StateChange(Phase::AskingTicket, Phase::Proposing));
                self.state = Phase::Proposing;
                self.reset_wait();
                proof {
                    let (c1, o1, a1) = client_step(c0, arrived@);
                    assert(outs@ =~= o1);
                    assert(acts@ =~= a1);
                    assert(self@ =~= c1);
                }
                (outs, acts)
            },
            Phase::Proposing => {
                let mut kept: Vec<Packet<Message>> = Vec::new();
                let inbox_len = self.inbox.len();
                let mut k: usize = 0;
                proof {
                    assert(self.inbox@ == mail);
                    assert(kept@ =~= grants_of(mail.take(0)));
                }
                while k < inbox_len
                    invariant
                        k <= inbox_len,
                        inbox_len == self.inbox@.len(),
                        self.inbox@ == mail,
                        kept@ == grants_of(mail.take(k as int)),
                    decreases inbox_len - k,
                {
                    proof {
                        assert(mail.take(k as int + 1).drop_last() =~= mail.take(k as int));
                        assert(mail.take(k as int + 1).last() == mail[k as int]);
                    }
                    let p = self.inbox[k];
                    if matches!(p.content, Message::Grant(_, _)) {
                        kept.push(p);
                    }
                    k += 1;
                }
                proof {
                    assert(mail.take(inbox_len as int) =~= mail);
                }
                self.inbox = kept;
                let ghost keptv = grants_of(mail);
                let kept_len = self.inbox.len();
                let mut acts: Vec<Action> = Vec::new();
                let mut k2: usize = 0;
                while k2 < kept_len
                    invariant
                        k2 <= kept_len,
                        kept_len == self.inbox@.len(),
                        self.inbox@ == keptv,
                        acts@.len() == k2,
                        forall|j: int|
                            0 <= j < k2 ==> acts@[j] == Action::Receive(
                                keptv[j].sender,
                                keptv[j].content,
                            ),
                    decreases kept_len - k2,
                {
                    let p = self.inbox[k2];
                    acts.push(Action::Receive(p.sender, p.content));
                    k2 += 1;
                }
                let majority = kept_len > server_count / 2;
                acts.push(
                    Action::Check(Cond::OkMajority, kept_len, server_count, majority),
                );
                proof {
                    assert(acts@ =~= receives_of(keptv) + seq![
                        Action::Check(
                            Cond::OkMajority,
                            keptv.len() as usize,
                            c0.servers.len() as usize,
                            majority,
                        ),
                    ]);
                }
                let ghost acts_base = acts@;
                let mut outs: Vec<Packet<Message>> = Vec::new();
                if majority {
                    let mut mx: usize = 0;
                    let mut k3: usize = 0;
                    proof {
                        assert(keptv.take(0) =~= Seq::<Packet<Message>>::empty());
                        assert(acts@ =~= acts_base + adopt(c0.command, 0, keptv.take(0)).2);
                    }
                    while k3 < kept_len
                        invariant
                            k3 <= kept_len,
                            kept_len == self.inbox@.len(),
                            self.inbox@ == keptv,
                            self.id == c0.id,
                            self.servers@ == c0.servers,
                            self.cur_ticket == c0.cur_ticket,
                            self.state == Phase::Proposing,
                            self.wait_duration == c0.wait_duration,
                            self.command == adopt(c0.command, 0, keptv.take(k3 as int)).0,
                            mx == adopt(c0.command, 0, keptv.take(k3 as int)).1,
                            acts@ == acts_base + adopt(c0.command, 0, keptv.take(k3 as int)).2,
                        decreases kept_len - k3,
                    {
                        proof {
                            assert(keptv.take(k3 as int + 1).drop_last() =~= keptv.take(
                                k3 as int,
                            ));
                            assert(keptv.take(k3 as int + 1).last() == keptv[k3 as int]);
                        }
                        let p = self.inbox[k3];
                        match p.content {
                            Message::Grant(ts, cm) => {
                                if ts > mx && ts > 0 {
                                    mx = ts;
                                    acts.push(Action::Store(Var::ClientCmd, Value::Cmd(cm)));
                                    self.command = cm;
                                    proof {
                                        assert(acts_base + adopt(
                                            c0.command,
                                            0,
                                            keptv.take(k3 as int + 1),
                                        ).2 =~= (acts_base + adopt(
                                            c0.command,
                                            0,
                                            keptv.take(k3 as int),
                                        ).2).push(Action::Store(Var::ClientCmd, Value::Cmd(cm))));
                                    }
                                }
                            },
                            _ => {},
                        }
                        k3 += 1;
                    }
                    proof {
                        assert(keptv.take(kept_len as int) =~= keptv);
                    }
                    let t = self.cur_ticket;
                    let cmd = self.command;
                    let ghost acts_mid = acts@;
                    let mut k4: usize = 0;
                    while k4 < kept_len
                        invariant
                            k4 <= kept_len,
                            kept_len == self.inbox@.len(),
                            self.inbox@ == keptv,
                            self.id == c0.id,
                            outs@.len() == k4,
                            forall|j: int|
                                0 <= j < k4 ==> outs@[j] == (Packet {
                                    sender: c0.id,
                                    receiver: keptv[j].sender,
                                    content: Message::Propose(t, cmd),
                                }),
                            acts@.len() == acts_mid.len() + k4,
                            forall|j: int| 0 <= j < acts_mid.len() ==> acts@[j] == acts_mid[j],
                            forall|j: int|
                                0 <= j < k4 ==> acts@[acts_mid.len() + j] == Action::Send(
                                    keptv[j].sender,
                                    Message::Propose(t, cmd),
                                ),
                        decreases kept_len - k4,
                    {
                        let p = self.inbox[k4];
                        outs.push(
                            Packet {
                                sender: self.id,
                                receiver: p.sender,
                                content: Message::Propose(t, cmd),
                            },
                        );
                        acts.push(Action::Send(p.sender, Message::Propose(t, cmd)));
                        k4 += 1;
                    }
                    acts.push(Action::StateChange(Phase::Proposing, Phase::AwaitingSuccess));
                    self.state = Phase::AwaitingSuccess;
                    self.reset_wait();
                    proof {
                        let (c1, o1, a1) = client_step(c0, arrived@);
                        assert(outs@ =~= o1);
                        assert(acts@ =~= a1);
                        assert(self@ =~= c1);
                    }
                } else if self.wait_duration == 0 {
                    acts.push(Action::StateChange(Phase::Proposing, Phase::AskingTicket));
                    self.state = Phase::AskingTicket;
                    proof {
                        let (c1, o1, a1) = client_step(c0, arrived@);
                        assert(outs@ =~= o1);
                        assert(acts@ =~= a1);
                        assert(self@ =~= c1);
                    }
                } else {
                    self.wait_duration = self.wait_duration - 1;
                    proof {
                        let (c1, o1, a1) = client_step(c0, arrived@);
                        assert(outs@ =~= o1);
                        assert(acts@ =~= a1);
                        assert(self@ =~= c1);
                    }
                }
                (outs, acts)
            },
            Phase::AwaitingSuccess => {
                let mut kept: Vec<Packet<Message>> = Vec::new();
                let inbox_len = self.inbox.len();
                let mut k: usize = 0;
                proof {
                    assert(self.inbox@ == mail);
                    assert(kept@ =~= successes_of(mail.take(0)));
                }
                while k < inbox_len
                    invariant
                        k <= inbox_len,
                        inbox_len == self.inbox@.len(),
                        self.inbox@ == mail,
                        kept@ == successes_of(mail.take(k as int)),
                    decreases inbox_len - k,
                {
                    proof {
                        assert(mail.take(k as int + 1).drop_last() =~= mail.take(k as int));
                        assert(mail.take(k as int + 1).last() == mail[k as int]);
                    }
                    let p = self.inbox[k];
                    if matches!(p.content, Message::Success) {
                        kept.push(p);
                    }
                    k += 1;
                }
                proof {
                    assert(mail.take(inbox_len as int) =~= mail);
                }
                self.inbox = kept;
                let ghost keptv = successes_of(mail);
                let kept_len = self.inbox.len();
                let mut acts: Vec<Action> = Vec::new();
                let mut k2: usize = 0;
                while k2 < kept_len
                    invariant
                        k2 <= kept_len,
                        kept_len == self.inbox@.len(),
                        self.inbox@ == keptv,
                        acts@.len() == k2,
                        forall|j: int|
                            0 <= j < k2 ==> acts@[j] == Action::Receive(
                                keptv[j].sender,
                                keptv[j].content,
                            ),
                    decreases kept_len - k2,
                {
                    let p = self.inbox[k2];
                    acts.push(Action::Receive(p.sender, p.content));
                    k2 += 1;
                }
                let majority = kept_len > server_count / 2;
                acts.push(
                    Action::Check(Cond::SuccessMajority, kept_len, server_count, majority),
                );
                proof {
                    assert(acts@ =~= receives_of(keptv) + seq![
                        Action::Check(
                            Cond::SuccessMajority,
                            keptv.len() as usize,
                            c0.servers.len() as usize,
                            majority,
                        ),
                    ]);
                }
                let ghost acts_mid = acts@;
                let mut outs: Vec<Packet<Message>> = Vec::new();
                if majority {
                    let cmd = self.command;
                    let mut i: usize = 0;
                    while i < server_count
                        invariant
                            i <= server_count,
                            server_count == self.servers@.len(),
                            self.servers@ == c0.servers,
                            self.id == c0.id,
                            outs@.len() == i,
                            forall|j: int|
                                0 <= j < i ==> outs@[j] == (Packet {
                                    sender: c0.id,
                                    receiver: c0.servers[j],
                                    content: Message::Execute(cmd),
                                }),
                            acts@.len() == acts_mid.len() + i,
                            forall|j: int| 0 <= j < acts_mid.len() ==> acts@[j] == acts_mid[j],
                            forall|j: int|
                                0 <= j < i ==> acts@[acts_mid.len() + j] == Action::Send(
                                    c0.servers[j],
                                    Message::Execute(cmd),
                                ),
                        decreases server_count - i,
                    {
                        let sid = self.servers[i];
                        outs.push(
                            Packet { sender: self.id, receiver: sid, content: Message::Execute(cmd) },
                        );
                        acts.push(Action::Send(sid, Message::Execute(cmd)));
                        i += 1;
                    }
                    acts.push(Action::StateChange(Phase::AwaitingSuccess, Phase::Done));
                    self.state = Phase::Done;
                    self.reset_wait();
                    proof {
                        let (c1, o1, a1) = client_step(c0, arrived@);
                        assert(outs@ =~= o1);
                        assert(acts@ =~= a1);
                        assert(self@ =~= c1);
                    }
                } else if self.wait_duration == 0 {
                    acts.push(Action::StateChange(Phase::AwaitingSuccess, Phase::AskingTicket));
                    self.state = Phase::AskingTicket;
                    proof {
                        let (c1, o1, a1) = client_step(c0, arrived@);
                        assert(outs@ =~= o1);
                        assert(acts@ =~= a1);
                        assert(self@ =~= c1);
                    }
                } else {
                    self.wait_duration = self.wait_duration - 1;
                    proof {
                        let (c1, o1, a1) = client_step(c0, arrived@);
                        assert(outs@ =~= o1);
                        assert(acts@ =~= a1);
                        assert(self@ =~= c1);
                    }
                }
                (outs, acts)
            },
            Phase::Done => {
                self.inbox.clear();
                proof {
                    let (c1, o1, a1) = client_step(c0, arrived@);
                    assert(Seq::<Packet<Message>>::empty() =~= o1);
                    assert(Seq::<Action>::empty() =~= a1);
                    assert(self@ =~= c1);
                }
                (Vec::new(), Vec::new())
            },
        }
    }

    /// The command this client currently holds.
    pub fn get_command(&self) -> (c: Command)
        ensures
            c == self.command,
    {
        self.command
    }
}

} // verus!
