//! Single-decree Paxos over the simulated network: message and command
//! types, the trace vocabulary, and the system that owns the nodes and
//! runs the round loop.

use crate::history::{Actor, History, Iteration};
use crate::network::{
    all_packets, exchange_spec, lat_matrix_wf, latency_matrix, net_wf, LinkV, Network, NetworkV,
    Packet,
};
use crate::rng::{bool_draw, bool_ops, SimRng};
use crate::MAX_LATENCY;
use client::{client_step, Client, ClientV};
use server::{server_step1, server_steps, Server};
use crate::text::usize_to_string;
use vstd::pervasive::VecAdditionalExecFns;
use vstd::string::StringExecFns;
use vstd::prelude::*;

pub mod client;
pub mod laws;
pub mod server;

verus! {

/// A Paxos proposal number; totally ordered, per-proposer monotonic.
pub type Ticket = usize;

/// The value the protocol decides on. `Undefined` is the initial server
/// value and means "no command ever accepted".
#[derive(Clone, Copy, PartialEq, Eq, Structural, Debug)]
pub enum Command {
    Defined(bool),
    Undefined,
}

/// The protocol messages.
///
/// `Grant(t_store, c)` is the acceptor's answer to an `Ask`: it grants
/// the ticket and reports the highest ticket at which it previously
/// accepted, with the associated command.
#[derive(Clone, Copy, PartialEq, Eq, Structural, Debug)]
pub enum Message {
    Ask(Ticket),
    Grant(Ticket, Command),
    Propose(Ticket, Command),
    Success,
    Execute(Command),
}

/// A variable a node stores into, for the trace.
#[derive(Clone, Copy, PartialEq, Eq, Structural, Debug)]
pub enum Var {
    CurTicket,
    ClientCmd,
    TMax,
    TStore,
    ServerCmd,
}

/// A stored value, for the trace.
#[derive(Clone, Copy, PartialEq, Eq, Structural, Debug)]
pub enum Value {
    Ticket(Ticket),
    Cmd(Command),
}

/// A condition a node checks, for the trace.
#[derive(Clone, Copy, PartialEq, Eq, Structural, Debug)]
pub enum Cond {
    OkMajority,
    SuccessMajority,
    TicketAbove,
    TicketMatches,
}

/// The phases of the client state machine.
#[derive(Clone, Copy, PartialEq, Eq, Structural, Debug)]
pub enum Phase {
    AskingTicket,
    Proposing,
    AwaitingSuccess,
    Done,
}

/// One observed action of a node, in execution order.
#[derive(Clone, Copy, PartialEq, Eq, Structural, Debug)]
pub enum Action {
    Store(Var, Value),
    Send(usize, Message),
    Receive(usize, Message),
    StateChange(Phase, Phase),
    Check(Cond, usize, usize, bool),
    Decide(Command),
}


impl Command {
    /// A short rendering: the decided boolean, or a mark for "undefined".
    pub fn as_string(&self) -> String {
        match self {
            Command::Defined(true) => String::from_str("1"),
            Command::Defined(false) => String::from_str("0"),
            Command::Undefined => String::from_str("undef"),
        }
    }
}

impl Message {
    /// The message with its payload, rendered.
    pub fn as_string(&self) -> String {
        match self {
            Message::Ask(t) => {
                let mut s = String::from_str("Ask(");
                s.append(usize_to_string(*t).as_str());
                s.append(")");
                s
            },
            Message::Grant(t, c) => {
                let mut s = String::from_str("Ok(");
                s.append(usize_to_string(*t).as_str());
                s.append(", ");
                s.append(c.as_string().as_str());
                s.append(")");
                s
            },
            Message::Propose(t, c) => {
                let mut s = String::from_str("Propose(");
                s.append(usize_to_string(*t).as_str());
                s.append(", ");
                s.append(c.as_string().as_str());
                s.append(")");
                s
            },
            Message::Success => String::from_str("Success"),
            Message::Execute(c) => {
                let mut s = String::from_str("Execute(");
                s.append(c.as_string().as_str());
                s.append(")");
                s
            },
        }
    }
}

impl Var {
    /// The stored variable's name.
    pub fn as_string(&self) -> String {
        match self {
            Var::CurTicket => String::from_str("t"),
            Var::ClientCmd => String::from_str("c"),
            Var::TMax => String::from_str("t_max"),
            Var::TStore => String::from_str("t_store"),
            Var::ServerCmd => String::from_str("C"),
        }
    }
}

impl Phase {
    /// The numeric label of the phase, as the state machine counts them.
    pub fn as_string(&self) -> String {
        match self {
            Phase::AskingTicket => String::from_str("0"),
            Phase::Proposing => String::from_str("1"),
            Phase::AwaitingSuccess => String::from_str("2"),
            Phase::Done => String::from_str("3"),
        }
    }
}

impl crate::history::Action for Action {
    fn as_string(&self) -> String {
        match self {
            Action::Store(var, value) => {
                let mut s = String::from_str("store ");
                s.append(var.as_string().as_str());
                s.append(" = ");
                match value {
                    Value::Ticket(t) => s.append(usize_to_string(*t).as_str()),
                    Value::Cmd(c) => s.append(c.as_string().as_str()),
                }
                s
            },
            Action::Send(receiver, message) => {
                let mut s = String::from_str("send ");
                s.append(message.as_string().as_str());
                s.append(" to ");
                s.append(usize_to_string(*receiver).as_str());
                s
            },
            Action::Receive(sender, message) => {
                let mut s = String::from_str("received ");
                s.append(message.as_string().as_str());
                s.append(" from ");
                s.append(usize_to_string(*sender).as_str());
                s
            },
            Action::StateChange(from, to) => {
                let mut s = String::from_str("change state from ");
                s.append(from.as_string().as_str());
                s.append(" to ");
                s.append(to.as_string().as_str());
                s
            },
            Action::Check(cond, left, right, result) => {
                let mut s = String::from_str("check ");
                s.append(match cond {
                    Cond::OkMajority => "#received ok's > #nr servers / 2",
                    Cond::SuccessMajority => "#received successes' > #nr servers / 2",
                    Cond::TicketAbove => "received ticket > t_max",
                    Cond::TicketMatches => "received ticket == t_max",
                });
                s.append(": ");
                s.append(usize_to_string(*left).as_str());
                s.append(" vs ");
                s.append(usize_to_string(*right).as_str());
                s.append(" => ");
                s.append(if *result {
                    "true"
                } else {
                    "false"
                });
                s
            },
            Action::Decide(command) => {
                let mut s = String::from_str("decides for ");
                s.append(command.as_string().as_str());
                s
            },
        }
    }
}


/// The list of server node ids, `0` up to `scount`.
pub open spec fn server_id_list(scount: int) -> Seq<usize> {
    Seq::new(scount as nat, |i: int| i as usize)
}

/// A server's local invariant: it never accepted beyond what it
/// promised, and once it accepted anything its command is defined.
pub open spec fn server_wf(s: Server) -> bool {
    s.t_store <= s.t_max && (s.t_store > 0 ==> s.command is Defined)
}

/// A packet the protocol can have produced in a system of `n` nodes of
/// which the first `scount` are servers: client-role messages flow from
/// clients to servers, server-role messages flow back, and the commands
/// they carry are defined.
pub open spec fn good_packet(p: Packet<Message>, scount: int, n: int) -> bool {
    &&& p.sender < n
    &&& p.receiver < n
    &&& match p.content {
        Message::Ask(_) => p.receiver < scount && scount <= p.sender,
        Message::Propose(_, c) => p.receiver < scount && scount <= p.sender && c is Defined,
        Message::Execute(c) => p.receiver < scount && scount <= p.sender && c is Defined,
        Message::Grant(ts, c) => p.sender < scount && scount <= p.receiver && (ts > 0
            ==> c is Defined),
        Message::Success => p.sender < scount && scount <= p.receiver,
    }
}

/// The mathematical value of a `System`.
#[verifier::ext_equal]
pub ghost struct SystemV {
    pub servers: Seq<Server>,
    pub clients: Seq<ClientV>,
    pub network: NetworkV<Message>,
}

/// A reachable system state: servers carry ids `0..scount` and their
/// local invariant, clients carry the following ids, the shared server
/// list and a defined command, the network is well-formed with one link
/// per node, and every packet anywhere, client inboxes included, is one
/// the protocol can have produced.
pub open spec fn sys_wf(m: SystemV) -> bool {
    let scount = m.servers.len() as int;
    let n = scount + m.clients.len() as int;
    &&& m.network.links.len() == n
    &&& net_wf(m.network)
    &&& forall|i: int|
        0 <= i < scount ==> (#[trigger] m.servers[i]).id == i && server_wf(m.servers[i])
    &&& forall|i: int|
        0 <= i < m.clients.len() ==> {
            let c = #[trigger] m.clients[i];
            c.id == scount + i && c.servers == server_id_list(scount) && c.command is Defined
        }
    &&& all_packets(m.network, |p: Packet<Message>| good_packet(p, scount, n))
    &&& forall|i: int, k: int|
        0 <= i < m.clients.len() && 0 <= k < m.clients[i].inbox.len() ==> good_packet(
            #[trigger] m.clients[i].inbox[k],
            scount,
            n,
        )
}

/// Every client's ticket is at most `b`.
pub open spec fn tickets_at_most(m: SystemV, b: int) -> bool {
    forall|i: int| 0 <= i < m.clients.len() ==> (#[trigger] m.clients[i]).cur_ticket <= b
}

/// The network after node `i` has run: its incoming buffer is drained
/// and its outgoing buffer has gained `outs`.
pub open spec fn node_exec_net(net: NetworkV<Message>, i: int, outs: Seq<Packet<Message>>) -> NetworkV<Message> {
    NetworkV {
        links: net.links.update(
            i,
            LinkV {
                id: net.links[i].id,
                in_buffer: Seq::empty(),
                out_buffer: net.links[i].out_buffer + outs,
            },
        ),
        ..net
    }
}

/// The system and the per-node traces after the first `k` servers have
/// run, in id order, each draining its own link.
pub open spec fn run_servers(m: SystemV, k: int) -> (SystemV, Seq<Seq<Action>>)
    decreases k,
{
    if k <= 0 {
        (m, Seq::empty())
    } else {
        let (m1, traces) = run_servers(m, k - 1);
        let i = k - 1;
        let inbox = m1.network.links[i].in_buffer;
        let (s2, outs, acts) = server_steps(m1.servers[i], inbox);
        (
            SystemV {
                servers: m1.servers.update(i, s2),
                network: node_exec_net(m1.network, i, outs),
                ..m1
            },
            traces.push(acts),
        )
    }
}

/// The system and the per-node traces after the first `k` clients have
/// run, in id order, each draining its own link.
pub open spec fn run_clients(m: SystemV, k: int) -> (SystemV, Seq<Seq<Action>>)
    decreases k,
{
    if k <= 0 {
        (m, Seq::empty())
    } else {
        let (m1, traces) = run_clients(m, k - 1);
        let ci = k - 1;
        let i = m1.servers.len() as int + k - 1;
        let arrived = m1.network.links[i].in_buffer;
        let (c2, outs, acts) = client_step(m1.clients[ci], arrived);
        (
            SystemV {
                clients: m1.clients.update(ci, c2),
                network: node_exec_net(m1.network, i, outs),
                ..m1
            },
            traces.push(acts),
        )
    }
}

/// One simulation round: the network exchanges messages, then every
/// node runs in id order, servers first.
pub open spec fn sys_step(m: SystemV) -> (SystemV, Seq<Seq<Action>>) {
    let m1 = SystemV { network: exchange_spec(m.network), ..m };
    let (m2, st) = run_servers(m1, m.servers.len() as int);
    let (m3, ct) = run_clients(m2, m.clients.len() as int);
    (m3, st + ct)
}

/// Every server has decided.
pub open spec fn sys_decided(m: SystemV) -> bool {
    forall|i: int| 0 <= i < m.servers.len() ==> (#[trigger] m.servers[i]).decided
}

/// The clients' commands, in id order.
pub open spec fn sys_commands(m: SystemV) -> Seq<Command> {
    Seq::new(m.clients.len(), |i: int| m.clients[i].command)
}

/// `Some(c)` exactly when there is at least one server and every server
/// holds `c`; `None` otherwise.
pub open spec fn sys_agree(m: SystemV) -> Option<Command> {
    if m.servers.len() == 0 {
        None
    } else if forall|i: int|
        0 <= i < m.servers.len() ==> (#[trigger] m.servers[i]).command == m.servers[0].command {
        Some(m.servers[0].command)
    } else {
        None
    }
}

/// The system after `k` rounds.
pub open spec fn sys_run(m: SystemV, k: nat) -> SystemV
    decreases k,
{
    if k == 0 {
        m
    } else {
        sys_step(sys_run(m, (k - 1) as nat)).0
    }
}

/// The traces of the first `k` rounds: one sequence of per-node traces
/// per round.
pub open spec fn sys_traces(m: SystemV, k: nat) -> Seq<Seq<Seq<Action>>>
    decreases k,
{
    if k == 0 {
        Seq::empty()
    } else {
        sys_traces(m, (k - 1) as nat).push(sys_step(sys_run(m, (k - 1) as nat)).1)
    }
}

/// How many rounds a simulation bounded by `max` performs: it stops at
/// the first decided state, or after `max` rounds.
pub open spec fn rounds_run(m: SystemV, max: nat) -> nat
    decreases max,
{
    if max == 0 || sys_decided(m) {
        0
    } else {
        (1 + rounds_run(sys_step(m).0, (max - 1) as nat)) as nat
    }
}

/// The per-round action sequences of a vector of action vectors.
pub open spec fn traces_view(v: Seq<Vec<Action>>) -> Seq<Seq<Action>> {
    Seq::new(v.len(), |i: int| v[i]@)
}

/// A server's round keeps its id, never lowers `t_max`, never clears
/// `decided`, preserves its local invariant, and sends only well-formed
/// server-role packets back to the clients that wrote to it.
pub proof fn lemma_server_steps_good(s: Server, inbox: Seq<Packet<Message>>, scount: int, n: int)
    requires
        0 <= s.id < scount <= n,
        server_wf(s),
        forall|k: int| 0 <= k < inbox.len() ==> good_packet(#[trigger] inbox[k], scount, n),
    ensures
        ({
            let (s2, outs, acts) = server_steps(s, inbox);
            &&& s2.id == s.id
            &&& s2.t_max >= s.t_max
            &&& (s.decided ==> s2.decided)
            &&& server_wf(s2)
            &&& forall|k: int|
                0 <= k < outs.len() ==> good_packet(#[trigger] outs[k], scount, n) && outs[k].sender
                    == s.id
        }),
    decreases inbox.len(),
{
    if inbox.len() > 0 {
        assert(forall|k: int|
            0 <= k < inbox.drop_last().len() ==> good_packet(
                #[trigger] inbox.drop_last()[k],
                scount,
                n,
            ));
        lemma_server_steps_good(s, inbox.drop_last(), scount, n);
        let (s1, out1, a1) = server_steps(s, inbox.drop_last());
        let p = inbox.last();
        assert(good_packet(inbox[inbox.len() - 1], scount, n));
        let (s2, out2, a2) = server_step1(s1, p);
        assert forall|k: int| 0 <= k < (out1 + out2).len() implies good_packet(
            #[trigger] (out1 + out2)[k],
            scount,
            n,
        ) && (out1 + out2)[k].sender == s.id by {
            if k < out1.len() {
                assert((out1 + out2)[k] == out1[k]);
            } else {
                assert((out1 + out2)[k] == out2[k - out1.len()]);
            }
        }
    }
}

/// A client's round keeps its id and server list, keeps its command
/// defined, raises its ticket by at most one, sends only well-formed
/// client-role packets to servers, and retains only well-formed packets.
pub proof fn lemma_client_step_good(c: ClientV, arrived: Seq<Packet<Message>>, scount: int, n: int)
    requires
        0 <= scount <= c.id < n,
        c.cur_ticket < usize::MAX,
        c.servers == server_id_list(scount),
        c.command is Defined,
        forall|k: int| 0 <= k < c.inbox.len() ==> good_packet(#[trigger] c.inbox[k], scount, n),
        forall|k: int| 0 <= k < arrived.len() ==> good_packet(#[trigger] arrived[k], scount, n),
    ensures
        ({
            let (c2, outs, acts) = client_step(c, arrived);
            &&& c2.id == c.id
            &&& c2.servers == c.servers
            &&& c2.command is Defined
            &&& c.cur_ticket <= c2.cur_ticket <= c.cur_ticket + 1
            &&& forall|k: int|
                0 <= k < outs.len() ==> good_packet(#[trigger] outs[k], scount, n) && outs[k].sender
                    == c.id
            &&& forall|k: int| 0 <= k < c2.inbox.len() ==> good_packet(
                #[trigger] c2.inbox[k],
                scount,
                n,
            )
        }),
{
    let mail = c.inbox + arrived;
    let pred = |p: Packet<Message>| good_packet(p, scount, n);
    assert forall|k: int| 0 <= k < mail.len() implies pred(#[trigger] mail[k]) by {
        if k < c.inbox.len() {
            assert(mail[k] == c.inbox[k]);
        } else {
            assert(mail[k] == arrived[k - c.inbox.len()]);
        }
    }
    let (c2, outs, acts) = client_step(c, arrived);
    match c.state {
        Phase::AskingTicket => {
            let t = (c.cur_ticket + 1) as usize;
            assert(outs == client::asks_to(c.servers, c.id, t));
            assert(outs.len() == scount);
            assert forall|k: int| 0 <= k < outs.len() implies good_packet(
                #[trigger] outs[k],
                scount,
                n,
            ) && outs[k].sender == c.id by {
                assert(0 <= k < scount);
                assert(c.servers[k] == server_id_list(scount)[k]);
                assert(server_id_list(scount)[k] == k as usize);
                assert(outs[k] == (Packet {
                    sender: c.id,
                    receiver: c.servers[k],
                    content: Message::Ask(t),
                }));
            }
        },
        Phase::Proposing => {
            client::lemma_grants_pred(mail, pred);
            let kept = client::grants_of(mail);
            assert forall|k: int| 0 <= k < c2.inbox.len() implies good_packet(
                #[trigger] c2.inbox[k],
                scount,
                n,
            ) by {
                assert(c2.inbox[k] == kept[k]);
                assert(pred(kept[k]));
            }
            let majority = kept.len() > c.servers.len() / 2;
            if majority {
                assert forall|k: int|
                    0 <= k < kept.len() implies match (#[trigger] kept[k]).content {
                    Message::Grant(ts, cm) => ts > 0 ==> cm is Defined,
                    _ => true,
                } by {
                    assert(pred(kept[k]));
                }
                client::lemma_adopt_defined(c.command, 0, kept);
                let cmd = client::adopt(c.command, 0, kept).0;
                assert forall|k: int| 0 <= k < outs.len() implies good_packet(
                    #[trigger] outs[k],
                    scount,
                    n,
                ) && outs[k].sender == c.id by {
                    assert(pred(kept[k]));
                    assert(outs[k] == (Packet {
                        sender: c.id,
                        receiver: kept[k].sender,
                        content: Message::Propose(c.cur_ticket, cmd),
                    }));
                }
            }
        },
        Phase::AwaitingSuccess => {
            client::lemma_successes_pred(mail, pred);
            let kept = client::successes_of(mail);
            assert forall|k: int| 0 <= k < c2.inbox.len() implies good_packet(
                #[trigger] c2.inbox[k],
                scount,
                n,
            ) by {
                assert(c2.inbox[k] == kept[k]);
                assert(pred(kept[k]));
            }
            let majority = kept.len() > c.servers.len() / 2;
            if majority {
                assert forall|k: int| 0 <= k < outs.len() implies good_packet(
                    #[trigger] outs[k],
                    scount,
                    n,
                ) && outs[k].sender == c.id by {
                    assert(server_id_list(scount)[k] == k as usize);
                    assert(outs[k] == (Packet {
                        sender: c.id,
                        receiver: c.servers[k],
                        content: Message::Execute(c.command),
                    }));
                }
            }
        },
        Phase::Done => {},
    }
}


/// The simulator: acceptors, proposers, and the network that carries
/// their messages. Node ids `0..servers.len()` are the servers; the
/// clients' ids follow.
pub struct System {
    pub servers: Vec<Server>,
    pub clients: Vec<Client>,
    pub network: Network<Message>,
}

impl View for System {
    type V = SystemV;

    open spec fn view(&self) -> SystemV {
        SystemV {
            servers: self.servers@,
            clients: Seq::new(self.clients@.len(), |i: int| self.clients@[i]@),
            network: self.network@,
        }
    }
}

impl System {
    /// One simulation round: exchange messages, then run every node in
    /// id order, servers first. Returns each node's trace, in that order.
    pub fn step(&mut self) -> (acts: Vec<Vec<Action>>)
        requires
            sys_wf(old(self)@),
            tickets_at_most(old(self)@, usize::MAX as int - 1),
        ensures
            final(self)@ == sys_step(old(self)@).0,
            traces_view(acts@) == sys_step(old(self)@).1,
            sys_wf(final(self)@),
            final(self)@.servers.len() == old(self)@.servers.len(),
            final(self)@.clients.len() == old(self)@.clients.len(),
            forall|j: int|
                0 <= j < old(self)@.clients.len() ==> (#[trigger] final(self)@.clients[j]).cur_ticket
                    <= old(self)@.clients[j].cur_ticket + 1,
    {
        let ghost m0 = old(self)@;
        let ghost scount = m0.servers.len() as int;
        let ghost n = scount + m0.clients.len() as int;
        self.network.exchange_messages();
        proof {
            crate::network::lemma_exchange_preserves(
                m0.network,
                |p: Packet<Message>| good_packet(p, scount, n),
            );
        }
        let ghost m1 = SystemV { network: exchange_spec(m0.network), ..m0 };
        proof {
            assert(self@ =~= m1);
            assert(sys_wf(m1));
        }
        let mut acts: Vec<Vec<Action>> = Vec::new();
        let server_count = self.servers.len();
        let client_count = self.clients.len();
        let mut i: usize = 0;
        proof {
            assert(traces_view(acts@) =~= run_servers(m1, 0).1);
        }
        while i < server_count
            invariant
                i <= server_count,
                server_count == self.servers@.len(),
                client_count == self.clients@.len(),
                scount == server_count as int,
                n == scount + client_count as int,
                sys_wf(m1),
                m1.servers.len() == scount,
                m1.clients.len() == client_count,
                self@ == run_servers(m1, i as int).0,
                traces_view(acts@) == run_servers(m1, i as int).1,
                acts@.len() == i,
                sys_wf(self@),
                self@.clients == m1.clients,
            decreases server_count - i,
        {
            let ghost mcur = self@;
            let inbox = self.network.get_link_ref(i).empty_buffer();
            let ghost inboxv = inbox@;
            proof {
                assert(inboxv == mcur.network.links[i as int].in_buffer);
                assert forall|k: int| 0 <= k < inboxv.len() implies server::server_accepts(
                    (#[trigger] inboxv[k]).content,
                ) by {
                    assert(good_packet(mcur.network.links[i as int].in_buffer[k], scount, n));
                    assert(mcur.network.links[i as int].in_buffer[k].receiver == i);
                }
                assert forall|k: int| 0 <= k < inboxv.len() implies good_packet(
                    #[trigger] inboxv[k],
                    scount,
                    n,
                ) by {
                    assert(good_packet(mcur.network.links[i as int].in_buffer[k], scount, n));
                }
            }
            let mut srv = self.servers[i];
            let r = srv.exec(inbox);
            let (mut outs, sacts) = r;
            self.servers.set(i, srv);
            self.network.get_link_ref(i).out_buffer.append(&mut outs);
            acts.push(sacts);
            proof {
                lemma_server_steps_good(mcur.servers[i as int], inboxv, scount, n);
                let (s2, souts, sactsv) = server_steps(mcur.servers[i as int], inboxv);
                let mnext = run_servers(m1, i as int + 1).0;
                assert(self@.servers =~= mcur.servers.update(i as int, s2));
                assert(self@.network.links =~= node_exec_net(mcur.network, i as int, souts).links);
                assert(self@.network =~~= node_exec_net(mcur.network, i as int, souts));
                assert(self@ =~~= mnext);
                assert(traces_view(acts@) =~= run_servers(m1, i as int + 1).1);
                // the new state is well-formed again
                assert(self@.clients =~= m1.clients);
                let net2 = self@.network;
                assert forall|a: int, k: int|
                    0 <= a < net2.links.len() && 0 <= k < net2.links[a].out_buffer.len() implies {
                    let p = #[trigger] net2.links[a].out_buffer[k];
                    crate::network::pkt_ids_ok(p, n) && p.sender == a && good_packet(p, scount, n)
                } by {
                    if a == i {
                        let oldlen = mcur.network.links[a].out_buffer.len() as int;
                        if k < oldlen {
                            assert(net2.links[a].out_buffer[k]
                                == mcur.network.links[a].out_buffer[k]);
                            assert(good_packet(mcur.network.links[a].out_buffer[k], scount, n));
                        } else {
                            assert(net2.links[a].out_buffer[k] == souts[k - oldlen]);
                        }
                    } else {
                        assert(net2.links[a].out_buffer[k] == mcur.network.links[a].out_buffer[k]);
                        assert(good_packet(mcur.network.links[a].out_buffer[k], scount, n));
                    }
                }
                assert forall|a: int, k: int|
                    0 <= a < net2.links.len() && 0 <= k < net2.links[a].in_buffer.len() implies {
                    let p = #[trigger] net2.links[a].in_buffer[k];
                    crate::network::pkt_ids_ok(p, n) && p.receiver == a && good_packet(p, scount, n)
                } by {
                    assert(a != i);
                    assert(net2.links[a].in_buffer[k] == mcur.network.links[a].in_buffer[k]);
                    assert(good_packet(mcur.network.links[a].in_buffer[k], scount, n));
                }
                assert(net_wf(net2));
                assert(sys_wf(self@));
            }
            i += 1;
        }
        let ghost m2 = run_servers(m1, scount).0;
        proof {
            assert(self@ == m2);
            assert(traces_view(acts@) == run_servers(m1, scount).1);
        }
        let mut ci: usize = 0;
        while ci < client_count
            invariant
                ci <= client_count,
                server_count == self.servers@.len(),
                client_count == self.clients@.len(),
                scount == server_count as int,
                n == scount + client_count as int,
                sys_wf(m2),
                m2.servers.len() == scount,
                m2.clients.len() == client_count,
                m2.clients == m0.clients,
                tickets_at_most(m0, usize::MAX as int - 1),
                self@ == run_clients(m2, ci as int).0,
                traces_view(acts@) == run_servers(m1, scount).1 + run_clients(m2, ci as int).1,
                acts@.len() == server_count + ci,
                sys_wf(self@),
                self@.servers == m2.servers,
                forall|j: int|
                    ci <= j < client_count ==> (#[trigger] self@.clients[j]) == m0.clients[j],
                forall|j: int|
                    0 <= j < ci ==> (#[trigger] self@.clients[j]).cur_ticket
                        <= m0.clients[j].cur_ticket + 1,
            decreases client_count - ci,
        {
            let ghost mcur = self@;
            let node_id = server_count + ci;
            let arrived = self.network.get_link_ref(node_id).empty_buffer();
            let ghost arrivedv = arrived@;
            proof {
                assert(arrivedv == mcur.network.links[node_id as int].in_buffer);
                assert(mcur.clients[ci as int] == m0.clients[ci as int]);
                assert(mcur.clients[ci as int].cur_ticket < usize::MAX);
                assert forall|k: int| 0 <= k < arrivedv.len() implies good_packet(
                    #[trigger] arrivedv[k],
                    scount,
                    n,
                ) by {
                    assert(good_packet(mcur.network.links[node_id as int].in_buffer[k], scount, n));
                }
            }
            let r = self.clients[ci].exec(arrived);
            let (mut outs, cacts) = r;
            self.network.get_link_ref(node_id).out_buffer.append(&mut outs);
            acts.push(cacts);
            proof {
                lemma_client_step_good(mcur.clients[ci as int], arrivedv, scount, n);
                let (c2, couts, cactsv) = client_step(mcur.clients[ci as int], arrivedv);
                let mnext = run_clients(m2, ci as int + 1).0;
                assert(self@.clients =~= mcur.clients.update(ci as int, c2));
                assert(self@.network.links =~= node_exec_net(
                    mcur.network,
                    node_id as int,
                    couts,
                ).links);
                assert(self@.network =~~= node_exec_net(mcur.network, node_id as int, couts));
                assert(self@ =~~= mnext);
                assert(traces_view(acts@) =~= (run_servers(m1, scount).1 + run_clients(
                    m2,
                    ci as int,
                ).1).push(cactsv));
                assert(run_servers(m1, scount).1 + run_clients(m2, ci as int + 1).1 =~= (
                run_servers(m1, scount).1 + run_clients(m2, ci as int).1).push(cactsv));
                assert(traces_view(acts@) == run_servers(m1, scount).1 + run_clients(
                    m2,
                    ci as int + 1,
                ).1);
                let net2 = self@.network;
                assert forall|a: int, k: int|
                    0 <= a < net2.links.len() && 0 <= k < net2.links[a].out_buffer.len() implies {
                    let p = #[trigger] net2.links[a].out_buffer[k];
                    crate::network::pkt_ids_ok(p, n) && p.sender == a && good_packet(p, scount, n)
                } by {
                    if a == node_id {
                        let oldlen = mcur.network.links[a].out_buffer.len() as int;
                        if k < oldlen {
                            assert(net2.links[a].out_buffer[k]
                                == mcur.network.links[a].out_buffer[k]);
                            assert(good_packet(mcur.network.links[a].out_buffer[k], scount, n));
                        } else {
                            assert(net2.links[a].out_buffer[k] == couts[k - oldlen]);
                        }
                    } else {
                        assert(net2.links[a].out_buffer[k] == mcur.network.links[a].out_buffer[k]);
                        assert(good_packet(mcur.network.links[a].out_buffer[k], scount, n));
                    }
                }
                assert forall|a: int, k: int|
                    0 <= a < net2.links.len() && 0 <= k < net2.links[a].in_buffer.len() implies {
                    let p = #[trigger] net2.links[a].in_buffer[k];
                    crate::network::pkt_ids_ok(p, n) && p.receiver == a && good_packet(p, scount, n)
                } by {
                    assert(a != node_id);
                    assert(net2.links[a].in_buffer[k] == mcur.network.links[a].in_buffer[k]);
                    assert(good_packet(mcur.network.links[a].in_buffer[k], scount, n));
                }
                assert(net_wf(net2));
                assert(sys_wf(self@));
            }
            ci += 1;
        }
        proof {
            assert(self@ == sys_step(m0).0);
            assert(traces_view(acts@) == sys_step(m0).1);
        }
        acts
    }

    /// Whether every server has decided.
    pub fn decided(&self) -> (d: bool)
        ensures
            d == sys_decided(self@),
    {
        let mut i: usize = 0;
        let count = self.servers.len();
        while i < count
            invariant
                i <= count,
                count == self.servers@.len(),
                forall|j: int| 0 <= j < i ==> (#[trigger] self.servers@[j]).decided,
            decreases count - i,
        {
            if !self.servers[i].has_decided() {
                return false;
            }
            i += 1;
        }
        true
    }

    /// The clients' commands, in id order.
    pub fn client_commands(&self) -> (cmds: Vec<Command>)
        ensures
            cmds@ == sys_commands(self@),
    {
        let mut cmds: Vec<Command> = Vec::new();
        let mut i: usize = 0;
        let count = self.clients.len();
        while i < count
            invariant
                i <= count,
                count == self.clients@.len(),
                cmds@.len() == i,
                forall|j: int| 0 <= j < i ==> cmds@[j] == (#[trigger] self.clients@[j])@.command,
            decreases count - i,
        {
            cmds.push(self.clients[i].get_command());
            i += 1;
        }
        proof {
            assert(cmds@ =~= sys_commands(self@));
        }
        cmds
    }

    /// `Some(c)` exactly when there is at least one server and every
    /// server holds `c`, `Undefined` included; `None` otherwise.
    pub fn servers_agree(&self) -> (r: Option<Command>)
        ensures
            r == sys_agree(self@),
    {
        if self.servers.len() == 0 {
            return None;
        }
        let first = self.servers[0].get_command();
        let mut i: usize = 0;
        let count = self.servers.len();
        while i < count
            invariant
                i <= count,
                count == self.servers@.len(),
                count > 0,
                first == self.servers@[0].command,
                forall|j: int| 0 <= j < i ==> (#[trigger] self.servers@[j]).command == first,
            decreases count - i,
        {
            if !(self.servers[i].get_command() == first) {
                proof {
                    assert(self@.servers[i as int].command != self@.servers[0].command);
                }
                return None;
            }
            i += 1;
        }
        Some(first)
    }
}


/// Peeling one round off the front of an iterated run.
pub proof fn lemma_sys_run_shift(m: SystemV, k: nat)
    ensures
        k >= 1 ==> sys_run(m, k) == sys_run(sys_step(m).0, (k - 1) as nat),
    decreases k,
{
    if k == 1 {
        assert(sys_run(m, 1) == sys_step(sys_run(m, 0)).0);
        assert(sys_run(m, 0) == m);
        assert(sys_run(sys_step(m).0, 0) == sys_step(m).0);
    } else if k >= 2 {
        lemma_sys_run_shift(m, (k - 1) as nat);
        assert(sys_run(m, k) == sys_step(sys_run(m, (k - 1) as nat)).0);
        assert(sys_run(sys_step(m).0, (k - 1) as nat) == sys_step(
            sys_run(sys_step(m).0, (k - 2) as nat),
        ).0);
    }
}

/// If a simulation ran `r` rounds, no state before the last was decided,
/// and it stopped decided or at the bound, then `rounds_run` is exactly
/// `r`.
pub proof fn lemma_rounds_run_exact(m: SystemV, max: nat, r: nat)
    requires
        r <= max,
        forall|j: nat| j < r ==> !sys_decided(#[trigger] sys_run(m, j)),
        sys_decided(sys_run(m, r)) || r == max,
    ensures
        rounds_run(m, max) == r,
    decreases r,
{
    assert(sys_run(m, 0) == m);
    if r > 0 {
        assert(!sys_decided(sys_run(m, 0)));
        let m1 = sys_step(m).0;
        assert forall|j: nat| j < (r - 1) as nat implies !sys_decided(#[trigger] sys_run(m1, j)) by {
            lemma_sys_run_shift(m, (j + 1) as nat);
            assert(!sys_decided(sys_run(m, (j + 1) as nat)));
        }
        lemma_sys_run_shift(m, r);
        lemma_rounds_run_exact(m1, (max - 1) as nat, (r - 1) as nat);
    }
}

/// The node ids of the servers, `0` up to `server_count`.
fn make_server_ids(server_count: usize) -> (ids: Vec<usize>)
    ensures
        ids@ == server_id_list(server_count as int),
{
    let mut ids: Vec<usize> = Vec::new();
    let mut i: usize = 0;
    while i < server_count
        invariant
            i <= server_count,
            ids@.len() == i,
            forall|j: int| 0 <= j < i ==> ids@[j] == j as usize,
        decreases server_count - i,
    {
        ids.push(i);
        i += 1;
    }
    proof {
        assert(ids@ =~= server_id_list(server_count as int));
    }
    ids
}

impl System {
    /// A fresh system: an asynchronous network of `node_count` links,
    /// then servers with ids `0..server_count`, then clients with the
    /// remaining ids, each client holding a randomly drawn command. With
    /// a seed, the whole construction is a function of the arguments.
    pub fn new_rand(node_count: usize, server_count: usize, seed: Option<u64>) -> (sys: System)
        requires
            1 <= node_count,
            server_count <= node_count,
        ensures
            sys_wf(sys@),
            sys@.servers.len() == server_count,
            sys@.clients.len() == node_count - server_count,
            tickets_at_most(sys@, 0),
            forall|i: int|
                0 <= i < server_count ==> sys@.servers[i] == (Server {
                    id: i as usize,
                    t_max: 0usize,
                    command: Command::Undefined,
                    t_store: 0usize,
                    decided: false,
                }),
            forall|i: int|
                0 <= i < sys@.clients.len() ==> {
                    let c = #[trigger] sys@.clients[i];
                    c.wait_duration == 0 && c.cur_ticket == 0 && c.state == Phase::AskingTicket
                        && c.inbox == Seq::<Packet<Message>>::empty()
                },
            sys@.network.transit == Seq::<(usize, Packet<Message>)>::empty(),
            forall|i: int|
                0 <= i < node_count ==> (#[trigger] sys@.network.links[i]).in_buffer == Seq::<
                    Packet<Message>,
                >::empty() && sys@.network.links[i].out_buffer == Seq::<Packet<Message>>::empty(),
            sys@.network.latencies matches Some(l) && lat_matrix_wf(
                l,
                node_count as int,
                MAX_LATENCY,
            ),
            seed matches Some(sd) ==> {
                &&& sys@.network.latencies == Some(
                    latency_matrix(sd, node_count as int, MAX_LATENCY),
                )
                &&& forall|i: int|
                    0 <= i < sys@.clients.len() ==> (#[trigger] sys@.clients[i]).command
                        == Command::Defined(bool_draw(sd, bool_ops(i)))
                &&& laws::fresh_seeded(sys@, node_count as int, server_count as int, sd)
            },
    {
        let network: Network<Message> = Network::new(true, node_count, seed, MAX_LATENCY);
        let mut rng = SimRng::new(seed);
        let mut servers: Vec<Server> = Vec::new();
        let mut id: usize = 0;
        while id < server_count
            invariant
                id <= server_count,
                servers@.len() == id,
                forall|j: int|
                    0 <= j < id ==> servers@[j] == (Server {
                        id: j as usize,
                        t_max: 0usize,
                        command: Command::Undefined,
                        t_store: 0usize,
                        decided: false,
                    }),
            decreases server_count - id,
        {
            servers.push(Server::new(id));
            id += 1;
        }
        let mut clients: Vec<Client> = Vec::new();
        proof {
            assert(rng.ops@ =~= bool_ops(0));
        }
        while id < node_count
            invariant
                server_count <= id <= node_count,
                clients@.len() == id - server_count,
                rng.seed@ == seed,
                rng.ops@ == bool_ops(id - server_count as int),
                forall|j: int|
                    0 <= j < clients@.len() ==> {
                        let c = (#[trigger] clients@[j])@;
                        c.id == server_count + j && c.wait_duration == 0 && c.cur_ticket == 0
                            && c.state == Phase::AskingTicket && c.inbox == Seq::<
                            Packet<Message>,
                        >::empty() && c.servers == server_id_list(server_count as int)
                            && c.command is Defined
                    },
                seed matches Some(sd) ==> forall|j: int|
                    0 <= j < clients@.len() ==> (#[trigger] clients@[j])@.command
                        == Command::Defined(bool_draw(sd, bool_ops(j))),
            decreases node_count - id,
        {
            let ids = make_server_ids(server_count);
            let c = Client::new_rand(id, ids, &mut rng);
            clients.push(c);
            proof {
                crate::rng::lemma_range_ops_push(id - server_count as int, 1);
            }
            id += 1;
        }
        let sys = System { servers, clients, network };
        proof {
            let scount = server_count as int;
            let n = node_count as int;
            assert(sys@.clients.len() == node_count - server_count);
            assert forall|i: int, k: int|
                0 <= i < sys@.clients.len() && 0 <= k < sys@.clients[i].inbox.len() implies
                good_packet(#[trigger] sys@.clients[i].inbox[k], scount, n) by {
                assert(sys@.clients[i].inbox.len() == 0);
            }
            assert(sys_wf(sys@));
            match seed {
                Some(sd) => {
                    assert forall|i: int| 0 <= i < sys@.clients.len() implies (
                    #[trigger] sys@.clients[i]) == (ClientV {
                        id: (scount + i) as usize,
                        wait_duration: 0usize,
                        servers: server_id_list(scount),
                        command: Command::Defined(bool_draw(sd, bool_ops(i))),
                        cur_ticket: 0usize,
                        state: Phase::AskingTicket,
                        inbox: Seq::<Packet<Message>>::empty(),
                    }) by {
                        assert(sys@.clients[i] =~= (ClientV {
                            id: (scount + i) as usize,
                            wait_duration: 0usize,
                            servers: server_id_list(scount),
                            command: Command::Defined(bool_draw(sd, bool_ops(i))),
                            cur_ticket: 0usize,
                            state: Phase::AskingTicket,
                            inbox: Seq::<Packet<Message>>::empty(),
                        }));
                    }
                    assert forall|i: int| 0 <= i < n implies (#[trigger] sys@.network.links[i])
                        == (LinkV {
                        id: i as usize,
                        in_buffer: Seq::<Packet<Message>>::empty(),
                        out_buffer: Seq::<Packet<Message>>::empty(),
                    }) by {
                        assert(sys@.network.links[i] =~= (LinkV {
                            id: i as usize,
                            in_buffer: Seq::<Packet<Message>>::empty(),
                            out_buffer: Seq::<Packet<Message>>::empty(),
                        }));
                    }
                    assert(laws::fresh_seeded(sys@, n, scount, sd));
                },
                None => {},
            }
        }
        sys
    }

    /// Run rounds until every server has decided or the bound is
    /// reached; `None` means no bound. Each round is reported to the
    /// history sink as one `Iteration` with one `Actor` per node, in
    /// execution order.
    pub fn simulate<H: History<Action>>(&mut self, max_rounds: Option<usize>, history: &mut H)
        requires
            sys_wf(old(self)@),
            tickets_at_most(
                old(self)@,
                usize::MAX as int - (match max_rounds {
                    Some(nr) => nr as int,
                    None => usize::MAX as int,
                }),
            ),
        ensures
            ({
                let max = (match max_rounds {
                    Some(nr) => nr as int,
                    None => usize::MAX as int,
                }) as nat;
                final(self)@ == sys_run(old(self)@, rounds_run(old(self)@, max))
            }),
            sys_wf(final(self)@),
    {
        let ghost m0 = old(self)@;
        let max = match max_rounds {
            Some(nr) => nr,
            None => usize::MAX,
        };
        let mut cur_round: usize = 0;
        let mut done = self.decided();
        while !done && cur_round < max
            invariant
                cur_round <= max,
                sys_wf(self@),
                self@ == sys_run(m0, cur_round as nat),
                done == sys_decided(self@),
                forall|j: nat| j < cur_round ==> !sys_decided(#[trigger] sys_run(m0, j)),
                tickets_at_most(self@, usize::MAX as int - max + cur_round),
                self@.clients.len() == m0.clients.len(),
            decreases max - cur_round,
        {
            let ghost mprev = self@;
            let mut node_acts = self.step();
            let mut iteration: Iteration<Action> = Iteration::new(cur_round);
            let mut idx: usize = 0;
            while node_acts.len() > 0
                invariant
                    true,
                decreases node_acts@.len(),
            {
                let actions = node_acts.remove(0);
                iteration.track(Actor { id: idx, actions });
                if idx < usize::MAX {
                    idx += 1;
                }
            }
            history.track(iteration);
            cur_round += 1;
            done = self.decided();
            proof {
                assert(self@ == sys_step(mprev).0);
                assert(sys_run(m0, cur_round as nat) == sys_step(
                    sys_run(m0, (cur_round - 1) as nat),
                ).0);
                assert forall|i: int|
                    0 <= i < self@.clients.len() implies (#[trigger] self@.clients[i]).cur_ticket
                    <= usize::MAX as int - max + cur_round by {
                    assert(mprev.clients[i].cur_ticket <= usize::MAX as int - max + cur_round - 1);
                    assert(self@.clients[i].cur_ticket <= mprev.clients[i].cur_ticket + 1);
                }
            }
        }
        proof {
            lemma_rounds_run_exact(m0, max as nat, cur_round as nat);
        }
    }
}

} // verus!
