//! The protocol's proved laws: ticket monotonicity, decision stability,
//! validity of decided commands, the preservation rule, and determinism
//! of seeded runs.

use crate::network::{all_packets, exchange_spec, Packet};
use crate::paxos::client::{adopt, client_step, grants_of, ClientV};
use crate::paxos::server::{server_step1, server_steps, Server};
use crate::paxos::{
    run_clients, run_servers, sys_run, sys_step, Action, Command, Message, Phase, SystemV,
};
use vstd::prelude::*;

verus! {

/// A server round never lowers `t_max`, never clears `decided`, and
/// never changes the server's id.
pub proof fn lemma_server_steps_monotone(s: Server, inbox: Seq<Packet<Message>>)
    ensures
        ({
            let (s2, outs, acts) = server_steps(s, inbox);
            &&& s2.id == s.id
            &&& s2.t_max >= s.t_max
            &&& (s.decided ==> s2.decided)
        }),
    decreases inbox.len(),
{
    if inbox.len() > 0 {
        lemma_server_steps_monotone(s, inbox.drop_last());
    }
}

/// Running the first `k` servers leaves the later servers, every client,
/// the transit list and the latency matrix untouched, and touches each
/// earlier server exactly by its own round.
pub proof fn lemma_run_servers_frame(m: SystemV, k: int)
    requires
        0 <= k <= m.servers.len(),
    ensures
        run_servers(m, k).0.servers.len() == m.servers.len(),
        run_servers(m, k).0.clients == m.clients,
        forall|i: int|
            0 <= i < m.servers.len() ==> (#[trigger] run_servers(m, k).0.servers[i]).t_max
                >= m.servers[i].t_max && (m.servers[i].decided ==> run_servers(
                m,
                k,
            ).0.servers[i].decided) && run_servers(m, k).0.servers[i].id == m.servers[i].id,
        forall|i: int|
            k <= i < m.servers.len() ==> (#[trigger] run_servers(m, k).0.servers[i])
                == m.servers[i],
    decreases k,
{
    if k == 0 {
        assert(run_servers(m, 0) == (m, Seq::<Seq<Action>>::empty()));
    }
    if k > 0 {
        lemma_run_servers_frame(m, k - 1);
        let m1 = run_servers(m, k - 1).0;
        lemma_server_steps_monotone(m1.servers[k - 1], m1.network.links[k - 1].in_buffer);
        let m2 = run_servers(m, k).0;
        let s2 = server_steps(m1.servers[k - 1], m1.network.links[k - 1].in_buffer).0;
        assert(m2.servers == m1.servers.update(k - 1, s2));
        assert forall|i: int|
            0 <= i < m.servers.len() implies (#[trigger] m2.servers[i]).t_max
            >= m.servers[i].t_max && (m.servers[i].decided ==> m2.servers[i].decided)
            && m2.servers[i].id == m.servers[i].id by {
            if i != k - 1 {
                assert(m2.servers[i] == m1.servers[i]);
            } else {
                assert(m1.servers[i] == m.servers[i]);
            }
        }
        assert forall|i: int| k <= i < m.servers.len() implies (#[trigger] m2.servers[i])
            == m.servers[i] by {
            assert(m2.servers[i] == m1.servers[i]);
        }
    }
}

/// Running the clients does not touch any server.
pub proof fn lemma_run_clients_frame(m: SystemV, k: int)
    requires
        0 <= k <= m.clients.len(),
    ensures
        run_clients(m, k).0.servers == m.servers,
        run_clients(m, k).0.clients.len() == m.clients.len(),
    decreases k,
{
    if k == 0 {
        assert(run_clients(m, 0) == (m, Seq::<Seq<Action>>::empty()));
    }
    if k > 0 {
        lemma_run_clients_frame(m, k - 1);
        let m1 = run_clients(m, k - 1).0;
        let m2 = run_clients(m, k).0;
        assert(m2.servers == m1.servers);
        assert(m2.clients.len() == m1.clients.len());
    }
}

/// Ticket monotonicity: over one simulation round, no server's `t_max`
/// decreases; iterated, `t_max` is non-decreasing over time. The same
/// round also never clears a `decided` flag, and server ids are fixed.
pub proof fn lemma_ticket_monotonic_step(m: SystemV)
    ensures
        sys_step(m).0.servers.len() == m.servers.len(),
        forall|i: int|
            0 <= i < m.servers.len() ==> (#[trigger] sys_step(m).0.servers[i]).t_max
                >= m.servers[i].t_max && (m.servers[i].decided ==> sys_step(m).0.servers[i].decided)
                && sys_step(m).0.servers[i].id == m.servers[i].id,
{
    let m1 = SystemV { network: crate::network::exchange_spec(m.network), ..m };
    lemma_run_servers_frame(m1, m1.servers.len() as int);
    let m2 = run_servers(m1, m1.servers.len() as int).0;
    lemma_run_clients_frame(m2, m2.clients.len() as int);
}

/// Ticket monotonicity over any number of rounds: for every server,
/// `t_max` after `k` rounds is at least `t_max` now, and a decided
/// server stays decided.
pub proof fn lemma_ticket_monotonic(m: SystemV, k: nat)
    ensures
        sys_run(m, k).servers.len() == m.servers.len(),
        forall|i: int|
            0 <= i < m.servers.len() ==> (#[trigger] sys_run(m, k).servers[i]).t_max
                >= m.servers[i].t_max && (m.servers[i].decided ==> sys_run(m, k).servers[i].decided),
    decreases k,
{
    if k > 0 {
        lemma_ticket_monotonic(m, (k - 1) as nat);
        lemma_ticket_monotonic_step(sys_run(m, (k - 1) as nat));
    }
}

/// Decision stability, one round of mail: as long as every `Propose` and
/// every `Execute` a server processes carries the command it already
/// holds, its command never changes, whatever tickets they carry; and
/// once decided it stays decided. Agreement is exactly the condition
/// that a correct run delivers only such mail to a decided server.
pub proof fn lemma_server_stability(s: Server, inbox: Seq<Packet<Message>>)
    requires
        forall|k: int|
            0 <= k < inbox.len() ==> match (#[trigger] inbox[k]).content {
                Message::Propose(_, c) => c == s.command,
                Message::Execute(c) => c == s.command,
                _ => true,
            },
    ensures
        server_steps(s, inbox).0.command == s.command,
        s.decided ==> server_steps(s, inbox).0.decided,
    decreases inbox.len(),
{
    if inbox.len() > 0 {
        assert(forall|k: int|
            0 <= k < inbox.drop_last().len() ==> match (#[trigger] inbox.drop_last()[k]).content {
                Message::Propose(_, c) => c == s.command,
                Message::Execute(c) => c == s.command,
                _ => true,
            });
        lemma_server_stability(s, inbox.drop_last());
        let (s1, out1, a1) = server_steps(s, inbox.drop_last());
        assert(match inbox[inbox.len() - 1].content {
            Message::Propose(_, c) => c == s.command,
            Message::Execute(c) => c == s.command,
            _ => true,
        });
    }
}

/// In the preservation fold the running maximum only grows, every
/// `t_store` seen stays at or below it, and when it rose the adopted
/// command is the one of the first `Grant` that reached it.
pub proof fn lemma_adopt_max(cmd0: Command, max0: crate::paxos::Ticket, inbox: Seq<Packet<Message>>)
    ensures
        adopt(cmd0, max0, inbox).1 >= max0,
        forall|k: int|
            0 <= k < inbox.len() ==> (match (#[trigger] inbox[k]).content {
                Message::Grant(ts, _) => ts <= adopt(cmd0, max0, inbox).1,
                _ => true,
            }),
        adopt(cmd0, max0, inbox).1 == max0 ==> adopt(cmd0, max0, inbox).0 == cmd0,
        adopt(cmd0, max0, inbox).1 > max0 ==> exists|k: int|
            0 <= k < inbox.len() && (#[trigger] inbox[k]).content == Message::Grant(
                adopt(cmd0, max0, inbox).1,
                adopt(cmd0, max0, inbox).0,
            ) && (forall|j: int|
                0 <= j < k ==> (match (#[trigger] inbox[j]).content {
                    Message::Grant(ts, _) => ts < adopt(cmd0, max0, inbox).1,
                    _ => true,
                })),
    decreases inbox.len(),
{
    if inbox.len() > 0 {
        lemma_adopt_max(cmd0, max0, inbox.drop_last());
        let (c1, m1, a1) = adopt(cmd0, max0, inbox.drop_last());
        let e = inbox.last();
        let (cmd, mx, acts) = adopt(cmd0, max0, inbox);
        assert(forall|k: int|
            0 <= k < inbox.len() - 1 ==> inbox[k] == inbox.drop_last()[k]);
        match e.content {
            Message::Grant(ts, cm) => {
                if ts > m1 && ts > 0 {
                    assert((cmd, mx) == (cm, ts));
                    assert(inbox[inbox.len() - 1].content == Message::Grant(mx, cmd));
                    assert(forall|j: int|
                        0 <= j < inbox.len() - 1 ==> (match (#[trigger] inbox[j]).content {
                            Message::Grant(ts2, _) => ts2 < mx,
                            _ => true,
                        }));
                } else {
                    if m1 > max0 {
                        let k = choose|k: int|
                            0 <= k < inbox.drop_last().len() && (#[trigger] inbox.drop_last()[k]).content
                                == Message::Grant(m1, c1) && (forall|j: int|
                                0 <= j < k ==> (match (#[trigger] inbox.drop_last()[j]).content {
                                    Message::Grant(ts2, _) => ts2 < m1,
                                    _ => true,
                                }));
                        assert(inbox[k].content == Message::Grant(mx, cmd));
                        assert(forall|j: int|
                            0 <= j < k ==> (match (#[trigger] inbox[j]).content {
                                Message::Grant(ts2, _) => ts2 < mx,
                                _ => true,
                            }));
                    }
                }
            },
            _ => {},
        }
    }
}

/// Preservation: when a strict majority of `Grant`s lets a proposing
/// client move on, the command it proposes is the one reported by the
/// first `Grant` carrying the highest positive `t_store`, or its own
/// previous command when every reported `t_store` was zero.
pub proof fn lemma_preservation(c: ClientV, arrived: Seq<Packet<Message>>)
    requires
        c.state is Proposing,
        grants_of(c.inbox + arrived).len() > c.servers.len() / 2,
    ensures
        ({
            let kept = grants_of(c.inbox + arrived);
            let c2 = client_step(c, arrived).0;
            let mx = adopt(c.command, 0, kept).1;
            &&& c2.state == Phase::AwaitingSuccess
            &&& c2.command == adopt(c.command, 0, kept).0
            &&& forall|k: int|
                0 <= k < kept.len() ==> (match (#[trigger] kept[k]).content {
                    Message::Grant(ts, _) => ts <= mx,
                    _ => true,
                })
            &&& (mx == 0 ==> c2.command == c.command)
            &&& (mx > 0 ==> exists|k: int|
                0 <= k < kept.len() && (#[trigger] kept[k]).content == Message::Grant(
                    mx,
                    c2.command,
                ) && (forall|j: int|
                    0 <= j < k ==> (match (#[trigger] kept[j]).content {
                        Message::Grant(ts, _) => ts < mx,
                        _ => true,
                    })))
        }),
{
    lemma_adopt_max(c.command, 0, grants_of(c.inbox + arrived));
}

/// What `System::new_rand` builds from a seed: every part of the state
/// is a function of the three arguments.
pub open spec fn fresh_seeded(m: SystemV, node_count: int, server_count: int, sd: u64) -> bool {
    &&& m.servers.len() == server_count
    &&& m.clients.len() == node_count - server_count
    &&& 0 <= server_count <= node_count
    &&& forall|i: int|
        0 <= i < server_count ==> (#[trigger] m.servers[i]) == (Server {
            id: i as usize,
            t_max: 0usize,
            command: Command::Undefined,
            t_store: 0usize,
            decided: false,
        })
    &&& forall|i: int|
        0 <= i < m.clients.len() ==> (#[trigger] m.clients[i]) == (ClientV {
            id: (server_count + i) as usize,
            wait_duration: 0usize,
            servers: crate::paxos::server_id_list(server_count),
            command: Command::Defined(crate::rng::bool_draw(sd, crate::rng::bool_ops(i))),
            cur_ticket: 0usize,
            state: Phase::AskingTicket,
            inbox: Seq::<Packet<Message>>::empty(),
        })
    &&& m.network.links.len() == node_count
    &&& forall|i: int|
        0 <= i < node_count ==> (#[trigger] m.network.links[i]) == (crate::network::LinkV {
            id: i as usize,
            in_buffer: Seq::<Packet<Message>>::empty(),
            out_buffer: Seq::<Packet<Message>>::empty(),
        })
    &&& m.network.transit == Seq::<(usize, Packet<Message>)>::empty()
    &&& m.network.latencies == Some(
        crate::network::latency_matrix(sd, node_count, crate::MAX_LATENCY),
    )
}

/// Determinism: two systems built from the same seed and counts are the
/// same mathematical object, so their runs, their traces and their
/// client commands agree at every round.
pub proof fn lemma_determinism(
    ma: SystemV,
    mb: SystemV,
    node_count: int,
    server_count: int,
    sd: u64,
)
    requires
        fresh_seeded(ma, node_count, server_count, sd),
        fresh_seeded(mb, node_count, server_count, sd),
    ensures
        ma == mb,
        crate::paxos::sys_commands(ma) == crate::paxos::sys_commands(mb),
        forall|k: nat| #[trigger] sys_run(ma, k) == sys_run(mb, k),
        forall|k: nat| #[trigger] crate::paxos::sys_traces(ma, k) == crate::paxos::sys_traces(mb, k),
{
    assert(ma.servers =~= mb.servers);
    assert forall|i: int| 0 <= i < ma.clients.len() implies (#[trigger] ma.clients[i])
        == mb.clients[i] by {
    }
    assert(ma.clients =~= mb.clients);
    assert(ma.network.links =~= mb.network.links);
    assert(ma.network =~~= mb.network);
    assert(ma =~~= mb);
}


/// Every defined command in `c` comes from `cmds`.
pub open spec fn cmd_from(c: Command, cmds: Set<Command>) -> bool {
    c is Defined ==> cmds.contains(c)
}

/// Every command a message carries comes from `cmds`.
pub open spec fn msg_cmds_from(msg: Message, cmds: Set<Command>) -> bool {
    match msg {
        Message::Grant(_, c) => cmd_from(c, cmds),
        Message::Propose(_, c) => cmd_from(c, cmds),
        Message::Execute(c) => cmd_from(c, cmds),
        _ => true,
    }
}

/// Every command anywhere in the system comes from `cmds`: held by a
/// server or a client, or carried by any message in flight, buffered,
/// or retained in a client's inbox.
pub open spec fn sys_cmds_from(m: SystemV, cmds: Set<Command>) -> bool {
    &&& forall|i: int|
        0 <= i < m.servers.len() ==> cmd_from((#[trigger] m.servers[i]).command, cmds)
    &&& forall|i: int|
        0 <= i < m.clients.len() ==> cmd_from((#[trigger] m.clients[i]).command, cmds)
    &&& forall|i: int, k: int|
        0 <= i < m.clients.len() && 0 <= k < m.clients[i].inbox.len() ==> msg_cmds_from(
            (#[trigger] m.clients[i].inbox[k]).content,
            cmds,
        )
    &&& all_packets(m.network, |p: Packet<Message>| msg_cmds_from(p.content, cmds))
}

/// There is one link for every node.
pub open spec fn node_links_ok(m: SystemV) -> bool {
    m.servers.len() + m.clients.len() <= m.network.links.len()
}

/// A server round only ever stores or sends commands it held or was
/// sent.
pub proof fn lemma_server_steps_cmds(s: Server, inbox: Seq<Packet<Message>>, cmds: Set<Command>)
    requires
        cmd_from(s.command, cmds),
        forall|k: int|
            0 <= k < inbox.len() ==> msg_cmds_from((#[trigger] inbox[k]).content, cmds),
    ensures
        cmd_from(server_steps(s, inbox).0.command, cmds),
        forall|k: int|
            0 <= k < server_steps(s, inbox).1.len() ==> msg_cmds_from(
                (#[trigger] server_steps(s, inbox).1[k]).content,
                cmds,
            ),
    decreases inbox.len(),
{
    if inbox.len() > 0 {
        assert(forall|k: int|
            0 <= k < inbox.drop_last().len() ==> msg_cmds_from(
                (#[trigger] inbox.drop_last()[k]).content,
                cmds,
            ));
        lemma_server_steps_cmds(s, inbox.drop_last(), cmds);
        let (s1, out1, a1) = server_steps(s, inbox.drop_last());
        let p = inbox.last();
        assert(msg_cmds_from(inbox[inbox.len() - 1].content, cmds));
        let (s2, out2, a2) = server_step1(s1, p);
        assert forall|k: int| 0 <= k < (out1 + out2).len() implies msg_cmds_from(
            (#[trigger] (out1 + out2)[k]).content,
            cmds,
        ) by {
            if k < out1.len() {
                assert((out1 + out2)[k] == out1[k]);
            } else {
                assert((out1 + out2)[k] == out2[k - out1.len()]);
            }
        }
    }
}

/// The preservation fold adopts only commands that granted packets
/// carried.
pub proof fn lemma_adopt_cmds(
    cmd0: Command,
    max0: crate::paxos::Ticket,
    inbox: Seq<Packet<Message>>,
    cmds: Set<Command>,
)
    requires
        cmd_from(cmd0, cmds),
        forall|k: int|
            0 <= k < inbox.len() ==> msg_cmds_from((#[trigger] inbox[k]).content, cmds),
    ensures
        cmd_from(adopt(cmd0, max0, inbox).0, cmds),
    decreases inbox.len(),
{
    if inbox.len() > 0 {
        assert(forall|k: int|
            0 <= k < inbox.drop_last().len() ==> msg_cmds_from(
                (#[trigger] inbox.drop_last()[k]).content,
                cmds,
            ));
        lemma_adopt_cmds(cmd0, max0, inbox.drop_last(), cmds);
        assert(msg_cmds_from(inbox[inbox.len() - 1].content, cmds));
    }
}

/// A client round only ever stores, retains or sends commands it held
/// or was sent.
pub proof fn lemma_client_step_cmds(c: ClientV, arrived: Seq<Packet<Message>>, cmds: Set<Command>)
    requires
        cmd_from(c.command, cmds),
        forall|k: int|
            0 <= k < c.inbox.len() ==> msg_cmds_from((#[trigger] c.inbox[k]).content, cmds),
        forall|k: int|
            0 <= k < arrived.len() ==> msg_cmds_from((#[trigger] arrived[k]).content, cmds),
    ensures
        ({
            let (c2, outs, acts) = client_step(c, arrived);
            &&& cmd_from(c2.command, cmds)
            &&& forall|k: int|
                0 <= k < outs.len() ==> msg_cmds_from((#[trigger] outs[k]).content, cmds)
            &&& forall|k: int|
                0 <= k < c2.inbox.len() ==> msg_cmds_from((#[trigger] c2.inbox[k]).content, cmds)
        }),
{
    let mail = c.inbox + arrived;
    let pred = |p: Packet<Message>| msg_cmds_from(p.content, cmds);
    assert forall|k: int| 0 <= k < mail.len() implies pred(#[trigger] mail[k]) by {
        if k < c.inbox.len() {
            assert(mail[k] == c.inbox[k]);
        } else {
            assert(mail[k] == arrived[k - c.inbox.len()]);
        }
    }
    let (c2, outs, acts) = client_step(c, arrived);
    match c.state {
        Phase::AskingTicket => {
            assert forall|k: int| 0 <= k < outs.len() implies msg_cmds_from(
                (#[trigger] outs[k]).content,
                cmds,
            ) by {
                assert(outs[k].content == Message::Ask(c2.cur_ticket));
            }
        },
        Phase::Proposing => {
            crate::paxos::client::lemma_grants_pred(mail, pred);
            let kept = grants_of(mail);
            assert forall|k: int| 0 <= k < c2.inbox.len() implies msg_cmds_from(
                (#[trigger] c2.inbox[k]).content,
                cmds,
            ) by {
                assert(c2.inbox[k] == kept[k]);
                assert(pred(kept[k]));
            }
            let majority = kept.len() > c.servers.len() / 2;
            if majority {
                assert forall|k: int| 0 <= k < kept.len() implies msg_cmds_from(
                    (#[trigger] kept[k]).content,
                    cmds,
                ) by {
                    assert(pred(kept[k]));
                }
                lemma_adopt_cmds(c.command, 0, kept, cmds);
                let cmd = adopt(c.command, 0, kept).0;
                assert forall|k: int| 0 <= k < outs.len() implies msg_cmds_from(
                    (#[trigger] outs[k]).content,
                    cmds,
                ) by {
                    assert(outs[k].content == Message::Propose(c.cur_ticket, cmd));
                }
            }
        },
        Phase::AwaitingSuccess => {
            crate::paxos::client::lemma_successes_pred(mail, pred);
            let kept = crate::paxos::client::successes_of(mail);
            assert forall|k: int| 0 <= k < c2.inbox.len() implies msg_cmds_from(
                (#[trigger] c2.inbox[k]).content,
                cmds,
            ) by {
                assert(c2.inbox[k] == kept[k]);
                assert(pred(kept[k]));
            }
            let majority = kept.len() > c.servers.len() / 2;
            if majority {
                assert forall|k: int| 0 <= k < outs.len() implies msg_cmds_from(
                    (#[trigger] outs[k]).content,
                    cmds,
                ) by {
                    assert(outs[k].content == Message::Execute(c.command));
                }
            }
        },
        Phase::Done => {},
    }
}

/// Running the first `k` servers keeps every command in the system one
/// of `cmds`.
pub proof fn lemma_run_servers_cmds(m: SystemV, k: int, cmds: Set<Command>)
    requires
        0 <= k <= m.servers.len(),
        node_links_ok(m),
        sys_cmds_from(m, cmds),
    ensures
        sys_cmds_from(run_servers(m, k).0, cmds),
        run_servers(m, k).0.network.links.len() == m.network.links.len(),
    decreases k,
{
    if k == 0 {
        assert(run_servers(m, 0) == (m, Seq::<Seq<Action>>::empty()));
    }
    if k > 0 {
        lemma_run_servers_cmds(m, k - 1, cmds);
        lemma_run_servers_frame(m, k - 1);
        let m1 = run_servers(m, k - 1).0;
        let i = k - 1;
        let inbox = m1.network.links[i].in_buffer;
        assert forall|t: int| 0 <= t < inbox.len() implies msg_cmds_from(
            (#[trigger] inbox[t]).content,
            cmds,
        ) by {
            assert(msg_cmds_from(m1.network.links[i].in_buffer[t].content, cmds));
        }
        assert(cmd_from(m1.servers[i].command, cmds));
        lemma_server_steps_cmds(m1.servers[i], inbox, cmds);
        let (s2, outs, acts) = server_steps(m1.servers[i], inbox);
        let m2 = run_servers(m, k).0;
        assert forall|a: int| 0 <= a < m2.servers.len() implies cmd_from(
            (#[trigger] m2.servers[a]).command,
            cmds,
        ) by {
            if a != i {
                assert(m2.servers[a] == m1.servers[a]);
            }
        }
        let net2 = m2.network;
        assert forall|a: int, t: int|
            0 <= a < net2.links.len() && 0 <= t < net2.links[a].out_buffer.len() implies
            msg_cmds_from((#[trigger] net2.links[a].out_buffer[t]).content, cmds) by {
            if a == i {
                let oldlen = m1.network.links[a].out_buffer.len() as int;
                if t < oldlen {
                    assert(net2.links[a].out_buffer[t] == m1.network.links[a].out_buffer[t]);
                    assert(msg_cmds_from(m1.network.links[a].out_buffer[t].content, cmds));
                } else {
                    assert(net2.links[a].out_buffer[t] == outs[t - oldlen]);
                }
            } else {
                assert(net2.links[a].out_buffer[t] == m1.network.links[a].out_buffer[t]);
                assert(msg_cmds_from(m1.network.links[a].out_buffer[t].content, cmds));
            }
        }
        assert forall|a: int, t: int|
            0 <= a < net2.links.len() && 0 <= t < net2.links[a].in_buffer.len() implies
            msg_cmds_from((#[trigger] net2.links[a].in_buffer[t]).content, cmds) by {
            assert(a != i);
            assert(net2.links[a].in_buffer[t] == m1.network.links[a].in_buffer[t]);
            assert(msg_cmds_from(m1.network.links[a].in_buffer[t].content, cmds));
        }
        assert(net2.transit == m1.network.transit);
        assert forall|t: int| 0 <= t < net2.transit.len() implies msg_cmds_from(
            (#[trigger] net2.transit[t]).1.content,
            cmds,
        ) by {
            assert(msg_cmds_from(m1.network.transit[t].1.content, cmds));
        }
    }
}

/// Running the clients keeps every command in the system one of `cmds`.
pub proof fn lemma_run_clients_cmds(m: SystemV, k: int, cmds: Set<Command>)
    requires
        0 <= k <= m.clients.len(),
        node_links_ok(m),
        sys_cmds_from(m, cmds),
    ensures
        sys_cmds_from(run_clients(m, k).0, cmds),
        run_clients(m, k).0.network.links.len() == m.network.links.len(),
    decreases k,
{
    if k == 0 {
        assert(run_clients(m, 0) == (m, Seq::<Seq<Action>>::empty()));
    }
    if k > 0 {
        lemma_run_clients_cmds(m, k - 1, cmds);
        lemma_run_clients_frame(m, k - 1);
        let m1 = run_clients(m, k - 1).0;
        let ci = k - 1;
        let i = m1.servers.len() as int + k - 1;
        let arrived = m1.network.links[i].in_buffer;
        assert forall|t: int| 0 <= t < arrived.len() implies msg_cmds_from(
            (#[trigger] arrived[t]).content,
            cmds,
        ) by {
            assert(msg_cmds_from(m1.network.links[i].in_buffer[t].content, cmds));
        }
        assert(cmd_from(m1.clients[ci].command, cmds));
        lemma_client_step_cmds(m1.clients[ci], arrived, cmds);
        let (c2, outs, acts) = client_step(m1.clients[ci], arrived);
        let m2 = run_clients(m, k).0;
        assert forall|a: int| 0 <= a < m2.clients.len() implies cmd_from(
            (#[trigger] m2.clients[a]).command,
            cmds,
        ) by {
            if a != ci {
                assert(m2.clients[a] == m1.clients[a]);
            }
        }
        assert forall|a: int, t: int|
            0 <= a < m2.clients.len() && 0 <= t < m2.clients[a].inbox.len() implies msg_cmds_from(
            (#[trigger] m2.clients[a].inbox[t]).content,
            cmds,
        ) by {
            if a != ci {
                assert(m2.clients[a] == m1.clients[a]);
                assert(msg_cmds_from(m1.clients[a].inbox[t].content, cmds));
            }
        }
        let net2 = m2.network;
        assert forall|a: int, t: int|
            0 <= a < net2.links.len() && 0 <= t < net2.links[a].out_buffer.len() implies
            msg_cmds_from((#[trigger] net2.links[a].out_buffer[t]).content, cmds) by {
            if a == i {
                let oldlen = m1.network.links[a].out_buffer.len() as int;
                if t < oldlen {
                    assert(net2.links[a].out_buffer[t] == m1.network.links[a].out_buffer[t]);
                    assert(msg_cmds_from(m1.network.links[a].out_buffer[t].content, cmds));
                } else {
                    assert(net2.links[a].out_buffer[t] == outs[t - oldlen]);
                }
            } else {
                assert(net2.links[a].out_buffer[t] == m1.network.links[a].out_buffer[t]);
                assert(msg_cmds_from(m1.network.links[a].out_buffer[t].content, cmds));
            }
        }
        assert forall|a: int, t: int|
            0 <= a < net2.links.len() && 0 <= t < net2.links[a].in_buffer.len() implies
            msg_cmds_from((#[trigger] net2.links[a].in_buffer[t]).content, cmds) by {
            assert(a != i);
            assert(net2.links[a].in_buffer[t] == m1.network.links[a].in_buffer[t]);
            assert(msg_cmds_from(m1.network.links[a].in_buffer[t].content, cmds));
        }
        assert forall|t: int| 0 <= t < net2.transit.len() implies msg_cmds_from(
            (#[trigger] net2.transit[t]).1.content,
            cmds,
        ) by {
            assert(msg_cmds_from(m1.network.transit[t].1.content, cmds));
        }
    }
}

/// One round keeps every command in the system one of `cmds`.
pub proof fn lemma_validity_step(m: SystemV, cmds: Set<Command>)
    requires
        node_links_ok(m),
        sys_cmds_from(m, cmds),
    ensures
        sys_cmds_from(sys_step(m).0, cmds),
        node_links_ok(sys_step(m).0),
        sys_step(m).0.servers.len() == m.servers.len(),
        sys_step(m).0.clients.len() == m.clients.len(),
{
    crate::network::lemma_exchange_preserves(
        m.network,
        |p: Packet<Message>| msg_cmds_from(p.content, cmds),
    );
    let m1 = SystemV { network: exchange_spec(m.network), ..m };
    assert(m1.network.links.len() == m.network.links.len());
    assert(sys_cmds_from(m1, cmds));
    lemma_run_servers_cmds(m1, m1.servers.len() as int, cmds);
    lemma_run_servers_frame(m1, m1.servers.len() as int);
    let m2 = run_servers(m1, m1.servers.len() as int).0;
    lemma_run_clients_cmds(m2, m2.clients.len() as int, cmds);
    lemma_run_clients_frame(m2, m2.clients.len() as int);
}

/// Validity over any number of rounds: if a server ever holds a defined
/// command, that command was already in the system at the start. For a
/// freshly built system those are exactly the clients' initial commands.
pub proof fn lemma_validity(m: SystemV, cmds: Set<Command>, rounds: nat)
    requires
        node_links_ok(m),
        sys_cmds_from(m, cmds),
    ensures
        forall|i: int|
            0 <= i < sys_run(m, rounds).servers.len() && (#[trigger] sys_run(
                m,
                rounds,
            ).servers[i]).command is Defined ==> cmds.contains(sys_run(m, rounds).servers[i].command),
    decreases rounds,
{
    if rounds == 0 {
    } else {
        lemma_validity_run_aux(m, cmds, rounds);
    }
}

/// The inductive heart of validity: the containment is kept round after
/// round.
pub proof fn lemma_validity_run_aux(m: SystemV, cmds: Set<Command>, rounds: nat)
    requires
        node_links_ok(m),
        sys_cmds_from(m, cmds),
    ensures
        sys_cmds_from(sys_run(m, rounds), cmds),
        node_links_ok(sys_run(m, rounds)),
    decreases rounds,
{
    if rounds > 0 {
        lemma_validity_run_aux(m, cmds, (rounds - 1) as nat);
        lemma_validity_step(sys_run(m, (rounds - 1) as nat), cmds);
    }
}

/// The set of commands the clients hold.
pub open spec fn client_command_set(m: SystemV) -> Set<Command> {
    Set::new(|c: Command| exists|i: int| 0 <= i < m.clients.len() && (#[trigger] m.clients[i]).command == c)
}

/// A fresh system's commands all come from its clients: the servers are
/// undefined and no message exists yet.
pub proof fn lemma_fresh_cmds(m: SystemV)
    requires
        forall|i: int| 0 <= i < m.servers.len() ==> (#[trigger] m.servers[i]).command is Undefined,
        forall|i: int| 0 <= i < m.clients.len() ==> (#[trigger] m.clients[i]).inbox.len() == 0,
        m.network.transit.len() == 0,
        forall|i: int|
            0 <= i < m.network.links.len() ==> (#[trigger] m.network.links[i]).in_buffer.len() == 0
                && m.network.links[i].out_buffer.len() == 0,
    ensures
        sys_cmds_from(m, client_command_set(m)),
{
    let cmds = client_command_set(m);
    assert forall|i: int| 0 <= i < m.clients.len() implies cmd_from(
        (#[trigger] m.clients[i]).command,
        cmds,
    ) by {
        assert(cmds.contains(m.clients[i].command));
    }
}


} // verus!
