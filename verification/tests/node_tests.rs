use paxos_sim::network::Packet;
use paxos_sim::paxos::client::Client;
use paxos_sim::paxos::server::Server;
use paxos_sim::paxos::{Command, Message, Phase};

fn grant(from: usize, to: usize, t_store: usize, c: Command) -> Packet<Message> {
    Packet { sender: from, receiver: to, content: Message::Grant(t_store, c) }
}

#[test]
fn quorum_needs_strict_majority() {
    // With four servers a proposer needs at least three grants: two are
    // not enough, whatever the parity suggests.
    let mut client = Client::new(4, vec![0, 1, 2, 3], Command::Defined(true));
    let (asks, _) = client.exec(Vec::new());
    assert_eq!(asks.len(), 4);
    assert_eq!(client.state, Phase::Proposing);
    let two = vec![
        grant(0, 4, 0, Command::Undefined),
        grant(1, 4, 0, Command::Undefined),
    ];
    let (outs, _) = client.exec(two);
    assert!(client.state != Phase::AwaitingSuccess);
    assert_eq!(client.state, Phase::Proposing);
    assert!(outs.is_empty());
    // a third grant arrives; the retained two plus this one form a quorum
    let third = vec![grant(2, 4, 0, Command::Undefined)];
    let (proposals, _) = client.exec(third);
    assert_eq!(client.state, Phase::AwaitingSuccess);
    assert_eq!(proposals.len(), 3);
    for p in proposals.iter() {
        assert!(matches!(p.content, Message::Propose(1, Command::Defined(true))));
    }
}

#[test]
fn preservation_adopts_highest_t_store() {
    // The proposer must re-propose the command of the grant with the
    // highest positive t_store, not its own.
    let mut client = Client::new(3, vec![0, 1, 2], Command::Defined(true));
    let (_, _) = client.exec(Vec::new());
    let grants = vec![
        grant(0, 3, 2, Command::Defined(false)),
        grant(1, 3, 5, Command::Defined(false)),
        grant(2, 3, 3, Command::Defined(true)),
    ];
    let (proposals, _) = client.exec(grants);
    assert_eq!(client.state, Phase::AwaitingSuccess);
    assert_eq!(client.command, Command::Defined(false));
    assert_eq!(proposals.len(), 3);
    for p in proposals.iter() {
        assert!(matches!(p.content, Message::Propose(1, Command::Defined(false))));
    }
}

#[test]
fn preservation_keeps_own_command_without_accepts() {
    // Grants that report t_store zero leave the proposer's command alone.
    let mut client = Client::new(3, vec![0, 1, 2], Command::Defined(false));
    let (_, _) = client.exec(Vec::new());
    let grants = vec![
        grant(0, 3, 0, Command::Undefined),
        grant(1, 3, 0, Command::Undefined),
    ];
    let (proposals, _) = client.exec(grants);
    assert_eq!(client.command, Command::Defined(false));
    assert_eq!(proposals.len(), 2);
}

#[test]
fn client_times_out_to_fresh_ticket() {
    // Without a majority the proposer counts its timer down and falls
    // back to asking for a new ticket.
    let mut client = Client::new(2, vec![0, 1], Command::Defined(true));
    let (_, _) = client.exec(Vec::new());
    assert_eq!(client.cur_ticket, 1);
    for _ in 0..50 {
        let (outs, _) = client.exec(Vec::new());
        assert!(outs.is_empty());
        assert_eq!(client.state, Phase::Proposing);
    }
    let (outs, _) = client.exec(Vec::new());
    assert!(outs.is_empty());
    assert_eq!(client.state, Phase::AskingTicket);
    let (asks, _) = client.exec(Vec::new());
    assert_eq!(client.cur_ticket, 2);
    assert_eq!(asks.len(), 2);
    assert!(matches!(asks[0].content, Message::Ask(2)));
}

#[test]
fn server_grants_only_rising_tickets() {
    // Ticket monotonicity, concretely: Ask(5) raises t_max and is
    // granted; a later Ask(3) is silently dropped and t_max stays.
    let mut server = Server::new(0);
    let ask5 = Packet { sender: 7, receiver: 0, content: Message::Ask(5) };
    let (replies, _) = server.exec(vec![ask5]);
    assert_eq!(server.t_max, 5);
    assert_eq!(replies.len(), 1);
    assert_eq!(replies[0].receiver, 7);
    assert!(matches!(replies[0].content, Message::Grant(0, Command::Undefined)));
    let ask3 = Packet { sender: 8, receiver: 0, content: Message::Ask(3) };
    let (replies2, _) = server.exec(vec![ask3]);
    assert!(replies2.is_empty());
    assert_eq!(server.t_max, 5);
}

#[test]
fn server_accepts_only_matching_ticket() {
    let mut server = Server::new(0);
    let ask = Packet { sender: 7, receiver: 0, content: Message::Ask(4) };
    let (_, _) = server.exec(vec![ask]);
    let stale = Packet { sender: 8, receiver: 0, content: Message::Propose(3, Command::Defined(true)) };
    let (none, _) = server.exec(vec![stale]);
    assert!(none.is_empty());
    assert_eq!(server.t_store, 0);
    assert_eq!(server.command, Command::Undefined);
    let exact = Packet { sender: 7, receiver: 0, content: Message::Propose(4, Command::Defined(true)) };
    let (success, _) = server.exec(vec![exact]);
    assert_eq!(success.len(), 1);
    assert!(matches!(success[0].content, Message::Success));
    assert_eq!(server.t_store, 4);
    assert_eq!(server.command, Command::Defined(true));
}

#[test]
fn decided_server_keeps_command() {
    // Stability, concretely: once decided, rounds that bring the same
    // command never change it, and decided never reverts.
    let mut server = Server::new(0);
    let execute = Packet { sender: 5, receiver: 0, content: Message::Execute(Command::Defined(true)) };
    let (outs, _) = server.exec(vec![execute]);
    assert!(outs.is_empty());
    assert!(server.decided);
    assert_eq!(server.command, Command::Defined(true));
    let again = Packet { sender: 6, receiver: 0, content: Message::Execute(Command::Defined(true)) };
    let ask = Packet { sender: 6, receiver: 0, content: Message::Ask(9) };
    let (_, _) = server.exec(vec![again, ask]);
    assert!(server.decided);
    assert_eq!(server.command, Command::Defined(true));
}
