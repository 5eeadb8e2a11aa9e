use paxos_sim::history::{DummyHistory, TrackHistory};
use paxos_sim::paxos::{Action, Command, System};

#[test]
fn paxos_rng_is_deterministic() {
    let seed = 42;
    let system1 = System::new_rand(20, 2, Some(seed));
    let system2 = System::new_rand(20, 2, Some(seed));
    assert_eq!(system1.client_commands(), system2.client_commands());
}

#[test]
fn paxos_3() {
    let mut system = System::new_rand(3, 1, None);
    let mut history: TrackHistory<Action> = TrackHistory::new();
    system.simulate(None, &mut history);
}

#[test]
fn paxos_terminates() {
    let seed = 420;
    let mut system = System::new_rand(3, 1, Some(seed));
    let mut history: TrackHistory<Action> = TrackHistory::new();
    system.simulate(None, &mut history);
}

#[test]
fn paxos_agrees() {
    let mut system = System::new_rand(3, 1, None);
    let mut history = DummyHistory::new();
    system.simulate(None, &mut history);
    assert!(system.servers_agree() != None)
}

#[test]
fn paxos_valid_history() {
    let seed = 420;
    let mut system = System::new_rand(3, 1, Some(seed));
    let mut history: TrackHistory<Action> = TrackHistory::new();
    system.simulate(None, &mut history);
    assert!(!history.as_string().is_empty());
}

#[test]
fn single_acceptor_decides() {
    // One proposer, one acceptor: decision within the wait timeout plus
    // the largest latency, and the decided command is the client's own.
    let mut system = System::new_rand(2, 1, Some(1));
    let initial = system.client_commands();
    assert_eq!(initial.len(), 1);
    let mut history = DummyHistory::new();
    system.simulate(Some(60), &mut history);
    assert!(system.decided());
    assert_eq!(system.servers_agree(), Some(initial[0]));
}

#[test]
fn seeded_run_decides_and_agrees() {
    let mut system = System::new_rand(3, 1, Some(420));
    let initial = system.client_commands();
    let mut history = DummyHistory::new();
    system.simulate(None, &mut history);
    assert!(system.decided());
    let agreed = system.servers_agree();
    assert!(agreed.is_some());
    let c = agreed.unwrap();
    assert!(initial.contains(&c));
}

#[test]
fn client_commands_deterministic_large() {
    let mut system1 = System::new_rand(20, 2, Some(64));
    let mut system2 = System::new_rand(20, 2, Some(64));
    assert_eq!(system1.client_commands(), system2.client_commands());
    // the whole runs stay in lockstep, traces included
    let mut h1: TrackHistory<Action> = TrackHistory::new();
    let mut h2: TrackHistory<Action> = TrackHistory::new();
    system1.simulate(Some(200), &mut h1);
    system2.simulate(Some(200), &mut h2);
    assert_eq!(system1.client_commands(), system2.client_commands());
    assert_eq!(h1.as_string(), h2.as_string());
}

#[test]
fn agreement_under_contention() {
    // Several proposers race; the decided command is one of the initial
    // client commands, never a mix and never undefined.
    let mut system = System::new_rand(5, 3, Some(7));
    let initial = system.client_commands();
    assert_eq!(initial.len(), 2);
    let mut history = DummyHistory::new();
    system.simulate(None, &mut history);
    assert!(system.decided());
    let agreed = system.servers_agree();
    assert!(agreed.is_some());
    let c = agreed.unwrap();
    assert!(c != Command::Undefined);
    assert!(c == initial[0] || c == initial[1]);
}

#[test]
fn no_servers_is_immediately_decided() {
    let mut system = System::new_rand(2, 0, Some(5));
    assert!(system.decided());
    let mut history = DummyHistory::new();
    system.simulate(None, &mut history);
    assert_eq!(system.servers_agree(), None);
}

#[test]
fn lone_server_never_decides() {
    // A server with no client never receives an Execute.
    let mut system = System::new_rand(1, 1, Some(5));
    let mut history = DummyHistory::new();
    system.simulate(Some(10), &mut history);
    assert!(!system.decided());
    assert_eq!(system.servers_agree(), Some(Command::Undefined));
}
