use paxos_sim::history::Action as ActionTrait;
use paxos_sim::paxos::{Action, Command, Message, Phase, Value, Var};
use paxos_sim::text::usize_to_string;

#[test]
fn decimal_rendering() {
    assert_eq!(usize_to_string(0), "0");
    assert_eq!(usize_to_string(7), "7");
    assert_eq!(usize_to_string(42), "42");
    assert_eq!(usize_to_string(100), "100");
    assert_eq!(usize_to_string(65535), "65535");
}

#[test]
fn action_rendering() {
    let store = Action::Store(Var::TMax, Value::Ticket(5));
    assert_eq!(store.as_string(), "store t_max = 5");
    let send = Action::Send(3, Message::Ask(2));
    assert_eq!(send.as_string(), "send Ask(2) to 3");
    let receive = Action::Receive(1, Message::Grant(0, Command::Undefined));
    assert_eq!(receive.as_string(), "received Ok(0, undef) from 1");
    let change = Action::StateChange(Phase::AskingTicket, Phase::Proposing);
    assert_eq!(change.as_string(), "change state from 0 to 1");
    let decide = Action::Decide(Command::Defined(true));
    assert_eq!(decide.as_string(), "decides for 1");
}
